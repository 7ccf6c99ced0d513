//! The routing trie: a tree of nodes keyed by path segment, with insertion of
//! route templates and lookup of concrete paths.
//!
//! A node's label is the literal segment it matches; the empty label marks a
//! capture node, which matches any single segment. A node's value, if any,
//! carries the route value and the capture names gathered along the path from
//! the root, in depth order.
use vstd::prelude::*;

use crate::paths::{segments_of, spec_join, split_path, string_of};

verus! {

/// A template segment that starts with the capture marker binds the matched
/// segment to the name after the marker.
pub open spec fn is_capture(seg: Seq<char>) -> bool {
    seg.len() > 0 && seg[0] == ':'
}

/// The name of the synthetic capture that carries the unmatched trailing
/// segments of a partial match.
pub open spec fn remaining_name() -> Seq<char> {
    "_remaining"@
}

/// The mathematical model of a node: the same shape as `Tree`, over `Seq`.
pub ghost struct SpecTree<T> {
    pub label: Seq<char>,
    pub value: Option<(T, Seq<Seq<char>>)>,
    pub branches: Seq<SpecTree<T>>,
}

/// The error of inserting a second template with the segment sequence of an
/// earlier one.
#[derive(Debug, PartialEq, Eq)]
pub struct DuplicateRoute;

/// The position of the first branch whose label is `lbl`, if any.
pub open spec fn spec_first_child<T>(bs: Seq<SpecTree<T>>, lbl: Seq<char>) -> Option<int>
    decreases bs.len(),
{
    if bs.len() == 0 {
        None
    } else if bs[0].label == lbl {
        Some(0)
    } else {
        match spec_first_child(bs.drop_first(), lbl) {
            None => None,
            Some(i) => Some(i + 1),
        }
    }
}

/// What `spec_first_child` finds: the first branch carrying the label.
pub proof fn lemma_first_child_props<T>(bs: Seq<SpecTree<T>>, lbl: Seq<char>)
    ensures
        match spec_first_child(bs, lbl) {
            None => forall|j: int| 0 <= j < bs.len() ==> bs[j].label != lbl,
            Some(i) => 0 <= i < bs.len() && bs[i].label == lbl && (forall|j: int|
                0 <= j < i ==> bs[j].label != lbl),
        },
    decreases bs.len(),
{
    if bs.len() > 0 && bs[0].label != lbl {
        let tail = bs.drop_first();
        lemma_first_child_props(tail, lbl);
        assert(forall|j: int| 0 <= j < tail.len() ==> tail[j] == bs[j + 1]);
        match spec_first_child(tail, lbl) {
            None => {
                assert forall|j: int| 0 <= j < bs.len() implies bs[j].label != lbl by {
                    if j > 0 {
                        assert(bs[j] == tail[j - 1]);
                    }
                }
            },
            Some(i) => {
                assert(bs[i + 1] == tail[i]);
                assert forall|j: int| 0 <= j < i + 1 implies bs[j].label != lbl by {
                    if j > 0 {
                        assert(bs[j] == tail[j - 1]);
                    }
                }
            },
        }
    }
}

/// A first matching branch determines `spec_first_child`.
pub proof fn lemma_first_child_at<T>(bs: Seq<SpecTree<T>>, lbl: Seq<char>, i: int)
    requires
        0 <= i < bs.len(),
        bs[i].label == lbl,
        forall|j: int| 0 <= j < i ==> bs[j].label != lbl,
    ensures
        spec_first_child(bs, lbl) == Some(i),
    decreases i,
{
    if i > 0 {
        assert(forall|j: int| 0 <= j < bs.len() - 1 ==> bs.drop_first()[j] == bs[j + 1]);
        lemma_first_child_at(bs.drop_first(), lbl, i - 1);
    }
}

/// No matching branch means `spec_first_child` finds none.
pub proof fn lemma_first_child_none<T>(bs: Seq<SpecTree<T>>, lbl: Seq<char>)
    requires
        forall|j: int| 0 <= j < bs.len() ==> bs[j].label != lbl,
    ensures
        spec_first_child(bs, lbl) is None,
    decreases bs.len(),
{
    if bs.len() > 0 {
        assert(forall|j: int| 0 <= j < bs.len() - 1 ==> bs.drop_first()[j] == bs[j + 1]);
        lemma_first_child_none(bs.drop_first(), lbl);
    }
}

/// A node with the given label and nothing else.
pub open spec fn spec_leaf<T>(lbl: Seq<char>) -> SpecTree<T> {
    SpecTree { label: lbl, value: None, branches: Seq::empty() }
}

/// The tree after registering the template `segs` with `value`, walking from
/// this node, together with whether the registration succeeded; `pending`
/// holds the capture names gathered above this node. A literal segment
/// descends into the branch with that label, creating it if missing; a
/// capture segment records its name and descends into the capture branch
/// (empty label), creating it if missing; an existing branch labelled like
/// the segment always takes priority. At the end of the template the value is
/// set, unless the node already carries one: that is a duplicate route, and
/// the tree is returned as it stands.
pub open spec fn spec_add<T>(
    t: SpecTree<T>,
    segs: Seq<Seq<char>>,
    value: T,
    pending: Seq<Seq<char>>,
) -> (SpecTree<T>, bool)
    decreases segs.len(),
{
    if segs.len() == 0 {
        if t.value is Some {
            (t, false)
        } else {
            (SpecTree { label: t.label, value: Some((value, pending)), branches: t.branches }, true)
        }
    } else {
        let seg = segs[0];
        let rest = segs.drop_first();
        match spec_first_child(t.branches, seg) {
            Some(i) => {
                let (c, ok) = spec_add(t.branches[i], rest, value, pending);
                (SpecTree { label: t.label, value: t.value, branches: t.branches.update(i, c) }, ok)
            },
            None => {
                if is_capture(seg) {
                    let pending2 = pending.push(seg.drop_first());
                    match spec_first_child(t.branches, Seq::empty()) {
                        Some(i) => {
                            let (c, ok) = spec_add(t.branches[i], rest, value, pending2);
                            (
                                SpecTree {
                                    label: t.label,
                                    value: t.value,
                                    branches: t.branches.update(i, c),
                                },
                                ok,
                            )
                        },
                        None => {
                            let (c, ok) = spec_add(spec_leaf(Seq::empty()), rest, value, pending2);
                            (
                                SpecTree {
                                    label: t.label,
                                    value: t.value,
                                    branches: t.branches.push(c),
                                },
                                ok,
                            )
                        },
                    }
                } else {
                    let (c, ok) = spec_add(spec_leaf(seg), rest, value, pending);
                    (
                        SpecTree { label: t.label, value: t.value, branches: t.branches.push(c) },
                        ok,
                    )
                }
            },
        }
    }
}

/// The result of looking `segs` up from this node: the matched route's value,
/// its stored capture names, and the capture values bound below this node.
/// At every node, an exact match on the first branch with the literal label
/// wins; otherwise a match through the capture branch, binding the current
/// segment. Failing both, a partial match is tried, in one of two forms, and
/// only at nodes with a non-empty label (so never at the root nor at a
/// capture node): a route at a labelled leaf swallows exactly one unmatched
/// trailing segment, and a route on an exactly matching branch of a labelled
/// node swallows that branch's segment and everything after it. Either way
/// the swallowed segments, joined by `'/'`, are bound to one extra synthetic
/// capture.
pub open spec fn spec_find<T>(t: SpecTree<T>, segs: Seq<Seq<char>>) -> Option<
    (T, Seq<Seq<char>>, Seq<Seq<char>>),
>
    decreases segs.len(),
{
    if segs.len() == 0 {
        match t.value {
            None => None,
            Some((v, names)) => Some((v, names, Seq::empty())),
        }
    } else {
        let seg = segs[0];
        let rest = segs.drop_first();
        let exact = match spec_first_child(t.branches, seg) {
            Some(i) => spec_find(t.branches[i], rest),
            None => None,
        };
        if exact is Some {
            exact
        } else {
            let through_capture = match spec_first_child(t.branches, Seq::empty()) {
                Some(i) => spec_find(t.branches[i], rest),
                None => None,
            };
            match through_capture {
                Some((v, names, vals)) => Some((v, names, seq![seg] + vals)),
                None => {
                    if t.label.len() > 0 && t.branches.len() == 0 && rest.len() == 0 {
                        match t.value {
                            None => None,
                            Some((v, names)) => Some(
                                (v, names.push(remaining_name()), seq![seg]),
                            ),
                        }
                    } else if t.label.len() > 0 {
                        match spec_first_child(t.branches, seg) {
                            Some(i) => match t.branches[i].value {
                                None => None,
                                Some((v, names)) => Some(
                                    (v, names.push(remaining_name()), seq![spec_join(segs)]),
                                ),
                            },
                            None => None,
                        }
                    } else {
                        None
                    }
                },
            }
        }
    }
}

/// Well-formedness of a node with `caps` capture branches on the path above
/// it: a stored capture-name list has exactly one name per capture branch on
/// the way down to it, and no branch label starts with the capture marker
/// (capture branches carry the empty label instead).
pub open spec fn wf<T>(t: SpecTree<T>, caps: nat) -> bool
    decreases t,
{
    &&& (t.value matches Some((v, names)) ==> names.len() == caps)
    &&& (forall|i: int|
        0 <= i < t.branches.len() ==> !is_capture(#[trigger] t.branches[i].label))
    &&& (forall|i: int|
        0 <= i < t.branches.len() ==> wf(
            #[trigger] t.branches[i],
            caps + (if t.branches[i].label.len() == 0 {
                1nat
            } else {
                0nat
            }),
        ))
}

/// A template's normalized segment sequence: every capture segment becomes
/// the empty label, the label of the capture branch it shares.
pub open spec fn normalize(segs: Seq<Seq<char>>) -> Seq<Seq<char>> {
    Seq::new(
        segs.len(),
        |i: int|
            if is_capture(segs[i]) {
                Seq::<char>::empty()
            } else {
                segs[i]
            },
    )
}

/// The capture names a template declares, in depth order: the text after the
/// marker of each capture segment.
pub open spec fn capture_names(segs: Seq<Seq<char>>) -> Seq<Seq<char>>
    decreases segs.len(),
{
    if segs.len() == 0 {
        Seq::empty()
    } else if is_capture(segs[0]) {
        seq![segs[0].drop_first()] + capture_names(segs.drop_first())
    } else {
        capture_names(segs.drop_first())
    }
}

/// The value stored at the node a normalized segment path leads to, if any.
pub open spec fn value_at<T>(t: SpecTree<T>, path: Seq<Seq<char>>) -> Option<(T, Seq<Seq<char>>)>
    decreases path.len(),
{
    if path.len() == 0 {
        t.value
    } else {
        match spec_first_child(t.branches, path[0]) {
            None => None,
            Some(i) => value_at(t.branches[i], path.drop_first()),
        }
    }
}

/// No branch label anywhere in the tree starts with the capture marker:
/// capture branches carry the empty label instead.
pub open spec fn labels_ok<T>(t: SpecTree<T>) -> bool
    decreases t,
{
    &&& (forall|i: int|
        0 <= i < t.branches.len() ==> !is_capture(#[trigger] t.branches[i].label))
    &&& (forall|i: int| 0 <= i < t.branches.len() ==> labels_ok(#[trigger] t.branches[i]))
}

/// Well-formedness includes that no label starts with the capture marker.
pub proof fn lemma_wf_labels_ok<T>(t: SpecTree<T>, caps: nat)
    requires
        wf(t, caps),
    ensures
        labels_ok(t),
    decreases t,
{
    assert forall|i: int| 0 <= i < t.branches.len() implies labels_ok(
        #[trigger] t.branches[i],
    ) by {
        lemma_wf_labels_ok(
            t.branches[i],
            caps + (if t.branches[i].label.len() == 0 {
                1nat
            } else {
                0nat
            }),
        );
    }
}

/// The first matching branch depends on the labels alone.
proof fn lemma_first_child_same_labels<T>(bs1: Seq<SpecTree<T>>, bs2: Seq<SpecTree<T>>, lbl: Seq<char>)
    requires
        bs1.len() == bs2.len(),
        forall|j: int| 0 <= j < bs1.len() ==> bs1[j].label == bs2[j].label,
    ensures
        spec_first_child(bs1, lbl) == spec_first_child(bs2, lbl),
{
    lemma_first_child_props(bs1, lbl);
    lemma_first_child_props(bs2, lbl);
    match spec_first_child(bs1, lbl) {
        None => {
            lemma_first_child_none(bs2, lbl);
        },
        Some(i) => {
            lemma_first_child_at(bs2, lbl, i);
        },
    }
}

/// Registration leaves a node's own label alone.
pub proof fn lemma_add_keeps_label<T>(t: SpecTree<T>, segs: Seq<Seq<char>>, value: T, pending: Seq<Seq<char>>)
    ensures
        spec_add(t, segs, value, pending).0.label == t.label,
{
}

/// What registration does to the branch list: labels of existing branches
/// stay, the node's value stays when segments remain, and at most one branch
/// is appended, labelled by the first segment's normalized form.
proof fn lemma_add_branch_labels<T>(t: SpecTree<T>, segs: Seq<Seq<char>>, value: T, pending: Seq<Seq<char>>)
    requires
        segs.len() > 0,
    ensures
        ({
            let t1 = spec_add(t, segs, value, pending).0;
            &&& t1.value == t.value
            &&& t.branches.len() <= t1.branches.len() <= t.branches.len() + 1
            &&& (forall|j: int|
                0 <= j < t.branches.len() ==> (#[trigger] t1.branches[j]).label
                    == t.branches[j].label)
            &&& (t1.branches.len() == t.branches.len() + 1 ==> t1.branches.last().label == (
            if is_capture(segs[0]) {
                Seq::<char>::empty()
            } else {
                segs[0]
            }))
        }),
{
    let seg = segs[0];
    let rest = segs.drop_first();
    match spec_first_child(t.branches, seg) {
        Some(i) => {
            lemma_first_child_props(t.branches, seg);
            lemma_add_keeps_label(t.branches[i], rest, value, pending);
        },
        None => {
            if is_capture(seg) {
                let pending2 = pending.push(seg.drop_first());
                match spec_first_child(t.branches, Seq::<char>::empty()) {
                    Some(i) => {
                        lemma_first_child_props(t.branches, Seq::<char>::empty());
                        lemma_add_keeps_label(t.branches[i], rest, value, pending2);
                    },
                    None => {
                        lemma_add_keeps_label(spec_leaf::<T>(Seq::empty()), rest, value, pending2);
                    },
                }
            } else {
                lemma_add_keeps_label(spec_leaf::<T>(seg), rest, value, pending);
            }
        },
    }
}

/// Registration keeps every branch label free of the capture marker.
proof fn lemma_add_labels_ok<T>(t: SpecTree<T>, segs: Seq<Seq<char>>, value: T, pending: Seq<Seq<char>>)
    requires
        labels_ok(t),
    ensures
        labels_ok(spec_add(t, segs, value, pending).0),
    decreases segs.len(),
{
    let t1 = spec_add(t, segs, value, pending).0;
    if segs.len() > 0 {
        let seg = segs[0];
        let rest = segs.drop_first();
        match spec_first_child(t.branches, seg) {
            Some(i) => {
                lemma_first_child_props(t.branches, seg);
                lemma_add_labels_ok(t.branches[i], rest, value, pending);
                lemma_add_keeps_label(t.branches[i], rest, value, pending);
                assert forall|j: int| 0 <= j < t1.branches.len() implies !is_capture(
                    (#[trigger] t1.branches[j]).label,
                ) && labels_ok(t1.branches[j]) by {
                    if j != i {
                        assert(t1.branches[j] == t.branches[j]);
                    }
                }
            },
            None => {
                if is_capture(seg) {
                    let pending2 = pending.push(seg.drop_first());
                    match spec_first_child(t.branches, Seq::<char>::empty()) {
                        Some(i) => {
                            lemma_first_child_props(t.branches, Seq::<char>::empty());
                            lemma_add_labels_ok(t.branches[i], rest, value, pending2);
                            lemma_add_keeps_label(t.branches[i], rest, value, pending2);
                            assert forall|j: int| 0 <= j < t1.branches.len() implies !is_capture(
                                (#[trigger] t1.branches[j]).label,
                            ) && labels_ok(t1.branches[j]) by {
                                if j != i {
                                    assert(t1.branches[j] == t.branches[j]);
                                }
                            }
                        },
                        None => {
                            lemma_add_labels_ok(spec_leaf::<T>(Seq::empty()), rest, value, pending2);
                            lemma_add_keeps_label(spec_leaf::<T>(Seq::empty()), rest, value, pending2);
                            assert forall|j: int| 0 <= j < t1.branches.len() implies !is_capture(
                                (#[trigger] t1.branches[j]).label,
                            ) && labels_ok(t1.branches[j]) by {
                                if j < t.branches.len() {
                                    assert(t1.branches[j] == t.branches[j]);
                                }
                            }
                        },
                    }
                } else {
                    lemma_add_labels_ok(spec_leaf::<T>(seg), rest, value, pending);
                    lemma_add_keeps_label(spec_leaf::<T>(seg), rest, value, pending);
                    assert forall|j: int| 0 <= j < t1.branches.len() implies !is_capture(
                        (#[trigger] t1.branches[j]).label,
                    ) && labels_ok(t1.branches[j]) by {
                        if j < t.branches.len() {
                            assert(t1.branches[j] == t.branches[j]);
                        }
                    }
                }
            },
        }
    }
}

/// Registration into a value-free single node always succeeds.
proof fn lemma_add_fresh<T>(lbl: Seq<char>, segs: Seq<Seq<char>>, value: T, pending: Seq<Seq<char>>)
    ensures
        spec_add(spec_leaf::<T>(lbl), segs, value, pending).1,
    decreases segs.len(),
{
    if segs.len() > 0 {
        let seg = segs[0];
        let rest = segs.drop_first();
        if is_capture(seg) {
            lemma_add_fresh::<T>(Seq::empty(), rest, value, pending.push(seg.drop_first()));
        } else {
            lemma_add_fresh::<T>(seg, rest, value, pending);
        }
    }
}

/// A failed registration leaves the tree exactly as it was.
pub proof fn lemma_add_fail_id<T>(t: SpecTree<T>, segs: Seq<Seq<char>>, value: T, pending: Seq<Seq<char>>)
    requires
        !spec_add(t, segs, value, pending).1,
    ensures
        spec_add(t, segs, value, pending).0 == t,
    decreases segs.len(),
{
    let t1 = spec_add(t, segs, value, pending).0;
    if segs.len() > 0 {
        let seg = segs[0];
        let rest = segs.drop_first();
        match spec_first_child(t.branches, seg) {
            Some(i) => {
                lemma_first_child_props(t.branches, seg);
                lemma_add_fail_id(t.branches[i], rest, value, pending);
                assert(t1.branches =~= t.branches);
            },
            None => {
                if is_capture(seg) {
                    let pending2 = pending.push(seg.drop_first());
                    match spec_first_child(t.branches, Seq::<char>::empty()) {
                        Some(i) => {
                            lemma_first_child_props(t.branches, Seq::<char>::empty());
                            lemma_add_fail_id(t.branches[i], rest, value, pending2);
                            assert(t1.branches =~= t.branches);
                        },
                        None => {
                            lemma_add_fresh::<T>(Seq::empty(), rest, value, pending2);
                        },
                    }
                } else {
                    lemma_add_fresh::<T>(seg, rest, value, pending);
                }
            },
        }
    }
}

/// Appending a branch changes which branch matches first only where none
/// matched before.
proof fn lemma_first_child_push<T>(bs: Seq<SpecTree<T>>, c: SpecTree<T>, lbl: Seq<char>)
    ensures
        spec_first_child(bs.push(c), lbl) == match spec_first_child(bs, lbl) {
            Some(i) => Some(i),
            None => if c.label == lbl {
                Some(bs.len() as int)
            } else {
                None
            },
        },
{
    lemma_first_child_props(bs, lbl);
    match spec_first_child(bs, lbl) {
        Some(i) => {
            lemma_first_child_at(bs.push(c), lbl, i);
        },
        None => {
            if c.label == lbl {
                lemma_first_child_at(bs.push(c), lbl, bs.len() as int);
            } else {
                lemma_first_child_none(bs.push(c), lbl);
            }
        },
    }
}

/// Two non-empty sequences with equal heads and equal tails are equal.
proof fn lemma_cons_eq(q: Seq<Seq<char>>, n: Seq<Seq<char>>)
    requires
        q.len() > 0,
        n.len() > 0,
        q[0] == n[0],
        q.drop_first() == n.drop_first(),
    ensures
        q == n,
{
    assert(q.drop_first().len() == q.len() - 1);
    assert(n.drop_first().len() == n.len() - 1);
    assert(q.len() == n.len());
    assert forall|k: int| 0 <= k < q.len() implies q[k] == n[k] by {
        if k > 0 {
            assert(q[k] == q.drop_first()[k - 1]);
            assert(n[k] == n.drop_first()[k - 1]);
        }
    }
    assert(q =~~= n);
}

/// In a subtree grown from a single value-free node, exactly one normalized
/// path carries a value: the registered one, with the gathered capture names.
proof fn lemma_fresh_value_at<T>(
    lbl: Seq<char>,
    segs: Seq<Seq<char>>,
    value: T,
    pending: Seq<Seq<char>>,
    q: Seq<Seq<char>>,
)
    ensures
        value_at(spec_add(spec_leaf::<T>(lbl), segs, value, pending).0, q) == (if q == normalize(
            segs,
        ) {
            Some((value, pending + capture_names(segs)))
        } else {
            None::<(T, Seq<Seq<char>>)>
        }),
    decreases segs.len(),
{
    let t1 = spec_add(spec_leaf::<T>(lbl), segs, value, pending).0;
    if segs.len() == 0 {
        assert(normalize(segs) =~~= Seq::<Seq<char>>::empty());
        if q.len() == 0 {
            assert(q =~~= normalize(segs));
            assert(pending + capture_names(segs) =~~= pending);
        }
    } else {
        let seg = segs[0];
        let rest = segs.drop_first();
        let norm0 = if is_capture(seg) {
            Seq::<char>::empty()
        } else {
            seg
        };
        assert(normalize(segs)[0] == norm0);
        assert(normalize(segs).drop_first() =~~= normalize(rest));
        let pending2 = if is_capture(seg) {
            pending.push(seg.drop_first())
        } else {
            pending
        };
        let inner_lbl = norm0;
        let c1 = spec_add(spec_leaf::<T>(inner_lbl), rest, value, pending2).0;
        lemma_add_keeps_label(spec_leaf::<T>(inner_lbl), rest, value, pending2);
        assert(t1.branches =~= Seq::<SpecTree<T>>::empty().push(c1));
        if q.len() == 0 {
            assert(value_at(t1, q) == t1.value);
        } else {
            lemma_first_child_push(Seq::<SpecTree<T>>::empty(), c1, q[0]);
            if q[0] == norm0 {
                assert(spec_first_child(t1.branches, q[0]) == Some(0int));
                lemma_fresh_value_at(inner_lbl, rest, value, pending2, q.drop_first());
                if q.drop_first() == normalize(rest) {
                    lemma_cons_eq(q, normalize(segs));
                    if is_capture(seg) {
                        assert(capture_names(segs) == seq![seg.drop_first()] + capture_names(
                            rest,
                        ));
                        assert(pending2 + capture_names(rest) =~~= pending + capture_names(segs));
                    } else {
                        assert(pending2 + capture_names(rest) =~~= pending + capture_names(segs));
                    }
                } else {
                    assert(q != normalize(segs));
                }
            } else {
                assert(q != normalize(segs));
            }
        }
    }
}

/// Capture ordering: a successful registration stores, at the template's
/// normalized path, the registered value together with the template's capture
/// names, in the order the template declares them.
pub proof fn lemma_add_records_captures<T>(
    t: SpecTree<T>,
    segs: Seq<Seq<char>>,
    value: T,
    pending: Seq<Seq<char>>,
)
    requires
        labels_ok(t),
        spec_add(t, segs, value, pending).1,
    ensures
        value_at(spec_add(t, segs, value, pending).0, normalize(segs)) == Some(
            (value, pending + capture_names(segs)),
        ),
    decreases segs.len(),
{
    let t1 = spec_add(t, segs, value, pending).0;
    if segs.len() == 0 {
        assert(normalize(segs) =~~= Seq::<Seq<char>>::empty());
        assert(pending + capture_names(segs) =~~= pending);
    } else {
        let seg = segs[0];
        let rest = segs.drop_first();
        let norm = normalize(segs);
        assert(norm.drop_first() =~~= normalize(rest));
        lemma_add_branch_labels(t, segs, value, pending);
        match spec_first_child(t.branches, seg) {
            Some(i) => {
                lemma_first_child_props(t.branches, seg);
                assert(t.branches[i].label == seg);
                assert(!is_capture(seg));
                assert(norm[0] == seg);
                lemma_first_child_same_labels(t1.branches, t.branches, seg);
                assert(spec_first_child(t1.branches, norm[0]) == Some(i));
                lemma_add_records_captures(t.branches[i], rest, value, pending);
                assert(capture_names(segs) == capture_names(rest));
            },
            None => {
                if is_capture(seg) {
                    let pending2 = pending.push(seg.drop_first());
                    assert(norm[0] =~= Seq::<char>::empty());
                    match spec_first_child(t.branches, Seq::<char>::empty()) {
                        Some(i) => {
                            lemma_first_child_props(t.branches, Seq::<char>::empty());
                            lemma_first_child_same_labels(
                                t1.branches,
                                t.branches,
                                Seq::<char>::empty(),
                            );
                            assert(spec_first_child(t1.branches, Seq::<char>::empty()) == Some(
                                i,
                            ));
                            lemma_add_records_captures(t.branches[i], rest, value, pending2);
                        },
                        None => {
                            let c1 = spec_add(
                                spec_leaf::<T>(Seq::empty()),
                                rest,
                                value,
                                pending2,
                            ).0;
                            lemma_add_keeps_label(
                                spec_leaf::<T>(Seq::empty()),
                                rest,
                                value,
                                pending2,
                            );
                            lemma_first_child_push(t.branches, c1, Seq::<char>::empty());
                            assert(spec_first_child(t1.branches, Seq::<char>::empty()) == Some(
                                t.branches.len() as int,
                            ));
                            lemma_fresh_value_at(
                                Seq::<char>::empty(),
                                rest,
                                value,
                                pending2,
                                normalize(rest),
                            );
                        },
                    }
                    assert(capture_names(segs) == seq![seg.drop_first()] + capture_names(rest));
                    assert(pending2 + capture_names(rest) =~~= pending + capture_names(segs));
                } else {
                    assert(norm[0] == seg);
                    let c1 = spec_add(spec_leaf::<T>(seg), rest, value, pending).0;
                    lemma_add_keeps_label(spec_leaf::<T>(seg), rest, value, pending);
                    lemma_first_child_push(t.branches, c1, seg);
                    assert(spec_first_child(t1.branches, norm[0]) == Some(
                        t.branches.len() as int,
                    ));
                    lemma_fresh_value_at(seg, rest, value, pending, normalize(rest));
                    assert(capture_names(segs) == capture_names(rest));
                }
            },
        }
    }
}

/// Registering one template never touches the value at any other normalized
/// path: what an earlier registration bound stays bound, whatever its
/// siblings, and in particular sibling registrations cannot reorder or change
/// a route's capture names.
pub proof fn lemma_add_preserves_routes<T>(
    t: SpecTree<T>,
    segs: Seq<Seq<char>>,
    value: T,
    pending: Seq<Seq<char>>,
    q: Seq<Seq<char>>,
)
    requires
        labels_ok(t),
        q != normalize(segs),
    ensures
        value_at(spec_add(t, segs, value, pending).0, q) == value_at(t, q),
    decreases segs.len(),
{
    let t1 = spec_add(t, segs, value, pending).0;
    if segs.len() == 0 {
        assert(normalize(segs) =~~= Seq::<Seq<char>>::empty());
        if q.len() == 0 {
            assert(q =~~= normalize(segs));
        }
        assert(q.len() > 0);
    } else {
        let seg = segs[0];
        let rest = segs.drop_first();
        let norm = normalize(segs);
        assert(norm.drop_first() =~~= normalize(rest));
        lemma_add_branch_labels(t, segs, value, pending);
        if q.len() == 0 {
            assert(value_at(t1, q) == t1.value);
        } else {
            match spec_first_child(t.branches, seg) {
                Some(i) => {
                    lemma_first_child_props(t.branches, seg);
                    lemma_first_child_props(t.branches, q[0]);
                    assert(!is_capture(seg));
                    assert(norm[0] == seg);
                    lemma_first_child_same_labels(t1.branches, t.branches, q[0]);
                    match spec_first_child(t.branches, q[0]) {
                        None => {},
                        Some(k) => {
                            if k == i {
                                assert(q[0] == seg);
                                if q.drop_first() == normalize(rest) {
                                    lemma_cons_eq(q, norm);
                                }
                                lemma_add_preserves_routes(
                                    t.branches[i],
                                    rest,
                                    value,
                                    pending,
                                    q.drop_first(),
                                );
                            } else {
                                assert(t1.branches[k] == t.branches[k]);
                            }
                        },
                    }
                },
                None => {
                    if is_capture(seg) {
                        let pending2 = pending.push(seg.drop_first());
                        assert(norm[0] =~= Seq::<char>::empty());
                        match spec_first_child(t.branches, Seq::<char>::empty()) {
                            Some(i) => {
                                lemma_first_child_props(t.branches, Seq::<char>::empty());
                                lemma_first_child_props(t.branches, q[0]);
                                lemma_first_child_same_labels(t1.branches, t.branches, q[0]);
                                match spec_first_child(t.branches, q[0]) {
                                    None => {},
                                    Some(k) => {
                                        if k == i {
                                            assert(q[0] =~= Seq::<char>::empty());
                                            if q.drop_first() == normalize(rest) {
                                                lemma_cons_eq(q, norm);
                                            }
                                            lemma_add_preserves_routes(
                                                t.branches[i],
                                                rest,
                                                value,
                                                pending2,
                                                q.drop_first(),
                                            );
                                        } else {
                                            assert(t1.branches[k] == t.branches[k]);
                                        }
                                    },
                                }
                            },
                            None => {
                                let c1 = spec_add(
                                    spec_leaf::<T>(Seq::empty()),
                                    rest,
                                    value,
                                    pending2,
                                ).0;
                                lemma_add_keeps_label(
                                    spec_leaf::<T>(Seq::empty()),
                                    rest,
                                    value,
                                    pending2,
                                );
                                lemma_first_child_push(t.branches, c1, q[0]);
                                lemma_first_child_props(t.branches, q[0]);
                                match spec_first_child(t.branches, q[0]) {
                                    Some(k) => {
                                        assert(t1.branches[k] == t.branches[k]);
                                    },
                                    None => {
                                        if q[0] =~= Seq::<char>::empty() {
                                            if q.drop_first() == normalize(rest) {
                                                lemma_cons_eq(q, norm);
                                            }
                                            lemma_fresh_value_at(
                                                Seq::<char>::empty(),
                                                rest,
                                                value,
                                                pending2,
                                                q.drop_first(),
                                            );
                                        }
                                    },
                                }
                            },
                        }
                    } else {
                        assert(norm[0] == seg);
                        let c1 = spec_add(spec_leaf::<T>(seg), rest, value, pending).0;
                        lemma_add_keeps_label(spec_leaf::<T>(seg), rest, value, pending);
                        lemma_first_child_push(t.branches, c1, q[0]);
                        lemma_first_child_props(t.branches, q[0]);
                        match spec_first_child(t.branches, q[0]) {
                            Some(k) => {
                                assert(t1.branches[k] == t.branches[k]);
                            },
                            None => {
                                if q[0] == seg {
                                    if q.drop_first() == normalize(rest) {
                                        lemma_cons_eq(q, norm);
                                    }
                                    lemma_fresh_value_at(
                                        seg,
                                        rest,
                                        value,
                                        pending,
                                        q.drop_first(),
                                    );
                                }
                            },
                        }
                    }
                },
            }
        }
    }
}

/// An empty tree is well-formed at any depth.
pub proof fn lemma_leaf_wf<T>(lbl: Seq<char>, caps: nat)
    ensures
        wf(spec_leaf::<T>(lbl), caps),
{
}

/// Registration preserves well-formedness: with one gathered capture name
/// per capture branch above this node, the tree after `spec_add` is again
/// well-formed, whether or not the registration succeeded.
pub proof fn lemma_add_wf<T>(
    t: SpecTree<T>,
    segs: Seq<Seq<char>>,
    value: T,
    pending: Seq<Seq<char>>,
    caps: nat,
)
    requires
        wf(t, caps),
        pending.len() == caps,
        forall|i: int| 0 <= i < segs.len() ==> segs[i].len() > 0,
    ensures
        wf(spec_add(t, segs, value, pending).0, caps),
    decreases segs.len(),
{
    let t1 = spec_add(t, segs, value, pending).0;
    if segs.len() == 0 {
        assert(wf(t1, caps));
    } else {
        let seg = segs[0];
        let rest = segs.drop_first();
        assert(forall|i: int| 0 <= i < rest.len() ==> rest[i] == segs[i + 1]);
        match spec_first_child(t.branches, seg) {
            Some(i) => {
                lemma_first_child_props(t.branches, seg);
                assert(t.branches[i].label == seg);
                lemma_add_wf(t.branches[i], rest, value, pending, caps);
                lemma_add_keeps_label(t.branches[i], rest, value, pending);
                assert forall|j: int| 0 <= j < t1.branches.len() implies !is_capture(
                    #[trigger] t1.branches[j].label,
                ) && wf(
                    t1.branches[j],
                    caps + (if t1.branches[j].label.len() == 0 {
                        1nat
                    } else {
                        0nat
                    }),
                ) by {
                    if j != i {
                        assert(t1.branches[j] == t.branches[j]);
                    }
                }
            },
            None => {
                if is_capture(seg) {
                    let pending2 = pending.push(seg.drop_first());
                    match spec_first_child(t.branches, Seq::<char>::empty()) {
                        Some(i) => {
                            lemma_first_child_props(t.branches, Seq::<char>::empty());
                            assert(t.branches[i].label.len() == 0);
                            lemma_add_wf(t.branches[i], rest, value, pending2, caps + 1);
                            lemma_add_keeps_label(t.branches[i], rest, value, pending2);
                            assert forall|j: int| 0 <= j < t1.branches.len() implies !is_capture(
                                #[trigger] t1.branches[j].label,
                            ) && wf(
                                t1.branches[j],
                                caps + (if t1.branches[j].label.len() == 0 {
                                    1nat
                                } else {
                                    0nat
                                }),
                            ) by {
                                if j != i {
                                    assert(t1.branches[j] == t.branches[j]);
                                }
                            }
                        },
                        None => {
                            lemma_leaf_wf::<T>(Seq::empty(), (caps + 1) as nat);
                            lemma_add_wf(
                                spec_leaf(Seq::empty()),
                                rest,
                                value,
                                pending2,
                                caps + 1,
                            );
                            lemma_add_keeps_label(spec_leaf::<T>(Seq::empty()), rest, value, pending2);
                            assert forall|j: int| 0 <= j < t1.branches.len() implies !is_capture(
                                #[trigger] t1.branches[j].label,
                            ) && wf(
                                t1.branches[j],
                                caps + (if t1.branches[j].label.len() == 0 {
                                    1nat
                                } else {
                                    0nat
                                }),
                            ) by {
                                if j < t.branches.len() {
                                    assert(t1.branches[j] == t.branches[j]);
                                }
                            }
                        },
                    }
                } else {
                    lemma_leaf_wf::<T>(seg, caps);
                    lemma_add_wf(spec_leaf(seg), rest, value, pending, caps);
                    lemma_add_keeps_label(spec_leaf::<T>(seg), rest, value, pending);
                    assert forall|j: int| 0 <= j < t1.branches.len() implies !is_capture(
                        #[trigger] t1.branches[j].label,
                    ) && wf(
                        t1.branches[j],
                        caps + (if t1.branches[j].label.len() == 0 {
                            1nat
                        } else {
                            0nat
                        }),
                    ) by {
                        if j < t.branches.len() {
                            assert(t1.branches[j] == t.branches[j]);
                        }
                    }
                }
            },
        }
    }
}

/// A copy of a list of names.
fn copy_labels(v: &Vec<Vec<char>>) -> (r: Vec<Vec<char>>)
    ensures
        r.deep_view() == v.deep_view(),
{
    let mut r: Vec<Vec<char>> = Vec::new();
    let mut i: usize = 0;
    proof {
        assert(r.deep_view() =~~= v.deep_view().take(0));
    }
    while i < v.len()
        invariant
            i <= v.len(),
            r.deep_view() == v.deep_view().take(i as int),
        decreases v.len() - i,
    {
        let ghost r0 = r.deep_view();
        r.push(copy_chars(&v[i]));
        i = i + 1;
        proof {
            assert(r.deep_view() =~~= r0.push(v.deep_view()[i - 1]));
            assert(r0.push(v.deep_view()[i - 1]) =~~= v.deep_view().take(i as int));
        }
    }
    proof {
        assert(v.deep_view().take(v.deep_view().len() as int) =~~= v.deep_view());
    }
    r
}

/// In a well-formed tree, a successful lookup returns one bound value per
/// returned capture name: the name list of the matched route grows one name
/// past the capture branches above this node exactly when one more value is
/// bound.
pub proof fn lemma_find_len<T>(t: SpecTree<T>, segs: Seq<Seq<char>>, caps: nat)
    requires
        wf(t, caps),
        forall|i: int| 0 <= i < segs.len() ==> segs[i].len() > 0,
    ensures
        match spec_find(t, segs) {
            None => true,
            Some((v, names, vals)) => names.len() == caps + vals.len(),
        },
    decreases segs.len(),
{
    if segs.len() > 0 {
        let seg = segs[0];
        let rest = segs.drop_first();
        assert(forall|i: int| 0 <= i < rest.len() ==> rest[i] == segs[i + 1]);
        match spec_first_child(t.branches, seg) {
            Some(i) => {
                lemma_first_child_props(t.branches, seg);
                assert(t.branches[i].label == seg);
                lemma_find_len(t.branches[i], rest, caps);
                assert(wf(
                    t.branches[i],
                    caps + (if t.branches[i].label.len() == 0 {
                        1nat
                    } else {
                        0nat
                    }),
                ));
            },
            None => {},
        }
        match spec_first_child(t.branches, Seq::<char>::empty()) {
            Some(i) => {
                lemma_first_child_props(t.branches, Seq::<char>::empty());
                lemma_find_len(t.branches[i], rest, caps + 1);
            },
            None => {},
        }
    }
}

/// Updating one branch updates its model in place.
proof fn lemma_branches_view_update<T>(bs: Seq<Tree<T>>, j: int, c: Tree<T>)
    requires
        0 <= j < bs.len(),
    ensures
        branches_view(bs.update(j, c)) == branches_view(bs).update(j, c@),
{
    assert(branches_view(bs.update(j, c)) =~= branches_view(bs).update(j, c@));
}

/// Appending a branch appends its model.
proof fn lemma_branches_view_push<T>(bs: Seq<Tree<T>>, c: Tree<T>)
    ensures
        branches_view(bs.push(c)) == branches_view(bs).push(c@),
{
    assert(branches_view(bs.push(c)) =~= branches_view(bs).push(c@));
}

proof fn lemma_duplicate_fails<T>(
    t: SpecTree<T>,
    segs1: Seq<Seq<char>>,
    segs2: Seq<Seq<char>>,
    v1: T,
    v2: T,
    p1: Seq<Seq<char>>,
    p2: Seq<Seq<char>>,
)
    requires
        labels_ok(t),
        forall|i: int| 0 <= i < segs1.len() ==> segs1[i].len() > 0,
        forall|i: int| 0 <= i < segs2.len() ==> segs2[i].len() > 0,
        normalize(segs1) == normalize(segs2),
        spec_add(t, segs1, v1, p1).1,
    ensures
        !spec_add(spec_add(t, segs1, v1, p1).0, segs2, v2, p2).1,
    decreases segs1.len(),
{
    let t1 = spec_add(t, segs1, v1, p1).0;
    assert(normalize(segs1).len() == normalize(segs2).len());
    if segs1.len() == 0 {
        assert(t1.value is Some);
    } else {
        let seg1 = segs1[0];
        let seg2 = segs2[0];
        let rest1 = segs1.drop_first();
        let rest2 = segs2.drop_first();
        assert(normalize(segs1)[0] == normalize(segs2)[0]);
        assert(normalize(segs1).drop_first() =~~= normalize(rest1));
        assert(normalize(segs2).drop_first() =~~= normalize(rest2));
        assert(forall|i: int| 0 <= i < rest1.len() ==> rest1[i] == segs1[i + 1]);
        assert(forall|i: int| 0 <= i < rest2.len() ==> rest2[i] == segs2[i + 1]);
        lemma_add_branch_labels(t, segs1, v1, p1);
        if !is_capture(seg1) {
            assert(seg2 == seg1);
            match spec_first_child(t.branches, seg1) {
                Some(i) => {
                    lemma_first_child_props(t.branches, seg1);
                    let c1 = spec_add(t.branches[i], rest1, v1, p1).0;
                    lemma_first_child_same_labels(t1.branches, t.branches, seg1);
                    lemma_duplicate_fails(t.branches[i], rest1, rest2, v1, v2, p1, p2);
                },
                None => {
                    let c1 = spec_add(spec_leaf::<T>(seg1), rest1, v1, p1).0;
                    lemma_add_keeps_label(spec_leaf::<T>(seg1), rest1, v1, p1);
                    lemma_first_child_push(t.branches, c1, seg1);
                    assert(spec_first_child(t1.branches, seg1) == Some(t.branches.len() as int));
                    lemma_add_fresh::<T>(seg1, rest1, v1, p1);
                    lemma_duplicate_fails(spec_leaf::<T>(seg1), rest1, rest2, v1, v2, p1, p2);
                },
            }
        } else {
            assert(normalize(segs1)[0] =~= Seq::<char>::empty());
            assert(is_capture(seg2));
            let p1x = p1.push(seg1.drop_first());
            let p2x = p2.push(seg2.drop_first());
            assert forall|j: int| 0 <= j < t.branches.len() implies (#[trigger] t.branches[j]).label
                != seg1 by {
                if t.branches[j].label == seg1 {
                    assert(is_capture(t.branches[j].label));
                }
            }
            lemma_first_child_none(t.branches, seg1);
            assert forall|j: int| 0 <= j < t1.branches.len() implies (#[trigger] t1.branches[j]).label
                != seg2 by {
                if j < t.branches.len() {
                    assert(t1.branches[j].label == t.branches[j].label);
                    if t1.branches[j].label == seg2 {
                        assert(is_capture(t.branches[j].label));
                    }
                } else {
                    assert(t1.branches[j].label =~= Seq::<char>::empty());
                }
            }
            lemma_first_child_none(t1.branches, seg2);
            match spec_first_child(t.branches, Seq::<char>::empty()) {
                Some(i) => {
                    lemma_first_child_props(t.branches, Seq::<char>::empty());
                    lemma_first_child_same_labels(t1.branches, t.branches, Seq::<char>::empty());
                    lemma_duplicate_fails(t.branches[i], rest1, rest2, v1, v2, p1x, p2x);
                },
                None => {
                    let c1 = spec_add(spec_leaf::<T>(Seq::empty()), rest1, v1, p1x).0;
                    lemma_add_keeps_label(spec_leaf::<T>(Seq::empty()), rest1, v1, p1x);
                    lemma_first_child_push(t.branches, c1, Seq::<char>::empty());
                    assert(spec_first_child(t1.branches, Seq::<char>::empty()) == Some(
                        t.branches.len() as int,
                    ));
                    lemma_add_fresh::<T>(Seq::empty(), rest1, v1, p1x);
                    lemma_duplicate_fails(
                        spec_leaf::<T>(Seq::empty()),
                        rest1,
                        rest2,
                        v1,
                        v2,
                        p1x,
                        p2x,
                    );
                },
            }
        }
    }
}

/// Duplicate rejection: after a template is registered, registering any
/// template with the same normalized segment sequence fails, and leaves the
/// whole tree, in particular the value the first registration bound, exactly
/// as it was.
pub proof fn lemma_duplicate_rejected<T>(
    t: SpecTree<T>,
    segs1: Seq<Seq<char>>,
    segs2: Seq<Seq<char>>,
    v1: T,
    v2: T,
    p1: Seq<Seq<char>>,
    p2: Seq<Seq<char>>,
)
    requires
        labels_ok(t),
        forall|i: int| 0 <= i < segs1.len() ==> segs1[i].len() > 0,
        forall|i: int| 0 <= i < segs2.len() ==> segs2[i].len() > 0,
        normalize(segs1) == normalize(segs2),
        spec_add(t, segs1, v1, p1).1,
    ensures
        !spec_add(spec_add(t, segs1, v1, p1).0, segs2, v2, p2).1,
        spec_add(spec_add(t, segs1, v1, p1).0, segs2, v2, p2).0 == spec_add(t, segs1, v1, p1).0,
{
    lemma_duplicate_fails(t, segs1, segs2, v1, v2, p1, p2);
    lemma_add_fail_id(spec_add(t, segs1, v1, p1).0, segs2, v2, p2);
}

/// A literal template declares no captures.
proof fn lemma_capture_names_literal(segs: Seq<Seq<char>>)
    requires
        forall|i: int| 0 <= i < segs.len() ==> !is_capture(#[trigger] segs[i]),
    ensures
        capture_names(segs) == Seq::<Seq<char>>::empty(),
    decreases segs.len(),
{
    if segs.len() > 0 {
        assert(forall|i: int|
            0 <= i < segs.drop_first().len() ==> segs.drop_first()[i] == segs[i + 1]);
        lemma_capture_names_literal(segs.drop_first());
    }
}

/// A literal template is its own normalized segment sequence.
proof fn lemma_normalize_literal(segs: Seq<Seq<char>>)
    requires
        forall|i: int| 0 <= i < segs.len() ==> !is_capture(#[trigger] segs[i]),
    ensures
        normalize(segs) == segs,
{
    assert(normalize(segs) =~~= segs);
}

/// An exact lookup: looking up the very path at which a value is stored
/// returns that value with its stored capture names and binds nothing new.
pub proof fn lemma_exact_lookup<T>(t: SpecTree<T>, path: Seq<Seq<char>>)
    requires
        value_at(t, path) is Some,
        forall|i: int| 0 <= i < path.len() ==> (#[trigger] path[i]).len() > 0,
    ensures
        spec_find(t, path) == Some(
            (
                value_at(t, path)->Some_0.0,
                value_at(t, path)->Some_0.1,
                Seq::<Seq<char>>::empty(),
            ),
        ),
    decreases path.len(),
{
    if path.len() > 0 {
        let rest = path.drop_first();
        assert(forall|i: int| 0 <= i < rest.len() ==> rest[i] == path[i + 1]);
        match spec_first_child(t.branches, path[0]) {
            Some(i) => {
                lemma_exact_lookup(t.branches[i], rest);
            },
            None => {},
        }
    }
}

/// Longest-registered-prefix behaviour, the exact half: after successfully
/// registering a template with no captures, looking up exactly that path
/// returns the registered value with no captures at all.
pub proof fn lemma_registered_literal_found<T>(t: SpecTree<T>, segs: Seq<Seq<char>>, value: T)
    requires
        labels_ok(t),
        forall|i: int| 0 <= i < segs.len() ==> (#[trigger] segs[i]).len() > 0,
        forall|i: int| 0 <= i < segs.len() ==> !is_capture(#[trigger] segs[i]),
        spec_add(t, segs, value, Seq::empty()).1,
    ensures
        spec_find(spec_add(t, segs, value, Seq::empty()).0, segs) == Some(
            (value, Seq::<Seq<char>>::empty(), Seq::<Seq<char>>::empty()),
        ),
{
    lemma_add_records_captures(t, segs, value, Seq::empty());
    lemma_normalize_literal(segs);
    lemma_capture_names_literal(segs);
    assert(Seq::<Seq<char>>::empty() + capture_names(segs) =~~= Seq::<Seq<char>>::empty());
    lemma_exact_lookup(spec_add(t, segs, value, Seq::empty()).0, segs);
}

/// Idempotent segmentation: a lookup depends on the path only through its
/// segment sequence, so paths with extra leading, trailing or duplicated
/// slashes behave identically.
pub proof fn lemma_find_depends_on_segments<T>(t: SpecTree<T>, path1: Seq<char>, path2: Seq<char>)
    requires
        segments_of(path1) == segments_of(path2),
    ensures
        spec_find(t, segments_of(path1)) == spec_find(t, segments_of(path2)),
{
}

/// Idempotent segmentation: a registration depends on the template only
/// through its segment sequence, so templates with extra leading, trailing or
/// duplicated slashes behave identically.
pub proof fn lemma_add_depends_on_segments<T>(
    t: SpecTree<T>,
    path1: Seq<char>,
    path2: Seq<char>,
    value: T,
)
    requires
        segments_of(path1) == segments_of(path2),
    ensures
        spec_add(t, segments_of(path1), value, Seq::empty()) == spec_add(
            t,
            segments_of(path2),
            value,
            Seq::empty(),
        ),
{
}

/// Lookup is a pure query: its result is a function of the tree's model and
/// the path's segments alone. Together with `find` taking the tree by shared
/// reference, any number of lookups between two states with the same model
/// leave every later lookup's result unchanged.
pub proof fn lemma_find_no_mutation<T>(t1: SpecTree<T>, t2: SpecTree<T>, segs: Seq<Seq<char>>)
    requires
        t1 == t2,
    ensures
        spec_find(t1, segs) == spec_find(t2, segs),
{
}

/// A node of the routing trie. The root is a node with the empty label.
pub struct Tree<T> {
    label: Vec<char>,
    value: Option<(T, Vec<Vec<char>>)>,
    branches: Vec<Tree<T>>,
}

/// Whether two character vectors hold the same characters.
fn chars_eq(a: &Vec<char>, b: &Vec<char>) -> (r: bool)
    ensures
        r <==> a@ == b@,
{
    if a.len() != b.len() {
        return false;
    }
    let mut i: usize = 0;
    while i < a.len()
        invariant
            i <= a.len(),
            a.len() == b.len(),
            forall|k: int| 0 <= k < i ==> a@[k] == b@[k],
        decreases a.len() - i,
    {
        if a[i] != b[i] {
            return false;
        }
        i = i + 1;
    }
    proof {
        assert(a@ =~= b@);
    }
    true
}

/// A copy of a character vector.
fn copy_chars(v: &Vec<char>) -> (r: Vec<char>)
    ensures
        r@ == v@,
{
    let mut r: Vec<char> = Vec::new();
    let mut i: usize = 0;
    while i < v.len()
        invariant
            i <= v.len(),
            r@ == v@.take(i as int),
        decreases v.len() - i,
    {
        r.push(v[i]);
        i = i + 1;
        proof {
            assert(r@ =~= v@.take(i as int));
        }
    }
    proof {
        assert(v@.take(v@.len() as int) =~= v@);
    }
    r
}

/// The characters after the first one.
fn tail_chars(v: &Vec<char>) -> (r: Vec<char>)
    requires
        v@.len() >= 1,
    ensures
        r@ == v@.drop_first(),
{
    let mut r: Vec<char> = Vec::new();
    let mut i: usize = 1;
    while i < v.len()
        invariant
            1 <= i <= v.len(),
            r@ == v@.subrange(1, i as int),
        decreases v.len() - i,
    {
        r.push(v[i]);
        i = i + 1;
        proof {
            assert(r@ =~= v@.subrange(1, i as int));
        }
    }
    proof {
        assert(r@ =~= v@.drop_first());
    }
    r
}

/// The models of the nodes of a branch list.
pub closed spec fn branches_view<T>(bs: Seq<Tree<T>>) -> Seq<SpecTree<T>>
    decreases bs,
{
    Seq::new(
        bs.len(),
        |i: int|
            if 0 <= i < bs.len() {
                bs[i].view()
            } else {
                spec_leaf(Seq::empty())
            },
    )
}

impl<T> Tree<T> {
    /// The model of this node and its subtree.
    pub closed spec fn view(&self) -> SpecTree<T>
        decreases *self,
    {
        SpecTree {
            label: self.label@,
            value: match self.value {
                None => None,
                Some((v, names)) => Some((v, names.deep_view())),
            },
            branches: branches_view(self.branches@),
        }
    }

    /// The position of the first branch of `bs` whose label holds the
    /// characters of `lbl`, if any.
    fn first_child_index(bs: &Vec<Tree<T>>, lbl: &Vec<char>) -> (r: Option<usize>)
        ensures
            match r {
                Some(j) => j < bs@.len() && spec_first_child(branches_view(bs@), lbl@) == Some(
                    j as int,
                ),
                None => spec_first_child(branches_view(bs@), lbl@) is None,
            },
    {
        proof {
            assert(forall|k: int|
                0 <= k < bs@.len() ==> branches_view(bs@)[k] == #[trigger] bs@[k]@);
        }
        let mut j: usize = 0;
        while j < bs.len()
            invariant
                j <= bs@.len(),
                forall|k: int|
                    0 <= k < bs@.len() ==> branches_view(bs@)[k] == #[trigger] bs@[k]@,
                forall|k: int| 0 <= k < j ==> branches_view(bs@)[k].label != lbl@,
            decreases bs@.len() - j,
        {
            if chars_eq(&bs[j].label, lbl) {
                proof {
                    lemma_first_child_at(branches_view(bs@), lbl@, j as int);
                }
                return Some(j);
            }
            j = j + 1;
        }
        proof {
            lemma_first_child_none(branches_view(bs@), lbl@);
        }
        None
    }

    /// Creates an empty tree: no value, no branches.
    pub fn new() -> (t: Tree<T>)
        ensures
            t@ == (SpecTree::<T> {
                label: Seq::empty(),
                value: None,
                branches: Seq::empty(),
            }),
            wf(t@, 0),
    {
        let t = Tree { label: Vec::new(), value: None, branches: Vec::new() };
        proof {
            assert(t@.branches =~= Seq::<SpecTree<T>>::empty());
            assert(t@.label =~= Seq::<char>::empty());
        }
        t
    }

    /// Registers the template `key` with `value`. The template is split into
    /// its non-empty segments; segments starting with `':'` declare captures.
    /// Fails with `DuplicateRoute`, leaving every registered route as it was,
    /// exactly when a template with the same normalized segment sequence was
    /// already registered. The whole effect on the tree is `spec_add`.
    pub fn add(&mut self, key: &str, value: T) -> (r: Result<(), DuplicateRoute>)
        ensures
            ({
                let (t2, ok) = spec_add(old(self)@, segments_of(key@), value, Seq::empty());
                &&& final(self)@ == t2
                &&& (r is Ok <==> ok)
            }),
            wf(old(self)@, 0) ==> wf(final(self)@, 0),
    {
        let segments = split_path(key);
        let capture_labels: Vec<Vec<char>> = Vec::new();
        proof {
            assert(capture_labels.deep_view() =~~= Seq::<Seq<char>>::empty());
            assert(segments.deep_view().skip(0) =~~= segments.deep_view());
            if wf(self@, 0) {
                crate::paths::lemma_segments_nonempty(key@);
                lemma_add_wf(self@, segments_of(key@), value, Seq::empty(), 0);
            }
        }
        self.add_(&segments, 0, value, capture_labels)
    }

    /// Registers `value` at the node reached by the segments from position
    /// `i` on, walking from this node with the capture names gathered so far.
    fn add_(
        &mut self,
        segments: &Vec<Vec<char>>,
        i: usize,
        value: T,
        capture_labels: Vec<Vec<char>>,
    ) -> (r: Result<(), DuplicateRoute>)
        requires
            i <= segments@.len(),
        ensures
            ({
                let (t2, ok) = spec_add(
                    old(self)@,
                    segments.deep_view().skip(i as int),
                    value,
                    capture_labels.deep_view(),
                );
                &&& final(self)@ == t2
                &&& (r is Ok <==> ok)
            }),
        decreases segments@.len() - i,
    {
        let ghost segs = segments.deep_view().skip(i as int);
        if i == segments.len() {
            proof {
                assert(segs =~~= Seq::<Seq<char>>::empty());
            }
            if self.value.is_some() {
                return Err(DuplicateRoute);
            }
            self.value = Some((value, capture_labels));
            Ok(())
        } else {
            let seg = &segments[i];
            proof {
                assert(segs[0] == segments.deep_view()[i as int]);
                assert(seg.deep_view() =~= seg@);
                assert(segs.drop_first() =~~= segments.deep_view().skip(i as int + 1));
                assert(forall|k: int|
                    0 <= k < self.branches@.len() ==> branches_view(self.branches@)[k]
                        == #[trigger] self.branches@[k]@);
            }
            match Self::first_child_index(&self.branches, seg) {
                Some(j) => {
                    let mut child = self.branches.remove(j);
                    let r = child.add_(segments, i + 1, value, capture_labels);
                    let ghost child_snap = child;
                    self.branches.insert(j, child);
                    proof {
                        assert(self.branches@ =~= old(self).branches@.update(
                            j as int,
                            child_snap,
                        ));
                        lemma_branches_view_update(old(self).branches@, j as int, child_snap);
                    }
                    r
                },
                None => {
                    if seg.len() > 0 && seg[0] == ':' {
                        let name = tail_chars(seg);
                        let mut capture_labels = capture_labels;
                        let ghost labels0 = capture_labels.deep_view();
                        capture_labels.push(name);
                        proof {
                            assert(capture_labels.deep_view() =~~= labels0.push(
                                segs[0].drop_first(),
                            ));
                        }
                        let empty_lbl: Vec<char> = Vec::new();
                        match Self::first_child_index(&self.branches, &empty_lbl) {
                            Some(j) => {
                                let mut child = self.branches.remove(j);
                                let r = child.add_(segments, i + 1, value, capture_labels);
                                let ghost child_snap = child;
                                self.branches.insert(j, child);
                                proof {
                                    assert(self.branches@ =~= old(self).branches@.update(
                                        j as int,
                                        child_snap,
                                    ));
                                    lemma_branches_view_update(
                                        old(self).branches@,
                                        j as int,
                                        child_snap,
                                    );
                                }
                                r
                            },
                            None => {
                                let mut branch = Tree {
                                    label: Vec::new(),
                                    value: None,
                                    branches: Vec::new(),
                                };
                                proof {
                                    assert(branch@.label =~= Seq::<char>::empty());
                                    assert(branch@.branches =~= Seq::<SpecTree<T>>::empty());
                                    assert(branch@ == spec_leaf::<T>(Seq::empty()));
                                }
                                let r = branch.add_(segments, i + 1, value, capture_labels);
                                let ghost branch_snap = branch;
                                self.branches.push(branch);
                                proof {
                                    assert(self.branches@ =~= old(self).branches@.push(
                                        branch_snap,
                                    ));
                                    lemma_branches_view_push(old(self).branches@, branch_snap);
                                }
                                r
                            },
                        }
                    } else {
                        let label = copy_chars(seg);
                        let mut branch = Tree {
                            label,
                            value: None,
                            branches: Vec::new(),
                        };
                        proof {
                            assert(branch@.branches =~= Seq::<SpecTree<T>>::empty());
                            assert(branch@ == spec_leaf::<T>(segs[0]));
                        }
                        let r = branch.add_(segments, i + 1, value, capture_labels);
                        let ghost branch_snap = branch;
                        self.branches.push(branch);
                        proof {
                            assert(self.branches@ =~= old(self).branches@.push(branch_snap));
                            lemma_branches_view_push(old(self).branches@, branch_snap);
                        }
                        r
                    }
                },
            }
        }
    }

    /// Looks the path `key` up. Returns the matched route's value and the
    /// `(name, value)` capture pairs, ordered by the depth at which the names
    /// were declared in the matched template, or `None` when no route
    /// matches. The match, its names and its bound values are exactly what
    /// `spec_find` gives on the path's segments; the tree is only read.
    pub fn find(&self, key: &str) -> (r: Option<(&T, Vec<(String, String)>)>)
        requires
            wf(self@, 0),
        ensures
            ({
                let res = spec_find(self@, segments_of(key@));
                match res {
                    None => r is None,
                    Some((v, names, vals)) => {
                        &&& r matches Some(p)
                        &&& *p.0 == v
                        &&& p.1@.len() == names.len()
                        &&& forall|k: int|
                            0 <= k < names.len() ==> (#[trigger] p.1@[k]).0@ == names[k]
                                && p.1@[k].1@ == vals[k]
                    },
                }
            }),
    {
        let segments = split_path(key);
        let mut captured: Vec<Vec<char>> = Vec::new();
        proof {
            assert(segments.deep_view().skip(0) =~~= segments.deep_view());
            assert(captured.deep_view() =~~= Seq::<Seq<char>>::empty());
            crate::paths::lemma_segments_nonempty(key@);
            lemma_find_len(self@, segments.deep_view(), 0);
        }
        match self.find_(&segments, 0, &mut captured) {
            None => None,
            Some((v, names)) => {
                let mut pairs: Vec<(String, String)> = Vec::new();
                let mut k: usize = 0;
                proof {
                    assert(Seq::<Seq<char>>::empty() + captured.deep_view()
                        =~~= captured.deep_view());
                }
                while k < names.len()
                    invariant
                        k <= names@.len(),
                        names@.len() == captured@.len(),
                        names.deep_view().len() == names@.len(),
                        captured.deep_view().len() == captured@.len(),
                        pairs@.len() == k,
                        forall|m: int|
                            0 <= m < k ==> (#[trigger] pairs@[m]).0@ == names.deep_view()[m]
                                && pairs@[m].1@ == captured.deep_view()[m],
                    decreases names@.len() - k,
                {
                    pairs.push((string_of(&names[k]), string_of(&captured[k])));
                    k = k + 1;
                }
                Some((v, pairs))
            },
        }
    }

    /// Looks the segments from position `i` on up, walking from this node;
    /// `captured` gathers the values bound to captures along the way.
    fn find_<'a>(
        &'a self,
        segments: &Vec<Vec<char>>,
        i: usize,
        captured: &mut Vec<Vec<char>>,
    ) -> (r: Option<(&'a T, Vec<Vec<char>>)>)
        requires
            i <= segments@.len(),
        ensures
            ({
                let res = spec_find(self@, segments.deep_view().skip(i as int));
                match res {
                    None => r is None && final(captured).deep_view() == old(
                        captured,
                    ).deep_view(),
                    Some((v, names, vals)) => {
                        &&& r matches Some(p)
                        &&& *p.0 == v
                        &&& p.1.deep_view() == names
                        &&& final(captured).deep_view() == old(captured).deep_view() + vals
                    },
                }
            }),
        decreases segments@.len() - i,
    {
        let ghost segs = segments.deep_view().skip(i as int);
        if i == segments.len() {
            proof {
                assert(segs =~~= Seq::<Seq<char>>::empty());
            }
            match &self.value {
                None => None,
                Some(p) => {
                    let names = copy_labels(&p.1);
                    Some((&p.0, names))
                },
            }
        } else {
            let seg = &segments[i];
            proof {
                assert(segs[0] == segments.deep_view()[i as int]);
                assert(seg.deep_view() =~= seg@);
                assert(segs.drop_first() =~~= segments.deep_view().skip(i as int + 1));
                assert(forall|k: int|
                    0 <= k < self.branches@.len() ==> branches_view(self.branches@)[k]
                        == #[trigger] self.branches@[k]@);
            }
            let exact_ix = Self::first_child_index(&self.branches, seg);
            match exact_ix {
                Some(j) => {
                    let r = self.branches[j].find_(segments, i + 1, captured);
                    if r.is_some() {
                        return r;
                    }
                },
                None => {},
            }
            let ghost mid = captured.deep_view();
            let empty_lbl: Vec<char> = Vec::new();
            match Self::first_child_index(&self.branches, &empty_lbl) {
                Some(j) => {
                    captured.push(copy_chars(seg));
                    proof {
                        assert(captured.deep_view() =~~= mid.push(segs[0]));
                    }
                    let r = self.branches[j].find_(segments, i + 1, captured);
                    if r.is_some() {
                        proof {
                            let res = spec_find(self@.branches[j as int], segs.drop_first());
                            assert(mid + (seq![segs[0]] + res->Some_0.2) =~~= mid.push(segs[0])
                                + res->Some_0.2);
                        }
                        return r;
                    }
                    let ghost before_pop = *captured;
                    let _ = captured.pop();
                    proof {
                        assert(before_pop.deep_view() == mid.push(segs[0]));
                        assert forall|k: int|
                            0 <= k < captured@.len() implies captured.deep_view()[k] == mid[k] by {
                            assert(captured@[k] == before_pop@[k]);
                            assert(before_pop.deep_view()[k] == before_pop@[k].deep_view());
                        }
                        assert(captured.deep_view() =~~= mid);
                    }
                },
                None => {},
            }
            if self.label.len() > 0 && self.branches.len() == 0 && i + 1 == segments.len() {
                match &self.value {
                    None => None,
                    Some(p) => {
                        let mut names = copy_labels(&p.1);
                        let ghost names0 = p.1.deep_view();
                        names.push(crate::paths::str_chars("_remaining"));
                        captured.push(copy_chars(seg));
                        proof {
                            assert(names.deep_view() =~~= names0.push(remaining_name()));
                            assert(captured.deep_view() =~~= mid + seq![segs[0]]);
                        }
                        Some((&p.0, names))
                    },
                }
            } else if self.label.len() > 0 {
                match exact_ix {
                    Some(j) => {
                        let c = &self.branches[j];
                        match &c.value {
                            None => None,
                            Some(p) => {
                                let mut names = copy_labels(&p.1);
                                let ghost names0 = p.1.deep_view();
                                names.push(crate::paths::str_chars("_remaining"));
                                let rem = crate::paths::join_from(segments, i);
                                captured.push(rem);
                                proof {
                                    assert(names.deep_view() =~~= names0.push(remaining_name()));
                                    assert(captured.deep_view() =~~= mid + seq![spec_join(segs)]);
                                }
                                Some((&p.0, names))
                            },
                        }
                    },
                    None => None,
                }
            } else {
                None
            }
        }
    }
}

} // verus!
