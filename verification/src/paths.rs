//! Path segmentation: a path string denotes the sequence of its non-empty
//! `/`-separated segments, so leading, trailing and duplicated slashes are
//! insignificant.
use vstd::prelude::*;

verus! {

/// The segments completed by a segment boundary, given the partial segment
/// `cur` gathered so far: an empty partial segment is discarded.
pub open spec fn seg_flush(cur: Seq<char>) -> Seq<Seq<char>> {
    if cur.len() == 0 {
        seq![]
    } else {
        seq![cur]
    }
}

/// Splits `s` on `'/'` into non-empty segments, with `cur` the partial
/// segment gathered just before `s`.
pub open spec fn seg_split(s: Seq<char>, cur: Seq<char>) -> Seq<Seq<char>>
    decreases s.len(),
{
    if s.len() == 0 {
        seg_flush(cur)
    } else if s[0] == '/' {
        seg_flush(cur) + seg_split(s.drop_first(), Seq::empty())
    } else {
        seg_split(s.drop_first(), cur.push(s[0]))
    }
}

/// The segment sequence a path string denotes: split on `'/'`, empty
/// segments discarded.
pub open spec fn segments_of(s: Seq<char>) -> Seq<Seq<char>> {
    seg_split(s, Seq::empty())
}

/// The segments joined back into one path, with `'/'` between them.
pub open spec fn spec_join(segs: Seq<Seq<char>>) -> Seq<char>
    decreases segs.len(),
{
    if segs.len() == 0 {
        Seq::empty()
    } else if segs.len() == 1 {
        segs[0]
    } else {
        segs[0] + seq!['/'] + spec_join(segs.drop_first())
    }
}

/// Every segment a path splits into is non-empty.
pub proof fn lemma_segments_nonempty(s: Seq<char>)
    ensures
        forall|i: int| 0 <= i < segments_of(s).len() ==> segments_of(s)[i].len() > 0,
{
    lemma_seg_split_nonempty(s, Seq::empty());
}

proof fn lemma_seg_split_nonempty(s: Seq<char>, cur: Seq<char>)
    ensures
        forall|i: int| 0 <= i < seg_split(s, cur).len() ==> seg_split(s, cur)[i].len() > 0,
    decreases s.len(),
{
    if s.len() == 0 {
        assert forall|i: int| 0 <= i < seg_split(s, cur).len() implies seg_split(s, cur)[i].len()
            > 0 by {
            assert(seg_split(s, cur)[i] == cur);
        }
    } else if s[0] == '/' {
        lemma_seg_split_nonempty(s.drop_first(), Seq::empty());
        assert forall|i: int| 0 <= i < seg_split(s, cur).len() implies seg_split(s, cur)[i].len()
            > 0 by {
            let pre = seg_flush(cur);
            let rest = seg_split(s.drop_first(), Seq::empty());
            if i < pre.len() {
                assert(seg_split(s, cur)[i] == cur);
            } else {
                assert(seg_split(s, cur)[i] == rest[i - pre.len()]);
            }
        }
    } else {
        lemma_seg_split_nonempty(s.drop_first(), cur.push(s[0]));
        assert forall|i: int| 0 <= i < seg_split(s, cur).len() implies seg_split(s, cur)[i].len()
            > 0 by {
            assert(seg_split(s, cur)[i] == seg_split(s.drop_first(), cur.push(s[0]))[i]);
        }
    }
}

/// A leading slash never changes the segments of a path.
pub proof fn lemma_segments_leading_slash(s: Seq<char>)
    ensures
        segments_of(seq!['/'] + s) == segments_of(s),
{
    assert((seq!['/'] + s)[0] == '/');
    assert((seq!['/'] + s).drop_first() =~= s);
    assert(Seq::<Seq<char>>::empty() + seg_split(s, Seq::empty()) =~~= seg_split(
        s,
        Seq::empty(),
    ));
}

proof fn lemma_seg_split_trailing(s: Seq<char>, cur: Seq<char>)
    ensures
        seg_split(s.push('/'), cur) == seg_split(s, cur),
    decreases s.len(),
{
    if s.len() == 0 {
        assert(s.push('/')[0] == '/');
        assert(s.push('/').drop_first() =~= Seq::<char>::empty());
        assert(seg_split(s.push('/'), cur) == seg_flush(cur) + seg_split(
            Seq::<char>::empty(),
            Seq::empty(),
        ));
        assert(seg_split(Seq::<char>::empty(), Seq::<char>::empty()) == seg_flush(
            Seq::<char>::empty(),
        ));
        assert(seg_flush(cur) + seg_flush(Seq::<char>::empty()) =~~= seg_flush(cur));
    } else {
        assert(s.push('/')[0] == s[0]);
        assert(s.push('/').drop_first() =~= s.drop_first().push('/'));
        if s[0] == '/' {
            lemma_seg_split_trailing(s.drop_first(), Seq::empty());
        } else {
            lemma_seg_split_trailing(s.drop_first(), cur.push(s[0]));
        }
    }
}

/// A trailing slash never changes the segments of a path.
pub proof fn lemma_segments_trailing_slash(s: Seq<char>)
    ensures
        segments_of(s.push('/')) == segments_of(s),
{
    lemma_seg_split_trailing(s, Seq::empty());
}

proof fn lemma_seg_split_double(a: Seq<char>, b: Seq<char>, cur: Seq<char>)
    ensures
        seg_split(a + seq!['/', '/'] + b, cur) == seg_split(a + seq!['/'] + b, cur),
    decreases a.len(),
{
    if a.len() == 0 {
        let l = a + seq!['/', '/'] + b;
        let r = a + seq!['/'] + b;
        assert(l[0] == '/');
        assert(r[0] == '/');
        assert(l.drop_first() =~= seq!['/'] + b);
        assert(r.drop_first() =~= b);
        assert((seq!['/'] + b)[0] == '/');
        assert((seq!['/'] + b).drop_first() =~= b);
        assert(seg_split(seq!['/'] + b, Seq::empty()) =~~= Seq::<Seq<char>>::empty()
            + seg_split(b, Seq::empty()));
        assert(Seq::<Seq<char>>::empty() + seg_split(b, Seq::empty()) =~~= seg_split(
            b,
            Seq::empty(),
        ));
    } else {
        let l = a + seq!['/', '/'] + b;
        let r = a + seq!['/'] + b;
        assert(l[0] == a[0]);
        assert(r[0] == a[0]);
        assert(l.drop_first() =~= a.drop_first() + seq!['/', '/'] + b);
        assert(r.drop_first() =~= a.drop_first() + seq!['/'] + b);
        if a[0] == '/' {
            lemma_seg_split_double(a.drop_first(), b, Seq::empty());
        } else {
            lemma_seg_split_double(a.drop_first(), b, cur.push(a[0]));
        }
    }
}

/// A doubled slash never changes the segments of a path: collapsing it to a
/// single one gives the same segments.
pub proof fn lemma_segments_double_slash(a: Seq<char>, b: Seq<char>)
    ensures
        segments_of(a + seq!['/', '/'] + b) == segments_of(a + seq!['/'] + b),
{
    lemma_seg_split_double(a, b, Seq::empty());
}

/// Appending one more segment extends a join by a separator and the segment,
/// except into an empty join.
pub proof fn lemma_join_push(segs: Seq<Seq<char>>, x: Seq<char>)
    ensures
        spec_join(segs.push(x)) == if segs.len() == 0 {
            x
        } else {
            spec_join(segs) + seq!['/'] + x
        },
    decreases segs.len(),
{
    if segs.len() == 0 {
        assert(segs.push(x).drop_first() =~~= Seq::<Seq<char>>::empty());
        assert(segs.push(x)[0] == x);
    } else {
        lemma_join_push(segs.drop_first(), x);
        assert(segs.push(x).drop_first() =~~= segs.drop_first().push(x));
        if segs.len() == 1 {
            assert(spec_join(segs.push(x)) =~~= spec_join(segs) + seq!['/'] + x);
        } else {
            assert(segs[0] + seq!['/'] + (spec_join(segs.drop_first()) + seq!['/'] + x) =~~= (
            segs[0] + seq!['/'] + spec_join(segs.drop_first())) + seq!['/'] + x);
        }
    }
}

/// The characters of a string, as a vector.
pub fn str_chars(s: &str) -> (out: Vec<char>)
    ensures
        out@ == s@,
{
    broadcast use vstd::string::axiom_spec_iter;

    let mut out: Vec<char> = Vec::new();
    proof {
        assert(out@ =~= Seq::<char>::empty());
        if s@.len() == 0 {
            assert(out@ =~= s@);
        }
    }
    for c in it: s.chars()
        invariant
            it.seq() == s@,
            out@ == it.seq().take(it.index()),
            it.index() == s@.len() ==> out@ == s@,
    {
        out.push(c);
        proof {
            assert(out@ =~= it.seq().take(it.index() + 1));
            assert(it.index() + 1 == it.seq().len() ==> (it.seq().take(it.index() + 1)
                =~= it.seq()));
        }
    }
    out
}

/// Relies on `String::push`: appends the given character to the end of the
/// string.
#[verifier::external_body]
pub fn push_char(s: &mut String, c: char)
    ensures
        final(s)@ == old(s)@.push(c),
{
    s.push(c);
}

/// The string holding exactly the given characters.
pub fn string_of(chars: &Vec<char>) -> (s: String)
    ensures
        s@ == chars@,
{
    let mut s = String::new();
    let mut i: usize = 0;
    proof {
        assert(s@ =~= chars@.take(0));
    }
    while i < chars.len()
        invariant
            i <= chars.len(),
            s@ == chars@.take(i as int),
        decreases chars.len() - i,
    {
        push_char(&mut s, chars[i]);
        i = i + 1;
        proof {
            assert(s@ =~= chars@.take(i as int));
        }
    }
    proof {
        assert(chars@.take(chars@.len() as int) =~= chars@);
    }
    s
}

/// Joins the segments from position `from` on, with `'/'` between them.
pub fn join_from(segs: &Vec<Vec<char>>, from: usize) -> (out: Vec<char>)
    requires
        from <= segs.len(),
    ensures
        out@ == spec_join(segs.deep_view().skip(from as int)),
{
    let mut out: Vec<char> = Vec::new();
    let mut k: usize = from;
    proof {
        assert(segs.deep_view().subrange(from as int, from as int)
            =~~= Seq::<Seq<char>>::empty());
        assert(out@ =~= Seq::<char>::empty());
    }
    while k < segs.len()
        invariant
            from <= k <= segs.len(),
            segs.deep_view().len() == segs.len(),
            out@ == spec_join(segs.deep_view().subrange(from as int, k as int)),
        decreases segs.len() - k,
    {
        let ghost done = segs.deep_view().subrange(from as int, k as int);
        if k > from {
            out.push('/');
        }
        let seg = &segs[k];
        let mut j: usize = 0;
        let ghost base = out@;
        while j < seg.len()
            invariant
                j <= seg.len(),
                out@ == base + seg@.take(j as int),
            decreases seg.len() - j,
        {
            out.push(seg[j]);
            j = j + 1;
            proof {
                assert((base + seg@.take(j - 1)).push(seg@[j - 1]) =~= base + seg@.take(
                    j as int,
                ));
            }
        }
        k = k + 1;
        proof {
            lemma_join_push(done, seg@);
            assert(seg@.take(seg@.len() as int) =~= seg@);
            assert(segs.deep_view().subrange(from as int, k as int) =~~= done.push(seg@));
            if done.len() == 0 {
                assert(base =~= Seq::<char>::empty());
                assert(out@ =~= seg@);
            } else {
                assert(out@ =~= spec_join(done) + seq!['/'] + seg@);
            }
        }
    }
    proof {
        assert(segs.deep_view().subrange(from as int, segs.deep_view().len() as int)
            =~~= segs.deep_view().skip(from as int));
    }
    out
}

/// Splits a path into its non-empty segments, each as the vector of its
/// characters.
pub fn split_path(s: &str) -> (segs: Vec<Vec<char>>)
    ensures
        segs.deep_view() == segments_of(s@),
{
    broadcast use vstd::string::axiom_spec_iter;

    let mut segs: Vec<Vec<char>> = Vec::new();
    let mut cur: Vec<char> = Vec::new();
    proof {
        assert(segs.deep_view() =~~= Seq::<Seq<char>>::empty());
        assert(Seq::<Seq<char>>::empty() + seg_split(s@, cur@) =~~= seg_split(s@, cur@));
        if s@.len() == 0 {
            assert(s@.skip(0) =~~= Seq::<char>::empty());
        }
        assert(s@.skip(0) =~~= s@);
    }
    for c in it: s.chars()
        invariant
            it.seq() == s@,
            segments_of(s@) == segs.deep_view() + seg_split(it.seq().skip(it.index()), cur@),
            it.index() == s@.len() ==> segments_of(s@) == segs.deep_view() + seg_flush(cur@),
    {
        proof {
            assert(0 <= it.index() < it.seq().len());
            assert(c == it.seq()[it.index()]);
            assert(it.seq().skip(it.index()).drop_first() =~~= it.seq().skip(it.index() + 1));
        }
        let ghost pre_segs = segs.deep_view();
        let ghost pre_cur = cur@;
        if c == '/' {
            if cur.len() > 0 {
                segs.push(cur);
                cur = Vec::new();
                proof {
                    assert(segs.deep_view() =~~= pre_segs + seg_flush(pre_cur));
                    assert(pre_segs + (seg_flush(pre_cur) + seg_split(
                        it.seq().skip(it.index() + 1),
                        cur@,
                    )) =~~= (pre_segs + seg_flush(pre_cur)) + seg_split(
                        it.seq().skip(it.index() + 1),
                        cur@,
                    ));
                }
            } else {
                proof {
                    assert(pre_cur =~~= Seq::<char>::empty());
                    assert(pre_segs + (seg_flush(pre_cur) + seg_split(
                        it.seq().skip(it.index() + 1),
                        cur@,
                    )) =~~= pre_segs + seg_split(it.seq().skip(it.index() + 1), cur@));
                }
            }
        } else {
            cur.push(c);
        }
        proof {
            assert(it.index() + 1 == it.seq().len() ==> (it.seq().skip(it.index() + 1)
                =~~= Seq::<char>::empty()));
        }
    }
    if cur.len() > 0 {
        let ghost old_segs = segs.deep_view();
        segs.push(cur);
        proof {
            assert(segs.deep_view() =~~= old_segs + seg_flush(segs@[segs@.len() - 1]@));
        }
    } else {
        proof {
            assert(segs.deep_view() + seg_flush(cur@) =~~= segs.deep_view());
        }
    }
    segs
}

} // verus!
