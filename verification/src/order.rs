//! Ordering recorded segments by time, keeping segments of equal time in their given order.
use vstd::prelude::*;

verus! {

broadcast use vstd::seq_lib::group_seq_properties;

/// Every entry's time is no later than the time of any entry after it.
pub open spec fn sorted_by_time<A>(s: Seq<(i64, A)>) -> bool {
    forall|i: int, j: int| 0 <= i < j < s.len() ==> #[trigger] s[i].0 <= #[trigger] s[j].0
}

/// Whether an entry is stamped with time `t`.
pub open spec fn stamped<A>(t: i64) -> spec_fn((i64, A)) -> bool {
    |e: (i64, A)| e.0 == t
}

/// The entries of `s` stamped with time `t`, in their order in `s`.
pub open spec fn at_time<A>(s: Seq<(i64, A)>, t: i64) -> Seq<(i64, A)> {
    s.filter(stamped(t))
}

/// `o` holds the entries of `s` sorted by time, entries of equal time keeping their order
/// in `s` (what a stable sort by time gives).
pub open spec fn is_time_ordering<A>(o: Seq<(i64, A)>, s: Seq<(i64, A)>) -> bool {
    &&& sorted_by_time(o)
    &&& forall|t: i64| #[trigger] at_time(o, t) == at_time(s, t)
}

/// The stable ordering of `s` by time.
pub open spec fn time_ordered<A>(s: Seq<(i64, A)>) -> Seq<(i64, A)> {
    choose|o: Seq<(i64, A)>| is_time_ordering(o, s)
}

proof fn lemma_at_time_push<A>(s: Seq<(i64, A)>, x: (i64, A), t: i64)
    ensures
        at_time(s.push(x), t) == if x.0 == t {
            at_time(s, t).push(x)
        } else {
            at_time(s, t)
        },
{
    s.lemma_filter_push(x, stamped::<A>(t));
}

proof fn lemma_at_time_add<A>(a: Seq<(i64, A)>, b: Seq<(i64, A)>, t: i64)
    ensures
        at_time(a + b, t) == at_time(a, t) + at_time(b, t),
{
    Seq::filter_distributes_over_add(a, b, stamped::<A>(t));
}

proof fn lemma_at_time_none<A>(s: Seq<(i64, A)>, t: i64)
    requires
        forall|i: int| 0 <= i < s.len() ==> s[i].0 != t,
    ensures
        at_time(s, t) == Seq::<(i64, A)>::empty(),
{
    let pred = stamped::<A>(t);
    assert(s.all(|x: (i64, A)| !pred(x)));
    s.lemma_all_neg_filter_empty(pred);
}

proof fn lemma_at_time_empty<A>(t: i64)
    ensures
        at_time(Seq::<(i64, A)>::empty(), t) == Seq::<(i64, A)>::empty(),
{
    lemma_at_time_none(Seq::<(i64, A)>::empty(), t);
}

proof fn lemma_at_time_contains<A>(s: Seq<(i64, A)>, i: int)
    requires
        0 <= i < s.len(),
    ensures
        at_time(s, s[i].0).len() > 0,
{
    s.lemma_filter_contains(stamped::<A>(s[i].0), i);
}

proof fn lemma_at_time_elements<A>(s: Seq<(i64, A)>, t: i64, k: int)
    requires
        0 <= k < at_time(s, t).len(),
    ensures
        at_time(s, t)[k].0 == t,
        s.contains(at_time(s, t)[k]),
{
    s.lemma_filter_pred(stamped::<A>(t), k);
    assert(at_time(s, t).contains(at_time(s, t)[k]));
    s.lemma_filter_contains_rev(stamped::<A>(t), at_time(s, t)[k]);
}

/// Determinism law: a stable ordering by time is unique. Two sequences that are both sorted
/// by time and agree, time by time, on the order of their entries are the same sequence.
pub proof fn lemma_time_ordering_unique<A>(a: Seq<(i64, A)>, b: Seq<(i64, A)>, s: Seq<(i64, A)>)
    requires
        is_time_ordering(a, s),
        is_time_ordering(b, s),
    ensures
        a == b,
{
    lemma_sorted_agreeing_equal(a, b);
}

proof fn lemma_sorted_agreeing_equal<A>(a: Seq<(i64, A)>, b: Seq<(i64, A)>)
    requires
        sorted_by_time(a),
        sorted_by_time(b),
        forall|t: i64| #[trigger] at_time(a, t) == at_time(b, t),
    ensures
        a == b,
    decreases a.len() + b.len(),
{
    if a.len() == 0 {
        if b.len() > 0 {
            lemma_at_time_contains(b, 0);
            lemma_at_time_empty::<A>(b[0].0);
            assert(a =~= Seq::<(i64, A)>::empty());
            assert(at_time(a, b[0].0) == at_time(b, b[0].0));
        }
        assert(a =~= b);
    } else if b.len() == 0 {
        lemma_at_time_contains(a, 0);
        lemma_at_time_empty::<A>(a[0].0);
        assert(b =~= Seq::<(i64, A)>::empty());
        assert(at_time(a, a[0].0) == at_time(b, a[0].0));
    } else {
        let x = a.last();
        let y = b.last();
        // The last entries carry the same, latest, time.
        if x.0 < y.0 {
            lemma_at_time_contains(b, b.len() - 1);
            assert(at_time(a, y.0) == at_time(b, y.0));
            lemma_at_time_elements(a, y.0, 0);
            let e = at_time(a, y.0)[0];
            let k = choose|k: int| 0 <= k < a.len() && a[k] == e;
            assert(a[k].0 <= a[a.len() - 1].0);
            assert(false);
        }
        if y.0 < x.0 {
            lemma_at_time_contains(a, a.len() - 1);
            assert(at_time(a, x.0) == at_time(b, x.0));
            lemma_at_time_elements(b, x.0, 0);
            let e = at_time(b, x.0)[0];
            let k = choose|k: int| 0 <= k < b.len() && b[k] == e;
            assert(b[k].0 <= b[b.len() - 1].0);
            assert(false);
        }
        let a0 = a.drop_last();
        let b0 = b.drop_last();
        assert(a0.push(x) =~= a);
        assert(b0.push(y) =~= b);
        lemma_at_time_push(a0, x, x.0);
        lemma_at_time_push(b0, y, x.0);
        assert(at_time(a, x.0) == at_time(b, x.0));
        assert(at_time(a, x.0).last() == x);
        assert(at_time(b, x.0).last() == y);
        assert(at_time(a0, x.0) =~= at_time(a, x.0).drop_last());
        assert(at_time(b0, x.0) =~= at_time(b, x.0).drop_last());
        assert forall|t: i64| #[trigger] at_time(a0, t) == at_time(b0, t) by {
            lemma_at_time_push(a0, x, t);
            lemma_at_time_push(b0, y, t);
            assert(at_time(a, t) == at_time(b, t));
            if t == x.0 {
            } else {
            }
        }
        assert(sorted_by_time(a0));
        assert(sorted_by_time(b0));
        lemma_sorted_agreeing_equal(a0, b0);
    }
}

/// Inserting `x` where the entries stop being no later than it extends a stable ordering.
proof fn lemma_insert_in_time<A>(o: Seq<(i64, A)>, s: Seq<(i64, A)>, x: (i64, A), p: int)
    requires
        is_time_ordering(o, s),
        0 <= p <= o.len(),
        forall|i: int| 0 <= i < p ==> #[trigger] o[i].0 <= x.0,
        forall|i: int| p <= i < o.len() ==> #[trigger] o[i].0 > x.0,
    ensures
        is_time_ordering(o.insert(p, x), s.push(x)),
{
    let n = o.insert(p, x);
    let pre = o.take(p);
    let post = o.skip(p);
    assert(n =~= pre + seq![x] + post);
    assert(o =~= pre + post);
    assert forall|i: int, j: int| 0 <= i < j < n.len() implies #[trigger] n[i].0 <= #[trigger] n[j].0 by {
        if j < p {
            assert(n[i] == o[i] && n[j] == o[j]);
        } else if j == p {
            assert(n[i] == o[i]);
        } else if i < p {
            assert(n[i] == o[i] && n[j] == o[j - 1]);
        } else if i == p {
            assert(n[j] == o[j - 1]);
        } else {
            assert(n[i] == o[i - 1] && n[j] == o[j - 1]);
        }
    }
    assert forall|t: i64| #[trigger] at_time(n, t) == at_time(s.push(x), t) by {
        lemma_at_time_add(pre + seq![x], post, t);
        lemma_at_time_add(pre, seq![x], t);
        lemma_at_time_add(pre, post, t);
        lemma_at_time_push(s, x, t);
        lemma_at_time_push(Seq::<(i64, A)>::empty(), x, t);
        lemma_at_time_empty::<A>(t);
        assert(Seq::<(i64, A)>::empty().push(x) =~= seq![x]);
        assert(at_time(o, t) == at_time(s, t));
        if t == x.0 {
            assert forall|i: int| 0 <= i < post.len() implies post[i].0 != t by {
                assert(post[i] == o[p + i]);
            }
            lemma_at_time_none(post, t);
            assert(at_time(n, t) =~= at_time(s.push(x), t));
        } else {
            assert(at_time(n, t) =~= at_time(s.push(x), t));
        }
    }
}

/// In a sequence sorted by time there is a point before which entries are no later than
/// `t` and after which they are later.
proof fn lemma_split_point<A>(o: Seq<(i64, A)>, t: i64) -> (p: int)
    requires
        sorted_by_time(o),
    ensures
        0 <= p <= o.len(),
        forall|i: int| 0 <= i < p ==> #[trigger] o[i].0 <= t,
        forall|i: int| p <= i < o.len() ==> #[trigger] o[i].0 > t,
    decreases o.len(),
{
    if o.len() == 0 {
        0
    } else {
        let o0 = o.drop_last();
        let q = lemma_split_point(o0, t);
        if o.last().0 <= t {
            assert forall|i: int| 0 <= i < o.len() implies #[trigger] o[i].0 <= t by {
                if i < o.len() - 1 {
                    assert(o[i].0 <= o[o.len() - 1].0);
                }
            }
            o.len() as int
        } else {
            assert forall|i: int| 0 <= i < q implies #[trigger] o[i].0 <= t by {
                assert(o[i] == o0[i]);
            }
            assert forall|i: int| q <= i < o.len() implies #[trigger] o[i].0 > t by {
                if i < o.len() - 1 {
                    assert(o[i] == o0[i]);
                }
            }
            q
        }
    }
}

/// Every sequence has a stable ordering by time, and `time_ordered` is it.
pub proof fn lemma_time_ordered<A>(s: Seq<(i64, A)>)
    ensures
        is_time_ordering(time_ordered(s), s),
{
    let o = lemma_time_ordering_exists(s);
    assert(is_time_ordering(o, s));
}

/// A stable ordering by time is empty exactly when what it orders is.
pub proof fn lemma_time_ordering_empty<A>(o: Seq<(i64, A)>, s: Seq<(i64, A)>)
    requires
        is_time_ordering(o, s),
    ensures
        o.len() == 0 <==> s.len() == 0,
{
    if o.len() == 0 && s.len() > 0 {
        lemma_at_time_contains(s, 0);
        lemma_at_time_empty::<A>(s[0].0);
        assert(o =~= Seq::<(i64, A)>::empty());
        assert(at_time(o, s[0].0) == at_time(s, s[0].0));
    }
    if s.len() == 0 && o.len() > 0 {
        lemma_at_time_contains(o, 0);
        lemma_at_time_empty::<A>(o[0].0);
        assert(s =~= Seq::<(i64, A)>::empty());
        assert(at_time(o, o[0].0) == at_time(s, o[0].0));
    }
}

proof fn lemma_time_ordering_exists<A>(s: Seq<(i64, A)>) -> (o: Seq<(i64, A)>)
    ensures
        is_time_ordering(o, s),
        o.len() == s.len(),
    decreases s.len(),
{
    if s.len() == 0 {
        assert forall|t: i64| #[trigger] at_time(s, t) == at_time(s, t) by {}
        s
    } else {
        let s0 = s.drop_last();
        let x = s.last();
        let o0 = lemma_time_ordering_exists(s0);
        let p = lemma_split_point(o0, x.0);
        lemma_insert_in_time(o0, s0, x, p);
        assert(s0.push(x) =~= s);
        o0.insert(p, x)
    }
}

/// A stable ordering by time has as many entries as what it orders.
pub proof fn lemma_time_ordering_len<A>(o: Seq<(i64, A)>, s: Seq<(i64, A)>)
    requires
        is_time_ordering(o, s),
    ensures
        o.len() == s.len(),
{
    let c = lemma_time_ordering_exists(s);
    lemma_time_ordering_unique(o, c, s);
}

/// Keeping the entries that satisfy `p` keeps exactly those entries, and keeps a sequence
/// sorted by time sorted.
pub proof fn lemma_filter_by<A>(s: Seq<(i64, A)>, p: spec_fn((i64, A)) -> bool, x: (i64, A))
    ensures
        s.filter(p).contains(x) <==> (s.contains(x) && p(x)),
        sorted_by_time(s) ==> sorted_by_time(s.filter(p)),
    decreases s.len(),
{
    if s.filter(p).contains(x) {
        s.lemma_filter_contains_rev(p, x);
        let k = choose|k: int| 0 <= k < s.filter(p).len() && s.filter(p)[k] == x;
        s.lemma_filter_pred(p, k);
    }
    if s.contains(x) && p(x) {
        let i = choose|i: int| 0 <= i < s.len() && s[i] == x;
        s.lemma_filter_contains(p, i);
    }
    if s.len() > 0 && sorted_by_time(s) {
        let r = s.drop_last();
        let l = s.last();
        assert(sorted_by_time(r));
        lemma_filter_by(r, p, x);
        r.lemma_filter_push(l, p);
        assert(r.push(l) =~= s);
        let f = r.filter(p);
        assert forall|i: int| 0 <= i < f.len() implies #[trigger] f[i].0 <= l.0 by {
            assert(f.contains(f[i]));
            lemma_filter_by(r, p, f[i]);
            let k = choose|k: int| 0 <= k < r.len() && r[k] == f[i];
            assert(s[k] == r[k]);
        }
    }
}

/// Keeping what satisfies `p`, then what satisfies `q`, keeps what keeping in the other
/// order keeps.
pub(crate) proof fn lemma_filters_commute<A>(s: Seq<A>, p: spec_fn(A) -> bool, q: spec_fn(A) -> bool)
    ensures
        s.filter(p).filter(q) == s.filter(q).filter(p),
    decreases s.len(),
{
    if s.len() == 0 {
        reveal(Seq::filter);
        assert(s.filter(p).filter(q) =~= s.filter(q).filter(p));
    } else {
        let r = s.drop_last();
        let x = s.last();
        assert(r.push(x) =~= s);
        lemma_filters_commute(r, p, q);
        r.lemma_filter_push(x, p);
        r.lemma_filter_push(x, q);
        r.filter(p).lemma_filter_push(x, q);
        r.filter(q).lemma_filter_push(x, p);
    }
}

/// Keeping what satisfies a narrower `q` after keeping what satisfies `p` keeps what `q`
/// alone keeps.
pub(crate) proof fn lemma_filter_narrower<A>(s: Seq<A>, p: spec_fn(A) -> bool, q: spec_fn(A) -> bool)
    requires
        forall|x: A| #[trigger] q(x) ==> p(x),
    ensures
        s.filter(p).filter(q) == s.filter(q),
    decreases s.len(),
{
    if s.len() == 0 {
        reveal(Seq::filter);
        assert(s.filter(p).filter(q) =~= s.filter(q));
    } else {
        let r = s.drop_last();
        let x = s.last();
        assert(r.push(x) =~= s);
        lemma_filter_narrower(r, p, q);
        r.lemma_filter_push(x, p);
        r.lemma_filter_push(x, q);
        r.filter(p).lemma_filter_push(x, q);
    }
}

/// Keeping what satisfies `p` keeps everything when everything satisfies it.
pub(crate) proof fn lemma_filter_keeps_every<A>(s: Seq<A>, p: spec_fn(A) -> bool)
    requires
        forall|i: int| 0 <= i < s.len() ==> #[trigger] p(s[i]),
    ensures
        s.filter(p) == s,
    decreases s.len(),
{
    if s.len() == 0 {
        reveal(Seq::filter);
        assert(s.filter(p) =~= s);
    } else {
        let r = s.drop_last();
        let x = s.last();
        assert(r.push(x) =~= s);
        assert forall|i: int| 0 <= i < r.len() implies #[trigger] p(r[i]) by {
            assert(r[i] == s[i]);
        }
        lemma_filter_keeps_every(r, p);
        r.lemma_filter_push(x, p);
        assert(p(s[s.len() - 1]));
    }
}

/// Ordering law: a stable ordering by time holds the same entries as what it orders, and is
/// sorted by time.
pub proof fn lemma_time_ordering_same_entries<A>(o: Seq<(i64, A)>, s: Seq<(i64, A)>, x: (i64, A))
    requires
        is_time_ordering(o, s),
    ensures
        o.contains(x) <==> s.contains(x),
        sorted_by_time(o),
{
    assert(at_time(o, x.0) == at_time(s, x.0));
    if o.contains(x) {
        let i = choose|i: int| 0 <= i < o.len() && o[i] == x;
        o.lemma_filter_contains(stamped::<A>(x.0), i);
        s.lemma_filter_contains_rev(stamped::<A>(x.0), x);
    }
    if s.contains(x) {
        let i = choose|i: int| 0 <= i < s.len() && s[i] == x;
        s.lemma_filter_contains(stamped::<A>(x.0), i);
        o.lemma_filter_contains_rev(stamped::<A>(x.0), x);
    }
}

/// The time and the characters of the name of each segment.
pub open spec fn segments_view(s: Seq<(i64, String)>) -> Seq<(i64, Seq<char>)> {
    s.map_values(|e: (i64, String)| (e.0, e.1@))
}

proof fn lemma_view_push(s: Seq<(i64, String)>, e: (i64, String))
    ensures
        segments_view(s.push(e)) == segments_view(s).push((e.0, e.1@)),
{
    assert(segments_view(s.push(e)) =~= segments_view(s).push((e.0, e.1@)));
}

fn clone_segment(e: &(i64, String)) -> (c: (i64, String))
    ensures
        c.0 == e.0,
        c.1@ == e.1@,
{
    (e.0, e.1.clone())
}

/// Merges two time-sorted runs, taking from the first on equal times.
fn merge_by_time(a: &Vec<(i64, String)>, b: &Vec<(i64, String)>) -> (out: Vec<(i64, String)>)
    requires
        sorted_by_time(segments_view(a@)),
        sorted_by_time(segments_view(b@)),
    ensures
        sorted_by_time(segments_view(out@)),
        forall|t: i64|
            #[trigger] at_time(segments_view(out@), t) == at_time(segments_view(a@), t)
                + at_time(segments_view(b@), t),
{
    let ghost av = segments_view(a@);
    let ghost bv = segments_view(b@);
    let mut out: Vec<(i64, String)> = Vec::new();
    let mut i: usize = 0;
    let mut j: usize = 0;
    proof {
        assert forall|t: i64| #[trigger] at_time(segments_view(out@), t) == at_time(av.take(0), t)
            + at_time(bv.take(0), t) by {
            lemma_at_time_empty::<Seq<char>>(t);
            assert(segments_view(out@) =~= Seq::<(i64, Seq<char>)>::empty());
            assert(av.take(0) =~= Seq::<(i64, Seq<char>)>::empty());
            assert(bv.take(0) =~= Seq::<(i64, Seq<char>)>::empty());
            assert(Seq::<(i64, Seq<char>)>::empty() + Seq::<(i64, Seq<char>)>::empty()
                =~= Seq::<(i64, Seq<char>)>::empty());
        }
    }
    while i < a.len() || j < b.len()
        invariant
            av == segments_view(a@),
            bv == segments_view(b@),
            sorted_by_time(av),
            sorted_by_time(bv),
            i <= a.len(),
            j <= b.len(),
            segments_view(out@).len() == i + j,
            sorted_by_time(segments_view(out@)),
            forall|t: i64|
                #[trigger] at_time(segments_view(out@), t) == at_time(av.take(i as int), t)
                    + at_time(bv.take(j as int), t),
            i < a.len() ==> forall|k: int| 0 <= k < j ==> #[trigger] bv[k].0 < av[i as int].0,
            segments_view(out@).len() > 0 && i < a.len() ==> segments_view(out@).last().0
                <= av[i as int].0,
            segments_view(out@).len() > 0 && j < b.len() ==> segments_view(out@).last().0
                <= bv[j as int].0,
        decreases a.len() + b.len() - i - j,
    {
        let ghost ov = segments_view(out@);
        if j == b.len() || (i < a.len() && a[i].0 <= b[j].0) {
            let e = clone_segment(&a[i]);
            let ghost x = av[i as int];
            assert((e.0, e.1@) == x);
            let ghost before = out@;
            let ghost eg = e;
            out.push(e);
            proof {
                lemma_view_push(before, eg);
                let nv = segments_view(out@);
                assert(nv == ov.push(x));
                assert(av.take(i + 1) =~= av.take(i as int).push(x));
                assert forall|t: i64| #[trigger] at_time(nv, t) == at_time(av.take(i + 1), t)
                    + at_time(bv.take(j as int), t) by {
                    lemma_at_time_push(ov, x, t);
                    lemma_at_time_push(av.take(i as int), x, t);
                    if t == x.0 {
                        assert forall|k: int| 0 <= k < bv.take(j as int).len() implies bv.take(
                            j as int,
                        )[k].0 != t by {
                            assert(bv.take(j as int)[k] == bv[k]);
                            assert(bv[k].0 < av[i as int].0);
                        }
                        lemma_at_time_none(bv.take(j as int), t);
                        assert(at_time(nv, t) =~= at_time(av.take(i + 1), t) + at_time(
                            bv.take(j as int),
                            t,
                        ));
                    }
                }
                assert forall|p: int, q: int| 0 <= p < q < nv.len() implies #[trigger] nv[p].0
                    <= #[trigger] nv[q].0 by {
                    if q == nv.len() - 1 && p < ov.len() {
                        assert(nv[p] == ov[p]);
                        assert(ov[p].0 <= ov.last().0);
                    }
                }
                if i + 1 < a.len() {
                    assert(av[i as int].0 <= av[i + 1].0);
                }
            }
            i = i + 1;
        } else {
            let e = clone_segment(&b[j]);
            let ghost y = bv[j as int];
            assert((e.0, e.1@) == y);
            let ghost before = out@;
            let ghost eg = e;
            out.push(e);
            proof {
                lemma_view_push(before, eg);
                let nv = segments_view(out@);
                assert(nv == ov.push(y));
                assert(bv.take(j + 1) =~= bv.take(j as int).push(y));
                assert forall|t: i64| #[trigger] at_time(nv, t) == at_time(av.take(i as int), t)
                    + at_time(bv.take(j + 1), t) by {
                    lemma_at_time_push(ov, y, t);
                    lemma_at_time_push(bv.take(j as int), y, t);
                    if t == y.0 {
                        assert(at_time(nv, t) =~= at_time(av.take(i as int), t) + at_time(
                            bv.take(j + 1),
                            t,
                        ));
                    }
                }
                assert forall|p: int, q: int| 0 <= p < q < nv.len() implies #[trigger] nv[p].0
                    <= #[trigger] nv[q].0 by {
                    if q == nv.len() - 1 && p < ov.len() {
                        assert(nv[p] == ov[p]);
                        assert(ov[p].0 <= ov.last().0);
                    }
                }
                if j + 1 < b.len() {
                    assert(bv[j as int].0 <= bv[j + 1].0);
                }
            }
            j = j + 1;
        }
    }
    assert(av.take(a.len() as int) =~= av);
    assert(bv.take(b.len() as int) =~= bv);
    out
}

/// Sorts `segs[lo..hi]` by time, stably.
fn sort_range(segs: &Vec<(i64, String)>, lo: usize, hi: usize) -> (out: Vec<(i64, String)>)
    requires
        lo <= hi <= segs.len(),
    ensures
        is_time_ordering(segments_view(out@), segments_view(segs@).subrange(lo as int, hi as int)),
    decreases hi - lo,
{
    let ghost sv = segments_view(segs@);
    if hi - lo <= 1 {
        let mut out: Vec<(i64, String)> = Vec::new();
        if hi - lo == 1 {
            let e = clone_segment(&segs[lo]);
            out.push(e);
        }
        assert(segments_view(out@) =~= sv.subrange(lo as int, hi as int));
        out
    } else {
        let mid = lo + (hi - lo) / 2;
        let left = sort_range(segs, lo, mid);
        let right = sort_range(segs, mid, hi);
        let out = merge_by_time(&left, &right);
        proof {
            assert(sv.subrange(lo as int, mid as int) + sv.subrange(mid as int, hi as int)
                =~= sv.subrange(lo as int, hi as int));
            assert forall|t: i64| #[trigger] at_time(segments_view(out@), t) == at_time(
                sv.subrange(lo as int, hi as int),
                t,
            ) by {
                lemma_at_time_add(sv.subrange(lo as int, mid as int), sv.subrange(mid as int, hi as int), t);
            }
        }
        out
    }
}

/// Sorts segments by time, keeping segments of equal time in their given order
/// (`sort_by_key` on the time).
pub fn sort_by_time(segs: &Vec<(i64, String)>) -> (out: Vec<(i64, String)>)
    ensures
        segments_view(out@) == time_ordered(segments_view(segs@)),
{
    let out = sort_range(segs, 0, segs.len());
    proof {
        let sv = segments_view(segs@);
        assert(sv.subrange(0, sv.len() as int) =~= sv);
        lemma_time_ordered(sv);
        lemma_time_ordering_unique(segments_view(out@), time_ordered(sv), sv);
    }
    out
}

} // verus!
