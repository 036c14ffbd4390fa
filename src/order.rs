use vstd::prelude::*;
use crate::cue::CueView;

verus! {

/// Where a cue starting at `k` goes into `t`: after the last cue, counted from
/// the back, that starts no later than `k`.
pub open spec fn insert_pos(t: Seq<CueView>, k: nat) -> int
    decreases t.len(),
{
    if t.len() == 0 || t.last().start <= k {
        t.len() as int
    } else {
        insert_pos(t.drop_last(), k)
    }
}

/// `t` with `c` put in after every cue that starts no later than it.
pub open spec fn insert_by_start(t: Seq<CueView>, c: CueView) -> Seq<CueView> {
    t.insert(insert_pos(t, c.start), c)
}

/// The cues of `s` ordered by start; cues with equal start keep their order.
pub open spec fn sort_by_start(s: Seq<CueView>) -> Seq<CueView>
    decreases s.len(),
{
    if s.len() == 0 {
        s
    } else {
        insert_by_start(sort_by_start(s.drop_last()), s.last())
    }
}

/// Start times never decrease along `s`.
pub open spec fn is_sorted(s: Seq<CueView>) -> bool {
    forall|i: int, j: int| 0 <= i < j < s.len() ==> s[i].start <= s[j].start
}

/// The cues of `s` that start at `k`, in their order in `s`.
pub open spec fn with_start(s: Seq<CueView>, k: nat) -> Seq<CueView>
    decreases s.len(),
{
    if s.len() == 0 {
        s
    } else if s.last().start == k {
        with_start(s.drop_last(), k).push(s.last())
    } else {
        with_start(s.drop_last(), k)
    }
}

pub proof fn lemma_insert_pos(t: Seq<CueView>, k: nat)
    ensures
        0 <= insert_pos(t, k) <= t.len(),
        forall|i: int| insert_pos(t, k) <= i < t.len() ==> t[i].start > k,
        insert_pos(t, k) > 0 ==> t[insert_pos(t, k) - 1].start <= k,
    decreases t.len(),
{
    if t.len() > 0 && t.last().start > k {
        lemma_insert_pos(t.drop_last(), k);
        assert forall|i: int| insert_pos(t, k) <= i < t.len() implies t[i].start > k by {
            if i < t.len() - 1 {
                assert(t.drop_last()[i] == t[i]);
            }
        }
    }
}

pub proof fn lemma_insert_keeps_sorted(t: Seq<CueView>, c: CueView)
    requires
        is_sorted(t),
    ensures
        is_sorted(insert_by_start(t, c)),
{
    lemma_insert_pos(t, c.start);
    let p = insert_pos(t, c.start);
    let r = insert_by_start(t, c);
    assert forall|i: int, j: int| 0 <= i < j < r.len() implies r[i].start <= r[j].start by {
        if j < p {
        } else if j == p {
            assert(r[i] == t[i]);
            assert(t[i].start <= t[p - 1].start);
        } else if i < p {
            assert(r[j] == t[j - 1]);
        } else if i == p {
            assert(r[j] == t[j - 1]);
        } else {
            assert(r[j] == t[j - 1] && r[i] == t[i - 1]);
        }
    }
}

/// The result of sorting is ordered by start and holds as many cues.
pub proof fn lemma_sort_sorted(s: Seq<CueView>)
    ensures
        is_sorted(sort_by_start(s)),
        sort_by_start(s).len() == s.len(),
    decreases s.len(),
{
    if s.len() > 0 {
        lemma_sort_sorted(s.drop_last());
        lemma_insert_keeps_sorted(sort_by_start(s.drop_last()), s.last());
        lemma_insert_pos(sort_by_start(s.drop_last()), s.last().start);
    }
}

/// Sorting leaves an ordered sequence as it is.
pub proof fn lemma_sort_of_sorted(s: Seq<CueView>)
    requires
        is_sorted(s),
    ensures
        sort_by_start(s) == s,
    decreases s.len(),
{
    if s.len() > 0 {
        let d = s.drop_last();
        assert(is_sorted(d));
        lemma_sort_of_sorted(d);
        assert(d.insert(d.len() as int, s.last()) =~= s);
    }
}

/// Sorting is idempotent.
pub proof fn lemma_sort_idempotent(s: Seq<CueView>)
    ensures
        sort_by_start(sort_by_start(s)) == sort_by_start(s),
{
    lemma_sort_sorted(s);
    lemma_sort_of_sorted(sort_by_start(s));
}

pub proof fn lemma_with_start_add(a: Seq<CueView>, b: Seq<CueView>, k: nat)
    ensures
        with_start(a + b, k) == with_start(a, k) + with_start(b, k),
    decreases b.len(),
{
    if b.len() == 0 {
        assert(a + b =~= a);
        assert(with_start(a, k) + with_start(b, k) =~= with_start(a, k));
    } else {
        lemma_with_start_add(a, b.drop_last(), k);
        assert((a + b).drop_last() =~= a + b.drop_last());
        if b.last().start == k {
            assert(with_start(a, k) + with_start(b, k) =~= (with_start(a, k) + with_start(
                b.drop_last(),
                k,
            )).push(b.last()));
        }
    }
}

pub proof fn lemma_with_start_none(b: Seq<CueView>, k: nat)
    requires
        forall|i: int| 0 <= i < b.len() ==> b[i].start != k,
    ensures
        with_start(b, k) == Seq::<CueView>::empty(),
    decreases b.len(),
{
    if b.len() > 0 {
        lemma_with_start_none(b.drop_last(), k);
    }
}

/// Sorting is stable: the cues that start at any one time keep their order.
pub proof fn lemma_sort_stable(s: Seq<CueView>, k: nat)
    ensures
        with_start(sort_by_start(s), k) == with_start(s, k),
    decreases s.len(),
{
    if s.len() > 0 {
        let d = s.drop_last();
        let c = s.last();
        let t = sort_by_start(d);
        lemma_sort_stable(d, k);
        lemma_sort_sorted(d);
        lemma_insert_pos(t, c.start);
        let p = insert_pos(t, c.start);
        assert(t.insert(p, c) =~= t.take(p) + seq![c] + t.skip(p));
        assert(t =~= t.take(p) + t.skip(p));
        lemma_with_start_add(t.take(p) + seq![c], t.skip(p), k);
        lemma_with_start_add(t.take(p), seq![c], k);
        lemma_with_start_add(t.take(p), t.skip(p), k);
        let ws = with_start(seq![c], k);
        assert(seq![c].drop_last() =~= Seq::<CueView>::empty());
        assert(seq![c].len() == 1 && seq![c].last() == c);
        assert(with_start(seq![c].drop_last(), k) =~= Seq::<CueView>::empty());
        let a = with_start(t.take(p), k);
        let b = with_start(t.skip(p), k);
        assert(with_start(sort_by_start(s), k) == a + ws + b);
        assert(with_start(t, k) == a + b);
        if c.start == k {
            lemma_with_start_none(t.skip(p), k);
            assert(ws =~= seq![c]);
            assert(a + ws + b =~= (a + b).push(c));
        } else {
            assert(ws =~= Seq::<CueView>::empty());
            assert(a + ws + b =~= a + b);
        }
    }
}

/// Sorting keeps every cue: the same cues, as many times each.
pub proof fn lemma_sort_content(s: Seq<CueView>)
    ensures
        sort_by_start(s).to_multiset() == s.to_multiset(),
    decreases s.len(),
{
    broadcast use vstd::seq_lib::to_multiset_build;
    if s.len() > 0 {
        lemma_sort_content(s.drop_last());
        lemma_sort_sorted(s.drop_last());
        lemma_insert_pos(sort_by_start(s.drop_last()), s.last().start);
        vstd::seq_lib::to_multiset_insert(
            sort_by_start(s.drop_last()),
            insert_pos(sort_by_start(s.drop_last()), s.last().start),
            s.last(),
        );
        assert(s =~= s.drop_last().push(s.last()));
    }
}

} // verus!
