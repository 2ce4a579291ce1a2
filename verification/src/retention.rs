//! What a cache keeps and what it lets go: facts that hold of every sequence of
//! insertions.

use crate::array::{Array, at, cat_result, in_bounds, lead};
use crate::cache::{
    CacheView, Entry, admitted, gather_result, insert_result, is_least, keys_of, least, ready,
    rescored, scores_of, update_result, values_of,
};
use crate::number::{exceeds, is_nan, rank};
use vstd::multiset::Multiset;
use vstd::prelude::*;

verus! {

/// The entries of a cache in the order in which they are read.
pub open spec fn contents(c: CacheView) -> Seq<Entry> {
    c.heavy + c.recent
}

/// Whether neither queue has room left.
pub open spec fn full(c: CacheView) -> bool {
    c.recent.len() >= c.recent_capacity && c.heavy.len() >= c.heavy_capacity
}

/// The entry that a full cache lets go of when it takes in another one.
pub open spec fn discarded(c: CacheView) -> Entry {
    let oldest = c.recent.first();
    let i = least(scores_of(c.heavy));
    if c.heavy.len() > 0 && exceeds(oldest.score, c.heavy[i].score) {
        c.heavy[i]
    } else {
        oldest
    }
}

/// The two parts of a cache together have the capacity that it was made with, or
/// one place less.
pub proof fn the_parts_make_up_the_capacity(total_capacity: nat)
    ensures
        total_capacity - 1 <= total_capacity / 7 + 6 * total_capacity / 7 <= total_capacity,
        total_capacity % 7 == 0 ==> total_capacity / 7 + 6 * total_capacity / 7 == total_capacity,
{
}

/// Among scores that can be compared there is a first smallest one.
pub proof fn a_least_score_exists(scores: Seq<u64>)
    requires
        scores.len() > 0,
    ensures
        is_least(scores, least(scores)),
    decreases scores.len(),
{
    if scores.len() == 1 {
        assert(is_least(scores, 0));
    } else {
        let front = scores.drop_last();
        a_least_score_exists(front);
        let i = least(front);
        let n = scores.len() - 1;
        assert(forall|j: int| 0 <= j < n ==> front[j] == #[trigger] scores[j]);
        if rank(scores[n]) < rank(scores[i]) {
            assert(is_least(scores, n));
        } else {
            assert(is_least(scores, i));
        }
    }
}

/// Taking in an entry never overfills a cache, and leaves its capacities as they
/// are.
pub proof fn taking_in_keeps_the_bounds(c: CacheView, e: Entry)
    requires
        c.bounded(),
        c.recent_capacity > 0,
    ensures
        admitted(c, e).bounded(),
        admitted(c, e).heavy_capacity == c.heavy_capacity,
        admitted(c, e).recent_capacity == c.recent_capacity,
        contents(admitted(c, e)).len() <= c.heavy_capacity + c.recent_capacity,
{
    if c.heavy.len() > 0 {
        a_least_score_exists(scores_of(c.heavy));
    }
}

/// The newest entry is always kept: it is the last one read.
pub proof fn the_newest_entry_is_read_last(c: CacheView, e: Entry)
    requires
        c.bounded(),
        c.recent_capacity > 0,
    ensures
        admitted(c, e).recent.last() == e,
        contents(admitted(c, e)).last() == e,
{
}

/// As long as there is room nothing is lost, and the entries are read in the order
/// in which they came.
pub proof fn nothing_is_lost_while_there_is_room(c: CacheView, e: Entry)
    requires
        c.bounded(),
        c.recent_capacity > 0,
        !full(c),
    ensures
        contents(admitted(c, e)) == contents(c).push(e),
{
    if c.recent.len() < c.recent_capacity {
        assert(contents(admitted(c, e)) =~= contents(c).push(e));
    } else {
        assert(contents(admitted(c, e)) =~= contents(c).push(e));
    }
}

/// A full cache lets go of exactly one entry for each that it takes in.
pub proof fn a_full_cache_lets_go_of_one_entry(c: CacheView, e: Entry)
    requires
        c.bounded(),
        c.recent_capacity > 0,
        full(c),
    ensures
        full(admitted(c, e)),
        contents(c).push(e).to_multiset() == contents(admitted(c, e)).to_multiset().insert(
            discarded(c),
        ),
{
    broadcast use vstd::seq_lib::group_to_multiset_ensures;

    let n = admitted(c, e);
    let oldest = c.recent.first();
    let rest = c.recent.drop_first();
    assert(c.recent =~= seq![oldest] + rest);
    let i = least(scores_of(c.heavy));
    vstd::seq_lib::lemma_multiset_commutative(c.heavy, c.recent);
    vstd::seq_lib::lemma_multiset_commutative(seq![oldest], rest);
    vstd::seq_lib::lemma_multiset_commutative(n.heavy, n.recent);
    assert(seq![oldest].to_multiset() =~= Multiset::singleton(oldest)) by {
        assert(seq![oldest] =~= Seq::<Entry>::empty().push(oldest));
    }
    assert(n.recent.to_multiset() =~= rest.to_multiset().insert(e));
    if c.heavy.len() > 0 && exceeds(oldest.score, c.heavy[i].score) {
        a_least_score_exists(scores_of(c.heavy));
        assert(n.heavy.to_multiset() =~= c.heavy.to_multiset().insert(oldest).remove(c.heavy[i]));
        assert(c.heavy.to_multiset().count(c.heavy[i]) > 0);
    }
    assert(contents(c).push(e).to_multiset() =~= contents(n).to_multiset().insert(discarded(c)));
}

/// What a full cache lets go of has drawn no more attention than any heavy hitter
/// that it keeps.
pub proof fn the_least_attended_entry_goes(c: CacheView, e: Entry)
    requires
        c.bounded(),
        c.recent_capacity > 0,
        full(c),
        !is_nan(c.recent.first().score),
        forall|j: int| 0 <= j < c.heavy.len() ==> !is_nan(#[trigger] c.heavy[j].score),
    ensures
        forall|j: int|
            0 <= j < admitted(c, e).heavy.len() ==> rank(discarded(c).score) <= rank(
                #[trigger] admitted(c, e).heavy[j].score,
            ),
{
    let scores = scores_of(c.heavy);
    if c.heavy.len() > 0 {
        a_least_score_exists(scores);
        assert(forall|j: int| 0 <= j < c.heavy.len() ==> scores[j] == #[trigger] c.heavy[j].score);
    }
}

/// A heavy hitter is only ever replaced by an entry that has drawn more attention.
pub proof fn a_heavy_hitter_yields_only_to_a_heavier_one(c: CacheView, e: Entry, j: int)
    requires
        c.bounded(),
        c.recent_capacity > 0,
        0 <= j < c.heavy.len(),
    ensures
        admitted(c, e).heavy[j] == c.heavy[j] || (admitted(c, e).heavy[j] == c.recent.first()
            && exceeds(c.recent.first().score, c.heavy[j].score)),
{
    a_least_score_exists(scores_of(c.heavy));
}

/// Recording attention changes scores alone: the same keys and values stay, in
/// the same places.
pub proof fn recording_attention_keeps_the_entries(
    c: CacheView,
    query: Array,
    n: CacheView,
    ok: bool,
)
    requires
        update_result(c, query, n, ok),
    ensures
        keys_of(n.heavy) == keys_of(c.heavy),
        values_of(n.heavy) == values_of(c.heavy),
        keys_of(n.recent) == keys_of(c.recent),
        values_of(n.recent) == values_of(c.recent),
        n.heavy.len() == c.heavy.len(),
        n.recent.len() == c.recent.len(),
        n.heavy_capacity == c.heavy_capacity,
        n.recent_capacity == c.recent_capacity,
        n.num_heads == c.num_heads,
        n.head_dim == c.head_dim,
        c.bounded() ==> n.bounded(),
{
    assert(n == c || exists|f: u64, h: u64| #[trigger] rescored(c, query, f, h, n, ok));
    assert(keys_of(n.heavy) =~= keys_of(c.heavy));
    assert(values_of(n.heavy) =~= values_of(c.heavy));
    assert(keys_of(n.recent) =~= keys_of(c.recent));
    assert(values_of(n.recent) =~= values_of(c.recent));
}

/// The recent window after one more key: the oldest leaves once it is full.
pub open spec fn slid(window: Seq<Array>, capacity: nat, k: Array) -> Seq<Array> {
    if window.len() < capacity {
        window.push(k)
    } else {
        window.drop_first().push(k)
    }
}

/// What one insertion does to the recent window and to the number of heavy
/// hitters.
pub(crate) proof fn lemma_insertion_slides_the_window(
    c: CacheView,
    query: Array,
    k: Array,
    v: Array,
    n: CacheView,
)
    requires
        c.bounded(),
        c.recent_capacity > 0,
        insert_result(c, query, k, v, n, true),
    ensures
        n.bounded(),
        n.recent_capacity == c.recent_capacity,
        n.heavy_capacity == c.heavy_capacity,
        keys_of(n.recent) == slid(keys_of(c.recent), c.recent_capacity, k),
        values_of(n.recent) == slid(values_of(c.recent), c.recent_capacity, v),
        n.heavy.len() == if c.recent.len() >= c.recent_capacity && c.heavy.len()
            < c.heavy_capacity {
            c.heavy.len() + 1
        } else {
            c.heavy.len()
        },
{
    let (m, u): (CacheView, bool) = choose|m: CacheView, u: bool| #[trigger]
        update_result(c, query, m, u) && if ready(m) {
            true && n == admitted(m, Entry { k, v, score: 0 })
        } else {
            !true && n == m
        };
    recording_attention_keeps_the_entries(c, query, m, u);
    taking_in_keeps_the_bounds(m, Entry { k, v, score: 0 });
    if m.heavy.len() > 0 {
        a_least_score_exists(scores_of(m.heavy));
    }
    assert(keys_of(n.recent) =~= slid(keys_of(m.recent), m.recent_capacity, k));
    assert(values_of(n.recent) =~= slid(values_of(m.recent), m.recent_capacity, v));
}

/// Whether step `i` of a history inserts the `i`-th key and value.
pub open spec fn step(
    states: Seq<CacheView>,
    queries: Seq<Array>,
    ks: Seq<Array>,
    vs: Seq<Array>,
    i: int,
) -> bool {
    insert_result(states[i], queries[i], ks[i], vs[i], states[i + 1], true)
}

/// Whether `states` is what a cache goes through when these keys and values are
/// inserted one after the other.
pub open spec fn trace(
    states: Seq<CacheView>,
    queries: Seq<Array>,
    ks: Seq<Array>,
    vs: Seq<Array>,
) -> bool {
    &&& states.len() == ks.len() + 1
    &&& queries.len() == ks.len()
    &&& vs.len() == ks.len()
    &&& forall|i: int| 0 <= i < ks.len() ==> #[trigger] step(states, queries, ks, vs, i)
}

/// The last `n` elements of a sequence, or all of them where there are fewer.
pub open spec fn newest<T>(s: Seq<T>, n: nat) -> Seq<T> {
    if s.len() <= n {
        s
    } else {
        s.skip(s.len() - n)
    }
}

/// Sliding a window of the newest elements along by one.
proof fn lemma_sliding<T>(s: Seq<T>, window: Seq<T>, n: nat)
    requires
        s.len() > 0,
        n > 0,
        window == newest(s.drop_last(), n),
    ensures
        newest(s, n) == if window.len() < n {
            window.push(s.last())
        } else {
            window.drop_first().push(s.last())
        },
{
    if window.len() < n {
        assert(newest(s, n) =~= window.push(s.last()));
    } else {
        assert(newest(s, n) =~= window.drop_first().push(s.last()));
    }
}

/// However many keys and values have been inserted, the recent window holds the
/// newest of them in the order in which they came, and the cache holds as many in
/// all as it has room for.
pub proof fn the_window_holds_the_newest(
    states: Seq<CacheView>,
    queries: Seq<Array>,
    ks: Seq<Array>,
    vs: Seq<Array>,
)
    requires
        trace(states, queries, ks, vs),
        states[0].heavy.len() == 0,
        states[0].recent.len() == 0,
        states[0].recent_capacity > 0,
    ensures
        states.last().bounded(),
        states.last().recent_capacity == states[0].recent_capacity,
        states.last().heavy_capacity == states[0].heavy_capacity,
        keys_of(states.last().recent) == newest(ks, states[0].recent_capacity),
        values_of(states.last().recent) == newest(vs, states[0].recent_capacity),
        ks.len() <= states[0].heavy_capacity + states[0].recent_capacity ==> contents(
            states.last(),
        ).len() == ks.len(),
        ks.len() >= states[0].heavy_capacity + states[0].recent_capacity ==> contents(
            states.last(),
        ).len() == states[0].heavy_capacity + states[0].recent_capacity,
    decreases ks.len(),
{
    let n = ks.len() as int;
    if n == 0 {
        assert(keys_of(states[0].recent) =~= newest(ks, states[0].recent_capacity));
        assert(values_of(states[0].recent) =~= newest(vs, states[0].recent_capacity));
    } else {
        let before = states.drop_last();
        let (qs0, ks0, vs0) = (queries.drop_last(), ks.drop_last(), vs.drop_last());
        assert forall|i: int| 0 <= i < n - 1 implies #[trigger] step(before, qs0, ks0, vs0, i) by {
            assert(step(states, queries, ks, vs, i));
        }
        the_window_holds_the_newest(before, qs0, ks0, vs0);
        let c = states[n - 1];
        let cap = states[0].recent_capacity;
        assert(before.last() == c);
        assert(step(states, queries, ks, vs, n - 1));
        lemma_insertion_slides_the_window(c, queries[n - 1], ks[n - 1], vs[n - 1], states[n]);
        assert(keys_of(c.recent).len() == c.recent.len());
        lemma_sliding(ks, keys_of(c.recent), cap);
        lemma_sliding(vs, values_of(c.recent), cap);
        assert(keys_of(states[n].recent).len() == states[n].recent.len());
    }
}

/// Whether each held entry is one of those that were inserted, key and value
/// together, and no two are the same one. `origin` tells which ones they are.
pub open spec fn drawn_from(
    c: CacheView,
    ks: Seq<Array>,
    vs: Seq<Array>,
    origin: Seq<int>,
) -> bool {
    &&& origin.len() == contents(c).len()
    &&& forall|p: int|
        0 <= p < origin.len() ==> {
            &&& 0 <= #[trigger] origin[p] < ks.len()
            &&& contents(c)[p].k == ks[origin[p]]
            &&& contents(c)[p].v == vs[origin[p]]
        }
    &&& forall|p: int, r: int|
        0 <= p < r < origin.len() ==> #[trigger] origin[p] != #[trigger] origin[r]
}

/// Which insertions the entries stem from after one more.
proof fn lemma_drawn_after_taking_in(
    c: CacheView,
    e: Entry,
    ks: Seq<Array>,
    vs: Seq<Array>,
    origin: Seq<int>,
) -> (next: Seq<int>)
    requires
        c.bounded(),
        c.recent_capacity > 0,
        ks.len() == vs.len(),
        drawn_from(c, ks, vs, origin),
    ensures
        drawn_from(admitted(c, e), ks.push(e.k), vs.push(e.v), next),
{
    let n = admitted(c, e);
    let h = c.heavy.len() as int;
    let ho = origin.take(h);
    let ro = origin.skip(h);
    let new = ks.len() as int;
    assert forall|p: int| 0 <= p < h implies #[trigger] c.heavy[p] == contents(c)[p] by {}
    assert forall|p: int| 0 <= p < c.recent.len() implies #[trigger] c.recent[p] == contents(c)[h
        + p] by {}
    if c.heavy.len() > 0 {
        a_least_score_exists(scores_of(c.heavy));
    }
    if c.recent.len() < c.recent_capacity {
        let next = origin.push(new);
        assert(contents(n) =~= contents(c).push(e));
        next
    } else {
        let rest = ro.drop_first().push(new);
        let i = least(scores_of(c.heavy));
        let oldest = c.recent.first();
        if c.heavy.len() < c.heavy_capacity {
            let next = ho.push(ro[0]) + rest;
            assert(next =~= origin.push(new));
            assert(contents(n) =~= contents(c).push(e));
            next
        } else if c.heavy.len() > 0 && exceeds(oldest.score, c.heavy[i].score) {
            let next = ho.update(i, ro[0]) + rest;
            assert forall|p: int| 0 <= p < next.len() implies {
                &&& 0 <= #[trigger] next[p] < ks.push(e.k).len()
                &&& contents(n)[p].k == ks.push(e.k)[next[p]]
                &&& contents(n)[p].v == vs.push(e.v)[next[p]]
            } by {
                if p == i {
                    assert(origin[h] == ro[0]);
                } else if p < h {
                    assert(origin[p] == next[p]);
                } else if p < next.len() - 1 {
                    assert(origin[p + 1] == next[p]);
                }
            }
            assert forall|p: int, r: int| 0 <= p < r < next.len() implies #[trigger] next[p]
                != #[trigger] next[r] by {
                let a = if p == i {
                    h
                } else if p < h {
                    p
                } else {
                    p + 1
                };
                let b = if r == i {
                    h
                } else if r < h {
                    r
                } else {
                    r + 1
                };
                assert(next[p] == origin[a]);
                if r < next.len() - 1 {
                    assert(next[r] == origin[b]);
                    assert(a != b);
                }
            }
            next
        } else {
            let next = ho + rest;
            assert forall|p: int| 0 <= p < next.len() implies {
                &&& 0 <= #[trigger] next[p] < ks.push(e.k).len()
                &&& contents(n)[p].k == ks.push(e.k)[next[p]]
                &&& contents(n)[p].v == vs.push(e.v)[next[p]]
            } by {
                if p < h {
                    assert(origin[p] == next[p]);
                } else if p < next.len() - 1 {
                    assert(origin[p + 1] == next[p]);
                }
            }
            assert forall|p: int, r: int| 0 <= p < r < next.len() implies #[trigger] next[p]
                != #[trigger] next[r] by {
                let a = if p < h {
                    p
                } else {
                    p + 1
                };
                assert(next[p] == origin[a]);
                if r < next.len() - 1 {
                    let b = if r < h {
                        r
                    } else {
                        r + 1
                    };
                    assert(next[r] == origin[b]);
                }
            }
            next
        }
    }
}

/// However many keys and values have been inserted, each held key stands with its own
/// value, and nothing is held twice.
pub proof fn held_entries_are_distinct_insertions(
    states: Seq<CacheView>,
    queries: Seq<Array>,
    ks: Seq<Array>,
    vs: Seq<Array>,
) -> (origin: Seq<int>)
    requires
        trace(states, queries, ks, vs),
        states[0].heavy.len() == 0,
        states[0].recent.len() == 0,
        states[0].recent_capacity > 0,
    ensures
        drawn_from(states.last(), ks, vs, origin),
    decreases ks.len(),
{
    let n = ks.len() as int;
    if n == 0 {
        Seq::empty()
    } else {
        let before = states.drop_last();
        let (qs0, ks0, vs0) = (queries.drop_last(), ks.drop_last(), vs.drop_last());
        assert forall|i: int| 0 <= i < n - 1 implies #[trigger] step(before, qs0, ks0, vs0, i) by {
            assert(step(states, queries, ks, vs, i));
        }
        let origin = held_entries_are_distinct_insertions(before, qs0, ks0, vs0);
        the_window_holds_the_newest(before, qs0, ks0, vs0);
        let c = states[n - 1];
        assert(before.last() == c);
        assert(step(states, queries, ks, vs, n - 1));
        let (query, k, v) = (queries[n - 1], ks[n - 1], vs[n - 1]);
        let e = Entry { k, v, score: 0 };
        let (m, u): (CacheView, bool) = choose|m: CacheView, u: bool| #[trigger]
            update_result(c, query, m, u) && ready(m) && states[n] == admitted(m, e);
        recording_attention_keeps_the_entries(c, query, m, u);
        lemma_same_origin(c, m, ks0, vs0, origin);
        let next = lemma_drawn_after_taking_in(m, e, ks0, vs0, origin);
        assert(ks0.push(k) =~= ks);
        assert(vs0.push(v) =~= vs);
        next
    }
}

/// Entries whose scores alone have changed stem from the same insertions.
proof fn lemma_same_origin(
    c: CacheView,
    m: CacheView,
    ks: Seq<Array>,
    vs: Seq<Array>,
    origin: Seq<int>,
)
    requires
        drawn_from(c, ks, vs, origin),
        keys_of(m.heavy) == keys_of(c.heavy),
        values_of(m.heavy) == values_of(c.heavy),
        keys_of(m.recent) == keys_of(c.recent),
        values_of(m.recent) == values_of(c.recent),
        m.heavy.len() == c.heavy.len(),
        m.recent.len() == c.recent.len(),
    ensures
        drawn_from(m, ks, vs, origin),
{
    let h = c.heavy.len() as int;
    assert forall|p: int| 0 <= p < origin.len() implies {
        &&& 0 <= #[trigger] origin[p] < ks.len()
        &&& contents(m)[p].k == ks[origin[p]]
        &&& contents(m)[p].v == vs[origin[p]]
    } by {
        if p < h {
            assert(keys_of(m.heavy)[p] == m.heavy[p].k);
            assert(keys_of(c.heavy)[p] == c.heavy[p].k);
            assert(values_of(m.heavy)[p] == m.heavy[p].v);
            assert(values_of(c.heavy)[p] == c.heavy[p].v);
        } else {
            assert(keys_of(m.recent)[p - h] == m.recent[p - h].k);
            assert(keys_of(c.recent)[p - h] == c.recent[p - h].k);
            assert(values_of(m.recent)[p - h] == m.recent[p - h].v);
            assert(values_of(c.recent)[p - h] == c.recent[p - h].v);
        }
    }
}

/// What is read is what was stored: the elements of each entry stand in their own
/// range of positions, one entry after the other, and unchanged.
pub proof fn reading_gives_back_what_was_stored(
    c: CacheView,
    k: Array,
    v: Array,
    p: int,
    idx: Seq<int>,
)
    requires
        gather_result(c, Some((k, v))),
        0 <= p < contents(c).len(),
        idx.len() > 2,
    ensures
        in_bounds(contents(c)[p].k.dims, idx) ==> at(
            k,
            idx.update(2, idx[2] + lead(keys_of(contents(c)), 2, p)),
        ) == at(contents(c)[p].k, idx),
        in_bounds(contents(c)[p].v.dims, idx) ==> at(
            v,
            idx.update(2, idx[2] + lead(values_of(contents(c)), 2, p)),
        ) == at(contents(c)[p].v, idx),
{
    let (ks, vs) = (keys_of(contents(c)), values_of(contents(c)));
    assert(cat_result(ks, 2, Some(k)));
    assert(cat_result(vs, 2, Some(v)));
    assert(ks[p] == contents(c)[p].k && vs[p] == contents(c)[p].v);
    if contents(c).len() == 1 {
        assert(idx.update(2, idx[2]) =~= idx);
    } else {
        assert(in_bounds(ks[p].dims, idx) ==> at(ks[p], idx) == at(
            k,
            idx.update(2, idx[2] + lead(ks, 2, p)),
        ));
        assert(in_bounds(vs[p].dims, idx) ==> at(vs[p], idx) == at(
            v,
            idx.update(2, idx[2] + lead(vs, 2, p)),
        ));
    }
}

/// The total size of the first `n` arrays that each have size one on an axis.
proof fn lemma_lead_of_single_positions(parts: Seq<Array>, dim: int, n: int)
    requires
        0 <= n <= parts.len(),
        forall|i: int| 0 <= i < parts.len() ==> (#[trigger] parts[i]).dims[dim] == 1,
    ensures
        lead(parts, dim, n) == n,
    decreases n,
{
    if n > 0 {
        lemma_lead_of_single_positions(parts, dim, n - 1);
        assert(parts[n - 1].dims[dim] == 1);
    }
}

/// Where each entry holds one position, attention reads as many positions as there
/// are entries: never more than the cache has room for.
pub proof fn reading_is_bounded_by_the_capacity(c: CacheView, k: Array, v: Array)
    requires
        c.bounded(),
        gather_result(c, Some((k, v))),
        forall|i: int| 0 <= i < contents(c).len() ==> (#[trigger] contents(c)[i]).k.dims[2] == 1,
    ensures
        k.dims[2] == contents(c).len(),
        k.dims[2] <= c.heavy_capacity + c.recent_capacity,
{
    let keys = keys_of(contents(c));
    let out = choose|out: Option<Array>| #[trigger]
        cat_result(keys, 2, out) && out == Some(k);
    assert(cat_result(keys, 2, Some(k)));
    assert forall|i: int| 0 <= i < keys.len() implies (#[trigger] keys[i]).dims[2] == 1 by {
        assert(contents(c)[i].k.dims[2] == 1);
    }
    lemma_lead_of_single_positions(keys, 2, keys.len() as int);
}

/// What is read begins with the heavy hitters, in their order, and ends with the recent
/// entries, from the oldest to the newest. An entry takes as many positions as it has.
pub proof fn heavy_hitters_are_read_before_recent_entries(
    c: CacheView,
    k: Array,
    v: Array,
    p: int,
    idx: Seq<int>,
)
    requires
        gather_result(c, Some((k, v))),
        0 <= p < c.heavy.len() + c.recent.len(),
        idx.len() > 2,
    ensures
        ({
            let h = c.heavy.len() as int;
            let e = if p < h {
                c.heavy[p]
            } else {
                c.recent[p - h]
            };
            let ks = Seq::new(
                (c.heavy.len() + c.recent.len()) as nat,
                |i: int|
                    if i < h {
                        c.heavy[i].k
                    } else {
                        c.recent[i - h].k
                    },
            );
            let vs = Seq::new(
                (c.heavy.len() + c.recent.len()) as nat,
                |i: int|
                    if i < h {
                        c.heavy[i].v
                    } else {
                        c.recent[i - h].v
                    },
            );
            &&& in_bounds(e.k.dims, idx) ==> at(k, idx.update(2, idx[2] + lead(ks, 2, p))) == at(
                e.k,
                idx,
            )
            &&& in_bounds(e.v.dims, idx) ==> at(v, idx.update(2, idx[2] + lead(vs, 2, p))) == at(
                e.v,
                idx,
            )
        }),
{
    let h = c.heavy.len() as int;
    let ks = Seq::new(
        (c.heavy.len() + c.recent.len()) as nat,
        |i: int|
            if i < h {
                c.heavy[i].k
            } else {
                c.recent[i - h].k
            },
    );
    let vs = Seq::new(
        (c.heavy.len() + c.recent.len()) as nat,
        |i: int|
            if i < h {
                c.heavy[i].v
            } else {
                c.recent[i - h].v
            },
    );
    assert(keys_of(contents(c)) =~= ks);
    assert(values_of(contents(c)) =~= vs);
    reading_gives_back_what_was_stored(c, k, v, p, idx);
}

} // verus!
