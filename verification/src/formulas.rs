//! What the operations of the model compute, written out over the arithmetic of single
//! numbers.

use crate::array::{
    Array, arange, at, batch, column_of_matrix, count, dims_2, dims_4, reshape_result,
    row_of_matrix, scalar, transpose_result,
};
use crate::cache::{
    CacheView, DECAY, Entry, admitted, averaged_result, insert_result, keys_of, least,
    raised_result, ready, refreshed, rescored, score_result, scores_of, share_result, update_result,
};
use crate::laws::{lemma_batch_4, lemma_count_2, lemma_position_2};
use crate::number::{exceeds, inverse_root_result, is_nan, number_result};
use crate::retention::{a_least_score_exists, contents, recording_attention_keeps_the_entries};
use crate::rotary::{
    RotaryView, angles_result, frequencies_result, frequency_result, inverse_power_result,
    lemma_counts_of_column, rotary_result, row_of,
};
use crate::rows::lemma_turned_column;
use crate::success::{lemma_fits_4, lemma_score_owed};
use crate::tensor::{
    add_outcome, add_result, cast_outcome, cast_result, cos_outcome, cos_result, div_outcome,
    div_result, lemma_count_positive, matmul_outcome, matmul_result, mul_outcome, mul_result,
    power_outcome, power_result, recip_outcome, recip_result, scale_outcome, scale_result,
    sin_outcome, sin_result, softmax_outcome, softmax_result, sqrt_outcome, sqrt_result,
    sum_outcome, sum_result, summed,
};
use candle_core::DType;
use vstd::prelude::*;

verus! {

/// One over the root of a whole number is the reciprocal of the root of the double that
/// stands for that number, and for no other. It always exists.
pub proof fn one_over_a_root(n: int, out: Option<Array>) -> (found: (u64, u64, u64))
    requires
        inverse_root_result(n, out),
    ensures
        cast_outcome(DType::I64, DType::F64, n as u64, found.0),
        sqrt_outcome(DType::F64, found.0, found.1),
        recip_outcome(DType::F64, found.1, found.2),
        out == Some(
            Array { dtype: DType::F64, dims: Seq::<usize>::empty(), elems: seq![found.2] },
        ),
{
    let x = choose|x: Array| #[trigger]
        number_result(n, Some(x)) && exists|s: Option<Array>| #[trigger]
            sqrt_result(x, s) && match s {
                None => out is None,
                Some(s) => recip_result(s, out),
            };
    let s = choose|s: Array| #[trigger] sqrt_result(x, Some(s)) && recip_result(s, out);
    let t = out->Some_0;
    assert(x.elems[0] == x.elems[0]);
    assert(s.elems[0] == s.elems[0]);
    assert(t.elems[0] == t.elems[0]);
    assert(t.elems =~= seq![t.elems[0]]);
    assert(t.dims =~= Seq::<usize>::empty());
    (x.elems[0], s.elems[0], t.elems[0])
}

/// Whether each element of `w` is the product of a row of queries and a row of keys with the
/// same head and member of the batch.
pub open spec fn compared(query: Array, key: Array, w: Array) -> bool {
    forall|m: int, i: int, j: int|
        0 <= m < batch(query.dims) && 0 <= i < query.dims[2] && 0 <= j < key.dims[2]
            ==> matmul_outcome(
            query.dtype,
            #[trigger] row_of_matrix(query, m, i),
            #[trigger] row_of_matrix(key, m, j),
            w.elems[(m * query.dims[2] + i) * key.dims[2] + j],
        )
}

/// Whether each element of `s` is that of `w` times a number.
pub open spec fn multiplied(w: Array, factor: u64, s: Array) -> bool {
    &&& s.dtype == w.dtype && s.dims == w.dims && s.elems.len() == w.elems.len()
    &&& forall|x: int|
        0 <= x < w.elems.len() ==> scale_outcome(
            w.dtype,
            w.elems[x],
            factor,
            #[trigger] s.elems[x],
        )
}

/// Whether `a` is the share of attention that a query gives a key: the products of their
/// rows, scaled, turned into weights over the heads, summed up, and divided by the number of
/// heads.
pub open spec fn share_of(query: Array, key: Array, factor: u64, heads: u64, a: u64) -> bool {
    exists|w: Array, s: Array, p: Array, t: u64, d: u64|
        {
            &&& w.dtype == DType::F32 && w.dims == query.dims.update(3, key.dims[2])
            &&& #[trigger] compared(query, key, w)
            &&& #[trigger] multiplied(w, factor, s)
            &&& #[trigger] softmax_outcome(s, 1, Some(p))
            &&& #[trigger] sum_outcome(
                p,
                Some(Array { dtype: DType::F32, dims: Seq::<usize>::empty(), elems: seq![t] }),
            )
            &&& #[trigger] cast_outcome(DType::F32, DType::F64, t, d)
            &&& div_outcome(DType::F64, d, heads, a)
        }
}

/// What is recorded of the attention between a query and a key is its share.
pub proof fn attention_is_recorded_as_a_share(
    query: Array,
    key: Array,
    factor: u64,
    heads: u64,
    out: Array,
)
    requires
        share_result(query, key, factor, heads, Some(out)),
        query.dims.len() == 4 && key.dims.len() == 4,
        query.dims[3] > 0,
    ensures
        query.dtype == DType::F32,
        out == (Array {
            dtype: DType::F64,
            dims: Seq::<usize>::empty(),
            elems: seq![out.elems[0]],
        }),
        share_of(query, key, factor, heads, out.elems[0]),
{
    let t = choose|t: Array| #[trigger]
        transpose_result(key, 2, 3, Some(t)) && exists|w: Option<Array>| #[trigger]
            matmul_result(query, t, w) && match w {
                None => false,
                Some(w) => exists|s: Option<Array>| #[trigger]
                    scale_result(w, factor, s) && match s {
                        None => false,
                        Some(s) => exists|p: Option<Array>| #[trigger]
                            softmax_result(s, 1, p) && match p {
                                None => false,
                                Some(p) => averaged_result(p, heads, Some(out)),
                            },
                    },
            };
    let w = choose|w: Array| #[trigger]
        matmul_result(query, t, Some(w)) && exists|s: Option<Array>| #[trigger]
            scale_result(w, factor, s) && match s {
                None => false,
                Some(s) => exists|p: Option<Array>| #[trigger]
                    softmax_result(s, 1, p) && match p {
                        None => false,
                        Some(p) => averaged_result(p, heads, Some(out)),
                    },
            };
    let s = choose|s: Array| #[trigger]
        scale_result(w, factor, Some(s)) && exists|p: Option<Array>| #[trigger]
            softmax_result(s, 1, p) && match p {
                None => false,
                Some(p) => averaged_result(p, heads, Some(out)),
            };
    let p = choose|p: Array| #[trigger]
        softmax_result(s, 1, Some(p)) && averaged_result(p, heads, Some(out));
    let total = choose|total: Array| #[trigger]
        sum_result(p, Some(total)) && total.dtype == DType::F32 && exists|d: Option<Array>|
            #[trigger]
            cast_result(total, DType::F64, d) && match d {
                None => false,
                Some(d) => div_result(d, scalar(DType::F64, heads), Some(out)),
            };
    let d = choose|d: Array| #[trigger]
        cast_result(total, DType::F64, Some(d)) && div_result(
            d,
            scalar(DType::F64, heads),
            Some(out),
        );
    assert(w.dims =~= query.dims.update(3, key.dims[2]));
    lemma_batch_4(query.dims);
    lemma_batch_4(t.dims);
    lemma_batch_4(key.dims);
    assert forall|m: int, i: int, j: int|
        0 <= m < batch(query.dims) && 0 <= i < query.dims[2] && 0 <= j < key.dims[2]
            implies matmul_outcome(
        query.dtype,
        #[trigger] row_of_matrix(query, m, i),
        #[trigger] row_of_matrix(key, m, j),
        w.elems[(m * query.dims[2] + i) * key.dims[2] + j],
    ) by {
        assert(summed(query, t, w, m, i, j));
        lemma_turned_column(key, t, m, j);
    }
    let n = total.elems[0];
    assert(total == (Array {
        dtype: DType::F32,
        dims: Seq::<usize>::empty(),
        elems: seq![n],
    }));
    assert(cast_outcome(DType::F32, DType::F64, n, d.elems[0]));
    assert(scalar(DType::F64, heads).elems[0] == heads);
    assert(div_outcome(DType::F64, d.elems[0], heads, out.elems[0]));
    assert(out.elems =~= seq![out.elems[0]]);
    assert(compared(query, key, w) && multiplied(w, factor, s));
}

/// A score after a query has been recorded: the share of the query is added to what there
/// was, which has faded by one part in a hundred if it is a heavy hitter's. The key may have
/// any number of positions.
pub open spec fn scored(
    fades: bool,
    query: Array,
    key: Array,
    factor: u64,
    heads: u64,
    before: u64,
    after: u64,
) -> bool {
    exists|share: u64, base: u64|
        {
            &&& #[trigger] share_of(query, key, factor, heads, share)
            &&& if fades {
                mul_outcome(DType::F64, before, 0x3FEF_AE14_7AE1_47AE, base)
            } else {
                base == before
            }
            &&& #[trigger] add_outcome(DType::F64, base, share, after)
        }
}

/// A recorded query adds its share to the score of a key.
pub proof fn a_score_takes_its_share(
    fades: bool,
    query: Array,
    key: Array,
    factor: u64,
    heads: u64,
    before: u64,
    after: u64,
)
    requires
        score_result(fades, query, key, factor, heads, before, Some(after)),
        query.dims.len() == 4 && key.dims.len() == 4,
        query.dims[3] > 0,
    ensures
        scored(fades, query, key, factor, heads, before, after),
{
    let (held, fade) = (scalar(DType::F64, before), scalar(DType::F64, DECAY));
    let a = choose|a: Array| #[trigger]
        share_result(query, key, factor, heads, Some(a)) && if fades {
            exists|m: Option<Array>| #[trigger]
                mul_result(held, fade, m) && match m {
                    None => false,
                    Some(m) => raised_result(m, a, Some(after)),
                }
        } else {
            raised_result(held, a, Some(after))
        };
    attention_is_recorded_as_a_share(query, key, factor, heads, a);
    let share = a.elems[0];
    if fades {
        let m = choose|m: Array| #[trigger]
            mul_result(held, fade, Some(m)) && raised_result(m, a, Some(after));
        let n = choose|n: Array| #[trigger] add_result(m, a, Some(n)) && n.elems[0] == after;
        assert(m.elems[0] == m.elems[0] && n.elems[0] == after);
        assert(mul_outcome(DType::F64, before, 0x3FEF_AE14_7AE1_47AE, m.elems[0]));
        assert(add_outcome(DType::F64, m.elems[0], share, after));
    } else {
        let n = choose|n: Array| #[trigger] add_result(held, a, Some(n)) && n.elems[0] == after;
        assert(add_outcome(DType::F64, before, share, after));
    }
}

/// The factor and the number of heads that a cache scores with: one over the root of its
/// head size, and the double that stands for its number of heads.
pub open spec fn scoring(c: CacheView, factor: u64, heads: u64) -> bool {
    &&& exists|x: u64, s: u64|
        {
            &&& #[trigger] cast_outcome(DType::I64, DType::F64, c.head_dim as u64, x)
            &&& #[trigger] sqrt_outcome(DType::F64, x, s)
            &&& recip_outcome(DType::F64, s, factor)
        }
    &&& cast_outcome(DType::I64, DType::F64, c.num_heads as u64, heads)
}

/// Whether a query and a key have what it takes to tell the attention between them: single
/// precision, the same batch, heads and features, positions, and sizes that fit in a machine
/// word.
pub open spec fn go_together(query: Array, key: Array) -> bool {
    let (q, k) = (query.dims, key.dims);
    &&& query.dtype == DType::F32 && key.dtype == DType::F32
    &&& q.len() == 4 && k.len() == 4
    &&& q[0] > 0 && q[1] > 0 && q[2] > 0 && q[3] > 0 && k[2] > 0
    &&& k[0] == q[0] && k[1] == q[1] && k[3] == q[3]
    &&& ((q[0] * q[1]) * q[2]) * q[3] <= usize::MAX
    &&& ((q[0] * q[1]) * k[2]) * q[3] <= usize::MAX
    &&& ((q[0] * q[1]) * q[2]) * k[2] <= usize::MAX
}

/// Between a query and a key that go together there is a share.
proof fn lemma_goes_on(
    fades: bool,
    query: Array,
    key: Array,
    factor: u64,
    heads: u64,
    score: u64,
)
    requires
        score_result(fades, query, key, factor, heads, score, None),
    ensures
        !go_together(query, key),
{
    if go_together(query, key) {
        let (q, k) = (query.dims, key.dims);
        lemma_fits_4(q[0], q[1], q[2], q[3]);
        lemma_fits_4(q[0], q[1], k[2], q[3]);
        lemma_fits_4(q[0], q[1], q[2], k[2]);
        assert(q =~= dims_4(q[0], q[1], q[2], q[3]));
        assert(k =~= dims_4(q[0], q[1], k[2], q[3]));
        assert(q.update(3, k[2]) =~= dims_4(q[0], q[1], q[2], k[2]));
        lemma_score_owed(fades, query, key, factor, heads, score, None);
    }
}

/// Recording a query adds its share to the score of every key that is held, whatever number
/// of positions it has: to that of a recent entry as it is, and to that of a heavy hitter
/// after it has faded. Nothing else changes. It fails only at a key that does not go together
/// with the query; all before it have taken their share then, and all from it on are as they
/// were.
pub proof fn a_recorded_query_adds_its_shares(
    c: CacheView,
    query: Array,
    n: CacheView,
    ok: bool,
) -> (found: (u64, u64, int))
    requires
        update_result(c, query, n, ok),
        query.dims.len() == 4,
        query.dims[3] > 0,
        forall|p: int| 0 <= p < contents(c).len() ==> (#[trigger] contents(c)[p]).k.dims.len() == 4,
    ensures
        scoring(c, found.0, found.1),
        0 <= found.2 <= c.heavy.len() + c.recent.len(),
        ok == (found.2 == c.heavy.len() + c.recent.len()),
        found.2 < c.heavy.len() ==> !go_together(query, c.heavy[found.2].k),
        c.heavy.len() <= found.2 < c.heavy.len() + c.recent.len() ==> !go_together(
            query,
            c.recent[found.2 - c.heavy.len()].k,
        ),
        n.heavy_capacity == c.heavy_capacity && n.recent_capacity == c.recent_capacity,
        n.num_heads == c.num_heads && n.head_dim == c.head_dim,
        n.heavy.len() == c.heavy.len() && n.recent.len() == c.recent.len(),
        forall|p: int|
            0 <= p < c.heavy.len() ==> {
                &&& (#[trigger] n.heavy[p]).k == c.heavy[p].k && n.heavy[p].v == c.heavy[p].v
                &&& p < found.2 ==> scored(
                    true,
                    query,
                    c.heavy[p].k,
                    found.0,
                    found.1,
                    c.heavy[p].score,
                    n.heavy[p].score,
                )
                &&& p >= found.2 ==> n.heavy[p].score == c.heavy[p].score
            },
        forall|p: int|
            0 <= p < c.recent.len() ==> {
                &&& (#[trigger] n.recent[p]).k == c.recent[p].k && n.recent[p].v == c.recent[p].v
                &&& c.heavy.len() + p < found.2 ==> scored(
                    false,
                    query,
                    c.recent[p].k,
                    found.0,
                    found.1,
                    c.recent[p].score,
                    n.recent[p].score,
                )
                &&& c.heavy.len() + p >= found.2 ==> n.recent[p].score == c.recent[p].score
            },
{
    let f = choose|f: Option<Array>| #[trigger]
        inverse_root_result(c.head_dim as int, f) && match f {
            None => n == c && !ok,
            Some(f) => exists|h: Option<Array>| #[trigger]
                number_result(c.num_heads as int, h) && match h {
                    None => n == c && !ok,
                    Some(h) => rescored(c, query, f.elems[0], h.elems[0], n, ok),
                },
        };
    let (x, r, factor) = one_over_a_root(c.head_dim as int, f);
    let f = f->Some_0;
    let h = choose|h: Array| #[trigger]
        number_result(c.num_heads as int, Some(h)) && rescored(
            c,
            query,
            f.elems[0],
            h.elems[0],
            n,
            ok,
        );
    let heads = h.elems[0];
    assert(cast_outcome(DType::I64, DType::F64, c.num_heads as u64, heads));
    let (hk, hs, ht) = (keys_of(c.heavy), scores_of(c.heavy), scores_of(n.heavy));
    let (rk, rs, rt) = (keys_of(c.recent), scores_of(c.recent), scores_of(n.recent));
    let i = choose|i: int| #[trigger]
        refreshed(true, query, factor, heads, hk, hs, ht, i) && if i == c.heavy.len() {
            exists|j: int| #[trigger]
                refreshed(false, query, factor, heads, rk, rs, rt, j) && ok == (j
                    == c.recent.len())
        } else {
            n.recent == c.recent && !ok
        };
    let j = if i == c.heavy.len() {
        choose|j: int| #[trigger]
            refreshed(false, query, factor, heads, rk, rs, rt, j) && ok == (j == c.recent.len())
    } else {
        0
    };
    let done = i + j;
    if i < c.heavy.len() {
        assert(hk[i] == c.heavy[i].k);
        lemma_goes_on(true, query, hk[i], factor, heads, hs[i]);
    } else if j < c.recent.len() {
        assert(rk[j] == c.recent[j].k);
        lemma_goes_on(false, query, rk[j], factor, heads, rs[j]);
    }
    assert forall|p: int| 0 <= p < c.heavy.len() implies {
        &&& (#[trigger] n.heavy[p]).k == c.heavy[p].k && n.heavy[p].v == c.heavy[p].v
        &&& p < done ==> scored(
            true,
            query,
            c.heavy[p].k,
            factor,
            heads,
            c.heavy[p].score,
            n.heavy[p].score,
        )
        &&& p >= done ==> n.heavy[p].score == c.heavy[p].score
    } by {
        assert(contents(c)[p] == c.heavy[p]);
        assert(hk[p] == c.heavy[p].k && hs[p] == c.heavy[p].score && ht[p] == n.heavy[p].score);
        if p < i {
            assert(score_result(true, query, hk[p], factor, heads, hs[p], Some(ht[p])));
            a_score_takes_its_share(true, query, hk[p], factor, heads, hs[p], ht[p]);
        }
    }
    assert forall|p: int| 0 <= p < c.recent.len() implies {
        &&& (#[trigger] n.recent[p]).k == c.recent[p].k && n.recent[p].v == c.recent[p].v
        &&& c.heavy.len() + p < done ==> scored(
            false,
            query,
            c.recent[p].k,
            factor,
            heads,
            c.recent[p].score,
            n.recent[p].score,
        )
        &&& c.heavy.len() + p >= done ==> n.recent[p].score == c.recent[p].score
    } by {
        assert(contents(c)[c.heavy.len() + p] == c.recent[p]);
        if i == c.heavy.len() {
            assert(rk[p] == c.recent[p].k && rs[p] == c.recent[p].score && rt[p]
                == n.recent[p].score);
            if p < j {
                assert(score_result(false, query, rk[p], factor, heads, rs[p], Some(rt[p])));
                a_score_takes_its_share(false, query, rk[p], factor, heads, rs[p], rt[p]);
            }
        }
    }
    (factor, heads, done)
}

/// Whether the `i`-th query of a history was recorded for all keys.
pub open spec fn recorded(states: Seq<CacheView>, queries: Seq<Array>, i: int) -> bool {
    &&& update_result(states[i], queries[i], states[i + 1], true)
    &&& queries[i].dims.len() == 4
    &&& queries[i].dims[3] > 0
}

/// Whether the `i`-th query of a history added its share to the score of recent entry `p`.
pub open spec fn added_its_share(
    states: Seq<CacheView>,
    queries: Seq<Array>,
    p: int,
    i: int,
) -> bool {
    exists|factor: u64, heads: u64, share: u64|
        {
            &&& #[trigger] scoring(states[0], factor, heads)
            &&& #[trigger] share_of(queries[i], states[0].recent[p].k, factor, heads, share)
            &&& add_outcome(
                DType::F64,
                states[i].recent[p].score,
                share,
                states[i + 1].recent[p].score,
            )
        }
}

/// Over a sequence of recorded queries a recent entry sums up the shares of all of them: each
/// query adds its own to what the ones before it have left.
pub proof fn a_recent_entry_sums_its_shares(
    states: Seq<CacheView>,
    queries: Seq<Array>,
    p: int,
    i: int,
)
    requires
        states.len() == queries.len() + 1,
        forall|j: int| 0 <= j < queries.len() ==> #[trigger] recorded(states, queries, j),
        forall|q: int|
            0 <= q < contents(states[0]).len() ==> (#[trigger] contents(states[0])[q]).k.dims.len()
                == 4,
        0 <= p < states[0].recent.len(),
        0 <= i < queries.len(),
    ensures
        added_its_share(states, queries, p, i),
        states[i + 1].recent[p].k == states[0].recent[p].k,
        states[i + 1].recent[p].v == states[0].recent[p].v,
{
    lemma_recorded_history(states, queries, i);
    assert(recorded(states, queries, i));
    let (c, n) = (states[i], states[i + 1]);
    let q = states[0].heavy.len() + p;
    assert(contents(states[0])[q] == states[0].recent[p]);
    assert(contents(c)[q] == c.recent[p]);
    assert(contents(c)[q].k == contents(states[0])[q].k);
    assert forall|q: int| 0 <= q < contents(c).len() implies (#[trigger] contents(
        c,
    )[q]).k.dims.len() == 4 by {
        assert(contents(c)[q].k == contents(states[0])[q].k);
    }
    let (factor, heads, _) = a_recorded_query_adds_its_shares(c, queries[i], n, true);
    assert(n.recent[p].k == c.recent[p].k);
    assert(scored(
        false,
        queries[i],
        c.recent[p].k,
        factor,
        heads,
        c.recent[p].score,
        n.recent[p].score,
    ));
    assert(scoring(states[0], factor, heads));
}

/// Recording queries leaves the same keys and values in the same places.
proof fn lemma_recorded_history(states: Seq<CacheView>, queries: Seq<Array>, i: int)
    requires
        states.len() == queries.len() + 1,
        forall|j: int| 0 <= j < queries.len() ==> #[trigger] recorded(states, queries, j),
        forall|q: int|
            0 <= q < contents(states[0]).len() ==> (#[trigger] contents(states[0])[q]).k.dims.len()
                == 4,
        0 <= i <= queries.len(),
    ensures
        states[i].heavy.len() == states[0].heavy.len(),
        states[i].recent.len() == states[0].recent.len(),
        states[i].num_heads == states[0].num_heads,
        states[i].head_dim == states[0].head_dim,
        forall|p: int|
            0 <= p < contents(states[0]).len() ==> (#[trigger] contents(states[i])[p]).k
                == contents(states[0])[p].k && contents(states[i])[p].v == contents(
                states[0],
            )[p].v,
    decreases i,
{
    if i > 0 {
        lemma_recorded_history(states, queries, i - 1);
        assert(recorded(states, queries, i - 1));
        let (c, n) = (states[i - 1], states[i]);
        assert forall|q: int| 0 <= q < contents(c).len() implies (#[trigger] contents(
            c,
        )[q]).k.dims.len() == 4 by {
            assert(contents(c)[q].k == contents(states[0])[q].k);
        }
        let _ = a_recorded_query_adds_its_shares(c, queries[i - 1], n, true);
        assert forall|p: int| 0 <= p < contents(states[0]).len() implies (#[trigger] contents(
            n,
        )[p]).k == contents(states[0])[p].k && contents(n)[p].v == contents(states[0])[p].v by {
            assert(contents(c)[p].k == contents(states[0])[p].k);
            if p < c.heavy.len() {
                assert(contents(n)[p] == n.heavy[p] && contents(c)[p] == c.heavy[p]);
            } else {
                let q = p - c.heavy.len();
                assert(contents(n)[p] == n.recent[q] && contents(c)[p] == c.recent[q]);
            }
        }
    }
}

/// How doubles compare, bit by bit: what is no number compares with nothing, the two zeros
/// are equal, positive numbers grow with their bits, and negative ones shrink.
pub proof fn doubles_compare_as_numbers(a: u64, b: u64)
    ensures
        is_nan(a) == (0x7FF0_0000_0000_0000 < a < 0x8000_0000_0000_0000 || a
            > 0xFFF0_0000_0000_0000),
        is_nan(a) || is_nan(b) ==> !exceeds(a, b),
        a <= 0x7FF0_0000_0000_0000 && b <= 0x7FF0_0000_0000_0000 ==> exceeds(a, b) == (a > b),
        0x8000_0000_0000_0000 <= a <= 0xFFF0_0000_0000_0000 && 0x8000_0000_0000_0000 <= b
            <= 0xFFF0_0000_0000_0000 ==> exceeds(a, b) == (a < b),
        a <= 0x7FF0_0000_0000_0000 && 0x8000_0000_0000_0000 <= b <= 0xFFF0_0000_0000_0000
            ==> exceeds(a, b) == !(a == 0 && b == 0x8000_0000_0000_0000),
        0x8000_0000_0000_0000 <= a <= 0xFFF0_0000_0000_0000 && b <= 0x7FF0_0000_0000_0000
            ==> !exceeds(a, b),
{
}

/// What an insertion does, once the attention of the query has been recorded: the new entry
/// joins the recent ones with score zero. If that window is full its oldest entry leaves it,
/// and becomes a heavy hitter if there is room, or if it has a greater score than the first
/// of the heavy hitters with the least score, whose place it takes. It fails where there is no
/// room and one of at least two heavy hitters has a score that is no number, and only there.
pub proof fn an_insertion_keeps_the_most_attended(
    c: CacheView,
    query: Array,
    k: Array,
    v: Array,
    n: CacheView,
    ok: bool,
) -> (found: (CacheView, bool, int))
    requires
        insert_result(c, query, k, v, n, ok),
        c.bounded(),
        c.recent_capacity > 0,
    ensures
        update_result(c, query, found.0, found.1),
        n.heavy_capacity == c.heavy_capacity && n.recent_capacity == c.recent_capacity,
        n.num_heads == c.num_heads && n.head_dim == c.head_dim,
        !ok ==> n == found.0 && c.recent.len() == c.recent_capacity && c.heavy.len()
            == c.heavy_capacity && c.heavy.len() >= 2 && 0 <= found.2 < c.heavy.len() && is_nan(
            found.0.heavy[found.2].score,
        ),
        ok && c.recent.len() < c.recent_capacity ==> n.heavy == found.0.heavy && n.recent
            == found.0.recent.push(Entry { k, v, score: 0 }),
        ok && c.recent.len() == c.recent_capacity ==> n.recent == found.0.recent.skip(1).push(
            Entry { k, v, score: 0 },
        ),
        ok && c.recent.len() == c.recent_capacity && c.heavy.len() < c.heavy_capacity ==> n.heavy
            == found.0.heavy.push(found.0.recent[0]),
        ok && c.recent.len() == c.recent_capacity && c.heavy_capacity == 0 ==> n.heavy.len() == 0,
        ok && c.recent.len() == c.recent_capacity && c.heavy.len() == c.heavy_capacity
            && c.heavy_capacity > 0 ==> {
            let (h, old) = (found.0.heavy, found.0.recent[0]);
            &&& 0 <= found.2 < h.len()
            &&& h.len() >= 2 ==> forall|j: int|
                0 <= j < h.len() ==> !is_nan(#[trigger] h[j].score)
            &&& h.len() >= 2 ==> forall|j: int|
                0 <= j < h.len() ==> !exceeds(h[found.2].score, #[trigger] h[j].score)
            &&& h.len() >= 2 ==> forall|j: int|
                0 <= j < found.2 ==> exceeds(#[trigger] h[j].score, h[found.2].score)
            &&& n.heavy == if exceeds(old.score, h[found.2].score) {
                h.update(found.2, old)
            } else {
                h
            }
        },
{
    let e = Entry { k, v, score: 0 };
    let (m, u): (CacheView, bool) = choose|m: CacheView, u: bool| #[trigger]
        update_result(c, query, m, u) && if ready(m) {
            ok && n == admitted(m, e)
        } else {
            !ok && n == m
        };
    recording_attention_keeps_the_entries(c, query, m, u);
    let scores = scores_of(m.heavy);
    assert forall|j: int| 0 <= j < m.heavy.len() implies scores[j] == #[trigger]
        m.heavy[j].score by {}
    if !ok {
        let i = choose|i: int| 0 <= i < scores.len() && is_nan(#[trigger] scores[i]);
        assert(m.heavy[i].score == scores[i]);
        (m, u, i)
    } else {
        if m.heavy.len() > 0 {
            a_least_score_exists(scores);
        }
        assert(m.recent.len() > 0 ==> m.recent.drop_first() =~= m.recent.skip(1));
        (m, u, least(scores))
    }
}

/// The frequency of a pair of features: one over the base raised to the power of the
/// number of its first feature divided by the head size. The quotient and the power are
/// taken in double precision, the reciprocal in single precision.
pub proof fn a_frequency_is_a_power_of_the_base(
    theta: u64,
    i: int,
    dim: int,
    out: Option<u32>,
) -> (found: (u64, u64, u64, u64, u64, u64))
    requires
        frequency_result(theta, i, dim, out),
    ensures
        cast_outcome(DType::I64, DType::F64, i as u64, found.0),
        cast_outcome(DType::I64, DType::F64, dim as u64, found.1),
        div_outcome(DType::F64, found.0, found.1, found.2),
        power_outcome(DType::F64, theta, found.2, found.3),
        cast_outcome(DType::F64, DType::F32, found.3, found.4),
        recip_outcome(DType::F32, found.4, found.5),
        out == Some(found.5 as u32),
{
    let n = choose|n: Array| #[trigger]
        number_result(i, Some(n)) && exists|d: Option<Array>| #[trigger]
            number_result(dim, d) && match d {
                None => out is None,
                Some(d) => exists|e: Option<Array>| #[trigger]
                    div_result(n, d, e) && match e {
                        None => out is None,
                        Some(e) => inverse_power_result(theta, e.elems[0], out),
                    },
            };
    let d = choose|d: Array| #[trigger]
        number_result(dim, Some(d)) && exists|e: Option<Array>| #[trigger]
            div_result(n, d, e) && match e {
                None => out is None,
                Some(e) => inverse_power_result(theta, e.elems[0], out),
            };
    let e = choose|e: Array| #[trigger]
        div_result(n, d, Some(e)) && inverse_power_result(theta, e.elems[0], out);
    let base = scalar(DType::F64, theta);
    let w = choose|w: Array| #[trigger]
        power_result(base, e.elems[0], Some(w)) && exists|g: Option<Array>| #[trigger]
            cast_result(w, DType::F32, g) && match g {
                None => out is None,
                Some(g) => exists|f: Option<Array>| #[trigger]
                    recip_result(g, f) && out == match f {
                        None => None,
                        Some(f) => Some(f.elems[0] as u32),
                    },
            };
    let g = choose|g: Array| #[trigger]
        cast_result(w, DType::F32, Some(g)) && exists|f: Option<Array>| #[trigger]
            recip_result(g, f) && out == match f {
                None => None,
                Some(f) => Some(f.elems[0] as u32),
            };
    let f = choose|f: Array| #[trigger]
        recip_result(g, Some(f)) && out == Some(f.elems[0] as u32);
    assert(cast_outcome(DType::I64, DType::F64, i as u64, n.elems[0]));
    assert(cast_outcome(DType::I64, DType::F64, dim as u64, d.elems[0]));
    assert(div_outcome(DType::F64, n.elems[0], d.elems[0], e.elems[0]));
    assert(base.elems[0] == theta);
    assert(power_outcome(DType::F64, theta, e.elems[0], w.elems[0]));
    assert(cast_outcome(DType::F64, DType::F32, w.elems[0], g.elems[0]));
    assert(recip_outcome(DType::F32, g.elems[0], f.elems[0]));
    (n.elems[0], d.elems[0], e.elems[0], w.elems[0], g.elems[0], f.elems[0])
}

/// Whether `f` is the single-precision frequency of pair `j` of heads of `dim` features.
pub open spec fn frequency_of(theta: u64, j: int, dim: int, f: u32) -> bool {
    exists|n: u64, d: u64, e: u64, w: u64, g: u64, r: u64|
        {
            &&& #[trigger] cast_outcome(DType::I64, DType::F64, (2 * j) as u64, n)
            &&& #[trigger] cast_outcome(DType::I64, DType::F64, dim as u64, d)
            &&& #[trigger] div_outcome(DType::F64, n, d, e)
            &&& #[trigger] power_outcome(DType::F64, theta, e, w)
            &&& #[trigger] cast_outcome(DType::F64, DType::F32, w, g)
            &&& #[trigger] recip_outcome(DType::F32, g, r)
            &&& f == r as u32
        }
}

/// The angle of a position and a pair of features is the product of the position and the
/// frequency, both in the element type of the model; there are its sine and its cosine. The
/// head size in the exponent is that of the heads, whatever it is.
pub proof fn an_angle_is_a_position_times_a_frequency(
    dtype: DType,
    theta: u64,
    dim: usize,
    positions: usize,
    r: RotaryView,
    p: int,
    j: int,
) -> (found: (u32, u64, u64, u64))
    requires
        rotary_result(dtype, theta, dim as int, positions, Some(r)),
        0 <= p < positions,
        0 <= j < (dim + 1) / 2,
    ensures
        r.sin.dtype == dtype && r.cos.dtype == dtype,
        r.sin.dims == seq![positions, ((dim + 1) / 2) as usize],
        r.cos.dims == r.sin.dims,
        frequency_of(theta, j, dim as int, found.0),
        if dtype == DType::F32 {
            found.1 == found.0
        } else {
            cast_outcome(DType::F32, dtype, found.0 as u64, found.1)
        },
        cast_outcome(DType::U32, dtype, p as u64, found.2),
        matmul_outcome(dtype, seq![found.2], seq![found.1], found.3),
        sin_outcome(dtype, found.3, at(r.sin, seq![p, j])),
        cos_outcome(dtype, found.3, at(r.cos, seq![p, j])),
{
    let half = ((dim + 1) / 2) as usize;
    let fs = choose|fs: Seq<u32>| #[trigger]
        frequencies_result(theta, dim as int, Some(fs)) && exists|a: Option<Array>| #[trigger]
            angles_result(dtype, fs, positions, a) && match a {
                None => false,
                Some(a) => exists|s: Option<Array>| #[trigger]
                    sin_result(a, s) && match s {
                        None => false,
                        Some(s) => exists|c: Option<Array>| #[trigger]
                            cos_result(a, c) && match c {
                                None => false,
                                Some(c) => r == (RotaryView { sin: s, cos: c }),
                            },
                    },
            };
    let a = choose|a: Array| #[trigger]
        angles_result(dtype, fs, positions, Some(a)) && sin_result(a, Some(r.sin)) && cos_result(
            a,
            Some(r.cos),
        );
    let f = choose|f: Array| #[trigger]
        cast_result(row_of(fs), dtype, Some(f)) && exists|t: Option<Array>| #[trigger]
            cast_result(arange(positions as u32), dtype, t) && match t {
                None => false,
                Some(t) => exists|c: Option<Array>| #[trigger]
                    reshape_result(t, dims_2(positions, 1), c) && match c {
                        None => false,
                        Some(c) => matmul_result(c, f, Some(a)),
                    },
            };
    let t = choose|t: Array| #[trigger]
        cast_result(arange(positions as u32), dtype, Some(t)) && exists|c: Option<Array>|
            #[trigger]
            reshape_result(t, dims_2(positions, 1), c) && match c {
                None => false,
                Some(c) => matmul_result(c, f, Some(a)),
            };
    let c = choose|c: Array| #[trigger]
        reshape_result(t, dims_2(positions, 1), Some(c)) && matmul_result(c, f, Some(a));
    lemma_counts_of_column(positions);
    lemma_counts_of_column(t.dims[0]);
    assert(t.dims =~= seq![t.dims[0]]);
    assert(positions as u32 == positions);
    assert(a.dims =~= seq![positions, half]);
    assert(c.dims.take(0) =~= Seq::<usize>::empty());
    assert(batch(c.dims) == 1) by {
        reveal_with_fuel(count, 1);
    }
    assert(summed(c, f, a, 0, p, j));
    assert((0 * positions + p) * 1 + 0 == p);
    let (row, column) = (row_of_matrix(c, 0, p), column_of_matrix(f, 0, j));
    assert(row =~= seq![c.elems[p]]) by {
        assert((0 * positions + p) * 1 + 0 == p);
    }
    assert(column =~= seq![f.elems[j]]) by {
        assert((0 * 1 + 0) * half + j == j) by (nonlinear_arith);
    }
    let place = (0 * positions + p) * half + j;
    assert(0 * positions == 0);
    lemma_count_2(positions, half);
    assert(0 <= p * half + j < positions * half) by (nonlinear_arith)
        requires
            0 <= p < positions,
            0 <= j < half,
    ;
    assert(a.dims =~= dims_2(positions, half));
    assert(at(r.sin, seq![p, j]) == r.sin.elems[place] && at(r.cos, seq![p, j])
        == r.cos.elems[place]) by {
        lemma_position_2(a.dims, seq![p, j]);
    }
    assert(sin_outcome(dtype, a.elems[place], r.sin.elems[place]));
    assert(cos_outcome(dtype, a.elems[place], r.cos.elems[place]));
    let single = fs[j];
    assert(frequency_result(theta, 2 * j, dim as int, Some(single)));
    let _ = a_frequency_is_a_power_of_the_base(theta, 2 * j, dim as int, Some(single));
    assert(row_of(fs).elems[j] == single as u64);
    assert(arange(positions as u32).elems[p] == p as u64);
    lemma_count_positive(a.dims);
    assert(t.elems[p] == c.elems[p]);
    (single, f.elems[j], c.elems[p], a.elems[place])
}

} // verus!
