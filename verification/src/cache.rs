//! A bounded cache of keys and values: the most recent entries, and the heavy
//! hitters among the older ones.
//!
//! New entries join the recent window. Once it is full each new entry pushes the
//! oldest one out, which becomes a heavy hitter if there is room or if it has
//! drawn more attention than the least of them.

use crate::array::{Array, cat_result, floating, scalar, transpose_result};
use crate::error::ModelError;
use crate::laws::a_complete_recording_needs_as_many_heads;
use crate::number::{
    exceeds, greater, inverse_root, inverse_root_result, is_nan, not_a_number, number,
    number_result, rank,
};
use crate::retention::contents;
use crate::success::{attention_between_what_agrees_is_recorded, recording_owed};
use crate::tensor::{
    add_result, array, arrays, cast_result, cat, div_result, double, dtype, is_floating, matmul,
    matmul_result, mul_result, outcome, over, pair_outcome, plus, scalar_bits, scale, scale_result,
    softmax, softmax_result, sum_all, sum_result, tensor_dims, times, to_dtype, transpose,
};
use candle_core::{DType, Tensor};
use std::collections::VecDeque;
use vstd::prelude::*;

verus! {

/// The bits of the factor by which a heavy hitter's score fades at each step.
pub const DECAY: u64 = 0x3FEF_AE14_7AE1_47AE;

/// A cached key and value with the attention that the key has drawn.
pub struct Entry {
    pub k: Array,
    pub v: Array,
    pub score: u64,
}

/// What a cache holds.
pub struct CacheView {
    pub heavy: Seq<Entry>,
    pub recent: Seq<Entry>,
    pub heavy_capacity: nat,
    pub recent_capacity: nat,
    pub num_heads: nat,
    pub head_dim: nat,
}

/// The entries that three parallel queues hold.
pub open spec fn entries(ks: Seq<Tensor>, vs: Seq<Tensor>, scores: Seq<u64>) -> Seq<Entry> {
    Seq::new(ks.len(), |i: int| Entry { k: array(ks[i]), v: array(vs[i]), score: scores[i] })
}

/// The scores of entries.
pub open spec fn scores_of(es: Seq<Entry>) -> Seq<u64> {
    es.map_values(|e: Entry| e.score)
}

/// The keys of entries.
pub open spec fn keys_of(es: Seq<Entry>) -> Seq<Array> {
    es.map_values(|e: Entry| e.k)
}

/// The values of entries.
pub open spec fn values_of(es: Seq<Entry>) -> Seq<Array> {
    es.map_values(|e: Entry| e.v)
}

/// The same entries with other scores.
pub open spec fn with_scores(es: Seq<Entry>, scores: Seq<u64>) -> Seq<Entry> {
    Seq::new(es.len(), |i: int| Entry { score: scores[i], ..es[i] })
}

/// The share of attention that `query` gives a key, averaged over the heads:
/// scaled products, a softmax over the heads, and the sum of the result. Only
/// single-precision attention is accepted.
pub open spec fn share_result(
    query: Array,
    key: Array,
    factor: u64,
    heads: u64,
    out: Option<Array>,
) -> bool {
    if !floating(query.dtype) {
        out is None
    } else {
        exists|t: Option<Array>| #[trigger]
            transpose_result(key, 2, 3, t) && match t {
                None => out is None,
                Some(t) => exists|w: Option<Array>| #[trigger]
                    matmul_result(query, t, w) && match w {
                        None => out is None,
                        Some(w) => exists|s: Option<Array>| #[trigger]
                            scale_result(w, factor, s) && match s {
                                None => out is None,
                                Some(s) => exists|p: Option<Array>| #[trigger]
                                    softmax_result(s, 1, p) && match p {
                                        None => out is None,
                                        Some(p) => averaged_result(p, heads, out),
                                    },
                            },
                    },
            }
    }
}

/// The sum of single-precision elements divided by a number of heads, in double
/// precision.
pub open spec fn averaged_result(p: Array, heads: u64, out: Option<Array>) -> bool {
    exists|total: Option<Array>| #[trigger]
        sum_result(p, total) && match total {
            None => out is None,
            Some(total) => if total.dtype != DType::F32 {
                out is None
            } else {
                exists|d: Option<Array>| #[trigger]
                    cast_result(total, DType::F64, d) && match d {
                        None => out is None,
                        Some(d) => div_result(d, scalar(DType::F64, heads), out),
                    }
            },
        }
}

/// The share of attention that `query` gives `key`.
fn share(query: &Tensor, key: &Tensor, factor: &Tensor, heads: &Tensor) -> (r: Result<
    Tensor,
    ModelError,
>)
    requires
        array(*factor) == scalar(DType::F64, array(*factor).elems[0]),
        array(*heads) == scalar(DType::F64, array(*heads).elems[0]),
    ensures
        share_result(
            array(*query),
            array(*key),
            array(*factor).elems[0],
            array(*heads).elems[0],
            outcome(r),
        ),
        r matches Ok(t) ==> array(t) == scalar(DType::F64, array(t).elems[0]),
{
    if !is_floating(query) {
        return Err(ModelError::ElementType);
    }
    let t = transpose(key, 2, 3)?;
    let w = matmul(query, &t)?;
    let s = scale(&w, factor)?;
    let p = softmax(&s, 1)?;
    let total = sum_all(&p)?;
    match dtype(&total) {
        DType::F32 => {},
        _ => {
            return Err(ModelError::ElementType);
        },
    }
    let d = to_dtype(&total, DType::F64)?;
    let a = over(&d, heads)?;
    assert(array(d).elems =~= seq![array(d).elems[0]]);
    assert(array(a).elems =~= seq![array(a).elems[0]]);
    Ok(a)
}

/// A score after one more step: faded if it decays, and raised by the share.
pub open spec fn score_result(
    decays: bool,
    query: Array,
    key: Array,
    factor: u64,
    heads: u64,
    score: u64,
    out: Option<u64>,
) -> bool {
    exists|a: Option<Array>| #[trigger]
        share_result(query, key, factor, heads, a) && match a {
            None => out is None,
            Some(a) => if decays {
                exists|m: Option<Array>| #[trigger]
                    mul_result(scalar(DType::F64, score), scalar(DType::F64, DECAY), m)
                        && match m {
                        None => out is None,
                        Some(m) => raised_result(m, a, out),
                    }
            } else {
                raised_result(scalar(DType::F64, score), a, out)
            },
        }
}

/// The bits of the sum of two scalars.
pub open spec fn raised_result(base: Array, a: Array, out: Option<u64>) -> bool {
    exists|n: Option<Array>| #[trigger]
        add_result(base, a, n) && out == match n {
            None => None,
            Some(n) => Some(n.elems[0]),
        }
}

/// The scalar result of an operation, `None` where it failed.
pub open spec fn value_of(r: Result<u64, ModelError>) -> Option<u64> {
    match r {
        Ok(x) => Some(x),
        Err(_) => None,
    }
}

/// A score after one more step.
fn rescore(
    decays: bool,
    query: &Tensor,
    key: &Tensor,
    factor: &Tensor,
    heads: &Tensor,
    score: u64,
) -> (r: Result<u64, ModelError>)
    requires
        array(*factor) == scalar(DType::F64, array(*factor).elems[0]),
        array(*heads) == scalar(DType::F64, array(*heads).elems[0]),
    ensures
        score_result(
            decays,
            array(*query),
            array(*key),
            array(*factor).elems[0],
            array(*heads).elems[0],
            score,
            value_of(r),
        ),
{
    let a = share(query, key, factor, heads)?;
    let held = double(score)?;
    let base = if decays {
        let fade = double(DECAY)?;
        times(&held, &fade)?
    } else {
        held
    };
    let n = plus(&base, &a)?;
    let bits = scalar_bits(&n)?;
    Ok(bits)
}

/// One pass over a queue of scores: the first `done` have taken one more step, the
/// rest are as they were, and where some are left the next one failed.
pub open spec fn refreshed(
    decays: bool,
    query: Array,
    factor: u64,
    heads: u64,
    keys: Seq<Array>,
    old_scores: Seq<u64>,
    new_scores: Seq<u64>,
    done: int,
) -> bool {
    &&& 0 <= done <= keys.len()
    &&& old_scores.len() == keys.len()
    &&& new_scores.len() == keys.len()
    &&& forall|i: int|
        0 <= i < done ==> score_result(
            decays,
            query,
            keys[i],
            factor,
            heads,
            old_scores[i],
            Some(#[trigger] new_scores[i]),
        )
    &&& forall|i: int| done <= i < keys.len() ==> #[trigger] new_scores[i] == old_scores[i]
    &&& done < keys.len() ==> score_result(
        decays,
        query,
        keys[done],
        factor,
        heads,
        old_scores[done],
        None,
    )
}

/// Puts `x` in place of element `i` of a queue.
fn put<T>(queue: &mut VecDeque<T>, i: usize, x: T)
    requires
        i < old(queue)@.len(),
    ensures
        final(queue)@ == old(queue)@.update(i as int, x),
{
    let _ = queue.remove(i);
    queue.insert(i, x);
    assert(queue@ =~= old(queue)@.update(i as int, x));
}

/// Takes the scores of a queue of keys one step further, stopping at the first
/// that fails.
fn refresh(
    decays: bool,
    query: &Tensor,
    keys: &VecDeque<Tensor>,
    scores: &mut VecDeque<u64>,
    factor: &Tensor,
    heads: &Tensor,
) -> (r: Result<(), ModelError>)
    requires
        array(*factor) == scalar(DType::F64, array(*factor).elems[0]),
        array(*heads) == scalar(DType::F64, array(*heads).elems[0]),
        keys@.len() == old(scores)@.len(),
    ensures
        exists|done: int| #[trigger]
            refreshed(
                decays,
                array(*query),
                array(*factor).elems[0],
                array(*heads).elems[0],
                arrays(keys@),
                old(scores)@,
                final(scores)@,
                done,
            ) && (r is Ok <==> done == keys@.len()),
{
    let ghost before = scores@;
    let mut i: usize = 0;
    while i < keys.len()
        invariant
            i <= keys@.len(),
            before == old(scores)@,
            keys@.len() == before.len(),
            scores@.len() == before.len(),
            array(*factor) == scalar(DType::F64, array(*factor).elems[0]),
            array(*heads) == scalar(DType::F64, array(*heads).elems[0]),
            forall|j: int|
                0 <= j < i ==> score_result(
                    decays,
                    array(*query),
                    arrays(keys@)[j],
                    array(*factor).elems[0],
                    array(*heads).elems[0],
                    before[j],
                    Some(#[trigger] scores@[j]),
                ),
            forall|j: int| i <= j < keys@.len() ==> #[trigger] scores@[j] == before[j],
        decreases keys@.len() - i,
    {
        let score = scores[i];
        match rescore(decays, query, &keys[i], factor, heads, score) {
            Ok(raised) => {
                put(scores, i, raised);
            },
            Err(e) => {
                assert(refreshed(
                    decays,
                    array(*query),
                    array(*factor).elems[0],
                    array(*heads).elems[0],
                    arrays(keys@),
                    before,
                    scores@,
                    i as int,
                ));
                return Err(e);
            },
        }
        i += 1;
    }
    assert(refreshed(
        decays,
        array(*query),
        array(*factor).elems[0],
        array(*heads).elems[0],
        arrays(keys@),
        before,
        scores@,
        i as int,
    ));
    Ok(())
}

/// All scores of a cache taken one step further: those of the heavy hitters fade
/// first. `ok` tells whether every step succeeded; the pass over the recent
/// entries is only made where the one over the heavy hitters was completed.
pub open spec fn rescored(
    c: CacheView,
    query: Array,
    factor: u64,
    heads: u64,
    n: CacheView,
    ok: bool,
) -> bool {
    &&& n == (CacheView {
        heavy: with_scores(c.heavy, scores_of(n.heavy)),
        recent: with_scores(c.recent, scores_of(n.recent)),
        ..c
    })
    &&& exists|i: int| #[trigger]
        refreshed(
            true,
            query,
            factor,
            heads,
            keys_of(c.heavy),
            scores_of(c.heavy),
            scores_of(n.heavy),
            i,
        ) && if i == c.heavy.len() {
            exists|j: int| #[trigger]
                refreshed(
                    false,
                    query,
                    factor,
                    heads,
                    keys_of(c.recent),
                    scores_of(c.recent),
                    scores_of(n.recent),
                    j,
                ) && ok == (j == c.recent.len())
        } else {
            n.recent == c.recent && !ok
        }
}

/// What recording the attention of a new query does to a cache.
pub open spec fn update_result(c: CacheView, query: Array, n: CacheView, ok: bool) -> bool {
    exists|f: Option<Array>| #[trigger]
        inverse_root_result(c.head_dim as int, f) && match f {
            None => n == c && !ok,
            Some(f) => exists|h: Option<Array>| #[trigger]
                number_result(c.num_heads as int, h) && match h {
                    None => n == c && !ok,
                    Some(h) => rescored(c, query, f.elems[0], h.elems[0], n, ok),
                },
        }
}

/// Whether each key that has the batch of a query with these dimensions also has its
/// heads.
pub open spec fn heads_match(c: CacheView, query: Seq<usize>) -> bool {
    forall|p: int|
        0 <= p < contents(c).len() && (#[trigger] contents(c)[p]).k.dims[0] == query[0]
            ==> contents(c)[p].k.dims.len() == 4 && contents(c)[p].k.dims[1] == query[1]
}

/// Whether `i` is the first place of a smallest score.
pub open spec fn is_least(scores: Seq<u64>, i: int) -> bool {
    &&& 0 <= i < scores.len()
    &&& forall|j: int| 0 <= j < scores.len() ==> rank(scores[i]) <= rank(#[trigger] scores[j])
    &&& forall|j: int| 0 <= j < i ==> rank(scores[i]) < rank(#[trigger] scores[j])
}

/// The first place of a smallest score.
pub open spec fn least(scores: Seq<u64>) -> int {
    choose|i: int| is_least(scores, i)
}

/// Whether the scores can be compared with one another.
pub open spec fn comparable(scores: Seq<u64>) -> bool {
    scores.len() >= 2 ==> forall|i: int| 0 <= i < scores.len() ==> !is_nan(#[trigger] scores[i])
}

/// Whether a new entry can be taken in: where it would push out a heavy hitter,
/// the least of them can be told.
pub open spec fn ready(c: CacheView) -> bool {
    c.recent.len() >= c.recent_capacity && c.heavy.len() >= c.heavy_capacity ==> comparable(
        scores_of(c.heavy),
    )
}

/// The heavy hitters after `old` has left the recent window.
pub open spec fn demoted(c: CacheView, old: Entry) -> Seq<Entry> {
    if c.heavy.len() < c.heavy_capacity {
        c.heavy.push(old)
    } else {
        let i = least(scores_of(c.heavy));
        if c.heavy.len() > 0 && exceeds(old.score, c.heavy[i].score) {
            c.heavy.update(i, old)
        } else {
            c.heavy
        }
    }
}

/// The cache after a new entry has been taken in.
pub open spec fn admitted(c: CacheView, e: Entry) -> CacheView {
    if c.recent.len() < c.recent_capacity {
        CacheView { recent: c.recent.push(e), ..c }
    } else {
        CacheView {
            heavy: demoted(c, c.recent.first()),
            recent: c.recent.drop_first().push(e),
            ..c
        }
    }
}

/// What taking in a new key and value does to a cache: the attention of the query
/// is recorded as far as that succeeds, and the entry joins with score zero. `ok`
/// is false, and the entry left out, where the least heavy hitter cannot be told.
pub open spec fn insert_result(
    c: CacheView,
    query: Array,
    k: Array,
    v: Array,
    n: CacheView,
    ok: bool,
) -> bool {
    exists|m: CacheView, u: bool| #[trigger]
        update_result(c, query, m, u) && if ready(m) {
            ok && n == admitted(m, Entry { k, v, score: 0 })
        } else {
            !ok && n == m
        }
}

/// The keys and the values of a cache, each joined along the axis of positions:
/// first the heavy hitters, then the recent entries.
pub open spec fn gather_result(c: CacheView, out: Option<(Array, Array)>) -> bool {
    exists|k: Option<Array>| #[trigger]
        cat_result(keys_of(c.heavy + c.recent), 2, k) && match k {
            None => out is None,
            Some(k) => exists|v: Option<Array>| #[trigger]
                cat_result(values_of(c.heavy + c.recent), 2, v) && out == match v {
                    None => None,
                    Some(v) => Some((k, v)),
                },
        }
}

/// A cache that holds nothing: of the capacity, one part in seven is for heavy
/// hitters and six are for recent entries.
pub open spec fn empty_cache(total_capacity: nat, num_heads: nat, head_dim: nat) -> CacheView {
    CacheView {
        heavy: Seq::empty(),
        recent: Seq::empty(),
        heavy_capacity: total_capacity / 7,
        recent_capacity: 6 * total_capacity / 7,
        num_heads,
        head_dim,
    }
}

/// A bounded cache of keys and values. Keys, values and scores stand in parallel
/// queues; a score is held as the bits of a double.
#[derive(Debug)]
pub struct H2OCache {
    pub hh_k: VecDeque<Tensor>,
    pub hh_v: VecDeque<Tensor>,
    pub recent_k: VecDeque<Tensor>,
    pub recent_v: VecDeque<Tensor>,
    pub hh_scores: VecDeque<u64>,
    pub recent_scores: VecDeque<u64>,
    pub hh_capacity: usize,
    pub recent_capacity: usize,
    pub num_heads: usize,
    pub head_dim: usize,
}

impl View for H2OCache {
    type V = CacheView;

    open spec fn view(&self) -> CacheView {
        CacheView {
            heavy: entries(self.hh_k@, self.hh_v@, self.hh_scores@),
            recent: entries(self.recent_k@, self.recent_v@, self.recent_scores@),
            heavy_capacity: self.hh_capacity as nat,
            recent_capacity: self.recent_capacity as nat,
            num_heads: self.num_heads as nat,
            head_dim: self.head_dim as nat,
        }
    }
}

impl CacheView {
    /// No queue holds more than its capacity, and there are heavy hitters only
    /// once the recent window has filled up.
    pub open spec fn bounded(self) -> bool {
        &&& self.heavy.len() <= self.heavy_capacity
        &&& self.recent.len() <= self.recent_capacity
        &&& self.heavy.len() > 0 ==> self.recent.len() == self.recent_capacity
    }
}

impl H2OCache {
    /// The queues are parallel and within bounds, and the sizes are numbers that
    /// a double can be made from.
    pub open spec fn wf(&self) -> bool {
        &&& self.hh_v@.len() == self.hh_k@.len()
        &&& self.hh_scores@.len() == self.hh_k@.len()
        &&& self.recent_v@.len() == self.recent_k@.len()
        &&& self.recent_scores@.len() == self.recent_k@.len()
        &&& self@.bounded()
        &&& self.num_heads <= i64::MAX
        &&& self.head_dim <= i64::MAX
    }

    /// An empty cache.
    pub fn new(total_capacity: usize, num_heads: usize, head_dim: usize) -> (r: Self)
        requires
            6 * total_capacity <= usize::MAX,
            num_heads <= i64::MAX,
            head_dim <= i64::MAX,
        ensures
            r.wf(),
            r@ == empty_cache(total_capacity as nat, num_heads as nat, head_dim as nat),
            r@.heavy.len() == 0 && r@.recent.len() == 0,
            r.hh_capacity == total_capacity / 7 && r@.heavy_capacity == total_capacity / 7,
            r.recent_capacity == 6 * total_capacity / 7,
            r@.recent_capacity == 6 * total_capacity / 7,
            r.num_heads == num_heads && r@.num_heads == num_heads,
            r.head_dim == head_dim && r@.head_dim == head_dim,
    {
        let hh_capacity = total_capacity / 7;
        let recent_capacity = 6 * total_capacity / 7;
        let r = H2OCache {
            hh_k: VecDeque::with_capacity(hh_capacity),
            hh_v: VecDeque::with_capacity(hh_capacity),
            recent_k: VecDeque::with_capacity(recent_capacity),
            recent_v: VecDeque::with_capacity(recent_capacity),
            hh_scores: VecDeque::with_capacity(hh_capacity),
            recent_scores: VecDeque::with_capacity(recent_capacity),
            hh_capacity,
            recent_capacity,
            num_heads,
            head_dim,
        };
        assert(r@.heavy =~= Seq::<Entry>::empty());
        assert(r@.recent =~= Seq::<Entry>::empty());
        r
    }

    /// Records the attention that a new query gives each cached key. It succeeds where
    /// the query agrees with all of them.
    pub fn update_attention_for_new_kv(&mut self, query: &Tensor) -> (r: Result<(), ModelError>)
        requires
            old(self).wf(),
        ensures
            final(self).wf(),
            update_result(old(self)@, array(*query), final(self)@, r is Ok),
            r is Ok && tensor_dims(*query).len() == 4 && tensor_dims(*query)[0] > 0 && tensor_dims(
                *query,
            )[3] > 0 ==> heads_match(old(self)@, tensor_dims(*query)),
            recording_owed(old(self)@, array(*query)) ==> r is Ok,
    {
        let ghost c = self@;
        let r = self.record(query);
        proof {
            if recording_owed(c, array(*query)) {
                attention_between_what_agrees_is_recorded(c, array(*query), self@, r is Ok);
            }
        }
        r
    }

    /// Records the attention that a new query gives each cached key.
    fn record(&mut self, query: &Tensor) -> (r: Result<(), ModelError>)
        requires
            old(self).wf(),
        ensures
            final(self).wf(),
            update_result(old(self)@, array(*query), final(self)@, r is Ok),
            r is Ok && tensor_dims(*query).len() == 4 && tensor_dims(*query)[0] > 0 && tensor_dims(
                *query,
            )[3] > 0 ==> heads_match(old(self)@, tensor_dims(*query)),
    {
        let ghost c = self@;
        let factor = inverse_root(self.head_dim)?;
        let heads = number(self.num_heads)?;
        let ghost f = array(factor).elems[0];
        let ghost h = array(heads).elems[0];
        proof {
            assert(arrays(self.hh_k@) =~= keys_of(c.heavy));
            assert(self.hh_scores@ =~= scores_of(c.heavy));
            assert(arrays(self.recent_k@) =~= keys_of(c.recent));
            assert(self.recent_scores@ =~= scores_of(c.recent));
        }
        let first = refresh(true, query, &self.hh_k, &mut self.hh_scores, &factor, &heads);
        proof {
            assert(self.hh_scores@ =~= scores_of(self@.heavy));
            assert(self@.heavy =~= with_scores(c.heavy, self.hh_scores@));
            assert(self@.recent =~= c.recent);
            assert(c.recent =~= with_scores(c.recent, scores_of(c.recent)));
        }
        if let Err(e) = first {
            assert(rescored(c, array(*query), f, h, self@, false));
            return Err(e);
        }
        let second = refresh(
            false,
            query,
            &self.recent_k,
            &mut self.recent_scores,
            &factor,
            &heads,
        );
        proof {
            assert(self.recent_scores@ =~= scores_of(self@.recent));
            assert(self@.recent =~= with_scores(c.recent, self.recent_scores@));
            assert(self.hh_scores@ =~= scores_of(self@.heavy));
            assert(self@.heavy =~= with_scores(c.heavy, self.hh_scores@));
            assert(rescored(c, array(*query), f, h, self@, second is Ok));
            let d = tensor_dims(*query);
            if second is Ok && d.len() == 4 && d[0] > 0 && d[3] > 0 {
                assert forall|p: int|
                    0 <= p < contents(c).len() && (#[trigger] contents(c)[p]).k.dims[0]
                        == d[0] implies contents(c)[p].k.dims.len() == 4 && contents(c)[p].k.dims[1]
                    == d[1] by {
                    a_complete_recording_needs_as_many_heads(c, array(*query), self@, p);
                }
            }
        }
        second
    }

    /// Whether the scores of the heavy hitters can be compared with one another.
    fn has_comparable_scores(&self) -> (r: bool)
        ensures
            r == comparable(self.hh_scores@),
    {
        if self.hh_scores.len() < 2 {
            return true;
        }
        let mut i: usize = 0;
        while i < self.hh_scores.len()
            invariant
                i <= self.hh_scores@.len(),
                self.hh_scores@.len() >= 2,
                forall|j: int| 0 <= j < i ==> !is_nan(#[trigger] self.hh_scores@[j]),
            decreases self.hh_scores@.len() - i,
        {
            if not_a_number(self.hh_scores[i]) {
                return false;
            }
            i += 1;
        }
        true
    }

    /// The first place of a smallest score among the heavy hitters, `None` where
    /// there are none.
    pub fn find_min_score_index(&self) -> (r: Option<usize>)
        requires
            comparable(self.hh_scores@),
        ensures
            match r {
                Some(i) => is_least(self.hh_scores@, i as int) && i == least(self.hh_scores@),
                None => self.hh_scores@.len() == 0,
            },
            r matches Some(i) ==> forall|j: int|
                0 <= j < self.hh_scores@.len() ==> !exceeds(
                    self.hh_scores@[i as int],
                    #[trigger] self.hh_scores@[j],
                ),
            r matches Some(i) ==> forall|j: int|
                0 <= j < i ==> exceeds(
                    #[trigger] self.hh_scores@[j],
                    self.hh_scores@[i as int],
                ),
    {
        if self.hh_scores.len() == 0 {
            return None;
        }
        let mut best: usize = 0;
        let mut i: usize = 1;
        while i < self.hh_scores.len()
            invariant
                1 <= i <= self.hh_scores@.len(),
                best < i,
                comparable(self.hh_scores@),
                is_least(self.hh_scores@.take(i as int), best as int),
            decreases self.hh_scores@.len() - i,
        {
            let ghost next = self.hh_scores@.take(i + 1);
            assert(forall|j: int|
                0 <= j < i ==> next[j] == #[trigger] self.hh_scores@.take(i as int)[j]);
            assert(!is_nan(self.hh_scores@[best as int]) && !is_nan(self.hh_scores@[i as int]));
            if greater(self.hh_scores[best], self.hh_scores[i]) {
                best = i;
            }
            i += 1;
        }
        assert(self.hh_scores@.take(i as int) =~= self.hh_scores@);
        proof {
            lemma_least_is_unique(self.hh_scores@, best as int);
        }
        Some(best)
    }

    /// Takes in a new entry.
    pub fn take_in(&mut self, k: Tensor, v: Tensor)
        requires
            old(self).wf(),
            old(self).recent_capacity > 0,
            ready(old(self)@),
        ensures
            final(self).wf(),
            final(self)@ == admitted(old(self)@, Entry { k: array(k), v: array(v), score: 0 }),
    {
        let ghost c = self@;
        let ghost e = Entry { k: array(k), v: array(v), score: 0 };
        if self.recent_k.len() < self.recent_capacity {
            self.recent_k.push_back(k);
            self.recent_v.push_back(v);
            self.recent_scores.push_back(0);
            assert(self@.recent =~= c.recent.push(e));
            assert(self@.heavy =~= c.heavy);
            return;
        }
        if let (Some(old_k), Some(old_v), Some(old_score)) = (
            self.recent_k.pop_front(),
            self.recent_v.pop_front(),
            self.recent_scores.pop_front(),
        ) {
            let ghost oldest = Entry { k: array(old_k), v: array(old_v), score: old_score };
            self.recent_k.push_back(k);
            self.recent_v.push_back(v);
            self.recent_scores.push_back(0);
            assert(oldest == c.recent.first());
            assert(self@.recent =~= c.recent.drop_first().push(e));
            assert(self@.heavy =~= c.heavy);
            assert(self.hh_scores@ =~= scores_of(c.heavy));
            if self.hh_k.len() < self.hh_capacity {
                self.hh_k.push_back(old_k);
                self.hh_v.push_back(old_v);
                self.hh_scores.push_back(old_score);
                assert(self@.heavy =~= c.heavy.push(oldest));
            } else if let Some(i) = self.find_min_score_index() {
                if greater(old_score, self.hh_scores[i]) {
                    put(&mut self.hh_k, i, old_k);
                    put(&mut self.hh_v, i, old_v);
                    put(&mut self.hh_scores, i, old_score);
                    assert(self@.heavy =~= c.heavy.update(i as int, oldest));
                }
            }
        }
    }

    /// Records the attention of a new query, then takes in the key and the value
    /// that came with it. That the attention could not be recorded in full is no
    /// failure.
    pub fn insert(&mut self, query: &Tensor, k: Tensor, v: Tensor) -> (r: Result<(), ModelError>)
        requires
            old(self).wf(),
            old(self).recent_capacity > 0,
        ensures
            final(self).wf(),
            insert_result(old(self)@, array(*query), array(k), array(v), final(self)@, r is Ok),
            r matches Err(e) ==> e is UnorderedScores,
    {
        let ghost c = self@;
        let updated = self.update_attention_for_new_kv(query);
        let ghost m = self@;
        assert(update_result(c, array(*query), m, updated is Ok));
        assert(self.hh_scores@ =~= scores_of(m.heavy));
        if self.recent_k.len() >= self.recent_capacity && self.hh_k.len() >= self.hh_capacity
            && !self.has_comparable_scores() {
            return Err(ModelError::UnorderedScores);
        }
        self.take_in(k, v);
        Ok(())
    }

    /// The keys and the values of all entries, each joined along the axis of
    /// positions: first the heavy hitters, then the recent entries.
    pub fn get_all_kv(&self) -> (r: Result<(Tensor, Tensor), ModelError>)
        requires
            self.wf(),
        ensures
            gather_result(self@, pair_outcome(r)),
    {
        let all_k = chained(&self.hh_k, &self.recent_k);
        let all_v = chained(&self.hh_v, &self.recent_v);
        assert(arrays(all_k@) =~= keys_of(self@.heavy + self@.recent));
        assert(arrays(all_v@) =~= values_of(self@.heavy + self@.recent));
        let k = cat(&all_k, 2)?;
        let v = cat(&all_v, 2)?;
        Ok((k, v))
    }
}

/// A score that is smallest is the one that `least` names.
proof fn lemma_least_is_unique(scores: Seq<u64>, i: int)
    requires
        is_least(scores, i),
    ensures
        least(scores) == i,
{
    let j = least(scores);
    assert(is_least(scores, j));
    assert(rank(scores[i]) <= rank(scores[j]) && rank(scores[j]) <= rank(scores[i]));
}

/// A queue with the same tensors.
fn copied(queue: &VecDeque<Tensor>) -> (r: VecDeque<Tensor>)
    ensures
        r@ == queue@,
{
    let mut out: VecDeque<Tensor> = VecDeque::with_capacity(queue.len());
    let mut i: usize = 0;
    while i < queue.len()
        invariant
            i <= queue@.len(),
            out@ == queue@.take(i as int),
        decreases queue@.len() - i,
    {
        out.push_back(queue[i].clone());
        i += 1;
    }
    assert(queue@.take(i as int) =~= queue@);
    out
}

/// A queue with the same scores.
fn copied_scores(queue: &VecDeque<u64>) -> (r: VecDeque<u64>)
    ensures
        r@ == queue@,
{
    let mut out: VecDeque<u64> = VecDeque::with_capacity(queue.len());
    let mut i: usize = 0;
    while i < queue.len()
        invariant
            i <= queue@.len(),
            out@ == queue@.take(i as int),
        decreases queue@.len() - i,
    {
        out.push_back(queue[i]);
        i += 1;
    }
    assert(queue@.take(i as int) =~= queue@);
    out
}

impl Clone for H2OCache {
    fn clone(&self) -> (r: Self)
        ensures
            r@ == self@,
            self.wf() ==> r.wf(),
            r.recent_capacity == self.recent_capacity,
    {
        H2OCache {
            hh_k: copied(&self.hh_k),
            hh_v: copied(&self.hh_v),
            recent_k: copied(&self.recent_k),
            recent_v: copied(&self.recent_v),
            hh_scores: copied_scores(&self.hh_scores),
            recent_scores: copied_scores(&self.recent_scores),
            hh_capacity: self.hh_capacity,
            recent_capacity: self.recent_capacity,
            num_heads: self.num_heads,
            head_dim: self.head_dim,
        }
    }
}

/// The tensors of one queue followed by those of another.
fn chained(first: &VecDeque<Tensor>, second: &VecDeque<Tensor>) -> (r: Vec<Tensor>)
    ensures
        r@ == first@ + second@,
{
    let mut all: Vec<Tensor> = Vec::new();
    let mut i: usize = 0;
    while i < first.len()
        invariant
            i <= first@.len(),
            all@ == first@.take(i as int),
        decreases first@.len() - i,
    {
        all.push(first[i].clone());
        i += 1;
    }
    assert(all@ == first@);
    let mut j: usize = 0;
    while j < second.len()
        invariant
            j <= second@.len(),
            all@ == first@ + second@.take(j as int),
        decreases second@.len() - j,
    {
        all.push(second[j].clone());
        j += 1;
    }
    assert(second@.take(j as int) =~= second@);
    all
}

} // verus!
