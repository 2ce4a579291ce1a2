//! Attention over a bounded cache of keys and values.

use crate::array::{
    Array, cat_result, contiguous_result, dims_3, dims_4, floating, reshape_result,
    transpose_result,
};
use crate::cache::{CacheView, H2OCache, empty_cache, gather_result, insert_result, ready};
use crate::config::Config;
use crate::error::ModelError;
use crate::nn::{Linear, LinearView, linear_result};
use crate::number::{inverse_root, inverse_root_result};
use crate::rotary::{RotaryEmbedding, RotaryView, rotate_result};
use crate::success::{
    a_layer_attends_to_what_agrees, attention_over_what_agrees_succeeds, attention_owed,
    cache_agrees, has_room, mask_fits, scores_owed,
};
use crate::tensor::{
    array, arrays, broadcast_add, broadcast_add_result, cat, contiguous, dims3, dims4, ends_empty,
    is_floating, matmul, matmul_result, optional_array, outcome, pair_outcome, reshape, scale,
    scale_result, softmax_last, softmax_last_result, tensor_dims, tensor_dtype, transpose,
};
use crate::weights::{Weights, WeightsView, view_of};
use crate::laws::attention_needs_heads_that_fit_together;
use candle_core::Tensor;
use vstd::prelude::*;

verus! {

/// An attention layer.
#[derive(Debug)]
pub struct Attention {
    pub q_proj: Linear,
    pub k_proj: Linear,
    pub v_proj: Linear,
    pub o_proj: Linear,
    pub num_heads: usize,
    pub num_kv_heads: usize,
    pub num_kv_groups: usize,
    pub head_dim: usize,
    pub hidden_size: usize,
    pub rotary_emb: RotaryEmbedding,
    pub kv_cache: Option<H2OCache>,
}

impl Clone for Attention {
    fn clone(&self) -> (r: Self)
        ensures
            r@ == self@,
            self.wf() ==> r.wf(),
    {
        Attention {
            q_proj: self.q_proj.clone(),
            k_proj: self.k_proj.clone(),
            v_proj: self.v_proj.clone(),
            o_proj: self.o_proj.clone(),
            num_heads: self.num_heads,
            num_kv_heads: self.num_kv_heads,
            num_kv_groups: self.num_kv_groups,
            head_dim: self.head_dim,
            hidden_size: self.hidden_size,
            rotary_emb: self.rotary_emb.clone(),
            kv_cache: match &self.kv_cache {
                Some(c) => Some(c.clone()),
                None => None,
            },
        }
    }
}

/// What an attention layer holds.
pub struct AttentionView {
    pub q: LinearView,
    pub k: LinearView,
    pub v: LinearView,
    pub o: LinearView,
    pub num_heads: usize,
    pub num_kv_heads: usize,
    pub num_kv_groups: usize,
    pub head_dim: usize,
    pub hidden_size: usize,
    pub rotary: RotaryView,
    pub cache: Option<CacheView>,
}

impl AttentionView {
    /// Whether the heads fit together: their size is even, the key heads, repeated,
    /// are as many as the query heads, and where the features were divided among the
    /// heads, none is left over.
    pub open spec fn fits(self) -> bool {
        &&& self.head_dim % 2 == 0
        &&& self.num_heads == self.num_kv_heads * self.num_kv_groups
        &&& self.head_dim == self.hidden_size / self.num_heads ==> self.hidden_size
            == self.num_heads * self.head_dim
    }
}

/// What an optional cache holds.
pub open spec fn cache_view(c: Option<H2OCache>) -> Option<CacheView> {
    match c {
        Some(c) => Some(c@),
        None => None,
    }
}

impl View for Attention {
    type V = AttentionView;

    open spec fn view(&self) -> AttentionView {
        AttentionView {
            q: self.q_proj@,
            k: self.k_proj@,
            v: self.v_proj@,
            o: self.o_proj@,
            num_heads: self.num_heads,
            num_kv_heads: self.num_kv_heads,
            num_kv_groups: self.num_kv_groups,
            head_dim: self.head_dim,
            hidden_size: self.hidden_size,
            rotary: self.rotary_emb@,
            cache: cache_view(self.kv_cache),
        }
    }
}

/// Whether a cache of this capacity has room for recent entries, and its parts can
/// be computed.
pub open spec fn usable(total_capacity: usize) -> bool {
    total_capacity >= 2 && 6 * total_capacity <= usize::MAX
}

/// Whether a cache of this capacity has room for recent entries, and its parts can
/// be computed.
pub fn is_usable(total_capacity: usize) -> (r: bool)
    ensures
        r == usable(total_capacity),
        r == (2 <= total_capacity && 6 * total_capacity <= usize::MAX),
{
    total_capacity >= 2 && total_capacity <= usize::MAX / 6
}

/// Whether an optional cache can be used.
pub open spec fn cache_wf(c: Option<H2OCache>) -> bool {
    c matches Some(c) ==> c.wf() && c.recent_capacity > 0
}

/// Looking up an attention layer. It starts without a cache.
pub open spec fn attention_built(
    rotary: RotaryView,
    cfg: Config,
    w: WeightsView,
    out: Option<AttentionView>,
) -> bool {
    let h = cfg.hidden_size;
    let d = cfg.head_dim();
    let q = (cfg.num_attention_heads * d) as usize;
    let kv = (cfg.num_key_value_heads * d) as usize;
    match out {
        Some(a) => {
            &&& w.under("q_proj"@).linear_result(h, q, Some(a.q))
            &&& w.under("k_proj"@).linear_result(h, kv, Some(a.k))
            &&& w.under("v_proj"@).linear_result(h, kv, Some(a.v))
            &&& w.under("o_proj"@).linear_no_bias_result(q, h, Some(a.o))
            &&& a.num_heads == cfg.num_attention_heads
            &&& a.num_kv_heads == cfg.num_key_value_heads
            &&& a.num_kv_groups == cfg.num_attention_heads / cfg.num_key_value_heads
            &&& a.head_dim == d
            &&& a.hidden_size == h
            &&& a.rotary == rotary
            &&& a.cache is None
        },
        None => {
            ||| w.under("q_proj"@).linear_result(h, q, None)
            ||| w.under("k_proj"@).linear_result(h, kv, None)
            ||| w.under("v_proj"@).linear_result(h, kv, None)
            ||| w.under("o_proj"@).linear_no_bias_result(q, h, None)
        },
    }
}

/// Projecting the features of each position and splitting them into heads.
pub open spec fn heads_result(
    l: LinearView,
    x: Array,
    heads: usize,
    head_dim: usize,
    out: Option<Array>,
) -> bool {
    exists|p: Option<Array>| #[trigger]
        linear_result(l, x, p) && match p {
            None => out is None,
            Some(p) => exists|r: Option<Array>| #[trigger]
                reshape_result(p, dims_4(x.dims[0], x.dims[1], heads, head_dim), r) && match r {
                    None => out is None,
                    Some(r) => transpose_result(r, 1, 2, out),
                },
        }
}

/// Queries, keys and values, the first two rotated to their positions.
pub open spec fn states_result(
    a: AttentionView,
    x: Array,
    offset: int,
    out: Option<(Array, Array, Array)>,
) -> bool {
    exists|q: Option<Array>| #[trigger]
        heads_result(a.q, x, a.num_heads, a.head_dim, q) && match q {
            None => out is None,
            Some(q) => exists|k: Option<Array>| #[trigger]
                heads_result(a.k, x, a.num_kv_heads, a.head_dim, k) && match k {
                    None => out is None,
                    Some(k) => exists|v: Option<Array>| #[trigger]
                        heads_result(a.v, x, a.num_kv_heads, a.head_dim, v) && match v {
                            None => out is None,
                            Some(v) => exists|r: Option<(Array, Array)>| #[trigger]
                                rotate_result(a.rotary, q, k, offset, r) && out == match r {
                                    None => None,
                                    Some((qe, ke)) => Some((qe, ke, v)),
                                },
                        },
                },
        }
}

/// Storing the first key and value: they make a new cache and are read as they
/// are. A cache that could not be made is not kept.
pub open spec fn first_stored(
    fresh: CacheView,
    q: Array,
    k: Array,
    v: Array,
    n: Option<CacheView>,
    out: Option<(Array, Array)>,
) -> bool {
    exists|m: CacheView, ok: bool| #[trigger]
        insert_result(fresh, q, k, v, m, ok) && if ok {
            n == Some(m) && out == Some((k, v))
        } else {
            n is None && out is None
        }
}

/// Storing a later key and value: they join the cache, and all of it is read.
pub open spec fn next_stored(
    c: CacheView,
    q: Array,
    k: Array,
    v: Array,
    n: Option<CacheView>,
    out: Option<(Array, Array)>,
) -> bool {
    exists|m: CacheView, ok: bool| #[trigger]
        insert_result(c, q, k, v, m, ok) && n == Some(m) && if ok {
            gather_result(m, out)
        } else {
            out is None
        }
}

/// Storing a key and a value. `out` is what is read afterwards.
pub open spec fn stored_result(
    cache: Option<CacheView>,
    fresh: CacheView,
    q: Array,
    k: Array,
    v: Array,
    n: Option<CacheView>,
    out: Option<(Array, Array)>,
) -> bool {
    match cache {
        None => first_stored(fresh, q, k, v, n, out),
        Some(c) => next_stored(c, q, k, v, n, out),
    }
}

/// An array repeated `n` times.
pub open spec fn copies(x: Array, n: nat) -> Seq<Array> {
    Seq::new(n, |i: int| x)
}

/// Repeating each head `n` times.
pub open spec fn repeat_result(x: Array, n: usize, out: Option<Array>) -> bool {
    if n == 1 {
        out == Some(x)
    } else if x.dims.len() != 4 || x.dims[1] * n > usize::MAX {
        out is None
    } else {
        exists|c: Option<Array>| #[trigger]
            cat_result(copies(x, n as nat), 2, c) && match c {
                None => out is None,
                Some(c) => reshape_result(
                    c,
                    dims_4(x.dims[0], (x.dims[1] * n) as usize, x.dims[2], x.dims[3]),
                    out,
                ),
            }
    }
}

/// Repeating each head `n` times, laid out in order.
pub open spec fn spread_result(x: Array, n: usize, out: Option<Array>) -> bool {
    exists|r: Option<Array>| #[trigger]
        repeat_result(x, n, r) && match r {
            None => out is None,
            Some(r) => contiguous_result(r, out),
        }
}

/// The scaled products of queries and keys.
pub open spec fn products_result(q: Array, k: Array, head_dim: int, out: Option<Array>) -> bool {
    exists|f: Option<Array>| #[trigger]
        inverse_root_result(head_dim, f) && match f {
            None => out is None,
            Some(f) => exists|t: Option<Array>| #[trigger]
                transpose_result(k, 2, 3, t) && match t {
                    None => out is None,
                    Some(t) => exists|w: Option<Array>| #[trigger]
                        matmul_result(q, t, w) && match w {
                            None => out is None,
                            Some(w) => if floating(w.dtype) {
                                scale_result(w, f.elems[0], out)
                            } else {
                                out is None
                            },
                        },
                },
        }
}

/// Adding a mask, where there is one.
pub open spec fn masked_result(w: Array, mask: Option<Array>, out: Option<Array>) -> bool {
    match mask {
        None => out == Some(w),
        Some(mask) => broadcast_add_result(w, mask, out),
    }
}

/// Attention: the values weighted by a softmax over the masked products of queries
/// and keys.
pub open spec fn scores_result(
    q: Array,
    k: Array,
    v: Array,
    mask: Option<Array>,
    head_dim: int,
    out: Option<Array>,
) -> bool {
    exists|w: Option<Array>| #[trigger]
        products_result(q, k, head_dim, w) && match w {
            None => out is None,
            Some(w) => exists|m: Option<Array>| #[trigger]
                masked_result(w, mask, m) && match m {
                    None => out is None,
                    Some(m) => if m.dims.last() == 0 {
                        out is None
                    } else {
                        exists|p: Option<Array>| #[trigger]
                            softmax_last_result(m, p) && match p {
                                None => out is None,
                                Some(p) => matmul_result(p, v, out),
                            }
                    },
                },
        }
}

/// Reading the keys and values with the queries.
pub open spec fn read_result(
    groups: usize,
    head_dim: usize,
    q: Array,
    k: Array,
    v: Array,
    mask: Option<Array>,
    out: Option<Array>,
) -> bool {
    exists|ks: Option<Array>| #[trigger]
        spread_result(k, groups, ks) && match ks {
            None => out is None,
            Some(ks) => exists|vs: Option<Array>| #[trigger]
                spread_result(v, groups, vs) && match vs {
                    None => out is None,
                    Some(vs) => scores_result(q, ks, vs, mask, head_dim as int, out),
                },
        }
}

/// Putting the heads side by side and projecting them.
pub open spec fn joined_result(
    o: LinearView,
    hidden_size: usize,
    x: Array,
    heads: Array,
    out: Option<Array>,
) -> bool {
    exists|t: Option<Array>| #[trigger]
        transpose_result(heads, 1, 2, t) && match t {
            None => out is None,
            Some(t) => exists|r: Option<Array>| #[trigger]
                reshape_result(t, dims_3(x.dims[0], x.dims[1], hidden_size), r) && match r {
                    None => out is None,
                    Some(r) => linear_result(o, r, out),
                },
        }
}

/// Applying an attention layer. `n` is its cache afterwards.
pub open spec fn attend_result(
    a: AttentionView,
    x: Array,
    mask: Option<Array>,
    offset: int,
    total_capacity: usize,
    n: Option<CacheView>,
    out: Option<Array>,
) -> bool {
    if x.dims.len() != 3 {
        n == a.cache && out is None
    } else {
        exists|s: Option<(Array, Array, Array)>| #[trigger]
            states_result(a, x, offset, s) && match s {
                None => n == a.cache && out is None,
                Some((q, k, v)) => exists|kv: Option<(Array, Array)>| #[trigger]
                    stored_result(
                        a.cache,
                        empty_cache(total_capacity as nat, a.num_heads as nat, a.head_dim as nat),
                        q,
                        k,
                        v,
                        n,
                        kv,
                    ) && match kv {
                        None => out is None,
                        Some((ks, vs)) => exists|o: Option<Array>| #[trigger]
                            read_result(a.num_kv_groups, a.head_dim, q, ks, vs, mask, o)
                                && match o {
                                None => out is None,
                                Some(o) => joined_result(a.o, a.hidden_size, x, o, out),
                            },
                    },
            }
    }
}

/// Projects the features of each position and splits them into heads.
fn split(l: &Linear, x: &Tensor, heads: usize, head_dim: usize) -> (r: Result<Tensor, ModelError>)
    requires
        l@.wf(),
        tensor_dims(*x).len() == 3,
    ensures
        heads_result(l@, array(*x), heads, head_dim, outcome(r)),
{
    let (b_sz, q_len, _) = dims3(x)?;
    let p = l.forward(x)?;
    let shape = vec![b_sz, q_len, heads, head_dim];
    assert(shape@ =~= dims_4(b_sz, q_len, heads, head_dim));
    let r = reshape(&p, &shape)?;
    let t = transpose(&r, 1, 2)?;
    Ok(t)
}

/// Stores a key and a value, and hands out the keys and values to be read.
fn store(
    cache: &mut Option<H2OCache>,
    total_capacity: usize,
    num_heads: usize,
    head_dim: usize,
    query: &Tensor,
    k: Tensor,
    v: Tensor,
) -> (r: Result<(Tensor, Tensor), ModelError>)
    requires
        cache_wf(*old(cache)),
        *old(cache) is None ==> usable(total_capacity),
        num_heads <= i64::MAX,
        head_dim <= i64::MAX,
    ensures
        cache_wf(*final(cache)),
        stored_result(
            cache_view(*old(cache)),
            empty_cache(total_capacity as nat, num_heads as nat, head_dim as nat),
            array(*query),
            array(k),
            array(v),
            cache_view(*final(cache)),
            pair_outcome(r),
        ),
{
    let ghost (qa, ka, va) = (array(*query), array(k), array(v));
    match cache.take() {
        None => {
            let mut fresh = H2OCache::new(total_capacity, num_heads, head_dim);
            let ghost c = fresh@;
            match fresh.insert(query, k.clone(), v.clone()) {
                Ok(_) => {
                    assert(insert_result(c, qa, ka, va, fresh@, true));
                    *cache = Some(fresh);
                    assert(first_stored(c, qa, ka, va, Some(fresh@), Some((ka, va))));
                    Ok((k, v))
                },
                Err(e) => {
                    assert(insert_result(c, qa, ka, va, fresh@, false));
                    assert(first_stored(c, qa, ka, va, None, None));
                    Err(e)
                },
            }
        },
        Some(mut held) => {
            let ghost c = held@;
            let all = match held.insert(query, k, v) {
                Ok(_) => {
                    assert(insert_result(c, qa, ka, va, held@, true));
                    held.get_all_kv()
                },
                Err(e) => {
                    assert(insert_result(c, qa, ka, va, held@, false));
                    Err(e)
                },
            };
            assert(next_stored(c, qa, ka, va, Some(held@), pair_outcome(all)));
            *cache = Some(held);
            all
        },
    }
}

/// Repeats each head `n_rep` times.
pub fn repeat_kv(xs: Tensor, n_rep: usize) -> (r: Result<Tensor, ModelError>)
    ensures
        repeat_result(array(xs), n_rep, outcome(r)),
{
    if n_rep == 1 {
        return Ok(xs);
    }
    let (b_sz, n_kv_head, seq_len, head_dim) = dims4(&xs)?;
    let heads = match n_kv_head.checked_mul(n_rep) {
        Some(heads) => heads,
        None => {
            return Err(ModelError::TooLarge);
        },
    };
    let mut parts: Vec<Tensor> = Vec::new();
    let mut i: usize = 0;
    while i < n_rep
        invariant
            i <= n_rep,
            parts@.len() == i,
            forall|j: int| 0 <= j < i ==> #[trigger] parts@[j] == xs,
        decreases n_rep - i,
    {
        parts.push(xs.clone());
        i += 1;
    }
    assert(arrays(parts@) =~= copies(array(xs), n_rep as nat));
    let c = cat(&parts, 2)?;
    let shape = vec![b_sz, heads, seq_len, head_dim];
    assert(shape@ =~= dims_4(b_sz, heads, seq_len, head_dim));
    reshape(&c, &shape)
}

/// Repeats each head `n_rep` times, laid out in order.
fn spread(xs: Tensor, n_rep: usize) -> (r: Result<Tensor, ModelError>)
    ensures
        spread_result(array(xs), n_rep, outcome(r)),
{
    let repeated = repeat_kv(xs, n_rep)?;
    let t = contiguous(&repeated)?;
    Ok(t)
}

/// The scaled products of queries and keys.
fn products(q: &Tensor, k: &Tensor, head_dim: usize) -> (r: Result<Tensor, ModelError>)
    requires
        head_dim <= i64::MAX,
    ensures
        products_result(array(*q), array(*k), head_dim as int, outcome(r)),
        r matches Ok(t) ==> tensor_dims(t).len() >= 2 && floating(array(t).dtype),
{
    let factor = inverse_root(head_dim)?;
    let t = transpose(k, 2, 3)?;
    let w = matmul(q, &t)?;
    if !is_floating(&w) {
        return Err(ModelError::ElementType);
    }
    let s = scale(&w, &factor)?;
    Ok(s)
}

/// Adds a mask, where there is one.
fn masked(w: Tensor, mask: Option<&Tensor>) -> (r: Result<Tensor, ModelError>)
    requires
        tensor_dims(w).len() >= 2,
        floating(array(w).dtype),
    ensures
        masked_result(array(w), optional_array(mask), outcome(r)),
        r matches Ok(t) ==> tensor_dims(t).len() >= 2,
{
    match mask {
        None => Ok(w),
        Some(mask) => {
            let t = broadcast_add(&w, mask)?;
            Ok(t)
        },
    }
}

impl Attention {
    /// The projections are well formed, the sizes are numbers that a double can be
    /// made from, and the cache can be used.
    pub open spec fn wf(&self) -> bool {
        &&& self.q_proj@.wf()
        &&& self.k_proj@.wf()
        &&& self.v_proj@.wf()
        &&& self.o_proj@.wf()
        &&& self.num_heads <= i64::MAX
        &&& self.head_dim <= i64::MAX
        &&& cache_wf(self.kv_cache)
    }

    /// Whether the layer can work with this capacity: it matters only as long as
    /// there is no cache.
    pub open spec fn accepts(&self, total_capacity: usize) -> bool {
        self.kv_cache is None ==> usable(total_capacity)
    }

    /// The layer whose weights stand at this place.
    pub fn new(rotary_emb: &RotaryEmbedding, cfg: &Config, vb: &Weights) -> (r: Result<
        Self,
        ModelError,
    >)
        requires
            cfg.valid(),
        ensures
            attention_built(rotary_emb@, *cfg, vb@, view_of(r)),
            r matches Ok(a) ==> a.wf() && a.kv_cache is None,
    {
        let hidden_sz = cfg.hidden_size;
        let num_heads = cfg.num_attention_heads;
        let num_kv_heads = cfg.num_key_value_heads;
        let num_kv_groups = num_heads / num_kv_heads;
        let head_dim = hidden_sz / num_heads;
        assert(num_heads * head_dim <= hidden_sz) by (nonlinear_arith)
            requires
                head_dim == hidden_sz / num_heads,
                num_heads > 0,
        ;
        assert(head_dim <= hidden_sz) by (nonlinear_arith)
            requires
                head_dim == hidden_sz / num_heads,
                num_heads > 0,
        ;
        let q_proj = vb.pp("q_proj").linear(hidden_sz, num_heads * head_dim)?;
        let k_proj = vb.pp("k_proj").linear(hidden_sz, num_kv_heads * head_dim)?;
        let v_proj = vb.pp("v_proj").linear(hidden_sz, num_kv_heads * head_dim)?;
        let o_proj = vb.pp("o_proj").linear_no_bias(num_heads * head_dim, hidden_sz)?;
        Ok(
            Attention {
                q_proj,
                k_proj,
                v_proj,
                o_proj,
                num_heads,
                num_kv_heads,
                num_kv_groups,
                head_dim,
                hidden_size: hidden_sz,
                rotary_emb: rotary_emb.clone(),
                kv_cache: None,
            },
        )
    }

    /// Queries, keys and values, the first two rotated to their positions.
    fn states(&self, xs: &Tensor, seqlen_offset: usize) -> (r: Result<
        (Tensor, Tensor, Tensor),
        ModelError,
    >)
        requires
            self.wf(),
            tensor_dims(*xs).len() == 3,
        ensures
            states_result(
                self@,
                array(*xs),
                seqlen_offset as int,
                match r {
                    Ok(s) => Some((array(s.0), array(s.1), array(s.2))),
                    Err(_) => None,
                },
            ),
    {
        let ghost a = self@;
        assert(a.q == self.q_proj@ && a.k == self.k_proj@ && a.v == self.v_proj@ && a.num_heads
            == self.num_heads && a.num_kv_heads == self.num_kv_heads && a.head_dim == self.head_dim
            && a.rotary == self.rotary_emb@);
        let q = split(&self.q_proj, xs, self.num_heads, self.head_dim)?;
        let k = split(&self.k_proj, xs, self.num_kv_heads, self.head_dim)?;
        let v = split(&self.v_proj, xs, self.num_kv_heads, self.head_dim)?;
        let (q, k) = self.rotary_emb.apply_rotary_emb_qkv(&q, &k, seqlen_offset)?;
        Ok((q, k, v))
    }

    /// Applies the layer to positions that start at `seqlen_offset`. The first call
    /// makes a cache with room for `total_capacity` entries. What the layer is bound to
    /// work on gives a result, unless the scores of a full cache cannot be compared.
    pub fn forward(
        &mut self,
        xs: &Tensor,
        attention_mask: Option<&Tensor>,
        seqlen_offset: usize,
        total_capacity: usize,
    ) -> (r: Result<Tensor, ModelError>)
        requires
            old(self).wf(),
            old(self).accepts(total_capacity),
        ensures
            final(self).wf(),
            final(self)@ == (AttentionView { cache: final(self)@.cache, ..old(self)@ }),
            attend_result(
                old(self)@,
                array(*xs),
                optional_array(attention_mask),
                seqlen_offset as int,
                total_capacity,
                final(self)@.cache,
                outcome(r),
            ),
            r is Ok && tensor_dims(*xs)[0] > 0 && old(self).num_heads > 0 ==> old(self)@.fits(),
            attention_owed(old(self)@, array(*xs), seqlen_offset as int, total_capacity) ==> (
            final(self)@.cache matches Some(c) && cache_agrees(
                c,
                old(self)@,
                tensor_dtype(*xs),
                tensor_dims(*xs)[0],
            ) && (mask_fits(old(self)@, array(*xs), c, optional_array(attention_mask)) ==> r is Ok
                || (!has_room(old(self)@.cache) && !ready(c)))),
    {
        let ghost a = self@;
        let r = self.attend(xs, attention_mask, seqlen_offset, total_capacity);
        proof {
            let (x, mask) = (array(*xs), optional_array(attention_mask));
            let offset = seqlen_offset as int;
            let n = self@.cache;
            if r is Ok && x.dims[0] > 0 && a.num_heads > 0 {
                attention_needs_heads_that_fit_together(
                    a,
                    x,
                    mask,
                    offset,
                    total_capacity,
                    n,
                    array(r->Ok_0),
                );
            }
            if attention_owed(a, x, offset, total_capacity) {
                a_layer_attends_to_what_agrees(a, x, mask, offset, total_capacity, n, outcome(r));
            }
        }
        r
    }

    /// Applies the layer to positions that start at `seqlen_offset`.
    fn attend(
        &mut self,
        xs: &Tensor,
        attention_mask: Option<&Tensor>,
        seqlen_offset: usize,
        total_capacity: usize,
    ) -> (r: Result<Tensor, ModelError>)
        requires
            old(self).wf(),
            old(self).accepts(total_capacity),
        ensures
            final(self).wf(),
            final(self)@ == (AttentionView { cache: final(self)@.cache, ..old(self)@ }),
            attend_result(
                old(self)@,
                array(*xs),
                optional_array(attention_mask),
                seqlen_offset as int,
                total_capacity,
                final(self)@.cache,
                outcome(r),
            ),
    {
        let ghost a = self@;
        assert(a.num_heads == self.num_heads && a.head_dim == self.head_dim && a.num_kv_groups
            == self.num_kv_groups && a.o == self.o_proj@ && a.hidden_size == self.hidden_size
            && a.cache == cache_view(self.kv_cache));
        let (b_sz, q_len, _) = dims3(xs)?;
        let (q, k, v) = self.states(xs, seqlen_offset)?;
        let (num_heads, head_dim) = (self.num_heads, self.head_dim);
        let (ks, vs) = store(
            &mut self.kv_cache,
            total_capacity,
            num_heads,
            head_dim,
            &q,
            k,
            v,
        )?;
        let o = self.read(&q, ks, vs, attention_mask)?;
        self.join(xs, b_sz, q_len, &o)
    }

    /// Reads the keys and values with the queries.
    fn read(&self, q: &Tensor, k: Tensor, v: Tensor, mask: Option<&Tensor>) -> (r: Result<
        Tensor,
        ModelError,
    >)
        requires
            self.wf(),
        ensures
            read_result(
                self.num_kv_groups,
                self.head_dim,
                array(*q),
                array(k),
                array(v),
                optional_array(mask),
                outcome(r),
            ),
    {
        let ks = spread(k, self.num_kv_groups)?;
        let vs = spread(v, self.num_kv_groups)?;
        self.compute_attention_scores(q, &ks, &vs, mask, self.head_dim)
    }

    /// Attention of the queries over the keys and values. It succeeds where they agree.
    pub fn compute_attention_scores(
        &self,
        query_states: &Tensor,
        key_states: &Tensor,
        value_states: &Tensor,
        attention_mask: Option<&Tensor>,
        head_dim: usize,
    ) -> (r: Result<Tensor, ModelError>)
        requires
            head_dim <= i64::MAX,
        ensures
            scores_result(
                array(*query_states),
                array(*key_states),
                array(*value_states),
                optional_array(attention_mask),
                head_dim as int,
                outcome(r),
            ),
            scores_owed(
                array(*query_states),
                array(*key_states),
                array(*value_states),
                optional_array(attention_mask),
            ) ==> r is Ok && tensor_dims(r->Ok_0) == tensor_dims(*query_states).update(
                3,
                tensor_dims(*value_states)[3],
            ),
    {
        let r = self.weigh(query_states, key_states, value_states, attention_mask, head_dim);
        proof {
            let (q, k, v) = (array(*query_states), array(*key_states), array(*value_states));
            let mask = optional_array(attention_mask);
            if scores_owed(q, k, v, mask) {
                attention_over_what_agrees_succeeds(q, k, v, mask, head_dim as int, outcome(r));
            }
        }
        r
    }

    /// Attention of the queries over the keys and values.
    fn weigh(
        &self,
        query_states: &Tensor,
        key_states: &Tensor,
        value_states: &Tensor,
        attention_mask: Option<&Tensor>,
        head_dim: usize,
    ) -> (r: Result<Tensor, ModelError>)
        requires
            head_dim <= i64::MAX,
        ensures
            scores_result(
                array(*query_states),
                array(*key_states),
                array(*value_states),
                optional_array(attention_mask),
                head_dim as int,
                outcome(r),
            ),
    {
        let w = products(query_states, key_states, head_dim)?;
        let m = masked(w, attention_mask)?;
        if ends_empty(&m) {
            return Err(ModelError::ShortAxis);
        }
        let p = softmax_last(&m)?;
        let t = matmul(&p, value_states)?;
        Ok(t)
    }

    /// Puts the heads side by side and projects them.
    fn join(&self, xs: &Tensor, b_sz: usize, q_len: usize, heads: &Tensor) -> (r: Result<
        Tensor,
        ModelError,
    >)
        requires
            self.wf(),
            tensor_dims(*xs).len() == 3,
            tensor_dims(*xs)[0] == b_sz,
            tensor_dims(*xs)[1] == q_len,
        ensures
            joined_result(self.o_proj@, self.hidden_size, array(*xs), array(*heads), outcome(r)),
    {
        let ghost x = array(*xs);
        assert(x.dims[0] == b_sz && x.dims[1] == q_len);
        let t = transpose(heads, 1, 2)?;
        let shape = vec![b_sz, q_len, self.hidden_size];
        assert(shape@ =~= dims_3(b_sz, q_len, self.hidden_size));
        let r = reshape(&t, &shape)?;
        self.o_proj.forward(&r)
    }

    /// Drops the cache.
    pub fn clear_kv_cache(&mut self)
        requires
            old(self).wf(),
        ensures
            final(self).wf(),
            final(self).kv_cache is None,
            final(self)@ == (AttentionView { cache: None, ..old(self)@ }),
    {
        self.kv_cache = None;
    }
}

} // verus!
