//! Tensor shapes of the transformer pipeline, single-device and sharded,
//! and the byte sizes of the buffers that hold them.

use vstd::prelude::*;
use digit_layout::DigitLayout;
use crate::forward::{BatchShape, QueryRange};

verus! {

/// The element layout of the `digit-layout` crate, carried through as an
/// opaque value.
#[verifier::external_type_specification]
#[verifier::external_body]
pub struct ExDigitLayout(DigitLayout);

/// The number of bytes one group of elements of layout `dt` occupies, as
/// reported by the layout itself.
pub uninterp spec fn element_bytes(dt: DigitLayout) -> nat;

/// `DigitLayout::nbytes` reads the layout's 16-bit size field: the result is
/// a function of the layout alone and never exceeds `u16::MAX`.
pub assume_specification[ DigitLayout::nbytes ](dt: DigitLayout) -> (n: usize)
    ensures
        n == element_bytes(dt),
        n <= u16::MAX,
;

/// The sizes that fix the shapes of a model's tensors.
#[derive(Clone, Copy, PartialEq, Eq, Debug)]
pub struct ModelDims {
    /// Number of transformer layers.
    pub nlayers: u32,
    /// Number of attention heads.
    pub nh: u32,
    /// Number of key/value heads.
    pub nkvh: u32,
    /// Width of the hidden state.
    pub d: u32,
    /// Width of the feed-forward layer.
    pub di: u32,
    /// Number of positions a cache can hold.
    pub max_seq_len: u32,
}

/// Sizes derived from [`ModelDims`].
#[derive(Clone, Copy, PartialEq, Eq, Debug)]
pub struct HeadDims {
    /// Width of one head.
    pub dh: u64,
    /// Width of all key (or value) heads together.
    pub dkv: u64,
    /// Number of attention heads that share one key/value head.
    pub head_group: u64,
    /// Columns of scratch shared by the attention and feed-forward stages.
    pub reusing: u64,
}

/// The slice of the model one device works on when the heads and the
/// feed-forward width are split evenly over `n` devices.
#[derive(Clone, Copy, PartialEq, Eq, Debug)]
pub struct ShardDims {
    /// Attention heads on this device.
    pub nh: u64,
    /// Key/value heads on this device.
    pub nkvh: u64,
    /// Columns of the fused query/key/value projection on this device.
    pub qkv_cols: u64,
    /// Columns of the fused gate/up projection on this device.
    pub gate_up_cols: u64,
    /// Columns of the state buffer: the hidden width plus this device's
    /// share of the scratch.
    pub state_cols: u64,
    /// Whether this device adds the residual into its partial sums. Exactly
    /// one device does, so that the sum over devices holds it once.
    pub keeps_residual: bool,
}

impl ModelDims {
    /// Width of one head.
    pub open spec fn dh(self) -> int
        recommends
            self.nh > 0,
    {
        self.d as int / self.nh as int
    }

    /// Width of all key (or value) heads together.
    pub open spec fn dkv(self) -> int
        recommends
            self.nh > 0,
    {
        self.nkvh * self.dh()
    }

    /// Number of attention heads per key/value head.
    pub open spec fn head_group(self) -> int
        recommends
            self.nkvh > 0,
    {
        self.nh as int / self.nkvh as int
    }

    /// Columns of scratch: wide enough for the fused query/key/value
    /// projection and for the fused gate/up projection.
    pub open spec fn reusing(self) -> int
        recommends
            self.nh > 0,
    {
        if self.d + 2 * self.dkv() >= 2 * self.di {
            self.d + 2 * self.dkv()
        } else {
            2 * self.di
        }
    }

    /// The model has heads to divide by and its widest row fits in 64 bits.
    pub open spec fn valid(self) -> bool {
        &&& self.nh > 0
        &&& self.nkvh > 0
        &&& self.d + self.reusing() <= u64::MAX
    }

    /// The derived sizes, or `None` for a model that is not valid.
    pub fn heads(&self) -> (r: Option<HeadDims>)
        ensures
            r.is_some() <==> self.valid(),
            r matches Some(h) ==> {
                &&& h.dh == self.dh()
                &&& h.dkv == self.dkv()
                &&& h.head_group == self.head_group()
                &&& h.reusing == self.reusing()
            },
    {
        if self.nh == 0 || self.nkvh == 0 {
            return None;
        }
        let dh: u64 = (self.d / self.nh) as u64;
        assert(self.nkvh * dh <= u64::MAX) by (nonlinear_arith)
            requires
                self.nkvh <= u32::MAX,
                dh <= u32::MAX,
        ;
        let dkv: u64 = (self.nkvh as u64) * dh;
        let head_group: u64 = (self.nh / self.nkvh) as u64;
        let gate_up: u64 = 2 * (self.di as u64);
        let qkv = match dkv.checked_add(dkv) {
            Some(both) => match both.checked_add(self.d as u64) {
                Some(all) => all,
                None => {
                    return None;
                },
            },
            None => {
                return None;
            },
        };
        let reusing = if qkv >= gate_up {
            qkv
        } else {
            gate_up
        };
        match reusing.checked_add(self.d as u64) {
            Some(_) => Some(HeadDims { dh, dkv, head_group, reusing }),
            None => None,
        }
    }

    /// The slice of the model that device `i` of `n` works on.
    pub open spec fn shard_of(self, n: int, i: int) -> ShardDims
        recommends
            self.valid(),
            0 <= i < n,
    {
        ShardDims {
            nh: (self.nh as int / n) as u64,
            nkvh: (self.nkvh as int / n) as u64,
            qkv_cols: ((self.d + 2 * self.dkv()) / n) as u64,
            gate_up_cols: ((2 * self.di) / n) as u64,
            state_cols: (self.d + self.reusing() / n) as u64,
            keeps_residual: i == 0,
        }
    }

    /// The slice of the model that device `i` of `n` works on, or `None` if
    /// the model is not valid or there is no such device.
    pub fn shard(&self, n: u32, i: u32) -> (r: Option<ShardDims>)
        ensures
            r.is_some() <==> self.valid() && i < n,
            r matches Some(s) ==> s == self.shard_of(n as int, i as int),
    {
        if i >= n {
            return None;
        }
        match self.heads() {
            None => None,
            Some(h) => {
                let n = n as u64;
                let qkv: u64 = self.d as u64 + 2 * h.dkv;
                let gate_up: u64 = 2 * (self.di as u64);
                assert(h.reusing / n <= h.reusing) by (nonlinear_arith)
                    requires
                        n > 0,
                ;
                Some(
                    ShardDims {
                        nh: self.nh as u64 / n,
                        nkvh: self.nkvh as u64 / n,
                        qkv_cols: qkv / n,
                        gate_up_cols: gate_up / n,
                        state_cols: self.d as u64 + h.reusing / n,
                        keeps_residual: i == 0,
                    },
                )
            },
        }
    }

    /// Shape of the key/value cache one of `n` devices holds: layers, key
    /// and value, that device's key/value heads, positions, head width.
    pub fn cache_shape(&self, n: u32) -> (r: Option<[u64; 5]>)
        ensures
            r.is_some() <==> self.valid() && n > 0,
            r matches Some(shape) ==> {
                &&& shape@.len() == 5
                &&& shape@[0] == self.nlayers
                &&& shape@[1] == 2
                &&& shape@[2] == self.nkvh as int / n as int
                &&& shape@[3] == self.max_seq_len
                &&& shape@[4] == self.dh()
            },
    {
        if n == 0 {
            return None;
        }
        match self.heads() {
            None => None,
            Some(h) => Some(
                [
                    self.nlayers as u64,
                    2,
                    (self.nkvh / n) as u64,
                    self.max_seq_len as u64,
                    h.dh,
                ],
            ),
        }
    }
}

/// With a single device the shard is the whole model, and that device keeps
/// the residual.
pub proof fn lemma_single_shard_is_whole(dims: ModelDims)
    requires
        dims.valid(),
    ensures
        dims.shard_of(1, 0).nh == dims.nh,
        dims.shard_of(1, 0).nkvh == dims.nkvh,
        dims.shard_of(1, 0).qkv_cols == dims.d + 2 * dims.dkv(),
        dims.shard_of(1, 0).gate_up_cols == 2 * dims.di,
        dims.shard_of(1, 0).state_cols == dims.d + dims.reusing(),
        dims.shard_of(1, 0).keeps_residual,
{
    assert(dims.dkv() >= 0) by (nonlinear_arith)
        requires
            dims.dkv() == dims.nkvh * (dims.d as int / dims.nh as int),
            dims.nh > 0,
    ;
}

/// Where the number of devices divides the heads and the widths, the
/// slices of the devices add up to the whole model.
pub proof fn lemma_shards_cover_the_model(dims: ModelDims, n: int, i: int)
    requires
        dims.valid(),
        0 <= i < n,
        dims.nh as int % n == 0,
        dims.nkvh as int % n == 0,
        (dims.d + 2 * dims.dkv()) % n == 0,
        (2 * dims.di) % n == 0,
    ensures
        n * dims.shard_of(n, i).nh == dims.nh,
        n * dims.shard_of(n, i).nkvh == dims.nkvh,
        n * dims.shard_of(n, i).qkv_cols == dims.d + 2 * dims.dkv(),
        n * dims.shard_of(n, i).gate_up_cols == 2 * dims.di,
{
    assert(dims.dkv() >= 0) by (nonlinear_arith)
        requires
            dims.dkv() == dims.nkvh * (dims.d as int / dims.nh as int),
            dims.nh > 0,
    ;
    lemma_divides(dims.nh as int, n);
    lemma_divides(dims.nkvh as int, n);
    lemma_divides(dims.d + 2 * dims.dkv(), n);
    lemma_divides(2 * dims.di, n);
}

proof fn lemma_divides(a: int, n: int)
    requires
        0 <= a,
        0 < n,
        a % n == 0,
    ensures
        n * (a / n) == a,
        0 <= a / n <= a,
{
    assert(n * (a / n) == a && 0 <= a / n <= a) by (nonlinear_arith)
        requires
            0 <= a,
            0 < n,
            a % n == 0,
    ;
}

/// Among the `n` devices exactly the first keeps the residual.
pub proof fn lemma_one_shard_keeps_residual(dims: ModelDims, n: int, i: int)
    requires
        0 <= i < n,
    ensures
        dims.shard_of(n, i).keeps_residual <==> i == 0,
{
}

/// The shapes and slices of one request's attention on one device.
#[derive(Clone, Copy, PartialEq, Eq, Debug)]
pub struct AttentionShapes {
    /// First position of the cache that receives the new keys and values.
    pub cat_from: u64,
    /// Number of positions that receive new keys and values.
    pub cat_len: u64,
    /// Number of cache positions attended to, counted from position zero.
    pub att_len: u64,
    /// Queries laid out per head: heads, new tokens, head width.
    pub q_by_head: [u64; 3],
    /// Queries grouped by key/value head: key/value heads, grouped rows,
    /// head width.
    pub q_by_group: [u64; 3],
    /// Scores grouped by key/value head: key/value heads, grouped rows,
    /// attended positions.
    pub att_by_group: [u64; 3],
    /// Scores laid out per head: heads, new tokens, attended positions.
    pub att_by_head: [u64; 3],
}

/// The shapes and slices of the attention of a request with range `q` on a
/// device that holds `nkvh` key/value heads, each shared by `head_group`
/// attention heads of width `dh`. Returns `None` if a row count does not fit
/// in 64 bits.
pub fn attention_shapes(nkvh: u64, head_group: u64, dh: u64, q: QueryRange) -> (r: Option<
    AttentionShapes,
>)
    ensures
        r.is_some() <==> nkvh * head_group <= u64::MAX && head_group * q.len() <= u64::MAX,
        r matches Some(a) ==> {
            &&& a.cat_from == q.start
            &&& a.cat_len == q.len()
            &&& a.att_len == q.end
            &&& a.q_by_head@ =~= seq![(nkvh * head_group) as u64, q.len() as u64, dh]
            &&& a.q_by_group@ =~= seq![nkvh, (head_group * q.len()) as u64, dh]
            &&& a.att_by_group@ =~= seq![nkvh, (head_group * q.len()) as u64, q.end as u64]
            &&& a.att_by_head@ =~= seq![(nkvh * head_group) as u64, q.len() as u64, q.end as u64]
        },
{
    let seq_len = q.seq_len() as u64;
    let att_len = q.att_len() as u64;
    let heads = match nkvh.checked_mul(head_group) {
        Some(heads) => heads,
        None => {
            return None;
        },
    };
    let rows = match head_group.checked_mul(seq_len) {
        Some(rows) => rows,
        None => {
            return None;
        },
    };
    Some(
        AttentionShapes {
            cat_from: q.pos() as u64,
            cat_len: seq_len,
            att_len,
            q_by_head: [heads, seq_len, dh],
            q_by_group: [nkvh, rows, dh],
            att_by_group: [nkvh, rows, att_len],
            att_by_head: [heads, seq_len, att_len],
        },
    )
}

/// The shapes of the scratch one device needs for a forward step.
#[derive(Clone, Copy, PartialEq, Eq, Debug)]
pub struct Workspace {
    /// The state buffer: one row per token, holding the normalized hidden
    /// state and the device's share of the shared scratch.
    pub state: [u64; 2],
    /// The queries of one request, laid out per head: the device's heads,
    /// the longest run of new tokens, head width.
    pub q_buf: [u64; 3],
    /// The attention scores of one request: the device's heads, the
    /// longest run of new tokens, the longest attention span.
    pub att_buf: [u64; 3],
}

/// The shapes of the scratch a device with the slice `shard` of a model of
/// head width `dh` needs for a batch of shape `batch`.
pub fn workspace(shard: &ShardDims, dh: u64, batch: &BatchShape) -> (r: Workspace)
    ensures
        r.state@ =~= seq![batch.nt as u64, shard.state_cols],
        r.q_buf@ =~= seq![shard.nh, batch.max_seq_len as u64, dh],
        r.att_buf@ =~= seq![shard.nh, batch.max_seq_len as u64, batch.max_att_len as u64],
{
    Workspace {
        state: [batch.nt as u64, shard.state_cols],
        q_buf: [shard.nh, batch.max_seq_len as u64, dh],
        att_buf: [shard.nh, batch.max_seq_len as u64, batch.max_att_len as u64],
    }
}

/// The product of the entries of `s`; one for the empty sequence.
pub open spec fn product(s: Seq<u64>) -> nat
    decreases s.len(),
{
    if s.len() == 0 {
        1
    } else {
        product(s.drop_last()) * (s.last() as nat)
    }
}

proof fn lemma_product_take(s: Seq<u64>, i: int)
    requires
        0 <= i < s.len(),
    ensures
        product(s.take(i + 1)) == product(s.take(i)) * (s[i] as nat),
{
    assert(s.take(i + 1).drop_last() =~= s.take(i));
}

proof fn lemma_product_zero(s: Seq<u64>, i: int)
    requires
        0 <= i < s.len(),
        s[i] == 0,
    ensures
        product(s) == 0,
    decreases s.len(),
{
    if i == s.len() - 1 {
        assert(product(s.drop_last()) * 0 == 0) by (nonlinear_arith);
    } else {
        lemma_product_zero(s.drop_last(), i);
        assert(0 * (s.last() as nat) == 0) by (nonlinear_arith);
    }
}

proof fn lemma_product_grows(s: Seq<u64>, i: int)
    requires
        0 <= i <= s.len(),
        forall|k: int| 0 <= k < s.len() ==> s[k] > 0,
    ensures
        1 <= product(s.take(i)) <= product(s),
    decreases s.len() - i,
{
    if i == s.len() {
        assert(s.take(i) =~= s);
        lemma_product_positive(s);
    } else {
        lemma_product_take(s, i);
        lemma_product_grows(s, i + 1);
        lemma_product_positive(s.take(i));
        assert(product(s.take(i)) <= product(s.take(i)) * (s[i] as nat)) by (nonlinear_arith)
            requires
                s[i] >= 1,
        ;
    }
}

proof fn lemma_product_positive(s: Seq<u64>)
    requires
        forall|k: int| 0 <= k < s.len() ==> s[k] > 0,
    ensures
        product(s) >= 1,
    decreases s.len(),
{
    if s.len() > 0 {
        lemma_product_positive(s.drop_last());
        assert(product(s.drop_last()) * (s.last() as nat) >= 1) by (nonlinear_arith)
            requires
                product(s.drop_last()) >= 1,
                s.last() >= 1,
        ;
    }
}

/// The number of elements of a tensor of shape `shape`, or `None` if that
/// number does not fit in 64 bits.
pub fn element_count(shape: &[u64]) -> (r: Option<u64>)
    ensures
        r.is_some() <==> product(shape@) <= u64::MAX,
        r matches Some(n) ==> n == product(shape@),
{
    let mut i: usize = 0;
    while i < shape.len()
        invariant
            0 <= i <= shape@.len(),
            forall|k: int| 0 <= k < i ==> shape@[k] > 0,
        decreases shape@.len() - i,
    {
        if shape[i] == 0 {
            proof {
                lemma_product_zero(shape@, i as int);
            }
            return Some(0);
        }
        i += 1;
    }
    let mut count: u64 = 1;
    let mut i: usize = 0;
    while i < shape.len()
        invariant
            0 <= i <= shape@.len(),
            forall|k: int| 0 <= k < shape@.len() ==> shape@[k] > 0,
            count == product(shape@.take(i as int)),
        decreases shape@.len() - i,
    {
        proof {
            lemma_product_take(shape@, i as int);
            lemma_product_grows(shape@, i as int + 1);
        }
        match count.checked_mul(shape[i]) {
            Some(next) => {
                count = next;
            },
            None => {
                return None;
            },
        }
        i += 1;
    }
    assert(shape@.take(i as int) =~= shape@);
    Some(count)
}

/// The bytes a tensor of shape `shape` occupies when one element takes
/// `elem` bytes, or `None` if that does not fit in 64 bits.
pub fn buffer_bytes(shape: &[u64], elem: u64) -> (r: Option<u64>)
    ensures
        r.is_some() <==> product(shape@) * elem <= u64::MAX,
        r matches Some(n) ==> n == product(shape@) * elem,
{
    if elem == 0 {
        assert(product(shape@) * 0 == 0) by (nonlinear_arith);
        return Some(0);
    }
    match element_count(shape) {
        Some(count) => count.checked_mul(elem),
        None => {
            assert(product(shape@) <= product(shape@) * elem) by (nonlinear_arith)
                requires
                    elem >= 1,
            ;
            None
        },
    }
}

/// The bytes a tensor of shape `shape` and element layout `dt` occupies, or
/// `None` if that does not fit in 64 bits.
pub fn tensor_bytes(dt: DigitLayout, shape: &[u64]) -> (r: Option<u64>)
    ensures
        r.is_some() <==> product(shape@) * element_bytes(dt) <= u64::MAX,
        r matches Some(n) ==> n == product(shape@) * element_bytes(dt),
{
    let elem = dt.nbytes();
    buffer_bytes(shape, elem as u64)
}

} // verus!
