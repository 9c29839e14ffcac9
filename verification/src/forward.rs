//! Integer geometry of one fused forward step.
//!
//! A step concatenates the outstanding tokens of every request into one
//! batch. Everything a backend needs to lay that batch out is computed here
//! from the requests' ranges alone: the batch totals, the row at which each
//! request starts, and the absolute position of every row.

use vstd::prelude::*;
use crate::Token;

verus! {

/// The tokens one request contributes to a step: the cache positions
/// `start..end`. A range with `end <= start` is empty.
#[derive(Clone, Copy, PartialEq, Eq, Debug)]
pub struct QueryRange {
    /// Number of tokens already in the request's cache window.
    pub start: u32,
    /// Length of the window once the step has run.
    pub end: u32,
}

impl QueryRange {
    /// Number of tokens in the range.
    pub open spec fn len(self) -> nat {
        if self.start < self.end {
            (self.end - self.start) as nat
        } else {
            0
        }
    }

    /// Position of the first token of the range.
    pub fn pos(&self) -> (r: u32)
        ensures
            r == self.start,
    {
        self.start
    }

    /// Number of tokens forwarded for this request.
    pub fn seq_len(&self) -> (r: u32)
        ensures
            r == self.len(),
    {
        if self.start < self.end {
            self.end - self.start
        } else {
            0
        }
    }

    /// Number of positions attended to: the tokens cached before the step
    /// plus the tokens of the step.
    pub fn att_len(&self) -> (r: u32)
        ensures
            r == self.end,
    {
        self.end
    }
}

/// One request of a step, given by its new tokens and the number of tokens
/// its cache already holds.
pub struct Request<'a> {
    /// The tokens to forward.
    pub tokens: &'a [Token],
    /// Number of tokens already cached.
    pub pos: u32,
}

impl<'a> Request<'a> {
    /// Number of tokens forwarded for this request.
    pub fn seq_len(&self) -> (r: u32)
        requires
            self.tokens@.len() <= u32::MAX,
        ensures
            r == self.tokens@.len(),
    {
        self.tokens.len() as u32
    }

    /// Number of positions attended to.
    pub fn att_len(&self) -> (r: u32)
        requires
            self.pos + self.tokens@.len() <= u32::MAX,
        ensures
            r == self.pos + self.tokens@.len(),
    {
        self.pos + self.seq_len()
    }

    /// The cache positions the request's tokens will occupy.
    pub fn range(&self) -> (r: QueryRange)
        requires
            self.pos + self.tokens@.len() <= u32::MAX,
        ensures
            r.start == self.pos,
            r.end == self.pos + self.tokens@.len(),
            r.len() == self.tokens@.len(),
    {
        QueryRange { start: self.pos, end: self.att_len() }
    }
}

/// Total number of tokens in the ranges `s`.
pub open spec fn total_len(s: Seq<QueryRange>) -> nat
    decreases s.len(),
{
    if s.len() == 0 {
        0
    } else {
        total_len(s.drop_last()) + s.last().len()
    }
}

/// `m` is the largest `seq_len` among `s`, or zero if `s` is empty.
pub open spec fn is_max_seq_len(s: Seq<QueryRange>, m: nat) -> bool {
    &&& forall|i: int| 0 <= i < s.len() ==> (#[trigger] s[i]).len() <= m
    &&& s.len() == 0 ==> m == 0
    &&& s.len() > 0 ==> exists|i: int| 0 <= i < s.len() && (#[trigger] s[i]).len() == m
}

/// `m` is the largest `att_len` among `s`, or zero if `s` is empty.
pub open spec fn is_max_att_len(s: Seq<QueryRange>, m: nat) -> bool {
    &&& forall|i: int| 0 <= i < s.len() ==> (#[trigger] s[i]).end <= m
    &&& s.len() == 0 ==> m == 0
    &&& s.len() > 0 ==> exists|i: int| 0 <= i < s.len() && (#[trigger] s[i]).end == m
}

/// Adding a range at the end adds its length to the total.
pub proof fn lemma_total_len_push(s: Seq<QueryRange>, q: QueryRange)
    ensures
        total_len(s.push(q)) == total_len(s) + q.len(),
{
    assert(s.push(q).drop_last() =~= s);
}

/// The total of a prefix never exceeds the total of the whole.
pub proof fn lemma_total_len_take(s: Seq<QueryRange>, i: int)
    requires
        0 <= i <= s.len(),
    ensures
        total_len(s.take(i)) <= total_len(s),
        i < s.len() ==> total_len(s.take(i + 1)) == total_len(s.take(i)) + s[i].len(),
    decreases s.len(),
{
    if i < s.len() {
        assert(s.take(i + 1).drop_last() =~= s.take(i));
        assert(s.drop_last().take(i) =~= s.take(i));
        lemma_total_len_take(s.drop_last(), i);
    } else {
        assert(s.take(i) =~= s);
    }
}

/// The totals of a batch.
#[derive(Clone, Copy, PartialEq, Eq, Debug)]
pub struct BatchShape {
    /// Number of rows in the concatenated batch.
    pub nt: usize,
    /// Longest run of new tokens of any request.
    pub max_seq_len: u32,
    /// Longest attention span of any request.
    pub max_att_len: u32,
}

impl BatchShape {
    /// Totals of the batch made of `ranges`, or `None` if the number of rows
    /// does not fit in `usize`.
    pub fn of(ranges: &[QueryRange]) -> (r: Option<BatchShape>)
        ensures
            r.is_some() <==> total_len(ranges@) <= usize::MAX,
            r matches Some(shape) ==> {
                &&& shape.nt == total_len(ranges@)
                &&& is_max_seq_len(ranges@, shape.max_seq_len as nat)
                &&& is_max_att_len(ranges@, shape.max_att_len as nat)
            },
    {
        let mut nt: usize = 0;
        let mut max_seq_len: u32 = 0;
        let mut max_att_len: u32 = 0;
        let mut i: usize = 0;
        while i < ranges.len()
            invariant
                0 <= i <= ranges@.len(),
                nt == total_len(ranges@.take(i as int)),
                is_max_seq_len(ranges@.take(i as int), max_seq_len as nat),
                is_max_att_len(ranges@.take(i as int), max_att_len as nat),
            decreases ranges@.len() - i,
        {
            let q = ranges[i];
            let seq = q.seq_len();
            let att = q.att_len();
            proof {
                lemma_total_len_take(ranges@, i as int);
                lemma_total_len_take(ranges@, i as int + 1);
            }
            let ghost before = ranges@.take(i as int);
            let ghost after = ranges@.take(i as int + 1);
            assert(after =~= before.push(q));
            match nt.checked_add(seq as usize) {
                Some(sum) => {
                    nt = sum;
                },
                None => {
                    return None;
                },
            }
            if seq > max_seq_len {
                max_seq_len = seq;
            }
            if att > max_att_len {
                max_att_len = att;
            }
            proof {
                assert forall|j: int| 0 <= j < after.len() implies (#[trigger] after[j]).len()
                    <= max_seq_len by {
                    if j < i {
                        assert(after[j] == before[j]);
                    }
                }
                assert forall|j: int| 0 <= j < after.len() implies (#[trigger] after[j]).end
                    <= max_att_len by {
                    if j < i {
                        assert(after[j] == before[j]);
                    }
                }
                if seq as nat == max_seq_len as nat {
                    assert(after[i as int].len() == max_seq_len);
                } else {
                    let k = choose|k: int| 0 <= k < before.len() && (#[trigger] before[k]).len()
                        == max_seq_len;
                    assert(after[k] == before[k]);
                }
                if att == max_att_len {
                    assert(after[i as int].end == max_att_len);
                } else {
                    let k = choose|k: int| 0 <= k < before.len() && (#[trigger] before[k]).end
                        == max_att_len;
                    assert(after[k] == before[k]);
                }
            }
            i += 1;
        }
        assert(ranges@.take(i as int) =~= ranges@);
        Some(BatchShape { nt, max_seq_len, max_att_len })
    }
}

/// The row of the batch at which each request starts: entry `i` is the
/// number of tokens contributed by the requests before `i`. Returns `None`
/// if the batch has more rows than fit in `usize`.
pub fn request_offsets(ranges: &[QueryRange]) -> (r: Option<Vec<usize>>)
    ensures
        r.is_some() <==> total_len(ranges@) <= usize::MAX,
        r matches Some(offsets) ==> {
            &&& offsets@.len() == ranges@.len()
            &&& forall|i: int|
                0 <= i < ranges@.len() ==> #[trigger] offsets@[i] == total_len(ranges@.take(i))
        },
{
    let mut offsets: Vec<usize> = Vec::new();
    let mut row: usize = 0;
    let mut i: usize = 0;
    while i < ranges.len()
        invariant
            0 <= i <= ranges@.len(),
            row == total_len(ranges@.take(i as int)),
            offsets@.len() == i,
            forall|j: int| 0 <= j < i ==> #[trigger] offsets@[j] == total_len(ranges@.take(j)),
        decreases ranges@.len() - i,
    {
        proof {
            lemma_total_len_take(ranges@, i as int);
            lemma_total_len_take(ranges@, i as int + 1);
        }
        offsets.push(row);
        match row.checked_add(ranges[i].seq_len() as usize) {
            Some(next) => {
                row = next;
            },
            None => {
                return None;
            },
        }
        i += 1;
    }
    assert(ranges@.take(i as int) =~= ranges@);
    Some(offsets)
}

/// The row of the batch that holds the `j`-th token of request `i`.
pub open spec fn row_of(s: Seq<QueryRange>, i: int, j: int) -> int {
    total_len(s.take(i)) + j
}

/// The absolute position of every row of the batch: the `j`-th token of
/// request `i` has position `start + j`. Returns `None` if the batch has
/// more rows than fit in `usize`.
pub fn positions(ranges: &[QueryRange]) -> (r: Option<Vec<u32>>)
    ensures
        r.is_some() <==> total_len(ranges@) <= usize::MAX,
        r matches Some(pos) ==> {
            &&& pos@.len() == total_len(ranges@)
            &&& forall|i: int, j: int|
                0 <= i < ranges@.len() && 0 <= j < ranges@[i].len() ==> {
                    let row = #[trigger] row_of(ranges@, i, j);
                    0 <= row < pos@.len() && pos@[row] == ranges@[i].start + j
                }
        },
{
    let mut pos: Vec<u32> = Vec::new();
    let mut i: usize = 0;
    while i < ranges.len()
        invariant
            0 <= i <= ranges@.len(),
            pos@.len() == total_len(ranges@.take(i as int)),
            forall|a: int, b: int|
                0 <= a < i && 0 <= b < ranges@[a].len() ==> {
                    let row = #[trigger] row_of(ranges@, a, b);
                    0 <= row < pos@.len() && pos@[row] == ranges@[a].start + b
                },
        decreases ranges@.len() - i,
    {
        let q = ranges[i];
        let n = q.seq_len();
        let rows = pos.len();
        let ghost base = rows as int;
        proof {
            lemma_total_len_take(ranges@, i as int);
            lemma_total_len_take(ranges@, i as int + 1);
        }
        if n as usize > usize::MAX - rows {
            return None;
        }
        let mut j: u32 = 0;
        while j < n
            invariant
                0 <= i < ranges@.len(),
                q == ranges@[i as int],
                n == q.len(),
                0 <= j <= n,
                base == total_len(ranges@.take(i as int)),
                base + n <= usize::MAX,
                pos@.len() == base + j,
                forall|a: int, b: int|
                    0 <= a < i && 0 <= b < ranges@[a].len() ==> {
                        let row = #[trigger] row_of(ranges@, a, b);
                        0 <= row < base && pos@[row] == ranges@[a].start + b
                    },
                forall|b: int| 0 <= b < j ==> #[trigger] pos@[base + b] == q.start + b,
            decreases n - j,
        {
            pos.push(q.start + j);
            j += 1;
        }
        proof {
            assert forall|a: int, b: int|
                0 <= a < i + 1 && 0 <= b < ranges@[a].len() implies {
                let row = #[trigger] row_of(ranges@, a, b);
                0 <= row < pos@.len() && pos@[row] == ranges@[a].start + b
            } by {
                if a == i {
                    assert(pos@[base + b] == q.start + b);
                }
            }
        }
        i += 1;
    }
    assert(ranges@.take(i as int) =~= ranges@);
    assert(pos@.len() == pos.len());
    Some(pos)
}

/// Whether every request forwards exactly one token, as in a step that
/// only continues sequences.
pub fn all_single_token(ranges: &[QueryRange]) -> (r: bool)
    ensures
        r == forall|i: int| 0 <= i < ranges@.len() ==> (#[trigger] ranges@[i]).len() == 1,
{
    let mut i: usize = 0;
    while i < ranges.len()
        invariant
            0 <= i <= ranges@.len(),
            forall|k: int| 0 <= k < i ==> (#[trigger] ranges@[k]).len() == 1,
        decreases ranges@.len() - i,
    {
        if ranges[i].seq_len() != 1 {
            return false;
        }
        i += 1;
    }
    true
}

} // verus!
