use vstd::prelude::*;

verus! {

/// How many full windows of `filter_len` samples, started every `decimation`
/// samples from the first, fit in `len` samples: the number of outputs a
/// decimating filter produces.
pub open spec fn window_count(len: int, filter_len: int, decimation: int) -> int {
    if len >= filter_len {
        (len - filter_len) / decimation + 1
    } else {
        0
    }
}

/// The samples from where the next window would start to the end: what a
/// streaming filter must carry over to its next call.
pub open spec fn leftover_len(len: int, filter_len: int, decimation: int) -> int {
    let next = window_count(len, filter_len, decimation) * decimation;
    if len > next {
        len - next
    } else {
        0
    }
}

/// Number of outputs of a filter of `filter_len` taps, decimating by
/// `decimation`, over `len` input samples.
pub fn output_count(len: usize, filter_len: usize, decimation: usize) -> (r: usize)
    requires
        filter_len >= 1,
        decimation >= 1,
    ensures
        r == window_count(len as int, filter_len as int, decimation as int),
        r * decimation <= len + decimation,
{
    if len >= filter_len {
        let r = (len - filter_len) / decimation + 1;
        assert(((len - filter_len) / decimation as int) * decimation <= len - filter_len)
            by (nonlinear_arith)
            requires
                len >= filter_len,
                decimation >= 1,
        ;
        assert(r * decimation == ((len - filter_len) / decimation as int) * decimation
            + decimation) by (nonlinear_arith)
            requires
                r == (len - filter_len) / decimation as int + 1,
        ;
        r
    } else {
        0
    }
}

/// Number of trailing input samples that a filter of `filter_len` taps,
/// decimating by `decimation`, leaves unused over `len` samples. It is less
/// than `filter_len`, so a carry-over of `filter_len - 1` samples holds it.
pub fn leftover_count(len: usize, filter_len: usize, decimation: usize) -> (r: usize)
    requires
        filter_len >= 1,
        decimation >= 1,
    ensures
        r == leftover_len(len as int, filter_len as int, decimation as int),
        r < filter_len,
        r <= len,
{
    if len < filter_len {
        return len;
    }
    let q = (len - filter_len) / decimation;
    assert(q * decimation <= len - filter_len < (q + 1) * decimation) by (nonlinear_arith)
        requires
            q == (len - filter_len) / decimation as int,
            decimation >= 1,
            len >= filter_len,
    ;
    assert((q + 1) * decimation == q * decimation + decimation) by (nonlinear_arith);
    // the last window starts at `q * decimation`, the next one would start
    // `decimation` samples later
    let last_start = q * decimation;
    let tail = len - last_start;
    if tail > decimation {
        tail - decimation
    } else {
        0
    }
}

/// Sum of `filter_len - 1` over the stages before `n`.
pub open spec fn carry_prefix(filter_lens: Seq<usize>, n: int) -> int
    decreases n,
{
    if n <= 0 {
        0
    } else {
        carry_prefix(filter_lens, n - 1) + filter_lens[n - 1] - 1
    }
}

/// Largest `filter_len - 1` over the stages before `n`, or 0.
pub open spec fn carry_max(filter_lens: Seq<usize>, n: int) -> int
    decreases n,
{
    if n <= 0 {
        0
    } else if filter_lens[n - 1] - 1 > carry_max(filter_lens, n - 1) {
        filter_lens[n - 1] - 1
    } else {
        carry_max(filter_lens, n - 1)
    }
}

/// How a cascade of filters shares one carry-over buffer: each stage owns
/// `filter_len - 1` samples of it, laid out in stage order, and a caller's
/// buffer must reserve room in front of the fresh samples for the largest
/// carry-over of any stage.
pub struct CarryLayout {
    pub offsets: Vec<usize>,
    pub total: usize,
    pub min_buffer_reserve: usize,
}

/// Lays out the carry-over buffer of a cascade whose stages have the given
/// tap counts.
pub fn carry_layout(filter_lens: &Vec<usize>) -> (r: CarryLayout)
    requires
        forall|i: int| 0 <= i < filter_lens@.len() ==> filter_lens@[i] >= 1,
        carry_prefix(filter_lens@, filter_lens@.len() as int) <= usize::MAX,
    ensures
        r.offsets@.len() == filter_lens@.len(),
        forall|i: int|
            0 <= i < filter_lens@.len() ==> r.offsets@[i] == carry_prefix(filter_lens@, i),
        r.total == carry_prefix(filter_lens@, filter_lens@.len() as int),
        r.min_buffer_reserve == carry_max(filter_lens@, filter_lens@.len() as int),
{
    let mut offsets: Vec<usize> = Vec::new();
    let mut total: usize = 0;
    let mut reserve: usize = 0;
    let mut i: usize = 0;
    proof {
        lemma_carry_prefix_mono(filter_lens@, 0, filter_lens@.len() as int);
    }
    while i < filter_lens.len()
        invariant
            i <= filter_lens@.len(),
            forall|j: int| 0 <= j < filter_lens@.len() ==> filter_lens@[j] >= 1,
            carry_prefix(filter_lens@, filter_lens@.len() as int) <= usize::MAX,
            offsets@.len() == i,
            forall|j: int| 0 <= j < i ==> offsets@[j] == carry_prefix(filter_lens@, j),
            total == carry_prefix(filter_lens@, i as int),
            reserve == carry_max(filter_lens@, i as int),
        decreases filter_lens@.len() - i,
    {
        proof {
            lemma_carry_prefix_mono(filter_lens@, i + 1, filter_lens@.len() as int);
        }
        offsets.push(total);
        let side = filter_lens[i] - 1;
        total = total + side;
        if side > reserve {
            reserve = side;
        }
        i += 1;
    }
    CarryLayout { offsets, total, min_buffer_reserve: reserve }
}

proof fn lemma_carry_prefix_mono(filter_lens: Seq<usize>, a: int, b: int)
    requires
        0 <= a <= b <= filter_lens.len(),
        forall|i: int| 0 <= i < filter_lens.len() ==> filter_lens[i] >= 1,
    ensures
        carry_prefix(filter_lens, a) <= carry_prefix(filter_lens, b),
    decreases b - a,
{
    if a < b {
        lemma_carry_prefix_mono(filter_lens, a, b - 1);
    }
}

} // verus!
