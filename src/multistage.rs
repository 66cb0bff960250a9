use vstd::prelude::*;

verus! {

/// Largest factor of a single cheap stage.
pub const MAX_STAGE_FACTOR: u32 = 256;

/// `2` to the power `k`.
pub open spec fn pow2(k: nat) -> nat
    decreases k,
{
    if k == 0 {
        1
    } else {
        2 * pow2((k - 1) as nat)
    }
}

/// `n` is a power of two.
pub open spec fn is_pow2(n: int) -> bool {
    exists|k: nat| pow2(k) == n
}

/// The product of the stage factors.
pub open spec fn product(s: Seq<u32>) -> int
    decreases s.len(),
{
    if s.len() == 0 {
        1
    } else {
        product(s.drop_last()) * s.last()
    }
}

/// The stages of a cascade whose total decimation is the largest power of
/// two below `target`: as many stages of 256 as fit, then at most one smaller
/// power-of-two stage. A `target` of 2 or less needs no stage.
pub open spec fn stage_plan_ok(target: u32, stages: Seq<u32>, total: u32) -> bool {
    &&& total == product(stages)
    &&& is_pow2(total as int)
    &&& (target <= 2 ==> total == 1 && stages.len() == 0)
    &&& (target > 2 ==> total < target <= 2 * total)
    &&& forall|i: int|
        0 <= i < stages.len() ==> 2 <= stages[i] <= MAX_STAGE_FACTOR && is_pow2(
            stages[i] as int,
        )
    &&& forall|i: int| 0 <= i < stages.len() - 1 ==> stages[i] == MAX_STAGE_FACTOR
}

proof fn lemma_product_push(s: Seq<u32>, f: u32)
    ensures
        product(s.push(f)) == product(s) * f,
{
    assert(s.push(f).drop_last() =~= s);
}

proof fn lemma_pow2_double(k: nat)
    ensures
        pow2(k + 1) == 2 * pow2(k),
{
    assert(pow2(k + 1) == 2 * pow2(((k + 1) - 1) as nat));
}

proof fn lemma_pow2_mul(a: nat, b: nat)
    ensures
        pow2(a + b) == pow2(a) * pow2(b),
    decreases b,
{
    if b > 0 {
        let b1 = (b - 1) as nat;
        lemma_pow2_mul(a, b1);
        assert(pow2(a + b) == 2 * pow2(a + b1));
        assert(pow2(b) == 2 * pow2(b1));
        let x = pow2(a);
        let y = pow2(b1);
        assert(x * (2 * y) == 2 * (x * y)) by (nonlinear_arith);
        assert(pow2(a + b1) == x * y);
        assert(pow2(a + b) == x * pow2(b));
    } else {
        assert(pow2(b) == 1);
        assert(a + b == a);
    }
}

proof fn lemma_pow2_le(a: nat, b: nat)
    requires
        a <= b,
    ensures
        pow2(a) <= pow2(b),
    decreases b,
{
    if a < b {
        lemma_pow2_le(a, (b - 1) as nat);
        assert(pow2(b) == 2 * pow2((b - 1) as nat));
    }
}

proof fn lemma_pow2_small()
    ensures
        pow2(7) == 128,
        pow2(8) == 256,
{
    reveal_with_fuel(pow2, 9);
}

/// Splits a decimation by `decimation_factor` into cheap power-of-two
/// stages. Returns the stage factors, in the order they are applied, and
/// their product, the decimation that the stages achieve.
pub fn plan_stages(decimation_factor: u32) -> (r: (Vec<u32>, u32))
    ensures
        stage_plan_ok(decimation_factor, r.0@, r.1),
{
    let mut stages: Vec<u32> = Vec::new();
    let mut current: u32 = 1;
    let ghost mut k: nat = 0;
    proof {
        lemma_pow2_small();
        assert(pow2(0) == 1);
    }
    if decimation_factor <= 2 {
        assert(stages@.len() == 0);
        assert(is_pow2(1)) by {
            assert(pow2(0) == 1);
        }
        return (stages, current);
    }
    while current <= (decimation_factor - 1) / MAX_STAGE_FACTOR
        invariant
            decimation_factor > 2,
            current == product(stages@),
            current == pow2(k),
            current >= 1,
            current < decimation_factor,
            pow2(8) == 256,
            forall|i: int| 0 <= i < stages@.len() ==> stages@[i] == MAX_STAGE_FACTOR,
        decreases decimation_factor - current,
    {
        proof {
            lemma_product_push(stages@, MAX_STAGE_FACTOR);
            lemma_pow2_mul(k, 8);
        }
        current = current * MAX_STAGE_FACTOR;
        stages.push(MAX_STAGE_FACTOR);
        proof {
            k = k + 8;
        }
    }
    // current * 256 >= decimation_factor from here on
    let mut last: u32 = 1;
    let ghost mut m: nat = 0;
    while current <= (decimation_factor - 1) / (2 * last)
        invariant
            decimation_factor > 2,
            current == product(stages@),
            current == pow2(k),
            last == pow2(m),
            last >= 1,
            last <= 128,
            m <= 7,
            pow2(7) == 128,
            current >= 1,
            current * last < decimation_factor,
            current * 256 >= decimation_factor,
            pow2(8) == 256,
            forall|i: int| 0 <= i < stages@.len() ==> stages@[i] == MAX_STAGE_FACTOR,
        decreases 256 - last,
    {
        proof {
            lemma_pow2_double(m);
            assert(current * (2 * last) < decimation_factor) by (nonlinear_arith)
                requires
                    current <= (decimation_factor - 1) / (2 * last),
                    last >= 1,
            ;
            if m == 7 {
                assert(2 * last == 256);
                assert(false);
            }
            lemma_pow2_le(m + 1, 7);
        }
        last = 2 * last;
        proof {
            m = m + 1;
        }
    }
    proof {
        assert(current * (2 * last) >= decimation_factor) by (nonlinear_arith)
            requires
                current > (decimation_factor - 1) / (2 * last),
                last >= 1,
        ;
        lemma_pow2_mul(k, m);
        assert(current * (2 * last) == 2 * (current * last)) by (nonlinear_arith);
        assert(current * 1 == current);
    }
    let ghost before = stages@;
    if last > 1 {
        proof {
            lemma_product_push(stages@, last);
            assert(is_pow2(last as int));
        }
        stages.push(last);
        current = current * last;
        assert(stages@ == before.push(last));
    }
    proof {
        assert(is_pow2(current as int)) by {
            if last > 1 {
                assert(pow2(k + m) == current);
            } else {
                assert(pow2(k) == current);
            }
        }
        assert forall|i: int| 0 <= i < stages@.len() implies 2 <= stages@[i] <= MAX_STAGE_FACTOR
            && is_pow2(stages@[i] as int) by {
            if i < before.len() {
                assert(stages@[i] == before[i]);
                assert(pow2(8) == stages@[i]);
            } else {
                assert(stages@[i] == last);
                assert(pow2(m) == stages@[i]);
            }
        }
    }
    (stages, current)
}

/// Rounds a tap-count estimate up to the next odd number, so that the filter
/// has a centre tap.
pub fn odd_tap_count(estimate: usize) -> (r: usize)
    ensures
        r % 2 == 1,
        r == if estimate % 2 == 0 {
            estimate + 1
        } else {
            estimate as int
        },
{
    if estimate % 2 == 0 {
        estimate + 1
    } else {
        estimate
    }
}

/// The position of the first cache entry filed under `key`, if any.
pub fn cache_position<F>(cache: &Vec<(u32, F)>, key: u32) -> (r: Option<usize>)
    ensures
        r.is_none() ==> forall|i: int| 0 <= i < cache@.len() ==> cache@[i].0 != key,
        r.is_some() ==> r.unwrap() < cache@.len() && cache@[r.unwrap() as int].0 == key
            && forall|i: int| 0 <= i < r.unwrap() ==> cache@[i].0 != key,
{
    let mut i: usize = 0;
    while i < cache.len()
        invariant
            i <= cache@.len(),
            forall|j: int| 0 <= j < i ==> cache@[j].0 != key,
        decreases cache@.len() - i,
    {
        if cache[i].0 == key {
            return Some(i);
        }
        i += 1;
    }
    None
}

} // verus!
