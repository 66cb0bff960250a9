use vstd::prelude::*;
use vstd::arithmetic::div_mod::{lemma_fundamental_div_mod, lemma_mod_pos_bound};

use crate::fir::{output_count, window_count};
use crate::vec_util::{append_all, tail_from};

verus! {

/// The input window that output `k` of a decimating filter is computed from.
pub open spec fn window<T>(input: Seq<T>, k: int, filter_len: int, decimation: int) -> Seq<T> {
    input.subrange(k * decimation, k * decimation + filter_len)
}

/// The input windows of all outputs of a decimating filter over `input`.
pub open spec fn windows<T>(input: Seq<T>, filter_len: int, decimation: int) -> Seq<Seq<T>> {
    Seq::new(
        window_count(input.len() as int, filter_len, decimation) as nat,
        |k: int| window(input, k, filter_len, decimation),
    )
}

/// The samples a stage filters in one call: its carried-over samples, then
/// the fresh ones, less the first `skip`, which fall between two windows.
pub open spec fn stage_input<T>(skip: nat, carry: Seq<T>, fresh: Seq<T>) -> Seq<T> {
    let all = carry + fresh;
    if skip >= all.len() {
        Seq::empty()
    } else {
        all.subrange(skip as int, all.len() as int)
    }
}

/// The skip count and the carried-over samples after a call: the samples
/// from where the next window starts, or, where that start lies beyond the
/// samples seen so far, how many samples the next call must pass over.
pub open spec fn stage_after<T>(
    filter_len: int,
    decimation: int,
    skip: nat,
    carry: Seq<T>,
    fresh: Seq<T>,
) -> (nat, Seq<T>) {
    let all = carry + fresh;
    if skip >= all.len() {
        ((skip - all.len()) as nat, Seq::empty())
    } else {
        let input = stage_input(skip, carry, fresh);
        let next = window_count(input.len() as int, filter_len, decimation) * decimation;
        if next <= input.len() {
            (0, input.subrange(next, input.len() as int))
        } else {
            ((next - input.len()) as nat, Seq::empty())
        }
    }
}

/// Output `k` exists exactly when its window fits in the `n` samples.
proof fn lemma_count_char(n: int, filter_len: int, decimation: int, k: int)
    requires
        n >= 0,
        filter_len >= 1,
        decimation >= 1,
        k >= 0,
    ensures
        window_count(n, filter_len, decimation) >= 0,
        (k < window_count(n, filter_len, decimation)) <==> (k * decimation + filter_len <= n),
{
    if n >= filter_len {
        let x = n - filter_len;
        let q = x / decimation;
        let r = x % decimation;
        lemma_fundamental_div_mod(x, decimation);
        lemma_mod_pos_bound(x, decimation);
        assert(q >= 0) by (nonlinear_arith)
            requires
                x == decimation * q + r,
                0 <= r < decimation,
                x >= 0,
        ;
        if k <= q {
            assert(k * decimation <= decimation * q) by (nonlinear_arith)
                requires
                    k <= q,
                    decimation >= 1,
            ;
        } else {
            assert(k * decimation >= decimation * q + decimation) by (nonlinear_arith)
                requires
                    k >= q + 1,
                    decimation >= 1,
            ;
        }
    } else {
        assert(k * decimation >= 0) by (nonlinear_arith)
            requires
                k >= 0,
                decimation >= 1,
        ;
    }
}

/// Counting the windows of `n` samples by first counting those within the
/// first `n1` samples, then those from where the next one starts.
proof fn lemma_count_split(n1: int, n: int, filter_len: int, decimation: int)
    requires
        0 <= n1 <= n,
        filter_len >= 1,
        decimation >= 1,
    ensures
        window_count(n1, filter_len, decimation) * decimation <= n ==> window_count(
            n,
            filter_len,
            decimation,
        ) == window_count(n1, filter_len, decimation) + window_count(
            n - window_count(n1, filter_len, decimation) * decimation,
            filter_len,
            decimation,
        ),
        window_count(n1, filter_len, decimation) * decimation > n ==> window_count(
            n,
            filter_len,
            decimation,
        ) == window_count(n1, filter_len, decimation),
{
    let c1 = window_count(n1, filter_len, decimation);
    let next1 = c1 * decimation;
    let x = window_count(n, filter_len, decimation);
    lemma_count_char(n1, filter_len, decimation, 0);
    lemma_count_char(n, filter_len, decimation, 0);
    let m = n - next1;
    let y = if next1 <= n {
        lemma_count_char(m, filter_len, decimation, 0);
        c1 + window_count(m, filter_len, decimation)
    } else {
        c1
    };
    if x != y {
        let k = if x < y {
            x
        } else {
            y
        };
        lemma_count_char(n, filter_len, decimation, k);
        lemma_count_char(n1, filter_len, decimation, k);
        if k < c1 {
        } else if next1 <= n {
            lemma_count_char(m, filter_len, decimation, k - c1);
            assert((k - c1) * decimation == k * decimation - next1) by (nonlinear_arith)
                requires
                    next1 == c1 * decimation,
            ;
        } else {
            assert(k * decimation >= next1) by (nonlinear_arith)
                requires
                    next1 == c1 * decimation,
                    k >= c1,
                    decimation >= 1,
            ;
        }
    }
}

/// The windows of `input` are those within its first `n1` samples, then
/// those from where the next window starts.
proof fn lemma_windows_split<T>(input: Seq<T>, n1: int, filter_len: int, decimation: int)
    requires
        0 <= n1 <= input.len(),
        filter_len >= 1,
        decimation >= 1,
    ensures
        window_count(n1, filter_len, decimation) * decimation <= input.len() ==> windows(
            input,
            filter_len,
            decimation,
        ) == windows(input.subrange(0, n1), filter_len, decimation) + windows(
            input.subrange(
                window_count(n1, filter_len, decimation) * decimation,
                input.len() as int,
            ),
            filter_len,
            decimation,
        ),
        window_count(n1, filter_len, decimation) * decimation > input.len() ==> windows(
            input,
            filter_len,
            decimation,
        ) == windows(input.subrange(0, n1), filter_len, decimation),
{
    let n = input.len() as int;
    let c1 = window_count(n1, filter_len, decimation);
    let next1 = c1 * decimation;
    let head = input.subrange(0, n1);
    lemma_count_split(n1, n, filter_len, decimation);
    lemma_count_char(n1, filter_len, decimation, 0);
    let w = windows(input, filter_len, decimation);
    let wh = windows(head, filter_len, decimation);
    assert forall|k: int| 0 <= k < c1 implies #[trigger] w[k] == wh[k] by {
        lemma_count_char(n1, filter_len, decimation, k);
        lemma_count_char(n, filter_len, decimation, k);
        assert(k * decimation >= 0) by (nonlinear_arith)
            requires
                k >= 0,
                decimation >= 1,
        ;
        assert(window(input, k, filter_len, decimation) =~= window(
            head,
            k,
            filter_len,
            decimation,
        ));
    }
    if next1 <= n {
        let tail = input.subrange(next1, n);
        let wt = windows(tail, filter_len, decimation);
        lemma_count_char(n - next1, filter_len, decimation, 0);
        assert forall|k: int| c1 <= k < w.len() implies #[trigger] w[k] == wt[k - c1] by {
            lemma_count_char(n, filter_len, decimation, k);
            lemma_count_char(n - next1, filter_len, decimation, k - c1);
            assert((k - c1) * decimation == k * decimation - next1) by (nonlinear_arith)
                requires
                    next1 == c1 * decimation,
            ;
            assert(window(input, k, filter_len, decimation) =~= window(
                tail,
                k - c1,
                filter_len,
                decimation,
            ));
        }
        assert(w =~= wh + wt);
    } else {
        assert(w =~= wh);
    }
}

/// Filtering a stream in two calls, `a` then `b`, hands out the same windows,
/// in the same order, and leaves the same state as one call on `a + b`.
pub proof fn lemma_stage_split<T>(
    filter_len: int,
    decimation: int,
    skip: nat,
    carry: Seq<T>,
    a: Seq<T>,
    b: Seq<T>,
)
    requires
        filter_len >= 1,
        decimation >= 1,
    ensures
        windows(stage_input(skip, carry, a + b), filter_len, decimation) == windows(
            stage_input(skip, carry, a),
            filter_len,
            decimation,
        ) + windows(
            stage_input(
                stage_after(filter_len, decimation, skip, carry, a).0,
                stage_after(filter_len, decimation, skip, carry, a).1,
                b,
            ),
            filter_len,
            decimation,
        ),
        stage_after(filter_len, decimation, skip, carry, a + b) == stage_after(
            filter_len,
            decimation,
            stage_after(filter_len, decimation, skip, carry, a).0,
            stage_after(filter_len, decimation, skip, carry, a).1,
            b,
        ),
{
    let aa = carry + a;
    let x = carry + (a + b);
    assert(x =~= aa + b);
    let s1 = stage_after(filter_len, decimation, skip, carry, a);
    let empty = Seq::<T>::empty();
    lemma_count_char(0, filter_len, decimation, 0);
    assert(windows(empty, filter_len, decimation) =~= Seq::<Seq<T>>::empty());
    let input = stage_input(skip, carry, a + b);
    let n = input.len() as int;
    let second = stage_input(s1.0, s1.1, b);
    if skip >= aa.len() {
        assert(s1.1 + b =~= b);
        assert(input =~= second);
        assert(windows(stage_input(skip, carry, a), filter_len, decimation) =~= Seq::<
            Seq<T>,
        >::empty());
        assert(windows(input, filter_len, decimation) =~= Seq::<Seq<T>>::empty() + windows(
            second,
            filter_len,
            decimation,
        ));
    } else {
        let first = stage_input(skip, carry, a);
        let n1 = first.len() as int;
        assert(first =~= input.subrange(0, n1));
        lemma_windows_split(input, n1, filter_len, decimation);
        lemma_count_split(n1, n, filter_len, decimation);
        lemma_count_char(n1, filter_len, decimation, 0);
        let c1 = window_count(n1, filter_len, decimation);
        let next1 = c1 * decimation;
        if next1 <= n {
            let rest = input.subrange(next1, n);
            if next1 <= n1 {
                assert(s1.1 + b =~= rest);
            } else {
                assert(s1.1 + b =~= b);
            }
            assert(second =~= rest);
            let m = n - next1;
            let c2 = window_count(m, filter_len, decimation);
            lemma_count_char(m, filter_len, decimation, 0);
            assert((c1 + c2) * decimation == next1 + c2 * decimation) by (nonlinear_arith)
                requires
                    next1 == c1 * decimation,
            ;
            let next = (c1 + c2) * decimation;
            if next <= n {
                assert(input.subrange(next, n) =~= rest.subrange(c2 * decimation, m));
            }
            if next1 == n {
                assert(rest =~= empty);
            }
        } else {
            assert(s1.1 + b =~= b);
            assert(second =~= empty);
            assert(windows(input, filter_len, decimation) =~= windows(
                first,
                filter_len,
                decimation,
            ) + Seq::<Seq<T>>::empty());
        }
    }
}

/// A cascade of stages, in order, each feeding its outputs to the next:
/// stage `i` has `filter_lens[i]` taps, decimates by `decimations[i]`,
/// computes each output from its input window by `kernels[i]`, and starts
/// from `states[i]` (skip count and carried-over samples). Gives the last
/// stage's outputs and the states after the call.
pub open spec fn cascade<T>(
    filter_lens: Seq<int>,
    decimations: Seq<int>,
    kernels: Seq<spec_fn(Seq<T>) -> T>,
    states: Seq<(nat, Seq<T>)>,
    fresh: Seq<T>,
) -> (Seq<T>, Seq<(nat, Seq<T>)>)
    decreases states.len(),
{
    if states.len() == 0 {
        (fresh, Seq::empty())
    } else {
        let input = stage_input(states[0].0, states[0].1, fresh);
        let out = windows(input, filter_lens[0], decimations[0]).map_values(kernels[0]);
        let after = stage_after(filter_lens[0], decimations[0], states[0].0, states[0].1, fresh);
        let rest = cascade(
            filter_lens.drop_first(),
            decimations.drop_first(),
            kernels.drop_first(),
            states.drop_first(),
            out,
        );
        (rest.0, seq![after] + rest.1)
    }
}

/// Running a cascade on a stream in two calls, `a` then `b`, gives the same
/// output samples, in order, and the same final states as one call on
/// `a + b`, whatever each stage computes from its input window.
pub proof fn lemma_cascade_split<T>(
    filter_lens: Seq<int>,
    decimations: Seq<int>,
    kernels: Seq<spec_fn(Seq<T>) -> T>,
    states: Seq<(nat, Seq<T>)>,
    a: Seq<T>,
    b: Seq<T>,
)
    requires
        filter_lens.len() == states.len(),
        decimations.len() == states.len(),
        kernels.len() == states.len(),
        forall|i: int| 0 <= i < states.len() ==> filter_lens[i] >= 1 && decimations[i] >= 1,
    ensures
        cascade(filter_lens, decimations, kernels, states, a + b).0 == cascade(
            filter_lens,
            decimations,
            kernels,
            states,
            a,
        ).0 + cascade(
            filter_lens,
            decimations,
            kernels,
            cascade(filter_lens, decimations, kernels, states, a).1,
            b,
        ).0,
        cascade(filter_lens, decimations, kernels, states, a + b).1 == cascade(
            filter_lens,
            decimations,
            kernels,
            cascade(filter_lens, decimations, kernels, states, a).1,
            b,
        ).1,
    decreases states.len(),
{
    if states.len() > 0 {
        let (len0, dec0, k0) = (filter_lens[0], decimations[0], kernels[0]);
        let (skip, carry) = (states[0].0, states[0].1);
        lemma_stage_split(len0, dec0, skip, carry, a, b);
        let after_a = stage_after(len0, dec0, skip, carry, a);
        let wa = windows(stage_input(skip, carry, a), len0, dec0);
        let wb = windows(stage_input(after_a.0, after_a.1, b), len0, dec0);
        let out_a = wa.map_values(k0);
        let out_b = wb.map_values(k0);
        assert((wa + wb).map_values(k0) =~= out_a + out_b);
        let (fl, ds, ks, rest) = (
            filter_lens.drop_first(),
            decimations.drop_first(),
            kernels.drop_first(),
            states.drop_first(),
        );
        assert forall|i: int| 0 <= i < rest.len() implies fl[i] >= 1 && ds[i] >= 1 by {
            assert(fl[i] == filter_lens[i + 1] && ds[i] == decimations[i + 1]);
        }
        lemma_cascade_split(fl, ds, ks, rest, out_a, out_b);
        let first = cascade(filter_lens, decimations, kernels, states, a);
        let r_a = cascade(fl, ds, ks, rest, out_a);
        assert(first.1 =~= seq![after_a] + r_a.1);
        assert(first.1[0] == after_a);
        assert(first.1.drop_first() =~= r_a.1);
    }
}

/// One stage of a decimating filter cascade, fed in pieces: the tap count
/// and decimation of its filter, how many samples the next call passes over,
/// and the samples carried over to the next call.
pub struct DecimatingStage<T> {
    pub filter_len: usize,
    pub decimation: usize,
    pub skip: usize,
    pub carry: Vec<T>,
}

impl<T: Copy> DecimatingStage<T> {
    /// The filter has taps and the stage moves forward; fewer samples are
    /// carried over than one window holds, and fewer are skipped than the
    /// decimation, so a carry-over buffer of `filter_len - 1` samples per
    /// stage always suffices.
    pub open spec fn wf(&self) -> bool {
        &&& self.filter_len >= 1
        &&& self.decimation >= 1
        &&& self.carry@.len() < self.filter_len
        &&& self.skip < self.decimation
    }

    /// A stage that has seen no samples yet.
    pub fn new(filter_len: usize, decimation: usize) -> (r: Self)
        requires
            filter_len >= 1,
            decimation >= 1,
        ensures
            r.wf(),
            r.filter_len == filter_len,
            r.decimation == decimation,
            r.skip == 0,
            r.carry@ == Seq::<T>::empty(),
    {
        DecimatingStage { filter_len, decimation, skip: 0, carry: Vec::new() }
    }

    /// Takes the next `fresh` samples of the stream. Returns the samples to
    /// filter and the number of outputs: output `k` is computed from the
    /// window of `filter_len` samples that starts at `k * decimation`.
    pub fn feed(&mut self, fresh: &Vec<T>) -> (r: (Vec<T>, usize))
        requires
            old(self).wf(),
            old(self).carry@.len() + fresh@.len() <= usize::MAX,
        ensures
            final(self).wf(),
            final(self).filter_len == old(self).filter_len,
            final(self).decimation == old(self).decimation,
            r.0@ == stage_input(old(self).skip as nat, old(self).carry@, fresh@),
            r.1 == window_count(
                r.0@.len() as int,
                old(self).filter_len as int,
                old(self).decimation as int,
            ),
            (final(self).skip as nat, final(self).carry@) == stage_after(
                old(self).filter_len as int,
                old(self).decimation as int,
                old(self).skip as nat,
                old(self).carry@,
                fresh@,
            ),
    {
        let mut all: Vec<T> = Vec::new();
        append_all(&mut all, &self.carry);
        append_all(&mut all, fresh);
        if self.skip >= all.len() {
            self.skip = self.skip - all.len();
            self.carry = Vec::new();
            let none: Vec<T> = Vec::new();
            proof {
                lemma_count_char(0, self.filter_len as int, self.decimation as int, 0);
            }
            return (none, 0);
        }
        let input = tail_from(&all, self.skip);
        let n = input.len();
        let count = output_count(n, self.filter_len, self.decimation);
        proof {
            lemma_count_char(n as int, self.filter_len as int, self.decimation as int, count as int);
            lemma_count_char(n as int, self.filter_len as int, self.decimation as int, 0);
        }
        if count == 0 {
            self.skip = 0;
            self.carry = tail_from(&input, 0);
            assert(self.carry@ =~= input@);
        } else {
            let dec = self.decimation;
            proof {
                let x = n - self.filter_len;
                lemma_fundamental_div_mod(x, dec as int);
                lemma_mod_pos_bound(x, dec as int);
                assert((count - 1) * dec == dec * (x / dec as int)) by (nonlinear_arith)
                    requires
                        count == x / dec as int + 1,
                ;
                assert(count * dec == (count - 1) * dec + dec) by (nonlinear_arith);
            }
            let last_start = (count - 1) * dec;
            let rest = n - last_start;
            if rest >= dec {
                self.skip = 0;
                self.carry = tail_from(&input, last_start + dec);
            } else {
                self.skip = dec - rest;
                self.carry = Vec::new();
            }
        }
        (input, count)
    }
}

} // verus!
