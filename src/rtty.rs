use vstd::prelude::*;

use crate::baudot::{baudot_step, decode_baudot};
use crate::vec_util::{append_all, push_char, tail_from};

verus! {

/// Sample counts that frame one RTTY character in the bitstream: a start
/// bit and five data bits of `samples_per_symbol` each, then a stop window of
/// `samples_per_stop_bit`. Data bits are sampled `half_samples_per_symbol`
/// into their symbol.
#[derive(Clone, Copy, Debug, PartialEq, Eq, Structural)]
pub struct SymbolTiming {
    pub samples_per_symbol: usize,
    pub half_samples_per_symbol: usize,
    pub samples_per_stop_bit: usize,
}

impl SymbolTiming {
    /// A symbol spans at least one sample, the mid-symbol offset stays inside
    /// the symbol, and a whole frame length fits in `usize`.
    pub open spec fn valid(self) -> bool {
        &&& self.samples_per_symbol >= 1
        &&& self.half_samples_per_symbol < self.samples_per_symbol
        &&& 6 * self.samples_per_symbol + self.samples_per_stop_bit <= usize::MAX
    }

    /// Offset of the stop window from the start bit.
    pub open spec fn stop_offset(self) -> nat {
        (6 * self.samples_per_symbol) as nat
    }

    /// Length from the start bit to the end of the stop window.
    pub open spec fn frame_len(self) -> nat {
        (6 * self.samples_per_symbol + self.samples_per_stop_bit) as nat
    }

    /// Offset of the first data bit's sampling point from the start bit.
    pub open spec fn first_data_offset(self) -> nat {
        (self.samples_per_symbol + self.half_samples_per_symbol) as nat
    }

    /// How far the scan moves past the start bit of a decoded character.
    pub open spec fn char_advance(self) -> nat {
        (6 * self.samples_per_symbol + self.half_samples_per_symbol) as nat
    }

    /// Builds a timing, or `None` where the counts are not `valid`.
    pub fn new(
        samples_per_symbol: usize,
        half_samples_per_symbol: usize,
        samples_per_stop_bit: usize,
    ) -> (r: Option<Self>)
        ensures
            r.is_some() <==> (SymbolTiming {
                samples_per_symbol,
                half_samples_per_symbol,
                samples_per_stop_bit,
            }).valid(),
            r.is_some() ==> r.unwrap() == (SymbolTiming {
                samples_per_symbol,
                half_samples_per_symbol,
                samples_per_stop_bit,
            }),
    {
        if samples_per_symbol >= 1 && half_samples_per_symbol < samples_per_symbol
            && samples_per_symbol <= (usize::MAX - samples_per_stop_bit) / 6 {
            Some(SymbolTiming { samples_per_symbol, half_samples_per_symbol, samples_per_stop_bit })
        } else {
            None
        }
    }
}

/// Every bit of `bits[start .. start + len]` is `false`.
pub open spec fn stop_window_clear(bits: Seq<bool>, start: int, len: int) -> bool {
    forall|i: int| start <= i < start + len ==> !bits[i]
}

/// A data bit reads as 1 where the stream holds `false`: the demodulated
/// polarity is inverted.
pub open spec fn data_bit(bits: Seq<bool>, at: int) -> int {
    if bits[at] {
        0
    } else {
        1
    }
}

/// The 5-bit code sampled at `first` and every `step` after it, least
/// significant bit first.
pub open spec fn char_code(bits: Seq<bool>, first: int, step: int) -> u8 {
    (data_bit(bits, first) + 2 * data_bit(bits, first + step) + 4 * data_bit(bits, first + 2 * step)
        + 8 * data_bit(bits, first + 3 * step) + 16 * data_bit(bits, first + 4 * step)) as u8
}

/// The characters a lookup emits: one or none.
pub open spec fn emitted(c: Option<char>) -> Seq<char> {
    match c {
        Some(ch) => seq![ch],
        None => Seq::empty(),
    }
}

/// Decoding `bits` from position `pos` under shift state `letters`: the text
/// decoded, the position where decoding stopped, and the final shift state.
///
/// The scan seeks a `true` start bit. If the frame from there does not fit in
/// the bits, decoding stops at the start bit so that it can be retried once
/// more bits arrive. If the stop window holds a `true` bit, the whole frame is
/// skipped. Otherwise the five data bits are looked up and the scan goes on
/// past the character. Running out of bits while seeking consumes them all.
pub open spec fn decode_from(bits: Seq<bool>, t: SymbolTiming, pos: nat, letters: bool) -> (
    Seq<char>,
    nat,
    bool,
)
    decreases bits.len() - pos,
{
    if !t.valid() || pos >= bits.len() {
        (Seq::empty(), bits.len(), letters)
    } else if !bits[pos as int] {
        decode_from(bits, t, pos + 1, letters)
    } else if pos + t.frame_len() > bits.len() {
        (Seq::empty(), pos, letters)
    } else if !stop_window_clear(bits, (pos + t.stop_offset()) as int, t.samples_per_stop_bit as int) {
        decode_from(bits, t, pos + t.frame_len(), letters)
    } else {
        let step = baudot_step(
            char_code(bits, (pos + t.first_data_offset()) as int, t.samples_per_symbol as int),
            letters,
        );
        let next = if pos + t.char_advance() <= bits.len() {
            pos + t.char_advance()
        } else {
            bits.len()
        };
        let rest = decode_from(bits, t, next, step.1);
        (emitted(step.0) + rest.0, rest.1, rest.2)
    }
}

fn read_code(bits: &Vec<bool>, first: usize, step: usize) -> (code: u8)
    requires
        first + 4 * step < bits@.len(),
    ensures
        code == char_code(bits@, first as int, step as int),
        code < 32,
{
    let n = bits.len();
    let b0: u8 = if bits[first] { 0 } else { 1 };
    let b1: u8 = if bits[first + step] { 0 } else { 1 };
    let b2: u8 = if bits[first + 2 * step] { 0 } else { 1 };
    let b3: u8 = if bits[first + 3 * step] { 0 } else { 1 };
    let b4: u8 = if bits[first + 4 * step] { 0 } else { 1 };
    b0 + 2 * b1 + 4 * b2 + 8 * b3 + 16 * b4
}

fn window_clear(bits: &Vec<bool>, start: usize, len: usize) -> (r: bool)
    requires
        start + len <= bits@.len(),
    ensures
        r == stop_window_clear(bits@, start as int, len as int),
{
    let n = bits.len();
    let mut i: usize = start;
    while i < start + len
        invariant
            start <= i <= start + len,
            start + len <= n == bits@.len(),
            stop_window_clear(bits@, start as int, i - start),
        decreases start + len - i,
    {
        if bits[i] {
            return false;
        }
        i += 1;
    }
    true
}

/// Decodes the framed Baudot characters of `bits` under the shift state
/// `letters`, which it updates. Returns the text and the number of leading
/// bits consumed; the bits after that are an unfinished frame that a later
/// call must see again, in front of the bits that follow them.
pub fn decode_bits(bits: &Vec<bool>, timing: SymbolTiming, letters: &mut bool) -> (r: (
    String,
    usize,
))
    requires
        timing.valid(),
    ensures
        r.0@ == decode_from(bits@, timing, 0, *old(letters)).0,
        r.1 == decode_from(bits@, timing, 0, *old(letters)).1,
        *final(letters) == decode_from(bits@, timing, 0, *old(letters)).2,
        r.1 <= bits@.len(),
{
    let ghost whole = decode_from(bits@, timing, 0, *old(letters));
    let n = bits.len();
    let sps = timing.samples_per_symbol;
    let frame = 6 * sps + timing.samples_per_stop_bit;
    let mut out = String::new();
    let mut pos: usize = 0;
    loop
        invariant
            n == bits@.len(),
            timing.valid(),
            sps == timing.samples_per_symbol,
            frame == timing.frame_len(),
            pos <= n,
            whole == decode_from(bits@, timing, 0, *old(letters)),
            whole == (
                out@ + decode_from(bits@, timing, pos as nat, *letters).0,
                decode_from(bits@, timing, pos as nat, *letters).1,
                decode_from(bits@, timing, pos as nat, *letters).2,
            ),
        decreases n - pos,
    {
        if pos >= n {
            assert(out@ + Seq::<char>::empty() =~= out@);
            return (out, n);
        }
        if !bits[pos] {
            pos += 1;
            continue;
        }
        if frame > n - pos {
            assert(out@ + Seq::<char>::empty() =~= out@);
            return (out, pos);
        }
        if !window_clear(bits, pos + 6 * sps, timing.samples_per_stop_bit) {
            pos += frame;
            continue;
        }
        let ghost before = out@;
        let ghost l0 = *letters;
        let code = read_code(bits, pos + sps + timing.half_samples_per_symbol, sps);
        let c = decode_baudot(code, letters);
        if let Some(ch) = c {
            push_char(&mut out, ch);
        }
        assert(out@ =~= before + emitted(c));
        if timing.half_samples_per_symbol <= n - pos - 6 * sps {
            pos += 6 * sps + timing.half_samples_per_symbol;
        } else {
            pos = n;
        }
        assert(out@ + decode_from(bits@, timing, pos as nat, *letters).0 =~= before + (emitted(c)
            + decode_from(bits@, timing, pos as nat, *letters).0));
    }
}

/// What one decode call on the carried-over bits followed by `bits` gives:
/// the text, the shift state after it, and the bits that are carried over to
/// the next call.
pub open spec fn feed(t: SymbolTiming, letters: bool, leftover: Seq<bool>, bits: Seq<bool>) -> (
    Seq<char>,
    bool,
    Seq<bool>,
) {
    let all = leftover + bits;
    let d = decode_from(all, t, 0, letters);
    (d.0, d.2, all.subrange(d.1 as int, all.len() as int))
}

/// Where decoding stops lies within the bits.
pub proof fn lemma_decode_end_in_bounds(bits: Seq<bool>, t: SymbolTiming, pos: nat, letters: bool)
    ensures
        decode_from(bits, t, pos, letters).1 <= bits.len(),
    decreases bits.len() - pos,
{
    if !t.valid() || pos >= bits.len() {
    } else if !bits[pos as int] {
        lemma_decode_end_in_bounds(bits, t, pos + 1, letters);
    } else if pos + t.frame_len() > bits.len() {
    } else if !stop_window_clear(bits, (pos + t.stop_offset()) as int, t.samples_per_stop_bit as int) {
        lemma_decode_end_in_bounds(bits, t, pos + t.frame_len(), letters);
    } else {
        let step = baudot_step(
            char_code(bits, (pos + t.first_data_offset()) as int, t.samples_per_symbol as int),
            letters,
        );
        let next = if pos + t.char_advance() <= bits.len() {
            pos + t.char_advance()
        } else {
            bits.len()
        };
        lemma_decode_end_in_bounds(bits, t, next, step.1);
    }
}

/// Bits appended after `a` do not change how `a` decodes up to where its
/// decoding stopped: decoding `a + b` gives that text, then goes on from
/// there. This needs the scan never to jump past the end of a frame, which
/// holds when the mid-symbol offset is no longer than the stop window.
pub proof fn lemma_decode_append(
    a: Seq<bool>,
    b: Seq<bool>,
    t: SymbolTiming,
    pos: nat,
    letters: bool,
)
    requires
        t.valid(),
        t.half_samples_per_symbol <= t.samples_per_stop_bit,
        pos <= a.len(),
    ensures
        decode_from(a + b, t, pos, letters) == (
            decode_from(a, t, pos, letters).0 + decode_from(
                a + b,
                t,
                decode_from(a, t, pos, letters).1,
                decode_from(a, t, pos, letters).2,
            ).0,
            decode_from(
                a + b,
                t,
                decode_from(a, t, pos, letters).1,
                decode_from(a, t, pos, letters).2,
            ).1,
            decode_from(
                a + b,
                t,
                decode_from(a, t, pos, letters).1,
                decode_from(a, t, pos, letters).2,
            ).2,
        ),
    decreases a.len() - pos,
{
    let ab = a + b;
    let d = decode_from(a, t, pos, letters);
    if pos >= a.len() {
        assert(Seq::<char>::empty() + decode_from(ab, t, pos, letters).0 =~= decode_from(
            ab,
            t,
            pos,
            letters,
        ).0);
    } else {
        assert(ab[pos as int] == a[pos as int]);
        if !a[pos as int] {
            lemma_decode_append(a, b, t, pos + 1, letters);
        } else if pos + t.frame_len() > a.len() {
            assert(Seq::<char>::empty() + decode_from(ab, t, pos, letters).0 =~= decode_from(
                ab,
                t,
                pos,
                letters,
            ).0);
        } else {
            let start = (pos + t.stop_offset()) as int;
            let len = t.samples_per_stop_bit as int;
            assert forall|i: int| start <= i < start + len implies ab[i] == a[i] by {}
            assert(stop_window_clear(ab, start, len) == stop_window_clear(a, start, len));
            if !stop_window_clear(a, start, len) {
                lemma_decode_append(a, b, t, pos + t.frame_len(), letters);
            } else {
                let first = (pos + t.first_data_offset()) as int;
                let sps = t.samples_per_symbol as int;
                assert(ab[first] == a[first]);
                assert(ab[first + sps] == a[first + sps]);
                assert(ab[first + 2 * sps] == a[first + 2 * sps]);
                assert(ab[first + 3 * sps] == a[first + 3 * sps]);
                assert(ab[first + 4 * sps] == a[first + 4 * sps]);
                assert(char_code(ab, first, sps) == char_code(a, first, sps));
                let step = baudot_step(char_code(a, first, sps), letters);
                let next = pos + t.char_advance();
                lemma_decode_append(a, b, t, next, step.1);
                let rest = decode_from(a, t, next, step.1);
                let e = decode_from(ab, t, rest.1, rest.2);
                assert(emitted(step.0) + rest.0 + e.0 =~= emitted(step.0) + (rest.0 + e.0));
            }
        }
    }
}

/// Decoding from position `j + pos` of `s` is decoding `s` without its first
/// `j` bits from `pos`, with the stopping position moved by `j`.
pub proof fn lemma_decode_skip(s: Seq<bool>, t: SymbolTiming, j: nat, pos: nat, letters: bool)
    requires
        j <= s.len(),
    ensures
        decode_from(s, t, j + pos, letters) == (
            decode_from(s.subrange(j as int, s.len() as int), t, pos, letters).0,
            decode_from(s.subrange(j as int, s.len() as int), t, pos, letters).1 + j,
            decode_from(s.subrange(j as int, s.len() as int), t, pos, letters).2,
        ),
    decreases s.len() - (j + pos),
{
    let u = s.subrange(j as int, s.len() as int);
    if !t.valid() || j + pos >= s.len() {
    } else {
        assert(u[pos as int] == s[(j + pos) as int]);
        if !s[(j + pos) as int] {
            lemma_decode_skip(s, t, j, pos + 1, letters);
        } else if j + pos + t.frame_len() > s.len() {
        } else {
            let start = (pos + t.stop_offset()) as int;
            let len = t.samples_per_stop_bit as int;
            assert forall|i: int| start <= i < start + len implies u[i] == s[j + i] by {}
            assert(stop_window_clear(u, start, len) == stop_window_clear(s, j + start, len)) by {
                if stop_window_clear(u, start, len) {
                    assert forall|i: int| j + start <= i < j + start + len implies !s[i] by {
                        assert(u[i - j] == s[i]);
                    }
                }
                if stop_window_clear(s, j + start, len) {
                    assert forall|i: int| start <= i < start + len implies !u[i] by {
                        assert(u[i] == s[j + i]);
                    }
                }
            }
            if !stop_window_clear(u, start, len) {
                assert(j + (pos + t.frame_len()) == j + pos + t.frame_len());
                lemma_decode_skip(s, t, j, pos + t.frame_len(), letters);
            } else {
                let first = (pos + t.first_data_offset()) as int;
                let sps = t.samples_per_symbol as int;
                assert(u[first] == s[j + first]);
                assert(u[first + sps] == s[j + first + sps]);
                assert(u[first + 2 * sps] == s[j + first + 2 * sps]);
                assert(u[first + 3 * sps] == s[j + first + 3 * sps]);
                assert(u[first + 4 * sps] == s[j + first + 4 * sps]);
                assert(char_code(u, first, sps) == char_code(s, j + first, sps));
                let step = baudot_step(char_code(u, first, sps), letters);
                let next = if pos + t.char_advance() <= u.len() {
                    pos + t.char_advance()
                } else {
                    u.len()
                };
                lemma_decode_skip(s, t, j, next, step.1);
            }
        }
    }
}

/// Feeding a decoder `a` and then `b` gives the same text, shift state and
/// carried-over bits as feeding it `a + b` at once, provided that the
/// mid-symbol offset is no longer than the stop window.
pub proof fn lemma_feed_split(
    t: SymbolTiming,
    letters: bool,
    leftover: Seq<bool>,
    a: Seq<bool>,
    b: Seq<bool>,
)
    requires
        t.valid(),
        t.half_samples_per_symbol <= t.samples_per_stop_bit,
    ensures
        feed(t, letters, leftover, a + b).0 == feed(t, letters, leftover, a).0 + feed(
            t,
            feed(t, letters, leftover, a).1,
            feed(t, letters, leftover, a).2,
            b,
        ).0,
        feed(t, letters, leftover, a + b).1 == feed(
            t,
            feed(t, letters, leftover, a).1,
            feed(t, letters, leftover, a).2,
            b,
        ).1,
        feed(t, letters, leftover, a + b).2 == feed(
            t,
            feed(t, letters, leftover, a).1,
            feed(t, letters, leftover, a).2,
            b,
        ).2,
{
    let all = leftover + a;
    let big = all + b;
    assert(leftover + (a + b) =~= big);
    let d = decode_from(all, t, 0, letters);
    lemma_decode_end_in_bounds(all, t, 0, letters);
    lemma_decode_append(all, b, t, 0, letters);
    lemma_decode_skip(big, t, d.1, 0, d.2);
    let carried = all.subrange(d.1 as int, all.len() as int);
    let all2 = carried + b;
    assert(all2 =~= big.subrange(d.1 as int, big.len() as int));
    let r = decode_from(all2, t, 0, d.2);
    lemma_decode_end_in_bounds(all2, t, 0, d.2);
    assert(d.1 + 0 == d.1);
    assert(big.subrange((r.1 + d.1) as int, big.len() as int) =~= all2.subrange(
        r.1 as int,
        all2.len() as int,
    ));
}

/// A frame whose stop window holds a `true` bit is skipped whole: decoding
/// resumes right after its stop window, with the shift state untouched.
pub proof fn lemma_corrupt_stop_skipped(bits: Seq<bool>, t: SymbolTiming, pos: nat, letters: bool)
    requires
        t.valid(),
        pos < bits.len(),
        bits[pos as int],
        pos + t.frame_len() <= bits.len(),
        !stop_window_clear(bits, (pos + t.stop_offset()) as int, t.samples_per_stop_bit as int),
    ensures
        decode_from(bits, t, pos, letters) == decode_from(bits, t, pos + t.frame_len(), letters),
{
}

/// Streaming Baudot decoder: the frame timing, the letters/figures shift
/// state, and the bits of an unfinished frame carried from one call to the
/// next.
pub struct RttyDecoder {
    pub timing: SymbolTiming,
    pub letters: bool,
    pub leftover_bits: Vec<bool>,
}

impl RttyDecoder {
    /// The timing frames characters.
    pub open spec fn wf(&self) -> bool {
        self.timing.valid()
    }

    /// A decoder in letters mode with nothing carried over.
    pub fn new(timing: SymbolTiming) -> (r: Self)
        requires
            timing.valid(),
        ensures
            r.wf(),
            r.timing == timing,
            r.letters,
            r.leftover_bits@ == Seq::<bool>::empty(),
    {
        RttyDecoder { timing, letters: true, leftover_bits: Vec::new() }
    }

    /// A decoder with a new timing that takes over the shift state and the
    /// carried-over bits of `previous`.
    pub fn resume_from(timing: SymbolTiming, previous: RttyDecoder) -> (r: Self)
        requires
            timing.valid(),
        ensures
            r.wf(),
            r.timing == timing,
            r.letters == previous.letters,
            r.leftover_bits@ == previous.leftover_bits@,
    {
        RttyDecoder { timing, letters: previous.letters, leftover_bits: previous.leftover_bits }
    }

    /// Decodes the carried-over bits followed by `bits`. Returns the text;
    /// keeps the new shift state and the bits of an unfinished frame for the
    /// next call.
    pub fn process(&mut self, bits: &Vec<bool>) -> (r: String)
        requires
            old(self).wf(),
            old(self).leftover_bits@.len() + bits@.len() <= usize::MAX,
        ensures
            final(self).wf(),
            final(self).timing == old(self).timing,
            r@ == feed(old(self).timing, old(self).letters, old(self).leftover_bits@, bits@).0,
            final(self).letters == feed(
                old(self).timing,
                old(self).letters,
                old(self).leftover_bits@,
                bits@,
            ).1,
            final(self).leftover_bits@ == feed(
                old(self).timing,
                old(self).letters,
                old(self).leftover_bits@,
                bits@,
            ).2,
    {
        let mut all: Vec<bool> = Vec::new();
        append_all(&mut all, &self.leftover_bits);
        append_all(&mut all, bits);
        let mut letters = self.letters;
        let (text, end) = decode_bits(&all, self.timing, &mut letters);
        self.letters = letters;
        self.leftover_bits = tail_from(&all, end);
        text
    }
}

} // verus!
