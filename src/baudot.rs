use vstd::prelude::*;

verus! {

/// Code that switches the decoder to the letters table.
pub const LETTERS_SHIFT: u8 = 0x1f;

/// Code that switches the decoder to the figures table.
pub const FIGURES_SHIFT: u8 = 0x1b;

/// The ITA2 character of a 5-bit code in the letters table (`letters`) or
/// the figures table. The two shift codes have no character of their own;
/// the unused positions hold NUL.
pub open spec fn ita2_char(code: u8, letters: bool) -> char
    recommends
        code < 32,
{
    match code {
        0u8 => if letters { '\0' } else { '\0' },
        1u8 => if letters { 'E' } else { '3' },
        2u8 => if letters { '\n' } else { '\n' },
        3u8 => if letters { 'A' } else { '-' },
        4u8 => if letters { ' ' } else { ' ' },
        5u8 => if letters { 'S' } else { '\x07' },
        6u8 => if letters { 'I' } else { '8' },
        7u8 => if letters { 'U' } else { '7' },
        8u8 => if letters { '\r' } else { '\r' },
        9u8 => if letters { 'D' } else { '\x05' },
        10u8 => if letters { 'R' } else { '4' },
        11u8 => if letters { 'J' } else { '\'' },
        12u8 => if letters { 'N' } else { ',' },
        13u8 => if letters { 'F' } else { '!' },
        14u8 => if letters { 'C' } else { ':' },
        15u8 => if letters { 'K' } else { '(' },
        16u8 => if letters { 'T' } else { '5' },
        17u8 => if letters { 'Z' } else { '"' },
        18u8 => if letters { 'L' } else { ')' },
        19u8 => if letters { 'W' } else { '2' },
        20u8 => if letters { 'H' } else { '#' },
        21u8 => if letters { 'Y' } else { '6' },
        22u8 => if letters { 'P' } else { '0' },
        23u8 => if letters { 'Q' } else { '1' },
        24u8 => if letters { 'O' } else { '9' },
        25u8 => if letters { 'B' } else { '?' },
        26u8 => if letters { 'G' } else { '&' },
        27u8 => if letters { '\0' } else { '\0' },
        28u8 => if letters { 'M' } else { '.' },
        29u8 => if letters { 'X' } else { '/' },
        30u8 => if letters { 'V' } else { ';' },
        31u8 => if letters { '\0' } else { '\0' },
        _ => '\0',
    }
}

/// One Baudot lookup: the character it emits, if any, and the shift state
/// after it. The shift codes change the state and emit nothing; every other
/// code emits its character in the current state and keeps the state.
pub open spec fn baudot_step(code: u8, letters: bool) -> (Option<char>, bool) {
    if code == LETTERS_SHIFT {
        (None, true)
    } else if code == FIGURES_SHIFT {
        (None, false)
    } else {
        (Some(ita2_char(code, letters)), letters)
    }
}

fn ita2_lookup(code: u8, letters: bool) -> (c: char)
    requires
        code < 32,
    ensures
        c == ita2_char(code, letters),
{
    match code {
        0u8 => if letters { '\0' } else { '\0' },
        1u8 => if letters { 'E' } else { '3' },
        2u8 => if letters { '\n' } else { '\n' },
        3u8 => if letters { 'A' } else { '-' },
        4u8 => if letters { ' ' } else { ' ' },
        5u8 => if letters { 'S' } else { '\x07' },
        6u8 => if letters { 'I' } else { '8' },
        7u8 => if letters { 'U' } else { '7' },
        8u8 => if letters { '\r' } else { '\r' },
        9u8 => if letters { 'D' } else { '\x05' },
        10u8 => if letters { 'R' } else { '4' },
        11u8 => if letters { 'J' } else { '\'' },
        12u8 => if letters { 'N' } else { ',' },
        13u8 => if letters { 'F' } else { '!' },
        14u8 => if letters { 'C' } else { ':' },
        15u8 => if letters { 'K' } else { '(' },
        16u8 => if letters { 'T' } else { '5' },
        17u8 => if letters { 'Z' } else { '"' },
        18u8 => if letters { 'L' } else { ')' },
        19u8 => if letters { 'W' } else { '2' },
        20u8 => if letters { 'H' } else { '#' },
        21u8 => if letters { 'Y' } else { '6' },
        22u8 => if letters { 'P' } else { '0' },
        23u8 => if letters { 'Q' } else { '1' },
        24u8 => if letters { 'O' } else { '9' },
        25u8 => if letters { 'B' } else { '?' },
        26u8 => if letters { 'G' } else { '&' },
        27u8 => if letters { '\0' } else { '\0' },
        28u8 => if letters { 'M' } else { '.' },
        29u8 => if letters { 'X' } else { '/' },
        30u8 => if letters { 'V' } else { ';' },
        31u8 => if letters { '\0' } else { '\0' },
        _ => '\0',
    }
}

/// Looks up a 5-bit Baudot code under the shift state `letters` and updates
/// that state. `0b11111` selects letters and `0b11011` selects figures,
/// whatever the state was, and neither emits a character.
pub fn decode_baudot(bits: u8, letters: &mut bool) -> (r: Option<char>)
    requires
        bits < 32,
    ensures
        (r, *final(letters)) == baudot_step(bits, *old(letters)),
        bits == LETTERS_SHIFT ==> r.is_none() && *final(letters),
        bits == FIGURES_SHIFT ==> r.is_none() && !*final(letters),
        bits != LETTERS_SHIFT && bits != FIGURES_SHIFT ==> r == Some(
            ita2_char(bits, *old(letters)),
        ) && *final(letters) == *old(letters),
{
    if bits == LETTERS_SHIFT {
        *letters = true;
        None
    } else if bits == FIGURES_SHIFT {
        *letters = false;
        None
    } else {
        Some(ita2_lookup(bits, *letters))
    }
}

} // verus!
