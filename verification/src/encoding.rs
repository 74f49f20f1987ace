//! The digit encoder: the fixed keypad mapping from letters to digits, and
//! the digit value of a whole word.
//!
//! A word's digit value is the sequence of keypad digits of its letters, in
//! order; characters that are not ASCII letters (apostrophes, hyphens) are
//! skipped, not rejected. Representing the value as the digit sequence
//! itself keeps distinct spellings with leading zeros distinct.

use vstd::prelude::*;

verus! {

/// True of the ASCII uppercase letters.
pub open spec fn is_upper(c: char) -> bool {
    'A' as int <= c as int && c as int <= 'Z' as int
}

/// True of the ASCII lowercase letters.
pub open spec fn is_lower(c: char) -> bool {
    'a' as int <= c as int && c as int <= 'z' as int
}

/// True of the ASCII letters, the only characters that carry a keypad digit.
pub open spec fn is_letter(c: char) -> bool {
    is_upper(c) || is_lower(c)
}

/// True of the ASCII decimal digit characters.
pub open spec fn is_digit_char(c: char) -> bool {
    '0' as int <= c as int && c as int <= '9' as int
}

/// The numeric value of an ASCII decimal digit character.
pub open spec fn digit_char_val(c: char) -> u8
    recommends
        is_digit_char(c),
{
    (c as int - '0' as int) as u8
}

/// The decimal digit character for a digit value below ten.
pub open spec fn digit_char(d: u8) -> char
    recommends
        d < 10,
{
    if d == 0 {
        '0'
    } else if d == 1 {
        '1'
    } else if d == 2 {
        '2'
    } else if d == 3 {
        '3'
    } else if d == 4 {
        '4'
    } else if d == 5 {
        '5'
    } else if d == 6 {
        '6'
    } else if d == 7 {
        '7'
    } else if d == 8 {
        '8'
    } else {
        '9'
    }
}

/// The keypad digit of a letter, in either case:
/// 0: E | 1: J N Q | 2: R W X | 3: D S Y | 4: F T
/// 5: A M | 6: C I V | 7: B K U | 8: L O P | 9: G H Z
pub open spec fn letter_digit(c: char) -> u8
    recommends
        is_letter(c),
{
    if c == 'e' || c == 'E' {
        0
    } else if c == 'j' || c == 'J' || c == 'n' || c == 'N' || c == 'q' || c == 'Q' {
        1
    } else if c == 'r' || c == 'R' || c == 'w' || c == 'W' || c == 'x' || c == 'X' {
        2
    } else if c == 'd' || c == 'D' || c == 's' || c == 'S' || c == 'y' || c == 'Y' {
        3
    } else if c == 'f' || c == 'F' || c == 't' || c == 'T' {
        4
    } else if c == 'a' || c == 'A' || c == 'm' || c == 'M' {
        5
    } else if c == 'c' || c == 'C' || c == 'i' || c == 'I' || c == 'v' || c == 'V' {
        6
    } else if c == 'b' || c == 'B' || c == 'k' || c == 'K' || c == 'u' || c == 'U' {
        7
    } else if c == 'l' || c == 'L' || c == 'o' || c == 'O' || c == 'p' || c == 'P' {
        8
    } else {
        9
    }
}

/// The digit value of a word: the keypad digits of its ASCII letters, in
/// order; every other character is skipped.
pub open spec fn word_digits(w: Seq<char>) -> Seq<u8>
    decreases w.len(),
{
    if w.len() == 0 {
        Seq::empty()
    } else {
        word_digits(w.drop_last()) + (if is_letter(w.last()) {
            seq![letter_digit(w.last())]
        } else {
            Seq::<u8>::empty()
        })
    }
}

/// The digit sequence a number string stands for: the values of its ASCII
/// decimal digit characters, in order; every other character is dropped.
pub open spec fn digit_seq_of(s: Seq<char>) -> Seq<u8>
    decreases s.len(),
{
    if s.len() == 0 {
        Seq::empty()
    } else {
        digit_seq_of(s.drop_last()) + (if is_digit_char(s.last()) {
            seq![digit_char_val(s.last())]
        } else {
            Seq::<u8>::empty()
        })
    }
}

/// The keypad digit of a letter, as a 32-bit value.
pub fn char_to_digit(ch: char) -> (d: u32)
    requires
        is_letter(ch),
    ensures
        d == letter_digit(ch) as u32,
        d < 10,
{
    letter_digit_exec(ch) as u32
}

/// The keypad digit of a letter, as a byte.
pub fn letter_digit_exec(ch: char) -> (d: u8)
    requires
        is_letter(ch),
    ensures
        d == letter_digit(ch),
{
    if ch == 'e' || ch == 'E' {
        0
    } else if ch == 'j' || ch == 'J' || ch == 'n' || ch == 'N' || ch == 'q' || ch == 'Q' {
        1
    } else if ch == 'r' || ch == 'R' || ch == 'w' || ch == 'W' || ch == 'x' || ch == 'X' {
        2
    } else if ch == 'd' || ch == 'D' || ch == 's' || ch == 'S' || ch == 'y' || ch == 'Y' {
        3
    } else if ch == 'f' || ch == 'F' || ch == 't' || ch == 'T' {
        4
    } else if ch == 'a' || ch == 'A' || ch == 'm' || ch == 'M' {
        5
    } else if ch == 'c' || ch == 'C' || ch == 'i' || ch == 'I' || ch == 'v' || ch == 'V' {
        6
    } else if ch == 'b' || ch == 'B' || ch == 'k' || ch == 'K' || ch == 'u' || ch == 'U' {
        7
    } else if ch == 'l' || ch == 'L' || ch == 'o' || ch == 'O' || ch == 'p' || ch == 'P' {
        8
    } else {
        9
    }
}

/// Whether a character is an ASCII letter.
pub fn is_letter_exec(c: char) -> (r: bool)
    ensures
        r == is_letter(c),
{
    let u = c as u32;
    (65 <= u && u <= 90) || (97 <= u && u <= 122)
}

/// Whether a token string is a single decimal digit — a filler token.
pub fn is_digit(string: &str) -> (r: bool)
    ensures
        r == (string@.len() == 1 && is_digit_char(string@[0])),
{
    if string.unicode_len() == 1 {
        let c = string.get_char(0);
        let u = c as u32;
        48 <= u && u <= 57
    } else {
        false
    }
}

/// The digit value of a word: its letters' keypad digits in order, with
/// non-letter characters skipped.
pub fn word_to_number(word: &str) -> (key: Vec<u8>)
    ensures
        key@ == word_digits(word@),
{
    let mut key: Vec<u8> = Vec::new();
    let n = word.unicode_len();
    for i in 0..n
        invariant
            n == word@.len(),
            key@ == word_digits(word@.subrange(0, i as int)),
    {
        let c = word.get_char(i);
        if is_letter_exec(c) {
            key.push(letter_digit_exec(c));
        }
        proof {
            assert(word@.subrange(0, i + 1).drop_last() =~= word@.subrange(0, i as int));
            assert(word@.subrange(0, i + 1).last() == word@[i as int]);
        }
    }
    proof {
        assert(word@.subrange(0, n as int) =~= word@);
    }
    key
}

/// The digit sequence of a number string: the values of its decimal digit
/// characters, in order; other characters are dropped.
pub fn digits_of(num: &str) -> (digits: Vec<u8>)
    ensures
        digits@ == digit_seq_of(num@),
        forall|i: int| 0 <= i < digits@.len() ==> digits@[i] < 10,
{
    let mut digits: Vec<u8> = Vec::new();
    let n = num.unicode_len();
    for i in 0..n
        invariant
            n == num@.len(),
            digits@ == digit_seq_of(num@.subrange(0, i as int)),
            forall|j: int| 0 <= j < digits@.len() ==> digits@[j] < 10,
    {
        let c = num.get_char(i);
        let u = c as u32;
        if 48 <= u && u <= 57 {
            digits.push((u - 48) as u8);
        }
        proof {
            assert(num@.subrange(0, i + 1).drop_last() =~= num@.subrange(0, i as int));
            assert(num@.subrange(0, i + 1).last() == num@[i as int]);
        }
    }
    proof {
        assert(num@.subrange(0, n as int) =~= num@);
    }
    digits
}

} // verus!
