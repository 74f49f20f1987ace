//! The backtracking search: every decomposition of a digit sequence into
//! dictionary words and single-digit fillers, two fillers never adjacent.
//!
//! From a position, every prefix of the remaining digits that is a
//! dictionary key contributes one branch per word under the key, in
//! word-list order; only where no prefix matched, and the last token is
//! not already a filler, a single digit is taken instead. Reaching the end
//! of the digits emits the accumulated tokens as one solution. Solutions
//! are emitted in this fixed left-to-right, words-before-filler order.

use vstd::prelude::*;
use crate::encoding::digit_char;
use crate::encoding::digit_seq_of;
use crate::encoding::digits_of;
use crate::encoding::is_digit;
use crate::encoding::is_digit_char;
use crate::dictionary::Dictionary;

verus! {

/// True when the last accumulated token is a single-digit filler.
pub open spec fn last_is_digit(acc: Seq<Seq<char>>) -> bool {
    acc.len() > 0 && acc.last().len() == 1 && is_digit_char(acc.last()[0])
}

/// All solutions found from `start`, given the tokens accumulated so far.
pub open spec fn search_all(
    m: Map<Seq<u8>, Seq<Seq<char>>>,
    digits: Seq<u8>,
    start: int,
    acc: Seq<Seq<char>>,
) -> Seq<Seq<Seq<char>>>
    decreases digits.len() - start, 2int, 0int,
    when 0 <= start <= digits.len()
{
    if start == digits.len() {
        seq![acc]
    } else {
        let matched = scan_sols(m, digits, start, start, acc);
        if !scan_found(m, digits, start, start) && !last_is_digit(acc) {
            matched + search_all(m, digits, start + 1, acc.push(seq![digit_char(digits[start])]))
        } else {
            matched
        }
    }
}

/// The solutions whose next token is a word covering `start..j` for some
/// `j` in `i..digits.len()`, tried in order of increasing `j`.
pub open spec fn scan_sols(
    m: Map<Seq<u8>, Seq<Seq<char>>>,
    digits: Seq<u8>,
    start: int,
    i: int,
    acc: Seq<Seq<char>>,
) -> Seq<Seq<Seq<char>>>
    decreases digits.len() - start, 1int, digits.len() - i,
    when 0 <= start <= i <= digits.len()
{
    if i == digits.len() {
        Seq::empty()
    } else {
        let k = digits.subrange(start, i + 1);
        let here = if m.dom().contains(k) {
            words_sols(m, digits, i + 1, m[k], 0, acc)
        } else {
            Seq::empty()
        };
        here + scan_sols(m, digits, start, i + 1, acc)
    }
}

/// The solutions gained by appending each of the words `ws[j..]` in turn
/// and searching on from `next`.
pub open spec fn words_sols(
    m: Map<Seq<u8>, Seq<Seq<char>>>,
    digits: Seq<u8>,
    next: int,
    ws: Seq<Seq<char>>,
    j: int,
    acc: Seq<Seq<char>>,
) -> Seq<Seq<Seq<char>>>
    decreases digits.len() - next, 3int, ws.len() - j,
    when 0 <= next <= digits.len() && 0 <= j <= ws.len()
{
    if j == ws.len() {
        Seq::empty()
    } else {
        search_all(m, digits, next, acc.push(ws[j])) + words_sols(m, digits, next, ws, j + 1, acc)
    }
}

/// Whether some dictionary key covers `start..j` for some `j` in
/// `i..digits.len()`.
pub open spec fn scan_found(m: Map<Seq<u8>, Seq<Seq<char>>>, digits: Seq<u8>, start: int, i: int) -> bool
    decreases digits.len() - i,
    when 0 <= start <= i <= digits.len()
{
    if i == digits.len() {
        false
    } else {
        m.dom().contains(digits.subrange(start, i + 1)) || scan_found(m, digits, start, i + 1)
    }
}

/// The solutions for a whole digit sequence.
pub open spec fn solutions_for(m: Map<Seq<u8>, Seq<Seq<char>>>, digits: Seq<u8>) -> Seq<
    Seq<Seq<char>>,
> {
    search_all(m, digits, 0, Seq::empty())
}

/// A filler token: the single decimal digit as a string.
fn digit_token(d: u8) -> (s: String)
    requires
        d < 10,
    ensures
        s@ == seq![digit_char(d)],
{
    let s = if d == 0 {
        String::from_str("0")
    } else if d == 1 {
        String::from_str("1")
    } else if d == 2 {
        String::from_str("2")
    } else if d == 3 {
        String::from_str("3")
    } else if d == 4 {
        String::from_str("4")
    } else if d == 5 {
        String::from_str("5")
    } else if d == 6 {
        String::from_str("6")
    } else if d == 7 {
        String::from_str("7")
    } else if d == 8 {
        String::from_str("8")
    } else {
        String::from_str("9")
    };
    proof {
        reveal_strlit("0");
        reveal_strlit("1");
        reveal_strlit("2");
        reveal_strlit("3");
        reveal_strlit("4");
        reveal_strlit("5");
        reveal_strlit("6");
        reveal_strlit("7");
        reveal_strlit("8");
        reveal_strlit("9");
        assert(s@ =~= seq![digit_char(d)]);
    }
    s
}

/// A copy of the accumulated tokens, spelling the same sequence.
fn clone_tokens(acc: &Vec<String>) -> (r: Vec<String>)
    ensures
        r.deep_view() == acc.deep_view(),
{
    let r = acc.clone();
    proof {
        assert forall|i: int| 0 <= i < r.deep_view().len() implies r.deep_view()[i]
            == acc.deep_view()[i] by {
            assert(cloned::<String>(acc@[i], r@[i]));
        }
        assert(r.deep_view() =~= acc.deep_view());
    }
    r
}

/// Appends to `out` every solution reachable from position `start` with
/// the tokens in `acc` already chosen, in emission order.
pub fn search_from(
    dict: &Dictionary,
    digits: &Vec<u8>,
    start: usize,
    acc: &Vec<String>,
    out: &mut Vec<Vec<String>>,
)
    requires
        dict.wf(),
        start <= digits@.len(),
        forall|i: int| 0 <= i < digits@.len() ==> digits@[i] < 10,
    ensures
        final(out).deep_view() == old(out).deep_view() + search_all(
            dict@,
            digits@,
            start as int,
            acc.deep_view(),
        ),
    decreases digits@.len() - start,
{
    let n = digits.len();
    if start >= n {
        let copy = clone_tokens(acc);
        out.push(copy);
        proof {
            assert(out.deep_view() =~= old(out).deep_view() + seq![acc.deep_view()]);
        }
        return;
    }
    let ghost m = dict@;
    let ghost dsq = digits@;
    let ghost accv = acc.deep_view();
    let ghost out0 = out.deep_view();
    let mut key: Vec<u8> = Vec::new();
    let mut found_word = false;
    for i in start..n
        invariant
            dict.wf(),
            n == digits@.len(),
            start <= i <= n,
            start < n,
            forall|q: int| 0 <= q < digits@.len() ==> digits@[q] < 10,
            m == dict@,
            dsq == digits@,
            accv == acc.deep_view(),
            key@ == dsq.subrange(start as int, i as int),
            out0 + scan_sols(m, dsq, start as int, start as int, accv) == out.deep_view()
                + scan_sols(m, dsq, start as int, i as int, accv),
            scan_found(m, dsq, start as int, start as int) == (found_word || scan_found(
                m,
                dsq,
                start as int,
                i as int,
            )),
    {
        key.push(digits[i]);
        proof {
            assert(key@ =~= dsq.subrange(start as int, i + 1));
        }
        match dict.lookup(&key) {
            Some(ws) => {
                found_word = true;
                let ghost wsv = ws.deep_view();
                let ghost outi = out.deep_view();
                let wn = ws.len();
                for j in 0..wn
                    invariant
                        dict.wf(),
                        n == digits@.len(),
                        start <= i < n,
                        j <= wn,
                        forall|q: int| 0 <= q < digits@.len() ==> digits@[q] < 10,
                        m == dict@,
                        dsq == digits@,
                        accv == acc.deep_view(),
                        wn == ws@.len(),
                        wsv == ws.deep_view(),
                        outi + words_sols(m, dsq, i + 1, wsv, 0, accv) == out.deep_view()
                            + words_sols(m, dsq, i + 1, wsv, j as int, accv),
                {
                    let mut partial = clone_tokens(acc);
                    partial.push(ws[j].clone());
                    proof {
                        assert(partial.deep_view() =~= accv.push(wsv[j as int]));
                    }
                    search_from(dict, digits, i + 1, &partial, out);
                }
                proof {
                    assert(out.deep_view() =~= outi + words_sols(m, dsq, i + 1, wsv, 0, accv));
                    assert(scan_sols(m, dsq, start as int, i as int, accv) == words_sols(
                        m,
                        dsq,
                        i + 1,
                        wsv,
                        0,
                        accv,
                    ) + scan_sols(m, dsq, start as int, i + 1, accv));
                }
            },
            None => {
                proof {
                    assert(scan_sols(m, dsq, start as int, i as int, accv) =~= scan_sols(
                        m,
                        dsq,
                        start as int,
                        i + 1,
                        accv,
                    ));
                }
            },
        }
    }
    proof {
        assert(scan_sols(m, dsq, start as int, n as int, accv) =~= Seq::<Seq<Seq<char>>>::empty());
        assert(out.deep_view() =~= out0 + scan_sols(m, dsq, start as int, start as int, accv));
        assert(scan_found(m, dsq, start as int, n as int) == false);
    }
    if !found_word {
        let take_digit = if acc.len() == 0 {
            true
        } else {
            !is_digit(acc[acc.len() - 1].as_str())
        };
        if take_digit {
            let mut partial = clone_tokens(acc);
            partial.push(digit_token(digits[start]));
            proof {
                assert(partial.deep_view() =~= accv.push(seq![digit_char(dsq[start as int])]));
            }
            search_from(dict, digits, start + 1, &partial, out);
        }
    }
}

/// All solutions for a digit sequence, in emission order: each solution a
/// sequence of tokens, each token a dictionary word or a filler digit.
pub fn encode(digits: &Vec<u8>, dict: &Dictionary) -> (solutions: Vec<Vec<String>>)
    requires
        dict.wf(),
        forall|i: int| 0 <= i < digits@.len() ==> digits@[i] < 10,
    ensures
        solutions.deep_view() == solutions_for(dict@, digits@),
{
    let acc: Vec<String> = Vec::new();
    let mut out: Vec<Vec<String>> = Vec::new();
    search_from(dict, digits, 0, &acc, &mut out);
    proof {
        assert(acc.deep_view() =~= Seq::<Seq<char>>::empty());
        assert(out.deep_view() =~= search_all(dict@, digits@, 0, Seq::empty()));
    }
    out
}

/// All solutions for a number string: its decimal digits are extracted and
/// encoded; other characters only label the output.
pub fn encode_number(num: &str, dict: &Dictionary) -> (solutions: Vec<Vec<String>>)
    requires
        dict.wf(),
    ensures
        solutions.deep_view() == solutions_for(dict@, digit_seq_of(num@)),
{
    let digits = digits_of(num);
    encode(&digits, dict)
}

} // verus!
