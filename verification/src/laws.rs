//! The laws of the search, proved over the specification functions: every
//! emitted solution spells back the digits it consumed, no solution holds
//! two adjacent fillers, a word's digit value ignores letter case, and
//! whole-word matches always appear as one-token solutions.

use vstd::prelude::*;
use crate::encoding::word_digits;
use crate::encoding::is_letter;
use crate::encoding::is_upper;
use crate::encoding::is_digit_char;
use crate::encoding::digit_char;
use crate::encoding::digit_char_val;
use crate::encoding::letter_digit;
use crate::dictionary::dict_wf;
use crate::search::search_all;
use crate::search::scan_sols;
use crate::search::words_sols;
use crate::search::scan_found;
use crate::search::last_is_digit;
use crate::search::solutions_for;

verus! {

/// A filler token: a single decimal digit character.
pub open spec fn is_filler(t: Seq<char>) -> bool {
    t.len() == 1 && is_digit_char(t[0])
}

/// The digit sequence one token stands for: a filler is its digit, a word
/// is its digit value.
pub open spec fn token_digits(t: Seq<char>) -> Seq<u8> {
    if is_filler(t) {
        seq![digit_char_val(t[0])]
    } else {
        word_digits(t)
    }
}

/// The digit sequence a whole solution stands for: its tokens' digit
/// sequences concatenated.
pub open spec fn sol_digits(sol: Seq<Seq<char>>) -> Seq<u8>
    decreases sol.len(),
{
    if sol.len() == 0 {
        Seq::empty()
    } else {
        sol_digits(sol.drop_last()) + token_digits(sol.last())
    }
}

/// No two adjacent tokens are both fillers.
pub open spec fn no_adjacent_fillers(sol: Seq<Seq<char>>) -> bool {
    forall|i: int|
        0 <= i && i + 1 < sol.len() ==> !(is_filler(#[trigger] sol[i]) && is_filler(sol[i + 1]))
}

/// Two characters equal up to ASCII letter case.
pub open spec fn char_case_eq(a: char, b: char) -> bool {
    a == b || (is_upper(a) && b as int == a as int + 32) || (is_upper(b) && a as int == b as int
        + 32)
}

/// A filler token has the empty digit value as a word: a digit character
/// is not a letter.
pub proof fn lemma_filler_word_digits(t: Seq<char>)
    requires
        is_filler(t),
    ensures
        word_digits(t) == Seq::<u8>::empty(),
{
    assert(t.drop_last().len() == 0);
    assert(word_digits(t.drop_last()) =~= Seq::<u8>::empty());
    assert(t.last() == t[0]);
    assert(!is_letter(t[0]));
    assert(word_digits(t) =~= Seq::<u8>::empty());
}

/// Law: every solution found from `start` spells, after the tokens
/// already accumulated, exactly the digits from `start` to the end.
pub proof fn lemma_solutions_cover(
    m: Map<Seq<u8>, Seq<Seq<char>>>,
    digits: Seq<u8>,
    start: int,
    acc: Seq<Seq<char>>,
)
    requires
        dict_wf(m),
        0 <= start <= digits.len(),
        forall|q: int| 0 <= q < digits.len() ==> digits[q] < 10,
    ensures
        forall|s: int|
            0 <= s < search_all(m, digits, start, acc).len() ==> sol_digits(
                #[trigger] search_all(m, digits, start, acc)[s],
            ) == sol_digits(acc) + digits.subrange(start, digits.len() as int),
    decreases digits.len() - start, 2int, 0int,
{
    let len = digits.len() as int;
    if start == len {
        assert(digits.subrange(start, len) =~= Seq::<u8>::empty());
        assert(sol_digits(acc) + Seq::<u8>::empty() =~= sol_digits(acc));
    } else {
        lemma_scan_cover(m, digits, start, start, acc);
        let matched = scan_sols(m, digits, start, start, acc);
        if !scan_found(m, digits, start, start) && !last_is_digit(acc) {
            let t = seq![digit_char(digits[start])];
            let acc2 = acc.push(t);
            assert(is_filler(t));
            assert(digit_char_val(digit_char(digits[start])) == digits[start]);
            assert(acc2.drop_last() =~= acc);
            assert(token_digits(t) =~= seq![digits[start]]);
            assert(sol_digits(acc2) =~= sol_digits(acc) + seq![digits[start]]);
            lemma_solutions_cover(m, digits, start + 1, acc2);
            assert(sol_digits(acc) + seq![digits[start]] + digits.subrange(start + 1, len)
                =~= sol_digits(acc) + digits.subrange(start, len));
            let rest = search_all(m, digits, start + 1, acc2);
            assert forall|s: int|
                0 <= s < search_all(m, digits, start, acc).len() implies sol_digits(
                #[trigger] search_all(m, digits, start, acc)[s],
            ) == sol_digits(acc) + digits.subrange(start, len) by {
                if s < matched.len() {
                    assert(search_all(m, digits, start, acc)[s] == matched[s]);
                } else {
                    assert(search_all(m, digits, start, acc)[s] == rest[s - matched.len()]);
                }
            }
        }
    }
}

/// Every solution whose next word covers `start..j` for some `j >= i`
/// spells the remaining digits.
pub proof fn lemma_scan_cover(
    m: Map<Seq<u8>, Seq<Seq<char>>>,
    digits: Seq<u8>,
    start: int,
    i: int,
    acc: Seq<Seq<char>>,
)
    requires
        dict_wf(m),
        0 <= start <= i <= digits.len(),
        forall|q: int| 0 <= q < digits.len() ==> digits[q] < 10,
    ensures
        forall|s: int|
            0 <= s < scan_sols(m, digits, start, i, acc).len() ==> sol_digits(
                #[trigger] scan_sols(m, digits, start, i, acc)[s],
            ) == sol_digits(acc) + digits.subrange(start, digits.len() as int),
    decreases digits.len() - start, 1int, digits.len() - i,
{
    let len = digits.len() as int;
    if i < len {
        let k = digits.subrange(start, i + 1);
        lemma_scan_cover(m, digits, start, i + 1, acc);
        if m.dom().contains(k) {
            lemma_words_cover(m, digits, start, i + 1, m[k], 0, acc);
        }
        let here = if m.dom().contains(k) {
            words_sols(m, digits, i + 1, m[k], 0, acc)
        } else {
            Seq::<Seq<Seq<char>>>::empty()
        };
        let rest = scan_sols(m, digits, start, i + 1, acc);
        assert forall|s: int|
            0 <= s < scan_sols(m, digits, start, i, acc).len() implies sol_digits(
            #[trigger] scan_sols(m, digits, start, i, acc)[s],
        ) == sol_digits(acc) + digits.subrange(start, len) by {
            if s < here.len() {
                assert(scan_sols(m, digits, start, i, acc)[s] == here[s]);
            } else {
                assert(scan_sols(m, digits, start, i, acc)[s] == rest[s - here.len()]);
            }
        }
    }
}

/// Every solution gained by appending one of the words `ws[j..]`, each of
/// which spells `digits[start..next]`, spells the remaining digits.
pub proof fn lemma_words_cover(
    m: Map<Seq<u8>, Seq<Seq<char>>>,
    digits: Seq<u8>,
    start: int,
    next: int,
    ws: Seq<Seq<char>>,
    j: int,
    acc: Seq<Seq<char>>,
)
    requires
        dict_wf(m),
        0 <= start < next <= digits.len(),
        0 <= j <= ws.len(),
        forall|q: int| 0 <= q < digits.len() ==> digits[q] < 10,
        forall|jj: int|
            0 <= jj < ws.len() ==> word_digits(#[trigger] ws[jj]) == digits.subrange(start, next),
    ensures
        forall|s: int|
            0 <= s < words_sols(m, digits, next, ws, j, acc).len() ==> sol_digits(
                #[trigger] words_sols(m, digits, next, ws, j, acc)[s],
            ) == sol_digits(acc) + digits.subrange(start, digits.len() as int),
    decreases digits.len() - next, 3int, ws.len() - j,
{
    let len = digits.len() as int;
    if j < ws.len() {
        let w = ws[j];
        let acc2 = acc.push(w);
        assert(!is_filler(w)) by {
            if is_filler(w) {
                lemma_filler_word_digits(w);
                assert(digits.subrange(start, next).len() == next - start);
            }
        }
        assert(acc2.drop_last() =~= acc);
        assert(sol_digits(acc2) =~= sol_digits(acc) + digits.subrange(start, next));
        lemma_solutions_cover(m, digits, next, acc2);
        assert(sol_digits(acc) + digits.subrange(start, next) + digits.subrange(next, len)
            =~= sol_digits(acc) + digits.subrange(start, len));
        lemma_words_cover(m, digits, start, next, ws, j + 1, acc);
        let branch = search_all(m, digits, next, acc2);
        let rest = words_sols(m, digits, next, ws, j + 1, acc);
        assert forall|s: int|
            0 <= s < words_sols(m, digits, next, ws, j, acc).len() implies sol_digits(
            #[trigger] words_sols(m, digits, next, ws, j, acc)[s],
        ) == sol_digits(acc) + digits.subrange(start, len) by {
            if s < branch.len() {
                assert(words_sols(m, digits, next, ws, j, acc)[s] == branch[s]);
            } else {
                assert(words_sols(m, digits, next, ws, j, acc)[s] == rest[s - branch.len()]);
            }
        }
    }
}

/// Law: no emitted solution holds two adjacent fillers, provided the
/// accumulated tokens do not already.
pub proof fn lemma_no_adjacent_fillers(
    m: Map<Seq<u8>, Seq<Seq<char>>>,
    digits: Seq<u8>,
    start: int,
    acc: Seq<Seq<char>>,
)
    requires
        dict_wf(m),
        0 <= start <= digits.len(),
        no_adjacent_fillers(acc),
    ensures
        forall|s: int|
            0 <= s < search_all(m, digits, start, acc).len() ==> no_adjacent_fillers(
                #[trigger] search_all(m, digits, start, acc)[s],
            ),
    decreases digits.len() - start, 2int, 0int,
{
    if start < digits.len() {
        lemma_scan_no_adjacent(m, digits, start, start, acc);
        let matched = scan_sols(m, digits, start, start, acc);
        if !scan_found(m, digits, start, start) && !last_is_digit(acc) {
            let t = seq![digit_char(digits[start])];
            let acc2 = acc.push(t);
            assert(no_adjacent_fillers(acc2)) by {
                assert forall|i: int|
                    0 <= i && i + 1 < acc2.len() implies !(is_filler(#[trigger] acc2[i])
                    && is_filler(acc2[i + 1])) by {
                    if i + 1 < acc.len() {
                        assert(acc2[i] == acc[i] && acc2[i + 1] == acc[i + 1]);
                    } else {
                        assert(acc2[i] == acc.last());
                        assert(!is_filler(acc.last()));
                    }
                }
            }
            lemma_no_adjacent_fillers(m, digits, start + 1, acc2);
            let rest = search_all(m, digits, start + 1, acc2);
            assert forall|s: int|
                0 <= s < search_all(m, digits, start, acc).len() implies no_adjacent_fillers(
                #[trigger] search_all(m, digits, start, acc)[s],
            ) by {
                if s < matched.len() {
                    assert(search_all(m, digits, start, acc)[s] == matched[s]);
                } else {
                    assert(search_all(m, digits, start, acc)[s] == rest[s - matched.len()]);
                }
            }
        }
    }
}

/// The word branches from position `i` on keep solutions free of adjacent
/// fillers.
pub proof fn lemma_scan_no_adjacent(
    m: Map<Seq<u8>, Seq<Seq<char>>>,
    digits: Seq<u8>,
    start: int,
    i: int,
    acc: Seq<Seq<char>>,
)
    requires
        dict_wf(m),
        0 <= start <= i <= digits.len(),
        no_adjacent_fillers(acc),
    ensures
        forall|s: int|
            0 <= s < scan_sols(m, digits, start, i, acc).len() ==> no_adjacent_fillers(
                #[trigger] scan_sols(m, digits, start, i, acc)[s],
            ),
    decreases digits.len() - start, 1int, digits.len() - i,
{
    let len = digits.len() as int;
    if i < len {
        let k = digits.subrange(start, i + 1);
        lemma_scan_no_adjacent(m, digits, start, i + 1, acc);
        if m.dom().contains(k) {
            lemma_words_no_adjacent(m, digits, start, i + 1, m[k], 0, acc);
        }
        let here = if m.dom().contains(k) {
            words_sols(m, digits, i + 1, m[k], 0, acc)
        } else {
            Seq::<Seq<Seq<char>>>::empty()
        };
        let rest = scan_sols(m, digits, start, i + 1, acc);
        assert forall|s: int|
            0 <= s < scan_sols(m, digits, start, i, acc).len() implies no_adjacent_fillers(
            #[trigger] scan_sols(m, digits, start, i, acc)[s],
        ) by {
            if s < here.len() {
                assert(scan_sols(m, digits, start, i, acc)[s] == here[s]);
            } else {
                assert(scan_sols(m, digits, start, i, acc)[s] == rest[s - here.len()]);
            }
        }
    }
}

/// Appending words that spell a non-empty digit sequence keeps solutions
/// free of adjacent fillers.
pub proof fn lemma_words_no_adjacent(
    m: Map<Seq<u8>, Seq<Seq<char>>>,
    digits: Seq<u8>,
    start: int,
    next: int,
    ws: Seq<Seq<char>>,
    j: int,
    acc: Seq<Seq<char>>,
)
    requires
        dict_wf(m),
        0 <= start < next <= digits.len(),
        0 <= j <= ws.len(),
        no_adjacent_fillers(acc),
        forall|jj: int|
            0 <= jj < ws.len() ==> word_digits(#[trigger] ws[jj]) == digits.subrange(start, next),
    ensures
        forall|s: int|
            0 <= s < words_sols(m, digits, next, ws, j, acc).len() ==> no_adjacent_fillers(
                #[trigger] words_sols(m, digits, next, ws, j, acc)[s],
            ),
    decreases digits.len() - next, 3int, ws.len() - j,
{
    if j < ws.len() {
        let w = ws[j];
        let acc2 = acc.push(w);
        assert(!is_filler(w)) by {
            if is_filler(w) {
                lemma_filler_word_digits(w);
                assert(digits.subrange(start, next).len() == next - start);
            }
        }
        assert(no_adjacent_fillers(acc2)) by {
            assert forall|i: int|
                0 <= i && i + 1 < acc2.len() implies !(is_filler(#[trigger] acc2[i]) && is_filler(
                acc2[i + 1],
            )) by {
                if i + 1 < acc.len() {
                    assert(acc2[i] == acc[i] && acc2[i + 1] == acc[i + 1]);
                } else {
                    assert(acc2[i + 1] == w);
                }
            }
        }
        lemma_no_adjacent_fillers(m, digits, next, acc2);
        lemma_words_no_adjacent(m, digits, start, next, ws, j + 1, acc);
        let branch = search_all(m, digits, next, acc2);
        let rest = words_sols(m, digits, next, ws, j + 1, acc);
        assert forall|s: int|
            0 <= s < words_sols(m, digits, next, ws, j, acc).len() implies no_adjacent_fillers(
            #[trigger] words_sols(m, digits, next, ws, j, acc)[s],
        ) by {
            if s < branch.len() {
                assert(words_sols(m, digits, next, ws, j, acc)[s] == branch[s]);
            } else {
                assert(words_sols(m, digits, next, ws, j, acc)[s] == rest[s - branch.len()]);
            }
        }
    }
}

/// Characters equal up to case are letters together, and carry the same
/// keypad digit.
pub proof fn lemma_char_case_digit(a: char, b: char)
    requires
        char_case_eq(a, b),
    ensures
        is_letter(a) == is_letter(b),
        is_letter(a) ==> letter_digit(a) == letter_digit(b),
{
}

/// Law: a word's digit value is case-insensitive — two words equal up to
/// ASCII letter case have the same digit value, so they share one
/// dictionary key.
pub proof fn lemma_case_insensitive(a: Seq<char>, b: Seq<char>)
    requires
        a.len() == b.len(),
        forall|i: int| 0 <= i < a.len() ==> char_case_eq(#[trigger] a[i], b[i]),
    ensures
        word_digits(a) == word_digits(b),
    decreases a.len(),
{
    if a.len() > 0 {
        assert(forall|i: int|
            0 <= i < a.drop_last().len() ==> char_case_eq(
                #[trigger] a.drop_last()[i],
                b.drop_last()[i],
            ));
        lemma_case_insensitive(a.drop_last(), b.drop_last());
        assert(char_case_eq(a[a.len() - 1], b[b.len() - 1]));
        lemma_char_case_digit(a.last(), b.last());
        assert(word_digits(a) =~= word_digits(b));
    }
}

/// Law: a digit sequence of length at most one always has a solution —
/// the empty solution for no digits; a word or the lone filler otherwise.
/// (Longer sequences can have none: two digits with no word match dead-end
/// on the adjacent-filler rule.)
pub proof fn lemma_short_number_has_solution(m: Map<Seq<u8>, Seq<Seq<char>>>, digits: Seq<u8>)
    requires
        dict_wf(m),
        digits.len() <= 1,
        forall|q: int| 0 <= q < digits.len() ==> digits[q] < 10,
    ensures
        solutions_for(m, digits).len() >= 1,
{
    let acc = Seq::<Seq<char>>::empty();
    if digits.len() == 0 {
        assert(search_all(m, digits, 0, acc).len() == 1);
    } else {
        let k = digits.subrange(0, 1);
        assert(k =~= digits);
        if m.dom().contains(k) {
            let ws = m[k];
            assert(ws.len() >= 1);
            assert(search_all(m, digits, 1, acc.push(ws[0])).len() == 1);
            assert(words_sols(m, digits, 1, ws, 0, acc).len() >= 1);
            assert(scan_sols(m, digits, 0, 0, acc).len() >= 1);
            assert(search_all(m, digits, 0, acc).len() >= scan_sols(m, digits, 0, 0, acc).len());
        } else {
            assert(!scan_found(m, digits, 0, 1));
            assert(!scan_found(m, digits, 0, 0));
            assert(!last_is_digit(acc));
            let acc2 = acc.push(seq![digit_char(digits[0])]);
            assert(search_all(m, digits, 1, acc2).len() == 1);
            assert(search_all(m, digits, 0, acc).len() >= 1);
        }
    }
}

/// Each of the words under a key, appended at the end of the digits,
/// stands somewhere in the word branches.
pub proof fn lemma_words_sols_at_end(
    m: Map<Seq<u8>, Seq<Seq<char>>>,
    digits: Seq<u8>,
    ws: Seq<Seq<char>>,
    j: int,
    acc: Seq<Seq<char>>,
)
    requires
        0 <= j <= ws.len(),
    ensures
        forall|jj: int|
            j <= jj < ws.len() ==> words_sols(m, digits, digits.len() as int, ws, j, acc).contains(
                acc.push(#[trigger] ws[jj]),
            ),
    decreases ws.len() - j,
{
    let len = digits.len() as int;
    if j < ws.len() {
        assert(search_all(m, digits, len, acc.push(ws[j])) =~= seq![acc.push(ws[j])]);
        lemma_words_sols_at_end(m, digits, ws, j + 1, acc);
        let whole = words_sols(m, digits, len, ws, j, acc);
        let rest = words_sols(m, digits, len, ws, j + 1, acc);
        assert forall|jj: int| j <= jj < ws.len() implies whole.contains(
            acc.push(#[trigger] ws[jj]),
        ) by {
            if jj == j {
                assert(whole[0] == acc.push(ws[j]));
            } else {
                assert(rest.contains(acc.push(ws[jj])));
                let idx = choose|idx: int|
                    0 <= idx < rest.len() && rest[idx] == acc.push(ws[jj]);
                assert(whole[1 + idx] == acc.push(ws[jj]));
            }
        }
    }
}

/// A solution among the branches of the whole-suffix key stands among the
/// branches scanned from any earlier position.
pub proof fn lemma_scan_sols_carry(
    m: Map<Seq<u8>, Seq<Seq<char>>>,
    digits: Seq<u8>,
    start: int,
    i: int,
    acc: Seq<Seq<char>>,
    x: Seq<Seq<char>>,
)
    requires
        0 <= start <= i < digits.len(),
        m.dom().contains(digits.subrange(start, digits.len() as int)),
        words_sols(
            m,
            digits,
            digits.len() as int,
            m[digits.subrange(start, digits.len() as int)],
            0,
            acc,
        ).contains(x),
    ensures
        scan_sols(m, digits, start, i, acc).contains(x),
    decreases digits.len() - i,
{
    let len = digits.len() as int;
    let kw = digits.subrange(start, len);
    let target = words_sols(m, digits, len, m[kw], 0, acc);
    let whole = scan_sols(m, digits, start, i, acc);
    if i == len - 1 {
        assert(digits.subrange(start, i + 1) =~= kw);
        assert(scan_sols(m, digits, start, i + 1, acc) =~= Seq::<Seq<Seq<char>>>::empty());
        let idx = choose|idx: int| 0 <= idx < target.len() && target[idx] == x;
        assert(whole[idx] == x);
    } else {
        lemma_scan_sols_carry(m, digits, start, i + 1, acc, x);
        let k = digits.subrange(start, i + 1);
        let here = if m.dom().contains(k) {
            words_sols(m, digits, i + 1, m[k], 0, acc)
        } else {
            Seq::<Seq<Seq<char>>>::empty()
        };
        let rest = scan_sols(m, digits, start, i + 1, acc);
        let idx = choose|idx: int| 0 <= idx < rest.len() && rest[idx] == x;
        assert(whole[here.len() + idx] == x);
    }
}

/// Every token from position `from` on is a filler or a dictionary word
/// filed under its own digit value.
pub open spec fn tokens_from_dict(
    m: Map<Seq<u8>, Seq<Seq<char>>>,
    sol: Seq<Seq<char>>,
    from: int,
) -> bool {
    forall|t: int|
        from <= t < sol.len() ==> is_filler(#[trigger] sol[t]) || (m.dom().contains(
            word_digits(sol[t]),
        ) && m[word_digits(sol[t])].contains(sol[t]))
}

/// The solution begins with the accumulated tokens, unchanged.
pub open spec fn extends_tokens(acc: Seq<Seq<char>>, sol: Seq<Seq<char>>) -> bool {
    sol.len() >= acc.len() && sol.subrange(0, acc.len() as int) == acc
}

/// Every solution found from `start` keeps the accumulated tokens as its
/// prefix, and every token it adds is a filler or a dictionary word filed
/// under its own digit value; past the end of the digits nothing is added.
pub proof fn lemma_tokens_from_dict(
    m: Map<Seq<u8>, Seq<Seq<char>>>,
    digits: Seq<u8>,
    start: int,
    acc: Seq<Seq<char>>,
)
    requires
        dict_wf(m),
        0 <= start <= digits.len(),
    ensures
        forall|s: int|
            0 <= s < search_all(m, digits, start, acc).len() ==> {
                let sol = #[trigger] search_all(m, digits, start, acc)[s];
                extends_tokens(acc, sol) && tokens_from_dict(m, sol, acc.len() as int) && (start
                    < digits.len() ==> sol.len() > acc.len())
            },
    decreases digits.len() - start, 2int, 0int,
{
    if start == digits.len() {
        assert(acc.subrange(0, acc.len() as int) =~= acc);
    } else {
        lemma_scan_tokens(m, digits, start, start, acc);
        let matched = scan_sols(m, digits, start, start, acc);
        if !scan_found(m, digits, start, start) && !last_is_digit(acc) {
            let t = seq![digit_char(digits[start])];
            let acc2 = acc.push(t);
            assert(is_filler(t));
            lemma_tokens_from_dict(m, digits, start + 1, acc2);
            let rest = search_all(m, digits, start + 1, acc2);
            assert forall|s: int|
                0 <= s < search_all(m, digits, start, acc).len() implies {
                let sol = #[trigger] search_all(m, digits, start, acc)[s];
                extends_tokens(acc, sol) && tokens_from_dict(m, sol, acc.len() as int) && sol.len()
                    > acc.len()
            } by {
                if s < matched.len() {
                    assert(search_all(m, digits, start, acc)[s] == matched[s]);
                } else {
                    let sol = rest[s - matched.len()];
                    assert(search_all(m, digits, start, acc)[s] == sol);
                    assert(extends_tokens(acc2, sol));
                    assert forall|q: int| 0 <= q < acc.len() implies sol[q] == acc[q] by {
                        assert(sol.subrange(0, acc2.len() as int)[q] == acc2[q]);
                    }
                    assert(sol.subrange(0, acc.len() as int) =~= acc);
                    assert(sol.subrange(0, acc2.len() as int)[acc.len() as int]
                        == acc2[acc.len() as int]);
                    assert(sol[acc.len() as int] == t);
                }
            }
        }
    }
}

/// The solutions scanned from position `i` extend the accumulated tokens
/// by a dictionary word first, never by a filler.
pub proof fn lemma_scan_tokens(
    m: Map<Seq<u8>, Seq<Seq<char>>>,
    digits: Seq<u8>,
    start: int,
    i: int,
    acc: Seq<Seq<char>>,
)
    requires
        dict_wf(m),
        0 <= start <= i <= digits.len(),
    ensures
        forall|s: int|
            0 <= s < scan_sols(m, digits, start, i, acc).len() ==> {
                let sol = #[trigger] scan_sols(m, digits, start, i, acc)[s];
                extends_tokens(acc, sol) && tokens_from_dict(m, sol, acc.len() as int) && sol.len()
                    > acc.len() && !is_filler(sol[acc.len() as int])
            },
    decreases digits.len() - start, 1int, digits.len() - i,
{
    let len = digits.len() as int;
    if i < len {
        let k = digits.subrange(start, i + 1);
        lemma_scan_tokens(m, digits, start, i + 1, acc);
        if m.dom().contains(k) {
            assert forall|jj: int| 0 <= jj < m[k].len() implies word_digits(
                #[trigger] m[k][jj],
            ).len() >= 1 && m.dom().contains(word_digits(m[k][jj])) && m[word_digits(
                m[k][jj],
            )].contains(m[k][jj]) by {
                assert(word_digits(m[k][jj]) == k);
                assert(m[k].contains(m[k][jj]));
            }
            lemma_words_tokens(m, digits, i + 1, m[k], 0, acc);
        }
        let here = if m.dom().contains(k) {
            words_sols(m, digits, i + 1, m[k], 0, acc)
        } else {
            Seq::<Seq<Seq<char>>>::empty()
        };
        let rest = scan_sols(m, digits, start, i + 1, acc);
        assert forall|s: int|
            0 <= s < scan_sols(m, digits, start, i, acc).len() implies {
            let sol = #[trigger] scan_sols(m, digits, start, i, acc)[s];
            extends_tokens(acc, sol) && tokens_from_dict(m, sol, acc.len() as int) && sol.len()
                > acc.len() && !is_filler(sol[acc.len() as int])
        } by {
            if s < here.len() {
                assert(scan_sols(m, digits, start, i, acc)[s] == here[s]);
            } else {
                assert(scan_sols(m, digits, start, i, acc)[s] == rest[s - here.len()]);
            }
        }
    }
}

/// The solutions gained through the words `ws[j..]`, each a dictionary
/// word of non-empty digit value, extend the accumulated tokens by that
/// word first.
pub proof fn lemma_words_tokens(
    m: Map<Seq<u8>, Seq<Seq<char>>>,
    digits: Seq<u8>,
    next: int,
    ws: Seq<Seq<char>>,
    j: int,
    acc: Seq<Seq<char>>,
)
    requires
        dict_wf(m),
        0 <= next <= digits.len(),
        0 <= j <= ws.len(),
        forall|jj: int|
            0 <= jj < ws.len() ==> word_digits(#[trigger] ws[jj]).len() >= 1 && m.dom().contains(
                word_digits(ws[jj]),
            ) && m[word_digits(ws[jj])].contains(ws[jj]),
    ensures
        forall|s: int|
            0 <= s < words_sols(m, digits, next, ws, j, acc).len() ==> {
                let sol = #[trigger] words_sols(m, digits, next, ws, j, acc)[s];
                extends_tokens(acc, sol) && tokens_from_dict(m, sol, acc.len() as int) && sol.len()
                    > acc.len() && !is_filler(sol[acc.len() as int])
            },
    decreases digits.len() - next, 3int, ws.len() - j,
{
    if j < ws.len() {
        let w = ws[j];
        let acc2 = acc.push(w);
        assert(!is_filler(w)) by {
            if is_filler(w) {
                lemma_filler_word_digits(w);
            }
        }
        lemma_tokens_from_dict(m, digits, next, acc2);
        lemma_words_tokens(m, digits, next, ws, j + 1, acc);
        let branch = search_all(m, digits, next, acc2);
        let rest = words_sols(m, digits, next, ws, j + 1, acc);
        assert forall|s: int|
            0 <= s < words_sols(m, digits, next, ws, j, acc).len() implies {
            let sol = #[trigger] words_sols(m, digits, next, ws, j, acc)[s];
            extends_tokens(acc, sol) && tokens_from_dict(m, sol, acc.len() as int) && sol.len()
                > acc.len() && !is_filler(sol[acc.len() as int])
        } by {
            if s < branch.len() {
                let sol = branch[s];
                assert(words_sols(m, digits, next, ws, j, acc)[s] == sol);
                assert(extends_tokens(acc2, sol));
                assert forall|q: int| 0 <= q < acc.len() implies sol[q] == acc[q] by {
                    assert(sol.subrange(0, acc2.len() as int)[q] == acc2[q]);
                }
                assert(sol.subrange(0, acc.len() as int) =~= acc);
                assert(sol.subrange(0, acc2.len() as int)[acc.len() as int]
                    == acc2[acc.len() as int]);
                assert(sol[acc.len() as int] == w);
            } else {
                assert(words_sols(m, digits, next, ws, j, acc)[s] == rest[s - branch.len()]);
            }
        }
    }
}

/// Law: a one-token solution that is not a lone filler is a dictionary
/// word whose digit value is the whole digit sequence — no other word can
/// stand alone.
pub proof fn lemma_one_token_solutions(m: Map<Seq<u8>, Seq<Seq<char>>>, digits: Seq<u8>)
    requires
        dict_wf(m),
        forall|q: int| 0 <= q < digits.len() ==> digits[q] < 10,
    ensures
        forall|s: int|
            0 <= s < solutions_for(m, digits).len() && (#[trigger] solutions_for(m, digits)[s]).len()
                == 1 && !is_filler(solutions_for(m, digits)[s][0]) ==> m.dom().contains(digits)
                && m[digits].contains(solutions_for(m, digits)[s][0]),
{
    let acc = Seq::<Seq<char>>::empty();
    lemma_tokens_from_dict(m, digits, 0, acc);
    lemma_solutions_cover(m, digits, 0, acc);
    assert forall|s: int|
        0 <= s < solutions_for(m, digits).len() && (#[trigger] solutions_for(m, digits)[s]).len()
            == 1 && !is_filler(solutions_for(m, digits)[s][0]) implies m.dom().contains(digits)
        && m[digits].contains(solutions_for(m, digits)[s][0]) by {
        let sol = solutions_for(m, digits)[s];
        let w = sol[0];
        assert(tokens_from_dict(m, sol, 0));
        assert(m.dom().contains(word_digits(w)) && m[word_digits(w)].contains(w));
        assert(sol_digits(sol) == sol_digits(acc) + digits.subrange(0, digits.len() as int));
        assert(sol.drop_last().len() == 0);
        assert(sol_digits(sol.drop_last()) =~= Seq::<u8>::empty());
        assert(sol.last() == w);
        assert(sol_digits(sol) =~= word_digits(w));
        assert(digits.subrange(0, digits.len() as int) =~= digits);
        assert(word_digits(w) =~= digits);
    }
}

/// Law: a solution that begins with a filler arises only when no
/// dictionary word matches any prefix of the digits — the all-fillers
/// fallback is taken only without a word match.
pub proof fn lemma_filler_start_needs_no_match(m: Map<Seq<u8>, Seq<Seq<char>>>, digits: Seq<u8>)
    requires
        dict_wf(m),
        digits.len() >= 1,
    ensures
        forall|s: int|
            0 <= s < solutions_for(m, digits).len() && (#[trigger] solutions_for(m, digits)[s]).len()
                >= 1 && is_filler(solutions_for(m, digits)[s][0]) ==> !scan_found(m, digits, 0, 0),
{
    let acc = Seq::<Seq<char>>::empty();
    if scan_found(m, digits, 0, 0) {
        lemma_scan_tokens(m, digits, 0, 0, acc);
        assert(search_all(m, digits, 0, acc) == scan_sols(m, digits, 0, 0, acc));
    }
}

/// Law: when the whole digit sequence is the key of some words, each of
/// those words appears as a one-token solution.
pub proof fn lemma_whole_word_solutions(m: Map<Seq<u8>, Seq<Seq<char>>>, digits: Seq<u8>)
    requires
        dict_wf(m),
        digits.len() >= 1,
        m.dom().contains(digits),
    ensures
        forall|j: int|
            0 <= j < m[digits].len() ==> solutions_for(m, digits).contains(
                seq![#[trigger] m[digits][j]],
            ),
{
    let acc = Seq::<Seq<char>>::empty();
    let len = digits.len() as int;
    assert(digits.subrange(0, len) =~= digits);
    lemma_words_sols_at_end(m, digits, m[digits], 0, acc);
    assert forall|j: int| 0 <= j < m[digits].len() implies solutions_for(m, digits).contains(
        seq![#[trigger] m[digits][j]],
    ) by {
        let x = acc.push(m[digits][j]);
        assert(x =~= seq![m[digits][j]]);
        lemma_scan_sols_carry(m, digits, 0, 0, acc, x);
        let matched = scan_sols(m, digits, 0, 0, acc);
        let idx = choose|idx: int| 0 <= idx < matched.len() && matched[idx] == x;
        assert(search_all(m, digits, 0, acc)[idx] == x);
    }
}

} // verus!
