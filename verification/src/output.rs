//! Output formatting: one line per solution, the number string as given,
//! a colon, then the tokens separated by single spaces.

use vstd::prelude::*;

verus! {

/// The text of a token sequence: one leading space before each token.
pub open spec fn tokens_text(sol: Seq<Seq<char>>) -> Seq<char>
    decreases sol.len(),
{
    if sol.len() == 0 {
        Seq::empty()
    } else {
        tokens_text(sol.drop_last()) + seq![' '] + sol.last()
    }
}

/// The output line for one solution: the number as given, a colon, and
/// the tokens space-separated; a solution with no tokens gives the bare
/// `number:` line.
pub fn format_solution(num: &str, sol: &Vec<String>) -> (line: String)
    ensures
        line@ == num@ + seq![':'] + tokens_text(sol.deep_view()),
{
    let mut line = String::from_str(num);
    line.append(":");
    proof {
        reveal_strlit(":");
        assert(line@ =~= num@ + seq![':']);
    }
    let n = sol.len();
    for i in 0..n
        invariant
            n == sol@.len(),
            line@ == num@ + seq![':'] + tokens_text(sol.deep_view().subrange(0, i as int)),
    {
        line.append(" ");
        line.append(sol[i].as_str());
        proof {
            reveal_strlit(" ");
            assert(sol.deep_view().subrange(0, i + 1).drop_last() =~= sol.deep_view().subrange(
                0,
                i as int,
            ));
            assert(sol.deep_view().subrange(0, i + 1).last() == sol.deep_view()[i as int]);
            assert(line@ =~= num@ + seq![':'] + tokens_text(sol.deep_view().subrange(0, i + 1)));
        }
    }
    proof {
        assert(sol.deep_view().subrange(0, n as int) =~= sol.deep_view());
    }
    line
}

} // verus!
