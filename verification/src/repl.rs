//! Decisions the interactive shell needs: tracking parenthesis balance and
//! open string literals across submitted lines, so the shell knows when a
//! submission is complete.  The shell itself (prompts, line reading) stays
//! outside the library.

use vstd::prelude::*;

verus! {

use vstd::string::StrSliceExecFns;

/// The balance and in-string flag after scanning the characters of one line
/// from position `i`: a '"' toggles the in-string flag, and '(' and ')'
/// count only outside string literals.
pub open spec fn paren_scan(s: Seq<char>, i: int, bal: int, instr: bool) -> (int, bool)
    decreases s.len() - i,
{
    if i < 0 || i >= s.len() {
        (bal, instr)
    } else {
        let c = s[i];
        if c == '"' {
            paren_scan(s, i + 1, bal, !instr)
        } else if c == '(' && !instr {
            paren_scan(s, i + 1, bal + 1, instr)
        } else if c == ')' && !instr {
            paren_scan(s, i + 1, bal - 1, instr)
        } else {
            paren_scan(s, i + 1, bal, instr)
        }
    }
}

/// Folds one line into the running parenthesis balance and in-string flag.
/// The requirements only keep the balance within the machine integer range:
/// a line can move it by at most its own length.
pub fn update_paren_balance(line: &str, balance: &mut i32, in_string: &mut bool)
    requires
        *old(balance) + line@.len() <= i32::MAX,
        *old(balance) - line@.len() >= i32::MIN,
    ensures
        (*final(balance) as int, *final(in_string)) == paren_scan(
            line@,
            0,
            *old(balance) as int,
            *old(in_string),
        ),
{
    let n = line.unicode_len();
    let mut bal = *balance;
    let mut instr = *in_string;
    let mut i: usize = 0;
    while i < n
        invariant
            i <= n,
            n == line@.len(),
            *old(balance) - i <= bal <= *old(balance) + i,
            paren_scan(line@, 0, *old(balance) as int, *old(in_string)) == paren_scan(
                line@,
                i as int,
                bal as int,
                instr,
            ),
            *old(balance) + line@.len() <= i32::MAX,
            *old(balance) - line@.len() >= i32::MIN,
        decreases n - i,
    {
        let c = line.get_char(i);
        if c == '"' {
            instr = !instr;
        } else if c == '(' && !instr {
            bal = bal + 1;
        } else if c == ')' && !instr {
            bal = bal - 1;
        }
        i = i + 1;
    }
    *balance = bal;
    *in_string = instr;
}

} // verus!
