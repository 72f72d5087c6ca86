//! Path naming: the active log path and the rotated-file names.

use vstd::prelude::*;
use vstd::string::*;

verus! {

/// The decimal digit character for `d` (0 through 9).
pub open spec fn digit_char(d: nat) -> char {
    if d == 0 {
        '0'
    } else if d == 1 {
        '1'
    } else if d == 2 {
        '2'
    } else if d == 3 {
        '3'
    } else if d == 4 {
        '4'
    } else if d == 5 {
        '5'
    } else if d == 6 {
        '6'
    } else if d == 7 {
        '7'
    } else if d == 8 {
        '8'
    } else {
        '9'
    }
}

/// The decimal digits of `n`, most significant first, no leading zeros
/// (except for `n == 0` itself).
pub open spec fn dec_digits(n: nat) -> Seq<char>
    decreases n,
{
    if n < 10 {
        seq![digit_char(n)]
    } else {
        dec_digits(n / 10) + seq![digit_char(n % 10)]
    }
}

/// The one-character string for digit `d`.
fn digit_str(d: u64) -> (r: &'static str)
    requires
        d < 10,
    ensures
        r@ == seq![digit_char(d as nat)],
{
    let r: &'static str = if d == 0 {
        "0"
    } else if d == 1 {
        "1"
    } else if d == 2 {
        "2"
    } else if d == 3 {
        "3"
    } else if d == 4 {
        "4"
    } else if d == 5 {
        "5"
    } else if d == 6 {
        "6"
    } else if d == 7 {
        "7"
    } else if d == 8 {
        "8"
    } else {
        "9"
    };
    proof {
        reveal_strlit("0");
        reveal_strlit("1");
        reveal_strlit("2");
        reveal_strlit("3");
        reveal_strlit("4");
        reveal_strlit("5");
        reveal_strlit("6");
        reveal_strlit("7");
        reveal_strlit("8");
        reveal_strlit("9");
        assert(r@ =~= seq![digit_char(d as nat)]);
    }
    r
}

/// `n` written in decimal.
pub fn u64_to_dec(n: u64) -> (s: String)
    ensures
        s@ == dec_digits(n as nat),
    decreases n,
{
    if n < 10 {
        digit_str(n).to_owned()
    } else {
        let mut s = u64_to_dec(n / 10);
        s.append(digit_str(n % 10));
        proof {
            assert(s@ =~= dec_digits(n as nat));
        }
        s
    }
}

/// The path of the rotated file at `index`: the base path, a dot, the
/// decimal index. `.1` is the most recent rotated file, `.max_files` the
/// oldest.
pub fn rotated_log_path(base: &str, index: usize) -> (p: String)
    ensures
        p@ == base@ + seq!['.'] + dec_digits(index as nat),
{
    let mut p = base.to_owned();
    p.append(".");
    let digits = u64_to_dec(index as u64);
    p.append(digits.as_str());
    proof {
        reveal_strlit(".");
        assert(p@ =~= base@ + seq!['.'] + dec_digits(index as nat));
    }
    p
}

/// The active log path under the user's home directory:
/// `<home>/.gsv/logs/node.log`. Looking the home directory up is the
/// caller's part; this only joins the fixed tail onto it.
pub fn node_log_path(home: &str) -> (p: String)
    ensures
        p@ == home@ + "/.gsv/logs/node.log"@,
{
    let mut p = home.to_owned();
    p.append("/.gsv/logs/node.log");
    p
}

} // verus!
