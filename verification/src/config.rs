//! Configuration fallbacks for the sink's limits.
//!
//! The size ceiling and the retention count come from optional
//! environment-sourced strings. A value parses like a decimal unsigned
//! integer (surrounding whitespace and one leading `+` allowed); a missing,
//! unparsable or non-positive value falls back to the default. Reading the
//! process environment is the caller's part; these functions take the raw
//! string, if any, and pin down exactly which value results.

use vstd::prelude::*;
use vstd::string::*;

verus! {

/// Default size ceiling of the active log file: 10 MiB.
pub const DEFAULT_NODE_LOG_MAX_BYTES: u64 = 10 * 1024 * 1024;

/// Default retained rotated-file count.
pub const DEFAULT_NODE_LOG_MAX_FILES: usize = 5;

/// Whitespace that surrounding trim removes: the Unicode White_Space set
/// (as `str::trim` uses) — tab through carriage return, space, next line,
/// no-break space, ogham space mark, the en-quad..hair-space block, line and
/// paragraph separators, narrow no-break space, medium mathematical space,
/// and ideographic space.
pub open spec fn is_space(c: char) -> bool {
    (9 <= c as int && c as int <= 13) || c as int == 32 || c as int == 0x85 || c as int == 0xa0
        || c as int == 0x1680 || (0x2000 <= c as int && c as int <= 0x200a) || c as int == 0x2028
        || c as int == 0x2029 || c as int == 0x202f || c as int == 0x205f || c as int == 0x3000
}

/// `s` with leading whitespace removed.
pub open spec fn trim_start_s(s: Seq<char>) -> Seq<char>
    decreases s.len(),
{
    if s.len() > 0 && is_space(s[0]) {
        trim_start_s(s.drop_first())
    } else {
        s
    }
}

/// `s` with trailing whitespace removed.
pub open spec fn trim_end_s(s: Seq<char>) -> Seq<char>
    decreases s.len(),
{
    if s.len() > 0 && is_space(s.last()) {
        trim_end_s(s.drop_last())
    } else {
        s
    }
}

/// `s` with surrounding whitespace removed.
pub open spec fn spec_trim(s: Seq<char>) -> Seq<char> {
    trim_end_s(trim_start_s(s))
}

/// A decimal digit.
pub open spec fn is_digit(c: char) -> bool {
    48 <= c as int && c as int <= 57
}

/// The numeric value of a digit character.
pub open spec fn digit_val(c: char) -> int {
    c as int - 48
}

/// Whether every character is a decimal digit.
pub open spec fn all_digits(s: Seq<char>) -> bool {
    forall|i: int| 0 <= i < s.len() ==> is_digit(s[i])
}

/// The value of a digit string, most significant digit first.
pub open spec fn digits_val(s: Seq<char>) -> int
    decreases s.len(),
{
    if s.len() == 0 {
        0
    } else {
        digits_val(s.drop_last()) * 10 + digit_val(s.last())
    }
}

/// The digits of a trimmed value: one leading `+` is allowed and skipped.
pub open spec fn digits_part(t: Seq<char>) -> Seq<char> {
    if t.len() > 0 && t[0] == '+' {
        t.drop_first()
    } else {
        t
    }
}

/// How a decimal string parses as a `u64`: trim, allow one leading `+`,
/// then at least one digit, digits only, and a value that fits.
pub open spec fn spec_parse_u64(s: Seq<char>) -> Option<u64> {
    let t = digits_part(spec_trim(s));
    if t.len() > 0 && all_digits(t) && digits_val(t) <= u64::MAX {
        Some(digits_val(t) as u64)
    } else {
        None
    }
}

/// A parsed value counts only when it is positive.
pub open spec fn spec_parse_positive(s: Seq<char>) -> Option<u64> {
    match spec_parse_u64(s) {
        Some(n) => if n > 0 {
            Some(n)
        } else {
            None
        },
        None => None,
    }
}

/// Where the leading whitespace of `s` ends, there `trim_start_s` cuts.
proof fn lemma_trim_start_is(s: Seq<char>, a: int)
    requires
        0 <= a <= s.len(),
        forall|j: int| 0 <= j < a ==> is_space(s[j]),
        a < s.len() ==> !is_space(s[a]),
    ensures
        trim_start_s(s) == s.skip(a),
    decreases s.len(),
{
    if a == 0 {
        assert(s.skip(0) =~= s);
    } else {
        let r = s.drop_first();
        assert(forall|j: int| 0 <= j < r.len() ==> r[j] == s[j + 1]);
        lemma_trim_start_is(r, a - 1);
        assert(r.skip(a - 1) =~= s.skip(a));
    }
}

/// Where the trailing whitespace of `s` starts, there `trim_end_s` cuts.
proof fn lemma_trim_end_is(s: Seq<char>, e: int)
    requires
        0 <= e <= s.len(),
        forall|j: int| e <= j < s.len() ==> is_space(s[j]),
        e > 0 ==> !is_space(s[e - 1]),
    ensures
        trim_end_s(s) == s.take(e),
    decreases s.len(),
{
    if e == s.len() {
        assert(s.take(e) =~= s);
    } else {
        let r = s.drop_last();
        assert(is_space(s.last()));
        lemma_trim_end_is(r, e);
        assert(r.take(e) =~= s.take(e));
    }
}

/// A digit string's value is not negative.
proof fn lemma_digits_val_nonneg(s: Seq<char>)
    requires
        all_digits(s),
    ensures
        digits_val(s) >= 0,
    decreases s.len(),
{
    if s.len() > 0 {
        let r = s.drop_last();
        assert(forall|i: int| 0 <= i < r.len() ==> r[i] == s[i]);
        lemma_digits_val_nonneg(r);
        assert(digits_val(r) * 10 >= digits_val(r)) by (nonlinear_arith)
            requires
                digits_val(r) >= 0,
        ;
    }
}

/// Extending a digit string never shrinks its value.
proof fn lemma_digits_val_prefix(s: Seq<char>, i: int)
    requires
        all_digits(s),
        0 <= i <= s.len(),
    ensures
        digits_val(s.take(i)) <= digits_val(s),
    decreases s.len(),
{
    if i == s.len() {
        assert(s.take(i) =~= s);
    } else {
        let r = s.drop_last();
        assert(forall|j: int| 0 <= j < r.len() ==> r[j] == s[j]);
        lemma_digits_val_prefix(r, i);
        assert(r.take(i) =~= s.take(i));
        lemma_digits_val_nonneg(r);
        assert(digits_val(r) * 10 >= digits_val(r)) by (nonlinear_arith)
            requires
                digits_val(r) >= 0,
        ;
    }
}

/// Whether `c` is whitespace in the sense of [`is_space`].
fn is_space_c(c: char) -> (r: bool)
    ensures
        r == is_space(c),
{
    let u = c as u32;
    (9 <= u && u <= 13) || u == 32 || u == 0x85 || u == 0xa0 || u == 0x1680 || (0x2000 <= u && u
        <= 0x200a) || u == 0x2028 || u == 0x2029 || u == 0x202f || u == 0x205f || u == 0x3000
}

/// Parse a decimal string to a positive `u64`, exactly as
/// [`spec_parse_positive`] says: `None` on anything unparsable or
/// non-positive.
pub fn parse_positive_u64(s: &str) -> (r: Option<u64>)
    ensures
        r == spec_parse_positive(s@),
{
    let n = s.unicode_len();
    let mut start: usize = 0;
    while start < n && is_space_c(s.get_char(start))
        invariant
            n == s@.len(),
            start <= n,
            forall|j: int| 0 <= j < start ==> is_space(s@[j]),
        decreases n - start,
    {
        start = start + 1;
    }
    let mut end: usize = n;
    while end > start && is_space_c(s.get_char(end - 1))
        invariant
            n == s@.len(),
            start <= end <= n,
            forall|j: int| 0 <= j < start ==> is_space(s@[j]),
            forall|j: int| end <= j < n ==> is_space(s@[j]),
        decreases end,
    {
        end = end - 1;
    }
    proof {
        lemma_trim_start_is(s@, start as int);
        let sk = s@.skip(start as int);
        assert(forall|j: int| 0 <= j < sk.len() ==> sk[j] == s@[j + start]);
        lemma_trim_end_is(sk, end - start);
        assert(spec_trim(s@) == sk.take(end - start));
        assert(sk.take(end - start) =~= s@.subrange(start as int, end as int));
    }
    let ghost t = spec_trim(s@);
    let has_plus = end > start && s.get_char(start) == '+';
    let di: usize = if has_plus {
        start + 1
    } else {
        start
    };
    let ghost d = digits_part(t);
    proof {
        if has_plus {
            assert(t[0] == s@[start as int]);
            assert(d =~= s@.subrange(di as int, end as int));
        } else {
            if t.len() > 0 {
                assert(t[0] == s@[start as int]);
            }
            assert(d =~= s@.subrange(di as int, end as int));
        }
    }
    if di == end {
        proof {
            assert(d.len() == 0);
        }
        return None;
    }
    let mut val: u64 = 0;
    let mut j: usize = di;
    while j < end
        invariant
            n == s@.len(),
            di <= j <= end <= n,
            t == spec_trim(s@),
            d == digits_part(t),
            d =~= s@.subrange(di as int, end as int),
            d.len() == end - di,
            all_digits(d.take(j - di)),
            val == digits_val(d.take(j - di)),
        decreases end - j,
    {
        let c = s.get_char(j);
        let u = c as u32;
        proof {
            assert(d[j - di] == s@[j as int]);
        }
        if u < 48 || u > 57 {
            proof {
                assert(!is_digit(d[j - di]));
                assert(!all_digits(d));
            }
            return None;
        }
        let dv = (u - 48) as u64;
        proof {
            assert(is_digit(d[j - di]));
            assert(dv as int == digit_val(d[j - di]));
            assert(d.take(j - di + 1).drop_last() =~= d.take(j - di));
            assert(d.take(j - di + 1).last() == d[j - di]);
        }
        let stepped = match val.checked_mul(10) {
            Some(x) => x.checked_add(dv),
            None => None,
        };
        match stepped {
            Some(next) => {
                val = next;
            },
            None => {
                proof {
                    // the value of the scanned digits already exceeds u64,
                    // so the whole digit string cannot fit either
                    assert(digits_val(d.take(j - di + 1)) == val * 10 + dv);
                    assert(digits_val(d.take(j - di + 1)) > u64::MAX);
                    if all_digits(d) {
                        lemma_digits_val_prefix(d, j - di + 1);
                        assert(digits_val(d) > u64::MAX);
                    }
                }
                return None;
            },
        }
        proof {
            assert(all_digits(d.take(j - di + 1)));
            assert(val == digits_val(d.take(j - di + 1)));
        }
        j = j + 1;
    }
    proof {
        assert(d.take(end - di) =~= d);
        assert(all_digits(d));
        assert(val == digits_val(d));
        assert(spec_parse_u64(s@) == Some(val));
    }
    if val == 0 {
        None
    } else {
        Some(val)
    }
}

/// The effective size ceiling: the raw environment value if it parses to a
/// positive number, else the 10 MiB default.
pub fn node_log_max_bytes(raw: Option<&str>) -> (r: u64)
    ensures
        r == match raw {
            Some(s) => match spec_parse_positive(s@) {
                Some(n) => n,
                None => DEFAULT_NODE_LOG_MAX_BYTES,
            },
            None => DEFAULT_NODE_LOG_MAX_BYTES,
        },
{
    match raw {
        Some(s) => match parse_positive_u64(s) {
            Some(n) => n,
            None => DEFAULT_NODE_LOG_MAX_BYTES,
        },
        None => DEFAULT_NODE_LOG_MAX_BYTES,
    }
}

/// The effective retention count: the raw environment value if it parses to
/// a positive number that fits a `usize`, else the default of 5.
pub fn node_log_max_files(raw: Option<&str>) -> (r: usize)
    ensures
        r == match raw {
            Some(s) => match spec_parse_positive(s@) {
                Some(n) => if n <= usize::MAX {
                    n as usize
                } else {
                    DEFAULT_NODE_LOG_MAX_FILES
                },
                None => DEFAULT_NODE_LOG_MAX_FILES,
            },
            None => DEFAULT_NODE_LOG_MAX_FILES,
        },
{
    match raw {
        Some(s) => match parse_positive_u64(s) {
            Some(n) => if n <= usize::MAX as u64 {
                n as usize
            } else {
                DEFAULT_NODE_LOG_MAX_FILES
            },
            None => DEFAULT_NODE_LOG_MAX_FILES,
        },
        None => DEFAULT_NODE_LOG_MAX_FILES,
    }
}

} // verus!
