//! Values of literal tokens: radix conversion of integer literals and
//! unescaping of string literals.
//!
//! Policy for integer literals, explicit and deterministic: a literal
//! whose digits are malformed, or whose value does not fit in 64 bits,
//! is rejected (`None`), never truncated.

use vstd::prelude::*;

use crate::chars::{digit_val, spec_digit_val, spec_is_digit};
use crate::tokenizer::spec_escapable;

verus! {

/// Every character is a digit of `radix` or a `_` separator.
pub open spec fn spec_digits_valid(t: Seq<char>, radix: int) -> bool {
    forall|k: int| 0 <= k < t.len() ==> spec_is_digit(#[trigger] t[k], radix) || t[k] == '_'
}

/// At least one character is a digit of `radix`.
pub open spec fn spec_has_digit(t: Seq<char>, radix: int) -> bool {
    exists|k: int| 0 <= k < t.len() && spec_is_digit(#[trigger] t[k], radix)
}

/// The number read in base `radix` from `t`, `_` separators ignored.
pub open spec fn spec_raw_value(t: Seq<char>, radix: int) -> int
    decreases t.len(),
{
    if t.len() == 0 {
        0
    } else if t.last() == '_' {
        spec_raw_value(t.drop_last(), radix)
    } else {
        spec_raw_value(t.drop_last(), radix) * radix + spec_digit_val(t.last())
    }
}

/// The value of a run of digit characters in base `radix`: defined
/// exactly when the run holds digits of the radix (with `_`
/// separators), at least one of them a digit.
pub open spec fn spec_int_value(t: Seq<char>, radix: int) -> Option<int> {
    if spec_digits_valid(t, radix) && spec_has_digit(t, radix) {
        Some(spec_raw_value(t, radix))
    } else {
        None
    }
}

pub proof fn lemma_raw_value_nonneg(t: Seq<char>, radix: int)
    requires
        radix >= 2,
    ensures
        spec_raw_value(t, radix) >= 0,
    decreases t.len(),
{
    if t.len() > 0 {
        lemma_raw_value_nonneg(t.drop_last(), radix);
        if t.last() != '_' {
            assert(spec_raw_value(t.drop_last(), radix) * radix >= 0) by (nonlinear_arith)
                requires
                    spec_raw_value(t.drop_last(), radix) >= 0,
                    radix >= 2,
            ;
        }
    }
}

/// A prefix of the digits never reads as more than the whole run.
pub proof fn lemma_raw_value_prefix(t: Seq<char>, radix: int, i: int)
    requires
        radix >= 2,
        0 <= i <= t.len(),
    ensures
        spec_raw_value(t.subrange(0, i), radix) <= spec_raw_value(t, radix),
    decreases t.len() - i,
{
    if i == t.len() {
        assert(t.subrange(0, i) =~= t);
    } else {
        lemma_raw_value_prefix(t, radix, i + 1);
        let u = t.subrange(0, i + 1);
        assert(u.drop_last() =~= t.subrange(0, i));
        lemma_raw_value_nonneg(u.drop_last(), radix);
        if u.last() != '_' {
            assert(spec_raw_value(u.drop_last(), radix) * radix >= spec_raw_value(
                u.drop_last(),
                radix,
            )) by (nonlinear_arith)
                requires
                    spec_raw_value(u.drop_last(), radix) >= 0,
                    radix >= 2,
            ;
        }
    }
}

/// Reads the number in base `radix` from the characters of `text`
/// starting at `from` (past any radix prefix).  Yields `None` when a
/// character is no digit of the radix, when no digit occurs at all, or
/// when the value does not fit in 64 bits.
pub fn parse_int(text: &str, from: usize, radix: u32) -> (r: Option<u64>)
    requires
        radix == 2 || radix == 8 || radix == 10 || radix == 16,
        from <= text@.len(),
    ensures
        ({
            let t = text@.skip(from as int);
            match spec_int_value(t, radix as int) {
                Some(v) => if v <= u64::MAX {
                    r == Some(v as u64)
                } else {
                    r is None
                },
                None => r is None,
            }
        }),
{
    let ghost t = text@.skip(from as int);
    let n = text.unicode_len();
    let mut acc: u64 = 0;
    let mut seen = false;
    let mut i: usize = from;
    while i < n
        invariant
            t == text@.skip(from as int),
            radix == 2 || radix == 8 || radix == 10 || radix == 16,
            from <= i <= n,
            n == text@.len(),
            acc == spec_raw_value(t.subrange(0, i - from), radix as int),
            seen == spec_has_digit(t.subrange(0, i - from), radix as int),
            spec_digits_valid(t.subrange(0, i - from), radix as int),
        decreases n - i,
    {
        let ghost pre = t.subrange(0, i - from);
        let c = text.get_char(i);
        proof {
            assert(t.subrange(0, i + 1 - from).drop_last() =~= pre);
            assert(t.subrange(0, i + 1 - from).last() == c);
        }
        if c == '_' {
            proof {
                assert(spec_has_digit(t.subrange(0, i + 1 - from), radix as int)
                    == spec_has_digit(pre, radix as int));
            }
            i = i + 1;
            continue ;
        }
        let d = digit_val(c);
        if d >= radix {
            proof {
                assert(t[i - from] == c);
                assert(!spec_digits_valid(t, radix as int));
            }
            return None;
        }
        let m = match acc.checked_mul(radix as u64) {
            Some(m) => m,
            None => {
                proof {
                    lemma_overflow(t, radix as int, i + 1 - from);
                }
                return None;
            },
        };
        let acc2 = match m.checked_add(d as u64) {
            Some(a) => a,
            None => {
                proof {
                    lemma_overflow(t, radix as int, i + 1 - from);
                }
                return None;
            },
        };
        proof {
            assert(spec_has_digit(t.subrange(0, i + 1 - from), radix as int));
        }
        acc = acc2;
        seen = true;
        i = i + 1;
    }
    if !seen {
        proof {
            assert(t.subrange(0, n - from) =~= t);
        }
        return None;
    }
    proof {
        assert(t.subrange(0, n - from) =~= t);
    }
    Some(acc)
}

/// When a prefix of the digits already exceeds 64 bits, so does the
/// whole run.
proof fn lemma_overflow(t: Seq<char>, radix: int, i: int)
    requires
        radix >= 2,
        0 <= i <= t.len(),
        spec_raw_value(t.subrange(0, i), radix) > u64::MAX,
    ensures
        match spec_int_value(t, radix) {
            Some(v) => v > u64::MAX,
            None => true,
        },
{
    lemma_raw_value_prefix(t, radix, i);
}

// ---------------------------------------------------------------------------
// String unescaping
// ---------------------------------------------------------------------------
/// The character that an escape letter stands for.
pub open spec fn spec_esc_char(c: char) -> char {
    if c == 'n' {
        '\n'
    } else if c == 't' {
        '\t'
    } else if c == 'r' {
        '\r'
    } else {
        c
    }
}

/// Unescapes the inner characters of a string literal; `None` when an
/// escape is malformed.
pub open spec fn spec_unescape_body(u: Seq<char>) -> Option<Seq<char>>
    decreases u.len(),
{
    if u.len() == 0 {
        Some(Seq::empty())
    } else if u[0] == '\\' {
        if u.len() >= 2 && spec_escapable(u[1]) {
            match spec_unescape_body(u.skip(2)) {
                Some(rest) => Some(seq![spec_esc_char(u[1])] + rest),
                None => None,
            }
        } else {
            None
        }
    } else {
        match spec_unescape_body(u.skip(1)) {
            Some(rest) => Some(seq![u[0]] + rest),
            None => None,
        }
    }
}

/// The contents of a string literal token: quotes stripped, escapes
/// resolved; `None` when the token is not a well-formed string literal.
pub open spec fn spec_unescape(t: Seq<char>) -> Option<Seq<char>> {
    if t.len() >= 2 && t[0] == '"' && t.last() == '"' {
        spec_unescape_body(t.subrange(1, t.len() - 1))
    } else {
        None
    }
}

/// Unescapes a string literal token: the text between the quotes with
/// each escape replaced by the character it stands for.
pub fn unescape_string(text: &str) -> (r: Option<String>)
    ensures
        match spec_unescape(text@) {
            Some(u) => r is Some && r->0@ == u,
            None => r is None,
        },
{
    let n = text.unicode_len();
    if n < 2 || text.get_char(0) != '"' || text.get_char(n - 1) != '"' {
        return None;
    }
    let ghost u = text@.subrange(1, n - 1);
    let end = n - 1;
    let mut out = String::new();
    let mut i: usize = 1;
    proof {
        assert(u.skip(0) =~= u);
        if spec_unescape_body(u) is Some {
            assert(out@ + spec_unescape_body(u)->0 =~= spec_unescape_body(u)->0);
        }
    }
    while i < end
        invariant
            u == text@.subrange(1, n as int - 1),
            n == text@.len(),
            n >= 2,
            1 <= i <= end,
            end == n - 1,
            match spec_unescape_body(u.skip(i - 1)) {
                Some(rest) => spec_unescape_body(u) == Some(out@ + rest),
                None => spec_unescape_body(u) is None,
            },
        decreases end - i,
    {
        let ghost rem = u.skip(i - 1);
        proof {
            assert(rem[0] == text@[i as int]);
        }
        let c = text.get_char(i);
        if c == '\\' {
            if i + 1 < end {
                let ghost out0 = out@;
                let c2 = text.get_char(i + 1);
                proof {
                    assert(rem[1] == text@[i + 1]);
                    assert(rem.skip(2) =~= u.skip(i + 1));
                }
                if c2 == '"' {
                    out.append("\"");
                    proof {
                        reveal_strlit("\"");
                        assert(out@ =~= out0.push('"'));
                    }
                } else if c2 == '\\' {
                    out.append("\\");
                    proof {
                        reveal_strlit("\\");
                        assert(out@ =~= out0.push('\\'));
                    }
                } else if c2 == 'n' {
                    out.append("\n");
                    proof {
                        reveal_strlit("\n");
                        assert(out@ =~= out0.push('\n'));
                    }
                } else if c2 == 't' {
                    out.append("\t");
                    proof {
                        reveal_strlit("\t");
                        assert(out@ =~= out0.push('\t'));
                    }
                } else if c2 == 'r' {
                    out.append("\r");
                    proof {
                        reveal_strlit("\r");
                        assert(out@ =~= out0.push('\r'));
                    }
                } else {
                    return None;
                }
                proof {
                    assert(out@ =~= out0 + seq![spec_esc_char(rem[1])]);
                    if spec_unescape_body(u.skip(i + 1)) is Some {
                        assert(out@ + spec_unescape_body(u.skip(i + 1))->0 =~= out0 + (seq![
                            spec_esc_char(rem[1]),
                        ] + spec_unescape_body(u.skip(i + 1))->0));
                    }
                }
                i = i + 2;
            } else {
                // a backslash just before the closing quote
                return None;
            }
        } else {
            let ghost out0 = out@;
            out.append(text.substring_char(i, i + 1));
            proof {
                assert(text@.subrange(i as int, i + 1) =~= seq![rem[0]]);
                assert(rem.skip(1) =~= u.skip(i as int));
                if spec_unescape_body(u.skip(i as int)) is Some {
                    assert(out@ + spec_unescape_body(u.skip(i as int))->0 =~= out0 + (seq![rem[0]]
                        + spec_unescape_body(u.skip(i as int))->0));
                }
            }
            i = i + 1;
        }
    }
    proof {
        assert(u.skip(end - 1) =~= Seq::<char>::empty());
        assert(out@ + Seq::<char>::empty() =~= out@);
    }
    Some(out)
}

} // verus!
