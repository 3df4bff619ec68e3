//! Decimal rendering and parsing of timestamps, used for segment file
//! names of the form `<start>-<end>`.

use vstd::prelude::*;
use vstd::string::StrSliceExecFns;
use vstd::string::StringExecFns;

verus! {

/// The character for one decimal digit.
pub open spec fn spec_digit_char(d: int) -> char {
    if d == 0 {
        '0'
    } else if d == 1 {
        '1'
    } else if d == 2 {
        '2'
    } else if d == 3 {
        '3'
    } else if d == 4 {
        '4'
    } else if d == 5 {
        '5'
    } else if d == 6 {
        '6'
    } else if d == 7 {
        '7'
    } else if d == 8 {
        '8'
    } else {
        '9'
    }
}

/// The canonical decimal rendering of `n`: no sign, no leading zero except
/// for zero itself.
pub open spec fn spec_dec_str(n: nat) -> Seq<char>
    decreases n,
{
    if n < 10 {
        seq![spec_digit_char(n as int)]
    } else {
        spec_dec_str(n / 10).push(spec_digit_char((n % 10) as int))
    }
}

/// `c` is a decimal digit.
pub open spec fn spec_is_digit(c: char) -> bool {
    48 <= c as int <= 57
}

pub open spec fn spec_digit_val(c: char) -> int {
    c as int - 48
}

/// Every character of `s` is a decimal digit.
pub open spec fn spec_all_digits(s: Seq<char>) -> bool {
    forall|i: int| 0 <= i < s.len() ==> spec_is_digit(#[trigger] s[i])
}

/// The numeric value of a digit string, most significant digit first.
pub open spec fn spec_dec_val(s: Seq<char>) -> int
    decreases s.len(),
{
    if s.len() == 0 {
        0
    } else {
        spec_dec_val(s.drop_last()) * 10 + spec_digit_val(s.last())
    }
}

pub proof fn lemma_dec_val_nonneg(s: Seq<char>)
    requires
        spec_all_digits(s),
    ensures
        spec_dec_val(s) >= 0,
    decreases s.len(),
{
    if s.len() > 0 {
        let d = s.drop_last();
        assert(spec_all_digits(d)) by {
            assert(forall|i: int| 0 <= i < d.len() ==> d[i] == s[i]);
        }
        lemma_dec_val_nonneg(d);
    }
}

/// The value of a digit string is at least the value of any of its
/// prefixes.
pub proof fn lemma_dec_val_prefix(s: Seq<char>, i: int)
    requires
        spec_all_digits(s),
        0 <= i <= s.len(),
    ensures
        spec_dec_val(s.take(i)) <= spec_dec_val(s),
    decreases s.len() - i,
{
    if i < s.len() {
        let d = s.drop_last();
        assert(spec_all_digits(d)) by {
            assert(forall|j: int| 0 <= j < d.len() ==> d[j] == s[j]);
        }
        if i < s.len() - 1 {
            lemma_dec_val_prefix(d, i);
            assert(d.take(i) =~= s.take(i));
        } else {
            assert(s.take(i) =~= d);
        }
        lemma_dec_val_nonneg(d);
        assert(spec_dec_val(s) == spec_dec_val(d) * 10 + spec_digit_val(s.last()));
        assert(spec_dec_val(d) * 10 >= spec_dec_val(d));
        assert(spec_digit_val(s.last()) >= 0);
    } else {
        assert(s.take(i) =~= s);
    }
}

/// The canonical rendering is made of digits and evaluates back to `n`.
pub proof fn lemma_dec_str_val(n: nat)
    ensures
        spec_dec_str(n).len() > 0,
        spec_all_digits(spec_dec_str(n)),
        spec_dec_val(spec_dec_str(n)) == n,
    decreases n,
{
    if n < 10 {
        let s = spec_dec_str(n);
        assert(s.len() == 1);
        assert(s[0] == spec_digit_char(n as int));
        assert(spec_is_digit(s[0]));
        assert(s.drop_last() =~= Seq::<char>::empty());
        assert(spec_dec_val(Seq::<char>::empty()) == 0);
        assert(spec_dec_val(s.drop_last()) == 0);
        assert(s.last() == s[0]);
        assert(spec_dec_val(s) == spec_dec_val(s.drop_last()) * 10 + spec_digit_val(s.last()));
        assert(spec_dec_val(s) == spec_digit_val(s[0]));
    } else {
        lemma_dec_str_val(n / 10);
        let p = spec_dec_str(n / 10);
        let s = spec_dec_str(n);
        assert(s == p.push(spec_digit_char((n % 10) as int)));
        assert(s.drop_last() =~= p);
        assert(s.last() == spec_digit_char((n % 10) as int));
        assert(spec_is_digit(s.last()));
        assert forall|i: int| 0 <= i < s.len() implies spec_is_digit(#[trigger] s[i]) by {
            if i < p.len() {
                assert(s[i] == p[i]);
            }
        }
        assert(spec_digit_val(spec_digit_char((n % 10) as int)) == n % 10);
        assert(spec_dec_val(s) == spec_dec_val(p) * 10 + n % 10);
        assert((n / 10) * 10 + n % 10 == n);
    }
}

fn digit_str(d: u64) -> (r: &'static str)
    requires
        d < 10,
    ensures
        r@ == seq![spec_digit_char(d as int)],
        r@.len() == 1,
{
    proof {
        reveal_strlit("0");
        reveal_strlit("1");
        reveal_strlit("2");
        reveal_strlit("3");
        reveal_strlit("4");
        reveal_strlit("5");
        reveal_strlit("6");
        reveal_strlit("7");
        reveal_strlit("8");
        reveal_strlit("9");
    }
    let r: &'static str = if d == 0 {
        "0"
    } else if d == 1 {
        "1"
    } else if d == 2 {
        "2"
    } else if d == 3 {
        "3"
    } else if d == 4 {
        "4"
    } else if d == 5 {
        "5"
    } else if d == 6 {
        "6"
    } else if d == 7 {
        "7"
    } else if d == 8 {
        "8"
    } else {
        "9"
    };
    proof {
        assert(r@ =~= seq![spec_digit_char(d as int)]);
    }
    r
}

/// Render `n` in decimal.
pub fn u64_to_dec_string(n: u64) -> (r: String)
    ensures
        r@ == spec_dec_str(n as nat),
    decreases n,
{
    if n < 10 {
        let d = digit_str(n);
        d.to_owned()
    } else {
        let mut prefix = u64_to_dec_string(n / 10);
        let d = digit_str(n % 10);
        prefix.append(d);
        proof {
            assert(prefix@ =~= spec_dec_str((n / 10) as nat).push(
                spec_digit_char((n % 10) as int),
            ));
        }
        prefix
    }
}

/// Parse a decimal digit string into a `u64`.  Fails on an empty string, on
/// any non-digit character, and on a value over `u64::MAX`.
pub fn parse_u64_dec(s: &str) -> (r: Option<u64>)
    ensures
        r matches Some(v) ==> s@.len() > 0 && spec_all_digits(s@) && spec_dec_val(s@) == v,
        r is None ==> !(s@.len() > 0 && spec_all_digits(s@) && spec_dec_val(s@) <= u64::MAX),
{
    if !s.is_ascii() {
        proof {
            // every digit is an ascii character, so a non-ascii string
            // cannot be all digits
            if s@.len() > 0 && spec_all_digits(s@) {
                assert forall|i: int| 0 <= i < s@.len() implies '\0' <= #[trigger] s@[i]
                    <= '\u{7f}' by {
                    assert(spec_is_digit(s@[i]));
                }
                assert(vstd::utf8::is_ascii_chars(s@));
            }
        }
        return None;
    }
    let n = s.unicode_len();
    if n == 0 {
        return None;
    }
    let mut val: u64 = 0;
    let mut i: usize = 0;
    proof {
        assert(s@.take(0) =~= Seq::<char>::empty());
    }
    while i < n
        invariant
            s.is_ascii(),
            n == s@.len(),
            0 < n,
            0 <= i <= n,
            spec_all_digits(s@.take(i as int)),
            val == spec_dec_val(s@.take(i as int)),
        decreases n - i,
    {
        let b = s.get_ascii(i);
        if b < 48 || b > 57 {
            proof {
                assert(s@[i as int] as u8 == b);
                assert((s@[i as int] as nat) < 128) by {
                    vstd::utf8::is_ascii_chars_nat_bound(s@);
                }
                assert(!spec_is_digit(s@[i as int]));
            }
            return None;
        }
        let d = (b - 48) as u64;
        if val > (u64::MAX - d) / 10 {
            proof {
                let t = s@.take(i + 1);
                assert(t.drop_last() =~= s@.take(i as int));
                assert(t.last() == s@[i as int]);
                assert(spec_all_digits(t)) by {
                    assert(forall|j: int|
                        0 <= j < i ==> t[j] == #[trigger] s@.take(i as int)[j]);
                }
                assert(spec_dec_val(t) == val * 10 + d);
                assert(val * 10 + d > u64::MAX) by {
                    let m = u64::MAX as int;
                    assert(val > (m - d) / 10);
                    assert(val * 10 > ((m - d) / 10) * 10 + 9) by (nonlinear_arith)
                        requires
                            val > (m - d) / 10,
                    ;
                    assert(((m - d) / 10) * 10 + (m - d) % 10 == m - d);
                    assert((m - d) % 10 <= 9);
                }
                if spec_all_digits(s@) {
                    lemma_dec_val_prefix(s@, i + 1);
                }
            }
            return None;
        }
        proof {
            let t = s@.take(i + 1);
            assert(t.drop_last() =~= s@.take(i as int));
            assert(t.last() == s@[i as int]);
            assert(s@[i as int] as u8 == b);
            assert((s@[i as int] as nat) < 128) by {
                vstd::utf8::is_ascii_chars_nat_bound(s@);
            }
            assert(spec_is_digit(s@[i as int]));
            assert(spec_digit_val(s@[i as int]) == d);
            assert(spec_all_digits(t)) by {
                assert(forall|j: int| 0 <= j < i ==> t[j] == #[trigger] s@.take(i as int)[j]);
            }
            assert(spec_dec_val(t) == val * 10 + d);
            assert(val * 10 + d <= u64::MAX) by {
                let m = u64::MAX as int;
                assert(val <= (m - d) / 10);
                assert(val * 10 <= ((m - d) / 10) * 10) by (nonlinear_arith)
                    requires
                        val <= (m - d) / 10,
                ;
                assert(((m - d) / 10) * 10 + (m - d) % 10 == m - d);
            }
        }
        val = val * 10 + d;
        i += 1;
    }
    proof {
        assert(s@.take(n as int) =~= s@);
    }
    Some(val)
}

} // verus!
