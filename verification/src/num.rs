//! Decimal representation of integers: formatting and parsing, with the
//! exact acceptance rules of `str::parse::<i32>` for sign-prefixed decimals.

use vstd::prelude::*;

verus! {

/// The character for one decimal digit value.
pub open spec fn digit_char(d: int) -> char {
    if d == 0 {
        '0'
    } else if d == 1 {
        '1'
    } else if d == 2 {
        '2'
    } else if d == 3 {
        '3'
    } else if d == 4 {
        '4'
    } else if d == 5 {
        '5'
    } else if d == 6 {
        '6'
    } else if d == 7 {
        '7'
    } else if d == 8 {
        '8'
    } else {
        '9'
    }
}

pub open spec fn is_digit_char(c: char) -> bool {
    48 <= c as u32 && c as u32 <= 57
}

pub open spec fn digit_val(c: char) -> int {
    c as u32 - 48
}

/// The decimal representation of a non-negative integer, most significant
/// digit first, with no leading zero except for zero itself.
pub open spec fn dec_rep(n: nat) -> Seq<char>
    decreases n,
{
    if n < 10 {
        seq![digit_char(n as int)]
    } else {
        dec_rep(n / 10) + seq![digit_char(n as int % 10)]
    }
}

pub open spec fn all_digits(s: Seq<char>) -> bool {
    forall|i: int| 0 <= i < s.len() ==> is_digit_char(#[trigger] s[i])
}

/// The value of a digit string, most significant digit first.
pub open spec fn digits_val(s: Seq<char>) -> int
    decreases s.len(),
{
    if s.len() == 0 {
        0
    } else {
        digits_val(s.drop_last()) * 10 + digit_val(s.last())
    }
}

/// What `str::parse::<i32>` accepts: an optional sign, then one or more
/// decimal digits, with the value in range.
pub open spec fn parse_int_spec(s: Seq<char>) -> Option<int> {
    if s.len() == 0 {
        None
    } else {
        let sign: int = if s[0] == '-' {
            -1
        } else {
            1
        };
        let ds = if s[0] == '-' || s[0] == '+' {
            s.drop_first()
        } else {
            s
        };
        if ds.len() > 0 && all_digits(ds) {
            let v = sign * digits_val(ds);
            if i32::MIN <= v && v <= i32::MAX {
                Some(v)
            } else {
                None
            }
        } else {
            None
        }
    }
}

pub open spec fn pow10(k: nat) -> int
    decreases k,
{
    if k == 0 {
        1
    } else {
        10 * pow10((k - 1) as nat)
    }
}

proof fn lemma_digit_char_val(d: int)
    requires
        0 <= d <= 9,
    ensures
        is_digit_char(digit_char(d)),
        digit_val(digit_char(d)) == d,
{
}

proof fn lemma_digits_val_nonneg(s: Seq<char>)
    requires
        all_digits(s),
    ensures
        digits_val(s) >= 0,
    decreases s.len(),
{
    if s.len() > 0 {
        lemma_digits_val_nonneg(s.drop_last());
    }
}

proof fn lemma_digits_val_upper(s: Seq<char>)
    requires
        all_digits(s),
    ensures
        digits_val(s) < pow10(s.len()),
    decreases s.len(),
{
    if s.len() > 0 {
        lemma_digits_val_upper(s.drop_last());
    }
}

proof fn lemma_digits_val_lower(s: Seq<char>)
    requires
        all_digits(s),
        s.len() > 0,
        s[0] as u32 != 48,
    ensures
        digits_val(s) >= pow10((s.len() - 1) as nat),
    decreases s.len(),
{
    if s.len() == 1 {
        assert(s.drop_last() =~= Seq::<char>::empty());
        assert(digits_val(Seq::<char>::empty()) == 0);
        assert(is_digit_char(s[0]));
        assert(digit_val(s[0]) >= 1);
    } else {
        lemma_digits_val_lower(s.drop_last());
        lemma_digit_char_val(digit_val(s.last()));
    }
}

/// Leading zeros do not change the value of a digit string.
pub proof fn lemma_digits_val_strip_zeros(z: Seq<char>, t: Seq<char>)
    requires
        forall|i: int| 0 <= i < z.len() ==> #[trigger] z[i] as u32 == 48,
    ensures
        digits_val(z + t) == digits_val(t),
    decreases t.len(),
{
    if t.len() == 0 {
        assert(z + t =~= z);
        lemma_digits_val_all_zeros(z);
    } else {
        assert((z + t).drop_last() =~= z + t.drop_last());
        lemma_digits_val_strip_zeros(z, t.drop_last());
        assert((z + t).last() == t.last());
    }
}

proof fn lemma_digits_val_all_zeros(z: Seq<char>)
    requires
        forall|i: int| 0 <= i < z.len() ==> #[trigger] z[i] as u32 == 48,
    ensures
        digits_val(z) == 0,
    decreases z.len(),
{
    if z.len() > 0 {
        lemma_digits_val_all_zeros(z.drop_last());
    }
}

/// The decimal representation parses back to the number it was made from.
pub proof fn lemma_dec_rep_val(n: nat)
    ensures
        dec_rep(n).len() >= 1,
        all_digits(dec_rep(n)),
        digits_val(dec_rep(n)) == n,
        dec_rep(n)[0] != '+' && dec_rep(n)[0] != '-',
        n >= 10 ==> dec_rep(n).len() >= 2,
    decreases n,
{
    if n < 10 {
        lemma_digit_char_val(n as int);
        assert(dec_rep(n).drop_last() =~= Seq::<char>::empty());
        assert(digits_val(Seq::<char>::empty()) == 0);
        assert(digits_val(dec_rep(n)) == digits_val(Seq::<char>::empty()) * 10 + digit_val(
            digit_char(n as int),
        ));
    } else {
        lemma_dec_rep_val(n / 10);
        lemma_digit_char_val(n as int % 10);
        let s = dec_rep(n);
        assert(s.drop_last() =~= dec_rep(n / 10));
        assert(digits_val(s) == digits_val(dec_rep(n / 10)) * 10 + (n as int % 10));
    }
}

/// Appends the character of one decimal digit to a string.
fn push_digit(s: &mut String, d: u32)
    requires
        d < 10,
    ensures
        final(s)@ == old(s)@ + seq![digit_char(d as int)],
{
    proof {
        reveal_strlit("0");
        reveal_strlit("1");
        reveal_strlit("2");
        reveal_strlit("3");
        reveal_strlit("4");
        reveal_strlit("5");
        reveal_strlit("6");
        reveal_strlit("7");
        reveal_strlit("8");
        reveal_strlit("9");
    }
    if d == 0 {
        s.append("0");
        proof {
            assert("0"@ =~= seq![digit_char(0)]);
        }
    } else if d == 1 {
        s.append("1");
        proof {
            assert("1"@ =~= seq![digit_char(1)]);
        }
    } else if d == 2 {
        s.append("2");
        proof {
            assert("2"@ =~= seq![digit_char(2)]);
        }
    } else if d == 3 {
        s.append("3");
        proof {
            assert("3"@ =~= seq![digit_char(3)]);
        }
    } else if d == 4 {
        s.append("4");
        proof {
            assert("4"@ =~= seq![digit_char(4)]);
        }
    } else if d == 5 {
        s.append("5");
        proof {
            assert("5"@ =~= seq![digit_char(5)]);
        }
    } else if d == 6 {
        s.append("6");
        proof {
            assert("6"@ =~= seq![digit_char(6)]);
        }
    } else if d == 7 {
        s.append("7");
        proof {
            assert("7"@ =~= seq![digit_char(7)]);
        }
    } else if d == 8 {
        s.append("8");
        proof {
            assert("8"@ =~= seq![digit_char(8)]);
        }
    } else {
        s.append("9");
        proof {
            assert("9"@ =~= seq![digit_char(9)]);
        }
    }
}

/// The characters of a sequence of digit values.
pub open spec fn digit_chars(ds: Seq<u32>) -> Seq<char> {
    ds.map(|i: int, d: u32| digit_char(d as int))
}

/// Formats a non-negative number in decimal, as `u32` formatting does.
#[verifier::loop_isolation(false)]
pub fn u32_decimal(n: u32) -> (r: String)
    ensures
        r@ == dec_rep(n as nat),
{
    let mut digits: Vec<u32> = Vec::new();
    let mut m: u32 = n;
    while m >= 10
        invariant
            dec_rep(n as nat) =~= dec_rep(m as nat) + digit_chars(digits@.reverse()),
            forall|i: int| 0 <= i < digits@.len() ==> #[trigger] digits@[i] < 10,
        decreases m,
    {
        let ghost m_old = m;
        let ghost old_digits = digits@;
        let d = m % 10;
        digits.push(d);
        m = m / 10;
        proof {
            assert(digits@.reverse() =~= seq![d] + old_digits.reverse());
            assert(digit_chars(seq![d] + old_digits.reverse()) =~= seq![digit_char(d as int)]
                + digit_chars(old_digits.reverse()));
            assert(dec_rep(m_old as nat) == dec_rep((m_old / 10) as nat) + seq![
                digit_char(m_old as int % 10),
            ]);
            assert(dec_rep(n as nat) =~= dec_rep(m as nat) + digit_chars(digits@.reverse()));
        }
    }
    let ghost old_digits = digits@;
    let last = m;
    digits.push(last);
    proof {
        assert(digits@.reverse() =~= seq![last] + old_digits.reverse());
        assert(digit_chars(seq![last] + old_digits.reverse()) =~= seq![digit_char(last as int)]
            + digit_chars(old_digits.reverse()));
        assert(dec_rep(m as nat) == seq![digit_char(m as int)]);
        assert(dec_rep(n as nat) =~= digit_chars(digits@.reverse()));
    }
    let ghost mapped = digit_chars(digits@.reverse());
    let mut r = String::new();
    let mut i: usize = digits.len();
    while i > 0
        invariant
            0 <= i <= digits@.len(),
            r@ =~= mapped.take(digits@.len() - i),
        decreases i,
    {
        i = i - 1;
        push_digit(&mut r, digits[i]);
        proof {
            assert(mapped[digits@.len() - i - 1] == digit_char(digits@[i as int] as int));
            assert(r@ =~= mapped.take(digits@.len() - i));
        }
    }
    proof {
        assert(r@ =~= mapped);
    }
    r
}

/// Parses a string exactly as `str::parse::<i32>` does: an optional `+` or
/// `-` sign, then one or more decimal digits; `None` on anything else or on
/// a value outside the `i32` range.
#[verifier::loop_isolation(false)]
pub fn parse_i32(s: &str) -> (r: Option<i32>)
    ensures
        match r {
            Some(v) => parse_int_spec(s@) == Some(v as int),
            None => parse_int_spec(s@) is None,
        },
{
    let len = s.unicode_len();
    if len == 0 {
        return None;
    }
    let c0 = s.get_char(0);
    let neg = c0 == '-';
    let signed = neg || c0 == '+';
    let start: usize = if signed {
        1
    } else {
        0
    };
    let ghost ds = if signed {
        s@.drop_first()
    } else {
        s@
    };
    if start == len {
        return None;
    }
    // every remaining character must be a digit
    let mut i: usize = start;
    while i < len
        invariant
            start <= i <= len,
            forall|j: int| start <= j < i ==> is_digit_char(#[trigger] s@[j]),
        decreases len - i,
    {
        let cu = s.get_char(i) as u32;
        if cu < 48 || cu > 57 {
            proof {
                assert(!is_digit_char(s@[i as int]));
                if signed {
                    assert(ds[i - 1] == s@[i as int]);
                }
            }
            return None;
        }
        i = i + 1;
    }
    proof {
        assert forall|j: int| 0 <= j < ds.len() implies is_digit_char(#[trigger] ds[j]) by {
            if signed {
                assert(ds[j] == s@[j + 1]);
            }
        }
    }
    // skip leading zeros; they do not change the value
    let mut z: usize = start;
    while z < len && s.get_char(z) as u32 == 48
        invariant
            start <= z <= len,
            forall|j: int| start <= j < z ==> #[trigger] s@[j] as u32 == 48,
        decreases len - z,
    {
        z = z + 1;
    }
    let ghost zeros = s@.subrange(start as int, z as int);
    let ghost rest = s@.subrange(z as int, len as int);
    proof {
        assert(ds =~= zeros + rest);
        lemma_digits_val_strip_zeros(zeros, rest);
        lemma_digits_val_nonneg(rest);
    }
    if len - z > 10 {
        // at least eleven significant digits: out of the i32 range
        proof {
            assert(rest[0] == s@[z as int]);
            lemma_digits_val_lower(rest);
            lemma_pow10_increases((rest.len() - 1) as nat, 10);
            lemma_pow10_value();
            assert(digits_val(ds) >= 10000000000);
            assert(ds.len() > 0);
            assert(all_digits(ds));
            assert(-1 * digits_val(ds) < i32::MIN);
            assert(1 * digits_val(ds) > i32::MAX);
            assert(parse_int_spec(s@) is None);
        }
        return None;
    }
    // at most ten digits: the value fits in u64
    let mut acc: u64 = 0;
    let mut k: usize = z;
    while k < len
        invariant
            z <= k <= len,
            acc == digits_val(rest.take(k - z)),
            acc < pow10((k - z) as nat),
        decreases len - k,
    {
        let d = s.get_char(k) as u32;
        proof {
            assert(rest[k - z] == s@[k as int]);
            assert(is_digit_char(rest[k - z]));
            assert(rest.take(k - z + 1).drop_last() =~= rest.take(k - z));
            assert(rest.take(k - z + 1).last() == rest[k - z]);
            assert(pow10((k - z + 1) as nat) == 10 * pow10((k - z) as nat));
            lemma_pow10_increases(10, (k - z + 1) as nat);
            lemma_pow10_value();
        }
        acc = acc * 10 + (d as u64 - 48);
        k = k + 1;
    }
    proof {
        assert(rest.take(len - z) =~= rest);
    }
    if neg {
        if acc > 2147483648 {
            proof {
                assert(digits_val(ds) == acc as int);
                assert(-1 * digits_val(ds) < i32::MIN);
                assert(parse_int_spec(s@) is None);
            }
            return None;
        }
        proof {
            assert(digits_val(ds) == acc as int);
            assert(-1 * digits_val(ds) >= i32::MIN);
        }
        if acc == 2147483648 {
            Some(i32::MIN)
        } else {
            Some(0i32 - (acc as i32))
        }
    } else {
        if acc > 2147483647 {
            proof {
                assert(digits_val(ds) == acc as int);
                assert(1 * digits_val(ds) > i32::MAX);
            }
            return None;
        }
        proof {
            assert(digits_val(ds) == acc as int);
            assert(1 * digits_val(ds) <= i32::MAX);
        }
        Some(acc as i32)
    }
}

proof fn lemma_pow10_value()
    ensures
        pow10(10) == 10000000000,
{
    reveal_with_fuel(pow10, 11);
}

proof fn lemma_pow10_increases(a: nat, b: nat)
    requires
        b <= a,
    ensures
        pow10(b) <= pow10(a),
    decreases a,
{
    if b < a {
        lemma_pow10_increases((a - 1) as nat, b);
        lemma_pow10_positive((a - 1) as nat);
    }
}

proof fn lemma_pow10_positive(a: nat)
    ensures
        pow10(a) >= 1,
    decreases a,
{
    if a > 0 {
        lemma_pow10_positive((a - 1) as nat);
    }
}

} // verus!
