//! Decimal and hexadecimal digit strings: values, parsers and formatters.
//!
//! The manifest wire format carries numbers as ASCII digit strings (decimal
//! file sizes, four-digit hexadecimal line lengths), and snapshot directory
//! names begin with a zero-padded decimal identifier.  This module gives those
//! strings a mathematical value and provides verified conversions in both
//! directions.

use vstd::prelude::*;

verus! {

// ---------------------------------------------------------------------------
// Decimal digit bytes
// ---------------------------------------------------------------------------

/// `b` is an ASCII decimal digit.
pub open spec fn is_dec_digit(b: u8) -> bool {
    48 <= b <= 57
}

/// Every byte of `s` is an ASCII decimal digit.
pub open spec fn all_dec_digits(s: Seq<u8>) -> bool {
    forall|i: int| 0 <= i < s.len() ==> is_dec_digit(#[trigger] s[i])
}

/// The value of a decimal digit string, most significant digit first.
pub open spec fn dec_val(s: Seq<u8>) -> nat
    decreases s.len(),
{
    if s.len() == 0 {
        0
    } else {
        (dec_val(s.drop_last()) * 10 + (s.last() - 48)) as nat
    }
}

proof fn lemma_dec_val_take_succ(s: Seq<u8>, i: int)
    requires
        0 <= i < s.len(),
        is_dec_digit(s[i]),
    ensures
        dec_val(s.take(i + 1)) == dec_val(s.take(i)) * 10 + (s[i] - 48),
{
    assert(s.take(i + 1).drop_last() =~= s.take(i));
    assert(s.take(i + 1).last() == s[i]);
}

proof fn lemma_dec_val_prefix_le(s: Seq<u8>, i: int)
    requires
        0 <= i <= s.len(),
        all_dec_digits(s),
    ensures
        dec_val(s.take(i)) <= dec_val(s),
    decreases s.len() - i,
{
    if i == s.len() {
        assert(s.take(i) =~= s);
    } else {
        lemma_dec_val_take_succ(s, i);
        lemma_dec_val_prefix_le(s, i + 1);
    }
}

/// Parse a decimal digit string into a `u64`.  Returns `None` on an empty
/// string, on any non-digit byte, and on overflow.
pub fn parse_dec_u64(s: &[u8]) -> (r: Option<u64>)
    ensures
        match r {
            Some(v) => s@.len() > 0 && all_dec_digits(s@) && v == dec_val(s@),
            None => s@.len() == 0 || !all_dec_digits(s@) || dec_val(s@) > u64::MAX,
        },
{
    if s.len() == 0 {
        return None;
    }
    let mut acc: u64 = 0;
    let mut i: usize = 0;
    while i < s.len()
        invariant
            0 <= i <= s@.len(),
            all_dec_digits(s@.take(i as int)),
            acc == dec_val(s@.take(i as int)),
        decreases s@.len() - i,
    {
        let b = s[i];
        if b < 48 || b > 57 {
            assert(!is_dec_digit(s@[i as int]));
            return None;
        }
        let d: u64 = (b - 48) as u64;
        proof {
            lemma_dec_val_take_succ(s@, i as int);
        }
        let shifted = match acc.checked_mul(10) {
            Some(m) => m,
            None => {
                proof {
                    assert(all_dec_digits(s@.take(i as int + 1)));
                    if all_dec_digits(s@) {
                        lemma_dec_val_prefix_le(s@, i as int + 1);
                    }
                }
                return None;
            },
        };
        acc = match shifted.checked_add(d) {
            Some(a) => a,
            None => {
                proof {
                    assert(all_dec_digits(s@.take(i as int + 1)));
                    if all_dec_digits(s@) {
                        lemma_dec_val_prefix_le(s@, i as int + 1);
                    }
                }
                return None;
            },
        };
        i = i + 1;
    }
    proof {
        assert(s@.take(i as int) =~= s@);
    }
    Some(acc)
}

// ---------------------------------------------------------------------------
// Decimal digit characters (snapshot names)
// ---------------------------------------------------------------------------

/// `c` is an ASCII decimal digit character.
pub open spec fn is_dec_digit_char(c: char) -> bool {
    '0' <= c <= '9'
}

/// The value of one decimal digit character.
pub open spec fn dec_char_val(c: char) -> nat {
    (c as nat - '0' as nat) as nat
}

/// The value of a decimal digit character string, most significant first.
pub open spec fn dec_val_chars(s: Seq<char>) -> nat
    decreases s.len(),
{
    if s.len() == 0 {
        0
    } else {
        (dec_val_chars(s.drop_last()) * 10 + dec_char_val(s.last())) as nat
    }
}

/// Reading one more digit multiplies the value by ten and adds it.
pub proof fn lemma_dec_val_chars_take_succ(s: Seq<char>, i: int)
    requires
        0 <= i < s.len(),
        is_dec_digit_char(s[i]),
    ensures
        dec_val_chars(s.take(i + 1)) == dec_val_chars(s.take(i)) * 10 + dec_char_val(s[i]),
{
    assert(s.take(i + 1).drop_last() =~= s.take(i));
    assert(s.take(i + 1).last() == s[i]);
}

/// A digit string of length `k` has a value below ten to the `k`.
pub proof fn lemma_dec_val_chars_bound(s: Seq<char>)
    requires
        forall|i: int| 0 <= i < s.len() ==> is_dec_digit_char(#[trigger] s[i]),
    ensures
        dec_val_chars(s) < pow10(s.len()),
    decreases s.len(),
{
    if s.len() == 0 {
        assert(pow10(0nat) == 1);
    } else {
        lemma_dec_val_chars_bound(s.drop_last());
        assert(pow10(s.len()) == 10 * pow10((s.len() - 1) as nat));
        assert(dec_char_val(s.last()) <= 9);
    }
}

/// The digit character for a value below ten.
pub open spec fn dec_digit_char(d: nat) -> char {
    if d == 0 {
        '0'
    } else if d == 1 {
        '1'
    } else if d == 2 {
        '2'
    } else if d == 3 {
        '3'
    } else if d == 4 {
        '4'
    } else if d == 5 {
        '5'
    } else if d == 6 {
        '6'
    } else if d == 7 {
        '7'
    } else if d == 8 {
        '8'
    } else {
        '9'
    }
}

/// The decimal digit string of `n`, without leading zeros (`0` is "0").
pub open spec fn dec_string(n: nat) -> Seq<char>
    decreases n,
{
    if n < 10 {
        seq![dec_digit_char(n)]
    } else {
        dec_string(n / 10).push(dec_digit_char(n % 10))
    }
}

/// Ten to the `k`.
pub open spec fn pow10(k: nat) -> nat
    decreases k,
{
    if k == 0 {
        1
    } else {
        10 * pow10((k - 1) as nat)
    }
}

pub proof fn lemma_dec_string_len(n: nat, k: nat)
    requires
        1 <= k,
        n < pow10(k),
    ensures
        dec_string(n).len() <= k,
        pow10((k - 1) as nat) <= n ==> dec_string(n).len() == k,
    decreases k,
{
    if n < 10 {
        if k >= 2 && pow10((k - 1) as nat) <= n {
            lemma_pow10_ge_10(( k - 1) as nat);
        }
    } else {
        assert(k >= 2) by {
            if k == 1 {
                assert(pow10(0nat) == 1);
                assert(pow10(1nat) == 10 * pow10(0nat));
            }
        }
        assert(n / 10 < pow10((k - 1) as nat)) by {
            assert(pow10(k) == 10 * pow10((k - 1) as nat));
        }
        lemma_dec_string_len(n / 10, (k - 1) as nat);
        if pow10((k - 1) as nat) <= n {
            assert(pow10((k - 1) as nat) == 10 * pow10((k - 2) as nat));
            assert(pow10((k - 2) as nat) <= n / 10);
        }
    }
}

proof fn lemma_pow10_ge_10(k: nat)
    requires
        1 <= k,
    ensures
        pow10(k) >= 10,
    decreases k,
{
    assert(pow10(0nat) == 1);
    if k > 1 {
        lemma_pow10_ge_10((k - 1) as nat);
    } else {
        assert(pow10(1nat) == 10 * pow10(0nat));
    }
}

/// The character for a digit value reads back as that value.
pub proof fn lemma_dec_digit_char_val(d: nat)
    requires
        d < 10,
    ensures
        dec_char_val(dec_digit_char(d)) == d,
        is_dec_digit_char(dec_digit_char(d)),
{
}

/// A digit character is the character of its own value.
pub proof fn lemma_dec_digit_char_inverse(c: char)
    requires
        is_dec_digit_char(c),
    ensures
        dec_digit_char(dec_char_val(c)) == c,
{
    let v = dec_char_val(c);
    assert(dec_digit_char(v) as u32 == c as u32);
    vstd::utf8::char_u32_cast(c, c as u32);
    vstd::utf8::char_u32_cast(dec_digit_char(v), dec_digit_char(v) as u32);
}

/// A digit string is exactly the decimal string of its own value, padded
/// with zeros back to its own length: writing a value read from digits
/// reproduces the digits.
pub proof fn lemma_digits_canonical(s: Seq<char>)
    requires
        s.len() >= 1,
        forall|i: int| 0 <= i < s.len() ==> is_dec_digit_char(#[trigger] s[i]),
    ensures
        zero_pad_chars(dec_string(dec_val_chars(s)), s.len()) == s,
    decreases s.len(),
{
    let v = dec_val_chars(s);
    let s0 = s.drop_last();
    let c = s.last();
    let d = dec_char_val(c);
    assert(c == s[s.len() - 1]);
    lemma_dec_digit_char_inverse(c);
    if s.len() == 1 {
        assert(s0 =~= Seq::<char>::empty());
        assert(v == d);
        assert(zero_pad_chars(dec_string(v), 1) =~= s);
    } else {
        assert(forall|i: int| 0 <= i < s0.len() ==> is_dec_digit_char(#[trigger] s0[i]));
        lemma_digits_canonical(s0);
        let v0 = dec_val_chars(s0);
        assert(v == v0 * 10 + d);
        if v < 10 {
            assert(v0 == 0);
            lemma_dec_digit_char_val(0);
            assert(dec_string(0nat) =~= seq![dec_digit_char(0nat)]);
            assert(zero_pad_chars(dec_string(0nat), s0.len()) == s0);
            assert(forall|i: int| 0 <= i < s0.len() ==> #[trigger] s0[i] == '0') by {
                assert(forall|i: int|
                    0 <= i < s0.len() ==> #[trigger] zero_pad_chars(dec_string(0nat), s0.len())[i]
                        == '0');
            }
            assert(v == d);
            assert(dec_string(v) =~= seq![dec_digit_char(v)]);
            assert(dec_digit_char(v) == c);
            assert(forall|i: int| 0 <= i < s.len() - 1 ==> #[trigger] s[i] == s0[i]);
            assert(zero_pad_chars(dec_string(v), s.len()) =~= s);
        } else {
            assert(v / 10 == v0 && v % 10 == d) by {
                vstd::arithmetic::div_mod::lemma_fundamental_div_mod_converse(
                    v as int,
                    10,
                    v0 as int,
                    d as int,
                );
            }
            assert(dec_string(v) == dec_string(v0).push(dec_digit_char(d)));
            assert(dec_digit_char(d) == c);
            lemma_dec_string_digits(v0);
            assert(zero_pad_chars(dec_string(v0).push(c), s.len()) =~= zero_pad_chars(
                dec_string(v0),
                (s.len() - 1) as nat,
            ).push(c));
            assert(zero_pad_chars(dec_string(v0), (s.len() - 1) as nat).push(c) =~= s);
        }
    }
}

/// Every character of a decimal digit string is a digit.
pub proof fn lemma_dec_string_digits(n: nat)
    ensures
        dec_string(n).len() >= 1,
        forall|i: int|
            0 <= i < dec_string(n).len() ==> is_dec_digit_char(#[trigger] dec_string(n)[i]),
    decreases n,
{
    if n >= 10 {
        lemma_dec_string_digits(n / 10);
    }
}

/// Reading back the decimal digit string of `n` yields `n`.
pub proof fn lemma_dec_string_val(n: nat)
    ensures
        dec_val_chars(dec_string(n)) == n,
    decreases n,
{
    assert(dec_val_chars(Seq::<char>::empty()) == 0);
    if n < 10 {
        lemma_dec_digit_char_val(n);
        assert(dec_string(n).drop_last() =~= Seq::<char>::empty());
        assert(dec_string(n).last() == dec_digit_char(n));
    } else {
        lemma_dec_string_val(n / 10);
        lemma_dec_digit_char_val(n % 10);
        assert(dec_string(n).drop_last() =~= dec_string(n / 10));
        assert(dec_string(n).last() == dec_digit_char(n % 10));
        assert(n == (n / 10) * 10 + n % 10) by {
            vstd::arithmetic::div_mod::lemma_fundamental_div_mod(n as int, 10);
        }
    }
}

/// Leading zeros do not change the value of a digit string.
pub proof fn lemma_dec_val_leading_zeros(z: Seq<char>, s: Seq<char>)
    requires
        forall|i: int| 0 <= i < z.len() ==> z[i] == '0',
    ensures
        dec_val_chars(z + s) == dec_val_chars(s),
    decreases s.len(),
{
    if s.len() == 0 {
        lemma_dec_val_all_zeros(z + s);
    } else {
        assert((z + s).drop_last() =~= z + s.drop_last());
        assert((z + s).last() == s.last());
        lemma_dec_val_leading_zeros(z, s.drop_last());
    }
}

proof fn lemma_dec_val_all_zeros(z: Seq<char>)
    requires
        forall|i: int| 0 <= i < z.len() ==> z[i] == '0',
    ensures
        dec_val_chars(z) == 0,
    decreases z.len(),
{
    if z.len() > 0 {
        lemma_dec_val_all_zeros(z.drop_last());
    }
}

// ---------------------------------------------------------------------------
// Hexadecimal digit bytes
// ---------------------------------------------------------------------------

/// `b` is an ASCII hexadecimal digit, either case.
pub open spec fn is_hex_digit(b: u8) -> bool {
    (48 <= b <= 57) || (97 <= b <= 102) || (65 <= b <= 70)
}

/// The value of one hexadecimal digit byte.
pub open spec fn hex_digit_val(b: u8) -> nat {
    if 48 <= b <= 57 {
        (b - 48) as nat
    } else if 97 <= b <= 102 {
        (b - 87) as nat
    } else if 65 <= b <= 70 {
        (b - 55) as nat
    } else {
        0
    }
}

/// The lowercase hexadecimal digit byte for a value below sixteen.
pub open spec fn hex_digit_byte(v: nat) -> u8 {
    if v < 10 {
        (48 + v) as u8
    } else {
        (87 + v) as u8
    }
}

/// The value of a four-digit hexadecimal string.
pub open spec fn hex4_val(s: Seq<u8>) -> nat
    recommends
        s.len() == 4,
{
    ((hex_digit_val(s[0]) * 16 + hex_digit_val(s[1])) * 16 + hex_digit_val(s[2])) * 16
        + hex_digit_val(s[3])
}

/// All four bytes of `s` are hexadecimal digits.
pub open spec fn all_hex4(s: Seq<u8>) -> bool
    recommends
        s.len() == 4,
{
    is_hex_digit(s[0]) && is_hex_digit(s[1]) && is_hex_digit(s[2]) && is_hex_digit(s[3])
}

/// A four-digit hexadecimal value always fits the length field.
pub proof fn lemma_hex4_val_bound(s: Seq<u8>)
    ensures
        hex4_val(s) <= 0xffff,
{
}

/// The canonical four-digit lowercase hexadecimal string of `n`.
pub open spec fn hex4_bytes(n: nat) -> Seq<u8>
    recommends
        n < 0x10000,
{
    seq![
        hex_digit_byte(n / 4096 % 16),
        hex_digit_byte(n / 256 % 16),
        hex_digit_byte(n / 16 % 16),
        hex_digit_byte(n % 16),
    ]
}

/// The canonical hexadecimal string of `n` reads back as `n`, and its digits
/// are hexadecimal digits.
pub proof fn lemma_hex4_roundtrip(n: nat)
    requires
        n < 0x10000,
    ensures
        hex4_bytes(n).len() == 4,
        all_hex4(hex4_bytes(n)),
        hex4_val(hex4_bytes(n)) == n,
{
    let n16 = n as u16;
    assert(n16 / 4096 % 16 == n16 / 4096 && ((n16 / 4096) * 16 + n16 / 256 % 16) * 16 * 16 + (n16
        / 16 % 16) * 16 + n16 % 16 == n16) by (bit_vector);
    assert(n / 4096 == n16 / 4096 && n / 256 == n16 / 256 && n / 16 == n16 / 16 && n % 16 == n16
        % 16 && n16 / 4096 % 16 == n / 4096 % 16 && n16 / 256 % 16 == n / 256 % 16 && n16 / 16 % 16
        == n / 16 % 16 && n16 % 16 == n % 16);
}

/// Parse four hexadecimal digit bytes into their value.
pub fn parse_hex4(b0: u8, b1: u8, b2: u8, b3: u8) -> (r: Option<u16>)
    ensures
        match r {
            Some(v) => all_hex4(seq![b0, b1, b2, b3]) && v == hex4_val(seq![b0, b1, b2, b3]),
            None => !all_hex4(seq![b0, b1, b2, b3]),
        },
{
    let v0 = match hex_digit(b0) {
        Some(v) => v,
        None => {
            return None;
        },
    };
    let v1 = match hex_digit(b1) {
        Some(v) => v,
        None => {
            return None;
        },
    };
    let v2 = match hex_digit(b2) {
        Some(v) => v,
        None => {
            return None;
        },
    };
    let v3 = match hex_digit(b3) {
        Some(v) => v,
        None => {
            return None;
        },
    };
    Some(((v0 as u16 * 16 + v1 as u16) * 16 + v2 as u16) * 16 + v3 as u16)
}

fn hex_digit(b: u8) -> (r: Option<u8>)
    ensures
        match r {
            Some(v) => is_hex_digit(b) && v == hex_digit_val(b) && v < 16,
            None => !is_hex_digit(b),
        },
{
    if 48 <= b && b <= 57 {
        Some(b - 48)
    } else if 97 <= b && b <= 102 {
        Some(b - 87)
    } else if 65 <= b && b <= 70 {
        Some(b - 55)
    } else {
        None
    }
}

/// Append the canonical four-digit lowercase hexadecimal string of `n`.
pub fn push_hex4(out: &mut Vec<u8>, n: u16)
    ensures
        final(out)@ == old(out)@ + hex4_bytes(n as nat),
{
    proof {
        let m = n as nat;
        assert(n / 4096 % 16 == m / 4096 % 16 && n / 256 % 16 == m / 256 % 16 && n / 16 % 16 == m
            / 16 % 16 && n % 16 == m % 16);
    }
    out.push(hex_digit_lower(n / 4096 % 16));
    out.push(hex_digit_lower(n / 256 % 16));
    out.push(hex_digit_lower(n / 16 % 16));
    out.push(hex_digit_lower(n % 16));
    proof {
        assert(out@ =~= old(out)@ + hex4_bytes(n as nat));
    }
}

fn hex_digit_lower(v: u16) -> (r: u8)
    requires
        v < 16,
    ensures
        r == hex_digit_byte(v as nat),
{
    if v < 10 {
        48 + (v as u8)
    } else {
        87 + (v as u8)
    }
}

// ---------------------------------------------------------------------------
// Executable decimal formatting
// ---------------------------------------------------------------------------

fn dec_digit_str(d: u64) -> (r: &'static str)
    requires
        d < 10,
    ensures
        r@ =~= seq![dec_digit_char(d as nat)],
{
    proof {
        reveal_strlit("0");
        reveal_strlit("1");
        reveal_strlit("2");
        reveal_strlit("3");
        reveal_strlit("4");
        reveal_strlit("5");
        reveal_strlit("6");
        reveal_strlit("7");
        reveal_strlit("8");
        reveal_strlit("9");
    }
    match d {
        0 => "0",
        1 => "1",
        2 => "2",
        3 => "3",
        4 => "4",
        5 => "5",
        6 => "6",
        7 => "7",
        8 => "8",
        _ => "9",
    }
}

/// The decimal digit string of `n`, as a `String`.
pub fn u64_to_dec(n: u64) -> (r: String)
    ensures
        r@ == dec_string(n as nat),
    decreases n,
{
    if n < 10 {
        let r = String::from_str(dec_digit_str(n));
        r
    } else {
        let mut r = u64_to_dec(n / 10);
        r.append(dec_digit_str(n % 10));
        proof {
            assert(dec_string((n / 10) as nat).push(dec_digit_char((n % 10) as nat)) =~= dec_string(
                (n / 10) as nat,
            ) + seq![dec_digit_char((n % 10) as nat)]);
        }
        r
    }
}

// ---------------------------------------------------------------------------
// Zero padding
// ---------------------------------------------------------------------------

/// `s` padded with leading `'0'` characters to width `w`.
pub open spec fn zero_pad_chars(s: Seq<char>, w: nat) -> Seq<char> {
    if s.len() >= w {
        s
    } else {
        Seq::new((w - s.len()) as nat, |i: int| '0') + s
    }
}

/// Padding does not change the value of a digit string.
pub proof fn lemma_zero_pad_val(s: Seq<char>, w: nat)
    ensures
        dec_val_chars(zero_pad_chars(s, w)) == dec_val_chars(s),
{
    if s.len() < w {
        lemma_dec_val_leading_zeros(Seq::new((w - s.len()) as nat, |i: int| '0'), s);
    }
}

/// The values of the first seven powers of ten.
pub proof fn lemma_pow10_up_to_7()
    ensures
        pow10(1nat) == 10,
        pow10(2nat) == 100,
        pow10(3nat) == 1000,
        pow10(4nat) == 10000,
        pow10(5nat) == 100000,
        pow10(6nat) == 1000000,
        pow10(7nat) == 10000000,
{
    assert(pow10(0nat) == 1);
    assert(pow10(1nat) == 10 * pow10(0nat));
    assert(pow10(2nat) == 10 * pow10(1nat));
    assert(pow10(3nat) == 10 * pow10(2nat));
    assert(pow10(4nat) == 10 * pow10(3nat));
    assert(pow10(5nat) == 10 * pow10(4nat));
    assert(pow10(6nat) == 10 * pow10(5nat));
    assert(pow10(7nat) == 10 * pow10(6nat));
}

/// The identifier of a snapshot, as a zero-padded seven-digit decimal string.
pub fn format_id7(id: u64) -> (r: String)
    requires
        id < 10000000,
    ensures
        r@ == zero_pad_chars(dec_string(id as nat), 7),
        r@.len() == 7,
{
    proof {
        lemma_pow10_up_to_7();
        reveal_strlit("");
        reveal_strlit("0");
        reveal_strlit("00");
        reveal_strlit("000");
        reveal_strlit("0000");
        reveal_strlit("00000");
        reveal_strlit("000000");
    }
    let zeros: &'static str = if id < 10 {
        proof {
            lemma_dec_string_len(id as nat, 1);
        }
        "000000"
    } else if id < 100 {
        proof {
            lemma_dec_string_len(id as nat, 2);
        }
        "00000"
    } else if id < 1000 {
        proof {
            lemma_dec_string_len(id as nat, 3);
        }
        "0000"
    } else if id < 10000 {
        proof {
            lemma_dec_string_len(id as nat, 4);
        }
        "000"
    } else if id < 100000 {
        proof {
            lemma_dec_string_len(id as nat, 5);
        }
        "00"
    } else if id < 1000000 {
        proof {
            lemma_dec_string_len(id as nat, 6);
        }
        "0"
    } else {
        proof {
            lemma_dec_string_len(id as nat, 7);
        }
        ""
    };
    let mut r = String::from_str(zeros);
    let digits = u64_to_dec(id);
    r.append(digits.as_str());
    proof {
        assert(r@ =~= zero_pad_chars(dec_string(id as nat), 7));
    }
    r
}

} // verus!
