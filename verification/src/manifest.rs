//! Decoder for the burp backup agent's binary manifest format.
//!
//! A manifest is a stream of tagged lines, each `<tag:1 byte><length:4 hex
//! digits><payload><newline>`.  Successive lines build up one logical
//! [`ManifestEntry`]; certain tags complete the entry, which is then emitted
//! and a fresh accumulator started.  Integers inside stat lines use the
//! agent's own base64 alphabet.

use vstd::prelude::*;

use crate::digits::{
    all_dec_digits, all_hex4, dec_val, hex4_bytes, hex4_val, is_dec_digit, parse_dec_u64,
    parse_hex4, push_hex4,
};

verus! {

// ---------------------------------------------------------------------------
// Errors
// ---------------------------------------------------------------------------

/// A failure while decoding a manifest stream: a corrupt line, a bad stat or
/// checksum field, or a truncated read.  Carries a description and, when the
/// failure happened inside [`read_manifest`], the one-based number of the
/// line at which decoding stopped.
#[derive(Debug)]
pub struct ManifestReadError {
    details: String,
    record: usize,
}

impl ManifestReadError {
    /// The description of the failure.
    pub closed spec fn spec_details(&self) -> Seq<char> {
        self.details@
    }

    /// The one-based line number of the failure, or zero when unknown.
    pub closed spec fn spec_record(&self) -> nat {
        self.record as nat
    }

    /// Create a `ManifestReadError` with the given description.
    pub fn new(msg: &str) -> (r: Self)
        ensures
            r.spec_details() == msg@,
            r.spec_record() == 0,
    {
        ManifestReadError { details: String::from_str(msg), record: 0 }
    }

    /// The same error, attributed to the given one-based line number.
    pub fn at_record(self, record: usize) -> (r: Self)
        ensures
            r.spec_details() == self.spec_details(),
            r.spec_record() == record,
    {
        ManifestReadError { details: self.details, record }
    }

    /// The description of the failure.
    pub fn details(&self) -> (r: &String)
        ensures
            r@ == self.spec_details(),
    {
        &self.details
    }

    /// The one-based line number of the failure, or zero when unknown.
    pub fn record(&self) -> (r: usize)
        ensures
            r == self.spec_record(),
    {
        self.record
    }
}

// ---------------------------------------------------------------------------
// File types and stat blocks
// ---------------------------------------------------------------------------

/// The kind of file a manifest entry describes.
#[derive(PartialEq, Eq, Structural, Debug, Clone, Copy)]
pub enum FileType {
    Unknown,
    Plain,
    Directory,
    SoftLink,
    Metadata,
    Special,
}

/// POSIX metadata recorded for an entry, decoded from a stat line.
#[derive(PartialEq, Eq, Structural, Debug, Clone, Copy)]
pub struct Stat {
    pub containing_device: u64,
    pub inode: u64,
    pub mode: u32,
    pub num_links: u64,
    pub owner_id: u64,
    pub group_id: u64,
    pub device_id: u64,
    pub size: u64,
    pub blocksize: u64,
    pub blocks: u64,
    pub access_time: u64,
    pub mod_time: u64,
    pub change_time: u64,
    pub ch_flags: u64,
    pub compression: i32,
}

// ---------------------------------------------------------------------------
// The agent's base64 integer encoding
// ---------------------------------------------------------------------------

/// `b` is a digit of the agent's base64 alphabet.
pub open spec fn is_b64_digit(b: u8) -> bool {
    (65 <= b <= 90)  // 'A'..='Z'
     || (97 <= b <= 122)  // 'a'..='z'
     || (48 <= b <= 57)  // '0'..='9'
     || b == 43  // '+'
     || b == 47  // '/'

}

/// The six-bit value of one base64 digit.
pub open spec fn b64_digit_val(b: u8) -> nat {
    if 65 <= b <= 90 {
        (b - 65) as nat
    } else if 97 <= b <= 122 {
        (b - 97 + 26) as nat
    } else if 48 <= b <= 57 {
        (b - 48 + 52) as nat
    } else if b == 43 {
        62
    } else if b == 47 {
        63
    } else {
        0
    }
}

/// Every byte of `s` is a base64 digit.
pub open spec fn all_b64_digits(s: Seq<u8>) -> bool {
    forall|i: int| 0 <= i < s.len() ==> is_b64_digit(#[trigger] s[i])
}

/// The magnitude of a base64 digit string, most significant digit first.
pub open spec fn b64_mag(s: Seq<u8>) -> nat
    decreases s.len(),
{
    if s.len() == 0 {
        0
    } else {
        b64_mag(s.drop_last()) * 64 + b64_digit_val(s.last())
    }
}

/// The digit string of an encoded value: everything after an optional
/// leading minus sign.
pub open spec fn b64_digits_part(s: Seq<u8>) -> Seq<u8> {
    if s.len() > 0 && s[0] == 45 {
        s.drop_first()
    } else {
        s
    }
}

/// `s` is a well-formed encoded integer: its digit part holds base64 digits
/// only.
pub open spec fn b64_well_formed(s: Seq<u8>) -> bool {
    all_b64_digits(b64_digits_part(s))
}

/// The signed value encoded by `s`.
pub open spec fn b64_signed_val(s: Seq<u8>) -> int {
    if s.len() > 0 && s[0] == 45 {
        -(b64_mag(s.drop_first()) as int)
    } else {
        b64_mag(s) as int
    }
}

proof fn lemma_b64_mag_take_succ(s: Seq<u8>, i: int)
    requires
        0 <= i < s.len(),
    ensures
        b64_mag(s.take(i + 1)) == b64_mag(s.take(i)) * 64 + b64_digit_val(s[i]),
{
    assert(s.take(i + 1).drop_last() =~= s.take(i));
    assert(s.take(i + 1).last() == s[i]);
}

proof fn lemma_b64_mag_prefix_le(s: Seq<u8>, i: int)
    requires
        0 <= i <= s.len(),
    ensures
        b64_mag(s.take(i)) <= b64_mag(s),
    decreases s.len() - i,
{
    if i == s.len() {
        assert(s.take(i) =~= s);
    } else {
        lemma_b64_mag_take_succ(s, i);
        lemma_b64_mag_prefix_le(s, i + 1);
    }
}

/// Decode an integer in the agent's base64 encoding: an optional leading `-`
/// followed by zero or more six-bit digits, most significant first.  Fails on
/// any byte outside the alphabet and on values that do not fit an `i64`.
pub fn burp_decode_base64(value: &[u8]) -> (r: Result<i64, ManifestReadError>)
    ensures
        match r {
            Ok(v) => b64_well_formed(value@) && v == b64_signed_val(value@),
            Err(_) => !b64_well_formed(value@) || b64_signed_val(value@) < i64::MIN
                || b64_signed_val(value@) > i64::MAX,
        },
{
    let ghost s = value@;
    let negative = value.len() > 0 && value[0] == 45;
    let start: usize = if negative {
        1
    } else {
        0
    };
    let ghost digits = b64_digits_part(s);
    proof {
        assert(digits =~= s.skip(start as int));
    }
    let mut mag: u64 = 0;
    let mut i: usize = start;
    while i < value.len()
        invariant
            start <= i <= s.len(),
            start == (if s.len() > 0 && s[0] == 45 {
                1int
            } else {
                0int
            }),
            digits == b64_digits_part(s),
            digits == s.skip(start as int),
            s == value@,
            all_b64_digits(digits.take(i - start)),
            mag == b64_mag(digits.take(i - start)),
        decreases s.len() - i,
    {
        let b = value[i];
        let d: u64 = match b64_digit(b) {
            Some(v) => v as u64,
            None => {
                assert(digits[i - start] == s[i as int]);
                assert(!all_b64_digits(digits));
                return Err(ManifestReadError::new("invalid character in base64 string"));
            },
        };
        proof {
            assert(digits[i - start] == s[i as int]);
            lemma_b64_mag_take_succ(digits, i - start);
        }
        let shifted = match mag.checked_mul(64) {
            Some(m) => m,
            None => {
                proof {
                    lemma_b64_mag_prefix_le(digits, i - start + 1);
                }
                return Err(ManifestReadError::new("base64 value does not fit 64 bits"));
            },
        };
        mag = match shifted.checked_add(d) {
            Some(a) => a,
            None => {
                proof {
                    lemma_b64_mag_prefix_le(digits, i - start + 1);
                }
                return Err(ManifestReadError::new("base64 value does not fit 64 bits"));
            },
        };
        i = i + 1;
    }
    proof {
        assert(digits.take(i - start) =~= digits);
    }
    if negative {
        if mag <= 0x7fff_ffff_ffff_ffff {
            Ok(-(mag as i64))
        } else if mag == 0x8000_0000_0000_0000 {
            Ok(i64::MIN)
        } else {
            Err(ManifestReadError::new("base64 value does not fit 64 bits"))
        }
    } else {
        if mag <= 0x7fff_ffff_ffff_ffff {
            Ok(mag as i64)
        } else {
            Err(ManifestReadError::new("base64 value does not fit 64 bits"))
        }
    }
}

fn b64_digit(b: u8) -> (r: Option<u8>)
    ensures
        match r {
            Some(v) => is_b64_digit(b) && v == b64_digit_val(b) && v < 64,
            None => !is_b64_digit(b),
        },
{
    if 65 <= b && b <= 90 {
        Some(b - 65)
    } else if 97 <= b && b <= 122 {
        Some(b - 97 + 26)
    } else if 48 <= b && b <= 57 {
        Some(b - 48 + 52)
    } else if b == 43 {
        Some(62)
    } else if b == 47 {
        Some(63)
    } else {
        None
    }
}

/// The base64 digit byte for a six-bit value.
pub open spec fn b64_digit_byte(v: nat) -> u8 {
    if v < 26 {
        (65 + v) as u8
    } else if v < 52 {
        (97 + (v - 26)) as u8
    } else if v < 62 {
        (48 + (v - 52)) as u8
    } else if v == 62 {
        43
    } else {
        47
    }
}

/// The base64 digit string of a magnitude, without leading `'A'` digits
/// (zero encodes as a single `'A'`).
pub open spec fn b64_string(n: nat) -> Seq<u8>
    decreases n,
{
    if n < 64 {
        seq![b64_digit_byte(n)]
    } else {
        b64_string(n / 64).push(b64_digit_byte(n % 64))
    }
}

/// The canonical encoding of a signed value: a minus sign for negative
/// values, then the base64 digit string of the magnitude.
pub open spec fn b64_encoding(v: int) -> Seq<u8> {
    if v < 0 {
        seq![45u8] + b64_string((-v) as nat)
    } else {
        b64_string(v as nat)
    }
}

/// Encode an integer in the agent's base64 encoding.
pub fn burp_encode_base64(value: i64) -> (r: Vec<u8>)
    ensures
        r@ == b64_encoding(value as int),
{
    let mut out: Vec<u8> = Vec::new();
    if value < 0 {
        out.push(45);
        let mag: u64 = ((-(value + 1)) as u64) + 1;
        push_b64_digits(&mut out, mag);
        proof {
            assert(out@ =~= b64_encoding(value as int));
        }
    } else {
        push_b64_digits(&mut out, value as u64);
        proof {
            assert(out@ =~= b64_encoding(value as int));
        }
    }
    out
}

fn push_b64_digits(out: &mut Vec<u8>, n: u64)
    ensures
        final(out)@ == old(out)@ + b64_string(n as nat),
    decreases n,
{
    if n < 64 {
        out.push(b64_digit_lower(n));
        proof {
            assert(out@ =~= old(out)@ + b64_string(n as nat));
        }
    } else {
        push_b64_digits(out, n / 64);
        out.push(b64_digit_lower(n % 64));
        proof {
            assert(b64_string((n / 64) as nat).push(b64_digit_byte((n % 64) as nat)) =~= b64_string(
                (n / 64) as nat,
            ) + seq![b64_digit_byte((n % 64) as nat)]);
            assert(out@ =~= old(out)@ + b64_string(n as nat));
        }
    }
}

fn b64_digit_lower(v: u64) -> (r: u8)
    requires
        v < 64,
    ensures
        r == b64_digit_byte(v as nat),
{
    if v < 26 {
        65 + (v as u8)
    } else if v < 52 {
        97 + ((v - 26) as u8)
    } else if v < 62 {
        48 + ((v - 52) as u8)
    } else if v == 62 {
        43
    } else {
        47
    }
}

proof fn lemma_b64_digit_byte_val(v: nat)
    requires
        v < 64,
    ensures
        is_b64_digit(b64_digit_byte(v)),
        b64_digit_val(b64_digit_byte(v)) == v,
{
}

proof fn lemma_b64_string_mag(n: nat)
    ensures
        b64_string(n).len() >= 1,
        all_b64_digits(b64_string(n)),
        b64_mag(b64_string(n)) == n,
        b64_string(n)[0] != 45,
    decreases n,
{
    assert(b64_mag(Seq::<u8>::empty()) == 0);
    if n < 64 {
        lemma_b64_digit_byte_val(n);
        assert(b64_string(n).drop_last() =~= Seq::<u8>::empty());
        assert(b64_string(n).last() == b64_digit_byte(n));
    } else {
        lemma_b64_string_mag(n / 64);
        lemma_b64_digit_byte_val(n % 64);
        assert(b64_string(n).drop_last() =~= b64_string(n / 64));
        assert(b64_string(n).last() == b64_digit_byte(n % 64));
        assert(n == (n / 64) * 64 + n % 64) by {
            vstd::arithmetic::div_mod::lemma_fundamental_div_mod(n as int, 64);
        }
        assert(b64_string(n)[0] == b64_string(n / 64)[0]);
    }
}

// ---------------------------------------------------------------------------
// Splitting payloads on a separator byte
// ---------------------------------------------------------------------------

/// `s` split on every occurrence of `sep`: always at least one token, and
/// empty tokens between adjacent separators.
pub open spec fn split_bytes(s: Seq<u8>, sep: u8) -> Seq<Seq<u8>>
    decreases s.len(),
{
    if s.len() == 0 {
        seq![s]
    } else if s[0] == sep {
        seq![Seq::<u8>::empty()] + split_bytes(s.drop_first(), sep)
    } else {
        let rest = split_bytes(s.drop_first(), sep);
        seq![seq![s[0]] + rest[0]] + rest.drop_first()
    }
}

pub proof fn lemma_split_bytes_len(s: Seq<u8>, sep: u8)
    ensures
        split_bytes(s, sep).len() >= 1,
    decreases s.len(),
{
    if s.len() > 0 {
        lemma_split_bytes_len(s.drop_first(), sep);
    }
}

fn split_bytes_exec(s: &[u8], sep: u8) -> (r: Vec<Vec<u8>>)
    ensures
        r.deep_view() == split_bytes(s@, sep),
{
    let mut done: Vec<Vec<u8>> = Vec::new();
    let mut cur: Vec<u8> = Vec::new();
    let mut i: usize = 0;
    proof {
        lemma_split_bytes_len(s@, sep);
        assert(s@.skip(0) =~= s@);
        assert(split_bytes(s@, sep) =~= done.deep_view() + seq![
            cur@ + split_bytes(s@.skip(0), sep)[0],
        ] + split_bytes(s@.skip(0), sep).drop_first());
    }
    while i < s.len()
        invariant
            0 <= i <= s@.len(),
            split_bytes(s@, sep) == done.deep_view() + seq![
                cur@ + split_bytes(s@.skip(i as int), sep)[0],
            ] + split_bytes(s@.skip(i as int), sep).drop_first(),
        decreases s@.len() - i,
    {
        let ghost tail = s@.skip(i as int);
        proof {
            assert(tail.len() > 0);
            assert(tail[0] == s@[i as int]);
            assert(tail.drop_first() =~= s@.skip(i as int + 1));
            lemma_split_bytes_len(tail.drop_first(), sep);
        }
        let b = s[i];
        if b == sep {
            let ghost old_done = done.deep_view();
            let ghost old_cur = cur@;
            done.push(cur);
            cur = Vec::new();
            proof {
                assert(split_bytes(tail, sep) == seq![Seq::<u8>::empty()] + split_bytes(
                    tail.drop_first(),
                    sep,
                ));
                assert(old_cur + split_bytes(tail, sep)[0] =~= old_cur);
                assert(done.deep_view() =~~= old_done + seq![old_cur]);
                assert(split_bytes(s@, sep) =~~= done.deep_view() + seq![
                    cur@ + split_bytes(s@.skip(i as int + 1), sep)[0],
                ] + split_bytes(s@.skip(i as int + 1), sep).drop_first());
            }
        } else {
            let ghost old_cur = cur@;
            cur.push(b);
            proof {
                let rest = split_bytes(tail.drop_first(), sep);
                assert(split_bytes(tail, sep) == seq![seq![tail[0]] + rest[0]] + rest.drop_first());
                assert(old_cur + split_bytes(tail, sep)[0] =~= cur@ + rest[0]);
                assert(split_bytes(s@, sep) =~~= done.deep_view() + seq![
                    cur@ + split_bytes(s@.skip(i as int + 1), sep)[0],
                ] + split_bytes(s@.skip(i as int + 1), sep).drop_first());
            }
        }
        i = i + 1;
    }
    let ghost old_done = done.deep_view();
    let ghost old_cur = cur@;
    done.push(cur);
    proof {
        assert(s@.skip(i as int) =~= Seq::<u8>::empty());
        assert(split_bytes(s@.skip(i as int), sep) == seq![Seq::<u8>::empty()]);
        assert(old_cur + split_bytes(s@.skip(i as int), sep)[0] =~= old_cur);
        assert(done.deep_view() =~~= old_done + seq![old_cur]);
        assert(split_bytes(s@, sep) =~~= done.deep_view());
    }
    done
}

// ---------------------------------------------------------------------------
// Stat lines
// ---------------------------------------------------------------------------

/// The base64 token `t` decodes to a value that fits a `u64` field.
pub open spec fn stat_u64_ok(t: Seq<u8>) -> bool {
    b64_well_formed(t) && 0 <= b64_signed_val(t) <= i64::MAX
}

/// The base64 token `t` decodes to a value that fits a `u32` field.
pub open spec fn stat_u32_ok(t: Seq<u8>) -> bool {
    b64_well_formed(t) && 0 <= b64_signed_val(t) <= u32::MAX
}

/// The base64 token `t` decodes to a value that fits an `i32` field.
pub open spec fn stat_i32_ok(t: Seq<u8>) -> bool {
    b64_well_formed(t) && i32::MIN <= b64_signed_val(t) <= i32::MAX
}

/// The stat block described by a stat-line payload: sixteen or more
/// space-separated base64 integers (the fifteenth, a Windows attribute
/// block, is not read), or nothing if a field is missing, malformed or out
/// of range.
pub open spec fn spec_parse_stat(data: Seq<u8>) -> Option<Stat> {
    let toks = split_bytes(data, 32);
    if toks.len() < 16 {
        None
    } else if !(stat_u64_ok(toks[0]) && stat_u64_ok(toks[1]) && stat_u32_ok(toks[2]) && stat_u64_ok(
        toks[3],
    ) && stat_u64_ok(toks[4]) && stat_u64_ok(toks[5]) && stat_u64_ok(toks[6]) && stat_u64_ok(
        toks[7],
    ) && stat_u64_ok(toks[8]) && stat_u64_ok(toks[9]) && stat_u64_ok(toks[10]) && stat_u64_ok(
        toks[11],
    ) && stat_u64_ok(toks[12]) && stat_u64_ok(toks[13]) && stat_i32_ok(toks[15])) {
        None
    } else {
        Some(
            Stat {
                containing_device: b64_signed_val(toks[0]) as u64,
                inode: b64_signed_val(toks[1]) as u64,
                mode: b64_signed_val(toks[2]) as u32,
                num_links: b64_signed_val(toks[3]) as u64,
                owner_id: b64_signed_val(toks[4]) as u64,
                group_id: b64_signed_val(toks[5]) as u64,
                device_id: b64_signed_val(toks[6]) as u64,
                size: b64_signed_val(toks[7]) as u64,
                blocksize: b64_signed_val(toks[8]) as u64,
                blocks: b64_signed_val(toks[9]) as u64,
                access_time: b64_signed_val(toks[10]) as u64,
                mod_time: b64_signed_val(toks[11]) as u64,
                change_time: b64_signed_val(toks[12]) as u64,
                ch_flags: b64_signed_val(toks[13]) as u64,
                compression: b64_signed_val(toks[15]) as i32,
            },
        )
    }
}

fn stat_field_u64(t: &Vec<u8>) -> (r: Result<u64, ManifestReadError>)
    ensures
        match r {
            Ok(v) => stat_u64_ok(t@) && v == b64_signed_val(t@),
            Err(_) => !stat_u64_ok(t@),
        },
{
    let v = burp_decode_base64(t.as_slice())?;
    if v < 0 {
        Err(ManifestReadError::new("negative value in stat field"))
    } else {
        Ok(v as u64)
    }
}

fn stat_field_u32(t: &Vec<u8>) -> (r: Result<u32, ManifestReadError>)
    ensures
        match r {
            Ok(v) => stat_u32_ok(t@) && v == b64_signed_val(t@),
            Err(_) => !stat_u32_ok(t@),
        },
{
    let v = burp_decode_base64(t.as_slice())?;
    if v < 0 || v > 0xffff_ffff {
        Err(ManifestReadError::new("stat field does not fit 32 bits"))
    } else {
        Ok(v as u32)
    }
}

fn stat_field_i32(t: &Vec<u8>) -> (r: Result<i32, ManifestReadError>)
    ensures
        match r {
            Ok(v) => stat_i32_ok(t@) && v == b64_signed_val(t@),
            Err(_) => !stat_i32_ok(t@),
        },
{
    let v = burp_decode_base64(t.as_slice())?;
    if v < -0x8000_0000 || v > 0x7fff_ffff {
        Err(ManifestReadError::new("stat field does not fit 32 bits"))
    } else {
        Ok(v as i32)
    }
}

impl Stat {
    /// Decode a stat-line payload.
    pub fn from_burp_string(line: &[u8]) -> (r: Result<Self, ManifestReadError>)
        ensures
            match r {
                Ok(st) => spec_parse_stat(line@) == Some(st),
                Err(_) => spec_parse_stat(line@) is None,
            },
    {
        let toks = split_bytes_exec(line, 32);
        proof {
            assert(forall|i: int|
                0 <= i < toks@.len() ==> #[trigger] toks.deep_view()[i] == toks@[i]@);
        }
        if toks.len() < 16 {
            return Err(ManifestReadError::new("too few entries in stat line"));
        }
        let st = Stat {
            containing_device: stat_field_u64(&toks[0])?,
            inode: stat_field_u64(&toks[1])?,
            mode: stat_field_u32(&toks[2])?,
            num_links: stat_field_u64(&toks[3])?,
            owner_id: stat_field_u64(&toks[4])?,
            group_id: stat_field_u64(&toks[5])?,
            device_id: stat_field_u64(&toks[6])?,
            size: stat_field_u64(&toks[7])?,
            blocksize: stat_field_u64(&toks[8])?,
            blocks: stat_field_u64(&toks[9])?,
            access_time: stat_field_u64(&toks[10])?,
            mod_time: stat_field_u64(&toks[11])?,
            change_time: stat_field_u64(&toks[12])?,
            ch_flags: stat_field_u64(&toks[13])?,
            compression: stat_field_i32(&toks[15])?,
        };
        Ok(st)
    }
}

// ---------------------------------------------------------------------------
// Checksum payloads
// ---------------------------------------------------------------------------

/// The size and checksum described by an `x`-line payload
/// `<size>:<checksum>`: exactly two colon-separated fields, the first a
/// decimal size that fits a `usize`.
pub open spec fn spec_parse_checksum(data: Seq<u8>) -> Option<(nat, Seq<u8>)> {
    let toks = split_bytes(data, 58);
    if toks.len() != 2 {
        None
    } else if !(toks[0].len() > 0 && all_dec_digits(toks[0]) && dec_val(toks[0]) <= usize::MAX) {
        None
    } else {
        Some((dec_val(toks[0]), toks[1]))
    }
}

fn parse_checksum(data: &[u8]) -> (r: Result<(usize, Vec<u8>), ManifestReadError>)
    ensures
        match r {
            Ok((size, md5)) => spec_parse_checksum(data@) == Some((size as nat, md5@)),
            Err(_) => spec_parse_checksum(data@) is None,
        },
{
    let mut toks = split_bytes_exec(data, 58);
    proof {
        assert(forall|i: int| 0 <= i < toks@.len() ==> #[trigger] toks.deep_view()[i] == toks@[i]@);
    }
    if toks.len() != 2 {
        return Err(ManifestReadError::new("malformed checksum"));
    }
    let size64 = match parse_dec_u64(toks[0].as_slice()) {
        Some(v) => v,
        None => {
            return Err(ManifestReadError::new("malformed checksum"));
        },
    };
    if size64 > usize::MAX as u64 {
        return Err(ManifestReadError::new("malformed checksum"));
    }
    let md5 = toks.pop().unwrap();
    Ok((size64 as usize, md5))
}

// ---------------------------------------------------------------------------
// Manifest entries
// ---------------------------------------------------------------------------

/// The content payload of a plain-file entry: the relative path of the
/// stored content, its decompressed size, and its MD5 checksum.
#[derive(Debug, Clone)]
pub struct ManifestEntryData {
    pub path: Vec<u8>,
    pub size: usize,
    pub md5: Vec<u8>,
}

/// The mathematical value of a [`ManifestEntryData`].
pub ghost struct EntryDataModel {
    pub path: Seq<u8>,
    pub size: nat,
    pub md5: Seq<u8>,
}

impl View for ManifestEntryData {
    type V = EntryDataModel;

    open spec fn view(&self) -> EntryDataModel {
        EntryDataModel { path: self.path@, size: self.size as nat, md5: self.md5@ }
    }
}

impl Default for ManifestEntryData {
    /// An empty path, zero size and an empty checksum.
    fn default() -> (r: Self)
        ensures
            r@ == (EntryDataModel { path: Seq::<u8>::empty(), size: 0, md5: Seq::<u8>::empty() }),
    {
        ManifestEntryData { path: Vec::new(), size: 0, md5: Vec::new() }
    }
}

/// One decoded logical manifest record, built up line by line.
#[derive(Debug)]
pub struct ManifestEntry {
    pub file_type: FileType,
    pub path: Vec<u8>,
    pub stat: Option<Stat>,
    pub data: Option<ManifestEntryData>,
    pub link_target: Option<Vec<u8>>,
}

/// The mathematical value of a [`ManifestEntry`].
pub ghost struct EntryModel {
    pub file_type: FileType,
    pub path: Seq<u8>,
    pub stat: Option<Stat>,
    pub data: Option<EntryDataModel>,
    pub link_target: Option<Seq<u8>>,
}

impl View for ManifestEntry {
    type V = EntryModel;

    open spec fn view(&self) -> EntryModel {
        EntryModel {
            file_type: self.file_type,
            path: self.path@,
            stat: match self.stat {
                Some(st) => Some(st),
                None => None,
            },
            data: match self.data {
                Some(d) => Some(d@),
                None => None,
            },
            link_target: match self.link_target {
                Some(t) => Some(t@),
                None => None,
            },
        }
    }
}

/// The accumulator at the start of an entry: everything unset.
pub open spec fn empty_entry_model() -> EntryModel {
    EntryModel {
        file_type: FileType::Unknown,
        path: Seq::<u8>::empty(),
        stat: None,
        data: None,
        link_target: None,
    }
}

impl ManifestEntry {
    /// A fresh accumulator with no fields set.
    pub fn new() -> (r: Self)
        ensures
            r@ == empty_entry_model(),
    {
        ManifestEntry {
            file_type: FileType::Unknown,
            path: Vec::new(),
            stat: None,
            data: None,
            link_target: None,
        }
    }
}

/// The data block of `e` with its existing path kept, or a fresh one.
pub open spec fn data_with(e: EntryModel, size: nat, md5: Seq<u8>) -> EntryDataModel {
    match e.data {
        Some(d) => EntryDataModel { path: d.path, size, md5 },
        None => EntryDataModel { path: Seq::<u8>::empty(), size, md5 },
    }
}

/// The data block of `e` with a new path, keeping size and checksum.
pub open spec fn data_with_path(e: EntryModel, path: Seq<u8>) -> EntryDataModel {
    match e.data {
        Some(d) => EntryDataModel { path, size: d.size, md5: d.md5 },
        None => EntryDataModel { path, size: 0, md5: Seq::<u8>::empty() },
    }
}

/// One step of the entry accumulator: the effect of a manifest line with
/// tag `kind` and payload `data` on entry `e`.  Yields the new accumulator
/// and whether the entry is now complete, or nothing if the line is corrupt.
pub open spec fn apply_line(e: EntryModel, kind: char, data: Seq<u8>) -> Option<(EntryModel, bool)> {
    if kind == 'r' {
        match spec_parse_stat(data) {
            Some(st) => Some((EntryModel { stat: Some(st), ..e }, false)),
            None => None,
        }
    } else if kind == 'm' {
        Some((EntryModel { file_type: FileType::Metadata, path: data, ..e }, false))
    } else if kind == 'f' {
        Some((EntryModel { file_type: FileType::Plain, path: data, ..e }, false))
    } else if kind == 't' {
        Some((EntryModel { data: Some(data_with_path(e, data)), ..e }, false))
    } else if kind == 's' {
        Some((EntryModel { file_type: FileType::Special, path: data, ..e }, true))
    } else if kind == 'd' {
        Some((EntryModel { file_type: FileType::Directory, path: data, ..e }, true))
    } else if kind == 'l' {
        if e.file_type == FileType::SoftLink {
            Some((EntryModel { link_target: Some(data), ..e }, true))
        } else {
            Some((EntryModel { file_type: FileType::SoftLink, path: data, ..e }, false))
        }
    } else if kind == 'x' {
        match spec_parse_checksum(data) {
            Some((size, md5)) => Some((EntryModel { data: Some(data_with(e, size, md5)), ..e }, true)),
            None => None,
        }
    } else {
        Some((e, false))
    }
}

/// Apply one manifest line to the entry accumulator.  Returns whether the
/// entry is now complete; on a corrupt line the entry is left unchanged.
pub fn add_manifest_line(entry: &mut ManifestEntry, kind: &char, data: &[u8]) -> (r: Result<
    bool,
    ManifestReadError,
>)
    ensures
        match r {
            Ok(finished) => apply_line(old(entry)@, *kind, data@) == Some(
                (final(entry)@, finished),
            ),
            Err(_) => apply_line(old(entry)@, *kind, data@) is None && final(entry)@ == old(
                entry,
            )@,
        },
{
    let k = *kind;
    if k == 'r' {
        let st = Stat::from_burp_string(data)?;
        entry.stat = Some(st);
        Ok(false)
    } else if k == 'm' {
        entry.file_type = FileType::Metadata;
        entry.path = slice_to_vec(data);
        Ok(false)
    } else if k == 'f' {
        entry.file_type = FileType::Plain;
        entry.path = slice_to_vec(data);
        Ok(false)
    } else if k == 't' {
        let d = match entry.data.take() {
            Some(d) => ManifestEntryData { path: slice_to_vec(data), size: d.size, md5: d.md5 },
            None => ManifestEntryData { path: slice_to_vec(data), size: 0, md5: Vec::new() },
        };
        entry.data = Some(d);
        Ok(false)
    } else if k == 's' {
        entry.file_type = FileType::Special;
        entry.path = slice_to_vec(data);
        Ok(true)
    } else if k == 'd' {
        entry.file_type = FileType::Directory;
        entry.path = slice_to_vec(data);
        Ok(true)
    } else if k == 'l' {
        if entry.file_type == FileType::SoftLink {
            entry.link_target = Some(slice_to_vec(data));
            Ok(true)
        } else {
            entry.file_type = FileType::SoftLink;
            entry.path = slice_to_vec(data);
            Ok(false)
        }
    } else if k == 'x' {
        let (size, md5) = parse_checksum(data)?;
        let d = match entry.data.take() {
            Some(d) => ManifestEntryData { path: d.path, size, md5 },
            None => ManifestEntryData { path: Vec::new(), size, md5 },
        };
        entry.data = Some(d);
        Ok(true)
    } else {
        Ok(false)
    }
}

fn slice_to_vec(s: &[u8]) -> (r: Vec<u8>)
    ensures
        r@ == s@,
{
    vstd::slice::slice_to_vec(s)
}

// ---------------------------------------------------------------------------
// Wire lines
// ---------------------------------------------------------------------------

/// One tagged line of the wire format: a tag character and a payload.
#[derive(Debug)]
pub struct ManifestLine {
    pub kind: char,
    pub data: Vec<u8>,
}

/// The line starting at `pos`: its tag byte, its payload, and the position
/// just past its trailing newline — or nothing if the stream is truncated,
/// the length field is not hexadecimal, or the newline is missing.
pub open spec fn parse_line(s: Seq<u8>, pos: int) -> Option<(u8, Seq<u8>, int)>
    recommends
        0 <= pos <= s.len(),
{
    if pos + 6 <= s.len() && all_hex4(s.subrange(pos + 1, pos + 5)) {
        let len = hex4_val(s.subrange(pos + 1, pos + 5)) as int;
        if pos + 6 + len <= s.len() && s[pos + 5 + len] == 10 {
            Some((s[pos], s.subrange(pos + 5, pos + 5 + len), pos + 6 + len))
        } else {
            None
        }
    } else {
        None
    }
}

proof fn lemma_parse_line_bounds(s: Seq<u8>, pos: int)
    requires
        0 <= pos <= s.len(),
        parse_line(s, pos) is Some,
    ensures
        pos + 6 <= parse_line(s, pos).unwrap().2 <= s.len(),
        parse_line(s, pos).unwrap().1.len() <= 0xffff,
{
    let len = hex4_val(s.subrange(pos + 1, pos + 5)) as int;
    crate::digits::lemma_hex4_val_bound(s.subrange(pos + 1, pos + 5));
}

impl ManifestLine {
    /// Read one line of the wire format starting at `pos`.
    pub fn read(input: &[u8], pos: usize) -> (r: Result<(ManifestLine, usize), ManifestReadError>)
        requires
            pos <= input@.len(),
        ensures
            match r {
                Ok((line, next)) => {
                    &&& parse_line(input@, pos as int) is Some
                    &&& line.kind == parse_line(input@, pos as int).unwrap().0 as char
                    &&& line.data@ == parse_line(input@, pos as int).unwrap().1
                    &&& next == parse_line(input@, pos as int).unwrap().2
                },
                Err(_) => parse_line(input@, pos as int) is None,
            },
    {
        if input.len() - pos < 6 {
            return Err(ManifestReadError::new("truncated manifest line"));
        }
        let tag = input[pos];
        let ghost hex = input@.subrange(pos + 1, pos + 5);
        proof {
            assert(hex =~= seq![
                input@[pos + 1],
                input@[pos + 2],
                input@[pos + 3],
                input@[pos + 4],
            ]);
        }
        let v = match parse_hex4(input[pos + 1], input[pos + 2], input[pos + 3], input[pos + 4]) {
            Some(v) => v,
            None => {
                return Err(ManifestReadError::new("length field is not hexadecimal"));
            },
        };
        let len = v as usize;
        if input.len() - pos - 6 < len {
            return Err(ManifestReadError::new("truncated manifest line"));
        }
        if input[pos + 5 + len] != 10 {
            return Err(ManifestReadError::new("missing newline after payload"));
        }
        let payload = vstd::slice::slice_subrange(input, pos + 5, pos + 5 + len);
        let data = slice_to_vec(payload);
        Ok((ManifestLine { kind: tag as char, data }, pos + 6 + len))
    }

    /// Encode this line back into wire form.
    pub fn encode(&self) -> (r: Vec<u8>)
        requires
            self.data@.len() <= 0xffff,
            self.kind as u32 <= 0xff,
        ensures
            r@ == encode_line(self.kind as u8, self.data@),
    {
        let mut out: Vec<u8> = Vec::new();
        out.push(self.kind as u8);
        push_hex4(&mut out, self.data.len() as u16);
        out.extend_from_slice(self.data.as_slice());
        out.push(10);
        proof {
            assert(out@ =~= encode_line(self.kind as u8, self.data@));
        }
        out
    }
}

/// The wire form of one tagged record: tag byte, four lowercase hexadecimal
/// length digits, payload, newline.
pub open spec fn encode_line(tag: u8, payload: Seq<u8>) -> Seq<u8> {
    seq![tag] + hex4_bytes(payload.len()) + payload + seq![10u8]
}

/// The wire form of a sequence of tagged records.
pub open spec fn encode_records(rs: Seq<(u8, Seq<u8>)>) -> Seq<u8>
    decreases rs.len(),
{
    if rs.len() == 0 {
        Seq::empty()
    } else {
        encode_line(rs[0].0, rs[0].1) + encode_records(rs.drop_first())
    }
}

/// The tagged records of the whole stream from `pos`, or nothing if any
/// line is malformed.
pub open spec fn parse_records(s: Seq<u8>, pos: int) -> Option<Seq<(u8, Seq<u8>)>>
    recommends
        0 <= pos <= s.len(),
    decreases s.len() - pos,
{
    if pos >= s.len() {
        Some(Seq::empty())
    } else {
        match parse_line(s, pos) {
            Some((tag, payload, next)) => {
                if pos < next <= s.len() {
                    match parse_records(s, next) {
                        Some(rest) => Some(seq![(tag, payload)] + rest),
                        None => None,
                    }
                } else {
                    None
                }
            },
            None => None,
        }
    }
}

/// Every length field of the stream from `pos` is written in canonical
/// lowercase hexadecimal, as far as the stream parses.
pub open spec fn canonical_from(s: Seq<u8>, pos: int) -> bool
    recommends
        0 <= pos <= s.len(),
    decreases s.len() - pos,
{
    if pos >= s.len() {
        true
    } else {
        match parse_line(s, pos) {
            Some((tag, payload, next)) => {
                if pos < next <= s.len() {
                    s.subrange(pos + 1, pos + 5) == hex4_bytes(payload.len()) && canonical_from(
                        s,
                        next,
                    )
                } else {
                    true
                }
            },
            None => true,
        }
    }
}

proof fn lemma_records_roundtrip_from(s: Seq<u8>, pos: int)
    requires
        0 <= pos <= s.len(),
        parse_records(s, pos) is Some,
        canonical_from(s, pos),
    ensures
        encode_records(parse_records(s, pos).unwrap()) == s.subrange(pos, s.len() as int),
    decreases s.len() - pos,
{
    if pos >= s.len() {
        assert(s.subrange(pos, s.len() as int) =~= Seq::<u8>::empty());
    } else {
        let (tag, payload, next) = parse_line(s, pos).unwrap();
        lemma_parse_line_bounds(s, pos);
        let len = payload.len() as int;
        assert(encode_line(tag, payload) =~= s.subrange(pos, next)) by {
            assert(s.subrange(pos + 1, pos + 5) == hex4_bytes(payload.len()));
            assert(payload =~= s.subrange(pos + 5, pos + 5 + len));
        }
        lemma_records_roundtrip_from(s, next);
        let records = parse_records(s, pos).unwrap();
        let rest = parse_records(s, next).unwrap();
        assert(records == seq![(tag, payload)] + rest);
        assert(records.drop_first() =~= rest);
        assert(records[0] == (tag, payload));
        assert(encode_records(records) == encode_line(tag, payload) + encode_records(rest));
        assert(encode_line(tag, payload) + encode_records(rest) =~= s.subrange(
            pos,
            s.len() as int,
        ));
    }
}

/// Decoding a canonically written stream into tagged records and encoding
/// the records again yields the original bytes, byte for byte.
pub proof fn lemma_manifest_records_roundtrip(s: Seq<u8>)
    requires
        parse_records(s, 0) is Some,
        canonical_from(s, 0),
    ensures
        encode_records(parse_records(s, 0).unwrap()) == s,
{
    lemma_records_roundtrip_from(s, 0);
    assert(s.subrange(0, s.len() as int) =~= s);
}

proof fn lemma_encode_parse_from(rs: Seq<(u8, Seq<u8>)>, s: Seq<u8>, pos: int)
    requires
        0 <= pos <= s.len(),
        forall|i: int| 0 <= i < rs.len() ==> (#[trigger] rs[i]).1.len() <= 0xffff,
        s.subrange(pos, s.len() as int) == encode_records(rs),
    ensures
        parse_records(s, pos) == Some(rs),
        canonical_from(s, pos),
    decreases rs.len(),
{
    if rs.len() == 0 {
        assert(pos == s.len());
    } else {
        let tag = rs[0].0;
        let payload = rs[0].1;
        let len = payload.len() as int;
        let enc = encode_records(rs);
        assert(enc == encode_line(tag, payload) + encode_records(rs.drop_first()));
        crate::digits::lemma_hex4_roundtrip(payload.len());
        let next = pos + 6 + len;
        assert(next <= s.len()) by {
            assert(encode_line(tag, payload).len() == 6 + len);
        }
        assert(forall|j: int| pos <= j < s.len() ==> #[trigger] s[j] == enc[j - pos]);
        assert(forall|j: int|
            1 <= j < 5 ==> #[trigger] enc[j] == hex4_bytes(payload.len())[j - 1]);
        assert(forall|j: int| 5 <= j < 5 + len ==> #[trigger] enc[j] == payload[j - 5]);
        assert(forall|j: int|
            6 + len <= j < enc.len() ==> #[trigger] enc[j] == encode_records(rs.drop_first())[j - 6
                - len]);
        assert(enc[0] == tag);
        assert(enc[5 + len] == 10);
        assert(s.subrange(pos + 1, pos + 5) =~= hex4_bytes(payload.len()));
        assert(parse_line(s, pos) == Some((tag, payload, next))) by {
            assert(hex4_val(s.subrange(pos + 1, pos + 5)) == payload.len());
            assert(s[pos + 5 + len] == 10);
            assert(s.subrange(pos + 5, pos + 5 + len) =~= payload);
            assert(s[pos] == tag);
        }
        assert(s.subrange(next, s.len() as int) =~= encode_records(rs.drop_first()));
        lemma_encode_parse_from(rs.drop_first(), s, next);
        assert(seq![(tag, payload)] + rs.drop_first() =~= rs);
    }
}

/// Encoding any sequence of tagged records whose payloads fit the length
/// field and decoding the bytes again yields the same records, and the
/// encoding is canonical.
pub proof fn lemma_records_encode_parse(rs: Seq<(u8, Seq<u8>)>)
    requires
        forall|i: int| 0 <= i < rs.len() ==> (#[trigger] rs[i]).1.len() <= 0xffff,
    ensures
        parse_records(encode_records(rs), 0) == Some(rs),
        canonical_from(encode_records(rs), 0),
{
    let s = encode_records(rs);
    assert(s.subrange(0, s.len() as int) =~= s);
    lemma_encode_parse_from(rs, s, 0);
}

// ---------------------------------------------------------------------------
// Reading a whole manifest
// ---------------------------------------------------------------------------

/// The result of reading the stream from `pos` with accumulator `acc`, the
/// next line being number `lineno`: the completed entries in order, or the
/// one-based number of the first corrupt line.  An incomplete entry at the
/// end of the stream is dropped.
pub open spec fn spec_read_from(s: Seq<u8>, pos: int, acc: EntryModel, lineno: nat) -> Result<
    Seq<EntryModel>,
    nat,
>
    recommends
        0 <= pos <= s.len(),
    decreases s.len() - pos,
{
    if pos >= s.len() {
        Ok(Seq::empty())
    } else {
        match parse_line(s, pos) {
            None => Err(lineno),
            Some((tag, payload, next)) => {
                if pos < next <= s.len() {
                    match apply_line(acc, tag as char, payload) {
                        None => Err(lineno),
                        Some((e2, finished)) => {
                            if finished {
                                match spec_read_from(s, next, empty_entry_model(), lineno + 1) {
                                    Ok(rest) => Ok(seq![e2] + rest),
                                    Err(n) => Err(n),
                                }
                            } else {
                                spec_read_from(s, next, e2, lineno + 1)
                            }
                        },
                    }
                } else {
                    Err(lineno)
                }
            },
        }
    }
}

/// The entries of a whole manifest stream, or the one-based number of the
/// first corrupt line.
pub open spec fn spec_read_manifest(s: Seq<u8>) -> Result<Seq<EntryModel>, nat> {
    spec_read_from(s, 0, empty_entry_model(), 1)
}

/// The views of a sequence of entries.
pub open spec fn entry_views(v: Seq<ManifestEntry>) -> Seq<EntryModel> {
    v.map_values(|e: ManifestEntry| e@)
}

/// Decode a whole manifest stream into its completed entries.  On a corrupt
/// line the error carries the one-based line number at which decoding
/// stopped.
pub fn read_manifest(input: &[u8]) -> (r: Result<Vec<ManifestEntry>, ManifestReadError>)
    ensures
        match r {
            Ok(entries) => spec_read_manifest(input@) == Ok::<Seq<EntryModel>, nat>(
                entry_views(entries@),
            ),
            Err(e) => spec_read_manifest(input@) is Err && e.spec_record()
                == spec_read_manifest(input@)->Err_0,
        },
{
    let mut entries: Vec<ManifestEntry> = Vec::new();
    let mut entry = ManifestEntry::new();
    let mut pos: usize = 0;
    let mut lineno: usize = 1;
    proof {
        assert(entry_views(entries@) =~= Seq::<EntryModel>::empty());
    }
    while pos < input.len()
        invariant
            pos <= input@.len(),
            1 <= lineno,
            6 * (lineno - 1) <= pos,
            spec_read_manifest(input@) == (match spec_read_from(
                input@,
                pos as int,
                entry@,
                lineno as nat,
            ) {
                Ok(rest) => Ok::<Seq<EntryModel>, nat>(entry_views(entries@) + rest),
                Err(n) => Err::<Seq<EntryModel>, nat>(n),
            }),
        decreases input@.len() - pos,
    {
        let (line, next) = match ManifestLine::read(input, pos) {
            Ok(x) => x,
            Err(err) => {
                return Err(err.at_record(lineno));
            },
        };
        proof {
            lemma_parse_line_bounds(input@, pos as int);
        }
        let finished = match add_manifest_line(&mut entry, &line.kind, line.data.as_slice()) {
            Ok(f) => f,
            Err(err) => {
                return Err(err.at_record(lineno));
            },
        };
        if finished {
            let ghost old_views = entry_views(entries@);
            let done = entry;
            entries.push(done);
            entry = ManifestEntry::new();
            proof {
                assert(entry_views(entries@) =~= old_views + seq![done@]);
                assert(forall|rest: Seq<EntryModel>|
                    (old_views + (seq![done@] + rest)) =~= (#[trigger] (entry_views(entries@)
                        + rest)));
            }
        }
        pos = next;
        lineno = lineno + 1;
    }
    proof {
        assert(entry_views(entries@) + Seq::<EntryModel>::empty() =~= entry_views(entries@));
    }
    Ok(entries)
}

/// A stream of `n` bytes completes at most `n / 6` entries: every line of
/// the wire format is at least six bytes long.
pub proof fn lemma_spec_read_len(s: Seq<u8>, pos: int, acc: EntryModel, lineno: nat)
    requires
        0 <= pos <= s.len(),
        spec_read_from(s, pos, acc, lineno) is Ok,
    ensures
        6 * spec_read_from(s, pos, acc, lineno)->Ok_0.len() <= s.len() - pos,
    decreases s.len() - pos,
{
    if pos < s.len() {
        let (tag, payload, next) = parse_line(s, pos).unwrap();
        lemma_parse_line_bounds(s, pos);
        let (e2, finished) = apply_line(acc, tag as char, payload).unwrap();
        if finished {
            lemma_spec_read_len(s, next, empty_entry_model(), lineno + 1);
        } else {
            lemma_spec_read_len(s, next, e2, lineno + 1);
        }
    }
}

/// Encoding any `i64` and decoding the result is the identity: the encoding
/// is well formed and reads back as the value it was made from.
pub proof fn lemma_base64_roundtrip(v: i64)
    ensures
        b64_well_formed(b64_encoding(v as int)),
        b64_signed_val(b64_encoding(v as int)) == v as int,
        i64::MIN <= b64_signed_val(b64_encoding(v as int)) <= i64::MAX,
{
    if v < 0 {
        let mag = (-(v as int)) as nat;
        lemma_b64_string_mag(mag);
        let e = b64_encoding(v as int);
        assert(e[0] == 45);
        assert(e.drop_first() =~= b64_string(mag));
        assert(b64_digits_part(e) =~= b64_string(mag));
    } else {
        let mag = v as nat;
        lemma_b64_string_mag(mag);
        let e = b64_encoding(v as int);
        assert(e == b64_string(mag));
        assert(e[0] != 45);
        assert(b64_digits_part(e) =~= b64_string(mag));
    }
}

} // verus!
