//! Snapshots ("backups") of one client: naming, checksum loading, clone
//! planning with deduplication, pruning of superfluous files, and
//! verification of stored content.
//!
//! A snapshot directory is named `<seven-digit id> <timestamp>`.  Its
//! manifest records every file with a checksum; cloning a snapshot reuses
//! content from a base snapshot whenever path and checksum agree, and
//! fetches the rest.  All reading and writing of real files is the caller's
//! business: functions here take bytes and directory listings and return
//! plans, tallies and classifications.

use std::io::Read;

use vstd::multiset::Multiset;
use vstd::prelude::*;

use crate::checksums::{bytes_eq, ChecksumMap};
use crate::manifest::{spec_read_manifest, EntryDataModel, EntryModel, ManifestReadError};
use crate::digits::{
    dec_string, dec_val_chars, format_id7, is_dec_digit_char, lemma_dec_string_digits,
    lemma_dec_string_len, lemma_dec_string_val, lemma_zero_pad_val, u64_to_dec, zero_pad_chars,
};

verus! {

// ---------------------------------------------------------------------------
// Outside computations: gzip and MD5
// ---------------------------------------------------------------------------

/// What gzip decompression yields on `data`: the decompressed bytes, or
/// nothing if `data` is not a well-formed gzip stream.
pub uninterp spec fn gunzip_of(data: Seq<u8>) -> Option<Seq<u8>>;

/// Relies on `flate2::read::GzDecoder`: gzip decompression, a function of
/// the input bytes alone.
#[verifier::external_body]
fn gunzip(data: &[u8]) -> (r: Option<Vec<u8>>)
    ensures
        match r {
            Some(v) => gunzip_of(data@) == Some(v@),
            None => gunzip_of(data@) is None,
        },
{
    let mut out: Vec<u8> = Vec::new();
    let mut dec = flate2::read::GzDecoder::new(data);
    match dec.read_to_end(&mut out) {
        Ok(_) => Some(out),
        Err(_) => None,
    }
}

/// The lowercase hexadecimal MD5 digest of `data`.
pub uninterp spec fn md5_of(data: Seq<u8>) -> Seq<u8>;

/// Relies on `md5::compute`: the MD5 digest, a function of the input bytes
/// alone, written here in its usual lowercase hexadecimal form.
#[verifier::external_body]
fn md5_hex(data: &[u8]) -> (r: Vec<u8>)
    ensures
        r@ == md5_of(data@),
{
    let digest = md5::compute(data);
    format!("{:x}", digest).into_bytes()
}

/// The streaming digest of a byte stream: how many bytes it holds and its
/// MD5 in lowercase hexadecimal.
pub fn calc_md5(data: &[u8]) -> (r: (usize, Vec<u8>))
    ensures
        r.0 == data@.len(),
        r.1@ == md5_of(data@),
{
    let digest = md5_hex(data);
    (data.len(), digest)
}

// ---------------------------------------------------------------------------
// Human-readable byte counts
// ---------------------------------------------------------------------------

/// The binary-prefix index used for `bytes`: the smallest power of 1024
/// whose quotient is at most one thousand.
pub open spec fn si_index(bytes: nat) -> nat {
    if bytes <= 1000 {
        0
    } else if bytes <= 1000 * 1024 {
        1
    } else if bytes <= 1000 * 1024 * 1024 {
        2
    } else if bytes <= 1000 * 1024 * 1024 * 1024 {
        3
    } else if bytes <= 1000 * 1024 * 1024 * 1024 * 1024 {
        4
    } else if bytes <= 1000 * 1024 * 1024 * 1024 * 1024 * 1024 {
        5
    } else {
        6
    }
}

/// 1024 to the `k`.
pub open spec fn pow1024(k: nat) -> nat
    decreases k,
{
    if k == 0 {
        1
    } else {
        1024 * pow1024((k - 1) as nat)
    }
}

/// `bytes * 100 / divisor`, rounded to the nearest integer, ties to even.
pub open spec fn rounded_hundredths(bytes: nat, divisor: nat) -> nat
    recommends
        divisor > 0,
{
    let q = bytes * 100 / divisor;
    let r = (bytes * 100) % divisor;
    if 2 * r < divisor {
        q
    } else if 2 * r > divisor {
        q + 1
    } else if q % 2 == 0 {
        q
    } else {
        q + 1
    }
}

/// The characters of the binary prefix for index `i`.
pub open spec fn si_prefix_chars(i: nat) -> Seq<char> {
    if i == 0 {
        Seq::empty()
    } else if i == 1 {
        seq!['k', 'i']
    } else if i == 2 {
        seq!['M', 'i']
    } else if i == 3 {
        seq!['G', 'i']
    } else if i == 4 {
        seq!['T', 'i']
    } else if i == 5 {
        seq!['P', 'i']
    } else {
        seq!['E', 'i']
    }
}

/// `bytes` written with two decimal places and a binary prefix, as in
/// `2.50 kiB`.
pub open spec fn spec_format_bytes(bytes: nat) -> Seq<char> {
    let i = si_index(bytes);
    let h = rounded_hundredths(bytes, pow1024(i));
    dec_string(h / 100) + seq!['.'] + zero_pad_chars(dec_string(h % 100), 2) + seq![' ']
        + si_prefix_chars(i) + seq!['B']
}

fn si_prefix_str(i: u64) -> (r: &'static str)
    requires
        i <= 6,
    ensures
        r@ == si_prefix_chars(i as nat),
{
    proof {
        reveal_strlit("");
        reveal_strlit("ki");
        reveal_strlit("Mi");
        reveal_strlit("Gi");
        reveal_strlit("Ti");
        reveal_strlit("Pi");
        reveal_strlit("Ei");
    }
    match i {
        0 => "",
        1 => "ki",
        2 => "Mi",
        3 => "Gi",
        4 => "Ti",
        5 => "Pi",
        _ => "Ei",
    }
}

/// Format a byte count for people: two decimal places and a binary prefix.
pub fn format_bytes(bytes: u64) -> (r: String)
    ensures
        r@ == spec_format_bytes(bytes as nat),
{
    let (index, divisor): (u64, u64) = if bytes <= 1000 {
        (0, 1)
    } else if bytes <= 1024000 {
        (1, 1024)
    } else if bytes <= 1048576000 {
        (2, 1048576)
    } else if bytes <= 1073741824000 {
        (3, 1073741824)
    } else if bytes <= 1099511627776000 {
        (4, 1099511627776)
    } else if bytes <= 1125899906842624000 {
        (5, 1125899906842624)
    } else {
        (6, 1152921504606846976)
    };
    proof {
        assert(pow1024(0nat) == 1);
        assert(pow1024(1nat) == 1024 * pow1024(0nat));
        assert(pow1024(2nat) == 1024 * pow1024(1nat));
        assert(pow1024(3nat) == 1024 * pow1024(2nat));
        assert(pow1024(4nat) == 1024 * pow1024(3nat));
        assert(pow1024(5nat) == 1024 * pow1024(4nat));
        assert(pow1024(6nat) == 1024 * pow1024(5nat));
        assert(index as nat == si_index(bytes as nat));
        assert(divisor as nat == pow1024(index as nat));
        assert(bytes as nat <= 1000 * (divisor as nat));
        assert((bytes as nat) * 100 <= 100000 * (divisor as nat)) by (nonlinear_arith)
            requires
                bytes as nat <= 1000 * (divisor as nat),
        ;
        vstd::arithmetic::div_mod::lemma_div_is_ordered(
            ((bytes as nat) * 100) as int,
            (100000 * (divisor as nat)) as int,
            divisor as int,
        );
        vstd::arithmetic::div_mod::lemma_div_multiples_vanish(100000, divisor as int);
        assert(((bytes as nat) * 100) / (divisor as nat) <= 100000);
    }
    let scaled: u128 = (bytes as u128) * 100;
    let q128: u128 = scaled / (divisor as u128);
    let r128: u128 = scaled % (divisor as u128);
    let h: u64 = if 2 * r128 < divisor as u128 {
        q128 as u64
    } else if 2 * r128 > divisor as u128 {
        (q128 + 1) as u64
    } else if q128 % 2 == 0 {
        q128 as u64
    } else {
        (q128 + 1) as u64
    };
    proof {
        assert(h as nat == rounded_hundredths(bytes as nat, pow1024(index as nat)));
    }
    let mut r = u64_to_dec(h / 100);
    proof {
        reveal_strlit(".");
        reveal_strlit(" ");
        reveal_strlit("B");
        reveal_strlit("0");
        crate::digits::lemma_pow10_up_to_7();
        lemma_dec_string_len((h % 100) as nat, 2);
    }
    r.append(".");
    let frac = h % 100;
    if frac < 10 {
        r.append("0");
        proof {
            lemma_dec_string_len(frac as nat, 1);
        }
    }
    let fd = u64_to_dec(frac);
    r.append(fd.as_str());
    r.append(" ");
    r.append(si_prefix_str(index));
    r.append("B");
    proof {
        assert(r@ =~= spec_format_bytes(bytes as nat));
    }
    r
}

// ---------------------------------------------------------------------------
// Transfer results
// ---------------------------------------------------------------------------

/// The outcome of one file transfer, reported by whoever performed it:
/// where it came from, where it went, how many bytes were moved, and the
/// failure if there was one.
#[derive(Debug)]
pub struct TransferResult {
    pub source: String,
    pub dest: String,
    pub size: u64,
    pub error: Option<String>,
}

/// How many of the results up to the stop point succeeded.
pub open spec fn ok_count(rs: Seq<TransferResult>) -> nat
    decreases rs.len(),
{
    if rs.len() == 0 {
        0
    } else {
        ok_count(rs.drop_last()) + (if rs.last().error is None {
            1nat
        } else {
            0nat
        })
    }
}

/// How many bytes the successful results up to the stop point moved.
pub open spec fn ok_size(rs: Seq<TransferResult>) -> nat
    decreases rs.len(),
{
    if rs.len() == 0 {
        0
    } else {
        ok_size(rs.drop_last()) + (if rs.last().error is None {
            rs.last().size as nat
        } else {
            0nat
        })
    }
}

/// How many results are consumed: everything, or everything up to and
/// including the first one whose destination is the awaited path.
pub open spec fn consumed_len(rs: Seq<TransferResult>, after: Option<Seq<char>>) -> nat
    decreases rs.len(),
{
    match after {
        None => rs.len(),
        Some(name) => {
            if rs.len() == 0 {
                0
            } else if rs.first().dest@ == name {
                1
            } else {
                1 + consumed_len(rs.drop_first(), after)
            }
        },
    }
}

proof fn lemma_ok_take_succ(rs: Seq<TransferResult>, i: int)
    requires
        0 <= i < rs.len(),
    ensures
        ok_count(rs.take(i + 1)) == ok_count(rs.take(i)) + (if rs[i].error is None {
            1nat
        } else {
            0nat
        }),
        ok_size(rs.take(i + 1)) == ok_size(rs.take(i)) + (if rs[i].error is None {
            rs[i].size as nat
        } else {
            0nat
        }),
        ok_count(rs.take(i)) <= i,
    decreases i,
{
    assert(rs.take(i + 1).drop_last() =~= rs.take(i));
    assert(rs.take(i + 1).last() == rs[i]);
    if i > 0 {
        lemma_ok_take_succ(rs, i - 1);
    } else {
        assert(rs.take(0) =~= Seq::<TransferResult>::empty());
    }
}

/// Tally a batch of transfer results: how many succeeded and how many bytes
/// they moved (saturating at `u64::MAX`), stopping after the first result
/// delivered to `return_after` if such a path is given.
pub fn wait_for_transfer(results: &Vec<TransferResult>, return_after: Option<&str>) -> (r: (
    u64,
    u64,
))
    ensures
        ({
            let after = match return_after {
                Some(name) => Some(name@),
                None => None,
            };
            let used = results@.take(consumed_len(results@, after) as int);
            &&& r.0 == ok_count(used)
            &&& r.1 == (if ok_size(used) <= u64::MAX {
                ok_size(used)
            } else {
                u64::MAX as nat
            })
        }),
{
    let ghost after = match return_after {
        Some(name) => Some(name@),
        None => None,
    };
    let mut files_ok: u64 = 0;
    let mut transfer_size: u64 = 0;
    let mut i: usize = 0;
    let ghost stop = consumed_len(results@, after);
    proof {
        lemma_consumed_le_len(results@, after);
        assert(results@.take(0) =~= Seq::<TransferResult>::empty());
    }
    while i < results.len()
        invariant
            0 <= i <= stop <= results@.len(),
            stop == consumed_len(results@, after),
            after == (match return_after {
                Some(name) => Some(name@),
                None => None,
            }),
            forall|j: int|
                0 <= j < i ==> (after matches Some(name) ==> (#[trigger] results@[j]).dest@
                    != name),
            files_ok == ok_count(results@.take(i as int)),
            files_ok <= i,
            transfer_size == (if ok_size(results@.take(i as int)) <= u64::MAX {
                ok_size(results@.take(i as int))
            } else {
                u64::MAX as nat
            }),
        decreases results@.len() - i,
    {
        let result = &results[i];
        proof {
            lemma_ok_take_succ(results@, i as int);
        }
        if result.error.is_none() {
            files_ok = files_ok + 1;
            if u64::MAX - transfer_size < result.size {
                transfer_size = u64::MAX;
            } else {
                transfer_size = transfer_size + result.size;
            }
        }
        let matched = match return_after {
            Some(name) => strings_eq(result.dest.as_str(), name),
            None => false,
        };
        if matched {
            proof {
                lemma_consumed_at(results@, after, i as int);
            }
            return (files_ok, transfer_size);
        }
        i = i + 1;
        proof {
            if i < results@.len() || after is Some {
                lemma_consumed_past(results@, after, i as int);
            }
        }
    }
    proof {
        assert(results@.take(stop as int) =~= results@.take(i as int));
    }
    (files_ok, transfer_size)
}

proof fn lemma_consumed_le_len(rs: Seq<TransferResult>, after: Option<Seq<char>>)
    ensures
        consumed_len(rs, after) <= rs.len(),
    decreases rs.len(),
{
    if rs.len() > 0 {
        lemma_consumed_le_len(rs.drop_first(), after);
    }
}

proof fn lemma_consumed_at(rs: Seq<TransferResult>, after: Option<Seq<char>>, i: int)
    requires
        0 <= i < rs.len(),
        after matches Some(name) && rs[i].dest@ == name,
        forall|j: int|
            0 <= j < i ==> (after matches Some(name) ==> (#[trigger] rs[j]).dest@ != name),
    ensures
        consumed_len(rs, after) == i + 1,
    decreases rs.len(),
{
    if i > 0 {
        assert(rs.drop_first()[i - 1] == rs[i]);
        assert(forall|j: int|
            0 <= j < i - 1 ==> (after matches Some(name) ==> (#[trigger] rs.drop_first()[j]).dest@
                != name)) by {
            assert(forall|j: int| 0 <= j < i - 1 ==> rs.drop_first()[j] == rs[j + 1]);
        }
        lemma_consumed_at(rs.drop_first(), after, i - 1);
    }
}

proof fn lemma_consumed_past(rs: Seq<TransferResult>, after: Option<Seq<char>>, i: int)
    requires
        0 < i <= rs.len(),
        forall|j: int|
            0 <= j < i ==> (after matches Some(name) ==> (#[trigger] rs[j]).dest@ != name),
    ensures
        consumed_len(rs, after) >= i,
    decreases i,
{
    if i > 1 {
        assert(forall|j: int|
            0 <= j < i - 1 ==> (after matches Some(name) ==> (#[trigger] rs.drop_first()[j]).dest@
                != name)) by {
            assert(forall|j: int| 0 <= j < i - 1 ==> rs.drop_first()[j] == rs[j + 1]);
        }
        lemma_consumed_past(rs.drop_first(), after, i - 1);
    }
}

// ---------------------------------------------------------------------------
// Snapshot names and the Backup type
// ---------------------------------------------------------------------------

/// A caller-facing rejection: an operation that mutates storage was asked
/// of a remote snapshot, or a directory name does not look like a snapshot.
#[derive(PartialEq, Eq, Structural, Debug, Clone, Copy)]
pub enum BackupError {
    NotLocal,
    InvalidName,
}

impl BackupError {
    /// A short description of the rejection.
    pub fn message(&self) -> (r: String)
        ensures
            self is NotLocal ==> r@ == "backup is not local"@,
            self is InvalidName ==> r@ == "invalid backup name"@,
    {
        match self {
            BackupError::NotLocal => String::from_str("backup is not local"),
            BackupError::InvalidName => String::from_str("invalid backup name"),
        }
    }
}

/// A well-formed snapshot directory name: a seven-digit identifier, one
/// space, and a free-text timestamp.
pub open spec fn valid_backup_name(s: Seq<char>) -> bool {
    &&& s.len() >= 8
    &&& forall|i: int| 0 <= i < 7 ==> is_dec_digit_char(#[trigger] s[i])
    &&& s[7] == ' '
}

/// The identifier encoded in a snapshot name.
pub open spec fn name_id(s: Seq<char>) -> nat {
    dec_val_chars(s.subrange(0, 7))
}

/// The timestamp part of a snapshot name.
pub open spec fn name_timestamp(s: Seq<char>) -> Seq<char> {
    s.subrange(8, s.len() as int)
}

/// `base` and `name` joined with a single path separator.
pub open spec fn join_path(base: Seq<char>, name: Seq<char>) -> Seq<char> {
    if base.len() == 0 {
        name
    } else if base.last() == '/' {
        base + name
    } else {
        base + seq!['/'] + name
    }
}

/// The part of `s` after its last `'/'`, or all of `s`.
pub open spec fn path_file_part(s: Seq<char>) -> Seq<char>
    decreases s.len(),
{
    if s.len() == 0 {
        s
    } else if s.last() == '/' {
        Seq::empty()
    } else {
        path_file_part(s.drop_last()).push(s.last())
    }
}

/// The part of `s` before its last `'/'`: the root `"/"` when the slash
/// comes first, empty when there is none.
pub open spec fn path_dir_part(s: Seq<char>) -> Seq<char>
    decreases s.len(),
{
    if s.len() == 0 {
        s
    } else if s.last() == '/' {
        if s.len() == 1 {
            s
        } else {
            s.drop_last()
        }
    } else {
        path_dir_part(s.drop_last())
    }
}

/// One immutable, timestamped snapshot of a client at some location.
#[derive(Debug)]
pub struct Backup {
    pub base_url: String,
    pub name: String,
    pub id: u64,
    pub timestamp: String,
    pub checksums: ChecksumMap,
    pub is_local: bool,
}

impl Backup {
    /// The location this snapshot lives under.
    pub open spec fn spec_base_url(&self) -> Seq<char> {
        self.base_url@
    }

    /// The directory name of this snapshot.
    pub open spec fn spec_name(&self) -> Seq<char> {
        self.name@
    }

    /// The timestamp part of the name.
    pub open spec fn spec_timestamp(&self) -> Seq<char> {
        self.timestamp@
    }

    /// The checksum map: relative path to recorded checksum.
    pub open spec fn spec_checksums(&self) -> Map<Seq<u8>, Seq<u8>> {
        self.checksums@
    }

    /// Whether mutating operations are permitted.
    pub open spec fn spec_is_local(&self) -> bool {
        self.is_local
    }

    /// The name is well formed and identifier and timestamp are the parts
    /// of it.
    pub open spec fn wf(&self) -> bool {
        &&& valid_backup_name(self.spec_name())
        &&& self.id as nat == name_id(self.spec_name())
        &&& self.spec_timestamp() == name_timestamp(self.spec_name())
    }

    /// The full path of this snapshot's directory.
    pub open spec fn spec_path(&self) -> Seq<char> {
        join_path(self.spec_base_url(), self.spec_name())
    }

    /// Split a directory name into identifier and timestamp.  Succeeds
    /// exactly on well-formed names.
    pub fn parse_name(name: &str) -> (r: Result<(u64, String), BackupError>)
        ensures
            match r {
                Ok((id, ts)) => valid_backup_name(name@) && id as nat == name_id(name@) && ts@
                    == name_timestamp(name@) && id < 10000000,
                Err(e) => !valid_backup_name(name@) && e is InvalidName,
            },
    {
        let len = name.unicode_len();
        if len < 8 {
            return Err(BackupError::InvalidName);
        }
        let mut id: u64 = 0;
        let mut i: usize = 0;
        proof {
            crate::digits::lemma_pow10_up_to_7();
            assert(name@.subrange(0, 0) =~= Seq::<char>::empty());
        }
        while i < 7
            invariant
                0 <= i <= 7,
                name@.len() >= 8,
                forall|j: int| 0 <= j < i ==> is_dec_digit_char(#[trigger] name@[j]),
                id == dec_val_chars(name@.subrange(0, i as int)),
                id < crate::digits::pow10(i as nat),
                crate::digits::pow10(7nat) == 10000000,
                i < 7 ==> crate::digits::pow10(i as nat) <= 1000000,
            decreases 7 - i,
        {
            let c = name.get_char(i);
            let u = c as u32;
            if u < 48 || u > 57 {
                return Err(BackupError::InvalidName);
            }
            proof {
                assert(is_dec_digit_char(name@[i as int]));
                crate::digits::lemma_dec_val_chars_take_succ(name@, i as int);
                assert(name@.subrange(0, i as int + 1) == name@.take(i as int + 1));
                assert(name@.subrange(0, i as int) == name@.take(i as int));
                crate::digits::lemma_pow10_up_to_7();
            }
            id = id * 10 + ((u - 48) as u64);
            i = i + 1;
        }
        let c7 = name.get_char(7);
        if c7 as u32 != 32 {
            return Err(BackupError::InvalidName);
        }
        let ts = name.substring_char(8, len);
        proof {
            assert(c7 == ' ');
            assert(name@.subrange(0, 7) =~= name@.take(7));
        }
        Ok((id, String::from_str(ts)))
    }

    /// Make a snapshot handle from a location, a directory name and
    /// whether the location is local.  The checksum map starts empty.
    pub fn new(base_url: &str, name: &str, is_local: bool) -> (r: Result<Self, BackupError>)
        ensures
            match r {
                Ok(b) => {
                    &&& valid_backup_name(name@)
                    &&& b.wf()
                    &&& b.spec_base_url() == base_url@
                    &&& b.spec_name() == name@
                    &&& b.id as nat == name_id(name@)
                    &&& b.spec_timestamp() == name_timestamp(name@)
                    &&& b.spec_checksums() == Map::<Seq<u8>, Seq<u8>>::empty()
                    &&& b.spec_is_local() == is_local
                },
                Err(e) => !valid_backup_name(name@) && e is InvalidName,
            },
    {
        let (id, timestamp) = Self::parse_name(name)?;
        Ok(
            Backup {
                base_url: String::from_str(base_url),
                name: String::from_str(name),
                id,
                timestamp,
                checksums: ChecksumMap::new(),
                is_local,
            },
        )
    }

    /// Make a local snapshot handle from the full path of its directory:
    /// everything after the last slash must be a well-formed name.
    pub fn from_path(path: &str) -> (r: Result<Self, BackupError>)
        ensures
            match r {
                Ok(b) => {
                    &&& b.wf()
                    &&& b.spec_base_url() == path_dir_part(path@)
                    &&& b.spec_name() == path_file_part(path@)
                    &&& b.spec_is_local()
                    &&& b.spec_checksums() == Map::<Seq<u8>, Seq<u8>>::empty()
                },
                Err(e) => !valid_backup_name(path_file_part(path@)) && e is InvalidName,
            },
    {
        let len = path.unicode_len();
        let mut j: usize = len;
        proof {
            assert(path@.take(len as int) =~= path@);
            assert(path@.skip(len as int) =~= Seq::<char>::empty());
        }
        let mut found = false;
        while j > 0 && !found
            invariant
                0 <= j <= path@.len(),
                len == path@.len(),
                path_file_part(path@) == path_file_part(path@.take(j as int)) + path@.subrange(
                    j as int,
                    len as int,
                ),
                path_dir_part(path@) == path_dir_part(path@.take(j as int)),
                forall|k: int| j <= k < len ==> path@[k] != '/',
                found ==> j > 0 && path@[j - 1] == '/',
            decreases j + (if found {
                0int
            } else {
                1int
            }),
        {
            let c = path.get_char(j - 1);
            if c == '/' {
                found = true;
            } else {
                proof {
                    let t = path@.take(j as int);
                    assert(t.last() == path@[j - 1]);
                    assert(t.drop_last() =~= path@.take(j as int - 1));
                    assert(path_file_part(t) == path_file_part(t.drop_last()).push(t.last()));
                    assert(path_file_part(path@.take(j as int - 1)) + path@.subrange(
                        j as int - 1,
                        len as int,
                    ) =~= path_file_part(path@.take(j as int)) + path@.subrange(
                        j as int,
                        len as int,
                    ));
                }
                j = j - 1;
            }
        }
        let ghost fp = path_file_part(path@);
        let name;
        let base;
        if j == 0 {
            proof {
                assert(path@.take(0) =~= Seq::<char>::empty());
                assert(fp =~= path@);
                assert(path_dir_part(path@).len() == 0);
            }
            name = path;
            base = "";
            proof {
                reveal_strlit("");
                assert(base@ =~= path_dir_part(path@));
            }
        } else {
            proof {
                let t = path@.take(j as int);
                assert(t.last() == '/');
                assert(path_file_part(t) =~= Seq::<char>::empty());
                assert(fp =~= path@.subrange(j as int, len as int));
                if j == 1 {
                    assert(path_dir_part(t) == t);
                    assert(t =~= path@.subrange(0, 1));
                } else {
                    assert(path_dir_part(t) == t.drop_last());
                    assert(t.drop_last() =~= path@.subrange(0, j as int - 1));
                }
            }
            name = path.substring_char(j, len);
            if j == 1 {
                base = path.substring_char(0, 1);
            } else {
                base = path.substring_char(0, j - 1);
            }
            proof {
                assert(base@ =~= path_dir_part(path@));
            }
        }
        match Self::new(base, name, true) {
            Ok(b) => Ok(b),
            Err(e) => Err(e),
        }
    }

    /// The full path of this snapshot's directory.
    pub fn path(&self) -> (r: String)
        ensures
            r@ == self.spec_path(),
    {
        join_path_exec(self.base_url.as_str(), self.name.as_str())
    }

    /// Whether mutating operations are permitted on this snapshot.
    pub fn is_local_backup(&self) -> (r: bool)
        ensures
            r == self.spec_is_local(),
    {
        self.is_local
    }

    /// The directory name of this snapshot: its zero-padded identifier,
    /// one space, and its timestamp.  The result is itself a well-formed
    /// name carrying the same identifier and timestamp.
    pub fn dir_name(&self) -> (r: String)
        requires
            self.wf(),
        ensures
            r@ == zero_pad_chars(dec_string(self.id as nat), 7) + seq![' '] + self.spec_timestamp(),
            r@ == self.spec_name(),
            valid_backup_name(r@),
            name_id(r@) == self.id as nat,
            name_timestamp(r@) == self.spec_timestamp(),
    {
        proof {
            crate::digits::lemma_pow10_up_to_7();
            crate::digits::lemma_dec_val_chars_bound(self.spec_name().subrange(0, 7));
        }
        let mut r = format_id7(self.id);
        proof {
            reveal_strlit(" ");
        }
        r.append(" ");
        r.append(self.timestamp.as_str());
        proof {
            let padded = zero_pad_chars(dec_string(self.id as nat), 7);
            assert(r@ =~= padded + seq![' '] + self.spec_timestamp());
            lemma_dec_string_digits(self.id as nat);
            lemma_dec_string_len(self.id as nat, 7);
            assert(forall|i: int| 0 <= i < 7 ==> is_dec_digit_char(#[trigger] padded[i]));
            assert(r@[7] == ' ');
            assert(r@.subrange(0, 7) =~= padded);
            lemma_zero_pad_val(dec_string(self.id as nat), 7);
            lemma_dec_string_val(self.id as nat);
            assert(name_timestamp(r@) =~= self.spec_timestamp());
            crate::digits::lemma_digits_canonical(self.spec_name().subrange(0, 7));
            assert(padded == self.spec_name().subrange(0, 7));
            assert(r@ =~= self.spec_name());
        }
        r
    }

    /// The checksum map loaded so far.
    pub fn get_checksums(&self) -> (r: &ChecksumMap)
        ensures
            r@ == self.spec_checksums(),
            r.entry_seq().len() == 0 <==> self.spec_checksums() == Map::<Seq<u8>, Seq<u8>>::empty(),
    {
        proof {
            if self.checksums.entry_seq().len() == 0 {
                assert(self.checksums.entry_seq() =~= Seq::<(Seq<u8>, Seq<u8>)>::empty());
                assert(self.checksums@ =~= Map::<Seq<u8>, Seq<u8>>::empty());
            } else {
                crate::checksums::lemma_map_of_contains(
                    self.checksums.entry_seq(),
                    self.checksums.entry_seq().len() - 1,
                );
            }
        }
        &self.checksums
    }

    /// Whether a snapshot directory with the given markers is finished: it
    /// has a manifest and no partial marker.
    pub fn is_finished(&self, manifest_present: bool, partial_present: bool) -> (r: bool)
        ensures
            r == (manifest_present && !partial_present),
    {
        manifest_present && !partial_present
    }

    /// The metadata files fetched verbatim for every snapshot.
    pub fn metadata_files() -> (r: Vec<&'static str>)
        ensures
            r@.len() == 5,
            r@[0]@ == "manifest.gz"@,
            r@[1]@ == "log.gz"@,
            r@[2]@ == "backup_stats"@,
            r@[3]@ == "timestamp"@,
            r@[4]@ == "incexc"@,
    {
        let mut v: Vec<&'static str> = Vec::new();
        v.push("manifest.gz");
        v.push("log.gz");
        v.push("backup_stats");
        v.push("timestamp");
        v.push("incexc");
        v
    }

    /// The path of `path` inside this snapshot's directory, under `prefix`
    /// if one is given.
    pub fn file_path(&self, prefix: Option<&str>, path: &str) -> (r: String)
        ensures
            r@ == join_path(
                match prefix {
                    Some(p) => join_path(self.spec_path(), p@),
                    None => self.spec_path(),
                },
                path@,
            ),
    {
        let real_path = self.path();
        let with_prefix = match prefix {
            Some(p) => join_path_exec(real_path.as_str(), p),
            None => real_path,
        };
        join_path_exec(with_prefix.as_str(), path)
    }

    /// Drop this snapshot's volume: permitted only locally.  Clears the
    /// checksum map and hands back the path of the volume the caller must
    /// now remove.
    pub fn delete(&mut self) -> (r: Result<String, BackupError>)
        ensures
            match r {
                Ok(path) => {
                    &&& old(self).spec_is_local()
                    &&& path@ == old(self).spec_path()
                    &&& final(self).spec_checksums() == Map::<Seq<u8>, Seq<u8>>::empty()
                    &&& final(self).spec_name() == old(self).spec_name()
                    &&& final(self).spec_base_url() == old(self).spec_base_url()
                    &&& final(self).spec_timestamp() == old(self).spec_timestamp()
                    &&& final(self).id == old(self).id
                    &&& final(self).spec_is_local()
                },
                Err(e) => !old(self).spec_is_local() && e is NotLocal && *final(self) == *old(self),
            },
    {
        if !self.is_local {
            return Err(BackupError::NotLocal);
        }
        let path = self.path();
        self.checksums.clear();
        Ok(path)
    }
}

// ---------------------------------------------------------------------------
// Clone planning and deduplication
// ---------------------------------------------------------------------------

/// A failure while planning a clone: the destination is not local, or its
/// manifest cannot be decoded.
#[derive(Debug)]
pub enum CloneError {
    NotLocal,
    Manifest(ManifestReadError),
}

/// The data payloads of a sequence of manifest entries, in order.
pub open spec fn data_entries(es: Seq<EntryModel>) -> Seq<EntryDataModel>
    decreases es.len(),
{
    if es.len() == 0 {
        Seq::empty()
    } else {
        let rest = data_entries(es.drop_last());
        match es.last().data {
            Some(d) => rest.push(d),
            None => rest,
        }
    }
}

/// There are at most as many data payloads as entries.
pub proof fn lemma_data_entries_len(es: Seq<EntryModel>)
    ensures
        data_entries(es).len() <= es.len(),
    decreases es.len(),
{
    if es.len() > 0 {
        lemma_data_entries_len(es.drop_last());
    }
}

/// The base supplies a file when it records the same checksum under the
/// same path.  This is the deduplication rule: equality of checksum values,
/// not mere presence of the path.
pub open spec fn supplied_by_base(base: Option<Map<Seq<u8>, Seq<u8>>>, d: EntryDataModel) -> bool {
    match base {
        Some(m) => m.contains_key(d.path) && m[d.path] == d.md5,
        None => false,
    }
}

/// The paths that must be transferred: every data payload the base does
/// not supply, in manifest order.
pub open spec fn transfer_list(base: Option<Map<Seq<u8>, Seq<u8>>>, ds: Seq<EntryDataModel>) -> Seq<
    Seq<u8>,
>
    decreases ds.len(),
{
    if ds.len() == 0 {
        Seq::empty()
    } else {
        let rest = transfer_list(base, ds.drop_last());
        if supplied_by_base(base, ds.last()) {
            rest
        } else {
            rest.push(ds.last().path)
        }
    }
}

/// How many data payloads the base supplies.
pub open spec fn from_base_count(base: Option<Map<Seq<u8>, Seq<u8>>>, ds: Seq<EntryDataModel>) -> nat
    decreases ds.len(),
{
    if ds.len() == 0 {
        0
    } else {
        from_base_count(base, ds.drop_last()) + (if supplied_by_base(base, ds.last()) {
            1nat
        } else {
            0nat
        })
    }
}

/// The checksum map after recording every data payload of `ds` over `m`.
pub open spec fn checksums_after(m: Map<Seq<u8>, Seq<u8>>, ds: Seq<EntryDataModel>) -> Map<
    Seq<u8>,
    Seq<u8>,
>
    decreases ds.len(),
{
    if ds.len() == 0 {
        m
    } else {
        checksums_after(m, ds.drop_last()).insert(ds.last().path, ds.last().md5)
    }
}

/// Every data payload is either supplied by the base or scheduled for
/// transfer: the two tallies partition the total.
pub proof fn lemma_dedup_partition(base: Option<Map<Seq<u8>, Seq<u8>>>, ds: Seq<EntryDataModel>)
    ensures
        transfer_list(base, ds).len() + from_base_count(base, ds) == ds.len(),
    decreases ds.len(),
{
    if ds.len() > 0 {
        lemma_dedup_partition(base, ds.drop_last());
    }
}

/// A path every one of whose payloads the base supplies with an equal
/// checksum is never scheduled for transfer, though each of its payloads
/// still counts toward the total.
pub proof fn lemma_dedup_no_transfer(
    base: Option<Map<Seq<u8>, Seq<u8>>>,
    ds: Seq<EntryDataModel>,
    p: Seq<u8>,
)
    requires
        forall|i: int|
            0 <= i < ds.len() && (#[trigger] ds[i]).path == p ==> supplied_by_base(base, ds[i]),
    ensures
        !transfer_list(base, ds).contains(p),
    decreases ds.len(),
{
    if ds.len() > 0 {
        assert(forall|i: int|
            0 <= i < ds.drop_last().len() && (#[trigger] ds.drop_last()[i]).path == p
                ==> supplied_by_base(base, ds.drop_last()[i])) by {
            assert(forall|i: int|
                0 <= i < ds.len() - 1 ==> ds.drop_last()[i] == ds[i]);
        }
        lemma_dedup_no_transfer(base, ds.drop_last(), p);
        assert(ds[ds.len() - 1] == ds.last());
        if !supplied_by_base(base, ds.last()) {
            assert(ds.last().path != p);
            assert(forall|j: int|
                0 <= j < transfer_list(base, ds).len() ==> #[trigger] transfer_list(base, ds)[j]
                    != p);
        } else {
            assert(forall|j: int|
                0 <= j < transfer_list(base, ds).len() ==> #[trigger] transfer_list(base, ds)[j]
                    != p);
        }
    }
}

/// A payload whose checksum the base does not supply — in particular one
/// recorded in the base under the same path with a different checksum — is
/// always scheduled for transfer.
pub proof fn lemma_changed_is_transferred(
    base: Option<Map<Seq<u8>, Seq<u8>>>,
    ds: Seq<EntryDataModel>,
    i: int,
)
    requires
        0 <= i < ds.len(),
        !supplied_by_base(base, ds[i]),
    ensures
        transfer_list(base, ds).contains(ds[i].path),
    decreases ds.len(),
{
    if i == ds.len() - 1 {
        assert(ds[i] == ds.last());
        let tl = transfer_list(base, ds);
        assert(tl.last() == ds[i].path);
        assert(tl.contains(ds[i].path)) by {
            assert(tl[tl.len() - 1] == ds[i].path);
        }
    } else {
        lemma_changed_is_transferred(base, ds.drop_last(), i);
        assert(ds.drop_last()[i] == ds[i]);
        let rest = transfer_list(base, ds.drop_last());
        let j = choose|j: int| 0 <= j < rest.len() && rest[j] == ds[i].path;
        assert(transfer_list(base, ds)[j] == ds[i].path);
    }
}

proof fn lemma_clone_step(
    bm: Option<Map<Seq<u8>, Seq<u8>>>,
    m: Map<Seq<u8>, Seq<u8>>,
    ds0: Seq<EntryDataModel>,
    d: EntryDataModel,
)
    ensures
        transfer_list(bm, ds0.push(d)) == (if supplied_by_base(bm, d) {
            transfer_list(bm, ds0)
        } else {
            transfer_list(bm, ds0).push(d.path)
        }),
        from_base_count(bm, ds0.push(d)) == from_base_count(bm, ds0) + (if supplied_by_base(
            bm,
            d,
        ) {
            1nat
        } else {
            0nat
        }),
        checksums_after(m, ds0.push(d)) == checksums_after(m, ds0).insert(d.path, d.md5),
{
    assert(ds0.push(d).drop_last() =~= ds0);
    assert(ds0.push(d).last() == d);
}

/// What a clone must still do: the relative paths to fetch, how many files
/// the manifest lists (metadata files included), and how many the base
/// supplied.
#[derive(Debug)]
pub struct ClonePlan {
    pub transfers: Vec<Vec<u8>>,
    pub files_total: u64,
    pub files_from_base: u64,
}

/// The base's checksum map, if a base is given.
pub open spec fn base_map(base_backup: Option<&Backup>) -> Option<Map<Seq<u8>, Seq<u8>>> {
    match base_backup {
        Some(b) => Some(b.spec_checksums()),
        None => None,
    }
}

impl Backup {
    /// Plan the clone of this snapshot from its manifest, reusing from
    /// `base_backup` every file whose recorded checksum matches.  Records
    /// every data payload's checksum in this snapshot's own map, and
    /// returns which paths must still be fetched.  A destination that is
    /// already finished needs nothing: the plan is empty.  Cloning is only
    /// permitted locally, and a corrupt manifest aborts the whole clone.
    pub fn clone_from(
        &mut self,
        base_backup: Option<&Backup>,
        manifest_gz: &[u8],
        already_finished: bool,
    ) -> (r: Result<ClonePlan, CloneError>)
        requires
            base_backup matches Some(b) ==> b.spec_checksums() != Map::<Seq<u8>, Seq<u8>>::empty(),
        ensures
            final(self).base_url == old(self).base_url,
            final(self).name == old(self).name,
            final(self).id == old(self).id,
            final(self).timestamp == old(self).timestamp,
            final(self).is_local == old(self).is_local,
            match r {
                Ok(plan) => {
                    &&& old(self).spec_is_local()
                    &&& if already_finished {
                        &&& plan.transfers@.len() == 0
                        &&& plan.files_total == 0
                        &&& plan.files_from_base == 0
                        &&& final(self).spec_checksums() == old(self).spec_checksums()
                    } else {
                        &&& gunzip_of(manifest_gz@) is Some
                        &&& spec_read_manifest(gunzip_of(manifest_gz@).unwrap()) is Ok
                        &&& {
                            let entries = spec_read_manifest(
                                gunzip_of(manifest_gz@).unwrap(),
                            )->Ok_0;
                            let ds = data_entries(entries);
                            let bm = base_map(base_backup);
                            &&& plan.transfers@.map_values(|t: Vec<u8>| t@) == transfer_list(
                                bm,
                                ds,
                            )
                            &&& plan.files_from_base == from_base_count(bm, ds)
                            &&& plan.files_total == 5 + ds.len()
                            &&& final(self).spec_checksums() == checksums_after(
                                old(self).spec_checksums(),
                                ds,
                            )
                        }
                    }
                },
                Err(CloneError::NotLocal) => !old(self).spec_is_local() && *final(self) == *old(
                    self,
                ),
                Err(CloneError::Manifest(e)) => {
                    &&& old(self).spec_is_local()
                    &&& !already_finished
                    &&& final(self).spec_checksums() == old(self).spec_checksums()
                    &&& (gunzip_of(manifest_gz@) is None || spec_read_manifest(
                        gunzip_of(manifest_gz@).unwrap(),
                    ) is Err)
                    &&& (gunzip_of(manifest_gz@) is Some ==> e.spec_record() == spec_read_manifest(
                        gunzip_of(manifest_gz@).unwrap(),
                    )->Err_0)
                },
            },
    {
        if !self.is_local {
            return Err(CloneError::NotLocal);
        }
        if already_finished {
            return Ok(ClonePlan { transfers: Vec::new(), files_total: 0, files_from_base: 0 });
        }
        let decompressed = match gunzip(manifest_gz) {
            Some(m) => m,
            None => {
                return Err(CloneError::Manifest(ManifestReadError::new("not a gzip stream")));
            },
        };
        let entries = match crate::manifest::read_manifest(decompressed.as_slice()) {
            Ok(es) => es,
            Err(e) => {
                return Err(CloneError::Manifest(e));
            },
        };
        let ghost vs = crate::manifest::entry_views(entries@);
        let dlen: usize = decompressed.len();
        proof {
            crate::manifest::lemma_spec_read_len(
                decompressed@,
                0,
                crate::manifest::empty_entry_model(),
                1,
            );
            lemma_data_entries_len(vs);
            assert(vs.take(vs.len() as int) =~= vs);
            assert(data_entries(vs.take(0)) =~= Seq::<EntryDataModel>::empty());
        }
        let ghost bm = base_map(base_backup);
        let ghost old_map = self.spec_checksums();
        let mut transfers: Vec<Vec<u8>> = Vec::new();
        let mut files_from_base: u64 = 0;
        let mut data_count: u64 = 0;
        let mut i: usize = 0;
        while i < entries.len()
            invariant
                0 <= i <= entries@.len(),
                vs == crate::manifest::entry_views(entries@),
                vs.len() == entries@.len(),
                6 * vs.len() <= usize::MAX,
                bm == base_map(base_backup),
                data_count == data_entries(vs.take(i as int)).len(),
                data_count <= i,
                files_from_base <= data_count,
                transfers@.map_values(|t: Vec<u8>| t@) == transfer_list(
                    bm,
                    data_entries(vs.take(i as int)),
                ),
                files_from_base == from_base_count(bm, data_entries(vs.take(i as int))),
                self.spec_checksums() == checksums_after(
                    old_map,
                    data_entries(vs.take(i as int)),
                ),
                self.base_url == old(self).base_url,
                self.name == old(self).name,
                self.id == old(self).id,
                self.timestamp == old(self).timestamp,
                self.is_local == old(self).is_local,
            decreases entries@.len() - i,
        {
            proof {
                assert(vs.take(i as int + 1).drop_last() =~= vs.take(i as int));
                assert(vs.take(i as int + 1).last() == vs[i as int]);
                assert(vs[i as int] == entries@[i as int]@);
            }
            let entry = &entries[i];
            match &entry.data {
                Some(data) => {
                    let ghost d = data@;
                    self.checksums.insert(copy_bytes(&data.path), copy_bytes(&data.md5));
                    data_count = data_count + 1;
                    let copied = match base_backup {
                        Some(base) => {
                            match base.checksums.get(data.path.as_slice()) {
                                Some(base_md5) => bytes_eq(base_md5.as_slice(), data.md5.as_slice()),
                                None => false,
                            }
                        },
                        None => false,
                    };
                    proof {
                        assert(copied == supplied_by_base(bm, d));
                        assert(data_entries(vs.take(i as int + 1)) == data_entries(
                            vs.take(i as int),
                        ).push(d));
                        lemma_clone_step(bm, old_map, data_entries(vs.take(i as int)), d);
                    }
                    if copied {
                        files_from_base = files_from_base + 1;
                    } else {
                        let ghost old_transfers = transfers@.map_values(|t: Vec<u8>| t@);
                        transfers.push(copy_bytes(&data.path));
                        proof {
                            assert(transfers@.map_values(|t: Vec<u8>| t@) =~= old_transfers.push(
                                d.path,
                            ));
                        }
                    }
                },
                None => {
                    proof {
                        assert(data_entries(vs.take(i as int + 1)) == data_entries(
                            vs.take(i as int),
                        ));
                    }
                },
            }
            i = i + 1;
        }
        proof {
            assert(vs.take(i as int) =~= vs);
        }
        Ok(ClonePlan { transfers, files_total: 5 + data_count, files_from_base })
    }

    /// Record every data payload of an already decoded manifest in this
    /// snapshot's checksum map, once: a map that is already non-empty is
    /// left alone.
    pub fn load_checksums(&mut self, manifest_gz: &[u8]) -> (r: Result<(), ManifestReadError>)
        ensures
            final(self).base_url == old(self).base_url,
            final(self).name == old(self).name,
            final(self).id == old(self).id,
            final(self).timestamp == old(self).timestamp,
            final(self).is_local == old(self).is_local,
            old(self).spec_checksums() != Map::<Seq<u8>, Seq<u8>>::empty() ==> (r is Ok
                && final(self).spec_checksums() == old(self).spec_checksums()),
            old(self).spec_checksums() == Map::<Seq<u8>, Seq<u8>>::empty() ==> match r {
                Ok(_) => {
                    &&& gunzip_of(manifest_gz@) is Some
                    &&& spec_read_manifest(gunzip_of(manifest_gz@).unwrap()) is Ok
                    &&& final(self).spec_checksums() == checksums_after(
                        old(self).spec_checksums(),
                        data_entries(
                            spec_read_manifest(gunzip_of(manifest_gz@).unwrap())->Ok_0,
                        ),
                    )
                },
                Err(e) => {
                    &&& final(self).spec_checksums() == old(self).spec_checksums()
                    &&& (gunzip_of(manifest_gz@) is None || spec_read_manifest(
                        gunzip_of(manifest_gz@).unwrap(),
                    ) is Err)
                    &&& (gunzip_of(manifest_gz@) is Some ==> e.spec_record() == spec_read_manifest(
                        gunzip_of(manifest_gz@).unwrap(),
                    )->Err_0)
                },
            },
    {
        if !self.checksums.is_empty() {
            return Ok(());
        }
        let decompressed = match gunzip(manifest_gz) {
            Some(m) => m,
            None => {
                return Err(ManifestReadError::new("not a gzip stream"));
            },
        };
        let entries = match crate::manifest::read_manifest(decompressed.as_slice()) {
            Ok(es) => es,
            Err(e) => {
                return Err(e);
            },
        };
        let ghost vs = crate::manifest::entry_views(entries@);
        let ghost old_map = self.spec_checksums();
        proof {
            assert(vs.take(0) =~= Seq::<EntryModel>::empty());
            assert(data_entries(vs.take(0)) =~= Seq::<EntryDataModel>::empty());
        }
        let mut i: usize = 0;
        while i < entries.len()
            invariant
                0 <= i <= entries@.len(),
                vs == crate::manifest::entry_views(entries@),
                vs.len() == entries@.len(),
                self.spec_checksums() == checksums_after(
                    old_map,
                    data_entries(vs.take(i as int)),
                ),
                self.base_url == old(self).base_url,
                self.name == old(self).name,
                self.id == old(self).id,
                self.timestamp == old(self).timestamp,
                self.is_local == old(self).is_local,
            decreases entries@.len() - i,
        {
            proof {
                assert(vs.take(i as int + 1).drop_last() =~= vs.take(i as int));
                assert(vs.take(i as int + 1).last() == vs[i as int]);
                assert(vs[i as int] == entries@[i as int]@);
            }
            let entry = &entries[i];
            match &entry.data {
                Some(data) => {
                    proof {
                        assert(data_entries(vs.take(i as int + 1)) == data_entries(
                            vs.take(i as int),
                        ).push(data@));
                        lemma_clone_step(None, old_map, data_entries(vs.take(i as int)), data@);
                    }
                    self.checksums.insert(copy_bytes(&data.path), copy_bytes(&data.md5));
                },
                None => {
                    proof {
                        assert(data_entries(vs.take(i as int + 1)) == data_entries(
                            vs.take(i as int),
                        ));
                    }
                },
            }
            i = i + 1;
        }
        proof {
            assert(vs.take(i as int) =~= vs);
        }
        Ok(())
    }

    /// The number of files a finished clone may not account for: everything
    /// the manifest lists that neither arrived nor came from the base.  The
    /// snapshot is complete exactly when this is zero.
    pub fn clone_errors(files_total: u64, files_ok: u64, files_from_base: u64) -> (r: u64)
        requires
            files_ok + files_from_base <= files_total,
        ensures
            r == files_total - files_ok - files_from_base,
    {
        files_total - files_ok - files_from_base
    }
}

// ---------------------------------------------------------------------------
// Superfluous files and pruning
// ---------------------------------------------------------------------------

/// The first path component of `p`: everything before its first `'/'`.
pub open spec fn top_level_part(p: Seq<u8>) -> Seq<u8>
    decreases p.len(),
{
    if p.len() == 0 {
        p
    } else if p.first() == 47 {
        Seq::empty()
    } else {
        seq![p.first()] + top_level_part(p.drop_first())
    }
}

/// The top-level directories the manifest wants kept: the first component
/// of every recorded path.
pub open spec fn wanted_top_level(m: Map<Seq<u8>, Seq<u8>>) -> Set<Seq<u8>> {
    Set::new(|t: Seq<u8>| exists|k: Seq<u8>| m.contains_key(k) && top_level_part(k) == t)
}

/// A present path is superfluous when it is neither a wanted top-level
/// directory nor itself recorded in the checksum map.
pub open spec fn is_unwanted(m: Map<Seq<u8>, Seq<u8>>, p: Seq<u8>) -> bool {
    !wanted_top_level(m).contains(p) && !m.contains_key(p)
}

/// The superfluous paths among `ps`, in order.
pub open spec fn unwanted_list(m: Map<Seq<u8>, Seq<u8>>, ps: Seq<Seq<u8>>) -> Seq<Seq<u8>>
    decreases ps.len(),
{
    if ps.len() == 0 {
        Seq::empty()
    } else {
        let rest = unwanted_list(m, ps.drop_last());
        if is_unwanted(m, ps.last()) {
            rest.push(ps.last())
        } else {
            rest
        }
    }
}

/// Pruning is safe: nothing the checksum map lists is ever selected for
/// deletion, and everything selected was actually present.
pub proof fn lemma_pruning_safe(m: Map<Seq<u8>, Seq<u8>>, ps: Seq<Seq<u8>>)
    ensures
        forall|j: int|
            0 <= j < unwanted_list(m, ps).len() ==> !m.contains_key(
                #[trigger] unwanted_list(m, ps)[j],
            ) && ps.contains(unwanted_list(m, ps)[j]),
    decreases ps.len(),
{
    if ps.len() > 0 {
        lemma_pruning_safe(m, ps.drop_last());
        assert(forall|j: int| 0 <= j < ps.len() - 1 ==> #[trigger] ps.drop_last()[j] == ps[j]);
        assert(ps[ps.len() - 1] == ps.last());
        assert(forall|x: Seq<u8>|
            #[trigger] ps.drop_last().contains(x) ==> ps.contains(x)) by {
            assert(forall|j: int|
                0 <= j < ps.len() - 1 ==> #[trigger] ps.drop_last()[j] == ps[j]);
        }
        let rest = unwanted_list(m, ps.drop_last());
        let whole = unwanted_list(m, ps);
        assert forall|j: int| 0 <= j < whole.len() implies !m.contains_key(#[trigger] whole[j])
            && ps.contains(whole[j]) by {
            if is_unwanted(m, ps.last()) {
                assert(whole == rest.push(ps.last()));
                if j < rest.len() {
                    assert(whole[j] == rest[j]);
                } else {
                    assert(whole[j] == ps.last());
                    assert(ps.contains(ps.last())) by {
                        assert(ps[ps.len() - 1] == ps.last());
                    }
                }
            } else {
                assert(whole == rest);
                assert(whole[j] == rest[j]);
            }
        }
    }
}

/// How deep a path is: the number of separators in it.
pub open spec fn path_depth(p: Seq<u8>) -> nat
    decreases p.len(),
{
    if p.len() == 0 {
        0
    } else {
        path_depth(p.drop_last()) + (if p.last() == 47 {
            1nat
        } else {
            0nat
        })
    }
}

/// The proper ancestors of `p`, deepest first: its prefix before every
/// separator.
pub open spec fn ancestor_list(p: Seq<u8>) -> Seq<Seq<u8>>
    decreases p.len(),
{
    if p.len() == 0 {
        Seq::empty()
    } else if p.last() == 47 {
        seq![p.drop_last()] + ancestor_list(p.drop_last())
    } else {
        ancestor_list(p.drop_last())
    }
}

/// Cleaning up after a deletion stops short of the root: every ancestor
/// considered is a proper, non-empty prefix of the deleted path.
pub proof fn lemma_ancestors_stop_at_root(p: Seq<u8>)
    requires
        p.len() > 0,
        p.first() != 47,
    ensures
        forall|j: int|
            0 <= j < ancestor_list(p).len() ==> 0 < (#[trigger] ancestor_list(p)[j]).len()
                < p.len(),
    decreases p.len(),
{
    if p.len() > 1 {
        let q = p.drop_last();
        assert(q.first() == p.first());
        lemma_ancestors_stop_at_root(q);
        if p.last() == 47 {
            assert(ancestor_list(p) == seq![q] + ancestor_list(q));
            assert forall|j: int| 0 <= j < ancestor_list(p).len() implies 0 < (
            #[trigger] ancestor_list(p)[j]).len() < p.len() by {
                if j == 0 {
                    assert(ancestor_list(p)[0] == q);
                } else {
                    assert(ancestor_list(p)[j] == ancestor_list(q)[j - 1]);
                }
            }
        } else {
            assert(ancestor_list(p) == ancestor_list(q));
        }
    } else {
        assert(p.drop_last() =~= Seq::<u8>::empty());
        assert(ancestor_list(Seq::<u8>::empty()) =~= Seq::<Seq<u8>>::empty());
        assert(p.last() == p.first());
        assert(ancestor_list(p).len() == 0);
    }
}

fn top_level_exec(p: &[u8]) -> (r: Vec<u8>)
    ensures
        r@ == top_level_part(p@),
{
    let mut j: usize = 0;
    proof {
        assert(p@.skip(0) =~= p@);
        assert(p@.subrange(0, 0) + top_level_part(p@.skip(0)) =~= top_level_part(p@));
    }
    while j < p.len() && p[j] != 47
        invariant
            0 <= j <= p@.len(),
            top_level_part(p@) == p@.subrange(0, j as int) + top_level_part(p@.skip(j as int)),
            j < p@.len() ==> p@.skip(j as int).first() == p@[j as int],
        decreases p@.len() - j,
    {
        proof {
            let t = p@.skip(j as int);
            assert(t.first() == p@[j as int]);
            assert(t.drop_first() =~= p@.skip(j as int + 1));
            assert(top_level_part(t) == seq![t.first()] + top_level_part(t.drop_first()));
            assert(p@.subrange(0, j as int + 1) + top_level_part(p@.skip(j as int + 1)) =~= p@
                .subrange(0, j as int) + top_level_part(p@.skip(j as int)));
        }
        j = j + 1;
    }
    proof {
        if j == p@.len() {
            assert(p@.skip(j as int) =~= Seq::<u8>::empty());
            assert(top_level_part(p@) =~= p@.subrange(0, j as int));
        } else {
            assert(p@.skip(j as int).first() == 47);
            assert(top_level_part(p@.skip(j as int)) =~= Seq::<u8>::empty());
            assert(top_level_part(p@) =~= p@.subrange(0, j as int));
        }
    }
    let s = vstd::slice::slice_subrange(p, 0, j);
    vstd::slice::slice_to_vec(s)
}

/// Whether some element of `v` holds the same bytes as `x`.
fn vec_contains_bytes(v: &Vec<Vec<u8>>, x: &[u8]) -> (r: bool)
    ensures
        r <==> exists|j: int| 0 <= j < v@.len() && (#[trigger] v@[j])@ == x@,
{
    let mut i: usize = 0;
    while i < v.len()
        invariant
            0 <= i <= v@.len(),
            forall|j: int| 0 <= j < i ==> (#[trigger] v@[j])@ != x@,
        decreases v@.len() - i,
    {
        if bytes_eq(v[i].as_slice(), x) {
            return true;
        }
        i = i + 1;
    }
    false
}

impl Backup {
    /// The top-level directories that appear in the checksum map, without
    /// repetition.
    pub fn top_level_data_dirs(&self) -> (r: Vec<Vec<u8>>)
        requires
            self.spec_checksums() != Map::<Seq<u8>, Seq<u8>>::empty(),
        ensures
            forall|k: Seq<u8>|
                self.spec_checksums().contains_key(k) ==> (exists|j: int|
                    0 <= j < r@.len() && (#[trigger] r@[j])@ == top_level_part(k)),
            forall|j: int|
                0 <= j < r@.len() ==> (exists|k: Seq<u8>|
                    self.spec_checksums().contains_key(k) && (#[trigger] r@[j])@
                        == top_level_part(k)),
            forall|j1: int, j2: int|
                0 <= j1 < j2 < r@.len() ==> (#[trigger] r@[j1])@ != (#[trigger] r@[j2])@,
    {
        let ghost es = self.checksums.entry_seq();
        let mut r: Vec<Vec<u8>> = Vec::new();
        let n = self.checksums.entry_count();
        let mut i: usize = 0;
        while i < n
            invariant
                0 <= i <= es.len(),
                n == es.len(),
                es == self.checksums.entry_seq(),
                forall|l: int|
                    0 <= l < i ==> (exists|j: int|
                        0 <= j < r@.len() && (#[trigger] r@[j])@ == top_level_part(
                            (#[trigger] es[l]).0,
                        )),
                forall|j: int|
                    0 <= j < r@.len() ==> (exists|k: Seq<u8>|
                        self.spec_checksums().contains_key(k) && (#[trigger] r@[j])@
                            == top_level_part(k)),
                forall|j1: int, j2: int|
                    0 <= j1 < j2 < r@.len() ==> (#[trigger] r@[j1])@ != (#[trigger] r@[j2])@,
            decreases es.len() - i,
        {
            let key = self.checksums.key_at(i);
            let top = top_level_exec(key.as_slice());
            if !vec_contains_bytes(&r, top.as_slice()) {
                let ghost old_r = r@;
                r.push(top);
                proof {
                    assert(forall|j: int| 0 <= j < old_r.len() ==> r@[j] == old_r[j]);
                    assert(r@[r@.len() - 1]@ == top_level_part(es[i as int].0));
                }
            }
            i = i + 1;
        }
        proof {
            assert forall|k: Seq<u8>| self.spec_checksums().contains_key(k) implies (exists|j: int|
                0 <= j < r@.len() && (#[trigger] r@[j])@ == top_level_part(k)) by {
                crate::checksums::lemma_map_of_key_from(es, k);
                let l = choose|l: int| 0 <= l < es.len() && (#[trigger] es[l]).0 == k;
                assert(exists|j: int|
                    0 <= j < r@.len() && (#[trigger] r@[j])@ == top_level_part(es[l].0));
            }
        }
        r
    }

    /// The superfluous paths among those actually present in the data
    /// directory: everything that is neither a wanted top-level directory
    /// nor recorded in the checksum map.  Only meaningful on a local
    /// snapshot with loaded checksums.
    #[verifier::loop_isolation(false)]
    pub fn unwanted_files(&self, present: &Vec<Vec<u8>>) -> (r: Vec<Vec<u8>>)
        requires
            self.spec_is_local(),
            self.spec_checksums() != Map::<Seq<u8>, Seq<u8>>::empty(),
        ensures
            r@.map_values(|p: Vec<u8>| p@) == unwanted_list(
                self.spec_checksums(),
                present@.map_values(|p: Vec<u8>| p@),
            ),
    {
        let ghost pv = present@.map_values(|p: Vec<u8>| p@);
        let tops = self.top_level_data_dirs();
        let mut r: Vec<Vec<u8>> = Vec::new();
        let mut i: usize = 0;
        proof {
            assert(pv.take(0) =~= Seq::<Seq<u8>>::empty());
            assert(r@.map_values(|p: Vec<u8>| p@) =~= unwanted_list(
                self.spec_checksums(),
                pv.take(0),
            ));
        }
        while i < present.len()
            invariant
                0 <= i <= present@.len(),
                r@.map_values(|p: Vec<u8>| p@) == unwanted_list(
                    self.spec_checksums(),
                    pv.take(i as int),
                ),
            decreases present@.len() - i,
        {
            proof {
                assert(pv.take(i as int + 1).drop_last() =~= pv.take(i as int));
                assert(pv.take(i as int + 1).last() == pv[i as int]);
                assert(pv[i as int] == present@[i as int]@);
            }
            let p = &present[i];
            let in_tops = vec_contains_bytes(&tops, p.as_slice());
            let in_map = self.checksums.contains_key(p.as_slice());
            proof {
                assert(in_tops == wanted_top_level(self.spec_checksums()).contains(pv[i as int]));
            }
            if !in_tops && !in_map {
                let ghost old_r = r@.map_values(|p: Vec<u8>| p@);
                r.push(copy_bytes(p));
                proof {
                    assert(r@.map_values(|p: Vec<u8>| p@) =~= old_r.push(pv[i as int]));
                }
            }
            i = i + 1;
        }
        proof {
            assert(pv.take(i as int) =~= pv);
        }
        r
    }
}

/// How deep a path is: the number of separators in it.
pub fn path_depth_exec(p: &[u8]) -> (r: usize)
    ensures
        r == path_depth(p@),
{
    let mut depth: usize = 0;
    let mut i: usize = 0;
    proof {
        assert(p@.take(0) =~= Seq::<u8>::empty());
    }
    while i < p.len()
        invariant
            0 <= i <= p@.len(),
            depth == path_depth(p@.take(i as int)),
            depth <= i,
        decreases p@.len() - i,
    {
        proof {
            assert(p@.take(i as int + 1).drop_last() =~= p@.take(i as int));
            assert(p@.take(i as int + 1).last() == p@[i as int]);
        }
        if p[i] == 47 {
            depth = depth + 1;
        }
        i = i + 1;
    }
    proof {
        assert(p@.take(i as int) =~= p@);
    }
    depth
}

/// Order paths for deletion, deepest first, so that files go before the
/// directories that contained them.  The result holds exactly the given
/// paths.
pub fn sort_for_deletion(paths: Vec<Vec<u8>>) -> (r: Vec<Vec<u8>>)
    ensures
        r@.map_values(|p: Vec<u8>| p@).to_multiset() == paths@.map_values(
            |p: Vec<u8>| p@,
        ).to_multiset(),
        forall|i: int, j: int|
            0 <= i <= j < r@.len() ==> path_depth((#[trigger] r@[i])@) >= path_depth(
                (#[trigger] r@[j])@,
            ),
{
    let ghost orig = paths@.map_values(|p: Vec<u8>| p@);
    let mut input = paths;
    let mut r: Vec<Vec<u8>> = Vec::new();
    proof {
        let empty_seq = Seq::<Seq<u8>>::empty();
        assert(r@.map_values(|p: Vec<u8>| p@) =~= empty_seq);
        vstd::seq_lib::to_multiset_len(empty_seq);
        vstd::multiset::lemma_multiset_empty_len(empty_seq.to_multiset());
        assert(empty_seq.to_multiset() =~= Multiset::<Seq<u8>>::empty());
        assert(r@.map_values(|p: Vec<u8>| p@).to_multiset().add(
            input@.map_values(|p: Vec<u8>| p@).to_multiset(),
        ) =~= orig.to_multiset());
    }
    while input.len() > 0
        invariant
            r@.map_values(|p: Vec<u8>| p@).to_multiset().add(
                input@.map_values(|p: Vec<u8>| p@).to_multiset(),
            ) == orig.to_multiset(),
            forall|i: int, j: int|
                0 <= i <= j < r@.len() ==> path_depth((#[trigger] r@[i])@) >= path_depth(
                    (#[trigger] r@[j])@,
                ),
            forall|i: int, k: int|
                0 <= i < r@.len() && 0 <= k < input@.len() ==> path_depth((#[trigger] r@[i])@)
                    >= path_depth((#[trigger] input@[k])@),
        decreases input@.len(),
    {
        let mut best: usize = 0;
        let mut best_depth: usize = path_depth_exec(input[0].as_slice());
        let mut k: usize = 1;
        while k < input.len()
            invariant
                0 <= best < k <= input@.len(),
                input@.len() > 0,
                best_depth == path_depth(input@[best as int]@),
                forall|l: int|
                    0 <= l < k ==> path_depth((#[trigger] input@[l])@) <= best_depth,
            decreases input@.len() - k,
        {
            let d = path_depth_exec(input[k].as_slice());
            if d > best_depth {
                best = k;
                best_depth = d;
            }
            k = k + 1;
        }
        let ghost old_in = input@.map_values(|p: Vec<u8>| p@);
        let ghost old_r = r@.map_values(|p: Vec<u8>| p@);
        let x = input.remove(best);
        r.push(x);
        proof {
            let xx = old_in[best as int];
            let new_in = input@.map_values(|p: Vec<u8>| p@);
            let new_r = r@.map_values(|p: Vec<u8>| p@);
            assert(new_in =~= old_in.remove(best as int));
            assert(new_r =~= old_r.push(xx));
            vstd::seq_lib::to_multiset_build(old_r, xx);
            vstd::seq_lib::to_multiset_remove(old_in, best as int);
            vstd::seq_lib::to_multiset_contains(old_in, xx);
            assert(old_in.to_multiset().count(xx) > 0) by {
                vstd::seq_lib::to_multiset_contains(old_in, xx);
                assert(old_in[best as int] == xx);
                assert(old_in.contains(xx));
            }
            assert(old_r.to_multiset().insert(xx).add(old_in.to_multiset().remove(xx))
                =~= old_r.to_multiset().add(old_in.to_multiset()));
            assert(forall|k: int|
                0 <= k < new_in.len() ==> #[trigger] new_in[k] == (if k < best {
                    old_in[k]
                } else {
                    old_in[k + 1]
                }));
        }
    }
    proof {
        assert(input@.map_values(|p: Vec<u8>| p@) =~= Seq::<Seq<u8>>::empty());
        assert(r@.map_values(|p: Vec<u8>| p@).to_multiset().add(
            Seq::<Seq<u8>>::empty().to_multiset(),
        ) =~= r@.map_values(|p: Vec<u8>| p@).to_multiset());
    }
    r
}

/// The proper ancestors of `p`, deepest first: the directories to try to
/// remove, innermost outward, after deleting `p`.
pub fn ancestors_to_prune(p: &[u8]) -> (r: Vec<Vec<u8>>)
    ensures
        r@.map_values(|a: Vec<u8>| a@) == ancestor_list(p@),
{
    let mut r: Vec<Vec<u8>> = Vec::new();
    let mut j: usize = p.len();
    proof {
        assert(p@.take(p@.len() as int) =~= p@);
        assert(r@.map_values(|a: Vec<u8>| a@) =~= Seq::<Seq<u8>>::empty());
        assert(ancestor_list(p@) =~= r@.map_values(|a: Vec<u8>| a@) + ancestor_list(
            p@.take(j as int),
        ));
    }
    while j > 0
        invariant
            0 <= j <= p@.len(),
            ancestor_list(p@) == r@.map_values(|a: Vec<u8>| a@) + ancestor_list(p@.take(j as int)),
        decreases j,
    {
        proof {
            let t = p@.take(j as int);
            assert(t.last() == p@[j - 1]);
            assert(t.drop_last() =~= p@.take(j as int - 1));
        }
        if p[j - 1] == 47 {
            let ghost old_r = r@.map_values(|a: Vec<u8>| a@);
            let a = vstd::slice::slice_subrange(p, 0, j - 1);
            r.push(vstd::slice::slice_to_vec(a));
            proof {
                assert(r@.map_values(|a: Vec<u8>| a@) =~= old_r.push(p@.take(j as int - 1)));
                assert(ancestor_list(p@.take(j as int)) == seq![p@.take(j as int - 1)]
                    + ancestor_list(p@.take(j as int - 1)));
                assert(old_r.push(p@.take(j as int - 1)) + ancestor_list(p@.take(j as int - 1)) =~= old_r
                    + ancestor_list(p@.take(j as int)));
            }
        } else {
            proof {
                assert(ancestor_list(p@.take(j as int)) == ancestor_list(p@.take(j as int - 1)));
            }
        }
        j = j - 1;
    }
    proof {
        assert(p@.take(0) =~= Seq::<u8>::empty());
        assert(r@.map_values(|a: Vec<u8>| a@) + Seq::<Seq<u8>>::empty() =~= r@.map_values(
            |a: Vec<u8>| a@,
        ));
    }
    r
}

// ---------------------------------------------------------------------------
// Verification of stored content
// ---------------------------------------------------------------------------

/// The outcome of checking one stored file against the manifest: it
/// matched; it had the wrong decompressed size (the actual count is
/// reported); its content hashed to a different digest (the computed digest
/// is reported); or it could not be read at all.
#[derive(Debug)]
pub enum VerifyResult {
    Valid,
    FilesizeMismatch(usize),
    ChecksumMismatch(Vec<u8>),
    Error(String),
}

/// The outcome of one file check together with what the manifest expected
/// of the file.
#[derive(Debug)]
pub struct VerifyFileResult {
    pub path: String,
    pub size: usize,
    pub md5: Vec<u8>,
    pub result: VerifyResult,
}

/// One checksum job: a file the manifest lists, its expected decompressed
/// size, and its expected digest.
#[derive(Debug)]
pub struct VerifyJob {
    pub path: Vec<u8>,
    pub size: usize,
    pub md5: Vec<u8>,
}

impl Backup {
    /// Check one stored file's gzip-compressed content against its
    /// manifest record: decompress, count the bytes, and digest them.
    /// Size is judged before checksum, and a stream that does not
    /// decompress is an error.
    pub fn verify_file_md5(content_gz: &[u8], size: usize, md5: &[u8]) -> (r: VerifyResult)
        ensures
            match gunzip_of(content_gz@) {
                None => r is Error,
                Some(c) => {
                    if c.len() != size {
                        r matches VerifyResult::FilesizeMismatch(actual) && actual == c.len()
                    } else if md5_of(c) != md5@ {
                        r matches VerifyResult::ChecksumMismatch(d) && d@ == md5_of(c)
                    } else {
                        r is Valid
                    }
                },
            },
    {
        let content = match gunzip(content_gz) {
            Some(c) => c,
            None => {
                return VerifyResult::Error(String::from_str("could not decompress stored file"));
            },
        };
        let (read_size, digest) = calc_md5(content.as_slice());
        if read_size != size {
            VerifyResult::FilesizeMismatch(read_size)
        } else if !bytes_eq(digest.as_slice(), md5) {
            VerifyResult::ChecksumMismatch(digest)
        } else {
            VerifyResult::Valid
        }
    }

    /// The checksum jobs of this snapshot's manifest, one per data
    /// payload, in manifest order.  Also records every payload's checksum
    /// in this snapshot's map, as the verify pass does.
    pub fn verify_jobs(&mut self, manifest_gz: &[u8]) -> (r: Result<Vec<VerifyJob>, ManifestReadError>)
        ensures
            final(self).base_url == old(self).base_url,
            final(self).name == old(self).name,
            final(self).id == old(self).id,
            final(self).timestamp == old(self).timestamp,
            final(self).is_local == old(self).is_local,
            match r {
                Ok(jobs) => {
                    &&& gunzip_of(manifest_gz@) is Some
                    &&& spec_read_manifest(gunzip_of(manifest_gz@).unwrap()) is Ok
                    &&& {
                        let ds = data_entries(
                            spec_read_manifest(gunzip_of(manifest_gz@).unwrap())->Ok_0,
                        );
                        &&& jobs@.len() == ds.len()
                        &&& forall|j: int|
                            0 <= j < ds.len() ==> (#[trigger] jobs@[j]).path@ == ds[j].path
                                && jobs@[j].size as nat == ds[j].size && jobs@[j].md5@ == ds[j].md5
                        &&& final(self).spec_checksums() == checksums_after(
                            old(self).spec_checksums(),
                            ds,
                        )
                    }
                },
                Err(e) => {
                    &&& final(self).spec_checksums() == old(self).spec_checksums()
                    &&& (gunzip_of(manifest_gz@) is None || spec_read_manifest(
                        gunzip_of(manifest_gz@).unwrap(),
                    ) is Err)
                    &&& (gunzip_of(manifest_gz@) is Some ==> e.spec_record() == spec_read_manifest(
                        gunzip_of(manifest_gz@).unwrap(),
                    )->Err_0)
                },
            },
    {
        let decompressed = match gunzip(manifest_gz) {
            Some(m) => m,
            None => {
                return Err(ManifestReadError::new("not a gzip stream"));
            },
        };
        let entries = match crate::manifest::read_manifest(decompressed.as_slice()) {
            Ok(es) => es,
            Err(e) => {
                return Err(e);
            },
        };
        let ghost vs = crate::manifest::entry_views(entries@);
        let ghost old_map = self.spec_checksums();
        proof {
            assert(vs.take(0) =~= Seq::<EntryModel>::empty());
            assert(data_entries(vs.take(0)) =~= Seq::<EntryDataModel>::empty());
        }
        let mut jobs: Vec<VerifyJob> = Vec::new();
        let mut i: usize = 0;
        while i < entries.len()
            invariant
                0 <= i <= entries@.len(),
                vs == crate::manifest::entry_views(entries@),
                vs.len() == entries@.len(),
                jobs@.len() == data_entries(vs.take(i as int)).len(),
                forall|j: int|
                    0 <= j < jobs@.len() ==> {
                        let ds = data_entries(vs.take(i as int));
                        (#[trigger] jobs@[j]).path@ == ds[j].path && jobs@[j].size as nat
                            == ds[j].size && jobs@[j].md5@ == ds[j].md5
                    },
                self.spec_checksums() == checksums_after(
                    old_map,
                    data_entries(vs.take(i as int)),
                ),
                self.base_url == old(self).base_url,
                self.name == old(self).name,
                self.id == old(self).id,
                self.timestamp == old(self).timestamp,
                self.is_local == old(self).is_local,
            decreases entries@.len() - i,
        {
            proof {
                assert(vs.take(i as int + 1).drop_last() =~= vs.take(i as int));
                assert(vs.take(i as int + 1).last() == vs[i as int]);
                assert(vs[i as int] == entries@[i as int]@);
            }
            let entry = &entries[i];
            match &entry.data {
                Some(data) => {
                    proof {
                        assert(data_entries(vs.take(i as int + 1)) == data_entries(
                            vs.take(i as int),
                        ).push(data@));
                        lemma_clone_step(None, old_map, data_entries(vs.take(i as int)), data@);
                    }
                    self.checksums.insert(copy_bytes(&data.path), copy_bytes(&data.md5));
                    let ghost old_jobs = jobs@;
                    jobs.push(
                        VerifyJob {
                            path: copy_bytes(&data.path),
                            size: data.size,
                            md5: copy_bytes(&data.md5),
                        },
                    );
                    proof {
                        let ds = data_entries(vs.take(i as int + 1));
                        assert(forall|j: int|
                            0 <= j < old_jobs.len() ==> #[trigger] jobs@[j] == old_jobs[j]);
                        assert(forall|j: int|
                            0 <= j < old_jobs.len() ==> #[trigger] ds[j] == data_entries(
                                vs.take(i as int),
                            )[j]);
                        assert(jobs@[jobs@.len() - 1].path@ == ds[ds.len() - 1].path);
                    }
                },
                None => {
                    proof {
                        assert(data_entries(vs.take(i as int + 1)) == data_entries(
                            vs.take(i as int),
                        ));
                    }
                },
            }
            i = i + 1;
        }
        proof {
            assert(vs.take(i as int) =~= vs);
        }
        Ok(jobs)
    }
}

/// How many of the collected verify results found the file intact.
pub open spec fn verify_ok_count(rs: Seq<VerifyFileResult>) -> nat
    decreases rs.len(),
{
    if rs.len() == 0 {
        0
    } else {
        verify_ok_count(rs.drop_last()) + (if rs.last().result is Valid {
            1nat
        } else {
            0nat
        })
    }
}

/// Tally collected verify results: how many files did not verify intact,
/// out of `files_total` checked.
pub fn verify_failures(files_total: u64, results: &Vec<VerifyFileResult>) -> (r: u64)
    requires
        verify_ok_count(results@) <= files_total,
    ensures
        r == files_total - verify_ok_count(results@),
{
    let mut files_ok: u64 = 0;
    let mut i: usize = 0;
    proof {
        assert(results@.take(0) =~= Seq::<VerifyFileResult>::empty());
    }
    while i < results.len()
        invariant
            0 <= i <= results@.len(),
            files_ok == verify_ok_count(results@.take(i as int)),
            files_ok <= i,
            verify_ok_count(results@) <= files_total,
        decreases results@.len() - i,
    {
        proof {
            assert(results@.take(i as int + 1).drop_last() =~= results@.take(i as int));
            assert(results@.take(i as int + 1).last() == results@[i as int]);
            lemma_verify_ok_prefix_le(results@, i as int + 1);
        }
        match &results[i].result {
            VerifyResult::Valid => {
                files_ok = files_ok + 1;
            },
            _ => {},
        }
        i = i + 1;
    }
    proof {
        assert(results@.take(i as int) =~= results@);
    }
    files_total - files_ok
}

proof fn lemma_verify_ok_prefix_le(rs: Seq<VerifyFileResult>, i: int)
    requires
        0 <= i <= rs.len(),
    ensures
        verify_ok_count(rs.take(i)) <= verify_ok_count(rs),
    decreases rs.len() - i,
{
    if i == rs.len() {
        assert(rs.take(i) =~= rs);
    } else {
        assert(rs.take(i + 1).drop_last() =~= rs.take(i));
        lemma_verify_ok_prefix_le(rs, i + 1);
    }
}

fn copy_bytes(v: &Vec<u8>) -> (r: Vec<u8>)
    ensures
        r@ == v@,
{
    vstd::slice::slice_to_vec(v.as_slice())
}

impl PartialEq for Backup {
    /// Two snapshots are the same snapshot when identifier and timestamp
    /// agree, wherever they are stored.
    fn eq(&self, other: &Self) -> (r: bool) {
        self.id == other.id && strings_eq(self.timestamp.as_str(), other.timestamp.as_str())
    }
}

impl vstd::std_specs::cmp::PartialEqSpecImpl for Backup {
    open spec fn obeys_eq_spec() -> bool {
        true
    }

    open spec fn eq_spec(&self, other: &Self) -> bool {
        self.id == other.id && self.timestamp@ == other.timestamp@
    }
}

/// `base` and `name` joined with a single path separator.
pub fn join_path_exec(base: &str, name: &str) -> (r: String)
    ensures
        r@ == join_path(base@, name@),
{
    let blen = base.unicode_len();
    if blen == 0 {
        String::from_str(name)
    } else {
        let last = base.get_char(blen - 1);
        let mut r = String::from_str(base);
        if last != '/' {
            proof {
                reveal_strlit("/");
            }
            r.append("/");
        }
        r.append(name);
        proof {
            assert(base@.last() == last);
            assert(r@ =~= join_path(base@, name@));
        }
        r
    }
}

/// Whether two strings hold the same characters.
pub fn strings_eq(a: &str, b: &str) -> (r: bool)
    ensures
        r <==> a@ == b@,
{
    let av = a.as_bytes_vec();
    let bv = b.as_bytes_vec();
    let r = bytes_eq(av.as_slice(), bv.as_slice());
    proof {
        vstd::utf8::encode_utf8_decode_utf8(a@);
        vstd::utf8::encode_utf8_decode_utf8(b@);
    }
    r
}

} // verus!
