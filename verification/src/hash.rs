//! File checksums: CRC-32, SHA-256 and BLAKE3 digests of a file's content,
//! written as lower-case hexadecimal.

use vstd::prelude::*;

use crate::text::{chars_eq_str, chars_of, extend_str, hex_digit, hex_digit_char, string_of};

verus! {

/// The checksum algorithms offered.
#[derive(Debug, Clone, Copy, PartialEq, Eq, Structural)]
pub enum HashAlgorithm {
    Crc32,
    Sha256,
    Blake3,
}

/// The name shown for an algorithm.
pub open spec fn algorithm_label(a: HashAlgorithm) -> Seq<char> {
    match a {
        HashAlgorithm::Crc32 => "CRC-32"@,
        HashAlgorithm::Sha256 => "SHA-256"@,
        HashAlgorithm::Blake3 => "BLAKE3"@,
    }
}

/// The algorithms in the order they are listed and computed.
pub open spec fn all_algorithms() -> Seq<HashAlgorithm> {
    seq![HashAlgorithm::Sha256, HashAlgorithm::Blake3, HashAlgorithm::Crc32]
}

impl HashAlgorithm {
    /// The algorithm's display name.
    pub fn label(&self) -> (r: &'static str)
        ensures
            r@ == algorithm_label(*self),
    {
        match self {
            HashAlgorithm::Crc32 => "CRC-32",
            HashAlgorithm::Sha256 => "SHA-256",
            HashAlgorithm::Blake3 => "BLAKE3",
        }
    }

    /// Every algorithm: SHA-256, BLAKE3, then CRC-32.
    pub fn all() -> (r: Vec<HashAlgorithm>)
        ensures
            r@ == all_algorithms(),
    {
        let r = vec![HashAlgorithm::Sha256, HashAlgorithm::Blake3, HashAlgorithm::Crc32];
        assert(r@ =~= all_algorithms());
        r
    }
}

/// One checksum of a file.
#[derive(Debug)]
pub struct ChecksumResult {
    pub algorithm: HashAlgorithm,
    pub hex_digest: String,
    pub file_size: u64,
    pub elapsed: std::time::Duration,
}

// ---------------------------------------------------------------------
// Digests
// ---------------------------------------------------------------------

/// One bit of the reflected CRC-32 (IEEE) division: shift right, and
/// where a one falls out, xor in the reversed polynomial `0xEDB88320`.
pub open spec fn crc32_bit(c: u32) -> u32 {
    if c & 1 == 1 {
        (c >> 1) ^ 0xEDB8_8320u32
    } else {
        c >> 1
    }
}

/// `k` bits of the division.
pub open spec fn crc32_bits(c: u32, k: nat) -> u32
    decreases k,
{
    if k == 0 {
        c
    } else {
        crc32_bits(crc32_bit(c), (k - 1) as nat)
    }
}

/// The CRC register after the bytes: it starts all ones, and each byte is
/// xored into its low end and divided through its eight bits.
pub open spec fn crc32_register(data: Seq<u8>) -> u32
    decreases data.len(),
{
    if data.len() == 0 {
        0xFFFF_FFFFu32
    } else {
        crc32_bits(crc32_register(data.drop_last()) ^ (data.last() as u32), 8)
    }
}

/// The CRC-32 (IEEE) checksum of the bytes, as `crc32fast::hash` computes
/// it: the final register with every bit inverted.
pub open spec fn crc32_of(data: Seq<u8>) -> u32 {
    crc32_register(data) ^ 0xFFFF_FFFFu32
}

/// The SHA-256 digest of the bytes, as `sha2::Sha256::digest` computes it.
pub uninterp spec fn sha256_of(data: Seq<u8>) -> Seq<u8>;

/// The BLAKE3 hash of the bytes, as `blake3::hash` computes it.
pub uninterp spec fn blake3_of(data: Seq<u8>) -> Seq<u8>;

/// `crc32fast::hash`. Claimed: the result is the CRC-32 (IEEE) checksum
/// `crc32_of` of the bytes.
#[verifier::external_body]
fn crc32(data: &[u8]) -> (r: u32)
    ensures
        r == crc32_of(data@),
{
    crc32fast::hash(data)
}

/// `sha2::Sha256::digest`. Claimed: the result is `sha256_of` the bytes,
/// and it is 32 bytes long (the digest's output size).
#[verifier::external_body]
fn sha256(data: &[u8]) -> (r: Vec<u8>)
    ensures
        r@ == sha256_of(data@),
        r@.len() == 32,
{
    <sha2::Sha256 as sha2::Digest>::digest(data).to_vec()
}

/// `blake3::hash`, as its bytes (`Hash::as_bytes`). Claimed: the result is
/// `blake3_of` the bytes, and it is 32 bytes long (`blake3::OUT_LEN`).
#[verifier::external_body]
fn blake3(data: &[u8]) -> (r: Vec<u8>)
    ensures
        r@ == blake3_of(data@),
        r@.len() == 32,
{
    blake3::hash(data).as_bytes().to_vec()
}

// ---------------------------------------------------------------------
// Hexadecimal
// ---------------------------------------------------------------------

/// Two lower-case hex digits per byte, in order (`{:02x}` of each byte).
pub open spec fn hex_bytes(b: Seq<u8>) -> Seq<char>
    decreases b.len(),
{
    if b.len() == 0 {
        Seq::empty()
    } else {
        hex_bytes(b.drop_last()) + seq![
            hex_digit((b.last() / 16) as int),
            hex_digit((b.last() % 16) as int),
        ]
    }
}

/// The last `n` hex digits of `x`, most significant first, zero-padded.
pub open spec fn hex_digits(x: nat, n: nat) -> Seq<char>
    decreases n,
{
    if n == 0 {
        Seq::empty()
    } else {
        hex_digits(x / 16, (n - 1) as nat).push(hex_digit((x % 16) as int))
    }
}

/// `{:08x}` of a 32-bit value.
pub open spec fn hex_u32(x: u32) -> Seq<char> {
    hex_digits(x as nat, 8)
}

fn hex_of_bytes(b: &[u8]) -> (r: Vec<char>)
    ensures
        r@ == hex_bytes(b@),
{
    let mut r: Vec<char> = Vec::new();
    let mut i: usize = 0;
    while i < b.len()
        invariant
            i <= b@.len(),
            r@ == hex_bytes(b@.take(i as int)),
        decreases b@.len() - i,
    {
        let x = b[i];
        r.push(hex_digit_char(x / 16));
        r.push(hex_digit_char(x % 16));
        proof {
            assert(b@.take(i + 1).drop_last() =~= b@.take(i as int));
        }
        i = i + 1;
    }
    assert(b@.take(b@.len() as int) =~= b@);
    r
}

fn push_hex_digits(out: &mut Vec<char>, x: u32, n: u32)
    requires
        n <= 8,
    ensures
        final(out)@ == old(out)@ + hex_digits(x as nat, n as nat),
    decreases n,
{
    if n > 0 {
        push_hex_digits(out, x / 16, n - 1);
        out.push(hex_digit_char((x % 16) as u8));
        proof {
            assert(final(out)@ =~= old(out)@ + hex_digits(x as nat, n as nat));
        }
    } else {
        assert(final(out)@ =~= old(out)@ + hex_digits(x as nat, n as nat));
    }
}

proof fn lemma_hex_bytes_len(b: Seq<u8>)
    ensures
        hex_bytes(b).len() == 2 * b.len(),
    decreases b.len(),
{
    if b.len() > 0 {
        lemma_hex_bytes_len(b.drop_last());
    }
}

proof fn lemma_hex_digits_len(x: nat, n: nat)
    ensures
        hex_digits(x, n).len() == n,
    decreases n,
{
    if n > 0 {
        lemma_hex_digits_len(x / 16, (n - 1) as nat);
    }
}

/// How many hex digits an algorithm's digest has.
pub open spec fn digest_digits(a: HashAlgorithm) -> nat {
    match a {
        HashAlgorithm::Crc32 => 8,
        _ => 64,
    }
}

proof fn lemma_digest_width(a: HashAlgorithm, data: Seq<u8>)
    requires
        a is Sha256 ==> sha256_of(data).len() == 32,
        a is Blake3 ==> blake3_of(data).len() == 32,
    ensures
        digest_hex(a, data).len() == digest_digits(a),
{
    lemma_hex_digits_len(crc32_of(data) as nat, 8);
    lemma_hex_bytes_len(sha256_of(data));
    lemma_hex_bytes_len(blake3_of(data));
}

/// The hexadecimal digest of the bytes under an algorithm.
pub open spec fn digest_hex(a: HashAlgorithm, data: Seq<u8>) -> Seq<char> {
    match a {
        HashAlgorithm::Crc32 => hex_u32(crc32_of(data)),
        HashAlgorithm::Sha256 => hex_bytes(sha256_of(data)),
        HashAlgorithm::Blake3 => hex_bytes(blake3_of(data)),
    }
}

// ---------------------------------------------------------------------
// Checksums of a file's content
// ---------------------------------------------------------------------

/// A point in time (`std::time::Instant`).
#[verifier::external_type_specification]
#[verifier::external_body]
pub struct ExInstant(std::time::Instant);

/// `Instant::now`. Nothing is claimed of the result.
#[verifier::external_body]
fn clock_now() -> std::time::Instant {
    std::time::Instant::now()
}

/// `Instant::elapsed`. Nothing is claimed of the result.
#[verifier::external_body]
fn clock_elapsed(start: &std::time::Instant) -> std::time::Duration {
    start.elapsed()
}

/// The checksum of a file's content under one algorithm, with the
/// content's size and the time the computation took.
pub fn file_checksum(content: &[u8], algorithm: HashAlgorithm) -> (r: ChecksumResult)
    ensures
        r.algorithm == algorithm,
        r.hex_digest@ == digest_hex(algorithm, content@),
        r.hex_digest@.len() == digest_digits(algorithm),
        r.file_size == content@.len(),
{
    let started = clock_now();
    let hex = match algorithm {
        HashAlgorithm::Crc32 => {
            let mut digits: Vec<char> = Vec::new();
            push_hex_digits(&mut digits, crc32(content), 8);
            assert(digits@ =~= hex_u32(crc32_of(content@)));
            proof {
                lemma_digest_width(algorithm, content@);
            }
            digits
        },
        HashAlgorithm::Sha256 => {
            let d = sha256(content);
            proof {
                lemma_digest_width(algorithm, content@);
            }
            hex_of_bytes(d.as_slice())
        },
        HashAlgorithm::Blake3 => {
            let d = blake3(content);
            proof {
                lemma_digest_width(algorithm, content@);
            }
            hex_of_bytes(d.as_slice())
        },
    };
    ChecksumResult {
        algorithm,
        hex_digest: string_of(hex.as_slice()),
        file_size: content.len() as u64,
        elapsed: clock_elapsed(&started),
    }
}

/// The checksums of a file's content under every algorithm, in the order
/// of `HashAlgorithm::all`.
pub fn file_checksums(content: &[u8]) -> (r: Vec<ChecksumResult>)
    ensures
        r@.len() == all_algorithms().len(),
        forall|i: int|
            0 <= i < r@.len() ==> {
                &&& (#[trigger] r@[i]).algorithm == all_algorithms()[i]
                &&& r@[i].hex_digest@ == digest_hex(all_algorithms()[i], content@)
                &&& r@[i].file_size == content@.len()
            },
{
    let algorithms = HashAlgorithm::all();
    let mut results: Vec<ChecksumResult> = Vec::new();
    let mut i: usize = 0;
    while i < algorithms.len()
        invariant
            algorithms@ == all_algorithms(),
            i <= algorithms@.len(),
            results@.len() == i,
            forall|j: int|
                0 <= j < i ==> {
                    &&& (#[trigger] results@[j]).algorithm == all_algorithms()[j]
                    &&& results@[j].hex_digest@ == digest_hex(all_algorithms()[j], content@)
                    &&& results@[j].file_size == content@.len()
                },
        decreases algorithms@.len() - i,
    {
        let one = file_checksum(content, algorithms[i]);
        results.push(one);
        i = i + 1;
    }
    results
}


/// `str::to_lowercase`: the text with every character mapped to its
/// Unicode lower case.
pub uninterp spec fn unicode_lower(s: Seq<char>) -> Seq<char>;

/// `str::to_lowercase`. Claimed: the result is `unicode_lower` of the text.
#[verifier::external_body]
fn to_lowercase(s: &str) -> (r: String)
    ensures
        r@ == unicode_lower(s@),
{
    s.to_lowercase()
}

/// The algorithm a lower-cased name asks for.
pub open spec fn algorithm_named(n: Seq<char>) -> Option<HashAlgorithm> {
    if n == "sha256"@ {
        Some(HashAlgorithm::Sha256)
    } else if n == "blake3"@ {
        Some(HashAlgorithm::Blake3)
    } else if n == "crc32"@ {
        Some(HashAlgorithm::Crc32)
    } else {
        None
    }
}

/// The algorithm a lower-cased name asks for, or the error that names it.
pub fn hash_algorithm_from_lowercase(lowered: &str) -> (r: Result<HashAlgorithm, String>)
    ensures
        match algorithm_named(lowered@) {
            Some(a) => r == Ok::<HashAlgorithm, String>(a),
            None => r is Err && r->Err_0@ == "Unknown hash algorithm: "@ + lowered@,
        },
{
    let c = chars_of(lowered);
    if chars_eq_str(c.as_slice(), "sha256") {
        Ok(HashAlgorithm::Sha256)
    } else if chars_eq_str(c.as_slice(), "blake3") {
        Ok(HashAlgorithm::Blake3)
    } else if chars_eq_str(c.as_slice(), "crc32") {
        Ok(HashAlgorithm::Crc32)
    } else {
        let mut msg = chars_of("Unknown hash algorithm: ");
        extend_str(&mut msg, lowered);
        Err(string_of(msg.as_slice()))
    }
}

/// The algorithm a name asks for, whatever its case (`sha256`, `blake3`,
/// `crc32`).
pub fn parse_hash_algorithm(name: &str) -> (r: Result<HashAlgorithm, String>)
    ensures
        match algorithm_named(unicode_lower(name@)) {
            Some(a) => r == Ok::<HashAlgorithm, String>(a),
            None => r is Err && r->Err_0@ == "Unknown hash algorithm: "@ + unicode_lower(name@),
        },
{
    let lowered = to_lowercase(name);
    hash_algorithm_from_lowercase(lowered.as_str())
}

} // verus!
