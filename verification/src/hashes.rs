//! Turning input records into 64-bit hashes: digest selection, hex parsing,
//! and the line-count estimate used to size a build.

use crate::gcs::read_u64_be;
use crate::model::be_val;
use md5::Digest;
use vstd::string::StringSliceAdditionalSpecFns;
use vstd::prelude::*;

verus! {

/// The digest used to map a record to a 64-bit hash.
#[derive(Clone, Copy, Debug, PartialEq, Eq, Structural)]
pub enum HashType {
    /// The first sixteen hex digits of the record itself.
    Hex,
    Md5,
    Sha1,
    Sha2_256,
    Sha2_512,
    Blake2b,
}

/// What md-5's `Md5` digest returns: sixteen bytes depending on the input
/// bytes alone.
pub uninterp spec fn md5_of(s: Seq<u8>) -> Seq<u8>;

/// What sha1's `Sha1` digest returns: twenty bytes depending on the input
/// bytes alone.
pub uninterp spec fn sha1_of(s: Seq<u8>) -> Seq<u8>;

/// What sha2's `Sha256` digest returns: thirty-two bytes depending on the
/// input bytes alone.
pub uninterp spec fn sha256_of(s: Seq<u8>) -> Seq<u8>;

/// What sha2's `Sha512` digest returns: sixty-four bytes depending on the
/// input bytes alone.
pub uninterp spec fn sha512_of(s: Seq<u8>) -> Seq<u8>;

/// What blake2's `Blake2b512` digest returns: sixty-four bytes depending on
/// the input bytes alone.
pub uninterp spec fn blake2b_of(s: Seq<u8>) -> Seq<u8>;

/// Relies on md-5's `Md5::digest` (the RustCrypto `Digest` interface): a
/// 16-byte digest, a function of the input bytes alone.
#[verifier::external_body]
fn md5_digest(s: &[u8]) -> (r: Vec<u8>)
    ensures
        r@ == md5_of(s@),
        r@.len() == 16,
{
    md5::Md5::digest(s).to_vec()
}

/// Relies on sha1's `Sha1::digest`: a 20-byte digest, a function of the
/// input bytes alone.
#[verifier::external_body]
fn sha1_digest(s: &[u8]) -> (r: Vec<u8>)
    ensures
        r@ == sha1_of(s@),
        r@.len() == 20,
{
    sha1::Sha1::digest(s).to_vec()
}

/// Relies on sha2's `Sha256::digest`: a 32-byte digest, a function of the
/// input bytes alone.
#[verifier::external_body]
fn sha256_digest(s: &[u8]) -> (r: Vec<u8>)
    ensures
        r@ == sha256_of(s@),
        r@.len() == 32,
{
    sha2::Sha256::digest(s).to_vec()
}

/// Relies on sha2's `Sha512::digest`: a 64-byte digest, a function of the
/// input bytes alone.
#[verifier::external_body]
fn sha512_digest(s: &[u8]) -> (r: Vec<u8>)
    ensures
        r@ == sha512_of(s@),
        r@.len() == 64,
{
    sha2::Sha512::digest(s).to_vec()
}

/// Relies on blake2's `Blake2b512::digest`: a 64-byte digest, a function of
/// the input bytes alone.
#[verifier::external_body]
fn blake2b_digest(s: &[u8]) -> (r: Vec<u8>)
    ensures
        r@ == blake2b_of(s@),
        r@.len() == 64,
{
    blake2::Blake2b512::digest(s).to_vec()
}

/// Lower-cases one ASCII letter.
pub open spec fn ascii_lower(b: u8) -> u8 {
    if 65 <= b <= 90 {
        (b + 32) as u8
    } else {
        b
    }
}

/// The bytes of a name, case-folded.
pub open spec fn fold_bytes(s: Seq<u8>) -> Seq<u8> {
    s.map_values(|b: u8| ascii_lower(b))
}

/// Which digest a name selects, ignoring ASCII case.
pub open spec fn spec_hash_type(s: Seq<u8>) -> Option<HashType> {
    let f = fold_bytes(s);
    if f == seq![104u8, 101u8, 120u8] {
        Some(HashType::Hex)
    } else if f == seq![109u8, 100u8, 53u8] {
        Some(HashType::Md5)
    } else if f == seq![115u8, 104u8, 97u8, 49u8] {
        Some(HashType::Sha1)
    } else if f == seq![115u8, 104u8, 97u8, 50u8, 53u8, 54u8] {
        Some(HashType::Sha2_256)
    } else if f == seq![115u8, 104u8, 97u8, 53u8, 49u8, 50u8] {
        Some(HashType::Sha2_512)
    } else if f == seq![98u8, 108u8, 97u8, 107u8, 101u8, 50u8, 98u8] {
        Some(HashType::Blake2b)
    } else {
        None
    }
}

/// The value of one hex digit, if the byte is one.
pub open spec fn hex_digit(b: u8) -> Option<u8> {
    if 48 <= b <= 57 {
        Some((b - 48) as u8)
    } else if 97 <= b <= 102 {
        Some((b - 87) as u8)
    } else if 65 <= b <= 70 {
        Some((b - 55) as u8)
    } else {
        None
    }
}

/// True when every byte is a hex digit.
pub open spec fn all_hex(s: Seq<u8>) -> bool {
    forall|i: int| 0 <= i < s.len() ==> (#[trigger] hex_digit(s[i])) is Some
}

/// The number denoted by a hex digit string, most significant digit first.
pub open spec fn hex_nat(s: Seq<u8>) -> nat
    decreases s.len(),
{
    if s.len() == 0 {
        0
    } else {
        16 * hex_nat(s.drop_last()) + (match hex_digit(s.last()) {
            Some(d) => d as nat,
            None => 0,
        })
    }
}

/// What parsing a hex string into 64 bits yields: the value, unless a byte
/// is not a hex digit or the value overflows.
pub open spec fn spec_u64_from_hex(s: Seq<u8>) -> Option<u64> {
    if all_hex(s) && hex_nat(s) <= u64::MAX as nat {
        Some(hex_nat(s) as u64)
    } else {
        None
    }
}

/// What a digest selection maps a record to: the first eight digest bytes as
/// a big-endian value, or for `Hex` the value of the record's first sixteen
/// hex digits.
pub open spec fn spec_digest(t: HashType, s: Seq<u8>) -> Option<u64> {
    match t {
        HashType::Hex => if s.len() < 16 {
            None
        } else {
            spec_u64_from_hex(s.take(16))
        },
        HashType::Md5 => Some((be_val(md5_of(s).take(8)) as u64)),
        HashType::Sha1 => Some((be_val(sha1_of(s).take(8)) as u64)),
        HashType::Sha2_256 => Some((be_val(sha256_of(s).take(8)) as u64)),
        HashType::Sha2_512 => Some((be_val(sha512_of(s).take(8)) as u64)),
        HashType::Blake2b => Some((be_val(blake2b_of(s).take(8)) as u64)),
    }
}

/// Lower-cases one ASCII letter, executably.
fn lower(b: u8) -> (r: u8)
    ensures
        r == ascii_lower(b),
{
    if b >= 65 && b <= 90 {
        b + 32
    } else {
        b
    }
}

/// Selects a digest by name, ignoring ASCII case.
pub fn parse_hash_type(s: &str) -> (r: Result<HashType, &'static str>)
    ensures
        match r {
            Ok(t) => spec_hash_type(s.spec_bytes()) == Some(t),
            Err(_) => spec_hash_type(s.spec_bytes()) is None,
        },
{
    let bytes: &[u8] = s.as_bytes();
    let ghost f = fold_bytes(s.spec_bytes());
    proof {
        assert(f.len() == bytes@.len());
    }
    let n: usize = bytes.len();
    if n == 3 {
        if lower(bytes[0]) == 104 && lower(bytes[1]) == 101 && lower(bytes[2]) == 120 {
            proof {
                assert(f =~= seq![104u8, 101u8, 120u8]);
            }
            return Ok(HashType::Hex);
        }
        if lower(bytes[0]) == 109 && lower(bytes[1]) == 100 && lower(bytes[2]) == 53 {
            proof {
                assert(f =~= seq![109u8, 100u8, 53u8]);
            }
            return Ok(HashType::Md5);
        }
    }
    if n == 4 && lower(bytes[0]) == 115 && lower(bytes[1]) == 104 && lower(bytes[2]) == 97 && lower(
        bytes[3],
    ) == 49 {
        proof {
            assert(f =~= seq![115u8, 104u8, 97u8, 49u8]);
        }
        return Ok(HashType::Sha1);
    }
    if n == 6 && lower(bytes[0]) == 115 && lower(bytes[1]) == 104 && lower(bytes[2]) == 97 {
        if lower(bytes[3]) == 50 && lower(bytes[4]) == 53 && lower(bytes[5]) == 54 {
            proof {
                assert(f =~= seq![115u8, 104u8, 97u8, 50u8, 53u8, 54u8]);
            }
            return Ok(HashType::Sha2_256);
        }
        if lower(bytes[3]) == 53 && lower(bytes[4]) == 49 && lower(bytes[5]) == 50 {
            proof {
                assert(f =~= seq![115u8, 104u8, 97u8, 53u8, 49u8, 50u8]);
            }
            return Ok(HashType::Sha2_512);
        }
    }
    if n == 7 && lower(bytes[0]) == 98 && lower(bytes[1]) == 108 && lower(bytes[2]) == 97 && lower(
        bytes[3],
    ) == 107 && lower(bytes[4]) == 101 && lower(bytes[5]) == 50 && lower(bytes[6]) == 98 {
        proof {
            assert(f =~= seq![98u8, 108u8, 97u8, 107u8, 101u8, 50u8, 98u8]);
        }
        return Ok(HashType::Blake2b);
    }
    proof {
        assert(spec_hash_type(s.spec_bytes()) is None) by {
            assert(forall|i: int| 0 <= i < f.len() ==> f[i] == ascii_lower(bytes@[i]));
        }
    }
    Err("no match")
}

impl std::str::FromStr for HashType {
    type Err = &'static str;

    fn from_str(s: &str) -> Result<Self, Self::Err> {
        parse_hash_type(s)
    }
}

/// A prefix of a hex string never denotes more than the whole.
proof fn lemma_hex_nat_prefix_le(s: Seq<u8>, j: int)
    requires
        0 <= j <= s.len(),
    ensures
        hex_nat(s.take(j)) <= hex_nat(s),
    decreases s.len() - j,
{
    if j == s.len() {
        assert(s.take(j) =~= s);
    } else {
        lemma_hex_nat_prefix_le(s, j + 1);
        assert(s.take(j + 1).drop_last() =~= s.take(j));
        assert(hex_nat(s.take(j + 1)) >= hex_nat(s.take(j)));
    }
}

/// Parses a 64-bit value from hex digits, most significant first; `None` on
/// a byte that is no hex digit or on overflow.
pub fn u64_from_hex(src: &[u8]) -> (r: Option<u64>)
    ensures
        r == spec_u64_from_hex(src@),
{
    let mut result: u64 = 0;
    let mut i: usize = 0;
    let n: usize = src.len();
    while i < n
        invariant
            n == src@.len(),
            i <= n,
            all_hex(src@.take(i as int)),
            result as nat == hex_nat(src@.take(i as int)),
        decreases n - i,
    {
        let b: u8 = src[i];
        let d: u8 = if b >= 48 && b <= 57 {
            b - 48
        } else if b >= 97 && b <= 102 {
            b - 87
        } else if b >= 65 && b <= 70 {
            b - 55
        } else {
            proof {
                assert(hex_digit(src@[i as int]) is None);
                assert(!all_hex(src@));
            }
            return None;
        };
        proof {
            assert(hex_digit(src@[i as int]) == Some(d));
            assert(src@.take(i + 1).drop_last() =~= src@.take(i as int));
            assert(src@.take(i + 1).last() == src@[i as int]);
            assert(hex_nat(src@.take(i + 1)) == 16 * (result as nat) + d as nat);
        }
        let next = match result.checked_mul(16) {
            Some(m) => m.checked_add(d as u64),
            None => None,
        };
        result = match next {
            Some(v) => v,
            None => {
                proof {
                    assert(hex_nat(src@.take(i + 1)) > u64::MAX as nat);
                    lemma_hex_nat_prefix_le(src@, i + 1);
                }
                return None;
            },
        };
        proof {
            assert forall|k: int| 0 <= k < i + 1 implies (#[trigger] hex_digit(
                src@.take(i + 1)[k],
            )) is Some by {
                if k < i {
                    assert(hex_digit(src@.take(i as int)[k]) is Some);
                }
            }
        }
        i = i + 1;
    }
    proof {
        assert(src@.take(n as int) =~= src@);
    }
    Some(result)
}

impl HashType {
    /// Maps one record to its 64-bit hash under this digest selection.
    pub fn digest(&self, s: &[u8]) -> (r: Option<u64>)
        ensures
            r == spec_digest(*self, s@),
    {
        match *self {
            HashType::Hex => {
                if s.len() < 16 {
                    None
                } else {
                    let (head, _) = s.split_at(16);
                    proof {
                        assert(head@ =~= s@.take(16));
                    }
                    u64_from_hex(head)
                }
            },
            HashType::Md5 => {
                let d = md5_digest(s);
                Some(take_u64(&d, Ghost(md5_of(s@))))
            },
            HashType::Sha1 => {
                let d = sha1_digest(s);
                Some(take_u64(&d, Ghost(sha1_of(s@))))
            },
            HashType::Sha2_256 => {
                let d = sha256_digest(s);
                Some(take_u64(&d, Ghost(sha256_of(s@))))
            },
            HashType::Sha2_512 => {
                let d = sha512_digest(s);
                Some(take_u64(&d, Ghost(sha512_of(s@))))
            },
            HashType::Blake2b => {
                let d = blake2b_digest(s);
                Some(take_u64(&d, Ghost(blake2b_of(s@))))
            },
        }
    }
}

/// Reads the first eight digest bytes as one big-endian value.
fn take_u64(d: &Vec<u8>, expected: Ghost<Seq<u8>>) -> (r: u64)
    requires
        d@ == expected@,
        d@.len() >= 8,
    ensures
        r == (be_val(expected@.take(8)) as u64),
{
    let v = read_u64_be(d, 0);
    proof {
        assert(d@.subrange(0, 8) =~= expected@.take(8));
    }
    v
}

/// The number of occurrences of a byte in a byte string.
pub open spec fn count_byte(s: Seq<u8>, b: u8) -> nat
    decreases s.len(),
{
    if s.len() == 0 {
        0
    } else {
        count_byte(s.drop_last(), b) + (if s.last() == b {
            1nat
        } else {
            0nat
        })
    }
}

/// A byte occurs at most once per position.
proof fn lemma_count_byte_le(s: Seq<u8>, b: u8)
    ensures
        count_byte(s, b) <= s.len(),
    decreases s.len(),
{
    if s.len() > 0 {
        lemma_count_byte_le(s.drop_last(), b);
    }
}

/// Relies on memchr's `memchr_iter`: it iterates over exactly the positions
/// of the needle in the haystack, so its count is the number of occurrences.
#[verifier::external_body]
fn count_occurrences(needle: u8, haystack: &[u8]) -> (r: usize)
    ensures
        r as nat == count_byte(haystack@, needle),
{
    memchr::memchr_iter(needle, haystack).count()
}

/// Estimates how many lines a file of `size` bytes holds, by counting the
/// newlines in a leading sample and scaling.
pub fn estimate_lines(sample: &[u8], size: u64) -> (r: u64)
    ensures
        sample@.len() == 0 ==> r == 0,
        sample@.len() >= 1 ==> r as nat == count_byte(sample@, 10) * ((size as nat) / (
        sample@.len() as nat)),
{
    let n: usize = sample.len();
    if n == 0 {
        return 0;
    }
    let lines: usize = count_occurrences(10, sample);
    let per: u64 = size / (n as u64);
    proof {
        lemma_count_byte_le(sample@, 10);
        vstd::arithmetic::div_mod::lemma_fundamental_div_mod(size as int, n as int);
        vstd::arithmetic::div_mod::lemma_mod_division_less_than_divisor(size as int, n as int);
        assert((lines as nat) * (per as nat) <= u64::MAX as nat) by (nonlinear_arith)
            requires
                lines as nat <= sample@.len(),
                n as nat == sample@.len(),
                size as int == (n as int) * (per as int) + (size as int) % (n as int),
                (size as int) % (n as int) >= 0,
                per >= 0,
                size <= u64::MAX,
        ;
    }
    (lines as u64) * per
}

} // verus!
