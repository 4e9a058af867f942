//! Content hashing: SHA-256 digests rendered as lowercase hex, the form
//! in which every backend reports a file's content.

use sha2::Digest;
use vstd::prelude::*;

verus! {

/// The SHA-256 digest of `data`.  The digest is a pure function of the
/// bytes alone; its value is not spelled out here.
pub uninterp spec fn sha256_of(data: Seq<u8>) -> Seq<u8>;

/// The value `n` shown as one lowercase hex digit.
pub open spec fn hex_digit(n: u8) -> char
    recommends
        n < 16,
{
    if n < 10 {
        ((n + 48) as u8) as char
    } else {
        ((n + 87) as u8) as char
    }
}

/// `bytes` shown as lowercase hex, two digits per byte, high nibble
/// first.
pub open spec fn hex_of(bytes: Seq<u8>) -> Seq<char> {
    Seq::new(
        bytes.len() * 2,
        |i: int|
            if i % 2 == 0 {
                hex_digit(bytes[i / 2] >> 4)
            } else {
                hex_digit(bytes[i / 2] & 0xf)
            },
    )
}

/// The hex-encoded SHA-256 digest of `data`: the hash field of every
/// file record.
pub open spec fn sha256_hex(data: Seq<u8>) -> Seq<char> {
    hex_of(sha256_of(data))
}

/// Relies on `sha2::Sha256::digest`: the 32-byte SHA-256 digest of the
/// input, a function of the bytes alone.
#[verifier::external_body]
fn sha256_digest(data: &Vec<u8>) -> (r: Vec<u8>)
    ensures
        r@ == sha256_of(data@),
        r@.len() == 32,
{
    sha2::Sha256::digest(data.as_slice()).to_vec()
}

/// Renders bytes as lowercase hex, two digits per byte, high nibble
/// first.
fn hex_encode(data: &Vec<u8>) -> (r: String)
    ensures
        r@ == hex_of(data@),
{
    let digits = "0123456789abcdef";
    proof {
        reveal_strlit("0123456789abcdef");
        assert(digits@.len() == 16);
        assert forall|n: u8| n < 16 implies #[trigger] digits@[n as int] == hex_digit(n) by {
            if n < 10 {
                assert(digits@[n as int] == ((n + 48) as u8) as char) by {
                    assert(digits@[0] == '0');
                    assert(digits@[1] == '1');
                    assert(digits@[2] == '2');
                    assert(digits@[3] == '3');
                    assert(digits@[4] == '4');
                    assert(digits@[5] == '5');
                    assert(digits@[6] == '6');
                    assert(digits@[7] == '7');
                    assert(digits@[8] == '8');
                    assert(digits@[9] == '9');
                }
            } else {
                assert(digits@[n as int] == ((n + 87) as u8) as char) by {
                    assert(digits@[10] == 'a');
                    assert(digits@[11] == 'b');
                    assert(digits@[12] == 'c');
                    assert(digits@[13] == 'd');
                    assert(digits@[14] == 'e');
                    assert(digits@[15] == 'f');
                }
            }
        }
    }
    let mut r = String::new();
    let mut i: usize = 0;
    while i < data.len()
        invariant
            i <= data@.len(),
            digits@.len() == 16,
            forall|n: u8| n < 16 ==> #[trigger] digits@[n as int] == hex_digit(n),
            r@.len() == 2 * i,
            forall|k: int| 0 <= k < r@.len() ==> r@[k] == hex_of(data@)[k],
        decreases data@.len() - i,
    {
        let b = data[i];
        let hi = (b >> 4) as usize;
        let lo = (b & 0xf) as usize;
        proof {
            assert(hi < 16 && lo < 16) by (bit_vector)
                requires
                    hi == (b >> 4) as usize && lo == (b & 0xf) as usize,
            ;
        }
        let ghost r0 = r@;
        r.append(digits.substring_char(hi, hi + 1));
        r.append(digits.substring_char(lo, lo + 1));
        i = i + 1;
        proof {
            assert(r@ =~= r0.push(digits@[hi as int]).push(digits@[lo as int]));
            assert(r@[r@.len() - 2] == hex_digit((b >> 4) as u8));
            assert(r@[r@.len() - 1] == hex_digit((b & 0xf) as u8));
            assert(hex_of(data@)[2 * i - 2] == hex_digit(data@[i - 1] >> 4)) by {
                assert((2 * i - 2) % 2 == 0 && (2 * i - 2) / 2 == i - 1);
            }
            assert(hex_of(data@)[2 * i - 1] == hex_digit(data@[i - 1] & 0xf)) by {
                assert((2 * i - 1) % 2 == 1 && (2 * i - 1) / 2 == i - 1);
            }
        }
    }
    proof {
        assert(r@ =~= hex_of(data@));
    }
    r
}

/// The hex-encoded SHA-256 digest of `data`, as a string of 64 digits.
pub fn sha256_hex_string(data: &Vec<u8>) -> (r: String)
    ensures
        r@ == sha256_hex(data@),
        r@.len() == 64,
{
    let digest = sha256_digest(data);
    hex_encode(&digest)
}

} // verus!
