//! The header block of the manifest entry.

use vstd::prelude::*;
use vstd::arithmetic::power::pow;

verus! {

/// Sizes below this are written into a header in octal.
pub const OCTAL_SIZE_LIMIT: u64 = 0x2_0000_0000;

/// A blank header of the old tar format, which all later formats extend:
/// zero bytes, but for the modification time, which is written as eleven
/// octal zeros.
pub open spec fn blank_header() -> Seq<u8> {
    Seq::new(
        512,
        |i: int|
            if 136 <= i < 147 {
                48u8
            } else {
                0u8
            },
    )
}

/// The octal digit of `n` at `place`, as a character; place 0 is the last
/// digit.
pub open spec fn octal_digit(n: u64, place: nat) -> u8 {
    (48 + (n as int / pow(8, place)) % 8) as u8
}

/// `header` with `size` in its size field in octal: eleven digits from
/// offset 124, then a zero byte.
pub open spec fn with_octal_size(header: Seq<u8>, size: u64) -> Seq<u8> {
    Seq::new(
        header.len(),
        |i: int|
            if 124 <= i < 135 {
                octal_digit(size, (134 - i) as nat)
            } else if i == 135 {
                0u8
            } else {
                header[i]
            },
    )
}

/// A tar header after a `size` too large for octal digits has been written
/// into its size field.
pub uninterp spec fn with_binary_size(header: Seq<u8>, size: u64) -> Seq<u8>;

/// A tar header after `size` has been written into its size field.
pub open spec fn header_with_size(header: Seq<u8>, size: u64) -> Seq<u8> {
    if size < OCTAL_SIZE_LIMIT {
        with_octal_size(header, size)
    } else {
        with_binary_size(header, size)
    }
}

/// The header of a manifest entry whose payload has `size` bytes.
pub open spec fn manifest_header(size: u64) -> Seq<u8> {
    header_with_size(blank_header(), size)
}

/// Makes a blank header with `tar::Header::new_old`. Trusted: such a header
/// is 512 zero bytes in which the twelve bytes of the modification time, from
/// offset 136, hold eleven times the digit `0` and then a zero byte.
#[verifier::external_body]
fn new_old_header() -> (header: [u8; 512])
    ensures
        header@ == blank_header(),
{
    *tar::Header::new_old().as_bytes()
}

/// Writes the size field with `tar::Header::set_size`, on a copy of the block
/// that `tar::Header::from_byte_slice` has turned into a header. Trusted: a
/// size below 8 GiB is written as eleven octal digits and a zero byte into
/// the twelve bytes from offset 124, and no other byte changes; for a larger
/// size the block that comes out depends on the block that went in and on
/// `size` alone.
#[verifier::external_body]
fn set_header_size(header: &[u8; 512], size: u64) -> (sized: [u8; 512])
    ensures
        size < OCTAL_SIZE_LIMIT ==> sized@ == with_octal_size(header@, size),
        size >= OCTAL_SIZE_LIMIT ==> sized@ == with_binary_size(header@, size),
{
    let mut h = tar::Header::from_byte_slice(&header[..]).clone();
    h.set_size(size);
    *h.as_bytes()
}

/// Builds the header of a manifest entry: a blank header of the old format
/// whose size field holds `size`.
pub fn make_manifest_header(size: u64) -> (header: [u8; 512])
    ensures
        header@ == manifest_header(size),
{
    let blank = new_old_header();
    set_header_size(&blank, size)
}

} // verus!
