//! Limits of the protocol and the reading of its fixed-size fields.
use vstd::prelude::*;
use vstd::bytes::{
    spec_u32_from_le_bytes, spec_u32_to_le_bytes, spec_u64_from_le_bytes, spec_u64_to_le_bytes,
    u32_from_le_bytes, u32_to_le_bytes, u64_from_le_bytes, u64_to_le_bytes,
};
use vstd::utf8::{decode_utf8, valid_utf8};
use core::str::Utf8Error;
use vstd::string::StringSliceAdditionalSpecFns;

verus! {

broadcast use {vstd::utf8::encode_utf8_decode_utf8, vstd::utf8::decode_utf8_encode_utf8};

/// Largest number of bytes a message may announce.
pub const MAX_MSG_SIZE: usize = 4096 * 1024;

/// Size of a length field: a 64-bit integer in the byte order of the machine.
pub const MSG_HEADER_SIZE: usize = 8;

/// Largest number of strings a request may carry.
pub const MAX_COMMANDS_SIZE: usize = 1024;

/// The order in which integers are laid out in bytes.
#[derive(Clone, Copy, Debug, PartialEq, Eq, Structural)]
pub enum ByteOrder {
    /// Least significant byte first.
    Little,
    /// Most significant byte first.
    Big,
}

/// `s` back to front.
pub open spec fn reversed(s: Seq<u8>) -> Seq<u8> {
    Seq::new(s.len(), |i: int| s[s.len() - 1 - i])
}

/// The eight bytes of `x` in the order `order`.
pub open spec fn u64_bytes(order: ByteOrder, x: u64) -> Seq<u8> {
    match order {
        ByteOrder::Little => spec_u64_to_le_bytes(x),
        ByteOrder::Big => reversed(spec_u64_to_le_bytes(x)),
    }
}

/// The integer that the eight bytes `s` hold in the order `order`.
pub open spec fn u64_value(order: ByteOrder, s: Seq<u8>) -> u64 {
    match order {
        ByteOrder::Little => spec_u64_from_le_bytes(s),
        ByteOrder::Big => spec_u64_from_le_bytes(reversed(s)),
    }
}

/// The four bytes of `x` in the order `order`.
pub open spec fn u32_bytes(order: ByteOrder, x: u32) -> Seq<u8> {
    match order {
        ByteOrder::Little => spec_u32_to_le_bytes(x),
        ByteOrder::Big => reversed(spec_u32_to_le_bytes(x)),
    }
}

/// The integer that the four bytes `s` hold in the order `order`.
pub open spec fn u32_value(order: ByteOrder, s: Seq<u8>) -> u32 {
    match order {
        ByteOrder::Little => spec_u32_from_le_bytes(s),
        ByteOrder::Big => spec_u32_from_le_bytes(reversed(s)),
    }
}

/// Integers written in either order have their width and read back.
pub proof fn lemma_int_bytes()
    ensures
        forall|o: ByteOrder, x: u64|
            #![trigger u64_bytes(o, x)]
            u64_bytes(o, x).len() == 8 && u64_value(o, u64_bytes(o, x)) == x,
        forall|o: ByteOrder, x: u32|
            #![trigger u32_bytes(o, x)]
            u32_bytes(o, x).len() == 4 && u32_value(o, u32_bytes(o, x)) == x,
{
    vstd::bytes::lemma_auto_spec_u64_to_from_le_bytes();
    vstd::bytes::lemma_auto_spec_u32_to_from_le_bytes();
    assert forall|o: ByteOrder, x: u64| #![trigger u64_bytes(o, x)] u64_bytes(o, x).len() == 8
        && u64_value(o, u64_bytes(o, x)) == x by {
        let s = spec_u64_to_le_bytes(x);
        assert(s.len() == 8);
        assert(reversed(reversed(s)) =~= s);
    }
    assert forall|o: ByteOrder, x: u32| #![trigger u32_bytes(o, x)] u32_bytes(o, x).len() == 4
        && u32_value(o, u32_bytes(o, x)) == x by {
        let s = spec_u32_to_le_bytes(x);
        assert(s.len() == 4);
        assert(reversed(reversed(s)) =~= s);
    }
}

/// `v` back to front.
fn reverse_bytes(v: &[u8]) -> (r: Vec<u8>)
    ensures
        r@ == reversed(v@),
{
    let n = v.len();
    let mut r: Vec<u8> = Vec::new();
    let mut i: usize = 0;
    while i < n
        invariant
            n == v@.len(),
            i <= n,
            r@ == reversed(v@).take(i as int),
        decreases n - i,
    {
        r.push(v[n - 1 - i]);
        i = i + 1;
        assert(r@ =~= reversed(v@).take(i as int));
    }
    assert(reversed(v@).take(n as int) =~= reversed(v@));
    r
}

/// The eight bytes of `x` in the order `order`.
pub fn u64_to_bytes(x: u64, order: ByteOrder) -> (b: Vec<u8>)
    ensures
        b@ == u64_bytes(order, x),
{
    let le = u64_to_le_bytes(x);
    match order {
        ByteOrder::Little => le,
        ByteOrder::Big => reverse_bytes(le.as_slice()),
    }
}

/// The integer that the eight bytes `s` hold in the order `order`.
pub fn u64_from_bytes(s: &[u8], order: ByteOrder) -> (x: u64)
    requires
        s@.len() == 8,
    ensures
        x == u64_value(order, s@),
{
    match order {
        ByteOrder::Little => u64_from_le_bytes(s),
        ByteOrder::Big => {
            let r = reverse_bytes(s);
            u64_from_le_bytes(r.as_slice())
        },
    }
}

/// The four bytes of `x` in the order `order`.
pub fn u32_to_bytes(x: u32, order: ByteOrder) -> (b: Vec<u8>)
    ensures
        b@ == u32_bytes(order, x),
{
    let le = u32_to_le_bytes(x);
    match order {
        ByteOrder::Little => le,
        ByteOrder::Big => reverse_bytes(le.as_slice()),
    }
}

/// The integer that the four bytes `s` hold in the order `order`.
pub fn u32_from_bytes(s: &[u8], order: ByteOrder) -> (x: u32)
    requires
        s@.len() == 4,
    ensures
        x == u32_value(order, s@),
{
    match order {
        ByteOrder::Little => u32_from_le_bytes(s),
        ByteOrder::Big => {
            let r = reverse_bytes(s);
            u32_from_le_bytes(r.as_slice())
        },
    }
}

/// The byte order of the machine this runs on.
pub open spec fn machine_order() -> ByteOrder {
    match vstd::endian::endianness() {
        vstd::endian::Endian::Little => ByteOrder::Little,
        vstd::endian::Endian::Big => ByteOrder::Big,
    }
}

/// `u16::from_ne_bytes`: the two bytes read in the byte order of the
/// machine.
#[verifier::external_body]
fn u16_from_ne_bytes(bytes: [u8; 2]) -> (r: u16)
    ensures
        machine_order() == ByteOrder::Little ==> r == bytes@[0] + 256 * bytes@[1],
        machine_order() == ByteOrder::Big ==> r == 256 * bytes@[0] + bytes@[1],
{
    u16::from_ne_bytes(bytes)
}

/// The byte order that the two bytes `[1, 0]`, read in the machine's order
/// as `probe`, reveal: the order that reads them as 1 puts the least
/// significant byte first.
pub fn byte_order_of(probe: u16) -> (order: ByteOrder)
    ensures
        (order == ByteOrder::Little) == (probe == 1),
{
    if probe == 1 {
        ByteOrder::Little
    } else {
        ByteOrder::Big
    }
}

/// The byte order of the machine this runs on, found by reading the bytes
/// `[1, 0]` in it; every function that reads or writes integers takes it as
/// an argument.
pub fn native_byte_order() -> (order: ByteOrder)
    ensures
        order == machine_order(),
{
    let probe = u16_from_ne_bytes([1, 0]);
    proof {
        let b: [u8; 2] = [1, 0];
        assert(b@[0] == 1 && b@[1] == 0);
    }
    byte_order_of(probe)
}

/// The length field that starts `bytes`, in the order `order`.
pub open spec fn header_value(order: ByteOrder, bytes: Seq<u8>) -> nat {
    u64_value(order, bytes.take(MSG_HEADER_SIZE as int)) as nat
}

/// Reads the length field at the start of `bytes`; the field holds at most
/// [`MAX_MSG_SIZE`].
pub fn get_header(bytes: &[u8], order: ByteOrder) -> (n: usize)
    requires
        bytes@.len() >= MSG_HEADER_SIZE,
        header_value(order, bytes@) <= MAX_MSG_SIZE,
    ensures
        n == header_value(order, bytes@),
{
    let field = &bytes[0..MSG_HEADER_SIZE];
    assert(field@ == bytes@.take(MSG_HEADER_SIZE as int));
    let message_size = u64_from_bytes(field, order);
    message_size as usize
}

/// The text that `bytes` encode in UTF-8, or the empty text if they are
/// not valid UTF-8.
pub open spec fn message_text(bytes: Seq<u8>) -> Seq<char> {
    if valid_utf8(bytes) {
        decode_utf8(bytes)
    } else {
        Seq::empty()
    }
}

/// The error that `core::str::from_utf8` reports.
#[verifier::external_type_specification]
#[verifier::external_body]
pub struct ExUtf8Error(Utf8Error);

/// `core::str::from_utf8`: succeeds exactly on valid UTF-8, with a string
/// whose encoding is the input.
#[verifier::external_body]
fn str_from_utf8(v: &[u8]) -> (r: Result<&str, Utf8Error>)
    ensures
        r is Ok <==> valid_utf8(v@),
        r matches Ok(s) ==> s.spec_bytes() == v@,
{
    core::str::from_utf8(v)
}

/// The text of the `size` bytes of `bytes` that start at `offset`; the
/// empty text where they are not valid UTF-8.
pub fn get_message(bytes: &[u8], offset: usize, size: usize) -> (s: String)
    requires
        offset + size <= bytes@.len(),
    ensures
        s@ == message_text(bytes@.subrange(offset as int, offset + size)),
{
    let available = bytes.len();
    assert(offset + size <= available);
    let part = &bytes[offset..offset + size];
    let message = match str_from_utf8(part) {
        Ok(msg) => msg,
        Err(_) => "",
    };
    proof {
        reveal_strlit("");
        if valid_utf8(part@) {
            assert(decode_utf8(message.spec_bytes()) == message@);
        }
    }
    message.to_owned()
}

} // verus!
