//! Type-length-value encoding of responses.
//!
//! A response is framed by a length field (see [`response_begin`] and
//! [`response_end`]) and holds one value: a one-byte data type, a four-byte
//! response code, and then what the type calls for.  Integers are laid out
//! in the byte order that each function is given, which is the machine's.
use vstd::prelude::*;
use vstd::string::StringSliceAdditionalSpecFns;
use crate::common::{
    lemma_int_bytes, u32_bytes, u32_from_bytes, u32_to_bytes, u32_value, u64_bytes, u64_to_bytes,
    ByteOrder, MAX_MSG_SIZE, MSG_HEADER_SIZE,
};

verus! {

/// Size of a response code field.
pub const RESPONSE_CODE_SIZE: usize = 4;

/// Size of a data type field.
pub const DATA_TYPE_SIZE: usize = 1;

/// The message that replaces a response too large to send.
pub const TOO_BIG_MESSAGE: &'static str = "response is too big!";

/// The outcome a response reports.
#[derive(Debug, Clone, Copy, PartialEq, Eq, Structural)]
pub enum ResponseCode {
    OK,
    Error,
    SetNew,
    SetExisting,
    GetExisting,
    GetNothing,
    DelOk,
    DelNothing,
}

impl ResponseCode {
    /// The number that encodes the code.
    pub open spec fn code(self) -> u32 {
        match self {
            ResponseCode::OK => 0,
            ResponseCode::Error => 1,
            ResponseCode::SetNew => 2,
            ResponseCode::SetExisting => 3,
            ResponseCode::GetExisting => 4,
            ResponseCode::GetNothing => 5,
            ResponseCode::DelOk => 6,
            ResponseCode::DelNothing => 7,
        }
    }

    /// The code that `n` encodes.
    pub open spec fn from_code(n: u32) -> Self {
        if n == 0 {
            ResponseCode::OK
        } else if n == 1 {
            ResponseCode::Error
        } else if n == 2 {
            ResponseCode::SetNew
        } else if n == 3 {
            ResponseCode::SetExisting
        } else if n == 4 {
            ResponseCode::GetExisting
        } else if n == 5 {
            ResponseCode::GetNothing
        } else if n == 6 {
            ResponseCode::DelOk
        } else {
            ResponseCode::DelNothing
        }
    }

    fn value(&self) -> (n: u32)
        ensures
            n == self.code(),
    {
        match self {
            ResponseCode::OK => 0,
            ResponseCode::Error => 1,
            ResponseCode::SetNew => 2,
            ResponseCode::SetExisting => 3,
            ResponseCode::GetExisting => 4,
            ResponseCode::GetNothing => 5,
            ResponseCode::DelOk => 6,
            ResponseCode::DelNothing => 7,
        }
    }

    /// The four bytes of the code: its number, in the order `order`.
    pub fn to_ne_bytes(self, order: ByteOrder) -> (b: [u8; 4])
        ensures
            b@ == code_bytes(order, self),
    {
        proof {
            lemma_int_bytes();
        }
        let v = u32_to_bytes(self.value(), order);
        let b = [v[0], v[1], v[2], v[3]];
        assert(b@ =~= v@);
        b
    }

    /// The code whose four bytes `bytes` are, read in the order `order`;
    /// they encode a number of a code.
    pub fn from_ne_bytes(bytes: &[u8], order: ByteOrder) -> (c: Self)
        requires
            bytes@.len() == RESPONSE_CODE_SIZE,
            u32_value(order, bytes@) <= 7,
        ensures
            c.code() == u32_value(order, bytes@),
            c == Self::from_code(u32_value(order, bytes@)),
    {
        let u_32 = u32_from_bytes(bytes, order);
        match u_32 {
            0 => Self::OK,
            1 => Self::Error,
            2 => Self::SetNew,
            3 => Self::SetExisting,
            4 => Self::GetExisting,
            5 => Self::GetNothing,
            6 => Self::DelOk,
            _ => Self::DelNothing,
        }
    }
}

impl Default for ResponseCode {
    fn default() -> (c: Self)
        ensures
            c == ResponseCode::OK,
    {
        ResponseCode::OK
    }
}

/// The kind of value a response carries.
#[derive(Debug, Clone, Copy, PartialEq, Eq, Structural)]
pub enum DataType {
    /// No value.
    NIL,
    /// An error message.
    ERR,
    /// A string.
    STR,
    /// A 32-bit integer.
    INT,
    /// A float.
    FLT,
    /// An array.
    ARR,
}

impl DataType {
    /// The byte that encodes the type.
    pub open spec fn code(self) -> u8 {
        match self {
            DataType::NIL => 0,
            DataType::ERR => 1,
            DataType::STR => 2,
            DataType::INT => 3,
            DataType::FLT => 4,
            DataType::ARR => 5,
        }
    }

    /// The type that `n` encodes.
    pub open spec fn from_code(n: u8) -> Self {
        if n == 0 {
            DataType::NIL
        } else if n == 1 {
            DataType::ERR
        } else if n == 2 {
            DataType::STR
        } else if n == 3 {
            DataType::INT
        } else if n == 4 {
            DataType::FLT
        } else {
            DataType::ARR
        }
    }

    /// The one byte of the type.
    pub fn to_ne_bytes(self) -> (b: [u8; 1])
        ensures
            b@ == seq![self.code()],
    {
        let v: u8 = match self {
            DataType::NIL => 0,
            DataType::ERR => 1,
            DataType::STR => 2,
            DataType::INT => 3,
            DataType::FLT => 4,
            DataType::ARR => 5,
        };
        let b = [v];
        assert(b@ =~= seq![self.code()]);
        b
    }

    /// The type whose byte `bytes` is; it encodes a type.
    pub fn from_ne_bytes(bytes: &[u8]) -> (t: Self)
        requires
            bytes@.len() == DATA_TYPE_SIZE,
            bytes@[0] <= 5,
        ensures
            t.code() == bytes@[0],
            t == Self::from_code(bytes@[0]),
    {
        let u_8 = bytes[0];
        match u_8 {
            0 => Self::NIL,
            1 => Self::ERR,
            2 => Self::STR,
            3 => Self::INT,
            4 => Self::FLT,
            _ => Self::ARR,
        }
    }
}

impl Default for DataType {
    fn default() -> (t: Self)
        ensures
            t == DataType::NIL,
    {
        DataType::NIL
    }
}

/// The four bytes of a response code in the order `order`.
pub open spec fn code_bytes(order: ByteOrder, c: ResponseCode) -> Seq<u8> {
    u32_bytes(order, c.code())
}

/// A length field holding `n`, in the order `order`.
pub open spec fn len_bytes(order: ByteOrder, n: nat) -> Seq<u8> {
    u64_bytes(order, n as u64)
}

/// A value with no payload.
pub open spec fn nil_bytes(order: ByteOrder, code: ResponseCode) -> Seq<u8> {
    seq![DataType::NIL.code()] + code_bytes(order, code)
}

/// A value of type `t` carrying the string whose encoding is `s`.
pub open spec fn text_bytes(order: ByteOrder, t: DataType, code: ResponseCode, s: Seq<u8>) -> Seq<
    u8,
> {
    seq![t.code()] + code_bytes(order, code) + len_bytes(order, s.len()) + s
}

/// An integer value.
pub open spec fn int_bytes(order: ByteOrder, code: ResponseCode, val: i32) -> Seq<u8> {
    seq![DataType::INT.code()] + code_bytes(order, code) + u32_bytes(order, val as u32)
}

/// The head of an array of `size` values.
pub open spec fn arr_bytes(order: ByteOrder, code: ResponseCode, size: usize) -> Seq<u8> {
    seq![DataType::ARR.code()] + code_bytes(order, code) + len_bytes(order, size as nat)
}

/// The fields have their sizes.
pub proof fn lemma_field_lengths()
    ensures
        forall|o: ByteOrder, c: ResponseCode| #[trigger]
            code_bytes(o, c).len() == RESPONSE_CODE_SIZE,
        forall|o: ByteOrder, n: nat| #[trigger] len_bytes(o, n).len() == MSG_HEADER_SIZE,
        forall|o: ByteOrder, v: i32| #[trigger] u32_bytes(o, v as u32).len() == 4,
{
    lemma_int_bytes();
}

/// Appends the first `len` bytes of `data` to `buf`.
pub fn buf_append(buf: &mut Vec<u8>, data: &[u8], len: usize)
    requires
        len <= data@.len(),
    ensures
        final(buf)@ == old(buf)@ + data@.take(len as int),
{
    let mut i: usize = 0;
    while i < len
        invariant
            i <= len <= data@.len(),
            buf@ == old(buf)@ + data@.take(i as int),
        decreases len - i,
    {
        buf.push(data[i]);
        i = i + 1;
        assert(buf@ =~= old(buf)@ + data@.take(i as int));
    }
}

/// Drops the first `len` bytes of `buf`.
pub fn buf_consume(buf: &mut Vec<u8>, len: usize)
    requires
        len <= old(buf)@.len(),
    ensures
        final(buf)@ == old(buf)@.skip(len as int),
{
    let rest = buf.split_off(len);
    *buf = rest;
}

/// Opens a response in `buf`: appends a length field of zero, to be filled
/// by [`response_end`], and returns where it starts.
pub fn response_begin(buf: &mut Vec<u8>, order: ByteOrder) -> (header: usize)
    ensures
        header == old(buf)@.len(),
        final(buf)@ == old(buf)@ + len_bytes(order, 0),
{
    proof {
        lemma_int_bytes();
    }
    let header = buf.len();
    let zero = u64_to_bytes(0, order);
    buf_append(buf, zero.as_slice(), MSG_HEADER_SIZE);
    assert(zero@.take(MSG_HEADER_SIZE as int) == zero@);
    return header;
}

/// Number of bytes after the length field that starts at `header`.
pub fn response_size(buf: &mut Vec<u8>, header: usize) -> (n: usize)
    requires
        header + MSG_HEADER_SIZE <= old(buf)@.len(),
    ensures
        final(buf)@ == old(buf)@,
        n == old(buf)@.len() - header - MSG_HEADER_SIZE,
{
    return buf.len() - header - MSG_HEADER_SIZE;
}

/// `buf` with the length field at `header` set to `n`.
pub open spec fn set_len_field(order: ByteOrder, buf: Seq<u8>, header: int, n: nat) -> Seq<u8> {
    buf.take(header) + len_bytes(order, n) + buf.skip(header + MSG_HEADER_SIZE)
}

/// What [`response_end`] leaves: the length field at `header` holds the
/// number of bytes after it; if there were more than [`MAX_MSG_SIZE`], the
/// buffer is first cut to its first [`MSG_HEADER_SIZE`] `+`
/// [`RESPONSE_CODE_SIZE`] bytes and an error value appended.
pub open spec fn ended_response(order: ByteOrder, buf: Seq<u8>, header: int) -> Seq<u8> {
    let n = buf.len() - header - MSG_HEADER_SIZE;
    if n > MAX_MSG_SIZE {
        let cut = buf.take(MSG_HEADER_SIZE + RESPONSE_CODE_SIZE) + text_bytes(
            order,
            DataType::ERR,
            ResponseCode::Error,
            TOO_BIG_MESSAGE.spec_bytes(),
        );
        set_len_field(order, cut, header, (cut.len() - header - MSG_HEADER_SIZE) as nat)
    } else {
        set_len_field(order, buf, header, n as nat)
    }
}

/// Closes the response whose length field starts at `header`.
pub fn response_end(buf: &mut Vec<u8>, header: usize, order: ByteOrder)
    requires
        header + MSG_HEADER_SIZE <= old(buf)@.len(),
        old(buf)@.len() - header - MSG_HEADER_SIZE > MAX_MSG_SIZE ==> header + MSG_HEADER_SIZE
            <= MSG_HEADER_SIZE + RESPONSE_CODE_SIZE + 1 + RESPONSE_CODE_SIZE + MSG_HEADER_SIZE
            + TOO_BIG_MESSAGE.spec_bytes().len(),
    ensures
        final(buf)@ == ended_response(order, old(buf)@, header as int),
{
    proof {
        lemma_field_lengths();
        lemma_int_bytes();
    }
    let mut msg_size = response_size(buf, header);
    if msg_size > MAX_MSG_SIZE {
        buf.resize(MSG_HEADER_SIZE + RESPONSE_CODE_SIZE, 0u8);
        out_err(buf, ResponseCode::Error, TOO_BIG_MESSAGE, order);
        msg_size = response_size(buf, header);
    }
    let ghost before = buf@;
    let _len = buf.len();
    let field = u64_to_bytes(msg_size as u64, order);
    let mut i: usize = 0;
    while i < MSG_HEADER_SIZE
        invariant
            i <= MSG_HEADER_SIZE,
            field@.len() == MSG_HEADER_SIZE,
            header + MSG_HEADER_SIZE <= before.len() <= usize::MAX,
            buf@.len() == before.len(),
            forall|k: int| 0 <= k < header ==> buf@[k] == before[k],
            forall|k: int| header + MSG_HEADER_SIZE <= k < before.len() ==> buf@[k] == before[k],
            forall|k: int| header <= k < header + i ==> buf@[k] == field@[k - header],
        decreases MSG_HEADER_SIZE - i,
    {
        buf.set(header + i, field[i]);
        i = i + 1;
    }
    assert(buf@ =~= set_len_field(order, before, header as int, msg_size as nat));
}

/// Appends a value with no payload.
pub fn out_nil(buf: &mut Vec<u8>, code: ResponseCode, order: ByteOrder)
    ensures
        final(buf)@ == old(buf)@ + nil_bytes(order, code),
{
    proof {
        lemma_field_lengths();
    }
    let t = DataType::NIL.to_ne_bytes();
    buf_append(buf, &t, DATA_TYPE_SIZE);
    let c = code.to_ne_bytes(order);
    buf_append(buf, &c, RESPONSE_CODE_SIZE);
    assert(buf@ =~= old(buf)@ + nil_bytes(order, code));
}

/// Appends a value of type `t` carrying `s`.
fn out_text(buf: &mut Vec<u8>, t: DataType, code: ResponseCode, s: &str, order: ByteOrder)
    ensures
        final(buf)@ == old(buf)@ + text_bytes(order, t, code, s.spec_bytes()),
{
    proof {
        lemma_field_lengths();
        lemma_int_bytes();
    }
    let bytes = s.as_bytes();
    let blen = bytes.len();
    let tb = t.to_ne_bytes();
    buf_append(buf, &tb, DATA_TYPE_SIZE);
    let c = code.to_ne_bytes(order);
    buf_append(buf, &c, RESPONSE_CODE_SIZE);
    let n = u64_to_bytes(blen as u64, order);
    assert(n@.take(MSG_HEADER_SIZE as int) == n@);
    buf_append(buf, n.as_slice(), MSG_HEADER_SIZE);
    assert(bytes@.take(blen as int) == bytes@);
    buf_append(buf, bytes, blen);
    assert(tb@.take(DATA_TYPE_SIZE as int) == seq![t.code()]);
    assert(c@.take(RESPONSE_CODE_SIZE as int) == c@);
    assert(buf@ =~= old(buf)@ + text_bytes(order, t, code, s.spec_bytes()));
}

/// Appends a string value.
pub fn out_str(buf: &mut Vec<u8>, str: &str, code: ResponseCode, order: ByteOrder)
    ensures
        final(buf)@ == old(buf)@ + text_bytes(order, DataType::STR, code, str.spec_bytes()),
{
    out_text(buf, DataType::STR, code, str, order);
}

/// Appends an error value carrying a message.
pub fn out_err(buf: &mut Vec<u8>, code: ResponseCode, str: &str, order: ByteOrder)
    ensures
        final(buf)@ == old(buf)@ + text_bytes(order, DataType::ERR, code, str.spec_bytes()),
{
    out_text(buf, DataType::ERR, code, str, order);
}

/// Appends an integer value.
pub fn out_int32(buf: &mut Vec<u8>, val: i32, code: ResponseCode, order: ByteOrder)
    ensures
        final(buf)@ == old(buf)@ + int_bytes(order, code, val),
{
    proof {
        lemma_field_lengths();
    }
    let tb = DataType::INT.to_ne_bytes();
    buf_append(buf, &tb, DATA_TYPE_SIZE);
    let c = code.to_ne_bytes(order);
    buf_append(buf, &c, RESPONSE_CODE_SIZE);
    let v = u32_to_bytes(val as u32, order);
    buf_append(buf, v.as_slice(), 4);
    assert(buf@ =~= old(buf)@ + int_bytes(order, code, val));
}

/// Appends the head of an array of `size` values.
pub fn out_arr(buf: &mut Vec<u8>, size: usize, code: ResponseCode, order: ByteOrder)
    ensures
        final(buf)@ == old(buf)@ + arr_bytes(order, code, size),
{
    proof {
        lemma_field_lengths();
        lemma_int_bytes();
    }
    let tb = DataType::ARR.to_ne_bytes();
    buf_append(buf, &tb, DATA_TYPE_SIZE);
    let c = code.to_ne_bytes(order);
    buf_append(buf, &c, RESPONSE_CODE_SIZE);
    let n = u64_to_bytes(size as u64, order);
    buf_append(buf, n.as_slice(), MSG_HEADER_SIZE);
    assert(buf@ =~= old(buf)@ + arr_bytes(order, code, size));
}

/// Law: the bytes of a response code, in either order, read back in that
/// order as that code.
pub proof fn law_code_roundtrip(order: ByteOrder, code: ResponseCode)
    ensures
        u32_value(order, code_bytes(order, code)) == code.code(),
        ResponseCode::from_code(code.code()) == code,
        code.code() <= 7,
{
    lemma_int_bytes();
    assert(u32_bytes(order, code.code()).len() == 4);
}

/// Law: the byte of a data type reads back as that type.
pub proof fn law_type_roundtrip(t: DataType)
    ensures
        DataType::from_code(t.code()) == t,
        t.code() <= 5,
{
}

} // verus!
