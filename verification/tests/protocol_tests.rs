use redis_like::common::{
    byte_order_of, get_header, get_message, native_byte_order, u64_from_bytes, u64_to_bytes, ByteOrder,
    MAX_MSG_SIZE,
};
use redis_like::hashtable::HMap;
use redis_like::network::{
    check_request, decode_response, encode_request, get_str, handle_read, handle_write,
    length_field, parse_request, process_request, try_one_request, Connection, ReadNext, RequestKind,
    Response,
};
use redis_like::redis::{do_del, do_get, do_set};
use redis_like::transport::{transfer_step, IoOutcome};
use redis_like::tvl::{
    buf_append, buf_consume, out_arr, out_err, out_int32, out_nil, out_str, response_begin,
    response_end, response_size, DataType, ResponseCode,
};

const LE: ByteOrder = ByteOrder::Little;
const BE: ByteOrder = ByteOrder::Big;

fn le(n: u64) -> Vec<u8> {
    n.to_le_bytes().to_vec()
}

fn cmds(words: &[&str]) -> Vec<String> {
    words.iter().map(|w| w.to_string()).collect()
}

fn framed(payload: &[u8]) -> Vec<u8> {
    let mut v = le(payload.len() as u64);
    v.extend_from_slice(payload);
    v
}

#[test]
fn test_response_code_bytes() {
    assert_eq!(ResponseCode::DelNothing.to_ne_bytes(LE), [7, 0, 0, 0]);
    assert_eq!(ResponseCode::OK.to_ne_bytes(LE), [0, 0, 0, 0]);
    assert_eq!(ResponseCode::from_ne_bytes(&[3, 0, 0, 0], LE), ResponseCode::SetExisting);
    for c in [
        ResponseCode::OK,
        ResponseCode::Error,
        ResponseCode::SetNew,
        ResponseCode::SetExisting,
        ResponseCode::GetExisting,
        ResponseCode::GetNothing,
        ResponseCode::DelOk,
        ResponseCode::DelNothing,
    ] {
        assert_eq!(ResponseCode::from_ne_bytes(&c.to_ne_bytes(LE), LE), c);
        assert_eq!(ResponseCode::from_ne_bytes(&c.to_ne_bytes(BE), BE), c);
    }
    assert_eq!(ResponseCode::default(), ResponseCode::OK);
}

#[test]
fn test_data_type_bytes() {
    assert_eq!(DataType::ARR.to_ne_bytes(), [5]);
    assert_eq!(DataType::from_ne_bytes(&[2]), DataType::STR);
    for t in [DataType::NIL, DataType::ERR, DataType::STR, DataType::INT, DataType::FLT, DataType::ARR] {
        assert_eq!(DataType::from_ne_bytes(&t.to_ne_bytes()), t);
    }
    assert_eq!(DataType::default(), DataType::NIL);
}

#[test]
fn test_out_values() {
    let mut buf = Vec::new();
    out_nil(&mut buf, ResponseCode::SetNew, LE);
    assert_eq!(buf, vec![0, 2, 0, 0, 0]);

    let mut buf = Vec::new();
    out_str(&mut buf, "hi", ResponseCode::GetExisting, LE);
    assert_eq!(buf, vec![2, 4, 0, 0, 0, 2, 0, 0, 0, 0, 0, 0, 0, b'h', b'i']);

    let mut buf = Vec::new();
    out_err(&mut buf, ResponseCode::Error, "x", LE);
    assert_eq!(buf, vec![1, 1, 0, 0, 0, 1, 0, 0, 0, 0, 0, 0, 0, b'x']);

    let mut buf = Vec::new();
    out_int32(&mut buf, -2, ResponseCode::OK, LE);
    assert_eq!(buf, vec![3, 0, 0, 0, 0, 0xfe, 0xff, 0xff, 0xff]);

    let mut buf = Vec::new();
    out_arr(&mut buf, 3, ResponseCode::OK, LE);
    assert_eq!(buf, vec![5, 0, 0, 0, 0, 3, 0, 0, 0, 0, 0, 0, 0]);
}

#[test]
fn test_buf_append_and_consume() {
    let mut buf = vec![1u8, 2];
    buf_append(&mut buf, &[3, 4, 5], 2);
    assert_eq!(buf, vec![1, 2, 3, 4]);
    buf_consume(&mut buf, 3);
    assert_eq!(buf, vec![4]);
    buf_consume(&mut buf, 1);
    assert!(buf.is_empty());
}

#[test]
fn test_response_framing() {
    let mut buf = vec![9u8];
    let header = response_begin(&mut buf, LE);
    assert_eq!(header, 1);
    assert_eq!(buf.len(), 9);
    out_nil(&mut buf, ResponseCode::DelOk, LE);
    assert_eq!(response_size(&mut buf, header), 5);
    response_end(&mut buf, header, LE);
    let mut expected = vec![9u8];
    expected.extend(le(5));
    expected.extend([0, 6, 0, 0, 0]);
    assert_eq!(buf, expected);
}

#[test]
fn test_response_too_big() {
    let mut buf = Vec::new();
    let header = response_begin(&mut buf, LE);
    buf.resize(8 + MAX_MSG_SIZE + 1, 7);
    response_end(&mut buf, header, LE);
    let msg = "response is too big!";
    assert_eq!(buf.len(), 12 + 13 + msg.len());
    assert_eq!(get_header(&buf, LE), buf.len() - 8);
    assert_eq!(&buf[8..12], &[7, 7, 7, 7]);
    assert_eq!(buf[12], 1);
    assert_eq!(&buf[13..17], &[1, 0, 0, 0]);
    assert_eq!(&buf[25..], msg.as_bytes());
}

#[test]
fn test_get_header_and_message() {
    assert_eq!(get_header(&[5, 0, 0, 0, 0, 0, 0, 0, 99], LE), 5);
    assert_eq!(get_header(&[0, 1, 0, 0, 0, 0, 0, 0], LE), 256);
    assert_eq!(get_message(b"xxhello!", 2, 5), "hello");
    assert_eq!(get_message(&[b'a', 0xff, b'b'], 0, 3), "");
    assert_eq!(get_message("é".as_bytes(), 0, 2), "é");
    assert_eq!(get_str(&[2, 0, 0, 0, 0, 0, 0, 0, b'o', b'k', b'!'], LE), "ok");
}

#[test]
fn test_encode_request_bytes() {
    let req = encode_request(&vec!["set", "k", "v"], LE);
    let mut expected = le(45);
    expected.extend(le(3));
    expected.extend(le(3));
    expected.extend(b"set");
    expected.extend(le(1));
    expected.extend(b"k");
    expected.extend(le(1));
    expected.extend(b"v");
    assert_eq!(req, expected);
}

#[test]
fn test_parse_request_roundtrip() {
    let req = encode_request(&vec!["get", "some key", "é"], LE);
    let mut out = Vec::new();
    let end = parse_request(&req, &mut out, LE);
    assert_eq!(end, req.len());
    assert_eq!(out, cmds(&["get", "some key", "é"]));
}

#[test]
fn test_parse_request_rejects_counts() {
    let mut req = le(16);
    req.extend(le(0));
    let mut out = Vec::new();
    assert_eq!(parse_request(&req, &mut out, LE), 0);
    assert!(out.is_empty());
    let mut req = le(16);
    req.extend(le(2000));
    assert_eq!(parse_request(&req, &mut out, LE), 0);
    assert!(out.is_empty());
}

#[test]
fn test_check_request_kinds() {
    assert_eq!(check_request(&[1, 2, 3], LE), RequestKind::Incomplete);
    let full = encode_request(&vec!["set", "k", "v"], LE);
    assert_eq!(check_request(&full, LE), RequestKind::Ready);
    assert_eq!(check_request(&full[..20], LE), RequestKind::Incomplete);
    let mut zero = le(16);
    zero.extend(le(0));
    assert_eq!(check_request(&zero, LE), RequestKind::Close);
    assert_eq!(check_request(&encode_request(&vec!["foo", "k"], LE), LE), RequestKind::Fault);
    assert_eq!(check_request(&encode_request(&vec!["get"], LE), LE), RequestKind::Fault);
    let mut huge = le(MAX_MSG_SIZE as u64 + 1);
    huge.extend(le(1));
    assert_eq!(check_request(&huge, LE), RequestKind::Fault);
}

#[test]
fn test_store_commands() {
    let mut table = HMap::new();
    let mut out = Vec::new();
    do_get(&mut table, &cmds(&["get", "k"]), &mut out, LE);
    assert_eq!(out, vec![0, 5, 0, 0, 0]);
    out.clear();
    do_set(&mut table, &cmds(&["set", "k", "v1"]), &mut out, LE);
    assert_eq!(out, vec![0, 2, 0, 0, 0]);
    out.clear();
    do_set(&mut table, &cmds(&["set", "k", "v2"]), &mut out, LE);
    assert_eq!(out, vec![0, 3, 0, 0, 0]);
    out.clear();
    do_get(&mut table, &cmds(&["get", "k"]), &mut out, LE);
    assert_eq!(out, vec![2, 4, 0, 0, 0, 2, 0, 0, 0, 0, 0, 0, 0, b'v', b'2']);
    assert_eq!(table.len(), 1);
    out.clear();
    do_del(&mut table, &cmds(&["del", "k"]), &mut out, LE);
    assert_eq!(out, vec![0, 6, 0, 0, 0]);
    out.clear();
    do_del(&mut table, &cmds(&["del", "k"]), &mut out, LE);
    assert_eq!(out, vec![0, 7, 0, 0, 0]);
    out.clear();
    do_get(&mut table, &cmds(&["get", "k"]), &mut out, LE);
    assert_eq!(out, vec![0, 5, 0, 0, 0]);
    assert_eq!(table.len(), 0);
}

#[test]
fn test_other_keys_untouched() {
    let mut table = HMap::new();
    let mut out = Vec::new();
    do_set(&mut table, &cmds(&["set", "a", "1"]), &mut out, LE);
    do_set(&mut table, &cmds(&["set", "b", "2"]), &mut out, LE);
    do_del(&mut table, &cmds(&["del", "a"]), &mut out, LE);
    out.clear();
    do_get(&mut table, &cmds(&["get", "b"]), &mut out, LE);
    assert_eq!(out, vec![2, 4, 0, 0, 0, 1, 0, 0, 0, 0, 0, 0, 0, b'2']);
}

#[test]
fn test_process_request_dispatch() {
    let mut table = HMap::new();
    let mut out = Vec::new();
    let mut offset = 0usize;
    process_request(&mut table, &cmds(&["set", "k", "v", "get", "k"]), &mut offset, &mut out, LE);
    assert_eq!(offset, 3);
    assert_eq!(out, vec![0, 2, 0, 0, 0]);
    let mut offset = 7usize;
    let mut out = Vec::new();
    process_request(&mut table, &cmds(&["nope", "k"]), &mut offset, &mut out, LE);
    assert_eq!(offset, 7);
    assert!(out.is_empty());
}

#[test]
fn test_try_one_request_set_then_get() {
    let mut table = HMap::new();
    let mut conn = Connection::new();
    let req = encode_request(&vec!["set", "k", "v", "get", "k"], LE);
    conn.incoming_data.extend_from_slice(&req);
    conn.incoming_data.extend_from_slice(&[1, 2]);
    assert!(try_one_request(&mut conn, &mut table, LE));
    assert_eq!(conn.incoming_data, vec![1, 2]);
    let mut expected = framed(&[0, 2, 0, 0, 0]);
    expected.extend(framed(&[2, 4, 0, 0, 0, 1, 0, 0, 0, 0, 0, 0, 0, b'v']));
    assert_eq!(conn.outgoing_data, expected);
    assert!(!try_one_request(&mut conn, &mut table, LE));
    assert!(!conn.want_close);
}

#[test]
fn test_try_one_request_close_on_no_commands() {
    let mut table = HMap::new();
    let mut conn = Connection::new();
    let mut req = le(16);
    req.extend(le(0));
    conn.incoming_data = req.clone();
    assert!(!try_one_request(&mut conn, &mut table, LE));
    assert!(conn.want_close);
    assert_eq!(conn.incoming_data, req);
}

#[test]
fn test_handle_read_and_write() {
    let mut table = HMap::new();
    let mut conn = Connection::new();
    let req = encode_request(&vec!["set", "a", "1"], LE);
    let (first, second) = req.split_at(10);
    assert_eq!(handle_read(&mut conn, &mut table, Some(first), LE), ReadNext::Return(10));
    assert_eq!(conn.incoming_data.len(), 10);
    assert!(conn.outgoing_data.is_empty());
    assert_eq!(handle_read(&mut conn, &mut table, Some(second), LE), ReadNext::Write);
    assert!(conn.want_write && !conn.want_read);
    assert!(conn.incoming_data.is_empty());
    assert_eq!(conn.outgoing_data, framed(&[0, 2, 0, 0, 0]));
    assert_eq!(handle_write(&mut conn, Some(4)), 4);
    assert_eq!(conn.outgoing_data.len(), 9);
    assert!(conn.want_write);
    assert_eq!(handle_write(&mut conn, None), 0);
    assert_eq!(conn.outgoing_data.len(), 9);
    assert_eq!(handle_write(&mut conn, Some(9)), 9);
    assert!(conn.outgoing_data.is_empty());
    assert!(conn.want_read && !conn.want_write);
    assert_eq!(handle_write(&mut conn, Some(0)), 0);
    assert!(conn.want_close);
}

#[test]
fn test_handle_read_end_and_error() {
    let mut table = HMap::new();
    let mut conn = Connection::new();
    assert_eq!(handle_read(&mut conn, &mut table, Some(&[]), LE), ReadNext::Return(0));
    assert!(conn.want_close);
    let mut conn = Connection::new();
    assert_eq!(handle_read(&mut conn, &mut table, None, LE), ReadNext::Return(0));
    assert!(conn.want_close);
}

#[test]
fn test_handle_read_pipelined_and_fault() {
    let mut table = HMap::new();
    let mut conn = Connection::new();
    let mut data = encode_request(&vec!["set", "a", "1"], LE);
    data.extend(encode_request(&vec!["get", "a"], LE));
    assert_eq!(handle_read(&mut conn, &mut table, Some(&data), LE), ReadNext::Write);
    let mut expected = framed(&[0, 2, 0, 0, 0]);
    expected.extend(framed(&[2, 4, 0, 0, 0, 1, 0, 0, 0, 0, 0, 0, 0, b'1']));
    assert_eq!(conn.outgoing_data, expected);
    let mut conn = Connection::new();
    let bad = encode_request(&vec!["sit", "a"], LE);
    assert_eq!(handle_read(&mut conn, &mut table, Some(&bad), LE), ReadNext::Fault);
}

#[test]
fn test_decode_responses() {
    let s = framed(&[2, 4, 0, 0, 0, 2, 0, 0, 0, 0, 0, 0, 0, b'h', b'i']);
    match decode_response(&s, LE) {
        Response::Str { code, message } => {
            assert_eq!(code, ResponseCode::GetExisting);
            assert_eq!(message, "hi");
        }
        _ => panic!("expected a string"),
    }
    let mut buf = Vec::new();
    let h = response_begin(&mut buf, LE);
    out_err(&mut buf, ResponseCode::Error, "bad", LE);
    response_end(&mut buf, h, LE);
    match decode_response(&buf, LE) {
        Response::Error { code, message } => {
            assert_eq!(code, ResponseCode::Error);
            assert_eq!(message, "bad");
        }
        _ => panic!("expected an error"),
    }
    let n = framed(&[0, 5, 0, 0, 0]);
    match decode_response(&n, LE) {
        Response::Nil { code } => assert_eq!(code, ResponseCode::GetNothing),
        _ => panic!("expected nil"),
    }
    let mut buf = Vec::new();
    let h = response_begin(&mut buf, LE);
    out_int32(&mut buf, -7, ResponseCode::OK, LE);
    response_end(&mut buf, h, LE);
    match decode_response(&buf, LE) {
        Response::Int { code, value } => {
            assert_eq!(code, ResponseCode::OK);
            assert_eq!(value, -7);
        }
        _ => panic!("expected an integer"),
    }
    let mut f = vec![0u8; 8];
    f.extend([4, 0, 0, 0, 0]);
    f.extend(1.5f64.to_le_bytes());
    match decode_response(&f, LE) {
        Response::Float { code, bits } => {
            assert_eq!(code, ResponseCode::OK);
            assert_eq!(f64::from_le_bytes(bits), 1.5);
        }
        _ => panic!("expected a float"),
    }
}

#[test]
fn test_transfer_step() {
    assert_eq!(transfer_step(3, 10, IoOutcome::Moved(4)), Some(7));
    assert_eq!(transfer_step(3, 10, IoOutcome::Moved(0)), None);
    assert_eq!(transfer_step(3, 10, IoOutcome::Interrupted), Some(3));
    assert_eq!(transfer_step(3, 10, IoOutcome::Failed), None);
}

#[test]
fn test_del_then_get_in_one_request() {
    let mut table = HMap::new();
    let mut conn = Connection::new();
    conn.incoming_data = encode_request(&vec!["set", "k", "v"], LE);
    assert!(try_one_request(&mut conn, &mut table, LE));
    conn.outgoing_data.clear();
    conn.incoming_data = encode_request(&vec!["del", "k", "get", "k"], LE);
    assert!(try_one_request(&mut conn, &mut table, LE));
    let mut expected = framed(&[0, 6, 0, 0, 0]);
    expected.extend(framed(&[0, 5, 0, 0, 0]));
    assert_eq!(conn.outgoing_data, expected);
    assert_eq!(table.len(), 0);
}

#[test]
fn test_byte_orders() {
    assert_eq!(u64_to_bytes(0x0102, LE), vec![2, 1, 0, 0, 0, 0, 0, 0]);
    assert_eq!(u64_to_bytes(0x0102, BE), vec![0, 0, 0, 0, 0, 0, 1, 2]);
    assert_eq!(u64_from_bytes(&[0, 0, 0, 0, 0, 0, 1, 2], BE), 0x0102);
    assert_eq!(ResponseCode::DelNothing.to_ne_bytes(BE), [0, 0, 0, 7]);
    assert_eq!(ResponseCode::from_ne_bytes(&[0, 0, 0, 3], BE), ResponseCode::SetExisting);
    assert_eq!(get_header(&[0, 0, 0, 0, 0, 0, 1, 0, 99], BE), 256);
    assert_eq!(length_field(&[9, 0, 0, 0, 0, 0, 0, 1, 2], 1, BE), 0x0102);
    assert_eq!(length_field(&[9, 2, 1, 0, 0, 0, 0, 0, 0], 1, LE), 0x0102);
    assert_eq!(length_field(&[0xff; 8], 0, LE), u64::MAX);
    let expected = if u16::from_ne_bytes([1, 0]) == 1 { LE } else { BE };
    assert_eq!(native_byte_order(), expected);
    assert_eq!(byte_order_of(1), LE);
    assert_eq!(byte_order_of(256), BE);
    assert_eq!(u64_to_bytes(45, native_byte_order()), 45u64.to_ne_bytes().to_vec());
}

#[test]
fn test_big_endian_request_and_response() {
    let req = encode_request(&vec!["set", "k", "v"], BE);
    let mut expected = 45u64.to_be_bytes().to_vec();
    expected.extend(3u64.to_be_bytes());
    expected.extend(3u64.to_be_bytes());
    expected.extend(b"set");
    expected.extend(1u64.to_be_bytes());
    expected.extend(b"k");
    expected.extend(1u64.to_be_bytes());
    expected.extend(b"v");
    assert_eq!(req, expected);
    let mut out = Vec::new();
    assert_eq!(parse_request(&req, &mut out, BE), req.len());
    assert_eq!(out, cmds(&["set", "k", "v"]));

    let mut table = HMap::new();
    let mut conn = Connection::new();
    conn.incoming_data = encode_request(&vec!["set", "k", "v", "get", "k"], BE);
    assert!(try_one_request(&mut conn, &mut table, BE));
    let mut expected = 5u64.to_be_bytes().to_vec();
    expected.extend([0, 0, 0, 0, 2]);
    expected.extend(14u64.to_be_bytes());
    expected.extend([2, 0, 0, 0, 4]);
    expected.extend(1u64.to_be_bytes());
    expected.push(b'v');
    assert_eq!(conn.outgoing_data, expected);
    match decode_response(&conn.outgoing_data[13..], BE) {
        Response::Str { code, message } => {
            assert_eq!(code, ResponseCode::GetExisting);
            assert_eq!(message, "v");
        }
        _ => panic!("expected a string"),
    }
    let mut buf = Vec::new();
    out_int32(&mut buf, -2, ResponseCode::OK, BE);
    assert_eq!(buf, vec![3, 0, 0, 0, 0, 0xff, 0xff, 0xff, 0xfe]);
}
