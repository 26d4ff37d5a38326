//! The request protocol: how a client frames its commands, how the server
//! cuts them out of what it has received, runs them and queues the
//! responses, and how a client reads a response back.
//!
//! A request is a length field holding the size of the whole request, a
//! length field holding the number of strings, and then each string as a
//! length field followed by its UTF-8 bytes.
use vstd::prelude::*;
use vstd::utf8::{encode_utf8, valid_utf8};
use crate::common::{
    get_header, get_message, header_value, lemma_int_bytes, message_text, u32_bytes,
    u32_from_bytes, u32_value, u64_from_bytes, u64_to_bytes, ByteOrder, MAX_COMMANDS_SIZE,
    MAX_MSG_SIZE, MSG_HEADER_SIZE,
};
use crate::tvl::{
    buf_append, buf_consume, len_bytes, response_begin, response_end, set_len_field,
    text_bytes, nil_bytes, int_bytes, code_bytes, DataType, ResponseCode, DATA_TYPE_SIZE,
    RESPONSE_CODE_SIZE,
};
use crate::hashtable::{map_len, HMap, MAX_ENTRIES};
use crate::redis::{
    del_response, do_del, do_get, do_set, get_response, set_response, table_ok, table_view,
    lemma_values_fit, MAX_VALUE_SIZE,
};

verus! {

broadcast use {vstd::utf8::encode_utf8_decode_utf8, vstd::utf8::decode_utf8_encode_utf8, vstd::utf8::encode_utf8_valid_utf8};

/// The length field of `data` at `off`.
pub open spec fn field_at(order: ByteOrder, data: Seq<u8>, off: int) -> nat {
    header_value(order, data.skip(off))
}

/// The texts of the strings of `out`.
pub open spec fn texts(out: Seq<String>) -> Seq<Seq<char>> {
    out.map_values(|s: String| s@)
}

/// Reads `k` more strings from `data` starting at `off`, after those of
/// `acc`: the strings read and the offset after them, or nothing if a
/// length field or a string does not fit in `data` or a length is above
/// [`MAX_MSG_SIZE`].
pub open spec fn parse_strings(order: ByteOrder, data: Seq<u8>, off: int, k: nat, acc: Seq<Seq<char>>) -> Option<
    (Seq<Seq<char>>, int),
>
    decreases k,
{
    if k == 0 {
        Some((acc, off))
    } else if off < 0 || off + MSG_HEADER_SIZE > data.len() {
        None
    } else {
        let len = field_at(order, data, off);
        if len > MAX_MSG_SIZE || off + MSG_HEADER_SIZE + len > data.len() {
            None
        } else {
            parse_strings(order, 
                data,
                off + MSG_HEADER_SIZE + len,
                (k - 1) as nat,
                acc.push(message_text(data.subrange(off + MSG_HEADER_SIZE, off + MSG_HEADER_SIZE + len))),
            )
        }
    }
}

/// Number of strings still to read when `have` are read and `n` are
/// announced.
pub open spec fn pending(n: nat, have: nat) -> nat {
    if n > have {
        (n - have) as nat
    } else {
        0
    }
}

/// Reading strings moves forward by a length field and more per string and
/// stays within the data.
pub proof fn lemma_parse_strings_bounds(order: ByteOrder, data: Seq<u8>, off: int, k: nat, acc: Seq<Seq<char>>)
    requires
        parse_strings(order, data, off, k, acc) is Some,
        0 <= off,
    ensures
        ({
            let (res, end) = parse_strings(order, data, off, k, acc)->0;
            &&& res.len() == acc.len() + k
            &&& res.subrange(0, acc.len() as int) == acc
            &&& off + MSG_HEADER_SIZE * k <= end <= data.len() || (k == 0 && end == off)
            &&& forall|i: int|
                acc.len() <= i < res.len() ==> off + MSG_HEADER_SIZE + encode_utf8(#[trigger] res[i]).len()
                    <= end
        }),
    decreases k,
{
    if k > 0 {
        let len = field_at(order, data, off);
        let b = data.subrange(off + MSG_HEADER_SIZE, off + MSG_HEADER_SIZE + len);
        let next = off + MSG_HEADER_SIZE + len;
        let acc2 = acc.push(message_text(b));
        lemma_parse_strings_bounds(order, data, next, (k - 1) as nat, acc2);
        let (res, end) = parse_strings(order, data, off, k, acc)->0;
        assert(res.subrange(0, acc.len() as int) =~= acc) by {
            assert(res.subrange(0, acc2.len() as int) == acc2);
            assert forall|i: int| 0 <= i < acc.len() implies res[i] == acc[i] by {
                assert(res.subrange(0, acc2.len() as int)[i] == acc2[i]);
            }
        }
        if valid_utf8(b) {
            assert(encode_utf8(message_text(b)) == b);
        }
        assert(encode_utf8(message_text(b)).len() <= len);
        assert(res[acc.len() as int] == message_text(b)) by {
            assert(res.subrange(0, acc2.len() as int)[acc.len() as int] == acc2[acc.len() as int]);
        }
    }
}

/// Reads the strings of the request at the start of `data` into `out`, after
/// those already there, until `out` holds as many as the request announces,
/// and returns the offset after the last one read; returns 0, reading
/// nothing, if the request announces no strings or more than
/// [`MAX_COMMANDS_SIZE`].
pub fn parse_request(data: &[u8], out: &mut Vec<String>, order: ByteOrder) -> (end: usize)
    requires
        data@.len() >= 2 * MSG_HEADER_SIZE,
        field_at(order, data@, MSG_HEADER_SIZE as int) <= MAX_MSG_SIZE,
        1 <= field_at(order, data@, MSG_HEADER_SIZE as int) <= MAX_COMMANDS_SIZE ==> parse_strings(order, 
            data@,
            2 * MSG_HEADER_SIZE,
            pending(field_at(order, data@, MSG_HEADER_SIZE as int), old(out)@.len()),
            texts(old(out)@),
        ) is Some,
    ensures
        ({
            let n = field_at(order, data@, MSG_HEADER_SIZE as int);
            if n == 0 || n > MAX_COMMANDS_SIZE {
                &&& end == 0
                &&& final(out)@ == old(out)@
            } else {
                let (res, stop) = parse_strings(order, 
                    data@,
                    2 * MSG_HEADER_SIZE,
                    pending(n, old(out)@.len()),
                    texts(old(out)@),
                )->0;
                &&& texts(final(out)@) == res
                &&& end == stop
            }
        }),
{
    let ghost n = field_at(order, data@, MSG_HEADER_SIZE as int);
    let mut offset: usize = 0;
    let count_field = &data[offset + MSG_HEADER_SIZE..MSG_HEADER_SIZE * 2];
    assert(count_field@.take(MSG_HEADER_SIZE as int) =~= data@.skip(MSG_HEADER_SIZE as int).take(
        MSG_HEADER_SIZE as int,
    ));
    let commands_number = get_header(count_field, order);
    offset += MSG_HEADER_SIZE * 2;
    if commands_number == 0 {
        return 0;
    };
    if commands_number > MAX_COMMANDS_SIZE {
        return 0;
    };
    let ghost target = parse_strings(order, data@, offset as int, pending(n, out@.len()), texts(out@));
    let data_len = data.len();
    while out.len() < commands_number
        invariant
            commands_number == n,
            data_len == data@.len(),
            offset <= data@.len(),
            parse_strings(order, data@, offset as int, pending(n, out@.len()), texts(out@)) == target,
            target is Some,
        decreases commands_number - out@.len(),
    {
        let ghost k = pending(n, out@.len());
        assert(k > 0);
        let field = &data[offset..offset + MSG_HEADER_SIZE];
        assert(field@.take(MSG_HEADER_SIZE as int) =~= data@.skip(offset as int).take(
            MSG_HEADER_SIZE as int,
        ));
        let command_len = get_header(field, order);
        offset += MSG_HEADER_SIZE;
        let msg = get_message(data, offset, command_len);
        offset += command_len;
        let ghost before = texts(out@);
        out.push(msg);
        assert(texts(out@) =~= before.push(msg@));
        assert(pending(n, out@.len()) == (k - 1) as nat);
    }
    assert(pending(n, out@.len()) == 0);
    offset
}

/// One string of a request: its length field, then its bytes.
pub open spec fn string_frame(order: ByteOrder, s: Seq<u8>) -> Seq<u8> {
    len_bytes(order, s.len()) + s
}

/// The strings of a request one after the other.
pub open spec fn frames(order: ByteOrder, ss: Seq<Seq<u8>>) -> Seq<u8>
    decreases ss.len(),
{
    if ss.len() == 0 {
        Seq::empty()
    } else {
        string_frame(order, ss[0]) + frames(order, ss.drop_first())
    }
}

/// The request that carries the strings `ss`.
pub open spec fn request_bytes(order: ByteOrder, ss: Seq<Seq<u8>>) -> Seq<u8> {
    let body = frames(order, ss);
    len_bytes(order, (2 * MSG_HEADER_SIZE + body.len()) as nat) + len_bytes(order, ss.len()) + body
}

/// The UTF-8 bytes of each of `cs`.
pub open spec fn encodings(cs: Seq<Seq<char>>) -> Seq<Seq<u8>> {
    cs.map_values(|c: Seq<char>| encode_utf8(c))
}

/// The texts of the strings of `cs`.
pub open spec fn str_texts(cs: Seq<&str>) -> Seq<Seq<char>> {
    cs.map_values(|c: &str| c@)
}

/// The frames of two runs of strings are the frames of each.
pub proof fn lemma_frames_concat(order: ByteOrder, a: Seq<Seq<u8>>, b: Seq<Seq<u8>>)
    ensures
        frames(order, a + b) == frames(order, a) + frames(order, b),
    decreases a.len(),
{
    if a.len() == 0 {
        assert(a + b =~= b);
    } else {
        lemma_frames_concat(order, a.drop_first(), b);
        assert((a + b).drop_first() =~= a.drop_first() + b);
    }
}

/// Frames a request that carries `commands`; the request fits in
/// [`MSG_HEADER_SIZE`] `+` [`MAX_MSG_SIZE`] bytes.
pub fn encode_request(commands: &Vec<&str>, order: ByteOrder) -> (req: Vec<u8>)
    requires
        request_bytes(order, encodings(str_texts(commands@))).len() <= MSG_HEADER_SIZE + MAX_MSG_SIZE,
    ensures
        req@ == request_bytes(order, encodings(str_texts(commands@))),
{
    let ghost ss = encodings(str_texts(commands@));
    proof {
        crate::tvl::lemma_field_lengths();
    }
    let mut body: Vec<u8> = Vec::new();
    let mut i: usize = 0;
    while i < commands.len()
        invariant
            i <= commands@.len(),
            ss == encodings(str_texts(commands@)),
            body@ == frames(order, ss.take(i as int)),
            request_bytes(order, ss).len() <= MSG_HEADER_SIZE + MAX_MSG_SIZE,
            frames(order, ss).len() + 2 * MSG_HEADER_SIZE == request_bytes(order, ss).len(),
        decreases commands@.len() - i,
    {
        let c = commands[i];
        let bytes = c.as_bytes();
        let len = bytes.len();
        proof {
            assert(ss.take(i as int + 1) =~= ss.take(i as int) + seq![ss[i as int]]);
            lemma_frames_concat(order, ss.take(i as int), seq![ss[i as int]]);
            assert(frames(order, seq![ss[i as int]]) =~= string_frame(order, ss[i as int])) by {
                assert(seq![ss[i as int]].drop_first() =~= Seq::<Seq<u8>>::empty());
                assert(frames(order, Seq::<Seq<u8>>::empty()) == Seq::<u8>::empty());
            }
            assert(ss =~= ss.take(i as int + 1) + ss.skip(i as int + 1));
            lemma_frames_concat(order, ss.take(i as int + 1), ss.skip(i as int + 1));
            lemma_int_bytes();
        }
        let field = u64_to_bytes(len as u64, order);
        crate::tvl::buf_append(&mut body, field.as_slice(), MSG_HEADER_SIZE);
        assert(field@.take(MSG_HEADER_SIZE as int) == field@);
        assert(bytes@.take(len as int) == bytes@);
        crate::tvl::buf_append(&mut body, bytes, len);
        i = i + 1;
        assert(body@ =~= frames(order, ss.take(i as int)));
    }
    assert(ss.take(commands@.len() as int) =~= ss);
    proof {
        lemma_int_bytes();
    }
    let total = u64_to_bytes((2 * MSG_HEADER_SIZE + body.len()) as u64, order);
    let count = u64_to_bytes(commands.len() as u64, order);
    let mut req: Vec<u8> = Vec::new();
    crate::tvl::buf_append(&mut req, total.as_slice(), MSG_HEADER_SIZE);
    crate::tvl::buf_append(&mut req, count.as_slice(), MSG_HEADER_SIZE);
    let blen = body.len();
    crate::tvl::buf_append(&mut req, body.as_slice(), blen);
    assert(total@.take(MSG_HEADER_SIZE as int) == total@);
    assert(count@.take(MSG_HEADER_SIZE as int) == count@);
    assert(body@.take(blen as int) == body@);
    assert(req@ =~= request_bytes(order, ss));
    req
}

/// A length field written and read back gives its value.
pub proof fn lemma_len_field(order: ByteOrder, d: Seq<u8>, off: int, n: nat)
    requires
        0 <= off,
        off + MSG_HEADER_SIZE <= d.len(),
        n <= u64::MAX,
        d.subrange(off, off + MSG_HEADER_SIZE) == len_bytes(order, n),
    ensures
        field_at(order, d, off) == n,
{
    lemma_int_bytes();
    assert(d.skip(off).take(MSG_HEADER_SIZE as int) =~= d.subrange(off, off + MSG_HEADER_SIZE));
}

/// Reading back the frames of strings, standing at `off` in `d`, gives the
/// strings.
pub proof fn lemma_parse_frames(order: ByteOrder, d: Seq<u8>, off: int, cs: Seq<Seq<char>>, acc: Seq<Seq<char>>)
    requires
        0 <= off,
        off + frames(order, encodings(cs)).len() <= d.len(),
        d.subrange(off, off + frames(order, encodings(cs)).len()) == frames(order, encodings(cs)),
        forall|i: int| 0 <= i < cs.len() ==> encode_utf8(#[trigger] cs[i]).len() <= MAX_MSG_SIZE,
    ensures
        parse_strings(order, d, off, cs.len(), acc) == Some((acc + cs, off + frames(order, encodings(cs)).len())),
    decreases cs.len(),
{
    let ss = encodings(cs);
    if cs.len() == 0 {
        assert(acc + cs =~= acc);
    } else {
        crate::tvl::lemma_field_lengths();
        let b = ss[0];
        assert(ss.drop_first() =~= encodings(cs.drop_first()));
        let rest = frames(order, ss.drop_first());
        assert(frames(order, ss) == len_bytes(order, b.len()) + b + rest);
        let len = b.len();
        assert(d.subrange(off, off + MSG_HEADER_SIZE) =~= len_bytes(order, len)) by {
            assert forall|i: int| 0 <= i < MSG_HEADER_SIZE implies d.subrange(off, off + MSG_HEADER_SIZE)[i]
                == len_bytes(order, len)[i] by {
                assert(d.subrange(off, off + frames(order, ss).len())[i] == frames(order, ss)[i]);
            }
        }
        lemma_len_field(order, d, off, len);
        let start = off + MSG_HEADER_SIZE;
        assert(d.subrange(start, start + len) =~= b) by {
            assert forall|i: int| 0 <= i < len implies d.subrange(start, start + len)[i] == b[i] by {
                assert(d.subrange(off, off + frames(order, ss).len())[MSG_HEADER_SIZE + i] == frames(order, ss)[MSG_HEADER_SIZE + i]);
            }
        }
        let next = start + len;
        assert(d.subrange(next, next + rest.len()) =~= rest) by {
            assert forall|i: int| 0 <= i < rest.len() implies d.subrange(next, next + rest.len())[i]
                == rest[i] by {
                assert(d.subrange(off, off + frames(order, ss).len())[MSG_HEADER_SIZE + len + i] == frames(order, ss)[MSG_HEADER_SIZE + len + i]);
            }
        }
        assert(message_text(b) == cs[0]);
        assert forall|i: int| 0 <= i < cs.drop_first().len() implies encode_utf8(
            #[trigger] cs.drop_first()[i],
        ).len() <= MAX_MSG_SIZE by {
            assert(cs.drop_first()[i] == cs[i + 1]);
        }
        lemma_parse_frames(order, d, next, cs.drop_first(), acc.push(cs[0]));
        assert(acc.push(cs[0]) + cs.drop_first() =~= acc + cs);
    }
}

/// Law: a request framed from some strings reads back as those strings: its
/// first field is its size, its second the number of strings, and the
/// strings that follow are the ones framed.
pub proof fn law_request_roundtrip(order: ByteOrder, cs: Seq<Seq<char>>)
    requires
        request_bytes(order, encodings(cs)).len() <= MSG_HEADER_SIZE + MAX_MSG_SIZE,
    ensures
        ({
            let d = request_bytes(order, encodings(cs));
            &&& field_at(order, d, 0) == d.len()
            &&& field_at(order, d, MSG_HEADER_SIZE as int) == cs.len()
            &&& parse_strings(order, d, 2 * MSG_HEADER_SIZE, cs.len(), Seq::empty()) == Some(
                (cs, d.len() as int),
            )
        }),
{
    crate::tvl::lemma_field_lengths();
    let ss = encodings(cs);
    let d = request_bytes(order, ss);
    let body = frames(order, ss);
    lemma_frames_len(order, cs);
    assert(d.subrange(0, MSG_HEADER_SIZE as int) =~= len_bytes(order, 
        (2 * MSG_HEADER_SIZE + body.len()) as nat,
    ));
    lemma_len_field(order, d, 0, (2 * MSG_HEADER_SIZE + body.len()) as nat);
    assert(d.subrange(MSG_HEADER_SIZE as int, 2 * MSG_HEADER_SIZE) =~= len_bytes(order, ss.len()));
    assert(ss.len() == cs.len());
    assert(d.len() == 2 * MSG_HEADER_SIZE + body.len());
    assert(MSG_HEADER_SIZE * cs.len() <= body.len());
    assert(cs.len() <= body.len()) by (nonlinear_arith)
        requires
            8 * cs.len() <= body.len(),
    ;
    assert(ss.len() <= u64::MAX);
    lemma_len_field(order, d, MSG_HEADER_SIZE as int, ss.len());
    assert(d.subrange(2 * MSG_HEADER_SIZE, 2 * MSG_HEADER_SIZE + body.len()) =~= body);
    assert forall|i: int| 0 <= i < cs.len() implies encode_utf8(#[trigger] cs[i]).len()
        <= MAX_MSG_SIZE by {
        lemma_frame_within(order, ss, i);
    }
    lemma_parse_frames(order, d, 2 * MSG_HEADER_SIZE, cs, Seq::empty());
    assert(Seq::<Seq<char>>::empty() + cs =~= cs);
}

/// The frames hold a length field for each string.
proof fn lemma_frames_len(order: ByteOrder, cs: Seq<Seq<char>>)
    ensures
        frames(order, encodings(cs)).len() >= MSG_HEADER_SIZE * cs.len(),
    decreases cs.len(),
{
    if cs.len() > 0 {
        crate::tvl::lemma_field_lengths();
        assert(encodings(cs).drop_first() =~= encodings(cs.drop_first()));
        lemma_frames_len(order, cs.drop_first());
    }
}

/// Each string is no longer than the frames that hold it.
proof fn lemma_frame_within(order: ByteOrder, ss: Seq<Seq<u8>>, i: int)
    requires
        0 <= i < ss.len(),
    ensures
        ss[i].len() + MSG_HEADER_SIZE <= frames(order, ss).len(),
    decreases ss.len(),
{
    crate::tvl::lemma_field_lengths();
    if i > 0 {
        lemma_frame_within(order, ss.drop_first(), i - 1);
    }
}

/// A store as a dictionary from keys to values.
pub type StoreView = Map<Seq<char>, Seq<char>>;

/// The commands run as a whole: each `get` and `del` takes one key, each
/// `set` a key and a value, and nothing else stands among them.
pub open spec fn runnable(cmds: Seq<Seq<char>>) -> bool
    decreases cmds.len(),
{
    if cmds.len() == 0 {
        true
    } else if cmds[0] == "get"@ {
        cmds.len() >= 2 && runnable(cmds.skip(2))
    } else if cmds[0] == "set"@ {
        cmds.len() >= 3 && runnable(cmds.skip(3))
    } else if cmds[0] == "del"@ {
        cmds.len() >= 2 && runnable(cmds.skip(2))
    } else {
        false
    }
}

/// The three command words differ.
proof fn lemma_words_differ()
    ensures
        "get"@ != "set"@,
        "get"@ != "del"@,
        "set"@ != "del"@,
{
    reveal_strlit("get");
    reveal_strlit("set");
    reveal_strlit("del");
    assert("get"@[0] != "set"@[0]);
    assert("get"@[0] != "del"@[0]);
    assert("set"@[0] != "del"@[0]);
}

/// Law: each command with its arguments is runnable on its own: `get k`,
/// `set k v` and `del k`.
pub proof fn law_commands_runnable(k: Seq<char>, v: Seq<char>)
    ensures
        runnable(seq!["get"@, k]),
        runnable(seq!["set"@, k, v]),
        runnable(seq!["del"@, k]),
{
    lemma_words_differ();
    let g = seq!["get"@, k];
    let s = seq!["set"@, k, v];
    let d = seq!["del"@, k];
    assert(g.skip(2) =~= Seq::<Seq<char>>::empty());
    assert(s.skip(3) =~= Seq::<Seq<char>>::empty());
    assert(d.skip(2) =~= Seq::<Seq<char>>::empty());
    assert(runnable(g.skip(2)));
    assert(runnable(s.skip(3)));
    assert(runnable(d.skip(2)));
}

/// Law: runnable commands followed by runnable commands are runnable.
pub proof fn law_runnable_concat(a: Seq<Seq<char>>, b: Seq<Seq<char>>)
    requires
        runnable(a),
        runnable(b),
    ensures
        runnable(a + b),
    decreases a.len(),
{
    if a.len() == 0 {
        assert(a + b =~= b);
    } else {
        let n: int = if a[0] == "set"@ && a[0] != "get"@ {
            3
        } else {
            2
        };
        assert(a.len() >= n);
        law_runnable_concat(a.skip(n), b);
        assert((a + b).skip(n) =~= a.skip(n) + b);
        assert((a + b)[0] == a[0]);
    }
}

/// A response with its length field.
pub open spec fn framed(order: ByteOrder, resp: Seq<u8>) -> Seq<u8> {
    len_bytes(order, resp.len()) + resp
}

/// Runs the commands on a store: the store after them and their framed
/// responses.
pub open spec fn run_commands(order: ByteOrder, v: StoreView, cmds: Seq<Seq<char>>) -> (StoreView, Seq<u8>)
    decreases cmds.len(),
{
    if cmds.len() == 0 {
        (v, Seq::empty())
    } else if cmds[0] == "get"@ && cmds.len() >= 2 {
        let r = run_commands(order, v, cmds.skip(2));
        (r.0, framed(order, get_response(order, v, cmds[1])) + r.1)
    } else if cmds[0] == "set"@ && cmds.len() >= 3 {
        let r = run_commands(order, v.insert(cmds[1], cmds[2]), cmds.skip(3));
        (r.0, framed(order, set_response(order, v, cmds[1])) + r.1)
    } else if cmds[0] == "del"@ && cmds.len() >= 2 {
        let r = run_commands(order, v.remove(cmds[1]), cmds.skip(2));
        (r.0, framed(order, del_response(order, v, cmds[1])) + r.1)
    } else {
        (v, Seq::empty())
    }
}

/// Whether `s` is the text of `w`.
fn is_word(s: &String, w: &str) -> (r: bool)
    ensures
        r == (s@ == w@),
{
    let word = w.to_owned();
    *s == word
}

/// Runs the command at the head of `cmd` on `table`, appends its response
/// to `out` and advances `offset` past its strings; leaves all three as
/// they are if the head is no command.
pub fn process_request(
    table: &mut HMap,
    cmd: &[String],
    offset: &mut usize,
    out: &mut Vec<u8>,
    order: ByteOrder,
)
    requires
        cmd@.len() >= 1,
        old(table).wf(),
        table_ok(old(table)@),
        *old(offset) + 3 <= usize::MAX,
        cmd@[0]@ == "get"@ ==> cmd@.len() >= 2,
        cmd@[0]@ != "get"@ && cmd@[0]@ == "set"@ ==> cmd@.len() >= 3 && map_len(old(table)@)
            < MAX_ENTRIES && encode_utf8(cmd@[2]@).len() <= MAX_VALUE_SIZE,
        cmd@[0]@ != "get"@ && cmd@[0]@ != "set"@ && cmd@[0]@ == "del"@ ==> cmd@.len() >= 2,
    ensures
        final(table).wf(),
        table_ok(final(table)@),
        ({
            let v = table_view(old(table)@);
            let c = texts(cmd@);
            if c[0] == "get"@ {
                &&& *final(offset) == *old(offset) + 2
                &&& final(out)@ == old(out)@ + get_response(order, v, c[1])
                &&& table_view(final(table)@) == v
                &&& map_len(final(table)@) == map_len(old(table)@)
            } else if c[0] == "set"@ {
                &&& *final(offset) == *old(offset) + 3
                &&& final(out)@ == old(out)@ + set_response(order, v, c[1])
                &&& table_view(final(table)@) == v.insert(c[1], c[2])
                &&& map_len(final(table)@) <= map_len(old(table)@) + 1
            } else if c[0] == "del"@ {
                &&& *final(offset) == *old(offset) + 2
                &&& final(out)@ == old(out)@ + del_response(order, v, c[1])
                &&& table_view(final(table)@) == v.remove(c[1])
                &&& map_len(final(table)@) <= map_len(old(table)@)
            } else {
                &&& *final(offset) == *old(offset)
                &&& final(out)@ == old(out)@
                &&& final(table)@ == old(table)@
            }
        }),
{
    let command = &cmd[0];
    assert(texts(cmd@)[0] == cmd@[0]@);
    assert(cmd@.len() >= 2 ==> texts(cmd@)[1] == cmd@[1]@);
    assert(cmd@.len() >= 3 ==> texts(cmd@)[2] == cmd@[2]@);
    if is_word(command, "get") {
        *offset += 2;
        do_get(table, cmd, out, order);
    } else if is_word(command, "set") {
        *offset += 3;
        do_set(table, cmd, out, order);
    } else if is_word(command, "del") {
        *offset += 2;
        do_del(table, cmd, out, order);
    }
}

/// What the server keeps of a connection: what it wants to do next and the
/// bytes received and still to send.
pub struct Connection {
    pub want_read: bool,
    pub want_write: bool,
    pub want_close: bool,
    /// Bytes received and not yet parsed.
    pub incoming_data: Vec<u8>,
    /// Bytes of responses not yet sent.
    pub outgoing_data: Vec<u8>,
}

impl Connection {
    /// A connection that waits to read, with nothing received or to send.
    pub fn new() -> (c: Self)
        ensures
            c.want_read && !c.want_write && !c.want_close,
            c.incoming_data@ == Seq::<u8>::empty(),
            c.outgoing_data@ == Seq::<u8>::empty(),
    {
        Connection {
            want_read: true,
            want_write: false,
            want_close: false,
            incoming_data: Vec::new(),
            outgoing_data: Vec::new(),
        }
    }
}

/// What the server makes of the bytes it has received.
pub enum RequestStatus {
    /// Not a whole request yet: wait for more.
    Incomplete,
    /// A request announcing no string or too many: close the connection.
    Close,
    /// A whole request: its commands and its size.
    Ready { cmds: Seq<Seq<char>>, size: int },
    /// A request the server cannot take apart or run.
    Fault,
}

/// The status of the bytes `data` received so far: the request at their
/// start announces its size and its number of strings; it is complete once
/// that many bytes have arrived (unless more than [`MAX_MSG_SIZE`] have);
/// its strings are read from all that has arrived.
pub open spec fn request_status(order: ByteOrder, data: Seq<u8>) -> RequestStatus {
    if data.len() < MSG_HEADER_SIZE {
        RequestStatus::Incomplete
    } else if field_at(order, data, 0) > MAX_MSG_SIZE {
        RequestStatus::Fault
    } else if data.len() < field_at(order, data, 0) {
        RequestStatus::Incomplete
    } else if MAX_MSG_SIZE < data.len() {
        RequestStatus::Incomplete
    } else if data.len() < 2 * MSG_HEADER_SIZE {
        RequestStatus::Fault
    } else {
        let n = field_at(order, data, MSG_HEADER_SIZE as int);
        if n > MAX_MSG_SIZE {
            RequestStatus::Fault
        } else if n > MAX_COMMANDS_SIZE || n == 0 {
            RequestStatus::Close
        } else {
            match parse_strings(order, data, 2 * MSG_HEADER_SIZE, n, Seq::empty()) {
                None => RequestStatus::Fault,
                Some((cmds, end)) => if runnable(cmds) {
                    RequestStatus::Ready { cmds, size: end }
                } else {
                    RequestStatus::Fault
                },
            }
        }
    }
}

/// A response appended after a zero length field, whose field is then set,
/// is the framed response.
proof fn lemma_frame_response(order: ByteOrder, a: Seq<u8>, r: Seq<u8>)
    ensures
        set_len_field(order, a + len_bytes(order, 0) + r, a.len() as int, r.len()) == a + framed(order, r),
{
    crate::tvl::lemma_field_lengths();
    let b = a + len_bytes(order, 0) + r;
    assert(b.take(a.len() as int) =~= a);
    assert(b.skip(a.len() + MSG_HEADER_SIZE) =~= r);
    assert(a + len_bytes(order, r.len()) + r =~= a + framed(order, r));
}

/// Responses fit in a message.
proof fn lemma_response_sizes(order: ByteOrder, v: StoreView, k: Seq<char>)
    requires
        v.contains_key(k) ==> encode_utf8(v[k]).len() <= MAX_VALUE_SIZE,
    ensures
        get_response(order, v, k).len() <= MAX_MSG_SIZE,
        set_response(order, v, k).len() <= MAX_MSG_SIZE,
        del_response(order, v, k).len() <= MAX_MSG_SIZE,
{
    crate::tvl::lemma_field_lengths();
}

/// Takes one whole request off the front of what `conn` has received, runs
/// its commands on `table` and queues their framed responses; returns
/// whether it did.  A request announcing no strings or too many makes the
/// connection want to close.
#[verifier::rlimit(40)]
pub fn try_one_request(conn: &mut Connection, table: &mut HMap, order: ByteOrder) -> (progressed: bool)
    requires
        !(request_status(order, old(conn).incoming_data@) is Fault),
        old(table).wf(),
        table_ok(old(table)@),
        map_len(old(table)@) + old(conn).incoming_data@.len() < MAX_ENTRIES,
    ensures
        final(table).wf(),
        table_ok(final(table)@),
        map_len(final(table)@) + final(conn).incoming_data@.len() <= map_len(old(table)@) + old(
            conn,
        ).incoming_data@.len(),
        final(conn).want_read == old(conn).want_read,
        final(conn).want_write == old(conn).want_write,
        request_status(order, old(conn).incoming_data@) matches RequestStatus::Ready { cmds, size } ==> {
            let (v, out) = run_commands(order, table_view(old(table)@), cmds);
            &&& progressed
            &&& final(conn).want_close == old(conn).want_close
            &&& final(conn).incoming_data@ == old(conn).incoming_data@.skip(size)
            &&& final(conn).outgoing_data@ == old(conn).outgoing_data@ + out
            &&& table_view(final(table)@) == v
        },
        request_status(order, old(conn).incoming_data@) is Close ==> {
            &&& !progressed
            &&& final(conn).want_close
            &&& final(conn).incoming_data@ == old(conn).incoming_data@
            &&& final(conn).outgoing_data@ == old(conn).outgoing_data@
            &&& table_view(final(table)@) == table_view(old(table)@)
        },
        request_status(order, old(conn).incoming_data@) is Incomplete ==> {
            &&& !progressed
            &&& final(conn).want_close == old(conn).want_close
            &&& final(conn).incoming_data@ == old(conn).incoming_data@
            &&& final(conn).outgoing_data@ == old(conn).outgoing_data@
            &&& table_view(final(table)@) == table_view(old(table)@)
        },
{
    let ghost data = conn.incoming_data@;
    let ghost v0 = table_view(table@);
    let ghost out0 = conn.outgoing_data@;
    let ghost len0 = map_len(table@);
    if conn.incoming_data.len() < MSG_HEADER_SIZE {
        return false;
    }
    let head = &conn.incoming_data.as_slice()[0..MSG_HEADER_SIZE];
    assert(head@.take(MSG_HEADER_SIZE as int) =~= data.skip(0).take(MSG_HEADER_SIZE as int));
    let total_data_len = get_header(head, order);
    if conn.incoming_data.len() < total_data_len {
        return false;
    }
    if MAX_MSG_SIZE < conn.incoming_data.len() {
        return false;
    }
    let count = &conn.incoming_data.as_slice()[MSG_HEADER_SIZE..MSG_HEADER_SIZE * 2];
    assert(count@.take(MSG_HEADER_SIZE as int) =~= data.skip(MSG_HEADER_SIZE as int).take(
        MSG_HEADER_SIZE as int,
    ));
    let commands_len = get_header(count, order);
    if commands_len > MAX_COMMANDS_SIZE {
        assert(request_status(order, data) is Close);
        conn.want_close = true;
        return false;
    };
    let mut cmd: Vec<String> = Vec::with_capacity(commands_len);
    assert(texts(cmd@) =~= Seq::<Seq<char>>::empty());
    let parsed_size = parse_request(conn.incoming_data.as_slice(), &mut cmd, order);
    proof {
        if commands_len > 0 {
            lemma_parse_strings_bounds(order, data, 2 * MSG_HEADER_SIZE, commands_len as nat, Seq::empty());
        }
    }
    if parsed_size == 0 {
        conn.want_close = true;
        return false;
    }
    let ghost cmds = texts(cmd@);
    proof {
        lemma_parse_strings_bounds(order, data, 2 * MSG_HEADER_SIZE, commands_len as nat, Seq::empty());
        assert(cmds.len() <= data.len()) by (nonlinear_arith)
            requires
                2 * 8 + 8 * cmds.len() <= data.len(),
        ;
    }
    let ghost target = run_commands(order, v0, cmds);
    assert(cmds.skip(0) =~= cmds);
    let mut offset: usize = 0;
    while offset < cmd.len()
        invariant
            cmds == texts(cmd@),
            cmds.len() <= data.len(),
            data.len() <= MAX_MSG_SIZE,
            len0 + data.len() < MAX_ENTRIES,
            forall|i: int|
                0 <= i < cmds.len() ==> 3 * MSG_HEADER_SIZE + encode_utf8(#[trigger] cmds[i]).len()
                    <= data.len(),
            offset <= cmds.len(),
            runnable(cmds.skip(offset as int)),
            table.wf(),
            table_ok(table@),
            map_len(table@) <= len0 + offset,
            conn.outgoing_data@ + run_commands(order, table_view(table@), cmds.skip(offset as int)).1
                == out0 + target.1,
            run_commands(order, table_view(table@), cmds.skip(offset as int)).0 == target.0,
            conn.incoming_data@ == data,
            conn.want_close == old(conn).want_close,
            conn.want_read == old(conn).want_read,
            conn.want_write == old(conn).want_write,
        decreases cmds.len() - offset,
    {
        let ghost rest = cmds.skip(offset as int);
        let ghost v = table_view(table@);
        let ghost out_before = conn.outgoing_data@;
        proof {
            if v.contains_key(rest[1]) {
                lemma_values_fit(table@, rest[1]);
            }
            lemma_response_sizes(order, v, rest[1]);
            assert(rest[0] == cmds[offset as int]);
            assert(rest.len() >= 2 ==> rest[1] == cmds[offset + 1]);
            assert(rest.len() >= 3 ==> rest[2] == cmds[offset + 2]);
        }
        let header = response_begin(&mut conn.outgoing_data, order);
        let sub = &cmd.as_slice()[offset..cmd.len()];
        assert(texts(sub@) =~= rest);
        process_request(table, sub, &mut offset, &mut conn.outgoing_data, order);
        let ghost resp = conn.outgoing_data@.skip(out_before.len() + MSG_HEADER_SIZE);
        proof {
            crate::tvl::lemma_field_lengths();
            assert(conn.outgoing_data@ =~= out_before + len_bytes(order, 0) + resp);
            lemma_frame_response(order, out_before, resp);
        }
        response_end(&mut conn.outgoing_data, header, order);
        proof {
            if rest[0] == "get"@ {
                assert(rest.skip(2) =~= cmds.skip(offset as int));
            } else if rest[0] == "set"@ {
                assert(rest.skip(3) =~= cmds.skip(offset as int));
            } else {
                assert(rest.skip(2) =~= cmds.skip(offset as int));
            }
        }
    }
    proof {
        assert(cmds.skip(offset as int) =~= Seq::<Seq<char>>::empty());
    }
    buf_consume(&mut conn.incoming_data, parsed_size);
    true
}

/// The kind of a [`RequestStatus`], as a value the server can act on.
#[derive(Clone, Copy, Debug, PartialEq, Eq, Structural)]
pub enum RequestKind {
    Incomplete,
    Close,
    Ready,
    Fault,
}

/// The kind of a status.
pub open spec fn kind_of(s: RequestStatus) -> RequestKind {
    match s {
        RequestStatus::Incomplete => RequestKind::Incomplete,
        RequestStatus::Close => RequestKind::Close,
        RequestStatus::Ready { .. } => RequestKind::Ready,
        RequestStatus::Fault => RequestKind::Fault,
    }
}

/// Reads the length field at `off`, whatever it holds.
pub fn length_field(data: &[u8], off: usize, order: ByteOrder) -> (n: u64)
    requires
        off + MSG_HEADER_SIZE <= data@.len(),
    ensures
        n == field_at(order, data@, off as int),
{
    let _available = data.len();
    let part = &data[off..off + MSG_HEADER_SIZE];
    assert(part@ =~= data@.skip(off as int).take(MSG_HEADER_SIZE as int));
    u64_from_bytes(part, order)
}

/// Whether `k` strings can be read from `data` at `off`.
fn strings_fit(data: &[u8], off: usize, k: usize, order: ByteOrder) -> (r: bool)
    ensures
        r == parse_strings(order, data@, off as int, k as nat, Seq::empty()) is Some,
{
    let ghost mut acc: Seq<Seq<char>> = Seq::empty();
    let ghost target = parse_strings(order, data@, off as int, k as nat, Seq::empty());
    let len = data.len();
    let mut pos = off;
    let mut left = k;
    while left > 0
        invariant
            len == data@.len(),
            target == parse_strings(order, data@, off as int, k as nat, Seq::empty()),
            parse_strings(order, data@, pos as int, left as nat, acc) is Some == target is Some,
        decreases left,
    {
        if len < MSG_HEADER_SIZE || pos > len - MSG_HEADER_SIZE {
            assert(parse_strings(order, data@, pos as int, left as nat, acc) is None);
            return false;
        }
        let n = length_field(data, pos, order);
        if n > MAX_MSG_SIZE as u64 {
            return false;
        }
        let n = n as usize;
        if n > len - (pos + MSG_HEADER_SIZE) {
            return false;
        }
        proof {
            acc = acc.push(
                message_text(data@.subrange(pos + MSG_HEADER_SIZE, pos + MSG_HEADER_SIZE + n)),
            );
        }
        pos = pos + MSG_HEADER_SIZE + n;
        left = left - 1;
    }
    true
}

/// Whether the strings form runnable commands.
fn commands_runnable(cmds: &Vec<String>) -> (r: bool)
    ensures
        r == runnable(texts(cmds@)),
{
    let ghost c = texts(cmds@);
    let mut i: usize = 0;
    assert(c.skip(0) =~= c);
    while i < cmds.len()
        invariant
            c == texts(cmds@),
            i <= cmds@.len(),
            runnable(c) == runnable(c.skip(i as int)),
        decreases cmds@.len() - i,
    {
        let ghost rest = c.skip(i as int);
        assert(rest[0] == cmds@[i as int]@);
        let n = cmds.len() - i;
        if is_word(&cmds[i], "get") {
            if n < 2 {
                return false;
            }
            assert(rest.skip(2) =~= c.skip(i + 2));
            i = i + 2;
        } else if is_word(&cmds[i], "set") {
            if n < 3 {
                return false;
            }
            assert(rest.skip(3) =~= c.skip(i + 3));
            i = i + 3;
        } else if is_word(&cmds[i], "del") {
            if n < 2 {
                return false;
            }
            assert(rest.skip(2) =~= c.skip(i + 2));
            i = i + 2;
        } else {
            return false;
        }
    }
    assert(c.skip(i as int) =~= Seq::<Seq<char>>::empty());
    true
}

/// The kind of what `data` holds, as [`request_status`] describes it.
pub fn check_request(data: &[u8], order: ByteOrder) -> (k: RequestKind)
    ensures
        k == kind_of(request_status(order, data@)),
{
    let len = data.len();
    if len < MSG_HEADER_SIZE {
        return RequestKind::Incomplete;
    }
    let total = length_field(data, 0, order);
    if total > MAX_MSG_SIZE as u64 {
        return RequestKind::Fault;
    }
    if len < total as usize {
        return RequestKind::Incomplete;
    }
    if MAX_MSG_SIZE < len {
        return RequestKind::Incomplete;
    }
    if len < 2 * MSG_HEADER_SIZE {
        return RequestKind::Fault;
    }
    let n = length_field(data, MSG_HEADER_SIZE, order);
    if n > MAX_MSG_SIZE as u64 {
        return RequestKind::Fault;
    }
    if n > MAX_COMMANDS_SIZE as u64 || n == 0 {
        return RequestKind::Close;
    }
    if !strings_fit(data, 2 * MSG_HEADER_SIZE, n as usize, order) {
        return RequestKind::Fault;
    }
    let mut cmds: Vec<String> = Vec::new();
    assert(texts(cmds@) =~= Seq::<Seq<char>>::empty());
    parse_request(data, &mut cmds, order);
    if commands_runnable(&cmds) {
        RequestKind::Ready
    } else {
        RequestKind::Fault
    }
}

/// What serving the bytes received leaves.
pub struct Served {
    /// The bytes not taken as requests.
    pub left: Seq<u8>,
    /// The framed responses queued.
    pub out: Seq<u8>,
    /// The store afterwards.
    pub view: StoreView,
    /// Whether the connection wants to close.
    pub close: bool,
    /// Whether a request could not be taken apart or run.
    pub fault: bool,
}

/// Serves the requests at the front of `data` one after the other, until
/// one is incomplete, asks to close, or cannot be served.
pub open spec fn serve(order: ByteOrder, data: Seq<u8>, v: StoreView, close: bool) -> Served
    decreases data.len(),
{
    match request_status(order, data) {
        RequestStatus::Ready { cmds, size } => {
            if 0 < size <= data.len() {
                let (v1, o1) = run_commands(order, v, cmds);
                let r = serve(order, data.skip(size), v1, close);
                Served { left: r.left, out: o1 + r.out, view: r.view, close: r.close, fault: r.fault }
            } else {
                Served { left: data, out: Seq::empty(), view: v, close, fault: false }
            }
        },
        RequestStatus::Close => Served { left: data, out: Seq::empty(), view: v, close: true, fault: false },
        RequestStatus::Incomplete => Served { left: data, out: Seq::empty(), view: v, close, fault: false },
        RequestStatus::Fault => Served { left: data, out: Seq::empty(), view: v, close, fault: true },
    }
}

/// A whole request takes at least its two length fields and lies within
/// what has arrived.
proof fn lemma_ready_size(order: ByteOrder, data: Seq<u8>)
    requires
        request_status(order, data) is Ready,
    ensures
        ({
            let size = request_status(order, data)->size;
            2 * MSG_HEADER_SIZE <= size <= data.len()
        }),
{
    let n = field_at(order, data, MSG_HEADER_SIZE as int);
    lemma_parse_strings_bounds(order, data, 2 * MSG_HEADER_SIZE, n, Seq::empty());
}

/// What the server should do after taking in what it read.
#[derive(Clone, Copy, Debug, PartialEq, Eq, Structural)]
pub enum ReadNext {
    /// Report this many bytes handled.
    Return(usize),
    /// Responses are queued: send them and report what was sent.
    Write,
    /// A request cannot be served: stop.
    Fault,
}

/// Takes in the outcome of a read on `conn`: `None` for an error, empty
/// bytes for the end of the stream (both make the connection want to
/// close), else the bytes read, which are appended and served as whole
/// requests while there are some.  If responses are then queued the
/// connection turns to writing.
pub fn handle_read(
    conn: &mut Connection,
    table: &mut HMap,
    received: Option<&[u8]>,
    order: ByteOrder,
) -> (next: ReadNext)
    requires
        old(table).wf(),
        table_ok(old(table)@),
        received matches Some(d) ==> map_len(old(table)@) + old(conn).incoming_data@.len() + d@.len()
            < MAX_ENTRIES,
    ensures
        final(table).wf(),
        table_ok(final(table)@),
        received is Some && received->0@.len() > 0 ==> ({
            let r = serve(order, 
                old(conn).incoming_data@ + received->0@,
                table_view(old(table)@),
                old(conn).want_close,
            );
            if r.fault {
                next == ReadNext::Fault
            } else {
                let out = old(conn).outgoing_data@ + r.out;
                &&& final(conn).incoming_data@ == r.left
                &&& final(conn).outgoing_data@ == out
                &&& table_view(final(table)@) == r.view
                &&& final(conn).want_close == r.close
                &&& if out.len() > 0 {
                    &&& next == ReadNext::Write
                    &&& !final(conn).want_read
                    &&& final(conn).want_write
                } else {
                    &&& next == ReadNext::Return(received->0@.len() as usize)
                    &&& final(conn).want_read == old(conn).want_read
                    &&& final(conn).want_write == old(conn).want_write
                }
            }
        }),
        received is None || received->0@.len() == 0 ==> {
            &&& next == ReadNext::Return(0)
            &&& final(conn).want_close
            &&& final(conn).want_read == old(conn).want_read
            &&& final(conn).want_write == old(conn).want_write
            &&& final(conn).incoming_data@ == old(conn).incoming_data@
            &&& final(conn).outgoing_data@ == old(conn).outgoing_data@
            &&& final(table)@ == old(table)@
        },
{
    let d = match received {
        None => {
            conn.want_close = true;
            return ReadNext::Return(0);
        },
        Some(d) => d,
    };
    if d.len() == 0 {
        conn.want_close = true;
        return ReadNext::Return(0);
    }
    buf_append(&mut conn.incoming_data, d, d.len());
    assert(d@.take(d@.len() as int) =~= d@);
    let ghost target = serve(order, conn.incoming_data@, table_view(table@), conn.want_close);
    let ghost out0 = conn.outgoing_data@;
    loop
        invariant
            table.wf(),
            table_ok(table@),
            map_len(table@) + conn.incoming_data@.len() < MAX_ENTRIES,
            conn.want_read == old(conn).want_read,
            conn.want_write == old(conn).want_write,
            ({
                let r = serve(order, conn.incoming_data@, table_view(table@), conn.want_close);
                &&& r.left == target.left
                &&& out0 + target.out == conn.outgoing_data@ + r.out
                &&& r.view == target.view
                &&& r.close == target.close
                &&& r.fault == target.fault
            }),
            out0 == old(conn).outgoing_data@,
            received == Some(d),
            d@.len() > 0,
            target == serve(order, 
                old(conn).incoming_data@ + d@,
                table_view(old(table)@),
                old(conn).want_close,
            ),
        ensures
            !target.fault,
            conn.incoming_data@ == target.left,
            conn.outgoing_data@ == out0 + target.out,
            table_view(table@) == target.view,
            conn.want_close == target.close,
            conn.want_read == old(conn).want_read,
            conn.want_write == old(conn).want_write,
            table.wf(),
            table_ok(table@),
        decreases conn.incoming_data@.len(),
    {
        let ghost before = conn.incoming_data@;
        if check_request(conn.incoming_data.as_slice(), order) == RequestKind::Fault {
            return ReadNext::Fault;
        }
        proof {
            if request_status(order, before) is Ready {
                lemma_ready_size(order, before);
            }
        }
        if !try_one_request(conn, table, order) {
            assert(conn.outgoing_data@ =~= conn.outgoing_data@ + Seq::<u8>::empty());
            break;
        }
    }
    if conn.outgoing_data.len() > 0 {
        conn.want_read = false;
        conn.want_write = true;
        return ReadNext::Write;
    }
    ReadNext::Return(d.len())
}

/// Takes in the outcome of a write of the queued bytes of `conn`: `None`
/// for an error, which changes nothing; zero bytes written makes the
/// connection want to close; otherwise the bytes written leave the queue,
/// and a queue left empty turns the connection back to reading.  Returns
/// the number of bytes written.
pub fn handle_write(conn: &mut Connection, written: Option<usize>) -> (n: usize)
    requires
        written matches Some(k) ==> k <= old(conn).outgoing_data@.len(),
    ensures
        final(conn).incoming_data@ == old(conn).incoming_data@,
        match written {
            Some(0) => {
                &&& n == 0
                &&& final(conn).want_close
                &&& final(conn).want_read == old(conn).want_read
                &&& final(conn).want_write == old(conn).want_write
                &&& final(conn).outgoing_data@ == old(conn).outgoing_data@
            },
            Some(k) => {
                let rest = old(conn).outgoing_data@.skip(k as int);
                &&& n == k
                &&& final(conn).want_close == old(conn).want_close
                &&& final(conn).outgoing_data@ == rest
                &&& final(conn).want_read == (rest.len() == 0 || old(conn).want_read)
                &&& final(conn).want_write == (rest.len() != 0 && old(conn).want_write)
            },
            None => {
                &&& n == 0
                &&& final(conn).want_close == old(conn).want_close
                &&& final(conn).want_read == old(conn).want_read
                &&& final(conn).want_write == old(conn).want_write
                &&& final(conn).outgoing_data@ == old(conn).outgoing_data@
            },
        },
{
    match written {
        Some(0) => {
            conn.want_close = true;
            0
        },
        Some(size) => {
            buf_consume(&mut conn.outgoing_data, size);
            if conn.outgoing_data.len() == 0 {
                conn.want_read = true;
                conn.want_write = false;
            }
            size
        },
        None => 0,
    }
}

/// The string that `bytes` start with: a length field and that many bytes
/// of UTF-8 (the empty string if they are not valid UTF-8).
pub fn get_str(bytes: &[u8], order: ByteOrder) -> (s: String)
    requires
        bytes@.len() >= MSG_HEADER_SIZE,
        MSG_HEADER_SIZE + field_at(order, bytes@, 0) <= bytes@.len(),
    ensures
        s@ == message_text(bytes@.subrange(
            MSG_HEADER_SIZE as int,
            MSG_HEADER_SIZE + field_at(order, bytes@, 0),
        )),
{
    let available = bytes.len();
    let size_field = length_field(bytes, 0, order);
    assert(size_field <= available);
    let str_size = size_field as usize;
    get_message(bytes, MSG_HEADER_SIZE, str_size)
}

/// A response as a client reads it.
pub enum Response {
    /// No value.
    Nil { code: ResponseCode },
    /// An error message.
    Error { code: ResponseCode, message: String },
    /// A string.
    Str { code: ResponseCode, message: String },
    /// A 32-bit integer.
    Int { code: ResponseCode, value: i32 },
    /// A float, as the bytes that encode it.
    Float { code: ResponseCode, bits: [u8; 8] },
}

/// Where the value of a framed response starts: after its length field,
/// data type and response code.
pub const VALUE_OFFSET: usize = MSG_HEADER_SIZE + DATA_TYPE_SIZE + RESPONSE_CODE_SIZE;

/// The data type byte of a framed response.
pub open spec fn type_byte(b: Seq<u8>) -> u8 {
    b[MSG_HEADER_SIZE as int]
}

/// The response code number of a framed response.
pub open spec fn code_number(order: ByteOrder, b: Seq<u8>) -> u32 {
    u32_value(order, b.subrange(MSG_HEADER_SIZE + DATA_TYPE_SIZE, VALUE_OFFSET as int))
}

/// `b` holds a framed response a client can read: a known data type other
/// than an array, a known response code, and a value that fits.
pub open spec fn response_decodable(order: ByteOrder, b: Seq<u8>) -> bool {
    &&& b.len() >= VALUE_OFFSET
    &&& type_byte(b) <= 4
    &&& code_number(order, b) <= 7
    &&& (type_byte(b) == 1 || type_byte(b) == 2) ==> b.len() >= VALUE_OFFSET + MSG_HEADER_SIZE
        && VALUE_OFFSET + MSG_HEADER_SIZE + field_at(order, b, VALUE_OFFSET as int) <= b.len()
    &&& type_byte(b) == 3 ==> b.len() >= VALUE_OFFSET + 4
    &&& type_byte(b) == 4 ==> b.len() >= VALUE_OFFSET + 8
}

/// The text of the string value of a framed response.
pub open spec fn text_value(order: ByteOrder, b: Seq<u8>) -> Seq<char> {
    message_text(
        b.subrange(
            VALUE_OFFSET + MSG_HEADER_SIZE,
            VALUE_OFFSET + MSG_HEADER_SIZE + field_at(order, b, VALUE_OFFSET as int),
        ),
    )
}

/// Whether `bytes` hold a framed response a client can read, as
/// [`response_decodable`] describes it.
pub fn check_response(bytes: &[u8], order: ByteOrder) -> (ok: bool)
    ensures
        ok == response_decodable(order, bytes@),
{
    let len = bytes.len();
    if len < VALUE_OFFSET {
        return false;
    }
    let t = bytes[MSG_HEADER_SIZE];
    if t > 4 {
        return false;
    }
    let code = u32_from_bytes(&bytes[MSG_HEADER_SIZE + DATA_TYPE_SIZE..VALUE_OFFSET], order);
    if code > 7 {
        return false;
    }
    if t == 1 || t == 2 {
        if len < VALUE_OFFSET + MSG_HEADER_SIZE {
            return false;
        }
        let n = length_field(bytes, VALUE_OFFSET, order);
        if n > (len - (VALUE_OFFSET + MSG_HEADER_SIZE)) as u64 {
            return false;
        }
    }
    if t == 3 && len < VALUE_OFFSET + 4 {
        return false;
    }
    if t == 4 && len < VALUE_OFFSET + 8 {
        return false;
    }
    true
}

/// Reads the framed response that `bytes` start with.
pub fn decode_response(bytes: &[u8], order: ByteOrder) -> (r: Response)
    requires
        response_decodable(order, bytes@),
    ensures
        ({
            let b = bytes@;
            let code = ResponseCode::from_code(code_number(order, b));
            match r {
                Response::Nil { code: c } => type_byte(b) == 0 && c == code,
                Response::Error { code: c, message } => type_byte(b) == 1 && c == code
                    && message@ == text_value(order, b),
                Response::Str { code: c, message } => type_byte(b) == 2 && c == code
                    && message@ == text_value(order, b),
                Response::Int { code: c, value } => type_byte(b) == 3 && c == code && value
                    == u32_value(order, b.subrange(VALUE_OFFSET as int, VALUE_OFFSET + 4)) as i32,
                Response::Float { code: c, bits } => type_byte(b) == 4 && c == code && bits@ == b.subrange(
                    VALUE_OFFSET as int,
                    VALUE_OFFSET + 8,
                ),
            }
        }),
{
    let len = bytes.len();
    let data_type_code = DataType::from_ne_bytes(
        &bytes[MSG_HEADER_SIZE..MSG_HEADER_SIZE + DATA_TYPE_SIZE],
    );
    let response_code = ResponseCode::from_ne_bytes(
        &bytes[MSG_HEADER_SIZE + DATA_TYPE_SIZE..MSG_HEADER_SIZE + DATA_TYPE_SIZE
            + RESPONSE_CODE_SIZE],
        order,
    );
    let offset = VALUE_OFFSET;
    match data_type_code {
        DataType::NIL => Response::Nil { code: response_code },
        DataType::ERR => {
            let rest = &bytes[offset..len];
            proof {
                assert(rest@.skip(0).take(MSG_HEADER_SIZE as int) =~= bytes@.skip(offset as int).take(MSG_HEADER_SIZE as int));
                assert(rest@.subrange(MSG_HEADER_SIZE as int, MSG_HEADER_SIZE + field_at(order, rest@, 0))
                    =~= bytes@.subrange(VALUE_OFFSET + MSG_HEADER_SIZE, VALUE_OFFSET + MSG_HEADER_SIZE + field_at(order, bytes@, VALUE_OFFSET as int)));
            }
            let message = get_str(rest, order);
            Response::Error { code: response_code, message }
        },
        DataType::STR => {
            let rest = &bytes[offset..len];
            proof {
                assert(rest@.skip(0).take(MSG_HEADER_SIZE as int) =~= bytes@.skip(offset as int).take(MSG_HEADER_SIZE as int));
                assert(rest@.subrange(MSG_HEADER_SIZE as int, MSG_HEADER_SIZE + field_at(order, rest@, 0))
                    =~= bytes@.subrange(VALUE_OFFSET + MSG_HEADER_SIZE, VALUE_OFFSET + MSG_HEADER_SIZE + field_at(order, bytes@, VALUE_OFFSET as int)));
            }
            let message = get_str(rest, order);
            Response::Str { code: response_code, message }
        },
        DataType::INT => {
            let v = u32_from_bytes(&bytes[offset..offset + 4], order);
            Response::Int { code: response_code, value: v as i32 }
        },
        DataType::FLT => {
            let bits = [
                bytes[offset],
                bytes[offset + 1],
                bytes[offset + 2],
                bytes[offset + 3],
                bytes[offset + 4],
                bytes[offset + 5],
                bytes[offset + 6],
                bytes[offset + 7],
            ];
            assert(bits@ =~= bytes@.subrange(VALUE_OFFSET as int, VALUE_OFFSET + 8));
            Response::Float { code: response_code, bits }
        },
        DataType::ARR => Response::Nil { code: response_code },
    }
}

/// The head of a framed value: its length field, type and code read back.
proof fn lemma_response_head(order: ByteOrder, t: DataType, code: ResponseCode, tail: Seq<u8>, rest: Seq<u8>)
    ensures
        ({
            let b = len_bytes(order, (DATA_TYPE_SIZE + RESPONSE_CODE_SIZE + tail.len()) as nat) + (seq![t.code()]
                + code_bytes(order, code) + tail) + rest;
            &&& b.len() >= VALUE_OFFSET
            &&& type_byte(b) == t.code()
            &&& code_number(order, b) == code.code()
            &&& b.subrange(VALUE_OFFSET as int, b.len() as int) == tail + rest
        }),
{
    crate::tvl::lemma_field_lengths();
    crate::tvl::law_code_roundtrip(order, code);
    let b = len_bytes(order, (DATA_TYPE_SIZE + RESPONSE_CODE_SIZE + tail.len()) as nat) + (seq![t.code()]
        + code_bytes(order, code) + tail) + rest;
    assert(b.subrange(MSG_HEADER_SIZE + DATA_TYPE_SIZE, VALUE_OFFSET as int) =~= code_bytes(order, code));
    assert(b.subrange(VALUE_OFFSET as int, b.len() as int) =~= tail + rest);
}

/// Law: a framed string or error response, followed by anything, reads back
/// as its type, its code and its text.
pub proof fn law_text_response_roundtrip(order: ByteOrder, 
    t: DataType,
    code: ResponseCode,
    s: Seq<char>,
    rest: Seq<u8>,
)
    requires
        t == DataType::STR || t == DataType::ERR,
        encode_utf8(s).len() <= MAX_MSG_SIZE,
    ensures
        ({
            let b = framed(order, text_bytes(order, t, code, encode_utf8(s))) + rest;
            &&& response_decodable(order, b)
            &&& type_byte(b) == t.code()
            &&& ResponseCode::from_code(code_number(order, b)) == code
            &&& text_value(order, b) == s
        }),
{
    crate::tvl::lemma_field_lengths();
    crate::tvl::law_code_roundtrip(order, code);
    let e = encode_utf8(s);
    let tail = len_bytes(order, e.len()) + e;
    let resp = text_bytes(order, t, code, e);
    assert(resp =~= seq![t.code()] + code_bytes(order, code) + tail);
    lemma_response_head(order, t, code, tail, rest);
    let b = framed(order, resp) + rest;
    assert(b =~= len_bytes(order, (DATA_TYPE_SIZE + RESPONSE_CODE_SIZE + tail.len()) as nat) + (seq![t.code()] + code_bytes(order, code) + tail) + rest);
    let v = b.subrange(VALUE_OFFSET as int, b.len() as int);
    assert(v == tail + rest);
    assert(b.subrange(VALUE_OFFSET as int, VALUE_OFFSET + MSG_HEADER_SIZE) =~= len_bytes(order, e.len())) by {
        assert forall|i: int| 0 <= i < MSG_HEADER_SIZE implies b.subrange(VALUE_OFFSET as int, VALUE_OFFSET + MSG_HEADER_SIZE)[i] == len_bytes(order, e.len())[i] by {
            assert(v[i] == (tail + rest)[i]);
        }
    }
    lemma_len_field(order, b, VALUE_OFFSET as int, e.len());
    assert(b.subrange(VALUE_OFFSET + MSG_HEADER_SIZE, VALUE_OFFSET + MSG_HEADER_SIZE + e.len()) =~= e) by {
        assert forall|i: int| 0 <= i < e.len() implies b.subrange(VALUE_OFFSET + MSG_HEADER_SIZE, VALUE_OFFSET + MSG_HEADER_SIZE + e.len())[i] == e[i] by {
            assert(v[MSG_HEADER_SIZE + i] == (tail + rest)[MSG_HEADER_SIZE + i]);
        }
    }
}

/// Law: a framed response without value, followed by anything, reads back as
/// its code.
pub proof fn law_nil_response_roundtrip(order: ByteOrder, code: ResponseCode, rest: Seq<u8>)
    ensures
        ({
            let b = framed(order, nil_bytes(order, code)) + rest;
            &&& response_decodable(order, b)
            &&& type_byte(b) == DataType::NIL.code()
            &&& ResponseCode::from_code(code_number(order, b)) == code
        }),
{
    crate::tvl::lemma_field_lengths();
    crate::tvl::law_code_roundtrip(order, code);
    let resp = nil_bytes(order, code);
    assert(resp =~= seq![DataType::NIL.code()] + code_bytes(order, code) + Seq::<u8>::empty());
    lemma_response_head(order, DataType::NIL, code, Seq::empty(), rest);
    assert(framed(order, resp) + rest =~= len_bytes(order, (DATA_TYPE_SIZE + RESPONSE_CODE_SIZE) as nat) + (seq![DataType::NIL.code()] + code_bytes(order, code) + Seq::<u8>::empty()) + rest);
}

/// Law: a framed integer response, followed by anything, reads back as its
/// code and its value.
pub proof fn law_int_response_roundtrip(order: ByteOrder, code: ResponseCode, val: i32, rest: Seq<u8>)
    ensures
        ({
            let b = framed(order, int_bytes(order, code, val)) + rest;
            &&& response_decodable(order, b)
            &&& type_byte(b) == DataType::INT.code()
            &&& ResponseCode::from_code(code_number(order, b)) == code
            &&& u32_value(order, b.subrange(VALUE_OFFSET as int, VALUE_OFFSET + 4)) as i32 == val
        }),
{
    crate::tvl::lemma_field_lengths();
    crate::tvl::law_code_roundtrip(order, code);
    lemma_int_bytes();
    let tail = u32_bytes(order, val as u32);
    assert(tail.len() == 4);
    let resp = int_bytes(order, code, val);
    lemma_response_head(order, DataType::INT, code, tail, rest);
    let b = framed(order, resp) + rest;
    assert(b =~= len_bytes(order, (DATA_TYPE_SIZE + RESPONSE_CODE_SIZE + tail.len()) as nat) + (seq![DataType::INT.code()] + code_bytes(order, code) + tail) + rest);
    let v = b.subrange(VALUE_OFFSET as int, b.len() as int);
    assert(b.subrange(VALUE_OFFSET as int, VALUE_OFFSET + 4) =~= tail) by {
        assert forall|i: int| 0 <= i < 4 implies b.subrange(VALUE_OFFSET as int, VALUE_OFFSET + 4)[i] == tail[i] by {
            assert(v[i] == (tail + rest)[i]);
        }
    }
    assert((val as u32) as i32 == val) by (bit_vector);
}

/// Law: a request framed from runnable commands, once all of it has
/// arrived, is served whole: its commands run on the store and their framed
/// responses are queued.
pub proof fn law_request_served(order: ByteOrder, cs: Seq<Seq<char>>, v: StoreView, close: bool)
    requires
        request_bytes(order, encodings(cs)).len() <= MAX_MSG_SIZE,
        1 <= cs.len() <= MAX_COMMANDS_SIZE,
        runnable(cs),
    ensures
        ({
            let d = request_bytes(order, encodings(cs));
            &&& request_status(order, d) == RequestStatus::Ready { cmds: cs, size: d.len() as int }
            &&& serve(order, d, v, close) == Served {
                left: Seq::empty(),
                out: run_commands(order, v, cs).1,
                view: run_commands(order, v, cs).0,
                close,
                fault: false,
            }
        }),
{
    law_request_roundtrip(order, cs);
    crate::tvl::lemma_field_lengths();
    let d = request_bytes(order, encodings(cs));
    assert(d.len() >= 2 * MSG_HEADER_SIZE);
    assert(field_at(order, d, 0) == d.len());
    assert(field_at(order, d, MSG_HEADER_SIZE as int) == cs.len());
    assert(parse_strings(order, d, 2 * MSG_HEADER_SIZE, cs.len(), Seq::empty()) == Some((cs, d.len() as int)));
    assert(request_status(order, d) == RequestStatus::Ready { cmds: cs, size: d.len() as int });
    let e = d.skip(d.len() as int);
    assert(e =~= Seq::<u8>::empty());
    let r = run_commands(order, v, cs);
    assert(request_status(order, e) == RequestStatus::Incomplete);
    assert(serve(order, e, r.0, close) == Served { left: e, out: Seq::empty(), view: r.0, close, fault: false });
    assert(r.1 + Seq::<u8>::empty() =~= r.1);
}

/// Law: a request of one `del k`, once all of it has arrived, is whole and
/// runnable: it is served by deleting `k` and queuing the framed answer.
pub proof fn law_del_request_served(order: ByteOrder, k: Seq<char>, v: StoreView, close: bool)
    requires
        request_bytes(order, encodings(seq!["del"@, k])).len() <= MAX_MSG_SIZE,
    ensures
        ({
            let d = request_bytes(order, encodings(seq!["del"@, k]));
            &&& request_status(order, d) == RequestStatus::Ready {
                cmds: seq!["del"@, k],
                size: d.len() as int,
            }
            &&& serve(order, d, v, close) == Served {
                left: Seq::empty(),
                out: framed(order, del_response(order, v, k)),
                view: v.remove(k),
                close,
                fault: false,
            }
        }),
{
    law_commands_runnable(k, k);
    lemma_words_differ();
    let cs = seq!["del"@, k];
    law_request_served(order, cs, v, close);
    let e = cs.skip(2);
    assert(e =~= Seq::<Seq<char>>::empty());
    assert(run_commands(order, v.remove(k), e) == (v.remove(k), Seq::<u8>::empty()));
    assert(framed(order, del_response(order, v, k)) + Seq::<u8>::empty() =~= framed(
        order,
        del_response(order, v, k),
    ));
}

/// Law: in one request, `set k val` then `get k` answers the `set` and then
/// `val`, and leaves `k` holding `val`.
pub proof fn law_set_then_get_request(order: ByteOrder, v: StoreView, k: Seq<char>, val: Seq<char>)
    ensures
        ({
            let cs = seq!["set"@, k, val, "get"@, k];
            let r = run_commands(order, v, cs);
            &&& runnable(cs)
            &&& r.0 == v.insert(k, val)
            &&& r.1 == framed(order, set_response(order, v, k)) + framed(order, 
                text_bytes(order, DataType::STR, ResponseCode::GetExisting, encode_utf8(val)),
            )
        }),
{
    reveal_strlit("set");
    reveal_strlit("get");
    let cs = seq!["set"@, k, val, "get"@, k];
    assert("set"@ != "get"@) by {
        assert("set"@[0] != "get"@[0]);
    }
    let tail = cs.skip(3);
    assert(tail =~= seq!["get"@, k]);
    let end = tail.skip(2);
    assert(end =~= Seq::<Seq<char>>::empty());
    assert(runnable(end));
    assert(runnable(tail));
    assert(runnable(cs));
    let v1 = v.insert(k, val);
    assert(run_commands(order, v1, end) == (v1, Seq::<u8>::empty()));
    let g = framed(order, text_bytes(order, DataType::STR, ResponseCode::GetExisting, encode_utf8(val)));
    assert(get_response(order, v1, k) == text_bytes(order, DataType::STR, ResponseCode::GetExisting, encode_utf8(val)));
    assert(run_commands(order, v1, tail) == (v1, g + Seq::<u8>::empty()));
    assert(g + Seq::<u8>::empty() =~= g);
    assert(run_commands(order, v, cs) == (v1, framed(order, set_response(order, v, k)) + g));
}

/// Law: in one request, `del k` then `get k` answers the `del` and then
/// that there is nothing.
pub proof fn law_del_then_get_request(order: ByteOrder, v: StoreView, k: Seq<char>)
    ensures
        ({
            let cs = seq!["del"@, k, "get"@, k];
            let r = run_commands(order, v, cs);
            &&& runnable(cs)
            &&& r.0 == v.remove(k)
            &&& r.1 == framed(order, del_response(order, v, k)) + framed(order, nil_bytes(order, ResponseCode::GetNothing))
        }),
{
    reveal_strlit("set");
    reveal_strlit("get");
    reveal_strlit("del");
    let cs = seq!["del"@, k, "get"@, k];
    assert("del"@ != "get"@) by {
        assert("del"@[0] != "get"@[0]);
    }
    assert("del"@ != "set"@) by {
        assert("del"@[0] != "set"@[0]);
    }
    let tail = cs.skip(2);
    assert(tail =~= seq!["get"@, k]);
    let end = tail.skip(2);
    assert(end =~= Seq::<Seq<char>>::empty());
    assert(runnable(end));
    assert(runnable(tail));
    assert(runnable(cs));
    let v1 = v.remove(k);
    assert(run_commands(order, v1, end) == (v1, Seq::<u8>::empty()));
    let g = framed(order, nil_bytes(order, ResponseCode::GetNothing));
    assert(get_response(order, v1, k) == nil_bytes(order, ResponseCode::GetNothing));
    assert(run_commands(order, v1, tail) == (v1, g + Seq::<u8>::empty()));
    assert(g + Seq::<u8>::empty() =~= g);
    assert(run_commands(order, v, cs) == (v1, framed(order, del_response(order, v, k)) + g));
}

} // verus!
