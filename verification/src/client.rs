use vstd::prelude::*;
use vstd::utf8::{decode_utf8, encode_utf8, encode_utf8_decode_utf8, encode_utf8_valid_utf8, valid_utf8};
use crate::server::ser_strs;
use crate::wire::{
    MAX_ARGS, MAX_MSG, args_from, get_le32, get_le64, le32, le64, lemma_le32_roundtrip,
    lemma_le64_roundtrip, put_le32, req_args, ser_arr, ser_err, ser_int, ser_nil, ser_str, u32_at,
    u64_at,
};

verus! {

/// One line of what a client shows of a response.
pub enum Event {
    Nil,
    Error(i32, Vec<u8>),
    Str(Vec<u8>),
    Int(i64),
    /// The start of an array of this many values.
    ArrBegin(u32),
    /// The end of an array whose values all decoded.
    ArrEnd,
}

/// `Event` with its bytes as a sequence.
pub ghost enum EventV {
    Nil,
    Error(i32, Seq<u8>),
    Str(Seq<u8>),
    Int(i64),
    ArrBegin(u32),
    ArrEnd,
}

impl View for Event {
    type V = EventV;

    open spec fn view(&self) -> EventV {
        match self {
            Event::Nil => EventV::Nil,
            Event::Error(code, msg) => EventV::Error(*code, msg@),
            Event::Str(s) => EventV::Str(s@),
            Event::Int(v) => EventV::Int(*v),
            Event::ArrBegin(n) => EventV::ArrBegin(*n),
            Event::ArrEnd => EventV::ArrEnd,
        }
    }
}

/// Why a response could not be decoded.
#[derive(PartialEq, Eq, Structural, Clone, Copy, Debug)]
pub enum DecodeError {
    Empty,
    BadErr,
    BadStr,
    BadInt,
    BadArr,
    UnknownType,
}

pub open spec fn event_views(v: Seq<Event>) -> Seq<EventV> {
    v.map_values(|e: Event| e@)
}

/// Prepends `e` to the events of `r`, and adds `c` to what it consumed.
pub open spec fn join(e: Seq<EventV>, c: nat, r: (Seq<EventV>, Result<nat, DecodeError>)) -> (
    Seq<EventV>,
    Result<nat, DecodeError>,
) {
    (
        e + r.0,
        match r.1 {
            Ok(c2) => Ok(c + c2),
            Err(x) => Err(x),
        },
    )
}

/// Decodes the value at the front of `d`: the events shown for it, and how
/// many bytes it takes or why it cannot be decoded.
pub open spec fn decode(d: Seq<u8>) -> (Seq<EventV>, Result<nat, DecodeError>)
    decreases d.len(), 0nat,
{
    if d.len() == 0 {
        (Seq::empty(), Err(DecodeError::Empty))
    } else if d[0] == 0 {
        (seq![EventV::Nil], Ok(1))
    } else if d[0] == 1 {
        // ERR: [1 byte type][4 byte code][4 byte msg len][msg]
        if d.len() < 9 {
            (Seq::empty(), Err(DecodeError::BadErr))
        } else {
            let mlen = u32_at(d, 5) as int;
            if d.len() < 9 + mlen {
                (Seq::empty(), Err(DecodeError::BadErr))
            } else {
                (
                    seq![EventV::Error(u32_at(d, 1) as i32, d.subrange(9, 9 + mlen))],
                    Ok((9 + mlen) as nat),
                )
            }
        }
    } else if d[0] == 2 {
        // STR: [1 byte type][4 byte len][string bytes]
        if d.len() < 5 {
            (Seq::empty(), Err(DecodeError::BadStr))
        } else {
            let slen = u32_at(d, 1) as int;
            if d.len() < 5 + slen {
                (Seq::empty(), Err(DecodeError::BadStr))
            } else {
                (seq![EventV::Str(d.subrange(5, 5 + slen))], Ok((5 + slen) as nat))
            }
        }
    } else if d[0] == 3 {
        // INT: [1 byte type][8 byte i64]
        if d.len() < 9 {
            (Seq::empty(), Err(DecodeError::BadInt))
        } else {
            (seq![EventV::Int(u64_at(d, 1) as i64)], Ok(9))
        }
    } else if d[0] == 4 {
        // ARR: [1 byte type][4 byte count][element][element]...
        if d.len() < 5 {
            (Seq::empty(), Err(DecodeError::BadArr))
        } else {
            let count = u32_at(d, 1);
            let r = decode_items(d.subrange(5, d.len() as int), count as nat);
            let j = join(seq![EventV::ArrBegin(count)], 5, r);
            if j.1 is Ok {
                (j.0.push(EventV::ArrEnd), j.1)
            } else {
                j
            }
        }
    } else {
        (Seq::empty(), Err(DecodeError::UnknownType))
    }
}

/// Decodes `k` values one after the other from the front of `d`.
pub open spec fn decode_items(d: Seq<u8>, k: nat) -> (Seq<EventV>, Result<nat, DecodeError>)
    decreases d.len(), k,
{
    if k == 0 {
        (Seq::empty(), Ok(0))
    } else {
        let r1 = decode(d);
        match r1.1 {
            Err(e) => (r1.0, Err(e)),
            Ok(c) => if c <= d.len() {
                join(r1.0, c, decode_items(d.subrange(c as int, d.len() as int), (k - 1) as nat))
            } else {
                r1
            },
        }
    }
}

proof fn lemma_decode_len(d: Seq<u8>)
    ensures
        decode(d).1 matches Ok(c) ==> 1 <= c <= d.len(),
    decreases d.len(), 0nat,
{
    if d.len() > 0 && d[0] == 4 && d.len() >= 5 {
        let count = u32_at(d, 1);
        lemma_decode_items_len(d.subrange(5, d.len() as int), count as nat);
    }
}

proof fn lemma_decode_items_len(d: Seq<u8>, k: nat)
    ensures
        decode_items(d, k).1 matches Ok(c) ==> c <= d.len(),
    decreases d.len(), k,
{
    if k > 0 {
        lemma_decode_len(d);
        if let Ok(c) = decode(d).1 {
            lemma_decode_items_len(d.subrange(c as int, d.len() as int), (k - 1) as nat);
        }
    }
}

/// Decodes the value at the front of `data`, appending what is shown of it
/// to `events`.  Returns how many bytes the value takes.
pub fn on_response(data: &[u8], events: &mut Vec<Event>) -> (res: Result<usize, DecodeError>)
    ensures
        event_views(final(events)@) == event_views(old(events)@) + decode(data@).0,
        match res {
            Ok(n) => decode(data@).1 == Ok::<nat, DecodeError>(n as nat),
            Err(e) => decode(data@).1 == Err::<nat, DecodeError>(e),
        },
    decreases data@.len(),
{
    let ghost d = data@;
    let ghost base = event_views(events@);
    if data.len() == 0 {
        proof {
            assert(event_views(events@) =~= base + decode(d).0);
        }
        return Err(DecodeError::Empty);
    }
    let tag = data[0];
    if tag == 0 {
        // NIL
        events.push(Event::Nil);
        proof {
            assert(event_views(events@) =~= base + decode(d).0);
        }
        Ok(1)  // consumed 1 byte
    } else if tag == 1 {
        // ERR: [1 byte type][4 byte code][4 byte msg len][msg]
        if data.len() < 1 + 8 {
            proof {
                assert(event_views(events@) =~= base + decode(d).0);
            }
            return Err(DecodeError::BadErr);
        }
        let code = get_le32(data, 1) as i32;
        let mlen = get_le32(data, 5) as usize;
        if data.len() - 9 < mlen {
            proof {
                assert(event_views(events@) =~= base + decode(d).0);
            }
            return Err(DecodeError::BadErr);
        }
        let mut msg: Vec<u8> = Vec::new();
        msg.extend_from_slice(&data[9..9 + mlen]);
        events.push(Event::Error(code, msg));
        proof {
            assert(msg@ =~= d.subrange(9, 9 + mlen));
            assert(event_views(events@) =~= base + decode(d).0);
        }
        Ok(1 + 8 + mlen)
    } else if tag == 2 {
        // STR: [1 byte type][4 byte len][string bytes]
        if data.len() < 1 + 4 {
            proof {
                assert(event_views(events@) =~= base + decode(d).0);
            }
            return Err(DecodeError::BadStr);
        }
        let slen = get_le32(data, 1) as usize;
        if data.len() - 5 < slen {
            proof {
                assert(event_views(events@) =~= base + decode(d).0);
            }
            return Err(DecodeError::BadStr);
        }
        let mut s: Vec<u8> = Vec::new();
        s.extend_from_slice(&data[5..5 + slen]);
        events.push(Event::Str(s));
        proof {
            assert(s@ =~= d.subrange(5, 5 + slen));
            assert(event_views(events@) =~= base + decode(d).0);
        }
        Ok(1 + 4 + slen)
    } else if tag == 3 {
        // INT: [1 byte type][8 byte i64]
        if data.len() < 1 + 8 {
            proof {
                assert(event_views(events@) =~= base + decode(d).0);
            }
            return Err(DecodeError::BadInt);
        }
        let val = get_le64(data, 1) as i64;
        events.push(Event::Int(val));
        proof {
            assert(event_views(events@) =~= base + decode(d).0);
        }
        Ok(1 + 8)
    } else if tag == 4 {
        // ARR: [1 byte type][4 byte count][element][element]...
        if data.len() < 1 + 4 {
            proof {
                assert(event_views(events@) =~= base + decode(d).0);
            }
            return Err(DecodeError::BadArr);
        }
        let count = get_le32(data, 1);
        events.push(Event::ArrBegin(count));

        // each element is a full serialized value
        // we track how many bytes we have consumed
        let ghost d5 = d.subrange(5, d.len() as int);
        let ghost pre = base.push(EventV::ArrBegin(count));
        let ghost mut evs: Seq<EventV> = Seq::empty();
        let mut consumed: usize = 1 + 4;
        let mut i: u32 = 0;
        proof {
            assert(d.subrange(consumed as int, d.len() as int) =~= d5);
            let r = decode_items(d5, count as nat);
            assert(join(evs, 0, r) =~= r) by {
                assert(evs + r.0 =~= r.0);
            }
            assert(event_views(events@) =~= pre + evs);
        }
        while i < count
            invariant
                5 <= consumed <= d.len(),
                i <= count,
                d == data@,
                d.len() >= 5,
                d[0] == 4,
                count == u32_at(d, 1),
                base == event_views(old(events)@),
                d5 == d.subrange(5, d.len() as int),
                pre == base.push(EventV::ArrBegin(count)),
                event_views(events@) == pre + evs,
                decode_items(d5, count as nat) == join(
                    evs,
                    (consumed - 5) as nat,
                    decode_items(d.subrange(consumed as int, d.len() as int), (count - i) as nat),
                ),
            decreases count - i,
        {
            let ghost sub = d.subrange(consumed as int, d.len() as int);
            let ghost evs0 = evs;
            proof {
                lemma_decode_len(sub);
            }
            match on_response(&data[consumed..data.len()], events) {
                Ok(rv) => {
                    proof {
                        let x = decode_items(sub.subrange(rv as int, sub.len() as int), (count - i - 1) as nat);
                        assert(sub.subrange(rv as int, sub.len() as int) =~= d.subrange(consumed + rv, d.len() as int));
                        assert(join(evs0, (consumed - 5) as nat, join(decode(sub).0, rv as nat, x)) =~= join(
                            evs0 + decode(sub).0,
                            (consumed - 5 + rv) as nat,
                            x,
                        ));
                        evs = evs0 + decode(sub).0;
                        assert(event_views(events@) =~= pre + evs);
                    }
                    consumed += rv;
                },
                Err(e) => {
                    proof {
                        let k = (count - i) as nat;
                        assert(decode_items(sub, k) == (decode(sub).0, Err::<nat, DecodeError>(e)));
                        let r = decode_items(d5, count as nat);
                        assert(r.0 =~= evs0 + decode(sub).0);
                        assert(r.1 is Err);
                        let j = join(seq![EventV::ArrBegin(count)], 5, r);
                        assert(decode(d) == j);
                        assert(event_views(events@) =~= base + decode(d).0);
                    }
                    return Err(e);
                },
            }
            i += 1;
        }
        let ghost before = events@;
        events.push(Event::ArrEnd);
        proof {
            assert(event_views(events@) =~= event_views(before).push(EventV::ArrEnd));
            let rest = decode_items(d.subrange(consumed as int, d.len() as int), 0);
            assert(rest == (Seq::<EventV>::empty(), Ok::<nat, DecodeError>(0)));
            assert(evs + Seq::<EventV>::empty() =~= evs);
            let r = decode_items(d5, count as nat);
            assert(r == (evs, Ok::<nat, DecodeError>((consumed - 5) as nat)));
            let j = join(seq![EventV::ArrBegin(count)], 5, r);
            assert(j.1 == Ok::<nat, DecodeError>(consumed as nat));
            assert(decode(d) == (j.0.push(EventV::ArrEnd), j.1));
            assert(event_views(events@) =~= base + decode(d).0);
        }
        Ok(consumed)
    } else {
        proof {
            assert(event_views(events@) =~= base + decode(d).0);
        }
        Err(DecodeError::UnknownType)
    }
}

// ── requests ────────────────────────────────────────────────────────────────

/// The strings of a request, each as its 4-byte length and its bytes.
pub open spec fn enc_args(bs: Seq<Seq<u8>>) -> Seq<u8>
    decreases bs.len(),
{
    if bs.len() == 0 {
        Seq::empty()
    } else {
        le32(bs[0].len() as u32) + bs[0] + enc_args(bs.drop_first())
    }
}

/// A request body: the number of strings, then the strings.
pub open spec fn req_body(bs: Seq<Seq<u8>>) -> Seq<u8> {
    le32(bs.len() as u32) + enc_args(bs)
}

/// The UTF-8 bytes of each string of a command.
pub open spec fn cmd_bytes(cmd: Seq<&str>) -> Seq<Seq<u8>> {
    cmd.map_values(|s: &str| encode_utf8(s@))
}

proof fn lemma_enc_args_push(bs: Seq<Seq<u8>>, x: Seq<u8>)
    ensures
        enc_args(bs.push(x)) == enc_args(bs) + le32(x.len() as u32) + x,
    decreases bs.len(),
{
    if bs.len() == 0 {
        assert(bs.push(x).drop_first() =~= Seq::<Seq<u8>>::empty());
        assert(bs.push(x)[0] == x);
        assert(enc_args(bs) =~= Seq::<u8>::empty());
        assert(enc_args(bs.push(x).drop_first()) =~= Seq::<u8>::empty());
        assert(enc_args(bs.push(x)) =~= enc_args(bs) + le32(x.len() as u32) + x);
    } else {
        lemma_enc_args_push(bs.drop_first(), x);
        assert(bs.push(x).drop_first() =~= bs.drop_first().push(x));
        assert(enc_args(bs.push(x)) =~= enc_args(bs) + le32(x.len() as u32) + x);
    }
}

proof fn lemma_enc_args_len(bs: Seq<Seq<u8>>, i: int)
    requires
        0 <= i <= bs.len(),
    ensures
        enc_args(bs.subrange(0, i)).len() <= enc_args(bs).len(),
    decreases bs.len() - i,
{
    if i < bs.len() {
        lemma_enc_args_len(bs, i + 1);
        lemma_enc_args_push(bs.subrange(0, i), bs[i]);
        assert(bs.subrange(0, i + 1) =~= bs.subrange(0, i).push(bs[i]));
    } else {
        assert(bs.subrange(0, i) =~= bs);
    }
}

/// The bytes that send a command to the server: the body length, then the
/// body.  `None` when the body would exceed `MAX_MSG`.
pub fn build_req(cmd: &[&str]) -> (res: Option<Vec<u8>>)
    ensures
        ({
            let body = req_body(cmd_bytes(cmd@));
            match res {
                Some(w) => body.len() <= MAX_MSG && w@ == le32(body.len() as u32) + body,
                None => body.len() > MAX_MSG,
            }
        }),
{
    let ghost bs = cmd_bytes(cmd@);
    // total body size:
    // 4 bytes for nstr + for each string: 4 bytes length + string bytes
    let mut body_len: usize = 4;
    let mut i: usize = 0;
    proof {
        assert(bs.subrange(0, 0) =~= Seq::<Seq<u8>>::empty());
    }
    while i < cmd.len()
        invariant
            i <= cmd@.len(),
            bs == cmd_bytes(cmd@),
            body_len <= MAX_MSG,
            body_len == 4 + enc_args(bs.subrange(0, i as int)).len(),
        decreases cmd@.len() - i,
    {
        let n = cmd[i].as_bytes().len();
        proof {
            lemma_enc_args_push(bs.subrange(0, i as int), bs[i as int]);
            assert(bs.subrange(0, i + 1) =~= bs.subrange(0, i as int).push(bs[i as int]));
        }
        if n > MAX_MSG - body_len || 4 > MAX_MSG - body_len - n {
            proof {
                lemma_enc_args_len(bs, i + 1);
                assert(cmd@.len() == bs.len());
            }
            return None;
        }
        body_len = body_len + 4 + n;
        i += 1;
    }
    proof {
        assert(bs.subrange(0, i as int) =~= bs);
    }
    let mut wbuf: Vec<u8> = Vec::new();

    // outer frame length
    put_le32(&mut wbuf, body_len as u32);
    // number of strings
    put_le32(&mut wbuf, cmd.len() as u32);
    let ghost head = wbuf@;
    let mut k: usize = 0;
    proof {
        assert(wbuf@ =~= head + enc_args(bs.subrange(0, 0)));
    }
    // each string: [4 byte length][bytes]
    while k < cmd.len()
        invariant
            k <= cmd@.len(),
            bs == cmd_bytes(cmd@),
            wbuf@ == head + enc_args(bs.subrange(0, k as int)),
        decreases cmd@.len() - k,
    {
        let bytes = cmd[k].as_bytes();
        put_le32(&mut wbuf, bytes.len() as u32);
        wbuf.extend_from_slice(bytes);
        proof {
            lemma_enc_args_push(bs.subrange(0, k as int), bs[k as int]);
            assert(bs.subrange(0, k + 1) =~= bs.subrange(0, k as int).push(bs[k as int]));
            assert(wbuf@ =~= head + enc_args(bs.subrange(0, k + 1)));
        }
        k += 1;
    }
    proof {
        assert(bs.subrange(0, k as int) =~= bs);
        assert(cmd@.len() == bs.len());
        assert(wbuf@ =~= le32(body_len as u32) + req_body(bs));
    }
    Some(wbuf)
}

// ── laws ────────────────────────────────────────────────────────────────────

/// Reading a `u32` at `pos` reads the 4 bytes there.
pub(crate) proof fn lemma_u32_at_prefix(a: Seq<u8>, x: u32, b: Seq<u8>)
    ensures
        u32_at(a + le32(x) + b, a.len() as int) == x,
{
    lemma_le32_roundtrip(x);
    let d = a + le32(x) + b;
    let l = le32(x);
    assert(d[a.len() as int] == l[0]);
    assert(d[a.len() as int + 1] == l[1]);
    assert(d[a.len() as int + 2] == l[2]);
    assert(d[a.len() as int + 3] == l[3]);
}

#[verifier::spinoff_prover]
#[verifier::rlimit(50)]
proof fn lemma_args_from_enc(p: Seq<u8>, bs: Seq<Seq<u8>>)
    requires
        forall|i: int| 0 <= i < bs.len() ==> #[trigger] bs[i].len() < 4294967296,
    ensures
        args_from(p + enc_args(bs), p.len() as int, bs.len()) == Some(bs),
    decreases bs.len(),
{
    let d = p + enc_args(bs);
    if bs.len() == 0 {
        assert(d =~= p);
    } else {
        let x = bs[0];
        let rest = bs.drop_first();
        assert(bs[0].len() < 4294967296);
        assert forall|i: int| 0 <= i < rest.len() implies #[trigger] rest[i].len() < 4294967296 by {
            assert(rest[i] == bs[i + 1]);
        }
        let p2 = p + le32(x.len() as u32) + x;
        assert(enc_args(bs) == le32(x.len() as u32) + x + enc_args(rest));
        assert(d =~= p2 + enc_args(rest));
        assert(d =~= p + le32(x.len() as u32) + (x + enc_args(rest)));
        lemma_u32_at_prefix(p, x.len() as u32, x + enc_args(rest));
        let pos = p.len() as int;
        let sz = u32_at(d, pos) as int;
        assert(sz == x.len());
        assert(pos + 4 + sz <= d.len());
        lemma_args_from_enc(p2, rest);
        assert(p2.len() == pos + 4 + sz);
        assert(args_from(d, pos + 4 + sz, rest.len()) == Some(rest));
        assert(d.subrange(pos + 4, pos + 4 + sz) =~= x);
        assert(seq![x] + rest =~= bs);
    }
}

proof fn lemma_enc_args_elem(bs: Seq<Seq<u8>>, i: int)
    requires
        0 <= i < bs.len(),
    ensures
        bs[i].len() + 4 <= enc_args(bs).len(),
    decreases bs.len(),
{
    if i > 0 {
        lemma_enc_args_elem(bs.drop_first(), i - 1);
    }
}

/// The server reads back, byte for byte, the strings of a request that the
/// client built: the frame announces the body's length, and splitting the
/// body gives the strings.
pub proof fn law_request_roundtrip(bs: Seq<Seq<u8>>)
    requires
        bs.len() <= MAX_ARGS,
        req_body(bs).len() <= MAX_MSG,
    ensures
        ({
            let body = req_body(bs);
            let w = le32(body.len() as u32) + body;
            &&& w.len() == 4 + body.len()
            &&& u32_at(w, 0) == body.len()
            &&& w.subrange(4, w.len() as int) == body
            &&& req_args(body) == Some(bs)
        }),
{
    let body = req_body(bs);
    let w = le32(body.len() as u32) + body;
    lemma_le32_roundtrip(body.len() as u32);
    lemma_u32_at_prefix(Seq::empty(), body.len() as u32, body);
    assert(Seq::<u8>::empty() + le32(body.len() as u32) + body =~= w);
    assert(w.subrange(4, w.len() as int) =~= body);
    lemma_le32_roundtrip(bs.len() as u32);
    lemma_u32_at_prefix(Seq::empty(), bs.len() as u32, enc_args(bs));
    assert(Seq::<u8>::empty() + le32(bs.len() as u32) + enc_args(bs) =~= body);
    assert forall|i: int| 0 <= i < bs.len() implies #[trigger] bs[i].len() < 4294967296 by {
        lemma_enc_args_elem(bs, i);
    }
    lemma_args_from_enc(le32(bs.len() as u32), bs);
}

/// The server reads back, string for string, a command that the client
/// sent: splitting the body that `build_req` frames gives one byte string
/// per string of the command, each valid UTF-8 and decoding to that string,
/// so that `parse_req` returns the command itself.
pub proof fn law_request_roundtrip_strings(cmd: Seq<&str>)
    requires
        cmd.len() <= MAX_ARGS,
        req_body(cmd_bytes(cmd)).len() <= MAX_MSG,
    ensures
        ({
            let bs = cmd_bytes(cmd);
            &&& req_args(req_body(bs)) == Some(bs)
            &&& bs.len() == cmd.len()
            &&& forall|i: int| 0 <= i < cmd.len() ==> valid_utf8(#[trigger] bs[i]) && decode_utf8(bs[i]) == cmd[i]@
        }),
{
    let bs = cmd_bytes(cmd);
    law_request_roundtrip(bs);
    assert forall|i: int| 0 <= i < cmd.len() implies valid_utf8(#[trigger] bs[i]) && decode_utf8(bs[i]) == cmd[i]@ by {
        encode_utf8_valid_utf8(cmd[i]@);
        encode_utf8_decode_utf8(cmd[i]@);
    }
}

/// The client shows each single-value reply of the server as what it is,
/// whatever follows it.
pub proof fn law_decode_replies(b: Seq<u8>, code: i32, msg: Seq<u8>, v: i64, rest: Seq<u8>)
    requires
        b.len() < 4294967296,
        msg.len() < 4294967296,
    ensures
        decode(ser_nil() + rest) == (seq![EventV::Nil], Ok::<nat, DecodeError>(1)),
        decode(ser_str(b) + rest) == (seq![EventV::Str(b)], Ok::<nat, DecodeError>(5 + b.len())),
        decode(ser_int(v) + rest) == (seq![EventV::Int(v)], Ok::<nat, DecodeError>(9)),
        decode(ser_err(code, msg) + rest) == (
            seq![EventV::Error(code, msg)],
            Ok::<nat, DecodeError>(9 + msg.len()),
        ),
{
    // nil
    assert((ser_nil() + rest)[0] == 0);
    // str
    let ds = ser_str(b) + rest;
    lemma_u32_at_prefix(seq![2u8], b.len() as u32, b + rest);
    assert(ds =~= seq![2u8] + le32(b.len() as u32) + (b + rest));
    assert(ds.subrange(5, 5 + b.len() as int) =~= b);
    // int
    let di = ser_int(v) + rest;
    lemma_le64_roundtrip(v as u64);
    let l8 = le64(v as u64);
    assert(di =~= seq![3u8] + l8 + rest);
    assert forall|k: int| 0 <= k < 8 implies di[1 + k] == l8[k] by {
    }
    assert(u64_at(di, 1) == u64_at(l8, 0));
    assert((v as u64) as i64 == v) by (bit_vector);
    // err
    let de = ser_err(code, msg) + rest;
    lemma_u32_at_prefix(seq![1u8], code as u32, le32(msg.len() as u32) + msg + rest);
    assert(de =~= seq![1u8] + le32(code as u32) + (le32(msg.len() as u32) + msg + rest));
    lemma_u32_at_prefix(seq![1u8] + le32(code as u32), msg.len() as u32, msg + rest);
    assert(de =~= seq![1u8] + le32(code as u32) + le32(msg.len() as u32) + (msg + rest));
    assert(de.subrange(9, 9 + msg.len() as int) =~= msg);
    assert((code as u32) as i32 == code) by (bit_vector);
}

proof fn lemma_ser_strs_front(ks: Seq<Seq<char>>)
    requires
        ks.len() > 0,
    ensures
        ser_strs(ks) == ser_str(encode_utf8(ks[0])) + ser_strs(ks.drop_first()),
    decreases ks.len(),
{
    if ks.len() == 1 {
        assert(ks.drop_first() =~= Seq::<Seq<char>>::empty());
        assert(ks.drop_last() =~= Seq::<Seq<char>>::empty());
        assert(ser_strs(ks) =~= ser_str(encode_utf8(ks[0])) + ser_strs(ks.drop_first()));
    } else {
        lemma_ser_strs_front(ks.drop_last());
        assert(ks.drop_last().drop_first() =~= ks.drop_first().drop_last());
        assert(ks.drop_first().last() == ks.last());
        assert(ser_strs(ks) =~= ser_str(encode_utf8(ks[0])) + ser_strs(ks.drop_first()));
    }
}

/// The events shown for strings `ks`, one after the other.
pub open spec fn str_events(ks: Seq<Seq<char>>) -> Seq<EventV> {
    ks.map_values(|k: Seq<char>| EventV::Str(encode_utf8(k)))
}

#[verifier::spinoff_prover]
#[verifier::rlimit(50)]
proof fn lemma_decode_strs(ks: Seq<Seq<char>>, rest: Seq<u8>)
    requires
        forall|i: int| 0 <= i < ks.len() ==> #[trigger] encode_utf8(ks[i]).len() < 4294967296,
    ensures
        decode_items(ser_strs(ks) + rest, ks.len()) == (
            str_events(ks),
            Ok::<nat, DecodeError>(ser_strs(ks).len()),
        ),
    decreases ks.len(),
{
    if ks.len() == 0 {
        assert(str_events(ks) =~= Seq::<EventV>::empty());
    } else {
        let b = encode_utf8(ks[0]);
        let tail = ks.drop_first();
        assert(b.len() < 4294967296);
        assert forall|i: int| 0 <= i < tail.len() implies #[trigger] encode_utf8(tail[i]).len() < 4294967296 by {
            assert(tail[i] == ks[i + 1]);
        }
        lemma_ser_strs_front(ks);
        let d = ser_strs(ks) + rest;
        let more = ser_strs(tail) + rest;
        assert(d =~= ser_str(b) + more);
        law_decode_replies(b, 0, Seq::empty(), 0, more);
        let c = 5 + b.len();
        assert(ser_str(b).len() == c);
        assert(d.subrange(c as int, d.len() as int) =~= more);
        lemma_decode_strs(tail, rest);
        assert(str_events(ks) =~= seq![EventV::Str(b)] + str_events(tail));
    }
}

/// The client shows the server's reply to `keys` as an array of exactly
/// the keys, in the order they were sent.
pub proof fn law_decode_keys_reply(ks: Seq<Seq<char>>, rest: Seq<u8>)
    requires
        ks.len() < 4294967296,
        forall|i: int| 0 <= i < ks.len() ==> #[trigger] encode_utf8(ks[i]).len() < 4294967296,
    ensures
        decode(ser_arr(ks.len() as u32) + ser_strs(ks) + rest) == (
            seq![EventV::ArrBegin(ks.len() as u32)] + str_events(ks) + seq![EventV::ArrEnd],
            Ok::<nat, DecodeError>(5 + ser_strs(ks).len()),
        ),
{
    let n = ks.len() as u32;
    let d = ser_arr(n) + ser_strs(ks) + rest;
    lemma_u32_at_prefix(seq![4u8], n, ser_strs(ks) + rest);
    assert(d =~= seq![4u8] + le32(n) + (ser_strs(ks) + rest));
    assert(d.subrange(5, d.len() as int) =~= ser_strs(ks) + rest);
    lemma_decode_strs(ks, rest);
    assert((seq![EventV::ArrBegin(n)] + str_events(ks)).push(EventV::ArrEnd) =~= seq![EventV::ArrBegin(n)] + str_events(ks) + seq![EventV::ArrEnd]);
}

// ── nested replies ──────────────────────────────────────────────────────────

/// A value the server can send: the four single values, or an array of
/// values, which may themselves be arrays.
pub ghost enum Reply {
    Nil,
    Error(i32, Seq<u8>),
    Str(Seq<u8>),
    Int(i64),
    Arr(Seq<Reply>),
}

/// The bytes of a value, as the server's `out_*` functions write them: an
/// array is its head followed by its values one after the other.
pub open spec fn ser_reply(v: Reply) -> Seq<u8>
    decreases v,
{
    match v {
        Reply::Nil => ser_nil(),
        Reply::Error(code, msg) => ser_err(code, msg),
        Reply::Str(b) => ser_str(b),
        Reply::Int(x) => ser_int(x),
        Reply::Arr(items) => ser_arr(items.len() as u32) + ser_replies(items),
    }
}

/// The bytes of values written one after the other.
pub open spec fn ser_replies(vs: Seq<Reply>) -> Seq<u8>
    decreases vs,
{
    if vs.len() == 0 {
        Seq::empty()
    } else {
        ser_reply(vs[0]) + ser_replies(vs.subrange(1, vs.len() as int))
    }
}

/// The events the client shows for a value.
pub open spec fn reply_events(v: Reply) -> Seq<EventV>
    decreases v,
{
    match v {
        Reply::Nil => seq![EventV::Nil],
        Reply::Error(code, msg) => seq![EventV::Error(code, msg)],
        Reply::Str(b) => seq![EventV::Str(b)],
        Reply::Int(x) => seq![EventV::Int(x)],
        Reply::Arr(items) => seq![EventV::ArrBegin(items.len() as u32)] + replies_events(items) + seq![
            EventV::ArrEnd,
        ],
    }
}

/// The events the client shows for values one after the other.
pub open spec fn replies_events(vs: Seq<Reply>) -> Seq<EventV>
    decreases vs,
{
    if vs.len() == 0 {
        Seq::empty()
    } else {
        reply_events(vs[0]) + replies_events(vs.subrange(1, vs.len() as int))
    }
}

/// Every length that the bytes of a value carry fits in its 4 bytes.
pub open spec fn reply_fits(v: Reply) -> bool
    decreases v,
{
    match v {
        Reply::Nil => true,
        Reply::Error(code, msg) => msg.len() < 4294967296,
        Reply::Str(b) => b.len() < 4294967296,
        Reply::Int(x) => true,
        Reply::Arr(items) => items.len() < 4294967296 && replies_fit(items),
    }
}

pub open spec fn replies_fit(vs: Seq<Reply>) -> bool
    decreases vs,
{
    if vs.len() == 0 {
        true
    } else {
        reply_fits(vs[0]) && replies_fit(vs.subrange(1, vs.len() as int))
    }
}

/// The client decodes exactly one value from the front of what the server
/// sent, nested arrays included: it shows that value's events and consumes
/// that value's bytes, whatever follows them.
#[verifier::spinoff_prover]
#[verifier::rlimit(30)]
pub proof fn law_decode_reply(v: Reply, rest: Seq<u8>)
    requires
        reply_fits(v),
    ensures
        decode(ser_reply(v) + rest) == (reply_events(v), Ok::<nat, DecodeError>(ser_reply(v).len())),
    decreases v,
{
    match v {
        Reply::Nil => {
            law_decode_replies(Seq::empty(), 0, Seq::empty(), 0, rest);
        },
        Reply::Error(code, msg) => {
            law_decode_replies(Seq::empty(), code, msg, 0, rest);
        },
        Reply::Str(b) => {
            law_decode_replies(b, 0, Seq::empty(), 0, rest);
        },
        Reply::Int(x) => {
            law_decode_replies(Seq::empty(), 0, Seq::empty(), x, rest);
        },
        Reply::Arr(items) => {
            let n = items.len() as u32;
            let body = ser_replies(items);
            let d = ser_reply(v) + rest;
            lemma_u32_at_prefix(seq![4u8], n, body + rest);
            assert(d =~= seq![4u8] + le32(n) + (body + rest));
            assert(d.subrange(5, d.len() as int) =~= body + rest);
            lemma_decode_replies_seq(items, rest);
            assert((seq![EventV::ArrBegin(n)] + replies_events(items)).push(EventV::ArrEnd)
                =~= reply_events(v));
        },
    }
}

/// Values written one after the other are decoded one after the other.
pub proof fn lemma_decode_replies_seq(vs: Seq<Reply>, rest: Seq<u8>)
    requires
        replies_fit(vs),
    ensures
        decode_items(ser_replies(vs) + rest, vs.len()) == (
            replies_events(vs),
            Ok::<nat, DecodeError>(ser_replies(vs).len()),
        ),
    decreases vs,
{
    if vs.len() == 0 {
        assert(ser_replies(vs) + rest =~= rest);
    } else {
        let tail = vs.subrange(1, vs.len() as int);
        let more = ser_replies(tail) + rest;
        let d = ser_replies(vs) + rest;
        assert(d =~= ser_reply(vs[0]) + more);
        law_decode_reply(vs[0], more);
        let c = ser_reply(vs[0]).len();
        assert(d.subrange(c as int, d.len() as int) =~= more);
        lemma_decode_replies_seq(tail, rest);
        assert(tail.len() == (vs.len() - 1) as nat);
    }
}

} // verus!
