use vstd::prelude::*;
use vstd::utf8::{decode_utf8, encode_utf8, valid_utf8};
use crate::hashtable::{HMap, key_views, str_eq};
use crate::wire::{
    MAX_MSG, le32, out_arr, out_err, out_int, out_nil, out_str, parse_req, put_le32, req_args,
    ser_arr, ser_err, ser_int, ser_nil, ser_str, string_views, u32_at, utf8_lossy, get_le32,
};

verus! {

// error codes
pub const ERR_UNKNOWN: i32 = 1;

pub const ERR_2BIG: i32 = 2;

/// The serializations of the strings `ks`, one after the other.
pub open spec fn ser_strs(ks: Seq<Seq<char>>) -> Seq<u8>
    decreases ks.len(),
{
    if ks.len() == 0 {
        Seq::empty()
    } else {
        ser_strs(ks.drop_last()) + ser_str(encode_utf8(ks.last()))
    }
}

/// The reply to `keys`: an array of every key of the map, each once.
pub open spec fn keys_reply(m: Map<Seq<char>, Seq<char>>, out: Seq<u8>) -> bool {
    exists|ks: Seq<Seq<char>>|
        #![trigger ser_strs(ks)]
        {
            &&& ks.no_duplicates()
            &&& ks.to_set() == m.dom()
            &&& ks.len() == m.len()
            &&& out == ser_arr(ks.len() as u32) + ser_strs(ks)
        }
}

/// The reply to `get`: the value as a string, or nil.
pub open spec fn get_reply(m: Map<Seq<char>, Seq<char>>, k: Seq<char>) -> Seq<u8> {
    if m.contains_key(k) {
        ser_str(encode_utf8(m[k]))
    } else {
        ser_nil()
    }
}

/// A command named `name` with arguments `cmd` (its first element being the
/// name as sent) takes the map from `m` to `m2` and replies `out`.
pub open spec fn reply_ok(
    m: Map<Seq<char>, Seq<char>>,
    name: Seq<char>,
    cmd: Seq<Seq<char>>,
    m2: Map<Seq<char>, Seq<char>>,
    out: Seq<u8>,
) -> bool {
    if name == "keys"@ && cmd.len() == 1 {
        m2 == m && keys_reply(m, out)
    } else if name == "get"@ && cmd.len() == 2 {
        m2 == m && out == get_reply(m, cmd[1])
    } else if name == "set"@ && cmd.len() == 3 {
        m2 == m.insert(cmd[1], cmd[2]) && out == ser_nil()
    } else if name == "del"@ && cmd.len() == 2 {
        m2 == m.remove(cmd[1]) && out == ser_int(if m.contains_key(cmd[1]) { 1 } else { 0 })
    } else {
        m2 == m && out == ser_err(ERR_UNKNOWN, encode_utf8("Unknown cmd"@))
    }
}

pub fn do_get(map: &mut HMap, cmd: &[String], out: &mut Vec<u8>)
    requires
        old(map).wf(),
        cmd@.len() >= 2,
    ensures
        final(map).wf(),
        final(map)@ == old(map)@,
        final(out)@ == old(out)@ + get_reply(old(map)@, cmd@[1]@),
{
    match map.get(cmd[1].as_str()) {
        Some(val) => out_str(out, val.as_str()),
        None => out_nil(out),
    }
}

pub fn do_del(map: &mut HMap, cmd: &[String], out: &mut Vec<u8>)
    requires
        old(map).wf(),
        cmd@.len() >= 2,
    ensures
        final(map).wf(),
        final(map)@ == old(map)@.remove(cmd@[1]@),
        final(out)@ == old(out)@ + ser_int(if old(map)@.contains_key(cmd@[1]@) { 1 } else { 0 }),
{
    let deleted = map.del(cmd[1].as_str());
    // returns integer 1 if deleted, 0 if key was not there
    out_int(out, if deleted { 1 } else { 0 });
}

pub fn do_set(map: &mut HMap, cmd: &[String], out: &mut Vec<u8>)
    requires
        old(map).wf(),
        cmd@.len() >= 3,
        old(map)@.contains_key(cmd@[1]@) || old(map)@.len() < usize::MAX,
    ensures
        final(map).wf(),
        final(map)@ == old(map)@.insert(cmd@[1]@, cmd@[2]@),
        final(out)@ == old(out)@ + ser_nil(),
{
    map.set(cmd[1].clone(), cmd[2].clone());
    out_nil(out);  // set always returns nil
}

pub fn do_keys(map: &HMap, out: &mut Vec<u8>)
    requires
        map.wf(),
    ensures
        final(out)@.len() >= old(out)@.len(),
        final(out)@.subrange(0, old(out)@.len() as int) == old(out)@,
        keys_reply(map@, final(out)@.skip(old(out)@.len() as int)),
{
    let keys: Vec<String> = map.all_keys();
    let ghost ks = key_views(keys@);
    // first write the array header with the count
    out_arr(out, keys.len() as u32);
    let ghost head = out@;
    // then write each key as a serialized string
    // each one is a full SER_STR value, type byte included
    let mut i: usize = 0;
    proof {
        assert(ks.subrange(0, 0) =~= Seq::<Seq<char>>::empty());
        assert(out@ =~= head + ser_strs(ks.subrange(0, 0)));
    }
    while i < keys.len()
        invariant
            i <= keys@.len(),
            ks == key_views(keys@),
            out@ == head + ser_strs(ks.subrange(0, i as int)),
        decreases keys@.len() - i,
    {
        out_str(out, keys[i].as_str());
        proof {
            assert(ks.subrange(0, i + 1).drop_last() =~= ks.subrange(0, i as int));
            assert(ks.subrange(0, i + 1).last() == keys@[i as int]@);
            assert(out@ =~= head + ser_strs(ks.subrange(0, i + 1)));
        }
        i += 1;
    }
    proof {
        assert(ks.subrange(0, i as int) =~= ks);
        let o = out@.skip(old(out)@.len() as int);
        assert(head == old(out)@ + ser_arr(keys@.len() as u32));
        assert(o =~= ser_arr(ks.len() as u32) + ser_strs(ks));
        assert(out@.subrange(0, old(out)@.len() as int) =~= old(out)@);
    }
}

/// What `str::to_lowercase` makes of a string.
pub uninterp spec fn lowercase(s: Seq<char>) -> Seq<char>;

/// Whether every character of `s` is ASCII.
pub open spec fn all_ascii(s: Seq<char>) -> bool {
    forall|i: int| 0 <= i < s.len() ==> (s[i] as u32) < 128
}

/// The lowercase of an ASCII character: `A`..`Z` become `a`..`z`, every
/// other character stays as it is.
pub open spec fn ascii_lower(c: char) -> char {
    if 65 <= (c as u32) <= 90 {
        ((c as u32) + 32) as char
    } else {
        c
    }
}

pub open spec fn ascii_lowercase(s: Seq<char>) -> Seq<char> {
    s.map_values(|c: char| ascii_lower(c))
}

/// Calls `str::to_lowercase`.  The result is named by `lowercase`.  For a
/// string of ASCII characters the Unicode mapping std applies is the ASCII
/// one: `A`..`Z` become `a`..`z` and the rest is unchanged; what it does
/// beyond ASCII is left unsaid.
#[verifier::external_body]
fn to_lowercase(s: &str) -> (r: String)
    ensures
        r@ == lowercase(s@),
        all_ascii(s@) ==> r@ == ascii_lowercase(s@),
{
    s.to_lowercase()
}

/// Runs the command called `name` with the arguments `cmd`, whose first
/// element is the name as sent.  Appends the reply to `out`.
pub fn run_command(map: &mut HMap, name: &str, cmd: &[String], out: &mut Vec<u8>)
    requires
        old(map).wf(),
        cmd@.len() == 3 ==> old(map)@.contains_key(cmd@[1]@) || old(map)@.len() < usize::MAX,
    ensures
        final(map).wf(),
        final(out)@.len() >= old(out)@.len(),
        final(out)@.subrange(0, old(out)@.len() as int) == old(out)@,
        reply_ok(
            old(map)@,
            name@,
            string_views(cmd@),
            final(map)@,
            final(out)@.skip(old(out)@.len() as int),
        ),
{
    let ghost m = map@;
    let ghost o = out@;
    let ghost cv = string_views(cmd@);
    if str_eq(name, "keys") && cmd.len() == 1 {
        do_keys(map, out);
        return;
    }
    let is_get = str_eq(name, "get");
    let is_set = str_eq(name, "set");
    let is_del = str_eq(name, "del");
    if is_get && cmd.len() == 2 {
        do_get(map, cmd, out);
    } else if is_set && cmd.len() == 3 {
        do_set(map, cmd, out);
    } else if is_del && cmd.len() == 2 {
        do_del(map, cmd, out);
    } else {
        out_err(out, ERR_UNKNOWN, "Unknown cmd");
    }
    proof {
        assert(out@.subrange(0, o.len() as int) =~= o);
        if cmd@.len() >= 2 {
            assert(cv[1] == cmd@[1]@);
        }
        if cmd@.len() >= 3 {
            assert(cv[2] == cmd@[2]@);
        }
        let d = out@.skip(o.len() as int);
        if is_get && cmd.len() == 2 {
            assert(d =~= get_reply(m, cv[1]));
        } else if is_set && cmd.len() == 3 {
            assert(d =~= ser_nil());
        } else if is_del && cmd.len() == 2 {
            assert(d =~= ser_int(if m.contains_key(cv[1]) { 1 } else { 0 }));
        } else {
            assert(d =~= ser_err(ERR_UNKNOWN, encode_utf8("Unknown cmd"@)));
        }
    }
}

/// Runs a parsed request: its first string names the command, in any case.
pub fn do_request(map: &mut HMap, cmd: &[String], out: &mut Vec<u8>)
    requires
        old(map).wf(),
        cmd@.len() == 3 ==> old(map)@.contains_key(cmd@[1]@) || old(map)@.len() < usize::MAX,
        cmd@.len() >= 1,
    ensures
        final(map).wf(),
        final(out)@.len() >= old(out)@.len(),
        final(out)@.subrange(0, old(out)@.len() as int) == old(out)@,
        reply_ok(
            old(map)@,
            lowercase(cmd@[0]@),
            string_views(cmd@),
            final(map)@,
            final(out)@.skip(old(out)@.len() as int),
        ),
        // a command name in ASCII is matched without regard to case
        all_ascii(cmd@[0]@) ==> reply_ok(
            old(map)@,
            ascii_lowercase(cmd@[0]@),
            string_views(cmd@),
            final(map)@,
            final(out)@.skip(old(out)@.len() as int),
        ),
{
    let name = to_lowercase(cmd[0].as_str());
    run_command(map, name.as_str(), cmd, out);
}

// ── framing ─────────────────────────────────────────────────────────────────

/// What the front of a connection's read buffer holds.
pub enum Frame {
    /// Not a whole request yet: wait for more bytes.
    Incomplete,
    /// The announced length exceeds `MAX_MSG`.
    TooLong,
    /// A whole request whose body is malformed.
    Invalid,
    /// A whole request: its strings, and how many bytes it takes, header
    /// included.
    Request(Vec<String>, usize),
}

/// Looks at the front of a read buffer: a 4-byte length, then that many
/// bytes of request body.
pub fn parse_frame(rbuf: &[u8]) -> (f: Frame)
    ensures
        rbuf@.len() < 4 ==> f is Incomplete,
        rbuf@.len() >= 4 ==> ({
            let len = u32_at(rbuf@, 0) as int;
            if len > MAX_MSG {
                f is TooLong
            } else if 4 + len > rbuf@.len() {
                f is Incomplete
            } else {
                match req_args(rbuf@.subrange(4, 4 + len)) {
                    None => f is Invalid,
                    Some(args) => f matches Frame::Request(cmd, n) && n == 4 + len && string_views(cmd@)
                        == args.map_values(|b: Seq<u8>| utf8_lossy(b)) && (forall|i: int|
                        0 <= i < cmd@.len() && valid_utf8(#[trigger] args[i]) ==> cmd@[i]@ == decode_utf8(
                            args[i],
                        )),
                }
            }
        }),
{
    // 4 byte for the header
    if rbuf.len() < 4 {
        return Frame::Incomplete;  // not enough data yet, come back later
    }
    let len = get_le32(rbuf, 0) as usize;
    if len > MAX_MSG {
        return Frame::TooLong;
    }
    // do we have the full body yet
    if 4 + len > rbuf.len() {
        return Frame::Incomplete;  // not enough data, come back later
    }
    // if we are here then it means we have the complete request
    match parse_req(&rbuf[4..4 + len]) {
        Some(cmd) => Frame::Request(cmd, 4 + len),
        None => Frame::Invalid,
    }
}

/// The reply actually sent: replies longer than `MAX_MSG` are replaced by
/// an error.
pub open spec fn capped(o: Seq<u8>) -> Seq<u8> {
    if o.len() > MAX_MSG {
        ser_err(ERR_2BIG, encode_utf8("response is too big"@))
    } else {
        o
    }
}

/// A message on the wire: its 4-byte length, then its bytes.
pub open spec fn framed(o: Seq<u8>) -> Seq<u8> {
    le32(o.len() as u32) + o
}

/// Runs a parsed request and returns the bytes to send back: the reply,
/// or an error if the reply is too long, behind its length.
pub fn build_response(map: &mut HMap, cmd: &[String]) -> (wbuf: Vec<u8>)
    requires
        old(map).wf(),
        cmd@.len() == 3 ==> old(map)@.contains_key(cmd@[1]@) || old(map)@.len() < usize::MAX,
        cmd@.len() >= 1,
    ensures
        final(map).wf(),
        exists|o: Seq<u8>|
            #![trigger capped(o)]
            reply_ok(old(map)@, lowercase(cmd@[0]@), string_views(cmd@), final(map)@, o)
                && (all_ascii(cmd@[0]@) ==> reply_ok(
                old(map)@,
                ascii_lowercase(cmd@[0]@),
                string_views(cmd@),
                final(map)@,
                o,
            )) && wbuf@ == framed(capped(o)),
{
    let mut out: Vec<u8> = Vec::new();
    do_request(map, cmd, &mut out);
    let ghost o = out@;
    proof {
        assert(out@.skip(0) =~= out@);
    }
    // check response is not too big
    if out.len() > MAX_MSG {
        out.clear();
        out_err(&mut out, ERR_2BIG, "response is too big");
    }
    proof {
        assert(out@ =~= capped(o));
    }
    let mut wbuf: Vec<u8> = Vec::new();
    put_le32(&mut wbuf, out.len() as u32);
    wbuf.extend_from_slice(out.as_slice());
    proof {
        assert(wbuf@ =~= framed(capped(o)));
    }
    wbuf
}

// ── laws of the commands ────────────────────────────────────────────────────

/// `get k` leaves the map as it is and replies the value of `k` as a
/// string when the map has `k`, and nil when it does not.
pub proof fn law_get_reply(
    m: Map<Seq<char>, Seq<char>>,
    cmd: Seq<Seq<char>>,
    m2: Map<Seq<char>, Seq<char>>,
    out: Seq<u8>,
)
    requires
        cmd.len() == 2,
        reply_ok(m, "get"@, cmd, m2, out),
    ensures
        m2 == m,
        m.contains_key(cmd[1]) ==> out == ser_str(encode_utf8(m[cmd[1]])),
        !m.contains_key(cmd[1]) ==> out == ser_nil(),
{
    reveal_strlit("get");
    reveal_strlit("keys");
    assert("get"@.len() != "keys"@.len());
}

/// `set k v` replies nil and leaves `k` holding `v`, whether or not the map
/// had `k` before; every other key keeps what it had.
pub proof fn law_set_reply(
    m: Map<Seq<char>, Seq<char>>,
    cmd: Seq<Seq<char>>,
    m2: Map<Seq<char>, Seq<char>>,
    out: Seq<u8>,
)
    requires
        cmd.len() == 3,
        reply_ok(m, "set"@, cmd, m2, out),
    ensures
        out == ser_nil(),
        m2.contains_key(cmd[1]),
        m2[cmd[1]] == cmd[2],
        m2.dom() == m.dom().insert(cmd[1]),
        forall|k: Seq<char>| k != cmd[1] && m.contains_key(k) ==> m2[k] == m[k],
{
    reveal_strlit("set");
    reveal_strlit("get");
    reveal_strlit("keys");
    assert("set"@[0] != "get"@[0]);
    assert("set"@.len() != "keys"@.len());
    assert(m2.dom() =~= m.dom().insert(cmd[1]));
}

/// `del k` removes `k` and replies the integer 1 when the map had `k`, 0
/// when it did not; every other key keeps what it had.
pub proof fn law_del_reply(
    m: Map<Seq<char>, Seq<char>>,
    cmd: Seq<Seq<char>>,
    m2: Map<Seq<char>, Seq<char>>,
    out: Seq<u8>,
)
    requires
        cmd.len() == 2,
        reply_ok(m, "del"@, cmd, m2, out),
    ensures
        m.contains_key(cmd[1]) ==> out == ser_int(1),
        !m.contains_key(cmd[1]) ==> out == ser_int(0),
        !m2.contains_key(cmd[1]),
        m2.dom() == m.dom().remove(cmd[1]),
        forall|k: Seq<char>| k != cmd[1] && m.contains_key(k) ==> m2[k] == m[k],
{
    reveal_strlit("del");
    reveal_strlit("get");
    reveal_strlit("set");
    reveal_strlit("keys");
    assert("del"@[0] != "get"@[0]);
    assert("del"@[0] != "set"@[0]);
    assert("del"@.len() != "keys"@.len());
    assert(m2.dom() =~= m.dom().remove(cmd[1]));
}

/// `keys` leaves the map as it is and replies an array with as many
/// strings as the map has keys, in which every key of the map appears and
/// nothing else does.
pub proof fn law_keys_reply(
    m: Map<Seq<char>, Seq<char>>,
    cmd: Seq<Seq<char>>,
    m2: Map<Seq<char>, Seq<char>>,
    out: Seq<u8>,
)
    requires
        cmd.len() == 1,
        reply_ok(m, "keys"@, cmd, m2, out),
    ensures
        m2 == m,
        exists|ks: Seq<Seq<char>>|
            #![trigger ser_strs(ks)]
            {
                &&& ks.len() == m.len()
                &&& ks.no_duplicates()
                &&& forall|k: Seq<char>| #[trigger] ks.contains(k) <==> m.contains_key(k)
                &&& out == ser_arr(m.len() as u32) + ser_strs(ks)
            },
{
    let ks = choose|ks: Seq<Seq<char>>|
        #![trigger ser_strs(ks)]
        {
            &&& ks.no_duplicates()
            &&& ks.to_set() == m.dom()
            &&& ks.len() == m.len()
            &&& out == ser_arr(ks.len() as u32) + ser_strs(ks)
        };
    assert forall|k: Seq<char>| #[trigger] ks.contains(k) <==> m.contains_key(k) by {
        assert(ks.to_set().contains(k) == ks.contains(k));
    }
}

/// A request that names no command, or a command with the wrong number of
/// arguments, leaves the map as it is and replies the error "Unknown cmd",
/// of code 1.
pub proof fn law_unknown_reply(
    m: Map<Seq<char>, Seq<char>>,
    name: Seq<char>,
    cmd: Seq<Seq<char>>,
    m2: Map<Seq<char>, Seq<char>>,
    out: Seq<u8>,
)
    requires
        !(name == "keys"@ && cmd.len() == 1),
        !(name == "get"@ && cmd.len() == 2),
        !(name == "set"@ && cmd.len() == 3),
        !(name == "del"@ && cmd.len() == 2),
        reply_ok(m, name, cmd, m2, out),
    ensures
        m2 == m,
        out == ser_err(1, encode_utf8("Unknown cmd"@)),
{
}

/// A `get` right after a `set` of the same key replies the value just set.
pub proof fn law_set_then_get(
    m: Map<Seq<char>, Seq<char>>,
    set_cmd: Seq<Seq<char>>,
    m1: Map<Seq<char>, Seq<char>>,
    o1: Seq<u8>,
    get_cmd: Seq<Seq<char>>,
    m2: Map<Seq<char>, Seq<char>>,
    o2: Seq<u8>,
)
    requires
        set_cmd.len() == 3,
        get_cmd.len() == 2,
        get_cmd[1] == set_cmd[1],
        reply_ok(m, "set"@, set_cmd, m1, o1),
        reply_ok(m1, "get"@, get_cmd, m2, o2),
    ensures
        o2 == ser_str(encode_utf8(set_cmd[2])),
{
    law_set_reply(m, set_cmd, m1, o1);
    law_get_reply(m1, get_cmd, m2, o2);
}

/// A reply of at most 4096 bytes is sent as it is; only a longer one is
/// replaced by the error "response is too big", of code 2.  What is sent is
/// the reply's length in 4 little-endian bytes, then the reply.
pub proof fn law_capped_framed(o: Seq<u8>)
    ensures
        o.len() <= 4096 ==> capped(o) == o,
        o.len() > 4096 ==> capped(o) == ser_err(2, encode_utf8("response is too big"@)),
        capped(o).len() <= 4096 ==> u32_at(framed(capped(o)), 0) == capped(o).len(),
        framed(capped(o)).subrange(4, framed(capped(o)).len() as int) == capped(o),
{
    let c = capped(o);
    if c.len() <= 4096 {
        crate::client::lemma_u32_at_prefix(Seq::empty(), c.len() as u32, c);
        assert(Seq::<u8>::empty() + le32(c.len() as u32) + c =~= framed(c));
    }
    assert(framed(c).subrange(4, framed(c).len() as int) =~= c);
}

} // verus!
