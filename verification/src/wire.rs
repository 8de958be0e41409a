use vstd::prelude::*;
use vstd::utf8::{decode_utf8, encode_utf8, valid_utf8};

verus! {

pub const MAX_MSG: usize = 4096;

pub const MAX_ARGS: usize = 16;

pub const SER_NIL: u8 = 0;

pub const SER_ERR: u8 = 1;

pub const SER_STR: u8 = 2;

pub const SER_INT: u8 = 3;

pub const SER_ARR: u8 = 4;

// ── little-endian integers ──────────────────────────────────────────────────

/// The 4 little-endian bytes of `x`.
pub open spec fn le32(x: u32) -> Seq<u8> {
    seq![
        (x % 256) as u8,
        ((x / 256) % 256) as u8,
        ((x / 65536) % 256) as u8,
        ((x / 16777216) % 256) as u8,
    ]
}

/// The 8 little-endian bytes of `x`.
pub open spec fn le64(x: u64) -> Seq<u8> {
    le32((x % 4294967296) as u32) + le32((x / 4294967296) as u32)
}

/// The `u32` whose little-endian bytes are `b[pos..pos + 4]`.
pub open spec fn u32_at(b: Seq<u8>, pos: int) -> u32 {
    (b[pos] as int + b[pos + 1] as int * 256 + b[pos + 2] as int * 65536 + b[pos + 3] as int
        * 16777216) as u32
}

/// The `u64` whose little-endian bytes are `b[pos..pos + 8]`.
pub open spec fn u64_at(b: Seq<u8>, pos: int) -> u64 {
    (u32_at(b, pos) as int + u32_at(b, pos + 4) as int * 4294967296) as u64
}

/// Reading back the bytes of a `u32` gives the `u32`.
pub proof fn lemma_le32_roundtrip(x: u32)
    ensures
        le32(x).len() == 4,
        u32_at(le32(x), 0) == x,
{
    let b = le32(x);
    assert(b[0] as int + b[1] as int * 256 + b[2] as int * 65536 + b[3] as int * 16777216 == x)
        by (nonlinear_arith)
        requires
            b[0] == x % 256,
            b[1] == (x / 256) % 256,
            b[2] == (x / 65536) % 256,
            b[3] == (x / 16777216) % 256,
            x < 4294967296,
    ;
}

/// Reading back the bytes of a `u64` gives the `u64`.
pub proof fn lemma_le64_roundtrip(x: u64)
    ensures
        le64(x).len() == 8,
        u64_at(le64(x), 0) == x,
{
    let lo = (x % 4294967296) as u32;
    let hi = (x / 4294967296) as u32;
    lemma_le32_roundtrip(lo);
    lemma_le32_roundtrip(hi);
    let b = le64(x);
    assert(b.subrange(0, 4) =~= le32(lo));
    assert(b.subrange(4, 8) =~= le32(hi));
    assert(u32_at(b, 0) == u32_at(le32(lo), 0));
    assert(u32_at(b, 4) == u32_at(le32(hi), 0));
}

/// The bytes read as a `u32` are the bytes of that `u32`.
pub proof fn lemma_u32_at_bytes(b: Seq<u8>, pos: int)
    requires
        0 <= pos,
        pos + 4 <= b.len(),
    ensures
        le32(u32_at(b, pos)) == b.subrange(pos, pos + 4),
{
    let x = u32_at(b, pos);
    let b0 = b[pos];
    let b1 = b[pos + 1];
    let b2 = b[pos + 2];
    let b3 = b[pos + 3];
    assert(x % 256 == b0 && (x / 256) % 256 == b1 && (x / 65536) % 256 == b2 && (x / 16777216)
        % 256 == b3) by (nonlinear_arith)
        requires
            x == b0 as int + b1 as int * 256 + b2 as int * 65536 + b3 as int * 16777216,
            b0 < 256,
            b1 < 256,
            b2 < 256,
            b3 < 256,
    ;
    assert(le32(x) =~= b.subrange(pos, pos + 4));
}

/// Appends the 4 little-endian bytes of `x`.
pub fn put_le32(out: &mut Vec<u8>, x: u32)
    ensures
        final(out)@ == old(out)@ + le32(x),
{
    out.push((x % 256) as u8);
    out.push(((x / 256) % 256) as u8);
    out.push(((x / 65536) % 256) as u8);
    out.push(((x / 16777216) % 256) as u8);
    proof {
        assert(final(out)@ =~= old(out)@ + le32(x));
    }
}

/// Appends the 8 little-endian bytes of `x`.
pub fn put_le64(out: &mut Vec<u8>, x: u64)
    ensures
        final(out)@ == old(out)@ + le64(x),
{
    put_le32(out, (x % 4294967296) as u32);
    put_le32(out, (x / 4294967296) as u32);
    proof {
        assert(final(out)@ =~= old(out)@ + le64(x));
    }
}

/// Reads the `u32` whose little-endian bytes start at `pos`.
pub fn get_le32(data: &[u8], pos: usize) -> (x: u32)
    requires
        pos + 4 <= data@.len(),
    ensures
        x == u32_at(data@, pos as int),
{
    data[pos] as u32 + data[pos + 1] as u32 * 256 + data[pos + 2] as u32 * 65536 + data[pos + 3] as u32
        * 16777216
}

/// Reads the `u64` whose little-endian bytes start at `pos`.
pub fn get_le64(data: &[u8], pos: usize) -> (x: u64)
    requires
        pos + 8 <= data@.len(),
    ensures
        x == u64_at(data@, pos as int),
{
    let n = data.len();
    proof {
        assert(pos + 8 <= n);
    }
    let lo = get_le32(data, pos) as u64;
    let hi = get_le32(data, pos + 4) as u64;
    lo + hi * 4294967296
}

// ── serialized values ───────────────────────────────────────────────────────

pub open spec fn ser_nil() -> Seq<u8> {
    seq![SER_NIL]
}

/// A string: its type byte, its byte length, its bytes.
pub open spec fn ser_str(bytes: Seq<u8>) -> Seq<u8> {
    seq![SER_STR] + le32(bytes.len() as u32) + bytes
}

pub open spec fn ser_int(v: i64) -> Seq<u8> {
    seq![SER_INT] + le64(v as u64)
}

/// An error: its type byte, its code, the byte length of its message, and
/// the message.
pub open spec fn ser_err(code: i32, msg: Seq<u8>) -> Seq<u8> {
    seq![SER_ERR] + le32(code as u32) + le32(msg.len() as u32) + msg
}

/// The head of an array of `count` values; the values follow it.
pub open spec fn ser_arr(count: u32) -> Seq<u8> {
    seq![SER_ARR] + le32(count)
}

pub fn out_nil(out: &mut Vec<u8>)
    ensures
        final(out)@ == old(out)@ + ser_nil(),
{
    out.push(SER_NIL);
    // that is it. one byte.
    proof {
        assert(final(out)@ =~= old(out)@ + ser_nil());
    }
}

pub fn out_str(out: &mut Vec<u8>, val: &str)
    ensures
        final(out)@ == old(out)@ + ser_str(encode_utf8(val@)),
{
    let bytes = val.as_bytes();
    out.push(SER_STR);
    // 4 byte length
    put_le32(out, bytes.len() as u32);
    // actual string bytes
    out.extend_from_slice(bytes);
    proof {
        assert(final(out)@ =~= old(out)@ + ser_str(encode_utf8(val@)));
    }
}

pub fn out_int(out: &mut Vec<u8>, val: i64)
    ensures
        final(out)@ == old(out)@ + ser_int(val),
{
    out.push(SER_INT);
    // 8 bytes for i64
    put_le64(out, val as u64);
    proof {
        assert(final(out)@ =~= old(out)@ + ser_int(val));
    }
}

pub fn out_err(out: &mut Vec<u8>, code: i32, msg: &str)
    ensures
        final(out)@ == old(out)@ + ser_err(code, encode_utf8(msg@)),
{
    let bytes = msg.as_bytes();
    out.push(SER_ERR);
    // 4 bytes error code
    put_le32(out, code as u32);
    // 4 bytes message length
    put_le32(out, bytes.len() as u32);
    // message bytes
    out.extend_from_slice(bytes);
    proof {
        assert(final(out)@ =~= old(out)@ + ser_err(code, encode_utf8(msg@)));
    }
}

pub fn out_arr(out: &mut Vec<u8>, count: u32)
    ensures
        final(out)@ == old(out)@ + ser_arr(count),
{
    out.push(SER_ARR);
    // just the count — elements are appended separately after this
    put_le32(out, count);
    proof {
        assert(final(out)@ =~= old(out)@ + ser_arr(count));
    }
}

// ── requests ────────────────────────────────────────────────────────────────

/// The strings of a request body from byte `pos` on, when `n` of them are
/// still expected: each is a 4-byte length and that many bytes, and the
/// body must end right after the last one.
pub open spec fn args_from(data: Seq<u8>, pos: int, n: nat) -> Option<Seq<Seq<u8>>>
    decreases n,
{
    if n == 0 {
        if pos == data.len() {
            Some(Seq::empty())
        } else {
            None
        }
    } else if pos + 4 > data.len() {
        None
    } else {
        let sz = u32_at(data, pos) as int;
        if pos + 4 + sz > data.len() {
            None
        } else {
            match args_from(data, pos + 4 + sz, (n - 1) as nat) {
                Some(rest) => Some(seq![data.subrange(pos + 4, pos + 4 + sz)] + rest),
                None => None,
            }
        }
    }
}

/// The strings of a request body: a 4-byte count of at most `MAX_ARGS`,
/// then the strings.
pub open spec fn req_args(data: Seq<u8>) -> Option<Seq<Seq<u8>>> {
    if data.len() < 4 {
        None
    } else if u32_at(data, 0) > MAX_ARGS {
        None
    } else {
        args_from(data, 4, u32_at(data, 0) as nat)
    }
}

pub open spec fn prepend_args(p: Seq<Seq<u8>>, o: Option<Seq<Seq<u8>>>) -> Option<Seq<Seq<u8>>> {
    match o {
        Some(r) => Some(p + r),
        None => None,
    }
}

pub open spec fn byte_views(v: Seq<Vec<u8>>) -> Seq<Seq<u8>> {
    v.map_values(|x: Vec<u8>| x@)
}

/// Splits a request body into its strings, as raw bytes.
pub fn split_args(data: &[u8]) -> (res: Option<Vec<Vec<u8>>>)
    ensures
        match res {
            Some(v) => req_args(data@) == Some(byte_views(v@)),
            None => req_args(data@) is None,
        },
{
    if data.len() < 4 {
        return None;
    }
    // number of strings

    let nstr = get_le32(data, 0) as usize;
    if nstr > MAX_ARGS {
        return None;
    }
    let mut cmd: Vec<Vec<u8>> = Vec::new();
    let mut pos: usize = 4;
    let mut i: usize = 0;
    proof {
        assert(prepend_args(byte_views(cmd@), args_from(data@, 4, nstr as nat)) =~= args_from(
            data@,
            4,
            nstr as nat,
        )) by {
            if let Some(r) = args_from(data@, 4, nstr as nat) {
                assert(byte_views(cmd@) + r =~= r);
            }
        }
    }
    while i < nstr
        invariant
            4 <= pos <= data@.len(),
            i <= nstr,
            nstr == u32_at(data@, 0),
            nstr <= MAX_ARGS,
            data@.len() >= 4,
            req_args(data@) == prepend_args(byte_views(cmd@), args_from(data@, pos as int, (nstr - i) as nat)),
        decreases nstr - i,
    {
        if 4 > data.len() - pos {
            return None;
        }
        let sz = get_le32(data, pos) as usize;
        pos += 4;

        // need sz more bytes for the string itself
        if sz > data.len() - pos {
            return None;
        }
        let mut s: Vec<u8> = Vec::new();
        s.extend_from_slice(&data[pos..pos + sz]);
        let ghost old_cmd = cmd@;
        cmd.push(s);
        pos += sz;
        i += 1;
        proof {
            assert(s@ =~= data@.subrange(pos - sz, pos as int));
            assert(byte_views(cmd@) =~= byte_views(old_cmd) + seq![s@]);
            let rest = args_from(data@, pos as int, (nstr - i) as nat);
            if let Some(r) = rest {
                assert(byte_views(old_cmd) + (seq![s@] + r) =~= byte_views(cmd@) + r);
            }
        }
    }
    if pos != data.len() {
        return None;
    }
    proof {
        assert(byte_views(cmd@) + Seq::<Seq<u8>>::empty() =~= byte_views(cmd@));
    }
    Some(cmd)
}

/// What `String::from_utf8_lossy` makes of a byte sequence.
pub uninterp spec fn utf8_lossy(bytes: Seq<u8>) -> Seq<char>;

/// Calls `String::from_utf8_lossy` and takes the result as a `String`.
/// The result is named by `utf8_lossy`; std documents that bytes that are
/// valid UTF-8 come back as the string they encode.  What replaces invalid
/// sequences is left unsaid.
#[verifier::external_body]
fn string_from_utf8_lossy(bytes: &[u8]) -> (s: String)
    ensures
        s@ == utf8_lossy(bytes@),
        valid_utf8(bytes@) ==> s@ == decode_utf8(bytes@),
{
    String::from_utf8_lossy(bytes).into_owned()
}

pub open spec fn string_views(v: Seq<String>) -> Seq<Seq<char>> {
    v.map_values(|s: String| s@)
}

// input:  raw bytes of the request body
// output: the command parts, e.g. ["set", "key", "value"]
pub fn parse_req(data: &[u8]) -> (res: Option<Vec<String>>)
    ensures
        match res {
            Some(cmd) => {
                &&& req_args(data@) is Some
                &&& string_views(cmd@) == req_args(data@).unwrap().map_values(|b: Seq<u8>| utf8_lossy(b))
                &&& forall|i: int|
                    0 <= i < cmd@.len() && valid_utf8(#[trigger] req_args(data@).unwrap()[i])
                        ==> cmd@[i]@ == decode_utf8(req_args(data@).unwrap()[i])
            },
            None => req_args(data@) is None,
        },
{
    let args = match split_args(data) {
        Some(a) => a,
        None => {
            return None;
        },
    };
    let mut cmd: Vec<String> = Vec::new();
    let mut i: usize = 0;
    while i < args.len()
        invariant
            i <= args@.len(),
            string_views(cmd@) == byte_views(args@).subrange(0, i as int).map_values(
                |b: Seq<u8>| utf8_lossy(b),
            ),
            forall|k: int|
                0 <= k < i && valid_utf8(#[trigger] byte_views(args@)[k]) ==> cmd@[k]@ == decode_utf8(
                    byte_views(args@)[k],
                ),
        decreases args@.len() - i,
    {
        let s = string_from_utf8_lossy(args[i].as_slice());
        let ghost old_cmd = cmd@;
        cmd.push(s);
        i += 1;
        proof {
            let want = byte_views(args@).subrange(0, i as int).map_values(|b: Seq<u8>| utf8_lossy(b));
            assert(string_views(old_cmd).len() == i - 1);
            assert(old_cmd.len() == i - 1);
            assert(cmd@.len() == i);
            assert(byte_views(args@).len() == args@.len());
            assert(want.len() == i);
            assert(string_views(cmd@).len() == want.len());
            assert forall|k: int| 0 <= k < want.len() implies string_views(cmd@)[k] == want[k] by {
                if k < i - 1 {
                    assert(cmd@[k] == old_cmd[k]);
                    assert(string_views(old_cmd)[k] == want[k]);
                } else {
                    assert(byte_views(args@)[k] == args@[k]@);
                }
            }
            assert(string_views(cmd@) =~= want);
            assert(byte_views(args@)[i - 1] == args@[i - 1]@);
            assert forall|k: int|
                0 <= k < i && valid_utf8(#[trigger] byte_views(args@)[k]) implies cmd@[k]@ == decode_utf8(
                    byte_views(args@)[k],
                ) by {
                if k < i - 1 {
                    assert(cmd@[k] == old_cmd[k]);
                }
            }
        }
    }
    proof {
        assert(byte_views(args@).subrange(0, i as int) =~= byte_views(args@));
    }
    Some(cmd)
}

} // verus!
