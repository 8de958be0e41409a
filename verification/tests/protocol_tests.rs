use mini_redis::client::{build_req, on_response, DecodeError, Event};
use mini_redis::hashtable::HMap;
use mini_redis::server::{
    build_response, do_del, do_get, do_keys, do_request, do_set, parse_frame, run_command, Frame,
};
use mini_redis::stats::{average, percentile};
use mini_redis::wire::{
    get_le32, get_le64, out_arr, out_err, out_int, out_nil, out_str, parse_req, put_le32,
    put_le64, split_args,
};

fn body(args: &[&[u8]]) -> Vec<u8> {
    let mut b = (args.len() as u32).to_le_bytes().to_vec();
    for a in args {
        b.extend_from_slice(&(a.len() as u32).to_le_bytes());
        b.extend_from_slice(a);
    }
    b
}

fn frame(b: &[u8]) -> Vec<u8> {
    let mut f = (b.len() as u32).to_le_bytes().to_vec();
    f.extend_from_slice(b);
    f
}

fn strings(v: &[&str]) -> Vec<String> {
    v.iter().map(|s| s.to_string()).collect()
}

#[test]
fn little_endian_helpers() {
    let mut out = vec![];
    put_le32(&mut out, 0x01020304);
    assert_eq!(out, vec![4, 3, 2, 1]);
    assert_eq!(get_le32(&out, 0), 0x01020304);
    let mut out = vec![9];
    put_le64(&mut out, 0x0102030405060708);
    assert_eq!(out, vec![9, 8, 7, 6, 5, 4, 3, 2, 1]);
    assert_eq!(get_le64(&out, 1), 0x0102030405060708);
}

#[test]
fn serializers() {
    let mut out = vec![];
    out_nil(&mut out);
    assert_eq!(out, vec![0]);
    let mut out = vec![];
    out_str(&mut out, "hi");
    assert_eq!(out, vec![2, 2, 0, 0, 0, b'h', b'i']);
    let mut out = vec![];
    out_int(&mut out, -2);
    assert_eq!(out, vec![3, 0xfe, 0xff, 0xff, 0xff, 0xff, 0xff, 0xff, 0xff]);
    let mut out = vec![];
    out_err(&mut out, 1, "no");
    assert_eq!(out, vec![1, 1, 0, 0, 0, 2, 0, 0, 0, b'n', b'o']);
    let mut out = vec![7];
    out_arr(&mut out, 3);
    assert_eq!(out, vec![7, 4, 3, 0, 0, 0]);
}

#[test]
fn parse_req_accepts_well_formed_bodies() {
    let b = body(&[b"set", b"key", b"value"]);
    assert_eq!(parse_req(&b), Some(strings(&["set", "key", "value"])));
    assert_eq!(parse_req(&body(&[])), Some(vec![]));
    assert_eq!(parse_req(&body(&[b""])), Some(strings(&[""])));
}

#[test]
fn parse_req_rejects_malformed_bodies() {
    // shorter than the count
    assert_eq!(parse_req(&[1, 0, 0]), None);
    // more than 16 strings
    let many: Vec<&[u8]> = vec![b"x"; 17];
    assert_eq!(parse_req(&body(&many)), None);
    let sixteen: Vec<&[u8]> = vec![b"x"; 16];
    assert_eq!(parse_req(&body(&sixteen)).map(|v| v.len()), Some(16));
    // trailing byte
    let mut b = body(&[b"get", b"k"]);
    b.push(0);
    assert_eq!(parse_req(&b), None);
    // string longer than what is there
    let mut b = body(&[b"get"]);
    b.pop();
    assert_eq!(parse_req(&b), None);
    // count larger than the strings present
    let mut b = body(&[b"get"]);
    b[0] = 2;
    assert_eq!(parse_req(&b), None);
    // a length field cut short
    assert_eq!(parse_req(&[1, 0, 0, 0, 3, 0]), None);
}

#[test]
fn parse_req_replaces_invalid_utf8() {
    let b = body(&[&[0x66, 0xff, 0x67]]);
    assert_eq!(parse_req(&b), Some(vec!["f\u{FFFD}g".to_string()]));
    assert_eq!(split_args(&b), Some(vec![vec![0x66, 0xff, 0x67]]));
}

#[test]
fn parse_frame_cases() {
    assert!(matches!(parse_frame(&[1, 0]), Frame::Incomplete));
    // announced body longer than MAX_MSG
    assert!(matches!(parse_frame(&[1, 16, 0, 0]), Frame::TooLong));
    // exactly MAX_MSG is fine but not all here yet
    assert!(matches!(parse_frame(&[0, 16, 0, 0, 1]), Frame::Incomplete));
    // complete but malformed
    assert!(matches!(parse_frame(&frame(&[1, 0, 0, 0])), Frame::Invalid));
    // complete request followed by the start of the next
    let mut buf = frame(&body(&[b"get", b"k"]));
    let n = buf.len();
    buf.extend_from_slice(&[9, 0]);
    match parse_frame(&buf) {
        Frame::Request(cmd, used) => {
            assert_eq!(cmd, strings(&["get", "k"]));
            assert_eq!(used, n);
        }
        _ => panic!("expected a request"),
    }
}

#[test]
fn commands_against_the_map() {
    let mut m = HMap::new();
    let mut out = vec![];
    do_set(&mut m, &strings(&["set", "k", "v"]), &mut out);
    assert_eq!(out, vec![0]);
    let mut out = vec![];
    do_get(&mut m, &strings(&["get", "k"]), &mut out);
    assert_eq!(out, vec![2, 1, 0, 0, 0, b'v']);
    let mut out = vec![];
    do_get(&mut m, &strings(&["get", "nope"]), &mut out);
    assert_eq!(out, vec![0]);
    let mut out = vec![];
    do_keys(&m, &mut out);
    assert_eq!(out, vec![4, 1, 0, 0, 0, 2, 1, 0, 0, 0, b'k']);
    let mut out = vec![];
    do_del(&mut m, &strings(&["del", "k"]), &mut out);
    assert_eq!(out, vec![3, 1, 0, 0, 0, 0, 0, 0, 0]);
    let mut out = vec![];
    do_del(&mut m, &strings(&["del", "k"]), &mut out);
    assert_eq!(out, vec![3, 0, 0, 0, 0, 0, 0, 0, 0]);
}

#[test]
fn dispatch_is_case_insensitive_and_checks_arity() {
    let mut m = HMap::new();
    let mut out = vec![];
    do_request(&mut m, &strings(&["SeT", "a", "1"]), &mut out);
    assert_eq!(out, vec![0]);
    let mut out = vec![];
    do_request(&mut m, &strings(&["GET", "a"]), &mut out);
    assert_eq!(out, vec![2, 1, 0, 0, 0, b'1']);
    let mut unknown = vec![1, 1, 0, 0, 0, 11, 0, 0, 0];
    unknown.extend_from_slice(b"Unknown cmd");
    for bad in [vec!["get"], vec!["get", "a", "b"], vec!["keys", "x"], vec!["ping"]] {
        let mut out = vec![];
        do_request(&mut m, &strings(&bad), &mut out);
        assert_eq!(out, unknown);
    }
    // run_command takes the name as already lowercased
    let mut out = vec![];
    run_command(&mut m, "GET", &strings(&["GET", "a"]), &mut out);
    assert_eq!(out, unknown);
    let mut out = vec![];
    run_command(&mut m, "get", &strings(&["GET", "a"]), &mut out);
    assert_eq!(out, vec![2, 1, 0, 0, 0, b'1']);
}

#[test]
fn responses_are_framed_and_capped() {
    let mut m = HMap::new();
    let w = build_response(&mut m, &strings(&["set", "k", "v"]));
    assert_eq!(w, vec![1, 0, 0, 0, 0]);
    // a value too long to send back becomes an error
    let big = "x".repeat(5000);
    build_response(&mut m, &strings(&["set", "big", &big]));
    let w = build_response(&mut m, &strings(&["get", "big"]));
    let mut err = vec![1, 2, 0, 0, 0, 19, 0, 0, 0];
    err.extend_from_slice(b"response is too big");
    assert_eq!(w, frame(&err));
}

#[test]
fn client_decodes_each_type() {
    let mut ev = vec![];
    assert_eq!(on_response(&[0], &mut ev), Ok(1));
    assert!(matches!(ev[..], [Event::Nil]));
    let mut ev = vec![];
    assert_eq!(on_response(&[2, 2, 0, 0, 0, b'h', b'i', 99], &mut ev), Ok(7));
    assert!(matches!(&ev[..], [Event::Str(s)] if s == b"hi"));
    let mut ev = vec![];
    assert_eq!(on_response(&[3, 0xfe, 0xff, 0xff, 0xff, 0xff, 0xff, 0xff, 0xff], &mut ev), Ok(9));
    assert!(matches!(ev[..], [Event::Int(-2)]));
    let mut ev = vec![];
    assert_eq!(on_response(&[1, 1, 0, 0, 0, 2, 0, 0, 0, b'n', b'o'], &mut ev), Ok(11));
    assert!(matches!(&ev[..], [Event::Error(1, m)] if m == b"no"));
    let mut ev = vec![];
    let arr = [4, 2, 0, 0, 0, 0, 2, 1, 0, 0, 0, b'k'];
    assert_eq!(on_response(&arr, &mut ev), Ok(12));
    assert!(matches!(&ev[..], [Event::ArrBegin(2), Event::Nil, Event::Str(k), Event::ArrEnd] if k == b"k"));
    // nested arrays
    let mut ev = vec![];
    assert_eq!(on_response(&[4, 1, 0, 0, 0, 4, 0, 0, 0, 0], &mut ev), Ok(10));
    assert_eq!(ev.len(), 4);
}

#[test]
fn client_reports_malformed_responses() {
    let mut ev = vec![];
    assert_eq!(on_response(&[], &mut ev), Err(DecodeError::Empty));
    assert_eq!(on_response(&[1, 0, 0], &mut ev), Err(DecodeError::BadErr));
    assert_eq!(on_response(&[1, 0, 0, 0, 0, 5, 0, 0, 0, b'a'], &mut ev), Err(DecodeError::BadErr));
    assert_eq!(on_response(&[2, 1], &mut ev), Err(DecodeError::BadStr));
    assert_eq!(on_response(&[2, 3, 0, 0, 0, b'a'], &mut ev), Err(DecodeError::BadStr));
    assert_eq!(on_response(&[3, 1, 2], &mut ev), Err(DecodeError::BadInt));
    assert_eq!(on_response(&[4, 1], &mut ev), Err(DecodeError::BadArr));
    assert_eq!(on_response(&[9], &mut ev), Err(DecodeError::UnknownType));
    assert!(ev.is_empty());
    // an array shows what it decoded before the bad element, and no end
    let mut ev = vec![];
    assert_eq!(on_response(&[4, 2, 0, 0, 0, 0, 7], &mut ev), Err(DecodeError::UnknownType));
    assert!(matches!(ev[..], [Event::ArrBegin(2), Event::Nil]));
}

#[test]
fn client_builds_requests() {
    let w = build_req(&["get", "k"]).unwrap();
    assert_eq!(w, frame(&body(&[b"get", b"k"])));
    assert_eq!(w.len(), 4 + 4 + 4 + 3 + 4 + 1);
    let long = "y".repeat(5000);
    assert_eq!(build_req(&["set", "k", &long]), None);
    // exactly MAX_MSG bytes of body is allowed
    let fits = "z".repeat(4096 - 4 - 4);
    assert_eq!(build_req(&[&fits]).map(|w| w.len()), Some(4 + 4096));
    let over = "z".repeat(4096 - 4 - 4 + 1);
    assert_eq!(build_req(&[&over]), None);
}

#[test]
fn server_reads_what_the_client_sends() {
    let w = build_req(&["set", "clé", "valeur"]).unwrap();
    match parse_frame(&w) {
        Frame::Request(cmd, used) => {
            assert_eq!(cmd, strings(&["set", "clé", "valeur"]));
            assert_eq!(used, w.len());
        }
        _ => panic!("expected a request"),
    }
}

#[test]
fn percentiles() {
    let v: Vec<u128> = (1..=10).collect();
    assert_eq!(percentile(&v, 50), 6);
    assert_eq!(percentile(&v, 95), 10);
    assert_eq!(percentile(&v, 99), 10);
    assert_eq!(percentile(&v, 0), 1);
    assert_eq!(percentile(&[], 50), 0);
    assert_eq!(percentile(&[7], 100), 7);
}

#[test]
fn client_shows_what_the_server_replies() {
    let mut m = HMap::new();
    for k in ["a", "bb", "ccc"] {
        build_response(&mut m, &strings(&["set", k, "v"]));
    }
    let w = build_response(&mut m, &strings(&["keys"]));
    let mut ev = vec![];
    assert_eq!(on_response(&w[4..], &mut ev), Ok(w.len() - 4));
    assert!(matches!(ev.first(), Some(Event::ArrBegin(3))));
    assert!(matches!(ev.last(), Some(Event::ArrEnd)));
    let mut shown: Vec<Vec<u8>> = ev
        .iter()
        .filter_map(|e| match e {
            Event::Str(s) => Some(s.clone()),
            _ => None,
        })
        .collect();
    shown.sort();
    assert_eq!(shown, vec![b"a".to_vec(), b"bb".to_vec(), b"ccc".to_vec()]);

    let w = build_response(&mut m, &strings(&["del", "a"]));
    let mut ev = vec![];
    assert_eq!(on_response(&w[4..], &mut ev), Ok(9));
    assert!(matches!(ev[..], [Event::Int(1)]));

    let w = build_response(&mut m, &strings(&["nope"]));
    let mut ev = vec![];
    on_response(&w[4..], &mut ev).unwrap();
    assert!(matches!(&ev[..], [Event::Error(1, msg)] if msg == b"Unknown cmd"));
}

#[test]
fn percentiles_grow_with_the_percent() {
    let v: Vec<u128> = vec![3, 3, 5, 8, 13, 21, 34];
    let mut last = percentile(&v, 0);
    assert_eq!(last, 3);
    for p in 1..=120 {
        let x = percentile(&v, p);
        assert!(last <= x && x <= 34);
        last = x;
    }
    assert_eq!(percentile(&v, 50), 8);
}

#[test]
fn client_decodes_nested_arrays() {
    // [nil, [1, "ab"], err(2, "x")] followed by a stray byte
    let mut o = vec![];
    out_arr(&mut o, 3);
    out_nil(&mut o);
    out_arr(&mut o, 2);
    out_int(&mut o, 1);
    out_str(&mut o, "ab");
    out_err(&mut o, 2, "x");
    let len = o.len();
    o.push(0);
    let mut ev = vec![];
    assert_eq!(on_response(&o, &mut ev), Ok(len));
    assert_eq!(ev.len(), 8);
    assert!(matches!(ev[0], Event::ArrBegin(3)));
    assert!(matches!(ev[1], Event::Nil));
    assert!(matches!(ev[2], Event::ArrBegin(2)));
    assert!(matches!(ev[3], Event::Int(1)));
    assert!(matches!(&ev[4], Event::Str(s) if s == b"ab"));
    assert!(matches!(ev[5], Event::ArrEnd));
    assert!(matches!(&ev[6], Event::Error(2, m) if m == b"x"));
    assert!(matches!(ev[7], Event::ArrEnd));
}

#[test]
fn parse_req_reads_back_built_strings() {
    let w = build_req(&["get", "k"]).unwrap();
    assert_eq!(&w[..4], &[16, 0, 0, 0]);
    assert_eq!(parse_req(&w[4..]), Some(strings(&["get", "k"])));
    let data = [2u8, 0, 0, 0, 3, 0, 0, 0, b'g', b'e', b't', 1, 0, 0, 0, b'k'];
    assert_eq!(parse_req(&data), Some(strings(&["get", "k"])));
}

#[test]
fn averages_round_down_and_report_overflow() {
    assert_eq!(average(&[]), Some(0));
    assert_eq!(average(&[1, 2, 4]), Some(2));
    assert_eq!(average(&[10]), Some(10));
    assert_eq!(average(&[u128::MAX, 0]), Some(u128::MAX / 2));
    assert_eq!(average(&[u128::MAX, 1]), None);
}
