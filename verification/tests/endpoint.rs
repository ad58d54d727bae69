use ternary_ledger::endpoint::{answer, request_complete, respond, respond_raw, response_bytes, Reply, Status};
use ternary_ledger::text::{append_decimal, chars_of, parse_number};
use ternary_ledger::wire::encode;
use ternary_ledger::{GeneratedToken, Ledger, LedgerConfig, TernaryCode, Viability};

fn sample() -> Ledger {
    let mut l = Ledger::new(LedgerConfig { n_vocab: 1000, n_window: 4, n_code: 8, ..LedgerConfig::default() });
    l.register_pattern(&[10, 20, 30, 40]);
    l.register_pattern(&[1, 1, 2, 2]);
    l
}

fn ask(l: &mut Ledger, method: &str, path: &str, body: &[u8]) -> Reply {
    answer(l, &chars_of(method), &chars_of(path), body)
}

fn send(l: &mut Ledger, raw: &[u8]) -> Vec<u8> {
    respond(l, raw, &String::from_utf8_lossy(raw))
}

fn text_of(r: &Reply) -> String {
    String::from_utf8(r.body.clone()).unwrap()
}

#[test]
fn get_returns_the_ledger() {
    let mut l = sample();
    let r = ask(&mut l, "GET", "/ledger", &[]);
    assert_eq!(r.status, Status::Success);
    assert_eq!(r.body, encode(&l));
    assert_eq!(l.len(), 2);
}

#[test]
fn post_replaces_the_ledger() {
    let mut source = sample();
    let sent = ask(&mut source, "GET", "/ledger", &[]).body;
    let mut l = Ledger::new(LedgerConfig::default());
    l.register_pattern(&[0; 8]);
    let r = ask(&mut l, "POST", "/ledger", &sent);
    assert_eq!(r.status, Status::Success);
    assert_eq!(text_of(&r), "ok");
    assert_eq!(l.entries(), source.entries());
    assert_eq!(l.config().n_vocab, 1000);
}

#[test]
fn a_bad_post_changes_nothing() {
    let mut l = sample();
    let before = l.entries();
    let r = ask(&mut l, "POST", "/ledger", b"nope");
    assert_eq!(r.status, Status::BadRequest);
    assert_eq!(text_of(&r), "bad ledger: wire: bad magic");
    assert_eq!(l.entries(), before);
    let mut cut = encode(&l);
    cut.pop();
    let r = ask(&mut l, "POST", "/ledger", &cut);
    assert_eq!(r.status, Status::BadRequest);
    assert_eq!(text_of(&r), "bad ledger: wire: truncated u32");
    assert_eq!(l.entries(), before);
}

#[test]
fn check_knows_the_minted_ids() {
    let mut l = sample();
    for (path, known) in [
        ("/check/1000", true),
        ("/check/1001", true),
        ("/check/+1001", true),
        ("/check//check/1001", true),
        ("/check/check/1001", false),
        ("/check//1001", false),
        ("/check/1002", false),
        ("/check/", false),
        ("/check/x", false),
        ("/check/-1", false),
        ("/check/4294968296", false),
        ("/check/01000", true),
    ] {
        let r = ask(&mut l, "GET", path, &[]);
        if known {
            assert_eq!(r.status, Status::Success, "{path}");
            assert_eq!(text_of(&r), "recognized");
        } else {
            assert_eq!(r.status, Status::NotFound, "{path}");
            assert_eq!(text_of(&r), "unknown etoken in ledger");
        }
    }
}

#[test]
fn other_requests_are_not_found() {
    let mut l = sample();
    for (method, path) in [("GET", "/"), ("PUT", "/ledger"), ("GET", "/ledger/"), ("POST", "/check/1000"), ("", "")] {
        let r = ask(&mut l, method, path, &[]);
        assert_eq!(r.status, Status::NotFound);
        assert_eq!(text_of(&r), "not found");
    }
    assert_eq!(l.len(), 2);
}

#[test]
fn a_response_in_bytes() {
    let r = Reply { status: Status::Success, body: b"recognized".to_vec() };
    assert_eq!(
        String::from_utf8(response_bytes(&r)).unwrap(),
        "HTTP/1.1 200 OK\r\nContent-Type: application/octet-stream\r\nContent-Length: 10\r\nConnection: close\r\n\r\nrecognized"
    );
    assert_eq!(Status::BadRequest.line(), "400 Bad Request");
    assert_eq!(Status::NotFound.line(), "404 Not Found");
    assert_eq!(Status::Conflict.line(), "409 Conflict");
}

#[test]
fn numbers_in_decimal() {
    for n in [0u32, 7, 10, 99, 100, 12_345, u32::MAX] {
        let mut s = String::new();
        append_decimal(&mut s, n as usize);
        assert_eq!(s, n.to_string());
        assert_eq!(parse_number(&chars_of(&s), 0), Some(n));
    }
    assert_eq!(parse_number(&chars_of("4294967296"), 0), None);
    assert_eq!(parse_number(&chars_of("+"), 0), None);
    assert_eq!(parse_number(&chars_of("ab12"), 2), Some(12));
    assert_eq!(parse_number(&chars_of("1\u{663}"), 0), None);
}

#[test]
fn a_request_is_taken_apart() {
    let mut l = sample();
    let ledger = encode(&l);
    let out = send(&mut l, b"GET /ledger HTTP/1.1\r\nHost: x\r\n\r\n");
    assert!(out.starts_with(b"HTTP/1.1 200 OK\r\n"));
    assert!(out.ends_with(&ledger));
    let head = format!("Content-Length: {}\r\n", ledger.len());
    assert!(String::from_utf8_lossy(&out).contains(&head));

    let mut other = Ledger::new(LedgerConfig::default());
    let mut raw = b"POST /ledger HTTP/1.1\r\n\r\n".to_vec();
    raw.extend(&ledger);
    let out = send(&mut other, &raw);
    assert!(out.starts_with(b"HTTP/1.1 200 OK\r\n"));
    assert!(out.ends_with(b"\r\n\r\nok"));
    assert_eq!(other.entries(), l.entries());

    let out = send(&mut other, b"  GET \t /check/1001\nGET /ledger\r\n\r\n");
    assert!(out.ends_with(b"recognized"));
    let out = send(&mut other, b"\r\n\r\n");
    assert!(out.starts_with(b"HTTP/1.1 404 Not Found\r\n"));
    assert!(out.ends_with(b"not found"));
    assert!(send(&mut other, b"").ends_with(b"not found"));
    assert!(send(&mut other, "GET\u{a0}/check/1001\u{3000}x".as_bytes()).ends_with(b"recognized"));
}

#[test]
fn a_request_is_answered_from_its_bytes() {
    let mut l = sample();
    let ledger = encode(&l);
    // the bytes of a ledger are no UTF-8, and still arrive as they are
    let id = l.lookup_pattern(&[1, 1, 2, 2]).unwrap();
    l.set_entry(id, TernaryCode::new(vec![-1; 8]), Viability::from_bits(0xff80_c0ff));
    let changed = encode(&l);
    assert!(String::from_utf8(changed.clone()).is_err());
    let mut raw = b"POST /ledger HTTP/1.1\r\n\r\n".to_vec();
    raw.extend(&changed);
    let mut other = Ledger::new(LedgerConfig::default());
    assert!(respond_raw(&mut other, &raw).ends_with(b"\r\n\r\nok"));
    assert_eq!(encode(&other), changed);
    assert_ne!(changed, ledger);
    assert!(respond_raw(&mut other, b"GET /ledger HTTP/1.1\r\n\r\n").ends_with(&changed));
    assert!(respond_raw(&mut other, "GET\u{3000}/check/1001".as_bytes()).ends_with(b"recognized"));
    assert!(respond_raw(&mut other, b"GET \xff/check/1001").ends_with(b"not found"));
    assert!(respond_raw(&mut other, b"GET /check/1001 \xff\xfe\r\n").ends_with(b"recognized"));
    assert!(respond_raw(&mut other, b"GET /check/1001\xff\r\n").ends_with(b"unknown etoken in ledger"));
    assert!(respond_raw(&mut other, b"").ends_with(b"not found"));
}

#[test]
fn an_upload_with_a_bad_entry_is_refused() {
    let mut l = sample();
    let before = l.entries();
    let mut other = sample();
    other.add_raw(GeneratedToken {
        id: 3,
        pattern: vec![1, 2, 3, 4],
        code: TernaryCode::new(vec![0; 8]),
        frequency: 1,
        viability: Viability::half(),
    });
    let r = ask(&mut l, "POST", "/ledger", &encode(&other));
    assert_eq!(r.status, Status::BadRequest);
    assert_eq!(text_of(&r), "bad ledger: wire: bad entry");
    assert_eq!(l.entries(), before);
}

#[test]
fn a_body_starts_behind_the_first_blank_line() {
    let mut l = sample();
    let out = send(&mut l, b"POST /ledger\r\n\r\nnope\r\n\r\n");
    assert!(out.starts_with(b"HTTP/1.1 400 Bad Request\r\n"));
    assert!(out.ends_with(b"bad ledger: wire: bad magic"));
    let out = send(&mut l, b"POST /ledger\r\n");
    assert!(out.ends_with(b"bad ledger: wire: truncated u32"));
    assert_eq!(l.len(), 2);
}

#[test]
fn a_head_ends_with_a_blank_line() {
    assert!(request_complete(b"GET / HTTP/1.1\r\n\r\n"));
    assert!(request_complete(b"\r\n\r\nbody"));
    assert!(!request_complete(b"GET / HTTP/1.1\r\n\r"));
    assert!(!request_complete(b"\n\n"));
    assert!(!request_complete(b""));
}

#[test]
fn a_request_is_complete_with_the_body_it_announces() {
    assert!(!request_complete(b"POST / HTTP/1.1\r\nContent-Length: 3\r\n\r\n"));
    assert!(!request_complete(b"POST / HTTP/1.1\r\nContent-Length: 3\r\n\r\nab"));
    assert!(request_complete(b"POST / HTTP/1.1\r\nContent-Length: 3\r\n\r\nabc"));
    assert!(request_complete(b"POST / HTTP/1.1\r\nContent-Length: 3\r\n\r\nabcd"));
    assert!(!request_complete(b"POST / HTTP/1.1\r\nHost: x\r\ncONTENT-lENGTH:\t 012\r\nA: b\r\n\r\n\r\n\r\n1234567"));
    assert!(request_complete(b"POST / HTTP/1.1\r\nHost: x\r\ncONTENT-lENGTH:\t 012\r\nA: b\r\n\r\n\r\n\r\n12345678"));
    // a length beyond all lengths never arrives
    assert!(!request_complete(b"POST /\r\nContent-Length: 99999999999999999999999999\r\n\r\nabc"));
    assert!(!request_complete(b"POST /\r\nContent-Length: 18446744073709551616\r\n\r\n"));
    // only a line of the head that starts with the name announces a length, and the first does
    assert!(request_complete(b"POST /\r\nX-Content-Length: 3\r\n\r\n"));
    assert!(request_complete(b"POST /\r\nContent-Length 3\r\n\r\n"));
    assert!(request_complete(b"POST /\r\nContent-Length: x\r\n\r\n"));
    assert!(request_complete(b"POST /\r\n\r\n\r\nContent-Length: 90"));
    assert!(request_complete(b"POST /\r\nContent-Length: 1\r\nContent-Length: 3\r\n\r\na"));
}

/// The bytes of an entry: an id and a frequency below 128, a half, four words and eight values.
fn entry(id: &[u8], first: u8) -> Vec<u8> {
    let mut bytes = id.to_vec();
    bytes.extend([7, 0, 0, 0x80, 0x3f]);
    bytes.extend([4, first, 0, 0, 0, 2, 0, 0, 0, 3, 0, 0, 0, 4, 0, 0, 0]);
    bytes.extend([8, 1, 0xff, 0, 1, 0, 0xff, 1, 0]);
    bytes
}

#[test]
fn an_uploaded_entry_is_minted() {
    let mut l = sample();
    let r = ask(&mut l, "POST", "/mint_e_token/", &entry(&[0xa0, 0x18], 1)); // 3104
    assert_eq!(r.status, Status::Success);
    assert_eq!(text_of(&r), "minted");
    assert_eq!(l.len(), 3);
    assert_eq!(text_of(&ask(&mut l, "GET", "/check/3104", &[])), "recognized");
    let t = l.entries().pop().unwrap();
    assert_eq!(t.id, 3104);
    assert_eq!(t.pattern, vec![1, 2, 3, 4]);
    assert_eq!(t.code.v, vec![1, -1, 0, 1, 0, -1, 1, 0]);
    // how often it was used and how viable it is, is this ledger's to say
    assert_eq!(t.frequency, 1);
    assert_eq!(t.viability.to_bits(), 0.5f32.to_bits());
    // the next id is past it
    assert_eq!(l.register_pattern(&[9, 9, 9, 9]), 3105);
    // bytes behind the entry are not read, and the path need only start with the name
    let mut more = entry(&[0xa5, 0x18], 5);
    more.extend([1, 2, 3]);
    assert_eq!(text_of(&ask(&mut l, "POST", "/mint_e_token?x", &more)), "minted");
    assert_eq!(l.lookup_pattern(&[5, 2, 3, 4]), Some(3109));
    // a peer can receive the ledger
    let mut peer = Ledger::new(LedgerConfig::default());
    assert_eq!(text_of(&ask(&mut peer, "POST", "/ledger", &encode(&l))), "ok");
    assert_eq!(peer.entries(), l.entries());
}

#[test]
fn an_entry_with_a_taken_id_is_a_conflict() {
    let mut l = sample();
    let before = l.entries();
    for id in [&[0xe8u8, 0x07][..], &[0xe9, 0x07], &[0xe7, 0x07], &[0x20]] {
        let r = ask(&mut l, "POST", "/mint_e_token/", &entry(id, 1)); // 1000, 1001, 999, 32
        assert_eq!(r.status, Status::Conflict);
        assert_eq!(text_of(&r), "eid already minted or below n_vocab");
        assert_eq!(l.entries(), before);
    }
}

#[test]
fn a_bad_entry_is_refused() {
    let mut l = sample();
    let before = l.entries();
    let good = entry(&[0xa0, 0x18], 1);
    for n in 0..good.len() {
        let r = ask(&mut l, "POST", "/mint_e_token/", &good[..n]);
        assert_eq!(r.status, Status::BadRequest);
        assert!(text_of(&r).starts_with("bad entry: wire: truncated u"));
    }
    let mut wide = good.clone();
    *wide.last_mut().unwrap() = 2;
    let r = ask(&mut l, "POST", "/mint_e_token/", &wide);
    assert_eq!(r.status, Status::BadRequest);
    assert_eq!(text_of(&r), "bad entry: wire: bad entry");
    assert_eq!(ask(&mut l, "GET", "/mint_e_token/", &good).status, Status::NotFound);
    assert_eq!(ask(&mut l, "POST", "/mint", &good).status, Status::NotFound);
    assert_eq!(l.entries(), before);
}

#[test]
fn words_end_at_white_space() {
    // every character that std takes for white space separates the words, and no other does
    let mut l = sample();
    for c in (0u32..0x3100).filter_map(char::from_u32) {
        if c == '\n' {
            continue;
        }
        let raw = format!("GET{c}/check/1001");
        let found = send(&mut l, raw.as_bytes()).ends_with(b"recognized");
        assert_eq!(found, c.is_whitespace());
    }
}
