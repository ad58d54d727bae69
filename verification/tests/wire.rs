use ternary_ledger::layout::Fault;
use ternary_ledger::wire::{
    decode, decode_entry, encode, put_u32, put_varint, put_viability, Reader, MAGIC, TRAILER, VERSION,
};
use ternary_ledger::{GeneratedToken, Ledger, LedgerConfig, TernaryCode, Viability};

fn score(v: f32) -> Viability {
    Viability::from_bits(v.to_bits())
}

fn small() -> LedgerConfig {
    LedgerConfig { n_vocab: 1000, n_window: 4, n_code: 8, ..LedgerConfig::default() }
}

/// Magic, version, vocabulary, window, code dimension and the number of entries.
fn header(n_entries: u8) -> Vec<u8> {
    vec![0x54, 0x4c, 0x44, 0x47, 1, 0xe8, 0x03, 0, 0, 4, 8, n_entries]
}

fn trailer() -> Vec<u8> {
    vec![0x44, 0x4c, 0, 0]
}

/// A viability of one half, and the window and the code of an entry that is as it should be.
fn rest_of_entry(first: u8) -> Vec<u8> {
    let mut bytes = vec![0, 0, 0, 0x3f, 4];
    bytes.extend([first, 0, 0, 0, 0, 0, 0, 0, 0, 0, 0, 0, 0, 0, 0, 0]);
    bytes.extend([8, 1, 0xff, 0, 1, 0, 0xff, 1, 0]);
    bytes
}

fn minted(id: u32, pattern: Vec<u32>, code: Vec<i8>) -> GeneratedToken {
    GeneratedToken { id, pattern, code: TernaryCode::new(code), frequency: 1, viability: score(0.5) }
}

/// What a peer says of a ledger with the one entry.
fn answer_to(t: GeneratedToken) -> Result<Vec<GeneratedToken>, String> {
    let mut l = Ledger::new(small());
    l.add_raw(t);
    match decode(&encode(&l)) {
        Ok(back) => Ok(back.entries()),
        Err(e) => Err(e.0),
    }
}

fn error_of(bytes: &[u8]) -> String {
    match decode(bytes) {
        Ok(_) => panic!("decoded"),
        Err(e) => e.0,
    }
}

#[test]
fn roundtrip() {
    let mut led = Ledger::new(LedgerConfig { n_vocab: 1000, n_window: 4, n_code: 8, ..LedgerConfig::default() });
    let w: Vec<u32> = vec![10, 20, 30, 40];
    led.register_pattern(&w);
    led.set_entry(led.lookup_pattern(&w).unwrap(), TernaryCode::new(vec![1, -1, 0, 1, 1, 0, -1, 1]), score(0.87));
    let bytes = encode(&led);
    let back = decode(&bytes).unwrap();
    assert_eq!(back.config().n_vocab, 1000);
    assert_eq!(back.len(), 1);
    let e = back.entries();
    assert_eq!(e[0].pattern, w);
    assert_eq!(e[0].code.dim(), 8);
    assert!((f32::from_bits(e[0].viability.to_bits()) - 0.87).abs() < 1e-6);
}

#[test]
fn constants() {
    assert_eq!(MAGIC.to_le_bytes(), *b"TLDG");
    assert_eq!(VERSION, 1);
    assert_eq!(TRAILER.to_le_bytes(), *b"DL\0\0");
}

#[test]
fn an_empty_ledger_in_bytes() {
    let mut expected = header(0);
    expected.extend(trailer());
    assert_eq!(encode(&Ledger::new(small())), expected);
    let big = Ledger::new(LedgerConfig::default());
    assert_eq!(
        encode(&big),
        vec![0x54, 0x4c, 0x44, 0x47, 1, 0, 0xca, 3, 0, 8, 64, 0, 0x44, 0x4c, 0, 0]
    );
}

#[test]
fn an_entry_in_bytes() {
    let mut l = Ledger::new(small());
    l.add_raw(GeneratedToken {
        id: 1300,
        pattern: vec![1, 0x0102_0304, 0, 2],
        code: TernaryCode::new(vec![1, -1, 0, 1, 0, 0, -1, 1]),
        frequency: 16_384,
        viability: score(0.5),
    });
    let mut expected = header(1);
    expected.extend([0x94, 0x0a]); // id
    expected.extend([0x80, 0x80, 0x01]); // frequency
    expected.extend([0, 0, 0, 0x3f]); // viability
    expected.extend([4, 1, 0, 0, 0, 4, 3, 2, 1, 0, 0, 0, 0, 2, 0, 0, 0]); // pattern
    expected.extend([8, 1, 0xff, 0, 1, 0, 0, 0xff, 1]); // code
    expected.extend(trailer());
    let bytes = encode(&l);
    assert_eq!(bytes, expected);
    assert_eq!(decode(&bytes).unwrap().entries(), l.entries());
}

#[test]
fn three_windows_make_115_bytes() {
    let mut l = Ledger::new(small());
    for w in [[10, 20, 30, 40], [1, 1, 2, 2], [5, 6, 7, 8]] {
        let id = l.register_pattern(&w);
        assert!(l.set_entry(id, TernaryCode::new(vec![1, -1, 0, 1, 0, -1, 1, 0]), score(0.81)));
    }
    assert_eq!(encode(&l).len(), 115);
}

#[test]
fn what_does_not_travel_has_its_default() {
    let l = Ledger::new(LedgerConfig {
        n_vocab: 5,
        n_window: 300,
        n_code: 70_000,
        min_viability: score(0.9),
        max_entries: 1,
    });
    let back = decode(&encode(&l)).unwrap();
    assert_eq!(back.config().n_vocab, 5);
    assert_eq!(back.config().n_window, 300);
    assert_eq!(back.config().n_code, 70_000);
    assert_eq!(back.config().max_entries, 24_000);
    assert_eq!(back.config().min_viability.to_bits(), 0.05f32.to_bits());
}

#[test]
fn every_part_of_a_ledger_arrives() {
    let mut l = Ledger::new(small());
    for i in 0..50u32 {
        let id = l.register_pattern(&[i, i * 7, u32::MAX - i, 3]);
        for _ in 0..i {
            l.register_pattern(&[i, i * 7, u32::MAX - i, 3]);
        }
        let code: Vec<i8> = (0..8).map(|j| ((i + j) % 3) as i8 - 1).collect();
        l.set_entry(id, TernaryCode::new(code), score(0.1 + i as f32 / 50.0));
    }
    l.add_raw(GeneratedToken {
        id: 1049,
        pattern: vec![u32::MAX; 4],
        code: TernaryCode::new(vec![-1; 8]),
        frequency: u32::MAX,
        viability: score(-0.0),
    });
    assert_eq!(l.len(), 50);
    let bytes = encode(&l);
    let mut back = decode(&bytes).unwrap();
    assert_eq!(back.entries(), l.entries());
    assert_eq!(encode(&back), bytes);
    for i in 0..50u32 {
        let w = [i, i * 7, u32::MAX - i, 3];
        assert_eq!(back.lookup_pattern(&w), l.lookup_pattern(&w));
    }
    // the next id is past all that arrived
    assert_eq!(back.register_pattern(&[0, 0, 0, 0]), 1050);
}

#[test]
fn a_score_that_is_no_number_arrives() {
    let mut l = Ledger::new(small());
    let id = l.register_pattern(&[1, 2, 3, 4]);
    l.set_entry(id, TernaryCode::new(vec![0; 8]), Viability::from_bits(0x7fc0_1234));
    let back = decode(&encode(&l)).unwrap();
    assert_eq!(back.entries()[0].viability.to_bits(), 0x7fc0_1234);
}

#[test]
fn every_truncation_is_refused() {
    let mut l = Ledger::new(small());
    l.register_pattern(&[1, 2, 3, 4]);
    l.register_pattern(&[5, 6, 7, 8]);
    let bytes = encode(&l);
    for n in 0..bytes.len() {
        assert!(decode(&bytes[..n]).is_err());
    }
    assert!(decode(&bytes).is_ok());
}

#[test]
fn bytes_behind_the_trailer_are_ignored() {
    let mut l = Ledger::new(small());
    l.register_pattern(&[1, 2, 3, 4]);
    let mut bytes = encode(&l);
    bytes.extend([1, 2, 3]);
    assert_eq!(decode(&bytes).unwrap().entries(), l.entries());
}

#[test]
fn truncated_word() {
    assert_eq!(error_of(&[]), "truncated u32");
    assert_eq!(error_of(&[0x54, 0x4c, 0x44]), "truncated u32");
    assert_eq!(error_of(&header(0)), "truncated u32");
}

#[test]
fn truncated_byte() {
    assert_eq!(error_of(&header(0)[..4]), "truncated u8");
    assert_eq!(error_of(&header(0)[..9]), "truncated u8");
    assert_eq!(error_of(&header(1)), "truncated u8");
}

#[test]
fn bad_magic() {
    assert_eq!(error_of(&[0, 0, 0, 0, 1]), "bad magic");
}

#[test]
fn unsupported_version() {
    let mut bytes = header(0);
    bytes[4] = 2;
    assert_eq!(error_of(&bytes), "unsupported version 2");
    bytes[4] = 255;
    assert_eq!(error_of(&bytes), "unsupported version 255");
    bytes[4] = 0;
    assert_eq!(error_of(&bytes), "unsupported version 0");
    bytes[4] = 40;
    assert_eq!(decode(&bytes).err().unwrap().to_string(), "wire: unsupported version 40");
}

#[test]
fn bad_trailer() {
    let mut bytes = header(0);
    bytes.extend([0x44, 0x4c, 0, 1]);
    assert_eq!(error_of(&bytes), "bad trailer");
}

#[test]
fn varint_too_long() {
    let mut bytes = header(0)[..9].to_vec();
    bytes.extend([0xff; 10]);
    assert_eq!(error_of(&bytes), "varint too long");
    let mut bytes = header(0)[..9].to_vec();
    bytes.extend([0x80; 11]);
    assert_eq!(error_of(&bytes), "varint too long");
}

#[test]
fn a_number_of_ten_bytes_is_read() {
    // 2^63 + 3: the tenth byte adds the highest bit, and what is above it is dropped
    let mut bytes = header(0)[..9].to_vec();
    bytes.extend([0x83, 0x80, 0x80, 0x80, 0x80, 0x80, 0x80, 0x80, 0x80, 0x7f]);
    bytes.extend([8, 0]);
    bytes.extend(trailer());
    assert_eq!(decode(&bytes).unwrap().config().n_window as u64, (1u64 << 63) + 3);
}

#[test]
fn a_number_may_be_padded() {
    let mut bytes = header(0)[..9].to_vec();
    bytes.extend([0x84, 0x80, 0x00, 8, 0]);
    bytes.extend(trailer());
    assert_eq!(decode(&bytes).unwrap().config().n_window, 4);
}

#[test]
fn an_id_keeps_its_low_word() {
    let mut bytes = header(1);
    bytes.extend([0xed, 0x87, 0x80, 0x80, 0x10, 1]); // 2^32 + 1005
    bytes.extend(rest_of_entry(3));
    bytes.extend(trailer());
    let l = decode(&bytes).unwrap();
    assert_eq!(l.entries()[0].id, 1005);
    assert_eq!(l.entries()[0].pattern, vec![3, 0, 0, 0]);
    assert_eq!(l.entries()[0].code.v, vec![1, -1, 0, 1, 0, -1, 1, 0]);
    // and where the low word is below the vocabulary, the entry is refused
    let mut bytes = header(1);
    bytes.extend([0x85, 0x80, 0x80, 0x80, 0x10, 1]); // 2^32 + 5
    bytes.extend(rest_of_entry(3));
    bytes.extend(trailer());
    assert_eq!(error_of(&bytes), "bad entry");
}

#[test]
fn an_entry_unlike_a_minted_one_is_refused() {
    let window = vec![1, 2, 3, 4];
    let code = vec![0, 1, -1, 0, 1, -1, 0, 1];
    let good = minted(1000, window.clone(), code.clone());
    assert_eq!(answer_to(good.clone()), Ok(vec![good]));
    let bad: Result<Vec<GeneratedToken>, String> = Err("bad entry".to_string());
    assert_eq!(answer_to(minted(999, window.clone(), code.clone())), bad);
    assert_eq!(answer_to(minted(1000, vec![], code.clone())), bad);
    assert_eq!(answer_to(minted(1000, vec![1, 2, 3], code.clone())), bad);
    assert_eq!(answer_to(minted(1000, vec![1, 2, 3, 4, 5], code.clone())), bad);
    assert_eq!(answer_to(minted(1000, window.clone(), vec![])), bad);
    assert_eq!(answer_to(minted(1000, window.clone(), vec![0; 7])), bad);
    assert_eq!(answer_to(minted(1000, window.clone(), vec![0; 9])), bad);
    for value in [2, -2, i8::MAX, i8::MIN] {
        let mut code = vec![0; 8];
        code[7] = value;
        assert_eq!(answer_to(minted(1000, window.clone(), code)), bad);
    }
}

#[test]
fn one_bad_entry_refuses_the_ledger() {
    let mut bytes = header(2);
    bytes.extend([0xe8, 0x07, 1]);
    bytes.extend(rest_of_entry(1));
    bytes.extend([0xe7, 0x07, 1]);
    bytes.extend(rest_of_entry(2));
    bytes.extend(trailer());
    assert_eq!(decode(&bytes).err().unwrap().to_string(), "wire: bad entry");
    bytes[12 + 33] = 0xe9;
    assert_eq!(decode(&bytes).unwrap().len(), 2);
}

#[test]
fn numbers_arrive_as_they_were_sent() {
    for n in [1u32, 0x7f, 0x80, 0x3fff, 0x4000, 0x1f_ffff, 0x20_0000, 0xfff_ffff, 0x1000_0000, u32::MAX] {
        let mut t = minted(1000, vec![n; 4], vec![1; 8]);
        t.frequency = n;
        assert_eq!(answer_to(t.clone()), Ok(vec![t]));
    }
}

#[test]
fn a_number_is_read_back_wherever_it_stands() {
    for shift in 0..64 {
        for v in [(1u64 << shift) - 1, 1u64 << shift, u64::MAX >> shift] {
            for before in [vec![], vec![0xff], vec![1, 0x80, 3]] {
                let mut out = before.clone();
                put_varint(&mut out, v);
                let n = out.len();
                out.extend([0x80, 0xff]);
                let mut r = Reader { b: &out, pos: before.len() };
                assert!(matches!(r.varint(), Ok(w) if w == v));
                assert_eq!(r.pos, n);
            }
        }
    }
}

#[test]
fn words_and_scores_are_read_back() {
    let mut out = vec![9];
    put_u32(&mut out, 0x0102_0304);
    put_viability(&mut out, &Viability::from_bits(0x7fc0_1234));
    assert_eq!(out, vec![9, 4, 3, 2, 1, 0x34, 0x12, 0xc0, 0x7f]);
    let mut r = Reader { b: &out, pos: 0 };
    assert!(matches!(r.u8(), Ok(9)));
    assert!(matches!(r.u32(), Ok(0x0102_0304)));
    assert_eq!(r.viability().ok().unwrap().to_bits(), 0x7fc0_1234);
    assert_eq!(r.pos, 9);
    // where the bytes end, the position stays
    assert!(matches!(r.u8(), Err(Fault::TruncatedU8)));
    assert_eq!(r.pos, 9);
    r.pos = 6;
    assert!(matches!(r.u32(), Err(Fault::TruncatedU32)));
    assert!(matches!(r.viability(), Err(Fault::TruncatedU32)));
    assert_eq!(r.pos, 6);
}

#[test]
fn an_entry_by_itself() {
    let mut bytes = vec![5, 1];
    bytes.extend(rest_of_entry(3));
    let t = decode_entry(&bytes, &small()).unwrap();
    assert_eq!(t.id, 5);
    assert_eq!(t.pattern, vec![3, 0, 0, 0]);
    assert_eq!(t.frequency, 1);
    assert_eq!(decode_entry(&bytes[..9], &small()).err().unwrap().0, "truncated u32");
    let other = LedgerConfig { n_window: 3, ..small() };
    assert_eq!(decode_entry(&bytes, &other).err().unwrap().0, "bad entry");
    let other = LedgerConfig { n_code: 9, ..small() };
    assert_eq!(decode_entry(&bytes, &other).err().unwrap().to_string(), "wire: bad entry");
}

#[test]
fn scores_arrive_bit_for_bit() {
    for bits in [0u32, 1, 0x8000_0000, 0x3d4c_cccd, 0x7f7f_ffff, 0x7f80_0000, 0xff80_0000, 0x7fc0_0000, 0x7f80_0001, 0xffff_ffff] {
        let mut t = minted(1000, vec![1; 4], vec![1; 8]);
        t.viability = Viability::from_bits(bits);
        assert_eq!(answer_to(t).unwrap()[0].viability.to_bits(), bits);
    }
}

#[test]
fn a_length_beyond_the_bytes_is_refused() {
    let mut bytes = header(1);
    bytes.extend([1, 1, 0, 0, 0, 0x3f]);
    bytes.extend([0xff, 0xff, 0xff, 0xff, 0xff, 0xff, 0xff, 0xff, 0xff, 0x01]);
    bytes.extend(trailer());
    assert_eq!(error_of(&bytes), "truncated u32");
    let mut bytes = header(1);
    bytes.extend([1, 1, 0, 0, 0, 0x3f, 0]);
    bytes.extend([0xff, 0xff, 0xff, 0xff, 0x7f]);
    bytes.extend(trailer());
    assert_eq!(error_of(&bytes), "truncated u8");
}

#[test]
fn of_two_entries_with_one_id_the_later_stays() {
    let mut bytes = header(2);
    bytes.extend([0xf1, 0x07, 1]);
    bytes.extend(rest_of_entry(1));
    bytes.extend([0xf1, 0x07, 2]);
    bytes.extend(rest_of_entry(2));
    bytes.extend(trailer());
    let l = decode(&bytes).unwrap();
    assert_eq!(l.len(), 1);
    assert_eq!(l.lookup_pattern(&[2, 0, 0, 0]), Some(1009));
    assert_eq!(l.lookup_pattern(&[1, 0, 0, 0]), None);
}

#[test]
fn the_largest_id_arrives() {
    let mut l = Ledger::new(small());
    l.add_raw(minted(u32::MAX, vec![1; 4], vec![0; 8]));
    let back = decode(&encode(&l)).unwrap();
    assert!(back.contains(u32::MAX));
    assert!(!back.can_mint());
}
