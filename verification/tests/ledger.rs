use ternary_ledger::ledger::pattern_hash;
use ternary_ledger::{GeneratedToken, Ledger, LedgerConfig, TernaryCode, Viability};

fn score(v: f32) -> Viability {
    Viability::from_bits(v.to_bits())
}

fn token(id: u32, pattern: Vec<u32>, frequency: u32, viability: f32) -> GeneratedToken {
    GeneratedToken {
        id,
        pattern,
        code: TernaryCode::new(vec![1, 0, -1]),
        frequency,
        viability: score(viability),
    }
}

#[test]
fn mints_and_reuses() {
    let mut l = Ledger::new(LedgerConfig::default());
    let win: Vec<u32> = vec![1, 2, 3, 4, 5, 6, 7, 8];
    let id1 = l.register_pattern(&win);
    assert!(id1 >= l.config().n_vocab);
    let id2 = l.register_pattern(&win); // same pattern -> reuse
    assert_eq!(id1, id2);
    assert_eq!(l.lookup_pattern(&win), Some(id1));
    assert_eq!(l.len(), 1);
}

#[test]
fn evicts_below_cap() {
    let mut cfg = LedgerConfig::default();
    cfg.max_entries = 2;
    let mut l = Ledger::new(cfg);
    l.register_pattern(&[1, 1, 1, 1, 1, 1, 1, 1]);
    l.register_pattern(&[2, 2, 2, 2, 2, 2, 2, 2]);
    // make the first entry low viability, then a third forces eviction
    let first = l.entries()[0].id;
    l.set_entry(first, TernaryCode::new(vec![0; 64]), score(0.01));
    let w3: Vec<u32> = vec![3, 3, 3, 3, 3, 3, 3, 3];
    l.register_pattern(&w3);
    assert_eq!(l.len(), 2);
    assert_eq!(l.lookup_pattern(&w3), Some(l.entries().last().unwrap().id));
    assert_eq!(l.lookup_pattern(&[1, 1, 1, 1, 1, 1, 1, 1]), None);
    assert!(l.lookup_pattern(&[2, 2, 2, 2, 2, 2, 2, 2]).is_some());
}

#[test]
fn default_config_values() {
    let cfg = LedgerConfig::default();
    assert_eq!(cfg.n_vocab, 248_320);
    assert_eq!(cfg.n_window, 8);
    assert_eq!(cfg.n_code, 64);
    assert_eq!(f32::from_bits(cfg.min_viability.to_bits()), 0.05f32);
    assert_eq!(cfg.max_entries, 24_000);
    let copy = cfg.clone();
    assert_eq!(copy.n_vocab, cfg.n_vocab);
    assert_eq!(copy.max_entries, cfg.max_entries);
}

#[test]
fn pattern_hash_is_fnv1a() {
    assert_eq!(pattern_hash(&[]), 0xcbf2_9ce4_8422_2325);
    assert_eq!(pattern_hash(&[0x61]), 0xac804b820e4fe984);
    assert_eq!(pattern_hash(&[1, 2, 3, 4, 5, 6, 7, 8]), 0x6489bd86fccf7bad);
    assert_eq!(pattern_hash(&[0xdead_beef, 0xffff_ffff]), 0xa3f5f3fc21c16fb7);
}

#[test]
fn a_new_ledger_is_empty() {
    let l = Ledger::new(LedgerConfig::default());
    assert!(l.is_empty());
    assert_eq!(l.len(), 0);
    assert!(l.entries().is_empty());
    assert_eq!(l.lookup_pattern(&[1, 2, 3, 4, 5, 6, 7, 8]), None);
    assert!(!l.contains(248_320));
}

#[test]
fn first_mint_has_the_first_id_and_a_cold_code() {
    let mut l = Ledger::new(LedgerConfig::default());
    let win = [9, 8, 7, 6, 5, 4, 3, 2];
    assert_eq!(l.register_pattern(&win), 248_320);
    assert_eq!(l.register_pattern(&[1; 8]), 248_321);
    let e = l.entries();
    assert_eq!(e[0].id, 248_320);
    assert_eq!(e[0].pattern, win.to_vec());
    assert_eq!(e[0].code, TernaryCode::new(vec![0; 64]));
    assert_eq!(e[0].frequency, 1);
    assert_eq!(f32::from_bits(e[0].viability.to_bits()), 0.5);
    assert!(l.contains(248_321));
    assert!(!l.is_empty());
}

#[test]
fn a_window_of_the_wrong_length_is_refused() {
    let mut l = Ledger::new(LedgerConfig::default());
    assert_eq!(l.register_pattern(&[1, 2, 3]), u32::MAX);
    assert_eq!(l.register_pattern(&[0; 9]), u32::MAX);
    assert_eq!(l.len(), 0);
    // no id was spent
    assert_eq!(l.register_pattern(&[0; 8]), 248_320);
}

#[test]
fn reuse_counts_up_to_the_largest_word() {
    let mut l = Ledger::new(LedgerConfig::default());
    let win = [4; 8];
    l.register_pattern(&win);
    l.register_pattern(&win);
    l.register_pattern(&win);
    assert_eq!(l.entries()[0].frequency, 3);
    l.add_raw(token(5, win.to_vec(), u32::MAX, 0.5));
    assert_eq!(l.register_pattern(&win), 5);
    assert_eq!(l.entries()[0].frequency, u32::MAX);
}

#[test]
fn set_entry_replaces_code_and_viability() {
    let mut l = Ledger::new(LedgerConfig::default());
    let a = l.register_pattern(&[1; 8]);
    let b = l.register_pattern(&[2; 8]);
    assert!(l.set_entry(b, TernaryCode::new(vec![1, -1, 0]), score(0.25)));
    let e = l.entries();
    assert_eq!(e[0].id, a);
    assert_eq!(e[0].code.dim(), 64);
    assert_eq!(e[1].code.v, vec![1, -1, 0]);
    assert_eq!(e[1].viability.to_bits(), 0.25f32.to_bits());
    assert_eq!(e[1].frequency, 1);
    assert!(!l.set_entry(7, TernaryCode::new(vec![]), score(0.0)));
    assert_eq!(l.entries(), e);
}

#[test]
fn entries_come_by_increasing_id() {
    let mut l = Ledger::new(LedgerConfig::default());
    for id in [30, 10, 50, 20, 40] {
        l.add_raw(token(id, vec![id, id + 1], 1, 0.5));
    }
    let ids: Vec<u32> = l.entries().iter().map(|t| t.id).collect();
    assert_eq!(ids, vec![10, 20, 30, 40, 50]);
}

#[test]
fn add_raw_is_verbatim_and_moves_the_next_id() {
    let mut l = Ledger::new(LedgerConfig::default());
    let t = token(300_000, vec![1, 2], 9, 0.75);
    l.add_raw(t.clone());
    assert_eq!(l.entries(), vec![t]);
    assert_eq!(l.lookup_pattern(&[1, 2]), Some(300_000));
    assert_eq!(l.register_pattern(&[5; 8]), 300_001);
    // an id below the next one does not move it
    l.add_raw(token(3, vec![3], 1, 0.5));
    assert_eq!(l.register_pattern(&[6; 8]), 300_002);
}

#[test]
fn add_raw_replaces_the_entry_with_the_same_id() {
    let mut l = Ledger::new(LedgerConfig::default());
    l.add_raw(token(300_000, vec![1, 2], 1, 0.5));
    l.add_raw(token(300_001, vec![3, 4], 1, 0.5));
    l.add_raw(token(300_000, vec![5, 6], 2, 0.5));
    assert_eq!(l.len(), 2);
    assert_eq!(l.lookup_pattern(&[1, 2]), None);
    assert_eq!(l.lookup_pattern(&[5, 6]), Some(300_000));
    assert_eq!(l.lookup_pattern(&[3, 4]), Some(300_001));
}

#[test]
fn add_raw_replaces_the_entry_of_the_same_window() {
    let mut l = Ledger::new(LedgerConfig::default());
    l.add_raw(token(300_000, vec![1, 2], 1, 0.5));
    l.add_raw(token(300_007, vec![1, 2], 4, 0.5));
    assert_eq!(l.len(), 1);
    assert_eq!(l.lookup_pattern(&[1, 2]), Some(300_007));
    assert!(!l.contains(300_000));
}

#[test]
fn the_largest_id_uses_up_the_ids() {
    let mut l = Ledger::new(LedgerConfig::default());
    assert!(l.can_mint());
    l.add_raw(token(u32::MAX, vec![1, 2], 1, 0.5));
    assert!(!l.can_mint());
    assert_eq!(l.lookup_pattern(&[1, 2]), Some(u32::MAX));
    // a window that is known is still counted
    l.add_raw(token(7, vec![1; 8], 1, 0.5));
    assert_eq!(l.register_pattern(&[1; 8]), 7);
}

#[test]
fn eviction_takes_the_lowest_viability() {
    let mut l = Ledger::new(LedgerConfig::default());
    for (id, v) in [(1, 0.3), (2, -0.5), (3, 0.1), (4, f32::NAN), (5, f32::NEG_INFINITY)] {
        l.add_raw(token(id, vec![id], 1, v));
    }
    l.evict_lowest_viability();
    assert!(!l.contains(5));
    l.evict_lowest_viability();
    assert!(!l.contains(2));
    l.evict_lowest_viability();
    assert!(!l.contains(3));
    l.evict_lowest_viability();
    assert!(!l.contains(1));
    l.evict_lowest_viability();
    assert_eq!(l.len(), 1);
    assert!(l.contains(4));
}

#[test]
fn eviction_spares_what_is_not_below_the_largest_number() {
    let mut l = Ledger::new(LedgerConfig { max_entries: 3, ..LedgerConfig::default() });
    l.add_raw(token(1, vec![1], 1, f32::MAX));
    l.add_raw(token(2, vec![2], 1, f32::INFINITY));
    l.add_raw(token(3, vec![3], 1, f32::NAN));
    l.evict_lowest_viability();
    assert_eq!(l.len(), 3);
    // so no room can be made for a new window: it is refused, and nothing changes
    let before: Vec<u32> = l.entries().iter().map(|t| t.id).collect();
    assert_eq!(l.register_pattern(&[1; 8]), u32::MAX);
    assert_eq!(l.len(), 3);
    assert_eq!(l.entries().iter().map(|t| t.id).collect::<Vec<u32>>(), before);
    assert_eq!(l.lookup_pattern(&[1; 8]), None);
    // no id was spent
    assert!(l.set_entry(3, TernaryCode::new(vec![]), score(0.5)));
    assert_eq!(l.register_pattern(&[1; 8]), 248_320);
    assert!(!l.contains(3));
    assert_eq!(l.len(), 3);
}

#[test]
fn one_of_two_equal_entries_is_evicted() {
    let mut l = Ledger::new(LedgerConfig { max_entries: 2, ..LedgerConfig::default() });
    l.register_pattern(&[1; 8]);
    l.register_pattern(&[2; 8]);
    let c = l.register_pattern(&[3; 8]);
    assert_eq!(l.len(), 2);
    assert!(l.contains(c));
    assert!(l.contains(248_320) != l.contains(248_321));
}

#[test]
fn the_cap_is_kept_over_many_windows() {
    let mut l = Ledger::new(LedgerConfig { max_entries: 10, ..LedgerConfig::default() });
    for i in 0..200u32 {
        assert_eq!(l.register_pattern(&[i; 8]), 248_320 + i);
        assert!(l.len() <= 10);
    }
    assert_eq!(l.len(), 10);
}

#[test]
fn a_cap_of_nothing_admits_nothing() {
    let mut l = Ledger::new(LedgerConfig { max_entries: 0, ..LedgerConfig::default() });
    assert_eq!(l.register_pattern(&[1; 8]), u32::MAX);
    assert_eq!(l.len(), 0);
    assert_eq!(l.register_pattern(&[2; 8]), u32::MAX);
    assert_eq!(l.len(), 0);
    // an entry put in verbatim is neither evicted nor pruned for a window that is refused
    l.add_raw(token(7, vec![1; 8], 1, 0.01));
    assert_eq!(l.register_pattern(&[2; 8]), u32::MAX);
    assert_eq!(l.len(), 1);
    assert_eq!(l.register_pattern(&[1; 8]), 7);
}

#[test]
fn beyond_the_cap_one_leaves_for_one() {
    let mut l = Ledger::new(LedgerConfig { max_entries: 2, ..LedgerConfig::default() });
    for (id, v) in [(1, 0.4), (2, 0.3), (3, 0.6), (4, 0.7)] {
        l.add_raw(token(id, vec![id], 1, v));
    }
    assert_eq!(l.len(), 4);
    assert_eq!(l.register_pattern(&[9; 8]), 248_320);
    assert_eq!(l.len(), 4);
    assert!(!l.contains(2));
    assert!(l.contains(1));
}

#[test]
fn a_token_chosen_elsewhere_is_minted() {
    let mut l = Ledger::new(LedgerConfig::default());
    let code = TernaryCode::new(vec![1; 64]);
    assert!(l.mint_external(300_000, vec![1; 8], code.clone()));
    assert_eq!(l.lookup_pattern(&[1; 8]), Some(300_000));
    let e = l.entries();
    assert_eq!(e[0].code, code);
    assert_eq!(e[0].frequency, 1);
    assert_eq!(e[0].viability.to_bits(), 0.5f32.to_bits());
    // an id that is taken, or below the vocabulary, is not
    assert!(!l.mint_external(300_000, vec![2; 8], code.clone()));
    assert!(!l.mint_external(248_319, vec![2; 8], code.clone()));
    assert_eq!(l.entries(), e);
    // an id below the next one that was never handed out is free
    assert!(l.mint_external(248_320, vec![2; 8], code.clone()));
    assert_eq!(l.register_pattern(&[3; 8]), 300_001);
    // the window's own token gives way
    assert!(l.mint_external(300_009, vec![1; 8], code));
    assert_eq!(l.lookup_pattern(&[1; 8]), Some(300_009));
    assert!(!l.contains(300_000));
    assert_eq!(l.len(), 3);
}

#[test]
fn a_token_chosen_elsewhere_keeps_to_the_cap_and_the_floor() {
    let code = TernaryCode::new(vec![0; 64]);
    let mut l = Ledger::new(LedgerConfig { max_entries: 2, ..LedgerConfig::default() });
    let a = l.register_pattern(&[1; 8]);
    let b = l.register_pattern(&[2; 8]);
    l.set_entry(a, code.clone(), score(0.3));
    // in its own window's place it needs no other room
    assert!(l.mint_external(300_000, vec![2; 8], code.clone()));
    assert!(l.contains(a) && !l.contains(b));
    // else the lowest leaves
    assert!(l.mint_external(300_001, vec![3; 8], code.clone()));
    assert!(!l.contains(a));
    assert_eq!(l.len(), 2);
    // and what is below the floor
    l.set_entry(300_000, code.clone(), score(0.01));
    l.set_entry(300_001, code.clone(), score(0.02));
    assert!(l.mint_external(300_002, vec![4; 8], code.clone()));
    assert_eq!(l.len(), 1);
    // where nothing can leave, nothing is minted
    l.set_entry(300_002, code.clone(), score(f32::MAX));
    l.add_raw(token(7, vec![5; 8], 1, f32::NAN));
    let ids = |l: &Ledger| l.entries().iter().map(|t| t.id).collect::<Vec<u32>>();
    assert!(!l.mint_external(300_003, vec![6; 8], code.clone()));
    assert_eq!(ids(&l), vec![7, 300_002]);
    assert!(l.mint_external(300_003, vec![5; 8], code.clone()));
    assert_eq!(ids(&l), vec![300_002, 300_003]);
    // nor with a cap of nothing, and the window keeps its token
    let mut none = Ledger::new(LedgerConfig { max_entries: 0, ..LedgerConfig::default() });
    none.add_raw(token(7, vec![5; 8], 1, 0.5));
    assert!(!none.mint_external(300_000, vec![5; 8], code));
    assert_eq!(none.lookup_pattern(&[5; 8]), Some(7));
}

#[test]
fn low_entries_are_pruned_when_the_next_token_is_minted() {
    let mut l = Ledger::new(LedgerConfig::default());
    let low = l.register_pattern(&[1; 8]);
    let kept = l.register_pattern(&[2; 8]);
    l.set_entry(low, TernaryCode::new(vec![0; 64]), score(0.01));
    // a window that is known, or of the wrong length, prunes nothing
    assert_eq!(l.register_pattern(&[2; 8]), kept);
    assert_eq!(l.register_pattern(&[3]), u32::MAX);
    assert_eq!(l.lookup_pattern(&[1; 8]), Some(low));
    l.register_pattern(&[3; 8]);
    assert_eq!(l.lookup_pattern(&[1; 8]), None);
    assert_eq!(l.lookup_pattern(&[2; 8]), Some(kept));
    assert_eq!(l.len(), 2);
}

#[test]
fn only_what_is_below_the_floor_is_pruned() {
    let mut l = Ledger::new(LedgerConfig::default());
    let scores = [(1, 0.05), (2, f32::from_bits(0.05f32.to_bits() - 1)), (3, -1.0), (4, f32::NAN), (5, 0.0), (6, 9.0)];
    for (id, v) in scores {
        l.add_raw(token(id, vec![id], 1, v));
    }
    l.register_pattern(&[1; 8]);
    let ids: Vec<u32> = l.entries().iter().map(|t| t.id).collect();
    assert_eq!(ids, vec![1, 4, 6, 248_320]);
}

#[test]
fn a_floor_that_is_no_number_prunes_nothing() {
    let mut l = Ledger::new(LedgerConfig { min_viability: score(f32::NAN), ..LedgerConfig::default() });
    l.add_raw(token(1, vec![1], 1, f32::NEG_INFINITY));
    l.register_pattern(&[1; 8]);
    assert_eq!(l.len(), 2);
}

#[test]
fn a_floor_above_new_tokens_spares_the_one_just_minted() {
    let mut l = Ledger::new(LedgerConfig { min_viability: score(0.9), ..LedgerConfig::default() });
    let first = l.register_pattern(&[1; 8]);
    assert!(l.contains(first));
    let second = l.register_pattern(&[2; 8]);
    assert!(!l.contains(first));
    assert!(l.contains(second));
}

#[test]
fn what_is_pruned_makes_room() {
    let mut l = Ledger::new(LedgerConfig { max_entries: 2, ..LedgerConfig::default() });
    let a = l.register_pattern(&[1; 8]);
    let b = l.register_pattern(&[2; 8]);
    l.set_entry(a, TernaryCode::new(vec![0; 64]), score(0.02));
    l.set_entry(b, TernaryCode::new(vec![0; 64]), score(0.06));
    let c = l.register_pattern(&[3; 8]);
    assert!(!l.contains(a));
    assert!(l.contains(b));
    assert!(l.contains(c));
}

#[test]
fn viabilities_compare_as_numbers() {
    let values = [
        0.0f32,
        -0.0,
        1.0,
        -1.0,
        0.5,
        0.05,
        -0.05,
        f32::MIN_POSITIVE,
        -f32::MIN_POSITIVE,
        f32::MAX,
        f32::MIN,
        f32::INFINITY,
        f32::NEG_INFINITY,
        f32::NAN,
        -f32::NAN,
        f32::from_bits(1),
        f32::from_bits(0x8000_0001),
    ];
    for a in values {
        assert_eq!(score(a).is_nan(), a.is_nan());
        for b in values {
            assert_eq!(score(a).less_than(&score(b)), a < b, "{a} < {b}");
            assert_eq!(score(a) == score(b), a == b, "{a} == {b}");
        }
    }
    assert_eq!(Viability::half().to_bits(), 0.5f32.to_bits());
    assert_eq!(Viability::max_finite().to_bits(), f32::MAX.to_bits());
}

#[test]
fn minted_entries_have_the_minted_form() {
    let mut l = Ledger::new(LedgerConfig { n_vocab: 100, n_window: 2, n_code: 3, ..LedgerConfig::default() });
    for i in 0..20u32 {
        let id = l.register_pattern(&[i, i]);
        if i % 2 == 0 {
            l.set_entry(id, TernaryCode::new(vec![1, -1, 0]), score(0.7));
        }
    }
    for t in l.entries() {
        assert!(t.id >= 100);
        assert_eq!(t.pattern.len(), 2);
        assert_eq!(t.code.dim(), 3);
        assert!(t.code.v.iter().all(|c| (-1..=1).contains(c)));
    }
}

#[test]
fn an_evicted_window_gets_a_new_id() {
    let mut l = Ledger::new(LedgerConfig { max_entries: 1, ..LedgerConfig::default() });
    let first = l.register_pattern(&[1; 8]);
    l.register_pattern(&[2; 8]);
    assert_eq!(l.lookup_pattern(&[1; 8]), None);
    let again = l.register_pattern(&[1; 8]);
    assert!(again > first);
    assert_eq!(again, 248_322);
}
