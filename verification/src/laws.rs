//! The laws of the ledger: what every operation keeps, and how operations relate.

use vstd::prelude::*;

use crate::bytes;
use crate::ledger::LedgerConfig;
use crate::model;
use crate::model::{LedgerView, TokenView, ID_LIMIT};
use crate::viability::Viability;

verus! {

/// Removing a token keeps a ledger valid.
pub proof fn without_keeps_valid(l: LedgerView, k: u64)
    requires
        l.valid(),
    ensures
        l.without(k).valid(),
        l.map.contains_key(k) ==> l.without(k).map.len() == l.map.len() - 1,
{
}

/// An eviction keeps a ledger valid and takes out at most one token.
pub proof fn eviction_keeps_valid(l: LedgerView, after: LedgerView)
    requires
        l.valid(),
        l.evicts_to(after),
    ensures
        after.valid(),
        after.cfg == l.cfg,
        after.next_id == l.next_id,
        after.map.len() <= l.map.len() <= after.map.len() + 1,
{
    if exists|k: u64| l.victim(k) {
        let k = choose|k: u64| l.victim(k) && after == l.without(k);
        without_keeps_valid(l, k);
    }
}

/// Minting a token for a window whose key is free keeps a ledger valid.
pub proof fn mint_keeps_valid(l: LedgerView, pattern: Seq<u32>)
    requires
        l.valid(),
        !l.map.contains_key(bytes::window_key(pattern)),
        pattern.len() <= usize::MAX,
        l.next_id < ID_LIMIT,
        l.map.len() < usize::MAX,
    ensures
        l.mint(pattern).valid(),
        l.mint(pattern).map.len() == l.map.len() + 1,
{
}

/// Counting a use keeps a ledger valid.
pub proof fn reuse_keeps_valid(l: LedgerView, k: u64)
    requires
        l.valid(),
        l.map.contains_key(k),
    ensures
        (LedgerView { map: l.map.insert(k, l.map[k].used_again()), ..l }).valid(),
        l.map.insert(k, l.map[k].used_again()).len() == l.map.len(),
{
    assert(l.map.insert(k, l.map[k].used_again()).dom() =~= l.map.dom());
}

/// Replacing the code and viability of a token keeps a ledger valid, and its keys and ids.
pub proof fn set_keeps_valid(l: LedgerView, id: u32, code: Seq<i8>, viability: Viability)
    requires
        l.valid(),
        code.len() <= usize::MAX,
    ensures
        l.set(id, code, viability).valid(),
        l.set(id, code, viability).map.dom() == l.map.dom(),
        forall|k: u64| #[trigger]
            l.map.contains_key(k) ==> l.set(id, code, viability).map[k].id == l.map[k].id,
{
    assert(l.set(id, code, viability).map.dom() =~= l.map.dom());
}

/// Putting in a token verbatim keeps a ledger valid.
pub proof fn add_keeps_valid(l: LedgerView, t: TokenView)
    requires
        l.valid(),
        t.pattern.len() <= usize::MAX,
        t.code.len() <= usize::MAX,
        l.add(t).map.len() <= usize::MAX,
    ensures
        l.add(t).valid(),
{
    let other_ids = Set::new(|k: u64| l.map[k].id != t.id);
    assert(l.others(t.id).dom() =~= l.map.dom().intersect(other_ids));
}

/// Two listings of one ledger agree as far as both go.
proof fn lemma_listings_agree(l: LedgerView, s1: Seq<TokenView>, s2: Seq<TokenView>, n: int)
    requires
        l.valid(),
        l.listed_by(s1),
        l.listed_by(s2),
        0 <= n <= s1.len(),
        n <= s2.len(),
    ensures
        forall|i: int| 0 <= i < n ==> s1[i] == s2[i],
    decreases n,
{
    if n > 0 {
        lemma_listings_agree(l, s1, s2, n - 1);
        let a = s1[n - 1];
        let b = s2[n - 1];
        assert(l.map.contains_key(a.key()));
        assert(l.map.contains_key(b.key()));
        let p = choose|p: int| 0 <= p < s2.len() && s2[p] == a;
        let q = choose|q: int| 0 <= q < s1.len() && s1[q] == b;
        assert(p >= n - 1 && q >= n - 1);
    }
}

/// A ledger has one listing by increasing id, no more.
pub proof fn listing_is_unique(l: LedgerView, s1: Seq<TokenView>, s2: Seq<TokenView>)
    requires
        l.valid(),
        l.listed_by(s1),
        l.listed_by(s2),
    ensures
        s1 == s2,
{
    let n = if s1.len() <= s2.len() {
        s1.len() as int
    } else {
        s2.len() as int
    };
    lemma_listings_agree(l, s1, s2, n);
    if s1.len() > n {
        assert(l.map.contains_key(s1[n].key()));
        let p = choose|p: int| 0 <= p < s2.len() && s2[p] == s1[n];
        assert(s1[p] == s1[n]);
    }
    if s2.len() > n {
        assert(l.map.contains_key(s2[n].key()));
        let p = choose|p: int| 0 <= p < s1.len() && s1[p] == s2[n];
        assert(s2[p] == s2[n]);
    }
    assert(s1 =~= s2);
}

/// The tokens with an id below a bound can be listed by increasing id.
proof fn lemma_listing_below(l: LedgerView, bound: nat) -> (s: Seq<TokenView>)
    requires
        l.valid(),
    ensures
        forall|i: int|
            0 <= i < s.len() ==> l.map.contains_pair((#[trigger] s[i]).key(), s[i]) && s[i].id < bound,
        forall|k: u64| #[trigger] l.map.contains_key(k) && l.map[k].id < bound ==> s.contains(l.map[k]),
        forall|i: int, j: int| 0 <= i < j < s.len() ==> (#[trigger] s[i]).id < (#[trigger] s[j]).id,
    decreases bound,
{
    if bound == 0 {
        Seq::empty()
    } else {
        let below = lemma_listing_below(l, (bound - 1) as nat);
        if exists|k: u64| #[trigger] l.map.contains_key(k) && l.map[k].id == bound - 1 {
            let k = choose|k: u64| #[trigger] l.map.contains_key(k) && l.map[k].id == bound - 1;
            let s = below.push(l.map[k]);
            assert forall|j: u64| #[trigger]
                l.map.contains_key(j) && l.map[j].id < bound implies s.contains(l.map[j]) by {
                if l.map[j].id == bound - 1 {
                    assert(j == k);
                    assert(s[below.len() as int] == l.map[j]);
                } else {
                    let p = choose|p: int| 0 <= p < below.len() && below[p] == l.map[j];
                    assert(s[p] == l.map[j]);
                }
            }
            s
        } else {
            below
        }
    }
}

/// Every ledger has a listing, and `entries` is it.
pub proof fn entries_list_the_ledger(l: LedgerView)
    requires
        l.valid(),
    ensures
        l.listed_by(l.entries()),
{
    let s = lemma_listing_below(l, ID_LIMIT as nat);
    assert(l.listed_by(s));
}

/// A listing is as long as the ledger is large.
pub proof fn listing_has_each_token_once(l: LedgerView, s: Seq<TokenView>)
    requires
        l.valid(),
        l.listed_by(s),
    ensures
        s.len() == l.map.len(),
{
    let keys = s.map_values(|t: TokenView| t.key());
    assert forall|i: int, j: int| 0 <= i < j < keys.len() implies keys[i] != keys[j] by {
        assert(l.map.contains_pair(s[i].key(), s[i]));
        assert(l.map.contains_pair(s[j].key(), s[j]));
    }
    assert(keys.no_duplicates());
    keys.unique_seq_to_set();
    assert(keys.to_set() =~= l.map.dom()) by {
        assert forall|k: u64| keys.to_set().contains(k) == l.map.contains_key(k) by {
            if l.map.contains_key(k) {
                let p = choose|p: int| 0 <= p < s.len() && s[p] == l.map[k];
                assert(keys[p] == k);
            }
            if keys.to_set().contains(k) {
                let p = choose|p: int| 0 <= p < keys.len() && keys[p] == k;
                assert(l.map.contains_pair(s[p].key(), s[p]));
            }
        }
    }
}

/// From any token that may be evicted one can go down to one of the lowest viability.
proof fn lemma_lowest(l: LedgerView, k: u64)
    requires
        l.map.contains_key(k),
        l.map[k].viability.below(Viability::spec_max()),
    ensures
        exists|v: u64| l.victim(v),
    decreases l.map[k].viability.rank() + 0x8000_0000,
{
    if !l.victim(k) {
        let j = choose|j: u64| #[trigger]
            l.map.contains_key(j) && l.map[j].viability.below(l.map[k].viability);
        lemma_lowest(l, j);
    }
}

/// An eviction takes out a token wherever one may be evicted: one with a viability that is a
/// number below the largest finite one. The token that leaves has the lowest viability, and
/// all others stay as they are.
pub proof fn eviction_takes_the_lowest(l: LedgerView, after: LedgerView)
    requires
        l.valid(),
        l.evicts_to(after),
    ensures
        (exists|k: u64| #[trigger]
            l.map.contains_key(k) && l.map[k].viability.below(Viability::spec_max())) <==> after.map.len()
            == l.map.len() - 1,
        forall|k: u64| #[trigger]
            after.map.contains_key(k) ==> l.map.contains_key(k) && after.map[k] == l.map[k],
        forall|gone: u64, k: u64| #[trigger]
            l.map.contains_key(gone) && !after.map.contains_key(gone) && #[trigger] l.map.contains_key(
                k,
            ) ==> !l.map[k].viability.below(l.map[gone].viability),
{
    if exists|k: u64| #[trigger]
        l.map.contains_key(k) && l.map[k].viability.below(Viability::spec_max()) {
        let k = choose|k: u64| #[trigger]
            l.map.contains_key(k) && l.map[k].viability.below(Viability::spec_max());
        lemma_lowest(l, k);
    }
    if exists|k: u64| l.victim(k) {
        let k = choose|k: u64| l.victim(k) && after == l.without(k);
        assert(l.map.contains_key(k));
    }
}

/// Pruning keeps a ledger valid. It takes out the tokens whose viability is below the floor,
/// and leaves all others as they are.
pub proof fn pruning_takes_what_is_below_the_floor(l: LedgerView)
    requires
        l.valid(),
    ensures
        l.pruned().valid(),
        l.pruned().cfg == l.cfg,
        l.pruned().next_id == l.next_id,
        l.pruned().map.len() <= l.map.len(),
        forall|k: u64| #[trigger]
            l.pruned().map.contains_key(k) <==> l.map.contains_key(k)
                && !l.map[k].viability.below(l.cfg.min_viability),
        forall|k: u64| #[trigger]
            l.pruned().map.contains_key(k) ==> l.pruned().map[k] == l.map[k],
{
    let kept = Set::new(|k: u64| !l.map[k].viability.below(l.cfg.min_viability));
    assert(l.pruned().map.dom() =~= l.map.dom().intersect(kept));
    vstd::set_lib::lemma_len_intersect(l.map.dom(), kept);
}

/// Registering a window keeps a ledger valid and its configuration as it is, and never takes
/// back an id.
pub proof fn registering_keeps_valid(l: LedgerView, pattern: Seq<u32>, after: LedgerView, id: u32)
    requires
        l.valid(),
        l.mints(pattern) ==> l.next_id < u32::MAX,
        l.registers_to(pattern, after, id),
        after.map.len() <= usize::MAX,
    ensures
        after.valid(),
        after.cfg == l.cfg,
        after.next_id >= l.next_id,
{
    let k = bytes::window_key(pattern);
    if l.mints(pattern) {
        let base = choose|base: LedgerView| #[trigger]
            l.makes_room(base) && after == base.mint(pattern);
        making_room_keeps_valid(l, base);
        assert(!base.map.contains_key(k));
        assert(base.map.len() + 1 == base.map.insert(k, base.minted(pattern)).len());
        mint_keeps_valid(base, pattern);
    } else if l.map.contains_key(k) {
        reuse_keeps_valid(l, k);
    }
}

/// Making room keeps a ledger valid, and every token that stays as it is. A token that leaves
/// is below the floor, or it is one of the lowest viability at the cap.
pub proof fn making_room_keeps_valid(l: LedgerView, base: LedgerView)
    requires
        l.valid(),
        l.makes_room(base),
    ensures
        base.valid(),
        base.cfg == l.cfg,
        base.next_id == l.next_id,
        base.map.len() <= l.map.len(),
        forall|k: u64| #[trigger]
            base.map.contains_key(k) ==> l.map.contains_key(k) && base.map[k] == l.map[k],
        forall|k: u64|
            l.map.contains_key(k) && !(#[trigger] base.map.contains_key(k))
                ==> l.map[k].viability.below(l.cfg.min_viability) || (l.pruned().victim(k)
                && l.pruned().map.len() >= l.cfg.max_entries),
{
    let p = l.pruned();
    pruning_takes_what_is_below_the_floor(l);
    if p.map.len() >= l.cfg.max_entries {
        eviction_keeps_valid(p, base);
        if exists|k: u64| p.victim(k) {
            let k = choose|k: u64| p.victim(k) && base == p.without(k);
            assert(p.victim(k));
        }
    }
    assert forall|k: u64| l.map.contains_key(k) && !(#[trigger] base.map.contains_key(k)) implies (
    l.map[k].viability.below(l.cfg.min_viability) || (p.victim(k) && p.map.len()
        >= l.cfg.max_entries)) by {
        assert(p.map.contains_key(k) == !l.map[k].viability.below(l.cfg.min_viability));
    }
}

/// A window that was registered is found under the id that registering it returned.
pub proof fn registered_is_found(l: LedgerView, pattern: Seq<u32>, after: LedgerView, id: u32)
    requires
        l.valid(),
        l.mints(pattern) ==> l.next_id < u32::MAX,
        pattern.len() == l.cfg.n_window,
        l.is_new(pattern) ==> l.has_room(),
        l.registers_to(pattern, after, id),
    ensures
        after.lookup(pattern) == Some(id),
        after.has_id(id),
{
    let k = bytes::window_key(pattern);
    if l.mints(pattern) {
        let base = choose|base: LedgerView| #[trigger]
            l.makes_room(base) && after == base.mint(pattern);
        making_room_keeps_valid(l, base);
    }
    assert(after.map.contains_key(k));
}

/// Registering a window a second time returns the same id, mints nothing, and counts the use.
pub proof fn registering_again_reuses(
    l: LedgerView,
    pattern: Seq<u32>,
    once: LedgerView,
    id1: u32,
    twice: LedgerView,
    id2: u32,
)
    requires
        l.valid(),
        l.mints(pattern) ==> l.next_id < u32::MAX,
        pattern.len() == l.cfg.n_window,
        l.is_new(pattern) ==> l.has_room(),
        l.registers_to(pattern, once, id1),
        once.registers_to(pattern, twice, id2),
    ensures
        id1 == id2,
        twice.map.dom() == once.map.dom(),
        twice.next_id == once.next_id,
        twice.map[bytes::window_key(pattern)] == once.map[bytes::window_key(pattern)].used_again(),
{
    registered_is_found(l, pattern, once, id1);
    let k = bytes::window_key(pattern);
    if l.mints(pattern) {
        let base = choose|base: LedgerView| #[trigger]
            l.makes_room(base) && once == base.mint(pattern);
        making_room_keeps_valid(l, base);
    }
    assert(once.cfg == l.cfg);
    assert(twice.map.dom() =~= once.map.dom());
}

/// A minted id is in the minted id space, no token had it before, and no later one will: the
/// next id is past it. The token decodes to the window and has a code of `n_code` zeros.
pub proof fn minted_ids_are_new(l: LedgerView, pattern: Seq<u32>, after: LedgerView, id: u32)
    requires
        l.valid(),
        l.mints(pattern),
        l.next_id < u32::MAX,
        l.registers_to(pattern, after, id),
    ensures
        l.cfg.n_vocab <= id < u32::MAX,
        !l.has_id(id),
        after.next_id == id + 1,
        ({
            let t = after.map[bytes::window_key(pattern)];
            &&& t.id == id
            &&& t.pattern == pattern
            &&& t.pattern.len() == l.cfg.n_window
            &&& t.code.len() == l.cfg.n_code
            &&& forall|i: int| 0 <= i < t.code.len() ==> t.code[i] == 0
            &&& t.frequency == 1
        }),
{
    let base = choose|base: LedgerView| #[trigger]
        l.makes_room(base) && after == base.mint(pattern);
    making_room_keeps_valid(l, base);
}

/// Registering touches no token under another key, except that before a mint the tokens below
/// the floor leave and, where the cap is still reached, one of the lowest viability.
pub proof fn registering_leaves_others(
    l: LedgerView,
    pattern: Seq<u32>,
    after: LedgerView,
    id: u32,
    k: u64,
)
    requires
        l.valid(),
        l.mints(pattern) ==> l.next_id < u32::MAX,
        l.registers_to(pattern, after, id),
        k != bytes::window_key(pattern),
    ensures
        after.map.contains_key(k) ==> l.map.contains_key(k) && after.map[k] == l.map[k],
        l.map.contains_key(k) && !after.map.contains_key(k) ==> l.mints(pattern) && (
        l.map[k].viability.below(l.cfg.min_viability) || (l.pruned().victim(k)
            && l.pruned().map.len() >= l.cfg.max_entries)),
{
    if l.mints(pattern) {
        let base = choose|base: LedgerView| #[trigger]
            l.makes_room(base) && after == base.mint(pattern);
        making_room_keeps_valid(l, base);
        assert(after.map.contains_key(k) == base.map.contains_key(k));
    }
}

/// A window of the wrong length is refused: it is answered with a word that is no minted id,
/// and the ledger stays as it was.
pub proof fn wrong_length_is_refused(l: LedgerView, pattern: Seq<u32>, after: LedgerView, id: u32)
    requires
        pattern.len() != l.cfg.n_window,
        l.registers_to(pattern, after, id),
    ensures
        id == u32::MAX,
        after == l,
{
}

/// A new window for which no room can be made is refused: it is answered with a word that is
/// no minted id, and the ledger stays as it was.
pub proof fn no_room_is_refused(l: LedgerView, pattern: Seq<u32>, after: LedgerView, id: u32)
    requires
        l.is_new(pattern),
        !l.has_room(),
        l.registers_to(pattern, after, id),
    ensures
        id == u32::MAX,
        after == l,
{
}

/// Room is found just where the cap admits a token: below the cap, or where it is reached and
/// some token that is not below the floor has a viability that is a number below the largest
/// finite one.
pub proof fn room_is_found(l: LedgerView)
    requires
        l.valid(),
    ensures
        l.has_room() <==> l.pruned().map.len() < l.cfg.max_entries || (l.cfg.max_entries > 0
            && exists|k: u64| #[trigger]
            l.pruned().map.contains_key(k) && l.pruned().map[k].viability.below(
                Viability::spec_max(),
            )),
{
    let p = l.pruned();
    if exists|k: u64| #[trigger]
        p.map.contains_key(k) && p.map[k].viability.below(Viability::spec_max()) {
        let k = choose|k: u64| #[trigger]
            p.map.contains_key(k) && p.map[k].viability.below(Viability::spec_max());
        lemma_lowest(p, k);
    }
    if exists|k: u64| p.victim(k) {
        let k = choose|k: u64| p.victim(k);
        assert(p.map.contains_key(k));
    }
}

/// Registering grows a ledger only while it is below the cap.
proof fn lemma_growth(l: LedgerView, pattern: Seq<u32>, after: LedgerView, id: u32)
    requires
        l.valid(),
        l.registers_to(pattern, after, id),
    ensures
        after.map.len() <= l.map.len() || after.map.len() <= l.cfg.max_entries,
{
    let k = bytes::window_key(pattern);
    if l.mints(pattern) {
        let base = choose|base: LedgerView| #[trigger]
            l.makes_room(base) && after == base.mint(pattern);
        making_room_keeps_valid(l, base);
        pruning_takes_what_is_below_the_floor(l);
        let p = l.pruned();
        if p.map.len() >= l.cfg.max_entries {
            let v = choose|v: u64| p.victim(v) && base == p.without(v);
            without_keeps_valid(p, v);
        }
    } else if l.map.contains_key(k) {
        reuse_keeps_valid(l, k);
    }
}

/// The cap is hard: registering never takes a ledger beyond it.
pub proof fn cap_is_kept(l: LedgerView, pattern: Seq<u32>, after: LedgerView, id: u32)
    requires
        l.valid(),
        l.registers_to(pattern, after, id),
        l.map.len() <= l.cfg.max_entries,
    ensures
        after.map.len() <= l.cfg.max_entries,
{
    lemma_growth(l, pattern, after, id);
}

/// A ledger that came to hold more than its cap, by tokens put in verbatim, does not grow by
/// registering.
pub proof fn beyond_the_cap_nothing_grows(
    l: LedgerView,
    pattern: Seq<u32>,
    after: LedgerView,
    id: u32,
)
    requires
        l.valid(),
        l.registers_to(pattern, after, id),
        l.map.len() >= l.cfg.max_entries,
    ensures
        after.map.len() <= l.map.len(),
{
    lemma_growth(l, pattern, after, id);
}

/// A mint leaves no token below the floor but the new one, where the floor is above the
/// viability that new tokens get.
pub proof fn minting_prunes(
    l: LedgerView,
    pattern: Seq<u32>,
    after: LedgerView,
    id: u32,
    k: u64,
)
    requires
        l.valid(),
        l.mints(pattern),
        l.registers_to(pattern, after, id),
        after.map.contains_key(k),
        after.map[k].viability.below(l.cfg.min_viability),
    ensures
        k == bytes::window_key(pattern),
        Viability::spec_half().below(l.cfg.min_viability),
{
    let base = choose|base: LedgerView| #[trigger]
        l.makes_room(base) && after == base.mint(pattern);
    making_room_keeps_valid(l, base);
    pruning_takes_what_is_below_the_floor(l);
    if k != bytes::window_key(pattern) {
        assert(base.map.contains_key(k));
        assert(l.pruned().map.contains_key(k));
    }
}

/// A token below the floor is no longer found once the next token is minted.
pub proof fn low_viability_is_pruned(
    l: LedgerView,
    low: Seq<u32>,
    pattern: Seq<u32>,
    after: LedgerView,
    id: u32,
)
    requires
        l.valid(),
        l.map.contains_key(bytes::window_key(low)),
        l.map[bytes::window_key(low)].viability.below(l.cfg.min_viability),
        l.mints(pattern),
        l.registers_to(pattern, after, id),
    ensures
        after.lookup(low) is None,
{
    let base = choose|base: LedgerView| #[trigger]
        l.makes_room(base) && after == base.mint(pattern);
    let k = bytes::window_key(low);
    pruning_takes_what_is_below_the_floor(l);
    assert(!l.pruned().map.contains_key(k));
    assert(!base.map.contains_key(k));
}

/// Windows with different keys get different ids.
pub proof fn different_windows_get_different_ids(
    l: LedgerView,
    p: Seq<u32>,
    mid: LedgerView,
    id1: u32,
    q: Seq<u32>,
    after: LedgerView,
    id2: u32,
)
    requires
        l.valid(),
        p.len() == l.cfg.n_window,
        q.len() == l.cfg.n_window,
        bytes::window_key(p) != bytes::window_key(q),
        l.is_new(p) ==> l.has_room() && l.next_id < u32::MAX,
        l.registers_to(p, mid, id1),
        mid.map.len() <= usize::MAX,
        mid.is_new(q) ==> mid.has_room() && mid.next_id < u32::MAX,
        mid.registers_to(q, after, id2),
    ensures
        id1 != id2,
{
    registering_keeps_valid(l, p, mid, id1);
    registered_is_found(l, p, mid, id1);
    assert(mid.map.contains_key(bytes::window_key(p)));
}

/// Minting a token that was chosen elsewhere keeps a ledger valid and its configuration as it
/// is, and never takes back an id.
pub proof fn admitting_keeps_valid(
    l: LedgerView,
    id: u32,
    pattern: Seq<u32>,
    code: Seq<i8>,
    after: LedgerView,
)
    requires
        l.valid(),
        pattern.len() <= usize::MAX,
        code.len() <= usize::MAX,
        l.admits_to(id, pattern, code, after),
        after.map.len() <= usize::MAX,
    ensures
        after.valid(),
        after.cfg == l.cfg,
        after.next_id >= l.next_id,
{
    if l.admits(id, pattern) {
        let rest = l.without(bytes::window_key(pattern));
        let t = LedgerView::external(id, pattern, code);
        let base = choose|base: LedgerView| #[trigger]
            rest.makes_room(base) && after == base.add(t);
        without_keeps_valid(l, bytes::window_key(pattern));
        making_room_keeps_valid(rest, base);
        add_keeps_valid(base, t);
    }
}

/// A token that was chosen elsewhere and minted is held as it was given and found by its
/// window; its id is in the minted id space, no token had it before, and the next id is past
/// it.
pub proof fn admitted_is_found(
    l: LedgerView,
    id: u32,
    pattern: Seq<u32>,
    code: Seq<i8>,
    after: LedgerView,
)
    requires
        l.valid(),
        l.admits(id, pattern),
        l.admits_to(id, pattern, code, after),
    ensures
        after.lookup(pattern) == Some(id),
        after.map[bytes::window_key(pattern)] == LedgerView::external(id, pattern, code),
        after.has_id(id),
        id >= l.cfg.n_vocab,
        !l.has_id(id),
        after.next_id > id,
{
    let t = LedgerView::external(id, pattern, code);
    let base = choose|base: LedgerView| #[trigger]
        l.without(bytes::window_key(pattern)).makes_room(base) && after == base.add(t);
    assert(after.map.contains_key(t.key()));
}

/// An id that some token has, or that is below `n_vocab`, is refused, and nothing changes.
pub proof fn taken_ids_are_refused(
    l: LedgerView,
    id: u32,
    pattern: Seq<u32>,
    code: Seq<i8>,
    after: LedgerView,
)
    requires
        l.has_id(id) || id < l.cfg.n_vocab,
        l.admits_to(id, pattern, code, after),
    ensures
        !l.admits(id, pattern),
        after == l,
{
}

/// The cap holds for tokens that were chosen elsewhere too.
pub proof fn admitting_keeps_the_cap(
    l: LedgerView,
    id: u32,
    pattern: Seq<u32>,
    code: Seq<i8>,
    after: LedgerView,
)
    requires
        l.valid(),
        l.admits_to(id, pattern, code, after),
        l.map.len() <= l.cfg.max_entries,
    ensures
        after.map.len() <= l.cfg.max_entries,
{
    if l.admits(id, pattern) {
        let rest = l.without(bytes::window_key(pattern));
        let t = LedgerView::external(id, pattern, code);
        let base = choose|base: LedgerView| #[trigger]
            rest.makes_room(base) && after == base.add(t);
        without_keeps_valid(l, bytes::window_key(pattern));
        making_room_keeps_valid(rest, base);
        pruning_takes_what_is_below_the_floor(rest);
        let p = rest.pruned();
        if p.map.len() >= l.cfg.max_entries {
            let v = choose|v: u64| p.victim(v) && base == p.without(v);
            without_keeps_valid(p, v);
        }
        let other_ids = Set::new(|k: u64| base.map[k].id != id);
        assert(base.others(id).dom() =~= base.map.dom().intersect(other_ids));
        vstd::set_lib::lemma_len_intersect(base.map.dom(), other_ids);
    }
}

/// Minting a token that was chosen elsewhere touches no token under another key, except that
/// before a mint the tokens below the floor leave and, where the cap is still reached, one of
/// the lowest viability.
pub proof fn admitting_leaves_others(
    l: LedgerView,
    id: u32,
    pattern: Seq<u32>,
    code: Seq<i8>,
    after: LedgerView,
    k: u64,
)
    requires
        l.valid(),
        l.admits_to(id, pattern, code, after),
        k != bytes::window_key(pattern),
    ensures
        after.map.contains_key(k) ==> l.map.contains_key(k) && after.map[k] == l.map[k],
        l.map.contains_key(k) && !after.map.contains_key(k) ==> l.admits(id, pattern) && ({
            let rest = l.without(bytes::window_key(pattern)).pruned();
            l.map[k].viability.below(l.cfg.min_viability) || (rest.victim(k) && rest.map.len()
                >= l.cfg.max_entries)
        }),
{
    if l.admits(id, pattern) {
        let rest = l.without(bytes::window_key(pattern));
        let t = LedgerView::external(id, pattern, code);
        let base = choose|base: LedgerView| #[trigger]
            rest.makes_room(base) && after == base.add(t);
        without_keeps_valid(l, bytes::window_key(pattern));
        making_room_keeps_valid(rest, base);
        assert(rest.map.contains_key(k) == l.map.contains_key(k));
        if base.map.contains_key(k) {
            assert(l.map[k].id != id);
        }
        assert(after.map.contains_key(k) == base.map.contains_key(k));
    }
}

/// Setting the code and viability of an id is seen in the token with that id and in no other;
/// setting those of an id that no token has changes nothing.
pub proof fn setting_is_seen(l: LedgerView, id: u32, code: Seq<i8>, viability: Viability, k: u64)
    requires
        l.valid(),
    ensures
        l.set(id, code, viability).map.contains_key(k) == l.map.contains_key(k),
        l.map.contains_key(k) && l.map[k].id == id ==> l.set(id, code, viability).map[k] == (
        TokenView { code, viability, ..l.map[k] }),
        l.map.contains_key(k) && l.map[k].id != id ==> l.set(id, code, viability).map[k] == l.map[k],
        !l.has_id(id) ==> l.set(id, code, viability) == l,
{
    if !l.has_id(id) {
        assert(l.set(id, code, viability).map =~= l.map);
    }
}

/// A token that was put in is held verbatim and found by its window, and it alone has its id.
/// Tokens with another id under another key stay as they are.
pub proof fn added_is_found(l: LedgerView, t: TokenView)
    requires
        l.valid(),
    ensures
        l.add(t).map.contains_pair(t.key(), t),
        l.add(t).lookup(t.pattern) == Some(t.id),
        forall|k: u64| #[trigger]
            l.add(t).map.contains_key(k) && l.add(t).map[k].id == t.id ==> k == t.key(),
        forall|k: u64| #[trigger]
            l.map.contains_key(k) && l.map[k].id != t.id && k != t.key()
                ==> l.add(t).map.contains_pair(k, l.map[k]),
        forall|k: u64| #[trigger]
            l.add(t).map.contains_key(k) && k != t.key() ==> l.map.contains_pair(k, l.add(t).map[k]),
{
}

/// Registering windows keeps to tokens of the minted form: an id in the minted id space, a
/// window of `n_window` words, a code of `n_code` values in `{-1, 0, +1}`.
pub proof fn registering_keeps_minted_form(
    l: LedgerView,
    pattern: Seq<u32>,
    after: LedgerView,
    id: u32,
)
    requires
        l.valid(),
        l.all_minted(),
        l.mints(pattern) ==> l.next_id < u32::MAX,
        l.registers_to(pattern, after, id),
    ensures
        after.all_minted(),
{
    if l.mints(pattern) {
        let base = choose|base: LedgerView| #[trigger]
            l.makes_room(base) && after == base.mint(pattern);
        making_room_keeps_valid(l, base);
    }
}

/// Minting tokens of the minted form that were chosen elsewhere keeps to them.
pub proof fn admitting_keeps_minted_form(
    l: LedgerView,
    id: u32,
    pattern: Seq<u32>,
    code: Seq<i8>,
    after: LedgerView,
)
    requires
        l.valid(),
        l.all_minted(),
        pattern.len() == l.cfg.n_window,
        code.len() == l.cfg.n_code,
        model::ternary(code),
        l.admits_to(id, pattern, code, after),
    ensures
        after.all_minted(),
{
    if l.admits(id, pattern) {
        let rest = l.without(bytes::window_key(pattern));
        let t = LedgerView::external(id, pattern, code);
        let base = choose|base: LedgerView| #[trigger]
            rest.makes_room(base) && after == base.add(t);
        without_keeps_valid(l, bytes::window_key(pattern));
        making_room_keeps_valid(rest, base);
        assert(base.all_minted());
        adding_keeps_minted_form(base, t);
    }
}

/// Setting a code of `n_code` ternary values keeps to tokens of the minted form.
pub proof fn setting_keeps_minted_form(
    l: LedgerView,
    id: u32,
    code: Seq<i8>,
    viability: Viability,
)
    requires
        l.all_minted(),
        code.len() == l.cfg.n_code,
        model::ternary(code),
    ensures
        l.set(id, code, viability).all_minted(),
{
}

/// Putting in a token of the minted form keeps to them.
pub proof fn adding_keeps_minted_form(l: LedgerView, t: TokenView)
    requires
        l.all_minted(),
        t.minted_form(l.cfg),
    ensures
        l.add(t).all_minted(),
{
    assert forall|k: u64| #[trigger] l.add(t).map.contains_key(k) implies l.add(
        t,
    ).map[k].minted_form(l.cfg) by {
        if k != t.key() {
            assert(l.map.contains_key(k));
        }
    }
}

// What the operations do, token by token and field by field.

/// A ledger starts without tokens, and its first id is `n_vocab`.
pub proof fn new_ledger_is_empty(cfg: LedgerConfig, k: u64)
    ensures
        LedgerView::empty(cfg).cfg == cfg,
        LedgerView::empty(cfg).next_id == cfg.n_vocab,
        !LedgerView::empty(cfg).map.contains_key(k),
{
}

/// A window is found exactly where a token is held under its key, and then by that token's id.
/// An id is recognized exactly where some token has it.
pub proof fn looking_up_finds_what_is_held(l: LedgerView, pattern: Seq<u32>, id: u32)
    ensures
        l.lookup(pattern) == Some(id) <==> l.map.contains_key(bytes::window_key(pattern))
            && l.map[bytes::window_key(pattern)].id == id,
        l.lookup(pattern) is None <==> !l.map.contains_key(bytes::window_key(pattern)),
        l.has_id(id) <==> exists|k: u64| #[trigger] l.map.contains_key(k) && l.map[k].id == id,
{
}

/// Registering a window whose token is held changes that token's frequency and nothing else:
/// the frequency is one more, unless it is the largest word already, and the id, the window,
/// the code and the viability stay, as do all other tokens, the configuration and the next id.
pub proof fn reuse_only_counts(l: LedgerView, pattern: Seq<u32>, after: LedgerView, id: u32)
    requires
        l.valid(),
        pattern.len() == l.cfg.n_window,
        l.map.contains_key(bytes::window_key(pattern)),
        l.registers_to(pattern, after, id),
    ensures
        ({
            let k = bytes::window_key(pattern);
            &&& id == l.map[k].id
            &&& after.map.contains_key(k)
            &&& after.map[k].id == l.map[k].id
            &&& after.map[k].pattern == l.map[k].pattern
            &&& after.map[k].code == l.map[k].code
            &&& after.map[k].viability == l.map[k].viability
            &&& l.map[k].frequency < 0xffff_ffff ==> after.map[k].frequency == l.map[k].frequency + 1
            &&& l.map[k].frequency == 0xffff_ffff ==> after.map[k].frequency == 0xffff_ffff
            &&& forall|j: u64| #[trigger]
                after.map.contains_key(j) <==> l.map.contains_key(j)
            &&& forall|j: u64|
                j != k && #[trigger] after.map.contains_key(j) ==> after.map[j] == l.map[j]
            &&& after.cfg == l.cfg
            &&& after.next_id == l.next_id
        }),
{
}

/// The keys of the tokens that are not below the viability floor.
pub open spec fn above_floor(l: LedgerView) -> Set<u64> {
    l.map.dom().filter(|k: u64| !l.map[k].viability.below(l.cfg.min_viability))
}

/// The tokens that are not below the floor are those that pruning leaves.
proof fn lemma_above_floor(l: LedgerView)
    requires
        l.valid(),
    ensures
        above_floor(l) == l.pruned().map.dom(),
        above_floor(l).finite(),
{
    pruning_takes_what_is_below_the_floor(l);
    assert(above_floor(l) =~= l.pruned().map.dom());
}

/// Where the tokens that are not below the floor leave room under the cap, or one of them may
/// be evicted, there is room for a new token; nowhere else.
pub proof fn room_is_where_the_cap_leaves_it(l: LedgerView)
    requires
        l.valid(),
    ensures
        above_floor(l).finite(),
        forall|k: u64| #[trigger]
            above_floor(l).contains(k) <==> l.map.contains_key(k) && !l.map[k].viability.below(
                l.cfg.min_viability,
            ),
        l.has_room() <==> above_floor(l).len() < l.cfg.max_entries || (l.cfg.max_entries > 0
            && exists|k: u64| #[trigger]
            l.map.contains_key(k) && !l.map[k].viability.below(l.cfg.min_viability)
                && l.map[k].viability.below(Viability { bits: 0x7f7f_ffff })),
{
    lemma_above_floor(l);
    room_is_found(l);
    pruning_takes_what_is_below_the_floor(l);
    let p = l.pruned();
    if exists|k: u64| #[trigger]
        l.map.contains_key(k) && !l.map[k].viability.below(l.cfg.min_viability)
            && l.map[k].viability.below(Viability { bits: 0x7f7f_ffff }) {
        let k = choose|k: u64| #[trigger]
            l.map.contains_key(k) && !l.map[k].viability.below(l.cfg.min_viability)
                && l.map[k].viability.below(Viability { bits: 0x7f7f_ffff });
        assert(p.map.contains_key(k));
    }
    if exists|k: u64| #[trigger]
        p.map.contains_key(k) && p.map[k].viability.below(Viability::spec_max()) {
        let k = choose|k: u64| #[trigger]
            p.map.contains_key(k) && p.map[k].viability.below(Viability::spec_max());
        assert(l.map.contains_key(k));
    }
}

/// A ledger that holds fewer tokens than its cap always has room.
pub proof fn below_the_cap_there_is_room(l: LedgerView)
    requires
        l.valid(),
        l.map.len() < l.cfg.max_entries,
    ensures
        l.has_room(),
{
    pruning_takes_what_is_below_the_floor(l);
}

/// What making room leaves, key by key.
proof fn lemma_room_by_keys(l: LedgerView, base: LedgerView)
    requires
        l.valid(),
        l.has_room(),
        l.makes_room(base),
    ensures
        above_floor(l).len() < l.cfg.max_entries ==> base.map.dom() == above_floor(l),
        above_floor(l).len() >= l.cfg.max_entries ==> exists|gone: u64|
            {
                &&& #[trigger] above_floor(l).contains(gone)
                &&& l.map[gone].viability.below(Viability { bits: 0x7f7f_ffff })
                &&& forall|j: u64| #[trigger]
                    above_floor(l).contains(j) ==> !l.map[j].viability.below(
                        l.map[gone].viability,
                    )
                &&& base.map.dom() == above_floor(l).remove(gone)
            },
        forall|j: u64| #[trigger] base.map.contains_key(j) ==> base.map[j] == l.map[j],
        base.cfg == l.cfg,
        base.next_id == l.next_id,
{
    lemma_above_floor(l);
    pruning_takes_what_is_below_the_floor(l);
    let p = l.pruned();
    if p.map.len() >= l.cfg.max_entries {
        let gone = choose|v: u64| p.victim(v) && base == p.without(v);
        assert(p.map.contains_key(gone));
        assert forall|j: u64| #[trigger] above_floor(l).contains(j) implies !l.map[j].viability.below(
            l.map[gone].viability,
        ) by {
            assert(p.map.contains_key(j));
        }
        assert(base.map.dom() =~= above_floor(l).remove(gone));
        assert(above_floor(l).contains(gone));
    } else {
        assert(base.map.dom() =~= above_floor(l));
    }
}

/// Registering a window that has no token yet, where there is room, mints one under the next
/// id: for the window itself, with a code of `n_code` zeros, counted once, and with the score
/// of one half. The tokens below the floor leave; where the others reach the cap, one of the
/// lowest viability among them leaves too; all the rest stay as they are.
pub proof fn registering_mints(l: LedgerView, pattern: Seq<u32>, after: LedgerView, id: u32)
    requires
        l.valid(),
        pattern.len() == l.cfg.n_window,
        !l.map.contains_key(bytes::window_key(pattern)),
        l.has_room(),
        l.next_id < 0xffff_ffff,
        l.registers_to(pattern, after, id),
    ensures
        id == l.next_id,
        after.next_id == l.next_id + 1,
        after.cfg == l.cfg,
        ({
            let k = bytes::window_key(pattern);
            let kept = above_floor(l);
            &&& after.map.contains_key(k)
            &&& after.map[k].id == id
            &&& after.map[k].pattern == pattern
            &&& after.map[k].code.len() == l.cfg.n_code
            &&& forall|i: int| 0 <= i < l.cfg.n_code ==> after.map[k].code[i] == 0
            &&& after.map[k].frequency == 1
            &&& after.map[k].viability.bits == 0x3f00_0000
            &&& forall|j: u64|
                j != k && #[trigger] after.map.contains_key(j) ==> after.map[j] == l.map[j]
            &&& kept.len() < l.cfg.max_entries ==> after.map.dom() == kept.insert(k)
            &&& kept.len() >= l.cfg.max_entries ==> exists|gone: u64|
                {
                    &&& #[trigger] kept.contains(gone)
                    &&& l.map[gone].viability.below(Viability { bits: 0x7f7f_ffff })
                    &&& forall|j: u64| #[trigger]
                        kept.contains(j) ==> !l.map[j].viability.below(l.map[gone].viability)
                    &&& after.map.dom() == kept.remove(gone).insert(k)
                }
        }),
{
    let k = bytes::window_key(pattern);
    let kept = above_floor(l);
    let base = choose|base: LedgerView| #[trigger]
        l.makes_room(base) && after == base.mint(pattern);
    lemma_room_by_keys(l, base);
    assert(after.map.dom() =~= base.map.dom().insert(k));
    if kept.len() >= l.cfg.max_entries {
        let gone = choose|gone: u64|
            {
                &&& #[trigger] kept.contains(gone)
                &&& l.map[gone].viability.below(Viability { bits: 0x7f7f_ffff })
                &&& forall|j: u64| #[trigger]
                    kept.contains(j) ==> !l.map[j].viability.below(l.map[gone].viability)
                &&& base.map.dom() == kept.remove(gone)
            };
        assert(kept.contains(gone));
        assert(after.map.dom() == kept.remove(gone).insert(k));
    }
}

/// Every window of the right length is registered while the ledger is below its cap and has
/// ids left: it is then found under the id that was returned.
pub proof fn below_the_cap_every_window_is_registered(
    l: LedgerView,
    pattern: Seq<u32>,
    after: LedgerView,
    id: u32,
)
    requires
        l.valid(),
        pattern.len() == l.cfg.n_window,
        l.map.len() < l.cfg.max_entries,
        l.next_id < 0xffff_ffff,
        l.registers_to(pattern, after, id),
    ensures
        after.map.contains_key(bytes::window_key(pattern)),
        after.map[bytes::window_key(pattern)].id == id,
        !l.map.contains_key(bytes::window_key(pattern)) ==> id == l.next_id,
{
    below_the_cap_there_is_room(l);
    if l.map.contains_key(bytes::window_key(pattern)) {
        reuse_only_counts(l, pattern, after, id);
    } else {
        registering_mints(l, pattern, after, id);
    }
}

/// A window of another length, or a new one where there is no room, is answered with the
/// largest word, and nothing changes; no other window is answered with it while ids are left.
pub proof fn registering_refuses(l: LedgerView, pattern: Seq<u32>, after: LedgerView, id: u32)
    requires
        l.valid(),
        l.next_id < 0xffff_ffff,
        l.registers_to(pattern, after, id),
    ensures
        id == 0xffff_ffff <==> pattern.len() != l.cfg.n_window || (!l.map.contains_key(
            bytes::window_key(pattern),
        ) && !l.has_room()),
        id == 0xffff_ffff ==> after == l,
{
    let k = bytes::window_key(pattern);
    if pattern.len() == l.cfg.n_window && !l.map.contains_key(k) && l.has_room() {
        registering_mints(l, pattern, after, id);
    }
}

/// An eviction takes out one token whose viability is a number below the largest finite one and
/// not above that of any other, where there is such a token, and nothing else. Where there is
/// none, nothing changes.
pub proof fn evicting_takes_one(l: LedgerView, after: LedgerView)
    requires
        l.valid(),
        l.evicts_to(after),
    ensures
        after.cfg == l.cfg,
        after.next_id == l.next_id,
        forall|j: u64| #[trigger] after.map.contains_key(j) ==> after.map[j] == l.map[j],
        (exists|k: u64| #[trigger]
            l.map.contains_key(k) && l.map[k].viability.below(Viability { bits: 0x7f7f_ffff }))
            ==> exists|gone: u64|
            {
                &&& #[trigger] l.map.contains_key(gone)
                &&& l.map[gone].viability.below(Viability { bits: 0x7f7f_ffff })
                &&& forall|j: u64| #[trigger]
                    l.map.contains_key(j) ==> !l.map[j].viability.below(l.map[gone].viability)
                &&& after.map.dom() == l.map.dom().remove(gone)
            },
        !(exists|k: u64| #[trigger]
            l.map.contains_key(k) && l.map[k].viability.below(Viability { bits: 0x7f7f_ffff }))
            ==> after == l,
{
    if exists|k: u64| #[trigger]
        l.map.contains_key(k) && l.map[k].viability.below(Viability { bits: 0x7f7f_ffff }) {
        let k = choose|k: u64| #[trigger]
            l.map.contains_key(k) && l.map[k].viability.below(Viability { bits: 0x7f7f_ffff });
        lemma_lowest(l, k);
        let gone = choose|v: u64| l.victim(v) && after == l.without(v);
        assert(l.map.contains_key(gone));
        assert(after.map.dom() =~= l.map.dom().remove(gone));
    } else {
        assert forall|k: u64| !l.victim(k) by {
            if l.victim(k) {
                assert(l.map.contains_key(k));
            }
        }
    }
}

/// Setting the code and the viability of an id changes those two fields of the token that has
/// it, and nothing else.
pub proof fn setting_changes_two_fields(
    l: LedgerView,
    id: u32,
    code: Seq<i8>,
    viability: Viability,
    k: u64,
)
    ensures
        ({
            let after = l.set(id, code, viability);
            &&& after.cfg == l.cfg
            &&& after.next_id == l.next_id
            &&& after.map.contains_key(k) <==> l.map.contains_key(k)
            &&& l.map.contains_key(k) ==> {
                &&& after.map[k].id == l.map[k].id
                &&& after.map[k].pattern == l.map[k].pattern
                &&& after.map[k].frequency == l.map[k].frequency
                &&& l.map[k].id == id ==> after.map[k].code == code && after.map[k].viability
                    == viability
                &&& l.map[k].id != id ==> after.map[k].code == l.map[k].code
                    && after.map[k].viability == l.map[k].viability
            }
        }),
{
}

/// Putting in a token verbatim holds it under the key of its window, as it is. Tokens with its
/// id or under its key give way, all others stay as they are, and the next id is past its id.
pub proof fn adding_is_verbatim(l: LedgerView, t: TokenView, k: u64)
    requires
        l.valid(),
    ensures
        ({
            let after = l.add(t);
            let key = bytes::window_key(t.pattern);
            &&& after.cfg == l.cfg
            &&& after.next_id == if t.id + 1 > l.next_id {
                t.id + 1
            } else {
                l.next_id as int
            }
            &&& after.map.contains_key(key)
            &&& after.map[key] == t
            &&& k != key ==> (after.map.contains_key(k) <==> l.map.contains_key(k) && l.map[k].id
                != t.id)
            &&& k != key && after.map.contains_key(k) ==> after.map[k] == l.map[k]
        }),
{
}

/// Tokens are put in one after another, in order.
pub proof fn adding_goes_in_order(l: LedgerView, ts: Seq<TokenView>, t: TokenView)
    ensures
        l.add_all(Seq::<TokenView>::empty()) == l,
        l.add_all(ts.push(t)) == l.add_all(ts).add(t),
{
    assert(ts.push(t).drop_last() =~= ts);
}

/// A token chosen elsewhere is minted exactly where its id is at least `n_vocab`, no token has
/// the id, and there is room once the window's own token is out of the way.
pub proof fn free_ids_are_admitted(l: LedgerView, id: u32, pattern: Seq<u32>)
    requires
        l.valid(),
    ensures
        l.admits(id, pattern) <==> {
            &&& id >= l.cfg.n_vocab
            &&& !(exists|k: u64| #[trigger] l.map.contains_key(k) && l.map[k].id == id)
            &&& (LedgerView { map: l.map.remove(bytes::window_key(pattern)), ..l }).has_room()
        },
        l.map.len() < l.cfg.max_entries && id >= l.cfg.n_vocab && !(exists|k: u64| #[trigger]
            l.map.contains_key(k) && l.map[k].id == id) ==> l.admits(id, pattern),
{
    let k = bytes::window_key(pattern);
    let rest = l.without(k);
    without_keeps_valid(l, k);
    if l.map.len() < l.cfg.max_entries {
        assert(rest.map.len() <= l.map.len());
        below_the_cap_there_is_room(rest);
    }
}

/// A token chosen elsewhere that is minted is held for its window with the id, the window and
/// the code that were given, counted once, and with the score of one half. The window's own
/// token and the tokens below the floor leave; where the others reach the cap, one of the lowest
/// viability among them leaves too; all the rest stay as they are.
pub proof fn admitting_mints(
    l: LedgerView,
    id: u32,
    pattern: Seq<u32>,
    code: Seq<i8>,
    after: LedgerView,
)
    requires
        l.valid(),
        l.admits(id, pattern),
        l.admits_to(id, pattern, code, after),
    ensures
        after.cfg == l.cfg,
        after.next_id == if id + 1 > l.next_id {
            id + 1
        } else {
            l.next_id as int
        },
        ({
            let k = bytes::window_key(pattern);
            let kept = above_floor(LedgerView { map: l.map.remove(k), ..l });
            &&& after.map.contains_key(k)
            &&& after.map[k].id == id
            &&& after.map[k].pattern == pattern
            &&& after.map[k].code == code
            &&& after.map[k].frequency == 1
            &&& after.map[k].viability.bits == 0x3f00_0000
            &&& forall|j: u64|
                j != k && #[trigger] after.map.contains_key(j) ==> after.map[j] == l.map[j]
            &&& kept.len() < l.cfg.max_entries ==> after.map.dom() == kept.insert(k)
            &&& kept.len() >= l.cfg.max_entries ==> exists|gone: u64|
                {
                    &&& #[trigger] kept.contains(gone)
                    &&& l.map[gone].viability.below(Viability { bits: 0x7f7f_ffff })
                    &&& forall|j: u64| #[trigger]
                        kept.contains(j) ==> !l.map[j].viability.below(l.map[gone].viability)
                    &&& after.map.dom() == kept.remove(gone).insert(k)
                }
        }),
{
    let k = bytes::window_key(pattern);
    let rest = l.without(k);
    let kept = above_floor(rest);
    let t = LedgerView::external(id, pattern, code);
    let base = choose|base: LedgerView| #[trigger]
        rest.makes_room(base) && after == base.add(t);
    without_keeps_valid(l, k);
    lemma_room_by_keys(rest, base);
    making_room_keeps_valid(rest, base);
    assert forall|j: u64| #[trigger] base.map.contains_key(j) implies base.map[j].id != id by {
        assert(rest.map.contains_key(j));
        assert(l.map.contains_key(j));
    }
    assert(base.others(id) =~= base.map);
    assert(after.map.dom() =~= base.map.dom().insert(k));
    assert forall|j: u64| #[trigger] kept.contains(j) implies l.map[j] == rest.map[j] by {}
    if kept.len() >= l.cfg.max_entries {
        let gone = choose|gone: u64|
            {
                &&& #[trigger] kept.contains(gone)
                &&& rest.map[gone].viability.below(Viability { bits: 0x7f7f_ffff })
                &&& forall|j: u64| #[trigger]
                    kept.contains(j) ==> !rest.map[j].viability.below(rest.map[gone].viability)
                &&& base.map.dom() == kept.remove(gone)
            };
        assert(kept.contains(gone));
        assert(after.map.dom() == kept.remove(gone).insert(k));
    }
}

/// A token chosen elsewhere that is not minted changes nothing.
pub proof fn refused_tokens_change_nothing(
    l: LedgerView,
    id: u32,
    pattern: Seq<u32>,
    code: Seq<i8>,
    after: LedgerView,
)
    requires
        !l.admits(id, pattern),
        l.admits_to(id, pattern, code, after),
    ensures
        after == l,
{
}

/// The entries are the tokens of the ledger, each once, by increasing id.
pub proof fn entries_are_the_tokens(l: LedgerView)
    requires
        l.valid(),
    ensures
        l.entries().len() == l.map.len(),
        forall|i: int|
            0 <= i < l.entries().len() ==> {
                let k = bytes::window_key((#[trigger] l.entries()[i]).pattern);
                l.map.contains_key(k) && l.map[k] == l.entries()[i]
            },
        forall|k: u64| #[trigger]
            l.map.contains_key(k) ==> exists|i: int|
                0 <= i < l.entries().len() && #[trigger] l.entries()[i] == l.map[k],
        forall|i: int, j: int|
            0 <= i < j < l.entries().len() ==> (#[trigger] l.entries()[i]).id < (
            #[trigger] l.entries()[j]).id,
{
    entries_list_the_ledger(l);
    listing_has_each_token_once(l, l.entries());
    let s = l.entries();
    assert forall|i: int| 0 <= i < s.len() implies ({
        let k = bytes::window_key((#[trigger] s[i]).pattern);
        l.map.contains_key(k) && l.map[k] == s[i]
    }) by {
        assert(l.map.contains_pair(s[i].key(), s[i]));
    }
    assert forall|k: u64| #[trigger] l.map.contains_key(k) implies exists|i: int|
        0 <= i < s.len() && #[trigger] s[i] == l.map[k] by {
        assert(s.contains(l.map[k]));
    }
}

/// The form of minted tokens, spelled out: the id is at least `n_vocab`, the window has
/// `n_window` words, and the code has `n_code` values of -1, 0 or 1.
pub proof fn minted_form_is(t: TokenView, cfg: LedgerConfig)
    ensures
        t.minted_form(cfg) <==> {
            &&& t.id >= cfg.n_vocab
            &&& t.pattern.len() == cfg.n_window
            &&& t.code.len() == cfg.n_code
            &&& forall|i: int|
                0 <= i < t.code.len() ==> #[trigger] t.code[i] == -1 || t.code[i] == 0 || t.code[i]
                    == 1
        },
        t.fits(cfg) <==> {
            &&& t.pattern.len() == cfg.n_window
            &&& t.code.len() == cfg.n_code
            &&& forall|i: int|
                0 <= i < t.code.len() ==> #[trigger] t.code[i] == -1 || t.code[i] == 0 || t.code[i]
                    == 1
        },
{
}

} // verus!
