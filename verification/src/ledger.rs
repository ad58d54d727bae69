//! The in-memory token-compression ledger.
//!
//! A set of *minted* custom tokens (ids `>= n_vocab`), each derived from a raw token window
//! (its `pattern`) and a compact ternary code that can be decoded back into that window.
//! Minting happens as patterns recur and viabilities are updated. Before a new token is
//! minted, the entries below the viability floor are pruned, and at the cap the entry of the
//! lowest viability makes room for the new one.

use vstd::prelude::*;
use std::collections::{BTreeMap, HashMap};

use crate::bytes;
use crate::laws;
use crate::model;
use crate::model::{LedgerView, TokenView};
use crate::viability::Viability;

pub use crate::bytes::pattern_hash;

verus! {

broadcast use vstd::std_specs::hash::group_hash_axioms;

/// A ternary code: `n_code` values each in `{-1, 0, +1}`.
#[derive(Debug, PartialEq, Eq, Hash)]
pub struct TernaryCode {
    pub v: Vec<i8>,
}

impl View for TernaryCode {
    type V = Seq<i8>;

    open spec fn view(&self) -> Seq<i8> {
        self.v@
    }
}

impl TernaryCode {
    pub fn new(v: Vec<i8>) -> (r: TernaryCode)
        ensures
            r.v == v,
    {
        TernaryCode { v }
    }

    /// The number of values in the code.
    pub fn dim(&self) -> (r: usize)
        ensures
            r == self@.len(),
    {
        self.v.len()
    }

    /// Whether every value of the code is ternary.
    pub(crate) fn is_ternary(&self) -> (r: bool)
        ensures
            r == model::ternary(self@),
    {
        let mut i: usize = 0;
        while i < self.v.len()
            invariant
                i <= self@.len(),
                forall|j: int| 0 <= j < i ==> -1 <= #[trigger] self@[j] <= 1,
            decreases self@.len() - i,
        {
            let c: i8 = self.v[i];
            if c < -1 || c > 1 {
                assert(!(-1 <= self@[i as int] <= 1));
                return false;
            }
            i = i + 1;
        }
        true
    }
}

impl Clone for TernaryCode {
    fn clone(&self) -> (r: TernaryCode)
        ensures
            r@ == self@,
    {
        let v: Vec<i8> = self.v.clone();
        assert(v@ =~= self.v@);
        TernaryCode { v }
    }
}

/// One minted custom token.
///
/// `pattern` is the raw token window that this token decodes to, `code` its ternary encoding.
#[derive(Debug, PartialEq)]
pub struct GeneratedToken {
    pub id: u32,
    pub pattern: Vec<u32>,
    pub code: TernaryCode,
    pub frequency: u32,
    pub viability: Viability,
}

impl View for GeneratedToken {
    type V = TokenView;

    open spec fn view(&self) -> TokenView {
        TokenView {
            id: self.id,
            pattern: self.pattern@,
            code: self.code@,
            frequency: self.frequency,
            viability: self.viability,
        }
    }
}

impl GeneratedToken {
    /// Whether the window and the code have the lengths that the configuration asks for, and
    /// the code is ternary.
    pub(crate) fn fits(&self, cfg: &LedgerConfig) -> (r: bool)
        ensures
            r == self@.fits(*cfg),
    {
        self.pattern.len() == cfg.n_window && self.code.dim() == cfg.n_code
            && self.code.is_ternary()
    }

    /// Whether the token is as minted tokens are under the configuration: it fits, and its id
    /// is in the minted id space.
    pub(crate) fn has_minted_form(&self, cfg: &LedgerConfig) -> (r: bool)
        ensures
            r == self@.minted_form(*cfg),
    {
        self.id >= cfg.n_vocab && self.fits(cfg)
    }
}

impl Clone for GeneratedToken {
    fn clone(&self) -> (r: GeneratedToken)
        ensures
            r@ == self@,
    {
        let pattern: Vec<u32> = self.pattern.clone();
        assert(pattern@ =~= self.pattern@);
        GeneratedToken {
            id: self.id,
            pattern,
            code: self.code.clone(),
            frequency: self.frequency,
            viability: self.viability,
        }
    }
}

/// Configuration of the ledger.
#[derive(Debug)]
pub struct LedgerConfig {
    /// Base of the minted id space (the model's `n_vocab`).
    pub n_vocab: u32,
    /// Window length each custom token compresses.
    pub n_window: usize,
    /// Code dimension.
    pub n_code: usize,
    /// Viability floor below which an entry is pruned, when the next token is minted.
    pub min_viability: Viability,
    /// Hard cap on the number of minted tokens.
    pub max_entries: usize,
}

impl LedgerConfig {
    /// The default configuration; its viability floor is 0.05.
    pub open spec fn spec_default() -> LedgerConfig {
        LedgerConfig {
            n_vocab: 248_320,
            n_window: 8,
            n_code: 64,
            min_viability: Viability { bits: 0x3d4c_cccd },
            max_entries: 24_000,
        }
    }
}

impl Clone for LedgerConfig {
    fn clone(&self) -> (r: LedgerConfig)
        ensures
            r == *self,
    {
        LedgerConfig {
            n_vocab: self.n_vocab,
            n_window: self.n_window,
            n_code: self.n_code,
            min_viability: self.min_viability,
            max_entries: self.max_entries,
        }
    }
}

impl Default for LedgerConfig {
    fn default() -> (r: LedgerConfig)
        ensures
            r == LedgerConfig::spec_default(),
    {
        LedgerConfig {
            n_vocab: 248_320,
            n_window: 8,
            n_code: 64,
            min_viability: Viability::from_bits(0x3d4c_cccd),
            max_entries: 24_000,
        }
    }
}

/// The mutable token-compression ledger.
#[derive(Debug)]
pub struct Ledger {
    cfg: LedgerConfig,
    /// Window key to token.
    map: HashMap<u64, GeneratedToken>,
    /// One past the largest id in use, and at least `n_vocab`.
    next_id: u64,
}

impl View for Ledger {
    type V = LedgerView;

    closed spec fn view(&self) -> LedgerView {
        LedgerView {
            cfg: self.cfg,
            map: self.map@.map_values(|t: GeneratedToken| t@),
            next_id: self.next_id,
        }
    }
}

impl Ledger {
    /// The invariant that every ledger keeps.
    pub open spec fn wf(&self) -> bool {
        self@.valid()
    }

    /// The map of contents has the keys of the hash map, and so its size.
    proof fn lemma_contents(&self)
        ensures
            self@.map.dom() == self.map@.dom(),
            self@.map.dom().finite(),
            self@.map.len() == self.map.len(),
    {
        assert(self@.map.dom() =~= self.map@.dom());
    }

    /// A ledger without tokens.
    pub fn new(cfg: LedgerConfig) -> (r: Ledger)
        ensures
            r.wf(),
            r@ == LedgerView::empty(cfg),
    {
        let next_id: u64 = cfg.n_vocab as u64;
        let r = Ledger { cfg, map: HashMap::new(), next_id };
        assert(r@ == LedgerView::empty(cfg));
        r
    }

    /// The configuration that the ledger was made with.
    pub fn config(&self) -> (r: &LedgerConfig)
        ensures
            *r == self@.cfg,
    {
        &self.cfg
    }

    /// The number of minted tokens.
    pub fn len(&self) -> (r: usize)
        ensures
            r == self@.map.len(),
    {
        proof {
            self.lemma_contents();
        }
        self.map.len()
    }

    pub fn is_empty(&self) -> (r: bool)
        ensures
            r == (self@.map.len() == 0),
    {
        self.len() == 0
    }

    /// Whether a new token can still be minted: whether an id is left for it.
    pub fn can_mint(&self) -> (r: bool)
        ensures
            r == (self@.next_id < u32::MAX),
    {
        self.next_id < u32::MAX as u64
    }

    /// Look up a minted token for a raw window, if one exists. Windows are told apart by
    /// their keys.
    pub fn lookup_pattern(&self, pattern: &[u32]) -> (r: Option<u32>)
        ensures
            r == self@.lookup(pattern@),
    {
        let key: u64 = pattern_hash(pattern);
        match self.map.get(&key) {
            Some(t) => Some(t.id),
            None => None,
        }
    }

    /// Removes the token of the lowest viability. Of several with the same viability, any one
    /// leaves; a token whose viability is not a number, or not below the largest finite one,
    /// never does.
    pub fn evict_lowest_viability(&mut self)
        requires
            old(self).wf(),
        ensures
            final(self).wf(),
            old(self)@.evicts_to(final(self)@),
    {
        let ghost before = self@;
        let mut worst: Option<u64> = None;
        let mut worst_v: Viability = Viability::max_finite();
        for kv in it: self.map.iter()
            invariant
                before == self@,
                forall|i: int|
                    0 <= i < it.seq().len() ==> self.map@.contains_pair(*(#[trigger] it.seq()[i]).0, *it.seq()[i].1),
                forall|k: u64| #[trigger]
                    self.map@.contains_key(k) ==> it.seq().contains((&k, &self.map@[k])),
                match worst {
                    None => worst_v == Viability::spec_max(),
                    Some(k) => {
                        &&& before.map.contains_key(k)
                        &&& before.map[k].viability == worst_v
                        &&& worst_v.below(Viability::spec_max())
                    },
                },
                forall|i: int| 0 <= i < it.index() ==> !(#[trigger] it.seq()[i]).1.viability.below(worst_v),
                it.index() == it.seq().len() ==> forall|k: u64| #[trigger]
                    self.map@.contains_key(k) ==> !self.map@[k].viability.below(worst_v),
        {
            let (k, t) = kv;
            if t.viability.less_than(&worst_v) {
                worst_v = t.viability;
                worst = Some(*k);
            }
        }
        assert(forall|k: u64| #[trigger]
            before.map.contains_key(k) ==> !before.map[k].viability.below(worst_v));
        match worst {
            Some(k) => {
                assert(before.victim(k));
                self.map.remove(&k);
                proof {
                    self.lemma_contents();
                    assert(self@.map =~= before.map.remove(k));
                }
            },
            None => {
                assert forall|k: u64| !before.victim(k) by {}
            },
        }
    }

    /// The keys of the tokens below the viability floor, each once, and whether one of the
    /// other tokens may be evicted.
    fn low_tokens(&self) -> (r: (Vec<u64>, bool))
        requires
            self.wf(),
        ensures
            forall|k: u64|
                r.0@.contains(k) <==> self@.map.contains_key(k) && !(
                #[trigger] self@.pruned().map.contains_key(k)),
            r.0@.len() == self@.map.len() - self@.pruned().map.len(),
            r.1 == exists|k: u64| #[trigger]
                self@.pruned().map.contains_key(k) && self@.pruned().map[k].viability.below(
                    Viability::spec_max(),
                ),
    {
        let largest: Viability = Viability::max_finite();
        let mut low: Vec<u64> = Vec::new();
        let mut evictable: bool = false;
        let ghost p = self@.pruned();
        let items = self.map.iter();
        for kv in it: items
            invariant
                p == self@.pruned(),
                largest == Viability::spec_max(),
                it.seq().no_duplicates(),
                forall|i: int|
                    0 <= i < it.seq().len() ==> self.map@.contains_pair(*(#[trigger] it.seq()[i]).0, *it.seq()[i].1),
                forall|k: u64| #[trigger]
                    self.map@.contains_key(k) ==> it.seq().contains((&k, &self.map@[k])),
                low@.no_duplicates(),
                forall|j: int|
                    0 <= j < low@.len() ==> {
                        &&& self@.map.contains_key(#[trigger] low@[j])
                        &&& !p.map.contains_key(low@[j])
                        &&& exists|i: int| 0 <= i < it.index() && *(#[trigger] it.seq()[i]).0 == low@[j]
                    },
                forall|i: int|
                    0 <= i < it.index() ==> p.map.contains_key(*(#[trigger] it.seq()[i]).0)
                        || low@.contains(*it.seq()[i].0),
                evictable ==> exists|k: u64| #[trigger]
                    p.map.contains_key(k) && p.map[k].viability.below(largest),
                !evictable ==> forall|i: int|
                    0 <= i < it.index() && p.map.contains_key(*(#[trigger] it.seq()[i]).0)
                        ==> !it.seq()[i].1.viability.below(largest),
                it.index() == it.seq().len() ==> forall|k: u64| #[trigger]
                    self.map@.contains_key(k) ==> p.map.contains_key(k) || low@.contains(k),
                it.index() == it.seq().len() && !evictable ==> forall|k: u64| #[trigger]
                    p.map.contains_key(k) ==> !p.map[k].viability.below(largest),
        {
            let (k, t) = kv;
            assert(self@.map.contains_key(*k));
            assert(self@.map[*k] == t@);
            if t.viability.less_than(&self.cfg.min_viability) {
                let ghost earlier = low@;
                low.push(*k);
                proof {
                    assert(forall|j: int| 0 <= j < earlier.len() ==> low@[j] == earlier[j]);
                    assert(low@[earlier.len() as int] == *k);
                    assert forall|x: u64| earlier.contains(x) implies low@.contains(x) by {
                        let j = choose|j: int| 0 <= j < earlier.len() && earlier[j] == x;
                        assert(low@[j] == x);
                    }
                }
            } else {
                assert(p.map.contains_key(*k));
                if t.viability.less_than(&largest) {
                    evictable = true;
                }
            }
        }
        proof {
            self.lemma_contents();
            laws::pruning_takes_what_is_below_the_floor(self@);
            assert(self@.map.dom() =~= p.map.dom() + low@.to_set());
            low@.unique_seq_to_set();
            vstd::set_lib::lemma_set_disjoint_lens(p.map.dom(), low@.to_set());
        }
        (low, evictable)
    }

    /// Removes the tokens under the keys.
    fn remove_tokens(&mut self, keys: &Vec<u64>)
        ensures
            final(self)@.cfg == old(self)@.cfg,
            final(self)@.next_id == old(self)@.next_id,
            final(self)@.map == old(self)@.map.remove_keys(keys@.to_set()),
    {
        let ghost before = self@;
        let mut i: usize = 0;
        while i < keys.len()
            invariant
                0 <= i <= keys.len(),
                self@.cfg == before.cfg,
                self@.next_id == before.next_id,
                self@.map == before.map.remove_keys(keys@.take(i as int).to_set()),
            decreases keys.len() - i,
        {
            let ghost step = self@.map;
            self.map.remove(&keys[i]);
            proof {
                assert(keys@.take(i + 1) =~= keys@.take(i as int).push(keys@[i as int]));
                assert forall|k: u64|
                    keys@.take(i + 1).contains(k) == (keys@.take(i as int).contains(k) || k
                        == keys@[i as int]) by {
                    let done = keys@.take(i as int);
                    if done.contains(k) {
                        let j = choose|j: int| 0 <= j < done.len() && done[j] == k;
                        assert(keys@.take(i + 1)[j] == k);
                    }
                    if k == keys@[i as int] {
                        assert(keys@.take(i + 1)[i as int] == k);
                    }
                }
                assert(self@.map =~= step.remove(keys@[i as int]));
                assert(self@.map =~= before.map.remove_keys(keys@.take(i + 1).to_set()));
            }
            i = i + 1;
        }
        assert(keys@.take(keys@.len() as int) =~= keys@);
    }

    /// Makes room for a new token: prunes the tokens below the viability floor and, where the
    /// cap is still reached, evicts one of the lowest viability. Returns false, and leaves the
    /// ledger as it was, if no room can be made.
    fn make_room(&mut self) -> (r: bool)
        requires
            old(self).wf(),
        ensures
            final(self).wf(),
            r == old(self)@.has_room(),
            r ==> old(self)@.makes_room(final(self)@),
            !r ==> final(self)@ == old(self)@,
    {
        let ghost before = self@;
        let (low, evictable) = self.low_tokens();
        proof {
            laws::pruning_takes_what_is_below_the_floor(before);
            laws::room_is_found(before);
        }
        let kept: usize = self.len() - low.len();
        if kept >= self.cfg.max_entries && (self.cfg.max_entries == 0 || !evictable) {
            return false;
        }
        self.remove_tokens(&low);
        assert(self@.map =~= before.pruned().map);
        if kept >= self.cfg.max_entries {
            // Evict the lowest-viability entry to stay within the cap.
            self.evict_lowest_viability();
        }
        true
    }

    /// Mint or refresh an entry for the given window. If the window already has a token, its
    /// frequency is bumped. Otherwise a new id (`>= n_vocab`) is minted, with a code of zeros
    /// and a placeholder viability that a decoder would later refine; before that the entries
    /// below the viability floor are pruned and, where the cap is still reached, the entry of
    /// the lowest viability is evicted. A window of another length than `n_window`, or one for
    /// which no room can be made, is answered with the largest word, and nothing changes.
    pub fn register_pattern(&mut self, pattern: &[u32]) -> (r: u32)
        requires
            old(self).wf(),
            old(self)@.mints(pattern@) ==> old(self)@.next_id < u32::MAX,
        ensures
            final(self).wf(),
            old(self)@.registers_to(pattern@, final(self)@, r),
    {
        if pattern.len() != self.cfg.n_window {
            return u32::MAX;
        }
        let ghost before = self@;
        let key: u64 = pattern_hash(pattern);
        match self.map.remove(&key) {
            Some(mut tok) => {
                let id: u32 = tok.id;
                let ghost held = tok@;
                tok.frequency = tok.frequency.saturating_add(1);
                self.map.insert(key, tok);
                proof {
                    assert(self@.map =~= before.map.insert(key, held.used_again()));
                    laws::reuse_keeps_valid(before, key);
                }
                return id;
            },
            None => {},
        }
        assert(self@.map =~= before.map);
        if !self.make_room() {
            return u32::MAX;
        }
        proof {
            laws::making_room_keeps_valid(before, self@);
        }
        self.mint(key, pattern)
    }

    /// Puts in a new token for the window, under the next id.
    fn mint(&mut self, key: u64, pattern: &[u32]) -> (r: u32)
        requires
            old(self).wf(),
            key == bytes::window_key(pattern@),
            !old(self)@.map.contains_key(key),
            old(self)@.next_id < u32::MAX,
        ensures
            final(self).wf(),
            final(self)@ == old(self)@.mint(pattern@),
            r == old(self)@.next_id,
    {
        let ghost before = self@;
        let id: u32 = self.next_id as u32;
        self.next_id = self.next_id + 1;
        // A cold code: whoever trains the layer replaces the zeros with the learned code.
        let code = TernaryCode::new(vec![0i8; self.cfg.n_code]);
        let tok = GeneratedToken {
            id,
            pattern: vstd::slice::slice_to_vec(pattern),
            code,
            frequency: 1,
            viability: Viability::half(),
        };
        let ghost added = tok@;
        assert(added =~= before.minted(pattern@));
        self.map.insert(key, tok);
        proof {
            self.lemma_contents();
            assert(self@.map =~= before.map.insert(key, added));
            assert(pattern.len() == pattern@.len());
            laws::mint_keeps_valid(before, pattern@);
        }
        id
    }

    /// Mint an entry for a window under an id and with a code that were chosen elsewhere; room
    /// is made for it as for any other. It takes the place of the window's own entry, if there
    /// is one. Returns false, and changes nothing, if the id is already minted or below
    /// `n_vocab`, or if no room can be made.
    pub fn mint_external(&mut self, id: u32, pattern: Vec<u32>, code: TernaryCode) -> (r: bool)
        requires
            old(self).wf(),
        ensures
            final(self).wf(),
            r == old(self)@.admits(id, pattern@),
            old(self)@.admits_to(id, pattern@, code@, final(self)@),
    {
        if id < self.cfg.n_vocab || self.contains(id) {
            return false;
        }
        let ghost before = self@;
        let key: u64 = pattern_hash(pattern.as_slice());
        let held: Option<GeneratedToken> = self.map.remove(&key);
        assert(self@.map =~= before.without(key).map);
        proof {
            laws::without_keeps_valid(before, key);
        }
        if !self.make_room() {
            match held {
                Some(tok) => {
                    self.map.insert(key, tok);
                },
                None => {},
            }
            assert(self@.map =~= before.map);
            return false;
        }
        self.add_raw(
            GeneratedToken { id, pattern, code, frequency: 1, viability: Viability::half() },
        );
        true
    }

    /// The key of the token with the id, if there is one.
    fn find_id(&self, id: u32) -> (r: Option<u64>)
        ensures
            match r {
                Some(k) => self@.map.contains_key(k) && self@.map[k].id == id,
                None => !self@.has_id(id),
            },
    {
        for kv in it: self.map.iter()
            invariant
                forall|i: int|
                    0 <= i < it.seq().len() ==> self.map@.contains_pair(*(#[trigger] it.seq()[i]).0, *it.seq()[i].1),
                forall|k: u64| #[trigger]
                    self.map@.contains_key(k) ==> it.seq().contains((&k, &self.map@[k])),
                forall|i: int| 0 <= i < it.index() ==> (#[trigger] it.seq()[i]).1.id != id,
                it.index() == it.seq().len() ==> forall|k: u64| #[trigger]
                    self.map@.contains_key(k) ==> self.map@[k].id != id,
        {
            let (k, t) = kv;
            if t.id == id {
                return Some(*k);
            }
        }
        assert(forall|k: u64| #[trigger] self@.map.contains_key(k) ==> self@.map[k].id != id);
        None
    }

    /// Whether the ledger holds a token with the id.
    pub fn contains(&self, id: u32) -> (r: bool)
        ensures
            r == self@.has_id(id),
    {
        self.find_id(id).is_some()
    }

    /// Update the ternary code and viability of an existing minted id. Returns false if the
    /// id is not in the ledger.
    pub fn set_entry(&mut self, id: u32, code: TernaryCode, viability: Viability) -> (r: bool)
        requires
            old(self).wf(),
        ensures
            final(self).wf(),
            r == old(self)@.has_id(id),
            final(self)@ == old(self)@.set(id, code@, viability),
    {
        let ghost before = self@;
        let ghost values = code@;
        proof {
            assert(code.v.len() == code@.len());
            laws::set_keeps_valid(before, id, code@, viability);
        }
        match self.find_id(id) {
            Some(k) => {
                match self.map.remove(&k) {
                    Some(mut tok) => {
                        tok.code = code;
                        tok.viability = viability;
                        self.map.insert(k, tok);
                    },
                    None => {},
                }
                assert(self@.map =~= before.set(id, values, viability).map);
                true
            },
            None => {
                assert(self@.map =~= before.set(id, values, viability).map);
                false
            },
        }
    }

    /// Insert a raw entry verbatim (used when receiving a ledger). Replaces any entry with the
    /// same id, and any entry under the same window key.
    pub fn add_raw(&mut self, tok: GeneratedToken)
        requires
            old(self).wf(),
        ensures
            final(self).wf(),
            final(self)@ == old(self)@.add(tok@),
    {
        let ghost before = self@;
        let ghost added = tok@;
        let key: u64 = pattern_hash(tok.pattern.as_slice());
        let id: u32 = tok.id;
        if id as u64 >= self.next_id {
            // An id that was never handed out is in no entry.
            self.next_id = id as u64 + 1;
        } else {
            match self.find_id(id) {
                Some(k) => {
                    self.map.remove(&k);
                },
                None => {},
            }
        }
        assert(self@.map =~= before.others(id));
        assert(tok.pattern.len() == tok.pattern@.len());
        assert(tok.code.v.len() == tok.code@.len());
        let ghost kept = self@.map;
        self.map.insert(key, tok);
        proof {
            self.lemma_contents();
            assert(self@.map =~= kept.insert(key, added));
            laws::add_keeps_valid(before, added);
        }
    }

    /// All current minted entries, in stable (sorted-by-id) order.
    pub fn entries(&self) -> (r: Vec<GeneratedToken>)
        requires
            self.wf(),
        ensures
            contents(r@) == self@.entries(),
            self@.listed_by(contents(r@)),
            r@.len() == self@.map.len(),
    {
        broadcast use vstd::std_specs::btree::group_btree_axioms;

        let mut index: BTreeMap<u32, u64> = BTreeMap::new();
        for kv in it: self.map.iter()
            invariant
                self.wf(),
                forall|i: int|
                    0 <= i < it.seq().len() ==> self.map@.contains_pair(*(#[trigger] it.seq()[i]).0, *it.seq()[i].1),
                forall|k: u64| #[trigger]
                    self.map@.contains_key(k) ==> it.seq().contains((&k, &self.map@[k])),
                forall|id: u32| #[trigger]
                    index@.contains_key(id) ==> self@.map.contains_key(index@[id]) && self@.map[index@[id]].id == id,
                forall|i: int| 0 <= i < it.index() ==> index@.contains_key((#[trigger] it.seq()[i]).1.id),
                it.index() == it.seq().len() ==> forall|k: u64| #[trigger]
                    self.map@.contains_key(k) ==> index@.contains_key(self.map@[k].id),
        {
            let (k, t) = kv;
            assert(self@.map.contains_key(*k));
            index.insert(t.id, *k);
        }
        assert(forall|k: u64| #[trigger]
            self@.map.contains_key(k) ==> index@.contains_key(self@.map[k].id));

        let mut r: Vec<GeneratedToken> = Vec::new();
        let sorted = index.iter();
        let ghost order = vstd::std_specs::iter::IteratorSpec::remaining(&sorted);
        proof {
            let ids = order.map_values(|kv: (&u32, &u64)| *kv.0);
            assert(vstd::std_specs::btree::increasing_seq(ids));
            assert forall|i: int, j: int| 0 <= i < j < order.len() implies *(#[trigger] order[i]).0
                < *(#[trigger] order[j]).0 by {
                assert(vstd::std_specs::cmp::OrdSpec::cmp_spec(&ids[i], &ids[j]) is Less);
            }
        }
        for entry in it: sorted
            invariant
                forall|i: int|
                    0 <= i < it.seq().len() ==> index@.contains_pair(*(#[trigger] it.seq()[i]).0, *it.seq()[i].1),
                forall|id: u32| #[trigger]
                    index@.contains_key(id) ==> it.seq().contains((&id, &index@[id])),
                forall|i: int, j: int|
                    0 <= i < j < it.seq().len() ==> *(#[trigger] it.seq()[i]).0 < *(#[trigger] it.seq()[j]).0,
                forall|id: u32| #[trigger]
                    index@.contains_key(id) ==> self@.map.contains_key(index@[id]) && self@.map[index@[id]].id == id,
                it.seq() == order,
                r@.len() == it.index(),
                forall|i: int|
                    0 <= i < it.index() ==> (#[trigger] r@[i])@ == self@.map[*order[i].1],
        {
            let (_, k) = entry;
            match self.map.get(k) {
                Some(t) => {
                    r.push(t.clone());
                },
                None => {},
            }
        }
        proof {
            let s = contents(r@);
            assert forall|i: int| 0 <= i < s.len() implies self@.map.contains_pair(
                (#[trigger] s[i]).key(),
                s[i],
            ) by {
                assert(s[i] == r@[i]@);
            }
            assert forall|k: u64| #[trigger] self@.map.contains_key(k) implies s.contains(
                self@.map[k],
            ) by {
                let id = self@.map[k].id;
                let p = choose|p: int| 0 <= p < order.len() && order[p] == (&id, &index@[id]);
                assert(s[p] == r@[p]@);
            }
            assert forall|i: int, j: int| 0 <= i < j < s.len() implies (#[trigger] s[i]).id
                < (#[trigger] s[j]).id by {
                assert(s[i] == r@[i]@ && s[j] == r@[j]@);
            }
            assert(self@.listed_by(s));
            laws::entries_list_the_ledger(self@);
            laws::listing_is_unique(self@, s, self@.entries());
            laws::listing_has_each_token_once(self@, s);
        }
        r
    }
}

/// The contents of a list of tokens.
pub open spec fn contents(tokens: Seq<GeneratedToken>) -> Seq<TokenView> {
    tokens.map_values(|t: GeneratedToken| t@)
}

/// What a token contains are its fields, and what a list of tokens contains are its tokens, in
/// order.
pub proof fn contents_are_the_fields(t: GeneratedToken, ts: Seq<GeneratedToken>)
    ensures
        t@.id == t.id,
        t@.pattern == t.pattern@,
        t@.code == t.code.v@,
        t@.frequency == t.frequency,
        t@.viability.bits == t.viability.bits,
        contents(ts).len() == ts.len(),
        forall|i: int| 0 <= i < ts.len() ==> #[trigger] contents(ts)[i] == ts[i]@,
{
}

} // verus!
