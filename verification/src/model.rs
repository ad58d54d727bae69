//! What a ledger is, mathematically.
//!
//! A ledger is its configuration, a finite map from window keys to minted tokens, and the
//! next id to hand out. Each operation of [`crate::ledger::Ledger`] is stated as a function
//! or a relation on [`LedgerView`].

use vstd::prelude::*;

use crate::bytes;
use crate::ledger::LedgerConfig;
use crate::viability::Viability;

verus! {

/// The number of ids there are: an id is a 32-bit word.
pub const ID_LIMIT: u64 = 0x1_0000_0000;

/// The contents of a minted token.
#[verifier::ext_equal]
pub struct TokenView {
    pub id: u32,
    pub pattern: Seq<u32>,
    pub code: Seq<i8>,
    pub frequency: u32,
    pub viability: Viability,
}

impl TokenView {
    /// The key under which the token is held.
    pub open spec fn key(self) -> u64 {
        bytes::window_key(self.pattern)
    }

    /// Whether the window and the code are as the configuration asks for.
    pub open spec fn fits(self, cfg: LedgerConfig) -> bool {
        &&& self.pattern.len() == cfg.n_window
        &&& self.code.len() == cfg.n_code
        &&& ternary(self.code)
    }

    /// Whether the token is as minted tokens are under the configuration.
    pub open spec fn minted_form(self, cfg: LedgerConfig) -> bool {
        &&& self.id >= cfg.n_vocab
        &&& self.fits(cfg)
    }

    /// The token with one more use counted; the count stops at the largest word.
    pub open spec fn used_again(self) -> TokenView {
        TokenView {
            frequency: if self.frequency < u32::MAX {
                (self.frequency + 1) as u32
            } else {
                u32::MAX
            },
            ..self
        }
    }
}

/// Whether every value of a code is ternary.
pub open spec fn ternary(code: Seq<i8>) -> bool {
    forall|i: int| 0 <= i < code.len() ==> -1 <= #[trigger] code[i] <= 1
}

/// The contents of a ledger.
#[verifier::ext_equal]
pub struct LedgerView {
    pub cfg: LedgerConfig,
    pub map: Map<u64, TokenView>,
    pub next_id: u64,
}

impl LedgerView {
    /// What every ledger keeps: each token is held under the key of its window, no two tokens
    /// share an id, and the next id is above every id in use and not below `n_vocab`. The
    /// sizes fit the machine.
    pub open spec fn valid(self) -> bool {
        &&& self.map.dom().finite()
        &&& self.map.len() <= usize::MAX
        &&& self.cfg.n_vocab <= self.next_id <= ID_LIMIT
        &&& forall|k: u64| #[trigger]
            self.map.contains_key(k) ==> {
                &&& self.map[k].key() == k
                &&& self.map[k].id < self.next_id
                &&& self.map[k].pattern.len() <= usize::MAX
                &&& self.map[k].code.len() <= usize::MAX
            }
        &&& forall|j: u64, k: u64| #[trigger]
            self.map.contains_key(j) && #[trigger] self.map.contains_key(k) && self.map[j].id
                == self.map[k].id ==> j == k
    }

    /// Whether every token is as minted tokens are.
    pub open spec fn all_minted(self) -> bool {
        forall|k: u64| #[trigger]
            self.map.contains_key(k) ==> self.map[k].minted_form(self.cfg)
    }

    /// A ledger without tokens.
    pub open spec fn empty(cfg: LedgerConfig) -> LedgerView {
        LedgerView { cfg, map: Map::empty(), next_id: cfg.n_vocab as u64 }
    }

    /// The id minted for a window, if its key is taken.
    pub open spec fn lookup(self, pattern: Seq<u32>) -> Option<u32> {
        let k = bytes::window_key(pattern);
        if self.map.contains_key(k) {
            Some(self.map[k].id)
        } else {
            None
        }
    }

    /// Whether some token has the id.
    pub open spec fn has_id(self, id: u32) -> bool {
        exists|k: u64| #[trigger] self.map.contains_key(k) && self.map[k].id == id
    }

    /// Whether the token at `k` may be evicted: its viability is a number below the largest
    /// finite one, and no token has a lower one.
    pub open spec fn victim(self, k: u64) -> bool {
        &&& self.map.contains_key(k)
        &&& self.map[k].viability.below(Viability::spec_max())
        &&& forall|j: u64| #[trigger]
            self.map.contains_key(j) ==> !self.map[j].viability.below(self.map[k].viability)
    }

    /// The ledger without the token at `k`.
    pub open spec fn without(self, k: u64) -> LedgerView {
        LedgerView { map: self.map.remove(k), ..self }
    }

    /// One eviction: a token of the lowest viability leaves, whichever of them it is; where no
    /// token may be evicted, nothing changes.
    pub open spec fn evicts_to(self, after: LedgerView) -> bool {
        if exists|k: u64| self.victim(k) {
            exists|k: u64| self.victim(k) && after == self.without(k)
        } else {
            after == self
        }
    }

    /// The ledger without the tokens whose viability is below the floor.
    pub open spec fn pruned(self) -> LedgerView {
        LedgerView {
            map: self.map.restrict(
                Set::new(|k: u64| !self.map[k].viability.below(self.cfg.min_viability)),
            ),
            ..self
        }
    }

    /// Whether a new token finds room: once the tokens below the floor are gone, the cap is not
    /// reached, or it admits tokens at all and one of those left may be evicted.
    pub open spec fn has_room(self) -> bool {
        ||| self.pruned().map.len() < self.cfg.max_entries
        ||| self.cfg.max_entries > 0 && exists|k: u64| self.pruned().victim(k)
    }

    /// What happens before a new token is put in: the tokens below the floor leave, and where
    /// the cap is still reached then, one eviction takes place.
    pub open spec fn makes_room(self, after: LedgerView) -> bool {
        if self.pruned().map.len() >= self.cfg.max_entries {
            self.pruned().evicts_to(after)
        } else {
            after == self.pruned()
        }
    }

    /// The token that a window gets when it is first registered.
    pub open spec fn minted(self, pattern: Seq<u32>) -> TokenView {
        TokenView {
            id: self.next_id as u32,
            pattern,
            code: Seq::new(self.cfg.n_code as nat, |i: int| 0i8),
            frequency: 1,
            viability: Viability::spec_half(),
        }
    }

    /// The ledger with a token minted for the window.
    pub open spec fn mint(self, pattern: Seq<u32>) -> LedgerView {
        LedgerView {
            map: self.map.insert(bytes::window_key(pattern), self.minted(pattern)),
            next_id: (self.next_id + 1) as u64,
            ..self
        }
    }

    /// Whether the window has the right length and no token yet.
    pub open spec fn is_new(self, pattern: Seq<u32>) -> bool {
        &&& pattern.len() == self.cfg.n_window
        &&& !self.map.contains_key(bytes::window_key(pattern))
    }

    /// Whether registering the window mints a token.
    pub open spec fn mints(self, pattern: Seq<u32>) -> bool {
        self.is_new(pattern) && self.has_room()
    }

    /// Registering a window. One of another length than `n_window` is answered with the
    /// largest word and changes nothing, and so is a new one for which no room can be made.
    /// One whose key is taken has its use counted. Any other gets a new token, after room was
    /// made.
    pub open spec fn registers_to(self, pattern: Seq<u32>, after: LedgerView, id: u32) -> bool {
        let k = bytes::window_key(pattern);
        if pattern.len() != self.cfg.n_window {
            id == u32::MAX && after == self
        } else if self.map.contains_key(k) {
            &&& id == self.map[k].id
            &&& after == LedgerView { map: self.map.insert(k, self.map[k].used_again()), ..self }
        } else if !self.has_room() {
            id == u32::MAX && after == self
        } else {
            &&& id == self.next_id
            &&& exists|base: LedgerView| #[trigger]
                self.makes_room(base) && after == base.mint(pattern)
        }
    }

    /// The token that is minted for a window under an id and with a code that were chosen
    /// elsewhere.
    pub open spec fn external(id: u32, pattern: Seq<u32>, code: Seq<i8>) -> TokenView {
        TokenView { id, pattern, code, frequency: 1, viability: Viability::spec_half() }
    }

    /// Whether a token can be minted for the window under the id: the id is in the minted id
    /// space, no token has it, and there is room once the window's own token, if it has one,
    /// is out of the way.
    pub open spec fn admits(self, id: u32, pattern: Seq<u32>) -> bool {
        &&& id >= self.cfg.n_vocab
        &&& !self.has_id(id)
        &&& self.without(bytes::window_key(pattern)).has_room()
    }

    /// Minting a token that was chosen elsewhere. It takes the place of the window's own token,
    /// if it has one. Where the token cannot be minted, nothing changes.
    pub open spec fn admits_to(
        self,
        id: u32,
        pattern: Seq<u32>,
        code: Seq<i8>,
        after: LedgerView,
    ) -> bool {
        if self.admits(id, pattern) {
            exists|base: LedgerView| #[trigger]
                self.without(bytes::window_key(pattern)).makes_room(base) && after == base.add(
                    LedgerView::external(id, pattern, code),
                )
        } else {
            after == self
        }
    }

    /// The ledger with the code and viability of the token with the id replaced.
    pub open spec fn set(self, id: u32, code: Seq<i8>, viability: Viability) -> LedgerView {
        LedgerView {
            map: self.map.map_values(
                |t: TokenView|
                    if t.id == id {
                        TokenView { code, viability, ..t }
                    } else {
                        t
                    },
            ),
            ..self
        }
    }

    /// The tokens that have another id.
    pub open spec fn others(self, id: u32) -> Map<u64, TokenView> {
        self.map.restrict(Set::new(|k: u64| self.map[k].id != id))
    }

    /// The ledger with a token put in verbatim, in place of any token with the same id and of
    /// any token under the same key. The next id moves past it.
    pub open spec fn add(self, t: TokenView) -> LedgerView {
        LedgerView {
            map: self.others(t.id).insert(t.key(), t),
            next_id: if t.id >= self.next_id {
                (t.id + 1) as u64
            } else {
                self.next_id
            },
            ..self
        }
    }

    /// The ledger with tokens put in one after another.
    pub open spec fn add_all(self, ts: Seq<TokenView>) -> LedgerView
        decreases ts.len(),
    {
        if ts.len() == 0 {
            self
        } else {
            self.add_all(ts.drop_last()).add(ts.last())
        }
    }

    /// Whether `s` lists the tokens of the ledger, each once, by increasing id.
    pub open spec fn listed_by(self, s: Seq<TokenView>) -> bool {
        &&& forall|i: int| 0 <= i < s.len() ==> self.map.contains_pair((#[trigger] s[i]).key(), s[i])
        &&& forall|k: u64| #[trigger] self.map.contains_key(k) ==> s.contains(self.map[k])
        &&& forall|i: int, j: int| 0 <= i < j < s.len() ==> (#[trigger] s[i]).id < (#[trigger] s[j]).id
    }

    /// The tokens of the ledger by increasing id.
    pub open spec fn entries(self) -> Seq<TokenView> {
        choose|s: Seq<TokenView>| self.listed_by(s)
    }
}

} // verus!
