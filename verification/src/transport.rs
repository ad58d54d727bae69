//! The laws of sending and receiving a ledger.

use vstd::arithmetic::power2;
use vstd::prelude::*;

use crate::bytes;
use crate::layout;
use crate::layout::Fault;
use crate::laws;
use crate::ledger::LedgerConfig;
use crate::model::{LedgerView, TokenView};
use crate::text;
use crate::viability::Viability;
use crate::wire;

verus! {

proof fn lemma_append_assoc(a: Seq<u8>, b: Seq<u8>, c: Seq<u8>)
    ensures
        (a + b) + c == a + (b + c),
{
    assert((a + b) + c =~= a + (b + c));
}

proof fn lemma_append_empty(a: Seq<u8>)
    ensures
        a + Seq::<u8>::empty() == a,
        Seq::<u8>::empty() + a == a,
{
    assert(a + Seq::<u8>::empty() =~= a);
    assert(Seq::<u8>::empty() + a =~= a);
}

/// One more token is written behind those already there.
pub proof fn lemma_tokens_bytes_push(ts: Seq<TokenView>, t: TokenView)
    ensures
        layout::tokens_bytes(ts.push(t)) == layout::tokens_bytes(ts) + layout::token_bytes(t),
    decreases ts.len(),
{
    let last = layout::token_bytes(t);
    if ts.len() == 0 {
        assert(ts.push(t).drop_first() =~= Seq::<TokenView>::empty());
        assert(layout::tokens_bytes(Seq::<TokenView>::empty()) == Seq::<u8>::empty());
        assert(ts =~= Seq::<TokenView>::empty());
        lemma_append_empty(last);
    } else {
        lemma_tokens_bytes_push(ts.drop_first(), t);
        assert(ts.push(t).drop_first() =~= ts.drop_first().push(t));
        lemma_append_assoc(
            layout::token_bytes(ts[0]),
            layout::tokens_bytes(ts.drop_first()),
            last,
        );
    }
}

// Reading back what was written.

/// Reading off the front of a concatenation: the front is skipped and the rest is left.
proof fn lemma_front(a: Seq<u8>, b: Seq<u8>)
    ensures
        (a + b).skip(a.len() as int) == b,
        (a + b).len() == a.len() + b.len(),
        forall|i: int| 0 <= i < a.len() ==> #[trigger] (a + b)[i] == a[i],
{
    assert((a + b).skip(a.len() as int) =~= b);
}

proof fn lemma_u32_back(v: u32, rest: Seq<u8>)
    ensures
        layout::take_u32(bytes::le_bytes(v) + rest) == Ok::<(u32, Seq<u8>), Fault>((v, rest)),
{
    bytes::lemma_le_round_trip(v);
    lemma_front(bytes::le_bytes(v), rest);
}

proof fn lemma_leb128_back(v: nat, rest: Seq<u8>, done: nat)
    requires
        done <= 9,
        v < power2::pow2((70 - 7 * done) as nat),
    ensures
        layout::take_leb128(layout::varint_bytes(v) + rest, done) == Ok::<(nat, Seq<u8>), Fault>(
            (v, rest),
        ),
    decreases v,
{
    let written = layout::varint_bytes(v);
    lemma_front(written, rest);
    if v < 0x80 {
    } else {
        power2::lemma2_to64();
        if done == 9 {
            assert(power2::pow2(7) == 0x80);
        } else {
            power2::lemma_pow2_adds((63 - 7 * done) as nat, 7);
            let high = v / 0x80;
            assert(high < power2::pow2((63 - 7 * done) as nat));
            lemma_leb128_back(high, rest, done + 1);
            let first: Seq<u8> = seq![(v % 0x80 + 0x80) as u8];
            lemma_append_assoc(first, layout::varint_bytes(high), rest);
            lemma_front(first, layout::varint_bytes(high) + rest);
            assert((written + rest)[0] == first[0]);
        }
    }
}

proof fn lemma_varint_back(v: u64, rest: Seq<u8>)
    ensures
        layout::take_varint(layout::varint_bytes(v as nat) + rest) == Ok::<(u64, Seq<u8>), Fault>(
            (v, rest),
        ),
{
    power2::lemma2_to64_rest();
    power2::lemma_pow2_strictly_increases(64, 70);
    lemma_leb128_back(v as nat, rest, 0);
}

/// A number is read back as it was written, whatever stands before and behind it.
pub proof fn number_round_trip(before: Seq<u8>, v: u64, rest: Seq<u8>)
    ensures
        layout::take_varint(
            (before + layout::varint_bytes(v as nat) + rest).skip(before.len() as int),
        ) == Ok::<(u64, Seq<u8>), Fault>((v, rest)),
{
    let written = layout::varint_bytes(v as nat);
    lemma_append_assoc(before, written, rest);
    lemma_front(before, written + rest);
    lemma_varint_back(v, rest);
}

/// A score takes four bytes and is read back bit for bit, whatever stands before and behind
/// it, a score that is no number among them.
pub proof fn score_round_trip(before: Seq<u8>, v: Viability, rest: Seq<u8>)
    ensures
        bytes::le_bytes(v.bits).len() == 4,
        layout::take_u32((before + bytes::le_bytes(v.bits) + rest).skip(before.len() as int))
            == Ok::<(u32, Seq<u8>), Fault>((v.bits, rest)),
{
    let written = bytes::le_bytes(v.bits);
    lemma_append_assoc(before, written, rest);
    lemma_front(before, written + rest);
    lemma_u32_back(v.bits, rest);
}

proof fn lemma_window_back(w: Seq<u32>, rest: Seq<u8>)
    requires
        w.len() <= usize::MAX,
    ensures
        layout::take_counted_window(
            layout::varint_bytes(w.len()) + (bytes::window_bytes(w) + rest),
        ) == Ok::<(Seq<u32>, Seq<u8>), Fault>((w, rest)),
{
    let words = bytes::window_bytes(w);
    let n = w.len() as u64;
    lemma_varint_back(n, words + rest);
    bytes::lemma_window_bytes(w);
    lemma_front(words, rest);
    assert((n as usize) as nat == w.len());
    if let Ok((back, _)) = layout::take_window(words + rest, w.len()) {
        assert(back =~= w);
    }
}

proof fn lemma_code_back(c: Seq<i8>, rest: Seq<u8>)
    requires
        c.len() <= usize::MAX,
    ensures
        layout::take_counted_code(layout::varint_bytes(c.len()) + (layout::code_bytes(c) + rest))
            == Ok::<(Seq<i8>, Seq<u8>), Fault>((c, rest)),
{
    let values = layout::code_bytes(c);
    let n = c.len() as u64;
    lemma_varint_back(n, values + rest);
    lemma_front(values, rest);
    assert((n as usize) as nat == c.len());
    if let Ok((back, _)) = layout::take_code(values + rest, c.len()) {
        assert(back =~= c);
    }
}

/// Seven pieces before a rest can be read one after another.
proof fn lemma_regroup(
    a: Seq<u8>,
    b: Seq<u8>,
    c: Seq<u8>,
    d: Seq<u8>,
    e: Seq<u8>,
    f: Seq<u8>,
    g: Seq<u8>,
    rest: Seq<u8>,
)
    ensures
        (a + b + c + d + e + f + g) + rest == a + (b + (c + (d + (e + (f + (g + rest)))))),
{
    lemma_append_assoc(a + b + c + d + e + f, g, rest);
    lemma_append_assoc(a + b + c + d + e, f, g + rest);
    lemma_append_assoc(a + b + c + d, e, f + (g + rest));
    lemma_append_assoc(a + b + c, d, e + (f + (g + rest)));
    lemma_append_assoc(a + b, c, d + (e + (f + (g + rest))));
    lemma_append_assoc(a, b, c + (d + (e + (f + (g + rest)))));
}

/// A token is read where each of its fields is.
proof fn lemma_token_fields(
    s0: Seq<u8>,
    s1: Seq<u8>,
    s2: Seq<u8>,
    s3: Seq<u8>,
    s4: Seq<u8>,
    s5: Seq<u8>,
    t: TokenView,
)
    requires
        layout::take_varint(s0) == Ok::<(u64, Seq<u8>), Fault>((t.id as u64, s1)),
        layout::take_varint(s1) == Ok::<(u64, Seq<u8>), Fault>((t.frequency as u64, s2)),
        layout::take_u32(s2) == Ok::<(u32, Seq<u8>), Fault>((t.viability.bits, s3)),
        layout::take_counted_window(s3) == Ok::<(Seq<u32>, Seq<u8>), Fault>((t.pattern, s4)),
        layout::take_counted_code(s4) == Ok::<(Seq<i8>, Seq<u8>), Fault>((t.code, s5)),
    ensures
        layout::take_fields(s0) == Ok::<(TokenView, Seq<u8>), Fault>((t, s5)),
{
}

/// The fields of a token are read back as they were written.
proof fn lemma_fields_back(t: TokenView, rest: Seq<u8>)
    requires
        t.pattern.len() <= usize::MAX,
        t.code.len() <= usize::MAX,
    ensures
        layout::take_fields(layout::token_bytes(t) + rest) == Ok::<(TokenView, Seq<u8>), Fault>(
            (t, rest),
        ),
{
    let id = layout::varint_bytes(t.id as nat);
    let frequency = layout::varint_bytes(t.frequency as nat);
    let score = bytes::le_bytes(t.viability.bits);
    let n_words = layout::varint_bytes(t.pattern.len());
    let words = bytes::window_bytes(t.pattern);
    let n_values = layout::varint_bytes(t.code.len());
    let values = layout::code_bytes(t.code);
    let s4 = n_values + (values + rest);
    let s3 = n_words + (words + s4);
    let s2 = score + s3;
    let s1 = frequency + s2;
    lemma_regroup(id, frequency, score, n_words, words, n_values, values, rest);
    lemma_varint_back(t.id as u64, s1);
    lemma_varint_back(t.frequency as u64, s2);
    lemma_u32_back(t.viability.bits, s3);
    lemma_window_back(t.pattern, s4);
    lemma_code_back(t.code, rest);
    lemma_token_fields(id + s1, s1, s2, s3, s4, rest, t);
}

/// A token read back is the token that was written; one that is not as minted tokens are under
/// the configuration is refused.
pub proof fn token_round_trip(t: TokenView, rest: Seq<u8>, cfg: LedgerConfig)
    requires
        t.pattern.len() <= usize::MAX,
        t.code.len() <= usize::MAX,
    ensures
        layout::take_token(layout::token_bytes(t) + rest, cfg) == if t.minted_form(cfg) {
            Ok::<(TokenView, Seq<u8>), Fault>((t, rest))
        } else {
            Err::<(TokenView, Seq<u8>), Fault>(Fault::BadEntry)
        },
{
    lemma_fields_back(t, rest);
}

/// An entry that is sent by itself is received as it was written, where its window and its
/// code are as the receiver's configuration asks for; any other is refused.
pub proof fn entry_round_trip(t: TokenView, rest: Seq<u8>, cfg: LedgerConfig)
    requires
        t.pattern.len() <= usize::MAX,
        t.code.len() <= usize::MAX,
    ensures
        layout::take_entry(layout::token_bytes(t) + rest, cfg) == if t.fits(cfg) {
            Ok::<(TokenView, Seq<u8>), Fault>((t, rest))
        } else {
            Err::<(TokenView, Seq<u8>), Fault>(Fault::BadEntry)
        },
{
    lemma_fields_back(t, rest);
}

/// Tokens are read back as they were written, unless one of them is refused.
proof fn lemma_tokens_back(ts: Seq<TokenView>, rest: Seq<u8>, cfg: LedgerConfig)
    requires
        forall|i: int|
            0 <= i < ts.len() ==> (#[trigger] ts[i]).pattern.len() <= usize::MAX && ts[i].code.len()
                <= usize::MAX,
    ensures
        layout::take_tokens(layout::tokens_bytes(ts) + rest, ts.len(), cfg) == if forall|i: int|
            0 <= i < ts.len() ==> (#[trigger] ts[i]).minted_form(cfg) {
            Ok::<(Seq<TokenView>, Seq<u8>), Fault>((ts, rest))
        } else {
            Err::<(Seq<TokenView>, Seq<u8>), Fault>(Fault::BadEntry)
        },
    decreases ts.len(),
{
    if ts.len() == 0 {
        lemma_append_empty(rest);
        assert(ts =~= Seq::<TokenView>::empty());
    } else {
        let tail = ts.drop_first();
        assert forall|i: int| 0 <= i < tail.len() implies (#[trigger] tail[i]).pattern.len()
            <= usize::MAX && tail[i].code.len() <= usize::MAX by {
            assert(tail[i] == ts[i + 1]);
        }
        lemma_tokens_back(tail, rest, cfg);
        lemma_append_assoc(layout::token_bytes(ts[0]), layout::tokens_bytes(tail), rest);
        token_round_trip(ts[0], layout::tokens_bytes(tail) + rest, cfg);
        assert(seq![ts[0]] + tail =~= ts);
        assert(ts[0].minted_form(cfg) && (forall|i: int|
            0 <= i < tail.len() ==> (#[trigger] tail[i]).minted_form(cfg)) <==> (forall|i: int|
            0 <= i < ts.len() ==> (#[trigger] ts[i]).minted_form(cfg))) by {
            assert forall|i: int| 0 < i < ts.len() implies ts[i] == tail[i - 1] by {}
            assert forall|i: int| 0 <= i < tail.len() implies tail[i] == ts[i + 1] by {}
        }
    }
}

/// A header is read where each of its fields is.
proof fn lemma_header_fields(
    s0: Seq<u8>,
    s1: Seq<u8>,
    s2: Seq<u8>,
    s3: Seq<u8>,
    s4: Seq<u8>,
    s5: Seq<u8>,
    s6: Seq<u8>,
    cfg: LedgerConfig,
    n: nat,
)
    requires
        n <= usize::MAX,
        layout::take_u32(s0) == Ok::<(u32, Seq<u8>), Fault>((wire::MAGIC, s1)),
        layout::take_u8(s1) == Ok::<(u8, Seq<u8>), Fault>((wire::VERSION, s2)),
        layout::take_u32(s2) == Ok::<(u32, Seq<u8>), Fault>((cfg.n_vocab, s3)),
        layout::take_varint(s3) == Ok::<(u64, Seq<u8>), Fault>((cfg.n_window as u64, s4)),
        layout::take_varint(s4) == Ok::<(u64, Seq<u8>), Fault>((cfg.n_code as u64, s5)),
        layout::take_varint(s5) == Ok::<(u64, Seq<u8>), Fault>((n as u64, s6)),
    ensures
        layout::take_header(s0) == Ok::<((LedgerConfig, nat), Seq<u8>), Fault>(
            ((layout::received_config(cfg.n_vocab, cfg.n_window, cfg.n_code), n), s6),
        ),
{
}

proof fn lemma_header_back(cfg: LedgerConfig, n: nat, rest: Seq<u8>)
    requires
        n <= usize::MAX,
    ensures
        layout::take_header(layout::header_bytes(cfg, n) + rest) == Ok::<
            ((LedgerConfig, nat), Seq<u8>),
            Fault,
        >(((layout::received_config(cfg.n_vocab, cfg.n_window, cfg.n_code), n), rest)),
{
    let magic = bytes::le_bytes(wire::MAGIC);
    let version: Seq<u8> = seq![wire::VERSION];
    let n_vocab = bytes::le_bytes(cfg.n_vocab);
    let n_window = layout::varint_bytes(cfg.n_window as nat);
    let n_code = layout::varint_bytes(cfg.n_code as nat);
    let n_entries = layout::varint_bytes(n);
    let none = Seq::<u8>::empty();
    let s5 = n_entries + rest;
    let s4 = n_code + s5;
    let s3 = n_window + s4;
    let s2 = n_vocab + s3;
    let s1 = version + s2;
    lemma_append_empty(magic);
    lemma_regroup(none, magic, version, n_vocab, n_window, n_code, n_entries, rest);
    lemma_append_empty(magic + s1);
    lemma_u32_back(wire::MAGIC, s1);
    lemma_front(version, s2);
    lemma_u32_back(cfg.n_vocab, s3);
    lemma_varint_back(cfg.n_window as u64, s4);
    lemma_varint_back(cfg.n_code as u64, s5);
    lemma_varint_back(n as u64, rest);
    lemma_header_fields(magic + s1, s1, s2, s3, s4, s5, rest, cfg, n);
}

/// A ledger is read where its header, tokens and trailer are.
proof fn lemma_ledger_parts(
    s0: Seq<u8>,
    s1: Seq<u8>,
    s2: Seq<u8>,
    s3: Seq<u8>,
    cfg: LedgerConfig,
    ts: Seq<TokenView>,
)
    requires
        layout::take_header(s0) == Ok::<((LedgerConfig, nat), Seq<u8>), Fault>(
            ((cfg, ts.len()), s1),
        ),
        layout::take_tokens(s1, ts.len(), cfg) == Ok::<(Seq<TokenView>, Seq<u8>), Fault>((ts, s2)),
        layout::take_u32(s2) == Ok::<(u32, Seq<u8>), Fault>((wire::TRAILER, s3)),
    ensures
        layout::take_ledger(s0) == Ok::<(LedgerView, Seq<u8>), Fault>(
            (LedgerView::empty(cfg).add_all(ts), s3),
        ),
{
}

/// The ledger that a peer has when it received this one: the same tokens, the part of the
/// configuration that travels, and the first id past all of them.
pub open spec fn received(l: LedgerView) -> LedgerView {
    let ts = l.entries();
    LedgerView {
        cfg: layout::received_config(l.cfg.n_vocab, l.cfg.n_window, l.cfg.n_code),
        map: l.map,
        next_id: if ts.len() > 0 && ts.last().id >= l.cfg.n_vocab {
            (ts.last().id + 1) as u64
        } else {
            l.cfg.n_vocab as u64
        },
    }
}

/// Putting the first tokens of a listing into an empty ledger gives just those.
proof fn lemma_rebuild(l: LedgerView, cfg: LedgerConfig, s: Seq<TokenView>, n: int)
    requires
        l.valid(),
        l.listed_by(s),
        0 <= n <= s.len(),
    ensures
        ({
            let a = LedgerView::empty(cfg).add_all(s.take(n));
            &&& a.cfg == cfg
            &&& a.next_id == if n > 0 && s[n - 1].id >= cfg.n_vocab {
                s[n - 1].id + 1
            } else {
                cfg.n_vocab as int
            }
            &&& forall|i: int| 0 <= i < n ==> a.map.contains_pair((#[trigger] s[i]).key(), s[i])
            &&& forall|k: u64| #[trigger]
                a.map.contains_key(k) ==> exists|i: int| 0 <= i < n && (#[trigger] s[i]).key() == k
        }),
    decreases n,
{
    if n == 0 {
        assert(s.take(0) =~= Seq::<TokenView>::empty());
    } else {
        lemma_rebuild(l, cfg, s, n - 1);
        assert(s.take(n).drop_last() =~= s.take(n - 1));
        assert(s.take(n).last() == s[n - 1]);
        let b = LedgerView::empty(cfg).add_all(s.take(n - 1));
        let a = LedgerView::empty(cfg).add_all(s.take(n));
        let t = s[n - 1];
        assert(a == b.add(t));
        assert(l.map.contains_pair(t.key(), t));
        assert forall|i: int| 0 <= i < n implies a.map.contains_pair(
            (#[trigger] s[i]).key(),
            s[i],
        ) by {
            assert(l.map.contains_pair(s[i].key(), s[i]));
            if i < n - 1 {
                assert(s[i].id < s[n - 1].id);
                assert(b.map.contains_pair(s[i].key(), s[i]));
            }
        }
        assert forall|k: u64| #[trigger] a.map.contains_key(k) implies exists|i: int|
            0 <= i < n && (#[trigger] s[i]).key() == k by {
            if k == t.key() {
                assert(s[n - 1].key() == k);
            } else {
                assert(b.map.contains_key(k));
            }
        }
    }
}

/// The bytes of a ledger are read as its header, its tokens and its trailer.
proof fn lemma_ledger_back(l: LedgerView, rest: Seq<u8>)
    requires
        l.valid(),
    ensures
        ({
            let cfg = layout::received_config(l.cfg.n_vocab, l.cfg.n_window, l.cfg.n_code);
            layout::take_ledger(layout::ledger_bytes(l) + rest) == if l.all_minted() {
                Ok::<(LedgerView, Seq<u8>), Fault>(
                    (LedgerView::empty(cfg).add_all(l.entries()), rest),
                )
            } else {
                Err::<(LedgerView, Seq<u8>), Fault>(Fault::BadEntry)
            }
        }),
{
    let ts = l.entries();
    laws::entries_list_the_ledger(l);
    laws::listing_has_each_token_once(l, ts);
    let cfg = layout::received_config(l.cfg.n_vocab, l.cfg.n_window, l.cfg.n_code);
    let trailer = bytes::le_bytes(wire::TRAILER);
    let header = layout::header_bytes(l.cfg, ts.len());
    let tokens = layout::tokens_bytes(ts);
    lemma_append_assoc(header + tokens, trailer, rest);
    lemma_append_assoc(header, tokens, trailer + rest);
    assert forall|i: int| 0 <= i < ts.len() implies (#[trigger] ts[i]).pattern.len() <= usize::MAX
        && ts[i].code.len() <= usize::MAX by {
        assert(l.map.contains_key(ts[i].key()));
    }
    lemma_header_back(l.cfg, ts.len(), tokens + (trailer + rest));
    lemma_tokens_back(ts, trailer + rest, cfg);
    lemma_u32_back(wire::TRAILER, rest);
    if l.all_minted() {
        assert forall|i: int| 0 <= i < ts.len() implies (#[trigger] ts[i]).minted_form(cfg) by {
            assert(l.map.contains_pair(ts[i].key(), ts[i]));
        }
        lemma_ledger_parts(
            header + (tokens + (trailer + rest)),
            tokens + (trailer + rest),
            trailer + rest,
            rest,
            cfg,
            ts,
        );
    } else {
        let k = choose|k: u64| #[trigger]
            l.map.contains_key(k) && !l.map[k].minted_form(l.cfg);
        let p = choose|p: int| 0 <= p < ts.len() && ts[p] == l.map[k];
        assert(!ts[p].minted_form(cfg));
    }
}

/// A ledger that holds a token other than minted tokens are, put in verbatim, is refused by
/// whoever receives it.
pub proof fn only_minted_forms_are_received(l: LedgerView, rest: Seq<u8>)
    requires
        l.valid(),
        !l.all_minted(),
    ensures
        layout::take_ledger(layout::ledger_bytes(l) + rest) == Err::<(LedgerView, Seq<u8>), Fault>(
            Fault::BadEntry,
        ),
{
    lemma_ledger_back(l, rest);
}

/// What was sent is what is received: decoding the bytes of a ledger of minted tokens gives
/// the same tokens under the same configuration, whatever follows the bytes.
pub proof fn sent_is_received(l: LedgerView, rest: Seq<u8>)
    requires
        l.valid(),
        l.all_minted(),
    ensures
        layout::take_ledger(layout::ledger_bytes(l) + rest) == Ok::<(LedgerView, Seq<u8>), Fault>(
            (received(l), rest),
        ),
{
    let ts = l.entries();
    laws::entries_list_the_ledger(l);
    lemma_ledger_back(l, rest);
    let cfg = layout::received_config(l.cfg.n_vocab, l.cfg.n_window, l.cfg.n_code);
    let a = LedgerView::empty(cfg).add_all(ts);
    lemma_rebuild(l, cfg, ts, ts.len() as int);
    assert(ts.take(ts.len() as int) =~= ts);
    assert(a.map =~= l.map) by {
        assert forall|k: u64| a.map.contains_key(k) == l.map.contains_key(k) by {
            if l.map.contains_key(k) {
                let p = choose|p: int| 0 <= p < ts.len() && ts[p] == l.map[k];
                assert(a.map.contains_pair(ts[p].key(), ts[p]));
            }
            if a.map.contains_key(k) {
                let p = choose|p: int| 0 <= p < ts.len() && (#[trigger] ts[p]).key() == k;
                assert(l.map.contains_pair(ts[p].key(), ts[p]));
            }
        }
        assert forall|k: u64| a.map.contains_key(k) implies a.map[k] == l.map[k] by {
            let p = choose|p: int| 0 <= p < ts.len() && (#[trigger] ts[p]).key() == k;
            assert(l.map.contains_pair(ts[p].key(), ts[p]));
            assert(a.map.contains_pair(ts[p].key(), ts[p]));
        }
    }
    assert(a == received(l));
}

/// A received ledger is a ledger like any other. It lists the same tokens, finds the same ids
/// for the same windows, and is sent on as the very bytes that arrived.
pub proof fn received_is_equivalent(l: LedgerView)
    requires
        l.valid(),
    ensures
        received(l).valid(),
        received(l).entries() == l.entries(),
        received(l).all_minted() == l.all_minted(),
        forall|w: Seq<u32>| received(l).lookup(w) == #[trigger] l.lookup(w),
        layout::ledger_bytes(received(l)) == layout::ledger_bytes(l),
{
    let r = received(l);
    let ts = l.entries();
    laws::entries_list_the_ledger(l);
    assert forall|k: u64| #[trigger] l.map.contains_key(k) implies l.map[k].id < r.next_id by {
        let p = choose|p: int| 0 <= p < ts.len() && ts[p] == l.map[k];
        if p < ts.len() - 1 {
            assert(ts[p].id < ts[ts.len() - 1].id);
        }
    }
    assert(r.next_id <= l.next_id) by {
        if ts.len() > 0 {
            assert(l.map.contains_key(ts.last().key()));
        }
    }
    assert(r.valid());
    if r.all_minted() {
        assert(l.all_minted());
    }
    laws::entries_list_the_ledger(r);
    assert(l.listed_by(r.entries()));
    laws::listing_is_unique(l, r.entries(), ts);
}

/// Tokens that were read are as minted tokens are.
proof fn lemma_taken_are_minted(s: Seq<u8>, n: nat, cfg: LedgerConfig)
    ensures
        layout::take_tokens(s, n, cfg) matches Ok((ts, _)) ==> forall|i: int|
            0 <= i < ts.len() ==> (#[trigger] ts[i]).minted_form(cfg),
    decreases n,
{
    if n > 0 {
        if let Ok((_, rest)) = layout::take_token(s, cfg) {
            lemma_taken_are_minted(rest, (n - 1) as nat, cfg);
        }
    }
}

/// Putting tokens of the minted form into an empty ledger gives a ledger of them.
proof fn lemma_minted_together(cfg: LedgerConfig, ts: Seq<TokenView>)
    requires
        forall|i: int| 0 <= i < ts.len() ==> (#[trigger] ts[i]).minted_form(cfg),
    ensures
        LedgerView::empty(cfg).add_all(ts).cfg == cfg,
        LedgerView::empty(cfg).add_all(ts).all_minted(),
    decreases ts.len(),
{
    if ts.len() > 0 {
        let front = ts.drop_last();
        assert forall|i: int| 0 <= i < front.len() implies (#[trigger] front[i]).minted_form(
            cfg,
        ) by {
            assert(front[i] == ts[i]);
        }
        lemma_minted_together(cfg, front);
        laws::adding_keeps_minted_form(LedgerView::empty(cfg).add_all(front), ts.last());
    }
}

/// Whatever the bytes, a ledger read from them holds minted tokens only: every id is in the
/// minted id space, every window has `n_window` words, and every code has `n_code` values in
/// `{-1, 0, +1}`.
pub proof fn received_tokens_are_minted(s: Seq<u8>)
    ensures
        layout::take_ledger(s) matches Ok((l, _)) ==> l.all_minted(),
{
    if let Ok(((cfg, n), s1)) = layout::take_header(s) {
        lemma_taken_are_minted(s1, n, cfg);
        if let Ok((ts, _)) = layout::take_tokens(s1, n, cfg) {
            lemma_minted_together(cfg, ts);
        }
    }
}

// Bytes behind what is read play no part in it.

proof fn lemma_skip_front(s: Seq<u8>, t: Seq<u8>, n: int)
    requires
        0 <= n <= s.len(),
    ensures
        (s + t).skip(n) == s.skip(n) + t,
        forall|i: int| 0 <= i < s.len() ==> #[trigger] (s + t)[i] == s[i],
{
    assert((s + t).skip(n) =~= s.skip(n) + t);
}

proof fn lemma_u32_extends(s: Seq<u8>, t: Seq<u8>)
    ensures
        layout::take_u32(s) matches Ok((v, rest)) ==> layout::take_u32(s + t) == Ok::<
            (u32, Seq<u8>),
            Fault,
        >((v, rest + t)),
{
    if s.len() >= 4 {
        lemma_skip_front(s, t, 4);
    }
}

proof fn lemma_u8_extends(s: Seq<u8>, t: Seq<u8>)
    ensures
        layout::take_u8(s) matches Ok((v, rest)) ==> layout::take_u8(s + t) == Ok::<
            (u8, Seq<u8>),
            Fault,
        >((v, rest + t)),
{
    if s.len() >= 1 {
        lemma_skip_front(s, t, 1);
    }
}

proof fn lemma_leb128_extends(s: Seq<u8>, t: Seq<u8>, done: nat)
    ensures
        layout::take_leb128(s, done) matches Ok((v, rest)) ==> layout::take_leb128(s + t, done)
            == Ok::<(nat, Seq<u8>), Fault>((v, rest + t)),
    decreases s.len(),
{
    if s.len() >= 1 {
        lemma_skip_front(s, t, 1);
        lemma_leb128_extends(s.skip(1), t, done + 1);
    }
}

proof fn lemma_varint_extends(s: Seq<u8>, t: Seq<u8>)
    ensures
        layout::take_varint(s) matches Ok((v, rest)) ==> layout::take_varint(s + t) == Ok::<
            (u64, Seq<u8>),
            Fault,
        >((v, rest + t)),
{
    lemma_leb128_extends(s, t, 0);
}

proof fn lemma_window_extends(s: Seq<u8>, t: Seq<u8>)
    ensures
        layout::take_counted_window(s) matches Ok((v, rest)) ==> layout::take_counted_window(s + t)
            == Ok::<(Seq<u32>, Seq<u8>), Fault>((v, rest + t)),
{
    lemma_varint_extends(s, t);
    if let Ok((n, u)) = layout::take_varint(s) {
        let n = (n as usize) as nat;
        if let Ok((w, _)) = layout::take_window(u, n) {
            lemma_skip_front(u, t, 4 * n as int);
            if let Ok((x, _)) = layout::take_window(u + t, n) {
                assert(x =~= w);
            }
        }
    }
}

proof fn lemma_code_extends(s: Seq<u8>, t: Seq<u8>)
    ensures
        layout::take_counted_code(s) matches Ok((v, rest)) ==> layout::take_counted_code(s + t)
            == Ok::<(Seq<i8>, Seq<u8>), Fault>((v, rest + t)),
{
    lemma_varint_extends(s, t);
    if let Ok((n, u)) = layout::take_varint(s) {
        let n = (n as usize) as nat;
        if let Ok((c, _)) = layout::take_code(u, n) {
            lemma_skip_front(u, t, n as int);
            if let Ok((x, _)) = layout::take_code(u + t, n) {
                assert(x =~= c);
            }
        }
    }
}

proof fn lemma_token_extends(s: Seq<u8>, t: Seq<u8>, cfg: LedgerConfig)
    ensures
        layout::take_token(s, cfg) matches Ok((v, rest)) ==> layout::take_token(s + t, cfg) == Ok::<
            (TokenView, Seq<u8>),
            Fault,
        >((v, rest + t)),
{
    lemma_varint_extends(s, t);
    if let Ok((_, s1)) = layout::take_varint(s) {
        lemma_varint_extends(s1, t);
        if let Ok((_, s2)) = layout::take_varint(s1) {
            lemma_u32_extends(s2, t);
            if let Ok((_, s3)) = layout::take_u32(s2) {
                lemma_window_extends(s3, t);
                if let Ok((_, s4)) = layout::take_counted_window(s3) {
                    lemma_code_extends(s4, t);
                }
            }
        }
    }
}

proof fn lemma_tokens_extend(s: Seq<u8>, t: Seq<u8>, n: nat, cfg: LedgerConfig)
    ensures
        layout::take_tokens(s, n, cfg) matches Ok((v, rest)) ==> layout::take_tokens(s + t, n, cfg)
            == Ok::<(Seq<TokenView>, Seq<u8>), Fault>((v, rest + t)),
    decreases n,
{
    if n > 0 {
        lemma_token_extends(s, t, cfg);
        if let Ok((_, s1)) = layout::take_token(s, cfg) {
            lemma_tokens_extend(s1, t, (n - 1) as nat, cfg);
        }
    }
}

proof fn lemma_header_extends(s: Seq<u8>, t: Seq<u8>)
    ensures
        layout::take_header(s) matches Ok((v, rest)) ==> layout::take_header(s + t) == Ok::<
            ((LedgerConfig, nat), Seq<u8>),
            Fault,
        >((v, rest + t)),
{
    lemma_u32_extends(s, t);
    if let Ok((_, s1)) = layout::take_u32(s) {
        lemma_u8_extends(s1, t);
        if let Ok((_, s2)) = layout::take_u8(s1) {
            lemma_u32_extends(s2, t);
            if let Ok((_, s3)) = layout::take_u32(s2) {
                lemma_varint_extends(s3, t);
                if let Ok((_, s4)) = layout::take_varint(s3) {
                    lemma_varint_extends(s4, t);
                    if let Ok((_, s5)) = layout::take_varint(s4) {
                        lemma_varint_extends(s5, t);
                    }
                }
            }
        }
    }
}

/// Bytes behind the trailer play no part: with or without them the same ledger is read.
pub proof fn what_follows_is_ignored(s: Seq<u8>, t: Seq<u8>)
    ensures
        layout::take_ledger(s) matches Ok((l, rest)) ==> layout::take_ledger(s + t) == Ok::<
            (LedgerView, Seq<u8>),
            Fault,
        >((l, rest + t)),
{
    lemma_header_extends(s, t);
    if let Ok(((cfg, n), s1)) = layout::take_header(s) {
        lemma_tokens_extend(s1, t, n, cfg);
        if let Ok((_, s2)) = layout::take_tokens(s1, n, cfg) {
            lemma_u32_extends(s2, t);
        }
    }
}

/// A ledger that was cut short on the way is refused, wherever the cut is.
pub proof fn truncation_is_refused(l: LedgerView, n: int)
    requires
        l.valid(),
        0 <= n < layout::ledger_bytes(l).len(),
    ensures
        layout::take_ledger(layout::ledger_bytes(l).take(n)) is Err,
{
    let whole = layout::ledger_bytes(l);
    let front = whole.take(n);
    let lost = whole.skip(n);
    assert(front + lost =~= whole);
    what_follows_is_ignored(front, lost);
    lemma_ledger_back(l, Seq::empty());
    lemma_append_empty(whole);
    if let Ok((_, rest)) = layout::take_ledger(front) {
        assert((rest + lost).len() > 0);
    }
}

// The format, byte by byte.

/// A number below 128 is written as one byte. Any other is written as a byte with its low seven
/// bits and the high bit set, and then as the number without those seven bits is.
pub proof fn number_in_bytes(v: nat)
    ensures
        v < 128 ==> layout::varint_bytes(v) == seq![v as u8],
        v >= 128 ==> layout::varint_bytes(v) == seq![(v % 128 + 128) as u8] + layout::varint_bytes(
            v / 128,
        ),
{
}

/// A code value is written as the byte that is equal to it modulo 256, and read back from it.
pub proof fn value_in_a_byte(c: i8, b: u8)
    ensures
        layout::value_byte(c) == (c as int) % 256,
        layout::byte_value(b) == if b < 128 {
            b as int
        } else {
            b - 256
        },
        layout::byte_value(layout::value_byte(c)) == c,
{
}

/// An entry in bytes: the id, the frequency, the bit pattern of the viability, the number of
/// words and the words, the number of values and the values.
pub proof fn entry_in_bytes(t: TokenView)
    ensures
        layout::token_bytes(t) == layout::varint_bytes(t.id as nat) + layout::varint_bytes(
            t.frequency as nat,
        ) + bytes::le_bytes(t.viability.bits) + layout::varint_bytes(t.pattern.len())
            + bytes::window_bytes(t.pattern) + layout::varint_bytes(t.code.len()) + Seq::new(
            t.code.len(),
            |i: int| ((t.code[i] as int) % 256) as u8,
        ),
{
    let values = Seq::new(t.code.len(), |i: int| ((t.code[i] as int) % 256) as u8);
    assert(layout::code_bytes(t.code) =~= values);
}

/// Entries in bytes stand one after another.
pub proof fn entries_in_bytes(t: TokenView, ts: Seq<TokenView>)
    ensures
        layout::tokens_bytes(Seq::<TokenView>::empty()) == Seq::<u8>::empty(),
        layout::tokens_bytes(seq![t] + ts) == layout::token_bytes(t) + layout::tokens_bytes(ts),
{
    assert((seq![t] + ts).drop_first() =~= ts);
}

/// A ledger in bytes: the magic word, the version, the vocabulary, the window length, the code
/// dimension, the number of entries, the entries by increasing id, and the trailer.
pub proof fn ledger_in_bytes(l: LedgerView)
    requires
        l.valid(),
    ensures
        layout::ledger_bytes(l) == seq![0x54u8, 0x4cu8, 0x44u8, 0x47u8, 1u8] + bytes::le_bytes(
            l.cfg.n_vocab,
        ) + layout::varint_bytes(l.cfg.n_window as nat) + layout::varint_bytes(
            l.cfg.n_code as nat,
        ) + layout::varint_bytes(l.map.len()) + layout::tokens_bytes(l.entries())
            + seq![0x44u8, 0x4cu8, 0u8, 0u8],
{
    laws::entries_list_the_ledger(l);
    laws::listing_has_each_token_once(l, l.entries());
    assert(bytes::le_bytes(wire::MAGIC) =~= seq![0x54u8, 0x4cu8, 0x44u8, 0x47u8]);
    assert(bytes::le_bytes(wire::TRAILER) =~= seq![0x44u8, 0x4cu8, 0u8, 0u8]);
    assert(bytes::le_bytes(wire::MAGIC) + seq![wire::VERSION] =~= seq![
        0x54u8,
        0x4cu8,
        0x44u8,
        0x47u8,
        1u8,
    ]);
}

/// A byte is read off the front where there is one, and a word where there are four bytes, each
/// of which counts 256 times as much as the one before.
pub proof fn words_are_read_off_the_front(s: Seq<u8>)
    ensures
        s.len() < 1 ==> layout::take_u8(s) == Err::<(u8, Seq<u8>), Fault>(Fault::TruncatedU8),
        s.len() >= 1 ==> layout::take_u8(s) == Ok::<(u8, Seq<u8>), Fault>((s[0], s.skip(1))),
        s.len() < 4 ==> layout::take_u32(s) == Err::<(u32, Seq<u8>), Fault>(Fault::TruncatedU32),
        s.len() >= 4 ==> layout::take_u32(s) == Ok::<(u32, Seq<u8>), Fault>(
            ((s[0] + 256 * s[1] + 65_536 * s[2] + 16_777_216 * s[3]) as u32, s.skip(4)),
        ),
{
}

/// How many bytes a number takes does not matter to its value, as long as they are not too many.
proof fn lemma_leb128_earlier(s: Seq<u8>, done: nat, earlier: nat)
    requires
        layout::take_leb128(s, done) is Ok,
        earlier + (s.len() - layout::take_leb128(s, done)->Ok_0.1.len()) <= 10,
    ensures
        layout::take_leb128(s, earlier) == layout::take_leb128(s, done),
        layout::take_leb128(s, done)->Ok_0.1.len() < s.len(),
    decreases s.len(),
{
    lemma_leb128_shrinks(s, done);
    if s[0] >= 0x80 {
        lemma_leb128_shrinks(s.skip(1), done + 1);
        lemma_leb128_earlier(s.skip(1), done + 1, earlier + 1);
    }
}

proof fn lemma_leb128_shrinks(s: Seq<u8>, done: nat)
    ensures
        layout::take_leb128(s, done) matches Ok((_, rest)) ==> rest.len() < s.len(),
    decreases s.len(),
{
    if s.len() > 0 {
        lemma_leb128_shrinks(s.skip(1), done + 1);
    }
}

/// A number is read seven bits at a time, the lowest first: a byte below 128 is the last, and
/// any other counts its low seven bits, and what is read behind it 128 times as much, modulo
/// 2^64. A number takes at most ten bytes.
pub proof fn numbers_are_read_seven_bits_at_a_time(s: Seq<u8>)
    ensures
        s.len() == 0 ==> layout::take_varint(s) == Err::<(u64, Seq<u8>), Fault>(
            Fault::TruncatedU8,
        ),
        s.len() > 0 && s[0] < 128 ==> layout::take_varint(s) == Ok::<(u64, Seq<u8>), Fault>(
            (s[0] as u64, s.skip(1)),
        ),
        s.len() > 0 && s[0] >= 128 ==> (layout::take_varint(s.skip(1)) matches Ok((v, rest))
            ==> s.len() - rest.len() <= 10 ==> layout::take_varint(s) == Ok::<
            (u64, Seq<u8>),
            Fault,
        >((((s[0] - 128 + 128 * v) % 0x1_0000_0000_0000_0000) as u64, rest))),
{
    if s.len() > 0 && s[0] < 128 {
        assert(layout::take_leb128(s, 0) == Ok::<(nat, Seq<u8>), Fault>((s[0] as nat, s.skip(1))));
    }
    if s.len() > 0 && s[0] >= 128 {
        if let Ok((wide, rest)) = layout::take_leb128(s.skip(1), 0) {
            lemma_leb128_shrinks(s.skip(1), 0);
            if s.len() - rest.len() <= 10 {
                lemma_leb128_earlier(s.skip(1), 0, 1);
                let m: int = 0x1_0000_0000_0000_0000;
                let w: int = wide as int;
                let c: int = s[0] - 128;
                let q: int = w / m;
                assert(w == m * q + w % m) by {
                    vstd::arithmetic::div_mod::lemma_fundamental_div_mod(w, m);
                }
                assert((c + 128 * w) % m == (c + 128 * (w % m)) % m) by {
                    assert(c + 128 * w == (128 * q) * m + (c + 128 * (w % m))) by (nonlinear_arith)
                        requires
                            w == m * q + w % m,
                    ;
                    vstd::arithmetic::div_mod::lemma_mod_multiples_vanish(
                        128 * q,
                        c + 128 * (w % m),
                        m,
                    );
                }
            }
        }
    }
}

/// A number whose bytes end before the last one is refused, and one of which ten bytes do not
/// end is too long.
pub proof fn unfinished_numbers_are_refused(s: Seq<u8>)
    ensures
        s.len() < 10 && (forall|i: int| 0 <= i < s.len() ==> #[trigger] s[i] >= 128)
            ==> layout::take_varint(s) == Err::<(u64, Seq<u8>), Fault>(Fault::TruncatedU8),
        s.len() >= 10 && (forall|i: int| 0 <= i < 10 ==> #[trigger] s[i] >= 128)
            ==> layout::take_varint(s) == Err::<(u64, Seq<u8>), Fault>(Fault::VarintTooLong),
{
    if s.len() < 10 && (forall|i: int| 0 <= i < s.len() ==> #[trigger] s[i] >= 128) {
        lemma_unfinished(s, 0);
    }
    if s.len() >= 10 && (forall|i: int| 0 <= i < 10 ==> #[trigger] s[i] >= 128) {
        lemma_unfinished(s, 0);
    }
}

proof fn lemma_unfinished(s: Seq<u8>, done: nat)
    requires
        done <= 9,
        forall|i: int| 0 <= i < s.len() && i < 10 - done ==> #[trigger] s[i] >= 128,
    ensures
        layout::take_leb128(s, done) == if s.len() < 10 - done {
            Err::<(nat, Seq<u8>), Fault>(Fault::TruncatedU8)
        } else {
            Err::<(nat, Seq<u8>), Fault>(Fault::VarintTooLong)
        },
    decreases s.len(),
{
    if s.len() > 0 && done < 9 {
        assert forall|i: int| 0 <= i < s.skip(1).len() && i < 9 - done implies #[trigger] s.skip(1)[i]
            >= 128 by {
            assert(s.skip(1)[i] == s[i + 1]);
        }
        lemma_unfinished(s.skip(1), done + 1);
    }
}

/// An entry is read field by field: the low word of the id, the low word of the frequency, the
/// bit pattern of the viability, as many words as are announced, and as many values.
pub proof fn entries_are_read_field_by_field(
    s: Seq<u8>,
    id: u64,
    s1: Seq<u8>,
    frequency: u64,
    s2: Seq<u8>,
    bits: u32,
    s3: Seq<u8>,
    n: u64,
    s4: Seq<u8>,
    m: u64,
    s5: Seq<u8>,
)
    requires
        layout::take_varint(s) == Ok::<(u64, Seq<u8>), Fault>((id, s1)),
        layout::take_varint(s1) == Ok::<(u64, Seq<u8>), Fault>((frequency, s2)),
        layout::take_u32(s2) == Ok::<(u32, Seq<u8>), Fault>((bits, s3)),
        layout::take_varint(s3) == Ok::<(u64, Seq<u8>), Fault>((n, s4)),
        n <= usize::MAX,
        4 * n <= s4.len(),
        layout::take_varint(s4.skip(4 * n as int)) == Ok::<(u64, Seq<u8>), Fault>((m, s5)),
        m <= usize::MAX,
        m <= s5.len(),
    ensures
        layout::take_fields(s) matches Ok((t, rest)) && {
            &&& t.id == id % 0x1_0000_0000
            &&& t.frequency == frequency % 0x1_0000_0000
            &&& t.viability.bits == bits
            &&& t.pattern.len() == n
            &&& forall|i: int|
                0 <= i < n ==> #[trigger] t.pattern[i] == s4[4 * i] + 256 * s4[4 * i + 1] + 65_536
                    * s4[4 * i + 2] + 16_777_216 * s4[4 * i + 3]
            &&& t.code.len() == m
            &&& forall|i: int|
                0 <= i < m ==> #[trigger] t.code[i] == if s5[i] < 128 {
                    s5[i] as int
                } else {
                    s5[i] - 256
                }
            &&& rest == s5.skip(m as int)
        },
{
    assert((n as usize) as nat == n as nat);
    assert((m as usize) as nat == m as nat);
}

/// What is wrong with an entry is what is wrong with the first of its fields that cannot be
/// read.
pub proof fn first_fault_of_an_entry_is_told(s: Seq<u8>)
    ensures
        layout::take_varint(s) matches Err(f) ==> layout::take_fields(s) == Err::<
            (TokenView, Seq<u8>),
            Fault,
        >(f),
        layout::take_varint(s) matches Ok((_, s1)) ==> {
            &&& layout::take_varint(s1) matches Err(f) ==> layout::take_fields(s) == Err::<
                (TokenView, Seq<u8>),
                Fault,
            >(f)
            &&& layout::take_varint(s1) matches Ok((_, s2)) ==> {
                &&& layout::take_u32(s2) matches Err(f) ==> layout::take_fields(s) == Err::<
                    (TokenView, Seq<u8>),
                    Fault,
                >(f)
                &&& layout::take_u32(s2) matches Ok((_, s3)) ==> {
                    &&& layout::take_varint(s3) matches Err(f) ==> layout::take_fields(s) == Err::<
                        (TokenView, Seq<u8>),
                        Fault,
                    >(f)
                    &&& layout::take_varint(s3) matches Ok((n, s4)) ==> n <= usize::MAX ==> {
                        &&& s4.len() < 4 * n ==> layout::take_fields(s) == Err::<
                            (TokenView, Seq<u8>),
                            Fault,
                        >(Fault::TruncatedU32)
                        &&& s4.len() >= 4 * n ==> {
                            &&& layout::take_varint(s4.skip(4 * n as int)) matches Err(f)
                                ==> layout::take_fields(s) == Err::<(TokenView, Seq<u8>), Fault>(f)
                            &&& layout::take_varint(s4.skip(4 * n as int)) matches Ok((m, s5)) ==> m
                                <= usize::MAX ==> s5.len() < m ==> layout::take_fields(s) == Err::<
                                (TokenView, Seq<u8>),
                                Fault,
                            >(Fault::TruncatedU8)
                        }
                    }
                }
            }
        },
{
    if let Ok((_, s1)) = layout::take_varint(s) {
        if let Ok((_, s2)) = layout::take_varint(s1) {
            if let Ok((_, s3)) = layout::take_u32(s2) {
                if let Ok((n, s4)) = layout::take_varint(s3) {
                    if n <= usize::MAX {
                        assert((n as usize) as nat == n as nat);
                        if s4.len() >= 4 * n {
                            if let Ok((m, s5)) = layout::take_varint(s4.skip(4 * n as int)) {
                                if m <= usize::MAX {
                                    assert((m as usize) as nat == m as nat);
                                }
                            }
                        }
                    }
                }
            }
        }
    }
}

/// An entry of a ledger is what its fields say, where its id is at least `n_vocab`, it has
/// `n_window` words, and `n_code` values of -1, 0 or 1; any other is a bad entry. Of an entry
/// that comes by itself the id is not asked.
pub proof fn entries_must_fit(s: Seq<u8>, cfg: LedgerConfig)
    ensures
        layout::take_fields(s) matches Err(f) ==> layout::take_token(s, cfg) == Err::<
            (TokenView, Seq<u8>),
            Fault,
        >(f) && layout::take_entry(s, cfg) == Err::<(TokenView, Seq<u8>), Fault>(f),
        layout::take_fields(s) matches Ok((t, rest)) ==> {
            let fits = t.pattern.len() == cfg.n_window && t.code.len() == cfg.n_code && forall|
                i: int,
            |
                0 <= i < t.code.len() ==> -1 <= #[trigger] t.code[i] <= 1;
            &&& layout::take_token(s, cfg) == if fits && t.id >= cfg.n_vocab {
                Ok::<(TokenView, Seq<u8>), Fault>((t, rest))
            } else {
                Err::<(TokenView, Seq<u8>), Fault>(Fault::BadEntry)
            }
            &&& layout::take_entry(s, cfg) == if fits {
                Ok::<(TokenView, Seq<u8>), Fault>((t, rest))
            } else {
                Err::<(TokenView, Seq<u8>), Fault>(Fault::BadEntry)
            }
        },
{
}

/// Entries are read one after another, as many as are announced, and a bad one ends it.
pub proof fn entries_are_read_in_order(s: Seq<u8>, n: nat, cfg: LedgerConfig)
    ensures
        layout::take_tokens(s, 0, cfg) == Ok::<(Seq<TokenView>, Seq<u8>), Fault>(
            (Seq::<TokenView>::empty(), s),
        ),
        layout::take_token(s, cfg) matches Err(f) ==> layout::take_tokens(s, n + 1, cfg) == Err::<
            (Seq<TokenView>, Seq<u8>),
            Fault,
        >(f),
        layout::take_token(s, cfg) matches Ok((t, rest)) ==> layout::take_tokens(s, n + 1, cfg)
            == match layout::take_tokens(rest, n, cfg) {
            Ok((ts, end)) => Ok::<(Seq<TokenView>, Seq<u8>), Fault>((seq![t] + ts, end)),
            Err(f) => Err::<(Seq<TokenView>, Seq<u8>), Fault>(f),
        },
{
}

/// The magic word is that of those four bytes, and the trailer that of its four.
proof fn lemma_words(s: Seq<u8>)
    requires
        s.len() >= 4,
    ensures
        bytes::le_value(s[0], s[1], s[2], s[3]) == wire::MAGIC <==> s[0] == 0x54 && s[1] == 0x4c
            && s[2] == 0x44 && s[3] == 0x47,
        bytes::le_value(s[0], s[1], s[2], s[3]) == wire::TRAILER <==> s[0] == 0x44 && s[1] == 0x4c
            && s[2] == 0 && s[3] == 0,
{
    bytes::bytes_make_a_word(s[0], s[1], s[2], s[3]);
}

/// The magic word must be that of a ledger and the version must be 1.
pub proof fn magic_and_version_are_asked_for(s: Seq<u8>)
    ensures
        s.len() < 4 ==> layout::take_ledger(s) == Err::<(LedgerView, Seq<u8>), Fault>(Fault::TruncatedU32),
        s.len() >= 4 && !(s[0] == 0x54 && s[1] == 0x4c && s[2] == 0x44 && s[3] == 0x47)
            ==> layout::take_ledger(s) == Err::<(LedgerView, Seq<u8>), Fault>(Fault::BadMagic),
        s.len() == 4 && s[0] == 0x54 && s[1] == 0x4c && s[2] == 0x44 && s[3] == 0x47
            ==> layout::take_ledger(s) == Err::<(LedgerView, Seq<u8>), Fault>(Fault::TruncatedU8),
        s.len() > 4 && s[0] == 0x54 && s[1] == 0x4c && s[2] == 0x44 && s[3] == 0x47 && s[4] != 1
            ==> layout::take_ledger(s) == Err::<(LedgerView, Seq<u8>), Fault>(Fault::UnsupportedVersion(s[4])),
{
    if s.len() >= 4 {
        lemma_words(s);
        if s.len() > 4 {
            assert(s.skip(4)[0] == s[4]);
        }
    }
}

/// Behind a good magic word and version, the header is what stands there.
proof fn lemma_preamble(s: Seq<u8>)
    requires
        s.len() > 4,
        s[0] == 0x54 && s[1] == 0x4c && s[2] == 0x44 && s[3] == 0x47 && s[4] == 1,
    ensures
        layout::take_preamble(s) == Ok::<(u8, Seq<u8>), Fault>((1u8, s.skip(5))),
{
    lemma_words(s);
    assert(s.skip(4)[0] == s[4]);
    assert(s.skip(4).skip(1) =~= s.skip(5));
}

/// What is wrong with a header is what is wrong with the first of its numbers that cannot be
/// read: the vocabulary, the window length, the code dimension or the number of entries.
pub proof fn first_fault_of_a_header_is_told(s: Seq<u8>)
    requires
        s.len() > 4,
        s[0] == 0x54 && s[1] == 0x4c && s[2] == 0x44 && s[3] == 0x47 && s[4] == 1,
    ensures
        layout::take_u32(s.skip(5)) matches Err(f) ==> layout::take_ledger(s) == Err::<(LedgerView, Seq<u8>), Fault>(f),
        layout::take_u32(s.skip(5)) matches Ok((_, s1)) ==> {
            &&& layout::take_varint(s1) matches Err(f) ==> layout::take_ledger(s) == Err::<(LedgerView, Seq<u8>), Fault>(f)
            &&& layout::take_varint(s1) matches Ok((_, s2)) ==> {
                &&& layout::take_varint(s2) matches Err(f) ==> layout::take_ledger(s) == Err::<(LedgerView, Seq<u8>), Fault>(f)
                &&& layout::take_varint(s2) matches Ok((_, s3)) ==> (layout::take_varint(
                    s3,
                ) matches Err(f) ==> layout::take_ledger(s) == Err::<(LedgerView, Seq<u8>), Fault>(f))
            }
        },
{
    lemma_preamble(s);
}

/// A header is read number by number. What does not travel has its default.
proof fn lemma_header_numbers(
    s: Seq<u8>,
    n_vocab: u32,
    s1: Seq<u8>,
    n_window: u64,
    s2: Seq<u8>,
    n_code: u64,
    s3: Seq<u8>,
    n: u64,
    s4: Seq<u8>,
)
    requires
        layout::take_preamble(s) == Ok::<(u8, Seq<u8>), Fault>((1u8, s.skip(5))),
        layout::take_u32(s.skip(5)) == Ok::<(u32, Seq<u8>), Fault>((n_vocab, s1)),
        layout::take_varint(s1) == Ok::<(u64, Seq<u8>), Fault>((n_window, s2)),
        layout::take_varint(s2) == Ok::<(u64, Seq<u8>), Fault>((n_code, s3)),
        layout::take_varint(s3) == Ok::<(u64, Seq<u8>), Fault>((n, s4)),
        n_window <= usize::MAX,
        n_code <= usize::MAX,
        n <= usize::MAX,
    ensures
        layout::take_header(s) == Ok::<((LedgerConfig, nat), Seq<u8>), Fault>(
            (
                (
                    LedgerConfig {
                        n_vocab,
                        n_window: n_window as usize,
                        n_code: n_code as usize,
                        min_viability: Viability { bits: 0x3d4c_cccd },
                        max_entries: 24_000,
                    },
                    n as nat,
                ),
                s4,
            ),
        ),
{
    assert((n as usize) as nat == n as nat);
}

/// A ledger is read part by part: the numbers of its header, as many entries as they announce,
/// and the trailer, which must be that of a ledger. It then holds the entries, put in one after
/// another; what does not travel of its configuration has its default.
pub proof fn ledgers_are_read_part_by_part(
    s: Seq<u8>,
    n_vocab: u32,
    s1: Seq<u8>,
    n_window: u64,
    s2: Seq<u8>,
    n_code: u64,
    s3: Seq<u8>,
    n: u64,
    s4: Seq<u8>,
    cfg: LedgerConfig,
)
    requires
        s.len() > 4,
        s[0] == 0x54 && s[1] == 0x4c && s[2] == 0x44 && s[3] == 0x47 && s[4] == 1,
        layout::take_u32(s.skip(5)) == Ok::<(u32, Seq<u8>), Fault>((n_vocab, s1)),
        layout::take_varint(s1) == Ok::<(u64, Seq<u8>), Fault>((n_window, s2)),
        layout::take_varint(s2) == Ok::<(u64, Seq<u8>), Fault>((n_code, s3)),
        layout::take_varint(s3) == Ok::<(u64, Seq<u8>), Fault>((n, s4)),
        n_window <= usize::MAX,
        n_code <= usize::MAX,
        n <= usize::MAX,
        cfg.n_vocab == n_vocab,
        cfg.n_window == n_window,
        cfg.n_code == n_code,
        cfg.min_viability.bits == 0x3d4c_cccd,
        cfg.max_entries == 24_000,
    ensures
        layout::take_tokens(s4, n as nat, cfg) matches Err(f) ==> layout::take_ledger(s) == Err::<(LedgerView, Seq<u8>), Fault>(f),
        layout::take_tokens(s4, n as nat, cfg) matches Ok((ts, end)) ==> {
            &&& end.len() < 4 ==> layout::take_ledger(s) == Err::<(LedgerView, Seq<u8>), Fault>(Fault::TruncatedU32)
            &&& end.len() >= 4 && !(end[0] == 0x44 && end[1] == 0x4c && end[2] == 0 && end[3] == 0)
                ==> layout::take_ledger(s) == Err::<(LedgerView, Seq<u8>), Fault>(Fault::BadTrailer)
            &&& end.len() >= 4 && end[0] == 0x44 && end[1] == 0x4c && end[2] == 0 && end[3] == 0
                ==> layout::take_ledger(s) == Ok::<(LedgerView, Seq<u8>), Fault>(
                (LedgerView::empty(cfg).add_all(ts), end.skip(4)),
            )
        },
{
    lemma_preamble(s);
    lemma_header_numbers(s, n_vocab, s1, n_window, s2, n_code, s3, n, s4);
    if let Ok((_, end)) = layout::take_tokens(s4, n as nat, cfg) {
        if end.len() >= 4 {
            lemma_words(end);
        }
    }
}

/// What is wrong with bytes is told in words.
pub proof fn faults_are_told(v: u8)
    ensures
        Fault::TruncatedU32.message() == "truncated u32"@,
        Fault::TruncatedU8.message() == "truncated u8"@,
        Fault::VarintTooLong.message() == "varint too long"@,
        Fault::BadMagic.message() == "bad magic"@,
        Fault::UnsupportedVersion(v).message() == "unsupported version "@ + text::decimal(v as nat),
        Fault::BadEntry.message() == "bad entry"@,
        Fault::BadTrailer.message() == "bad trailer"@,
{
}

/// Every ledger of tokens with an id of at least `n_vocab`, a window of `n_window` words and a
/// code of `n_code` values of -1, 0 or 1 arrives: with the same tokens, the same vocabulary,
/// window length and code dimension, and a next id past all that arrived.
pub proof fn every_token_arrives(l: LedgerView, rest: Seq<u8>)
    requires
        l.valid(),
        forall|k: u64| #[trigger]
            l.map.contains_key(k) ==> {
                &&& l.map[k].id >= l.cfg.n_vocab
                &&& l.map[k].pattern.len() == l.cfg.n_window
                &&& l.map[k].code.len() == l.cfg.n_code
                &&& forall|i: int|
                    0 <= i < l.map[k].code.len() ==> -1 <= #[trigger] l.map[k].code[i] <= 1
            },
    ensures
        layout::take_ledger(layout::ledger_bytes(l) + rest) matches Ok((arrived, end)) && {
            &&& end == rest
            &&& arrived.map == l.map
            &&& arrived.cfg.n_vocab == l.cfg.n_vocab
            &&& arrived.cfg.n_window == l.cfg.n_window
            &&& arrived.cfg.n_code == l.cfg.n_code
            &&& arrived.cfg.min_viability.bits == 0x3d4c_cccd
            &&& arrived.cfg.max_entries == 24_000
            &&& arrived.next_id >= l.cfg.n_vocab
            &&& forall|k: u64| #[trigger] l.map.contains_key(k) ==> l.map[k].id < arrived.next_id
            &&& arrived.next_id == l.cfg.n_vocab || exists|k: u64| #[trigger]
                l.map.contains_key(k) && arrived.next_id == l.map[k].id + 1
        },
{
    assert(l.all_minted()) by {
        assert forall|k: u64| #[trigger] l.map.contains_key(k) implies l.map[k].minted_form(
            l.cfg,
        ) by {}
    }
    sent_is_received(l, rest);
    received_is_equivalent(l);
    laws::entries_list_the_ledger(l);
    let r = received(l);
    assert forall|k: u64| #[trigger] l.map.contains_key(k) implies l.map[k].id < r.next_id by {
        assert(r.map.contains_key(k));
    }
    let ts = l.entries();
    if ts.len() > 0 {
        let t = ts[ts.len() - 1];
        assert(l.map.contains_pair(t.key(), t));
        assert(l.map.contains_key(t.key()));
    }
}

/// No ledger that arrives holds a token with an id below `n_vocab`, a window of another length
/// than `n_window`, a code of another length than `n_code`, or a value other than -1, 0 or 1.
pub proof fn what_arrives_is_well_formed(s: Seq<u8>, k: u64)
    ensures
        layout::take_ledger(s) matches Ok((l, _)) ==> l.map.contains_key(k) ==> {
            &&& l.map[k].id >= l.cfg.n_vocab
            &&& l.map[k].pattern.len() == l.cfg.n_window
            &&& l.map[k].code.len() == l.cfg.n_code
            &&& forall|i: int|
                0 <= i < l.map[k].code.len() ==> -1 <= #[trigger] l.map[k].code[i] <= 1
        },
{
    received_tokens_are_minted(s);
}

} // verus!
