//! Send and receive the current ledger.
//!
//! The layout is stated in [`crate::layout`].

use vstd::arithmetic::power2;
use vstd::prelude::*;
use vstd::string::StringExecFns;

use crate::bytes;
use crate::laws;
use crate::layout;
use crate::layout::Fault;
use crate::ledger::{GeneratedToken, Ledger, LedgerConfig, TernaryCode};
use crate::model::{LedgerView, TokenView};
use crate::text;
use crate::transport;
use crate::viability::Viability;

verus! {

pub const MAGIC: u32 = 0x4744_4C54;  // "TLDG"

pub const VERSION: u8 = 1;

pub const TRAILER: u32 = 0x0000_4C44;

/// Why a byte string is no ledger.
#[derive(Debug)]
pub struct WireError(pub String);

impl WireError {
    /// The error that reports a fault.
    fn from_fault(f: Fault) -> (r: WireError)
        ensures
            r.0@ == f.message(),
    {
        match f {
            Fault::TruncatedU32 => WireError("truncated u32".to_owned()),
            Fault::TruncatedU8 => WireError("truncated u8".to_owned()),
            Fault::VarintTooLong => WireError("varint too long".to_owned()),
            Fault::BadMagic => WireError("bad magic".to_owned()),
            Fault::UnsupportedVersion(version) => {
                let mut text: String = "unsupported version ".to_owned();
                text::append_decimal(&mut text, version as usize);
                WireError(text)
            },
            Fault::BadEntry => WireError("bad entry".to_owned()),
            Fault::BadTrailer => WireError("bad trailer".to_owned()),
        }
    }

    /// The error as a line of text.
    pub fn to_string(&self) -> (r: String)
        ensures
            r@ == "wire: "@ + self.0@,
    {
        let mut text: String = "wire: ".to_owned();
        text.append(self.0.as_str());
        text
    }
}

// Encoding.

/// Writes a word, least significant byte first.
pub fn put_u32(out: &mut Vec<u8>, v: u32)
    ensures
        final(out)@ == old(out)@ + bytes::le_bytes(v),
{
    let b: [u8; 4] = bytes::u32_to_le(v);
    out.push(b[0]);
    out.push(b[1]);
    out.push(b[2]);
    out.push(b[3]);
    assert(out@ =~= old(out)@ + b@);
}

/// Writes a viability by its bit pattern.
pub fn put_viability(out: &mut Vec<u8>, v: &Viability)
    ensures
        final(out)@ == old(out)@ + bytes::le_bytes(v.bits),
{
    put_u32(out, v.to_bits());
}

/// Writes a number in unsigned LEB128.
pub fn put_varint(out: &mut Vec<u8>, v: u64)
    ensures
        final(out)@ == old(out)@ + layout::varint_bytes(v as nat),
{
    let ghost start = out@;
    let mut v: u64 = v;
    let ghost whole = layout::varint_bytes(v as nat);
    while v >= 0x80
        invariant
            start + whole == out@ + layout::varint_bytes(v as nat),
        decreases v,
    {
        let byte: u8 = (v & 0x7f) as u8 | 0x80;
        assert((v & 0x7f) as u8 | 0x80 == (v % 0x80 + 0x80) as u8) by (bit_vector);
        assert(v >> 7 == v / 0x80) by (bit_vector);
        let ghost rest = layout::varint_bytes((v / 0x80) as nat);
        assert(out@ + (seq![byte] + rest) =~= out@.push(byte) + rest);
        out.push(byte);
        v = v >> 7;
    }
    assert(out@ + seq![v as u8] =~= out@.push(v as u8));
    out.push(v as u8);
}

/// Writes the words of a window.
fn put_window(out: &mut Vec<u8>, window: &Vec<u32>)
    ensures
        final(out)@ == old(out)@ + bytes::window_bytes(window@),
{
    let ghost start = out@;
    let mut i: usize = 0;
    assert(start + bytes::window_bytes(window@.take(0)) =~= start);
    while i < window.len()
        invariant
            i <= window@.len(),
            out@ == start + bytes::window_bytes(window@.take(i as int)),
        decreases window@.len() - i,
    {
        let ghost next = window@.take(i + 1);
        assert(next.drop_last() =~= window@.take(i as int));
        put_u32(out, window[i]);
        assert(out@ =~= start + bytes::window_bytes(next));
        i = i + 1;
    }
    assert(window@.take(i as int) =~= window@);
}

/// Writes the values of a code, each as a signed byte.
fn put_code(out: &mut Vec<u8>, code: &Vec<i8>)
    ensures
        final(out)@ == old(out)@ + layout::code_bytes(code@),
{
    let ghost start = out@;
    let mut i: usize = 0;
    while i < code.len()
        invariant
            i <= code@.len(),
            out@ =~= start + layout::code_bytes(code@).take(i as int),
        decreases code@.len() - i,
    {
        let c: i8 = code[i];
        assert(c as u8 == if c >= 0 { c as int } else { c + 0x100 }) by (bit_vector);
        out.push(c as u8);
        i = i + 1;
    }
    assert(layout::code_bytes(code@).take(i as int) =~= layout::code_bytes(code@));
}

/// Writes a token.
fn put_token(out: &mut Vec<u8>, t: &GeneratedToken)
    ensures
        final(out)@ == old(out)@ + layout::token_bytes(t@),
{
    put_varint(out, t.id as u64);
    put_varint(out, t.frequency as u64);
    put_viability(out, &t.viability);
    put_varint(out, t.pattern.len() as u64);
    put_window(out, &t.pattern);
    put_varint(out, t.code.v.len() as u64);
    put_code(out, &t.code.v);
    assert(out@ =~= old(out)@ + layout::token_bytes(t@));
}

/// Serialize the full ledger (configuration and entries) into the binary wire format.
pub fn encode(ledger: &Ledger) -> (r: Vec<u8>)
    requires
        ledger.wf(),
    ensures
        r@ == layout::ledger_bytes(ledger@),
{
    let cfg = ledger.config();
    let mut out: Vec<u8> = Vec::new();
    put_u32(&mut out, MAGIC);
    out.push(VERSION);
    put_u32(&mut out, cfg.n_vocab);
    put_varint(&mut out, cfg.n_window as u64);
    put_varint(&mut out, cfg.n_code as u64);
    let entries = ledger.entries();
    let ghost listed = ledger@.entries();
    put_varint(&mut out, entries.len() as u64);
    let ghost header = layout::header_bytes(ledger@.cfg, listed.len());
    assert(out@ =~= header);
    let mut i: usize = 0;
    assert(header + layout::tokens_bytes(listed.take(0)) =~= header);
    while i < entries.len()
        invariant
            i <= entries@.len(),
            listed == crate::ledger::contents(entries@),
            out@ == header + layout::tokens_bytes(listed.take(i as int)),
        decreases entries@.len() - i,
    {
        put_token(&mut out, &entries[i]);
        proof {
            transport::lemma_tokens_bytes_push(listed.take(i as int), listed[i as int]);
            assert(listed.take(i + 1) =~= listed.take(i as int).push(listed[i as int]));
        }
        assert(out@ =~= header + layout::tokens_bytes(listed.take(i + 1)));
        i = i + 1;
    }
    assert(listed.take(i as int) =~= listed);
    put_u32(&mut out, TRAILER);
    out
}

// Decoding.

/// A reading position in a byte string.
pub struct Reader<'a> {
    pub b: &'a [u8],
    pub pos: usize,
}

/// Whether a reader did what the layout says: it returned the value and stands before the
/// rest, or it returned the fault.
pub open spec fn took<T>(taken: layout::Taken<T>, r: Result<T, Fault>, rest: Seq<u8>) -> bool {
    match taken {
        Ok((v, s)) => r == Ok::<T, Fault>(v) && rest == s,
        Err(f) => r == Err::<T, Fault>(f),
    }
}

/// A LEB128 number of which the low part is known: `low`, and the rest counts `scale` each.
spec fn above(low: nat, scale: nat, taken: layout::Taken<nat>) -> layout::Taken<nat> {
    match taken {
        Ok((v, rest)) => Ok((low + scale * v, rest)),
        Err(f) => Err(f),
    }
}

/// One group of seven bits is put in above the bits below `shift`.
proof fn lemma_group(low: u64, group: u64, shift: u64)
    requires
        shift <= 56,
        low < power2::pow2(shift as nat),
        group < 0x80,
    ensures
        low | (group << shift) == low + power2::pow2(shift as nat) * group,
        low + power2::pow2(shift as nat) * group < power2::pow2((shift + 7) as nat) <= 0x8000_0000_0000_0000,
        power2::pow2((shift + 7) as nat) == 0x80 * power2::pow2(shift as nat),
{
    power2::lemma2_to64();
    power2::lemma2_to64_rest();
    power2::lemma_pow2_adds(shift as nat, 7);
    let scale = power2::pow2(shift as nat);
    if shift < 56 {
        power2::lemma_pow2_strictly_increases(shift as nat, 56);
    }
    assert(scale * group <= scale * 0x7f) by (nonlinear_arith)
        requires
            group < 0x80,
            scale >= 0,
    ;
    assert(group * scale == scale * group) by (nonlinear_arith);
    vstd::bits::lemma_u64_shl_is_mul(group, shift);
    vstd::bits::lemma_u64_shl_is_mul(1, shift);
    assert(low | (group << shift) == low + (group << shift)) by (bit_vector)
        requires
            shift <= 56,
            low < (1u64 << shift),
            group < 0x80,
    ;
}

impl<'a> Reader<'a> {
    /// What is still to be read.
    pub open spec fn rest(&self) -> Seq<u8> {
        self.b@.skip(self.pos as int)
    }

    /// The position is within the bytes.
    pub open spec fn wf(&self) -> bool {
        self.pos <= self.b@.len()
    }

    /// Reads a word. Where the bytes end before it, the position stays.
    pub fn u32(&mut self) -> (r: Result<u32, Fault>)
        requires
            old(self).wf(),
        ensures
            final(self).wf(),
            final(self).b == old(self).b,
            took(layout::take_u32(old(self).rest()), r, final(self).rest()),
            r is Err ==> *final(self) == *old(self),
    {
        if self.b.len() - self.pos < 4 {
            return Err(Fault::TruncatedU32);
        }
        let v: u32 = bytes::u32_from_le(
            self.b[self.pos],
            self.b[self.pos + 1],
            self.b[self.pos + 2],
            self.b[self.pos + 3],
        );
        self.pos = self.pos + 4;
        assert(self.rest() =~= old(self).rest().skip(4));
        Ok(v)
    }

    /// Reads a byte. Where the bytes end before it, the position stays.
    pub fn u8(&mut self) -> (r: Result<u8, Fault>)
        requires
            old(self).wf(),
        ensures
            final(self).wf(),
            final(self).b == old(self).b,
            took(layout::take_u8(old(self).rest()), r, final(self).rest()),
            r is Err ==> *final(self) == *old(self),
    {
        if self.pos >= self.b.len() {
            return Err(Fault::TruncatedU8);
        }
        let v: u8 = self.b[self.pos];
        self.pos = self.pos + 1;
        assert(self.rest() =~= old(self).rest().skip(1));
        Ok(v)
    }

    /// Reads a number in unsigned LEB128.
    pub fn varint(&mut self) -> (r: Result<u64, Fault>)
        requires
            old(self).wf(),
        ensures
            final(self).wf(),
            final(self).b == old(self).b,
            took(layout::take_varint(old(self).rest()), r, final(self).rest()),
    {
        let ghost start = self.rest();
        let ghost whole = layout::take_leb128(start, 0);
        let mut result: u64 = 0;
        let mut shift: u64 = 0;
        let ghost mut done: nat = 0;
        proof {
            power2::lemma2_to64();
            assert(whole == above(0, 1, whole));
        }
        loop
            invariant
                self.wf(),
                self.b == old(self).b,
                whole == layout::take_leb128(start, 0),
                start == old(self).rest(),
                done <= 9,
                shift == 7 * done,
                result < power2::pow2(shift as nat),
                whole == above(result as nat, power2::pow2(shift as nat), layout::take_leb128(self.rest(), done)),
            decreases 10 - done,
        {
            let ghost here = self.rest();
            let b: u8 = match self.u8() {
                Ok(b) => b,
                Err(f) => {
                    return Err(f);
                },
            };
            let ghost low = result as nat;
            let ghost scale = power2::pow2(shift as nat);
            let group: u64 = (b & 0x7f) as u64;
            assert((b & 0x7f) as u64 == (b % 0x80) as u64) by (bit_vector);
            assert(b & 0x80 == 0 <==> b < 0x80) by (bit_vector);
            result = result | (group << shift);
            proof {
                if shift <= 56 {
                    lemma_group(low as u64, group, shift);
                } else {
                    power2::lemma2_to64_rest();
                    let l = low as u64;
                    assert(l | (group << 63u64) == l + (group % 2) * 0x8000_0000_0000_0000) by (bit_vector)
                        requires
                            l < 0x8000_0000_0000_0000,
                    ;
                }
            }
            if b & 0x80 == 0 {
                proof {
                    assert(layout::take_leb128(here, done) == Ok::<(nat, Seq<u8>), Fault>((b as nat, self.rest())));
                    let value = low + scale * (b as nat);
                    if shift == 63 {
                        assert(scale == 0x8000_0000_0000_0000);
                        assert(value == low + 0x8000_0000_0000_0000 * (b as nat));
                    }
                    assert(value % 0x1_0000_0000_0000_0000 == result);
                }
                return Ok(result);
            }
            shift = shift + 7;
            if shift > 63 {
                return Err(Fault::VarintTooLong);
            }
            proof {
                let after = layout::take_leb128(self.rest(), done + 1);
                if let Ok((v, _)) = after {
                    assert(low + scale * (b - 0x80 + 0x80 * v) == (low + scale * (b - 0x80)) + (
                    0x80 * scale) * v) by (nonlinear_arith);
                }
                done = done + 1;
            }
        }
    }

    /// Reads a viability by its bit pattern.
    pub fn viability(&mut self) -> (r: Result<Viability, Fault>)
        requires
            old(self).wf(),
        ensures
            final(self).wf(),
            final(self).b == old(self).b,
            match layout::take_u32(old(self).rest()) {
                Ok((bits, rest)) => r == Ok::<Viability, Fault>(Viability { bits }) && final(self).rest()
                    == rest,
                Err(f) => r == Err::<Viability, Fault>(f),
            },
            r is Err ==> *final(self) == *old(self),
    {
        Ok(Viability::from_bits(self.u32()?))
    }

    /// Reads a count and then the window of that many words.
    fn window(&mut self) -> (r: Result<Vec<u32>, Fault>)
        requires
            old(self).wf(),
        ensures
            final(self).wf(),
            final(self).b == old(self).b,
            match layout::take_counted_window(old(self).rest()) {
                Ok((w, rest)) => r is Ok && r->Ok_0@ == w && final(self).rest() == rest,
                Err(f) => r == Err::<Vec<u32>, Fault>(f),
            },
    {
        let n: usize = self.varint()? as usize;
        let ghost start = self.rest();
        let mut window: Vec<u32> = Vec::new();
        let mut i: usize = 0;
        assert(start.skip(0) =~= start);
        while i < n
            invariant
                self.wf(),
                self.b == old(self).b,
                i <= n,
                4 * i <= start.len(),
                self.rest() == start.skip(4 * i as int),
                window@.len() == i,
                layout::take_counted_window(old(self).rest()) == layout::take_window(start, n as nat),
                forall|j: int|
                    0 <= j < i ==> #[trigger] window@[j] == bytes::le_value(
                        start[4 * j],
                        start[4 * j + 1],
                        start[4 * j + 2],
                        start[4 * j + 3],
                    ),
            decreases n - i,
        {
            let word: u32 = self.u32()?;
            window.push(word);
            i = i + 1;
            assert(self.rest() =~= start.skip(4 * i as int));
        }
        proof {
            if let Ok((w, _)) = layout::take_window(start, n as nat) {
                assert(window@ =~= w);
            }
        }
        Ok(window)
    }

    /// Reads a count and then the code of that many values.
    fn code(&mut self) -> (r: Result<Vec<i8>, Fault>)
        requires
            old(self).wf(),
        ensures
            final(self).wf(),
            final(self).b == old(self).b,
            match layout::take_counted_code(old(self).rest()) {
                Ok((c, rest)) => r is Ok && r->Ok_0@ == c && final(self).rest() == rest,
                Err(f) => r == Err::<Vec<i8>, Fault>(f),
            },
    {
        let n: usize = self.varint()? as usize;
        let ghost start = self.rest();
        let mut code: Vec<i8> = Vec::new();
        let mut i: usize = 0;
        assert(start.skip(0) =~= start);
        while i < n
            invariant
                self.wf(),
                self.b == old(self).b,
                i <= n,
                i <= start.len(),
                self.rest() == start.skip(i as int),
                code@.len() == i,
                layout::take_counted_code(old(self).rest()) == layout::take_code(start, n as nat),
                forall|j: int| 0 <= j < i ==> #[trigger] code@[j] == layout::byte_value(start[j]),
            decreases n - i,
        {
            let b: u8 = self.u8()?;
            assert(b as i8 == if b < 0x80 { b as int } else { b - 0x100 }) by (bit_vector);
            code.push(b as i8);
            i = i + 1;
            assert(self.rest() =~= start.skip(i as int));
        }
        proof {
            if let Ok((c, _)) = layout::take_code(start, n as nat) {
                assert(code@ =~= c);
            }
        }
        Ok(code)
    }

    /// Reads the fields of a token.
    fn fields(&mut self) -> (r: Result<GeneratedToken, Fault>)
        requires
            old(self).wf(),
        ensures
            final(self).wf(),
            final(self).b == old(self).b,
            match layout::take_fields(old(self).rest()) {
                Ok((t, rest)) => r is Ok && r->Ok_0@ == t && final(self).rest() == rest,
                Err(f) => r == Err::<GeneratedToken, Fault>(f),
            },
    {
        let id: u64 = self.varint()?;
        let frequency: u64 = self.varint()?;
        let viability = self.viability()?;
        let pattern = self.window()?;
        let values = self.code()?;
        assert(id as u32 == (id % 0x1_0000_0000) as u32) by (bit_vector);
        assert(frequency as u32 == (frequency % 0x1_0000_0000) as u32) by (bit_vector);
        Ok(
            GeneratedToken {
                id: id as u32,
                pattern,
                code: TernaryCode::new(values),
                frequency: frequency as u32,
                viability,
            },
        )
    }

    /// Reads a token, which must be as minted tokens are under the configuration.
    fn token(&mut self, cfg: &LedgerConfig) -> (r: Result<GeneratedToken, Fault>)
        requires
            old(self).wf(),
        ensures
            final(self).wf(),
            final(self).b == old(self).b,
            match layout::take_token(old(self).rest(), *cfg) {
                Ok((t, rest)) => r is Ok && r->Ok_0@ == t && final(self).rest() == rest,
                Err(f) => r == Err::<GeneratedToken, Fault>(f),
            },
    {
        let tok = self.fields()?;
        if !tok.has_minted_form(cfg) {
            return Err(Fault::BadEntry);
        }
        Ok(tok)
    }
}

/// The tokens already read, and then those that are taken next.
spec fn behind(done: Seq<TokenView>, taken: layout::Taken<Seq<TokenView>>) -> layout::Taken<
    Seq<TokenView>,
> {
    match taken {
        Ok((ts, rest)) => Ok((done + ts, rest)),
        Err(f) => Err(f),
    }
}

/// Reads a ledger off the front of a byte string.
fn read_ledger(bytes: &[u8]) -> (r: Result<Ledger, Fault>)
    ensures
        match layout::take_ledger(bytes@) {
            Ok((l, _)) => r is Ok && r->Ok_0.wf() && r->Ok_0@ == l,
            Err(f) => r == Err::<Ledger, Fault>(f),
        },
        r is Ok ==> r->Ok_0@.all_minted(),
{
    let mut r = Reader { b: bytes, pos: 0 };
    assert(r.rest() =~= bytes@);
    if r.u32()? != MAGIC {
        return Err(Fault::BadMagic);
    }
    let version: u8 = r.u8()?;
    if version != VERSION {
        return Err(Fault::UnsupportedVersion(version));
    }
    let n_vocab: u32 = r.u32()?;
    let n_window: usize = r.varint()? as usize;
    let n_code: usize = r.varint()? as usize;
    let n_entries: usize = r.varint()? as usize;
    let mut ledger = Ledger::new(
        LedgerConfig { n_vocab, n_window, n_code, ..LedgerConfig::default() },
    );
    let ghost cfg = layout::received_config(n_vocab, n_window, n_code);
    let ghost start = r.rest();
    let ghost whole = layout::take_tokens(start, n_entries as nat, cfg);
    let ghost mut done: Seq<TokenView> = Seq::empty();
    proof {
        if let Ok((ts, _)) = whole {
            assert(done + ts =~= ts);
        }
    }
    let mut i: usize = 0;
    while i < n_entries
        invariant
            r.wf(),
            ledger.wf(),
            i <= n_entries,
            layout::take_header(bytes@) == Ok::<((LedgerConfig, nat), Seq<u8>), Fault>(
                ((cfg, n_entries as nat), start),
            ),
            whole == layout::take_tokens(start, n_entries as nat, cfg),
            whole == behind(done, layout::take_tokens(r.rest(), (n_entries - i) as nat, cfg)),
            ledger@.cfg == cfg,
            ledger@.all_minted(),
            ledger@ == LedgerView::empty(cfg).add_all(done),
        decreases n_entries - i,
    {
        let tok = r.token(ledger.config())?;
        proof {
            let t = tok@;
            laws::adding_keeps_minted_form(ledger@, t);
            let after = layout::take_tokens(r.rest(), (n_entries - i - 1) as nat, cfg);
            if let Ok((ts, _)) = after {
                assert(done + (seq![t] + ts) =~= done.push(t) + ts);
            }
            assert(done.push(t).drop_last() =~= done);
            done = done.push(t);
        }
        ledger.add_raw(tok);
        i = i + 1;
    }
    assert(done + Seq::<TokenView>::empty() =~= done);
    if r.u32()? != TRAILER {
        return Err(Fault::BadTrailer);
    }
    Ok(ledger)
}

/// Decode a wire-format ledger back into a [`Ledger`]. An entry that is not as minted tokens
/// are under the header's configuration is refused. What follows the trailer is not read.
pub fn decode(bytes: &[u8]) -> (r: Result<Ledger, WireError>)
    ensures
        match layout::take_ledger(bytes@) {
            Ok((l, _)) => r is Ok && r->Ok_0.wf() && r->Ok_0@ == l,
            Err(f) => r is Err && r->Err_0.0@ == f.message(),
        },
        r is Ok ==> r->Ok_0@.all_minted(),
{
    match read_ledger(bytes) {
        Ok(ledger) => Ok(ledger),
        Err(f) => Err(WireError::from_fault(f)),
    }
}

/// Reads an entry off the front of a byte string.
fn read_entry(bytes: &[u8], cfg: &LedgerConfig) -> (r: Result<GeneratedToken, Fault>)
    ensures
        match layout::take_entry(bytes@, *cfg) {
            Ok((t, _)) => r is Ok && r->Ok_0@ == t,
            Err(f) => r == Err::<GeneratedToken, Fault>(f),
        },
{
    let mut r = Reader { b: bytes, pos: 0 };
    assert(r.rest() =~= bytes@);
    let tok = r.fields()?;
    if !tok.fits(cfg) {
        return Err(Fault::BadEntry);
    }
    Ok(tok)
}

/// Decode one entry in the layout that entries have in a ledger. Its window and its code must
/// be as the configuration asks for; its id may be any. What follows the entry is not read.
pub fn decode_entry(bytes: &[u8], cfg: &LedgerConfig) -> (r: Result<GeneratedToken, WireError>)
    ensures
        match layout::take_entry(bytes@, *cfg) {
            Ok((t, _)) => r is Ok && r->Ok_0@ == t,
            Err(f) => r is Err && r->Err_0.0@ == f.message(),
        },
{
    match read_entry(bytes, cfg) {
        Ok(tok) => Ok(tok),
        Err(f) => Err(WireError::from_fault(f)),
    }
}

} // verus!
