//! The wire format, as a statement about bytes.
//!
//! Layout (little-endian; varint = unsigned LEB128):
//!   magic        u32  "TLDG" (0x4744_4C54)
//!   version      u8   = 1
//!   n_vocab      u32
//!   n_window     varint
//!   n_code       varint
//!   n_entries    varint
//!   per entry:
//!     id                varint
//!     frequency         varint
//!     viability         f32
//!     pattern_len       varint          (== n_window)
//!     pattern           u32 x pattern_len
//!     code_len          varint          (== n_code)
//!     code              u8 x code_len   (each value in {-1, 0, +1}, stored as a signed byte)
//!   trailer       u32  = 0x0000_4C44 ("DL\0\0") for integrity
//!
//! The functions named `.._bytes` say what is written. The functions named `take_..` say what
//! is read off the front of a byte string: the value and the rest, or what is wrong with it.
//! An entry that is not as the header says, or whose id is below `n_vocab`, is refused.

use vstd::prelude::*;

use crate::bytes;
use crate::ledger::LedgerConfig;
use crate::model::{LedgerView, TokenView};
use crate::text;
use crate::viability::Viability;
use crate::wire;

verus! {

/// What can be wrong with a byte string.
pub enum Fault {
    TruncatedU32,
    TruncatedU8,
    VarintTooLong,
    BadMagic,
    UnsupportedVersion(u8),
    BadEntry,
    BadTrailer,
}

impl Fault {
    /// How the fault is reported.
    pub open spec fn message(self) -> Seq<char> {
        match self {
            Fault::TruncatedU32 => "truncated u32"@,
            Fault::TruncatedU8 => "truncated u8"@,
            Fault::VarintTooLong => "varint too long"@,
            Fault::BadMagic => "bad magic"@,
            Fault::UnsupportedVersion(v) => "unsupported version "@ + text::decimal(v as nat),
            Fault::BadEntry => "bad entry"@,
            Fault::BadTrailer => "bad trailer"@,
        }
    }
}

/// What is read off the front of a byte string: a value and the rest, or a fault.
pub type Taken<T> = Result<(T, Seq<u8>), Fault>;

/// A code value as the signed byte that stands for it.
pub open spec fn value_byte(c: i8) -> u8 {
    if c >= 0 {
        c as u8
    } else {
        (c + 0x100) as u8
    }
}

/// The code value that a byte stands for.
pub open spec fn byte_value(b: u8) -> i8 {
    if b < 0x80 {
        b as i8
    } else {
        (b - 0x100) as i8
    }
}

/// A number in unsigned LEB128: groups of seven bits, the lowest first, and the high bit set
/// on every byte but the last.
pub open spec fn varint_bytes(v: nat) -> Seq<u8>
    decreases v,
{
    if v < 0x80 {
        seq![v as u8]
    } else {
        seq![(v % 0x80 + 0x80) as u8] + varint_bytes(v / 0x80)
    }
}

/// The values of a code, one byte each.
pub open spec fn code_bytes(code: Seq<i8>) -> Seq<u8> {
    code.map_values(|c: i8| value_byte(c))
}

/// A token as it is written.
pub open spec fn token_bytes(t: TokenView) -> Seq<u8> {
    varint_bytes(t.id as nat) + varint_bytes(t.frequency as nat) + bytes::le_bytes(t.viability.bits)
        + varint_bytes(t.pattern.len()) + bytes::window_bytes(t.pattern) + varint_bytes(
        t.code.len(),
    ) + code_bytes(t.code)
}

/// Tokens one after another.
pub open spec fn tokens_bytes(ts: Seq<TokenView>) -> Seq<u8>
    decreases ts.len(),
{
    if ts.len() == 0 {
        Seq::empty()
    } else {
        token_bytes(ts[0]) + tokens_bytes(ts.drop_first())
    }
}

/// What stands before the tokens.
pub open spec fn header_bytes(cfg: LedgerConfig, n_entries: nat) -> Seq<u8> {
    bytes::le_bytes(wire::MAGIC) + seq![wire::VERSION] + bytes::le_bytes(cfg.n_vocab)
        + varint_bytes(cfg.n_window as nat) + varint_bytes(cfg.n_code as nat) + varint_bytes(
        n_entries,
    )
}

/// A ledger as it is written: the header, the tokens by increasing id, the trailer.
pub open spec fn ledger_bytes(l: LedgerView) -> Seq<u8> {
    header_bytes(l.cfg, l.entries().len()) + tokens_bytes(l.entries()) + bytes::le_bytes(
        wire::TRAILER,
    )
}

/// Reads a byte.
pub open spec fn take_u8(s: Seq<u8>) -> Taken<u8> {
    if s.len() < 1 {
        Err(Fault::TruncatedU8)
    } else {
        Ok((s[0], s.skip(1)))
    }
}

/// Reads a word.
pub open spec fn take_u32(s: Seq<u8>) -> Taken<u32> {
    if s.len() < 4 {
        Err(Fault::TruncatedU32)
    } else {
        Ok((bytes::le_value(s[0], s[1], s[2], s[3]), s.skip(4)))
    }
}

/// Reads what is left of a LEB128 number after `done` of its bytes. A tenth byte must be the
/// last.
pub open spec fn take_leb128(s: Seq<u8>, done: nat) -> Taken<nat>
    decreases s.len(),
{
    if s.len() == 0 {
        Err(Fault::TruncatedU8)
    } else if s[0] < 0x80 {
        Ok((s[0] as nat, s.skip(1)))
    } else if done >= 9 {
        Err(Fault::VarintTooLong)
    } else {
        match take_leb128(s.skip(1), done + 1) {
            Ok((v, rest)) => Ok(((s[0] - 0x80 + 0x80 * v) as nat, rest)),
            Err(f) => Err(f),
        }
    }
}

/// Reads a number of at most 64 bits; bits above are dropped.
pub open spec fn take_varint(s: Seq<u8>) -> Taken<u64> {
    match take_leb128(s, 0) {
        Ok((v, rest)) => Ok(((v % 0x1_0000_0000_0000_0000) as u64, rest)),
        Err(f) => Err(f),
    }
}

/// The low 32 bits of a number.
pub open spec fn low_word(v: u64) -> u32 {
    (v % 0x1_0000_0000) as u32
}

/// Reads the words of a window.
pub open spec fn take_window(s: Seq<u8>, n: nat) -> Taken<Seq<u32>> {
    if s.len() < 4 * n {
        Err(Fault::TruncatedU32)
    } else {
        Ok(
            (
                Seq::new(
                    n,
                    |i: int| bytes::le_value(s[4 * i], s[4 * i + 1], s[4 * i + 2], s[4 * i + 3]),
                ),
                s.skip(4 * n as int),
            ),
        )
    }
}

/// Reads the values of a code.
pub open spec fn take_code(s: Seq<u8>, n: nat) -> Taken<Seq<i8>> {
    if s.len() < n {
        Err(Fault::TruncatedU8)
    } else {
        Ok((Seq::new(n, |i: int| byte_value(s[i])), s.skip(n as int)))
    }
}

/// Reads a count and then the window of that many words.
pub open spec fn take_counted_window(s: Seq<u8>) -> Taken<Seq<u32>> {
    match take_varint(s) {
        Ok((n, rest)) => take_window(rest, (n as usize) as nat),
        Err(f) => Err(f),
    }
}

/// Reads a count and then the code of that many values.
pub open spec fn take_counted_code(s: Seq<u8>) -> Taken<Seq<i8>> {
    match take_varint(s) {
        Ok((n, rest)) => take_code(rest, (n as usize) as nat),
        Err(f) => Err(f),
    }
}

/// Reads the fields of a token.
pub open spec fn take_fields(s: Seq<u8>) -> Taken<TokenView> {
    match take_varint(s) {
        Err(f) => Err(f),
        Ok((id, s)) => match take_varint(s) {
            Err(f) => Err(f),
            Ok((frequency, s)) => match take_u32(s) {
                Err(f) => Err(f),
                Ok((bits, s)) => match take_counted_window(s) {
                    Err(f) => Err(f),
                    Ok((pattern, s)) => match take_counted_code(s) {
                        Err(f) => Err(f),
                        Ok((code, s)) => Ok(
                            (
                                TokenView {
                                    id: low_word(id),
                                    pattern,
                                    code,
                                    frequency: low_word(frequency),
                                    viability: Viability { bits },
                                },
                                s,
                            ),
                        ),
                    },
                },
            },
        },
    }
}

/// Reads a token, which must be as minted tokens are under the configuration.
pub open spec fn take_token(s: Seq<u8>, cfg: LedgerConfig) -> Taken<TokenView> {
    match take_fields(s) {
        Err(f) => Err(f),
        Ok((t, rest)) => if t.minted_form(cfg) {
            Ok((t, rest))
        } else {
            Err(Fault::BadEntry)
        },
    }
}

/// Reads a token that comes by itself, with an id of the sender's choice. Its window and its
/// code must be as the configuration asks for.
pub open spec fn take_entry(s: Seq<u8>, cfg: LedgerConfig) -> Taken<TokenView> {
    match take_fields(s) {
        Err(f) => Err(f),
        Ok((t, rest)) => if t.fits(cfg) {
            Ok((t, rest))
        } else {
            Err(Fault::BadEntry)
        },
    }
}

/// Reads tokens one after another.
pub open spec fn take_tokens(s: Seq<u8>, n: nat, cfg: LedgerConfig) -> Taken<Seq<TokenView>>
    decreases n,
{
    if n == 0 {
        Ok((Seq::empty(), s))
    } else {
        match take_token(s, cfg) {
            Err(f) => Err(f),
            Ok((t, rest)) => match take_tokens(rest, (n - 1) as nat, cfg) {
                Err(f) => Err(f),
                Ok((ts, rest)) => Ok((seq![t] + ts, rest)),
            },
        }
    }
}

/// Reads the magic word and the version, and returns the version.
pub open spec fn take_preamble(s: Seq<u8>) -> Taken<u8> {
    match take_u32(s) {
        Err(f) => Err(f),
        Ok((magic, s)) => if magic != wire::MAGIC {
            Err(Fault::BadMagic)
        } else {
            match take_u8(s) {
                Err(f) => Err(f),
                Ok((version, s)) => if version != wire::VERSION {
                    Err(Fault::UnsupportedVersion(version))
                } else {
                    Ok((version, s))
                },
            }
        },
    }
}

/// The configuration of a ledger that was received: what does not travel has its default.
pub open spec fn received_config(n_vocab: u32, n_window: usize, n_code: usize) -> LedgerConfig {
    LedgerConfig { n_vocab, n_window, n_code, ..LedgerConfig::spec_default() }
}

/// Reads the header: the configuration and the number of tokens.
pub open spec fn take_header(s: Seq<u8>) -> Taken<(LedgerConfig, nat)> {
    match take_preamble(s) {
        Err(f) => Err(f),
        Ok((_, s)) => match take_u32(s) {
            Err(f) => Err(f),
            Ok((n_vocab, s)) => match take_varint(s) {
                Err(f) => Err(f),
                Ok((n_window, s)) => match take_varint(s) {
                    Err(f) => Err(f),
                    Ok((n_code, s)) => match take_varint(s) {
                        Err(f) => Err(f),
                        Ok((n_entries, s)) => Ok(
                            (
                                (
                                    received_config(n_vocab, n_window as usize, n_code as usize),
                                    (n_entries as usize) as nat,
                                ),
                                s,
                            ),
                        ),
                    },
                },
            },
        },
    }
}

/// Reads a ledger. The tokens are put in one after another, in the order in which they come.
pub open spec fn take_ledger(s: Seq<u8>) -> Taken<LedgerView> {
    match take_header(s) {
        Err(f) => Err(f),
        Ok(((cfg, n), s)) => match take_tokens(s, n, cfg) {
            Err(f) => Err(f),
            Ok((ts, s)) => match take_u32(s) {
                Err(f) => Err(f),
                Ok((trailer, s)) => if trailer != wire::TRAILER {
                    Err(Fault::BadTrailer)
                } else {
                    Ok((LedgerView::empty(cfg).add_all(ts), s))
                },
            },
        },
    }
}

} // verus!
