//! Little-endian words and the hash that keys a window.

use vstd::prelude::*;

verus! {

/// Start value of the 64-bit FNV-1a hash.
pub const FNV_OFFSET: u64 = 0xcbf2_9ce4_8422_2325;

/// Multiplier of the 64-bit FNV-1a hash.
pub const FNV_PRIME: u64 = 0x0000_0100_0000_01b3;

/// The four bytes of a word, least significant first.
pub open spec fn le_bytes(v: u32) -> Seq<u8> {
    seq![
        (v % 0x100) as u8,
        (v / 0x100 % 0x100) as u8,
        (v / 0x1_0000 % 0x100) as u8,
        (v / 0x100_0000) as u8,
    ]
}

/// The word whose bytes, least significant first, are the four given.
pub open spec fn le_value(b0: u8, b1: u8, b2: u8, b3: u8) -> u32 {
    (b0 + 0x100 * b1 + 0x1_0000 * b2 + 0x100_0000 * b3) as u32
}

/// The words of a window one after another, each least significant byte first.
pub open spec fn window_bytes(window: Seq<u32>) -> Seq<u8>
    decreases window.len(),
{
    if window.len() == 0 {
        Seq::empty()
    } else {
        window_bytes(window.drop_last()) + le_bytes(window.last())
    }
}

/// One round of FNV-1a: mix in a byte, then multiply, modulo 2^64.
pub open spec fn fnv_step(h: u64, b: u8) -> u64 {
    (h ^ (b as u64)).wrapping_mul(FNV_PRIME)
}

/// The 64-bit FNV-1a hash of a byte string.
pub open spec fn fnv1a(bytes: Seq<u8>) -> u64
    decreases bytes.len(),
{
    if bytes.len() == 0 {
        FNV_OFFSET
    } else {
        fnv_step(fnv1a(bytes.drop_last()), bytes.last())
    }
}

/// The key of a window: the FNV-1a hash of its words in little-endian order.
pub open spec fn window_key(window: Seq<u32>) -> u64 {
    fnv1a(window_bytes(window))
}

/// A word read back from its four bytes is the word.
pub proof fn lemma_le_round_trip(v: u32)
    ensures
        le_bytes(v).len() == 4,
        le_value(le_bytes(v)[0], le_bytes(v)[1], le_bytes(v)[2], le_bytes(v)[3]) == v,
{
    let a: int = v as int;
    assert(a == a % 0x100 + 0x100 * (a / 0x100 % 0x100) + 0x1_0000 * (a / 0x1_0000 % 0x100)
        + 0x100_0000 * (a / 0x100_0000));
}

/// The bytes of a window: four for each word, and the i-th word is found at 4 * i.
pub proof fn lemma_window_bytes(window: Seq<u32>)
    ensures
        window_bytes(window).len() == 4 * window.len(),
        forall|i: int| #![trigger window[i]]
            0 <= i < window.len() ==> {
                let b = window_bytes(window);
                le_value(b[4 * i], b[4 * i + 1], b[4 * i + 2], b[4 * i + 3]) == window[i]
            },
    decreases window.len(),
{
    if window.len() > 0 {
        let front = window.drop_last();
        lemma_window_bytes(front);
        lemma_le_round_trip(window.last());
        let b = window_bytes(window);
        assert forall|i: int| #![trigger window[i]] 0 <= i < window.len() implies le_value(
            b[4 * i],
            b[4 * i + 1],
            b[4 * i + 2],
            b[4 * i + 3],
        ) == window[i] by {
            if i < front.len() {
                assert(front[i] == window[i]);
            }
        }
    }
}

/// The four bytes of a word, least significant first.
pub fn u32_to_le(v: u32) -> (r: [u8; 4])
    ensures
        r@ == le_bytes(v),
{
    [
        (v % 0x100) as u8,
        (v / 0x100 % 0x100) as u8,
        (v / 0x1_0000 % 0x100) as u8,
        (v / 0x100_0000) as u8,
    ]
}

/// The word whose bytes, least significant first, are the four given.
pub fn u32_from_le(b0: u8, b1: u8, b2: u8, b3: u8) -> (r: u32)
    ensures
        r == le_value(b0, b1, b2, b3),
{
    b0 as u32 + 0x100 * (b1 as u32) + 0x1_0000 * (b2 as u32) + 0x100_0000 * (b3 as u32)
}

/// FNV-1a hash used to key a window pattern without a string dependency.
pub fn pattern_hash(pattern: &[u32]) -> (r: u64)
    ensures
        r == window_key(pattern@),
{
    let mut h: u64 = FNV_OFFSET;
    let mut i: usize = 0;
    while i < pattern.len()
        invariant
            i <= pattern@.len(),
            h == fnv1a(window_bytes(pattern@.take(i as int))),
        decreases pattern@.len() - i,
    {
        let ghost done = window_bytes(pattern@.take(i as int));
        let bytes: [u8; 4] = u32_to_le(pattern[i]);
        let mut j: usize = 0;
        assert(done + bytes@.take(0) =~= done);
        while j < 4
            invariant
                j <= 4,
                h == fnv1a(done + bytes@.take(j as int)),
            decreases 4 - j,
        {
            let b: u8 = bytes[j];
            let ghost next = done + bytes@.take(j + 1);
            assert(next.drop_last() =~= done + bytes@.take(j as int));
            assert(next.last() == b);
            h = (h ^ (b as u64)).wrapping_mul(FNV_PRIME);
            j = j + 1;
        }
        assert(bytes@.take(4) =~= bytes@);
        assert(pattern@.take(i + 1).drop_last() =~= pattern@.take(i as int));
        i = i + 1;
    }
    assert(pattern@.take(i as int) =~= pattern@);
    h
}

/// A word is the sum of its bytes, each of which counts 256 times as much as the one before.
pub proof fn word_is_the_sum_of_its_bytes(v: u32)
    ensures
        le_bytes(v).len() == 4,
        v == le_bytes(v)[0] + 256 * le_bytes(v)[1] + 65_536 * le_bytes(v)[2] + 16_777_216
            * le_bytes(v)[3],
{
    lemma_le_round_trip(v);
    let b = le_bytes(v);
    let a: int = v as int;
    assert(a == a % 0x100 + 0x100 * (a / 0x100 % 0x100) + 0x1_0000 * (a / 0x1_0000 % 0x100)
        + 0x100_0000 * (a / 0x100_0000));
}

/// Four bytes make the word in which each counts 256 times as much as the one before.
pub proof fn bytes_make_a_word(b0: u8, b1: u8, b2: u8, b3: u8)
    ensures
        le_value(b0, b1, b2, b3) == b0 + 256 * b1 + 65_536 * b2 + 16_777_216 * b3,
{
}

/// The bytes of a window are those of its words, in order.
pub proof fn window_is_its_words(w: Seq<u32>, x: u32)
    ensures
        window_bytes(Seq::<u32>::empty()) == Seq::<u8>::empty(),
        window_bytes(w.push(x)) == window_bytes(w) + le_bytes(x),
{
    assert(w.push(x).drop_last() =~= w);
}

/// The key of a longer window comes from that of the shorter one in four rounds of 64-bit
/// FNV-1a, one for each byte of the last word, the least significant first: exclusive or with
/// the byte, then multiplication by the FNV prime modulo 2^64. Without words, the key is the
/// FNV offset.
pub proof fn key_is_fnv1a(w: Seq<u32>, x: u32)
    ensures
        window_key(Seq::<u32>::empty()) == 0xcbf2_9ce4_8422_2325u64,
        ({
            let h1 = (window_key(w) ^ ((x % 256) as u64)) * 0x100_0000_01b3 % 0x1_0000_0000_0000_0000;
            let h2 = ((h1 as u64) ^ ((x / 256 % 256) as u64)) * 0x100_0000_01b3
                % 0x1_0000_0000_0000_0000;
            let h3 = ((h2 as u64) ^ ((x / 65_536 % 256) as u64)) * 0x100_0000_01b3
                % 0x1_0000_0000_0000_0000;
            let h4 = ((h3 as u64) ^ ((x / 16_777_216) as u64)) * 0x100_0000_01b3
                % 0x1_0000_0000_0000_0000;
            window_key(w.push(x)) == h4
        }),
{
    let before = window_bytes(w);
    let b = le_bytes(x);
    window_is_its_words(w, x);
    let s1 = before.push(b[0]);
    let s2 = s1.push(b[1]);
    let s3 = s2.push(b[2]);
    let s4 = s3.push(b[3]);
    assert(s4 =~= before + b);
    assert(s1.drop_last() =~= before);
    assert(s2.drop_last() =~= s1);
    assert(s3.drop_last() =~= s2);
    assert(s4.drop_last() =~= s3);
    assert(fnv1a(s1) == fnv_step(fnv1a(before), b[0]));
    assert(fnv1a(s2) == fnv_step(fnv1a(s1), b[1]));
    assert(fnv1a(s3) == fnv_step(fnv1a(s2), b[2]));
    assert(fnv1a(s4) == fnv_step(fnv1a(s3), b[3]));
}

} // verus!
