//! Deterministic procedural helpers: the texture hash, the per-item stable
//! roll, and WAV framing of generated sound.

use crate::items::Item;
use vstd::prelude::*;
use vstd::utf8::encode_utf8;

verus! {

/// `a * b` wrapped to 32 bits.
pub open spec fn mul32(a: u32, b: u32) -> u32 {
    ((a * b) % 0x1_0000_0000) as u32
}

/// `a + b` wrapped to 32 bits.
pub open spec fn add32(a: u32, b: u32) -> u32 {
    ((a + b) % 0x1_0000_0000) as u32
}

/// The integer hash behind the procedural textures: a linear mix of the
/// pixel position and seed, then two xor-shift and multiply rounds, all
/// wrapping in 32 bits.
pub open spec fn spec_texture_hash(x: u32, y: u32, seed: u32) -> u32 {
    let v0 = add32(add32(mul32(x, 374_761_393), mul32(y, 668_265_263)), mul32(seed, 362_437));
    let v1 = mul32(v0 ^ (v0 >> 13u32), 1_274_126_177);
    v1 ^ (v1 >> 16u32)
}

/// Hash of pixel (`x`, `y`) for texture `seed`.
pub fn texture_hash(x: u32, y: u32, seed: u32) -> (h: u32)
    ensures
        h == spec_texture_hash(x, y, seed),
{
    let mut value = x.wrapping_mul(374_761_393).wrapping_add(y.wrapping_mul(668_265_263)).wrapping_add(
        seed.wrapping_mul(362_437),
    );
    value = (value ^ (value >> 13)).wrapping_mul(1_274_126_177);
    value ^ (value >> 16)
}

/// The FNV-1a 64-bit prime.
pub const FNV_PRIME: u64 = 0x100_0000_01b3;

/// The FNV-1a 64-bit offset basis.
pub const FNV_OFFSET: u64 = 0xcbf2_9ce4_8422_2325;

/// One FNV-1a step: xor in `v`, multiply by the prime, wrapping in 64 bits.
pub open spec fn fnv_step(h: u64, v: u64) -> u64 {
    (((h ^ v) * FNV_PRIME) % 0x1_0000_0000_0000_0000) as u64
}

/// FNV-1a over `bytes`, starting from `h`.
pub open spec fn fnv_bytes(h: u64, bytes: Seq<u8>) -> u64
    decreases bytes.len(),
{
    if bytes.len() == 0 {
        h
    } else {
        fnv_step(fnv_bytes(h, bytes.drop_last()), bytes.last() as u64)
    }
}

/// A signed attribute value as hashed: sign-extended to 64 bits.
pub open spec fn signed_word(v: i32) -> u64 {
    (v as i64) as u64
}

/// The hash after the (label, value) rolls, each label's UTF-8 bytes then its
/// value.
pub open spec fn fnv_rolls(h: u64, rolls: Seq<(String, i32)>) -> u64
    decreases rolls.len(),
{
    if rolls.len() == 0 {
        h
    } else {
        let last = rolls.last();
        fnv_step(fnv_bytes(fnv_rolls(h, rolls.drop_last()), encode_utf8(last.0@)), signed_word(last.1))
    }
}

/// FNV-1a of an item: its name's UTF-8 bytes, its size, its five modifiers,
/// then its extra rolls.
pub open spec fn item_hash(item: Item) -> u64 {
    let h0 = fnv_bytes(FNV_OFFSET, encode_utf8(item.name@));
    let h1 = fnv_step(fnv_step(h0, item.size.0 as u64), item.size.1 as u64);
    let h2 = fnv_step(
        fnv_step(
            fnv_step(fnv_step(fnv_step(h1, signed_word(item.mods.vigor)), signed_word(item.mods.strength)), signed_word(item.mods.agility)),
            signed_word(item.mods.magic),
        ),
        signed_word(item.mods.endurance),
    );
    fnv_rolls(h2, item.extra_rolls@)
}

fn fnv_feed_bytes(h: u64, bytes: &[u8]) -> (r: u64)
    ensures
        r == fnv_bytes(h, bytes@),
{
    let mut hash = h;
    let mut i: usize = 0;
    while i < bytes.len()
        invariant
            i <= bytes@.len(),
            hash == fnv_bytes(h, bytes@.subrange(0, i as int)),
        decreases bytes@.len() - i,
    {
        assert(bytes@.subrange(0, i as int + 1).drop_last() =~= bytes@.subrange(0, i as int));
        hash = (hash ^ bytes[i] as u64).wrapping_mul(FNV_PRIME);
        i = i + 1;
    }
    assert(bytes@.subrange(0, i as int) =~= bytes@);
    hash
}

fn fnv_feed(h: u64, v: u64) -> (r: u64)
    ensures
        r == fnv_step(h, v),
{
    (h ^ v).wrapping_mul(FNV_PRIME)
}

/// A roll in `1..=max` that depends only on the item's contents, so the same
/// item always looks the same.
pub fn stable_item_roll(item: &Item, max: u32) -> (r: u32)
    requires
        max > 0,
    ensures
        r == (item_hash(*item) % (max as u64)) + 1,
        1 <= r <= max,
{
    let mut hash = fnv_feed_bytes(FNV_OFFSET, item.name.as_str().as_bytes());
    hash = fnv_feed(hash, item.size.0 as u64);
    hash = fnv_feed(hash, item.size.1 as u64);
    hash = fnv_feed(hash, item.mods.vigor as i64 as u64);
    hash = fnv_feed(hash, item.mods.strength as i64 as u64);
    hash = fnv_feed(hash, item.mods.agility as i64 as u64);
    hash = fnv_feed(hash, item.mods.magic as i64 as u64);
    hash = fnv_feed(hash, item.mods.endurance as i64 as u64);
    let ghost h2 = hash;
    let mut i: usize = 0;
    while i < item.extra_rolls.len()
        invariant
            i <= item.extra_rolls@.len(),
            hash == fnv_rolls(h2, item.extra_rolls@.subrange(0, i as int)),
        decreases item.extra_rolls@.len() - i,
    {
        assert(item.extra_rolls@.subrange(0, i as int + 1).drop_last() =~= item.extra_rolls@.subrange(0, i as int));
        let label = &item.extra_rolls[i].0;
        hash = fnv_feed_bytes(hash, label.as_str().as_bytes());
        hash = fnv_feed(hash, item.extra_rolls[i].1 as i64 as u64);
        i = i + 1;
    }
    assert(item.extra_rolls@.subrange(0, i as int) =~= item.extra_rolls@);
    ((hash % max as u64) + 1) as u32
}

/// `v` as two little-endian bytes.
pub open spec fn le16(v: u16) -> Seq<u8> {
    seq![(v % 256) as u8, (v / 256) as u8]
}

/// `v` as four little-endian bytes.
pub open spec fn le32(v: u32) -> Seq<u8> {
    seq![(v % 256) as u8, ((v / 256) % 256) as u8, ((v / 65536) % 256) as u8, (v / 16777216) as u8]
}

/// The four bytes of an ASCII tag.
pub open spec fn tag(a: u8, b: u8, c: u8, d: u8) -> Seq<u8> {
    seq![a, b, c, d]
}

/// The 44-byte header of a mono 16-bit PCM WAV file holding `data_len`
/// bytes of samples at `rate` samples per second.
pub open spec fn wav_header(data_len: u32, rate: u32) -> Seq<u8> {
    tag(0x52, 0x49, 0x46, 0x46) + le32((36 + data_len) as u32) + tag(0x57, 0x41, 0x56, 0x45) + tag(0x66, 0x6d, 0x74, 0x20)
        + le32(16) + le16(1) + le16(1) + le32(rate) + le32((rate * 2) as u32) + le16(2) + le16(16) + tag(
        0x64,
        0x61,
        0x74,
        0x61,
    ) + le32(data_len)
}

/// The samples, each as two little-endian bytes of its two's complement.
pub open spec fn pcm_bytes(samples: Seq<i16>) -> Seq<u8>
    decreases samples.len(),
{
    if samples.len() == 0 {
        Seq::empty()
    } else {
        pcm_bytes(samples.drop_last()) + le16(samples.last() as u16)
    }
}

/// The byte count written into the header: twice the sample count, in 32 bits.
pub open spec fn wav_data_len(n: nat) -> u32 {
    (n * 2) as u32
}

fn push_le16(bytes: &mut Vec<u8>, v: u16)
    ensures
        final(bytes)@ == old(bytes)@ + le16(v),
{
    bytes.push((v % 256) as u8);
    bytes.push((v / 256) as u8);
}

fn push_le32(bytes: &mut Vec<u8>, v: u32)
    ensures
        final(bytes)@ == old(bytes)@ + le32(v),
{
    bytes.push((v % 256) as u8);
    bytes.push(((v / 256) % 256) as u8);
    bytes.push(((v / 65536) % 256) as u8);
    bytes.push((v / 16777216) as u8);
}

fn push_tag(bytes: &mut Vec<u8>, a: u8, b: u8, c: u8, d: u8)
    ensures
        final(bytes)@ == old(bytes)@ + tag(a, b, c, d),
{
    bytes.push(a);
    bytes.push(b);
    bytes.push(c);
    bytes.push(d);
}

fn wav_header_bytes(data_len: u32, sample_rate: u32) -> (bytes: Vec<u8>)
    requires
        sample_rate * 2 <= u32::MAX,
        36 + data_len <= u32::MAX,
    ensures
        bytes@ == wav_header(data_len, sample_rate),
{
    let mut bytes: Vec<u8> = Vec::new();
    push_tag(&mut bytes, 0x52, 0x49, 0x46, 0x46);
    push_le32(&mut bytes, 36 + data_len);
    push_tag(&mut bytes, 0x57, 0x41, 0x56, 0x45);
    push_tag(&mut bytes, 0x66, 0x6d, 0x74, 0x20);
    push_le32(&mut bytes, 16);
    push_le16(&mut bytes, 1);
    push_le16(&mut bytes, 1);
    push_le32(&mut bytes, sample_rate);
    push_le32(&mut bytes, sample_rate * 2);
    push_le16(&mut bytes, 2);
    push_le16(&mut bytes, 16);
    push_tag(&mut bytes, 0x64, 0x61, 0x74, 0x61);
    push_le32(&mut bytes, data_len);
    assert(bytes@ =~= wav_header(data_len, sample_rate));
    bytes
}

/// Frames mono 16-bit `samples` at `sample_rate` as a WAV file: the RIFF
/// header, the `fmt ` chunk and the `data` chunk.
pub fn pcm_to_wav_bytes(samples: &[i16], sample_rate: u32) -> (bytes: Vec<u8>)
    requires
        sample_rate * 2 <= u32::MAX,
        samples@.len() * 2 <= usize::MAX,
        36 + wav_data_len(samples@.len()) <= u32::MAX,
    ensures
        bytes@ == wav_header(wav_data_len(samples@.len()), sample_rate) + pcm_bytes(samples@),
{
    let n = samples.len();
    let data_len = (n * 2) as u32;
    let mut bytes = wav_header_bytes(data_len, sample_rate);
    let ghost header = bytes@;
    let mut i: usize = 0;
    while i < n
        invariant
            n == samples@.len(),
            i <= n,
            bytes@ == header + pcm_bytes(samples@.subrange(0, i as int)),
        decreases n - i,
    {
        assert(samples@.subrange(0, i as int + 1).drop_last() =~= samples@.subrange(0, i as int));
        push_le16(&mut bytes, samples[i] as u16);
        assert(bytes@ =~= header + pcm_bytes(samples@.subrange(0, i as int + 1)));
        i = i + 1;
    }
    assert(samples@.subrange(0, n as int) =~= samples@);
    bytes
}


/// Law: a WAV file holds its 44-byte header followed by two bytes per
/// sample.
pub proof fn lemma_wav_length(data_len: u32, rate: u32, samples: Seq<i16>)
    ensures
        wav_header(data_len, rate).len() == 44,
        pcm_bytes(samples).len() == 2 * samples.len(),
    decreases samples.len(),
{
    if samples.len() > 0 {
        lemma_wav_length(data_len, rate, samples.drop_last());
    }
}

} // verus!
