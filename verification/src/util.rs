//! Small shared helpers: weighted random choice, decimal rendering, and hex
//! colour codes.

use crate::rng::{draw_value, draws_since, extends, lemma_extends_push, lemma_extends_refl, u32_draw, Dice, Draw};
use vstd::prelude::*;
use vstd::string::StringSliceAdditionalSpecFns;
use vstd::utf8::is_char_boundary;

verus! {

/// Sum of the first `n` weights.
pub open spec fn prefix_sum(w: Seq<u32>, n: int) -> int
    decreases n,
{
    if n <= 0 {
        0
    } else {
        prefix_sum(w, n - 1) + w[n - 1]
    }
}

/// Sum of all weights.
pub open spec fn total_weight(w: Seq<u32>) -> int {
    prefix_sum(w, w.len() as int)
}

/// The index whose weight band `[prefix_sum(i), prefix_sum(i + 1))` holds `roll`.
pub open spec fn picks(w: Seq<u32>, roll: int, i: int) -> bool {
    &&& 0 <= i < w.len()
    &&& prefix_sum(w, i) <= roll < prefix_sum(w, i + 1)
}

/// Prefix sums never decrease and stay within the total.
pub proof fn lemma_prefix_sum_monotone(w: Seq<u32>, a: int, b: int)
    requires
        0 <= a <= b <= w.len(),
    ensures
        0 <= prefix_sum(w, a) <= prefix_sum(w, b),
    decreases b - a,
{
    if a < b {
        lemma_prefix_sum_monotone(w, a, b - 1);
    } else {
        lemma_prefix_sum_nonneg(w, a);
    }
}

proof fn lemma_prefix_sum_nonneg(w: Seq<u32>, a: int)
    ensures
        0 <= prefix_sum(w, a),
    decreases a,
{
    if a > 0 {
        lemma_prefix_sum_nonneg(w, a - 1);
    }
}

/// A roll picks at most one index: the weight bands are disjoint.
pub proof fn lemma_picks_unique(w: Seq<u32>, roll: int, i: int, j: int)
    requires
        picks(w, roll, i),
        picks(w, roll, j),
    ensures
        i == j,
{
    if i < j {
        lemma_prefix_sum_monotone(w, i + 1, j);
    } else if j < i {
        lemma_prefix_sum_monotone(w, j + 1, i);
    }
}

/// Walks the weight bands and returns the index whose band holds `roll`.
pub fn pick_by_roll(weights: &[u32], roll: u32) -> (i: usize)
    requires
        roll < total_weight(weights@),
    ensures
        picks(weights@, roll as int, i as int),
{
    let mut rest: u32 = roll;
    let mut i: usize = 0;
    while i < weights.len()
        invariant
            0 <= i <= weights@.len(),
            roll < total_weight(weights@),
            prefix_sum(weights@, i as int) <= roll,
            rest == roll - prefix_sum(weights@, i as int),
        decreases weights@.len() - i,
    {
        if rest < weights[i] {
            return i;
        }
        rest = rest - weights[i];
        i = i + 1;
    }
    proof {
        assert(false);
    }
    weights.len() - 1
}

/// The draws of a weighted pick that chose `i`: one roll in `0..total`,
/// whose band is that of `i`.
pub open spec fn pick_draws(d: Seq<Draw>, weights: Seq<u32>, i: int) -> bool {
    &&& d.len() == 1
    &&& u32_draw(d[0], 0, total_weight(weights) as u32)
    &&& picks(weights, draw_value(d[0]), i)
}

/// Picks an index at random, each index with chance proportional to its
/// weight: one roll in `0..total`, then `pick_by_roll`.
pub fn weighted_pick(rng: &mut Dice, weights: &[u32]) -> (i: usize)
    requires
        0 < total_weight(weights@) <= u32::MAX,
    ensures
        exists|roll: int| 0 <= roll < total_weight(weights@) && #[trigger] picks(weights@, roll, i as int),
        0 < weights@[i as int],
        extends(old(rng).draws(), final(rng).draws()),
        pick_draws(draws_since(old(rng).draws(), final(rng).draws()), weights@, i as int),
{
    let ghost d0 = rng.draws();
    proof {
        lemma_extends_refl(d0);
    }
    let mut tot: u32 = 0;
    let mut k: usize = 0;
    while k < weights.len()
        invariant
            0 <= k <= weights@.len(),
            0 < total_weight(weights@) <= u32::MAX,
            tot == prefix_sum(weights@, k as int),
        decreases weights@.len() - k,
    {
        proof {
            lemma_prefix_sum_monotone(weights@, k as int + 1, weights@.len() as int);
        }
        tot = tot + weights[k];
        k = k + 1;
    }
    let roll = rng.range_u32(0, tot);
    proof {
        lemma_extends_push(d0, d0, Draw::U32(0, tot, roll));
    }
    let i = pick_by_roll(weights, roll);
    i
}

/// The decimal digits of `n`, most significant first.
pub open spec fn decimal(n: nat) -> Seq<char>
    decreases n,
{
    if n < 10 {
        seq![digit_char(n)]
    } else {
        decimal(n / 10).push(digit_char(n % 10))
    }
}

/// The character of one decimal digit.
pub open spec fn digit_char(d: nat) -> char {
    ('0' as nat + d) as char
}

fn digit_str(d: u32) -> (s: &'static str)
    requires
        d < 10,
    ensures
        s@ == seq![digit_char(d as nat)],
{
    proof {
        reveal_strlit("0");
        reveal_strlit("1");
        reveal_strlit("2");
        reveal_strlit("3");
        reveal_strlit("4");
        reveal_strlit("5");
        reveal_strlit("6");
        reveal_strlit("7");
        reveal_strlit("8");
        reveal_strlit("9");
    }
    match d {
        0 => "0",
        1 => "1",
        2 => "2",
        3 => "3",
        4 => "4",
        5 => "5",
        6 => "6",
        7 => "7",
        8 => "8",
        _ => "9",
    }
}

/// Appends the decimal rendering of `n` to `s`.
pub fn push_decimal(s: &mut String, n: u32)
    ensures
        final(s)@ == old(s)@ + decimal(n as nat),
    decreases n,
{
    if n < 10 {
        s.append(digit_str(n));
    } else {
        push_decimal(s, n / 10);
        s.append(digit_str(n % 10));
    }
}


/// The value of an ASCII hex digit (either case).
pub open spec fn hex_digit(b: u8) -> Option<u8> {
    if 0x30 <= b <= 0x39 {
        Some((b - 0x30) as u8)
    } else if 0x61 <= b <= 0x66 {
        Some((b - 0x61 + 10) as u8)
    } else if 0x41 <= b <= 0x46 {
        Some((b - 0x41 + 10) as u8)
    } else {
        None
    }
}

/// Two bytes read as an unsigned hex number: two digits, or a `+` sign and
/// one digit; anything else is no number.
pub open spec fn hex_pair(a: u8, b: u8) -> Option<u8> {
    if a == 0x2b {
        hex_digit(b)
    } else {
        match (hex_digit(a), hex_digit(b)) {
            (Some(x), Some(y)) => Some((x * 16 + y) as u8),
            _ => None,
        }
    }
}

/// The number of leading `#` bytes.
pub open spec fn hash_prefix_len(b: Seq<u8>) -> nat
    decreases b.len(),
{
    if b.len() > 0 && b[0] == 0x23 {
        1 + hash_prefix_len(b.subrange(1, b.len() as int))
    } else {
        0
    }
}

/// A colour code has three two-byte fields after its leading `#`s, and those
/// fields start and end on character boundaries.
pub open spec fn hex_code_fits(b: Seq<u8>) -> bool {
    let k = hash_prefix_len(b) as int;
    &&& k + 6 <= b.len()
    &&& is_char_boundary(b, k + 2)
    &&& is_char_boundary(b, k + 4)
    &&& is_char_boundary(b, k + 6)
}

/// The channel read from the two bytes at `i`, 255 when they are no number.
pub open spec fn hex_channel(b: Seq<u8>, i: int) -> u8 {
    match hex_pair(b[i], b[i + 1]) {
        Some(v) => v,
        None => 255,
    }
}

/// The (red, green, blue) bytes of a `#RRGGBB` colour code.
pub open spec fn spec_hex_rgb(b: Seq<u8>) -> (u8, u8, u8) {
    let k = hash_prefix_len(b) as int;
    (hex_channel(b, k), hex_channel(b, k + 2), hex_channel(b, k + 4))
}

fn hex_digit_of(b: u8) -> (r: Option<u8>)
    ensures
        r == hex_digit(b),
{
    if 0x30 <= b && b <= 0x39 {
        Some(b - 0x30)
    } else if 0x61 <= b && b <= 0x66 {
        Some(b - 0x61 + 10)
    } else if 0x41 <= b && b <= 0x46 {
        Some(b - 0x41 + 10)
    } else {
        None
    }
}

fn hex_channel_at(b: &[u8], i: usize) -> (r: u8)
    requires
        i + 1 < b@.len(),
    ensures
        r == hex_channel(b@, i as int),
{
    let first = b[i];
    let second = b[i + 1];
    if first == 0x2b {
        match hex_digit_of(second) {
            Some(v) => v,
            None => 255,
        }
    } else {
        match (hex_digit_of(first), hex_digit_of(second)) {
            (Some(x), Some(y)) => x * 16 + y,
            _ => 255,
        }
    }
}

proof fn lemma_hash_prefix(b: Seq<u8>, i: int)
    requires
        0 <= i <= b.len(),
        forall|j: int| 0 <= j < i ==> b[j] == 0x23,
    ensures
        (i == b.len() || b[i] != 0x23) ==> hash_prefix_len(b) == i,
        hash_prefix_len(b) >= i,
    decreases i,
{
    if i > 0 {
        let t = b.subrange(1, b.len() as int);
        assert forall|j: int| 0 <= j < i - 1 implies t[j] == 0x23 by {
            assert(t[j] == b[j + 1]);
        }
        lemma_hash_prefix(t, i - 1);
    }
}

/// The sRGB bytes of a `#RRGGBB` colour code (leading `#`s are skipped); a
/// field that is not a hex number reads as 255.
pub fn hex_srgb_u8(hex: &str) -> (rgb: (u8, u8, u8))
    requires
        hex_code_fits(hex.spec_bytes()),
    ensures
        rgb == spec_hex_rgb(hex.spec_bytes()),
{
    let b = hex.as_bytes();
    let mut k: usize = 0;
    while k < b.len() && b[k] == 0x23
        invariant
            k <= b@.len(),
            forall|j: int| 0 <= j < k ==> b@[j] == 0x23,
        decreases b@.len() - k,
    {
        k = k + 1;
    }
    proof {
        lemma_hash_prefix(b@, k as int);
    }
    (hex_channel_at(b, k), hex_channel_at(b, k + 2), hex_channel_at(b, k + 4))
}


/// A `#` followed by six characters other than `#`, all ASCII, is a colour
/// code that fits, and its bytes are its characters.
pub proof fn lemma_ascii_hex_code(s: &str)
    requires
        vstd::string::is_ascii(s),
        s@.len() == 7,
        s@[0] == '#',
        forall|i: int| 1 <= i < 7 ==> #[trigger] s@[i] != '#',
    ensures
        hex_code_fits(s.spec_bytes()),
        s.spec_bytes().len() == 7,
        forall|i: int| 0 <= i < 7 ==> s.spec_bytes()[i] == s@[i] as u8,
        hash_prefix_len(s.spec_bytes()) == 1,
{
    broadcast use vstd::utf8::group_utf8_lib;

    let b = s.spec_bytes();
    assert(b.len() == 7);
    assert forall|i: int| 0 <= i < 7 implies b[i] == s@[i] as u8 && b[i] < 0x80 by {
        assert('\0' <= s@[i] <= '\u{7f}');
    }
    assert(b[1] != 0x23);
    lemma_hash_prefix(b, 1);
    assert(!vstd::utf8::is_continuation_byte(b[3]));
    assert(!vstd::utf8::is_continuation_byte(b[5]));
    assert(is_char_boundary(b, 3));
    assert(is_char_boundary(b, 5));
    assert(is_char_boundary(b, 7));
}

} // verus!
