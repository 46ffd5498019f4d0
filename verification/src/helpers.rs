use vstd::prelude::*;
use vstd::string::{StrSliceExecFns, StringExecFns};

verus! {

/// The avalanche hash of `x`.
#[verifier::opaque]
pub open spec fn spec_hash_u32(x: u32) -> u32 {
    let a = vstd::wrapping::u32_specs::wrapping_add(x, 0x9E37_79B9);
    let b = vstd::wrapping::u32_specs::wrapping_mul(a ^ (a >> 16), 0x7FEB_352D);
    let c = vstd::wrapping::u32_specs::wrapping_mul(b ^ (b >> 15), 0x846C_A68B);
    c ^ (c >> 16)
}

/// Avalanche hash used to scatter stars and decorations.
pub fn hash_u32(x: u32) -> (r: u32)
    ensures
        r == spec_hash_u32(x),
{
    reveal(spec_hash_u32);
    let mut x = x.wrapping_add(0x9E37_79B9);
    x = (x ^ (x >> 16)).wrapping_mul(0x7FEB_352D);
    x = (x ^ (x >> 15)).wrapping_mul(0x846C_A68B);
    x ^ (x >> 16)
}

/// A wrapping multiply by `k` is undone by a wrapping multiply by `kinv`
/// when `k * kinv` is one more than a multiple of 2^32.
proof fn lemma_wrapping_mul_undone(x: u32, k: u32, kinv: u32, q: int)
    requires
        0 <= q,
        k as int * kinv as int == 1 + q * 0x1_0000_0000,
    ensures
        vstd::wrapping::u32_specs::wrapping_mul(vstd::wrapping::u32_specs::wrapping_mul(x, k), kinv) == x,
{
    let m: int = 0x1_0000_0000;
    let xk: int = x as int * k as int;
    vstd::arithmetic::div_mod::lemma_mul_mod_noop_left(xk, kinv as int, m);
    assert(xk * kinv as int == m * (x as int * q) + x as int) by (nonlinear_arith)
        requires
            xk == x as int * k as int,
            k as int * kinv as int == 1 + q * m;
    vstd::arithmetic::div_mod::lemma_mod_multiples_vanish(x as int * q, x as int, m);
    vstd::arithmetic::div_mod::lemma_small_mod(x as nat, m as nat);
}

proof fn lemma_xorshift_injective(x: u32, y: u32)
    ensures
        (x ^ (x >> 16)) == (y ^ (y >> 16)) ==> x == y,
        (x ^ (x >> 15)) == (y ^ (y >> 15)) ==> x == y,
{
    assert((x ^ (x >> 16)) == (y ^ (y >> 16)) ==> x == y) by (bit_vector);
    assert((x ^ (x >> 15)) == (y ^ (y >> 15)) ==> x == y) by (bit_vector);
}

/// The avalanche hash is a bijection on `u32`: distinct inputs never collide.
pub proof fn lemma_hash_u32_injective(a: u32, b: u32)
    requires
        spec_hash_u32(a) == spec_hash_u32(b),
    ensures
        a == b,
{
    reveal(spec_hash_u32);
    let a1 = vstd::wrapping::u32_specs::wrapping_add(a, 0x9E37_79B9);
    let b1 = vstd::wrapping::u32_specs::wrapping_add(b, 0x9E37_79B9);
    let a2 = vstd::wrapping::u32_specs::wrapping_mul(a1 ^ (a1 >> 16), 0x7FEB_352D);
    let b2 = vstd::wrapping::u32_specs::wrapping_mul(b1 ^ (b1 >> 16), 0x7FEB_352D);
    let a3 = vstd::wrapping::u32_specs::wrapping_mul(a2 ^ (a2 >> 15), 0x846C_A68B);
    let b3 = vstd::wrapping::u32_specs::wrapping_mul(b2 ^ (b2 >> 15), 0x846C_A68B);
    lemma_xorshift_injective(a3, b3);
    lemma_wrapping_mul_undone(a2 ^ (a2 >> 15), 0x846C_A68B, 0x4302_1123, 581534029);
    lemma_wrapping_mul_undone(b2 ^ (b2 >> 15), 0x846C_A68B, 0x4302_1123, 581534029);
    lemma_xorshift_injective(a2, b2);
    lemma_wrapping_mul_undone(a1 ^ (a1 >> 16), 0x7FEB_352D, 0x1D69_E2A5, 246582719);
    lemma_wrapping_mul_undone(b1 ^ (b1 >> 16), 0x7FEB_352D, 0x1D69_E2A5, 246582719);
    lemma_xorshift_injective(a1, b1);
}

/// Hash that places star `i`.
pub open spec fn star_seed(i: u32) -> u32 {
    spec_hash_u32(
        vstd::wrapping::u32_specs::wrapping_add(
            vstd::wrapping::u32_specs::wrapping_mul(i, 747796405),
            2891336453,
        ),
    )
}

/// Colour of a star with seed `hs`: a grey of brightness 140..254, slightly
/// less blue.
pub open spec fn star_color(hs: u32) -> [u8; 4] {
    let b = (140 + (hs >> 20) % 115) as u8;
    [b, b, (b - 8) as u8, 255u8]
}

/// Pixel index of a star with seed `hs` on a `w` × `h` map.
pub open spec fn star_index(w: u32, h: u32, hs: u32) -> int {
    ((hs >> 10) % h) * w + hs % w
}

pub open spec fn sky_color() -> [u8; 4] {
    [3u8, 3u8, 8u8, 255u8]
}

/// The sky after drawing the first `k` stars over the dark background; a
/// later star overwrites an earlier one on the same pixel.
pub open spec fn sky_after_stars(w: u32, h: u32, k: nat) -> Seq<[u8; 4]>
    decreases k,
{
    if k == 0 {
        Seq::new((w * h) as nat, |p: int| sky_color())
    } else {
        let hs = star_seed((k - 1) as u32);
        sky_after_stars(w, h, (k - 1) as nat).update(star_index(w, h, hs), star_color(hs))
    }
}

/// Number of stars drawn.
pub open spec fn star_count() -> nat {
    2400
}

/// Sun centre, three quarters across and one third down the map.
pub open spec fn sun_x(w: u32) -> int {
    (w * 3) / 4
}

pub open spec fn sun_y(h: u32) -> int {
    (h / 3) as int
}

/// Squared distance from pixel `p` (row-major) to the sun centre.
pub open spec fn sun_dist2(w: u32, h: u32, p: int) -> int {
    let dx = p % (w as int) - sun_x(w);
    let dy = p / (w as int) - sun_y(h);
    dx * dx + dy * dy
}

pub open spec fn abs_max(a: int, b: int) -> int {
    if a >= b { a } else { b }
}

/// The map sizes the sky can be drawn at: non-empty, with a pixel count
/// that fits 32 bits, and with every squared distance to the sun (and three
/// times the width) within 32-bit signed range.
pub open spec fn starfield_fits(w: u32, h: u32) -> bool {
    let mx = abs_max(sun_x(w), w - 1 - sun_x(w));
    let my = abs_max(sun_y(h), h - 1 - sun_y(h));
    &&& 0 < w
    &&& 0 < h
    &&& w * h <= u32::MAX
    &&& w * 3 <= i32::MAX
    &&& h <= i32::MAX
    &&& mx * mx + my * my <= i32::MAX
}

/// The equirectangular night sky: stars over a dark background, with a warm
/// sun disc (core within squared distance 18, rim within 48) drawn on top.
pub open spec fn starfield_pixels(w: u32, h: u32) -> Seq<[u8; 4]> {
    Seq::new(
        (w * h) as nat,
        |p: int|
            if sun_dist2(w, h, p) < 18 {
                [255u8, 210u8, 140u8, 255u8]
            } else if sun_dist2(w, h, p) < 48 {
                [90u8, 55u8, 30u8, 255u8]
            } else {
                sky_after_stars(w, h, star_count())[p]
            },
    )
}

proof fn lemma_sky_len(w: u32, h: u32, k: nat)
    requires
        0 < w,
        0 < h,
    ensures
        sky_after_stars(w, h, k).len() == w * h,
    decreases k,
{
    if k > 0 {
        lemma_sky_len(w, h, (k - 1) as nat);
        let hs = star_seed((k - 1) as u32);
        lemma_row_major(w, h, (hs % w) as int, ((hs >> 10) % h) as int);
    }
}

proof fn lemma_square_bound(d: int, m: int)
    requires
        -m <= d <= m,
    ensures
        0 <= d * d <= m * m,
{
    assert(0 <= d * d <= m * m) by (nonlinear_arith)
        requires -m <= d <= m;
}

proof fn lemma_row_major(w: u32, h: u32, x: int, y: int)
    requires
        0 < w,
        0 <= x < w,
        0 <= y < h,
    ensures
        0 <= y * w + x < w * h,
        (y * w + x) % (w as int) == x,
        (y * w + x) / (w as int) == y,
{
    vstd::arithmetic::div_mod::lemma_fundamental_div_mod_converse(y * w + x, w as int, y, x);
    assert(y * w + x < w * h) by (nonlinear_arith)
        requires 0 <= x < w, 0 <= y < h;
    assert(0 <= y * w) by (nonlinear_arith)
        requires 0 <= y, 0 < w;
}

/// An equirectangular sky map of `width` × `height` pixels: 2400 hashed
/// stars over a dark background and a small warm sun disc.
pub fn starfield(width: u32, height: u32) -> (pixels: Vec<[u8; 4]>)
    requires
        starfield_fits(width, height),
    ensures
        pixels@ == starfield_pixels(width, height),
{
    let n: usize = (width * height) as usize;
    let mut pixels: Vec<[u8; 4]> = Vec::new();
    let mut k: usize = 0;
    while k < n
        invariant
            k <= n,
            n == width * height,
            pixels@ == Seq::new(k as nat, |p: int| sky_color()),
        decreases n - k,
    {
        pixels.push([3u8, 3, 8, 255]);
        proof {
            assert(pixels@ =~= Seq::new((k + 1) as nat, |p: int| sky_color()));
        }
        k = k + 1;
    }
    proof {
        assert(pixels@ =~= sky_after_stars(width, height, 0));
    }
    let mut i: u32 = 0;
    while i < 2400
        invariant
            i <= 2400,
            starfield_fits(width, height),
            pixels@ == sky_after_stars(width, height, i as nat),
        decreases 2400 - i,
    {
        proof {
            lemma_sky_len(width, height, i as nat);
        }
        let hs = hash_u32(i.wrapping_mul(747796405).wrapping_add(2891336453));
        let x = hs % width;
        let y = (hs >> 10) % height;
        let bright: u8 = 140 + ((hs >> 20) % 115) as u8;
        proof {
            lemma_row_major(width, height, x as int, y as int);
        }
        let idx = (y * width + x) as usize;
        pixels.set(idx, [bright, bright, bright.saturating_sub(8), 255]);
        proof {
            assert(hs == star_seed(i));
            assert(idx == star_index(width, height, hs));
        }
        i = i + 1;
    }
    proof {
        lemma_sky_len(width, height, star_count());
    }
    let ghost stars = pixels@;
    let cx: i64 = (width as i64 * 3) / 4;
    let cy: i64 = height as i64 / 3;
    let mut y: u32 = 0;
    while y < height
        invariant
            y <= height,
            starfield_fits(width, height),
            cx == sun_x(width),
            cy == sun_y(height),
            stars == sky_after_stars(width, height, star_count()),
            stars.len() == width * height,
            pixels@.len() == width * height,
            forall|p: int|
                0 <= p < width * height ==> #[trigger] pixels@[p] == if p < y * width {
                    starfield_pixels(width, height)[p]
                } else {
                    stars[p]
                },
        decreases height - y,
    {
        let mut x: u32 = 0;
        while x < width
            invariant
                x <= width,
                y < height,
                starfield_fits(width, height),
                cx == sun_x(width),
                cy == sun_y(height),
                stars == sky_after_stars(width, height, star_count()),
                stars.len() == width * height,
                pixels@.len() == width * height,
                forall|p: int|
                    0 <= p < width * height ==> #[trigger] pixels@[p] == if p < y * width + x {
                        starfield_pixels(width, height)[p]
                    } else {
                        stars[p]
                    },
            decreases width - x,
        {
            proof {
                lemma_row_major(width, height, x as int, y as int);
            }
            let idx = (y * width + x) as usize;
            let dx: i64 = x as i64 - cx;
            let dy: i64 = y as i64 - cy;
            proof {
                let mx = abs_max(sun_x(width), width - 1 - sun_x(width));
                let my = abs_max(sun_y(height), height - 1 - sun_y(height));
                lemma_square_bound(dx as int, mx);
                lemma_square_bound(dy as int, my);
            }
            let d2: i64 = dx * dx + dy * dy;
            proof {
                assert(d2 == sun_dist2(width, height, idx as int));
            }
            if d2 < 18 {
                pixels.set(idx, [255u8, 210, 140, 255]);
            } else if d2 < 48 {
                pixels.set(idx, [90u8, 55, 30, 255]);
            }
            proof {
                assert forall|p: int| 0 <= p < width * height implies #[trigger] pixels@[p] == if p < y * width + x + 1 {
                    starfield_pixels(width, height)[p]
                } else {
                    stars[p]
                } by {
                    if p != idx as int {
                    }
                }
            }
            x = x + 1;
        }
        proof {
            assert(y * width + width == (y + 1) * width) by (nonlinear_arith);
        }
        y = y + 1;
    }
    proof {
        assert(y * width == width * height) by (nonlinear_arith)
            requires y == height;
        assert(pixels@ =~= starfield_pixels(width, height));
    }
    pixels
}

/// The text of the path that, joined onto `base`, gives `path`, when `base`
/// is a leading run of whole components of `path`; `None` otherwise. This is
/// what `std::path::Path::strip_prefix` computes (on the target's path syntax).
pub uninterp spec fn path_strip_prefix(path: Seq<char>, base: Seq<char>) -> Option<Seq<char>>;

/// Calls `std::path::Path::strip_prefix` on `path` with `base` and returns the
/// remainder as text. Claimed: the result is `path_strip_prefix` of the two
/// strings; nothing more is claimed about which paths match.
#[verifier::external_body]
fn strip_path_prefix(path: &str, base: &str) -> (r: Option<String>)
    ensures
        match r {
            Some(s) => path_strip_prefix(path@, base@) == Some(s@),
            None => path_strip_prefix(path@, base@) is None,
        },
{
    std::path::Path::new(path).strip_prefix(base).ok().map(|rest| rest.to_string_lossy().into_owned())
}

/// Model path to hand the engine: `stripped` (the model path with the asset
/// root removed) when there is one, else the model path itself.
pub fn relative_model_from(model: &str, stripped: Option<String>) -> (s: String)
    ensures
        s@ == match stripped {
            Some(r) => r@,
            None => model@,
        },
{
    match stripped {
        Some(rest) => rest,
        None => model.to_owned(),
    }
}

/// `model` relative to the asset directory `assets`, or `model` unchanged
/// when it does not lie under `assets`.
pub fn relative_model(assets: &str, model: &str) -> (s: String)
    ensures
        s@ == match path_strip_prefix(model@, assets@) {
            Some(r) => r,
            None => model@,
        },
{
    let stripped = strip_path_prefix(model, assets);
    relative_model_from(model, stripped)
}

/// `a == b` on string contents.
pub(crate) fn str_eq(a: &str, b: &str) -> (r: bool)
    ensures
        r == (a@ == b@),
{
    let x = a.to_owned();
    let y = b.to_owned();
    x == y
}

pub open spec fn is_digit(c: char) -> bool {
    '0' <= c <= '9'
}

/// Value of a run of decimal digits.
pub open spec fn decimal_value(s: Seq<char>) -> int
    decreases s.len(),
{
    if s.len() == 0 {
        0
    } else {
        decimal_value(s.drop_last()) * 10 + (s.last() as int - '0' as int)
    }
}

/// Digits of a `u32` literal: the text after an optional leading `+`.
pub open spec fn unsigned_digits(s: Seq<char>) -> Seq<char> {
    if s.len() > 0 && s[0] == '+' { s.drop_first() } else { s }
}

/// Decimal `u32` text: an optional `+`, then one or more digits whose value
/// fits 32 bits; nothing else, not even whitespace.
pub open spec fn spec_parse_u32(s: Seq<char>) -> Option<u32> {
    let d = unsigned_digits(s);
    if d.len() > 0 && (forall|i: int| 0 <= i < d.len() ==> is_digit(#[trigger] d[i]))
        && decimal_value(d) <= u32::MAX {
        Some(decimal_value(d) as u32)
    } else {
        None
    }
}

proof fn lemma_decimal_grows(d: Seq<char>, k: int)
    requires
        0 <= k <= d.len(),
        forall|i: int| 0 <= i < d.len() ==> is_digit(#[trigger] d[i]),
    ensures
        0 <= decimal_value(d.take(k)) <= decimal_value(d),
    decreases d.len() - k,
{
    if k < d.len() {
        lemma_decimal_grows(d, k + 1);
        assert(d.take(k + 1).drop_last() =~= d.take(k));
        assert(is_digit(d[k]));
    } else {
        assert(d.take(k) =~= d);
    }
    lemma_decimal_nonneg(d.take(k));
}

proof fn lemma_decimal_nonneg(d: Seq<char>)
    requires
        forall|i: int| 0 <= i < d.len() ==> is_digit(#[trigger] d[i]),
    ensures
        0 <= decimal_value(d),
    decreases d.len(),
{
    if d.len() > 0 {
        lemma_decimal_nonneg(d.drop_last());
        assert(is_digit(d[d.len() - 1]));
    }
}

/// Parse a decimal `u32` the way `str::parse::<u32>` accepts it.
pub fn parse_u32(s: &str) -> (r: Option<u32>)
    ensures
        r == spec_parse_u32(s@),
{
    let n = s.unicode_len();
    let mut i: usize = 0;
    if n > 0 && s.get_char(0) == '+' {
        i = 1;
    }
    let start = i;
    let ghost d = unsigned_digits(s@);
    proof {
        assert(d =~= s@.subrange(start as int, n as int));
    }
    if i >= n {
        return None;
    }
    let mut value: u64 = 0;
    while i < n
        invariant
            start <= i <= n,
            n == s@.len(),
            start < n,
            d == s@.subrange(start as int, n as int),
            d == unsigned_digits(s@),
            forall|k: int| 0 <= k < i - start ==> is_digit(#[trigger] d[k]),
            value == decimal_value(d.take(i - start)),
            value <= u32::MAX,
        decreases n - i,
    {
        let c = s.get_char(i);
        if c < '0' || c > '9' {
            proof {
                assert(d[i - start] == c);
                assert(!is_digit(d[i - start]));
                assert(!(forall|k: int| 0 <= k < d.len() ==> is_digit(#[trigger] d[k])));
            }
            return None;
        }
        proof {
            assert(d.take(i - start + 1).drop_last() =~= d.take(i - start));
            assert(d.take(i - start + 1).last() == c);
        }
        let digit: u64 = (c as u32 - '0' as u32) as u64;
        value = value * 10 + digit;
        if value > 0xffff_ffff {
            proof {
                assert(d[i - start] == c);
                assert(value == decimal_value(d.take(i - start + 1)));
                assert forall|k: int| 0 <= k < i - start + 1 implies is_digit(#[trigger] d[k]) by {}
                if forall|k: int| 0 <= k < d.len() ==> is_digit(#[trigger] d[k]) {
                    lemma_decimal_grows(d, i - start + 1);
                }
            }
            return None;
        }
        i = i + 1;
    }
    proof {
        assert(d.take(i - start) =~= d);
    }
    Some(value as u32)
}

/// The decimal digit for `d` in 0..=9.
pub open spec fn digit_char(d: int) -> char {
    ('0' as int + d) as char
}

/// Decimal text of `n`, no leading zeros ("0" for zero).
pub open spec fn decimal_text(n: nat) -> Seq<char>
    decreases n,
{
    if n < 10 {
        seq![digit_char(n as int)]
    } else {
        decimal_text(n / 10).push(digit_char((n % 10) as int))
    }
}

/// `n` in 0..=99 as exactly two digits.
pub open spec fn two_digits(n: nat) -> Seq<char> {
    seq![digit_char((n / 10) as int), digit_char((n % 10) as int)]
}

/// Lap-clock text of `ms` milliseconds: whole minutes, a colon, then the
/// seconds as two digits, a point and two decimals (rounded half up to the
/// hundredth), e.g. 83 456 ms is "1:23.46".
pub open spec fn time_text(ms: u64) -> Seq<char> {
    let minutes = ms / 60_000;
    let centis = ((ms % 60_000) + 5) / 10;
    decimal_text(minutes as nat) + seq![':'] + two_digits(centis as nat / 100) + seq!['.'] + two_digits(
        centis as nat % 100,
    )
}

fn push_digit(out: &mut String, d: u64)
    requires
        d < 10,
    ensures
        final(out)@ == old(out)@.push(digit_char(d as int)),
{
    let text: &str = if d == 0 {
        "0"
    } else if d == 1 {
        "1"
    } else if d == 2 {
        "2"
    } else if d == 3 {
        "3"
    } else if d == 4 {
        "4"
    } else if d == 5 {
        "5"
    } else if d == 6 {
        "6"
    } else if d == 7 {
        "7"
    } else if d == 8 {
        "8"
    } else {
        "9"
    };
    proof {
        reveal_strlit("0");
        reveal_strlit("1");
        reveal_strlit("2");
        reveal_strlit("3");
        reveal_strlit("4");
        reveal_strlit("5");
        reveal_strlit("6");
        reveal_strlit("7");
        reveal_strlit("8");
        reveal_strlit("9");
        assert(text@ =~= seq![digit_char(d as int)]);
    }
    out.append(text);
}

fn push_decimal(out: &mut String, n: u64)
    ensures
        final(out)@ == old(out)@ + decimal_text(n as nat),
    decreases n,
{
    if n < 10 {
        push_digit(out, n);
        proof {
            assert(decimal_text(n as nat) == seq![digit_char(n as int)]);
        }
    } else {
        push_decimal(out, n / 10);
        push_digit(out, n % 10);
        proof {
            assert(out@ =~= old(out)@ + decimal_text(n as nat));
        }
    }
}

/// Format a race time given in milliseconds as `m:ss.cc`.
pub fn format_time(ms: u64) -> (s: String)
    ensures
        s@ == time_text(ms),
{
    let minutes = ms / 60_000;
    let centis = (ms % 60_000 + 5) / 10;
    let mut out = String::new();
    push_decimal(&mut out, minutes);
    out.append(":");
    let secs = centis / 100;
    push_digit(&mut out, secs / 10);
    push_digit(&mut out, secs % 10);
    out.append(".");
    let frac = centis % 100;
    push_digit(&mut out, frac / 10);
    push_digit(&mut out, frac % 10);
    proof {
        reveal_strlit(":");
        reveal_strlit(".");
        assert(out@ =~= time_text(ms));
    }
    out
}

} // verus!
