//! Texts for people: timecodes, sizes and aspect ratios.

use crate::single::Single;
use crate::text::{push_decimal, push_padded};
use vstd::prelude::*;

verus! {

/// The frame rate that timecodes count by: at least 1.
pub open spec fn counting_rate(fps: Single) -> Single {
    crate::single::maximum(fps, crate::single::whole_number(1))
}

/// The whole seconds before a frame.
pub open spec fn seconds_before(frame: int, fps: Single) -> int {
    crate::single::truncated_within(
        crate::single::quotient(crate::single::whole_number(frame), counting_rate(fps)),
        0,
        u32::MAX as int,
    )
}

/// The frames since the last whole second.
pub open spec fn frames_over(frame: int, fps: Single) -> int {
    crate::single::truncated_within(
        crate::single::remainder(crate::single::whole_number(frame), counting_rate(fps)),
        0,
        u32::MAX as int,
    )
}

/// The timecode of a frame: hours, minutes, seconds and frames.
pub open spec fn timecode(frame: int, fps: Single) -> Seq<char> {
    let s = seconds_before(frame, fps);
    crate::text::padded(s / 3600, 2) + ":"@ + crate::text::padded(s / 60 % 60, 2) + ":"@
        + crate::text::padded(s % 60, 2) + ":"@ + crate::text::padded(frames_over(frame, fps), 2)
}

/// The SMPTE timecode of a frame, `HH:MM:SS:FF`.
pub fn format_smpte_timecode(frame: usize, fps: Single) -> (r: String)
    requires
        fps.wf(),
    ensures
        r@ == timecode(frame as int, fps),
{
    let rate = fps.max(Single::from_u32(1));
    let number = Single::from_u64(frame as u64);
    let total: u32 = number.over(rate).trunc_u32();
    let ff: u32 = number.rem(rate).trunc_u32();
    let mut out: String = String::new();
    push_padded(&mut out, (total / 3600) as u64, 2);
    assert(out@ =~= crate::text::padded(total as int / 3600, 2));
    out.append(":");
    push_padded(&mut out, (total / 60 % 60) as u64, 2);
    out.append(":");
    push_padded(&mut out, (total % 60) as u64, 2);
    out.append(":");
    push_padded(&mut out, ff as u64, 2);
    out
}

/// At a whole frame rate the timecode is exact: the last field counts the frames of the running
/// second, the others the seconds before it.
pub proof fn law_timecode_exact(frame: int, rate: int)
    requires
        0 <= frame < 0x100_0000,
        1 <= rate < 0x100_0000,
    ensures
        seconds_before(frame, crate::single::whole_number(rate)) == frame / rate,
        frames_over(frame, crate::single::whole_number(rate)) == frame % rate,
        ({
            let s = frame / rate;
            timecode(frame, crate::single::whole_number(rate)) == crate::text::padded(s / 3600, 2)
                + ":"@ + crate::text::padded(s / 60 % 60, 2) + ":"@ + crate::text::padded(s % 60, 2)
                + ":"@ + crate::text::padded(frame % rate, 2)
        }),
{
    let fps = crate::single::whole_number(rate);
    vstd::arithmetic::power2::lemma2_to64();
    assert(rate * crate::single::pow2(0) == rate);
    assert(1 * crate::single::pow2(0) == 1);
    crate::single::lemma_whole_number(rate, 0);
    crate::single::lemma_whole_number(1, 0);
    crate::single::lemma_less_units(fps, rate, crate::single::whole_number(1), 1, 0);
    assert(counting_rate(fps) == fps);
    crate::single::lemma_whole_quotient_truncated(frame, rate, u32::MAX as int);
    crate::single::lemma_whole_remainder(frame, rate);
    assert(0 <= frame % rate < rate) by (nonlinear_arith)
        requires
            rate >= 1,
    ;
    crate::single::lemma_whole_truncated(frame % rate, u32::MAX as int);
}

/// The binary64 value nearest to an integer, a tie going to the even significand.
pub open spec fn as_double(n: int) -> int {
    let b = crate::single::bits(n);
    if b <= 53 {
        n
    } else {
        let d = crate::single::pow2(b - 53);
        crate::single::half_even(n, d) * d
    }
}

/// A number of tenths as text.
pub open spec fn tenths_text(t: int) -> Seq<char> {
    crate::text::decimal(t / 10) + "."@ + crate::text::decimal(t % 10)
}

/// A number of hundredths as text.
pub open spec fn hundredths_text(h: int) -> Seq<char> {
    crate::text::decimal(h / 100) + "."@ + crate::text::padded(h % 100, 2)
}

/// A size as text: bytes, or binary multiples, gigabytes with two decimals and smaller ones with
/// one. The last decimal is the nearest, a tie going to the even one.
pub open spec fn size_text(bytes: int) -> Seq<char> {
    if bytes >= 0x4000_0000 {
        hundredths_text(crate::single::half_even(as_double(bytes) * 100, 0x4000_0000)) + " GB"@
    } else if bytes >= 0x10_0000 {
        tenths_text(crate::single::half_even(bytes * 10, 0x10_0000)) + " MB"@
    } else if bytes >= 0x400 {
        tenths_text(crate::single::half_even(bytes * 10, 0x400)) + " KB"@
    } else {
        crate::text::decimal(bytes) + " B"@
    }
}

/// The integer nearest to `n / d`, a tie going to the even one.
fn nearest_even(n: u128, d: u128) -> (r: u128)
    requires
        0 < d < 0x1_0000_0000_0000,
        n < 0x1_0000_0000_0000_0000_0000_0000,
    ensures
        r == crate::single::half_even(n as int, d as int),
        r <= n + 1,
{
    let q: u128 = n / d;
    let m: u128 = n % d;
    assert(q <= n) by (nonlinear_arith)
        requires
            q == n / d,
            d > 0,
    ;
    if 2 * m < d || (2 * m == d && q % 2 == 0) {
        q
    } else {
        q + 1
    }
}

/// The number of binary digits of `n`.
fn digits(n: u64) -> (b: u32)
    ensures
        b == crate::single::bits(n as int),
        b <= 64,
{
    let mut left: u64 = n;
    let mut b: u32 = 0;
    proof {
        lemma_bits_bound(n as int, 64);
    }
    while left > 0
        invariant
            b + crate::single::bits(left as int) == crate::single::bits(n as int),
            crate::single::bits(left as int) >= 0,
            crate::single::bits(n as int) <= 64,
        decreases left,
    {
        proof {
            lemma_bits_bound(left as int / 2, 64);
        }
        left = left / 2;
        b = b + 1;
    }
    b
}

proof fn lemma_bits_bound(n: int, b: int)
    requires
        0 <= n < 0x1_0000_0000_0000_0000,
        b == 64,
    ensures
        0 <= crate::single::bits(n) <= b,
{
    if n > 0 {
        crate::single::lemma_bits(n);
        vstd::arithmetic::power2::lemma2_to64();
        vstd::arithmetic::power2::lemma2_to64_rest();
        if crate::single::bits(n) > 64 {
            let c = crate::single::bits(n) - 1;
            if c > 64 {
                vstd::arithmetic::power2::lemma_pow2_strictly_increases(64, c as nat);
            }
            vstd::arithmetic::power2::lemma_pow2_unfold(64);
        }
    }
}

/// The binary64 value nearest to an integer.
fn to_double(n: u64) -> (r: u128)
    ensures
        r == as_double(n as int),
        r <= 0x2_0000_0000_0000_0000,
{
    let b: u32 = digits(n);
    if b <= 53 {
        return n as u128;
    }
    proof {
        vstd::arithmetic::power2::lemma2_to64();
    }
    let s: u32 = b - 53;
    let mut d: u128 = 1;
    let mut i: u32 = 0;
    while i < s
        invariant
            i <= s <= 11,
            d == crate::single::pow2(i as int),
            d <= 0x800,
            i < 11 ==> d <= 0x400,
        decreases s - i,
    {
        proof {
            vstd::arithmetic::power2::lemma_pow2_unfold((i + 1) as nat);
            vstd::arithmetic::power2::lemma2_to64();
            if i + 1 < 11 {
                if i + 1 < 10 {
                    vstd::arithmetic::power2::lemma_pow2_strictly_increases(
                        (i + 1) as nat,
                        10,
                    );
                }
            }
        }
        d = d * 2;
        i = i + 1;
    }
    let q: u128 = nearest_even(n as u128, d);
    assert(q * d <= 0x2_0000_0000_0000_0000) by (nonlinear_arith)
        requires
            q <= n as int / d as int + 1,
            n <= 0xFFFF_FFFF_FFFF_FFFF,
            0 < d <= 0x800,
    ;
    q * d
}

/// Appends a number of tenths.
fn push_tenths(out: &mut String, t: u64)
    ensures
        final(out)@ == old(out)@ + tenths_text(t as int),
{
    let ghost before = out@;
    push_decimal(out, t / 10);
    out.append(".");
    push_decimal(out, t % 10);
    assert(out@ =~= before + tenths_text(t as int));
}

/// Appends a number of hundredths.
fn push_hundredths(out: &mut String, h: u64)
    ensures
        final(out)@ == old(out)@ + hundredths_text(h as int),
{
    let ghost before = out@;
    push_decimal(out, h / 100);
    out.append(".");
    push_padded(out, h % 100, 2);
    assert(out@ =~= before + hundredths_text(h as int));
}

/// A size in bytes as a text such as `14.2 MB`.
pub fn format_bytes(bytes: u64) -> (r: String)
    ensures
        r@ == size_text(bytes as int),
{
    let mut out: String = String::new();
    if bytes >= 0x4000_0000 {
        let v: u128 = to_double(bytes);
        let h: u128 = nearest_even(v * 100, 0x4000_0000);
        assert(h <= 0xFFFF_FFFF_FFFF) by {
            assert(v * 100 / 0x4000_0000 <= 0xFFFF_FFFF_FFF);
        }
        push_hundredths(&mut out, h as u64);
        out.append(" GB");
    } else if bytes >= 0x10_0000 {
        let t: u128 = nearest_even(bytes as u128 * 10, 0x10_0000);
        assert(t <= 0xFFFF_FFFF);
        push_tenths(&mut out, t as u64);
        out.append(" MB");
    } else if bytes >= 0x400 {
        let t: u128 = nearest_even(bytes as u128 * 10, 0x400);
        assert(t <= 0xFFFF_FFFF);
        push_tenths(&mut out, t as u64);
        out.append(" KB");
    } else {
        push_decimal(&mut out, bytes);
        out.append(" B");
    }
    assert(out@ =~= size_text(bytes as int));
    out
}

/// The two ratios are the same to a twentieth.
pub open spec fn resembles(ratio: Single, w: int, h: int) -> bool {
    crate::single::less(
        crate::single::magnitude(
            crate::single::difference(ratio, crate::single::ratio(w, h)),
        ),
        crate::single::ratio(5, 100),
    )
}

/// The common name of the aspect ratio of an image; none for an unusual one.
pub open spec fn aspect_name(w: int, h: int) -> Seq<char> {
    let r = crate::single::quotient(crate::single::whole_number(w), crate::single::whole_number(h));
    if w == 0 || h == 0 {
        ""@
    } else if resembles(r, 16, 9) {
        "16:9"@
    } else if resembles(r, 4, 3) {
        "4:3"@
    } else if resembles(r, 21, 9) || resembles(r, 239, 100) {
        "2.39:1"@
    } else if resembles(r, 1, 1) {
        "1:1"@
    } else if resembles(r, 9, 16) {
        "9:16"@
    } else {
        ""@
    }
}

/// Whether two ratios are the same to a twentieth.
fn is_like(ratio: Single, w: u32, h: u32) -> (r: bool)
    requires
        ratio.wf(),
        0 < w < 1000,
        0 < h < 1000,
    ensures
        r == resembles(ratio, w as int, h as int),
{
    ratio.minus(Single::from_ratio(w, h)).abs().lt(Single::from_ratio(5, 100))
}

/// The common name of the aspect ratio of an image.
pub fn format_aspect_ratio(w: usize, h: usize) -> (r: &'static str)
    ensures
        r@ == aspect_name(w as int, h as int),
{
    if h == 0 || w == 0 {
        return "";
    }
    let ratio = Single::from_u64(w as u64).over(Single::from_u64(h as u64));
    if is_like(ratio, 16, 9) {
        "16:9"
    } else if is_like(ratio, 4, 3) {
        "4:3"
    } else if is_like(ratio, 21, 9) || is_like(ratio, 239, 100) {
        "2.39:1"
    } else if is_like(ratio, 1, 1) {
        "1:1"
    } else if is_like(ratio, 9, 16) {
        "9:16"
    } else {
        ""
    }
}

/// `t` is `n / d` to the nearest integer, and from the middle between two the even one.
pub open spec fn is_nearest(t: int, n: int, d: int) -> bool {
    &&& -d <= 2 * (t * d - n) <= d
    &&& 2 * (t * d - n) == d || 2 * (t * d - n) == -d ==> t % 2 == 0
}

/// The text of a size: bytes below 1024, then tenths of units of 1024 and of 1024 times 1024 bytes,
/// then hundredths of units of 1024 times that, each rounded to the nearest.
pub proof fn law_size_text(bytes: int) -> (t: int)
    requires
        0 <= bytes < 0x20_0000_0000_0000,
    ensures
        bytes < 1024 ==> t == bytes && size_text(bytes) == crate::text::decimal(t) + " B"@,
        1024 <= bytes < 1024 * 1024 ==> is_nearest(t, 10 * bytes, 1024) && size_text(bytes)
            == crate::text::decimal(t / 10) + "."@ + crate::text::decimal(t % 10) + " KB"@,
        1024 * 1024 <= bytes < 1024 * 1024 * 1024 ==> is_nearest(t, 10 * bytes, 1024int * 1024)
            && size_text(bytes) == crate::text::decimal(t / 10) + "."@ + crate::text::decimal(
            t % 10,
        ) + " MB"@,
        bytes >= 1024 * 1024 * 1024 ==> is_nearest(t, 100 * bytes, 1024int * 1024 * 1024)
            && size_text(bytes) == crate::text::decimal(t / 100) + "."@ + crate::text::padded(
            t % 100,
            2,
        ) + " GB"@,
{
    vstd::arithmetic::power2::lemma2_to64();
    vstd::arithmetic::power2::lemma_pow2_adds(32, 21);
    crate::single::lemma_bits_le(bytes, 53);
    crate::single::law_half_even(bytes * 100, 0x4000_0000);
    crate::single::law_half_even(bytes * 10, 0x10_0000);
    crate::single::law_half_even(bytes * 10, 0x400);
    if bytes >= 0x4000_0000 {
        crate::single::half_even(bytes * 100, 0x4000_0000)
    } else if bytes >= 0x10_0000 {
        crate::single::half_even(bytes * 10, 0x10_0000)
    } else if bytes >= 0x400 {
        crate::single::half_even(bytes * 10, 0x400)
    } else {
        bytes
    }
}

/// The name of an aspect ratio is that of the first of the common ones that is less than a twentieth
/// away: 16 to 9, 4 to 3, the two cinema ratios, the square, 9 to 16. Without pixels there is none.
pub proof fn law_aspect_names(w: int, h: int)
    ensures
        ({
            let r = crate::single::quotient(
                crate::single::whole_number(w),
                crate::single::whole_number(h),
            );
            let near = |n: int, d: int|
                crate::single::less(
                    crate::single::magnitude(
                        crate::single::difference(r, crate::single::ratio(n, d)),
                    ),
                    crate::single::ratio(5, 100),
                );
            let name = aspect_name(w, h);
            let flat = w == 0 || h == 0;
            let wide = near(16, 9);
            let classic = near(4, 3);
            let cinema = near(21, 9) || near(239, 100);
            &&& flat ==> name == ""@
            &&& !flat && wide ==> name == "16:9"@
            &&& !flat && classic && !wide ==> name == "4:3"@
            &&& !flat && cinema && !wide && !classic ==> name == "2.39:1"@
            &&& !flat && near(1, 1) && !wide && !classic && !cinema ==> name == "1:1"@
            &&& !flat && near(9, 16) && !wide && !classic && !cinema && !near(1, 1) ==> name
                == "9:16"@
            &&& !near(9, 16) && !wide && !classic && !cinema && !near(1, 1) ==> name == ""@
        }),
{
}

/// Timecodes count by one frame a second where the rate is less.
pub proof fn law_slow_timecode(frame: int, fps: Single)
    requires
        crate::single::less(fps, crate::single::whole_number(1)),
    ensures
        timecode(frame, fps) == timecode(frame, crate::single::whole_number(1)),
{
    vstd::arithmetic::power2::lemma2_to64();
    let one = crate::single::whole_number(1);
    assert(1 * crate::single::pow2(0) == 1);
    crate::single::lemma_whole_number(1, 0);
    crate::single::lemma_less_units(one, 1, one, 1, 0);
    assert(counting_rate(fps) == one);
    assert(counting_rate(one) == one);
}

} // verus!
