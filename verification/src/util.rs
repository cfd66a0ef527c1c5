//! Colors and the per-channel linear mixer.

use vstd::prelude::*;
use vstd::arithmetic::div_mod::{lemma_div_is_ordered, lemma_div_multiples_vanish};
use vstd::arithmetic::mul::lemma_mul_inequality;

verus! {

/// One pixel value: an ordered list of 8-bit channels (for example RGBA).
#[derive(Debug, Clone)]
pub struct Color {
    pub channels: Vec<u8>,
}

impl View for Color {
    type V = Seq<u8>;

    open spec fn view(&self) -> Seq<u8> {
        self.channels@
    }
}

impl Color {
    pub fn new(channels: Vec<u8>) -> (r: Color)
        ensures
            r@ == channels@,
    {
        Color { channels }
    }

    /// The number of channels.
    pub fn len(&self) -> (r: usize)
        ensures
            r == self@.len(),
    {
        self.channels.len()
    }

    /// The value of one channel.
    pub fn get(&self, i: usize) -> (r: u8)
        requires
            i < self@.len(),
        ensures
            r == self@[i as int],
    {
        self.channels[i]
    }

    /// A fresh color with the same channel values.
    pub fn duplicate(&self) -> (r: Color)
        ensures
            r@ == self@,
    {
        let mut out: Vec<u8> = Vec::new();
        let n = self.channels.len();
        let mut i: usize = 0;
        while i < n
            invariant
                n == self.channels@.len(),
                i <= n,
                out@ =~= self.channels@.take(i as int),
            decreases n - i,
        {
            out.push(self.channels[i]);
            assert(out@ =~= self.channels@.take(i + 1));
            i += 1;
        }
        assert(out@ =~= self.channels@);
        Color { channels: out }
    }
}

/// Integer division truncating toward zero, as the host division of signed
/// machine integers does.
pub open spec fn trunc_div(a: int, b: int) -> int {
    if a >= 0 {
        a / b
    } else {
        -((-a) / b)
    }
}

/// An out-of-range channel value saturates at the ends of the 8-bit range,
/// the way a host float-to-u8 cast would.
pub open spec fn clamp_channel(v: int) -> u8 {
    if v < 0 {
        0u8
    } else if v > 255 {
        255u8
    } else {
        v as u8
    }
}

/// One mixed channel: the whole value `c1 + (c2 - c1) * num / den`,
/// truncated toward zero and saturated to the 8-bit range.  `num / den` is
/// the blend position.  Over the common denominator the value is
/// `(c1 * den + (c2 - c1) * num) / den`.
pub open spec fn mix_channel(c1: u8, c2: u8, num: u64, den: u64) -> u8 {
    clamp_channel(trunc_div(c1 * den + (c2 - c1) * (num as int), den as int))
}

/// All channels mixed at the same blend position.
pub open spec fn mix_colors(c1: Seq<u8>, c2: Seq<u8>, num: u64, den: u64) -> Seq<u8> {
    Seq::new(c1.len(), |i: int| mix_channel(c1[i], c2[i], num, den))
}

/// One mixed channel, computed exactly.
pub fn mix_channel_exec(c1: u8, c2: u8, num: u64, den: u64) -> (r: u8)
    requires
        den > 0,
    ensures
        r == mix_channel(c1, c2, num, den),
{
    proof {
        assert((c1 as int) * (den as int) <= 255 * (den as int)) by (nonlinear_arith)
            requires c1 <= 255, den >= 0;
        assert((c1 as int) * (den as int) >= 0) by (nonlinear_arith)
            requires c1 >= 0, den >= 0;
    }
    let base: u128 = (c1 as u128) * (den as u128);
    if c2 >= c1 {
        let diff: u128 = (c2 - c1) as u128;
        assert(diff * (num as u128) <= 255 * (num as u128)) by (nonlinear_arith)
            requires diff <= 255;
        let numerator: u128 = base + diff * (num as u128);
        let q: u128 = numerator / (den as u128);
        proof {
            assert(numerator as int == c1 * den + (c2 - c1) * (num as int));
            lemma_div_is_ordered(0, numerator as int, den as int);
        }
        if q > 255 {
            255u8
        } else {
            q as u8
        }
    } else {
        let diff: u128 = (c1 - c2) as u128;
        assert(diff * (num as u128) <= 255 * (num as u128)) by (nonlinear_arith)
            requires diff <= 255;
        let sub: u128 = diff * (num as u128);
        proof {
            assert((c2 - c1) * (num as int) == -(sub as int)) by (nonlinear_arith)
                requires sub == (c1 - c2) * (num as int), c2 < c1;
        }
        if sub >= base {
            // the whole value is at most zero, so it saturates at zero
            proof {
                let numerator = c1 * den + (c2 - c1) * (num as int);
                assert(numerator == base - sub);
                if numerator < 0 {
                    lemma_div_is_ordered(0, -numerator, den as int);
                }
            }
            0u8
        } else {
            let q: u128 = (base - sub) / (den as u128);
            proof {
                assert((base - sub) as int == c1 * den + (c2 - c1) * (num as int));
                lemma_div_is_ordered(0, (base - sub) as int, den as int);
            }
            if q > 255 {
                255u8
            } else {
                q as u8
            }
        }
    }
}

/// Interpolates linearly, channel by channel, between two colors of the
/// same channel count.
pub struct Mixer {
    pub color1: Color,
    pub color2: Color,
}

impl Mixer {
    pub fn new(color1: &Color, color2: &Color) -> (r: Mixer)
        ensures
            r.color1@ == color1@,
            r.color2@ == color2@,
    {
        Mixer { color1: color1.duplicate(), color2: color2.duplicate() }
    }

    /// The color at blend position `num / den`: position 0 is the first
    /// color, position 1 (`num == den`) the second, and positions in
    /// between interpolate each channel.
    pub fn at(&self, num: u64, den: u64) -> (r: Color)
        requires
            den > 0,
            self.color1@.len() == self.color2@.len(),
        ensures
            r@ == mix_colors(self.color1@, self.color2@, num, den),
    {
        let mut out: Vec<u8> = Vec::new();
        let n = self.color1.channels.len();
        let mut i: usize = 0;
        while i < n
            invariant
                den > 0,
                n == self.color1@.len(),
                n == self.color2@.len(),
                i <= n,
                out@ =~= mix_colors(self.color1@, self.color2@, num, den).take(i as int),
            decreases n - i,
        {
            let c = mix_channel_exec(self.color1.channels[i], self.color2.channels[i], num, den);
            out.push(c);
            assert(out@ =~= mix_colors(self.color1@, self.color2@, num, den).take(i + 1));
            i += 1;
        }
        assert(out@ =~= mix_colors(self.color1@, self.color2@, num, den));
        Color { channels: out }
    }
}

/// Blending at position 0 returns the first color and blending at
/// position 1 returns the second, channel for channel.
pub proof fn lemma_mix_boundary(c1: Seq<u8>, c2: Seq<u8>, den: u64)
    requires
        den > 0,
        c1.len() == c2.len(),
    ensures
        mix_colors(c1, c2, 0, den) =~= c1,
        mix_colors(c1, c2, den, den) =~= c2,
{
    assert forall|i: int| 0 <= i < c1.len() implies mix_colors(c1, c2, 0, den)[i] == c1[i] by {
        let a = c1[i] as int;
        let b = c2[i] as int;
        assert((b - a) * 0 == 0) by (nonlinear_arith);
        lemma_div_multiples_vanish(a, den as int);
        assert(a * (den as int) == (den as int) * a) by (nonlinear_arith);
        assert(a * (den as int) >= 0) by (nonlinear_arith)
            requires a >= 0, den >= 0;
        assert(trunc_div(a * (den as int) + 0, den as int) == a);
        assert(clamp_channel(a) == c1[i]);
    }
    assert forall|i: int| 0 <= i < c1.len() implies mix_colors(c1, c2, den, den)[i] == c2[i] by {
        let a = c1[i] as int;
        let b = c2[i] as int;
        assert(a * (den as int) + (b - a) * (den as int) == b * (den as int)) by (nonlinear_arith);
        lemma_div_multiples_vanish(b, den as int);
        assert(b * (den as int) == (den as int) * b) by (nonlinear_arith);
        assert(b * (den as int) >= 0) by (nonlinear_arith)
            requires b >= 0, den >= 0;
        assert(trunc_div(b * (den as int), den as int) == b);
        assert(clamp_channel(b) == c2[i]);
    }
}

/// For a blend position between 0 and 1, the mixed channel lies between the
/// two input channels, whichever of them is the smaller.
pub proof fn lemma_mix_between(c1: u8, c2: u8, num: u64, den: u64)
    requires
        den > 0,
        num <= den,
    ensures
        c1 <= c2 ==> c1 <= mix_channel(c1, c2, num, den) <= c2,
        c2 <= c1 ==> c2 <= mix_channel(c1, c2, num, den) <= c1,
{
    let a = c1 as int;
    let b = c2 as int;
    let dn = den as int;
    lemma_div_multiples_vanish(a, dn);
    lemma_div_multiples_vanish(b, dn);
    assert(a * dn == dn * a && b * dn == dn * b) by (nonlinear_arith);
    assert(a * dn >= 0 && b * dn >= 0) by (nonlinear_arith)
        requires a >= 0, b >= 0, dn >= 0;
    if b >= a {
        let d = b - a;
        lemma_mul_inequality(num as int, den as int, d);
        assert(d * (num as int) == (num as int) * d) by (nonlinear_arith);
        assert(d * (den as int) == (den as int) * d) by (nonlinear_arith);
        assert(d * (num as int) >= 0) by (nonlinear_arith)
            requires d >= 0;
        assert(a * dn + d * dn == b * dn) by (nonlinear_arith)
            requires d == b - a;
        let numerator = a * dn + d * (num as int);
        lemma_div_is_ordered(a * dn, numerator, dn);
        lemma_div_is_ordered(numerator, b * dn, dn);
        assert(trunc_div(numerator, dn) == numerator / dn);
    } else {
        let d = a - b;
        lemma_mul_inequality(num as int, den as int, d);
        assert(d * (num as int) == (num as int) * d) by (nonlinear_arith);
        assert(d * (den as int) == (den as int) * d) by (nonlinear_arith);
        assert(d * (num as int) >= 0) by (nonlinear_arith)
            requires d >= 0;
        assert((b - a) * (num as int) == -(d * (num as int))) by (nonlinear_arith)
            requires d == a - b;
        assert(a * dn - d * dn == b * dn) by (nonlinear_arith)
            requires d == a - b;
        let numerator = a * dn - d * (num as int);
        lemma_div_is_ordered(b * dn, numerator, dn);
        lemma_div_is_ordered(numerator, a * dn, dn);
        assert(trunc_div(numerator, dn) == numerator / dn);
    }
}

} // verus!
