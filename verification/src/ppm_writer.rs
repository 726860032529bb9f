//! Encoding of a [`Canvas`] into PPM byte streams: the binary (`P6`) and the
//! ASCII (`P3`) variant. Both write the header as ASCII text; the binary body
//! is the raw channel bytes with no padding or escaping, the text body is one
//! `"R G B\n"` line per pixel.

use vstd::prelude::*;
use crate::canvas::Canvas;
use crate::canvas::Pixel;
use crate::digits::dec_repr;
use crate::digits::lemma_div3_range;
use crate::digits::push_dec;

verus! {

/// The flat byte sequence of the pixels: three raw channel bytes per pixel,
/// row-major, channel order red, green, blue.
pub open spec fn pixel_bytes(ps: Seq<Pixel>) -> Seq<u8> {
    Seq::new(
        ps.len() * 3,
        |i: int|
            if i % 3 == 0 {
                ps[i / 3].r
            } else if i % 3 == 1 {
                ps[i / 3].g
            } else {
                ps[i / 3].b
            },
    )
}

/// The ASCII header of the binary variant: `"P6\n{w} {h}\n255\n"`.
pub open spec fn bin_header(w: nat, h: nat) -> Seq<u8> {
    seq![80u8, 54u8, 10u8] + dec_repr(w) + seq![32u8] + dec_repr(h) + seq![10u8] + dec_repr(255)
        + seq![10u8]
}

/// The whole binary encoding of a canvas: header, then raw pixel bytes.
pub open spec fn encode_binary_spec(c: Canvas) -> Seq<u8> {
    bin_header(c.width as nat, c.height as nat) + pixel_bytes(c.data@)
}

/// One text pixel line: `"{r} {g} {b}\n"`, decimal with no leading zeros.
pub open spec fn pixel_line(p: Pixel) -> Seq<u8> {
    dec_repr(p.r as nat) + seq![32u8] + dec_repr(p.g as nat) + seq![32u8] + dec_repr(p.b as nat)
        + seq![10u8]
}

/// The text body: the pixel lines in row-major order.
pub open spec fn text_pixel_bytes(ps: Seq<Pixel>) -> Seq<u8>
    decreases ps.len(),
{
    if ps.len() == 0 {
        Seq::empty()
    } else {
        pixel_line(ps.first()) + text_pixel_bytes(ps.drop_first())
    }
}

/// The ASCII header of the text variant: `"P3\n{w} {h}\n255\n"`.
pub open spec fn text_header(w: nat, h: nat) -> Seq<u8> {
    seq![80u8, 51u8, 10u8] + dec_repr(w) + seq![32u8] + dec_repr(h) + seq![10u8] + dec_repr(255)
        + seq![10u8]
}

/// The whole text encoding of a canvas: header, then one line per pixel.
pub open spec fn encode_string_spec(c: Canvas) -> Seq<u8> {
    text_header(c.width as nat, c.height as nat) + text_pixel_bytes(c.data@)
}

/// Appending one pixel appends its three raw bytes.
pub proof fn lemma_pixel_bytes_push(ps: Seq<Pixel>, p: Pixel)
    ensures
        pixel_bytes(ps.push(p)) == pixel_bytes(ps) + seq![p.r, p.g, p.b],
{
    let n = ps.len() as int;
    let lhs = pixel_bytes(ps.push(p));
    let rhs = pixel_bytes(ps) + seq![p.r, p.g, p.b];
    assert forall|i: int| 0 <= i < lhs.len() implies lhs[i] == rhs[i] by {
        lemma_div3_range(i, n);
        if i < 3 * n {
            assert(ps.push(p)[i / 3] == ps[i / 3]);
        }
    }
    assert(lhs =~= rhs);
}

/// Appending one pixel appends its line.
pub proof fn lemma_text_pixel_bytes_push(ps: Seq<Pixel>, p: Pixel)
    ensures
        text_pixel_bytes(ps.push(p)) == text_pixel_bytes(ps) + pixel_line(p),
    decreases ps.len(),
{
    if ps.len() == 0 {
        assert(ps.push(p).drop_first() =~= Seq::<Pixel>::empty());
        assert(ps.push(p).first() == p);
        assert(text_pixel_bytes(Seq::<Pixel>::empty()) == Seq::<u8>::empty());
        assert(text_pixel_bytes(ps.push(p)) == pixel_line(p) + Seq::<u8>::empty());
        assert(text_pixel_bytes(ps.push(p)) =~= text_pixel_bytes(ps) + pixel_line(p));
    } else {
        lemma_text_pixel_bytes_push(ps.drop_first(), p);
        assert(ps.push(p).drop_first() =~= ps.drop_first().push(p));
        assert(ps.push(p).first() == ps.first());
        assert(pixel_line(ps.first()) + (text_pixel_bytes(ps.drop_first()) + pixel_line(p)) =~= (
        pixel_line(ps.first()) + text_pixel_bytes(ps.drop_first())) + pixel_line(p));
    }
}

/// Encodes a canvas as binary (`P6`) PPM: the ASCII header
/// `"P6\n{width} {height}\n255\n"` followed by the raw bytes of every pixel's
/// channels in row-major order. The output is a function of the canvas alone,
/// pinned down exactly by [`encode_binary_spec`].
#[verifier::loop_isolation(false)]
pub fn encode_binary(c: &Canvas) -> (out: Vec<u8>)
    ensures
        out@ == encode_binary_spec(*c),
{
    let mut out: Vec<u8> = Vec::new();
    out.push(80);
    out.push(54);
    out.push(10);
    push_dec(&mut out, c.width);
    out.push(32);
    push_dec(&mut out, c.height);
    out.push(10);
    push_dec(&mut out, 255);
    out.push(10);
    let ghost hdr = bin_header(c.width as nat, c.height as nat);
    proof {
        assert(out@ =~= hdr);
        assert(pixel_bytes(c.data@.take(0)) =~= Seq::<u8>::empty());
        assert(out@ =~= hdr + pixel_bytes(c.data@.take(0)));
    }
    let mut k: usize = 0;
    while k < c.data.len()
        invariant
            k <= c.data@.len(),
            out@ == hdr + pixel_bytes(c.data@.take(k as int)),
        decreases c.data@.len() - k,
    {
        let p = c.data[k];
        out.push(p.r);
        out.push(p.g);
        out.push(p.b);
        proof {
            lemma_pixel_bytes_push(c.data@.take(k as int), p);
            assert(c.data@.take(k as int).push(p) =~= c.data@.take(k as int + 1));
            assert(out@ =~= hdr + pixel_bytes(c.data@.take(k as int + 1)));
        }
        k = k + 1;
    }
    proof {
        assert(c.data@.take(c.data@.len() as int) =~= c.data@);
    }
    out
}

/// Encodes a canvas as text (`P3`) PPM: the ASCII header
/// `"P3\n{width} {height}\n255\n"` followed by one `"{r} {g} {b}\n"` line per
/// pixel, row-major. The output is a function of the canvas alone, pinned
/// down exactly by [`encode_string_spec`].
#[verifier::loop_isolation(false)]
pub fn encode_string(c: &Canvas) -> (out: Vec<u8>)
    ensures
        out@ == encode_string_spec(*c),
{
    let mut out: Vec<u8> = Vec::new();
    out.push(80);
    out.push(51);
    out.push(10);
    push_dec(&mut out, c.width);
    out.push(32);
    push_dec(&mut out, c.height);
    out.push(10);
    push_dec(&mut out, 255);
    out.push(10);
    let ghost hdr = text_header(c.width as nat, c.height as nat);
    proof {
        assert(out@ =~= hdr);
        assert(out@ =~= hdr + text_pixel_bytes(c.data@.take(0)));
    }
    let mut k: usize = 0;
    while k < c.data.len()
        invariant
            k <= c.data@.len(),
            out@ == hdr + text_pixel_bytes(c.data@.take(k as int)),
        decreases c.data@.len() - k,
    {
        let p = c.data[k];
        push_dec(&mut out, p.r as usize);
        out.push(32);
        push_dec(&mut out, p.g as usize);
        out.push(32);
        push_dec(&mut out, p.b as usize);
        out.push(10);
        proof {
            lemma_text_pixel_bytes_push(c.data@.take(k as int), p);
            assert(c.data@.take(k as int).push(p) =~= c.data@.take(k as int + 1));
            assert(out@ =~= hdr + text_pixel_bytes(c.data@.take(k as int + 1)));
        }
        k = k + 1;
    }
    proof {
        assert(c.data@.take(c.data@.len() as int) =~= c.data@);
    }
    out
}

} // verus!
