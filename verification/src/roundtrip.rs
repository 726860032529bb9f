//! Laws relating the encoders and the decoder: an encoded canvas decodes back
//! to exactly the same dimensions and pixels, and a binary payload of the
//! wrong size is always rejected.

use vstd::prelude::*;
use vstd::arithmetic::div_mod::lemma_fundamental_div_mod;
use vstd::arithmetic::div_mod::lemma_fundamental_div_mod_converse;
use crate::canvas::Canvas;
use crate::canvas::Pixel;
use crate::digits::dec_repr;
use crate::digits::is_digit;
use crate::digits::lemma_dec_repr_digits;
use crate::digits::lemma_dec_val_of_repr;
use crate::digits::lemma_div3_range;
use crate::ppm_reader::DecodedHeader;
use crate::ppm_reader::PpmReaderError;
use crate::ppm_reader::PpmVariant;
use crate::ppm_reader::after_sep;
use crate::ppm_reader::header_spec;
use crate::ppm_reader::header_text_spec;
use crate::ppm_reader::decode_binary_spec;
use crate::ppm_reader::decode_spec;
use crate::ppm_reader::decode_text_spec;
use crate::ppm_reader::digit_run_end;
use crate::ppm_reader::good_pixel_token;
use crate::ppm_reader::is_space;
use crate::ppm_reader::lemma_digit_run_end_is;
use crate::ppm_reader::lemma_token_run_end_is;
use crate::ppm_reader::pixels_of_bytes;
use crate::ppm_reader::sat3;
use crate::ppm_reader::text_pixels;
use crate::ppm_reader::tokens_from;
use crate::ppm_writer::bin_header;
use crate::ppm_writer::encode_binary_spec;
use crate::ppm_writer::encode_string_spec;
use crate::ppm_writer::pixel_bytes;
use crate::ppm_writer::pixel_line;
use crate::ppm_writer::text_header;
use crate::ppm_writer::text_pixel_bytes;

verus! {

/// Reading a flat byte sequence back three bytes at a time recovers the
/// pixels it was written from.
pub proof fn lemma_pixels_of_pixel_bytes(ps: Seq<Pixel>)
    ensures
        pixels_of_bytes(pixel_bytes(ps)) == ps,
{
    let pb = pixel_bytes(ps);
    let n = ps.len() as int;
    lemma_fundamental_div_mod_converse(3 * n, 3, n, 0);
    assert(pb.len() == 3 * n);
    assert(pixels_of_bytes(pb).len() == n);
    assert forall|k: int| 0 <= k < n implies pixels_of_bytes(pb)[k] == ps[k] by {
        lemma_div3_range(3 * k, k);
        lemma_div3_range(3 * k + 1, k);
        lemma_div3_range(3 * k + 2, k);
        assert(pb[3 * k] == ps[k].r);
        assert(pb[3 * k + 1] == ps[k].g);
        assert(pb[3 * k + 2] == ps[k].b);
    }
    assert(pixels_of_bytes(pb) =~= ps);
}

/// Where the binary header scan stops on an encoded stream: each digit run is
/// exactly the printed number, each separator one byte, and everything after
/// the final newline is the payload.
#[verifier::rlimit(50)]
proof fn lemma_bin_header_scan(w: nat, h: nat, body: Seq<u8>)
    ensures
        ({
            let s = bin_header(w, h) + body;
            let lw = dec_repr(w).len() as int;
            let lh = dec_repr(h).len() as int;
            let lm = dec_repr(255).len() as int;
            &&& s.len() == 6 + lw + lh + lm + body.len()
            &&& s[0] == 80 && s[1] == 54 && s[2] == 10
            &&& digit_run_end(s, 3) == 3 + lw
            &&& s.subrange(3, 3 + lw) == dec_repr(w)
            &&& after_sep(s, 3 + lw) == 4 + lw
            &&& digit_run_end(s, 4 + lw) == 4 + lw + lh
            &&& s.subrange(4 + lw, 4 + lw + lh) == dec_repr(h)
            &&& after_sep(s, 4 + lw + lh) == 5 + lw + lh
            &&& digit_run_end(s, 5 + lw + lh) == 5 + lw + lh + lm
            &&& s.subrange(5 + lw + lh, 5 + lw + lh + lm) == dec_repr(255)
            &&& after_sep(s, 5 + lw + lh + lm) == 6 + lw + lh + lm
            &&& s.subrange(6 + lw + lh + lm, s.len() as int) == body
        }),
{
    lemma_dec_repr_digits(w);
    lemma_dec_repr_digits(h);
    lemma_dec_repr_digits(255);
    let s = bin_header(w, h) + body;
    let lw = dec_repr(w).len() as int;
    let lh = dec_repr(h).len() as int;
    let lm = dec_repr(255).len() as int;
    assert(s.subrange(3, 3 + lw) =~= dec_repr(w));
    assert(s.subrange(4 + lw, 4 + lw + lh) =~= dec_repr(h));
    assert(s.subrange(5 + lw + lh, 5 + lw + lh + lm) =~= dec_repr(255));
    assert(s.subrange(6 + lw + lh + lm, s.len() as int) =~= body);
    assert(s[3 + lw] == 32 && s[4 + lw + lh] == 10 && s[5 + lw + lh + lm] == 10);
    assert forall|t: int| 3 <= t < 3 + lw implies is_digit(#[trigger] s[t]) by {
        assert(s[t] == dec_repr(w)[t - 3]);
    }
    lemma_digit_run_end_is(s, 3, 3 + lw);
    assert forall|t: int| 4 + lw <= t < 4 + lw + lh implies is_digit(#[trigger] s[t]) by {
        assert(s[t] == dec_repr(h)[t - 4 - lw]);
    }
    lemma_digit_run_end_is(s, 4 + lw, 4 + lw + lh);
    assert forall|t: int| 5 + lw + lh <= t < 5 + lw + lh + lm implies is_digit(
        #[trigger] s[t],
    ) by {
        assert(s[t] == dec_repr(255)[t - 5 - lw - lh]);
    }
    lemma_digit_run_end_is(s, 5 + lw + lh, 5 + lw + lh + lm);
}

/// What the binary decoder makes of a well-formed header followed by an
/// arbitrary payload: the pixels when the size fits, a size mismatch
/// otherwise.
pub proof fn lemma_decode_binary_framed(w: nat, h: nat, body: Seq<u8>)
    requires
        1 <= w <= usize::MAX,
        1 <= h <= usize::MAX,
    ensures
        decode_binary_spec(bin_header(w, h) + body) == (if body.len() != w * h * 3 {
            Err::<(nat, nat, Seq<Pixel>), PpmReaderError>(
                PpmReaderError::SizeMismatch { expected: sat3(w, h), actual: body.len() as usize },
            )
        } else {
            Ok::<(nat, nat, Seq<Pixel>), PpmReaderError>((w, h, pixels_of_bytes(body)))
        }),
{
    lemma_bin_header_scan(w, h, body);
    lemma_dec_val_of_repr(w);
    lemma_dec_val_of_repr(h);
    lemma_dec_val_of_repr(255);
    lemma_dec_repr_digits(w);
    lemma_dec_repr_digits(h);
    lemma_dec_repr_digits(255);
}

/// Round trip, binary variant: decoding `encode_binary(B)` yields exactly
/// `B`'s width, height and pixels, for every well-formed canvas with positive
/// dimensions.
pub proof fn lemma_decode_encode_binary(c: Canvas)
    requires
        c.wf(),
        1 <= c.width,
        1 <= c.height,
    ensures
        decode_spec(encode_binary_spec(c)) == Ok::<(nat, nat, Seq<Pixel>), PpmReaderError>(
            (c.width as nat, c.height as nat, c.data@),
        ),
{
    let w = c.width as nat;
    let h = c.height as nat;
    let body = pixel_bytes(c.data@);
    lemma_bin_header_scan(w, h, body);
    lemma_decode_binary_framed(w, h, body);
    lemma_pixels_of_pixel_bytes(c.data@);
    assert(body.len() == c.data@.len() * 3);
    assert(c.data@.len() == w * h);
    assert((w * h) * 3 == w * h * 3);
    let s = encode_binary_spec(c);
    assert(s[0] == 80 && s[1] == 54 && s.len() >= 2);
}

/// A binary payload whose byte count differs from `width * height * 3` — one
/// byte short, say — is rejected with a size mismatch; no canvas is returned.
pub proof fn lemma_binary_size_mismatch(w: nat, h: nat, body: Seq<u8>)
    requires
        1 <= w <= usize::MAX,
        1 <= h <= usize::MAX,
        body.len() != w * h * 3,
    ensures
        decode_spec(bin_header(w, h) + body) == Err::<(nat, nat, Seq<Pixel>), PpmReaderError>(
            PpmReaderError::SizeMismatch { expected: sat3(w, h), actual: body.len() as usize },
        ),
{
    lemma_bin_header_scan(w, h, body);
    lemma_decode_binary_framed(w, h, body);
    let s = bin_header(w, h) + body;
    assert(s[0] == 80 && s[1] == 54 && s.len() >= 2);
}

/// Idempotence of encoding: each encoder's contract pins its output to a
/// function of the canvas alone, so any two outputs produced from the same
/// canvas — in particular by encoding it twice — are byte-identical.
pub proof fn lemma_encode_idempotent(c: Canvas, b1: Seq<u8>, b2: Seq<u8>, t1: Seq<u8>, t2: Seq<u8>)
    requires
        b1 == encode_binary_spec(c),
        b2 == encode_binary_spec(c),
        t1 == encode_string_spec(c),
        t2 == encode_string_spec(c),
    ensures
        b1 == b2,
        t1 == t2,
{
}

/// Header fidelity, binary variant: the header parsed back from an encoded
/// canvas carries exactly the canvas's width and height (and the fixed
/// maxval 255).
pub proof fn lemma_header_fidelity_binary(c: Canvas)
    requires
        c.wf(),
        1 <= c.width,
        1 <= c.height,
    ensures
        header_spec(encode_binary_spec(c)) == Ok::<DecodedHeader, PpmReaderError>(
            DecodedHeader {
                variant: PpmVariant::Binary,
                width: c.width,
                height: c.height,
                maxval: 255,
            },
        ),
{
    let w = c.width as nat;
    let h = c.height as nat;
    let body = pixel_bytes(c.data@);
    lemma_bin_header_scan(w, h, body);
    lemma_dec_val_of_repr(w);
    lemma_dec_val_of_repr(h);
    lemma_dec_val_of_repr(255);
    lemma_dec_repr_digits(w);
    lemma_dec_repr_digits(h);
    lemma_dec_repr_digits(255);
    let s = encode_binary_spec(c);
    assert(s[0] == 80 && s[1] == 54 && s.len() >= 2);
}

/// The text tokens that one pixel list prints to: the decimal representation
/// of each channel, three tokens per pixel, in order.
pub open spec fn pix_tokens(ps: Seq<Pixel>) -> Seq<Seq<u8>>
    decreases ps.len(),
{
    if ps.len() == 0 {
        Seq::empty()
    } else {
        seq![
            dec_repr(ps.first().r as nat),
            dec_repr(ps.first().g as nat),
            dec_repr(ps.first().b as nat),
        ] + pix_tokens(ps.drop_first())
    }
}

/// The channel value that the `j`-th flat text token denotes.
pub open spec fn pix_channel(ps: Seq<Pixel>, j: int) -> nat {
    if j % 3 == 0 {
        ps[j / 3].r as nat
    } else if j % 3 == 1 {
        ps[j / 3].g as nat
    } else {
        ps[j / 3].b as nat
    }
}

proof fn lemma_pix_tokens_index(ps: Seq<Pixel>)
    ensures
        pix_tokens(ps).len() == 3 * ps.len(),
        forall|j: int|
            0 <= j < 3 * ps.len() ==> #[trigger] pix_tokens(ps)[j] == dec_repr(
                pix_channel(ps, j),
            ),
    decreases ps.len(),
{
    if ps.len() > 0 {
        let rest = ps.drop_first();
        lemma_pix_tokens_index(rest);
        assert forall|j: int| 0 <= j < 3 * ps.len() implies #[trigger] pix_tokens(ps)[j]
            == dec_repr(pix_channel(ps, j)) by {
            if j < 3 {
                lemma_div3_range(j, 0);
            } else {
                assert(pix_tokens(ps)[j] == pix_tokens(rest)[j - 3]);
                assert(pix_tokens(rest)[j - 3] == dec_repr(pix_channel(rest, j - 3)));
                lemma_fundamental_div_mod(j - 3, 3);
                lemma_fundamental_div_mod_converse(j, 3, (j - 3) / 3 + 1, (j - 3) % 3);
                assert(rest[(j - 3) / 3] == ps[j / 3]);
            }
        }
    }
}

/// Splitting a known concatenation back into its two parts, as subranges of
/// the stream it sits in.
proof fn lemma_concat_parts(s: Seq<u8>, i: int, a: Seq<u8>, b: Seq<u8>)
    requires
        0 <= i,
        i + a.len() + b.len() == s.len(),
        s.subrange(i, s.len() as int) == a + b,
    ensures
        s.subrange(i, i + a.len() as int) == a,
        s.subrange(i + a.len(), s.len() as int) == b,
{
    assert forall|t: int| 0 <= t < a.len() implies s.subrange(i, i + a.len() as int)[t]
        == a[t] by {
        assert(s.subrange(i, s.len() as int)[t] == (a + b)[t]);
    }
    assert(s.subrange(i, i + a.len() as int) =~= a);
    assert forall|t: int| 0 <= t < b.len() implies s.subrange(i + a.len(), s.len() as int)[t]
        == b[t] by {
        assert(s.subrange(i + a.len(), s.len() as int)[t] == s[i + a.len() + t]);
        assert(s.subrange(i, s.len() as int)[a.len() + t] == s[i + (a.len() + t)]);
        assert(s.subrange(i, s.len() as int)[a.len() + t] == (a + b)[a.len() + t]);
        assert((a + b)[a.len() + t] == b[t]);
    }
    assert(s.subrange(i + a.len(), s.len() as int) =~= b);
}

/// A whitespace byte in front of the scan position changes nothing.
proof fn lemma_tokens_skip_space(s: Seq<u8>, i: int)
    requires
        0 <= i < s.len(),
        is_space(s[i]),
    ensures
        tokens_from(s, i) == tokens_from(s, i + 1),
{
}

/// One whitespace-terminated token at `[i, j)` is scanned as a whole.
proof fn lemma_tokens_cons(s: Seq<u8>, i: int, j: int)
    requires
        0 <= i < j <= s.len(),
        forall|t: int| i <= t < j ==> !is_space(#[trigger] s[t]),
        j == s.len() || is_space(s[j]),
    ensures
        tokens_from(s, i) == seq![s.subrange(i, j)] + tokens_from(s, j),
{
    lemma_token_run_end_is(s, i, j);
}

/// Digits are never whitespace, so a printed number is one token.
proof fn lemma_repr_token(s: Seq<u8>, i: int, n: nat)
    requires
        0 <= i,
        i + dec_repr(n).len() <= s.len(),
        s.subrange(i, i + dec_repr(n).len() as int) == dec_repr(n),
        i + dec_repr(n).len() == s.len() || is_space(s[i + dec_repr(n).len()]),
    ensures
        tokens_from(s, i) == seq![dec_repr(n)] + tokens_from(s, i + dec_repr(n).len() as int),
{
    lemma_dec_repr_digits(n);
    let j = i + dec_repr(n).len() as int;
    assert forall|t: int| i <= t < j implies !is_space(#[trigger] s[t]) by {
        assert(s[t] == dec_repr(n)[t - i]);
        assert(is_digit(s[t]));
    }
    lemma_tokens_cons(s, i, j);
}

/// One printed pixel line in front of a stream, reassociated so that it can
/// be peeled apart one token and one separator at a time.
proof fn lemma_pixel_line_shape(p: Pixel, rest: Seq<u8>)
    ensures
        pixel_line(p) + rest == dec_repr(p.r as nat) + (seq![32u8] + (dec_repr(p.g as nat) + (seq![
            32u8,
        ] + (dec_repr(p.b as nat) + (seq![10u8] + rest))))),
{
    assert(pixel_line(p) + rest =~= dec_repr(p.r as nat) + (seq![32u8] + (dec_repr(p.g as nat)
        + (seq![32u8] + (dec_repr(p.b as nat) + (seq![10u8] + rest))))));
}

/// Tokenizing the printed pixel lines yields exactly the flat channel tokens.
#[verifier::rlimit(50)]
proof fn lemma_text_tokens_suffix(s: Seq<u8>, i: int, ps: Seq<Pixel>)
    requires
        0 <= i <= s.len(),
        s.subrange(i, s.len() as int) == text_pixel_bytes(ps),
    ensures
        tokens_from(s, i) == pix_tokens(ps),
    decreases ps.len(),
{
    if ps.len() == 0 {
        assert(s.subrange(i, s.len() as int).len() == 0);
        assert(tokens_from(s, i) =~= pix_tokens(ps));
    } else {
        let p = ps.first();
        let rest = ps.drop_first();
        let dr = dec_repr(p.r as nat);
        let dg = dec_repr(p.g as nat);
        let db = dec_repr(p.b as nat);
        let lr = dr.len() as int;
        let lg = dg.len() as int;
        let lb = db.len() as int;
        lemma_dec_repr_digits(p.r as nat);
        lemma_dec_repr_digits(p.g as nat);
        lemma_dec_repr_digits(p.b as nat);
        let sp = seq![32u8];
        let nl = seq![10u8];
        let tail = text_pixel_bytes(rest);
        // peel the line apart, one separator and one number at a time
        assert(text_pixel_bytes(ps) == pixel_line(p) + tail);
        lemma_pixel_line_shape(p, tail);
        lemma_concat_parts(s, i, dr, sp + (dg + (sp + (db + (nl + tail)))));
        lemma_concat_parts(s, i + lr, sp, dg + (sp + (db + (nl + tail))));
        lemma_concat_parts(s, i + lr + 1, dg, sp + (db + (nl + tail)));
        lemma_concat_parts(s, i + lr + 1 + lg, sp, db + (nl + tail));
        lemma_concat_parts(s, i + lr + 1 + lg + 1, db, nl + tail);
        lemma_concat_parts(s, i + lr + 1 + lg + 1 + lb, nl, tail);
        assert(s.subrange(i + lr, i + lr + 1)[0] == 32);
        assert(s[i + lr] == 32);
        assert(s.subrange(i + lr + 1 + lg, i + lr + 1 + lg + 1)[0] == 32);
        assert(s[i + lr + 1 + lg] == 32);
        assert(s.subrange(i + lr + 1 + lg + 1 + lb, i + lr + 1 + lg + 1 + lb + 1)[0] == 10);
        assert(s[i + lr + 1 + lg + 1 + lb] == 10);
        lemma_repr_token(s, i, p.r as nat);
        lemma_repr_token(s, i + lr + 1, p.g as nat);
        lemma_repr_token(s, i + lr + 1 + lg + 1, p.b as nat);
        lemma_tokens_skip_space(s, i + lr);
        lemma_tokens_skip_space(s, i + lr + 1 + lg);
        lemma_tokens_skip_space(s, i + lr + 1 + lg + 1 + lb);
        // after the line, the remaining bytes are the remaining pixels' lines
        lemma_text_tokens_suffix(s, i + lr + 1 + lg + 1 + lb + 1, rest);
        assert(tokens_from(s, i) =~= pix_tokens(ps));
    }
}

/// The encoded text stream, reassociated so that it can be peeled apart one
/// token and one separator at a time.
proof fn lemma_text_stream_shape(w: nat, h: nat, ps: Seq<Pixel>)
    ensures
        text_header(w, h) + text_pixel_bytes(ps) == seq![80u8, 51u8] + (seq![10u8] + (dec_repr(w)
            + (seq![32u8] + (dec_repr(h) + (seq![10u8] + (dec_repr(255) + (seq![10u8]
            + text_pixel_bytes(ps)))))))),
{
    assert(text_header(w, h) + text_pixel_bytes(ps) =~= seq![80u8, 51u8] + (seq![10u8] + (dec_repr(
        w,
    ) + (seq![32u8] + (dec_repr(h) + (seq![10u8] + (dec_repr(255) + (seq![10u8]
        + text_pixel_bytes(ps)))))))));
}

/// The byte layout of an encoded text stream: where the magic token, the
/// three printed header numbers, their separators and the pixel lines sit.
#[verifier::rlimit(50)]
proof fn lemma_text_header_layout(w: nat, h: nat, ps: Seq<Pixel>)
    ensures
        ({
            let s = text_header(w, h) + text_pixel_bytes(ps);
            let lw = dec_repr(w).len() as int;
            let lh = dec_repr(h).len() as int;
            let lm = dec_repr(255).len() as int;
            &&& s.len() == 6 + lw + lh + lm + text_pixel_bytes(ps).len()
            &&& s[0] == 80 && s[1] == 51 && s[2] == 10
            &&& s.subrange(3, 3 + lw) == dec_repr(w)
            &&& s[3 + lw] == 32
            &&& s.subrange(4 + lw, 4 + lw + lh) == dec_repr(h)
            &&& s[4 + lw + lh] == 10
            &&& s.subrange(5 + lw + lh, 5 + lw + lh + lm) == dec_repr(255)
            &&& s[5 + lw + lh + lm] == 10
            &&& s.subrange(6 + lw + lh + lm, s.len() as int) == text_pixel_bytes(ps)
        }),
{
    let s = text_header(w, h) + text_pixel_bytes(ps);
    let dw = dec_repr(w);
    let dh = dec_repr(h);
    let dm = dec_repr(255);
    let lw = dw.len() as int;
    let lh = dh.len() as int;
    let lm = dm.len() as int;
    let m2 = seq![80u8, 51u8];
    let sp = seq![32u8];
    let nl = seq![10u8];
    let tail = text_pixel_bytes(ps);
    lemma_text_stream_shape(w, h, ps);
    assert(s.subrange(0, s.len() as int) =~= s);
    lemma_concat_parts(s, 0, m2, nl + (dw + (sp + (dh + (nl + (dm + (nl + tail)))))));
    lemma_concat_parts(s, 2, nl, dw + (sp + (dh + (nl + (dm + (nl + tail))))));
    lemma_concat_parts(s, 3, dw, sp + (dh + (nl + (dm + (nl + tail)))));
    lemma_concat_parts(s, 3 + lw, sp, dh + (nl + (dm + (nl + tail))));
    lemma_concat_parts(s, 4 + lw, dh, nl + (dm + (nl + tail)));
    lemma_concat_parts(s, 4 + lw + lh, nl, dm + (nl + tail));
    lemma_concat_parts(s, 5 + lw + lh, dm, nl + tail);
    lemma_concat_parts(s, 5 + lw + lh + lm, nl, tail);
    assert(s.subrange(0, 2)[0] == 80 && s.subrange(0, 2)[1] == 51);
    assert(s.subrange(2, 3)[0] == 10);
    assert(s.subrange(3 + lw, 3 + lw + 1)[0] == 32);
    assert(s.subrange(4 + lw + lh, 4 + lw + lh + 1)[0] == 10);
    assert(s.subrange(5 + lw + lh + lm, 5 + lw + lh + lm + 1)[0] == 10);
}

/// Where the text tokenizer splits an encoded stream: the magic token, the
/// three printed header numbers, then the flat channel tokens.
#[verifier::rlimit(50)]
proof fn lemma_text_header_tokens(w: nat, h: nat, ps: Seq<Pixel>)
    ensures
        ({
            let s = text_header(w, h) + text_pixel_bytes(ps);
            tokens_from(s, 0) == seq![
                seq![80u8, 51u8],
                dec_repr(w),
                dec_repr(h),
                dec_repr(255),
            ] + pix_tokens(ps)
        }),
{
    lemma_dec_repr_digits(w);
    lemma_dec_repr_digits(h);
    lemma_dec_repr_digits(255);
    let s = text_header(w, h) + text_pixel_bytes(ps);
    let lw = dec_repr(w).len() as int;
    let lh = dec_repr(h).len() as int;
    let lm = dec_repr(255).len() as int;
    lemma_text_header_layout(w, h, ps);
    assert(s.subrange(0, 2) =~= seq![80u8, 51u8]);
    assert forall|t: int| 0 <= t < 2 implies !is_space(#[trigger] s[t]) by {}
    lemma_tokens_cons(s, 0, 2);
    lemma_tokens_skip_space(s, 2);
    lemma_repr_token(s, 3, w);
    lemma_tokens_skip_space(s, 3 + lw);
    lemma_repr_token(s, 4 + lw, h);
    lemma_tokens_skip_space(s, 4 + lw + lh);
    lemma_repr_token(s, 5 + lw + lh, 255);
    lemma_tokens_skip_space(s, 5 + lw + lh + lm);
    lemma_text_tokens_suffix(s, 6 + lw + lh + lm, ps);
    assert(tokens_from(s, 0) =~= seq![seq![80u8, 51u8], dec_repr(w), dec_repr(h), dec_repr(255)]
        + pix_tokens(ps));
}

/// Round trip, text variant: decoding `encode_string(B)` yields exactly `B`'s
/// width, height and pixels, for every well-formed canvas with positive
/// dimensions.
pub proof fn lemma_decode_encode_string(c: Canvas)
    requires
        c.wf(),
        1 <= c.width,
        1 <= c.height,
    ensures
        decode_spec(encode_string_spec(c)) == Ok::<(nat, nat, Seq<Pixel>), PpmReaderError>(
            (c.width as nat, c.height as nat, c.data@),
        ),
{
    let w = c.width as nat;
    let h = c.height as nat;
    let data = c.data@;
    let s = encode_string_spec(c);
    lemma_text_header_tokens(w, h, data);
    lemma_pix_tokens_index(data);
    lemma_dec_val_of_repr(w);
    lemma_dec_val_of_repr(h);
    lemma_dec_val_of_repr(255);
    lemma_dec_repr_digits(w);
    lemma_dec_repr_digits(h);
    lemma_dec_repr_digits(255);
    let toks = tokens_from(s, 0);
    let pt = toks.skip(4);
    assert(pt =~= pix_tokens(data));
    assert(pt.len() == 3 * data.len());
    assert(data.len() == w * h);
    assert(3 * (w * h) == w * h * 3) by (nonlinear_arith);
    assert forall|j: int| 0 <= j < pt.len() implies good_pixel_token(#[trigger] pt[j]) by {
        assert(pt[j] == pix_tokens(data)[j]);
        assert(pix_tokens(data)[j] == dec_repr(pix_channel(data, j)));
        lemma_dec_val_of_repr(pix_channel(data, j));
        lemma_dec_repr_digits(pix_channel(data, j));
        assert(pix_channel(data, j) <= 255);
    }
    assert(text_pixels(pt, w * h) =~= data) by {
        assert forall|k: int| 0 <= k < data.len() implies text_pixels(pt, w * h)[k] == data[k] by {
            lemma_div3_range(3 * k, k);
            lemma_div3_range(3 * k + 1, k);
            lemma_div3_range(3 * k + 2, k);
            assert(pt[3 * k] == dec_repr(pix_channel(data, 3 * k)));
            assert(pt[3 * k + 1] == dec_repr(pix_channel(data, 3 * k + 1)));
            assert(pt[3 * k + 2] == dec_repr(pix_channel(data, 3 * k + 2)));
            lemma_dec_val_of_repr(data[k].r as nat);
            lemma_dec_val_of_repr(data[k].g as nat);
            lemma_dec_val_of_repr(data[k].b as nat);
        }
    }
    assert(s[0] == 80 && s[1] == 51 && s.len() >= 2);
    assert(decode_text_spec(s) == Ok::<(nat, nat, Seq<Pixel>), PpmReaderError>((w, h, data)));
}

/// Header fidelity, text variant: the header parsed back from an encoded
/// canvas carries exactly the canvas's width and height (and the fixed
/// maxval 255).
pub proof fn lemma_header_fidelity_text(c: Canvas)
    requires
        c.wf(),
        1 <= c.width,
        1 <= c.height,
    ensures
        header_spec(encode_string_spec(c)) == Ok::<DecodedHeader, PpmReaderError>(
            DecodedHeader {
                variant: PpmVariant::Text,
                width: c.width,
                height: c.height,
                maxval: 255,
            },
        ),
{
    let w = c.width as nat;
    let h = c.height as nat;
    let data = c.data@;
    let s = encode_string_spec(c);
    lemma_text_header_tokens(w, h, data);
    lemma_pix_tokens_index(data);
    lemma_dec_val_of_repr(w);
    lemma_dec_val_of_repr(h);
    lemma_dec_val_of_repr(255);
    lemma_dec_repr_digits(w);
    lemma_dec_repr_digits(h);
    lemma_dec_repr_digits(255);
    let toks = tokens_from(s, 0);
    assert(toks[1] == dec_repr(w) && toks[2] == dec_repr(h) && toks[3] == dec_repr(255));
    assert(s[0] == 80 && s[1] == 51 && s.len() >= 2);
    assert(header_text_spec(s) == Ok::<DecodedHeader, PpmReaderError>(
        DecodedHeader { variant: PpmVariant::Text, width: c.width, height: c.height, maxval: 255 },
    ));
}

} // verus!
