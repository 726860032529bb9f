//! Decoding of PPM byte streams into a [`Canvas`].
//!
//! The two variants share only the magic-token read. The binary (`P6`) header
//! is scanned digit-run by digit-run, because the pixel bytes that follow are
//! raw and may look like whitespace; the text (`P3`) stream is tokenized
//! uniformly on spaces and newlines.

use vstd::prelude::*;
use vstd::pervasive::VecAdditionalExecFns;
use vstd::arithmetic::div_mod::lemma_fundamental_div_mod;
use vstd::arithmetic::div_mod::lemma_fundamental_div_mod_converse;
use crate::canvas::Canvas;
use crate::canvas::Pixel;
use crate::digits::all_digits;
use crate::digits::dec_val;
use crate::digits::is_digit;
use crate::digits::parse_dec;

verus! {

/// Everything that can go wrong while decoding a PPM byte stream, or while
/// accessing a canvas out of bounds.
#[derive(Clone, Copy, Debug, PartialEq, Eq, Structural)]
pub enum PpmReaderError {
    /// The input source does not exist; detected by the caller that owns the
    /// file system, before any parsing is attempted.
    SourceNotFound,
    /// The magic token is neither `P6` nor `P3`.
    UnrecognizedFormat,
    /// A header token is missing, does not parse as an unsigned integer that
    /// fits the machine, or declares a zero dimension.
    MalformedHeader,
    /// The payload holds a different number of decodable units (raw bytes for
    /// the binary variant, integer tokens for the text variant) than the
    /// declared dimensions require. `expected` is `width * height * 3`,
    /// saturated at `usize::MAX`; `actual` is the unit count found.
    SizeMismatch { expected: usize, actual: usize },
    /// Fewer pixel bytes than required were handed to the binary pixel
    /// decoder directly, bypassing size validation.
    TruncatedData,
    /// A text-variant pixel token is non-numeric or out of the 0..=255 range.
    InvalidPixelValue,
    /// A row/column accessor was asked for a cell outside the buffer.
    BoundsError,
}

/// The two PPM encodings that the magic token can declare.
#[derive(Clone, Copy, Debug, PartialEq, Eq, Structural)]
pub enum PpmVariant {
    /// `P6`: raw channel bytes after the header.
    Binary,
    /// `P3`: whitespace-separated decimal tokens after the header.
    Text,
}

/// The transient result of parsing a PPM header: the declared variant,
/// dimensions and maxval. The maxval is surfaced, not policed — whether a
/// value other than 255 is acceptable is the caller's policy.
#[derive(Clone, Copy, Debug, PartialEq, Eq, Structural)]
pub struct DecodedHeader {
    pub variant: PpmVariant,
    pub width: usize,
    pub height: usize,
    pub maxval: usize,
}

/// The two whitespace bytes that separate text-variant tokens.
pub open spec fn is_space(b: u8) -> bool {
    b == 32 || b == 10
}

/// First position at or after `i` that does not hold an ASCII digit.
pub open spec fn digit_run_end(s: Seq<u8>, i: int) -> int
    decreases s.len() - i,
{
    if 0 <= i < s.len() && is_digit(s[i]) {
        digit_run_end(s, i + 1)
    } else {
        i
    }
}

/// First position at or after `i` that holds a whitespace byte.
pub open spec fn token_run_end(s: Seq<u8>, i: int) -> int
    decreases s.len() - i,
{
    if 0 <= i < s.len() && !is_space(s[i]) {
        token_run_end(s, i + 1)
    } else {
        i
    }
}

/// The digit-run scan stays inside the stream, covers digits only, and stops
/// at the stream's end or at the first non-digit.
pub proof fn lemma_digit_run_end_bounds(s: Seq<u8>, i: int)
    requires
        0 <= i <= s.len(),
    ensures
        i <= digit_run_end(s, i) <= s.len(),
        forall|t: int| i <= t < digit_run_end(s, i) ==> is_digit(#[trigger] s[t]),
        digit_run_end(s, i) == s.len() || !is_digit(s[digit_run_end(s, i)]),
    decreases s.len() - i,
{
    if i < s.len() && is_digit(s[i]) {
        lemma_digit_run_end_bounds(s, i + 1);
    }
}

/// A maximal digit run determines where the scan stops.
pub proof fn lemma_digit_run_end_is(s: Seq<u8>, i: int, j: int)
    requires
        0 <= i <= j <= s.len(),
        forall|t: int| i <= t < j ==> is_digit(#[trigger] s[t]),
        j == s.len() || !is_digit(s[j]),
    ensures
        digit_run_end(s, i) == j,
    decreases j - i,
{
    if i < j {
        lemma_digit_run_end_is(s, i + 1, j);
    }
}

/// The token scan stays inside the stream, covers non-whitespace only, stops
/// at the stream's end or at whitespace, and moves when it starts on a
/// non-whitespace byte.
pub proof fn lemma_token_run_end_bounds(s: Seq<u8>, i: int)
    requires
        0 <= i <= s.len(),
    ensures
        i <= token_run_end(s, i) <= s.len(),
        forall|t: int| i <= t < token_run_end(s, i) ==> !is_space(#[trigger] s[t]),
        token_run_end(s, i) == s.len() || is_space(s[token_run_end(s, i)]),
        0 <= i < s.len() && !is_space(s[i]) ==> token_run_end(s, i) > i,
    decreases s.len() - i,
{
    if i < s.len() && !is_space(s[i]) {
        lemma_token_run_end_bounds(s, i + 1);
    }
}

/// A maximal non-whitespace run determines where the scan stops.
pub proof fn lemma_token_run_end_is(s: Seq<u8>, i: int, j: int)
    requires
        0 <= i <= j <= s.len(),
        forall|t: int| i <= t < j ==> !is_space(#[trigger] s[t]),
        j == s.len() || is_space(s[j]),
    ensures
        token_run_end(s, i) == j,
    decreases j - i,
{
    if i < j {
        lemma_token_run_end_is(s, i + 1, j);
    }
}

/// The whitespace-separated tokens of `s` from position `i` on: maximal
/// nonempty runs of non-whitespace bytes, in order.
pub open spec fn tokens_from(s: Seq<u8>, i: int) -> Seq<Seq<u8>>
    decreases s.len() - i,
    via tokens_from_dec
{
    if !(0 <= i < s.len()) {
        Seq::empty()
    } else if is_space(s[i]) {
        tokens_from(s, i + 1)
    } else {
        seq![s.subrange(i, token_run_end(s, i))] + tokens_from(s, token_run_end(s, i))
    }
}

#[via_fn]
proof fn tokens_from_dec(s: Seq<u8>, i: int) {
    if 0 <= i < s.len() && !is_space(s[i]) {
        lemma_token_run_end_bounds(s, i);
    }
}

/// The pixel triples denoted by a flat byte sequence, three bytes per pixel.
pub open spec fn pixels_of_bytes(p: Seq<u8>) -> Seq<Pixel> {
    Seq::new(
        p.len() / 3,
        |k: int| Pixel { r: p[3 * k], g: p[3 * k + 1], b: p[3 * k + 2] },
    )
}

/// `width * height * 3`, saturated at `usize::MAX`: the unit count reported
/// by a `SizeMismatch`.
pub open spec fn sat3(w: nat, h: nat) -> usize {
    if w * h * 3 <= usize::MAX {
        (w * h * 3) as usize
    } else {
        usize::MAX
    }
}

/// Position of the byte after the single separator that follows a header
/// digit run (no separator is consumed at the very end of the stream).
pub open spec fn after_sep(s: Seq<u8>, e: int) -> int {
    if e < s.len() {
        e + 1
    } else {
        e
    }
}

/// What parsing a binary (`P6`) header yields, given that the magic token
/// was already recognized: the same digit-run scan that the binary decoder
/// performs, surfacing the maxval instead of discarding it.
pub open spec fn header_binary_spec(s: Seq<u8>) -> Result<DecodedHeader, PpmReaderError> {
    if s.len() < 3 {
        Err(PpmReaderError::MalformedHeader)
    } else {
        let e1 = digit_run_end(s, 3);
        let i2 = after_sep(s, e1);
        let e2 = digit_run_end(s, i2);
        let i3 = after_sep(s, e2);
        let e3 = digit_run_end(s, i3);
        let wtok = s.subrange(3, e1);
        let htok = s.subrange(i2, e2);
        let mtok = s.subrange(i3, e3);
        if wtok.len() == 0 || htok.len() == 0 || mtok.len() == 0 {
            Err(PpmReaderError::MalformedHeader)
        } else if dec_val(wtok) > usize::MAX || dec_val(htok) > usize::MAX || dec_val(mtok)
            > usize::MAX {
            Err(PpmReaderError::MalformedHeader)
        } else if dec_val(wtok) == 0 || dec_val(htok) == 0 {
            Err(PpmReaderError::MalformedHeader)
        } else {
            Ok(
                DecodedHeader {
                    variant: PpmVariant::Binary,
                    width: dec_val(wtok) as usize,
                    height: dec_val(htok) as usize,
                    maxval: dec_val(mtok) as usize,
                },
            )
        }
    }
}

/// What parsing a text (`P3`) header yields, given that the magic token was
/// already recognized: the same whitespace tokenization that the text
/// decoder performs, surfacing the maxval instead of discarding it.
pub open spec fn header_text_spec(s: Seq<u8>) -> Result<DecodedHeader, PpmReaderError> {
    let toks = tokens_from(s, 0);
    if toks.len() < 4 {
        Err(PpmReaderError::MalformedHeader)
    } else if !all_digits(toks[1]) || !all_digits(toks[2]) || !all_digits(toks[3]) || dec_val(
        toks[1],
    ) > usize::MAX || dec_val(toks[2]) > usize::MAX || dec_val(toks[3]) > usize::MAX || dec_val(
        toks[1],
    ) == 0 || dec_val(toks[2]) == 0 {
        Err(PpmReaderError::MalformedHeader)
    } else {
        Ok(
            DecodedHeader {
                variant: PpmVariant::Text,
                width: dec_val(toks[1]) as usize,
                height: dec_val(toks[2]) as usize,
                maxval: dec_val(toks[3]) as usize,
            },
        )
    }
}

/// What parsing an arbitrary stream's header yields: the magic token routes
/// to the matching layout; anything else is `UnrecognizedFormat`.
pub open spec fn header_spec(s: Seq<u8>) -> Result<DecodedHeader, PpmReaderError> {
    if s.len() < 2 {
        Err(PpmReaderError::UnrecognizedFormat)
    } else if s[0] == 80 && s[1] == 54 {
        header_binary_spec(s)
    } else if s[0] == 80 && s[1] == 51 {
        header_text_spec(s)
    } else {
        Err(PpmReaderError::UnrecognizedFormat)
    }
}

/// Where the binary payload begins: after the magic token, the newline, the
/// three digit runs and their single separator bytes.
pub open spec fn bin_body_start(s: Seq<u8>) -> int {
    after_sep(
        s,
        digit_run_end(s, after_sep(s, digit_run_end(s, after_sep(s, digit_run_end(s, 3))))),
    )
}

/// What decoding a binary (`P6`) stream yields, given that the magic token
/// was already recognized: the header scan of [`header_binary_spec`], then
/// the strict size validation, then the raw pixel bytes three at a time.
pub open spec fn decode_binary_spec(s: Seq<u8>) -> Result<(nat, nat, Seq<Pixel>), PpmReaderError> {
    match header_binary_spec(s) {
        Err(e) => Err(e),
        Ok(hd) => {
            let w = hd.width as nat;
            let h = hd.height as nat;
            let payload = s.subrange(bin_body_start(s), s.len() as int);
            if payload.len() != w * h * 3 {
                Err(
                    PpmReaderError::SizeMismatch {
                        expected: sat3(w, h),
                        actual: payload.len() as usize,
                    },
                )
            } else {
                Ok((w, h, pixels_of_bytes(payload)))
            }
        },
    }
}

/// A text pixel token must be a decimal number in `0..=255`.
pub open spec fn good_pixel_token(t: Seq<u8>) -> bool {
    all_digits(t) && dec_val(t) <= 255
}

/// The pixel triples denoted by a sequence of good text tokens, three tokens
/// per pixel.
pub open spec fn text_pixels(pt: Seq<Seq<u8>>, n: nat) -> Seq<Pixel> {
    Seq::new(
        n,
        |k: int| Pixel {
            r: dec_val(pt[3 * k]) as u8,
            g: dec_val(pt[3 * k + 1]) as u8,
            b: dec_val(pt[3 * k + 2]) as u8,
        },
    )
}

/// What decoding a text (`P3`) stream yields, given that the magic token was
/// already recognized: the whitespace tokenization of [`header_text_spec`],
/// then the strict token-count validation, then the range-checked channel
/// tokens three at a time.
pub open spec fn decode_text_spec(s: Seq<u8>) -> Result<(nat, nat, Seq<Pixel>), PpmReaderError> {
    match header_text_spec(s) {
        Err(e) => Err(e),
        Ok(hd) => {
            let w = hd.width as nat;
            let h = hd.height as nat;
            let pt = tokens_from(s, 0).skip(4);
            if pt.len() != w * h * 3 {
                Err(
                    PpmReaderError::SizeMismatch { expected: sat3(w, h), actual: pt.len() as usize },
                )
            } else if exists|k: int| 0 <= k < pt.len() && !good_pixel_token(#[trigger] pt[k]) {
                Err(PpmReaderError::InvalidPixelValue)
            } else {
                Ok((w, h, text_pixels(pt, w * h)))
            }
        },
    }
}

/// What decoding an arbitrary byte stream yields: the magic token routes to
/// the matching variant; anything else is `UnrecognizedFormat`.
pub open spec fn decode_spec(s: Seq<u8>) -> Result<(nat, nat, Seq<Pixel>), PpmReaderError> {
    if s.len() < 2 {
        Err(PpmReaderError::UnrecognizedFormat)
    } else if s[0] == 80 && s[1] == 54 {
        decode_binary_spec(s)
    } else if s[0] == 80 && s[1] == 51 {
        decode_text_spec(s)
    } else {
        Err(PpmReaderError::UnrecognizedFormat)
    }
}

/// Scans the digit run beginning at `i`.
fn digit_run_from(s: &[u8], i: usize) -> (e: usize)
    requires
        i <= s@.len(),
    ensures
        e == digit_run_end(s@, i as int),
        i <= e <= s@.len(),
{
    let mut j = i;
    while j < s.len() && 48 <= s[j] && s[j] <= 57
        invariant
            i <= j <= s@.len(),
            digit_run_end(s@, i as int) == digit_run_end(s@, j as int),
        decreases s@.len() - j,
    {
        j = j + 1;
    }
    proof {
        lemma_digit_run_end_bounds(s@, j as int);
    }
    j
}

/// Scans the non-whitespace run beginning at `i`.
fn token_run_from(s: &[u8], i: usize) -> (e: usize)
    requires
        i <= s@.len(),
    ensures
        e == token_run_end(s@, i as int),
        i <= e <= s@.len(),
{
    let mut j = i;
    while j < s.len() && !(s[j] == 32 || s[j] == 10)
        invariant
            i <= j <= s@.len(),
            token_run_end(s@, i as int) == token_run_end(s@, j as int),
        decreases s@.len() - j,
    {
        j = j + 1;
    }
    proof {
        lemma_token_run_end_bounds(s@, j as int);
    }
    j
}

/// The token list denoted by a list of (start, end) ranges into `s`.
pub open spec fn ranges_tokens(s: Seq<u8>, rs: Seq<(usize, usize)>) -> Seq<Seq<u8>> {
    Seq::new(rs.len(), |j: int| s.subrange(rs[j].0 as int, rs[j].1 as int))
}

/// Splits the whole stream into whitespace-separated tokens, reported as
/// (start, end) ranges.
fn scan_tokens(s: &[u8]) -> (toks: Vec<(usize, usize)>)
    ensures
        ranges_tokens(s@, toks@) == tokens_from(s@, 0),
        forall|j: int| 0 <= j < toks@.len() ==> #[trigger] toks@[j].0 < toks@[j].1 <= s@.len(),
{
    let mut toks: Vec<(usize, usize)> = Vec::new();
    let mut i: usize = 0;
    while i < s.len()
        invariant
            i <= s@.len(),
            tokens_from(s@, 0) == ranges_tokens(s@, toks@) + tokens_from(s@, i as int),
            forall|j: int| 0 <= j < toks@.len() ==> #[trigger] toks@[j].0 < toks@[j].1 <= s@.len(),
        decreases s@.len() - i,
    {
        let b = s[i];
        if b == 32 || b == 10 {
            i = i + 1;
        } else {
            let e = token_run_from(s, i);
            proof {
                lemma_token_run_end_bounds(s@, i as int);
                let old_toks = toks@;
                assert(ranges_tokens(s@, old_toks.push((i, e))) =~= ranges_tokens(s@, old_toks)
                    + seq![s@.subrange(i as int, e as int)]);
                assert((ranges_tokens(s@, old_toks) + seq![s@.subrange(i as int, e as int)])
                    + tokens_from(s@, e as int) =~= ranges_tokens(s@, old_toks) + (seq![
                    s@.subrange(i as int, e as int),
                ] + tokens_from(s@, e as int)));
            }
            toks.push((i, e));
            i = e;
        }
    }
    proof {
        assert(tokens_from(s@, 0) =~= ranges_tokens(s@, toks@));
    }
    toks
}

/// The unit-count check of the size validator, phrased so that the runtime
/// divisions and the mathematical product agree.
proof fn lemma_units_check(rem: int, w: int, h: int)
    requires
        w >= 1,
        h >= 0,
        rem >= 0,
    ensures
        (rem == w * h * 3) <==> (rem % 3 == 0 && (rem / 3) % w == 0 && (rem / 3) / w == h),
{
    if rem == w * h * 3 {
        assert(rem == (w * h) * 3) by (nonlinear_arith)
            requires rem == w * h * 3;
        lemma_fundamental_div_mod_converse(rem, 3, w * h, 0);
        assert(w * h == h * w) by (nonlinear_arith);
        lemma_fundamental_div_mod_converse(w * h, w, h, 0);
    }
    if rem % 3 == 0 && (rem / 3) % w == 0 && (rem / 3) / w == h {
        lemma_fundamental_div_mod(rem, 3);
        lemma_fundamental_div_mod(rem / 3, w);
        assert(rem == 3 * (rem / 3));
        assert(rem / 3 == w * h) by {
            assert(rem / 3 == w * ((rem / 3) / w) + (rem / 3) % w);
        }
        assert(3 * (w * h) == w * h * 3) by (nonlinear_arith);
    }
}

/// `width * height * 3`, saturated at `usize::MAX`.
fn sat_mul3(w: usize, h: usize) -> (e: usize)
    ensures
        e == sat3(w as nat, h as nat),
{
    match w.checked_mul(h) {
        Some(p) => match p.checked_mul(3) {
            Some(q) => q,
            None => usize::MAX,
        },
        None => {
            proof {
                assert(w * h * 3 >= w * h) by (nonlinear_arith)
                    requires w >= 0, h >= 0;
            }
            usize::MAX
        },
    }
}

/// Decodes the stream after a recognized `P6` magic token: scans the three
/// header numbers digit run by digit run, validates the payload size, and
/// fills the canvas three raw bytes per pixel, row-major.
#[verifier::loop_isolation(false)]
fn decode_binary(bytes: &[u8]) -> (r: Result<Canvas, PpmReaderError>)
    ensures
        match r {
            Ok(c) => c.wf() && decode_binary_spec(bytes@) == Ok::<
                (nat, nat, Seq<Pixel>),
                PpmReaderError,
            >((c.width as nat, c.height as nat, c.data@)),
            Err(e) => decode_binary_spec(bytes@) == Err::<
                (nat, nat, Seq<Pixel>),
                PpmReaderError,
            >(e),
        },
{
    if bytes.len() < 3 {
        return Err(PpmReaderError::MalformedHeader);
    }
    let e1 = digit_run_from(bytes, 3);
    let i2 = if e1 < bytes.len() { e1 + 1 } else { e1 };
    let e2 = digit_run_from(bytes, i2);
    let i3 = if e2 < bytes.len() { e2 + 1 } else { e2 };
    let e3 = digit_run_from(bytes, i3);
    let b0 = if e3 < bytes.len() { e3 + 1 } else { e3 };
    proof {
        lemma_digit_run_end_bounds(bytes@, 3);
        lemma_digit_run_end_bounds(bytes@, i2 as int);
        lemma_digit_run_end_bounds(bytes@, i3 as int);
    }
    if e1 == 3 || e2 == i2 || e3 == i3 {
        return Err(PpmReaderError::MalformedHeader);
    }
    let w = match parse_dec(bytes, 3, e1) {
        Some(v) => v,
        None => {
            return Err(PpmReaderError::MalformedHeader);
        },
    };
    let h = match parse_dec(bytes, i2, e2) {
        Some(v) => v,
        None => {
            return Err(PpmReaderError::MalformedHeader);
        },
    };
    if parse_dec(bytes, i3, e3).is_none() {
        return Err(PpmReaderError::MalformedHeader);
    }
    if w == 0 || h == 0 {
        return Err(PpmReaderError::MalformedHeader);
    }
    let rem = bytes.len() - b0;
    proof {
        lemma_units_check(rem as int, w as int, h as int);
    }
    if !(rem % 3 == 0 && (rem / 3) % w == 0 && (rem / 3) / w == h) {
        return Err(PpmReaderError::SizeMismatch { expected: sat_mul3(w, h), actual: rem });
    }
    let total = rem / 3;
    proof {
        assert(total * 3 == rem && total == w * h) by {
            lemma_fundamental_div_mod(rem as int, 3);
            lemma_fundamental_div_mod(total as int, w as int);
        }
    }
    let mut c = Canvas::new(w, h);
    let ghost payload = bytes@.subrange(b0 as int, bytes@.len() as int);
    let ghost pix = pixels_of_bytes(payload);
    proof {
        assert(pix.len() == total);
    }
    let mut k: usize = 0;
    while k < total
        invariant
            k <= total,
            c.width == w,
            c.height == h,
            c.data@.len() == total,
            total as int == w as int * h as int,
            b0 + 3 * total == bytes@.len(),
            payload == bytes@.subrange(b0 as int, bytes@.len() as int),
            pix == pixels_of_bytes(payload),
            pix.len() == total,
            forall|j: int| 0 <= j < k ==> c.data@[j] == pix[j],
        decreases total - k,
    {
        let base = b0 + 3 * k;
        let p = Pixel { r: bytes[base], g: bytes[base + 1], b: bytes[base + 2] };
        c.data.set(k, p);
        proof {
            assert(payload[3 * k as int] == bytes@[base as int]);
            assert(payload[3 * k as int + 1] == bytes@[base as int + 1]);
            assert(payload[3 * k as int + 2] == bytes@[base as int + 2]);
            assert(pix[k as int] == p);
        }
        k = k + 1;
    }
    proof {
        assert(c.data@ =~= pix);
    }
    Ok(c)
}

/// Parses one text pixel channel: a decimal token in `0..=255`.
fn parse_channel(bytes: &[u8], start: usize, end: usize) -> (r: Result<u8, PpmReaderError>)
    requires
        start <= end <= bytes@.len(),
    ensures
        match r {
            Ok(v) => good_pixel_token(bytes@.subrange(start as int, end as int)) && v == dec_val(
                bytes@.subrange(start as int, end as int),
            ),
            Err(e) => !good_pixel_token(bytes@.subrange(start as int, end as int)) && e
                == PpmReaderError::InvalidPixelValue,
        },
{
    match parse_dec(bytes, start, end) {
        Some(v) => {
            if v <= 255 {
                Ok(v as u8)
            } else {
                Err(PpmReaderError::InvalidPixelValue)
            }
        },
        None => Err(PpmReaderError::InvalidPixelValue),
    }
}

/// Decodes the stream after a recognized `P3` magic token: tokenizes the
/// whole stream on whitespace, reads width, height and maxval, validates the
/// token count, and fills the canvas three parsed tokens per pixel.
#[verifier::loop_isolation(false)]
fn decode_text(bytes: &[u8]) -> (r: Result<Canvas, PpmReaderError>)
    ensures
        match r {
            Ok(c) => c.wf() && decode_text_spec(bytes@) == Ok::<
                (nat, nat, Seq<Pixel>),
                PpmReaderError,
            >((c.width as nat, c.height as nat, c.data@)),
            Err(e) => decode_text_spec(bytes@) == Err::<(nat, nat, Seq<Pixel>), PpmReaderError>(e),
        },
{
    let toks = scan_tokens(bytes);
    let ghost tseq = tokens_from(bytes@, 0);
    if toks.len() < 4 {
        return Err(PpmReaderError::MalformedHeader);
    }
    let t1 = toks[1];
    let t2 = toks[2];
    let t3 = toks[3];
    proof {
        assert(tseq[1] == bytes@.subrange(t1.0 as int, t1.1 as int));
        assert(tseq[2] == bytes@.subrange(t2.0 as int, t2.1 as int));
        assert(tseq[3] == bytes@.subrange(t3.0 as int, t3.1 as int));
    }
    let w = match parse_dec(bytes, t1.0, t1.1) {
        Some(v) => v,
        None => {
            return Err(PpmReaderError::MalformedHeader);
        },
    };
    let h = match parse_dec(bytes, t2.0, t2.1) {
        Some(v) => v,
        None => {
            return Err(PpmReaderError::MalformedHeader);
        },
    };
    if parse_dec(bytes, t3.0, t3.1).is_none() {
        return Err(PpmReaderError::MalformedHeader);
    }
    if w == 0 || h == 0 {
        return Err(PpmReaderError::MalformedHeader);
    }
    let npt = toks.len() - 4;
    proof {
        lemma_units_check(npt as int, w as int, h as int);
        assert(tseq.skip(4).len() == npt);
    }
    if !(npt % 3 == 0 && (npt / 3) % w == 0 && (npt / 3) / w == h) {
        return Err(PpmReaderError::SizeMismatch { expected: sat_mul3(w, h), actual: npt });
    }
    let total = npt / 3;
    proof {
        assert(total * 3 == npt && total == w * h) by {
            lemma_fundamental_div_mod(npt as int, 3);
            lemma_fundamental_div_mod(total as int, w as int);
        }
    }
    let mut c = Canvas::new(w, h);
    let ghost pt = tseq.skip(4);
    let mut k: usize = 0;
    while k < total
        invariant
            k <= total,
            c.width == w,
            c.height == h,
            c.data@.len() == total,
            forall|j: int| 0 <= j < 3 * k ==> good_pixel_token(#[trigger] pt[j]),
            forall|j: int| 0 <= j < k ==> c.data@[j] == text_pixels(pt, (w * h) as nat)[j],
        decreases total - k,
    {
        let ti = 4 + 3 * k;
        proof {
            assert(pt[3 * k as int] == bytes@.subrange(
                toks@[ti as int].0 as int,
                toks@[ti as int].1 as int,
            ));
            assert(pt[3 * k as int + 1] == bytes@.subrange(
                toks@[ti as int + 1].0 as int,
                toks@[ti as int + 1].1 as int,
            ));
            assert(pt[3 * k as int + 2] == bytes@.subrange(
                toks@[ti as int + 2].0 as int,
                toks@[ti as int + 2].1 as int,
            ));
        }
        let tr = toks[ti];
        let tg = toks[ti + 1];
        let tb = toks[ti + 2];
        let rv = match parse_channel(bytes, tr.0, tr.1) {
            Ok(v) => v,
            Err(e) => {
                return Err(e);
            },
        };
        let gv = match parse_channel(bytes, tg.0, tg.1) {
            Ok(v) => v,
            Err(e) => {
                return Err(e);
            },
        };
        let bv = match parse_channel(bytes, tb.0, tb.1) {
            Ok(v) => v,
            Err(e) => {
                return Err(e);
            },
        };
        let p = Pixel { r: rv, g: gv, b: bv };
        c.data.set(k, p);
        proof {
            assert(text_pixels(pt, (w * h) as nat)[k as int] == p);
        }
        k = k + 1;
    }
    proof {
        assert(forall|j: int| 0 <= j < pt.len() ==> good_pixel_token(#[trigger] pt[j]));
        assert(c.data@ =~= text_pixels(pt, (w * h) as nat));
    }
    Ok(c)
}

/// Decodes a PPM byte stream: reads the magic token, routes to the binary or
/// the text decoder, and hands back the finished canvas or the first error.
/// The result is pinned down exactly by [`decode_spec`].
pub fn decode(bytes: &[u8]) -> (r: Result<Canvas, PpmReaderError>)
    ensures
        match r {
            Ok(c) => c.wf() && decode_spec(bytes@) == Ok::<(nat, nat, Seq<Pixel>), PpmReaderError>(
                (c.width as nat, c.height as nat, c.data@),
            ),
            Err(e) => decode_spec(bytes@) == Err::<(nat, nat, Seq<Pixel>), PpmReaderError>(e),
        },
{
    if bytes.len() < 2 {
        return Err(PpmReaderError::UnrecognizedFormat);
    }
    let m0 = bytes[0];
    let m1 = bytes[1];
    if m0 == 80 && m1 == 54 {
        decode_binary(bytes)
    } else if m0 == 80 && m1 == 51 {
        decode_text(bytes)
    } else {
        Err(PpmReaderError::UnrecognizedFormat)
    }
}

/// Parses only the header of a PPM byte stream: the magic token, then the
/// declared width, height and maxval, each laid out as its variant requires.
/// The result is pinned down exactly by [`header_spec`].
pub fn parse_header(bytes: &[u8]) -> (r: Result<DecodedHeader, PpmReaderError>)
    ensures
        r == header_spec(bytes@),
{
    if bytes.len() < 2 {
        return Err(PpmReaderError::UnrecognizedFormat);
    }
    let m0 = bytes[0];
    let m1 = bytes[1];
    if m0 == 80 && m1 == 54 {
        if bytes.len() < 3 {
            return Err(PpmReaderError::MalformedHeader);
        }
        let e1 = digit_run_from(bytes, 3);
        let i2 = if e1 < bytes.len() { e1 + 1 } else { e1 };
        let e2 = digit_run_from(bytes, i2);
        let i3 = if e2 < bytes.len() { e2 + 1 } else { e2 };
        let e3 = digit_run_from(bytes, i3);
        proof {
            lemma_digit_run_end_bounds(bytes@, 3);
            lemma_digit_run_end_bounds(bytes@, i2 as int);
            lemma_digit_run_end_bounds(bytes@, i3 as int);
        }
        if e1 == 3 || e2 == i2 || e3 == i3 {
            return Err(PpmReaderError::MalformedHeader);
        }
        let w = match parse_dec(bytes, 3, e1) {
            Some(v) => v,
            None => {
                return Err(PpmReaderError::MalformedHeader);
            },
        };
        let h = match parse_dec(bytes, i2, e2) {
            Some(v) => v,
            None => {
                return Err(PpmReaderError::MalformedHeader);
            },
        };
        let m = match parse_dec(bytes, i3, e3) {
            Some(v) => v,
            None => {
                return Err(PpmReaderError::MalformedHeader);
            },
        };
        if w == 0 || h == 0 {
            return Err(PpmReaderError::MalformedHeader);
        }
        Ok(DecodedHeader { variant: PpmVariant::Binary, width: w, height: h, maxval: m })
    } else if m0 == 80 && m1 == 51 {
        let toks = scan_tokens(bytes);
        let ghost tseq = tokens_from(bytes@, 0);
        if toks.len() < 4 {
            return Err(PpmReaderError::MalformedHeader);
        }
        let t1 = toks[1];
        let t2 = toks[2];
        let t3 = toks[3];
        proof {
            assert(tseq[1] == bytes@.subrange(t1.0 as int, t1.1 as int));
            assert(tseq[2] == bytes@.subrange(t2.0 as int, t2.1 as int));
            assert(tseq[3] == bytes@.subrange(t3.0 as int, t3.1 as int));
        }
        let w = match parse_dec(bytes, t1.0, t1.1) {
            Some(v) => v,
            None => {
                return Err(PpmReaderError::MalformedHeader);
            },
        };
        let h = match parse_dec(bytes, t2.0, t2.1) {
            Some(v) => v,
            None => {
                return Err(PpmReaderError::MalformedHeader);
            },
        };
        let m = match parse_dec(bytes, t3.0, t3.1) {
            Some(v) => v,
            None => {
                return Err(PpmReaderError::MalformedHeader);
            },
        };
        if w == 0 || h == 0 {
            return Err(PpmReaderError::MalformedHeader);
        }
        Ok(DecodedHeader { variant: PpmVariant::Text, width: w, height: h, maxval: m })
    } else {
        Err(PpmReaderError::UnrecognizedFormat)
    }
}

/// The binary pixel decoder on its own, for callers that bring a payload
/// whose size was not validated first: consumes exactly `width * height * 3`
/// raw bytes, three per pixel, and fails with `TruncatedData` when fewer
/// remain. Extra bytes beyond the required count are ignored.
#[verifier::loop_isolation(false)]
pub fn decode_binary_pixels(payload: &[u8], width: usize, height: usize) -> (r: Result<
    Vec<Pixel>,
    PpmReaderError,
>)
    ensures
        match r {
            Ok(v) => payload@.len() >= width * height * 3 && v@ == pixels_of_bytes(
                payload@.subrange(0, width as int * height as int * 3),
            ),
            Err(e) => payload@.len() < width * height * 3 && e == PpmReaderError::TruncatedData,
        },
{
    let len = payload.len();
    // The required byte count is compared against `len` without overflowing:
    // for positive dimensions, w * h * 3 <= len exactly when h <= (len/3)/w.
    if width > 0 && height > 0 {
        proof {
            lemma_mul3_fits(len as int, width as int, height as int);
        }
        if height > (len / 3) / width {
            return Err(PpmReaderError::TruncatedData);
        }
    }
    proof {
        assert(width as int * height as int <= width as int * height as int * 3 <= len)
            by (nonlinear_arith)
            requires
                width >= 0,
                height >= 0,
                width as int * height as int * 3 <= len || width == 0 || height == 0,
        ;
    }
    let total = width * height;
    let mut out: Vec<Pixel> = Vec::new();
    let ghost front = payload@.subrange(0, width as int * height as int * 3);
    let ghost pix = pixels_of_bytes(front);
    proof {
        assert(width as int * height as int * 3 == 3 * total as int) by (nonlinear_arith)
            requires total as int == width as int * height as int;
        lemma_fundamental_div_mod_converse(front.len() as int, 3, total as int, 0);
        assert(pix.len() == total);
    }
    let mut k: usize = 0;
    while k < total
        invariant
            k <= total,
            3 * total <= payload@.len(),
            front == payload@.subrange(0, 3 * total as int),
            pix == pixels_of_bytes(front),
            pix.len() == total,
            out@.len() == k,
            forall|j: int| 0 <= j < k ==> out@[j] == pix[j],
        decreases total - k,
    {
        let base = 3 * k;
        let p = Pixel { r: payload[base], g: payload[base + 1], b: payload[base + 2] };
        proof {
            assert(front[3 * k as int] == payload@[base as int]);
            assert(front[3 * k as int + 1] == payload@[base as int + 1]);
            assert(front[3 * k as int + 2] == payload@[base as int + 2]);
            assert(pix[k as int] == p);
        }
        out.push(p);
        k = k + 1;
    }
    proof {
        assert(out@ =~= pix);
        assert(width as int * height as int * 3 == 3 * total as int) by (nonlinear_arith)
            requires total as int == width as int * height as int;
    }
    Ok(out)
}

/// `w * h * 3 <= len` exactly when the division-based runtime test passes.
proof fn lemma_mul3_fits(len: int, w: int, h: int)
    requires
        len >= 0,
        w >= 1,
        h >= 1,
    ensures
        (w * h * 3 <= len) <==> (h <= (len / 3) / w),
{
    let q3 = len / 3;
    let qw = q3 / w;
    lemma_fundamental_div_mod(len, 3);
    lemma_fundamental_div_mod(q3, w);
    if h <= qw {
        assert(w * h * 3 <= len) by (nonlinear_arith)
            requires
                h <= qw,
                w >= 1,
                h >= 1,
                q3 == w * qw + q3 % w,
                q3 % w >= 0,
                len == 3 * q3 + len % 3,
                len % 3 >= 0,
        ;
    }
    if w * h * 3 <= len {
        assert(h <= qw) by (nonlinear_arith)
            requires
                w * h * 3 <= len,
                w >= 1,
                h >= 1,
                q3 == w * qw + q3 % w,
                0 <= q3 % w < w,
                len == 3 * q3 + len % 3,
                0 <= len % 3 < 3,
        ;
    }
}

} // verus!
