use vstd::prelude::*;

use image::{DynamicImage, ImageReader};
use std::io::Cursor;
use vstd::utf8::encode_utf8;

verus! {

#[verifier::external_type_specification]
#[verifier::external_body]
pub struct ExDynamicImage(DynamicImage);

/// A scale factor of one, in ten-thousandths.
pub const FULL_SCALE: u32 = 10000;

/// The smallest scale factor the search tries from, in ten-thousandths.
pub const MIN_SCALE: u32 = 1000;

/// The number of halving rounds of the scale search.
pub const SEARCH_ROUNDS: usize = 6;

/// The JPEG quality of every re-encoding.
pub const JPEG_QUALITY: u8 = 80;

/// Whether `image::guess_format` recognises `b` and `ImageReader` decodes it
/// in that format.
pub uninterp spec fn decodes(b: Seq<u8>) -> bool;

/// `DynamicImage::width` of the image decoded from `b`.
pub uninterp spec fn width_of(b: Seq<u8>) -> u32;

/// `DynamicImage::height` of the image decoded from `b`.
pub uninterp spec fn height_of(b: Seq<u8>) -> u32;

/// `ImageFormat::to_mime_type` of the format guessed for `b`.
pub uninterp spec fn mime_of(b: Seq<u8>) -> Seq<char>;

/// The first of `ImageFormat::extensions_str` of the format guessed for `b`.
pub uninterp spec fn extension_of(b: Seq<u8>) -> Seq<char>;

/// The JPEG of quality `q` that `DynamicImage::write_with_encoder` gives for
/// the image decoded from `b`; `None` where encoding fails.
pub uninterp spec fn jpeg_full_of(b: Seq<u8>, q: u8) -> Option<Seq<u8>>;

/// The JPEG of quality `q` of the image decoded from `b` after
/// `DynamicImage::resize` with the triangle filter, asked for `w` by `h`
/// (it keeps the aspect ratio within those bounds); `None` where encoding fails.
pub uninterp spec fn jpeg_resized_of(b: Seq<u8>, w: u32, h: u32, q: u8) -> Option<Seq<u8>>;

/// A decoded image, with the bytes it was decoded from and what was read of it.
pub struct Decoded {
    image: DynamicImage,
    source: Vec<u8>,
    width: u32,
    height: u32,
    mime: String,
    extension: String,
}

impl Decoded {
    pub closed spec fn spec_source(&self) -> Seq<u8> {
        self.source@
    }

    pub closed spec fn spec_width(&self) -> u32 {
        self.width
    }

    pub closed spec fn spec_height(&self) -> u32 {
        self.height
    }

    pub closed spec fn spec_mime(&self) -> Seq<char> {
        self.mime@
    }

    pub closed spec fn spec_extension(&self) -> Seq<char> {
        self.extension@
    }

    /// The image's fields are those that decoding its source gives.
    pub closed spec fn wf(&self) -> bool {
        &&& decodes(self.source@)
        &&& self.width == width_of(self.source@)
        &&& self.height == height_of(self.source@)
        &&& self.mime@ == mime_of(self.source@)
        &&& self.extension@ == extension_of(self.source@)
    }
}

/// Relies on `image::guess_format`, which reads only the magic bytes, and
/// `ImageReader::decode` of that built-in format; reads the image's size, the
/// format's `to_mime_type` and the first of its `extensions_str`.
#[verifier::external_body]
fn decode_image(bytes: &Vec<u8>) -> (r: Result<Decoded, String>)
    ensures
        r is Ok == decodes(bytes@),
        r matches Ok(d) ==> d.spec_source() == bytes@ && d.spec_width() == width_of(bytes@) && d.spec_height()
            == height_of(bytes@) && d.spec_mime() == mime_of(bytes@) && d.spec_extension() == extension_of(bytes@),
{
    let format = image::guess_format(bytes.as_slice()).map_err(|e| e.to_string())?;
    let image = ImageReader::with_format(Cursor::new(bytes.as_slice()), format).decode().map_err(|e| e.to_string())?;
    let (width, height) = (image.width(), image.height());
    let mime = format.to_mime_type().to_string();
    let extension = format.extensions_str().first().map(|e| e.to_string()).unwrap_or_default();
    Ok(Decoded { image, source: bytes.clone(), width, height, mime, extension })
}

/// Relies on `DynamicImage::write_with_encoder` with a `JpegEncoder` of quality `q`.
#[verifier::external_body]
fn encode_full(img: &Decoded, q: u8) -> (r: Result<Vec<u8>, String>)
    requires
        img.wf(),
    ensures
        match r {
            Ok(d) => jpeg_full_of(img.spec_source(), q) == Some(d@),
            Err(_) => jpeg_full_of(img.spec_source(), q) is None,
        },
{
    let mut out = Vec::<u8>::new();
    let encoder = image::codecs::jpeg::JpegEncoder::new_with_quality(&mut out, q);
    img.image.write_with_encoder(encoder).map_err(|e| e.to_string())?;
    Ok(out)
}

/// Relies on `DynamicImage::resize` with the triangle filter, then
/// `DynamicImage::write_with_encoder` with a `JpegEncoder` of quality `q`.
#[verifier::external_body]
fn encode_resized(img: &Decoded, w: u32, h: u32, q: u8) -> (r: Result<Vec<u8>, String>)
    requires
        img.wf(),
        w >= 1,
        h >= 1,
    ensures
        match r {
            Ok(d) => jpeg_resized_of(img.spec_source(), w, h, q) == Some(d@),
            Err(_) => jpeg_resized_of(img.spec_source(), w, h, q) is None,
        },
{
    let small = img.image.resize(w, h, image::imageops::FilterType::Triangle);
    let mut out = Vec::<u8>::new();
    let encoder = image::codecs::jpeg::JpegEncoder::new_with_quality(&mut out, q);
    small.write_with_encoder(encoder).map_err(|e| e.to_string())?;
    Ok(out)
}

/// An image in a given format.
pub struct Encoded {
    pub mime: String,
    pub extension: String,
    pub data: Vec<u8>,
}

/// Why an image could not be brought under its size budget.
pub enum CompressError {
    /// The bytes are not an image of a known format.
    Decode(String),
    /// Re-encoding failed.
    Encode(String),
    /// No scale that was tried gave fewer bytes than the budget.
    Infeasible,
}

/// What bringing an image under its budget comes to.
pub enum Outcome {
    /// The source bytes, as they are.
    Source,
    /// These JPEG bytes.
    Jpeg(Seq<u8>),
    /// No trial was under the budget.
    Infeasible,
    /// A trial encoding failed.
    EncodeFailed,
}

/// The type of every re-encoded image.
pub open spec fn jpeg_mime() -> Seq<char> {
    seq!['i', 'm', 'a', 'g', 'e', '/', 'j', 'p', 'e', 'g']
}

/// The largest scale allowed by `max_width` for an image `width` wide, at most one.
pub open spec fn ceiling_of(max_width: Option<u32>, width: u32) -> int {
    match max_width {
        Some(m) if width > 0 && (m as int) * (FULL_SCALE as int) / (width as int) < FULL_SCALE as int =>
            (m as int) * (FULL_SCALE as int) / (width as int),
        _ => FULL_SCALE as int,
    }
}

/// A side `len` long, scaled by `scale` ten-thousandths and rounded to the
/// nearest integer (halves up), but at least one.
pub open spec fn scaled_len(len: u32, scale: u32) -> int {
    let v = ((len as int) * (scale as int) + (FULL_SCALE as int) / 2) / (FULL_SCALE as int);
    if v < 1 { 1 } else { v }
}

/// Ninety percent of the budget, rounded down.
pub open spec fn passable_of(max_size: usize) -> int {
    (9 * (max_size as int)) / 10
}

/// The scale ceiling for an image `width` wide, in ten-thousandths.
pub fn scale_ceiling(max_width: Option<u32>, width: u32) -> (r: u32)
    ensures
        r == ceiling_of(max_width, width),
        r <= FULL_SCALE,
{
    match max_width {
        Some(m) if width > 0 => {
            let v: u64 = (m as u64) * (FULL_SCALE as u64) / (width as u64);
            if v < FULL_SCALE as u64 {
                v as u32
            } else {
                FULL_SCALE
            }
        },
        _ => FULL_SCALE,
    }
}

/// The length of a side `len` long at the scale `scale`.
pub fn scaled(len: u32, scale: u32) -> (r: u32)
    requires
        scale <= FULL_SCALE,
    ensures
        r == scaled_len(len, scale),
{
    assert((len as int) * (scale as int) <= (len as int) * (FULL_SCALE as int)) by (nonlinear_arith)
        requires scale <= FULL_SCALE;
    let v: u64 = ((len as u64) * (scale as u64) + (FULL_SCALE as u64) / 2) / (FULL_SCALE as u64);
    assert(v <= len) by (nonlinear_arith)
        requires
            v == ((len as int) * (scale as int) + 5000) / 10000,
            (len as int) * (scale as int) <= (len as int) * 10000,
    ;
    if v < 1 {
        1
    } else {
        v as u32
    }
}

/// The size above which an under-budget result ends the search.
pub fn passable_size(max_size: usize) -> (r: usize)
    ensures
        r == passable_of(max_size),
{
    let q: usize = max_size / 10;
    let m: usize = max_size % 10;
    assert(9 * (max_size as int) == 90 * q + 9 * m);
    q * 9 + m * 9 / 10
}

/// Whether `mime` is one of `allowed`.
pub fn is_allowed(mime: &String, allowed: &Vec<String>) -> (r: bool)
    ensures
        r == exists|i: int| 0 <= i < allowed@.len() && allowed@[i]@ == mime@,
{
    let mut i: usize = 0;
    while i < allowed.len()
        invariant
            i <= allowed@.len(),
            forall|k: int| 0 <= k < i ==> allowed@[k]@ != mime@,
        decreases allowed@.len() - i,
    {
        if allowed[i] == *mime {
            return true;
        }
        i = i + 1;
    }
    false
}

/// One round of the scale search: the bounds after it, whether its trial is
/// kept as the best so far, and whether the search ends.
pub struct Round {
    pub low: u32,
    pub high: u32,
    pub keep: bool,
    pub stop: bool,
}

/// The scale tried between the bounds `low` and `high`.
pub fn midpoint(low: u32, high: u32) -> (r: u32)
    ensures
        r == ((low as int) + (high as int)) / 2,
{
    ((low as u64 + high as u64) / 2) as u32
}

/// Judges a trial at the midpoint of `low` and `high` that gave `size` bytes:
/// under the budget it is kept and the lower bound rises to the midpoint, and
/// the search ends if it is also over the passable size; else the upper bound
/// falls to the midpoint.
pub fn judge(low: u32, high: u32, size: usize, max_size: usize) -> (r: Round)
    ensures
        r.keep == (size < max_size),
        r.stop == (size < max_size && size > passable_of(max_size)),
        r.keep ==> r.low == ((low as int) + (high as int)) / 2 && r.high == high,
        !r.keep ==> r.low == low && r.high == ((low as int) + (high as int)) / 2,
{
    let guess = midpoint(low, high);
    if size < max_size {
        Round { low: guess, high, keep: true, stop: size > passable_size(max_size) }
    } else {
        Round { low, high: guess, keep: false, stop: false }
    }
}

/// The four little-endian bytes of `n`.
pub open spec fn le32(n: nat) -> Seq<u8> {
    seq![(n % 256) as u8, ((n / 256) % 256) as u8, ((n / 65536) % 256) as u8, ((n / 16777216) % 256) as u8]
}

/// An encoded image as one blob: the length and bytes of its type, the
/// length and bytes of its extension, then its data.
pub open spec fn framed(mime: Seq<u8>, ext: Seq<u8>, data: Seq<u8>) -> Seq<u8> {
    le32(mime.len()) + mime + le32(ext.len()) + ext + data
}

fn push_le32(out: &mut Vec<u8>, n: usize)
    requires
        n <= u32::MAX,
    ensures
        final(out)@ == old(out)@ + le32(n as nat),
{
    out.push((n % 256) as u8);
    out.push(((n / 256) % 256) as u8);
    out.push(((n / 65536) % 256) as u8);
    out.push(((n / 16777216) % 256) as u8);
    assert(final(out)@ =~= old(out)@ + le32(n as nat));
}

fn push_all(out: &mut Vec<u8>, bytes: &Vec<u8>)
    ensures
        final(out)@ == old(out)@ + bytes@,
{
    let mut i: usize = 0;
    while i < bytes.len()
        invariant
            i <= bytes@.len(),
            out@ == old(out)@ + bytes@.take(i as int),
        decreases bytes@.len() - i,
    {
        out.push(bytes[i]);
        i = i + 1;
        assert(out@ =~= old(out)@ + bytes@.take(i as int));
    }
    assert(bytes@.take(i as int) =~= bytes@);
}

impl Encoded {
    /// This image as one blob.
    pub fn frame(&self) -> (r: Vec<u8>)
        requires
            encode_utf8(self.mime@).len() <= u32::MAX,
            encode_utf8(self.extension@).len() <= u32::MAX,
        ensures
            r@ == framed(encode_utf8(self.mime@), encode_utf8(self.extension@), self.data@),
    {
        let mime = self.mime.as_str().as_bytes_vec();
        let ext = self.extension.as_str().as_bytes_vec();
        let mut out: Vec<u8> = Vec::new();
        push_le32(&mut out, mime.len());
        push_all(&mut out, &mime);
        push_le32(&mut out, ext.len());
        push_all(&mut out, &ext);
        push_all(&mut out, &self.data);
        assert(out@ =~= framed(mime@, ext@, self.data@));
        out
    }
}

/// The JPEG trial of the image decoded from `src` (`width` by `height`) at
/// `scale`: the sides are scaled and rounded down, and the image is
/// re-encoded without resizing where the width stays.
pub open spec fn trial(src: Seq<u8>, width: u32, height: u32, scale: u32) -> Option<Seq<u8>> {
    let w = scaled_len(width, scale);
    if w == width {
        jpeg_full_of(src, JPEG_QUALITY)
    } else {
        jpeg_resized_of(src, w as u32, scaled_len(height, scale) as u32, JPEG_QUALITY)
    }
}

/// The scale search between `low` and `high` with `rounds` rounds left and
/// `best` the last under-budget trial: each round tries the midpoint; an
/// under-budget trial becomes the best and raises `low`, and ends the search
/// if it is over the passable size; any other trial lowers `high`.
pub open spec fn search(
    src: Seq<u8>,
    width: u32,
    height: u32,
    max_size: usize,
    low: u32,
    high: u32,
    rounds: nat,
    best: Option<Seq<u8>>,
) -> Outcome
    decreases rounds,
{
    if rounds == 0 {
        match best {
            Some(d) => Outcome::Jpeg(d),
            None => Outcome::Infeasible,
        }
    } else {
        let guess = ((low as int + high as int) / 2) as u32;
        match trial(src, width, height, guess) {
            None => Outcome::EncodeFailed,
            Some(d) => if d.len() < max_size {
                if d.len() > passable_of(max_size) {
                    Outcome::Jpeg(d)
                } else {
                    search(src, width, height, max_size, guess, high, (rounds - 1) as nat, Some(d))
                }
            } else {
                search(src, width, height, max_size, low, guess, (rounds - 1) as nat, best)
            },
        }
    }
}

/// `mime` is one of `allowed`.
pub open spec fn allowed_has(allowed: Seq<String>, mime: Seq<char>) -> bool {
    exists|i: int| 0 <= i < allowed.len() && allowed[i]@ == mime
}

/// The outcome for the image decoded from `src`: the source itself where its
/// type is allowed and it is under the budget; else the trial at the width
/// ceiling where it is under the budget; else the scale search from
/// `MIN_SCALE` to that ceiling.
pub open spec fn outcome(
    src: Seq<u8>,
    width: u32,
    height: u32,
    mime: Seq<char>,
    allowed: Seq<String>,
    max_size: usize,
    max_width: Option<u32>,
) -> Outcome {
    if allowed_has(allowed, mime) && src.len() < max_size {
        Outcome::Source
    } else {
        let ceiling = ceiling_of(max_width, width) as u32;
        match trial(src, width, height, ceiling) {
            None => Outcome::EncodeFailed,
            Some(d) => if d.len() < max_size {
                Outcome::Jpeg(d)
            } else {
                search(src, width, height, max_size, MIN_SCALE, ceiling, SEARCH_ROUNDS as nat, None)
            },
        }
    }
}

/// The outcome for the bytes `src`, where they decode.
pub open spec fn outcome_of(
    src: Seq<u8>,
    allowed: Seq<String>,
    max_size: usize,
    max_width: Option<u32>,
) -> Outcome {
    outcome(src, width_of(src), height_of(src), mime_of(src), allowed, max_size, max_width)
}

/// Every trial that the search runs encodes.
pub open spec fn search_encodes(
    src: Seq<u8>,
    width: u32,
    height: u32,
    max_size: usize,
    low: u32,
    high: u32,
    rounds: nat,
) -> bool
    decreases rounds,
{
    if rounds == 0 {
        true
    } else {
        let guess = ((low as int + high as int) / 2) as u32;
        match trial(src, width, height, guess) {
            None => false,
            Some(d) => if d.len() < max_size {
                d.len() > passable_of(max_size) || search_encodes(src, width, height, max_size, guess, high, (rounds - 1) as nat)
            } else {
                search_encodes(src, width, height, max_size, low, guess, (rounds - 1) as nat)
            },
        }
    }
}

/// Every trial that bringing the image under its budget runs encodes.
pub open spec fn trials_encode(
    src: Seq<u8>,
    width: u32,
    height: u32,
    mime: Seq<char>,
    allowed: Seq<String>,
    max_size: usize,
    max_width: Option<u32>,
) -> bool {
    if allowed_has(allowed, mime) && src.len() < max_size {
        true
    } else {
        let ceiling = ceiling_of(max_width, width) as u32;
        match trial(src, width, height, ceiling) {
            None => false,
            Some(d) => d.len() < max_size || search_encodes(src, width, height, max_size, MIN_SCALE, ceiling, SEARCH_ROUNDS as nat),
        }
    }
}

/// The number of trials the search runs.
pub open spec fn search_trials(
    src: Seq<u8>,
    width: u32,
    height: u32,
    max_size: usize,
    low: u32,
    high: u32,
    rounds: nat,
) -> nat
    decreases rounds,
{
    if rounds == 0 {
        0
    } else {
        let guess = ((low as int + high as int) / 2) as u32;
        match trial(src, width, height, guess) {
            None => 1,
            Some(d) => if d.len() < max_size {
                if d.len() > passable_of(max_size) {
                    1
                } else {
                    1 + search_trials(src, width, height, max_size, guess, high, (rounds - 1) as nat)
                }
            } else {
                1 + search_trials(src, width, height, max_size, low, guess, (rounds - 1) as nat)
            },
        }
    }
}

/// The number of trial encodings that bringing the image under its budget runs.
pub open spec fn trials_run(
    src: Seq<u8>,
    width: u32,
    height: u32,
    mime: Seq<char>,
    allowed: Seq<String>,
    max_size: usize,
    max_width: Option<u32>,
) -> nat {
    if allowed_has(allowed, mime) && src.len() < max_size {
        0
    } else {
        let ceiling = ceiling_of(max_width, width) as u32;
        match trial(src, width, height, ceiling) {
            Some(d) if d.len() >= max_size =>
                1 + search_trials(src, width, height, max_size, MIN_SCALE, ceiling, SEARCH_ROUNDS as nat),
            _ => 1,
        }
    }
}

proof fn lemma_search_trials_bound(
    src: Seq<u8>,
    width: u32,
    height: u32,
    max_size: usize,
    low: u32,
    high: u32,
    rounds: nat,
)
    ensures
        search_trials(src, width, height, max_size, low, high, rounds) <= rounds,
    decreases rounds,
{
    if rounds > 0 {
        let guess = ((low as int + high as int) / 2) as u32;
        lemma_search_trials_bound(src, width, height, max_size, guess, high, (rounds - 1) as nat);
        lemma_search_trials_bound(src, width, height, max_size, low, guess, (rounds - 1) as nat);
    }
}

/// The search is bounded: at most one trial at the width ceiling and one per
/// search round are encoded, and the first search trial is at the midpoint of
/// `MIN_SCALE` and that ceiling (0.55 for a ceiling of one).
pub proof fn lemma_trials_bounded(
    src: Seq<u8>,
    width: u32,
    height: u32,
    mime: Seq<char>,
    allowed: Seq<String>,
    max_size: usize,
    max_width: Option<u32>,
)
    ensures
        trials_run(src, width, height, mime, allowed, max_size, max_width) <= 1 + SEARCH_ROUNDS,
        ceiling_of(max_width, width) == FULL_SCALE ==> (MIN_SCALE as int + ceiling_of(max_width, width)) / 2 == 5500,
{
    let ceiling = ceiling_of(max_width, width) as u32;
    lemma_search_trials_bound(src, width, height, max_size, MIN_SCALE, ceiling, SEARCH_ROUNDS as nat);
}

proof fn lemma_search_budget(
    src: Seq<u8>,
    width: u32,
    height: u32,
    max_size: usize,
    low: u32,
    high: u32,
    rounds: nat,
    best: Option<Seq<u8>>,
)
    requires
        best matches Some(b) ==> b.len() < max_size,
    ensures
        search(src, width, height, max_size, low, high, rounds, best) matches Outcome::Jpeg(d) ==> d.len() < max_size,
        !(search(src, width, height, max_size, low, high, rounds, best) is Source),
        search_encodes(src, width, height, max_size, low, high, rounds) ==> !(search(
            src,
            width,
            height,
            max_size,
            low,
            high,
            rounds,
            best,
        ) is EncodeFailed),
    decreases rounds,
{
    if rounds > 0 {
        let guess = ((low as int + high as int) / 2) as u32;
        if let Some(d) = trial(src, width, height, guess) {
            if d.len() < max_size {
                lemma_search_budget(src, width, height, max_size, guess, high, (rounds - 1) as nat, Some(d));
            } else {
                lemma_search_budget(src, width, height, max_size, low, guess, (rounds - 1) as nat, best);
            }
        }
    }
}

/// The budget holds: an image comes back in fewer than `max_size` bytes, or
/// the search fails as infeasible, whenever the trials it runs encode. With
/// a budget of zero the result is then infeasible.
pub proof fn lemma_outcome_within_budget(
    src: Seq<u8>,
    width: u32,
    height: u32,
    mime: Seq<char>,
    allowed: Seq<String>,
    max_size: usize,
    max_width: Option<u32>,
)
    ensures
        outcome(src, width, height, mime, allowed, max_size, max_width) matches Outcome::Jpeg(d) ==> d.len()
            < max_size,
        outcome(src, width, height, mime, allowed, max_size, max_width) is Source ==> src.len() < max_size,
        trials_encode(src, width, height, mime, allowed, max_size, max_width) ==> (outcome(
            src,
            width,
            height,
            mime,
            allowed,
            max_size,
            max_width,
        ) is Source || outcome(src, width, height, mime, allowed, max_size, max_width) is Jpeg || outcome(
            src,
            width,
            height,
            mime,
            allowed,
            max_size,
            max_width,
        ) is Infeasible),
        max_size == 0 && trials_encode(src, width, height, mime, allowed, max_size, max_width) ==> outcome(
            src,
            width,
            height,
            mime,
            allowed,
            max_size,
            max_width,
        ) is Infeasible,
{
    let ceiling = ceiling_of(max_width, width) as u32;
    lemma_search_budget(src, width, height, max_size, MIN_SCALE, ceiling, SEARCH_ROUNDS as nat, None);
}

/// `r` is what the outcome `o` says for an image of type `mime` and
/// extension `ext` decoded from `src`.
pub open spec fn meets(r: Result<Encoded, CompressError>, o: Outcome, src: Seq<u8>, mime: Seq<char>, ext: Seq<char>) -> bool {
    match o {
        Outcome::Source => r matches Ok(e) && e.data@ == src && e.mime@ == mime && e.extension@ == ext,
        Outcome::Jpeg(d) => r matches Ok(e) && e.data@ == d && e.mime@ == jpeg_mime() && e.extension@ == seq!['j', 'p', 'g'],
        Outcome::Infeasible => r matches Err(CompressError::Infeasible),
        Outcome::EncodeFailed => r matches Err(CompressError::Encode(_)),
    }
}

/// Encodes `img` as JPEG at `scale`, resizing first unless the width stays.
fn encode_at(img: &Decoded, scale: u32) -> (r: Result<Vec<u8>, String>)
    requires
        img.wf(),
        scale <= FULL_SCALE,
    ensures
        match r {
            Ok(d) => trial(img.spec_source(), img.spec_width(), img.spec_height(), scale) == Some(d@),
            Err(_) => trial(img.spec_source(), img.spec_width(), img.spec_height(), scale) is None,
        },
{
    let w = scaled(img.width, scale);
    let h = scaled(img.height, scale);
    if w == img.width {
        encode_full(img, JPEG_QUALITY)
    } else {
        encode_resized(img, w, h, JPEG_QUALITY)
    }
}

/// The JPEG form of `data`.
fn as_jpeg(data: Vec<u8>) -> (r: Encoded)
    ensures
        r.mime@ == jpeg_mime(),
        r.extension@ == seq!['j', 'p', 'g'],
        r.data@ == data@,
{
    proof {
        reveal_strlit("image/jpeg");
        reveal_strlit("jpg");
    }
    let r = Encoded { mime: String::from_str("image/jpeg"), extension: String::from_str("jpg"), data };
    assert(r.mime@ =~= jpeg_mime());
    assert(r.extension@ =~= seq!['j', 'p', 'g']);
    r
}

/// Brings the decoded image `img` under `max_size` bytes, as `outcome` says.
pub fn compress_decoded(img: &Decoded, max_size: usize, max_width: Option<u32>, allowed: &Vec<String>) -> (r: Result<
    Encoded,
    CompressError,
>)
    requires
        img.wf(),
    ensures
        meets(
            r,
            outcome(img.spec_source(), img.spec_width(), img.spec_height(), img.spec_mime(), allowed@, max_size, max_width),
            img.spec_source(),
            img.spec_mime(),
            img.spec_extension(),
        ),
        r matches Ok(e) ==> e.data@.len() < max_size,
{
    let ghost src = img.spec_source();
    if is_allowed(&img.mime, allowed) && img.source.len() < max_size {
        return Ok(Encoded { mime: img.mime.clone(), extension: img.extension.clone(), data: img.source.clone() });
    }
    let ceiling = scale_ceiling(max_width, img.width);
    let first = match encode_at(img, ceiling) {
        Ok(d) => d,
        Err(e) => return Err(CompressError::Encode(e)),
    };
    if first.len() < max_size {
        return Ok(as_jpeg(first));
    }
    let ghost whole = search(src, img.width, img.height, max_size, MIN_SCALE, ceiling, SEARCH_ROUNDS as nat, None);
    assert(outcome(src, img.width, img.height, img.mime@, allowed@, max_size, max_width) == whole);
    let mut low: u32 = MIN_SCALE;
    let mut high: u32 = ceiling;
    let mut best: Option<Vec<u8>> = None;
    let mut round: usize = 0;
    while round < SEARCH_ROUNDS
        invariant
            img.wf(),
            src == img.spec_source(),
            round <= SEARCH_ROUNDS,
            outcome(src, img.spec_width(), img.spec_height(), img.spec_mime(), allowed@, max_size, max_width) == whole,
            low <= FULL_SCALE,
            high <= FULL_SCALE,
            best matches Some(b) ==> b@.len() < max_size,
            search(src, img.width, img.height, max_size, low, high, (SEARCH_ROUNDS - round) as nat, match best {
                Some(b) => Some(b@),
                None => None,
            }) == whole,
        decreases SEARCH_ROUNDS - round,
    {
        let guess = midpoint(low, high);
        let data = match encode_at(img, guess) {
            Ok(d) => d,
            Err(e) => return Err(CompressError::Encode(e)),
        };
        let step = judge(low, high, data.len(), max_size);
        if step.stop {
            return Ok(as_jpeg(data));
        }
        low = step.low;
        high = step.high;
        if step.keep {
            best = Some(data);
        }
        round = round + 1;
    }
    match best {
        Some(b) => Ok(as_jpeg(b)),
        None => Err(CompressError::Infeasible),
    }
}

/// Decodes `source` and brings it under `max_size` bytes: a decode error
/// where the bytes do not decode, else what `outcome_of` says.
pub fn compress_image(source: &Vec<u8>, max_size: usize, max_width: Option<u32>, allowed: &Vec<String>) -> (r: Result<
    Encoded,
    CompressError,
>)
    ensures
        !decodes(source@) ==> r matches Err(CompressError::Decode(_)),
        decodes(source@) ==> meets(r, outcome_of(source@, allowed@, max_size, max_width), source@,
            mime_of(source@), extension_of(source@)),
        r matches Ok(e) ==> e.data@.len() < max_size,
{
    match decode_image(source) {
        Ok(img) => compress_decoded(&img, max_size, max_width, allowed),
        Err(e) => Err(CompressError::Decode(e)),
    }
}

} // verus!
