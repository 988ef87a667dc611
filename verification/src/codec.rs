//! Images as PNG data URLs, the form in which they travel between the
//! core and the front end.
use vstd::prelude::*;
use vstd::string::{StringExecFns, StringSliceAdditionalSpecFns};
use vstd::utf8::{encode_utf8, is_ascii_chars, is_ascii_chars_encode_utf8};

use base64::Engine;

use crate::raster::{ImageModel, RgbaImage};

verus! {

/// Why an image could not be read from, or written to, a data URL.  The
/// text that some variants carry is the decoder's or encoder's own
/// description of the failure.
#[derive(Debug, Clone, PartialEq, Eq)]
pub enum ImageDataError {
    /// The data URL has no `,` before its payload.
    MissingPayload,
    /// The payload is not valid standard base64.
    Base64(String),
    /// The decoded bytes are not an image that can be read.
    Decode(String),
    /// The image could not be encoded as PNG.
    Encode(String),
}

/// The PNG file that encoding an RGBA image of the given size and row-major
/// bytes produces, or `None` when encoding fails.
pub uninterp spec fn png_encoding(width: u32, height: u32, data: Seq<u8>) -> Option<Seq<u8>>;

/// The row-major RGBA bytes of the image of the given new size that
/// resampling an RGBA image of the given size and bytes with the triangle
/// (bilinear) filter gives.
pub uninterp spec fn resized_rgba(width: u32, height: u32, data: Seq<u8>, new_width: u32, new_height: u32) -> Seq<u8>;

/// The JPEG file that encoding an RGB image of the given size and
/// row-major bytes at the given quality produces, or `None` when encoding
/// fails.
pub uninterp spec fn jpeg_encoding(width: u32, height: u32, data: Seq<u8>, quality: u8) -> Option<Seq<u8>>;

/// The width, height and row-major RGBA bytes of the image that decoding
/// the file `bytes` gives, after conversion to 8-bit RGBA, or `None` when
/// the bytes cannot be decoded.
pub uninterp spec fn decoded_rgba(bytes: Seq<u8>) -> Option<(u32, u32, Seq<u8>)>;

/// Character of the standard base64 alphabet for a six-bit value.
pub open spec fn base64_digit(v: int) -> char {
    if v < 26 {
        ((65 + v) as u8) as char
    } else if v < 52 {
        ((97 + v - 26) as u8) as char
    } else if v < 62 {
        ((48 + v - 52) as u8) as char
    } else if v == 62 {
        '+'
    } else {
        '/'
    }
}

/// Standard base64 with `=` padding: each group of three bytes becomes
/// four characters, and a final group of one or two bytes is padded.
pub open spec fn base64_encode(data: Seq<u8>) -> Seq<char>
    decreases data.len(),
{
    if data.len() == 0 {
        seq![]
    } else if data.len() == 1 {
        seq![base64_digit((data[0] as int) / 4), base64_digit(((data[0] as int) % 4) * 16), '=', '=']
    } else if data.len() == 2 {
        seq![
            base64_digit((data[0] as int) / 4),
            base64_digit(((data[0] as int) % 4) * 16 + (data[1] as int) / 16),
            base64_digit(((data[1] as int) % 16) * 4),
            '=',
        ]
    } else {
        seq![
            base64_digit((data[0] as int) / 4),
            base64_digit(((data[0] as int) % 4) * 16 + (data[1] as int) / 16),
            base64_digit(((data[1] as int) % 16) * 4 + (data[2] as int) / 64),
            base64_digit((data[2] as int) % 64),
        ] + base64_encode(data.subrange(3, data.len() as int))
    }
}

/// ASCII bytes of ASCII characters.
pub open spec fn ascii_bytes(chars: Seq<char>) -> Seq<u8> {
    chars.map_values(|c: char| c as u8)
}

/// Whether `text` is the standard padded base64 encoding of some bytes.
pub open spec fn is_base64_text(text: Seq<u8>) -> bool {
    exists|data: Seq<u8>| text == ascii_bytes(#[trigger] base64_encode(data))
}

/// The bytes whose standard padded base64 encoding `text` is (unique, by
/// [`lemma_base64_encode_injective`]).
pub open spec fn base64_decoding(text: Seq<u8>) -> Seq<u8> {
    choose|data: Seq<u8>| text == ascii_bytes(#[trigger] base64_encode(data))
}

/// Bytes of the payload of a data URL: what follows its first `,`.
pub open spec fn data_url_payload(url: Seq<u8>) -> Option<Seq<u8>>
    decreases url.len(),
{
    if url.len() == 0 {
        None
    } else if url[0] == 44u8 {
        Some(url.drop_first())
    } else {
        data_url_payload(url.drop_first())
    }
}

/// Quality of the JPEG previews that the selection overlays show.
pub const PREVIEW_JPEG_QUALITY: u8 = 82;

/// The red, green and blue bytes of RGBA bytes, pixel by pixel: the
/// alpha channel dropped.
pub open spec fn rgb_of_rgba(rgba: Seq<u8>) -> Seq<u8> {
    Seq::new((rgba.len() / 4 * 3) as nat, |i: int| rgba[(i / 3) * 4 + i % 3])
}

/// Text that starts a JPEG data URL.
pub open spec fn jpeg_data_url_prefix() -> Seq<char> {
    seq!['d', 'a', 't', 'a', ':', 'i', 'm', 'a', 'g', 'e', '/', 'j', 'p', 'e', 'g', ';', 'b', 'a', 's', 'e', '6', '4', ',']
}

/// The image that a data URL carries, as [`data_url_to_image`] reads it,
/// or `None` when it cannot be read.
pub open spec fn image_of_data_url(url: Seq<u8>) -> Option<ImageModel> {
    match data_url_payload(url) {
        None => None,
        Some(p) => if !is_base64_text(p) {
            None
        } else {
            match decoded_rgba(base64_decoding(p)) {
                None => None,
                Some((w, h, data)) => Some(ImageModel::from_bytes(w as nat, h as nat, data)),
            }
        },
    }
}

/// Text that starts a PNG data URL.
pub open spec fn png_data_url_prefix() -> Seq<char> {
    seq!['d', 'a', 't', 'a', ':', 'i', 'm', 'a', 'g', 'e', '/', 'p', 'n', 'g', ';', 'b', 'a', 's', 'e', '6', '4', ',']
}

/// Encodes bytes as standard padded base64
/// (`base64::engine::general_purpose::STANDARD.encode`).  The result is
/// the RFC 4648 encoding; the crate panics only when the encoded length
/// overflows `usize`, which no buffer of at most `isize::MAX` bytes can
/// cause.
#[verifier::external_body]
fn base64_encode_bytes(data: &[u8]) -> (text: String)
    requires
        data@.len() <= isize::MAX,
    ensures
        text@ == base64_encode(data@),
{
    base64::engine::general_purpose::STANDARD.encode(data)
}

/// Decodes standard padded base64
/// (`base64::engine::general_purpose::STANDARD.decode`).  That engine
/// requires canonical `=` padding and rejects non-zero trailing bits, so
/// it accepts exactly the texts that [`base64_encode`] produces and gives
/// back the bytes they encode.  The error text is the crate's description
/// of the failure.
#[verifier::external_body]
fn base64_decode_bytes(input: &[u8]) -> (r: Result<Vec<u8>, String>)
    ensures
        match r {
            Ok(bytes) => input@ == ascii_bytes(base64_encode(bytes@)),
            Err(_) => !is_base64_text(input@),
        },
{
    base64::engine::general_purpose::STANDARD.decode(input).map_err(|error| error.to_string())
}

/// Encodes an RGBA image as a PNG file
/// (`image::write_buffer_with_format` with `ImageFormat::Png`, into an
/// in-memory buffer).  The bytes are named by [`png_encoding`]; like every
/// `Vec`, they number at most `isize::MAX`.  The PNG writer refuses only an
/// image of zero width or height (8-bit RGBA is supported and writing to
/// memory cannot fail), so every other image is encoded.  PNG is lossless
/// and the image is written as 8-bit RGBA, so reading the file back with
/// `image::load_from_memory` and `to_rgba8` ([`decoded_rgba`]) gives the
/// same size and bytes whenever the reader's reservation of the decoded
/// pixels, four bytes each, fits its default allocation limit of 512 MiB.
/// The error text is the crate's description of the failure.
#[verifier::external_body]
fn encode_png(width: u32, height: u32, data: &[u8]) -> (r: Result<Vec<u8>, String>)
    requires
        data@.len() == 4 * (width * height),
    ensures
        match r {
            Ok(bytes) => png_encoding(width, height, data@) == Some(bytes@) && bytes@.len()
                <= isize::MAX,
            Err(_) => png_encoding(width, height, data@) is None,
        },
        width == 0 || height == 0 <==> r is Err,
        r matches Ok(bytes) ==> (4 * (width * height) <= 536870912 ==> decoded_rgba(bytes@) == Some(
            (width, height, data@),
        )),
{
    let mut cursor = std::io::Cursor::new(Vec::new());
    image::write_buffer_with_format(
        &mut cursor,
        data,
        width,
        height,
        image::ExtendedColorType::Rgba8,
        image::ImageFormat::Png,
    ).map(|_| cursor.into_inner()).map_err(|error| error.to_string())
}

/// Encodes an RGB image as a JPEG file at the given quality
/// (`image::codecs::jpeg::JpegEncoder::new_with_quality` then `encode`
/// with `ExtendedColorType::Rgb8`, into an in-memory buffer).  The bytes
/// are named by [`jpeg_encoding`]; the encoder refuses exactly a width or
/// height of zero or above 65535 (8-bit RGB is supported and writing to
/// memory cannot fail).  The error text is the crate's description of the
/// failure.
#[verifier::external_body]
fn encode_jpeg(width: u32, height: u32, data: &[u8], quality: u8) -> (r: Result<Vec<u8>, String>)
    requires
        data@.len() == 3 * (width * height),
    ensures
        match r {
            Ok(bytes) => jpeg_encoding(width, height, data@, quality) == Some(bytes@) && bytes@.len()
                <= isize::MAX,
            Err(_) => jpeg_encoding(width, height, data@, quality) is None,
        },
        width == 0 || height == 0 || width > 65535 || height > 65535 <==> r is Err,
{
    let mut bytes = Vec::new();
    image::codecs::jpeg::JpegEncoder::new_with_quality(&mut bytes, quality).encode(
        data,
        width,
        height,
        image::ExtendedColorType::Rgb8,
    ).map(|_| bytes).map_err(|error| error.to_string())
}

/// Resamples an RGBA image to a new size with the triangle filter
/// (`image::imageops::resize` with `FilterType::Triangle`).  The result
/// has exactly the new size; its bytes are named by [`resized_rgba`].  An
/// image with no pixels resamples to a transparent one.  A new size of
/// zero, or one whose buffer would not fit in memory, is left out.
#[verifier::external_body]
fn resize_rgba(width: u32, height: u32, data: &[u8], new_width: u32, new_height: u32) -> (out: Vec<u8>)
    requires
        data@.len() == 4 * (width * height),
        new_width >= 1,
        new_height >= 1,
        4 * (new_width * new_height) <= isize::MAX,
    ensures
        out@ == resized_rgba(width, height, data@, new_width, new_height),
        out@.len() == 4 * (new_width * new_height),
{
    let source = image::ImageBuffer::<image::Rgba<u8>, &[u8]>::from_raw(width, height, data).unwrap();
    image::imageops::resize(&source, new_width, new_height, image::imageops::FilterType::Triangle).into_raw()
}

/// The image resampled to the given size with the triangle filter, as the
/// previews of the selection overlays are scaled.
pub fn resize_image(image: &RgbaImage, width: u32, height: u32) -> (out: RgbaImage)
    requires
        width >= 1,
        height >= 1,
        4 * (width * height) <= isize::MAX,
    ensures
        out@ == ImageModel::from_bytes(
            width as nat,
            height as nat,
            resized_rgba(image@.width as u32, image@.height as u32, image@.bytes(), width, height),
        ),
{
    proof {
        crate::raster::lemma_image_wf(image);
    }
    let (w, h) = image.dimensions();
    let data = resize_rgba(w, h, image.as_raw(), width, height);
    RgbaImage::from_raw(width, height, data).unwrap()
}

/// The red, green and blue bytes of an image, pixel by pixel, as
/// converting it to 8-bit RGB gives them.
pub fn rgb_bytes(image: &RgbaImage) -> (rgb: Vec<u8>)
    ensures
        rgb@ == rgb_of_rgba(image@.bytes()),
        rgb@.len() == 3 * (image@.width * image@.height),
{
    let raw = image.as_raw();
    let n = raw.len() / 4;
    let mut rgb: Vec<u8> = Vec::new();
    let mut k: usize = 0;
    let mut at: usize = 0;
    while k < n
        invariant
            k <= n,
            at == 4 * k,
            n == raw@.len() / 4,
            raw@.len() % 4 == 0,
            rgb@.len() == 3 * k,
            forall|i: int| 0 <= i < 3 * k ==> #[trigger] rgb@[i] == raw@[(i / 3) * 4 + i % 3],
        decreases n - k,
    {
        proof {
            assert(4 * k + 4 <= raw@.len());
        }
        rgb.push(raw[at]);
        rgb.push(raw[at + 1]);
        rgb.push(raw[at + 2]);
        proof {
            assert forall|i: int| 0 <= i < 3 * (k + 1) implies #[trigger] rgb@[i] == raw@[(i / 3) * 4 + i
                % 3] by {
                if i >= 3 * k {
                    assert(i / 3 == k && i % 3 == i - 3 * k);
                }
            }
        }
        k = k + 1;
        at = at + 4;
    }
    proof {
        assert(rgb@ =~= rgb_of_rgba(raw@));
    }
    rgb
}

/// Encodes an image, without its alpha channel, as a JPEG data URL at
/// [`PREVIEW_JPEG_QUALITY`]: `data:image/jpeg;base64,` followed by the
/// base64 of the JPEG file.
pub fn image_to_jpeg_data_url(image: &RgbaImage) -> (r: Result<String, ImageDataError>)
    ensures
        match jpeg_encoding(
            image@.width as u32,
            image@.height as u32,
            rgb_of_rgba(image@.bytes()),
            PREVIEW_JPEG_QUALITY,
        ) {
            None => r matches Err(ImageDataError::Encode(_)),
            Some(jpeg) => r matches Ok(url) && url@ == jpeg_data_url_prefix() + base64_encode(jpeg),
        },
        image@.width == 0 || image@.height == 0 || image@.width > 65535 || image@.height > 65535
            <==> r matches Err(ImageDataError::Encode(_)),
{
    let (width, height) = image.dimensions();
    let rgb = rgb_bytes(image);
    let jpeg = match encode_jpeg(width, height, rgb.as_slice(), PREVIEW_JPEG_QUALITY) {
        Ok(jpeg) => jpeg,
        Err(detail) => {
            return Err(ImageDataError::Encode(detail));
        },
    };
    let encoded = base64_encode_bytes(jpeg.as_slice());
    let mut url = "data:image/jpeg;base64,".to_owned();
    proof {
        reveal_strlit("data:image/jpeg;base64,");
    }
    url.append(encoded.as_str());
    Ok(url)
}

/// Decodes an image file of any supported format and converts it to 8-bit
/// RGBA (`image::load_from_memory` then `DynamicImage::to_rgba8`).  The
/// result is named by [`decoded_rgba`]; the converted buffer holds four
/// bytes per pixel.  The error text is the crate's description of the
/// failure.  That every decoder of the default format set answers
/// malformed bytes with an error rather than a panic is what the crate
/// intends, but is not established here.
#[verifier::external_body]
fn decode_image(bytes: &[u8]) -> (r: Result<(u32, u32, Vec<u8>), String>)
    ensures
        match r {
            Ok((w, h, data)) => decoded_rgba(bytes@) == Some((w, h, data@)) && data@.len() == 4 * (
            w * h),
            Err(_) => decoded_rgba(bytes@) is None,
        },
{
    image::load_from_memory(bytes).map(|decoded| decoded.to_rgba8()).map(
        |rgba| (rgba.width(), rgba.height(), rgba.into_raw()),
    ).map_err(|error| error.to_string())
}

/// The bytes of a data URL's payload, that is what follows its first `,`.
pub fn data_url_payload_bytes(data_url: &str) -> (payload: Option<&[u8]>)
    ensures
        match data_url_payload(data_url.spec_bytes()) {
            Some(p) => payload matches Some(b) && b@ == p,
            None => payload is None,
        },
{
    let bytes: &[u8] = data_url.as_bytes();
    let n = bytes.len();
    let mut i: usize = 0;
    proof {
        assert(bytes@.subrange(0, n as int) =~= bytes@);
    }
    while i < n
        invariant
            i <= n,
            n == bytes@.len(),
            bytes@ == data_url.spec_bytes(),
            data_url_payload(bytes@) == data_url_payload(bytes@.subrange(i as int, n as int)),
        decreases n - i,
    {
        let ghost rest = bytes@.subrange(i as int, n as int);
        proof {
            assert(rest.drop_first() =~= bytes@.subrange(i + 1, n as int));
        }
        if bytes[i] == 44u8 {
            let tail: &[u8] = &bytes[i + 1..n];
            proof {
                assert(rest[0] == 44u8);
                assert(data_url_payload(rest) == Some(rest.drop_first()));
                assert(tail@ == bytes@.subrange(i + 1, n as int));
            }
            return Some(tail);
        }
        i = i + 1;
    }
    None
}

/// Decodes the base64 payload of a data URL, as saving it to a file does.
pub fn data_url_to_bytes(data_url: &str) -> (r: Result<Vec<u8>, ImageDataError>)
    ensures
        match data_url_payload(data_url.spec_bytes()) {
            None => r == Err::<Vec<u8>, ImageDataError>(ImageDataError::MissingPayload),
            Some(p) => if is_base64_text(p) {
                r matches Ok(v) && v@ == base64_decoding(p)
            } else {
                r matches Err(ImageDataError::Base64(_))
            },
        },
        forall|png: Seq<u8>|
            #![trigger base64_encode(png)]
            data_url_payload(data_url.spec_bytes()) == Some(ascii_bytes(base64_encode(png))) ==> (r matches Ok(
                v,
            ) && v@ == png),
{
    let payload = match data_url_payload_bytes(data_url) {
        Some(p) => p,
        None => {
            return Err(ImageDataError::MissingPayload);
        },
    };
    match base64_decode_bytes(payload) {
        Ok(bytes) => {
            proof {
                let p = payload@;
                assert(p == ascii_bytes(base64_encode(bytes@)));
                assert(is_base64_text(p));
                let d = base64_decoding(p);
                lemma_base64_encode_injective(d, bytes@);
                assert forall|png: Seq<u8>| #![trigger base64_encode(png)]
                    p == ascii_bytes(base64_encode(png)) implies bytes@ == png by {
                    lemma_base64_encode_injective(png, bytes@);
                }
            }
            Ok(bytes)
        },
        Err(detail) => Err(ImageDataError::Base64(detail)),
    }
}

/// Reads the image that a data URL carries and converts it to RGBA.
pub fn data_url_to_image(data_url: &str) -> (r: Result<RgbaImage, ImageDataError>)
    ensures
        match data_url_payload(data_url.spec_bytes()) {
            None => r == Err::<RgbaImage, ImageDataError>(ImageDataError::MissingPayload),
            Some(p) => if !is_base64_text(p) {
                r matches Err(ImageDataError::Base64(_))
            } else {
                match decoded_rgba(base64_decoding(p)) {
                    None => r matches Err(ImageDataError::Decode(_)),
                    Some((w, h, data)) => r matches Ok(img) && img@ == ImageModel::from_bytes(
                        w as nat,
                        h as nat,
                        data,
                    ),
                }
            },
        },
        match image_of_data_url(data_url.spec_bytes()) {
            Some(m) => r matches Ok(img) && img@ == m,
            None => r is Err,
        },
{
    let bytes = data_url_to_bytes(data_url)?;
    match decode_image(bytes.as_slice()) {
        Ok((width, height, data)) => match RgbaImage::from_raw(width, height, data) {
            Some(img) => Ok(img),
            None => Err(ImageDataError::Decode(String::new())),
        },
        Err(detail) => Err(ImageDataError::Decode(detail)),
    }
}

/// Encodes an image as a PNG data URL:
/// `data:image/png;base64,` followed by the base64 of the PNG file.
pub fn image_to_data_url(image: &RgbaImage) -> (r: Result<String, ImageDataError>)
    ensures
        match png_encoding(image@.width as u32, image@.height as u32, image@.bytes()) {
            None => r matches Err(ImageDataError::Encode(_)),
            Some(png) => r matches Ok(url) && url@ == png_data_url_prefix() + base64_encode(png),
        },
        image@.width == 0 || image@.height == 0 ==> r matches Err(ImageDataError::Encode(_)),
        image@.width > 0 && image@.height > 0 ==> r is Ok,
        r matches Ok(url) ==> (4 * (image@.width * image@.height) <= 536870912 ==> image_of_data_url(
            encode_utf8(url@),
        ) == Some(image@)),
{
    let (width, height) = image.dimensions();
    let raw = image.as_raw();
    let png = match encode_png(width, height, raw) {
        Ok(png) => png,
        Err(detail) => {
            return Err(ImageDataError::Encode(detail));
        },
    };
    let encoded = base64_encode_bytes(png.as_slice());
    let mut url = "data:image/png;base64,".to_owned();
    proof {
        reveal_strlit("data:image/png;base64,");
    }
    url.append(encoded.as_str());
    proof {
        let p = png@;
        lemma_png_data_url_payload(p);
        let payload = ascii_bytes(base64_encode(p));
        assert(url@ == png_data_url_prefix() + base64_encode(p));
        assert(is_base64_text(payload));
        lemma_base64_encode_injective(base64_decoding(payload), p);
    }
    Ok(url)
}

/// Each base64 digit is a distinct ASCII byte other than `=`.
proof fn lemma_base64_digit_bytes(v: int, w: int)
    requires
        0 <= v < 64,
        0 <= w < 64,
    ensures
        (base64_digit(v) as u8) != 61u8,
        (base64_digit(v) as u8) == (base64_digit(w) as u8) ==> v == w,
{
}

/// Different bytes have different base64 encodings.
pub proof fn lemma_base64_encode_injective(a: Seq<u8>, b: Seq<u8>)
    requires
        ascii_bytes(base64_encode(a)) == ascii_bytes(base64_encode(b)),
    ensures
        a == b,
    decreases a.len(),
{
    let ea = ascii_bytes(base64_encode(a));
    let eb = ascii_bytes(base64_encode(b));
    if a.len() == 0 || b.len() == 0 {
        assert(ea.len() == 0 || eb.len() == 0);
        if a.len() != 0 {
            assert(ea.len() >= 4);
        }
        if b.len() != 0 {
            assert(eb.len() >= 4);
        }
        assert(a =~= b);
    } else {
        assert(ea.len() >= 4 && eb.len() >= 4);
        let a0 = a[0] as int;
        let b0 = b[0] as int;
        let ca = base64_encode(a);
        let cb = base64_encode(b);
        assert(ca[0] == base64_digit(a0 / 4));
        assert(cb[0] == base64_digit(b0 / 4));
        assert(ea[0] == ca[0] as u8 && eb[0] == cb[0] as u8);
        lemma_base64_digit_bytes(a0 / 4, b0 / 4);
        assert(a0 / 4 == b0 / 4);
        if a.len() == 1 {
            lemma_base64_digit_bytes((a0 % 4) * 16, 0);
            if b.len() >= 2 {
                let b1 = b[1] as int;
                let b2 = if b.len() >= 3 { b[2] as int } else { 0 };
                lemma_base64_digit_bytes((b1 % 16) * 4 + b2 / 64, 0);
                assert(ca[2] == '=');
                assert(cb[2] == base64_digit((b1 % 16) * 4 + b2 / 64));
                assert(ea[2] == ca[2] as u8 && eb[2] == cb[2] as u8);
                assert(false);
            }
            lemma_base64_digit_bytes((a0 % 4) * 16, (b0 % 4) * 16);
            assert(ca[1] == base64_digit((a0 % 4) * 16));
            assert(cb[1] == base64_digit((b0 % 4) * 16));
            assert(ea[1] == ca[1] as u8 && eb[1] == cb[1] as u8);
            assert(a =~= b);
        } else if b.len() == 1 {
            lemma_base64_encode_injective(b, a);
        } else {
            let a1 = a[1] as int;
            let b1 = b[1] as int;
            let a2 = if a.len() >= 3 { a[2] as int } else { 0 };
            let b2 = if b.len() >= 3 { b[2] as int } else { 0 };
            lemma_base64_digit_bytes((a0 % 4) * 16 + a1 / 16, (b0 % 4) * 16 + b1 / 16);
            lemma_base64_digit_bytes((a1 % 16) * 4 + a2 / 64, (b1 % 16) * 4 + b2 / 64);
            assert(ea[1] == ca[1] as u8 && eb[1] == cb[1] as u8);
            assert(ea[2] == ca[2] as u8 && eb[2] == cb[2] as u8);
            assert(ca[1] == base64_digit((a0 % 4) * 16 + a1 / 16));
            assert(cb[1] == base64_digit((b0 % 4) * 16 + b1 / 16));
            assert(ca[2] == base64_digit((a1 % 16) * 4 + a2 / 64));
            assert(cb[2] == base64_digit((b1 % 16) * 4 + b2 / 64));
            assert((a0 % 4) * 16 + a1 / 16 == (b0 % 4) * 16 + b1 / 16);
            assert((a1 % 16) * 4 + a2 / 64 == (b1 % 16) * 4 + b2 / 64);
            assert(a0 == b0) by {
                assert(a0 % 4 == b0 % 4);
            }
            assert(a1 == b1) by {
                assert(a1 / 16 == b1 / 16);
                assert(a1 % 16 == b1 % 16);
            }
            if a.len() == 2 || b.len() == 2 {
                assert(ea[3] == ca[3] as u8 && eb[3] == cb[3] as u8);
                if a.len() >= 3 {
                    lemma_base64_digit_bytes(a2 % 64, 0);
                    assert(ca[3] == base64_digit(a2 % 64));
                    assert(cb[3] == '=');
                    assert(false);
                }
                if b.len() >= 3 {
                    lemma_base64_digit_bytes(b2 % 64, 0);
                    assert(cb[3] == base64_digit(b2 % 64));
                    assert(ca[3] == '=');
                    assert(false);
                }
                assert(a =~= b);
            } else {
                lemma_base64_digit_bytes(a2 % 64, b2 % 64);
                assert(ea[3] == ca[3] as u8 && eb[3] == cb[3] as u8);
                assert(ca[3] == base64_digit(a2 % 64));
                assert(cb[3] == base64_digit(b2 % 64));
                assert(a2 == b2) by {
                    assert(a2 / 64 == b2 / 64);
                    assert(a2 % 64 == b2 % 64);
                }
                let ta = a.subrange(3, a.len() as int);
                let tb = b.subrange(3, b.len() as int);
                assert(ascii_bytes(base64_encode(ta)) =~= ea.subrange(4, ea.len() as int));
                assert(ascii_bytes(base64_encode(tb)) =~= eb.subrange(4, eb.len() as int));
                lemma_base64_encode_injective(ta, tb);
                assert(a.len() == b.len());
                assert forall|i: int| 0 <= i < a.len() implies a[i] == b[i] by {
                    if i >= 3 {
                        assert(a[i] == ta[i - 3] && b[i] == tb[i - 3]);
                    }
                }
                assert(a =~= b);
            }
        }
    }
}

/// Standard base64 text is ASCII.
pub proof fn lemma_base64_is_ascii(data: Seq<u8>)
    ensures
        is_ascii_chars(base64_encode(data)),
    decreases data.len(),
{
    if data.len() >= 3 {
        lemma_base64_is_ascii(data.subrange(3, data.len() as int));
        let head = seq![
            base64_digit((data[0] as int) / 4),
            base64_digit(((data[0] as int) % 4) * 16 + (data[1] as int) / 16),
            base64_digit(((data[1] as int) % 16) * 4 + (data[2] as int) / 64),
            base64_digit((data[2] as int) % 64),
        ];
        assert(is_ascii_chars(head));
        assert(base64_encode(data) == head + base64_encode(data.subrange(3, data.len() as int)));
    }
}

proof fn lemma_payload_skip(u: Seq<u8>, i: nat)
    requires
        i <= u.len(),
        forall|j: int| 0 <= j < i ==> u[j] != 44u8,
    ensures
        data_url_payload(u) == data_url_payload(u.subrange(i as int, u.len() as int)),
    decreases i,
{
    if i == 0 {
        assert(u.subrange(0, u.len() as int) =~= u);
    } else {
        let t = u.drop_first();
        lemma_payload_skip(t, (i - 1) as nat);
        assert(t.subrange(i - 1, t.len() as int) =~= u.subrange(i as int, u.len() as int));
    }
}

/// What follows the prefix of a PNG data URL is read back as its payload:
/// the bytes that saving or decoding a data URL reads are exactly the
/// base64 text that [`image_to_data_url`] wrote after the prefix.
pub proof fn lemma_png_data_url_payload(png: Seq<u8>)
    ensures
        data_url_payload(encode_utf8(png_data_url_prefix() + base64_encode(png))) == Some(
            ascii_bytes(base64_encode(png)),
        ),
{
    let enc = base64_encode(png);
    let all = png_data_url_prefix() + enc;
    lemma_base64_is_ascii(png);
    assert(is_ascii_chars(png_data_url_prefix()));
    assert(is_ascii_chars(all));
    is_ascii_chars_encode_utf8(all);
    let u = encode_utf8(all);
    assert(u =~= ascii_bytes(png_data_url_prefix()) + ascii_bytes(enc));
    assert forall|j: int| 0 <= j < 21 implies u[j] != 44u8 by {}
    lemma_payload_skip(u, 21);
    let rest = u.subrange(21, u.len() as int);
    assert(rest[0] == 44u8);
    assert(rest.drop_first() =~= ascii_bytes(enc));
}

} // verus!
