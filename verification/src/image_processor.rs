//! The image side of a crawl: finding candidate image URLs in a page,
//! reading image dimensions out of raw file headers (PNG, JPEG, GIF and
//! simple WEBP), sizing them against the configured minimums, and choosing
//! the file extension a download is stored under.
//!
//! Downloading, file handling and the external face-detection process live
//! outside; what decides is verified here.

use url::Url;
use vstd::prelude::*;

verus! {

/// Settings for the image pipeline: where accepted images go, where the
/// detection model lives, and the smallest size worth detecting on.
pub struct ImageProcessor {
    pub output_dir: String,
    pub model_path: String,
    pub min_width: u32,
    pub min_height: u32,
}

/// Every `src` attribute of an image element in the document, in document
/// order.
pub uninterp spec fn img_srcs_of(html: Seq<char>) -> Seq<Seq<char>>;

/// Relies on scraper (Html::parse_document, Selector::parse, Html::select,
/// Element::attr): the src attributes of the document's `img[src]`
/// elements, in document order, a function of the document text alone.
#[verifier::external_body]
fn html_img_srcs(html: &str) -> (r: Vec<String>)
    ensures
        r.deep_view() == img_srcs_of(html@),
{
    let document = scraper::Html::parse_document(html);
    let selector = scraper::Selector::parse("img[src]").unwrap();
    let mut out = Vec::new();
    for element in document.select(&selector) {
        if let Some(src) = element.value().attr("src") {
            out.push(src.to_string());
        }
    }
    out
}

/// Whether a src attribute is worth resolving: non-empty and not an
/// inline data URI.
pub open spec fn usable_src(s: Seq<char>) -> bool {
    !"data:"@.is_prefix_of(s) && s.len() > 0
}

/// Whether a src attribute is worth resolving: see `usable_src`.
pub fn src_is_usable(src: &str) -> (r: bool)
    ensures
        r == usable_src(src@),
{
    if crate::text::str_starts_with(src, "data:") {
        return false;
    }
    !src.is_empty()
}

/// Whether a lowercased URL path looks like an image: a known image file
/// extension, or an image- or photo-shaped path segment.
pub open spec fn image_path_spec(p: Seq<char>) -> bool {
    ||| ".jpg"@.is_suffix_of(p)
    ||| ".jpeg"@.is_suffix_of(p)
    ||| ".png"@.is_suffix_of(p)
    ||| ".webp"@.is_suffix_of(p)
    ||| ".gif"@.is_suffix_of(p)
    ||| crate::text::contains_seq(p, "/image"@)
    ||| crate::text::contains_seq(p, "/photo"@)
}

/// Whether the path, lowercased, looks like an image.
pub fn is_image_path(path: &str) -> (r: bool)
    ensures
        r == image_path_spec(crate::text::lower_seq(path@)),
{
    let low = crate::text::ascii_lowercase(path);
    if crate::text::str_ends_with(low.as_str(), ".jpg") {
        return true;
    }
    if crate::text::str_ends_with(low.as_str(), ".jpeg") {
        return true;
    }
    if crate::text::str_ends_with(low.as_str(), ".png") {
        return true;
    }
    if crate::text::str_ends_with(low.as_str(), ".webp") {
        return true;
    }
    if crate::text::str_ends_with(low.as_str(), ".gif") {
        return true;
    }
    if crate::text::str_contains(low.as_str(), "/image") {
        return true;
    }
    crate::text::str_contains(low.as_str(), "/photo")
}

impl ImageProcessor {
    /// An image pipeline with the given output directory, model path and
    /// minimum acceptable dimensions.
    pub fn new(output_dir: &str, model_path: &str, min_width: u32, min_height: u32) -> (r:
        ImageProcessor)
        ensures
            r.output_dir@ == output_dir@,
            r.model_path@ == model_path@,
            r.min_width == min_width,
            r.min_height == min_height,
    {
        ImageProcessor {
            output_dir: output_dir.to_owned(),
            model_path: model_path.to_owned(),
            min_width,
            min_height,
        }
    }

    /// All candidate image URLs of the document, resolved against the URL
    /// serialized as `base_url`: every `img[src]` target that is not a data
    /// URI, resolves, is http or https, and whose lowercased path looks
    /// like an image, each serialization once.
    pub fn extract_image_url_strings(html: &str, base_url: &str) -> (r: Vec<String>)
        ensures
            r.deep_view() == image_urls_spec(html@, base_url@),
    {
        let srcs = html_img_srcs(html);
        let ghost ss = srcs.deep_view();
        let n = srcs.len();
        let mut images: Vec<String> = Vec::new();
        let mut i: usize = 0;
        while i < n
            invariant
                i <= n,
                n == srcs.len(),
                ss == srcs.deep_view(),
                images.deep_view() == clean_image_urls(ss.subrange(0, i as int), base_url@),
            decreases n - i,
        {
            proof {
                assert(ss.subrange(0, i + 1).drop_last() =~= ss.subrange(0, i as int));
                assert(ss.subrange(0, i + 1).last() == ss[i as int]);
                assert(ss[i as int] == srcs@[i as int]@);
            }
            if src_is_usable(srcs[i].as_str()) {
                match crate::urls::join_url_ser(base_url, srcs[i].as_str()) {
                    Option::Some(ser) => {
                        let keep = match crate::urls::scheme_of_ser(ser.as_str()) {
                            Option::Some(sch) => crate::text::str_eq(sch.as_str(), "http")
                                || crate::text::str_eq(sch.as_str(), "https"),
                            Option::None => false,
                        };
                        let looks_like_image = match crate::urls::path_of_ser(ser.as_str()) {
                            Option::Some(path) => is_image_path(path.as_str()),
                            Option::None => false,
                        };
                        if keep && looks_like_image {
                            if !crate::text::string_vec_contains(&images, ser.as_str()) {
                                let ghost before = images.deep_view();
                                images.push(ser);
                                proof {
                                    assert(images.deep_view() =~= before.push(
                                        resolved_image_url(base_url@, ss[i as int])->0,
                                    ));
                                }
                            }
                        }
                    },
                    Option::None => {},
                }
            }
            i += 1;
        }
        proof {
            assert(ss.subrange(0, n as int) =~= ss);
        }
        images
    }

    /// All candidate image URLs of the document resolved against the URL
    /// serialized as `base_url`, as parsed values for callers that work
    /// with the url crate: the serializations of
    /// `extract_image_url_strings`, parsed back, in order. Of a `Url`
    /// value itself the verifier can say nothing, so the contract counts
    /// the serializations that parse back; what they hold is stated on
    /// `extract_image_url_strings`.
    pub fn extract_image_urls(html: &str, base_url: &str) -> (images: Vec<Url>)
        ensures
            images@.len() == parseable_url_count(image_urls_spec(html@, base_url@)),
    {
        let strings = Self::extract_image_url_strings(html, base_url);
        let ghost ss = strings.deep_view();
        let n = strings.len();
        let mut images: Vec<Url> = Vec::new();
        let mut i: usize = 0;
        while i < n
            invariant
                i <= n,
                n == strings.len(),
                ss == strings.deep_view(),
                images@.len() == parseable_url_count(ss.subrange(0, i as int)),
            decreases n - i,
        {
            proof {
                assert(ss.subrange(0, i + 1).drop_last() =~= ss.subrange(0, i as int));
                assert(ss.subrange(0, i + 1).last() == ss[i as int]);
                assert(ss[i as int] == strings@[i as int]@);
            }
            match crate::urls::url_parse(strings[i].as_str()) {
                Option::Some(u) => {
                    images.push(u);
                },
                Option::None => {},
            }
            i += 1;
        }
        proof {
            assert(ss.subrange(0, n as int) =~= ss);
        }
        images
    }

    /// Whether the image bytes are large enough for face detection: both
    /// header dimensions reach the configured minimums. Bytes whose
    /// dimensions cannot be read are let through.
    pub fn check_image_size(&self, bytes: &[u8]) -> (r: bool)
        ensures
            r == match image_dims_spec(bytes@) {
                Option::Some(d) => d.0 >= self.min_width && d.1 >= self.min_height,
                Option::None => true,
            },
    {
        match Self::get_image_dimensions(bytes) {
            Option::Some(dims) => {
                let (width, height) = dims;
                width >= self.min_width && height >= self.min_height
            },
            Option::None => true,
        }
    }

    /// The (width, height) read from the image header, for PNG, JPEG, GIF
    /// and simple lossy WEBP files; nothing for anything else.
    pub fn get_image_dimensions(bytes: &[u8]) -> (r: Option<(u32, u32)>)
        ensures
            r == image_dims_spec(bytes@),
    {
        let n = bytes.len();
        if n < 24 {
            return None;
        }
        if is_png(bytes) {
            let width = be32_at(bytes, 16);
            let height = be32_at(bytes, 20);
            return Some((width, height));
        }
        if is_jpeg(bytes) {
            return Self::jpeg_dimensions(bytes);
        }
        if is_gif(bytes) {
            let width = le16_at(bytes, 6);
            let height = le16_at(bytes, 8);
            return Some((width, height));
        }
        if is_simple_vp8(bytes) {
            let width = le16_at(bytes, 26) % 0x4000;
            let height = le16_at(bytes, 28) % 0x4000;
            return Some((width, height));
        }
        None
    }

    /// Walk the JPEG segment list for a start-of-frame marker and read the
    /// frame dimensions out of it.
    fn jpeg_dimensions(bytes: &[u8]) -> (r: Option<(u32, u32)>)
        requires
            bytes@.len() >= 3,
        ensures
            r == jpeg_dims_from(bytes@, 2),
    {
        let n = bytes.len();
        let mut i: usize = 2;
        while n > 9 && i < n - 9
            invariant
                2 <= i <= n,
                n == bytes@.len(),
                jpeg_dims_from(bytes@, 2) == jpeg_dims_from(bytes@, i as int),
            decreases n - i,
        {
            if bytes[i] != 0xFF {
                i += 1;
            } else {
                let marker = bytes[i + 1];
                if 0xC0 <= marker && marker <= 0xC3 {
                    let height = be16_at(bytes, i + 5);
                    let width = be16_at(bytes, i + 7);
                    return Some((width, height));
                }
                let length = be16_at(bytes, i + 2) as usize;
                let room = n - i;
                if length + 11 < room {
                    i = i + 2 + length;
                } else {
                    proof {
                        assert(jpeg_dims_from(bytes@, i as int) is None);
                    }
                    return None;
                }
            }
        }
        None
    }

    /// The file extension a downloaded image is stored under: the
    /// lowercased piece of the path after its last dot when that names a
    /// known image format, otherwise `jpg`.
    pub fn image_extension(path: &str) -> (r: String)
        ensures
            r@ == extension_spec(path@),
    {
        let n = path.unicode_len();
        let mut tail: Vec<char> = Vec::new();
        let mut i: usize = 0;
        while i < n
            invariant
                i <= n,
                n == path@.len(),
                tail@ == after_last_dot(path@.subrange(0, i as int)),
            decreases n - i,
        {
            proof {
                assert(path@.subrange(0, i + 1).drop_last() =~= path@.subrange(0, i as int));
                assert(path@.subrange(0, i + 1).last() == path@[i as int]);
            }
            let c = path.get_char(i);
            if c == '.' {
                tail.clear();
            } else {
                tail.push(c);
            }
            i += 1;
        }
        proof {
            assert(path@.subrange(0, n as int) =~= path@);
        }
        let mut raw = String::new();
        let mut j: usize = 0;
        while j < tail.len()
            invariant
                j <= tail@.len(),
                raw@ == tail@.subrange(0, j as int),
            decreases tail@.len() - j,
        {
            crate::text::push_char(&mut raw, tail[j]);
            proof {
                assert(tail@.subrange(0, j + 1) =~= tail@.subrange(0, j as int).push(
                    tail@[j as int],
                ));
            }
            j += 1;
        }
        proof {
            assert(tail@.subrange(0, tail@.len() as int) =~= tail@);
        }
        let low = crate::text::ascii_lowercase(raw.as_str());
        let known = crate::text::str_eq(low.as_str(), "jpg") || crate::text::str_eq(
            low.as_str(),
            "jpeg",
        ) || crate::text::str_eq(low.as_str(), "png") || crate::text::str_eq(low.as_str(), "webp")
            || crate::text::str_eq(low.as_str(), "gif");
        if known {
            low
        } else {
            String::from_str("jpg")
        }
    }
}

/// What one src attribute of a page becomes: nothing for a data URI, an
/// empty or unresolvable src, a non-http(s) resolution, or a path that
/// does not look like an image; otherwise the resolved URL's
/// serialization.
pub open spec fn resolved_image_url(base: Seq<char>, src: Seq<char>) -> Option<Seq<char>> {
    if !usable_src(src) {
        Option::None
    } else {
        match crate::urls::joined_url_of(base, src) {
            Option::Some(ser) => {
                if (crate::urls::scheme_of(ser) == Option::Some("http"@) || crate::urls::scheme_of(
                    ser,
                ) == Option::Some("https"@)) && (match crate::urls::path_of(ser) {
                    Option::Some(p) => image_path_spec(crate::text::lower_seq(p)),
                    Option::None => false,
                }) {
                    Option::Some(ser)
                } else {
                    Option::None
                }
            },
            Option::None => Option::None,
        }
    }
}

/// The image URLs kept from a sequence of src attributes resolved against
/// one base: each resolves as `resolved_image_url` says, and of equal
/// serializations only the first is kept.
pub open spec fn clean_image_urls(srcs: Seq<Seq<char>>, base: Seq<char>) -> Seq<Seq<char>>
    decreases srcs.len(),
{
    if srcs.len() == 0 {
        Seq::empty()
    } else {
        let prev = clean_image_urls(srcs.drop_last(), base);
        match resolved_image_url(base, srcs.last()) {
            Option::Some(ser) => if !prev.contains(ser) {
                prev.push(ser)
            } else {
                prev
            },
            Option::None => prev,
        }
    }
}

/// All candidate image URLs of the document against the URL serialized as
/// `base`: see `resolved_image_url` and `clean_image_urls`.
pub open spec fn image_urls_spec(html: Seq<char>, base: Seq<char>) -> Seq<Seq<char>> {
    clean_image_urls(img_srcs_of(html), base)
}

/// How many of the kept serializations parse back into url-crate values.
pub open spec fn parseable_url_count(ss: Seq<Seq<char>>) -> nat
    decreases ss.len(),
{
    if ss.len() == 0 {
        0
    } else {
        parseable_url_count(ss.drop_last()) + if crate::urls::parsed_url_of(ss.last()) is Some {
            1nat
        } else {
            0nat
        }
    }
}

/// Whether a response's content type is an image the pipeline should
/// download at all.
pub fn content_type_is_image(ct: &str) -> (r: bool)
    ensures
        r == crate::text::contains_seq(ct@, "image/"@),
{
    crate::text::str_contains(ct, "image/")
}

/// The big-endian 16-bit value at offset `i`.
pub open spec fn be16(b: Seq<u8>, i: int) -> int {
    b[i] * 256 + b[i + 1]
}

/// The little-endian 16-bit value at offset `i`.
pub open spec fn le16(b: Seq<u8>, i: int) -> int {
    b[i + 1] * 256 + b[i]
}

/// The big-endian 32-bit value at offset `i`.
pub open spec fn be32(b: Seq<u8>, i: int) -> int {
    b[i] * 0x1000000 + b[i + 1] * 0x10000 + b[i + 2] * 0x100 + b[i + 3]
}

/// The big-endian 16-bit value at offset `i`.
fn be16_at(bytes: &[u8], i: usize) -> (r: u32)
    requires
        i + 1 < bytes@.len(),
    ensures
        r == be16(bytes@, i as int),
{
    let n = bytes.len();
    (bytes[i] as u32) * 256 + (bytes[i + 1] as u32)
}

/// The little-endian 16-bit value at offset `i`.
fn le16_at(bytes: &[u8], i: usize) -> (r: u32)
    requires
        i + 1 < bytes@.len(),
    ensures
        r == le16(bytes@, i as int),
{
    let n = bytes.len();
    (bytes[i + 1] as u32) * 256 + (bytes[i] as u32)
}

/// The big-endian 32-bit value at offset `i`.
fn be32_at(bytes: &[u8], i: usize) -> (r: u32)
    requires
        i + 3 < bytes@.len(),
    ensures
        r == be32(bytes@, i as int),
{
    let n = bytes.len();
    (bytes[i] as u32) * 0x1000000 + (bytes[i + 1] as u32) * 0x10000 + (bytes[i + 2] as u32) * 0x100
        + (bytes[i + 3] as u32)
}

/// The PNG file signature.
pub open spec fn is_png_sig(b: Seq<u8>) -> bool {
    b.len() >= 8 && b[0] == 0x89 && b[1] == 0x50 && b[2] == 0x4E && b[3] == 0x47 && b[4] == 0x0D
        && b[5] == 0x0A && b[6] == 0x1A && b[7] == 0x0A
}

/// The JPEG file signature.
pub open spec fn is_jpeg_sig(b: Seq<u8>) -> bool {
    b.len() >= 3 && b[0] == 0xFF && b[1] == 0xD8 && b[2] == 0xFF
}

/// The GIF87a or GIF89a file signature.
pub open spec fn is_gif_sig(b: Seq<u8>) -> bool {
    b.len() >= 6 && b[0] == 0x47 && b[1] == 0x49 && b[2] == 0x46 && b[3] == 0x38 && (b[4] == 0x37
        || b[4] == 0x39) && b[5] == 0x61
}

/// A RIFF WEBP container holding a simple lossy VP8 frame, large enough to
/// read the frame size from.
pub open spec fn is_vp8_sig(b: Seq<u8>) -> bool {
    b.len() > 30 && b[0] == 0x52 && b[1] == 0x49 && b[2] == 0x46 && b[3] == 0x46 && b[8] == 0x57
        && b[9] == 0x45 && b[10] == 0x42 && b[11] == 0x50 && b[12] == 0x56 && b[13] == 0x50 && b[14]
        == 0x38 && b[15] == 0x20
}

/// The PNG file signature.
fn is_png(bytes: &[u8]) -> (r: bool)
    requires
        bytes@.len() >= 8,
    ensures
        r == is_png_sig(bytes@),
{
    bytes[0] == 0x89 && bytes[1] == 0x50 && bytes[2] == 0x4E && bytes[3] == 0x47 && bytes[4]
        == 0x0D && bytes[5] == 0x0A && bytes[6] == 0x1A && bytes[7] == 0x0A
}

/// The JPEG file signature.
fn is_jpeg(bytes: &[u8]) -> (r: bool)
    requires
        bytes@.len() >= 3,
    ensures
        r == is_jpeg_sig(bytes@),
{
    bytes[0] == 0xFF && bytes[1] == 0xD8 && bytes[2] == 0xFF
}

/// The GIF87a or GIF89a file signature.
fn is_gif(bytes: &[u8]) -> (r: bool)
    requires
        bytes@.len() >= 6,
    ensures
        r == is_gif_sig(bytes@),
{
    bytes[0] == 0x47 && bytes[1] == 0x49 && bytes[2] == 0x46 && bytes[3] == 0x38 && (bytes[4]
        == 0x37 || bytes[4] == 0x39) && bytes[5] == 0x61
}

/// A RIFF WEBP container holding a simple lossy VP8 frame.
fn is_simple_vp8(bytes: &[u8]) -> (r: bool)
    ensures
        r == is_vp8_sig(bytes@),
{
    if bytes.len() <= 30 {
        return false;
    }
    bytes[0] == 0x52 && bytes[1] == 0x49 && bytes[2] == 0x46 && bytes[3] == 0x46 && bytes[8]
        == 0x57 && bytes[9] == 0x45 && bytes[10] == 0x42 && bytes[11] == 0x50 && bytes[12] == 0x56
        && bytes[13] == 0x50 && bytes[14] == 0x38 && bytes[15] == 0x20
}

/// The dimensions walked out of a JPEG segment list from offset `i` on: a
/// start-of-frame marker's height and width fields, or nothing before the
/// bytes run out.
pub open spec fn jpeg_dims_from(b: Seq<u8>, i: int) -> Option<(u32, u32)>
    decreases b.len() - i,
{
    if i < 0 || i + 9 >= b.len() {
        None
    } else if b[i] != 0xFF {
        jpeg_dims_from(b, i + 1)
    } else if 0xC0 <= b[i + 1] <= 0xC3 {
        Some((be16(b, i + 7) as u32, be16(b, i + 5) as u32))
    } else {
        if i + 2 + be16(b, i + 2) + 9 >= b.len() {
            None
        } else {
            jpeg_dims_from(b, i + 2 + be16(b, i + 2))
        }
    }
}

/// The (width, height) a header scan reads from raw image bytes: the PNG
/// IHDR fields, a JPEG start-of-frame, the GIF screen descriptor, or a
/// simple VP8 frame size; nothing for anything shorter than a header or of
/// an unknown format.
pub open spec fn image_dims_spec(b: Seq<u8>) -> Option<(u32, u32)> {
    if b.len() < 24 {
        None
    } else if is_png_sig(b) {
        Some((be32(b, 16) as u32, be32(b, 20) as u32))
    } else if is_jpeg_sig(b) {
        jpeg_dims_from(b, 2)
    } else if is_gif_sig(b) {
        Some((le16(b, 6) as u32, le16(b, 8) as u32))
    } else if is_vp8_sig(b) {
        Some(((le16(b, 26) % 0x4000) as u32, (le16(b, 28) % 0x4000) as u32))
    } else {
        None
    }
}

/// The piece of the string after its last dot: the whole string when it
/// has no dot, empty when it ends with one.
pub open spec fn after_last_dot(p: Seq<char>) -> Seq<char>
    decreases p.len(),
{
    if p.len() == 0 {
        p
    } else if p.last() == '.' {
        Seq::empty()
    } else {
        after_last_dot(p.drop_last()).push(p.last())
    }
}

/// The file extension a downloaded image is stored under: see
/// `ImageProcessor::image_extension`.
pub open spec fn extension_spec(path: Seq<char>) -> Seq<char> {
    let t = crate::text::lower_seq(after_last_dot(path));
    if t == "jpg"@ || t == "jpeg"@ || t == "png"@ || t == "webp"@ || t == "gif"@ {
        t
    } else {
        "jpg"@
    }
}

} // verus!
