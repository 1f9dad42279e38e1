use vstd::prelude::*;

use crate::args::Args;
use crate::text::push_char;
use std::io::Cursor;

verus! {

/// The kinds of embedded image that the tool tells apart.
#[derive(PartialEq, Eq, Structural, Debug, Clone, Copy)]
pub enum Img {
    Avif,
    Jpeg,
    Png,
    Webp,
    Unsupported,
}

/// `data:image/`
pub open spec fn data_image() -> Seq<char> {
    seq!['d', 'a', 't', 'a', ':', 'i', 'm', 'a', 'g', 'e', '/']
}

/// `;base64,`
pub open spec fn base64_marker() -> Seq<char> {
    seq![';', 'b', 'a', 's', 'e', '6', '4', ',']
}

impl Img {
    /// The data-URI prefix that introduces base64 data of this kind; empty for
    /// an unsupported kind.
    pub open spec fn spec_b64_prefix(self) -> Seq<char> {
        match self {
            Img::Avif => data_image() + seq!['a', 'v', 'i', 'f'] + base64_marker(),
            Img::Jpeg => data_image() + seq!['j', 'p', 'e', 'g'] + base64_marker(),
            Img::Png => data_image() + seq!['p', 'n', 'g'] + base64_marker(),
            Img::Webp => data_image() + seq!['w', 'e', 'b', 'p'] + base64_marker(),
            Img::Unsupported => Seq::empty(),
        }
    }

    /// The data-URI prefix of this kind of image.
    pub fn b64_prefix(&self) -> (res: &'static str)
        ensures
            res@ == self.spec_b64_prefix(),
    {
        match self {
            Img::Avif => {
                let s = "data:image/avif;base64,";
                proof {
                    reveal_strlit("data:image/avif;base64,");
                }
                assert(s@ =~= self.spec_b64_prefix());
                s
            },
            Img::Jpeg => {
                let s = "data:image/jpeg;base64,";
                proof {
                    reveal_strlit("data:image/jpeg;base64,");
                }
                assert(s@ =~= self.spec_b64_prefix());
                s
            },
            Img::Png => {
                let s = "data:image/png;base64,";
                proof {
                    reveal_strlit("data:image/png;base64,");
                }
                assert(s@ =~= self.spec_b64_prefix());
                s
            },
            Img::Webp => {
                let s = "data:image/webp;base64,";
                proof {
                    reveal_strlit("data:image/webp;base64,");
                }
                assert(s@ =~= self.spec_b64_prefix());
                s
            },
            Img::Unsupported => {
                let s = "";
                proof {
                    reveal_strlit("");
                }
                assert(s@ =~= self.spec_b64_prefix());
                s
            },
        }
    }
}

#[verifier::external_type_specification]
#[verifier::external_body]
pub struct ExImageError(image::ImageError);

#[verifier::external_type_specification]
#[verifier::external_body]
pub struct ExIoError(std::io::Error);

#[verifier::external_type_specification]
#[verifier::external_body]
pub struct ExWebPEncodingError(webp::WebPEncodingError);

/// What `md5::compute` gives for `data`: the bytes of its MD5 digest.
pub uninterp spec fn md5_digest(data: Seq<u8>) -> Seq<u8>;

/// The MD5 digest of `data`.
/// Trusted: `md5::compute`; its result is `md5_digest` of the bytes.
#[verifier::external_body]
fn md5_compute(data: &[u8]) -> (res: [u8; 16])
    ensures
        res@ == md5_digest(data@),
{
    md5::compute(data).0
}

/// The lowercase hexadecimal digit of `d < 16`.
pub open spec fn hex_digit(d: nat) -> char {
    if d < 10 {
        ((48 + d) as u8) as char
    } else {
        ((87 + d) as u8) as char
    }
}

/// Each byte of `b` as two lowercase hexadecimal digits, in order.
pub open spec fn hex_lower(b: Seq<u8>) -> Seq<char>
    decreases b.len(),
{
    if b.len() == 0 {
        Seq::empty()
    } else {
        hex_lower(b.drop_last()) + seq![
            hex_digit((b.last() / 16) as nat),
            hex_digit((b.last() % 16) as nat),
        ]
    }
}

/// `extracted/`, the folder that receives extracted images.
pub open spec fn extract_folder() -> Seq<char> {
    seq!['e', 'x', 't', 'r', 'a', 'c', 't', 'e', 'd', '/']
}

/// The file that an extracted image is saved to: named by the MD5 digest of
/// its bytes, so that an image is never saved twice.
pub open spec fn spec_extracted_image_path(data: Seq<u8>) -> Seq<char> {
    extract_folder() + hex_lower(md5_digest(data)) + seq!['.', 'w', 'e', 'b', 'p']
}

proof fn lemma_hex_lower_len(b: Seq<u8>)
    ensures
        hex_lower(b).len() == 2 * b.len(),
    decreases b.len(),
{
    if b.len() > 0 {
        lemma_hex_lower_len(b.drop_last());
    }
}

proof fn lemma_hex_digit_injective(x: nat, y: nat)
    requires
        x < 16,
        y < 16,
        hex_digit(x) == hex_digit(y),
    ensures
        x == y,
{
}

proof fn lemma_hex_lower_injective(a: Seq<u8>, b: Seq<u8>)
    requires
        hex_lower(a) == hex_lower(b),
    ensures
        a == b,
    decreases a.len(),
{
    lemma_hex_lower_len(a);
    lemma_hex_lower_len(b);
    if a.len() > 0 {
        let ha = hex_lower(a);
        let pa = hex_lower(a.drop_last());
        let pb = hex_lower(b.drop_last());
        lemma_hex_lower_len(a.drop_last());
        lemma_hex_lower_len(b.drop_last());
        assert(pa =~= ha.take(ha.len() - 2));
        assert(pb =~= ha.take(ha.len() - 2));
        lemma_hex_lower_injective(a.drop_last(), b.drop_last());
        assert(ha[ha.len() - 2] == hex_digit((a.last() / 16) as nat));
        assert(ha[ha.len() - 2] == hex_digit((b.last() / 16) as nat));
        assert(ha[ha.len() - 1] == hex_digit((a.last() % 16) as nat));
        assert(ha[ha.len() - 1] == hex_digit((b.last() % 16) as nat));
        lemma_hex_digit_injective((a.last() / 16) as nat, (b.last() / 16) as nat);
        lemma_hex_digit_injective((a.last() % 16) as nat, (b.last() % 16) as nat);
        assert(a.last() == b.last());
        assert(a =~= a.drop_last().push(a.last()));
        assert(b =~= b.drop_last().push(b.last()));
    }
}

/// Extracted images are never saved twice: two images go to the same file
/// exactly when their MD5 digests agree.
pub proof fn law_extraction_path_identifies_digest(a: Seq<u8>, b: Seq<u8>)
    ensures
        spec_extracted_image_path(a) == spec_extracted_image_path(b) <==> md5_digest(a)
            == md5_digest(b),
{
    if spec_extracted_image_path(a) == spec_extracted_image_path(b) {
        let pa = spec_extracted_image_path(a);
        let ha = hex_lower(md5_digest(a));
        let hb = hex_lower(md5_digest(b));
        lemma_hex_lower_len(md5_digest(a));
        lemma_hex_lower_len(md5_digest(b));
        assert(pa.len() == 15 + ha.len());
        assert(ha.len() == hb.len());
        assert(ha =~= pa.subrange(10, 10 + ha.len() as int));
        assert(hb =~= pa.subrange(10, 10 + ha.len() as int));
        lemma_hex_lower_injective(md5_digest(a), md5_digest(b));
    }
}

fn hex_char(d: u8) -> (c: char)
    requires
        d < 16,
    ensures
        c == hex_digit(d as nat),
{
    if d < 10 {
        (48 + d) as char
    } else {
        (87 + d) as char
    }
}

/// The path under `extracted/` that the image `data` is saved to:
/// `extracted/<md5 of data in lowercase hex>.webp`.
pub fn extracted_image_path(data: &[u8]) -> (res: String)
    ensures
        res@ == spec_extracted_image_path(data@),
{
    let digest = md5_compute(data);
    let mut res = String::new();
    let folder = vec!['e', 'x', 't', 'r', 'a', 'c', 't', 'e', 'd', '/'];
    let mut k: usize = 0;
    while k < folder.len()
        invariant
            k <= folder@.len(),
            folder@ == extract_folder(),
            res@ == extract_folder().take(k as int),
        decreases folder@.len() - k,
    {
        push_char(&mut res, folder[k]);
        assert(res@ =~= extract_folder().take(k + 1));
        k = k + 1;
    }
    assert(extract_folder().take(10) =~= extract_folder());
    let mut i: usize = 0;
    while i < 16
        invariant
            i <= 16,
            digest@ == md5_digest(data@),
            res@ == extract_folder() + hex_lower(digest@.take(i as int)),
        decreases 16 - i,
    {
        let b = digest[i];
        let ghost before = res@;
        push_char(&mut res, hex_char(b / 16));
        push_char(&mut res, hex_char(b % 16));
        assert(digest@.take(i + 1).drop_last() =~= digest@.take(i as int));
        assert(res@ =~= extract_folder() + hex_lower(digest@.take(i + 1)));
        i = i + 1;
    }
    assert(digest@.take(16) =~= digest@);
    push_char(&mut res, '.');
    push_char(&mut res, 'w');
    push_char(&mut res, 'e');
    push_char(&mut res, 'b');
    push_char(&mut res, 'p');
    assert(res@ =~= spec_extracted_image_path(data@));
    res
}

/// Why an embedded image could not be recompressed.
#[derive(Debug)]
pub enum ImageFailure {
    /// The image header could not be read.
    Header(std::io::Error),
    /// The image data could not be decoded.
    Decode(image::ImageError),
    /// The decoded image has no WebP encoder.
    Encode(String),
    /// libwebp reported an error while encoding.
    WebP(webp::WebPEncodingError),
}

/// What recompressing the image `data` as lossy WebP at `quality` gives:
/// the WebP bytes, or `None` when a step fails.
pub uninterp spec fn webp_recompression(data: Seq<u8>, quality: u8) -> Option<Seq<u8>>;

/// Recompresses the image `data` as lossy WebP at `quality`, keeping alpha.
/// Trusted: `image::ImageReader::with_guessed_format` and `decode` on the
/// bytes in memory, `image::DynamicImage::to_rgba8`, `webp::Encoder::from_image`
/// and `webp::Encoder::encode_simple` (lossy); each error becomes its own
/// `ImageFailure`. The result is `webp_recompression` of the bytes and the
/// quality: these calls read nothing else (the crate registers no image
/// hooks). As the sources show, a quality above 100 fails libwebp's
/// `WebPValidateConfig`, and guessing the format of bytes held in memory
/// cannot fail, so there is never a `Header` failure. The calls stand in one item because the values
/// between them (`ImageReader<R: Read + Seek>`, `DynamicImage`, `Encoder`) are
/// opaque here. `Encoder::encode` is `encode_simple` followed by `unwrap`;
/// here the libwebp error is handed back instead.
#[verifier::external_body]
fn recompress_webp(data: &[u8], quality: u8) -> (res: Result<Vec<u8>, ImageFailure>)
    ensures
        match webp_recompression(data@, quality) {
            Some(w) => res matches Ok(v) && v@ == w,
            None => res is Err,
        },
        quality > 100 ==> res is Err,
        !(res matches Err(ImageFailure::Header(_))),
{
    let img = match image::ImageReader::new(Cursor::new(data)).with_guessed_format() {
        Ok(reader) => reader.decode().map_err(ImageFailure::Decode)?,
        Err(e) => return Err(ImageFailure::Header(e)),
    };
    let rgba = image::DynamicImage::ImageRgba8(img.to_rgba8());
    let encoder = webp::Encoder::from_image(&rgba).map_err(|e| ImageFailure::Encode(e.to_string()))?;
    encoder.encode_simple(false, quality.into()).map(|m| m.to_vec()).map_err(ImageFailure::WebP)
}

/// Recompresses an embedded image as lossy WebP at the quality of `args`,
/// keeping its alpha channel: the image is decoded, converted to RGBA and
/// encoded. Only the quality of `args` is read. The result is
/// `webp_recompression` of the bytes and the quality; a quality above 100 is
/// refused by the encoder, and data that is no image fails at decoding (never
/// at reading the header).
pub fn webp_from_b46_data(args: &Args, data: &[u8]) -> (res: Result<Vec<u8>, ImageFailure>)
    ensures
        match webp_recompression(data@, args.quality) {
            Some(w) => res matches Ok(v) && v@ == w,
            None => res is Err,
        },
        args.quality > 100 ==> res is Err,
        !(res matches Err(ImageFailure::Header(_))),
{
    recompress_webp(data, args.quality)
}

/// Recompression reads only the quality of the options: two runs whose
/// options have the same quality give the same result for the same image.
pub proof fn law_recompression_depends_on_quality_only(a1: Args, a2: Args, data: Seq<u8>)
    requires
        a1.quality == a2.quality,
    ensures
        webp_recompression(data, a1.quality) == webp_recompression(data, a2.quality),
{
}

} // verus!
