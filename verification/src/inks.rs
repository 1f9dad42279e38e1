use vstd::prelude::*;

use crate::args::Args;
use crate::img::{base64_marker, data_image, webp_from_b46_data, webp_recompression, Img, ImageFailure};
use crate::size::{byte_len, mb_size_text, str_mb_size};
use base64::prelude::{Engine, BASE64_STANDARD};
use crate::text::{
    chars_of, concat, drop_separator, find, find_in, interleave, lemma_find_after_prefix, lemma_interleave_empty,
    lemma_interleave_wrap, lemma_remove_all_absent, lemma_remove_all_interleave, push_char, remove_all, remove_all_in,
    starts_with, starts_with_at, string_of, sub_vec,
};

verus! {

/// `xlink:href=`, the attribute that holds an embedded image.
pub open spec fn image_tag() -> Seq<char> {
    seq!['x', 'l', 'i', 'n', 'k', ':', 'h', 'r', 'e', 'f', '=']
}

/// `&#10;`, the line break that Inkscape writes inside long attribute values.
pub open spec fn encoded_newline() -> Seq<char> {
    seq!['&', '#', '1', '0', ';']
}

/// `data:image`, the start of any embedded image.
pub open spec fn data_image_scheme() -> Seq<char> {
    seq!['d', 'a', 't', 'a', ':', 'i', 'm', 'a', 'g', 'e']
}

pub open spec fn is_ascii_char(c: char) -> bool {
    (c as u32) < 128
}

/// The text that follows the first image tag of the line, if the line has one.
pub open spec fn tag_content(line: Seq<char>) -> Option<Seq<char>> {
    match find(line, image_tag()) {
        Some(i) => Some(line.skip(i + image_tag().len())),
        None => None,
    }
}

/// The attribute value can be unquoted: it has at least two characters, and
/// the first and the last of them are single-byte characters.
pub open spec fn cleanable(content: Seq<char>) -> bool {
    content.len() >= 2 && is_ascii_char(content[0]) && is_ascii_char(content.last())
}

/// A line that the tool can read: either it has no image tag, or the text
/// after the tag can be unquoted.
pub open spec fn line_accepted(line: Seq<char>) -> bool {
    match tag_content(line) {
        Some(content) => cleanable(content),
        None => true,
    }
}

/// The attribute value without its surrounding quotes, without the `&#10;`,
/// spaces and line feeds that Inkscape puts inside it, and without one final `;`.
pub open spec fn spec_clean_b64(content: Seq<char>) -> Seq<char> {
    let inner = content.subrange(1, content.len() - 1);
    let c = remove_all(remove_all(remove_all(inner, encoded_newline()), seq![' ']), seq!['\n']);
    if c.len() > 0 && c.last() == ';' {
        c.drop_last()
    } else {
        c
    }
}

/// The base64 data and kind of the image embedded on the line, if any.
/// A `data:image` value of a kind that is not recognised yields empty data and
/// `Img::Unsupported`.
pub open spec fn spec_read_img(line: Seq<char>) -> Option<(Seq<char>, Img)> {
    match tag_content(line) {
        None => None,
        Some(content) => {
            let raw = spec_clean_b64(content);
            if starts_with(raw, Img::Png.spec_b64_prefix()) {
                Some((raw.skip(Img::Png.spec_b64_prefix().len() as int), Img::Png))
            } else if starts_with(raw, Img::Jpeg.spec_b64_prefix()) {
                Some((raw.skip(Img::Jpeg.spec_b64_prefix().len() as int), Img::Jpeg))
            } else if starts_with(raw, Img::Webp.spec_b64_prefix()) {
                Some((raw.skip(Img::Webp.spec_b64_prefix().len() as int), Img::Webp))
            } else if starts_with(raw, Img::Avif.spec_b64_prefix()) {
                Some((raw.skip(Img::Avif.spec_b64_prefix().len() as int), Img::Avif))
            } else if starts_with(raw, data_image_scheme()) {
                Some((Seq::empty(), Img::Unsupported))
            } else {
                None
            }
        },
    }
}

fn image_tag_chars() -> (v: Vec<char>)
    ensures
        v@ == image_tag(),
{
    let v = vec!['x', 'l', 'i', 'n', 'k', ':', 'h', 'r', 'e', 'f', '='];
    assert(v@ =~= image_tag());
    v
}

/// Whether the line can be read: it has no image tag, or the text after its
/// first image tag can be unquoted (see `line_accepted`).
pub fn accepts_line(line: &str) -> (res: bool)
    ensures
        res == line_accepted(line@),
{
    let v = chars_of(line);
    let tag = image_tag_chars();
    match find_in(&v, &tag) {
        None => true,
        Some(start) => {
            assert(v@.len() == v.len());
            let from = start + tag.len();
            let ghost content = v@.skip(from as int);
            assert(content.len() == v@.len() - from);
            let n = v.len();
            if n - from < 2 {
                return false;
            }
            assert(content[0] == v@[from as int]);
            assert(content.last() == v@[n - 1]);
            (v[from] as u32) < 128 && (v[n - 1] as u32) < 128
        },
    }
}

/// Unquotes and cleans the attribute value `v[from..]`.
fn clean_chars(v: &Vec<char>, from: usize) -> (res: Vec<char>)
    requires
        from <= v@.len(),
        cleanable(v@.skip(from as int)),
    ensures
        res@ == spec_clean_b64(v@.skip(from as int)),
{
    let ghost content = v@.skip(from as int);
    assert(content.len() == v@.len() - from);
    assert(v@.len() == v.len());
    let inner = sub_vec(v, from + 1, v.len() - 1);
    assert(inner@ =~= content.subrange(1, content.len() - 1));
    let newline = vec!['&', '#', '1', '0', ';'];
    assert(newline@ =~= encoded_newline());
    let space = vec![' '];
    let feed = vec!['\n'];
    let a = remove_all_in(&inner, &newline);
    let b = remove_all_in(&a, &space);
    let mut c = remove_all_in(&b, &feed);
    assert(space@ =~= seq![' ']);
    assert(feed@ =~= seq!['\n']);
    let n = c.len();
    if n > 0 && c[n - 1] == ';' {
        let ghost before = c@;
        c.pop();
        assert(c@ =~= before.drop_last());
    }
    c
}

/// Unquotes an attribute value and removes what Inkscape puts inside long
/// base64 values: `&#10;`, spaces and line feeds, and a final `;`.
pub fn clean_b64(content: &str) -> (res: String)
    requires
        cleanable(content@),
    ensures
        res@ == spec_clean_b64(content@),
{
    let v = chars_of(content);
    assert(v@.skip(0) =~= v@);
    let c = clean_chars(&v, 0);
    string_of(&c, 0, c.len())
}

/// The base64 data and the kind of the image embedded on the line, if any.
pub fn read_img_b64_data(line: &str) -> (res: Option<(String, Img)>)
    requires
        line_accepted(line@),
    ensures
        match spec_read_img(line@) {
            None => res is None,
            Some((data, img)) => res matches Some((d, i)) && d@ == data && i == img,
        },
{
    let v = chars_of(line);
    let tag = image_tag_chars();
    match find_in(&v, &tag) {
        None => None,
        Some(start) => {
            let from = start + tag.len();
            let raw = clean_chars(&v, from);
            let ghost rv = raw@;
            let png = chars_of(Img::Png.b64_prefix());
            if starts_with_at(&raw, 0, &png) {
                assert(raw@.skip(0) =~= raw@);
                return Some((string_of(&raw, png.len(), raw.len()), Img::Png));
            }
            let jpeg = chars_of(Img::Jpeg.b64_prefix());
            if starts_with_at(&raw, 0, &jpeg) {
                assert(raw@.skip(0) =~= raw@);
                return Some((string_of(&raw, jpeg.len(), raw.len()), Img::Jpeg));
            }
            let webp = chars_of(Img::Webp.b64_prefix());
            if starts_with_at(&raw, 0, &webp) {
                assert(raw@.skip(0) =~= raw@);
                return Some((string_of(&raw, webp.len(), raw.len()), Img::Webp));
            }
            let avif = chars_of(Img::Avif.b64_prefix());
            if starts_with_at(&raw, 0, &avif) {
                assert(raw@.skip(0) =~= raw@);
                return Some((string_of(&raw, avif.len(), raw.len()), Img::Avif));
            }
            let scheme = vec!['d', 'a', 't', 'a', ':', 'i', 'm', 'a', 'g', 'e'];
            assert(scheme@ =~= data_image_scheme());
            assert(raw@.skip(0) =~= raw@);
            if starts_with_at(&raw, 0, &scheme) {
                let empty = String::new();
                assert(empty@ =~= Seq::<char>::empty());
                return Some((empty, Img::Unsupported));
            }
            None
        },
    }
}

#[verifier::external_type_specification]
#[verifier::external_body]
pub struct ExDecodeError(base64::DecodeError);

/// What `BASE64_STANDARD.decode` gives for the text: the decoded bytes, or
/// `None` when it reports an error.
pub uninterp spec fn base64_standard_decode(text: Seq<char>) -> Option<Seq<u8>>;

/// What `BASE64_STANDARD.encode` gives for the bytes.
pub uninterp spec fn base64_standard_encode(data: Seq<u8>) -> Seq<char>;

/// A character of the standard base64 alphabet or its padding `=`.
pub open spec fn is_base64_char(c: char) -> bool {
    ('A' <= c && c <= 'Z') || ('a' <= c && c <= 'z') || ('0' <= c && c <= '9') || c == '+' || c
        == '/' || c == '='
}

/// Decodes standard base64 (RFC 4648 alphabet, padded).
/// Trusted: `BASE64_STANDARD.decode`; its result is `base64_standard_decode`
/// of the text, and the empty text decodes to no bytes.
#[verifier::external_body]
fn b64_decode(b64_data: &str) -> (res: Result<Vec<u8>, base64::DecodeError>)
    ensures
        match base64_standard_decode(b64_data@) {
            Some(data) => res matches Ok(v) && v@ == data,
            None => res is Err,
        },
        b64_data@.len() == 0 ==> res is Ok,
        res matches Ok(v) ==> (b64_data@.len() == 0 ==> v@.len() == 0),
{
    BASE64_STANDARD.decode(b64_data)
}

/// Encodes bytes as standard base64.
/// Trusted: `BASE64_STANDARD.encode`. Its result is `base64_standard_encode`
/// of the bytes; as the crate's source shows, it is made of the standard
/// alphabet and `=` padding, and `BASE64_STANDARD.decode` gives the bytes back.
#[verifier::external_body]
fn b64_encode(data: &[u8]) -> (res: String)
    ensures
        res@ == base64_standard_encode(data@),
        forall|i: int| 0 <= i < res@.len() ==> is_base64_char(#[trigger] res@[i]),
        base64_standard_decode(res@) == Some(data@),
{
    BASE64_STANDARD.encode(data)
}

/// The line that replaces a recompressed image: the image tag with the new
/// base64 data, under the AVIF data-URI prefix (which the tool uses for every
/// recompressed image), and a final `;`.
pub open spec fn recompressed_line(b64: Seq<char>) -> Seq<char> {
    image_tag() + seq!['"'] + Img::Avif.spec_b64_prefix() + b64 + seq![';', '"']
}

/// A line that processing leaves as it is: it holds no image, or an AVIF or
/// WebP image whose base64 data decodes.
pub open spec fn kept_as_is(line: Seq<char>) -> bool {
    match spec_read_img(line) {
        None => true,
        Some((b64, img)) => (img == Img::Avif || img == Img::Webp) && base64_standard_decode(
            b64,
        ) is Some,
    }
}

/// A line holding an image attribute: `indent`, the image tag, and the
/// quoted value made of the data-URI prefix of `kind`, the base64 `data`, and
/// `ending`.
pub open spec fn image_line(indent: Seq<char>, kind: Img, data: Seq<char>, ending: Seq<char>) -> Seq<
    char,
> {
    indent + image_tag() + seq!['"'] + kind.spec_b64_prefix() + data + ending + seq!['"']
}

/// The data-URI prefix of a supported kind holds no `&`, space or line feed,
/// ends with `,`, and tells the kinds apart at its twelfth character.
proof fn lemma_prefix_shape(kind: Img)
    requires
        kind != Img::Unsupported,
    ensures
        kind.spec_b64_prefix().len() == 22 || kind.spec_b64_prefix().len() == 23,
        forall|i: int|
            0 <= i < kind.spec_b64_prefix().len() ==> #[trigger] kind.spec_b64_prefix()[i] != '&'
                && kind.spec_b64_prefix()[i] != ' ' && kind.spec_b64_prefix()[i] != '\n',
        kind.spec_b64_prefix().last() == ',',
        kind.spec_b64_prefix()[11] == match kind {
            Img::Png => 'p',
            Img::Jpeg => 'j',
            Img::Webp => 'w',
            _ => 'a',
        },
{
    let prefix = kind.spec_b64_prefix();
    assert forall|i: int| 0 <= i < prefix.len() implies #[trigger] prefix[i] != '&' && prefix[i]
        != ' ' && prefix[i] != '\n' by {
        if i < 11 {
            assert(prefix[i] == data_image()[i]);
        } else if i < prefix.len() - 8 {
        } else {
            assert(prefix[i] == base64_marker()[i - (prefix.len() - 8)]);
        }
    }
}

/// In an image line, the text after the tag is the quoted value.
proof fn lemma_image_line_content(indent: Seq<char>, kind: Img, data: Seq<char>, ending: Seq<char>)
    requires
        find(indent, image_tag()) is None,
    ensures
        tag_content(image_line(indent, kind, data, ending)) == Some(
            seq!['"'] + kind.spec_b64_prefix() + data + ending + seq!['"'],
        ),
{
    let line = image_line(indent, kind, data, ending);
    let tag = image_tag();
    let rest = tag + seq!['"'] + kind.spec_b64_prefix() + data + ending + seq!['"'];
    assert(line =~= indent + rest);
    assert(rest.take(tag.len() as int) =~= tag);
    assert forall|k: int| 0 < k < tag.len() implies #[trigger] tag[k] != tag[0] by {}
    lemma_find_after_prefix(indent, rest, tag);
    assert(line.skip(indent.len() + tag.len() as int) =~= seq!['"'] + kind.spec_b64_prefix() + data
        + ending + seq!['"']);
}

/// The quoted value of an image line cleans to the prefix and the data.
proof fn lemma_image_value_cleans(kind: Img, data: Seq<char>, ending: Seq<char>)
    requires
        kind != Img::Unsupported,
        forall|i: int| 0 <= i < data.len() ==> is_base64_char(#[trigger] data[i]),
        ending == Seq::<char>::empty() || ending == seq![';'],
    ensures
        cleanable(seq!['"'] + kind.spec_b64_prefix() + data + ending + seq!['"']),
        spec_clean_b64(seq!['"'] + kind.spec_b64_prefix() + data + ending + seq!['"'])
            == kind.spec_b64_prefix() + data,
{
    let prefix = kind.spec_b64_prefix();
    lemma_prefix_shape(kind);
    let content = seq!['"'] + prefix + data + ending + seq!['"'];
    assert(content[0] == '"');
    assert(content.last() == '"');
    let inner = prefix + data + ending;
    assert(content.subrange(1, content.len() - 1) =~= inner);
    assert forall|i: int| 0 <= i < inner.len() implies inner[i] != '&' && inner[i] != ' ' && inner[i]
        != '\n' by {
        if i < prefix.len() {
            assert(inner[i] == prefix[i]);
        } else if i < prefix.len() + data.len() {
            assert(inner[i] == data[i - prefix.len()]);
            assert(is_base64_char(data[i - prefix.len()]));
        } else {
            assert(inner[i] == ending[i - prefix.len() - data.len()]);
        }
    }
    lemma_remove_all_absent(inner, encoded_newline());
    lemma_remove_all_absent(inner, seq![' ']);
    lemma_remove_all_absent(inner, seq!['\n']);
    let raw = prefix + data;
    if ending.len() == 1 {
        assert(inner.drop_last() =~= raw);
    } else {
        assert(inner =~= raw);
        if data.len() > 0 {
            assert(raw.last() == data.last());
            assert(is_base64_char(data[data.len() - 1]));
        } else {
            assert(raw.last() == prefix.last());
        }
    }
}

/// A line written with an image attribute reads back to its data and kind:
/// whatever comes before the tag (as long as it holds no tag), for any
/// supported kind, for base64 data, and with or without a final `;`.
pub proof fn law_image_line_reads_back(
    indent: Seq<char>,
    kind: Img,
    data: Seq<char>,
    ending: Seq<char>,
)
    requires
        find(indent, image_tag()) is None,
        kind != Img::Unsupported,
        forall|i: int| 0 <= i < data.len() ==> is_base64_char(#[trigger] data[i]),
        ending == Seq::<char>::empty() || ending == seq![';'],
    ensures
        line_accepted(image_line(indent, kind, data, ending)),
        spec_read_img(image_line(indent, kind, data, ending)) == Some((data, kind)),
{
    lemma_image_line_content(indent, kind, data, ending);
    lemma_image_value_cleans(kind, data, ending);
    lemma_prefix_shape(kind);
    let prefix = kind.spec_b64_prefix();
    let raw = prefix + data;
    assert(raw[11] == prefix[11]);
    assert(raw.take(22)[11] == raw[11]);
    if raw.len() >= 23 {
        assert(raw.take(23)[11] == raw[11]);
    }
    lemma_prefix_shape(Img::Png);
    lemma_prefix_shape(Img::Jpeg);
    lemma_prefix_shape(Img::Webp);
    lemma_prefix_shape(Img::Avif);
    assert(raw.take(prefix.len() as int) =~= prefix);
    assert(raw.skip(prefix.len() as int) =~= data);
}

/// A break that Inkscape puts inside a long attribute value: `&#10;`, a space
/// or a line feed.
pub open spec fn is_break(sep: Seq<char>) -> bool {
    sep == encoded_newline() || sep == seq![' '] || sep == seq!['\n']
}

/// No character of `s` is `&`, a space or a line feed.
pub open spec fn free_of_breaks(s: Seq<char>) -> bool {
    forall|j: int| 0 <= j < s.len() ==> #[trigger] s[j] != '&' && s[j] != ' ' && s[j] != '\n'
}

proof fn lemma_free_of_breaks_add(a: Seq<char>, b: Seq<char>)
    requires
        free_of_breaks(a),
        free_of_breaks(b),
    ensures
        free_of_breaks(a + b),
{
    assert forall|j: int| 0 <= j < (a + b).len() implies #[trigger] (a + b)[j] != '&' && (a + b)[j]
        != ' ' && (a + b)[j] != '\n' by {
        if j < a.len() {
            assert((a + b)[j] == a[j]);
        } else {
            assert((a + b)[j] == b[j - a.len()]);
        }
    }
}

/// Cleaning a quoted value removes every break, wherever it stands and however
/// many there are: a value made of chunks with breaks between them cleans to
/// the chunks one after the other (without one final `;`).
pub proof fn law_clean_removes_breaks(chunks: Seq<Seq<char>>, breaks: Seq<Seq<char>>)
    requires
        chunks.len() == breaks.len() + 1,
        forall|i: int| 0 <= i < chunks.len() ==> free_of_breaks(#[trigger] chunks[i]),
        forall|i: int| 0 <= i < breaks.len() ==> is_break(#[trigger] breaks[i]),
    ensures
        cleanable(seq!['"'] + interleave(chunks, breaks) + seq!['"']),
        ({
            let c = concat(chunks);
            spec_clean_b64(seq!['"'] + interleave(chunks, breaks) + seq!['"']) == if c.len() > 0
                && c.last() == ';' {
                c.drop_last()
            } else {
                c
            }
        }),
{
    let enc = encoded_newline();
    let sp = seq![' '];
    let nl = seq!['\n'];
    let inner = interleave(chunks, breaks);
    let content = seq!['"'] + inner + seq!['"'];
    assert(content[0] == '"');
    assert(content.last() == '"');
    assert(content.subrange(1, content.len() - 1) =~= inner);
    assert forall|i: int, j: int| 0 <= i < chunks.len() && 0 <= j < chunks[i].len() implies #[trigger] chunks[i][j]
        != '&' && chunks[i][j] != ' ' && chunks[i][j] != '\n' by {
        assert(free_of_breaks(chunks[i]));
    }
    assert forall|i: int| 0 <= i < breaks.len() implies #[trigger] breaks[i] == enc || forall|j: int|
        0 <= j < breaks[i].len() ==> breaks[i][j] != enc[0] by {
        assert(is_break(breaks[i]));
    }
    lemma_remove_all_interleave(chunks, breaks, enc);
    let d1 = drop_separator(breaks, enc);
    assert forall|i: int| 0 <= i < d1.len() implies #[trigger] d1[i] == sp || forall|j: int|
        0 <= j < d1[i].len() ==> d1[i][j] != sp[0] by {
        assert(is_break(breaks[i]));
    }
    lemma_remove_all_interleave(chunks, d1, sp);
    let d2 = drop_separator(d1, sp);
    assert forall|i: int| 0 <= i < d2.len() implies #[trigger] d2[i] == nl || forall|j: int|
        0 <= j < d2[i].len() ==> d2[i][j] != nl[0] by {
        assert(is_break(breaks[i]));
        assert(d1[i] == if breaks[i] == enc { Seq::<char>::empty() } else { breaks[i] });
    }
    lemma_remove_all_interleave(chunks, d2, nl);
    let d3 = drop_separator(d2, nl);
    assert forall|i: int| 0 <= i < d3.len() implies (#[trigger] d3[i]).len() == 0 by {
        assert(is_break(breaks[i]));
        assert(d1[i] == if breaks[i] == enc { Seq::<char>::empty() } else { breaks[i] });
        assert(d2[i] == if d1[i] == sp { Seq::<char>::empty() } else { d1[i] });
    }
    lemma_interleave_empty(chunks, d3);
}

/// The characters of chunks put one after the other are theirs.
proof fn lemma_concat_base64(chunks: Seq<Seq<char>>)
    requires
        forall|i: int, j: int|
            0 <= i < chunks.len() && 0 <= j < chunks[i].len() ==> is_base64_char(#[trigger] chunks[i][j]),
    ensures
        forall|k: int| 0 <= k < concat(chunks).len() ==> is_base64_char(#[trigger] concat(chunks)[k]),
    decreases chunks.len(),
{
    if chunks.len() > 0 {
        let rest = chunks.drop_first();
        assert forall|i: int, j: int| 0 <= i < rest.len() && 0 <= j < rest[i].len() implies is_base64_char(
            #[trigger] rest[i][j],
        ) by {
            assert(rest[i] == chunks[i + 1]);
        }
        lemma_concat_base64(rest);
        let c = concat(chunks);
        assert forall|k: int| 0 <= k < c.len() implies is_base64_char(#[trigger] c[k]) by {
            if k < chunks[0].len() {
                assert(c[k] == chunks[0][k]);
            } else {
                assert(c[k] == concat(rest)[k - chunks[0].len()]);
            }
        }
    }
}

/// The outer chunks of a wrapped value, with the data-URI prefix before the
/// first and the ending after the last, hold no break character.
proof fn lemma_wrapped_chunks_free(kind: Img, chunks: Seq<Seq<char>>, ending: Seq<char>)
    requires
        kind != Img::Unsupported,
        chunks.len() >= 1,
        forall|i: int, j: int|
            0 <= i < chunks.len() && 0 <= j < chunks[i].len() ==> is_base64_char(#[trigger] chunks[i][j]),
        ending == Seq::<char>::empty() || ending == seq![';'],
    ensures
        ({
            let n = chunks.len() - 1;
            let first = chunks.update(0, kind.spec_b64_prefix() + chunks[0]);
            let w = first.update(n, first[n] + ending);
            forall|i: int| 0 <= i < w.len() ==> free_of_breaks(#[trigger] w[i])
        }),
{
    let prefix = kind.spec_b64_prefix();
    lemma_prefix_shape(kind);
    let n = chunks.len() - 1;
    let first = chunks.update(0, prefix + chunks[0]);
    let w = first.update(n, first[n] + ending);
    assert(free_of_breaks(prefix));
    assert(free_of_breaks(ending));
    assert forall|i: int| 0 <= i < chunks.len() implies free_of_breaks(#[trigger] chunks[i]) by {
        assert forall|j: int| 0 <= j < chunks[i].len() implies #[trigger] chunks[i][j] != '&'
            && chunks[i][j] != ' ' && chunks[i][j] != '\n' by {
            assert(is_base64_char(chunks[i][j]));
        }
    }
    lemma_free_of_breaks_add(prefix, chunks[0]);
    assert forall|i: int| 0 <= i < w.len() implies free_of_breaks(#[trigger] w[i]) by {
        assert(free_of_breaks(chunks[i]));
        assert(free_of_breaks(first[i]));
        lemma_free_of_breaks_add(first[i], ending);
    }
}

/// The quoted value of a wrapped image line cleans to the prefix and the data
/// without its breaks.
proof fn lemma_wrapped_value_cleans(
    kind: Img,
    chunks: Seq<Seq<char>>,
    breaks: Seq<Seq<char>>,
    ending: Seq<char>,
)
    requires
        kind != Img::Unsupported,
        chunks.len() == breaks.len() + 1,
        forall|i: int, j: int|
            0 <= i < chunks.len() && 0 <= j < chunks[i].len() ==> is_base64_char(#[trigger] chunks[i][j]),
        forall|i: int| 0 <= i < breaks.len() ==> is_break(#[trigger] breaks[i]),
        ending == Seq::<char>::empty() || ending == seq![';'],
    ensures
        cleanable(seq!['"'] + kind.spec_b64_prefix() + interleave(chunks, breaks) + ending + seq!['"']),
        spec_clean_b64(seq!['"'] + kind.spec_b64_prefix() + interleave(chunks, breaks) + ending + seq!['"'])
            == kind.spec_b64_prefix() + concat(chunks),
{
    let prefix = kind.spec_b64_prefix();
    let data = concat(chunks);
    let n = chunks.len() - 1;
    let first = chunks.update(0, prefix + chunks[0]);
    let w = first.update(n, first[n] + ending);
    let cw = seq!['"'] + prefix + interleave(chunks, breaks) + ending + seq!['"'];
    let cp = seq!['"'] + prefix + data + ending + seq!['"'];
    let whole = prefix + data + ending;
    lemma_wrapped_chunks_free(kind, chunks, ending);
    // With the breaks: the prefix and the ending sit in the outer chunks.
    lemma_interleave_wrap(chunks, breaks, prefix, ending);
    assert(cw =~= seq!['"'] + interleave(w, breaks) + seq!['"']);
    law_clean_removes_breaks(w, breaks);
    // The same chunks put one after the other.
    assert(concat(w) == whole) by {
        let empties = Seq::new(breaks.len(), |i: int| Seq::<char>::empty());
        lemma_interleave_wrap(chunks, empties, prefix, ending);
        lemma_interleave_empty(w, empties);
        lemma_interleave_empty(chunks, empties);
    }
    // Without any break, the value is a single chunk.
    let plain = seq![whole];
    assert(free_of_breaks(whole)) by {
        lemma_concat_base64(chunks);
        lemma_wrapped_chunks_free(kind, seq![data], ending);
        let one = seq![data].update(0, prefix + data);
        assert(one.update(0, one[0] + ending)[0] == whole);
    }
    assert(plain.drop_first() =~= Seq::<Seq<char>>::empty());
    assert(concat(plain.drop_first()) == Seq::<char>::empty());
    assert(concat(plain) =~= whole + Seq::<char>::empty());
    assert(whole + Seq::<char>::empty() =~= whole);
    assert(cp =~= seq!['"'] + interleave(plain, Seq::empty()) + seq!['"']);
    law_clean_removes_breaks(plain, Seq::empty());
    lemma_concat_base64(chunks);
    lemma_image_value_cleans(kind, data, ending);
}

/// A written image line whose base64 data Inkscape wrapped, with any number
/// of `&#10;`, spaces or line feeds inserted anywhere in it, reads back to the
/// data without them and to its kind.
pub proof fn law_wrapped_image_line_reads_back(
    indent: Seq<char>,
    kind: Img,
    chunks: Seq<Seq<char>>,
    breaks: Seq<Seq<char>>,
    ending: Seq<char>,
)
    requires
        find(indent, image_tag()) is None,
        kind != Img::Unsupported,
        chunks.len() == breaks.len() + 1,
        forall|i: int, j: int|
            0 <= i < chunks.len() && 0 <= j < chunks[i].len() ==> is_base64_char(#[trigger] chunks[i][j]),
        forall|i: int| 0 <= i < breaks.len() ==> is_break(#[trigger] breaks[i]),
        ending == Seq::<char>::empty() || ending == seq![';'],
    ensures
        line_accepted(image_line(indent, kind, interleave(chunks, breaks), ending)),
        spec_read_img(image_line(indent, kind, interleave(chunks, breaks), ending)) == Some(
            (concat(chunks), kind),
        ),
{
    let data = concat(chunks);
    lemma_concat_base64(chunks);
    lemma_wrapped_value_cleans(kind, chunks, breaks, ending);
    lemma_image_value_cleans(kind, data, ending);
    lemma_image_line_content(indent, kind, interleave(chunks, breaks), ending);
    lemma_image_line_content(indent, kind, data, ending);
    law_image_line_reads_back(indent, kind, data, ending);
}

/// What processing a line did.
pub enum LineReport {
    /// The line holds no embedded image and is kept as it is.
    NoImage,
    /// The image is already AVIF or WebP and is kept as it is; these are its
    /// decoded bytes.
    AlreadyCompressed(Vec<u8>),
    /// The image was recompressed to these WebP bytes; the sizes, in `MB`
    /// text, are those of the old and the new base64 data.
    Recompressed { webp: Vec<u8>, size_before: String, size_after: String },
}

/// A processed line of the document, with its index in the document.
pub struct ProcessedLine {
    pub index: usize,
    pub line: String,
    pub report: LineReport,
}

/// `p` keeps the line, which holds no image, at its index.
pub open spec fn kept_without_image(p: ProcessedLine, index: usize, line: Seq<char>) -> bool {
    &&& p.index == index
    &&& p.line@ == line
    &&& p.report is NoImage
}

/// `p` keeps the line, whose image is already compressed, at its index and
/// reports the decoded image bytes `data`.
pub open spec fn kept_compressed(p: ProcessedLine, index: usize, line: Seq<char>, data: Seq<u8>) -> bool {
    &&& p.index == index
    &&& p.line@ == line
    &&& match p.report {
        LineReport::AlreadyCompressed(d) => d@ == data,
        _ => false,
    }
}

/// `p` is the line, at its index, that replaces the image whose base64 data
/// was `b64` by the WebP bytes it reports, with the sizes of the old and the
/// new base64 data.
pub open spec fn recompression_of(p: ProcessedLine, index: usize, b64: Seq<char>) -> bool {
    &&& p.index == index
    &&& match p.report {
        LineReport::Recompressed { webp, size_before, size_after } => {
            &&& p.line@ == recompressed_line(base64_standard_encode(webp@))
            &&& size_before@ == mb_size_text(byte_len(b64))
            &&& size_after@ == mb_size_text(byte_len(base64_standard_encode(webp@)))
        },
        _ => false,
    }
}

/// The WebP bytes that `p` reports, if it reports a recompression.
pub open spec fn recompressed_webp(p: ProcessedLine) -> Seq<u8> {
    match p.report {
        LineReport::Recompressed { webp, .. } => webp@,
        _ => Seq::empty(),
    }
}

/// Why a line could not be processed.
#[derive(Debug)]
pub enum LineError {
    /// The embedded base64 data does not decode.
    Base64(base64::DecodeError),
    /// The embedded image is of a kind that is not supported.
    Unsupported,
    /// The image could not be recompressed.
    Image(ImageFailure),
}

/// The rewritten line for an image that was recompressed to `webp`, with the
/// report of the sizes of the old and the new base64 data. The line reads
/// back as AVIF data whose base64 decodes to `webp` again.
pub fn recompressed(index: usize, b64_data: &str, webp: Vec<u8>) -> (res: ProcessedLine)
    ensures
        recompression_of(res, index, b64_data@),
        res.report matches LineReport::Recompressed { webp: w, .. } && w@ == webp@,
        line_accepted(res.line@),
        kept_as_is(res.line@),
        spec_read_img(res.line@) == Some((base64_standard_encode(webp@), Img::Avif)),
        base64_standard_decode(base64_standard_encode(webp@)) == Some(webp@),
{
    let b64_new_data = b64_encode(webp.as_slice());
    let size_before = str_mb_size(b64_data);
    let size_after = str_mb_size(b64_new_data.as_str());
    let mut line = String::new();
    line.append("xlink:href=");
    push_char(&mut line, '"');
    line.append(Img::Avif.b64_prefix());
    line.append(b64_new_data.as_str());
    push_char(&mut line, ';');
    push_char(&mut line, '"');
    proof {
        reveal_strlit("xlink:href=");
    }
    assert(line@ =~= recompressed_line(base64_standard_encode(webp@)));
    proof {
        assert(recompressed_line(b64_new_data@) =~= image_line(
            Seq::empty(),
            Img::Avif,
            b64_new_data@,
            seq![';'],
        ));
        assert(Seq::<char>::empty().len() == 0);
        assert(find(Seq::<char>::empty(), image_tag()) is None);
        law_image_line_reads_back(Seq::empty(), Img::Avif, b64_new_data@, seq![';']);
    }
    ProcessedLine {
        index,
        line,
        report: LineReport::Recompressed { webp, size_before, size_after },
    }
}

/// Processes one line of the document. A line without an embedded image, or
/// with an AVIF or WebP image, is kept as it is; a PNG or JPEG image is
/// recompressed to WebP and the line rewritten; an image of another kind, or
/// base64 data that does not decode, is an error.
pub fn process_line(args: &Args, index: usize, line: &str) -> (res: Result<ProcessedLine, LineError>)
    requires
        line_accepted(line@),
    ensures
        match spec_read_img(line@) {
            None => res matches Ok(p) && kept_without_image(p, index, line@),
            Some((b64, img)) => if img == Img::Unsupported {
                res matches Err(LineError::Unsupported)
            } else {
                match base64_standard_decode(b64) {
                    None => res matches Err(LineError::Base64(_)),
                    Some(data) => {
                        if img == Img::Avif || img == Img::Webp {
                            res matches Ok(p) && kept_compressed(p, index, line@, data)
                        } else {
                            match webp_recompression(data, args.quality) {
                                Some(w) => res matches Ok(p) && recompression_of(p, index, b64)
                                    && recompressed_webp(p) == w,
                                None => res matches Err(LineError::Image(e)) && !(e is Header),
                            }
                        }
                    },
                }
            },
        },
        kept_as_is(line@) ==> (res matches Ok(p) && p.index == index && p.line@ == line@),
        res matches Ok(p) ==> line_accepted(p.line@) && kept_as_is(p.line@),
{
    broadcast use vstd::string::group_string_axioms;
    match read_img_b64_data(line) {
        None => Ok(ProcessedLine { index, line: line.to_string(), report: LineReport::NoImage }),
        Some((b64_data, img_type)) => {
            let data = match b64_decode(b64_data.as_str()) {
                Ok(d) => d,
                Err(e) => return Err(LineError::Base64(e)),
            };
            match img_type {
                Img::Avif | Img::Webp => {
                    return Ok(
                        ProcessedLine {
                            index,
                            line: line.to_string(),
                            report: LineReport::AlreadyCompressed(data),
                        },
                    );
                },
                Img::Unsupported => {
                    return Err(LineError::Unsupported);
                },
                _ => {},
            }
            match webp_from_b46_data(args, data.as_slice()) {
                Ok(writer) => {
                    let p = recompressed(index, b64_data.as_str(), writer);
                    Ok(p)
                },
                Err(e) => Err(LineError::Image(e)),
            }
        },
    }
}

} // verus!
