use vstd::prelude::*;

use crate::text::ends_with;

verus! {

#[verifier::external_type_specification]
#[verifier::external_body]
pub struct ExRegex(regex::Regex);

#[verifier::external_type_specification]
#[verifier::external_body]
pub struct ExRegexError(regex::Error);

/// Whether `regex::Regex::new` accepts the pattern.
pub uninterp spec fn regex_accepts(pattern: Seq<char>) -> bool;

/// What `regex::Regex::replace` gives: `haystack` with the first match of
/// the pattern replaced by `replacement`.
pub uninterp spec fn regex_replace_first(
    pattern: Seq<char>,
    haystack: Seq<char>,
    replacement: Seq<char>,
) -> Seq<char>;

/// A compiled regular expression, with the pattern it was compiled from.
/// Only `compile` builds one, so `re` is always the compilation of `source`.
struct Pattern {
    source: String,
    re: regex::Regex,
}

/// Compiles a regular expression.
/// Trusted: `regex::Regex::new`; it succeeds when `regex_accepts` holds of the
/// pattern, and the compiled expression is kept together with its pattern.
/// By the crate's syntax (escaped `.`, literals, `$`) `\.min\.svg$` and
/// `\.svg$` are valid patterns, far below the size limit, so they compile.
#[verifier::external_body]
fn compile(pattern: &str) -> (res: Result<Pattern, regex::Error>)
    ensures
        res is Ok <==> regex_accepts(pattern@),
        res matches Ok(p) ==> p.source@ == pattern@,
        pattern@ == min_svg_pattern() || pattern@ == svg_pattern() ==> res is Ok,
{
    match regex::Regex::new(pattern) {
        Ok(re) => Ok(Pattern { source: pattern.to_string(), re }),
        Err(e) => Err(e),
    }
}

/// Replaces the first match of the pattern.
/// Trusted: `regex::Regex::replace`, its result copied into a `String`; the
/// result is `regex_replace_first` of the pattern's source, the haystack and
/// the replacement. By the crate's syntax, `\.min\.svg$` and `\.svg$` match
/// only the literal `.min.svg` or `.svg` at the very end of the haystack (`$`
/// without multi-line mode), so replacing that match by the empty string,
/// which holds no `$` reference, removes the suffix if there is one.
#[verifier::external_body]
fn replace_first(p: &Pattern, haystack: &str, replacement: &str) -> (res: String)
    ensures
        res@ == regex_replace_first(p.source@, haystack@, replacement@),
        p.source@ == min_svg_pattern() && replacement@.len() == 0 ==> res@ == strip_suffix(
            haystack@,
            min_svg_suffix(),
        ),
        p.source@ == svg_pattern() && replacement@.len() == 0 ==> res@ == strip_suffix(
            haystack@,
            svg_suffix(),
        ),
{
    p.re.replace(haystack, replacement).into_owned()
}

/// `\.min\.svg$`
pub open spec fn min_svg_pattern() -> Seq<char> {
    seq!['\\', '.', 'm', 'i', 'n', '\\', '.', 's', 'v', 'g', '$']
}

/// `\.svg$`
pub open spec fn svg_pattern() -> Seq<char> {
    seq!['\\', '.', 's', 'v', 'g', '$']
}

/// `.min.svg`
pub open spec fn min_svg_suffix() -> Seq<char> {
    seq!['.', 'm', 'i', 'n', '.', 's', 'v', 'g']
}

/// `.svg`
pub open spec fn svg_suffix() -> Seq<char> {
    seq!['.', 's', 'v', 'g']
}

/// `s` without its final `suffix`, if it ends with it.
pub open spec fn strip_suffix(s: Seq<char>, suffix: Seq<char>) -> Seq<char> {
    if ends_with(s, suffix) {
        s.take(s.len() - suffix.len())
    } else {
        s
    }
}

/// The name of the compressed copy of `filename`: a final `.min.svg`, then a
/// final `.svg`, are removed (by the regular expressions above), and
/// `.min.svg` is appended.
pub open spec fn spec_format_filename(filename: Seq<char>) -> Seq<char> {
    strip_suffix(strip_suffix(filename, min_svg_suffix()), svg_suffix()) + min_svg_suffix()
}

/// Naming a compressed copy again gives the same name, unless removing the
/// suffixes left yet another `.svg` at the end (as in `a.svg.svg`).
pub proof fn law_format_filename_stable(filename: Seq<char>)
    requires
        !ends_with(strip_suffix(strip_suffix(filename, min_svg_suffix()), svg_suffix()), svg_suffix()),
    ensures
        spec_format_filename(spec_format_filename(filename)) == spec_format_filename(filename),
{
    let g = strip_suffix(strip_suffix(filename, min_svg_suffix()), svg_suffix());
    let f = g + min_svg_suffix();
    assert(f.skip(f.len() - 8) =~= min_svg_suffix());
    assert(f.take(f.len() - 8) =~= g);
}

/// `.min`
pub open spec fn min_marker() -> Seq<char> {
    seq!['.', 'm', 'i', 'n']
}

/// The copy of `<name>.svg` is `<name>.min.svg`: the whole name before the
/// extension, directories included, is kept (unless it ends with `.min`, when
/// the file is already a compressed copy).
pub proof fn law_format_filename_of_svg(name: Seq<char>)
    requires
        !ends_with(name, min_marker()),
    ensures
        spec_format_filename(name + svg_suffix()) == name + min_svg_suffix(),
{
    let f = name + svg_suffix();
    if ends_with(f, min_svg_suffix()) {
        assert(f.skip(f.len() - 8).skip(4) =~= svg_suffix());
        assert(name.skip(name.len() - 4) =~= f.skip(f.len() - 8).take(4));
        assert(f.skip(f.len() - 8).take(4) =~= min_marker());
    }
    assert(f.skip(f.len() - 4) =~= svg_suffix());
    assert(f.take(f.len() - 4) =~= name);
}

/// The copy of `<name>.min.svg` is the file itself: the whole name,
/// directories included, is kept (unless `<name>` itself ends with `.svg`).
pub proof fn law_format_filename_of_min_svg(name: Seq<char>)
    requires
        !ends_with(name, svg_suffix()),
    ensures
        spec_format_filename(name + min_svg_suffix()) == name + min_svg_suffix(),
{
    let f = name + min_svg_suffix();
    assert(f.skip(f.len() - 8) =~= min_svg_suffix());
    assert(f.take(f.len() - 8) =~= name);
}

/// The name of the compressed copy of `filename`: `example.svg` and
/// `example.min.svg` both give `example.min.svg`.
pub fn format_filename(filename: &str) -> (res: String)
    ensures
        res@ == spec_format_filename(filename@),
{
    let min_src = "\\.min\\.svg$";
    let svg_src = "\\.svg$";
    let empty = "";
    proof {
        reveal_strlit("\\.min\\.svg$");
        reveal_strlit("\\.svg$");
        reveal_strlit("");
        reveal_strlit(".min.svg");
    }
    assert(min_src@ =~= min_svg_pattern());
    assert(svg_src@ =~= svg_pattern());
    assert(empty@ =~= Seq::<char>::empty());
    let patterns = (compile(min_src), compile(svg_src));
    match patterns {
        (Ok(min_re), Ok(svg_re)) => {
            let stripped = replace_first(&min_re, filename, empty);
            let mut clean_name = replace_first(&svg_re, stripped.as_str(), empty);
            clean_name.append(".min.svg");
            assert(".min.svg"@ =~= min_svg_suffix());
            clean_name
        },
        _ => {
            assert(false);
            String::new()
        },
    }
}

} // verus!
