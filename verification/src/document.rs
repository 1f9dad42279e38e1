use vstd::prelude::*;

use crate::names::{format_filename, spec_format_filename, svg_suffix};
use crate::text::{chars_of, ends_with, push_char};

verus! {

/// The line that the processed pairs put at position `i`: the line of the
/// last pair whose index is `i`, or the empty line if there is none.
pub open spec fn placed_line(pairs: Seq<(usize, String)>, i: int) -> Seq<char>
    decreases pairs.len(),
{
    if pairs.len() == 0 {
        Seq::empty()
    } else if pairs.last().0 == i {
        pairs.last().1@
    } else {
        placed_line(pairs.drop_last(), i)
    }
}

/// The `n` lines that the processed pairs put back in order.
pub open spec fn placed_lines(pairs: Seq<(usize, String)>, n: nat) -> Seq<Seq<char>> {
    Seq::new(n, |i: int| placed_line(pairs, i))
}

/// The lines joined by line feeds.
pub open spec fn join_lines(lines: Seq<Seq<char>>) -> Seq<char>
    decreases lines.len(),
{
    if lines.len() == 0 {
        Seq::empty()
    } else if lines.len() == 1 {
        lines[0]
    } else {
        join_lines(lines.drop_last()) + seq!['\n'] + lines.last()
    }
}

/// `s` cut at every line feed: the text before the first, between each two,
/// and after the last (so `n` line feeds give `n + 1` lines).
pub open spec fn split_lines(s: Seq<char>) -> Seq<Seq<char>>
    decreases s.len(),
{
    if s.len() == 0 {
        seq![Seq::empty()]
    } else {
        let rest = split_lines(s.drop_last());
        if s.last() == '\n' {
            rest.push(Seq::empty())
        } else {
            rest.update(rest.len() - 1, rest.last().push(s.last()))
        }
    }
}

/// `line` holds no line feed.
pub open spec fn single_line(line: Seq<char>) -> bool {
    forall|i: int| 0 <= i < line.len() ==> line[i] != '\n'
}

/// A text without line feeds is a single line.
proof fn lemma_split_single(s: Seq<char>)
    requires
        single_line(s),
    ensures
        split_lines(s) == seq![s],
    decreases s.len(),
{
    if s.len() == 0 {
        assert(s =~= Seq::<char>::empty());
    } else {
        assert(s[s.len() - 1] != '\n');
        lemma_split_single(s.drop_last());
        assert(s.drop_last().push(s.last()) =~= s);
        assert(seq![s.drop_last()].update(0, s) =~= seq![s]);
    }
}

/// Cutting `a`, a line feed and the single line `b` gives the lines of `a`
/// and then `b`.
proof fn lemma_split_after_feed(a: Seq<char>, b: Seq<char>)
    requires
        single_line(b),
    ensures
        split_lines(a + seq!['\n'] + b) == split_lines(a).push(b),
    decreases b.len(),
{
    let s = a + seq!['\n'] + b;
    if b.len() == 0 {
        assert(s.drop_last() =~= a);
        assert(s.last() == '\n');
        assert(b =~= Seq::<char>::empty());
    } else {
        let b0 = b.drop_last();
        assert(s.drop_last() =~= a + seq!['\n'] + b0);
        assert(s.last() == b.last());
        assert(b[b.len() - 1] != '\n');
        assert forall|i: int| 0 <= i < b0.len() implies b0[i] != '\n' by {
            assert(b0[i] == b[i]);
        }
        lemma_split_after_feed(a, b0);
        let rest = split_lines(a).push(b0);
        assert(b0.push(b.last()) =~= b);
        assert(rest.update(rest.len() - 1, rest.last().push(b.last())) =~= split_lines(a).push(b));
    }
}

/// Adding a line to a document of at least one line puts a line feed and the
/// new line after the text joined so far.
pub proof fn law_join_lines_push(lines: Seq<Seq<char>>, line: Seq<char>)
    requires
        lines.len() >= 1,
    ensures
        join_lines(lines.push(line)) == join_lines(lines) + seq!['\n'] + line,
{
    assert(lines.push(line).drop_last() =~= lines);
}

/// Joining loses no line: cutting the joined text at its line feeds gives
/// back every line, in order, when no line holds a line feed itself.
pub proof fn law_join_lines_splits_back(lines: Seq<Seq<char>>)
    requires
        lines.len() >= 1,
        forall|i: int| 0 <= i < lines.len() ==> single_line(#[trigger] lines[i]),
    ensures
        split_lines(join_lines(lines)) == lines,
    decreases lines.len(),
{
    if lines.len() == 1 {
        assert(single_line(lines[0]));
        lemma_split_single(lines[0]);
        assert(seq![lines[0]] =~= lines);
    } else {
        let init = lines.drop_last();
        assert forall|i: int| 0 <= i < init.len() implies single_line(#[trigger] init[i]) by {
            assert(init[i] == lines[i]);
        }
        law_join_lines_splits_back(init);
        assert(single_line(lines.last()));
        lemma_split_after_feed(join_lines(init), lines.last());
        assert(init.push(lines.last()) =~= lines);
    }
}

/// The assembled document has exactly one line for each processed line: cut
/// at its line feeds, it gives back the placed lines, in order, when none of
/// them holds a line feed.
pub proof fn law_assembled_lines(pairs: Seq<(usize, String)>)
    requires
        pairs.len() >= 1,
        forall|i: int| 0 <= i < pairs.len() ==> single_line(#[trigger] placed_line(pairs, i)),
    ensures
        split_lines(join_lines(placed_lines(pairs, pairs.len()))) == placed_lines(pairs, pairs.len()),
        split_lines(join_lines(placed_lines(pairs, pairs.len()))).len() == pairs.len(),
{
    let lines = placed_lines(pairs, pairs.len());
    assert forall|i: int| 0 <= i < lines.len() implies single_line(#[trigger] lines[i]) by {
        assert(single_line(placed_line(pairs, i)));
    }
    law_join_lines_splits_back(lines);
}

/// Puts the processed lines, which may come in any order, back at their
/// indices and joins them with line feeds into the document text.
pub fn assemble_document(processed: Vec<(usize, String)>) -> (doc: String)
    requires
        forall|k: int| 0 <= k < processed@.len() ==> (#[trigger] processed@[k]).0 < processed@.len(),
    ensures
        doc@ == join_lines(placed_lines(processed@, processed@.len())),
{
    let n = processed.len();
    let mut sorted: Vec<String> = Vec::new();
    let mut i: usize = 0;
    while i < n
        invariant
            i <= n,
            sorted@.len() == i,
            forall|j: int| 0 <= j < i ==> (#[trigger] sorted@[j])@ == Seq::<char>::empty(),
        decreases n - i,
    {
        sorted.push(String::new());
        i = i + 1;
    }
    let mut k: usize = 0;
    while k < n
        invariant
            n == processed@.len(),
            k <= n,
            sorted@.len() == n,
            forall|m: int| 0 <= m < n ==> (#[trigger] processed@[m]).0 < n,
            forall|j: int| 0 <= j < n ==> (#[trigger] sorted@[j])@ == placed_line(processed@.take(k as int), j),
        decreases n - k,
    {
        let index = processed[k].0;
        let line = processed[k].1.clone();
        sorted[index] = line;
        assert(processed@.take(k + 1).drop_last() =~= processed@.take(k as int));
        k = k + 1;
    }
    assert(processed@.take(n as int) =~= processed@);
    let mut doc = String::new();
    let mut j: usize = 0;
    while j < n
        invariant
            n == processed@.len(),
            j <= n,
            sorted@.len() == n,
            forall|m: int| 0 <= m < n ==> (#[trigger] sorted@[m])@ == placed_line(processed@, m),
            doc@ == join_lines(placed_lines(processed@, n as nat).take(j as int)),
        decreases n - j,
    {
        let ghost lines = placed_lines(processed@, n as nat);
        if j > 0 {
            push_char(&mut doc, '\n');
        }
        doc.append(sorted[j].as_str());
        assert(lines.take(j + 1).drop_last() =~= lines.take(j as int));
        j = j + 1;
    }
    assert(placed_lines(processed@, n as nat).take(n as int) =~= placed_lines(processed@, n as nat));
    doc
}

/// When `k` is the last pair with index `i`, the line placed at `i` is its line.
proof fn lemma_placed_line_last(pairs: Seq<(usize, String)>, i: int, k: int)
    requires
        0 <= k < pairs.len(),
        pairs[k].0 == i,
        forall|m: int| k < m < pairs.len() ==> pairs[m].0 != i,
    ensures
        placed_line(pairs, i) == pairs[k].1@,
    decreases pairs.len(),
{
    if k < pairs.len() - 1 {
        lemma_placed_line_last(pairs.drop_last(), i, k);
    }
}

/// Some pair carries the index `i`.
pub open spec fn has_index(pairs: Seq<(usize, String)>, i: int) -> bool {
    exists|k: int| 0 <= k < pairs.len() && (#[trigger] pairs[k]).0 == i
}

/// Processing the lines in any order loses nothing: when every line of the
/// document comes back exactly once, at its own index, the assembled text is
/// the document's lines, in their order, joined by line feeds.
pub proof fn law_assembly_keeps_line_order(pairs: Seq<(usize, String)>, lines: Seq<Seq<char>>)
    requires
        pairs.len() == lines.len(),
        forall|k: int| 0 <= k < pairs.len() ==> (#[trigger] pairs[k]).0 < lines.len() && pairs[k].1@
            == lines[pairs[k].0 as int],
        forall|i: int| 0 <= i < lines.len() ==> #[trigger] has_index(pairs, i),
        forall|k1: int, k2: int|
            0 <= k1 < pairs.len() && 0 <= k2 < pairs.len() && k1 != k2 ==> (#[trigger] pairs[k1]).0
                != (#[trigger] pairs[k2]).0,
    ensures
        join_lines(placed_lines(pairs, pairs.len())) == join_lines(lines),
{
    assert forall|i: int| 0 <= i < lines.len() implies placed_line(pairs, i) == lines[i] by {
        assert(has_index(pairs, i));
        let k = choose|k: int| 0 <= k < pairs.len() && (#[trigger] pairs[k]).0 == i;
        assert forall|m: int| k < m < pairs.len() implies pairs[m].0 != i by {
            assert(pairs[m].0 != pairs[k].0);
        }
        lemma_placed_line_last(pairs, i, k);
    }
    assert(placed_lines(pairs, pairs.len()) =~= lines);
}

/// The file names of a run on `svg`.
pub struct OutputNames {
    /// The compressed copy, `<name>.min.svg`.
    pub output: String,
    /// The file the copy is written to before it is renamed.
    pub temporary: String,
    /// Where the source file is moved when completed files are moved.
    pub moved_source: String,
}

/// Why a run cannot start.
#[derive(Debug)]
pub enum NameError {
    /// The file does not have the `.svg` extension.
    NotSvg,
}

/// `compressed/`, the folder completed files are moved to.
pub open spec fn compressed_folder() -> Seq<char> {
    seq!['c', 'o', 'm', 'p', 'r', 'e', 's', 's', 'e', 'd', '/']
}

/// The names of a run on `svg`: it must end with `.svg`; the copy is
/// `format_filename(svg)`, written first to the copy's name with `.TMP`
/// appended; a completed source file moves to `compressed/<svg>`.
pub fn output_names(svg: &str) -> (res: Result<OutputNames, NameError>)
    ensures
        !ends_with(svg@, svg_suffix()) ==> res matches Err(NameError::NotSvg),
        ends_with(svg@, svg_suffix()) ==> res is Ok,
        res matches Ok(names) ==> {
            &&& ends_with(svg@, svg_suffix())
            &&& names.output@ == spec_format_filename(svg@)
            &&& names.temporary@ == spec_format_filename(svg@) + seq!['.', 'T', 'M', 'P']
            &&& names.moved_source@ == compressed_folder() + svg@
        },
{
    let chars = chars_of(svg);
    let n = chars.len();
    if n < 4 || chars[n - 4] != '.' || chars[n - 3] != 's' || chars[n - 2] != 'v' || chars[n - 1] != 'g' {
        proof {
            if ends_with(svg@, svg_suffix()) {
                assert(svg@.skip(n - 4)[0] == svg@[n - 4]);
                assert(svg@.skip(n - 4)[1] == svg@[n - 3]);
                assert(svg@.skip(n - 4)[2] == svg@[n - 2]);
                assert(svg@.skip(n - 4)[3] == svg@[n - 1]);
            }
        }
        return Err(NameError::NotSvg);
    }
    assert(svg@.skip(n - 4) =~= svg_suffix());
    let output = format_filename(svg);
    let mut temporary = output.clone();
    temporary.append(".TMP");
    let mut moved_source = String::new();
    moved_source.append("compressed/");
    moved_source.append(svg);
    proof {
        reveal_strlit(".TMP");
        reveal_strlit("compressed/");
    }
    assert(temporary@ =~= spec_format_filename(svg@) + seq!['.', 'T', 'M', 'P']);
    assert(moved_source@ =~= compressed_folder() + svg@);
    Ok(OutputNames { output, temporary, moved_source })
}

} // verus!
