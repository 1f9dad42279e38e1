use vstd::prelude::*;

verus! {

/// `s` begins with `pat`.
pub open spec fn starts_with(s: Seq<char>, pat: Seq<char>) -> bool {
    pat.len() <= s.len() && s.take(pat.len() as int) == pat
}

/// `s` ends with `pat`.
pub open spec fn ends_with(s: Seq<char>, pat: Seq<char>) -> bool {
    pat.len() <= s.len() && s.skip(s.len() - pat.len()) == pat
}

/// The first position at or after `i` where the non-empty pattern `pat` occurs in `s`.
pub open spec fn find_from(s: Seq<char>, pat: Seq<char>, i: int) -> Option<int>
    decreases s.len() - i,
{
    if i < 0 || i >= s.len() || i + pat.len() > s.len() {
        None
    } else if starts_with(s.skip(i), pat) {
        Some(i)
    } else {
        find_from(s, pat, i + 1)
    }
}

/// A position found by `find_from` lies at or after `i` and starts an occurrence of `pat`.
pub proof fn lemma_find_from_found(s: Seq<char>, pat: Seq<char>, i: int)
    ensures
        find_from(s, pat, i) matches Some(j) ==> i <= j && j + pat.len() <= s.len() && starts_with(
            s.skip(j),
            pat,
        ),
    decreases s.len() - i,
{
    if !(i < 0 || i >= s.len() || i + pat.len() > s.len()) && !starts_with(s.skip(i), pat) {
        lemma_find_from_found(s, pat, i + 1);
    }
}

/// When `find_from` finds nothing from `i` on, no occurrence starts at `j >= i`.
pub proof fn lemma_find_from_none(s: Seq<char>, pat: Seq<char>, i: int, j: int)
    requires
        find_from(s, pat, i) is None,
        0 <= i <= j,
        j < s.len(),
        j + pat.len() <= s.len(),
    ensures
        !starts_with(s.skip(j), pat),
    decreases j - i,
{
    if i < j {
        lemma_find_from_none(s, pat, i + 1, j);
    }
}

/// A pattern whose first character occurs in it only at the start is found,
/// in `p + rest`, where `rest` begins, when `p` holds no occurrence of it.
pub proof fn lemma_find_after_prefix(p: Seq<char>, rest: Seq<char>, pat: Seq<char>)
    requires
        pat.len() > 0,
        forall|k: int| 0 < k < pat.len() ==> #[trigger] pat[k] != pat[0],
        find(p, pat) is None,
        starts_with(rest, pat),
    ensures
        find(p + rest, pat) == Some(p.len() as int),
{
    let s = p + rest;
    assert(s.skip(p.len() as int) =~= rest);
    assert(find_from(s, pat, p.len() as int) == Some(p.len() as int));
    lemma_find_between(p, rest, pat, 0);
}

proof fn lemma_find_between(p: Seq<char>, rest: Seq<char>, pat: Seq<char>, i: int)
    requires
        0 <= i <= p.len(),
        pat.len() > 0,
        forall|k: int| 0 < k < pat.len() ==> #[trigger] pat[k] != pat[0],
        find(p, pat) is None,
        starts_with(rest, pat),
        find_from(p + rest, pat, p.len() as int) == Some(p.len() as int),
    ensures
        find_from(p + rest, pat, i) == Some(p.len() as int),
    decreases p.len() - i,
{
    let s = p + rest;
    if i < p.len() {
        lemma_find_between(p, rest, pat, i + 1);
        if starts_with(s.skip(i), pat) {
            if i + pat.len() <= p.len() {
                assert(p.skip(i).take(pat.len() as int) =~= s.skip(i).take(pat.len() as int));
                lemma_find_from_none(p, pat, 0, i);
            } else {
                let k = p.len() - i;
                assert(s.skip(i).take(pat.len() as int)[k] == s[p.len() as int]);
                assert(s[p.len() as int] == rest[0]);
                assert(rest.take(pat.len() as int)[0] == rest[0]);
            }
        }
    }
}

/// The position of the first occurrence of the non-empty pattern `pat` in `s`.
pub open spec fn find(s: Seq<char>, pat: Seq<char>) -> Option<int> {
    find_from(s, pat, 0)
}

/// `s` with every occurrence of the non-empty pattern `pat` removed, matches
/// taken from left to right without overlap.
pub open spec fn remove_all(s: Seq<char>, pat: Seq<char>) -> Seq<char>
    decreases s.len(),
{
    if s.len() == 0 {
        s
    } else if pat.len() > 0 && starts_with(s, pat) {
        remove_all(s.skip(pat.len() as int), pat)
    } else {
        seq![s[0]].add(remove_all(s.skip(1), pat))
    }
}

/// Removing a pattern whose first character never occurs in `s` leaves `s` as it is.
pub proof fn lemma_remove_all_absent(s: Seq<char>, pat: Seq<char>)
    requires
        pat.len() > 0,
        forall|i: int| 0 <= i < s.len() ==> s[i] != pat[0],
    ensures
        remove_all(s, pat) == s,
    decreases s.len(),
{
    if s.len() > 0 {
        if starts_with(s, pat) {
            assert(s.take(pat.len() as int)[0] == s[0]);
        }
        lemma_remove_all_absent(s.skip(1), pat);
        assert(seq![s[0]] + s.skip(1) =~= s);
    }
}

/// Removing a pattern from `c + y`, where no character of `c` starts the
/// pattern, keeps `c` and removes the pattern from `y`.
pub proof fn lemma_remove_all_keeps_head(c: Seq<char>, y: Seq<char>, pat: Seq<char>)
    requires
        pat.len() > 0,
        forall|i: int| 0 <= i < c.len() ==> c[i] != pat[0],
    ensures
        remove_all(c + y, pat) == c + remove_all(y, pat),
    decreases c.len(),
{
    if c.len() > 0 {
        let s = c + y;
        if starts_with(s, pat) {
            assert(s.take(pat.len() as int)[0] == s[0]);
        }
        assert(s.skip(1) =~= c.skip(1) + y);
        lemma_remove_all_keeps_head(c.skip(1), y, pat);
        assert(seq![c[0]] + (c.skip(1) + remove_all(y, pat)) =~= c + remove_all(y, pat));
    } else {
        assert(c + y =~= y);
        assert(c + remove_all(y, pat) =~= remove_all(y, pat));
    }
}

/// Removing a pattern from a text that starts with it drops that occurrence.
pub proof fn lemma_remove_all_drops_head(y: Seq<char>, pat: Seq<char>)
    requires
        pat.len() > 0,
    ensures
        remove_all(pat + y, pat) == remove_all(y, pat),
{
    let s = pat + y;
    assert(s.take(pat.len() as int) =~= pat);
    assert(s.skip(pat.len() as int) =~= y);
}

/// The chunks joined by the separators between them:
/// `chunks[0] + seps[0] + chunks[1] + seps[1] + ... + chunks[n - 1]`.
pub open spec fn interleave(chunks: Seq<Seq<char>>, seps: Seq<Seq<char>>) -> Seq<char>
    decreases chunks.len(),
{
    if chunks.len() == 0 {
        Seq::empty()
    } else if chunks.len() == 1 {
        chunks[0]
    } else {
        chunks[0] + seps[0] + interleave(chunks.drop_first(), seps.drop_first())
    }
}

/// The chunks one after the other.
pub open spec fn concat(chunks: Seq<Seq<char>>) -> Seq<char>
    decreases chunks.len(),
{
    if chunks.len() == 0 {
        Seq::empty()
    } else {
        chunks[0] + concat(chunks.drop_first())
    }
}

/// The separators with every one equal to `pat` made empty.
pub open spec fn drop_separator(seps: Seq<Seq<char>>, pat: Seq<char>) -> Seq<Seq<char>> {
    Seq::new(seps.len(), |i: int| if seps[i] == pat { Seq::<char>::empty() } else { seps[i] })
}

/// Removing a pattern from chunks joined by separators removes exactly the
/// separators equal to it, when no chunk character and no other separator
/// character starts the pattern.
pub proof fn lemma_remove_all_interleave(chunks: Seq<Seq<char>>, seps: Seq<Seq<char>>, pat: Seq<char>)
    requires
        pat.len() > 0,
        chunks.len() == seps.len() + 1,
        forall|i: int, j: int|
            0 <= i < chunks.len() && 0 <= j < chunks[i].len() ==> #[trigger] chunks[i][j] != pat[0],
        forall|i: int|
            0 <= i < seps.len() ==> #[trigger] seps[i] == pat || forall|j: int|
                0 <= j < seps[i].len() ==> seps[i][j] != pat[0],
    ensures
        remove_all(interleave(chunks, seps), pat) == interleave(chunks, drop_separator(seps, pat)),
    decreases chunks.len(),
{
    let c0 = chunks[0];
    assert forall|j: int| 0 <= j < c0.len() implies c0[j] != pat[0] by {
        assert(chunks[0][j] != pat[0]);
    }
    if chunks.len() == 1 {
        assert(c0 + Seq::<char>::empty() =~= c0);
        lemma_remove_all_keeps_head(c0, Seq::empty(), pat);
        assert(remove_all(Seq::<char>::empty(), pat) == Seq::<char>::empty());
    } else {
        let rest_c = chunks.drop_first();
        let rest_s = seps.drop_first();
        assert forall|i: int, j: int|
            0 <= i < rest_c.len() && 0 <= j < rest_c[i].len() implies #[trigger] rest_c[i][j] != pat[0] by {
            assert(rest_c[i] == chunks[i + 1]);
        }
        assert forall|i: int| 0 <= i < rest_s.len() implies #[trigger] rest_s[i] == pat || forall|j: int|
            0 <= j < rest_s[i].len() ==> rest_s[i][j] != pat[0] by {
            assert(rest_s[i] == seps[i + 1]);
        }
        lemma_remove_all_interleave(rest_c, rest_s, pat);
        let tail = interleave(rest_c, rest_s);
        let s0 = seps[0];
        assert(interleave(chunks, seps) =~= c0 + (s0 + tail));
        lemma_remove_all_keeps_head(c0, s0 + tail, pat);
        if s0 == pat {
            lemma_remove_all_drops_head(tail, pat);
        } else {
            assert(forall|j: int| 0 <= j < s0.len() ==> s0[j] != pat[0]);
            lemma_remove_all_keeps_head(s0, tail, pat);
        }
        let d = drop_separator(seps, pat);
        assert(d.drop_first() =~= drop_separator(rest_s, pat));
        assert(interleave(chunks, d) =~= c0 + (d[0] + interleave(rest_c, d.drop_first())));
    }
}

/// Chunks joined by empty separators are the chunks one after the other.
pub proof fn lemma_interleave_empty(chunks: Seq<Seq<char>>, seps: Seq<Seq<char>>)
    requires
        chunks.len() == seps.len() + 1,
        forall|i: int| 0 <= i < seps.len() ==> (#[trigger] seps[i]).len() == 0,
    ensures
        interleave(chunks, seps) == concat(chunks),
    decreases chunks.len(),
{
    if chunks.len() == 1 {
        assert(chunks.drop_first() =~= Seq::<Seq<char>>::empty());
        assert(concat(chunks.drop_first()) == Seq::<char>::empty());
        assert(chunks[0] + Seq::<char>::empty() =~= chunks[0]);
    } else {
        assert forall|i: int| 0 <= i < seps.drop_first().len() implies (#[trigger] seps.drop_first()[i]).len() == 0 by {
            assert(seps.drop_first()[i] == seps[i + 1]);
        }
        lemma_interleave_empty(chunks.drop_first(), seps.drop_first());
        assert(seps[0] =~= Seq::<char>::empty());
        assert(chunks[0] + seps[0] + concat(chunks.drop_first()) =~= chunks[0] + concat(chunks.drop_first()));
    }
}

/// Putting text before the first chunk and after the last one.
pub proof fn lemma_interleave_wrap(chunks: Seq<Seq<char>>, seps: Seq<Seq<char>>, p: Seq<char>, e: Seq<char>)
    requires
        chunks.len() == seps.len() + 1,
    ensures
        ({
            let n = chunks.len() - 1;
            let wrapped = chunks.update(0, p + chunks[0]).update(n, chunks.update(0, p + chunks[0])[n] + e);
            interleave(wrapped, seps) == p + interleave(chunks, seps) + e
        }),
    decreases chunks.len(),
{
    let n = chunks.len() - 1;
    let first = chunks.update(0, p + chunks[0]);
    let wrapped = first.update(n, first[n] + e);
    if chunks.len() == 1 {
        assert(wrapped[0] =~= p + chunks[0] + e);
    } else {
        let rest_c = chunks.drop_first();
        let rest_s = seps.drop_first();
        lemma_interleave_wrap(rest_c, rest_s, Seq::empty(), e);
        let m = rest_c.len() - 1;
        let rest_first = rest_c.update(0, Seq::<char>::empty() + rest_c[0]);
        let rest_wrapped = rest_first.update(m, rest_first[m] + e);
        assert(Seq::<char>::empty() + rest_c[0] =~= rest_c[0]);
        assert(rest_first =~= rest_c);
        assert(wrapped.drop_first() =~= rest_wrapped);
        assert(wrapped[0] == p + chunks[0]);
        assert(Seq::<char>::empty() + interleave(rest_c, rest_s) + e =~= interleave(rest_c, rest_s) + e);
        assert(interleave(wrapped, seps) =~= p + interleave(chunks, seps) + e);
    }
}

/// Appends one character to a string.
/// Trusted: `String::push` appends `c` at the end, as std documents.
#[verifier::external_body]
pub fn push_char(s: &mut String, c: char)
    ensures
        final(s)@ == old(s)@.push(c),
{
    s.push(c);
}

/// The characters of `s`, in order.
pub fn chars_of(s: &str) -> (v: Vec<char>)
    ensures
        v@ == s@,
{
    broadcast use vstd::string::group_string_axioms;
    let mut v: Vec<char> = Vec::new();
    for c in it: s.chars()
        invariant
            it.seq() == s@,
            v@ == it.seq().take(it.index() as int),
    {
        v.push(c);
        assert(v@ =~= it.seq().take(it.index() + 1));
    }
    assert(v@ =~= s@);
    v
}

/// The string made of `v[from..to]`.
pub fn string_of(v: &Vec<char>, from: usize, to: usize) -> (s: String)
    requires
        from <= to <= v@.len(),
    ensures
        s@ == v@.subrange(from as int, to as int),
{
    let mut s = String::new();
    let mut i = from;
    while i < to
        invariant
            from <= i <= to <= v@.len(),
            s@ == v@.subrange(from as int, i as int),
        decreases to - i,
    {
        push_char(&mut s, v[i]);
        assert(s@ =~= v@.subrange(from as int, i + 1));
        i = i + 1;
    }
    s
}

/// A copy of `v[from..to]`.
pub fn sub_vec(v: &Vec<char>, from: usize, to: usize) -> (res: Vec<char>)
    requires
        from <= to <= v@.len(),
    ensures
        res@ == v@.subrange(from as int, to as int),
{
    let mut res: Vec<char> = Vec::new();
    let mut i = from;
    while i < to
        invariant
            from <= i <= to <= v@.len(),
            res@ == v@.subrange(from as int, i as int),
        decreases to - i,
    {
        res.push(v[i]);
        assert(res@ =~= v@.subrange(from as int, i + 1));
        i = i + 1;
    }
    res
}

/// Whether `hay[start..]` begins with `pat`.
pub fn starts_with_at(hay: &Vec<char>, start: usize, pat: &Vec<char>) -> (res: bool)
    requires
        start <= hay@.len(),
    ensures
        res == starts_with(hay@.skip(start as int), pat@),
{
    if pat.len() > hay.len() - start {
        return false;
    }
    let mut j: usize = 0;
    while j < pat.len()
        invariant
            start + pat@.len() <= hay@.len(),
            hay@.len() <= usize::MAX,
            j <= pat@.len(),
            forall|k: int| 0 <= k < j ==> hay@[start + k] == pat@[k],
        decreases pat@.len() - j,
    {
        if hay[start + j] != pat[j] {
            assert(hay@.skip(start as int).take(pat@.len() as int)[j as int] != pat@[j as int]);
            return false;
        }
        j = j + 1;
    }
    assert(hay@.skip(start as int).take(pat@.len() as int) =~= pat@);
    true
}

/// The position of the first occurrence of the non-empty `pat` in `hay`.
pub fn find_in(hay: &Vec<char>, pat: &Vec<char>) -> (res: Option<usize>)
    requires
        pat@.len() > 0,
    ensures
        match res {
            Some(i) => find(hay@, pat@) == Some(i as int) && i + pat@.len() <= hay@.len(),
            None => find(hay@, pat@) is None,
        },
{
    proof {
        lemma_find_from_found(hay@, pat@, 0);
    }
    let mut i: usize = 0;
    while i < hay.len()
        invariant
            i <= hay@.len(),
            pat@.len() > 0,
            find(hay@, pat@) == find_from(hay@, pat@, i as int),
        decreases hay@.len() - i,
    {
        if pat.len() > hay.len() - i {
            return None;
        }
        if starts_with_at(hay, i, pat) {
            return Some(i);
        }
        i = i + 1;
    }
    None
}

/// `s` with every occurrence of the non-empty `pat` removed, left to right.
pub fn remove_all_in(s: &Vec<char>, pat: &Vec<char>) -> (res: Vec<char>)
    requires
        pat@.len() > 0,
    ensures
        res@ == remove_all(s@, pat@),
{
    let mut out: Vec<char> = Vec::new();
    let mut i: usize = 0;
    assert(s@.skip(0) =~= s@);
    while i < s.len()
        invariant
            i <= s@.len(),
            pat@.len() > 0,
            remove_all(s@, pat@) == out@ + remove_all(s@.skip(i as int), pat@),
        decreases s@.len() - i,
    {
        if starts_with_at(s, i, pat) {
            assert(s@.skip(i as int).skip(pat@.len() as int) =~= s@.skip(i + pat@.len()));
            i = i + pat.len();
        } else {
            let c = s[i];
            assert(s@.skip(i as int).skip(1) =~= s@.skip(i + 1));
            assert(remove_all(s@.skip(i as int), pat@) == seq![c] + remove_all(s@.skip(i + 1), pat@));
            let ghost prev = out@;
            out.push(c);
            assert(out@ + remove_all(s@.skip(i + 1), pat@) =~= prev + (seq![c] + remove_all(s@.skip(i + 1), pat@)));
            i = i + 1;
        }
    }
    assert(s@.skip(i as int) =~= Seq::<char>::empty());
    assert(out@ + Seq::<char>::empty() =~= out@);
    out
}

} // verus!
