//! Text as sequences of characters: trimming, splitting and searching.

use vstd::prelude::*;

verus! {

/// `String::push` appends one character to the end of the string.
pub assume_specification[ String::push ](s: &mut String, c: char)
    ensures
        final(s)@ == old(s)@.push(c),
;

/// The characters with the Unicode `White_Space` property.
pub open spec fn is_white(c: char) -> bool {
    ||| '\u{9}' <= c <= '\u{d}'
    ||| c == ' '
    ||| c == '\u{85}'
    ||| c == '\u{a0}'
    ||| c == '\u{1680}'
    ||| '\u{2000}' <= c <= '\u{200a}'
    ||| c == '\u{2028}'
    ||| c == '\u{2029}'
    ||| c == '\u{202f}'
    ||| c == '\u{205f}'
    ||| c == '\u{3000}'
}

pub(crate) fn white(c: char) -> (res: bool)
    ensures
        res == is_white(c),
{
    ('\u{9}' <= c && c <= '\u{d}') || c == ' ' || c == '\u{85}' || c == '\u{a0}' || c == '\u{1680}'
        || ('\u{2000}' <= c && c <= '\u{200a}') || c == '\u{2028}' || c == '\u{2029}'
        || c == '\u{202f}' || c == '\u{205f}' || c == '\u{3000}'
}

/// `s` without its leading whitespace.
pub open spec fn trim_start(s: Seq<char>) -> Seq<char>
    decreases s.len(),
{
    if s.len() > 0 && is_white(s[0]) {
        trim_start(s.skip(1))
    } else {
        s
    }
}

/// `s` without its trailing whitespace.
pub open spec fn trim_end(s: Seq<char>) -> Seq<char>
    decreases s.len(),
{
    if s.len() > 0 && is_white(s.last()) {
        trim_end(s.drop_last())
    } else {
        s
    }
}

/// `s` without the whitespace around it.
pub open spec fn trim(s: Seq<char>) -> Seq<char> {
    trim_end(trim_start(s))
}

/// The position of the first `c` in `s`, or the length of `s` when there is none.
pub open spec fn position(s: Seq<char>, c: char) -> int
    decreases s.len(),
{
    if s.len() == 0 || s[0] == c {
        0
    } else {
        1 + position(s.skip(1), c)
    }
}

/// The pieces of `s` between the separators; always at least one.
pub open spec fn split(s: Seq<char>, sep: char) -> Seq<Seq<char>>
    decreases s.len(),
{
    let i = position(s, sep);
    if 0 <= i < s.len() {
        seq![s.take(i)] + split(s.skip(i + 1), sep)
    } else {
        seq![s]
    }
}

/// A line without the carriage return that its line ending may begin with.
pub open spec fn strip_cr(line: Seq<char>) -> Seq<char> {
    if line.len() > 0 && line.last() == '\r' {
        line.drop_last()
    } else {
        line
    }
}

/// The lines of `s`, without their endings (`\n` or `\r\n`); the last ending is
/// optional.
pub open spec fn lines(s: Seq<char>) -> Seq<Seq<char>>
    decreases s.len(),
{
    let i = position(s, '\n');
    if s.len() == 0 {
        Seq::empty()
    } else if 0 <= i < s.len() {
        seq![strip_cr(s.take(i))] + lines(s.skip(i + 1))
    } else {
        seq![s]
    }
}

/// What follows `prefix` in `s`, where `s` starts with it.
pub open spec fn strip_prefix(s: Seq<char>, prefix: Seq<char>) -> Option<Seq<char>> {
    if prefix.is_prefix_of(s) {
        Some(s.skip(prefix.len() as int))
    } else {
        None
    }
}

/// The position of the first occurrence of `needle` in `s`.
pub open spec fn find(s: Seq<char>, needle: Seq<char>) -> Option<int>
    decreases s.len(),
{
    if needle.is_prefix_of(s) {
        Some(0)
    } else if s.len() == 0 {
        None
    } else {
        match find(s.skip(1), needle) {
            Some(i) => Some(i + 1),
            None => None,
        }
    }
}

/// Whether `needle` occurs in `s`.
pub open spec fn occurs(s: Seq<char>, needle: Seq<char>) -> bool {
    find(s, needle) is Some
}

/// The parts of `s` before and after the first `sep`.
pub open spec fn split_once(s: Seq<char>, sep: char) -> Option<(Seq<char>, Seq<char>)> {
    let i = position(s, sep);
    if i < s.len() {
        Some((s.take(i), s.skip(i + 1)))
    } else {
        None
    }
}

/// The length of the run of non-whitespace characters that `s` starts with.
pub open spec fn word_len(s: Seq<char>) -> int
    decreases s.len(),
{
    if s.len() == 0 || is_white(s[0]) {
        0
    } else {
        1 + word_len(s.skip(1))
    }
}

/// The maximal runs of non-whitespace characters in `s`, in order.
pub open spec fn words(s: Seq<char>) -> Seq<Seq<char>>
    decreases s.len(),
{
    if s.len() == 0 {
        Seq::empty()
    } else if is_white(s[0]) {
        words(s.skip(1))
    } else {
        let n = word_len(s);
        if 0 < n <= s.len() {
            seq![s.take(n)] + words(s.skip(n))
        } else {
            Seq::empty()
        }
    }
}

/// The pieces with `sep` between each two of them.
pub open spec fn join(parts: Seq<Seq<char>>, sep: Seq<char>) -> Seq<char>
    decreases parts.len(),
{
    if parts.len() == 0 {
        Seq::empty()
    } else if parts.len() == 1 {
        parts[0]
    } else {
        join(parts.drop_last(), sep) + sep + parts.last()
    }
}

/// The lines, each with a line feed after it.
pub open spec fn unlines(lines: Seq<Seq<char>>) -> Seq<char>
    decreases lines.len(),
{
    if lines.len() == 0 {
        Seq::empty()
    } else {
        unlines(lines.drop_last()) + lines.last() + seq!['\n']
    }
}

/// The contents of a vector of character vectors.
pub open spec fn views(v: Seq<Vec<char>>) -> Seq<Seq<char>> {
    v.map_values(|p: Vec<char>| p@)
}

/// The contents of a vector of strings.
pub open spec fn texts(v: Seq<String>) -> Seq<Seq<char>> {
    v.map_values(|p: String| p@)
}

pub proof fn lemma_position(s: Seq<char>, c: char)
    ensures
        0 <= position(s, c) <= s.len(),
        position(s, c) < s.len() ==> s[position(s, c)] == c,
        forall|k: int| 0 <= k < position(s, c) ==> s[k] != c,
    decreases s.len(),
{
    if s.len() > 0 && s[0] != c {
        lemma_position(s.skip(1), c);
        assert forall|k: int| 0 <= k < position(s, c) implies s[k] != c by {
            if k > 0 {
                assert(s[k] == s.skip(1)[k - 1]);
            }
        }
    }
}

/// A position with no earlier `c` is the first one.
pub proof fn lemma_position_is(s: Seq<char>, c: char, i: int)
    requires
        0 <= i <= s.len(),
        forall|k: int| 0 <= k < i ==> s[k] != c,
        i < s.len() ==> s[i] == c,
    ensures
        position(s, c) == i,
{
    lemma_position(s, c);
    let p = position(s, c);
    if p < i {
        assert(s[p] != c);
    }
}

pub(crate) fn chars_of(s: &str) -> (res: Vec<char>)
    ensures
        res@ == s@,
{
    let mut out: Vec<char> = Vec::new();
    for c in it: s.chars()
        invariant
            it.seq() == s@,
            out@ == s@.take(it.index()),
    {
        out.push(c);
    }
    assert(s@.take(s@.len() as int) == s@);
    out
}

pub(crate) fn string_of(v: &Vec<char>) -> (res: String)
    ensures
        res@ == v@,
{
    let mut out = String::new();
    let mut i: usize = 0;
    while i < v.len()
        invariant
            i <= v.len(),
            out@ == v@.take(i as int),
        decreases v.len() - i,
    {
        out.push(v[i]);
        i = i + 1;
        assert(v@.take(i as int) == v@.take(i - 1).push(v@[i - 1]));
    }
    assert(v@.take(v@.len() as int) == v@);
    out
}

/// The characters of `v` from `from` up to, not including, `to`.
pub(crate) fn cut(v: &Vec<char>, from: usize, to: usize) -> (res: Vec<char>)
    requires
        from <= to <= v.len(),
    ensures
        res@ == v@.subrange(from as int, to as int),
{
    let mut out: Vec<char> = Vec::new();
    let mut i: usize = from;
    while i < to
        invariant
            from <= i <= to <= v.len(),
            out@ == v@.subrange(from as int, i as int),
        decreases to - i,
    {
        out.push(v[i]);
        i = i + 1;
        assert(v@.subrange(from as int, i as int) == v@.subrange(from as int, i - 1).push(
            v@[i - 1],
        ));
    }
    out
}

pub(crate) fn trimmed_start(v: &Vec<char>) -> (res: Vec<char>)
    ensures
        res@ == trim_start(v@),
{
    let mut i: usize = 0;
    assert(v@.skip(0) == v@);
    while i < v.len() && white(v[i])
        invariant
            i <= v.len(),
            trim_start(v@) == trim_start(v@.skip(i as int)),
        decreases v.len() - i,
    {
        assert(v@.skip(i as int).skip(1) == v@.skip(i + 1));
        i = i + 1;
    }
    assert(v@.subrange(i as int, v@.len() as int) == v@.skip(i as int));
    cut(v, i, v.len())
}

pub(crate) fn trimmed_end(v: &Vec<char>) -> (res: Vec<char>)
    ensures
        res@ == trim_end(v@),
{
    let mut i: usize = v.len();
    assert(v@.take(v@.len() as int) == v@);
    while i > 0 && white(v[i - 1])
        invariant
            i <= v.len(),
            trim_end(v@) == trim_end(v@.take(i as int)),
        decreases i,
    {
        assert(v@.take(i as int).drop_last() == v@.take(i - 1));
        i = i - 1;
    }
    assert(v@.subrange(0, i as int) == v@.take(i as int));
    cut(v, 0, i)
}

pub(crate) fn trimmed(v: &Vec<char>) -> (res: Vec<char>)
    ensures
        res@ == trim(v@),
{
    trimmed_end(&trimmed_start(v))
}

/// Whether the two texts are the same.
pub(crate) fn same(a: &Vec<char>, b: &Vec<char>) -> (res: bool)
    ensures
        res == (a@ == b@),
{
    if a.len() != b.len() {
        return false;
    }
    let mut i: usize = 0;
    while i < a.len()
        invariant
            i <= a.len(),
            a.len() == b.len(),
            a@.take(i as int) == b@.take(i as int),
        decreases a.len() - i,
    {
        if a[i] != b[i] {
            return false;
        }
        i = i + 1;
        assert(a@.take(i as int) == a@.take(i - 1).push(a@[i - 1]));
        assert(b@.take(i as int) == b@.take(i - 1).push(b@[i - 1]));
    }
    assert(a@.take(a@.len() as int) == a@);
    assert(b@.take(b@.len() as int) == b@);
    true
}

pub(crate) fn is(a: &Vec<char>, b: &str) -> (res: bool)
    ensures
        res == (a@ == b@),
{
    same(a, &chars_of(b))
}

/// Whether `p` stands in `v` at the position `at`.
pub(crate) fn stands_at(v: &Vec<char>, p: &Vec<char>, at: usize) -> (res: bool)
    requires
        at <= v.len(),
    ensures
        res == p@.is_prefix_of(v@.skip(at as int)),
{
    if v.len() - at < p.len() {
        return false;
    }
    let piece = cut(v, at, at + p.len());
    assert(piece@ == v@.skip(at as int).subrange(0, p@.len() as int));
    same(p, &piece)
}

pub(crate) fn starts_with(v: &Vec<char>, p: &str) -> (res: bool)
    ensures
        res == p@.is_prefix_of(v@),
{
    assert(v@.skip(0) == v@);
    stands_at(v, &chars_of(p), 0)
}

pub(crate) fn ends_with(v: &Vec<char>, p: &str) -> (res: bool)
    ensures
        res == p@.is_suffix_of(v@),
{
    let p = chars_of(p);
    if v.len() < p.len() {
        return false;
    }
    let piece = cut(v, v.len() - p.len(), v.len());
    same(&p, &piece)
}

pub(crate) fn stripped_prefix(v: &Vec<char>, p: &str) -> (res: Option<Vec<char>>)
    ensures
        match res {
            Some(rest) => strip_prefix(v@, p@) == Some(rest@),
            None => strip_prefix(v@, p@) is None,
        },
{
    let p = chars_of(p);
    assert(v@.skip(0) == v@);
    if stands_at(v, &p, 0) {
        assert(v@.subrange(p@.len() as int, v@.len() as int) == v@.skip(p@.len() as int));
        Some(cut(v, p.len(), v.len()))
    } else {
        None
    }
}

/// The first `c` in `v` at or after `from`, or the length of `v`.
pub(crate) fn position_from(v: &Vec<char>, c: char, from: usize) -> (res: usize)
    requires
        from <= v.len(),
    ensures
        from <= res <= v.len(),
        res == from + position(v@.skip(from as int), c),
{
    let mut i: usize = from;
    while i < v.len() && v[i] != c
        invariant
            from <= i <= v.len(),
            forall|k: int| from <= k < i ==> v@[k] != c,
        decreases v.len() - i,
    {
        i = i + 1;
    }
    proof {
        lemma_position_is(v@.skip(from as int), c, i - from);
    }
    i
}

/// The parts before and after the first `sep`.
pub(crate) fn parted(v: &Vec<char>, sep: char) -> (res: Option<(Vec<char>, Vec<char>)>)
    ensures
        match res {
            Some((a, b)) => split_once(v@, sep) == Some((a@, b@)),
            None => split_once(v@, sep) is None,
        },
{
    let i: usize = position_from(v, sep, 0);
    assert(v@.skip(0) == v@);
    if i < v.len() {
        assert(v@.subrange(0, i as int) == v@.take(i as int));
        assert(v@.subrange(i + 1, v@.len() as int) == v@.skip(i + 1));
        Some((cut(v, 0, i), cut(v, i + 1, v.len())))
    } else {
        None
    }
}

pub(crate) fn pieces(v: &Vec<char>, sep: char) -> (res: Vec<Vec<char>>)
    ensures
        views(res@) == split(v@, sep),
{
    let mut out: Vec<Vec<char>> = Vec::new();
    let mut from: usize = 0;
    let mut i: usize = position_from(v, sep, 0);
    assert(v@.skip(0) == v@);
    while i < v.len()
        invariant
            from <= i <= v.len(),
            i == from + position(v@.skip(from as int), sep),
            split(v@, sep) == views(out@) + split(v@.skip(from as int), sep),
        decreases v.len() - from,
    {
        let ghost rest = v@.skip(from as int);
        let ghost done = out@;
        let piece = cut(v, from, i);
        assert(piece@ == rest.take(i - from));
        assert(rest.skip(i - from + 1) == v@.skip(i + 1));
        out.push(piece);
        assert(views(out@) == views(done).push(piece@));
        assert(views(done) + (seq![piece@] + split(v@.skip(i + 1), sep)) == views(out@) + split(
            v@.skip(i + 1),
            sep,
        ));
        from = i + 1;
        i = position_from(v, sep, from);
    }
    let piece = cut(v, from, v.len());
    let ghost done = out@;
    assert(piece@ == v@.skip(from as int));
    out.push(piece);
    assert(views(out@) == views(done).push(piece@));
    out
}

pub(crate) fn lines_of(v: &Vec<char>) -> (res: Vec<Vec<char>>)
    ensures
        views(res@) == lines(v@),
{
    let mut out: Vec<Vec<char>> = Vec::new();
    let mut from: usize = 0;
    assert(v@.skip(0) == v@);
    while from < v.len()
        invariant
            from <= v.len(),
            lines(v@) == views(out@) + lines(v@.skip(from as int)),
        decreases v.len() - from,
    {
        let ghost rest = v@.skip(from as int);
        let ghost done = out@;
        let i: usize = position_from(v, '\n', from);
        if i < v.len() {
            let mut end: usize = i;
            if from < i && v[i - 1] == '\r' {
                end = i - 1;
            }
            let line = cut(v, from, end);
            assert(line@ == strip_cr(rest.take(i - from)));
            assert(rest.skip(i - from + 1) == v@.skip(i + 1));
            out.push(line);
            assert(views(out@) == views(done).push(line@));
            assert(views(done) + (seq![line@] + lines(v@.skip(i + 1))) == views(out@) + lines(
                v@.skip(i + 1),
            ));
            from = i + 1;
        } else {
            let line = cut(v, from, v.len());
            assert(line@ == rest);
            out.push(line);
            assert(views(out@) == views(done).push(line@));
            from = v.len();
            assert(views(done) + seq![line@] == views(out@) + lines(v@.skip(from as int)));
        }
    }
    out
}

pub(crate) fn found(v: &Vec<char>, needle: &str) -> (res: Option<usize>)
    ensures
        match res {
            Some(i) => i <= v.len() && find(v@, needle@) == Some(i as int),
            None => find(v@, needle@) is None,
        },
{
    let p = chars_of(needle);
    let mut i: usize = 0;
    assert(v@.skip(0) == v@);
    loop
        invariant
            i <= v.len(),
            p@ == needle@,
            match find(v@.skip(i as int), needle@) {
                Some(j) => find(v@, needle@) == Some(j + i),
                None => find(v@, needle@) is None,
            },
        decreases v.len() - i,
    {
        if stands_at(v, &p, i) {
            return Some(i);
        }
        if i == v.len() {
            return None;
        }
        assert(v@.skip(i as int).skip(1) == v@.skip(i + 1));
        i = i + 1;
    }
}

/// Where a text occurs, it lies within the other.
pub proof fn lemma_find(s: Seq<char>, needle: Seq<char>)
    ensures
        match find(s, needle) {
            Some(i) => {
                &&& 0 <= i
                &&& i + needle.len() <= s.len()
                &&& s.subrange(i, i + needle.len()) == needle
            },
            None => true,
        },
    decreases s.len(),
{
    if !needle.is_prefix_of(s) && s.len() > 0 {
        lemma_find(s.skip(1), needle);
        if let Some(j) = find(s.skip(1), needle) {
            assert(s.subrange(j + 1, j + 1 + needle.len()) == s.skip(1).subrange(
                j,
                j + needle.len(),
            ));
        }
    }
}

pub(crate) fn contains(v: &Vec<char>, needle: &str) -> (res: bool)
    ensures
        res == occurs(v@, needle@),
{
    found(v, needle).is_some()
}

pub(crate) fn word_list(v: &Vec<char>) -> (res: Vec<Vec<char>>)
    ensures
        views(res@) == words(v@),
{
    let mut out: Vec<Vec<char>> = Vec::new();
    let mut from: usize = 0;
    assert(v@.skip(0) == v@);
    while from < v.len()
        invariant
            from <= v.len(),
            words(v@) == views(out@) + words(v@.skip(from as int)),
        decreases v.len() - from,
    {
        let ghost rest = v@.skip(from as int);
        if white(v[from]) {
            assert(rest.skip(1) == v@.skip(from + 1));
            from = from + 1;
        } else {
            let ghost done = out@;
            let mut to: usize = from;
            while to < v.len() && !white(v[to])
                invariant
                    from <= to <= v.len(),
                    rest == v@.skip(from as int),
                    word_len(rest) == (to - from) + word_len(v@.skip(to as int)),
                    to > from || (from < v.len() && !is_white(v@[from as int])),
                decreases v.len() - to,
            {
                assert(v@.skip(to as int).skip(1) == v@.skip(to + 1));
                to = to + 1;
            }
            let word = cut(v, from, to);
            assert(word@ == rest.take(to - from));
            assert(rest.skip(to - from) == v@.skip(to as int));
            out.push(word);
            assert(views(out@) == views(done).push(word@));
            assert(views(done) + (seq![word@] + words(v@.skip(to as int))) == views(out@) + words(
                v@.skip(to as int),
            ));
            from = to;
        }
    }
    out
}

pub(crate) fn joined(parts: &Vec<String>, sep: &str) -> (res: String)
    ensures
        res@ == join(texts(parts@), sep@),
{
    let mut out = String::new();
    let mut i: usize = 0;
    while i < parts.len()
        invariant
            i <= parts.len(),
            out@ == join(texts(parts@).take(i as int), sep@),
        decreases parts.len() - i,
    {
        if i > 0 {
            out.append(sep);
        }
        out.append(parts[i].as_str());
        i = i + 1;
        assert(texts(parts@).take(i as int).drop_last() == texts(parts@).take(i - 1));
    }
    assert(texts(parts@).take(parts@.len() as int) == texts(parts@));
    out
}

/// Whether `c` occurs nowhere in `s`.
pub open spec fn lacks(s: Seq<char>, c: char) -> bool {
    forall|i: int| 0 <= i < s.len() ==> s[i] != c
}

/// Whether `s` has no whitespace at either end.
pub open spec fn is_trimmed(s: Seq<char>) -> bool {
    s.len() > 0 ==> !is_white(s[0]) && !is_white(s.last())
}

/// Trimming leaves text without whitespace at its ends alone.
pub proof fn lemma_trim_of_trimmed(s: Seq<char>)
    requires
        is_trimmed(s),
    ensures
        trim(s) == s,
        trim_start(s) == s,
{
}

proof fn lemma_trim_start(s: Seq<char>)
    ensures
        trim_start(s).len() > 0 ==> !is_white(trim_start(s)[0]),
        trim_start(s).is_suffix_of(s),
    decreases s.len(),
{
    if s.len() > 0 && is_white(s[0]) {
        lemma_trim_start(s.skip(1));
        let t = trim_start(s);
        assert(t == s.skip(1).subrange(s.skip(1).len() - t.len(), s.skip(1).len() as int));
        assert(t == s.subrange(s.len() - t.len(), s.len() as int));
    } else {
        assert(s.subrange(0, s.len() as int) == s);
    }
}

proof fn lemma_trim_end(s: Seq<char>)
    ensures
        trim_end(s).len() > 0 ==> !is_white(trim_end(s).last()),
        trim_end(s).is_prefix_of(s),
    decreases s.len(),
{
    if s.len() > 0 && is_white(s.last()) {
        lemma_trim_end(s.drop_last());
        let t = trim_end(s);
        assert(t == s.drop_last().subrange(0, t.len() as int));
        assert(t == s.subrange(0, t.len() as int));
    } else {
        assert(s.subrange(0, s.len() as int) == s);
    }
}

/// Trimmed text has no whitespace at its ends, so that trimming it again changes
/// nothing.
pub proof fn lemma_trim_is_trimmed(s: Seq<char>)
    ensures
        is_trimmed(trim(s)),
        trim(trim(s)) == trim(s),
{
    lemma_trim_start(s);
    lemma_trim_end(trim_start(s));
    let t = trim(s);
    if t.len() > 0 {
        assert(t == trim_start(s).subrange(0, t.len() as int));
        assert(t[0] == trim_start(s)[0]);
    }
    lemma_trim_of_trimmed(t);
}

/// There is always at least one piece.
pub proof fn lemma_split_not_empty(s: Seq<char>, sep: char)
    ensures
        split(s, sep).len() > 0,
{
}

/// Text without the separator is a single piece.
pub proof fn lemma_split_single(s: Seq<char>, sep: char)
    requires
        lacks(s, sep),
    ensures
        split(s, sep) == seq![s],
{
    lemma_position(s, sep);
}

/// The pieces of two texts with a separator between them.
pub proof fn lemma_split_concat(a: Seq<char>, sep: char, b: Seq<char>)
    ensures
        split(a + seq![sep] + b, sep) == split(a, sep) + split(b, sep),
    decreases a.len(),
{
    let s = a + seq![sep] + b;
    lemma_position(a, sep);
    let i = position(a, sep);
    if i < a.len() {
        lemma_position_is(s, sep, i);
        assert(s.take(i) == a.take(i));
        assert(s.skip(i + 1) == a.skip(i + 1) + seq![sep] + b);
        lemma_split_concat(a.skip(i + 1), sep, b);
        assert(split(s, sep) == seq![a.take(i)] + (split(a.skip(i + 1), sep) + split(b, sep)));
        assert(split(s, sep) == split(a, sep) + split(b, sep));
    } else {
        lemma_position_is(s, sep, a.len() as int);
        assert(s.take(a.len() as int) == a);
        assert(s.skip(a.len() as int + 1) == b);
    }
}

/// The first line of a text that starts with a line and its ending.
pub proof fn lemma_lines_cons(line: Seq<char>, rest: Seq<char>)
    requires
        lacks(line, '\n'),
    ensures
        lines(line + seq!['\n'] + rest) == seq![strip_cr(line)] + lines(rest),
{
    let s = line + seq!['\n'] + rest;
    let i = line.len() as int;
    lemma_position_is(s, '\n', i);
    assert(s.take(i) == line);
    assert(s.skip(i + 1) == rest);
}

/// No line holds a line feed.
pub proof fn lemma_lines_lack_newline(s: Seq<char>)
    ensures
        forall|i: int| 0 <= i < lines(s).len() ==> lacks(#[trigger] lines(s)[i], '\n'),
    decreases s.len(),
{
    lemma_position(s, '\n');
    let p = position(s, '\n');
    if s.len() > 0 && p < s.len() {
        lemma_lines_lack_newline(s.skip(p + 1));
        assert forall|i: int| 0 <= i < lines(s).len() implies lacks(
            #[trigger] lines(s)[i],
            '\n',
        ) by {
            if i > 0 {
                assert(lines(s)[i] == lines(s.skip(p + 1))[i - 1]);
            }
        }
    }
}

/// Text that begins with `p` has `p` stripped from its front.
pub proof fn lemma_strip_prefix_concat(p: Seq<char>, rest: Seq<char>)
    ensures
        strip_prefix(p + rest, p) == Some(rest),
{
    assert((p + rest).subrange(0, p.len() as int) == p);
    assert((p + rest).skip(p.len() as int) == rest);
}

/// Trimmed text is the front part of the text without its leading whitespace.
pub proof fn lemma_trim_is_front(s: Seq<char>)
    ensures
        trim(s).is_prefix_of(trim_start(s)),
{
    lemma_trim_end(trim_start(s));
}

/// Leading whitespace does not depend on a character at the end, unless there is nothing
/// else.
proof fn lemma_trim_start_push(s: Seq<char>, c: char)
    ensures
        trim_start(s.push(c)) == (if trim_start(s).len() > 0 {
            trim_start(s).push(c)
        } else {
            trim_start(seq![c])
        }),
    decreases s.len(),
{
    if s.len() == 0 {
        assert(s.push(c) == seq![c]);
    } else if is_white(s[0]) {
        assert(s.push(c).skip(1) == s.skip(1).push(c));
        lemma_trim_start_push(s.skip(1), c);
    }
}

/// A carriage return at the end is whitespace like any other.
pub proof fn lemma_trim_strip_cr(s: Seq<char>)
    ensures
        trim(strip_cr(s)) == trim(s),
{
    if s.len() > 0 && s.last() == '\r' {
        let m = s.drop_last();
        assert(s == m.push('\r'));
        lemma_trim_start_push(m, '\r');
        if trim_start(m).len() > 0 {
            assert(trim_start(m).push('\r').drop_last() == trim_start(m));
        } else {
            assert(seq!['\r'].skip(1) == Seq::<char>::empty());
            assert(trim_start(seq!['\r']) == trim_start(Seq::<char>::empty()));
            assert(trim_start(m) == Seq::<char>::empty());
        }
    }
}

/// The lines of text that was put together from lines.
pub proof fn lemma_lines_of_unlines(ls: Seq<Seq<char>>)
    requires
        forall|i: int| 0 <= i < ls.len() ==> lacks(#[trigger] ls[i], '\n'),
    ensures
        lines(unlines(ls)) == ls.map_values(|l: Seq<char>| strip_cr(l)),
    decreases ls.len(),
{
    if ls.len() > 0 {
        let rest = ls.skip(1);
        lemma_unlines_cons(ls);
        assert forall|i: int| 0 <= i < rest.len() implies lacks(#[trigger] rest[i], '\n') by {
            assert(rest[i] == ls[i + 1]);
        }
        lemma_lines_of_unlines(rest);
        lemma_lines_cons(ls[0], unlines(rest));
        assert(lines(unlines(ls)) == ls.map_values(|l: Seq<char>| strip_cr(l)));
    }
}

/// The first line stands in front of the others.
proof fn lemma_unlines_cons(lines: Seq<Seq<char>>)
    requires
        lines.len() > 0,
    ensures
        unlines(lines) == lines[0] + seq!['\n'] + unlines(lines.skip(1)),
    decreases lines.len(),
{
    if lines.len() == 1 {
        assert(lines.drop_last() == Seq::<Seq<char>>::empty());
        assert(lines.skip(1) == Seq::<Seq<char>>::empty());
        assert(unlines(lines) == unlines(lines.drop_last()) + lines[0] + seq!['\n']);
        assert(unlines(lines) == lines[0] + seq!['\n'] + unlines(lines.skip(1)));
    } else {
        let init = lines.drop_last();
        lemma_unlines_cons(init);
        assert(init.skip(1) == lines.skip(1).drop_last());
        assert(lines.skip(1).last() == lines.last());
        assert(unlines(lines) == lines[0] + seq!['\n'] + (unlines(init.skip(1)) + lines.last()
            + seq!['\n']));
    }
}

pub(crate) fn unlined(lines: &Vec<String>) -> (res: String)
    ensures
        res@ == unlines(texts(lines@)),
{
    let mut out = String::new();
    let mut i: usize = 0;
    let ghost all = texts(lines@);
    assert(all.take(0) == Seq::<Seq<char>>::empty());
    while i < lines.len()
        invariant
            i <= lines.len(),
            all == texts(lines@),
            out@ == unlines(all.take(i as int)),
        decreases lines.len() - i,
    {
        out.append(lines[i].as_str());
        out.push('\n');
        i = i + 1;
        assert(all.take(i as int).drop_last() == all.take(i - 1));
        assert(out@ == unlines(all.take(i - 1)) + all[i - 1] + seq!['\n']);
    }
    assert(all.take(all.len() as int) == all);
    out
}

/// Text does not start with what begins with another character.
pub proof fn lemma_other_start(s: Seq<char>, prefix: Seq<char>)
    requires
        s.len() > 0,
        prefix.len() > 0,
        s[0] != prefix[0],
    ensures
        strip_prefix(s, prefix) is None,
{
    if prefix.is_prefix_of(s) {
        assert(prefix[0] == s.subrange(0, prefix.len() as int)[0]);
    }
}

/// Whitespace is the blank, the control characters from tab to carriage return, and the
/// other blanks of Unicode.
pub proof fn lemma_white_code_points(c: char)
    ensures
        is_white(c) <==> (9 <= c as int <= 13 || 0x2000 <= c as int <= 0x200a || seq![
            0x20int,
            0x85,
            0xa0,
            0x1680,
            0x2028,
            0x2029,
            0x202f,
            0x205f,
            0x3000,
        ].contains(c as int)),
{
    let others: Seq<int> = seq![0x20int, 0x85, 0xa0, 0x1680, 0x2028, 0x2029, 0x202f, 0x205f, 0x3000];
    assert(others[0] == 0x20 && others[1] == 0x85 && others[2] == 0xa0 && others[3] == 0x1680);
    assert(others[4] == 0x2028 && others[5] == 0x2029 && others[6] == 0x202f);
    assert(others[7] == 0x205f && others[8] == 0x3000);
}

/// Whether `s` holds nothing but whitespace.
pub open spec fn is_blank(s: Seq<char>) -> bool {
    forall|i: int| 0 <= i < s.len() ==> is_white(#[trigger] s[i])
}

/// Trimming at the front takes away whitespace alone, and all of it.
pub proof fn lemma_trim_start_parts(s: Seq<char>) -> (front: Seq<char>)
    ensures
        s == front + trim_start(s),
        is_blank(front),
        trim_start(s).len() > 0 ==> !is_white(trim_start(s)[0]),
    decreases s.len(),
{
    if s.len() > 0 && is_white(s[0]) {
        let rest = lemma_trim_start_parts(s.skip(1));
        let front = seq![s[0]] + rest;
        assert(s == seq![s[0]] + s.skip(1));
        assert(s == front + trim_start(s));
        front
    } else {
        assert(s == Seq::<char>::empty() + s);
        Seq::empty()
    }
}

/// Trimming at the end takes away whitespace alone, and all of it.
pub proof fn lemma_trim_end_parts(s: Seq<char>) -> (back: Seq<char>)
    ensures
        s == trim_end(s) + back,
        is_blank(back),
        trim_end(s).len() > 0 ==> !is_white(trim_end(s).last()),
    decreases s.len(),
{
    if s.len() > 0 && is_white(s.last()) {
        let rest = lemma_trim_end_parts(s.drop_last());
        let back = rest.push(s.last());
        assert(s == s.drop_last().push(s.last()));
        assert(s == trim_end(s) + back);
        back
    } else {
        assert(s == s + Seq::<char>::empty());
        Seq::empty()
    }
}

/// Trimming takes away whitespace at the two ends alone, and all of it.
pub proof fn lemma_trim_parts(s: Seq<char>) -> (ends: (Seq<char>, Seq<char>))
    ensures
        s == ends.0 + trim(s) + ends.1,
        is_blank(ends.0),
        is_blank(ends.1),
        trim(s).len() > 0 ==> !is_white(trim(s)[0]) && !is_white(trim(s).last()),
{
    let front = lemma_trim_start_parts(s);
    let back = lemma_trim_end_parts(trim_start(s));
    lemma_trim_is_trimmed(s);
    assert(s == front + trim(s) + back);
    (front, back)
}

/// Text that is trimmed stays, whatever whitespace is put around it.
pub proof fn lemma_trim_of_padded(front: Seq<char>, s: Seq<char>, back: Seq<char>)
    requires
        is_blank(front),
        is_blank(back),
        s.len() > 0,
        !is_white(s[0]),
        !is_white(s.last()),
    ensures
        trim(front + s + back) == s,
    decreases front.len() + back.len(),
{
    let all = front + s + back;
    if front.len() > 0 {
        assert(is_white(front[0]));
        assert(all.skip(1) == front.skip(1) + s + back);
        assert forall|i: int| 0 <= i < front.skip(1).len() implies is_white(
            #[trigger] front.skip(1)[i],
        ) by {
            assert(front.skip(1)[i] == front[i + 1]);
        }
        lemma_trim_of_padded(front.skip(1), s, back);
    } else {
        assert(all == s + back);
        assert(trim_start(all) == all);
        if back.len() > 0 {
            assert(is_white(back[back.len() - 1]));
            let less = back.drop_last();
            assert(all.drop_last() == front + s + less);
            assert forall|i: int| 0 <= i < less.len() implies is_white(#[trigger] less[i]) by {
                assert(less[i] == back[i]);
            }
            lemma_trim_of_padded(front, s, less);
            assert(trim_start(front + s + less) == front + s + less);
        } else {
            assert(all == s);
        }
    }
}

/// Blank text is trimmed to nothing.
pub proof fn lemma_trim_of_blank(s: Seq<char>)
    requires
        is_blank(s),
    ensures
        trim(s) == Seq::<char>::empty(),
        trim_start(s) == Seq::<char>::empty(),
{
    let front = lemma_trim_start_parts(s);
    if trim_start(s).len() > 0 {
        assert(s[front.len() as int] == trim_start(s)[0]);
    }
    assert(trim_start(s) == Seq::<char>::empty());
}

/// Joining puts the separator between each two pieces, and nothing else.
pub proof fn lemma_join(parts: Seq<Seq<char>>, last: Seq<char>, sep: Seq<char>)
    ensures
        join(Seq::<Seq<char>>::empty(), sep) == Seq::<char>::empty(),
        join(seq![last], sep) == last,
        parts.len() > 0 ==> join(parts.push(last), sep) == join(parts, sep) + sep + last,
{
    if parts.len() > 0 {
        assert(parts.push(last).drop_last() == parts);
    }
}

/// A piece in front of others is joined to them with the separator.
pub proof fn lemma_join_cons(first: Seq<char>, parts: Seq<Seq<char>>, sep: Seq<char>)
    requires
        parts.len() > 0,
    ensures
        join(seq![first] + parts, sep) == first + sep + join(parts, sep),
    decreases parts.len(),
{
    let all = seq![first] + parts;
    if parts.len() == 1 {
        assert(all.drop_last() == seq![first]);
        assert(join(seq![first], sep) == first);
        assert(all.last() == parts[0]);
    } else {
        lemma_join_cons(first, parts.drop_last(), sep);
        assert(all.drop_last() == seq![first] + parts.drop_last());
        assert(join(all, sep) == first + sep + join(parts.drop_last(), sep) + sep + parts.last());
        assert(join(all, sep) == first + sep + join(parts, sep));
    }
}

/// Splitting loses nothing: the pieces are free of the separator, and joined with it they
/// are the text again.
pub proof fn lemma_split_joins_back(s: Seq<char>, sep: char)
    ensures
        split(s, sep).len() > 0,
        forall|i: int| 0 <= i < split(s, sep).len() ==> lacks(#[trigger] split(s, sep)[i], sep),
        join(split(s, sep), seq![sep]) == s,
    decreases s.len(),
{
    lemma_position(s, sep);
    let i = position(s, sep);
    if i < s.len() {
        let rest = s.skip(i + 1);
        lemma_split_joins_back(rest, sep);
        lemma_join_cons(s.take(i), split(rest, sep), seq![sep]);
        assert(s == s.take(i) + seq![sep] + rest);
        assert forall|k: int| 0 <= k < split(s, sep).len() implies lacks(
            #[trigger] split(s, sep)[k],
            sep,
        ) by {
            if k > 0 {
                assert(split(s, sep)[k] == split(rest, sep)[k - 1]);
            }
        }
    }
}

/// Where lines begin and end: nothing has no lines; text without a line feed is one line
/// as it is; and each line feed ends a line, together with a carriage return before it.
pub proof fn lemma_lines(line: Seq<char>, rest: Seq<char>)
    requires
        lacks(line, '\n'),
    ensures
        lines(Seq::<char>::empty()) == Seq::<Seq<char>>::empty(),
        line.len() > 0 ==> lines(line) == seq![line],
        line.len() == 0 || line.last() != '\r' ==> lines(line + seq!['\n'] + rest) == seq![line]
            + lines(rest),
        lines(line + seq!['\r', '\n'] + rest) == seq![line] + lines(rest),
{
    lemma_position(line, '\n');
    lemma_lines_cons(line, rest);
    let cr = line.push('\r');
    assert(line + seq!['\r', '\n'] + rest == cr + seq!['\n'] + rest);
    lemma_lines_cons(cr, rest);
    assert(cr.drop_last() == line);
}

/// Putting lines together ends each of them with a line feed.
pub proof fn lemma_unlines(ls: Seq<Seq<char>>, last: Seq<char>)
    ensures
        unlines(Seq::<Seq<char>>::empty()) == Seq::<char>::empty(),
        unlines(ls.push(last)) == unlines(ls) + last + seq!['\n'],
{
    assert(ls.push(last).drop_last() == ls);
}

/// Whether `needle` stands in `s` at the position `i`.
pub open spec fn is_at(s: Seq<char>, needle: Seq<char>, i: int) -> bool {
    0 <= i && i + needle.len() <= s.len() && s.subrange(i, i + needle.len()) == needle
}

/// What is found is the first of all occurrences, and nothing is found only where there is
/// none.
pub proof fn lemma_find_is_first(s: Seq<char>, needle: Seq<char>)
    ensures
        match find(s, needle) {
            Some(i) => is_at(s, needle, i) && forall|j: int| 0 <= j < i ==> !#[trigger] is_at(s, needle, j),
            None => forall|j: int| !#[trigger] is_at(s, needle, j),
        },
    decreases s.len(),
{
    if needle.is_prefix_of(s) {
        assert(is_at(s, needle, 0));
    } else if s.len() > 0 {
        lemma_find_is_first(s.skip(1), needle);
        assert forall|j: int| j > 0 implies #[trigger] is_at(s, needle, j) == is_at(
            s.skip(1),
            needle,
            j - 1,
        ) by {
            if j + needle.len() <= s.len() {
                assert(s.subrange(j, j + needle.len()) == s.skip(1).subrange(
                    j - 1,
                    j - 1 + needle.len(),
                ));
            }
        }
        assert(!is_at(s, needle, 0));
        if let Some(i) = find(s.skip(1), needle) {
            assert(is_at(s, needle, i + 1));
            assert forall|j: int| 0 <= j < i + 1 implies !#[trigger] is_at(s, needle, j) by {
                if j > 0 {
                    assert(!is_at(s.skip(1), needle, j - 1));
                }
            }
        } else {
            assert forall|j: int| !#[trigger] is_at(s, needle, j) by {
                if j > 0 {
                    assert(!is_at(s.skip(1), needle, j - 1));
                }
            }
        }
    } else {
        assert forall|j: int| !#[trigger] is_at(s, needle, j) by {
            if is_at(s, needle, j) {
                assert(s.subrange(j, j + needle.len()) == s);
            }
        }
    }
}

/// Text occurs in another exactly where it stands between a front and a back part of it.
pub proof fn lemma_occurs(s: Seq<char>, needle: Seq<char>)
    ensures
        occurs(s, needle) <==> exists|i: int| #[trigger] is_at(s, needle, i),
{
    lemma_find_is_first(s, needle);
}

/// Text occurs wherever it was put.
pub proof fn lemma_occurs_between(front: Seq<char>, needle: Seq<char>, back: Seq<char>)
    ensures
        occurs(front + needle + back, needle),
{
    let s = front + needle + back;
    assert(s.subrange(front.len() as int, front.len() as int + needle.len()) == needle);
    assert(is_at(s, needle, front.len() as int));
    lemma_occurs(s, needle);
}

/// Parting a text at its first separator loses nothing; only text without a separator is
/// not parted.
pub proof fn lemma_split_once_parts(s: Seq<char>, sep: char)
    ensures
        match split_once(s, sep) {
            Some((a, b)) => s == a + seq![sep] + b && lacks(a, sep),
            None => lacks(s, sep),
        },
{
    lemma_position(s, sep);
    let i = position(s, sep);
    if i < s.len() {
        assert(s == s.take(i) + seq![sep] + s.skip(i + 1));
    }
}

/// A prefix is stripped exactly where the text begins with it.
pub proof fn lemma_strip_prefix_parts(s: Seq<char>, prefix: Seq<char>)
    ensures
        match strip_prefix(s, prefix) {
            Some(rest) => s == prefix + rest,
            None => s.len() < prefix.len() || s.take(prefix.len() as int) != prefix,
        },
{
    if prefix.is_prefix_of(s) {
        assert(s == prefix + s.skip(prefix.len() as int));
    } else if s.len() >= prefix.len() {
        assert(s.take(prefix.len() as int) == s.subrange(0, prefix.len() as int));
    }
}

/// Whether `s` holds no whitespace.
pub open spec fn is_word(s: Seq<char>) -> bool {
    s.len() > 0 && forall|i: int| 0 <= i < s.len() ==> !is_white(#[trigger] s[i])
}

proof fn lemma_word_len(w: Seq<char>, rest: Seq<char>)
    requires
        forall|i: int| 0 <= i < w.len() ==> !is_white(#[trigger] w[i]),
        rest.len() > 0 ==> is_white(rest[0]),
    ensures
        word_len(w + rest) == w.len(),
    decreases w.len(),
{
    if w.len() > 0 {
        assert(!is_white(w[0]));
        assert((w + rest).skip(1) == w.skip(1) + rest);
        assert forall|i: int| 0 <= i < w.skip(1).len() implies !is_white(
            #[trigger] w.skip(1)[i],
        ) by {
            assert(w.skip(1)[i] == w[i + 1]);
        }
        lemma_word_len(w.skip(1), rest);
    } else {
        assert(w + rest == rest);
    }
}

/// Words are what whitespace of any length stands between: blank text has none, and a word
/// that whitespace or nothing follows comes before the words of what follows.
pub proof fn lemma_words(front: Seq<char>, word: Seq<char>, rest: Seq<char>)
    requires
        is_blank(front),
        is_word(word),
        rest.len() > 0 ==> is_white(rest[0]),
    ensures
        words(front) == Seq::<Seq<char>>::empty(),
        words(front + word + rest) == seq![word] + words(rest),
    decreases front.len(),
{
    if front.len() > 0 {
        assert(is_white(front[0]));
        assert forall|i: int| 0 <= i < front.skip(1).len() implies is_white(
            #[trigger] front.skip(1)[i],
        ) by {
            assert(front.skip(1)[i] == front[i + 1]);
        }
        lemma_words(front.skip(1), word, rest);
        assert((front + word + rest).skip(1) == front.skip(1) + word + rest);
    } else {
        let s = word + rest;
        assert(front + word + rest == s);
        assert(!is_white(word[0]));
        lemma_word_len(word, rest);
        assert(s.take(word.len() as int) == word);
        assert(s.skip(word.len() as int) == rest);
    }
}

} // verus!
