//! Character-level helpers shared by the formatter.

use vstd::prelude::*;

verus! {

/// `c` has the Unicode `White_Space` property (what `char::is_whitespace` tests).
pub open spec fn is_space_char(c: char) -> bool {
    ||| ('\u{9}' <= c && c <= '\u{d}')
    ||| c == ' '
    ||| c == '\u{85}'
    ||| c == '\u{a0}'
    ||| c == '\u{1680}'
    ||| ('\u{2000}' <= c && c <= '\u{200a}')
    ||| c == '\u{2028}'
    ||| c == '\u{2029}'
    ||| c == '\u{202f}'
    ||| c == '\u{205f}'
    ||| c == '\u{3000}'
}

/// Executable form of [`is_space_char`].
pub fn char_is_space(c: char) -> (r: bool)
    ensures
        r == is_space_char(c),
{
    ('\u{9}' <= c && c <= '\u{d}') || c == ' ' || c == '\u{85}' || c == '\u{a0}' || c
        == '\u{1680}' || ('\u{2000}' <= c && c <= '\u{200a}') || c == '\u{2028}' || c
        == '\u{2029}' || c == '\u{202f}' || c == '\u{205f}' || c == '\u{3000}'
}

/// The characters of a string slice, in order.
pub fn str_chars(s: &str) -> (r: Vec<char>)
    ensures
        r@ == s@,
{
    let mut r: Vec<char> = Vec::new();
    for c in it: s.chars()
        invariant
            r@ == it.seq().take(it.index() as int),
            it.seq() == s@,
    {
        r.push(c);
    }
    r
}

/// A `String` holding the given characters.
#[verifier::external_body]
pub fn string_from_chars(v: &[char]) -> (r: String)
    ensures
        r@ == v@,
{
    v.iter().collect()
}

/// The number of `-` characters at the start of `s`.
pub open spec fn leading_dashes(s: Seq<char>) -> nat
    decreases s.len(),
{
    if s.len() > 0 && s[0] == '-' {
        1 + leading_dashes(s.drop_first())
    } else {
        0
    }
}

/// The index of the first character of `s` at or after `from` that is not white space.
pub open spec fn skip_spaces_from(s: Seq<char>, from: int) -> int
    decreases s.len() - from,
{
    if from < s.len() && is_space_char(s[from]) {
        skip_spaces_from(s, from + 1)
    } else {
        from
    }
}

/// `s` with the white space at its start removed (what `str::trim_start` keeps).
pub open spec fn trim_start_chars(s: Seq<char>) -> Seq<char> {
    s.subrange(skip_spaces_from(s, 0), s.len() as int)
}

pub proof fn lemma_skip_spaces_bounds(s: Seq<char>, from: int)
    requires
        0 <= from <= s.len(),
    ensures
        from <= skip_spaces_from(s, from) <= s.len(),
        skip_spaces_from(s, from) < s.len() ==> !is_space_char(s[skip_spaces_from(s, from)]),
    decreases s.len() - from,
{
    if from < s.len() && is_space_char(s[from]) {
        lemma_skip_spaces_bounds(s, from + 1);
    }
}

/// The index of the first non-white-space character at or after `from`.
pub fn skip_spaces(s: &[char], from: usize) -> (r: usize)
    requires
        from <= s.len(),
    ensures
        r == skip_spaces_from(s@, from as int),
        from <= r <= s.len(),
{
    let mut i = from;
    proof {
        lemma_skip_spaces_bounds(s@, from as int);
    }
    while i < s.len() && char_is_space(s[i])
        invariant
            from <= i <= s.len(),
            skip_spaces_from(s@, i as int) == skip_spaces_from(s@, from as int),
        decreases s.len() - i,
    {
        i = i + 1;
    }
    i
}

/// Counts the `-` characters that open `prefix_text`.
pub fn dash_prefix_len(prefix_text: &str) -> (r: usize)
    ensures
        r == leading_dashes(prefix_text@),
{
    let chars = str_chars(prefix_text);
    let mut i: usize = 0;
    assert(chars@.skip(0) == chars@);
    while i < chars.len() && chars[i] == '-'
        invariant
            i <= chars.len(),
            chars@ == prefix_text@,
            forall|j: int| 0 <= j < i ==> chars@[j] == '-',
            leading_dashes(prefix_text@) == i + leading_dashes(chars@.skip(i as int)),
        decreases chars.len() - i,
    {
        assert(chars@.skip(i as int).drop_first() == chars@.skip(i + 1));
        i = i + 1;
    }
    i
}

/// Characters that `trim_end_owned` removes from the end of a comment.
pub open spec fn is_trailing_blank(c: char) -> bool {
    c == ' ' || c == '\t' || c == '\r' || c == '\n'
}

/// The length of `s` once trailing blanks are dropped.
pub open spec fn trimmed_end_len(s: Seq<char>) -> nat
    decreases s.len(),
{
    if s.len() > 0 && is_trailing_blank(s.last()) {
        trimmed_end_len(s.drop_last())
    } else {
        s.len()
    }
}

pub proof fn lemma_trimmed_end_len(s: Seq<char>)
    ensures
        trimmed_end_len(s) <= s.len(),
        trimmed_end_len(s) > 0 ==> !is_trailing_blank(s[trimmed_end_len(s) - 1]),
        forall|j: int| trimmed_end_len(s) <= j < s.len() ==> is_trailing_blank(#[trigger] s[j]),
    decreases s.len(),
{
    if s.len() > 0 && is_trailing_blank(s.last()) {
        lemma_trimmed_end_len(s.drop_last());
        assert forall|j: int| trimmed_end_len(s) <= j < s.len() implies is_trailing_blank(
            #[trigger] s[j],
        ) by {
            if j < s.len() - 1 {
                assert(s.drop_last()[j] == s[j]);
            }
        }
    }
}

/// Drops the spaces, tabs and line breaks at the end of `text`.
pub fn trim_end_owned(text: Vec<char>) -> (r: Vec<char>)
    ensures
        r@ == text@.take(trimmed_end_len(text@) as int),
{
    let mut text = text;
    let ghost orig = text@;
    proof {
        lemma_trimmed_end_len(orig);
    }
    while text.len() > 0 && (text[text.len() - 1] == ' ' || text[text.len() - 1] == '\t'
        || text[text.len() - 1] == '\r' || text[text.len() - 1] == '\n')
        invariant
            trimmed_end_len(text@) == trimmed_end_len(orig),
            text@ == orig.take(text@.len() as int),
            text@.len() <= orig.len(),
        decreases text.len(),
    {
        assert(text@.drop_last() == orig.take(text@.len() - 1));
        text.pop();
    }
    assert(trimmed_end_len(text@) == text@.len());
    text
}


/// The end of the run of non-white-space characters that starts at `i`.
pub open spec fn word_end(s: Seq<char>, i: int) -> int
    decreases s.len() - i,
{
    if 0 <= i < s.len() && !is_space_char(s[i]) {
        word_end(s, i + 1)
    } else {
        i
    }
}

proof fn lemma_word_end_bounds(s: Seq<char>, i: int)
    requires
        0 <= i <= s.len(),
    ensures
        i <= word_end(s, i) <= s.len(),
        forall|k: int| i <= k < word_end(s, i) ==> !is_space_char(#[trigger] s[k]),
    decreases s.len() - i,
{
    if i < s.len() && !is_space_char(s[i]) {
        lemma_word_end_bounds(s, i + 1);
    }
}

/// The white-space separated words of `s` from `pos` on (what `str::split_whitespace` yields).
pub open spec fn words_from(s: Seq<char>, pos: int) -> Seq<Seq<char>>
    decreases s.len() - pos,
{
    if pos < 0 || pos >= s.len() {
        Seq::empty()
    } else {
        let i = skip_spaces_from(s, pos);
        let j = word_end(s, i);
        if i >= s.len() || j <= pos || j > s.len() {
            Seq::empty()
        } else {
            seq![s.subrange(i, j)] + words_from(s, j)
        }
    }
}

/// The white-space separated words of `s`.
pub open spec fn words(s: Seq<char>) -> Seq<Seq<char>> {
    words_from(s, 0)
}

/// The views of a list of character vectors.
pub open spec fn char_views(v: Seq<Vec<char>>) -> Seq<Seq<char>> {
    v.map_values(|w: Vec<char>| w@)
}

/// The characters of `s` from `i` up to `j`.
pub fn slice_chars(s: &[char], i: usize, j: usize) -> (r: Vec<char>)
    requires
        i <= j <= s.len(),
    ensures
        r@ == s@.subrange(i as int, j as int),
{
    let mut r: Vec<char> = Vec::new();
    let mut k = i;
    while k < j
        invariant
            i <= k <= j <= s.len(),
            r@ == s@.subrange(i as int, k as int),
        decreases j - k,
    {
        r.push(s[k]);
        k = k + 1;
    }
    r
}

/// The white-space separated words of `s`.
pub fn split_whitespace(s: &[char]) -> (r: Vec<Vec<char>>)
    ensures
        char_views(r@) == words(s@),
{
    let mut out: Vec<Vec<char>> = Vec::new();
    let mut pos: usize = 0;
    while pos < s.len()
        invariant
            pos <= s.len(),
            char_views(out@) + words_from(s@, pos as int) == words(s@),
        decreases s.len() - pos,
    {
        let i = skip_spaces(s, pos);
        proof {
            lemma_skip_spaces_bounds(s@, pos as int);
        }
        if i >= s.len() {
            assert(words_from(s@, pos as int) == Seq::<Seq<char>>::empty());
            assert(words_from(s@, s.len() as int) == Seq::<Seq<char>>::empty());
            pos = s.len();
            continue;
        }
        proof {
            lemma_word_end_bounds(s@, i as int);
        }
        let mut j = i;
        while j < s.len() && !char_is_space(s[j])
            invariant
                i <= j <= s.len(),
                word_end(s@, j as int) == word_end(s@, i as int),
            decreases s.len() - j,
        {
            j = j + 1;
        }
        assert(!is_space_char(s@[i as int]));
        assert(j > i);
        let w = slice_chars(s, i, j);
        let ghost before = out@;
        out.push(w);
        assert(char_views(out@) =~= char_views(before).push(s@.subrange(i as int, j as int)));
        pos = j;
    }
    assert(words_from(s@, pos as int) == Seq::<Seq<char>>::empty());
    assert(char_views(out@) =~= words(s@));
    out
}

/// Words joined by single spaces.
pub open spec fn join_words(ws: Seq<Seq<char>>) -> Seq<char>
    decreases ws.len(),
{
    if ws.len() == 0 {
        Seq::empty()
    } else if ws.len() == 1 {
        ws[0]
    } else {
        join_words(ws.drop_last()) + seq![' '] + ws.last()
    }
}

/// Appends the characters of `w` to `out`.
pub fn push_all(out: &mut Vec<char>, w: &[char])
    ensures
        final(out)@ == old(out)@ + w@,
{
    let mut k: usize = 0;
    while k < w.len()
        invariant
            k <= w.len(),
            out@ == old(out)@ + w@.take(k as int),
        decreases w.len() - k,
    {
        out.push(w[k]);
        k = k + 1;
        assert(out@ =~= old(out)@ + w@.take(k as int));
    }
    assert(w@.take(k as int) =~= w@);
}

/// The words of `ws` from `from` on, joined by single spaces.
pub fn join_space(ws: &[Vec<char>], from: usize) -> (r: Vec<char>)
    requires
        from <= ws.len(),
    ensures
        r@ == join_words(char_views(ws@.skip(from as int))),
{
    let mut out: Vec<char> = Vec::new();
    let mut k = from;
    assert(ws@.skip(from as int).take(0) =~= Seq::<Vec<char>>::empty());
    while k < ws.len()
        invariant
            from <= k <= ws.len(),
            out@ == join_words(char_views(ws@.skip(from as int).take(k - from))),
        decreases ws.len() - k,
    {
        let ghost prefix = ws@.skip(from as int).take(k - from + 1);
        assert(char_views(prefix).drop_last() =~= char_views(ws@.skip(from as int).take(k - from)));
        assert(char_views(prefix).last() == ws@[k as int]@);
        if k > from {
            out.push(' ');
        }
        push_all(&mut out, ws[k].as_slice());
        k = k + 1;
    }
    assert(ws@.skip(from as int).take(k - from) =~= ws@.skip(from as int));
    out
}

/// `s` with its white-space runs collapsed to single spaces and its ends trimmed.
pub fn collapse_spaces(s: &[char]) -> (r: Vec<char>)
    ensures
        r@ == join_words(words(s@)),
{
    let ws = split_whitespace(s);
    let r = join_space(ws.as_slice(), 0);
    assert(ws@.skip(0) =~= ws@);
    r
}

/// `p` is a prefix of `s`.
pub open spec fn has_prefix(s: Seq<char>, p: Seq<char>) -> bool {
    p.len() <= s.len() && s.take(p.len() as int) == p
}

/// Whether `s` starts with the characters of `p`.
pub fn starts_with(s: &[char], p: &str) -> (r: bool)
    ensures
        r == has_prefix(s@, p@),
{
    let pc = str_chars(p);
    if pc.len() > s.len() {
        return false;
    }
    let mut k: usize = 0;
    while k < pc.len()
        invariant
            k <= pc.len() <= s.len(),
            pc@ == p@,
            forall|j: int| 0 <= j < k ==> s@[j] == pc@[j],
        decreases pc.len() - k,
    {
        if s[k] != pc[k] {
            assert(s@.take(pc.len() as int)[k as int] != p@[k as int]);
            return false;
        }
        k = k + 1;
    }
    assert(s@.take(pc.len() as int) =~= p@);
    true
}

/// Whether `s` holds exactly the characters of `p`.
pub fn eq_str(s: &[char], p: &str) -> (r: bool)
    ensures
        r == (s@ == p@),
{
    let pc = str_chars(p);
    if pc.len() != s.len() {
        return false;
    }
    let ok = starts_with(s, p);
    assert(s@ =~= s@.take(pc.len() as int));
    ok
}

/// The characters of `s` after the prefix `p`, when `s` starts with it.
pub fn strip_prefix(s: &[char], p: &str) -> (r: Option<Vec<char>>)
    ensures
        match r {
            Some(rest) => has_prefix(s@, p@) && rest@ == s@.skip(p@.len() as int),
            None => !has_prefix(s@, p@),
        },
{
    if starts_with(s, p) {
        let n = str_chars(p).len();
        Some(slice_chars(s, n, s.len()))
    } else {
        None
    }
}

/// `s` without its leading white space.
pub fn trim_start(s: &[char]) -> (r: Vec<char>)
    ensures
        r@ == trim_start_chars(s@),
{
    let i = skip_spaces(s, 0);
    slice_chars(s, i, s.len())
}

/// The length of `s` once its trailing white space is dropped.
pub open spec fn trim_end_len(s: Seq<char>) -> nat
    decreases s.len(),
{
    if s.len() > 0 && is_space_char(s.last()) {
        trim_end_len(s.drop_last())
    } else {
        s.len()
    }
}

proof fn lemma_trim_end_len(s: Seq<char>)
    ensures
        trim_end_len(s) <= s.len(),
    decreases s.len(),
{
    if s.len() > 0 && is_space_char(s.last()) {
        lemma_trim_end_len(s.drop_last());
    }
}

/// `s` without its trailing white space (what `str::trim_end` keeps).
pub open spec fn trim_end_chars(s: Seq<char>) -> Seq<char> {
    s.take(trim_end_len(s) as int)
}

/// `s` without its trailing white space.
pub fn trim_end(s: &[char]) -> (r: Vec<char>)
    ensures
        r@ == trim_end_chars(s@),
{
    let mut n = s.len();
    proof {
        lemma_trim_end_len(s@);
    }
    assert(s@.take(n as int) =~= s@);
    while n > 0 && char_is_space(s[n - 1])
        invariant
            n <= s.len(),
            trim_end_len(s@.take(n as int)) == trim_end_len(s@),
        decreases n,
    {
        assert(s@.take(n as int).drop_last() =~= s@.take(n - 1));
        n = n - 1;
    }
    assert(trim_end_len(s@.take(n as int)) == n);
    slice_chars(s, 0, n)
}

/// `s` without white space at either end (what `str::trim` keeps).
pub fn trim(s: &[char]) -> (r: Vec<char>)
    ensures
        r@ == trim_end_chars(trim_start_chars(s@)),
{
    let t = trim_start(s);
    trim_end(t.as_slice())
}

/// The number of bytes that `c` takes in UTF-8.
pub open spec fn utf8_len(c: char) -> nat {
    if (c as u32) < 0x80 {
        1
    } else if (c as u32) < 0x800 {
        2
    } else if (c as u32) < 0x10000 {
        3
    } else {
        4
    }
}

/// The number of bytes that `s` takes in UTF-8 (what `str::len` counts).
pub open spec fn byte_len(s: Seq<char>) -> nat
    decreases s.len(),
{
    if s.len() == 0 {
        0
    } else {
        byte_len(s.drop_last()) + utf8_len(s.last())
    }
}

/// The number of bytes that `s` takes in UTF-8, at most the largest `usize`.
pub open spec fn byte_len_usize(s: Seq<char>) -> usize {
    if byte_len(s) <= usize::MAX {
        byte_len(s) as usize
    } else {
        usize::MAX
    }
}

/// The number of bytes that `s` takes in UTF-8, saturating at the largest `usize`.
pub fn utf8_byte_len(s: &[char]) -> (r: usize)
    ensures
        byte_len(s@) <= usize::MAX ==> r == byte_len(s@),
        r == byte_len_usize(s@),
{
    let mut total: usize = 0;
    let mut k: usize = 0;
    while k < s.len()
        invariant
            k <= s.len(),
            byte_len(s@.take(k as int)) <= usize::MAX ==> total == byte_len(s@.take(k as int)),
            byte_len(s@.take(k as int)) > usize::MAX ==> total == usize::MAX,
        decreases s.len() - k,
    {
        assert(s@.take(k + 1).drop_last() =~= s@.take(k as int));
        let c = s[k];
        let n: usize = if (c as u32) < 0x80 {
            1
        } else if (c as u32) < 0x800 {
            2
        } else if (c as u32) < 0x10000 {
            3
        } else {
            4
        };
        total = total.saturating_add(n);
        k = k + 1;
    }
    assert(s@.take(k as int) =~= s@);
    total
}

/// The end of the line that starts at `pos`: the index of the next `\n`, or the length.
pub open spec fn line_end(s: Seq<char>, pos: int) -> int
    decreases s.len() - pos,
{
    if 0 <= pos < s.len() && s[pos] != '\n' {
        line_end(s, pos + 1)
    } else {
        pos
    }
}

/// A line without the `\r` that ended it.
pub open spec fn strip_cr(l: Seq<char>) -> Seq<char> {
    if l.len() > 0 && l.last() == '\r' {
        l.drop_last()
    } else {
        l
    }
}

/// The lines of `s` from `pos` on (what `str::lines` yields): split at `\n`, a final `\r`
/// dropped from each, and no empty line after a final `\n`.
pub open spec fn lines_from(s: Seq<char>, pos: int) -> Seq<Seq<char>>
    decreases s.len() - pos,
{
    if pos < 0 || pos >= s.len() {
        Seq::empty()
    } else {
        let e = line_end(s, pos);
        if e < pos {
            Seq::empty()
        } else if e < s.len() {
            seq![strip_cr(s.subrange(pos, e))] + lines_from(s, e + 1)
        } else {
            seq![strip_cr(s.subrange(pos, e))]
        }
    }
}

/// The lines of `s`.
pub open spec fn lines_of(s: Seq<char>) -> Seq<Seq<char>> {
    lines_from(s, 0)
}

proof fn lemma_line_end_bounds(s: Seq<char>, pos: int)
    requires
        0 <= pos <= s.len(),
    ensures
        pos <= line_end(s, pos) <= s.len(),
    decreases s.len() - pos,
{
    if pos < s.len() && s[pos] != '\n' {
        lemma_line_end_bounds(s, pos + 1);
    }
}

/// The lines of `s`.
pub fn split_lines(s: &[char]) -> (r: Vec<Vec<char>>)
    ensures
        char_views(r@) == lines_of(s@),
{
    let mut out: Vec<Vec<char>> = Vec::new();
    let mut pos: usize = 0;
    while pos < s.len()
        invariant
            pos <= s.len(),
            char_views(out@) + lines_from(s@, pos as int) == lines_of(s@),
        decreases s.len() - pos,
    {
        proof {
            lemma_line_end_bounds(s@, pos as int);
        }
        let mut e = pos;
        while e < s.len() && s[e] != '\n'
            invariant
                pos <= e <= s.len(),
                line_end(s@, e as int) == line_end(s@, pos as int),
            decreases s.len() - e,
        {
            e = e + 1;
        }
        let mut line = slice_chars(s, pos, e);
        if line.len() > 0 && line[line.len() - 1] == '\r' {
            line.pop();
        }
        let ghost before = out@;
        out.push(line);
        assert(char_views(out@) =~= char_views(before).push(strip_cr(s@.subrange(pos as int, e as int))));
        if e >= s.len() {
            pos = s.len();
        } else {
            pos = e + 1;
        }
    }
    assert(lines_from(s@, pos as int) == Seq::<Seq<char>>::empty());
    assert(char_views(out@) =~= lines_of(s@));
    out
}


/// `s` without its trailing spaces, tabs and line breaks.
pub open spec fn trimmed(s: Seq<char>) -> Seq<char> {
    s.take(trimmed_end_len(s) as int)
}

/// `seg` stands in `out` as a run of consecutive characters, and does not end in a space or a
/// tab (so trimming the end of `out` cannot cut into it).
pub open spec fn shown(seg: Seq<char>, out: Seq<char>) -> bool {
    &&& (seg.len() == 0 || !(seg.last() == ' ' || seg.last() == '\t'))
    &&& exists|off: int|
        0 <= off && off + seg.len() <= out.len() && #[trigger] out.subrange(off, off + seg.len()) == seg
}

/// `s1` and `s2` stand in `out`, `s1` wholly before `s2`; neither is empty or ends in a space
/// or a tab.
pub open spec fn shown_before(s1: Seq<char>, s2: Seq<char>, out: Seq<char>) -> bool {
    &&& s1.len() > 0 && !(s1.last() == ' ' || s1.last() == '\t')
    &&& s2.len() > 0 && !(s2.last() == ' ' || s2.last() == '\t')
    &&& exists|o1: int, o2: int|
        #![trigger out.subrange(o1, o1 + s1.len()), out.subrange(o2, o2 + s2.len())]
        0 <= o1 && o1 + s1.len() <= o2 && o2 + s2.len() <= out.len() && out.subrange(o1, o1 + s1.len()) == s1
            && out.subrange(o2, o2 + s2.len()) == s2
}

/// Every run shown in `a` is shown in `b`, and every two runs shown one before the other in `a`
/// stand so in `b`.
pub open spec fn keeps_shown(a: Seq<char>, b: Seq<char>) -> bool {
    &&& forall|seg: Seq<char>| shown(seg, a) ==> #[trigger] shown(seg, b)
    &&& forall|s1: Seq<char>, s2: Seq<char>| shown_before(s1, s2, a) ==> #[trigger] shown_before(s1, s2, b)
}

/// `b` keeps `a` up to a point after which `a` held only spaces and tabs.
pub open spec fn keeps_prefix(a: Seq<char>, b: Seq<char>, k: int) -> bool {
    &&& 0 <= k <= a.len()
    &&& k <= b.len()
    &&& b.take(k) == a.take(k)
    &&& forall|i: int| k <= i < a.len() ==> (a[i] == ' ' || a[i] == '\t')
}

/// What keeps a prefix keeps every run shown before.
pub proof fn lemma_keeps_prefix_shown(a: Seq<char>, b: Seq<char>, k: int)
    requires
        keeps_prefix(a, b, k),
    ensures
        keeps_shown(a, b),
{
    assert forall|seg: Seq<char>| shown(seg, a) implies #[trigger] shown(seg, b) by {
        let off = choose|off: int|
            0 <= off && off + seg.len() <= a.len() && #[trigger] a.subrange(off, off + seg.len()) == seg;
        if seg.len() == 0 {
            assert(b.subrange(0, 0int + seg.len()) =~= seg);
            assert(0 <= 0int && 0int + seg.len() <= b.len() && b.subrange(0, 0int + seg.len()) == seg);
        } else {
            let last = off + seg.len() - 1;
            assert(a.subrange(off, off + seg.len())[seg.len() - 1] == a[last]);
            assert(last < k);
            assert forall|i: int| 0 <= i < seg.len() implies b.subrange(off, off + seg.len())[i] == seg[i] by {
                assert(b.take(k)[off + i] == a.take(k)[off + i]);
                assert(a.subrange(off, off + seg.len())[i] == a[off + i]);
            }
            assert(b.subrange(off, off + seg.len()) =~= seg);
            assert(0 <= off && off + seg.len() <= b.len() && b.subrange(off, off + seg.len()) == seg);
        }
    }
    assert forall|s1: Seq<char>, s2: Seq<char>| shown_before(s1, s2, a) implies #[trigger] shown_before(s1, s2, b) by {
        let (o1, o2) = choose|o1: int, o2: int|
            #![trigger a.subrange(o1, o1 + s1.len()), a.subrange(o2, o2 + s2.len())]
            0 <= o1 && o1 + s1.len() <= o2 && o2 + s2.len() <= a.len() && a.subrange(o1, o1 + s1.len()) == s1
                && a.subrange(o2, o2 + s2.len()) == s2;
        lemma_prefix_run(a, b, k, o2, s2);
        lemma_prefix_run(a, b, k, o1, s1);
        assert(b.subrange(o1, o1 + s1.len()) == s1 && b.subrange(o2, o2 + s2.len()) == s2);
    }
}

/// A run of `a` that does not end in a space or a tab stands at the same place in `b`, which
/// keeps `a` up to a point after which `a` held only spaces and tabs.
proof fn lemma_prefix_run(a: Seq<char>, b: Seq<char>, k: int, off: int, seg: Seq<char>)
    requires
        keeps_prefix(a, b, k),
        0 <= off,
        off + seg.len() <= a.len(),
        a.subrange(off, off + seg.len()) == seg,
        seg.len() > 0,
        !(seg.last() == ' ' || seg.last() == '\t'),
    ensures
        off + seg.len() <= b.len(),
        b.subrange(off, off + seg.len()) == seg,
{
    {
        let last = off + seg.len() - 1;
        assert(a.subrange(off, off + seg.len())[seg.len() - 1] == a[last]);
        assert(last < k);
        assert forall|i: int| 0 <= i < seg.len() implies b.subrange(off, off + seg.len())[i] == seg[i] by {
            assert(b.take(k)[off + i] == a.take(k)[off + i]);
            assert(a.subrange(off, off + seg.len())[i] == a[off + i]);
        }
        assert(b.subrange(off, off + seg.len()) =~= seg);
    }
}

/// Appending keeps every run shown before.
pub proof fn lemma_append_keeps_shown(a: Seq<char>, extra: Seq<char>)
    ensures
        keeps_shown(a, a + extra),
{
    assert((a + extra).take(a.len() as int) =~= a.take(a.len() as int));
    lemma_keeps_prefix_shown(a, a + extra, a.len() as int);
}

/// What is appended last is shown when it does not end in a space or a tab.
pub proof fn lemma_appended_shown(a: Seq<char>, seg: Seq<char>)
    requires
        seg.len() == 0 || !(seg.last() == ' ' || seg.last() == '\t'),
    ensures
        shown(seg, a + seg),
{
    assert((a + seg).subrange(a.len() as int, a.len() + seg.len() as int) =~= seg);
}

/// A run shown in a run shown in `out` is shown in `out`.
pub proof fn lemma_shown_trans(s1: Seq<char>, s2: Seq<char>, out: Seq<char>)
    requires
        shown(s1, s2),
        shown(s2, out),
    ensures
        shown(s1, out),
{
    let o1 = choose|off: int|
        0 <= off && off + s1.len() <= s2.len() && #[trigger] s2.subrange(off, off + s1.len()) == s1;
    let o2 = choose|off: int|
        0 <= off && off + s2.len() <= out.len() && #[trigger] out.subrange(off, off + s2.len()) == s2;
    assert forall|i: int| 0 <= i < s1.len() implies out.subrange(o1 + o2, o1 + o2 + s1.len())[i] == s1[i] by {
        assert(s2.subrange(o1, o1 + s1.len())[i] == s2[o1 + i]);
        assert(out.subrange(o2, o2 + s2.len())[o1 + i] == out[o2 + o1 + i]);
    }
    assert(out.subrange(o1 + o2, o1 + o2 + s1.len()) =~= s1);
}

/// A part of a text, trimmed, is shown in the whole text, trimmed.
pub proof fn lemma_trimmed_part_shown(t: Seq<char>, a: int, b: int, c: int, d: int)
    requires
        0 <= c <= a <= b <= d <= t.len(),
    ensures
        shown(trimmed(t.subrange(a, b)), trimmed(t.subrange(c, d))),
{
    let x = t.subrange(a, b);
    let y = t.subrange(c, d);
    lemma_trimmed_end_len(x);
    lemma_trimmed_end_len(y);
    let lx = trimmed_end_len(x) as int;
    let ly = trimmed_end_len(y) as int;
    let tx = trimmed(x);
    let ty = trimmed(y);
    if lx == 0 {
        assert(ty.subrange(0, 0int + tx.len()) =~= tx);
        assert(0 <= 0int && 0int + tx.len() <= ty.len() && ty.subrange(0, 0int + tx.len()) == tx);
    } else {
        assert(x[lx - 1] == y[a - c + lx - 1]);
        assert(a - c + lx <= ly);
        assert forall|i: int| 0 <= i < lx implies trimmed(y).subrange(a - c, a - c + lx)[i] == trimmed(x)[i] by {
            assert(x[i] == y[a - c + i]);
        }
        assert(trimmed(y).subrange(a - c, a - c + lx) =~= trimmed(x));
        assert(trimmed(x).last() == x[lx - 1]);
        let w = a - c;
        assert(0 <= w && w + tx.len() <= ty.len() && ty.subrange(w, w + tx.len()) == tx);
    }
}

/// A text trimmed does not end in a space or a tab.
pub proof fn lemma_trimmed_ends_solid(s: Seq<char>)
    ensures
        trimmed(s).len() == 0 || !(trimmed(s).last() == ' ' || trimmed(s).last() == '\t'),
{
    lemma_trimmed_end_len(s);
}


/// A text that does not start with white space is its own start-trimmed text.
pub proof fn lemma_trim_start_solid(s: Seq<char>)
    requires
        s.len() == 0 || !is_space_char(s[0]),
    ensures
        trim_start_chars(s) == s,
{
    assert(skip_spaces_from(s, 0) == 0);
    assert(s.subrange(0, s.len() as int) =~= s);
}

/// Trimming the start twice trims no more than once.
pub proof fn lemma_trim_start_idempotent(s: Seq<char>)
    ensures
        trim_start_chars(trim_start_chars(s)) == trim_start_chars(s),
{
    lemma_skip_spaces_bounds(s, 0);
    let t = trim_start_chars(s);
    if t.len() > 0 {
        assert(t[0] == s[skip_spaces_from(s, 0)]);
    }
    lemma_trim_start_solid(t);
}

/// White space before a text is dropped by trimming its start.
pub proof fn lemma_trim_start_after_space(c: char, s: Seq<char>)
    requires
        is_space_char(c),
    ensures
        trim_start_chars(seq![c] + s) == trim_start_chars(s),
{
    let x = seq![c] + s;
    assert(x.len() > 0 && is_space_char(x[0]));
    assert(skip_spaces_from(x, 0) == skip_spaces_from(x, 1));
    lemma_skip_from_shift(s, c, 0);
    lemma_skip_spaces_bounds(s, 0);
    assert(x.subrange(skip_spaces_from(x, 0), x.len() as int) =~= s.subrange(
        skip_spaces_from(s, 0),
        s.len() as int,
    ));
}

proof fn lemma_skip_from_shift(s: Seq<char>, c: char, from: int)
    requires
        0 <= from <= s.len(),
    ensures
        skip_spaces_from(seq![c] + s, from + 1) == skip_spaces_from(s, from) + 1,
    decreases s.len() - from,
{
    let x = seq![c] + s;
    if from < s.len() {
        assert(x[from + 1] == s[from]);
        if is_space_char(s[from]) {
            lemma_skip_from_shift(s, c, from + 1);
        }
    }
}

} // verus!
