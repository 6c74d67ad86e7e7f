//! Normalizing comments line by line: the prefix of each line, the gap after it, and for
//! EmmyLua doc blocks the column alignment of tag lines.

use vstd::prelude::*;

use crate::text::{
    byte_len, char_is_space, char_views, collapse_spaces, eq_str, has_prefix, is_space_char,
    join_space, join_words, leading_dashes, lemma_skip_spaces_bounds, lemma_trim_start_after_space,
    lemma_trim_start_idempotent, lemma_trim_start_solid, lines_of, push_all, skip_spaces_from,
    slice_chars, split_lines, split_whitespace, starts_with, strip_prefix, trim, trim_end,
    trim_end_chars, trim_end_len, trim_start, trim_start_chars, utf8_byte_len, words,
};
use crate::kinds::{
    TK_DOC_CONTINUE, TK_DOC_CONTINUE_OR, TK_DOC_LONG_START, TK_DOC_START, TK_DOC_VISIBILITY,
    TK_END_OF_LINE, TK_LEFT_BRACKET, TK_LONG_COMMENT_START, TK_NORMAL_START, TK_TAG_ALIAS, TK_TAG_CLASS, TK_TAG_FIELD,
    TK_TAG_GENERIC, TK_TAG_OVERLOAD, TK_TAG_PARAM, TK_TAG_RETURN, TK_TAG_TYPE, TK_TAG_VERSION,
    TK_TAG_VISIBILITY, TK_WHITESPACE,
};
use crate::model::{RootFormatPlan, RootSpacingModel, TokenSpacingExpected};
use crate::syntax::SyntaxTree;
use crate::FormatContext;
use crate::config::{EmmyDocConfig, LuaFormatConfig};

verus! {

/// The opening token of a doc comment line.
#[derive(Clone, Copy, Debug, PartialEq, Eq, Structural)]
pub enum DocLinePrefixKind {
    Start,
    Continue,
    ContinueOr,
    Unknown,
}

/// A description line: plain text, or a `---|` continuation with its marker.
pub enum DocDescriptionKind {
    Plain,
    ContinueOr(Vec<char>),
}

/// A description line of a doc block.
pub struct DocDescriptionLine {
    pub kind: DocDescriptionKind,
    pub content: Vec<char>,
    pub preserve_spacing: bool,
    pub gap_after_dash: Option<Vec<char>>,
    pub columns: Vec<Vec<char>>,
    pub align_key: Option<Vec<char>>,
}

/// A tag line of a doc block, split in columns.
pub struct DocTagLine {
    pub tag: Vec<char>,
    pub raw_rest: Vec<char>,
    pub columns: Vec<Vec<char>>,
    pub align_key: Option<Vec<char>>,
    pub preserve_body_spacing: bool,
    pub gap_after_dash: Option<Vec<char>>,
}

/// A line of a doc block.
pub enum DocBlockLine {
    Description(DocDescriptionLine),
    Tag(DocTagLine),
}

/// The columns of a tag line as the syntax tree gives them.
pub struct StructuredDocTagColumns {
    pub tag: Vec<char>,
    pub head_columns: Vec<Vec<char>>,
    pub description: Option<Vec<char>>,
    pub use_normalized_head_as_single_column: bool,
}

/// What is known of one line of a doc block before it is parsed.
pub struct DocBlockLineInput {
    pub raw_line: Vec<char>,
    pub normalized_line: Option<Vec<char>>,
    pub structured_tag: Option<StructuredDocTagColumns>,
    pub prefix_kind: DocLinePrefixKind,
}

/// A copy of `v`.
pub fn dup(v: &Vec<char>) -> (r: Vec<char>)
    ensures
        r@ == v@,
{
    slice_chars(v.as_slice(), 0, v.len())
}

/// A copy of an optional text.
fn dup_opt(v: &Option<Vec<char>>) -> (r: Option<Vec<char>>)
    ensures
        match (r, *v) {
            (Some(a), Some(b)) => a@ == b@,
            (None, None) => true,
            _ => false,
        },
{
    match v {
        Some(x) => Some(dup(x)),
        None => None,
    }
}

/// A copy of a list of texts.
fn dup_list(v: &Vec<Vec<char>>) -> (r: Vec<Vec<char>>)
    ensures
        char_views(r@) == char_views(v@),
{
    let mut out: Vec<Vec<char>> = Vec::new();
    let mut i: usize = 0;
    while i < v.len()
        invariant
            i <= v.len(),
            char_views(out@) == char_views(v@).take(i as int),
        decreases v.len() - i,
    {
        let ghost before = out@;
        out.push(dup(&v[i]));
        assert(char_views(out@) =~= char_views(v@).take(i + 1)) by {
            assert(char_views(out@) =~= char_views(before).push(v@[i as int]@));
        }
        i = i + 1;
    }
    assert(char_views(v@).take(i as int) =~= char_views(v@));
    out
}

/// A text holding the characters of `s`.
pub fn chars_of(s: &str) -> (r: Vec<char>)
    ensures
        r@ == s@,
{
    crate::text::str_chars(s)
}

/// The characters of `a` followed by those of `b`.
pub fn concat(a: &[char], b: &[char]) -> (r: Vec<char>)
    ensures
        r@ == a@ + b@,
{
    let mut r = slice_chars(a, 0, a.len());
    assert(a@.subrange(0, a@.len() as int) =~= a@);
    push_all(&mut r, b);
    r
}

/// The count of spaces and tabs that open `s`.
pub open spec fn gap_len(s: Seq<char>) -> nat
    decreases s.len(),
{
    if s.len() > 0 && (s[0] == ' ' || s[0] == '\t') {
        1 + gap_len(s.drop_first())
    } else {
        0
    }
}

/// The spaces and tabs after a comment's dashes, when there are more than one of them.
fn preserved_dash_gap(text_after_dash: &[char]) -> (r: Option<Vec<char>>)
    ensures
        match r {
            Some(g) => gap_len(text_after_dash@) > 1 && g@ == text_after_dash@.take(
                gap_len(text_after_dash@) as int,
            ),
            None => gap_len(text_after_dash@) <= 1,
        },
{
    let mut n: usize = 0;
    assert(text_after_dash@.skip(0) =~= text_after_dash@);
    while n < text_after_dash.len() && (text_after_dash[n] == ' ' || text_after_dash[n] == '\t')
        invariant
            n <= text_after_dash.len(),
            gap_len(text_after_dash@) == n + gap_len(text_after_dash@.skip(n as int)),
        decreases text_after_dash.len() - n,
    {
        assert(text_after_dash@.skip(n as int).drop_first() =~= text_after_dash@.skip(n + 1));
        n = n + 1;
    }
    if n > 1 {
        Some(slice_chars(text_after_dash, 0, n))
    } else {
        None
    }
}

/// Drops one space or tab after a comment's dashes.
fn strip_single_comment_gap(text_after_dash: &[char]) -> (r: Vec<char>)
    ensures
        r@ == if text_after_dash@.len() > 0 && (text_after_dash@[0] == ' '
            || text_after_dash@[0] == '\t') {
            text_after_dash@.drop_first()
        } else {
            text_after_dash@
        },
{
    if text_after_dash.len() > 0 && (text_after_dash[0] == ' ' || text_after_dash[0] == '\t') {
        let r = slice_chars(text_after_dash, 1, text_after_dash.len());
        assert(r@ =~= text_after_dash@.drop_first());
        r
    } else {
        let r = slice_chars(text_after_dash, 0, text_after_dash.len());
        assert(r@ =~= text_after_dash@);
        r
    }
}

/// `t` without the prefix `p` when it starts with it.
pub open spec fn cut(t: Seq<char>, p: Seq<char>) -> Option<Seq<char>> {
    if has_prefix(t, p) {
        Some(t.skip(p.len() as int))
    } else {
        None
    }
}

/// `t` without the first of the prefixes `a`, `b` that it starts with.
pub open spec fn cut_first2(t: Seq<char>, a: Seq<char>, b: Seq<char>) -> Seq<char> {
    match cut(t, a) {
        Some(r) => r,
        None => match cut(t, b) {
            Some(r) => r,
            None => t,
        },
    }
}

/// `t` without the continuation marker `|+`, `|>` or `|` that opens it, if any.
pub open spec fn cut_marker(t: Seq<char>) -> Option<Seq<char>> {
    match cut(t, "|+"@) {
        Some(r) => Some(r),
        None => match cut(t, "|>"@) {
            Some(r) => Some(r),
            None => cut(t, "|"@),
        },
    }
}

/// A doc line's text after its indentation, without its doc prefix: `---@` or `---` for a
/// line opened by a doc start, `---|+`, `---|>`, `---|` or `---` for a continuation, `---`
/// otherwise.
pub open spec fn doc_line_body(t: Seq<char>, kind: DocLinePrefixKind) -> Seq<char> {
    match kind {
        DocLinePrefixKind::Start => cut_first2(t, "---@"@, "---"@),
        DocLinePrefixKind::ContinueOr => match cut(t, "---|+"@) {
            Some(r) => r,
            None => match cut(t, "---|>"@) {
                Some(r) => r,
                None => cut_first2(t, "---|"@, "---"@),
            },
        },
        _ => cut_first2(t, "---"@, "---"@),
    }
}

/// The line without its doc prefix (`---@`, `---`, `---|` and its variants), after the
/// indentation.
fn strip_doc_line_prefix(line: &[char], prefix_kind: DocLinePrefixKind) -> (r: Vec<char>)
    ensures
        r@ == doc_line_body(trim_start_chars(line@), prefix_kind),
{
    let trimmed = trim_start(line);
    match prefix_kind {
        DocLinePrefixKind::Start => {
            if let Some(rest) = strip_prefix(trimmed.as_slice(), "---@") {
                rest
            } else if let Some(rest) = strip_prefix(trimmed.as_slice(), "---") {
                rest
            } else {
                trimmed
            }
        },
        DocLinePrefixKind::Continue | DocLinePrefixKind::Unknown => {
            if let Some(rest) = strip_prefix(trimmed.as_slice(), "---") {
                rest
            } else {
                trimmed
            }
        },
        DocLinePrefixKind::ContinueOr => {
            if let Some(rest) = strip_prefix(trimmed.as_slice(), "---|+") {
                rest
            } else if let Some(rest) = strip_prefix(trimmed.as_slice(), "---|>") {
                rest
            } else if let Some(rest) = strip_prefix(trimmed.as_slice(), "---|") {
                rest
            } else if let Some(rest) = strip_prefix(trimmed.as_slice(), "---") {
                rest
            } else {
                trimmed
            }
        },
    }
}

/// A `---|` line, by its prefix token or by its content.
fn is_continue_or_doc_line(prefix_kind: DocLinePrefixKind, trimmed_content: &[char]) -> (r: bool)
    ensures
        r == (prefix_kind == DocLinePrefixKind::ContinueOr || (trimmed_content@.len() > 0
            && trimmed_content@[0] == '|')),
{
    prefix_kind == DocLinePrefixKind::ContinueOr || (trimmed_content.len() > 0
        && trimmed_content[0] == '|')
}

/// The continuation marker that opens `text`: `|+`, `|>` or `|`.
fn doc_continue_marker(text: &[char]) -> (r: Vec<char>)
    ensures
        r@ == if has_prefix(text@, "|+"@) {
            "|+"@
        } else if has_prefix(text@, "|>"@) {
            "|>"@
        } else {
            "|"@
        },
{
    if starts_with(text, "|+") {
        chars_of("|+")
    } else if starts_with(text, "|>") {
        chars_of("|>")
    } else {
        chars_of("|")
    }
}

/// `text` without its continuation marker, if it has one.
fn strip_doc_continue_marker(text: &[char]) -> (r: Option<Vec<char>>)
    ensures
        match r {
            Some(rest) => cut_marker(text@) == Some(rest@),
            None => cut_marker(text@) is None,
        },
{
    if let Some(rest) = strip_prefix(text, "|+") {
        Some(rest)
    } else if let Some(rest) = strip_prefix(text, "|>") {
        Some(rest)
    } else {
        strip_prefix(text, "|")
    }
}

/// The content of a continuation line, after its marker and the gap.
fn normalized_continue_line_content(text: &[char]) -> (r: Vec<char>)
    ensures
        r@ == trim_start_chars(
            match cut_marker(text@) {
                Some(rest) => rest,
                None => text@,
            },
        ),
{
    match strip_doc_continue_marker(text) {
        Some(rest) => trim_start(rest.as_slice()),
        None => trim_start(text),
    }
}

/// The prefix of a tag line from a replaced prefix token: `@` is added unless the prefix holds
/// one.
fn format_doc_tag_prefix_override(prefix: &[char], tag: &[char]) -> (r: Vec<char>)
    ensures
        r@ == prefix@ + (if prefix@.contains('@') {
            Seq::empty()
        } else {
            seq!['@']
        }) + cut_first2(tag@, "@"@, "@"@),
{
    let tag = match strip_prefix(tag, "@") {
        Some(t) => t,
        None => slice_chars(tag, 0, tag.len()),
    };
    let mut has_at = false;
    let mut i: usize = 0;
    while i < prefix.len()
        invariant
            i <= prefix.len(),
            has_at == exists|j: int| 0 <= j < i && prefix@[j] == '@',
        decreases prefix.len() - i,
    {
        if prefix[i] == '@' {
            has_at = true;
        }
        i = i + 1;
    }
    let mut r = slice_chars(prefix, 0, prefix.len());
    if !has_at {
        r.push('@');
    }
    push_all(&mut r, tag.as_slice());
    r
}

/// The normalized prefix of a continuation line: `--- ` or `---`, then the marker.
fn normalized_doc_continue_marker_prefix(ctx: &FormatContext, marker: &[char]) -> (r: Vec<char>)
    ensures
        r@ == (if ctx.config.emmy_doc.space_after_description_dash {
            "--- "@
        } else {
            "---"@
        }) + marker@,
{
    let mut r = if ctx.config.emmy_doc.space_after_description_dash {
        chars_of("--- ")
    } else {
        chars_of("---")
    };
    push_all(&mut r, marker);
    r
}

/// The first index of `c` in `s`.
fn find_char(s: &[char], c: char) -> (r: Option<usize>)
    ensures
        match r {
            Some(i) => i < s@.len() && s@[i as int] == c && forall|j: int| 0 <= j < i ==> s@[j] != c,
            None => forall|j: int| 0 <= j < s@.len() ==> s@[j] != c,
        },
{
    let mut i: usize = 0;
    while i < s.len()
        invariant
            i <= s.len(),
            forall|j: int| 0 <= j < i ==> s@[j] != c,
        decreases s.len() - i,
    {
        if s[i] == c {
            return Some(i);
        }
        i = i + 1;
    }
    None
}

/// ` #` stands at index `i` of `s`.
pub open spec fn space_hash_at(s: Seq<char>, i: int) -> bool {
    0 <= i && i + 1 < s.len() && s[i] == ' ' && s[i + 1] == '#'
}

/// The first index of the pair ` #` in `s`.
fn find_space_hash(s: &[char]) -> (r: Option<usize>)
    ensures
        match r {
            Some(i) => space_hash_at(s@, i as int) && forall|j: int| 0 <= j < i ==> !#[trigger] space_hash_at(s@, j),
            None => forall|j: int| !#[trigger] space_hash_at(s@, j),
        },
{
    let mut i: usize = 0;
    while i < s.len() && i + 1 < s.len()
        invariant
            i <= s.len(),
            forall|j: int| 0 <= j < i ==> !#[trigger] space_hash_at(s@, j),
        decreases s.len() - i,
    {
        if s[i] == ' ' && s[i + 1] == '#' {
            return Some(i);
        }
        i = i + 1;
    }
    None
}

/// The columns of the words `ws` from `index` on: the next `heads[h]` words joined, then the
/// next `heads[h + 1]`, and so on, the words left joined into a last column.
pub open spec fn columns_from(ws: Seq<Seq<char>>, index: int, heads: Seq<usize>, h: int) -> Seq<Seq<char>>
    decreases heads.len() - h,
{
    if h >= heads.len() || index >= ws.len() {
        if 0 <= index < ws.len() {
            seq![join_words(ws.subrange(index, ws.len() as int))]
        } else {
            Seq::empty()
        }
    } else {
        let end = if index + heads[h] < ws.len() {
            index + heads[h]
        } else {
            ws.len() as int
        };
        seq![join_words(ws.subrange(index, end))] + columns_from(ws, end, heads, h + 1)
    }
}

/// The words of `input`, the first `head_sizes[k]` of them joined into column `k` in turn, the
/// rest into a last column.
fn split_columns(input: &[char], head_sizes: &[usize]) -> (r: Vec<Vec<char>>)
    ensures
        char_views(r@) == columns_from(words(input@), 0, head_sizes@, 0),
{
    let tokens = split_whitespace(input);
    let ghost ws = words(input@);
    let mut columns: Vec<Vec<char>> = Vec::new();
    assert(char_views(tokens@).len() == tokens@.len());
    if tokens.len() == 0 {
        assert(char_views(columns@) =~= columns_from(ws, 0, head_sizes@, 0));
        return columns;
    }
    let mut index: usize = 0;
    let mut h: usize = 0;
    while h < head_sizes.len()
        invariant
            index <= tokens.len(),
            h <= head_sizes.len(),
            char_views(tokens@) == ws,
            ws.len() == tokens.len(),
            tokens.len() > 0,
            char_views(columns@) + columns_from(ws, index as int, head_sizes@, h as int) == columns_from(ws, 0, head_sizes@, 0),
        ensures
            index <= tokens.len(),
            ws.len() == tokens.len(),
            char_views(columns@) + columns_from(ws, index as int, head_sizes@, h as int) == columns_from(ws, 0, head_sizes@, 0),
            index >= tokens.len() || h >= head_sizes.len(),
        decreases head_sizes.len() - h,
    {
        if index >= tokens.len() {
            break;
        }
        let want = index.saturating_add(head_sizes[h]);
        let end = if want < tokens.len() {
            want
        } else {
            tokens.len()
        };
        let ghost before = columns@;
        let col = join_range(&tokens, index, end);
        assert(char_views(tokens@.subrange(index as int, end as int)) =~= ws.subrange(index as int, end as int));
        columns.push(col);
        assert(char_views(columns@) =~= char_views(before).push(col@));
        assert(columns_from(ws, index as int, head_sizes@, h as int) == seq![join_words(ws.subrange(index as int, end as int))] + columns_from(ws, end as int, head_sizes@, h + 1));
        assert(char_views(columns@) + columns_from(ws, end as int, head_sizes@, h + 1) =~= char_views(before) + columns_from(ws, index as int, head_sizes@, h as int));
        index = end;
        h = h + 1;
    }
    if index < tokens.len() {
        let ghost before = columns@;
        let col = join_range(&tokens, index, tokens.len());
        assert(char_views(tokens@.subrange(index as int, tokens.len() as int)) =~= ws.subrange(index as int, ws.len() as int));
        columns.push(col);
        assert(char_views(columns@) =~= char_views(before).push(col@));
        assert(char_views(columns@) =~= char_views(before) + columns_from(ws, index as int, head_sizes@, h as int));
    } else {
        assert(char_views(columns@) =~= char_views(columns@) + columns_from(ws, index as int, head_sizes@, h as int));
    }
    columns
}

/// The words `ws[from..to]` joined by single spaces.
fn join_range(ws: &Vec<Vec<char>>, from: usize, to: usize) -> (r: Vec<char>)
    requires
        from <= to <= ws.len(),
    ensures
        r@ == join_words(char_views(ws@.subrange(from as int, to as int))),
{
    let mut part: Vec<Vec<char>> = Vec::new();
    let mut k = from;
    while k < to
        invariant
            from <= k <= to <= ws.len(),
            char_views(part@) == char_views(ws@.subrange(from as int, k as int)),
        decreases to - k,
    {
        let ghost before = part@;
        part.push(dup(&ws[k]));
        assert(char_views(part@) =~= char_views(ws@.subrange(from as int, k + 1))) by {
            assert(char_views(part@) =~= char_views(before).push(ws@[k as int]@));
            assert(ws@.subrange(from as int, k + 1) =~= ws@.subrange(from as int, k as int).push(
                ws@[k as int],
            ));
        }
        k = k + 1;
    }
    let r = join_space(part.as_slice(), 0);
    assert(part@.skip(0) =~= part@);
    r
}

/// The names of Lua's built-in types and of EmmyLua's special types.
pub open spec fn is_builtin_type_name(t: Seq<char>) -> bool {
    t == "any"@ || t == "boolean"@ || t == "function"@ || t == "global"@ || t == "integer"@ || t
        == "lightuserdata"@ || t == "nil"@ || t == "number"@ || t == "self"@ || t == "string"@ || t
        == "table"@ || t == "thread"@ || t == "unknown"@ || t == "userdata"@ || t == "void"@
}

/// `token` looks like the start of a type in a `@field` line: it does not start with a
/// digit, and it is a function type, a bracketed or quoted type, holds `|`, `?`, `<` or `{`,
/// or names a built-in type.
pub open spec fn looks_like_type(token: Seq<char>) -> bool {
    &&& token.len() > 0
    &&& !('0' <= token[0] && token[0] <= '9')
    &&& (has_prefix(token, "fun("@) || token[0] == '[' || token[0] == '"' || token.contains('|')
        || token.contains('?') || token.contains('<') || token.contains('{') || is_builtin_type_name(
        token,
    ))
}

/// Whether `token` looks like the start of a type in a `@field` line.
fn looks_like_field_type_start(token: &[char]) -> (r: bool)
    ensures
        r == looks_like_type(token@),
{
    if token.len() == 0 || ('0' <= token[0] && token[0] <= '9') {
        return false;
    }
    if starts_with(token, "fun(") || token[0] == '[' || token[0] == '"' {
        return true;
    }
    let bar = find_char(token, '|');
    let q = find_char(token, '?');
    let lt = find_char(token, '<');
    let br = find_char(token, '{');
    proof {
        if let Some(i) = bar { assert(token@[i as int] == '|'); }
        if let Some(i) = q { assert(token@[i as int] == '?'); }
        if let Some(i) = lt { assert(token@[i as int] == '<'); }
        if let Some(i) = br { assert(token@[i as int] == '{'); }
    }
    if bar.is_some() || q.is_some() || lt.is_some() || br.is_some() {
        return true;
    }
    eq_str(token, "any") || eq_str(token, "boolean") || eq_str(token, "function") || eq_str(
        token,
        "global",
    ) || eq_str(token, "integer") || eq_str(token, "lightuserdata") || eq_str(token, "nil")
        || eq_str(token, "number") || eq_str(token, "self") || eq_str(token, "string") || eq_str(
        token,
        "table",
    ) || eq_str(token, "thread") || eq_str(token, "unknown") || eq_str(token, "userdata")
        || eq_str(token, "void")
}

/// A character of a field name: an ASCII letter or digit, `_` or `.`.
pub open spec fn is_field_name_char(ch: char) -> bool {
    ('a' <= ch && ch <= 'z') || ('A' <= ch && ch <= 'Z') || ('0' <= ch && ch <= '9') || ch == '_'
        || ch == '.'
}

/// A field token `name(type)` split before its first `(` into its name and its type, when
/// the name is not empty and made of field name characters.
pub open spec fn attached_split(token: Seq<char>) -> Option<(Seq<char>, Seq<char>)> {
    let i = first_index_of(token, '(');
    if token.contains('(') && i > 0 && forall|j: int| 0 <= j < i ==> is_field_name_char(#[trigger] token[j]) {
        Some((token.take(i), token.skip(i)))
    } else {
        None
    }
}

/// A field token `name(type)` split into its name and its type.
fn split_attached_field_name_and_type(token: &[char]) -> (r: Option<(Vec<char>, Vec<char>)>)
    ensures
        match r {
            Some((name, ty)) => attached_split(token@) == Some((name@, ty@)),
            None => attached_split(token@) is None,
        },
{
    let split_index = match find_char(token, '(') {
        Some(i) => i,
        None => return None,
    };
    proof {
        lemma_first_index_of(token@, '(', split_index as int);
    }
    if split_index == 0 {
        return None;
    }
    let mut i: usize = 0;
    while i < split_index
        invariant
            split_index < token.len(),
            first_index_of(token@, '(') == split_index,
            token@.contains('('),
            i <= split_index,
            forall|j: int| 0 <= j < i ==> is_field_name_char(#[trigger] token@[j]),
        decreases split_index - i,
    {
        let ch = token[i];
        let ok = ('a' <= ch && ch <= 'z') || ('A' <= ch && ch <= 'Z') || ('0' <= ch && ch <= '9')
            || ch == '_' || ch == '.';
        if !ok {
            assert(!is_field_name_char(token@[i as int]));
            return None;
        }
        i = i + 1;
    }
    let name = slice_chars(token, 0, split_index);
    let ty = slice_chars(token, split_index, token.len());
    assert(name@ =~= token@.take(split_index as int));
    assert(ty@ =~= token@.skip(split_index as int));
    Some((name, ty))
}

/// The columns of a `@field` line: the visibility and the name, the type, the description;
/// a name with its type attached (`name(type)`) is split, and a second word that does not
/// look like a type starts the description.
pub open spec fn field_columns(input: Seq<char>) -> Seq<Seq<char>> {
    let ws = words(input);
    if ws.len() == 0 {
        Seq::empty()
    } else if (ws[0] == "public"@ || ws[0] == "private"@ || ws[0] == "protected"@) && ws.len() >= 2 {
        match attached_split(ws[1]) {
            Some((name, ty)) => seq![ws[0] + seq![' '] + name, ty] + (if ws.len() >= 3 {
                seq![join_words(ws.skip(2))]
            } else {
                Seq::empty()
            }),
            None => if ws.len() > 2 && !looks_like_type(ws[2]) {
                seq![join_words(ws.take(2)), join_words(ws.skip(2))]
            } else {
                seq![join_words(ws.take(2))] + (if ws.len() >= 3 {
                    seq![ws[2]]
                } else {
                    Seq::empty()
                }) + (if ws.len() >= 4 {
                    seq![join_words(ws.skip(3))]
                } else {
                    Seq::empty()
                })
            },
        }
    } else {
        match attached_split(ws[0]) {
            Some((name, ty)) => seq![name, ty] + (if ws.len() >= 2 {
                seq![join_words(ws.skip(1))]
            } else {
                Seq::empty()
            }),
            None => if ws.len() >= 2 && !looks_like_type(ws[1]) {
                seq![ws[0], join_words(ws.skip(1))]
            } else {
                columns_from(ws, 0, seq![1usize, 1usize], 0)
            },
        }
    }
}

/// The columns of a `@field` line: visibility and name, type, description.
fn parse_field_columns(input: &[char]) -> (r: Vec<Vec<char>>)
    ensures
        char_views(r@) == field_columns(input@),
{
    let tokens = split_whitespace(input);
    let ghost ws = words(input@);
    assert(char_views(tokens@).len() == tokens@.len());
    if tokens.len() == 0 {
        return Vec::new();
    }
    let n = tokens.len();
    assert(tokens@[0]@ == ws[0]);
    let visibility = eq_str(tokens[0].as_slice(), "public") || eq_str(
        tokens[0].as_slice(),
        "private",
    ) || eq_str(tokens[0].as_slice(), "protected");
    if visibility && tokens.len() >= 2 {
        assert(tokens@[1]@ == ws[1]);
        if let Some((name, ty)) = split_attached_field_name_and_type(tokens[1].as_slice()) {
            let mut head = dup(&tokens[0]);
            head.push(' ');
            push_all(&mut head, name.as_slice());
            assert(head@ =~= ws[0] + seq![' '] + name@);
            let ghost two = seq![ws[0] + seq![' '] + name@, ty@];
            let mut columns = vec![head, ty];
            assert(char_views(columns@) =~= two);
            if tokens.len() >= 3 {
                let rest = join_range(&tokens, 2, tokens.len());
                assert(char_views(tokens@.subrange(2, n as int)) =~= ws.skip(2));
                columns.push(rest);
                assert(char_views(columns@) =~= two + seq![join_words(ws.skip(2))]);
            } else {
                assert(char_views(columns@) =~= two + Seq::<Seq<char>>::empty());
            }
            return columns;
        }
        if tokens.len() > 2 {
            assert(tokens@[2]@ == ws[2]);
        }
        if tokens.len() > 2 && !looks_like_field_type_start(tokens[2].as_slice()) {
            let r = vec![join_range(&tokens, 0, 2), join_range(&tokens, 2, tokens.len())];
            assert(char_views(tokens@.subrange(0, 2)) =~= ws.take(2));
            assert(char_views(tokens@.subrange(2, n as int)) =~= ws.skip(2));
            assert(char_views(r@) =~= seq![r@[0]@, r@[1]@]);
            return r;
        }
        let mut columns = vec![join_range(&tokens, 0, 2)];
        assert(char_views(tokens@.subrange(0, 2)) =~= ws.take(2));
        let ghost c1 = seq![join_words(ws.take(2))];
        assert(char_views(columns@) =~= c1);
        let ghost c2 = c1 + (if ws.len() >= 3 {
            seq![ws[2]]
        } else {
            Seq::empty()
        });
        if tokens.len() >= 3 {
            let ghost before = columns@;
            let w = dup(&tokens[2]);
            columns.push(w);
            assert(char_views(columns@) =~= char_views(before).push(w@));
        }
        assert(char_views(columns@) =~= c2);
        if tokens.len() >= 4 {
            let ghost before = columns@;
            let w = join_range(&tokens, 3, tokens.len());
            assert(char_views(tokens@.subrange(3, n as int)) =~= ws.skip(3));
            columns.push(w);
            assert(char_views(columns@) =~= char_views(before).push(w@));
            assert(char_views(columns@) =~= c2 + seq![join_words(ws.skip(3))]);
        } else {
            assert(char_views(columns@) =~= c2 + Seq::<Seq<char>>::empty());
        }
        columns
    } else {
        if let Some((name, ty)) = split_attached_field_name_and_type(tokens[0].as_slice()) {
            let mut columns = vec![name, ty];
            let ghost two = seq![name@, ty@];
            assert(char_views(columns@) =~= two);
            if tokens.len() >= 2 {
                let rest = join_range(&tokens, 1, tokens.len());
                assert(char_views(tokens@.subrange(1, n as int)) =~= ws.skip(1));
                columns.push(rest);
                assert(char_views(columns@) =~= two + seq![join_words(ws.skip(1))]);
            } else {
                assert(char_views(columns@) =~= two + Seq::<Seq<char>>::empty());
            }
            return columns;
        }
        if tokens.len() >= 2 {
            assert(tokens@[1]@ == ws[1]);
        }
        if tokens.len() >= 2 && !looks_like_field_type_start(tokens[1].as_slice()) {
            let r = vec![dup(&tokens[0]), join_range(&tokens, 1, tokens.len())];
            assert(char_views(tokens@.subrange(1, n as int)) =~= ws.skip(1));
            assert(char_views(r@) =~= seq![r@[0]@, r@[1]@]);
            r
        } else {
            let heads: [usize; 2] = [1, 1];
            assert(heads@ =~= seq![1usize, 1usize]);
            split_columns(input, &heads)
        }
    }
}

/// The columns of a `@param` line: name, type, description; a `sync`/`async` function type
/// stays one column.
pub open spec fn param_columns(input: Seq<char>) -> Seq<Seq<char>> {
    let ws = words(input);
    if ws.len() == 0 {
        Seq::empty()
    } else if ws.len() >= 3 && (ws[1] == "sync"@ || ws[1] == "async"@) && has_prefix(ws[2], "fun"@) {
        seq![ws[0], join_words(ws.skip(1))]
    } else {
        columns_from(ws, 0, seq![1usize, 1usize], 0)
    }
}

/// The columns of a `@param` line: name, type, description; a `sync`/`async` function type
/// stays one column.
fn parse_param_columns(input: &[char]) -> (r: Vec<Vec<char>>)
    ensures
        char_views(r@) == param_columns(input@),
{
    let tokens = split_whitespace(input);
    assert(char_views(tokens@).len() == tokens@.len());
    if tokens.len() == 0 {
        return Vec::new();
    }
    if tokens.len() >= 3 && (eq_str(tokens[1].as_slice(), "sync") || eq_str(
        tokens[1].as_slice(),
        "async",
    )) && starts_with(tokens[2].as_slice(), "fun") {
        let r = vec![dup(&tokens[0]), join_range(&tokens, 1, tokens.len())];
        assert(char_views(tokens@.subrange(1, tokens.len() as int)) =~= char_views(tokens@).skip(1));
        assert(char_views(r@) =~= seq![r@[0]@, r@[1]@]);
        return r;
    }
    let heads: [usize; 2] = [1, 1];
    assert(heads@ =~= seq![1usize, 1usize]);
    split_columns(input, &heads)
}

/// The columns of a `@return` line: up to two words together, or all but the last word, then
/// the last word.
pub open spec fn return_columns(input: Seq<char>) -> Seq<Seq<char>> {
    let ws = words(input);
    if ws.len() == 0 {
        Seq::empty()
    } else if ws.len() <= 2 {
        seq![join_words(ws)]
    } else {
        seq![join_words(ws.drop_last()), ws.last()]
    }
}

/// The columns of a `@return` line: all but the last word, then the last word.
fn parse_return_columns(input: &[char]) -> (r: Vec<Vec<char>>)
    ensures
        char_views(r@) == return_columns(input@),
{
    let tokens = split_whitespace(input);
    let n = tokens.len();
    if n == 0 {
        return Vec::new();
    }
    if n <= 2 {
        let r = vec![join_range(&tokens, 0, n)];
        assert(tokens@.subrange(0, n as int) =~= tokens@);
        assert(char_views(r@) =~= seq![r@[0]@]);
        return r;
    }
    let r = vec![join_range(&tokens, 0, n - 1), dup(&tokens[n - 1])];
    assert(char_views(tokens@.subrange(0, n - 1)) =~= char_views(tokens@).drop_last());
    assert(char_views(r@) =~= seq![r@[0]@, r@[1]@]);
    r
}

/// The columns of an `@alias` line: the name and the first word of its type, then the rest.
pub open spec fn alias_columns(input: Seq<char>) -> Seq<Seq<char>> {
    let ws = words(input);
    if ws.len() == 0 {
        Seq::empty()
    } else if ws.len() <= 2 {
        seq![join_words(ws)]
    } else {
        seq![join_words(ws.take(2)), join_words(ws.skip(2))]
    }
}

/// The columns of an `@alias` line: name and first word, then the rest.
fn parse_alias_columns(input: &[char]) -> (r: Vec<Vec<char>>)
    ensures
        char_views(r@) == alias_columns(input@),
{
    let tokens = split_whitespace(input);
    let n = tokens.len();
    if n == 0 {
        return Vec::new();
    }
    if n <= 2 {
        let r = vec![join_range(&tokens, 0, n)];
        assert(tokens@.subrange(0, n as int) =~= tokens@);
        assert(char_views(r@) =~= seq![r@[0]@]);
        return r;
    }
    let r = vec![join_range(&tokens, 0, 2), join_range(&tokens, 2, n)];
    assert(char_views(tokens@.subrange(0, 2)) =~= char_views(tokens@).take(2));
    assert(char_views(tokens@.subrange(2, n as int)) =~= char_views(tokens@).skip(2));
    assert(char_views(r@) =~= seq![r@[0]@, r@[1]@]);
    r
}

/// The columns of a `@generic` line: a single word, two words apart, or all but the last two
/// words joined, then those two joined.
pub open spec fn generic_columns(input: Seq<char>) -> Seq<Seq<char>> {
    let ws = words(input);
    if ws.len() <= 2 {
        ws
    } else {
        seq![join_words(ws.take(ws.len() - 2)), join_words(ws.skip(ws.len() - 2))]
    }
}

/// The columns of a `@generic` line: a single word, two words apart, or all but the last two
/// words joined, then those two joined.
fn parse_generic_columns(input: &[char]) -> (r: Vec<Vec<char>>)
    ensures
        char_views(r@) == generic_columns(input@),
{
    let tokens = split_whitespace(input);
    let n = tokens.len();
    assert(char_views(tokens@).len() == n);
    if n == 0 {
        let r: Vec<Vec<char>> = Vec::new();
        assert(char_views(r@) =~= words(input@));
        r
    } else if n == 1 {
        let r = vec![dup(&tokens[0])];
        assert(char_views(r@) =~= words(input@));
        r
    } else if n == 2 {
        let r = vec![dup(&tokens[0]), dup(&tokens[1])];
        assert(char_views(r@) =~= words(input@));
        r
    } else {
        let r = vec![join_range(&tokens, 0, n - 2), join_range(&tokens, n - 2, n)];
        assert(char_views(tokens@.subrange(0, n - 2)) =~= char_views(tokens@).take(n - 2));
        assert(char_views(tokens@.subrange(n - 2, n as int)) =~= char_views(tokens@).skip(n - 2));
        assert(char_views(r@) =~= seq![r@[0]@, r@[1]@]);
        r
    }
}

/// The columns of a `---|` value of a multi-line alias: split at its first ` #` into the
/// value and `# ` and the description, when neither is empty; otherwise the whole, trimmed.
pub open spec fn alias_value_columns(input: Seq<char>) -> Seq<Seq<char>> {
    if exists|i: int| #[trigger] space_hash_at(input, i) {
        let h = choose|i: int| space_hash_at(input, i) && forall|j: int| 0 <= j < i ==> !#[trigger] space_hash_at(input, j);
        let value = trim_end_chars(trim_start_chars(input.take(h)));
        let description = trim_start_chars(input.skip(h + 2));
        if value.len() == 0 || description.len() == 0 {
            seq![trim_end_chars(trim_start_chars(input))]
        } else {
            seq![value, "# "@ + description]
        }
    } else {
        seq![trim_end_chars(trim_start_chars(input))]
    }
}

/// A `---|` value of a multi-line alias split at ` #` into the value and `# description`.
fn parse_multiline_alias_continue_columns(input: &[char]) -> (r: Vec<Vec<char>>)
    ensures
        char_views(r@) == alias_value_columns(input@),
{
    let hash_index = match find_space_hash(input) {
        Some(i) => i,
        None => {
            let r = vec![trim(input)];
            assert(char_views(r@) =~= seq![r@[0]@]);
            return r;
        },
    };
    proof {
        let h = choose|i: int| space_hash_at(input@, i) && forall|j: int| 0 <= j < i ==> !#[trigger] space_hash_at(input@, j);
        if h < hash_index {
            assert(!space_hash_at(input@, h));
        } else if h > hash_index {
            assert(!space_hash_at(input@, hash_index as int));
        }
        assert(h == hash_index);
    }
    let n = input.len();
    assert(hash_index + 2 <= n);
    let head = slice_chars(input, 0, hash_index);
    assert(head@ =~= input@.take(hash_index as int));
    let value = trim(head.as_slice());
    let tail = slice_chars(input, hash_index + 2, input.len());
    assert(tail@ =~= input@.skip(hash_index + 2));
    let description = trim_start(tail.as_slice());
    if value.len() == 0 || description.len() == 0 {
        let r = vec![trim(input)];
        assert(char_views(r@) =~= seq![r@[0]@]);
        return r;
    }
    let mut d = chars_of("# ");
    push_all(&mut d, description.as_slice());
    let r = vec![value, d];
    assert(char_views(r@) =~= seq![r@[0]@, r@[1]@]);
    r
}

/// The index of the first `c` in `s`, or the length of `s`.
pub open spec fn first_index_of(s: Seq<char>, c: char) -> int {
    if s.contains(c) {
        choose|i: int| 0 <= i < s.len() && s[i] == c && forall|j: int| 0 <= j < i ==> s[j] != c
    } else {
        s.len() as int
    }
}

/// A tag line's head: the text before its first `#`, trimmed at its end (the whole text when
/// it has no `#`).
pub open spec fn tag_head(s: Seq<char>) -> Seq<char> {
    if s.contains('#') {
        trim_end_chars(s.take(first_index_of(s, '#')))
    } else {
        s
    }
}

/// A tag line's description: from its first `#` on, trimmed at its start, when not empty.
pub open spec fn tag_description(s: Seq<char>) -> Option<Seq<char>> {
    if s.contains('#') && trim_start_chars(s.skip(first_index_of(s, '#'))).len() > 0 {
        Some(trim_start_chars(s.skip(first_index_of(s, '#'))))
    } else {
        None
    }
}

proof fn lemma_first_index_of(s: Seq<char>, c: char, i: int)
    requires
        0 <= i < s.len(),
        s[i] == c,
        forall|j: int| 0 <= j < i ==> s[j] != c,
    ensures
        s.contains(c),
        first_index_of(s, c) == i,
{
    assert(s[i] == c);
    let k = first_index_of(s, c);
    if k < i {
        assert(s[k] != c);
    } else if k > i {
        assert(s[i] != c);
    }
}

/// A tag line's head (before `#`, trimmed at its end) and its raw `#` description.
fn split_doc_tag_description(normalized_input: &[char], raw_input: &[char]) -> (r: (Vec<char>, Option<Vec<char>>))
    ensures
        r.0@ == tag_head(normalized_input@),
        opt_view(r.1) == tag_description(raw_input@),
{
    let head = match find_char(normalized_input, '#') {
        Some(i) => {
            proof {
                lemma_first_index_of(normalized_input@, '#', i as int);
            }
            let h = slice_chars(normalized_input, 0, i);
            assert(h@ =~= normalized_input@.take(i as int));
            trim_end(h.as_slice())
        },
        None => {
            assert(!normalized_input@.contains('#'));
            slice_chars(normalized_input, 0, normalized_input.len())
        },
    };
    proof {
        if !normalized_input@.contains('#') {
            assert(normalized_input@.subrange(0, normalized_input@.len() as int) =~= normalized_input@);
        }
    }
    let description = match find_char(raw_input, '#') {
        Some(i) => {
            proof {
                lemma_first_index_of(raw_input@, '#', i as int);
            }
            let tail = slice_chars(raw_input, i, raw_input.len());
            assert(tail@ =~= raw_input@.skip(i as int));
            let d = trim_start(tail.as_slice());
            if d.len() == 0 {
                None
            } else {
                Some(d)
            }
        },
        None => None,
    };
    (head, description)
}

/// The first line of a text, trimmed, if it is not empty.
pub open spec fn first_line_trimmed(text: Seq<char>) -> Option<Seq<char>> {
    if lines_of(text).len() > 0 && trim_end_chars(trim_start_chars(lines_of(text)[0])).len() > 0 {
        Some(trim_end_chars(trim_start_chars(lines_of(text)[0])))
    } else {
        None
    }
}

/// The first line of a structured description, trimmed, if it is not empty.
fn first_structured_description_line(text: &[char]) -> (r: Option<Vec<char>>)
    ensures
        opt_view(r) == first_line_trimmed(text@),
{
    let lines = split_lines(text);
    assert(char_views(lines@).len() == lines@.len());
    if lines.len() == 0 {
        return None;
    }
    assert(lines_of(text@)[0] == lines@[0]@);
    let line = trim(lines[0].as_slice());
    if line.len() == 0 {
        None
    } else {
        Some(line)
    }
}

/// `head`, trimmed at its end, without the trimmed `description` at its end, trimmed again;
/// `None` when it does not end with it.
pub open spec fn without_description(head: Seq<char>, description: Seq<char>) -> Option<Seq<char>> {
    let th = trim_end_chars(head);
    let td = trim_end_chars(trim_start_chars(description));
    if td.len() == 0 {
        Some(th)
    } else if td.len() <= th.len() && th.skip(th.len() - td.len()) == td {
        Some(trim_end_chars(th.take(th.len() - td.len())))
    } else {
        None
    }
}

/// `head` without the description at its end, when it ends with it.
fn strip_structured_description_suffix(normalized_head: &[char], description: &[char]) -> (r: Option<Vec<char>>)
    ensures
        opt_view(r) == without_description(normalized_head@, description@),
{
    let trimmed_head = trim_end(normalized_head);
    let trimmed_description = trim(description);
    if trimmed_description.len() == 0 {
        return Some(trimmed_head);
    }
    if trimmed_description.len() > trimmed_head.len() {
        return None;
    }
    let start = trimmed_head.len() - trimmed_description.len();
    let mut k: usize = 0;
    while k < trimmed_description.len()
        invariant
            start + trimmed_description.len() == trimmed_head.len(),
            trimmed_head@ == trim_end_chars(normalized_head@),
            trimmed_description@ == trim_end_chars(trim_start_chars(description@)),
            trimmed_description.len() > 0,
            k <= trimmed_description.len(),
            forall|j: int| 0 <= j < k ==> trimmed_head@[start + j] == trimmed_description@[j],
        decreases trimmed_description.len() - k,
    {
        if trimmed_head[start + k] != trimmed_description[k] {
            assert(trimmed_head@.skip(start as int)[k as int] != trimmed_description@[k as int]);
            assert(trimmed_head@.skip(start as int) != trimmed_description@);
            return None;
        }
        k = k + 1;
    }
    assert(trimmed_head@.skip(start as int) =~= trimmed_description@);
    let h = slice_chars(trimmed_head.as_slice(), 0, start);
    assert(h@ =~= trimmed_head@.take(start as int));
    Some(trim_end(h.as_slice()))
}

/// The head of a tag line as one column, without its description, unless empty.
pub open spec fn single_head_columns(head: Seq<char>, description: Option<Seq<char>>) -> Seq<Seq<char>> {
    let stripped = match description {
        Some(d) => without_description(head, d),
        None => None,
    };
    let h = match stripped {
        Some(x) => x,
        None => trim_end_chars(trim_start_chars(head)),
    };
    if h.len() == 0 {
        Seq::empty()
    } else {
        seq![h]
    }
}

/// The head of a tag line as one column, without its description.
fn structured_single_head_columns(normalized_head: &[char], structured_description: &Option<Vec<char>>) -> (r: Vec<Vec<char>>)
    ensures
        char_views(r@) == single_head_columns(normalized_head@, opt_view(*structured_description)),
{
    let stripped = match structured_description {
        Some(d) => strip_structured_description_suffix(normalized_head, d.as_slice()),
        None => None,
    };
    let head = match stripped {
        Some(h) => h,
        None => trim(normalized_head),
    };
    if head.len() == 0 {
        let r: Vec<Vec<char>> = Vec::new();
        assert(char_views(r@) =~= Seq::<Seq<char>>::empty());
        r
    } else {
        let r = vec![head];
        assert(char_views(r@) =~= seq![r@[0]@]);
        r
    }
}

/// The first column as written, then with its spaces collapsed when that differs, then for
/// `name?` also `name ?`.
pub open spec fn first_column_variants(raw_first: Seq<char>, normalized_first: Seq<char>) -> Seq<Seq<char>> {
    seq![raw_first] + (if normalized_first != raw_first {
        seq![normalized_first]
    } else {
        Seq::empty()
    }) + (if normalized_first.len() > 0 && normalized_first.last() == '?' {
        seq![normalized_first.drop_last() + seq![' ', '?']]
    } else {
        Seq::empty()
    })
}

/// Among the first `i` variants `vs`, the one that `head` starts with and that comes first in
/// character order (the earliest of equal ones).
pub open spec fn best_variant(vs: Seq<Seq<char>>, head: Seq<char>, i: int) -> Option<int>
    decreases i,
{
    if i <= 0 {
        None
    } else {
        let prev = best_variant(vs, head, i - 1);
        if has_prefix(head, vs[i - 1]) {
            match prev {
                Some(b) => if chars_before(vs[i - 1], vs[b]) {
                    Some(i - 1)
                } else {
                    Some(b)
                },
                None => Some(i - 1),
            }
        } else {
            prev
        }
    }
}

/// The columns of a tag line from its head (without its description) and the tree's head
/// columns: with two of them, the tree's first column with its spaces collapsed, then what of
/// the head follows the variant of that column it starts with; otherwise the tree's columns.
pub open spec fn structured_columns(head: Seq<char>, cols: Seq<Seq<char>>, description: Option<Seq<char>>) -> Seq<Seq<char>> {
    let stripped = match description {
        Some(d) => without_description(head, d),
        None => None,
    };
    let nh = match stripped {
        Some(h) => h,
        None => trim_end_chars(trim_start_chars(head)),
    };
    if cols.len() == 0 {
        Seq::empty()
    } else if cols.len() != 2 {
        cols
    } else {
        let raw_first = trim_end_chars(trim_start_chars(cols[0]));
        let nf = join_words(words(raw_first));
        let vs = first_column_variants(raw_first, nf);
        let rest = match best_variant(vs, nh, vs.len() as int) {
            Some(b) => if vs[b].len() <= nh.len() {
                trim_start_chars(nh.skip(vs[b].len() as int))
            } else {
                nh
            },
            None => nh,
        };
        if rest.len() == 0 {
            seq![nf]
        } else {
            seq![nf, rest]
        }
    }
}

/// An optional index as an integer.
pub open spec fn opt_int(o: Option<usize>) -> Option<int> {
    match o {
        Some(b) => Some(b as int),
        None => None,
    }
}

/// The first column as written, then with its spaces collapsed when that differs, then for
/// `name?` also `name ?`.
fn structured_first_column_variants(raw_first: &[char], normalized_first: &[char]) -> (r: Vec<Vec<char>>)
    ensures
        char_views(r@) == first_column_variants(raw_first@, normalized_first@),
{
    let first = slice_chars(raw_first, 0, raw_first.len());
    assert(first@ =~= raw_first@);
    let mut variants: Vec<Vec<char>> = vec![first];
    let ghost want2 = seq![raw_first@] + (if normalized_first@ != raw_first@ {
        seq![normalized_first@]
    } else {
        Seq::empty()
    });
    assert(char_views(variants@) =~= seq![raw_first@]);
    if !same_chars(normalized_first, raw_first) {
        let second = slice_chars(normalized_first, 0, normalized_first.len());
        assert(second@ =~= normalized_first@);
        let ghost before = variants@;
        variants.push(second);
        assert(char_views(variants@) =~= char_views(before).push(second@));
    }
    assert(char_views(variants@) =~= want2);
    if normalized_first.len() > 0 && normalized_first[normalized_first.len() - 1] == '?' {
        let mut spaced = slice_chars(normalized_first, 0, normalized_first.len() - 1);
        assert(spaced@ =~= normalized_first@.drop_last());
        spaced.push(' ');
        spaced.push('?');
        assert(spaced@ =~= normalized_first@.drop_last() + seq![' ', '?']);
        let ghost before = variants@;
        variants.push(spaced);
        assert(char_views(variants@) =~= char_views(before).push(spaced@));
    }
    assert(char_views(variants@) =~= want2 + (if normalized_first@.len() > 0 && normalized_first@.last() == '?' {
        seq![normalized_first@.drop_last() + seq![' ', '?']]
    } else {
        Seq::empty()
    }));
    variants
}

/// Whether two texts are equal.
fn same_chars(a: &[char], b: &[char]) -> (r: bool)
    ensures
        r == (a@ == b@),
{
    if a.len() != b.len() {
        return false;
    }
    let mut k: usize = 0;
    while k < a.len()
        invariant
            a.len() == b.len(),
            k <= a.len(),
            forall|j: int| 0 <= j < k ==> a@[j] == b@[j],
        decreases a.len() - k,
    {
        if a[k] != b[k] {
            return false;
        }
        k = k + 1;
    }
    assert(a@ =~= b@);
    true
}

/// The columns of a tag line from its normalized head and the tree's head columns: the tree's
/// first column, spaces collapsed, then what of the head follows it.
fn structured_columns_from_normalized_head(
    normalized_head: &[char],
    structured_head_columns: &Vec<Vec<char>>,
    structured_description: &Option<Vec<char>>,
) -> (r: Vec<Vec<char>>)
    ensures
        char_views(r@) == structured_columns(
            normalized_head@,
            char_views(structured_head_columns@),
            opt_view(*structured_description),
        ),
{
    let ghost head0 = normalized_head@;
    let stripped = match structured_description {
        Some(d) => strip_structured_description_suffix(normalized_head, d.as_slice()),
        None => None,
    };
    let normalized_head = match stripped {
        Some(h) => h,
        None => trim(normalized_head),
    };
    let n = structured_head_columns.len();
    assert(char_views(structured_head_columns@).len() == n);
    if n == 0 {
        return Vec::new();
    }
    if n != 2 {
        return dup_list(structured_head_columns);
    }
    assert(char_views(structured_head_columns@)[0] == structured_head_columns@[0]@);
    let raw_first = trim(structured_head_columns[0].as_slice());
    let normalized_first = collapse_spaces(raw_first.as_slice());
    let variants = structured_first_column_variants(raw_first.as_slice(), normalized_first.as_slice());
    let ghost vs = char_views(variants@);
    assert(vs.len() == variants@.len());
    let mut rest: Option<Vec<char>> = None;
    let mut best: Option<usize> = None;
    let mut v: usize = 0;
    while v < variants.len()
        invariant
            v <= variants.len(),
            vs == char_views(variants@),
            vs.len() == variants@.len(),
            best matches Some(b) ==> b < variants.len(),
            opt_int(best) == best_variant(vs, normalized_head@, v as int),
        decreases variants.len() - v,
    {
        assert(vs[v as int] == variants@[v as int]@);
        if let Some(b) = best {
            assert(vs[b as int] == variants@[b as int]@);
        }
        if starts_with_chars(normalized_head.as_slice(), variants[v].as_slice()) {
            best = match best {
                Some(b) => if less_chars(variants[v].as_slice(), variants[b].as_slice()) {
                    Some(v)
                } else {
                    Some(b)
                },
                None => Some(v),
            };
        }
        v = v + 1;
    }
    if let Some(b) = best {
        assert(vs[b as int] == variants@[b as int]@);
        let len = variants[b].len();
        if len <= normalized_head.len() {
            let tail = slice_chars(normalized_head.as_slice(), len, normalized_head.len());
            assert(tail@ =~= normalized_head@.skip(len as int));
            rest = Some(trim_start(tail.as_slice()));
        }
    }
    let rest = match rest {
        Some(r) => r,
        None => normalized_head,
    };
    if rest.len() == 0 {
        let r = vec![normalized_first];
        assert(char_views(r@) =~= seq![r@[0]@]);
        r
    } else {
        let r = vec![normalized_first, rest];
        assert(char_views(r@) =~= seq![r@[0]@, r@[1]@]);
        r
    }
}

/// Whether `s` starts with `p`.
fn starts_with_chars(s: &[char], p: &[char]) -> (r: bool)
    ensures
        r == has_prefix(s@, p@),
{
    if p.len() > s.len() {
        return false;
    }
    let mut k: usize = 0;
    while k < p.len()
        invariant
            k <= p.len() <= s.len(),
            forall|j: int| 0 <= j < k ==> s@[j] == p@[j],
        decreases p.len() - k,
    {
        if s[k] != p[k] {
            assert(s@.take(p.len() as int)[k as int] != p@[k as int]);
            return false;
        }
        k = k + 1;
    }
    assert(s@.take(p.len() as int) =~= p@);
    true
}

/// `a` comes before `b` in the order of their characters' code points (a proper prefix comes
/// first).
pub open spec fn chars_before(a: Seq<char>, b: Seq<char>) -> bool
    decreases a.len(),
{
    if a.len() == 0 || b.len() == 0 {
        a.len() < b.len()
    } else if a[0] != b[0] {
        (a[0] as u32) < (b[0] as u32)
    } else {
        chars_before(a.drop_first(), b.drop_first())
    }
}

/// Whether `a` comes before `b` in the order of their characters.
fn less_chars(a: &[char], b: &[char]) -> (r: bool)
    ensures
        r == chars_before(a@, b@),
{
    let mut k: usize = 0;
    assert(a@.skip(0) =~= a@ && b@.skip(0) =~= b@);
    while k < a.len() && k < b.len()
        invariant
            k <= a.len() && k <= b.len(),
            chars_before(a@, b@) == chars_before(a@.skip(k as int), b@.skip(k as int)),
        decreases a.len() - k,
    {
        assert(a@.skip(k as int).drop_first() =~= a@.skip(k + 1));
        assert(b@.skip(k as int).drop_first() =~= b@.skip(k + 1));
        if a[k] != b[k] {
            return (a[k] as u32) < (b[k] as u32);
        }
        k = k + 1;
    }
    a.len() < b.len()
}


/// `s` without the prefix `p`, when it starts with it.
fn strip_prefix_chars(s: &[char], p: &[char]) -> (r: Option<Vec<char>>)
    ensures
        match r {
            Some(rest) => has_prefix(s@, p@) && rest@ == s@.skip(p@.len() as int),
            None => !has_prefix(s@, p@),
        },
{
    if starts_with_chars(s, p) {
        Some(slice_chars(s, p.len(), s.len()))
    } else {
        None
    }
}

/// The columns of a tag line's head by its tag, as the comment's text gives them.
pub open spec fn tag_columns(tag: Seq<char>, head: Seq<char>) -> Seq<Seq<char>> {
    if tag == "param"@ {
        param_columns(head)
    } else if tag == "field"@ {
        field_columns(head)
    } else if tag == "return"@ {
        return_columns(head)
    } else if tag == "class"@ {
        columns_from(words(head), 0, seq![1usize], 0)
    } else if tag == "alias"@ {
        alias_columns(head)
    } else if tag == "generic"@ {
        generic_columns(head)
    } else if tag == "type"@ || tag == "overload"@ {
        seq![head]
    } else {
        seq![join_words(words(head))]
    }
}

/// The columns that are not empty.
pub open spec fn non_empty(cols: Seq<Seq<char>>) -> Seq<Seq<char>>
    decreases cols.len(),
{
    if cols.len() == 0 {
        Seq::empty()
    } else {
        let rest = non_empty(cols.drop_last());
        if cols.last().len() > 0 {
            rest.push(cols.last())
        } else {
            rest
        }
    }
}

/// An optional text as a list of at most one text.
pub open spec fn opt_seq(o: Option<Seq<char>>) -> Seq<Seq<char>> {
    match o {
        Some(x) => seq![x],
        None => Seq::empty(),
    }
}

/// The tag of a tag line: its first word.
pub open spec fn tag_of(rest: Seq<char>) -> Seq<char> {
    if words(rest).len() > 0 {
        words(rest)[0]
    } else {
        Seq::empty()
    }
}

/// `s` after the prefix `p`, its leading white space dropped; empty when it does not start
/// with `p`.
pub open spec fn after_tag(s: Seq<char>, p: Seq<char>) -> Seq<char> {
    match cut(s, p) {
        Some(x) => trim_start_chars(x),
        None => Seq::empty(),
    }
}

/// The columns of a tag line whose text after `@` is `rest` (normalized) and
/// `raw_rest_source` (as written): as the tree gives them when its columns are for the same
/// tag, otherwise by the tag from the text; then its description; the empty ones dropped.
pub open spec fn tag_line_columns(rest: Seq<char>, raw_rest_source: Seq<char>, structured: Option<StructuredDocTagColumns>) -> Seq<Seq<char>> {
    let tag = tag_of(rest);
    let normalized_rest = after_tag(rest, tag);
    let raw_rest = after_tag(raw_rest_source, tag);
    match structured {
        Some(st) if st.tag@ == tag => {
            let sd = match st.description {
                Some(d) => first_line_trimmed(d@),
                None => None,
            };
            non_empty(
                (if st.use_normalized_head_as_single_column {
                    single_head_columns(normalized_rest, sd)
                } else {
                    structured_columns(normalized_rest, char_views(st.head_columns@), sd)
                }) + opt_seq(sd),
            )
        },
        _ => non_empty(tag_columns(tag, tag_head(normalized_rest)) + opt_seq(tag_description(raw_rest))),
    }
}

/// `r` is the tag line parsed from the text after `@`, `rest` (normalized) and
/// `raw_rest_source` (as written): its tag is the first word, its columns are those of
/// [`tag_line_columns`], it joins its tag's alignment group when the options align that kind
/// of tag, and an `@alias` keeps its body's spacing when tag columns are not aligned.
pub open spec fn tag_line_matches(
    emmy: EmmyDocConfig,
    r: DocTagLine,
    rest: Seq<char>,
    raw_rest_source: Seq<char>,
    gap_after_dash: Option<Vec<char>>,
    structured: Option<StructuredDocTagColumns>,
) -> bool {
    let tag = tag_of(rest);
    let declaration = tag == "class"@ || tag == "alias"@ || tag == "field"@ || tag == "generic"@;
    let reference = tag == "param"@ || tag == "return"@;
    let aligned = (declaration && emmy.align_tag_columns && emmy.align_declaration_tags) || (
    reference && emmy.align_tag_columns && emmy.align_reference_tags);
    &&& r.tag@ == tag
    &&& r.raw_rest@ == after_tag(raw_rest_source, tag)
    &&& char_views(r.columns@) == tag_line_columns(rest, raw_rest_source, structured)
    &&& (match r.align_key {
        Some(k) => aligned && k@ == tag,
        None => !aligned,
    })
    &&& r.preserve_body_spacing == (tag == "alias"@ && !emmy.align_tag_columns)
    &&& r.gap_after_dash == gap_after_dash
}

/// Parses a tag line: the tag, the text after it, its columns by the kind of tag (or as the
/// syntax tree gives them), and the alignment group it belongs to.
fn parse_doc_tag_line(
    ctx: &FormatContext,
    rest: &[char],
    raw_rest_source: &[char],
    gap_after_dash: Option<Vec<char>>,
    structured_tag: Option<&StructuredDocTagColumns>,
) -> (r: DocTagLine)
    ensures
        tag_line_matches(
            ctx.config.emmy_doc,
            r,
            rest@,
            raw_rest_source@,
            gap_after_dash,
            match structured_tag {
                Some(st) => Some(*st),
                None => None,
            },
        ),
{
    let parts = split_whitespace(rest);
    assert(char_views(parts@).len() == parts@.len());
    let tag = if parts.len() > 0 {
        assert(words(rest@)[0] == parts@[0]@);
        dup(&parts[0])
    } else {
        Vec::new()
    };
    assert(tag@ == tag_of(rest@));
    let normalized_rest = match strip_prefix_chars(rest, tag.as_slice()) {
        Some(r) => trim_start(r.as_slice()),
        None => Vec::new(),
    };
    let raw_rest = match strip_prefix_chars(raw_rest_source, tag.as_slice()) {
        Some(r) => trim_start(r.as_slice()),
        None => Vec::new(),
    };
    let structured: Option<&StructuredDocTagColumns> = match structured_tag {
        Some(st) => if same_chars(st.tag.as_slice(), tag.as_slice()) {
            Some(st)
        } else {
            None
        },
        None => None,
    };
    let (normalized_head, raw_description) = match structured {
        Some(_) => (dup(&normalized_rest), None),
        None => split_doc_tag_description(normalized_rest.as_slice(), raw_rest.as_slice()),
    };
    let structured_description: Option<Vec<char>> = match structured {
        Some(st) => match &st.description {
            Some(d) => first_structured_description_line(d.as_slice()),
            None => None,
        },
        None => None,
    };
    let mut columns: Vec<Vec<char>> = match structured {
        Some(st) => if st.use_normalized_head_as_single_column {
            structured_single_head_columns(normalized_head.as_slice(), &structured_description)
        } else {
            structured_columns_from_normalized_head(
                normalized_head.as_slice(),
                &st.head_columns,
                &structured_description,
            )
        },
        None => {
            let t = tag.as_slice();
            if eq_str(t, "param") {
                parse_param_columns(normalized_head.as_slice())
            } else if eq_str(t, "field") {
                parse_field_columns(normalized_head.as_slice())
            } else if eq_str(t, "return") {
                parse_return_columns(normalized_head.as_slice())
            } else if eq_str(t, "class") {
                let heads: [usize; 1] = [1];
                assert(heads@ =~= seq![1usize]);
                split_columns(normalized_head.as_slice(), &heads)
            } else if eq_str(t, "alias") {
                parse_alias_columns(normalized_head.as_slice())
            } else if eq_str(t, "generic") {
                parse_generic_columns(normalized_head.as_slice())
            } else if eq_str(t, "type") || eq_str(t, "overload") {
                let r = vec![dup(&normalized_head)];
                assert(char_views(r@) =~= seq![r@[0]@]);
                r
            } else {
                let r = vec![collapse_spaces(normalized_head.as_slice())];
                assert(char_views(r@) =~= seq![r@[0]@]);
                r
            }
        },
    };
    let ghost head_cols = char_views(columns@);
    let ghost desc = match opt_view(raw_description) {
        Some(d) => Some(d),
        None => opt_view(structured_description),
    };
    match raw_description {
        Some(d) => {
            let ghost before = columns@;
            let ghost dv = d@;
            columns.push(d);
            assert(char_views(columns@) =~= char_views(before).push(dv));
        },
        None => match structured_description {
            Some(d) => {
                let ghost before = columns@;
                let ghost dv = d@;
                columns.push(d);
                assert(char_views(columns@) =~= char_views(before).push(dv));
            },
            None => {},
        },
    }
    assert(char_views(columns@) =~= head_cols + opt_seq(desc));
    let mut kept: Vec<Vec<char>> = Vec::new();
    let mut i: usize = 0;
    while i < columns.len()
        invariant
            i <= columns.len(),
            char_views(kept@) == non_empty(char_views(columns@).take(i as int)),
        decreases columns.len() - i,
    {
        let ghost before = kept@;
        assert(char_views(columns@).take(i + 1).drop_last() =~= char_views(columns@).take(i as int));
        assert(char_views(columns@).take(i + 1).last() == columns@[i as int]@);
        if columns[i].len() > 0 {
            let c = dup(&columns[i]);
            kept.push(c);
            assert(char_views(kept@) =~= char_views(before).push(c@));
        }
        i = i + 1;
    }
    assert(char_views(columns@).take(i as int) =~= char_views(columns@));
    let t = tag.as_slice();
    let declaration = eq_str(t, "class") || eq_str(t, "alias") || eq_str(t, "field") || eq_str(
        t,
        "generic",
    );
    let reference = eq_str(t, "param") || eq_str(t, "return");
    let align_key = if declaration && ctx.config.should_align_emmy_doc_declaration_tags() {
        Some(dup(&tag))
    } else if reference && ctx.config.should_align_emmy_doc_reference_tags() {
        Some(dup(&tag))
    } else {
        None
    };
    let preserve_body_spacing = eq_str(t, "alias") && !ctx.config.emmy_doc.align_tag_columns;
    DocTagLine {
        tag,
        raw_rest,
        columns: kept,
        align_key,
        preserve_body_spacing,
        gap_after_dash,
    }
}

/// The spaces and tabs after a comment's dashes, when there are more than one of them.
pub open spec fn dash_gap(t: Seq<char>) -> Option<Seq<char>> {
    if gap_len(t) > 1 {
        Some(t.take(gap_len(t) as int))
    } else {
        None
    }
}

/// `line` is what the parse of the doc block line `input` gives under `config`.
pub open spec fn parsed_line(config: LuaFormatConfig, input: DocBlockLineInput, line: DocBlockLine) -> bool {
            let kind = input.prefix_kind;
            let raw_suffix = doc_line_body(trim_start_chars(input.raw_line@), kind);
            let trimmed = trim_start_chars(raw_suffix);
            let source = match input.normalized_line {
                Some(l) => l@,
                None => input.raw_line@,
            };
            let normalized_trimmed = trim_start_chars(doc_line_body(trim_start_chars(source), kind));
            if kind == DocLinePrefixKind::ContinueOr || (trimmed.len() > 0 && trimmed[0] == '|') {
                line matches DocBlockLine::Description(d) && d.kind matches DocDescriptionKind::ContinueOr(m)
                    && m@ == (if has_prefix(trimmed, "|+"@) {
                    "|+"@
                } else if has_prefix(trimmed, "|>"@) {
                    "|>"@
                } else {
                    "|"@
                }) && d.content@ == trim_start_chars(
                    match cut_marker(normalized_trimmed) {
                        Some(x) => x,
                        None => normalized_trimmed,
                    },
                ) && !d.preserve_spacing && opt_view(d.gap_after_dash) == dash_gap(raw_suffix)
                    && d.columns@.len() == 0 && d.align_key is None
            } else if kind == DocLinePrefixKind::Start || has_prefix(trimmed, "@"@) {
                let rest = cut_first2(trimmed, "@"@, "@"@);
                let normalized_rest = if kind == DocLinePrefixKind::Start {
                    cut_first2(normalized_trimmed, "@"@, "@"@)
                } else {
                    match cut(normalized_trimmed, "@"@) {
                        Some(x) => trim_start_chars(x),
                        None => trim_start_chars(rest),
                    }
                };
                line matches DocBlockLine::Tag(t) && tag_line_matches(
                    config.emmy_doc,
                    t,
                    trim_start_chars(normalized_rest),
                    trim_start_chars(rest),
                    t.gap_after_dash,
                    input.structured_tag,
                ) && opt_view(t.gap_after_dash) == dash_gap(raw_suffix)
            } else {
                line matches DocBlockLine::Description(d) && d.kind matches DocDescriptionKind::Plain
                    && d.preserve_spacing == (dash_gap(raw_suffix) is Some) && d.content@ == (if dash_gap(
                    raw_suffix,
                ) is Some {
                    raw_suffix
                } else if raw_suffix.len() > 0 && (raw_suffix[0] == ' ' || raw_suffix[0] == '\t') {
                    raw_suffix.drop_first()
                } else {
                    raw_suffix
                }) && opt_view(d.gap_after_dash) == dash_gap(raw_suffix) && d.columns@.len() == 0
                    && d.align_key is None
            }
        }

/// `line` is the parse of `input`, except that a continued alias description may have been
/// split in columns under an alignment key.
pub open spec fn block_line(config: LuaFormatConfig, input: DocBlockLineInput, line: DocBlockLine) -> bool {
    ||| parsed_line(config, input, line)
    ||| exists|d0: DocDescriptionLine|
        #[trigger] parsed_line(config, input, DocBlockLine::Description(d0)) && (line matches DocBlockLine::Description(d) && d.kind
            == d0.kind && d.content == d0.content && d.preserve_spacing == d0.preserve_spacing && d.gap_after_dash
            == d0.gap_after_dash)
}

/// Parses one line of a doc block into a continuation line, a tag line or a description line.
fn parse_doc_block_line(ctx: &FormatContext, line_input: &DocBlockLineInput) -> (r: DocBlockLine)
    ensures
        parsed_line(*ctx.config, *line_input, r),
{
    let raw_suffix = strip_doc_line_prefix(line_input.raw_line.as_slice(), line_input.prefix_kind);
    let trimmed = trim_start(raw_suffix.as_slice());
    let gap_after_dash = preserved_dash_gap(raw_suffix.as_slice());
    let normalized_source = match &line_input.normalized_line {
        Some(l) => l.as_slice(),
        None => line_input.raw_line.as_slice(),
    };
    let normalized_suffix = strip_doc_line_prefix(normalized_source, line_input.prefix_kind);
    let normalized_trimmed = trim_start(normalized_suffix.as_slice());

    if is_continue_or_doc_line(line_input.prefix_kind, trimmed.as_slice()) {
        let marker = doc_continue_marker(trimmed.as_slice());
        return DocBlockLine::Description(
            DocDescriptionLine {
                kind: DocDescriptionKind::ContinueOr(marker),
                content: normalized_continue_line_content(normalized_trimmed.as_slice()),
                preserve_spacing: false,
                gap_after_dash,
                columns: Vec::new(),
                align_key: None,
            },
        );
    }
    let is_start = line_input.prefix_kind == DocLinePrefixKind::Start;
    let tag_rest: Option<Vec<char>> = if is_start {
        match strip_prefix(trimmed.as_slice(), "@") {
            Some(r) => Some(r),
            None => Some(dup(&trimmed)),
        }
    } else {
        strip_prefix(trimmed.as_slice(), "@")
    };
    if let Some(rest) = tag_rest {
        let normalized_rest = if is_start {
            match strip_prefix(normalized_trimmed.as_slice(), "@") {
                Some(r) => r,
                None => dup(&normalized_trimmed),
            }
        } else {
            match strip_prefix(normalized_trimmed.as_slice(), "@") {
                Some(r) => trim_start(r.as_slice()),
                None => trim_start(rest.as_slice()),
            }
        };
        let tag_line = parse_doc_tag_line(
            ctx,
            trim_start(normalized_rest.as_slice()).as_slice(),
            trim_start(rest.as_slice()).as_slice(),
            gap_after_dash,
            match &line_input.structured_tag {
                Some(st) => Some(st),
                None => None,
            },
        );
        return DocBlockLine::Tag(tag_line);
    }
    let preserve_spacing = gap_after_dash.is_some();
    let content = if preserve_spacing {
        dup(&raw_suffix)
    } else {
        strip_single_comment_gap(raw_suffix.as_slice())
    };
    DocBlockLine::Description(
        DocDescriptionLine {
            kind: DocDescriptionKind::Plain,
            content,
            preserve_spacing,
            gap_after_dash,
            columns: Vec::new(),
            align_key: None,
        },
    )
}

/// The column widths of each alignment group, by its key.
pub struct AlignWidths {
    pub entries: Vec<(Vec<char>, Vec<usize>)>,
}

impl AlignWidths {
    /// The position of the first group named `key`, from position `i` on.
    pub open spec fn key_from(&self, key: Seq<char>, i: int) -> Option<int>
        decreases self.entries.len() - i,
    {
        if i < 0 || i >= self.entries.len() {
            None
        } else if self.entries@[i].0@ == key {
            Some(i)
        } else {
            self.key_from(key, i + 1)
        }
    }

    /// The group that `key_from` finds is named `key` and lies at or after `j`.
    proof fn lemma_key_from(&self, key: Seq<char>, j: int)
        ensures
            self.key_from(key, j) matches Some(i) ==> j <= i < self.entries.len() && self.entries@[i].0@ == key,
        decreases self.entries.len() - j,
    {
        if 0 <= j < self.entries.len() && self.entries@[j].0@ != key {
            self.lemma_key_from(key, j + 1);
        }
    }

    /// The width recorded for column `index` of the group `key`.
    pub open spec fn width_of(&self, key: Seq<char>, index: int) -> Option<usize> {
        match self.key_from(key, 0) {
            Some(i) => if 0 <= index < self.entries@[i].1@.len() {
                Some(self.entries@[i].1@[index])
            } else {
                None
            },
            None => None,
        }
    }

    /// The position of the group `key`.
    fn find(&self, key: &[char]) -> (r: Option<usize>)
        ensures
            r matches Some(i) ==> i < self.entries.len(),
            opt_int(r) == self.key_from(key@, 0),
    {
        let mut i: usize = 0;
        while i < self.entries.len()
            invariant
                i <= self.entries.len(),
                self.key_from(key@, 0) == self.key_from(key@, i as int),
            decreases self.entries.len() - i,
        {
            if same_chars(self.entries[i].0.as_slice(), key) {
                return Some(i);
            }
            i = i + 1;
        }
        None
    }

    /// Widens the group `key` to hold the columns `columns`, all but the last.
    fn widen(&mut self, key: &[char], columns: &Vec<Vec<char>>)
        ensures
            ({
                let count: int = if columns@.len() > 0 { columns@.len() - 1 } else { 0 };
                let cols = crate::text::char_views(columns@);
                match old(self).key_from(key@, 0) {
                    Some(i) => {
                        &&& final(self).entries@.len() == old(self).entries@.len()
                        &&& forall|j: int| 0 <= j < old(self).entries@.len() && j != i ==> #[trigger] final(self).entries@[j]
                            == old(self).entries@[j]
                        &&& final(self).entries@[i].0@ == key@
                        &&& final(self).entries@[i].1@ == widened(old(self).entries@[i].1@, cols, count)
                    },
                    None => {
                        &&& final(self).entries@.len() == old(self).entries@.len() + 1
                        &&& forall|j: int| 0 <= j < old(self).entries@.len() ==> #[trigger] final(self).entries@[j]
                            == old(self).entries@[j]
                        &&& final(self).entries@[old(self).entries@.len() as int].0@ == key@
                        &&& final(self).entries@[old(self).entries@.len() as int].1@ == widened(Seq::empty(), cols, count)
                    },
                }
            }),
    {
        let ghost cols = crate::text::char_views(columns@);
        let count = if columns.len() > 0 {
            columns.len() - 1
        } else {
            0
        };
        let ghost pre = self.entries@;
        let idx = match self.find(key) {
            Some(i) => i,
            None => {
                let mut zeros: Vec<usize> = Vec::new();
                let mut k: usize = 0;
                while k < count
                    invariant
                        k <= count,
                        zeros@ == Seq::new(k as nat, |_q: int| 0usize),
                    decreases count - k,
                {
                    zeros.push(0);
                    assert(zeros@ =~= Seq::new((k + 1) as nat, |_q: int| 0usize));
                    k = k + 1;
                }
                self.entries.push((slice_chars(key, 0, key.len()), zeros));
                assert(key@.subrange(0, key@.len() as int) =~= key@);
                self.entries.len() - 1
            },
        };
        proof {
            old(self).lemma_key_from(key@, 0);
        }
        let ghost mid = self.entries@;
        let ghost base = mid[idx as int].1@;
        proof {
            if pre.len() < mid.len() {
                assert(base =~= Seq::new(count as nat, |_q: int| 0usize));
            }
        }
        let mut entry = (slice_chars(self.entries[idx].0.as_slice(), 0, self.entries[idx].0.len()), Vec::new());
        assert(mid[idx as int].0@.subrange(0, mid[idx as int].0@.len() as int) =~= mid[idx as int].0@);
        let mut k: usize = 0;
        while k < self.entries[idx].1.len()
            invariant
                idx < self.entries.len(),
                self.entries@ == mid,
                base == mid[idx as int].1@,
                k <= base.len(),
                entry.1@ == base.take(k as int),
                entry.0@ == mid[idx as int].0@,
            decreases self.entries[idx as int].1.len() - k,
        {
            entry.1.push(self.entries[idx].1[k]);
            assert(entry.1@ =~= base.take(k + 1));
            k = k + 1;
        }
        assert(base.take(base.len() as int) =~= base);
        while entry.1.len() < count
            invariant
                entry.1@.len() >= base.len(),
                entry.0@ == mid[idx as int].0@,
                entry.1@.len() == base.len() || entry.1@.len() <= count,
                forall|q: int| 0 <= q < entry.1@.len() ==> #[trigger] entry.1@[q] == (if q < base.len() { base[q] } else { 0 }),
            decreases count - entry.1.len(),
        {
            entry.1.push(0);
        }
        let ghost full = entry.1@.len();
        assert(full == if base.len() > count { base.len() as int } else { count as int });
        let mut c: usize = 0;
        while c < count && c < columns.len() && c < entry.1.len()
            invariant
                c <= count,
                count as int == (if columns@.len() > 0 { columns@.len() - 1 } else { 0 }),
                cols == crate::text::char_views(columns@),
                entry.1@.len() == full,
                entry.0@ == mid[idx as int].0@,
                count <= full,
                forall|q: int| 0 <= q < full ==> #[trigger] entry.1@[q] == (if q < c {
                    widened(base, cols, count as int)[q]
                } else if q < base.len() {
                    base[q]
                } else {
                    0
                }),
            decreases count - c,
        {
            let w = utf8_byte_len(columns[c].as_slice());
            assert(cols[c as int] == columns@[c as int]@);
            if w > entry.1[c] {
                entry.1.set(c, w);
            }
            c = c + 1;
        }
        assert(entry.1@ =~= widened(base, cols, count as int));
        self.entries.set(idx, entry);
        proof {
            assert(pre == old(self).entries@);
            match old(self).key_from(key@, 0) {
                Some(i) => {
                    assert(i == idx);
                    assert(mid == pre);
                    assert(self.entries@.len() == pre.len());
                    assert(self.entries@[i].0@ == key@);
                    assert(self.entries@[i].1@ == widened(base, cols, count as int));
                },
                None => {
                    assert(mid.len() == pre.len() + 1);
                    assert(idx == pre.len());
                    assert(self.entries@[idx as int].0@ == key@);
                    assert(widened(base, cols, count as int) =~= widened(Seq::empty(), cols, count as int));
                },
            }
        }
    }

    /// The width of column `index` of group `key`, if recorded.
    fn width(&self, key: &[char], index: usize) -> (r: Option<usize>)
        ensures
            r == self.width_of(key@, index as int),
    {
        match self.find(key) {
            Some(i) => if index < self.entries[i].1.len() {
                Some(self.entries[i].1[index])
            } else {
                None
            },
            None => None,
        }
    }
}

/// A group's column widths once it holds columns `cols`: each of the first `count` columns
/// widened to its byte length, the list grown to `count` entries where it was shorter.
pub open spec fn widened(w: Seq<usize>, cols: Seq<Seq<char>>, count: int) -> Seq<usize> {
    Seq::new(
        (if w.len() > count { w.len() as int } else { count }) as nat,
        |c: int| {
            let b: usize = if c < w.len() { w[c] } else { 0 };
            if c < count && crate::text::byte_len_usize(cols[c]) > b {
                crate::text::byte_len_usize(cols[c])
            } else {
                b
            }
        },
    )
}

/// `n` spaces.
pub open spec fn spaces(n: nat) -> Seq<char> {
    Seq::new(n, |_i: int| ' ')
}

/// The spaces after column `i` of a group `key`: what its recorded width leaves, plus one.
pub open spec fn column_padding(widths: AlignWidths, key: Seq<char>, cols: Seq<Seq<char>>, i: int) -> usize {
    match widths.width_of(key, i) {
        Some(w) => {
            let b = crate::text::byte_len_usize(cols[i]);
            let rest = if w > b {
                w - b
            } else {
                0
            };
            if rest + 1 > usize::MAX {
                usize::MAX
            } else {
                (rest + 1) as usize
            }
        },
        None => 1,
    }
}

/// The columns after column `i`, each after the padding of the one before it.
pub open spec fn aligned_tail(widths: AlignWidths, key: Seq<char>, cols: Seq<Seq<char>>, i: int) -> Seq<char>
    decreases cols.len() - i,
{
    if i < 0 || i + 1 >= cols.len() {
        Seq::empty()
    } else {
        spaces(column_padding(widths, key, cols, i) as nat) + cols[i + 1] + aligned_tail(
            widths,
            key,
            cols,
            i + 1,
        )
    }
}

/// What stands before column `i` of aligned columns: the columns before it, each followed by
/// its padding.
pub open spec fn head_before(widths: AlignWidths, key: Seq<char>, cols: Seq<Seq<char>>, i: int) -> Seq<char>
    decreases i,
{
    if i <= 0 {
        Seq::empty()
    } else {
        head_before(widths, key, cols, i - 1) + cols[i - 1] + spaces(column_padding(widths, key, cols, i - 1) as nat)
    }
}

/// Where column `i` starts in a group, counted in bytes from its first column: the width of
/// each earlier column and one space.
pub open spec fn group_offset(widths: AlignWidths, key: Seq<char>, i: int) -> int
    decreases i,
{
    if i <= 0 {
        0
    } else {
        group_offset(widths, key, i - 1) + widths.width_of(key, i - 1).unwrap() + 1
    }
}

/// The byte length of two texts together.
proof fn lemma_byte_len_concat(a: Seq<char>, b: Seq<char>)
    ensures
        crate::text::byte_len(a + b) == crate::text::byte_len(a) + crate::text::byte_len(b),
    decreases b.len(),
{
    if b.len() == 0 {
        assert(a + b =~= a);
    } else {
        lemma_byte_len_concat(a, b.drop_last());
        assert((a + b).drop_last() =~= a + b.drop_last());
        assert((a + b).last() == b.last());
    }
}

/// Spaces take a byte each.
proof fn lemma_byte_len_spaces(n: nat)
    ensures
        crate::text::byte_len(spaces(n)) == n,
    decreases n,
{
    if n > 0 {
        lemma_byte_len_spaces((n - 1) as nat);
        assert(spaces(n).drop_last() =~= spaces((n - 1) as nat));
        assert(spaces(n).last() == ' ');
    }
}

/// Aligned columns split before column `i` into what stands before it, the column, and the
/// columns after it.
proof fn lemma_tail_split(widths: AlignWidths, key: Seq<char>, cols: Seq<Seq<char>>, i: int)
    requires
        0 <= i < cols.len(),
    ensures
        cols[0] + aligned_tail(widths, key, cols, 0) == head_before(widths, key, cols, i) + cols[i] + aligned_tail(
            widths,
            key,
            cols,
            i,
        ),
    decreases i,
{
    if i == 0 {
        assert(head_before(widths, key, cols, 0) + cols[0] =~= cols[0]);
    } else {
        lemma_tail_split(widths, key, cols, i - 1);
        let h = head_before(widths, key, cols, i - 1);
        let pad = spaces(column_padding(widths, key, cols, i - 1) as nat);
        assert(aligned_tail(widths, key, cols, i - 1) == pad + cols[i] + aligned_tail(widths, key, cols, i));
        assert(h + cols[i - 1] + (pad + cols[i] + aligned_tail(widths, key, cols, i)) =~= (h + cols[i - 1] + pad) + cols[i]
            + aligned_tail(widths, key, cols, i));
    }
}

/// Column `j` is no wider than its group's width, which is recorded and below the largest
/// `usize`.
pub open spec fn fits_group(widths: AlignWidths, key: Seq<char>, cols: Seq<Seq<char>>, j: int) -> bool {
    &&& widths.width_of(key, j) is Some
    &&& crate::text::byte_len(cols[j]) <= widths.width_of(key, j).unwrap()
    &&& widths.width_of(key, j).unwrap() < usize::MAX
}

/// Doc tag columns align: in a group of aligned lines, column `i` is written after exactly
/// the same number of bytes (from the first column) in every line whose earlier columns fit
/// the group's widths, namely the width of each earlier column and one space.
pub proof fn law_doc_columns_align(widths: AlignWidths, key: Seq<char>, cols: Seq<Seq<char>>, i: int)
    requires
        0 <= i < cols.len(),
        forall|j: int|
            0 <= j < i ==> fits_group(widths, key, cols, j),
    ensures
        cols[0] + aligned_tail(widths, key, cols, 0) == head_before(widths, key, cols, i) + cols[i] + aligned_tail(
            widths,
            key,
            cols,
            i,
        ),
        crate::text::byte_len(head_before(widths, key, cols, i)) == group_offset(widths, key, i),
    decreases i,
{
    lemma_tail_split(widths, key, cols, i);
    if i > 0 {
        law_doc_columns_align(widths, key, cols, i - 1);
        let h = head_before(widths, key, cols, i - 1);
        let pad = column_padding(widths, key, cols, i - 1);
        let w = widths.width_of(key, i - 1).unwrap();
        assert(fits_group(widths, key, cols, i - 1));
        lemma_byte_len_concat(h + cols[i - 1], spaces(pad as nat));
        lemma_byte_len_concat(h, cols[i - 1]);
        lemma_byte_len_spaces(pad as nat);
        assert(crate::text::byte_len_usize(cols[i - 1]) == crate::text::byte_len(cols[i - 1]));
        assert(pad == w - crate::text::byte_len(cols[i - 1]) + 1);
    }
}

/// `prefix`, then, when there are columns, a space and the columns aligned in group `key`.
pub open spec fn aligned_line(widths: AlignWidths, key: Seq<char>, prefix: Seq<char>, cols: Seq<Seq<char>>) -> Seq<char> {
    if cols.len() == 0 {
        prefix
    } else {
        prefix + seq![' '] + cols[0] + aligned_tail(widths, key, cols, 0)
    }
}

/// `prefix`, a space and the columns, each padded to its group's width plus one space.
fn render_aligned_columns(widths: &AlignWidths, key: &[char], prefix: Vec<char>, columns: &Vec<Vec<char>>) -> (r: Vec<char>)
    ensures
        r@ == aligned_line(*widths, key@, prefix@, char_views(columns@)),
{
    let ghost cols = char_views(columns@);
    let ghost prefix_view = prefix@;
    let mut rendered = prefix;
    if columns.len() == 0 {
        return rendered;
    }
    assert(cols.len() == columns@.len());
    assert(cols[0] == columns@[0]@);
    rendered.push(' ');
    push_all(&mut rendered, columns[0].as_slice());
    assert(rendered@ =~= prefix_view + seq![' '] + cols[0]);
    let mut index: usize = 0;
    while index + 1 < columns.len()
        invariant
            index < columns.len(),
            cols == char_views(columns@),
            cols.len() == columns@.len(),
            aligned_line(*widths, key@, prefix@, cols) == rendered@ + aligned_tail(*widths, key@, cols, index as int),
        decreases columns.len() - index,
    {
        let ghost before = rendered@;
        assert(cols[index as int] == columns@[index as int]@);
        assert(cols[index + 1] == columns@[index + 1]@);
        let padding = match widths.width(key, index) {
            Some(w) => w.saturating_sub(utf8_byte_len(columns[index].as_slice())).saturating_add(1),
            None => 1,
        };
        assert(padding == column_padding(*widths, key@, cols, index as int));
        let mut p: usize = 0;
        while p < padding
            invariant
                p <= padding,
                rendered@ == before + spaces(p as nat),
            decreases padding - p,
        {
            rendered.push(' ');
            p = p + 1;
            assert(rendered@ =~= before + spaces(p as nat));
        }
        push_all(&mut rendered, columns[index + 1].as_slice());
        assert(rendered@ + aligned_tail(*widths, key@, cols, index + 1) =~= before + aligned_tail(*widths, key@, cols, index as int));
        index = index + 1;
    }
    assert(aligned_tail(*widths, key@, cols, index as int) =~= Seq::<char>::empty());
    assert(rendered@ + Seq::<char>::empty() =~= rendered@);
    rendered
}

/// A parsed doc line written out: a description line after its prefix (`--- `, `---`, or
/// the replaced prefix; `---` and the gap as written when its spacing is kept), a `---|` line
/// after its marker, a tag line after `---@` and its tag; the columns of an aligned line
/// padded to the widths of its group, or else joined by single spaces.
pub open spec fn doc_line_text(
    space_after_dash: bool,
    space_between_tag_columns: bool,
    line: DocBlockLine,
    widths: AlignWidths,
    prefix_override: Option<Seq<char>>,
) -> Seq<char> {
    match line {
        DocBlockLine::Description(d) => match d.kind {
            DocDescriptionKind::Plain => if d.preserve_spacing {
                "---"@ + d.content@
            } else {
                let prefix = match prefix_override {
                    Some(p) => p,
                    None => if space_after_dash {
                        "--- "@
                    } else {
                        "---"@
                    },
                };
                if d.content@.len() == 0 {
                    trim_end_chars(prefix)
                } else {
                    prefix + d.content@
                }
            },
            DocDescriptionKind::ContinueOr(marker) => {
                let prefix = match d.gap_after_dash {
                    Some(gap) => "---"@ + gap@ + marker@,
                    None => match prefix_override {
                        Some(p) => p,
                        None => (if space_after_dash {
                            "--- "@
                        } else {
                            "---"@
                        }) + marker@,
                    },
                };
                match d.align_key {
                    Some(key) => aligned_line(widths, key@, prefix, char_views(d.columns@)),
                    None => if d.content@.len() == 0 {
                        prefix
                    } else {
                        (if prefix.len() > 0 && prefix.last() == ' ' {
                            prefix
                        } else {
                            prefix + seq![' ']
                        }) + d.content@
                    },
                }
            },
        },
        DocBlockLine::Tag(tag) => {
            let prefix = match tag.gap_after_dash {
                Some(gap) => "---"@ + gap@ + seq!['@'] + tag.tag@,
                None => match prefix_override {
                    Some(p) => p + (if p.contains('@') {
                        Seq::empty()
                    } else {
                        seq!['@']
                    }) + cut_first2(tag.tag@, "@"@, "@"@),
                    None => (if space_between_tag_columns {
                        "--- @"@
                    } else {
                        "---@"@
                    }) + tag.tag@,
                },
            };
            if tag.preserve_body_spacing {
                if tag.raw_rest@.len() == 0 {
                    prefix
                } else {
                    prefix + seq![' '] + tag.raw_rest@
                }
            } else {
                match tag.align_key {
                    None => if tag.columns@.len() == 0 {
                        prefix
                    } else {
                        prefix + seq![' '] + join_words(char_views(tag.columns@))
                    },
                    Some(key) => aligned_line(widths, key@, prefix, char_views(tag.columns@)),
                }
            }
        },
    }
}

/// Writes one parsed line of a doc block, its columns padded to the widths of its group.
fn format_doc_block_line(
    ctx: &FormatContext,
    line: &DocBlockLine,
    widths: &AlignWidths,
    prefix_override: Option<&Vec<char>>,
) -> (r: Vec<char>)
    ensures
        r@ == doc_line_text(
            ctx.config.emmy_doc.space_after_description_dash,
            ctx.config.emmy_doc.space_between_tag_columns,
            *line,
            *widths,
            match prefix_override {
                Some(p) => Some(p@),
                None => None,
            },
        ),
{
    match line {
        DocBlockLine::Description(line) => match &line.kind {
            DocDescriptionKind::Plain => {
                if line.preserve_spacing {
                    let mut r = chars_of("---");
                    push_all(&mut r, line.content.as_slice());
                    r
                } else {
                    let prefix = match prefix_override {
                        Some(p) => dup(p),
                        None => if ctx.config.emmy_doc.space_after_description_dash {
                            chars_of("--- ")
                        } else {
                            chars_of("---")
                        },
                    };
                    if line.content.len() == 0 {
                        trim_end(prefix.as_slice())
                    } else {
                        concat(prefix.as_slice(), line.content.as_slice())
                    }
                }
            },
            DocDescriptionKind::ContinueOr(marker) => {
                let prefix = match &line.gap_after_dash {
                    Some(gap) => {
                        let mut p = chars_of("---");
                        push_all(&mut p, gap.as_slice());
                        push_all(&mut p, marker.as_slice());
                        p
                    },
                    None => match prefix_override {
                        Some(p) => dup(p),
                        None => normalized_doc_continue_marker_prefix(ctx, marker.as_slice()),
                    },
                };
                if let Some(key) = &line.align_key {
                    return render_aligned_columns(widths, key.as_slice(), prefix, &line.columns);
                }
                if line.content.len() == 0 {
                    prefix
                } else {
                    let mut r = prefix;
                    if !(r.len() > 0 && r[r.len() - 1] == ' ') {
                        r.push(' ');
                    }
                    push_all(&mut r, line.content.as_slice());
                    r
                }
            },
        },
        DocBlockLine::Tag(tag) => {
            let prefix = match &tag.gap_after_dash {
                Some(gap) => {
                    let mut p = chars_of("---");
                    push_all(&mut p, gap.as_slice());
                    p.push('@');
                    push_all(&mut p, tag.tag.as_slice());
                    p
                },
                None => match prefix_override {
                    Some(p) => format_doc_tag_prefix_override(p.as_slice(), tag.tag.as_slice()),
                    None => {
                        let mut p = if ctx.config.emmy_doc.space_between_tag_columns {
                            chars_of("--- @")
                        } else {
                            chars_of("---@")
                        };
                        push_all(&mut p, tag.tag.as_slice());
                        p
                    },
                },
            };
            if tag.preserve_body_spacing {
                if tag.raw_rest.len() == 0 {
                    return prefix;
                }
                let mut r = prefix;
                r.push(' ');
                push_all(&mut r, tag.raw_rest.as_slice());
                return r;
            }
            match &tag.align_key {
                None => {
                    if tag.columns.len() == 0 {
                        prefix
                    } else {
                        let mut r = prefix;
                        r.push(' ');
                        assert(tag.columns@.skip(0) =~= tag.columns@);
                        let joined = join_space(tag.columns.as_slice(), 0);
                        push_all(&mut r, joined.as_slice());
                        r
                    }
                },
                Some(key) => render_aligned_columns(widths, key.as_slice(), prefix, &tag.columns),
            }
        },
    }
}

/// The groups of a set of widths as plain values: each key with its column widths.
pub open spec fn entries_view(w: AlignWidths) -> Seq<(Seq<char>, Seq<usize>)> {
    w.entries@.map_values(|e: (Vec<char>, Vec<usize>)| (e.0@, e.1@))
}

/// The position of the first group named `key` among `entries`, from position `i` on.
pub open spec fn key_pos(entries: Seq<(Seq<char>, Seq<usize>)>, key: Seq<char>, i: int) -> Option<int>
    decreases entries.len() - i,
{
    if i < 0 || i >= entries.len() {
        None
    } else if entries[i].0 == key {
        Some(i)
    } else {
        key_pos(entries, key, i + 1)
    }
}

/// Looking a group up by its key finds the same position in the widths and in their plain
/// values.
proof fn lemma_key_pos(w: AlignWidths, key: Seq<char>, i: int)
    ensures
        w.key_from(key, i) == key_pos(entries_view(w), key, i),
    decreases w.entries.len() - i,
{
    if 0 <= i < w.entries.len() {
        lemma_key_pos(w, key, i + 1);
    }
}

/// The groups after a line with columns `cols` in group `key` widened them: the group's widths
/// grow to hold every column but the last, and a new group is added at the end.
pub open spec fn widen_entries(
    entries: Seq<(Seq<char>, Seq<usize>)>,
    key: Seq<char>,
    cols: Seq<Seq<char>>,
) -> Seq<(Seq<char>, Seq<usize>)> {
    let count: int = if cols.len() > 0 {
        cols.len() - 1
    } else {
        0
    };
    match key_pos(entries, key, 0) {
        Some(i) => entries.update(i, (key, widened(entries[i].1, cols, count))),
        None => entries.push((key, widened(Seq::empty(), cols, count))),
    }
}

/// The group and columns by which a line of a doc block takes part in alignment, if it does: a
/// tag line with a key, or a `---|` continuation line with a key.
pub open spec fn line_alignment(line: DocBlockLine) -> Option<(Seq<char>, Seq<Seq<char>>)> {
    match line {
        DocBlockLine::Tag(tag) => match tag.align_key {
            Some(key) => Some((key@, crate::text::char_views(tag.columns@))),
            None => None,
        },
        DocBlockLine::Description(d) => match d.kind {
            DocDescriptionKind::ContinueOr(_) => match d.align_key {
                Some(key) => Some((key@, crate::text::char_views(d.columns@))),
                None => None,
            },
            DocDescriptionKind::Plain => None,
        },
    }
}

/// The groups that the first `n` lines of a doc block give: each aligned line widens its group
/// in turn.
pub open spec fn block_entries(parsed: Seq<DocBlockLine>, n: int) -> Seq<(Seq<char>, Seq<usize>)>
    decreases n,
{
    if n <= 0 || n > parsed.len() {
        Seq::empty()
    } else {
        let before = block_entries(parsed, n - 1);
        match line_alignment(parsed[n - 1]) {
            Some((key, cols)) => widen_entries(before, key, cols),
            None => before,
        }
    }
}

/// Widening a group, as `widen` does it, widens the plain values of the groups alike.
proof fn lemma_widen_view(before: AlignWidths, after: AlignWidths, key: Seq<char>, cols: Seq<Seq<char>>)
    requires
        ({
            let count: int = if cols.len() > 0 { cols.len() - 1 } else { 0 };
            match before.key_from(key, 0) {
                Some(i) => {
                    &&& after.entries@.len() == before.entries@.len()
                    &&& forall|j: int| 0 <= j < before.entries@.len() && j != i ==> #[trigger] after.entries@[j]
                        == before.entries@[j]
                    &&& after.entries@[i].0@ == key
                    &&& after.entries@[i].1@ == widened(before.entries@[i].1@, cols, count)
                },
                None => {
                    &&& after.entries@.len() == before.entries@.len() + 1
                    &&& forall|j: int| 0 <= j < before.entries@.len() ==> #[trigger] after.entries@[j]
                        == before.entries@[j]
                    &&& after.entries@[before.entries@.len() as int].0@ == key
                    &&& after.entries@[before.entries@.len() as int].1@ == widened(Seq::empty(), cols, count)
                },
            }
        }),
    ensures
        entries_view(after) == widen_entries(entries_view(before), key, cols),
{
    lemma_key_pos(before, key, 0);
    before.lemma_key_from(key, 0);
    assert(entries_view(after) =~= widen_entries(entries_view(before), key, cols));
}

/// Replacing a group by one under the same key, or one with another key by one with another
/// key, leaves where each key is found.
proof fn lemma_key_pos_update(
    entries: Seq<(Seq<char>, Seq<usize>)>,
    p: int,
    e: (Seq<char>, Seq<usize>),
    key: Seq<char>,
    s: int,
)
    requires
        0 <= p < entries.len(),
        (entries[p].0 == key) == (e.0 == key),
    ensures
        key_pos(entries.update(p, e), key, s) == key_pos(entries, key, s),
    decreases entries.len() - s,
{
    if 0 <= s < entries.len() {
        lemma_key_pos_update(entries, p, e, key, s + 1);
    }
}

/// A group added at the end is found by its key where no earlier group has that key.
proof fn lemma_key_pos_push(entries: Seq<(Seq<char>, Seq<usize>)>, e: (Seq<char>, Seq<usize>), key: Seq<char>, s: int)
    requires
        0 <= s <= entries.len(),
    ensures
        key_pos(entries.push(e), key, s) == (if key_pos(entries, key, s) is Some {
            key_pos(entries, key, s)
        } else if e.0 == key {
            Some(entries.len() as int)
        } else {
            None
        }),
    decreases entries.len() - s,
{
    let pushed = entries.push(e);
    if s < entries.len() {
        assert(pushed[s] == entries[s]);
        lemma_key_pos_push(entries, e, key, s + 1);
    } else {
        assert(pushed[s] == e);
        assert(key_pos(pushed, key, s + 1) == None::<int>);
    }
}

/// `key_pos` finds a group with that key.
proof fn lemma_key_pos_found(entries: Seq<(Seq<char>, Seq<usize>)>, key: Seq<char>, s: int)
    ensures
        key_pos(entries, key, s) matches Some(i) ==> s <= i < entries.len() && entries[i].0 == key,
    decreases entries.len() - s,
{
    if 0 <= s < entries.len() {
        lemma_key_pos_found(entries, key, s + 1);
    }
}

/// Widening keeps each group where it is found, and its widths only grow.
proof fn lemma_widen_keeps(
    entries: Seq<(Seq<char>, Seq<usize>)>,
    k2: Seq<char>,
    cols2: Seq<Seq<char>>,
    key: Seq<char>,
    c: int,
    floor: usize,
)
    requires
        key_pos(entries, key, 0) matches Some(i) && 0 <= c < entries[i].1.len() && entries[i].1[c] >= floor,
    ensures
        ({
            let after = widen_entries(entries, k2, cols2);
            key_pos(after, key, 0) == key_pos(entries, key, 0) && 0 <= c < after[key_pos(entries, key, 0).unwrap()].1.len()
                && after[key_pos(entries, key, 0).unwrap()].1[c] >= floor
        }),
{
    let count: int = if cols2.len() > 0 {
        cols2.len() - 1
    } else {
        0
    };
    lemma_key_pos_found(entries, key, 0);
    lemma_key_pos_found(entries, k2, 0);
    match key_pos(entries, k2, 0) {
        Some(p) => {
            lemma_key_pos_update(entries, p, (k2, widened(entries[p].1, cols2, count)), key, 0);
        },
        None => {
            lemma_key_pos_push(entries, (k2, widened(Seq::empty(), cols2, count)), key, 0);
        },
    }
}

/// The line's own widening makes its group wide enough for each of its columns but the last.
proof fn lemma_widen_holds(entries: Seq<(Seq<char>, Seq<usize>)>, key: Seq<char>, cols: Seq<Seq<char>>, c: int)
    requires
        0 <= c < cols.len() - 1,
    ensures
        ({
            let after = widen_entries(entries, key, cols);
            key_pos(after, key, 0) matches Some(i) && 0 <= c < after[i].1.len() && after[i].1[c]
                >= crate::text::byte_len_usize(cols[c])
        }),
{
    let count: int = cols.len() - 1;
    lemma_key_pos_found(entries, key, 0);
    match key_pos(entries, key, 0) {
        Some(p) => {
            lemma_key_pos_update(entries, p, (key, widened(entries[p].1, cols, count)), key, 0);
        },
        None => {
            lemma_key_pos_push(entries, (key, widened(Seq::empty(), cols, count)), key, 0);
        },
    }
}

/// The widths of a doc block's groups hold every aligned line: for each column but the last of
/// such a line, its group records a width no smaller than the column's byte length.
pub proof fn law_block_widths_hold_columns(parsed: Seq<DocBlockLine>, n: int, q: int, c: int)
    requires
        0 <= q < n <= parsed.len(),
        line_alignment(parsed[q]) is Some,
        0 <= c < line_alignment(parsed[q]).unwrap().1.len() - 1,
    ensures
        ({
            let key = line_alignment(parsed[q]).unwrap().0;
            let cols = line_alignment(parsed[q]).unwrap().1;
            let entries = block_entries(parsed, n);
            key_pos(entries, key, 0) matches Some(i) && 0 <= c < entries[i].1.len() && entries[i].1[c]
                >= crate::text::byte_len_usize(cols[c])
        }),
    decreases n,
{
    let key = line_alignment(parsed[q]).unwrap().0;
    let cols = line_alignment(parsed[q]).unwrap().1;
    if n == q + 1 {
        lemma_widen_holds(block_entries(parsed, q), key, cols, c);
    } else {
        law_block_widths_hold_columns(parsed, n - 1, q, c);
        match line_alignment(parsed[n - 1]) {
            Some((k2, cols2)) => {
                lemma_widen_keeps(block_entries(parsed, n - 1), k2, cols2, key, c, crate::text::byte_len_usize(cols[c]));
            },
            None => {},
        }
    }
}

/// In a normalized doc block, each column but the last of an aligned line fits the width that
/// its group records in the widths the block was written with.
pub proof fn law_block_line_fits(w: AlignWidths, parsed: Seq<DocBlockLine>, q: int, c: int)
    requires
        entries_view(w) == block_entries(parsed, parsed.len() as int),
        0 <= q < parsed.len(),
        line_alignment(parsed[q]) is Some,
        0 <= c < line_alignment(parsed[q]).unwrap().1.len() - 1,
    ensures
        w.width_of(line_alignment(parsed[q]).unwrap().0, c) matches Some(x) && x >= crate::text::byte_len_usize(
            line_alignment(parsed[q]).unwrap().1[c],
        ),
{
    let key = line_alignment(parsed[q]).unwrap().0;
    law_block_widths_hold_columns(parsed, parsed.len() as int, q, c);
    lemma_key_pos(w, key, 0);
    lemma_key_pos_found(entries_view(w), key, 0);
    let i = key_pos(entries_view(w), key, 0).unwrap();
    assert(entries_view(w).len() == w.entries@.len());
    assert(entries_view(w)[i] == (w.entries@[i].0@, w.entries@[i].1@));
}

/// `out` holds the lines of a doc block normalized: each line is the text of `parsed[q]`, the
/// parse of input line `q`, written with the column widths `w` and its prefix replacement.
pub open spec fn normalized_block(
    config: LuaFormatConfig,
    inputs: Seq<DocBlockLineInput>,
    prefixes: Seq<Option<Seq<char>>>,
    out: Seq<Vec<char>>,
    parsed: Seq<DocBlockLine>,
    w: AlignWidths,
) -> bool {
    &&& parsed.len() == inputs.len()
    &&& out.len() == inputs.len()
    &&& entries_view(w) == block_entries(parsed, parsed.len() as int)
    &&& forall|q: int| 0 <= q < parsed.len() ==> #[trigger] block_line(config, inputs[q], parsed[q])
    &&& forall|q: int|
        0 <= q < out.len() ==> #[trigger] out[q]@ == doc_line_text(
            config.emmy_doc.space_after_description_dash,
            config.emmy_doc.space_between_tag_columns,
            parsed[q],
            w,
            block_prefix(prefixes, q),
        )
}

/// The prefix that replaces the dashes of line `q` of a doc block, if any.
pub open spec fn block_prefix(prefixes: Seq<Option<Seq<char>>>, q: int) -> Option<Seq<char>> {
    if 0 <= q < prefixes.len() {
        prefixes[q]
    } else {
        None
    }
}

/// Normalizes a doc block: each line parsed, `---|` lines of a multi-line alias split at their
/// `#`, then every line written with the columns of its group aligned.
fn normalize_doc_comment_block(
    ctx: &FormatContext,
    line_inputs: &Vec<DocBlockLineInput>,
    prefix_replacements: &Vec<Option<Vec<char>>>,
) -> (r: Vec<Vec<char>>)
    ensures
        r@.len() == line_inputs@.len(),
        exists|parsed: Seq<DocBlockLine>, w: AlignWidths|
            #[trigger] normalized_block(*ctx.config, line_inputs@, opt_views(prefix_replacements@), r@, parsed, w),
{
    let mut parsed: Vec<DocBlockLine> = Vec::new();
    let mut in_alias_block = false;
    let align_alias = ctx.config.should_align_emmy_doc_multiline_alias_descriptions();
    let mut i: usize = 0;
    while i < line_inputs.len()
        invariant
            i <= line_inputs.len(),
            parsed@.len() == i,
            forall|q: int| 0 <= q < i ==> #[trigger] block_line(*ctx.config, line_inputs@[q], parsed@[q]),
        decreases line_inputs.len() - i,
    {
        let line = parse_doc_block_line(ctx, &line_inputs[i]);
        let ghost orig = line;
        let line = match line {
            DocBlockLine::Tag(tag) => {
                in_alias_block = eq_str(tag.tag.as_slice(), "alias");
                DocBlockLine::Tag(tag)
            },
            DocBlockLine::Description(d) => {
                let is_continue = match &d.kind {
                    DocDescriptionKind::ContinueOr(_) => true,
                    DocDescriptionKind::Plain => false,
                };
                let mut d = d;
                if in_alias_block && is_continue && align_alias {
                    let columns = parse_multiline_alias_continue_columns(d.content.as_slice());
                    if columns.len() > 1 {
                        d.align_key = Some(chars_of("alias_multiline_description"));
                        d.columns = columns;
                    }
                }
                if !is_continue {
                    in_alias_block = false;
                }
                DocBlockLine::Description(d)
            },
        };
        proof {
            if let DocBlockLine::Description(d0) = orig {
                assert(parsed_line(*ctx.config, line_inputs@[i as int], DocBlockLine::Description(d0)));
            }
        }
        parsed.push(line);
        i = i + 1;
    }
    let mut widths = AlignWidths { entries: Vec::new() };
    assert(entries_view(widths) =~= block_entries(parsed@, 0));
    let mut j: usize = 0;
    while j < parsed.len()
        invariant
            j <= parsed.len(),
            parsed@.len() == line_inputs@.len(),
            forall|q: int| 0 <= q < parsed@.len() ==> #[trigger] block_line(*ctx.config, line_inputs@[q], parsed@[q]),
            entries_view(widths) == block_entries(parsed@, j as int),
        decreases parsed.len() - j,
    {
        let ghost before = widths;
        match &parsed[j] {
            DocBlockLine::Tag(tag) => {
                if let Some(key) = &tag.align_key {
                    widths.widen(key.as_slice(), &tag.columns);
                    proof {
                        lemma_widen_view(before, widths, key@, crate::text::char_views(tag.columns@));
                    }
                }
            },
            DocBlockLine::Description(line) => {
                if let DocDescriptionKind::ContinueOr(_) = &line.kind {
                    if let Some(key) = &line.align_key {
                        widths.widen(key.as_slice(), &line.columns);
                        proof {
                            lemma_widen_view(before, widths, key@, crate::text::char_views(line.columns@));
                        }
                    }
                }
            },
        }
        j = j + 1;
    }
    let mut out: Vec<Vec<char>> = Vec::new();
    let mut k: usize = 0;
    while k < parsed.len()
        invariant
            k <= parsed.len(),
            out@.len() == k,
            parsed@.len() == line_inputs@.len(),
            forall|q: int| 0 <= q < parsed@.len() ==> #[trigger] block_line(*ctx.config, line_inputs@[q], parsed@[q]),
            forall|q: int|
                0 <= q < k ==> #[trigger] out@[q]@ == doc_line_text(
                    ctx.config.emmy_doc.space_after_description_dash,
                    ctx.config.emmy_doc.space_between_tag_columns,
                    parsed@[q],
                    widths,
                    block_prefix(opt_views(prefix_replacements@), q),
                ),
        decreases parsed.len() - k,
    {
        let prefix: Option<&Vec<char>> = if k < prefix_replacements.len() {
            match &prefix_replacements[k] {
                Some(p) => Some(p),
                None => None,
            }
        } else {
            None
        };
        let line_text = format_doc_block_line(ctx, &parsed[k], &widths, prefix);
        assert(match prefix {
            Some(p) => Some(p@),
            None => None,
        } == block_prefix(opt_views(prefix_replacements@), k as int));
        out.push(line_text);
        k = k + 1;
    }
    assert(normalized_block(*ctx.config, line_inputs@, opt_views(prefix_replacements@), out@, parsed@, widths));
    out
}

/// An optional text.
pub open spec fn opt_view(o: Option<Vec<char>>) -> Option<Seq<char>> {
    match o {
        Some(x) => Some(x@),
        None => None,
    }
}

/// The optional texts of `v`.
pub open spec fn opt_views(v: Seq<Option<Vec<char>>>) -> Seq<Option<Seq<char>>> {
    v.map_values(|o: Option<Vec<char>>| opt_view(o))
}

/// One line of a normal comment, normalized: a line that does not open with exactly two
/// dashes stays as it is once unindented; otherwise the prefix (its replacement, or `-- ` or
/// `--` by the option) is followed by the text after the gap, and `-- [` keeps its space.
pub open spec fn normal_comment_line(space_after_dash: bool, line: Seq<char>, prefix_override: Option<Seq<char>>) -> Seq<char> {
    let t = trim_start_chars(line);
    if !has_prefix(t, "--"@) || has_prefix(t, "---"@) {
        t
    } else {
        let body_with_gap = t.skip(2);
        let prefix = match prefix_override {
            Some(p) => p,
            None => if space_after_dash {
                "-- "@
            } else {
                "--"@
            },
        };
        let body = trim_start_chars(body_with_gap);
        let prefix_trimmed = trim_end_chars(prefix);
        if prefix_trimmed == "--"@ && body_with_gap.len() > 0 && is_space_char(body_with_gap[0])
            && body.len() > 0 && body[0] == '[' {
            "-- "@ + body
        } else if body.len() == 0 {
            prefix_trimmed
        } else {
            prefix + body
        }
    }
}

/// The lines of a normal comment whose text is `raw`, normalized with the prefix replacements
/// of its lines; blank lines of a comment of several lines stay empty.
#[verifier::opaque]
pub open spec fn normal_comment_lines(space_after_dash: bool, raw: Seq<char>, prefixes: Seq<Option<Seq<char>>>) -> Seq<Seq<char>> {
    let lines = lines_of(raw);
    if lines.len() <= 1 {
        seq![normal_comment_line(space_after_dash, raw, if prefixes.len() > 0 { prefixes[0] } else { None })]
    } else {
        Seq::new(
            lines.len(),
            |k: int|
                {
                    let t = trim_start_chars(lines[k]);
                    if t.len() == 0 {
                        Seq::empty()
                    } else {
                        normal_comment_line(space_after_dash, t, if k < prefixes.len() { prefixes[k] } else { None })
                    }
                },
        )
    }
}

/// Normalizes one line of a normal comment: the `--` prefix (or its replacement), then the
/// text after the gap; a `-- [` line keeps a space before the bracket.
fn normalize_single_normal_comment_line(ctx: &FormatContext, line: &[char], prefix_override: Option<&Vec<char>>) -> (r: Vec<char>)
    ensures
        r@ == normal_comment_line(
            ctx.config.comments.space_after_comment_dash,
            line@,
            match prefix_override {
                Some(p) => Some(p@),
                None => None,
            },
        ),
{
    let trimmed = trim_start(line);
    if !starts_with(trimmed.as_slice(), "--") || starts_with(trimmed.as_slice(), "---") {
        return trimmed;
    }
    proof {
        reveal_strlit("--");
        assert(trimmed@.take(2) == "--"@);
    }
    let body_with_gap = slice_chars(trimmed.as_slice(), 2, trimmed.len());
    assert(body_with_gap@ =~= trimmed@.skip(2));
    let prefix = match prefix_override {
        Some(p) => dup(p),
        None => if ctx.config.comments.space_after_comment_dash {
            chars_of("-- ")
        } else {
            chars_of("--")
        },
    };
    let body = trim_start(body_with_gap.as_slice());
    let prefix_trimmed = trim_end(prefix.as_slice());
    if eq_str(prefix_trimmed.as_slice(), "--") && body_with_gap.len() > 0 && char_is_space(
        body_with_gap[0],
    ) && body.len() > 0 && body[0] == '[' {
        let mut r = chars_of("-- ");
        push_all(&mut r, body.as_slice());
        return r;
    }
    if body.len() == 0 {
        prefix_trimmed
    } else {
        concat(prefix.as_slice(), body.as_slice())
    }
}

/// Normalizes a normal comment line by line; blank lines stay empty.
fn normalize_normal_comment_block(ctx: &FormatContext, raw: &[char], prefix_replacements: &Vec<Option<Vec<char>>>) -> (r: Vec<Vec<char>>)
    ensures
        char_views(r@) == normal_comment_lines(
            ctx.config.comments.space_after_comment_dash,
            raw@,
            opt_views(prefix_replacements@),
        ),
{
    proof {
        reveal(normal_comment_lines);
    }
    let ghost prefixes = opt_views(prefix_replacements@);
    let lines = split_lines(raw);
    let first_prefix: Option<&Vec<char>> = if prefix_replacements.len() > 0 {
        match &prefix_replacements[0] {
            Some(p) => Some(p),
            None => None,
        }
    } else {
        None
    };
    assert(char_views(lines@).len() == lines@.len());
    if lines.len() <= 1 {
        let one = normalize_single_normal_comment_line(ctx, raw, first_prefix);
        let r = vec![one];
        assert(char_views(r@) =~= seq![one@]);
        return r;
    }
    let ghost want = normal_comment_lines(ctx.config.comments.space_after_comment_dash, raw@, prefixes);
    let mut out: Vec<Vec<char>> = Vec::new();
    let mut index: usize = 0;
    while index < lines.len()
        invariant
            index <= lines.len(),
            lines.len() > 1,
            char_views(lines@) == lines_of(raw@),
            prefixes == opt_views(prefix_replacements@),
            want == normal_comment_lines(ctx.config.comments.space_after_comment_dash, raw@, prefixes),
            char_views(out@) == want.take(index as int),
        decreases lines.len() - index,
    {
        proof {
            reveal(normal_comment_lines);
        }
        let ghost before = out@;
        assert(lines_of(raw@)[index as int] == lines@[index as int]@);
        let trimmed = trim_start(lines[index].as_slice());
        if trimmed.len() == 0 {
            out.push(Vec::new());
        } else {
            let prefix: Option<&Vec<char>> = if index < prefix_replacements.len() {
                match &prefix_replacements[index] {
                    Some(p) => Some(p),
                    None => None,
                }
            } else {
                None
            };
            out.push(normalize_single_normal_comment_line(ctx, trimmed.as_slice(), prefix));
        }
        assert(char_views(out@) =~= want.take(index + 1)) by {
            assert(char_views(out@) =~= char_views(before).push(out@[index as int]@));
        }
        index = index + 1;
    }
    assert(want.take(index as int) =~= want);
    out
}

/// Line `l` is blank or starts with `---` after its indentation.
pub open spec fn is_doc_line_or_blank(l: Seq<char>) -> bool {
    trim_start_chars(l).len() == 0 || has_prefix(trim_start_chars(l), "---"@)
}

/// Every non-blank line of `raw` starts with `---` after its indentation.
#[verifier::opaque]
pub open spec fn is_doc_block_text(raw: Seq<char>) -> bool {
    forall|k: int| 0 <= k < lines_of(raw).len() ==> is_doc_line_or_blank(#[trigger] lines_of(raw)[k])
}

/// Line `l` is a `---@type` line that carries a ` --` comment.
pub open spec fn is_commented_type_line(l: Seq<char>) -> bool {
    let t = trim_start_chars(l);
    (has_prefix(t, "---@type"@) || has_prefix(t, "--- @type"@)) && has_space_dashes(t)
}

/// Some line of `raw` is a `---@type` line that carries a ` --` comment.
#[verifier::opaque]
pub open spec fn has_commented_type_line(raw: Seq<char>) -> bool {
    exists|k: int| 0 <= k < lines_of(raw).len() && is_commented_type_line(#[trigger] lines_of(raw)[k])
}

/// Every non-blank line of `raw` starts with `---` after its indentation.
fn is_pure_doc_comment_block(raw: &[char]) -> (r: bool)
    ensures
        r == is_doc_block_text(raw@),
{
    proof {
        reveal(is_doc_block_text);
    }
    let lines = split_lines(raw);
    let mut i: usize = 0;
    while i < lines.len()
        invariant
            i <= lines.len(),
            char_views(lines@) == lines_of(raw@),
            forall|k: int| 0 <= k < i ==> is_doc_line_or_blank(#[trigger] lines_of(raw@)[k]),
        decreases lines.len() - i,
    {
        proof {
            reveal(is_doc_block_text);
        }
        assert(lines_of(raw@)[i as int] == lines@[i as int]@);
        let t = trim_start(lines[i].as_slice());
        if t.len() > 0 && !starts_with(t.as_slice(), "---") {
            return false;
        }
        i = i + 1;
    }
    assert(lines_of(raw@).len() == lines@.len());
    true
}

/// A doc block with a `---@type` line that carries a ` --` comment is written as it stands.
fn should_preserve_doc_comment_block_raw(raw: &[char]) -> (r: bool)
    ensures
        r == has_commented_type_line(raw@),
{
    proof {
        reveal(has_commented_type_line);
    }
    let lines = split_lines(raw);
    let mut i: usize = 0;
    while i < lines.len()
        invariant
            i <= lines.len(),
            char_views(lines@) == lines_of(raw@),
            forall|k: int| 0 <= k < i ==> !is_commented_type_line(#[trigger] lines_of(raw@)[k]),
        decreases lines.len() - i,
    {
        proof {
            reveal(has_commented_type_line);
        }
        assert(lines_of(raw@)[i as int] == lines@[i as int]@);
        let t = trim_start(lines[i].as_slice());
        if (starts_with(t.as_slice(), "---@type") || starts_with(t.as_slice(), "--- @type"))
            && contains_space_dashes(t.as_slice()) {
            return true;
        }
        i = i + 1;
    }
    assert(lines_of(raw@).len() == lines@.len());
    false
}

/// ` --` occurs in `s`.
pub open spec fn has_space_dashes(s: Seq<char>) -> bool {
    exists|i: int| 0 <= i && i + 2 < s.len() && #[trigger] s[i] == ' ' && s[i + 1] == '-' && s[i + 2] == '-'
}

/// Whether ` --` occurs in `s`.
fn contains_space_dashes(s: &[char]) -> (r: bool)
    ensures
        r == has_space_dashes(s@),
{
    let mut i: usize = 0;
    while i < s.len()
        invariant
            i <= s.len(),
            forall|j: int| 0 <= j < i ==> !(j + 2 < s@.len() && #[trigger] s@[j] == ' ' && s@[j + 1] == '-' && s@[j + 2] == '-'),
        decreases s.len() - i,
    {
        if s.len() - i > 2 && s[i] == ' ' && s[i + 1] == '-' && s[i + 2] == '-' {
            return true;
        }
        i = i + 1;
    }
    false
}


/// The tokens among the elements from `lo` up to `hi`, in order.
pub open spec fn tokens_upto(tree: &SyntaxTree, lo: int, hi: int) -> Seq<usize>
    decreases hi - lo,
{
    if hi <= lo {
        Seq::empty()
    } else {
        let rest = tokens_upto(tree, lo, hi - 1);
        if !tree.elems@[hi - 1].is_node {
            rest.push((hi - 1) as usize)
        } else {
            rest
        }
    }
}

/// The tokens of the subtree of element `c`, in order.
pub open spec fn subtree_token_seq(tree: &SyntaxTree, c: int) -> Seq<usize> {
    tokens_upto(tree, c + 1, tree.elems@[c].end as int)
}

/// The tokens of the subtree of element `c`, in source order.
fn subtree_tokens(tree: &SyntaxTree, c: usize) -> (r: Vec<usize>)
    requires
        tree.wf(),
        c < tree.elems.len(),
    ensures
        forall|k: int| 0 <= k < r@.len() ==> #[trigger] r@[k] < tree.elems.len(),
        r@ == subtree_token_seq(tree, c as int),
{
    let end = tree.elems[c].end;
    let mut out: Vec<usize> = Vec::new();
    let mut pos = c + 1;
    while pos < end
        invariant
            tree.wf(),
            c < tree.elems.len(),
            end == tree.elems@[c as int].end,
            end <= tree.elems.len(),
            c + 1 <= pos <= end,
            forall|k: int| 0 <= k < out@.len() ==> #[trigger] out@[k] < tree.elems.len(),
            out@ == tokens_upto(tree, c + 1, pos as int),
        decreases end - pos,
    {
        if !tree.elems[pos].is_node {
            out.push(pos);
        }
        pos = pos + 1;
    }
    out
}

/// The text comment token `t` is written as: its replacement, or its source text.
pub open spec fn comment_token_chars(spacing: &RootSpacingModel, tree: &SyntaxTree, t: int) -> Seq<char> {
    if spacing.replace_map().contains_key(tree.spec_id(t)) {
        spacing.replace_map()[tree.spec_id(t)]@
    } else {
        tree.spec_text(t)
    }
}

/// Kinds of the tokens that open a comment line.
pub open spec fn is_comment_prefix_kind(k: u16) -> bool {
    k == TK_NORMAL_START || k == TK_DOC_START || k == TK_DOC_CONTINUE || k == TK_DOC_CONTINUE_OR
}

/// The walk over the first `i` of the tokens `toks` of a comment: the prefixes of the lines
/// ended so far, the prefix of the current line, and whether the current line has a token yet.
pub open spec fn prefix_scan(spacing: &RootSpacingModel, tree: &SyntaxTree, toks: Seq<usize>, i: int) -> (Seq<Option<Seq<char>>>, Option<Seq<char>>, bool)
    decreases i,
{
    if i <= 0 {
        (Seq::empty(), None, false)
    } else {
        let prev = prefix_scan(spacing, tree, toks, i - 1);
        let t = toks[i - 1] as int;
        let k = tree.elems@[t].kind;
        if k == TK_WHITESPACE {
            prev
        } else if k == TK_END_OF_LINE {
            (prev.0.push(prev.1), None, false)
        } else if !prev.2 {
            (
                prev.0,
                if is_comment_prefix_kind(k) {
                    Some(comment_token_chars(spacing, tree, t))
                } else {
                    None
                },
                true,
            )
        } else {
            prev
        }
    }
}

/// For each line of comment `c`, the text its opening prefix token is written as, when the
/// line opens with one.
#[verifier::opaque]
pub open spec fn comment_line_prefixes(spacing: &RootSpacingModel, tree: &SyntaxTree, c: int) -> Seq<Option<Seq<char>>> {
    let toks = subtree_token_seq(tree, c);
    let end = prefix_scan(spacing, tree, toks, toks.len() as int);
    if end.2 || end.1 is Some {
        end.0.push(end.1)
    } else {
        end.0
    }
}

/// The text a comment token is written as: its replacement, or its source text.
fn comment_token_text(spacing: &RootSpacingModel, tree: &SyntaxTree, t: usize) -> (r: Vec<char>)
    requires
        tree.wf(),
        spacing.wf(),
        t < tree.elems.len(),
    ensures
        r@ == comment_token_chars(spacing, tree, t as int),
{
    match spacing.token_replace(tree.id(t)) {
        Some(s) => chars_of(s),
        None => tree.text_of(t),
    }
}

/// The prefix written for a line that opens with token `t`, for prefix tokens.
fn comment_prefix_replacement_for_token(spacing: &RootSpacingModel, tree: &SyntaxTree, t: usize) -> (r: Option<Vec<char>>)
    requires
        tree.wf(),
        spacing.wf(),
        t < tree.elems.len(),
    ensures
        match r {
            Some(x) => is_comment_prefix_kind(tree.elems@[t as int].kind) && x@ == comment_token_chars(spacing, tree, t as int),
            None => !is_comment_prefix_kind(tree.elems@[t as int].kind),
        },
{
    let k = tree.elems[t].kind;
    if k == TK_NORMAL_START || k == TK_DOC_START || k == TK_DOC_CONTINUE || k == TK_DOC_CONTINUE_OR {
        Some(comment_token_text(spacing, tree, t))
    } else {
        None
    }
}

/// For each line of comment `c`, the replacement of the prefix token that opens it.
fn collect_comment_line_prefix_replacements(spacing: &RootSpacingModel, tree: &SyntaxTree, c: usize) -> (r: Vec<Option<Vec<char>>>)
    requires
        tree.wf(),
        spacing.wf(),
        c < tree.elems.len(),
    ensures
        opt_views(r@) == comment_line_prefixes(spacing, tree, c as int),
{
    proof {
        reveal(comment_line_prefixes);
    }
    let tokens = subtree_tokens(tree, c);
    let mut line_prefixes: Vec<Option<Vec<char>>> = Vec::new();
    let mut current: Option<Vec<char>> = None;
    let mut saw_token_on_line = false;
    let mut i: usize = 0;
    while i < tokens.len()
        invariant
            tree.wf(),
            spacing.wf(),
            i <= tokens.len(),
            tokens@ == subtree_token_seq(tree, c as int),
            forall|k: int| 0 <= k < tokens@.len() ==> #[trigger] tokens@[k] < tree.elems.len(),
            prefix_scan(spacing, tree, tokens@, i as int) == (
                opt_views(line_prefixes@),
                opt_view(current),
                saw_token_on_line,
            ),
        decreases tokens.len() - i,
    {
        let ghost before = line_prefixes@;
        let t = tokens[i];
        let k = tree.elems[t].kind;
        if k == TK_WHITESPACE {
        } else if k == TK_END_OF_LINE {
            let ghost cv = opt_view(current);
            line_prefixes.push(current);
            assert(opt_views(line_prefixes@) =~= opt_views(before).push(cv));
            current = None;
            saw_token_on_line = false;
        } else if !saw_token_on_line {
            current = comment_prefix_replacement_for_token(spacing, tree, t);
            saw_token_on_line = true;
        }
        i = i + 1;
    }
    if saw_token_on_line || current.is_some() {
        let ghost before = line_prefixes@;
        let ghost cv = opt_view(current);
        line_prefixes.push(current);
        assert(opt_views(line_prefixes@) =~= opt_views(before).push(cv));
    }
    line_prefixes
}

/// Tag keywords after which one space is kept.
fn is_doc_tag_keyword_kind(k: u16) -> (r: bool)
    ensures
        r == (k == TK_TAG_CLASS || k == TK_TAG_ALIAS || k == TK_TAG_FIELD || k == TK_TAG_TYPE || k
            == TK_TAG_PARAM || k == TK_TAG_RETURN || k == TK_TAG_GENERIC || k == TK_TAG_OVERLOAD || k
            == TK_TAG_VERSION),
{
    k == TK_TAG_CLASS || k == TK_TAG_ALIAS || k == TK_TAG_FIELD || k == TK_TAG_TYPE || k
        == TK_TAG_PARAM || k == TK_TAG_RETURN || k == TK_TAG_GENERIC || k == TK_TAG_OVERLOAD || k
        == TK_TAG_VERSION
}

/// The spaces that a spacing decision leaves between two comment tokens.
fn resolve_comment_spacing_expected(expected: &TokenSpacingExpected, had_source_whitespace: bool) -> (r: usize)
    ensures
        r == match *expected {
            TokenSpacingExpected::Space(n) => n,
            TokenSpacingExpected::MaxSpace(n) => if had_source_whitespace && n >= 1 {
                1
            } else if had_source_whitespace {
                n
            } else {
                0
            },
        },
{
    match expected {
        TokenSpacingExpected::Space(count) => *count,
        TokenSpacingExpected::MaxSpace(count) => {
            if had_source_whitespace {
                if *count < 1 {
                    *count
                } else {
                    1
                }
            } else {
                0
            }
        },
    }
}

/// The spaces between two tokens of a comment line: one after a tag keyword or a visibility
/// before `[` when the source had some, else the spacing plan, else one where the source had
/// white space.
fn comment_spacing_between_tokens(
    spacing: &RootSpacingModel,
    tree: &SyntaxTree,
    previous: Option<usize>,
    current: usize,
    had_source_whitespace: bool,
) -> (r: usize)
    requires
        tree.wf(),
        spacing.wf(),
        current < tree.elems.len(),
        previous matches Some(p) ==> p < tree.elems.len(),
    ensures
        r == comment_gap(spacing, tree, previous, current as int, had_source_whitespace),
{
    if had_source_whitespace {
        if let Some(p) = previous {
            let pk = tree.elems[p].kind;
            if is_doc_tag_keyword_kind(pk) {
                return 1;
            }
            if tree.elems[current].kind == TK_LEFT_BRACKET && (pk == TK_DOC_VISIBILITY || pk
                == TK_TAG_VISIBILITY) {
                return 1;
            }
        }
    }
    if let Some(expected) = spacing.left_expected(tree.id(current)) {
        return resolve_comment_spacing_expected(expected, had_source_whitespace);
    }
    if let Some(p) = previous {
        if let Some(expected) = spacing.right_expected(tree.id(p)) {
            return resolve_comment_spacing_expected(expected, had_source_whitespace);
        }
    }
    if had_source_whitespace {
        1
    } else {
        0
    }
}

/// The spaces between two tokens of a comment line. Where the source had white space, one after
/// a tag keyword and one between a visibility word and `[`. Otherwise the spacing plan's
/// decision before `current`, else its decision after `previous`, resolved against the source;
/// without one, a space where the source had white space.
pub open spec fn comment_gap(
    spacing: &RootSpacingModel,
    tree: &SyntaxTree,
    previous: Option<usize>,
    current: int,
    had: bool,
) -> usize {
    let resolve = |e: TokenSpacingExpected|
        match e {
            TokenSpacingExpected::Space(n) => n,
            TokenSpacingExpected::MaxSpace(n) => if had && n >= 1 {
                1
            } else if had {
                n
            } else {
                0
            },
        };
    let tag_gap = had && match previous {
        Some(p) => {
            let pk = tree.elems@[p as int].kind;
            (pk == TK_TAG_CLASS || pk == TK_TAG_ALIAS || pk == TK_TAG_FIELD || pk == TK_TAG_TYPE || pk == TK_TAG_PARAM
                || pk == TK_TAG_RETURN || pk == TK_TAG_GENERIC || pk == TK_TAG_OVERLOAD || pk == TK_TAG_VERSION) || (
            tree.elems@[current].kind == TK_LEFT_BRACKET && (pk == TK_DOC_VISIBILITY || pk == TK_TAG_VISIBILITY))
        },
        None => false,
    };
    let lid = tree.spec_id(current);
    if tag_gap {
        1
    } else if spacing.left_map().contains_key(lid) {
        resolve(spacing.left_map()[lid])
    } else if previous matches Some(p) && spacing.right_map().contains_key(tree.spec_id(p as int)) {
        resolve(spacing.right_map()[tree.spec_id(previous.unwrap() as int)])
    } else if had {
        1
    } else {
        0
    }
}

/// A comment line rebuilt from its tokens with the spacing plan's gaps.
fn normalize_comment_line_with_spacing(spacing: &RootSpacingModel, tree: &SyntaxTree, tokens: &Vec<usize>) -> (r: Option<Vec<char>>)
    requires
        tree.wf(),
        spacing.wf(),
        forall|k: int| 0 <= k < tokens@.len() ==> #[trigger] tokens@[k] < tree.elems.len(),
    ensures
        match r {
            Some(v) => v@ == line_fold(spacing, tree, tokens@).0 && v@.len() > 0,
            None => line_fold(spacing, tree, tokens@).0.len() == 0,
        },
{
    let mut out: Vec<char> = Vec::new();
    let mut previous: Option<usize> = None;
    let mut saw_whitespace = false;
    let mut i: usize = 0;
    while i < tokens.len()
        invariant
            tree.wf(),
            spacing.wf(),
            i <= tokens@.len(),
            forall|k: int| 0 <= k < tokens@.len() ==> #[trigger] tokens@[k] < tree.elems.len(),
            previous matches Some(p) ==> p < tree.elems.len(),
            line_fold(spacing, tree, tokens@.take(i as int)) == (out@, previous, saw_whitespace),
        decreases tokens.len() - i,
    {
        let t = tokens[i];
        assert(tokens@.take(i + 1).drop_last() == tokens@.take(i as int));
        assert(tokens@.take(i + 1).last() == t);
        if tree.elems[t].kind == TK_WHITESPACE {
            saw_whitespace = out.len() > 0;
        } else {
            let ghost before = out@;
            let had_out = out.len() > 0;
            if had_out {
                let n = comment_spacing_between_tokens(spacing, tree, previous, t, saw_whitespace);
                let mut k: usize = 0;
                while k < n
                    invariant
                        k <= n,
                        out@ == before + Seq::new(k as nat, |q: int| ' '),
                    decreases n - k,
                {
                    out.push(' ');
                    assert(Seq::new((k + 1) as nat, |q: int| ' ') =~= Seq::new(k as nat, |q: int| ' ').push(' '));
                    k = k + 1;
                }
            }
            let text = comment_token_text(spacing, tree, t);
            push_all(&mut out, text.as_slice());
            previous = Some(t);
            saw_whitespace = false;
            proof {
                if !had_out {
                    assert(before + Seq::<char>::empty() =~= before);
                }
            }
        }
        i = i + 1;
    }
    assert(tokens@.take(tokens@.len() as int) == tokens@);
    if out.len() > 0 {
        Some(out)
    } else {
        None
    }
}

/// What a comment line is rebuilt into from `toks`, with the last non-blank token written and
/// whether white space followed it: each non-blank token's text, after the first preceded by
/// the gap that [`comment_gap`] gives.
pub open spec fn line_fold(spacing: &RootSpacingModel, tree: &SyntaxTree, toks: Seq<usize>) -> (Seq<char>, Option<usize>, bool)
    decreases toks.len(),
{
    if toks.len() == 0 {
        (Seq::empty(), None, false)
    } else {
        let prev_state = line_fold(spacing, tree, toks.drop_last());
        let out = prev_state.0;
        let t = toks.last();
        if tree.elems@[t as int].kind == TK_WHITESPACE {
            (out, prev_state.1, out.len() > 0)
        } else {
            let gap = if out.len() > 0 {
                Seq::new(comment_gap(spacing, tree, prev_state.1, t as int, prev_state.2) as nat, |q: int| ' ')
            } else {
                Seq::empty()
            };
            (out + gap + comment_token_chars(spacing, tree, t as int), Some(t), false)
        }
    }
}

/// Each line of comment `c` rebuilt with the spacing plan's gaps.
fn collect_comment_line_spacing_normalized_texts(spacing: &RootSpacingModel, tree: &SyntaxTree, c: usize) -> (r: Vec<Option<Vec<char>>>)
    requires
        tree.wf(),
        spacing.wf(),
        c < tree.elems.len(),
    ensures
        r@.len() == comment_token_lines(tree, subtree_token_seq(tree, c as int)).len(),
        forall|i: int|
            0 <= i < r@.len() ==> match #[trigger] r@[i] {
                Some(v) => v@ == line_fold(spacing, tree, comment_token_lines(tree, subtree_token_seq(tree, c as int))[i]).0,
                None => line_fold(spacing, tree, comment_token_lines(tree, subtree_token_seq(tree, c as int))[i]).0.len() == 0,
            },
{
    let tokens = subtree_tokens(tree, c);
    let mut lines: Vec<Option<Vec<char>>> = Vec::new();
    let mut current: Vec<usize> = Vec::new();
    let mut i: usize = 0;
    while i < tokens.len()
        invariant
            tree.wf(),
            spacing.wf(),
            i <= tokens@.len(),
            forall|k: int| 0 <= k < tokens@.len() ==> #[trigger] tokens@[k] < tree.elems.len(),
            forall|k: int| 0 <= k < current@.len() ==> #[trigger] current@[k] < tree.elems.len(),
            eol_split(tree, tokens@.take(i as int)).1 == current@,
            lines@.len() == eol_split(tree, tokens@.take(i as int)).0.len(),
            forall|q: int|
                0 <= q < lines@.len() ==> match #[trigger] lines@[q] {
                    Some(v) => v@ == line_fold(spacing, tree, eol_split(tree, tokens@.take(i as int)).0[q]).0,
                    None => line_fold(spacing, tree, eol_split(tree, tokens@.take(i as int)).0[q]).0.len() == 0,
                },
        decreases tokens.len() - i,
    {
        let t = tokens[i];
        assert(tokens@.take(i + 1).drop_last() == tokens@.take(i as int));
        assert(tokens@.take(i + 1).last() == t);
        if tree.elems[t].kind == TK_END_OF_LINE {
            let line = normalize_comment_line_with_spacing(spacing, tree, &current);
            lines.push(line);
            current = Vec::new();
        } else {
            current.push(t);
        }
        i = i + 1;
    }
    assert(tokens@.take(tokens@.len() as int) == tokens@);
    if current.len() > 0 {
        let line = normalize_comment_line_with_spacing(spacing, tree, &current);
        lines.push(line);
    }
    lines
}

/// Splits a comment's tokens at its line breaks: the lines closed so far and the tokens of
/// the line still open.
pub open spec fn eol_split(tree: &SyntaxTree, toks: Seq<usize>) -> (Seq<Seq<usize>>, Seq<usize>)
    decreases toks.len(),
{
    if toks.len() == 0 {
        (Seq::empty(), Seq::empty())
    } else {
        let prev = eol_split(tree, toks.drop_last());
        let t = toks.last();
        if tree.elems@[t as int].kind == TK_END_OF_LINE {
            (prev.0.push(prev.1), Seq::empty())
        } else {
            (prev.0, prev.1.push(t))
        }
    }
}

/// The tokens of each line of a comment, without the line breaks; a last line without tokens
/// is left out.
pub open spec fn comment_token_lines(tree: &SyntaxTree, toks: Seq<usize>) -> Seq<Seq<usize>> {
    let s = eol_split(tree, toks);
    if s.1.len() > 0 {
        s.0.push(s.1)
    } else {
        s.0
    }
}

/// For each of the `raw_line_count` lines of comment `c`, the kind of its opening token.
fn collect_doc_line_prefix_kinds(tree: &SyntaxTree, c: usize, raw_line_count: usize) -> (r: Vec<DocLinePrefixKind>)
    requires
        tree.wf(),
        c < tree.elems.len(),
    ensures
        r@.len() == raw_line_count,
        forall|n: int|
            0 <= n < raw_line_count ==> #[trigger] r@[n] == line_prefix_kind(tree, line_at(tree, subtree_token_seq(tree, c as int), n)),
{
    let mut kinds: Vec<DocLinePrefixKind> = Vec::new();
    let mut n: usize = 0;
    while n < raw_line_count
        invariant
            kinds@.len() == n,
            n <= raw_line_count,
            forall|q: int| 0 <= q < n ==> #[trigger] kinds@[q] == DocLinePrefixKind::Unknown,
        decreases raw_line_count - n,
    {
        kinds.push(DocLinePrefixKind::Unknown);
        n = n + 1;
    }
    let tokens = subtree_tokens(tree, c);
    let mut current_line: usize = 0;
    let mut saw_non_whitespace = false;
    let mut i: usize = 0;
    while i < tokens.len()
        invariant
            tree.wf(),
            i <= tokens@.len(),
            kinds@.len() == raw_line_count,
            forall|k: int| 0 <= k < tokens@.len() ==> #[trigger] tokens@[k] < tree.elems.len(),
            current_line as int == eol_split(tree, tokens@.take(i as int)).0.len(),
            current_line <= i,
            saw_non_whitespace == has_non_blank(tree, eol_split(tree, tokens@.take(i as int)).1),
            forall|q: int|
                0 <= q < raw_line_count ==> #[trigger] kinds@[q] == line_prefix_kind(tree, line_at(tree, tokens@.take(i as int), q)),
        decreases tokens.len() - i,
    {
        let t = tokens[i];
        let ghost pre = tokens@.take(i as int);
        assert(tokens@.take(i + 1).drop_last() == pre);
        assert(tokens@.take(i + 1).last() == t);
        let k = tree.elems[t].kind;
        if k == TK_END_OF_LINE {
            current_line = current_line.saturating_add(1);
            saw_non_whitespace = false;
        } else if k == TK_WHITESPACE {
        } else if !saw_non_whitespace {
            let kind = if k == TK_DOC_START || k == TK_DOC_LONG_START {
                Some(DocLinePrefixKind::Start)
            } else if k == TK_DOC_CONTINUE {
                Some(DocLinePrefixKind::Continue)
            } else if k == TK_DOC_CONTINUE_OR {
                Some(DocLinePrefixKind::ContinueOr)
            } else {
                None
            };
            if let Some(pk) = kind {
                if current_line < kinds.len() {
                    kinds.set(current_line, pk);
                }
            }
            saw_non_whitespace = true;
        } else {
            saw_non_whitespace = true;
        }
        proof {
            let post = tokens@.take(i + 1);
            assert forall|q: int| 0 <= q < raw_line_count implies #[trigger] kinds@[q] == line_prefix_kind(tree, line_at(tree, post, q)) by {
                let sp = eol_split(tree, pre);
                if k != TK_END_OF_LINE && q == sp.0.len() {
                    assert(line_at(tree, post, q) == sp.1.push(t));
                    assert(sp.1.push(t).drop_last() == sp.1);
                } else if k != TK_END_OF_LINE {
                    assert(line_at(tree, post, q) == line_at(tree, pre, q));
                } else {
                    assert(line_at(tree, post, q) == line_at(tree, pre, q) || q > sp.0.len());
                }
            }
            if k != TK_END_OF_LINE {
                let sp = eol_split(tree, pre);
                assert(sp.1.push(t).drop_last() == sp.1);
                assert(has_non_blank(tree, sp.1.push(t)) == (has_non_blank(tree, sp.1) || k != TK_WHITESPACE)) by {
                    if has_non_blank(tree, sp.1) {
                        let j = choose|j: int| 0 <= j < sp.1.len() && tree.elems@[sp.1[j] as int].kind != TK_WHITESPACE;
                        assert(sp.1.push(t)[j] == sp.1[j]);
                    }
                    if k != TK_WHITESPACE {
                        assert(sp.1.push(t)[sp.1.len() as int] == t);
                    }
                    if has_non_blank(tree, sp.1.push(t)) && k == TK_WHITESPACE {
                        let j = choose|j: int| 0 <= j < sp.1.push(t).len() && tree.elems@[sp.1.push(t)[j] as int].kind != TK_WHITESPACE;
                        assert(j < sp.1.len());
                        assert(sp.1[j] == sp.1.push(t)[j]);
                    }
                }
            } else {
                assert(!has_non_blank(tree, Seq::<usize>::empty()));
            }
        }
        i = i + 1;
    }
    assert(tokens@.take(tokens@.len() as int) == tokens@);
    kinds
}

/// Some token of `line` is not white space.
pub open spec fn has_non_blank(tree: &SyntaxTree, line: Seq<usize>) -> bool {
    exists|j: int| 0 <= j < line.len() && tree.elems@[line[j] as int].kind != TK_WHITESPACE
}

/// The tokens of line `n` of a comment whose tokens are `toks`, line breaks left out.
pub open spec fn line_at(tree: &SyntaxTree, toks: Seq<usize>, n: int) -> Seq<usize> {
    let s = eol_split(tree, toks);
    if 0 <= n < s.0.len() {
        s.0[n]
    } else if n == s.0.len() {
        s.1
    } else {
        Seq::empty()
    }
}

/// The prefix kind of a doc comment line: what its first token that is not white space opens.
pub open spec fn line_prefix_kind(tree: &SyntaxTree, line: Seq<usize>) -> DocLinePrefixKind
    decreases line.len(),
{
    if line.len() == 0 {
        DocLinePrefixKind::Unknown
    } else if has_non_blank(tree, line.drop_last()) {
        line_prefix_kind(tree, line.drop_last())
    } else {
        let k = tree.elems@[line.last() as int].kind;
        if k == TK_DOC_START || k == TK_DOC_LONG_START {
            DocLinePrefixKind::Start
        } else if k == TK_DOC_CONTINUE {
            DocLinePrefixKind::Continue
        } else if k == TK_DOC_CONTINUE_OR {
            DocLinePrefixKind::ContinueOr
        } else {
            DocLinePrefixKind::Unknown
        }
    }
}

/// `input` describes line `q` of doc comment `c`, whose text is `raw`: the line as written, its
/// text as spacing normalizes it (from `normalized`), and the kind of its prefix.
pub open spec fn doc_input_of(
    tree: &SyntaxTree,
    c: int,
    raw: Seq<char>,
    normalized: Seq<Option<Vec<char>>>,
    q: int,
    input: DocBlockLineInput,
) -> bool {
    &&& input.raw_line@ == lines_of(raw)[q]
    &&& opt_view(input.normalized_line) == (if q < normalized.len() {
        opt_view(normalized[q])
    } else {
        None
    })
    &&& input.prefix_kind == line_prefix_kind(tree, line_at(tree, subtree_token_seq(tree, c), q))
}

/// The inputs of each line of doc comment `c` whose text, trailing blanks dropped, is `raw`.
fn collect_doc_block_line_inputs(
    ctx: &FormatContext,
    tree: &SyntaxTree,
    c: usize,
    raw: &[char],
    normalized_lines: &Vec<Option<Vec<char>>>,
) -> (r: Vec<DocBlockLineInput>)
    requires
        tree.wf(),
        c < tree.elems.len(),
    ensures
        r@.len() == lines_of(raw@).len(),
        forall|q: int| 0 <= q < r@.len() ==> #[trigger] doc_input_of(tree, c as int, raw@, normalized_lines@, q, r@[q]),
{
    let raw_lines = split_lines(raw);
    let prefix_kinds = collect_doc_line_prefix_kinds(tree, c, raw_lines.len());
    let mut structured = crate::doc_tags::collect_structured_doc_tag_columns_by_line(
        ctx,
        tree,
        c,
        raw,
        raw_lines.len(),
    );
    let mut inputs: Vec<DocBlockLineInput> = Vec::new();
    let mut index: usize = 0;
    assert(char_views(raw_lines@).len() == raw_lines@.len());
    while index < raw_lines.len()
        invariant
            index <= raw_lines.len(),
            inputs@.len() == index,
            char_views(raw_lines@) == lines_of(raw@),
            prefix_kinds@.len() == raw_lines@.len(),
            forall|n: int|
                0 <= n < raw_lines@.len() ==> #[trigger] prefix_kinds@[n] == line_prefix_kind(
                    tree,
                    line_at(tree, subtree_token_seq(tree, c as int), n),
                ),
            forall|q: int| 0 <= q < index ==> #[trigger] doc_input_of(tree, c as int, raw@, normalized_lines@, q, inputs@[q]),
        decreases raw_lines.len() - index,
    {
        let normalized_line = if index < normalized_lines.len() {
            dup_opt(&normalized_lines[index])
        } else {
            None
        };
        let structured_tag = if index < structured.len() {
            let mut slot: Option<StructuredDocTagColumns> = None;
            structured.set_and_swap(index, &mut slot);
            slot
        } else {
            None
        };
        let prefix_kind = if index < prefix_kinds.len() {
            prefix_kinds[index]
        } else {
            DocLinePrefixKind::Unknown
        };
        let input = DocBlockLineInput {
            raw_line: dup(&raw_lines[index]),
            normalized_line,
            structured_tag,
            prefix_kind,
        };
        assert(char_views(raw_lines@)[index as int] == raw_lines@[index as int]@);
        assert(doc_input_of(tree, c as int, raw@, normalized_lines@, index as int, input));
        inputs.push(input);
        index = index + 1;
    }
    inputs
}

/// Comment `c`, whose text is `raw`, is written as it stands: it opens with four dashes, is a
/// long comment, or its first token has more than three dashes.
#[verifier::opaque]
pub open spec fn comment_kept_raw(tree: &SyntaxTree, c: int, raw: Seq<char>) -> bool {
    has_prefix(raw, "----"@) || {
        let toks = subtree_token_seq(tree, c);
        toks.len() > 0 && {
            let f = toks[0] as int;
            tree.elems@[f].kind == TK_LONG_COMMENT_START || tree.elems@[f].kind == TK_DOC_LONG_START
                || leading_dashes(tree.spec_text(f)) > 3
        }
    }
}

/// A comment written as it stands: one that opens with four dashes, a long comment, or one
/// whose first token has more than three dashes.
fn should_preserve_comment_raw(tree: &SyntaxTree, c: usize, raw: &[char]) -> (r: bool)
    requires
        tree.wf(),
        c < tree.elems.len(),
    ensures
        r == comment_kept_raw(tree, c as int, raw@),
{
    proof {
        reveal(comment_kept_raw);
    }
    if starts_with(raw, "----") {
        return true;
    }
    let tokens = subtree_tokens(tree, c);
    if tokens.len() == 0 {
        return false;
    }
    let first = tokens[0];
    let k = tree.elems[first].kind;
    if k == TK_LONG_COMMENT_START || k == TK_DOC_LONG_START {
        return true;
    }
    let text = tree.text_of(first);
    let mut dashes: usize = 0;
    assert(text@.skip(0) =~= text@);
    while dashes < text.len() && text[dashes] == '-'
        invariant
            dashes <= text.len(),
            leading_dashes(text@) == dashes + leading_dashes(text@.skip(dashes as int)),
        decreases text.len() - dashes,
    {
        assert(text@.skip(dashes as int).drop_first() =~= text@.skip(dashes + 1));
        dashes = dashes + 1;
    }
    dashes > 3
}

/// `norm` is what spacing normalization gives for the lines of comment `c`.
pub open spec fn normalized_texts_of(spacing: &RootSpacingModel, tree: &SyntaxTree, c: int, norm: Seq<Option<Vec<char>>>) -> bool {
    &&& norm.len() == comment_token_lines(tree, subtree_token_seq(tree, c)).len()
    &&& forall|i: int|
        0 <= i < norm.len() ==> match #[trigger] norm[i] {
            Some(v) => v@ == line_fold(spacing, tree, comment_token_lines(tree, subtree_token_seq(tree, c))[i]).0,
            None => line_fold(spacing, tree, comment_token_lines(tree, subtree_token_seq(tree, c))[i]).0.len() == 0,
        }
}

/// `out` is doc comment `c`, whose text is `raw`, written line by line: its lines (`inputs`,
/// with their spacing-normalized texts `norm`) parsed as `parsed`, and each written with the
/// column widths `w` and the prefix replacement of its line.
pub open spec fn doc_block_written(
    config: LuaFormatConfig,
    spacing: &RootSpacingModel,
    tree: &SyntaxTree,
    c: int,
    raw: Seq<char>,
    out: Seq<Vec<char>>,
    norm: Seq<Option<Vec<char>>>,
    inputs: Seq<DocBlockLineInput>,
    parsed: Seq<DocBlockLine>,
    w: AlignWidths,
) -> bool {
    &&& normalized_texts_of(spacing, tree, c, norm)
    &&& inputs.len() == lines_of(raw).len()
    &&& forall|q: int| 0 <= q < inputs.len() ==> #[trigger] doc_input_of(tree, c, raw, norm, q, inputs[q])
    &&& normalized_block(config, inputs, comment_line_prefixes(spacing, tree, c), out, parsed, w)
}

/// The lines that comment `c` is written as, normalized; `None` for a comment written as it
/// stands in the source.
pub fn render_comment_lines(ctx: &FormatContext, tree: &SyntaxTree, plan: &RootFormatPlan, c: usize) -> (r: Option<Vec<Vec<char>>>)
    requires
        tree.wf(),
        plan.wf(),
        c < tree.elems.len(),
    ensures
        ({
            let raw = crate::text::trimmed(tree.spec_text(c as int));
            &&& r is None <==> (comment_kept_raw(tree, c as int, raw) || has_commented_type_line(raw))
            &&& match r {
                Some(ls) => if is_doc_block_text(raw) {
                    &&& ls@.len() == lines_of(raw).len()
                    &&& exists|norm: Seq<Option<Vec<char>>>, inputs: Seq<DocBlockLineInput>, parsed: Seq<DocBlockLine>, w: AlignWidths|
                        #[trigger] doc_block_written(*ctx.config, &plan.spacing, tree, c as int, raw, ls@, norm, inputs, parsed, w)
                } else {
                    char_views(ls@) == normal_comment_lines(
                        ctx.config.comments.space_after_comment_dash,
                        raw,
                        comment_line_prefixes(&plan.spacing, tree, c as int),
                    )
                },
                None => true,
            }
        }),
{
    let raw = crate::text::trim_end_owned(tree.text_of(c));
    if should_preserve_comment_raw(tree, c, raw.as_slice()) || should_preserve_doc_comment_block_raw(
        raw.as_slice(),
    ) {
        return None;
    }
    let prefix_replacements = collect_comment_line_prefix_replacements(&plan.spacing, tree, c);
    let normalized_lines = collect_comment_line_spacing_normalized_texts(&plan.spacing, tree, c);
    if is_pure_doc_comment_block(raw.as_slice()) {
        let inputs = collect_doc_block_line_inputs(ctx, tree, c, raw.as_slice(), &normalized_lines);
        let ls = normalize_doc_comment_block(ctx, &inputs, &prefix_replacements);
        proof {
            let (parsed, w) = choose|parsed: Seq<DocBlockLine>, w: AlignWidths|
                #[trigger] normalized_block(*ctx.config, inputs@, opt_views(prefix_replacements@), ls@, parsed, w);
            assert(doc_block_written(*ctx.config, &plan.spacing, tree, c as int, raw@, ls@, normalized_lines@, inputs@, parsed, w));
        }
        Some(ls)
    } else {
        Some(normalize_normal_comment_block(ctx, raw.as_slice(), &prefix_replacements))
    }
}


proof fn lemma_dash_prefixes_trimmed()
    ensures
        trim_end_chars("-- "@) == "--"@,
        trim_end_chars("--"@) == "--"@,
{
    reveal_strlit("-- ");
    reveal_strlit("--");
    let a = "-- "@;
    let b = "--"@;
    assert(a.drop_last() =~= b);
    assert(is_space_char(a.last()));
    assert(!is_space_char(b.last()));
    assert(trim_end_len(b) == 2);
    assert(trim_end_len(a) == trim_end_len(b));
    assert(a.take(2) =~= b);
    assert(b.take(2) =~= b);
}

/// Normalizing a comment line a second time changes nothing: the formatter is stable on its
/// own comment lines.
pub proof fn law_normal_comment_line_is_stable(space_after_dash: bool, line: Seq<char>)
    ensures
        normal_comment_line(space_after_dash, normal_comment_line(space_after_dash, line, None), None)
            == normal_comment_line(space_after_dash, line, None),
{
    reveal_strlit("--");
    reveal_strlit("---");
    reveal_strlit("-- ");
    lemma_dash_prefixes_trimmed();
    let t = trim_start_chars(line);
    lemma_trim_start_idempotent(line);
    let r = normal_comment_line(space_after_dash, line, None);
    if !has_prefix(t, "--"@) || has_prefix(t, "---"@) {
        assert(r == t);
    } else {
        let bwg = t.skip(2);
        let prefix = if space_after_dash {
            "-- "@
        } else {
            "--"@
        };
        let body = trim_start_chars(bwg);
        lemma_trim_start_idempotent(bwg);
        lemma_skip_spaces_bounds(bwg, 0);
        if body.len() > 0 {
            assert(body[0] == bwg[skip_spaces_from(bwg, 0)]);
            assert(!is_space_char(body[0]));
        }
        assert(trim_end_chars(prefix) == "--"@);
        // The first normalization gives `r`; its start is a dash.
        assert(r.len() >= 2 && r[0] == '-' && r[1] == '-');
        lemma_trim_start_solid(r);
        assert(r.take(2) =~= "--"@);
        assert(has_prefix(r, "--"@));
        if has_prefix(r, "---"@) {
            // Only `--` followed directly by a body that starts with a dash.
            assert(r.take(3)[2] == '-');
        } else {
            let bwg2 = r.skip(2);
            let body2 = trim_start_chars(bwg2);
            if bwg.len() > 0 && is_space_char(bwg[0]) && body.len() > 0 && body[0] == '[' {
                assert(r == "-- "@ + body);
                assert(bwg2 =~= seq![' '] + body);
                lemma_trim_start_after_space(' ', body);
                assert(body2 == body);
            } else if body.len() == 0 {
                assert(r == "--"@);
                assert(bwg2.len() == 0);
                assert(body2.len() == 0);
            } else if space_after_dash {
                assert(r == "-- "@ + body);
                assert(bwg2 =~= seq![' '] + body);
                lemma_trim_start_after_space(' ', body);
                assert(body2 == body);
            } else {
                assert(r == "--"@ + body);
                assert(bwg2 =~= body);
                lemma_trim_start_solid(body);
                assert(body2 == body);
            }
        }
    }
}

} // verus!
