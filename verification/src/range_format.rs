//! Restricting a whole-document format to the lines a client asked for.

use vstd::prelude::*;

verus! {

/// A position in a document: zero-based line and character.
#[derive(Clone, Copy, Debug, PartialEq, Eq, Structural)]
pub struct Position {
    pub line: u32,
    pub character: u32,
}

/// A span of a document, from `start` to `end`.
#[derive(Clone, Copy, Debug, PartialEq, Eq, Structural)]
pub struct Range {
    pub start: Position,
    pub end: Position,
}

/// Replace the text in `range` with `new_text`.
#[derive(Debug)]
pub struct TextEdit {
    pub range: Range,
    pub new_text: String,
}

impl TextEdit {
    /// A copy of this edit.
    pub fn duplicate(&self) -> (r: TextEdit)
        ensures
            r.range == self.range,
            r.new_text@ == self.new_text@,
    {
        TextEdit { range: self.range, new_text: self.new_text.clone() }
    }
}

/// The text that an external range formatter produced, with the span it replaces.
pub struct RangeFormatResult {
    pub text: String,
    pub start_line: i32,
    pub start_col: i32,
    pub end_line: i32,
    pub end_col: i32,
}

/// Marks that the server formats ranges of a document.
pub struct DocumentRangeFormattingCapabilities;

/// The first line after a span, counting a span that ends inside a line as covering it.
pub open spec fn end_line_exclusive(r: Range) -> int {
    if r.end.character == 0 {
        r.end.line as int
    } else {
        if r.end.line == u32::MAX {
            u32::MAX as int
        } else {
            r.end.line + 1
        }
    }
}

/// An edit touches the lines of a request: an insertion lies on one of the requested lines,
/// and any other edit shares at least one line with the request.
pub open spec fn intersects_requested_lines(edit: Range, request: Range) -> bool {
    if edit.start == edit.end {
        request.start.line <= edit.start.line <= request.end.line
    } else {
        edit.start.line < end_line_exclusive(request) && request.start.line
            < end_line_exclusive(edit)
    }
}

/// Whether an edit touches the lines of the request.
pub fn edit_intersects_requested_lines(edit_range: &Range, request_range: &Range) -> (r: bool)
    ensures
        r == intersects_requested_lines(*edit_range, *request_range),
{
    let request_start = request_range.start.line;
    let request_end = request_range.end.line;

    if edit_range.start == edit_range.end {
        let line = edit_range.start.line;
        return line >= request_start && line <= request_end;
    }
    let edit_start = edit_range.start.line;
    let edit_end_exclusive = if edit_range.end.character == 0 {
        edit_range.end.line
    } else {
        edit_range.end.line.saturating_add(1)
    };
    let request_end_exclusive = if request_range.end.character == 0 {
        request_end
    } else {
        request_end.saturating_add(1)
    };
    edit_start < request_end_exclusive && request_start < edit_end_exclusive
}

/// An edit by its range and text.
pub open spec fn edit_view(e: TextEdit) -> (Range, Seq<char>) {
    (e.range, e.new_text@)
}

/// The edits of a list, each by its range and text.
pub open spec fn edit_views(edits: Seq<TextEdit>) -> Seq<(Range, Seq<char>)> {
    edits.map_values(|e: TextEdit| edit_view(e))
}

/// Whether `a`, a deletion, and `b`, an insertion at the same place, make one replacement.
pub open spec fn is_replace_pair(a: (Range, Seq<char>), b: (Range, Seq<char>)) -> bool {
    a.1.len() == 0 && b.0.start == b.0.end && a.0.start == b.0.start
}

/// The edits from index `i` on, with each deletion that is directly followed by an insertion
/// at the same place merged into one replacement.
pub open spec fn merged_edits_from(edits: Seq<(Range, Seq<char>)>, i: int) -> Seq<(Range, Seq<char>)>
    decreases edits.len() - i,
{
    if i < 0 || i >= edits.len() {
        Seq::empty()
    } else if i + 1 < edits.len() && is_replace_pair(edits[i], edits[i + 1]) {
        seq![(edits[i].0, edits[i + 1].1)] + merged_edits_from(edits, i + 2)
    } else {
        seq![edits[i]] + merged_edits_from(edits, i + 1)
    }
}

/// Merges each deletion that is directly followed by an insertion at the same place into one
/// replacement; every other edit is kept as it is, in order.
pub fn merge_replace_edits(edits: Vec<TextEdit>) -> (r: Vec<TextEdit>)
    ensures
        edit_views(r@) == merged_edits_from(edit_views(edits@), 0),
{
    let ghost views = edit_views(edits@);
    let mut merged: Vec<TextEdit> = Vec::new();
    let mut index: usize = 0;
    while index < edits.len()
        invariant
            index <= edits.len(),
            views == edit_views(edits@),
            edit_views(merged@) + merged_edits_from(views, index as int) == merged_edits_from(
                views,
                0,
            ),
        decreases edits.len() - index,
    {
        let ghost before = merged@;
        if index + 1 < edits.len() {
            let current = &edits[index];
            let next = &edits[index + 1];
            if current.new_text.as_str().is_empty() && next.range.start == next.range.end
                && current.range.start == next.range.start {
                merged.push(TextEdit { range: current.range, new_text: next.new_text.clone() });
                assert(edit_views(merged@) == edit_views(before).push(
                    (views[index as int].0, views[index + 1].1),
                ));
                index = index + 2;
                continue;
            }
        }
        merged.push(edits[index].duplicate());
        assert(edit_views(merged@) == edit_views(before).push(views[index as int]));
        index = index + 1;
    }
    merged
}

/// `s` with each `\r\n` turned into `\n`, scanning from the left.
pub open spec fn crlf_to_lf(s: Seq<char>) -> Seq<char>
    decreases s.len(),
{
    if s.len() == 0 {
        s
    } else if s.len() >= 2 && s[0] == '\r' && s[1] == '\n' {
        seq!['\n'] + crlf_to_lf(s.skip(2))
    } else {
        seq![s[0]] + crlf_to_lf(s.skip(1))
    }
}

/// A copy of `s` with each `\r\n` turned into `\n`.
pub fn normalize_newlines(s: &str) -> (r: String)
    ensures
        r@ == crlf_to_lf(s@),
{
    let cs = crate::text::str_chars(s);
    let mut out: Vec<char> = Vec::new();
    let mut i: usize = 0;
    assert(cs@.skip(0) =~= s@);
    while i < cs.len()
        invariant
            i <= cs.len(),
            cs@ == s@,
            out@ + crlf_to_lf(cs@.skip(i as int)) == crlf_to_lf(s@),
        decreases cs.len() - i,
    {
        let ghost rest = cs@.skip(i as int);
        if i + 1 < cs.len() && cs[i] == '\r' && cs[i + 1] == '\n' {
            out.push('\n');
            assert(rest.skip(2) =~= cs@.skip(i + 2));
            assert(out@ + crlf_to_lf(cs@.skip(i + 2)) =~= out@.drop_last() + crlf_to_lf(rest));
            i = i + 2;
        } else {
            out.push(cs[i]);
            assert(rest.skip(1) =~= cs@.skip(i + 1));
            assert(out@ + crlf_to_lf(cs@.skip(i + 1)) =~= out@.drop_last() + crlf_to_lf(rest));
            i = i + 1;
        }
    }
    assert(cs@.skip(i as int).len() == 0);
    assert(out@ =~= crlf_to_lf(s@));
    crate::text::string_from_chars(out.as_slice())
}

/// The edits among `edits` that touch the requested lines, in order, with line endings
/// normalized on request.
pub open spec fn kept_edits(edits: Seq<(Range, Seq<char>)>, request: Range, normalize: bool) -> Seq<
    (Range, Seq<char>),
>
    decreases edits.len(),
{
    if edits.len() == 0 {
        Seq::empty()
    } else {
        let rest = kept_edits(edits.drop_last(), request, normalize);
        let e = edits.last();
        if intersects_requested_lines(e.0, request) {
            rest.push(
                (
                    e.0,
                    if normalize {
                        crlf_to_lf(e.1)
                    } else {
                        e.1
                    },
                ),
            )
        } else {
            rest
        }
    }
}

/// Restricts the edits of a whole-document format to those that touch the requested lines,
/// normalizes their line endings on request, and merges deletion-insertion pairs.
pub fn build_range_edits(full_edits: Vec<TextEdit>, request_range: &Range, normalize: bool) -> (r:
    Vec<TextEdit>)
    ensures
        edit_views(r@) == merged_edits_from(
            kept_edits(edit_views(full_edits@), *request_range, normalize),
            0,
        ),
{
    let ghost views = edit_views(full_edits@);
    let mut filtered: Vec<TextEdit> = Vec::new();
    let mut i: usize = 0;
    while i < full_edits.len()
        invariant
            i <= full_edits.len(),
            views == edit_views(full_edits@),
            edit_views(filtered@) == kept_edits(views.take(i as int), *request_range, normalize),
        decreases full_edits.len() - i,
    {
        assert(views.take(i + 1).drop_last() =~= views.take(i as int));
        let edit = &full_edits[i];
        if edit_intersects_requested_lines(&edit.range, request_range) {
            let text = if normalize {
                normalize_newlines(edit.new_text.as_str())
            } else {
                edit.new_text.clone()
            };
            filtered.push(TextEdit { range: edit.range, new_text: text });
        }
        i = i + 1;
    }
    assert(views.take(i as int) =~= views);
    merge_replace_edits(filtered)
}

/// The edit that an external range formatter's result makes: its span, with each bound
/// converted to an unsigned number as `as` does, and its text, with line endings normalized on
/// request.
pub fn external_range_edit(result: &RangeFormatResult, normalize: bool) -> (r: TextEdit)
    ensures
        r.range.start.line == result.start_line as u32,
        r.range.start.character == result.start_col as u32,
        r.range.end.line == result.end_line as u32,
        r.range.end.character == result.end_col as u32,
        r.new_text@ == if normalize {
            crlf_to_lf(result.text@)
        } else {
            result.text@
        },
{
    let text = if normalize {
        normalize_newlines(result.text.as_str())
    } else {
        result.text.clone()
    };
    TextEdit {
        range: Range {
            start: Position { line: result.start_line as u32, character: result.start_col as u32 },
            end: Position { line: result.end_line as u32, character: result.end_col as u32 },
        },
        new_text: text,
    }
}


/// Merging never adds an edit: from index `i` on, there are at most as many merged edits as
/// edits.
pub proof fn law_merge_never_adds_edits(edits: Seq<(Range, Seq<char>)>, i: int)
    requires
        0 <= i <= edits.len(),
    ensures
        merged_edits_from(edits, i).len() <= edits.len() - i,
    decreases edits.len() - i,
{
    if i < edits.len() {
        if i + 1 < edits.len() && is_replace_pair(edits[i], edits[i + 1]) {
            law_merge_never_adds_edits(edits, i + 2);
        } else {
            law_merge_never_adds_edits(edits, i + 1);
        }
    }
}

/// Edits among which no deletion is directly followed by an insertion at the same place are
/// kept as they are.
pub proof fn law_merge_keeps_edits_without_pairs(edits: Seq<(Range, Seq<char>)>, i: int)
    requires
        0 <= i <= edits.len(),
        forall|k: int| i <= k && k + 1 < edits.len() ==> !is_replace_pair(#[trigger] edits[k], edits[k + 1]),
    ensures
        merged_edits_from(edits, i) == edits.skip(i),
    decreases edits.len() - i,
{
    if i < edits.len() {
        law_merge_keeps_edits_without_pairs(edits, i + 1);
        assert(edits.skip(i) =~= seq![edits[i]] + edits.skip(i + 1));
    } else {
        assert(edits.skip(i) =~= Seq::<(Range, Seq<char>)>::empty());
    }
}

proof fn lemma_merged_ranges_come_from_input(edits: Seq<(Range, Seq<char>)>, i: int)
    requires
        0 <= i <= edits.len(),
    ensures
        forall|k: int|
            0 <= k < merged_edits_from(edits, i).len() ==> exists|j: int|
                i <= j < edits.len() && #[trigger] merged_edits_from(edits, i)[k].0 == edits[j].0,
    decreases edits.len() - i,
{
    if i < edits.len() {
        let m = merged_edits_from(edits, i);
        if i + 1 < edits.len() && is_replace_pair(edits[i], edits[i + 1]) {
            lemma_merged_ranges_come_from_input(edits, i + 2);
            assert forall|k: int| 0 <= k < m.len() implies exists|j: int|
                i <= j < edits.len() && #[trigger] m[k].0 == edits[j].0 by {
                if k == 0 {
                    assert(m[0].0 == edits[i].0);
                } else {
                    assert(m[k] == merged_edits_from(edits, i + 2)[k - 1]);
                }
            }
        } else {
            lemma_merged_ranges_come_from_input(edits, i + 1);
            assert forall|k: int| 0 <= k < m.len() implies exists|j: int|
                i <= j < edits.len() && #[trigger] m[k].0 == edits[j].0 by {
                if k == 0 {
                    assert(m[0].0 == edits[i].0);
                } else {
                    assert(m[k] == merged_edits_from(edits, i + 1)[k - 1]);
                }
            }
        }
    }
}

proof fn lemma_kept_edits_intersect(edits: Seq<(Range, Seq<char>)>, request: Range, normalize: bool)
    ensures
        forall|k: int|
            0 <= k < kept_edits(edits, request, normalize).len() ==> intersects_requested_lines(
                (#[trigger] kept_edits(edits, request, normalize)[k]).0,
                request,
            ),
    decreases edits.len(),
{
    if edits.len() > 0 {
        lemma_kept_edits_intersect(edits.drop_last(), request, normalize);
        let rest = kept_edits(edits.drop_last(), request, normalize);
        let kept = kept_edits(edits, request, normalize);
        assert forall|k: int| 0 <= k < kept.len() implies intersects_requested_lines(
            (#[trigger] kept[k]).0,
            request,
        ) by {
            if k < rest.len() {
                assert(kept[k] == rest[k]);
            }
        }
    }
}

/// Every edit that answers a range request touches the requested lines.
pub proof fn law_range_edits_touch_requested_lines(
    edits: Seq<(Range, Seq<char>)>,
    request: Range,
    normalize: bool,
)
    ensures
        forall|k: int|
            0 <= k < merged_edits_from(kept_edits(edits, request, normalize), 0).len()
                ==> intersects_requested_lines(
                (#[trigger] merged_edits_from(kept_edits(edits, request, normalize), 0)[k]).0,
                request,
            ),
{
    let kept = kept_edits(edits, request, normalize);
    lemma_kept_edits_intersect(edits, request, normalize);
    lemma_merged_ranges_come_from_input(kept, 0);
    assert forall|k: int| 0 <= k < merged_edits_from(kept, 0).len() implies intersects_requested_lines(
        (#[trigger] merged_edits_from(kept, 0)[k]).0,
        request,
    ) by {
        let j = choose|j: int| 0 <= j < kept.len() && merged_edits_from(kept, 0)[k].0 == kept[j].0;
        assert(intersects_requested_lines(kept[j].0, request));
    }
}

} // verus!
