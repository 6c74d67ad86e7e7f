//! Where the items of argument lists, parameter lists and tables go on lines of their own: a
//! list that holds a comment, or a table declared by a `@class` or `@enum` comment or with a
//! field spanning several lines, is written one item per line; a comma that follows an item's trailing comment moves before it; and the
//! `)` of a call whose last argument is a table or a function closes right after it.

use vstd::prelude::*;

use crate::kinds::{
    SK_ASSIGN_STAT, SK_BINARY_EXPR, SK_BLOCK, SK_CALL_EXPR, SK_SETMETATABLE_CALL_EXPR, SK_INDEX_EXPR, SK_FOR_STAT, SK_FOR_RANGE_STAT, SK_FUNC_STAT, SK_CALL_ARG_LIST, SK_ELSE_CLAUSE_STAT, SK_ELSE_IF_CLAUSE_STAT, SK_IF_STAT, SK_CLOSURE_EXPR, SK_COMMENT, SK_LOCAL_STAT, SK_PARAM_LIST, SK_RETURN_STAT,
    SK_TABLE_ARRAY_EXPR, SK_TABLE_EMPTY_EXPR, SK_TABLE_FIELD_ASSIGN, SK_TABLE_FIELD_VALUE, SK_TABLE_OBJECT_EXPR, TK_ASSIGN, TK_COMMA, TK_END, TK_END_OF_LINE,
    TK_LEFT_BRACE, TK_LEFT_PAREN, TK_RIGHT_BRACE, TK_RIGHT_PAREN, TK_SEMICOLON, TK_TAG_CLASS, TK_TAG_ENUM, TK_WHITESPACE,
};
use crate::config::{ExpandStrategy, IndentKind, LuaFormatConfig};
use crate::model::{RootFormatPlan, StatementExprListLayoutKind};
use crate::render::RenderState;
use crate::FormatContext;
use crate::syntax::{node_is, SyntaxTree};

verus! {

/// How the lists of a tree are laid out, by element.
pub struct ListLayout {
    /// This list is written one item per line.
    pub expanded: Vec<bool>,
    /// A line break is written before this token.
    pub break_before: Vec<bool>,
    /// No line break is written before this token.
    pub hug: Vec<bool>,
    /// The comma written right after this token, moved from behind a comment.
    pub comma_after: Vec<Option<usize>>,
    /// This comma is written earlier, right after the item it follows.
    pub moved: Vec<bool>,
    /// The node written as its source text from this token, its first.
    pub verbatim_at: Vec<Option<usize>>,
    /// This argument list keeps its single argument, which spans several lines, one level
    /// deeper than the line of its opener.
    pub deep: Vec<bool>,
}

impl ListLayout {
    /// Every table has one entry per element, and moved commas are elements.
    pub open spec fn wf(&self, n: nat) -> bool {
        &&& self.expanded@.len() == n
        &&& self.break_before@.len() == n
        &&& self.hug@.len() == n
        &&& self.comma_after@.len() == n
        &&& self.moved@.len() == n
        &&& self.verbatim_at@.len() == n
        &&& self.deep@.len() == n
        &&& forall|i: int| 0 <= i < n ==> (#[trigger] self.comma_after@[i] matches Some(k) ==> k < n)
    }

    /// Each comma moved to follow a token stood after a comment that comes right after that
    /// token in the source, with only blanks between.
    pub open spec fn moves_ok(&self, tree: &SyntaxTree) -> bool {
        forall|x: int|
            0 <= x < self.comma_after@.len() && #[trigger] self.comma_after@[x] is Some ==> exists|c: int, cf: int|
                #![trigger tree.first_solid(c, cf)]
                0 <= c < tree.elems.len() && tree.elems@[c].is_node && tree.elems@[c].kind == SK_COMMENT
                    && tree.first_solid(c, cf) && tree.token_pos_spec(x) < tree.token_pos_spec(cf) && forall|k: int|
                    tree.token_pos_spec(x) < k < tree.token_pos_spec(cf) ==> #[trigger] tree.is_blank_at(k)
    }

    /// Each node written as its source text is the first value of a statement that the plan
    /// keeps as it stands.
    pub open spec fn verbatim_from(&self, tree: &SyntaxTree, plan: &RootFormatPlan) -> bool {
        forall|f: int|
            0 <= f < self.verbatim_at@.len() ==> (#[trigger] self.verbatim_at@[f] matches Some(n)
                ==> preserved_first_value(tree, plan, n as int))
    }

    /// Each node written as its source text starts at the token that records it.
    pub open spec fn verbatim_ok(&self, tree: &SyntaxTree) -> bool {
        forall|t: int|
            0 <= t < self.verbatim_at@.len() ==> (#[trigger] self.verbatim_at@[t] matches Some(n) ==> n
                < tree.elems.len() && tree.first_solid(n as int, t))
    }
}

/// List kinds whose items can go on lines of their own.
pub open spec fn is_list_kind(k: u16) -> bool {
    k == SK_CALL_ARG_LIST || k == SK_PARAM_LIST || k == SK_TABLE_OBJECT_EXPR || k == SK_TABLE_ARRAY_EXPR
}

/// Element `i` is a direct child node of `l` other than a comment.
pub open spec fn is_item_at(tree: &SyntaxTree, l: int, i: int) -> bool {
    &&& 0 <= i < tree.elems.len()
    &&& tree.elems@[i].is_node
    &&& tree.elems@[i].kind != SK_COMMENT
    &&& tree.elems@[i].parent == Some(l as usize)
}

/// Element `i` is a direct child token of `e` that is not blank.
pub open spec fn is_direct_solid(tree: &SyntaxTree, e: int, i: int) -> bool {
    &&& tree.is_solid(i)
    &&& tree.elems@[i].parent == Some(e as usize)
}

/// `u` is the first direct child token of node `e` that is not blank.
pub open spec fn first_direct_solid_is(tree: &SyntaxTree, e: int, u: int) -> bool {
    &&& 0 <= e < u < tree.elems@[e].end
    &&& is_direct_solid(tree, e, u)
    &&& forall|i: int| e < i < u ==> !is_direct_solid(tree, e, i)
}

/// Node `e` has no direct child token that is not blank.
pub open spec fn no_direct_solid(tree: &SyntaxTree, e: int) -> bool {
    forall|i: int| e < i < tree.elems@[e].end ==> !is_direct_solid(tree, e, i)
}

/// The first non-blank direct child token of a node is unique.
proof fn lemma_first_direct_solid_unique(tree: &SyntaxTree, e: int, u: int, v: int)
    requires
        first_direct_solid_is(tree, e, u),
        first_direct_solid_is(tree, e, v),
    ensures
        u == v,
{
    if u < v {
        assert(!is_direct_solid(tree, e, u));
    } else if v < u {
        assert(!is_direct_solid(tree, e, v));
    }
}

/// Token `v` is neither blank nor inside a comment.
pub open spec fn is_code_token(tree: &SyntaxTree, v: int) -> bool {
    &&& tree.is_solid(v)
    &&& forall|a: int|
        a != v && #[trigger] tree.ancestor_or_self(a, v) ==> !(0 <= a < tree.elems.len() && tree.elems@[a].is_node
            && tree.elems@[a].kind == SK_COMMENT)
}

/// Position `j` holds the last token before token `u` that is neither blank nor inside a
/// comment.
pub open spec fn last_code_before(tree: &SyntaxTree, u: int, j: int) -> bool {
    &&& 0 <= j < tree.token_pos_spec(u)
    &&& j < tree.tokens.len()
    &&& is_code_token(tree, tree.tokens@[j] as int)
    &&& forall|k: int| j < k < tree.token_pos_spec(u) ==> !is_code_token(tree, #[trigger] tree.tokens@[k] as int)
}

/// Node `a` spans several source lines: line breaks lie between its first and its last
/// non-blank tokens.
pub open spec fn spans_lines(tree: &SyntaxTree, a: int) -> bool {
    exists|f: int, g: int|
        tree.first_solid(a, f) && tree.last_solid(a, g) && tree.line_breaks_in(tree.token_pos_spec(f) + 1, tree.token_pos_spec(g)) > 0
}

/// With its first and last non-blank tokens known, whether a node spans several lines is
/// whether line breaks lie between them.
pub proof fn lemma_spans_lines(tree: &SyntaxTree, a: int, f: int, g: int)
    requires
        tree.first_solid(a, f),
        tree.last_solid(a, g),
    ensures
        spans_lines(tree, a) == (tree.line_breaks_in(tree.token_pos_spec(f) + 1, tree.token_pos_spec(g)) > 0),
{
    assert forall|f2: int, g2: int| tree.first_solid(a, f2) && tree.last_solid(a, g2) implies f2 == f && g2 == g by {
        if f2 < f {
            assert(!tree.is_solid(f2));
        }
        if f < f2 {
            assert(!tree.is_solid(f));
        }
        if g2 < g {
            assert(!tree.is_solid(g));
        }
        if g < g2 {
            assert(!tree.is_solid(g2));
        }
    }
}

/// A node that has no non-blank token spans no lines.
pub proof fn lemma_no_solid_no_span(tree: &SyntaxTree, a: int)
    requires
        0 <= a < tree.elems.len(),
        forall|u: int| a <= u < tree.elems@[a].end ==> !tree.is_solid(u),
    ensures
        !spans_lines(tree, a),
{
    assert forall|f: int, g: int| !(tree.first_solid(a, f) && tree.last_solid(a, g)) by {
        if tree.first_solid(a, f) {
            assert(tree.is_solid(f));
        }
    }
}

/// Node `a` is a function or a table that spans several source lines.
pub open spec fn is_block_node(tree: &SyntaxTree, a: int) -> bool {
    &&& 0 <= a < tree.elems.len()
    &&& tree.elems@[a].is_node
    &&& {
        let k = tree.elems@[a].kind;
        k == SK_CLOSURE_EXPR || k == SK_TABLE_OBJECT_EXPR || k == SK_TABLE_ARRAY_EXPR || k == SK_TABLE_EMPTY_EXPR
    }
    &&& spans_lines(tree, a)
}

/// Calls and accesses, the expressions that chains are made of.
pub open spec fn is_chain_kind(k: u16) -> bool {
    (SK_CALL_EXPR <= k <= SK_SETMETATABLE_CALL_EXPR) || k == SK_INDEX_EXPR
}

/// Node `e` is the prefix of node `p`: its first direct child node other than a comment.
pub open spec fn is_prefix(tree: &SyntaxTree, p: int, e: int) -> bool {
    &&& 0 <= p < e < tree.elems@[p].end
    &&& is_item_at(tree, p, e)
    &&& forall|i: int| p < i < e ==> !is_item_at(tree, p, i)
}

/// Element `i` is a `@class` or `@enum` tag token.
pub open spec fn is_type_tag(tree: &SyntaxTree, i: int) -> bool {
    tree.elems_kind_token(i, TK_TAG_CLASS) || tree.elems_kind_token(i, TK_TAG_ENUM)
}

/// The last token before token `u` that is neither blank nor inside a comment.
pub open spec fn code_before_tok(tree: &SyntaxTree, u: int) -> Option<usize> {
    if exists|j: int| last_code_before(tree, u, j) {
        Some(tree.tokens@[choose|j: int| last_code_before(tree, u, j)])
    } else {
        None
    }
}

/// The column where what comes before token `s` ends, as `end_col` records it, or 0.
pub open spec fn end_before_spec(tree: &SyntaxTree, end_col: Seq<usize>, s: int) -> usize {
    match code_before_tok(tree, s) {
        Some(p) => entry_or_zero(end_col, p as int),
        None => 0,
    }
}

/// `a` minus `b`, or 0 when `b` is larger.
pub open spec fn sat_sub(a: usize, b: usize) -> usize {
    if a >= b {
        (a - b) as usize
    } else {
        0
    }
}

/// The width of item `k` of the items starting at `starts`, the last ending with `last`, as a
/// rendering placed them: from its start to the end of the token before the next item.
pub open spec fn seg_width(tree: &SyntaxTree, tok_col: Seq<usize>, end_col: Seq<usize>, starts: Seq<usize>, last: int, k: int) -> usize {
    let start = entry_or_zero(tok_col, starts[k] as int);
    let seg_end = if k + 1 < starts.len() {
        code_before_tok(tree, starts[k + 1] as int)
    } else {
        Some(last as usize)
    };
    match seg_end {
        Some(e) => sat_sub(entry_or_zero(end_col, e as int), start),
        None => 0,
    }
}

/// The gap a rendering left before item `k` of the items starting at `starts`.
pub open spec fn seg_gap(tree: &SyntaxTree, tok_col: Seq<usize>, end_col: Seq<usize>, starts: Seq<usize>, k: int) -> usize {
    let start = entry_or_zero(tok_col, starts[k] as int);
    match code_before_tok(tree, starts[k] as int) {
        Some(p) => sat_sub(start, entry_or_zero(end_col, p as int)),
        None => 0,
    }
}

/// The first non-blank token of the subtree of `n`.
pub open spec fn first_solid_tok(tree: &SyntaxTree, n: int) -> Option<usize> {
    if exists|t: int| tree.first_solid(n, t) {
        Some((choose|t: int| tree.first_solid(n, t)) as usize)
    } else {
        None
    }
}

/// The last non-blank token of the subtree of `n`.
pub open spec fn last_solid_tok(tree: &SyntaxTree, n: int) -> Option<usize> {
    if exists|t: int| tree.last_solid(n, t) {
        Some((choose|t: int| tree.last_solid(n, t)) as usize)
    } else {
        None
    }
}

/// What the first non-blank token search returns is [`first_solid_tok`].
pub proof fn lemma_first_solid_tok(tree: &SyntaxTree, n: int, r: Option<usize>)
    requires
        r matches Some(f) ==> tree.first_solid(n, f as int),
        r is None && 0 <= n < tree.elems.len() ==> forall|u: int| n <= u < tree.elems@[n].end ==> !tree.is_solid(u),
        r is None ==> 0 <= n < tree.elems.len() || !(exists|t: int| tree.first_solid(n, t)),
    ensures
        r == first_solid_tok(tree, n),
{
    match r {
        Some(f) => {
            let c = choose|t: int| tree.first_solid(n, t);
            if c < f {
                assert(!tree.is_solid(c));
            } else if f < c {
                assert(!tree.is_solid(f as int));
            }
        },
        None => {
            if exists|t: int| tree.first_solid(n, t) {
                let c = choose|t: int| tree.first_solid(n, t);
                assert(tree.is_solid(c));
            }
        },
    }
}

/// What the last non-blank token search returns is [`last_solid_tok`].
pub proof fn lemma_last_solid_tok(tree: &SyntaxTree, n: int, r: Option<usize>)
    requires
        r matches Some(g) ==> tree.last_solid(n, g as int),
        r is None && 0 <= n < tree.elems.len() ==> forall|u: int| n <= u < tree.elems@[n].end ==> !tree.is_solid(u),
        r is None ==> 0 <= n < tree.elems.len() || !(exists|t: int| tree.last_solid(n, t)),
    ensures
        r == last_solid_tok(tree, n),
{
    match r {
        Some(g) => {
            let c = choose|t: int| tree.last_solid(n, t);
            if c < g {
                assert(!tree.is_solid(g as int));
            } else if g < c {
                assert(!tree.is_solid(c));
            }
        },
        None => {
            if exists|t: int| tree.last_solid(n, t) {
                let c = choose|t: int| tree.last_solid(n, t);
                assert(tree.is_solid(c));
            }
        },
    }
}

/// The width of `levels` indentation levels in output columns, capped at the largest `usize`.
pub open spec fn indent_cols(config: LuaFormatConfig, levels: int) -> usize {
    if levels * indent_unit(config) <= usize::MAX {
        (levels * indent_unit(config)) as usize
    } else {
        usize::MAX
    }
}

/// The line breaks `b` holds are those of `a` and, among the items starting at `starts`, those
/// before the items that `chosen` marks.
pub open spec fn breaks_at_chosen(a: Seq<bool>, b: Seq<bool>, starts: Seq<usize>, chosen: Seq<bool>) -> bool {
    &&& b.len() == a.len()
    &&& forall|t: int|
        0 <= t < a.len() ==> #[trigger] b[t] == (a[t] || exists|k: int| 0 <= k < starts.len() && starts[k] == t && chosen[k])
}

/// The indentation level a rendering recorded for the line where node `n` starts, or 0.
pub open spec fn line_level(tree: &SyntaxTree, line_indent: Seq<usize>, n: int) -> usize {
    match first_solid_tok(tree, n) {
        Some(f) => entry_or_zero(line_indent, f as int),
        None => 0,
    }
}

/// The breaks placed among the items starting at `starts`, the last ending with `last`, as a
/// rendering `st` measured them, with broken lines at `levels` levels.
pub open spec fn measured_breaks(
    config: LuaFormatConfig,
    tree: &SyntaxTree,
    st: RenderState,
    starts: Seq<usize>,
    last: int,
    levels: int,
    force_first: bool,
    packed_lead: Option<usize>,
) -> Seq<bool> {
    chosen_breaks(
        config.layout.max_line_width,
        indent_cols(config, levels),
        end_before_spec(tree, st.end_col@, starts[0] as int),
        Seq::new(starts.len(), |k: int| seg_width(tree, st.tok_col@, st.end_col@, starts, last, k)),
        Seq::new(starts.len(), |k: int| seg_gap(tree, st.tok_col@, st.end_col@, starts, k)),
        force_first,
        packed_lead,
    )
}

/// Whether comment node `c` holds a `@class` or `@enum` tag.
fn comment_declares_type(tree: &SyntaxTree, c: usize) -> (r: bool)
    requires
        tree.wf(),
        c < tree.elems.len(),
    ensures
        r == exists|i: int| c < i < tree.elems@[c as int].end && #[trigger] is_type_tag(tree, i),
{
    let end = tree.elems[c].end;
    let mut i = c + 1;
    while i < end
        invariant
            tree.wf(),
            c < i,
            end == tree.elems@[c as int].end,
            end <= tree.elems.len(),
            forall|j: int| c < j < i ==> !#[trigger] is_type_tag(tree, j),
        decreases end - i,
    {
        if tree.is_token_kind(i, TK_TAG_CLASS) || tree.is_token_kind(i, TK_TAG_ENUM) {
            assert(is_type_tag(tree, i as int));
            return true;
        }
        i = i + 1;
    }
    false
}

/// The child of `p` that holds element `x`, when `x` lies below `p`.
pub open spec fn child_holding(tree: &SyntaxTree, p: int, x: int) -> Option<int> {
    if exists|c: int| #[trigger] crate::render::child_on_path(tree, p, x, c) {
        Some(choose|c: int| #[trigger] crate::render::child_on_path(tree, p, x, c))
    } else {
        None
    }
}

/// Only one child of `p` lies on the way down to `x`.
proof fn lemma_child_on_path_unique(tree: &SyntaxTree, p: int, x: int, c1: int, c2: int)
    requires
        tree.wf(),
        0 <= p < tree.elems.len(),
        crate::render::child_on_path(tree, p, x, c1),
        crate::render::child_on_path(tree, p, x, c2),
    ensures
        c1 == c2,
{
    tree.lemma_ancestors_chain(c1, c2, x);
    if c1 != c2 {
        assert(tree.ancestor_or_self(p, p));
        assert(tree.ancestor_or_self(c1, c1));
        assert(tree.ancestor_or_self(c2, c2));
        if tree.ancestor_or_self(c1, c2) {
            assert(tree.ancestor_or_self(c1, p));
            tree.lemma_ancestor_before(c1, p);
        } else {
            assert(tree.ancestor_or_self(c2, p));
            tree.lemma_ancestor_before(c2, p);
        }
    }
}

/// Walking back over the siblings before position `cur` under `p` (blanks, and at most one
/// line break once `seen` is set), whether a comment with a `@class` or `@enum` tag comes first.
pub open spec fn declared_walk(tree: &SyntaxTree, p: int, cur: int, seen: bool) -> bool
    decreases cur,
{
    if cur <= 0 {
        false
    } else {
        match child_holding(tree, p, cur - 1) {
            None => false,
            Some(prev) => if prev >= cur || prev < 0 {
                false
            } else {
                let e = tree.elems@[prev];
                if !e.is_node && e.kind == TK_WHITESPACE {
                    declared_walk(tree, p, prev, seen)
                } else if !e.is_node && e.kind == TK_END_OF_LINE {
                    if seen {
                        false
                    } else {
                        declared_walk(tree, p, prev, true)
                    }
                } else if e.is_node && e.kind == SK_COMMENT {
                    exists|i: int| prev < i < e.end && #[trigger] is_type_tag(tree, i)
                } else {
                    false
                }
            },
        }
    }
}

/// Whether statement `s` is declared by a comment right above it (no blank line between) that
/// holds a `@class` or `@enum` tag.
fn declared_by_comment(tree: &SyntaxTree, s: usize) -> (r: bool)
    requires
        tree.wf(),
        s < tree.elems.len(),
    ensures
        r == declared_spec(tree, s as int),
{
    let parent = match tree.parent(s) {
        Some(p) => p,
        None => return false,
    };
    let mut cur = s;
    let mut seen_newline = false;
    while cur > 0
        invariant
            tree.wf(),
            cur <= s < tree.elems.len(),
            tree.elems@[s as int].parent == Some(parent),
            declared_walk(tree, parent as int, s as int, false) == declared_walk(tree, parent as int, cur as int, seen_newline),
        decreases cur,
    {
        let prev = match tree.child_toward(parent, cur - 1) {
            Some(p) => p,
            None => {
                proof {
                    assert forall|c: int| !#[trigger] crate::render::child_on_path(tree, parent as int, cur - 1, c) by {
                        if crate::render::child_on_path(tree, parent as int, cur - 1, c) {
                            assert(tree.ancestor_or_self(parent as int, parent as int));
                            assert(tree.ancestor_or_self(parent as int, c));
                            tree.lemma_ancestor_trans(parent as int, c, cur - 1);
                            if cur - 1 == parent as int {
                                tree.lemma_ancestor_before(c, parent as int);
                            }
                        }
                    }
                }
                return false;
            },
        };
        proof {
            assert(crate::render::child_on_path(tree, parent as int, cur - 1, prev as int));
            let ch = choose|c: int| #[trigger] crate::render::child_on_path(tree, parent as int, cur - 1, c);
            lemma_child_on_path_unique(tree, parent as int, cur - 1, ch, prev as int);
            assert(child_holding(tree, parent as int, cur - 1) == Some(prev as int));
        }
        if prev >= cur {
            return false;
        }
        let e = tree.elems[prev];
        if !e.is_node && e.kind == TK_WHITESPACE {
        } else if !e.is_node && e.kind == TK_END_OF_LINE {
            if seen_newline {
                return false;
            }
            seen_newline = true;
        } else if e.is_node && e.kind == SK_COMMENT {
            return comment_declares_type(tree, prev);
        } else {
            return false;
        }
        cur = prev;
    }
    false
}

/// Whether statement `s` is declared by a `@class` or `@enum` comment right above it.
pub open spec fn declared_spec(tree: &SyntaxTree, s: int) -> bool {
    match tree.elems@[s].parent {
        None => false,
        Some(p) => declared_walk(tree, p as int, s, false),
    }
}

/// Element `i` is an `=` token of statement `s`.
pub open spec fn is_assign_child(tree: &SyntaxTree, s: int, i: int) -> bool {
    !tree.elems@[i].is_node && tree.elems@[i].kind == TK_ASSIGN && tree.elems@[i].parent == Some(s as usize)
}

/// Element `i` is a node right under statement `s`.
pub open spec fn is_node_child(tree: &SyntaxTree, s: int, i: int) -> bool {
    tree.elems@[i].is_node && tree.elems@[i].parent == Some(s as usize)
}

/// Element `l` is the first node of statement `s` after the statement's first `=`.
pub open spec fn first_after_assign(tree: &SyntaxTree, s: int, l: int) -> bool {
    exists|a: int|
        s < a < l && #[trigger] is_assign_child(tree, s, a) && (forall|j: int| s < j < a ==> !is_assign_child(tree, s, j))
            && (forall|j: int| a < j < l ==> !is_node_child(tree, s, j))
}

/// Element `x` is a blank token (white space or a line end) right under node `p`.
pub open spec fn blank_child(tree: &SyntaxTree, p: int, x: int) -> bool {
    &&& 0 <= x < tree.elems.len()
    &&& !tree.elems@[x].is_node
    &&& (tree.elems@[x].kind == TK_WHITESPACE || tree.elems@[x].kind == TK_END_OF_LINE)
    &&& tree.elems@[x].parent == Some(p as usize)
}

/// Element `x` is a line end.
pub open spec fn line_end_at(tree: &SyntaxTree, x: int) -> bool {
    0 <= x < tree.elems.len() && !tree.elems@[x].is_node && tree.elems@[x].kind == TK_END_OF_LINE
}

/// Walking back over blank tokens that hold two line ends finds no declaring comment.
proof fn lemma_walk_stops_at_blank_line(tree: &SyntaxTree, p: int, cur: int, seen: bool, e1: int)
    requires
        tree.wf(),
        0 <= p < tree.elems.len(),
        0 <= e1 < cur <= tree.elems.len(),
        forall|x: int| e1 <= x < cur ==> #[trigger] blank_child(tree, p, x),
        line_end_at(tree, e1),
        seen || exists|e2: int| e1 < e2 < cur && #[trigger] line_end_at(tree, e2),
    ensures
        !declared_walk(tree, p, cur, seen),
    decreases cur,
{
    let x = cur - 1;
    assert(blank_child(tree, p, x));
    assert(crate::render::child_on_path(tree, p, x, x)) by {
        assert(tree.ancestor_or_self(x, x));
    }
    let ch = choose|c: int| #[trigger] crate::render::child_on_path(tree, p, x, c);
    lemma_child_on_path_unique(tree, p, x, ch, x);
    assert(child_holding(tree, p, x) == Some(x));
    if tree.elems@[x].kind == TK_WHITESPACE {
        if !seen {
            let e2 = choose|e2: int| e1 < e2 < cur && #[trigger] line_end_at(tree, e2);
            assert(e2 != x);
            assert(e1 < e2 < x);
        }
        lemma_walk_stops_at_blank_line(tree, p, x, seen, e1);
    } else if !seen {
        let e2 = choose|e2: int| e1 < e2 < cur && #[trigger] line_end_at(tree, e2);
        assert(e1 < x);
        lemma_walk_stops_at_blank_line(tree, p, x, true, e1);
    }
}

/// A `@class` or `@enum` comment declares only the statement right below it: where the blank
/// tokens just before statement `s` hold two line ends (a blank line), `s` is not declared, and
/// so no table of its values is written one field per line on account of a declaration.
pub proof fn law_blank_line_detaches_declaration(tree: &SyntaxTree, s: int, e1: int, e2: int, l: int)
    requires
        tree.wf(),
        0 <= s < tree.elems.len(),
        tree.elems@[s].parent matches Some(p) && forall|x: int| e1 <= x < s ==> #[trigger] blank_child(tree, p as int, x),
        0 <= e1 < e2 < s,
        line_end_at(tree, e1),
        line_end_at(tree, e2),
    ensures
        !declared_spec(tree, s),
        0 <= l < tree.elems.len() && tree.elems@[l].parent == Some(s as usize) ==> !declared_table(tree, l),
        0 <= l < tree.elems.len() && tree.elems@[l].parent == Some(s as usize) ==> (expanded_list(tree, l) <==> (
        tree.elems@[l].is_node && is_list_kind(tree.elems@[l].kind) && (crate::layout::has_direct_comment_child(tree, l)
            || ((tree.elems@[l].kind == SK_TABLE_OBJECT_EXPR || tree.elems@[l].kind == SK_TABLE_ARRAY_EXPR) && exists|i: int|
            l < i < tree.elems@[l].end && #[trigger] is_field_at(tree, l, i) && spans_lines(tree, i))))),
{
    let p = tree.elems@[s].parent.unwrap() as int;
    assert(p < s);
    lemma_walk_stops_at_blank_line(tree, p, s, false, e1);
}

/// Walking back over blank tokens with at most one line end reaches the comment that holds
/// the element right before them.
proof fn lemma_walk_reaches_comment(tree: &SyntaxTree, p: int, cur: int, seen: bool, e0: int, c: int)
    requires
        tree.wf(),
        0 <= p < c < e0 <= cur <= tree.elems.len(),
        forall|x: int| e0 <= x < cur ==> #[trigger] blank_child(tree, p, x),
        forall|x1: int, x2: int|
            e0 <= x1 < cur && e0 <= x2 < cur && #[trigger] line_end_at(tree, x1) && #[trigger] line_end_at(tree, x2)
                ==> x1 == x2,
        seen ==> forall|x: int| e0 <= x < cur ==> !#[trigger] line_end_at(tree, x),
        tree.elems@[c].parent == Some(p as usize),
        tree.elems@[c].is_node && tree.elems@[c].kind == SK_COMMENT,
        tree.ancestor_or_self(c, e0 - 1),
        exists|i: int| c < i < tree.elems@[c].end && #[trigger] is_type_tag(tree, i),
    ensures
        declared_walk(tree, p, cur, seen),
    decreases cur,
{
    let x = cur - 1;
    if cur == e0 {
        assert(crate::render::child_on_path(tree, p, x, c));
        let ch = choose|d: int| #[trigger] crate::render::child_on_path(tree, p, x, d);
        lemma_child_on_path_unique(tree, p, x, ch, c);
        assert(child_holding(tree, p, x) == Some(c));
    } else {
        assert(blank_child(tree, p, x));
        assert(crate::render::child_on_path(tree, p, x, x)) by {
            assert(tree.ancestor_or_self(x, x));
        }
        let ch = choose|d: int| #[trigger] crate::render::child_on_path(tree, p, x, d);
        lemma_child_on_path_unique(tree, p, x, ch, x);
        assert(child_holding(tree, p, x) == Some(x));
        if tree.elems@[x].kind == TK_WHITESPACE {
            lemma_walk_reaches_comment(tree, p, x, seen, e0, c);
        } else {
            assert(line_end_at(tree, x));
            assert(!seen);
            assert forall|y: int| e0 <= y < x implies !#[trigger] line_end_at(tree, y) by {
                if line_end_at(tree, y) {
                    assert(y == x);
                }
            }
            lemma_walk_reaches_comment(tree, p, x, true, e0, c);
        }
    }
}

/// A `@class` or `@enum` comment right above statement `s`, with only blanks and at most one
/// line end between them (no blank line), declares `s`: the table that is the statement's first
/// value after `=` is written one field per line, whatever its width.
pub proof fn law_attached_declaration_expands(tree: &SyntaxTree, s: int, c: int, e0: int, l: int)
    requires
        tree.wf(),
        0 <= c < e0 <= s < tree.elems.len(),
        tree.elems@[s].parent matches Some(p) && tree.elems@[c].parent == Some(p) && forall|x: int|
            e0 <= x < s ==> #[trigger] blank_child(tree, p as int, x),
        forall|x1: int, x2: int|
            e0 <= x1 < s && e0 <= x2 < s && #[trigger] line_end_at(tree, x1) && #[trigger] line_end_at(tree, x2) ==> x1
                == x2,
        tree.elems@[c].is_node && tree.elems@[c].kind == SK_COMMENT,
        tree.ancestor_or_self(c, e0 - 1),
        exists|i: int| c < i < tree.elems@[c].end && #[trigger] is_type_tag(tree, i),
    ensures
        declared_spec(tree, s),
        0 <= l < tree.elems.len() && tree.elems@[l].parent == Some(s as usize) && (tree.elems@[l].kind
            == SK_TABLE_OBJECT_EXPR || tree.elems@[l].kind == SK_TABLE_ARRAY_EXPR) && tree.elems@[l].is_node && (
        tree.elems@[s].kind == SK_LOCAL_STAT || tree.elems@[s].kind == SK_ASSIGN_STAT) && first_after_assign(tree, s, l)
            ==> declared_table(tree, l) && expanded_list(tree, l),
{
    let p = tree.elems@[s].parent.unwrap() as int;
    assert(p < c) by {
        assert(tree.elems@[c].parent == Some(p as usize));
    }
    lemma_walk_reaches_comment(tree, p, s, false, e0, c);
}

/// Table `l` is the first value of a `local` or assignment statement that a `@class` or
/// `@enum` comment declares.
pub open spec fn declared_table(tree: &SyntaxTree, l: int) -> bool {
    let k = tree.elems@[l].kind;
    &&& (k == SK_TABLE_OBJECT_EXPR || k == SK_TABLE_ARRAY_EXPR)
    &&& tree.elems@[l].parent matches Some(s)
    &&& (tree.elems@[s as int].kind == SK_LOCAL_STAT || tree.elems@[s as int].kind == SK_ASSIGN_STAT)
    &&& first_after_assign(tree, s as int, l)
    &&& declared_spec(tree, s as int)
}

/// The closing token of list `l` starts its own line in `breaks`, where the list's first and
/// last tokens are two.
pub open spec fn closer_breaks(tree: &SyntaxTree, breaks: Seq<bool>, l: int) -> bool {
    match (first_solid_tok(tree, l), last_solid_tok(tree, l)) {
        (Some(o), Some(c)) => tree.token_pos_spec(o as int) < tree.token_pos_spec(c as int) ==> breaks[c as int],
        _ => true,
    }
}

/// List `l` is written one item per line whatever the width: it has a comment among its
/// children, is a table that a `@class` or `@enum` comment declares, or is a table with a field
/// that spans several lines.
pub open spec fn expanded_list(tree: &SyntaxTree, l: int) -> bool {
    &&& tree.elems@[l].is_node
    &&& is_list_kind(tree.elems@[l].kind)
    &&& (crate::layout::has_direct_comment_child(tree, l) || declared_table(tree, l) || ((tree.elems@[l].kind
        == SK_TABLE_OBJECT_EXPR || tree.elems@[l].kind == SK_TABLE_ARRAY_EXPR) && exists|i: int|
        l < i < tree.elems@[l].end && #[trigger] is_field_at(tree, l, i) && spans_lines(tree, i)))
}

/// Whether table `l` is the first value of a `local` or assignment statement that a `@class`
/// or `@enum` comment declares.
fn is_declared_table(tree: &SyntaxTree, l: usize) -> (r: bool)
    requires
        tree.wf(),
        l < tree.elems.len(),
    ensures
        r == declared_table(tree, l as int),
{
    let k = tree.elems[l].kind;
    if !(k == SK_TABLE_OBJECT_EXPR || k == SK_TABLE_ARRAY_EXPR) {
        return false;
    }
    let s = match tree.parent(l) {
        Some(s) => s,
        None => return false,
    };
    let sk = tree.elems[s].kind;
    if !(sk == SK_LOCAL_STAT || sk == SK_ASSIGN_STAT) {
        return false;
    }
    // The table must be the first node after the statement's `=`.
    let mut i = s + 1;
    let mut after_assign = false;
    while i < l
        invariant
            tree.wf(),
            l < tree.elems.len(),
            s < i <= l,
            tree.elems@[l as int].parent == Some(s),
            tree.elems@[l as int].kind == SK_TABLE_OBJECT_EXPR || tree.elems@[l as int].kind == SK_TABLE_ARRAY_EXPR,
            tree.elems@[s as int].kind == SK_LOCAL_STAT || tree.elems@[s as int].kind == SK_ASSIGN_STAT,
            !after_assign ==> forall|j: int| s < j < i ==> !#[trigger] is_assign_child(tree, s as int, j),
            after_assign ==> exists|a: int|
                s < a < i && #[trigger] is_assign_child(tree, s as int, a) && (forall|j: int|
                    s < j < a ==> !is_assign_child(tree, s as int, j)) && (forall|j: int|
                    a < j < i ==> !is_node_child(tree, s as int, j)),
        decreases l - i,
    {
        let e = tree.elems[i];
        if !e.is_node && e.kind == TK_ASSIGN && tree.parent(i) == Some(s) {
            proof {
                if !after_assign {
                    assert(is_assign_child(tree, s as int, i as int));
                    assert(forall|j: int| i < j < i + 1 ==> !is_node_child(tree, s as int, j));
                } else {
                    let a = choose|a: int|
                        s < a < i && #[trigger] is_assign_child(tree, s as int, a) && (forall|j: int|
                            s < j < a ==> !is_assign_child(tree, s as int, j)) && (forall|j: int|
                            a < j < i ==> !is_node_child(tree, s as int, j));
                    assert(!is_node_child(tree, s as int, i as int));
                    assert(forall|j: int| a < j < i + 1 ==> !is_node_child(tree, s as int, j));
                }
            }
            after_assign = true;
        } else if after_assign && e.is_node && tree.parent(i) == Some(s) {
            proof {
                assert(is_node_child(tree, s as int, i as int));
                let a = choose|a: int|
                    s < a < i && #[trigger] is_assign_child(tree, s as int, a) && (forall|j: int|
                        s < j < a ==> !is_assign_child(tree, s as int, j)) && (forall|j: int|
                        a < j < i ==> !is_node_child(tree, s as int, j));
                assert forall|b: int|
                    s < b < l && #[trigger] is_assign_child(tree, s as int, b) && (forall|j: int|
                        s < j < b ==> !is_assign_child(tree, s as int, j)) implies !(forall|j: int|
                    b < j < l ==> !is_node_child(tree, s as int, j)) by {
                    if b < a {
                        assert(!is_assign_child(tree, s as int, b));
                    } else if a < b {
                        assert(!is_assign_child(tree, s as int, a));
                    }
                    assert(b < i as int);
                    assert(is_node_child(tree, s as int, i as int));
                }
                assert(!first_after_assign(tree, s as int, l as int));
            }
            return false;
        } else {
            proof {
                assert(!is_assign_child(tree, s as int, i as int));
                if after_assign {
                    let a = choose|a: int|
                        s < a < i && #[trigger] is_assign_child(tree, s as int, a) && (forall|j: int|
                            s < j < a ==> !is_assign_child(tree, s as int, j)) && (forall|j: int|
                            a < j < i ==> !is_node_child(tree, s as int, j));
                    assert(!is_node_child(tree, s as int, i as int));
                    assert(forall|j: int| a < j < i + 1 ==> !is_node_child(tree, s as int, j));
                }
            }
        }
        i = i + 1;
    }
    after_assign && declared_by_comment(tree, s)
}

/// Whether table `l` has a field that spans several lines of the source.
fn has_multiline_field(tree: &SyntaxTree, l: usize) -> (r: bool)
    requires
        tree.wf(),
        l < tree.elems.len(),
    ensures
        r == exists|i: int|
            l < i < tree.elems@[l as int].end && #[trigger] is_field_at(tree, l as int, i) && spans_lines(tree, i),
{
    let end = tree.elems[l].end;
    let mut i = l + 1;
    while i < end
        invariant
            tree.wf(),
            l < i,
            end == tree.elems@[l as int].end,
            end <= tree.elems.len(),
            forall|j: int| l < j < i ==> !(#[trigger] is_field_at(tree, l as int, j) && spans_lines(tree, j)),
        decreases end - i,
    {
        let e = tree.elems[i];
        if e.is_node && tree.parent(i) == Some(l) && (e.kind == SK_TABLE_FIELD_ASSIGN || e.kind
            == SK_TABLE_FIELD_VALUE) {
            match (tree.first_solid_token(i), tree.last_solid_token(i)) {
                (Some(f), Some(g)) => {
                    proof {
                        lemma_spans_lines(tree, i as int, f as int, g as int);
                    }
                    if tree.newlines_between(f, g) > 0 {
                        assert(is_field_at(tree, l as int, i as int) && spans_lines(tree, i as int));
                        return true;
                    }
                },
                _ => {
                    proof {
                        lemma_no_solid_no_span(tree, i as int);
                    }
                },
            }
        }
        i = i + 1;
    }
    false
}

/// Element `i` is a field of table `l`.
pub open spec fn is_field_at(tree: &SyntaxTree, l: int, i: int) -> bool {
    &&& 0 <= i < tree.elems.len()
    &&& tree.elems@[i].is_node
    &&& tree.elems@[i].parent == Some(l as usize)
    &&& (tree.elems@[i].kind == SK_TABLE_FIELD_ASSIGN || tree.elems@[i].kind == SK_TABLE_FIELD_VALUE)
}

/// Whether list node `l` is written one item per line: it holds a comment, or it is a table
/// that a `@class` or `@enum` comment declares or that has a field spanning several lines.
fn is_expanded_list(tree: &SyntaxTree, l: usize) -> (r: bool)
    requires
        tree.wf(),
        l < tree.elems.len(),
    ensures
        r ==> tree.elems@[l as int].is_node && is_list_kind(tree.elems@[l as int].kind),
        r == expanded_list(tree, l as int),
{
    let e = tree.elems[l];
    if !e.is_node || !(e.kind == SK_CALL_ARG_LIST || e.kind == SK_PARAM_LIST || e.kind
        == SK_TABLE_OBJECT_EXPR || e.kind == SK_TABLE_ARRAY_EXPR) {
        return false;
    }
    crate::layout::node_has_direct_comment_child(tree, l) || is_declared_table(tree, l) || ((e.kind
        == SK_TABLE_OBJECT_EXPR || e.kind == SK_TABLE_ARRAY_EXPR) && has_multiline_field(tree, l))
}

/// A list of `n` copies of `v`.
pub fn filled<T: Copy>(n: usize, v: T) -> (r: Vec<T>)
    ensures
        r@.len() == n,
        forall|i: int| 0 <= i < n ==> #[trigger] r@[i] == v,
{
    let mut out: Vec<T> = Vec::new();
    let mut i: usize = 0;
    while i < n
        invariant
            out@.len() == i,
            i <= n,
            forall|j: int| 0 <= j < i ==> #[trigger] out@[j] == v,
        decreases n - i,
    {
        out.push(v);
        i = i + 1;
    }
    out
}

/// Marks the line breaks of expanded list `l`: before its first item (unless a comment trails
/// the opener), before each item after a separator (unless a comment trails the separator),
/// and before its closer; and moves each separator that follows a comment trailing an item to
/// right after that item.
fn mark_expanded(tree: &SyntaxTree, l: usize, out: &mut ListLayout)
    requires
        tree.wf(),
        l < tree.elems.len(),
        old(out).wf(tree.elems.len() as nat),
        old(out).moves_ok(tree),
    ensures
        final(out).wf(tree.elems.len() as nat),
        final(out).moves_ok(tree),
        final(out).expanded == old(out).expanded,
        final(out).verbatim_at == old(out).verbatim_at,
        final(out).hug == old(out).hug,
        final(out).deep == old(out).deep,
        forall|t: int| 0 <= t < tree.elems.len() && #[trigger] old(out).break_before@[t] ==> final(out).break_before@[t],
        match (first_solid_tok(tree, l as int), last_solid_tok(tree, l as int)) {
            (Some(o), Some(c)) => if tree.token_pos_spec(o as int) < tree.token_pos_spec(c as int) {
                &&& final(out).break_before@[c as int]
                &&& forall|t: int|
                    0 <= t < tree.elems.len() && #[trigger] final(out).break_before@[t] && !old(out).break_before@[t] ==> {
                        &&& !tree.elems@[t].is_node
                        &&& tree.token_pos_spec(o as int) < tree.elems@[t].token_index <= tree.token_pos_spec(c as int)
                    }
            } else {
                *final(out) == *old(out)
            },
            _ => *final(out) == *old(out),
        },
{
    let fo = tree.first_solid_token(l);
    proof {
        lemma_first_solid_tok(tree, l as int, fo);
    }
    let opener = match fo {
        Some(o) => o,
        None => return,
    };
    let fc = tree.last_solid_token(l);
    proof {
        lemma_last_solid_tok(tree, l as int, fc);
    }
    let closer = match fc {
        Some(c) => c,
        None => return,
    };
    let a = tree.token_pos(opener);
    let b = tree.token_pos(closer);
    if a >= b {
        return;
    }
    let mut want_break = true;
    let mut prev_solid = opener;
    let mut j = a + 1;
    while j < b
        invariant
            tree.wf(),
            out.wf(tree.elems.len() as nat),
            out.moves_ok(tree),
            out.expanded == old(out).expanded,
            out.verbatim_at == old(out).verbatim_at,
            out.hug == old(out).hug,
            out.deep == old(out).deep,
            a < j <= b,
            a == tree.token_pos_spec(opener as int),
            b == tree.token_pos_spec(closer as int),
            b < tree.tokens.len(),
            closer < tree.elems.len(),
            !tree.elems@[closer as int].is_node,
            prev_solid < tree.elems.len(),
            forall|t: int| 0 <= t < tree.elems.len() && #[trigger] old(out).break_before@[t] ==> out.break_before@[t],
            forall|t: int|
                0 <= t < tree.elems.len() && #[trigger] out.break_before@[t] && !old(out).break_before@[t] ==> {
                    &&& !tree.elems@[t].is_node
                    &&& a < tree.elems@[t].token_index < j
                },
        decreases b - j,
    {
        let u = tree.tokens[j];
        if !tree.is_blank_token(u) {
            let comment = tree.ancestor_of_kind(u, SK_COMMENT);
            let starts_comment = match comment {
                Some(c) => tree.first_solid_token(c) == Some(u),
                None => false,
            };
            let trails = starts_comment && tree.newlines_between(prev_solid, u) == 0;
            if want_break && !trails && comment.is_none() {
                out.break_before.set(u, true);
                want_break = false;
            } else if want_break && !trails && starts_comment {
                out.break_before.set(u, true);
            }
            if tree.is_token_kind(u, TK_COMMA) || tree.is_token_kind(u, TK_SEMICOLON) {
                if tree.parent(u) == Some(l) {
                    want_break = true;
                    // A separator right after a comment that trails an item moves before it.
                    if let Some(c) = tree.ancestor_of_kind(prev_solid, SK_COMMENT) {
                        if tree.parent(c) == Some(l) && tree.last_solid_token(c) == Some(prev_solid) {
                            if let Some(cf) = tree.first_solid_token(c) {
                                let cp = tree.token_pos(cf);
                                if cp > 0 && cp < tree.tokens.len() {
                                    let mut q = cp - 1;
                                    while q > 0 && tree.is_blank_token(tree.tokens[q])
                                        invariant
                                            tree.wf(),
                                            q < cp,
                                            cp < tree.tokens.len(),
                                            forall|k: int| q < k < cp ==> #[trigger] tree.is_blank_at(k),
                                        decreases q,
                                    {
                                        q = q - 1;
                                    }
                                    let x = tree.tokens[q];
                                    if !tree.is_blank_token(x) && tree.newlines_between(x, cf) == 0
                                        && !tree.is_token_kind(x, TK_COMMA) && !tree.is_token_kind(x, TK_SEMICOLON)
                                        && x != opener {
                                        let ghost before = out.comma_after@;
                                        out.comma_after.set(x, Some(u));
                                        out.moved.set(u, true);
                                        proof {
                                            assert(tree.token_pos_spec(x as int) == q);
                                            assert(tree.token_pos_spec(cf as int) == cp);
                                            assert(tree.first_solid(c as int, cf as int));
                                            assert forall|y: int|
                                                0 <= y < out.comma_after@.len() && #[trigger] out.comma_after@[y] is Some implies exists|c2: int, cf2: int|
                                                    #![trigger tree.first_solid(c2, cf2)]
                                                    0 <= c2 < tree.elems.len() && tree.elems@[c2].is_node && tree.elems@[c2].kind == SK_COMMENT
                                                        && tree.first_solid(c2, cf2) && tree.token_pos_spec(y) < tree.token_pos_spec(cf2)
                                                        && forall|k: int| tree.token_pos_spec(y) < k < tree.token_pos_spec(cf2) ==> #[trigger] tree.is_blank_at(k) by {
                                                if y != x as int {
                                                    assert(before[y] is Some);
                                                }
                                            }
                                        }
                                    }
                                }
                            }
                        }
                    }
                }
            }
            prev_solid = u;
        }
        j = j + 1;
    }
    out.break_before.set(closer, true);
}

/// Marks a call's `)` that follows the `}` of a table or the `end` of a function that is its
/// last argument: it stays on that line.
fn mark_hug(tree: &SyntaxTree, l: usize, out: &mut ListLayout)
    requires
        tree.wf(),
        l < tree.elems.len(),
        old(out).wf(tree.elems.len() as nat),
    ensures
        final(out).wf(tree.elems.len() as nat),
        final(out).expanded == old(out).expanded,
        final(out).verbatim_at == old(out).verbatim_at,
        final(out).break_before == old(out).break_before,
        final(out).comma_after == old(out).comma_after,
        final(out).moved == old(out).moved,
        final(out).deep == old(out).deep,
        forall|t: int|
            0 <= t < old(out).hug@.len() ==> #[trigger] final(out).hug@[t] == (old(out).hug@[t] || hugs_block(tree, l as int, t)),
{
    let closer = match tree.last_solid_token(l) {
        Some(c) => c,
        None => {
            proof {
                assert forall|t: int| !#[trigger] hugs_block(tree, l as int, t) by {
                    if hugs_block(tree, l as int, t) {
                        assert(tree.is_solid(t));
                    }
                }
            }
            return;
        },
    };
    proof {
        assert forall|t: int| #[trigger] hugs_block(tree, l as int, t) implies t == closer as int by {
            if t < closer {
                assert(!tree.is_solid(closer as int));
            } else if closer < t {
                assert(!tree.is_solid(t));
            }
        }
    }
    if !tree.is_token_kind(closer, TK_RIGHT_PAREN) {
        return;
    }
    let b = tree.token_pos(closer);
    let mut j = b;
    while j > 0
        invariant
            tree.wf(),
            j <= b,
            b == tree.token_pos_spec(closer as int),
            j < tree.tokens.len(),
            closer < tree.elems.len(),
            tree.last_solid(l as int, closer as int),
            tree.elems_kind_token(closer as int, TK_RIGHT_PAREN),
            forall|t: int| #[trigger] hugs_block(tree, l as int, t) ==> t == closer as int,
            forall|k: int| j <= k < b ==> !tree.is_solid(#[trigger] tree.tokens@[k] as int),
            out.wf(tree.elems.len() as nat),
            *out == *old(out),
        decreases j,
    {
        let u = tree.tokens[j - 1];
        if !tree.is_blank_token(u) {
            assert(last_solid_before(tree, b as int, j - 1));
            proof {
                assert forall|jj: int| #[trigger] last_solid_before(tree, b as int, jj) implies jj == j - 1 by {
                    if jj < j - 1 {
                        assert(!tree.is_solid(tree.tokens@[j - 1] as int));
                    }
                }
            }
            let owner = match tree.parent(u) {
                Some(o) => o,
                None => return,
            };
            let ok = (tree.is_token_kind(u, TK_RIGHT_BRACE) && (tree.elems[owner].kind == SK_TABLE_OBJECT_EXPR
                || tree.elems[owner].kind == SK_TABLE_ARRAY_EXPR)) || (tree.is_token_kind(u, TK_END)
                && tree.elems[owner].kind == SK_CLOSURE_EXPR);
            if ok && tree.parent(owner) == Some(l) {
                out.hug.set(closer, true);
            }
            return;
        }
        j = j - 1;
    }
    proof {
        assert forall|jj: int| !#[trigger] last_solid_before(tree, b as int, jj) by {
            if last_solid_before(tree, b as int, jj) {
                assert(tree.is_solid(tree.tokens@[jj] as int));
            }
        }
    }
}

/// Position `j` holds the last non-blank token before position `p`.
pub open spec fn last_solid_before(tree: &SyntaxTree, p: int, j: int) -> bool {
    &&& 0 <= j < p
    &&& j < tree.tokens.len()
    &&& tree.is_solid(tree.tokens@[j] as int)
    &&& forall|k: int| j < k < p ==> !tree.is_solid(#[trigger] tree.tokens@[k] as int)
}

/// Token `c` is the `)` that closes call argument list `l` right after a table or function
/// that is the list's last argument: the last non-blank token before it is that table's `}` or
/// that function's `end`.
pub open spec fn hugs_block(tree: &SyntaxTree, l: int, c: int) -> bool {
    &&& tree.last_solid(l, c)
    &&& tree.elems_kind_token(c, TK_RIGHT_PAREN)
    &&& exists|j: int| #[trigger] last_solid_before(tree, tree.token_pos_spec(c), j) && {
        let u = tree.tokens@[j] as int;
        &&& tree.elems@[u].parent matches Some(o)
        &&& ((tree.elems_kind_token(u, TK_RIGHT_BRACE) && (tree.elems@[o as int].kind == SK_TABLE_OBJECT_EXPR
            || tree.elems@[o as int].kind == SK_TABLE_ARRAY_EXPR)) || (tree.elems_kind_token(u, TK_END)
            && tree.elems@[o as int].kind == SK_CLOSURE_EXPR))
        &&& tree.elems@[o as int].parent == Some(l as usize)
    }
}

/// Whether node `a` is a function or a table that spans several source lines.
fn is_block_arg(tree: &SyntaxTree, a: usize) -> (r: bool)
    requires
        tree.wf(),
    ensures
        r ==> a < tree.elems.len() && tree.elems@[a as int].is_node,
        r == is_block_node(tree, a as int),
{
    if a >= tree.elems.len() || !tree.elems[a].is_node {
        return false;
    }
    let k = tree.elems[a].kind;
    if !(k == SK_CLOSURE_EXPR || k == SK_TABLE_OBJECT_EXPR || k == SK_TABLE_ARRAY_EXPR || k
        == SK_TABLE_EMPTY_EXPR) {
        return false;
    }
    match (tree.first_solid_token(a), tree.last_solid_token(a)) {
        (Some(f), Some(g)) => {
            proof {
                lemma_spans_lines(tree, a as int, f as int, g as int);
            }
            tree.newlines_between(f, g) > 0
        },
        (None, _) => {
            proof {
                lemma_no_solid_no_span(tree, a as int);
            }
            false
        },
        (_, None) => {
            proof {
                lemma_no_solid_no_span(tree, a as int);
            }
            false
        },
    }
}

/// The items of list `l`, in order.
fn list_items(tree: &SyntaxTree, l: usize) -> (r: Vec<usize>)
    requires
        tree.wf(),
        l < tree.elems.len(),
    ensures
        forall|i: int| 0 <= i < r@.len() ==> l < #[trigger] r@[i] < tree.elems.len(),
        forall|i: int|
            0 <= i < r@.len() ==> #[trigger] r@[i] < tree.elems@[l as int].end && is_item_at(tree, l as int, r@[i] as int),
        forall|i: int, j: int| 0 <= i < j < r@.len() ==> #[trigger] r@[i] < #[trigger] r@[j],
        forall|x: int|
            l < x < tree.elems@[l as int].end && is_item_at(tree, l as int, x) ==> r@.contains(x as usize),
{
    let end = tree.elems[l].end;
    let mut out: Vec<usize> = Vec::new();
    let mut i = l + 1;
    while i < end
        invariant
            tree.wf(),
            l < i <= end,
            end == tree.elems@[l as int].end,
            end <= tree.elems.len(),
            forall|j: int| 0 <= j < out@.len() ==> l < #[trigger] out@[j] < i,
            forall|j: int| 0 <= j < out@.len() ==> is_item_at(tree, l as int, #[trigger] out@[j] as int),
            forall|a: int, b: int| 0 <= a < b < out@.len() ==> #[trigger] out@[a] < #[trigger] out@[b],
            forall|x: int| l < x < i && is_item_at(tree, l as int, x) ==> out@.contains(x as usize),
        decreases end - i,
    {
        let e = tree.elems[i];
        let ghost before = out@;
        if e.is_node && e.kind != SK_COMMENT && tree.parent(i) == Some(l) {
            out.push(i);
            proof {
                assert forall|x: int| l < x < i + 1 && is_item_at(tree, l as int, x) implies out@.contains(x as usize) by {
                    if x < i {
                        let k = choose|k: int| 0 <= k < before.len() && before[k] == x as usize;
                        assert(out@[k] == x as usize);
                    } else {
                        assert(out@[before.len() as int] == i);
                    }
                }
            }
        }
        i = i + 1;
    }
    out
}

/// Node `a` is the one argument of list `l`.
pub open spec fn sole_item(tree: &SyntaxTree, l: int, a: int) -> bool {
    &&& l < a < tree.elems@[l].end
    &&& is_item_at(tree, l, a)
    &&& forall|b: int| l < b < tree.elems@[l].end && is_item_at(tree, l, b) ==> b == a
}

/// Call argument list `l` closes with `)` and has one argument, no function or table spanning
/// several lines, that spans several lines itself: it is kept one level deeper.
pub open spec fn deep_arg_list(tree: &SyntaxTree, l: int) -> bool {
    &&& exists|c: int| tree.last_solid(l, c) && tree.elems_kind_token(c, TK_RIGHT_PAREN)
    &&& exists|a: int| #[trigger] sole_item(tree, l, a) && !is_block_node(tree, a) && spans_lines(tree, a)
}

/// Lays out a call's arguments around a function or table that spans several lines. When the
/// first argument is such a function, the other arguments start a line of their own, one level
/// deeper, and the `)` closes right after them; when the first is such a table, the `)` closes
/// right after the last argument. Otherwise, when exactly one later argument is such a block and
/// arguments follow it, they stay on the line where the block closes and the `)` goes on a line
/// of its own; when the block is the last argument, the `)` closes right after it. A single
/// argument that spans several lines and is no such block is kept one level deeper.
fn mark_call_args(tree: &SyntaxTree, l: usize, out: &mut ListLayout)
    requires
        tree.wf(),
        l < tree.elems.len(),
        old(out).wf(tree.elems.len() as nat),
    ensures
        final(out).wf(tree.elems.len() as nat),
        final(out).expanded == old(out).expanded,
        final(out).verbatim_at == old(out).verbatim_at,
        final(out).comma_after == old(out).comma_after,
        final(out).moved == old(out).moved,
        final(out).deep@ == if deep_arg_list(tree, l as int) {
            old(out).deep@.update(l as int, true)
        } else {
            old(out).deep@
        },
        forall|t: int| 0 <= t < tree.elems.len() && #[trigger] old(out).break_before@[t] ==> final(out).break_before@[t],
{
    let closer = match tree.last_solid_token(l) {
        Some(c) => c,
        None => {
            proof {
                assert forall|c: int| !tree.last_solid(l as int, c) by {
                    if tree.last_solid(l as int, c) {
                        assert(tree.is_solid(c));
                    }
                }
            }
            return;
        },
    };
    proof {
        assert forall|c: int| tree.last_solid(l as int, c) implies c == closer as int by {
            if c < closer {
                assert(!tree.is_solid(closer as int));
            } else if closer < c {
                assert(!tree.is_solid(c));
            }
        }
    }
    if !tree.is_token_kind(closer, TK_RIGHT_PAREN) {
        return;
    }
    let args = list_items(tree, l);
    proof {
        if args@.len() == 1 {
            assert forall|b: int| l < b < tree.elems@[l as int].end && is_item_at(tree, l as int, b) implies b == args@[0] as int by {
                assert(args@.contains(b as usize));
            }
        }
        if args@.len() != 1 {
            assert forall|a: int| !sole_item(tree, l as int, a) by {
                if sole_item(tree, l as int, a) {
                    assert(args@.contains(a as usize));
                    if args@.len() > 1 {
                        assert(args@[0] != args@[1]);
                        assert(is_item_at(tree, l as int, args@[0] as int));
                        assert(is_item_at(tree, l as int, args@[1] as int));
                    }
                }
            }
        }
    }
    let mut deep = false;
    if args.len() == 1 && !is_block_arg(tree, args[0]) {
        match (tree.first_solid_token(args[0]), tree.last_solid_token(args[0])) {
            (Some(f), Some(g)) => {
                proof {
                    lemma_spans_lines(tree, args@[0] as int, f as int, g as int);
                }
                if tree.newlines_between(f, g) > 0 {
                    deep = true;
                }
            },
            _ => {
                proof {
                    lemma_no_solid_no_span(tree, args@[0] as int);
                }
            },
        }
    }
    proof {
        assert(tree.last_solid(l as int, closer as int) && tree.elems_kind_token(closer as int, TK_RIGHT_PAREN));
        if args@.len() == 1 {
            let a0 = args@[0] as int;
            assert(sole_item(tree, l as int, a0));
            assert forall|a: int| #[trigger] sole_item(tree, l as int, a) implies a == a0 by {}
            if deep {
                assert(sole_item(tree, l as int, a0) && !is_block_node(tree, a0) && spans_lines(tree, a0));
            }
        }
    }
    assert(deep == deep_arg_list(tree, l as int));
    if deep {
        out.deep.set(l, true);
    }
    if args.len() < 2 {
        mark_hug(tree, l, out);
        return;
    }
    if is_block_arg(tree, args[0]) {
        if tree.elems[args[0]].kind == SK_CLOSURE_EXPR {
            if let Some(second) = tree.first_solid_token(args[1]) {
                out.break_before.set(second, true);
            }
        }
        out.hug.set(closer, true);
        return;
    }
    let mut blocks: usize = 0;
    let mut last_block: usize = 0;
    let mut i: usize = 1;
    while i < args.len()
        invariant
            tree.wf(),
            blocks <= i,
            last_block < i,
            i <= args.len(),
        decreases args.len() - i,
    {
        if is_block_arg(tree, args[i]) {
            blocks = blocks + 1;
            last_block = i;
        }
        i = i + 1;
    }
    if blocks == 1 && last_block + 1 < args.len() {
        out.break_before.set(closer, true);
    } else {
        mark_hug(tree, l, out);
    }
}

/// `b` is `a` with line breaks also before the first non-blank token of each of `nodes` from
/// index `from` on.
pub open spec fn with_starts(tree: &SyntaxTree, a: Seq<bool>, b: Seq<bool>, nodes: Seq<int>, from: int) -> bool {
    &&& b.len() == a.len()
    &&& forall|t: int|
        0 <= t < a.len() ==> #[trigger] b[t] == (a[t] || exists|k: int|
            from <= k < nodes.len() && tree.first_solid(nodes[k], t))
}

/// Every field but the line breaks stays.
pub open spec fn only_breaks_change(a: ListLayout, b: ListLayout) -> bool {
    &&& b.expanded == a.expanded
    &&& b.hug == a.hug
    &&& b.comma_after == a.comma_after
    &&& b.moved == a.moved
    &&& b.verbatim_at == a.verbatim_at
    &&& b.deep == a.deep
}

/// Marks a line break before the first non-blank token of each of `nodes` from index `from` on.
fn mark_starts(tree: &SyntaxTree, nodes: &Vec<usize>, from: usize, out: &mut ListLayout)
    requires
        tree.wf(),
        old(out).wf(tree.elems.len() as nat),
    ensures
        final(out).wf(tree.elems.len() as nat),
        only_breaks_change(*old(out), *final(out)),
        with_starts(tree, old(out).break_before@, final(out).break_before@, nodes@.map_values(|x: usize| x as int), from as int),
{
    let ghost ns = nodes@.map_values(|x: usize| x as int);
    let mut k = from;
    proof {
        assert forall|t: int| 0 <= t < out.break_before@.len() implies #[trigger] out.break_before@[t] == (old(out).break_before@[t]
            || exists|q: int| from <= q < k && tree.first_solid(ns[q], t)) by {}
    }
    while k < nodes.len()
        invariant
            tree.wf(),
            from <= k,
            k <= nodes.len() || k == from,
            ns == nodes@.map_values(|x: usize| x as int),
            out.wf(tree.elems.len() as nat),
            only_breaks_change(*old(out), *out),
            out.break_before@.len() == old(out).break_before@.len(),
            forall|t: int|
                0 <= t < out.break_before@.len() ==> #[trigger] out.break_before@[t] == (old(out).break_before@[t]
                    || exists|q: int| from <= q < k && tree.first_solid(ns[q], t)),
        decreases nodes.len() - k,
    {
        assert(ns[k as int] == nodes@[k as int] as int);
        let ghost before = out.break_before@;
        match tree.first_solid_token(nodes[k]) {
            Some(f) => {
                out.break_before.set(f, true);
                proof {
                    assert forall|t: int| 0 <= t < out.break_before@.len() implies #[trigger] out.break_before@[t] == (old(out).break_before@[t]
                        || exists|q: int| from <= q < k + 1 && tree.first_solid(ns[q], t)) by {
                        if t == f {
                            assert(tree.first_solid(ns[k as int], t));
                        } else {
                            if tree.first_solid(ns[k as int], t) {
                                if t < f {
                                    assert(!tree.is_solid(t));
                                } else {
                                    assert(!tree.is_solid(f as int));
                                }
                            }
                            assert(out.break_before@[t] == before[t]);
                        }
                    }
                }
            },
            None => {
                proof {
                    assert forall|t: int| 0 <= t < out.break_before@.len() implies #[trigger] out.break_before@[t] == (old(out).break_before@[t]
                        || exists|q: int| from <= q < k + 1 && tree.first_solid(ns[q], t)) by {
                        if tree.first_solid(ns[k as int], t) {
                            assert(tree.is_solid(t));
                        }
                    }
                }
            },
        }
        k = k + 1;
    }
    proof {
        assert forall|t: int| 0 <= t < out.break_before@.len() implies #[trigger] out.break_before@[t] == (old(out).break_before@[t]
            || exists|q: int| from <= q < ns.len() && tree.first_solid(ns[q], t)) by {
            if exists|q: int| from <= q < k && tree.first_solid(ns[q], t) {
                let q = choose|q: int| from <= q < k && tree.first_solid(ns[q], t);
                assert(from <= q < ns.len());
            }
            if exists|q: int| from <= q < ns.len() && tree.first_solid(ns[q], t) {
                let q = choose|q: int| from <= q < ns.len() && tree.first_solid(ns[q], t);
                assert(from <= q < k);
            }
        }
    }
}

/// Whether node `x` holds, at any depth, a function or table that spans several source lines.
fn holds_block(tree: &SyntaxTree, x: usize) -> (r: bool)
    requires
        tree.wf(),
        x < tree.elems.len(),
    ensures
        r == exists|i: int| x <= i < tree.elems@[x as int].end && #[trigger] is_block_node(tree, i),
{
    let end = tree.elems[x].end;
    let mut i = x;
    while i < end
        invariant
            tree.wf(),
            x <= i,
            end == tree.elems@[x as int].end,
            end <= tree.elems.len(),
            forall|j: int| x <= j < i ==> !#[trigger] is_block_node(tree, j),
        decreases end - i,
    {
        if is_block_arg(tree, i) {
            return true;
        }
        i = i + 1;
    }
    false
}

/// In the header of a `for` statement whose first value holds a function or table spanning
/// several lines, each later value starts a line of its own, one level deeper.
fn mark_header_values(tree: &SyntaxTree, s: usize, out: &mut ListLayout)
    requires
        tree.wf(),
        s < tree.elems.len(),
        old(out).wf(tree.elems.len() as nat),
    ensures
        final(out).wf(tree.elems.len() as nat),
        final(out).expanded == old(out).expanded,
        final(out).verbatim_at == old(out).verbatim_at,
        only_breaks_change(*old(out), *final(out)),
        ({
            let ex = crate::layout::stat_exprs(tree, s as int, false);
            if ex.len() >= 2 && exists|i: int| ex[0] <= i < tree.elems@[ex[0]].end && #[trigger] is_block_node(tree, i) {
                with_starts(tree, old(out).break_before@, final(out).break_before@, ex, 1)
            } else {
                final(out).break_before == old(out).break_before
            }
        }),
{
    let exprs = crate::layout::collect_stat_exprs(tree, s, false);
    let ghost ex = crate::layout::stat_exprs(tree, s as int, false);
    assert(exprs@.map_values(|x: usize| x as int) =~= ex);
    if exprs.len() < 2 {
        return;
    }
    assert(ex[0] == exprs@[0] as int);
    if !holds_block(tree, exprs[0]) {
        return;
    }
    mark_starts(tree, &exprs, 1, out);
}

/// Statement `s` is a `local`, assignment or `return` whose plan keeps its first value as
/// written when it spans several lines.
pub open spec fn preserves_first(tree: &SyntaxTree, plan: &RootFormatPlan, s: int) -> bool {
    let e = tree.elems@[s];
    &&& e.is_node
    &&& (e.kind == SK_LOCAL_STAT || e.kind == SK_ASSIGN_STAT || e.kind == SK_RETURN_STAT)
    &&& plan.layout.statement_expr_lists@.contains_key(tree.spec_id(s))
    &&& plan.layout.statement_expr_lists@[tree.spec_id(s)].kind is PreserveFirstMultiline
}

/// Node `n` is the first value of a statement that keeps that value, spanning several lines,
/// as it stands, and has more values.
pub open spec fn preserved_first_value(tree: &SyntaxTree, plan: &RootFormatPlan, n: int) -> bool {
    exists|s: int|
        0 <= s < tree.elems.len() && #[trigger] preserves_first(tree, plan, s) && crate::layout::stat_exprs(
            tree,
            s,
            tree.elems@[s].kind == SK_ASSIGN_STAT,
        ).len() > 1 && crate::layout::stat_exprs(tree, s, tree.elems@[s].kind == SK_ASSIGN_STAT)[0] == n
}

/// The first token of value `k` (not the first) of a statement `s` that keeps its first value
/// as written, where a line break goes.
pub open spec fn preserved_break_at(tree: &SyntaxTree, plan: &RootFormatPlan, s: int, k: int) -> Option<usize> {
    let ex = crate::layout::stat_exprs(tree, s, tree.elems@[s].kind == SK_ASSIGN_STAT);
    if preserves_first(tree, plan, s) && ex.len() > 1 && 1 <= k < ex.len() {
        first_solid_tok(tree, ex[k])
    } else {
        None
    }
}

/// Marks the value lists whose first value is a function or table spanning several lines, as
/// the plan records them: that value is written as its source text, and each later value starts
/// a line of its own, one level deeper.
fn mark_preserved_first_values(tree: &SyntaxTree, plan: &RootFormatPlan, out: &mut ListLayout)
    requires
        tree.wf(),
        plan.wf(),
        old(out).wf(tree.elems.len() as nat),
        old(out).verbatim_ok(tree),
        old(out).verbatim_from(tree, plan),
    ensures
        final(out).verbatim_from(tree, plan),
        final(out).wf(tree.elems.len() as nat),
        final(out).verbatim_ok(tree),
        final(out).expanded == old(out).expanded,
        final(out).hug == old(out).hug,
        final(out).deep == old(out).deep,
        final(out).comma_after == old(out).comma_after,
        final(out).moved == old(out).moved,
        forall|t: int| 0 <= t < tree.elems.len() && #[trigger] old(out).break_before@[t] ==> final(out).break_before@[t],
        forall|s: int, k: int|
            0 <= s < tree.elems.len() && #[trigger] preserved_break_at(tree, plan, s, k) is Some ==> final(out).break_before@[
                preserved_break_at(tree, plan, s, k).unwrap() as int
            ],
{
    let n = tree.elems.len();
    let mut s: usize = 0;
    while s < n
        invariant
            tree.wf(),
            plan.wf(),
            n == tree.elems.len(),
            out.wf(n as nat),
            out.verbatim_ok(tree),
            out.verbatim_from(tree, plan),
            out.expanded == old(out).expanded,
            out.hug == old(out).hug,
            out.deep == old(out).deep,
            out.comma_after == old(out).comma_after,
            out.moved == old(out).moved,
            forall|t: int| 0 <= t < n && #[trigger] old(out).break_before@[t] ==> out.break_before@[t],
            forall|s2: int, k: int|
                0 <= s2 < s && #[trigger] preserved_break_at(tree, plan, s2, k) is Some ==> out.break_before@[
                    preserved_break_at(tree, plan, s2, k).unwrap() as int
                ],
        decreases n - s,
    {
        let e = tree.elems[s];
        if e.is_node && (e.kind == SK_LOCAL_STAT || e.kind == SK_ASSIGN_STAT || e.kind == SK_RETURN_STAT) {
            let preserve = match plan.layout.statement_expr_lists.get(tree.id(s)) {
                Some(p) => match p.kind {
                    StatementExprListLayoutKind::PreserveFirstMultiline => true,
                    _ => false,
                },
                None => false,
            };
            assert(preserve == preserves_first(tree, plan, s as int));
            if preserve {
                let exprs = crate::layout::collect_stat_exprs(tree, s, e.kind == SK_ASSIGN_STAT);
                let ghost ex = crate::layout::stat_exprs(tree, s as int, tree.elems@[s as int].kind == SK_ASSIGN_STAT);
                if exprs.len() > 1 {
                    if let Some(f) = tree.first_solid_token(exprs[0]) {
                        let ghost before = out.verbatim_at@;
                        out.verbatim_at.set(f, Some(exprs[0]));
                        proof {
                            assert(preserves_first(tree, plan, s as int));
                            assert(ex[0] == exprs@[0] as int);
                            assert(preserved_first_value(tree, plan, exprs@[0] as int));
                            assert forall|g: int|
                                0 <= g < out.verbatim_at@.len() implies (#[trigger] out.verbatim_at@[g] matches Some(m)
                                    ==> preserved_first_value(tree, plan, m as int)) by {
                                if g != f as int {
                                    assert(out.verbatim_at@[g] == before[g]);
                                }
                            }
                        }
                    }
                    let mut k: usize = 1;
                    while k < exprs.len()
                        invariant
                            tree.wf(),
                            n == tree.elems.len(),
                            s < n,
                            exprs@.len() == ex.len(),
                            forall|q: int| 0 <= q < exprs@.len() ==> #[trigger] exprs@[q] as int == ex[q],
                            ex == crate::layout::stat_exprs(tree, s as int, tree.elems@[s as int].kind == SK_ASSIGN_STAT),
                            preserves_first(tree, plan, s as int),
                            ex.len() > 1,
                            1 <= k <= ex.len(),
                            forall|q: int| 0 <= q < exprs@.len() ==> #[trigger] exprs@[q] < n,
                            out.wf(n as nat),
                            out.verbatim_ok(tree),
                            out.verbatim_from(tree, plan),
            out.verbatim_from(tree, plan),
                            out.expanded == old(out).expanded,
                            out.hug == old(out).hug,
                            out.deep == old(out).deep,
                            out.comma_after == old(out).comma_after,
                            out.moved == old(out).moved,
                            forall|t: int| 0 <= t < n && #[trigger] old(out).break_before@[t] ==> out.break_before@[t],
                            forall|s2: int, k2: int|
                                0 <= s2 < s && #[trigger] preserved_break_at(tree, plan, s2, k2) is Some ==> out.break_before@[
                                    preserved_break_at(tree, plan, s2, k2).unwrap() as int
                                ],
                            forall|k2: int|
                                k2 < k && #[trigger] preserved_break_at(tree, plan, s as int, k2) is Some ==> out.break_before@[
                                    preserved_break_at(tree, plan, s as int, k2).unwrap() as int
                                ],
                        decreases exprs.len() - k,
                    {
                        let fk = tree.first_solid_token(exprs[k]);
                        proof {
                            lemma_first_solid_tok(tree, exprs@[k as int] as int, fk);
                        }
                        if let Some(f) = fk {
                            out.break_before.set(f, true);
                        }
                        k = k + 1;
                    }
                }
            }
        }
        s = s + 1;
    }
}

/// Marks a break before the first token of each direct child of `p` that is a statement or a
/// clause, and before each statement of a block that is a direct child of `p`.
pub(crate) fn mark_body_lines(tree: &SyntaxTree, p: usize, out: &mut ListLayout)
    requires
        tree.wf(),
        p < tree.elems.len(),
        old(out).wf(tree.elems.len() as nat),
    ensures
        final(out).wf(tree.elems.len() as nat),
        final(out).expanded == old(out).expanded,
        final(out).verbatim_at == old(out).verbatim_at,
        only_breaks_change(*old(out), *final(out)),
        forall|t: int|
            0 <= t < old(out).break_before@.len() ==> #[trigger] final(out).break_before@[t] == (old(out).break_before@[t]
                || exists|i: int| p < i < tree.elems@[p as int].end && body_item(tree, p as int, i) && tree.first_solid(i, t)),
{
    let end = tree.elems[p].end;
    let mut i = p + 1;
    while i < end
        invariant
            tree.wf(),
            p < i <= end,
            p < tree.elems.len(),
            end == tree.elems@[p as int].end,
            end <= tree.elems.len(),
            out.wf(tree.elems.len() as nat),
            only_breaks_change(*old(out), *out),
            out.break_before@.len() == old(out).break_before@.len(),
            forall|t: int|
                0 <= t < out.break_before@.len() ==> #[trigger] out.break_before@[t] == (old(out).break_before@[t]
                    || exists|x: int| p < x < i && body_item(tree, p as int, x) && tree.first_solid(x, t)),
        decreases end - i,
    {
        let ghost before = out.break_before@;
        let e = tree.elems[i];
        let mut hit = false;
        if e.is_node && e.kind != SK_COMMENT {
            let par = tree.parent(i);
            let in_block = match par {
                Some(b) => tree.elems[b].kind == SK_BLOCK && tree.parent(b) == Some(p),
                None => false,
            };
            let clause = par == Some(p) && (e.kind == SK_ELSE_IF_CLAUSE_STAT || e.kind == SK_ELSE_CLAUSE_STAT);
            hit = in_block || clause;
        }
        assert(hit == body_item(tree, p as int, i as int));
        if hit {
            match tree.first_solid_token(i) {
                Some(f) => {
                    out.break_before.set(f, true);
                    proof {
                        assert forall|t: int| 0 <= t < out.break_before@.len() implies #[trigger] out.break_before@[t] == (old(out).break_before@[t]
                            || exists|x: int| p < x < i + 1 && body_item(tree, p as int, x) && tree.first_solid(x, t)) by {
                            if t == f {
                                assert(tree.first_solid(i as int, t));
                            } else {
                                if tree.first_solid(i as int, t) {
                                    if t < f {
                                        assert(!tree.is_solid(t));
                                    } else {
                                        assert(!tree.is_solid(f as int));
                                    }
                                }
                                assert(out.break_before@[t] == before[t]);
                            }
                        }
                    }
                },
                None => {
                    proof {
                        assert forall|t: int| 0 <= t < out.break_before@.len() implies #[trigger] out.break_before@[t] == (old(out).break_before@[t]
                            || exists|x: int| p < x < i + 1 && body_item(tree, p as int, x) && tree.first_solid(x, t)) by {
                            if tree.first_solid(i as int, t) {
                                assert(tree.is_solid(t));
                            }
                        }
                    }
                },
            }
        }
        i = i + 1;
    }
}

/// Element `i` starts a line when the body of statement or clause `p` is written over several
/// lines: a statement of a block of `p`, or an `elseif` or `else` clause of `p`.
pub open spec fn body_item(tree: &SyntaxTree, p: int, i: int) -> bool {
    &&& 0 <= i < tree.elems.len()
    &&& tree.elems@[i].is_node
    &&& tree.elems@[i].kind != SK_COMMENT
    &&& ((tree.elems@[i].parent matches Some(b) && tree.elems@[b as int].kind == SK_BLOCK && tree.elems@[b as int].parent
        == Some(p as usize)) || (tree.elems@[i].parent == Some(p as usize) && is_clause_kind(tree.elems@[i].kind)))
}

/// `elseif` and `else` clauses.
pub open spec fn is_clause_kind(k: u16) -> bool {
    k == SK_ELSE_IF_CLAUSE_STAT || k == SK_ELSE_CLAUSE_STAT
}

/// Writes an `if` statement over several lines: each body statement, each clause and the
/// closing `end` start a line. With `from_source`, only one that stands on one source line and has
/// an `else` or `elseif` clause. Returns whether it marked anything.
fn mark_single_line_if(tree: &SyntaxTree, s: usize, from_source: bool, out: &mut ListLayout) -> (r: bool)
    requires
        tree.wf(),
        s < tree.elems.len(),
        old(out).wf(tree.elems.len() as nat),
    ensures
        final(out).wf(tree.elems.len() as nat),
        final(out).expanded == old(out).expanded,
        final(out).verbatim_at == old(out).verbatim_at,
        only_breaks_change(*old(out), *final(out)),
        r == if_written_over_lines(tree, s as int, from_source),
        !r ==> final(out).break_before == old(out).break_before,
        forall|t: int| 0 <= t < old(out).break_before@.len() && old(out).break_before@[t] ==> #[trigger] final(out).break_before@[t],
        r ==> forall|g: int| #[trigger] tree.last_solid(s as int, g) ==> final(out).break_before@[g],
        r ==> forall|i: int, t: int|
            s < i < tree.elems@[s as int].end && body_item(tree, s as int, i) && #[trigger] tree.first_solid(i, t) ==> final(out).break_before@[t],
{
    let (first, last) = match (tree.first_solid_token(s), tree.last_solid_token(s)) {
        (Some(f), Some(l)) => (f, l),
        _ => {
            proof {
                lemma_no_solid_no_span(tree, s as int);
                assert forall|f: int, g: int| !(tree.first_solid(s as int, f) && tree.last_solid(s as int, g)) by {
                    if tree.first_solid(s as int, f) {
                        assert(tree.is_solid(f));
                    }
                }
            }
            return false;
        },
    };
    proof {
        assert forall|f2: int, g2: int| tree.first_solid(s as int, f2) && tree.last_solid(s as int, g2) implies f2 == first && g2 == last by {
            if f2 < first {
                assert(!tree.is_solid(f2));
            }
            if first < f2 {
                assert(!tree.is_solid(first as int));
            }
            if g2 < last {
                assert(!tree.is_solid(last as int));
            }
            if last < g2 {
                assert(!tree.is_solid(g2));
            }
        }
    }
    if (from_source && tree.newlines_between(first, last) > 0) || !tree.is_token_kind(last, TK_END) {
        return false;
    }
    let end = tree.elems[s].end;
    let mut clauses: Vec<usize> = Vec::new();
    let mut i = s + 1;
    while i < end
        invariant
            tree.wf(),
            s < i <= end,
            end == tree.elems@[s as int].end,
            end <= tree.elems.len(),
            forall|k: int| 0 <= k < clauses@.len() ==> #[trigger] clauses@[k] < tree.elems.len(),
            clauses@.len() == 0 ==> forall|c: int| s < c < i ==> !#[trigger] clause_of(tree, s as int, c),
            clauses@.len() > 0 ==> exists|c: int| s < c < end && #[trigger] clause_of(tree, s as int, c),
        decreases end - i,
    {
        let e = tree.elems[i];
        if e.is_node && tree.parent(i) == Some(s) && (e.kind == SK_ELSE_IF_CLAUSE_STAT || e.kind
            == SK_ELSE_CLAUSE_STAT) {
            assert(clause_of(tree, s as int, i as int));
            clauses.push(i);
        }
        i = i + 1;
    }
    if from_source && clauses.len() == 0 {
        return false;
    }
    mark_body_lines(tree, s, out);
    let ghost after_body = out.break_before@;
    let mut k: usize = 0;
    while k < clauses.len()
        invariant
            tree.wf(),
            forall|q: int| 0 <= q < clauses@.len() ==> #[trigger] clauses@[q] < tree.elems.len(),
            out.wf(tree.elems.len() as nat),
            out.expanded == old(out).expanded,
            out.verbatim_at == old(out).verbatim_at,
            only_breaks_change(*old(out), *out),
            out.break_before@.len() == after_body.len(),
            forall|t: int| 0 <= t < after_body.len() && after_body[t] ==> #[trigger] out.break_before@[t],
        decreases clauses.len() - k,
    {
        mark_body_lines(tree, clauses[k], out);
        k = k + 1;
    }
    out.break_before.set(last, true);
    true
}

/// Node `c` is an `elseif` or `else` clause of statement `s`.
pub open spec fn clause_of(tree: &SyntaxTree, s: int, c: int) -> bool {
    &&& 0 <= c < tree.elems.len()
    &&& tree.elems@[c].is_node
    &&& tree.elems@[c].parent == Some(s as usize)
    &&& is_clause_kind(tree.elems@[c].kind)
}

/// Whether `if` statement `s` is written over several lines: it ends with `end` and, with
/// `from_source`, stands on one source line and has an `elseif` or `else` clause.
pub open spec fn if_written_over_lines(tree: &SyntaxTree, s: int, from_source: bool) -> bool {
    exists|f: int, g: int|
        tree.first_solid(s, f) && tree.last_solid(s, g) && tree.elems_kind_token(g, TK_END) && (from_source ==> (tree.line_breaks_in(
            tree.token_pos_spec(f) + 1,
            tree.token_pos_spec(g),
        ) == 0 && exists|c: int| s < c < tree.elems@[s].end && #[trigger] clause_of(tree, s, c)))
}

/// The number of characters on each line of `text`.
fn line_lengths(text: &Vec<char>) -> (r: Vec<usize>)
    ensures
        r@.len() > 0,
        r@ == line_widths(text@),
{
    let mut lens: Vec<usize> = Vec::new();
    let mut cur: usize = 0;
    let mut i: usize = 0;
    while i < text.len()
        invariant
            i <= text.len(),
            cur <= i,
            lens@.push(cur) == line_widths(text@.take(i as int)),
        decreases text.len() - i,
    {
        assert(text@.take(i + 1).drop_last() == text@.take(i as int));
        assert(text@.take(i + 1).last() == text@[i as int]);
        if text[i] == '\n' {
            lens.push(cur);
            cur = 0;
        } else {
            cur = cur + 1;
        }
        i = i + 1;
    }
    assert(text@.take(text@.len() as int) == text@);
    lens.push(cur);
    lens
}

/// The number of characters on each line of `text`, the last line included.
pub open spec fn line_widths(text: Seq<char>) -> Seq<usize>
    decreases text.len(),
{
    if text.len() == 0 {
        seq![0usize]
    } else {
        let p = line_widths(text.drop_last());
        if text.last() == '\n' {
            p.push(0usize)
        } else {
            p.update(p.len() - 1, (p.last() + 1) as usize)
        }
    }
}

/// The output line where a rendering wrote token `t` on its own.
fn line_of(st: &RenderState, t: usize) -> (r: Option<usize>)
    ensures
        r == if t < st.tok_line@.len() && st.tok_line@[t as int] != usize::MAX {
            Some(st.tok_line@[t as int])
        } else {
            None
        },
{
    if t < st.tok_line.len() && st.tok_line[t] != usize::MAX {
        Some(st.tok_line[t])
    } else {
        None
    }
}

/// The entry of `v` at `t`, or 0 past its end.
pub open spec fn entry_or_zero(v: Seq<usize>, t: int) -> usize {
    if 0 <= t < v.len() {
        v[t]
    } else {
        0
    }
}

/// The entry of `v` for token `t`, or 0.
fn at_or_zero(v: &Vec<usize>, t: usize) -> (r: usize)
    ensures
        r == entry_or_zero(v@, t as int),
{
    if t < v.len() {
        v[t]
    } else {
        0
    }
}

/// The expansion strategy the configuration sets for lists of kind `k`.
pub open spec fn strategy_for(config: LuaFormatConfig, k: u16) -> ExpandStrategy {
    if k == SK_CALL_ARG_LIST {
        config.layout.call_args_expand
    } else if k == SK_PARAM_LIST {
        config.layout.func_params_expand
    } else {
        config.layout.table_expand
    }
}

/// Whether the configuration lets a list of kind `k` break when it does not fit.
fn may_break(ctx: &FormatContext, k: u16) -> (r: bool)
    ensures
        r == !(strategy_for(*ctx.config, k) is Never),
{
    let strategy = if k == SK_CALL_ARG_LIST {
        ctx.config.layout.call_args_expand
    } else if k == SK_PARAM_LIST {
        ctx.config.layout.func_params_expand
    } else {
        ctx.config.layout.table_expand
    };
    match strategy {
        ExpandStrategy::Never => false,
        _ => true,
    }
}

/// Moves the items of list `l`, which opens with `o` and closes with `c` on one output line of
/// `st`, below the opener, one level deeper, and `c` onto a line of its own: the items fill each
/// line as far as the width allows, or, for a table of named fields under field alignment, go one
/// per line.
fn break_list(ctx: &FormatContext, tree: &SyntaxTree, st: &RenderState, l: usize, o: usize, c: usize, out: &mut ListLayout)
    requires
        tree.wf(),
        l < tree.elems.len(),
        tree.elems@[l as int].is_node,
        is_list_kind(tree.elems@[l as int].kind),
        c < tree.elems.len(),
        old(out).wf(tree.elems.len() as nat),
    ensures
        final(out).wf(tree.elems.len() as nat),
        final(out).verbatim_at == old(out).verbatim_at,
        forall|m: int|
            0 <= m < tree.elems.len() && #[trigger] final(out).expanded@[m] ==> old(out).expanded@[m] || m == l,
        final(out).expanded@ == old(out).expanded@.update(l as int, true),
        final(out).break_before@.len() == old(out).break_before@.len(),
        final(out).break_before@[c as int],
        forall|t: int| 0 <= t < old(out).break_before@.len() && old(out).break_before@[t] ==> #[trigger] final(out).break_before@[t],
        final(out).hug == old(out).hug,
        final(out).comma_after == old(out).comma_after,
        final(out).moved == old(out).moved,
        final(out).deep == old(out).deep,
{
    let items = list_items(tree, l);
    out.expanded.set(l, true);
    out.break_before.set(c, true);
    let level = at_or_zero(&st.line_indent, o);
    let base = indent_columns(ctx, level.saturating_add(1));
    let one_per_line = tree.elems[l].kind == SK_TABLE_OBJECT_EXPR && ctx.config.align.table_field;
    let max = ctx.config.layout.max_line_width;
    let mut cur = base;
    let mut k: usize = 0;
    while k < items.len()
        invariant
            tree.wf(),
            out.wf(tree.elems.len() as nat),
            out.verbatim_at == old(out).verbatim_at,
            forall|m: int|
                0 <= m < tree.elems.len() && #[trigger] out.expanded@[m] ==> old(out).expanded@[m] || m == l,
            out.expanded@ == old(out).expanded@.update(l as int, true),
            out.break_before@.len() == old(out).break_before@.len(),
            c < tree.elems.len(),
            out.break_before@[c as int],
            forall|t: int| 0 <= t < old(out).break_before@.len() && old(out).break_before@[t] ==> #[trigger] out.break_before@[t],
            out.hug == old(out).hug,
            out.comma_after == old(out).comma_after,
            out.moved == old(out).moved,
            out.deep == old(out).deep,
        decreases items.len() - k,
    {
        if let (Some(f), Some(g)) = (tree.first_solid_token(items[k]), tree.last_solid_token(items[k])) {
            let sep: usize = if k + 1 < items.len() {
                1
            } else {
                0
            };
            let w = at_or_zero(&st.end_col, g).saturating_sub(at_or_zero(&st.tok_col, f)).saturating_add(sep);
            if k == 0 || one_per_line || cur.saturating_add(1).saturating_add(w) > max {
                out.break_before.set(f, true);
                cur = base.saturating_add(w);
            } else {
                cur = cur.saturating_add(1).saturating_add(w);
            }
        }
        k = k + 1;
    }
}

/// The operator token of binary expression `b`: its first direct child token that is neither
/// blank nor inside a comment.
fn binary_op(tree: &SyntaxTree, b: usize) -> (r: Option<usize>)
    requires
        tree.wf(),
    ensures
        r matches Some(u) ==> u < tree.elems.len() && node_is(tree, b as int, SK_BINARY_EXPR)
            && first_direct_solid_is(tree, b as int, u as int),
        r is None ==> !node_is(tree, b as int, SK_BINARY_EXPR) || no_direct_solid(tree, b as int),
{
    if b >= tree.elems.len() || !tree.elems[b].is_node || tree.elems[b].kind != SK_BINARY_EXPR {
        return None;
    }
    first_direct_solid(tree, b)
}

/// Whether `p` is a binary expression with an operator of kind `op`.
fn same_op(tree: &SyntaxTree, p: usize, op: u16) -> (r: bool)
    requires
        tree.wf(),
    ensures
        r == (node_is(tree, p as int, SK_BINARY_EXPR) && exists|u: int|
            first_direct_solid_is(tree, p as int, u) && tree.elems@[u].kind == op),
{
    match binary_op(tree, p) {
        Some(u) => {
            proof {
                assert forall|v: int| first_direct_solid_is(tree, p as int, v) implies v == u as int by {
                    lemma_first_direct_solid_unique(tree, p as int, u as int, v);
                }
            }
            tree.elems[u].kind == op
        },
        None => false,
    }
}

/// The operators of the chain that binary expression `b` heads: its own and those of the
/// operands, at any depth, that are binary expressions with the same operator, in order.
fn chain_ops(tree: &SyntaxTree, b: usize) -> (r: Vec<usize>)
    requires
        tree.wf(),
        b < tree.elems.len(),
    ensures
        forall|i: int| 0 <= i < r@.len() ==> #[trigger] r@[i] < tree.elems.len(),
        forall|i: int| 0 <= i < r@.len() ==> #[trigger] chain_op_of(tree, b as int, r@[i] as int),
        forall|i: int, j: int| 0 <= i < j < r@.len() ==> #[trigger] r@[i] < #[trigger] r@[j],
        forall|u: int| node_is(tree, b as int, SK_BINARY_EXPR) && first_direct_solid_is(tree, b as int, u) ==> r@.contains(u as usize),
{
    let mut out: Vec<usize> = Vec::new();
    let u0 = match binary_op(tree, b) {
        Some(u) => u,
        None => return out,
    };
    let op = tree.elems[u0].kind;
    proof {
        assert forall|u: int| first_direct_solid_is(tree, b as int, u) implies u == u0 as int by {
            lemma_first_direct_solid_unique(tree, b as int, u, u0 as int);
        }
    }
    let end = tree.elems[b].end;
    let mut i = b + 1;
    while i < end
        invariant
            tree.wf(),
            b < i <= end,
            end == tree.elems@[b as int].end,
            end <= tree.elems.len(),
            node_is(tree, b as int, SK_BINARY_EXPR),
            first_direct_solid_is(tree, b as int, u0 as int),
            op == tree.elems@[u0 as int].kind,
            forall|u: int| first_direct_solid_is(tree, b as int, u) ==> u == u0 as int,
            forall|k: int| 0 <= k < out@.len() ==> #[trigger] out@[k] < tree.elems.len(),
            forall|k: int| 0 <= k < out@.len() ==> b < #[trigger] out@[k] < i,
            forall|k: int| 0 <= k < out@.len() ==> #[trigger] chain_op_of(tree, b as int, out@[k] as int),
            forall|x: int, y: int| 0 <= x < y < out@.len() ==> #[trigger] out@[x] < #[trigger] out@[y],
            u0 < i ==> out@.contains(u0),
        decreases end - i,
    {
        let ghost before = out@;
        if let Some(p) = tree.parent(i) {
            if binary_op(tree, p) == Some(i) && tree.elems[i].kind == op {
                // Every binary expression from `p` up to `b` has the same operator.
                let mut q = p;
                let mut ok = true;
                while q > b
                    invariant
                        tree.wf(),
                        p == b ==> (q == b && ok),
                    decreases q,
                {
                    if !same_op(tree, q, op) {
                        ok = false;
                        break;
                    }
                    q = match tree.parent(q) {
                        Some(x) => x,
                        None => {
                            ok = false;
                            break;
                        },
                    };
                }
                if ok && q == b {
                    assert(chain_op_of(tree, b as int, i as int));
                    out.push(i);
                    proof {
                        if u0 < i {
                            let k = choose|k: int| 0 <= k < before.len() && before[k] == u0;
                            assert(out@[k] == u0);
                        }
                        assert(out@[before.len() as int] == i);
                    }
                }
            }
        }
        proof {
            if i == u0 {
                assert(tree.elems@[u0 as int].parent == Some(b));
                assert(out@.contains(u0));
            }
        }
        i = i + 1;
    }
    out
}

/// Token `u` lies in binary expression `b` and is the operator of a binary expression there
/// whose operator is of the kind of `b`'s own.
pub open spec fn chain_op_of(tree: &SyntaxTree, b: int, u: int) -> bool {
    &&& b < u < tree.elems@[b].end
    &&& tree.elems@[u].parent matches Some(p)
    &&& node_is(tree, p as int, SK_BINARY_EXPR)
    &&& first_direct_solid_is(tree, p as int, u)
    &&& exists|w: int| first_direct_solid_is(tree, b, w) && tree.elems@[w].kind == tree.elems@[u].kind
}

/// The last token before position `pos` that is neither blank nor inside a comment.
fn solid_before(tree: &SyntaxTree, u: usize) -> (r: Option<usize>)
    requires
        tree.wf(),
    ensures
        r matches Some(x) ==> x < tree.elems.len() && last_code_before(tree, u as int, tree.elems@[x as int].token_index as int)
            && tree.tokens@[tree.elems@[x as int].token_index as int] == x,
        r is None ==> forall|j: int|
            0 <= j < tree.token_pos_spec(u as int) && j < tree.tokens.len() ==> !is_code_token(tree, #[trigger] tree.tokens@[j] as int),
        r == code_before_tok(tree, u as int),
{
    let mut j = tree.token_pos(u);
    while j > 0
        invariant
            tree.wf(),
            j <= tree.tokens.len(),
            j <= tree.token_pos_spec(u as int),
            forall|k: int| j <= k < tree.token_pos_spec(u as int) && k < tree.tokens.len() ==> !is_code_token(tree, #[trigger] tree.tokens@[k] as int),
        decreases j,
    {
        let v = tree.tokens[j - 1];
        if v < tree.elems.len() && !tree.is_blank_token(v) && tree.ancestor_of_kind(v, SK_COMMENT).is_none() {
            proof {
                assert(last_code_before(tree, u as int, j - 1));
                assert forall|jj: int| last_code_before(tree, u as int, jj) implies jj == j - 1 by {
                    if jj < j - 1 {
                        assert(!is_code_token(tree, tree.tokens@[j - 1] as int));
                    }
                }
                assert(tree.elems@[v as int].token_index == j - 1);
            }
            return Some(v);
        }
        j = j - 1;
    }
    proof {
        assert forall|jj: int| !last_code_before(tree, u as int, jj) by {
            if last_code_before(tree, u as int, jj) {
                assert(is_code_token(tree, tree.tokens@[jj] as int));
            }
        }
    }
    None
}

/// The width of `levels` indentation levels in output columns.
fn indent_columns(ctx: &FormatContext, levels: usize) -> (r: usize)
    ensures
        r == indent_cols(*ctx.config, levels as int),
        r == if levels * indent_unit(*ctx.config) <= usize::MAX {
            levels * indent_unit(*ctx.config)
        } else {
            usize::MAX as int
        },
{
    let unit = match ctx.config.indent.kind {
        IndentKind::Tab => 1,
        IndentKind::Space => ctx.config.indent.width,
    };
    let mut base: usize = 0;
    let mut i: usize = 0;
    while i < levels
        invariant
            i <= levels,
            unit == indent_unit(*ctx.config),
            base == if i * unit <= usize::MAX {
                i * unit
            } else {
                usize::MAX as int
            },
        decreases levels - i,
    {
        assert((i + 1) * unit == i * unit + unit) by (nonlinear_arith);
        base = base.saturating_add(unit);
        i = i + 1;
    }
    base
}

/// The width of one indentation level in output columns: a tab counts as one.
pub open spec fn indent_unit(config: LuaFormatConfig) -> usize {
    match config.indent.kind {
        IndentKind::Tab => 1,
        IndentKind::Space => config.indent.width,
    }
}

/// Places line breaks before some of `starts`, the first tokens of the items that follow what
/// the first line starts with (which ends at column `first_end`); `widths` and `gaps` give each
/// item's width and the gap before it, and broken lines start at column `base`. With
/// `force_first`, the first item starts a line. With `packed_lead`, when it fits and needs no
/// more lines than filling, the first line keeps that many items and each later line two;
/// otherwise each line takes items as far as the width allows.
fn place_breaks(
    ctx: &FormatContext,
    tree: &SyntaxTree,
    base: usize,
    first_end: usize,
    starts: &Vec<usize>,
    widths: &Vec<usize>,
    gaps: &Vec<usize>,
    force_first: bool,
    packed_lead: Option<usize>,
    out: &mut ListLayout,
)
    requires
        tree.wf(),
        starts@.len() == widths@.len(),
        starts@.len() == gaps@.len(),
        forall|i: int| 0 <= i < starts@.len() ==> #[trigger] starts@[i] < tree.elems.len(),
        old(out).wf(tree.elems.len() as nat),
    ensures
        final(out).wf(tree.elems.len() as nat),
        final(out).verbatim_at == old(out).verbatim_at,
        final(out).expanded == old(out).expanded,
        only_breaks_change(*old(out), *final(out)),
        final(out).break_before@.len() == old(out).break_before@.len(),
        forall|t: int|
            0 <= t < old(out).break_before@.len() ==> #[trigger] final(out).break_before@[t] == (old(out).break_before@[t]
                || exists|k: int|
                0 <= k < starts@.len() && starts@[k] == t && chosen_breaks(
                    ctx.config.layout.max_line_width,
                    base,
                    first_end,
                    widths@,
                    gaps@,
                    force_first,
                    packed_lead,
                )[k]),
{
    let m = starts.len();
    let max = ctx.config.layout.max_line_width;
    // Filling: where the breaks go and how many lines it takes.
    let mut fill_breaks: Vec<bool> = Vec::new();
    let mut fill_lines: usize = 1;
    let mut cur = first_end;
    let mut k: usize = 0;
    while k < m
        invariant
            widths@.len() == m,
            gaps@.len() == m,
            k <= m,
            fill_fold(max, base, first_end, widths@, gaps@, force_first, k as nat) == (fill_breaks@, fill_lines, cur),
        decreases m - k,
    {
        let brk = (k == 0 && force_first) || cur.saturating_add(gaps[k]).saturating_add(widths[k]) > max;
        if brk {
            fill_lines = fill_lines.saturating_add(1);
            cur = base.saturating_add(widths[k]);
        } else {
            cur = cur.saturating_add(gaps[k]).saturating_add(widths[k]);
        }
        fill_breaks.push(brk);
        k = k + 1;
    }
    // Packing: the lead items stay on the first line, then two per line.
    let mut packed = false;
    let mut pack_breaks: Vec<bool> = Vec::new();
    if let Some(lead) = packed_lead {
        let mut fits = true;
        let mut lines: usize = 1;
        let mut cur = first_end;
        let mut k: usize = 0;
        while k < m
            invariant
                widths@.len() == m,
                gaps@.len() == m,
                k <= m,
                pack_fold(max, base, first_end, widths@, gaps@, lead, k as nat) == (pack_breaks@, lines, cur, fits),
            decreases m - k,
        {
            let brk = k >= lead && (k - lead) % 2 == 0;
            if brk {
                lines = lines.saturating_add(1);
                cur = base.saturating_add(widths[k]);
            } else {
                cur = cur.saturating_add(gaps[k]).saturating_add(widths[k]);
            }
            if cur > max {
                fits = false;
            }
            pack_breaks.push(brk);
            k = k + 1;
        }
        packed = fits && lines <= fill_lines;
    }
    let ghost chosen = chosen_breaks(max, base, first_end, widths@, gaps@, force_first, packed_lead);
    assert(chosen == if packed { pack_breaks@ } else { fill_breaks@ });
    assert(fill_breaks@.len() == m) by {
        lemma_fill_fold_len(max, base, first_end, widths@, gaps@, force_first, m as nat);
    }
    if packed {
        assert(pack_breaks@.len() == m) by {
            lemma_pack_fold_len(max, base, first_end, widths@, gaps@, packed_lead.unwrap(), m as nat);
        }
    }
    let mut k: usize = 0;
    while k < m
        invariant
            tree.wf(),
            m == starts@.len(),
            k <= m,
            fill_breaks@.len() == m,
            packed ==> pack_breaks@.len() == m,
            chosen == if packed { pack_breaks@ } else { fill_breaks@ },
            forall|i: int| 0 <= i < starts@.len() ==> #[trigger] starts@[i] < tree.elems.len(),
            out.wf(tree.elems.len() as nat),
            only_breaks_change(*old(out), *out),
            out.break_before@.len() == old(out).break_before@.len(),
            forall|t: int|
                0 <= t < out.break_before@.len() ==> #[trigger] out.break_before@[t] == (old(out).break_before@[t]
                    || exists|q: int| 0 <= q < k && starts@[q] == t && chosen[q]),
        decreases m - k,
    {
        let brk = if packed {
            pack_breaks[k]
        } else {
            fill_breaks[k]
        };
        let ghost before = out.break_before@;
        if brk {
            out.break_before.set(starts[k], true);
        }
        proof {
            assert forall|t: int| 0 <= t < out.break_before@.len() implies #[trigger] out.break_before@[t] == (old(out).break_before@[t]
                || exists|q: int| 0 <= q < k + 1 && starts@[q] == t && chosen[q]) by {
                if t == starts@[k as int] && brk {
                } else {
                    assert(out.break_before@[t] == before[t]);
                    if exists|q: int| 0 <= q < k + 1 && starts@[q] == t && chosen[q] {
                        let q = choose|q: int| 0 <= q < k + 1 && starts@[q] == t && chosen[q];
                        assert(q < k || !brk || t != starts@[k as int]);
                    }
                }
            }
        }
        k = k + 1;
    }
}

/// `a` plus `b`, capped at the largest `usize`.
pub open spec fn sat_add(a: int, b: int) -> usize {
    if a + b > usize::MAX {
        usize::MAX
    } else if a + b < 0 {
        0
    } else {
        (a + b) as usize
    }
}

/// Filling lines with the first `k` items: where the breaks go, how many lines there are and
/// the column where the last line ends.
pub open spec fn fill_fold(
    max: usize,
    base: usize,
    first_end: usize,
    widths: Seq<usize>,
    gaps: Seq<usize>,
    force_first: bool,
    k: nat,
) -> (Seq<bool>, usize, usize)
    decreases k,
{
    if k == 0 {
        (Seq::empty(), 1, first_end)
    } else {
        let prev = fill_fold(max, base, first_end, widths, gaps, force_first, (k - 1) as nat);
        let i = k - 1;
        let brk = (i == 0 && force_first) || sat_add(sat_add(prev.2 as int, gaps[i] as int) as int, widths[i] as int) > max;
        if brk {
            (prev.0.push(true), sat_add(prev.1 as int, 1), sat_add(base as int, widths[i] as int))
        } else {
            (prev.0.push(false), prev.1, sat_add(sat_add(prev.2 as int, gaps[i] as int) as int, widths[i] as int))
        }
    }
}

/// Packing the first `k` items, `lead` of them on the first line and then two per line: where
/// the breaks go, how many lines there are, the column where the last line ends, and whether
/// every line fits.
pub open spec fn pack_fold(
    max: usize,
    base: usize,
    first_end: usize,
    widths: Seq<usize>,
    gaps: Seq<usize>,
    lead: usize,
    k: nat,
) -> (Seq<bool>, usize, usize, bool)
    decreases k,
{
    if k == 0 {
        (Seq::empty(), 1, first_end, true)
    } else {
        let prev = pack_fold(max, base, first_end, widths, gaps, lead, (k - 1) as nat);
        let i = k - 1;
        let brk = i >= lead && (i - lead) % 2 == 0;
        let lines = if brk {
            sat_add(prev.1 as int, 1)
        } else {
            prev.1
        };
        let cur = if brk {
            sat_add(base as int, widths[i] as int)
        } else {
            sat_add(sat_add(prev.2 as int, gaps[i] as int) as int, widths[i] as int)
        };
        (prev.0.push(brk), lines, cur, prev.3 && !(cur > max))
    }
}

/// The breaks placed among `widths.len()` items: packing when it is asked for, fits and needs
/// no more lines than filling; otherwise filling.
pub open spec fn chosen_breaks(
    max: usize,
    base: usize,
    first_end: usize,
    widths: Seq<usize>,
    gaps: Seq<usize>,
    force_first: bool,
    packed_lead: Option<usize>,
) -> Seq<bool> {
    let m = widths.len();
    let fill = fill_fold(max, base, first_end, widths, gaps, force_first, m);
    match packed_lead {
        Some(lead) => {
            let pack = pack_fold(max, base, first_end, widths, gaps, lead, m);
            if pack.3 && pack.1 <= fill.1 {
                pack.0
            } else {
                fill.0
            }
        },
        None => fill.0,
    }
}

proof fn lemma_fill_fold_len(max: usize, base: usize, first_end: usize, widths: Seq<usize>, gaps: Seq<usize>, force_first: bool, k: nat)
    ensures
        fill_fold(max, base, first_end, widths, gaps, force_first, k).0.len() == k,
    decreases k,
{
    if k > 0 {
        lemma_fill_fold_len(max, base, first_end, widths, gaps, force_first, (k - 1) as nat);
    }
}

proof fn lemma_pack_fold_len(max: usize, base: usize, first_end: usize, widths: Seq<usize>, gaps: Seq<usize>, lead: usize, k: nat)
    ensures
        pack_fold(max, base, first_end, widths, gaps, lead, k).0.len() == k,
    decreases k,
{
    if k > 0 {
        lemma_pack_fold_len(max, base, first_end, widths, gaps, lead, (k - 1) as nat);
    }
}

/// The widths of the items that start with `starts` and end right before the next one, the last
/// with `last`, as rendering `st` wrote them, and the gaps before them.
fn item_widths(tree: &SyntaxTree, st: &RenderState, starts: &Vec<usize>, last: usize) -> (r: (Vec<usize>, Vec<usize>))
    requires
        tree.wf(),
    ensures
        r.0@.len() == starts@.len(),
        r.1@.len() == starts@.len(),
        forall|k: int| 0 <= k < starts@.len() ==> #[trigger] r.0@[k] == seg_width(tree, st.tok_col@, st.end_col@, starts@, last as int, k),
        forall|k: int| 0 <= k < starts@.len() ==> #[trigger] r.1@[k] == seg_gap(tree, st.tok_col@, st.end_col@, starts@, k),
{
    let m = starts.len();
    let mut widths: Vec<usize> = Vec::new();
    let mut gaps: Vec<usize> = Vec::new();
    let mut k: usize = 0;
    while k < m
        invariant
            tree.wf(),
            widths@.len() == k,
            gaps@.len() == k,
            k <= m,
            m == starts@.len(),
            forall|q: int| 0 <= q < k ==> #[trigger] widths@[q] == seg_width(tree, st.tok_col@, st.end_col@, starts@, last as int, q),
            forall|q: int| 0 <= q < k ==> #[trigger] gaps@[q] == seg_gap(tree, st.tok_col@, st.end_col@, starts@, q),
        decreases m - k,
    {
        let s = starts[k];
        let seg_end = if k + 1 < m {
            solid_before(tree, starts[k + 1])
        } else {
            Some(last)
        };
        let start = at_or_zero(&st.tok_col, s);
        let w = match seg_end {
            Some(e) => at_or_zero(&st.end_col, e).saturating_sub(start),
            None => 0,
        };
        let g = match solid_before(tree, s) {
            Some(p) => start.saturating_sub(at_or_zero(&st.end_col, p)),
            None => 0,
        };
        widths.push(w);
        gaps.push(g);
        k = k + 1;
    }
    (widths, gaps)
}

/// The column where what comes before token `s` ends in rendering `st`.
fn end_before(tree: &SyntaxTree, st: &RenderState, s: usize) -> (r: usize)
    requires
        tree.wf(),
    ensures
        r == end_before_spec(tree, st.end_col@, s as int),
        (exists|j: int| last_code_before(tree, s as int, j) && r == entry_or_zero(st.end_col@, tree.tokens@[j] as int))
            || (r == 0 && forall|j: int|
            0 <= j < tree.token_pos_spec(s as int) && j < tree.tokens.len() ==> !is_code_token(tree, #[trigger] tree.tokens@[j] as int)),
{
    match solid_before(tree, s) {
        Some(p) => at_or_zero(&st.end_col, p),
        None => 0,
    }
}

/// Breaks the chain of binary expression `b`, written on one line of `st`, before some of its
/// operators `ops`; the broken lines go one level deeper. The first line keeps the first two
/// operands and each later line two segments when that fits and needs no more lines than
/// filling each line as far as the width allows; otherwise the lines are filled.
fn break_chain(ctx: &FormatContext, tree: &SyntaxTree, st: &RenderState, b: usize, ops: &Vec<usize>, out: &mut ListLayout)
    requires
        tree.wf(),
        b < tree.elems.len(),
        forall|i: int| 0 <= i < ops@.len() ==> #[trigger] ops@[i] < tree.elems.len(),
        old(out).wf(tree.elems.len() as nat),
    ensures
        final(out).wf(tree.elems.len() as nat),
        final(out).verbatim_at == old(out).verbatim_at,
        final(out).expanded == old(out).expanded,
        only_breaks_change(*old(out), *final(out)),
        if ops@.len() > 0 && last_solid_tok(tree, b as int) is Some {
            breaks_at_chosen(old(out).break_before@, final(out).break_before@, ops@, measured_breaks(
                *ctx.config,
                tree,
                *st,
                ops@,
                last_solid_tok(tree, b as int).unwrap() as int,
                sat_add(line_level(tree, st.line_indent@, b as int) as int, 1) as int,
                false,
                Some(1),
            ))
        } else {
            final(out).break_before == old(out).break_before
        },
{
    if ops.len() == 0 {
        return;
    }
    let last = match tree.last_solid_token(b) {
        Some(l) => l,
        None => {
            proof {
                lemma_last_solid_tok(tree, b as int, None);
            }
            return;
        },
    };
    proof {
        lemma_last_solid_tok(tree, b as int, Some(last));
    }
    let (widths, gaps) = item_widths(tree, st, ops, last);
    let fs = tree.first_solid_token(b);
    proof {
        lemma_first_solid_tok(tree, b as int, fs);
    }
    let level = match fs {
        Some(f) => at_or_zero(&st.line_indent, f),
        None => 0,
    };
    let base = indent_columns(ctx, level.saturating_add(1));
    let first_end = end_before(tree, st, ops[0]);
    assert(widths@ =~= Seq::new(ops@.len(), |k: int| seg_width(tree, st.tok_col@, st.end_col@, ops@, last as int, k)));
    assert(gaps@ =~= Seq::new(ops@.len(), |k: int| seg_gap(tree, st.tok_col@, st.end_col@, ops@, k)));
    place_breaks(ctx, tree, base, first_end, ops, &widths, &gaps, false, Some(1), out);
}

/// Breaks the value list `exprs` of statement `s`, written on one line of `st`, before some of
/// its values after the first; the broken lines go one level deeper. Each later line takes two
/// values when that is allowed, fits and needs no more lines than filling; otherwise the lines
/// are filled.
fn break_expr_list(ctx: &FormatContext, tree: &SyntaxTree, st: &RenderState, s: usize, exprs: &Vec<usize>, allow_packed: bool, out: &mut ListLayout)
    requires
        tree.wf(),
        s < tree.elems.len(),
        forall|i: int| 0 <= i < exprs@.len() ==> #[trigger] exprs@[i] < tree.elems.len(),
        old(out).wf(tree.elems.len() as nat),
    ensures
        final(out).wf(tree.elems.len() as nat),
        final(out).verbatim_at == old(out).verbatim_at,
        final(out).expanded == old(out).expanded,
        only_breaks_change(*old(out), *final(out)),
        if exprs@.len() >= 2 && last_solid_tok(tree, exprs@.last() as int) is Some && forall|k: int|
            1 <= k < exprs@.len() ==> #[trigger] first_solid_tok(tree, exprs@[k] as int) is Some {
            breaks_at_chosen(old(out).break_before@, final(out).break_before@, value_starts(tree, exprs@), measured_breaks(
                *ctx.config,
                tree,
                *st,
                value_starts(tree, exprs@),
                last_solid_tok(tree, exprs@.last() as int).unwrap() as int,
                sat_add(line_level(tree, st.line_indent@, s as int) as int, 1) as int,
                false,
                if allow_packed {
                    Some(0)
                } else {
                    None
                },
            ))
        } else {
            final(out).break_before == old(out).break_before
        },
{
    if exprs.len() < 2 {
        return;
    }
    let last = match tree.last_solid_token(exprs[exprs.len() - 1]) {
        Some(l) => l,
        None => {
            proof {
                lemma_last_solid_tok(tree, exprs@.last() as int, None);
            }
            return;
        },
    };
    proof {
        lemma_last_solid_tok(tree, exprs@.last() as int, Some(last));
    }
    let mut starts: Vec<usize> = Vec::new();
    let mut k: usize = 1;
    while k < exprs.len()
        invariant
            tree.wf(),
            1 <= k <= exprs@.len(),
            starts@.len() == k - 1,
            forall|i: int| 0 <= i < exprs@.len() ==> #[trigger] exprs@[i] < tree.elems.len(),
            forall|i: int| 0 <= i < starts@.len() ==> #[trigger] starts@[i] < tree.elems.len(),
            forall|i: int| 0 <= i < starts@.len() ==> #[trigger] starts@[i] == first_solid_tok(tree, exprs@[i + 1] as int).unwrap(),
            forall|q: int| 1 <= q < k ==> #[trigger] first_solid_tok(tree, exprs@[q] as int) is Some,
            out.wf(tree.elems.len() as nat),
            *out == *old(out),
        decreases exprs.len() - k,
    {
        let fk = tree.first_solid_token(exprs[k]);
        proof {
            lemma_first_solid_tok(tree, exprs@[k as int] as int, fk);
        }
        match fk {
            Some(f) => starts.push(f),
            None => return,
        }
        k = k + 1;
    }
    assert(starts@ =~= value_starts(tree, exprs@));
    let (widths, gaps) = item_widths(tree, st, &starts, last);
    let fs = tree.first_solid_token(s);
    proof {
        lemma_first_solid_tok(tree, s as int, fs);
    }
    let level = match fs {
        Some(f) => at_or_zero(&st.line_indent, f),
        None => 0,
    };
    let base = indent_columns(ctx, level.saturating_add(1));
    let first_end = end_before(tree, st, starts[0]);
    let lead = if allow_packed {
        Some(0)
    } else {
        None
    };
    assert(widths@ =~= Seq::new(starts@.len(), |k: int| seg_width(tree, st.tok_col@, st.end_col@, starts@, last as int, k)));
    assert(gaps@ =~= Seq::new(starts@.len(), |k: int| seg_gap(tree, st.tok_col@, st.end_col@, starts@, k)));
    place_breaks(ctx, tree, base, first_end, &starts, &widths, &gaps, false, lead, out);
}

/// The first tokens of the values of a list after the first.
pub open spec fn value_starts(tree: &SyntaxTree, exprs: Seq<usize>) -> Seq<usize> {
    Seq::new((exprs.len() - 1) as nat, |k: int| first_solid_tok(tree, exprs[k + 1] as int).unwrap())
}

/// Whether node `k` is a call expression.
fn is_call_kind(k: u16) -> (r: bool)
    ensures
        r == (SK_CALL_EXPR <= k <= SK_SETMETATABLE_CALL_EXPR),
{
    SK_CALL_EXPR <= k && k <= SK_SETMETATABLE_CALL_EXPR
}

/// The prefix of call or index expression `e`: its first child that is a node other than a
/// comment.
fn prefix_of(tree: &SyntaxTree, e: usize) -> (r: Option<usize>)
    requires
        tree.wf(),
    ensures
        r matches Some(p) ==> e < p < tree.elems.len(),
        r matches Some(p) ==> p < tree.elems@[e as int].end && is_item_at(tree, e as int, p as int)
            && forall|i: int| e < i < p ==> !is_item_at(tree, e as int, i),
        r is None ==> e >= tree.elems.len() || forall|i: int|
            e < i < tree.elems@[e as int].end ==> !is_item_at(tree, e as int, i),
{
    if e >= tree.elems.len() {
        return None;
    }
    let end = tree.elems[e].end;
    let mut i = e + 1;
    while i < end
        invariant
            tree.wf(),
            e < i,
            e < tree.elems.len(),
            end == tree.elems@[e as int].end,
            end <= tree.elems.len(),
            forall|x: int| e < x < i ==> !is_item_at(tree, e as int, x),
        decreases end - i,
    {
        let x = tree.elems[i];
        if x.is_node && x.kind != SK_COMMENT && tree.parent(i) == Some(e) {
            return Some(i);
        }
        i = i + 1;
    }
    None
}

/// The first direct child token of node `e` that is neither blank nor inside a comment.
fn first_direct_solid(tree: &SyntaxTree, e: usize) -> (r: Option<usize>)
    requires
        tree.wf(),
    ensures
        r matches Some(u) ==> u < tree.elems.len() && first_direct_solid_is(tree, e as int, u as int),
        r is None ==> e >= tree.elems.len() || no_direct_solid(tree, e as int),
{
    if e >= tree.elems.len() {
        return None;
    }
    let end = tree.elems[e].end;
    let mut i = e + 1;
    while i < end
        invariant
            tree.wf(),
            e < i,
            e < tree.elems.len(),
            end == tree.elems@[e as int].end,
            end <= tree.elems.len(),
            forall|x: int| e < x < i ==> !is_direct_solid(tree, e as int, x),
        decreases end - i,
    {
        if !tree.elems[i].is_node && !tree.is_blank_token(i) && tree.parent(i) == Some(e) {
            return Some(i);
        }
        i = i + 1;
    }
    None
}

/// The segments of the chain of calls and accesses that expression `r` heads, from its root on:
/// the first token of each segment, and the argument lists of the calls along the chain.
fn chain_spine(tree: &SyntaxTree, r: usize) -> (res: (Vec<usize>, Vec<usize>))
    requires
        tree.wf(),
    ensures
        forall|i: int| 0 <= i < res.0@.len() ==> #[trigger] res.0@[i] < tree.elems.len(),
        forall|i: int| 0 <= i < res.1@.len() ==> #[trigger] res.1@[i] < tree.elems.len(),
        forall|i: int| 0 <= i < res.1@.len() ==> node_is(tree, #[trigger] res.1@[i] as int, SK_CALL_ARG_LIST),
{
    let mut rev: Vec<usize> = Vec::new();
    let mut arg_lists: Vec<usize> = Vec::new();
    let mut cur = r;
    while cur < tree.elems.len()
        invariant
            tree.wf(),
            forall|i: int| 0 <= i < rev@.len() ==> #[trigger] rev@[i] < tree.elems.len(),
            forall|i: int| 0 <= i < arg_lists@.len() ==> #[trigger] arg_lists@[i] < tree.elems.len(),
            forall|i: int| 0 <= i < arg_lists@.len() ==> node_is(tree, #[trigger] arg_lists@[i] as int, SK_CALL_ARG_LIST),
        decreases tree.elems.len() - cur,
    {
        let k = tree.elems[cur].kind;
        if !tree.elems[cur].is_node {
            break;
        }
        if is_call_kind(k) {
            let p = match prefix_of(tree, cur) {
                Some(p) => p,
                None => break,
            };
            let args = match tree.last_solid_token(cur) {
                Some(_) => {
                    // The argument list is the call's last child node.
                    let end = tree.elems[cur].end;
                    let mut a: Option<usize> = None;
                    let mut i = p + 1;
                    while i < end
                        invariant
                            tree.wf(),
                            end <= tree.elems.len(),
                            a matches Some(x) ==> x < tree.elems.len() && node_is(tree, x as int, SK_CALL_ARG_LIST),
                        decreases end - i,
                    {
                        if tree.elems[i].is_node && tree.elems[i].kind == SK_CALL_ARG_LIST && tree.parent(i) == Some(cur) {
                            a = Some(i);
                        }
                        i = i + 1;
                    }
                    a
                },
                None => None,
            };
            let args = match args {
                Some(a) => a,
                None => break,
            };
            arg_lists.push(args);
            if tree.elems[p].is_node && tree.elems[p].kind == SK_INDEX_EXPR {
                if let (Some(b), Some(s)) = (prefix_of(tree, p), first_direct_solid(tree, p)) {
                    rev.push(s);
                    cur = b;
                    continue;
                }
            }
            match tree.first_solid_token(args) {
                Some(s) => rev.push(s),
                None => break,
            }
            cur = p;
        } else if k == SK_INDEX_EXPR {
            let (p, s) = match (prefix_of(tree, cur), first_direct_solid(tree, cur)) {
                (Some(p), Some(s)) => (p, s),
                _ => break,
            };
            rev.push(s);
            cur = p;
        } else {
            break;
        }
    }
    let mut starts: Vec<usize> = Vec::new();
    let mut i = rev.len();
    while i > 0
        invariant
            i <= rev@.len(),
            forall|j: int| 0 <= j < rev@.len() ==> #[trigger] rev@[j] < tree.elems.len(),
            forall|j: int| 0 <= j < starts@.len() ==> #[trigger] starts@[j] < tree.elems.len(),
        decreases i,
    {
        starts.push(rev[i - 1]);
        i = i - 1;
    }
    (starts, arg_lists)
}

/// Whether call or index expression `e` heads its chain: it is not the prefix of a call or an
/// access, nor the name of a function statement.
fn is_chain_root(tree: &SyntaxTree, e: usize) -> (r: bool)
    requires
        tree.wf(),
    ensures
        r == (0 <= e < tree.elems.len() && tree.elems@[e as int].is_node && is_chain_kind(tree.elems@[e as int].kind)
            && match tree.elems@[e as int].parent {
            Some(p) => tree.elems@[p as int].kind != SK_FUNC_STAT && !(is_chain_kind(tree.elems@[p as int].kind)
                && is_prefix(tree, p as int, e as int)),
            None => true,
        }),
{
    if e >= tree.elems.len() || !tree.elems[e].is_node {
        return false;
    }
    let k = tree.elems[e].kind;
    if !(is_call_kind(k) || k == SK_INDEX_EXPR) {
        return false;
    }
    match tree.parent(e) {
        Some(p) => {
            let pk = tree.elems[p].kind;
            let pre = prefix_of(tree, p);
            proof {
                if is_prefix(tree, p as int, e as int) {
                    match pre {
                        Some(q) => {
                            if (q as int) < (e as int) {
                                assert(!is_item_at(tree, p as int, q as int));
                            } else if (e as int) < (q as int) {
                                assert(!is_item_at(tree, p as int, e as int));
                            }
                        },
                        None => {
                            assert(!is_item_at(tree, p as int, e as int));
                        },
                    }
                }
            }
            pk != SK_FUNC_STAT && !((is_call_kind(pk) || pk == SK_INDEX_EXPR) && pre == Some(e))
        },
        None => true,
    }
}

/// Breaks the chain that expression `r` heads, written on one line of `st`, before its first
/// segment and then before the segments that do not fit on a line; the broken lines go one
/// level deeper.
fn break_call_chain(ctx: &FormatContext, tree: &SyntaxTree, st: &RenderState, r: usize, starts: &Vec<usize>, out: &mut ListLayout)
    requires
        tree.wf(),
        r < tree.elems.len(),
        forall|i: int| 0 <= i < starts@.len() ==> #[trigger] starts@[i] < tree.elems.len(),
        old(out).wf(tree.elems.len() as nat),
    ensures
        final(out).wf(tree.elems.len() as nat),
        final(out).verbatim_at == old(out).verbatim_at,
        final(out).expanded == old(out).expanded,
        only_breaks_change(*old(out), *final(out)),
        if starts@.len() > 0 && last_solid_tok(tree, r as int) is Some {
            breaks_at_chosen(old(out).break_before@, final(out).break_before@, starts@, measured_breaks(
                *ctx.config,
                tree,
                *st,
                starts@,
                last_solid_tok(tree, r as int).unwrap() as int,
                sat_add(line_level(tree, st.line_indent@, r as int) as int, 1) as int,
                true,
                None,
            ))
        } else {
            final(out).break_before == old(out).break_before
        },
{
    if starts.len() == 0 {
        return;
    }
    let last = match tree.last_solid_token(r) {
        Some(l) => l,
        None => {
            proof {
                lemma_last_solid_tok(tree, r as int, None);
            }
            return;
        },
    };
    proof {
        lemma_last_solid_tok(tree, r as int, Some(last));
    }
    let (widths, gaps) = item_widths(tree, st, starts, last);
    let fs = tree.first_solid_token(r);
    proof {
        lemma_first_solid_tok(tree, r as int, fs);
    }
    let level = match fs {
        Some(f) => at_or_zero(&st.line_indent, f),
        None => 0,
    };
    let base = indent_columns(ctx, level.saturating_add(1));
    let first_end = end_before(tree, st, starts[0]);
    assert(widths@ =~= Seq::new(starts@.len(), |k: int| seg_width(tree, st.tok_col@, st.end_col@, starts@, last as int, k)));
    assert(gaps@ =~= Seq::new(starts@.len(), |k: int| seg_gap(tree, st.tok_col@, st.end_col@, starts@, k)));
    place_breaks(ctx, tree, base, first_end, starts, &widths, &gaps, true, None, out);
}

/// `its` lists the items of list `l` in order: each direct child node that is not a comment,
/// and nothing else.
pub open spec fn is_item_list(tree: &SyntaxTree, l: int, its: Seq<usize>) -> bool {
    &&& forall|i: int| 0 <= i < its.len() ==> l < #[trigger] its[i] < tree.elems@[l].end && is_item_at(tree, l, its[i] as int)
    &&& forall|i: int, j: int| 0 <= i < j < its.len() ==> #[trigger] its[i] < #[trigger] its[j]
    &&& forall|x: int| l < x < tree.elems@[l].end && is_item_at(tree, l, x) ==> its.contains(x as usize)
}

/// Two increasing sequences that hold the same values are the same sequence.
proof fn lemma_increasing_same_values(a: Seq<usize>, b: Seq<usize>)
    requires
        forall|i: int, j: int| 0 <= i < j < a.len() ==> #[trigger] a[i] < #[trigger] a[j],
        forall|i: int, j: int| 0 <= i < j < b.len() ==> #[trigger] b[i] < #[trigger] b[j],
        forall|x: usize| a.contains(x) <==> b.contains(x),
    ensures
        a == b,
    decreases a.len(),
{
    if a.len() == 0 {
        if b.len() > 0 {
            assert(b.contains(b[0]));
        }
        assert(a =~= b);
    } else {
        assert(a.contains(a[0]));
        assert(b.len() > 0);
        assert(b.contains(b[0]));
        let ia = choose|i: int| 0 <= i < a.len() && a[i] == b[0];
        let ib = choose|i: int| 0 <= i < b.len() && b[i] == a[0];
        assert(a[0] <= b[0]) by {
            if ia > 0 {
                assert(a[0] < a[ia]);
            }
        }
        assert(b[0] <= a[0]) by {
            if ib > 0 {
                assert(b[0] < b[ib]);
            }
        }
        let a1 = a.skip(1);
        let b1 = b.skip(1);
        assert forall|x: usize| a1.contains(x) <==> b1.contains(x) by {
            if a1.contains(x) {
                let i = choose|i: int| 0 <= i < a1.len() && a1[i] == x;
                assert(a[i + 1] == x);
                assert(a[0] < a[i + 1]);
                assert(a.contains(x));
                let j = choose|j: int| 0 <= j < b.len() && b[j] == x;
                assert(j != 0);
                assert(b1[j - 1] == x);
            }
            if b1.contains(x) {
                let i = choose|i: int| 0 <= i < b1.len() && b1[i] == x;
                assert(b[i + 1] == x);
                assert(b[0] < b[i + 1]);
                assert(b.contains(x));
                let j = choose|j: int| 0 <= j < a.len() && a[j] == x;
                assert(j != 0);
                assert(a1[j - 1] == x);
            }
        }
        assert forall|i: int, j: int| 0 <= i < j < a1.len() implies #[trigger] a1[i] < #[trigger] a1[j] by {
            assert(a[i + 1] < a[j + 1]);
        }
        assert forall|i: int, j: int| 0 <= i < j < b1.len() implies #[trigger] b1[i] < #[trigger] b1[j] by {
            assert(b[i + 1] < b[j + 1]);
        }
        lemma_increasing_same_values(a1, b1);
        assert(a =~= seq![a[0]] + a1);
        assert(b =~= seq![b[0]] + b1);
    }
}

/// The items of a list are listed in one way only.
pub proof fn lemma_item_list_unique(tree: &SyntaxTree, l: int, a: Seq<usize>, b: Seq<usize>)
    requires
        is_item_list(tree, l, a),
        is_item_list(tree, l, b),
    ensures
        a == b,
{
    assert forall|x: usize| a.contains(x) <==> b.contains(x) by {
        if a.contains(x) {
            let i = choose|i: int| 0 <= i < a.len() && a[i] == x;
            assert(l < a[i] < tree.elems@[l].end && is_item_at(tree, l, a[i] as int));
        }
        if b.contains(x) {
            let i = choose|i: int| 0 <= i < b.len() && b[i] == x;
            assert(l < b[i] < tree.elems@[l].end && is_item_at(tree, l, b[i] as int));
        }
    }
    lemma_increasing_same_values(a, b);
}

/// The first token of the second item, when the first of the items `its` is a function that
/// spans several lines, at least three items stand, and a line break is written before that
/// token.
pub open spec fn attached_tail_spec(tree: &SyntaxTree, out: ListLayout, its: Seq<usize>) -> Option<usize> {
    if its.len() >= 3 && is_block_node(tree, its[0] as int) && tree.elems@[its[0] as int].kind == SK_CLOSURE_EXPR && exists|f: int|
        #[trigger] tree.first_solid(its[1] as int, f) {
        let f = choose|f: int| #[trigger] tree.first_solid(its[1] as int, f);
        if out.break_before@[f] {
            Some(f as usize)
        } else {
            None
        }
    } else {
        None
    }
}

/// The first token of the second argument of call argument list `l` when its first argument is
/// a function spanning several lines and the other arguments start a line of their own.
fn attached_tail(tree: &SyntaxTree, l: usize, out: &ListLayout) -> (r: Option<usize>)
    requires
        tree.wf(),
        out.wf(tree.elems.len() as nat),
    ensures
        r matches Some(t) ==> t < tree.elems.len(),
        !(l < tree.elems.len() && tree.elems@[l as int].is_node && tree.elems@[l as int].kind == SK_CALL_ARG_LIST) ==> r is None,
        l < tree.elems.len() && tree.elems@[l as int].is_node && tree.elems@[l as int].kind == SK_CALL_ARG_LIST ==> forall|its: Seq<usize>|
            #[trigger] is_item_list(tree, l as int, its) ==> r == attached_tail_spec(tree, *out, its),
        l < tree.elems.len() && tree.elems@[l as int].is_node && tree.elems@[l as int].kind == SK_CALL_ARG_LIST ==> exists|its: Seq<usize>|
            #[trigger] is_item_list(tree, l as int, its),
{
    if l >= tree.elems.len() || !tree.is_node_kind(l, SK_CALL_ARG_LIST) {
        return None;
    }
    let items = list_items(tree, l);
    assert(is_item_list(tree, l as int, items@));
    assert forall|its: Seq<usize>| #[trigger] is_item_list(tree, l as int, its) implies its == items@ by {
        lemma_item_list_unique(tree, l as int, its, items@);
    }
    if items.len() < 3 || !is_block_arg(tree, items[0]) || tree.elems[items[0]].kind != SK_CLOSURE_EXPR {
        return None;
    }
    let first = tree.first_solid_token(items[1]);
    proof {
        assert forall|f: int| #[trigger] tree.first_solid(items@[1] as int, f) implies first == Some(f as usize) by {
            if first is None {
                assert(tree.is_solid(f));
            } else {
                let g = first.unwrap() as int;
                if f < g {
                    assert(!tree.is_solid(f));
                } else if g < f {
                    assert(!tree.is_solid(g));
                }
            }
        }
    }
    match first {
        Some(f) if out.break_before[f] => Some(f),
        _ => None,
    }
}

/// The first non-blank tokens of the nodes `its`, for those that have one, in order.
pub open spec fn solid_starts(tree: &SyntaxTree, its: Seq<usize>) -> Seq<usize>
    decreases its.len(),
{
    if its.len() == 0 {
        Seq::empty()
    } else {
        let prev = solid_starts(tree, its.drop_last());
        match first_solid_tok(tree, its.last() as int) {
            Some(f) => prev.push(f),
            None => prev,
        }
    }
}

/// The first non-blank tokens of the items after the second.
pub open spec fn tail_starts(tree: &SyntaxTree, its: Seq<usize>) -> Seq<usize> {
    if its.len() > 2 {
        solid_starts(tree, its.subrange(2, its.len() as int))
    } else {
        Seq::empty()
    }
}

/// Fills the arguments of call argument list `l` that follow `tail`, the first of those written
/// on a line of their own below a function, as far as the width allows on each line.
fn break_tail(ctx: &FormatContext, tree: &SyntaxTree, st: &RenderState, l: usize, tail: usize, out: &mut ListLayout)
    requires
        tree.wf(),
        l < tree.elems.len(),
        old(out).wf(tree.elems.len() as nat),
    ensures
        final(out).wf(tree.elems.len() as nat),
        final(out).verbatim_at == old(out).verbatim_at,
        final(out).expanded == old(out).expanded,
        only_breaks_change(*old(out), *final(out)),
        forall|its: Seq<usize>| #[trigger] is_item_list(tree, l as int, its) ==> if last_solid_tok(tree, l as int) is Some
            && tail_starts(tree, its).len() > 0 {
            breaks_at_chosen(old(out).break_before@, final(out).break_before@, tail_starts(tree, its), measured_breaks(
                *ctx.config,
                tree,
                *st,
                tail_starts(tree, its),
                last_solid_tok(tree, l as int).unwrap() as int,
                entry_or_zero(st.line_indent@, tail as int) as int,
                false,
                None,
            ))
        } else {
            final(out).break_before == old(out).break_before
        },
{
    let items = list_items(tree, l);
    assert(is_item_list(tree, l as int, items@));
    assert forall|its: Seq<usize>| #[trigger] is_item_list(tree, l as int, its) implies its == items@ by {
        lemma_item_list_unique(tree, l as int, its, items@);
    }
    let closer = match tree.last_solid_token(l) {
        Some(c) => c,
        None => {
            proof {
                lemma_last_solid_tok(tree, l as int, None);
            }
            return;
        },
    };
    proof {
        lemma_last_solid_tok(tree, l as int, Some(closer));
    }
    let mut starts: Vec<usize> = Vec::new();
    let mut k: usize = 2;
    if items.len() > 2 {
        assert(items@.subrange(2, 2) =~= Seq::<usize>::empty());
    }
    while k < items.len()
        invariant
            tree.wf(),
            2 <= k,
            items@.len() > 2 ==> k <= items@.len(),
            forall|i: int| 0 <= i < items@.len() ==> l < #[trigger] items@[i] < tree.elems.len(),
            forall|i: int| 0 <= i < starts@.len() ==> #[trigger] starts@[i] < tree.elems.len(),
            items@.len() > 2 ==> starts@ == solid_starts(tree, items@.subrange(2, k as int)),
            items@.len() <= 2 ==> starts@.len() == 0,
        decreases items.len() - k,
    {
        let fk = tree.first_solid_token(items[k]);
        proof {
            lemma_first_solid_tok(tree, items@[k as int] as int, fk);
            assert(items@.subrange(2, k + 1).drop_last() =~= items@.subrange(2, k as int));
            assert(items@.subrange(2, k + 1).last() == items@[k as int]);
        }
        if let Some(f) = fk {
            starts.push(f);
        }
        k = k + 1;
    }
    assert(starts@ == tail_starts(tree, items@));
    if starts.len() == 0 {
        return;
    }
    let (widths, gaps) = item_widths(tree, st, &starts, closer);
    let base = indent_columns(ctx, at_or_zero(&st.line_indent, tail));
    let first_end = end_before(tree, st, starts[0]);
    assert(widths@ =~= Seq::new(starts@.len(), |k: int| seg_width(tree, st.tok_col@, st.end_col@, starts@, closer as int, k)));
    assert(gaps@ =~= Seq::new(starts@.len(), |k: int| seg_gap(tree, st.tok_col@, st.end_col@, starts@, k)));
    place_breaks(ctx, tree, base, first_end, &starts, &widths, &gaps, false, None, out);
}

/// Breaks the lines that rendering `st` wrote wider than the configured width, outermost
/// structure first: on each such line, the first of these that stands on it whole is broken,
/// and the rest of the line waits for the next rendering. An `if` statement is written over
/// several lines; the values of a `local`, assignment, `return` or `for` are broken between
/// them; a chain of one binary operator is broken before its operators; a chain of two or more
/// calls and accesses is broken before its segments; and a list (call arguments, parameters,
/// table) has its items moved below its opener, except the arguments along such a chain.
/// Returns whether anything changed.
pub fn break_wide_lines(ctx: &FormatContext, tree: &SyntaxTree, st: &RenderState, out: &mut ListLayout) -> (changed: bool)
    requires
        tree.wf(),
        old(out).wf(tree.elems.len() as nat),
        old(out).verbatim_ok(tree),
        forall|l: int|
            0 <= l < tree.elems.len() && #[trigger] old(out).expanded@[l] ==> tree.elems@[l].is_node
                && is_list_kind(tree.elems@[l].kind),
    ensures
        final(out).wf(tree.elems.len() as nat),
        final(out).verbatim_ok(tree),
        forall|l: int|
            0 <= l < tree.elems.len() && #[trigger] final(out).expanded@[l] ==> tree.elems@[l].is_node
                && is_list_kind(tree.elems@[l].kind),
        final(out).comma_after == old(out).comma_after,
        final(out).verbatim_at == old(out).verbatim_at,
        !changed ==> *final(out) == *old(out),
        !changed ==> forall|l: int| !#[trigger] wide_breakable_list(ctx, tree, st, *old(out), l),
        changed ==> exists|lo: int|
            0 <= lo < line_widths(st.out@).len() && #[trigger] line_widths(st.out@)[lo] + 1 >= ctx.config.layout.max_line_width,
{
    let lens = line_lengths(&st.out);
    let mut taken: Vec<bool> = filled(lens.len(), false);
    let max = ctx.config.layout.max_line_width;
    let n = tree.elems.len();
    let mut pinned: Vec<bool> = filled(n, false);
    let mut changed = false;
    let mut l: usize = 0;
    while l < n
        invariant
            tree.wf(),
            n == tree.elems.len(),
            taken@.len() == lens@.len(),
            pinned@.len() == n,
            out.wf(n as nat),
            out.verbatim_ok(tree),
            forall|m: int|
                0 <= m < n && #[trigger] out.expanded@[m] ==> tree.elems@[m].is_node
                    && is_list_kind(tree.elems@[m].kind),
            lens@ == line_widths(st.out@),
            max == ctx.config.layout.max_line_width,
            out.comma_after == old(out).comma_after,
            out.verbatim_at == old(out).verbatim_at,
            !changed ==> *out == *old(out),
            !changed ==> forall|m: int| 0 <= m < l ==> !#[trigger] wide_breakable_list(ctx, tree, st, *old(out), m),
            !changed ==> forall|x: int| 0 <= x < taken@.len() ==> !#[trigger] taken@[x],
            forall|m: int| 0 <= m < n && #[trigger] pinned@[m] ==> node_is(tree, m, SK_CALL_ARG_LIST),
            changed ==> exists|lo: int|
                0 <= lo < line_widths(st.out@).len() && #[trigger] line_widths(st.out@)[lo] + 1 >= ctx.config.layout.max_line_width,
        decreases n - l,
    {
        let e = tree.elems[l];
        if e.is_node && !out.expanded[l] && !pinned[l] {
            // The segments of a chain of calls and accesses; its argument lists stay whole.
            let mut segments: Vec<usize> = Vec::new();
            if is_chain_root(tree, l) {
                let (starts, args) = chain_spine(tree, l);
                if starts.len() >= 2 {
                    let mut a: usize = 0;
                    while a < args.len()
                        invariant
                            pinned@.len() == n,
                            n == tree.elems.len(),
                            forall|i: int| 0 <= i < args@.len() ==> #[trigger] args@[i] < tree.elems.len(),
                            forall|i: int| 0 <= i < args@.len() ==> node_is(tree, #[trigger] args@[i] as int, SK_CALL_ARG_LIST),
                            forall|m: int| 0 <= m < n && #[trigger] pinned@[m] ==> node_is(tree, m, SK_CALL_ARG_LIST),
                        decreases args.len() - a,
                    {
                        pinned.set(args[a], true);
                        a = a + 1;
                    }
                    segments = starts;
                }
            }
            let is_value_list = e.kind == SK_LOCAL_STAT || e.kind == SK_ASSIGN_STAT || e.kind
                == SK_RETURN_STAT || e.kind == SK_FOR_STAT || e.kind == SK_FOR_RANGE_STAT;
            let exprs = if is_value_list {
                crate::layout::collect_stat_exprs(tree, l, e.kind == SK_ASSIGN_STAT)
            } else {
                Vec::new()
            };
            let binary_root = e.kind == SK_BINARY_EXPR && match (binary_op(tree, l), tree.parent(l)) {
                (Some(u), Some(p)) => !same_op(tree, p, tree.elems[u].kind),
                (Some(_), None) => true,
                _ => false,
            };
            let tail = attached_tail(tree, l, out);
            let candidate = e.kind == SK_IF_STAT || is_list_node_kind(e.kind) || binary_root
                || segments.len() >= 2 || exprs.len() >= 2;
            // The span that must stand on one line.
            let span = if exprs.len() >= 2 {
                (tree.first_solid_token(exprs[0]), tree.last_solid_token(exprs[exprs.len() - 1]))
            } else if let Some(t) = tail {
                (Some(t), tree.last_solid_token(l))
            } else {
                (tree.first_solid_token(l), tree.last_solid_token(l))
            };
            proof {
                if exprs.len() < 2 && tail is None {
                    lemma_first_solid_tok(tree, l as int, span.0);
                    lemma_last_solid_tok(tree, l as int, span.1);
                }
            }
            if candidate {
                if let (Some(o), Some(c)) = span {
                    if let (Some(lo), Some(lc)) = (line_of(st, o), line_of(st, c)) {
                        // A one-line `if` needs room to spare: a line that comes within one
                        // column of the width is too wide for it.
                        let too_wide = lo < lens.len() && (lens[lo] > max || (e.kind == SK_IF_STAT
                            && lens[lo] >= max.saturating_sub(1)));
                        if lo == lc && too_wide && !taken[lo] {
                            let mut done = false;
                            if e.kind == SK_IF_STAT {
                                done = mark_single_line_if(tree, l, false, out);
                            } else if exprs.len() >= 2 {
                                break_expr_list(ctx, tree, st, l, &exprs, exprs.len() > 2, out);
                                done = true;
                            } else if binary_root {
                                let ops = chain_ops(tree, l);
                                if ops.len() > 0 {
                                    break_chain(ctx, tree, st, l, &ops, out);
                                    done = true;
                                }
                            } else if segments.len() >= 2 {
                                break_call_chain(ctx, tree, st, l, &segments, out);
                                done = true;
                            } else if let Some(t) = tail {
                                break_tail(ctx, tree, st, l, t, out);
                                done = true;
                            } else if is_list_node_kind(e.kind) && brackets_fit(tree, e.kind, o, c)
                                && may_break(ctx, e.kind) && list_items(tree, l).len() > 0 {
                                break_list(ctx, tree, st, l, o, c, out);
                                done = true;
                            }
                            if done {
                                taken.set(lo, true);
                                changed = true;
                                assert(line_widths(st.out@)[lo as int] + 1 >= ctx.config.layout.max_line_width);
                            }
                        }
                    }
                }
            }
        }
        proof {
            if !changed {
                assert(!wide_breakable_list(ctx, tree, st, *old(out), l as int));
            }
        }
        l = l + 1;
    }
    changed
}

/// Table or parameter list `l`, not yet written one item per line and allowed to break, has an
/// item, and its brackets stand on one line of `st.out` wider than the configured width.
pub open spec fn wide_breakable_list(ctx: &FormatContext, tree: &SyntaxTree, st: &RenderState, out: ListLayout, l: int) -> bool {
    &&& 0 <= l < tree.elems.len()
    &&& tree.elems@[l].is_node
    &&& {
        let k = tree.elems@[l].kind;
        &&& (k == SK_TABLE_OBJECT_EXPR || k == SK_TABLE_ARRAY_EXPR || k == SK_PARAM_LIST)
        &&& !(strategy_for(*ctx.config, k) is Never)
        &&& !out.expanded@[l]
        &&& exists|x: int| l < x < tree.elems@[l].end && #[trigger] is_item_at(tree, l, x)
        &&& match (first_solid_tok(tree, l), last_solid_tok(tree, l)) {
            (Some(o), Some(c)) => {
                &&& (if k == SK_PARAM_LIST {
                    tree.elems_kind_token(o as int, TK_LEFT_PAREN) && tree.elems_kind_token(c as int, TK_RIGHT_PAREN)
                } else {
                    tree.elems_kind_token(o as int, TK_LEFT_BRACE) && tree.elems_kind_token(c as int, TK_RIGHT_BRACE)
                })
                &&& o < st.tok_line@.len() && c < st.tok_line@.len()
                &&& st.tok_line@[o as int] != usize::MAX
                &&& st.tok_line@[o as int] == st.tok_line@[c as int]
                &&& st.tok_line@[o as int] < line_widths(st.out@).len()
                &&& line_widths(st.out@)[st.tok_line@[o as int] as int] > ctx.config.layout.max_line_width
            },
            _ => false,
        }
    }
}

/// List kinds that break when they do not fit.
fn is_list_node_kind(k: u16) -> (r: bool)
    ensures
        r == is_list_kind(k),
{
    k == SK_CALL_ARG_LIST || k == SK_PARAM_LIST || k == SK_TABLE_OBJECT_EXPR || k == SK_TABLE_ARRAY_EXPR
}

/// Whether `o` and `c` are the brackets of a list of kind `k`: parentheses around arguments or
/// parameters, braces around a table.
fn brackets_fit(tree: &SyntaxTree, k: u16, o: usize, c: usize) -> (r: bool)
    requires
        tree.wf(),
    ensures
        r == if k == SK_CALL_ARG_LIST || k == SK_PARAM_LIST {
            tree.elems_kind_token(o as int, TK_LEFT_PAREN) && tree.elems_kind_token(c as int, TK_RIGHT_PAREN)
        } else {
            tree.elems_kind_token(o as int, TK_LEFT_BRACE) && tree.elems_kind_token(c as int, TK_RIGHT_BRACE)
        },
{
    if k == SK_CALL_ARG_LIST || k == SK_PARAM_LIST {
        tree.is_token_kind(o, TK_LEFT_PAREN) && tree.is_token_kind(c, TK_RIGHT_PAREN)
    } else {
        tree.is_token_kind(o, TK_LEFT_BRACE) && tree.is_token_kind(c, TK_RIGHT_BRACE)
    }
}

/// How the lists of `tree` are laid out.
pub fn list_layout(tree: &SyntaxTree, plan: &RootFormatPlan) -> (r: ListLayout)
    requires
        tree.wf(),
        plan.wf(),
    ensures
        r.wf(tree.elems.len() as nat),
        r.verbatim_ok(tree),
        forall|l: int|
            0 <= l < tree.elems.len() && #[trigger] r.expanded@[l] ==> tree.elems@[l].is_node
                && is_list_kind(tree.elems@[l].kind),
        forall|l: int| 0 <= l < tree.elems.len() ==> #[trigger] r.expanded@[l] == expanded_list(tree, l),
        forall|l: int|
            0 <= l < tree.elems.len() && #[trigger] expanded_list(tree, l) ==> closer_breaks(tree, r.break_before@, l),
        r.moves_ok(tree),
        r.verbatim_from(tree, plan),
{
    let n = tree.elems.len();
    let mut out = ListLayout {
        expanded: filled(n, false),
        break_before: filled(n, false),
        hug: filled(n, false),
        comma_after: filled(n, None),
        moved: filled(n, false),
        verbatim_at: filled(n, None),
        deep: filled(n, false),
    };
    let mut l: usize = 0;
    while l < n
        invariant
            tree.wf(),
            n == tree.elems.len(),
            out.wf(n as nat),
            out.verbatim_ok(tree),
            forall|m: int|
                0 <= m < n && #[trigger] out.expanded@[m] ==> m < l && tree.elems@[m].is_node
                    && is_list_kind(tree.elems@[m].kind),
            forall|m: int| 0 <= m < l ==> #[trigger] out.expanded@[m] == expanded_list(tree, m),
            forall|m: int| 0 <= m < l && #[trigger] expanded_list(tree, m) ==> closer_breaks(tree, out.break_before@, m),
            out.moves_ok(tree),
            out.verbatim_from(tree, plan),
        decreases n - l,
    {
        let ghost b0 = out.break_before@;
        if is_expanded_list(tree, l) {
            out.expanded.set(l, true);
            mark_expanded(tree, l, &mut out);
        } else if tree.is_node_kind(l, SK_CALL_ARG_LIST) {
            mark_call_args(tree, l, &mut out);
        } else if tree.is_node_kind(l, SK_IF_STAT) {
            mark_single_line_if(tree, l, true, &mut out);
        } else if tree.is_node_kind(l, SK_FOR_STAT) || tree.is_node_kind(l, SK_FOR_RANGE_STAT) {
            mark_header_values(tree, l, &mut out);
        }
        proof {
            assert forall|m: int| 0 <= m <= l && #[trigger] expanded_list(tree, m) implies closer_breaks(tree, out.break_before@, m) by {
                if m < l {
                    lemma_closer_breaks_grow(tree, b0, out.break_before@, m);
                }
            }
        }
        l = l + 1;
    }
    let ghost b1 = out.break_before@;
    mark_preserved_first_values(tree, plan, &mut out);
    proof {
        assert forall|m: int| 0 <= m < n && #[trigger] expanded_list(tree, m) implies closer_breaks(tree, out.break_before@, m) by {
            lemma_closer_breaks_grow(tree, b1, out.break_before@, m);
        }
    }
    out
}

/// A closer that starts its own line still does when more line breaks are added.
proof fn lemma_closer_breaks_grow(tree: &SyntaxTree, a: Seq<bool>, b: Seq<bool>, l: int)
    requires
        tree.wf(),
        a.len() == tree.elems.len(),
        forall|t: int| 0 <= t < tree.elems.len() && #[trigger] a[t] ==> b[t],
        closer_breaks(tree, a, l),
    ensures
        closer_breaks(tree, b, l),
{
    if let Some(c) = last_solid_tok(tree, l) {
        assert(tree.last_solid(l, c as int));
    }
}

} // verus!
