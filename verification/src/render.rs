//! Writing the formatted text: tokens in source order, spaced by the spacing plan, with the
//! line structure of the source, indentation recomputed from the tree, and multi-line
//! statements joined where they fit on one line.

use vstd::prelude::*;

use crate::config::{ExpandStrategy, IndentKind, LuaFormatConfig, SimpleLambdaSingleLine, SingleArgCallParens, TrailingComma, TrailingTableSeparator};
use crate::kinds::{
    SK_BLOCK, TK_ASSIGN, SK_RETURN_STAT, SK_FUNC_STAT, SK_LOCAL_FUNC_STAT, SK_CALL_ARG_LIST, SK_CHUNK, SK_CLOSURE_EXPR, SK_COMMENT, SK_DO_STAT,
    SK_ELSE_CLAUSE_STAT, SK_ELSE_IF_CLAUSE_STAT, SK_EMPTY_STAT, SK_FOR_RANGE_STAT, SK_FOR_STAT,
    SK_PARAM_LIST, SK_PAREN_EXPR, SK_TABLE_ARRAY_EXPR, SK_TABLE_EMPTY_EXPR,
    SK_TABLE_FIELD_ASSIGN, SK_TABLE_FIELD_VALUE, SK_TABLE_OBJECT_EXPR, SK_UNKNOWN_STAT,
    SK_WHILE_STAT, TK_COMMA, TK_DO, TK_DOC_CONTINUE, TK_DOC_LONG_START, TK_DOC_TRIVIA_START, TK_END,
    TK_LEFT_BRACE, TK_LEFT_BRACKET, TK_LEFT_PAREN, TK_LONG_COMMENT_START, TK_NORMAL_START,
    TK_RIGHT_BRACE, TK_RIGHT_BRACKET, TK_RIGHT_PAREN, TK_SEMICOLON, TK_WHITESPACE, TK_ELSE,
    TK_ELSE_IF, TK_UNTIL, TK_THEN, TK_IN, TK_DOT, TK_COLON, SK_INDEX_EXPR, SK_CALL_EXPR, TK_STRING, TK_LONG_STRING, SK_LITERAL_EXPR,
};
use crate::model::{RootFormatPlan, RootSpacingModel, TokenSpacingExpected};
use crate::syntax::{node_is, SyntaxTree};
use crate::FormatContext;
use crate::lists::{is_code_token, ListLayout};
use crate::text::{
    keeps_shown, lemma_append_keeps_shown, lemma_appended_shown, lemma_keeps_prefix_shown,
    lemma_shown_trans, lemma_trimmed_ends_solid, lemma_trimmed_part_shown, shown, shown_before, trimmed,
};

verus! {

/// The output being written and what is known of the lines written so far.
pub struct RenderState {
    /// The text written so far.
    pub out: Vec<char>,
    /// The column after the last character.
    pub col: usize,
    /// For each element, the indentation level of the output line it was written on.
    pub line_indent: Vec<usize>,
    /// The indentation level of the current output line.
    pub cur_indent: usize,
    /// The last token written.
    pub last: Option<usize>,
    /// Tokens up to this position are kept on the current line.
    pub join_until: Option<usize>,
    /// For each token, the column where it was written.
    pub tok_col: Vec<usize>,
    /// For each token, the column after it.
    pub end_col: Vec<usize>,
    /// The number of line breaks written so far.
    pub line: usize,
    /// For each token, the output line it was written on; `usize::MAX` for one not written
    /// on its own.
    pub tok_line: Vec<usize>,
}

/// Appends one character, tracking the column.
fn push_char(st: &mut RenderState, c: char)
    ensures
        final(st).out@ == old(st).out@.push(c),
        keeps_shown(old(st).out@, final(st).out@),
        final(st).line_indent == old(st).line_indent,
        final(st).last == old(st).last,
        final(st).cur_indent == old(st).cur_indent,
        final(st).join_until == old(st).join_until,
{
    st.out.push(c);
    proof {
        assert(st.out@ =~= old(st).out@ + seq![c]);
        lemma_append_keeps_shown(old(st).out@, seq![c]);
    }
    if c == '\n' {
        st.col = 0;
        st.line = st.line.saturating_add(1);
    } else {
        st.col = st.col.saturating_add(1);
    }
}

/// Appends characters, tracking the column.
fn push_chars(st: &mut RenderState, cs: &[char])
    ensures
        final(st).out@ == old(st).out@ + cs@,
        keeps_shown(old(st).out@, final(st).out@),
        final(st).line_indent == old(st).line_indent,
        final(st).last == old(st).last,
        final(st).cur_indent == old(st).cur_indent,
        final(st).join_until == old(st).join_until,
{
    let mut k: usize = 0;
    while k < cs.len()
        invariant
            k <= cs.len(),
            st.out@ == old(st).out@ + cs@.take(k as int),
            st.line_indent == old(st).line_indent,
            st.last == old(st).last,
            st.cur_indent == old(st).cur_indent,
            st.join_until == old(st).join_until,
        decreases cs.len() - k,
    {
        push_char(st, cs[k]);
        k = k + 1;
        assert(cs@.take(k as int) == cs@.take(k - 1).push(cs@[k - 1]));
    }
    assert(cs@.take(cs.len() as int) == cs@);
    proof {
        lemma_append_keeps_shown(old(st).out@, cs@);
    }
}

/// `n` spaces.
pub open spec fn spaces_seq(n: nat) -> Seq<char> {
    Seq::new(n, |i: int| ' ')
}

/// The text `s` without the spaces and tabs at its end.
pub open spec fn trim_blanks(s: Seq<char>) -> Seq<char>
    decreases s.len(),
{
    if s.len() > 0 && (s.last() == ' ' || s.last() == '\t') {
        trim_blanks(s.drop_last())
    } else {
        s
    }
}

/// Appends `n` spaces.
fn push_spaces(st: &mut RenderState, n: usize)
    ensures
        final(st).out@ == old(st).out@ + spaces_seq(n as nat),
        keeps_shown(old(st).out@, final(st).out@),
        final(st).line_indent == old(st).line_indent,
        final(st).last == old(st).last,
        final(st).cur_indent == old(st).cur_indent,
        final(st).join_until == old(st).join_until,
{
    let mut k: usize = 0;
    while k < n
        invariant
            k <= n,
            st.out@ == old(st).out@ + spaces_seq(k as nat),
            keeps_shown(old(st).out@, st.out@),
            st.line_indent == old(st).line_indent,
            st.last == old(st).last,
            st.cur_indent == old(st).cur_indent,
            st.join_until == old(st).join_until,
        decreases n - k,
    {
        push_char(st, ' ');
        assert(spaces_seq((k + 1) as nat) =~= spaces_seq(k as nat).push(' '));
        assert(old(st).out@ + spaces_seq((k + 1) as nat) =~= (old(st).out@ + spaces_seq(k as nat)).push(' '));
        k = k + 1;
    }
}

/// Drops the spaces at the end of the output.
fn trim_trailing_spaces(st: &mut RenderState)
    ensures
        final(st).out@ == trim_blanks(old(st).out@),
        keeps_shown(old(st).out@, final(st).out@),
        final(st).line_indent == old(st).line_indent,
        final(st).last == old(st).last,
        final(st).cur_indent == old(st).cur_indent,
        final(st).join_until == old(st).join_until,
{
    while st.out.len() > 0 && (st.out[st.out.len() - 1] == ' ' || st.out[st.out.len() - 1] == '\t')
        invariant
            st.out@.len() <= old(st).out@.len(),
            st.out@ == old(st).out@.take(st.out@.len() as int),
            forall|i: int| st.out@.len() <= i < old(st).out@.len() ==> (old(st).out@[i] == ' '
                || old(st).out@[i] == '\t'),
            trim_blanks(st.out@) == trim_blanks(old(st).out@),
            st.line_indent == old(st).line_indent,
            st.last == old(st).last,
            st.cur_indent == old(st).cur_indent,
            st.join_until == old(st).join_until,
        decreases st.out.len(),
    {
        let ghost before = st.out@;
        st.out.pop();
        assert(st.out@ =~= before.drop_last());
        assert(st.out@ =~= old(st).out@.take(st.out@.len() as int));
        assert(old(st).out@[st.out@.len() as int] == before.last());
        st.col = st.col.saturating_sub(1);
    }
    proof {
        assert(st.out@.take(st.out@.len() as int) =~= st.out@);
        lemma_keeps_prefix_shown(old(st).out@, st.out@, st.out@.len() as int);
    }
}

/// Output that ends with a line break and `level` levels of indentation.
pub open spec fn ends_at_level(config: LuaFormatConfig, out: Seq<char>, level: nat) -> bool {
    &&& indent_text(config, level).len() < out.len()
    &&& out[out.len() - indent_text(config, level).len() - 1] == '\n'
    &&& out.subrange(out.len() - indent_text(config, level).len(), out.len() as int) == indent_text(config, level)
}

/// Output that ends with a line break ends with a fresh line, at level zero.
proof fn lemma_fresh_after_break(config: LuaFormatConfig, out: Seq<char>)
    requires
        out.len() > 0,
        out.last() == '\n',
    ensures
        ends_at_level(config, out, 0),
{
    assert(indent_text(config, 0) =~= Seq::<char>::empty());
    assert(out.subrange(out.len() as int, out.len() as int) =~= Seq::<char>::empty());
}

/// One more level of indentation on a fresh line.
proof fn lemma_fresh_extend(config: LuaFormatConfig, out: Seq<char>, level: nat)
    requires
        ends_at_level(config, out, level),
    ensures
        ends_at_level(config, out + indent_unit(config), level + 1),
{
    let o2 = out + indent_unit(config);
    let w = indent_text(config, level);
    let w2 = indent_text(config, level + 1);
    assert(w2 == w + indent_unit(config));
    assert(o2.subrange(o2.len() - w2.len(), o2.len() as int) =~= w2) by {
        assert(out.subrange(out.len() - w.len(), out.len() as int) == w);
        assert forall|k: int| 0 <= k < w2.len() implies #[trigger] o2.subrange(o2.len() - w2.len(), o2.len() as int)[k] == w2[k] by {
            if k < w.len() {
                assert(out.subrange(out.len() - w.len(), out.len() as int)[k] == out[out.len() - w.len() + k]);
            }
        }
    }
    assert(o2[o2.len() - w2.len() - 1] == out[out.len() - w.len() - 1]);
}

/// Ends the current line `count` times and indents the new line to `level`.
fn break_line(ctx: &FormatContext, st: &mut RenderState, count: usize, level: usize)
    ensures
        keeps_shown(old(st).out@, final(st).out@),
        count >= 1 ==> ends_at_level(*ctx.config, final(st).out@, level as nat),
        final(st).line_indent == old(st).line_indent,
        final(st).last == old(st).last,
        final(st).cur_indent == level,
        final(st).join_until == old(st).join_until,
{
    let mut k: usize = 0;
    while k < count
        invariant
            k <= count,
            keeps_shown(old(st).out@, st.out@),
            k >= 1 ==> ends_at_level(*ctx.config, st.out@, 0),
            st.line_indent == old(st).line_indent,
            st.last == old(st).last,
            st.cur_indent == old(st).cur_indent,
            st.join_until == old(st).join_until,
        decreases count - k,
    {
        trim_trailing_spaces(st);
        push_char(st, '\n');
        k = k + 1;
        proof {
            lemma_fresh_after_break(*ctx.config, st.out@);
        }
    }
    st.cur_indent = level;
    let mut i: usize = 0;
    while i < level
        invariant
            i <= level,
            keeps_shown(old(st).out@, st.out@),
            count >= 1 ==> ends_at_level(*ctx.config, st.out@, i as nat),
            st.line_indent == old(st).line_indent,
            st.last == old(st).last,
            st.cur_indent == level,
            st.join_until == old(st).join_until,
        decreases level - i,
    {
        let ghost before = st.out@;
        match ctx.config.indent.kind {
            IndentKind::Tab => push_char(st, '\t'),
            IndentKind::Space => push_spaces(st, ctx.config.indent.width),
        }
        proof {
            if count >= 1 {
                assert(st.out@ =~= before + indent_unit(*ctx.config));
                lemma_fresh_extend(*ctx.config, before, i as nat);
            }
        }
        i = i + 1;
    }
}

/// Records the line indentation of element `t`.
fn record(st: &mut RenderState, t: usize)
    ensures
        final(st).line_indent@ == if t < old(st).line_indent@.len() {
            old(st).line_indent@.update(t as int, old(st).cur_indent)
        } else {
            old(st).line_indent@
        },
        final(st).line_indent@.len() == old(st).line_indent@.len(),
        final(st).out == old(st).out,
        final(st).last == old(st).last,
        final(st).cur_indent == old(st).cur_indent,
        final(st).join_until == old(st).join_until,
{
    if t < st.line_indent.len() {
        let v = st.cur_indent;
        st.line_indent.set(t, v);
    }
}

/// The recorded line indentation of element `t`.
fn indent_of(st: &RenderState, t: usize) -> (r: usize)
    ensures
        r == (if t < st.line_indent@.len() {
            st.line_indent@[t as int]
        } else {
            0
        }),
{
    if t < st.line_indent.len() {
        st.line_indent[t]
    } else {
        0
    }
}

/// The spaces written between tokens `p` and `t` on one line. Between `{` and `}` none. Else,
/// with the source's blanks between them in view, the spacing plan's decisions after `p` and
/// before `t`: after an opening bracket the one after it; before a closing bracket, a comma or
/// the parenthesis of an argument or parameter list the one before it; otherwise the larger.
/// Without a decision, one space where the source had blanks.
pub open spec fn gap_spec(spacing: &RootSpacingModel, tree: &SyntaxTree, p: int, t: int) -> usize {
    let pk = tree.elems@[p].kind;
    let tk = tree.elems@[t].kind;
    if pk == TK_LEFT_BRACE && tk == TK_RIGHT_BRACE {
        0
    } else {
        let had_blank = exists|j: int| tree.token_pos_spec(p) < j < tree.token_pos_spec(t) && #[trigger] tree.is_blank_at(j);
        let rid = tree.spec_id(p);
        let lid = tree.spec_id(t);
        let has_r = spacing.right_map().contains_key(rid);
        let has_l = spacing.left_map().contains_key(lid);
        let r = spaces_for(spacing.right_map()[rid], had_blank);
        let l = spaces_for(spacing.left_map()[lid], had_blank);
        let opening = pk == TK_LEFT_PAREN || pk == TK_LEFT_BRACKET || pk == TK_LEFT_BRACE;
        let call_paren = tk == TK_LEFT_PAREN && match tree.elems@[t].parent {
            Some(pp) => tree.elems@[pp as int].kind == SK_PARAM_LIST || tree.elems@[pp as int].kind == SK_CALL_ARG_LIST,
            None => false,
        };
        let closing = tk == TK_RIGHT_PAREN || tk == TK_RIGHT_BRACKET || tk == TK_RIGHT_BRACE || call_paren || tk == TK_COMMA;
        if has_r && has_l {
            if opening {
                r
            } else if closing {
                l
            } else if r > l {
                r
            } else {
                l
            }
        } else if has_r {
            r
        } else if has_l {
            l
        } else if had_blank {
            1
        } else {
            0
        }
    }
}

/// Element `x` lies inside a comment.
pub open spec fn in_comment(tree: &SyntaxTree, x: int) -> bool {
    exists|a: int|
        a != x && #[trigger] tree.ancestor_or_self(a, x) && 0 <= a < tree.elems.len() && tree.elems@[a].is_node
            && tree.elems@[a].kind == SK_COMMENT
}

/// How many line breaks go before token `t` after token `p` where the source had `nl`: the
/// source's count, capped at one more than the allowed blank lines, where `t` starts a new
/// statement of the block that holds `p`, or where a comment ends before code that starts no
/// statement; else one.
pub open spec fn breaks_before_spec(max_blank: usize, tree: &SyntaxTree, p: int, t: int, nl: usize) -> usize {
    let max = crate::lists::sat_add(max_blank as int, 1);
    let capped = if nl > max {
        max
    } else {
        nl
    };
    let th = home_spec(tree, t);
    let ph = home_spec(tree, p);
    let starts_child = match th.1 {
        Some(c) => crate::lists::first_solid_tok(tree, c as int) == Some(t as usize),
        None => false,
    };
    if starts_child && th.0 == ph.0 && ph.1 != th.1 {
        capped
    } else if in_comment(tree, p) && !in_comment(tree, t) && !starts_child {
        capped
    } else {
        1
    }
}

/// The number of spaces a spacing decision asks for: the exact count, or for an upper bound
/// one space where the source had blanks and the bound allows one.
pub open spec fn spaces_for(e: TokenSpacingExpected, had_blank: bool) -> usize {
    match e {
        TokenSpacingExpected::Space(n) => n,
        TokenSpacingExpected::MaxSpace(n) => if had_blank && n > 0 {
            1
        } else {
            0
        },
    }
}

/// The number of spaces a spacing decision asks for.
fn expected_spaces(e: &TokenSpacingExpected, had_blank: bool) -> (r: usize)
    ensures
        r == spaces_for(*e, had_blank),
{
    match e {
        TokenSpacingExpected::Space(n) => *n,
        TokenSpacingExpected::MaxSpace(n) => if had_blank && *n > 0 {
            1
        } else {
            0
        },
    }
}

/// The spaces between two tokens on one line. The right spacing of an opening bracket and the
/// left spacing of a closing bracket win; otherwise the larger request wins; without any
/// request, one space stands where the source had blanks.
fn gap_between(spacing: &RootSpacingModel, tree: &SyntaxTree, p: usize, t: usize) -> (r: usize)
    requires
        tree.wf(),
        spacing.wf(),
        p < tree.elems.len(),
        t < tree.elems.len(),
    ensures
        r == gap_spec(spacing, tree, p as int, t as int),
{
    let pk = tree.elems[p].kind;
    let tk = tree.elems[t].kind;
    if pk == TK_LEFT_BRACE && tk == TK_RIGHT_BRACE {
        return 0;
    }
    let had_blank = tree.blank_between(p, t);
    let right = match spacing.right_expected(tree.id(p)) {
        Some(e) => Some(expected_spaces(e, had_blank)),
        None => None,
    };
    let left = match spacing.left_expected(tree.id(t)) {
        Some(e) => Some(expected_spaces(e, had_blank)),
        None => None,
    };
    let opening = pk == TK_LEFT_PAREN || pk == TK_LEFT_BRACKET || pk == TK_LEFT_BRACE;
    let call_paren = tk == TK_LEFT_PAREN && match tree.parent(t) {
        Some(pp) => tree.elems[pp].kind == SK_PARAM_LIST || tree.elems[pp].kind == SK_CALL_ARG_LIST,
        None => false,
    };
    let closing = tk == TK_RIGHT_PAREN || tk == TK_RIGHT_BRACKET || tk == TK_RIGHT_BRACE || call_paren
        || tk == TK_COMMA;
    match (right, left) {
        (Some(r), Some(l)) => {
            if opening {
                r
            } else if closing {
                l
            } else if r > l {
                r
            } else {
                l
            }
        },
        (Some(r), None) => r,
        (None, Some(l)) => l,
        (None, None) => if had_blank {
            1
        } else {
            0
        },
    }
}

/// The first token after the subtree of `x` that is not blank.
fn next_solid_after(tree: &SyntaxTree, x: usize) -> (r: Option<usize>)
    requires
        tree.wf(),
    ensures
        r matches Some(u) ==> u < tree.elems.len() && exists|g: int|
            tree.last_solid(x as int, g) && first_solid_from(tree, tree.token_pos_spec(g) + 1, tree.elems@[u as int].token_index as int)
                && tree.tokens@[tree.elems@[u as int].token_index as int] == u,
        r is None ==> forall|g: int|
            tree.last_solid(x as int, g) ==> forall|k: int|
                tree.token_pos_spec(g) + 1 <= k < tree.tokens.len() ==> !tree.is_solid(#[trigger] tree.tokens@[k] as int),
{
    let last = match tree.last_solid_token(x) {
        Some(l) => l,
        None => return None,
    };
    proof {
        assert forall|g: int| tree.last_solid(x as int, g) implies g == last as int by {
            if g < last {
                assert(!tree.is_solid(last as int));
            } else if last < g {
                assert(!tree.is_solid(g));
            }
        }
    }
    let start = tree.token_pos(last).saturating_add(1);
    let mut j = start;
    while j < tree.tokens.len()
        invariant
            tree.wf(),
            start == tree.token_pos_spec(last as int) + 1,
            tree.last_solid(x as int, last as int),
            start <= j,
            forall|k: int| start <= k < j ==> !tree.is_solid(#[trigger] tree.tokens@[k] as int),
        decreases tree.tokens.len() - j,
    {
        let u = tree.tokens[j];
        if !tree.is_blank_token(u) {
            assert(first_solid_from(tree, start as int, j as int));
            assert(tree.elems@[u as int].token_index == j);
            assert(tree.last_solid(x as int, last as int));
            return Some(u);
        }
        j = j + 1;
    }
    None
}

/// Position `j` holds the first non-blank token at or after position `from`.
pub open spec fn first_solid_from(tree: &SyntaxTree, from: int, j: int) -> bool {
    &&& from <= j < tree.tokens.len()
    &&& tree.is_solid(tree.tokens@[j] as int)
    &&& forall|k: int| from <= k < j ==> !tree.is_solid(#[trigger] tree.tokens@[k] as int)
}

/// Node `a` is under `fmt: off` in the plan and `f` is its first token that is not blank.
pub open spec fn written_as_is(tree: &SyntaxTree, plan: &RootFormatPlan, a: int, f: int) -> bool {
    &&& 0 <= a < tree.elems.len()
    &&& tree.elems@[a].is_node
    &&& plan.layout.format_disabled@.contains_key(tree.spec_id(a))
    &&& tree.first_solid(a, f)
}

/// Node `s` is under `fmt: off`, starts with token `t`, and lies in no comment.
pub open spec fn kept_verbatim(tree: &SyntaxTree, plan: &RootFormatPlan, s: int, t: int) -> bool {
    &&& written_as_is(tree, plan, s, t)
    &&& forall|c: int|
        #[trigger] tree.within(c, s) ==> !(tree.elems@[c].is_node && tree.elems@[c].kind == SK_COMMENT)
}

/// Node `s` is under `fmt: off` by the comments among its siblings or those of its
/// ancestors, starts with token `t`, and lies in no comment.
pub open spec fn under_format_off(tree: &SyntaxTree, s: int, t: int) -> bool {
    &&& tree.elems.len() > 0
    &&& crate::layout::subtree_disabled(tree, 0).contains(tree.spec_id(s))
    &&& 0 <= s < tree.elems.len()
    &&& tree.elems@[s].is_node
    &&& tree.first_solid(s, t)
    &&& forall|c: int|
        #[trigger] tree.within(c, s) ==> !(tree.elems@[c].is_node && tree.elems@[c].kind == SK_COMMENT)
}

/// Some node written as its source text is `s` or holds `s` in its subtree.
pub open spec fn covered(tree: &SyntaxTree, emitted: Seq<int>, s: int) -> bool {
    exists|k: int| 0 <= k < emitted.len() && (#[trigger] emitted[k] == s || tree.within(emitted[k], s))
}

/// The tokens from position `j` up to `skip_to` lie in the subtree of `n`, which starts with
/// token `f` before position `j` and is a comment or was written as its source text.
pub open spec fn skip_ok(tree: &SyntaxTree, emitted: Seq<int>, n: int, f: int, j: int, skip_to: int) -> bool {
    &&& tree.first_solid(n, f)
    &&& tree.elems@[f].token_index < j
    &&& forall|jj: int| j <= jj < skip_to && jj < tree.tokens.len() ==> tree.within(n, #[trigger] tree.tokens@[jj] as int)
    &&& ((tree.elems@[n].is_node && tree.elems@[n].kind == SK_COMMENT) || emitted.contains(n))
}

/// `s` is not empty and does not end in white space.
pub open spec fn ends_solid(s: Seq<char>) -> bool {
    s.len() > 0 && !crate::text::is_trailing_blank(s.last())
}

/// Token `t` is program code that every rendering writes: a token outside every comment, not
/// blank, not a separator, a parenthesis or a string (whose quotes may change), and whose text
/// (source and replacement alike) does not end in white space.
#[verifier::opaque]
pub open spec fn kept_code_token(tree: &SyntaxTree, spacing: &RootSpacingModel, t: int) -> bool {
    &&& tree.is_solid(t)
    &&& forall|c: int| #[trigger] tree.within(c, t) ==> !(tree.elems@[c].is_node && tree.elems@[c].kind == SK_COMMENT)
    &&& {
        let k = tree.elems@[t].kind;
        &&& k != TK_COMMA
        &&& k != TK_SEMICOLON
        &&& k != TK_LEFT_PAREN
        &&& k != TK_RIGHT_PAREN
        &&& k != TK_STRING
        &&& k != TK_LONG_STRING
        &&& k != TK_NORMAL_START
        &&& k != TK_DOC_CONTINUE
    }
    &&& ends_solid(tree.spec_text(t))
    &&& ends_solid(crate::comment::comment_token_chars(spacing, tree, t))
}

/// Token `t` appears in `out`, as in the source or as its replacement.
#[verifier::opaque]
pub open spec fn token_written(tree: &SyntaxTree, spacing: &RootSpacingModel, t: int, out: Seq<char>) -> bool {
    shown(tree.spec_text(t), out) || shown(crate::comment::comment_token_chars(spacing, tree, t), out)
}

/// A text that ends in no white space is its own trimmed text.
proof fn lemma_solid_trimmed(s: Seq<char>)
    requires
        ends_solid(s),
    ensures
        trimmed(s) == s,
{
    assert(crate::text::trimmed_end_len(s) == s.len());
    assert(s.take(s.len() as int) =~= s);
}

/// A token inside a node whose trimmed text is shown is shown too.
proof fn lemma_token_in_node_shown(tree: &SyntaxTree, n: int, t: int, out: Seq<char>)
    requires
        tree.wf(),
        tree.nested(),
        tree.within(n, t),
        0 <= n,
        ends_solid(tree.spec_text(t)),
        shown(trimmed(tree.spec_text(n)), out),
    ensures
        shown(tree.spec_text(t), out),
{
    let e = tree.elems@[t];
    let f = tree.elems@[n];
    assert(tree.elems@[t] == e);
    assert(tree.elems@[n] == f);
    lemma_trimmed_part_shown(tree.text@, e.text_start as int, e.text_end as int, f.text_start as int, f.text_end as int);
    lemma_solid_trimmed(tree.spec_text(t));
    lemma_shown_trans(tree.spec_text(t), trimmed(tree.spec_text(n)), out);
}

/// Node `n` is written as its source text from its first token on: a comment, a node under
/// `fmt: off`, a statement holding a comment that cannot be placed, or the first value of a
/// statement that keeps that value as it stands.
pub open spec fn raw_source(tree: &SyntaxTree, plan: &RootFormatPlan, n: int) -> bool {
    &&& 0 <= n < tree.elems.len()
    &&& ((tree.elems@[n].is_node && tree.elems@[n].kind == SK_COMMENT) || plan.layout.format_disabled@.contains_key(
        tree.spec_id(n),
    ) || raw_comment_from(tree, n + 1, tree.elems@[n].end as int) || crate::lists::preserved_first_value(tree, plan, n))
}

/// Token `t` lies in a region written as its source text.
pub open spec fn under_raw(tree: &SyntaxTree, plan: &RootFormatPlan, t: int) -> bool {
    exists|n: int| #[trigger] raw_source(tree, plan, n) && (n == t || tree.within(n, t))
}

/// An opening parenthesis is written before token `t`: it starts a lone table or string
/// argument written without parentheses, and the options ask for them.
pub open spec fn paren_opened(config: LuaFormatConfig, tree: &SyntaxTree, t: int) -> bool {
    &&& config.output.single_arg_call_parens == SingleArgCallParens::Always
    &&& exists|a: int| #[trigger] single_plain_arg(tree, tree.elems@[a].parent.unwrap() as int, a) && tree.first_solid(a, t)
}

/// Text `tx` stands in `out` right after exactly `n` spaces, which follow a character that is
/// not white space: `tx` continues a line, `n` spaces after what comes before it.
pub open spec fn spaced_before(tx: Seq<char>, n: nat, out: Seq<char>) -> bool {
    exists|c: char| !crate::text::is_trailing_blank(c) && #[trigger] shown(seq![c] + spaces_seq(n) + tx, out)
}

/// One level of indentation as the options write it: a tab, or `width` spaces.
pub open spec fn indent_unit(config: LuaFormatConfig) -> Seq<char> {
    match config.indent.kind {
        IndentKind::Tab => seq!['\t'],
        IndentKind::Space => spaces_seq(config.indent.width as nat),
    }
}

/// `level` levels of indentation.
pub open spec fn indent_text(config: LuaFormatConfig, level: nat) -> Seq<char>
    decreases level,
{
    if level == 0 {
        Seq::empty()
    } else {
        indent_text(config, (level - 1) as nat) + indent_unit(config)
    }
}

/// Text `tx` starts a line of `out`, after a whole number of indentation levels and `extra`
/// spaces.
pub open spec fn starts_line(config: LuaFormatConfig, tx: Seq<char>, extra: nat, out: Seq<char>) -> bool {
    exists|level: nat| #[trigger] shown(seq!['\n'] + indent_text(config, level) + spaces_seq(extra) + tx, out)
}


/// Code tokens `p` and `t` follow each other in the source with only blanks between them,
/// neither lies in a region written as its source text, and no parenthesis is opened before
/// `t`.
pub open spec fn spaced_pair(config: LuaFormatConfig, tree: &SyntaxTree, plan: &RootFormatPlan, p: int, t: int) -> bool {
    &&& kept_code_token(tree, &plan.spacing, p)
    &&& kept_code_token(tree, &plan.spacing, t)
    &&& tree.token_pos_spec(p) < tree.token_pos_spec(t)
    &&& forall|k: int| tree.token_pos_spec(p) < k < tree.token_pos_spec(t) ==> #[trigger] tree.is_blank_at(k)
    &&& !under_raw(tree, plan, p)
    &&& !under_raw(tree, plan, t)
    &&& !paren_opened(config, tree, t)
}

/// Token `t`, written after `p`, either continues the line after exactly the gap that the
/// spacing plan asks between them and `extra` spaces more, or starts a line after a whole
/// number of indentation levels and `extra` spaces.
pub open spec fn gap_kept(
    config: LuaFormatConfig,
    tree: &SyntaxTree,
    spacing: &RootSpacingModel,
    p: int,
    t: int,
    extra: nat,
    out: Seq<char>,
) -> bool {
    let tx = crate::comment::comment_token_chars(spacing, tree, t);
    spaced_before(tx, (gap_spec(spacing, tree, p, t) + extra) as nat, out) || starts_line(config, tx, extra, out)
}

/// The extra spaces asked before token `t`.
pub open spec fn extra_at(extra: Seq<usize>, t: int) -> nat {
    if 0 <= t < extra.len() {
        extra[t] as nat
    } else {
        0
    }
}

/// A gap kept in one output stays kept in an output that keeps every shown run.
proof fn lemma_gap_carry(
    config: LuaFormatConfig,
    tree: &SyntaxTree,
    spacing: &RootSpacingModel,
    p: int,
    t: int,
    extra: nat,
    a: Seq<char>,
    b: Seq<char>,
)
    requires
        gap_kept(config, tree, spacing, p, t, extra, a),
        keeps_shown(a, b),
    ensures
        gap_kept(config, tree, spacing, p, t, extra, b),
{
    let tx = crate::comment::comment_token_chars(spacing, tree, t);
    let n = (gap_spec(spacing, tree, p, t) + extra) as nat;
    if spaced_before(tx, n, a) {
        let c = choose|c: char| !crate::text::is_trailing_blank(c) && #[trigger] shown(seq![c] + spaces_seq(n) + tx, a);
        assert(shown(seq![c] + spaces_seq(n) + tx, b));
    } else {
        let level = choose|level: nat| #[trigger] shown(seq!['\n'] + indent_text(config, level) + spaces_seq(extra) + tx, a);
        assert(shown(seq!['\n'] + indent_text(config, level) + spaces_seq(extra) + tx, b));
    }
}

/// Every pair of spaced tokens whose second token comes before position `upto` keeps its gap
/// in `out`.
#[verifier::opaque]
pub open spec fn law_upto(
    config: LuaFormatConfig,
    tree: &SyntaxTree,
    plan: &RootFormatPlan,
    extra: Seq<usize>,
    upto: int,
    out: Seq<char>,
) -> bool {
    forall|p: int, t: int|
        #[trigger] spaced_pair(config, tree, plan, p, t) && tree.token_pos_spec(t) < upto ==> gap_kept(
            config,
            tree,
            &plan.spacing,
            p,
            t,
            extra_at(extra, t),
            out,
        )
}

/// Every code token before position `j`, outside regions written as their source text and
/// with no comma moved behind it, that is followed up to `j` by blanks only, is the one
/// `clean` names.
#[verifier::opaque]
pub open spec fn clean_complete(
    tree: &SyntaxTree,
    plan: &RootFormatPlan,
    lists: &ListLayout,
    j: int,
    clean: Option<int>,
) -> bool {
    forall|jp: int|
        0 <= jp < j && jp < tree.tokens.len() && #[trigger] kept_code_token(tree, &plan.spacing, tree.tokens@[jp] as int)
            && !under_raw(tree, plan, tree.tokens@[jp] as int) && lists.comma_after@[tree.tokens@[jp] as int] is None
            && (forall|k: int| jp < k < j ==> #[trigger] tree.is_blank_at(k)) ==> clean == Some(jp)
}

/// The token that `clean` names was the last written, as plain text with nothing after it that
/// ends in white space, and only blanks came after it up to position `j`.
#[verifier::opaque]
pub open spec fn clean_at(
    tree: &SyntaxTree,
    j: int,
    clean: Option<int>,
    last: Option<usize>,
    space: bool,
    glue: bool,
    out: Seq<char>,
) -> bool {
    clean matches Some(jp) ==> {
        &&& 0 <= jp < j
        &&& last == Some(tree.tokens@[jp])
        &&& !space
        &&& !glue
        &&& out.len() > 0
        &&& !crate::text::is_trailing_blank(out.last())
        &&& forall|k: int| jp < k < j ==> #[trigger] tree.is_blank_at(k)
    }
}

/// Nothing is clean after a token that is not written as plain code.
proof fn lemma_clean_none(tree: &SyntaxTree, j: int, last: Option<usize>, space: bool, glue: bool, out: Seq<char>)
    ensures
        clean_at(tree, j, None, last, space, glue, out),
{
    reveal(clean_at);
}

/// A blank token keeps the clean token clean.
proof fn lemma_clean_blank(tree: &SyntaxTree, j: int, clean: Option<int>, last: Option<usize>, space: bool, glue: bool, out: Seq<char>)
    requires
        clean_at(tree, j, clean, last, space, glue, out),
        tree.is_blank_at(j),
    ensures
        clean_at(tree, j + 1, clean, last, space, glue, out),
{
    reveal(clean_at);
}

/// A token just written as plain code, with nothing after it that ends in white space, is clean.
proof fn lemma_clean_set(tree: &SyntaxTree, j: int, last: Option<usize>, space: bool, glue: bool, out: Seq<char>)
    requires
        0 <= j,
        last == Some(tree.tokens@[j]),
        !space,
        !glue,
        out.len() > 0,
        !crate::text::is_trailing_blank(out.last()),
    ensures
        clean_at(tree, j + 1, Some(j), last, space, glue, out),
{
    reveal(clean_at);
}

/// Kept gaps stay kept in an output that keeps every shown run.
proof fn lemma_law_carry(
    config: LuaFormatConfig,
    tree: &SyntaxTree,
    plan: &RootFormatPlan,
    extra: Seq<usize>,
    upto: int,
    a: Seq<char>,
    b: Seq<char>,
)
    requires
        law_upto(config, tree, plan, extra, upto, a),
        keeps_shown(a, b),
    ensures
        law_upto(config, tree, plan, extra, upto, b),
{
    reveal(law_upto);
    assert forall|p: int, t: int|
        #[trigger] spaced_pair(config, tree, plan, p, t) && tree.token_pos_spec(t) < upto implies gap_kept(
            config,
            tree,
            &plan.spacing,
            p,
            t,
            extra_at(extra, t),
            b,
        ) by {
        lemma_gap_carry(config, tree, &plan.spacing, p, t, extra_at(extra, t), a, b);
    }
}

/// A token that ends no spaced pair adds nothing to the law.
proof fn lemma_law_skip(
    config: LuaFormatConfig,
    tree: &SyntaxTree,
    plan: &RootFormatPlan,
    extra: Seq<usize>,
    j: int,
    out: Seq<char>,
)
    requires
        tree.wf(),
        0 <= j < tree.tokens.len(),
        law_upto(config, tree, plan, extra, j, out),
        !(kept_code_token(tree, &plan.spacing, tree.tokens@[j] as int) && !under_raw(tree, plan, tree.tokens@[j] as int)),
    ensures
        law_upto(config, tree, plan, extra, j + 1, out),
{
    reveal(law_upto);
    assert forall|p: int, t: int|
        #[trigger] spaced_pair(config, tree, plan, p, t) && tree.token_pos_spec(t) < j + 1 implies gap_kept(
            config,
            tree,
            &plan.spacing,
            p,
            t,
            extra_at(extra, t),
            out,
        ) by {
        if tree.token_pos_spec(t) == j {
            reveal(kept_code_token);
            assert(tree.tokens@[j] == t);
        }
    }
}

/// The gaps that end at the token at position `j` extend the law to `j + 1`.
proof fn lemma_law_new(
    config: LuaFormatConfig,
    tree: &SyntaxTree,
    plan: &RootFormatPlan,
    extra: Seq<usize>,
    j: int,
    out: Seq<char>,
)
    requires
        tree.wf(),
        0 <= j < tree.tokens.len(),
        law_upto(config, tree, plan, extra, j, out),
        forall|p: int|
            #[trigger] spaced_pair(config, tree, plan, p, tree.tokens@[j] as int) ==> gap_kept(
                config,
                tree,
                &plan.spacing,
                p,
                tree.tokens@[j] as int,
                extra_at(extra, tree.tokens@[j] as int),
                out,
            ),
    ensures
        law_upto(config, tree, plan, extra, j + 1, out),
{
    reveal(law_upto);
    assert forall|p: int, t: int|
        #[trigger] spaced_pair(config, tree, plan, p, t) && tree.token_pos_spec(t) < j + 1 implies gap_kept(
            config,
            tree,
            &plan.spacing,
            p,
            t,
            extra_at(extra, t),
            out,
        ) by {
        if tree.token_pos_spec(t) == j {
            reveal(kept_code_token);
            assert(tree.tokens@[j] == t);
        }
    }
}

/// A blank token keeps the clean token clean.
proof fn lemma_complete_blank(tree: &SyntaxTree, plan: &RootFormatPlan, lists: &ListLayout, j: int, clean: Option<int>)
    requires
        clean_complete(tree, plan, lists, j, clean),
        tree.is_blank_at(j),
    ensures
        clean_complete(tree, plan, lists, j + 1, clean),
{
    reveal(clean_complete);
    reveal(kept_code_token);
}

/// After a token that is not blank, only it can be the clean one.
proof fn lemma_complete_set(tree: &SyntaxTree, plan: &RootFormatPlan, lists: &ListLayout, j: int, clean: Option<int>)
    requires
        tree.wf(),
        0 <= j < tree.tokens.len(),
        !tree.is_blank_at(j),
        kept_code_token(tree, &plan.spacing, tree.tokens@[j] as int) && !under_raw(tree, plan, tree.tokens@[j] as int)
            && lists.comma_after@[tree.tokens@[j] as int] is None ==> clean == Some(j),
    ensures
        clean_complete(tree, plan, lists, j + 1, clean),
{
    reveal(clean_complete);
}

/// A code token followed by another with only blanks between has no comma moved behind it, and
/// is the clean token when the second comes.
proof fn lemma_pair_prev(
    config: LuaFormatConfig,
    tree: &SyntaxTree,
    plan: &RootFormatPlan,
    lists: &ListLayout,
    p: int,
    t: int,
    clean: Option<int>,
)
    requires
        tree.wf(),
        lists.wf(tree.elems.len() as nat),
        lists.moves_ok(tree),
        spaced_pair(config, tree, plan, p, t),
        clean_complete(tree, plan, lists, tree.token_pos_spec(t), clean),
    ensures
        clean == Some(tree.token_pos_spec(p)),
        tree.tokens@[tree.token_pos_spec(p)] == p,
{
    reveal(clean_complete);
    reveal(kept_code_token);
    let jp = tree.token_pos_spec(p);
    let jt = tree.token_pos_spec(t);
    assert(tree.tokens@[jp] == p);
    assert(tree.tokens@[jt] == t);
    if lists.comma_after@[p] is Some {
        let (c, cf) = choose|c: int, cf: int|
            #![trigger tree.first_solid(c, cf)]
            0 <= c < tree.elems.len() && tree.elems@[c].is_node && tree.elems@[c].kind == SK_COMMENT
                && tree.first_solid(c, cf) && tree.token_pos_spec(p) < tree.token_pos_spec(cf) && forall|k: int|
                tree.token_pos_spec(p) < k < tree.token_pos_spec(cf) ==> #[trigger] tree.is_blank_at(k);
        let jc = tree.token_pos_spec(cf);
        assert(tree.tokens@[jc] == cf);
        if jc < jt {
            assert(tree.is_blank_at(jc));
        } else if jt < jc {
            assert(tree.is_blank_at(jt));
        } else {
            assert(cf == t);
            assert(tree.within(c, t));
        }
    }
    assert(kept_code_token(tree, &plan.spacing, tree.tokens@[jp] as int));
}

/// Token text `tx` written after the spaces of a gap, or after the indentation of a fresh
/// line, keeps its gap.
proof fn lemma_gap_written(
    config: LuaFormatConfig,
    tree: &SyntaxTree,
    spacing: &RootSpacingModel,
    p: int,
    t: int,
    extra: nat,
    out0: Seq<char>,
    out_b: Seq<char>,
    out_w: Seq<char>,
    fresh: bool,
)
    requires
        ends_solid(crate::comment::comment_token_chars(spacing, tree, t)),
        fresh ==> exists|level: nat| #[trigger] ends_at_level(config, out_b, level),
        !fresh ==> out0.len() > 0 && !crate::text::is_trailing_blank(out0.last()) && out_b == out0 + spaces_seq(
            gap_spec(spacing, tree, p, t) as nat,
        ),
        out_w.len() >= out_b.len() + extra + crate::comment::comment_token_chars(spacing, tree, t).len(),
        out_w.subrange(0, out_b.len() as int) == out_b,
        out_w.subrange(
            out_b.len() as int,
            (out_b.len() + extra + crate::comment::comment_token_chars(spacing, tree, t).len()) as int,
        ) == spaces_seq(extra) + crate::comment::comment_token_chars(spacing, tree, t),
    ensures
        gap_kept(config, tree, spacing, p, t, extra, out_w),
{
    let tx = crate::comment::comment_token_chars(spacing, tree, t);
    let g = gap_spec(spacing, tree, p, t) as nat;
    let lb = out_b.len() as int;
    let le = (out_b.len() + extra + tx.len()) as int;
    let tail = spaces_seq(extra) + tx;
    assert forall|k: int| 0 <= k < lb implies out_w[k] == out_b[k] by {
        assert(out_w.subrange(0, lb)[k] == out_w[k]);
    }
    assert forall|k: int| lb <= k < le implies out_w[k] == tail[k - lb] by {
        assert(out_w.subrange(lb, le)[k - lb] == out_w[k]);
    }
    if fresh {
        let level = choose|level: nat| #[trigger] ends_at_level(config, out_b, level);
        let w = indent_text(config, level);
        let w2 = w + spaces_seq(extra);
        let seg = seq!['\n'] + w2 + tx;
        let off = lb - w.len() - 1;
        assert forall|k: int| 0 <= k < w.len() implies out_b[lb - w.len() + k] == w[k] by {
            assert(out_b.subrange(lb - w.len(), lb)[k] == out_b[lb - w.len() + k]);
        }
        assert(out_w.subrange(off, off + seg.len()) =~= seg) by {
            assert forall|i: int| 0 <= i < seg.len() implies #[trigger] out_w.subrange(off, off + seg.len())[i] == seg[i] by {
                if i == 0 {
                } else if i <= w.len() {
                    assert(seg[i] == w[i - 1]);
                } else {
                    assert(seg[i] == tail[i - 1 - w.len()]);
                }
            }
        }
        assert(seg == seq!['\n'] + indent_text(config, level) + spaces_seq(extra) + tx);
        assert(seg.last() == tx.last());
        assert(shown(seg, out_w));
        assert(starts_line(config, tx, extra, out_w));
    } else {
        let c = out0.last();
        let n = (g + extra) as nat;
        let seg = seq![c] + spaces_seq(n) + tx;
        let off = out0.len() - 1;
        assert(out_w.subrange(off, off + seg.len()) =~= seg) by {
            assert forall|i: int| 0 <= i < seg.len() implies #[trigger] out_w.subrange(off, off + seg.len())[i] == seg[i] by {
                if i == 0 {
                    assert(out_b[off] == out0[off]);
                } else if i <= g {
                    assert(out_b[off + i] == spaces_seq(g)[i - 1]);
                } else if i <= g + extra {
                    assert(tail[i - 1 - g] == ' ');
                } else {
                    assert(tail[i - 1 - g] == tx[i - 1 - g - extra]);
                    assert(seg[i] == tx[i - 1 - n]);
                }
            }
        }
        assert(seg.last() == tx.last());
        assert(shown(seg, out_w));
        assert(spaced_before(tx, n, out_w));
    }
}

/// Writing token `t` as plain text, after the separator that follows the clean token before
/// it, keeps the gap of every spaced pair that ends at `t`.
proof fn lemma_plain_step(
    config: LuaFormatConfig,
    tree: &SyntaxTree,
    plan: &RootFormatPlan,
    lists: &ListLayout,
    extra: Seq<usize>,
    t: int,
    clean: Option<int>,
    last: Option<usize>,
    space: bool,
    glue_prev: bool,
    open_before: bool,
    in_join: bool,
    comment: Option<usize>,
    out0: Seq<char>,
    out_a: Seq<char>,
    out_b: Seq<char>,
    out_w: Seq<char>,
)
    requires
        tree.wf(),
        lists.wf(tree.elems.len() as nat),
        lists.moves_ok(tree),
        0 <= t < tree.elems.len(),
        clean_complete(tree, plan, lists, tree.token_pos_spec(t), clean),
        clean_at(tree, tree.token_pos_spec(t), clean, last, space, glue_prev, out0),
        !space && !open_before ==> out_a == out0,
        open_before ==> paren_opened(config, tree, t),
        comment matches Some(c) ==> c < tree.elems.len() && tree.elems@[c as int].is_node && tree.elems@[c as int].kind
            == SK_COMMENT,
        match last {
            Some(p) if p < tree.elems.len() => if separator_breaks(tree, *lists, p as int, t, in_join) {
                exists|level: nat| #[trigger] ends_at_level(config, out_b, level)
            } else {
                !(glue_prev || space || open_before) && !(comment matches Some(c) && tree.first_solid(c as int, t)) ==> out_b
                    == out_a + spaces_seq(gap_spec(&plan.spacing, tree, p as int, t) as nat)
            },
            _ => true,
        },
        kept_code_token(tree, &plan.spacing, t) ==> ({
            let tx = crate::comment::comment_token_chars(&plan.spacing, tree, t);
            let e = extra_at(extra, t);
            &&& out_w.len() >= out_b.len() + e + tx.len()
            &&& out_w.subrange(0, out_b.len() as int) == out_b
            &&& out_w.subrange(out_b.len() as int, (out_b.len() + e + tx.len()) as int) == spaces_seq(e) + tx
        }),
    ensures
        forall|p: int|
            #[trigger] spaced_pair(config, tree, plan, p, t) ==> gap_kept(config, tree, &plan.spacing, p, t, extra_at(extra, t), out_w),
{
    assert forall|p: int| #[trigger] spaced_pair(config, tree, plan, p, t) implies gap_kept(
        config,
        tree,
        &plan.spacing,
        p,
        t,
        extra_at(extra, t),
        out_w,
    ) by {
        lemma_pair_prev(config, tree, plan, lists, p, t, clean);
        reveal(clean_at);
        assert(last == Some(p as usize));
        assert(ends_solid(crate::comment::comment_token_chars(&plan.spacing, tree, t))) by {
            reveal(kept_code_token);
        }
        if let Some(c) = comment {
            if tree.first_solid(c as int, t) {
                assert(tree.within(c as int, t));
                lemma_not_kept(tree, &plan.spacing, t, Some(c as int));
            }
        }
        let fresh = separator_breaks(tree, *lists, p, t, in_join);
        assert(p < tree.elems.len()) by {
            reveal(kept_code_token);
        }
        lemma_gap_written(config, tree, &plan.spacing, p, t, extra_at(extra, t), out0, out_b, out_w, fresh);
    }
}

/// What token `t` is written as under `config`: its replacement, or its source text.
pub open spec fn replacement_of(config: LuaFormatConfig, tree: &SyntaxTree, t: int) -> Seq<char> {
    match crate::spacing::token_replace(config, tree, t) {
        Some(r) => r,
        None => tree.spec_text(t),
    }
}

/// Token `t` is program code that formatting under `config` always writes: a token outside
/// every comment, not blank, not a separator, a parenthesis or a string, and whose source text
/// and replacement do not end in white space.
pub open spec fn format_kept_token(config: LuaFormatConfig, tree: &SyntaxTree, t: int) -> bool {
    &&& tree.is_solid(t)
    &&& forall|c: int| #[trigger] tree.within(c, t) ==> !(tree.elems@[c].is_node && tree.elems@[c].kind == SK_COMMENT)
    &&& {
        let k = tree.elems@[t].kind;
        &&& k != TK_COMMA
        &&& k != TK_SEMICOLON
        &&& k != TK_LEFT_PAREN
        &&& k != TK_RIGHT_PAREN
        &&& k != TK_STRING
        &&& k != TK_LONG_STRING
        &&& k != TK_NORMAL_START
        &&& k != TK_DOC_CONTINUE
    }
    &&& ends_solid(tree.spec_text(t))
    &&& ends_solid(replacement_of(config, tree, t))
}

/// Token `t` appears in `out`, as in the source or as its replacement under `config`.
pub open spec fn format_token_written(config: LuaFormatConfig, tree: &SyntaxTree, t: int, out: Seq<char>) -> bool {
    shown(tree.spec_text(t), out) || shown(replacement_of(config, tree, t), out)
}

/// Tokens `t1` and `t2` are written in that order in `out`, each as in the source or as its
/// replacement under `config`.
pub open spec fn format_in_order(config: LuaFormatConfig, tree: &SyntaxTree, t1: int, t2: int, out: Seq<char>) -> bool {
    let s1 = tree.spec_text(t1);
    let r1 = replacement_of(config, tree, t1);
    let s2 = tree.spec_text(t2);
    let r2 = replacement_of(config, tree, t2);
    shown_before(s1, s2, out) || shown_before(s1, r2, out) || shown_before(r1, s2, out) || shown_before(r1, r2, out)
}

/// A token's text in a spacing plan whose replacements are those `config` gives is its source
/// text or its replacement.
pub proof fn lemma_plan_chars(config: LuaFormatConfig, tree: &SyntaxTree, spacing: &RootSpacingModel, t: int)
    requires
        tree.wf(),
        forall|k: crate::syntax::LuaSyntaxId| #[trigger] spacing.replace_map().contains_key(k) ==> exists|j: int|
            0 <= j < tree.tokens.len() && tree.spec_id(tree.tokens@[j] as int) == k && crate::spacing::token_replace(
                config,
                tree,
                tree.tokens@[j] as int,
            ) == Some(spacing.replace_map()[k]@),
    ensures
        crate::comment::comment_token_chars(spacing, tree, t) == tree.spec_text(t) || crate::comment::comment_token_chars(
            spacing,
            tree,
            t,
        ) == replacement_of(config, tree, t),
{
    let id = tree.spec_id(t);
    if spacing.replace_map().contains_key(id) {
        let j = choose|j: int|
            0 <= j < tree.tokens.len() && tree.spec_id(tree.tokens@[j] as int) == id && crate::spacing::token_replace(
                config,
                tree,
                tree.tokens@[j] as int,
            ) == Some(spacing.replace_map()[id]@);
        let u = tree.tokens@[j] as int;
        assert(tree.spec_text(u) == tree.spec_text(t));
        reveal(crate::spacing::token_replace);
        assert(crate::spacing::token_replace(config, tree, u) == crate::spacing::token_replace(config, tree, t));
    }
}

/// Kept code tokens written in order by such a plan are written in order as `config` says.
pub proof fn lemma_plan_order(config: LuaFormatConfig, tree: &SyntaxTree, spacing: &RootSpacingModel, t1: int, t2: int, out: Seq<char>)
    requires
        tree.wf(),
        forall|k: crate::syntax::LuaSyntaxId| #[trigger] spacing.replace_map().contains_key(k) ==> exists|j: int|
            0 <= j < tree.tokens.len() && tree.spec_id(tree.tokens@[j] as int) == k && crate::spacing::token_replace(
                config,
                tree,
                tree.tokens@[j] as int,
            ) == Some(spacing.replace_map()[k]@),
        written_in_order(tree, spacing, t1, t2, out),
    ensures
        format_in_order(config, tree, t1, t2, out),
{
    reveal(written_in_order);
    lemma_plan_chars(config, tree, spacing, t1);
    lemma_plan_chars(config, tree, spacing, t2);
}

/// A spacing plan whose replacements are those `config` gives the tokens writes the kept code
/// tokens as `config` says.
pub proof fn lemma_plan_tokens(config: LuaFormatConfig, tree: &SyntaxTree, spacing: &RootSpacingModel, t: int, out: Seq<char>)
    requires
        tree.wf(),
        forall|k: crate::syntax::LuaSyntaxId| #[trigger] spacing.replace_map().contains_key(k) ==> exists|j: int|
            0 <= j < tree.tokens.len() && tree.spec_id(tree.tokens@[j] as int) == k && crate::spacing::token_replace(
                config,
                tree,
                tree.tokens@[j] as int,
            ) == Some(spacing.replace_map()[k]@),
    ensures
        format_kept_token(config, tree, t) ==> kept_code_token(tree, spacing, t),
        format_kept_token(config, tree, t) && token_written(tree, spacing, t, out) ==> format_token_written(config, tree, t, out),
{
    reveal(kept_code_token);
    reveal(token_written);
    if format_kept_token(config, tree, t) {
        let id = tree.spec_id(t);
        if spacing.replace_map().contains_key(id) {
            let j = choose|j: int|
                0 <= j < tree.tokens.len() && tree.spec_id(tree.tokens@[j] as int) == id && crate::spacing::token_replace(
                    config,
                    tree,
                    tree.tokens@[j] as int,
                ) == Some(spacing.replace_map()[id]@);
            let u = tree.tokens@[j] as int;
            assert(tree.spec_text(u) == tree.spec_text(t));
            reveal(crate::spacing::token_replace);
            assert(crate::spacing::token_replace(config, tree, u) == crate::spacing::token_replace(config, tree, t));
            assert(crate::comment::comment_token_chars(spacing, tree, t) == replacement_of(config, tree, t));
        } else {
            assert(crate::comment::comment_token_chars(spacing, tree, t) == tree.spec_text(t));
        }
    }
}

/// Keeping every shown run is transitive.
proof fn lemma_keeps_trans(a: Seq<char>, b: Seq<char>, c: Seq<char>)
    requires
        keeps_shown(a, b),
        keeps_shown(b, c),
    ensures
        keeps_shown(a, c),
{
    assert forall|seg: Seq<char>| shown(seg, a) implies #[trigger] shown(seg, c) by {
        assert(shown(seg, b));
    }
}

/// Tokens `t1` and `t2` are written in that order in `out`, each as in the source or as its
/// replacement.
#[verifier::opaque]
pub open spec fn written_in_order(tree: &SyntaxTree, spacing: &RootSpacingModel, t1: int, t2: int, out: Seq<char>) -> bool {
    let s1 = tree.spec_text(t1);
    let r1 = crate::comment::comment_token_chars(spacing, tree, t1);
    let s2 = tree.spec_text(t2);
    let r2 = crate::comment::comment_token_chars(spacing, tree, t2);
    shown_before(s1, s2, out) || shown_before(s1, r2, out) || shown_before(r1, s2, out) || shown_before(r1, r2, out)
}

/// The kept code tokens at token positions below `upto` are written in their order.
#[verifier::opaque]
pub open spec fn order_upto(tree: &SyntaxTree, spacing: &RootSpacingModel, upto: int, out: Seq<char>) -> bool {
    forall|k1: int, k2: int|
        0 <= k1 < k2 < upto && #[trigger] kept_code_token(tree, spacing, tree.tokens@[k1] as int) && #[trigger] kept_code_token(
            tree,
            spacing,
            tree.tokens@[k2] as int,
        ) ==> written_in_order(tree, spacing, tree.tokens@[k1] as int, tree.tokens@[k2] as int, out)
}

/// Keeping every shown run keeps the order of the written tokens.
proof fn lemma_order_carry(tree: &SyntaxTree, spacing: &RootSpacingModel, upto: int, a: Seq<char>, b: Seq<char>)
    requires
        keeps_shown(a, b),
        order_upto(tree, spacing, upto, a),
    ensures
        order_upto(tree, spacing, upto, b),
{
    reveal(order_upto);
    reveal(written_in_order);
    assert forall|k1: int, k2: int|
        0 <= k1 < k2 < upto && #[trigger] kept_code_token(tree, spacing, tree.tokens@[k1] as int) && #[trigger] kept_code_token(
            tree,
            spacing,
            tree.tokens@[k2] as int,
        ) implies written_in_order(tree, spacing, tree.tokens@[k1] as int, tree.tokens@[k2] as int, b) by {
        let t1 = tree.tokens@[k1] as int;
        let t2 = tree.tokens@[k2] as int;
        let s1 = tree.spec_text(t1);
        let r1 = crate::comment::comment_token_chars(spacing, tree, t1);
        let s2 = tree.spec_text(t2);
        let r2 = crate::comment::comment_token_chars(spacing, tree, t2);
        if shown_before(s1, s2, a) {
            assert(shown_before(s1, s2, b));
        } else if shown_before(s1, r2, a) {
            assert(shown_before(s1, r2, b));
        } else if shown_before(r1, s2, a) {
            assert(shown_before(r1, s2, b));
        } else {
            assert(shown_before(r1, r2, b));
        }
    }
}

/// Positions whose tokens are not kept code add no pair to order.
proof fn lemma_order_grow(tree: &SyntaxTree, spacing: &RootSpacingModel, u1: int, u2: int, out: Seq<char>)
    requires
        u1 <= u2,
        order_upto(tree, spacing, u1, out),
        forall|k: int| u1 <= k < u2 ==> !#[trigger] kept_code_token(tree, spacing, tree.tokens@[k] as int),
    ensures
        order_upto(tree, spacing, u2, out),
{
    reveal(order_upto);
}

/// A run shown in `a` stands before anything appended after `a`.
proof fn lemma_shown_then_appended(w1: Seq<char>, a: Seq<char>, mid: Seq<char>, w2: Seq<char>)
    requires
        shown(w1, a),
        w1.len() > 0,
        w2.len() > 0,
        !(w2.last() == ' ' || w2.last() == '\t'),
    ensures
        shown_before(w1, w2, a + mid + w2),
{
    let o1 = choose|off: int| 0 <= off && off + w1.len() <= a.len() && #[trigger] a.subrange(off, off + w1.len()) == w1;
    let out = a + mid + w2;
    let o2: int = (a.len() + mid.len()) as int;
    assert(out.subrange(o1, o1 + w1.len()) =~= a.subrange(o1, o1 + w1.len()));
    assert(out.subrange(o2, o2 + w2.len()) =~= w2);
}

/// The token at position `j`, written as `w` after `a` (with `mid` between), comes after every
/// kept code token written in `a`.
proof fn lemma_order_append(
    tree: &SyntaxTree,
    spacing: &RootSpacingModel,
    j: int,
    a: Seq<char>,
    mid: Seq<char>,
    w: Seq<char>,
)
    requires
        0 <= j < tree.tokens.len(),
        order_upto(tree, spacing, j, a),
        forall|k: int|
            0 <= k < j && #[trigger] kept_code_token(tree, spacing, tree.tokens@[k] as int) ==> token_written(
                tree,
                spacing,
                tree.tokens@[k] as int,
                a,
            ),
        kept_code_token(tree, spacing, tree.tokens@[j] as int) ==> w == crate::comment::comment_token_chars(
            spacing,
            tree,
            tree.tokens@[j] as int,
        ),
    ensures
        order_upto(tree, spacing, j + 1, a + mid + w),
{
    reveal(order_upto);
    reveal(written_in_order);
    reveal(token_written);
    lemma_append_keeps_shown(a, mid + w);
    assert(a + (mid + w) =~= a + mid + w);
    lemma_order_carry(tree, spacing, j, a, a + mid + w);
    assert forall|k1: int, k2: int|
        0 <= k1 < k2 < j + 1 && #[trigger] kept_code_token(tree, spacing, tree.tokens@[k1] as int) && #[trigger] kept_code_token(
            tree,
            spacing,
            tree.tokens@[k2] as int,
        ) implies written_in_order(tree, spacing, tree.tokens@[k1] as int, tree.tokens@[k2] as int, a + mid + w) by {
        if k2 == j {
            reveal(kept_code_token);
            let t1 = tree.tokens@[k1] as int;
            let t2 = tree.tokens@[k2] as int;
            if shown(tree.spec_text(t1), a) {
                lemma_shown_then_appended(tree.spec_text(t1), a, mid, w);
            } else {
                lemma_shown_then_appended(crate::comment::comment_token_chars(spacing, tree, t1), a, mid, w);
            }
        }
    }
}

/// A token inside a node stands, in the node's trimmed text written after `a`, at its own
/// offset from the node's start.
proof fn lemma_placed_in_raw(tree: &SyntaxTree, n: int, u: int, a: Seq<char>)
    requires
        tree.wf(),
        tree.nested(),
        tree.within(n, u) || n == u,
        0 <= n < tree.elems.len(),
        ends_solid(tree.spec_text(u)),
    ensures
        ({
            let out = a + trimmed(tree.spec_text(n));
            let off = a.len() + tree.elems@[u].text_start - tree.elems@[n].text_start;
            &&& a.len() <= off
            &&& off + tree.spec_text(u).len() <= out.len()
            &&& out.subrange(off, off + tree.spec_text(u).len()) == tree.spec_text(u)
        }),
{
    let e = tree.elems@[u];
    let f = tree.elems@[n];
    assert(tree.elems@[u] == e);
    assert(tree.elems@[n] == f);
    let sn = tree.spec_text(n);
    let su = tree.spec_text(u);
    crate::text::lemma_trimmed_end_len(sn);
    let tl = crate::text::trimmed_end_len(sn) as int;
    let d = e.text_start - f.text_start;
    assert(f.text_start <= e.text_start && e.text_end <= f.text_end);
    assert(su.len() > 0);
    assert(su.last() == sn[d + su.len() - 1]);
    if d + su.len() > tl {
        assert(crate::text::is_trailing_blank(sn[d + su.len() - 1]));
    }
    assert(d + su.len() <= tl);
    let t = trimmed(sn);
    assert(t == sn.take(tl));
    let out = a + t;
    let off = a.len() + d;
    assert forall|i: int| 0 <= i < su.len() implies out.subrange(off, off + su.len())[i] == su[i] by {
        assert(out[off + i] == t[d + i]);
        assert(t[d + i] == sn[d + i]);
    }
    assert(out.subrange(off, off + su.len()) =~= su);
}

/// Writing node `n` as its trimmed text after `a` writes, in order after every kept code token
/// written in `a`, the kept code tokens it holds at positions `j` to `e`.
proof fn lemma_order_raw(tree: &SyntaxTree, spacing: &RootSpacingModel, j: int, e: int, n: int, a: Seq<char>)
    requires
        tree.wf(),
        tree.nested(),
        tree.tokens_ordered(),
        0 <= j <= e < tree.tokens.len(),
        0 <= n < tree.elems.len(),
        forall|k: int| j <= k <= e ==> tree.within(n, #[trigger] tree.tokens@[k] as int) || n == tree.tokens@[k] as int,
        order_upto(tree, spacing, j, a),
        forall|k: int|
            0 <= k < j && #[trigger] kept_code_token(tree, spacing, tree.tokens@[k] as int) ==> token_written(
                tree,
                spacing,
                tree.tokens@[k] as int,
                a,
            ),
    ensures
        order_upto(tree, spacing, e + 1, a + trimmed(tree.spec_text(n))),
{
    reveal(order_upto);
    reveal(written_in_order);
    reveal(token_written);
    let out = a + trimmed(tree.spec_text(n));
    lemma_append_keeps_shown(a, trimmed(tree.spec_text(n)));
    lemma_order_carry(tree, spacing, j, a, out);
    assert forall|k1: int, k2: int|
        0 <= k1 < k2 < e + 1 && #[trigger] kept_code_token(tree, spacing, tree.tokens@[k1] as int) && #[trigger] kept_code_token(
            tree,
            spacing,
            tree.tokens@[k2] as int,
        ) implies written_in_order(tree, spacing, tree.tokens@[k1] as int, tree.tokens@[k2] as int, out) by {
        if k2 >= j {
            reveal(kept_code_token);
            let t1 = tree.tokens@[k1] as int;
            let t2 = tree.tokens@[k2] as int;
            let s2 = tree.spec_text(t2);
            lemma_placed_in_raw(tree, n, t2, a);
            let o2 = a.len() + tree.elems@[t2].text_start - tree.elems@[n].text_start;
            if k1 < j {
                let w1 = if shown(tree.spec_text(t1), a) {
                    tree.spec_text(t1)
                } else {
                    crate::comment::comment_token_chars(spacing, tree, t1)
                };
                assert(shown(w1, a));
                let o1 = choose|off: int| 0 <= off && off + w1.len() <= a.len() && #[trigger] a.subrange(off, off + w1.len()) == w1;
                assert(out.subrange(o1, o1 + w1.len()) =~= a.subrange(o1, o1 + w1.len()));
                assert(shown_before(w1, s2, out));
            } else {
                let s1 = tree.spec_text(t1);
                lemma_placed_in_raw(tree, n, t1, a);
                let o1 = a.len() + tree.elems@[t1].text_start - tree.elems@[n].text_start;
                assert(tree.elems@[t1].token_index == k1);
                assert(tree.elems@[t2].token_index == k2);
                lemma_token_order(tree, t1, t2);
                assert(tree.elems@[t1].text_end <= tree.elems@[t2].text_start);
                assert(shown_before(s1, s2, out));
            }
        }
    }
}

/// With every token position handled, every two kept code tokens are written in the order of
/// the source.
proof fn lemma_order_all(tree: &SyntaxTree, spacing: &RootSpacingModel, out: Seq<char>)
    requires
        tree.wf(),
        order_upto(tree, spacing, tree.tokens.len() as int, out),
    ensures
        forall|t1: int, t2: int|
            #[trigger] kept_code_token(tree, spacing, t1) && #[trigger] kept_code_token(tree, spacing, t2)
                && tree.elems@[t1].token_index < tree.elems@[t2].token_index ==> written_in_order(tree, spacing, t1, t2, out),
{
    reveal(order_upto);
    assert forall|t1: int, t2: int|
        #[trigger] kept_code_token(tree, spacing, t1) && #[trigger] kept_code_token(tree, spacing, t2)
            && tree.elems@[t1].token_index < tree.elems@[t2].token_index implies written_in_order(tree, spacing, t1, t2, out) by {
        reveal(kept_code_token);
        let k1 = tree.elems@[t1].token_index as int;
        let k2 = tree.elems@[t2].token_index as int;
        assert(tree.tokens@[k1] as int == t1);
        assert(tree.tokens@[k2] as int == t2);
        assert(kept_code_token(tree, spacing, tree.tokens@[k1] as int));
        assert(kept_code_token(tree, spacing, tree.tokens@[k2] as int));
    }
}

/// What keeps every shown run keeps every written code token of the first `j` positions, and
/// with the token at position `j` written too, the first `j + 1`.
proof fn lemma_written_extend(tree: &SyntaxTree, spacing: &RootSpacingModel, j: int, a: Seq<char>, b: Seq<char>)
    requires
        keeps_shown(a, b),
        forall|k: int|
            0 <= k < j && #[trigger] kept_code_token(tree, spacing, tree.tokens@[k] as int) ==> token_written(
                tree,
                spacing,
                tree.tokens@[k] as int,
                a,
            ),
        kept_code_token(tree, spacing, tree.tokens@[j] as int) ==> token_written(tree, spacing, tree.tokens@[j] as int, b),
    ensures
        forall|k: int|
            0 <= k < j + 1 && #[trigger] kept_code_token(tree, spacing, tree.tokens@[k] as int) ==> token_written(
                tree,
                spacing,
                tree.tokens@[k] as int,
                b,
            ),
{
    reveal(token_written);
    assert forall|k: int|
        0 <= k < j + 1 && #[trigger] kept_code_token(tree, spacing, tree.tokens@[k] as int) implies token_written(
            tree,
            spacing,
            tree.tokens@[k] as int,
            b,
        ) by {
        if k < j {
            let u = tree.tokens@[k] as int;
            if shown(tree.spec_text(u), a) {
                assert(shown(tree.spec_text(u), b));
            } else {
                assert(shown(crate::comment::comment_token_chars(spacing, tree, u), b));
            }
        }
    }
}

/// What keeps every shown run keeps every written code token of the first `j` positions.
proof fn lemma_written_extend_to(tree: &SyntaxTree, spacing: &RootSpacingModel, j: int, a: Seq<char>, b: Seq<char>)
    requires
        keeps_shown(a, b),
        forall|k: int|
            0 <= k < j && #[trigger] kept_code_token(tree, spacing, tree.tokens@[k] as int) ==> token_written(
                tree,
                spacing,
                tree.tokens@[k] as int,
                a,
            ),
    ensures
        forall|k: int|
            0 <= k < j && #[trigger] kept_code_token(tree, spacing, tree.tokens@[k] as int) ==> token_written(
                tree,
                spacing,
                tree.tokens@[k] as int,
                b,
            ),
{
    reveal(token_written);
    assert forall|k: int|
        0 <= k < j && #[trigger] kept_code_token(tree, spacing, tree.tokens@[k] as int) implies token_written(
            tree,
            spacing,
            tree.tokens@[k] as int,
            b,
        ) by {
        let u = tree.tokens@[k] as int;
        if shown(tree.spec_text(u), a) {
            assert(shown(tree.spec_text(u), b));
        } else {
            assert(shown(crate::comment::comment_token_chars(spacing, tree, u), b));
        }
    }
}

/// Blank tokens, separators, parentheses, strings and tokens inside a comment are not kept code.
proof fn lemma_not_kept(tree: &SyntaxTree, spacing: &RootSpacingModel, t: int, c: Option<int>)
    requires
        !tree.is_solid(t) || tree.elems_kind_token(t, TK_COMMA) || tree.elems_kind_token(t, TK_SEMICOLON)
            || tree.elems_kind_token(t, TK_LEFT_PAREN) || tree.elems_kind_token(t, TK_RIGHT_PAREN) || (c matches Some(
            cc) && tree.within(cc, t) && tree.elems@[cc].is_node && tree.elems@[cc].kind == SK_COMMENT),
    ensures
        !kept_code_token(tree, spacing, t),
{
    reveal(kept_code_token);
}

/// A code token inside a node whose trimmed text is shown in `a` is written in every `b` that
/// keeps `a`.
proof fn lemma_raw_written(tree: &SyntaxTree, spacing: &RootSpacingModel, n: int, t: int, a: Seq<char>, b: Seq<char>)
    requires
        tree.wf(),
        tree.nested(),
        tree.within(n, t) || n == t,
        0 <= n,
        shown(trimmed(tree.spec_text(n)), a),
        keeps_shown(a, b),
    ensures
        kept_code_token(tree, spacing, t) ==> token_written(tree, spacing, t, b),
{
    reveal(kept_code_token);
    reveal(token_written);
    if kept_code_token(tree, spacing, t) {
        if n == t {
            lemma_solid_trimmed(tree.spec_text(t));
        } else {
            lemma_token_in_node_shown(tree, n, t, a);
        }
        assert(shown(tree.spec_text(t), b));
    }
}

/// A code token written as `text`, its replacement where it has one, right after `a`, is written
/// in every `b` that keeps the result.
proof fn lemma_text_written(tree: &SyntaxTree, spacing: &RootSpacingModel, t: int, text: Seq<char>, a: Seq<char>, b: Seq<char>)
    requires
        tree.elems@[t].kind != TK_STRING && tree.elems@[t].kind != TK_NORMAL_START && tree.elems@[t].kind
            != TK_DOC_CONTINUE ==> text == crate::comment::comment_token_chars(spacing, tree, t),
        keeps_shown(a + text, b),
    ensures
        kept_code_token(tree, spacing, t) ==> token_written(tree, spacing, t, b),
{
    reveal(kept_code_token);
    reveal(token_written);
    if kept_code_token(tree, spacing, t) {
        lemma_appended_shown(a, text);
        assert(shown(text, b));
    }
}

/// With every position of the token list handled, every kept code token is written.
proof fn lemma_all_written(tree: &SyntaxTree, spacing: &RootSpacingModel, a: Seq<char>, b: Seq<char>)
    requires
        tree.wf(),
        keeps_shown(a, b),
        forall|k: int|
            0 <= k < tree.tokens.len() && #[trigger] kept_code_token(tree, spacing, tree.tokens@[k] as int) ==> token_written(
                tree,
                spacing,
                tree.tokens@[k] as int,
                a,
            ),
    ensures
        forall|t: int| #[trigger] kept_code_token(tree, spacing, t) ==> token_written(tree, spacing, t, b),
{
    reveal(token_written);
    assert forall|t: int| #[trigger] kept_code_token(tree, spacing, t) implies token_written(tree, spacing, t, b) by {
        reveal(kept_code_token);
        let k = tree.elems@[t].token_index as int;
        assert(tree.tokens@[k] as int == t);
        reveal(kept_code_token);
        assert(kept_code_token(tree, spacing, tree.tokens@[k] as int));
        if shown(tree.spec_text(t), a) {
            assert(shown(tree.spec_text(t), b));
        } else {
            assert(shown(crate::comment::comment_token_chars(spacing, tree, t), b));
        }
    }
}

/// A code token inside a skipped region lies in a node already written as its source text.
proof fn lemma_skip_kept(
    tree: &SyntaxTree,
    spacing: &RootSpacingModel,
    emitted: Seq<int>,
    n: int,
    f: int,
    j: int,
    skip_to: int,
    out: Seq<char>,
)
    requires
        tree.wf(),
        tree.nested(),
        0 <= j < skip_to,
        j < tree.tokens.len(),
        skip_ok(tree, emitted, n, f, j, skip_to),
        forall|k: int|
            0 <= k < emitted.len() ==> 0 <= #[trigger] emitted[k] < tree.elems.len() && shown(
                trimmed(tree.spec_text(emitted[k])),
                out,
            ),
    ensures
        kept_code_token(tree, spacing, tree.tokens@[j] as int) ==> token_written(tree, spacing, tree.tokens@[j] as int, out),
{
    reveal(kept_code_token);
    reveal(token_written);
    let u = tree.tokens@[j] as int;
    assert(tree.within(n, u));
    if kept_code_token(tree, spacing, u) {
        if !(tree.elems@[n].is_node && tree.elems@[n].kind == SK_COMMENT) {
            assert(emitted.contains(n));
            let k = choose|k: int| 0 <= k < emitted.len() && emitted[k] == n;
            assert(shown(trimmed(tree.spec_text(emitted[k])), out));
            lemma_token_in_node_shown(tree, n, u, out);
        }
    }
}

/// A subtree has one first solid token.
proof fn lemma_first_solid_unique(tree: &SyntaxTree, n: int, t1: int, t2: int)
    requires
        tree.first_solid(n, t1),
        tree.first_solid(n, t2),
    ensures
        t1 == t2,
{
    if t1 < t2 {
        assert(!tree.is_solid(t1));
    } else if t2 < t1 {
        assert(!tree.is_solid(t2));
    }
}

/// Tokens listed later are later elements.
proof fn lemma_token_order(tree: &SyntaxTree, a: int, b: int)
    requires
        tree.wf(),
        tree.nested(),
        0 <= a < tree.elems.len(),
        0 <= b < tree.elems.len(),
        !tree.elems@[a].is_node,
        !tree.elems@[b].is_node,
        tree.elems@[a].token_index < tree.elems@[b].token_index,
    ensures
        a < b,
{
    let ea = tree.elems@[a];
    let eb = tree.elems@[b];
    assert(tree.tokens@[ea.token_index as int] == a);
    assert(tree.tokens@[eb.token_index as int] == b);
    assert(tree.tokens@[ea.token_index as int] < tree.tokens@[eb.token_index as int]);
}

/// A node skipped over at position `j` covers every node under `fmt: off` that starts at `j`.
proof fn lemma_skipped_covered(
    tree: &SyntaxTree,
    plan: &RootFormatPlan,
    emitted: Seq<int>,
    n: int,
    f: int,
    j: int,
    skip_to: int,
    s: int,
    t: int,
)
    requires
        tree.wf(),
        tree.nested(),
        j < skip_to,
        j < tree.tokens.len(),
        skip_ok(tree, emitted, n, f, j, skip_to),
        kept_verbatim(tree, plan, s, t),
        tree.elems@[t].token_index == j,
    ensures
        covered(tree, emitted, s),
{
    assert(tree.tokens@[j] == t);
    assert(tree.within(n, tree.tokens@[j] as int));
    lemma_token_order(tree, f, t);
    if n < s {
        assert(tree.within(n, s));
        if !(tree.elems@[n].is_node && tree.elems@[n].kind == SK_COMMENT) {
            let k = choose|k: int| 0 <= k < emitted.len() && emitted[k] == n;
            assert(emitted[k] == n && tree.within(emitted[k], s));
        }
    } else if n == s {
        lemma_first_solid_unique(tree, n, f, t);
    } else {
        assert(tree.within(s, n));
        assert(tree.elems@[n].end <= tree.elems@[s].end);
        assert(!tree.is_solid(f));
    }
}

/// A node covered by one written as its source text is shown in the output.
proof fn lemma_covered_shown(tree: &SyntaxTree, emitted: Seq<int>, out: Seq<char>, s: int)
    requires
        tree.wf(),
        tree.nested(),
        0 <= s < tree.elems.len(),
        covered(tree, emitted, s),
        forall|k: int|
            0 <= k < emitted.len() ==> 0 <= #[trigger] emitted[k] < tree.elems.len() && shown(
                trimmed(tree.spec_text(emitted[k])),
                out,
            ),
    ensures
        shown(trimmed(tree.spec_text(s)), out),
{
    let k = choose|k: int| 0 <= k < emitted.len() && (#[trigger] emitted[k] == s || tree.within(emitted[k], s));
    let e = emitted[k];
    if e != s {
        assert(tree.within(e, s));
        let es = tree.elems@[s];
        let ee = tree.elems@[e];
        lemma_trimmed_part_shown(tree.text@, es.text_start as int, es.text_end as int, ee.text_start as int, ee.text_end as int);
        lemma_shown_trans(trimmed(tree.spec_text(s)), trimmed(tree.spec_text(e)), out);
    }
}

/// For each token, the outermost node under `fmt: off` that starts with it.
fn disabled_owners(tree: &SyntaxTree, plan: &RootFormatPlan) -> (r: Vec<Option<usize>>)
    requires
        tree.wf(),
        plan.wf(),
    ensures
        r@.len() == tree.elems.len(),
        forall|f: int| 0 <= f < r@.len() ==> (#[trigger] r@[f] matches Some(b) ==> written_as_is(tree, plan, b as int, f)),
        forall|a: int, f: int| #[trigger] written_as_is(tree, plan, a, f) ==> (r@[f] matches Some(b) && b <= a),
{
    let n = tree.elems.len();
    let mut r: Vec<Option<usize>> = Vec::new();
    let mut i: usize = 0;
    while i < n
        invariant
            r@.len() == i,
            i <= n,
            forall|f: int| 0 <= f < i ==> #[trigger] r@[f] is None,
        decreases n - i,
    {
        r.push(None);
        i = i + 1;
    }
    let mut a: usize = 0;
    while a < n
        invariant
            tree.wf(),
            plan.wf(),
            n == tree.elems.len(),
            r@.len() == n,
            a <= n,
            forall|f: int| 0 <= f < n ==> (#[trigger] r@[f] matches Some(b) ==> b < a && written_as_is(tree, plan, b as int, f)),
            forall|a2: int, f: int| 0 <= a2 < a && #[trigger] written_as_is(tree, plan, a2, f) ==> (r@[f] matches Some(b) && b <= a2),
        decreases n - a,
    {
        if tree.elems[a].is_node && plan.layout.format_disabled.contains_key(tree.id(a)) {
            if let Some(f) = tree.first_solid_token(a) {
                if r[f].is_none() {
                    r.set(f, Some(a));
                }
                assert forall|f2: int| #[trigger] written_as_is(tree, plan, a as int, f2) implies (r@[f2] matches Some(b) && b <= a) by {
                    lemma_first_solid_unique(tree, a as int, f as int, f2);
                }
            }
        }
        a = a + 1;
    }
    r
}

/// Whether comment `c`, a child of statement `a`, stands last in a body of `a`: the token
/// after it closes that body.
fn comment_closes_body(tree: &SyntaxTree, c: usize, a: usize) -> (r: bool)
    requires
        tree.wf(),
    ensures
        r == exists|j: int| #[trigger] next_solid_pos(tree, c as int, j) && closes_body(tree, tree.tokens@[j] as int, a as int),
{
    match next_solid_after(tree, c) {
        Some(u) => {
            let ghost ju = tree.elems@[u as int].token_index as int;
            proof {
                assert(next_solid_pos(tree, c as int, ju));
                assert forall|j: int| #[trigger] next_solid_pos(tree, c as int, j) implies j == ju by {
                    lemma_next_solid_pos_unique(tree, c as int, j, ju);
                }
            }
            let k = tree.elems[u].kind;
            let p = tree.parent(u);
            if k == TK_END || k == TK_UNTIL {
                p == Some(a)
            } else if k == TK_ELSE || k == TK_ELSE_IF {
                match p {
                    Some(pp) => tree.parent(pp) == Some(a),
                    None => false,
                }
            } else {
                false
            }
        },
        None => {
            proof {
                assert forall|j: int| !#[trigger] next_solid_pos(tree, c as int, j) by {
                    if next_solid_pos(tree, c as int, j) {
                        let g = choose|g: int| tree.last_solid(c as int, g) && first_solid_from(tree, tree.token_pos_spec(g) + 1, j);
                        assert(tree.is_solid(tree.tokens@[j] as int));
                    }
                }
            }
            false
        },
    }
}

/// Position `j` holds the first non-blank token after the last non-blank token of `c`.
pub open spec fn next_solid_pos(tree: &SyntaxTree, c: int, j: int) -> bool {
    exists|g: int| tree.last_solid(c, g) && first_solid_from(tree, tree.token_pos_spec(g) + 1, j)
}

/// The first non-blank token after a subtree is unique.
proof fn lemma_next_solid_pos_unique(tree: &SyntaxTree, c: int, j1: int, j2: int)
    requires
        next_solid_pos(tree, c, j1),
        next_solid_pos(tree, c, j2),
    ensures
        j1 == j2,
{
    let g1 = choose|g: int| tree.last_solid(c, g) && first_solid_from(tree, tree.token_pos_spec(g) + 1, j1);
    let g2 = choose|g: int| tree.last_solid(c, g) && first_solid_from(tree, tree.token_pos_spec(g) + 1, j2);
    if g1 < g2 {
        assert(!tree.is_solid(g2));
    } else if g2 < g1 {
        assert(!tree.is_solid(g1));
    }
    if j1 < j2 {
        assert(!tree.is_solid(tree.tokens@[j1] as int));
    } else if j2 < j1 {
        assert(!tree.is_solid(tree.tokens@[j2] as int));
    }
}

/// Token `u` closes the body of statement `a`: its `end` or `until`, or the `else` or `elseif`
/// of one of its clauses.
pub open spec fn closes_body(tree: &SyntaxTree, u: int, a: int) -> bool {
    let k = tree.elems@[u].kind;
    let p = tree.elems@[u].parent;
    if k == TK_END || k == TK_UNTIL {
        p == Some(a as usize)
    } else if k == TK_ELSE || k == TK_ELSE_IF {
        match p {
            Some(pp) => tree.elems@[pp as int].parent == Some(a as usize),
            None => false,
        }
    } else {
        false
    }
}

/// Whether comment `c`, inside a statement, stands where the formatter places comments: in a
/// table, between or after the items of an argument or parameter list (not alone before its
/// `)`), between the segments of a method chain, or in a statement's header where the next
/// token is `then`, `do` or `in`, starts or closes a body, or follows the statement.
fn comment_is_placeable(tree: &SyntaxTree, c: usize) -> (r: bool)
    requires
        tree.wf(),
    ensures
        r == placeable_spec(tree, c as int),
{
    let p = match tree.parent(c) {
        Some(p) => p,
        None => return false,
    };
    let pk = tree.elems[p].kind;
    if pk == SK_TABLE_OBJECT_EXPR || pk == SK_TABLE_ARRAY_EXPR {
        return true;
    }
    if pk == SK_TABLE_EMPTY_EXPR {
        return false;
    }
    let next = next_solid_after(tree, c);
    proof {
        match next {
            Some(u) => {
                let ju = tree.elems@[u as int].token_index as int;
                assert(next_solid_pos(tree, c as int, ju));
                assert forall|j: int| #[trigger] next_solid_pos(tree, c as int, j) implies j == ju by {
                    lemma_next_solid_pos_unique(tree, c as int, j, ju);
                }
            },
            None => {
                assert forall|j: int| !#[trigger] next_solid_pos(tree, c as int, j) by {
                    if next_solid_pos(tree, c as int, j) {
                        let g = choose|g: int| tree.last_solid(c as int, g) && first_solid_from(tree, tree.token_pos_spec(g) + 1, j);
                        assert(tree.is_solid(tree.tokens@[j] as int));
                    }
                }
            },
        }
        assert(next == next_token_after(tree, c as int));
    }
    if pk == SK_CALL_ARG_LIST || pk == SK_PARAM_LIST {
        let standalone = c < tree.elems.len()
            && !crate::layout::has_non_trivia_before_on_same_line_tokenwise(tree, c);
        return match next {
            Some(u) => !(standalone && tree.is_token_kind(u, TK_RIGHT_PAREN)),
            None => true,
        };
    }
    if pk == SK_INDEX_EXPR || pk == SK_CALL_EXPR {
        return match next {
            Some(u) => tree.is_token_kind(u, TK_DOT) || tree.is_token_kind(u, TK_COLON),
            None => false,
        };
    }
    if (SK_EMPTY_STAT <= pk && pk <= SK_UNKNOWN_STAT) || pk == SK_CLOSURE_EXPR {
        return match next {
            None => true,
            Some(u) => {
                if u < p || u >= tree.elems[p].end {
                    return true;
                }
                let k = tree.elems[u].kind;
                if (k == TK_THEN || k == TK_DO || k == TK_IN) && tree.parent(u) == Some(p) {
                    return true;
                }
                if k == TK_END || k == TK_UNTIL {
                    return tree.parent(u) == Some(p);
                }
                if k == TK_ELSE || k == TK_ELSE_IF {
                    return match tree.parent(u) {
                        Some(pp) => pp == p || tree.parent(pp) == Some(p),
                        None => false,
                    };
                }
                let hb = home_of(tree, u);
                match hb.0 {
                    Some(b) => b > p && tree.parent(b) == Some(p),
                    None => false,
                }
            },
        };
    }
    false
}

/// The first non-blank token after the subtree of `c`.
pub open spec fn next_token_after(tree: &SyntaxTree, c: int) -> Option<usize> {
    if exists|j: int| next_solid_pos(tree, c, j) {
        Some(tree.tokens@[choose|j: int| next_solid_pos(tree, c, j)])
    } else {
        None
    }
}

/// Whether comment `c` can be placed where it stands when its owner is formatted: in a table;
/// in argument or parameter lists unless it stands on a line of its own right before the `)`;
/// in a call or access only before a `.` or `:`; in a statement or function when what follows
/// it is outside the owner, a `then`, `do` or `in` of it, its `end` or `until`, an `else` or
/// `elseif` of it or of a clause of it, or a token in a block of it.
pub open spec fn placeable_spec(tree: &SyntaxTree, c: int) -> bool {
    match if 0 <= c < tree.elems.len() {
        tree.elems@[c].parent
    } else {
        None
    } {
        None => false,
        Some(p) => {
            let p = p as int;
            let pk = tree.elems@[p].kind;
            let next = next_token_after(tree, c);
            if pk == SK_TABLE_OBJECT_EXPR || pk == SK_TABLE_ARRAY_EXPR {
                true
            } else if pk == SK_TABLE_EMPTY_EXPR {
                false
            } else if pk == SK_CALL_ARG_LIST || pk == SK_PARAM_LIST {
                let standalone = !crate::layout::comment_is_inline(tree, c);
                match next {
                    Some(u) => !(standalone && tree.elems_kind_token(u as int, TK_RIGHT_PAREN)),
                    None => true,
                }
            } else if pk == SK_INDEX_EXPR || pk == SK_CALL_EXPR {
                match next {
                    Some(u) => tree.elems_kind_token(u as int, TK_DOT) || tree.elems_kind_token(u as int, TK_COLON),
                    None => false,
                }
            } else if (SK_EMPTY_STAT <= pk && pk <= SK_UNKNOWN_STAT) || pk == SK_CLOSURE_EXPR {
                match next {
                    None => true,
                    Some(u) => {
                        let u = u as int;
                        if u < p || u >= tree.elems@[p].end {
                            true
                        } else {
                            let k = tree.elems@[u].kind;
                            let up = tree.elems@[u].parent;
                            if (k == TK_THEN || k == TK_DO || k == TK_IN) && up == Some(p as usize) {
                                true
                            } else if k == TK_END || k == TK_UNTIL {
                                up == Some(p as usize)
                            } else if k == TK_ELSE || k == TK_ELSE_IF {
                                match up {
                                    Some(pp) => pp as int == p || tree.elems@[pp as int].parent == Some(p as usize),
                                    None => false,
                                }
                            } else {
                                match home_spec(tree, u).0 {
                                    Some(b) => b as int > p && tree.elems@[b as int].parent == Some(p as usize),
                                    None => false,
                                }
                            }
                        }
                    },
                }
            } else {
                false
            }
        },
    }
}

/// Whether statement `s` is written as it stands in the source: it holds, outside the bodies
/// of its nested blocks, a comment where the formatter does not place comments.
fn statement_written_raw(tree: &SyntaxTree, s: usize) -> (r: bool)
    requires
        tree.wf(),
        s < tree.elems.len(),
    ensures
        r == raw_comment_from(tree, s as int + 1, tree.elems@[s as int].end as int),
{
    let end = tree.elems[s].end;
    let mut pos = s + 1;
    while pos < end
        invariant
            tree.wf(),
            end == tree.elems@[s as int].end,
            end <= tree.elems.len(),
            pos <= tree.elems.len(),
            raw_comment_from(tree, pos as int, end as int) == raw_comment_from(tree, s as int + 1, end as int),
        decreases tree.elems.len() - pos,
    {
        let e = tree.elems[pos];
        assert(e.end <= tree.elems.len());
        if e.is_node && e.kind == SK_BLOCK {
            pos = if e.end > pos {
                e.end
            } else {
                pos + 1
            };
            continue;
        }
        if e.is_node && e.kind == SK_COMMENT {
            if !comment_is_placeable(tree, pos) {
                return true;
            }
            pos = if e.end > pos {
                e.end
            } else {
                pos + 1
            };
            continue;
        }
        pos = pos + 1;
    }
    false
}

/// Whether, among the elements from `pos` up to `end`, blocks skipped whole, some comment cannot
/// be placed where it stands.
pub open spec fn raw_comment_from(tree: &SyntaxTree, pos: int, end: int) -> bool
    decreases end - pos,
{
    if pos < 0 || pos >= end || pos >= tree.elems.len() {
        false
    } else {
        let e = tree.elems@[pos];
        let next = if e.end > pos {
            e.end as int
        } else {
            pos + 1
        };
        let rest = if next < end {
            raw_comment_from(tree, next, end)
        } else {
            false
        };
        if e.is_node && e.kind == SK_BLOCK {
            rest
        } else if e.is_node && e.kind == SK_COMMENT {
            !placeable_spec(tree, pos) || rest
        } else {
            raw_comment_from(tree, pos + 1, end)
        }
    }
}

/// The indentation level that token `x` gives the lines anchored on it: the level of its line,
/// one deeper for each list around it that keeps its single argument, spanning several lines,
/// indented below an opener on that line.
fn anchor_indent(tree: &SyntaxTree, lists: &ListLayout, st: &RenderState, x: usize) -> (r: usize)
    requires
        tree.wf(),
        lists.wf(tree.elems.len() as nat),
    ensures
        r == anchor_spec(tree, lists.deep@, *st, x as int),
{
    let mut level = indent_of(st, x);
    let line = if x < st.tok_line.len() {
        st.tok_line[x]
    } else {
        return level;
    };
    let mut cur = x;
    loop
        invariant
            tree.wf(),
            lists.wf(tree.elems.len() as nat),
            x < st.tok_line@.len(),
            line == st.tok_line@[x as int],
            anchor_level(tree, lists.deep@, st.tok_line@, x as int, line, cur as int, level) == anchor_level(
                tree,
                lists.deep@,
                st.tok_line@,
                x as int,
                line,
                x as int,
                crate::lists::entry_or_zero(st.line_indent@, x as int),
            ),
        decreases cur,
    {
        let a = match tree.parent(cur) {
            Some(a) => a,
            None => return level,
        };
        let fo = tree.first_solid_token(a);
        proof {
            crate::lists::lemma_first_solid_tok(tree, a as int, fo);
        }
        if lists.deep[a] {
            if let Some(o) = fo {
                if o != x && o < st.tok_line.len() && st.tok_line[o] == line {
                    level = level.saturating_add(1);
                }
            }
        }
        cur = a;
    }
}

/// The level of lines anchored on token `x`: the level of its line, one deeper for each list
/// above it that keeps its single argument deeper and opens on that line before it.
pub open spec fn anchor_spec(tree: &SyntaxTree, deep: Seq<bool>, st: RenderState, x: int) -> usize {
    if 0 <= x < st.tok_line@.len() {
        anchor_level(tree, deep, st.tok_line@, x, st.tok_line@[x], x, crate::lists::entry_or_zero(st.line_indent@, x))
    } else {
        crate::lists::entry_or_zero(st.line_indent@, x)
    }
}

/// The level of lines anchored on token `x`, climbing from element `cur` with `acc` so far: one
/// more for each list above that keeps its argument deeper and opens on `line`, the line of `x`,
/// before `x`.
pub open spec fn anchor_level(tree: &SyntaxTree, deep: Seq<bool>, tok_line: Seq<usize>, x: int, line: usize, cur: int, acc: usize) -> usize
    decreases cur,
{
    if 0 <= cur < tree.elems.len() {
        match tree.elems@[cur].parent {
            Some(a) => if (a as int) < cur {
                let add = deep[a as int] && match crate::lists::first_solid_tok(tree, a as int) {
                    Some(o) => o as int != x && (o as int) < tok_line.len() && tok_line[o as int] == line,
                    None => false,
                };
                anchor_level(tree, deep, tok_line, x, line, a as int, if add {
                    crate::lists::sat_add(acc as int, 1)
                } else {
                    acc
                })
            } else {
                acc
            },
            None => acc,
        }
    } else {
        acc
    }
}

/// The indentation level of a line that starts with token `t`.
fn compute_indent(tree: &SyntaxTree, lists: &ListLayout, st: &RenderState, t: usize) -> (r: usize)
    requires
        tree.wf(),
        lists.wf(tree.elems.len() as nat),
    ensures
        r == indent_walk(tree, *lists, *st, t as int, t as int),
{
    let mut child = t;
    loop
        invariant
            tree.wf(),
            lists.wf(tree.elems.len() as nat),
            indent_walk(tree, *lists, *st, t as int, child as int) == indent_walk(tree, *lists, *st, t as int, t as int),
        decreases child,
    {
        let a = match tree.parent(child) {
            Some(a) => a,
            None => return 0,
        };
        let k = tree.elems[a].kind;
        if k == SK_BLOCK {
            match tree.parent(a) {
                None => return 0,
                Some(o) => {
                    if tree.elems[o].kind == SK_CHUNK {
                        return 0;
                    }
                    let fo = tree.first_solid_token(o);
                    proof {
                        crate::lists::lemma_first_solid_tok(tree, o as int, fo);
                    }
                    return match fo {
                        Some(f) => anchor_indent(tree, lists, st, f).saturating_add(1),
                        None => 0,
                    };
                },
            }
        }
        let fa = tree.first_solid_token(a);
        proof {
            crate::lists::lemma_first_solid_tok(tree, a as int, fa);
        }
        if k == SK_CALL_ARG_LIST || k == SK_PARAM_LIST || k == SK_PAREN_EXPR || k
            == SK_TABLE_ARRAY_EXPR || k == SK_TABLE_OBJECT_EXPR || k == SK_TABLE_EMPTY_EXPR {
            if let Some(opener) = fa {
                if opener != t && (tree.newlines_between(opener, t) > 0 || lists.expanded[a]) {
                    let la = tree.last_solid_token(a);
                    proof {
                        crate::lists::lemma_last_solid_tok(tree, a as int, la);
                    }
                    if la == Some(t) {
                        return anchor_indent(tree, lists, st, opener);
                    }
                    return anchor_indent(tree, lists, st, opener).saturating_add(1);
                }
            }
        }
        if (SK_EMPTY_STAT <= k && k <= SK_UNKNOWN_STAT) || k == SK_CLOSURE_EXPR {
            if let Some(f) = fa {
                if f != t {
                    let ck = tree.kind(child);
                    if ck == SK_COMMENT && child != t && comment_closes_body(tree, child, a) {
                        return anchor_indent(tree, lists, st, f).saturating_add(1);
                    }
                    if child == t || ck == SK_COMMENT || ck == SK_ELSE_IF_CLAUSE_STAT || ck
                        == SK_ELSE_CLAUSE_STAT {
                        return anchor_indent(tree, lists, st, f);
                    }
                    return anchor_indent(tree, lists, st, f).saturating_add(1);
                }
            }
        }
        child = a;
    }
}

/// The indentation level of a line that starts with token `t`, climbing from element `child`:
/// under a block, one deeper than the line of its owner's first token (none at the top); in a
/// bracketed list opened on an earlier line or laid out one item per line, one deeper than the
/// opener's line, or at it for the closer; in a statement or function not started by `t`, at
/// its first token's line for the statement's own tokens, comments and clauses, one deeper
/// otherwise and for a comment that closes its body.
pub open spec fn indent_walk(tree: &SyntaxTree, lists: ListLayout, st: RenderState, t: int, child: int) -> usize
    decreases child,
{
    if !(0 <= child < tree.elems.len()) {
        0
    } else {
        match tree.elems@[child].parent {
            None => 0,
            Some(a) => if !((a as int) < child) {
                0
            } else {
                let a = a as int;
                let k = tree.elems@[a].kind;
                let opener = crate::lists::first_solid_tok(tree, a);
                if k == SK_BLOCK {
                    match tree.elems@[a].parent {
                        None => 0,
                        Some(o) => if tree.elems@[o as int].kind == SK_CHUNK {
                            0
                        } else {
                            match crate::lists::first_solid_tok(tree, o as int) {
                                Some(f) => crate::lists::sat_add(anchor_spec(tree, lists.deep@, st, f as int) as int, 1),
                                None => 0,
                            }
                        },
                    }
                } else if (k == SK_CALL_ARG_LIST || k == SK_PARAM_LIST || k == SK_PAREN_EXPR || k == SK_TABLE_ARRAY_EXPR
                    || k == SK_TABLE_OBJECT_EXPR || k == SK_TABLE_EMPTY_EXPR) && opener is Some && opener.unwrap() as int != t
                    && (tree.line_breaks_in(tree.token_pos_spec(opener.unwrap() as int) + 1, tree.token_pos_spec(t)) > 0
                    || lists.expanded@[a]) {
                    if crate::lists::last_solid_tok(tree, a) == Some(t as usize) {
                        anchor_spec(tree, lists.deep@, st, opener.unwrap() as int)
                    } else {
                        crate::lists::sat_add(anchor_spec(tree, lists.deep@, st, opener.unwrap() as int) as int, 1)
                    }
                } else if ((SK_EMPTY_STAT <= k && k <= SK_UNKNOWN_STAT) || k == SK_CLOSURE_EXPR) && opener is Some
                    && opener.unwrap() as int != t {
                    let f = opener.unwrap() as int;
                    let ck = tree.elems@[child].kind;
                    let closes = exists|j: int| #[trigger] next_solid_pos(tree, child, j) && closes_body(tree, tree.tokens@[j] as int, a);
                    if ck == SK_COMMENT && child != t && closes {
                        crate::lists::sat_add(anchor_spec(tree, lists.deep@, st, f) as int, 1)
                    } else if child == t || ck == SK_COMMENT || ck == SK_ELSE_IF_CLAUSE_STAT || ck == SK_ELSE_CLAUSE_STAT {
                        anchor_spec(tree, lists.deep@, st, f)
                    } else {
                        crate::lists::sat_add(anchor_spec(tree, lists.deep@, st, f) as int, 1)
                    }
                } else {
                    indent_walk(tree, lists, st, t, a)
                }
            },
        }
    }
}

/// The block that holds element `t` and the child of that block on the way to `t`.
fn home_of(tree: &SyntaxTree, t: usize) -> (r: (Option<usize>, Option<usize>))
    requires
        tree.wf(),
    ensures
        r.0 matches Some(b) ==> b < t && node_is(tree, b as int, SK_BLOCK) && tree.ancestor_or_self(b as int, t as int)
            && (r.1 matches Some(c) && c < tree.elems.len() && tree.elems@[c as int].parent == Some(b)
            && tree.ancestor_or_self(c as int, t as int)),
        r.0 is None ==> r.1 is None && forall|a: int|
            a != t && #[trigger] tree.ancestor_or_self(a, t as int) ==> !node_is(tree, a, SK_BLOCK),
        r == home_spec(tree, t as int),
{
    match tree.ancestor_of_kind(t, SK_BLOCK) {
        Some(b) => {
            let c = tree.child_toward(b, t);
            proof {
                assert(is_nearest_block(tree, t as int, b as int));
                assert forall|b2: int| #[trigger] is_nearest_block(tree, t as int, b2) implies b2 == b as int by {
                    tree.lemma_ancestor_before(b2, b as int);
                    tree.lemma_ancestor_before(b as int, b2);
                }
                let cc = c.unwrap() as int;
                assert forall|c2: int| #[trigger] child_on_path(tree, b as int, t as int, c2) implies c2 == cc by {
                    tree.lemma_ancestors_chain(c2, cc, t as int);
                    if c2 != cc {
                        if tree.ancestor_or_self(c2, cc) {
                            assert(tree.ancestor_or_self(c2, b as int));
                            tree.lemma_ancestor_before(c2, b as int);
                        } else {
                            assert(tree.ancestor_or_self(cc, b as int));
                            tree.lemma_ancestor_before(cc, b as int);
                        }
                    }
                }
                assert(child_on_path(tree, b as int, t as int, cc));
            }
            (Some(b), c)
        },
        None => {
            proof {
                assert forall|b2: int| !#[trigger] is_nearest_block(tree, t as int, b2) by {}
            }
            (None, None)
        },
    }
}

/// Node `b` is the nearest block above element `t`.
pub open spec fn is_nearest_block(tree: &SyntaxTree, t: int, b: int) -> bool {
    &&& b != t
    &&& tree.ancestor_or_self(b, t)
    &&& node_is(tree, b, SK_BLOCK)
    &&& forall|a: int| a != t && #[trigger] tree.ancestor_or_self(a, t) && node_is(tree, a, SK_BLOCK) ==> tree.ancestor_or_self(a, b)
}

/// Element `c` is the child of `b` on the way down to `t`.
pub open spec fn child_on_path(tree: &SyntaxTree, b: int, t: int, c: int) -> bool {
    &&& 0 <= c < tree.elems.len()
    &&& tree.elems@[c].parent == Some(b as usize)
    &&& tree.ancestor_or_self(c, t)
}

/// The block that holds element `t`, the nearest above it, and the child of that block on the
/// way down to `t`.
pub open spec fn home_spec(tree: &SyntaxTree, t: int) -> (Option<usize>, Option<usize>) {
    if exists|b: int| is_nearest_block(tree, t, b) {
        let b = choose|b: int| is_nearest_block(tree, t, b);
        (Some(b as usize), Some((choose|c: int| child_on_path(tree, b, t, c)) as usize))
    } else {
        (None, None)
    }
}

/// Whether token `u` lies in a table that spans several source lines and is a call argument or
/// the value of a table field; such tables keep their shape.
fn in_sticky_table(tree: &SyntaxTree, u: usize, stop: usize) -> (r: bool)
    requires
        tree.wf(),
    ensures
        r == sticky_above(tree, u as int, stop as int),
{
    let mut cur = u;
    loop
        invariant
            tree.wf(),
            sticky_above(tree, cur as int, stop as int) == sticky_above(tree, u as int, stop as int),
        decreases cur,
    {
        let a = match tree.parent(cur) {
            Some(a) => a,
            None => return false,
        };
        if a == stop {
            return false;
        }
        let k = tree.elems[a].kind;
        let mut hit = false;
        if k == SK_TABLE_ARRAY_EXPR || k == SK_TABLE_OBJECT_EXPR {
            let pk = match tree.parent(a) {
                Some(p) => tree.elems[p].kind,
                None => 0,
            };
            if pk == SK_CALL_ARG_LIST || pk == SK_TABLE_FIELD_ASSIGN || pk == SK_TABLE_FIELD_VALUE {
                match (tree.first_solid_token(a), tree.last_solid_token(a)) {
                    (Some(f), Some(l)) => {
                        proof {
                            crate::lists::lemma_spans_lines(tree, a as int, f as int, l as int);
                        }
                        hit = tree.newlines_between(f, l) > 0;
                    },
                    _ => {
                        proof {
                            crate::lists::lemma_no_solid_no_span(tree, a as int);
                        }
                    },
                }
            }
        }
        assert(hit == sticky_table(tree, a as int));
        if hit {
            return true;
        }
        cur = a;
    }
}

/// Node `a` is a table spanning several source lines that is a call argument or a table field's
/// value.
pub open spec fn sticky_table(tree: &SyntaxTree, a: int) -> bool {
    let k = tree.elems@[a].kind;
    let pk = match tree.elems@[a].parent {
        Some(p) => tree.elems@[p as int].kind,
        None => 0,
    };
    &&& (k == SK_TABLE_ARRAY_EXPR || k == SK_TABLE_OBJECT_EXPR)
    &&& (pk == SK_CALL_ARG_LIST || pk == SK_TABLE_FIELD_ASSIGN || pk == SK_TABLE_FIELD_VALUE)
    &&& crate::lists::spans_lines(tree, a)
}

/// Some ancestor of element `x`, below `stop` (which ends the climb), is a sticky table.
pub open spec fn sticky_above(tree: &SyntaxTree, x: int, stop: int) -> bool
    decreases x,
{
    if 0 <= x < tree.elems.len() {
        match tree.elems@[x].parent {
            Some(a) => if (a as int) < x && a as int != stop {
                sticky_table(tree, a as int) || sticky_above(tree, a as int, stop)
            } else {
                false
            },
            None => false,
        }
    } else {
        false
    }
}

/// Whether a token's text holds a line break.
fn token_has_newline(tree: &SyntaxTree, u: usize) -> (r: bool)
    requires
        tree.wf(),
    ensures
        r == (u < tree.elems.len() && tree.spec_text(u as int).contains('\n')),
{
    if u < tree.elems.len() {
        tree.text_contains_newline(u)
    } else {
        false
    }
}

/// The text written for token `t`: its replacement when the spacing plan has one.
fn token_text(spacing: &RootSpacingModel, tree: &SyntaxTree, t: usize) -> (r: Vec<char>)
    requires
        tree.wf(),
        spacing.wf(),
        t < tree.elems.len(),
    ensures
        r@ == crate::comment::comment_token_chars(spacing, tree, t as int),
{
    match spacing.token_replace(tree.id(t)) {
        Some(s) => crate::text::str_chars(s),
        None => tree.text_of(t),
    }
}

/// Whether token `u` is a separator that ends the fields of a table: the next token that is
/// neither blank nor part of a comment closes the table.
fn is_trailing_table_separator(tree: &SyntaxTree, u: usize) -> (r: bool)
    requires
        tree.wf(),
    ensures
        r ==> tree.elems_kind_token(u as int, TK_COMMA) || tree.elems_kind_token(u as int, TK_SEMICOLON),
        r == trailing_table_separator(tree, u as int),
{
    if !(tree.is_token_kind(u, TK_COMMA) || tree.is_token_kind(u, TK_SEMICOLON)) {
        return false;
    }
    let table = match tree.parent(u) {
        Some(p) => p,
        None => return false,
    };
    let tk = tree.elems[table].kind;
    if !(tk == SK_TABLE_ARRAY_EXPR || tk == SK_TABLE_OBJECT_EXPR) {
        return false;
    }
    let start = tree.token_pos(u) + 1;
    let mut j = start;
    while j < tree.tokens.len()
        invariant
            tree.wf(),
            start == tree.token_pos_spec(u as int) + 1,
            start <= j,
            tree.elems_kind_token(u as int, TK_COMMA) || tree.elems_kind_token(u as int, TK_SEMICOLON),
            tree.elems@[u as int].parent == Some(table),
            table < tree.elems.len(),
            tree.elems@[table as int].kind == SK_TABLE_ARRAY_EXPR || tree.elems@[table as int].kind == SK_TABLE_OBJECT_EXPR,
            forall|k: int| start <= k < j ==> !is_code_token(tree, #[trigger] tree.tokens@[k] as int),
        decreases tree.tokens.len() - j,
    {
        let v = tree.tokens[j];
        if !tree.is_blank_token(v) && tree.ancestor_of_kind(v, SK_COMMENT).is_none() {
            proof {
                assert(first_code_from(tree, start as int, j as int));
                assert forall|jj: int| #[trigger] first_code_from(tree, start as int, jj) implies jj == j by {
                    if jj < j {
                    } else if j < jj {
                        assert(!is_code_token(tree, tree.tokens@[j as int] as int));
                    }
                }
            }
            return tree.is_token_kind(v, TK_RIGHT_BRACE) && tree.parent(v) == Some(table);
        }
        j = j + 1;
    }
    false
}

/// Position `j` holds the first token at or after position `from` that is neither blank nor
/// inside a comment.
pub open spec fn first_code_from(tree: &SyntaxTree, from: int, j: int) -> bool {
    &&& from <= j < tree.tokens.len()
    &&& is_code_token(tree, tree.tokens@[j] as int)
    &&& forall|k: int| from <= k < j ==> !is_code_token(tree, #[trigger] tree.tokens@[k] as int)
}

/// Token `u` is a comma or semicolon of a table after which, comments aside, the table's `}`
/// comes.
pub open spec fn trailing_table_separator(tree: &SyntaxTree, u: int) -> bool {
    &&& (tree.elems_kind_token(u, TK_COMMA) || tree.elems_kind_token(u, TK_SEMICOLON))
    &&& tree.elems@[u].parent matches Some(t)
    &&& (tree.elems@[t as int].kind == SK_TABLE_ARRAY_EXPR || tree.elems@[t as int].kind == SK_TABLE_OBJECT_EXPR)
    &&& exists|j: int|
        #[trigger] first_code_from(tree, tree.token_pos_spec(u) + 1, j) && tree.elems_kind_token(tree.tokens@[j] as int, TK_RIGHT_BRACE)
            && tree.elems@[tree.tokens@[j] as int].parent == Some(t)
}

/// Whether the table separator `u` is dropped: a table's trailing separator stays only where
/// the table's `}` starts a line of its own and the rule keeps a trailing separator.
fn drop_separator(config: &LuaFormatConfig, tree: &SyntaxTree, lists: &ListLayout, u: usize, in_join: bool) -> (r: bool)
    requires
        tree.wf(),
        lists.wf(tree.elems.len() as nat),
    ensures
        r ==> tree.elems_kind_token(u as int, TK_COMMA) || tree.elems_kind_token(u as int, TK_SEMICOLON),
        r == (trailing_table_separator(tree, u as int) && (table_comma_policy(*config) == TrailingComma::Never
            || !closes_on_new_line(tree, *lists, tree.elems@[u as int].parent.unwrap() as int, u as int, in_join))),
{
    if !is_trailing_table_separator(tree, u) {
        return false;
    }
    let l = tree.elems[u].parent.unwrap();
    match table_policy(config) {
        TrailingComma::Never => true,
        _ => !closer_on_new_line(tree, lists, l, u, in_join),
    }
}

/// The `}` or `)` that closes node `l` starts a new output line after token `p`.
pub open spec fn closes_on_new_line(tree: &SyntaxTree, lists: ListLayout, l: int, p: int, in_join: bool) -> bool {
    match crate::lists::last_solid_tok(tree, l) {
        Some(c) => separator_breaks(tree, lists, p, c as int, in_join),
        None => false,
    }
}

/// Whether the last token of node `l` starts a new output line after token `p`.
fn closer_on_new_line(tree: &SyntaxTree, lists: &ListLayout, l: usize, p: usize, in_join: bool) -> (r: bool)
    requires
        tree.wf(),
        lists.wf(tree.elems.len() as nat),
        l < tree.elems.len(),
    ensures
        r == closes_on_new_line(tree, *lists, l as int, p as int, in_join),
{
    let c = tree.last_solid_token(l);
    proof {
        crate::lists::lemma_last_solid_tok(tree, l as int, c);
    }
    match c {
        Some(c) => (tree.newlines_between(p, c) > 0 || lists.break_before[c]) && !in_join && !joins_empty_body(
            tree,
            p,
            c,
        ) && !lists.hug[c],
        None => false,
    }
}

/// The trailing separator rule of tables: their own option, or the one of all lists where it
/// says to inherit.
pub open spec fn table_comma_policy(config: LuaFormatConfig) -> TrailingComma {
    match config.output.trailing_table_separator {
        TrailingTableSeparator::Inherit => config.output.trailing_comma,
        TrailingTableSeparator::Never => TrailingComma::Never,
        TrailingTableSeparator::Multiline => TrailingComma::Multiline,
        TrailingTableSeparator::Always => TrailingComma::Always,
    }
}

/// The trailing separator rule of tables under `config`.
fn table_policy(config: &LuaFormatConfig) -> (r: TrailingComma)
    ensures
        r == table_comma_policy(*config),
{
    match config.output.trailing_table_separator {
        TrailingTableSeparator::Inherit => config.output.trailing_comma,
        TrailingTableSeparator::Never => TrailingComma::Never,
        TrailingTableSeparator::Multiline => TrailingComma::Multiline,
        TrailingTableSeparator::Always => TrailingComma::Always,
    }
}

/// List `l` has item `x` as its last item, `x` ends with token `t`, no separator follows `x`
/// in `l`, and `c`, the list's `)` or `}`, closes it.
pub open spec fn last_item_end(tree: &SyntaxTree, l: int, x: int, t: int, c: int) -> bool {
    &&& crate::lists::is_item_at(tree, l, x)
    &&& crate::lists::is_list_kind(tree.elems@[l].kind)
    &&& tree.last_solid(x, t)
    &&& tree.last_solid(l, c)
    &&& tree.elems@[c].parent == Some(l as usize)
    &&& (tree.elems@[c].kind == TK_RIGHT_PAREN || tree.elems@[c].kind == TK_RIGHT_BRACE)
    &&& forall|i: int|
        tree.elems@[x].end <= i < tree.elems@[l].end && tree.elems@[i].parent == Some(l as usize) ==> !(
        (tree.elems@[i].is_node && tree.elems@[i].kind != SK_COMMENT) || tree.elems_kind_token(i, TK_COMMA)
            || tree.elems_kind_token(i, TK_SEMICOLON))
}

/// The trailing comma rule that applies to list `l`.
pub open spec fn list_comma_policy(config: LuaFormatConfig, tree: &SyntaxTree, l: int) -> TrailingComma {
    if tree.elems@[l].kind == SK_TABLE_OBJECT_EXPR || tree.elems@[l].kind == SK_TABLE_ARRAY_EXPR {
        table_comma_policy(config)
    } else {
        config.output.trailing_comma
    }
}

/// Node `a` is the only node under call argument list `l`, and a string or a table.
pub open spec fn single_plain_arg(tree: &SyntaxTree, l: int, a: int) -> bool {
    &&& 0 <= l < a < tree.elems@[l].end
    &&& tree.elems@[l].is_node
    &&& tree.elems@[l].kind == SK_CALL_ARG_LIST
    &&& tree.elems@[a].is_node
    &&& tree.elems@[a].parent == Some(l as usize)
    &&& forall|i: int| l < i < tree.elems@[l].end && tree.elems@[i].parent == Some(l as usize) && tree.elems@[i].is_node ==> i == a
    &&& (tree.elems@[a].kind == SK_TABLE_OBJECT_EXPR || tree.elems@[a].kind == SK_TABLE_ARRAY_EXPR
        || tree.elems@[a].kind == SK_TABLE_EMPTY_EXPR || (tree.elems@[a].kind == SK_LITERAL_EXPR && exists|u: int|
        #[trigger] tree.first_solid(a, u) && (tree.elems@[u].kind == TK_STRING || tree.elems@[u].kind == TK_LONG_STRING)))
}

/// Parenthesis token `t` is dropped: the options omit the parentheses of a call whose only
/// argument is a table or a string literal, and `t` is one of that call's parentheses.
pub open spec fn paren_dropped(config: LuaFormatConfig, tree: &SyntaxTree, t: int) -> bool {
    &&& config.output.single_arg_call_parens == SingleArgCallParens::Omit
    &&& (tree.elems_kind_token(t, TK_LEFT_PAREN) || tree.elems_kind_token(t, TK_RIGHT_PAREN))
    &&& tree.elems@[t].parent matches Some(l)
    &&& exists|a: int| #[trigger] single_plain_arg(tree, l as int, a)
}

/// The only argument of call argument list `l`, when it is a string or a table and nothing
/// else stands between the list's parentheses.
fn single_plain_arg_of(tree: &SyntaxTree, l: usize) -> (r: Option<usize>)
    requires
        tree.wf(),
        l < tree.elems.len(),
    ensures
        r matches Some(a) ==> a < tree.elems.len() && single_plain_arg(tree, l as int, a as int),
        r is None ==> forall|a: int| !#[trigger] single_plain_arg(tree, l as int, a),
{
    if !tree.is_node_kind(l, SK_CALL_ARG_LIST) {
        return None;
    }
    let end = tree.elems[l].end;
    let mut found: Option<usize> = None;
    let mut i = l + 1;
    while i < end
        invariant
            tree.wf(),
            l < tree.elems.len(),
            end == tree.elems@[l as int].end,
            end <= tree.elems.len(),
            l < i <= end,
            found matches Some(a) ==> l < a < i && tree.elems@[a as int].is_node && tree.elems@[a as int].parent == Some(l),
            forall|q: int| l < q < i && tree.elems@[q].parent == Some(l) && tree.elems@[q].is_node ==> found == Some(q as usize),
        decreases end - i,
    {
        if tree.elems[i].parent == Some(l) && tree.elems[i].is_node {
            if found.is_some() {
                proof {
                    let f = found.unwrap() as int;
                    assert forall|a: int| !#[trigger] single_plain_arg(tree, l as int, a) by {
                        if single_plain_arg(tree, l as int, a) {
                            assert(f == a);
                            assert(i as int == a);
                        }
                    }
                }
                return None;
            }
            found = Some(i);
        }
        i = i + 1;
    }
    proof {
        assert forall|a2: int| #[trigger] single_plain_arg(tree, l as int, a2) implies found == Some(a2 as usize) by {
            assert(l < a2 < i);
        }
    }
    match found {
        Some(a) => {
            let k = tree.elems[a].kind;
            if k == SK_TABLE_OBJECT_EXPR || k == SK_TABLE_ARRAY_EXPR || k == SK_TABLE_EMPTY_EXPR {
                Some(a)
            } else if k == SK_LITERAL_EXPR {
                match tree.first_solid_token(a) {
                    Some(u) => if tree.elems[u].kind == TK_STRING || tree.elems[u].kind == TK_LONG_STRING {
                        Some(a)
                    } else {
                        proof {
                            assert forall|u2: int| #[trigger] tree.first_solid(a as int, u2) implies u2 == u as int by {
                                lemma_first_solid_unique(tree, a as int, u2, u as int);
                            }
                        }
                        None
                    },
                    None => None,
                }
            } else {
                None
            }
        },
        None => None,
    }
}

/// Token `t` opens the only argument of a call written without parentheses, a string literal
/// or a table constructor, under `Always`: the call gets its parentheses before `t`.
pub open spec fn paren_wanted(config: LuaFormatConfig, tree: &SyntaxTree, t: int) -> bool {
    &&& config.output.single_arg_call_parens == SingleArgCallParens::Always
    &&& 0 <= t < tree.elems.len()
    &&& !tree.elems@[t].is_node
    &&& tree.elems@[t].parent matches Some(a)
    &&& (tree.elems@[a as int].kind == SK_LITERAL_EXPR || tree.elems@[a as int].kind == SK_TABLE_OBJECT_EXPR
        || tree.elems@[a as int].kind == SK_TABLE_ARRAY_EXPR || tree.elems@[a as int].kind == SK_TABLE_EMPTY_EXPR)
    &&& tree.elems@[a as int].parent matches Some(l)
    &&& single_plain_arg(tree, l as int, a as int)
    &&& forall|i: int|
        l < i < tree.elems@[l as int].end && tree.elems@[i].parent == Some(l) && !tree.elems@[i].is_node
            ==> tree.elems@[i].kind != TK_LEFT_PAREN
    &&& tree.first_solid(a as int, t)
}

/// What the single-argument parenthesis option does at token `t`: drop it (a parenthesis
/// around a lone string or table argument, under `Omit`), write `(` before it, or write `)`
/// after it (the first and last tokens of such an argument written without parentheses, under
/// `Always`).
fn single_arg_parens(config: &LuaFormatConfig, tree: &SyntaxTree, t: usize) -> (r: (bool, bool, bool))
    requires
        tree.wf(),
    ensures
        r.0 ==> config.output.single_arg_call_parens == SingleArgCallParens::Omit && (tree.elems_kind_token(t as int, TK_LEFT_PAREN)
            || tree.elems_kind_token(t as int, TK_RIGHT_PAREN)) && exists|a: int|
            #[trigger] single_plain_arg(tree, tree.elems@[t as int].parent.unwrap() as int, a),
        r.1 ==> config.output.single_arg_call_parens == SingleArgCallParens::Always && exists|a: int|
            #[trigger] single_plain_arg(tree, tree.elems@[a].parent.unwrap() as int, a) && tree.first_solid(a, t as int),
        r.2 ==> config.output.single_arg_call_parens == SingleArgCallParens::Always && exists|a: int|
            #[trigger] single_plain_arg(tree, tree.elems@[a].parent.unwrap() as int, a) && tree.last_solid(a, t as int),
        config.output.single_arg_call_parens == SingleArgCallParens::Preserve ==> r == (false, false, false),
        r.0 == paren_dropped(*config, tree, t as int),
        paren_wanted(*config, tree, t as int) ==> r.1,
{
    if t >= tree.elems.len() || tree.elems[t].is_node {
        return (false, false, false);
    }
    match config.output.single_arg_call_parens {
        SingleArgCallParens::Preserve => (false, false, false),
        SingleArgCallParens::Omit => {
            let k = tree.elems[t].kind;
            if k != TK_LEFT_PAREN && k != TK_RIGHT_PAREN {
                return (false, false, false);
            }
            match tree.parent(t) {
                Some(l) => match single_plain_arg_of(tree, l) {
                    Some(_) => (true, false, false),
                    None => (false, false, false),
                },
                None => (false, false, false),
            }
        },
        SingleArgCallParens::Always => {
            let a = match tree.parent(t) {
                Some(a) => a,
                None => return (false, false, false),
            };
            let a = if tree.elems[a].kind == SK_LITERAL_EXPR || tree.elems[a].kind == SK_TABLE_OBJECT_EXPR
                || tree.elems[a].kind == SK_TABLE_ARRAY_EXPR || tree.elems[a].kind == SK_TABLE_EMPTY_EXPR {
                a
            } else {
                return (false, false, false);
            };
            let l = match tree.parent(a) {
                Some(l) => l,
                None => return (false, false, false),
            };
            let found = single_plain_arg_of(tree, l);
            if found != Some(a) {
                proof {
                    if paren_wanted(*config, tree, t as int) {
                        let a2 = found.unwrap();
                        assert(single_plain_arg(tree, l as int, a2 as int));
                        assert(a2 == a);
                    }
                }
                return (false, false, false);
            }
            // Only a list written without parentheses gets them.
            let end = tree.elems[l].end;
            let mut i = l + 1;
            while i < end
                invariant
                    tree.wf(),
                    l < tree.elems.len(),
                    end == tree.elems@[l as int].end,
                    end <= tree.elems.len(),
                    l < i,
                    config.output.single_arg_call_parens == SingleArgCallParens::Always,
                    t < tree.elems.len(),
                    tree.elems@[t as int].parent == Some(a),
                    tree.elems@[a as int].parent == Some(l),
                decreases end - i,
            {
                if tree.elems[i].parent == Some(l) && !tree.elems[i].is_node && tree.elems[i].kind == TK_LEFT_PAREN {
                    return (false, false, false);
                }
                i = i + 1;
            }
            let ft = tree.first_solid_token(a);
            proof {
                if paren_wanted(*config, tree, t as int) {
                    if let Some(f) = ft {
                        lemma_first_solid_unique(tree, a as int, f as int, t as int);
                    }
                }
            }
            let first = ft == Some(t);
            let last = tree.last_solid_token(a) == Some(t);
            (false, first, last)
        },
    }
}

/// The normalized lines of comment `c`, or nothing where it is written as it stands.
fn comment_lines_of(ctx: &FormatContext, tree: &SyntaxTree, plan: &RootFormatPlan, c: usize) -> (r: Option<Vec<Vec<char>>>)
    requires
        tree.wf(),
        plan.wf(),
        c < tree.elems.len(),
{
    crate::comment::render_comment_lines(ctx, tree, plan, c)
}

/// What the single-argument parenthesis option does at token `t`, as `single_arg_parens` says;
/// a dropped token is a parenthesis.
fn paren_action(config: &LuaFormatConfig, tree: &SyntaxTree, t: usize) -> (r: (bool, bool, bool))
    requires
        tree.wf(),
    ensures
        r.0 ==> tree.elems_kind_token(t as int, TK_LEFT_PAREN) || tree.elems_kind_token(t as int, TK_RIGHT_PAREN),
        r.1 ==> paren_opened(*config, tree, t as int),
        r.0 == paren_dropped(*config, tree, t as int),
        paren_wanted(*config, tree, t as int) ==> r.1,
{
    single_arg_parens(config, tree, t)
}

/// Under `Omit`, each parenthesis of a call whose only argument is a table constructor of any
/// kind (with keys, an array, or empty) or a string literal is dropped.
pub proof fn law_omit_drops_parens_of_lone_table_or_string(config: LuaFormatConfig, tree: &SyntaxTree, t: int, a: int)
    requires
        config.output.single_arg_call_parens == SingleArgCallParens::Omit,
        tree.elems_kind_token(t, TK_LEFT_PAREN) || tree.elems_kind_token(t, TK_RIGHT_PAREN),
        tree.elems@[t].parent matches Some(l) && {
            &&& 0 <= l < a < tree.elems@[l as int].end
            &&& tree.elems@[l as int].is_node
            &&& tree.elems@[l as int].kind == SK_CALL_ARG_LIST
            &&& tree.elems@[a].is_node
            &&& tree.elems@[a].parent == Some(l)
            &&& forall|i: int|
                l < i < tree.elems@[l as int].end && tree.elems@[i].parent == Some(l) && tree.elems@[i].is_node ==> i == a
        },
        tree.elems@[a].kind == SK_TABLE_OBJECT_EXPR || tree.elems@[a].kind == SK_TABLE_ARRAY_EXPR || tree.elems@[a].kind
            == SK_TABLE_EMPTY_EXPR || (tree.elems@[a].kind == SK_LITERAL_EXPR && exists|u: int|
            #[trigger] tree.first_solid(a, u) && (tree.elems@[u].kind == TK_STRING || tree.elems@[u].kind == TK_LONG_STRING)),
    ensures
        paren_dropped(config, tree, t),
{
    let l = tree.elems@[t].parent.unwrap() as int;
    assert(single_plain_arg(tree, l, a));
}

/// Writes character `c` when `yes` holds.
fn push_if(st: &mut RenderState, yes: bool, c: char)
    ensures
        final(st).out@ == (if yes { old(st).out@.push(c) } else { old(st).out@ }),
        keeps_shown(old(st).out@, final(st).out@),
        final(st).line_indent == old(st).line_indent,
        final(st).last == old(st).last,
        final(st).cur_indent == old(st).cur_indent,
        final(st).join_until == old(st).join_until,
{
    if yes {
        push_char(st, c);
    }
}

/// Writes a space and an opening parenthesis, as asked, before a token.
fn push_before_token(st: &mut RenderState, space: bool, open: bool)
    ensures
        keeps_shown(old(st).out@, final(st).out@),
        !space && !open ==> final(st).out == old(st).out,
        final(st).line_indent == old(st).line_indent,
        final(st).last == old(st).last,
        final(st).cur_indent == old(st).cur_indent,
        final(st).join_until == old(st).join_until,
{
    if space {
        push_char(st, ' ');
    }
    if open {
        push_char(st, '(');
    }
}

/// Writes the trailing comma that the list ending with token `t` asks for, if any.
fn write_trailing_comma(config: &LuaFormatConfig, tree: &SyntaxTree, lists: &ListLayout, st: &mut RenderState, t: usize, in_join: bool)
    requires
        tree.wf(),
        lists.wf(tree.elems.len() as nat),
    ensures
        final(st).out@ == old(st).out@ || final(st).out@ == old(st).out@.push(','),
        keeps_shown(old(st).out@, final(st).out@),
        final(st).line_indent == old(st).line_indent,
        final(st).last == old(st).last,
        final(st).cur_indent == old(st).cur_indent,
        final(st).join_until == old(st).join_until,
{
    if adds_trailing_comma(config, tree, lists, t, in_join) {
        push_char(st, ',');
    }
}

/// Whether a comma is written right after token `t`: `t` ends the last item of a list, and the
/// list's rule asks for a trailing comma always, or when its closer starts a line of its own.
fn adds_trailing_comma(config: &LuaFormatConfig, tree: &SyntaxTree, lists: &ListLayout, t: usize, in_join: bool) -> (r: bool)
    requires
        tree.wf(),
        lists.wf(tree.elems.len() as nat),
    ensures
        r ==> exists|l: int, x: int, c: int|
            #[trigger] last_item_end(tree, l, x, t as int, c) && list_comma_policy(*config, tree, l) != TrailingComma::Never
                && separator_breaks(tree, *lists, t as int, c, in_join),
{
    if t >= tree.elems.len() || tree.elems[t].is_node {
        return false;
    }
    let mut cur = t;
    if tree.last_solid_token(cur) != Some(t) {
        return false;
    }
    loop
        invariant
            tree.wf(),
            lists.wf(tree.elems.len() as nat),
            cur < tree.elems.len(),
            tree.last_solid(cur as int, t as int),
        decreases cur,
    {
        let p = match tree.parent(cur) {
            Some(p) => p,
            None => return false,
        };
        let k = tree.elems[p].kind;
        let is_table = k == SK_TABLE_OBJECT_EXPR || k == SK_TABLE_ARRAY_EXPR;
        if (is_table || k == SK_CALL_ARG_LIST || k == SK_PARAM_LIST) && tree.elems[cur].is_node
            && tree.elems[cur].kind != SK_COMMENT {
            if let Some(c) = tree.last_solid_token(p) {
                if tree.elems[c].parent == Some(p) && (tree.elems[c].kind == TK_RIGHT_PAREN
                    || tree.elems[c].kind == TK_RIGHT_BRACE) {
                    let end = tree.elems[p].end;
                    let mut i = tree.elems[cur].end;
                    while i < end
                        invariant
                            tree.wf(),
                            p < tree.elems.len(),
                            cur < tree.elems.len(),
                            tree.elems@[cur as int].end <= i,
                            end == tree.elems@[p as int].end,
                            end <= tree.elems.len(),
                            tree.elems@[cur as int].end <= i,
                            forall|q: int|
                                tree.elems@[cur as int].end <= q < i && #[trigger] tree.elems@[q].parent == Some(p) ==> !(
                                (tree.elems@[q].is_node && tree.elems@[q].kind != SK_COMMENT) || tree.elems_kind_token(q, TK_COMMA)
                                    || tree.elems_kind_token(q, TK_SEMICOLON)),
                        decreases end - i,
                    {
                        let e = tree.elems[i];
                        if e.parent == Some(p) && ((e.is_node && e.kind != SK_COMMENT) || (!e.is_node && (e.kind
                            == TK_COMMA || e.kind == TK_SEMICOLON))) {
                            return false;
                        }
                        assert forall|q: int|
                            tree.elems@[cur as int].end <= q < i + 1 && #[trigger] tree.elems@[q].parent == Some(p) implies !(
                            (tree.elems@[q].is_node && tree.elems@[q].kind != SK_COMMENT) || tree.elems_kind_token(q, TK_COMMA)
                                || tree.elems_kind_token(q, TK_SEMICOLON)) by {
                            if q == i as int {
                                assert(tree.elems@[q] == e);
                            }
                        }
                        i = i + 1;
                    }
                    let policy = if is_table {
                        table_policy(config)
                    } else {
                        config.output.trailing_comma
                    };
                    let r = match policy {
                        TrailingComma::Never => false,
                        _ => (tree.newlines_between(t, c) > 0 || lists.break_before[c]) && !in_join
                            && !joins_empty_body(tree, t, c) && !lists.hug[c],
                    };
                    proof {
                        if r {
                            assert(last_item_end(tree, p as int, cur as int, t as int, c as int));
                        }
                    }
                    return r;
                }
            }
        }
        if tree.last_solid_token(p) != Some(t) {
            return false;
        }
        cur = p;
    }
}

/// The last token position of the run of tokens that starts at position `j` and shares its
/// block and statement, when that run spans several lines, holds no comment, and fits on one
/// line from column `col`.
fn joinable_run(ctx: &FormatContext, spacing: &RootSpacingModel, tree: &SyntaxTree, lists: &ListLayout, j: usize, col: usize) -> (r: Option<usize>)
    requires
        tree.wf(),
        spacing.wf(),
        lists.wf(tree.elems.len() as nat),
    ensures
        j >= tree.tokens.len() ==> r is None,
        j < tree.tokens.len() ==> r == {
            let t = tree.tokens@[j as int] as int;
            let home = home_spec(tree, t);
            let stop = match home.1 {
                Some(s) => match tree.elems@[s as int].parent {
                    Some(b) => b as int,
                    None => 0,
                },
                None => 0,
            };
            join_walk(*ctx.config, spacing, tree, *lists, home, stop, j as int, col, None, j as int, false)
        },
{
    if j >= tree.tokens.len() {
        return None;
    }
    let t = tree.tokens[j];
    let home = home_of(tree, t);
    let stop = match home.1 {
        Some(s) => match tree.parent(s) {
            Some(b) => b,
            None => 0,
        },
        None => 0,
    };
    let ghost goal = join_walk(*ctx.config, spacing, tree, *lists, home, stop as int, j as int, col, None, j as int, false);
    let mut width = col;
    let mut prev: Option<usize> = None;
    let mut last_pos = j;
    let mut spans_lines = false;
    let mut k = j;
    while k < tree.tokens.len()
        invariant
            tree.wf(),
            spacing.wf(),
            j <= last_pos,
            j <= k,
            last_pos < tree.tokens.len(),
            lists.wf(tree.elems.len() as nat),
            prev matches Some(p) ==> p < tree.elems.len(),
            join_walk(*ctx.config, spacing, tree, *lists, home, stop as int, k as int, width, prev, last_pos as int, spans_lines) == goal,
            j < tree.tokens.len(),
            home == home_spec(tree, tree.tokens@[j as int] as int),
            stop as int == match home.1 {
                Some(s) => match tree.elems@[s as int].parent {
                    Some(b) => b as int,
                    None => 0,
                },
                None => 0,
            },
            goal == join_walk(*ctx.config, spacing, tree, *lists, home, stop as int, j as int, col, None, j as int, false),
        decreases tree.tokens.len() - k,
    {
        let u = tree.tokens[k];
        if !tree.is_blank_token(u) && u < tree.elems.len() {
            let h = home_of(tree, u);
            if h.0 != home.0 || h.1 != home.1 {

                return if spans_lines && width <= ctx.config.layout.max_line_width {
                    Some(last_pos)
                } else {
                    None
                };
            }
            let cu = tree.ancestor_of_kind(u, SK_COMMENT);
            proof {
                if let Some(c) = cu {
                    assert(c as int != u as int && tree.ancestor_or_self(c as int, u as int));
                }
            }
            if cu.is_some() || token_has_newline(tree, u)
                || in_sticky_table(tree, u, stop) || lists.break_before[u] {
                return None;
            }
            if ctx.config.layout.table_expand == ExpandStrategy::Always && (tree.is_token_kind(u, TK_LEFT_BRACE)) {
                return None;
            }
            if !drop_separator(ctx.config, tree, lists, u, true) {
                if let Some(p) = prev {
                    if tree.newlines_between(p, u) > 0 {
                        spans_lines = true;
                    }
                    width = width.saturating_add(gap_between(spacing, tree, p, u));
                }
                let len = if u < tree.elems.len() {
                    tree.elems[u].text_end - tree.elems[u].text_start
                } else {
                    0
                };
                width = width.saturating_add(len);
                prev = Some(u);
            }
            last_pos = k;
        }
        k = k + 1;
    }
    if spans_lines && width <= ctx.config.layout.max_line_width {
        Some(last_pos)
    } else {
        None
    }
}

/// The end of the run that [`joinable_run`] measures, from token position `k` on, with the width
/// `width` so far, the last token `prev` counted, the last position `last_pos` taken and whether
/// the run has crossed a line break: the run stops at the first token of another block or
/// statement; a comment, a token holding a line break, a sticky table, a forced break or, under
/// always-expanded tables, a `{` rules the run out; the run is kept when it crossed a line break
/// and fits.
pub open spec fn join_walk(
    config: LuaFormatConfig,
    spacing: &RootSpacingModel,
    tree: &SyntaxTree,
    lists: ListLayout,
    home: (Option<usize>, Option<usize>),
    stop: int,
    k: int,
    width: usize,
    prev: Option<usize>,
    last_pos: int,
    spans: bool,
) -> Option<usize>
    decreases tree.tokens.len() - k,
{
    let finish = if spans && width <= config.layout.max_line_width {
        Some(last_pos as usize)
    } else {
        None
    };
    if k < 0 || k >= tree.tokens.len() {
        finish
    } else {
        let u = tree.tokens@[k] as int;
        let blank = tree.is_blank_at(k);
        if !blank && 0 <= u < tree.elems.len() {
            if home_spec(tree, u) != home {
                finish
            } else if in_comment(tree, u) || tree.spec_text(u).contains('\n') || sticky_above(tree, u, stop)
                || lists.break_before@[u] {
                None
            } else if config.layout.table_expand == ExpandStrategy::Always && tree.elems_kind_token(u, TK_LEFT_BRACE) {
                None
            } else if !drop_sep_spec(config, tree, u) {
                let spans2 = spans || (prev is Some && tree.line_breaks_in(tree.token_pos_spec(prev.unwrap() as int) + 1, tree.token_pos_spec(u)) > 0);
                let w1 = match prev {
                    Some(p) => crate::lists::sat_add(width as int, gap_spec(spacing, tree, p as int, u) as int),
                    None => width,
                };
                let w2 = crate::lists::sat_add(w1 as int, tree.elems@[u].text_end - tree.elems@[u].text_start);
                join_walk(config, spacing, tree, lists, home, stop, k + 1, w2, Some(u as usize), k, spans2)
            } else {
                join_walk(config, spacing, tree, lists, home, stop, k + 1, width, prev, k, spans)
            }
        } else {
            join_walk(config, spacing, tree, lists, home, stop, k + 1, width, prev, last_pos, spans)
        }
    }
}

/// Whether table separator `u` is dropped from a joined line.
pub open spec fn drop_sep_spec(config: LuaFormatConfig, tree: &SyntaxTree, u: int) -> bool {
    trailing_table_separator(tree, u)
}

/// Whether the comment that starts with token `t` is written as its source text.
fn is_raw_comment(tree: &SyntaxTree, t: usize, comment: usize) -> (r: bool)
    requires
        tree.wf(),
    ensures
        r == (tree.elems_kind_token(t as int, TK_LONG_COMMENT_START) || tree.elems_kind_token(t as int, TK_DOC_LONG_START)
            || tree.elems_kind_token(t as int, TK_DOC_TRIVIA_START) || (t < tree.elems.len() && {
            let text = tree.spec_text(t as int);
            let k = tree.elems@[t as int].kind;
            text.len() >= 2 && text[0] == '-' && text[1] == '-' && k != TK_NORMAL_START && k
                != TK_DOC_CONTINUE && k != crate::kinds::TK_DOC_START && k != crate::kinds::TK_DOC_CONTINUE_OR
        }) || (comment < tree.elems.len() && tree.elems@[comment as int].kind != SK_COMMENT)),
{
    if tree.is_token_kind(t, TK_LONG_COMMENT_START) || tree.is_token_kind(t, TK_DOC_LONG_START)
        || tree.is_token_kind(t, TK_DOC_TRIVIA_START) {
        return true;
    }
    if t < tree.elems.len() {
        let text = tree.text_of(t);
        if text.len() >= 2 && text[0] == '-' && text[1] == '-' && tree.elems[t].kind != TK_NORMAL_START
            && tree.elems[t].kind != TK_DOC_CONTINUE && tree.elems[t].kind != crate::kinds::TK_DOC_START
            && tree.elems[t].kind != crate::kinds::TK_DOC_CONTINUE_OR {
            return true;
        }
    }
    comment < tree.elems.len() && tree.elems[comment].kind != SK_COMMENT
}

/// Whether the tokens between `p` and `t` are all blank.
fn only_blanks_between(tree: &SyntaxTree, p: usize, t: usize) -> (r: bool)
    requires
        tree.wf(),
    ensures
        r == forall|j: int|
            tree.token_pos_spec(p as int) < j < tree.token_pos_spec(t as int) ==> tree.is_blank_at(j),
{
    let a = tree.token_pos(p);
    let b = tree.token_pos(t);
    let mut j = a.saturating_add(1);
    while j < b
        invariant
            tree.wf(),
            b <= tree.tokens.len(),
            a < j || b <= j,
            b == tree.token_pos_spec(t as int),
            a == tree.token_pos_spec(p as int),
            forall|k: int| a < k < j ==> tree.is_blank_at(k),
        decreases b - j,
    {
        if !tree.is_blank_token(tree.tokens[j]) {
            assert(!tree.is_blank_at(j as int));
            return false;
        }
        j = j + 1;
    }
    true
}

/// Token `t`, an `end`, closes an empty function or loop body right after token `p` (its `)`
/// or `do`), with only blanks between them.
pub open spec fn joins_empty_body_spec(tree: &SyntaxTree, p: int, t: int) -> bool {
    (tree.elems_kind_token(t, TK_END) && match tree.elems@[t].parent {
            Some(o) => {
                let owner = tree.elems@[o as int].kind;
                &&& ((tree.elems_kind_token(p, TK_RIGHT_PAREN) && match tree.elems@[p].parent {
                    Some(pl) => tree.elems@[pl as int].kind == SK_PARAM_LIST && tree.elems@[pl as int].parent == Some(o),
                    None => false,
                }) || (!tree.elems_kind_token(p, TK_RIGHT_PAREN) && tree.elems_kind_token(p, TK_DO)
                    && tree.elems@[p].parent == Some(o)))
                &&& (owner == SK_CLOSURE_EXPR || owner == SK_DO_STAT || owner == SK_WHILE_STAT || owner == SK_FOR_STAT
                    || owner == SK_FOR_RANGE_STAT)
                &&& forall|j: int| tree.token_pos_spec(p) < j < tree.token_pos_spec(t) ==> tree.is_blank_at(j)
            },
            None => false,
        })
}

/// Whether `end` at `t` closes an empty body right after `p` and is written on `p`'s line.
fn joins_empty_body(tree: &SyntaxTree, p: usize, t: usize) -> (r: bool)
    requires
        tree.wf(),
    ensures
        r == joins_empty_body_spec(tree, p as int, t as int),
{
    if !tree.is_token_kind(t, TK_END) {
        return false;
    }
    let owner_node = match tree.parent(t) {
        Some(o) => o,
        None => return false,
    };
    let owner = tree.elems[owner_node].kind;
    if tree.is_token_kind(p, TK_RIGHT_PAREN) {
        // the closing parenthesis of the parameters of the same function
        match tree.parent(p) {
            Some(pl) => {
                if !(tree.elems[pl].kind == SK_PARAM_LIST && tree.parent(pl) == Some(owner_node)) {
                    return false;
                }
            },
            None => return false,
        }
    } else if tree.is_token_kind(p, TK_DO) {
        if tree.parent(p) != Some(owner_node) {
            return false;
        }
    } else {
        return false;
    }
    if !(owner == SK_CLOSURE_EXPR || owner == SK_DO_STAT || owner == SK_WHILE_STAT || owner
        == SK_FOR_STAT || owner == SK_FOR_RANGE_STAT) {
        return false;
    }
    only_blanks_between(tree, p, t)
}

/// Whether element `x` belongs to a comment, and which.
fn comment_of(tree: &SyntaxTree, x: usize) -> (r: Option<usize>)
    requires
        tree.wf(),
    ensures
        r matches Some(c) ==> c < tree.elems.len() && tree.elems@[c as int].kind == SK_COMMENT
            && tree.elems@[c as int].is_node && c < x && tree.ancestor_or_self(c as int, x as int),
        r is None ==> forall|a: int|
            a != x && #[trigger] tree.ancestor_or_self(a, x as int) ==> !(0 <= a < tree.elems.len()
                && tree.elems@[a].is_node && tree.elems@[a].kind == SK_COMMENT),
{
    tree.ancestor_of_kind(x, SK_COMMENT)
}

/// The number of line breaks written before token `t`, given `nl` in the source.
fn line_breaks_before(ctx: &FormatContext, tree: &SyntaxTree, p: usize, t: usize, nl: usize) -> (r: usize)
    requires
        tree.wf(),
        nl > 0,
    ensures
        1 <= r,
        r <= nl,
        r <= ctx.config.layout.max_blank_lines + 1,
        r == breaks_before_spec(ctx.config.layout.max_blank_lines, tree, p as int, t as int, nl),
{
    let max = ctx.config.layout.max_blank_lines.saturating_add(1);
    let capped = if nl > max {
        max
    } else {
        nl
    };
    let t_home = home_of(tree, t);
    let p_home = home_of(tree, p);
    let starts_child = match t_home.1 {
        Some(c) => {
            let fc = tree.first_solid_token(c);
            proof {
                crate::lists::lemma_first_solid_tok(tree, c as int, fc);
            }
            fc == Some(t)
        },
        None => false,
    };
    if starts_child && t_home.0 == p_home.0 && p_home.1 != t_home.1 {
        return capped;
    }
    if comment_of(tree, p).is_some() && comment_of(tree, t).is_none() && !starts_child {
        return capped;
    }
    1
}

/// A list of `n` zeros.
fn zeros(n: usize) -> (r: Vec<usize>)
    ensures
        r@.len() == n,
        forall|i: int| 0 <= i < n ==> #[trigger] r@[i] == 0,
{
    let mut v: Vec<usize> = Vec::new();
    let mut i: usize = 0;
    while i < n
        invariant
            v@.len() == i,
            i <= n,
            forall|k: int| 0 <= k < i ==> #[trigger] v@[k] == 0,
        decreases n - i,
    {
        v.push(0);
        i = i + 1;
    }
    v
}

/// The spaces before a trailing comment on a line whose content is `content_width` wide, its
/// group's content being `aligned_content_width` wide: the difference, then at least one
/// space (the option's minimum); with a minimum column set, at least up to that column.
pub open spec fn comment_padding(min_spaces: usize, min_col: usize, content_width: usize, aligned_content_width: usize) -> int {
    let natural = (if aligned_content_width > content_width {
        aligned_content_width - content_width
    } else {
        0
    }) + (if min_spaces > 1 {
        min_spaces as int
    } else {
        1
    });
    let wanted = if min_col == 0 {
        natural
    } else if min_col > content_width && min_col - content_width > natural {
        min_col - content_width
    } else {
        natural
    };
    if wanted > usize::MAX {
        usize::MAX as int
    } else {
        wanted
    }
}

/// The spaces written before a trailing comment, by the options.
pub fn trailing_comment_padding_for_config(ctx: &FormatContext, content_width: usize, aligned_content_width: usize) -> (r: usize)
    ensures
        r == comment_padding(
            ctx.config.comments.line_comment_min_spaces_before,
            ctx.config.comments.line_comment_min_column,
            content_width,
            aligned_content_width,
        ),
{
    let min_spaces = if ctx.config.comments.line_comment_min_spaces_before > 1 {
        ctx.config.comments.line_comment_min_spaces_before
    } else {
        1
    };
    let natural = aligned_content_width.saturating_sub(content_width).saturating_add(min_spaces);
    let min_col = ctx.config.comments.line_comment_min_column;
    if min_col == 0 {
        natural
    } else {
        let to_col = min_col.saturating_sub(content_width);
        if to_col > natural {
            to_col
        } else {
            natural
        }
    }
}

/// Whether token `t` starts a new output line after token `p`: a line break stands between
/// them in the source or the list layout asks for one, and no join, empty body or hugged
/// block keeps them together.
pub open spec fn separator_breaks(tree: &SyntaxTree, lists: ListLayout, p: int, t: int, in_join: bool) -> bool {
    &&& (tree.line_breaks_in(tree.token_pos_spec(p) + 1, tree.token_pos_spec(t)) > 0 || lists.break_before@[t])
    &&& !in_join
    &&& !joins_empty_body_spec(tree, p, t)
    &&& !lists.hug@[t]
}

/// Writes what separates token `t` from the token written before it: line breaks and the
/// indentation of the new line, the padding before a trailing comment, or the gap that the
/// spacing plan asks for; and records the line indentation of `t`.
fn write_separator(
    ctx: &FormatContext,
    tree: &SyntaxTree,
    spacing: &RootSpacingModel,
    lists: &ListLayout,
    st: &mut RenderState,
    t: usize,
    comment: Option<usize>,
    in_join: bool,
    glue_next: bool,
    comment_target: &Vec<usize>,
)
    requires
        tree.wf(),
        spacing.wf(),
        lists.wf(tree.elems.len() as nat),
    ensures
        keeps_shown(old(st).out@, final(st).out@),
        final(st).last == old(st).last,
        final(st).join_until == old(st).join_until,
        final(st).line_indent@ == (if t < old(st).line_indent@.len() {
            old(st).line_indent@.update(t as int, final(st).cur_indent)
        } else {
            old(st).line_indent@
        }),
        match old(st).last {
            Some(p) if p < tree.elems.len() && t < tree.elems.len() => if separator_breaks(
                tree,
                *lists,
                p as int,
                t as int,
                in_join,
            ) {
                &&& final(st).cur_indent == indent_walk(tree, *lists, *old(st), t as int, t as int)
                &&& exists|level: nat| #[trigger] ends_at_level(*ctx.config, final(st).out@, level)
            } else {
                &&& final(st).cur_indent == old(st).cur_indent
                &&& glue_next ==> final(st).out == old(st).out
                &&& !glue_next && comment is None ==> final(st).out@ == old(st).out@ + spaces_seq(
                    gap_spec(spacing, tree, p as int, t as int) as nat,
                )
                &&& !glue_next ==> exists|n: nat| final(st).out@ == old(st).out@ + spaces_seq(n)
                &&& !glue_next && !(comment matches Some(c) && tree.first_solid(c as int, t as int)) ==> final(st).out@
                    == old(st).out@ + spaces_seq(gap_spec(spacing, tree, p as int, t as int) as nat)
            },
            _ => final(st).out == old(st).out && final(st).cur_indent == old(st).cur_indent,
        },
{
    match st.last {
        None => {
            record(st, t);
        },
        Some(p) => {
            if p < tree.elems.len() && t < tree.elems.len() {
                let nl = tree.newlines_between(p, t);
                let starts_comment = match comment {
                    Some(c) => tree.first_solid_token(c) == Some(t),
                    None => false,
                };
                if (nl > 0 || lists.break_before[t]) && !in_join && !joins_empty_body(tree, p, t)
                    && !lists.hug[t] {
                    let count = line_breaks_before(ctx, tree, p, t, if nl > 0 { nl } else { 1 });
                    let level = compute_indent(tree, lists, st, t);
                    break_line(ctx, st, count, level);
                } else if glue_next {
                    // the gap was written with the previous token
                } else if starts_comment && comment_of(tree, p).is_none() {
                    let col = st.col;
                    let mut pad = trailing_comment_padding_for_config(ctx, col, col);
                    if t < comment_target.len() && comment_target[t] > 0 {
                        let goal = comment_target[t];
                        pad = if goal > st.col {
                            goal - st.col
                        } else {
                            1
                        };
                    }
                    push_spaces(st, pad);
                } else {
                    let gap = gap_between(spacing, tree, p, t);
                    push_spaces(st, gap);
                }
            }
            record(st, t);
        },
    }
}

/// The block of closure `c`, when it has one.
fn closure_block(tree: &SyntaxTree, c: usize) -> (r: Option<usize>)
    requires
        tree.wf(),
        c < tree.elems.len(),
    ensures
        r matches Some(b) ==> b < tree.elems.len() && tree.elems@[b as int].parent == Some(c) && tree.elems@[b as int].is_node
            && tree.elems@[b as int].kind == SK_BLOCK,
{
    let end = tree.elems[c].end;
    let mut i = c + 1;
    while i < end
        invariant
            tree.wf(),
            end <= tree.elems.len(),
            c < i,
        decreases end - i,
    {
        if tree.elems[i].is_node && tree.elems[i].kind == SK_BLOCK && tree.elems[i].parent == Some(c) {
            return Some(i);
        }
        i = i + 1;
    }
    None
}

/// Closure `c` returns one value and does nothing else, and holds no comment.
fn is_simple_closure(tree: &SyntaxTree, c: usize, b: usize) -> (r: bool)
    requires
        tree.wf(),
        c < tree.elems.len(),
        b < tree.elems.len(),
    ensures
        r ==> forall|i: int| c < i < tree.elems@[c as int].end ==> !(tree.elems@[i].is_node && tree.elems@[i].kind == SK_COMMENT),
{
    let end = tree.elems[c].end;
    let mut i = c + 1;
    while i < end
        invariant
            tree.wf(),
            end == tree.elems@[c as int].end,
            end <= tree.elems.len(),
            c < i,
            forall|q: int| c < q < i ==> !(tree.elems@[q].is_node && tree.elems@[q].kind == SK_COMMENT),
        decreases end - i,
    {
        if tree.elems[i].is_node && tree.elems[i].kind == SK_COMMENT {
            return false;
        }
        i = i + 1;
    }
    // The block holds one statement, a `return` of one value.
    let bend = tree.elems[b].end;
    let mut stat: Option<usize> = None;
    let mut k = b + 1;
    while k < bend
        invariant
            tree.wf(),
            bend <= tree.elems.len(),
            b < k,
            stat matches Some(x) ==> x < tree.elems.len(),
        decreases bend - k,
    {
        if tree.elems[k].is_node && tree.elems[k].parent == Some(b) {
            if stat.is_some() {
                return false;
            }
            stat = Some(k);
        }
        k = k + 1;
    }
    match stat {
        Some(x) => tree.elems[x].kind == SK_RETURN_STAT && crate::layout::collect_stat_exprs(tree, x, false).len() == 1,
        None => false,
    }
}

/// The width of closure `c` written on one line: its tokens and the gaps the spacing plan puts
/// between them.
fn flat_width(spacing: &RootSpacingModel, tree: &SyntaxTree, c: usize) -> (r: usize)
    requires
        tree.wf(),
        spacing.wf(),
        c < tree.elems.len(),
{
    let end = tree.elems[c].end;
    let mut width: usize = 0;
    let mut prev: Option<usize> = None;
    let mut i = c + 1;
    while i < end
        invariant
            tree.wf(),
            spacing.wf(),
            end <= tree.elems.len(),
            c < i,
            prev matches Some(p) ==> p < tree.elems.len(),
        decreases end - i,
    {
        if !tree.elems[i].is_node && !tree.is_blank_token(i) {
            if let Some(p) = prev {
                width = width.saturating_add(gap_between(spacing, tree, p, i));
            }
            let e = tree.elems[i];
            if e.text_start <= e.text_end {
                width = width.saturating_add(e.text_end - e.text_start);
            }
            prev = Some(i);
        }
        i = i + 1;
    }
    width
}

/// The column where element `c` starts in the source.
fn source_column(tree: &SyntaxTree, c: usize) -> (r: usize)
    requires
        tree.wf(),
        c < tree.elems.len(),
{
    let mut k = tree.elems[c].text_start;
    let mut col: usize = 0;
    while k > 0 && k <= tree.text.len() && tree.text[k - 1] != '\n'
        decreases k,
    {
        col = col.saturating_add(1);
        k = k - 1;
    }
    col
}

/// Whether closure `c`, whose block is `b`, is written on one line: the option allows it
/// (always, or where the source has it on one line), it returns one value and does nothing
/// else, holds no comment, and fits in the width from its source column.
fn closure_inline(ctx: &FormatContext, plan: &RootFormatPlan, tree: &SyntaxTree, c: usize, b: usize) -> (r: bool)
    requires
        tree.wf(),
        plan.wf(),
        c < tree.elems.len(),
        b < tree.elems.len(),
    ensures
        ctx.config.output.simple_lambda_single_line == SimpleLambdaSingleLine::Never ==> !r,
        r ==> forall|i: int| c < i < tree.elems@[c as int].end ==> !(tree.elems@[i].is_node && tree.elems@[i].kind == SK_COMMENT),
{
    let allowed = match ctx.config.output.simple_lambda_single_line {
        SimpleLambdaSingleLine::Never => false,
        SimpleLambdaSingleLine::Always => true,
        SimpleLambdaSingleLine::Preserve => !tree.text_contains_newline(c),
    };
    if !allowed || !is_simple_closure(tree, c, b) {
        return false;
    }
    let w = flat_width(&plan.spacing, tree, c);
    source_column(tree, c).saturating_add(w) <= ctx.config.layout.max_line_width
}

/// Lays out every function expression with a body: written on one line where
/// `closure_inline` allows, else, when the source has it on one line, with each statement of
/// its body, and its `end`, on a line of its own.
fn mark_closures(ctx: &FormatContext, plan: &RootFormatPlan, tree: &SyntaxTree, out: &mut ListLayout)
    requires
        tree.wf(),
        plan.wf(),
        old(out).wf(tree.elems.len() as nat),
    ensures
        final(out).wf(tree.elems.len() as nat),
        final(out).expanded == old(out).expanded,
        final(out).verbatim_at == old(out).verbatim_at,
        final(out).comma_after == old(out).comma_after,
        final(out).moved == old(out).moved,
        final(out).deep == old(out).deep,
{
    let n = tree.elems.len();
    let mut c: usize = 0;
    while c < n
        invariant
            tree.wf(),
            plan.wf(),
            n == tree.elems.len(),
            out.wf(n as nat),
            out.expanded == old(out).expanded,
            out.verbatim_at == old(out).verbatim_at,
            out.comma_after == old(out).comma_after,
            out.moved == old(out).moved,
            out.deep == old(out).deep,
        decreases n - c,
    {
        let named = match tree.parent(c) {
            Some(q) => tree.elems[q].kind == SK_FUNC_STAT || tree.elems[q].kind == SK_LOCAL_FUNC_STAT,
            None => false,
        };
        if tree.is_node_kind(c, SK_CLOSURE_EXPR) && !named {
            if let Some(b) = closure_block(tree, c) {
                if tree.first_solid_token(b).is_some() {
                    if closure_inline(ctx, plan, tree, c, b) {
                        let first = tree.first_solid_token(c);
                        let end = tree.elems[c].end;
                        let mut i = c + 1;
                        while i < end
                            invariant
                                tree.wf(),
                                n == tree.elems.len(),
                                end <= n,
                                out.wf(n as nat),
                                out.expanded == old(out).expanded,
                                out.verbatim_at == old(out).verbatim_at,
                                out.comma_after == old(out).comma_after,
                                out.moved == old(out).moved,
                                out.deep == old(out).deep,
                            decreases end - i,
                        {
                            if !tree.elems[i].is_node && Some(i) != first {
                                out.hug.set(i, true);
                            }
                            i = i + 1;
                        }
                    } else if !tree.text_contains_newline(c) {
                        crate::lists::mark_body_lines(tree, c, out);
                        if let Some(e) = tree.last_solid_token(c) {
                            if tree.is_token_kind(e, TK_END) {
                                out.break_before.set(e, true);
                            }
                        }
                    }
                }
            }
        }
        c = c + 1;
    }
}

/// Writes the formatted text of a whole tree, as `plan` decides its spacing and which
/// statements stay as written; consecutive assignments and their trailing comments are then
/// aligned in columns where the options ask for it. Every node that the plan puts under
/// `fmt: off` and that lies in no comment appears in the output as its source text, with its
/// trailing blanks dropped.
pub fn render_root(ctx: &FormatContext, tree: &SyntaxTree, plan: &RootFormatPlan) -> (r: Vec<char>)
    requires
        tree.wf(),
        tree.nested(),
        tree.tokens_ordered(),
        plan.wf(),
    ensures
        ctx.config.output.insert_final_newline && r@.len() > 0 ==> r@.last() == '\n',
        forall|s: int, t: int|
            #[trigger] kept_verbatim(tree, plan, s, t) ==> shown(trimmed(tree.spec_text(s)), r@),
        forall|t: int| #[trigger] kept_code_token(tree, &plan.spacing, t) ==> token_written(tree, &plan.spacing, t, r@),
        forall|t1: int, t2: int|
            #[trigger] kept_code_token(tree, &plan.spacing, t1) && #[trigger] kept_code_token(tree, &plan.spacing, t2)
                && tree.elems@[t1].token_index < tree.elems@[t2].token_index ==> written_in_order(tree, &plan.spacing, t1, t2, r@),
        forall|p: int, t: int|
            #[trigger] spaced_pair(*ctx.config, tree, plan, p, t) ==> exists|e: nat|
                (tree.elems@[t].kind != TK_ASSIGN ==> e == 0) && gap_kept(*ctx.config, tree, &plan.spacing, p, t, e, r@),
{
    let n = tree.elems.len();
    let no_extra = zeros(n);
    let no_target = zeros(n);
    let mut lists = crate::lists::list_layout(tree, plan);
    mark_closures(ctx, plan, tree, &mut lists);
    let mut first = render_pass(ctx, tree, plan, &lists, &no_extra, &no_target);
    // Lines written wider than the configured width are broken, outermost structure first, for
    // as long as a round breaks something (at most a round per element of the tree, and a few).
    let rounds = n.saturating_add(8);
    let mut round: usize = 0;
    while round < rounds
        invariant
            tree.wf(),
            tree.nested(),
            tree.tokens_ordered(),
            plan.wf(),
            lists.wf(tree.elems.len() as nat),
            lists.verbatim_ok(tree),
            forall|l: int|
                0 <= l < tree.elems.len() && #[trigger] lists.expanded@[l] ==> tree.elems@[l].is_node
                    && crate::lists::is_list_kind(tree.elems@[l].kind),
            ctx.config.output.insert_final_newline && first.out@.len() > 0 ==> first.out@.last() == '\n',
            forall|s: int, t: int|
                #[trigger] kept_verbatim(tree, plan, s, t) ==> shown(trimmed(tree.spec_text(s)), first.out@),
            forall|t: int| #[trigger] kept_code_token(tree, &plan.spacing, t) ==> token_written(tree, &plan.spacing, t, first.out@),
            forall|t1: int, t2: int|
                #[trigger] kept_code_token(tree, &plan.spacing, t1) && #[trigger] kept_code_token(tree, &plan.spacing, t2)
                    && tree.elems@[t1].token_index < tree.elems@[t2].token_index ==> written_in_order(
                    tree,
                    &plan.spacing,
                    t1,
                    t2,
                    first.out@,
                ),
            lists.moves_ok(tree),
            lists.verbatim_from(tree, plan),
            law_upto(*ctx.config, tree, plan, no_extra@, tree.tokens.len() as int, first.out@),
            no_extra@.len() == tree.elems.len(),
            forall|i: int| 0 <= i < tree.elems.len() ==> #[trigger] no_extra@[i] == 0,
        decreases rounds - round,
    {
        if !crate::lists::break_wide_lines(ctx, tree, &first, &mut lists) {
            break;
        }
        first = render_pass(ctx, tree, plan, &lists, &no_extra, &no_target);
        round = round + 1;
    }
    let (extra, target, any) = crate::align::statement_alignment_pads(ctx, tree, plan, &first.tok_col, &first.end_col);
    if any {
        let second = render_pass(ctx, tree, plan, &lists, &extra, &target);
        proof {
            lemma_law_exact(*ctx.config, tree, plan, extra@, second.out@);
        }
        second.out
    } else {
        proof {
            lemma_law_exact(*ctx.config, tree, plan, no_extra@, first.out@);
        }
        first.out
    }
}

/// The gaps that a rendering with extra spaces only before `=` signs keeps.
proof fn lemma_law_exact(config: LuaFormatConfig, tree: &SyntaxTree, plan: &RootFormatPlan, extra: Seq<usize>, out: Seq<char>)
    requires
        tree.wf(),
        law_upto(config, tree, plan, extra, tree.tokens.len() as int, out),
        extra.len() == tree.elems.len(),
        forall|i: int| 0 <= i < tree.elems.len() && #[trigger] extra[i] != 0 ==> tree.elems@[i].kind == TK_ASSIGN,
    ensures
        forall|p: int, t: int|
            #[trigger] spaced_pair(config, tree, plan, p, t) ==> exists|e: nat|
                (tree.elems@[t].kind != TK_ASSIGN ==> e == 0) && gap_kept(config, tree, &plan.spacing, p, t, e, out),
{
    reveal(law_upto);
    assert forall|p: int, t: int| #[trigger] spaced_pair(config, tree, plan, p, t) implies exists|e: nat|
        (tree.elems@[t].kind != TK_ASSIGN ==> e == 0) && gap_kept(config, tree, &plan.spacing, p, t, e, out) by {
        assert(tree.token_pos_spec(t) < tree.tokens.len()) by {
            reveal(kept_code_token);
        }
        let e = extra_at(extra, t);
        assert(gap_kept(config, tree, &plan.spacing, p, t, e, out));
        if 0 <= t < extra.len() && extra[t] != 0 {
            assert(tree.elems@[t].kind == TK_ASSIGN);
        }
    }
}

/// Writes token `t`, at position `j`, as text: its replacement (a string requoted as the
/// options ask, a description's dashes with their wide gap), after the extra spaces asked for
/// it, followed by a comma moved behind it, a trailing comma, and a closing parenthesis as
/// asked. Returns whether the gap after it was written with it.
#[verifier::spinoff_prover]
#[verifier::rlimit(50)]
fn write_plain_token(
    ctx: &FormatContext,
    tree: &SyntaxTree,
    spacing: &RootSpacingModel,
    lists: &ListLayout,
    st: &mut RenderState,
    t: usize,
    j: usize,
    in_join: bool,
    extra_before: &Vec<usize>,
    close: bool,
) -> (glue: bool)
    requires
        tree.wf(),
        spacing.wf(),
        lists.wf(tree.elems.len() as nat),
        t < tree.elems.len(),
        j < tree.tokens.len(),
        tree.tokens@[j as int] == t,
        order_upto(tree, spacing, j as int, old(st).out@),
        forall|k: int|
            0 <= k < j && #[trigger] kept_code_token(tree, spacing, tree.tokens@[k] as int) ==> token_written(
                tree,
                spacing,
                tree.tokens@[k] as int,
                old(st).out@,
            ),
    ensures
        keeps_shown(old(st).out@, final(st).out@),
        kept_code_token(tree, spacing, t as int) ==> token_written(tree, spacing, t as int, final(st).out@),
        final(st).last == Some(t),
        order_upto(tree, spacing, j + 1, final(st).out@),
        final(st).out@.len() >= old(st).out@.len(),
        final(st).out@.subrange(0, old(st).out@.len() as int) == old(st).out@,
        kept_code_token(tree, spacing, t as int) ==> !glue,
        kept_code_token(tree, spacing, t as int) ==> ({
            let tx = crate::comment::comment_token_chars(spacing, tree, t as int);
            let e = extra_at(extra_before@, t as int);
            &&& final(st).out@.len() >= old(st).out@.len() + e + tx.len()
            &&& final(st).out@.subrange(old(st).out@.len() as int, (old(st).out@.len() + e + tx.len()) as int) == spaces_seq(e) + tx
        }),
        kept_code_token(tree, spacing, t as int) && lists.comma_after@[t as int] is None ==> final(st).out@.len() > 0
            && !crate::text::is_trailing_blank(final(st).out@.last()),
{
    let mut glue_next = false;
    let ghost out_0 = st.out@;
    let mut text = token_text(spacing, tree, t);
    if tree.is_token_kind(t, TK_STRING) && match tree.parent(t) {
        Some(pp) => tree.elems[pp].kind == SK_LITERAL_EXPR,
        None => false,
    } {
        text = crate::strings::requote_short_string(ctx.config.output.quote_style, text);
    }
    // A description line keeps a wide gap after its dashes.
    let k = tree.kind(t);
    if (k == TK_NORMAL_START || k == TK_DOC_CONTINUE) && j + 1 < tree.tokens.len() {
        let src = tree.text_of(t);
        let next = tree.tokens[j + 1];
        if src.len() == 3 && src[0] == '-' && src[1] == '-' && src[2] == '-'
            && tree.is_token_kind(next, TK_WHITESPACE) && next < tree.elems.len()
            && tree.elems[next].text_end - tree.elems[next].text_start > 1 {
            let ws = tree.text_of(next);
            text = src;
            let mut q: usize = 0;
            while q < ws.len()
                decreases ws.len() - q,
            {
                text.push(ws[q]);
                q = q + 1;
            }
            glue_next = true;
        }
    }
    if t < extra_before.len() {
        push_spaces(st, extra_before[t]);
    }
    let ghost out_c = st.out@;
    if t < st.tok_col.len() {
        let c0 = st.col;
        st.tok_col.set(t, c0);
    }
    if t < st.tok_line.len() {
        let l0 = st.line;
        st.tok_line.set(t, l0);
    }
    push_chars(st, text.as_slice());
    let ghost out_d = st.out@;
    if let Some(moved) = lists.comma_after[t] {
        let comma = token_text(spacing, tree, moved);
        push_chars(st, comma.as_slice());
    }
    let ghost out_e = st.out@;
    write_trailing_comma(ctx.config, tree, lists, st, t, in_join);
    let ghost out_f = st.out@;
    push_if(st, close, ')');
    if t < st.end_col.len() {
        let c1 = st.col;
        st.end_col.set(t, c1);
    }
    if t < st.end_col.len() {
        let c1 = st.col;
        st.end_col.set(t, c1);
    }
    st.last = Some(t);
    proof {
        if kept_code_token(tree, spacing, t as int) {
            let tx = crate::comment::comment_token_chars(spacing, tree, t as int);
            assert(k != TK_STRING && k != TK_NORMAL_START && k != TK_DOC_CONTINUE && ends_solid(tx)) by {
                reveal(kept_code_token);
            }
            let e = extra_at(extra_before@, t as int);
            assert(text@ == tx);
            assert(out_c == out_0 + spaces_seq(e));
            assert(out_d == out_c + tx);
            let tail = st.out@.subrange(out_d.len() as int, st.out@.len() as int);
            assert(st.out@ =~= out_d + tail);
            assert(st.out@.subrange(out_0.len() as int, (out_0.len() + e + tx.len()) as int) =~= spaces_seq(e) + tx);
            if lists.comma_after@[t as int] is None {
                assert(out_e == out_d);
                assert(tx.len() > 0 && !crate::text::is_trailing_blank(tx.last()));
                assert(out_d.last() == tx.last());
            }
        }
        lemma_keeps_trans(out_d, out_e, out_f);
        lemma_keeps_trans(out_d, out_f, st.out@);
        lemma_keeps_trans(out_0, out_c, out_d);
        lemma_keeps_trans(out_0, out_d, st.out@);
        lemma_text_written(tree, spacing, t as int, text@, out_c, st.out@);
        let mid = out_c.subrange(out_0.len() as int, out_c.len() as int);
        assert(out_c =~= out_0 + mid);
        assert(out_d =~= out_0 + mid + text@);
        reveal(kept_code_token);
        lemma_order_append(tree, spacing, j as int, out_0, mid, text@);
        lemma_order_carry(tree, spacing, j + 1, out_d, st.out@);
    }
    glue_next
}

/// One rendering of the tree: `extra_before` adds spaces before a token, and a non-zero
/// `comment_target` is the column where a trailing comment starts.
#[verifier::rlimit(100)]
#[verifier::spinoff_prover]
fn render_pass(
    ctx: &FormatContext,
    tree: &SyntaxTree,
    plan: &RootFormatPlan,
    lists: &ListLayout,
    extra_before: &Vec<usize>,
    comment_target: &Vec<usize>,
) -> (r: RenderState)
    requires
        tree.wf(),
        tree.nested(),
        tree.tokens_ordered(),
        plan.wf(),
        lists.wf(tree.elems.len() as nat),
        lists.verbatim_ok(tree),
        lists.moves_ok(tree),
        lists.verbatim_from(tree, plan),
    ensures
        ctx.config.output.insert_final_newline && r.out@.len() > 0 ==> r.out@.last() == '\n',
        law_upto(*ctx.config, tree, plan, extra_before@, tree.tokens.len() as int, r.out@),
        forall|s: int, t: int|
            #[trigger] kept_verbatim(tree, plan, s, t) ==> shown(trimmed(tree.spec_text(s)), r.out@),
        forall|t: int| #[trigger] kept_code_token(tree, &plan.spacing, t) ==> token_written(tree, &plan.spacing, t, r.out@),
        forall|t1: int, t2: int|
            #[trigger] kept_code_token(tree, &plan.spacing, t1) && #[trigger] kept_code_token(tree, &plan.spacing, t2)
                && tree.elems@[t1].token_index < tree.elems@[t2].token_index ==> written_in_order(
                tree,
                &plan.spacing,
                t1,
                t2,
                r.out@,
            ),
{
    let spacing = &plan.spacing;
    let owner = disabled_owners(tree, plan);
    let line_indent = zeros(tree.elems.len());
    let mut st = RenderState {
        out: Vec::new(),
        col: 0,
        line_indent,
        cur_indent: 0,
        last: None,
        join_until: None,
        tok_col: zeros(tree.elems.len()),
        end_col: zeros(tree.elems.len()),
        line: 0,
        tok_line: crate::lists::filled(tree.elems.len(), usize::MAX),
    };
    let mut skip_to: usize = 0;
    let mut glue_next = false;
    let mut space_next = false;
    let mut j: usize = 0;
    let ghost mut emitted: Seq<int> = Seq::empty();
    let ghost mut skip_node: int = 0;
    let ghost mut skip_first: int = 0;
    let ghost mut clean: Option<int> = None;
    proof {
        reveal(order_upto);
        assert(order_upto(tree, spacing, 0, st.out@));
        reveal(law_upto);
        reveal(clean_complete);
        assert(law_upto(*ctx.config, tree, plan, extra_before@, 0, st.out@));
        assert(clean_complete(tree, plan, lists, 0, clean));
        lemma_clean_none(tree, 0, st.last, space_next, glue_next, st.out@);
    }
    while j < tree.tokens.len()
        invariant
            tree.wf(),
            tree.nested(),
            tree.tokens_ordered(),
            spacing.wf(),
            plan.wf(),
            spacing == &plan.spacing,
            lists.wf(tree.elems.len() as nat),
            lists.verbatim_ok(tree),
            j <= tree.tokens.len(),
            owner@.len() == tree.elems.len(),
            forall|f: int| 0 <= f < owner@.len() ==> (#[trigger] owner@[f] matches Some(b) ==> written_as_is(tree, plan, b as int, f)),
            forall|a: int, f: int| #[trigger] written_as_is(tree, plan, a, f) ==> (owner@[f] matches Some(b) && b <= a),
            forall|k: int|
                0 <= k < emitted.len() ==> 0 <= #[trigger] emitted[k] < tree.elems.len() && shown(
                    trimmed(tree.spec_text(emitted[k])),
                    st.out@,
                ),
            j < skip_to ==> skip_ok(tree, emitted, skip_node, skip_first, j as int, skip_to as int),
            forall|s: int, t: int|
                #[trigger] kept_verbatim(tree, plan, s, t) && tree.elems@[t].token_index < j ==> covered(tree, emitted, s),
            forall|k: int|
                0 <= k < j && #[trigger] kept_code_token(tree, spacing, tree.tokens@[k] as int) ==> token_written(
                    tree,
                    spacing,
                    tree.tokens@[k] as int,
                    st.out@,
                ),
            skip_to <= tree.tokens.len(),
            order_upto(tree, spacing, (if j < skip_to { skip_to } else { j }) as int, st.out@),
            lists.moves_ok(tree),
            lists.verbatim_from(tree, plan),
            forall|k: int| 0 <= k < emitted.len() ==> #[trigger] raw_source(tree, plan, emitted[k]),
            clean_at(tree, j as int, clean, st.last, space_next, glue_next, st.out@),
            clean_complete(tree, plan, lists, j as int, clean),
            law_upto(*ctx.config, tree, plan, extra_before@, j as int, st.out@),
        decreases tree.tokens.len() - j,
    {
        let t = tree.tokens[j];
        let ghost out0 = st.out@;
        let ghost last0 = st.last;
        let ghost clean0 = clean;
        let ghost space0 = space_next;
        let ghost glue0 = glue_next;
        if j < skip_to || tree.is_blank_token(t) || (lists.moved[t] && owner[t].is_none() && (tree.is_token_kind(
            t,
            TK_COMMA,
        ) || tree.is_token_kind(t, TK_SEMICOLON))) {
            proof {
                if j < skip_to {
                    lemma_skip_kept(tree, spacing, emitted, skip_node, skip_first, j as int, skip_to as int, st.out@);
                } else {
                    lemma_not_kept(tree, spacing, t as int, None);
                    lemma_order_grow(tree, spacing, j as int, j + 1, st.out@);
                }
                assert(tree.tokens@[j as int] == t);
                assert(!(kept_code_token(tree, spacing, t as int) && !under_raw(tree, plan, t as int))) by {
                    if j < skip_to {
                        assert(skip_ok(tree, emitted, skip_node, skip_first, j as int, skip_to as int));
                        assert(tree.within(skip_node, t as int));
                        if tree.elems@[skip_node].is_node && tree.elems@[skip_node].kind == SK_COMMENT {
                            lemma_not_kept(tree, spacing, t as int, Some(skip_node));
                        } else {
                            let k = choose|k: int| 0 <= k < emitted.len() && emitted[k] == skip_node;
                            assert(raw_source(tree, plan, emitted[k]));
                        }
                    } else {
                        lemma_not_kept(tree, spacing, t as int, None);
                    }
                }
                lemma_law_skip(*ctx.config, tree, plan, extra_before@, j as int, st.out@);
                if tree.is_blank_at(j as int) {
                    lemma_complete_blank(tree, plan, lists, j as int, clean);
                    lemma_clean_blank(tree, j as int, clean, st.last, space_next, glue_next, st.out@);
                } else {
                    clean = None;
                    lemma_complete_set(tree, plan, lists, j as int, clean);
                    lemma_clean_none(tree, j + 1, st.last, space_next, glue_next, st.out@);
                }
                lemma_written_extend(tree, spacing, j as int, st.out@, st.out@);
                assert forall|s: int, t2: int|
                    #[trigger] kept_verbatim(tree, plan, s, t2) && tree.elems@[t2].token_index < j + 1 implies covered(tree, emitted, s) by {
                    if tree.elems@[t2].token_index == j {
                        assert(tree.tokens@[j as int] == t2);
                        if j < skip_to {
                            lemma_skipped_covered(tree, plan, emitted, skip_node, skip_first, j as int, skip_to as int, s, t2);
                        } else {
                            assert(written_as_is(tree, plan, s, t2));
                        }
                    }
                }
            }
            j = j + 1;
            continue;
        }
        let comment = comment_of(tree, t);
        // A region written as its source text: a raw comment or a statement under `fmt: off`.
        let mut raw_node: Option<usize> = None;
        if let Some(c) = comment {
            if tree.first_solid_token(c) == Some(t) && is_raw_comment(tree, t, c) {
                raw_node = Some(c);
            }
        }
        // A comment written as its normalized lines.
        let mut comment_lines: Option<(usize, Vec<Vec<char>>)> = None;
        if let Some(c) = comment {
            if raw_node.is_none() && c < tree.elems.len() && tree.first_solid_token(c) == Some(t) {
                match comment_lines_of(ctx, tree, plan, c) {
                    Some(lines) => {
                        comment_lines = Some((c, lines));
                    },
                    None => {
                        raw_node = Some(c);
                    },
                }
            }
        }
        let home = home_of(tree, t);
        if let Some(s) = home.1 {
            if s < tree.elems.len() && tree.first_solid_token(s) == Some(t) && (
            plan.layout.format_disabled.contains_key(tree.id(s)) || statement_written_raw(tree, s)) {
                raw_node = Some(s);
            }
        }
        if let Some(v) = lists.verbatim_at[t] {
            raw_node = Some(v);
        }
        if let Some(a) = owner[t] {
            raw_node = Some(a);
        }
        proof {
            if let Some(rn) = raw_node {
                assert(tree.first_solid(rn as int, t as int));
                assert(raw_source(tree, plan, rn as int));
                assert(under_raw(tree, plan, t as int)) by {
                    if rn as int != t as int {
                        assert(tree.within(rn as int, t as int));
                    }
                }
            }
            if let Some((c, _)) = comment_lines {
                assert(tree.first_solid(c as int, t as int));
            }
        }
        let in_join = match st.join_until {
            Some(e) => j <= e,
            None => false,
        };
        let joined_sep = in_join;
        let parens = paren_action(ctx.config, tree, t);
        if raw_node.is_none() && (drop_separator(ctx.config, tree, lists, t, joined_sep) || parens.0) {
            if parens.0 && tree.is_token_kind(t, TK_LEFT_PAREN) {
                space_next = true;
            }
            proof {
                lemma_not_kept(tree, spacing, t as int, None);
                lemma_order_grow(tree, spacing, j as int, j + 1, st.out@);
                lemma_written_extend(tree, spacing, j as int, st.out@, st.out@);
                assert(tree.tokens@[j as int] == t);
                lemma_law_skip(*ctx.config, tree, plan, extra_before@, j as int, st.out@);
                clean = None;
                lemma_complete_set(tree, plan, lists, j as int, clean);
                lemma_clean_none(tree, j + 1, st.last, space_next, glue_next, st.out@);
                assert forall|s: int, t2: int|
                    #[trigger] kept_verbatim(tree, plan, s, t2) && tree.elems@[t2].token_index < j + 1 implies covered(tree, emitted, s) by {
                    if tree.elems@[t2].token_index == j {
                        assert(tree.tokens@[j as int] == t2);
                    }
                }
            }
            j = j + 1;
            continue;
        }
        // The separator before the token.
        let open_before = parens.1;
        push_before_token(&mut st, space_next, open_before);
        let ghost out_a = st.out@;
        let glue = glue_next || space_next || open_before;
        space_next = false;
        write_separator(ctx, tree, spacing, lists, &mut st, t, comment, in_join, glue, comment_target);
        let ghost out_b = st.out@;
        proof {
            lemma_keeps_trans(out0, out_a, out_b);
        }
        glue_next = false;
        if !in_join {
            let starts_home = match st.last {
                None => true,
                Some(p) => {
                    let ph = home_of(tree, p);
                    ph.0 != home.0 || ph.1 != home.1
                },
            };
            st.join_until = if starts_home && raw_node.is_none() {
                joinable_run(ctx, spacing, tree, lists, j, st.col)
            } else {
                None
            };
        }
        if raw_node.is_some() {
            comment_lines = None;
        }
        if let Some((c, lines)) = comment_lines {
            if t < st.tok_col.len() {
                let c0 = st.col;
                st.tok_col.set(t, c0);
            }
            let ghost out1 = st.out@;
            let mut k: usize = 0;
            while k < lines.len()
                invariant
                    keeps_shown(out1, st.out@),
                decreases lines.len() - k,
            {
                if k > 0 {
                    let level = st.cur_indent;
                    break_line(ctx, &mut st, 1, level);
                }
                push_chars(&mut st, lines[k].as_slice());
                k = k + 1;
            }
            let last_tok = tree.last_solid_token(c);
            let end_pos = match last_tok {
                Some(l) => tree.token_pos(l),
                None => j,
            };
            st.last = Some(match last_tok {
                Some(l) => l,
                None => t,
            });
            skip_to = end_pos.saturating_add(1);
            proof {
                skip_node = c as int;
                skip_first = t as int;
                assert(tree.elems@[t as int].token_index == j);
                assert(tree.first_solid(c as int, t as int));
                assert forall|jj: int| j + 1 <= jj < skip_to && jj < tree.tokens.len() implies tree.within(c as int, #[trigger] tree.tokens@[jj] as int) by {
                    let u = tree.tokens@[jj] as int;
                    assert(tree.elems@[u].token_index == jj);
                    lemma_token_order(tree, t as int, u);
                    if let Some(l) = last_tok {
                        if jj < end_pos {
                            lemma_token_order(tree, u, l as int);
                        }
                    }
                }
                assert forall|k: int| 0 <= k < emitted.len() implies 0 <= #[trigger] emitted[k] < tree.elems.len() && shown(
                    trimmed(tree.spec_text(emitted[k])),
                    st.out@,
                ) by {
                    assert(shown(trimmed(tree.spec_text(emitted[k])), out0));
                }
                assert forall|s: int, t2: int|
                    #[trigger] kept_verbatim(tree, plan, s, t2) && tree.elems@[t2].token_index < j + 1 implies covered(tree, emitted, s) by {
                    if tree.elems@[t2].token_index == j {
                        assert(tree.tokens@[j as int] == t2);
                    }
                }
                assert(out1 == out_b);
                lemma_keeps_trans(out0, out_b, st.out@);
                assert(tree.within(c as int, t as int));
                lemma_not_kept(tree, spacing, t as int, Some(c as int));
                lemma_written_extend(tree, spacing, j as int, out0, st.out@);
                lemma_order_carry(tree, spacing, j as int, out0, st.out@);
                assert forall|k: int| j <= k < skip_to implies !#[trigger] kept_code_token(tree, spacing, tree.tokens@[k] as int) by {
                    if k == j as int {
                        lemma_not_kept(tree, spacing, t as int, Some(c as int));
                    } else {
                        assert(tree.within(c as int, tree.tokens@[k] as int));
                        lemma_not_kept(tree, spacing, tree.tokens@[k] as int, Some(c as int));
                    }
                }
                lemma_order_grow(tree, spacing, j as int, skip_to as int, st.out@);
                assert(tree.tokens@[j as int] == t);
                lemma_law_carry(*ctx.config, tree, plan, extra_before@, j as int, out0, st.out@);
                lemma_law_skip(*ctx.config, tree, plan, extra_before@, j as int, st.out@);
                clean = None;
                lemma_complete_set(tree, plan, lists, j as int, clean);
                lemma_clean_none(tree, j + 1, st.last, space_next, glue_next, st.out@);
            }
            j = j + 1;
            continue;
        }
        match raw_node {
            Some(n) if n < tree.elems.len() => {
                // Written as in the source, without trailing blanks.
                let text = tree.text_of(n);
                let trimmed_text = crate::text::trim_end_owned(text);
                let ghost out1 = st.out@;
                push_chars(&mut st, trimmed_text.as_slice());
                let ghost out2 = st.out@;
                proof {
                    lemma_trimmed_ends_solid(tree.spec_text(n as int));
                    lemma_appended_shown(out1, trimmed_text@);
                }
                let last_tok = tree.last_solid_token(n);
                let end_pos = match last_tok {
                    Some(l) => tree.token_pos(l),
                    None => j,
                };
                st.last = Some(match last_tok {
                    Some(l) => l,
                    None => t,
                });
                skip_to = end_pos.saturating_add(1);
                proof {
                    let ghost old_emitted = emitted;
                    emitted = emitted.push(n as int);
                    skip_node = n as int;
                    skip_first = t as int;
                    assert(emitted[old_emitted.len() as int] == n as int);
                    assert forall|jj: int| j + 1 <= jj < skip_to && jj < tree.tokens.len() implies tree.within(n as int, #[trigger] tree.tokens@[jj] as int) by {
                        let u = tree.tokens@[jj] as int;
                        assert(tree.elems@[u].token_index == jj);
                        lemma_token_order(tree, t as int, u);
                        if let Some(l) = last_tok {
                            if jj < end_pos {
                                lemma_token_order(tree, u, l as int);
                            }
                        }
                    }
                    assert forall|k: int| 0 <= k < emitted.len() implies 0 <= #[trigger] emitted[k] < tree.elems.len() && shown(
                        trimmed(tree.spec_text(emitted[k])),
                        st.out@,
                    ) by {
                        if k < old_emitted.len() {
                            assert(emitted[k] == old_emitted[k]);
                            assert(shown(trimmed(tree.spec_text(old_emitted[k])), out0));
                        }
                    }
                    assert forall|s: int, t2: int|
                        #[trigger] kept_verbatim(tree, plan, s, t2) && tree.elems@[t2].token_index < j + 1 implies covered(tree, emitted, s) by {
                        if tree.elems@[t2].token_index == j {
                            assert(tree.tokens@[j as int] == t2);
                            assert(written_as_is(tree, plan, s, t2));
                            let b = owner@[t2].unwrap();
                            assert(b as int == n as int);
                            if (b as int) < s {
                                assert(tree.within(b as int, s));
                            }
                            assert(emitted[old_emitted.len() as int] == n as int);
                        } else {
                            let k = choose|k: int| 0 <= k < old_emitted.len() && (#[trigger] old_emitted[k] == s || tree.within(old_emitted[k], s));
                            assert(emitted[k] == old_emitted[k]);
                        }
                    }
                }
                let close = match last_tok {
                    Some(l) => paren_action(ctx.config, tree, l).2,
                    None => false,
                };
                push_if(&mut st, close, ')');
                proof {
                    assert(out1 == out_b);
                    lemma_keeps_trans(out0, out_b, out2);
                    lemma_keeps_trans(out0, out2, st.out@);
                    assert(shown(trimmed(tree.spec_text(n as int)), out2));
                    lemma_raw_written(tree, spacing, n as int, t as int, out2, st.out@);
                    lemma_written_extend(tree, spacing, j as int, out0, st.out@);
                    lemma_order_carry(tree, spacing, j as int, out0, out1);
                    lemma_written_extend_to(tree, spacing, j as int, out0, out1);
                    assert forall|k: int| j <= k <= end_pos implies tree.within(n as int, #[trigger] tree.tokens@[k] as int)
                        || n as int == tree.tokens@[k] as int by {
                        if k == j as int {
                            assert(tree.tokens@[k] == t);
                        } else {
                            assert(tree.within(n as int, tree.tokens@[k] as int));
                        }
                    }
                    assert(out2 == out1 + trimmed(tree.spec_text(n as int)));
                    lemma_order_raw(tree, spacing, j as int, end_pos as int, n as int, out1);
                    lemma_order_carry(tree, spacing, end_pos + 1, out2, st.out@);
                    assert(tree.tokens@[j as int] == t);
                    lemma_law_carry(*ctx.config, tree, plan, extra_before@, j as int, out0, st.out@);
                    lemma_law_skip(*ctx.config, tree, plan, extra_before@, j as int, st.out@);
                    clean = None;
                    lemma_complete_set(tree, plan, lists, j as int, clean);
                    lemma_clean_none(tree, j + 1, st.last, space_next, glue_next, st.out@);
                }
            },
            _ => {
                proof {
                    lemma_order_carry(tree, spacing, j as int, out0, out_b);
                    lemma_written_extend_to(tree, spacing, j as int, out0, out_b);
                }
                let g = write_plain_token(ctx, tree, spacing, lists, &mut st, t, j, in_join, extra_before, parens.2);
                if g {
                    glue_next = true;
                }
                proof {
                    assert(tree.tokens@[j as int] == t);
                    assert(tree.token_pos_spec(t as int) == j);
                    lemma_plain_step(
                        *ctx.config,
                        tree,
                        plan,
                        lists,
                        extra_before@,
                        t as int,
                        clean0,
                        last0,
                        space0,
                        glue0,
                        open_before,
                        in_join,
                        comment,
                        out0,
                        out_a,
                        out_b,
                        st.out@,
                    );
                    lemma_law_carry(*ctx.config, tree, plan, extra_before@, j as int, out0, st.out@);
                    lemma_law_new(*ctx.config, tree, plan, extra_before@, j as int, st.out@);
                    if kept_code_token(tree, spacing, t as int) && lists.comma_after@[t as int] is None {
                        clean = Some(j as int);
                        lemma_clean_set(tree, j as int, st.last, space_next, glue_next, st.out@);
                    } else {
                        clean = None;
                        lemma_clean_none(tree, j + 1, st.last, space_next, glue_next, st.out@);
                    }
                    lemma_complete_set(tree, plan, lists, j as int, clean);
                    lemma_keeps_trans(out0, out_b, st.out@);
                    lemma_written_extend(tree, spacing, j as int, out0, st.out@);
                    assert forall|k: int| 0 <= k < emitted.len() implies 0 <= #[trigger] emitted[k] < tree.elems.len() && shown(
                        trimmed(tree.spec_text(emitted[k])),
                        st.out@,
                    ) by {
                        assert(shown(trimmed(tree.spec_text(emitted[k])), out0));
                    }
                    assert forall|s: int, t2: int|
                        #[trigger] kept_verbatim(tree, plan, s, t2) && tree.elems@[t2].token_index < j + 1 implies covered(tree, emitted, s) by {
                        if tree.elems@[t2].token_index == j {
                            assert(tree.tokens@[j as int] == t2);
                            assert(written_as_is(tree, plan, s, t2));
                        }
                    }
                }
            },
        }
        j = j + 1;
    }
    let ghost out_end = st.out@;
    trim_trailing_spaces(&mut st);
    let ghost out_trim = st.out@;
    if st.out.len() > 0 && ctx.config.output.insert_final_newline {
        push_char(&mut st, '\n');
    }
    proof {
        lemma_keeps_trans(out_end, out_trim, st.out@);
        lemma_law_carry(*ctx.config, tree, plan, extra_before@, tree.tokens.len() as int, out_end, st.out@);
        lemma_all_written(tree, spacing, out_end, st.out@);
        lemma_order_carry(tree, spacing, tree.tokens.len() as int, out_end, st.out@);
        lemma_order_all(tree, spacing, st.out@);
        assert forall|s: int, t: int| #[trigger] kept_verbatim(tree, plan, s, t) implies shown(
            trimmed(tree.spec_text(s)),
            st.out@,
        ) by {
            assert(tree.elems@[t].token_index < tree.tokens.len());
            lemma_covered_shown(tree, emitted, out_end, s);
        }
    }
    st
}

} // verus!
