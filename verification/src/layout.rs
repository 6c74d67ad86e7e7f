//! Layout analysis: the layout tree of a chunk, the nodes under `fmt: off`, and the layout
//! options of statements, control headers and bracketed sequences.

use vstd::prelude::*;

use crate::id_map::IdMap;
use crate::kinds::{
    SK_ASSIGN_STAT, SK_BLOCK, SK_CALL_ARG_LIST, SK_DO_STAT, SK_ELSE_CLAUSE_STAT,
    SK_ELSE_IF_CLAUSE_STAT, SK_FOR_RANGE_STAT, SK_FOR_STAT, SK_FUNC_STAT, SK_IF_STAT,
    SK_LOCAL_FUNC_STAT, SK_LOCAL_STAT, SK_PARAM_LIST, SK_REPEAT_STAT, SK_RETURN_STAT,
    SK_WHILE_STAT, TK_DO, TK_ELSE, TK_IN, TK_RIGHT_PAREN, TK_THEN, SK_PARAM_NAME, SK_TABLE_FIELD_ASSIGN, SK_TABLE_FIELD_VALUE, SK_CLOSURE_EXPR, SK_COMMENT, SK_PAREN_EXPR, SK_SAFE_INDEX_EXPR, SK_TABLE_ARRAY_EXPR,
    SK_TABLE_EMPTY_EXPR, SK_TABLE_OBJECT_EXPR, TK_ASSIGN, TK_END_OF_LINE, TK_PLUS_ASSIGN,
    TK_WHITESPACE, TK_XOR_ASSIGN,
};
use crate::model::{
    anchor_lookup, RootLayoutModel,
    AnchorCommentMap, BoundaryCommentLayoutPlan, CommentLayoutPlan, ControlHeaderLayoutPlan, ExprSequenceLayoutPlan, LayoutNodePlan,
    StatementExprListLayoutKind, StatementExprListLayoutPlan, StatementTriviaLayoutPlan,
    SyntaxNodeLayoutPlan,
};
use crate::model::RootFormatPlan;
use crate::parse::CommentFormatDirective;
use crate::FormatContext;
use crate::syntax::{
    LuaSyntaxId, SyntaxTree, child_nodes, column_of, direct_children, direct_from,
    lemma_child_nodes_bounds, node_is, nodes_from,
};

verus! {

/// Element `i` is a comment node.
pub open spec fn is_comment_node(tree: &SyntaxTree, i: int) -> bool {
    node_is(tree, i, SK_COMMENT)
}

/// The formatting directive of element `i`, if it is a comment that carries one.
pub open spec fn directive_of(tree: &SyntaxTree, i: int) -> Option<CommentFormatDirective> {
    if is_comment_node(tree, i) {
        tree.elems@[i].directive
    } else {
        None
    }
}

/// Whether formatting is switched off after the first `k` of the sibling nodes `sibs`: the
/// last directive among them is `fmt: off`.
pub open spec fn off_after(tree: &SyntaxTree, sibs: Seq<int>, k: int) -> bool
    decreases k,
{
    if k <= 0 || k > sibs.len() {
        false
    } else {
        match directive_of(tree, sibs[k - 1]) {
            Some(CommentFormatDirective::FormatOff) => true,
            Some(CommentFormatDirective::FormatOn) => false,
            None => off_after(tree, sibs, k - 1),
        }
    }
}

/// Sibling `k` is written as in the source: formatting is off before it, or it is a directive.
pub open spec fn sibling_disabled(tree: &SyntaxTree, sibs: Seq<int>, k: int) -> bool {
    off_after(tree, sibs, k) || directive_of(tree, sibs[k]) is Some
}

/// The identifiers of the disabled ones among the first `k` siblings.
pub open spec fn level_disabled(tree: &SyntaxTree, sibs: Seq<int>, k: int) -> Set<LuaSyntaxId>
    decreases k,
{
    if k <= 0 || k > sibs.len() {
        Set::empty()
    } else {
        let rest = level_disabled(tree, sibs, k - 1);
        if sibling_disabled(tree, sibs, k - 1) {
            rest.insert(tree.spec_id(sibs[k - 1]))
        } else {
            rest
        }
    }
}

/// The identifiers of the disabled nodes under node `n`, comments not entered.
pub open spec fn subtree_disabled(tree: &SyntaxTree, n: int) -> Set<LuaSyntaxId>
    decreases tree.elems.len() - n, 1int, 0int,
{
    if 0 <= n < tree.elems.len() {
        let sibs = child_nodes(tree, n);
        level_disabled(tree, sibs, sibs.len() as int) + children_disabled(
            tree,
            n,
            sibs.len() as int,
        )
    } else {
        Set::empty()
    }
}

/// The disabled nodes under the first `k` child nodes of `n` that are not comments.
pub open spec fn children_disabled(tree: &SyntaxTree, n: int, k: int) -> Set<LuaSyntaxId>
    decreases tree.elems.len() - n, 0int, k,
{
    if k <= 0 || !(0 <= n < tree.elems.len()) {
        Set::empty()
    } else {
        let sibs = child_nodes(tree, n);
        let c = if k <= sibs.len() {
            sibs[k - 1]
        } else {
            -1
        };
        let inner = if n < c < tree.elems.len() && !is_comment_node(tree, c) {
            subtree_disabled(tree, c)
        } else {
            Set::empty()
        };
        children_disabled(tree, n, k - 1) + inner
    }
}

/// Plan `p` is the layout of node `c`: a comment plan for a comment, otherwise a syntax plan
/// with the node's identifier and kind whose children are the layouts of its child nodes.
pub open spec fn plan_matches(tree: &SyntaxTree, p: LayoutNodePlan, c: int) -> bool
    decreases p,
{
    match p {
        LayoutNodePlan::Comment(cp) => is_comment_node(tree, c) && cp.syntax_id == tree.spec_id(c),
        LayoutNodePlan::Syntax(sp) => {
            &&& 0 <= c < tree.elems.len()
            &&& tree.elems@[c].is_node
            &&& !is_comment_node(tree, c)
            &&& sp.syntax_id == tree.spec_id(c)
            &&& sp.kind == tree.elems@[c].kind
            &&& sp.children@.len() == child_nodes(tree, c).len()
            &&& forall|k: int|
                0 <= k < sp.children@.len() ==> plan_matches(
                    tree,
                    #[trigger] sp.children@[k],
                    child_nodes(tree, c)[k],
                )
        },
    }
}

/// Each plan of `ps` is the layout of the node at the same place in `cs`.
pub open spec fn plans_match(tree: &SyntaxTree, ps: Seq<LayoutNodePlan>, cs: Seq<int>) -> bool {
    &&& ps.len() == cs.len()
    &&& forall|k: int| 0 <= k < ps.len() ==> plan_matches(tree, #[trigger] ps[k], cs[k])
}

/// The layout of the child nodes of `n`; records in `format_disabled` the nodes that a
/// `fmt: off` directive before them, among their siblings, leaves unformatted, and the
/// directives themselves. Comments are not entered.
fn collect_child_layout_nodes(tree: &SyntaxTree, n: usize, format_disabled: &mut IdMap<()>) -> (r:
    Vec<LayoutNodePlan>)
    requires
        tree.wf(),
        n < tree.elems.len(),
        old(format_disabled).wf(),
    ensures
        final(format_disabled).wf(),
        final(format_disabled)@.dom() == old(format_disabled)@.dom() + subtree_disabled(
            tree,
            n as int,
        ),
        plans_match(tree, r@, child_nodes(tree, n as int)),
    decreases tree.elems.len() - n,
{
    let ghost sibs = child_nodes(tree, n as int);
    proof {
        lemma_child_nodes_bounds(tree, n as int);
    }
    let end = tree.elems[n].end;
    let mut nodes: Vec<LayoutNodePlan> = Vec::new();
    let mut format_off = false;
    let mut pos = n + 1;
    let ghost mut k: int = 0;
    assert(sibs.take(0) + nodes_from(tree, pos as int, end as int) == sibs);
    while pos < end
        invariant
            tree.wf(),
            n < tree.elems.len(),
            end == tree.elems@[n as int].end,
            end <= tree.elems.len(),
            n < pos,
            sibs == child_nodes(tree, n as int),
            0 <= k <= sibs.len(),
            sibs.take(k) + nodes_from(tree, pos as int, end as int) == sibs,
            format_off == off_after(tree, sibs, k),
            format_disabled.wf(),
            format_disabled@.dom() == old(format_disabled)@.dom() + level_disabled(tree, sibs, k)
                + children_disabled(tree, n as int, k),
            nodes@.len() == k,
            forall|j: int| 0 <= j < k ==> plan_matches(tree, #[trigger] nodes@[j], sibs[j]),
            forall|j: int|
                0 <= j < sibs.len() ==> n < #[trigger] sibs[j] < tree.elems.len()
                    && tree.elems@[sibs[j]].is_node,
        decreases tree.elems.len() - pos,
    {
        let next = tree.elems[pos].end;
        assert(pos < next <= tree.elems.len());
        if tree.elems[pos].is_node {
            let ghost old_dom = format_disabled@.dom();
            let ghost old_nodes = nodes@;
            assert(nodes_from(tree, pos as int, end as int)[0] == pos);
            assert(sibs[k] == sibs.take(k + 1)[k]);
            assert(sibs[k] == pos) by {
                assert((sibs.take(k) + nodes_from(tree, pos as int, end as int))[k] == pos);
            }
            let id = tree.id(pos);
            if tree.elems[pos].kind == SK_COMMENT {
                let directive = tree.elems[pos].directive;
                if format_off || directive.is_some() {
                    format_disabled.insert(id, ());
                }
                nodes.push(LayoutNodePlan::Comment(CommentLayoutPlan { syntax_id: id }));
                match directive {
                    Some(CommentFormatDirective::FormatOff) => {
                        format_off = true;
                    },
                    Some(CommentFormatDirective::FormatOn) => {
                        format_off = false;
                    },
                    None => {},
                }
                assert(children_disabled(tree, n as int, k + 1) =~= children_disabled(
                    tree,
                    n as int,
                    k,
                ));
            } else {
                if format_off {
                    format_disabled.insert(id, ());
                }
                let ghost mid_dom = format_disabled@.dom();
                let children = collect_child_layout_nodes(tree, pos, format_disabled);
                nodes.push(
                    LayoutNodePlan::Syntax(
                        SyntaxNodeLayoutPlan { syntax_id: id, kind: tree.elems[pos].kind, children },
                    ),
                );
                assert(children_disabled(tree, n as int, k + 1) =~= children_disabled(
                    tree,
                    n as int,
                    k,
                ) + subtree_disabled(tree, pos as int));
            }
            proof {
                assert(format_disabled@.dom() =~= old(format_disabled)@.dom() + level_disabled(
                    tree,
                    sibs,
                    k + 1,
                ) + children_disabled(tree, n as int, k + 1));
                assert forall|j: int| 0 <= j < k + 1 implies plan_matches(
                    tree,
                    #[trigger] nodes@[j],
                    sibs[j],
                ) by {
                    if j < k {
                        assert(nodes@[j] == old_nodes[j]);
                    }
                }
                assert(sibs.take(k + 1) + nodes_from(tree, next as int, end as int) =~= sibs) by {
                    assert(sibs.take(k + 1) =~= sibs.take(k).push(pos as int));
                }
                k = k + 1;
            }
        } else {
            assert(sibs.take(k) + nodes_from(tree, next as int, end as int) =~= sibs);
        }
        pos = next;
    }
    assert(sibs.take(k) =~= sibs);
    nodes
}

/// The layout tree under the chunk (element 0), with the `fmt: off` regions recorded in
/// `format_disabled`.
pub fn collect_root_layout_nodes(tree: &SyntaxTree, format_disabled: &mut IdMap<()>) -> (r: Vec<
    LayoutNodePlan,
>)
    requires
        tree.wf(),
        old(format_disabled).wf(),
    ensures
        final(format_disabled).wf(),
        tree.elems.len() > 0 ==> final(format_disabled)@.dom() == old(format_disabled)@.dom()
            + subtree_disabled(tree, 0) && plans_match(tree, r@, child_nodes(tree, 0)),
        tree.elems.len() == 0 ==> r@.len() == 0 && final(format_disabled)@ == old(
            format_disabled,
        )@,
{
    if tree.elems.len() == 0 {
        return Vec::new();
    }
    collect_child_layout_nodes(tree, 0, format_disabled)
}


/// Node `n` has a comment among its child nodes.
pub open spec fn has_direct_comment_child(tree: &SyntaxTree, n: int) -> bool {
    exists|k: int|
        0 <= k < child_nodes(tree, n).len() && is_comment_node(tree, #[trigger] child_nodes(tree, n)[k])
}

/// The first token among the elements from `pos` up to `end`, in preorder.
pub open spec fn first_token_in(tree: &SyntaxTree, pos: int, end: int) -> Option<int>
    decreases end - pos,
{
    if pos < 0 || pos >= end || pos >= tree.elems.len() {
        None
    } else if !tree.elems@[pos].is_node {
        Some(pos)
    } else {
        first_token_in(tree, pos + 1, end)
    }
}

/// Walking back from the token at position `ti` of the token list over whitespace, a token
/// other than a line break comes before the line starts.
pub open spec fn code_before_on_line(tree: &SyntaxTree, ti: int) -> bool
    decreases ti,
{
    if ti <= 0 || ti > tree.tokens.len() {
        false
    } else {
        let k = tree.elems@[tree.tokens@[ti - 1] as int].kind;
        if k == TK_WHITESPACE {
            code_before_on_line(tree, ti - 1)
        } else {
            k != TK_END_OF_LINE
        }
    }
}

/// Comment `c` follows code on its own line.
pub open spec fn comment_is_inline(tree: &SyntaxTree, c: int) -> bool {
    match first_token_in(tree, c + 1, tree.elems@[c].end as int) {
        Some(t) => code_before_on_line(tree, tree.elems@[t].token_index as int),
        None => false,
    }
}

/// Node `n` has a comment among its child nodes that follows code on its own line.
pub open spec fn has_inline_comment_child(tree: &SyntaxTree, n: int) -> bool {
    exists|k: int|
        0 <= k < child_nodes(tree, n).len() && is_comment_node(tree, #[trigger] child_nodes(tree, n)[k])
            && comment_is_inline(tree, child_nodes(tree, n)[k])
}

/// The first token in the subtree of element `c`, after `c` itself.
fn first_token_of(tree: &SyntaxTree, c: usize) -> (r: Option<usize>)
    requires
        tree.wf(),
        c < tree.elems.len(),
    ensures
        r matches Some(t) ==> first_token_in(tree, c + 1, tree.elems@[c as int].end as int) == Some(
            t as int,
        ),
        r is None ==> first_token_in(tree, c + 1, tree.elems@[c as int].end as int) is None,
        r matches Some(t) ==> t < tree.elems.len() && !tree.elems@[t as int].is_node,
{
    let end = tree.elems[c].end;
    let mut pos = c + 1;
    while pos < end
        invariant
            tree.wf(),
            c < tree.elems.len(),
            end == tree.elems@[c as int].end,
            end <= tree.elems.len(),
            c < pos,
            first_token_in(tree, c + 1, end as int) == first_token_in(tree, pos as int, end as int),
        decreases end - pos,
    {
        if !tree.elems[pos].is_node {
            return Some(pos);
        }
        pos = pos + 1;
    }
    None
}

/// Whether code stands before comment `c` on its line.
pub fn has_non_trivia_before_on_same_line_tokenwise(tree: &SyntaxTree, c: usize) -> (r: bool)
    requires
        tree.wf(),
        c < tree.elems.len(),
    ensures
        r == comment_is_inline(tree, c as int),
{
    match first_token_of(tree, c) {
        Some(t) => {
            let mut ti = tree.elems[t].token_index;
            assert(ti < tree.tokens.len());
            assert(comment_is_inline(tree, c as int) == code_before_on_line(tree, ti as int));
            while ti > 0
                invariant
                    tree.wf(),
                    ti <= tree.tokens.len(),
                    c < tree.elems.len(),
                    comment_is_inline(tree, c as int) == code_before_on_line(tree, ti as int),
                decreases ti,
            {
                let k = tree.elems[tree.tokens[ti - 1]].kind;
                if k != TK_WHITESPACE {
                    assert(code_before_on_line(tree, ti as int) == (k != TK_END_OF_LINE));
                    return k != TK_END_OF_LINE;
                }
                ti = ti - 1;
            }
            false
        },
        None => false,
    }
}

/// Whether node `n` has a comment among its child nodes, and whether one of those follows code
/// on its own line.
fn comment_children(tree: &SyntaxTree, n: usize) -> (r: (bool, bool))
    requires
        tree.wf(),
        n < tree.elems.len(),
    ensures
        r.0 == has_direct_comment_child(tree, n as int),
        r.1 == has_inline_comment_child(tree, n as int),
{
    let ghost sibs = child_nodes(tree, n as int);
    proof {
        lemma_child_nodes_bounds(tree, n as int);
    }
    let end = tree.elems[n].end;
    let mut any = false;
    let mut inline = false;
    let mut pos = n + 1;
    let ghost mut k: int = 0;
    assert(sibs.take(0) + nodes_from(tree, pos as int, end as int) == sibs);
    while pos < end
        invariant
            tree.wf(),
            n < tree.elems.len(),
            end == tree.elems@[n as int].end,
            end <= tree.elems.len(),
            n < pos,
            sibs == child_nodes(tree, n as int),
            0 <= k <= sibs.len(),
            sibs.take(k) + nodes_from(tree, pos as int, end as int) == sibs,
            any == exists|j: int| 0 <= j < k && is_comment_node(tree, #[trigger] sibs[j]),
            inline == exists|j: int|
                0 <= j < k && is_comment_node(tree, #[trigger] sibs[j]) && comment_is_inline(
                    tree,
                    sibs[j],
                ),
        decreases tree.elems.len() - pos,
    {
        let next = tree.elems[pos].end;
        assert(pos < next <= tree.elems.len());
        if tree.elems[pos].is_node {
            assert(sibs[k] == pos) by {
                assert((sibs.take(k) + nodes_from(tree, pos as int, end as int))[k] == pos);
            }
            if tree.elems[pos].kind == SK_COMMENT {
                any = true;
                if has_non_trivia_before_on_same_line_tokenwise(tree, pos) {
                    inline = true;
                }
            }
            proof {
                assert(sibs.take(k + 1) + nodes_from(tree, next as int, end as int) =~= sibs) by {
                    assert(sibs.take(k + 1) =~= sibs.take(k).push(pos as int));
                }
                k = k + 1;
            }
        } else {
            assert(sibs.take(k) + nodes_from(tree, next as int, end as int) =~= sibs);
        }
        pos = next;
    }
    assert(sibs.take(k) =~= sibs);
    (any, inline)
}

/// Whether node `n` has a comment among its child nodes.
pub fn node_has_direct_comment_child(tree: &SyntaxTree, n: usize) -> (r: bool)
    requires
        tree.wf(),
        n < tree.elems.len(),
    ensures
        r == has_direct_comment_child(tree, n as int),
{
    comment_children(tree, n).0
}

/// The column at which element `i` starts in the source.
pub fn source_line_prefix_width(tree: &SyntaxTree, i: usize) -> (r: usize)
    requires
        tree.wf(),
        i < tree.elems.len(),
    ensures
        r == column_of(tree.text@, tree.elems@[i as int].text_start as int),
{
    let off = tree.elems[i].text_start;
    let mut j = off;
    let mut width: usize = 0;
    while j > 0 && tree.text[j - 1] != '\n'
        invariant
            tree.wf(),
            off == tree.elems@[i as int].text_start,
            off <= tree.text.len(),
            j <= off,
            width == off - j,
            column_of(tree.text@, off as int) == column_of(tree.text@, j as int) + width,
        decreases j,
    {
        j = j - 1;
        width = width + 1;
    }
    width
}

/// Expression node kinds.
pub open spec fn is_expr_kind(k: u16) -> bool {
    SK_PAREN_EXPR <= k <= SK_SAFE_INDEX_EXPR
}

/// Assignment operator token kinds, compound ones included.
pub open spec fn is_assign_op_kind(k: u16) -> bool {
    k == TK_ASSIGN || (TK_PLUS_ASSIGN <= k <= TK_XOR_ASSIGN)
}

/// The expression children among the direct children `ds`; with `need_assign`, only those after
/// an assignment operator (`seen` tells whether one came before `ds`).
pub open spec fn exprs_in(tree: &SyntaxTree, ds: Seq<int>, need_assign: bool, seen: bool) -> Seq<int>
    decreases ds.len(),
{
    if ds.len() == 0 {
        Seq::empty()
    } else {
        let d = ds[0];
        let e = tree.elems@[d];
        let seen2 = seen || (!e.is_node && is_assign_op_kind(e.kind));
        let rest = exprs_in(tree, ds.drop_first(), need_assign, seen2);
        if e.is_node && is_expr_kind(e.kind) && (!need_assign || seen2) {
            seq![d] + rest
        } else {
            rest
        }
    }
}

/// The expressions of statement `n`: all its expression children, or with `need_assign` those
/// after its assignment operator.
pub open spec fn stat_exprs(tree: &SyntaxTree, n: int, need_assign: bool) -> Seq<int> {
    exprs_in(tree, direct_children(tree, n), need_assign, false)
}

proof fn lemma_direct_from_bounds(tree: &SyntaxTree, pos: int, end: int)
    ensures
        forall|k: int|
            0 <= k < direct_from(tree, pos, end).len() ==> pos <= #[trigger] direct_from(
                tree,
                pos,
                end,
            )[k] < tree.elems.len(),
    decreases end - pos,
{
    if !(pos < 0 || pos >= end || pos >= tree.elems.len()) {
        let e = tree.elems@[pos];
        let next = if e.end > pos {
            e.end as int
        } else {
            pos + 1
        };
        if next < end {
            lemma_direct_from_bounds(tree, next, end);
            assert(direct_from(tree, pos, end) == seq![pos] + direct_from(tree, next, end));
        } else {
            assert(direct_from(tree, pos, end) == seq![pos]);
        }
    }
}

proof fn lemma_exprs_in_bounds(tree: &SyntaxTree, ds: Seq<int>, need_assign: bool, seen: bool, lo: int)
    requires
        forall|k: int| 0 <= k < ds.len() ==> lo <= #[trigger] ds[k] < tree.elems.len(),
    ensures
        forall|k: int|
            0 <= k < exprs_in(tree, ds, need_assign, seen).len() ==> lo <= #[trigger] exprs_in(
                tree,
                ds,
                need_assign,
                seen,
            )[k] < tree.elems.len() && tree.elems@[exprs_in(tree, ds, need_assign, seen)[k]].is_node
                && is_expr_kind(tree.elems@[exprs_in(tree, ds, need_assign, seen)[k]].kind),
    decreases ds.len(),
{
    if ds.len() > 0 {
        let d = ds[0];
        let e = tree.elems@[d];
        let seen2 = seen || (!e.is_node && is_assign_op_kind(e.kind));
        assert forall|k: int| 0 <= k < ds.drop_first().len() implies lo <= #[trigger] ds.drop_first()[k]
            < tree.elems.len() by {
            assert(ds.drop_first()[k] == ds[k + 1]);
        }
        lemma_exprs_in_bounds(tree, ds.drop_first(), need_assign, seen2, lo);
    }
}

/// The expressions of statement `n` (see [`stat_exprs`]).
pub(crate) fn collect_stat_exprs(tree: &SyntaxTree, n: usize, need_assign: bool) -> (r: Vec<usize>)
    requires
        tree.wf(),
        n < tree.elems.len(),
    ensures
        r@.len() == stat_exprs(tree, n as int, need_assign).len(),
        forall|k: int| 0 <= k < r@.len() ==> #[trigger] r@[k] == stat_exprs(tree, n as int, need_assign)[k],
        forall|k: int|
            0 <= k < r@.len() ==> n < #[trigger] r@[k] < tree.elems.len() && tree.elems@[r@[k] as int].is_node
                && is_expr_kind(tree.elems@[r@[k] as int].kind),
{
    let ghost ds = direct_children(tree, n as int);
    proof {
        lemma_direct_from_bounds(tree, n + 1, tree.elems@[n as int].end as int);
        lemma_exprs_in_bounds(tree, ds, need_assign, false, n + 1);
    }
    let end = tree.elems[n].end;
    let mut out: Vec<usize> = Vec::new();
    let mut seen = false;
    let mut pos = n + 1;
    let ghost mut k: int = 0;
    assert(ds.take(0) + direct_from(tree, pos as int, end as int) == ds);
    assert(ds.skip(0) == ds);
    assert(out@.map_values(|x: usize| x as int) == Seq::<int>::empty());
    while pos < end
        invariant
            tree.wf(),
            n < tree.elems.len(),
            end == tree.elems@[n as int].end,
            end <= tree.elems.len(),
            n < pos,
            ds == direct_children(tree, n as int),
            0 <= k <= ds.len(),
            ds.take(k) + direct_from(tree, pos as int, end as int) == ds,
            out@.map_values(|x: usize| x as int) + exprs_in(tree, ds.skip(k), need_assign, seen)
                == stat_exprs(tree, n as int, need_assign),
        decreases tree.elems.len() - pos,
    {
        let next = tree.elems[pos].end;
        assert(pos < next <= tree.elems.len());
        assert(ds[k] == pos) by {
            assert((ds.take(k) + direct_from(tree, pos as int, end as int))[k] == pos);
        }
        assert(ds.skip(k).drop_first() =~= ds.skip(k + 1));
        let e = tree.elems[pos];
        let is_assign = !e.is_node && (e.kind == TK_ASSIGN || (TK_PLUS_ASSIGN <= e.kind
            && e.kind <= TK_XOR_ASSIGN));
        let ghost old_out = out@;
        seen = seen || is_assign;
        if e.is_node && SK_PAREN_EXPR <= e.kind && e.kind <= SK_SAFE_INDEX_EXPR && (!need_assign
            || seen) {
            out.push(pos);
            assert(out@.map_values(|x: usize| x as int) =~= old_out.map_values(|x: usize| x as int).push(pos as int));
        }
        proof {
            assert(ds.take(k + 1) + direct_from(tree, next as int, end as int) =~= ds) by {
                assert(ds.take(k + 1) =~= ds.take(k).push(pos as int));
            }
            k = k + 1;
        }
        pos = next;
    }
    assert(ds.take(k) =~= ds);
    assert(ds.skip(k).len() == 0);
    assert(out@.map_values(|x: usize| x as int) =~= stat_exprs(tree, n as int, need_assign));
    assert forall|j: int| 0 <= j < out@.len() implies #[trigger] out@[j] == stat_exprs(tree, n as int, need_assign)[j] by {
        assert(out@.map_values(|x: usize| x as int)[j] == out@[j] as int);
    }
    out
}


/// Closures and table constructors.
pub open spec fn is_block_like_kind(k: u16) -> bool {
    k == SK_CLOSURE_EXPR || k == SK_TABLE_ARRAY_EXPR || k == SK_TABLE_OBJECT_EXPR || k
        == SK_TABLE_EMPTY_EXPR
}

/// The first of several expressions is a closure or a table that spans lines.
pub open spec fn preserves_first_multiline(tree: &SyntaxTree, exprs: Seq<int>) -> bool {
    exprs.len() > 1 && is_block_like_kind(tree.elems@[exprs[0]].kind) && tree.spec_text(
        exprs[0],
    ).contains('\n')
}

/// A single expression that is a closure, a table, or holds a comment of its own.
pub open spec fn attaches_single_value_head(tree: &SyntaxTree, exprs: Seq<int>) -> bool {
    exprs.len() == 1 && (is_block_like_kind(tree.elems@[exprs[0]].kind) || has_direct_comment_child(
        tree,
        exprs[0],
    ))
}

/// The column where element `i` starts.
pub open spec fn start_column(tree: &SyntaxTree, i: int) -> usize {
    column_of(tree.text@, tree.elems@[i].text_start as int) as usize
}

/// The layout of an expression list: fill, one per line and balanced breaking are always
/// allowed, packing only for more than two expressions.
pub open spec fn spec_expr_list_plan(
    kind: StatementExprListLayoutKind,
    first_line_prefix_width: usize,
    attach_single_value_head: bool,
    allow_packed: bool,
) -> StatementExprListLayoutPlan {
    StatementExprListLayoutPlan {
        kind,
        first_line_prefix_width,
        attach_single_value_head,
        allow_fill: true,
        allow_packed,
        allow_one_per_line: true,
        prefer_balanced_break_lines: true,
    }
}

/// The layout of the non-empty expression list `exprs`; `attach` allows attaching a single
/// value to its head.
pub open spec fn expr_list_plan(tree: &SyntaxTree, exprs: Seq<int>, attach: bool) -> StatementExprListLayoutPlan {
    spec_expr_list_plan(
        if preserves_first_multiline(tree, exprs) {
            StatementExprListLayoutKind::PreserveFirstMultiline
        } else {
            StatementExprListLayoutKind::Sequence
        },
        start_column(tree, exprs[0]),
        attach && attaches_single_value_head(tree, exprs),
        exprs.len() > 2,
    )
}

/// The layout options of an expression list.
fn build_expr_list_layout_plan(
    kind: StatementExprListLayoutKind,
    first_line_prefix_width: usize,
    attach_single_value_head: bool,
    allow_packed: bool,
) -> (r: StatementExprListLayoutPlan)
    ensures
        r == spec_expr_list_plan(kind, first_line_prefix_width, attach_single_value_head, allow_packed),
{
    StatementExprListLayoutPlan {
        kind,
        first_line_prefix_width,
        attach_single_value_head,
        allow_fill: true,
        allow_packed,
        allow_one_per_line: true,
        prefer_balanced_break_lines: true,
    }
}

/// The view of a list of element indices as integers.
pub open spec fn as_ints(v: Seq<usize>) -> Seq<int> {
    v.map_values(|x: usize| x as int)
}

/// The layout of a non-empty expression list, computed.
fn expr_list_layout(tree: &SyntaxTree, exprs: &Vec<usize>, attach: bool) -> (r: StatementExprListLayoutPlan)
    requires
        tree.wf(),
        exprs@.len() > 0,
        forall|k: int| 0 <= k < exprs@.len() ==> #[trigger] exprs@[k] < tree.elems.len(),
    ensures
        r == expr_list_plan(tree, as_ints(exprs@), attach),
{
    let first = exprs[0];
    let width = source_line_prefix_width(tree, first);
    let block_like = {
        let k = tree.elems[first].kind;
        k == SK_CLOSURE_EXPR || k == SK_TABLE_ARRAY_EXPR || k == SK_TABLE_OBJECT_EXPR || k
            == SK_TABLE_EMPTY_EXPR
    };
    let preserve = exprs.len() > 1 && block_like && tree.text_contains_newline(first);
    let kind = if preserve {
        StatementExprListLayoutKind::PreserveFirstMultiline
    } else {
        StatementExprListLayoutKind::Sequence
    };
    let attach_head = attach && exprs.len() == 1 && (block_like || node_has_direct_comment_child(
        tree,
        first,
    ));
    assert(as_ints(exprs@)[0] == first as int);
    build_expr_list_layout_plan(kind, width, attach_head, exprs.len() > 2)
}

/// Records the layout of a statement's expression list under the statement, when it has one.
fn analyze_statement_expr_list_layout(
    tree: &SyntaxTree,
    n: usize,
    exprs: &Vec<usize>,
    lists: &mut IdMap<StatementExprListLayoutPlan>,
)
    requires
        tree.wf(),
        n < tree.elems.len(),
        forall|k: int| 0 <= k < exprs@.len() ==> #[trigger] exprs@[k] < tree.elems.len(),
        old(lists).wf(),
    ensures
        final(lists).wf(),
        final(lists)@ == if exprs@.len() == 0 {
            old(lists)@
        } else {
            old(lists)@.insert(tree.spec_id(n as int), expr_list_plan(tree, as_ints(exprs@), true))
        },
{
    if exprs.len() == 0 {
        return;
    }
    let plan = expr_list_layout(tree, exprs, true);
    lists.insert(tree.id(n), plan);
}

/// Records the layout of a control header's expression list under the statement, when it has
/// one; a single value is never attached to the header.
fn analyze_control_header_expr_list_layout(
    tree: &SyntaxTree,
    n: usize,
    exprs: &Vec<usize>,
    lists: &mut IdMap<StatementExprListLayoutPlan>,
)
    requires
        tree.wf(),
        n < tree.elems.len(),
        forall|k: int| 0 <= k < exprs@.len() ==> #[trigger] exprs@[k] < tree.elems.len(),
        old(lists).wf(),
    ensures
        final(lists).wf(),
        final(lists)@ == if exprs@.len() == 0 {
            old(lists)@
        } else {
            old(lists)@.insert(tree.spec_id(n as int), expr_list_plan(tree, as_ints(exprs@), false))
        },
{
    if exprs.len() == 0 {
        return;
    }
    let plan = expr_list_layout(tree, exprs, false);
    lists.insert(tree.id(n), plan);
}

/// Records, for a statement with a comment among its child nodes, whether one follows code on
/// its line.
fn analyze_statement_trivia_layout(tree: &SyntaxTree, n: usize, trivia: &mut IdMap<StatementTriviaLayoutPlan>)
    requires
        tree.wf(),
        n < tree.elems.len(),
        old(trivia).wf(),
    ensures
        final(trivia).wf(),
        final(trivia)@ == if has_direct_comment_child(tree, n as int) {
            old(trivia)@.insert(
                tree.spec_id(n as int),
                StatementTriviaLayoutPlan { has_inline_comment: has_inline_comment_child(tree, n as int) },
            )
        } else {
            old(trivia)@
        },
{
    let (any, inline) = comment_children(tree, n);
    if !any {
        return;
    }
    trivia.insert(tree.id(n), StatementTriviaLayoutPlan { has_inline_comment: inline });
}

/// Records, for a control statement with a comment among its child nodes, whether one follows
/// code on its line.
fn analyze_control_header_layout(tree: &SyntaxTree, n: usize, headers: &mut IdMap<ControlHeaderLayoutPlan>)
    requires
        tree.wf(),
        n < tree.elems.len(),
        old(headers).wf(),
    ensures
        final(headers).wf(),
        final(headers)@ == if has_direct_comment_child(tree, n as int) {
            old(headers)@.insert(
                tree.spec_id(n as int),
                ControlHeaderLayoutPlan { has_inline_comment: has_inline_comment_child(tree, n as int) },
            )
        } else {
            old(headers)@
        },
{
    let (any, inline) = comment_children(tree, n);
    if !any {
        return;
    }
    headers.insert(tree.id(n), ControlHeaderLayoutPlan { has_inline_comment: inline });
}

/// The first of the child nodes `cs` whose kind lies between `lo` and `hi`.
pub open spec fn first_child_in(tree: &SyntaxTree, cs: Seq<int>, lo: u16, hi: u16) -> Option<int>
    decreases cs.len(),
{
    if cs.len() == 0 {
        None
    } else if lo <= tree.elems@[cs[0]].kind <= hi {
        Some(cs[0])
    } else {
        first_child_in(tree, cs.drop_first(), lo, hi)
    }
}

/// The column of the first child node of `n` with a kind between `lo` and `hi`, or 0.
pub open spec fn first_child_column(tree: &SyntaxTree, n: int, lo: u16, hi: u16) -> usize {
    match first_child_in(tree, child_nodes(tree, n), lo, hi) {
        Some(c) => start_column(tree, c),
        None => 0,
    }
}

/// The column of the first child node of `n` with a kind between `lo` and `hi`, or 0.
fn first_child_prefix_width(tree: &SyntaxTree, n: usize, lo: u16, hi: u16) -> (r: usize)
    requires
        tree.wf(),
        n < tree.elems.len(),
    ensures
        r == first_child_column(tree, n as int, lo, hi),
{
    let ghost sibs = child_nodes(tree, n as int);
    proof {
        lemma_child_nodes_bounds(tree, n as int);
    }
    let end = tree.elems[n].end;
    let mut pos = n + 1;
    let ghost mut k: int = 0;
    assert(sibs.take(0) + nodes_from(tree, pos as int, end as int) == sibs);
    assert(sibs.skip(0) == sibs);
    while pos < end
        invariant
            tree.wf(),
            n < tree.elems.len(),
            end == tree.elems@[n as int].end,
            end <= tree.elems.len(),
            n < pos,
            sibs == child_nodes(tree, n as int),
            0 <= k <= sibs.len(),
            sibs.take(k) + nodes_from(tree, pos as int, end as int) == sibs,
            first_child_in(tree, sibs, lo, hi) == first_child_in(tree, sibs.skip(k), lo, hi),
        decreases tree.elems.len() - pos,
    {
        let next = tree.elems[pos].end;
        assert(pos < next <= tree.elems.len());
        if tree.elems[pos].is_node {
            assert(sibs[k] == pos) by {
                assert((sibs.take(k) + nodes_from(tree, pos as int, end as int))[k] == pos);
            }
            assert(sibs.skip(k)[0] == pos);
            if lo <= tree.elems[pos].kind && tree.elems[pos].kind <= hi {
                return source_line_prefix_width(tree, pos);
            }
            proof {
                assert(sibs.skip(k).drop_first() =~= sibs.skip(k + 1));
                assert(sibs.take(k + 1) + nodes_from(tree, next as int, end as int) =~= sibs) by {
                    assert(sibs.take(k + 1) =~= sibs.take(k).push(pos as int));
                }
                k = k + 1;
            }
        } else {
            assert(sibs.take(k) + nodes_from(tree, next as int, end as int) =~= sibs);
        }
        pos = next;
    }
    assert(sibs.take(k) =~= sibs);
    assert(sibs.skip(k).len() == 0);
    0
}


/// The first child node of `n` whose kind lies between `lo` and `hi`.
fn first_child_node_in(tree: &SyntaxTree, n: usize, lo: u16, hi: u16) -> (r: Option<usize>)
    requires
        tree.wf(),
        n < tree.elems.len(),
    ensures
        r matches Some(c) ==> first_child_in(tree, child_nodes(tree, n as int), lo, hi) == Some(
            c as int,
        ) && n < c < tree.elems.len(),
        r is None ==> first_child_in(tree, child_nodes(tree, n as int), lo, hi) is None,
{
    let ghost sibs = child_nodes(tree, n as int);
    proof {
        lemma_child_nodes_bounds(tree, n as int);
    }
    let end = tree.elems[n].end;
    let mut pos = n + 1;
    let ghost mut k: int = 0;
    assert(sibs.take(0) + nodes_from(tree, pos as int, end as int) == sibs);
    assert(sibs.skip(0) == sibs);
    while pos < end
        invariant
            tree.wf(),
            n < tree.elems.len(),
            end == tree.elems@[n as int].end,
            end <= tree.elems.len(),
            n < pos,
            sibs == child_nodes(tree, n as int),
            0 <= k <= sibs.len(),
            sibs.take(k) + nodes_from(tree, pos as int, end as int) == sibs,
            first_child_in(tree, sibs, lo, hi) == first_child_in(tree, sibs.skip(k), lo, hi),
        decreases tree.elems.len() - pos,
    {
        let next = tree.elems[pos].end;
        assert(pos < next <= tree.elems.len());
        if tree.elems[pos].is_node {
            assert(sibs[k] == pos) by {
                assert((sibs.take(k) + nodes_from(tree, pos as int, end as int))[k] == pos);
            }
            assert(sibs.skip(k)[0] == pos);
            if lo <= tree.elems[pos].kind && tree.elems[pos].kind <= hi {
                return Some(pos);
            }
            proof {
                assert(sibs.skip(k).drop_first() =~= sibs.skip(k + 1));
                assert(sibs.take(k + 1) + nodes_from(tree, next as int, end as int) =~= sibs) by {
                    assert(sibs.take(k + 1) =~= sibs.take(k).push(pos as int));
                }
                k = k + 1;
            }
        } else {
            assert(sibs.take(k) + nodes_from(tree, next as int, end as int) =~= sibs);
        }
        pos = next;
    }
    assert(sibs.take(k) =~= sibs);
    assert(sibs.skip(k).len() == 0);
    None
}

/// Records the layout of a parameter list: the column of its first parameter.
fn analyze_param_list_layout(tree: &SyntaxTree, n: usize, seqs: &mut IdMap<ExprSequenceLayoutPlan>)
    requires
        tree.wf(),
        n < tree.elems.len(),
        old(seqs).wf(),
    ensures
        final(seqs).wf(),
        final(seqs)@ == old(seqs)@.insert(
            tree.spec_id(n as int),
            ExprSequenceLayoutPlan {
                first_line_prefix_width: first_child_column(tree, n as int, SK_PARAM_NAME, SK_PARAM_NAME),
                preserve_multiline: false,
            },
        ),
{
    let width = first_child_prefix_width(tree, n, SK_PARAM_NAME, SK_PARAM_NAME);
    seqs.insert(
        tree.id(n),
        ExprSequenceLayoutPlan { first_line_prefix_width: width, preserve_multiline: false },
    );
}

/// Records the layout of an argument list: the column of its first argument, and whether it
/// spans lines in the source.
fn analyze_call_arg_list_layout(tree: &SyntaxTree, n: usize, seqs: &mut IdMap<ExprSequenceLayoutPlan>)
    requires
        tree.wf(),
        n < tree.elems.len(),
        old(seqs).wf(),
    ensures
        final(seqs).wf(),
        final(seqs)@ == old(seqs)@.insert(
            tree.spec_id(n as int),
            ExprSequenceLayoutPlan {
                first_line_prefix_width: first_child_column(tree, n as int, SK_PAREN_EXPR, SK_SAFE_INDEX_EXPR),
                preserve_multiline: tree.spec_text(n as int).contains('\n'),
            },
        ),
{
    let width = first_child_prefix_width(tree, n, SK_PAREN_EXPR, SK_SAFE_INDEX_EXPR);
    let multiline = tree.text_contains_newline(n);
    seqs.insert(
        tree.id(n),
        ExprSequenceLayoutPlan { first_line_prefix_width: width, preserve_multiline: multiline },
    );
}

/// Records the layout of a non-empty table: the column of its first field.
fn analyze_table_expr_layout(tree: &SyntaxTree, n: usize, seqs: &mut IdMap<ExprSequenceLayoutPlan>)
    requires
        tree.wf(),
        n < tree.elems.len(),
        old(seqs).wf(),
    ensures
        final(seqs).wf(),
        final(seqs)@ == if tree.elems@[n as int].kind == SK_TABLE_EMPTY_EXPR {
            old(seqs)@
        } else {
            old(seqs)@.insert(
                tree.spec_id(n as int),
                ExprSequenceLayoutPlan {
                    first_line_prefix_width: first_child_column(
                        tree,
                        n as int,
                        SK_TABLE_FIELD_ASSIGN,
                        SK_TABLE_FIELD_VALUE,
                    ),
                    preserve_multiline: false,
                },
            )
        },
{
    if tree.elems[n].kind == SK_TABLE_EMPTY_EXPR {
        return;
    }
    let width = first_child_prefix_width(tree, n, SK_TABLE_FIELD_ASSIGN, SK_TABLE_FIELD_VALUE);
    seqs.insert(
        tree.id(n),
        ExprSequenceLayoutPlan { first_line_prefix_width: width, preserve_multiline: false },
    );
}

/// `s` followed by those of `ids` that it does not hold yet, each once, in order.
pub open spec fn append_missing(s: Seq<LuaSyntaxId>, ids: Seq<LuaSyntaxId>) -> Seq<LuaSyntaxId>
    decreases ids.len(),
{
    if ids.len() == 0 {
        s
    } else {
        let a = append_missing(s, ids.drop_last());
        if a.contains(ids.last()) {
            a
        } else {
            a.push(ids.last())
        }
    }
}

/// Whether `v` holds `id`.
fn contains_id(v: &Vec<LuaSyntaxId>, id: LuaSyntaxId) -> (r: bool)
    ensures
        r == v@.contains(id),
{
    let mut i: usize = 0;
    while i < v.len()
        invariant
            i <= v.len(),
            forall|j: int| 0 <= j < i ==> v@[j] != id,
        decreases v.len() - i,
    {
        if v[i] == id {
            return true;
        }
        i = i + 1;
    }
    false
}

/// Appends to `acc` those of `ids` that it does not hold yet.
fn append_missing_ids(acc: &mut Vec<LuaSyntaxId>, ids: &Vec<LuaSyntaxId>)
    ensures
        final(acc)@ == append_missing(old(acc)@, ids@),
{
    let mut j: usize = 0;
    assert(ids@.take(0) =~= Seq::<LuaSyntaxId>::empty());
    while j < ids.len()
        invariant
            j <= ids.len(),
            acc@ == append_missing(old(acc)@, ids@.take(j as int)),
        decreases ids.len() - j,
    {
        assert(ids@.take(j + 1).drop_last() =~= ids@.take(j as int));
        let id = ids[j];
        if !contains_id(acc, id) {
            acc.push(id);
        }
        j = j + 1;
    }
    assert(ids@.take(j as int) =~= ids@);
}

/// A copy of a list of identifiers.
fn copy_ids(v: &Vec<LuaSyntaxId>) -> (r: Vec<LuaSyntaxId>)
    ensures
        r@ == v@,
{
    let mut r: Vec<LuaSyntaxId> = Vec::new();
    let mut i: usize = 0;
    while i < v.len()
        invariant
            i <= v.len(),
            r@ == v@.take(i as int),
        decreases v.len() - i,
    {
        r.push(v[i]);
        i = i + 1;
        assert(r@ =~= v@.take(i as int));
    }
    assert(v@.take(i as int) =~= v@);
    r
}

/// The comments recorded for `owner` after the token of kind `anchor`.
pub open spec fn anchor_comments(m: Map<LuaSyntaxId, AnchorCommentMap>, owner: LuaSyntaxId, anchor: u16) -> Option<
    Seq<LuaSyntaxId>,
> {
    if m.contains_key(owner) {
        m[owner].comments_after(anchor)
    } else {
        None
    }
}

/// The comments recorded for `owner` after `anchor`, or none.
pub open spec fn anchor_list(m: Map<LuaSyntaxId, AnchorCommentMap>, owner: LuaSyntaxId, anchor: u16) -> Seq<
    LuaSyntaxId,
> {
    match anchor_comments(m, owner, anchor) {
        Some(s) => s,
        None => Seq::empty(),
    }
}

/// The comments excluded from block `b`.
pub open spec fn excluded_of(m: Map<LuaSyntaxId, Vec<LuaSyntaxId>>, b: LuaSyntaxId) -> Option<Seq<LuaSyntaxId>> {
    if m.contains_key(b) {
        Some(m[b]@)
    } else {
        None
    }
}

/// Appends `ids` to the boundary comments of `owner` after `anchor_kind`, and, for a block,
/// to the comments that the block leaves out; identifiers already there are not repeated.
fn record_boundary_comment_ids(
    owner: LuaSyntaxId,
    anchor_kind: u16,
    block: Option<LuaSyntaxId>,
    ids: Vec<LuaSyntaxId>,
    layout: &mut RootLayoutModel,
)
    requires
        old(layout).wf(),
    ensures
        final(layout).wf(),
        forall|o: LuaSyntaxId, k: u16|
            #[trigger] anchor_comments(final(layout).boundary_comments@, o, k) == if ids@.len() > 0
                && o == owner && k == anchor_kind {
                Some(append_missing(anchor_list(old(layout).boundary_comments@, owner, anchor_kind), ids@))
            } else {
                anchor_comments(old(layout).boundary_comments@, o, k)
            },
        forall|b: LuaSyntaxId|
            #[trigger] excluded_of(final(layout).block_excluded_comments@, b) == if ids@.len() > 0
                && block == Some(b) {
                Some(
                    append_missing(
                        match excluded_of(old(layout).block_excluded_comments@, b) {
                            Some(s) => s,
                            None => Seq::empty(),
                        },
                        ids@,
                    ),
                )
            } else {
                excluded_of(old(layout).block_excluded_comments@, b)
            },
        block is None ==> final(layout).block_excluded_comments@ == old(layout).block_excluded_comments@,
        final(layout).boundary_comments@.dom() == if ids@.len() > 0 {
            old(layout).boundary_comments@.dom().insert(owner)
        } else {
            old(layout).boundary_comments@.dom()
        },
        final(layout).format_block_with_legacy == old(layout).format_block_with_legacy,
        final(layout).root_nodes@ == old(layout).root_nodes@,
        final(layout).format_disabled@ == old(layout).format_disabled@,
        final(layout).statement_trivia@ == old(layout).statement_trivia@,
        final(layout).statement_expr_lists@ == old(layout).statement_expr_lists@,
        final(layout).expr_sequences@ == old(layout).expr_sequences@,
        final(layout).control_headers@ == old(layout).control_headers@,
        final(layout).control_header_expr_lists@ == old(layout).control_header_expr_lists@,
{
    if ids.len() == 0 {
        return;
    }
    let mut inner = AnchorCommentMap::new();
    let mut list: Vec<LuaSyntaxId> = Vec::new();
    match layout.boundary_comments.get(owner) {
        Some(m) => {
            inner = m.duplicate();
            match m.get(anchor_kind) {
                Some(p) => {
                    list = copy_ids(&p.comment_ids);
                },
                None => {},
            }
        },
        None => {},
    }
    append_missing_ids(&mut list, &ids);
    inner.insert(anchor_kind, BoundaryCommentLayoutPlan { comment_ids: list });
    layout.boundary_comments.insert(owner, inner);
    match block {
        Some(b) => {
            let mut excluded: Vec<LuaSyntaxId> = Vec::new();
            match layout.block_excluded_comments.get(b) {
                Some(v) => {
                    excluded = copy_ids(v);
                },
                None => {},
            }
            append_missing_ids(&mut excluded, &ids);
            layout.block_excluded_comments.insert(b, excluded);
        },
        None => {},
    }
}


/// Among the direct children `ds`, the first token of kind `kind`.
pub open spec fn first_token_of_kind(tree: &SyntaxTree, ds: Seq<int>, kind: u16) -> Option<int>
    decreases ds.len(),
{
    if ds.len() == 0 {
        None
    } else if !tree.elems@[ds[0]].is_node && tree.elems@[ds[0]].kind == kind {
        Some(ds[0])
    } else {
        first_token_of_kind(tree, ds.drop_first(), kind)
    }
}

/// The first direct child token of `n` of kind `kind`.
fn first_direct_token(tree: &SyntaxTree, n: usize, kind: u16) -> (r: Option<usize>)
    requires
        tree.wf(),
        n < tree.elems.len(),
    ensures
        r matches Some(t) ==> first_token_of_kind(tree, direct_children(tree, n as int), kind)
            == Some(t as int) && t < tree.elems.len(),
        r is None ==> first_token_of_kind(tree, direct_children(tree, n as int), kind) is None,
{
    let ghost ds = direct_children(tree, n as int);
    let end = tree.elems[n].end;
    let mut pos = n + 1;
    let ghost mut k: int = 0;
    assert(ds.take(0) + direct_from(tree, pos as int, end as int) == ds);
    assert(ds.skip(0) == ds);
    while pos < end
        invariant
            tree.wf(),
            n < tree.elems.len(),
            end == tree.elems@[n as int].end,
            end <= tree.elems.len(),
            n < pos,
            ds == direct_children(tree, n as int),
            0 <= k <= ds.len(),
            ds.take(k) + direct_from(tree, pos as int, end as int) == ds,
            first_token_of_kind(tree, ds, kind) == first_token_of_kind(tree, ds.skip(k), kind),
        decreases tree.elems.len() - pos,
    {
        let next = tree.elems[pos].end;
        assert(pos < next <= tree.elems.len());
        assert(ds[k] == pos) by {
            assert((ds.take(k) + direct_from(tree, pos as int, end as int))[k] == pos);
        }
        assert(ds.skip(k)[0] == pos);
        if !tree.elems[pos].is_node && tree.elems[pos].kind == kind {
            return Some(pos);
        }
        proof {
            assert(ds.skip(k).drop_first() =~= ds.skip(k + 1));
            assert(ds.take(k + 1) + direct_from(tree, next as int, end as int) =~= ds) by {
                assert(ds.take(k + 1) =~= ds.take(k).push(pos as int));
            }
            k = k + 1;
        }
        pos = next;
    }
    assert(ds.take(k) =~= ds);
    assert(ds.skip(k).len() == 0);
    None
}

/// The identifiers of the comments among the child nodes `cs` that start at or after `from`.
pub open spec fn comments_at_or_after(tree: &SyntaxTree, cs: Seq<int>, from: int) -> Seq<LuaSyntaxId>
    decreases cs.len(),
{
    if cs.len() == 0 {
        Seq::empty()
    } else {
        let rest = comments_at_or_after(tree, cs.drop_last(), from);
        let c = cs.last();
        if is_comment_node(tree, c) && tree.elems@[c].text_start >= from {
            rest.push(tree.spec_id(c))
        } else {
            rest
        }
    }
}

/// The identifiers of the comments that open the child nodes `cs`, up to the first other node.
pub open spec fn leading_comments(tree: &SyntaxTree, cs: Seq<int>) -> Seq<LuaSyntaxId>
    decreases cs.len(),
{
    if cs.len() == 0 || !is_comment_node(tree, cs[0]) {
        Seq::empty()
    } else {
        seq![tree.spec_id(cs[0])] + leading_comments(tree, cs.drop_first())
    }
}

/// The comments among the child nodes of `n` that start at or after `from`.
fn comment_ids_from(tree: &SyntaxTree, n: usize, from: usize) -> (r: Vec<LuaSyntaxId>)
    requires
        tree.wf(),
        n < tree.elems.len(),
    ensures
        r@ == comments_at_or_after(tree, child_nodes(tree, n as int), from as int),
{
    let ghost sibs = child_nodes(tree, n as int);
    proof {
        lemma_child_nodes_bounds(tree, n as int);
    }
    let end = tree.elems[n].end;
    let mut out: Vec<LuaSyntaxId> = Vec::new();
    let mut pos = n + 1;
    let ghost mut k: int = 0;
    assert(sibs.take(0) + nodes_from(tree, pos as int, end as int) == sibs);
    assert(sibs.take(0) =~= Seq::<int>::empty());
    while pos < end
        invariant
            tree.wf(),
            n < tree.elems.len(),
            end == tree.elems@[n as int].end,
            end <= tree.elems.len(),
            n < pos,
            sibs == child_nodes(tree, n as int),
            0 <= k <= sibs.len(),
            sibs.take(k) + nodes_from(tree, pos as int, end as int) == sibs,
            out@ == comments_at_or_after(tree, sibs.take(k), from as int),
        decreases tree.elems.len() - pos,
    {
        let next = tree.elems[pos].end;
        assert(pos < next <= tree.elems.len());
        if tree.elems[pos].is_node {
            assert(sibs[k] == pos) by {
                assert((sibs.take(k) + nodes_from(tree, pos as int, end as int))[k] == pos);
            }
            assert(sibs.take(k + 1).drop_last() =~= sibs.take(k));
            if tree.elems[pos].kind == SK_COMMENT && tree.elems[pos].text_start >= from {
                out.push(tree.id(pos));
            }
            proof {
                assert(sibs.take(k + 1) + nodes_from(tree, next as int, end as int) =~= sibs) by {
                    assert(sibs.take(k + 1) =~= sibs.take(k).push(pos as int));
                }
                k = k + 1;
            }
        } else {
            assert(sibs.take(k) + nodes_from(tree, next as int, end as int) =~= sibs);
        }
        pos = next;
    }
    assert(sibs.take(k) =~= sibs);
    out
}

/// The comments that open block `b`, before its first other child node.
fn leading_comment_ids(tree: &SyntaxTree, b: usize) -> (r: Vec<LuaSyntaxId>)
    requires
        tree.wf(),
        b < tree.elems.len(),
    ensures
        r@ == leading_comments(tree, child_nodes(tree, b as int)),
{
    let ghost sibs = child_nodes(tree, b as int);
    proof {
        lemma_child_nodes_bounds(tree, b as int);
    }
    let end = tree.elems[b].end;
    let mut out: Vec<LuaSyntaxId> = Vec::new();
    let mut pos = b + 1;
    let ghost mut k: int = 0;
    assert(sibs.take(0) + nodes_from(tree, pos as int, end as int) == sibs);
    assert(sibs.skip(0) == sibs);
    while pos < end
        invariant
            tree.wf(),
            b < tree.elems.len(),
            end == tree.elems@[b as int].end,
            end <= tree.elems.len(),
            b < pos,
            sibs == child_nodes(tree, b as int),
            0 <= k <= sibs.len(),
            sibs.take(k) + nodes_from(tree, pos as int, end as int) == sibs,
            out@ + leading_comments(tree, sibs.skip(k)) == leading_comments(tree, sibs),
        decreases tree.elems.len() - pos,
    {
        let next = tree.elems[pos].end;
        assert(pos < next <= tree.elems.len());
        if tree.elems[pos].is_node {
            assert(sibs[k] == pos) by {
                assert((sibs.take(k) + nodes_from(tree, pos as int, end as int))[k] == pos);
            }
            assert(sibs.skip(k)[0] == pos);
            if tree.elems[pos].kind != SK_COMMENT {
                assert(leading_comments(tree, sibs.skip(k)) =~= Seq::<LuaSyntaxId>::empty());
                assert(out@ =~= leading_comments(tree, sibs));
                return out;
            }
            let ghost before = out@;
            out.push(tree.id(pos));
            proof {
                assert(sibs.skip(k).drop_first() =~= sibs.skip(k + 1));
                assert(out@ + leading_comments(tree, sibs.skip(k + 1)) =~= before + leading_comments(
                    tree,
                    sibs.skip(k),
                ));
                assert(sibs.take(k + 1) + nodes_from(tree, next as int, end as int) =~= sibs) by {
                    assert(sibs.take(k + 1) =~= sibs.take(k).push(pos as int));
                }
                k = k + 1;
            }
        } else {
            assert(sibs.take(k) + nodes_from(tree, next as int, end as int) =~= sibs);
        }
        pos = next;
    }
    assert(sibs.take(k) =~= sibs);
    assert(sibs.skip(k).len() == 0);
    assert(out@ =~= leading_comments(tree, sibs));
    out
}

/// The layout maps other than the boundary comments are those of `a`.
pub open spec fn same_except_boundary(a: &RootLayoutModel, b: &RootLayoutModel) -> bool {
    &&& b.format_block_with_legacy == a.format_block_with_legacy
    &&& b.root_nodes@ == a.root_nodes@
    &&& b.format_disabled@ == a.format_disabled@
    &&& b.statement_trivia@ == a.statement_trivia@
    &&& b.statement_expr_lists@ == a.statement_expr_lists@
    &&& b.expr_sequences@ == a.expr_sequences@
    &&& b.control_headers@ == a.control_headers@
    &&& b.control_header_expr_lists@ == a.control_header_expr_lists@
}

/// Every comment list recorded in `a` is still recorded in `b`.
pub open spec fn anchors_kept(a: Map<LuaSyntaxId, AnchorCommentMap>, b: Map<LuaSyntaxId, AnchorCommentMap>) -> bool {
    forall|o: LuaSyntaxId, k: u16| #[trigger] anchor_comments(a, o, k) is Some ==> anchor_comments(b, o, k) is Some
}

/// Each `if` statement before node `upto` with comments after its `then` has them recorded
/// for that keyword, and so have its `elseif` clauses after their `then` and its `else` clause
/// after its `else`.
pub open spec fn if_boundaries(tree: &SyntaxTree, m: Map<LuaSyntaxId, AnchorCommentMap>, upto: int) -> bool {
    forall|n: int|
        0 <= n < upto && #[trigger] crate::syntax::node_is(tree, n, SK_IF_STAT) ==> {
            &&& has_boundary(tree, n, TK_THEN) ==> anchor_comments(m, tree.spec_id(n), TK_THEN) is Some
            &&& match first_child_in(tree, child_nodes(tree, n), SK_ELSE_CLAUSE_STAT, SK_ELSE_CLAUSE_STAT) {
                Some(c) => has_boundary(tree, c, TK_ELSE) ==> anchor_comments(m, tree.spec_id(c), TK_ELSE) is Some,
                None => true,
            }
            &&& forall|q: int|
                #[trigger] direct_children(tree, n).contains(q) && crate::syntax::node_is(tree, q, SK_ELSE_IF_CLAUSE_STAT)
                    && has_boundary(tree, q, TK_THEN) ==> anchor_comments(m, tree.spec_id(q), TK_THEN) is Some
        }
}

/// Recorded comment lists that stay recorded keep the `if` boundaries.
proof fn lemma_if_boundaries_kept(
    tree: &SyntaxTree,
    a: Map<LuaSyntaxId, AnchorCommentMap>,
    b: Map<LuaSyntaxId, AnchorCommentMap>,
    upto: int,
)
    requires
        if_boundaries(tree, a, upto),
        anchors_kept(a, b),
    ensures
        if_boundaries(tree, b, upto),
{
    assert forall|n: int| 0 <= n < upto && #[trigger] crate::syntax::node_is(tree, n, SK_IF_STAT) implies {
        &&& has_boundary(tree, n, TK_THEN) ==> anchor_comments(b, tree.spec_id(n), TK_THEN) is Some
        &&& match first_child_in(tree, child_nodes(tree, n), SK_ELSE_CLAUSE_STAT, SK_ELSE_CLAUSE_STAT) {
            Some(c) => has_boundary(tree, c, TK_ELSE) ==> anchor_comments(b, tree.spec_id(c), TK_ELSE) is Some,
            None => true,
        }
        &&& forall|q: int|
            #[trigger] direct_children(tree, n).contains(q) && crate::syntax::node_is(tree, q, SK_ELSE_IF_CLAUSE_STAT)
                && has_boundary(tree, q, TK_THEN) ==> anchor_comments(b, tree.spec_id(q), TK_THEN) is Some
    } by {
        assert forall|q: int|
            #[trigger] direct_children(tree, n).contains(q) && crate::syntax::node_is(tree, q, SK_ELSE_IF_CLAUSE_STAT)
                && has_boundary(tree, q, TK_THEN) implies anchor_comments(b, tree.spec_id(q), TK_THEN) is Some by {
            assert(anchor_comments(a, tree.spec_id(q), TK_THEN) is Some);
        }
        if has_boundary(tree, n, TK_THEN) {
            assert(anchor_comments(a, tree.spec_id(n), TK_THEN) is Some);
        }
        if let Some(c) = first_child_in(tree, child_nodes(tree, n), SK_ELSE_CLAUSE_STAT, SK_ELSE_CLAUSE_STAT) {
            if has_boundary(tree, c, TK_ELSE) {
                assert(anchor_comments(a, tree.spec_id(c), TK_ELSE) is Some);
            }
        }
    }
}

/// Keeping every recorded comment list is transitive.
proof fn lemma_anchors_trans(
    a: Map<LuaSyntaxId, AnchorCommentMap>,
    b: Map<LuaSyntaxId, AnchorCommentMap>,
    c: Map<LuaSyntaxId, AnchorCommentMap>,
)
    requires
        anchors_kept(a, b),
        anchors_kept(b, c),
    ensures
        anchors_kept(a, c),
{
    assert forall|o: LuaSyntaxId, k: u16| #[trigger] anchor_comments(a, o, k) is Some implies anchor_comments(c, o, k) is Some by {
        assert(anchor_comments(b, o, k) is Some);
    }
}

/// Comments follow, in node `n`, its first direct token of kind `kind`.
pub open spec fn has_boundary(tree: &SyntaxTree, n: int, kind: u16) -> bool {
    match first_token_of_kind(tree, direct_children(tree, n), kind) {
        Some(a) => comments_at_or_after(tree, child_nodes(tree, n), tree.elems@[a].text_end as int).len() > 0,
        None => false,
    }
}

/// Records, for `owner`, the comments among the child nodes of `node` that follow the token
/// `anchor` of kind `anchor_kind`.
fn analyze_boundary_comments_after_token(
    tree: &SyntaxTree,
    node: usize,
    owner: LuaSyntaxId,
    anchor_kind: u16,
    anchor: Option<usize>,
    layout: &mut RootLayoutModel,
)
    requires
        tree.wf(),
        node < tree.elems.len(),
        anchor matches Some(a) ==> a < tree.elems.len(),
        old(layout).wf(),
    ensures
        final(layout).wf(),
        same_except_boundary(old(layout), final(layout)),
        final(layout).block_excluded_comments@ == old(layout).block_excluded_comments@,
        forall|o: LuaSyntaxId, k: u16|
            #[trigger] anchor_comments(final(layout).boundary_comments@, o, k) == match anchor {
                Some(a) => {
                    let ids = comments_at_or_after(
                        tree,
                        child_nodes(tree, node as int),
                        tree.elems@[a as int].text_end as int,
                    );
                    if ids.len() > 0 && o == owner && k == anchor_kind {
                        Some(append_missing(anchor_list(old(layout).boundary_comments@, owner, anchor_kind), ids))
                    } else {
                        anchor_comments(old(layout).boundary_comments@, o, k)
                    }
                },
                None => anchor_comments(old(layout).boundary_comments@, o, k),
            },
        anchors_kept(old(layout).boundary_comments@, final(layout).boundary_comments@),
{
    match anchor {
        None => {},
        Some(a) => {
            let from = tree.elems[a].text_end;
            let ids = comment_ids_from(tree, node, from);
            record_boundary_comment_ids(owner, anchor_kind, None, ids, layout);
        },
    }
}


/// Records, for `owner`, the comments that open block `b`, and leaves them out of the block.
fn analyze_boundary_comments_in_block(
    tree: &SyntaxTree,
    b: usize,
    owner: LuaSyntaxId,
    anchor_kind: u16,
    layout: &mut RootLayoutModel,
)
    requires
        tree.wf(),
        b < tree.elems.len(),
        old(layout).wf(),
    ensures
        final(layout).wf(),
        same_except_boundary(old(layout), final(layout)),
        forall|o: LuaSyntaxId, k: u16|
            #[trigger] anchor_comments(final(layout).boundary_comments@, o, k) == {
                let ids = leading_comments(tree, child_nodes(tree, b as int));
                if ids.len() > 0 && o == owner && k == anchor_kind {
                    Some(append_missing(anchor_list(old(layout).boundary_comments@, owner, anchor_kind), ids))
                } else {
                    anchor_comments(old(layout).boundary_comments@, o, k)
                }
            },
        forall|x: LuaSyntaxId|
            #[trigger] excluded_of(final(layout).block_excluded_comments@, x) == {
                let ids = leading_comments(tree, child_nodes(tree, b as int));
                if ids.len() > 0 && x == tree.spec_id(b as int) {
                    Some(
                        append_missing(
                            match excluded_of(old(layout).block_excluded_comments@, x) {
                                Some(s) => s,
                                None => Seq::empty(),
                            },
                            ids,
                        ),
                    )
                } else {
                    excluded_of(old(layout).block_excluded_comments@, x)
                }
            },
        anchors_kept(old(layout).boundary_comments@, final(layout).boundary_comments@),
{
    let ids = leading_comment_ids(tree, b);
    record_boundary_comment_ids(owner, anchor_kind, Some(tree.id(b)), ids, layout);
}

/// The statement-trivia map after recording statement `n`.
pub open spec fn trivia_update(
    m: Map<LuaSyntaxId, StatementTriviaLayoutPlan>,
    tree: &SyntaxTree,
    n: int,
) -> Map<LuaSyntaxId, StatementTriviaLayoutPlan> {
    if has_direct_comment_child(tree, n) {
        m.insert(
            tree.spec_id(n),
            StatementTriviaLayoutPlan { has_inline_comment: has_inline_comment_child(tree, n) },
        )
    } else {
        m
    }
}

/// The control-header map after recording statement `n`.
pub open spec fn control_update(
    m: Map<LuaSyntaxId, ControlHeaderLayoutPlan>,
    tree: &SyntaxTree,
    n: int,
) -> Map<LuaSyntaxId, ControlHeaderLayoutPlan> {
    if has_direct_comment_child(tree, n) {
        m.insert(
            tree.spec_id(n),
            ControlHeaderLayoutPlan { has_inline_comment: has_inline_comment_child(tree, n) },
        )
    } else {
        m
    }
}

/// An expression-list map after recording the expressions `exprs` of statement `n`.
pub open spec fn expr_list_update(
    m: Map<LuaSyntaxId, StatementExprListLayoutPlan>,
    tree: &SyntaxTree,
    n: int,
    exprs: Seq<int>,
    attach: bool,
) -> Map<LuaSyntaxId, StatementExprListLayoutPlan> {
    if exprs.len() == 0 {
        m
    } else {
        m.insert(tree.spec_id(n), expr_list_plan(tree, exprs, attach))
    }
}

/// The maps of `b` are those of `a`, but for the ones flagged.
pub open spec fn same_fields(
    a: &RootLayoutModel,
    b: &RootLayoutModel,
    trivia: bool,
    lists: bool,
    seqs: bool,
    headers: bool,
    header_lists: bool,
    boundary: bool,
) -> bool {
    &&& b.format_block_with_legacy == a.format_block_with_legacy
    &&& b.root_nodes@ == a.root_nodes@
    &&& b.format_disabled@ == a.format_disabled@
    &&& (!trivia ==> b.statement_trivia@ == a.statement_trivia@)
    &&& (!lists ==> b.statement_expr_lists@ == a.statement_expr_lists@)
    &&& (!seqs ==> b.expr_sequences@ == a.expr_sequences@)
    &&& (!headers ==> b.control_headers@ == a.control_headers@)
    &&& (!header_lists ==> b.control_header_expr_lists@ == a.control_header_expr_lists@)
    &&& (!boundary ==> b.boundary_comments@ == a.boundary_comments@
        && b.block_excluded_comments@ == a.block_excluded_comments@)
}

/// Records the trivia and the value list of a `local` statement.
fn analyze_local_stat_layout(tree: &SyntaxTree, n: usize, layout: &mut RootLayoutModel)
    requires
        tree.wf(),
        n < tree.elems.len(),
        old(layout).wf(),
    ensures
        final(layout).wf(),
        same_fields(old(layout), final(layout), true, true, false, false, false, false),
        final(layout).statement_trivia@ == trivia_update(old(layout).statement_trivia@, tree, n as int),
        final(layout).statement_expr_lists@ == expr_list_update(
            old(layout).statement_expr_lists@,
            tree,
            n as int,
            stat_exprs(tree, n as int, false),
            true,
        ),
        anchors_kept(old(layout).boundary_comments@, final(layout).boundary_comments@),
{
    analyze_statement_trivia_layout(tree, n, &mut layout.statement_trivia);
    let exprs = collect_stat_exprs(tree, n, false);
    assert(as_ints(exprs@) =~= stat_exprs(tree, n as int, false));
    analyze_statement_expr_list_layout(tree, n, &exprs, &mut layout.statement_expr_lists);
}

/// Records the trivia and the value list of an assignment.
fn analyze_assign_stat_layout(tree: &SyntaxTree, n: usize, layout: &mut RootLayoutModel)
    requires
        tree.wf(),
        n < tree.elems.len(),
        old(layout).wf(),
    ensures
        final(layout).wf(),
        same_fields(old(layout), final(layout), true, true, false, false, false, false),
        final(layout).statement_trivia@ == trivia_update(old(layout).statement_trivia@, tree, n as int),
        final(layout).statement_expr_lists@ == expr_list_update(
            old(layout).statement_expr_lists@,
            tree,
            n as int,
            stat_exprs(tree, n as int, true),
            true,
        ),
        anchors_kept(old(layout).boundary_comments@, final(layout).boundary_comments@),
{
    analyze_statement_trivia_layout(tree, n, &mut layout.statement_trivia);
    let exprs = collect_stat_exprs(tree, n, true);
    assert(as_ints(exprs@) =~= stat_exprs(tree, n as int, true));
    analyze_statement_expr_list_layout(tree, n, &exprs, &mut layout.statement_expr_lists);
}

/// Records the trivia and the value list of a `return` statement.
fn analyze_return_stat_layout(tree: &SyntaxTree, n: usize, layout: &mut RootLayoutModel)
    requires
        tree.wf(),
        n < tree.elems.len(),
        old(layout).wf(),
    ensures
        final(layout).wf(),
        same_fields(old(layout), final(layout), true, true, false, false, false, false),
        final(layout).statement_trivia@ == trivia_update(old(layout).statement_trivia@, tree, n as int),
        final(layout).statement_expr_lists@ == expr_list_update(
            old(layout).statement_expr_lists@,
            tree,
            n as int,
            stat_exprs(tree, n as int, false),
            true,
        ),
        anchors_kept(old(layout).boundary_comments@, final(layout).boundary_comments@),
{
    analyze_statement_trivia_layout(tree, n, &mut layout.statement_trivia);
    let exprs = collect_stat_exprs(tree, n, false);
    assert(as_ints(exprs@) =~= stat_exprs(tree, n as int, false));
    analyze_statement_expr_list_layout(tree, n, &exprs, &mut layout.statement_expr_lists);
}

/// Records the comments after `anchor_kind`'s first token in `n`, and those that open the
/// first block of `n`, for the owner `n`.
fn analyze_anchor_and_block(tree: &SyntaxTree, n: usize, anchor_kind: u16, layout: &mut RootLayoutModel)
    requires
        tree.wf(),
        n < tree.elems.len(),
        old(layout).wf(),
    ensures
        final(layout).wf(),
        same_fields(old(layout), final(layout), false, false, false, false, false, true),
        forall|o: LuaSyntaxId, k: u16|
            !(o == tree.spec_id(n as int) && k == anchor_kind) ==> #[trigger] anchor_comments(final(layout).boundary_comments@, o, k)
                == anchor_comments(old(layout).boundary_comments@, o, k),
        (match first_token_of_kind(tree, direct_children(tree, n as int), anchor_kind) {
            Some(a) => comments_at_or_after(tree, child_nodes(tree, n as int), tree.elems@[a].text_end as int).len() > 0,
            None => false,
        } || anchor_comments(old(layout).boundary_comments@, tree.spec_id(n as int), anchor_kind) is Some) ==> anchor_comments(
            final(layout).boundary_comments@,
            tree.spec_id(n as int),
            anchor_kind,
        ) is Some,
        anchors_kept(old(layout).boundary_comments@, final(layout).boundary_comments@),
{
    let owner = tree.id(n);
    let anchor = first_direct_token(tree, n, anchor_kind);
    analyze_boundary_comments_after_token(tree, n, owner, anchor_kind, anchor, layout);
    match first_child_node_in(tree, n, SK_BLOCK, SK_BLOCK) {
        Some(b) => analyze_boundary_comments_in_block(tree, b, owner, anchor_kind, layout),
        None => {},
    }
}

/// Records the header trivia of a `while` statement and the comments after its `do`.
fn analyze_while_stat_layout(tree: &SyntaxTree, n: usize, layout: &mut RootLayoutModel)
    requires
        tree.wf(),
        n < tree.elems.len(),
        old(layout).wf(),
    ensures
        final(layout).wf(),
        same_fields(old(layout), final(layout), false, false, false, true, false, true),
        final(layout).control_headers@ == control_update(old(layout).control_headers@, tree, n as int),
        anchors_kept(old(layout).boundary_comments@, final(layout).boundary_comments@),
{
    analyze_control_header_layout(tree, n, &mut layout.control_headers);
    analyze_anchor_and_block(tree, n, TK_DO, layout);
}

/// Records the header trivia and iteration values of a numeric `for` and the comments after
/// its `do`.
fn analyze_for_stat_layout(tree: &SyntaxTree, n: usize, layout: &mut RootLayoutModel)
    requires
        tree.wf(),
        n < tree.elems.len(),
        old(layout).wf(),
    ensures
        final(layout).wf(),
        same_fields(old(layout), final(layout), false, false, false, true, true, true),
        final(layout).control_headers@ == control_update(old(layout).control_headers@, tree, n as int),
        final(layout).control_header_expr_lists@ == expr_list_update(
            old(layout).control_header_expr_lists@,
            tree,
            n as int,
            stat_exprs(tree, n as int, false),
            false,
        ),
        anchors_kept(old(layout).boundary_comments@, final(layout).boundary_comments@),
{
    analyze_control_header_layout(tree, n, &mut layout.control_headers);
    let exprs = collect_stat_exprs(tree, n, false);
    assert(as_ints(exprs@) =~= stat_exprs(tree, n as int, false));
    analyze_control_header_expr_list_layout(tree, n, &exprs, &mut layout.control_header_expr_lists);
    analyze_anchor_and_block(tree, n, TK_DO, layout);
}

/// Records the header trivia and iterated values of a generic `for` and the comments after its
/// `in` and its `do`.
fn analyze_for_range_stat_layout(tree: &SyntaxTree, n: usize, layout: &mut RootLayoutModel)
    requires
        tree.wf(),
        n < tree.elems.len(),
        old(layout).wf(),
    ensures
        final(layout).wf(),
        same_fields(old(layout), final(layout), false, false, false, true, true, true),
        final(layout).control_headers@ == control_update(old(layout).control_headers@, tree, n as int),
        final(layout).control_header_expr_lists@ == expr_list_update(
            old(layout).control_header_expr_lists@,
            tree,
            n as int,
            stat_exprs(tree, n as int, false),
            false,
        ),
        anchors_kept(old(layout).boundary_comments@, final(layout).boundary_comments@),
{
    analyze_control_header_layout(tree, n, &mut layout.control_headers);
    let exprs = collect_stat_exprs(tree, n, false);
    assert(as_ints(exprs@) =~= stat_exprs(tree, n as int, false));
    analyze_control_header_expr_list_layout(tree, n, &exprs, &mut layout.control_header_expr_lists);
    let owner = tree.id(n);
    let in_token = first_direct_token(tree, n, TK_IN);
    analyze_boundary_comments_after_token(tree, n, owner, TK_IN, in_token, layout);
    analyze_anchor_and_block(tree, n, TK_DO, layout);
}

/// Records the header trivia of a `repeat` statement.
fn analyze_repeat_stat_layout(tree: &SyntaxTree, n: usize, layout: &mut RootLayoutModel)
    requires
        tree.wf(),
        n < tree.elems.len(),
        old(layout).wf(),
    ensures
        final(layout).wf(),
        same_fields(old(layout), final(layout), false, false, false, true, false, false),
        final(layout).control_headers@ == control_update(old(layout).control_headers@, tree, n as int),
        anchors_kept(old(layout).boundary_comments@, final(layout).boundary_comments@),
{
    analyze_control_header_layout(tree, n, &mut layout.control_headers);
}

/// Records the header trivia of an `if` statement and of its `elseif` clauses, and the comments
/// after each `then` and `else`.
fn analyze_if_stat_layout(tree: &SyntaxTree, n: usize, layout: &mut RootLayoutModel)
    requires
        tree.wf(),
        n < tree.elems.len(),
        old(layout).wf(),
    ensures
        final(layout).wf(),
        same_fields(old(layout), final(layout), false, false, false, true, false, true),
        tree.elems@[n as int].kind == SK_IF_STAT && (match first_token_of_kind(tree, direct_children(tree, n as int), TK_THEN) {
            Some(a) => comments_at_or_after(tree, child_nodes(tree, n as int), tree.elems@[a].text_end as int).len() > 0,
            None => false,
        } || anchor_comments(old(layout).boundary_comments@, tree.spec_id(n as int), TK_THEN) is Some) ==> anchor_comments(
            final(layout).boundary_comments@,
            tree.spec_id(n as int),
            TK_THEN,
        ) is Some,
        anchors_kept(old(layout).boundary_comments@, final(layout).boundary_comments@),
        tree.elems@[n as int].kind == SK_IF_STAT ==> match first_child_in(
            tree,
            child_nodes(tree, n as int),
            SK_ELSE_CLAUSE_STAT,
            SK_ELSE_CLAUSE_STAT,
        ) {
            Some(c) => has_boundary(tree, c, TK_ELSE) ==> anchor_comments(final(layout).boundary_comments@, tree.spec_id(c), TK_ELSE)
                is Some,
            None => true,
        },
        forall|q: int|
            #[trigger] direct_children(tree, n as int).contains(q) && crate::syntax::node_is(tree, q, SK_ELSE_IF_CLAUSE_STAT)
                && has_boundary(tree, q, TK_THEN) ==> anchor_comments(final(layout).boundary_comments@, tree.spec_id(q), TK_THEN)
                is Some,
{
    analyze_control_header_layout(tree, n, &mut layout.control_headers);
    let owner = tree.id(n);
    let then_token = first_direct_token(tree, n, TK_THEN);
    analyze_boundary_comments_after_token(tree, n, owner, TK_THEN, then_token, layout);
    let ghost after_then = *layout;
    let end = tree.elems[n].end;
    let mut pos = n + 1;
    let ghost mut visited: Seq<int> = Seq::empty();
    while pos < end
        invariant
            crate::syntax::direct_from(tree, n as int + 1, end as int) == visited + crate::syntax::direct_from(
                tree,
                pos as int,
                end as int,
            ),
            forall|q: int|
                #[trigger] visited.contains(q) && crate::syntax::node_is(tree, q, SK_ELSE_IF_CLAUSE_STAT) && has_boundary(
                    tree,
                    q,
                    TK_THEN,
                ) ==> anchor_comments(layout.boundary_comments@, tree.spec_id(q), TK_THEN) is Some,
            tree.wf(),
            n < tree.elems.len(),
            end == tree.elems@[n as int].end,
            end <= tree.elems.len(),
            n < pos,
            layout.wf(),
            same_fields(old(layout), layout, false, false, false, true, false, true),
            tree.elems@[n as int].kind == SK_IF_STAT && anchor_comments(after_then.boundary_comments@, tree.spec_id(n as int), TK_THEN) is Some
                ==> anchor_comments(layout.boundary_comments@, tree.spec_id(n as int), TK_THEN) is Some,
            anchors_kept(after_then.boundary_comments@, layout.boundary_comments@),
        decreases tree.elems.len() - pos,
    {
        let next = tree.elems[pos].end;
        assert(pos < next <= tree.elems.len());
        if tree.elems[pos].is_node && tree.elems[pos].kind == SK_ELSE_IF_CLAUSE_STAT {
            analyze_control_header_layout(tree, pos, &mut layout.control_headers);
            let ghost before = layout.boundary_comments@;
            analyze_anchor_and_block(tree, pos, TK_THEN, layout);
            proof {
                lemma_anchors_trans(after_then.boundary_comments@, before, layout.boundary_comments@);
            }
            assert(tree.spec_id(pos as int) != tree.spec_id(n as int) || tree.elems@[n as int].kind != SK_IF_STAT);
        }
        proof {
            let rest = crate::syntax::direct_from(tree, pos as int, end as int);
            if next < end {
                assert(rest == seq![pos as int] + crate::syntax::direct_from(tree, next as int, end as int));
            } else {
                assert(rest == seq![pos as int]);
                assert(crate::syntax::direct_from(tree, next as int, end as int) == Seq::<int>::empty());
            }
            let nv = visited.push(pos as int);
            assert(visited + rest =~= nv + crate::syntax::direct_from(tree, next as int, end as int));
            assert forall|q: int|
                #[trigger] nv.contains(q) && crate::syntax::node_is(tree, q, SK_ELSE_IF_CLAUSE_STAT) && has_boundary(tree, q, TK_THEN)
                    implies anchor_comments(layout.boundary_comments@, tree.spec_id(q), TK_THEN) is Some by {
                if q != pos as int {
                    assert(visited.contains(q));
                }
            }
            visited = nv;
        }
        pos = next;
    }
    proof {
        assert(crate::syntax::direct_from(tree, pos as int, end as int) == Seq::<int>::empty());
        assert(visited =~= direct_children(tree, n as int));
    }
    let ghost after_loop = layout.boundary_comments@;
    match first_child_node_in(tree, n, SK_ELSE_CLAUSE_STAT, SK_ELSE_CLAUSE_STAT) {
        Some(c) => analyze_anchor_and_block(tree, c, TK_ELSE, layout),
        None => {},
    }
    let ghost after_else = layout.boundary_comments@;
    match first_child_node_in(tree, n, SK_BLOCK, SK_BLOCK) {
        Some(b) => analyze_boundary_comments_in_block(tree, b, owner, TK_THEN, layout),
        None => {},
    }
    proof {
        assert forall|q: int|
            #[trigger] direct_children(tree, n as int).contains(q) && crate::syntax::node_is(tree, q, SK_ELSE_IF_CLAUSE_STAT)
                && has_boundary(tree, q, TK_THEN) implies anchor_comments(layout.boundary_comments@, tree.spec_id(q), TK_THEN)
                is Some by {
            assert(anchor_comments(after_loop, tree.spec_id(q), TK_THEN) is Some);
            assert(anchor_comments(after_else, tree.spec_id(q), TK_THEN) is Some);
        }
        lemma_anchors_trans(after_loop, after_else, layout.boundary_comments@);
        lemma_anchors_trans(after_then.boundary_comments@, after_loop, layout.boundary_comments@);
        lemma_anchors_trans(old(layout).boundary_comments@, after_then.boundary_comments@, layout.boundary_comments@);
    }
}

/// Records, for a function statement, the comments after the `)` of its parameters, in the
/// statement, in the closure and at the top of the body.
fn analyze_func_stat_layout(tree: &SyntaxTree, n: usize, layout: &mut RootLayoutModel)
    requires
        tree.wf(),
        n < tree.elems.len(),
        old(layout).wf(),
    ensures
        final(layout).wf(),
        same_fields(old(layout), final(layout), false, false, false, false, false, true),
        forall|o: LuaSyntaxId, k: u16|
            !(o == tree.spec_id(n as int) && k == TK_RIGHT_PAREN) ==> #[trigger] anchor_comments(final(layout).boundary_comments@, o, k)
                == anchor_comments(old(layout).boundary_comments@, o, k),
        (match first_child_in(tree, child_nodes(tree, n as int), SK_CLOSURE_EXPR, SK_CLOSURE_EXPR) {
            Some(c) => match first_child_in(tree, child_nodes(tree, c), SK_PARAM_LIST, SK_PARAM_LIST) {
                Some(pl) => match first_token_of_kind(tree, direct_children(tree, pl), TK_RIGHT_PAREN) {
                    Some(a) => comments_at_or_after(tree, child_nodes(tree, n as int), tree.elems@[a].text_end as int).len() > 0,
                    None => false,
                },
                None => false,
            },
            None => false,
        } || anchor_comments(old(layout).boundary_comments@, tree.spec_id(n as int), TK_RIGHT_PAREN) is Some) ==> anchor_comments(
            final(layout).boundary_comments@,
            tree.spec_id(n as int),
            TK_RIGHT_PAREN,
        ) is Some,
        anchors_kept(old(layout).boundary_comments@, final(layout).boundary_comments@),
{
    let closure = match first_child_node_in(tree, n, SK_CLOSURE_EXPR, SK_CLOSURE_EXPR) {
        Some(c) => c,
        None => return ,
    };
    let params = match first_child_node_in(tree, closure, SK_PARAM_LIST, SK_PARAM_LIST) {
        Some(p) => p,
        None => return ,
    };
    let owner = tree.id(n);
    let right_paren = first_direct_token(tree, params, TK_RIGHT_PAREN);
    analyze_boundary_comments_after_token(tree, n, owner, TK_RIGHT_PAREN, right_paren, layout);
    analyze_boundary_comments_after_token(tree, closure, owner, TK_RIGHT_PAREN, right_paren, layout);
    match first_child_node_in(tree, closure, SK_BLOCK, SK_BLOCK) {
        Some(b) => analyze_boundary_comments_in_block(tree, b, owner, TK_RIGHT_PAREN, layout),
        None => {},
    }
}

/// Records the comments after the `do` of a `do` block.
fn analyze_do_stat_layout(tree: &SyntaxTree, n: usize, layout: &mut RootLayoutModel)
    requires
        tree.wf(),
        n < tree.elems.len(),
        old(layout).wf(),
    ensures
        final(layout).wf(),
        same_fields(old(layout), final(layout), false, false, false, false, false, true),
        forall|o: LuaSyntaxId, k: u16|
            !(o == tree.spec_id(n as int) && k == TK_DO) ==> #[trigger] anchor_comments(final(layout).boundary_comments@, o, k)
                == anchor_comments(old(layout).boundary_comments@, o, k),
        (match first_token_of_kind(tree, direct_children(tree, n as int), TK_DO) {
            Some(a) => comments_at_or_after(tree, child_nodes(tree, n as int), tree.elems@[a].text_end as int).len() > 0,
            None => false,
        } || anchor_comments(old(layout).boundary_comments@, tree.spec_id(n as int), TK_DO) is Some) ==> anchor_comments(
            final(layout).boundary_comments@,
            tree.spec_id(n as int),
            TK_DO,
        ) is Some,
        anchors_kept(old(layout).boundary_comments@, final(layout).boundary_comments@),
{
    analyze_anchor_and_block(tree, n, TK_DO, layout);
}

/// The statement trivia recorded for the nodes before index `i`: each `local`, assignment and
/// `return` in turn.
pub open spec fn trivia_walk(tree: &SyntaxTree, m: Map<LuaSyntaxId, StatementTriviaLayoutPlan>, i: nat) -> Map<
    LuaSyntaxId,
    StatementTriviaLayoutPlan,
>
    decreases i,
{
    if i == 0 {
        m
    } else {
        let prev = trivia_walk(tree, m, (i - 1) as nat);
        let e = tree.elems@[i - 1];
        if e.is_node && (e.kind == SK_LOCAL_STAT || e.kind == SK_ASSIGN_STAT || e.kind == SK_RETURN_STAT) {
            trivia_update(prev, tree, i - 1)
        } else {
            prev
        }
    }
}

/// The statement value lists recorded for the nodes before index `i`.
pub open spec fn stat_lists_walk(tree: &SyntaxTree, m: Map<LuaSyntaxId, StatementExprListLayoutPlan>, i: nat) -> Map<
    LuaSyntaxId,
    StatementExprListLayoutPlan,
>
    decreases i,
{
    if i == 0 {
        m
    } else {
        let prev = stat_lists_walk(tree, m, (i - 1) as nat);
        let e = tree.elems@[i - 1];
        if e.is_node && (e.kind == SK_LOCAL_STAT || e.kind == SK_ASSIGN_STAT || e.kind == SK_RETURN_STAT) {
            expr_list_update(prev, tree, i - 1, stat_exprs(tree, i - 1, e.kind == SK_ASSIGN_STAT), true)
        } else {
            prev
        }
    }
}

/// The layout of one bracketed sequence: where its first item starts, and whether it keeps
/// several lines.
pub open spec fn sequence_plan(tree: &SyntaxTree, n: int) -> Option<ExprSequenceLayoutPlan> {
    let k = tree.elems@[n].kind;
    if !tree.elems@[n].is_node {
        None
    } else if k == SK_PARAM_LIST {
        Some(ExprSequenceLayoutPlan {
            first_line_prefix_width: first_child_column(tree, n, SK_PARAM_NAME, SK_PARAM_NAME),
            preserve_multiline: false,
        })
    } else if k == SK_CALL_ARG_LIST {
        Some(ExprSequenceLayoutPlan {
            first_line_prefix_width: first_child_column(tree, n, SK_PAREN_EXPR, SK_SAFE_INDEX_EXPR),
            preserve_multiline: tree.spec_text(n).contains('\n'),
        })
    } else if k == SK_TABLE_ARRAY_EXPR || k == SK_TABLE_OBJECT_EXPR {
        Some(ExprSequenceLayoutPlan {
            first_line_prefix_width: first_child_column(tree, n, SK_TABLE_FIELD_ASSIGN, SK_TABLE_FIELD_VALUE),
            preserve_multiline: false,
        })
    } else {
        None
    }
}

/// The sequence layouts recorded for the nodes before index `i`.
pub open spec fn seqs_walk(tree: &SyntaxTree, m: Map<LuaSyntaxId, ExprSequenceLayoutPlan>, i: nat) -> Map<
    LuaSyntaxId,
    ExprSequenceLayoutPlan,
>
    decreases i,
{
    if i == 0 {
        m
    } else {
        let prev = seqs_walk(tree, m, (i - 1) as nat);
        match sequence_plan(tree, i - 1) {
            Some(p) => prev.insert(tree.spec_id(i - 1), p),
            None => prev,
        }
    }
}

/// Runs the layout analysis of each node of the tree, in preorder.
fn analyze_node_layouts(tree: &SyntaxTree, layout: &mut RootLayoutModel)
    requires
        tree.wf(),
        old(layout).wf(),
    ensures
        final(layout).wf(),
        same_fields(old(layout), final(layout), true, true, true, true, true, true),
        final(layout).statement_trivia@ == trivia_walk(tree, old(layout).statement_trivia@, tree.elems.len() as nat),
        final(layout).statement_expr_lists@ == stat_lists_walk(tree, old(layout).statement_expr_lists@, tree.elems.len() as nat),
        final(layout).expr_sequences@ == seqs_walk(tree, old(layout).expr_sequences@, tree.elems.len() as nat),
        if_boundaries(tree, final(layout).boundary_comments@, tree.elems.len() as int),
{
    let mut i: usize = 0;
    while i < tree.elems.len()
        invariant
            tree.wf(),
            layout.wf(),
            i <= tree.elems.len(),
            same_fields(old(layout), layout, true, true, true, true, true, true),
            layout.statement_trivia@ == trivia_walk(tree, old(layout).statement_trivia@, i as nat),
            layout.statement_expr_lists@ == stat_lists_walk(tree, old(layout).statement_expr_lists@, i as nat),
            layout.expr_sequences@ == seqs_walk(tree, old(layout).expr_sequences@, i as nat),
            if_boundaries(tree, layout.boundary_comments@, i as int),
        decreases tree.elems.len() - i,
    {
        let ghost before = layout.boundary_comments@;
        if tree.elems[i].is_node {
            let k = tree.elems[i].kind;
            if k == SK_LOCAL_STAT {
                analyze_local_stat_layout(tree, i, layout);
            } else if k == SK_ASSIGN_STAT {
                analyze_assign_stat_layout(tree, i, layout);
            } else if k == SK_RETURN_STAT {
                analyze_return_stat_layout(tree, i, layout);
            } else if k == SK_WHILE_STAT {
                analyze_while_stat_layout(tree, i, layout);
            } else if k == SK_FOR_STAT {
                analyze_for_stat_layout(tree, i, layout);
            } else if k == SK_FOR_RANGE_STAT {
                analyze_for_range_stat_layout(tree, i, layout);
            } else if k == SK_REPEAT_STAT {
                analyze_repeat_stat_layout(tree, i, layout);
            } else if k == SK_IF_STAT {
                analyze_if_stat_layout(tree, i, layout);
            } else if k == SK_FUNC_STAT || k == SK_LOCAL_FUNC_STAT {
                analyze_func_stat_layout(tree, i, layout);
            } else if k == SK_DO_STAT {
                analyze_do_stat_layout(tree, i, layout);
            } else if k == SK_PARAM_LIST {
                analyze_param_list_layout(tree, i, &mut layout.expr_sequences);
            } else if k == SK_CALL_ARG_LIST {
                analyze_call_arg_list_layout(tree, i, &mut layout.expr_sequences);
            } else if k == SK_TABLE_ARRAY_EXPR || k == SK_TABLE_OBJECT_EXPR || k
                == SK_TABLE_EMPTY_EXPR {
                analyze_table_expr_layout(tree, i, &mut layout.expr_sequences);
            }
        }
        proof {
            assert(anchors_kept(before, layout.boundary_comments@));
            lemma_if_boundaries_kept(tree, before, layout.boundary_comments@, i as int);
            assert(if_boundaries(tree, layout.boundary_comments@, i + 1)) by {
                assert forall|n: int| 0 <= n < i + 1 && #[trigger] crate::syntax::node_is(tree, n, SK_IF_STAT) implies {
                    &&& has_boundary(tree, n, TK_THEN) ==> anchor_comments(layout.boundary_comments@, tree.spec_id(n), TK_THEN) is Some
                    &&& match first_child_in(tree, child_nodes(tree, n), SK_ELSE_CLAUSE_STAT, SK_ELSE_CLAUSE_STAT) {
                        Some(c) => has_boundary(tree, c, TK_ELSE) ==> anchor_comments(layout.boundary_comments@, tree.spec_id(c), TK_ELSE) is Some,
                        None => true,
                    }
                    &&& forall|q: int|
                        #[trigger] direct_children(tree, n).contains(q) && crate::syntax::node_is(tree, q, SK_ELSE_IF_CLAUSE_STAT)
                            && has_boundary(tree, q, TK_THEN) ==> anchor_comments(layout.boundary_comments@, tree.spec_id(q), TK_THEN) is Some
                } by {
                    if n < i {
                        assert(crate::syntax::node_is(tree, n, SK_IF_STAT));
                    }
                }
            }
        }
        i = i + 1;
    }
}

/// The layout analysis of a chunk: the layout tree with its `fmt: off` regions, then the
/// layout options of each statement, control header and bracketed sequence. The spacing and
/// line-break decisions of `plan` are kept.
pub fn analyze_root_layout(ctx: &FormatContext, tree: &SyntaxTree, plan: RootFormatPlan) -> (r: RootFormatPlan)
    requires
        tree.wf(),
        plan.wf(),
    ensures
        r.wf(),
        r.spacing.shebang() == plan.spacing.shebang(),
        r.spacing.left_map() == plan.spacing.left_map(),
        r.spacing.right_map() == plan.spacing.right_map(),
        r.spacing.replace_map() == plan.spacing.replace_map(),
        r.line_breaks == plan.line_breaks,
        r.layout.format_block_with_legacy,
        tree.elems.len() > 0 ==> r.layout.format_disabled@.dom() == plan.layout.format_disabled@.dom()
            + subtree_disabled(tree, 0) && plans_match(tree, r.layout.root_nodes@, child_nodes(tree, 0)),
        tree.elems.len() == 0 ==> r.layout.root_nodes@.len() == 0
            && r.layout.format_disabled@ == plan.layout.format_disabled@,
        r.layout.statement_trivia@ == trivia_walk(tree, plan.layout.statement_trivia@, tree.elems.len() as nat),
        r.layout.statement_expr_lists@ == stat_lists_walk(tree, plan.layout.statement_expr_lists@, tree.elems.len() as nat),
        r.layout.expr_sequences@ == seqs_walk(tree, plan.layout.expr_sequences@, tree.elems.len() as nat),
        if_boundaries(tree, r.layout.boundary_comments@, tree.elems.len() as int),
{
    let mut plan = plan;
    plan.layout.format_block_with_legacy = true;
    plan.layout.root_nodes = collect_root_layout_nodes(tree, &mut plan.layout.format_disabled);
    analyze_node_layouts(tree, &mut plan.layout);
    plan
}


proof fn lemma_level_disabled_grows(tree: &SyntaxTree, sibs: Seq<int>, k: int, m: int)
    requires
        0 <= k < m <= sibs.len(),
        sibling_disabled(tree, sibs, k),
    ensures
        level_disabled(tree, sibs, m).contains(tree.spec_id(sibs[k])),
    decreases m - k,
{
    if m > k + 1 {
        lemma_level_disabled_grows(tree, sibs, k, m - 1);
    }
}

proof fn lemma_off_until(tree: &SyntaxTree, sibs: Seq<int>, j: int, i: int)
    requires
        0 <= j < i <= sibs.len(),
        directive_of(tree, sibs[j]) == Some(CommentFormatDirective::FormatOff),
        forall|x: int| j < x < i ==> directive_of(tree, #[trigger] sibs[x]) != Some(
            CommentFormatDirective::FormatOn,
        ),
    ensures
        off_after(tree, sibs, i),
    decreases i - j,
{
    if i > j + 1 {
        lemma_off_until(tree, sibs, j, i - 1);
    }
}

/// A comment that carries a formatting directive (`fmt: off`, `fmt: on`) is always written as
/// it stands.
pub proof fn law_format_directives_stay_as_written(tree: &SyntaxTree, n: int, k: int)
    requires
        0 <= n < tree.elems.len(),
        0 <= k < child_nodes(tree, n).len(),
        directive_of(tree, child_nodes(tree, n)[k]) is Some,
    ensures
        subtree_disabled(tree, n).contains(tree.spec_id(child_nodes(tree, n)[k])),
{
    let sibs = child_nodes(tree, n);
    lemma_level_disabled_grows(tree, sibs, k, sibs.len() as int);
}

/// Every node that follows an `fmt: off` comment among its siblings, with no `fmt: on`
/// between them, is written as it stands.
pub proof fn law_format_off_covers_following_nodes(tree: &SyntaxTree, n: int, j: int, k: int)
    requires
        0 <= n < tree.elems.len(),
        0 <= j < k < child_nodes(tree, n).len(),
        directive_of(tree, child_nodes(tree, n)[j]) == Some(CommentFormatDirective::FormatOff),
        forall|x: int|
            j < x < k ==> directive_of(tree, #[trigger] child_nodes(tree, n)[x]) != Some(
                CommentFormatDirective::FormatOn,
            ),
    ensures
        subtree_disabled(tree, n).contains(tree.spec_id(child_nodes(tree, n)[k])),
{
    let sibs = child_nodes(tree, n);
    lemma_off_until(tree, sibs, j, k);
    lemma_level_disabled_grows(tree, sibs, k, sibs.len() as int);
}

/// A node right after an `fmt: on` comment that carries no directive of its own is formatted
/// again.
pub proof fn law_format_on_ends_the_region(tree: &SyntaxTree, sibs: Seq<int>, k: int)
    requires
        0 < k < sibs.len(),
        directive_of(tree, sibs[k - 1]) == Some(CommentFormatDirective::FormatOn),
        directive_of(tree, sibs[k]) is None,
    ensures
        !sibling_disabled(tree, sibs, k),
{
}


proof fn lemma_children_disabled_holds(tree: &SyntaxTree, m: int, i: int, k: int)
    requires
        0 <= m < tree.elems.len(),
        0 <= i < k <= child_nodes(tree, m).len(),
        !is_comment_node(tree, child_nodes(tree, m)[i]),
    ensures
        subtree_disabled(tree, child_nodes(tree, m)[i]).subset_of(children_disabled(tree, m, k)),
    decreases k,
{
    lemma_child_nodes_bounds(tree, m);
    if i < k - 1 {
        lemma_children_disabled_holds(tree, m, i, k - 1);
    }
}

/// What `fmt: off` puts out of formatting inside a child node that is not a comment, it puts
/// out of formatting inside the parent too: directives reach into nested blocks.
pub proof fn law_format_off_reaches_nested_nodes(tree: &SyntaxTree, m: int, i: int)
    requires
        0 <= m < tree.elems.len(),
        0 <= i < child_nodes(tree, m).len(),
        !is_comment_node(tree, child_nodes(tree, m)[i]),
    ensures
        subtree_disabled(tree, child_nodes(tree, m)[i]).subset_of(subtree_disabled(tree, m)),
{
    lemma_children_disabled_holds(tree, m, i, child_nodes(tree, m).len() as int);
}

} // verus!
