//! Column alignment of consecutive `local` and assignment statements: their `=` signs and
//! their trailing comments.

use vstd::prelude::*;

use crate::kinds::{
    SK_ASSIGN_STAT, SK_BLOCK, SK_CALL_ARG_LIST, SK_COMMENT, SK_LOCAL_STAT, SK_PARAM_LIST,
    SK_TABLE_ARRAY_EXPR, SK_TABLE_FIELD_ASSIGN, SK_TABLE_OBJECT_EXPR, TK_ASSIGN, TK_COMMA,
    TK_END_OF_LINE, TK_SEMICOLON, TK_WHITESPACE,
};
use crate::model::RootFormatPlan;
use crate::syntax::SyntaxTree;
use crate::FormatContext;

verus! {

/// The direct children of node `n`, nodes and tokens, by index.
fn direct_children(tree: &SyntaxTree, n: usize) -> (r: Vec<usize>)
    requires
        tree.wf(),
        n < tree.elems.len(),
    ensures
        forall|k: int| 0 <= k < r@.len() ==> #[trigger] r@[k] < tree.elems.len(),
        r@.map_values(|x: usize| x as int) == crate::syntax::direct_children(tree, n as int),
{
    let end = tree.elems[n].end;
    let mut out: Vec<usize> = Vec::new();
    let mut pos = n + 1;
    while pos < end
        invariant
            tree.wf(),
            n < tree.elems.len(),
            end == tree.elems@[n as int].end,
            end <= tree.elems.len(),
            n < pos,
            forall|k: int| 0 <= k < out@.len() ==> #[trigger] out@[k] < tree.elems.len(),
            out@.map_values(|x: usize| x as int) + crate::syntax::direct_from(tree, pos as int, end as int)
                == crate::syntax::direct_from(tree, n + 1, end as int),
        decreases tree.elems.len() - pos,
    {
        let ghost before = out@;
        out.push(pos);
        let next = tree.elems[pos].end;
        assert(pos < next <= tree.elems.len());
        proof {
            assert(out@.map_values(|x: usize| x as int) =~= before.map_values(|x: usize| x as int).push(pos as int));
            if (next as int) < (end as int) {
                assert(crate::syntax::direct_from(tree, pos as int, end as int) == seq![pos as int]
                    + crate::syntax::direct_from(tree, next as int, end as int));
                assert(before.map_values(|x: usize| x as int) + crate::syntax::direct_from(tree, pos as int, end as int)
                    =~= out@.map_values(|x: usize| x as int) + crate::syntax::direct_from(tree, next as int, end as int));
            } else {
                assert(crate::syntax::direct_from(tree, pos as int, end as int) == seq![pos as int]);
                assert(crate::syntax::direct_from(tree, next as int, end as int) =~= Seq::<int>::empty());
                assert(before.map_values(|x: usize| x as int) + crate::syntax::direct_from(tree, pos as int, end as int)
                    =~= out@.map_values(|x: usize| x as int) + crate::syntax::direct_from(tree, next as int, end as int));
            }
        }
        pos = next;
    }
    proof {
        assert(crate::syntax::direct_from(tree, pos as int, end as int) =~= Seq::<int>::empty());
        assert(out@.map_values(|x: usize| x as int) + Seq::<int>::empty() =~= out@.map_values(|x: usize| x as int));
    }
    out
}

/// Whether element `i` is a comment node.
fn is_comment(tree: &SyntaxTree, i: usize) -> (r: bool)
    ensures
        r == (i < tree.elems.len() && tree.elems@[i as int].is_node && tree.elems@[i as int].kind
            == SK_COMMENT),
{
    i < tree.elems.len() && tree.elems[i].is_node && tree.elems[i].kind == SK_COMMENT
}

/// Element `s` is white space or a comment.
pub open spec fn is_filler(tree: &SyntaxTree, s: int) -> bool {
    let e = tree.elems@[s];
    (!e.is_node && e.kind == TK_WHITESPACE) || (e.is_node && e.kind == SK_COMMENT)
}

/// Element `s` is a line break.
pub open spec fn is_line_break(tree: &SyntaxTree, s: int) -> bool {
    !tree.elems@[s].is_node && tree.elems@[s].kind == TK_END_OF_LINE
}

/// Element `s` is code: neither white space, a comment nor a line break.
pub open spec fn is_code(tree: &SyntaxTree, s: int) -> bool {
    !is_filler(tree, s) && !is_line_break(tree, s)
}

/// Among the siblings `sibs`, code stands before sibling `k` on its line: walking back from
/// it over white space and comments, code comes before a line break.
pub open spec fn code_before(tree: &SyntaxTree, sibs: Seq<usize>, k: int) -> bool {
    exists|i: int|
        0 <= i < k && i < sibs.len() && is_code(tree, #[trigger] sibs[i] as int) && forall|j: int|
            i < j < k && j < sibs.len() ==> is_filler(tree, #[trigger] sibs[j] as int)
}

/// Among the siblings `sibs`, code stands after sibling `k`, past white space and comments,
/// and past line breaks too unless `same_line`.
pub open spec fn code_after_spec(tree: &SyntaxTree, sibs: Seq<usize>, k: int, same_line: bool) -> bool {
    exists|i: int|
        k < i < sibs.len() && is_code(tree, #[trigger] sibs[i] as int) && forall|j: int|
            k < j < i ==> (is_filler(tree, #[trigger] sibs[j] as int) || (!same_line && is_line_break(tree, sibs[j] as int)))
}

/// Whether, among the siblings `sibs`, something other than white space and comments comes
/// before sibling `k` on its line.
fn code_before_on_line(tree: &SyntaxTree, sibs: &Vec<usize>, k: usize) -> (r: bool)
    requires
        tree.wf(),
        forall|j: int| 0 <= j < sibs@.len() ==> #[trigger] sibs@[j] < tree.elems.len(),
    ensures
        r == code_before(tree, sibs@, k as int),
{
    let mut i = if k <= sibs.len() {
        k
    } else {
        sibs.len()
    };
    while i > 0
        invariant
            tree.wf(),
            i <= sibs.len(),
            i <= k,
            forall|j: int| 0 <= j < sibs@.len() ==> #[trigger] sibs@[j] < tree.elems.len(),
            forall|j: int| i <= j < k && j < sibs@.len() ==> is_filler(tree, #[trigger] sibs@[j] as int),
        decreases i,
    {
        let s = sibs[i - 1];
        let e = tree.elems[s];
        if !e.is_node && e.kind == TK_WHITESPACE || is_comment(tree, s) {
        } else if !e.is_node && e.kind == TK_END_OF_LINE {
            assert(is_line_break(tree, sibs@[i - 1] as int));
            assert forall|i2: int|
                0 <= i2 < k && i2 < sibs@.len() && is_code(tree, #[trigger] sibs@[i2] as int) implies !(forall|j: int|
                    i2 < j < k && j < sibs@.len() ==> is_filler(tree, #[trigger] sibs@[j] as int)) by {
                if i2 < i - 1 {
                    assert(!is_filler(tree, sibs@[i - 1] as int));
                } else if i2 > i - 1 {
                    assert(is_filler(tree, sibs@[i2] as int));
                }
            }
            return false;
        } else {
            assert(is_code(tree, sibs@[i - 1] as int));
            return true;
        }
        i = i - 1;
    }
    assert forall|i2: int|
        0 <= i2 < k && i2 < sibs@.len() && is_code(tree, #[trigger] sibs@[i2] as int) implies false by {
        assert(is_filler(tree, sibs@[i2] as int));
    }
    false
}

/// Whether, among the siblings `sibs`, something other than white space and comments comes
/// after sibling `k`; with `same_line`, only on its line.
fn code_after(tree: &SyntaxTree, sibs: &Vec<usize>, k: usize, same_line: bool) -> (r: bool)
    requires
        tree.wf(),
        forall|j: int| 0 <= j < sibs@.len() ==> #[trigger] sibs@[j] < tree.elems.len(),
    ensures
        r == code_after_spec(tree, sibs@, k as int, same_line),
{
    let mut i = k.saturating_add(1);
    while i < sibs.len()
        invariant
            tree.wf(),
            forall|j: int| 0 <= j < sibs@.len() ==> #[trigger] sibs@[j] < tree.elems.len(),
            k < i || i >= sibs.len(),
            forall|j: int| k < j < i && j < sibs@.len() ==> (is_filler(tree, #[trigger] sibs@[j] as int) || (!same_line && is_line_break(tree, sibs@[j] as int))),
        decreases sibs.len() - i,
    {
        let s = sibs[i];
        let e = tree.elems[s];
        if !e.is_node && e.kind == TK_WHITESPACE || is_comment(tree, s) {
        } else if !e.is_node && e.kind == TK_END_OF_LINE {
            if same_line {
                assert forall|i2: int|
                    k < i2 < sibs@.len() && is_code(tree, #[trigger] sibs@[i2] as int) implies !(forall|j: int|
                        k < j < i2 ==> (is_filler(tree, #[trigger] sibs@[j] as int) || (!same_line && is_line_break(tree, sibs@[j] as int)))) by {
                    if i2 > i {
                        assert(!is_filler(tree, sibs@[i as int] as int));
                    } else if i2 < i {
                        assert(is_filler(tree, sibs@[i2] as int) || (!same_line && is_line_break(tree, sibs@[i2] as int)));
                    }
                }
                return false;
            }
        } else {
            assert(is_code(tree, sibs@[i as int] as int));
            return true;
        }
        i = i + 1;
    }
    assert forall|i2: int|
        k < i2 < sibs@.len() && is_code(tree, #[trigger] sibs@[i2] as int) implies false by {
        assert(is_filler(tree, sibs@[i2] as int) || (!same_line && is_line_break(tree, sibs@[i2] as int)));
    }
    false
}

/// The comment that trails statement `s` (sibling `k` of `sibs`) on its last line: a comment
/// inside it after its code, or one of the next siblings on the same line.
fn trailing_comment_of(tree: &SyntaxTree, sibs: &Vec<usize>, k: usize, s: usize) -> (r: Option<usize>)
    requires
        tree.wf(),
        s < tree.elems.len(),
        forall|j: int| 0 <= j < sibs@.len() ==> #[trigger] sibs@[j] < tree.elems.len(),
    ensures
        r matches Some(c) ==> c < tree.elems.len(),
        r == trailing_spec(tree, sibs@, k as int, s as int),
{
    let inner = direct_children(tree, s);
    proof {
        assert(inner@ =~= inner_seq(tree, s as int)) by {
            assert forall|q: int| 0 <= q < inner@.len() implies inner@[q] == inner_seq(tree, s as int)[q] by {
                assert(inner@.map_values(|x: usize| x as int)[q] == inner@[q] as int);
            }
        }
    }
    let mut i: usize = 0;
    while i < inner.len()
        invariant
            tree.wf(),
            i <= inner@.len(),
            inner@ == inner_seq(tree, s as int),
            forall|j: int| 0 <= j < inner@.len() ==> #[trigger] inner@[j] < tree.elems.len(),
            forall|q: int| 0 <= q < i ==> !#[trigger] inner_trailing(tree, inner@, q),
        decreases inner.len() - i,
    {
        let c = inner[i];
        if is_comment(tree, c) && code_before_on_line(tree, &inner, i) && !code_after(
            tree,
            &inner,
            i,
            false,
        ) {
            proof {
                assert(inner_trailing(tree, inner@, i as int));
                assert forall|q: int| #[trigger] inner_trailing(tree, inner@, q) && 0 <= q < inner@.len() implies q >= i by {}
                assert(first_inner_trailing(tree, inner@, i as int));
                assert forall|q: int| #[trigger] first_inner_trailing(tree, inner@, q) implies q == i as int by {
                    if q < i {
                    } else if q > i {
                        assert(!inner_trailing(tree, inner@, i as int));
                    }
                }
            }
            return Some(c);
        }
        i = i + 1;
    }
    proof {
        assert forall|q: int| !#[trigger] first_inner_trailing(tree, inner@, q) by {}
    }
    if k >= sibs.len() {
        return None;
    }
    let mut j = k + 1;
    let mut steps: usize = 0;
    while j < sibs.len() && steps < 4
        invariant
            tree.wf(),
            inner@ == inner_seq(tree, s as int),
            forall|q: int| !#[trigger] first_inner_trailing(tree, inner@, q),
            forall|i: int| 0 <= i < sibs@.len() ==> #[trigger] sibs@[i] < tree.elems.len(),
            steps <= 4,
            after_item(tree, sibs@, j as int, steps as nat) == after_item(tree, sibs@, k as int + 1, 0),
        decreases 4 - steps,
    {
        let n = sibs[j];
        let e = tree.elems[n];
        if is_comment(tree, n) {
            return Some(n);
        }
        if e.is_node || !(e.kind == TK_WHITESPACE || e.kind == TK_SEMICOLON || e.kind == TK_COMMA) {
            return None;
        }
        j = j + 1;
        steps = steps + 1;
    }
    None
}

/// The direct children of `s`, as element indices.
pub open spec fn inner_seq(tree: &SyntaxTree, s: int) -> Seq<usize> {
    crate::syntax::direct_children(tree, s).map_values(|x: int| x as usize)
}

/// Child `q` of `inner` is a comment with code before it on its line and none after it.
pub open spec fn inner_trailing(tree: &SyntaxTree, inner: Seq<usize>, q: int) -> bool {
    &&& 0 <= q < inner.len()
    &&& tree.elems@[inner[q] as int].is_node
    &&& tree.elems@[inner[q] as int].kind == SK_COMMENT
    &&& code_before(tree, inner, q)
    &&& !code_after_spec(tree, inner, q, false)
}

/// Child `q` is the first such.
pub open spec fn first_inner_trailing(tree: &SyntaxTree, inner: Seq<usize>, q: int) -> bool {
    inner_trailing(tree, inner, q) && forall|p: int| 0 <= p < q ==> !#[trigger] inner_trailing(tree, inner, p)
}

/// The comment among `sibs` from position `j` on, past at most `4 - steps` white space,
/// semicolon and comma tokens.
pub open spec fn after_item(tree: &SyntaxTree, sibs: Seq<usize>, j: int, steps: nat) -> Option<usize>
    decreases 4 - steps,
{
    if steps >= 4 || j < 0 || j >= sibs.len() {
        None
    } else {
        let n = sibs[j] as int;
        let e = tree.elems@[n];
        if e.is_node && e.kind == SK_COMMENT {
            Some(n as usize)
        } else if e.is_node || !(e.kind == TK_WHITESPACE || e.kind == TK_SEMICOLON || e.kind == TK_COMMA) {
            None
        } else {
            after_item(tree, sibs, j + 1, steps + 1)
        }
    }
}

/// The comment that trails statement `s`, the `k`-th of `sibs`: the first comment inside it
/// with code before it on its line and none after it, else a comment among the next siblings
/// past at most four white space, semicolon and comma tokens.
pub open spec fn trailing_spec(tree: &SyntaxTree, sibs: Seq<usize>, k: int, s: int) -> Option<usize> {
    let inner = inner_seq(tree, s);
    if exists|q: int| first_inner_trailing(tree, inner, q) {
        Some(inner[choose|q: int| first_inner_trailing(tree, inner, q)])
    } else {
        after_item(tree, sibs, k + 1, 0)
    }
}

/// Whether comment sibling `k` trails code on its line and nothing follows it there.
fn is_inline_trailing_comment(tree: &SyntaxTree, sibs: &Vec<usize>, k: usize) -> (r: bool)
    requires
        tree.wf(),
        forall|j: int| 0 <= j < sibs@.len() ==> #[trigger] sibs@[j] < tree.elems.len(),
    ensures
        r == (k < sibs@.len() && tree.elems@[sibs@[k as int] as int].is_node && tree.elems@[sibs@[k as int] as int].kind
            == SK_COMMENT && code_before(tree, sibs@, k as int) && !tree.spec_text(sibs@[k as int] as int).contains('\n')
            && !code_after_spec(tree, sibs@, k as int, true)),
{
    if k >= sibs.len() || !is_comment(tree, sibs[k]) {
        return false;
    }
    code_before_on_line(tree, sibs, k) && !tree.text_contains_newline(sibs[k]) && !code_after(
        tree,
        sibs,
        k,
        true,
    )
}

/// The number of blank lines before node `n`.
fn blank_lines_before(tree: &SyntaxTree, n: usize) -> (r: usize)
    requires
        tree.wf(),
    ensures
        forall|f: int|
            #[trigger] tree.first_solid(n as int, f) ==> ((exists|j: int|
                last_solid_before_pos(tree, tree.token_pos_spec(f), j) && r == blank_lines_of(
                    tree.line_breaks_in(j + 1, tree.token_pos_spec(f)) as int,
                )) || (r == 0 && forall|j: int|
                0 <= j < tree.token_pos_spec(f) && j < tree.tokens.len() ==> !tree.is_solid(#[trigger] tree.tokens@[j] as int))),
        (forall|f: int| !#[trigger] tree.first_solid(n as int, f)) ==> r == 0,
        no_blank_line_before(tree, n as int) ==> r == 0,
{
    let first = match tree.first_solid_token(n) {
        Some(f) => f,
        None => {
            proof {
                assert forall|f: int| !#[trigger] tree.first_solid(n as int, f) by {
                    if tree.first_solid(n as int, f) {
                        assert(tree.is_solid(f));
                    }
                }
            }
            return 0;
        },
    };
    proof {
        lemma_first_solid_unique(tree, n as int, first as int);
    }
    let p = tree.token_pos(first);
    let mut j = p;
    while j > 0
        invariant
            tree.wf(),
            p == tree.token_pos_spec(first as int),
            tree.first_solid(n as int, first as int),
            forall|g: int| #[trigger] tree.first_solid(n as int, g) ==> g == first as int,
            j <= p,
            j <= tree.tokens.len(),
            forall|k: int| j <= k < p && k < tree.tokens.len() ==> !tree.is_solid(#[trigger] tree.tokens@[k] as int),
        decreases j,
    {
        let u = tree.tokens[j - 1];
        if !tree.is_blank_token(u) {
            assert(tree.elems@[u as int].token_index == j - 1);
            assert(last_solid_before_pos(tree, p as int, j - 1));
            let nl = tree.newlines_between(u, first);
            return if nl > 1 {
                nl - 1
            } else {
                0
            };
        }
        j = j - 1;
    }
    0
}

/// The token that precedes element `x` and is not blank.
fn prev_solid(tree: &SyntaxTree, x: usize) -> (r: Option<usize>)
    requires
        tree.wf(),
    ensures
        r matches Some(u) ==> u < tree.elems.len() && exists|f: int|
            tree.first_solid(x as int, f) && last_solid_before_pos(tree, tree.token_pos_spec(f), tree.elems@[u as int].token_index as int)
                && tree.tokens@[tree.elems@[u as int].token_index as int] == u,
        r is None ==> forall|f: int|
            tree.first_solid(x as int, f) ==> forall|j: int|
                0 <= j < tree.token_pos_spec(f) && j < tree.tokens.len() ==> !tree.is_solid(#[trigger] tree.tokens@[j] as int),
{
    let first = match tree.first_solid_token(x) {
        Some(f) => f,
        None => return None,
    };
    proof {
        lemma_first_solid_unique(tree, x as int, first as int);
    }
    let p = tree.token_pos(first);
    let mut j = p;
    while j > 0
        invariant
            tree.wf(),
            p == tree.token_pos_spec(first as int),
            tree.first_solid(x as int, first as int),
            j <= p,
            j <= tree.tokens.len(),
            forall|k: int| j <= k < p && k < tree.tokens.len() ==> !tree.is_solid(#[trigger] tree.tokens@[k] as int),
        decreases j,
    {
        let u = tree.tokens[j - 1];
        if !tree.is_blank_token(u) {
            assert(tree.elems@[u as int].token_index == j - 1);
            assert(last_solid_before_pos(tree, p as int, j - 1));
            return Some(u);
        }
        j = j - 1;
    }
    None
}

/// Position `j` holds the last non-blank token before position `p`.
pub open spec fn last_solid_before_pos(tree: &SyntaxTree, p: int, j: int) -> bool {
    &&& 0 <= j < p
    &&& j < tree.tokens.len()
    &&& tree.is_solid(tree.tokens@[j] as int)
    &&& forall|k: int| j < k < p && k < tree.tokens.len() ==> !tree.is_solid(#[trigger] tree.tokens@[k] as int)
}

/// The first non-blank token of a subtree is unique.
proof fn lemma_first_solid_unique(tree: &SyntaxTree, x: int, f: int)
    requires
        tree.first_solid(x, f),
    ensures
        forall|g: int| #[trigger] tree.first_solid(x, g) ==> g == f,
{
    assert forall|g: int| #[trigger] tree.first_solid(x, g) implies g == f by {
        if g < f {
            assert(!tree.is_solid(g));
        } else if f < g {
            assert(!tree.is_solid(f));
        }
    }
}

/// The number of blank lines a line-break count leaves: one fewer, at least none.
pub open spec fn blank_lines_of(nl: int) -> int {
    if nl > 1 {
        nl - 1
    } else {
        0
    }
}

/// The width of the white space written before comment `c` in the source.
fn source_gap_before(tree: &SyntaxTree, c: usize) -> (r: usize)
    requires
        tree.wf(),
    ensures
        forall|f: int| #[trigger] tree.first_solid(c as int, f) ==> r == gap_run(tree, tree.token_pos_spec(f), 0),
        (forall|f: int| !#[trigger] tree.first_solid(c as int, f)) ==> r == 0,
{
    let first = match tree.first_solid_token(c) {
        Some(f) => f,
        None => {
            proof {
                assert forall|f: int| !#[trigger] tree.first_solid(c as int, f) by {
                    if tree.first_solid(c as int, f) {
                        assert(tree.is_solid(f));
                    }
                }
            }
            return 0;
        },
    };
    proof {
        lemma_first_solid_unique(tree, c as int, first as int);
    }
    let p = tree.token_pos(first);
    let mut j = p;
    let mut width: usize = 0;
    while j > 0
        invariant
            tree.wf(),
            j <= tree.tokens.len(),
            gap_run(tree, j as int, width as int) == gap_run(tree, p as int, 0),
            p == tree.token_pos_spec(first as int),
            forall|g: int| #[trigger] tree.first_solid(c as int, g) ==> g == first as int,
            tree.first_solid(c as int, first as int),
        decreases j,
    {
        let u = tree.tokens[j - 1];
        if !tree.is_token_kind(u, TK_WHITESPACE) {
            return width;
        }
        let e = tree.elems[u];
        width = width.saturating_add(e.text_end.saturating_sub(e.text_start));
        j = j - 1;
    }
    width
}

/// The width of the run of white space tokens that ends right before position `j`, added to
/// `acc`, capped at the largest `usize`.
pub open spec fn gap_run(tree: &SyntaxTree, j: int, acc: int) -> int
    decreases j,
{
    if j <= 0 || j > tree.tokens.len() {
        acc
    } else {
        let u = tree.tokens@[j - 1] as int;
        if tree.elems_kind_token(u, TK_WHITESPACE) {
            let w = tree.elems@[u].text_end - tree.elems@[u].text_start;
            let next = if acc + w > usize::MAX {
                usize::MAX as int
            } else {
                acc + w
            };
            gap_run(tree, j - 1, next)
        } else {
            acc
        }
    }
}

/// The first direct token of `n` of kind `kind`.
fn direct_token(tree: &SyntaxTree, n: usize, kind: u16) -> (r: Option<usize>)
    requires
        tree.wf(),
        n < tree.elems.len(),
    ensures
        r matches Some(t) ==> t < tree.elems.len() && exists|i: int|
            0 <= i < crate::syntax::direct_children(tree, n as int).len() && crate::syntax::direct_children(tree, n as int)[i] == t
                && tree.elems_kind_token(t as int, kind) && forall|j: int|
                0 <= j < i ==> !tree.elems_kind_token(#[trigger] crate::syntax::direct_children(tree, n as int)[j], kind),
        r is None ==> forall|i: int|
            0 <= i < crate::syntax::direct_children(tree, n as int).len() ==> !tree.elems_kind_token(
                #[trigger] crate::syntax::direct_children(tree, n as int)[i],
                kind,
            ),
{
    let children = direct_children(tree, n);
    let ghost dc = crate::syntax::direct_children(tree, n as int);
    assert(children@.len() == dc.len()) by {
        assert(children@.map_values(|x: usize| x as int).len() == children@.len());
    }
    let mut i: usize = 0;
    while i < children.len()
        invariant
            tree.wf(),
            i <= children@.len(),
            children@.map_values(|x: usize| x as int) == dc,
            dc == crate::syntax::direct_children(tree, n as int),
            children@.len() == dc.len(),
            forall|k: int| 0 <= k < children@.len() ==> #[trigger] children@[k] < tree.elems.len(),
            forall|j: int| 0 <= j < i ==> !tree.elems_kind_token(#[trigger] dc[j], kind),
        decreases children.len() - i,
    {
        let c = children[i];
        assert(dc[i as int] == c as int);
        if !tree.elems[c].is_node && tree.elems[c].kind == kind {
            proof {
                let ii = i as int;
                assert(0 <= ii < dc.len() && dc[ii] == c as int && tree.elems_kind_token(c as int, kind)
                    && forall|j: int| 0 <= j < ii ==> !tree.elems_kind_token(#[trigger] dc[j], kind));
            }
            return Some(c);
        }
        i = i + 1;
    }
    None
}

/// Sibling `k` of `sibs` may join a group that opened with a statement of kind `anchor`.
pub open spec fn joins_spec(ctx: &FormatContext, tree: &SyntaxTree, sibs: Seq<usize>, k: int, anchor: u16) -> bool {
    let n = sibs[k] as int;
    let e = tree.elems@[n];
    if e.is_node && e.kind == SK_COMMENT {
        ctx.config.comments.align_across_standalone_comments
    } else if !e.is_node || !(e.kind == SK_LOCAL_STAT || e.kind == SK_ASSIGN_STAT) {
        false
    } else if ctx.config.comments.align_same_kind_only && e.kind != anchor {
        false
    } else if ctx.config.align.continuous_assign_statement {
        true
    } else {
        match trailing_spec(tree, sibs, k, n) {
            Some(c) => !tree.spec_text(c as int).contains('\n'),
            None => false,
        }
    }
}

/// Whether statement `s` may join a group that opened with a statement of kind `anchor`.
fn can_join(ctx: &FormatContext, tree: &SyntaxTree, sibs: &Vec<usize>, k: usize, anchor: u16) -> (r: bool)
    requires
        tree.wf(),
        k < sibs.len(),
        forall|j: int| 0 <= j < sibs@.len() ==> #[trigger] sibs@[j] < tree.elems.len(),
    ensures
        r == joins_spec(ctx, tree, sibs@, k as int, anchor),
        r == {
            let n = sibs@[k as int] as int;
            let e = tree.elems@[n];
            if e.is_node && e.kind == SK_COMMENT {
                ctx.config.comments.align_across_standalone_comments
            } else if !e.is_node || !(e.kind == SK_LOCAL_STAT || e.kind == SK_ASSIGN_STAT) {
                false
            } else if ctx.config.comments.align_same_kind_only && e.kind != anchor {
                false
            } else if ctx.config.align.continuous_assign_statement {
                true
            } else {
                match trailing_spec(tree, sibs@, k as int, n) {
                    Some(c) => !tree.spec_text(c as int).contains('\n'),
                    None => false,
                }
            }
        },
{
    let n = sibs[k];
    if is_comment(tree, n) {
        return ctx.config.comments.align_across_standalone_comments;
    }
    let kind = tree.elems[n].kind;
    if !tree.elems[n].is_node || !(kind == SK_LOCAL_STAT || kind == SK_ASSIGN_STAT) {
        return false;
    }
    if ctx.config.comments.align_same_kind_only && kind != anchor {
        return false;
    }
    if ctx.config.align.continuous_assign_statement {
        return true;
    }
    match trailing_comment_of(tree, sibs, k, n) {
        Some(c) => !tree.text_contains_newline(c),
        None => false,
    }
}

/// Element `n` is a `local` or assignment statement.
pub open spec fn stat_node(tree: &SyntaxTree, n: int) -> bool {
    0 <= n < tree.elems.len() && tree.elems@[n].is_node && (tree.elems@[n].kind == SK_LOCAL_STAT || tree.elems@[n].kind
        == SK_ASSIGN_STAT)
}

/// No blank line stands before node `n` in the source.
pub open spec fn no_blank_line_before(tree: &SyntaxTree, n: int) -> bool {
    forall|f: int, j: int|
        #[trigger] tree.first_solid(n, f) && #[trigger] last_solid_before_pos(tree, tree.token_pos_spec(f), j) ==> blank_lines_of(
            tree.line_breaks_in(j + 1, tree.token_pos_spec(f)) as int,
        ) == 0
}

/// The children of block `b` at positions `k1 < k2` are two `local` or two assignment
/// statements with only tokens between them, neither under `fmt: off`, each with its value list
/// recorded and an `=`, and no blank line before the second: statements whose `=` signs the
/// continuous alignment puts in one column.
pub open spec fn aligned_pair(tree: &SyntaxTree, plan: &RootFormatPlan, b: int, k1: int, k2: int) -> bool {
    let dc = crate::syntax::direct_children(tree, b);
    &&& 0 <= k1 < k2 < dc.len()
    &&& stat_node(tree, dc[k1])
    &&& stat_node(tree, dc[k2])
    &&& tree.elems@[dc[k1]].kind == tree.elems@[dc[k2]].kind
    &&& forall|j: int| k1 < j < k2 ==> !tree.elems@[#[trigger] dc[j]].is_node
    &&& !plan.layout.format_disabled@.contains_key(tree.spec_id(dc[k1]))
    &&& !plan.layout.format_disabled@.contains_key(tree.spec_id(dc[k2]))
    &&& plan.layout.statement_expr_lists@.contains_key(tree.spec_id(dc[k1]))
    &&& plan.layout.statement_expr_lists@.contains_key(tree.spec_id(dc[k2]))
    &&& (exists|u: int| #[trigger] field_assign(tree, dc[k1], u))
    &&& (exists|u: int| #[trigger] field_assign(tree, dc[k2], u))
    &&& no_blank_line_before(tree, dc[k2])
}

/// Of the `=` signs of statements `s1` and `s2`, the one further left is padded.
pub open spec fn pair_padded(tree: &SyntaxTree, s1: int, s2: int, tok_col: Seq<usize>, extra: Seq<usize>) -> bool {
    forall|u1: int, u2: int|
        #[trigger] field_assign(tree, s1, u1) && #[trigger] field_assign(tree, s2, u2) && u1 < tok_col.len() && u2
            < tok_col.len() && u1 < extra.len() && u2 < extra.len() ==> (tok_col[u1] < tok_col[u2] ==> extra[u1] != 0) && (
        tok_col[u2] < tok_col[u1] ==> extra[u2] != 0)
}

/// Padding that stays padded keeps a pair padded.
proof fn lemma_pair_padded_kept(tree: &SyntaxTree, s1: int, s2: int, tok_col: Seq<usize>, a: Seq<usize>, b: Seq<usize>)
    requires
        pair_padded(tree, s1, s2, tok_col, a),
        a.len() == b.len(),
        forall|t: int| 0 <= t < a.len() && #[trigger] a[t] != 0 ==> b[t] != 0,
    ensures
        pair_padded(tree, s1, s2, tok_col, b),
{
    assert forall|u1: int, u2: int|
        #[trigger] field_assign(tree, s1, u1) && #[trigger] field_assign(tree, s2, u2) && u1 < tok_col.len() && u2
            < tok_col.len() && u1 < b.len() && u2 < b.len() implies (tok_col[u1] < tok_col[u2] ==> b[u1] != 0) && (
        tok_col[u2] < tok_col[u1] ==> b[u2] != 0) by {
        if tok_col[u1] < tok_col[u2] {
            assert(a[u1] != 0);
        }
        if tok_col[u2] < tok_col[u1] {
            assert(a[u2] != 0);
        }
    }
}

/// The `=` of statement `n` takes part in the continuous alignment of its group.
pub open spec fn eq_target(ctx: &FormatContext, tree: &SyntaxTree, plan: &RootFormatPlan, n: int) -> bool {
    ctx.config.align.continuous_assign_statement && stat_node(tree, n)
        && plan.layout.statement_expr_lists@.contains_key(tree.spec_id(n))
}

/// For the statement groups of block `b`, the spaces to add before `=` signs (`extra`) and
/// the columns of trailing comments (`target`); `any` tells whether something changed.
fn align_block(
    ctx: &FormatContext,
    tree: &SyntaxTree,
    plan: &RootFormatPlan,
    b: usize,
    tok_col: &Vec<usize>,
    end_col: &Vec<usize>,
    extra: &mut Vec<usize>,
    target: &mut Vec<usize>,
) -> (r: bool)
    requires
        tree.wf(),
        plan.wf(),
        b < tree.elems.len(),
    ensures
        final(extra)@.len() == old(extra)@.len(),
        final(target)@.len() == old(target)@.len(),
        !ctx.config.align.continuous_assign_statement ==> final(extra)@ == old(extra)@,
        !(ctx.config.comments.align_line_comments && ctx.config.comments.align_in_statements) ==> final(target)@
            == old(target)@,
        !ctx.config.align.continuous_assign_statement && !(ctx.config.comments.align_line_comments
            && ctx.config.comments.align_in_statements) ==> !r,
        columns_at_least(old(target)@, final(target)@, ctx.config.comments.line_comment_min_column),
        forall|t: int| 0 <= t < old(extra)@.len() && #[trigger] old(extra)@[t] != 0 ==> final(extra)@[t] != 0,
        forall|t: int|
            0 <= t < old(extra)@.len() && #[trigger] final(extra)@[t] != old(extra)@[t] ==> t < tok_col@.len()
                && tree.elems_kind_token(t, TK_ASSIGN),
        forall|t: int|
            0 <= t < old(extra)@.len() && #[trigger] final(extra)@[t] != old(extra)@[t] ==> exists|u: int|
                #[trigger] tree.elems_kind_token(u, TK_ASSIGN) && u < tok_col@.len() && tok_col@[u] == tok_col@[t] + final(extra)@[t],
        ctx.config.align.continuous_assign_statement ==> forall|k1: int, k2: int|
            #[trigger] aligned_pair(tree, plan, b as int, k1, k2) ==> pair_padded(
                tree,
                crate::syntax::direct_children(tree, b as int)[k1],
                crate::syntax::direct_children(tree, b as int)[k2],
                tok_col@,
                final(extra)@,
            ),
{
    let sibs = direct_children(tree, b);
    let ghost dc = crate::syntax::direct_children(tree, b as int);
    proof {
        assert(sibs@.map_values(|x: usize| x as int).len() == sibs@.len());
        assert forall|k: int| 0 <= k < sibs@.len() implies dc[k] == #[trigger] sibs@[k] as int by {
            assert(sibs@.map_values(|x: usize| x as int)[k] == sibs@[k] as int);
        }
    }
    let mut changed = false;
    let mut start: usize = 0;
    while start < sibs.len()
        invariant
            tree.wf(),
            plan.wf(),
            extra@.len() == old(extra)@.len(),
            forall|t: int| 0 <= t < old(extra)@.len() && #[trigger] old(extra)@[t] != 0 ==> extra@[t] != 0,
            target@.len() == old(target)@.len(),
            !ctx.config.align.continuous_assign_statement ==> extra@ == old(extra)@,
            !(ctx.config.comments.align_line_comments && ctx.config.comments.align_in_statements) ==> target@ == old(target)@,
            columns_at_least(old(target)@, target@, ctx.config.comments.line_comment_min_column),
            !ctx.config.align.continuous_assign_statement && !(ctx.config.comments.align_line_comments
                && ctx.config.comments.align_in_statements) ==> !changed,
            forall|t: int|
                0 <= t < old(extra)@.len() && #[trigger] extra@[t] != old(extra)@[t] ==> t < tok_col@.len()
                    && tree.elems_kind_token(t, TK_ASSIGN),
            forall|t: int|
                0 <= t < old(extra)@.len() && #[trigger] extra@[t] != old(extra)@[t] ==> exists|u: int|
                    #[trigger] tree.elems_kind_token(u, TK_ASSIGN) && u < tok_col@.len() && tok_col@[u] == tok_col@[t] + extra@[t],
            forall|k: int| 0 <= k < sibs@.len() ==> #[trigger] sibs@[k] < tree.elems.len(),
            dc == crate::syntax::direct_children(tree, b as int),
            sibs@.len() == dc.len(),
            forall|k: int| 0 <= k < sibs@.len() ==> dc[k] == #[trigger] sibs@[k] as int,
            ctx.config.align.continuous_assign_statement ==> forall|k1: int, k2: int|
                #[trigger] aligned_pair(tree, plan, b as int, k1, k2) && k1 < start ==> k2 < start,
            ctx.config.align.continuous_assign_statement ==> forall|k1: int, k2: int|
                #[trigger] aligned_pair(tree, plan, b as int, k1, k2) && k2 < start ==> pair_padded(
                    tree,
                    dc[k1],
                    dc[k2],
                    tok_col@,
                    extra@,
                ),
        decreases sibs.len() - start,
    {
        let ghost ex_g = extra@;
        let s0 = sibs[start];
        let k0 = tree.elems[s0].kind;
        let is_stat = tree.elems[s0].is_node && (k0 == SK_LOCAL_STAT || k0 == SK_ASSIGN_STAT);
        if !is_stat || plan.layout.format_disabled.contains_key(tree.id(s0)) {
            proof {
                assert(dc[start as int] == sibs@[start as int] as int);
                if ctx.config.align.continuous_assign_statement {
                    assert forall|k1: int, k2: int|
                        #[trigger] aligned_pair(tree, plan, b as int, k1, k2) && k1 < start + 1 implies k2 < start + 1 by {
                        if k1 == start {
                            assert(stat_node(tree, dc[k1]));
                        }
                    }
                }
            }
            start = start + 1;
            continue;
        }
        // The members of the group, by sibling position.
        let mut members: Vec<usize> = Vec::new();
        let mut end = start;
        while end < sibs.len()
            invariant
                tree.wf(),
                plan.wf(),
                start <= end <= sibs.len(),
                start < sibs@.len(),
                forall|k: int| 0 <= k < sibs@.len() ==> #[trigger] sibs@[k] < tree.elems.len(),
                forall|k: int| 0 <= k < members@.len() ==> #[trigger] members@[k] < sibs@.len(),
                sibs@.len() == dc.len(),
                forall|k: int| 0 <= k < sibs@.len() ==> dc[k] == #[trigger] sibs@[k] as int,
                stat_node(tree, dc[start as int]),
                k0 == tree.elems@[dc[start as int]].kind,
                !plan.layout.format_disabled@.contains_key(tree.spec_id(dc[start as int])),
                forall|k: int|
                    #![trigger dc[k]]
                    start <= k < end && stat_node(tree, dc[k]) ==> members@.contains(k as usize) && (
                    ctx.config.comments.align_same_kind_only ==> tree.elems@[dc[k]].kind == k0),
            ensures
                end > start,
                end < sibs@.len() ==> tree.elems@[dc[end as int]].is_node && (
                plan.layout.format_disabled@.contains_key(tree.spec_id(dc[end as int])) || !no_blank_line_before(
                    tree,
                    dc[end as int],
                ) || !joins_spec(ctx, tree, sibs@, end as int, k0)),
            decreases sibs.len() - end,
        {
            let n = sibs[end];
            assert(dc[end as int] == n as int);
            if !tree.elems[n].is_node {
                end = end + 1;
                continue;
            }
            if is_inline_trailing_comment(tree, &sibs, end) {
                end = end + 1;
                continue;
            }
            if plan.layout.format_disabled.contains_key(tree.id(n)) {
                break;
            }
            if end > start && blank_lines_before(tree, n) > 0 {
                break;
            }
            if end > start && !can_join(ctx, tree, &sibs, end, k0) {
                break;
            }
            let ghost mem_before = members@;
            members.push(end);
            proof {
                assert(members@[members@.len() - 1] == end);
                assert forall|k: int|
                    #![trigger dc[k]]
                    start <= k < end + 1 && stat_node(tree, dc[k]) implies members@.contains(k as usize) && (
                    ctx.config.comments.align_same_kind_only ==> tree.elems@[dc[k]].kind == k0) by {
                    if k < end {
                        assert(mem_before.contains(k as usize));
                        let i = choose|i: int| 0 <= i < mem_before.len() && mem_before[i] == k as usize;
                        assert(members@[i] == k as usize);
                    }
                }
            }
            end = end + 1;
        }
        // Which members align their `=`, and which trailing comments ask for alignment.
        let min_spaces = if ctx.config.comments.line_comment_min_spaces_before > 1 {
            ctx.config.comments.line_comment_min_spaces_before
        } else {
            1
        };
        let mut has_split = false;
        let mut has_signal = false;
        let mut eq_col_max: usize = 0;
        let mut m: usize = 0;
        while m < members.len()
            invariant
                tree.wf(),
                plan.wf(),
                eq_col_max == 0 || exists|u: int|
                    #[trigger] tree.elems_kind_token(u, TK_ASSIGN) && u < tok_col@.len() && tok_col@[u] == eq_col_max,
                forall|k: int| 0 <= k < sibs@.len() ==> #[trigger] sibs@[k] < tree.elems.len(),
                forall|k: int| 0 <= k < members@.len() ==> #[trigger] members@[k] < sibs@.len(),
                sibs@.len() == dc.len(),
                forall|k: int| 0 <= k < sibs@.len() ==> dc[k] == #[trigger] sibs@[k] as int,
                m <= members@.len(),
                forall|i: int|
                    #![trigger members@[i]]
                    0 <= i < m && eq_target(ctx, tree, plan, dc[members@[i] as int]) ==> forall|u: int|
                        #[trigger] field_assign(tree, dc[members@[i] as int], u) ==> has_split && (u < tok_col@.len()
                            ==> tok_col@[u] <= eq_col_max),
            decreases members.len() - m,
        {
            let pos = members[m];
            let n = sibs[pos];
            let ghost eq_prev = eq_col_max;
            assert(dc[pos as int] == n as int);
            if !is_comment(tree, n) {
                if ctx.config.align.continuous_assign_statement && plan.layout.statement_expr_lists.contains_key(tree.id(n)) {
                    if let Some(eq) = direct_token(tree, n, TK_ASSIGN) {
                        has_split = true;
                        if eq < tok_col.len() && tok_col[eq] > eq_col_max {
                            eq_col_max = tok_col[eq];
                        }
                        proof {
                            assert(field_assign(tree, n as int, eq as int));
                            assert forall|u: int| #[trigger] field_assign(tree, n as int, u) implies u == eq as int by {
                                lemma_field_assign_unique(tree, n as int, u, eq as int);
                            }
                        }
                    } else {
                        proof {
                            assert forall|u: int| !#[trigger] field_assign(tree, n as int, u) by {
                                if field_assign(tree, n as int, u) {
                                    let i = choose|i: int|
                                        0 <= i < crate::syntax::direct_children(tree, n as int).len()
                                            && crate::syntax::direct_children(tree, n as int)[i] == u && tree.elems_kind_token(
                                            u,
                                            TK_ASSIGN,
                                        ) && forall|j: int|
                                            0 <= j < i ==> !tree.elems_kind_token(
                                                #[trigger] crate::syntax::direct_children(tree, n as int)[j],
                                                TK_ASSIGN,
                                            );
                                    assert(!tree.elems_kind_token(crate::syntax::direct_children(tree, n as int)[i], TK_ASSIGN));
                                }
                            }
                        }
                    }
                }
                if let Some(c) = trailing_comment_of(tree, &sibs, pos, n) {
                    if !tree.text_contains_newline(c) && source_gap_before(tree, c) > min_spaces {
                        has_signal = true;
                    }
                }
            }
            proof {
                assert forall|i: int|
                    #![trigger members@[i]]
                    0 <= i < m + 1 && eq_target(ctx, tree, plan, dc[members@[i] as int]) implies forall|u: int|
                        #[trigger] field_assign(tree, dc[members@[i] as int], u) ==> has_split && (u < tok_col@.len()
                            ==> tok_col@[u] <= eq_col_max) by {
                    if i < m {
                        assert(eq_prev <= eq_col_max);
                    }
                }
            }
            m = m + 1;
        }
        if !has_split && !has_signal {
            proof {
                if ctx.config.align.continuous_assign_statement {
                    assert forall|k1: int, k2: int|
                        #[trigger] aligned_pair(tree, plan, b as int, k1, k2) && k1 < start + 1 implies k2 < start + 1 by {
                        if k1 == start {
                            assert(stat_node(tree, dc[k1]));
                            assert(members@.contains(start));
                            let i = choose|i: int| 0 <= i < members@.len() && members@[i] == start;
                            assert(eq_target(ctx, tree, plan, dc[members@[i] as int]));
                            let u = choose|u: int| #[trigger] field_assign(tree, dc[k1], u);
                            assert(field_assign(tree, dc[members@[i] as int], u));
                        }
                    }
                }
            }
            start = start + 1;
            continue;
        }
        // Pad the `=` signs, then place the trailing comments one column past the widest line.
        let align_comments = ctx.config.comments.align_line_comments
            && ctx.config.comments.align_in_statements;
        let mut comment_col: usize = 0;
        let mut m2: usize = 0;
        while m2 < members.len()
            invariant
                tree.wf(),
                plan.wf(),
                extra@.len() == old(extra)@.len(),
                ex_g.len() == extra@.len(),
                forall|t: int| 0 <= t < old(extra)@.len() && #[trigger] old(extra)@[t] != 0 ==> extra@[t] != 0,
                forall|t: int| 0 <= t < ex_g.len() && #[trigger] ex_g[t] != 0 ==> extra@[t] != 0,
                target@.len() == old(target)@.len(),
                !ctx.config.align.continuous_assign_statement ==> extra@ == old(extra)@,
                !(ctx.config.comments.align_line_comments && ctx.config.comments.align_in_statements) ==> target@ == old(target)@,
                columns_at_least(old(target)@, target@, ctx.config.comments.line_comment_min_column),
                !ctx.config.align.continuous_assign_statement && !(ctx.config.comments.align_line_comments
                    && ctx.config.comments.align_in_statements) ==> !changed,
                forall|t: int|
                    0 <= t < old(extra)@.len() && #[trigger] extra@[t] != old(extra)@[t] ==> t < tok_col@.len()
                        && tree.elems_kind_token(t, TK_ASSIGN),
                forall|t: int|
                    0 <= t < old(extra)@.len() && #[trigger] extra@[t] != old(extra)@[t] ==> exists|u: int|
                        #[trigger] tree.elems_kind_token(u, TK_ASSIGN) && u < tok_col@.len() && tok_col@[u] == tok_col@[t] + extra@[t],
                eq_col_max == 0 || exists|u: int|
                    #[trigger] tree.elems_kind_token(u, TK_ASSIGN) && u < tok_col@.len() && tok_col@[u] == eq_col_max,
                forall|k: int| 0 <= k < sibs@.len() ==> #[trigger] sibs@[k] < tree.elems.len(),
                forall|k: int| 0 <= k < members@.len() ==> #[trigger] members@[k] < sibs@.len(),
                sibs@.len() == dc.len(),
                forall|k: int| 0 <= k < sibs@.len() ==> dc[k] == #[trigger] sibs@[k] as int,
                m2 <= members@.len(),
                forall|i: int|
                    #![trigger members@[i]]
                    0 <= i < m2 && eq_target(ctx, tree, plan, dc[members@[i] as int]) ==> forall|u: int|
                        #[trigger] field_assign(tree, dc[members@[i] as int], u) && u < tok_col@.len() && u < extra@.len()
                            && tok_col@[u] < eq_col_max ==> extra@[u] != 0,
            decreases members.len() - m2,
        {
            let pos = members[m2];
            let n = sibs[pos];
            let ghost ex_m = extra@;
            assert(dc[pos as int] == n as int);
            if !is_comment(tree, n) {
                let mut pad: usize = 0;
                if ctx.config.align.continuous_assign_statement && plan.layout.statement_expr_lists.contains_key(tree.id(n)) {
                    if let Some(eq) = direct_token(tree, n, TK_ASSIGN) {
                        if eq < tok_col.len() && eq < extra.len() && tok_col[eq] < eq_col_max {
                            pad = eq_col_max - tok_col[eq];
                            extra.set(eq, pad);
                            changed = true;
                        }
                        proof {
                            assert(field_assign(tree, n as int, eq as int));
                            assert forall|u: int| #[trigger] field_assign(tree, n as int, u) implies u == eq as int by {
                                lemma_field_assign_unique(tree, n as int, u, eq as int);
                            }
                        }
                    }
                }
                if let Some(c) = trailing_comment_of(tree, &sibs, pos, n) {
                    if !tree.text_contains_newline(c) {
                        if let Some(p) = prev_solid(tree, c) {
                            if p < end_col.len() {
                                let width = end_col[p].saturating_add(pad).saturating_add(min_spaces);
                                if width > comment_col {
                                    comment_col = width;
                                }
                            }
                        }
                    }
                }
            }
            proof {
                assert forall|t: int| 0 <= t < ex_m.len() && #[trigger] ex_m[t] != 0 implies extra@[t] != 0 by {}
                assert forall|i: int|
                    #![trigger members@[i]]
                    0 <= i < m2 + 1 && eq_target(ctx, tree, plan, dc[members@[i] as int]) implies forall|u: int|
                        #[trigger] field_assign(tree, dc[members@[i] as int], u) && u < tok_col@.len() && u < extra@.len()
                            && tok_col@[u] < eq_col_max ==> extra@[u] != 0 by {
                    if i < m2 {
                        assert forall|u: int|
                            #[trigger] field_assign(tree, dc[members@[i] as int], u) && u < tok_col@.len() && u < extra@.len()
                                && tok_col@[u] < eq_col_max implies extra@[u] != 0 by {
                            assert(ex_m[u] != 0);
                        }
                    }
                }
            }
            m2 = m2 + 1;
        }
        if align_comments && comment_col > 0 {
            let min_col = ctx.config.comments.line_comment_min_column;
            if min_col > comment_col {
                comment_col = min_col;
            }
            let mut m3: usize = 0;
            while m3 < members.len()
                invariant
                    tree.wf(),
                    target@.len() == old(target)@.len(),
                    !(ctx.config.comments.align_line_comments && ctx.config.comments.align_in_statements) ==> target@ == old(target)@,
                    columns_at_least(old(target)@, target@, ctx.config.comments.line_comment_min_column),
                    ctx.config.comments.align_line_comments && ctx.config.comments.align_in_statements,
                    comment_col >= ctx.config.comments.line_comment_min_column,
                    forall|k: int| 0 <= k < sibs@.len() ==> #[trigger] sibs@[k] < tree.elems.len(),
                    forall|k: int| 0 <= k < members@.len() ==> #[trigger] members@[k] < sibs@.len(),
                decreases members.len() - m3,
            {
                let pos = members[m3];
                let n = sibs[pos];
                if !is_comment(tree, n) {
                    if let Some(c) = trailing_comment_of(tree, &sibs, pos, n) {
                        if !tree.text_contains_newline(c) {
                            if let Some(f) = tree.first_solid_token(c) {
                                if f < target.len() {
                                    target.set(f, comment_col);
                                    changed = true;
                                }
                            }
                        }
                    }
                }
                m3 = m3 + 1;
            }
        }
        proof {
            if ctx.config.align.continuous_assign_statement {
                assert forall|k1: int, k2: int|
                    #[trigger] aligned_pair(tree, plan, b as int, k1, k2) && k1 < end implies k2 < end by {
                    if k1 >= start && k2 >= end {
                        assert(stat_node(tree, dc[k1]));
                        if end < k2 {
                            assert(!tree.elems@[dc[end as int]].is_node);
                        }
                        assert(end == k2);
                        assert(sibs@[k2] as int == dc[k2]);
                    }
                }
                assert forall|k1: int, k2: int|
                    #[trigger] aligned_pair(tree, plan, b as int, k1, k2) && k2 < end implies pair_padded(
                        tree,
                        dc[k1],
                        dc[k2],
                        tok_col@,
                        extra@,
                    ) by {
                    if k2 < start {
                        lemma_pair_padded_kept(tree, dc[k1], dc[k2], tok_col@, ex_g, extra@);
                    } else {
                        assert(stat_node(tree, dc[k1]));
                        assert(stat_node(tree, dc[k2]));
                        let i1 = choose|i: int| 0 <= i < members@.len() && members@[i] == k1 as usize;
                        let i2 = choose|i: int| 0 <= i < members@.len() && members@[i] == k2 as usize;
                        assert(eq_target(ctx, tree, plan, dc[members@[i1] as int]));
                        assert(eq_target(ctx, tree, plan, dc[members@[i2] as int]));
                        assert forall|u1: int, u2: int|
                            #[trigger] field_assign(tree, dc[k1], u1) && #[trigger] field_assign(tree, dc[k2], u2) && u1
                                < tok_col@.len() && u2 < tok_col@.len() && u1 < extra@.len() && u2 < extra@.len() implies (
                            tok_col@[u1] < tok_col@[u2] ==> extra@[u1] != 0) && (tok_col@[u2] < tok_col@[u1] ==> extra@[u2]
                                != 0) by {
                            assert(field_assign(tree, dc[members@[i1] as int], u1));
                            assert(field_assign(tree, dc[members@[i2] as int], u2));
                        }
                    }
                }
            }
        }
        start = if end > start {
            end
        } else {
            start + 1
        };
    }
    changed
}

/// `u` is the `=` of field `s`: the first `=` among its direct children.
pub open spec fn field_assign(tree: &SyntaxTree, s: int, u: int) -> bool {
    exists|i: int|
        0 <= i < crate::syntax::direct_children(tree, s).len() && crate::syntax::direct_children(tree, s)[i] == u
            && tree.elems_kind_token(u, TK_ASSIGN) && forall|j: int|
            0 <= j < i ==> !tree.elems_kind_token(#[trigger] crate::syntax::direct_children(tree, s)[j], TK_ASSIGN)
}

/// `u` is the `=` of a keyed field of table `n`.
pub open spec fn table_assign(tree: &SyntaxTree, n: int, u: int) -> bool {
    exists|i: int|
        0 <= i < crate::syntax::direct_children(tree, n).len() && is_keyed_field(tree, crate::syntax::direct_children(tree, n)[i])
            && #[trigger] field_assign(tree, crate::syntax::direct_children(tree, n)[i], u)
}

/// Element `f` is a keyed field of a table.
pub open spec fn is_keyed_field(tree: &SyntaxTree, f: int) -> bool {
    0 <= f < tree.elems.len() && tree.elems@[f].is_node && tree.elems@[f].kind == SK_TABLE_FIELD_ASSIGN
}

/// The width of the white space right before (or, with `after`, right after) token `t` in the
/// source.
pub open spec fn gap_around(tree: &SyntaxTree, t: int, after: bool) -> int {
    let p = tree.elems@[t].token_index as int;
    let q = if after {
        p + 1
    } else {
        p - 1
    };
    if 0 <= q < tree.tokens.len() {
        whitespace_width(tree, tree.tokens@[q] as int)
    } else {
        0
    }
}

/// Table `n` asks for its `=` signs in a column: the source spaces one of them wider than one
/// space on a side.
pub open spec fn table_align_signal(tree: &SyntaxTree, n: int) -> bool {
    exists|u: int| #[trigger] table_assign(tree, n, u) && (gap_around(tree, u, false) > 1 || gap_around(tree, u, true) > 1)
}

/// The `=` signs of table `n`, as the columns `tok_col` holds them, do not all stand in one
/// column.
pub open spec fn table_columns_differ(tree: &SyntaxTree, n: int, tok_col: Seq<usize>) -> bool {
    exists|u1: int, u2: int|
        #[trigger] table_assign(tree, n, u1) && #[trigger] table_assign(tree, n, u2) && u1 < tok_col.len() && u2
            < tok_col.len() && tok_col[u1] < tok_col[u2]
}

/// Two `=` signs of one field are the same token.
proof fn lemma_field_assign_unique(tree: &SyntaxTree, s: int, u1: int, u2: int)
    requires
        field_assign(tree, s, u1),
        field_assign(tree, s, u2),
    ensures
        u1 == u2,
{
    let dc = crate::syntax::direct_children(tree, s);
    let i1 = choose|i: int|
        0 <= i < dc.len() && dc[i] == u1 && tree.elems_kind_token(u1, TK_ASSIGN) && forall|j: int|
            0 <= j < i ==> !tree.elems_kind_token(#[trigger] dc[j], TK_ASSIGN);
    let i2 = choose|i: int|
        0 <= i < dc.len() && dc[i] == u2 && tree.elems_kind_token(u2, TK_ASSIGN) && forall|j: int|
            0 <= j < i ==> !tree.elems_kind_token(#[trigger] dc[j], TK_ASSIGN);
    if i1 < i2 {
        assert(!tree.elems_kind_token(dc[i1], TK_ASSIGN));
    } else if i2 < i1 {
        assert(!tree.elems_kind_token(dc[i2], TK_ASSIGN));
    }
}

/// The width of the white space right before (or, with `after`, right after) token `t` in the
/// source.
fn source_gap_at(tree: &SyntaxTree, t: usize, after: bool) -> (r: usize)
    requires
        tree.wf(),
    ensures
        t < tree.elems.len() && !tree.elems@[t as int].is_node ==> r == {
            let p = tree.elems@[t as int].token_index as int;
            let q = if after {
                p + 1
            } else {
                p - 1
            };
            if 0 <= q < tree.tokens.len() {
                whitespace_width(tree, tree.tokens@[q] as int)
            } else {
                0
            }
        },
{
    let u = if after {
        tree.next_token(t)
    } else {
        tree.prev_token(t)
    };
    match u {
        Some(w) => if tree.is_token_kind(w, TK_WHITESPACE) {
            tree.elems[w].text_end.saturating_sub(tree.elems[w].text_start)
        } else {
            0
        },
        None => 0,
    }
}

/// The width of token `w` when it is whitespace, else 0.
pub open spec fn whitespace_width(tree: &SyntaxTree, w: int) -> int {
    if tree.elems_kind_token(w, TK_WHITESPACE) {
        tree.elems@[w].text_end - tree.elems@[w].text_start
    } else {
        0
    }
}

/// The comment that follows sibling `k` of `sibs` on its line, after a comma.
fn comment_after_item(tree: &SyntaxTree, sibs: &Vec<usize>, k: usize) -> (r: Option<usize>)
    requires
        tree.wf(),
        forall|j: int| 0 <= j < sibs@.len() ==> #[trigger] sibs@[j] < tree.elems.len(),
    ensures
        r matches Some(c) ==> c < tree.elems.len() && exists|j: int|
            k < j < sibs@.len() && sibs@[j] == c && first_comment_after(tree, sibs@, k as int, j)
                && !tree.spec_text(c as int).contains('\n'),
        r is None ==> forall|j: int|
            k < j < sibs@.len() && #[trigger] first_comment_after(tree, sibs@, k as int, j) ==> tree.spec_text(
                sibs@[j] as int,
            ).contains('\n'),
{
    if k >= sibs.len() {
        return None;
    }
    let mut j = k + 1;
    while j < sibs.len()
        invariant
            tree.wf(),
            k < j,
            forall|i: int| 0 <= i < sibs@.len() ==> #[trigger] sibs@[i] < tree.elems.len(),
            forall|i: int| k < i < j && i < sibs@.len() ==> #[trigger] is_separator_filler(tree, sibs@[i] as int),
        decreases sibs.len() - j,
    {
        let n = sibs[j];
        if is_comment(tree, n) {
            assert(first_comment_after(tree, sibs@, k as int, j as int));
            proof {
                assert forall|jj: int| k < jj < sibs@.len() && #[trigger] first_comment_after(tree, sibs@, k as int, jj) implies jj == j by {
                    if jj < j {
                        assert(is_separator_filler(tree, sibs@[jj] as int));
                    } else if j < jj {
                        assert(is_separator_filler(tree, sibs@[j as int] as int));
                    }
                }
            }
            return if tree.text_contains_newline(n) {
                None
            } else {
                Some(n)
            };
        }
        if !(tree.is_token_kind(n, TK_WHITESPACE) || tree.is_token_kind(n, TK_COMMA) || tree.is_token_kind(n, TK_SEMICOLON)) {
            proof {
                assert forall|jj: int| k < jj < sibs@.len() implies !#[trigger] first_comment_after(tree, sibs@, k as int, jj) by {
                    if jj > j {
                        assert(!is_separator_filler(tree, sibs@[j as int] as int));
                    } else if jj < j {
                        assert(is_separator_filler(tree, sibs@[jj] as int));
                    }
                }
            }
            return None;
        }
        assert(is_separator_filler(tree, n as int));
        j = j + 1;
    }
    proof {
        assert forall|jj: int| k < jj < sibs@.len() implies !#[trigger] first_comment_after(tree, sibs@, k as int, jj) by {
            assert(is_separator_filler(tree, sibs@[jj] as int));
        }
    }
    None
}

/// Element `n` is a white space, comma or semicolon token.
pub open spec fn is_separator_filler(tree: &SyntaxTree, n: int) -> bool {
    &&& 0 <= n < tree.elems.len()
    &&& !tree.elems@[n].is_node
    &&& (tree.elems@[n].kind == TK_WHITESPACE || tree.elems@[n].kind == TK_COMMA || tree.elems@[n].kind == TK_SEMICOLON)
}

/// `sibs[j]` is a comment and only white space, commas and semicolons lie between `sibs[k]` and
/// it.
pub open spec fn first_comment_after(tree: &SyntaxTree, sibs: Seq<usize>, k: int, j: int) -> bool {
    &&& k < j < sibs.len()
    &&& tree.elems@[sibs[j] as int].is_node
    &&& tree.elems@[sibs[j] as int].kind == SK_COMMENT
    &&& forall|i: int| k < i < j ==> #[trigger] is_separator_filler(tree, sibs[i] as int)
}

/// The column after the last written token before comment `c`.
fn content_end_before(tree: &SyntaxTree, c: usize, end_col: &Vec<usize>) -> (r: usize)
    requires
        tree.wf(),
    ensures
        forall|f: int| #[trigger] tree.first_solid(c as int, f) ==> r == end_before_line(tree, end_col@, tree.token_pos_spec(f)),
        (forall|f: int| !#[trigger] tree.first_solid(c as int, f)) ==> r == 0,
{
    let first = match tree.first_solid_token(c) {
        Some(f) => f,
        None => {
            proof {
                assert forall|f: int| !#[trigger] tree.first_solid(c as int, f) by {
                    if tree.first_solid(c as int, f) {
                        assert(tree.is_solid(f));
                    }
                }
            }
            return 0;
        },
    };
    proof {
        lemma_first_solid_unique(tree, c as int, first as int);
    }
    let p = tree.token_pos(first);
    let mut j = p;
    while j > 0
        invariant
            tree.wf(),
            j <= tree.tokens.len(),
            end_before_line(tree, end_col@, j as int) == end_before_line(tree, end_col@, p as int),
            p == tree.token_pos_spec(first as int),
            forall|g: int| #[trigger] tree.first_solid(c as int, g) ==> g == first as int,
            tree.first_solid(c as int, first as int),
        decreases j,
    {
        let u = tree.tokens[j - 1];
        if !tree.is_blank_token(u) && u < end_col.len() && end_col[u] > 0 {
            return end_col[u];
        }
        if tree.is_token_kind(u, TK_END_OF_LINE) {
            return 0;
        }
        j = j - 1;
    }
    0
}

/// The column recorded in `end_col` for the nearest token before position `j` on the same
/// line that is not blank and has one, or 0.
pub open spec fn end_before_line(tree: &SyntaxTree, end_col: Seq<usize>, j: int) -> usize
    decreases j,
{
    if j <= 0 || j > tree.tokens.len() {
        0
    } else {
        let u = tree.tokens@[j - 1] as int;
        if tree.is_solid(u) && u < end_col.len() && end_col[u] > 0 {
            end_col[u]
        } else if tree.elems_kind_token(u, TK_END_OF_LINE) {
            0
        } else {
            end_before_line(tree, end_col, j - 1)
        }
    }
}

/// The largest line width of a group of trailing comments.
pub open spec fn widest_line(group: Seq<(usize, usize)>) -> nat
    decreases group.len(),
{
    if group.len() == 0 {
        0
    } else {
        let rest = widest_line(group.drop_last());
        if group.last().1 > rest {
            group.last().1 as nat
        } else {
            rest
        }
    }
}

proof fn lemma_widest_line_bounds(group: Seq<(usize, usize)>)
    ensures
        forall|k: int| 0 <= k < group.len() ==> #[trigger] group[k].1 <= widest_line(group),
        widest_line(group) <= usize::MAX,
    decreases group.len(),
{
    if group.len() > 0 {
        lemma_widest_line_bounds(group.drop_last());
        assert forall|k: int| 0 <= k < group.len() implies #[trigger] group[k].1 <= widest_line(
            group,
        ) by {
            if k < group.len() - 1 {
                assert(group.drop_last()[k] == group[k]);
            }
        }
    }
}

/// Every entry that `after` changed from `before` is a column no smaller than `min_col`.
pub open spec fn columns_at_least(before: Seq<usize>, after: Seq<usize>, min_col: usize) -> bool {
    forall|i: int| 0 <= i < before.len() && i < after.len() && #[trigger] after[i] != before[i] ==> after[i] >= min_col
}

/// The column of the comments of a group: `min_spaces` past the widest line, and not before
/// `min_col`.
pub open spec fn comment_column(group: Seq<(usize, usize)>, min_spaces: usize, min_col: usize) -> int {
    let w = widest_line(group) + min_spaces;
    let w = if w > usize::MAX {
        usize::MAX as int
    } else {
        w as int
    };
    if min_col > w {
        min_col as int
    } else {
        w
    }
}

/// Places the comments of a group of at least two lines, each given by its first token and
/// the width of its line, on one column: `min_spaces` past the widest line, and not before
/// `min_col`. A single comment is left where it is.
fn place_comments(group: &Vec<(usize, usize)>, min_spaces: usize, min_col: usize, target: &mut Vec<usize>) -> (r: bool)
    ensures
        final(target)@.len() == old(target)@.len(),
        group@.len() < 2 ==> final(target)@ == old(target)@,
        group@.len() >= 2 ==> forall|k: int|
            0 <= k < group@.len() && (#[trigger] group@[k]).0 < old(target)@.len()
                ==> final(target)@[group@[k].0 as int] == comment_column(group@, min_spaces, min_col),
        group@.len() >= 2 ==> forall|i: int|
            0 <= i < old(target)@.len() && (forall|k: int|
                0 <= k < group@.len() ==> (#[trigger] group@[k]).0 != i) ==> final(target)@[i]
                == old(target)@[i],
        forall|i: int|
            0 <= i < old(target)@.len() && #[trigger] final(target)@[i] != old(target)@[i] ==> final(target)@[i]
                >= min_col,
{
    if group.len() < 2 {
        return false;
    }
    let mut widest: usize = 0;
    let mut i: usize = 0;
    while i < group.len()
        invariant
            i <= group.len(),
            widest == widest_line(group@.take(i as int)),
        decreases group.len() - i,
    {
        assert(group@.take(i + 1).drop_last() =~= group@.take(i as int));
        if group[i].1 > widest {
            widest = group[i].1;
        }
        i = i + 1;
    }
    assert(group@.take(i as int) =~= group@);
    let mut col = widest.saturating_add(min_spaces);
    if min_col > col {
        col = min_col;
    }
    assert(col == comment_column(group@, min_spaces, min_col));
    let mut changed = false;
    let mut k: usize = 0;
    while k < group.len()
        invariant
            k <= group.len(),
            target@.len() == old(target)@.len(),
            forall|j: int|
                0 <= j < k && (#[trigger] group@[j]).0 < old(target)@.len() ==> target@[group@[j].0 as int]
                    == col,
            forall|x: int|
                0 <= x < old(target)@.len() && (forall|j: int| 0 <= j < k ==> (#[trigger] group@[j]).0 != x)
                    ==> target@[x] == old(target)@[x],
            forall|x: int| 0 <= x < old(target)@.len() && #[trigger] target@[x] != old(target)@[x] ==> target@[x] == col,
            col >= min_col,
        decreases group.len() - k,
    {
        let f = group[k].0;
        if f < target.len() {
            target.set(f, col);
            changed = true;
        }
        k = k + 1;
    }
    changed
}

/// The `=` signs of table `n`'s fields are aligned: `n` is a table and the options ask for it.
pub open spec fn aligns_table_fields(ctx: &FormatContext, tree: &SyntaxTree, n: int) -> bool {
    let kind = tree.elems@[n].kind;
    (kind == SK_TABLE_OBJECT_EXPR || kind == SK_TABLE_ARRAY_EXPR) && ctx.config.align.table_field
}

/// The trailing comments of the items of list `n` are aligned, as the options ask for that kind
/// of list.
pub open spec fn aligns_sequence_comments(ctx: &FormatContext, tree: &SyntaxTree, n: int) -> bool {
    let kind = tree.elems@[n].kind;
    ctx.config.comments.align_line_comments && if kind == SK_TABLE_OBJECT_EXPR || kind == SK_TABLE_ARRAY_EXPR {
        ctx.config.comments.align_in_table_fields
    } else if kind == SK_PARAM_LIST {
        ctx.config.comments.align_in_params
    } else {
        ctx.config.comments.align_in_call_args
    }
}

/// Aligns a table's `=` signs when the source spaced one of them wider than one space, and the
/// trailing comments of each run of items that have one: always in tables, in parameter and
/// argument lists when the source spaced one of them wider.
fn align_sequence(
    ctx: &FormatContext,
    tree: &SyntaxTree,
    n: usize,
    tok_col: &Vec<usize>,
    end_col: &Vec<usize>,
    extra: &mut Vec<usize>,
    target: &mut Vec<usize>,
) -> (r: bool)
    requires
        tree.wf(),
        n < tree.elems.len(),
    ensures
        final(extra)@.len() == old(extra)@.len(),
        final(target)@.len() == old(target)@.len(),
        !(aligns_table_fields(ctx, tree, n as int)) ==> final(extra)@ == old(extra)@,
        !aligns_sequence_comments(ctx, tree, n as int) ==> final(target)@ == old(target)@,
        !aligns_table_fields(ctx, tree, n as int) && !aligns_sequence_comments(ctx, tree, n as int) ==> !r,
        columns_at_least(old(target)@, final(target)@, ctx.config.comments.line_comment_min_column),
        forall|t: int|
            0 <= t < old(extra)@.len() && #[trigger] final(extra)@[t] != old(extra)@[t] ==> t < tok_col@.len()
                && tree.elems_kind_token(t, TK_ASSIGN),
        forall|t: int|
            0 <= t < old(extra)@.len() && #[trigger] final(extra)@[t] != old(extra)@[t] ==> exists|u: int|
                #[trigger] tree.elems_kind_token(u, TK_ASSIGN) && u < tok_col@.len() && tok_col@[u] == tok_col@[t] + final(extra)@[t],
        forall|t: int| 0 <= t < old(extra)@.len() && #[trigger] old(extra)@[t] != 0 ==> final(extra)@[t] != 0,
        aligns_table_fields(ctx, tree, n as int) && table_align_signal(tree, n as int) && table_columns_differ(
            tree,
            n as int,
            tok_col@,
        ) && old(extra)@.len() == tree.elems.len() ==> exists|u: int| #[trigger] table_assign(tree, n as int, u) && final(extra)@[u] > 0,
{
    let kind = tree.elems[n].kind;
    let is_table = kind == SK_TABLE_OBJECT_EXPR || kind == SK_TABLE_ARRAY_EXPR;
    let comments_on = ctx.config.comments.align_line_comments && if is_table {
        ctx.config.comments.align_in_table_fields
    } else if kind == SK_PARAM_LIST {
        ctx.config.comments.align_in_params
    } else {
        ctx.config.comments.align_in_call_args
    };
    let min_spaces = if ctx.config.comments.line_comment_min_spaces_before > 1 {
        ctx.config.comments.line_comment_min_spaces_before
    } else {
        1
    };
    let sibs = direct_children(tree, n);
    let ghost dc = crate::syntax::direct_children(tree, n as int);
    assert(sibs@.len() == dc.len()) by {
        assert(sibs@.map_values(|x: usize| x as int).len() == sibs@.len());
    }
    assert forall|k: int| 0 <= k < sibs@.len() implies #[trigger] sibs@[k] as int == dc[k] by {
        assert(sibs@.map_values(|x: usize| x as int)[k] == sibs@[k] as int);
    }
    let mut changed = false;
    // The `=` signs of a table.
    if is_table && ctx.config.align.table_field {
        let mut signal = false;
        let mut widest: usize = 0;
        let mut k: usize = 0;
        while k < sibs.len()
            invariant
                tree.wf(),
                k <= sibs.len(),
                widest == 0 || exists|u: int|
                    #[trigger] tree.elems_kind_token(u, TK_ASSIGN) && u < tok_col@.len() && tok_col@[u] == widest,
                forall|j: int| 0 <= j < sibs@.len() ==> #[trigger] sibs@[j] < tree.elems.len(),
                sibs@.len() == dc.len(),
                forall|j: int| 0 <= j < sibs@.len() ==> #[trigger] sibs@[j] as int == dc[j],
                forall|idx: int, u: int|
                    0 <= idx < k && is_keyed_field(tree, dc[idx]) && #[trigger] field_assign(tree, dc[idx], u) && u
                        < tok_col@.len() ==> tok_col@[u] <= widest,
                forall|idx: int, u: int|
                    0 <= idx < k && is_keyed_field(tree, dc[idx]) && #[trigger] field_assign(tree, dc[idx], u) && (
                    gap_around(tree, u, false) > 1 || gap_around(tree, u, true) > 1) ==> signal,
            decreases sibs.len() - k,
        {
            let s = sibs[k];
            let ghost w0 = widest;
            let ghost sig0 = signal;
            if tree.elems[s].is_node && tree.elems[s].kind == SK_TABLE_FIELD_ASSIGN {
                if let Some(eq) = direct_token(tree, s, TK_ASSIGN) {
                    if source_gap_at(tree, eq, false) > 1 || source_gap_at(tree, eq, true) > 1 {
                        signal = true;
                    }
                    if eq < tok_col.len() && tok_col[eq] > widest {
                        widest = tok_col[eq];
                    }
                    proof {
                        assert(field_assign(tree, dc[k as int], eq as int));
                        assert forall|u: int| #[trigger] field_assign(tree, dc[k as int], u) implies u == eq as int by {
                            lemma_field_assign_unique(tree, dc[k as int], u, eq as int);
                        }
                    }
                } else {
                    proof {
                        assert forall|u: int| !#[trigger] field_assign(tree, dc[k as int], u) by {
                            if field_assign(tree, dc[k as int], u) {
                                let ii = choose|ii: int|
                                    0 <= ii < crate::syntax::direct_children(tree, dc[k as int]).len()
                                        && crate::syntax::direct_children(tree, dc[k as int])[ii] == u && tree.elems_kind_token(u, TK_ASSIGN)
                                        && forall|j: int|
                                        0 <= j < ii ==> !tree.elems_kind_token(#[trigger] crate::syntax::direct_children(tree, dc[k as int])[j], TK_ASSIGN);
                                assert(!tree.elems_kind_token(crate::syntax::direct_children(tree, dc[k as int])[ii], TK_ASSIGN));
                            }
                        }
                    }
                }
            }
            k = k + 1;
        }
        if signal {
            let mut k2: usize = 0;
            while k2 < sibs.len()
                invariant
                    tree.wf(),
                    k2 <= sibs.len(),
                    extra@.len() == old(extra)@.len(),
                    sibs@.len() == dc.len(),
                    forall|j: int| 0 <= j < sibs@.len() ==> #[trigger] sibs@[j] as int == dc[j],
                    forall|t: int| 0 <= t < old(extra)@.len() && #[trigger] old(extra)@[t] != 0 ==> extra@[t] != 0,
                    forall|idx: int, u: int|
                        0 <= idx < k2 && is_keyed_field(tree, dc[idx]) && #[trigger] field_assign(tree, dc[idx], u) && u
                            < tok_col@.len() && u < extra@.len() && tok_col@[u] < widest ==> extra@[u] > 0,
                    forall|t: int|
                        0 <= t < old(extra)@.len() && #[trigger] extra@[t] != old(extra)@[t] ==> t < tok_col@.len()
                            && tree.elems_kind_token(t, TK_ASSIGN),
                    forall|t: int|
                        0 <= t < old(extra)@.len() && #[trigger] extra@[t] != old(extra)@[t] ==> exists|u: int|
                            #[trigger] tree.elems_kind_token(u, TK_ASSIGN) && u < tok_col@.len() && tok_col@[u] == tok_col@[t] + extra@[t],
                    widest == 0 || exists|u: int|
                        #[trigger] tree.elems_kind_token(u, TK_ASSIGN) && u < tok_col@.len() && tok_col@[u] == widest,
                    forall|j: int| 0 <= j < sibs@.len() ==> #[trigger] sibs@[j] < tree.elems.len(),
                decreases sibs.len() - k2,
            {
                let s = sibs[k2];
                if tree.elems[s].is_node && tree.elems[s].kind == SK_TABLE_FIELD_ASSIGN {
                    if let Some(eq) = direct_token(tree, s, TK_ASSIGN) {
                        proof {
                            assert(field_assign(tree, dc[k2 as int], eq as int));
                            assert forall|u: int| #[trigger] field_assign(tree, dc[k2 as int], u) implies u == eq as int by {
                                lemma_field_assign_unique(tree, dc[k2 as int], u, eq as int);
                            }
                        }
                        if eq < tok_col.len() && eq < extra.len() && tok_col[eq] < widest {
                            extra.set(eq, widest - tok_col[eq]);
                            changed = true;
                        }
                    }
                }
                k2 = k2 + 1;
            }
        }
    }
    if !comments_on {
        return changed;
    }
    // The trailing comments, by runs of items that have one.
    let mut signal = is_table;
    let mut k: usize = 0;
    while k < sibs.len()
        invariant
            tree.wf(),
            forall|j: int| 0 <= j < sibs@.len() ==> #[trigger] sibs@[j] < tree.elems.len(),
        decreases sibs.len() - k,
    {
        let s = sibs[k];
        if tree.elems[s].is_node && !is_comment(tree, s) {
            if let Some(c) = comment_after_item(tree, &sibs, k) {
                if source_gap_before(tree, c) > min_spaces {
                    signal = true;
                }
            }
        }
        k = k + 1;
    }
    if !signal {
        return changed;
    }
    let min_col = ctx.config.comments.line_comment_min_column;
    let mut group: Vec<(usize, usize)> = Vec::new();
    let mut k3: usize = 0;
    while k3 < sibs.len()
        invariant
            tree.wf(),
            target@.len() == old(target)@.len(),
            columns_at_least(old(target)@, target@, min_col),
            min_col == ctx.config.comments.line_comment_min_column,
            forall|j: int| 0 <= j < sibs@.len() ==> #[trigger] sibs@[j] < tree.elems.len(),
        decreases sibs.len() - k3,
    {
        let s = sibs[k3];
        if tree.elems[s].is_node && !is_comment(tree, s) {
            match comment_after_item(tree, &sibs, k3) {
                Some(c) => {
                    if let Some(f) = tree.first_solid_token(c) {
                        let mut width = content_end_before(tree, c, end_col);
                        if tree.elems[s].kind == SK_TABLE_FIELD_ASSIGN {
                            if let Some(eq) = direct_token(tree, s, TK_ASSIGN) {
                                if eq < extra.len() {
                                    width = width.saturating_add(extra[eq]);
                                }
                            }
                        }
                        group.push((f, width));
                    }
                },
                None => {
                    if place_comments(&group, min_spaces, min_col, target) {
                        changed = true;
                    }
                    group = Vec::new();
                },
            }
        }
        k3 = k3 + 1;
    }
    if place_comments(&group, min_spaces, min_col, target) {
        changed = true;
    }
    changed
}

/// The spaces to add before each `=` and the column of each trailing comment, for every
/// aligned group of statements, table fields, parameters and arguments; the flag tells whether
/// anything is to change.
pub fn statement_alignment_pads(
    ctx: &FormatContext,
    tree: &SyntaxTree,
    plan: &RootFormatPlan,
    tok_col: &Vec<usize>,
    end_col: &Vec<usize>,
) -> (r: (Vec<usize>, Vec<usize>, bool))
    requires
        tree.wf(),
        plan.wf(),
    ensures
        r.0@.len() == tree.elems.len(),
        r.1@.len() == tree.elems.len(),
        forall|t: int|
            0 <= t < tree.elems.len() && #[trigger] r.0@[t] != 0 ==> t < tok_col@.len() && tree.elems_kind_token(t, TK_ASSIGN),
        forall|t: int|
            0 <= t < tree.elems.len() && #[trigger] r.0@[t] != 0 ==> exists|u: int|
                #[trigger] tree.elems_kind_token(u, TK_ASSIGN) && u < tok_col@.len() && tok_col@[u] == tok_col@[t] + r.0@[t],
        !ctx.config.align.continuous_assign_statement && !ctx.config.align.table_field ==> forall|t: int|
            0 <= t < tree.elems.len() ==> #[trigger] r.0@[t] == 0,
        !ctx.config.comments.align_line_comments ==> forall|t: int| 0 <= t < tree.elems.len() ==> #[trigger] r.1@[t] == 0,
        forall|t: int| 0 <= t < tree.elems.len() && #[trigger] r.1@[t] != 0 ==> r.1@[t] >= ctx.config.comments.line_comment_min_column,
        forall|n: int|
            0 <= n < tree.elems.len() && tree.elems@[n].is_node && #[trigger] aligns_table_fields(ctx, tree, n)
                && table_align_signal(tree, n) && table_columns_differ(tree, n, tok_col@) ==> exists|u: int|
                #[trigger] table_assign(tree, n, u) && r.0@[u] > 0,
        !ctx.config.align.continuous_assign_statement && !ctx.config.align.table_field
            && !ctx.config.comments.align_line_comments ==> !r.2,
        ctx.config.align.continuous_assign_statement ==> forall|b: int, k1: int, k2: int|
            0 <= b < tree.elems.len() && crate::syntax::node_is(tree, b, SK_BLOCK) && #[trigger] aligned_pair(
                tree,
                plan,
                b,
                k1,
                k2,
            ) ==> pair_padded(
                tree,
                crate::syntax::direct_children(tree, b)[k1],
                crate::syntax::direct_children(tree, b)[k2],
                tok_col@,
                r.0@,
            ),
{
    let mut extra: Vec<usize> = Vec::new();
    let mut target: Vec<usize> = Vec::new();
    let mut i: usize = 0;
    while i < tree.elems.len()
        invariant
            extra@.len() == i,
            target@.len() == i,
            i <= tree.elems.len(),
            forall|t: int| 0 <= t < i ==> #[trigger] extra@[t] == 0,
            forall|t: int| 0 <= t < i ==> #[trigger] target@[t] == 0,
        decreases tree.elems.len() - i,
    {
        extra.push(0);
        target.push(0);
        i = i + 1;
    }
    let mut any = false;
    let mut b: usize = 0;
    while b < tree.elems.len()
        invariant
            tree.wf(),
            plan.wf(),
            extra@.len() == tree.elems.len(),
            target@.len() == tree.elems.len(),
            forall|t: int|
                0 <= t < tree.elems.len() && #[trigger] extra@[t] != 0 ==> t < tok_col@.len() && tree.elems_kind_token(t, TK_ASSIGN),
            forall|t: int|
                0 <= t < tree.elems.len() && #[trigger] extra@[t] != 0 ==> exists|u: int|
                    #[trigger] tree.elems_kind_token(u, TK_ASSIGN) && u < tok_col@.len() && tok_col@[u] == tok_col@[t] + extra@[t],
            !ctx.config.align.continuous_assign_statement && !ctx.config.align.table_field ==> forall|t: int|
                0 <= t < tree.elems.len() ==> #[trigger] extra@[t] == 0,
            !ctx.config.comments.align_line_comments ==> forall|t: int| 0 <= t < tree.elems.len() ==> #[trigger] target@[t] == 0,
            forall|t: int| 0 <= t < tree.elems.len() && #[trigger] target@[t] != 0 ==> target@[t] >= ctx.config.comments.line_comment_min_column,
            forall|m: int|
                0 <= m < b && tree.elems@[m].is_node && #[trigger] aligns_table_fields(ctx, tree, m)
                    && table_align_signal(tree, m) && table_columns_differ(tree, m, tok_col@) ==> exists|u: int|
                    #[trigger] table_assign(tree, m, u) && extra@[u] > 0,
            !ctx.config.align.continuous_assign_statement && !ctx.config.align.table_field
                && !ctx.config.comments.align_line_comments ==> !any,
            ctx.config.align.continuous_assign_statement ==> forall|bb: int, k1: int, k2: int|
                0 <= bb < b && crate::syntax::node_is(tree, bb, SK_BLOCK) && #[trigger] aligned_pair(
                    tree,
                    plan,
                    bb,
                    k1,
                    k2,
                ) ==> pair_padded(
                    tree,
                    crate::syntax::direct_children(tree, bb)[k1],
                    crate::syntax::direct_children(tree, bb)[k2],
                    tok_col@,
                    extra@,
                ),
        decreases tree.elems.len() - b,
    {
        let ghost e0 = extra@;
        if tree.elems[b].is_node && tree.elems[b].kind == SK_BLOCK {
            if align_block(ctx, tree, plan, b, tok_col, end_col, &mut extra, &mut target) {
                any = true;
            }
        }
        let ghost e_block = extra@;
        if tree.elems[b].is_node && (tree.elems[b].kind == SK_TABLE_OBJECT_EXPR
            || tree.elems[b].kind == SK_TABLE_ARRAY_EXPR || tree.elems[b].kind == SK_PARAM_LIST
            || tree.elems[b].kind == SK_CALL_ARG_LIST) {
            let ghost e1 = extra@;
            if align_sequence(ctx, tree, b, tok_col, end_col, &mut extra, &mut target) {
                any = true;
            }
            assert forall|t: int|
                0 <= t < tree.elems.len() && #[trigger] extra@[t] != 0 implies t < tok_col@.len() && tree.elems_kind_token(t, TK_ASSIGN) by {
                if extra@[t] == e1[t] {
                    if extra@[t] == e0[t] {
                    }
                }
            }
            assert forall|t: int|
                0 <= t < tree.elems.len() && #[trigger] extra@[t] != 0 implies exists|u: int|
                    #[trigger] tree.elems_kind_token(u, TK_ASSIGN) && u < tok_col@.len() && tok_col@[u] == tok_col@[t] + extra@[t] by {
                if extra@[t] == e1[t] {
                    if extra@[t] == e0[t] {
                    }
                }
            }
        }
        proof {
            assert forall|t: int| 0 <= t < tree.elems.len() && #[trigger] e0[t] != 0 implies extra@[t] != 0 by {}
            assert forall|t: int| 0 <= t < tree.elems.len() && #[trigger] e_block[t] != 0 implies extra@[t] != 0 by {}
            if ctx.config.align.continuous_assign_statement {
                assert forall|bb: int, k1: int, k2: int|
                    0 <= bb < b + 1 && crate::syntax::node_is(tree, bb, SK_BLOCK) && #[trigger] aligned_pair(
                        tree,
                        plan,
                        bb,
                        k1,
                        k2,
                    ) implies pair_padded(
                        tree,
                        crate::syntax::direct_children(tree, bb)[k1],
                        crate::syntax::direct_children(tree, bb)[k2],
                        tok_col@,
                        extra@,
                    ) by {
                    let dcb = crate::syntax::direct_children(tree, bb);
                    if bb < b {
                        lemma_pair_padded_kept(tree, dcb[k1], dcb[k2], tok_col@, e0, extra@);
                    } else {
                        lemma_pair_padded_kept(tree, dcb[k1], dcb[k2], tok_col@, e_block, extra@);
                    }
                }
            }
            assert forall|m: int|
                0 <= m < b + 1 && tree.elems@[m].is_node && #[trigger] aligns_table_fields(ctx, tree, m)
                    && table_align_signal(tree, m) && table_columns_differ(tree, m, tok_col@) implies exists|u: int|
                    #[trigger] table_assign(tree, m, u) && extra@[u] > 0 by {
                if m < b {
                    let u = choose|u: int| #[trigger] table_assign(tree, m, u) && e0[u] > 0;
                    lemma_table_assign_bound(tree, m, u);
                    assert(extra@[u] != 0);
                }
            }
        }
        b = b + 1;
    }
    (extra, target, any)
}

/// The `=` of a field of a table is an element of the tree.
proof fn lemma_table_assign_bound(tree: &SyntaxTree, n: int, u: int)
    requires
        table_assign(tree, n, u),
    ensures
        0 <= u < tree.elems.len(),
{
    let i = choose|i: int|
        0 <= i < crate::syntax::direct_children(tree, n).len() && is_keyed_field(tree, crate::syntax::direct_children(tree, n)[i])
            && #[trigger] field_assign(tree, crate::syntax::direct_children(tree, n)[i], u);
    let f = crate::syntax::direct_children(tree, n)[i];
    let dc = crate::syntax::direct_children(tree, f);
    let i2 = choose|i2: int|
        0 <= i2 < dc.len() && dc[i2] == u && tree.elems_kind_token(u, TK_ASSIGN) && forall|j: int|
            0 <= j < i2 ==> !tree.elems_kind_token(#[trigger] dc[j], TK_ASSIGN);
}

} // verus!
