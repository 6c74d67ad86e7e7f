//! The columns of doc tag lines as the syntax tree gives them: names, types and descriptions
//! of `@param`, `@field`, `@return`, `@type` and the declaration tags.

use vstd::prelude::*;

use crate::comment::{chars_of, StructuredDocTagColumns};
use crate::kinds::{
    SK_DOC_DESCRIPTION, SK_DOC_OBJECT_FIELD, SK_DOC_TAG_ALIAS, SK_DOC_TAG_CLASS, SK_DOC_TAG_FIELD,
    SK_DOC_TAG_GENERIC, SK_DOC_TAG_OVERLOAD, SK_DOC_TAG_PARAM, SK_DOC_TAG_RETURN, SK_DOC_TAG_TYPE,
    SK_TYPE_ARRAY, SK_TYPE_MAPPED, SK_TYPE_MATCH, SK_TYPE_OBJECT, TK_DOC_CONTINUE, TK_DOC_DETAIL,
    TK_DOC_QUESTION, TK_DOTS, TK_END_OF_LINE, TK_NAME, TK_NORMAL_START, TK_WHITESPACE,
};
use crate::syntax::SyntaxTree;
use crate::text::{char_views, lines_of, push_all, slice_chars, split_lines, trim};
use crate::FormatContext;

verus! {

/// The direct children of node `n`, nodes and tokens, by index.
fn direct_children_of(tree: &SyntaxTree, n: usize) -> (r: Vec<usize>)
    requires
        tree.wf(),
        n < tree.elems.len(),
    ensures
        forall|k: int| 0 <= k < r@.len() ==> #[trigger] r@[k] < tree.elems.len(),
        r@.map_values(|x: usize| x as int) == crate::syntax::direct_children(tree, n as int),
{
    let end = tree.elems[n].end;
    let mut out: Vec<usize> = Vec::new();
    let mut pos = n + 1;
    while pos < end
        invariant
            tree.wf(),
            n < tree.elems.len(),
            end == tree.elems@[n as int].end,
            end <= tree.elems.len(),
            n < pos,
            forall|k: int| 0 <= k < out@.len() ==> #[trigger] out@[k] < tree.elems.len(),
            out@.map_values(|x: usize| x as int) + crate::syntax::direct_from(tree, pos as int, end as int)
                == crate::syntax::direct_from(tree, n + 1, end as int),
        decreases tree.elems.len() - pos,
    {
        let ghost before = out@;
        out.push(pos);
        let next = tree.elems[pos].end;
        assert(pos < next <= tree.elems.len());
        proof {
            assert(out@.map_values(|x: usize| x as int) =~= before.map_values(|x: usize| x as int).push(pos as int));
            if (next as int) < (end as int) {
                assert(crate::syntax::direct_from(tree, pos as int, end as int) == seq![pos as int]
                    + crate::syntax::direct_from(tree, next as int, end as int));
                assert(before.map_values(|x: usize| x as int) + crate::syntax::direct_from(tree, pos as int, end as int)
                    =~= out@.map_values(|x: usize| x as int) + crate::syntax::direct_from(tree, next as int, end as int));
            } else {
                assert(crate::syntax::direct_from(tree, pos as int, end as int) == seq![pos as int]);
                assert(crate::syntax::direct_from(tree, next as int, end as int) =~= Seq::<int>::empty());
                assert(before.map_values(|x: usize| x as int) + crate::syntax::direct_from(tree, pos as int, end as int)
                    =~= out@.map_values(|x: usize| x as int) + crate::syntax::direct_from(tree, next as int, end as int));
            }
        }
        pos = next;
    }
    proof {
        assert(crate::syntax::direct_from(tree, pos as int, end as int) =~= Seq::<int>::empty());
        assert(out@.map_values(|x: usize| x as int) + Seq::<int>::empty() =~= out@.map_values(|x: usize| x as int));
    }
    out
}

/// The first direct child token of `n` of kind `kind`.
fn direct_token(tree: &SyntaxTree, n: usize, kind: u16) -> (r: Option<usize>)
    requires
        tree.wf(),
        n < tree.elems.len(),
    ensures
        r matches Some(t) ==> t < tree.elems.len() && exists|i: int|
            0 <= i < crate::syntax::direct_children(tree, n as int).len() && crate::syntax::direct_children(tree, n as int)[i] == t
                && tree.elems_kind_token(t as int, kind) && forall|j: int|
                0 <= j < i ==> !tree.elems_kind_token(#[trigger] crate::syntax::direct_children(tree, n as int)[j], kind),
        r is None ==> forall|i: int|
            0 <= i < crate::syntax::direct_children(tree, n as int).len() ==> !tree.elems_kind_token(
                #[trigger] crate::syntax::direct_children(tree, n as int)[i],
                kind,
            ),
        r is Some <==> kind_tokens(tree, crate::syntax::direct_children(tree, n as int), kind).len() > 0,
        r matches Some(t) ==> t as int == kind_tokens(tree, crate::syntax::direct_children(tree, n as int), kind)[0],
{
    let children = direct_children_of(tree, n);
    let ghost dc = crate::syntax::direct_children(tree, n as int);
    assert(children@.len() == dc.len()) by {
        assert(children@.map_values(|x: usize| x as int).len() == children@.len());
    }
    let mut i: usize = 0;
    while i < children.len()
        invariant
            tree.wf(),
            i <= children@.len(),
            children@.map_values(|x: usize| x as int) == dc,
            dc == crate::syntax::direct_children(tree, n as int),
            children@.len() == dc.len(),
            forall|k: int| 0 <= k < children@.len() ==> #[trigger] children@[k] < tree.elems.len(),
            forall|j: int| 0 <= j < i ==> !tree.elems_kind_token(#[trigger] dc[j], kind),
            kind_tokens(tree, dc.take(i as int), kind).len() == 0,
        decreases children.len() - i,
    {
        let c = children[i];
        assert(dc[i as int] == c as int);
        assert(dc.take(i + 1).drop_last() == dc.take(i as int));
        assert(dc.take(i + 1).last() == c as int);
        if !tree.elems[c].is_node && tree.elems[c].kind == kind {
            proof {
                assert(kind_tokens(tree, dc.take(i + 1), kind) == seq![c as int]);
                lemma_kind_tokens_prefix(tree, dc, kind, i + 1, dc.len() as int);
                assert(dc.take(dc.len() as int) == dc);
                let ii = i as int;
                assert(0 <= ii < dc.len() && dc[ii] == c as int && tree.elems_kind_token(c as int, kind)
                    && forall|j: int| 0 <= j < ii ==> !tree.elems_kind_token(#[trigger] dc[j], kind));
            }
            return Some(c);
        }
        assert(kind_tokens(tree, dc.take(i + 1), kind) == kind_tokens(tree, dc.take(i as int), kind));
        i = i + 1;
    }
    assert(dc.take(dc.len() as int) == dc);
    None
}

/// The tokens of kind `kind` among `cs`, in order.
pub open spec fn kind_tokens(tree: &SyntaxTree, cs: Seq<int>, kind: u16) -> Seq<int>
    decreases cs.len(),
{
    if cs.len() == 0 {
        Seq::empty()
    } else if tree.elems_kind_token(cs.last(), kind) {
        kind_tokens(tree, cs.drop_last(), kind).push(cs.last())
    } else {
        kind_tokens(tree, cs.drop_last(), kind)
    }
}

/// The tokens of a kind among a prefix of `s` begin those among a longer prefix.
proof fn lemma_kind_tokens_prefix(tree: &SyntaxTree, s: Seq<int>, kind: u16, i: int, j: int)
    requires
        0 <= i <= j <= s.len(),
    ensures
        kind_tokens(tree, s.take(i), kind).len() <= kind_tokens(tree, s.take(j), kind).len(),
        forall|k: int| 0 <= k < kind_tokens(tree, s.take(i), kind).len() ==> #[trigger] kind_tokens(tree, s.take(j), kind)[k]
            == kind_tokens(tree, s.take(i), kind)[k],
    decreases j - i,
{
    if i < j {
        lemma_kind_tokens_prefix(tree, s, kind, i, j - 1);
        assert(s.take(j).drop_last() == s.take(j - 1));
    }
}

/// The first (or, with `last`, the last) direct child node of `n` that is a doc type.
fn direct_type(tree: &SyntaxTree, n: usize, last: bool) -> (r: Option<usize>)
    requires
        tree.wf(),
        n < tree.elems.len(),
    ensures
        r matches Some(t) ==> t < tree.elems.len() && exists|i: int|
            0 <= i < crate::syntax::direct_children(tree, n as int).len() && crate::syntax::direct_children(tree, n as int)[i] == t
                && is_type_node(tree, t as int) && (if last {
                forall|j: int|
                    i < j < crate::syntax::direct_children(tree, n as int).len() ==> !is_type_node(tree, #[trigger] crate::syntax::direct_children(tree, n as int)[j])
            } else {
                forall|j: int| 0 <= j < i ==> !is_type_node(tree, #[trigger] crate::syntax::direct_children(tree, n as int)[j])
            }),
        r is None ==> forall|i: int|
            0 <= i < crate::syntax::direct_children(tree, n as int).len() ==> !is_type_node(
                tree,
                #[trigger] crate::syntax::direct_children(tree, n as int)[i],
            ),
        r is Some <==> tag_types(tree, crate::syntax::direct_children(tree, n as int)).len() > 0,
        r matches Some(t) ==> t as int == (if last {
            tag_types(tree, crate::syntax::direct_children(tree, n as int)).last()
        } else {
            tag_types(tree, crate::syntax::direct_children(tree, n as int))[0]
        }),
{
    let children = direct_children_of(tree, n);
    let ghost dc = crate::syntax::direct_children(tree, n as int);
    assert(children@.len() == dc.len()) by {
        assert(children@.map_values(|x: usize| x as int).len() == children@.len());
    }
    let mut found: Option<usize> = None;
    let mut i: usize = 0;
    while i < children.len()
        invariant
            tree.wf(),
            i <= children@.len(),
            children@.map_values(|x: usize| x as int) == dc,
            dc == crate::syntax::direct_children(tree, n as int),
            children@.len() == dc.len(),
            forall|k: int| 0 <= k < children@.len() ==> #[trigger] children@[k] < tree.elems.len(),
            found matches Some(t) ==> t < tree.elems.len() && exists|w: int|
                0 <= w < i && dc[w] == t && is_type_node(tree, t as int) && forall|j: int|
                    w < j < i ==> !is_type_node(tree, #[trigger] dc[j]),
            found is None ==> forall|j: int| 0 <= j < i ==> !is_type_node(tree, #[trigger] dc[j]),
            !last ==> found is None,
            found is Some <==> tag_types(tree, dc.take(i as int)).len() > 0,
            found matches Some(t) ==> t as int == tag_types(tree, dc.take(i as int)).last(),
        decreases children.len() - i,
    {
        let c = children[i];
        assert(dc[i as int] == c as int);
        assert(dc.take(i + 1).drop_last() == dc.take(i as int));
        assert(dc.take(i + 1).last() == c as int);
        let k = tree.elems[c].kind;
        if tree.elems[c].is_node && SK_TYPE_ARRAY <= k && k <= SK_TYPE_MAPPED && k != SK_TYPE_MATCH {
            assert(tag_types(tree, dc.take(i + 1)) == tag_types(tree, dc.take(i as int)).push(c as int));
            if !last {
                proof {
                    lemma_tag_types_prefix(tree, dc, i + 1, dc.len() as int);
                    assert(dc.take(dc.len() as int) == dc);
                    let ii = i as int;
                    assert(0 <= ii < dc.len() && dc[ii] == c as int && is_type_node(tree, c as int)
                        && forall|j: int| 0 <= j < ii ==> !is_type_node(tree, #[trigger] dc[j]));
                }
                return Some(c);
            }
            found = Some(c);
            proof {
                let ii = i as int;
                assert(0 <= ii < i + 1 && dc[ii] == c as int && is_type_node(tree, c as int) && forall|j: int|
                    ii < j < i + 1 ==> !is_type_node(tree, #[trigger] dc[j]));
            }
        } else {
            assert(tag_types(tree, dc.take(i + 1)) == tag_types(tree, dc.take(i as int)));
            proof {
                assert(!is_type_node(tree, dc[i as int]));
                if let Some(t) = found {
                    let w = choose|w: int| 0 <= w < i && dc[w] == t && is_type_node(tree, t as int) && forall|j: int|
                        w < j < i ==> !is_type_node(tree, #[trigger] dc[j]);
                    assert(0 <= w < i + 1 && dc[w] == t && is_type_node(tree, t as int) && forall|j: int|
                        w < j < i + 1 ==> !is_type_node(tree, #[trigger] dc[j]));
                }
            }
        }
        i = i + 1;
    }
    assert(dc.take(dc.len() as int) == dc);
    found
}

/// The type nodes among a prefix of `s` begin the type nodes among a longer prefix.
proof fn lemma_tag_types_prefix(tree: &SyntaxTree, s: Seq<int>, i: int, j: int)
    requires
        0 <= i <= j <= s.len(),
    ensures
        tag_types(tree, s.take(i)).len() <= tag_types(tree, s.take(j)).len(),
        forall|k: int| 0 <= k < tag_types(tree, s.take(i)).len() ==> #[trigger] tag_types(tree, s.take(j))[k]
            == tag_types(tree, s.take(i))[k],
    decreases j - i,
{
    if i < j {
        lemma_tag_types_prefix(tree, s, i, j - 1);
        assert(s.take(j).drop_last() == s.take(j - 1));
    }
}

/// Element `c` is a type node other than a match type.
pub open spec fn is_type_node(tree: &SyntaxTree, c: int) -> bool {
    &&& 0 <= c < tree.elems.len()
    &&& tree.elems@[c].is_node
    &&& SK_TYPE_ARRAY <= tree.elems@[c].kind <= SK_TYPE_MAPPED
    &&& tree.elems@[c].kind != SK_TYPE_MATCH
}

/// Token `t` is the first token of node `n`.
pub open spec fn first_token_at(tree: &SyntaxTree, n: int, t: int) -> bool {
    &&& n < t < tree.elems@[n].end
    &&& !tree.elems@[t].is_node
    &&& forall|u: int| n < u < t ==> #[trigger] tree.elems@[u].is_node
}

/// The offset where the first token of node `n` ends.
pub open spec fn content_start_spec(tree: &SyntaxTree, n: int) -> Option<usize> {
    if exists|t: int| first_token_at(tree, n, t) {
        Some(tree.elems@[choose|t: int| first_token_at(tree, n, t)].text_end)
    } else {
        None
    }
}

/// The source text of node `n` between two offsets inside it.
pub open spec fn node_slice(tree: &SyntaxTree, n: int, start: int, end: int) -> Seq<char> {
    if tree.elems@[n].text_start <= start <= end <= tree.elems@[n].text_end {
        tree.text@.subrange(start, end)
    } else {
        Seq::empty()
    }
}

/// The first line of `t`.
pub open spec fn first_line_of(t: Seq<char>) -> Seq<char> {
    if lines_of(t).len() > 0 {
        lines_of(t)[0]
    } else {
        Seq::empty()
    }
}

/// The offset where the first token of node `n` ends.
fn structured_tag_content_start(tree: &SyntaxTree, n: usize) -> (r: Option<usize>)
    requires
        tree.wf(),
        n < tree.elems.len(),
    ensures
        match r {
            Some(off) => exists|t: int|
                n < t < tree.elems@[n as int].end && !tree.elems@[t].is_node && (forall|u: int|
                    n < u < t ==> #[trigger] tree.elems@[u].is_node) && off == tree.elems@[t].text_end,
            None => forall|u: int| n < u < tree.elems@[n as int].end ==> #[trigger] tree.elems@[u].is_node,
        },
        r == content_start_spec(tree, n as int),
{
    let end = tree.elems[n].end;
    let mut pos = n + 1;
    while pos < end
        invariant
            tree.wf(),
            end <= tree.elems.len(),
            end == tree.elems@[n as int].end,
            n < pos,
            forall|u: int| n < u < pos ==> #[trigger] tree.elems@[u].is_node,
        decreases end - pos,
    {
        if !tree.elems[pos].is_node {
            proof {
                assert(first_token_at(tree, n as int, pos as int));
                assert forall|t: int| #[trigger] first_token_at(tree, n as int, t) implies t == pos as int by {
                    if t < pos {
                    } else if pos < t {
                        assert(tree.elems@[pos as int].is_node);
                    }
                }
            }
            return Some(tree.elems[pos].text_end);
        }
        pos = pos + 1;
    }
    proof {
        assert forall|t: int| !#[trigger] first_token_at(tree, n as int, t) by {
            if first_token_at(tree, n as int, t) {
                assert(tree.elems@[t].is_node);
            }
        }
    }
    None
}

/// The text of node `n` between the offsets `start` and `end`, or nothing when they do not lie
/// in order inside the node.
fn slice_node_text(tree: &SyntaxTree, n: usize, start: usize, end: usize) -> (r: Vec<char>)
    requires
        tree.wf(),
        n < tree.elems.len(),
    ensures
        r@ == (if tree.elems@[n as int].text_start <= start <= end <= tree.elems@[n as int].text_end {
            tree.text@.subrange(start as int, end as int)
        } else {
            Seq::empty()
        }),
{
    let e = tree.elems[n];
    if e.text_start <= start && start <= end && end <= e.text_end {
        slice_chars(tree.text.as_slice(), start, end)
    } else {
        Vec::new()
    }
}

/// The first line of a text, or nothing.
fn first_line(text: &[char]) -> (r: Vec<char>)
    ensures
        r@ == (if lines_of(text@).len() > 0 {
            lines_of(text@)[0]
        } else {
            Seq::empty()
        }),
{
    let lines = split_lines(text);
    assert(char_views(lines@).len() == lines@.len());
    if lines.len() > 0 {
        assert(lines_of(text@)[0] == lines@[0]@);
        let r = slice_chars(lines[0].as_slice(), 0, lines[0].len());
        assert(r@ =~= lines@[0]@);
        r
    } else {
        Vec::new()
    }
}

/// Where a type that starts at `type_start` inside node `n` begins once a `(` written right
/// before it is counted in.
pub open spec fn attached_type_start(tree: &SyntaxTree, n: int, type_start: usize) -> usize {
    if type_start > tree.elems@[n].text_start && type_start - 1 < tree.text@.len() && tree.text@[type_start - 1] == '(' {
        (type_start - 1) as usize
    } else {
        type_start
    }
}

/// `t` without white space at either end.
pub open spec fn trim_both(t: Seq<char>) -> Seq<char> {
    crate::text::trim_end_chars(crate::text::trim_start_chars(t))
}

/// The start of a type that is written right after `(`, moved onto the parenthesis.
fn adjust_attached_type_start(tree: &SyntaxTree, n: usize, type_start: usize) -> (r: usize)
    requires
        tree.wf(),
        n < tree.elems.len(),
    ensures
        r == attached_type_start(tree, n as int, type_start),
{
    let base = tree.elems[n].text_start;
    if type_start <= base {
        return type_start;
    }
    if type_start - 1 < tree.text.len() && tree.text[type_start - 1] == '(' {
        type_start - 1
    } else {
        type_start
    }
}

/// The description node that follows tag `n` among its siblings, white space skipped.
fn inline_description(tree: &SyntaxTree, n: usize) -> (r: Option<usize>)
    requires
        tree.wf(),
        n < tree.elems.len(),
    ensures
        r matches Some(d) ==> d < tree.elems.len(),
        r == description_after(tree, tree.elems@[n as int].parent, tree.elems@[n as int].end as int, 0),
{
    let parent = tree.elems[n].parent;
    let mut pos = tree.elems[n].end;
    let mut steps: usize = 0;
    while steps < 4 && pos < tree.elems.len()
        invariant
            tree.wf(),
            steps <= 4,
            description_after(tree, parent, pos as int, steps as nat) == description_after(
                tree,
                tree.elems@[n as int].parent,
                tree.elems@[n as int].end as int,
                0,
            ),
        decreases 4 - steps,
    {
        if tree.elems[pos].parent != parent {
            return None;
        }
        let e = tree.elems[pos];
        if e.is_node && e.kind == SK_DOC_DESCRIPTION {
            return Some(pos);
        }
        if e.is_node || e.kind != TK_WHITESPACE {
            return None;
        }
        pos = e.end;
        steps = steps + 1;
    }
    None
}

/// The description among the siblings under `parent` from position `pos` on, past at most
/// `4 - steps` white space tokens: the first sibling that is not white space, when it is a
/// description node.
pub open spec fn description_after(tree: &SyntaxTree, parent: Option<usize>, pos: int, steps: nat) -> Option<usize>
    decreases 4 - steps,
{
    if steps >= 4 || pos < 0 || pos >= tree.elems.len() {
        None
    } else if tree.elems@[pos].parent != parent {
        None
    } else if tree.elems@[pos].is_node && tree.elems@[pos].kind == SK_DOC_DESCRIPTION {
        Some(pos as usize)
    } else if tree.elems@[pos].is_node || tree.elems@[pos].kind != TK_WHITESPACE {
        None
    } else {
        description_after(tree, parent, tree.elems@[pos].end as int, steps + 1)
    }
}

/// The text of a description node: its detail text, line breaks, and for each line prefix as
/// many spaces as it holds (a tab counting four).
fn description_text(tree: &SyntaxTree, d: usize) -> (r: Vec<char>)
    requires
        tree.wf(),
        d < tree.elems.len(),
    ensures
        r@ == description_chars(tree, crate::syntax::direct_children(tree, d as int)),
{
    let children = direct_children_of(tree, d);
    let ghost dc = crate::syntax::direct_children(tree, d as int);
    assert(children@.len() == dc.len()) by {
        assert(children@.map_values(|x: usize| x as int).len() == children@.len());
    }
    let mut text: Vec<char> = Vec::new();
    let mut i: usize = 0;
    while i < children.len()
        invariant
            tree.wf(),
            i <= children@.len(),
            children@.map_values(|x: usize| x as int) == dc,
            children@.len() == dc.len(),
            forall|k: int| 0 <= k < children@.len() ==> #[trigger] children@[k] < tree.elems.len(),
            text@ == description_chars(tree, dc.take(i as int)),
        decreases children.len() - i,
    {
        let c = children[i];
        assert(dc[i as int] == c as int);
        assert(dc.take(i + 1).drop_last() == dc.take(i as int));
        assert(dc.take(i + 1).last() == c as int);
        let ghost before = text@;
        let e = tree.elems[c];
        if !e.is_node {
            if e.kind == TK_DOC_DETAIL {
                let t = tree.text_of(c);
                push_all(&mut text, t.as_slice());
            } else if e.kind == TK_END_OF_LINE {
                text.push('\n');
            } else if e.kind == TK_NORMAL_START || e.kind == TK_DOC_CONTINUE {
                let t = tree.text_of(c);
                let mut count: usize = 0;
                let mut k: usize = 0;
                while k < t.len()
                    invariant
                        k <= t@.len(),
                        count == indent_count(t@.take(k as int)),
                    decreases t.len() - k,
                {
                    assert(t@.take(k + 1).drop_last() == t@.take(k as int));
                    if t[k] == ' ' {
                        count = count.saturating_add(1);
                    } else if t[k] == '\t' {
                        count = count.saturating_add(4);
                    }
                    k = k + 1;
                }
                assert(t@.take(t@.len() as int) == t@);
                let mut q: usize = 0;
                while q < count
                    invariant
                        q <= count,
                        text@ == before + Seq::new(q as nat, |z: int| ' '),
                    decreases count - q,
                {
                    text.push(' ');
                    assert(Seq::new((q + 1) as nat, |z: int| ' ') =~= Seq::new(q as nat, |z: int| ' ').push(' '));
                    q = q + 1;
                }
            } else {
                assert(before + Seq::<char>::empty() =~= before);
            }
        } else {
            assert(before + Seq::<char>::empty() =~= before);
        }
        i = i + 1;
    }
    assert(dc.take(dc.len() as int) == dc);
    text
}

/// The indentation a line prefix stands for: one column per space and four per tab, capped at
/// the largest `usize`.
pub open spec fn indent_count(t: Seq<char>) -> usize
    decreases t.len(),
{
    if t.len() == 0 {
        0
    } else {
        let w = indent_count(t.drop_last());
        let add: int = if t.last() == ' ' {
            1
        } else if t.last() == '\t' {
            4
        } else {
            0
        };
        if w + add > usize::MAX {
            usize::MAX
        } else {
            (w + add) as usize
        }
    }
}

/// What a description child contributes to the description's text: a detail's text, a line
/// break, or as many spaces as a line prefix's indentation.
pub open spec fn description_piece(tree: &SyntaxTree, c: int) -> Seq<char> {
    let e = tree.elems@[c];
    if e.is_node {
        Seq::empty()
    } else if e.kind == TK_DOC_DETAIL {
        tree.spec_text(c)
    } else if e.kind == TK_END_OF_LINE {
        seq!['\n']
    } else if e.kind == TK_NORMAL_START || e.kind == TK_DOC_CONTINUE {
        Seq::new(indent_count(tree.spec_text(c)) as nat, |z: int| ' ')
    } else {
        Seq::empty()
    }
}

/// The text of a description from its children.
pub open spec fn description_chars(tree: &SyntaxTree, cs: Seq<int>) -> Seq<char>
    decreases cs.len(),
{
    if cs.len() == 0 {
        Seq::empty()
    } else {
        description_chars(tree, cs.drop_last()) + description_piece(tree, cs.last())
    }
}

/// The description text of tag `n`, if it has one.
fn tag_description(tree: &SyntaxTree, n: usize) -> (r: Option<Vec<char>>)
    requires
        tree.wf(),
        n < tree.elems.len(),
    ensures
        r is Some == description_after(tree, tree.elems@[n as int].parent, tree.elems@[n as int].end as int, 0) is Some,
        r matches Some(v) ==> v@ == description_chars(
            tree,
            crate::syntax::direct_children(
                tree,
                description_after(tree, tree.elems@[n as int].parent, tree.elems@[n as int].end as int, 0).unwrap() as int,
            ),
        ),
{
    match inline_description(tree, n) {
        Some(d) => Some(description_text(tree, d)),
        None => None,
    }
}

/// The token that names a `@param` tag among its children: its name, else its `...`.
pub open spec fn param_head(tree: &SyntaxTree, dc: Seq<int>) -> Option<int> {
    if kind_tokens(tree, dc, TK_NAME).len() > 0 {
        Some(kind_tokens(tree, dc, TK_NAME)[0])
    } else if kind_tokens(tree, dc, TK_DOTS).len() > 0 {
        Some(kind_tokens(tree, dc, TK_DOTS)[0])
    } else {
        None
    }
}

/// `t` without the `?` marks it starts with.
pub open spec fn strip_questions(t: Seq<char>) -> Seq<char>
    decreases t.len(),
{
    if t.len() > 0 && t[0] == '?' {
        strip_questions(t.skip(1))
    } else {
        t
    }
}

/// The type column of a `@param` tag whose name is token `h`.
pub open spec fn param_type_text(tree: &SyntaxTree, n: int, h: int) -> Seq<char> {
    let ts = tag_types(tree, crate::syntax::direct_children(tree, n));
    let end = tree.elems@[n].text_end as int;
    if ts.len() > 0 {
        let start = attached_type_start(tree, n, tree.elems@[ts[0]].text_start) as int;
        trim_both(first_line_of(node_slice(tree, n, start, end)))
    } else {
        trim_both(strip_questions(trim_both(node_slice(tree, n, tree.elems@[h].text_end as int, end))))
    }
}

/// The columns of a `@param` tag: its name (with `?` when optional) and its type.
fn structured_param_columns(tree: &SyntaxTree, n: usize) -> (r: Vec<Vec<char>>)
    requires
        tree.wf(),
        n < tree.elems.len(),
    ensures
        match content_start_spec(tree, n as int) {
            None => r@.len() == 0,
            Some(off) => {
                let dc = crate::syntax::direct_children(tree, n as int);
                match param_head(tree, dc) {
                    None => r@.len() == 1 && r@[0]@ == trim_both(
                        node_slice(tree, n as int, off as int, tree.elems@[n as int].text_end as int),
                    ),
                    Some(h) => {
                        let name = if kind_tokens(tree, dc, TK_DOC_QUESTION).len() > 0 {
                            tree.spec_text(h).push('?')
                        } else {
                            tree.spec_text(h)
                        };
                        let ty = param_type_text(tree, n as int, h);
                        if ty.len() == 0 {
                            r@.len() == 1 && r@[0]@ == name
                        } else {
                            r@.len() == 2 && r@[0]@ == name && r@[1]@ == ty
                        }
                    },
                }
            },
        },
{
    let node_end = tree.elems[n].text_end;
    let content_start = match structured_tag_content_start(tree, n) {
        Some(s) => s,
        None => return Vec::new(),
    };
    let head = match direct_token(tree, n, TK_NAME) {
        Some(t) => Some(t),
        None => direct_token(tree, n, TK_DOTS),
    };
    let head = match head {
        Some(h) => h,
        None => return vec![trim(slice_node_text(tree, n, content_start, node_end).as_slice())],
    };
    let mut name = tree.text_of(head);
    if direct_token(tree, n, TK_DOC_QUESTION).is_some() {
        name.push('?');
    }
    let type_text = match direct_type(tree, n, false) {
        Some(ty) => {
            let type_start = adjust_attached_type_start(tree, n, tree.elems[ty].text_start);
            trim(first_line(slice_node_text(tree, n, type_start, node_end).as_slice()).as_slice())
        },
        None => {
            let after = trim(slice_node_text(tree, n, tree.elems[head].text_end, node_end).as_slice());
            let mut k: usize = 0;
            assert(after@.skip(0) =~= after@);
            while k < after.len() && after[k] == '?'
                invariant
                    k <= after.len(),
                    strip_questions(after@.skip(k as int)) == strip_questions(after@),
                decreases after.len() - k,
            {
                assert(after@.skip(k as int).skip(1) =~= after@.skip(k + 1));
                k = k + 1;
            }
            assert(after@.skip(k as int) =~= after@.subrange(k as int, after@.len() as int));
            trim(slice_chars(after.as_slice(), k, after.len()).as_slice())
        },
    };
    if type_text.len() == 0 {
        vec![name]
    } else {
        vec![name, type_text]
    }
}

/// The columns of a `@field` tag: its key and its type.
fn structured_field_columns(tree: &SyntaxTree, n: usize) -> (r: Vec<Vec<char>>)
    requires
        tree.wf(),
        n < tree.elems.len(),
    ensures
        match content_start_spec(tree, n as int) {
            None => r@.len() == 0,
            Some(off) => {
                let ts = tag_types(tree, crate::syntax::direct_children(tree, n as int));
                let end = tree.elems@[n as int].text_end as int;
                if ts.len() == 0 {
                    r@.len() == 1 && r@[0]@ == trim_both(node_slice(tree, n as int, off as int, end))
                } else {
                    let start = attached_type_start(tree, n as int, tree.elems@[ts.last()].text_start) as int;
                    let key = trim_both(node_slice(tree, n as int, off as int, start));
                    let ty = trim_both(first_line_of(node_slice(tree, n as int, start, end)));
                    if ty.len() == 0 {
                        r@.len() == 1 && r@[0]@ == key
                    } else {
                        r@.len() == 2 && r@[0]@ == key && r@[1]@ == ty
                    }
                }
            },
        },
{
    let node_end = tree.elems[n].text_end;
    let content_start = match structured_tag_content_start(tree, n) {
        Some(s) => s,
        None => return Vec::new(),
    };
    let ty = match direct_type(tree, n, true) {
        Some(t) => t,
        None => return vec![trim(slice_node_text(tree, n, content_start, node_end).as_slice())],
    };
    let type_start = adjust_attached_type_start(tree, n, tree.elems[ty].text_start);
    let key = trim(slice_node_text(tree, n, content_start, type_start).as_slice());
    let type_text = trim(first_line(slice_node_text(tree, n, type_start, node_end).as_slice()).as_slice());
    if type_text.len() == 0 {
        vec![key]
    } else {
        vec![key, type_text]
    }
}

/// The columns of a `@return` tag: the first line of its content.
fn structured_return_columns(tree: &SyntaxTree, n: usize) -> (r: Vec<Vec<char>>)
    requires
        tree.wf(),
        n < tree.elems.len(),
    ensures
        match content_start_spec(tree, n as int) {
            None => r@.len() == 0,
            Some(off) => {
                let head = crate::text::trim_end_chars(crate::text::trim_start_chars(first_line_of(
                    node_slice(tree, n as int, off as int, tree.elems@[n as int].text_end as int),
                )));
                if head.len() == 0 {
                    r@.len() == 0
                } else {
                    r@.len() == 1 && r@[0]@ == head
                }
            },
        },
{
    let content_start = match structured_tag_content_start(tree, n) {
        Some(s) => s,
        None => return Vec::new(),
    };
    let head = trim(first_line(slice_node_text(tree, n, content_start, tree.elems[n].text_end).as_slice()).as_slice());
    if head.len() == 0 {
        Vec::new()
    } else {
        vec![head]
    }
}

/// An object type on one line: its fields trimmed, joined by `, ` inside braces.
fn format_doc_object_type_inline(ctx: &FormatContext, tree: &SyntaxTree, object: usize) -> (r: Vec<char>)
    requires
        tree.wf(),
        object < tree.elems.len(),
    ensures
        r@ == object_inline(ctx.config.spacing.space_inside_braces, object_fields(tree, crate::syntax::direct_children(tree, object as int))),
{
    let children = direct_children_of(tree, object);
    let ghost dc = crate::syntax::direct_children(tree, object as int);
    assert(children@.len() == dc.len()) by {
        assert(children@.map_values(|x: usize| x as int).len() == children@.len());
    }
    let mut fields: Vec<Vec<char>> = Vec::new();
    let mut i: usize = 0;
    while i < children.len()
        invariant
            tree.wf(),
            i <= children@.len(),
            children@.map_values(|x: usize| x as int) == dc,
            dc == crate::syntax::direct_children(tree, object as int),
            children@.len() == dc.len(),
            forall|k: int| 0 <= k < children@.len() ==> #[trigger] children@[k] < tree.elems.len(),
            fields@.len() == object_fields(tree, dc.take(i as int)).len(),
            forall|q: int| 0 <= q < fields@.len() ==> #[trigger] fields@[q]@ == object_fields(tree, dc.take(i as int))[q],
        decreases children.len() - i,
    {
        let c = children[i];
        assert(dc[i as int] == c as int);
        assert(dc.take(i + 1).drop_last() == dc.take(i as int));
        assert(dc.take(i + 1).last() == c as int);
        if tree.elems[c].is_node && tree.elems[c].kind == SK_DOC_OBJECT_FIELD {
            fields.push(trim(tree.text_of(c).as_slice()));
        }
        i = i + 1;
    }
    assert(dc.take(dc.len() as int) == dc);
    let ghost fs = object_fields(tree, dc);
    if fields.len() == 0 {
        let r = chars_of("{}");
        proof {
            reveal_strlit("{}");
        }
        return r;
    }
    let spaced = ctx.config.spacing.space_inside_braces;
    let mut r = if spaced {
        chars_of("{ ")
    } else {
        chars_of("{")
    };
    proof {
        reveal_strlit("{ ");
        reveal_strlit("{");
    }
    let ghost open_part = r@;
    let mut k: usize = 0;
    while k < fields.len()
        invariant
            k <= fields@.len(),
            fields@.len() == fs.len(),
            fs.len() > 0,
            forall|q: int| 0 <= q < fields@.len() ==> #[trigger] fields@[q]@ == fs[q],
            k == 0 ==> r@ == open_part,
            k > 0 ==> r@ == open_part + join_fields(fs.take(k as int)),
        decreases fields.len() - k,
    {
        let ghost before = r@;
        if k > 0 {
            r.push(',');
            r.push(' ');
        }
        push_all(&mut r, fields[k].as_slice());
        proof {
            assert(fs.take(k + 1).drop_last() == fs.take(k as int));
            assert(fs.take(k + 1).last() == fs[k as int]);
            if k == 0 {
                assert(join_fields(fs.take(1)) == fs[0]);
                assert(r@ =~= open_part + join_fields(fs.take(1)));
            } else {
                assert(r@ =~= open_part + join_fields(fs.take(k + 1)));
            }
        }
        k = k + 1;
    }
    assert(fs.take(fs.len() as int) == fs);
    if spaced {
        r.push(' ');
    }
    r.push('}');
    proof {
        if spaced {
            assert(r@ =~= seq!['{', ' '] + join_fields(fs) + seq![' ', '}']);
        } else {
            assert(r@ =~= seq!['{'] + join_fields(fs) + seq!['}']);
        }
    }
    r
}

/// The trimmed texts of the fields among `cs`, in order.
pub open spec fn object_fields(tree: &SyntaxTree, cs: Seq<int>) -> Seq<Seq<char>>
    decreases cs.len(),
{
    if cs.len() == 0 {
        Seq::empty()
    } else {
        let prev = object_fields(tree, cs.drop_last());
        let c = cs.last();
        if tree.elems@[c].is_node && tree.elems@[c].kind == SK_DOC_OBJECT_FIELD {
            prev.push(crate::text::trim_end_chars(crate::text::trim_start_chars(tree.spec_text(c))))
        } else {
            prev
        }
    }
}

/// The fields joined by `, `.
pub open spec fn join_fields(fs: Seq<Seq<char>>) -> Seq<char>
    decreases fs.len(),
{
    if fs.len() == 0 {
        Seq::empty()
    } else if fs.len() == 1 {
        fs[0]
    } else {
        join_fields(fs.drop_last()) + seq![',', ' '] + fs.last()
    }
}

/// An object type written on one line: its fields inside braces, padded when asked.
pub open spec fn object_inline(spaced: bool, fs: Seq<Seq<char>>) -> Seq<char> {
    if fs.len() == 0 {
        seq!['{', '}']
    } else if spaced {
        seq!['{', ' '] + join_fields(fs) + seq![' ', '}']
    } else {
        seq!['{'] + join_fields(fs) + seq!['}']
    }
}

/// Whether element `c` is a type node that counts as one of a `@type` tag's types.
pub open spec fn is_tag_type(tree: &SyntaxTree, c: int) -> bool {
    let k = tree.elems@[c].kind;
    tree.elems@[c].is_node && SK_TYPE_ARRAY <= k && k <= SK_TYPE_MAPPED && k != SK_TYPE_MATCH
}

/// The type nodes among `cs`, in order.
pub open spec fn tag_types(tree: &SyntaxTree, cs: Seq<int>) -> Seq<int>
    decreases cs.len(),
{
    if cs.len() == 0 {
        Seq::empty()
    } else if is_tag_type(tree, cs.last()) {
        tag_types(tree, cs.drop_last()).push(cs.last())
    } else {
        tag_types(tree, cs.drop_last())
    }
}

/// The columns of a `@type` tag whose only type is an object: that object on one line.
fn structured_type_columns(ctx: &FormatContext, tree: &SyntaxTree, n: usize) -> (r: Vec<Vec<char>>)
    requires
        tree.wf(),
        n < tree.elems.len(),
    ensures
        ({
            let ts = tag_types(tree, crate::syntax::direct_children(tree, n as int));
            if ts.len() == 1 && tree.elems@[ts[0]].kind == SK_TYPE_OBJECT {
                r@.len() == 1 && r@[0]@ == object_inline(
                    ctx.config.spacing.space_inside_braces,
                    object_fields(tree, crate::syntax::direct_children(tree, ts[0])),
                )
            } else {
                r@.len() == 0
            }
        }),
{
    let children = direct_children_of(tree, n);
    let ghost dc = crate::syntax::direct_children(tree, n as int);
    assert(children@.len() == dc.len()) by {
        assert(children@.map_values(|x: usize| x as int).len() == children@.len());
    }
    let mut first: Option<usize> = None;
    let mut count: usize = 0;
    let mut i: usize = 0;
    while i < children.len()
        invariant
            tree.wf(),
            i <= children@.len(),
            children@.map_values(|x: usize| x as int) == dc,
            children@.len() == dc.len(),
            forall|k: int| 0 <= k < children@.len() ==> #[trigger] children@[k] < tree.elems.len(),
            count == tag_types(tree, dc.take(i as int)).len(),
            count <= i,
            first is None <==> count == 0,
            first matches Some(f) ==> f < tree.elems.len() && f as int == tag_types(tree, dc.take(i as int))[0],
        decreases children.len() - i,
    {
        let c = children[i];
        assert(dc[i as int] == c as int);
        assert(dc.take(i + 1).drop_last() == dc.take(i as int));
        assert(dc.take(i + 1).last() == c as int);
        let ghost prev = tag_types(tree, dc.take(i as int));
        let k = tree.elems[c].kind;
        if tree.elems[c].is_node && SK_TYPE_ARRAY <= k && k <= SK_TYPE_MAPPED && k != SK_TYPE_MATCH {
            assert(tag_types(tree, dc.take(i + 1)) == prev.push(c as int));
            if first.is_none() {
                first = Some(c);
            }
            count = count + 1;
        } else {
            assert(tag_types(tree, dc.take(i + 1)) == prev);
        }
        i = i + 1;
    }
    assert(dc.take(dc.len() as int) == dc);
    match first {
        Some(f) => if count == 1 && tree.elems[f].kind == SK_TYPE_OBJECT {
            vec![format_doc_object_type_inline(ctx, tree, f)]
        } else {
            Vec::new()
        },
        None => Vec::new(),
    }
}

/// The tag a doc tag node of kind `k` is written with, for the tags whose lines are aligned.
pub open spec fn aligned_tag_name(k: u16) -> Option<Seq<char>> {
    if k == SK_DOC_TAG_CLASS {
        Some("class"@)
    } else if k == SK_DOC_TAG_ALIAS {
        Some("alias"@)
    } else if k == SK_DOC_TAG_GENERIC {
        Some("generic"@)
    } else if k == SK_DOC_TAG_OVERLOAD {
        Some("overload"@)
    } else if k == SK_DOC_TAG_TYPE {
        Some("type"@)
    } else if k == SK_DOC_TAG_PARAM {
        Some("param"@)
    } else if k == SK_DOC_TAG_FIELD {
        Some("field"@)
    } else if k == SK_DOC_TAG_RETURN {
        Some("return"@)
    } else {
        None
    }
}

/// A declaration tag: its columns come from its normalized head as one column.
fn declaration_columns(tag: &str, description: Option<Vec<char>>) -> (r: StructuredDocTagColumns)
    ensures
        r.tag@ == tag@,
        r.head_columns@.len() == 0,
        r.description == description,
        r.use_normalized_head_as_single_column,
{
    StructuredDocTagColumns {
        tag: chars_of(tag),
        head_columns: Vec::new(),
        description,
        use_normalized_head_as_single_column: true,
    }
}

/// The columns of doc tag `n`, for the tags whose lines are aligned.
fn structured_doc_tag_columns_from_ast(ctx: &FormatContext, tree: &SyntaxTree, n: usize) -> (r: Option<StructuredDocTagColumns>)
    requires
        tree.wf(),
        n < tree.elems.len(),
    ensures
        match (r, aligned_tag_name(tree.elems@[n as int].kind)) {
            (Some(c), Some(name)) => {
                let k = tree.elems@[n as int].kind;
                &&& c.tag@ == name
                &&& c.use_normalized_head_as_single_column == (k == SK_DOC_TAG_CLASS || k == SK_DOC_TAG_ALIAS
                    || k == SK_DOC_TAG_GENERIC || k == SK_DOC_TAG_OVERLOAD || (k == SK_DOC_TAG_TYPE
                    && c.head_columns@.len() == 0))
            },
            (None, None) => true,
            _ => false,
        },
{
    let k = tree.elems[n].kind;
    if k == SK_DOC_TAG_CLASS {
        Some(declaration_columns("class", tag_description(tree, n)))
    } else if k == SK_DOC_TAG_ALIAS {
        Some(declaration_columns("alias", tag_description(tree, n)))
    } else if k == SK_DOC_TAG_GENERIC {
        Some(declaration_columns("generic", tag_description(tree, n)))
    } else if k == SK_DOC_TAG_OVERLOAD {
        Some(declaration_columns("overload", tag_description(tree, n)))
    } else if k == SK_DOC_TAG_TYPE {
        let head_columns = structured_type_columns(ctx, tree, n);
        let single = head_columns.len() == 0;
        Some(
            StructuredDocTagColumns {
                tag: chars_of("type"),
                head_columns,
                description: tag_description(tree, n),
                use_normalized_head_as_single_column: single,
            },
        )
    } else if k == SK_DOC_TAG_PARAM {
        Some(
            StructuredDocTagColumns {
                tag: chars_of("param"),
                head_columns: structured_param_columns(tree, n),
                description: tag_description(tree, n),
                use_normalized_head_as_single_column: false,
            },
        )
    } else if k == SK_DOC_TAG_FIELD {
        Some(
            StructuredDocTagColumns {
                tag: chars_of("field"),
                head_columns: structured_field_columns(tree, n),
                description: tag_description(tree, n),
                use_normalized_head_as_single_column: false,
            },
        )
    } else if k == SK_DOC_TAG_RETURN {
        Some(
            StructuredDocTagColumns {
                tag: chars_of("return"),
                head_columns: structured_return_columns(tree, n),
                description: tag_description(tree, n),
                use_normalized_head_as_single_column: false,
            },
        )
    } else {
        None
    }
}

/// For each of the `line_count` lines of comment `c` (whose text, trailing blanks dropped, is
/// `raw`), the columns of the doc tag that starts on it.
pub fn collect_structured_doc_tag_columns_by_line(
    ctx: &FormatContext,
    tree: &SyntaxTree,
    c: usize,
    raw: &[char],
    line_count: usize,
) -> (r: Vec<Option<StructuredDocTagColumns>>)
    requires
        tree.wf(),
        c < tree.elems.len(),
    ensures
        r@.len() == line_count,
{
    let mut slots: Vec<Option<StructuredDocTagColumns>> = Vec::new();
    let mut n: usize = 0;
    while n < line_count
        invariant
            slots@.len() == n,
            n <= line_count,
        decreases line_count - n,
    {
        slots.push(None);
        n = n + 1;
    }
    let comment_start = tree.elems[c].text_start;
    let children = direct_children_of(tree, c);
    let mut i: usize = 0;
    while i < children.len()
        invariant
            tree.wf(),
            slots@.len() == line_count,
            forall|k: int| 0 <= k < children@.len() ==> #[trigger] children@[k] < tree.elems.len(),
        decreases children.len() - i,
    {
        let ch = children[i];
        if tree.elems[ch].is_node {
            let relative = tree.elems[ch].text_start.saturating_sub(comment_start);
            let mut line_index: usize = 0;
            let mut k: usize = 0;
            while k < relative && k < raw.len()
                decreases relative - k,
            {
                if raw[k] == '\n' {
                    line_index = line_index.saturating_add(1);
                }
                k = k + 1;
            }
            if let Some(columns) = structured_doc_tag_columns_from_ast(ctx, tree, ch) {
                if line_index < slots.len() {
                    slots.set(line_index, Some(columns));
                }
            }
        }
        i = i + 1;
    }
    slots
}

} // verus!
