//! The syntax tree the formatter reads: nodes and tokens in preorder, with their kinds,
//! parents, extents and text.

use vstd::prelude::*;

use crate::kinds::{TK_END_OF_LINE, TK_NONE, TK_WHITESPACE};
use crate::parse::{CommentFormatDirective, LanguageLevel, SyntaxEvent, lua_events, lua_syntax_events};
use crate::text::str_chars;

verus! {

/// Identifies one node or token: its raw kind and the characters it spans.
#[derive(Clone, Copy, Debug, PartialEq, Eq, Hash, Structural)]
pub struct LuaSyntaxId {
    /// The raw kind; node kinds carry the high bit.
    pub kind: u16,
    /// Offset of the first character.
    pub start: usize,
    /// Offset one past the last character.
    pub end: usize,
}

/// One node or token of the tree.
#[derive(Clone, Copy, Debug, PartialEq, Eq, Structural)]
pub struct SyntaxElem {
    /// The raw kind.
    pub kind: u16,
    /// A node (otherwise a token).
    pub is_node: bool,
    /// The enclosing node.
    pub parent: Option<usize>,
    /// One past the index of the last element of this element's subtree.
    pub end: usize,
    /// Offset of the first character of the element's text.
    pub text_start: usize,
    /// Offset one past the last character of the element's text.
    pub text_end: usize,
    /// For a token, its position among all tokens.
    pub token_index: usize,
    /// For a comment node, the formatting directive it carries.
    pub directive: Option<CommentFormatDirective>,
}

/// A syntax tree: its elements in preorder, the indices of its tokens in source order, and the
/// source text.
pub struct SyntaxTree {
    pub elems: Vec<SyntaxElem>,
    pub tokens: Vec<usize>,
    pub text: Vec<char>,
}

impl SyntaxTree {
    /// The indices and offsets held by the tree are consistent.
    pub open spec fn wf(&self) -> bool {
        &&& self.elems.len() < usize::MAX
        &&& forall|i: int|
            0 <= i < self.elems.len() ==> {
                let e = #[trigger] self.elems@[i];
                &&& i < e.end <= self.elems.len()
                &&& (e.parent matches Some(p) ==> p < i)
                &&& e.text_start <= e.text_end <= self.text.len()
                &&& (!e.is_node ==> e.token_index < self.tokens.len() && self.tokens@[e.token_index as int] == i)
            }
        &&& forall|j: int|
            0 <= j < self.tokens.len() ==> {
                let t = #[trigger] self.tokens@[j];
                &&& t < self.elems.len()
                &&& !self.elems@[t as int].is_node
                &&& self.elems@[t as int].token_index == j
            }
    }

    /// Element `x` lies inside the subtree of element `i`, after `i` itself.
    pub open spec fn within(&self, i: int, x: int) -> bool {
        0 <= i < x && i < self.elems.len() && x < self.elems@[i].end
    }

    /// Subtrees nest: an element inside the subtree of another ends no later than it and spans
    /// text inside the other's text; tokens are listed in the order of their elements.
    pub open spec fn nested(&self) -> bool {
        &&& forall|i: int, x: int|
            #[trigger] self.within(i, x) ==> {
                &&& self.elems@[x].end <= self.elems@[i].end
                &&& self.elems@[i].text_start <= self.elems@[x].text_start
                &&& self.elems@[x].text_end <= self.elems@[i].text_end
            }
        &&& forall|j1: int, j2: int|
            0 <= j1 < j2 < self.tokens.len() ==> #[trigger] self.tokens@[j1] < #[trigger] self.tokens@[j2]
    }

    /// The text of a token ends before the text of every later element starts.
    pub open spec fn tokens_ordered(&self) -> bool {
        forall|t: int, x: int|
            0 <= t < x < self.elems.len() && !self.elems@[t].is_node ==> #[trigger] self.elems@[t].text_end
                <= #[trigger] self.elems@[x].text_start
    }

    /// The number of elements.
    pub fn len(&self) -> (r: usize)
        ensures
            r == self.elems.len(),
    {
        self.elems.len()
    }

    /// Element `i` is a token of the given kind.
    pub open spec fn elems_kind_token(&self, i: int, kind: u16) -> bool {
        0 <= i < self.elems.len() && !self.elems@[i].is_node && self.elems@[i].kind == kind
    }

    /// The raw kind of element `i`, or `TK_NONE` past the end.
    pub fn kind(&self, i: usize) -> (r: u16)
        ensures
            r == (if i < self.elems.len() {
                self.elems@[i as int].kind
            } else {
                TK_NONE
            }),
    {
        if i < self.elems.len() {
            self.elems[i].kind
        } else {
            TK_NONE
        }
    }

    /// Whether element `i` is a node.
    pub fn is_node(&self, i: usize) -> (r: bool)
        ensures
            r == (i < self.elems.len() && self.elems@[i as int].is_node),
    {
        i < self.elems.len() && self.elems[i].is_node
    }

    /// Whether element `i` is a token of the given kind.
    pub fn is_token_kind(&self, i: usize, kind: u16) -> (r: bool)
        ensures
            r == (i < self.elems.len() && !self.elems@[i as int].is_node && self.elems@[
                i as int
            ].kind == kind),
    {
        i < self.elems.len() && !self.elems[i].is_node && self.elems[i].kind == kind
    }

    /// Whether element `i` is a node of the given kind.
    pub fn is_node_kind(&self, i: usize, kind: u16) -> (r: bool)
        ensures
            r == (i < self.elems.len() && self.elems@[i as int].is_node && self.elems@[
                i as int
            ].kind == kind),
    {
        i < self.elems.len() && self.elems[i].is_node && self.elems[i].kind == kind
    }

    /// The parent of element `i`.
    pub fn parent(&self, i: usize) -> (r: Option<usize>)
        requires
            self.wf(),
        ensures
            i < self.elems.len() ==> r == self.elems@[i as int].parent,
            i >= self.elems.len() ==> r is None,
            r matches Some(p) ==> p < i,
    {
        if i < self.elems.len() {
            self.elems[i].parent
        } else {
            None
        }
    }

    /// One past the last element of the subtree of element `i`.
    pub fn subtree_end(&self, i: usize) -> (r: usize)
        requires
            self.wf(),
        ensures
            i < self.elems.len() ==> r == self.elems@[i as int].end && i < r <= self.elems.len(),
            i >= self.elems.len() ==> r == self.elems.len(),
    {
        if i < self.elems.len() {
            self.elems[i].end
        } else {
            self.elems.len()
        }
    }

    /// The identifier of element `i`.
    pub open spec fn spec_id(&self, i: int) -> LuaSyntaxId {
        LuaSyntaxId {
            kind: self.elems@[i].kind,
            start: self.elems@[i].text_start,
            end: self.elems@[i].text_end,
        }
    }

    /// The identifier of element `i`.
    pub fn id(&self, i: usize) -> (r: LuaSyntaxId)
        requires
            i < self.elems.len(),
        ensures
            r == self.spec_id(i as int),
    {
        let e = self.elems[i];
        LuaSyntaxId { kind: e.kind, start: e.text_start, end: e.text_end }
    }

    /// The characters that element `i` spans.
    pub open spec fn spec_text(&self, i: int) -> Seq<char> {
        self.text@.subrange(self.elems@[i].text_start as int, self.elems@[i].text_end as int)
    }

    /// The characters that element `i` spans.
    pub fn text_of(&self, i: usize) -> (r: Vec<char>)
        requires
            self.wf(),
            i < self.elems.len(),
        ensures
            r@ == self.spec_text(i as int),
    {
        let e = self.elems[i];
        let mut r: Vec<char> = Vec::new();
        let mut k = e.text_start;
        while k < e.text_end
            invariant
                e == self.elems@[i as int],
                e.text_start <= k <= e.text_end <= self.text.len(),
                r@ == self.text@.subrange(e.text_start as int, k as int),
            decreases e.text_end - k,
        {
            r.push(self.text[k]);
            k = k + 1;
        }
        r
    }

    /// Whether the text of element `i` holds a line break.
    pub fn text_contains_newline(&self, i: usize) -> (r: bool)
        requires
            self.wf(),
            i < self.elems.len(),
        ensures
            r == self.spec_text(i as int).contains('\n'),
    {
        let e = self.elems[i];
        let mut k = e.text_start;
        while k < e.text_end
            invariant
                e == self.elems@[i as int],
                e.text_start <= k <= e.text_end <= self.text.len(),
                forall|j: int| e.text_start <= j < k ==> self.text@[j] != '\n',
            decreases e.text_end - k,
        {
            if self.text[k] == '\n' {
                assert(self.spec_text(i as int)[k - e.text_start] == '\n');
                return true;
            }
            k = k + 1;
        }
        assert forall|j: int| 0 <= j < self.spec_text(i as int).len() implies self.spec_text(
            i as int,
        )[j] != '\n' by {
            assert(self.spec_text(i as int)[j] == self.text@[e.text_start + j]);
        }
        false
    }

    /// The token after token element `i`, in source order.
    pub fn next_token(&self, i: usize) -> (r: Option<usize>)
        requires
            self.wf(),
        ensures
            r matches Some(t) ==> t < self.elems.len() && !self.elems@[t as int].is_node,
            i < self.elems.len() && !self.elems@[i as int].is_node ==> r == (if self.elems@[
                i as int
            ].token_index + 1 < self.tokens.len() {
                Some(self.tokens@[self.elems@[i as int].token_index + 1])
            } else {
                None::<usize>
            }),
    {
        if i < self.elems.len() && !self.elems[i].is_node {
            let ti = self.elems[i].token_index;
            if ti + 1 < self.tokens.len() {
                return Some(self.tokens[ti + 1]);
            }
        }
        None
    }

    /// The token before token element `i`, in source order.
    pub fn prev_token(&self, i: usize) -> (r: Option<usize>)
        requires
            self.wf(),
        ensures
            r matches Some(t) ==> t < self.elems.len() && !self.elems@[t as int].is_node,
            i < self.elems.len() && !self.elems@[i as int].is_node ==> r == (if self.elems@[
                i as int
            ].token_index > 0 {
                Some(self.tokens@[self.elems@[i as int].token_index - 1])
            } else {
                None::<usize>
            }),
    {
        if i < self.elems.len() && !self.elems[i].is_node {
            let ti = self.elems[i].token_index;
            if ti > 0 {
                return Some(self.tokens[ti - 1]);
            }
        }
        None
    }
}


impl SyntaxTree {
    /// Whether kind `k` is a blank token kind.
    pub fn is_blank_token(&self, i: usize) -> (r: bool)
        ensures
            r == (i < self.elems.len() && !self.elems@[i as int].is_node && (self.elems@[i as int].kind == TK_WHITESPACE || self.elems@[i as int].kind == TK_END_OF_LINE)),
    {
        i < self.elems.len() && !self.elems[i].is_node && (self.elems[i].kind == TK_WHITESPACE
            || self.elems[i].kind == TK_END_OF_LINE)
    }

    /// The nearest ancestor of element `i` (not `i` itself) with the given kind.
    pub fn ancestor_of_kind(&self, i: usize, kind: u16) -> (r: Option<usize>)
        requires
            self.wf(),
        ensures
            r matches Some(a) ==> a < i && a < self.elems.len() && self.elems@[a as int].kind == kind
                && self.elems@[a as int].is_node && self.ancestor_or_self(a as int, i as int),
            r matches Some(b) ==> forall|a: int|
                a != i && #[trigger] self.ancestor_or_self(a, i as int) && 0 <= a < self.elems.len() && self.elems@[a].is_node
                    && self.elems@[a].kind == kind ==> self.ancestor_or_self(a, b as int),
            r is None ==> forall|a: int|
                a != i && #[trigger] self.ancestor_or_self(a, i as int) ==> !(0 <= a < self.elems.len()
                    && self.elems@[a].is_node && self.elems@[a].kind == kind),
    {
        let mut cur = i;
        loop
            invariant
                self.wf(),
                cur <= i,
                self.ancestor_or_self(cur as int, i as int),
                forall|a: int|
                    a != i && #[trigger] self.ancestor_or_self(a, i as int) ==> ((a != cur && self.ancestor_or_self(a, cur as int))
                        || !(0 <= a < self.elems.len() && self.elems@[a].is_node && self.elems@[a].kind == kind)),
            decreases cur,
        {
            match self.parent(cur) {
                Some(p) => {
                    proof {
                        assert(self.ancestor_or_self(p as int, p as int));
                        assert(self.ancestor_or_self(p as int, cur as int));
                        self.lemma_ancestor_trans(p as int, cur as int, i as int);
                    }
                    if self.elems[p].kind == kind && self.elems[p].is_node {
                        proof {
                            assert forall|a: int|
                                a != i && #[trigger] self.ancestor_or_self(a, i as int) && 0 <= a < self.elems.len() && self.elems@[a].is_node
                                    && self.elems@[a].kind == kind implies self.ancestor_or_self(a, p as int) by {
                                if a != cur && self.ancestor_or_self(a, cur as int) {
                                }
                            }
                        }
                        return Some(p);
                    }
                    proof {
                        assert forall|a: int|
                            a != i && #[trigger] self.ancestor_or_self(a, i as int) implies ((a != p && self.ancestor_or_self(a, p as int))
                                || !(0 <= a < self.elems.len() && self.elems@[a].is_node && self.elems@[a].kind == kind)) by {
                            if a != cur && self.ancestor_or_self(a, cur as int) {
                                assert(self.ancestor_or_self(a, p as int));
                            }
                        }
                    }
                    cur = p;
                },
                None => {
                    assert forall|a: int|
                        a != i && #[trigger] self.ancestor_or_self(a, i as int) implies !(0 <= a < self.elems.len()
                            && self.elems@[a].is_node && self.elems@[a].kind == kind) by {
                        if a != cur && self.ancestor_or_self(a, cur as int) {
                            assert(self.elems@[cur as int].parent is Some);
                        }
                    }
                    return None;
                },
            }
        }
    }

    /// `a` is `x` or, following parents up from `x`, one of its ancestors.
    pub open spec fn ancestor_or_self(&self, a: int, x: int) -> bool
        decreases x,
    {
        if x == a {
            true
        } else if 0 <= x < self.elems.len() {
            match self.elems@[x].parent {
                Some(p) => if p < x {
                    self.ancestor_or_self(a, p as int)
                } else {
                    false
                },
                None => false,
            }
        } else {
            false
        }
    }

    /// An ancestor comes no later than its descendants.
    pub proof fn lemma_ancestor_before(&self, a: int, x: int)
        requires
            self.ancestor_or_self(a, x),
        ensures
            a <= x,
        decreases x,
    {
        if x != a {
            let p = self.elems@[x].parent.unwrap() as int;
            self.lemma_ancestor_before(a, p);
        }
    }

    /// The ancestors of an element form a chain: of two, one is an ancestor of the other.
    pub proof fn lemma_ancestors_chain(&self, a: int, b: int, x: int)
        requires
            self.ancestor_or_self(a, x),
            self.ancestor_or_self(b, x),
        ensures
            self.ancestor_or_self(a, b) || self.ancestor_or_self(b, a),
        decreases x,
    {
        if x != a && x != b {
            let p = self.elems@[x].parent.unwrap() as int;
            self.lemma_ancestors_chain(a, b, p);
        }
    }

    /// Being an ancestor is transitive.
    pub proof fn lemma_ancestor_trans(&self, a: int, b: int, x: int)
        requires
            self.ancestor_or_self(a, b),
            self.ancestor_or_self(b, x),
        ensures
            self.ancestor_or_self(a, x),
        decreases x,
    {
        if x != b {
            let p = self.elems@[x].parent.unwrap() as int;
            self.lemma_ancestor_trans(a, b, p);
        }
    }

    /// Whether `a` is `x` or one of its ancestors.
    pub fn is_ancestor_or_self(&self, a: usize, x: usize) -> (r: bool)
        requires
            self.wf(),
        ensures
            r == self.ancestor_or_self(a as int, x as int),
    {
        let mut cur = x;
        loop
            invariant
                self.wf(),
                self.ancestor_or_self(a as int, x as int) == self.ancestor_or_self(a as int, cur as int),
            decreases cur,
        {
            if cur == a {
                return true;
            }
            match self.parent(cur) {
                Some(p) => cur = p,
                None => return false,
            }
        }
    }

    /// The ancestor of `x` (or `x` itself) whose parent is `anc`.
    pub fn child_toward(&self, anc: usize, x: usize) -> (r: Option<usize>)
        requires
            self.wf(),
        ensures
            r matches Some(c) ==> c < self.elems.len() && self.elems@[c as int].parent == Some(anc)
                && self.ancestor_or_self(c as int, x as int),
            r is None ==> !(x != anc && self.ancestor_or_self(anc as int, x as int)),
    {
        let mut cur = x;
        loop
            invariant
                self.wf(),
                self.ancestor_or_self(cur as int, x as int),
                cur <= x,
                (x != anc && self.ancestor_or_self(anc as int, x as int)) ==> (cur != anc
                    && self.ancestor_or_self(anc as int, cur as int)),
            decreases cur,
        {
            if cur >= self.elems.len() {
                return None;
            }
            match self.parent(cur) {
                Some(p) => {
                    if p == anc {
                        return Some(cur);
                    }
                    proof {
                        assert(self.ancestor_or_self(p as int, p as int));
                        assert(self.ancestor_or_self(p as int, cur as int));
                        self.lemma_ancestor_trans(p as int, cur as int, x as int);
                    }
                    cur = p;
                },
                None => return None,
            }
        }
    }

    /// Element `u` is a token that is not blank.
    pub open spec fn is_solid(&self, u: int) -> bool {
        &&& 0 <= u < self.elems.len()
        &&& !self.elems@[u].is_node
        &&& !(self.elems@[u].kind == TK_WHITESPACE || self.elems@[u].kind == TK_END_OF_LINE)
    }

    /// Token `t` is the first token of the subtree of `n` that is not blank.
    pub open spec fn first_solid(&self, n: int, t: int) -> bool {
        &&& 0 <= n <= t
        &&& n < self.elems.len()
        &&& t < self.elems@[n].end
        &&& self.is_solid(t)
        &&& forall|u: int| n <= u < t ==> !self.is_solid(u)
    }

    /// The first token of the subtree of `n` that is not blank.
    pub fn first_solid_token(&self, n: usize) -> (r: Option<usize>)
        requires
            self.wf(),
        ensures
            r matches Some(t) ==> t < self.elems.len() && !self.elems@[t as int].is_node,
            r matches Some(t) ==> self.first_solid(n as int, t as int),
            r is None && n < self.elems.len() ==> forall|u: int|
                n <= u < self.elems@[n as int].end ==> !self.is_solid(u),
    {
        if n >= self.elems.len() {
            return None;
        }
        let end = self.elems[n].end;
        let mut j = n;
        while j < end
            invariant
                self.wf(),
                end == self.elems@[n as int].end,
                end <= self.elems.len(),
                n <= j,
                forall|u: int| n <= u < j ==> !self.is_solid(u),
            decreases end - j,
        {
            if !self.elems[j].is_node && !self.is_blank_token(j) {
                return Some(j);
            }
            j = j + 1;
        }
        None
    }

    /// Token `t` is the last token of the subtree of `n` that is not blank.
    pub open spec fn last_solid(&self, n: int, t: int) -> bool {
        &&& 0 <= n <= t
        &&& n < self.elems.len()
        &&& t < self.elems@[n].end
        &&& self.is_solid(t)
        &&& forall|u: int| t < u < self.elems@[n].end ==> !self.is_solid(u)
    }

    /// The last token of the subtree of `n` that is not blank.
    pub fn last_solid_token(&self, n: usize) -> (r: Option<usize>)
        requires
            self.wf(),
        ensures
            r matches Some(t) ==> t < self.elems.len() && !self.elems@[t as int].is_node,
            r matches Some(t) ==> n <= t < self.elems@[n as int].end && self.is_solid(t as int),
            r matches Some(t) ==> self.last_solid(n as int, t as int),
            r is None && n < self.elems.len() ==> forall|u: int|
                n <= u < self.elems@[n as int].end ==> !self.is_solid(u),
    {
        if n >= self.elems.len() {
            return None;
        }
        let mut j = self.elems[n].end;
        while j > n
            invariant
                self.wf(),
                n < self.elems.len(),
                n <= j,
                j <= self.elems.len(),
                j <= self.elems@[n as int].end,
                forall|u: int| j <= u < self.elems@[n as int].end ==> !self.is_solid(u),
            decreases j,
        {
            j = j - 1;
            if !self.elems[j].is_node && !self.is_blank_token(j) {
                return Some(j);
            }
        }
        None
    }

    /// The position of token element `t` among the tokens, or the token count.
    pub open spec fn token_pos_spec(&self, t: int) -> int {
        if 0 <= t < self.elems.len() && !self.elems@[t].is_node {
            self.elems@[t].token_index as int
        } else {
            self.tokens.len() as int
        }
    }

    /// The token at position `j` is blank.
    pub open spec fn is_blank_at(&self, j: int) -> bool {
        let u = self.tokens@[j] as int;
        0 <= u < self.elems.len() && !self.elems@[u].is_node && (self.elems@[u].kind == TK_WHITESPACE
            || self.elems@[u].kind == TK_END_OF_LINE)
    }

    /// The position of token element `t` among the tokens, or the token count.
    pub fn token_pos(&self, t: usize) -> (r: usize)
        requires
            self.wf(),
        ensures
            r <= self.tokens.len(),
            r == self.token_pos_spec(t as int),
            t < self.elems.len() && !self.elems@[t as int].is_node ==> r == self.elems@[t as int].token_index && r < self.tokens.len(),
    {
        if t < self.elems.len() && !self.elems[t].is_node {
            self.elems[t].token_index
        } else {
            self.tokens.len()
        }
    }

    /// The number of line-break tokens at the positions from `lo` up to `hi`.
    pub open spec fn line_breaks_in(&self, lo: int, hi: int) -> nat
        decreases hi - lo,
    {
        if hi <= lo {
            0
        } else {
            let u = self.tokens@[hi - 1] as int;
            self.line_breaks_in(lo, hi - 1) + if 0 <= u < self.elems.len() && !self.elems@[u].is_node
                && self.elems@[u].kind == TK_END_OF_LINE {
                1nat
            } else {
                0nat
            }
        }
    }

    /// The number of line breaks between two tokens.
    pub fn newlines_between(&self, p: usize, t: usize) -> (r: usize)
        requires
            self.wf(),
        ensures
            r == self.line_breaks_in(self.token_pos_spec(p as int) + 1, self.token_pos_spec(t as int)),
    {
        let a = self.token_pos(p);
        let b = self.token_pos(t);
        let mut n: usize = 0;
        let mut j = a.saturating_add(1);
        if j >= b {
            assert(self.line_breaks_in(a + 1, b as int) == 0);
        }
        while j < b
            invariant
                self.wf(),
                b <= self.tokens.len(),
                a + 1 <= j || b <= j,
                n <= j,
                j < b ==> n == self.line_breaks_in(a + 1, j as int),
                b <= j ==> n == self.line_breaks_in(a + 1, b as int),
            decreases b - j,
        {
            let e = self.tokens[j];
            if self.is_token_kind(e, TK_END_OF_LINE) {
                n = n + 1;
            }
            j = j + 1;
        }
        n
    }

    /// Whether any blank token stands between two tokens.
    pub fn blank_between(&self, p: usize, t: usize) -> (r: bool)
        requires
            self.wf(),
        ensures
            r == exists|j: int|
                self.token_pos_spec(p as int) < j < self.token_pos_spec(t as int) && #[trigger] self.is_blank_at(j),
    {
        let a = self.token_pos(p);
        let b = self.token_pos(t);
        let mut j = a.saturating_add(1);
        while j < b
            invariant
                self.wf(),
                b <= self.tokens.len(),
                a < j || b <= j,
                a == self.token_pos_spec(p as int),
                b == self.token_pos_spec(t as int),
                forall|k: int| a < k < j && k < b ==> !#[trigger] self.is_blank_at(k),
            decreases b - j,
        {
            if self.is_blank_token(self.tokens[j]) {
                assert(self.is_blank_at(j as int));
                return true;
            }
            j = j + 1;
        }
        false
    }
}


/// The direct children of a node, nodes and tokens, by position: the elements from `pos` on,
/// each followed by the element after its subtree, up to `end`.
pub open spec fn direct_from(tree: &SyntaxTree, pos: int, end: int) -> Seq<int>
    decreases end - pos,
{
    if pos < 0 || pos >= end || pos >= tree.elems.len() {
        Seq::empty()
    } else {
        let e = tree.elems@[pos];
        let next = if e.end > pos {
            e.end as int
        } else {
            pos + 1
        };
        if next < end {
            seq![pos] + direct_from(tree, next, end)
        } else {
            seq![pos]
        }
    }
}

/// The direct child nodes among the elements that [`direct_from`] walks.
pub open spec fn nodes_from(tree: &SyntaxTree, pos: int, end: int) -> Seq<int>
    decreases end - pos,
{
    if pos < 0 || pos >= end || pos >= tree.elems.len() {
        Seq::empty()
    } else {
        let e = tree.elems@[pos];
        let next = if e.end > pos {
            e.end as int
        } else {
            pos + 1
        };
        let rest = if next < end {
            nodes_from(tree, next, end)
        } else {
            Seq::empty()
        };
        if e.is_node {
            seq![pos] + rest
        } else {
            rest
        }
    }
}

/// The direct children of element `n`, nodes and tokens.
pub open spec fn direct_children(tree: &SyntaxTree, n: int) -> Seq<int> {
    direct_from(tree, n + 1, tree.elems@[n].end as int)
}

/// The direct child nodes of element `n`.
pub open spec fn child_nodes(tree: &SyntaxTree, n: int) -> Seq<int> {
    nodes_from(tree, n + 1, tree.elems@[n].end as int)
}

/// Element `i` is a node of kind `kind`.
pub open spec fn node_is(tree: &SyntaxTree, i: int, kind: u16) -> bool {
    0 <= i < tree.elems.len() && tree.elems@[i].is_node && tree.elems@[i].kind == kind
}

/// The column of character offset `off`: the characters between the line start and `off`.
pub open spec fn column_of(text: Seq<char>, off: int) -> nat
    decreases off,
{
    if off <= 0 || off > text.len() || text[off - 1] == '\n' {
        0
    } else {
        column_of(text, off - 1) + 1
    }
}

proof fn lemma_nodes_from_bounds(tree: &SyntaxTree, pos: int, end: int)
    ensures
        forall|k: int|
            0 <= k < nodes_from(tree, pos, end).len() ==> pos <= #[trigger] nodes_from(
                tree,
                pos,
                end,
            )[k] < end && nodes_from(tree, pos, end)[k] < tree.elems.len() && tree.elems@[nodes_from(tree, pos, end)[k]].is_node,
    decreases end - pos,
{
    if !(pos < 0 || pos >= end || pos >= tree.elems.len()) {
        let e = tree.elems@[pos];
        let next = if e.end > pos {
            e.end as int
        } else {
            pos + 1
        };
        if next < end {
            lemma_nodes_from_bounds(tree, next, end);
        }
    }
}

/// Every direct child node of `n` stands after `n`, inside the tree.
pub proof fn lemma_child_nodes_bounds(tree: &SyntaxTree, n: int)
    requires
        0 <= n < tree.elems.len(),
    ensures
        forall|k: int|
            0 <= k < child_nodes(tree, n).len() ==> n < #[trigger] child_nodes(tree, n)[k]
                < tree.elems.len() && tree.elems@[child_nodes(tree, n)[k]].is_node,
{
    lemma_nodes_from_bounds(tree, n + 1, tree.elems@[n].end as int);
}

/// Appends the characters of `s` to `v`.
fn push_str_chars(v: &mut Vec<char>, s: &str)
    ensures
        final(v)@ == old(v)@ + s@,
{
    let cs = str_chars(s);
    let mut k: usize = 0;
    while k < cs.len()
        invariant
            k <= cs.len(),
            cs@ == s@,
            v@ == old(v)@ + cs@.take(k as int),
        decreases cs.len() - k,
    {
        v.push(cs[k]);
        k = k + 1;
        assert(cs@.take(k as int) == cs@.take(k - 1).push(cs@[k - 1]));
    }
    assert(cs@.take(cs.len() as int) == cs@);
}

/// What holds while a tree is being built: `stack` lists the open nodes, innermost last; an
/// open node's subtree holds nothing yet, and no open node lies inside another's subtree.
pub open spec fn building(elems: Vec<SyntaxElem>, tokens: Vec<usize>, text: Vec<char>, stack: Seq<usize>) -> bool {
    let t = SyntaxTree { elems, tokens, text };
    &&& t.wf()
    &&& t.nested()
    &&& forall|j: int|
        0 <= j < stack.len() ==> {
            &&& #[trigger] stack[j] < elems.len()
            &&& elems@[stack[j] as int].is_node
            &&& elems@[stack[j] as int].end == stack[j] + 1
        }
    &&& forall|a: int, b: int| 0 <= a < b < stack.len() ==> #[trigger] stack[a] < #[trigger] stack[b]
    &&& forall|i: int, x: int|
        0 <= i < x < elems.len() ==> #[trigger] elems@[i].text_start <= #[trigger] elems@[x].text_start
    &&& forall|i: int, j: int| 0 <= j < stack.len() ==> !(#[trigger] t.within(i, stack[j] as int))
    &&& t.tokens_ordered()
}

/// Opens a node of the given kind under the innermost open node.
fn open_node(
    elems: &mut Vec<SyntaxElem>,
    tokens: &Vec<usize>,
    text: &Vec<char>,
    stack: &mut Vec<usize>,
    kind: u16,
    directive: Option<CommentFormatDirective>,
)
    requires
        building(*old(elems), *tokens, *text, old(stack)@),
        old(elems).len() + 1 < usize::MAX,
    ensures
        building(*final(elems), *tokens, *text, final(stack)@),
        final(elems).len() == old(elems).len() + 1,
        state_of(*final(elems), *tokens, *text, final(stack)@) == step_open(state_of(*old(elems), *tokens, *text, old(stack)@), kind, directive),
{
    let ghost old_elems = elems@;
    let ghost old_stack = stack@;
    let idx = elems.len();
    let parent = if stack.len() > 0 {
        Some(stack[stack.len() - 1])
    } else {
        None
    };
    elems.push(
        SyntaxElem {
            kind,
            is_node: true,
            parent,
            end: idx + 1,
            text_start: text.len(),
            text_end: text.len(),
            token_index: 0,
            directive,
        },
    );
    stack.push(idx);
    let ghost t0 = SyntaxTree { elems: *old(elems), tokens: *tokens, text: *text };
    let ghost t1 = SyntaxTree { elems: *elems, tokens: *tokens, text: *text };
    assert forall|i: int| 0 <= i < elems.len() implies {
        let e = #[trigger] elems@[i];
        &&& i < e.end <= elems.len()
        &&& (e.parent matches Some(p) ==> p < i)
        &&& e.text_start <= e.text_end <= text.len()
        &&& (!e.is_node ==> e.token_index < tokens.len() && tokens@[e.token_index as int] == i)
    } by {
        if i < idx {
            assert(elems@[i] == old_elems[i]);
        }
    }
    assert forall|j: int| 0 <= j < tokens.len() implies {
        let t = #[trigger] tokens@[j];
        &&& t < elems.len()
        &&& !elems@[t as int].is_node
        &&& elems@[t as int].token_index == j
    } by {
        assert(elems@[tokens@[j] as int] == old_elems[tokens@[j] as int]);
    }
    assert forall|i: int, x: int| #[trigger] t1.within(i, x) implies {
        &&& elems@[x].end <= elems@[i].end
        &&& elems@[i].text_start <= elems@[x].text_start
        &&& elems@[x].text_end <= elems@[i].text_end
    } by {
        assert(elems@[i] == old_elems[i]);
        assert(old_elems[i].end <= idx);
        assert(t0.within(i, x));
        assert(elems@[x] == old_elems[x]);
    }
    assert forall|j: int| 0 <= j < stack.len() implies {
        &&& #[trigger] stack@[j] < elems.len()
        &&& elems@[stack@[j] as int].is_node
        &&& elems@[stack@[j] as int].end == stack@[j] + 1
    } by {
        if j < old_stack.len() {
            assert(stack@[j] == old_stack[j]);
            assert(elems@[stack@[j] as int] == old_elems[old_stack[j] as int]);
        }
    }
    assert forall|a: int, b: int| 0 <= a < b < stack.len() implies #[trigger] stack@[a] < #[trigger] stack@[b] by {
        assert(stack@[a] == old_stack[a]);
        if b < old_stack.len() {
            assert(stack@[b] == old_stack[b]);
        }
    }
    assert forall|i: int, x: int| 0 <= i < x < elems.len() implies #[trigger] elems@[i].text_start
        <= #[trigger] elems@[x].text_start by {
        assert(elems@[i] == old_elems[i]);
        if x < idx {
            assert(elems@[x] == old_elems[x]);
        }
    }
    assert forall|i: int, j: int| 0 <= j < stack.len() implies !(#[trigger] t1.within(i, stack@[j] as int)) by {
        if 0 <= i < elems.len() && i != idx {
            assert(elems@[i] == old_elems[i]);
            if j < old_stack.len() {
                assert(stack@[j] == old_stack[j]);
                assert(!t0.within(i, old_stack[j] as int));
            }
        }
    }
}

/// Adds a token with the given kind and text under the innermost open node.
fn add_token(
    elems: &mut Vec<SyntaxElem>,
    tokens: &mut Vec<usize>,
    text: &mut Vec<char>,
    stack: &Vec<usize>,
    kind: u16,
    s: &String,
)
    requires
        building(*old(elems), *old(tokens), *old(text), stack@),
        old(elems).len() + 1 < usize::MAX,
    ensures
        building(*final(elems), *final(tokens), *final(text), stack@),
        final(elems).len() == old(elems).len() + 1,
        final(text)@ == old(text)@ + s@,
        state_of(*final(elems), *final(tokens), *final(text), stack@) == step_token(state_of(*old(elems), *old(tokens), *old(text), stack@), kind, s@),
{
    let ghost old_elems = elems@;
    let ghost old_tokens = tokens@;
    let ghost t0 = SyntaxTree { elems: *old(elems), tokens: *old(tokens), text: *old(text) };
    let idx = elems.len();
    let parent = if stack.len() > 0 {
        Some(stack[stack.len() - 1])
    } else {
        None
    };
    let start = text.len();
    push_str_chars(text, s.as_str());
    let tidx = tokens.len();
    elems.push(
        SyntaxElem {
            kind,
            is_node: false,
            parent,
            end: idx + 1,
            text_start: start,
            text_end: text.len(),
            token_index: tidx,
            directive: None,
        },
    );
    tokens.push(idx);
    let ghost t1 = SyntaxTree { elems: *elems, tokens: *tokens, text: *text };
    assert forall|i: int| 0 <= i < elems.len() implies {
        let e = #[trigger] elems@[i];
        &&& i < e.end <= elems.len()
        &&& (e.parent matches Some(p) ==> p < i)
        &&& e.text_start <= e.text_end <= text.len()
        &&& (!e.is_node ==> e.token_index < tokens.len() && tokens@[e.token_index as int] == i)
    } by {
        if i < idx {
            assert(elems@[i] == old_elems[i]);
            if !elems@[i].is_node {
                assert(tokens@[elems@[i].token_index as int] == old_tokens[elems@[i].token_index as int]);
            }
        }
    }
    assert forall|j: int| 0 <= j < tokens.len() implies {
        let t = #[trigger] tokens@[j];
        &&& t < elems.len()
        &&& !elems@[t as int].is_node
        &&& elems@[t as int].token_index == j
    } by {
        if j < tidx {
            assert(tokens@[j] == old_tokens[j]);
            assert(elems@[tokens@[j] as int] == old_elems[tokens@[j] as int]);
        }
    }
    assert forall|i: int, x: int| #[trigger] t1.within(i, x) implies {
        &&& elems@[x].end <= elems@[i].end
        &&& elems@[i].text_start <= elems@[x].text_start
        &&& elems@[x].text_end <= elems@[i].text_end
    } by {
        assert(elems@[i] == old_elems[i]);
        assert(old_elems[i].end <= idx);
        assert(t0.within(i, x));
        assert(elems@[x] == old_elems[x]);
    }
    assert forall|j1: int, j2: int| 0 <= j1 < j2 < tokens.len() implies #[trigger] tokens@[j1]
        < #[trigger] tokens@[j2] by {
        assert(tokens@[j1] == old_tokens[j1]);
        if j2 < tidx {
            assert(tokens@[j2] == old_tokens[j2]);
        }
    }
    assert forall|j: int| 0 <= j < stack.len() implies {
        &&& #[trigger] stack@[j] < elems.len()
        &&& elems@[stack@[j] as int].is_node
        &&& elems@[stack@[j] as int].end == stack@[j] + 1
    } by {
        assert(elems@[stack@[j] as int] == old_elems[stack@[j] as int]);
    }
    assert forall|i: int, x: int| 0 <= i < x < elems.len() implies #[trigger] elems@[i].text_start
        <= #[trigger] elems@[x].text_start by {
        assert(elems@[i] == old_elems[i]);
        if x < idx {
            assert(elems@[x] == old_elems[x]);
        }
    }
    assert forall|i: int, j: int| 0 <= j < stack.len() implies !(#[trigger] t1.within(i, stack@[j] as int)) by {
        if 0 <= i < elems.len() && i != idx {
            assert(elems@[i] == old_elems[i]);
            assert(!t0.within(i, stack@[j] as int));
        }
    }
}

/// Closes the innermost open node: its subtree and text end here.
fn close_top(elems: &mut Vec<SyntaxElem>, tokens: &Vec<usize>, text: &Vec<char>, stack: &mut Vec<usize>)
    requires
        building(*old(elems), *tokens, *text, old(stack)@),
        old(stack).len() > 0,
    ensures
        building(*final(elems), *tokens, *text, final(stack)@),
        final(elems).len() == old(elems).len(),
        final(stack).len() == old(stack).len() - 1,
        state_of(*final(elems), *tokens, *text, final(stack)@) == step_close(state_of(*old(elems), *tokens, *text, old(stack)@)),
{
    let ghost old_elems = elems@;
    let ghost old_stack = stack@;
    let ghost t0 = SyntaxTree { elems: *old(elems), tokens: *tokens, text: *text };
    let top = stack.pop().unwrap();
    assert(top == old_stack.last());
    let mut e = elems[top];
    e.end = elems.len();
    e.text_end = text.len();
    elems.set(top, e);
    let ghost t1 = SyntaxTree { elems: *elems, tokens: *tokens, text: *text };
    assert forall|i: int| 0 <= i < elems.len() implies {
        let e = #[trigger] elems@[i];
        &&& i < e.end <= elems.len()
        &&& (e.parent matches Some(p) ==> p < i)
        &&& e.text_start <= e.text_end <= text.len()
        &&& (!e.is_node ==> e.token_index < tokens.len() && tokens@[e.token_index as int] == i)
    } by {
        if i != top {
            assert(elems@[i] == old_elems[i]);
        }
    }
    assert forall|j: int| 0 <= j < tokens.len() implies {
        let t = #[trigger] tokens@[j];
        &&& t < elems.len()
        &&& !elems@[t as int].is_node
        &&& elems@[t as int].token_index == j
    } by {
        assert(tokens@[j] != top);
        assert(elems@[tokens@[j] as int] == old_elems[tokens@[j] as int]);
    }
    assert forall|i: int, x: int| #[trigger] t1.within(i, x) implies {
        &&& elems@[x].end <= elems@[i].end
        &&& elems@[i].text_start <= elems@[x].text_start
        &&& elems@[x].text_end <= elems@[i].text_end
    } by {
        if i == top {
            assert(elems@[x] == old_elems[x]);
            assert(old_elems[i].text_start <= old_elems[x].text_start);
            assert(t0.wf());
            assert(x < old_elems.len());
            let ex = old_elems[x];
            assert(ex.text_end <= text.len());
            assert(ex.end <= old_elems.len());
        } else {
            assert(elems@[i] == old_elems[i]);
            assert(t0.within(i, x));
            if x == top {
                assert(!t0.within(i, old_stack[old_stack.len() - 1] as int));
            }
            assert(elems@[x] == old_elems[x]);
        }
    }
    assert forall|j: int| 0 <= j < stack.len() implies {
        &&& #[trigger] stack@[j] < elems.len()
        &&& elems@[stack@[j] as int].is_node
        &&& elems@[stack@[j] as int].end == stack@[j] + 1
    } by {
        assert(stack@[j] == old_stack[j]);
        assert(old_stack[j] < old_stack[old_stack.len() - 1]);
        assert(elems@[stack@[j] as int] == old_elems[stack@[j] as int]);
    }
    assert forall|a: int, b: int| 0 <= a < b < stack.len() implies #[trigger] stack@[a] < #[trigger] stack@[b] by {
        assert(stack@[a] == old_stack[a]);
        assert(stack@[b] == old_stack[b]);
    }
    assert forall|i: int, x: int| 0 <= i < x < elems.len() implies #[trigger] elems@[i].text_start
        <= #[trigger] elems@[x].text_start by {
        assert(elems@[i].text_start == old_elems[i].text_start);
        assert(elems@[x].text_start == old_elems[x].text_start);
    }
    assert forall|i: int, j: int| 0 <= j < stack.len() implies !(#[trigger] t1.within(i, stack@[j] as int)) by {
        assert(stack@[j] == old_stack[j]);
        assert(old_stack[j] < old_stack[old_stack.len() - 1]);
        if 0 <= i < elems.len() && i != top {
            assert(elems@[i] == old_elems[i]);
            assert(!t0.within(i, old_stack[j] as int));
        }
    }
}

/// Builds the tree that a preorder walk describes. A `Leave` without an open node is ignored,
/// and nodes still open at the end are closed there.
pub fn build_tree(events: &Vec<SyntaxEvent>) -> (r: SyntaxTree)
    requires
        events.len() < usize::MAX,
    ensures
        r.wf(),
        r.nested(),
        r.tokens_ordered(),
        r.text@ == events_text(events@),
        r.elems@ == walk_tree(events@).elems,
        r.tokens@ == walk_tree(events@).tokens,
        r.text@ == walk_tree(events@).text,
{
    let mut elems: Vec<SyntaxElem> = Vec::new();
    let mut tokens: Vec<usize> = Vec::new();
    let mut text: Vec<char> = Vec::new();
    let mut stack: Vec<usize> = Vec::new();
    let mut k: usize = 0;
    proof {
        let t = SyntaxTree { elems, tokens, text };
        assert(forall|i: int, x: int| !#[trigger] t.within(i, x));
    }
    while k < events.len()
        invariant
            building(elems, tokens, text, stack@),
            elems.len() <= k,
            k <= events.len(),
            events.len() < usize::MAX,
            text@ == events_text(events@.take(k as int)),
            state_of(elems, tokens, text, stack@) == walk_state(events@.take(k as int)),
        decreases events.len() - k,
    {
        assert(events@.take(k + 1).drop_last() == events@.take(k as int));
        match &events[k] {
            SyntaxEvent::Enter(kind, directive) => {
                open_node(&mut elems, &tokens, &text, &mut stack, *kind, *directive);
            },
            SyntaxEvent::Token(kind, s) => {
                add_token(&mut elems, &mut tokens, &mut text, &stack, *kind, s);
            },
            SyntaxEvent::Leave => {
                if stack.len() > 0 {
                    close_top(&mut elems, &tokens, &text, &mut stack);
                }
            },
            SyntaxEvent::LeaveToken => {},
        }
        k = k + 1;
    }
    assert(events@.take(events@.len() as int) == events@);
    while stack.len() > 0
        invariant
            building(elems, tokens, text, stack@),
            text@ == events_text(events@),
            close_all(state_of(elems, tokens, text, stack@)) == walk_tree(events@),
        decreases stack.len(),
    {
        close_top(&mut elems, &tokens, &text, &mut stack);
    }
    SyntaxTree { elems, tokens, text }
}

/// The state of building a tree from a walk: its elements, tokens, text, and open nodes.
pub struct BuildState {
    pub elems: Seq<SyntaxElem>,
    pub tokens: Seq<usize>,
    pub text: Seq<char>,
    pub stack: Seq<usize>,
}

/// The node open innermost, if any.
pub open spec fn open_parent(stack: Seq<usize>) -> Option<usize> {
    if stack.len() > 0 {
        Some(stack.last())
    } else {
        None
    }
}

/// A node of kind `kind` starts: it is added under the innermost open node, and opened.
pub open spec fn step_open(st: BuildState, kind: u16, directive: Option<CommentFormatDirective>) -> BuildState {
    BuildState {
        elems: st.elems.push(SyntaxElem {
            kind,
            is_node: true,
            parent: open_parent(st.stack),
            end: (st.elems.len() + 1) as usize,
            text_start: st.text.len() as usize,
            text_end: st.text.len() as usize,
            token_index: 0,
            directive,
        }),
        tokens: st.tokens,
        text: st.text,
        stack: st.stack.push(st.elems.len() as usize),
    }
}

/// A token of kind `kind` with text `s`: it is added under the innermost open node, and its
/// text appended.
pub open spec fn step_token(st: BuildState, kind: u16, s: Seq<char>) -> BuildState {
    BuildState {
        elems: st.elems.push(SyntaxElem {
            kind,
            is_node: false,
            parent: open_parent(st.stack),
            end: (st.elems.len() + 1) as usize,
            text_start: st.text.len() as usize,
            text_end: (st.text.len() + s.len()) as usize,
            token_index: st.tokens.len() as usize,
            directive: None,
        }),
        tokens: st.tokens.push(st.elems.len() as usize),
        text: st.text + s,
        stack: st.stack,
    }
}

/// The innermost open node closes: its subtree and text end here.
pub open spec fn step_close(st: BuildState) -> BuildState {
    let top = st.stack.last();
    let e = st.elems[top as int];
    BuildState {
        elems: st.elems.update(top as int, SyntaxElem { end: st.elems.len() as usize, text_end: st.text.len() as usize, ..e }),
        tokens: st.tokens,
        text: st.text,
        stack: st.stack.drop_last(),
    }
}

/// The state after a walk: each event taken in turn, a `Leave` with no open node ignored.
pub open spec fn walk_state(evs: Seq<SyntaxEvent>) -> BuildState
    decreases evs.len(),
{
    if evs.len() == 0 {
        BuildState { elems: Seq::empty(), tokens: Seq::empty(), text: Seq::empty(), stack: Seq::empty() }
    } else {
        let st = walk_state(evs.drop_last());
        match evs.last() {
            SyntaxEvent::Enter(kind, directive) => step_open(st, kind, directive),
            SyntaxEvent::Token(kind, s) => step_token(st, kind, s@),
            SyntaxEvent::Leave => if st.stack.len() > 0 {
                step_close(st)
            } else {
                st
            },
            SyntaxEvent::LeaveToken => st,
        }
    }
}

/// The state once every node still open is closed.
pub open spec fn close_all(st: BuildState) -> BuildState
    decreases st.stack.len(),
{
    if st.stack.len() > 0 {
        close_all(step_close(st))
    } else {
        st
    }
}

/// The tree a walk describes, as elements, tokens and text.
pub open spec fn walk_tree(evs: Seq<SyntaxEvent>) -> BuildState {
    close_all(walk_state(evs))
}

/// The state held by the building vectors.
pub open spec fn state_of(elems: Vec<SyntaxElem>, tokens: Vec<usize>, text: Vec<char>, stack: Seq<usize>) -> BuildState {
    BuildState { elems: elems@, tokens: tokens@, text: text@, stack }
}

/// The text of the tokens of a walk, in order.
pub open spec fn events_text(evs: Seq<SyntaxEvent>) -> Seq<char>
    decreases evs.len(),
{
    if evs.len() == 0 {
        Seq::empty()
    } else {
        events_text(evs.drop_last()) + match evs.last() {
            SyntaxEvent::Token(_, s) => s@,
            _ => Seq::empty(),
        }
    }
}

/// Parses `text` and builds its syntax tree, which holds the text of the parser's tokens.
pub fn parse_tree(text: &str, level: LanguageLevel) -> (r: SyntaxTree)
    ensures
        r.wf(),
        r.nested(),
        r.tokens_ordered(),
        lua_syntax_events(text@, level).len() < usize::MAX ==> r.text@ == events_text(lua_syntax_events(text@, level)),
        lua_syntax_events(text@, level).len() < usize::MAX ==> {
            &&& r.elems@ == walk_tree(lua_syntax_events(text@, level)).elems
            &&& r.tokens@ == walk_tree(lua_syntax_events(text@, level)).tokens
            &&& r.text@ == walk_tree(lua_syntax_events(text@, level)).text
        },
{
    let events = lua_events(text, level);
    if events.len() == usize::MAX {
        return SyntaxTree { elems: Vec::new(), tokens: Vec::new(), text: Vec::new() };
    }
    build_tree(&events)
}

} // verus!
