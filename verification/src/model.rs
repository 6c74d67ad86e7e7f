//! The plans that analysis builds and rendering reads.

use vstd::prelude::*;

use crate::config::LuaFormatConfig;
use crate::id_map::IdMap;
use crate::syntax::LuaSyntaxId;

verus! {

/// The spaces a token wants on one of its sides.
#[derive(Clone, Copy, Debug, PartialEq, Eq, Structural)]
pub enum TokenSpacingExpected {
    /// Exactly this many spaces.
    Space(usize),
    /// At most this many spaces.
    MaxSpace(usize),
}

/// The spacing decisions for every token of a chunk.
pub struct RootSpacingModel {
    pub has_shebang: bool,
    left_expected: IdMap<TokenSpacingExpected>,
    right_expected: IdMap<TokenSpacingExpected>,
    replace_tokens: IdMap<String>,
}

impl RootSpacingModel {
    /// Whether the chunk opens with a shebang line.
    pub closed spec fn shebang(&self) -> bool {
        self.has_shebang
    }

    /// The spacing wanted on the left of each token.
    pub closed spec fn left_map(&self) -> Map<LuaSyntaxId, TokenSpacingExpected> {
        self.left_expected@
    }

    /// The spacing wanted on the right of each token.
    pub closed spec fn right_map(&self) -> Map<LuaSyntaxId, TokenSpacingExpected> {
        self.right_expected@
    }

    /// The replacement text of each token, by its characters.
    pub closed spec fn replace_map(&self) -> Map<LuaSyntaxId, String> {
        self.replace_tokens@
    }

    /// The three maps are well formed.
    pub closed spec fn wf(&self) -> bool {
        self.left_expected.wf() && self.right_expected.wf() && self.replace_tokens.wf()
    }

    /// A model without any decision.
    pub fn new() -> (r: Self)
        ensures
            r.wf(),
            !r.shebang(),
            r.left_map() == Map::<LuaSyntaxId, TokenSpacingExpected>::empty(),
            r.right_map() == Map::<LuaSyntaxId, TokenSpacingExpected>::empty(),
            r.replace_map() == Map::<LuaSyntaxId, String>::empty(),
    {
        RootSpacingModel {
            has_shebang: false,
            left_expected: IdMap::new(),
            right_expected: IdMap::new(),
            replace_tokens: IdMap::new(),
        }
    }

    /// Records whether the chunk opens with a shebang line.
    pub fn set_has_shebang(&mut self, has_shebang: bool)
        requires
            old(self).wf(),
        ensures
            final(self).wf(),
            final(self).shebang() == has_shebang,
            final(self).left_map() == old(self).left_map(),
            final(self).right_map() == old(self).right_map(),
            final(self).replace_map() == old(self).replace_map(),
    {
        self.has_shebang = has_shebang;
    }

    /// Records the spacing wanted on the left of a token.
    pub fn add_token_left_expected(&mut self, syntax_id: LuaSyntaxId, expected: TokenSpacingExpected)
        requires
            old(self).wf(),
        ensures
            final(self).wf(),
            final(self).shebang() == old(self).shebang(),
            final(self).left_map() == old(self).left_map().insert(syntax_id, expected),
            final(self).right_map() == old(self).right_map(),
            final(self).replace_map() == old(self).replace_map(),
    {
        self.left_expected.insert(syntax_id, expected);
    }

    /// Records the spacing wanted on the right of a token.
    pub fn add_token_right_expected(&mut self, syntax_id: LuaSyntaxId, expected: TokenSpacingExpected)
        requires
            old(self).wf(),
        ensures
            final(self).wf(),
            final(self).shebang() == old(self).shebang(),
            final(self).left_map() == old(self).left_map(),
            final(self).right_map() == old(self).right_map().insert(syntax_id, expected),
            final(self).replace_map() == old(self).replace_map(),
    {
        self.right_expected.insert(syntax_id, expected);
    }

    /// The spacing wanted on the left of a token.
    pub fn left_expected(&self, syntax_id: LuaSyntaxId) -> (r: Option<&TokenSpacingExpected>)
        requires
            self.wf(),
        ensures
            r == (if self.left_map().contains_key(syntax_id) {
                Some(&self.left_map()[syntax_id])
            } else {
                None
            }),
    {
        self.left_expected.get(syntax_id)
    }

    /// The spacing wanted on the right of a token.
    pub fn right_expected(&self, syntax_id: LuaSyntaxId) -> (r: Option<&TokenSpacingExpected>)
        requires
            self.wf(),
        ensures
            r == (if self.right_map().contains_key(syntax_id) {
                Some(&self.right_map()[syntax_id])
            } else {
                None
            }),
    {
        self.right_expected.get(syntax_id)
    }

    /// Records the text that replaces a token.
    pub fn add_token_replace(&mut self, syntax_id: LuaSyntaxId, replacement: String)
        requires
            old(self).wf(),
        ensures
            final(self).wf(),
            final(self).shebang() == old(self).shebang(),
            final(self).left_map() == old(self).left_map(),
            final(self).right_map() == old(self).right_map(),
            final(self).replace_map() == old(self).replace_map().insert(syntax_id, replacement),
    {
        self.replace_tokens.insert(syntax_id, replacement);
    }

    /// The text that replaces a token.
    pub fn token_replace(&self, syntax_id: LuaSyntaxId) -> (r: Option<&str>)
        requires
            self.wf(),
        ensures
            match r {
                Some(s) => self.replace_map().contains_key(syntax_id) && s@
                    == self.replace_map()[syntax_id]@,
                None => !self.replace_map().contains_key(syntax_id),
            },
    {
        match self.replace_tokens.get(syntax_id) {
            Some(s) => Some(s.as_str()),
            None => None,
        }
    }
}

/// Spacing recorded for a token reads back as recorded, on either side, and the spacing of
/// every other token is left as it was.
pub proof fn law_recorded_spacing_reads_back(
    before: Map<LuaSyntaxId, TokenSpacingExpected>,
    after: Map<LuaSyntaxId, TokenSpacingExpected>,
    id: LuaSyntaxId,
    expected: TokenSpacingExpected,
)
    requires
        after == before.insert(id, expected),
    ensures
        after.contains_key(id),
        after[id] == expected,
        forall|other: LuaSyntaxId|
            other != id ==> (after.contains_key(other) == before.contains_key(other) && (
            before.contains_key(other) ==> after[other] == before[other])),
{
}

/// A spacing table after the writes `w`, made in order.
pub open spec fn after_writes(
    m: Map<LuaSyntaxId, TokenSpacingExpected>,
    w: Seq<(LuaSyntaxId, TokenSpacingExpected)>,
) -> Map<LuaSyntaxId, TokenSpacingExpected>
    decreases w.len(),
{
    if w.len() == 0 {
        m
    } else {
        after_writes(m, w.drop_last()).insert(w.last().0, w.last().1)
    }
}

/// The position of the last write to token `id` among the writes `w`, if any.
pub open spec fn last_write(w: Seq<(LuaSyntaxId, TokenSpacingExpected)>, id: LuaSyntaxId) -> Option<int>
    decreases w.len(),
{
    if w.len() == 0 {
        None
    } else if w.last().0 == id {
        Some(w.len() - 1)
    } else {
        last_write(w.drop_last(), id)
    }
}

/// After any sequence of spacing writes, each token reads back the value of the last write to
/// it, and a token that no write names keeps what it had.
pub proof fn law_last_write_wins(
    m: Map<LuaSyntaxId, TokenSpacingExpected>,
    w: Seq<(LuaSyntaxId, TokenSpacingExpected)>,
    id: LuaSyntaxId,
)
    ensures
        match last_write(w, id) {
            Some(i) => 0 <= i < w.len() && after_writes(m, w).contains_key(id) && after_writes(m, w)[id] == w[i].1,
            None => after_writes(m, w).contains_key(id) == m.contains_key(id) && (m.contains_key(id) ==> after_writes(
                m,
                w,
            )[id] == m[id]),
        },
    decreases w.len(),
{
    if w.len() > 0 {
        law_last_write_wins(m, w.drop_last(), id);
    }
}

/// Whether a statement holds a comment on the line of its code.
#[derive(Clone, Copy, Debug, PartialEq, Eq, Structural)]
pub struct StatementTriviaLayoutPlan {
    pub has_inline_comment: bool,
}

/// Whether a control statement's header holds a comment on the line of its code.
#[derive(Clone, Copy, Debug, PartialEq, Eq, Structural)]
pub struct ControlHeaderLayoutPlan {
    pub has_inline_comment: bool,
}

/// How the expressions of a statement are laid out.
#[derive(Clone, Copy, Debug, PartialEq, Eq, Structural)]
pub enum StatementExprListLayoutKind {
    Sequence,
    PreserveFirstMultiline,
}

/// The layout options for the expression list of a statement or a control header.
#[derive(Clone, Copy, Debug, PartialEq, Eq, Structural)]
pub struct StatementExprListLayoutPlan {
    pub kind: StatementExprListLayoutKind,
    pub first_line_prefix_width: usize,
    pub attach_single_value_head: bool,
    pub allow_fill: bool,
    pub allow_packed: bool,
    pub allow_one_per_line: bool,
    pub prefer_balanced_break_lines: bool,
}

/// The layout options of a parameter list, an argument list or a table.
#[derive(Clone, Copy, Debug, PartialEq, Eq, Structural)]
pub struct ExprSequenceLayoutPlan {
    pub first_line_prefix_width: usize,
    pub preserve_multiline: bool,
}

/// Line-break decisions for the whole chunk.
#[derive(Clone, Copy, Debug, PartialEq, Eq, Structural)]
pub struct RootLineBreakModel {
    pub insert_final_newline: bool,
}

/// A syntax node of the layout tree, with the layout of its child nodes.
#[derive(Debug)]
pub struct SyntaxNodeLayoutPlan {
    pub syntax_id: LuaSyntaxId,
    /// The raw node kind.
    pub kind: u16,
    pub children: Vec<LayoutNodePlan>,
}

/// A comment of the layout tree; its inside is not laid out.
#[derive(Clone, Copy, Debug, PartialEq, Eq, Structural)]
pub struct CommentLayoutPlan {
    pub syntax_id: LuaSyntaxId,
}

/// A node of the layout tree.
#[derive(Debug)]
pub enum LayoutNodePlan {
    Syntax(SyntaxNodeLayoutPlan),
    Comment(CommentLayoutPlan),
}

/// The comments that follow a header token of a control statement, in source order.
#[derive(Clone, Debug, PartialEq, Eq)]
pub struct BoundaryCommentLayoutPlan {
    pub comment_ids: Vec<LuaSyntaxId>,
}

/// The boundary comments of one statement, by the raw kind of the token they follow.
pub struct AnchorCommentMap {
    entries: Vec<(u16, BoundaryCommentLayoutPlan)>,
}

/// The comments bound to `kind` in a list of bindings where a later binding wins.
pub open spec fn anchor_lookup(entries: Seq<(u16, BoundaryCommentLayoutPlan)>, kind: u16) -> Option<
    Seq<LuaSyntaxId>,
>
    decreases entries.len(),
{
    if entries.len() == 0 {
        None
    } else if entries.last().0 == kind {
        Some(entries.last().1.comment_ids@)
    } else {
        anchor_lookup(entries.drop_last(), kind)
    }
}

proof fn lemma_anchor_lookup_same(
    a: Seq<(u16, BoundaryCommentLayoutPlan)>,
    b: Seq<(u16, BoundaryCommentLayoutPlan)>,
    kind: u16,
)
    requires
        a.len() == b.len(),
        forall|i: int|
            0 <= i < a.len() ==> #[trigger] a[i].0 == b[i].0 && a[i].1.comment_ids@
                == b[i].1.comment_ids@,
    ensures
        anchor_lookup(a, kind) == anchor_lookup(b, kind),
    decreases a.len(),
{
    if a.len() > 0 {
        assert forall|i: int| 0 <= i < a.drop_last().len() implies #[trigger] a.drop_last()[i].0
            == b.drop_last()[i].0 && a.drop_last()[i].1.comment_ids@
            == b.drop_last()[i].1.comment_ids@ by {
            assert(a.drop_last()[i] == a[i]);
            assert(b.drop_last()[i] == b[i]);
        }
        lemma_anchor_lookup_same(a.drop_last(), b.drop_last(), kind);
        assert(a.last().0 == b.last().0);
    }
}

impl AnchorCommentMap {
    /// The comment identifiers recorded after the token of kind `kind`.
    pub closed spec fn comments_after(&self, kind: u16) -> Option<Seq<LuaSyntaxId>> {
        anchor_lookup(self.entries@, kind)
    }

    /// A map without any comment.
    pub fn new() -> (r: Self)
        ensures
            forall|kind: u16| #[trigger] r.comments_after(kind) is None,
    {
        AnchorCommentMap { entries: Vec::new() }
    }

    /// The comments recorded after the token of kind `kind`.
    pub fn get(&self, kind: u16) -> (r: Option<&BoundaryCommentLayoutPlan>)
        ensures
            match r {
                Some(p) => self.comments_after(kind) == Some(p.comment_ids@),
                None => self.comments_after(kind) is None,
            },
    {
        let mut i = self.entries.len();
        assert(self.entries@.take(i as int) == self.entries@);
        while i > 0
            invariant
                i <= self.entries.len(),
                anchor_lookup(self.entries@, kind) == anchor_lookup(self.entries@.take(i as int), kind),
            decreases i,
        {
            let ghost prefix = self.entries@.take(i as int);
            if self.entries[i - 1].0 == kind {
                return Some(&self.entries[i - 1].1);
            }
            assert(prefix.drop_last() == self.entries@.take(i - 1));
            i = i - 1;
        }
        None
    }

    /// A map with the same comments after each token kind.
    pub fn duplicate(&self) -> (r: Self)
        ensures
            forall|k: u16| #[trigger] r.comments_after(k) == self.comments_after(k),
    {
        let mut entries: Vec<(u16, BoundaryCommentLayoutPlan)> = Vec::new();
        let mut i: usize = 0;
        while i < self.entries.len()
            invariant
                i <= self.entries.len(),
                entries@.len() == i,
                forall|j: int|
                    0 <= j < i ==> #[trigger] entries@[j].0 == self.entries@[j].0
                        && entries@[j].1.comment_ids@ == self.entries@[j].1.comment_ids@,
            decreases self.entries.len() - i,
        {
            let kind = self.entries[i].0;
            let src = &self.entries[i].1.comment_ids;
            let mut ids: Vec<LuaSyntaxId> = Vec::new();
            let mut j: usize = 0;
            while j < src.len()
                invariant
                    j <= src.len(),
                    ids@ == src@.take(j as int),
                decreases src.len() - j,
            {
                ids.push(src[j]);
                j = j + 1;
                assert(ids@ =~= src@.take(j as int));
            }
            assert(src@.take(j as int) =~= src@);
            entries.push((kind, BoundaryCommentLayoutPlan { comment_ids: ids }));
            i = i + 1;
        }
        let r = AnchorCommentMap { entries };
        proof {
            assert forall|k: u16| #[trigger] r.comments_after(k) == self.comments_after(k) by {
                lemma_anchor_lookup_same(r.entries@, self.entries@, k);
            }
        }
        r
    }

    /// Records `plan` as the comments after the token of kind `kind`.
    pub fn insert(&mut self, kind: u16, plan: BoundaryCommentLayoutPlan)
        ensures
            forall|k: u16|
                #[trigger] final(self).comments_after(k) == if k == kind {
                    Some(plan.comment_ids@)
                } else {
                    old(self).comments_after(k)
                },
    {
        let ghost before = self.entries@;
        self.entries.push((kind, plan));
        assert(self.entries@.drop_last() == before);
    }
}

/// The layout plans of a chunk.
pub struct RootLayoutModel {
    pub format_block_with_legacy: bool,
    /// The layout tree under the chunk.
    pub root_nodes: Vec<LayoutNodePlan>,
    /// The nodes written as in the source (under `fmt: off`, and the directives themselves).
    pub format_disabled: IdMap<()>,
    pub statement_trivia: IdMap<StatementTriviaLayoutPlan>,
    pub statement_expr_lists: IdMap<StatementExprListLayoutPlan>,
    pub expr_sequences: IdMap<ExprSequenceLayoutPlan>,
    pub control_headers: IdMap<ControlHeaderLayoutPlan>,
    pub control_header_expr_lists: IdMap<StatementExprListLayoutPlan>,
    pub boundary_comments: IdMap<AnchorCommentMap>,
    pub block_excluded_comments: IdMap<Vec<LuaSyntaxId>>,
}

impl RootLayoutModel {
    /// Every map of the model is well formed.
    pub open spec fn wf(&self) -> bool {
        &&& self.format_disabled.wf()
        &&& self.statement_trivia.wf()
        &&& self.statement_expr_lists.wf()
        &&& self.expr_sequences.wf()
        &&& self.control_headers.wf()
        &&& self.control_header_expr_lists.wf()
        &&& self.boundary_comments.wf()
        &&& self.block_excluded_comments.wf()
    }

    /// Every map of the model is empty.
    pub open spec fn is_empty(&self) -> bool {
        &&& self.root_nodes@.len() == 0
        &&& self.format_disabled@ == Map::<LuaSyntaxId, ()>::empty()
        &&& self.statement_trivia@ == Map::<LuaSyntaxId, StatementTriviaLayoutPlan>::empty()
        &&& self.statement_expr_lists@ == Map::<LuaSyntaxId, StatementExprListLayoutPlan>::empty()
        &&& self.expr_sequences@ == Map::<LuaSyntaxId, ExprSequenceLayoutPlan>::empty()
        &&& self.control_headers@ == Map::<LuaSyntaxId, ControlHeaderLayoutPlan>::empty()
        &&& self.control_header_expr_lists@ == Map::<LuaSyntaxId, StatementExprListLayoutPlan>::empty()
        &&& self.boundary_comments@ == Map::<LuaSyntaxId, AnchorCommentMap>::empty()
        &&& self.block_excluded_comments@ == Map::<LuaSyntaxId, Vec<LuaSyntaxId>>::empty()
    }
}

/// Everything analysis decides before rendering: spacing, layout and line breaks.
pub struct RootFormatPlan {
    pub spacing: RootSpacingModel,
    pub layout: RootLayoutModel,
    pub line_breaks: RootLineBreakModel,
}

impl RootFormatPlan {
    /// Both models are well formed.
    pub open spec fn wf(&self) -> bool {
        self.spacing.wf() && self.layout.wf()
    }

    /// A plan with no decision yet, whose final-newline choice follows `config`.
    pub fn from_config(config: &LuaFormatConfig) -> (r: Self)
        ensures
            r.wf(),
            !r.spacing.shebang(),
            r.spacing.left_map() == Map::<LuaSyntaxId, TokenSpacingExpected>::empty(),
            r.spacing.right_map() == Map::<LuaSyntaxId, TokenSpacingExpected>::empty(),
            r.spacing.replace_map() == Map::<LuaSyntaxId, String>::empty(),
            r.layout.format_block_with_legacy,
            r.layout.is_empty(),
            r.line_breaks.insert_final_newline == config.output.insert_final_newline,
    {
        RootFormatPlan {
            spacing: RootSpacingModel::new(),
            layout: RootLayoutModel {
                format_block_with_legacy: true,
                root_nodes: Vec::new(),
                format_disabled: IdMap::new(),
                statement_trivia: IdMap::new(),
                statement_expr_lists: IdMap::new(),
                expr_sequences: IdMap::new(),
                control_headers: IdMap::new(),
                control_header_expr_lists: IdMap::new(),
                boundary_comments: IdMap::new(),
                block_excluded_comments: IdMap::new(),
            },
            line_breaks: RootLineBreakModel { insert_final_newline: config.output.insert_final_newline },
        }
    }
}

} // verus!
