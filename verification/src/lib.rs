//! A formatter for Lua source, with EmmyLua documentation comments.

pub mod align;
pub mod comment;
pub mod config;
pub mod doc_tags;
pub mod id_map;
pub mod kinds;
pub mod layout;
pub mod lists;
pub mod model;
pub mod parse;
pub mod range_format;
pub mod render;
pub mod spacing;
pub mod strings;
pub mod syntax;
pub mod text;

use vstd::prelude::*;

verus! {

use crate::config::LuaFormatConfig;
use crate::parse::LanguageLevel;
use crate::syntax::SyntaxTree;

/// Lua source to format, with the dialect it is written in.
pub struct SourceText<'a> {
    pub text: &'a str,
    pub level: LanguageLevel,
}

/// `out` holds, as they stand in the source, the nodes of `tree` that `fmt: off` comments put
/// out of formatting, their trailing blanks dropped.
pub open spec fn keeps_format_off(tree: SyntaxTree, out: Seq<char>) -> bool {
    forall|s: int, t: int|
        #[trigger] crate::render::under_format_off(&tree, s, t) ==> crate::text::shown(
            crate::text::trimmed(tree.spec_text(s)),
            out,
        )
}

/// `out` holds every code token of `tree` that formatting under `config` keeps, as in the
/// source or as its replacement, and in the order of the source.
pub open spec fn writes_code(config: LuaFormatConfig, tree: SyntaxTree, out: Seq<char>) -> bool {
    &&& forall|t: int|
        #[trigger] crate::render::format_kept_token(config, &tree, t) ==> crate::render::format_token_written(
            config,
            &tree,
            t,
            out,
        )
    &&& forall|t1: int, t2: int|
        #[trigger] crate::render::format_kept_token(config, &tree, t1) && #[trigger] crate::render::format_kept_token(
            config,
            &tree,
            t2,
        ) && tree.elems@[t1].token_index < tree.elems@[t2].token_index ==> crate::render::format_in_order(
            config,
            &tree,
            t1,
            t2,
            out,
        )
}

/// `plan` is what the spacing and layout analyses give for `tree` under `config`: the spacing
/// decision that the options give each token, the nodes that `fmt: off` comments put out of
/// formatting, and the layout of the statements' value lists.
pub open spec fn analyzed_plan(config: LuaFormatConfig, tree: SyntaxTree, plan: crate::model::RootFormatPlan) -> bool {
    &&& crate::spacing::spacing_covers(config, &tree, &plan.spacing, tree.tokens.len() as int)
    &&& (tree.elems.len() > 0 ==> plan.layout.format_disabled@.dom() == crate::layout::subtree_disabled(&tree, 0))
    &&& (tree.elems.len() == 0 ==> plan.layout.format_disabled@.dom() == Set::<crate::syntax::LuaSyntaxId>::empty())
    &&& plan.layout.statement_expr_lists@ == crate::layout::stat_lists_walk(
        &tree,
        Map::<crate::syntax::LuaSyntaxId, crate::model::StatementExprListLayoutPlan>::empty(),
        tree.elems.len() as nat,
    )
}

/// In `out`, each code token that follows another in the source with only blanks between
/// (neither in a region written as its source text, and no parenthesis opened before the
/// second) stands after exactly the gap that the spacing plan asks between the two, or starts a
/// line after a whole number of indentation levels as the options write them; in both cases
/// more spaces stand only before an aligned `=`.
pub open spec fn spaces_code(config: LuaFormatConfig, tree: SyntaxTree, out: Seq<char>) -> bool {
    exists|plan: crate::model::RootFormatPlan|
        #[trigger] analyzed_plan(config, tree, plan) && forall|p: int, t: int|
            #[trigger] crate::render::spaced_pair(config, &tree, &plan, p, t) ==> exists|e: nat|
                (tree.elems@[t].kind != crate::kinds::TK_ASSIGN ==> e == 0) && crate::render::gap_kept(
                    config,
                    &tree,
                    &plan.spacing,
                    p,
                    t,
                    e,
                    out,
                )
}

/// `tree` is the tree that the parser's walk of `text` describes, where the walk fits in memory.
pub open spec fn parsed_tree(tree: SyntaxTree, text: Seq<char>, level: LanguageLevel) -> bool {
    let evs = crate::parse::lua_syntax_events(text, level);
    evs.len() < usize::MAX ==> {
        &&& tree.elems@ == crate::syntax::walk_tree(evs).elems
        &&& tree.tokens@ == crate::syntax::walk_tree(evs).tokens
        &&& tree.text@ == crate::syntax::walk_tree(evs).text
    }
}

/// Formats Lua source with the given options. With `insert_final_newline`, non-empty output
/// ends with a line break. In the tree that the parser's walk of the source describes, each
/// region that `fmt: off` comments put out of formatting appears in the output as it stands in
/// the source, every code token (or its replacement) is written in source order, and two code
/// tokens that follow each other stand the planned gap apart or on lines of their own.
pub fn reformat_lua_code(source: &SourceText, config: &LuaFormatConfig) -> (r: String)
    ensures
        config.output.insert_final_newline && r@.len() > 0 ==> r@.last() == '\n',
        exists|tree: SyntaxTree|
            #[trigger] keeps_format_off(tree, r@) && tree.wf() && parsed_tree(tree, source.text@, source.level)
                && writes_code(*config, tree, r@) && spaces_code(*config, tree, r@),
{
    let tree = crate::syntax::parse_tree(source.text, source.level);
    let ctx = FormatContext::new(config);
    let out = format_chunk(&ctx, &tree);
    let r = crate::text::string_from_chars(out.as_slice());
    assert(keeps_format_off(tree, r@));
    assert(parsed_tree(tree, source.text@, source.level));
    assert(writes_code(*config, tree, r@));
    assert(spaces_code(*config, tree, r@));
    r
}

/// Formats a parsed chunk: spacing analysis, then layout analysis, then rendering. Every
/// node that `fmt: off` comments put out of formatting appears in the output as it stands in
/// the source, its trailing blanks dropped.
pub fn format_chunk(ctx: &FormatContext, tree: &SyntaxTree) -> (r: Vec<char>)
    requires
        tree.wf(),
        tree.nested(),
        tree.tokens_ordered(),
    ensures
        ctx.config.output.insert_final_newline && r@.len() > 0 ==> r@.last() == '\n',
        forall|s: int, t: int|
            #[trigger] crate::render::under_format_off(tree, s, t) ==> crate::text::shown(
                crate::text::trimmed(tree.spec_text(s)),
                r@,
            ),
        forall|t: int|
            #[trigger] crate::render::format_kept_token(*ctx.config, tree, t) ==> crate::render::format_token_written(
                *ctx.config,
                tree,
                t,
                r@,
            ),
        forall|t1: int, t2: int|
            #[trigger] crate::render::format_kept_token(*ctx.config, tree, t1) && #[trigger] crate::render::format_kept_token(
                *ctx.config,
                tree,
                t2,
            ) && tree.elems@[t1].token_index < tree.elems@[t2].token_index ==> crate::render::format_in_order(
                *ctx.config,
                tree,
                t1,
                t2,
                r@,
            ),
        spaces_code(*ctx.config, *tree, r@),
{
    let spacing_plan = crate::spacing::analyze_root_spacing(ctx, tree);
    let layout_plan = crate::layout::analyze_root_layout(ctx, tree, spacing_plan);
    let r = crate::render::render_root(ctx, tree, &layout_plan);
    proof {
        assert forall|k: crate::syntax::LuaSyntaxId| #[trigger] layout_plan.spacing.replace_map().contains_key(k) implies exists|j: int|
            0 <= j < tree.tokens.len() && tree.spec_id(tree.tokens@[j] as int) == k && crate::spacing::token_replace(
                *ctx.config,
                tree,
                tree.tokens@[j] as int,
            ) == Some(layout_plan.spacing.replace_map()[k]@) by {
            assert(spacing_plan.spacing.replace_map().contains_key(k));
        }
        assert forall|t: int| #[trigger] crate::render::format_kept_token(*ctx.config, tree, t) implies crate::render::format_token_written(
            *ctx.config,
            tree,
            t,
            r@,
        ) by {
            crate::render::lemma_plan_tokens(*ctx.config, tree, &layout_plan.spacing, t, r@);
        }
        assert forall|t1: int, t2: int|
            #[trigger] crate::render::format_kept_token(*ctx.config, tree, t1) && #[trigger] crate::render::format_kept_token(
                *ctx.config,
                tree,
                t2,
            ) && tree.elems@[t1].token_index < tree.elems@[t2].token_index implies crate::render::format_in_order(
                *ctx.config,
                tree,
                t1,
                t2,
                r@,
            ) by {
            crate::render::lemma_plan_tokens(*ctx.config, tree, &layout_plan.spacing, t1, r@);
            crate::render::lemma_plan_tokens(*ctx.config, tree, &layout_plan.spacing, t2, r@);
            crate::render::lemma_plan_order(*ctx.config, tree, &layout_plan.spacing, t1, t2, r@);
        }
        assert forall|s: int, t: int| #[trigger] crate::render::under_format_off(tree, s, t) implies crate::text::shown(
            crate::text::trimmed(tree.spec_text(s)),
            r@,
        ) by {
            assert(layout_plan.layout.format_disabled@.dom().contains(tree.spec_id(s)));
            assert(crate::render::kept_verbatim(tree, &layout_plan, s, t));
        }
        assert(spacing_plan.layout.format_disabled@.dom() =~= Set::<crate::syntax::LuaSyntaxId>::empty());
        if tree.elems.len() > 0 {
            assert(layout_plan.layout.format_disabled@.dom() =~= crate::layout::subtree_disabled(tree, 0));
        }
        assert(analyzed_plan(*ctx.config, *tree, layout_plan));
        assert(spaces_code(*ctx.config, *tree, r@));
    }
    r
}

/// What every formatting step reads: the options in force.
pub struct FormatContext<'a> {
    pub config: &'a LuaFormatConfig,
}

impl<'a> FormatContext<'a> {
    /// A context that formats with `config`.
    pub fn new(config: &'a LuaFormatConfig) -> (r: Self)
        ensures
            r.config == config,
    {
        FormatContext { config }
    }
}

} // verus!
