//! Parsing Lua source with `emmylua_parser`.

use emmylua_parser::{
    LuaAstNode, LuaComment, LuaCommentFormatDirective, LuaLanguageLevel, LuaParser, ParserConfig,
};
use rowan::{NodeOrToken, WalkEvent};
use vstd::prelude::*;

verus! {

/// The Lua dialect that source is parsed as.
#[derive(Clone, Copy, Debug, PartialEq, Eq, Structural)]
pub enum LanguageLevel {
    Lua51,
    LuaJIT2,
    LuaJIT,
    LuaJIT3,
    Lua52,
    Lua53,
    Lua54,
    Lua55,
}

impl Default for LanguageLevel {
    fn default() -> (r: Self)
        ensures
            r == LanguageLevel::Lua55,
    {
        LanguageLevel::Lua55
    }
}

/// A comment that switches formatting off or back on (`-- fmt: off`, `-- fmt: on`).
#[derive(Clone, Copy, Debug, PartialEq, Eq, Structural)]
pub enum CommentFormatDirective {
    FormatOff,
    FormatOn,
}

/// One step of a preorder walk over the syntax tree, tokens included.
#[derive(Debug)]
pub enum SyntaxEvent {
    /// A node with this raw kind starts; a comment node carries its formatting directive.
    Enter(u16, Option<CommentFormatDirective>),
    /// The most recently started node ends.
    Leave,
    /// A token with this raw kind and text.
    Token(u16, String),
    /// A token ends (the walk reports it; nothing is built from it).
    LeaveToken,
}

#[verifier::external_type_specification]
#[verifier::external_body]
pub struct ExLuaLanguageLevel(LuaLanguageLevel);

/// The preorder walk, tokens included, over the tree that `emmylua_parser` builds for `text`
/// parsed as the given dialect.
pub uninterp spec fn lua_syntax_events(text: Seq<char>, level: LanguageLevel) -> Seq<SyntaxEvent>;

/// The parser's own name for a dialect: `LuaLanguageLevel` has the same variants, in the same
/// order, as [`LanguageLevel`].
#[verifier::external_body]
fn parser_level(level: LanguageLevel) -> LuaLanguageLevel {
    match level {
        LanguageLevel::Lua51 => LuaLanguageLevel::Lua51,
        LanguageLevel::LuaJIT2 => LuaLanguageLevel::LuaJIT2,
        LanguageLevel::LuaJIT => LuaLanguageLevel::LuaJIT,
        LanguageLevel::LuaJIT3 => LuaLanguageLevel::LuaJIT3,
        LanguageLevel::Lua52 => LuaLanguageLevel::Lua52,
        LanguageLevel::Lua53 => LuaLanguageLevel::Lua53,
        LanguageLevel::Lua54 => LuaLanguageLevel::Lua54,
        LanguageLevel::Lua55 => LuaLanguageLevel::Lua55,
    }
}

/// Calls `LuaParser::parse` on `text` and walks the tree it returns with rowan's
/// `preorder_with_tokens`, reporting each step with its raw kind and, for tokens, the text;
/// for a comment node, `LuaComment::get_format_directive` gives its directive.
/// Claimed: the result is the named walk of `text` for that dialect, so equal arguments give
/// equal walks. Nothing is claimed of its shape.
#[verifier::external_body]
pub(crate) fn lua_events(text: &str, level: LanguageLevel) -> (r: Vec<SyntaxEvent>)
    ensures
        r@ == lua_syntax_events(text@, level),
{
    let tree = LuaParser::parse(text, ParserConfig::with_level(parser_level(level)));
    tree.get_red_root().preorder_with_tokens().map(|event| match event {
        WalkEvent::Enter(NodeOrToken::Node(n)) => SyntaxEvent::Enter(
            n.kind().get_raw(),
            LuaComment::cast(n).and_then(|c| c.get_format_directive()).map(|d| match d {
                LuaCommentFormatDirective::FormatOff => CommentFormatDirective::FormatOff,
                LuaCommentFormatDirective::FormatOn => CommentFormatDirective::FormatOn,
            }),
        ),
        WalkEvent::Enter(NodeOrToken::Token(t)) => {
            SyntaxEvent::Token(t.kind().get_raw(), t.text().to_string())
        },
        WalkEvent::Leave(NodeOrToken::Node(_)) => SyntaxEvent::Leave,
        WalkEvent::Leave(NodeOrToken::Token(_)) => SyntaxEvent::LeaveToken,
    }).collect()
}

} // verus!
