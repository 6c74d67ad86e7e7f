//! The spaces each token wants around it, and the replacement text of comment prefixes.

use vstd::prelude::*;

use crate::config::LuaFormatConfig;
use crate::kinds::{
    SK_ATTRIBUTE, SK_BINARY_EXPR, SK_CALL_ARG_LIST, SK_DOC_GENERIC_DECLARE_LIST, SK_DOC_VERSION, SK_INDEX_EXPR,
    SK_PARAM_LIST, SK_PAREN_EXPR, SK_TYPE_GENERIC, SK_UNARY_EXPR, TK_AND, TK_ASSIGN, TK_BIT_AND,
    TK_BIT_OR, TK_BIT_XOR, TK_COLON, TK_COMMA, TK_CONCAT, TK_DIV, TK_DO, TK_DOC_AND,
    TK_DOC_CONTINUE, TK_DOC_CONTINUE_OR, TK_DOC_EXTENDS, TK_DOC_IN, TK_DOC_OR, TK_DOC_QUESTION,
    TK_DOC_START, TK_DOT, TK_ELSE, TK_ELSE_IF, TK_END_OF_LINE, TK_EQ, TK_FOR, TK_FUNCTION, TK_GE,
    TK_GT, TK_I_DIV, TK_IF, TK_IN, TK_LE, TK_LEFT_BRACE, TK_LEFT_BRACKET, TK_LEFT_PAREN,
    TK_LOCAL, TK_LONG_STRING, TK_LT, TK_MINUS, TK_MOD, TK_MUL, TK_NAME, TK_NE, TK_NONE,
    TK_NORMAL_START, TK_NOT, TK_OR, TK_PLUS, TK_POW, TK_REPEAT, TK_RETURN, TK_RIGHT_BRACE,
    TK_RIGHT_BRACKET, TK_RIGHT_PAREN, TK_SEMICOLON, TK_SHEBANG, TK_SHL, TK_SHR, TK_STRING,
    TK_THEN, TK_UNTIL, TK_WHILE, TK_WHITESPACE,
};
use crate::model::{RootFormatPlan, RootSpacingModel, TokenSpacingExpected};
use crate::syntax::SyntaxTree;
use crate::text::{dash_prefix_len, leading_dashes, skip_spaces, string_from_chars, trim_start_chars};
use crate::FormatContext;

verus! {

/// Whether a binary operator is written with spaces around it.
#[derive(Clone, Copy, Debug, PartialEq, Eq, Structural)]
pub enum SpaceRule {
    Space,
    NoSpace,
}

/// The operators of binary expressions.
#[derive(Clone, Copy, Debug, PartialEq, Eq, Structural)]
pub enum BinaryOperator {
    OpAdd,
    OpSub,
    OpMul,
    OpDiv,
    OpIDiv,
    OpMod,
    OpPow,
    OpConcat,
    OpBAnd,
    OpBOr,
    OpBXor,
    OpShl,
    OpShr,
    OpEq,
    OpLt,
    OpLe,
    OpNe,
    OpGt,
    OpGe,
    OpAnd,
    OpOr,
    OpNop,
}

/// The spacing rule of a binary operator under `config`.
pub open spec fn spec_space_around_binary_op(op: BinaryOperator, config: LuaFormatConfig) -> SpaceRule {
    match op {
        BinaryOperator::OpAdd | BinaryOperator::OpSub | BinaryOperator::OpMul
        | BinaryOperator::OpDiv | BinaryOperator::OpIDiv | BinaryOperator::OpMod
        | BinaryOperator::OpPow => if config.spacing.space_around_math_operator {
            SpaceRule::Space
        } else {
            SpaceRule::NoSpace
        },
        BinaryOperator::OpConcat => if config.spacing.space_around_concat_operator {
            SpaceRule::Space
        } else {
            SpaceRule::NoSpace
        },
        _ => SpaceRule::Space,
    }
}

/// Arithmetic operators follow the math option, `..` the concat option; every other operator
/// is spaced.
pub fn space_around_binary_op(op: BinaryOperator, config: &LuaFormatConfig) -> (r: SpaceRule)
    ensures
        r == spec_space_around_binary_op(op, *config),
{
    match op {
        BinaryOperator::OpAdd | BinaryOperator::OpSub | BinaryOperator::OpMul
        | BinaryOperator::OpDiv | BinaryOperator::OpIDiv | BinaryOperator::OpMod
        | BinaryOperator::OpPow => {
            if config.spacing.space_around_math_operator {
                SpaceRule::Space
            } else {
                SpaceRule::NoSpace
            }
        },
        BinaryOperator::OpConcat => {
            if config.spacing.space_around_concat_operator {
                SpaceRule::Space
            } else {
                SpaceRule::NoSpace
            }
        },
        _ => SpaceRule::Space,
    }
}

/// The spacing rule of `=` under `config`.
pub fn space_around_assign(config: &LuaFormatConfig) -> (r: SpaceRule)
    ensures
        r == (if config.spacing.space_around_assign_operator {
            SpaceRule::Space
        } else {
            SpaceRule::NoSpace
        }),
{
    if config.spacing.space_around_assign_operator {
        SpaceRule::Space
    } else {
        SpaceRule::NoSpace
    }
}

/// The binary operator a token kind writes, if any.
pub open spec fn spec_binary_op_of(kind: u16) -> Option<BinaryOperator> {
    if kind == TK_PLUS {
        Some(BinaryOperator::OpAdd)
    } else if kind == TK_MINUS {
        Some(BinaryOperator::OpSub)
    } else if kind == TK_MUL {
        Some(BinaryOperator::OpMul)
    } else if kind == TK_DIV {
        Some(BinaryOperator::OpDiv)
    } else if kind == TK_I_DIV {
        Some(BinaryOperator::OpIDiv)
    } else if kind == TK_MOD {
        Some(BinaryOperator::OpMod)
    } else if kind == TK_POW {
        Some(BinaryOperator::OpPow)
    } else if kind == TK_CONCAT {
        Some(BinaryOperator::OpConcat)
    } else if kind == TK_BIT_AND {
        Some(BinaryOperator::OpBAnd)
    } else if kind == TK_BIT_OR {
        Some(BinaryOperator::OpBOr)
    } else if kind == TK_BIT_XOR {
        Some(BinaryOperator::OpBXor)
    } else if kind == TK_SHL {
        Some(BinaryOperator::OpShl)
    } else if kind == TK_SHR {
        Some(BinaryOperator::OpShr)
    } else if kind == TK_EQ {
        Some(BinaryOperator::OpEq)
    } else if kind == TK_GE {
        Some(BinaryOperator::OpGe)
    } else if kind == TK_GT {
        Some(BinaryOperator::OpGt)
    } else if kind == TK_LE {
        Some(BinaryOperator::OpLe)
    } else if kind == TK_LT {
        Some(BinaryOperator::OpLt)
    } else if kind == TK_NE {
        Some(BinaryOperator::OpNe)
    } else if kind == TK_AND {
        Some(BinaryOperator::OpAnd)
    } else if kind == TK_OR {
        Some(BinaryOperator::OpOr)
    } else {
        None
    }
}

/// The binary operator a token kind writes, if any.
pub fn binary_op_of(kind: u16) -> (r: Option<BinaryOperator>)
    ensures
        r == spec_binary_op_of(kind),
{
    if kind == TK_PLUS {
        Some(BinaryOperator::OpAdd)
    } else if kind == TK_MINUS {
        Some(BinaryOperator::OpSub)
    } else if kind == TK_MUL {
        Some(BinaryOperator::OpMul)
    } else if kind == TK_DIV {
        Some(BinaryOperator::OpDiv)
    } else if kind == TK_I_DIV {
        Some(BinaryOperator::OpIDiv)
    } else if kind == TK_MOD {
        Some(BinaryOperator::OpMod)
    } else if kind == TK_POW {
        Some(BinaryOperator::OpPow)
    } else if kind == TK_CONCAT {
        Some(BinaryOperator::OpConcat)
    } else if kind == TK_BIT_AND {
        Some(BinaryOperator::OpBAnd)
    } else if kind == TK_BIT_OR {
        Some(BinaryOperator::OpBOr)
    } else if kind == TK_BIT_XOR {
        Some(BinaryOperator::OpBXor)
    } else if kind == TK_SHL {
        Some(BinaryOperator::OpShl)
    } else if kind == TK_SHR {
        Some(BinaryOperator::OpShr)
    } else if kind == TK_EQ {
        Some(BinaryOperator::OpEq)
    } else if kind == TK_GE {
        Some(BinaryOperator::OpGe)
    } else if kind == TK_GT {
        Some(BinaryOperator::OpGt)
    } else if kind == TK_LE {
        Some(BinaryOperator::OpLe)
    } else if kind == TK_LT {
        Some(BinaryOperator::OpLt)
    } else if kind == TK_NE {
        Some(BinaryOperator::OpNe)
    } else if kind == TK_AND {
        Some(BinaryOperator::OpAnd)
    } else if kind == TK_OR {
        Some(BinaryOperator::OpOr)
    } else {
        None
    }
}

/// The number of spaces a rule stands for.
pub open spec fn rule_spaces(rule: SpaceRule) -> usize {
    match rule {
        SpaceRule::Space => 1,
        SpaceRule::NoSpace => 0,
    }
}

/// One when the option is set.
pub open spec fn flag(b: bool) -> usize {
    if b {
        1
    } else {
        0
    }
}

// ----- the tree around a token -----

/// The kind of the node that holds element `i`.
pub open spec fn spec_parent_kind(tree: &SyntaxTree, i: int) -> u16 {
    match tree.elems@[i].parent {
        Some(p) => if p < tree.elems.len() {
            tree.elems@[p as int].kind
        } else {
            TK_NONE
        },
        None => TK_NONE,
    }
}

/// The kind of the node that holds element `i`.
pub fn parent_kind(tree: &SyntaxTree, i: usize) -> (r: u16)
    requires
        tree.wf(),
        i < tree.elems.len(),
    ensures
        r == spec_parent_kind(tree, i as int),
{
    match tree.elems[i].parent {
        Some(p) => if p < tree.elems.len() {
            tree.elems[p].kind
        } else {
            TK_NONE
        },
        None => TK_NONE,
    }
}

/// Whitespace and line breaks.
pub open spec fn is_blank_kind(kind: u16) -> bool {
    kind == TK_WHITESPACE || kind == TK_END_OF_LINE
}

/// The last token at or before token position `j` that is not blank.
pub open spec fn spec_solid_token_at_or_before(tree: &SyntaxTree, j: int) -> Option<usize>
    decreases j + 1,
{
    if j < 0 || j >= tree.tokens.len() {
        None
    } else if is_blank_kind(tree.elems@[tree.tokens@[j] as int].kind) {
        spec_solid_token_at_or_before(tree, j - 1)
    } else {
        Some(tree.tokens@[j])
    }
}

/// The last token before token element `t` that is not blank.
pub open spec fn spec_prev_solid_token(tree: &SyntaxTree, t: int) -> Option<usize> {
    spec_solid_token_at_or_before(tree, tree.elems@[t].token_index - 1)
}

/// The last token before token element `t` that is not blank.
pub fn prev_solid_token(tree: &SyntaxTree, t: usize) -> (r: Option<usize>)
    requires
        tree.wf(),
        t < tree.elems.len(),
        !tree.elems@[t as int].is_node,
    ensures
        r == spec_prev_solid_token(tree, t as int),
        r matches Some(p) ==> p < tree.elems.len(),
{
    let ti = tree.elems[t].token_index;
    let mut j = ti;
    while j > 0
        invariant
            j <= ti,
            ti == tree.elems@[t as int].token_index,
            tree.wf(),
            ti < tree.tokens.len(),
            spec_solid_token_at_or_before(tree, j - 1) == spec_prev_solid_token(tree, t as int),
        decreases j,
    {
        let p = tree.tokens[j - 1];
        let k = tree.elems[p].kind;
        if !(k == TK_WHITESPACE || k == TK_END_OF_LINE) {
            return Some(p);
        }
        j = j - 1;
    }
    None
}

/// The kind of the token before `t` that is not blank, or `TK_NONE`.
pub open spec fn spec_prev_solid_kind(tree: &SyntaxTree, t: int) -> u16 {
    match spec_prev_solid_token(tree, t) {
        Some(p) => if p < tree.elems.len() {
            tree.elems@[p as int].kind
        } else {
            TK_NONE
        },
        None => TK_NONE,
    }
}

// ----- comment prefixes -----

/// The normalized start of an ordinary comment with this prefix: two dashes follow the comment
/// option, three dashes the description option; other prefixes are kept.
pub open spec fn spec_normalized_comment_prefix(config: LuaFormatConfig, prefix: Seq<char>) -> Option<Seq<char>> {
    if leading_dashes(prefix) == 2 {
        Some(if config.comments.space_after_comment_dash { seq!['-', '-', ' '] } else { seq!['-', '-'] })
    } else if leading_dashes(prefix) == 3 {
        Some(if config.emmy_doc.space_after_description_dash { seq!['-', '-', '-', ' '] } else { seq!['-', '-', '-'] })
    } else {
        None
    }
}

/// The normalized start of an ordinary comment with this prefix.
pub fn normalized_comment_prefix(ctx: &FormatContext, prefix_text: &str) -> (r: Option<Vec<char>>)
    ensures
        match (r, spec_normalized_comment_prefix(*ctx.config, prefix_text@)) {
            (Some(v), Some(s)) => v@ == s,
            (None, None) => true,
            _ => false,
        },
{
    let n = dash_prefix_len(prefix_text);
    if n == 2 {
        if ctx.config.comments.space_after_comment_dash {
            Some(vec!['-', '-', ' '])
        } else {
            Some(vec!['-', '-'])
        }
    } else if n == 3 {
        if ctx.config.emmy_doc.space_after_description_dash {
            Some(vec!['-', '-', '-', ' '])
        } else {
            Some(vec!['-', '-', '-'])
        }
    } else {
        None
    }
}

/// The start of a documentation tag: `---@`, or `--- @` when tag columns are spaced.
pub open spec fn spec_normalized_doc_tag_prefix(config: LuaFormatConfig) -> Seq<char> {
    if config.emmy_doc.space_between_tag_columns {
        seq!['-', '-', '-', ' ', '@']
    } else {
        seq!['-', '-', '-', '@']
    }
}

/// The start of a documentation tag.
pub fn normalized_doc_tag_prefix(ctx: &FormatContext) -> (r: Vec<char>)
    ensures
        r@ == spec_normalized_doc_tag_prefix(*ctx.config),
{
    if ctx.config.emmy_doc.space_between_tag_columns {
        vec!['-', '-', '-', ' ', '@']
    } else {
        vec!['-', '-', '-', '@']
    }
}

/// The prefix of a description line that continues a documentation block: `---` and `--- `
/// follow the description option; any other prefix is kept.
pub open spec fn spec_normalized_doc_continue_prefix(config: LuaFormatConfig, prefix: Seq<char>) -> Seq<char> {
    if prefix == seq!['-', '-', '-'] || prefix == seq!['-', '-', '-', ' '] {
        if config.emmy_doc.space_after_description_dash {
            seq!['-', '-', '-', ' ']
        } else {
            seq!['-', '-', '-']
        }
    } else {
        prefix
    }
}

/// The prefix of a description line that continues a documentation block.
pub fn normalized_doc_continue_prefix(ctx: &FormatContext, prefix_text: &[char]) -> (r: Vec<char>)
    ensures
        r@ == spec_normalized_doc_continue_prefix(*ctx.config, prefix_text@),
{
    let is_plain = (prefix_text.len() == 3 || (prefix_text.len() == 4 && prefix_text[3] == ' '))
        && prefix_text[0] == '-' && prefix_text[1] == '-' && prefix_text[2] == '-';
    proof {
        if prefix_text@ == seq!['-', '-', '-'] || prefix_text@ == seq!['-', '-', '-', ' '] {
            assert(prefix_text@.len() == 3 || prefix_text@.len() == 4);
        }
        if is_plain {
            if prefix_text.len() == 3 {
                assert(prefix_text@ == seq!['-', '-', '-']);
            } else {
                assert(prefix_text@ == seq!['-', '-', '-', ' ']);
            }
        }
    }
    if is_plain {
        if ctx.config.emmy_doc.space_after_description_dash {
            vec!['-', '-', '-', ' ']
        } else {
            vec!['-', '-', '-']
        }
    } else {
        let mut r: Vec<char> = Vec::new();
        let mut k: usize = 0;
        while k < prefix_text.len()
            invariant
                k <= prefix_text.len(),
                r@ == prefix_text@.take(k as int),
            decreases prefix_text.len() - k,
        {
            r.push(prefix_text[k]);
            k = k + 1;
        }
        r
    }
}

/// The prefix of an alias variant line (`---|`, `---|+`, `---|>`): the marker after the dashes
/// is kept and the space before it follows the description option.
pub open spec fn spec_normalized_doc_continue_or_prefix(config: LuaFormatConfig, prefix: Seq<char>) -> Seq<char> {
    if prefix.len() < 3 || prefix.take(3) != seq!['-', '-', '-'] {
        prefix
    } else if config.emmy_doc.space_after_description_dash {
        seq!['-', '-', '-', ' '] + trim_start_chars(prefix.skip(3))
    } else {
        seq!['-', '-', '-'] + trim_start_chars(prefix.skip(3))
    }
}

/// The prefix of an alias variant line.
pub fn normalized_doc_continue_or_prefix(ctx: &FormatContext, prefix_text: &[char]) -> (r: Vec<char>)
    ensures
        r@ == spec_normalized_doc_continue_or_prefix(*ctx.config, prefix_text@),
{
    let starts = prefix_text.len() >= 3 && prefix_text[0] == '-' && prefix_text[1] == '-'
        && prefix_text[2] == '-';
    proof {
        if prefix_text@.len() >= 3 && prefix_text@.take(3) == seq!['-', '-', '-'] {
            assert(prefix_text@.take(3)[0] == prefix_text@[0]);
            assert(prefix_text@.take(3)[1] == prefix_text@[1]);
            assert(prefix_text@.take(3)[2] == prefix_text@[2]);
        }
        if starts {
            assert(prefix_text@.take(3) == seq!['-', '-', '-']);
        }
    }
    let mut r: Vec<char> = Vec::new();
    if !starts {
        let mut k: usize = 0;
        while k < prefix_text.len()
            invariant
                k <= prefix_text.len(),
                r@ == prefix_text@.take(k as int),
            decreases prefix_text.len() - k,
        {
            r.push(prefix_text[k]);
            k = k + 1;
        }
        return r;
    }
    r.push('-');
    r.push('-');
    r.push('-');
    if ctx.config.emmy_doc.space_after_description_dash {
        r.push(' ');
    }
    let ghost head = r@;
    let start = skip_spaces(prefix_text, 3);
    proof {
        lemma_skip_shift(prefix_text@, 3);
    }
    let mut k = start;
    while k < prefix_text.len()
        invariant
            start <= k <= prefix_text.len(),
            r@ == head + prefix_text@.subrange(start as int, k as int),
        decreases prefix_text.len() - k,
    {
        r.push(prefix_text[k]);
        k = k + 1;
    }
    assert(trim_start_chars(prefix_text@.skip(3)) == prefix_text@.subrange(start as int, prefix_text.len() as int));
    r
}

proof fn lemma_skip_shift(s: Seq<char>, n: int)
    requires
        0 <= n <= s.len(),
    ensures
        crate::text::skip_spaces_from(s.skip(n), 0) + n == crate::text::skip_spaces_from(s, n),
{
    lemma_skip_shift_from(s, n, 0);
}

proof fn lemma_skip_shift_from(s: Seq<char>, n: int, i: int)
    requires
        0 <= n <= s.len(),
        0 <= i <= s.len() - n,
    ensures
        crate::text::skip_spaces_from(s.skip(n), i) + n == crate::text::skip_spaces_from(s, n + i),
    decreases s.len() - n - i,
{
    if i < s.len() - n {
        assert(s.skip(n)[i] == s[n + i]);
        lemma_skip_shift_from(s, n, i + 1);
    }
}


// ----- the rules for one token -----

/// Keywords that want one space on each side.
pub open spec fn is_spaced_keyword(kind: u16) -> bool {
    kind == TK_LOCAL || kind == TK_FUNCTION || kind == TK_IF || kind == TK_WHILE || kind == TK_FOR
        || kind == TK_REPEAT || kind == TK_RETURN || kind == TK_DO || kind == TK_ELSE_IF || kind
        == TK_ELSE || kind == TK_THEN || kind == TK_UNTIL || kind == TK_IN || kind == TK_NOT
}

/// Operators whose spacing `apply_operator_spacing` decides.
pub open spec fn is_operator_kind(kind: u16) -> bool {
    kind == TK_MUL || kind == TK_DIV || kind == TK_I_DIV || kind == TK_MOD || kind == TK_POW || kind
        == TK_CONCAT || kind == TK_BIT_AND || kind == TK_BIT_OR || kind == TK_BIT_XOR || kind
        == TK_SHL || kind == TK_SHR || kind == TK_EQ || kind == TK_GE || kind == TK_GT || kind
        == TK_LE || kind == TK_LT || kind == TK_NE || kind == TK_AND || kind == TK_OR
}

/// `<` or `>` that delimits generic parameters in a type.
pub open spec fn is_generic_angle(kind: u16, parent: u16) -> bool {
    (kind == TK_LT || kind == TK_GT) && (parent == SK_DOC_GENERIC_DECLARE_LIST || parent
        == SK_TYPE_GENERIC)
}

/// The spaces an operator wants: (left, right).
pub open spec fn spec_operator_spacing(config: LuaFormatConfig, kind: u16, parent: u16) -> (Option<usize>, Option<usize>) {
    if kind == TK_LT && is_generic_angle(kind, parent) {
        (Some(0), Some(0))
    } else if kind == TK_GT && is_generic_angle(kind, parent) {
        (Some(0), None)
    } else if (kind == TK_LT || kind == TK_GT) && parent == SK_ATTRIBUTE {
        if kind == TK_LT {
            (Some(1), Some(0))
        } else {
            (Some(0), Some(1))
        }
    } else if (kind == TK_LT || kind == TK_GT) && parent == SK_DOC_VERSION {
        (None, Some(0))
    } else {
        match spec_binary_op_of(kind) {
            Some(op) => {
                let n = rule_spaces(spec_space_around_binary_op(op, config));
                (Some(n), Some(n))
            },
            None => (None, None),
        }
    }
}

/// The spaces before `(`: the function and call options decide inside parameter and argument
/// lists; elsewhere the token before it does.
pub open spec fn spec_left_paren_space(config: LuaFormatConfig, parent: u16, prev: u16) -> usize {
    if parent == SK_PARAM_LIST {
        flag(config.spacing.space_before_func_paren)
    } else if parent == SK_CALL_ARG_LIST {
        flag(config.spacing.space_before_call_paren)
    } else if prev == TK_STRING || prev == TK_RIGHT_BRACE || prev == TK_LONG_STRING {
        1
    } else {
        0
    }
}

/// The spaces before `[`, decided by the token before it.
pub open spec fn spec_left_bracket_space(prev: u16) -> usize {
    if prev == TK_COMMA || prev == TK_SEMICOLON || prev == TK_STRING || prev == TK_RIGHT_BRACE
        || prev == TK_LONG_STRING {
        1
    } else {
        0
    }
}

/// The spaces inside the parentheses of a parenthesized expression.
pub open spec fn spec_paren_inner(config: LuaFormatConfig, parent: u16) -> usize {
    if parent == SK_PAREN_EXPR {
        flag(config.spacing.space_inside_parens)
    } else {
        0
    }
}

/// The spaces a token wants on its left, by its kind, its parent's kind and the kind of the
/// token before it.
pub open spec fn spec_left_rule(config: LuaFormatConfig, kind: u16, parent: u16, prev: u16) -> Option<usize> {
    if kind == TK_LEFT_PAREN {
        Some(spec_left_paren_space(config, parent, prev))
    } else if kind == TK_RIGHT_PAREN {
        Some(spec_paren_inner(config, parent))
    } else if kind == TK_LEFT_BRACKET {
        Some(spec_left_bracket_space(prev))
    } else if kind == TK_RIGHT_BRACKET {
        Some(flag(config.spacing.space_inside_brackets))
    } else if kind == TK_RIGHT_BRACE {
        Some(flag(config.spacing.space_inside_braces))
    } else if kind == TK_COMMA || kind == TK_SEMICOLON || kind == TK_COLON || kind == TK_DOT {
        Some(0)
    } else if kind == TK_PLUS || kind == TK_MINUS {
        if parent == SK_UNARY_EXPR {
            None
        } else {
            Some(rule_spaces(spec_space_around_binary_op(spec_binary_op_of(kind).unwrap(), config)))
        }
    } else if is_operator_kind(kind) {
        spec_operator_spacing(config, kind, parent).0
    } else if kind == TK_DOC_OR {
        Some(0)
    } else if kind == TK_DOC_AND || kind == TK_DOC_EXTENDS || kind == TK_DOC_IN {
        Some(1)
    } else if kind == TK_ASSIGN {
        Some(flag(config.spacing.space_around_assign_operator))
    } else if is_spaced_keyword(kind) {
        Some(1)
    } else if kind == TK_DOC_QUESTION {
        Some(0)
    } else {
        None
    }
}

/// The spaces a token wants on its right. `has_replacement` says whether the token is an
/// ordinary comment start that gets a normalized prefix.
pub open spec fn spec_right_rule(config: LuaFormatConfig, kind: u16, parent: u16, has_replacement: bool) -> Option<usize> {
    if kind == TK_NORMAL_START {
        if has_replacement {
            Some(0)
        } else {
            None
        }
    } else if kind == TK_DOC_START || kind == TK_DOC_CONTINUE || kind == TK_DOC_CONTINUE_OR {
        Some(0)
    } else if kind == TK_LEFT_PAREN {
        Some(spec_paren_inner(config, parent))
    } else if kind == TK_LEFT_BRACKET {
        Some(flag(config.spacing.space_inside_brackets))
    } else if kind == TK_LEFT_BRACE {
        Some(flag(config.spacing.space_inside_braces))
    } else if kind == TK_COMMA || kind == TK_SEMICOLON {
        Some(1)
    } else if kind == TK_COLON {
        if parent == SK_INDEX_EXPR {
            Some(0)
        } else {
            Some(1)
        }
    } else if kind == TK_DOT {
        Some(0)
    } else if kind == TK_PLUS || kind == TK_MINUS {
        if parent == SK_UNARY_EXPR {
            Some(0)
        } else {
            Some(rule_spaces(spec_space_around_binary_op(spec_binary_op_of(kind).unwrap(), config)))
        }
    } else if is_operator_kind(kind) {
        spec_operator_spacing(config, kind, parent).1
    } else if kind == TK_DOC_OR {
        Some(0)
    } else if kind == TK_DOC_AND || kind == TK_DOC_EXTENDS || kind == TK_DOC_IN {
        Some(1)
    } else if kind == TK_ASSIGN {
        Some(flag(config.spacing.space_around_assign_operator))
    } else if is_spaced_keyword(kind) {
        Some(1)
    } else if kind == TK_DOC_QUESTION {
        Some(1)
    } else {
        None
    }
}

/// The text that replaces a token: normalized comment and documentation prefixes.
pub open spec fn spec_replace_rule(config: LuaFormatConfig, kind: u16, text: Seq<char>) -> Option<Seq<char>> {
    if kind == TK_NORMAL_START {
        spec_normalized_comment_prefix(config, text)
    } else if kind == TK_DOC_START {
        Some(spec_normalized_doc_tag_prefix(config))
    } else if kind == TK_DOC_CONTINUE {
        Some(spec_normalized_doc_continue_prefix(config, text))
    } else if kind == TK_DOC_CONTINUE_OR {
        Some(spec_normalized_doc_continue_or_prefix(config, text))
    } else {
        None
    }
}

/// Tokens that get no spacing decision: blanks and the shebang line.
pub open spec fn should_skip_kind(kind: u16) -> bool {
    kind == TK_WHITESPACE || kind == TK_END_OF_LINE || kind == TK_SHEBANG
}

/// The left spacing of token element `t`.
#[verifier::opaque]
pub open spec fn token_left(config: LuaFormatConfig, tree: &SyntaxTree, t: int) -> Option<usize> {
    spec_left_rule(config, tree.elems@[t].kind, spec_parent_kind(tree, t), spec_prev_solid_kind(tree, t))
}

/// The replacement text of token element `t`.
#[verifier::opaque]
pub open spec fn token_replace(config: LuaFormatConfig, tree: &SyntaxTree, t: int) -> Option<Seq<char>> {
    spec_replace_rule(config, tree.elems@[t].kind, tree.spec_text(t))
}

/// The right spacing of token element `t`.
#[verifier::opaque]
pub open spec fn token_right(config: LuaFormatConfig, tree: &SyntaxTree, t: int) -> Option<usize> {
    spec_right_rule(config, tree.elems@[t].kind, spec_parent_kind(tree, t), token_replace(config, tree, t) is Some)
}

/// The spacing decisions for one token: left and right spaces and replacement text.
pub fn token_spacing(ctx: &FormatContext, tree: &SyntaxTree, t: usize) -> (r: (Option<usize>, Option<usize>, Option<Vec<char>>))
    requires
        tree.wf(),
        t < tree.elems.len(),
        !tree.elems@[t as int].is_node,
    ensures
        r.0 == token_left(*ctx.config, tree, t as int),
        r.1 == token_right(*ctx.config, tree, t as int),
        match (r.2, token_replace(*ctx.config, tree, t as int)) {
            (Some(v), Some(s)) => v@ == s,
            (None, None) => true,
            _ => false,
        },
{
    reveal(token_left);
    reveal(token_right);
    reveal(token_replace);
    let config = ctx.config;
    let kind = tree.elems[t].kind;
    let parent = parent_kind(tree, t);
    let prev = match prev_solid_token(tree, t) {
        Some(p) => tree.elems[p].kind,
        None => TK_NONE,
    };
    let text = tree.text_of(t);
    let replace: Option<Vec<char>> = if kind == TK_NORMAL_START {
        let s = string_from_chars(text.as_slice());
        normalized_comment_prefix(ctx, s.as_str())
    } else if kind == TK_DOC_START {
        Some(normalized_doc_tag_prefix(ctx))
    } else if kind == TK_DOC_CONTINUE {
        Some(normalized_doc_continue_prefix(ctx, text.as_slice()))
    } else if kind == TK_DOC_CONTINUE_OR {
        Some(normalized_doc_continue_or_prefix(ctx, text.as_slice()))
    } else {
        None
    };
    let math = if config.spacing.space_around_math_operator { 1usize } else { 0usize };
    let braces = if config.spacing.space_inside_braces { 1usize } else { 0usize };
    let brackets = if config.spacing.space_inside_brackets { 1usize } else { 0usize };
    let paren_inner = if parent == SK_PAREN_EXPR && config.spacing.space_inside_parens { 1usize } else { 0usize };
    let assign: usize = match space_around_assign(config) {
        SpaceRule::Space => 1,
        SpaceRule::NoSpace => 0,
    };
    let (left, right): (Option<usize>, Option<usize>) = if kind == TK_NORMAL_START {
        (None, if replace.is_some() { Some(0) } else { None })
    } else if kind == TK_DOC_START || kind == TK_DOC_CONTINUE || kind == TK_DOC_CONTINUE_OR {
        (None, Some(0))
    } else if kind == TK_LEFT_PAREN {
        let l = if parent == SK_PARAM_LIST {
            if config.spacing.space_before_func_paren { 1usize } else { 0usize }
        } else if parent == SK_CALL_ARG_LIST {
            if config.spacing.space_before_call_paren { 1usize } else { 0usize }
        } else if prev == TK_STRING || prev == TK_RIGHT_BRACE || prev == TK_LONG_STRING {
            1
        } else {
            0
        };
        (Some(l), Some(paren_inner))
    } else if kind == TK_RIGHT_PAREN {
        (Some(paren_inner), None)
    } else if kind == TK_LEFT_BRACKET {
        let l = if prev == TK_COMMA || prev == TK_SEMICOLON || prev == TK_STRING || prev
            == TK_RIGHT_BRACE || prev == TK_LONG_STRING {
            1usize
        } else {
            0usize
        };
        (Some(l), Some(brackets))
    } else if kind == TK_RIGHT_BRACKET {
        (Some(brackets), None)
    } else if kind == TK_LEFT_BRACE {
        (None, Some(braces))
    } else if kind == TK_RIGHT_BRACE {
        (Some(braces), None)
    } else if kind == TK_COMMA || kind == TK_SEMICOLON {
        (Some(0), Some(1))
    } else if kind == TK_COLON {
        (Some(0), Some(if parent == SK_INDEX_EXPR { 0usize } else { 1usize }))
    } else if kind == TK_DOT {
        (Some(0), Some(0))
    } else if kind == TK_PLUS || kind == TK_MINUS {
        if parent == SK_UNARY_EXPR {
            (None, Some(0))
        } else {
            (Some(math), Some(math))
        }
    } else if kind == TK_MUL || kind == TK_DIV || kind == TK_I_DIV || kind == TK_MOD || kind
        == TK_POW || kind == TK_CONCAT || kind == TK_BIT_AND || kind == TK_BIT_OR || kind
        == TK_BIT_XOR || kind == TK_SHL || kind == TK_SHR || kind == TK_EQ || kind == TK_GE
        || kind == TK_GT || kind == TK_LE || kind == TK_LT || kind == TK_NE || kind == TK_AND
        || kind == TK_OR {
        let generic = (kind == TK_LT || kind == TK_GT) && (parent == SK_DOC_GENERIC_DECLARE_LIST
            || parent == SK_TYPE_GENERIC);
        if kind == TK_LT && generic {
            (Some(0), Some(0))
        } else if kind == TK_GT && generic {
            (Some(0), None)
        } else if (kind == TK_LT || kind == TK_GT) && parent == SK_ATTRIBUTE {
            if kind == TK_LT {
                (Some(1), Some(0))
            } else {
                (Some(0), Some(1))
            }
        } else if (kind == TK_LT || kind == TK_GT) && parent == SK_DOC_VERSION {
            (None, Some(0))
        } else {
            match binary_op_of(kind) {
                Some(op) => {
                    let n: usize = match space_around_binary_op(op, config) {
                        SpaceRule::Space => 1,
                        SpaceRule::NoSpace => 0,
                    };
                    (Some(n), Some(n))
                },
                None => (None, None),
            }
        }
    } else if kind == TK_DOC_OR {
        (Some(0), Some(0))
    } else if kind == TK_DOC_AND || kind == TK_DOC_EXTENDS || kind == TK_DOC_IN {
        (Some(1), Some(1))
    } else if kind == TK_ASSIGN {
        (Some(assign), Some(assign))
    } else if kind == TK_LOCAL || kind == TK_FUNCTION || kind == TK_IF || kind == TK_WHILE || kind
        == TK_FOR || kind == TK_REPEAT || kind == TK_RETURN || kind == TK_DO || kind == TK_ELSE_IF
        || kind == TK_ELSE || kind == TK_THEN || kind == TK_UNTIL || kind == TK_IN || kind
        == TK_NOT {
        (Some(1), Some(1))
    } else if kind == TK_DOC_QUESTION {
        (Some(0), Some(1))
    } else {
        (None, None)
    };
    (left, right, replace)
}

/// Records the spacing decisions of one token.
pub fn analyze_token_spacing(ctx: &FormatContext, spacing: &mut RootSpacingModel, tree: &SyntaxTree, t: usize)
    requires
        tree.wf(),
        t < tree.elems.len(),
        !tree.elems@[t as int].is_node,
        old(spacing).wf(),
    ensures
        final(spacing).wf(),
        final(spacing).shebang() == old(spacing).shebang(),
        final(spacing).left_map() == (match token_left(*ctx.config, tree, t as int) {
            Some(n) => old(spacing).left_map().insert(tree.spec_id(t as int), TokenSpacingExpected::Space(n)),
            None => old(spacing).left_map(),
        }),
        final(spacing).right_map() == (match token_right(*ctx.config, tree, t as int) {
            Some(n) => old(spacing).right_map().insert(tree.spec_id(t as int), TokenSpacingExpected::Space(n)),
            None => old(spacing).right_map(),
        }),
        forall|k: crate::syntax::LuaSyntaxId| k != tree.spec_id(t as int) ==> (#[trigger] final(spacing).replace_map().contains_key(k)
            <==> old(spacing).replace_map().contains_key(k)) && (old(spacing).replace_map().contains_key(k) ==> final(spacing).replace_map()[k] == old(spacing).replace_map()[k]),
        match token_replace(*ctx.config, tree, t as int) {
            Some(s) => final(spacing).replace_map().contains_key(tree.spec_id(t as int)) && final(spacing).replace_map()[tree.spec_id(t as int)]@ == s,
            None => final(spacing).replace_map() == old(spacing).replace_map(),
        },
{
    let id = tree.id(t);
    let (left, right, replace) = token_spacing(ctx, tree, t);
    match replace {
        Some(v) => {
            let s = string_from_chars(v.as_slice());
            spacing.add_token_replace(id, s);
        },
        None => {},
    }
    match left {
        Some(n) => spacing.add_token_left_expected(id, TokenSpacingExpected::Space(n)),
        None => {},
    }
    match right {
        Some(n) => spacing.add_token_right_expected(id, TokenSpacingExpected::Space(n)),
        None => {},
    }
}


/// A spacing decision as the model stores it.
pub open spec fn as_expected(o: Option<usize>) -> Option<TokenSpacingExpected> {
    match o {
        Some(v) => Some(TokenSpacingExpected::Space(v)),
        None => None,
    }
}

/// No two tokens of the tree share an identifier.
pub open spec fn token_ids_distinct(tree: &SyntaxTree) -> bool {
    forall|a: int, b: int|
        0 <= a < b < tree.tokens.len() ==> tree.spec_id(#[trigger] tree.tokens@[a] as int)
            != tree.spec_id(#[trigger] tree.tokens@[b] as int)
}

/// Token position `j` gets spacing decisions.
pub open spec fn is_spaced_token(tree: &SyntaxTree, j: int) -> bool {
    !should_skip_kind(tree.elems@[tree.tokens@[j] as int].kind)
}

/// What the spacing model holds after the tokens before position `n` were analyzed: each
/// decision comes from such a token, and with distinct identifiers every such token's
/// decisions are there.
pub open spec fn spacing_covers(config: LuaFormatConfig, tree: &SyntaxTree, m: &RootSpacingModel, n: int) -> bool {
    &&& forall|k: crate::syntax::LuaSyntaxId| #[trigger] m.left_map().contains_key(k) ==> exists|j: int|
        0 <= j < n && is_spaced_token(tree, j) && tree.spec_id(tree.tokens@[j] as int) == k
            && as_expected(token_left(config, tree, tree.tokens@[j] as int)) == Some(m.left_map()[k])
    &&& forall|k: crate::syntax::LuaSyntaxId| #[trigger] m.right_map().contains_key(k) ==> exists|j: int|
        0 <= j < n && is_spaced_token(tree, j) && tree.spec_id(tree.tokens@[j] as int) == k
            && as_expected(token_right(config, tree, tree.tokens@[j] as int)) == Some(m.right_map()[k])
    &&& forall|k: crate::syntax::LuaSyntaxId| #[trigger] m.replace_map().contains_key(k) ==> exists|j: int|
        0 <= j < n && is_spaced_token(tree, j) && tree.spec_id(tree.tokens@[j] as int) == k
            && token_replace(config, tree, tree.tokens@[j] as int) == Some(m.replace_map()[k]@)
    &&& token_ids_distinct(tree) ==> forall|j: int| 0 <= j < n && is_spaced_token(tree, j) ==> {
        let t = #[trigger] tree.tokens@[j] as int;
        &&& (token_left(config, tree, t) is Some ==> m.left_map().contains_key(tree.spec_id(t)) && as_expected(token_left(config, tree, t)) == Some(m.left_map()[tree.spec_id(t)]))
        &&& (token_right(config, tree, t) is Some ==> m.right_map().contains_key(tree.spec_id(t)) && as_expected(token_right(config, tree, t)) == Some(m.right_map()[tree.spec_id(t)]))
        &&& (token_replace(config, tree, t) is Some ==> m.replace_map().contains_key(tree.spec_id(t)) && token_replace(config, tree, t) == Some(m.replace_map()[tree.spec_id(t)]@))
    }
}

/// Analyzes the spacing of every token of the chunk, in source order.
pub fn analyze_chunk_token_spacing(ctx: &FormatContext, tree: &SyntaxTree, spacing: &mut RootSpacingModel)
    requires
        tree.wf(),
        old(spacing).wf(),
        old(spacing).left_map() == Map::<crate::syntax::LuaSyntaxId, TokenSpacingExpected>::empty(),
        old(spacing).right_map() == Map::<crate::syntax::LuaSyntaxId, TokenSpacingExpected>::empty(),
        old(spacing).replace_map() == Map::<crate::syntax::LuaSyntaxId, String>::empty(),
    ensures
        final(spacing).wf(),
        final(spacing).shebang() == old(spacing).shebang(),
        spacing_covers(*ctx.config, tree, final(spacing), tree.tokens.len() as int),
{
    let mut j: usize = 0;
    while j < tree.tokens.len()
        invariant
            tree.wf(),
            j <= tree.tokens.len(),
            spacing.wf(),
            spacing.shebang() == old(spacing).shebang(),
            spacing_covers(*ctx.config, tree, spacing, j as int),
        decreases tree.tokens.len() - j,
    {
        let t = tree.tokens[j];
        let kind = tree.elems[t].kind;
        let ghost before = *spacing;
        if !(kind == TK_WHITESPACE || kind == TK_END_OF_LINE || kind == TK_SHEBANG) {
            analyze_token_spacing(ctx, spacing, tree, t);
            proof {
                lemma_covers_step(*ctx.config, tree, &before, spacing, j as int);
            }
        } else {
            proof {
                lemma_covers_skip(*ctx.config, tree, spacing, j as int);
            }
        }
        j = j + 1;
    }
}

proof fn lemma_covers_skip(config: LuaFormatConfig, tree: &SyntaxTree, m: &RootSpacingModel, j: int)
    requires
        tree.wf(),
        0 <= j < tree.tokens.len(),
        !is_spaced_token(tree, j),
        spacing_covers(config, tree, m, j),
    ensures
        spacing_covers(config, tree, m, j + 1),
{
    assert forall|k: crate::syntax::LuaSyntaxId| #[trigger] m.left_map().contains_key(k) implies exists|i: int|
        0 <= i < j + 1 && is_spaced_token(tree, i) && tree.spec_id(tree.tokens@[i] as int) == k
            && as_expected(token_left(config, tree, tree.tokens@[i] as int)) == Some(m.left_map()[k]) by {
        let i = choose|i: int| 0 <= i < j && is_spaced_token(tree, i) && tree.spec_id(tree.tokens@[i] as int) == k
            && as_expected(token_left(config, tree, tree.tokens@[i] as int)) == Some(m.left_map()[k]);
    }
    assert forall|k: crate::syntax::LuaSyntaxId| #[trigger] m.right_map().contains_key(k) implies exists|i: int|
        0 <= i < j + 1 && is_spaced_token(tree, i) && tree.spec_id(tree.tokens@[i] as int) == k
            && as_expected(token_right(config, tree, tree.tokens@[i] as int)) == Some(m.right_map()[k]) by {
        let i = choose|i: int| 0 <= i < j && is_spaced_token(tree, i) && tree.spec_id(tree.tokens@[i] as int) == k
            && as_expected(token_right(config, tree, tree.tokens@[i] as int)) == Some(m.right_map()[k]);
    }
    assert forall|k: crate::syntax::LuaSyntaxId| #[trigger] m.replace_map().contains_key(k) implies exists|i: int|
        0 <= i < j + 1 && is_spaced_token(tree, i) && tree.spec_id(tree.tokens@[i] as int) == k
            && token_replace(config, tree, tree.tokens@[i] as int) == Some(m.replace_map()[k]@) by {
        let i = choose|i: int| 0 <= i < j && is_spaced_token(tree, i) && tree.spec_id(tree.tokens@[i] as int) == k
            && token_replace(config, tree, tree.tokens@[i] as int) == Some(m.replace_map()[k]@);
    }
}

proof fn lemma_covers_step(config: LuaFormatConfig, tree: &SyntaxTree, before: &RootSpacingModel, after: &RootSpacingModel, j: int)
    requires
        tree.wf(),
        0 <= j < tree.tokens.len(),
        is_spaced_token(tree, j),
        spacing_covers(config, tree, before, j),
        after.left_map() == (match token_left(config, tree, tree.tokens@[j] as int) {
            Some(n) => before.left_map().insert(tree.spec_id(tree.tokens@[j] as int), TokenSpacingExpected::Space(n)),
            None => before.left_map(),
        }),
        after.right_map() == (match token_right(config, tree, tree.tokens@[j] as int) {
            Some(n) => before.right_map().insert(tree.spec_id(tree.tokens@[j] as int), TokenSpacingExpected::Space(n)),
            None => before.right_map(),
        }),
        forall|k: crate::syntax::LuaSyntaxId| k != tree.spec_id(tree.tokens@[j] as int) ==> (#[trigger] after.replace_map().contains_key(k)
            <==> before.replace_map().contains_key(k)) && (before.replace_map().contains_key(k) ==> after.replace_map()[k] == before.replace_map()[k]),
        match token_replace(config, tree, tree.tokens@[j] as int) {
            Some(s) => after.replace_map().contains_key(tree.spec_id(tree.tokens@[j] as int)) && after.replace_map()[tree.spec_id(tree.tokens@[j] as int)]@ == s,
            None => after.replace_map() == before.replace_map(),
        },
    ensures
        spacing_covers(config, tree, after, j + 1),
{
    let t = tree.tokens@[j] as int;
    let id = tree.spec_id(t);
    assert forall|k: crate::syntax::LuaSyntaxId| #[trigger] after.left_map().contains_key(k) implies exists|i: int|
        0 <= i < j + 1 && is_spaced_token(tree, i) && tree.spec_id(tree.tokens@[i] as int) == k
            && as_expected(token_left(config, tree, tree.tokens@[i] as int)) == Some(after.left_map()[k]) by {
        if k == id && token_left(config, tree, t) is Some {
            assert(tree.spec_id(tree.tokens@[j] as int) == k);
        } else {
            assert(before.left_map().contains_key(k));
            let i = choose|i: int| 0 <= i < j && is_spaced_token(tree, i) && tree.spec_id(tree.tokens@[i] as int) == k
                && as_expected(token_left(config, tree, tree.tokens@[i] as int)) == Some(before.left_map()[k]);
        }
    }
    assert forall|k: crate::syntax::LuaSyntaxId| #[trigger] after.right_map().contains_key(k) implies exists|i: int|
        0 <= i < j + 1 && is_spaced_token(tree, i) && tree.spec_id(tree.tokens@[i] as int) == k
            && as_expected(token_right(config, tree, tree.tokens@[i] as int)) == Some(after.right_map()[k]) by {
        if k == id && token_right(config, tree, t) is Some {
            assert(tree.spec_id(tree.tokens@[j] as int) == k);
        } else {
            assert(before.right_map().contains_key(k));
            let i = choose|i: int| 0 <= i < j && is_spaced_token(tree, i) && tree.spec_id(tree.tokens@[i] as int) == k
                && as_expected(token_right(config, tree, tree.tokens@[i] as int)) == Some(before.right_map()[k]);
        }
    }
    assert forall|k: crate::syntax::LuaSyntaxId| #[trigger] after.replace_map().contains_key(k) implies exists|i: int|
        0 <= i < j + 1 && is_spaced_token(tree, i) && tree.spec_id(tree.tokens@[i] as int) == k
            && token_replace(config, tree, tree.tokens@[i] as int) == Some(after.replace_map()[k]@) by {
        if k == id && token_replace(config, tree, t) is Some {
            assert(tree.spec_id(tree.tokens@[j] as int) == k);
        } else {
            assert(before.replace_map().contains_key(k));
            let i = choose|i: int| 0 <= i < j && is_spaced_token(tree, i) && tree.spec_id(tree.tokens@[i] as int) == k
                && token_replace(config, tree, tree.tokens@[i] as int) == Some(before.replace_map()[k]@);
        }
    }
    if token_ids_distinct(tree) {
        assert forall|i: int| 0 <= i < j + 1 && is_spaced_token(tree, i) implies {
            let u = #[trigger] tree.tokens@[i] as int;
            &&& (token_left(config, tree, u) is Some ==> after.left_map().contains_key(tree.spec_id(u)) && as_expected(token_left(config, tree, u)) == Some(after.left_map()[tree.spec_id(u)]))
            &&& (token_right(config, tree, u) is Some ==> after.right_map().contains_key(tree.spec_id(u)) && as_expected(token_right(config, tree, u)) == Some(after.right_map()[tree.spec_id(u)]))
            &&& (token_replace(config, tree, u) is Some ==> after.replace_map().contains_key(tree.spec_id(u)) && token_replace(config, tree, u) == Some(after.replace_map()[tree.spec_id(u)]@))
        } by {
            if i < j {
                assert(tree.spec_id(tree.tokens@[i] as int) != id);
                let u = tree.tokens@[i] as int;
                assert(token_left(config, tree, u) is Some ==> before.left_map().contains_key(tree.spec_id(u)) && as_expected(token_left(config, tree, u)) == Some(before.left_map()[tree.spec_id(u)]));
                assert(token_right(config, tree, u) is Some ==> before.right_map().contains_key(tree.spec_id(u)) && as_expected(token_right(config, tree, u)) == Some(before.right_map()[tree.spec_id(u)]));
                assert(token_replace(config, tree, u) is Some ==> before.replace_map().contains_key(tree.spec_id(u)) && token_replace(config, tree, u) == Some(before.replace_map()[tree.spec_id(u)]@));
                assert(token_left(config, tree, u) is Some ==> after.left_map().contains_key(tree.spec_id(u)) && as_expected(token_left(config, tree, u)) == Some(after.left_map()[tree.spec_id(u)]));
                assert(token_right(config, tree, u) is Some ==> after.right_map().contains_key(tree.spec_id(u)) && as_expected(token_right(config, tree, u)) == Some(after.right_map()[tree.spec_id(u)]));
                if token_replace(config, tree, u) is Some {
                    assert(before.replace_map().contains_key(tree.spec_id(u)));
                    assert(after.replace_map().contains_key(tree.spec_id(u)));
                    assert(after.replace_map()[tree.spec_id(u)] == before.replace_map()[tree.spec_id(u)]);
                }
            } else {
                assert(i == j);
                if token_left(config, tree, t) is Some {
                    assert(after.left_map()[id] == TokenSpacingExpected::Space(token_left(config, tree, t).unwrap()));
                }
                if token_right(config, tree, t) is Some {
                    assert(after.right_map()[id] == TokenSpacingExpected::Space(token_right(config, tree, t).unwrap()));
                }
            }
        }
    }
}

/// The plan of a whole chunk after spacing analysis: every token's spacing decided, the layout
/// still empty.
pub fn analyze_root_spacing(ctx: &FormatContext, tree: &SyntaxTree) -> (r: RootFormatPlan)
    requires
        tree.wf(),
    ensures
        r.wf(),
        r.spacing.shebang() == (tree.tokens.len() > 0 && tree.elems@[tree.tokens@[0] as int].kind == TK_SHEBANG),
        spacing_covers(*ctx.config, tree, &r.spacing, tree.tokens.len() as int),
        r.layout.format_block_with_legacy,
        r.layout.is_empty(),
        r.line_breaks.insert_final_newline == ctx.config.output.insert_final_newline,
{
    let mut plan = RootFormatPlan::from_config(ctx.config);
    plan.spacing.set_has_shebang(tree.tokens.len() > 0 && tree.elems[tree.tokens[0]].kind == TK_SHEBANG);
    analyze_chunk_token_spacing(ctx, tree, &mut plan.spacing);
    plan
}


/// A binary operator gets the same spaces on its two sides, as the option for its kind of
/// operator says; only generic angles, attribute and version brackets, and unary signs differ.
pub proof fn law_binary_operators_are_spaced_evenly(
    config: LuaFormatConfig,
    kind: u16,
    parent: u16,
    prev: u16,
    has_replacement: bool,
)
    requires
        spec_binary_op_of(kind) is Some,
        parent != SK_UNARY_EXPR,
        !is_generic_angle(kind, parent),
        parent != SK_ATTRIBUTE,
        parent != SK_DOC_VERSION,
    ensures
        spec_left_rule(config, kind, parent, prev) == spec_right_rule(
            config,
            kind,
            parent,
            has_replacement,
        ),
        spec_left_rule(config, kind, parent, prev) == Some(
            rule_spaces(spec_space_around_binary_op(spec_binary_op_of(kind).unwrap(), config)),
        ),
{
}

/// `=` gets the same spaces on its two sides: one, or none when the option turns them off.
pub proof fn law_assignment_is_spaced_evenly(
    config: LuaFormatConfig,
    parent: u16,
    prev: u16,
    has_replacement: bool,
)
    ensures
        spec_left_rule(config, TK_ASSIGN, parent, prev) == spec_right_rule(
            config,
            TK_ASSIGN,
            parent,
            has_replacement,
        ),
        spec_left_rule(config, TK_ASSIGN, parent, prev) == Some(
            flag(config.spacing.space_around_assign_operator),
        ),
{
}

/// Braces, brackets and the parentheses of a parenthesized expression get the same spaces
/// inside at their opening and at their closing.
pub proof fn law_brackets_are_spaced_symmetrically(
    config: LuaFormatConfig,
    parent: u16,
    prev: u16,
    has_replacement: bool,
)
    ensures
        spec_right_rule(config, TK_LEFT_BRACE, parent, has_replacement) == spec_left_rule(
            config,
            TK_RIGHT_BRACE,
            parent,
            prev,
        ),
        spec_right_rule(config, TK_LEFT_BRACKET, parent, has_replacement) == spec_left_rule(
            config,
            TK_RIGHT_BRACKET,
            parent,
            prev,
        ),
        spec_right_rule(config, TK_LEFT_PAREN, parent, has_replacement) == spec_left_rule(
            config,
            TK_RIGHT_PAREN,
            parent,
            prev,
        ),
{
}

/// An equality, comparison, logical or bitwise operator.
pub open spec fn always_spaced_op(op: BinaryOperator) -> bool {
    match op {
        BinaryOperator::OpEq | BinaryOperator::OpNe | BinaryOperator::OpLt | BinaryOperator::OpLe
        | BinaryOperator::OpGt | BinaryOperator::OpGe | BinaryOperator::OpAnd | BinaryOperator::OpOr
        | BinaryOperator::OpBAnd | BinaryOperator::OpBOr | BinaryOperator::OpBXor | BinaryOperator::OpShl
        | BinaryOperator::OpShr => true,
        _ => false,
    }
}

/// The token of an equality, comparison, logical or bitwise operator.
pub open spec fn always_spaced_kind(k: u16) -> bool {
    k == TK_EQ || k == TK_NE || k == TK_LT || k == TK_LE || k == TK_GT || k == TK_GE || k == TK_AND || k == TK_OR
        || k == TK_BIT_AND || k == TK_BIT_OR || k == TK_BIT_XOR || k == TK_SHL || k == TK_SHR
}

/// Equality, comparison, logical and bitwise operators are spaced under every configuration:
/// only the arithmetic operators follow the math option and `..` the concat option.
pub proof fn law_comparison_and_logical_operators_are_spaced(config: LuaFormatConfig, op: BinaryOperator)
    requires
        always_spaced_op(op),
    ensures
        spec_space_around_binary_op(op, config) == SpaceRule::Space,
{
}

/// A token of `==`, `~=`, `<`, `<=`, `>`, `>=`, `and`, `or`, `&`, `|`, `~`, `<<` or `>>` that is
/// the operator of a binary expression gets exactly one space on each side, under every
/// configuration.
pub proof fn law_comparison_tokens_get_one_space(config: LuaFormatConfig, tree: &SyntaxTree, t: int)
    requires
        always_spaced_kind(tree.elems@[t].kind),
        spec_parent_kind(tree, t) == SK_BINARY_EXPR,
    ensures
        token_left(config, tree, t) == Some(1usize),
        token_right(config, tree, t) == Some(1usize),
{
    reveal(token_left);
    reveal(token_right);
    let k = tree.elems@[t].kind;
    law_binary_operators_are_spaced_evenly(
        config,
        k,
        SK_BINARY_EXPR,
        spec_prev_solid_kind(tree, t),
        token_replace(config, tree, t) is Some,
    );
    law_comparison_and_logical_operators_are_spaced(config, spec_binary_op_of(k).unwrap());
}

/// The token of an arithmetic operator: `+`, `-`, `*`, `/`, `//`, `%` or `^`.
pub open spec fn math_kind(k: u16) -> bool {
    k == TK_PLUS || k == TK_MINUS || k == TK_MUL || k == TK_DIV || k == TK_I_DIV || k == TK_MOD || k == TK_POW
}

/// The operator token of a binary expression: an arithmetic one gets one space on each side
/// when the math option is on and none when it is off, whatever the other options say; `..`
/// follows the concat option in the same way.
pub proof fn law_math_and_concat_tokens_follow_their_options(config: LuaFormatConfig, tree: &SyntaxTree, t: int)
    requires
        spec_parent_kind(tree, t) == SK_BINARY_EXPR,
    ensures
        math_kind(tree.elems@[t].kind) ==> token_left(config, tree, t) == Some(
            flag(config.spacing.space_around_math_operator),
        ) && token_right(config, tree, t) == Some(flag(config.spacing.space_around_math_operator)),
        tree.elems@[t].kind == TK_CONCAT ==> token_left(config, tree, t) == Some(
            flag(config.spacing.space_around_concat_operator),
        ) && token_right(config, tree, t) == Some(flag(config.spacing.space_around_concat_operator)),
{
    reveal(token_left);
    reveal(token_right);
    let k = tree.elems@[t].kind;
    if math_kind(k) || k == TK_CONCAT {
        law_binary_operators_are_spaced_evenly(
            config,
            k,
            SK_BINARY_EXPR,
            spec_prev_solid_kind(tree, t),
            token_replace(config, tree, t) is Some,
        );
    }
}

} // verus!
