//! Formatter options.
//!
//! Every option is a plain value; `Default` gives the formatter's stock style.

use vstd::prelude::*;

verus! {

/// How a sequence (table, argument list, parameter list) may be expanded onto several lines.
#[derive(Clone, Copy, Debug, PartialEq, Eq, Structural)]
pub enum ExpandStrategy {
    /// Keep the sequence on one line.
    Never,
    /// Expand only when the sequence does not fit.
    Auto,
    /// Always place one element per line.
    Always,
}

/// Which quote character short strings are rewritten to.
#[derive(Clone, Copy, Debug, PartialEq, Eq, Structural)]
pub enum QuoteStyle {
    Preserve,
    Double,
    Single,
}

/// Whether a trailing comma is written after the last element of a sequence.
#[derive(Clone, Copy, Debug, PartialEq, Eq, Structural)]
pub enum TrailingComma {
    Never,
    Multiline,
    Always,
}

/// Whether a trailing separator is written after the last field of a table.
#[derive(Clone, Copy, Debug, PartialEq, Eq, Structural)]
pub enum TrailingTableSeparator {
    Inherit,
    Never,
    Multiline,
    Always,
}

/// Parentheses around the single string or table argument of a call.
#[derive(Clone, Copy, Debug, PartialEq, Eq, Structural)]
pub enum SingleArgCallParens {
    Preserve,
    Always,
    Omit,
}

/// Whether a short closure may stay on one line.
#[derive(Clone, Copy, Debug, PartialEq, Eq, Structural)]
pub enum SimpleLambdaSingleLine {
    Preserve,
    Always,
    Never,
}

/// The character used for one level of indentation.
#[derive(Clone, Copy, Debug, PartialEq, Eq, Structural)]
pub enum IndentKind {
    Space,
    Tab,
}

/// Indentation options.
#[derive(Clone, Copy, Debug, PartialEq, Eq, Structural)]
pub struct IndentConfig {
    pub kind: IndentKind,
    pub width: usize,
}

/// Line-width and expansion options.
#[derive(Clone, Copy, Debug, PartialEq, Eq, Structural)]
pub struct LayoutConfig {
    pub max_line_width: usize,
    pub max_blank_lines: usize,
    pub table_expand: ExpandStrategy,
    pub call_args_expand: ExpandStrategy,
    pub func_params_expand: ExpandStrategy,
}

/// Options for the text that is written out.
#[derive(Clone, Copy, Debug, PartialEq, Eq, Structural)]
pub struct OutputConfig {
    pub insert_final_newline: bool,
    pub trailing_comma: TrailingComma,
    pub trailing_table_separator: TrailingTableSeparator,
    pub quote_style: QuoteStyle,
    pub single_arg_call_parens: SingleArgCallParens,
    pub simple_lambda_single_line: SimpleLambdaSingleLine,
}

/// Spaces around operators and inside brackets.
#[derive(Clone, Copy, Debug, PartialEq, Eq, Structural)]
pub struct SpacingConfig {
    pub space_before_call_paren: bool,
    pub space_before_func_paren: bool,
    pub space_inside_braces: bool,
    pub space_inside_parens: bool,
    pub space_inside_brackets: bool,
    pub space_around_math_operator: bool,
    pub space_around_concat_operator: bool,
    pub space_around_assign_operator: bool,
}

/// Options for ordinary comments.
#[derive(Clone, Copy, Debug, PartialEq, Eq, Structural)]
pub struct CommentConfig {
    pub align_line_comments: bool,
    pub align_in_statements: bool,
    pub align_in_params: bool,
    pub align_in_call_args: bool,
    pub align_in_table_fields: bool,
    pub align_across_standalone_comments: bool,
    pub align_same_kind_only: bool,
    pub line_comment_min_spaces_before: usize,
    pub line_comment_min_column: usize,
    pub space_after_comment_dash: bool,
}

/// Options for EmmyLua documentation comments.
#[derive(Clone, Copy, Debug, PartialEq, Eq, Structural)]
pub struct EmmyDocConfig {
    pub align_tag_columns: bool,
    pub align_declaration_tags: bool,
    pub align_reference_tags: bool,
    pub align_multiline_alias_descriptions: bool,
    pub space_between_tag_columns: bool,
    pub space_after_description_dash: bool,
}

/// Column alignment of consecutive statements and table fields.
#[derive(Clone, Copy, Debug, PartialEq, Eq, Structural)]
pub struct AlignConfig {
    pub continuous_assign_statement: bool,
    pub table_field: bool,
}

/// All formatter options.
#[derive(Clone, Copy, Debug, PartialEq, Eq, Structural)]
pub struct LuaFormatConfig {
    pub indent: IndentConfig,
    pub layout: LayoutConfig,
    pub output: OutputConfig,
    pub spacing: SpacingConfig,
    pub comments: CommentConfig,
    pub emmy_doc: EmmyDocConfig,
    pub align: AlignConfig,
}

impl Default for IndentConfig {
    fn default() -> (r: Self)
        ensures
            r.kind == IndentKind::Space,
            r.width == 4,
    {
        IndentConfig { kind: IndentKind::Space, width: 4 }
    }
}

impl Default for LayoutConfig {
    fn default() -> (r: Self)
        ensures
            r.max_line_width == 120,
            r.max_blank_lines == 1,
            r.table_expand == ExpandStrategy::Auto,
            r.call_args_expand == ExpandStrategy::Auto,
            r.func_params_expand == ExpandStrategy::Auto,
    {
        LayoutConfig {
            max_line_width: 120,
            max_blank_lines: 1,
            table_expand: ExpandStrategy::Auto,
            call_args_expand: ExpandStrategy::Auto,
            func_params_expand: ExpandStrategy::Auto,
        }
    }
}

impl Default for OutputConfig {
    fn default() -> (r: Self)
        ensures
            r.insert_final_newline,
            r.trailing_comma == TrailingComma::Never,
            r.trailing_table_separator == TrailingTableSeparator::Inherit,
            r.quote_style == QuoteStyle::Preserve,
            r.single_arg_call_parens == SingleArgCallParens::Preserve,
            r.simple_lambda_single_line == SimpleLambdaSingleLine::Preserve,
    {
        OutputConfig {
            insert_final_newline: true,
            trailing_comma: TrailingComma::Never,
            trailing_table_separator: TrailingTableSeparator::Inherit,
            quote_style: QuoteStyle::Preserve,
            single_arg_call_parens: SingleArgCallParens::Preserve,
            simple_lambda_single_line: SimpleLambdaSingleLine::Preserve,
        }
    }
}

impl Default for SpacingConfig {
    fn default() -> (r: Self)
        ensures
            !r.space_before_call_paren,
            !r.space_before_func_paren,
            r.space_inside_braces,
            !r.space_inside_parens,
            !r.space_inside_brackets,
            r.space_around_math_operator,
            r.space_around_concat_operator,
            r.space_around_assign_operator,
    {
        SpacingConfig {
            space_before_call_paren: false,
            space_before_func_paren: false,
            space_inside_braces: true,
            space_inside_parens: false,
            space_inside_brackets: false,
            space_around_math_operator: true,
            space_around_concat_operator: true,
            space_around_assign_operator: true,
        }
    }
}

impl Default for CommentConfig {
    fn default() -> (r: Self)
        ensures
            r.align_line_comments,
            r.align_in_statements,
            r.align_in_params,
            r.align_in_call_args,
            r.align_in_table_fields,
            !r.align_across_standalone_comments,
            !r.align_same_kind_only,
            r.line_comment_min_spaces_before == 1,
            r.line_comment_min_column == 0,
            r.space_after_comment_dash,
    {
        CommentConfig {
            align_line_comments: true,
            align_in_statements: true,
            align_in_params: true,
            align_in_call_args: true,
            align_in_table_fields: true,
            align_across_standalone_comments: false,
            align_same_kind_only: false,
            line_comment_min_spaces_before: 1,
            line_comment_min_column: 0,
            space_after_comment_dash: true,
        }
    }
}

impl Default for EmmyDocConfig {
    fn default() -> (r: Self)
        ensures
            r.align_tag_columns,
            r.align_declaration_tags,
            r.align_reference_tags,
            r.align_multiline_alias_descriptions,
            !r.space_between_tag_columns,
            r.space_after_description_dash,
    {
        EmmyDocConfig {
            align_tag_columns: true,
            align_declaration_tags: true,
            align_reference_tags: true,
            align_multiline_alias_descriptions: true,
            space_between_tag_columns: false,
            space_after_description_dash: true,
        }
    }
}

impl Default for AlignConfig {
    fn default() -> (r: Self)
        ensures
            r.continuous_assign_statement,
            r.table_field,
    {
        AlignConfig { continuous_assign_statement: true, table_field: true }
    }
}

impl Default for LuaFormatConfig {
    fn default() -> (r: Self)
        ensures
            r.indent == (IndentConfig { kind: IndentKind::Space, width: 4 }),
            r.layout.max_line_width == 120,
            r.output.insert_final_newline,
            r.comments.space_after_comment_dash,
            r.emmy_doc.space_after_description_dash,
            !r.emmy_doc.space_between_tag_columns,
    {
        LuaFormatConfig {
            indent: IndentConfig::default(),
            layout: LayoutConfig::default(),
            output: OutputConfig::default(),
            spacing: SpacingConfig::default(),
            comments: CommentConfig::default(),
            emmy_doc: EmmyDocConfig::default(),
            align: AlignConfig::default(),
        }
    }
}

impl LuaFormatConfig {
    /// Whether `@class`, `@alias`, `@field` and `@generic` lines are aligned in columns.
    pub fn should_align_emmy_doc_declaration_tags(&self) -> (r: bool)
        ensures
            r == (self.emmy_doc.align_tag_columns && self.emmy_doc.align_declaration_tags),
    {
        self.emmy_doc.align_tag_columns && self.emmy_doc.align_declaration_tags
    }

    /// Whether `@param` and `@return` lines are aligned in columns.
    pub fn should_align_emmy_doc_reference_tags(&self) -> (r: bool)
        ensures
            r == (self.emmy_doc.align_tag_columns && self.emmy_doc.align_reference_tags),
    {
        self.emmy_doc.align_tag_columns && self.emmy_doc.align_reference_tags
    }

    /// Whether the `# description` parts of multi-line `@alias` values are aligned.
    pub fn should_align_emmy_doc_multiline_alias_descriptions(&self) -> (r: bool)
        ensures
            r == (self.emmy_doc.align_tag_columns
                && self.emmy_doc.align_multiline_alias_descriptions),
    {
        self.emmy_doc.align_tag_columns && self.emmy_doc.align_multiline_alias_descriptions
    }
}

} // verus!
