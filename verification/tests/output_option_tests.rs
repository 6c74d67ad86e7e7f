use emmylua_formatter::config::{
    ExpandStrategy, LayoutConfig, LuaFormatConfig, OutputConfig, SimpleLambdaSingleLine, SingleArgCallParens,
    TrailingComma, TrailingTableSeparator,
};
use emmylua_formatter::parse::LanguageLevel;
use emmylua_formatter::{SourceText, reformat_lua_code};

fn format_with(input: &str, config: &LuaFormatConfig) -> String {
    let source = SourceText { text: input, level: LanguageLevel::default() };
    reformat_lua_code(&source, config)
}

fn with_output(output: OutputConfig) -> LuaFormatConfig {
    LuaFormatConfig { output, ..Default::default() }
}

#[test]
fn test_trailing_comma_multiline_on_broken_call_args() {
    let config = LuaFormatConfig {
        layout: LayoutConfig { max_line_width: 40, ..Default::default() },
        output: OutputConfig { trailing_comma: TrailingComma::Multiline, ..Default::default() },
        ..Default::default()
    };
    assert_eq!(
        format_with("notify_with_long_name(first_argument, second_argument, third_argument)\n", &config),
        "notify_with_long_name(\n    first_argument, second_argument,\n    third_argument,\n)\n"
    );
}

#[test]
fn test_trailing_comma_multiline_keeps_flat_call_args_bare() {
    let config = with_output(OutputConfig { trailing_comma: TrailingComma::Multiline, ..Default::default() });
    assert_eq!(format_with("print(a, b)\n", &config), "print(a, b)\n");
}

#[test]
fn test_trailing_comma_never_writes_none() {
    let config = LuaFormatConfig {
        layout: LayoutConfig { max_line_width: 40, ..Default::default() },
        ..Default::default()
    };
    assert_eq!(
        format_with("notify_with_long_name(first_argument, second_argument, third_argument)\n", &config),
        "notify_with_long_name(\n    first_argument, second_argument,\n    third_argument\n)\n"
    );
}

#[test]
fn test_table_separator_inherits_trailing_comma() {
    let config = LuaFormatConfig {
        layout: LayoutConfig { table_expand: ExpandStrategy::Always, ..Default::default() },
        output: OutputConfig {
            trailing_comma: TrailingComma::Multiline,
            trailing_table_separator: TrailingTableSeparator::Inherit,
            ..Default::default()
        },
        ..Default::default()
    };
    assert_eq!(
        format_with("local t = { a = 1, b = 2 }\n", &config),
        "local t = {\n    a = 1,\n    b = 2,\n}\n"
    );
}

#[test]
fn test_table_separator_always_on_expanded_table() {
    let config = LuaFormatConfig {
        layout: LayoutConfig { table_expand: ExpandStrategy::Always, ..Default::default() },
        output: OutputConfig { trailing_table_separator: TrailingTableSeparator::Always, ..Default::default() },
        ..Default::default()
    };
    assert_eq!(
        format_with("local t = { a = 1, b = 2 }\n", &config),
        "local t = {\n    a = 1,\n    b = 2,\n}\n"
    );
}

#[test]
fn test_single_arg_call_parens_omit() {
    let config = with_output(OutputConfig { single_arg_call_parens: SingleArgCallParens::Omit, ..Default::default() });
    assert_eq!(format_with("print(\"hi\")\n", &config), "print \"hi\"\n");
    assert_eq!(format_with("f({ a = 1 })\n", &config), "f { a = 1 }\n");
    assert_eq!(format_with("f(1)\n", &config), "f(1)\n");
}

#[test]
fn test_single_arg_call_parens_always() {
    let config = with_output(OutputConfig { single_arg_call_parens: SingleArgCallParens::Always, ..Default::default() });
    assert_eq!(format_with("print \"hi\"\n", &config), "print(\"hi\")\n");
    assert_eq!(format_with("f { a = 1 }\n", &config), "f({ a = 1 })\n");
}

#[test]
fn test_single_arg_call_parens_preserve() {
    let config = LuaFormatConfig::default();
    assert_eq!(format_with("print \"hi\"\n", &config), "print \"hi\"\n");
    assert_eq!(format_with("print(\"hi\")\n", &config), "print(\"hi\")\n");
}

#[test]
fn test_simple_lambda_never_expands() {
    let config = with_output(OutputConfig { simple_lambda_single_line: SimpleLambdaSingleLine::Never, ..Default::default() });
    assert_eq!(
        format_with("local f = function(x) return x end\n", &config),
        "local f = function(x)\n    return x\nend\n"
    );
}

#[test]
fn test_simple_lambda_always_joins() {
    let config = with_output(OutputConfig { simple_lambda_single_line: SimpleLambdaSingleLine::Always, ..Default::default() });
    assert_eq!(
        format_with("local f = function(x)\n    return x\nend\n", &config),
        "local f = function(x) return x end\n"
    );
}

#[test]
fn test_simple_lambda_preserve_keeps_source_shape() {
    let config = LuaFormatConfig::default();
    assert_eq!(
        format_with("local f = function(x) return x end\n", &config),
        "local f = function(x) return x end\n"
    );
    assert_eq!(
        format_with("local f = function(x)\n    return x\nend\n", &config),
        "local f = function(x)\n    return x\nend\n"
    );
}

#[test]
fn test_closure_with_several_statements_is_expanded() {
    let config = LuaFormatConfig::default();
    assert_eq!(
        format_with("local f = function() a() b() end\n", &config),
        "local f = function()\n    a()\n    b()\nend\n"
    );
}
