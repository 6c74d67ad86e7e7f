use emmylua_formatter::config::{CommentConfig, LuaFormatConfig, OutputConfig, QuoteStyle};
use emmylua_formatter::render::trailing_comment_padding_for_config;
use emmylua_formatter::parse::LanguageLevel;
use emmylua_formatter::strings::{
    raw_short_string_contains_unescaped_quote, requote_short_string, rewrite_short_string_quotes,
};
use emmylua_formatter::{reformat_lua_code, FormatContext, SourceText};

fn chars(s: &str) -> Vec<char> {
    s.chars().collect()
}

fn text(v: &[char]) -> String {
    v.iter().collect()
}

fn format_with(source: &str, style: QuoteStyle) -> String {
    let config = LuaFormatConfig {
        output: OutputConfig { quote_style: style, ..Default::default() },
        ..Default::default()
    };
    reformat_lua_code(&SourceText { text: source, level: LanguageLevel::default() }, &config)
}

#[test]
fn unescaped_quote_is_found_only_after_an_even_run_of_backslashes() {
    assert!(raw_short_string_contains_unescaped_quote(&chars("a\"b"), '"'));
    assert!(!raw_short_string_contains_unescaped_quote(&chars("a\\\"b"), '"'));
    assert!(raw_short_string_contains_unescaped_quote(&chars("a\\\\\"b"), '"'));
    assert!(!raw_short_string_contains_unescaped_quote(&chars("plain"), '"'));
    assert!(!raw_short_string_contains_unescaped_quote(&chars("a\\b"), '\\'));
}

#[test]
fn rewriting_drops_the_escape_of_the_old_quote() {
    assert_eq!(text(&rewrite_short_string_quotes(&chars("it\\'s"), '\'', '"')), "\"it's\"");
    assert_eq!(text(&rewrite_short_string_quotes(&chars("a\\\\b"), '\'', '"')), "\"a\\\\b\"");
    assert_eq!(text(&rewrite_short_string_quotes(&chars("end\\"), '\'', '"')), "\"end\\\"");
    assert_eq!(text(&rewrite_short_string_quotes(&chars(""), '\'', '"')), "\"\"");
}

#[test]
fn requoting_keeps_strings_that_hold_the_preferred_quote() {
    assert_eq!(text(&requote_short_string(QuoteStyle::Double, chars("'abc'"))), "\"abc\"");
    assert_eq!(text(&requote_short_string(QuoteStyle::Double, chars("'a\"b'"))), "'a\"b'");
    assert_eq!(text(&requote_short_string(QuoteStyle::Single, chars("\"abc\""))), "'abc'");
    assert_eq!(text(&requote_short_string(QuoteStyle::Preserve, chars("'abc'"))), "'abc'");
    assert_eq!(text(&requote_short_string(QuoteStyle::Double, chars("\"abc\""))), "\"abc\"");
}

#[test]
fn quote_style_applies_to_string_literals() {
    assert_eq!(format_with("local s = 'abc'\n", QuoteStyle::Double), "local s = \"abc\"\n");
    assert_eq!(format_with("local s = \"abc\"\n", QuoteStyle::Single), "local s = 'abc'\n");
    assert_eq!(format_with("local s = 'it\\'s'\n", QuoteStyle::Double), "local s = \"it's\"\n");
    assert_eq!(format_with("local s = [[long]]\n", QuoteStyle::Single), "local s = [[long]]\n");
    assert_eq!(format_with("local s = 'abc'\n", QuoteStyle::Preserve), "local s = 'abc'\n");
}

#[test]
fn trailing_comment_padding_follows_the_options() {
    let plain = LuaFormatConfig::default();
    let ctx = FormatContext::new(&plain);
    assert_eq!(trailing_comment_padding_for_config(&ctx, 10, 10), 1);
    assert_eq!(trailing_comment_padding_for_config(&ctx, 10, 14), 5);
    let columned = LuaFormatConfig {
        comments: CommentConfig {
            line_comment_min_spaces_before: 2,
            line_comment_min_column: 20,
            ..Default::default()
        },
        ..Default::default()
    };
    let ctx = FormatContext::new(&columned);
    assert_eq!(trailing_comment_padding_for_config(&ctx, 10, 10), 10);
    assert_eq!(trailing_comment_padding_for_config(&ctx, 19, 19), 2);
    assert_eq!(trailing_comment_padding_for_config(&ctx, 10, 25), 17);
}

#[test]
fn requoting_twice_is_requoting_once() {
    for style in [QuoteStyle::Double, QuoteStyle::Single, QuoteStyle::Preserve] {
        for s in ["'abc'", "\"abc\"", "'it\\'s'", "\"say \\\"hi\\\"\"", "'a\"b'", "'"] {
            let once = requote_short_string(style, chars(s));
            assert_eq!(requote_short_string(style, once.clone()), once, "{s:?}");
        }
    }
}
