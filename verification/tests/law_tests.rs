use emmylua_formatter::config::{LuaFormatConfig, OutputConfig, SpacingConfig};
use emmylua_formatter::kinds::{
    SK_ATTRIBUTE, SK_BLOCK, SK_CHUNK, SK_LOCAL_STAT, TK_ASSIGN, TK_LEFT_BRACE, TK_MUL,
    TK_RIGHT_BRACE,
};
use emmylua_formatter::model::TokenSpacingExpected;
use emmylua_formatter::parse::LanguageLevel;
use emmylua_formatter::spacing::analyze_root_spacing;
use emmylua_formatter::syntax::{parse_tree, LuaSyntaxId, SyntaxTree};
use emmylua_formatter::{reformat_lua_code, FormatContext, SourceText};

fn find_token(tree: &SyntaxTree, kind: u16) -> LuaSyntaxId {
    let t = tree
        .tokens
        .iter()
        .copied()
        .find(|&t| tree.elems[t].kind == kind)
        .unwrap();
    tree.id(t)
}

fn format(text: &str, config: &LuaFormatConfig) -> String {
    reformat_lua_code(&SourceText { text, level: LanguageLevel::default() }, config)
}

#[test]
fn output_ends_with_a_line_break_only_when_asked() {
    let with = LuaFormatConfig::default();
    assert_eq!(format("local a=1", &with), "local a = 1\n");
    let without = LuaFormatConfig {
        output: OutputConfig { insert_final_newline: false, ..Default::default() },
        ..Default::default()
    };
    assert_eq!(format("local a=1\n", &without), "local a = 1");
    assert_eq!(format("", &with), "");
}

#[test]
fn binary_operator_spacing_is_even() {
    let config = LuaFormatConfig::default();
    let tree = parse_tree("local x = a*b\n", LanguageLevel::Lua54);
    let spacing = analyze_root_spacing(&FormatContext::new(&config), &tree).spacing;
    let star = find_token(&tree, TK_MUL);
    assert_eq!(spacing.left_expected(star), spacing.right_expected(star));
    assert_eq!(spacing.left_expected(star), Some(&TokenSpacingExpected::Space(1)));
}

#[test]
fn assignment_spacing_follows_the_option_on_both_sides() {
    let config = LuaFormatConfig {
        spacing: SpacingConfig { space_around_assign_operator: false, ..Default::default() },
        ..Default::default()
    };
    let tree = parse_tree("x = 1\n", LanguageLevel::Lua54);
    let spacing = analyze_root_spacing(&FormatContext::new(&config), &tree).spacing;
    let assign = find_token(&tree, TK_ASSIGN);
    assert_eq!(spacing.left_expected(assign), Some(&TokenSpacingExpected::Space(0)));
    assert_eq!(spacing.right_expected(assign), Some(&TokenSpacingExpected::Space(0)));
    assert_eq!(format("x   =   1\n", &config), "x=1\n");
}

#[test]
fn braces_are_spaced_alike_inside() {
    let config = LuaFormatConfig::default();
    let tree = parse_tree("local t = {1}\n", LanguageLevel::Lua54);
    let spacing = analyze_root_spacing(&FormatContext::new(&config), &tree).spacing;
    let open = find_token(&tree, TK_LEFT_BRACE);
    let close = find_token(&tree, TK_RIGHT_BRACE);
    assert_eq!(spacing.right_expected(open), spacing.left_expected(close));
    assert_eq!(format("local t = {1}\n", &config), "local t = { 1 }\n");
}

#[test]
fn parsed_tree_holds_the_source_and_its_structure() {
    let tree = parse_tree("local x <const> = 1\n", LanguageLevel::Lua54);
    let text: String = tree.text.iter().collect();
    assert_eq!(text, "local x <const> = 1\n");
    assert!(tree.elems[0].is_node);
    assert_eq!(tree.elems[0].kind, SK_CHUNK);
    assert!(tree.elems.iter().any(|e| e.is_node && e.kind == SK_BLOCK));
    assert!(tree.elems.iter().any(|e| e.is_node && e.kind == SK_LOCAL_STAT));
    assert!(tree.elems.iter().any(|e| e.is_node && e.kind == SK_ATTRIBUTE));
    let token_text: String = tree
        .tokens
        .iter()
        .flat_map(|&t| tree.text[tree.elems[t].text_start..tree.elems[t].text_end].iter())
        .collect();
    assert_eq!(token_text, "local x <const> = 1\n");
}

#[test]
fn format_off_region_is_written_as_it_stands() {
    let config = LuaFormatConfig::default();
    assert_eq!(
        format("x=1\n-- fmt: off\ny   =   2\n-- fmt: on\nz=3\n", &config),
        "x = 1\n-- fmt: off\ny   =   2\n-- fmt: on\nz = 3\n"
    );
}

#[test]
fn format_off_reaches_into_a_function_body() {
    let config = LuaFormatConfig::default();
    let out = format(
        "function f()\n    -- fmt: off\n    local   t   =   {1,2}\n    -- fmt: on\n    local u=1\nend\n",
        &config,
    );
    assert!(out.contains("local   t   =   {1,2}"), "{out}");
    assert!(out.contains("local u = 1"), "{out}");
}

#[test]
fn format_off_keeps_a_whole_statement_with_its_inner_lines() {
    let config = LuaFormatConfig::default();
    let src = "-- fmt: off\nif   a   then\n  b(  1  )\nend\n";
    let out = format(src, &config);
    assert!(out.contains("if   a   then\n  b(  1  )\nend"), "{out}");
}

#[test]
fn normal_comment_gets_one_space_after_its_dashes() {
    let config = LuaFormatConfig::default();
    assert_eq!(format("--note\nx=1\n", &config), "-- note\nx = 1\n");
    assert_eq!(format("--   note\nx=1\n", &config), "-- note\nx = 1\n");
}

#[test]
fn four_dash_comment_is_written_as_it_stands() {
    let config = LuaFormatConfig::default();
    assert_eq!(format("----  banner  ----\nx=1\n", &config), "----  banner  ----\nx = 1\n");
}

#[test]
fn comment_lines_are_stable_under_a_second_pass() {
    let config = LuaFormatConfig::default();
    for src in ["--note\n", "--   [x]\n", "--[x]\n", "--\n", "-- -x\n", "---doc\n"] {
        let once = format(src, &config);
        assert_eq!(format(&once, &config), once, "{src:?}");
    }
}

#[test]
fn test_law_code_tokens_are_written() {
    let config = LuaFormatConfig::default();
    let text = "local   alpha=beta+gamma  -- note\nif alpha then print ( alpha ) end\n";
    let source = SourceText { text, level: LanguageLevel::default() };
    let out = reformat_lua_code(&source, &config);
    let tree = parse_tree(text, LanguageLevel::default());
    for &t in tree.tokens.iter() {
        let e = &tree.elems[t];
        let word: String = tree.text[e.text_start..e.text_end].iter().collect();
        let is_code = word.chars().all(|c| c.is_alphanumeric() || c == '_' || c == '+' || c == '=');
        if is_code && !word.is_empty() && !word.starts_with('-') {
            assert!(out.contains(&word), "missing {word} in {out}");
        }
    }
    assert_eq!(out, "local alpha = beta + gamma -- note\nif alpha then print(alpha) end\n");
}

#[test]
fn test_law_doc_block_widths_hold_every_column() {
    let config = LuaFormatConfig::default();
    let text = "---@param short string desc\n---@param much_longer integer longer desc\nlocal function f(short, much_longer) end\n";
    let out = format(text, &config);
    let lines: Vec<&str> = out.lines().collect();
    assert_eq!(lines[0], "---@param short       string  desc");
    assert_eq!(lines[1], "---@param much_longer integer longer desc");
    assert_eq!(lines[0].find("string"), lines[1].find("integer"));
    assert_eq!(lines[0].find("desc"), lines[1].find("longer desc"));
}

#[test]
fn test_law_expanded_table_closer_starts_its_own_line() {
    let config = LuaFormatConfig::default();
    let text = "local t = {\n    a = 1, -- first\n    b = 2,\n}\n";
    let out = format(text, &config);
    let last_code = out.lines().filter(|l| !l.trim().is_empty()).last().unwrap();
    assert_eq!(last_code.trim(), "}");
    assert!(out.starts_with("local t = {\n"));
}

#[test]
fn test_law_planned_gap_between_code_tokens() {
    let config = LuaFormatConfig::default();
    assert_eq!(format("local   x=1\n", &config), "local x = 1\n");
    assert_eq!(format("print( a ,b )\n", &config), "print(a, b)\n");
}

#[test]
fn test_law_lines_start_at_whole_indent_levels() {
    let config = LuaFormatConfig::default();
    let text = "function f()\n  if a then\n      b()\n  end\nend\n";
    let out = format(text, &config);
    for line in out.lines() {
        let lead = line.len() - line.trim_start().len();
        assert_eq!(lead % 4, 0, "{line:?} in {out:?}");
    }
    assert!(out.contains("\n    if a then\n"));
}
