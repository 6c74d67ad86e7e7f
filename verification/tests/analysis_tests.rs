use emmylua_formatter::config::{LuaFormatConfig, SpacingConfig};
use emmylua_formatter::kinds::{
    SK_BLOCK, SK_CALL_ARG_LIST, SK_COMMENT, SK_ELSE_CLAUSE_STAT, SK_ELSE_IF_CLAUSE_STAT,
    SK_IF_STAT, SK_LOCAL_STAT, SK_PARAM_LIST, SK_RETURN_STAT, SK_TABLE_ARRAY_EXPR,
    SK_TABLE_EMPTY_EXPR, SK_TABLE_OBJECT_EXPR, SK_WHILE_STAT, TK_ASSIGN, TK_DOC_START, TK_ELSE,
    TK_LEFT_PAREN, TK_NORMAL_START, TK_PLUS, TK_RIGHT_PAREN, TK_THEN,
};
use emmylua_formatter::layout::analyze_root_layout;
use emmylua_formatter::model::{
    LayoutNodePlan, RootFormatPlan, StatementExprListLayoutKind, TokenSpacingExpected,
};
use emmylua_formatter::parse::LanguageLevel;
use emmylua_formatter::spacing::analyze_root_spacing;
use emmylua_formatter::syntax::{parse_tree, LuaSyntaxId, SyntaxTree};
use emmylua_formatter::FormatContext;

fn find_token(tree: &SyntaxTree, kind: u16) -> LuaSyntaxId {
    let t = tree
        .tokens
        .iter()
        .copied()
        .find(|&t| tree.elems[t].kind == kind)
        .unwrap();
    tree.id(t)
}

fn find_nodes(tree: &SyntaxTree, kind: u16) -> Vec<usize> {
    (0..tree.elems.len())
        .filter(|&i| tree.elems[i].is_node && tree.elems[i].kind == kind)
        .collect()
}

fn find_node(tree: &SyntaxTree, kind: u16) -> Option<usize> {
    find_nodes(tree, kind).first().copied()
}

fn layout_plan(text: &str, config: &LuaFormatConfig) -> (SyntaxTree, RootFormatPlan) {
    let tree = parse_tree(text, LanguageLevel::Lua54);
    let ctx = FormatContext::new(config);
    let spacing_plan = analyze_root_spacing(&ctx, &tree);
    let plan = analyze_root_layout(&ctx, &tree, spacing_plan);
    (tree, plan)
}

#[test]
fn test_spacing_assign_defaults_to_single_spaces() {
    let config = LuaFormatConfig::default();
    let tree = parse_tree("local x=1\n", LanguageLevel::Lua54);
    let spacing = analyze_root_spacing(&FormatContext::new(&config), &tree).spacing;
    let assign_id = find_token(&tree, TK_ASSIGN);

    assert_eq!(spacing.left_expected(assign_id), Some(&TokenSpacingExpected::Space(1)));
    assert_eq!(spacing.right_expected(assign_id), Some(&TokenSpacingExpected::Space(1)));
}

#[test]
fn test_spacing_uses_call_paren_config() {
    let config = LuaFormatConfig {
        spacing: SpacingConfig { space_before_call_paren: true, ..Default::default() },
        ..Default::default()
    };
    let tree = parse_tree("foo(a)\n", LanguageLevel::Lua54);
    let spacing = analyze_root_spacing(&FormatContext::new(&config), &tree).spacing;
    let paren_id = find_token(&tree, TK_LEFT_PAREN);

    assert_eq!(spacing.left_expected(paren_id), Some(&TokenSpacingExpected::Space(1)));
    assert_eq!(spacing.right_expected(paren_id), Some(&TokenSpacingExpected::Space(0)));
}

#[test]
fn test_spacing_respects_paren_expr_inner_space() {
    let config = LuaFormatConfig {
        spacing: SpacingConfig { space_inside_parens: true, ..Default::default() },
        ..Default::default()
    };
    let tree = parse_tree("local x = (a)\n", LanguageLevel::Lua54);
    let spacing = analyze_root_spacing(&FormatContext::new(&config), &tree).spacing;
    let left_paren = find_token(&tree, TK_LEFT_PAREN);
    let right_paren = find_token(&tree, TK_RIGHT_PAREN);

    assert_eq!(spacing.right_expected(left_paren), Some(&TokenSpacingExpected::Space(1)));
    assert_eq!(spacing.left_expected(right_paren), Some(&TokenSpacingExpected::Space(1)));
}

#[test]
fn test_spacing_respects_math_operator_config() {
    let config = LuaFormatConfig {
        spacing: SpacingConfig { space_around_math_operator: false, ..Default::default() },
        ..Default::default()
    };
    let tree = parse_tree("local x = a+b\n", LanguageLevel::Lua54);
    let spacing = analyze_root_spacing(&FormatContext::new(&config), &tree).spacing;
    let plus_id = find_token(&tree, TK_PLUS);

    assert_eq!(spacing.left_expected(plus_id), Some(&TokenSpacingExpected::Space(0)));
    assert_eq!(spacing.right_expected(plus_id), Some(&TokenSpacingExpected::Space(0)));
}

#[test]
fn test_spacing_collects_comment_prefix_replacement() {
    let config = LuaFormatConfig::default();
    let tree = parse_tree("--hello\n", LanguageLevel::Lua54);
    let spacing = analyze_root_spacing(&FormatContext::new(&config), &tree).spacing;
    let start_id = find_token(&tree, TK_NORMAL_START);

    assert_eq!(spacing.token_replace(start_id), Some("-- "));
    assert_eq!(spacing.right_expected(start_id), Some(&TokenSpacingExpected::Space(0)));
}

#[test]
fn test_spacing_collects_doc_prefix_replacement() {
    let config = LuaFormatConfig::default();
    let tree = parse_tree("---@param x string\n", LanguageLevel::Lua54);
    let spacing = analyze_root_spacing(&FormatContext::new(&config), &tree).spacing;
    let start_id = find_token(&tree, TK_DOC_START);

    assert_eq!(spacing.token_replace(start_id), Some("---@"));
}

#[test]
fn test_layout_collects_recursive_node_tree_with_comment_exception() {
    let config = LuaFormatConfig::default();
    let (_tree, plan) = layout_plan("-- hello\nlocal x = 1\n", &config);

    assert_eq!(plan.layout.root_nodes.len(), 1);
    let LayoutNodePlan::Syntax(block) = &plan.layout.root_nodes[0] else {
        panic!("expected block syntax node");
    };
    assert_eq!(block.kind, SK_BLOCK);
    assert_eq!(block.children.len(), 2);
    assert!(matches!(block.children[0], LayoutNodePlan::Comment(_)));
    assert!(matches!(block.children[1], LayoutNodePlan::Syntax(_)));

    let LayoutNodePlan::Comment(comment) = &block.children[0] else {
        panic!("expected comment child");
    };
    assert_eq!(comment.syntax_id.kind, SK_COMMENT);
}

#[test]
fn test_layout_collects_statement_trivia_and_expr_list_metadata() {
    let config = LuaFormatConfig::default();
    let (tree, plan) = layout_plan(
        "local a, -- lhs\n    b = {\n        1,\n        2,\n    }, c\nreturn -- head\n    foo, bar\nreturn\n    -- standalone\n    baz\n",
        &config,
    );

    let local_stat = find_node(&tree, SK_LOCAL_STAT).expect("expected local stat");
    let local_layout = plan
        .layout
        .statement_trivia
        .get(tree.id(local_stat))
        .expect("expected local trivia layout");
    assert!(local_layout.has_inline_comment);

    let local_expr_layout = plan
        .layout
        .statement_expr_lists
        .get(tree.id(local_stat))
        .expect("expected local expr layout");
    assert_eq!(local_expr_layout.kind, StatementExprListLayoutKind::PreserveFirstMultiline);
    assert!(!local_expr_layout.attach_single_value_head);
    assert!(local_expr_layout.allow_fill);
    assert!(!local_expr_layout.allow_packed);
    assert!(local_expr_layout.allow_one_per_line);

    let return_stats = find_nodes(&tree, SK_RETURN_STAT);
    assert_eq!(return_stats.len(), 2);

    let inline_return_layout = plan
        .layout
        .statement_trivia
        .get(tree.id(return_stats[0]))
        .expect("expected inline return trivia layout");
    assert!(inline_return_layout.has_inline_comment);

    let standalone_return_layout = plan
        .layout
        .statement_trivia
        .get(tree.id(return_stats[1]))
        .expect("expected standalone return trivia layout");
    assert!(!standalone_return_layout.has_inline_comment);

    assert!(find_node(&tree, SK_WHILE_STAT).is_none());

    let (inline_tree, inline_plan) = layout_plan(
        "if ok then -- note\n    print(1)\nelseif retry then -- retry note\n    print(2)\nelse -- fallback note\n    print(3)\nend\n",
        &config,
    );
    let if_stat = find_node(&inline_tree, SK_IF_STAT).expect("expected if stat");
    let if_boundary = inline_plan
        .layout
        .boundary_comments
        .get(inline_tree.id(if_stat))
        .expect("expected if boundary comment layout");
    assert_eq!(if_boundary.get(TK_THEN).unwrap().comment_ids.len(), 1);

    let else_if_clause =
        find_node(&inline_tree, SK_ELSE_IF_CLAUSE_STAT).expect("expected elseif clause");
    let else_if_boundary = inline_plan
        .layout
        .boundary_comments
        .get(inline_tree.id(else_if_clause))
        .expect("expected elseif boundary comment layout");
    assert_eq!(else_if_boundary.get(TK_THEN).unwrap().comment_ids.len(), 1);

    let else_clause = find_node(&inline_tree, SK_ELSE_CLAUSE_STAT).expect("expected else clause");
    let else_boundary = inline_plan
        .layout
        .boundary_comments
        .get(inline_tree.id(else_clause))
        .expect("expected else boundary comment layout");
    assert_eq!(else_boundary.get(TK_ELSE).unwrap().comment_ids.len(), 1);
}

#[test]
fn test_layout_collects_expr_sequence_metadata() {
    let config = LuaFormatConfig::default();
    let (tree, plan) = layout_plan(
        "local function foo(\n    a,\n    b\n)\n    return call(\n        foo,\n        bar\n    ), {\n        x = 1,\n        y = 2,\n    }\nend\n",
        &config,
    );

    let param_list = find_node(&tree, SK_PARAM_LIST).expect("expected param list");
    let param_layout = plan
        .layout
        .expr_sequences
        .get(tree.id(param_list))
        .expect("expected param layout");
    assert!(!param_layout.preserve_multiline);
    assert!(param_layout.first_line_prefix_width > 0);

    let call_args = find_node(&tree, SK_CALL_ARG_LIST).expect("expected call arg list");
    let call_layout = plan
        .layout
        .expr_sequences
        .get(tree.id(call_args))
        .expect("expected call arg layout");
    assert!(call_layout.preserve_multiline);
    assert!(call_layout.first_line_prefix_width > 0);

    let table_expr = (0..tree.elems.len())
        .find(|&i| {
            tree.elems[i].is_node
                && [SK_TABLE_ARRAY_EXPR, SK_TABLE_OBJECT_EXPR, SK_TABLE_EMPTY_EXPR]
                    .contains(&tree.elems[i].kind)
        })
        .expect("expected table expr");
    let table_layout = plan
        .layout
        .expr_sequences
        .get(tree.id(table_expr))
        .expect("expected table layout");
    assert!(!table_layout.preserve_multiline);
    assert!(table_layout.first_line_prefix_width > 0);
}

#[test]
fn layout_first_line_prefix_width_is_the_source_column() {
    let config = LuaFormatConfig::default();
    let (tree, plan) = layout_plan("foo(a,\n      b)\nlocal t = {  x = 1 }\n", &config);
    let call_args = find_node(&tree, SK_CALL_ARG_LIST).unwrap();
    let call_layout = plan.layout.expr_sequences.get(tree.id(call_args)).unwrap();
    assert_eq!(call_layout.first_line_prefix_width, 4);
    assert!(call_layout.preserve_multiline);
    let table = find_node(&tree, SK_TABLE_OBJECT_EXPR).unwrap();
    let table_layout = plan.layout.expr_sequences.get(tree.id(table)).unwrap();
    assert_eq!(table_layout.first_line_prefix_width, 13);
}

#[test]
fn layout_empty_table_has_no_sequence_plan() {
    let config = LuaFormatConfig::default();
    let (tree, plan) = layout_plan("local t = {}\n", &config);
    let table = find_node(&tree, SK_TABLE_EMPTY_EXPR).unwrap();
    assert!(plan.layout.expr_sequences.get(tree.id(table)).is_none());
}

#[test]
fn layout_format_off_marks_directives_and_following_statements() {
    let config = LuaFormatConfig::default();
    let (tree, plan) = layout_plan(
        "local a=1\n-- fmt: off\nlocal   b=2\n-- fmt: on\nlocal c=3\n",
        &config,
    );
    let locals = find_nodes(&tree, SK_LOCAL_STAT);
    let comments = find_nodes(&tree, SK_COMMENT);
    assert_eq!(locals.len(), 3);
    assert_eq!(comments.len(), 2);
    let disabled = &plan.layout.format_disabled;
    assert!(!disabled.contains_key(tree.id(locals[0])));
    assert!(disabled.contains_key(tree.id(locals[1])));
    assert!(!disabled.contains_key(tree.id(locals[2])));
    assert!(disabled.contains_key(tree.id(comments[0])));
    assert!(disabled.contains_key(tree.id(comments[1])));
    assert_eq!(disabled.len(), 3);
}

#[test]
fn layout_single_table_value_attaches_to_head() {
    let config = LuaFormatConfig::default();
    let (tree, plan) = layout_plan("local t = { 1, 2 }\nreturn a, b, c\n", &config);
    let local_stat = find_node(&tree, SK_LOCAL_STAT).unwrap();
    let local_layout = plan.layout.statement_expr_lists.get(tree.id(local_stat)).unwrap();
    assert!(local_layout.attach_single_value_head);
    assert_eq!(local_layout.kind, StatementExprListLayoutKind::Sequence);
    assert_eq!(local_layout.first_line_prefix_width, 10);
    let ret = find_node(&tree, SK_RETURN_STAT).unwrap();
    let ret_layout = plan.layout.statement_expr_lists.get(tree.id(ret)).unwrap();
    assert!(ret_layout.allow_packed);
    assert!(!ret_layout.attach_single_value_head);
    assert!(plan.layout.statement_trivia.get(tree.id(ret)).is_none());
}
