use emmylua_formatter::kinds::{
    TK_AND, TK_BREAK, TK_DO, TK_ELSE, TK_ELSE_IF, TK_END, TK_FALSE, TK_FOR, TK_FUNCTION,
    TK_GOTO, TK_IF, TK_IN, TK_LOCAL, TK_NIL, TK_NOT, TK_OR, TK_REPEAT, TK_RETURN, TK_THEN,
    TK_TRUE, TK_UNTIL, TK_WHILE, TK_GLOBAL, TK_CONTINUE, TK_CONST, TK_TOGGLE, TK_WHITESPACE,
    TK_END_OF_LINE, TK_PLUS, TK_MINUS, TK_MUL, TK_DIV, TK_I_DIV, TK_DOT, TK_CONCAT, TK_DOTS,
    TK_COMMA, TK_ASSIGN, TK_EQ, TK_GE, TK_LE, TK_NE, TK_SHL, TK_SHR, TK_SHR_ARITHMETIC, TK_LT,
    TK_GT, TK_MOD, TK_POW, TK_LEN, TK_BIT_AND, TK_BIT_OR, TK_BIT_XOR, TK_COLON, TK_DB_COLON,
    TK_SEMICOLON, TK_PLUS_ASSIGN, TK_MINUS_ASSIGN, TK_STAR_ASSIGN, TK_SLASH_ASSIGN,
    TK_PERCENT_ASSIGN, TK_CARET_ASSIGN, TK_DOUBLE_SLASH_ASSIGN, TK_PIPE_ASSIGN, TK_AMP_ASSIGN,
    TK_SHIFT_LEFT_ASSIGN, TK_SHIFT_RIGHT_ASSIGN, TK_SHR_ARITHMETIC_ASSIGN, TK_CONCAT_ASSIGN,
    TK_XOR_ASSIGN, TK_NIL_COALESCING, TK_SAFE_NAVIGATION, TK_TERNARY, TK_ARROW, TK_LOGICAL_OR,
    TK_LOGICAL_AND, TK_EMPTY_SHORT_PARAM, TK_LEFT_BRACKET, TK_RIGHT_BRACKET, TK_LEFT_PAREN,
    TK_RIGHT_PAREN, TK_LEFT_BRACE, TK_RIGHT_BRACE, TK_COMPLEX, TK_INT, TK_FLOAT, TK_NAME,
    TK_STRING, TK_LONG_STRING, TK_SHORT_COMMENT, TK_LONG_COMMENT, TK_SHEBANG, TK_EOF,
    TK_UNKNOWN, TK_NORMAL_START, TK_LONG_COMMENT_START, TK_DOC_LONG_START, TK_DOC_START,
    TK_DOC_TRIVIA_START, TK_DOC_TRIVIA, TK_LONG_COMMENT_END, TK_NON_STD_COMMENT, TK_TAG_CLASS,
    TK_TAG_ENUM, TK_TAG_INTERFACE, TK_TAG_ALIAS, TK_TAG_MODULE, TK_TAG_FIELD, TK_TAG_TYPE,
    TK_TAG_PARAM, TK_TAG_RETURN, TK_TAG_OVERLOAD, TK_TAG_GENERIC, TK_TAG_SEE, TK_TAG_DEPRECATED,
    TK_TAG_ASYNC, TK_TAG_CAST, TK_TAG_OTHER, TK_TAG_VISIBILITY, TK_TAG_READONLY,
    TK_TAG_DIAGNOSTIC, TK_TAG_META, TK_TAG_VERSION, TK_TAG_AS, TK_TAG_NODISCARD,
    TK_TAG_OPERATOR, TK_TAG_MAPPING, TK_TAG_NAMESPACE, TK_TAG_USING, TK_TAG_SOURCE,
    TK_TAG_RETURN_CAST, TK_TAG_RETURN_OVERLOAD, TK_LANGUAGE, TK_TAG_SCHEMA, TK_CALL_GENERIC,
    TK_DOC_OR, TK_DOC_AND, TK_DOC_KEY_OF, TK_DOC_EXTENDS, TK_DOC_NEW, TK_DOC_AS, TK_DOC_IN,
    TK_DOC_INFER, TK_DOC_CONST, TK_DOC_ELSE, TK_DOC_CONTINUE, TK_DOC_CONTINUE_OR, TK_DOC_DETAIL,
    TK_DOC_QUESTION, TK_DOC_VISIBILITY, TK_DOC_READONLY, TK_AT, TK_DOC_VERSION_NUMBER,
    TK_STRING_TEMPLATE_TYPE, TK_DOC_MATCH, TK_DOC_PATH, TK_DOC_REGION, TK_DOC_END_REGION,
    TK_DOC_SEE_CONTENT, TK_DOC_ATTRIBUTE_USE, SK_NONE, SK_CHUNK, SK_BLOCK, SK_EMPTY_STAT,
    SK_LOCAL_STAT, SK_LOCAL_FUNC_STAT, SK_IF_STAT, SK_ELSE_IF_CLAUSE_STAT, SK_ELSE_CLAUSE_STAT,
    SK_WHILE_STAT, SK_DO_STAT, SK_FOR_STAT, SK_FOR_RANGE_STAT, SK_REPEAT_STAT, SK_FUNC_STAT,
    SK_LABEL_STAT, SK_BREAK_STAT, SK_CONTINUE_STAT, SK_CONST_STAT, SK_RETURN_STAT, SK_GOTO_STAT,
    SK_CALL_EXPR_STAT, SK_ASSIGN_STAT, SK_GLOBAL_STAT, SK_UNKNOWN_STAT, SK_PAREN_EXPR,
    SK_LITERAL_EXPR, SK_CLOSURE_EXPR, SK_UNARY_EXPR, SK_BINARY_EXPR, SK_TABLE_ARRAY_EXPR,
    SK_TABLE_OBJECT_EXPR, SK_TABLE_EMPTY_EXPR, SK_CALL_EXPR, SK_REQUIRE_CALL_EXPR,
    SK_ERROR_CALL_EXPR, SK_ASSERT_CALL_EXPR, SK_TYPE_CALL_EXPR, SK_SETMETATABLE_CALL_EXPR,
    SK_INDEX_EXPR, SK_NAME_EXPR, SK_TERNARY_EXPR, SK_SAFE_INDEX_EXPR, SK_LOCAL_NAME,
    SK_PARAM_NAME, SK_PARAM_LIST, SK_CALL_ARG_LIST, SK_TABLE_FIELD_ASSIGN, SK_TABLE_FIELD_VALUE,
    SK_ATTRIBUTE, SK_COMMENT, SK_DOC_TAG_CLASS, SK_DOC_TAG_ENUM, SK_DOC_TAG_INTERFACE,
    SK_DOC_TAG_ALIAS, SK_DOC_TAG_FIELD, SK_DOC_TAG_TYPE, SK_DOC_TAG_PARAM, SK_DOC_TAG_RETURN,
    SK_DOC_TAG_RETURN_OVERLOAD, SK_DOC_TAG_GENERIC, SK_DOC_TAG_SEE, SK_DOC_TAG_DEPRECATED,
    SK_DOC_TAG_CAST, SK_DOC_TAG_OVERLOAD, SK_DOC_TAG_ASYNC, SK_DOC_TAG_VISIBILITY,
    SK_DOC_TAG_META, SK_DOC_TAG_OTHER, SK_DOC_TAG_DIAGNOSTIC, SK_DOC_TAG_VERSION, SK_DOC_TAG_AS,
    SK_DOC_TAG_NODISCARD, SK_DOC_TAG_OPERATOR, SK_DOC_TAG_MODULE, SK_DOC_TAG_MAPPING,
    SK_DOC_TAG_NAMESPACE, SK_DOC_TAG_USING, SK_DOC_TAG_SOURCE, SK_DOC_TAG_READONLY,
    SK_DOC_TAG_RETURN_CAST, SK_DOC_TAG_LANGUAGE, SK_DOC_TAG_ATTRIBUTE_USE,
    SK_DOC_TAG_CALL_GENERIC, SK_DOC_TAG_SCHEMA, SK_TYPE_ARRAY, SK_TYPE_UNARY, SK_TYPE_BINARY,
    SK_TYPE_CONDITIONAL, SK_TYPE_FUN, SK_TYPE_GENERIC, SK_TYPE_TUPLE, SK_TYPE_OBJECT,
    SK_TYPE_LITERAL, SK_TYPE_NAME, SK_TYPE_INFER, SK_TYPE_VARIADIC, SK_TYPE_NULLABLE,
    SK_TYPE_STRING_TEMPLATE, SK_TYPE_MULTI_LINE_UNION, SK_TYPE_MATCH, SK_TYPE_INDEX_ACCESS,
    SK_TYPE_MAPPED, SK_DOC_OBJECT_FIELD, SK_DOC_CONTINUE_OR_FIELD, SK_DOC_TYPED_PARAMETER,
    SK_DOC_NAMED_RETURN_TYPE, SK_DOC_GENERIC_PARAMETER, SK_DOC_GENERIC_DECLARE_LIST,
    SK_DOC_DIAGNOSTIC_NAME_LIST, SK_DOC_TYPE_LIST, SK_DOC_TYPE_FLAG, SK_DOC_ATTRIBUTE_USE,
    SK_DOC_ATTRIBUTE_CALL_ARG_LIST, SK_DOC_OP_TYPE, SK_DOC_ENUM_FIELD_LIST, SK_DOC_MAPPED_KEY,
    SK_DOC_ENUM_FIELD, SK_DOC_ONE_LINE_FIELD, SK_DOC_DIAGNOSTIC_CODE_LIST, SK_DOC_DESCRIPTION,
    SK_DOC_VERSION,
};
use emmylua_parser::{LuaKind, LuaSyntaxKind, LuaTokenKind};

#[test]
fn raw_kind_numbers_match_the_parser() {
    assert_eq!(TK_AND, LuaKind::Token(LuaTokenKind::TkAnd).get_raw());
    assert_eq!(TK_BREAK, LuaKind::Token(LuaTokenKind::TkBreak).get_raw());
    assert_eq!(TK_DO, LuaKind::Token(LuaTokenKind::TkDo).get_raw());
    assert_eq!(TK_ELSE, LuaKind::Token(LuaTokenKind::TkElse).get_raw());
    assert_eq!(TK_ELSE_IF, LuaKind::Token(LuaTokenKind::TkElseIf).get_raw());
    assert_eq!(TK_END, LuaKind::Token(LuaTokenKind::TkEnd).get_raw());
    assert_eq!(TK_FALSE, LuaKind::Token(LuaTokenKind::TkFalse).get_raw());
    assert_eq!(TK_FOR, LuaKind::Token(LuaTokenKind::TkFor).get_raw());
    assert_eq!(TK_FUNCTION, LuaKind::Token(LuaTokenKind::TkFunction).get_raw());
    assert_eq!(TK_GOTO, LuaKind::Token(LuaTokenKind::TkGoto).get_raw());
    assert_eq!(TK_IF, LuaKind::Token(LuaTokenKind::TkIf).get_raw());
    assert_eq!(TK_IN, LuaKind::Token(LuaTokenKind::TkIn).get_raw());
    assert_eq!(TK_LOCAL, LuaKind::Token(LuaTokenKind::TkLocal).get_raw());
    assert_eq!(TK_NIL, LuaKind::Token(LuaTokenKind::TkNil).get_raw());
    assert_eq!(TK_NOT, LuaKind::Token(LuaTokenKind::TkNot).get_raw());
    assert_eq!(TK_OR, LuaKind::Token(LuaTokenKind::TkOr).get_raw());
    assert_eq!(TK_REPEAT, LuaKind::Token(LuaTokenKind::TkRepeat).get_raw());
    assert_eq!(TK_RETURN, LuaKind::Token(LuaTokenKind::TkReturn).get_raw());
    assert_eq!(TK_THEN, LuaKind::Token(LuaTokenKind::TkThen).get_raw());
    assert_eq!(TK_TRUE, LuaKind::Token(LuaTokenKind::TkTrue).get_raw());
    assert_eq!(TK_UNTIL, LuaKind::Token(LuaTokenKind::TkUntil).get_raw());
    assert_eq!(TK_WHILE, LuaKind::Token(LuaTokenKind::TkWhile).get_raw());
    assert_eq!(TK_GLOBAL, LuaKind::Token(LuaTokenKind::TkGlobal).get_raw());
    assert_eq!(TK_CONTINUE, LuaKind::Token(LuaTokenKind::TkContinue).get_raw());
    assert_eq!(TK_CONST, LuaKind::Token(LuaTokenKind::TkConst).get_raw());
    assert_eq!(TK_TOGGLE, LuaKind::Token(LuaTokenKind::TkToggle).get_raw());
    assert_eq!(TK_WHITESPACE, LuaKind::Token(LuaTokenKind::TkWhitespace).get_raw());
    assert_eq!(TK_END_OF_LINE, LuaKind::Token(LuaTokenKind::TkEndOfLine).get_raw());
    assert_eq!(TK_PLUS, LuaKind::Token(LuaTokenKind::TkPlus).get_raw());
    assert_eq!(TK_MINUS, LuaKind::Token(LuaTokenKind::TkMinus).get_raw());
    assert_eq!(TK_MUL, LuaKind::Token(LuaTokenKind::TkMul).get_raw());
    assert_eq!(TK_DIV, LuaKind::Token(LuaTokenKind::TkDiv).get_raw());
    assert_eq!(TK_I_DIV, LuaKind::Token(LuaTokenKind::TkIDiv).get_raw());
    assert_eq!(TK_DOT, LuaKind::Token(LuaTokenKind::TkDot).get_raw());
    assert_eq!(TK_CONCAT, LuaKind::Token(LuaTokenKind::TkConcat).get_raw());
    assert_eq!(TK_DOTS, LuaKind::Token(LuaTokenKind::TkDots).get_raw());
    assert_eq!(TK_COMMA, LuaKind::Token(LuaTokenKind::TkComma).get_raw());
    assert_eq!(TK_ASSIGN, LuaKind::Token(LuaTokenKind::TkAssign).get_raw());
    assert_eq!(TK_EQ, LuaKind::Token(LuaTokenKind::TkEq).get_raw());
    assert_eq!(TK_GE, LuaKind::Token(LuaTokenKind::TkGe).get_raw());
    assert_eq!(TK_LE, LuaKind::Token(LuaTokenKind::TkLe).get_raw());
    assert_eq!(TK_NE, LuaKind::Token(LuaTokenKind::TkNe).get_raw());
    assert_eq!(TK_SHL, LuaKind::Token(LuaTokenKind::TkShl).get_raw());
    assert_eq!(TK_SHR, LuaKind::Token(LuaTokenKind::TkShr).get_raw());
    assert_eq!(TK_SHR_ARITHMETIC, LuaKind::Token(LuaTokenKind::TkShrArithmetic).get_raw());
    assert_eq!(TK_LT, LuaKind::Token(LuaTokenKind::TkLt).get_raw());
    assert_eq!(TK_GT, LuaKind::Token(LuaTokenKind::TkGt).get_raw());
    assert_eq!(TK_MOD, LuaKind::Token(LuaTokenKind::TkMod).get_raw());
    assert_eq!(TK_POW, LuaKind::Token(LuaTokenKind::TkPow).get_raw());
    assert_eq!(TK_LEN, LuaKind::Token(LuaTokenKind::TkLen).get_raw());
    assert_eq!(TK_BIT_AND, LuaKind::Token(LuaTokenKind::TkBitAnd).get_raw());
    assert_eq!(TK_BIT_OR, LuaKind::Token(LuaTokenKind::TkBitOr).get_raw());
    assert_eq!(TK_BIT_XOR, LuaKind::Token(LuaTokenKind::TkBitXor).get_raw());
    assert_eq!(TK_COLON, LuaKind::Token(LuaTokenKind::TkColon).get_raw());
    assert_eq!(TK_DB_COLON, LuaKind::Token(LuaTokenKind::TkDbColon).get_raw());
    assert_eq!(TK_SEMICOLON, LuaKind::Token(LuaTokenKind::TkSemicolon).get_raw());
    assert_eq!(TK_PLUS_ASSIGN, LuaKind::Token(LuaTokenKind::TkPlusAssign).get_raw());
    assert_eq!(TK_MINUS_ASSIGN, LuaKind::Token(LuaTokenKind::TkMinusAssign).get_raw());
    assert_eq!(TK_STAR_ASSIGN, LuaKind::Token(LuaTokenKind::TkStarAssign).get_raw());
    assert_eq!(TK_SLASH_ASSIGN, LuaKind::Token(LuaTokenKind::TkSlashAssign).get_raw());
    assert_eq!(TK_PERCENT_ASSIGN, LuaKind::Token(LuaTokenKind::TkPercentAssign).get_raw());
    assert_eq!(TK_CARET_ASSIGN, LuaKind::Token(LuaTokenKind::TkCaretAssign).get_raw());
    assert_eq!(TK_DOUBLE_SLASH_ASSIGN, LuaKind::Token(LuaTokenKind::TkDoubleSlashAssign).get_raw());
    assert_eq!(TK_PIPE_ASSIGN, LuaKind::Token(LuaTokenKind::TkPipeAssign).get_raw());
    assert_eq!(TK_AMP_ASSIGN, LuaKind::Token(LuaTokenKind::TkAmpAssign).get_raw());
    assert_eq!(TK_SHIFT_LEFT_ASSIGN, LuaKind::Token(LuaTokenKind::TkShiftLeftAssign).get_raw());
    assert_eq!(TK_SHIFT_RIGHT_ASSIGN, LuaKind::Token(LuaTokenKind::TkShiftRightAssign).get_raw());
    assert_eq!(TK_SHR_ARITHMETIC_ASSIGN, LuaKind::Token(LuaTokenKind::TkShrArithmeticAssign).get_raw());
    assert_eq!(TK_CONCAT_ASSIGN, LuaKind::Token(LuaTokenKind::TkConcatAssign).get_raw());
    assert_eq!(TK_XOR_ASSIGN, LuaKind::Token(LuaTokenKind::TkXorAssign).get_raw());
    assert_eq!(TK_NIL_COALESCING, LuaKind::Token(LuaTokenKind::TkNilCoalescing).get_raw());
    assert_eq!(TK_SAFE_NAVIGATION, LuaKind::Token(LuaTokenKind::TkSafeNavigation).get_raw());
    assert_eq!(TK_TERNARY, LuaKind::Token(LuaTokenKind::TkTernary).get_raw());
    assert_eq!(TK_ARROW, LuaKind::Token(LuaTokenKind::TkArrow).get_raw());
    assert_eq!(TK_LOGICAL_OR, LuaKind::Token(LuaTokenKind::TkLogicalOr).get_raw());
    assert_eq!(TK_LOGICAL_AND, LuaKind::Token(LuaTokenKind::TkLogicalAnd).get_raw());
    assert_eq!(TK_EMPTY_SHORT_PARAM, LuaKind::Token(LuaTokenKind::TkEmptyShortParam).get_raw());
    assert_eq!(TK_LEFT_BRACKET, LuaKind::Token(LuaTokenKind::TkLeftBracket).get_raw());
    assert_eq!(TK_RIGHT_BRACKET, LuaKind::Token(LuaTokenKind::TkRightBracket).get_raw());
    assert_eq!(TK_LEFT_PAREN, LuaKind::Token(LuaTokenKind::TkLeftParen).get_raw());
    assert_eq!(TK_RIGHT_PAREN, LuaKind::Token(LuaTokenKind::TkRightParen).get_raw());
    assert_eq!(TK_LEFT_BRACE, LuaKind::Token(LuaTokenKind::TkLeftBrace).get_raw());
    assert_eq!(TK_RIGHT_BRACE, LuaKind::Token(LuaTokenKind::TkRightBrace).get_raw());
    assert_eq!(TK_COMPLEX, LuaKind::Token(LuaTokenKind::TkComplex).get_raw());
    assert_eq!(TK_INT, LuaKind::Token(LuaTokenKind::TkInt).get_raw());
    assert_eq!(TK_FLOAT, LuaKind::Token(LuaTokenKind::TkFloat).get_raw());
    assert_eq!(TK_NAME, LuaKind::Token(LuaTokenKind::TkName).get_raw());
    assert_eq!(TK_STRING, LuaKind::Token(LuaTokenKind::TkString).get_raw());
    assert_eq!(TK_LONG_STRING, LuaKind::Token(LuaTokenKind::TkLongString).get_raw());
    assert_eq!(TK_SHORT_COMMENT, LuaKind::Token(LuaTokenKind::TkShortComment).get_raw());
    assert_eq!(TK_LONG_COMMENT, LuaKind::Token(LuaTokenKind::TkLongComment).get_raw());
    assert_eq!(TK_SHEBANG, LuaKind::Token(LuaTokenKind::TkShebang).get_raw());
    assert_eq!(TK_EOF, LuaKind::Token(LuaTokenKind::TkEof).get_raw());
    assert_eq!(TK_UNKNOWN, LuaKind::Token(LuaTokenKind::TkUnknown).get_raw());
    assert_eq!(TK_NORMAL_START, LuaKind::Token(LuaTokenKind::TkNormalStart).get_raw());
    assert_eq!(TK_LONG_COMMENT_START, LuaKind::Token(LuaTokenKind::TkLongCommentStart).get_raw());
    assert_eq!(TK_DOC_LONG_START, LuaKind::Token(LuaTokenKind::TkDocLongStart).get_raw());
    assert_eq!(TK_DOC_START, LuaKind::Token(LuaTokenKind::TkDocStart).get_raw());
    assert_eq!(TK_DOC_TRIVIA_START, LuaKind::Token(LuaTokenKind::TKDocTriviaStart).get_raw());
    assert_eq!(TK_DOC_TRIVIA, LuaKind::Token(LuaTokenKind::TkDocTrivia).get_raw());
    assert_eq!(TK_LONG_COMMENT_END, LuaKind::Token(LuaTokenKind::TkLongCommentEnd).get_raw());
    assert_eq!(TK_NON_STD_COMMENT, LuaKind::Token(LuaTokenKind::TKNonStdComment).get_raw());
    assert_eq!(TK_TAG_CLASS, LuaKind::Token(LuaTokenKind::TkTagClass).get_raw());
    assert_eq!(TK_TAG_ENUM, LuaKind::Token(LuaTokenKind::TkTagEnum).get_raw());
    assert_eq!(TK_TAG_INTERFACE, LuaKind::Token(LuaTokenKind::TkTagInterface).get_raw());
    assert_eq!(TK_TAG_ALIAS, LuaKind::Token(LuaTokenKind::TkTagAlias).get_raw());
    assert_eq!(TK_TAG_MODULE, LuaKind::Token(LuaTokenKind::TkTagModule).get_raw());
    assert_eq!(TK_TAG_FIELD, LuaKind::Token(LuaTokenKind::TkTagField).get_raw());
    assert_eq!(TK_TAG_TYPE, LuaKind::Token(LuaTokenKind::TkTagType).get_raw());
    assert_eq!(TK_TAG_PARAM, LuaKind::Token(LuaTokenKind::TkTagParam).get_raw());
    assert_eq!(TK_TAG_RETURN, LuaKind::Token(LuaTokenKind::TkTagReturn).get_raw());
    assert_eq!(TK_TAG_OVERLOAD, LuaKind::Token(LuaTokenKind::TkTagOverload).get_raw());
    assert_eq!(TK_TAG_GENERIC, LuaKind::Token(LuaTokenKind::TkTagGeneric).get_raw());
    assert_eq!(TK_TAG_SEE, LuaKind::Token(LuaTokenKind::TkTagSee).get_raw());
    assert_eq!(TK_TAG_DEPRECATED, LuaKind::Token(LuaTokenKind::TkTagDeprecated).get_raw());
    assert_eq!(TK_TAG_ASYNC, LuaKind::Token(LuaTokenKind::TkTagAsync).get_raw());
    assert_eq!(TK_TAG_CAST, LuaKind::Token(LuaTokenKind::TkTagCast).get_raw());
    assert_eq!(TK_TAG_OTHER, LuaKind::Token(LuaTokenKind::TkTagOther).get_raw());
    assert_eq!(TK_TAG_VISIBILITY, LuaKind::Token(LuaTokenKind::TkTagVisibility).get_raw());
    assert_eq!(TK_TAG_READONLY, LuaKind::Token(LuaTokenKind::TkTagReadonly).get_raw());
    assert_eq!(TK_TAG_DIAGNOSTIC, LuaKind::Token(LuaTokenKind::TkTagDiagnostic).get_raw());
    assert_eq!(TK_TAG_META, LuaKind::Token(LuaTokenKind::TkTagMeta).get_raw());
    assert_eq!(TK_TAG_VERSION, LuaKind::Token(LuaTokenKind::TkTagVersion).get_raw());
    assert_eq!(TK_TAG_AS, LuaKind::Token(LuaTokenKind::TkTagAs).get_raw());
    assert_eq!(TK_TAG_NODISCARD, LuaKind::Token(LuaTokenKind::TkTagNodiscard).get_raw());
    assert_eq!(TK_TAG_OPERATOR, LuaKind::Token(LuaTokenKind::TkTagOperator).get_raw());
    assert_eq!(TK_TAG_MAPPING, LuaKind::Token(LuaTokenKind::TkTagMapping).get_raw());
    assert_eq!(TK_TAG_NAMESPACE, LuaKind::Token(LuaTokenKind::TkTagNamespace).get_raw());
    assert_eq!(TK_TAG_USING, LuaKind::Token(LuaTokenKind::TkTagUsing).get_raw());
    assert_eq!(TK_TAG_SOURCE, LuaKind::Token(LuaTokenKind::TkTagSource).get_raw());
    assert_eq!(TK_TAG_RETURN_CAST, LuaKind::Token(LuaTokenKind::TkTagReturnCast).get_raw());
    assert_eq!(TK_TAG_RETURN_OVERLOAD, LuaKind::Token(LuaTokenKind::TkTagReturnOverload).get_raw());
    assert_eq!(TK_LANGUAGE, LuaKind::Token(LuaTokenKind::TkLanguage).get_raw());
    assert_eq!(TK_TAG_SCHEMA, LuaKind::Token(LuaTokenKind::TKTagSchema).get_raw());
    assert_eq!(TK_CALL_GENERIC, LuaKind::Token(LuaTokenKind::TkCallGeneric).get_raw());
    assert_eq!(TK_DOC_OR, LuaKind::Token(LuaTokenKind::TkDocOr).get_raw());
    assert_eq!(TK_DOC_AND, LuaKind::Token(LuaTokenKind::TkDocAnd).get_raw());
    assert_eq!(TK_DOC_KEY_OF, LuaKind::Token(LuaTokenKind::TkDocKeyOf).get_raw());
    assert_eq!(TK_DOC_EXTENDS, LuaKind::Token(LuaTokenKind::TkDocExtends).get_raw());
    assert_eq!(TK_DOC_NEW, LuaKind::Token(LuaTokenKind::TkDocNew).get_raw());
    assert_eq!(TK_DOC_AS, LuaKind::Token(LuaTokenKind::TkDocAs).get_raw());
    assert_eq!(TK_DOC_IN, LuaKind::Token(LuaTokenKind::TkDocIn).get_raw());
    assert_eq!(TK_DOC_INFER, LuaKind::Token(LuaTokenKind::TkDocInfer).get_raw());
    assert_eq!(TK_DOC_CONST, LuaKind::Token(LuaTokenKind::TkDocConst).get_raw());
    assert_eq!(TK_DOC_ELSE, LuaKind::Token(LuaTokenKind::TkDocElse).get_raw());
    assert_eq!(TK_DOC_CONTINUE, LuaKind::Token(LuaTokenKind::TkDocContinue).get_raw());
    assert_eq!(TK_DOC_CONTINUE_OR, LuaKind::Token(LuaTokenKind::TkDocContinueOr).get_raw());
    assert_eq!(TK_DOC_DETAIL, LuaKind::Token(LuaTokenKind::TkDocDetail).get_raw());
    assert_eq!(TK_DOC_QUESTION, LuaKind::Token(LuaTokenKind::TkDocQuestion).get_raw());
    assert_eq!(TK_DOC_VISIBILITY, LuaKind::Token(LuaTokenKind::TkDocVisibility).get_raw());
    assert_eq!(TK_DOC_READONLY, LuaKind::Token(LuaTokenKind::TkDocReadonly).get_raw());
    assert_eq!(TK_AT, LuaKind::Token(LuaTokenKind::TkAt).get_raw());
    assert_eq!(TK_DOC_VERSION_NUMBER, LuaKind::Token(LuaTokenKind::TkDocVersionNumber).get_raw());
    assert_eq!(TK_STRING_TEMPLATE_TYPE, LuaKind::Token(LuaTokenKind::TkStringTemplateType).get_raw());
    assert_eq!(TK_DOC_MATCH, LuaKind::Token(LuaTokenKind::TkDocMatch).get_raw());
    assert_eq!(TK_DOC_PATH, LuaKind::Token(LuaTokenKind::TKDocPath).get_raw());
    assert_eq!(TK_DOC_REGION, LuaKind::Token(LuaTokenKind::TkDocRegion).get_raw());
    assert_eq!(TK_DOC_END_REGION, LuaKind::Token(LuaTokenKind::TkDocEndRegion).get_raw());
    assert_eq!(TK_DOC_SEE_CONTENT, LuaKind::Token(LuaTokenKind::TkDocSeeContent).get_raw());
    assert_eq!(TK_DOC_ATTRIBUTE_USE, LuaKind::Token(LuaTokenKind::TkDocAttributeUse).get_raw());
    assert_eq!(SK_NONE, LuaKind::Syntax(LuaSyntaxKind::None).get_raw());
    assert_eq!(SK_CHUNK, LuaKind::Syntax(LuaSyntaxKind::Chunk).get_raw());
    assert_eq!(SK_BLOCK, LuaKind::Syntax(LuaSyntaxKind::Block).get_raw());
    assert_eq!(SK_EMPTY_STAT, LuaKind::Syntax(LuaSyntaxKind::EmptyStat).get_raw());
    assert_eq!(SK_LOCAL_STAT, LuaKind::Syntax(LuaSyntaxKind::LocalStat).get_raw());
    assert_eq!(SK_LOCAL_FUNC_STAT, LuaKind::Syntax(LuaSyntaxKind::LocalFuncStat).get_raw());
    assert_eq!(SK_IF_STAT, LuaKind::Syntax(LuaSyntaxKind::IfStat).get_raw());
    assert_eq!(SK_ELSE_IF_CLAUSE_STAT, LuaKind::Syntax(LuaSyntaxKind::ElseIfClauseStat).get_raw());
    assert_eq!(SK_ELSE_CLAUSE_STAT, LuaKind::Syntax(LuaSyntaxKind::ElseClauseStat).get_raw());
    assert_eq!(SK_WHILE_STAT, LuaKind::Syntax(LuaSyntaxKind::WhileStat).get_raw());
    assert_eq!(SK_DO_STAT, LuaKind::Syntax(LuaSyntaxKind::DoStat).get_raw());
    assert_eq!(SK_FOR_STAT, LuaKind::Syntax(LuaSyntaxKind::ForStat).get_raw());
    assert_eq!(SK_FOR_RANGE_STAT, LuaKind::Syntax(LuaSyntaxKind::ForRangeStat).get_raw());
    assert_eq!(SK_REPEAT_STAT, LuaKind::Syntax(LuaSyntaxKind::RepeatStat).get_raw());
    assert_eq!(SK_FUNC_STAT, LuaKind::Syntax(LuaSyntaxKind::FuncStat).get_raw());
    assert_eq!(SK_LABEL_STAT, LuaKind::Syntax(LuaSyntaxKind::LabelStat).get_raw());
    assert_eq!(SK_BREAK_STAT, LuaKind::Syntax(LuaSyntaxKind::BreakStat).get_raw());
    assert_eq!(SK_CONTINUE_STAT, LuaKind::Syntax(LuaSyntaxKind::ContinueStat).get_raw());
    assert_eq!(SK_CONST_STAT, LuaKind::Syntax(LuaSyntaxKind::ConstStat).get_raw());
    assert_eq!(SK_RETURN_STAT, LuaKind::Syntax(LuaSyntaxKind::ReturnStat).get_raw());
    assert_eq!(SK_GOTO_STAT, LuaKind::Syntax(LuaSyntaxKind::GotoStat).get_raw());
    assert_eq!(SK_CALL_EXPR_STAT, LuaKind::Syntax(LuaSyntaxKind::CallExprStat).get_raw());
    assert_eq!(SK_ASSIGN_STAT, LuaKind::Syntax(LuaSyntaxKind::AssignStat).get_raw());
    assert_eq!(SK_GLOBAL_STAT, LuaKind::Syntax(LuaSyntaxKind::GlobalStat).get_raw());
    assert_eq!(SK_UNKNOWN_STAT, LuaKind::Syntax(LuaSyntaxKind::UnknownStat).get_raw());
    assert_eq!(SK_PAREN_EXPR, LuaKind::Syntax(LuaSyntaxKind::ParenExpr).get_raw());
    assert_eq!(SK_LITERAL_EXPR, LuaKind::Syntax(LuaSyntaxKind::LiteralExpr).get_raw());
    assert_eq!(SK_CLOSURE_EXPR, LuaKind::Syntax(LuaSyntaxKind::ClosureExpr).get_raw());
    assert_eq!(SK_UNARY_EXPR, LuaKind::Syntax(LuaSyntaxKind::UnaryExpr).get_raw());
    assert_eq!(SK_BINARY_EXPR, LuaKind::Syntax(LuaSyntaxKind::BinaryExpr).get_raw());
    assert_eq!(SK_TABLE_ARRAY_EXPR, LuaKind::Syntax(LuaSyntaxKind::TableArrayExpr).get_raw());
    assert_eq!(SK_TABLE_OBJECT_EXPR, LuaKind::Syntax(LuaSyntaxKind::TableObjectExpr).get_raw());
    assert_eq!(SK_TABLE_EMPTY_EXPR, LuaKind::Syntax(LuaSyntaxKind::TableEmptyExpr).get_raw());
    assert_eq!(SK_CALL_EXPR, LuaKind::Syntax(LuaSyntaxKind::CallExpr).get_raw());
    assert_eq!(SK_REQUIRE_CALL_EXPR, LuaKind::Syntax(LuaSyntaxKind::RequireCallExpr).get_raw());
    assert_eq!(SK_ERROR_CALL_EXPR, LuaKind::Syntax(LuaSyntaxKind::ErrorCallExpr).get_raw());
    assert_eq!(SK_ASSERT_CALL_EXPR, LuaKind::Syntax(LuaSyntaxKind::AssertCallExpr).get_raw());
    assert_eq!(SK_TYPE_CALL_EXPR, LuaKind::Syntax(LuaSyntaxKind::TypeCallExpr).get_raw());
    assert_eq!(SK_SETMETATABLE_CALL_EXPR, LuaKind::Syntax(LuaSyntaxKind::SetmetatableCallExpr).get_raw());
    assert_eq!(SK_INDEX_EXPR, LuaKind::Syntax(LuaSyntaxKind::IndexExpr).get_raw());
    assert_eq!(SK_NAME_EXPR, LuaKind::Syntax(LuaSyntaxKind::NameExpr).get_raw());
    assert_eq!(SK_TERNARY_EXPR, LuaKind::Syntax(LuaSyntaxKind::TernaryExpr).get_raw());
    assert_eq!(SK_SAFE_INDEX_EXPR, LuaKind::Syntax(LuaSyntaxKind::SafeIndexExpr).get_raw());
    assert_eq!(SK_LOCAL_NAME, LuaKind::Syntax(LuaSyntaxKind::LocalName).get_raw());
    assert_eq!(SK_PARAM_NAME, LuaKind::Syntax(LuaSyntaxKind::ParamName).get_raw());
    assert_eq!(SK_PARAM_LIST, LuaKind::Syntax(LuaSyntaxKind::ParamList).get_raw());
    assert_eq!(SK_CALL_ARG_LIST, LuaKind::Syntax(LuaSyntaxKind::CallArgList).get_raw());
    assert_eq!(SK_TABLE_FIELD_ASSIGN, LuaKind::Syntax(LuaSyntaxKind::TableFieldAssign).get_raw());
    assert_eq!(SK_TABLE_FIELD_VALUE, LuaKind::Syntax(LuaSyntaxKind::TableFieldValue).get_raw());
    assert_eq!(SK_ATTRIBUTE, LuaKind::Syntax(LuaSyntaxKind::Attribute).get_raw());
    assert_eq!(SK_COMMENT, LuaKind::Syntax(LuaSyntaxKind::Comment).get_raw());
    assert_eq!(SK_DOC_TAG_CLASS, LuaKind::Syntax(LuaSyntaxKind::DocTagClass).get_raw());
    assert_eq!(SK_DOC_TAG_ENUM, LuaKind::Syntax(LuaSyntaxKind::DocTagEnum).get_raw());
    assert_eq!(SK_DOC_TAG_INTERFACE, LuaKind::Syntax(LuaSyntaxKind::DocTagInterface).get_raw());
    assert_eq!(SK_DOC_TAG_ALIAS, LuaKind::Syntax(LuaSyntaxKind::DocTagAlias).get_raw());
    assert_eq!(SK_DOC_TAG_FIELD, LuaKind::Syntax(LuaSyntaxKind::DocTagField).get_raw());
    assert_eq!(SK_DOC_TAG_TYPE, LuaKind::Syntax(LuaSyntaxKind::DocTagType).get_raw());
    assert_eq!(SK_DOC_TAG_PARAM, LuaKind::Syntax(LuaSyntaxKind::DocTagParam).get_raw());
    assert_eq!(SK_DOC_TAG_RETURN, LuaKind::Syntax(LuaSyntaxKind::DocTagReturn).get_raw());
    assert_eq!(SK_DOC_TAG_RETURN_OVERLOAD, LuaKind::Syntax(LuaSyntaxKind::DocTagReturnOverload).get_raw());
    assert_eq!(SK_DOC_TAG_GENERIC, LuaKind::Syntax(LuaSyntaxKind::DocTagGeneric).get_raw());
    assert_eq!(SK_DOC_TAG_SEE, LuaKind::Syntax(LuaSyntaxKind::DocTagSee).get_raw());
    assert_eq!(SK_DOC_TAG_DEPRECATED, LuaKind::Syntax(LuaSyntaxKind::DocTagDeprecated).get_raw());
    assert_eq!(SK_DOC_TAG_CAST, LuaKind::Syntax(LuaSyntaxKind::DocTagCast).get_raw());
    assert_eq!(SK_DOC_TAG_OVERLOAD, LuaKind::Syntax(LuaSyntaxKind::DocTagOverload).get_raw());
    assert_eq!(SK_DOC_TAG_ASYNC, LuaKind::Syntax(LuaSyntaxKind::DocTagAsync).get_raw());
    assert_eq!(SK_DOC_TAG_VISIBILITY, LuaKind::Syntax(LuaSyntaxKind::DocTagVisibility).get_raw());
    assert_eq!(SK_DOC_TAG_META, LuaKind::Syntax(LuaSyntaxKind::DocTagMeta).get_raw());
    assert_eq!(SK_DOC_TAG_OTHER, LuaKind::Syntax(LuaSyntaxKind::DocTagOther).get_raw());
    assert_eq!(SK_DOC_TAG_DIAGNOSTIC, LuaKind::Syntax(LuaSyntaxKind::DocTagDiagnostic).get_raw());
    assert_eq!(SK_DOC_TAG_VERSION, LuaKind::Syntax(LuaSyntaxKind::DocTagVersion).get_raw());
    assert_eq!(SK_DOC_TAG_AS, LuaKind::Syntax(LuaSyntaxKind::DocTagAs).get_raw());
    assert_eq!(SK_DOC_TAG_NODISCARD, LuaKind::Syntax(LuaSyntaxKind::DocTagNodiscard).get_raw());
    assert_eq!(SK_DOC_TAG_OPERATOR, LuaKind::Syntax(LuaSyntaxKind::DocTagOperator).get_raw());
    assert_eq!(SK_DOC_TAG_MODULE, LuaKind::Syntax(LuaSyntaxKind::DocTagModule).get_raw());
    assert_eq!(SK_DOC_TAG_MAPPING, LuaKind::Syntax(LuaSyntaxKind::DocTagMapping).get_raw());
    assert_eq!(SK_DOC_TAG_NAMESPACE, LuaKind::Syntax(LuaSyntaxKind::DocTagNamespace).get_raw());
    assert_eq!(SK_DOC_TAG_USING, LuaKind::Syntax(LuaSyntaxKind::DocTagUsing).get_raw());
    assert_eq!(SK_DOC_TAG_SOURCE, LuaKind::Syntax(LuaSyntaxKind::DocTagSource).get_raw());
    assert_eq!(SK_DOC_TAG_READONLY, LuaKind::Syntax(LuaSyntaxKind::DocTagReadonly).get_raw());
    assert_eq!(SK_DOC_TAG_RETURN_CAST, LuaKind::Syntax(LuaSyntaxKind::DocTagReturnCast).get_raw());
    assert_eq!(SK_DOC_TAG_LANGUAGE, LuaKind::Syntax(LuaSyntaxKind::DocTagLanguage).get_raw());
    assert_eq!(SK_DOC_TAG_ATTRIBUTE_USE, LuaKind::Syntax(LuaSyntaxKind::DocTagAttributeUse).get_raw());
    assert_eq!(SK_DOC_TAG_CALL_GENERIC, LuaKind::Syntax(LuaSyntaxKind::DocTagCallGeneric).get_raw());
    assert_eq!(SK_DOC_TAG_SCHEMA, LuaKind::Syntax(LuaSyntaxKind::DocTagSchema).get_raw());
    assert_eq!(SK_TYPE_ARRAY, LuaKind::Syntax(LuaSyntaxKind::TypeArray).get_raw());
    assert_eq!(SK_TYPE_UNARY, LuaKind::Syntax(LuaSyntaxKind::TypeUnary).get_raw());
    assert_eq!(SK_TYPE_BINARY, LuaKind::Syntax(LuaSyntaxKind::TypeBinary).get_raw());
    assert_eq!(SK_TYPE_CONDITIONAL, LuaKind::Syntax(LuaSyntaxKind::TypeConditional).get_raw());
    assert_eq!(SK_TYPE_FUN, LuaKind::Syntax(LuaSyntaxKind::TypeFun).get_raw());
    assert_eq!(SK_TYPE_GENERIC, LuaKind::Syntax(LuaSyntaxKind::TypeGeneric).get_raw());
    assert_eq!(SK_TYPE_TUPLE, LuaKind::Syntax(LuaSyntaxKind::TypeTuple).get_raw());
    assert_eq!(SK_TYPE_OBJECT, LuaKind::Syntax(LuaSyntaxKind::TypeObject).get_raw());
    assert_eq!(SK_TYPE_LITERAL, LuaKind::Syntax(LuaSyntaxKind::TypeLiteral).get_raw());
    assert_eq!(SK_TYPE_NAME, LuaKind::Syntax(LuaSyntaxKind::TypeName).get_raw());
    assert_eq!(SK_TYPE_INFER, LuaKind::Syntax(LuaSyntaxKind::TypeInfer).get_raw());
    assert_eq!(SK_TYPE_VARIADIC, LuaKind::Syntax(LuaSyntaxKind::TypeVariadic).get_raw());
    assert_eq!(SK_TYPE_NULLABLE, LuaKind::Syntax(LuaSyntaxKind::TypeNullable).get_raw());
    assert_eq!(SK_TYPE_STRING_TEMPLATE, LuaKind::Syntax(LuaSyntaxKind::TypeStringTemplate).get_raw());
    assert_eq!(SK_TYPE_MULTI_LINE_UNION, LuaKind::Syntax(LuaSyntaxKind::TypeMultiLineUnion).get_raw());
    assert_eq!(SK_TYPE_MATCH, LuaKind::Syntax(LuaSyntaxKind::TypeMatch).get_raw());
    assert_eq!(SK_TYPE_INDEX_ACCESS, LuaKind::Syntax(LuaSyntaxKind::TypeIndexAccess).get_raw());
    assert_eq!(SK_TYPE_MAPPED, LuaKind::Syntax(LuaSyntaxKind::TypeMapped).get_raw());
    assert_eq!(SK_DOC_OBJECT_FIELD, LuaKind::Syntax(LuaSyntaxKind::DocObjectField).get_raw());
    assert_eq!(SK_DOC_CONTINUE_OR_FIELD, LuaKind::Syntax(LuaSyntaxKind::DocContinueOrField).get_raw());
    assert_eq!(SK_DOC_TYPED_PARAMETER, LuaKind::Syntax(LuaSyntaxKind::DocTypedParameter).get_raw());
    assert_eq!(SK_DOC_NAMED_RETURN_TYPE, LuaKind::Syntax(LuaSyntaxKind::DocNamedReturnType).get_raw());
    assert_eq!(SK_DOC_GENERIC_PARAMETER, LuaKind::Syntax(LuaSyntaxKind::DocGenericParameter).get_raw());
    assert_eq!(SK_DOC_GENERIC_DECLARE_LIST, LuaKind::Syntax(LuaSyntaxKind::DocGenericDeclareList).get_raw());
    assert_eq!(SK_DOC_DIAGNOSTIC_NAME_LIST, LuaKind::Syntax(LuaSyntaxKind::DocDiagnosticNameList).get_raw());
    assert_eq!(SK_DOC_TYPE_LIST, LuaKind::Syntax(LuaSyntaxKind::DocTypeList).get_raw());
    assert_eq!(SK_DOC_TYPE_FLAG, LuaKind::Syntax(LuaSyntaxKind::DocTypeFlag).get_raw());
    assert_eq!(SK_DOC_ATTRIBUTE_USE, LuaKind::Syntax(LuaSyntaxKind::DocAttributeUse).get_raw());
    assert_eq!(SK_DOC_ATTRIBUTE_CALL_ARG_LIST, LuaKind::Syntax(LuaSyntaxKind::DocAttributeCallArgList).get_raw());
    assert_eq!(SK_DOC_OP_TYPE, LuaKind::Syntax(LuaSyntaxKind::DocOpType).get_raw());
    assert_eq!(SK_DOC_ENUM_FIELD_LIST, LuaKind::Syntax(LuaSyntaxKind::DocEnumFieldList).get_raw());
    assert_eq!(SK_DOC_MAPPED_KEY, LuaKind::Syntax(LuaSyntaxKind::DocMappedKey).get_raw());
    assert_eq!(SK_DOC_ENUM_FIELD, LuaKind::Syntax(LuaSyntaxKind::DocEnumField).get_raw());
    assert_eq!(SK_DOC_ONE_LINE_FIELD, LuaKind::Syntax(LuaSyntaxKind::DocOneLineField).get_raw());
    assert_eq!(SK_DOC_DIAGNOSTIC_CODE_LIST, LuaKind::Syntax(LuaSyntaxKind::DocDiagnosticCodeList).get_raw());
    assert_eq!(SK_DOC_DESCRIPTION, LuaKind::Syntax(LuaSyntaxKind::DocDescription).get_raw());
    assert_eq!(SK_DOC_VERSION, LuaKind::Syntax(LuaSyntaxKind::DocVersion).get_raw());
}
