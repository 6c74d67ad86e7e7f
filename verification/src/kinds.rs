//! The raw kind numbers that the parser gives tokens and nodes.
//!
//! A token kind is its position in the parser's token-kind list; a node kind is its position
//! in the node-kind list with the high bit set.

use vstd::prelude::*;

verus! {

pub const TK_NONE: u16 = 0;
pub const TK_AND: u16 = 1;
pub const TK_BREAK: u16 = 2;
pub const TK_DO: u16 = 3;
pub const TK_ELSE: u16 = 4;
pub const TK_ELSE_IF: u16 = 5;
pub const TK_END: u16 = 6;
pub const TK_FALSE: u16 = 7;
pub const TK_FOR: u16 = 8;
pub const TK_FUNCTION: u16 = 9;
pub const TK_GOTO: u16 = 10;
pub const TK_IF: u16 = 11;
pub const TK_IN: u16 = 12;
pub const TK_LOCAL: u16 = 13;
pub const TK_NIL: u16 = 14;
pub const TK_NOT: u16 = 15;
pub const TK_OR: u16 = 16;
pub const TK_REPEAT: u16 = 17;
pub const TK_RETURN: u16 = 18;
pub const TK_THEN: u16 = 19;
pub const TK_TRUE: u16 = 20;
pub const TK_UNTIL: u16 = 21;
pub const TK_WHILE: u16 = 22;
pub const TK_GLOBAL: u16 = 23;
pub const TK_CONTINUE: u16 = 24;
pub const TK_CONST: u16 = 25;
pub const TK_TOGGLE: u16 = 26;
pub const TK_WHITESPACE: u16 = 27;
pub const TK_END_OF_LINE: u16 = 28;
pub const TK_PLUS: u16 = 29;
pub const TK_MINUS: u16 = 30;
pub const TK_MUL: u16 = 31;
pub const TK_DIV: u16 = 32;
pub const TK_I_DIV: u16 = 33;
pub const TK_DOT: u16 = 34;
pub const TK_CONCAT: u16 = 35;
pub const TK_DOTS: u16 = 36;
pub const TK_COMMA: u16 = 37;
pub const TK_ASSIGN: u16 = 38;
pub const TK_EQ: u16 = 39;
pub const TK_GE: u16 = 40;
pub const TK_LE: u16 = 41;
pub const TK_NE: u16 = 42;
pub const TK_SHL: u16 = 43;
pub const TK_SHR: u16 = 44;
pub const TK_SHR_ARITHMETIC: u16 = 45;
pub const TK_LT: u16 = 46;
pub const TK_GT: u16 = 47;
pub const TK_MOD: u16 = 48;
pub const TK_POW: u16 = 49;
pub const TK_LEN: u16 = 50;
pub const TK_BIT_AND: u16 = 51;
pub const TK_BIT_OR: u16 = 52;
pub const TK_BIT_XOR: u16 = 53;
pub const TK_COLON: u16 = 54;
pub const TK_DB_COLON: u16 = 55;
pub const TK_SEMICOLON: u16 = 56;
pub const TK_PLUS_ASSIGN: u16 = 57;
pub const TK_MINUS_ASSIGN: u16 = 58;
pub const TK_STAR_ASSIGN: u16 = 59;
pub const TK_SLASH_ASSIGN: u16 = 60;
pub const TK_PERCENT_ASSIGN: u16 = 61;
pub const TK_CARET_ASSIGN: u16 = 62;
pub const TK_DOUBLE_SLASH_ASSIGN: u16 = 63;
pub const TK_PIPE_ASSIGN: u16 = 64;
pub const TK_AMP_ASSIGN: u16 = 65;
pub const TK_SHIFT_LEFT_ASSIGN: u16 = 66;
pub const TK_SHIFT_RIGHT_ASSIGN: u16 = 67;
pub const TK_SHR_ARITHMETIC_ASSIGN: u16 = 68;
pub const TK_CONCAT_ASSIGN: u16 = 69;
pub const TK_XOR_ASSIGN: u16 = 70;
pub const TK_NIL_COALESCING: u16 = 71;
pub const TK_SAFE_NAVIGATION: u16 = 72;
pub const TK_TERNARY: u16 = 73;
pub const TK_ARROW: u16 = 74;
pub const TK_LOGICAL_OR: u16 = 75;
pub const TK_LOGICAL_AND: u16 = 76;
pub const TK_EMPTY_SHORT_PARAM: u16 = 77;
pub const TK_LEFT_BRACKET: u16 = 78;
pub const TK_RIGHT_BRACKET: u16 = 79;
pub const TK_LEFT_PAREN: u16 = 80;
pub const TK_RIGHT_PAREN: u16 = 81;
pub const TK_LEFT_BRACE: u16 = 82;
pub const TK_RIGHT_BRACE: u16 = 83;
pub const TK_COMPLEX: u16 = 84;
pub const TK_INT: u16 = 85;
pub const TK_FLOAT: u16 = 86;
pub const TK_NAME: u16 = 87;
pub const TK_STRING: u16 = 88;
pub const TK_LONG_STRING: u16 = 89;
pub const TK_SHORT_COMMENT: u16 = 90;
pub const TK_LONG_COMMENT: u16 = 91;
pub const TK_SHEBANG: u16 = 92;
pub const TK_EOF: u16 = 93;
pub const TK_UNKNOWN: u16 = 94;
pub const TK_NORMAL_START: u16 = 95;
pub const TK_LONG_COMMENT_START: u16 = 96;
pub const TK_DOC_LONG_START: u16 = 97;
pub const TK_DOC_START: u16 = 98;
pub const TK_DOC_TRIVIA_START: u16 = 99;
pub const TK_DOC_TRIVIA: u16 = 100;
pub const TK_LONG_COMMENT_END: u16 = 101;
pub const TK_NON_STD_COMMENT: u16 = 102;
pub const TK_TAG_CLASS: u16 = 103;
pub const TK_TAG_ENUM: u16 = 104;
pub const TK_TAG_INTERFACE: u16 = 105;
pub const TK_TAG_ALIAS: u16 = 106;
pub const TK_TAG_MODULE: u16 = 107;
pub const TK_TAG_FIELD: u16 = 108;
pub const TK_TAG_TYPE: u16 = 109;
pub const TK_TAG_PARAM: u16 = 110;
pub const TK_TAG_RETURN: u16 = 111;
pub const TK_TAG_OVERLOAD: u16 = 112;
pub const TK_TAG_GENERIC: u16 = 113;
pub const TK_TAG_SEE: u16 = 114;
pub const TK_TAG_DEPRECATED: u16 = 115;
pub const TK_TAG_ASYNC: u16 = 116;
pub const TK_TAG_CAST: u16 = 117;
pub const TK_TAG_OTHER: u16 = 118;
pub const TK_TAG_VISIBILITY: u16 = 119;
pub const TK_TAG_READONLY: u16 = 120;
pub const TK_TAG_DIAGNOSTIC: u16 = 121;
pub const TK_TAG_META: u16 = 122;
pub const TK_TAG_VERSION: u16 = 123;
pub const TK_TAG_AS: u16 = 124;
pub const TK_TAG_NODISCARD: u16 = 125;
pub const TK_TAG_OPERATOR: u16 = 126;
pub const TK_TAG_MAPPING: u16 = 127;
pub const TK_TAG_NAMESPACE: u16 = 128;
pub const TK_TAG_USING: u16 = 129;
pub const TK_TAG_SOURCE: u16 = 130;
pub const TK_TAG_RETURN_CAST: u16 = 131;
pub const TK_TAG_RETURN_OVERLOAD: u16 = 132;
pub const TK_LANGUAGE: u16 = 133;
pub const TK_TAG_SCHEMA: u16 = 134;
pub const TK_CALL_GENERIC: u16 = 135;
pub const TK_DOC_OR: u16 = 136;
pub const TK_DOC_AND: u16 = 137;
pub const TK_DOC_KEY_OF: u16 = 138;
pub const TK_DOC_EXTENDS: u16 = 139;
pub const TK_DOC_NEW: u16 = 140;
pub const TK_DOC_AS: u16 = 141;
pub const TK_DOC_IN: u16 = 142;
pub const TK_DOC_INFER: u16 = 143;
pub const TK_DOC_CONST: u16 = 144;
pub const TK_DOC_ELSE: u16 = 145;
pub const TK_DOC_CONTINUE: u16 = 146;
pub const TK_DOC_CONTINUE_OR: u16 = 147;
pub const TK_DOC_DETAIL: u16 = 148;
pub const TK_DOC_QUESTION: u16 = 149;
pub const TK_DOC_VISIBILITY: u16 = 150;
pub const TK_DOC_READONLY: u16 = 151;
pub const TK_AT: u16 = 152;
pub const TK_DOC_VERSION_NUMBER: u16 = 153;
pub const TK_STRING_TEMPLATE_TYPE: u16 = 154;
pub const TK_DOC_MATCH: u16 = 155;
pub const TK_DOC_PATH: u16 = 156;
pub const TK_DOC_REGION: u16 = 157;
pub const TK_DOC_END_REGION: u16 = 158;
pub const TK_DOC_SEE_CONTENT: u16 = 159;
pub const TK_DOC_ATTRIBUTE_USE: u16 = 160;
pub const SK_NONE: u16 = 32768;
pub const SK_CHUNK: u16 = 32769;
pub const SK_BLOCK: u16 = 32770;
pub const SK_EMPTY_STAT: u16 = 32771;
pub const SK_LOCAL_STAT: u16 = 32772;
pub const SK_LOCAL_FUNC_STAT: u16 = 32773;
pub const SK_IF_STAT: u16 = 32774;
pub const SK_ELSE_IF_CLAUSE_STAT: u16 = 32775;
pub const SK_ELSE_CLAUSE_STAT: u16 = 32776;
pub const SK_WHILE_STAT: u16 = 32777;
pub const SK_DO_STAT: u16 = 32778;
pub const SK_FOR_STAT: u16 = 32779;
pub const SK_FOR_RANGE_STAT: u16 = 32780;
pub const SK_REPEAT_STAT: u16 = 32781;
pub const SK_FUNC_STAT: u16 = 32782;
pub const SK_LABEL_STAT: u16 = 32783;
pub const SK_BREAK_STAT: u16 = 32784;
pub const SK_CONTINUE_STAT: u16 = 32785;
pub const SK_CONST_STAT: u16 = 32786;
pub const SK_RETURN_STAT: u16 = 32787;
pub const SK_GOTO_STAT: u16 = 32788;
pub const SK_CALL_EXPR_STAT: u16 = 32789;
pub const SK_ASSIGN_STAT: u16 = 32790;
pub const SK_GLOBAL_STAT: u16 = 32791;
pub const SK_UNKNOWN_STAT: u16 = 32792;
pub const SK_PAREN_EXPR: u16 = 32793;
pub const SK_LITERAL_EXPR: u16 = 32794;
pub const SK_CLOSURE_EXPR: u16 = 32795;
pub const SK_UNARY_EXPR: u16 = 32796;
pub const SK_BINARY_EXPR: u16 = 32797;
pub const SK_TABLE_ARRAY_EXPR: u16 = 32798;
pub const SK_TABLE_OBJECT_EXPR: u16 = 32799;
pub const SK_TABLE_EMPTY_EXPR: u16 = 32800;
pub const SK_CALL_EXPR: u16 = 32801;
pub const SK_REQUIRE_CALL_EXPR: u16 = 32802;
pub const SK_ERROR_CALL_EXPR: u16 = 32803;
pub const SK_ASSERT_CALL_EXPR: u16 = 32804;
pub const SK_TYPE_CALL_EXPR: u16 = 32805;
pub const SK_SETMETATABLE_CALL_EXPR: u16 = 32806;
pub const SK_INDEX_EXPR: u16 = 32807;
pub const SK_NAME_EXPR: u16 = 32808;
pub const SK_TERNARY_EXPR: u16 = 32809;
pub const SK_SAFE_INDEX_EXPR: u16 = 32810;
pub const SK_LOCAL_NAME: u16 = 32811;
pub const SK_PARAM_NAME: u16 = 32812;
pub const SK_PARAM_LIST: u16 = 32813;
pub const SK_CALL_ARG_LIST: u16 = 32814;
pub const SK_TABLE_FIELD_ASSIGN: u16 = 32815;
pub const SK_TABLE_FIELD_VALUE: u16 = 32816;
pub const SK_ATTRIBUTE: u16 = 32817;
pub const SK_COMMENT: u16 = 32818;
pub const SK_DOC_TAG_CLASS: u16 = 32819;
pub const SK_DOC_TAG_ENUM: u16 = 32820;
pub const SK_DOC_TAG_INTERFACE: u16 = 32821;
pub const SK_DOC_TAG_ALIAS: u16 = 32822;
pub const SK_DOC_TAG_FIELD: u16 = 32823;
pub const SK_DOC_TAG_TYPE: u16 = 32824;
pub const SK_DOC_TAG_PARAM: u16 = 32825;
pub const SK_DOC_TAG_RETURN: u16 = 32826;
pub const SK_DOC_TAG_RETURN_OVERLOAD: u16 = 32827;
pub const SK_DOC_TAG_GENERIC: u16 = 32828;
pub const SK_DOC_TAG_SEE: u16 = 32829;
pub const SK_DOC_TAG_DEPRECATED: u16 = 32830;
pub const SK_DOC_TAG_CAST: u16 = 32831;
pub const SK_DOC_TAG_OVERLOAD: u16 = 32832;
pub const SK_DOC_TAG_ASYNC: u16 = 32833;
pub const SK_DOC_TAG_VISIBILITY: u16 = 32834;
pub const SK_DOC_TAG_META: u16 = 32835;
pub const SK_DOC_TAG_OTHER: u16 = 32836;
pub const SK_DOC_TAG_DIAGNOSTIC: u16 = 32837;
pub const SK_DOC_TAG_VERSION: u16 = 32838;
pub const SK_DOC_TAG_AS: u16 = 32839;
pub const SK_DOC_TAG_NODISCARD: u16 = 32840;
pub const SK_DOC_TAG_OPERATOR: u16 = 32841;
pub const SK_DOC_TAG_MODULE: u16 = 32842;
pub const SK_DOC_TAG_MAPPING: u16 = 32843;
pub const SK_DOC_TAG_NAMESPACE: u16 = 32844;
pub const SK_DOC_TAG_USING: u16 = 32845;
pub const SK_DOC_TAG_SOURCE: u16 = 32846;
pub const SK_DOC_TAG_READONLY: u16 = 32847;
pub const SK_DOC_TAG_RETURN_CAST: u16 = 32848;
pub const SK_DOC_TAG_LANGUAGE: u16 = 32849;
pub const SK_DOC_TAG_ATTRIBUTE_USE: u16 = 32850;
pub const SK_DOC_TAG_CALL_GENERIC: u16 = 32851;
pub const SK_DOC_TAG_SCHEMA: u16 = 32852;
pub const SK_TYPE_ARRAY: u16 = 32853;
pub const SK_TYPE_UNARY: u16 = 32854;
pub const SK_TYPE_BINARY: u16 = 32855;
pub const SK_TYPE_CONDITIONAL: u16 = 32856;
pub const SK_TYPE_FUN: u16 = 32857;
pub const SK_TYPE_GENERIC: u16 = 32858;
pub const SK_TYPE_TUPLE: u16 = 32859;
pub const SK_TYPE_OBJECT: u16 = 32860;
pub const SK_TYPE_LITERAL: u16 = 32861;
pub const SK_TYPE_NAME: u16 = 32862;
pub const SK_TYPE_INFER: u16 = 32863;
pub const SK_TYPE_VARIADIC: u16 = 32864;
pub const SK_TYPE_NULLABLE: u16 = 32865;
pub const SK_TYPE_STRING_TEMPLATE: u16 = 32866;
pub const SK_TYPE_MULTI_LINE_UNION: u16 = 32867;
pub const SK_TYPE_MATCH: u16 = 32868;
pub const SK_TYPE_INDEX_ACCESS: u16 = 32869;
pub const SK_TYPE_MAPPED: u16 = 32870;
pub const SK_DOC_OBJECT_FIELD: u16 = 32871;
pub const SK_DOC_CONTINUE_OR_FIELD: u16 = 32872;
pub const SK_DOC_TYPED_PARAMETER: u16 = 32873;
pub const SK_DOC_NAMED_RETURN_TYPE: u16 = 32874;
pub const SK_DOC_GENERIC_PARAMETER: u16 = 32875;
pub const SK_DOC_GENERIC_DECLARE_LIST: u16 = 32876;
pub const SK_DOC_DIAGNOSTIC_NAME_LIST: u16 = 32877;
pub const SK_DOC_TYPE_LIST: u16 = 32878;
pub const SK_DOC_TYPE_FLAG: u16 = 32879;
pub const SK_DOC_ATTRIBUTE_USE: u16 = 32880;
pub const SK_DOC_ATTRIBUTE_CALL_ARG_LIST: u16 = 32881;
pub const SK_DOC_OP_TYPE: u16 = 32882;
pub const SK_DOC_ENUM_FIELD_LIST: u16 = 32883;
pub const SK_DOC_MAPPED_KEY: u16 = 32884;
pub const SK_DOC_ENUM_FIELD: u16 = 32885;
pub const SK_DOC_ONE_LINE_FIELD: u16 = 32886;
pub const SK_DOC_DIAGNOSTIC_CODE_LIST: u16 = 32887;
pub const SK_DOC_DESCRIPTION: u16 = 32888;
pub const SK_DOC_VERSION: u16 = 32889;

} // verus!
