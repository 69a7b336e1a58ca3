use thinclippy::tokenizer::get_tokens;
use thinclippy::tokenizer::TokenType;
use thinclippy::tokenizer::{
    parse_any_symbol, parse_any_text, parse_end_of_line, parse_equal_sign, parse_symbol,
    parse_whitespace,
};

#[test]
fn case_folding_yields_identical_streams() {
    let lower = get_tokens("alias");
    let upper = get_tokens("ALIAS");
    assert_eq!(lower, upper);
    assert_eq!(
        lower.get(0).unwrap().token_type,
        TokenType::Symbol("ALIAS".to_string())
    );
}

#[test]
fn leading_byte_order_mark_is_skipped() {
    let tokens = get_tokens("\u{feff}A");
    assert_eq!(tokens.len(), 1);
    assert_eq!(tokens[0].token_type, TokenType::Symbol("A".to_string()));
    assert_eq!(tokens[0].pos, 2);
}

#[test]
fn lone_carriage_return_is_a_line_break() {
    let tokens = get_tokens("A\rB");
    assert_eq!(tokens.len(), 3);
    assert_eq!(tokens[1].token_type, TokenType::EndOfLine);
    assert_eq!(tokens[2].line, 2);
    assert_eq!(tokens[2].pos, 1);
}

#[test]
fn crlf_collapses_to_one_end_of_line() {
    let tokens = get_tokens("A\r\nB");
    assert_eq!(tokens.len(), 3);
    assert_eq!(tokens[1].token_type, TokenType::EndOfLine);
    assert_eq!(tokens[2].line, 2);
}

#[test]
fn unterminated_text_runs_to_end_of_input() {
    let tokens = get_tokens("\"abc");
    assert_eq!(tokens.len(), 1);
    assert_eq!(tokens[0].token_type, TokenType::Text("\"abc".to_string()));
}

#[test]
fn unterminated_block_comment_runs_to_end_of_input() {
    let tokens = get_tokens("/* abc");
    assert_eq!(tokens.len(), 1);
    assert_eq!(tokens[0].token_type, TokenType::Comment(" abc".to_string()));
}

#[test]
fn block_comment_keeps_columns_in_step() {
    let tokens = get_tokens("/**/a");
    assert_eq!(tokens.len(), 2);
    assert_eq!(tokens[1].token_type, TokenType::Symbol("A".to_string()));
    assert_eq!(tokens[1].pos, 5);
}

#[test]
fn block_comment_advances_line_counter() {
    let tokens = get_tokens("/*\n\n*/a");
    assert_eq!(tokens.len(), 2);
    assert_eq!(tokens[1].line, 3);
    assert_eq!(tokens[1].pos, 3);
}

#[test]
fn single_char_tokens_advance_columns() {
    let tokens = get_tokens("a,b");
    assert_eq!(tokens[1].token_type, TokenType::Comma);
    assert_eq!(tokens[1].pos, 2);
    assert_eq!(tokens[2].pos, 3);
}

#[test]
fn slash_alone_is_an_operator() {
    let tokens = get_tokens("a/b");
    assert_eq!(tokens[1].token_type, TokenType::Operator('/'));
}

#[test]
fn number_with_dots_is_scanned_whole() {
    let tokens = get_tokens("1.2.3");
    assert_eq!(tokens.len(), 1);
    assert_eq!(tokens[0].token_type, TokenType::Number("1.2.3".to_string()));
}

#[test]
fn symbols_do_not_absorb_digits() {
    let tokens = get_tokens("FOO1");
    assert_eq!(tokens.len(), 2);
    assert_eq!(tokens[0].token_type, TokenType::Symbol("FOO".to_string()));
    assert_eq!(tokens[1].token_type, TokenType::Number("1".to_string()));
}

#[test]
fn rem_only_as_whole_symbol_starts_a_comment() {
    let tokens = get_tokens("REMARK");
    assert_eq!(tokens.len(), 1);
    assert_eq!(tokens[0].token_type, TokenType::Symbol("REMARK".to_string()));
}

#[test]
fn positions_monotone_on_sample() {
    let code = "a + b\n ' note\n/* c\n*/ d,e >= \"t\"\nALIAS X AS Y";
    let tokens = get_tokens(code);
    for w in tokens.windows(2) {
        assert!(
            w[0].line < w[1].line || (w[0].line == w[1].line && w[0].pos < w[1].pos),
            "positions not monotone: {:?} then {:?}",
            w[0],
            w[1]
        );
    }
}

#[test]
fn lookahead_helpers_peek_and_consume() {
    let tokens = get_tokens("FOO = \"T\"\n ");
    let mut j = 0usize;
    assert!(parse_symbol(&tokens, &mut j, "FOO"));
    assert!(!parse_symbol(&tokens, &mut j, "BAR"));
    assert!(parse_whitespace(&tokens, &mut j));
    assert!(parse_equal_sign(&tokens, &mut j));
    assert!(parse_whitespace(&tokens, &mut j));
    assert!(!parse_any_symbol(&tokens, &mut j));
    assert!(parse_any_text(&tokens, &mut j));
    assert!(parse_end_of_line(&tokens, &mut j));
    assert!(parse_whitespace(&tokens, &mut j));
    assert!(!parse_whitespace(&tokens, &mut j));
    assert_eq!(j, tokens.len());
}
