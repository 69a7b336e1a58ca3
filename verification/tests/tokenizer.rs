use thinclippy::tokenizer::get_tokens;
use thinclippy::tokenizer::TokenType;

#[test]
fn get_number_works() {
    let code = "1234";

    let tokens = get_tokens(code);

    assert_eq!(
        tokens.get(0).unwrap().token_type,
        TokenType::Number("1234".to_string())
    );
}

#[test]
fn get_symbol_works() {
    let code = "%Ciao_my_FRIEND$";

    let tokens = get_tokens(code);

    assert_eq!(
        tokens.get(0).unwrap().token_type,
        TokenType::Symbol("%CIAO_MY_FRIEND$".to_string())
    );
}

#[test]
fn get_operator_works() {
    let code = "a + b - c * d / e & f";

    let tokens = get_tokens(code);

    assert_eq!(tokens.get(2).unwrap().token_type, TokenType::Operator('+'));
    assert_eq!(tokens.get(6).unwrap().token_type, TokenType::Operator('-'));
    assert_eq!(tokens.get(10).unwrap().token_type, TokenType::Operator('*'));
    assert_eq!(tokens.get(14).unwrap().token_type, TokenType::Operator('/'));
    assert_eq!(tokens.get(18).unwrap().token_type, TokenType::Operator('&'));
}

#[test]
fn get_whitespace_works() {
    let code = "A    \tB";

    let tokens = get_tokens(code);

    assert_eq!(tokens.get(1).unwrap().token_type, TokenType::Whitespace);
}

#[test]
fn get_paren_works() {
    let code = "(1)";

    let tokens = get_tokens(code);

    assert_eq!(tokens.get(0).unwrap().token_type, TokenType::Paren('('));
    assert_eq!(tokens.get(2).unwrap().token_type, TokenType::Paren(')'));
}

#[test]
fn get_comma_works() {
    let code = "a,b,c";

    let tokens = get_tokens(code);

    assert_eq!(tokens.get(1).unwrap().token_type, TokenType::Comma);
    assert_eq!(tokens.get(3).unwrap().token_type, TokenType::Comma);
}

#[test]
fn get_apostrophe_comment() {
    let code = "hello world ' famous sentence\nindeed";

    let tokens = get_tokens(code);

    assert_eq!(
        tokens.get(4).unwrap().token_type,
        TokenType::Comment(" famous sentence".to_string())
    );
    assert_eq!(tokens.get(5).unwrap().token_type, TokenType::EndOfLine);
    assert_eq!(
        tokens.get(6).unwrap().token_type,
        TokenType::Symbol("INDEED".to_string())
    );
}

#[test]
fn get_c_comment() {
    let code = "hello world // famous sentence\nindeed";

    let tokens = get_tokens(code);

    assert_eq!(
        tokens.get(4).unwrap().token_type,
        TokenType::Comment(" famous sentence".to_string())
    );
    assert_eq!(tokens.get(5).unwrap().token_type, TokenType::EndOfLine);
    assert_eq!(
        tokens.get(6).unwrap().token_type,
        TokenType::Symbol("INDEED".to_string())
    );
}

#[test]
fn get_block_comment() {
    let code = "hello /* famous \n sentence */ indeed";

    let tokens = get_tokens(code);

    assert_eq!(
        tokens.get(2).unwrap().token_type,
        TokenType::Comment(" famous \n sentence ".to_string())
    );
    assert_eq!(tokens.get(3).unwrap().token_type, TokenType::Whitespace);
    assert_eq!(
        tokens.get(4).unwrap().token_type,
        TokenType::Symbol("INDEED".to_string())
    );
}

#[test]
fn get_rem_comment() {
    let code = "hello REM famous \nindeed";

    let tokens = get_tokens(code);

    assert_eq!(
        tokens.get(2).unwrap().token_type,
        TokenType::Comment(" famous ".to_string())
    );
    assert_eq!(
        tokens.get(4).unwrap().token_type,
        TokenType::Symbol("INDEED".to_string())
    );
}

#[test]
fn get_end_of_line() {
    let code = "A\nB\r\nC";

    let tokens = get_tokens(code);

    assert_eq!(tokens.get(1).unwrap().token_type, TokenType::EndOfLine);
    assert_eq!(tokens.get(3).unwrap().token_type, TokenType::EndOfLine);
}

#[test]
fn get_text() {
    let code = "hello = \"Ciao\"";

    let tokens = get_tokens(code);

    assert_eq!(
        tokens.get(4).unwrap().token_type,
        TokenType::Text("\"Ciao\"".to_string())
    );
}

#[test]
fn get_text_string_with_inner_quotes() {
    let code = "hello = \"Ciao, dear \"\"bambino\"\"\"";

    let tokens = get_tokens(code);

    assert_eq!(
        tokens.get(4).unwrap().token_type,
        TokenType::Text("\"Ciao, dear \"\"bambino\"\"\"".to_string())
    );
}

#[test]
fn get_equal_sign() {
    let code = "numero = 1";

    let tokens = get_tokens(code);

    assert_eq!(tokens.get(2).unwrap().token_type, TokenType::EqualSign);
}

#[test]
fn get_comparator() {
    let code = "a>=b,c<=d,e<f,g>h";

    let tokens = get_tokens(code);

    assert_eq!(
        tokens.get(1).unwrap().token_type,
        TokenType::Comparator(">=".to_string())
    );
    assert_eq!(
        tokens.get(5).unwrap().token_type,
        TokenType::Comparator("<=".to_string())
    );
    assert_eq!(
        tokens.get(9).unwrap().token_type,
        TokenType::Comparator("<".to_string())
    );
    assert_eq!(
        tokens.get(13).unwrap().token_type,
        TokenType::Comparator(">".to_string())
    );
}

#[test]
fn get_unknown() {
    let code = "this is ~";

    let tokens = get_tokens(code);

    assert_eq!(tokens.get(4).unwrap().token_type, TokenType::Unknown('~'));
}

#[test]
fn line_location() {
    let code = "a\r\nb\nc";

    let tokens = get_tokens(code);

    assert_eq!(tokens.get(0).unwrap().line, 1u32);
    assert_eq!(tokens.get(2).unwrap().line, 2u32);
    assert_eq!(tokens.get(4).unwrap().line, 3u32);
}

#[test]
fn pos_location() {
    let code = " well\r\n  this\n   works";

    let tokens = get_tokens(code);

    assert_eq!(tokens.get(0).unwrap().token_type, TokenType::Whitespace);
    assert_eq!(
        tokens.get(1).unwrap().token_type,
        TokenType::Symbol("WELL".to_string())
    );
    assert_eq!(tokens.get(2).unwrap().token_type, TokenType::EndOfLine);
    assert_eq!(tokens.get(3).unwrap().token_type, TokenType::Whitespace);
    assert_eq!(
        tokens.get(4).unwrap().token_type,
        TokenType::Symbol("THIS".to_string())
    );
    assert_eq!(tokens.get(5).unwrap().token_type, TokenType::EndOfLine);
    assert_eq!(tokens.get(6).unwrap().token_type, TokenType::Whitespace);
    assert_eq!(
        tokens.get(7).unwrap().token_type,
        TokenType::Symbol("WORKS".to_string())
    );

    assert_eq!(tokens.get(1).unwrap().pos, 2u32);
    assert_eq!(tokens.get(4).unwrap().pos, 3u32);
    assert_eq!(tokens.get(7).unwrap().pos, 4u32);
}
