//! The lexer: turns normalized source text into a positioned token stream.
//!
//! Scanning is total: unrecognized characters become `Unknown` tokens, and
//! lexing never fails. Every token records the 1-based line and column of
//! its first character; the running counters keep advancing inside
//! multi-line tokens so that subsequent tokens are positioned correctly.

pub mod laws;
pub mod model;

use vstd::prelude::*;
use vstd::std_specs::iter::IteratorSpec;

use crate::tokenizer::model::{
    comparator_char_p, fold_char, fold_fn, is_comparator_char, is_end_of_line_token,
    is_equal_sign_token, is_line_break, is_number_char, is_space, is_symbol_char, is_symbol_named,
    is_symbol_token, is_text_token, is_whitespace_token, lemma_run_end, lemma_token_step,
    not_line_break_p, number_char_p, run_end, scan_block_comment, scan_text, space_p,
    spec_tokenize, spec_tokenize_from, symbol_char_p, token_step, Scan, Token, TokenKind,
};

verus! {

broadcast use vstd::string::group_string_axioms;

/// A token with the position of its first character (1-based line and column).
#[derive(Debug, Clone, PartialEq)]
pub struct TokenInfo {
    pub token_type: TokenType,
    pub line: u32,
    pub pos: u32,
}

/// The closed set of token kinds produced by the lexer.
#[derive(Debug, Clone, PartialEq)]
pub enum TokenType {
    Whitespace,
    EndOfLine,
    Paren(char),
    EqualSign,
    Operator(char),
    Comparator(String),
    Number(String),
    Symbol(String),
    Text(String),
    Comment(String),
    Unknown(char),
    Comma,
}

impl View for TokenType {
    type V = TokenKind;

    open spec fn view(&self) -> TokenKind {
        match self {
            TokenType::Whitespace => TokenKind::Whitespace,
            TokenType::EndOfLine => TokenKind::EndOfLine,
            TokenType::Paren(c) => TokenKind::Paren(*c),
            TokenType::EqualSign => TokenKind::EqualSign,
            TokenType::Operator(c) => TokenKind::Operator(*c),
            TokenType::Comparator(s) => TokenKind::Comparator(s@),
            TokenType::Number(s) => TokenKind::Number(s@),
            TokenType::Symbol(s) => TokenKind::Symbol(s@),
            TokenType::Text(s) => TokenKind::Text(s@),
            TokenType::Comment(s) => TokenKind::Comment(s@),
            TokenType::Unknown(c) => TokenKind::Unknown(*c),
            TokenType::Comma => TokenKind::Comma,
        }
    }
}

impl View for TokenInfo {
    type V = Token;

    open spec fn view(&self) -> Token {
        Token { kind: self.token_type@, line: self.line as nat, pos: self.pos as nat }
    }
}

/// Relies on String::push: appends exactly the given character.
#[verifier::external_body]
pub(crate) fn push_char(s: &mut String, c: char)
    ensures
        final(s)@ == old(s)@.push(c),
{
    s.push(c);
}

/// Collects the characters of a string slice into a vector.
pub(crate) fn to_chars(input: &str) -> (v: Vec<char>)
    ensures
        v@ == input@,
{
    let mut v: Vec<char> = Vec::new();
    let mut it = input.chars();
    loop
        invariant
            it.obeys_prophetic_iter_laws(),
            it.decrease() is Some,
            v@ + it.remaining() == input@,
        ensures
            v@ == input@,
        decreases it.decrease()->0,
    {
        match it.next() {
            Some(c) => {
                v.push(c);
            },
            None => {
                assert(v@ + it.remaining() == v@);
                break ;
            },
        }
    }
    v
}

fn exec_is_number_char(c: char) -> (r: bool)
    ensures
        r == is_number_char(c),
{
    ('0' <= c && c <= '9') || c == '.'
}

fn exec_is_comparator_char(c: char) -> (r: bool)
    ensures
        r == is_comparator_char(c),
{
    c == '<' || c == '>' || c == '='
}

fn exec_is_space(c: char) -> (r: bool)
    ensures
        r == is_space(c),
{
    c == ' ' || c == '\t'
}

fn exec_is_symbol_char(c: char) -> (r: bool)
    ensures
        r == is_symbol_char(c),
{
    ('A' <= c && c <= 'Z') || ('a' <= c && c <= 'z') || c == '#' || c == '$' || c == '%' || c
        == '_'
}

fn exec_is_line_break(c: char) -> (r: bool)
    ensures
        r == is_line_break(c),
{
    c == '\n' || c == '\r'
}

fn exec_fold_char(c: char) -> (r: char)
    ensures
        r == fold_char(c),
{
    if 'a' <= c && c <= 'z' {
        ((c as u8) - 32) as char
    } else {
        c
    }
}

/// Consumes the maximal run of digit and `.` characters starting at `*i`,
/// advancing the cursor and the column counter; returns the lexeme.
fn get_number(v: &Vec<char>, i: &mut usize, pos: &mut u32) -> (tok: String)
    requires
        *old(i) <= v@.len(),
        *old(pos) <= *old(i),
        v@.len() + 32 < u32::MAX,
    ensures
        *old(i) <= *final(i) <= v@.len(),
        *final(i) == run_end(v@, *old(i) as int, number_char_p()),
        *final(pos) == *old(pos) + (*final(i) - *old(i)),
        tok@ == v@.subrange(*old(i) as int, *final(i) as int),
{
    let ghost i0 = *old(i) as int;
    let mut tok = String::new();
    proof {
        lemma_run_end(v@, i0, number_char_p());
    }
    while *i < v.len() && exec_is_number_char(v[*i])
        invariant
            i0 <= *i <= v@.len(),
            v@.len() + 32 < u32::MAX,
            *pos == *old(pos) + (*i - i0),
            *old(pos) <= i0,
            run_end(v@, i0, number_char_p()) == run_end(v@, *i as int, number_char_p()),
            tok@ == v@.subrange(i0, *i as int),
        decreases v@.len() - *i,
    {
        let c = v[*i];
        assert(number_char_p()(c));
        assert(run_end(v@, *i as int, number_char_p()) == run_end(
            v@,
            *i as int + 1,
            number_char_p(),
        ));
        push_char(&mut tok, c);
        assert(v@.subrange(i0, *i as int + 1) == v@.subrange(i0, *i as int).push(c));
        *i += 1;
        *pos += 1;
    }
    assert(run_end(v@, *i as int, number_char_p()) == *i as int);
    tok
}

/// Consumes the maximal run of `<`, `>`, `=` characters starting at `*i`,
/// advancing the cursor and the column counter; returns the lexeme.
fn get_comparator(v: &Vec<char>, i: &mut usize, pos: &mut u32) -> (tok: String)
    requires
        *old(i) <= v@.len(),
        *old(pos) <= *old(i),
        v@.len() + 32 < u32::MAX,
    ensures
        *old(i) <= *final(i) <= v@.len(),
        *final(i) == run_end(v@, *old(i) as int, comparator_char_p()),
        *final(pos) == *old(pos) + (*final(i) - *old(i)),
        tok@ == v@.subrange(*old(i) as int, *final(i) as int),
{
    let ghost i0 = *old(i) as int;
    let mut tok = String::new();
    proof {
        lemma_run_end(v@, i0, comparator_char_p());
    }
    while *i < v.len() && exec_is_comparator_char(v[*i])
        invariant
            i0 <= *i <= v@.len(),
            v@.len() + 32 < u32::MAX,
            *pos == *old(pos) + (*i - i0),
            *old(pos) <= i0,
            run_end(v@, i0, comparator_char_p()) == run_end(v@, *i as int, comparator_char_p()),
            tok@ == v@.subrange(i0, *i as int),
        decreases v@.len() - *i,
    {
        let c = v[*i];
        assert(comparator_char_p()(c));
        assert(run_end(v@, *i as int, comparator_char_p()) == run_end(
            v@,
            *i as int + 1,
            comparator_char_p(),
        ));
        push_char(&mut tok, c);
        assert(v@.subrange(i0, *i as int + 1) == v@.subrange(i0, *i as int).push(c));
        *i += 1;
        *pos += 1;
    }
    assert(run_end(v@, *i as int, comparator_char_p()) == *i as int);
    tok
}

/// Consumes the maximal run of spaces and tabs starting at `*i`, advancing
/// the cursor and the column counter; returns the consumed run.
fn get_whitespace(v: &Vec<char>, i: &mut usize, pos: &mut u32) -> (tok: String)
    requires
        *old(i) <= v@.len(),
        *old(pos) <= *old(i),
        v@.len() + 32 < u32::MAX,
    ensures
        *old(i) <= *final(i) <= v@.len(),
        *final(i) == run_end(v@, *old(i) as int, space_p()),
        *final(pos) == *old(pos) + (*final(i) - *old(i)),
        tok@ == v@.subrange(*old(i) as int, *final(i) as int),
{
    let ghost i0 = *old(i) as int;
    let mut tok = String::new();
    proof {
        lemma_run_end(v@, i0, space_p());
    }
    while *i < v.len() && exec_is_space(v[*i])
        invariant
            i0 <= *i <= v@.len(),
            v@.len() + 32 < u32::MAX,
            *pos == *old(pos) + (*i - i0),
            *old(pos) <= i0,
            run_end(v@, i0, space_p()) == run_end(v@, *i as int, space_p()),
            tok@ == v@.subrange(i0, *i as int),
        decreases v@.len() - *i,
    {
        let c = v[*i];
        assert(space_p()(c));
        assert(run_end(v@, *i as int, space_p()) == run_end(v@, *i as int + 1, space_p()));
        push_char(&mut tok, c);
        assert(v@.subrange(i0, *i as int + 1) == v@.subrange(i0, *i as int).push(c));
        *i += 1;
        *pos += 1;
    }
    assert(run_end(v@, *i as int, space_p()) == *i as int);
    tok
}

/// Consumes the maximal run of symbol characters starting at `*i`,
/// advancing the cursor and the column counter; returns the lexeme with
/// ASCII lower case letters folded to upper case.
fn get_symbol(v: &Vec<char>, i: &mut usize, pos: &mut u32) -> (tok: String)
    requires
        *old(i) <= v@.len(),
        *old(pos) <= *old(i),
        v@.len() + 32 < u32::MAX,
    ensures
        *old(i) <= *final(i) <= v@.len(),
        *final(i) == run_end(v@, *old(i) as int, symbol_char_p()),
        *final(pos) == *old(pos) + (*final(i) - *old(i)),
        tok@ == v@.subrange(*old(i) as int, *final(i) as int).map_values(fold_fn()),
{
    let ghost i0 = *old(i) as int;
    let mut tok = String::new();
    proof {
        lemma_run_end(v@, i0, symbol_char_p());
        assert(tok@ == v@.subrange(i0, i0).map_values(fold_fn()));
    }
    while *i < v.len() && exec_is_symbol_char(v[*i])
        invariant
            i0 <= *i <= v@.len(),
            v@.len() + 32 < u32::MAX,
            *pos == *old(pos) + (*i - i0),
            *old(pos) <= i0,
            run_end(v@, i0, symbol_char_p()) == run_end(v@, *i as int, symbol_char_p()),
            tok@ == v@.subrange(i0, *i as int).map_values(fold_fn()),
        decreases v@.len() - *i,
    {
        let c = v[*i];
        assert(symbol_char_p()(c));
        assert(run_end(v@, *i as int, symbol_char_p()) == run_end(
            v@,
            *i as int + 1,
            symbol_char_p(),
        ));
        let f = exec_fold_char(c);
        push_char(&mut tok, f);
        assert(v@.subrange(i0, *i as int + 1).map_values(fold_fn()) == v@.subrange(
            i0,
            *i as int,
        ).map_values(fold_fn()).push(fold_char(c)));
        *i += 1;
        *pos += 1;
    }
    assert(run_end(v@, *i as int, symbol_char_p()) == *i as int);
    tok
}

/// Consumes characters up to (not including) the next line break, advancing
/// the cursor and the column counter; returns the consumed text.
fn get_single_comment(v: &Vec<char>, i: &mut usize, pos: &mut u32) -> (tok: String)
    requires
        *old(i) <= v@.len(),
        *old(pos) <= *old(i),
        v@.len() + 32 < u32::MAX,
    ensures
        *old(i) <= *final(i) <= v@.len(),
        *final(i) == run_end(v@, *old(i) as int, not_line_break_p()),
        *final(pos) == *old(pos) + (*final(i) - *old(i)),
        tok@ == v@.subrange(*old(i) as int, *final(i) as int),
{
    let ghost i0 = *old(i) as int;
    let mut tok = String::new();
    proof {
        lemma_run_end(v@, i0, not_line_break_p());
    }
    while *i < v.len() && !exec_is_line_break(v[*i])
        invariant
            i0 <= *i <= v@.len(),
            v@.len() + 32 < u32::MAX,
            *pos == *old(pos) + (*i - i0),
            *old(pos) <= i0,
            run_end(v@, i0, not_line_break_p()) == run_end(v@, *i as int, not_line_break_p()),
            tok@ == v@.subrange(i0, *i as int),
        decreases v@.len() - *i,
    {
        let c = v[*i];
        assert(not_line_break_p()(c));
        assert(run_end(v@, *i as int, not_line_break_p()) == run_end(
            v@,
            *i as int + 1,
            not_line_break_p(),
        ));
        push_char(&mut tok, c);
        assert(v@.subrange(i0, *i as int + 1) == v@.subrange(i0, *i as int).push(c));
        *i += 1;
        *pos += 1;
    }
    assert(run_end(v@, *i as int, not_line_break_p()) == *i as int);
    tok
}

/// Consumes the interior of a `/* ... */` comment (the cursor starts just
/// after the opening `/*`), keeping the line and column counters in step
/// with embedded line breaks; returns the comment text with line breaks
/// normalized to `\n`.
fn get_block_comment(v: &Vec<char>, i: &mut usize, line_no: &mut u32, pos: &mut u32) -> (tok:
    String)
    requires
        *old(i) <= v@.len(),
        *old(pos) <= *old(i),
        *old(line_no) as int <= 1 + *old(i) as int,
        1 <= *old(line_no),
        v@.len() + 32 < u32::MAX,
    ensures
        ({
            let r = scan_block_comment(v@, *old(i) as int, *old(line_no) as nat, *old(pos) as nat);
            &&& *final(i) == r.end
            &&& *final(line_no) == r.line
            &&& *final(pos) == r.col
            &&& tok@ == r.lex
            &&& *final(pos) <= *final(i)
            &&& *final(line_no) as int <= 1 + *final(i) as int
            &&& 1 <= *final(line_no)
        }),
{
    let ghost g = scan_block_comment(v@, *old(i) as int, *old(line_no) as nat, *old(pos) as nat);
    let mut tok = String::new();
    loop
        invariant_except_break
            ({
                let cur = scan_block_comment(v@, *i as int, *line_no as nat, *pos as nat);
                &&& g.lex == tok@ + cur.lex
                &&& g.end == cur.end
                &&& g.line == cur.line
                &&& g.col == cur.col
            }),
        invariant
            *i <= v@.len(),
            *pos <= *i,
            *line_no as int <= 1 + *i as int,
            1 <= *line_no,
            v@.len() + 32 < u32::MAX,
        ensures
            *i == g.end,
            *line_no == g.line,
            *pos == g.col,
            tok@ == g.lex,
        decreases v@.len() - *i,
    {
        if *i >= v.len() {
            assert(scan_block_comment(v@, *i as int, *line_no as nat, *pos as nat) == (Scan {
                lex: Seq::<char>::empty(),
                end: *i as int,
                line: *line_no as nat,
                col: *pos as nat,
            }));
            assert(tok@ == g.lex);
            break ;
        }
        let ghost cur = scan_block_comment(v@, *i as int, *line_no as nat, *pos as nat);
        let c = v[*i];
        if c == '*' && *i + 1 < v.len() && v[*i + 1] == '/' {
            assert(cur == Scan {
                lex: Seq::<char>::empty(),
                end: *i as int + 2,
                line: *line_no as nat,
                col: (*pos + 2) as nat,
            });
            assert(tok@ == g.lex);
            *i += 2;
            *pos += 2;
            break ;
        }
        if c == '\r' && *i + 1 < v.len() && v[*i + 1] == '\n' {
            let ghost nxt = scan_block_comment(v@, *i as int + 2, (*line_no + 1) as nat, 0);
            assert(cur.lex == seq!['\n'] + nxt.lex && cur.end == nxt.end && cur.line == nxt.line
                && cur.col == nxt.col);
            push_char(&mut tok, '\n');
            assert(tok@ + nxt.lex == g.lex);
            *i += 2;
            *line_no += 1;
            *pos = 0;
        } else if c == '\n' || c == '\r' {
            let ghost nxt = scan_block_comment(v@, *i as int + 1, (*line_no + 1) as nat, 0);
            assert(cur.lex == seq!['\n'] + nxt.lex && cur.end == nxt.end && cur.line == nxt.line
                && cur.col == nxt.col);
            push_char(&mut tok, '\n');
            assert(tok@ + nxt.lex == g.lex);
            *i += 1;
            *line_no += 1;
            *pos = 0;
        } else {
            let ghost nxt = scan_block_comment(v@, *i as int + 1, *line_no as nat, (*pos
                + 1) as nat);
            assert(cur.lex == seq![c] + nxt.lex && cur.end == nxt.end && cur.line == nxt.line
                && cur.col == nxt.col);
            push_char(&mut tok, c);
            assert(tok@ + nxt.lex == g.lex);
            *i += 1;
            *pos += 1;
        }
    }
    tok
}

/// Consumes a quoted text literal (the cursor starts on the opening quote),
/// handling doubled quotes as escaped literal quotes and keeping the line
/// and column counters in step; returns the lexeme including both quotes.
fn get_text(v: &Vec<char>, i: &mut usize, line_no: &mut u32, pos: &mut u32) -> (tok: String)
    requires
        *old(i) < v@.len(),
        v@[*old(i) as int] == '"',
        *old(pos) <= *old(i),
        *old(line_no) as int <= 1 + *old(i) as int,
        1 <= *old(line_no),
        v@.len() + 32 < u32::MAX,
    ensures
        ({
            let r = scan_text(
                v@,
                *old(i) as int + 1,
                *old(line_no) as nat,
                (*old(pos) + 1) as nat,
            );
            &&& *final(i) == r.end
            &&& *final(line_no) == r.line
            &&& *final(pos) == r.col
            &&& tok@ == seq!['"'] + r.lex
            &&& *final(pos) <= *final(i)
            &&& *final(line_no) as int <= 1 + *final(i) as int
            &&& 1 <= *final(line_no)
        }),
{
    let ghost g = scan_text(v@, *old(i) as int + 1, *old(line_no) as nat, (*old(pos) + 1) as nat);
    let mut tok = String::new();
    push_char(&mut tok, '"');
    *i += 1;
    *pos += 1;
    loop
        invariant_except_break
            ({
                let cur = scan_text(v@, *i as int, *line_no as nat, *pos as nat);
                &&& seq!['"'] + g.lex == tok@ + cur.lex
                &&& g.end == cur.end
                &&& g.line == cur.line
                &&& g.col == cur.col
            }),
        invariant
            *i <= v@.len(),
            *pos <= *i,
            *line_no as int <= 1 + *i as int,
            1 <= *line_no,
            v@.len() + 32 < u32::MAX,
        ensures
            *i == g.end,
            *line_no == g.line,
            *pos == g.col,
            tok@ == seq!['"'] + g.lex,
        decreases v@.len() - *i,
    {
        if *i >= v.len() {
            assert(scan_text(v@, *i as int, *line_no as nat, *pos as nat) == (Scan {
                lex: Seq::<char>::empty(),
                end: *i as int,
                line: *line_no as nat,
                col: *pos as nat,
            }));
            assert(tok@ == seq!['"'] + g.lex);
            break ;
        }
        let ghost cur = scan_text(v@, *i as int, *line_no as nat, *pos as nat);
        let c = v[*i];
        if c == '"' && *i + 1 < v.len() && v[*i + 1] == '"' {
            let ghost nxt = scan_text(v@, *i as int + 2, *line_no as nat, (*pos + 2) as nat);
            assert(cur.lex == seq!['"', '"'] + nxt.lex && cur.end == nxt.end && cur.line
                == nxt.line && cur.col == nxt.col);
            push_char(&mut tok, '"');
            push_char(&mut tok, '"');
            assert(tok@ + nxt.lex == seq!['"'] + g.lex);
            *i += 2;
            *pos += 2;
        } else if c == '"' {
            assert(cur == Scan {
                lex: seq!['"'],
                end: *i as int + 1,
                line: *line_no as nat,
                col: (*pos + 1) as nat,
            });
            push_char(&mut tok, '"');
            assert(tok@ == seq!['"'] + g.lex);
            *i += 1;
            *pos += 1;
            break ;
        } else if c == '\r' && *i + 1 < v.len() && v[*i + 1] == '\n' {
            let ghost nxt = scan_text(v@, *i as int + 2, (*line_no + 1) as nat, 0);
            assert(cur.lex == seq!['\n'] + nxt.lex && cur.end == nxt.end && cur.line == nxt.line
                && cur.col == nxt.col);
            push_char(&mut tok, '\n');
            assert(tok@ + nxt.lex == seq!['"'] + g.lex);
            *i += 2;
            *line_no += 1;
            *pos = 0;
        } else if c == '\n' || c == '\r' {
            let ghost nxt = scan_text(v@, *i as int + 1, (*line_no + 1) as nat, 0);
            assert(cur.lex == seq!['\n'] + nxt.lex && cur.end == nxt.end && cur.line == nxt.line
                && cur.col == nxt.col);
            push_char(&mut tok, '\n');
            assert(tok@ + nxt.lex == seq!['"'] + g.lex);
            *i += 1;
            *line_no += 1;
            *pos = 0;
        } else {
            let ghost nxt = scan_text(v@, *i as int + 1, *line_no as nat, (*pos + 1) as nat);
            assert(cur.lex == seq![c] + nxt.lex && cur.end == nxt.end && cur.line == nxt.line
                && cur.col == nxt.col);
            push_char(&mut tok, c);
            assert(tok@ + nxt.lex == seq!['"'] + g.lex);
            *i += 1;
            *pos += 1;
        }
    }
    tok
}

/// The spec-level tokens that a vector of tokens stands for.
pub open spec fn tokens_view(s: Seq<TokenInfo>) -> Seq<Token> {
    s.map_values(|t: TokenInfo| t@)
}

/// Compares a token lexeme against a keyword.
pub(crate) fn string_eq_str(a: &String, b: &str) -> (r: bool)
    ensures
        r == (a@ == b@),
{
    let t = b.to_owned();
    *a == t
}

/// Looks for a `Whitespace` token at `*j`; consumes it when found.
pub fn parse_whitespace(tokens: &Vec<TokenInfo>, j: &mut usize) -> (r: bool)
    requires
        *old(j) <= tokens@.len(),
    ensures
        r == (*old(j) < tokens@.len() && is_whitespace_token(
            tokens_view(tokens@)[*old(j) as int],
        )),
        *final(j) == if r {
            *old(j) + 1
        } else {
            *old(j) as int
        },
{
    if *j < tokens.len() {
        match &tokens[*j].token_type {
            TokenType::Whitespace => {
                *j += 1;
                return true;
            },
            _ => {
                return false;
            },
        }
    }
    false
}

/// Looks for an `EndOfLine` token at `*j`; consumes it when found.
pub fn parse_end_of_line(tokens: &Vec<TokenInfo>, j: &mut usize) -> (r: bool)
    requires
        *old(j) <= tokens@.len(),
    ensures
        r == (*old(j) < tokens@.len() && is_end_of_line_token(
            tokens_view(tokens@)[*old(j) as int],
        )),
        *final(j) == if r {
            *old(j) + 1
        } else {
            *old(j) as int
        },
{
    if *j < tokens.len() {
        match &tokens[*j].token_type {
            TokenType::EndOfLine => {
                *j += 1;
                return true;
            },
            _ => {
                return false;
            },
        }
    }
    false
}

/// Looks for an `EqualSign` token at `*j`; consumes it when found.
pub fn parse_equal_sign(tokens: &Vec<TokenInfo>, j: &mut usize) -> (r: bool)
    requires
        *old(j) <= tokens@.len(),
    ensures
        r == (*old(j) < tokens@.len() && is_equal_sign_token(
            tokens_view(tokens@)[*old(j) as int],
        )),
        *final(j) == if r {
            *old(j) + 1
        } else {
            *old(j) as int
        },
{
    if *j < tokens.len() {
        match &tokens[*j].token_type {
            TokenType::EqualSign => {
                *j += 1;
                return true;
            },
            _ => {
                return false;
            },
        }
    }
    false
}

/// Looks for a `Symbol` token at `*j`, of any lexeme; consumes it when found.
pub fn parse_any_symbol(tokens: &Vec<TokenInfo>, j: &mut usize) -> (r: bool)
    requires
        *old(j) <= tokens@.len(),
    ensures
        r == (*old(j) < tokens@.len() && is_symbol_token(tokens_view(tokens@)[*old(j) as int])),
        *final(j) == if r {
            *old(j) + 1
        } else {
            *old(j) as int
        },
{
    if *j < tokens.len() {
        match &tokens[*j].token_type {
            TokenType::Symbol(_) => {
                *j += 1;
                return true;
            },
            _ => {
                return false;
            },
        }
    }
    false
}

/// Looks for a `Text` token at `*j`; consumes it when found.
pub fn parse_any_text(tokens: &Vec<TokenInfo>, j: &mut usize) -> (r: bool)
    requires
        *old(j) <= tokens@.len(),
    ensures
        r == (*old(j) < tokens@.len() && is_text_token(tokens_view(tokens@)[*old(j) as int])),
        *final(j) == if r {
            *old(j) + 1
        } else {
            *old(j) as int
        },
{
    if *j < tokens.len() {
        match &tokens[*j].token_type {
            TokenType::Text(_) => {
                *j += 1;
                return true;
            },
            _ => {
                return false;
            },
        }
    }
    false
}

/// Looks for a `Symbol` token with the given lexeme at `*j`; consumes it
/// when found.
pub fn parse_symbol(tokens: &Vec<TokenInfo>, j: &mut usize, name: &str) -> (r: bool)
    requires
        *old(j) <= tokens@.len(),
    ensures
        r == (*old(j) < tokens@.len() && is_symbol_named(
            tokens_view(tokens@)[*old(j) as int],
            name@,
        )),
        *final(j) == if r {
            *old(j) + 1
        } else {
            *old(j) as int
        },
{
    if *j < tokens.len() {
        match &tokens[*j].token_type {
            TokenType::Symbol(s) => {
                if string_eq_str(s, name) {
                    *j += 1;
                    return true;
                } else {
                    return false;
                }
            },
            _ => {
                return false;
            },
        }
    }
    false
}

proof fn lemma_tokens_view_push(s: Seq<TokenInfo>, t: TokenInfo)
    ensures
        tokens_view(s.push(t)) == tokens_view(s).push(t@),
{
    assert(tokens_view(s.push(t)) =~= tokens_view(s).push(t@));
}

/// One scanner step that produced token `ti` keeps the main loop's
/// correspondence with the token stream model.
proof fn lemma_step_push(
    v: Seq<char>,
    pre: Seq<TokenInfo>,
    ti: TokenInfo,
    i0: int,
    l0: nat,
    c0: nat,
    i1: int,
    l1: nat,
    c1: nat,
)
    requires
        0 <= i0 < v.len(),
        i0 < i1 <= v.len(),
        token_step(v, i0, l0, c0).tok == Some(ti@),
        token_step(v, i0, l0, c0).end == i1,
        token_step(v, i0, l0, c0).line == l1,
        token_step(v, i0, l0, c0).col == c1,
        tokens_view(pre) + spec_tokenize_from(v, i0, l0, c0) == spec_tokenize(v),
    ensures
        tokens_view(pre.push(ti)) + spec_tokenize_from(v, i1, l1, c1) == spec_tokenize(v),
{
    lemma_tokens_view_push(pre, ti);
    assert(spec_tokenize_from(v, i0, l0, c0) == seq![ti@] + spec_tokenize_from(v, i1, l1, c1));
    assert(tokens_view(pre.push(ti)) + spec_tokenize_from(v, i1, l1, c1) =~= tokens_view(pre)
        + spec_tokenize_from(v, i0, l0, c0));
}

/// Scans the whole source text into its token stream. Lexing is total:
/// every character is consumed and unrecognized ones become `Unknown`
/// tokens. The input length is bounded so that the 32-bit line and column
/// counters cannot overflow.
pub fn get_tokens(input: &str) -> (tokens: Vec<TokenInfo>)
    requires
        input@.len() + 32 < u32::MAX,
    ensures
        tokens_view(tokens@) == spec_tokenize(input@),
{
    let v = to_chars(input);
    let mut tokens: Vec<TokenInfo> = Vec::new();
    let mut i: usize = 0;
    let mut line_no: u32 = 1;
    let mut pos_no: u32 = 0;
    proof {
        assert(tokens_view(tokens@) + spec_tokenize_from(v@, 0, 1, 0) =~= spec_tokenize(v@));
    }
    while i < v.len()
        invariant
            v@ == input@,
            i <= v@.len(),
            v@.len() + 32 < u32::MAX,
            1 <= line_no,
            line_no as int <= 1 + i as int,
            pos_no as int <= i as int,
            tokens_view(tokens@) + spec_tokenize_from(v@, i as int, line_no as nat, pos_no as nat)
                == spec_tokenize(v@),
        decreases v@.len() - i,
    {
        let ghost i0 = i as int;
        let ghost l0 = line_no as nat;
        let ghost c0 = pos_no as nat;
        let ghost st = token_step(v@, i0, l0, c0);
        let ghost pre = tokens@;
        proof {
            lemma_token_step(v@, i0, l0, c0);
        }
        let c = v[i];
        let start_pos = pos_no + 1;
        if exec_is_symbol_char(c) {
            let symbol = get_symbol(&v, &mut i, &mut pos_no);
            let rem = String::from_str("REM");
            if symbol == rem {
                let comment = get_single_comment(&v, &mut i, &mut pos_no);
                let ti = TokenInfo {
                    token_type: TokenType::Comment(comment),
                    line: line_no,
                    pos: start_pos,
                };
                proof {
                    assert(st.tok == Some(ti@));
                    assert(st.end == i as int);
                    assert(st.line == line_no as nat);
                    assert(st.col == pos_no as nat);
                }
                tokens.push(ti);
                proof {
                    lemma_step_push(v@, pre, ti, i0, l0, c0, i as int, line_no as nat, pos_no as nat);
                }
            } else {
                let ti = TokenInfo {
                    token_type: TokenType::Symbol(symbol),
                    line: line_no,
                    pos: start_pos,
                };
                proof {
                    assert(st.tok == Some(ti@));
                    assert(st.end == i as int);
                    assert(st.line == line_no as nat);
                    assert(st.col == pos_no as nat);
                }
                tokens.push(ti);
                proof {
                    lemma_step_push(v@, pre, ti, i0, l0, c0, i as int, line_no as nat, pos_no as nat);
                }
            }
        } else if exec_is_number_char(c) {
            let number = get_number(&v, &mut i, &mut pos_no);
            let ti = TokenInfo {
                token_type: TokenType::Number(number),
                line: line_no,
                pos: start_pos,
            };
            proof {
                assert(st.tok == Some(ti@));
                assert(st.end == i as int);
                assert(st.line == line_no as nat);
                assert(st.col == pos_no as nat);
            }
            tokens.push(ti);
            proof {
                lemma_step_push(v@, pre, ti, i0, l0, c0, i as int, line_no as nat, pos_no as nat);
            }
        } else if c == '<' || c == '>' {
            let comparator = get_comparator(&v, &mut i, &mut pos_no);
            let ti = TokenInfo {
                token_type: TokenType::Comparator(comparator),
                line: line_no,
                pos: start_pos,
            };
            proof {
                assert(st.tok == Some(ti@));
                assert(st.end == i as int);
                assert(st.line == line_no as nat);
                assert(st.col == pos_no as nat);
            }
            tokens.push(ti);
            proof {
                lemma_step_push(v@, pre, ti, i0, l0, c0, i as int, line_no as nat, pos_no as nat);
            }
        } else if c == '/' {
            if i + 1 < v.len() && v[i + 1] == '/' {
                i += 2;
                pos_no += 2;
                let comment = get_single_comment(&v, &mut i, &mut pos_no);
                let ti = TokenInfo {
                    token_type: TokenType::Comment(comment),
                    line: line_no,
                    pos: start_pos,
                };
                proof {
                    assert(st.tok == Some(ti@));
                    assert(st.end == i as int);
                    assert(st.line == line_no as nat);
                    assert(st.col == pos_no as nat);
                }
                tokens.push(ti);
                proof {
                    lemma_step_push(v@, pre, ti, i0, l0, c0, i as int, line_no as nat, pos_no as nat);
                }
            } else if i + 1 < v.len() && v[i + 1] == '*' {
                let tok_line = line_no;
                i += 2;
                pos_no += 2;
                let comment = get_block_comment(&v, &mut i, &mut line_no, &mut pos_no);
                let ti = TokenInfo {
                    token_type: TokenType::Comment(comment),
                    line: tok_line,
                    pos: start_pos,
                };
                proof {
                    assert(st.tok == Some(ti@));
                    assert(st.end == i as int);
                    assert(st.line == line_no as nat);
                    assert(st.col == pos_no as nat);
                }
                tokens.push(ti);
                proof {
                    lemma_step_push(v@, pre, ti, i0, l0, c0, i as int, line_no as nat, pos_no as nat);
                }
            } else {
                i += 1;
                pos_no += 1;
                let ti = TokenInfo {
                    token_type: TokenType::Operator(c),
                    line: line_no,
                    pos: start_pos,
                };
                proof {
                    assert(st.tok == Some(ti@));
                    assert(st.end == i as int);
                    assert(st.line == line_no as nat);
                    assert(st.col == pos_no as nat);
                }
                tokens.push(ti);
                proof {
                    lemma_step_push(v@, pre, ti, i0, l0, c0, i as int, line_no as nat, pos_no as nat);
                }
            }
        } else if c == '+' || c == '-' || c == '*' || c == '&' {
            i += 1;
            pos_no += 1;
            let ti = TokenInfo {
                token_type: TokenType::Operator(c),
                line: line_no,
                pos: start_pos,
            };
            proof {
                assert(st.tok == Some(ti@));
                assert(st.end == i as int);
                assert(st.line == line_no as nat);
                assert(st.col == pos_no as nat);
            }
            tokens.push(ti);
            proof {
                lemma_step_push(v@, pre, ti, i0, l0, c0, i as int, line_no as nat, pos_no as nat);
            }
        } else if exec_is_space(c) {
            let _whitespace = get_whitespace(&v, &mut i, &mut pos_no);
            let ti = TokenInfo { token_type: TokenType::Whitespace, line: line_no, pos: start_pos };
            proof {
                assert(st.tok == Some(ti@));
                assert(st.end == i as int);
                assert(st.line == line_no as nat);
                assert(st.col == pos_no as nat);
            }
            tokens.push(ti);
            proof {
                lemma_step_push(v@, pre, ti, i0, l0, c0, i as int, line_no as nat, pos_no as nat);
            }
        } else if c == '(' || c == ')' {
            i += 1;
            pos_no += 1;
            let ti = TokenInfo { token_type: TokenType::Paren(c), line: line_no, pos: start_pos };
            proof {
                assert(st.tok == Some(ti@));
                assert(st.end == i as int);
                assert(st.line == line_no as nat);
                assert(st.col == pos_no as nat);
            }
            tokens.push(ti);
            proof {
                lemma_step_push(v@, pre, ti, i0, l0, c0, i as int, line_no as nat, pos_no as nat);
            }
        } else if c == '\'' {
            i += 1;
            pos_no += 1;
            let comment = get_single_comment(&v, &mut i, &mut pos_no);
            let ti = TokenInfo {
                token_type: TokenType::Comment(comment),
                line: line_no,
                pos: start_pos,
            };
            proof {
                assert(st.tok == Some(ti@));
                assert(st.end == i as int);
                assert(st.line == line_no as nat);
                assert(st.col == pos_no as nat);
            }
            tokens.push(ti);
            proof {
                lemma_step_push(v@, pre, ti, i0, l0, c0, i as int, line_no as nat, pos_no as nat);
            }
        } else if c == '"' {
            let tok_line = line_no;
            let text_string = get_text(&v, &mut i, &mut line_no, &mut pos_no);
            let ti = TokenInfo {
                token_type: TokenType::Text(text_string),
                line: tok_line,
                pos: start_pos,
            };
            proof {
                assert(st.tok == Some(ti@));
                assert(st.end == i as int);
                assert(st.line == line_no as nat);
                assert(st.col == pos_no as nat);
            }
            tokens.push(ti);
            proof {
                lemma_step_push(v@, pre, ti, i0, l0, c0, i as int, line_no as nat, pos_no as nat);
            }
        } else if c == '\r' {
            if i + 1 < v.len() && v[i + 1] == '\n' {
                i += 2;
            } else {
                i += 1;
            }
            let ti = TokenInfo { token_type: TokenType::EndOfLine, line: line_no, pos: start_pos };
            line_no += 1;
            pos_no = 0;
            proof {
                assert(st.tok == Some(ti@));
                assert(st.end == i as int);
                assert(st.line == line_no as nat);
                assert(st.col == pos_no as nat);
            }
            tokens.push(ti);
            proof {
                lemma_step_push(v@, pre, ti, i0, l0, c0, i as int, line_no as nat, pos_no as nat);
            }
        } else if c == '\n' {
            i += 1;
            let ti = TokenInfo { token_type: TokenType::EndOfLine, line: line_no, pos: start_pos };
            line_no += 1;
            pos_no = 0;
            proof {
                assert(st.tok == Some(ti@));
                assert(st.end == i as int);
                assert(st.line == line_no as nat);
                assert(st.col == pos_no as nat);
            }
            tokens.push(ti);
            proof {
                lemma_step_push(v@, pre, ti, i0, l0, c0, i as int, line_no as nat, pos_no as nat);
            }
        } else if c == '=' {
            i += 1;
            pos_no += 1;
            let ti = TokenInfo { token_type: TokenType::EqualSign, line: line_no, pos: start_pos };
            proof {
                assert(st.tok == Some(ti@));
                assert(st.end == i as int);
                assert(st.line == line_no as nat);
                assert(st.col == pos_no as nat);
            }
            tokens.push(ti);
            proof {
                lemma_step_push(v@, pre, ti, i0, l0, c0, i as int, line_no as nat, pos_no as nat);
            }
        } else if c == ',' {
            i += 1;
            pos_no += 1;
            let ti = TokenInfo { token_type: TokenType::Comma, line: line_no, pos: start_pos };
            proof {
                assert(st.tok == Some(ti@));
                assert(st.end == i as int);
                assert(st.line == line_no as nat);
                assert(st.col == pos_no as nat);
            }
            tokens.push(ti);
            proof {
                lemma_step_push(v@, pre, ti, i0, l0, c0, i as int, line_no as nat, pos_no as nat);
            }
        } else if c == '\u{feff}' {
            i += 1;
            pos_no += 1;
            proof {
                assert(st.tok is None);
                assert(spec_tokenize_from(v@, i0, l0, c0) == spec_tokenize_from(
                    v@,
                    i as int,
                    line_no as nat,
                    pos_no as nat,
                ));
            }
        } else {
            i += 1;
            pos_no += 1;
            let ti = TokenInfo { token_type: TokenType::Unknown(c), line: line_no, pos: start_pos };
            proof {
                assert(st.tok == Some(ti@));
                assert(st.end == i as int);
                assert(st.line == line_no as nat);
                assert(st.col == pos_no as nat);
            }
            tokens.push(ti);
            proof {
                lemma_step_push(v@, pre, ti, i0, l0, c0, i as int, line_no as nat, pos_no as nat);
            }
        }
    }
    proof {
        assert(spec_tokenize_from(v@, i as int, line_no as nat, pos_no as nat)
            == Seq::<Token>::empty());
        assert(tokens_view(tokens@) + Seq::<Token>::empty() =~= tokens_view(tokens@));
    }
    tokens
}

} // verus!
