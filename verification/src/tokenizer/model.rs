//! Mathematical model of the lexer.
//!
//! The scanner over `Seq<char>` defined here is the specification that the
//! executable lexer in the parent module is proved to implement: one token
//! step at a time, each step consuming at least one character and carrying
//! the running line and column counters.

use vstd::prelude::*;

verus! {

/// Spec-level token kind; textual lexemes are character sequences.
pub enum TokenKind {
    Whitespace,
    EndOfLine,
    Paren(char),
    EqualSign,
    Operator(char),
    Comparator(Seq<char>),
    Number(Seq<char>),
    Symbol(Seq<char>),
    Text(Seq<char>),
    Comment(Seq<char>),
    Unknown(char),
    Comma,
}

/// Spec-level token: kind plus the 1-based line and column of its first character.
pub struct Token {
    pub kind: TokenKind,
    pub line: nat,
    pub pos: nat,
}

pub open spec fn is_line_break(c: char) -> bool {
    c == '\n' || c == '\r'
}

pub open spec fn is_space(c: char) -> bool {
    c == ' ' || c == '\t'
}

pub open spec fn is_number_char(c: char) -> bool {
    ('0' <= c && c <= '9') || c == '.'
}

pub open spec fn is_comparator_char(c: char) -> bool {
    c == '<' || c == '>' || c == '='
}

pub open spec fn is_lowercase(c: char) -> bool {
    'a' <= c && c <= 'z'
}

pub open spec fn is_symbol_char(c: char) -> bool {
    ('A' <= c && c <= 'Z') || is_lowercase(c) || c == '#' || c == '$' || c == '%' || c == '_'
}

/// Case folding performed while a symbol is consumed: ASCII lower case
/// letters become upper case, all other characters are unchanged.
pub open spec fn fold_char(c: char) -> char {
    if is_lowercase(c) {
        ((c as u8) - 32) as char
    } else {
        c
    }
}

/// The folding function as a value, for use with `Seq::map_values`.
pub open spec fn fold_fn() -> spec_fn(char) -> char {
    |c: char| fold_char(c)
}

pub open spec fn symbol_char_p() -> spec_fn(char) -> bool {
    |c: char| is_symbol_char(c)
}

pub open spec fn number_char_p() -> spec_fn(char) -> bool {
    |c: char| is_number_char(c)
}

pub open spec fn comparator_char_p() -> spec_fn(char) -> bool {
    |c: char| is_comparator_char(c)
}

pub open spec fn space_p() -> spec_fn(char) -> bool {
    |c: char| is_space(c)
}

pub open spec fn not_line_break_p() -> spec_fn(char) -> bool {
    |c: char| !is_line_break(c)
}

/// First index at or after `i` whose character fails `p` (or the end of `s`).
pub open spec fn run_end(s: Seq<char>, i: int, p: spec_fn(char) -> bool) -> int
    decreases s.len() - i
        when 0 <= i <= s.len()
{
    if i < s.len() && p(s[i]) {
        run_end(s, i + 1, p)
    } else {
        i
    }
}

pub proof fn lemma_run_end(s: Seq<char>, i: int, p: spec_fn(char) -> bool)
    requires
        0 <= i <= s.len(),
    ensures
        i <= run_end(s, i, p) <= s.len(),
        forall|k: int| i <= k < run_end(s, i, p) ==> p(s[k]),
        run_end(s, i, p) < s.len() ==> !p(s[run_end(s, i, p)]),
    decreases s.len() - i,
{
    if i < s.len() && p(s[i]) {
        lemma_run_end(s, i + 1, p);
    }
}

/// A run may be scanned from any point inside it: skipping characters that
/// satisfy `p` does not move its end.
pub proof fn lemma_run_end_from(s: Seq<char>, i: int, j: int, p: spec_fn(char) -> bool)
    requires
        0 <= i <= j <= s.len(),
        forall|k: int| i <= k < j ==> p(s[k]),
    ensures
        run_end(s, i, p) == run_end(s, j, p),
    decreases j - i,
{
    if i < j {
        assert(p(s[i]));
        lemma_run_end_from(s, i + 1, j, p);
    }
}

/// Result of scanning the interior of a multi-line construct (block comment
/// or quoted text): the collected lexeme part, the index just past the last
/// consumed character, and the line/column counters after it.
pub struct Scan {
    pub lex: Seq<char>,
    pub end: int,
    pub line: nat,
    pub col: nat,
}

/// Interior of a `/* ... */` comment, starting just after the opening `/*`.
/// Ends after a closing `*/` or at the end of input. Line breaks (CR, LF,
/// CRLF) are collapsed to a single `\n` in the lexeme and advance the line
/// counter, resetting the column.
pub open spec fn scan_block_comment(s: Seq<char>, i: int, line: nat, col: nat) -> Scan
    decreases s.len() - i
        when 0 <= i <= s.len()
{
    if i >= s.len() {
        Scan { lex: Seq::empty(), end: i, line, col }
    } else if s[i] == '*' && i + 1 < s.len() && s[i + 1] == '/' {
        Scan { lex: Seq::empty(), end: i + 2, line, col: (col + 2) as nat }
    } else if s[i] == '\r' && i + 1 < s.len() && s[i + 1] == '\n' {
        let r = scan_block_comment(s, i + 2, (line + 1) as nat, 0);
        Scan { lex: seq!['\n'] + r.lex, end: r.end, line: r.line, col: r.col }
    } else if is_line_break(s[i]) {
        let r = scan_block_comment(s, i + 1, (line + 1) as nat, 0);
        Scan { lex: seq!['\n'] + r.lex, end: r.end, line: r.line, col: r.col }
    } else {
        let r = scan_block_comment(s, i + 1, line, (col + 1) as nat);
        Scan { lex: seq![s[i]] + r.lex, end: r.end, line: r.line, col: r.col }
    }
}

pub proof fn lemma_scan_block_comment(s: Seq<char>, i: int, line: nat, col: nat)
    requires
        0 <= i <= s.len(),
        1 <= line,
        line <= 1 + i,
        col <= i,
    ensures
        i <= scan_block_comment(s, i, line, col).end <= s.len(),
        1 <= scan_block_comment(s, i, line, col).line <= 1 + scan_block_comment(
            s,
            i,
            line,
            col,
        ).end,
        scan_block_comment(s, i, line, col).col <= scan_block_comment(s, i, line, col).end,
        line <= scan_block_comment(s, i, line, col).line,
        scan_block_comment(s, i, line, col).line == line ==> col <= scan_block_comment(
            s,
            i,
            line,
            col,
        ).col,
        i < s.len() ==> i + 1 <= scan_block_comment(s, i, line, col).end,
    decreases s.len() - i,
{
    if i >= s.len() {
    } else if s[i] == '*' && i + 1 < s.len() && s[i + 1] == '/' {
    } else if s[i] == '\r' && i + 1 < s.len() && s[i + 1] == '\n' {
        lemma_scan_block_comment(s, i + 2, (line + 1) as nat, 0);
    } else if is_line_break(s[i]) {
        lemma_scan_block_comment(s, i + 1, (line + 1) as nat, 0);
    } else {
        lemma_scan_block_comment(s, i + 1, line, (col + 1) as nat);
    }
}

/// Interior of a quoted text literal, starting just after the opening quote.
/// A doubled quote stands for a literal quote and does not terminate; a
/// single quote does, and is included in the lexeme. Line breaks are
/// normalized as in block comments. An unterminated literal runs to the end
/// of input.
pub open spec fn scan_text(s: Seq<char>, i: int, line: nat, col: nat) -> Scan
    decreases s.len() - i
        when 0 <= i <= s.len()
{
    if i >= s.len() {
        Scan { lex: Seq::empty(), end: i, line, col }
    } else if s[i] == '"' && i + 1 < s.len() && s[i + 1] == '"' {
        let r = scan_text(s, i + 2, line, (col + 2) as nat);
        Scan { lex: seq!['"', '"'] + r.lex, end: r.end, line: r.line, col: r.col }
    } else if s[i] == '"' {
        Scan { lex: seq!['"'], end: i + 1, line, col: (col + 1) as nat }
    } else if s[i] == '\r' && i + 1 < s.len() && s[i + 1] == '\n' {
        let r = scan_text(s, i + 2, (line + 1) as nat, 0);
        Scan { lex: seq!['\n'] + r.lex, end: r.end, line: r.line, col: r.col }
    } else if is_line_break(s[i]) {
        let r = scan_text(s, i + 1, (line + 1) as nat, 0);
        Scan { lex: seq!['\n'] + r.lex, end: r.end, line: r.line, col: r.col }
    } else {
        let r = scan_text(s, i + 1, line, (col + 1) as nat);
        Scan { lex: seq![s[i]] + r.lex, end: r.end, line: r.line, col: r.col }
    }
}

pub proof fn lemma_scan_text(s: Seq<char>, i: int, line: nat, col: nat)
    requires
        0 <= i <= s.len(),
        1 <= line,
        line <= 1 + i,
        col <= i,
    ensures
        i <= scan_text(s, i, line, col).end <= s.len(),
        1 <= scan_text(s, i, line, col).line <= 1 + scan_text(s, i, line, col).end,
        scan_text(s, i, line, col).col <= scan_text(s, i, line, col).end,
        line <= scan_text(s, i, line, col).line,
        scan_text(s, i, line, col).line == line ==> col <= scan_text(s, i, line, col).col,
        i < s.len() ==> i + 1 <= scan_text(s, i, line, col).end,
    decreases s.len() - i,
{
    if i >= s.len() {
    } else if s[i] == '"' && i + 1 < s.len() && s[i + 1] == '"' {
        lemma_scan_text(s, i + 2, line, (col + 2) as nat);
    } else if s[i] == '"' {
    } else if s[i] == '\r' && i + 1 < s.len() && s[i + 1] == '\n' {
        lemma_scan_text(s, i + 2, (line + 1) as nat, 0);
    } else if is_line_break(s[i]) {
        lemma_scan_text(s, i + 1, (line + 1) as nat, 0);
    } else {
        lemma_scan_text(s, i + 1, line, (col + 1) as nat);
    }
}

/// The token is a `Symbol` whose (case-folded) lexeme equals `name`.
pub open spec fn is_symbol_named(t: Token, name: Seq<char>) -> bool {
    t.kind matches TokenKind::Symbol(s) && s == name
}

pub open spec fn is_whitespace_token(t: Token) -> bool {
    t.kind is Whitespace
}

pub open spec fn is_symbol_token(t: Token) -> bool {
    t.kind is Symbol
}

pub open spec fn is_equal_sign_token(t: Token) -> bool {
    t.kind is EqualSign
}

pub open spec fn is_end_of_line_token(t: Token) -> bool {
    t.kind is EndOfLine
}

pub open spec fn is_text_token(t: Token) -> bool {
    t.kind is Text
}

/// One dispatch step of the scanner at position `i` (which must be in
/// bounds): the token produced, if any, the index just past the consumed
/// characters, and the line/column counters after them.
pub struct Step {
    pub tok: Option<Token>,
    pub end: int,
    pub line: nat,
    pub col: nat,
}

pub open spec fn token_step(s: Seq<char>, i: int, line: nat, col: nat) -> Step
    recommends
        0 <= i < s.len(),
{
    let c = s[i];
    let start = (col + 1) as nat;
    if is_symbol_char(c) {
        let e = run_end(s, i, symbol_char_p());
        let lex = s.subrange(i, e).map_values(fold_fn());
        if lex == "REM"@ {
            let ce = run_end(s, e, not_line_break_p());
            Step {
                tok: Some(Token { kind: TokenKind::Comment(s.subrange(e, ce)), line, pos: start }),
                end: ce,
                line,
                col: (col + (ce - i)) as nat,
            }
        } else {
            Step {
                tok: Some(Token { kind: TokenKind::Symbol(lex), line, pos: start }),
                end: e,
                line,
                col: (col + (e - i)) as nat,
            }
        }
    } else if is_number_char(c) {
        let e = run_end(s, i, number_char_p());
        Step {
            tok: Some(Token { kind: TokenKind::Number(s.subrange(i, e)), line, pos: start }),
            end: e,
            line,
            col: (col + (e - i)) as nat,
        }
    } else if c == '<' || c == '>' {
        let e = run_end(s, i, comparator_char_p());
        Step {
            tok: Some(Token { kind: TokenKind::Comparator(s.subrange(i, e)), line, pos: start }),
            end: e,
            line,
            col: (col + (e - i)) as nat,
        }
    } else if c == '/' && i + 1 < s.len() && s[i + 1] == '/' {
        let ce = run_end(s, i + 2, not_line_break_p());
        Step {
            tok: Some(Token { kind: TokenKind::Comment(s.subrange(i + 2, ce)), line, pos: start }),
            end: ce,
            line,
            col: (col + (ce - i)) as nat,
        }
    } else if c == '/' && i + 1 < s.len() && s[i + 1] == '*' {
        let r = scan_block_comment(s, i + 2, line, (col + 2) as nat);
        Step {
            tok: Some(Token { kind: TokenKind::Comment(r.lex), line, pos: start }),
            end: r.end,
            line: r.line,
            col: r.col,
        }
    } else if c == '/' || c == '+' || c == '-' || c == '*' || c == '&' {
        Step {
            tok: Some(Token { kind: TokenKind::Operator(c), line, pos: start }),
            end: i + 1,
            line,
            col: start,
        }
    } else if is_space(c) {
        let e = run_end(s, i, space_p());
        Step {
            tok: Some(Token { kind: TokenKind::Whitespace, line, pos: start }),
            end: e,
            line,
            col: (col + (e - i)) as nat,
        }
    } else if c == '(' || c == ')' {
        Step {
            tok: Some(Token { kind: TokenKind::Paren(c), line, pos: start }),
            end: i + 1,
            line,
            col: start,
        }
    } else if c == '\'' {
        let ce = run_end(s, i + 1, not_line_break_p());
        Step {
            tok: Some(Token { kind: TokenKind::Comment(s.subrange(i + 1, ce)), line, pos: start }),
            end: ce,
            line,
            col: (col + (ce - i)) as nat,
        }
    } else if c == '"' {
        let r = scan_text(s, i + 1, line, start);
        Step {
            tok: Some(Token { kind: TokenKind::Text(seq!['"'] + r.lex), line, pos: start }),
            end: r.end,
            line: r.line,
            col: r.col,
        }
    } else if c == '\r' {
        let e = if i + 1 < s.len() && s[i + 1] == '\n' {
            i + 2
        } else {
            i + 1
        };
        Step {
            tok: Some(Token { kind: TokenKind::EndOfLine, line, pos: start }),
            end: e,
            line: (line + 1) as nat,
            col: 0,
        }
    } else if c == '\n' {
        Step {
            tok: Some(Token { kind: TokenKind::EndOfLine, line, pos: start }),
            end: i + 1,
            line: (line + 1) as nat,
            col: 0,
        }
    } else if c == '=' {
        Step {
            tok: Some(Token { kind: TokenKind::EqualSign, line, pos: start }),
            end: i + 1,
            line,
            col: start,
        }
    } else if c == ',' {
        Step {
            tok: Some(Token { kind: TokenKind::Comma, line, pos: start }),
            end: i + 1,
            line,
            col: start,
        }
    } else if c == '\u{feff}' {
        Step { tok: None, end: i + 1, line, col: start }
    } else {
        Step {
            tok: Some(Token { kind: TokenKind::Unknown(c), line, pos: start }),
            end: i + 1,
            line,
            col: start,
        }
    }
}

pub proof fn lemma_token_step(s: Seq<char>, i: int, line: nat, col: nat)
    requires
        0 <= i < s.len(),
        1 <= line,
        line <= 1 + i,
        col <= i,
    ensures
        i < token_step(s, i, line, col).end <= s.len(),
        1 <= token_step(s, i, line, col).line <= 1 + token_step(s, i, line, col).end,
        token_step(s, i, line, col).col <= token_step(s, i, line, col).end,
        token_step(s, i, line, col).tok matches Some(t) ==> t.line == line && t.pos == col + 1,
        line <= token_step(s, i, line, col).line,
        token_step(s, i, line, col).line == line ==> col + 1 <= token_step(s, i, line, col).col,
{
    lemma_run_end(s, i, symbol_char_p());
    lemma_run_end(s, i, number_char_p());
    lemma_run_end(s, i, comparator_char_p());
    lemma_run_end(s, i, space_p());
    if i + 1 <= s.len() {
        lemma_run_end(s, i + 1, not_line_break_p());
        lemma_scan_text(s, i + 1, line, (col + 1) as nat);
    }
    if i + 2 <= s.len() {
        lemma_run_end(s, i + 2, not_line_break_p());
        lemma_scan_block_comment(s, i + 2, line, (col + 2) as nat);
    }
    if is_symbol_char(s[i]) {
        let e = run_end(s, i, symbol_char_p());
        assert(symbol_char_p()(s[i]));
        assert(e == run_end(s, i + 1, symbol_char_p()));
        lemma_run_end(s, e, not_line_break_p());
    }
    if is_number_char(s[i]) {
        assert(number_char_p()(s[i]));
        assert(run_end(s, i, number_char_p()) == run_end(s, i + 1, number_char_p()));
    }
    if s[i] == '<' || s[i] == '>' {
        assert(comparator_char_p()(s[i]));
        assert(run_end(s, i, comparator_char_p()) == run_end(s, i + 1, comparator_char_p()));
    }
    if is_space(s[i]) {
        assert(space_p()(s[i]));
        assert(run_end(s, i, space_p()) == run_end(s, i + 1, space_p()));
    }
}

/// The token stream of `s` from position `i` on, with the given line and
/// column counters.
pub open spec fn spec_tokenize_from(s: Seq<char>, i: int, line: nat, col: nat) -> Seq<Token>
    decreases s.len() - i
        when 0 <= i <= s.len()
{
    if i >= s.len() {
        Seq::empty()
    } else {
        let st = token_step(s, i, line, col);
        let rest = if i < st.end <= s.len() {
            spec_tokenize_from(s, st.end, st.line, st.col)
        } else {
            Seq::empty()
        };
        match st.tok {
            Some(t) => seq![t] + rest,
            None => rest,
        }
    }
}

/// The complete token stream of a source text: scanning starts at line 1,
/// column 0.
pub open spec fn spec_tokenize(s: Seq<char>) -> Seq<Token> {
    spec_tokenize_from(s, 0, 1, 0)
}

/// A token's position is 1-based and bounded by the source length.
pub open spec fn token_position_bounded(t: Token, n: int) -> bool {
    &&& 1 <= t.line <= 1 + n
    &&& 1 <= t.pos <= 1 + n
}

/// Every token of the stream carries a 1-based line and column, both
/// bounded by the length of the source.
pub proof fn lemma_tokenize_from_bounds(s: Seq<char>, i: int, line: nat, col: nat)
    requires
        0 <= i <= s.len(),
        1 <= line,
        line <= 1 + i,
        col <= i,
    ensures
        forall|k: int|
            0 <= k < spec_tokenize_from(s, i, line, col).len() ==> token_position_bounded(
                #[trigger] spec_tokenize_from(s, i, line, col)[k],
                s.len() as int,
            ),
    decreases s.len() - i,
{
    if i < s.len() {
        lemma_token_step(s, i, line, col);
        let st = token_step(s, i, line, col);
        lemma_tokenize_from_bounds(s, st.end, st.line, st.col);
        let rest = spec_tokenize_from(s, st.end, st.line, st.col);
        match st.tok {
            Some(t) => {
                assert(spec_tokenize_from(s, i, line, col) == seq![t] + rest);
                assert(forall|k: int|
                    0 <= k < rest.len() ==> (seq![t] + rest)[k + 1] == rest[k]);
            },
            None => {
                assert(spec_tokenize_from(s, i, line, col) == rest);
            },
        }
    }
}

/// Bounds for the whole token stream of a source text.
pub proof fn lemma_tokenize_bounds(s: Seq<char>)
    ensures
        forall|k: int|
            0 <= k < spec_tokenize(s).len() ==> token_position_bounded(
                #[trigger] spec_tokenize(s)[k],
                s.len() as int,
            ),
{
    lemma_tokenize_from_bounds(s, 0, 1, 0);
}

} // verus!
