//! Global laws of the lexer.
//!
//! Position monotonicity: across the token stream the line never
//! decreases, and within one line the column strictly increases.
//!
//! Totality of scanning: the scanner consumes every character of the
//! source, one token step at a time and in order, so concatenating the
//! consumed spans — with CR, LF and CRLF collapsed to a single line-break
//! marker — reproduces the whole normalized source.

use vstd::prelude::*;

use crate::tokenizer::model::{
    is_line_break, is_symbol_char, lemma_run_end, lemma_scan_block_comment, lemma_scan_text,
    lemma_token_step, not_line_break_p, run_end, scan_block_comment, scan_text, spec_tokenize,
    spec_tokenize_from, symbol_char_p, token_step, Token,
};

verus! {

/// Every token lies strictly after the running position (`line`, `col`).
pub open spec fn tokens_after(ts: Seq<Token>, line: nat, col: nat) -> bool {
    forall|k: int|
        0 <= k < ts.len() ==> ((#[trigger] ts[k]).line > line || (ts[k].line == line && ts[k].pos
            > col))
}

/// For consecutive tokens the line never decreases, and tokens on one
/// line have strictly increasing columns.
pub open spec fn positions_monotonic(ts: Seq<Token>) -> bool {
    forall|k: int|
        0 <= k && k + 1 < ts.len() ==> ((#[trigger] ts[k]).line < ts[k + 1].line || (ts[k].line
            == ts[k + 1].line && ts[k].pos < ts[k + 1].pos))
}

proof fn lemma_tokenize_from_monotonic(s: Seq<char>, i: int, line: nat, col: nat)
    requires
        0 <= i <= s.len(),
        1 <= line,
        line <= 1 + i,
        col <= i,
    ensures
        tokens_after(spec_tokenize_from(s, i, line, col), line, col),
        positions_monotonic(spec_tokenize_from(s, i, line, col)),
    decreases s.len() - i,
{
    if i < s.len() {
        lemma_token_step(s, i, line, col);
        let st = token_step(s, i, line, col);
        lemma_tokenize_from_monotonic(s, st.end, st.line, st.col);
        let rest = spec_tokenize_from(s, st.end, st.line, st.col);
        let ts = spec_tokenize_from(s, i, line, col);
        match st.tok {
            Some(t0) => {
                assert(ts == seq![t0] + rest);
                assert(forall|k: int| 0 <= k < rest.len() ==> ts[k + 1] == #[trigger] rest[k]);
                assert forall|k: int|
                    0 <= k < ts.len() implies ((#[trigger] ts[k]).line > line || (ts[k].line
                    == line && ts[k].pos > col)) by {
                    if k > 0 {
                        assert(ts[k] == rest[k - 1]);
                        assert(rest[k - 1].line > st.line || (rest[k - 1].line == st.line && rest[k
                            - 1].pos > st.col));
                    }
                }
                assert forall|k: int|
                    0 <= k && k + 1 < ts.len() implies ((#[trigger] ts[k]).line < ts[k + 1].line
                    || (ts[k].line == ts[k + 1].line && ts[k].pos < ts[k + 1].pos)) by {
                    if k == 0 {
                        assert(ts[0] == t0);
                        assert(ts[1] == rest[0]);
                        assert(rest[0].line > st.line || (rest[0].line == st.line && rest[0].pos
                            > st.col));
                    } else {
                        assert(ts[k] == rest[k - 1]);
                        assert(ts[k + 1] == rest[k]);
                        assert(rest[k - 1].line < rest[k].line || (rest[k - 1].line == rest[k].line
                            && rest[k - 1].pos < rest[k].pos));
                    }
                }
            },
            None => {
                assert(ts == rest);
                assert forall|k: int|
                    0 <= k < ts.len() implies ((#[trigger] ts[k]).line > line || (ts[k].line
                    == line && ts[k].pos > col)) by {
                    assert(rest[k].line > st.line || (rest[k].line == st.line && rest[k].pos
                        > st.col));
                }
            },
        }
    }
}

/// Position monotonicity for the whole token stream of a source text.
pub proof fn lemma_position_monotonicity(s: Seq<char>)
    ensures
        positions_monotonic(spec_tokenize(s)),
{
    lemma_tokenize_from_monotonic(s, 0, 1, 0);
}

/// Line breaks normalized: CR, LF and CRLF each become a single LF.
pub open spec fn normalize_newlines(s: Seq<char>) -> Seq<char>
    decreases s.len(),
{
    if s.len() == 0 {
        Seq::empty()
    } else if s[0] == '\r' && s.len() > 1 && s[1] == '\n' {
        seq!['\n'] + normalize_newlines(s.skip(2))
    } else if s[0] == '\r' {
        seq!['\n'] + normalize_newlines(s.skip(1))
    } else {
        seq![s[0]] + normalize_newlines(s.skip(1))
    }
}

/// The text the scanner consumes from position `i` on: the source span of
/// each token step in order, with line breaks normalized.
pub open spec fn spec_consumed_from(s: Seq<char>, i: int, line: nat, col: nat) -> Seq<char>
    decreases s.len() - i
        when 0 <= i <= s.len()
{
    if i >= s.len() {
        Seq::empty()
    } else {
        let st = token_step(s, i, line, col);
        if i < st.end <= s.len() {
            normalize_newlines(s.subrange(i, st.end)) + spec_consumed_from(
                s,
                st.end,
                st.line,
                st.col,
            )
        } else {
            Seq::empty()
        }
    }
}

/// The text the scanner consumes over a whole source.
pub open spec fn spec_consumed(s: Seq<char>) -> Seq<char> {
    spec_consumed_from(s, 0, 1, 0)
}

/// A block-comment scan never stops between the CR and the LF of a CRLF
/// pair.
proof fn lemma_scan_block_boundary(s: Seq<char>, i: int, line: nat, col: nat)
    requires
        0 <= i <= s.len(),
        1 <= line,
        line <= 1 + i,
        col <= i,
    ensures
        ({
            let r = scan_block_comment(s, i, line, col);
            (i < r.end && r.end < s.len() && s[r.end - 1] == '\r') ==> s[r.end] != '\n'
        }),
    decreases s.len() - i,
{
    if i >= s.len() {
    } else if s[i] == '*' && i + 1 < s.len() && s[i + 1] == '/' {
    } else if s[i] == '\r' && i + 1 < s.len() && s[i + 1] == '\n' {
        lemma_scan_block_comment(s, i + 2, (line + 1) as nat, 0);
        lemma_scan_block_boundary(s, i + 2, (line + 1) as nat, 0);
    } else if is_line_break(s[i]) {
        lemma_scan_block_comment(s, i + 1, (line + 1) as nat, 0);
        lemma_scan_block_boundary(s, i + 1, (line + 1) as nat, 0);
    } else {
        lemma_scan_block_comment(s, i + 1, line, (col + 1) as nat);
        lemma_scan_block_boundary(s, i + 1, line, (col + 1) as nat);
    }
}

/// A text scan never stops between the CR and the LF of a CRLF pair.
proof fn lemma_scan_text_boundary(s: Seq<char>, i: int, line: nat, col: nat)
    requires
        0 <= i <= s.len(),
        1 <= line,
        line <= 1 + i,
        col <= i,
    ensures
        ({
            let r = scan_text(s, i, line, col);
            (i < r.end && r.end < s.len() && s[r.end - 1] == '\r') ==> s[r.end] != '\n'
        }),
    decreases s.len() - i,
{
    if i >= s.len() {
    } else if s[i] == '"' && i + 1 < s.len() && s[i + 1] == '"' {
        lemma_scan_text(s, i + 2, line, (col + 2) as nat);
        lemma_scan_text_boundary(s, i + 2, line, (col + 2) as nat);
    } else if s[i] == '"' {
    } else if s[i] == '\r' && i + 1 < s.len() && s[i + 1] == '\n' {
        lemma_scan_text(s, i + 2, (line + 1) as nat, 0);
        lemma_scan_text_boundary(s, i + 2, (line + 1) as nat, 0);
    } else if is_line_break(s[i]) {
        lemma_scan_text(s, i + 1, (line + 1) as nat, 0);
        lemma_scan_text_boundary(s, i + 1, (line + 1) as nat, 0);
    } else {
        lemma_scan_text(s, i + 1, line, (col + 1) as nat);
        lemma_scan_text_boundary(s, i + 1, line, (col + 1) as nat);
    }
}

/// A token step never stops between the CR and the LF of a CRLF pair.
proof fn lemma_token_step_boundary(s: Seq<char>, i: int, line: nat, col: nat)
    requires
        0 <= i < s.len(),
        1 <= line,
        line <= 1 + i,
        col <= i,
    ensures
        ({
            let st = token_step(s, i, line, col);
            (st.end < s.len() && s[st.end - 1] == '\r') ==> s[st.end] != '\n'
        }),
{
    lemma_token_step(s, i, line, col);
    let st = token_step(s, i, line, col);
    let c = s[i];
    if is_symbol_char(c) {
        lemma_run_end(s, i, symbol_char_p());
        let e = run_end(s, i, symbol_char_p());
        assert(symbol_char_p()(s[i]));
        assert(e == run_end(s, i + 1, symbol_char_p()));
        lemma_run_end(s, e, not_line_break_p());
        let ce = run_end(s, e, not_line_break_p());
        if st.end == ce && ce > e {
            assert(not_line_break_p()(s[ce - 1]));
        }
        if st.end == ce && ce == e {
            assert(symbol_char_p()(s[e - 1]));
        }
        if st.end == e {
            assert(symbol_char_p()(s[e - 1]));
        }
    } else if c == '/' && i + 1 < s.len() && s[i + 1] == '/' {
        lemma_run_end(s, i + 2, not_line_break_p());
        let ce = run_end(s, i + 2, not_line_break_p());
        if ce > i + 2 {
            assert(not_line_break_p()(s[ce - 1]));
        }
    } else if c == '/' && i + 1 < s.len() && s[i + 1] == '*' {
        lemma_scan_block_comment(s, i + 2, line, (col + 2) as nat);
        lemma_scan_block_boundary(s, i + 2, line, (col + 2) as nat);
    } else if c == '\'' {
        lemma_run_end(s, i + 1, not_line_break_p());
        let ce = run_end(s, i + 1, not_line_break_p());
        if ce > i + 1 {
            assert(not_line_break_p()(s[ce - 1]));
        }
    } else if c == '"' {
        lemma_scan_text(s, i + 1, line, (col + 1) as nat);
        lemma_scan_text_boundary(s, i + 1, line, (col + 1) as nat);
    } else {
        lemma_run_end(s, i, crate::tokenizer::model::number_char_p());
        lemma_run_end(s, i, crate::tokenizer::model::comparator_char_p());
        lemma_run_end(s, i, crate::tokenizer::model::space_p());
        if crate::tokenizer::model::is_number_char(c) {
            assert(crate::tokenizer::model::number_char_p()(s[i]));
            assert(run_end(s, i, crate::tokenizer::model::number_char_p()) == run_end(
                s,
                i + 1,
                crate::tokenizer::model::number_char_p(),
            ));
            let e = run_end(s, i, crate::tokenizer::model::number_char_p());
            assert(crate::tokenizer::model::number_char_p()(s[e - 1]));
        } else if c == '<' || c == '>' {
            assert(crate::tokenizer::model::comparator_char_p()(s[i]));
            assert(run_end(s, i, crate::tokenizer::model::comparator_char_p()) == run_end(
                s,
                i + 1,
                crate::tokenizer::model::comparator_char_p(),
            ));
            let e = run_end(s, i, crate::tokenizer::model::comparator_char_p());
            assert(crate::tokenizer::model::comparator_char_p()(s[e - 1]));
        } else if crate::tokenizer::model::is_space(c) {
            assert(crate::tokenizer::model::space_p()(s[i]));
            assert(run_end(s, i, crate::tokenizer::model::space_p()) == run_end(
                s,
                i + 1,
                crate::tokenizer::model::space_p(),
            ));
            let e = run_end(s, i, crate::tokenizer::model::space_p());
            assert(crate::tokenizer::model::space_p()(s[e - 1]));
        }
    }
}

/// Normalization splits at any boundary that does not separate the CR
/// and the LF of a CRLF pair.
proof fn lemma_normalize_split(s: Seq<char>, i: int, e: int)
    requires
        0 <= i <= e <= s.len(),
        (i < e && e < s.len() && s[e - 1] == '\r') ==> s[e] != '\n',
    ensures
        normalize_newlines(s.skip(i)) == normalize_newlines(s.subrange(i, e))
            + normalize_newlines(s.skip(e)),
    decreases e - i,
{
    let a = s.skip(i);
    let b = s.subrange(i, e);
    if i == e {
        assert(b =~= Seq::<char>::empty());
        assert(normalize_newlines(b) + normalize_newlines(s.skip(e)) =~= normalize_newlines(
            s.skip(e),
        ));
    } else {
        assert(a[0] == s[i]);
        assert(b[0] == s[i]);
        if s[i] == '\r' && i + 1 < s.len() && s[i + 1] == '\n' {
            assert(i + 1 != e);
            assert(a.len() > 1 && a[1] == '\n');
            assert(b.len() > 1 && b[1] == '\n');
            assert(a.skip(2) =~= s.skip(i + 2));
            assert(b.skip(2) =~= s.subrange(i + 2, e));
            lemma_normalize_split(s, i + 2, e);
            assert(seq!['\n'] + (normalize_newlines(s.subrange(i + 2, e)) + normalize_newlines(
                s.skip(e),
            )) =~= (seq!['\n'] + normalize_newlines(s.subrange(i + 2, e))) + normalize_newlines(
                s.skip(e),
            ));
        } else if s[i] == '\r' {
            assert(a.len() > 1 ==> a[1] != '\n');
            assert(b.len() > 1 ==> b[1] != '\n');
            assert(a.skip(1) =~= s.skip(i + 1));
            assert(b.skip(1) =~= s.subrange(i + 1, e));
            lemma_normalize_split(s, i + 1, e);
            assert(seq!['\n'] + (normalize_newlines(s.subrange(i + 1, e)) + normalize_newlines(
                s.skip(e),
            )) =~= (seq!['\n'] + normalize_newlines(s.subrange(i + 1, e))) + normalize_newlines(
                s.skip(e),
            ));
        } else {
            assert(a.skip(1) =~= s.skip(i + 1));
            assert(b.skip(1) =~= s.subrange(i + 1, e));
            lemma_normalize_split(s, i + 1, e);
            assert(seq![s[i]] + (normalize_newlines(s.subrange(i + 1, e)) + normalize_newlines(
                s.skip(e),
            )) =~= (seq![s[i]] + normalize_newlines(s.subrange(i + 1, e))) + normalize_newlines(
                s.skip(e),
            ));
        }
    }
}

proof fn lemma_consumed_from_covers(s: Seq<char>, i: int, line: nat, col: nat)
    requires
        0 <= i <= s.len(),
        1 <= line,
        line <= 1 + i,
        col <= i,
    ensures
        spec_consumed_from(s, i, line, col) == normalize_newlines(s.skip(i)),
    decreases s.len() - i,
{
    if i >= s.len() {
        assert(s.skip(i) =~= Seq::<char>::empty());
    } else {
        lemma_token_step(s, i, line, col);
        lemma_token_step_boundary(s, i, line, col);
        let st = token_step(s, i, line, col);
        lemma_consumed_from_covers(s, st.end, st.line, st.col);
        lemma_normalize_split(s, i, st.end);
    }
}

/// Lexer totality and round trip: scanning consumes every character of
/// the source in order, and concatenating the consumed spans, with line
/// breaks collapsed to one marker, reproduces the normalized source.
pub proof fn lemma_lexer_round_trip(s: Seq<char>)
    ensures
        spec_consumed(s) == normalize_newlines(s),
{
    lemma_consumed_from_covers(s, 0, 1, 0);
    assert(s.skip(0) =~= s);
}

/// Normalization steps over an ordinary first character.
proof fn lemma_normalize_head_plain(t: Seq<char>)
    requires
        t.len() > 0,
        t[0] != '\r',
    ensures
        normalize_newlines(t) == seq![t[0]] + normalize_newlines(t.skip(1)),
{
}

/// Normalization steps over a leading CRLF pair.
proof fn lemma_normalize_head_crlf(t: Seq<char>)
    requires
        t.len() > 1,
        t[0] == '\r',
        t[1] == '\n',
    ensures
        normalize_newlines(t) == seq!['\n'] + normalize_newlines(t.skip(2)),
{
}

/// Normalization steps over a leading lone CR.
proof fn lemma_normalize_head_cr(t: Seq<char>)
    requires
        t.len() > 0,
        t[0] == '\r',
        t.len() > 1 ==> t[1] != '\n',
    ensures
        normalize_newlines(t) == seq!['\n'] + normalize_newlines(t.skip(1)),
{
}

/// A text lexeme is exactly the normalized span the scan consumed: the
/// quotes, doubled quotes and interior characters as they stand in the
/// source, with line breaks collapsed to one marker.
pub proof fn lemma_scan_text_lexeme(s: Seq<char>, i: int, line: nat, col: nat)
    requires
        0 <= i <= s.len(),
        1 <= line,
        line <= 1 + i,
        col <= i,
    ensures
        ({
            let r = scan_text(s, i, line, col);
            r.lex == normalize_newlines(s.subrange(i, r.end))
        }),
    decreases s.len() - i,
{
    let r = scan_text(s, i, line, col);
    lemma_scan_text(s, i, line, col);
    if i >= s.len() {
        assert(s.subrange(i, i) =~= Seq::<char>::empty());
    } else if s[i] == '"' && i + 1 < s.len() && s[i + 1] == '"' {
        lemma_scan_text(s, i + 2, line, (col + 2) as nat);
        lemma_scan_text_lexeme(s, i + 2, line, (col + 2) as nat);
        let inner = scan_text(s, i + 2, line, (col + 2) as nat);
        let sub = s.subrange(i, r.end);
        assert(sub[0] == '"');
        lemma_normalize_head_plain(sub);
        assert(sub.skip(1) =~= s.subrange(i + 1, r.end));
        let sub1 = s.subrange(i + 1, r.end);
        assert(sub1[0] == '"');
        lemma_normalize_head_plain(sub1);
        assert(sub1.skip(1) =~= s.subrange(i + 2, r.end));
        assert(r.lex =~= seq!['"'] + (seq!['"'] + inner.lex));
    } else if s[i] == '"' {
        let sub = s.subrange(i, i + 1);
        assert(sub[0] == '"');
        lemma_normalize_head_plain(sub);
        assert(sub.skip(1) =~= Seq::<char>::empty());
        assert(normalize_newlines(Seq::<char>::empty()) == Seq::<char>::empty());
        assert(r.lex =~= seq!['"'] + Seq::<char>::empty());
    } else if s[i] == '\r' && i + 1 < s.len() && s[i + 1] == '\n' {
        lemma_scan_text(s, i + 2, (line + 1) as nat, 0);
        lemma_scan_text_lexeme(s, i + 2, (line + 1) as nat, 0);
        let inner = scan_text(s, i + 2, (line + 1) as nat, 0);
        let sub = s.subrange(i, r.end);
        assert(sub[0] == '\r');
        assert(sub[1] == '\n');
        lemma_normalize_head_crlf(sub);
        assert(sub.skip(2) =~= s.subrange(i + 2, r.end));
    } else if is_line_break(s[i]) {
        lemma_scan_text(s, i + 1, (line + 1) as nat, 0);
        lemma_scan_text_lexeme(s, i + 1, (line + 1) as nat, 0);
        let inner = scan_text(s, i + 1, (line + 1) as nat, 0);
        let sub = s.subrange(i, r.end);
        assert(sub[0] == s[i]);
        if s[i] == '\n' {
            lemma_normalize_head_plain(sub);
            assert(seq![s[i]] =~= seq!['\n']);
        } else {
            assert(sub.len() > 1 ==> sub[1] == s[i + 1] && s[i + 1] != '\n');
            lemma_normalize_head_cr(sub);
        }
        assert(sub.skip(1) =~= s.subrange(i + 1, r.end));
    } else {
        lemma_scan_text(s, i + 1, line, (col + 1) as nat);
        lemma_scan_text_lexeme(s, i + 1, line, (col + 1) as nat);
        let sub = s.subrange(i, r.end);
        assert(sub[0] == s[i]);
        lemma_normalize_head_plain(sub);
        assert(sub.skip(1) =~= s.subrange(i + 1, r.end));
    }
}

/// A block-comment lexeme is the normalized span the scan consumed, save
/// that a closing `*/` is left out of it.
pub proof fn lemma_scan_block_comment_lexeme(s: Seq<char>, i: int, line: nat, col: nat)
    requires
        0 <= i <= s.len(),
        1 <= line,
        line <= 1 + i,
        col <= i,
    ensures
        ({
            let r = scan_block_comment(s, i, line, col);
            r.lex == normalize_newlines(s.subrange(i, r.end)) || (i <= r.end - 2 && s[r.end - 2]
                == '*' && s[r.end - 1] == '/' && r.lex == normalize_newlines(
                s.subrange(i, r.end - 2),
            ))
        }),
    decreases s.len() - i,
{
    let r = scan_block_comment(s, i, line, col);
    lemma_scan_block_comment(s, i, line, col);
    if i >= s.len() {
        assert(s.subrange(i, i) =~= Seq::<char>::empty());
    } else if s[i] == '*' && i + 1 < s.len() && s[i + 1] == '/' {
        assert(s.subrange(i, i) =~= Seq::<char>::empty());
    } else if s[i] == '\r' && i + 1 < s.len() && s[i + 1] == '\n' {
        lemma_scan_block_comment(s, i + 2, (line + 1) as nat, 0);
        lemma_scan_block_comment_lexeme(s, i + 2, (line + 1) as nat, 0);
        let inner = scan_block_comment(s, i + 2, (line + 1) as nat, 0);
        let e = if inner.lex == normalize_newlines(s.subrange(i + 2, r.end)) {
            r.end
        } else {
            r.end - 2
        };
        let sub = s.subrange(i, e);
        assert(sub[0] == '\r');
        assert(sub[1] == '\n');
        lemma_normalize_head_crlf(sub);
        assert(sub.skip(2) =~= s.subrange(i + 2, e));
    } else if is_line_break(s[i]) {
        lemma_scan_block_comment(s, i + 1, (line + 1) as nat, 0);
        lemma_scan_block_comment_lexeme(s, i + 1, (line + 1) as nat, 0);
        let inner = scan_block_comment(s, i + 1, (line + 1) as nat, 0);
        let e = if inner.lex == normalize_newlines(s.subrange(i + 1, r.end)) {
            r.end
        } else {
            r.end - 2
        };
        let sub = s.subrange(i, e);
        assert(sub[0] == s[i]);
        if s[i] == '\n' {
            lemma_normalize_head_plain(sub);
            assert(seq![s[i]] =~= seq!['\n']);
        } else {
            assert(sub.len() > 1 ==> sub[1] == s[i + 1] && s[i + 1] != '\n');
            lemma_normalize_head_cr(sub);
        }
        assert(sub.skip(1) =~= s.subrange(i + 1, e));
    } else {
        lemma_scan_block_comment(s, i + 1, line, (col + 1) as nat);
        lemma_scan_block_comment_lexeme(s, i + 1, line, (col + 1) as nat);
        let inner = scan_block_comment(s, i + 1, line, (col + 1) as nat);
        let e = if inner.lex == normalize_newlines(s.subrange(i + 1, r.end)) {
            r.end
        } else {
            r.end - 2
        };
        let sub = s.subrange(i, e);
        assert(sub[0] == s[i]);
        lemma_normalize_head_plain(sub);
        assert(sub.skip(1) =~= s.subrange(i + 1, e));
    }
}

} // verus!
