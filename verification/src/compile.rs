//! Coarse check of the `#COMPILED` / `#ENDCOMPILED` delimiters over the
//! token stream: it stops at the first pairing error and reports nothing
//! about parameter clauses.

use vstd::prelude::*;

use crate::thinbasic_script::{Code, Issue, IssueSummary};
use crate::tokenizer::model::{is_symbol_named, spec_tokenize, Token};
use crate::tokenizer::{string_eq_str, tokens_view, TokenInfo, TokenType};

verus! {

/// The token is one of the two directive delimiters.
pub open spec fn is_directive_symbol(t: Token) -> bool {
    is_symbol_named(t, "#COMPILED"@) || is_symbol_named(t, "#ENDCOMPILED"@)
}

/// The stream holds at least one directive delimiter.
pub open spec fn spec_has_directive(toks: Seq<Token>) -> bool {
    exists|k: int| 0 <= k < toks.len() && is_directive_symbol(#[trigger] toks[k])
}

/// The analysis applies to a script only when its token stream holds a
/// directive delimiter at all.
pub fn analysis_available(code: &Code) -> (r: bool)
    requires
        code.wf(),
    ensures
        r == spec_has_directive(spec_tokenize(code@.content)),
{
    let tokens = code.get_tokens();
    let ghost toks = tokens_view(tokens@);
    let mut j: usize = 0;
    while j < tokens.len()
        invariant
            toks == tokens_view(tokens@),
            toks == spec_tokenize(code@.content),
            j <= tokens@.len(),
            forall|k: int| 0 <= k < j ==> !is_directive_symbol(#[trigger] toks[k]),
        decreases tokens@.len() - j,
    {
        match &tokens[j].token_type {
            TokenType::Symbol(kind) => {
                if string_eq_str(kind, "#COMPILED") || string_eq_str(kind, "#ENDCOMPILED") {
                    proof {
                        assert(is_directive_symbol(toks[j as int]));
                    }
                    return true;
                }
            },
            _ => {},
        }
        j += 1;
    }
    false
}

pub open spec fn msg_pairs_nested() -> Seq<char> {
    "Nested #COMPILE not supported"@
}

pub open spec fn msg_pairs_dangling() -> Seq<char> {
    "#ENDCOMPILE without #COMPILE"@
}

pub open spec fn msg_pairs_unmatched() -> Seq<char> {
    "#COMPILE does not have matching #ENDCOMPILE"@
}

/// The first pairing error of the delimiters from token `i` on, if any:
/// nesting and a close without an open are reported at the offending
/// token, an open left unclosed at the end of the stream is reported at
/// the line it was opened on, column 1.
pub open spec fn spec_pairs_match_from(
    toks: Seq<Token>,
    i: int,
    opened: bool,
    open_line: nat,
    file: Seq<char>,
) -> Option<Issue>
    decreases toks.len() - i
        when 0 <= i <= toks.len()
{
    if i >= toks.len() {
        if opened {
            Some(Issue { file, line: open_line, character: 1, summary: msg_pairs_unmatched() })
        } else {
            None
        }
    } else {
        let t = toks[i];
        if is_symbol_named(t, "#COMPILED"@) {
            if !opened {
                spec_pairs_match_from(toks, i + 1, true, t.line, file)
            } else {
                Some(Issue { file, line: t.line, character: t.pos, summary: msg_pairs_nested() })
            }
        } else if is_symbol_named(t, "#ENDCOMPILED"@) {
            if !opened {
                Some(Issue { file, line: t.line, character: t.pos, summary: msg_pairs_dangling() })
            } else {
                spec_pairs_match_from(toks, i + 1, false, open_line, file)
            }
        } else {
            spec_pairs_match_from(toks, i + 1, opened, open_line, file)
        }
    }
}

/// The first pairing error of a whole token stream, if any.
pub open spec fn spec_pairs_match(toks: Seq<Token>, file: Seq<char>) -> Option<Issue> {
    spec_pairs_match_from(toks, 0, false, 0, file)
}

/// Verifies that the delimiters pair up, stopping at the first error.
pub fn pairs_match(code: &Code) -> (r: Result<(), IssueSummary>)
    requires
        code.wf(),
    ensures
        r is Ok <==> spec_pairs_match(spec_tokenize(code@.content), code@.name) is None,
        r matches Err(e) ==> spec_pairs_match(spec_tokenize(code@.content), code@.name) == Some(
            e@,
        ),
{
    let tokens = code.get_tokens();
    let ghost toks = tokens_view(tokens@);
    let ghost fname = code@.name;
    let file_name = code.file_name();
    let mut j: usize = 0;
    let mut opened_fb_code = false;
    let mut num_opened: usize = 0;
    let mut num_closed: usize = 0;
    let mut last_opened_fb_code_line: u32 = 0;
    while j < tokens.len()
        invariant
            toks == tokens_view(tokens@),
            toks == spec_tokenize(code@.content),
            fname == code@.name,
            file_name@ == fname,
            j <= tokens@.len(),
            num_closed <= num_opened <= j,
            num_opened == num_closed + (if opened_fb_code {
                1int
            } else {
                0int
            }),
            spec_pairs_match(toks, fname) == spec_pairs_match_from(
                toks,
                j as int,
                opened_fb_code,
                last_opened_fb_code_line as nat,
                fname,
            ),
        decreases tokens@.len() - j,
    {
        let ghost j0 = j as int;
        let ghost opened0 = opened_fb_code;
        let ghost ol0 = last_opened_fb_code_line as nat;
        let t_line = tokens[j].line;
        let t_pos = tokens[j].pos;
        match &tokens[j].token_type {
            TokenType::Symbol(kind) => {
                j += 1;
                if string_eq_str(kind, "#COMPILED") {
                    if !opened_fb_code {
                        opened_fb_code = true;
                        num_opened += 1;
                        last_opened_fb_code_line = t_line;
                        proof {
                            assert(spec_pairs_match_from(toks, j0, opened0, ol0, fname)
                                == spec_pairs_match_from(
                                toks,
                                j as int,
                                true,
                                t_line as nat,
                                fname,
                            ));
                        }
                    } else {
                        return Err(
                            IssueSummary::new(
                                file_name.as_str(),
                                t_line,
                                t_pos,
                                "Nested #COMPILE not supported",
                            ),
                        );
                    }
                } else if string_eq_str(kind, "#ENDCOMPILED") {
                    if !opened_fb_code {
                        return Err(
                            IssueSummary::new(
                                file_name.as_str(),
                                t_line,
                                t_pos,
                                "#ENDCOMPILE without #COMPILE",
                            ),
                        );
                    } else {
                        opened_fb_code = false;
                        num_closed += 1;
                        proof {
                            assert(spec_pairs_match_from(toks, j0, opened0, ol0, fname)
                                == spec_pairs_match_from(toks, j as int, false, ol0, fname));
                        }
                    }
                } else {
                    proof {
                        assert(spec_pairs_match_from(toks, j0, opened0, ol0, fname)
                            == spec_pairs_match_from(toks, j as int, opened0, ol0, fname));
                    }
                }
            },
            _ => {
                j += 1;
                proof {
                    assert(spec_pairs_match_from(toks, j0, opened0, ol0, fname)
                        == spec_pairs_match_from(toks, j as int, opened0, ol0, fname));
                }
            },
        }
    }
    if num_opened > num_closed {
        Err(
            IssueSummary::new(
                file_name.as_str(),
                last_opened_fb_code_line,
                1,
                "#COMPILE does not have matching #ENDCOMPILE",
            ),
        )
    } else {
        Ok(())
    }
}

} // verus!
