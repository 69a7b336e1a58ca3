//! Directive-pairing rule: `#COMPILED` / `#ENDCOMPILED` blocks must be
//! balanced and not nested, and a valid opening may carry an optional
//! parameter clause (`SUPPRESSRTE`, `LANGUAGE = FREEBASIC`) that is checked
//! for shape.

use vstd::prelude::*;

use crate::thinbasic_script::{issues_view, lemma_issues_view_push, Code, Issue, IssueSummary};
use crate::tokenizer::model::{
    is_equal_sign_token, is_symbol_named, is_whitespace_token, lemma_tokenize_bounds,
    spec_tokenize, token_position_bounded, Token,
};
use crate::tokenizer::{
    parse_equal_sign, parse_symbol, parse_whitespace, string_eq_str, tokens_view, TokenInfo,
    TokenType,
};

verus! {

pub open spec fn msg_nested() -> Seq<char> {
    "Nested #COMPILED not supported"@
}

pub open spec fn msg_dangling() -> Seq<char> {
    "#ENDCOMPILE without #COMPILED"@
}

pub open spec fn msg_unmatched() -> Seq<char> {
    "#COMPILED does not have matching #ENDCOMPILED"@
}

pub open spec fn msg_language_equal() -> Seq<char> {
    "#COMPILED LANGUAGE parameter must be followed by equal sign '='"@
}

pub open spec fn msg_language_value() -> Seq<char> {
    "The only valid value for #COMPILED LANGUAGE parameter is FREEBASIC"@
}

/// What scanning the optional parameter clause after a valid opening
/// yields: at most one diagnostic, and the index where the main walk
/// resumes.
pub struct ClauseScan {
    pub issues: Seq<Issue>,
    pub next: int,
}

/// The parameter clause checked immediately after a valid, non-nested
/// `#COMPILED`: optional whitespace, then an optional `SUPPRESSRTE` (with
/// optional whitespace), then an optional `LANGUAGE` clause, which must be
/// `LANGUAGE [ws] = [ws] FREEBASIC`. Absence of the whole clause is not an
/// error. When the stream ends where the value was expected, the
/// diagnostic carries the last token's position.
pub open spec fn scan_param_clause(toks: Seq<Token>, j0: int, file: Seq<char>) -> ClauseScan
    recommends
        0 <= j0 <= toks.len(),
{
    if !(j0 < toks.len() && is_whitespace_token(toks[j0])) {
        ClauseScan { issues: Seq::empty(), next: j0 }
    } else {
        let j1 = j0 + 1;
        let j2 = if j1 < toks.len() && is_symbol_named(toks[j1], "SUPPRESSRTE"@) {
            if j1 + 1 < toks.len() && is_whitespace_token(toks[j1 + 1]) {
                j1 + 2
            } else {
                j1 + 1
            }
        } else {
            j1
        };
        if !(j2 < toks.len() && is_symbol_named(toks[j2], "LANGUAGE"@)) {
            ClauseScan { issues: Seq::empty(), next: j2 }
        } else {
            let lang_line = toks[j2].line;
            let lang_end_pos = (toks[j2].pos + 8) as nat;
            let j3 = if j2 + 1 < toks.len() && is_whitespace_token(toks[j2 + 1]) {
                j2 + 2
            } else {
                j2 + 1
            };
            if !(j3 < toks.len() && is_equal_sign_token(toks[j3])) {
                ClauseScan {
                    issues: seq![
                        Issue {
                            file,
                            line: lang_line,
                            character: lang_end_pos,
                            summary: msg_language_equal(),
                        },
                    ],
                    next: j3,
                }
            } else {
                let j4 = if j3 + 1 < toks.len() && is_whitespace_token(toks[j3 + 1]) {
                    j3 + 2
                } else {
                    j3 + 1
                };
                if j4 < toks.len() && is_symbol_named(toks[j4], "FREEBASIC"@) {
                    ClauseScan { issues: Seq::empty(), next: j4 + 1 }
                } else if j4 < toks.len() {
                    ClauseScan {
                        issues: seq![
                            Issue {
                                file,
                                line: toks[j4].line,
                                character: toks[j4].pos,
                                summary: msg_language_value(),
                            },
                        ],
                        next: j4,
                    }
                } else {
                    ClauseScan {
                        issues: seq![
                            Issue {
                                file,
                                line: toks[toks.len() - 1].line,
                                character: toks[toks.len() - 1].pos,
                                summary: msg_language_value(),
                            },
                        ],
                        next: j4,
                    }
                }
            }
        }
    }
}

pub proof fn lemma_scan_param_clause(toks: Seq<Token>, j0: int, file: Seq<char>)
    requires
        0 <= j0 <= toks.len(),
    ensures
        j0 <= scan_param_clause(toks, j0, file).next <= toks.len(),
{
}

/// The directive-pairing state machine from token `i` on: `inside` says
/// whether a block is open, and (`open_line`, `open_pos`) is the position
/// of the last opening. At the end of the stream an unclosed block is
/// reported at that opening.
pub open spec fn scan_directives(
    toks: Seq<Token>,
    i: int,
    inside: bool,
    open_line: nat,
    open_pos: nat,
    file: Seq<char>,
) -> Seq<Issue>
    decreases toks.len() - i
        when 0 <= i <= toks.len()
{
    if i >= toks.len() {
        if inside {
            seq![Issue { file, line: open_line, character: open_pos, summary: msg_unmatched() }]
        } else {
            Seq::empty()
        }
    } else {
        let t = toks[i];
        if is_symbol_named(t, "#COMPILED"@) && !inside {
            let cs = scan_param_clause(toks, i + 1, file);
            let next = if i + 1 <= cs.next <= toks.len() {
                cs.next
            } else {
                i + 1
            };
            cs.issues + scan_directives(toks, next, true, t.line, t.pos, file)
        } else if is_symbol_named(t, "#COMPILED"@) {
            seq![Issue { file, line: t.line, character: t.pos, summary: msg_nested() }]
                + scan_directives(toks, i + 1, true, open_line, open_pos, file)
        } else if is_symbol_named(t, "#ENDCOMPILED"@) && inside {
            scan_directives(toks, i + 1, false, open_line, open_pos, file)
        } else if is_symbol_named(t, "#ENDCOMPILED"@) {
            seq![Issue { file, line: t.line, character: t.pos, summary: msg_dangling() }]
                + scan_directives(toks, i + 1, false, open_line, open_pos, file)
        } else {
            scan_directives(toks, i + 1, inside, open_line, open_pos, file)
        }
    }
}

/// The directive-pairing diagnostics for a whole token stream.
pub open spec fn spec_section_definition(toks: Seq<Token>, file: Seq<char>) -> Seq<Issue> {
    scan_directives(toks, 0, false, 0, 0, file)
}

proof fn lemma_scan_directives_quiet(
    toks: Seq<Token>,
    i: int,
    open_line: nat,
    open_pos: nat,
    file: Seq<char>,
)
    requires
        0 <= i <= toks.len(),
        forall|k: int|
            i <= k < toks.len() ==> !crate::compile::is_directive_symbol(#[trigger] toks[k]),
    ensures
        scan_directives(toks, i, false, open_line, open_pos, file) == Seq::<Issue>::empty(),
    decreases toks.len() - i,
{
    if i < toks.len() {
        assert(!crate::compile::is_directive_symbol(toks[i]));
        lemma_scan_directives_quiet(toks, i + 1, open_line, open_pos, file);
    }
}

/// Availability guard: a stream without any directive delimiter yields no
/// directive-pairing diagnostics at all.
pub proof fn lemma_no_directives_no_issues(toks: Seq<Token>, file: Seq<char>)
    requires
        !crate::compile::spec_has_directive(toks),
    ensures
        spec_section_definition(toks, file) == Seq::<Issue>::empty(),
{
    lemma_scan_directives_quiet(toks, 0, 0, 0, file);
}

/// Checks the optional parameter clause after a valid opening, advancing
/// `*j` past what the clause consumed and appending its diagnostics.
fn check_param_clause(
    tokens: &Vec<TokenInfo>,
    j: &mut usize,
    issues: &mut Vec<IssueSummary>,
    file: &str,
)
    requires
        *old(j) <= tokens@.len(),
        forall|k: int|
            0 <= k < tokens@.len() ==> (#[trigger] tokens@[k]).pos as int + 8 < u32::MAX,
    ensures
        *final(j) == scan_param_clause(tokens_view(tokens@), *old(j) as int, file@).next,
        issues_view(final(issues)@) == issues_view(old(issues)@) + scan_param_clause(
            tokens_view(tokens@),
            *old(j) as int,
            file@,
        ).issues,
{
    let ghost toks = tokens_view(tokens@);
    let ghost j0 = *j as int;
    let ghost cs = scan_param_clause(toks, j0, file@);
    let ghost pre = issues@;
    if parse_whitespace(tokens, j) {
        if parse_symbol(tokens, j, "SUPPRESSRTE") {
            let _ = parse_whitespace(tokens, j);
        }
        if *j < tokens.len() {
            let lang_line = tokens[*j].line;
            let lang_end_pos = tokens[*j].pos + 8;
            if parse_symbol(tokens, j, "LANGUAGE") {
                let _ = parse_whitespace(tokens, j);
                if !parse_equal_sign(tokens, j) {
                    let issue = IssueSummary::new(
                        file,
                        lang_line,
                        lang_end_pos,
                        "#COMPILED LANGUAGE parameter must be followed by equal sign '='",
                    );
                    proof {
                        lemma_issues_view_push(pre, issue);
                    }
                    issues.push(issue);
                    proof {
                        assert(issues_view(issues@) =~= issues_view(pre) + cs.issues);
                    }
                } else {
                    let _ = parse_whitespace(tokens, j);
                    if !parse_symbol(tokens, j, "FREEBASIC") {
                        if *j < tokens.len() {
                            let issue = IssueSummary::new(
                                file,
                                tokens[*j].line,
                                tokens[*j].pos,
                                "The only valid value for #COMPILED LANGUAGE parameter is FREEBASIC",
                            );
                            proof {
                                lemma_issues_view_push(pre, issue);
                            }
                            issues.push(issue);
                            proof {
                                assert(issues_view(issues@) =~= issues_view(pre) + cs.issues);
                            }
                        } else {
                            let last = tokens.len() - 1;
                            let issue = IssueSummary::new(
                                file,
                                tokens[last].line,
                                tokens[last].pos,
                                "The only valid value for #COMPILED LANGUAGE parameter is FREEBASIC",
                            );
                            proof {
                                lemma_issues_view_push(pre, issue);
                            }
                            issues.push(issue);
                            proof {
                                assert(issues_view(issues@) =~= issues_view(pre) + cs.issues);
                            }
                        }
                    } else {
                        proof {
                            assert(issues_view(issues@) =~= issues_view(pre) + cs.issues);
                        }
                    }
                }
            } else {
                proof {
                    assert(issues_view(issues@) =~= issues_view(pre) + cs.issues);
                }
            }
        } else {
            proof {
                assert(issues_view(issues@) =~= issues_view(pre) + cs.issues);
            }
        }
    } else {
        proof {
            assert(issues_view(issues@) =~= issues_view(pre) + cs.issues);
        }
    }
}

/// Walks the token stream and reports unbalanced or nested directive
/// blocks, a malformed `LANGUAGE` clause, and an unclosed block at the end
/// of the stream. Diagnostics come in encounter order; the rule never
/// halts early.
pub fn section_definition(code: &Code) -> (issues: Vec<IssueSummary>)
    requires
        code.wf(),
    ensures
        issues_view(issues@) == spec_section_definition(
            spec_tokenize(code@.content),
            code@.name,
        ),
{
    let mut issues: Vec<IssueSummary> = Vec::new();
    let tokens = code.get_tokens();
    let ghost toks = tokens_view(tokens@);
    let ghost fname = code@.name;
    proof {
        lemma_tokenize_bounds(code@.content);
        assert forall|k: int| 0 <= k < tokens@.len() implies (#[trigger] tokens@[k]).pos as int + 8
            < u32::MAX by {
            assert(toks[k] == tokens@[k]@);
            assert(token_position_bounded(toks[k], code@.content.len() as int));
        }
    }
    let file_name = code.file_name();
    let mut j: usize = 0;
    let mut in_compiled_block = false;
    let mut num_opened: usize = 0;
    let mut num_closed: usize = 0;
    let mut last_opened_compile_token_line: u32 = 0;
    let mut last_opened_compile_token_pos: u32 = 0;
    while j < tokens.len()
        invariant
            toks == tokens_view(tokens@),
            toks == spec_tokenize(code@.content),
            fname == code@.name,
            file_name@ == fname,
            j <= tokens@.len(),
            num_closed <= num_opened <= j,
            num_opened == num_closed + (if in_compiled_block {
                1int
            } else {
                0int
            }),
            forall|k: int|
                0 <= k < tokens@.len() ==> (#[trigger] tokens@[k]).pos as int + 8 < u32::MAX,
            issues_view(issues@) + scan_directives(
                toks,
                j as int,
                in_compiled_block,
                last_opened_compile_token_line as nat,
                last_opened_compile_token_pos as nat,
                fname,
            ) == spec_section_definition(toks, fname),
        decreases tokens@.len() - j,
    {
        let ghost j0 = j as int;
        let ghost inside0 = in_compiled_block;
        let ghost ol0 = last_opened_compile_token_line as nat;
        let ghost op0 = last_opened_compile_token_pos as nat;
        let ghost pre = issues@;
        let t_line = tokens[j].line;
        let t_pos = tokens[j].pos;
        match &tokens[j].token_type {
            TokenType::Symbol(kind) => {
                j += 1;
                if string_eq_str(kind, "#COMPILED") {
                    if !in_compiled_block {
                        in_compiled_block = true;
                        num_opened += 1;
                        last_opened_compile_token_line = t_line;
                        last_opened_compile_token_pos = t_pos;
                        check_param_clause(&tokens, &mut j, &mut issues, file_name.as_str());
                        proof {
                            lemma_scan_param_clause(toks, j0 + 1, fname);
                            assert(scan_directives(toks, j0, inside0, ol0, op0, fname)
                                == scan_param_clause(toks, j0 + 1, fname).issues
                                + scan_directives(
                                toks,
                                j as int,
                                true,
                                t_line as nat,
                                t_pos as nat,
                                fname,
                            ));
                            assert(issues_view(issues@) + scan_directives(
                                toks,
                                j as int,
                                in_compiled_block,
                                last_opened_compile_token_line as nat,
                                last_opened_compile_token_pos as nat,
                                fname,
                            ) =~= issues_view(pre) + scan_directives(
                                toks,
                                j0,
                                inside0,
                                ol0,
                                op0,
                                fname,
                            ));
                        }
                    } else {
                        let issue = IssueSummary::new(
                            file_name.as_str(),
                            t_line,
                            t_pos,
                            "Nested #COMPILED not supported",
                        );
                        proof {
                            lemma_issues_view_push(pre, issue);
                        }
                        issues.push(issue);
                        proof {
                            assert(scan_directives(toks, j0, inside0, ol0, op0, fname) == seq![
                                issue@,
                            ] + scan_directives(toks, j as int, true, ol0, op0, fname));
                            assert(issues_view(issues@) + scan_directives(
                                toks,
                                j as int,
                                in_compiled_block,
                                last_opened_compile_token_line as nat,
                                last_opened_compile_token_pos as nat,
                                fname,
                            ) =~= issues_view(pre) + scan_directives(
                                toks,
                                j0,
                                inside0,
                                ol0,
                                op0,
                                fname,
                            ));
                        }
                    }
                } else if string_eq_str(kind, "#ENDCOMPILED") {
                    if !in_compiled_block {
                        let issue = IssueSummary::new(
                            file_name.as_str(),
                            t_line,
                            t_pos,
                            "#ENDCOMPILE without #COMPILED",
                        );
                        proof {
                            lemma_issues_view_push(pre, issue);
                        }
                        issues.push(issue);
                        proof {
                            assert(scan_directives(toks, j0, inside0, ol0, op0, fname) == seq![
                                issue@,
                            ] + scan_directives(toks, j as int, false, ol0, op0, fname));
                            assert(issues_view(issues@) + scan_directives(
                                toks,
                                j as int,
                                in_compiled_block,
                                last_opened_compile_token_line as nat,
                                last_opened_compile_token_pos as nat,
                                fname,
                            ) =~= issues_view(pre) + scan_directives(
                                toks,
                                j0,
                                inside0,
                                ol0,
                                op0,
                                fname,
                            ));
                        }
                    } else {
                        in_compiled_block = false;
                        num_closed += 1;
                        proof {
                            assert(scan_directives(toks, j0, inside0, ol0, op0, fname)
                                == scan_directives(toks, j as int, false, ol0, op0, fname));
                        }
                    }
                } else {
                    proof {
                        assert(scan_directives(toks, j0, inside0, ol0, op0, fname)
                            == scan_directives(toks, j as int, inside0, ol0, op0, fname));
                    }
                }
            },
            _ => {
                j += 1;
                proof {
                    assert(scan_directives(toks, j0, inside0, ol0, op0, fname) == scan_directives(
                        toks,
                        j as int,
                        inside0,
                        ol0,
                        op0,
                        fname,
                    ));
                }
            },
        }
    }
    let ghost pre = issues@;
    if num_opened > num_closed {
        let issue = IssueSummary::new(
            file_name.as_str(),
            last_opened_compile_token_line,
            last_opened_compile_token_pos,
            "#COMPILED does not have matching #ENDCOMPILED",
        );
        proof {
            lemma_issues_view_push(pre, issue);
        }
        issues.push(issue);
        proof {
            assert(issues_view(issues@) =~= issues_view(pre) + scan_directives(
                toks,
                toks.len() as int,
                true,
                last_opened_compile_token_line as nat,
                last_opened_compile_token_pos as nat,
                fname,
            ));
        }
    } else {
        proof {
            assert(issues_view(issues@) =~= issues_view(pre) + scan_directives(
                toks,
                toks.len() as int,
                false,
                last_opened_compile_token_line as nat,
                last_opened_compile_token_pos as nat,
                fname,
            ));
        }
    }
    issues
}

} // verus!
