//! Alias-grammar rule: every `ALIAS` occurrence must match exactly
//! `ALIAS <ws> <word> <ws> AS <ws> <word>` with that word the last token on
//! its source line (or at the end of the stream). One diagnostic is
//! reported per ill-formed occurrence and scanning resumes past the
//! failure point.
//!
//! Whether occurrences inside a `#COMPILED` block are exempt from the
//! check is a policy choice; the default is not to exempt them.

use vstd::prelude::*;

use crate::thinbasic_script::{issues_view, lemma_issues_view_push, Code, Issue, IssueSummary};
use crate::tokenizer::model::{
    is_end_of_line_token, is_symbol_named, is_symbol_token, is_whitespace_token, spec_tokenize,
    Token,
};
use crate::tokenizer::{
    parse_any_symbol, parse_symbol, parse_whitespace, string_eq_str, tokens_view, TokenInfo,
    TokenType,
};

verus! {

pub open spec fn msg_one_keyword() -> Seq<char> {
    "There must be exactly one keyword specified after ALIAS"@
}

pub open spec fn msg_aliased_whitespace() -> Seq<char> {
    "Aliased keyword must be followed by whitespace"@
}

pub open spec fn msg_followed_by_as() -> Seq<char> {
    "Single keyword after ALIAS must be followed by AS"@
}

pub open spec fn msg_as_whitespace() -> Seq<char> {
    "AS must be followed by whitespace"@
}

pub open spec fn msg_single_word() -> Seq<char> {
    "New name specified after AS must be a single word"@
}

pub open spec fn msg_only_one_word() -> Seq<char> {
    "Only one word is allowed as alias after AS keyword"@
}

/// The diagnostic for a check that failed at index `j`: it carries the
/// violating token's position, or the last token's position when the
/// stream ended where a token was required.
pub open spec fn fail_at(toks: Seq<Token>, j: int, msg: Seq<char>, file: Seq<char>) -> Issue
    recommends
        1 <= toks.len(),
        0 <= j <= toks.len(),
{
    if j < toks.len() {
        Issue { file, line: toks[j].line, character: toks[j].pos, summary: msg }
    } else {
        Issue {
            file,
            line: toks[toks.len() - 1].line,
            character: toks[toks.len() - 1].pos,
            summary: msg,
        }
    }
}

/// What checking one `ALIAS` occurrence yields: at most one diagnostic,
/// and the index where the main walk resumes.
pub struct AliasScan {
    pub issues: Seq<Issue>,
    pub next: int,
}

/// The grammar checked against the tokens immediately after an `ALIAS`
/// symbol (at `j0`), in sequence; the first failing check yields the
/// occurrence's single diagnostic. A trailing `Whitespace` before the
/// `EndOfLine` (or before the end of the stream) is allowed.
pub open spec fn scan_alias_statement(toks: Seq<Token>, j0: int, file: Seq<char>) -> AliasScan
    recommends
        1 <= j0 <= toks.len(),
{
    if !(j0 < toks.len() && is_whitespace_token(toks[j0])) {
        AliasScan { issues: seq![fail_at(toks, j0, msg_one_keyword(), file)], next: j0 }
    } else {
        let j1 = j0 + 1;
        if !(j1 < toks.len() && is_symbol_token(toks[j1])) {
            AliasScan { issues: seq![fail_at(toks, j1, msg_one_keyword(), file)], next: j1 }
        } else {
            let j2 = j1 + 1;
            if !(j2 < toks.len() && is_whitespace_token(toks[j2])) {
                AliasScan {
                    issues: seq![fail_at(toks, j2, msg_aliased_whitespace(), file)],
                    next: j2,
                }
            } else {
                let j3 = j2 + 1;
                if !(j3 < toks.len() && is_symbol_named(toks[j3], "AS"@)) {
                    AliasScan {
                        issues: seq![fail_at(toks, j3, msg_followed_by_as(), file)],
                        next: j3,
                    }
                } else {
                    let j4 = j3 + 1;
                    if !(j4 < toks.len() && is_whitespace_token(toks[j4])) {
                        AliasScan {
                            issues: seq![fail_at(toks, j4, msg_as_whitespace(), file)],
                            next: j4,
                        }
                    } else {
                        let j5 = j4 + 1;
                        if !(j5 < toks.len() && is_symbol_token(toks[j5])) {
                            AliasScan {
                                issues: seq![fail_at(toks, j5, msg_single_word(), file)],
                                next: j5,
                            }
                        } else {
                            let j6 = j5 + 1;
                            let j7 = if j6 < toks.len() && is_whitespace_token(toks[j6]) {
                                j6 + 1
                            } else {
                                j6
                            };
                            if j7 < toks.len() && !is_end_of_line_token(toks[j7]) {
                                AliasScan {
                                    issues: seq![fail_at(toks, j7, msg_only_one_word(), file)],
                                    next: j7,
                                }
                            } else {
                                AliasScan { issues: Seq::empty(), next: j6 }
                            }
                        }
                    }
                }
            }
        }
    }
}

pub proof fn lemma_scan_alias_statement(toks: Seq<Token>, j0: int, file: Seq<char>)
    requires
        0 <= j0 <= toks.len(),
    ensures
        j0 <= scan_alias_statement(toks, j0, file).next <= toks.len(),
{
}

/// The alias-grammar walk from token `i` on. `in_compiled` tracks whether
/// the walk is inside a `#COMPILED` block; when `exempt` is set, `ALIAS`
/// occurrences inside such a block are not checked.
pub open spec fn scan_aliases(
    toks: Seq<Token>,
    i: int,
    in_compiled: bool,
    exempt: bool,
    file: Seq<char>,
) -> Seq<Issue>
    decreases toks.len() - i
        when 0 <= i <= toks.len()
{
    if i >= toks.len() {
        Seq::empty()
    } else {
        let t = toks[i];
        if is_symbol_named(t, "#COMPILED"@) {
            scan_aliases(toks, i + 1, true, exempt, file)
        } else if is_symbol_named(t, "#ENDCOMPILED"@) {
            scan_aliases(toks, i + 1, false, exempt, file)
        } else if is_symbol_named(t, "ALIAS"@) && !(exempt && in_compiled) {
            let a = scan_alias_statement(toks, i + 1, file);
            let next = if i + 1 <= a.next <= toks.len() {
                a.next
            } else {
                i + 1
            };
            a.issues + scan_aliases(toks, next, in_compiled, exempt, file)
        } else {
            scan_aliases(toks, i + 1, in_compiled, exempt, file)
        }
    }
}

/// The alias-grammar diagnostics for a whole token stream.
pub open spec fn spec_check_alias(toks: Seq<Token>, exempt: bool, file: Seq<char>) -> Seq<Issue> {
    scan_aliases(toks, 0, false, exempt, file)
}

/// Pushes the diagnostic for a check that failed at index `j`.
fn push_fail(
    tokens: &Vec<TokenInfo>,
    j: usize,
    issues: &mut Vec<IssueSummary>,
    file: &str,
    msg: &str,
)
    requires
        1 <= tokens@.len(),
        j <= tokens@.len(),
    ensures
        issues_view(final(issues)@) == issues_view(old(issues)@).push(
            fail_at(tokens_view(tokens@), j as int, msg@, file@),
        ),
{
    let ghost pre = issues@;
    let at = if j < tokens.len() {
        j
    } else {
        tokens.len() - 1
    };
    let issue = IssueSummary::new(file, tokens[at].line, tokens[at].pos, msg);
    proof {
        lemma_issues_view_push(pre, issue);
    }
    issues.push(issue);
}

/// Checks one `ALIAS` occurrence (the cursor starts just past the `ALIAS`
/// symbol), advancing `*j` to where the main walk resumes and appending
/// the occurrence's diagnostic, if any.
fn check_alias_statement(
    tokens: &Vec<TokenInfo>,
    j: &mut usize,
    issues: &mut Vec<IssueSummary>,
    file: &str,
)
    requires
        1 <= tokens@.len(),
        *old(j) <= tokens@.len(),
    ensures
        *final(j) == scan_alias_statement(tokens_view(tokens@), *old(j) as int, file@).next,
        issues_view(final(issues)@) == issues_view(old(issues)@) + scan_alias_statement(
            tokens_view(tokens@),
            *old(j) as int,
            file@,
        ).issues,
{
    let ghost toks = tokens_view(tokens@);
    let ghost j0 = *j as int;
    let ghost a = scan_alias_statement(toks, j0, file@);
    let ghost pre = issues@;
    if !parse_whitespace(tokens, j) {
        push_fail(tokens, *j, issues, file, "There must be exactly one keyword specified after ALIAS");
        proof {
            assert(issues_view(issues@) =~= issues_view(pre) + a.issues);
        }
        return ;
    }
    if !parse_any_symbol(tokens, j) {
        push_fail(tokens, *j, issues, file, "There must be exactly one keyword specified after ALIAS");
        proof {
            assert(issues_view(issues@) =~= issues_view(pre) + a.issues);
        }
        return ;
    }
    if !parse_whitespace(tokens, j) {
        push_fail(tokens, *j, issues, file, "Aliased keyword must be followed by whitespace");
        proof {
            assert(issues_view(issues@) =~= issues_view(pre) + a.issues);
        }
        return ;
    }
    if !parse_symbol(tokens, j, "AS") {
        push_fail(tokens, *j, issues, file, "Single keyword after ALIAS must be followed by AS");
        proof {
            assert(issues_view(issues@) =~= issues_view(pre) + a.issues);
        }
        return ;
    }
    if !parse_whitespace(tokens, j) {
        push_fail(tokens, *j, issues, file, "AS must be followed by whitespace");
        proof {
            assert(issues_view(issues@) =~= issues_view(pre) + a.issues);
        }
        return ;
    }
    if !parse_any_symbol(tokens, j) {
        push_fail(tokens, *j, issues, file, "New name specified after AS must be a single word");
        proof {
            assert(issues_view(issues@) =~= issues_view(pre) + a.issues);
        }
        return ;
    }
    let word_end = *j;
    let _ = parse_whitespace(tokens, j);
    if *j < tokens.len() {
        let is_eol = match &tokens[*j].token_type {
            TokenType::EndOfLine => true,
            _ => false,
        };
        if !is_eol {
            push_fail(tokens, *j, issues, file, "Only one word is allowed as alias after AS keyword");
            proof {
                assert(issues_view(issues@) =~= issues_view(pre) + a.issues);
            }
            return ;
        }
    }
    *j = word_end;
    proof {
        assert(issues_view(issues@) =~= issues_view(pre) + a.issues);
    }
}

/// Checks every `ALIAS` occurrence in the script under the given policy:
/// when `exempt_compiled` is set, occurrences inside a
/// `#COMPILED`/`#ENDCOMPILED` block are left unchecked.
pub fn check_with_policy(code: &Code, exempt_compiled: bool) -> (issues: Vec<IssueSummary>)
    requires
        code.wf(),
    ensures
        issues_view(issues@) == spec_check_alias(
            spec_tokenize(code@.content),
            exempt_compiled,
            code@.name,
        ),
{
    let mut issues: Vec<IssueSummary> = Vec::new();
    let tokens = code.get_tokens();
    let ghost toks = tokens_view(tokens@);
    let ghost fname = code@.name;
    let file_name = code.file_name();
    let mut j: usize = 0;
    let mut in_compiled = false;
    while j < tokens.len()
        invariant
            toks == tokens_view(tokens@),
            toks == spec_tokenize(code@.content),
            fname == code@.name,
            file_name@ == fname,
            j <= tokens@.len(),
            issues_view(issues@) + scan_aliases(
                toks,
                j as int,
                in_compiled,
                exempt_compiled,
                fname,
            ) == spec_check_alias(toks, exempt_compiled, fname),
        decreases tokens@.len() - j,
    {
        let ghost j0 = j as int;
        let ghost inc0 = in_compiled;
        let ghost pre = issues@;
        match &tokens[j].token_type {
            TokenType::Symbol(kind) => {
                j += 1;
                if string_eq_str(kind, "#COMPILED") {
                    in_compiled = true;
                    proof {
                        assert(scan_aliases(toks, j0, inc0, exempt_compiled, fname)
                            == scan_aliases(toks, j as int, true, exempt_compiled, fname));
                    }
                } else if string_eq_str(kind, "#ENDCOMPILED") {
                    in_compiled = false;
                    proof {
                        assert(scan_aliases(toks, j0, inc0, exempt_compiled, fname)
                            == scan_aliases(toks, j as int, false, exempt_compiled, fname));
                    }
                } else if string_eq_str(kind, "ALIAS") {
                    if !(exempt_compiled && in_compiled) {
                        check_alias_statement(&tokens, &mut j, &mut issues, file_name.as_str());
                        proof {
                            lemma_scan_alias_statement(toks, j0 + 1, fname);
                            assert(scan_aliases(toks, j0, inc0, exempt_compiled, fname)
                                == scan_alias_statement(toks, j0 + 1, fname).issues
                                + scan_aliases(toks, j as int, inc0, exempt_compiled, fname));
                            assert(issues_view(issues@) + scan_aliases(
                                toks,
                                j as int,
                                in_compiled,
                                exempt_compiled,
                                fname,
                            ) =~= issues_view(pre) + scan_aliases(
                                toks,
                                j0,
                                inc0,
                                exempt_compiled,
                                fname,
                            ));
                        }
                    } else {
                        proof {
                            assert(scan_aliases(toks, j0, inc0, exempt_compiled, fname)
                                == scan_aliases(toks, j as int, inc0, exempt_compiled, fname));
                        }
                    }
                } else {
                    proof {
                        assert(scan_aliases(toks, j0, inc0, exempt_compiled, fname)
                            == scan_aliases(toks, j as int, inc0, exempt_compiled, fname));
                    }
                }
            },
            _ => {
                j += 1;
                proof {
                    assert(scan_aliases(toks, j0, inc0, exempt_compiled, fname) == scan_aliases(
                        toks,
                        j as int,
                        inc0,
                        exempt_compiled,
                        fname,
                    ));
                }
            },
        }
    }
    proof {
        assert(issues_view(issues@) + Seq::<Issue>::empty() =~= issues_view(issues@));
    }
    issues
}

/// Checks every `ALIAS` occurrence with the default policy: occurrences
/// inside a `#COMPILED` block are checked like any other.
pub fn check(code: &Code) -> (issues: Vec<IssueSummary>)
    requires
        code.wf(),
    ensures
        issues_view(issues@) == spec_check_alias(
            spec_tokenize(code@.content),
            false,
            code@.name,
        ),
{
    check_with_policy(code, false)
}

} // verus!
