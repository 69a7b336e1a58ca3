use thinclippy::compile;
use thinclippy::fb_code;
use thinclippy::rules::alias;
use thinclippy::rules::compiled;
use thinclippy::thinbasic_script::Code;

fn code_of(content: &str) -> Code {
    Code::new("test.tbasic", content)
}

#[test]
fn balanced_directive_no_issues() {
    let code = code_of("#COMPILED\n#ENDCOMPILED");
    let issues = compiled::section_definition(&code);
    assert_eq!(issues.len(), 0);
}

#[test]
fn nested_directive_reported_at_line_two() {
    let code = code_of("#COMPILED\n#COMPILED\n#ENDCOMPILED");
    let issues = compiled::section_definition(&code);
    assert_eq!(issues.len(), 1);
    assert_eq!(issues[0].summary, "Nested #COMPILED not supported");
    assert_eq!(issues[0].line, 2);
    assert_eq!(issues[0].character, 1);
}

#[test]
fn unmatched_open_reported_at_opening() {
    let code = code_of("#COMPILED");
    let issues = compiled::section_definition(&code);
    assert_eq!(issues.len(), 1);
    assert_eq!(
        issues[0].summary,
        "#COMPILED does not have matching #ENDCOMPILED"
    );
    assert_eq!(issues[0].line, 1);
    assert_eq!(issues[0].character, 1);
}

#[test]
fn dangling_close_reported_at_line_one() {
    let code = code_of("#ENDCOMPILED");
    let issues = compiled::section_definition(&code);
    assert_eq!(issues.len(), 1);
    assert_eq!(issues[0].summary, "#ENDCOMPILE without #COMPILED");
    assert_eq!(issues[0].line, 1);
    assert_eq!(issues[0].character, 1);
}

#[test]
fn language_clause_freebasic_accepted() {
    let code = code_of("#COMPILED LANGUAGE=FREEBASIC\n#ENDCOMPILED");
    let issues = compiled::section_definition(&code);
    assert_eq!(issues.len(), 0);
}

#[test]
fn language_clause_freebasic_accepted_unclosed_block_still_reported() {
    // The clause itself is fine; the only finding is the unclosed block.
    let code = code_of("#COMPILED LANGUAGE=FREEBASIC");
    let issues = compiled::section_definition(&code);
    assert_eq!(issues.len(), 1);
    assert_eq!(
        issues[0].summary,
        "#COMPILED does not have matching #ENDCOMPILED"
    );
}

#[test]
fn language_clause_wrong_value_rejected() {
    let code = code_of("#COMPILED LANGUAGE=PASCAL\n#ENDCOMPILED");
    let issues = compiled::section_definition(&code);
    assert_eq!(issues.len(), 1);
    assert_eq!(
        issues[0].summary,
        "The only valid value for #COMPILED LANGUAGE parameter is FREEBASIC"
    );
    assert_eq!(issues[0].line, 1);
    assert_eq!(issues[0].character, 20);
}

#[test]
fn language_clause_missing_equal_sign() {
    let code = code_of("#COMPILED LANGUAGE FREEBASIC\n#ENDCOMPILED");
    let issues = compiled::section_definition(&code);
    assert_eq!(issues.len(), 1);
    assert_eq!(
        issues[0].summary,
        "#COMPILED LANGUAGE parameter must be followed by equal sign '='"
    );
    assert_eq!(issues[0].line, 1);
    assert_eq!(issues[0].character, 19);
}

#[test]
fn language_clause_with_suppressrte() {
    let code = code_of("#COMPILED SUPPRESSRTE LANGUAGE=FREEBASIC\n#ENDCOMPILED");
    let issues = compiled::section_definition(&code);
    assert_eq!(issues.len(), 0);
}

#[test]
fn directive_symbols_in_lower_case_input() {
    // The lexer folds symbols to upper case while scanning.
    let code = code_of("#compiled\n#endcompiled");
    let issues = compiled::section_definition(&code);
    assert_eq!(issues.len(), 0);
}

#[test]
fn valid_alias_no_issues() {
    let code = code_of("ALIAS FOO AS BAR");
    let issues = alias::check(&code);
    assert_eq!(issues.len(), 0);
}

#[test]
fn alias_missing_as() {
    let code = code_of("ALIAS FOO BAR");
    let issues = alias::check(&code);
    assert_eq!(issues.len(), 1);
    assert_eq!(
        issues[0].summary,
        "Single keyword after ALIAS must be followed by AS"
    );
    assert_eq!(issues[0].line, 1);
    assert_eq!(issues[0].character, 11);
}

#[test]
fn alias_trailing_word() {
    let code = code_of("ALIAS FOO AS BAR BAZ");
    let issues = alias::check(&code);
    assert_eq!(issues.len(), 1);
    assert_eq!(
        issues[0].summary,
        "Only one word is allowed as alias after AS keyword"
    );
    assert_eq!(issues[0].line, 1);
    assert_eq!(issues[0].character, 18);
}

#[test]
fn alias_without_whitespace_after_keyword() {
    let code = code_of("ALIAS=1");
    let issues = alias::check(&code);
    assert_eq!(issues.len(), 1);
    assert_eq!(
        issues[0].summary,
        "There must be exactly one keyword specified after ALIAS"
    );
}

#[test]
fn alias_keyword_must_be_symbol() {
    let code = code_of("ALIAS 1 AS B");
    let issues = alias::check(&code);
    assert_eq!(issues.len(), 1);
    assert_eq!(
        issues[0].summary,
        "There must be exactly one keyword specified after ALIAS"
    );
}

#[test]
fn alias_keyword_needs_following_whitespace() {
    let code = code_of("ALIAS FOO(AS");
    let issues = alias::check(&code);
    assert_eq!(issues.len(), 1);
    assert_eq!(
        issues[0].summary,
        "Aliased keyword must be followed by whitespace"
    );
}

#[test]
fn alias_as_needs_following_whitespace() {
    let code = code_of("ALIAS FOO AS(");
    let issues = alias::check(&code);
    assert_eq!(issues.len(), 1);
    assert_eq!(issues[0].summary, "AS must be followed by whitespace");
}

#[test]
fn alias_new_name_must_be_symbol() {
    let code = code_of("ALIAS FOO AS 1");
    let issues = alias::check(&code);
    assert_eq!(issues.len(), 1);
    assert_eq!(
        issues[0].summary,
        "New name specified after AS must be a single word"
    );
}

#[test]
fn alias_at_end_of_stream() {
    let code = code_of("ALIAS");
    let issues = alias::check(&code);
    assert_eq!(issues.len(), 1);
    assert_eq!(
        issues[0].summary,
        "There must be exactly one keyword specified after ALIAS"
    );
    assert_eq!(issues[0].line, 1);
    assert_eq!(issues[0].character, 1);
}

#[test]
fn alias_trailing_whitespace_is_allowed() {
    let code = code_of("ALIAS FOO AS BAR \nX");
    let issues = alias::check(&code);
    assert_eq!(issues.len(), 0);
}

#[test]
fn alias_inside_compiled_checked_by_default() {
    let code = code_of("#COMPILED\nALIAS FOO BAR\n#ENDCOMPILED");
    let issues = alias::check(&code);
    assert_eq!(issues.len(), 1);
}

#[test]
fn alias_inside_compiled_exempt_under_policy() {
    let code = code_of("#COMPILED\nALIAS FOO BAR\n#ENDCOMPILED");
    let issues = alias::check_with_policy(&code, true);
    assert_eq!(issues.len(), 0);
    let outside = code_of("ALIAS FOO BAR");
    let issues = alias::check_with_policy(&outside, true);
    assert_eq!(issues.len(), 1);
}

#[test]
fn compile_analysis_available() {
    let with = code_of("X\n#COMPILED\n#ENDCOMPILED");
    assert!(compile::analysis_available(&with));
    let without = code_of("PRINT 1");
    assert!(!compile::analysis_available(&without));
}

#[test]
fn compile_pairs_match_balanced() {
    let code = code_of("#COMPILED\n#ENDCOMPILED");
    assert!(compile::pairs_match(&code).is_ok());
}

#[test]
fn compile_pairs_match_first_error_only() {
    let code = code_of("#COMPILED\n#COMPILED");
    let err = compile::pairs_match(&code).unwrap_err();
    assert_eq!(err.summary, "Nested #COMPILE not supported");
    assert_eq!(err.line, 2);

    let code = code_of("#ENDCOMPILED");
    let err = compile::pairs_match(&code).unwrap_err();
    assert_eq!(err.summary, "#ENDCOMPILE without #COMPILE");
    assert_eq!(err.line, 1);

    let code = code_of("X\n#COMPILED");
    let err = compile::pairs_match(&code).unwrap_err();
    assert_eq!(err.summary, "#COMPILE does not have matching #ENDCOMPILE");
    assert_eq!(err.line, 2);
    assert_eq!(err.character, 1);
}

#[test]
fn fb_analysis_available() {
    let with = code_of("A\n#FBCODE\n#ENDFBCODE");
    assert!(fb_code::analysis_available(&with));
    let without = code_of("PRINT 1");
    assert!(!fb_code::analysis_available(&without));
}

#[test]
fn fb_pairs_match_balanced() {
    let code = code_of("#FBCODE\nX = 1\n#ENDFBCODE");
    assert!(fb_code::pairs_match(&code).is_ok());
}

#[test]
fn fb_pairs_match_counts_non_blank_lines() {
    // Blank lines do not advance this check's line counter.
    let code = code_of("#FBCODE\n\nX\n#FBCODE");
    let err = fb_code::pairs_match(&code).unwrap_err();
    assert_eq!(err.summary, "Nested #FBCODE not supported");
    assert_eq!(err.line, 3);
}

#[test]
fn fb_pairs_match_dangling_and_unmatched() {
    let code = code_of("#ENDFBCODE");
    let err = fb_code::pairs_match(&code).unwrap_err();
    assert_eq!(err.summary, "#ENDFBCODE without #FBCODE");
    assert_eq!(err.line, 1);

    let code = code_of("#FBCODE");
    let err = fb_code::pairs_match(&code).unwrap_err();
    assert_eq!(err.summary, "#FBCODE does not have matching #ENDFBCODE");
    assert_eq!(err.line, 1);
}
