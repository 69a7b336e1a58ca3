use thinclippy::analysis::get_issues;
use thinclippy::thinbasic_script::Code;

fn code_of(content: &str) -> Code {
    Code::new("test.tbasic", content)
}

#[test]
fn clean_script_has_no_issues() {
    let code = code_of("PRINT 1\nALIAS FOO AS BAR\n#COMPILED\n#ENDCOMPILED\n");
    let issues = get_issues(&code);
    assert_eq!(issues.len(), 0);
}

#[test]
fn empty_script_has_no_issues() {
    let code = code_of("");
    let issues = get_issues(&code);
    assert_eq!(issues.len(), 0);
}

#[test]
fn merged_issues_are_sorted_by_line() {
    // The alias finding on line 1 must come before the directive finding
    // on line 3, although the directive rule runs first.
    let code = code_of("ALIAS FOO BAR\n#COMPILED\n#COMPILED\n#ENDCOMPILED");
    let issues = get_issues(&code);
    assert_eq!(issues.len(), 2);
    assert_eq!(
        issues[0].summary,
        "Single keyword after ALIAS must be followed by AS"
    );
    assert_eq!(issues[0].line, 1);
    assert_eq!(issues[1].summary, "Nested #COMPILED not supported");
    assert_eq!(issues[1].line, 3);
}

#[test]
fn ties_keep_rule_order() {
    // Both rules report on line 1: the directive rule's finding stays
    // first because it ran first.
    let code = code_of("#ENDCOMPILED ALIAS FOO BAR");
    let issues = get_issues(&code);
    assert_eq!(issues.len(), 2);
    assert_eq!(issues[0].summary, "#ENDCOMPILE without #COMPILED");
    assert_eq!(
        issues[1].summary,
        "Single keyword after ALIAS must be followed by AS"
    );
    assert_eq!(issues[0].line, 1);
    assert_eq!(issues[1].line, 1);
}

#[test]
fn two_runs_give_identical_diagnostics() {
    let code = code_of("#COMPILED\nALIAS FOO BAR\nALIAS A AS B C\n");
    let first = get_issues(&code);
    let second = get_issues(&code);
    assert_eq!(first, second);
    assert!(first.len() > 0);
}

#[test]
fn diagnostics_carry_the_file_name() {
    let code = Code::new("myscript.tbasic", "#COMPILED");
    let issues = get_issues(&code);
    assert_eq!(issues.len(), 1);
    assert_eq!(issues[0].script_file, "myscript.tbasic");
}
