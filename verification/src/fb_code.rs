//! Check of the `#FBCODE` / `#ENDFBCODE` block delimiters over the raw
//! text: lines whose first word is one of the two delimit a block, and
//! only the first pairing error is reported. Blank lines do not advance
//! this check's line counter.

use vstd::prelude::*;

use crate::thinbasic_script::{Code, Issue, IssueSummary};
use crate::tokenizer::model::{lemma_run_end, lemma_run_end_from, run_end};
use crate::tokenizer::{push_char, string_eq_str, to_chars};

verus! {

/// Whitespace that separates words within a line.
pub open spec fn is_fb_space(c: char) -> bool {
    c == ' ' || c == '\t' || c == '\r'
}

pub open spec fn fb_space_p() -> spec_fn(char) -> bool {
    |c: char| is_fb_space(c)
}

/// A character that belongs to a word: neither separating whitespace nor a
/// line feed.
pub open spec fn is_fb_word_char(c: char) -> bool {
    !is_fb_space(c) && c != '\n'
}

pub open spec fn fb_word_p() -> spec_fn(char) -> bool {
    |c: char| is_fb_word_char(c)
}

pub open spec fn not_newline_p() -> spec_fn(char) -> bool {
    |c: char| c != '\n'
}

/// The text holds `pat` as a contiguous run of characters.
pub open spec fn contains_seq(h: Seq<char>, pat: Seq<char>) -> bool {
    exists|k: int|
        0 <= k <= h.len() - pat.len() && #[trigger] h.subrange(k, k + pat.len() as int) == pat
}

fn exec_is_fb_space(c: char) -> (r: bool)
    ensures
        r == is_fb_space(c),
{
    c == ' ' || c == '\t' || c == '\r'
}

fn exec_is_fb_word_char(c: char) -> (r: bool)
    ensures
        r == is_fb_word_char(c),
{
    c != ' ' && c != '\t' && c != '\r' && c != '\n'
}

/// The characters at `k` match `pat` exactly.
fn matches_at(v: &Vec<char>, pat: &Vec<char>, k: usize) -> (r: bool)
    requires
        k + pat@.len() <= v@.len(),
    ensures
        r == (v@.subrange(k as int, k as int + pat@.len() as int) == pat@),
{
    let n = v.len();
    let mut t: usize = 0;
    while t < pat.len()
        invariant
            n == v@.len(),
            t <= pat@.len(),
            k + pat@.len() <= v@.len(),
            forall|u: int| 0 <= u < t ==> v@[k + u] == #[trigger] pat@[u],
        decreases pat@.len() - t,
    {
        if v[k + t] != pat[t] {
            proof {
                let lhs = v@.subrange(k as int, k as int + pat@.len() as int);
                assert(lhs[t as int] != pat@[t as int]);
            }
            return false;
        }
        t += 1;
    }
    proof {
        assert(v@.subrange(k as int, k as int + pat@.len() as int) =~= pat@);
    }
    true
}

/// Naive substring search over the characters of the text.
fn contains_pattern(v: &Vec<char>, pat: &Vec<char>) -> (r: bool)
    ensures
        r == contains_seq(v@, pat@),
{
    if pat.len() > v.len() {
        return false;
    }
    if pat.len() == 0 {
        proof {
            assert(v@.subrange(0, 0 + pat@.len() as int) =~= pat@);
            assert(contains_seq(v@, pat@));
        }
        return true;
    }
    let n = v.len();
    let mut k: usize = 0;
    while k <= n - pat.len()
        invariant
            n == v@.len(),
            1 <= pat@.len() <= v@.len(),
            k <= v@.len(),
            forall|k2: int|
                0 <= k2 < k ==> #[trigger] v@.subrange(k2, k2 + pat@.len() as int) != pat@,
        decreases v@.len() - k,
    {
        if matches_at(v, pat, k) {
            proof {
                assert(contains_seq(v@, pat@));
            }
            return true;
        }
        k += 1;
    }
    false
}

/// The analysis applies to a script only when its text mentions one of
/// the delimiters at all.
pub fn analysis_available(code: &Code) -> (r: bool)
    ensures
        r == (contains_seq(code@.content, "#FBCODE"@) || contains_seq(
            code@.content,
            "#ENDFBCODE"@,
        )),
{
    let v = to_chars(code.get_file_content().as_str());
    let open_pat = to_chars("#FBCODE");
    let close_pat = to_chars("#ENDFBCODE");
    contains_pattern(&v, &open_pat) || contains_pattern(&v, &close_pat)
}

pub open spec fn msg_fb_nested() -> Seq<char> {
    "Nested #FBCODE not supported"@
}

pub open spec fn msg_fb_dangling() -> Seq<char> {
    "#ENDFBCODE without #FBCODE"@
}

pub open spec fn msg_fb_unmatched() -> Seq<char> {
    "#FBCODE does not have matching #ENDFBCODE"@
}

/// The first pairing error of the text from character `i` (a line start)
/// on, if any. `line_number` counts the non-blank lines seen so far; every
/// diagnostic points at column 1 of the line it concerns.
pub open spec fn spec_fb_scan(
    s: Seq<char>,
    i: int,
    line_number: nat,
    opened: bool,
    open_line: nat,
    file: Seq<char>,
) -> Option<Issue>
    decreases s.len() - i
        when 0 <= i <= s.len()
{
    if i >= s.len() {
        if opened {
            Some(Issue { file, line: open_line, character: 1, summary: msg_fb_unmatched() })
        } else {
            None
        }
    } else {
        let le = run_end(s, i, not_newline_p());
        let next0 = if le < s.len() {
            le + 1
        } else {
            le
        };
        let next = if i < next0 <= s.len() {
            next0
        } else {
            i + 1
        };
        let ws_end = run_end(s, i, fb_space_p());
        if ws_end == le {
            spec_fb_scan(s, next, line_number, opened, open_line, file)
        } else {
            let ln = (line_number + 1) as nat;
            let we = run_end(s, ws_end, fb_word_p());
            let w = s.subrange(ws_end, we);
            if w == "#FBCODE"@ {
                if !opened {
                    spec_fb_scan(s, next, ln, true, ln, file)
                } else {
                    Some(Issue { file, line: ln, character: 1, summary: msg_fb_nested() })
                }
            } else if w == "#ENDFBCODE"@ {
                if !opened {
                    Some(Issue { file, line: ln, character: 1, summary: msg_fb_dangling() })
                } else {
                    spec_fb_scan(s, next, ln, false, open_line, file)
                }
            } else {
                spec_fb_scan(s, next, ln, opened, open_line, file)
            }
        }
    }
}

/// The first pairing error of a whole text, if any.
pub open spec fn spec_fb_pairs_match(s: Seq<char>, file: Seq<char>) -> Option<Issue> {
    spec_fb_scan(s, 0, 0, false, 0, file)
}

/// Verifies that the `#FBCODE` / `#ENDFBCODE` delimiters pair up,
/// stopping at the first error.
pub fn pairs_match(code: &Code) -> (r: Result<(), IssueSummary>)
    requires
        code.wf(),
    ensures
        r is Ok <==> spec_fb_pairs_match(code@.content, code@.name) is None,
        r matches Err(e) ==> spec_fb_pairs_match(code@.content, code@.name) == Some(e@),
{
    let v = to_chars(code.get_file_content().as_str());
    let ghost s = v@;
    let ghost fname = code@.name;
    let file_name = code.file_name();
    let mut i: usize = 0;
    let mut line_number: u32 = 0;
    let mut opened_fb_code = false;
    let mut num_opened: usize = 0;
    let mut num_closed: usize = 0;
    let mut last_opened_fb_code_line: u32 = 0;
    while i < v.len()
        invariant
            s == v@,
            s == code@.content,
            s.len() + 32 < u32::MAX,
            fname == code@.name,
            file_name@ == fname,
            i <= s.len(),
            line_number as int <= i as int,
            num_closed <= num_opened <= i,
            num_opened == num_closed + (if opened_fb_code {
                1int
            } else {
                0int
            }),
            spec_fb_pairs_match(s, fname) == spec_fb_scan(
                s,
                i as int,
                line_number as nat,
                opened_fb_code,
                last_opened_fb_code_line as nat,
                fname,
            ),
        decreases s.len() - i,
    {
        let ghost i0 = i as int;
        let ghost ln0 = line_number as nat;
        let ghost op0 = opened_fb_code;
        let ghost ol0 = last_opened_fb_code_line as nat;
        proof {
            lemma_run_end(s, i0, not_newline_p());
            lemma_run_end(s, i0, fb_space_p());
        }
        let ghost le = run_end(s, i0, not_newline_p());
        let ghost ws_end_g = run_end(s, i0, fb_space_p());
        // skip separating whitespace
        while i < v.len() && exec_is_fb_space(v[i])
            invariant
                s == v@,
                0 <= i0 <= i <= s.len(),
                run_end(s, i0, fb_space_p()) == run_end(s, i as int, fb_space_p()),
            decreases s.len() - i,
        {
            assert(fb_space_p()(v@[i as int]));
            assert(run_end(s, i as int, fb_space_p()) == run_end(s, i as int + 1, fb_space_p()));
            i += 1;
        }
        proof {
            assert(run_end(s, i as int, fb_space_p()) == i as int);
            assert(i as int == ws_end_g);
            assert(forall|k: int| i0 <= k < ws_end_g ==> fb_space_p()(s[k]));
            assert forall|k: int| i0 <= k < ws_end_g implies not_newline_p()(s[k]) by {
                assert(fb_space_p()(s[k]));
            }
            lemma_run_end_from(s, i0, ws_end_g, not_newline_p());
        }
        if i >= v.len() || v[i] == '\n' {
            // blank line: the counter does not advance
            proof {
                assert(run_end(s, i as int, not_newline_p()) == i as int);
                assert(le == ws_end_g);
            }
            if i < v.len() {
                i += 1;
            }
            proof {
                assert(spec_fb_scan(s, i0, ln0, op0, ol0, fname) == spec_fb_scan(
                    s,
                    i as int,
                    line_number as nat,
                    opened_fb_code,
                    last_opened_fb_code_line as nat,
                    fname,
                ));
            }
        } else {
            proof {
                assert(!is_fb_space(s[i as int]) && s[i as int] != '\n');
                assert(ws_end_g < le) by {
                    assert(not_newline_p()(s[ws_end_g]));
                    assert(run_end(s, ws_end_g, not_newline_p()) != ws_end_g);
                    lemma_run_end(s, ws_end_g, not_newline_p());
                }
            }
            line_number += 1;
            // collect the line's first word
            let mut word = String::new();
            let ghost we = run_end(s, i as int, fb_word_p());
            let ghost w0 = i as int;
            proof {
                lemma_run_end(s, w0, fb_word_p());
            }
            while i < v.len() && exec_is_fb_word_char(v[i])
                invariant
                    s == v@,
                    0 <= w0 <= i <= s.len(),
                    run_end(s, w0, fb_word_p()) == run_end(s, i as int, fb_word_p()),
                    word@ == s.subrange(w0, i as int),
                decreases s.len() - i,
            {
                let c = v[i];
                assert(fb_word_p()(c));
                assert(run_end(s, i as int, fb_word_p()) == run_end(s, i as int + 1, fb_word_p()));
                push_char(&mut word, c);
                assert(s.subrange(w0, i as int + 1) == s.subrange(w0, i as int).push(c));
                i += 1;
            }
            proof {
                assert(run_end(s, i as int, fb_word_p()) == i as int);
                assert(i as int == we);
                assert(word@ == s.subrange(ws_end_g, we));
                assert forall|k: int| w0 <= k < we implies not_newline_p()(s[k]) by {
                    assert(fb_word_p()(s[k]));
                }
                lemma_run_end_from(s, w0, we, not_newline_p());
                assert(le == run_end(s, we, not_newline_p()));
            }
            let this_line = line_number;
            if string_eq_str(&word, "#FBCODE") {
                if !opened_fb_code {
                    opened_fb_code = true;
                    num_opened += 1;
                    last_opened_fb_code_line = this_line;
                } else {
                    return Err(
                        IssueSummary::new(
                            file_name.as_str(),
                            this_line,
                            1,
                            "Nested #FBCODE not supported",
                        ),
                    );
                }
            } else if string_eq_str(&word, "#ENDFBCODE") {
                if !opened_fb_code {
                    return Err(
                        IssueSummary::new(
                            file_name.as_str(),
                            this_line,
                            1,
                            "#ENDFBCODE without #FBCODE",
                        ),
                    );
                } else {
                    opened_fb_code = false;
                    num_closed += 1;
                }
            }
            // skip the rest of the line
            while i < v.len() && v[i] != '\n'
                invariant
                    s == v@,
                    0 <= we <= i <= s.len(),
                    run_end(s, we, not_newline_p()) == run_end(s, i as int, not_newline_p()),
                decreases s.len() - i,
            {
                assert(not_newline_p()(v@[i as int]));
                assert(run_end(s, i as int, not_newline_p()) == run_end(
                    s,
                    i as int + 1,
                    not_newline_p(),
                ));
                i += 1;
            }
            proof {
                assert(run_end(s, i as int, not_newline_p()) == i as int);
                assert(i as int == le);
            }
            if i < v.len() {
                i += 1;
            }
            proof {
                assert(spec_fb_scan(s, i0, ln0, op0, ol0, fname) == spec_fb_scan(
                    s,
                    i as int,
                    line_number as nat,
                    opened_fb_code,
                    last_opened_fb_code_line as nat,
                    fname,
                ));
            }
        }
    }
    if num_opened > num_closed {
        Err(
            IssueSummary::new(
                file_name.as_str(),
                last_opened_fb_code_line,
                1,
                "#FBCODE does not have matching #ENDFBCODE",
            ),
        )
    } else {
        Ok(())
    }
}

} // verus!
