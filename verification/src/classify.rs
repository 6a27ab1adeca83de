//! Per-line syntactic categories and the score cascade.
//!
//! Every predicate works on an already-trimmed line and is a purely textual,
//! language-agnostic check; the exact literal prefixes, suffixes and
//! substrings are the behavioral contract.

use vstd::prelude::*;
use vstd::string::StrSliceExecFns;

use crate::text::contains_char;
use crate::text::ends_with;
use crate::text::contains_seq;
use crate::text::seq_eq;
use crate::text::starts_with;
use crate::text::str_contains;
use crate::text::str_contains_char;
use crate::text::str_ends_with;
use crate::text::str_eq;
use crate::text::str_starts_with;

verus! {

/// The line consists of a comment alone: a line-comment marker, a
/// block-comment opener or continuation, or exactly a block-comment closer.
pub open spec fn spec_comment_only(t: Seq<char>) -> bool {
    ||| starts_with(t, "//"@)
    ||| starts_with(t, "#"@)
    ||| starts_with(t, "/*"@)
    ||| starts_with(t, "* "@)
    ||| seq_eq(t, "*/"@)
    ||| seq_eq(t, "*"@)
}

/// The line opens with (or is exactly) a control-flow keyword.
pub open spec fn spec_control_flow(t: Seq<char>) -> bool {
    ||| starts_with(t, "if "@)
    ||| starts_with(t, "} else"@)
    ||| starts_with(t, "else "@)
    ||| starts_with(t, "else{"@)
    ||| seq_eq(t, "else"@)
    ||| starts_with(t, "match "@)
    ||| starts_with(t, "switch "@)
    ||| starts_with(t, "case "@)
    ||| starts_with(t, "for "@)
    ||| starts_with(t, "while "@)
    ||| starts_with(t, "loop "@)
    ||| starts_with(t, "loop{"@)
    ||| seq_eq(t, "loop"@)
    ||| starts_with(t, "return "@)
    ||| seq_eq(t, "return"@)
    ||| starts_with(t, "return;"@)
}

/// The line shows an error-handling pattern: a trailing `?`, a fallible
/// unwrap or expect call, a fatal or early-error macro, or a catch/except
/// clause opener.
pub open spec fn spec_error_handling(t: Seq<char>) -> bool {
    ||| ends_with(t, "?;"@)
    ||| ends_with(t, "?"@)
    ||| contains_seq(t, ".unwrap()"@)
    ||| contains_seq(t, ".expect("@)
    ||| starts_with(t, "catch "@)
    ||| starts_with(t, "catch("@)
    ||| starts_with(t, "except "@)
    ||| starts_with(t, "except:"@)
    ||| contains_seq(t, "panic!("@)
    ||| contains_seq(t, "bail!("@)
    ||| contains_seq(t, "anyhow!("@)
}

/// A plain assignment: an `=` with no call parenthesis anywhere.
pub open spec fn spec_plain_assignment(t: Seq<char>) -> bool {
    contains_char(t, '=') && !contains_char(t, '(')
}

/// The line starts with a variable or constant declaration keyword.
pub open spec fn spec_var_decl(t: Seq<char>) -> bool {
    ||| starts_with(t, "let "@)
    ||| starts_with(t, "const "@)
    ||| starts_with(t, "var "@)
    ||| starts_with(t, "mut "@)
}

/// The score cascade of a trimmed line: boundary lines get 100; blank and
/// comment-only lines get 0; control flow, error handling and call
/// expressions get 10; call assignments and literal openers get 5; remaining
/// assignments and declarations get 1. A line matching several categories
/// takes the maximum.
pub open spec fn spec_score(t: Seq<char>, line_num: u32, start: u32, end: u32) -> u32 {
    if line_num == start || line_num == end {
        100
    } else if t.len() == 0 {
        0
    } else if spec_comment_only(t) {
        0
    } else if spec_control_flow(t) || spec_error_handling(t) || (contains_char(t, '(')
        && !spec_plain_assignment(t)) {
        10
    } else if (contains_char(t, '=') && contains_char(t, '(')) || (t.len() > 1 && t[t.len() - 1]
        == '{') {
        5
    } else if contains_char(t, '=') || spec_var_decl(t) {
        1
    } else {
        0
    }
}

/// A line's score is always one of the five cascade values.
pub proof fn lemma_score_values(t: Seq<char>, line_num: u32, start: u32, end: u32)
    ensures
        spec_score(t, line_num, start, end) == 0 || spec_score(t, line_num, start, end) == 1
            || spec_score(t, line_num, start, end) == 5 || spec_score(t, line_num, start, end)
            == 10 || spec_score(t, line_num, start, end) == 100,
{
}

/// Returns `true` if the line is comment-only (any common language).
pub fn is_comment_only(trimmed: &str) -> (r: bool)
    ensures
        r == spec_comment_only(trimmed@),
{
    str_starts_with(trimmed, "//") || str_starts_with(trimmed, "#") || str_starts_with(
        trimmed,
        "/*",
    ) || str_starts_with(trimmed, "* ") || str_eq(trimmed, "*/") || str_eq(trimmed, "*")
}

/// Returns `true` if the line starts with a control flow keyword.
pub fn is_control_flow(trimmed: &str) -> (r: bool)
    ensures
        r == spec_control_flow(trimmed@),
{
    str_starts_with(trimmed, "if ") || str_starts_with(trimmed, "} else") || str_starts_with(
        trimmed,
        "else ",
    ) || str_starts_with(trimmed, "else{") || str_eq(trimmed, "else") || str_starts_with(
        trimmed,
        "match ",
    ) || str_starts_with(trimmed, "switch ") || str_starts_with(trimmed, "case ")
        || str_starts_with(trimmed, "for ") || str_starts_with(trimmed, "while ")
        || str_starts_with(trimmed, "loop ") || str_starts_with(trimmed, "loop{") || str_eq(
        trimmed,
        "loop",
    ) || str_starts_with(trimmed, "return ") || str_eq(trimmed, "return") || str_starts_with(
        trimmed,
        "return;",
    )
}

/// Returns `true` if the line contains error handling patterns.
pub fn is_error_handling(trimmed: &str) -> (r: bool)
    ensures
        r == spec_error_handling(trimmed@),
{
    str_ends_with(trimmed, "?;") || str_ends_with(trimmed, "?") || str_contains(
        trimmed,
        ".unwrap()",
    ) || str_contains(trimmed, ".expect(") || str_starts_with(trimmed, "catch ")
        || str_starts_with(trimmed, "catch(") || str_starts_with(trimmed, "except ")
        || str_starts_with(trimmed, "except:") || str_contains(trimmed, "panic!(") || str_contains(
        trimmed,
        "bail!(",
    ) || str_contains(trimmed, "anyhow!(")
}

/// Returns `true` if the line is a plain assignment with no function call.
pub fn is_plain_assignment(trimmed: &str) -> (r: bool)
    ensures
        r == spec_plain_assignment(trimmed@),
{
    str_contains_char(trimmed, '=') && !str_contains_char(trimmed, '(')
}

/// Returns `true` if the line starts with a variable declaration keyword.
pub fn is_var_decl(trimmed: &str) -> (r: bool)
    ensures
        r == spec_var_decl(trimmed@),
{
    str_starts_with(trimmed, "let ") || str_starts_with(trimmed, "const ") || str_starts_with(
        trimmed,
        "var ",
    ) || str_starts_with(trimmed, "mut ")
}

/// Score a single line based on its content. Higher scores indicate more
/// important lines that should be preserved during truncation.
pub fn score_line(trimmed: &str, line_num: u32, start: u32, end: u32) -> (score: u32)
    ensures
        score == spec_score(trimmed@, line_num, start, end),
{
    if line_num == start || line_num == end {
        return 100;
    }
    let len = trimmed.unicode_len();
    if len == 0 {
        return 0;
    }
    if is_comment_only(trimmed) {
        return 0;
    }

    let mut score: u32 = 0;

    if is_control_flow(trimmed) {
        score = if score >= 10 { score } else { 10 };
    }

    if is_error_handling(trimmed) {
        score = if score >= 10 { score } else { 10 };
    }

    let has_paren = str_contains_char(trimmed, '(');
    let has_eq = str_contains_char(trimmed, '=');

    if has_paren && !is_plain_assignment(trimmed) {
        score = if score >= 10 { score } else { 10 };
    }

    if has_eq && has_paren {
        score = if score >= 5 { score } else { 5 };
    }

    if len > 1 && trimmed.get_char(len - 1) == '{' {
        score = if score >= 5 { score } else { 5 };
    }

    if score == 0 && (has_eq || is_var_decl(trimmed)) {
        score = 1;
    }

    score
}

} // verus!
