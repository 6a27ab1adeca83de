use line_select::select::MAX_KEPT_LINES;
use line_select::select_diverse_lines;
use line_select::Lang;

fn assignments_body(n: u32) -> String {
    let mut lines: Vec<String> = Vec::new();
    lines.push("fn filler() {".to_owned());
    for i in 2..n {
        lines.push(format!("    let v{i} = {i};"));
    }
    lines.push("}".to_owned());
    lines.join("\n")
}

#[test]
fn reversed_range_returns_none() {
    let content = assignments_body(100);
    // end < start: the saturating gap is 0, far below the threshold.
    let result = select_diverse_lines(&content, 100, 1, Lang::Rust);
    assert!(result.is_none());
}

#[test]
fn zero_start_yields_empty_selection() {
    let content = assignments_body(100);
    // The gap triggers, but line 0 does not exist, so no candidate is ever
    // accumulated: a present but empty selection.
    let result = select_diverse_lines(&content, 0, 90, Lang::Rust);
    assert_eq!(result, Some(Vec::new()));
}

#[test]
fn empty_buffer_yields_empty_selection() {
    let result = select_diverse_lines("", 1, 100, Lang::Rust);
    assert_eq!(result, Some(Vec::new()));
}

#[test]
fn short_buffer_degrades_gracefully() {
    // 50 physical lines, but a declared range of 1..=100: scoring stops at
    // the end of the buffer and the result is best-effort.
    let lines: Vec<String> = (1..=50).map(|i| format!("    call_{i}();")).collect();
    let content = lines.join("\n");
    let result = select_diverse_lines(&content, 1, 100, Lang::Rust).unwrap();
    assert!(!result.is_empty());
    assert!(result.contains(&1), "the start boundary line is kept");
    assert!(!result.contains(&100), "line 100 does not exist");
    assert!(result.iter().all(|&ln| (1..=50).contains(&ln)));
    assert!(result.windows(2).all(|w| w[0] < w[1]));
}

#[test]
fn identical_inputs_identical_output() {
    let mut lines: Vec<String> = Vec::new();
    lines.push("fn sample() {".to_owned());
    for i in 2..=95 {
        if i % 4 == 0 {
            lines.push(format!("    if flag_{i} {{"));
        } else if i % 4 == 1 {
            lines.push(format!("    total = total + {i};"));
        } else if i % 4 == 2 {
            lines.push(format!("    // note {i}"));
        } else {
            lines.push(format!("    helper_{i}(total);"));
        }
    }
    lines.push("}".to_owned());
    let content = lines.join("\n");
    let first = select_diverse_lines(&content, 1, 96, Lang::Rust);
    let second = select_diverse_lines(&content, 1, 96, Lang::Rust);
    assert_eq!(first, second);
}

#[test]
fn language_tag_is_inert() {
    let content = assignments_body(100);
    let with_rust = select_diverse_lines(&content, 1, 100, Lang::Rust);
    let with_python = select_diverse_lines(&content, 1, 100, Lang::Python);
    let with_other = select_diverse_lines(&content, 1, 100, Lang::Other);
    assert_eq!(with_rust, with_python);
    assert_eq!(with_rust, with_other);
}

#[test]
fn calls_displace_plain_assignments() {
    // 99 content lines: mostly score-1 assignments, with 45 score-10 call
    // lines. Only 40 slots exist, so every kept interior line must be a call
    // line: the assignments lose every contested slot.
    let mut lines: Vec<String> = Vec::new();
    lines.push("fn crowded() {".to_owned());
    for i in 2..=99 {
        if i % 2 == 0 {
            lines.push(format!("    step_{i}();"));
        } else {
            lines.push(format!("    acc = {i};"));
        }
    }
    lines.push("}".to_owned());
    let content = lines.join("\n");
    let result = select_diverse_lines(&content, 1, 100, Lang::Rust).unwrap();
    assert_eq!(result.len(), MAX_KEPT_LINES);
    for &ln in &result {
        if ln != 1 && ln != 100 {
            assert_eq!(ln % 2, 0, "kept interior line {ln} should be a call line");
        }
    }
}

#[test]
fn blank_boundary_lines_still_kept() {
    // Both boundary lines are blank, which would score 0; boundary inclusion
    // still forces them into the selection.
    let mut lines: Vec<String> = Vec::new();
    lines.push(String::new()); // line 1, blank
    for i in 2..=90 {
        lines.push(format!("    work_{i}();"));
    }
    lines.push("    ".to_owned()); // line 91, whitespace only: blank once trimmed
    let content = lines.join("\n");
    let result = select_diverse_lines(&content, 1, 91, Lang::Rust).unwrap();
    assert!(result.contains(&1), "blank start line must be kept");
    assert!(result.contains(&91), "blank end line must be kept");
}

#[test]
fn literal_opener_beats_plain_assignment() {
    // A struct-literal opener (score 5) competes against plain assignments
    // (score 1) for the last slots under the cap.
    let mut lines: Vec<String> = Vec::new();
    lines.push("fn build() {".to_owned());
    for i in 2..=99 {
        lines.push(format!("    field{i} = {i}"));
    }
    lines[49] = "    let cfg = Config {".to_owned(); // line 50
    lines.push("}".to_owned());
    let content = lines.join("\n");
    let result = select_diverse_lines(&content, 1, 100, Lang::Rust).unwrap();
    assert!(result.contains(&50), "literal-opener line should be kept");
}

#[test]
fn crlf_line_endings_are_trimmed() {
    // With \r\n endings the carriage return is whitespace and trimming
    // removes it, so suffix checks (such as `?;`) still fire.
    let mut lines: Vec<String> = Vec::new();
    lines.push("fn windows_file() {".to_owned());
    for _ in 2..=90 {
        lines.push(String::new());
    }
    lines[15] = "    let x = read()?;".to_owned(); // line 16
    lines.push("}".to_owned());
    let content = lines.join("\r\n");
    let result = select_diverse_lines(&content, 1, 91, Lang::Rust).unwrap();
    assert!(result.contains(&16), "?; line should be kept despite \\r");
}

#[test]
fn comment_markers_of_other_languages_count() {
    // `#` comments and block-comment continuations score 0 whatever the
    // language tag says.
    let mut lines: Vec<String> = Vec::new();
    lines.push("def handler():".to_owned());
    for i in 2..=90 {
        if i % 2 == 0 {
            lines.push(format!("    # comment {i}"));
        } else {
            lines.push(format!("    dispatch_{i}()"));
        }
    }
    lines.push("    return".to_owned()); // line 91
    let content = lines.join("\n");
    let result = select_diverse_lines(&content, 1, 91, Lang::Python).unwrap();
    for &ln in &result {
        if ln != 1 && ln != 91 {
            assert_eq!(ln % 2, 1, "kept interior line {ln} should be a call line");
        }
    }
}

#[test]
fn cap_is_exactly_forty() {
    let content = assignments_body(200);
    let result = select_diverse_lines(&content, 1, 200, Lang::Rust).unwrap();
    assert_eq!(result.len(), MAX_KEPT_LINES);
    assert_eq!(result.len(), 40);
}

#[test]
fn switch_case_and_catch_markers_score() {
    // `switch`/`case` (control flow) and `catch` (error handling) are kept
    // over surrounding comments.
    let mut lines: Vec<String> = Vec::new();
    lines.push("void run() {".to_owned());
    for i in 2..=90 {
        lines.push(format!("    // filler {i}"));
    }
    lines[29] = "    switch (mode) {".to_owned(); // line 30
    lines[39] = "    case 1:".to_owned(); // line 40
    lines[59] = "    catch (err) {".to_owned(); // line 60
    lines.push("}".to_owned());
    let content = lines.join("\n");
    let result = select_diverse_lines(&content, 1, 91, Lang::C).unwrap();
    assert!(result.contains(&30), "switch line should be kept");
    assert!(result.contains(&40), "case line should be kept");
    assert!(result.contains(&60), "catch line should be kept");
}
