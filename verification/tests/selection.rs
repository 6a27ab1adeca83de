use line_select::select::MAX_KEPT_LINES;
use line_select::select_diverse_lines;
use line_select::Lang;

#[test]
fn short_function_returns_none() {
    let content = (1..=50)
        .map(|i| format!("line {i}"))
        .collect::<Vec<_>>()
        .join("\n");
    let result = select_diverse_lines(&content, 1, 50, Lang::Rust);
    assert!(
        result.is_none(),
        "functions <80 lines should not be truncated"
    );
}

#[test]
fn long_function_returns_some() {
    let mut lines: Vec<String> = Vec::new();
    lines.push("fn big_function() {".to_owned());
    for i in 2..=99 {
        lines.push(format!("    let x{i} = {i};"));
    }
    lines.push("}".to_owned());
    let content = lines.join("\n");

    let result = select_diverse_lines(&content, 1, 100, Lang::Rust);
    assert!(result.is_some(), "functions >=80 lines should be truncated");

    let kept = result.unwrap();
    assert!(kept.len() <= MAX_KEPT_LINES);
    // Signature and closing line must be included
    assert!(kept.contains(&1), "signature line must be kept");
    assert!(kept.contains(&100), "closing line must be kept");
    // Must be sorted ascending
    assert!(kept.windows(2).all(|w| w[0] < w[1]), "lines must be sorted");
}

#[test]
fn control_flow_lines_preferred() {
    let mut lines: Vec<String> = Vec::new();
    lines.push("fn example() {".to_owned());
    // Fill with low-value lines
    for i in 2..=90 {
        lines.push(format!("    // comment {i}"));
    }
    // Insert high-value control flow at specific positions
    lines[10] = "    if x > 0 {".to_owned(); // line 11
    lines[20] = "    match value {".to_owned(); // line 21
    lines[30] = "    return result;".to_owned(); // line 31
    lines[40] = "    for item in list {".to_owned(); // line 41
    lines.push("}".to_owned()); // line 91

    let content = lines.join("\n");
    let result = select_diverse_lines(&content, 1, 91, Lang::Rust).unwrap();

    assert!(result.contains(&11), "if-line should be kept");
    assert!(result.contains(&21), "match-line should be kept");
    assert!(result.contains(&31), "return-line should be kept");
    assert!(result.contains(&41), "for-line should be kept");
}

#[test]
fn error_handling_lines_preferred() {
    let mut lines: Vec<String> = Vec::new();
    lines.push("fn example() {".to_owned());
    for _ in 2..=90 {
        lines.push(String::new()); // blank lines (score 0)
    }
    lines[15] = "    let x = foo()?;".to_owned(); // line 16
    lines[25] = "    bar.unwrap();".to_owned(); // line 26
    lines[35] = "    bail!(\"error\");".to_owned(); // line 36
    lines.push("}".to_owned());

    let content = lines.join("\n");
    let result = select_diverse_lines(&content, 1, 91, Lang::Rust).unwrap();

    assert!(result.contains(&16), "?; line should be kept");
    assert!(result.contains(&26), ".unwrap() line should be kept");
    assert!(result.contains(&36), "bail! line should be kept");
}

#[test]
fn blank_and_comment_lines_deprioritized() {
    let mut lines: Vec<String> = Vec::new();
    lines.push("fn example() {".to_owned());
    // Mix of blanks, comments, and actual code
    for i in 2..=99 {
        if i % 3 == 0 {
            lines.push(String::new()); // blank
        } else if i % 3 == 1 {
            lines.push(format!("    // comment {i}"));
        } else {
            lines.push(format!("    do_something_{i}();"));
        }
    }
    lines.push("}".to_owned());
    let content = lines.join("\n");

    let result = select_diverse_lines(&content, 1, 100, Lang::Rust).unwrap();

    // Function call lines (score 10) should dominate over blanks/comments (score 0)
    let has_fn_calls = result.iter().any(|&ln| {
        let idx = (ln - 1) as usize;
        content
            .lines()
            .nth(idx)
            .is_some_and(|l| l.contains("do_something"))
    });
    assert!(has_fn_calls, "function call lines should be preferred");
}

#[test]
fn exactly_80_line_gap_triggers_truncation() {
    let lines: Vec<String> = (1..=81).map(|i| format!("line {i}")).collect();
    let content = lines.join("\n");
    // end - start = 81 - 1 = 80 => equals threshold => triggers
    let result = select_diverse_lines(&content, 1, 81, Lang::Rust);
    assert!(
        result.is_some(),
        "exactly 80-line gap should trigger truncation"
    );
}

#[test]
fn boundary_79_line_gap_does_not_trigger() {
    let lines: Vec<String> = (1..=80).map(|i| format!("line {i}")).collect();
    let content = lines.join("\n");
    // end - start = 80 - 1 = 79 => below threshold
    let result = select_diverse_lines(&content, 1, 80, Lang::Rust);
    assert!(
        result.is_none(),
        "79-line gap should not trigger truncation"
    );
}
