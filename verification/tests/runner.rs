//! What a finished agent process means.
use workflow_runner::runner::{run_agent, signed_string, PromptOutcome};

fn outcome(code: Option<i32>, stdout: &str, stderr: &str) -> PromptOutcome {
    PromptOutcome { exit_code: code, stdout: stdout.to_string(), stderr: stderr.to_string() }
}

#[test]
fn a_clean_exit_hands_back_the_output() {
    let r = run_agent("agent", outcome(Some(0), "all done\n", "noise"));
    assert_eq!(r.unwrap().stdout, "all done\n");
}

#[test]
fn a_failed_exit_names_the_program_code_and_error_output() {
    let r = run_agent("agent", outcome(Some(2), "", "boom \n\n"));
    assert_eq!(r.err().unwrap(), "agent exited with code 2: boom");
}

#[test]
fn a_run_ended_by_a_signal_counts_as_minus_one() {
    let r = run_agent("agent", outcome(None, "partial", ""));
    assert_eq!(r.err().unwrap(), "agent exited with code -1: ");
}

#[test]
fn signed_numbers_are_written_in_decimal() {
    assert_eq!(signed_string(0), "0");
    assert_eq!(signed_string(42), "42");
    assert_eq!(signed_string(-7), "-7");
    assert_eq!(signed_string(i32::MIN), "-2147483648");
    assert_eq!(signed_string(i32::MAX), "2147483647");
}

#[test]
fn trailing_unicode_white_space_is_trimmed() {
    let r = run_agent("agent", outcome(Some(1), "", "bad\u{3000}\u{a0}\u{2028}\t"));
    assert_eq!(r.err().unwrap(), "agent exited with code 1: bad");
    let r = run_agent("agent", outcome(Some(1), "", "zero-width\u{200b}"));
    assert_eq!(r.err().unwrap(), "agent exited with code 1: zero-width\u{200b}");
    for c in ['\u{9}', '\u{d}', ' ', '\u{85}', '\u{1680}', '\u{2000}', '\u{200a}', '\u{2029}', '\u{202f}', '\u{205f}'] {
        let text = format!("x{c}");
        let r = run_agent("agent", outcome(Some(3), "", &text));
        assert_eq!(r.err().unwrap(), "agent exited with code 3: x", "{:?} is white space", c);
        assert!(c.is_whitespace());
    }
}

use workflow_runner::runner::{response_text, ContentBlock};

fn block(kind: &str, text: Option<&str>) -> ContentBlock {
    ContentBlock { block_type: kind.to_string(), text: text.map(|t| t.to_string()) }
}

#[test]
fn the_answer_is_its_text_blocks_one_per_line() {
    let blocks = vec![
        block("text", Some("first")),
        block("tool_use", Some("ignored")),
        block("text", None),
        block("text", Some("second")),
    ];
    assert_eq!(response_text(&blocks), "first\nsecond");
    assert_eq!(response_text(&vec![]), "");
    assert_eq!(response_text(&vec![block("thinking", Some("x"))]), "");
    assert_eq!(response_text(&vec![block("text", Some(""))]), "");
    assert_eq!(response_text(&vec![block("text", Some("")), block("text", Some("b"))]), "\nb");
}
