use fmt_rs::format::{format_command, hook_response, same_words, HOOK_NOOP, MAX_INPUT};
use fmt_rs::json;

#[test]
fn formats_a_normal_command() {
    assert_eq!(format_command("ls   -la", 80), "ls -la\n");
}

#[test]
fn bails_to_original_on_comment() {
    let cmd = "rm -rf /tmp/build  # safe: only build artifacts";
    assert_eq!(format_command(cmd, 80), cmd);
}

#[test]
fn bails_to_original_on_heredoc() {
    let cmd = "cat <<EOF\nhi\nEOF";
    assert_eq!(format_command(cmd, 80), cmd);
}

#[test]
fn bails_to_original_on_function() {
    let cmd = "foo() { echo hi; }";
    assert_eq!(format_command(cmd, 80), cmd);
}

#[test]
fn bails_on_oversize_input() {
    let big = format!("echo {}", "x".repeat(MAX_INPUT));
    assert_eq!(format_command(&big, 80), big);
}

#[test]
fn bails_on_unparseable_without_panicking() {
    let cmd = "echo 'unterminated";
    assert_eq!(format_command(cmd, 80), cmd);
}

#[test]
fn words_are_preserved_through_formatting() {
    let cmd = "cd /tmp && grep -rn TODO . | head";
    let out = format_command(cmd, 80);
    assert!(same_words(cmd, &out));
}

// -- hook response ----------------------------------------------------

#[test]
fn hook_formats_bash_command() {
    let raw = r#"{"tool_name":"Bash","tool_input":{"command":"ls   -la"}}"#;
    let out = hook_response(raw, 80);
    assert_eq!(
        out,
        r#"{"hookSpecificOutput":{"hookEventName":"PreToolUse","permissionDecision":"ask","updatedInput":{"command":"ls -la"}}}"#
    );
}

#[test]
fn hook_noop_when_already_clean() {
    let raw = r#"{"tool_name":"Bash","tool_input":{"command":"ls -la"}}"#;
    assert_eq!(hook_response(raw, 80), HOOK_NOOP);
}

#[test]
fn hook_noop_for_non_bash_tool() {
    let raw = r#"{"tool_name":"Read","tool_input":{"file_path":"/x"}}"#;
    assert_eq!(hook_response(raw, 80), HOOK_NOOP);
}

#[test]
fn hook_noop_on_comment_command() {
    let raw = r#"{"tool_name":"Bash","tool_input":{"command":"rm x  # careful"}}"#;
    assert_eq!(hook_response(raw, 80), HOOK_NOOP);
}

#[test]
fn hook_noop_on_garbage_payload() {
    assert_eq!(hook_response("not json", 80), HOOK_NOOP);
    assert_eq!(hook_response("", 80), HOOK_NOOP);
    assert_eq!(hook_response("{}", 80), HOOK_NOOP);
}

#[test]
fn hook_preserves_quotes_through_json_round_trip() {
    let raw = r#"{"tool_name":"Bash","tool_input":{"command":"a=1;echo \"hi $a\""}}"#;
    let out = hook_response(raw, 80);
    // The formatted command (split on ;) is re-encoded as a JSON string.
    let parsed = json::parse(&out).unwrap();
    let cmd = parsed
        .get("hookSpecificOutput")
        .and_then(|h| h.get("updatedInput"))
        .and_then(|u| u.get("command"))
        .and_then(|c| c.as_str())
        .unwrap();
    assert_eq!(cmd, "a=1\necho \"hi $a\"");
}
