use ghp::editor::replace_or_append_host_block;
use ghp::editor::update_github_host_in_ssh_config;

fn update(content: &[u8], block: &[u8]) -> Vec<u8> {
    update_github_host_in_ssh_config(content, block).unwrap()
}

#[test]
fn append_when_absent_preserves_original() {
    let content = b"Host foo\n  X 1\nHost bar\n  Y 2\n";
    let block = b"Host github.com\n  User b\n";
    let out = update(content, block);
    assert_eq!(out, b"Host foo\n  X 1\nHost bar\n  Y 2\nHost github.com\n  User b\n".to_vec());
}

#[test]
fn append_normalizes_missing_trailing_newline() {
    let out = update(b"Host foo\n  X 1", b"Host github.com\n  User b\n");
    assert_eq!(out, b"Host foo\n  X 1\nHost github.com\n  User b\n".to_vec());
}

#[test]
fn append_to_empty_input() {
    let out = update(b"", b"Host github.com\n  User b\n");
    assert_eq!(out, b"Host github.com\n  User b\n".to_vec());
}

#[test]
fn append_terminates_unterminated_block() {
    let out = update(b"", b"Host github.com\n  User b");
    assert_eq!(out, b"Host github.com\n  User b\n".to_vec());
}

#[test]
fn replace_middle_stanza_keeps_neighbors() {
    let content = b"Host foo\n  X 1\nHost github.com\n  User a\nHost bar\n  Y 2\n";
    let out = update(content, b"Host github.com\n  User b\n");
    assert_eq!(
        out,
        b"Host foo\n  X 1\nHost github.com\n  User b\n\nHost bar\n  Y 2\n".to_vec()
    );
}

#[test]
fn replace_stanza_at_start_of_file() {
    let content = b"Host github.com\n  User a\nHost bar\n  Y 2\n";
    let out = update(content, b"Host github.com\n  User b\n");
    assert_eq!(out, b"Host github.com\n  User b\n\nHost bar\n  Y 2\n".to_vec());
}

#[test]
fn replace_stanza_at_end_of_file() {
    let content = b"Host foo\n  X 1\nHost github.com\n  User a\n";
    let out = update(content, b"Host github.com\n  User b\n");
    assert_eq!(out, b"Host foo\n  X 1\nHost github.com\n  User b\n".to_vec());
}

#[test]
fn replace_when_header_is_last_line() {
    let out = update(b"Host github.com", b"Host github.com\n  User b\n");
    assert_eq!(out, b"Host github.com\n  User b\n".to_vec());
}

#[test]
fn match_is_case_insensitive() {
    let content = b"Host GitHub.COM\n  User a\n";
    let out = update(content, b"Host github.com\n  User b\n");
    assert_eq!(out, b"Host github.com\n  User b\n".to_vec());
}

#[test]
fn indented_header_still_matches() {
    let content = b"  Host github.com\n  User a\nHost z\n  K 1\n";
    let out = update(content, b"Host github.com\n  User b\n");
    assert_eq!(out, b"Host github.com\n  User b\n\nHost z\n  K 1\n".to_vec());
}

#[test]
fn editing_twice_is_idempotent() {
    let content = b"Host foo\n  X 1\nHost github.com\n  User a\nHost bar\n  Y 2\n";
    let block = b"Host github.com\n  HostName github.com\n  User b\n  IdentityFile /k\n";
    let once = update(content, block);
    let twice = update(&once, block);
    assert_eq!(once, twice);
}

#[test]
fn appending_then_editing_is_idempotent() {
    let block = b"Host github.com\n  User b\n";
    let once = update(b"Host foo\n  X 1\n", block);
    let twice = update(&once, block);
    assert_eq!(once, twice);
}

#[test]
fn general_editor_replaces_named_host() {
    let content = b"Host a\n  X 1\nHost other.org\n  User old\n";
    let out = replace_or_append_host_block(content, b"other.org", b"Host other.org\n  User new\n");
    assert_eq!(out, b"Host a\n  X 1\nHost other.org\n  User new\n".to_vec());
}

#[test]
fn hostname_directive_does_not_end_stanza() {
    let content = b"Host github.com\n  HostName github.com\n  User a\nHost tail\n  T 1\n";
    let out = update(content, b"Host github.com\n  User b\n");
    assert_eq!(out, b"Host github.com\n  User b\n\nHost tail\n  T 1\n".to_vec());
}
