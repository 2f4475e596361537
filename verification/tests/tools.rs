use gene_core::tools::exec::{truncate, MAX_STREAM_BYTES};
use gene_core::tools::{is_denied, ExecResult};

fn result(stdout: &str, stderr: &str, exit_code: Option<i32>, timed_out: bool) -> ExecResult {
    ExecResult {
        command: "c".into(),
        stdout: stdout.into(),
        stderr: stderr.into(),
        exit_code,
        timed_out,
    }
}

#[test]
fn feedback_of_success() {
    assert_eq!(result("a", "", Some(0), false).as_feedback(), "a\n");
    assert_eq!(result("a\n", " ", Some(0), false).as_feedback(), "a\n");
    assert_eq!(result("", "", Some(0), false).as_feedback(), "[exit code 0]\n");
    assert_eq!(result("", "", None, false).as_feedback(), "[no output]\n");
}

#[test]
fn feedback_of_failure() {
    assert_eq!(
        result("a", "b", Some(-3), false).as_feedback(),
        "a\n[stderr]\nb\n[exit code -3]\n"
    );
    assert_eq!(
        result("", "slow", None, true).as_feedback(),
        "[command timed out]\n[stderr]\nslow\n"
    );
}

#[test]
fn output_is_cut_on_a_character() {
    let fits = "a".repeat(MAX_STREAM_BYTES);
    assert_eq!(truncate(fits.clone()), fits);
    assert_eq!(truncate(format!("{fits}b")), format!("{fits}\n…[truncated]"));
    // 8191 bytes, then a character of two.
    let odd = format!("{}éz", "a".repeat(MAX_STREAM_BYTES - 1));
    assert_eq!(
        truncate(odd),
        format!("{}\n…[truncated]", "a".repeat(MAX_STREAM_BYTES - 1))
    );
}

#[test]
fn outcomes() {
    let r = ExecResult::completed("c".into(), "o".into(), "e".into(), Some(1));
    assert_eq!((r.stdout.as_str(), r.stderr.as_str(), r.exit_code), ("o", "e", Some(1)));
    assert!(!r.timed_out);
    let r = ExecResult::not_spawned("c".into(), "no sh");
    assert_eq!(r.stderr, "failed to spawn command: no sh");
    assert_eq!((r.exit_code, r.timed_out), (None, false));
    let r = ExecResult::broken("c".into(), "gone");
    assert_eq!(r.stderr, "error while running command: gone");
    let r = ExecResult::late("c".into(), 30);
    assert_eq!(r.stderr, "command exceeded 30s timeout");
    assert!(r.timed_out);
    assert_eq!(r.command, "c");
}

#[test]
fn denylist_matches_substrings() {
    let list = vec!["".to_string(), "rm -rf".to_string(), "sudo".to_string()];
    assert!(is_denied("cd / && rm -rf x", &list));
    assert!(is_denied("sudo", &list));
    assert!(!is_denied("rm -r f", &list));
    assert!(!is_denied("", &list));
    assert!(!is_denied("rm -rf", &[]));
}
