use beebotos_launcher::report::{
    action_report, failure_log_hint, log_report, push_section, redact_secrets, replace_text,
};

#[test]
fn sections() {
    let mut body = String::new();
    push_section(&mut body, "stdout", "  \n ");
    assert_eq!(body, "");
    push_section(&mut body, "stdout", " hello \n");
    assert_eq!(body, "== stdout ==\nhello");
    push_section(&mut body, "stderr", "bad");
    assert_eq!(body, "== stdout ==\nhello\n\n== stderr ==\nbad");
}

#[test]
fn replace_matches_std() {
    for (s, p) in [
        ("aaaa", "aa"),
        ("abcabc", "bc"),
        ("", "x"),
        ("xyz", "xyzw"),
        ("中文中文", "文"),
        ("aaa", "aa"),
    ] {
        assert_eq!(replace_text(s, p, "<>"), s.replace(p, "<>"), "{s:?} {p:?}");
    }
}

#[test]
fn redaction() {
    let secrets = vec!["  sk-123456 ".to_string(), "short".to_string(), "".to_string()];
    assert_eq!(
        redact_secrets("key sk-123456 and short".to_string(), &secrets),
        "key [redacted] and short"
    );
    assert_eq!(redact_secrets("nothing here".to_string(), &secrets), "nothing here");
    assert_eq!(redact_secrets("abc".to_string(), &[]), "abc");
}

#[test]
fn redaction_counts_bytes() {
    // three two-byte characters make six bytes
    let secrets = vec!["ééé".to_string()];
    assert_eq!(redact_secrets("xéééx".to_string(), &secrets), "x[redacted]x");
    let secrets = vec!["éé".to_string()];
    assert_eq!(redact_secrets("xééx".to_string(), &secrets), "xééx");
}

#[test]
fn hint() {
    assert_eq!(
        failure_log_hint("LOGS"),
        "服务启动失败时优先查看 data/logs/*.err。\n\nLOGS"
    );
}

#[test]
fn action_reports() {
    let secrets = vec!["secret-key".to_string()];
    assert_eq!(action_report("", " ", None, &secrets), "命令已执行，无输出。");
    assert_eq!(
        action_report("ok secret-key", "", None, &secrets),
        "== stdout ==\nok [redacted]"
    );
    assert_eq!(
        action_report("", "err", Some("hint"), &secrets),
        "== stderr ==\nerr\n\n== logs ==\nhint"
    );
}

#[test]
fn log_reports() {
    let none: Vec<(String, String)> = Vec::new();
    assert_eq!(log_report(&none, "C:/app/data/logs", &[]), "未找到日志文件：C:/app/data/logs");
    let sections = vec![
        ("gateway.err".to_string(), "  ".to_string()),
        ("web.log".to_string(), "line key-123456".to_string()),
    ];
    assert_eq!(
        log_report(&sections, "d", &["key-123456".to_string()]),
        "== web.log ==\nline [redacted]"
    );
}

#[test]
fn redaction_leaves_no_key() {
    let secrets = vec!["aaaaaa".to_string(), "bbbbbbb".to_string()];
    let out = redact_secrets("aaaaaaaaaaa bbbbbbbbbbbbbb".to_string(), &secrets);
    assert_eq!(out, "[redacted]aaaaa [redacted][redacted]");
    assert!(!out.contains("bbbbbbb"));
}

#[test]
fn task_status_lines() {
    assert_eq!(beebotos_launcher::report::task_status("启动服务", true), "服务状态：启动服务完成");
    assert_eq!(beebotos_launcher::report::task_status("查看日志", false), "服务状态：查看日志失败");
}
