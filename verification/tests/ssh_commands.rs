use go_webui::error::AppError;
use go_webui::transport::{
    append_stderr, disconnect_reason, login_shell_command, shell_quote, take_lines, ChannelEvent, ChannelPump,
    ClientHandler, HostKeyDecision, ReconnectPolicy, SshTransport, TransportEvent, RECONNECT_INTERVAL_SECS,
};
use go_webui::profile::{ProfileKind, ServerProfile};

#[test]
fn quotes_plain_command() {
    assert_eq!(shell_quote("katago gtp"), "'katago gtp'");
}

#[test]
fn escapes_embedded_single_quote() {
    assert_eq!(shell_quote("it's"), r"'it'\''s'");
}

// Tests of this library's own.

#[test]
fn login_shell_command_puts_user_bins_first() {
    assert_eq!(
        login_shell_command("katago gtp"),
        r#"sh -lc 'export PATH="$HOME/.local/bin:$HOME/bin:$PATH"; katago gtp'"#
    );
}

#[test]
fn disconnect_reason_prefers_exit_code_and_stderr() {
    assert_eq!(
        disconnect_reason(Some(127), "  sh: katago: not found\n"),
        "원격 명령이 종료됨 (exit code 127): sh: katago: not found"
    );
    assert_eq!(disconnect_reason(Some(0), " \n"), "원격 명령이 종료됨 (exit code 0)");
    assert_eq!(disconnect_reason(None, "broken pipe"), "연결이 끊겼습니다: broken pipe");
    assert_eq!(disconnect_reason(None, ""), "연결이 끊겼습니다");
}

#[test]
fn complete_lines_are_taken_and_the_rest_stays() {
    let mut buf = String::from("= ok\r\n\ninfo move A1\r\r\npartial");
    let lines = take_lines(&mut buf);
    assert_eq!(lines, vec!["= ok", "", "info move A1"]);
    assert_eq!(buf, "partial");
    let mut empty = String::from("no newline yet");
    assert!(take_lines(&mut empty).is_empty());
    assert_eq!(empty, "no newline yet");
}

#[test]
fn stderr_is_kept_only_below_the_limit() {
    let mut diag = String::from("a");
    append_stderr(&mut diag, 1, "b");
    assert_eq!(diag, "ab");
    append_stderr(&mut diag, 2000, "c");
    assert_eq!(diag, "ab");
}

#[test]
fn ssh_transport_keeps_its_profile_and_retries() {
    let profile = ServerProfile {
        id: "p1".to_string(),
        name: "server".to_string(),
        kind: ProfileKind::Ssh,
        host: "example.org".to_string(),
        port: 22,
        username: "me".to_string(),
        private_key: String::new(),
        has_passphrase: false,
        engine_command: "katago gtp".to_string(),
        host_key_fingerprint: None,
    };
    let t = SshTransport::new(profile);
    assert_eq!(t.profile_id(), "p1");
    assert_eq!(t.profile().host, "example.org");
    assert_eq!(t.reconnect_policy(), ReconnectPolicy::Retry { interval_secs: RECONNECT_INTERVAL_SECS });
}

#[test]
fn host_keys_are_trusted_on_first_use_then_checked() {
    let first = ClientHandler { host: "example.org".to_string(), stored_fingerprint: None };
    assert!(matches!(first.check_server_key("SHA256:abc"), HostKeyDecision::TrustAndStore));
    let known = ClientHandler { host: "example.org".to_string(), stored_fingerprint: Some("SHA256:abc".to_string()) };
    assert!(matches!(known.check_server_key("SHA256:abc"), HostKeyDecision::Accept));
    match known.check_server_key("SHA256:xyz") {
        HostKeyDecision::Reject(AppError::HostKeyMismatch { host, expected, actual }) => {
            assert_eq!(host, "example.org");
            assert_eq!(expected, "SHA256:abc");
            assert_eq!(actual, "SHA256:xyz");
        }
        _ => panic!("expected a refusal"),
    }
}

#[test]
fn channel_pump_cuts_lines_and_reports_the_end() {
    let mut pump = ChannelPump::new();
    let ev = pump.step(ChannelEvent::Stdout("= ok\r\nhalf".to_string()));
    assert_eq!(ev.len(), 1);
    assert!(matches!(&ev[0], TransportEvent::Line(l) if l == "= ok"));
    let ev = pump.step(ChannelEvent::Stdout(" line\n".to_string()));
    assert!(matches!(&ev[0], TransportEvent::Line(l) if l == "half line"));
    assert!(pump.step(ChannelEvent::Stderr { text: "  oops\n".to_string(), bytes: 7 }).is_empty());
    assert!(pump.step(ChannelEvent::ExitStatus(2)).is_empty());
    assert!(pump.step(ChannelEvent::Other).is_empty());
    let ev = pump.step(ChannelEvent::End);
    assert!(matches!(&ev[0], TransportEvent::Closed { reason } if reason == "원격 명령이 종료됨 (exit code 2): oops"));
}

/// Reads a word the way `sh` does for quotes and backslashes.
fn sh_read(word: &str) -> Option<String> {
    let mut out = String::new();
    let mut quoted = false;
    let mut chars = word.chars();
    while let Some(c) = chars.next() {
        if quoted {
            if c == '\'' {
                quoted = false;
            } else {
                out.push(c);
            }
        } else if c == '\'' {
            quoted = true;
        } else if c == '\\' {
            out.push(chars.next()?);
        } else {
            return None;
        }
    }
    if quoted {
        None
    } else {
        Some(out)
    }
}

#[test]
fn quoted_words_read_back_as_the_text() {
    for text in ["katago gtp", "it's", "''", "a'b'c", "$HOME; rm -rf /", "", "back\\slash"] {
        assert_eq!(sh_read(&shell_quote(text)), Some(text.to_string()));
    }
}
