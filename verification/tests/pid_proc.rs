use stalepid::{ParseError, PidProc, PidProcError};

fn described(file: &str, name: &str) -> Result<PidProc, PidProcError> {
    Ok(PidProc {
        file: file.to_string(),
        name: name.to_string(),
        daemon_recurse_limit: 0,
    })
}

#[test]
fn paths_with_and_without_a_name() {
    assert_eq!(PidProc::from_str("/run/a.pid=sshd"), described("/run/a.pid", "sshd"));
    assert_eq!(PidProc::from_str("/run/a.pid"), described("/run/a.pid", ""));
    assert_eq!(PidProc::from_str("a=b=c"), described("a", "b=c"));
    assert_eq!(PidProc::from_str(" a = b "), described(" a ", " b "));
    assert_eq!(PidProc::from_str("a{=}b"), described("a{", "}b"));
}

#[test]
fn quoted_parts_between_braces() {
    assert_eq!(
        PidProc::from_str("{\"/run/a.pid\",\"sshd\"}"),
        described("/run/a.pid", "sshd")
    );
    assert_eq!(
        PidProc::from_str("{ \"/run/a.pid\" ,\t\"日本\"\u{3000}}"),
        described("/run/a.pid", "日本")
    );
    assert_eq!(PidProc::from_str("{\"a\\\"b\",\"\"}"), described("a\"b", ""));
    assert_eq!(PidProc::from_str("{\"a\",\"b\",\"c\"}"), described("a", "b"));
    assert_eq!(PidProc::from_str("{\"a=b\",\"c\"}"), described("a=b", "c"));
    assert_eq!(PidProc::from_str("{x \"a\" y,\"b\"}"), described("a", "b"));
}

#[test]
fn bare_parts_between_braces() {
    assert_eq!(PidProc::from_str("{/run/a.pid,sshd}"), described("/run/a.pid", "sshd"));
    assert_eq!(PidProc::from_str("{ /run/a b.pid , sshd }"), described("/run/a b.pid", "sshd"));
    assert_eq!(PidProc::from_str("{\"/run/a.pid\",sshd}"), described("/run/a.pid", "sshd"));
}

#[test]
fn every_reason_for_no_description() {
    let unquoted = PidProcError::Quoted(ParseError::MissingQuotedString);
    let cases = [
        ("{}", unquoted),
        ("{a}", unquoted),
        ("{,}", unquoted),
        ("{,\"b\"}", unquoted),
        ("{a,b,c}", unquoted),
        ("{\"a\",\"b\",c}", unquoted),
        ("{\"a,b\",\"c\"}", unquoted),
        ("{\"a,\"b\"}", unquoted),
        ("{\"a\\\",\"b\"}", unquoted),
        ("{\"a\"}", PidProcError::MissingName),
        ("{\"\",\"b\"}", PidProcError::EmptyPathInBraces),
        ("{", PidProcError::Unclosed),
        ("{\"a\",\"b\"", PidProcError::Unclosed),
        ("{a=b", PidProcError::Unclosed),
        ("}", PidProcError::Unopened),
        ("a=b}", PidProcError::Unopened),
        ("=b", PidProcError::EmptyPath),
        ("=", PidProcError::EmptyPath),
        ("a=", PidProcError::EmptyName),
        ("", PidProcError::NothingFound),
    ];
    for (text, reason) in cases {
        assert_eq!(PidProc::from_str(text), Err(reason), "{}", text);
    }
}

#[test]
fn description_errors_in_words() {
    let cases = [
        ("{}", "MissingQuotedString"),
        ("{\"a\"}", "name was none"),
        ("{\"\",\"b\"}", "PID file path cannot be empty in brace format"),
        ("{", "opening { but no closing"),
        ("}", "closing } but no opening"),
        ("=b", "PID file path cannot be empty"),
        ("a=", "name was empty"),
        ("", "name was never found"),
    ];
    for (text, words) in cases {
        assert_eq!(PidProc::from_str(text).unwrap_err().message(), words);
    }
}

#[test]
fn default_description_is_empty() {
    assert_eq!(
        PidProc::default(),
        PidProc {
            file: String::new(),
            name: String::new(),
            daemon_recurse_limit: 0,
        }
    );
}
