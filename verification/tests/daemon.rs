use stalepid::decimal::NumberError;
use stalepid::{match_daemon_name, DaemonName, DaemonNameError, Pid};

#[test]
fn test_match_daemon_name() {
    assert!(match_daemon_name("fdjsf").is_err());

    let daemons = vec![
        DaemonName {
            name: "prg".to_string(),
            pid: Pid::from(1111),
        },
        DaemonName {
            name: "日本program".to_string(),
            pid: Pid::from(22229),
        },
        DaemonName {
            name: "sshd".to_string(),
            pid: Pid::from(3333999),
        },
    ];

    for d in &daemons {
        println!("daemon: {}[{}]", d.name, d.pid.number);
        assert!(
            match_daemon_name(&format!("daemon: {}[{}]", d.name, d.pid.number)).unwrap()
                == d.clone()
        );
    }
}

#[test]
fn every_reason_for_no_daemon_name() {
    let cases = [
        ("", DaemonNameError::MissingPrefix),
        ("daemon:", DaemonNameError::MissingPrefix),
        ("Daemon: a[1]", DaemonNameError::MissingPrefix),
        ("daemon: sshd", DaemonNameError::MissingPidStart),
        ("daemon: sshd[12", DaemonNameError::MissingPidEnd),
        ("daemon: sshd[", DaemonNameError::MissingPidEnd),
        ("daemon: sshd[1]x", DaemonNameError::MissingPidEnd),
        ("daemon: sshd[]", DaemonNameError::InvalidPid(NumberError::Empty)),
        ("daemon: sshd[1]]", DaemonNameError::InvalidPid(NumberError::InvalidDigit)),
        ("daemon: a[b[1]", DaemonNameError::InvalidPid(NumberError::InvalidDigit)),
        ("daemon: sshd[ 1]", DaemonNameError::InvalidPid(NumberError::InvalidDigit)),
        ("daemon: sshd[-1]", DaemonNameError::InvalidPid(NumberError::InvalidDigit)),
        ("daemon: sshd[+]", DaemonNameError::InvalidPid(NumberError::InvalidDigit)),
        ("daemon: sshd[4294967296]", DaemonNameError::InvalidPid(NumberError::TooLarge)),
    ];
    for (text, reason) in cases {
        assert_eq!(match_daemon_name(text), Err(reason));
    }
}

#[test]
fn numbers_read_as_std_reads_them() {
    let texts = [
        "", "0", "7", "+7", "+", "++7", "-7", "007", "4294967295", "4294967296", "42949672950",
        "99999999999x", "429496729x", "4294967296x", "1_000", "１", " 1", "1 ", "0x10",
        "00000000000000000000000000000000001", "99999999999999999999999999999999999",
    ];
    for text in texts {
        let ours = match_daemon_name(&format!("daemon: x[{}]", text));
        match text.parse::<u32>() {
            Ok(n) => assert_eq!(ours.unwrap().pid.number, n as usize),
            Err(e) => assert_eq!(ours.unwrap_err().message(), e.to_string()),
        }
    }
}

#[test]
fn daemon_names_may_be_empty_or_long() {
    let d = match_daemon_name("daemon: [5]").unwrap();
    assert_eq!((d.name.as_str(), d.pid.number), ("", 5));
    let d = match_daemon_name("daemon: a ] b: c[0]").unwrap();
    assert_eq!((d.name.as_str(), d.pid.number), ("a ] b: c", 0));
}

#[test]
fn daemon_errors_in_words() {
    assert_eq!(DaemonNameError::MissingPrefix.message(), "missing daemon prefix");
    assert_eq!(DaemonNameError::MissingPidStart.message(), "missing pid start");
    assert_eq!(DaemonNameError::MissingPidEnd.message(), "missing pid end");
}

#[test]
fn process_numbers_are_kept() {
    assert_eq!(Pid::from(0).number, 0);
    assert_eq!(Pid::from(usize::MAX).number, usize::MAX);
    assert_eq!(Pid::from_u32(u32::MAX).number, u32::MAX as usize);
    assert_eq!(Pid::from(77), Pid::from_u32(77));
    assert!(Pid::from(77) != Pid::from(78));
}
