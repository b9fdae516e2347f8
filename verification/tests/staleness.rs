use stalepid::text::trimmed;
use stalepid::{
    examine, handle_pid_file, is_pid_path_stale, is_pid_stale, read_pid, trace_pid, Action,
    DaemonName, HandleError, InvalidPid, Pid, PidProc, PidStatus, Step,
};
use sysinfo::System;

fn proc_with_limit(limit: u64) -> PidProc {
    PidProc {
        file: "/run/a.pid".to_string(),
        name: "sshd".to_string(),
        daemon_recurse_limit: limit,
    }
}

#[test]
fn white_space_is_what_std_says() {
    for c in (0..=0x10FFFF).filter_map(char::from_u32) {
        let text = format!("{}x{}", c, c);
        assert_eq!(trimmed(&text), text.trim());
    }
    assert_eq!(trimmed(" \t\n "), "");
    assert_eq!(trimmed(""), "");
    assert_eq!(trimmed(" a b\n"), "a b");
}

#[test]
fn process_numbers_in_files() {
    assert_eq!(read_pid("1234\n"), Ok(Some(Pid::from_u32(1234))));
    assert_eq!(read_pid("  +12 "), Ok(Some(Pid::from_u32(12))));
    assert_eq!(
        read_pid(&format!("{}", usize::MAX)),
        Ok(Some(Pid::from(usize::MAX)))
    );
    assert!(read_pid(&format!("{}0", usize::MAX)).is_err());
    assert_eq!(read_pid(""), Ok(None));
    assert_eq!(read_pid(" \n\t"), Ok(None));
    for text in ["abc", "-1", "12 34", "1.5", "99999999999999999999999"] {
        assert_eq!(
            read_pid(&format!(" {}\n", text)),
            Err(InvalidPid {
                text: text.to_string()
            })
        );
    }
}

#[test]
fn what_a_look_up_leads_to() {
    assert_eq!(examine(None, "sshd", 3), Step::Stop(PidStatus::NoProcess));
    assert_eq!(examine(Some("sshd"), "sshd", 0), Step::Stop(PidStatus::NameMatches));
    assert_eq!(examine(Some("sshd"), "sshd", 3), Step::Stop(PidStatus::NameMatches));
    assert_eq!(
        examine(Some("cron"), "sshd", 3),
        Step::Stop(PidStatus::NameDiffers("cron".to_string()))
    );
    assert_eq!(
        examine(Some("daemon: sshd[7]"), "sshd", 1),
        Step::Follow(DaemonName {
            name: "sshd".to_string(),
            pid: Pid::from_u32(7),
        })
    );
    assert_eq!(
        examine(Some("daemon: sshd[7]"), "sshd", 0),
        Step::Stop(PidStatus::NameDiffers("daemon: sshd[7]".to_string()))
    );
}

/// Looks `pid` up in a list of processes instead of a snapshot.
fn walk(
    processes: &[(usize, &str)],
    pid: usize,
    name: &str,
    limit: u64,
) -> (Vec<usize>, PidStatus) {
    let mut pids = vec![pid];
    let mut left = limit;
    loop {
        let here = pids[pids.len() - 1];
        let found = processes.iter().find(|p| p.0 == here).map(|p| p.1);
        match examine(found, name, left) {
            Step::Follow(child) => {
                pids.push(child.pid.number);
                left -= 1;
            }
            Step::Stop(status) => return (pids, status),
        }
    }
}

#[test]
fn supervisors_are_looked_through() {
    let processes = [
        (1, "daemon: b[2]"),
        (2, "daemon: c[3]"),
        (3, "sshd"),
        (4, "daemon: d[9]"),
        (5, "daemon: e[5]"),
        (6, "daemon: f[+009]"),
    ];
    assert_eq!(walk(&processes, 1, "sshd", 2), (vec![1, 2, 3], PidStatus::NameMatches));
    assert_eq!(walk(&processes, 1, "sshd", 9), (vec![1, 2, 3], PidStatus::NameMatches));
    assert_eq!(
        walk(&processes, 1, "sshd", 1),
        (vec![1, 2], PidStatus::NameDiffers("daemon: c[3]".to_string()))
    );
    assert_eq!(walk(&processes, 4, "d", 1), (vec![4, 9], PidStatus::NoProcess));
    assert_eq!(walk(&processes, 4, "d", 7), (vec![4, 9], PidStatus::NoProcess));
    assert_eq!(walk(&processes, 6, "f", 1), (vec![6, 9], PidStatus::NoProcess));
    assert_eq!(
        walk(&processes, 4, "d", 0),
        (vec![4], PidStatus::NameDiffers("daemon: d[9]".to_string()))
    );
    assert_eq!(
        walk(&processes, 5, "e", 3),
        (vec![5, 5, 5, 5], PidStatus::NameDiffers("daemon: e[5]".to_string()))
    );
}

#[test]
fn nothing_runs_in_an_empty_snapshot() {
    let sys = System::new();
    assert!(is_pid_stale(&sys, &Pid::from_u32(1), "sshd", 0));
    assert!(is_pid_stale(&sys, &Pid::from_u32(1), "sshd", 5));
    assert_eq!(is_pid_path_stale(&sys, "1\n", "sshd", 0), Ok(true));
    assert_eq!(is_pid_path_stale(&sys, " \n", "sshd", 0), Ok(true));
    assert_eq!(
        is_pid_path_stale(&sys, " x \n", "sshd", 0),
        Err(InvalidPid {
            text: "x".to_string()
        })
    );
    assert_eq!(handle_pid_file(&sys, &proc_with_limit(0), "1\n", true), Ok(Action::Remove));
    assert_eq!(handle_pid_file(&sys, &proc_with_limit(0), "", true), Ok(Action::Remove));
    assert_eq!(
        handle_pid_file(&sys, &proc_with_limit(0), "1\n", false),
        Err(HandleError::NotAFile)
    );
    assert_eq!(
        handle_pid_file(&sys, &proc_with_limit(0), "x", false),
        Err(HandleError::InvalidPid(InvalidPid {
            text: "x".to_string()
        }))
    );
}

#[test]
fn this_process_runs() {
    let sys = System::new_all();
    let me = sysinfo::get_current_pid().unwrap();
    let name = sys.process(me).unwrap().name().to_string_lossy().into_owned();
    let pid = Pid::from(usize::from(me));

    let trace = trace_pid(&sys, &pid, &name, 0);
    assert_eq!(trace.followed, vec![]);
    assert_eq!(trace.pid, pid);
    assert_eq!(trace.status, PidStatus::NameMatches);
    let trace = trace_pid(&sys, &pid, "something else", 4);
    assert_eq!(trace.status, PidStatus::NameDiffers(name.clone()));

    let content = format!("{}\n", me);
    assert!(!is_pid_stale(&sys, &pid, "something else", 0));
    assert_eq!(is_pid_path_stale(&sys, &content, &name, 0), Ok(false));
    assert_eq!(handle_pid_file(&sys, &proc_with_limit(3), &content, true), Ok(Action::Keep));
    assert_eq!(handle_pid_file(&sys, &proc_with_limit(3), &content, false), Ok(Action::Keep));
}

#[test]
fn numbers_are_looked_up_as_the_snapshot_reads_them() {
    let sys = System::new_all();
    let me = usize::from(sysinfo::get_current_pid().unwrap());
    for number in [0, 1, me, me.wrapping_add(1 << 31).wrapping_add(1 << 31), usize::MAX] {
        assert_eq!(
            is_pid_stale(&sys, &Pid::from(number), "sshd", 0),
            sys.process(sysinfo::Pid::from(number)).is_none()
        );
    }
}
