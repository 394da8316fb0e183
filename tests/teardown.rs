use cgroups_v1::controller::ControllerType;
use cgroups_v1::error::CgroupError;
use cgroups_v1::manager::Manager;
use cgroups_v1::removal::{parse_pid, parse_procs, DeleteStep, Removal, RemovalAction, RetryPolicy};

fn manager() -> Manager {
    let mut t = String::new();
    for (i, n) in ["cpu,cpuacct", "cpuset", "devices", "hugetlb", "memory", "pids", "blkio", "net_prio", "net_cls"]
        .iter()
        .enumerate()
    {
        t.push_str(&format!("{} 24 0:{} / /sys/fs/cgroup/{} rw - cgroup cgroup rw,{}\n", 30 + i, 30 + i, n, n));
    }
    Manager::new("/ctr", &t, "").unwrap()
}

#[test]
fn pid_lines() {
    assert_eq!(parse_pid("123"), Some(123));
    assert_eq!(parse_pid("-5"), Some(-5));
    assert_eq!(parse_pid("+7"), Some(7));
    assert_eq!(parse_pid("2147483647"), Some(i32::MAX));
    assert_eq!(parse_pid("-2147483648"), Some(i32::MIN));
    assert_eq!(parse_pid("2147483648"), None);
    assert_eq!(parse_pid("99999999999999999999"), None);
    assert_eq!(parse_pid(""), None);
    assert_eq!(parse_pid("-"), None);
    assert_eq!(parse_pid("12a"), None);
    assert_eq!(parse_pid(" 1"), None);
}

#[test]
fn membership_file_parsing() {
    assert_eq!(parse_procs(ControllerType::Pids, "1\n22\n333\n"), Ok(vec![1, 22, 333]));
    assert_eq!(parse_procs(ControllerType::Pids, "4\n5"), Ok(vec![4, 5]));
    assert_eq!(parse_procs(ControllerType::Pids, ""), Ok(vec![]));
    assert_eq!(parse_procs(ControllerType::Pids, "1\n\n"), Err(CgroupError::PidParseError(ControllerType::Pids)));
    assert_eq!(parse_procs(ControllerType::Memory, "1\nx\n2\n"), Err(CgroupError::PidParseError(ControllerType::Memory)));
}

#[test]
fn retry_decisions() {
    let p = RetryPolicy::new(3, 50);
    assert_eq!(p.after_delete_attempt(1, true), DeleteStep::Done);
    assert_eq!(p.after_delete_attempt(1, false), DeleteStep::RetryAfter(50));
    assert_eq!(p.after_delete_attempt(2, false), DeleteStep::RetryAfter(50));
    assert_eq!(p.after_delete_attempt(3, false), DeleteStep::GiveUp);
    assert_eq!(RetryPolicy::new(0, 1).attempts, 1);
    let c = RetryPolicy::default();
    assert_eq!((c.attempts, c.delay_ms), (5, 100));
}

#[test]
fn remove_without_directories_succeeds_untouched() {
    let m = manager();
    let mut r = Removal::new(&m, RetryPolicy::default());
    let mut inspected = 0;
    loop {
        match r.next_action() {
            RemovalAction::Inspect(_, _) => {
                let kill = r.on_inspected(None);
                assert!(kill.is_empty());
                inspected += 1;
            }
            RemovalAction::Delete(_, _) => panic!("nothing to delete"),
            RemovalAction::Finished(res) => {
                assert_eq!(res, Ok(()));
                break;
            }
        }
    }
    assert_eq!(inspected, 9);
}

#[test]
fn exited_pid_is_killed_best_effort_and_directory_deleted() {
    let m = manager();
    let mut r = Removal::new(&m, RetryPolicy::default());
    assert_eq!(r.next_action(), RemovalAction::Inspect(ControllerType::Cpu, "/sys/fs/cgroup/cpu,cpuacct/ctr".to_string()));
    let kill = r.on_inspected(Some(Some("4194303\n")));
    assert_eq!(kill, vec![4194303]);
    // the signal fails: nothing is reported back for it
    assert_eq!(r.next_action(), RemovalAction::Delete(ControllerType::Cpu, "/sys/fs/cgroup/cpu,cpuacct/ctr".to_string()));
    assert_eq!(r.on_delete_attempt(true), None);
    assert_eq!(r.next_action(), RemovalAction::Inspect(ControllerType::CpuSet, "/sys/fs/cgroup/cpuset/ctr".to_string()));
}

fn delete_with_busy(busy: u32, attempts: u32) -> (Result<(), CgroupError>, u32, Vec<ControllerType>) {
    let m = manager();
    let mut r = Removal::new(&m, RetryPolicy::new(attempts, 10));
    let mut tries = 0;
    let mut seen = vec![];
    loop {
        match r.next_action() {
            RemovalAction::Inspect(c, _) => {
                seen.push(c);
                r.on_inspected(if c == ControllerType::Cpu { Some(Some("")) } else { None });
            }
            RemovalAction::Delete(_, _) => {
                tries += 1;
                let pause = r.on_delete_attempt(tries > busy);
                if let Some(d) = pause {
                    assert_eq!(d, 10);
                }
            }
            RemovalAction::Finished(res) => return (res, tries, seen),
        }
    }
}

#[test]
fn busy_directory_within_budget_is_deleted() {
    let (res, tries, seen) = delete_with_busy(3, 4);
    assert_eq!(res, Ok(()));
    assert_eq!(tries, 4);
    assert_eq!(seen.len(), 9);
}

#[test]
fn busy_directory_beyond_budget_times_out_and_stops() {
    let (res, tries, seen) = delete_with_busy(4, 4);
    assert_eq!(res, Err(CgroupError::RemovalTimeout(ControllerType::Cpu)));
    assert_eq!(tries, 4);
    assert_eq!(seen, vec![ControllerType::Cpu]);
}

#[test]
fn unreadable_or_malformed_membership_file_stops_removal() {
    let m = manager();
    let mut r = Removal::new(&m, RetryPolicy::default());
    r.on_inspected(Some(None));
    assert_eq!(r.next_action(), RemovalAction::Finished(Err(CgroupError::MembershipReadFailed(ControllerType::Cpu))));
    let mut r = Removal::new(&m, RetryPolicy::default());
    assert!(r.on_inspected(Some(Some("12\nabc\n"))).is_empty());
    assert_eq!(r.next_action(), RemovalAction::Finished(Err(CgroupError::PidParseError(ControllerType::Cpu))));
}

#[test]
fn membership_file_with_crlf_line_endings() {
    assert_eq!(parse_procs(ControllerType::Pids, "1\r\n2\r\n"), Ok(vec![1, 2]));
    assert_eq!(parse_procs(ControllerType::Pids, "1\r\n2"), Ok(vec![1, 2]));
    assert_eq!(parse_procs(ControllerType::Pids, "3\r"), Err(CgroupError::PidParseError(ControllerType::Pids)));
}
