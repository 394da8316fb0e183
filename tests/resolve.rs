use cgroups_v1::controller::{controllers, ControllerType};
use cgroups_v1::error::CgroupError;
use cgroups_v1::manager::Manager;
use cgroups_v1::mount::{get_subsystem_mount_points, list_subsystem_mount_points, path_ends_with_component, serves};
use cgroups_v1::path::join_absolute_path;

fn cgroup_line(id: u32, mount_point: &str, opts: &str) -> String {
    format!(
        "{} 24 0:{} / {} rw,nosuid,nodev,noexec,relatime shared:{} - cgroup cgroup rw,{}\n",
        id, id, mount_point, id, opts
    )
}

fn full_table() -> String {
    let mut t = String::from("22 1 8:1 / / rw,relatime shared:1 - ext4 /dev/sda1 rw\n");
    let mounts = [
        ("/sys/fs/cgroup/cpu,cpuacct", "cpu,cpuacct"),
        ("/sys/fs/cgroup/cpuset", "cpuset"),
        ("/sys/fs/cgroup/devices", "devices"),
        ("/sys/fs/cgroup/hugetlb", "hugetlb"),
        ("/sys/fs/cgroup/memory", "memory"),
        ("/sys/fs/cgroup/pids", "pids"),
        ("/sys/fs/cgroup/blkio", "blkio"),
        ("/sys/fs/cgroup/net_prio", "net_prio"),
        ("/sys/fs/cgroup/net_cls", "net_cls"),
    ];
    for (i, (m, o)) in mounts.iter().enumerate() {
        t.push_str(&cgroup_line(30 + i as u32, m, o));
    }
    t
}

fn root_listing() -> String {
    let mut l = String::new();
    let names = ["cpu,cpuacct", "cpuset", "devices", "hugetlb", "memory", "pids", "blkio", "net_prio", "net_cls"];
    for (i, n) in names.iter().enumerate() {
        l.push_str(&format!("{}:{}:/\n", i + 2, n));
    }
    l
}

#[test]
fn controller_names_and_order() {
    let cs = controllers();
    let names: Vec<&str> = cs.iter().map(|c| c.name()).collect();
    assert_eq!(
        names,
        vec!["cpu", "cpuset", "devices", "hugetlb", "memory", "pids", "blkio", "net_prio", "net_cls"]
    );
}

#[test]
fn cpu_resolves_to_cpu_cpuacct_comount() {
    let t = cgroup_line(30, "/sys/fs/cgroup/cpu,cpuacct", "cpu,cpuacct");
    let r = get_subsystem_mount_points(&t, ControllerType::Cpu).unwrap();
    assert_eq!(r, "/sys/fs/cgroup/cpu,cpuacct");
}

#[test]
fn cpu_resolves_to_plain_cpu_mount() {
    let t = cgroup_line(30, "/sys/fs/cgroup/cpu", "cpu");
    let r = get_subsystem_mount_points(&t, ControllerType::Cpu).unwrap();
    assert_eq!(r, "/sys/fs/cgroup/cpu");
}

#[test]
fn cpuacct_alone_does_not_serve_cpu() {
    let t = cgroup_line(30, "/sys/fs/cgroup/cpuacct", "cpuacct");
    let r = get_subsystem_mount_points(&t, ControllerType::Cpu);
    assert_eq!(r, Err(CgroupError::MountNotFound(ControllerType::Cpu)));
}

#[test]
fn net_comount_serves_both_controllers() {
    for mp in ["/sys/fs/cgroup/net_cls,net_prio", "/sys/fs/cgroup/net_prio,net_cls"] {
        let t = cgroup_line(31, mp, "net_cls,net_prio");
        assert_eq!(get_subsystem_mount_points(&t, ControllerType::NetworkClassifier).unwrap(), mp);
        assert_eq!(get_subsystem_mount_points(&t, ControllerType::NetworkPriority).unwrap(), mp);
    }
}

#[test]
fn non_cgroup_mount_is_ignored() {
    let t = "40 24 0:40 / /mnt/memory rw,relatime - tmpfs tmpfs rw\n".to_string()
        + &cgroup_line(41, "/sys/fs/cgroup/memory", "memory");
    assert_eq!(
        get_subsystem_mount_points(&t, ControllerType::Memory).unwrap(),
        "/sys/fs/cgroup/memory"
    );
}

#[test]
fn first_matching_mount_wins() {
    let t = cgroup_line(41, "/a/pids", "pids") + &cgroup_line(42, "/b/pids", "pids");
    assert_eq!(get_subsystem_mount_points(&t, ControllerType::Pids).unwrap(), "/a/pids");
}

#[test]
fn unreadable_mount_table() {
    assert_eq!(
        get_subsystem_mount_points("not a mount table\n", ControllerType::Pids),
        Err(CgroupError::MountTableUnreadable)
    );
}

#[test]
fn list_mounts_skips_missing_controllers() {
    let t = cgroup_line(30, "/sys/fs/cgroup/memory", "memory")
        + &cgroup_line(31, "/sys/fs/cgroup/cpu,cpuacct", "cpu,cpuacct");
    let r = list_subsystem_mount_points(&t).unwrap();
    assert_eq!(
        r,
        vec![
            (ControllerType::Cpu, "/sys/fs/cgroup/cpu,cpuacct".to_string()),
            (ControllerType::Memory, "/sys/fs/cgroup/memory".to_string()),
        ]
    );
    assert_eq!(list_subsystem_mount_points(&full_table()).unwrap().len(), 9);
}

#[test]
fn absolute_request_is_placed_under_mount() {
    let r = join_absolute_path("/sys/fs/cgroup/memory", "/user.slice/foo").unwrap();
    assert_eq!(r, "/sys/fs/cgroup/memory/user.slice/foo");
}

#[test]
fn traversal_above_mount_is_rejected() {
    let r = join_absolute_path("/sys/fs/cgroup/memory", "/user.slice/../../etc");
    assert_eq!(r, Err(CgroupError::PathEscape));
}

#[test]
fn traversal_within_mount_is_resolved() {
    let r = join_absolute_path("/sys/fs/cgroup/memory", "/a/./b/../c//d").unwrap();
    assert_eq!(r, "/sys/fs/cgroup/memory/a/c/d");
    assert_eq!(join_absolute_path("/m", "x/..").unwrap(), "/m");
}

#[test]
fn root_request_is_the_mount_itself() {
    assert_eq!(join_absolute_path("/sys/fs/cgroup/pids", "/").unwrap(), "/sys/fs/cgroup/pids");
    assert_eq!(join_absolute_path("/sys/fs/cgroup/pids", "").unwrap(), "/sys/fs/cgroup/pids");
}

fn paths_of(m: &Manager) -> Vec<(ControllerType, String)> {
    (0..m.subsystem_count()).map(|i| {
        let (c, p) = m.subsystem(i);
        (c, p.to_string())
    }).collect()
}

#[test]
fn inheriting_root_placement_gives_mount_points() {
    let m = Manager::new("", &full_table(), &root_listing()).unwrap();
    let got = paths_of(&m);
    let want: Vec<(ControllerType, String)> = vec![
        (ControllerType::Cpu, "/sys/fs/cgroup/cpu,cpuacct"),
        (ControllerType::CpuSet, "/sys/fs/cgroup/cpuset"),
        (ControllerType::Devices, "/sys/fs/cgroup/devices"),
        (ControllerType::HugeTlb, "/sys/fs/cgroup/hugetlb"),
        (ControllerType::Memory, "/sys/fs/cgroup/memory"),
        (ControllerType::Pids, "/sys/fs/cgroup/pids"),
        (ControllerType::Blkio, "/sys/fs/cgroup/blkio"),
        (ControllerType::NetworkPriority, "/sys/fs/cgroup/net_prio"),
        (ControllerType::NetworkClassifier, "/sys/fs/cgroup/net_cls"),
    ]
    .into_iter()
    .map(|(c, p)| (c, p.to_string()))
    .collect();
    assert_eq!(got, want);
}

#[test]
fn inheriting_nested_placement() {
    let listing = root_listing().replace(":/\n", ":/user.slice/session-1.scope\n");
    let m = Manager::new("", &full_table(), &listing).unwrap();
    assert_eq!(m.subsystem(4), (ControllerType::Memory, "/sys/fs/cgroup/memory/user.slice/session-1.scope"));
}

#[test]
fn absolute_and_relative_requests_ignore_own_placement() {
    let m = Manager::new("/youki/abc", &full_table(), "garbage").unwrap();
    assert_eq!(m.subsystem(5), (ControllerType::Pids, "/sys/fs/cgroup/pids/youki/abc"));
    let m = Manager::new("youki/abc", &full_table(), "").unwrap();
    assert_eq!(m.subsystem(0), (ControllerType::Cpu, "/sys/fs/cgroup/cpu,cpuacct/youki/abc"));
}

#[test]
fn construction_fails_on_first_missing_mount() {
    let t = cgroup_line(30, "/sys/fs/cgroup/cpu,cpuacct", "cpu,cpuacct")
        + &cgroup_line(31, "/sys/fs/cgroup/memory", "memory");
    let r = Manager::new("/x", &t, "");
    assert!(matches!(r, Err(CgroupError::MountNotFound(ControllerType::CpuSet))));
}

#[test]
fn construction_fails_without_membership() {
    let listing = "2:cpu,cpuacct:/\n";
    let r = Manager::new("", &full_table(), listing);
    assert!(matches!(r, Err(CgroupError::MembershipNotFound(ControllerType::CpuSet))));
}

#[test]
fn construction_fails_on_escape_or_unreadable_input() {
    assert!(matches!(Manager::new("/../x", &full_table(), ""), Err(CgroupError::PathEscape)));
    assert!(matches!(Manager::new("", &full_table(), "nonsense"), Err(CgroupError::MembershipUnreadable)));
    assert!(matches!(Manager::new("/x", "nonsense", ""), Err(CgroupError::MountTableUnreadable)));
}

fn record(fs_type: &str, mount_point: &str) -> cgroups_v1::mount::MountRecord {
    cgroups_v1::mount::MountRecord { fs_type: fs_type.to_string(), mount_point: mount_point.to_string() }
}

fn member(controllers: &[&str], pathname: &str) -> cgroups_v1::membership::Membership {
    cgroups_v1::membership::Membership {
        controllers: controllers.iter().map(|c| c.to_string()).collect(),
        pathname: pathname.to_string(),
    }
}

fn nine_records() -> Vec<cgroups_v1::mount::MountRecord> {
    ["cpu", "cpuset", "devices", "hugetlb", "memory", "pids", "blkio", "net_prio", "net_cls"]
        .iter()
        .map(|n| record("cgroup", &format!("/cg/{}", n)))
        .collect()
}

#[test]
fn manager_from_parsed_tables_inherits_placement() {
    let members = vec![
        member(&["cpu", "cpuacct"], "/a"),
        member(&["cpuset", "devices", "hugetlb", "memory", "pids", "blkio", "net_prio", "net_cls"], "/b/../c"),
    ];
    let m = Manager::from_tables("", &nine_records(), &members).unwrap();
    assert_eq!(m.subsystem_count(), 9);
    assert_eq!(m.subsystem(0), (ControllerType::Cpu, "/cg/cpu/a"));
    assert_eq!(m.subsystem(8), (ControllerType::NetworkClassifier, "/cg/net_cls/c"));
}

#[test]
fn manager_from_parsed_tables_reports_first_failure() {
    let mut records = nine_records();
    records[3] = record("tmpfs", "/cg/hugetlb");
    let r = Manager::from_tables("x", &records, &vec![]);
    assert!(matches!(r, Err(CgroupError::MountNotFound(ControllerType::HugeTlb))));
    let r = Manager::from_tables("", &nine_records(), &vec![member(&["cpu"], "/")]);
    assert!(matches!(r, Err(CgroupError::MembershipNotFound(ControllerType::CpuSet))));
}

#[test]
fn mounts_in_parsed_table() {
    let records = vec![record("cgroup", "/cg/blkio"), record("cgroup", "/cg/net_cls,net_prio")];
    let r = cgroups_v1::mount::mounts_in(&records);
    assert_eq!(
        r,
        vec![
            (ControllerType::Blkio, "/cg/blkio".to_string()),
            (ControllerType::NetworkPriority, "/cg/net_cls,net_prio".to_string()),
            (ControllerType::NetworkClassifier, "/cg/net_cls,net_prio".to_string()),
        ]
    );
}

#[test]
fn component_suffix_matching() {
    assert!(path_ends_with_component("/sys/fs/cgroup/pids", "pids"));
    assert!(path_ends_with_component("pids", "pids"));
    assert!(!path_ends_with_component("/sys/fs/cgroup/xpids", "pids"));
    assert!(!serves(ControllerType::Cpu, "/sys/fs/cgroup/cpuacct,cpu"));
    assert!(serves(ControllerType::NetworkPriority, "/x/net_prio,net_cls"));
}

#[test]
fn relative_request_is_joined_as_written() {
    let m = Manager::new("../x", &full_table(), "").unwrap();
    assert_eq!(m.subsystem(4), (ControllerType::Memory, "/sys/fs/cgroup/memory/../x"));
    let m = Manager::new("a/../b", &full_table(), "not a listing").unwrap();
    assert_eq!(m.subsystem(5), (ControllerType::Pids, "/sys/fs/cgroup/pids/a/../b"));
    let m = Manager::from_tables("youki/c1", &vec![record("cgroup", "/")], &vec![]);
    assert!(matches!(m, Err(CgroupError::MountNotFound(ControllerType::Cpu))));
}

#[test]
fn relative_request_ignores_membership() {
    let members = vec![member(&["cpu"], "/elsewhere")];
    let a = Manager::from_tables("youki/c1", &nine_records(), &members).unwrap();
    let b = Manager::from_tables("youki/c1", &nine_records(), &vec![]).unwrap();
    for i in 0..9 {
        assert_eq!(a.subsystem(i), b.subsystem(i));
    }
    assert_eq!(a.subsystem(0), (ControllerType::Cpu, "/cg/cpu/youki/c1"));
}
