use vstd::prelude::*;
use procfs::FromBufRead;
use crate::controller::{ControllerType, name_of, all_controllers, controllers};
use crate::error::CgroupError;

verus! {

/// One entry of the host mount table: filesystem kind and mount point.
pub struct MountRecord {
    pub fs_type: String,
    pub mount_point: String,
}

/// A mount table as plain values: (filesystem kind, mount point) per entry.
pub open spec fn table_view(v: Seq<MountRecord>) -> Seq<(Seq<char>, Seq<char>)> {
    v.map_values(|r: MountRecord| (r.fs_type@, r.mount_point@))
}

/// What procfs's mountinfo parser yields for a text: `None` when it rejects it.
pub uninterp spec fn mount_table_of(text: Seq<char>) -> Option<Seq<(Seq<char>, Seq<char>)>>;

/// Relies on procfs's `MountInfos::from_buf_read`, the parser of
/// `/proc/<pid>/mountinfo`: each parsed entry's filesystem type and mount point,
/// in the order of the lines, or `None` on a malformed line.
#[verifier::external_body]
pub(crate) fn parse_mount_table(text: &str) -> (r: Option<Vec<MountRecord>>)
    ensures
        match r {
            None => mount_table_of(text@).is_none(),
            Some(v) => mount_table_of(text@) == Some(table_view(v@)),
        },
{
    procfs::process::MountInfos::from_buf_read(text.as_bytes()).ok().map(
        |m| m.0.into_iter().map(|i| MountRecord {
            fs_type: i.fs_type,
            mount_point: i.mount_point.to_string_lossy().into_owned(),
        }).collect(),
    )
}

/// `p`'s last path component is exactly `n`.
pub open spec fn ends_with_component(p: Seq<char>, n: Seq<char>) -> bool {
    p == n || (p.len() > n.len() && p[p.len() - n.len() - 1] == '/' && p.subrange(
        p.len() - n.len(),
        p.len() as int,
    ) == n)
}

/// A mount point serves a controller, allowing for the usual co-mounts
/// (cpu with cpuacct, net_cls with net_prio in either order).
pub open spec fn mount_point_serves(c: ControllerType, p: Seq<char>) -> bool {
    match c {
        ControllerType::NetworkClassifier => ends_with_component(p, "net_cls,net_prio"@)
            || ends_with_component(p, "net_prio,net_cls"@) || ends_with_component(p, "net_cls"@),
        ControllerType::NetworkPriority => ends_with_component(p, "net_cls,net_prio"@)
            || ends_with_component(p, "net_prio,net_cls"@) || ends_with_component(p, "net_prio"@),
        ControllerType::Cpu => ends_with_component(p, "cpu,cpuacct"@) || ends_with_component(
            p,
            "cpu"@,
        ),
        _ => ends_with_component(p, name_of(c)),
    }
}

/// A mount-table entry is a cgroup mount serving the controller.
pub open spec fn entry_serves(c: ControllerType, e: (Seq<char>, Seq<char>)) -> bool {
    e.0 == "cgroup"@ && mount_point_serves(c, e.1)
}

/// The mount point of the first entry serving the controller.
pub open spec fn mount_for(t: Seq<(Seq<char>, Seq<char>)>, c: ControllerType) -> Option<Seq<char>>
    decreases t.len(),
{
    if t.len() == 0 {
        None
    } else if entry_serves(c, t[0]) {
        Some(t[0].1)
    } else {
        mount_for(t.drop_first(), c)
    }
}

/// When exactly one entry of a table serves a controller, resolution picks it.
pub proof fn lemma_mount_for_only(t: Seq<(Seq<char>, Seq<char>)>, c: ControllerType, i: int)
    requires
        0 <= i < t.len(),
        entry_serves(c, t[i]),
        forall|j: int| 0 <= j < t.len() && j != i ==> !entry_serves(c, #[trigger] t[j]),
    ensures
        mount_for(t, c) == Some(t[i].1),
    decreases t.len(),
{
    if i > 0 {
        let r = t.drop_first();
        assert forall|j: int| 0 <= j < r.len() && j != i - 1 implies !entry_serves(c, #[trigger] r[j]) by {
            assert(r[j] == t[j + 1]);
        }
        lemma_mount_for_only(r, c, i - 1);
    }
}

/// A cpu hierarchy co-mounted with cpuacct (a mount point ending in
/// `cpu,cpuacct`), or mounted alone (ending in `cpu`), is where cpu resolves
/// to, provided no other cgroup entry of the table ends in either.
pub proof fn lemma_cpu_mount(t: Seq<(Seq<char>, Seq<char>)>, i: int)
    requires
        0 <= i < t.len(),
        t[i].0 == "cgroup"@,
        ends_with_component(t[i].1, "cpu,cpuacct"@) || ends_with_component(t[i].1, "cpu"@),
        forall|j: int|
            0 <= j < t.len() && j != i && (#[trigger] t[j]).0 == "cgroup"@ ==> !ends_with_component(
                t[j].1,
                "cpu,cpuacct"@,
            ) && !ends_with_component(t[j].1, "cpu"@),
    ensures
        mount_for(t, ControllerType::Cpu) == Some(t[i].1),
{
    lemma_mount_for_only(t, ControllerType::Cpu, i);
}

/// A hierarchy that co-mounts net_cls and net_prio (in either order) is where
/// both controllers resolve to, provided no other cgroup entry of the table
/// serves either of them.
pub proof fn lemma_net_comount(t: Seq<(Seq<char>, Seq<char>)>, i: int)
    requires
        0 <= i < t.len(),
        t[i].0 == "cgroup"@,
        ends_with_component(t[i].1, "net_cls,net_prio"@) || ends_with_component(
            t[i].1,
            "net_prio,net_cls"@,
        ),
        forall|j: int|
            0 <= j < t.len() && j != i ==> !entry_serves(ControllerType::NetworkClassifier, #[trigger] t[j])
                && !entry_serves(ControllerType::NetworkPriority, t[j]),
    ensures
        mount_for(t, ControllerType::NetworkClassifier) == Some(t[i].1),
        mount_for(t, ControllerType::NetworkPriority) == Some(t[i].1),
{
    lemma_mount_for_only(t, ControllerType::NetworkClassifier, i);
    lemma_mount_for_only(t, ControllerType::NetworkPriority, i);
}

/// Exact equality of two strings.
pub fn str_equal(a: &str, b: &str) -> (r: bool)
    ensures
        r == (a@ == b@),
{
    let n = a.unicode_len();
    if n != b.unicode_len() {
        return false;
    }
    let mut i: usize = 0;
    while i < n
        invariant
            n == a@.len(),
            n == b@.len(),
            i <= n,
            a@.subrange(0, i as int) == b@.subrange(0, i as int),
        decreases n - i,
    {
        if a.get_char(i) != b.get_char(i) {
            assert(a@[i as int] != b@[i as int]);
            return false;
        }
        assert(a@.subrange(0, i + 1) =~= a@.subrange(0, i as int).push(a@[i as int]));
        assert(b@.subrange(0, i + 1) =~= b@.subrange(0, i as int).push(b@[i as int]));
        i += 1;
    }
    assert(a@ =~= a@.subrange(0, n as int));
    assert(b@ =~= b@.subrange(0, n as int));
    true
}

/// Whether the last path component of `p` is exactly `n`.
pub fn path_ends_with_component(p: &str, n: &str) -> (r: bool)
    ensures
        r == ends_with_component(p@, n@),
{
    let pl = p.unicode_len();
    let nl = n.unicode_len();
    if pl < nl {
        return false;
    }
    let off = pl - nl;
    if pl > nl && p.get_char(off - 1) != '/' {
        return false;
    }
    let mut i: usize = 0;
    while i < nl
        invariant
            pl == p@.len(),
            nl == n@.len(),
            off == pl - nl,
            i <= nl,
            p@.subrange(off as int, off + i) == n@.subrange(0, i as int),
        decreases nl - i,
    {
        if p.get_char(off + i) != n.get_char(i) {
            assert(p@.subrange(off as int, pl as int)[i as int] != n@[i as int]);
            return false;
        }
        assert(p@.subrange(off as int, off + i + 1) =~= p@.subrange(off as int, off + i).push(
            p@[off + i],
        ));
        assert(n@.subrange(0, i + 1) =~= n@.subrange(0, i as int).push(n@[i as int]));
        i += 1;
    }
    assert(n@ =~= n@.subrange(0, nl as int));
    if pl == nl {
        assert(p@ =~= p@.subrange(0, pl as int));
    }
    true
}

/// Whether a mount point serves the controller.
pub fn serves(c: ControllerType, mount_point: &str) -> (r: bool)
    ensures
        r == mount_point_serves(c, mount_point@),
{
    match c {
        ControllerType::NetworkClassifier => path_ends_with_component(mount_point, "net_cls,net_prio")
            || path_ends_with_component(mount_point, "net_prio,net_cls")
            || path_ends_with_component(mount_point, "net_cls"),
        ControllerType::NetworkPriority => path_ends_with_component(mount_point, "net_cls,net_prio")
            || path_ends_with_component(mount_point, "net_prio,net_cls")
            || path_ends_with_component(mount_point, "net_prio"),
        ControllerType::Cpu => path_ends_with_component(mount_point, "cpu,cpuacct")
            || path_ends_with_component(mount_point, "cpu"),
        _ => path_ends_with_component(mount_point, c.name()),
    }
}

/// The mount point of the first cgroup entry of `table` serving `c`.
pub fn find_mount(table: &Vec<MountRecord>, c: ControllerType) -> (r: Option<String>)
    ensures
        match mount_for(table_view(table@), c) {
            None => r.is_none(),
            Some(p) => r.is_some() && r.unwrap()@ == p,
        },
{
    let ghost t = table_view(table@);
    assert(t.subrange(0, t.len() as int) =~= t);
    let mut i: usize = 0;
    while i < table.len()
        invariant
            t == table_view(table@),
            i <= table@.len(),
            mount_for(t, c) == mount_for(t.subrange(i as int, t.len() as int), c),
        decreases table.len() - i,
    {
        let rec = &table[i];
        let ghost rest = t.subrange(i as int, t.len() as int);
        assert(rest[0] == (rec.fs_type@, rec.mount_point@));
        let cg = "cgroup";
        proof { reveal_strlit("cgroup"); }
        if str_equal(rec.fs_type.as_str(), cg) && serves(c, rec.mount_point.as_str()) {
            return Some(rec.mount_point.clone());
        }
        assert(rest.drop_first() =~= t.subrange(i + 1, t.len() as int));
        i += 1;
    }
    assert(t.subrange(i as int, t.len() as int) =~= Seq::<(Seq<char>, Seq<char>)>::empty());
    None
}

/// Resolves where the controller's hierarchy is mounted, from the text of a
/// mountinfo table.
pub fn get_subsystem_mount_points(mountinfo: &str, subsystem: ControllerType) -> (r: Result<
    String,
    CgroupError,
>)
    ensures
        match mount_table_of(mountinfo@) {
            None => r == Err::<String, CgroupError>(CgroupError::MountTableUnreadable),
            Some(t) => match mount_for(t, subsystem) {
                None => r == Err::<String, CgroupError>(CgroupError::MountNotFound(subsystem)),
                Some(p) => r.is_ok() && r.unwrap()@ == p,
            },
        },
{
    match parse_mount_table(mountinfo) {
        None => Err(CgroupError::MountTableUnreadable),
        Some(table) => match find_mount(&table, subsystem) {
            None => Err(CgroupError::MountNotFound(subsystem)),
            Some(p) => Ok(p),
        },
    }
}

/// (controller, mount point) for each controller in `cs` that has a mount, in
/// the order of `cs`.
pub open spec fn listed_mounts(t: Seq<(Seq<char>, Seq<char>)>, cs: Seq<ControllerType>) -> Seq<
    (ControllerType, Seq<char>),
>
    decreases cs.len(),
{
    if cs.len() == 0 {
        Seq::empty()
    } else {
        let prev = listed_mounts(t, cs.drop_last());
        match mount_for(t, cs.last()) {
            None => prev,
            Some(p) => prev.push((cs.last(), p)),
        }
    }
}

pub open spec fn mounts_view(v: Seq<(ControllerType, String)>) -> Seq<(ControllerType, Seq<char>)> {
    v.map_values(|p: (ControllerType, String)| (p.0, p.1@))
}

/// The mount point, in a parsed mount table, of every controller that has
/// one, in declaration order; controllers without a mount are left out.
pub fn mounts_in(table: &Vec<MountRecord>) -> (r: Vec<(ControllerType, String)>)
    ensures
        mounts_view(r@) == listed_mounts(table_view(table@), all_controllers()),
{
    let ghost t = table_view(table@);
    let cs = controllers();
    let mut out: Vec<(ControllerType, String)> = Vec::new();
    let mut i: usize = 0;
    assert(mounts_view(out@) =~= Seq::<(ControllerType, Seq<char>)>::empty());
    while i < cs.len()
        invariant
            cs@ == all_controllers(),
            t == table_view(table@),
            i <= cs@.len(),
            mounts_view(out@) == listed_mounts(t, cs@.take(i as int)),
        decreases cs.len() - i,
    {
        let c = cs[i];
        assert(cs@.take(i + 1).drop_last() =~= cs@.take(i as int));
        assert(cs@.take(i + 1).last() == c);
        match find_mount(table, c) {
            None => {},
            Some(p) => {
                let ghost before = mounts_view(out@);
                let ghost pv = p@;
                out.push((c, p));
                assert(mounts_view(out@) =~= before.push((c, pv)));
            },
        }
        i += 1;
    }
    assert(cs@.take(i as int) =~= cs@);
    out
}

/// The mount point of every controller that has one, in declaration order;
/// controllers without a mount are left out.
pub fn list_subsystem_mount_points(mountinfo: &str) -> (r: Result<
    Vec<(ControllerType, String)>,
    CgroupError,
>)
    ensures
        match mount_table_of(mountinfo@) {
            None => r == Err::<Vec<(ControllerType, String)>, CgroupError>(
                CgroupError::MountTableUnreadable,
            ),
            Some(t) => r.is_ok() && mounts_view(r.unwrap()@) == listed_mounts(t, all_controllers()),
        },
{
    match parse_mount_table(mountinfo) {
        None => Err(CgroupError::MountTableUnreadable),
        Some(table) => Ok(mounts_in(&table)),
    }
}

} // verus!
