use vstd::prelude::*;
use crate::controller::{ControllerType, all_controllers, controllers};
use crate::error::CgroupError;
use crate::membership::{Membership, membership_for, listing_view, cgroup_listing_of, parse_cgroup_listing, find_membership};
use crate::mount::{MountRecord, mount_for, entry_serves, lemma_mount_for_only, table_view, mount_table_of, parse_mount_table, find_mount};
use crate::path::{sanitized_join, join_absolute_path, lemma_join_root};

verus! {

/// A listing as plain values.
pub type ListingView = Seq<(Seq<Seq<char>>, Seq<char>)>;

/// A mount table as plain values.
pub type TableView = Seq<(Seq<char>, Seq<char>)>;

pub open spec fn join_result(o: Option<Seq<char>>) -> Result<Seq<char>, CgroupError> {
    match o {
        None => Err(CgroupError::PathEscape),
        Some(p) => Ok(p),
    }
}

/// `rel` appended to `base` as written, with one `/` between them.
pub open spec fn plain_join(base: Seq<char>, rel: Seq<char>) -> Seq<char> {
    if base.len() > 0 && base.last() == '/' {
        base + rel
    } else {
        base + seq!['/'] + rel
    }
}

/// The cgroup path for one controller. When nothing is requested, the calling
/// process's own placement under the controller's mount point; an absolute
/// request is placed under the mount point, confined to it; a relative one
/// is appended to the mount point as written.
pub open spec fn resolve_subsystem(
    t: TableView,
    l: ListingView,
    requested: Seq<char>,
    c: ControllerType,
) -> Result<Seq<char>, CgroupError> {
    match mount_for(t, c) {
        None => Err(CgroupError::MountNotFound(c)),
        Some(m) => if requested.len() == 0 {
            match membership_for(l, c) {
                None => Err(CgroupError::MembershipNotFound(c)),
                Some(own) => join_result(sanitized_join(m, own)),
            }
        } else if requested[0] == '/' {
            join_result(sanitized_join(m, requested))
        } else {
            Ok(plain_join(m, requested))
        },
    }
}

/// Paths for the controllers `cs` in order, or the first controller's error.
pub open spec fn build_map(
    t: TableView,
    l: ListingView,
    requested: Seq<char>,
    cs: Seq<ControllerType>,
) -> Result<Seq<(ControllerType, Seq<char>)>, CgroupError>
    decreases cs.len(),
{
    if cs.len() == 0 {
        Ok(Seq::empty())
    } else {
        match build_map(t, l, requested, cs.drop_last()) {
            Err(e) => Err(e),
            Ok(prev) => match resolve_subsystem(t, l, requested, cs.last()) {
                Err(e) => Err(e),
                Ok(p) => Ok(prev.push((cs.last(), p))),
            },
        }
    }
}

/// The subsystem map built from a mountinfo text, a cgroup listing text (read
/// only when no path is requested) and the requested path.
pub open spec fn manager_from(
    mountinfo: Seq<char>,
    listing: Seq<char>,
    requested: Seq<char>,
) -> Result<Seq<(ControllerType, Seq<char>)>, CgroupError> {
    match mount_table_of(mountinfo) {
        None => Err(CgroupError::MountTableUnreadable),
        Some(t) => if requested.len() == 0 {
            match cgroup_listing_of(listing) {
                None => Err(CgroupError::MembershipUnreadable),
                Some(l) => build_map(t, l, requested, all_controllers()),
            }
        } else {
            build_map(t, Seq::empty(), requested, all_controllers())
        },
    }
}

pub open spec fn pairs_view(v: Seq<(ControllerType, String)>) -> Seq<(ControllerType, Seq<char>)> {
    v.map_values(|p: (ControllerType, String)| (p.0, p.1@))
}

/// A successful build has one entry per controller, in the order of `cs`.
pub proof fn lemma_build_map_shape(
    t: TableView,
    l: ListingView,
    requested: Seq<char>,
    cs: Seq<ControllerType>,
)
    requires
        build_map(t, l, requested, cs).is_ok(),
    ensures
        build_map(t, l, requested, cs).unwrap().len() == cs.len(),
        forall|i: int|
            0 <= i < cs.len() ==> #[trigger] build_map(t, l, requested, cs).unwrap()[i].0 == cs[i],
    decreases cs.len(),
{
    if cs.len() > 0 {
        lemma_build_map_shape(t, l, requested, cs.drop_last());
    }
}

proof fn lemma_build_map_err_persists(
    t: TableView,
    l: ListingView,
    requested: Seq<char>,
    cs: Seq<ControllerType>,
    i: int,
)
    requires
        0 <= i <= cs.len(),
        build_map(t, l, requested, cs.take(i)).is_err(),
    ensures
        build_map(t, l, requested, cs) == build_map(t, l, requested, cs.take(i)),
    decreases cs.len() - i,
{
    if i < cs.len() {
        assert(cs.take(i + 1).drop_last() =~= cs.take(i));
        lemma_build_map_err_persists(t, l, requested, cs, i + 1);
    } else {
        assert(cs.take(i) =~= cs);
    }
}

/// Exactly one entry of the table serves the controller.
pub open spec fn served_once(t: TableView, c: ControllerType) -> bool {
    exists|i: int|
        0 <= i < t.len() && entry_serves(c, #[trigger] t[i]) && forall|j: int|
            0 <= j < t.len() && j != i ==> !entry_serves(c, #[trigger] t[j])
}

/// Each controller paired with its mount point, in declaration order.
pub open spec fn own_mounts(t: TableView) -> Seq<(ControllerType, Seq<char>)> {
    Seq::new(
        all_controllers().len(),
        |k: int| (all_controllers()[k], mount_for(t, all_controllers()[k]).unwrap()),
    )
}

proof fn lemma_inherit_root_prefix(t: TableView, l: ListingView, k: int)
    requires
        0 <= k <= all_controllers().len(),
        forall|c: ControllerType| #[trigger] served_once(t, c),
        forall|c: ControllerType| #[trigger] membership_for(l, c) == Some(seq!['/']),
    ensures
        build_map(t, l, Seq::empty(), all_controllers().take(k)) == Ok::<
            Seq<(ControllerType, Seq<char>)>,
            CgroupError,
        >(own_mounts(t).take(k)),
    decreases k,
{
    let cs = all_controllers();
    if k == 0 {
        assert(cs.take(0) =~= Seq::<ControllerType>::empty());
        assert(own_mounts(t).take(0) =~= Seq::<(ControllerType, Seq<char>)>::empty());
    } else {
        lemma_inherit_root_prefix(t, l, k - 1);
        let c = cs[k - 1];
        assert(cs.take(k).drop_last() =~= cs.take(k - 1));
        assert(cs.take(k).last() == c);
        assert(served_once(t, c));
        let i = choose|i: int|
            0 <= i < t.len() && entry_serves(c, #[trigger] t[i]) && forall|j: int|
                0 <= j < t.len() && j != i ==> !entry_serves(c, #[trigger] t[j]);
        lemma_mount_for_only(t, c, i);
        assert(membership_for(l, c) == Some(seq!['/']));
        lemma_join_root(t[i].1);
        assert(own_mounts(t).take(k) =~= own_mounts(t).take(k - 1).push((c, t[i].1)));
    }
}

/// With nothing requested, on a host whose mount table serves each controller
/// from exactly one entry, and with the caller placed at `/` by the first
/// listing line naming each controller, every controller's cgroup path is the
/// mount point of the entry serving it.
pub proof fn lemma_inherit_root(mountinfo: Seq<char>, listing: Seq<char>, t: TableView, l: ListingView)
    requires
        mount_table_of(mountinfo) == Some(t),
        cgroup_listing_of(listing) == Some(l),
        forall|c: ControllerType| #[trigger] served_once(t, c),
        forall|c: ControllerType| #[trigger] membership_for(l, c) == Some(seq!['/']),
    ensures
        manager_from(mountinfo, listing, Seq::empty()) == Ok::<
            Seq<(ControllerType, Seq<char>)>,
            CgroupError,
        >(own_mounts(t)),
        forall|k: int, i: int|
            0 <= k < all_controllers().len() && 0 <= i < t.len() && entry_serves(
                all_controllers()[k],
                #[trigger] t[i],
            ) ==> #[trigger] own_mounts(t)[k] == (all_controllers()[k], t[i].1),
{
    lemma_inherit_root_prefix(t, l, all_controllers().len() as int);
    assert(all_controllers().take(all_controllers().len() as int) =~= all_controllers());
    assert(own_mounts(t).take(all_controllers().len() as int) =~= own_mounts(t));
    assert forall|k: int, i: int|
        0 <= k < all_controllers().len() && 0 <= i < t.len() && entry_serves(
            all_controllers()[k],
            #[trigger] t[i],
        ) implies #[trigger] own_mounts(t)[k] == (all_controllers()[k], t[i].1) by {
        let c = all_controllers()[k];
        assert(served_once(t, c));
        let w = choose|w: int|
            0 <= w < t.len() && entry_serves(c, #[trigger] t[w]) && forall|j: int|
                0 <= j < t.len() && j != w ==> !entry_serves(c, #[trigger] t[j]);
        assert(w == i);
        lemma_mount_for_only(t, c, i);
    }
}

/// The cgroup paths of one container, one per controller, in declaration order.
pub struct Manager {
    subsystems: Vec<(ControllerType, String)>,
}

impl Manager {
    /// (controller, absolute cgroup path) per controller, in declaration order.
    pub closed spec fn view(&self) -> Seq<(ControllerType, Seq<char>)> {
        pairs_view(self.subsystems@)
    }

    /// Exactly one entry per controller, in declaration order.
    pub open spec fn wf(&self) -> bool {
        &&& self@.len() == all_controllers().len()
        &&& forall|i: int| 0 <= i < self@.len() ==> #[trigger] self@[i].0 == all_controllers()[i]
    }

    fn subsystem_path(
        table: &Vec<MountRecord>,
        listing: &Vec<Membership>,
        requested: &str,
        c: ControllerType,
    ) -> (r: Result<String, CgroupError>)
        ensures
            match resolve_subsystem(table_view(table@), listing_view(listing@), requested@, c) {
                Err(e) => r == Err::<String, CgroupError>(e),
                Ok(p) => r.is_ok() && r.unwrap()@ == p,
            },
    {
        let mount = match find_mount(table, c) {
            None => return Err(CgroupError::MountNotFound(c)),
            Some(m) => m,
        };
        if requested.unicode_len() == 0 {
            match find_membership(listing, c) {
                None => Err(CgroupError::MembershipNotFound(c)),
                Some(own) => join_absolute_path(mount.as_str(), own.as_str()),
            }
        } else if requested.get_char(0) == '/' {
            join_absolute_path(mount.as_str(), requested)
        } else {
            Ok(Self::join_relative(mount, requested))
        }
    }

    fn join_relative(base: String, rel: &str) -> (r: String)
        ensures
            r@ == plain_join(base@, rel@),
    {
        let n = base.as_str().unicode_len();
        let mut out = base;
        if n == 0 || out.as_str().get_char(n - 1) != '/' {
            let sep = "/";
            proof {
                reveal_strlit("/");
            }
            out.append(sep);
        }
        out.append(rel);
        out
    }

    /// Resolves, for every controller, the cgroup directory the container
    /// joins, from a parsed mount table and a parsed cgroup listing of the
    /// calling process (consulted only when `cgroup_path` is empty, in which
    /// case the container inherits the caller's placement). Construction fails
    /// as a whole on the first controller, in declaration order, that cannot
    /// be resolved.
    pub fn from_tables(
        cgroup_path: &str,
        table: &Vec<MountRecord>,
        members: &Vec<Membership>,
    ) -> (r: Result<Manager, CgroupError>)
        ensures
            match build_map(table_view(table@), listing_view(members@), cgroup_path@, all_controllers()) {
                Err(e) => r == Err::<Manager, CgroupError>(e),
                Ok(m) => r.is_ok() && r.unwrap()@ == m && r.unwrap().wf(),
            },
    {
        let ghost t = table_view(table@);
        let ghost l = listing_view(members@);
        let cs = controllers();
        let mut subsystems: Vec<(ControllerType, String)> = Vec::new();
        let mut i: usize = 0;
        assert(pairs_view(subsystems@) =~= Seq::<(ControllerType, Seq<char>)>::empty());
        while i < cs.len()
            invariant
                cs@ == all_controllers(),
                t == table_view(table@),
                l == listing_view(members@),
                i <= cs@.len(),
                build_map(t, l, cgroup_path@, cs@.take(i as int)) == Ok::<
                    Seq<(ControllerType, Seq<char>)>,
                    CgroupError,
                >(pairs_view(subsystems@)),
            decreases cs.len() - i,
        {
            let c = cs[i];
            assert(cs@.take(i + 1).drop_last() =~= cs@.take(i as int));
            assert(cs@.take(i + 1).last() == c);
            match Self::subsystem_path(table, members, cgroup_path, c) {
                Err(e) => {
                    proof {
                        lemma_build_map_err_persists(t, l, cgroup_path@, cs@, i + 1);
                    }
                    return Err(e);
                },
                Ok(p) => {
                    let ghost before = pairs_view(subsystems@);
                    let ghost pv = p@;
                    subsystems.push((c, p));
                    assert(pairs_view(subsystems@) =~= before.push((c, pv)));
                },
            }
            i += 1;
        }
        assert(cs@.take(i as int) =~= cs@);
        proof {
            lemma_build_map_shape(t, l, cgroup_path@, cs@);
        }
        Ok(Manager { subsystems })
    }

    /// Resolves, for every controller, the cgroup directory the container
    /// joins. `mountinfo` is the host mount table text, `listing` the calling
    /// process's cgroup listing text (read only when `cgroup_path` is empty).
    pub fn new(cgroup_path: &str, mountinfo: &str, listing: &str) -> (r: Result<Manager, CgroupError>)
        ensures
            match manager_from(mountinfo@, listing@, cgroup_path@) {
                Err(e) => r == Err::<Manager, CgroupError>(e),
                Ok(m) => r.is_ok() && r.unwrap()@ == m && r.unwrap().wf(),
            },
    {
        let table = match parse_mount_table(mountinfo) {
            None => return Err(CgroupError::MountTableUnreadable),
            Some(t) => t,
        };
        let members: Vec<Membership> = if cgroup_path.unicode_len() == 0 {
            match parse_cgroup_listing(listing) {
                None => return Err(CgroupError::MembershipUnreadable),
                Some(l) => l,
            }
        } else {
            Vec::new()
        };
        assert(cgroup_path@.len() != 0 ==> listing_view(members@) =~= Seq::<
            (Seq<Seq<char>>, Seq<char>),
        >::empty());
        Self::from_tables(cgroup_path, &table, &members)
    }

    /// Number of (controller, path) entries.
    pub fn subsystem_count(&self) -> (r: usize)
        ensures
            r == self@.len(),
    {
        self.subsystems.len()
    }

    /// The `i`-th (controller, path) entry, in declaration order.
    pub fn subsystem(&self, i: usize) -> (r: (ControllerType, &str))
        requires
            i < self@.len(),
        ensures
            r.0 == self@[i as int].0,
            r.1@ == self@[i as int].1,
    {
        let e = &self.subsystems[i];
        (e.0, e.1.as_str())
    }
}

} // verus!
