use vstd::prelude::*;
use procfs::FromBufRead;
use crate::controller::{ControllerType, name_of};
use crate::mount::str_equal;
use crate::path::strings_view;

verus! {

/// One line of a process's cgroup listing: the controllers bound to a
/// hierarchy and the process's path relative to that hierarchy's root.
pub struct Membership {
    pub controllers: Vec<String>,
    pub pathname: String,
}

/// A cgroup listing as plain values: (controller names, pathname) per line.
pub open spec fn listing_view(v: Seq<Membership>) -> Seq<(Seq<Seq<char>>, Seq<char>)> {
    v.map_values(|m: Membership| (strings_view(m.controllers@), m.pathname@))
}

/// What procfs's cgroup-listing parser yields for a text: `None` when it rejects it.
pub uninterp spec fn cgroup_listing_of(text: Seq<char>) -> Option<Seq<(Seq<Seq<char>>, Seq<char>)>>;

/// Relies on procfs's `ProcessCGroups::from_buf_read`, the parser of
/// `/proc/<pid>/cgroup`: each line's controller list and pathname, in order,
/// or `None` on a malformed line.
#[verifier::external_body]
pub(crate) fn parse_cgroup_listing(text: &str) -> (r: Option<Vec<Membership>>)
    ensures
        match r {
            None => cgroup_listing_of(text@).is_none(),
            Some(v) => cgroup_listing_of(text@) == Some(listing_view(v@)),
        },
{
    procfs::ProcessCGroups::from_buf_read(text.as_bytes()).ok().map(
        |g| g.0.into_iter().map(|c| Membership { controllers: c.controllers, pathname: c.pathname }).collect(),
    )
}

/// The pathname of the first listing line whose controllers include `c`.
pub open spec fn membership_for(l: Seq<(Seq<Seq<char>>, Seq<char>)>, c: ControllerType) -> Option<
    Seq<char>,
>
    decreases l.len(),
{
    if l.len() == 0 {
        None
    } else if l[0].0.contains(name_of(c)) {
        Some(l[0].1)
    } else {
        membership_for(l.drop_first(), c)
    }
}

fn lists_controller(names: &Vec<String>, c: ControllerType) -> (r: bool)
    ensures
        r == strings_view(names@).contains(name_of(c)),
{
    let want = c.name();
    let mut i: usize = 0;
    while i < names.len()
        invariant
            want@ == name_of(c),
            i <= names@.len(),
            forall|j: int| 0 <= j < i ==> names@[j]@ != name_of(c),
        decreases names.len() - i,
    {
        if str_equal(names[i].as_str(), want) {
            assert(strings_view(names@)[i as int] == name_of(c));
            return true;
        }
        i += 1;
    }
    assert forall|j: int| 0 <= j < strings_view(names@).len() implies strings_view(names@)[j]
        != name_of(c) by {}
    false
}

/// The pathname under which the listing places the process for `c`.
pub fn find_membership(listing: &Vec<Membership>, c: ControllerType) -> (r: Option<String>)
    ensures
        match membership_for(listing_view(listing@), c) {
            None => r.is_none(),
            Some(p) => r.is_some() && r.unwrap()@ == p,
        },
{
    let ghost l = listing_view(listing@);
    assert(l.subrange(0, l.len() as int) =~= l);
    let mut i: usize = 0;
    while i < listing.len()
        invariant
            l == listing_view(listing@),
            i <= listing@.len(),
            membership_for(l, c) == membership_for(l.subrange(i as int, l.len() as int), c),
        decreases listing.len() - i,
    {
        let ghost rest = l.subrange(i as int, l.len() as int);
        assert(rest[0] == (strings_view(listing@[i as int].controllers@), listing@[i as int].pathname@));
        if lists_controller(&listing[i].controllers, c) {
            return Some(listing[i].pathname.clone());
        }
        assert(rest.drop_first() =~= l.subrange(i + 1, l.len() as int));
        i += 1;
    }
    assert(l.subrange(i as int, l.len() as int) =~= Seq::<(Seq<Seq<char>>, Seq<char>)>::empty());
    None
}

} // verus!
