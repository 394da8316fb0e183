use vstd::prelude::*;
use crate::error::CgroupError;

verus! {

/// `s` cut at every `sep`; always at least one (possibly empty) piece.
pub open spec fn split_on(s: Seq<char>, sep: char) -> Seq<Seq<char>>
    decreases s.len(),
{
    if s.len() == 0 {
        seq![Seq::<char>::empty()]
    } else {
        let prev = split_on(s.drop_last(), sep);
        if s.last() == sep {
            prev.push(Seq::<char>::empty())
        } else {
            prev.update(prev.len() - 1, prev.last().push(s.last()))
        }
    }
}

pub proof fn lemma_split_nonempty(s: Seq<char>, sep: char)
    ensures
        split_on(s, sep).len() >= 1,
    decreases s.len(),
{
    if s.len() > 0 {
        lemma_split_nonempty(s.drop_last(), sep);
    }
}

/// Adds one path segment to a stack of resolved components: empty and `.`
/// segments vanish, `..` drops the last component and fails above the root.
pub open spec fn push_segment(st: Seq<Seq<char>>, seg: Seq<char>) -> Option<Seq<Seq<char>>> {
    if seg.len() == 0 || seg == seq!['.'] {
        Some(st)
    } else if seg == seq!['.', '.'] {
        if st.len() == 0 {
            None
        } else {
            Some(st.drop_last())
        }
    } else {
        Some(st.push(seg))
    }
}

/// Resolves segments left to right; `None` when a `..` climbs above the root.
pub open spec fn resolve_segments(segs: Seq<Seq<char>>) -> Option<Seq<Seq<char>>>
    decreases segs.len(),
{
    if segs.len() == 0 {
        Some(Seq::empty())
    } else {
        match resolve_segments(segs.drop_last()) {
            None => None,
            Some(st) => push_segment(st, segs.last()),
        }
    }
}

/// `base` followed by `/c` for each component `c`.
pub open spec fn join_components(base: Seq<char>, comps: Seq<Seq<char>>) -> Seq<char>
    decreases comps.len(),
{
    if comps.len() == 0 {
        base
    } else {
        join_components(base, comps.drop_last()) + seq!['/'] + comps.last()
    }
}

/// `requested` placed under `base`, whether written absolute or relative, with
/// `.` and `..` resolved; `None` when it would climb above `base`.
pub open spec fn sanitized_join(base: Seq<char>, requested: Seq<char>) -> Option<Seq<char>> {
    match resolve_segments(split_on(requested, '/')) {
        None => None,
        Some(comps) => Some(join_components(base, comps)),
    }
}

/// Components that name a directory below their parent: none is empty, `.`
/// or `..`.
pub open spec fn descending(comps: Seq<Seq<char>>) -> bool {
    forall|k: int|
        0 <= k < comps.len() ==> (#[trigger] comps[k]).len() > 0 && comps[k] != seq!['.']
            && comps[k] != seq!['.', '.']
}

proof fn lemma_resolve_descending(segs: Seq<Seq<char>>)
    requires
        resolve_segments(segs).is_some(),
    ensures
        descending(resolve_segments(segs).unwrap()),
    decreases segs.len(),
{
    if segs.len() > 0 {
        lemma_resolve_descending(segs.drop_last());
    }
}

proof fn lemma_join_prefix(base: Seq<char>, comps: Seq<Seq<char>>)
    ensures
        join_components(base, comps).len() >= base.len(),
        join_components(base, comps).subrange(0, base.len() as int) == base,
    decreases comps.len(),
{
    if comps.len() > 0 {
        lemma_join_prefix(base, comps.drop_last());
        let prev = join_components(base, comps.drop_last());
        assert((prev + seq!['/'] + comps.last()).subrange(0, base.len() as int) =~= prev.subrange(
            0,
            base.len() as int,
        ));
    }
}

/// A sanitized join never leaves its base: when it succeeds, the result is
/// the base followed by `/`-separated components none of which is empty,
/// `.` or `..`; when the requested path climbs above the base, it fails.
pub proof fn lemma_join_confined(base: Seq<char>, requested: Seq<char>)
    ensures
        match resolve_segments(split_on(requested, '/')) {
            None => sanitized_join(base, requested).is_none(),
            Some(comps) => descending(comps) && sanitized_join(base, requested) == Some(
                join_components(base, comps),
            ) && join_components(base, comps).subrange(0, base.len() as int) == base,
        },
{
    if resolve_segments(split_on(requested, '/')).is_some() {
        lemma_resolve_descending(split_on(requested, '/'));
        lemma_join_prefix(base, resolve_segments(split_on(requested, '/')).unwrap());
    }
}

/// The root path `/` placed under a base is the base itself.
pub proof fn lemma_join_root(base: Seq<char>)
    ensures
        sanitized_join(base, seq!['/']) == Some(base),
{
    let s = seq!['/'];
    let e = Seq::<char>::empty();
    assert(s.drop_last() =~= e);
    assert(s.last() == '/');
    assert(split_on(e, '/') == seq![e]);
    let segs = split_on(s, '/');
    assert(segs == seq![e].push(e));
    assert(segs.drop_last() =~= seq![e]);
    assert(segs.last() == e);
    assert(seq![e].drop_last() =~= Seq::<Seq<char>>::empty());
    assert(seq![e].last() == e);
    assert(resolve_segments(Seq::<Seq<char>>::empty()) == Some(Seq::<Seq<char>>::empty()));
    assert(push_segment(Seq::<Seq<char>>::empty(), e) == Some(Seq::<Seq<char>>::empty()));
    assert(resolve_segments(seq![e]) == Some(Seq::<Seq<char>>::empty()));
    assert(resolve_segments(segs) == Some(Seq::<Seq<char>>::empty()));
}

pub open spec fn strings_view(v: Seq<String>) -> Seq<Seq<char>> {
    v.map_values(|s: String| s@)
}

fn push_segment_exec(stack: &mut Vec<String>, seg: &str) -> (ok: bool)
    ensures
        match push_segment(strings_view(old(stack)@), seg@) {
            None => !ok,
            Some(st) => ok && strings_view(final(stack)@) == st,
        },
{
    let n = seg.unicode_len();
    if n == 0 {
        return true;
    }
    if n == 1 && seg.get_char(0) == '.' {
        assert(seg@ =~= seq!['.']);
        return true;
    }
    if n == 2 && seg.get_char(0) == '.' && seg.get_char(1) == '.' {
        assert(seg@ =~= seq!['.', '.']);
        if stack.len() == 0 {
            return false;
        }
        stack.pop();
        assert(strings_view(stack@) =~= strings_view(old(stack)@).drop_last());
        return true;
    }
    assert(seg@ != seq!['.']) by {
        if seg@ == seq!['.'] {
            assert(seg@[0] == '.');
        }
    }
    assert(seg@ != seq!['.', '.']) by {
        if seg@ == seq!['.', '.'] {
            assert(seg@[0] == '.' && seg@[1] == '.');
        }
    }
    stack.push(seg.to_owned());
    assert(strings_view(stack@) =~= strings_view(old(stack)@).push(seg@));
    true
}

/// Joins `requested` under `base` so that the result cannot leave `base`:
/// `.` and empty segments are dropped, `..` removes the previous component,
/// and a `..` that would climb above `base` is rejected.
pub fn join_absolute_path(base: &str, requested: &str) -> (r: Result<String, CgroupError>)
    ensures
        match sanitized_join(base@, requested@) {
            None => r == Err::<String, CgroupError>(CgroupError::PathEscape),
            Some(p) => r.is_ok() && r.unwrap()@ == p,
        },
{
    let n = requested.unicode_len();
    let ghost s = requested@;
    let mut stack: Vec<String> = Vec::new();
    let mut start: usize = 0;
    let mut i: usize = 0;
    assert(s.take(0) =~= Seq::<char>::empty());
    while i < n
        invariant
            n == s.len(),
            s == requested@,
            start <= i <= n,
            split_on(s.take(i as int), '/').len() >= 1,
            split_on(s.take(i as int), '/').last() == s.subrange(start as int, i as int),
            resolve_segments(split_on(s.take(i as int), '/').drop_last()) == Some(
                strings_view(stack@),
            ),
        decreases n - i,
    {
        let ghost segs = split_on(s.take(i as int), '/');
        let c = requested.get_char(i);
        assert(s.take(i + 1).drop_last() =~= s.take(i as int));
        assert(s.take(i + 1).last() == c);
        if c == '/' {
            let seg = requested.substring_char(start, i);
            let ok = push_segment_exec(&mut stack, seg);
            if !ok {
                assert(resolve_segments(segs) == None::<Seq<Seq<char>>>);
                assert(split_on(s.take(i + 1), '/').drop_last() =~= segs);
                proof {
                    lemma_resolve_fails_forever(s, i as int + 1, n as int);
                    assert(s.take(n as int) =~= s);
                }
                return Err(CgroupError::PathEscape);
            }
            assert(split_on(s.take(i + 1), '/').drop_last() =~= segs);
            start = i + 1;
            i += 1;
            assert(s.subrange(start as int, i as int) =~= Seq::<char>::empty());
        } else {
            assert(split_on(s.take(i + 1), '/') =~= segs.update(
                segs.len() - 1,
                segs.last().push(c),
            ));
            assert(split_on(s.take(i + 1), '/').drop_last() =~= segs.drop_last());
            assert(s.subrange(start as int, i + 1) =~= s.subrange(start as int, i as int).push(c));
            i += 1;
        }
    }
    assert(s.take(n as int) =~= s);
    let seg = requested.substring_char(start, n);
    if !push_segment_exec(&mut stack, seg) {
        return Err(CgroupError::PathEscape);
    }
    let ghost comps = strings_view(stack@);
    let mut out = base.to_owned();
    let mut k: usize = 0;
    let sep = "/";
    proof {
        reveal_strlit("/");
    }
    assert(comps.take(0) =~= Seq::<Seq<char>>::empty());
    while k < stack.len()
        invariant
            comps == strings_view(stack@),
            k <= stack@.len(),
            out@ == join_components(base@, comps.take(k as int)),
            sep@ == seq!['/'],
        decreases stack.len() - k,
    {
        assert(comps.take(k + 1).drop_last() =~= comps.take(k as int));
        out.append(sep);
        out.append(stack[k].as_str());
        k += 1;
    }
    assert(comps.take(k as int) =~= comps);
    Ok(out)
}

/// Once resolution has failed on a prefix, it fails on every longer prefix.
proof fn lemma_resolve_fails_forever(s: Seq<char>, i: int, j: int)
    requires
        0 <= i <= j <= s.len(),
        resolve_segments(split_on(s.take(i), '/').drop_last()) == None::<Seq<Seq<char>>>,
    ensures
        resolve_segments(split_on(s.take(j), '/')) == None::<Seq<Seq<char>>>,
    decreases j - i,
{
    lemma_split_nonempty(s.take(i), '/');
    let segs = split_on(s.take(i), '/');
    assert(segs =~= segs.drop_last().push(segs.last()));
    if i < j {
        assert(s.take(i + 1).drop_last() =~= s.take(i));
        let segs2 = split_on(s.take(i + 1), '/');
        if s[i] == '/' {
            assert(segs2.drop_last() =~= segs);
        } else {
            assert(segs2.drop_last() =~= segs.drop_last());
        }
        lemma_resolve_fails_forever(s, i + 1, j);
    } else {
        assert(resolve_segments(segs) == None::<Seq<Seq<char>>>);
    }
}

} // verus!
