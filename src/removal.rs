use vstd::prelude::*;
use crate::controller::ControllerType;
use crate::error::CgroupError;
use crate::path::split_on;
use crate::manager::{Manager, pairs_view};

verus! {

pub open spec fn is_digit(c: char) -> bool {
    '0' <= c && c <= '9'
}

pub open spec fn all_digits(s: Seq<char>) -> bool {
    forall|i: int| 0 <= i < s.len() ==> is_digit(#[trigger] s[i])
}

/// Decimal value of a digit string.
pub open spec fn digits_value(s: Seq<char>) -> int
    decreases s.len(),
{
    if s.len() == 0 {
        0
    } else {
        digits_value(s.drop_last()) * 10 + (s.last() as int - '0' as int)
    }
}

/// The integer written in `s`: an optional `+` or `-`, then one or more digits.
pub open spec fn signed_value(s: Seq<char>) -> Option<int> {
    if s.len() > 0 && (s[0] == '-' || s[0] == '+') {
        let d = s.drop_first();
        if d.len() > 0 && all_digits(d) {
            Some(if s[0] == '-' { -digits_value(d) } else { digits_value(d) })
        } else {
            None
        }
    } else if s.len() > 0 && all_digits(s) {
        Some(digits_value(s))
    } else {
        None
    }
}

/// A pid as written on one line of a membership file.
pub open spec fn pid_of(s: Seq<char>) -> Option<i32> {
    match signed_value(s) {
        Some(v) => if i32::MIN <= v <= i32::MAX {
            Some(v as i32)
        } else {
            None
        },
        None => None,
    }
}

/// A line ended by a newline, without the carriage return before it.
pub open spec fn strip_cr(l: Seq<char>) -> Seq<char> {
    if l.len() > 0 && l.last() == '\r' {
        l.drop_last()
    } else {
        l
    }
}

/// The lines of a text: cut at each newline (a carriage return just before
/// it belongs to the line ending), without the empty piece after a final
/// newline.
pub open spec fn lines_of(s: Seq<char>) -> Seq<Seq<char>> {
    let parts = split_on(s, '\n');
    let ended = parts.drop_last().map_values(|l: Seq<char>| strip_cr(l));
    if parts.last().len() == 0 {
        ended
    } else {
        ended.push(parts.last())
    }
}

/// Every line read as a pid, or `None` if one of them is not a pid.
pub open spec fn pids_in(lines: Seq<Seq<char>>) -> Option<Seq<i32>>
    decreases lines.len(),
{
    if lines.len() == 0 {
        Some(Seq::empty())
    } else {
        match pids_in(lines.drop_last()) {
            None => None,
            Some(v) => match pid_of(lines.last()) {
                None => None,
                Some(p) => Some(v.push(p)),
            },
        }
    }
}

proof fn lemma_digits_value_grows(s: Seq<char>, k: int)
    requires
        all_digits(s),
        0 <= k <= s.len(),
    ensures
        0 <= digits_value(s.take(k)) <= digits_value(s),
    decreases s.len() - k,
{
    if k < s.len() {
        lemma_digits_value_grows(s, k + 1);
        assert(s.take(k + 1).drop_last() =~= s.take(k));
    } else {
        assert(s.take(k) =~= s);
        lemma_digits_nonneg(s);
    }
}

proof fn lemma_digits_nonneg(s: Seq<char>)
    requires
        all_digits(s),
    ensures
        digits_value(s) >= 0,
    decreases s.len(),
{
    if s.len() > 0 {
        assert(all_digits(s.drop_last()));
        lemma_digits_nonneg(s.drop_last());
    }
}

/// Reads one line of a membership file as a pid.
pub fn parse_pid(s: &str) -> (r: Option<i32>)
    ensures
        r == pid_of(s@),
{
    let n = s.unicode_len();
    if n == 0 {
        return None;
    }
    let first = s.get_char(0);
    let neg = first == '-';
    let start: usize = if first == '-' || first == '+' { 1 } else { 0 };
    if start == n {
        return None;
    }
    let ghost d = s@.subrange(start as int, n as int);
    assert(start == 1 ==> d =~= s@.drop_first());
    assert(start == 0 ==> d =~= s@);
    let mut acc: u64 = 0;
    let mut i: usize = start;
    while i < n
        invariant
            n == s@.len(),
            start <= i <= n,
            d == s@.subrange(start as int, n as int),
            n > 0,
            first == s@[0],
            neg == (first == '-'),
            start == (if first == '-' || first == '+' { 1usize } else { 0usize }),
            start == 1 ==> d == s@.drop_first(),
            start == 0 ==> d == s@,
            all_digits(d.take(i - start)),
            acc == digits_value(d.take(i - start)),
            acc <= 2147483648,
        decreases n - i,
    {
        let c = s.get_char(i);
        assert(d[i - start] == c);
        if c < '0' || c > '9' {
            assert(!all_digits(d));
            return None;
        }
        let ghost k = (i - start) as int;
        assert(d.take(k + 1).drop_last() =~= d.take(k));
        assert(d.take(k + 1).last() == c);
        let dv: u64 = (c as u32 - '0' as u32) as u64;
        acc = acc * 10 + dv;
        i += 1;
        assert(all_digits(d.take(i - start)));
        if acc > 2147483648 {
            proof {
                if all_digits(d) {
                    lemma_digits_value_grows(d, i - start);
                }
            }
            return None;
        }
    }
    assert(d.take(i - start) =~= d);
    if neg {
        Some((0 - (acc as i64)) as i32)
    } else if acc > 2147483647 {
        None
    } else {
        Some(acc as i32)
    }
}

/// Reads every line of a process-membership file as a pid; a line that is
/// not a pid fails the whole read with `PidParseError`.
pub fn parse_procs(c: ControllerType, text: &str) -> (r: Result<Vec<i32>, CgroupError>)
    ensures
        match pids_in(lines_of(text@)) {
            None => r == Err::<Vec<i32>, CgroupError>(CgroupError::PidParseError(c)),
            Some(v) => r.is_ok() && r.unwrap()@ == v,
        },
{
    let n = text.unicode_len();
    let ghost s = text@;
    let mut out: Vec<i32> = Vec::new();
    let mut failed = false;
    let mut start: usize = 0;
    let mut i: usize = 0;
    assert(s.take(0) =~= Seq::<char>::empty());
    while i < n
        invariant
            n == s.len(),
            s == text@,
            start <= i <= n,
            split_on(s.take(i as int), '\n').len() >= 1,
            split_on(s.take(i as int), '\n').last() == s.subrange(start as int, i as int),
            pids_in(
                split_on(s.take(i as int), '\n').drop_last().map_values(|l: Seq<char>| strip_cr(l)),
            ) == (if failed {
                None::<Seq<i32>>
            } else {
                Some(out@)
            }),
        decreases n - i,
    {
        let ghost segs = split_on(s.take(i as int), '\n');
        let ch = text.get_char(i);
        assert(s.take(i + 1).drop_last() =~= s.take(i as int));
        assert(s.take(i + 1).last() == ch);
        if ch == '\n' {
            assert(split_on(s.take(i + 1), '\n').drop_last() =~= segs);
            assert(segs.map_values(|l: Seq<char>| strip_cr(l)) =~= segs.drop_last().map_values(
                |l: Seq<char>| strip_cr(l),
            ).push(strip_cr(segs.last())));
            let ghost m0 = segs.drop_last().map_values(|l: Seq<char>| strip_cr(l));
            assert(m0.push(strip_cr(segs.last())).drop_last() =~= m0);
            let end: usize = if i > start && text.get_char(i - 1) == '\r' { i - 1 } else { i };
            assert(s.subrange(start as int, end as int) == strip_cr(s.subrange(start as int, i as int)))
                by {
                if i > start && s[i - 1] == '\r' {
                    assert(s.subrange(start as int, i - 1) =~= s.subrange(start as int, i as int).drop_last());
                }
            }
            if !failed {
                match parse_pid(text.substring_char(start, end)) {
                    None => {
                        failed = true;
                    },
                    Some(p) => {
                        out.push(p);
                    },
                }
            }
            start = i + 1;
            i += 1;
            assert(s.subrange(start as int, i as int) =~= Seq::<char>::empty());
        } else {
            assert(split_on(s.take(i + 1), '\n') =~= segs.update(
                segs.len() - 1,
                segs.last().push(ch),
            ));
            assert(split_on(s.take(i + 1), '\n').drop_last() =~= segs.drop_last());
            assert(split_on(s.take(i + 1), '\n').drop_last().map_values(|l: Seq<char>| strip_cr(l))
                =~= segs.drop_last().map_values(|l: Seq<char>| strip_cr(l)));
            assert(s.subrange(start as int, i + 1) =~= s.subrange(start as int, i as int).push(ch));
            i += 1;
        }
    }
    assert(s.take(n as int) =~= s);
    let ghost parts = split_on(s, '\n');
    let ghost ended = parts.drop_last().map_values(|l: Seq<char>| strip_cr(l));
    assert(ended.push(parts.last()).drop_last() =~= ended);
    if start < n && !failed {
        match parse_pid(text.substring_char(start, n)) {
            None => {
                failed = true;
            },
            Some(p) => {
                out.push(p);
            },
        }
    }
    if failed {
        Err(CgroupError::PidParseError(c))
    } else {
        Ok(out)
    }
}

/// How often, and how far apart, deletion of a busy cgroup directory is tried.
#[derive(Clone, Copy, Debug, PartialEq, Eq, Structural)]
pub struct RetryPolicy {
    /// Largest number of delete attempts; at least one.
    pub attempts: u32,
    /// Pause between two attempts, in milliseconds.
    pub delay_ms: u64,
}

/// What to do after a delete attempt.
#[derive(Clone, Copy, Debug, PartialEq, Eq, Structural)]
pub enum DeleteStep {
    /// The directory is gone.
    Done,
    /// Wait this many milliseconds, then try again.
    RetryAfter(u64),
    /// The budget is spent: fail with `RemovalTimeout`.
    GiveUp,
}

/// After `made` attempts (this one included), of which the last one
/// `deleted` the directory or not.
pub open spec fn next_delete_step(p: RetryPolicy, made: int, deleted: bool) -> DeleteStep {
    if deleted {
        DeleteStep::Done
    } else if made < p.attempts {
        DeleteStep::RetryAfter(p.delay_ms)
    } else {
        DeleteStep::GiveUp
    }
}

impl Default for RetryPolicy {
    /// Five attempts, a tenth of a second apart.
    fn default() -> (r: RetryPolicy)
        ensures
            r.attempts == 5,
            r.delay_ms == 100,
    {
        RetryPolicy { attempts: 5, delay_ms: 100 }
    }
}

impl RetryPolicy {
    /// A policy with the given budget; the budget counts at least one attempt.
    pub fn new(attempts: u32, delay_ms: u64) -> (r: RetryPolicy)
        ensures
            r.attempts == if attempts == 0 { 1 } else { attempts },
            r.delay_ms == delay_ms,
    {
        RetryPolicy { attempts: if attempts == 0 { 1 } else { attempts }, delay_ms }
    }

    /// Decides what follows a delete attempt: `made` attempts have been made,
    /// this one included, and `deleted` says whether it removed the directory.
    pub fn after_delete_attempt(&self, made: u32, deleted: bool) -> (r: DeleteStep)
        ensures
            r == next_delete_step(*self, made as int, deleted),
    {
        if deleted {
            DeleteStep::Done
        } else if made < self.attempts {
            DeleteStep::RetryAfter(self.delay_ms)
        } else {
            DeleteStep::GiveUp
        }
    }
}

/// Where a removal stands for the controller at its cursor.
#[derive(Clone, Copy, Debug, PartialEq, Eq, Structural)]
pub enum RemovalPhase {
    /// The directory is to be probed and its member pids read.
    Inspecting,
    /// Deletion is under way; this many attempts have failed so far.
    Deleting(u32),
    /// Removal stopped with this error; later controllers are left alone.
    Failed(CgroupError),
}

/// What the caller does next for a removal.
#[derive(Debug, PartialEq, Eq)]
pub enum RemovalAction {
    /// Check whether the directory exists and, if so, read its
    /// process-membership file; report with `on_inspected`.
    Inspect(ControllerType, String),
    /// Try to delete the directory; report with `on_delete_attempt`.
    Delete(ControllerType, String),
    /// Nothing is left to do: this is the removal's result.
    Finished(Result<(), CgroupError>),
}

/// The teardown of a container's cgroup directories, controller by controller
/// in declaration order: kill the members, then delete the directory with
/// bounded retry. The caller performs each action and reports what happened.
pub struct Removal {
    paths: Vec<(ControllerType, String)>,
    policy: RetryPolicy,
    index: usize,
    phase: RemovalPhase,
}

/// Plain-value form of an inspection report.
pub open spec fn procs_view(procs: Option<Option<&str>>) -> Option<Option<Seq<char>>> {
    match procs {
        None => None,
        Some(None) => Some(None),
        Some(Some(t)) => Some(Some(t@)),
    }
}

/// Cursor, phase and pids to kill after inspecting the directory at `index`:
/// a missing directory counts as removed; an unreadable or malformed
/// membership file stops the removal; otherwise its pids are killed and
/// deletion starts.
pub open spec fn inspected(
    paths: Seq<(ControllerType, Seq<char>)>,
    index: int,
    procs: Option<Option<Seq<char>>>,
) -> (int, RemovalPhase, Seq<i32>) {
    let c = paths[index].0;
    match procs {
        None => (index + 1, RemovalPhase::Inspecting, Seq::empty()),
        Some(None) => (
            index,
            RemovalPhase::Failed(CgroupError::MembershipReadFailed(c)),
            Seq::empty(),
        ),
        Some(Some(text)) => match pids_in(lines_of(text)) {
            None => (index, RemovalPhase::Failed(CgroupError::PidParseError(c)), Seq::empty()),
            Some(v) => (index, RemovalPhase::Deleting(0), v),
        },
    }
}

/// Cursor, phase and pause after a delete attempt on the directory at
/// `index`, when `failed` attempts on it had failed before.
pub open spec fn delete_attempted(
    paths: Seq<(ControllerType, Seq<char>)>,
    p: RetryPolicy,
    index: int,
    failed: int,
    deleted: bool,
) -> (int, RemovalPhase, Option<u64>) {
    match next_delete_step(p, failed + 1, deleted) {
        DeleteStep::Done => (index + 1, RemovalPhase::Inspecting, None),
        DeleteStep::RetryAfter(d) => (index, RemovalPhase::Deleting((failed + 1) as u32), Some(d)),
        DeleteStep::GiveUp => (
            index,
            RemovalPhase::Failed(CgroupError::RemovalTimeout(paths[index].0)),
            None,
        ),
    }
}

/// The removal's result once nothing is left to do.
pub open spec fn finished_with(
    paths: Seq<(ControllerType, Seq<char>)>,
    index: int,
    phase: RemovalPhase,
) -> Option<Result<(), CgroupError>> {
    match phase {
        RemovalPhase::Failed(e) => Some(Err(e)),
        RemovalPhase::Inspecting => if index == paths.len() {
            Some(Ok(()))
        } else {
            None
        },
        RemovalPhase::Deleting(_) => None,
    }
}

impl Removal {
    pub closed spec fn paths(&self) -> Seq<(ControllerType, Seq<char>)> {
        pairs_view(self.paths@)
    }

    pub closed spec fn policy(&self) -> RetryPolicy {
        self.policy
    }

    /// Index of the controller being removed; `paths().len()` once all are done.
    pub closed spec fn index(&self) -> int {
        self.index as int
    }

    pub closed spec fn phase(&self) -> RemovalPhase {
        self.phase
    }

    pub open spec fn wf(&self) -> bool {
        &&& 0 <= self.index() <= self.paths().len()
        &&& self.index() == self.paths().len() ==> self.phase() is Inspecting
        &&& self.phase() is Deleting ==> self.phase()->Deleting_0 < self.policy().attempts
        &&& self.policy().attempts >= 1
    }

    /// Starts removing the manager's directories with the given retry policy.
    pub fn new(manager: &Manager, policy: RetryPolicy) -> (r: Removal)
        requires
            policy.attempts >= 1,
        ensures
            r.wf(),
            r.paths() == manager@,
            r.policy() == policy,
            r.index() == 0,
            r.phase() == RemovalPhase::Inspecting,
    {
        let mut paths: Vec<(ControllerType, String)> = Vec::new();
        let mut i: usize = 0;
        let n = manager.subsystem_count();
        while i < n
            invariant
                n == manager@.len(),
                i <= n,
                pairs_view(paths@) == manager@.take(i as int),
            decreases n - i,
        {
            let (c, p) = manager.subsystem(i);
            let ghost before = pairs_view(paths@);
            paths.push((c, p.to_owned()));
            assert(pairs_view(paths@) =~= before.push((c, p@)));
            assert(manager@.take(i + 1) =~= manager@.take(i as int).push(manager@[i as int]));
            i += 1;
        }
        assert(manager@.take(n as int) =~= manager@);
        Removal { paths, policy, index: 0, phase: RemovalPhase::Inspecting }
    }

    /// The next thing to do.
    pub fn next_action(&self) -> (r: RemovalAction)
        requires
            self.wf(),
        ensures
            finished_with(self.paths(), self.index(), self.phase()) matches Some(res) ==> r
                == RemovalAction::Finished(res),
            match self.phase() {
                RemovalPhase::Failed(e) => r == RemovalAction::Finished(Err(e)),
                RemovalPhase::Inspecting => if self.index() == self.paths().len() {
                    r == RemovalAction::Finished(Ok(()))
                } else {
                    r matches RemovalAction::Inspect(c, p) && c == self.paths()[self.index()].0
                        && p@ == self.paths()[self.index()].1
                },
                RemovalPhase::Deleting(_) => r matches RemovalAction::Delete(c, p) && c
                    == self.paths()[self.index()].0 && p@ == self.paths()[self.index()].1,
            },
    {
        match self.phase {
            RemovalPhase::Failed(e) => RemovalAction::Finished(Err(e)),
            RemovalPhase::Inspecting => if self.index == self.paths.len() {
                RemovalAction::Finished(Ok(()))
            } else {
                let e = &self.paths[self.index];
                RemovalAction::Inspect(e.0, e.1.clone())
            },
            RemovalPhase::Deleting(_) => {
                let e = &self.paths[self.index];
                RemovalAction::Delete(e.0, e.1.clone())
            },
        }
    }

    /// Reports an inspection: `None` when the directory does not exist (it
    /// counts as removed), `Some(None)` when its membership file could not be
    /// read, `Some(Some(text))` with the file's text. Returns the pids to kill
    /// before deletion; a failed kill is of no consequence.
    pub fn on_inspected(&mut self, procs: Option<Option<&str>>) -> (r: Vec<i32>)
        requires
            old(self).wf(),
            old(self).phase() is Inspecting,
            old(self).index() < old(self).paths().len(),
        ensures
            final(self).wf(),
            final(self).paths() == old(self).paths(),
            final(self).policy() == old(self).policy(),
            (final(self).index(), final(self).phase(), r@) == inspected(
                old(self).paths(),
                old(self).index(),
                procs_view(procs),
            ),
    {
        assert(pairs_view(self.paths@).len() == self.paths@.len());
        let count = self.paths.len();
        assert(self.index < count);
        let c = self.paths[self.index].0;
        match procs {
            None => {
                self.index = self.index + 1;
                Vec::new()
            },
            Some(None) => {
                self.phase = RemovalPhase::Failed(CgroupError::MembershipReadFailed(c));
                Vec::new()
            },
            Some(Some(text)) => match parse_procs(c, text) {
                Err(e) => {
                    self.phase = RemovalPhase::Failed(e);
                    Vec::new()
                },
                Ok(pids) => {
                    self.phase = RemovalPhase::Deleting(0);
                    pids
                },
            },
        }
    }

    /// Reports a delete attempt. Returns the pause, in milliseconds, to take
    /// before the next attempt, if there is one.
    pub fn on_delete_attempt(&mut self, deleted: bool) -> (r: Option<u64>)
        requires
            old(self).wf(),
            old(self).phase() is Deleting,
        ensures
            final(self).wf(),
            final(self).paths() == old(self).paths(),
            final(self).policy() == old(self).policy(),
            (final(self).index(), final(self).phase(), r) == delete_attempted(
                old(self).paths(),
                old(self).policy(),
                old(self).index(),
                old(self).phase()->Deleting_0 as int,
                deleted,
            ),
    {
        let failed = match self.phase {
            RemovalPhase::Deleting(n) => n,
            _ => 0,
        };
        assert(pairs_view(self.paths@).len() == self.paths@.len());
        let count = self.paths.len();
        assert(self.index < count);
        let c = self.paths[self.index].0;
        let made: u32 = failed + 1;
        match self.policy.after_delete_attempt(made, deleted) {
            DeleteStep::Done => {
                self.index = self.index + 1;
                self.phase = RemovalPhase::Inspecting;
                None
            },
            DeleteStep::RetryAfter(d) => {
                self.phase = RemovalPhase::Deleting(made);
                Some(d)
            },
            DeleteStep::GiveUp => {
                self.phase = RemovalPhase::Failed(CgroupError::RemovalTimeout(c));
                None
            },
        }
    }
}

/// Inspections that all find the directory missing, from the start of a
/// removal: cursor, phase and every pid handed out for killing after `k` of them.
pub open spec fn absent_run(paths: Seq<(ControllerType, Seq<char>)>, k: nat) -> (
    int,
    RemovalPhase,
    Seq<i32>,
)
    decreases k,
{
    if k == 0 {
        (0, RemovalPhase::Inspecting, Seq::empty())
    } else {
        let prev = absent_run(paths, (k - 1) as nat);
        let next = inspected(paths, prev.0, None);
        (next.0, next.1, prev.2 + next.2)
    }
}

/// Removing a container whose directories do not exist succeeds after one
/// inspection per controller, with no pid to kill and no delete attempted.
pub proof fn lemma_remove_nothing_applied(paths: Seq<(ControllerType, Seq<char>)>)
    ensures
        absent_run(paths, paths.len()) == (
            paths.len() as int,
            RemovalPhase::Inspecting,
            Seq::<i32>::empty(),
        ),
        finished_with(paths, paths.len() as int, RemovalPhase::Inspecting) == Some(
            Ok::<(), CgroupError>(()),
        ),
{
    lemma_absent_prefix(paths, paths.len());
}

proof fn lemma_absent_prefix(paths: Seq<(ControllerType, Seq<char>)>, k: nat)
    ensures
        absent_run(paths, k) == (k as int, RemovalPhase::Inspecting, Seq::<i32>::empty()),
    decreases k,
{
    if k > 0 {
        lemma_absent_prefix(paths, (k - 1) as nat);
        assert(Seq::<i32>::empty() + Seq::<i32>::empty() =~= Seq::<i32>::empty());
    }
}

/// A directory whose membership file lists pids is deleted whatever became of
/// the signals: the kills are handed out, never reported back, and the next
/// step is the delete; a successful delete moves on to the next controller.
pub proof fn lemma_remove_ignores_signals(
    paths: Seq<(ControllerType, Seq<char>)>,
    p: RetryPolicy,
    index: int,
    text: Seq<char>,
)
    requires
        0 <= index < paths.len(),
        pids_in(lines_of(text)) is Some,
    ensures
        inspected(paths, index, Some(Some(text))) == (
            index,
            RemovalPhase::Deleting(0),
            pids_in(lines_of(text)).unwrap(),
        ),
        delete_attempted(paths, p, index, 0, true) == (
            index + 1,
            RemovalPhase::Inspecting,
            None::<u64>,
        ),
{
}

/// Delete attempts on the directory at `index` after `failed` failures, when
/// the next `busy` attempts fail and the one after succeeds: where the
/// removal stands once deletion is over.
pub open spec fn busy_run(
    paths: Seq<(ControllerType, Seq<char>)>,
    p: RetryPolicy,
    index: int,
    failed: nat,
    busy: nat,
) -> (int, RemovalPhase)
    decreases busy,
{
    let st = delete_attempted(paths, p, index, failed as int, busy == 0);
    match st.1 {
        RemovalPhase::Deleting(f) => if busy > 0 {
            busy_run(paths, p, index, f as nat, (busy - 1) as nat)
        } else {
            (st.0, st.1)
        },
        _ => (st.0, st.1),
    }
}

/// A directory that stays busy for `busy` attempts and is then deleted is
/// removed transparently, moving on to the next controller, when those
/// attempts fit in the budget. Otherwise the removal fails with
/// `RemovalTimeout` for this controller and finishes there, with the cursor
/// still on it: no later controller is inspected or deleted.
pub proof fn lemma_remove_retry_budget(
    paths: Seq<(ControllerType, Seq<char>)>,
    p: RetryPolicy,
    index: int,
    busy: nat,
)
    requires
        0 <= index < paths.len(),
        p.attempts >= 1,
    ensures
        busy < p.attempts ==> busy_run(paths, p, index, 0, busy) == (
            index + 1,
            RemovalPhase::Inspecting,
        ),
        busy >= p.attempts ==> busy_run(paths, p, index, 0, busy) == (
            index,
            RemovalPhase::Failed(CgroupError::RemovalTimeout(paths[index].0)),
        ) && finished_with(
            paths,
            index,
            RemovalPhase::Failed(CgroupError::RemovalTimeout(paths[index].0)),
        ) == Some(Err::<(), CgroupError>(CgroupError::RemovalTimeout(paths[index].0))),
{
    lemma_busy_from(paths, p, index, 0, busy);
}

proof fn lemma_busy_from(
    paths: Seq<(ControllerType, Seq<char>)>,
    p: RetryPolicy,
    index: int,
    failed: nat,
    busy: nat,
)
    requires
        0 <= index < paths.len(),
        failed < p.attempts,
    ensures
        failed + busy < p.attempts ==> busy_run(paths, p, index, failed, busy) == (
            index + 1,
            RemovalPhase::Inspecting,
        ),
        failed + busy >= p.attempts ==> busy_run(paths, p, index, failed, busy) == (
            index,
            RemovalPhase::Failed(CgroupError::RemovalTimeout(paths[index].0)),
        ),
    decreases busy,
{
    if busy > 0 && failed + 1 < p.attempts {
        lemma_busy_from(paths, p, index, failed + 1, (busy - 1) as nat);
    }
}

} // verus!
