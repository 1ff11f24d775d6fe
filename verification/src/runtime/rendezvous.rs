//! The rendezvous of parent and child at the fork: the child does not run
//! the command before the parent has enrolled it in the cgroup.
//!
//! The two meet over a pipe. The child reads from it, and the read returns
//! only when no write end is open any more: the child closes its own first,
//! the parent closes its own after it has enrolled the child. Where the
//! parent cannot enroll the child, it ends the child before it closes its
//! write end, so that the child never comes back from the read.

use vstd::prelude::*;

verus! {

/// What the parent does after the fork, step by step.
#[derive(Clone, Copy, Debug, PartialEq, Eq, Structural)]
pub enum ParentAction {
    /// Close the read end of the pipe.
    CloseRead,
    /// Write the process id of the child to `cgroup.procs`.
    Enroll,
    /// End the child: kill it, so that it takes no further step.
    Kill,
    /// Close the write end of the pipe, which releases the child if it
    /// still lives.
    CloseWrite,
}

/// What the child does after the fork, step by step.
#[derive(Clone, Copy, Debug, PartialEq, Eq, Structural)]
pub enum ChildAction {
    /// Close the write end of the pipe.
    CloseWrite,
    /// Read one byte from the pipe; this returns when the pipe has no
    /// writer left.
    AwaitRelease,
    /// Close the read end of the pipe.
    CloseRead,
    /// Become this user and group.
    DropPrivileges(u32, u32),
    /// Replace the process by the command.
    Exec,
}

/// The steps that the parent takes to the end. Where the write to
/// `cgroup.procs` succeeds (`enroll_ok`), it enrolls the child and then
/// releases it. Where the write fails, it has enrolled nobody, and ends the
/// child before it closes the write end.
pub open spec fn parent_steps(enroll_ok: bool) -> Seq<ParentAction> {
    if enroll_ok {
        seq![ParentAction::CloseRead, ParentAction::Enroll, ParentAction::CloseWrite]
    } else {
        seq![ParentAction::CloseRead, ParentAction::Kill, ParentAction::CloseWrite]
    }
}

/// The steps of the child; it drops its privileges where `ids` names a
/// user and a group.
pub open spec fn child_steps(ids: Option<(u32, u32)>) -> Seq<ChildAction> {
    match ids {
        Some((uid, gid)) => seq![
            ChildAction::CloseWrite,
            ChildAction::AwaitRelease,
            ChildAction::CloseRead,
            ChildAction::DropPrivileges(uid, gid),
            ChildAction::Exec,
        ],
        None => seq![
            ChildAction::CloseWrite,
            ChildAction::AwaitRelease,
            ChildAction::CloseRead,
            ChildAction::Exec,
        ],
    }
}

/// The steps of the parent, as long as none of them fails.
pub fn parent_script() -> (script: Vec<ParentAction>)
    ensures
        script@ == parent_steps(true),
{
    let mut script: Vec<ParentAction> = Vec::new();
    script.push(ParentAction::CloseRead);
    script.push(ParentAction::Enroll);
    script.push(ParentAction::CloseWrite);
    proof {
        assert(script@ =~= parent_steps(true));
    }
    script
}

/// What the parent does in place of the steps that follow `Enroll`, where
/// the write to `cgroup.procs` has failed: it ends the child, and only then
/// closes the write end.
pub fn parent_recovery() -> (script: Vec<ParentAction>)
    ensures
        script@ == parent_steps(false).skip(1),
        parent_steps(false).take(1) == parent_steps(true).take(1),
{
    let mut script: Vec<ParentAction> = Vec::new();
    script.push(ParentAction::Kill);
    script.push(ParentAction::CloseWrite);
    proof {
        assert(script@ =~= parent_steps(false).skip(1));
        assert(parent_steps(false).take(1) =~= parent_steps(true).take(1));
    }
    script
}

/// The steps of the child.
pub fn child_script(ids: Option<(u32, u32)>) -> (script: Vec<ChildAction>)
    ensures
        script@ == child_steps(ids),
{
    let mut script: Vec<ChildAction> = Vec::new();
    script.push(ChildAction::CloseWrite);
    script.push(ChildAction::AwaitRelease);
    script.push(ChildAction::CloseRead);
    match ids {
        Some((uid, gid)) => {
            script.push(ChildAction::DropPrivileges(uid, gid));
        },
        None => {},
    }
    script.push(ChildAction::Exec);
    proof {
        assert(script@ =~= child_steps(ids));
    }
    script
}

/// How far parent and child have come: the number of steps that each has
/// finished.
pub struct Progress {
    pub parent: int,
    pub child: int,
}

/// Whether the parent, `done` steps on, has enrolled the child.
pub open spec fn enrolled(enroll_ok: bool, done: int) -> bool {
    exists|i: int|
        0 <= i < done && i < parent_steps(enroll_ok).len() && #[trigger] parent_steps(
            enroll_ok,
        )[i] is Enroll
}

/// Whether the parent, `done` steps on, has ended the child.
pub open spec fn killed(enroll_ok: bool, done: int) -> bool {
    exists|i: int|
        0 <= i < done && i < parent_steps(enroll_ok).len() && #[trigger] parent_steps(
            enroll_ok,
        )[i] is Kill
}

/// Whether the parent, `done` steps on, still holds the write end.
pub open spec fn parent_holds_write(enroll_ok: bool, done: int) -> bool {
    forall|i: int|
        0 <= i < done && i < parent_steps(enroll_ok).len() ==> !(#[trigger] parent_steps(
            enroll_ok,
        )[i] is CloseWrite)
}

/// Whether the child, `done` steps on, still holds the write end.
pub open spec fn child_holds_write(ids: Option<(u32, u32)>, done: int) -> bool {
    forall|i: int|
        0 <= i < done && i < child_steps(ids).len() ==> !(#[trigger] child_steps(ids)[i] is CloseWrite)
}

/// Whether the child, `done` steps on, has replaced itself by the
/// command.
pub open spec fn runs_command(ids: Option<(u32, u32)>, done: int) -> bool {
    exists|i: int| 0 <= i < done && i < child_steps(ids).len() && #[trigger] child_steps(ids)[i] is Exec
}

/// Whether the parent can take its next step: it can as long as it has
/// one.
pub open spec fn parent_can_step(enroll_ok: bool, at: Progress) -> bool {
    0 <= at.parent < parent_steps(enroll_ok).len()
}

/// Whether the child can take its next step: it can as long as it has one
/// and has not been ended, but the read from the pipe ends only when
/// neither holds the write end.
pub open spec fn child_can_step(enroll_ok: bool, ids: Option<(u32, u32)>, at: Progress) -> bool {
    &&& 0 <= at.child < child_steps(ids).len()
    &&& !killed(enroll_ok, at.parent)
    &&& child_steps(ids)[at.child] is AwaitRelease ==> !parent_holds_write(enroll_ok, at.parent)
        && !child_holds_write(ids, at.child)
}

/// Where the two stand after the moves of `schedule`, in which `true` is a
/// step of the parent and `false` one of the child; nothing where a move is
/// asked of one who cannot step. `enroll_ok` says whether the write to
/// `cgroup.procs` succeeds.
pub open spec fn after(enroll_ok: bool, ids: Option<(u32, u32)>, schedule: Seq<bool>) -> Option<
    Progress,
>
    decreases schedule.len(),
{
    if schedule.len() == 0 {
        Some(Progress { parent: 0, child: 0 })
    } else {
        match after(enroll_ok, ids, schedule.drop_last()) {
            None => None,
            Some(at) => if schedule.last() {
                if parent_can_step(enroll_ok, at) {
                    Some(Progress { parent: at.parent + 1, ..at })
                } else {
                    None
                }
            } else {
                if child_can_step(enroll_ok, ids, at) {
                    Some(Progress { child: at.child + 1, ..at })
                } else {
                    None
                }
            },
        }
    }
}

/// However the steps of parent and child fall in time, and whether the
/// parent can enroll the child or not, the child has not come past its read
/// before the parent has enrolled it; so it does not run the command before
/// it is enrolled. Where the parent cannot enroll it, the child never runs
/// the command.
pub proof fn lemma_enrolled_before_exec(
    enroll_ok: bool,
    ids: Option<(u32, u32)>,
    schedule: Seq<bool>,
)
    requires
        after(enroll_ok, ids, schedule) is Some,
    ensures
        after(enroll_ok, ids, schedule)->Some_0.child >= 2 ==> enrolled(
            enroll_ok,
            after(enroll_ok, ids, schedule)->Some_0.parent,
        ),
        runs_command(ids, after(enroll_ok, ids, schedule)->Some_0.child) ==> enrolled(
            enroll_ok,
            after(enroll_ok, ids, schedule)->Some_0.parent,
        ),
        !enroll_ok ==> !runs_command(ids, after(enroll_ok, ids, schedule)->Some_0.child),
        0 <= after(enroll_ok, ids, schedule)->Some_0.parent <= parent_steps(enroll_ok).len(),
        0 <= after(enroll_ok, ids, schedule)->Some_0.child <= child_steps(ids).len(),
    decreases schedule.len(),
{
    let at = after(enroll_ok, ids, schedule)->Some_0;
    let steps = parent_steps(enroll_ok);
    if schedule.len() > 0 {
        lemma_enrolled_before_exec(enroll_ok, ids, schedule.drop_last());
        let before = after(enroll_ok, ids, schedule.drop_last())->Some_0;
        if at.child >= 2 {
            if before.child >= 2 {
                let i = choose|i: int|
                    0 <= i < before.parent && i < steps.len() && #[trigger] steps[i] is Enroll;
                assert(steps[i] is Enroll);
            } else {
                assert(child_steps(ids)[1] is AwaitRelease);
                assert(!parent_holds_write(enroll_ok, before.parent));
                assert(!killed(enroll_ok, before.parent));
                if before.parent < 3 {
                    assert forall|i: int| 0 <= i < before.parent && i < steps.len() implies !(
                    #[trigger] steps[i] is CloseWrite) by {}
                }
                if !enroll_ok {
                    assert(steps[1] is Kill);
                }
                assert(steps[1] is Enroll);
            }
        }
    }
    if runs_command(ids, at.child) {
        let i = choose|i: int|
            0 <= i < at.child && i < child_steps(ids).len() && #[trigger] child_steps(ids)[i] is Exec;
        assert(i >= 3);
    }
    if !enroll_ok && enrolled(enroll_ok, at.parent) {
        let i = choose|i: int| 0 <= i < at.parent && i < steps.len() && #[trigger] steps[i] is Enroll;
    }
}

/// Where the parent can enroll the child, the run in which the parent
/// takes all its steps and then the child all of its own is possible, and
/// ends with the child enrolled and running the command: the rendezvous
/// does not block for ever.
pub proof fn lemma_rendezvous_completes(ids: Option<(u32, u32)>)
    ensures
        ({
            let parent_first = seq![true, true, true];
            let child_rest = Seq::new(child_steps(ids).len(), |i: int| false);
            let end = after(true, ids, parent_first + child_rest);
            end is Some && runs_command(ids, end->Some_0.child) && enrolled(
                true,
                end->Some_0.parent,
            )
        }),
{
    let n = child_steps(ids).len() as int;
    let schedule = seq![true, true, true] + Seq::new(n as nat, |i: int| false);
    assert(parent_steps(true)[2] is CloseWrite);
    assert(child_steps(ids)[0] is CloseWrite);
    assert(!parent_holds_write(true, 3));
    assert forall|k: int| 0 <= k <= 3 + n implies (#[trigger] after(true, ids, schedule.take(k)))
        == Some(
        Progress { parent: if k <= 3 { k } else { 3 }, child: if k <= 3 { 0 } else { k - 3 } },
    ) by {
        lemma_prefix_progress(ids, schedule, k);
    }
    assert(schedule.take(3 + n) =~= schedule);
    assert(child_steps(ids)[n - 1] is Exec);
    assert(parent_steps(true)[1] is Enroll);
}

proof fn lemma_prefix_progress(ids: Option<(u32, u32)>, schedule: Seq<bool>, k: int)
    requires
        schedule == seq![true, true, true] + Seq::new(child_steps(ids).len(), |i: int| false),
        0 <= k <= 3 + child_steps(ids).len(),
    ensures
        after(true, ids, schedule.take(k)) == Some(
            Progress { parent: if k <= 3 { k } else { 3 }, child: if k <= 3 { 0 } else { k - 3 } },
        ),
    decreases k,
{
    if k > 0 {
        lemma_prefix_progress(ids, schedule, k - 1);
        assert(schedule.take(k).drop_last() =~= schedule.take(k - 1));
        assert(schedule.take(k).last() == schedule[k - 1]);
        assert(parent_steps(true)[2] is CloseWrite);
        assert(child_steps(ids)[0] is CloseWrite);
        if k - 1 >= 3 {
            assert(!parent_holds_write(true, 3));
            assert(!killed(true, 3)) by {
                if killed(true, 3) {
                    let i = choose|i: int|
                        0 <= i < 3 && i < parent_steps(true).len() && #[trigger] parent_steps(
                            true,
                        )[i] is Kill;
                }
            }
            if k - 1 - 3 >= 1 {
                assert(!child_holds_write(ids, k - 1 - 3));
            }
        }
    } else {
        assert(schedule.take(0) =~= Seq::<bool>::empty());
    }
}

} // verus!
