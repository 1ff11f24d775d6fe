//! The steps of the launcher: what it does, in which order, from the
//! policy to the exit code.

use vstd::prelude::*;
use crate::addr::Ipv4;
use crate::error::MoriError;
use crate::policy::model::Policy;
use crate::policy::net::{AllowPolicy, PolicyView};
use crate::runtime::ebpf::{
    filter_view, op_in_range, plan_outcome, run_plan, EbpfController, FilterOp,
};

verus! {

/// The changes that put each of `cidrs` into the table.
pub open spec fn range_allowances(cidrs: Seq<(Ipv4, u8)>) -> Seq<FilterOp> {
    Seq::new(cidrs.len(), |i: int| FilterOp::Allow(cidrs[i].0, cidrs[i].1))
}

/// The changes that put each of `ips` into the table, as a single address.
pub open spec fn host_allowances(ips: Seq<Ipv4>) -> Seq<FilterOp> {
    Seq::new(ips.len(), |i: int| FilterOp::Allow(ips[i], 32))
}

/// The address of the loopback interface, 127.0.0.1.
pub open spec fn loopback() -> Ipv4 {
    Ipv4 { bits: 0x7F00_0001 }
}

/// The changes that seed the allow table for a network policy: the
/// loopback address, then each address of the policy, then each range. A
/// policy that allows everything has no table to seed.
pub open spec fn seed_ops(network: PolicyView) -> Seq<FilterOp> {
    match network {
        PolicyView::All => Seq::empty(),
        PolicyView::Entries(rules) => seq![FilterOp::Allow(loopback(), 32)] + host_allowances(
            rules.direct_v4,
        ) + range_allowances(rules.cidr_v4),
    }
}

/// The changes that seed the allow table for the policy.
pub fn seed_plan(policy: &Policy) -> (plan: Vec<FilterOp>)
    ensures
        plan@ == seed_ops(policy.network@),
{
    let mut plan: Vec<FilterOp> = Vec::new();
    match &policy.network.policy {
        AllowPolicy::All => {},
        AllowPolicy::Entries { allowed_ipv4, allowed_cidr, allowed_domains } => {
            plan.push(FilterOp::Allow(Ipv4::new(127, 0, 0, 1), 32));
            let mut i: usize = 0;
            while i < allowed_ipv4.len()
                invariant
                    i <= allowed_ipv4@.len(),
                    plan@ == seq![FilterOp::Allow(loopback(), 32)] + host_allowances(
                        allowed_ipv4@.take(i as int),
                    ),
                decreases allowed_ipv4@.len() - i,
            {
                plan.push(FilterOp::Allow(allowed_ipv4[i], 32));
                proof {
                    assert(host_allowances(allowed_ipv4@.take(i + 1)) =~= host_allowances(
                        allowed_ipv4@.take(i as int),
                    ).push(FilterOp::Allow(allowed_ipv4@[i as int], 32)));
                    assert(plan@ =~= seq![FilterOp::Allow(loopback(), 32)] + host_allowances(
                        allowed_ipv4@.take(i + 1),
                    ));
                }
                i = i + 1;
            }
            proof {
                assert(allowed_ipv4@.take(i as int) =~= allowed_ipv4@);
            }
            let mut k: usize = 0;
            while k < allowed_cidr.len()
                invariant
                    k <= allowed_cidr@.len(),
                    plan@ == seq![FilterOp::Allow(loopback(), 32)] + host_allowances(
                        allowed_ipv4@,
                    ) + range_allowances(allowed_cidr@.take(k as int)),
                decreases allowed_cidr@.len() - k,
            {
                plan.push(FilterOp::Allow(allowed_cidr[k].0, allowed_cidr[k].1));
                proof {
                    assert(range_allowances(allowed_cidr@.take(k + 1)) =~= range_allowances(
                        allowed_cidr@.take(k as int),
                    ).push(FilterOp::Allow(allowed_cidr@[k as int].0, allowed_cidr@[k as int].1)));
                    assert(plan@ =~= seq![FilterOp::Allow(loopback(), 32)] + host_allowances(
                        allowed_ipv4@,
                    ) + range_allowances(allowed_cidr@.take(k + 1)));
                }
                k = k + 1;
            }
            proof {
                assert(allowed_cidr@.take(k as int) =~= allowed_cidr@);
            }
        },
    }
    plan
}

/// Seeds the allow table for the policy: asks the controller for the
/// changes of the seed, in their order, and stops at the first that it
/// refuses.
pub fn seed_network<E: EbpfController>(ebpf: &mut E, policy: &Policy) -> (r: Result<
    (),
    MoriError,
>)
    requires
        old(ebpf).valid(),
    ensures
        final(ebpf).valid(),
        plan_outcome(
            filter_view(*old(ebpf)),
            filter_view(*final(ebpf)),
            seed_ops(policy.network@),
            r,
        ),
        r is Ok ==> forall|i: int|
            0 <= i < seed_ops(policy.network@).len() ==> op_in_range(
                #[trigger] seed_ops(policy.network@)[i],
            ),
{
    let plan = seed_plan(policy);
    run_plan(ebpf, &plan)
}

/// How the child ended.
#[derive(Clone, Copy, Debug, PartialEq, Eq, Structural)]
pub enum ChildStatus {
    /// It exited with this code.
    Exited(i32),
    /// This signal ended it.
    Signaled(i32),
    /// It changed state in another way.
    Other,
}

/// The exit code of the supervisor for a child that ended as `status`
/// says: the code of the child, or 128 and the number of the signal that
/// ended it.
pub open spec fn exit_code_of(status: ChildStatus) -> i32 {
    match status {
        ChildStatus::Exited(code) => code,
        ChildStatus::Signaled(signal) => if 0 <= signal <= 0x7FFF_FF7F {
            (128 + signal) as i32
        } else {
            -1i32
        },
        ChildStatus::Other => 0i32,
    }
}

/// The exit code of the supervisor for a child that ended as `status`
/// says.
pub fn exit_code(status: ChildStatus) -> (code: i32)
    ensures
        code == exit_code_of(status),
{
    match status {
        ChildStatus::Exited(code) => code,
        ChildStatus::Signaled(signal) => if 0 <= signal && signal <= 0x7FFF_FF7F {
            128 + signal
        } else {
            -1
        },
        ChildStatus::Other => 0,
    }
}

/// Where the launcher stands.
#[derive(Clone, Copy, Debug, PartialEq, Eq, Structural)]
pub enum LaunchState {
    Init,
    Parsed,
    Resolved,
    CgroupReady,
    FiltersAttached,
    Forked,
    ChildEnrolled,
    Refreshing,
    Exited,
    TornDown,
}

/// What the launcher is told.
#[derive(Clone, Copy, Debug, PartialEq, Eq, Structural)]
pub enum LaunchEvent {
    /// The policy is there.
    Parsed,
    /// The domains are resolved.
    Resolved,
    /// The cgroup is created.
    CgroupCreated,
    /// The filters are loaded, attached and seeded.
    FiltersAttached,
    /// The child is forked; it waits at the rendezvous.
    Forked,
    /// The child is in the cgroup and released.
    Enrolled,
    /// The refresh loop runs.
    RefreshSpawned,
    /// The child has ended.
    ChildExited(ChildStatus),
    /// The refresh loop is joined, the filters are detached and the cgroup
    /// is removed, as far as that went.
    TornDown,
    /// What was asked for last has failed.
    Failed,
}

/// What the launcher does next.
#[derive(Clone, Copy, Debug, PartialEq, Eq, Structural)]
pub enum LaunchAction {
    /// Resolve the domains of the policy and read the name servers.
    Resolve,
    /// Create the cgroup.
    CreateCgroup,
    /// Load, attach and seed the filters that are named.
    AttachFilters { network: bool, file: bool },
    /// Fork the child, which waits at the rendezvous.
    Fork,
    /// Write the child into the cgroup, then release it. Where the write
    /// fails, end the child before the pipe is closed, and report the
    /// failure.
    Enroll,
    /// Start the refresh loop.
    SpawnRefresh,
    /// Wait for the child to end.
    WaitChild,
    /// Signal shutdown to the refresh loop and join it where it runs, then
    /// detach the filters, then remove the cgroup.
    TearDown { join_refresh: bool },
    /// End with this exit code.
    Exit(i32),
    /// Give up: report the failure and tear down what was set up.
    /// `end_child` says that the child waits at the rendezvous: it has to
    /// be ended before the pipe is closed, so that it never runs the
    /// command without being enrolled.
    Abort { end_child: bool },
}

/// The launcher of one run.
#[derive(Clone, Copy, Debug, PartialEq, Eq, Structural)]
pub struct Launcher {
    pub state: LaunchState,
    /// Whether the policy asks for the network filter.
    pub network_filter: bool,
    /// Whether the policy asks for the file filter.
    pub file_filter: bool,
    /// Whether the policy names a domain.
    pub has_domains: bool,
    /// The exit code, once the child has ended.
    pub exit: i32,
}

/// The place of a state in the order of a run.
pub open spec fn rank(state: LaunchState) -> int {
    match state {
        LaunchState::Init => 0,
        LaunchState::Parsed => 1,
        LaunchState::Resolved => 2,
        LaunchState::CgroupReady => 3,
        LaunchState::FiltersAttached => 4,
        LaunchState::Forked => 5,
        LaunchState::ChildEnrolled => 6,
        LaunchState::Refreshing => 7,
        LaunchState::Exited => 8,
        LaunchState::TornDown => 9,
    }
}

/// Whether the launcher refreshes resolved addresses while the child runs:
/// it does where the network filter is on and the policy names a domain.
pub open spec fn refreshes(l: Launcher) -> bool {
    l.network_filter && l.has_domains
}

/// The state after `event`, and what to do then.
///
/// A policy that restricts nothing passes over resolution and attachment;
/// the cgroup is made and the child enrolled all the same. A failure before
/// the child has ended makes the launcher give up; where the child waits at
/// the rendezvous then, it is to be ended. A failure of the teardown does
/// not change the exit code. An event that the state does not expect makes
/// the launcher give up.
pub open spec fn launch_next(l: Launcher, event: LaunchEvent) -> (Launcher, LaunchAction) {
    let give_up = (
        Launcher { state: LaunchState::TornDown, ..l },
        LaunchAction::Abort { end_child: l.state == LaunchState::Forked },
    );
    match (l.state, event) {
        (LaunchState::Init, LaunchEvent::Parsed) => if l.network_filter {
            (Launcher { state: LaunchState::Parsed, ..l }, LaunchAction::Resolve)
        } else {
            (Launcher { state: LaunchState::Resolved, ..l }, LaunchAction::CreateCgroup)
        },
        (LaunchState::Parsed, LaunchEvent::Resolved) => (
            Launcher { state: LaunchState::Resolved, ..l },
            LaunchAction::CreateCgroup,
        ),
        (LaunchState::Resolved, LaunchEvent::CgroupCreated) => if l.network_filter
            || l.file_filter {
            (
                Launcher { state: LaunchState::CgroupReady, ..l },
                LaunchAction::AttachFilters { network: l.network_filter, file: l.file_filter },
            )
        } else {
            (Launcher { state: LaunchState::FiltersAttached, ..l }, LaunchAction::Fork)
        },
        (LaunchState::CgroupReady, LaunchEvent::FiltersAttached) => (
            Launcher { state: LaunchState::FiltersAttached, ..l },
            LaunchAction::Fork,
        ),
        (LaunchState::FiltersAttached, LaunchEvent::Forked) => (
            Launcher { state: LaunchState::Forked, ..l },
            LaunchAction::Enroll,
        ),
        (LaunchState::Forked, LaunchEvent::Enrolled) => (
            Launcher { state: LaunchState::ChildEnrolled, ..l },
            if refreshes(l) {
                LaunchAction::SpawnRefresh
            } else {
                LaunchAction::WaitChild
            },
        ),
        (LaunchState::ChildEnrolled, LaunchEvent::RefreshSpawned) => if refreshes(l) {
            (Launcher { state: LaunchState::Refreshing, ..l }, LaunchAction::WaitChild)
        } else {
            give_up
        },
        (LaunchState::ChildEnrolled, LaunchEvent::ChildExited(status)) => if refreshes(l) {
            give_up
        } else {
            (
                Launcher { state: LaunchState::Exited, exit: exit_code_of(status), ..l },
                LaunchAction::TearDown { join_refresh: false },
            )
        },
        (LaunchState::Refreshing, LaunchEvent::ChildExited(status)) => (
            Launcher { state: LaunchState::Exited, exit: exit_code_of(status), ..l },
            LaunchAction::TearDown { join_refresh: true },
        ),
        (LaunchState::Exited, LaunchEvent::TornDown) => (
            Launcher { state: LaunchState::TornDown, ..l },
            LaunchAction::Exit(l.exit),
        ),
        (LaunchState::Exited, LaunchEvent::Failed) => (
            Launcher { state: LaunchState::TornDown, ..l },
            LaunchAction::Exit(l.exit),
        ),
        _ => give_up,
    }
}

impl Launcher {
    /// The launcher for a run under `policy`, before its first step.
    pub fn new(policy: &Policy) -> (l: Launcher)
        ensures
            l.state == LaunchState::Init,
            l.network_filter == !(policy.network@ is All),
            l.file_filter == (policy.file@.len() > 0),
            l.has_domains == (policy.network@ is Entries && policy.network@->Entries_0.domains.len()
                > 0),
            l.exit == 0,
    {
        let has_domains = match &policy.network.policy {
            AllowPolicy::All => false,
            AllowPolicy::Entries { allowed_ipv4, allowed_cidr, allowed_domains } => allowed_domains.len()
                > 0,
        };
        Launcher {
            state: LaunchState::Init,
            network_filter: !policy.network.is_allow_all(),
            file_filter: policy.file.denied_paths.len() > 0,
            has_domains,
            exit: 0,
        }
    }

    /// Takes `event` in and says what to do next.
    pub fn step(&mut self, event: LaunchEvent) -> (action: LaunchAction)
        ensures
            (*final(self), action) == launch_next(*old(self), event),
    {
        let l = *self;
        let (next, action) = match (l.state, event) {
            (LaunchState::Init, LaunchEvent::Parsed) => if l.network_filter {
                (LaunchState::Parsed, LaunchAction::Resolve)
            } else {
                (LaunchState::Resolved, LaunchAction::CreateCgroup)
            },
            (LaunchState::Parsed, LaunchEvent::Resolved) => (
                LaunchState::Resolved,
                LaunchAction::CreateCgroup,
            ),
            (LaunchState::Resolved, LaunchEvent::CgroupCreated) => if l.network_filter
                || l.file_filter {
                (
                    LaunchState::CgroupReady,
                    LaunchAction::AttachFilters { network: l.network_filter, file: l.file_filter },
                )
            } else {
                (LaunchState::FiltersAttached, LaunchAction::Fork)
            },
            (LaunchState::CgroupReady, LaunchEvent::FiltersAttached) => (
                LaunchState::FiltersAttached,
                LaunchAction::Fork,
            ),
            (LaunchState::FiltersAttached, LaunchEvent::Forked) => (
                LaunchState::Forked,
                LaunchAction::Enroll,
            ),
            (LaunchState::Forked, LaunchEvent::Enrolled) => (
                LaunchState::ChildEnrolled,
                if l.network_filter && l.has_domains {
                    LaunchAction::SpawnRefresh
                } else {
                    LaunchAction::WaitChild
                },
            ),
            (LaunchState::ChildEnrolled, LaunchEvent::RefreshSpawned) => if l.network_filter
                && l.has_domains {
                (LaunchState::Refreshing, LaunchAction::WaitChild)
            } else {
                (LaunchState::TornDown, LaunchAction::Abort { end_child: false })
            },
            (LaunchState::ChildEnrolled, LaunchEvent::ChildExited(status)) => if l.network_filter
                && l.has_domains {
                (LaunchState::TornDown, LaunchAction::Abort { end_child: false })
            } else {
                self.exit = exit_code(status);
                (LaunchState::Exited, LaunchAction::TearDown { join_refresh: false })
            },
            (LaunchState::Refreshing, LaunchEvent::ChildExited(status)) => {
                self.exit = exit_code(status);
                (LaunchState::Exited, LaunchAction::TearDown { join_refresh: true })
            },
            (LaunchState::Exited, LaunchEvent::TornDown) => (
                LaunchState::TornDown,
                LaunchAction::Exit(l.exit),
            ),
            (LaunchState::Exited, LaunchEvent::Failed) => (
                LaunchState::TornDown,
                LaunchAction::Exit(l.exit),
            ),
            _ => (
                LaunchState::TornDown,
                LaunchAction::Abort { end_child: l.state == LaunchState::Forked },
            ),
        };
        self.state = next;
        action
    }
}

/// The launcher after the events, one after the other.
pub open spec fn launch_after(l: Launcher, events: Seq<LaunchEvent>) -> Launcher
    decreases events.len(),
{
    if events.len() == 0 {
        l
    } else {
        launch_next(launch_after(l, events.drop_last()), events.last()).0
    }
}

/// Whether the launcher begins a run.
pub open spec fn fresh(l: Launcher) -> bool {
    l.state == LaunchState::Init
}

/// Whether the state fits the policy: the refresh loop runs only where the
/// policy asks for it.
pub open spec fn consistent(l: Launcher) -> bool {
    l.state == LaunchState::Refreshing ==> refreshes(l)
}

/// Whatever events come, a launcher that began a run stays consistent.
pub proof fn lemma_run_consistent(l: Launcher, events: Seq<LaunchEvent>)
    requires
        fresh(l),
    ensures
        consistent(launch_after(l, events)),
        launch_after(l, events).network_filter == l.network_filter,
        launch_after(l, events).file_filter == l.file_filter,
        launch_after(l, events).has_domains == l.has_domains,
    decreases events.len(),
{
    if events.len() > 0 {
        lemma_run_consistent(l, events.drop_last());
    }
}

/// Every step moves the launcher on in the order of a run, or ends it: no
/// state comes twice.
pub proof fn lemma_step_advances(l: Launcher, event: LaunchEvent)
    requires
        l.state != LaunchState::TornDown,
    ensures
        rank(launch_next(l, event).0.state) > rank(l.state),
{
}

/// What each action rests on.
///
/// The child is forked only once the cgroup is there and the filters that
/// the policy asks for are attached. It is enrolled right after the fork.
/// The refresh loop is started only for a policy with the network filter
/// and a domain, and only once the child is enrolled. The launcher waits
/// for the child only once it is enrolled, and tears down only once it has
/// ended, joining the refresh loop exactly where one runs. It exits with
/// the code of the child. Where it gives up while the child waits at the
/// rendezvous, which is whenever anything but the enrollment follows the
/// fork, it asks for the child to be ended.
pub proof fn lemma_action_order(l: Launcher, event: LaunchEvent)
    requires
        consistent(l),
    ensures
        launch_next(l, event).1 is Fork ==> (event is FiltersAttached && l.state
            == LaunchState::CgroupReady) || (event is CgroupCreated && l.state
            == LaunchState::Resolved && !l.network_filter && !l.file_filter),
        launch_next(l, event).1 is AttachFilters ==> event is CgroupCreated && (l.network_filter
            || l.file_filter) && launch_next(l, event).1 == (LaunchAction::AttachFilters {
            network: l.network_filter,
            file: l.file_filter,
        }),
        launch_next(l, event).1 is Enroll ==> event is Forked && l.state
            == LaunchState::FiltersAttached,
        launch_next(l, event).1 is SpawnRefresh ==> event is Enrolled && refreshes(l),
        launch_next(l, event).1 is WaitChild ==> rank(launch_next(l, event).0.state) >= rank(
            LaunchState::ChildEnrolled,
        ) && (launch_next(l, event).0.state == LaunchState::Refreshing <==> refreshes(l)),
        launch_next(l, event).1 is TearDown ==> event is ChildExited && launch_next(l, event).0.exit
            == exit_code_of(event->ChildExited_0) && launch_next(l, event).1 == (
        LaunchAction::TearDown { join_refresh: refreshes(l) }),
        launch_next(l, event).1 is Exit ==> l.state == LaunchState::Exited && launch_next(
            l,
            event,
        ).1 == LaunchAction::Exit(l.exit),
        launch_next(l, event).1 is Abort ==> (launch_next(l, event).1->end_child <==> l.state
            == LaunchState::Forked),
        l.state == LaunchState::Forked && !(event is Enrolled) ==> launch_next(l, event).1 == (
        LaunchAction::Abort { end_child: true }),
{
}

/// The run that nothing disturbs: the events of a run, each answering the
/// action before it, lead from the start to the end, and the launcher
/// exits with the code of the child.
pub proof fn lemma_full_run(l: Launcher, status: ChildStatus)
    requires
        fresh(l),
    ensures
        ({
            let a = launch_next(l, LaunchEvent::Parsed);
            let b = if a.1 is Resolve {
                launch_next(a.0, LaunchEvent::Resolved)
            } else {
                a
            };
            let c = launch_next(b.0, LaunchEvent::CgroupCreated);
            let d = if c.1 is AttachFilters {
                launch_next(c.0, LaunchEvent::FiltersAttached)
            } else {
                c
            };
            let e = launch_next(d.0, LaunchEvent::Forked);
            let f = launch_next(e.0, LaunchEvent::Enrolled);
            let g = if f.1 is SpawnRefresh {
                launch_next(f.0, LaunchEvent::RefreshSpawned)
            } else {
                f
            };
            let h = launch_next(g.0, LaunchEvent::ChildExited(status));
            let i = launch_next(h.0, LaunchEvent::TornDown);
            &&& b.1 is CreateCgroup
            &&& d.1 is Fork
            &&& e.1 is Enroll
            &&& g.1 is WaitChild
            &&& h.1 == (LaunchAction::TearDown { join_refresh: refreshes(l) })
            &&& i.1 == LaunchAction::Exit(exit_code_of(status))
            &&& i.0.state == LaunchState::TornDown
            &&& (a.1 is Resolve <==> l.network_filter)
            &&& (c.1 is AttachFilters <==> l.network_filter || l.file_filter)
            &&& (f.1 is SpawnRefresh <==> refreshes(l))
        }),
{
}

} // verus!
