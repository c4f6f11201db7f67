//! The runtime membrane as the string functions see it.
//!
//! What the runtime answers while one call is served is a plain value,
//! [`Runtime`]; what a call asks and reports is appended to the log of
//! [`Membrane`], in order. The trace scopes around `memcpy`, `memcmp` and `strlen`
//! are not logged: whoever makes the call opens them.
use vstd::prelude::*;
use crate::memory::Ptr;

verus! {

/// A stage of the pointer check at which a call can leave. Stages at which no
/// string function leaves are numbered.
#[derive(Clone, Copy, Debug, PartialEq, Eq, Structural)]
pub enum CheckStage {
    Null,
    Arena,
    Bounds,
    Other(u8),
}

/// What the policy decided for a call.
#[derive(Clone, Copy, Debug, PartialEq, Eq, Structural)]
pub enum MembraneAction {
    Allow,
    FullValidate,
    Repair,
    Deny,
}

/// A repair of the arguments or the result of a call.
#[derive(Clone, Copy, Debug, PartialEq, Eq, Structural)]
pub enum HealingAction {
    ClampSize { requested: usize, clamped: usize },
    TruncateWithNull { requested: usize, truncated: usize },
    Unchanged,
}

/// The cost that a call reports: a fixed amount, or one scaled by a length.
#[derive(Clone, Copy, Debug, PartialEq, Eq, Structural)]
pub enum Cost {
    Flat(u64),
    Scaled(u64, usize),
}

/// What a call asks of the policy.
#[derive(Clone, Copy, Debug, PartialEq, Eq, Structural)]
pub struct Query {
    pub addr: usize,
    pub len: usize,
    pub write: bool,
    pub untracked: bool,
}

/// One exchange of a call with the runtime.
#[derive(Clone, Copy, Debug, PartialEq, Eq, Structural)]
pub enum Event {
    /// The policy was asked for a decision.
    Decide(Query),
    /// The healing policy was asked to bound a copy.
    HealCopyBounds { requested: usize, src: Option<usize>, dst: Option<usize> },
    /// A repair was recorded.
    Heal(HealingAction),
    /// The outcome of the staged check: the index of the stage at which the
    /// call left, or `None` where it ran through.
    Outcome { aligned: bool, recent_page: bool, exit: Option<usize> },
    /// A copy of `len` bytes was tried as a hardware transaction.
    Transaction { len: usize },
    /// The allocator was asked for a block.
    Alloc { size: usize },
    /// Cost and verdict were reported.
    Observe { cost: Cost, adverse: bool },
}

/// What the runtime answers while one call is served.
#[derive(Clone, Copy, Debug)]
pub struct Runtime {
    /// Start-up is not finished.
    pub bootstrap: bool,
    /// The policy's thread-local state is being accessed.
    pub policy_tls: bool,
    /// The threading layer's thread-local state is being accessed.
    pub pthread_tls: bool,
    /// The allocator is on the call stack.
    pub allocator_reentry: bool,
    /// The pointer validator is on the call stack.
    pub validation: bool,
    /// The runtime is initialised.
    pub ready: bool,
    /// The policy is on the call stack.
    pub policy_reentry: bool,
    /// The threading layer is on the call stack.
    pub threading_policy: bool,
    /// Calls pass without validation.
    pub strict: bool,
    /// The mode repairs calls.
    pub heals: bool,
    /// A proof on record covers the call.
    pub proof_carried: bool,
    /// Hardware transactions are tried wherever they can be.
    pub htm_forced: bool,
    /// A hardware transaction commits.
    pub htm_commits: bool,
    /// The decision of the policy.
    pub action: MembraneAction,
    /// The answer of the healing policy on a copy's bounds.
    pub clamp: HealingAction,
    /// Its answer on the bounds of a needle.
    pub needle_clamp: HealingAction,
    /// The order in which the check runs its stages.
    pub order: [CheckStage; 7],
}

/// The runtime's answers, the depth of nested guarded calls and the log.
pub struct Membrane {
    pub rt: Runtime,
    pub depth: u32,
    pub log: Vec<Event>,
}

/// The first place of `stage` in `order`, or `0`.
#[verifier::opaque]
pub open spec fn stage_place(order: Seq<CheckStage>, stage: CheckStage) -> usize {
    if exists|i: int| 0 <= i < order.len() && #[trigger] order[i] == stage {
        (choose|i: int|
            0 <= i < order.len() && #[trigger] order[i] == stage && forall|j: int|
                0 <= j < i ==> #[trigger] order[j] != stage) as usize
    } else {
        0
    }
}

/// The first place of `stage` in `order`, or `0` where it does not occur.
pub fn stage_index(order: &[CheckStage; 7], stage: CheckStage) -> (r: usize)
    ensures
        r == stage_place(order@, stage),
        r < 7,
{
    let mut i: usize = 0;
    while i < 7
        invariant
            i <= 7,
            forall|j: int| 0 <= j < i ==> #[trigger] order@[j] != stage,
        decreases 7 - i,
    {
        if order[i] == stage {
            proof {
                reveal(stage_place);
                assert(order@[i as int] == stage);
                let k = choose|k: int|
                    0 <= k < order@.len() && #[trigger] order@[k] == stage && forall|j: int|
                        0 <= j < k ==> #[trigger] order@[j] != stage;
                if i < k {
                    assert(order@[i as int] != stage);
                }
            }
            return i;
        }
        i += 1;
    }
    reveal(stage_place);
    0
}

/// Both addresses are multiples of eight.
pub open spec fn both_aligned(a: usize, b: usize) -> bool {
    a % 8 == 0 && b % 8 == 0
}

/// Alignment and recency of one pointer.
pub fn stage_context_one(p: Ptr) -> (r: (bool, bool))
    ensures
        r.0 == (p.addr % 8 == 0),
        r.1 == (!p.null() && p.owned),
{
    let a: usize = p.addr;
    assert((a & 7) == a % 8) by (bit_vector);
    ((a & 0x7) == 0, a != 0 && p.owned)
}

/// Alignment and recency of two pointers.
pub fn stage_context_two(p: Ptr, q: Ptr) -> (r: (bool, bool))
    ensures
        r.0 == both_aligned(p.addr, q.addr),
        r.1 == ((!p.null() && p.owned) || (!q.null() && q.owned)),
{
    let a: usize = p.addr;
    let b: usize = q.addr;
    assert((((a | b) & 7) == 0) == (a % 8 == 0 && b % 8 == 0)) by (bit_vector);
    (((a | b) & 0x7) == 0, (a != 0 && p.owned) || (b != 0 && q.owned))
}

impl Runtime {
    /// Calls bypass the membrane because it, or what it builds on, is active.
    pub open spec fn raw(self) -> bool {
        self.bootstrap || self.policy_tls || self.pthread_tls || self.allocator_reentry
            || self.validation
    }

    /// The arguments of the call are repaired.
    pub open spec fn repairs(self) -> bool {
        self.heals || self.action is Repair
    }

    pub open spec fn denies(self) -> bool {
        self.action is Deny
    }

    /// Where a repairing call stops reading or writing at `p`.
    pub open spec fn bound(self, p: Ptr) -> Option<usize> {
        if self.repairs() {
            p.remaining
        } else {
            None
        }
    }

    /// Where a call stops reading or writing at `p`: nowhere in strict mode.
    pub open spec fn reach(self, p: Ptr) -> Option<usize> {
        if self.strict {
            None
        } else {
            self.bound(p)
        }
    }

    /// The call is carried out: validation is off, or does not deny it.
    pub open spec fn serves(self) -> bool {
        self.strict || !self.denies()
    }

    /// The staged check of one pointer ended at `stage`.
    pub open spec fn outcome_one(self, p: Ptr, stage: CheckStage) -> Event {
        Event::Outcome {
            aligned: p.addr % 8 == 0,
            recent_page: !p.null() && p.owned,
            exit: Some(stage_place(self.order@, stage)),
        }
    }

    /// The staged check of two pointers ended at `stage`.
    pub open spec fn outcome_two(self, p: Ptr, q: Ptr, stage: CheckStage) -> Event {
        Event::Outcome {
            aligned: both_aligned(p.addr, q.addr),
            recent_page: (!p.null() && p.owned) || (!q.null() && q.owned),
            exit: Some(stage_place(self.order@, stage)),
        }
    }

    /// The staged check of two blocks ended at `stage`, or ran through. A block
    /// counts as recent where its allocation is tracked.
    pub open spec fn outcome_blocks(self, p: Ptr, q: Ptr, stage: Option<CheckStage>) -> Event {
        Event::Outcome {
            aligned: both_aligned(p.addr, q.addr),
            recent_page: (!p.null() && p.remaining is Some) || (!q.null() && q.remaining is Some),
            exit: match stage {
                Some(s) => Some(stage_place(self.order@, s)),
                None => None,
            },
        }
    }

    /// What a copy of `requested` bytes is cut to.
    pub open spec fn clamped(self, requested: usize) -> usize {
        if self.repairs() && requested != 0 {
            match self.clamp {
                HealingAction::ClampSize { requested: _, clamped } => clamped,
                _ => requested,
            }
        } else {
            requested
        }
    }

    /// Whether a copy of `requested` bytes is cut.
    pub open spec fn clamps(self, requested: usize) -> bool {
        self.repairs() && requested != 0 && self.clamp is ClampSize
    }

    /// What is asked and recorded when a copy's bounds are healed.
    pub open spec fn clamp_events(
        self,
        requested: usize,
        src: Option<usize>,
        dst: Option<usize>,
    ) -> Seq<Event> {
        clamp_log(self.repairs(), self.clamp, requested, src, dst)
    }
}

/// What is asked and recorded when a copy's bounds are healed to `clamp`.
pub open spec fn clamp_log(
    repairs: bool,
    clamp: HealingAction,
    requested: usize,
    src: Option<usize>,
    dst: Option<usize>,
) -> Seq<Event> {
    if !repairs || requested == 0 {
        seq![]
    } else if clamp is ClampSize {
        seq![Event::HealCopyBounds { requested, src, dst }, Event::Heal(clamp)]
    } else {
        seq![Event::HealCopyBounds { requested, src, dst }]
    }
}

/// The question about a call of `len` bytes on one pointer.
pub open spec fn question_one(p: Ptr, len: usize, write: bool) -> Query {
    Query { addr: p.addr, len, write, untracked: p.remaining is None }
}

/// The question about a call of `len` bytes on two pointers, the first of which
/// it names.
pub open spec fn question_two(p: Ptr, q: Ptr, len: usize, write: bool) -> Query {
    Query {
        addr: p.addr,
        len,
        write,
        untracked: p.remaining is None && q.remaining is None,
    }
}

/// The exchange in which a call on one pointer asks the policy.
pub open spec fn ask_one(p: Ptr, len: usize, write: bool) -> Event {
    Event::Decide(question_one(p, len, write))
}

/// The exchange in which a call on two pointers asks the policy.
pub open spec fn ask_two(p: Ptr, q: Ptr, len: usize, write: bool) -> Event {
    Event::Decide(question_two(p, q, len, write))
}

/// The question about a call of `len` bytes on one pointer.
pub fn query_one(p: Ptr, len: usize, write: bool) -> (r: Query)
    ensures
        r == question_one(p, len, write),
{
    Query { addr: p.addr, len, write, untracked: p.remaining.is_none() }
}

/// The question about a call of `len` bytes on two pointers, the first of which
/// it names.
pub fn query_two(p: Ptr, q: Ptr, len: usize, write: bool) -> (r: Query)
    ensures
        r == question_two(p, q, len, write),
{
    Query {
        addr: p.addr,
        len,
        write,
        untracked: p.remaining.is_none() && q.remaining.is_none(),
    }
}

/// A report of cost and verdict.
pub open spec fn report(cost: Cost, adverse: bool) -> Event {
    Event::Observe { cost, adverse }
}

/// A truncation of `requested` bytes to `truncated`.
pub open spec fn truncation(requested: usize, truncated: usize) -> Event {
    Event::Heal(HealingAction::TruncateWithNull { requested, truncated })
}

/// Whether the arguments of a call are repaired.
pub fn repair_enabled(heals_enabled: bool, action: MembraneAction) -> (r: bool)
    ensures
        r == (heals_enabled || action is Repair),
{
    heals_enabled || matches!(action, MembraneAction::Repair)
}

/// The destination size that a repairing call may use, and whether it is
/// smaller than the requested one.
pub fn clamp_destination_size_for_repair(
    requested: usize,
    dst_remaining: Option<usize>,
    repair: bool,
) -> (r: (usize, bool))
    ensures
        r.0 == dest_limit(requested, dst_remaining, repair),
        r.1 == (r.0 < requested),
{
    if !repair {
        return (requested, false);
    }
    match dst_remaining {
        Some(bound) => if bound < requested {
            (bound, true)
        } else {
            (requested, false)
        },
        None => (requested, false),
    }
}

/// `requested`, cut to what is known to remain where calls are repaired.
pub open spec fn dest_limit(requested: usize, remaining: Option<usize>, repair: bool) -> usize {
    match remaining {
        Some(b) => if repair && b < requested {
            b
        } else {
            requested
        },
        None => requested,
    }
}

/// As [`clamp_destination_size_for_repair`].
pub fn clamp_destination_size_for_tests(
    requested: usize,
    dst_remaining: Option<usize>,
    repair: bool,
) -> (r: (usize, bool))
    ensures
        r.0 == dest_limit(requested, dst_remaining, repair),
        r.1 == (r.0 < requested),
{
    clamp_destination_size_for_repair(requested, dst_remaining, repair)
}

/// Cutting a size that was cut already changes nothing.
pub proof fn law_clamp_twice(requested: usize, remaining: Option<usize>, repair: bool)
    ensures
        dest_limit(dest_limit(requested, remaining, repair), remaining, repair) == dest_limit(
            requested,
            remaining,
            repair,
        ),
        dest_limit(requested, remaining, repair) <= requested,
{
}

impl Membrane {
    /// A membrane that nothing was exchanged with.
    pub fn new(rt: Runtime) -> (r: Membrane)
        ensures
            r.rt == rt,
            r.depth == 0,
            r.log@.len() == 0,
    {
        Membrane { rt, depth: 0, log: Vec::new() }
    }

    /// `self` is `before` after the exchanges `events`.
    pub open spec fn follows(self, before: Membrane, events: Seq<Event>) -> bool {
        &&& self.rt == before.rt
        &&& self.depth == before.depth
        &&& self.log@ =~= before.log@ + events
    }

    /// A guarded call may start.
    pub open spec fn enters(self) -> bool {
        &&& !self.rt.raw()
        &&& self.rt.ready ==> !self.rt.policy_reentry && (self.rt.pthread_tls
            || !self.rt.threading_policy)
        &&& self.depth == 0
    }

    /// Whether calls bypass the membrane.
    pub fn string_raw_passthrough_active(&self) -> (r: bool)
        ensures
            r == self.rt.raw(),
    {
        self.rt.bootstrap || self.rt.policy_tls || self.rt.pthread_tls || self.rt.allocator_reentry
            || self.rt.validation
    }

    /// Starts a guarded call: `false`, and nothing changes, where the membrane
    /// is bypassed, busy or already entered.
    pub fn enter_string_membrane_guard(&mut self) -> (r: bool)
        ensures
            r == old(self).enters(),
            final(self).depth == if r {
                1
            } else {
                old(self).depth
            },
            final(self).rt == old(self).rt,
            final(self).log == old(self).log,
    {
        if self.string_raw_passthrough_active() {
            return false;
        }
        if self.rt.ready {
            if self.rt.policy_reentry {
                return false;
            }
            if !self.rt.pthread_tls && self.rt.threading_policy {
                return false;
            }
        }
        if self.depth > 0 {
            false
        } else {
            self.depth = self.depth + 1;
            true
        }
    }

    /// Ends a guarded call.
    pub fn leave_string_membrane_guard(&mut self)
        ensures
            final(self).depth == if old(self).depth == 0 {
                0
            } else {
                old(self).depth - 1
            },
            final(self).rt == old(self).rt,
            final(self).log == old(self).log,
    {
        self.depth = self.depth.saturating_sub(1);
    }

    /// Whether the arguments of the call are repaired.
    pub fn repairs(&self) -> (r: bool)
        ensures
            r == self.rt.repairs(),
    {
        repair_enabled(self.rt.heals, self.rt.action)
    }

    /// Where a repairing call stops at `p`.
    pub fn bound(&self, p: Ptr) -> (r: Option<usize>)
        ensures
            r == self.rt.bound(p),
    {
        if self.repairs() {
            p.remaining
        } else {
            None
        }
    }

    pub(crate) fn note(&mut self, e: Event)
        ensures
            final(self).follows(*old(self), seq![e]),
    {
        self.log.push(e);
    }

    pub(crate) fn outcome_one(&mut self, p: Ptr, stage: CheckStage)
        ensures
            final(self).follows(*old(self), seq![old(self).rt.outcome_one(p, stage)]),
    {
        let (aligned, recent_page) = stage_context_one(p);
        let exit: usize = stage_index(&self.rt.order, stage);
        self.note(Event::Outcome { aligned, recent_page, exit: Some(exit) });
    }

    pub(crate) fn outcome_two(&mut self, p: Ptr, q: Ptr, stage: CheckStage)
        ensures
            final(self).follows(*old(self), seq![old(self).rt.outcome_two(p, q, stage)]),
    {
        let (aligned, recent_page) = stage_context_two(p, q);
        let exit: usize = stage_index(&self.rt.order, stage);
        self.note(Event::Outcome { aligned, recent_page, exit: Some(exit) });
    }

    pub(crate) fn outcome_blocks(&mut self, p: Ptr, q: Ptr, stage: Option<CheckStage>)
        ensures
            final(self).follows(*old(self), seq![old(self).rt.outcome_blocks(p, q, stage)]),
    {
        let (aligned, _owned) = stage_context_two(p, q);
        let recent_page: bool = (!p.is_null() && p.remaining.is_some()) || (!q.is_null()
            && q.remaining.is_some());
        let exit: Option<usize> = match stage {
            Some(s) => Some(stage_index(&self.rt.order, s)),
            None => None,
        };
        self.note(Event::Outcome { aligned, recent_page, exit });
    }

    pub(crate) fn observe(&mut self, cost: Cost, adverse: bool)
        ensures
            final(self).follows(*old(self), seq![Event::Observe { cost, adverse }]),
    {
        self.note(Event::Observe { cost, adverse });
    }

    /// Records that `requested` bytes were cut to `truncated`.
    pub(crate) fn record_truncation(&mut self, requested: usize, truncated: usize)
        ensures
            final(self).follows(*old(self), seq![truncation(requested, truncated)]),
    {
        self.note(Event::Heal(HealingAction::TruncateWithNull { requested, truncated }));
    }

    /// Asks the policy about the call; `false` where it is denied.
    pub(crate) fn decide(&mut self, q: Query) -> (r: bool)
        ensures
            r == !old(self).rt.denies(),
            final(self).follows(*old(self), seq![Event::Decide(q)]),
    {
        self.note(Event::Decide(q));
        !matches!(self.rt.action, MembraneAction::Deny)
    }

    /// Asks about a call on one pointer; `false` where it is denied.
    pub(crate) fn ask_one(&mut self, p: Ptr, len: usize, write: bool) -> (r: bool)
        ensures
            r == !old(self).rt.denies(),
            final(self).follows(*old(self), seq![ask_one(p, len, write)]),
    {
        self.decide(query_one(p, len, write))
    }

    /// Asks about a call on two pointers; `false` where it is denied.
    pub(crate) fn ask_two(&mut self, p: Ptr, q: Ptr, len: usize, write: bool) -> (r: bool)
        ensures
            r == !old(self).rt.denies(),
            final(self).follows(*old(self), seq![ask_two(p, q, len, write)]),
    {
        self.decide(query_two(p, q, len, write))
    }

    /// Bounds a copy by what the healing policy answers.
    pub(crate) fn maybe_clamp_copy_len(
        &mut self,
        requested: usize,
        src: Option<usize>,
        dst: Option<usize>,
    ) -> (r: (usize, bool))
        ensures
            r.0 == old(self).rt.clamped(requested),
            r.1 == old(self).rt.clamps(requested),
            final(self).follows(*old(self), old(self).rt.clamp_events(requested, src, dst)),
    {
        let clamp: HealingAction = self.rt.clamp;
        self.clamp_copy_len_to(clamp, requested, src, dst)
    }

    /// Bounds a copy by the healing policy's answer `clamp`.
    pub(crate) fn clamp_copy_len_to(
        &mut self,
        clamp: HealingAction,
        requested: usize,
        src: Option<usize>,
        dst: Option<usize>,
    ) -> (r: (usize, bool))
        ensures
            r.1 == (old(self).rt.repairs() && requested != 0 && clamp is ClampSize),
            r.0 == if r.1 {
                clamp->clamped
            } else {
                requested
            },
            final(self).follows(
                *old(self),
                clamp_log(old(self).rt.repairs(), clamp, requested, src, dst),
            ),
    {
        if !self.repairs() || requested == 0 {
            return (requested, false);
        }
        self.note(Event::HealCopyBounds { requested, src, dst });
        match clamp {
            HealingAction::ClampSize { requested: _, clamped } => {
                self.note(Event::Heal(clamp));
                (clamped, true)
            },
            _ => (requested, false),
        }
    }
}

/// A guarded call that is entered and left puts the depth back, and while it
/// runs no other one starts.
pub proof fn law_guard_is_exclusive(before: Membrane, inside: Membrane)
    requires
        before.enters(),
        inside.rt == before.rt,
        inside.depth == 1,
    ensures
        !inside.enters(),
        inside.depth - 1 == before.depth,
{
}

/// Whether a length scan skips validation, looking at every bypass.
pub fn strlen_gate_old_for_bench(cx: &Membrane) -> (r: bool)
    ensures
        r == (cx.rt.raw() || cx.rt.strict),
{
    cx.string_raw_passthrough_active() || cx.rt.strict
}

/// Whether a length scan skips validation, looking at the start-up bypass only.
pub fn strlen_gate_new_for_bench(cx: &Membrane) -> (r: bool)
    ensures
        r == (cx.rt.bootstrap || cx.rt.strict),
{
    cx.rt.bootstrap || cx.rt.strict
}

/// In strict mode the two gates agree.
pub proof fn law_gates_agree_when_strict(rt: Runtime)
    requires
        rt.strict,
    ensures
        (rt.raw() || rt.strict) == (rt.bootstrap || rt.strict),
{
}

/// A call that is allowed without repairs reads and writes as far as a strict one
/// does, whatever is known of its pointers.
pub proof fn law_unrepaired_calls_reach_like_strict_ones(rt: Runtime, strict: Runtime, p: Ptr)
    requires
        !rt.repairs(),
        strict.strict,
    ensures
        rt.reach(p) == strict.reach(p),
        forall|n: usize| #[trigger] rt.clamped(n) == n,
{
}

/// How far a string may be read: to its NUL where calls are strict or not
/// repaired, and else also no further than its allocation.
pub proof fn law_reach_is_the_allocation_of_repaired_calls(rt: Runtime, p: Ptr)
    ensures
        rt.strict ==> rt.reach(p) is None,
        !rt.heals && !(rt.action is Repair) ==> rt.reach(p) is None,
        !rt.strict && (rt.heals || rt.action is Repair) ==> rt.reach(p) == p.remaining,
        !rt.strict ==> rt.bound(p) == rt.reach(p),
{
}

/// A call is refused exactly where it is not strict and the policy denies it.
pub proof fn law_only_denied_calls_are_refused(rt: Runtime)
    ensures
        !rt.serves() <==> !rt.strict && rt.action is Deny,
{
}

/// A size is cut to the allocation only in a repaired call, and only where the
/// allocation is smaller.
pub proof fn law_destination_size_is_the_smaller(requested: usize, b: usize)
    ensures
        dest_limit(requested, Some(b), true) <= requested,
        dest_limit(requested, Some(b), true) <= b,
        dest_limit(requested, Some(b), true) == requested || dest_limit(requested, Some(b), true)
            == b,
        dest_limit(requested, Some(b), false) == requested,
        dest_limit(requested, None, true) == requested,
        dest_limit(requested, None, false) == requested,
{
}

/// A size is clamped to the answer of the healing policy only in a repaired call,
/// and never a size of zero.
pub proof fn law_clamped_size_is_the_answer(rt: Runtime, n: usize, k: usize)
    requires
        rt.clamp matches HealingAction::ClampSize { requested: _, clamped } && clamped == k,
    ensures
        n > 0 && (rt.heals || rt.action is Repair) ==> rt.clamped(n) == k && rt.clamps(n),
        n == 0 || (!rt.heals && !(rt.action is Repair)) ==> rt.clamped(n) == n && !rt.clamps(n),
{
}

/// The place of a check in the order is the first one that holds it, and zero
/// where none does.
pub proof fn law_stage_place_is_the_first(order: Seq<CheckStage>, stage: CheckStage, i: int)
    requires
        order.len() <= usize::MAX,
        0 <= i <= order.len(),
        forall|j: int| 0 <= j < i ==> #[trigger] order[j] != stage,
    ensures
        i < order.len() && order[i] == stage ==> stage_place(order, stage) == i,
        i == order.len() ==> stage_place(order, stage) == 0,
{
    reveal(stage_place);
    if i < order.len() && order[i] == stage {
        let p = choose|p: int|
            0 <= p < order.len() && #[trigger] order[p] == stage && forall|j: int|
                0 <= j < p ==> #[trigger] order[j] != stage;
        assert(0 <= p < order.len() && order[p] == stage && forall|j: int|
            0 <= j < p ==> #[trigger] order[j] != stage) by {
            assert(order[i] == stage);
        }
        assert(p == i) by {
            if p < i {
                assert(order[p] != stage);
            } else if i < p {
                assert(order[i] != stage);
            }
        }
    }
}

/// Calls pass around the membrane during start-up, while thread-local state of
/// the policy or the threading layer is accessed, and inside the allocator or the
/// validator; and only then.
pub proof fn law_calls_around_the_membrane(rt: Runtime)
    ensures
        rt.bootstrap ==> rt.raw(),
        rt.policy_tls ==> rt.raw(),
        rt.pthread_tls ==> rt.raw(),
        rt.allocator_reentry ==> rt.raw(),
        rt.validation ==> rt.raw(),
        rt.raw() ==> rt.bootstrap || rt.policy_tls || rt.pthread_tls || rt.allocator_reentry
            || rt.validation,
{
}

/// A call enters the membrane only from outside of it, and from outside of the
/// policy and the threading layer once the runtime is initialised.
pub proof fn law_membrane_is_entered_from_outside(cx: Membrane)
    ensures
        cx.enters() ==> cx.depth == 0 && !cx.rt.raw(),
        cx.enters() && cx.rt.ready ==> !cx.rt.policy_reentry && !cx.rt.threading_policy,
        !cx.rt.raw() && cx.depth == 0 && !cx.rt.ready ==> cx.enters(),
        !cx.rt.raw() && cx.depth == 0 && !cx.rt.policy_reentry && !cx.rt.threading_policy
            ==> cx.enters(),
{
}

/// The policy is asked first, with this question, and not again.
pub open spec fn asks(events: Seq<Event>, q: Query) -> bool {
    &&& events.len() > 0
    &&& events[0] == Event::Decide(q)
    &&& forall|i: int| 0 < i < events.len() ==> !((#[trigger] events[i]) is Decide)
}

/// What a trace that ends in a report and an outcome, in either order, says in the
/// report: whether the call was adverse.
pub open spec fn verdict(events: Seq<Event>) -> Option<bool> {
    let n = events.len() as int;
    if n >= 2 && events[n - 1] is Observe && events[n - 2] is Outcome {
        Some(events[n - 1]->adverse)
    } else if n >= 2 && events[n - 1] is Outcome && events[n - 2] is Observe {
        Some(events[n - 2]->adverse)
    } else {
        None
    }
}

/// The stage at which such a trace leaves the check.
pub open spec fn exit_of(events: Seq<Event>) -> Option<usize> {
    let n = events.len() as int;
    if n >= 2 && events[n - 1] is Observe && events[n - 2] is Outcome {
        events[n - 2]->exit
    } else if n >= 1 && events[n - 1] is Outcome {
        events[n - 1]->exit
    } else {
        None
    }
}

/// A repair is recorded right behind the question.
pub open spec fn healed(events: Seq<Event>) -> bool {
    events.len() > 1 && events[1] is Heal
}

} // verus!
