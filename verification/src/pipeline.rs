//! The order of start-up and teardown as a state machine. The machine
//! decides; the caller acts: it performs the stage that the machine names
//! and reports how that went.
use vstd::prelude::*;

verus! {

/// A stage of the life of an application. A stage with a number belongs
/// to the initializer at that place of the registry.
#[derive(Debug, Clone, Copy, PartialEq, Eq, Structural)]
pub enum Stage {
    /// The application may replace the context.
    AfterContext,
    /// The application prepares to run.
    BeforeRun,
    /// The application lists its initializers.
    Initializers,
    /// One initializer prepares to run.
    InitializerBeforeRun(usize),
    /// The application builds the base router.
    BeforeRoutes,
    /// The declared routes are merged onto the base router.
    Routes,
    /// One initializer wraps the router.
    InitializerAfterRoutes(usize),
    /// The application wraps the router a last time.
    AfterRoutes,
    /// Start-up is complete and the router is with the serving runtime.
    Serving,
    /// The application cleans up.
    OnShutdown,
    /// Teardown is complete.
    Stopped,
    /// Start-up failed and was given up.
    Failed,
}

/// What the caller reports to the machine.
#[derive(Debug, Clone, Copy, PartialEq, Eq, Structural)]
pub enum Event {
    /// The current stage succeeded.
    Done,
    /// The current stage succeeded and listed this many initializers.
    Listed(usize),
    /// The current stage failed.
    Failed,
    /// The serving runtime asks for teardown.
    Teardown,
}

/// The state of the machine: the current stage and the size of the
/// registry, which is zero until the initializers are listed.
pub struct Progress {
    pub stage: Stage,
    pub registry: usize,
}

/// The state before anything has run.
pub open spec fn initial() -> Progress {
    Progress { stage: Stage::AfterContext, registry: 0 }
}

/// A stage of an initializer names a place of the registry.
pub open spec fn well_formed(p: Progress) -> bool {
    match p.stage {
        Stage::InitializerBeforeRun(i) => i < p.registry,
        Stage::InitializerAfterRoutes(i) => i < p.registry,
        _ => true,
    }
}

/// The place of a stage in the order of a life with `registry`
/// initializers. Start-up runs from place 0 up to `Serving` without
/// leaving a place out.
pub open spec fn rank(stage: Stage, registry: usize) -> int {
    match stage {
        Stage::AfterContext => 0,
        Stage::BeforeRun => 1,
        Stage::Initializers => 2,
        Stage::InitializerBeforeRun(i) => 3 + i,
        Stage::BeforeRoutes => 3 + registry,
        Stage::Routes => 4 + registry,
        Stage::InitializerAfterRoutes(i) => 5 + registry + i,
        Stage::AfterRoutes => 5 + 2 * registry,
        Stage::Serving => 6 + 2 * registry,
        Stage::OnShutdown => 7 + 2 * registry,
        Stage::Stopped => 8 + 2 * registry,
        Stage::Failed => 9 + 2 * registry,
    }
}

/// Whether a stage belongs to start-up, so that it can fail.
pub open spec fn starting(stage: Stage) -> bool {
    !(stage is Serving || stage is OnShutdown || stage is Stopped || stage is Failed)
}

/// The stage that follows a stage of start-up that succeeded.
pub open spec fn successor(stage: Stage, registry: usize) -> Stage {
    match stage {
        Stage::AfterContext => Stage::BeforeRun,
        Stage::BeforeRun => Stage::Initializers,
        Stage::Initializers => if registry == 0 {
            Stage::BeforeRoutes
        } else {
            Stage::InitializerBeforeRun(0)
        },
        Stage::InitializerBeforeRun(i) => if i + 1 < registry {
            Stage::InitializerBeforeRun((i + 1) as usize)
        } else {
            Stage::BeforeRoutes
        },
        Stage::BeforeRoutes => Stage::Routes,
        Stage::Routes => if registry == 0 {
            Stage::AfterRoutes
        } else {
            Stage::InitializerAfterRoutes(0)
        },
        Stage::InitializerAfterRoutes(i) => if i + 1 < registry {
            Stage::InitializerAfterRoutes((i + 1) as usize)
        } else {
            Stage::AfterRoutes
        },
        Stage::AfterRoutes => Stage::Serving,
        other => other,
    }
}

/// The state after an event.
///
/// During start-up a success moves on to the next stage, a failure gives
/// start-up up, and a request for teardown is not heard. The size of the
/// registry is set when the initializers are listed. While serving, only
/// a request for teardown is heard. Cleaning up ends in `Stopped` however
/// it went, and a second request for teardown is not heard. `Stopped` and
/// `Failed` are final.
pub open spec fn step(p: Progress, event: Event) -> Progress {
    match p.stage {
        Stage::Stopped | Stage::Failed => p,
        Stage::Serving => if event is Teardown {
            Progress { stage: Stage::OnShutdown, registry: p.registry }
        } else {
            p
        },
        Stage::OnShutdown => if event is Teardown {
            p
        } else {
            Progress { stage: Stage::Stopped, registry: p.registry }
        },
        _ => match event {
            Event::Teardown => p,
            Event::Failed => Progress { stage: Stage::Failed, registry: p.registry },
            _ => {
                let registry = if p.stage is Initializers {
                    match event {
                        Event::Listed(n) => n,
                        _ => 0,
                    }
                } else {
                    p.registry
                };
                Progress { stage: successor(p.stage, registry), registry }
            },
        },
    }
}

/// What the caller is to do after an event: perform the stage that was
/// entered, or nothing where the event was not heard.
pub open spec fn action(p: Progress, event: Event) -> Option<Stage> {
    if step(p, event).stage != p.stage {
        Some(step(p, event).stage)
    } else {
        None
    }
}

/// The state after the first `k` of the given events.
pub open spec fn after(p: Progress, events: Seq<Event>, k: int) -> Progress
    decreases k,
{
    if k <= 0 {
        p
    } else {
        step(after(p, events, k - 1), events[k - 1])
    }
}

/// What the caller is to do after event number `k`.
pub open spec fn action_at(p: Progress, events: Seq<Event>, k: int) -> Option<Stage> {
    action(after(p, events, k), events[k])
}

/// A stage of start-up that succeeds is followed by the stage one place
/// further in the order, and no stage is entered but by one step: the
/// stages of start-up run in the order of their places, each once.
pub proof fn lemma_success_moves_one_place(p: Progress, event: Event)
    requires
        well_formed(p),
        starting(p.stage),
        event is Done || event is Listed,
    ensures
        rank(step(p, event).stage, step(p, event).registry) == rank(p.stage, p.registry) + 1,
        !(p.stage is Initializers) ==> step(p, event).registry == p.registry,
        p.stage is Initializers ==> step(p, event).registry == match event {
            Event::Listed(n) => n,
            _ => 0,
        },
        action(p, event) == Some(step(p, event).stage),
        !(step(p, event).stage is Failed),
{
}

/// A step keeps the state well formed.
pub proof fn lemma_step_well_formed(p: Progress, event: Event)
    requires
        well_formed(p),
    ensures
        well_formed(step(p, event)),
{
}

/// The place of a stage tells the stage: in a life with a given registry
/// no two stages share a place.
pub proof fn lemma_rank_tells_stage(a: Progress, b: Progress)
    requires
        well_formed(a),
        well_formed(b),
        a.registry == b.registry,
        rank(a.stage, a.registry) == rank(b.stage, b.registry),
    ensures
        a.stage == b.stage,
{
}

/// The base router is built before the declared routes are merged, and
/// both come before any initializer wraps the router and before the
/// application wraps it; every initializer prepares before the base
/// router is built; and the initializers wrap in the order of the
/// registry. This holds of an empty registry as of any other.
pub proof fn lemma_order_of_stages(registry: usize, i: usize, j: usize)
    ensures
        rank(Stage::BeforeRun, registry) < rank(Stage::Initializers, registry),
        rank(Stage::BeforeRoutes, registry) < rank(Stage::Routes, registry),
        rank(Stage::Routes, registry) < rank(Stage::AfterRoutes, registry),
        rank(Stage::AfterRoutes, registry) < rank(Stage::Serving, registry),
        i < registry ==> rank(Stage::Initializers, registry) < rank(
            Stage::InitializerBeforeRun(i),
            registry,
        ) < rank(Stage::BeforeRoutes, registry),
        i < registry ==> rank(Stage::Routes, registry) < rank(
            Stage::InitializerAfterRoutes(i),
            registry,
        ) < rank(Stage::AfterRoutes, registry),
        i < j < registry ==> rank(Stage::InitializerBeforeRun(i), registry) < rank(
            Stage::InitializerBeforeRun(j),
            registry,
        ),
        i < j < registry ==> rank(Stage::InitializerAfterRoutes(i), registry) < rank(
            Stage::InitializerAfterRoutes(j),
            registry,
        ),
{
}

/// A step never goes back in the order. Where the stage changes, the
/// place grows and the caller is told the stage entered; where it does
/// not, nothing changes and the caller is told nothing.
pub proof fn lemma_step_goes_forward(p: Progress, event: Event)
    requires
        well_formed(p),
    ensures
        step(p, event).stage != p.stage ==> rank(step(p, event).stage, step(p, event).registry)
            > rank(p.stage, p.registry),
        step(p, event).stage == p.stage ==> step(p, event) == p,
        rank(p.stage, p.registry) > 2 ==> step(p, event).registry == p.registry,
{
}

/// A failure during start-up gives start-up up at once, whatever the
/// stage, and what was given up stays so: no later event is heard and
/// the caller is never again told to perform a stage.
pub proof fn lemma_failure_is_final(p: Progress, events: Seq<Event>, k: int)
    requires
        starting(p.stage),
        0 <= k < events.len(),
    ensures
        step(p, Event::Failed).stage == Stage::Failed,
        after(step(p, Event::Failed), events, k).stage == Stage::Failed,
        action_at(step(p, Event::Failed), events, k) is None,
    decreases k,
{
    if k > 0 {
        lemma_failure_is_final(p, events, k - 1);
    }
}

/// The states of a run are well formed and never go back in the order.
pub proof fn lemma_run_goes_forward(p: Progress, events: Seq<Event>, from: int, to: int)
    requires
        well_formed(p),
        0 <= from <= to <= events.len(),
    ensures
        well_formed(after(p, events, to)),
        rank(after(p, events, from).stage, after(p, events, from).registry) <= rank(
            after(p, events, to).stage,
            after(p, events, to).registry,
        ),
        rank(after(p, events, from).stage, after(p, events, from).registry) > 2 ==> after(
            p,
            events,
            to,
        ).registry == after(p, events, from).registry,
    decreases to,
{
    if to == 0 {
    } else if from == to {
        lemma_run_goes_forward(p, events, from - 1, to - 1);
        lemma_step_well_formed(after(p, events, to - 1), events[to - 1]);
    } else {
        lemma_run_goes_forward(p, events, from, to - 1);
        lemma_step_well_formed(after(p, events, to - 1), events[to - 1]);
        lemma_step_goes_forward(after(p, events, to - 1), events[to - 1]);
    }
}

/// Whatever is reported and however often teardown is asked for, the
/// caller is told to clean up at most once in a life, and cleaning up
/// ends in `Stopped` whether it is reported as done or as failed.
pub proof fn lemma_shutdown_at_most_once(p: Progress, events: Seq<Event>, i: int, j: int)
    requires
        well_formed(p),
        0 <= i < j < events.len(),
        action_at(p, events, i) == Some(Stage::OnShutdown),
    ensures
        action_at(p, events, j) != Some(Stage::OnShutdown),
        step(after(p, events, i + 1), Event::Done).stage == Stage::Stopped,
        step(after(p, events, i + 1), Event::Failed).stage == Stage::Stopped,
{
    let entered = after(p, events, i + 1);
    let later = after(p, events, j);
    assert(entered == step(after(p, events, i), events[i]));
    assert(entered.stage == Stage::OnShutdown);
    lemma_run_goes_forward(p, events, i + 1, j);
    lemma_step_goes_forward(later, events[j]);
}

/// In a run from the initial state, an initializer wraps the router only
/// after the base router was built and after the declared routes were
/// merged onto it, in that order.
pub proof fn lemma_routes_before_layers(events: Seq<Event>, k: int, i: usize)
    requires
        0 <= k <= events.len(),
        after(initial(), events, k).stage == Stage::InitializerAfterRoutes(i)
            || after(initial(), events, k).stage == Stage::AfterRoutes,
    ensures
        exists|a: int, b: int|
            0 <= a < b < k && (#[trigger] after(initial(), events, a)).stage
                == Stage::BeforeRoutes && (#[trigger] after(initial(), events, b)).stage
                == Stage::Routes,
{
    let reached = after(initial(), events, k);
    lemma_run_goes_forward(initial(), events, 0, k);
    let b = lemma_passed_through(events, k, 4 + reached.registry);
    let a = lemma_passed_through(events, b, 3 + reached.registry);
    lemma_run_goes_forward(initial(), events, 0, a);
    lemma_run_goes_forward(initial(), events, 0, b);
    lemma_rank_tells_stage(
        after(initial(), events, a),
        Progress { stage: Stage::BeforeRoutes, registry: reached.registry },
    );
    lemma_rank_tells_stage(
        after(initial(), events, b),
        Progress { stage: Stage::Routes, registry: reached.registry },
    );
}

/// A run from the initial state that has reached a stage of start-up or
/// `Serving` has been at every place before it: at the place `place`
/// after some earlier number of events.
pub proof fn lemma_passed_through(events: Seq<Event>, k: int, place: int) -> (at: int)
    requires
        0 <= k <= events.len(),
        !(after(initial(), events, k).stage is Failed),
        0 <= place <= rank(after(initial(), events, k).stage, after(initial(), events, k).registry),
        place <= 6 + 2 * after(initial(), events, k).registry,
    ensures
        0 <= at <= k,
        rank(after(initial(), events, at).stage, after(initial(), events, at).registry) == place,
        !(after(initial(), events, at).stage is Failed),
        place > 2 ==> after(initial(), events, at).registry == after(initial(), events, k).registry,
        at == k <==> place == rank(
            after(initial(), events, k).stage,
            after(initial(), events, k).registry,
        ),
    decreases k,
{
    let reached = after(initial(), events, k);
    if place == rank(reached.stage, reached.registry) {
        k
    } else {
        assert(k > 0);
        let before = after(initial(), events, k - 1);
        lemma_run_goes_forward(initial(), events, 0, k - 1);
        lemma_step_goes_forward(before, events[k - 1]);
        if before.stage == reached.stage {
            lemma_passed_through(events, k - 1, place)
        } else {
            assert(rank(reached.stage, reached.registry) == rank(before.stage, before.registry)
                + 1);
            lemma_passed_through(events, k - 1, place)
        }
    }
}

/// The pipeline of one application: where its life stands.
#[derive(Debug, PartialEq, Eq)]
pub struct Pipeline {
    stage: Stage,
    registry: usize,
}

impl View for Pipeline {
    type V = Progress;

    closed spec fn view(&self) -> Progress {
        Progress { stage: self.stage, registry: self.registry }
    }
}

impl Pipeline {
    #[verifier::type_invariant]
    spec fn valid(&self) -> bool {
        well_formed(self@)
    }

    /// A pipeline before anything has run.
    pub fn new() -> (r: Pipeline)
        ensures
            r@ == initial(),
    {
        Pipeline { stage: Stage::AfterContext, registry: 0 }
    }

    /// The current stage.
    pub fn stage(&self) -> (r: Stage)
        ensures
            r == self@.stage,
            well_formed(self@),
    {
        proof {
            use_type_invariant(self);
        }
        self.stage
    }

    /// The number of initializers, zero until they are listed.
    pub fn registry(&self) -> (r: usize)
        ensures
            r == self@.registry,
    {
        self.registry
    }

    /// Takes an event in and tells the caller what to do: to perform the
    /// stage that was entered, or nothing where the event was not heard.
    pub fn advance(&mut self, event: Event) -> (r: Option<Stage>)
        ensures
            final(self)@ == step(old(self)@, event),
            r == action(old(self)@, event),
            well_formed(final(self)@),
    {
        proof {
            use_type_invariant(&*self);
        }
        let stage = self.stage;
        let next = match stage {
            Stage::Stopped | Stage::Failed => stage,
            Stage::Serving => match event {
                Event::Teardown => Stage::OnShutdown,
                _ => stage,
            },
            Stage::OnShutdown => match event {
                Event::Teardown => stage,
                _ => Stage::Stopped,
            },
            _ => match event {
                Event::Teardown => stage,
                Event::Failed => Stage::Failed,
                _ => {
                    if let Stage::Initializers = stage {
                        self.registry = match event {
                            Event::Listed(n) => n,
                            _ => 0,
                        };
                    }
                    Self::next_stage(stage, self.registry)
                },
            },
        };
        self.stage = next;
        if next == stage {
            None
        } else {
            Some(next)
        }
    }

    /// The stage that follows a stage of start-up that succeeded.
    fn next_stage(stage: Stage, registry: usize) -> (r: Stage)
        requires
            well_formed(Progress { stage, registry }) || stage is Initializers,
        ensures
            r == successor(stage, registry),
    {
        match stage {
            Stage::AfterContext => Stage::BeforeRun,
            Stage::BeforeRun => Stage::Initializers,
            Stage::Initializers => if registry == 0 {
                Stage::BeforeRoutes
            } else {
                Stage::InitializerBeforeRun(0)
            },
            Stage::InitializerBeforeRun(i) => if i + 1 < registry {
                Stage::InitializerBeforeRun(i + 1)
            } else {
                Stage::BeforeRoutes
            },
            Stage::BeforeRoutes => Stage::Routes,
            Stage::Routes => if registry == 0 {
                Stage::AfterRoutes
            } else {
                Stage::InitializerAfterRoutes(0)
            },
            Stage::InitializerAfterRoutes(i) => if i + 1 < registry {
                Stage::InitializerAfterRoutes(i + 1)
            } else {
                Stage::AfterRoutes
            },
            Stage::AfterRoutes => Stage::Serving,
            other => other,
        }
    }
}

} // verus!
