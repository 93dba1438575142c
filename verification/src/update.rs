//! Updating and disposing.
use crate::agenda::{
    advances, answers, cleans_up, cleanup_work, completes, deals, dealt_with, disposal,
    effect_work, is_gone, lemma_settled_is_clean, moment, property_work, reaches, source_work,
    updates, works_off, Call, Work, LIMIT,
};
use crate::keys::NodeId;
use crate::laws::settling::{lemma_disposed_is_gone, lemma_settle_clean_is_done};
use crate::node::{
    node_views, property_views, CleanupId, ReactiveNodeState, ReactiveNodeType, ScopeProperty,
};
use crate::runtime::Runtime;
use crate::secondary::value_or;
use crate::sets::{ids_in, set_get, set_len};
use crate::state::RuntimeState;
use vstd::prelude::*;

verus! {

/// A task.
pub(crate) enum Task {
    Settle(NodeId),
    Source { node: NodeId, source: NodeId },
    Refresh(NodeId),
    Properties(NodeId),
    Property(ScopeProperty),
    Cleanups(NodeId),
    Cleanup(CleanupId),
    Detach(NodeId),
    Update(NodeId),
    MarkClean(NodeId),
}

impl View for Task {
    type V = Work;

    open(crate) spec fn view(&self) -> Work {
        match *self {
            Task::Settle(node) => Work::Settle(node@),
            Task::Source { node, source } => Work::Source { node: node@, source: source@ },
            Task::Refresh(node) => Work::Refresh(node@),
            Task::Properties(node) => Work::Properties(node@),
            Task::Property(property) => Work::Property(property@),
            Task::Cleanups(node) => Work::Cleanups(node@),
            Task::Cleanup(cleanup) => Work::Cleanup(cleanup),
            Task::Detach(node) => Work::Detach(node@),
            Task::Update(node) => Work::Update(node@),
            Task::MarkClean(node) => Work::MarkClean(node@),
        }
    }
}

/// The tasks of a stack, the last one first.
spec fn agenda(stack: Seq<Task>) -> Seq<Work> {
    Seq::new(stack.len(), |i: int| stack[stack.len() - 1 - i]@)
}

proof fn lemma_agenda_push(stack: Seq<Task>, task: Task)
    ensures
        agenda(stack.push(task)) == seq![task@] + agenda(stack),
{
    assert(agenda(stack.push(task)) =~= seq![task@] + agenda(stack));
}

impl Runtime {
    /// Lets `f` run with a node as the owner and the observer.
    pub fn with_observer<T>(&mut self, observer: NodeId, f: impl FnOnce(&mut Runtime) -> T) -> (v: T)
        requires
            forall|runtime: &mut Runtime|
                runtime@ == old(self)@.observed_by(observer@) ==> #[trigger] f.requires((runtime,)),
        ensures
            exists|runtime: &mut Runtime| #[trigger]
                f.ensures((runtime,), v) && runtime@ == old(self)@.observed_by(observer@) && final(
                    self)@ == final(runtime)@.observed_as(old(self)@),
    {
        let prev_observer = self.observer.take();
        let prev_owner = self.owner.take();
        self.owner = Some(observer);
        self.observer = Some(observer);
        let v = f(self);
        self.observer = prev_observer;
        self.owner = prev_owner;
        v
    }

    /// Hands the runtime to the embedding program and takes it back.
    fn ask<W, F: Fn(Runtime, W, Call) -> (Runtime, W, bool)>(
        &mut self,
        world: W,
        call: &F,
        request: Call,
    ) -> (r: (W, bool))
        requires
            forall|runtime: Runtime, world: W, request: Call| #[trigger]
                call.requires((runtime, world, request)),
        ensures
            answers(*call, moment(old(self)@, world), request, moment(final(self)@, r.0), r.1),
    {
        let mut runtime = Runtime::new();
        std::mem::swap(self, &mut runtime);
        let (runtime, world, answer) = call(runtime, world, request);
        *self = runtime;
        (world, answer)
    }

    /// Runs a memo or an effect, tells its subscribers if its value has
    /// changed, and marks it as up to date. The value of a signal or a trigger
    /// is there already, so its subscribers are simply told.
    pub fn update<W, F: Fn(Runtime, W, Call) -> (Runtime, W, bool)>(
        &mut self,
        node_id: NodeId,
        world: W,
        call: &F,
    ) -> (after: W)
        requires
            forall|runtime: Runtime, world: W, request: Call| #[trigger]
                call.requires((runtime, world, request)),
        ensures
            updates(*call, moment(old(self)@, world), node_id@, moment(final(self)@, after)),
    {
        if let Some(node) = self.nodes.get(node_id) {
            let computation = match node.node_type {
                ReactiveNodeType::Signal => None,
                ReactiveNodeType::Trigger => None,
                ReactiveNodeType::Memo { f } => Some(f),
                ReactiveNodeType::Effect { f } => Some(f),
            };
            let (after, changed) = match computation {
                None => (world, true),
                Some(f) => {
                    let request = Call::Run { f, value: node.value };
                    let run = |runtime: &mut Runtime| -> (r: (W, bool))
                        ensures
                            answers(
                                *call,
                                moment(old(runtime)@.unsubscribed(node_id@), world),
                                request,
                                moment(final(runtime)@, r.0),
                                r.1,
                            ),
                        {
                            runtime.cleanup_sources(node_id);
                            runtime.ask(world, call, request)
                        };
                    self.with_observer(node_id, run)
                },
            };
            if changed {
                self.notify(node_id);
            }
            self.mark_clean(node_id);
            after
        } else {
            world
        }
    }

    /// Deals with the last task of a stack.
    fn step<W, F: Fn(Runtime, W, Call) -> (Runtime, W, bool)>(
        &mut self,
        stack: &mut Vec<Task>,
        world: W,
        call: &F,
    ) -> (after: W)
        requires
            old(stack).len() > 0,
            forall|runtime: Runtime, world: W, request: Call| #[trigger]
                call.requires((runtime, world, request)),
        ensures
            advances(
                *call,
                moment(old(self)@, world),
                agenda(old(stack)@),
                moment(final(self)@, after),
                agenda(final(stack)@),
            ),
    {
        let ghost before = stack@;
        let task = stack.pop();
        let ghost rest = stack@;
        let ghost mut more: Seq<Work> = Seq::empty();
        let mut now = world;
        if let Some(task) = task {
            assert(agenda(before).drop_first() =~= agenda(rest));
            assert(agenda(before).first() == task@);
            match task {
                Task::Settle(node) => {
                    stack.push(Task::Refresh(node));
                    proof {
                        lemma_agenda_push(rest, Task::Refresh(node));
                        more = seq![Work::Refresh(node@)];
                    }
                    if let ReactiveNodeState::Check = self.current_state(node) {
                        self.push_sources(node, stack);
                        proof {
                            more = source_work(node@, self@.sources_of(node@)).push(
                                Work::Refresh(node@),
                            );
                        }
                    }
                },
                Task::Source { node, source } => {
                    if self.current_state(node).rank() < ReactiveNodeState::Dirty.rank() {
                        stack.push(Task::Settle(source));
                        proof {
                            lemma_agenda_push(rest, Task::Settle(source));
                            more = seq![Work::Settle(source@)];
                        }
                    }
                },
                Task::Refresh(node) => {
                    stack.push(Task::MarkClean(node));
                    proof {
                        lemma_agenda_push(rest, Task::MarkClean(node));
                        more = seq![Work::MarkClean(node@)];
                    }
                    if self.current_state(node).rank() >= ReactiveNodeState::Dirty.rank() {
                        stack.push(Task::Update(node));
                        stack.push(Task::Properties(node));
                        stack.push(Task::Cleanups(node));
                        proof {
                            more = seq![
                                Work::Cleanups(node@),
                                Work::Properties(node@),
                                Work::Update(node@),
                                Work::MarkClean(node@),
                            ];
                        }
                    }
                },
                Task::Properties(node) => {
                    let properties = self.node_properties.remove(node);
                    if let Some(properties) = properties {
                        push_properties(&properties, stack);
                        proof {
                            more = property_work(property_views(properties@));
                        }
                    }
                    assert(more =~= property_work(
                        value_or(old(self)@.properties, node@, Seq::empty()),
                    ));
                },
                Task::Property(property) => {
                    match property {
                        ScopeProperty::Resource(id) => {
                            self.resources.remove(id);
                        },
                        ScopeProperty::StoredValue(id) => {
                            self.stored_values.remove(id);
                        },
                        ScopeProperty::Trigger(node) => {
                            push_disposal(node, stack);
                            proof {
                                more = disposal(node@);
                            }
                        },
                        ScopeProperty::Signal(node) => {
                            push_disposal(node, stack);
                            proof {
                                more = disposal(node@);
                            }
                        },
                        ScopeProperty::Effect(node) => {
                            push_disposal(node, stack);
                            proof {
                                more = disposal(node@);
                            }
                        },
                    }
                },
                Task::Cleanups(node) => {
                    let cleanups = self.on_cleanups.remove(node);
                    if let Some(cleanups) = cleanups {
                        push_cleanups(&cleanups, stack);
                        proof {
                            more = cleanup_work(cleanups@);
                        }
                    }
                    assert(more =~= cleanup_work(
                        value_or(old(self)@.cleanups, node@, Seq::empty()),
                    ));
                },
                Task::Cleanup(cleanup) => {
                    let (next, _) = self.ask(now, call, Call::Cleanup(cleanup));
                    now = next;
                    assert(cleans_up(
                        *call,
                        moment(old(self)@, world),
                        cleanup,
                        moment(self@, now),
                    ));
                },
                Task::Detach(node) => {
                    self.detach(node);
                },
                Task::Update(node) => {
                    now = self.update(node, now, call);
                },
                Task::MarkClean(node) => {
                    self.mark_clean(node);
                },
            }
            proof {
                if !(task is Cleanup || task is Update) {
                    assert(self@ =~= dealt_with(old(self)@, task@).0);
                    assert(more =~= dealt_with(old(self)@, task@).1);
                }
            }
            assert(deals(
                *call,
                moment(old(self)@, world),
                task@,
                moment(self@, now),
                more,
            ));
            assert(agenda(stack@) =~= more + agenda(rest));
        }
        now
    }

    /// Deals with all the tasks of a stack, the last one first, and with those
    /// that come of them. Gives up once it has dealt with as many as the limit
    /// allows.
    fn work_off<W, F: Fn(Runtime, W, Call) -> (Runtime, W, bool)>(
        &mut self,
        tasks: Vec<Task>,
        world: W,
        call: &F,
    ) -> (r: (W, bool))
        requires
            forall|runtime: Runtime, world: W, request: Call| #[trigger]
                call.requires((runtime, world, request)),
        ensures
            works_off(
                *call,
                moment(old(self)@, world),
                agenda(tasks@),
                moment(final(self)@, r.0),
                r.1,
            ),
    {
        let mut stack = tasks;
        let mut now = world;
        let mut steps: u64 = 0;
        while stack.len() > 0
            invariant
                forall|runtime: Runtime, world: W, request: Call| #[trigger]
                    call.requires((runtime, world, request)),
                reaches(
                    *call,
                    moment(old(self)@, world),
                    agenda(tasks@),
                    steps as nat,
                    moment(self@, now),
                    agenda(stack@),
                ),
            decreases LIMIT - steps,
        {
            if steps == LIMIT {
                assert(agenda(stack@).len() > 0);
                return (now, false);
            }
            now = self.step(&mut stack, now, call);
            steps += 1;
        }
        proof {
            reveal(completes);
            assert(agenda(stack@) =~= Seq::empty());
        }
        (now, true)
    }

    /// Brings a node up to date.
    ///
    /// A node that is to be checked first has its sources brought up to date,
    /// one after the other, until one of them makes it dirty. A node that is
    /// dirty by then has its cleanup functions run and its properties disposed
    /// of, and is updated. In the end it is clean.
    ///
    /// Returns the embedding program, and whether the work is done. It is not,
    /// with the node and its sources halfway, after as many tasks as the limit
    /// allows.
    pub fn update_if_necessary<W, F: Fn(Runtime, W, Call) -> (Runtime, W, bool)>(
        &mut self,
        node_id: NodeId,
        world: W,
        call: &F,
    ) -> (r: (W, bool))
        requires
            forall|runtime: Runtime, world: W, request: Call| #[trigger]
                call.requires((runtime, world, request)),
        ensures
            works_off(
                *call,
                moment(old(self)@, world),
                seq![Work::Settle(node_id@)],
                moment(final(self)@, r.0),
                r.1,
            ),
            r.1 ==> final(self)@.state_of(node_id@) == ReactiveNodeState::Clean,
            old(self)@.state_of(node_id@) == ReactiveNodeState::Clean ==> r.1 && r.0 == world
                && final(self)@ == old(self)@,
    {
        let mut tasks: Vec<Task> = Vec::new();
        tasks.push(Task::Settle(node_id));
        assert(agenda(tasks@) =~= seq![Work::Settle(node_id@)]);
        let (after, done) = self.work_off(tasks, world, call);
        proof {
            let first = moment(old(self)@, world);
            let last = moment(self@, after);
            if done {
                lemma_settled_is_clean(*call, first, node_id@, last);
            }
            if old(self)@.state_of(node_id@) == ReactiveNodeState::Clean {
                lemma_settle_clean_is_done(*call, first, node_id@, last, done);
            }
        }
        (after, done)
    }

    /// Brings the queued effects up to date, in the order of the queue, unless
    /// effects are being held back.
    ///
    /// Returns the embedding program, and whether the work is done. It is not,
    /// with some of the effects left, after as many tasks as the limit allows.
    pub fn run_effects<W, F: Fn(Runtime, W, Call) -> (Runtime, W, bool)>(
        &mut self,
        world: W,
        call: &F,
    ) -> (r: (W, bool))
        requires
            forall|runtime: Runtime, world: W, request: Call| #[trigger]
                call.requires((runtime, world, request)),
        ensures
            old(self)@.batching ==> r.1 && r.0 == world && final(self)@ == old(self)@,
            !old(self)@.batching ==> works_off(
                *call,
                moment((RuntimeState { pending_effects: Seq::empty(), ..old(self)@ }), world),
                effect_work(old(self)@.pending_effects),
                moment(final(self)@, r.0),
                r.1,
            ),
    {
        if self.batching {
            return (world, true);
        }
        let mut effects: Vec<NodeId> = Vec::new();
        std::mem::swap(&mut self.pending_effects, &mut effects);
        let ghost views = node_views(effects@);
        let mut tasks: Vec<Task> = Vec::new();
        let mut i: usize = effects.len();
        assert(agenda(tasks@) =~= effect_work(views.skip(i as int)));
        while i > 0
            invariant
                i <= effects.len(),
                views == node_views(effects@),
                agenda(tasks@) == effect_work(views.skip(i as int)),
            decreases i,
        {
            i -= 1;
            let ghost before = tasks@;
            let task = Task::Settle(effects[i]);
            tasks.push(task);
            proof {
                lemma_agenda_push(before, task);
                assert(agenda(tasks@) =~= effect_work(views.skip(i as int)));
            }
        }
        assert(views.skip(0) =~= views);
        assert(self@ =~= RuntimeState { pending_effects: Seq::empty(), ..old(self)@ });
        self.work_off(tasks, world, call)
    }

    /// Disposes of a property. A node first has its own properties disposed of,
    /// then its cleanup functions run, and is then taken out of the graph.
    ///
    /// Returns the embedding program, and whether the work is done. It is not,
    /// with some of it left, after as many tasks as the limit allows.
    pub fn cleanup_property<W, F: Fn(Runtime, W, Call) -> (Runtime, W, bool)>(
        &mut self,
        property: ScopeProperty,
        world: W,
        call: &F,
    ) -> (r: (W, bool))
        requires
            forall|runtime: Runtime, world: W, request: Call| #[trigger]
                call.requires((runtime, world, request)),
        ensures
            works_off(
                *call,
                moment(old(self)@, world),
                seq![Work::Property(property@)],
                moment(final(self)@, r.0),
                r.1,
            ),
            r.1 ==> is_gone(final(self)@, property@),
    {
        let mut tasks: Vec<Task> = Vec::new();
        tasks.push(Task::Property(property));
        assert(agenda(tasks@) =~= seq![Work::Property(property@)]);
        let (after, done) = self.work_off(tasks, world, call);
        proof {
            if done {
                lemma_disposed_is_gone(
                    *call,
                    moment(old(self)@, world),
                    property@,
                    moment(self@, after),
                );
            }
        }
        (after, done)
    }

    /// Plans to bring the sources of a node up to date, the first one first.
    fn push_sources(&self, node: NodeId, stack: &mut Vec<Task>)
        ensures
            agenda(final(stack)@) == source_work(node@, self@.sources_of(node@)) + agenda(
                old(stack)@,
            ),
    {
        if let Some(sources) = self.node_sources.get(node) {
            let mut i: usize = set_len(sources);
            let ghost ids = ids_in(*sources);
            assert(source_work(node@, ids.skip(i as int)) + agenda(stack@) =~= agenda(stack@));
            while i > 0
                invariant
                    i <= ids.len(),
                    ids == ids_in(*sources),
                    agenda(stack@) == source_work(node@, ids.skip(i as int)) + agenda(old(stack)@),
                decreases i,
            {
                i -= 1;
                if let Some(source) = set_get(sources, i) {
                    let ghost before = stack@;
                    stack.push(Task::Source { node, source });
                    proof {
                        lemma_agenda_push(before, Task::Source { node, source });
                        assert(source_work(node@, ids.skip(i as int)) =~= seq![
                            Work::Source { node: node@, source: source@ },
                        ] + source_work(node@, ids.skip(i + 1)));
                    }
                }
                assert(agenda(stack@) =~= source_work(node@, ids.skip(i as int)) + agenda(
                    old(stack)@,
                ));
            }
            assert(ids.skip(0) =~= ids);
        }
        assert(agenda(stack@) =~= source_work(node@, self@.sources_of(node@)) + agenda(
            old(stack)@,
        ));
    }
}

/// Plans to dispose of a node.
fn push_disposal(node: NodeId, stack: &mut Vec<Task>)
    ensures
        agenda(final(stack)@) == disposal(node@) + agenda(old(stack)@),
{
    stack.push(Task::Detach(node));
    stack.push(Task::Cleanups(node));
    stack.push(Task::Properties(node));
    assert(agenda(stack@) =~= disposal(node@) + agenda(old(stack)@));
}

/// Plans to dispose of properties, the first one first.
fn push_properties(properties: &Vec<ScopeProperty>, stack: &mut Vec<Task>)
    ensures
        agenda(final(stack)@) == property_work(property_views(properties@)) + agenda(old(stack)@),
{
    let mut i: usize = properties.len();
    let ghost views = property_views(properties@);
    assert(property_work(views.skip(i as int)) + agenda(stack@) =~= agenda(stack@));
    while i > 0
        invariant
            i <= properties.len(),
            views == property_views(properties@),
            agenda(stack@) == property_work(views.skip(i as int)) + agenda(old(stack)@),
        decreases i,
    {
        i -= 1;
        let ghost before = stack@;
        let task = Task::Property(properties[i]);
        stack.push(task);
        proof {
            lemma_agenda_push(before, task);
            assert(property_work(views.skip(i as int)) =~= seq![task@] + property_work(
                views.skip(i + 1),
            ));
            assert(agenda(stack@) =~= property_work(views.skip(i as int)) + agenda(old(stack)@));
        }
    }
    assert(views.skip(0) =~= views);
}

/// Plans to run cleanup functions, the first one first.
fn push_cleanups(cleanups: &Vec<CleanupId>, stack: &mut Vec<Task>)
    ensures
        agenda(final(stack)@) == cleanup_work(cleanups@) + agenda(old(stack)@),
{
    let mut i: usize = cleanups.len();
    assert(cleanup_work(cleanups@.skip(i as int)) + agenda(stack@) =~= agenda(stack@));
    while i > 0
        invariant
            i <= cleanups.len(),
            agenda(stack@) == cleanup_work(cleanups@.skip(i as int)) + agenda(old(stack)@),
        decreases i,
    {
        i -= 1;
        let ghost before = stack@;
        let task = Task::Cleanup(cleanups[i]);
        stack.push(task);
        proof {
            lemma_agenda_push(before, task);
            assert(cleanup_work(cleanups@.skip(i as int)) =~= seq![task@] + cleanup_work(
                cleanups@.skip(i + 1),
            ));
            assert(agenda(stack@) =~= cleanup_work(cleanups@.skip(i as int)) + agenda(old(stack)@));
        }
    }
    assert(cleanups@.skip(0) =~= cleanups@);
}

} // verus!
