//! The scheduler: a strict-priority, round-robin-on-ties state machine over
//! the task pool.
//!
//! All task containers — one ready list per priority, the time-ordered
//! sleeping list, the terminated list and every event's pending list — share
//! the single task pool, and the scheduler's invariant keeps them pairwise
//! disjoint. The hardware collaborators (context-switch trampoline, timer
//! interrupt, memory protection) drive this state machine from outside:
//! the timer calls [`Scheduler::tick_update`], and the trampoline calls
//! [`Scheduler::switch_context`] with the paused task's stack pointer and
//! receives the next task's one.

use vstd::prelude::*;
use crate::conf;
use crate::event;
use crate::event::Event;
use crate::linked_list::{LinkedList, StaticListPool, InsertOrder, sorted_by};
use crate::pool_allocator;
use crate::task::{Task, Transition};

verus! {

/// Sleeping-list order: earlier wake time first.
pub struct WakeOrder;

impl InsertOrder<Task> for WakeOrder {
    open spec fn precedes(a: Task, b: Task) -> bool {
        a.next_wut < b.next_wut
    }

    fn check(a: &Task, b: &Task) -> (r: bool) {
        a.next_wut < b.next_wut
    }
}

/// Pending-list order: the numerically smallest (most urgent) priority first.
pub struct PriorityOrder;

impl InsertOrder<Task> for PriorityOrder {
    open spec fn precedes(a: Task, b: Task) -> bool {
        a.priority.0 < b.priority.0
    }

    fn check(a: &Task, b: &Task) -> (r: bool) {
        a.priority.0 < b.priority.0
    }
}

/// The number of priority levels, as a specification value.
pub open spec fn prios() -> int {
    conf::TASK_PRIORITIES as int
}

/// Length of the longest prefix of the sleeping list whose wake times have
/// elapsed at `now`. The sleeping list is sorted by wake time, so exactly
/// this prefix is due.
pub open spec fn due_count(s: Seq<Task>, now: u64) -> int
    decreases s.len(),
{
    if s.len() == 0 {
        0
    } else if s[0].next_wut <= now {
        1 + due_count(s.drop_first(), now)
    } else {
        0
    }
}

/// The due prefix is pinned down by its boundary: everything before `k` is
/// due, and the element at `k`, if any, is not.
pub proof fn lemma_due_count_boundary(s: Seq<Task>, now: u64, k: int)
    requires
        0 <= k <= s.len(),
        forall|m: int| 0 <= m < k ==> (#[trigger] s[m]).next_wut <= now,
        k < s.len() ==> s[k].next_wut > now,
    ensures
        due_count(s, now) == k,
    decreases s.len(),
{
    if s.len() > 0 {
        if k == 0 {
        } else {
            assert(s[0].next_wut <= now);
            let d = s.drop_first();
            assert forall|m: int| 0 <= m < k - 1 implies (#[trigger] d[m]).next_wut <= now by {
                assert(s[m + 1].next_wut <= now);
            }
            lemma_due_count_boundary(d, now, k - 1);
        }
    }
}

/// Filtering a sequence extended by one element keeps the old filtered part
/// and appends the element exactly when it satisfies the predicate.
pub proof fn lemma_filter_push<A>(s: Seq<A>, pred: spec_fn(A) -> bool, x: A)
    ensures
        s.push(x).filter(pred) == if pred(x) {
            s.filter(pred).push(x)
        } else {
            s.filter(pred)
        },
{
    assert(s.push(x).drop_last() =~= s);
    assert(s.push(x).last() == x);
    reveal(Seq::filter);
}

/// The kernel's scheduler state.
pub struct Scheduler {
    task_pool: StaticListPool<Task>,
    task_running: Option<Task>,
    tasks_ready: Vec<LinkedList<Task>>,
    tasks_sleeping: LinkedList<Task>,
    tasks_terminated: LinkedList<Task>,
    events: Vec<Event>,
    event_counter: usize,
    tick_count: u64,
}

impl Scheduler {
    /// The task that currently runs, if any (`None` only during boot).
    pub closed spec fn spec_running(self) -> Option<Task> {
        self.task_running
    }

    /// The ready queue of priority `p`, front first.
    pub closed spec fn ready_view(self, p: int) -> Seq<Task> {
        self.tasks_ready@[p].view_in(self.task_pool)
    }

    /// The sleeping list, earliest wake time first.
    pub closed spec fn sleeping_view(self) -> Seq<Task> {
        self.tasks_sleeping.view_in(self.task_pool)
    }

    /// The terminated list, oldest first.
    pub closed spec fn terminated_view(self) -> Seq<Task> {
        self.tasks_terminated.view_in(self.task_pool)
    }

    /// Number of registered events.
    pub closed spec fn events_len(self) -> nat {
        self.events@.len()
    }

    /// Identifier of the `j`-th registered event.
    pub closed spec fn event_id_at(self, j: int) -> usize {
        self.events@[j].id
    }

    /// The pending list of the `j`-th registered event, most urgent first.
    pub closed spec fn pending_view(self, j: int) -> Seq<Task> {
        self.events@[j].pending.view_in(self.task_pool)
    }

    /// All ready queues at once, by priority.
    pub open spec fn ready_views(self) -> Seq<Seq<Task>> {
        Seq::new(prios() as nat, |p: int| self.ready_view(p))
    }

    /// The strict-priority pick: `pp` is the lowest-numbered non-empty level
    /// of `mid`, `chosen` is the front of that queue (ties broken in arrival
    /// order), and `fin` is `mid` with that front removed.
    pub open spec fn picks(mid: Seq<Seq<Task>>, fin: Seq<Seq<Task>>, chosen: Task, pp: int) -> bool {
        &&& 0 <= pp < mid.len()
        &&& forall|p: int| 0 <= p < pp ==> (#[trigger] mid[p]).len() == 0
        &&& mid[pp].len() > 0
        &&& chosen == mid[pp][0]
        &&& fin == mid.update(pp, mid[pp].drop_first())
    }

    /// Some ready queue holds a task.
    pub open spec fn some_ready(self) -> bool {
        exists|p: int| 0 <= p < prios() && (#[trigger] self.ready_view(p)).len() > 0
    }

    /// Whether an event with identifier `id` is registered.
    pub open spec fn event_exists(self, id: usize) -> bool {
        exists|j: int| 0 <= j < self.events_len() && self.event_id_at(j) == id
    }

    /// The current tick count.
    pub closed spec fn spec_now(self) -> u64 {
        self.tick_count
    }

    /// The last event identifier handed out.
    pub closed spec fn spec_event_counter(self) -> usize {
        self.event_counter
    }

    /// Number of tasks the kernel holds: the members of all lists plus the
    /// running one.
    pub closed spec fn task_count(self) -> int {
        crate::array_pool::live_slots(self.task_pool@) + if self.task_running is Some {
            1int
        } else {
            0int
        }
    }

    /// The fixed task budget: no more than this many tasks can exist at once.
    pub closed spec fn task_capacity(self) -> int {
        self.task_pool@.len() as int
    }

    /// Number of task containers: the ready lists, the sleeping and the
    /// terminated list, and one pending list per event.
    pub closed spec fn n_lists(self) -> int {
        prios() + 2 + self.events@.len()
    }

    /// The `a`-th task container.
    pub closed spec fn list_at(self, a: int) -> LinkedList<Task> {
        if a < prios() {
            self.tasks_ready@[a]
        } else if a == prios() {
            self.tasks_sleeping
        } else if a == prios() + 1 {
            self.tasks_terminated
        } else {
            self.events@[a - prios() - 2].pending
        }
    }

    /// A task stored in any container is admissible: its priority is a real
    /// level, and its one-shot transition has been consumed (a stored task
    /// never carries a pending disposition).
    pub open spec fn stored_task_ok(t: Task) -> bool {
        &&& (t.priority.0 as int) < prios()
        &&& t.transition is Ready
    }

    /// Structural well-formedness: every container is a well-formed list
    /// over the shared task pool, and no slot belongs to two containers.
    pub closed spec fn lists_wf(self) -> bool {
        &&& self.task_pool.wf()
        &&& self.tasks_ready@.len() == prios()
        &&& forall|a: int|
            0 <= a < self.n_lists() ==> (#[trigger] self.list_at(a)).inv(self.task_pool)
        &&& forall|a: int, b: int, x: usize|
            0 <= a < self.n_lists() && 0 <= b < self.n_lists() && a != b && #[trigger] self
                .list_at(a).indices().contains(x) ==> !(#[trigger] self.list_at(
                b,
            ).indices().contains(x))
    }

    /// Scheduling-policy well-formedness: ready lists hold tasks of their own
    /// priority, the sleeping list is ordered by wake time, pending lists by
    /// priority, event identifiers grow with registration order, and the
    /// running task leaves headroom in the pool for its own re-admission.
    pub closed spec fn policy_wf(self) -> bool {
        &&& forall|p: int, m: int|
            0 <= p < prios() && 0 <= m < self.ready_view(p).len() ==> (#[trigger] self.ready_view(
                p,
            )[m]).priority.0 == p
        &&& forall|a: int, m: int|
            0 <= a < self.n_lists() && 0 <= m < self.list_at(a).view_in(self.task_pool).len()
                ==> Self::stored_task_ok(#[trigger] self.list_at(a).view_in(self.task_pool)[m])
        &&& sorted_by::<Task, WakeOrder>(self.sleeping_view())
        &&& forall|j: int|
            0 <= j < self.events@.len() ==> sorted_by::<Task, PriorityOrder>(
                #[trigger] self.pending_view(j),
            )
        &&& forall|j1: int, j2: int|
            0 <= j1 < j2 < self.events@.len() ==> #[trigger] self.events@[j1].id
                < #[trigger] self.events@[j2].id
        &&& forall|j: int|
            0 <= j < self.events@.len() ==> 1 <= (#[trigger] self.events@[j].id)
                <= self.event_counter
        &&& self.events@.len() <= conf::EVENT_POOL_SIZE
        &&& self.task_running is Some ==> crate::array_pool::live_slots(self.task_pool@)
            < self.task_pool@.len()
        &&& self.task_running matches Some(t) ==> (t.priority.0 as int) < prios()
        &&& (self.task_running matches Some(t) ==> (t.transition is Blocked ==> (t.blocking_event
            matches Some(id) && self.event_exists(id))))
    }

    /// The scheduler's invariant.
    pub closed spec fn inv(self) -> bool {
        self.lists_wf() && self.policy_wf()
    }

    /// One operation touched only container `c` and, possibly, the fresh
    /// slots of `extra`: every other container keeps its well-formedness,
    /// its values, and the pairwise disjointness.
    proof fn lemma_lists_frame(pre: Scheduler, post: Scheduler, c: int, extra: Seq<usize>)
        requires
            pre.lists_wf(),
            post.task_pool.wf(),
            post.n_lists() == pre.n_lists(),
            post.tasks_ready@.len() == pre.tasks_ready@.len(),
            0 <= c < pre.n_lists(),
            forall|a: int|
                0 <= a < pre.n_lists() && a != c ==> #[trigger] post.list_at(a) == pre.list_at(a),
            post.task_pool@.len() == pre.task_pool@.len(),
            LinkedList::<Task>::same_outside(
                pre.task_pool@,
                post.task_pool@,
                pre.list_at(c).indices(),
                extra,
            ),
            forall|x: usize|
                #[trigger] extra.contains(x) ==> (x as int) < pre.task_pool@.len()
                    && pre.task_pool@[x as int] is None,
            post.list_at(c).inv(post.task_pool),
            forall|x: usize|
                #[trigger] post.list_at(c).indices().contains(x) ==> pre.list_at(
                    c,
                ).indices().contains(x) || extra.contains(x),
        ensures
            post.lists_wf(),
            forall|a: int|
                0 <= a < post.n_lists() && a != c ==> #[trigger] post.list_at(a).view_in(
                    post.task_pool,
                ) == pre.list_at(a).view_in(pre.task_pool),
    {
        assert forall|a: int| 0 <= a < post.n_lists() && a != c implies #[trigger] post.list_at(
            a,
        ).inv(post.task_pool) && post.list_at(a).view_in(post.task_pool) == pre.list_at(
            a,
        ).view_in(pre.task_pool) by {
            assert(pre.list_at(a).inv(pre.task_pool));
            assert forall|x: usize| pre.list_at(a).indices().contains(x) implies !pre.list_at(
                c,
            ).indices().contains(x) by {}
            assert forall|x: usize| pre.list_at(a).indices().contains(x) implies !extra.contains(
                x,
            ) by {
                pre.list_at(a).lemma_member_occupied(pre.task_pool, x);
            }
            pre.list_at(a).lemma_inv_preserved_disjoint(
                pre.task_pool,
                post.task_pool,
                pre.list_at(c).indices(),
                extra,
            );
        }
        assert forall|a: int, b: int, x: usize|
            0 <= a < post.n_lists() && 0 <= b < post.n_lists() && a != b && #[trigger] post
                .list_at(a).indices().contains(x) implies !(#[trigger] post.list_at(
            b,
        ).indices().contains(x)) by {
            if a == c {
                if pre.list_at(c).indices().contains(x) {
                    assert(!pre.list_at(b).indices().contains(x));
                } else {
                    assert(extra.contains(x));
                    if pre.list_at(b).indices().contains(x) {
                        pre.list_at(b).lemma_member_occupied(pre.task_pool, x);
                    }
                }
            } else if b == c {
                assert(pre.list_at(a).indices().contains(x));
                if pre.list_at(c).indices().contains(x) {
                    assert(false);
                } else {
                    if post.list_at(c).indices().contains(x) {
                        assert(extra.contains(x));
                        pre.list_at(a).lemma_member_occupied(pre.task_pool, x);
                    }
                }
            } else {
                assert(pre.list_at(a).indices().contains(x));
                assert(!pre.list_at(b).indices().contains(x));
            }
        }
    }

    /// An event identifier stays registered while the event table keeps its
    /// identifiers.
    proof fn lemma_event_exists_stable(pre: Scheduler, post: Scheduler, id: usize)
        requires
            pre.event_exists(id),
            post.events_len() >= pre.events_len(),
            forall|j: int|
                0 <= j < pre.events_len() ==> #[trigger] post.event_id_at(j) == pre.event_id_at(
                    j,
                ),
        ensures
            post.event_exists(id),
    {
        let j = choose|j: int| 0 <= j < pre.events_len() && pre.event_id_at(j) == id;
        assert(post.event_id_at(j) == id);
    }

    /// The task containers do not change.
    pub open spec fn same_containers(pre: Scheduler, post: Scheduler) -> bool {
        &&& forall|p: int| 0 <= p < prios() ==> #[trigger] post.ready_view(p) == pre.ready_view(p)
        &&& post.sleeping_view() == pre.sleeping_view()
        &&& post.terminated_view() == pre.terminated_view()
        &&& post.events_len() == pre.events_len()
        &&& forall|j: int|
            0 <= j < pre.events_len() ==> #[trigger] post.pending_view(j) == pre.pending_view(j)
                && post.event_id_at(j) == pre.event_id_at(j)
    }

    /// An operation that leaves the pool and every container untouched keeps
    /// the structural invariant and all the views.
    proof fn lemma_inv_core_stable(pre: Scheduler, post: Scheduler)
        requires
            pre.lists_wf(),
            post.task_pool == pre.task_pool,
            post.tasks_ready@ == pre.tasks_ready@,
            post.tasks_sleeping == pre.tasks_sleeping,
            post.tasks_terminated == pre.tasks_terminated,
            post.events@ == pre.events@,
        ensures
            post.lists_wf(),
            Self::same_containers(pre, post),
            forall|a: int| 0 <= a < post.n_lists() ==> #[trigger] post.list_at(a) == pre.list_at(a),
    {
        assert forall|a: int| 0 <= a < post.n_lists() implies #[trigger] post.list_at(a)
            == pre.list_at(a) by {}
        assert forall|a: int| 0 <= a < post.n_lists() implies (#[trigger] post.list_at(a)).inv(
            post.task_pool,
        ) by {
            assert(pre.list_at(a).inv(pre.task_pool));
        }
        assert forall|a: int, b: int, x: usize|
            0 <= a < post.n_lists() && 0 <= b < post.n_lists() && a != b && #[trigger] post
                .list_at(a).indices().contains(x) implies !(#[trigger] post.list_at(
            b,
        ).indices().contains(x)) by {
            assert(pre.list_at(a).indices().contains(x));
        }
        assert forall|p: int| 0 <= p < prios() implies #[trigger] post.ready_view(p)
            == pre.ready_view(p) by {}
        assert forall|j: int| 0 <= j < pre.events_len() implies #[trigger] post.pending_view(j)
            == pre.pending_view(j) && post.event_id_at(j) == pre.event_id_at(j) by {}
    }

    /// Advancing the clock alone disturbs nothing: the whole invariant and
    /// every container carry over.
    proof fn lemma_inv_tick_stable(pre: Scheduler, post: Scheduler)
        requires
            pre.inv(),
            post.task_pool == pre.task_pool,
            post.task_running == pre.task_running,
            post.tasks_ready@ == pre.tasks_ready@,
            post.tasks_sleeping == pre.tasks_sleeping,
            post.tasks_terminated == pre.tasks_terminated,
            post.events@ == pre.events@,
            post.event_counter == pre.event_counter,
        ensures
            post.inv(),
            Self::same_containers(pre, post),
    {
        Self::lemma_inv_core_stable(pre, post);
        assert forall|p: int, m: int|
            0 <= p < prios() && 0 <= m < post.ready_view(p).len() implies (
        #[trigger] post.ready_view(p)[m]).priority.0 == p by {
            assert(post.ready_view(p) == pre.ready_view(p));
            assert(pre.ready_view(p)[m].priority.0 == p);
        }
        assert forall|a: int, m: int|
            0 <= a < post.n_lists() && 0 <= m < post.list_at(a).view_in(
                post.task_pool,
            ).len() implies Self::stored_task_ok(#[trigger] post.list_at(a).view_in(
            post.task_pool,
        )[m]) by {
            assert(post.list_at(a) == pre.list_at(a));
            assert(Self::stored_task_ok(pre.list_at(a).view_in(pre.task_pool)[m]));
        }
        assert(post.sleeping_view() == pre.sleeping_view());
        assert forall|j: int| 0 <= j < post.events@.len() implies sorted_by::<
            Task,
            PriorityOrder,
        >(#[trigger] post.pending_view(j)) by {
            assert(post.pending_view(j) == pre.pending_view(j));
            assert(sorted_by::<Task, PriorityOrder>(pre.pending_view(j)));
        }
        let tr = pre.task_running;
        if tr is Some && tr->0.transition is Blocked {
            Self::lemma_event_exists_stable(pre, post, tr->0.blocking_event->0);
        }
    }

    /// Sets up an empty scheduler: no running task, empty ready, sleeping and
    /// terminated lists, no events, tick zero.
    pub fn init() -> (r: Scheduler)
        ensures
            r.inv(),
            r.spec_running() is None,
            forall|p: int| 0 <= p < prios() ==> #[trigger] r.ready_view(p) == Seq::<Task>::empty(),
            r.sleeping_view() == Seq::<Task>::empty(),
            r.terminated_view() == Seq::<Task>::empty(),
            r.events_len() == 0,
            r.spec_now() == 0,
            r.spec_event_counter() == 0,
            r.task_count() == 0,
            r.task_capacity() == conf::TASK_POOL_SIZE,
    {
        let task_pool = StaticListPool::<Task>::new(conf::TASK_POOL_SIZE);
        let mut tasks_ready: Vec<LinkedList<Task>> = Vec::new();
        let mut p: usize = 0;
        while p < conf::TASK_PRIORITIES
            invariant
                p <= conf::TASK_PRIORITIES,
                tasks_ready@.len() == p,
                forall|q: int|
                    0 <= q < p ==> (#[trigger] tasks_ready@[q]).indices() == Seq::<usize>::empty()
                        && tasks_ready@[q].spec_len() == 0,
                forall|q: int, pool: StaticListPool<Task>|
                    0 <= q < p ==> #[trigger] tasks_ready@[q].inv(pool),
            decreases conf::TASK_PRIORITIES - p,
        {
            tasks_ready.push(LinkedList::new());
            p = p + 1;
        }
        let r = Scheduler {
            task_pool,
            task_running: None,
            tasks_ready,
            tasks_sleeping: LinkedList::new(),
            tasks_terminated: LinkedList::new(),
            events: Vec::new(),
            event_counter: 0,
            tick_count: 0,
        };
        proof {
            assert forall|a: int| 0 <= a < r.n_lists() implies (#[trigger] r.list_at(a)).inv(
                r.task_pool,
            ) && r.list_at(a).indices() == Seq::<usize>::empty() by {}
            assert forall|p2: int| 0 <= p2 < prios() implies #[trigger] r.ready_view(p2) == Seq::<
                Task,
            >::empty() by {
                assert(r.ready_view(p2) =~= Seq::<Task>::empty());
            }
            assert(r.sleeping_view() =~= Seq::<Task>::empty());
            assert(r.terminated_view() =~= Seq::<Task>::empty());
        }
        r
    }

    /// The currently running task.
    pub fn running(&self) -> (r: Option<&Task>)
        ensures
            match r {
                Some(t) => self.spec_running() matches Some(t2) && *t == t2,
                None => self.spec_running() is None,
            },
    {
        self.task_running.as_ref()
    }

    /// The current tick count.
    pub fn tick_now(&self) -> (r: u64)
        ensures
            r == self.spec_now(),
    {
        self.tick_count
    }

    /// Number of ready tasks at priority `p`.
    pub fn ready_len(&self, p: usize) -> (r: usize)
        requires
            self.inv(),
            p < conf::TASK_PRIORITIES,
        ensures
            r == self.ready_view(p as int).len(),
    {
        proof {
            assert(self.list_at(p as int).inv(self.task_pool));
            self.tasks_ready@[p as int].lemma_len_counts_nodes(self.task_pool);
        }
        self.tasks_ready[p].len()
    }

    /// Number of sleeping tasks.
    pub fn sleeping_len(&self) -> (r: usize)
        requires
            self.inv(),
        ensures
            r == self.sleeping_view().len(),
    {
        proof {
            assert(self.list_at(prios()).inv(self.task_pool));
            self.tasks_sleeping.lemma_len_counts_nodes(self.task_pool);
        }
        self.tasks_sleeping.len()
    }

    /// Number of terminated tasks.
    pub fn terminated_len(&self) -> (r: usize)
        requires
            self.inv(),
        ensures
            r == self.terminated_view().len(),
    {
        proof {
            assert(self.list_at(prios() + 1).inv(self.task_pool));
            self.tasks_terminated.lemma_len_counts_nodes(self.task_pool);
        }
        self.tasks_terminated.len()
    }

    /// Admits a task: reserves the saved-context frame on the task's stack,
    /// and appends the task to the ready list of its priority. Fails with
    /// `OutOfMemory`, changing nothing, exactly when the task budget is
    /// exhausted.
    pub fn add(&mut self, task: Task) -> (r: Result<(), pool_allocator::Error>)
        requires
            old(self).inv(),
            (task.priority.0 as int) < prios(),
            task.transition is Ready,
            task.stack.bottom + crate::task::CONTEXT_FRAME_BYTES <= task.stack.ptr,
        ensures
            final(self).inv(),
            final(self).spec_running() == old(self).spec_running(),
            final(self).sleeping_view() == old(self).sleeping_view(),
            final(self).terminated_view() == old(self).terminated_view(),
            final(self).events_len() == old(self).events_len(),
            forall|j: int|
                0 <= j < old(self).events_len() ==> #[trigger] final(self).pending_view(j) == old(self).pending_view(j) && final(self).event_id_at(j) == old(self).event_id_at(j),
            final(self).spec_now() == old(self).spec_now(),
            final(self).spec_event_counter() == old(self).spec_event_counter(),
            final(self).task_capacity() == old(self).task_capacity(),
            match r {
                Ok(()) => {
                    &&& old(self).task_count() < old(self).task_capacity()
                    &&& final(self).task_count() == old(self).task_count() + 1
                    &&& final(self).ready_view(task.priority.0 as int) == old(self).ready_view(
                        task.priority.0 as int,
                    ).push(
                        Task {
                            stack: crate::stack::Stack {
                                ptr: (task.stack.ptr - crate::task::CONTEXT_FRAME_BYTES) as usize,
                                ..task.stack
                            },
                            ..task
                        },
                    )
                    &&& forall|p: int|
                        0 <= p < prios() && p != task.priority.0 as int ==> #[trigger] final(self).ready_view(p) == old(self).ready_view(p)
                },
                Err(e) => {
                    &&& e == pool_allocator::Error::OutOfMemory
                    &&& old(self).task_count() == old(self).task_capacity()
                    &&& final(self).task_count() == old(self).task_count()
                    &&& forall|p: int|
                        0 <= p < prios() ==> #[trigger] final(self).ready_view(p) == old(self).ready_view(p)
                },
            },
    {
        let cap = self.task_pool.capacity();
        let lv = self.task_pool.live();
        proof {
            crate::array_pool::lemma_live_slots_le_len(self.task_pool@);
        }
        let occupied = if self.task_running.is_some() {
            lv + 1
        } else {
            lv
        };
        if occupied >= cap {
            return Err(pool_allocator::Error::OutOfMemory);
        }
        let mut admitted = task;
        admitted.stack.ptr = admitted.stack.ptr - crate::task::CONTEXT_FRAME_BYTES;
        let prio = admitted.priority.0 as usize;
        let ghost pre = *self;
        proof {
            assert(pre.list_at(prio as int).inv(pre.task_pool));
        }
        let list = &mut self.tasks_ready[prio];
        let res = list.insert_back(&mut self.task_pool, admitted);
        match res {
            Ok(()) => {
                proof {
                    let c = prio as int;
                    let list_new = self.tasks_ready@[c];
                    let ghost i = list_new.indices().last();
                    assert(self.list_at(c) == list_new);
                    assert forall|a: int| 0 <= a < pre.n_lists() && a != c implies #[trigger] self
                        .list_at(a) == pre.list_at(a) by {}
                    assert forall|x: usize| #[trigger] self.list_at(c).indices().contains(
                        x,
                    ) implies pre.list_at(c).indices().contains(x) || seq![i].contains(x) by {
                        let ord = self.list_at(c).indices();
                        let kx = choose|kx: int| 0 <= kx < ord.len() && ord[kx] == x;
                        if kx < ord.len() - 1 {
                            assert(pre.list_at(c).indices()[kx] == x);
                            assert(pre.list_at(c).indices().contains(x));
                        } else {
                            assert(seq![i][0] == i);
                        }
                    }
                    assert forall|x: usize| #[trigger] seq![i].contains(x) implies x == i by {
                        assert(seq![i][0] == i);
                    }
                    assert(list_new.indices()[list_new.indices().len() - 1] == i);
                    assert(list_new.indices().contains(i));
                    list_new.lemma_member_occupied(self.task_pool, i);
                    assert((i as int) < pre.task_pool@.len());
                    assert(pre.task_pool@[i as int] is None);
                    Self::lemma_lists_frame(pre, *self, c, seq![i]);
                    assert(self.ready_view(c) == pre.ready_view(c).push(admitted));
                    assert forall|p2: int|
                        0 <= p2 < prios() && p2 != c implies #[trigger] self.ready_view(p2)
                        == pre.ready_view(p2) by {
                        assert(self.list_at(p2).view_in(self.task_pool) == pre.list_at(
                            p2,
                        ).view_in(pre.task_pool));
                    }
                    assert(self.list_at(prios()).view_in(self.task_pool) == pre.list_at(
                        prios(),
                    ).view_in(pre.task_pool));
                    assert(self.sleeping_view() == pre.sleeping_view());
                    assert(self.list_at(prios() + 1).view_in(self.task_pool) == pre.list_at(
                        prios() + 1,
                    ).view_in(pre.task_pool));
                    assert(self.terminated_view() == pre.terminated_view());
                    assert forall|j: int|
                        0 <= j < pre.events@.len() implies #[trigger] self.pending_view(j)
                        == pre.pending_view(j) by {
                        assert(self.list_at(prios() + 2 + j).view_in(self.task_pool)
                            == pre.list_at(prios() + 2 + j).view_in(pre.task_pool));
                    }
                    assert forall|p2: int, m: int|
                        0 <= p2 < prios() && 0 <= m < self.ready_view(p2).len() implies (
                    #[trigger] self.ready_view(p2)[m]).priority.0 == p2 by {
                        if p2 != c || m < pre.ready_view(c).len() {
                            assert(pre.ready_view(p2)[m].priority.0 == p2);
                        }
                    }
                    assert forall|a: int, m: int|
                        0 <= a < self.n_lists() && 0 <= m < self.list_at(a).view_in(
                            self.task_pool,
                        ).len() implies Self::stored_task_ok(#[trigger] self.list_at(a).view_in(
                        self.task_pool,
                    )[m]) by {
                        if a != c {
                            assert(self.list_at(a).view_in(self.task_pool) == pre.list_at(
                                a,
                            ).view_in(pre.task_pool));
                            assert(Self::stored_task_ok(pre.list_at(a).view_in(pre.task_pool)[m]));
                        } else if m < pre.list_at(c).view_in(pre.task_pool).len() {
                            assert(self.list_at(c).view_in(self.task_pool) == self.ready_view(c));
                            assert(Self::stored_task_ok(pre.list_at(a).view_in(pre.task_pool)[m]));
                        } else {
                            assert(self.list_at(c).view_in(self.task_pool) == self.ready_view(c));
                        }
                    }
                    assert forall|j: int| 0 <= j < self.events@.len() implies sorted_by::<
                        Task,
                        PriorityOrder,
                    >(#[trigger] self.pending_view(j)) by {
                        assert(self.pending_view(j) == pre.pending_view(j));
                    }
                    let tr = pre.task_running;
                    if tr is Some && tr->0.transition is Blocked {
                        Self::lemma_event_exists_stable(pre, *self, tr->0.blocking_event->0);
                    }
                }
                Ok(())
            },
            Err(_) => {
                proof {
                    assert(false);
                }
                Err(pool_allocator::Error::OutOfMemory)
            },
        }
    }

    /// The running task asks to sleep: its wake time becomes `now + ms` and
    /// its pending transition `Sleeping`. The move to the sleeping list
    /// happens at the next context switch.
    pub fn sleep(&mut self, ms: u32)
        requires
            old(self).inv(),
            old(self).spec_running() is Some,
            old(self).spec_now() + ms <= u64::MAX,
        ensures
            final(self).inv(),
            final(self).spec_running() == Some(
                Task {
                    next_wut: (old(self).spec_now() + ms) as u64,
                    transition: crate::task::Transition::Sleeping,
                    ..old(self).spec_running()->0
                },
            ),
            Self::same_containers(*old(self), *final(self)),
            final(self).spec_now() == old(self).spec_now(),
            final(self).spec_event_counter() == old(self).spec_event_counter(),
            final(self).task_count() == old(self).task_count(),
            final(self).task_capacity() == old(self).task_capacity(),
    {
        let now = self.tick_count;
        let ghost pre = *self;
        match &mut self.task_running {
            Some(t) => {
                t.next_wut = now + ms as u64;
                t.transition = Transition::Sleeping;
            },
            None => {},
        }
        proof {
            Self::lemma_inv_core_stable(pre, *self);
        }
    }

    /// A voluntary yield changes no scheduler state: the caller requests a
    /// context switch from the architecture layer afterwards.
    pub fn yield_now(&self) {
    }

    /// The running task exits: its pending transition becomes `Terminating`.
    /// The move to the terminated list happens at the next context switch,
    /// and the task is never resumed.
    pub fn task_terminate(&mut self)
        requires
            old(self).inv(),
            old(self).spec_running() is Some,
        ensures
            final(self).inv(),
            final(self).spec_running() == Some(
                Task {
                    transition: crate::task::Transition::Terminating,
                    ..old(self).spec_running()->0
                },
            ),
            Self::same_containers(*old(self), *final(self)),
            final(self).spec_now() == old(self).spec_now(),
            final(self).spec_event_counter() == old(self).spec_event_counter(),
            final(self).task_count() == old(self).task_count(),
            final(self).task_capacity() == old(self).task_capacity(),
    {
        let ghost pre = *self;
        match &mut self.task_running {
            Some(t) => {
                t.transition = Transition::Terminating;
            },
            None => {},
        }
        proof {
            Self::lemma_inv_core_stable(pre, *self);
        }
    }

    /// Registers a new event under a fresh identifier. Fails with
    /// `OutOfMemory`, changing nothing, exactly when the event pool is
    /// exhausted.
    pub fn event_register(&mut self) -> (r: Result<usize, pool_allocator::Error>)
        requires
            old(self).inv(),
            old(self).spec_event_counter() < usize::MAX,
        ensures
            final(self).inv(),
            final(self).spec_running() == old(self).spec_running(),
            final(self).spec_now() == old(self).spec_now(),
            final(self).task_count() == old(self).task_count(),
            final(self).task_capacity() == old(self).task_capacity(),
            forall|p: int|
                0 <= p < prios() ==> #[trigger] final(self).ready_view(p) == old(self).ready_view(
                    p,
                ),
            final(self).sleeping_view() == old(self).sleeping_view(),
            final(self).terminated_view() == old(self).terminated_view(),
            forall|j: int|
                0 <= j < old(self).events_len() ==> #[trigger] final(self).pending_view(j) == old(self).pending_view(j) && final(self).event_id_at(j) == old(self).event_id_at(j),
            match r {
                Ok(id) => {
                    &&& old(self).events_len() < conf::EVENT_POOL_SIZE
                    &&& id == old(self).spec_event_counter() + 1
                    &&& final(self).spec_event_counter() == id
                    &&& final(self).events_len() == old(self).events_len() + 1
                    &&& final(self).event_id_at(old(self).events_len() as int) == id
                    &&& final(self).pending_view(old(self).events_len() as int) == Seq::<
                        Task,
                    >::empty()
                    &&& final(self).event_exists(id)
                },
                Err(e) => {
                    &&& e == pool_allocator::Error::OutOfMemory
                    &&& old(self).events_len() == conf::EVENT_POOL_SIZE
                    &&& final(self).events_len() == old(self).events_len()
                    &&& final(self).spec_event_counter() == old(self).spec_event_counter()
                },
            },
    {
        if self.events.len() == conf::EVENT_POOL_SIZE {
            return Err(pool_allocator::Error::OutOfMemory);
        }
        let ghost pre = *self;
        let id = self.event_counter + 1;
        self.event_counter = id;
        self.events.push(Event::new(id));
        proof {
            let n = pre.n_lists();
            let jn = pre.events@.len() as int;
            assert(self.events@ == pre.events@.push(self.events@[jn]));
            assert forall|a: int| 0 <= a < n implies #[trigger] self.list_at(a) == pre.list_at(
                a,
            ) by {}
            assert forall|a: int| 0 <= a < self.n_lists() implies (#[trigger] self.list_at(
                a,
            )).inv(self.task_pool) by {
                if a < n {
                    assert(pre.list_at(a).inv(pre.task_pool));
                }
            }
            assert forall|a: int, b: int, x: usize|
                0 <= a < self.n_lists() && 0 <= b < self.n_lists() && a != b && #[trigger] self
                    .list_at(a).indices().contains(x) implies !(#[trigger] self.list_at(
                b,
            ).indices().contains(x)) by {
                assert(self.list_at(n).indices() == Seq::<usize>::empty());
                if a < n && b < n {
                    assert(pre.list_at(a).indices().contains(x));
                }
            }
            assert forall|p: int| 0 <= p < prios() implies #[trigger] self.ready_view(p)
                == pre.ready_view(p) by {}
            assert forall|j: int|
                0 <= j < pre.events_len() implies #[trigger] self.pending_view(j)
                == pre.pending_view(j) && self.event_id_at(j) == pre.event_id_at(j) by {}
            assert(self.pending_view(jn) =~= Seq::<Task>::empty());
            assert(self.sleeping_view() == pre.sleeping_view());
            assert(self.terminated_view() == pre.terminated_view());
            assert forall|a: int, m: int|
                0 <= a < self.n_lists() && 0 <= m < self.list_at(a).view_in(
                    self.task_pool,
                ).len() implies Self::stored_task_ok(#[trigger] self.list_at(a).view_in(
                self.task_pool,
            )[m]) by {
                if a < n {
                    assert(self.list_at(a).view_in(self.task_pool) == pre.list_at(a).view_in(
                        pre.task_pool,
                    ));
                    assert(Self::stored_task_ok(pre.list_at(a).view_in(pre.task_pool)[m]));
                } else {
                    assert(self.list_at(a).view_in(self.task_pool).len() == 0);
                }
            }
            let tr = pre.task_running;
            if tr is Some && tr->0.transition is Blocked {
                Self::lemma_event_exists_stable(pre, *self, tr->0.blocking_event->0);
            }
            assert(self.event_id_at(jn) == id);
            assert(self.event_exists(id));
        }
        Ok(id)
    }

    /// The running task awaits the event with identifier `id`: it records the
    /// event as its blocking back-reference and its pending transition
    /// becomes `Blocked`; the move to the event's pending list happens at the
    /// next context switch. Fails with `InvalidId`, changing nothing, exactly
    /// when no event carries that identifier. The timeout is accepted but not
    /// yet enforced.
    pub fn event_await(&mut self, id: usize, timeout: u32) -> (r: Result<(), event::Error>)
        requires
            old(self).inv(),
            old(self).spec_running() is Some,
        ensures
            final(self).inv(),
            Self::same_containers(*old(self), *final(self)),
            final(self).spec_now() == old(self).spec_now(),
            final(self).spec_event_counter() == old(self).spec_event_counter(),
            final(self).task_count() == old(self).task_count(),
            final(self).task_capacity() == old(self).task_capacity(),
            match r {
                Ok(()) => {
                    &&& old(self).event_exists(id)
                    &&& final(self).spec_running() == Some(
                        Task {
                            transition: crate::task::Transition::Blocked,
                            blocking_event: Some(id),
                            ..old(self).spec_running()->0
                        },
                    )
                },
                Err(e) => {
                    &&& e == event::Error::InvalidId
                    &&& !old(self).event_exists(id)
                    &&& final(self).spec_running() == old(self).spec_running()
                },
            },
    {
        let n = self.events.len();
        let mut j: usize = 0;
        while j < n && self.events[j].id() != id
            invariant
                j <= n,
                n == self.events@.len(),
                *self == *old(self),
                forall|m: int| 0 <= m < j ==> #[trigger] self.events@[m].id != id,
            decreases n - j,
        {
            j = j + 1;
        }
        if j == n {
            proof {
                assert forall|m: int|
                    0 <= m < self.events_len() implies #[trigger] self.event_id_at(m) != id by {}
            }
            return Err(event::Error::InvalidId);
        }
        let ghost pre = *self;
        match &mut self.task_running {
            Some(t) => {
                t.blocking_event = Some(id);
                t.transition = Transition::Blocked;
            },
            None => {},
        }
        proof {
            Self::lemma_inv_core_stable(pre, *self);
            assert(pre.event_id_at(j as int) == id);
            assert(pre.event_exists(id));
            Self::lemma_event_exists_stable(pre, *self, id);
        }
        Ok(())
    }

    /// Fires the event with identifier `id`: the single most urgent waiter,
    /// if any, moves to the ready list of its priority. Returns whether the
    /// event exists; a context switch is requested either way by the caller,
    /// so firing stays uniform and cheap. An unknown identifier changes
    /// nothing.
    pub fn event_fire(&mut self, id: usize) -> (r: bool)
        requires
            old(self).inv(),
        ensures
            final(self).inv(),
            final(self).spec_running() == old(self).spec_running(),
            final(self).spec_now() == old(self).spec_now(),
            final(self).spec_event_counter() == old(self).spec_event_counter(),
            final(self).task_count() == old(self).task_count(),
            final(self).task_capacity() == old(self).task_capacity(),
            final(self).events_len() == old(self).events_len(),
            forall|j: int|
                0 <= j < old(self).events_len() ==> #[trigger] final(self).event_id_at(j) == old(self).event_id_at(j),
            final(self).sleeping_view() == old(self).sleeping_view(),
            final(self).terminated_view() == old(self).terminated_view(),
            r == old(self).event_exists(id),
            !old(self).event_exists(id) ==> Self::same_containers(*old(self), *final(self)),
            old(self).event_exists(id) ==> exists|j: int|
                {
                    &&& 0 <= j < old(self).events_len()
                    &&& #[trigger] old(self).event_id_at(j) == id
                    &&& if old(self).pending_view(j).len() == 0 {
                        Self::same_containers(*old(self), *final(self))
                    } else {
                        let t = old(self).pending_view(j)[0];
                        &&& final(self).pending_view(j) == old(self).pending_view(
                            j,
                        ).drop_first()
                        &&& forall|j2: int|
                            0 <= j2 < old(self).events_len() && j2 != j ==> #[trigger] final(self).pending_view(j2) == old(self).pending_view(j2)
                        &&& final(self).ready_view(t.priority.0 as int) == old(self).ready_view(
                            t.priority.0 as int,
                        ).push(t)
                        &&& forall|p: int|
                            0 <= p < prios() && p != t.priority.0 as int ==> #[trigger] final(self).ready_view(p) == old(self).ready_view(p)
                        &&& forall|m: int|
                            0 <= m < old(self).pending_view(j).len() ==> t.priority.0 <= (
                            #[trigger] old(self).pending_view(j)[m]).priority.0
                    }
                },
    {
        let n = self.events.len();
        let mut j: usize = 0;
        while j < n && self.events[j].id() != id
            invariant
                j <= n,
                n == self.events@.len(),
                *self == *old(self),
                forall|m: int| 0 <= m < j ==> #[trigger] self.events@[m].id != id,
            decreases n - j,
        {
            j = j + 1;
        }
        if j == n {
            proof {
                assert forall|m: int|
                    0 <= m < self.events_len() implies #[trigger] self.event_id_at(m) != id by {}
            }
            return false;
        }
        let ghost pre = *self;
        proof {
            assert(pre.event_id_at(j as int) == id);
            assert(pre.event_exists(id));
            assert(pre.list_at(prios() + 2 + j as int).inv(pre.task_pool));
            pre.events@[j as int].pending.lemma_len_counts_nodes(pre.task_pool);
        }
        if self.events[j].pending.len() == 0 {
            return true;
        }
        let t = self.take_pending_front(j);
        let ghost mid = *self;
        proof {
            pre.lemma_task_budget();
        }
        self.enqueue_ready(t);
        proof {
            // chain the helper contracts back to the caller's state
            assert(self.sleeping_view() == mid.sleeping_view());
            assert(self.terminated_view() == mid.terminated_view());
            assert(self.ready_view(t.priority.0 as int) == pre.ready_view(
                t.priority.0 as int,
            ).push(t));
            assert forall|p: int|
                0 <= p < prios() && p != t.priority.0 as int implies #[trigger] self.ready_view(p)
                == pre.ready_view(p) by {
                assert(self.ready_view(p) == mid.ready_view(p));
            }
            assert(mid.events_len() == pre.events_len());
            assert forall|j2: int|
                0 <= j2 < pre.events_len() implies #[trigger] self.pending_view(j2)
                == mid.pending_view(j2) && self.event_id_at(j2) == mid.event_id_at(j2) by {
                assert(0 <= j2 < mid.events_len());
            }
            assert forall|j2: int|
                0 <= j2 < pre.events_len() && j2 != j as int implies #[trigger] self.pending_view(
                j2,
            ) == pre.pending_view(j2) by {
                assert(mid.pending_view(j2) == pre.pending_view(j2));
            }
            assert forall|j2: int|
                0 <= j2 < pre.events_len() implies #[trigger] self.event_id_at(j2)
                == pre.event_id_at(j2) by {
                assert(self.pending_view(j2) == mid.pending_view(j2));
                assert(mid.event_id_at(j2) == pre.event_id_at(j2));
            }
            assert(self.pending_view(j as int) == pre.pending_view(j as int).drop_first());
        }
        true
    }

    /// One timer tick: the tick count advances, every sleeping task whose
    /// wake time has elapsed moves — in wake order — to the ready list of its
    /// priority, and the return value says whether a context switch must be
    /// requested: a task of equal or higher priority than the running one
    /// woke up, or another ready task shares the running task's priority
    /// (round-robin time slicing).
    pub fn tick_update(&mut self) -> (r: bool)
        requires
            old(self).inv(),
            old(self).spec_running() is Some,
            old(self).spec_now() < u64::MAX,
        ensures
            final(self).inv(),
            final(self).spec_now() == old(self).spec_now() + 1,
            final(self).spec_running() == old(self).spec_running(),
            final(self).spec_event_counter() == old(self).spec_event_counter(),
            final(self).task_count() == old(self).task_count(),
            final(self).task_capacity() == old(self).task_capacity(),
            final(self).terminated_view() == old(self).terminated_view(),
            final(self).events_len() == old(self).events_len(),
            forall|j: int|
                0 <= j < old(self).events_len() ==> #[trigger] final(self).pending_view(j) == old(self).pending_view(j) && final(self).event_id_at(j) == old(self).event_id_at(j),
            ({
                let now = (old(self).spec_now() + 1) as u64;
                let d = due_count(old(self).sleeping_view(), now);
                let rp = old(self).spec_running()->0.priority.0 as int;
                &&& final(self).sleeping_view() == old(self).sleeping_view().skip(d)
                &&& forall|p: int|
                    0 <= p < prios() ==> #[trigger] final(self).ready_view(p) == old(self).ready_view(p) + old(self).sleeping_view().take(d).filter(
                        |t: Task| t.priority.0 as int == p,
                    )
                &&& r == ((exists|m: int|
                    0 <= m < d && (#[trigger] old(self).sleeping_view()[m]).priority.0 as int
                        <= rp) || final(self).ready_view(rp).len() > 0)
            }),
    {
        self.tick_count = self.tick_count + 1;
        let now = self.tick_count;
        let rp = self.task_running.as_ref().unwrap().priority.0 as usize;
        let mut trigger = false;
        let ghost base = *self;
        let ghost d0 = due_count(base.sleeping_view(), now);
        let ghost moved: int = 0;
        proof {
            Self::lemma_inv_tick_stable(*old(self), base);
            assert(base.list_at(prios()) == base.tasks_sleeping);
            assert(base.sleeping_view() =~= base.sleeping_view().skip(0));
            assert forall|p: int| 0 <= p < prios() implies #[trigger] base.ready_view(p)
                == base.ready_view(p) + base.sleeping_view().take(0).filter(
                |t: Task| t.priority.0 as int == p,
            ) by {
                assert(base.sleeping_view().take(0) =~= Seq::<Task>::empty());
                reveal(Seq::filter);
                assert(base.ready_view(p) =~= base.ready_view(p) + base.sleeping_view().take(
                    0,
                ).filter(|t: Task| t.priority.0 as int == p));
            }
        }
        while self.tasks_sleeping.len() > 0 && self.tasks_sleeping.front(
            &self.task_pool,
        ).unwrap().next_wut() <= now
            invariant
                self.inv(),
                self.tasks_sleeping.inv(self.task_pool),
                self.task_pool.wf(),
                base.inv(),
                self.spec_running() == base.spec_running(),
                base.spec_running() is Some,
                rp == base.spec_running()->0.priority.0 as usize,
                (rp as int) < prios(),
                self.spec_now() == now,
                base.spec_now() == now,
                self.spec_event_counter() == base.spec_event_counter(),
                self.task_count() == base.task_count(),
                self.task_capacity() == base.task_capacity(),
                self.terminated_view() == base.terminated_view(),
                self.events_len() == base.events_len(),
                forall|j: int|
                    0 <= j < base.events_len() ==> #[trigger] self.pending_view(j)
                        == base.pending_view(j) && self.event_id_at(j) == base.event_id_at(j),
                0 <= moved <= base.sleeping_view().len(),
                forall|m: int|
                    0 <= m < moved ==> (#[trigger] base.sleeping_view()[m]).next_wut <= now,
                self.sleeping_view() == base.sleeping_view().skip(moved),
                forall|p: int|
                    0 <= p < prios() ==> #[trigger] self.ready_view(p) == base.ready_view(p)
                        + base.sleeping_view().take(moved).filter(
                        |t: Task| t.priority.0 as int == p,
                    ),
                trigger == exists|m: int|
                    0 <= m < moved && (#[trigger] base.sleeping_view()[m]).priority.0 as int
                        <= rp as int,
            decreases self.tasks_sleeping.spec_len(),
        {
            let ghost s_pre = *self;
            proof {
                assert(s_pre.list_at(prios()).inv(s_pre.task_pool));
                s_pre.tasks_sleeping.lemma_len_counts_nodes(s_pre.task_pool);
                s_pre.lemma_task_budget();
            }
            let t = self.take_sleeping_front();
            let ghost mid = *self;
            if t.priority().0 as usize <= rp {
                trigger = true;
            }
            self.enqueue_ready(t);
            proof {
                let c2 = t.priority.0 as int;
                // chain the helper contracts back to this iteration's start
                assert(self.sleeping_view() == mid.sleeping_view());
                assert(mid.sleeping_view() == s_pre.sleeping_view().drop_first());
                assert(self.terminated_view() == s_pre.terminated_view());
                assert forall|p2: int|
                    0 <= p2 < prios() && p2 != c2 implies #[trigger] self.ready_view(p2)
                    == s_pre.ready_view(p2) by {
                    assert(self.ready_view(p2) == mid.ready_view(p2));
                }
                assert(self.ready_view(c2) == s_pre.ready_view(c2).push(t));
                assert forall|j2: int|
                    0 <= j2 < s_pre.events_len() implies #[trigger] self.pending_view(j2)
                    == s_pre.pending_view(j2) by {
                    assert(mid.pending_view(j2) == s_pre.pending_view(j2));
                }
                assert forall|j2: int|
                    0 <= j2 < s_pre.events_len() implies #[trigger] self.event_id_at(j2)
                    == s_pre.event_id_at(j2) by {
                    assert(self.pending_view(j2) == mid.pending_view(j2));
                    assert(mid.event_id_at(j2) == s_pre.event_id_at(j2));
                }
                assert(self.list_at(prios()).inv(self.task_pool));
                self.tasks_sleeping.lemma_len_counts_nodes(self.task_pool);
                assert(t == s_pre.sleeping_view()[0]);
                assert(t == base.sleeping_view()[moved]);
                // re-establish the loop's relation to `base`
                moved = moved + 1;
                assert(base.sleeping_view().skip(moved - 1).drop_first() =~= base.sleeping_view(
                ).skip(moved));
                assert(self.sleeping_view() == base.sleeping_view().skip(moved));
                assert(base.sleeping_view().take(moved - 1).push(t) =~= base.sleeping_view().take(
                    moved,
                ));
                assert forall|p: int| 0 <= p < prios() implies #[trigger] self.ready_view(p)
                    == base.ready_view(p) + base.sleeping_view().take(moved).filter(
                    |t2: Task| t2.priority.0 as int == p,
                ) by {
                    let pred = |t2: Task| t2.priority.0 as int == p;
                    lemma_filter_push(base.sleeping_view().take(moved - 1), pred, t);
                    assert(base.sleeping_view().take(moved) == base.sleeping_view().take(
                        moved - 1,
                    ).push(t));
                    if p == c2 {
                        assert(self.ready_view(p) == s_pre.ready_view(p).push(t));
                        assert(s_pre.ready_view(p) == base.ready_view(p)
                            + base.sleeping_view().take(moved - 1).filter(pred));
                        assert(pred(t));
                        assert(base.ready_view(p) + base.sleeping_view().take(moved - 1).filter(
                            pred,
                        ).push(t) =~= (base.ready_view(p) + base.sleeping_view().take(
                            moved - 1,
                        ).filter(pred)).push(t));
                    } else {
                        assert(self.ready_view(p) == s_pre.ready_view(p));
                        assert(!pred(t));
                    }
                }
            }
        }
        proof {
            self.tasks_sleeping.lemma_len_counts_nodes(self.task_pool);
            if self.sleeping_view().len() > 0 {
                assert(self.sleeping_view()[0] == base.sleeping_view()[moved]);
            }
            lemma_due_count_boundary(base.sleeping_view(), now, moved);
            assert(moved == d0);
        }
        if self.ready_len(rp) > 0 {
            trigger = true;
        }
        trigger
    }


    /// Appends a stored task to the ready list of its priority. Internal: the
    /// caller has checked the task budget.
    fn enqueue_ready(&mut self, t: Task)
        requires
            old(self).inv(),
            Self::stored_task_ok(t),
            old(self).task_count() < old(self).task_capacity(),
        ensures
            final(self).inv(),
            final(self).spec_running() == old(self).spec_running(),
            final(self).spec_now() == old(self).spec_now(),
            final(self).spec_event_counter() == old(self).spec_event_counter(),
            final(self).task_capacity() == old(self).task_capacity(),
            final(self).task_count() == old(self).task_count() + 1,
            final(self).events_len() == old(self).events_len(),
            final(self).sleeping_view() == old(self).sleeping_view(),
            final(self).terminated_view() == old(self).terminated_view(),
            forall|j: int|
                0 <= j < old(self).events_len() ==> #[trigger] final(self).pending_view(j) == old(self).pending_view(j)
                    && final(self).event_id_at(j) == old(self).event_id_at(j),
            final(self).ready_view(t.priority.0 as int) == old(self).ready_view(t.priority.0 as int).push(t),
            forall|p: int|
                0 <= p < prios() && p != t.priority.0 as int ==> #[trigger] final(self).ready_view(p) == old(self).ready_view(p),
    {
        let prio = t.priority.0 as usize;
        let ghost pre = *self;
        proof {
            crate::array_pool::lemma_live_slots_le_len(pre.task_pool@);
            assert(pre.list_at(prio as int).inv(pre.task_pool));
        }
        let list = &mut self.tasks_ready[prio];
        let res = list.insert_back(&mut self.task_pool, t);
        match res {
            Ok(()) => {},
            Err(_) => {
                proof {
                    assert(false);
                }
            },
        }
        proof {
            let c = prio as int;
            let list_new = self.tasks_ready@[c];
            let ghost i = list_new.indices().last();
            assert(self.list_at(c) == list_new);
            assert forall|a: int| 0 <= a < pre.n_lists() && a != c implies #[trigger] self.list_at(a) == pre.list_at(a) by {}
            assert forall|x: usize| #[trigger] self.list_at(c).indices().contains(x)
                implies pre.list_at(c).indices().contains(x) || seq![i].contains(x) by {
                let ord = self.list_at(c).indices();
                let kx = choose|kx: int| 0 <= kx < ord.len() && ord[kx] == x;
                if kx < ord.len() - 1 {
                    assert(pre.list_at(c).indices()[kx] == x);
                } else {
                    assert(seq![i][0] == i);
                }
            }
            assert forall|x: usize| #[trigger] seq![i].contains(x) implies x == i by {
                assert(seq![i][0] == i);
            }
            assert(list_new.indices()[list_new.indices().len() - 1] == i);
            assert(list_new.indices().contains(i));
            list_new.lemma_member_occupied(self.task_pool, i);
            Self::lemma_lists_frame(pre, *self, c, seq![i]);
            assert(self.ready_view(c) == pre.ready_view(c).push(t));
            assert forall|p2: int| 0 <= p2 < prios() && p2 != c implies #[trigger] self.ready_view(p2) == pre.ready_view(p2) by {
                assert(self.list_at(p2).view_in(self.task_pool) == pre.list_at(p2).view_in(pre.task_pool));
            }
            assert(self.list_at(prios()).view_in(self.task_pool) == pre.list_at(prios()).view_in(pre.task_pool));
            assert(self.sleeping_view() == pre.sleeping_view());
            assert(self.list_at(prios() + 1).view_in(self.task_pool) == pre.list_at(prios() + 1).view_in(pre.task_pool));
            assert(self.terminated_view() == pre.terminated_view());
            assert forall|j: int| 0 <= j < pre.events_len() implies #[trigger] self.pending_view(j) == pre.pending_view(j)
                && self.event_id_at(j) == pre.event_id_at(j) by {
                assert(self.list_at(prios() + 2 + j).view_in(self.task_pool) == pre.list_at(prios() + 2 + j).view_in(pre.task_pool));
            }
            assert forall|p2: int, m: int|
                0 <= p2 < prios() && 0 <= m < self.ready_view(p2).len() implies (#[trigger] self.ready_view(p2)[m]).priority.0 == p2 by {
                if p2 != c || m < pre.ready_view(c).len() {
                    assert(pre.ready_view(p2)[m].priority.0 == p2);
                }
            }
            assert forall|a: int, m: int|
                0 <= a < self.n_lists() && 0 <= m < self.list_at(a).view_in(self.task_pool).len()
                implies Self::stored_task_ok(#[trigger] self.list_at(a).view_in(self.task_pool)[m]) by {
                if a != c {
                    assert(self.list_at(a).view_in(self.task_pool) == pre.list_at(a).view_in(pre.task_pool));
                    assert(Self::stored_task_ok(pre.list_at(a).view_in(pre.task_pool)[m]));
                } else if m < pre.list_at(c).view_in(pre.task_pool).len() {
                    assert(self.list_at(c).view_in(self.task_pool) == self.ready_view(c));
                    assert(Self::stored_task_ok(pre.list_at(c).view_in(pre.task_pool)[m]));
                } else {
                    assert(self.list_at(c).view_in(self.task_pool) == self.ready_view(c));
                }
            }
            assert forall|j: int| 0 <= j < self.events@.len() implies sorted_by::<Task, PriorityOrder>(#[trigger] self.pending_view(j)) by {
                assert(self.pending_view(j) == pre.pending_view(j));
                assert(sorted_by::<Task, PriorityOrder>(pre.pending_view(j)));
            }
            let tr = pre.task_running;
            if tr is Some && tr->0.transition is Blocked {
                Self::lemma_event_exists_stable(pre, *self, tr->0.blocking_event->0);
            }
        }
    }

    /// Appends a stored task to the terminated list. Internal: the caller has
    /// checked the task budget.
    fn append_terminated(&mut self, t: Task)
        requires
            old(self).inv(),
            Self::stored_task_ok(t),
            old(self).task_count() < old(self).task_capacity(),
        ensures
            final(self).inv(),
            final(self).spec_running() == old(self).spec_running(),
            final(self).spec_now() == old(self).spec_now(),
            final(self).spec_event_counter() == old(self).spec_event_counter(),
            final(self).task_capacity() == old(self).task_capacity(),
            final(self).task_count() == old(self).task_count() + 1,
            final(self).events_len() == old(self).events_len(),
            final(self).sleeping_view() == old(self).sleeping_view(),
            final(self).terminated_view() == old(self).terminated_view().push(t),
            forall|j: int|
                0 <= j < old(self).events_len() ==> #[trigger] final(self).pending_view(j) == old(self).pending_view(j)
                    && final(self).event_id_at(j) == old(self).event_id_at(j),
            forall|p: int|
                0 <= p < prios() ==> #[trigger] final(self).ready_view(p) == old(self).ready_view(p),
    {
        let ghost pre = *self;
        let ghost c = prios() + 1;
        proof {
            crate::array_pool::lemma_live_slots_le_len(pre.task_pool@);
            assert(pre.list_at(c).inv(pre.task_pool));
        }
        let res = self.tasks_terminated.insert_back(&mut self.task_pool, t);
        match res {
            Ok(()) => {},
            Err(_) => {
                proof {
                    assert(false);
                }
            },
        }
        proof {
            let list_new = self.tasks_terminated;
            let ghost i = list_new.indices().last();
            assert(self.list_at(c) == list_new);
            assert forall|a: int| 0 <= a < pre.n_lists() && a != c implies #[trigger] self.list_at(a) == pre.list_at(a) by {}
            assert forall|x: usize| #[trigger] self.list_at(c).indices().contains(x)
                implies pre.list_at(c).indices().contains(x) || seq![i].contains(x) by {
                let ord = self.list_at(c).indices();
                let kx = choose|kx: int| 0 <= kx < ord.len() && ord[kx] == x;
                if kx < ord.len() - 1 {
                    assert(pre.list_at(c).indices()[kx] == x);
                } else {
                    assert(seq![i][0] == i);
                }
            }
            assert forall|x: usize| #[trigger] seq![i].contains(x) implies x == i by {
                assert(seq![i][0] == i);
            }
            assert(list_new.indices()[list_new.indices().len() - 1] == i);
            assert(list_new.indices().contains(i));
            list_new.lemma_member_occupied(self.task_pool, i);
            Self::lemma_lists_frame(pre, *self, c, seq![i]);
            assert(self.terminated_view() == pre.terminated_view().push(t));
            assert forall|p2: int| 0 <= p2 < prios() implies #[trigger] self.ready_view(p2) == pre.ready_view(p2) by {
                assert(self.list_at(p2).view_in(self.task_pool) == pre.list_at(p2).view_in(pre.task_pool));
            }
            assert(self.list_at(prios()).view_in(self.task_pool) == pre.list_at(prios()).view_in(pre.task_pool));
            assert(self.sleeping_view() == pre.sleeping_view());
            assert forall|j: int| 0 <= j < pre.events_len() implies #[trigger] self.pending_view(j) == pre.pending_view(j)
                && self.event_id_at(j) == pre.event_id_at(j) by {
                assert(self.list_at(prios() + 2 + j).view_in(self.task_pool) == pre.list_at(prios() + 2 + j).view_in(pre.task_pool));
            }
            assert forall|p2: int, m: int|
                0 <= p2 < prios() && 0 <= m < self.ready_view(p2).len() implies (#[trigger] self.ready_view(p2)[m]).priority.0 == p2 by {
                assert(pre.ready_view(p2)[m].priority.0 == p2);
            }
            assert forall|a: int, m: int|
                0 <= a < self.n_lists() && 0 <= m < self.list_at(a).view_in(self.task_pool).len()
                implies Self::stored_task_ok(#[trigger] self.list_at(a).view_in(self.task_pool)[m]) by {
                if a != c {
                    assert(self.list_at(a).view_in(self.task_pool) == pre.list_at(a).view_in(pre.task_pool));
                    assert(Self::stored_task_ok(pre.list_at(a).view_in(pre.task_pool)[m]));
                } else if m < pre.list_at(c).view_in(pre.task_pool).len() {
                    assert(self.list_at(c).view_in(self.task_pool) == self.terminated_view());
                    assert(Self::stored_task_ok(pre.list_at(c).view_in(pre.task_pool)[m]));
                } else {
                    assert(self.list_at(c).view_in(self.task_pool) == self.terminated_view());
                }
            }
            assert forall|j: int| 0 <= j < self.events@.len() implies sorted_by::<Task, PriorityOrder>(#[trigger] self.pending_view(j)) by {
                assert(self.pending_view(j) == pre.pending_view(j));
                assert(sorted_by::<Task, PriorityOrder>(pre.pending_view(j)));
            }
            let tr = pre.task_running;
            if tr is Some && tr->0.transition is Blocked {
                Self::lemma_event_exists_stable(pre, *self, tr->0.blocking_event->0);
            }
        }
    }

    /// Orders used by the dispatcher are strict and coherent.
    proof fn lemma_wake_order_laws()
        ensures
            forall|a: Task| !#[trigger] WakeOrder::precedes(a, a),
            forall|a: Task, b: Task, c: Task|
                #[trigger] WakeOrder::precedes(a, b) && !#[trigger] WakeOrder::precedes(c, b)
                    ==> !WakeOrder::precedes(c, a),
            forall|a: Task| !#[trigger] PriorityOrder::precedes(a, a),
            forall|a: Task, b: Task, c: Task|
                #[trigger] PriorityOrder::precedes(a, b) && !#[trigger] PriorityOrder::precedes(c, b)
                    ==> !PriorityOrder::precedes(c, a),
    {
    }

    /// Inserts a stored task into the sleeping list, keeping it ordered by
    /// wake time. Internal: the caller has checked the task budget.
    fn insert_sleeping(&mut self, t: Task)
        requires
            old(self).inv(),
            Self::stored_task_ok(t),
            old(self).task_count() < old(self).task_capacity(),
        ensures
            final(self).inv(),
            final(self).spec_running() == old(self).spec_running(),
            final(self).spec_now() == old(self).spec_now(),
            final(self).spec_event_counter() == old(self).spec_event_counter(),
            final(self).task_capacity() == old(self).task_capacity(),
            final(self).task_count() == old(self).task_count() + 1,
            final(self).events_len() == old(self).events_len(),
            final(self).terminated_view() == old(self).terminated_view(),
            forall|p: int|
                0 <= p < prios() ==> #[trigger] final(self).ready_view(p) == old(self).ready_view(p),
            forall|j: int|
                0 <= j < old(self).events_len() ==> #[trigger] final(self).pending_view(j) == old(self).pending_view(j)
                    && final(self).event_id_at(j) == old(self).event_id_at(j),
            exists|q: int|
                {
                    &&& 0 <= q <= old(self).sleeping_view().len()
                    &&& #[trigger] final(self).sleeping_view() == old(self).sleeping_view().insert(q, t)
                    &&& (forall|m: int|
                        0 <= m < q ==> !WakeOrder::precedes(t, #[trigger] old(self).sleeping_view()[m]))
                    &&& (q < old(self).sleeping_view().len() ==> WakeOrder::precedes(t, old(self).sleeping_view()[q]))
                },
    {
        let ghost pre = *self;
        let ghost c = prios();
        proof {
            crate::array_pool::lemma_live_slots_le_len(pre.task_pool@);
            assert(pre.list_at(c).inv(pre.task_pool));
            pre.tasks_sleeping.lemma_len_counts_nodes(pre.task_pool);
        }
        let res = self.tasks_sleeping.insert_when::<WakeOrder>(&mut self.task_pool, t);
        match res {
            Ok(()) => {},
            Err(_) => {
                proof {
                    assert(false);
                }
            },
        }
        proof {
            let old_view = pre.sleeping_view();
            let old_ord = pre.tasks_sleeping.indices();
            assert(self.list_at(c) == self.tasks_sleeping);
            let q = choose|q: int|
                {
                    &&& 0 <= q <= old_view.len()
                    &&& #[trigger] self.tasks_sleeping.view_in(self.task_pool) == old_view.insert(q, t)
                    &&& (forall|m: int| 0 <= m < q ==> !WakeOrder::precedes(t, #[trigger] old_view[m]))
                    &&& (q < old_view.len() ==> WakeOrder::precedes(t, old_view[q]))
                    &&& exists|i: usize|
                        {
                            &&& pre.task_pool@[i as int] is None
                            &&& #[trigger] self.tasks_sleeping.indices() == old_ord.insert(q, i)
                            &&& LinkedList::<Task>::same_outside(pre.task_pool@, self.task_pool@, old_ord, seq![i])
                        }
                };
            let i = choose|i: usize|
                {
                    &&& pre.task_pool@[i as int] is None
                    &&& #[trigger] self.tasks_sleeping.indices() == old_ord.insert(q, i)
                    &&& LinkedList::<Task>::same_outside(pre.task_pool@, self.task_pool@, old_ord, seq![i])
                };
            assert forall|x: usize| #[trigger] self.list_at(c).indices().contains(x)
                implies pre.list_at(c).indices().contains(x) || seq![i].contains(x) by {
                let ord = self.list_at(c).indices();
                let kx = choose|kx: int| 0 <= kx < ord.len() && ord[kx] == x;
                if kx == q {
                    assert(ord[kx] == i);
                    assert(seq![i][0] == i);
                } else if kx < q {
                    assert(old_ord[kx] == x);
                } else {
                    assert(old_ord[kx - 1] == x);
                }
            }
            assert forall|x: usize| #[trigger] seq![i].contains(x) implies x == i by {
                assert(seq![i][0] == i);
            }
            assert(self.tasks_sleeping.indices()[q] == i);
            assert(self.tasks_sleeping.indices().contains(i));
            self.tasks_sleeping.lemma_member_occupied(self.task_pool, i);
            Self::lemma_lists_frame(pre, *self, c, seq![i]);
            assert(self.sleeping_view() == old_view.insert(q, t));
            assert forall|p2: int| 0 <= p2 < prios() implies #[trigger] self.ready_view(p2) == pre.ready_view(p2) by {
                assert(self.list_at(p2).view_in(self.task_pool) == pre.list_at(p2).view_in(pre.task_pool));
            }
            assert(self.list_at(prios() + 1).view_in(self.task_pool) == pre.list_at(prios() + 1).view_in(pre.task_pool));
            assert(self.terminated_view() == pre.terminated_view());
            assert forall|j: int| 0 <= j < pre.events_len() implies #[trigger] self.pending_view(j) == pre.pending_view(j)
                && self.event_id_at(j) == pre.event_id_at(j) by {
                assert(self.list_at(prios() + 2 + j).view_in(self.task_pool) == pre.list_at(prios() + 2 + j).view_in(pre.task_pool));
            }
            assert forall|p2: int, m: int|
                0 <= p2 < prios() && 0 <= m < self.ready_view(p2).len() implies (#[trigger] self.ready_view(p2)[m]).priority.0 == p2 by {
                assert(pre.ready_view(p2)[m].priority.0 == p2);
            }
            assert forall|a: int, m: int|
                0 <= a < self.n_lists() && 0 <= m < self.list_at(a).view_in(self.task_pool).len()
                implies Self::stored_task_ok(#[trigger] self.list_at(a).view_in(self.task_pool)[m]) by {
                if a != c {
                    assert(self.list_at(a).view_in(self.task_pool) == pre.list_at(a).view_in(pre.task_pool));
                    assert(Self::stored_task_ok(pre.list_at(a).view_in(pre.task_pool)[m]));
                } else {
                    assert(self.list_at(c).view_in(self.task_pool) == old_view.insert(q, t));
                    if m < q {
                        assert(old_view.insert(q, t)[m] == old_view[m]);
                        assert(Self::stored_task_ok(pre.list_at(c).view_in(pre.task_pool)[m]));
                    } else if m > q {
                        assert(old_view.insert(q, t)[m] == old_view[m - 1]);
                        assert(Self::stored_task_ok(pre.list_at(c).view_in(pre.task_pool)[m - 1]));
                    }
                }
            }
            Self::lemma_wake_order_laws();
            crate::linked_list::lemma_insert_when_sorted::<Task, WakeOrder>(old_view, t, q);
            assert(sorted_by::<Task, WakeOrder>(self.sleeping_view()));
            assert forall|j: int| 0 <= j < self.events@.len() implies sorted_by::<Task, PriorityOrder>(#[trigger] self.pending_view(j)) by {
                assert(self.pending_view(j) == pre.pending_view(j));
                assert(sorted_by::<Task, PriorityOrder>(pre.pending_view(j)));
            }
            let tr = pre.task_running;
            if tr is Some && tr->0.transition is Blocked {
                Self::lemma_event_exists_stable(pre, *self, tr->0.blocking_event->0);
            }
        }
    }

    /// Inserts a stored task into the pending list of the `j`-th event,
    /// keeping it ordered by priority, most urgent first. Internal: the
    /// caller has checked the task budget.
    fn insert_pending(&mut self, j: usize, t: Task)
        requires
            old(self).inv(),
            Self::stored_task_ok(t),
            old(self).task_count() < old(self).task_capacity(),
            (j as int) < old(self).events_len(),
        ensures
            final(self).inv(),
            final(self).spec_running() == old(self).spec_running(),
            final(self).spec_now() == old(self).spec_now(),
            final(self).spec_event_counter() == old(self).spec_event_counter(),
            final(self).task_capacity() == old(self).task_capacity(),
            final(self).task_count() == old(self).task_count() + 1,
            final(self).events_len() == old(self).events_len(),
            final(self).terminated_view() == old(self).terminated_view(),
            final(self).sleeping_view() == old(self).sleeping_view(),
            forall|p: int|
                0 <= p < prios() ==> #[trigger] final(self).ready_view(p) == old(self).ready_view(p),
            forall|j2: int|
                0 <= j2 < old(self).events_len() ==> #[trigger] final(self).event_id_at(j2) == old(self).event_id_at(j2),
            forall|j2: int|
                0 <= j2 < old(self).events_len() && j2 != j as int ==> #[trigger] final(self).pending_view(j2) == old(self).pending_view(j2),
            exists|q: int|
                {
                    &&& 0 <= q <= old(self).pending_view(j as int).len()
                    &&& #[trigger] final(self).pending_view(j as int) == old(self).pending_view(j as int).insert(q, t)
                    &&& (forall|m: int|
                        0 <= m < q ==> !PriorityOrder::precedes(t, #[trigger] old(self).pending_view(j as int)[m]))
                    &&& (q < old(self).pending_view(j as int).len() ==> PriorityOrder::precedes(t, old(self).pending_view(j as int)[q]))
                },
    {
        let ghost pre = *self;
        let ghost c = prios() + 2 + j as int;
        proof {
            crate::array_pool::lemma_live_slots_le_len(pre.task_pool@);
            assert(pre.list_at(c).inv(pre.task_pool));
            assert(pre.list_at(c) == pre.events@[j as int].pending);
            pre.events@[j as int].pending.lemma_len_counts_nodes(pre.task_pool);
        }
        let ev = &mut self.events[j];
        let res = ev.pending.insert_when::<PriorityOrder>(&mut self.task_pool, t);
        match res {
            Ok(()) => {},
            Err(_) => {
                proof {
                    assert(false);
                }
            },
        }
        proof {
            let old_view = pre.pending_view(j as int);
            let old_ord = pre.events@[j as int].pending.indices();
            assert(self.list_at(c) == self.events@[j as int].pending);
            let q = choose|q: int|
                {
                    &&& 0 <= q <= old_view.len()
                    &&& #[trigger] self.events@[j as int].pending.view_in(self.task_pool) == old_view.insert(q, t)
                    &&& (forall|m: int| 0 <= m < q ==> !PriorityOrder::precedes(t, #[trigger] old_view[m]))
                    &&& (q < old_view.len() ==> PriorityOrder::precedes(t, old_view[q]))
                    &&& exists|i: usize|
                        {
                            &&& pre.task_pool@[i as int] is None
                            &&& #[trigger] self.events@[j as int].pending.indices() == old_ord.insert(q, i)
                            &&& LinkedList::<Task>::same_outside(pre.task_pool@, self.task_pool@, old_ord, seq![i])
                        }
                };
            let i = choose|i: usize|
                {
                    &&& pre.task_pool@[i as int] is None
                    &&& #[trigger] self.events@[j as int].pending.indices() == old_ord.insert(q, i)
                    &&& LinkedList::<Task>::same_outside(pre.task_pool@, self.task_pool@, old_ord, seq![i])
                };
            assert forall|a: int| 0 <= a < pre.n_lists() && a != c implies #[trigger] self.list_at(a) == pre.list_at(a) by {}
            assert forall|x: usize| #[trigger] self.list_at(c).indices().contains(x)
                implies pre.list_at(c).indices().contains(x) || seq![i].contains(x) by {
                let ord = self.list_at(c).indices();
                let kx = choose|kx: int| 0 <= kx < ord.len() && ord[kx] == x;
                if kx == q {
                    assert(ord[kx] == i);
                    assert(seq![i][0] == i);
                } else if kx < q {
                    assert(old_ord[kx] == x);
                } else {
                    assert(old_ord[kx - 1] == x);
                }
            }
            assert forall|x: usize| #[trigger] seq![i].contains(x) implies x == i by {
                assert(seq![i][0] == i);
            }
            assert(self.list_at(c).indices()[q] == i);
            assert(self.list_at(c).indices().contains(i));
            self.events@[j as int].pending.lemma_member_occupied(self.task_pool, i);
            Self::lemma_lists_frame(pre, *self, c, seq![i]);
            assert(self.pending_view(j as int) == old_view.insert(q, t));
            assert forall|p2: int| 0 <= p2 < prios() implies #[trigger] self.ready_view(p2) == pre.ready_view(p2) by {
                assert(self.list_at(p2).view_in(self.task_pool) == pre.list_at(p2).view_in(pre.task_pool));
            }
            assert(self.list_at(prios()).view_in(self.task_pool) == pre.list_at(prios()).view_in(pre.task_pool));
            assert(self.sleeping_view() == pre.sleeping_view());
            assert(self.list_at(prios() + 1).view_in(self.task_pool) == pre.list_at(prios() + 1).view_in(pre.task_pool));
            assert(self.terminated_view() == pre.terminated_view());
            assert forall|j2: int| 0 <= j2 < pre.events_len() && j2 != j as int
                implies #[trigger] self.pending_view(j2) == pre.pending_view(j2) by {
                assert(self.list_at(prios() + 2 + j2).view_in(self.task_pool) == pre.list_at(prios() + 2 + j2).view_in(pre.task_pool));
            }
            assert forall|j2: int| 0 <= j2 < pre.events_len()
                implies #[trigger] self.event_id_at(j2) == pre.event_id_at(j2) by {}
            assert forall|p2: int, m: int|
                0 <= p2 < prios() && 0 <= m < self.ready_view(p2).len() implies (#[trigger] self.ready_view(p2)[m]).priority.0 == p2 by {
                assert(pre.ready_view(p2)[m].priority.0 == p2);
            }
            assert forall|a: int, m: int|
                0 <= a < self.n_lists() && 0 <= m < self.list_at(a).view_in(self.task_pool).len()
                implies Self::stored_task_ok(#[trigger] self.list_at(a).view_in(self.task_pool)[m]) by {
                if a != c {
                    assert(self.list_at(a).view_in(self.task_pool) == pre.list_at(a).view_in(pre.task_pool));
                    assert(Self::stored_task_ok(pre.list_at(a).view_in(pre.task_pool)[m]));
                } else {
                    assert(self.list_at(c).view_in(self.task_pool) == old_view.insert(q, t));
                    if m < q {
                        assert(old_view.insert(q, t)[m] == old_view[m]);
                        assert(Self::stored_task_ok(pre.list_at(c).view_in(pre.task_pool)[m]));
                    } else if m > q {
                        assert(old_view.insert(q, t)[m] == old_view[m - 1]);
                        assert(Self::stored_task_ok(pre.list_at(c).view_in(pre.task_pool)[m - 1]));
                    }
                }
            }
            Self::lemma_wake_order_laws();
            crate::linked_list::lemma_insert_when_sorted::<Task, PriorityOrder>(old_view, t, q);
            assert forall|j2: int| 0 <= j2 < self.events@.len() implies sorted_by::<Task, PriorityOrder>(#[trigger] self.pending_view(j2)) by {
                if j2 != j as int {
                    assert(self.pending_view(j2) == pre.pending_view(j2));
                    assert(sorted_by::<Task, PriorityOrder>(pre.pending_view(j2)));
                } else {
                    assert(self.pending_view(j2) == old_view.insert(q, t));
                }
            }
            assert(sorted_by::<Task, WakeOrder>(self.sleeping_view()));
            let tr = pre.task_running;
            if tr is Some && tr->0.transition is Blocked {
                Self::lemma_event_exists_stable(pre, *self, tr->0.blocking_event->0);
            }
        }
    }

    /// Detaches and returns the front task of the ready list of priority `p`.
    fn take_ready_front(&mut self, p: usize) -> (t: Task)
        requires
            old(self).inv(),
            p < conf::TASK_PRIORITIES,
            old(self).ready_view(p as int).len() > 0,
        ensures
            final(self).inv(),
            final(self).spec_running() == old(self).spec_running(),
            final(self).spec_now() == old(self).spec_now(),
            final(self).spec_event_counter() == old(self).spec_event_counter(),
            final(self).task_capacity() == old(self).task_capacity(),
            final(self).task_count() == old(self).task_count() - 1,
            final(self).events_len() == old(self).events_len(),
            final(self).terminated_view() == old(self).terminated_view(),
            final(self).sleeping_view() == old(self).sleeping_view(),
            t == old(self).ready_view(p as int)[0],
            Self::stored_task_ok(t),
            t.priority.0 == p,
            final(self).ready_view(p as int) == old(self).ready_view(p as int).drop_first(),
            forall|p2: int|
                0 <= p2 < prios() && p2 != p as int ==> #[trigger] final(self).ready_view(p2) == old(self).ready_view(p2),
            forall|j: int|
                0 <= j < old(self).events_len() ==> #[trigger] final(self).pending_view(j) == old(self).pending_view(j)
                    && final(self).event_id_at(j) == old(self).event_id_at(j),
    {
        let ghost pre = *self;
        let ghost c = p as int;
        proof {
            assert(pre.list_at(c).inv(pre.task_pool));
            pre.tasks_ready@[c].lemma_len_counts_nodes(pre.task_pool);
        }
        let list = &mut self.tasks_ready[p];
        let popped = list.pop_front(&mut self.task_pool);
        proof {
            assert(popped is Some);
        }
        let t = popped.unwrap();
        proof {
            let pord = pre.list_at(c).indices();
            assert(self.list_at(c) == self.tasks_ready@[c]);
            assert(self.list_at(c).indices() == pord.remove(0));
            assert forall|a: int| 0 <= a < pre.n_lists() && a != c implies #[trigger] self.list_at(a) == pre.list_at(a) by {}
            assert forall|x: usize| #[trigger] self.list_at(c).indices().contains(x)
                implies pre.list_at(c).indices().contains(x) || Seq::<usize>::empty().contains(x) by {
                let ord = self.list_at(c).indices();
                let kx = choose|kx: int| 0 <= kx < ord.len() && ord[kx] == x;
                assert(ord[kx] == pord.remove(0)[kx]);
                assert(pord.remove(0)[kx] == pord[kx + 1]);
            }
            Self::lemma_lists_frame(pre, *self, c, Seq::<usize>::empty());
            assert(self.ready_view(c) == pre.ready_view(c).remove(0));
            assert(self.ready_view(c) =~= pre.ready_view(c).drop_first());
            assert(t == pre.ready_view(c)[0]);
            assert(Self::stored_task_ok(pre.list_at(c).view_in(pre.task_pool)[0]));
            assert(t.priority.0 == p);
            assert forall|p2: int| 0 <= p2 < prios() && p2 != c implies #[trigger] self.ready_view(p2) == pre.ready_view(p2) by {
                assert(self.list_at(p2).view_in(self.task_pool) == pre.list_at(p2).view_in(pre.task_pool));
            }
            assert(self.list_at(prios()).view_in(self.task_pool) == pre.list_at(prios()).view_in(pre.task_pool));
            assert(self.sleeping_view() == pre.sleeping_view());
            assert(self.list_at(prios() + 1).view_in(self.task_pool) == pre.list_at(prios() + 1).view_in(pre.task_pool));
            assert(self.terminated_view() == pre.terminated_view());
            assert forall|j: int| 0 <= j < pre.events_len() implies #[trigger] self.pending_view(j) == pre.pending_view(j)
                && self.event_id_at(j) == pre.event_id_at(j) by {
                assert(self.list_at(prios() + 2 + j).view_in(self.task_pool) == pre.list_at(prios() + 2 + j).view_in(pre.task_pool));
            }
            assert forall|p2: int, m: int|
                0 <= p2 < prios() && 0 <= m < self.ready_view(p2).len() implies (#[trigger] self.ready_view(p2)[m]).priority.0 == p2 by {
                if p2 == c {
                    assert(self.ready_view(c)[m] == pre.ready_view(c)[m + 1]);
                    assert(pre.ready_view(p2)[m + 1].priority.0 == p2);
                } else {
                    assert(pre.ready_view(p2)[m].priority.0 == p2);
                }
            }
            assert forall|a: int, m: int|
                0 <= a < self.n_lists() && 0 <= m < self.list_at(a).view_in(self.task_pool).len()
                implies Self::stored_task_ok(#[trigger] self.list_at(a).view_in(self.task_pool)[m]) by {
                if a != c {
                    assert(self.list_at(a).view_in(self.task_pool) == pre.list_at(a).view_in(pre.task_pool));
                    assert(Self::stored_task_ok(pre.list_at(a).view_in(pre.task_pool)[m]));
                } else {
                    assert(self.list_at(c).view_in(self.task_pool) == self.ready_view(c));
                    assert(self.ready_view(c)[m] == pre.ready_view(c)[m + 1]);
                    assert(Self::stored_task_ok(pre.list_at(c).view_in(pre.task_pool)[m + 1]));
                }
            }
            assert forall|j2: int| 0 <= j2 < self.events@.len() implies sorted_by::<Task, PriorityOrder>(#[trigger] self.pending_view(j2)) by {
                assert(self.pending_view(j2) == pre.pending_view(j2));
                assert(sorted_by::<Task, PriorityOrder>(pre.pending_view(j2)));
            }
            let tr = pre.task_running;
            if tr is Some && tr->0.transition is Blocked {
                Self::lemma_event_exists_stable(pre, *self, tr->0.blocking_event->0);
            }
        }
        t
    }

    /// Replacing (or clearing) the running task alone keeps the invariant, as
    /// long as the new running task, if any, is admissible and the pool keeps
    /// the headroom for its later re-admission.
    proof fn lemma_inv_set_running(pre: Scheduler, post: Scheduler)
        requires
            pre.inv(),
            post.task_pool == pre.task_pool,
            post.tasks_ready@ == pre.tasks_ready@,
            post.tasks_sleeping == pre.tasks_sleeping,
            post.tasks_terminated == pre.tasks_terminated,
            post.events@ == pre.events@,
            post.event_counter == pre.event_counter,
            post.task_running matches Some(t) ==> (Self::stored_task_ok(t)
                && crate::array_pool::live_slots(pre.task_pool@) < pre.task_pool@.len()),
        ensures
            post.inv(),
            Self::same_containers(pre, post),
    {
        Self::lemma_inv_core_stable(pre, post);
        assert forall|p: int, m: int|
            0 <= p < prios() && 0 <= m < post.ready_view(p).len() implies (
        #[trigger] post.ready_view(p)[m]).priority.0 == p by {
            assert(post.ready_view(p) == pre.ready_view(p));
            assert(pre.ready_view(p)[m].priority.0 == p);
        }
        assert forall|a: int, m: int|
            0 <= a < post.n_lists() && 0 <= m < post.list_at(a).view_in(post.task_pool).len()
            implies Self::stored_task_ok(#[trigger] post.list_at(a).view_in(post.task_pool)[m]) by {
            assert(post.list_at(a) == pre.list_at(a));
            assert(Self::stored_task_ok(pre.list_at(a).view_in(pre.task_pool)[m]));
        }
        assert(post.sleeping_view() == pre.sleeping_view());
        assert forall|j: int| 0 <= j < post.events@.len() implies sorted_by::<Task, PriorityOrder>(
            #[trigger] post.pending_view(j),
        ) by {
            assert(post.pending_view(j) == pre.pending_view(j));
            assert(sorted_by::<Task, PriorityOrder>(pre.pending_view(j)));
        }
    }


    /// The full effect of one context switch: the paused task (with its stack
    /// pointer recorded and its transition consumed) is filed according to
    /// that transition, and the next running task is picked by strict
    /// priority from the resulting ready queues.
    /// The paused task as it is filed by a context switch: stack pointer
    /// recorded, one-shot transition consumed.
    pub open spec fn paused_of(pre: Scheduler, stack_ptr: usize) -> Task {
        let t0 = pre.spec_running()->0;
        Task {
            transition: Transition::Ready,
            stack: crate::stack::Stack { ptr: stack_ptr, ..t0.stack },
            ..t0
        }
    }

    /// The ready queues right after the paused task was filed: unchanged,
    /// unless the consumed transition sends the paused task back to the ready
    /// list of its priority.
    pub open spec fn mid_ready_of(pre: Scheduler, stack_ptr: usize) -> Seq<Seq<Task>> {
        let t0 = pre.spec_running()->0;
        if t0.transition is Ready {
            pre.ready_views().update(
                t0.priority.0 as int,
                pre.ready_view(t0.priority.0 as int).push(Self::paused_of(pre, stack_ptr)),
            )
        } else {
            pre.ready_views()
        }
    }

    /// The context switch, called by the architecture's trampoline with the
    /// paused task's stack pointer; returns the stack pointer of the task to
    /// resume. The paused task's saved stack pointer is recorded, and its
    /// one-shot transition is consumed: it goes back to its ready list, into
    /// the sleeping list ordered by wake time, into its event's pending list
    /// ordered by priority, or into the terminated list. Then the front of
    /// the lowest-numbered non-empty ready list becomes the running task.
    ///
    /// The caller guarantees that some task stays runnable (the idle task is
    /// always ready by design), and that the consumed transition is not the
    /// reserved `Resuming`.
    pub fn switch_context(&mut self, stack_ptr: usize) -> (r: usize)
        requires
            old(self).inv(),
            old(self).spec_running() is Some,
            !(old(self).spec_running()->0.transition is Resuming),
            old(self).spec_running()->0.transition is Ready || old(self).some_ready(),
        ensures
            final(self).inv(),
            final(self).spec_now() == old(self).spec_now(),
            final(self).spec_event_counter() == old(self).spec_event_counter(),
            final(self).task_capacity() == old(self).task_capacity(),
            final(self).task_count() == old(self).task_count(),
            final(self).events_len() == old(self).events_len(),
            forall|j: int|
                0 <= j < old(self).events_len() ==> #[trigger] final(self).event_id_at(j) == old(self).event_id_at(j),
            final(self).spec_running() is Some,
            r == final(self).spec_running()->0.stack.ptr,
            exists|pp: int|
                Self::picks(
                    Self::mid_ready_of(*old(self), stack_ptr),
                    final(self).ready_views(),
                    final(self).spec_running()->0,
                    pp,
                ),
            !(old(self).spec_running()->0.transition is Sleeping) ==> final(self).sleeping_view()
                == old(self).sleeping_view(),
            !(old(self).spec_running()->0.transition is Terminating) ==> final(self).terminated_view() == old(self).terminated_view(),
            !(old(self).spec_running()->0.transition is Blocked) ==> forall|j: int|
                0 <= j < old(self).events_len() ==> #[trigger] final(self).pending_view(j) == old(self).pending_view(j),
            old(self).spec_running()->0.transition is Sleeping ==> exists|q: int|
                {
                    let paused = Self::paused_of(*old(self), stack_ptr);
                    &&& 0 <= q <= old(self).sleeping_view().len()
                    &&& final(self).sleeping_view() == #[trigger] old(self).sleeping_view().insert(
                        q,
                        Self::paused_of(*old(self), stack_ptr),
                    )
                    &&& (forall|m: int|
                        0 <= m < q ==> !WakeOrder::precedes(
                            paused,
                            #[trigger] old(self).sleeping_view()[m],
                        ))
                    &&& (q < old(self).sleeping_view().len() ==> WakeOrder::precedes(
                        paused,
                        old(self).sleeping_view()[q],
                    ))
                },
            old(self).spec_running()->0.transition is Terminating ==> final(self).terminated_view() == old(self).terminated_view().push(
                Self::paused_of(*old(self), stack_ptr),
            ),
            old(self).spec_running()->0.transition is Blocked ==> exists|j: int|
                {
                    let paused = Self::paused_of(*old(self), stack_ptr);
                    &&& 0 <= j < old(self).events_len()
                    &&& #[trigger] old(self).event_id_at(j) == old(self).spec_running()->0.blocking_event->0
                    &&& exists|q: int|
                        {
                            &&& 0 <= q <= old(self).pending_view(j).len()
                            &&& final(self).pending_view(j) == #[trigger] old(self).pending_view(
                                j,
                            ).insert(q, Self::paused_of(*old(self), stack_ptr))
                            &&& (forall|m: int|
                                0 <= m < q ==> !PriorityOrder::precedes(
                                    paused,
                                    #[trigger] old(self).pending_view(j)[m],
                                ))
                            &&& (q < old(self).pending_view(j).len() ==> PriorityOrder::precedes(
                                paused,
                                old(self).pending_view(j)[q],
                            ))
                        }
                    &&& forall|j2: int|
                        0 <= j2 < old(self).events_len() && j2 != j ==> #[trigger] final(self).pending_view(j2) == old(self).pending_view(j2)
                },
    {
        let popped_running = self.task_running.take();
        let mut pausing = popped_running.unwrap();
        pausing.stack.ptr = stack_ptr;
        let trans = pausing.transition;
        pausing.transition = Transition::Ready;
        let ghost paused = pausing;
        let ghost mut blocked_j: int = 0;
        let ghost dsp0 = *self;
        proof {
            Self::lemma_inv_set_running(*old(self), dsp0);
            crate::array_pool::lemma_live_slots_le_len(dsp0.task_pool@);
            assert(Self::stored_task_ok(paused));
            assert(dsp0.task_count() < dsp0.task_capacity());
        }
        match trans {
            Transition::Ready => {
                self.enqueue_ready(pausing);
            },
            Transition::Sleeping => {
                self.insert_sleeping(pausing);
            },
            Transition::Blocked => {
                let id = pausing.blocking_event.unwrap();
                let n = self.events.len();
                let mut j: usize = 0;
                while j < n && self.events[j].id() != id
                    invariant
                        j <= n,
                        n == self.events@.len(),
                        *self == dsp0,
                        forall|m: int| 0 <= m < j ==> #[trigger] self.events@[m].id != id,
                    decreases n - j,
                {
                    j = j + 1;
                }
                proof {
                    if j == n {
                        assert(old(self).event_exists(id));
                        let jw = choose|jw: int|
                            0 <= jw < old(self).events_len() && old(self).event_id_at(jw) == id;
                        assert(dsp0.events@[jw].id == id);
                        assert(false);
                    }
                    assert(dsp0.event_id_at(j as int) == id);
                    blocked_j = j as int;
                }
                self.insert_pending(j, pausing);
            },
            Transition::Resuming => {
                proof {
                    assert(false);
                }
            },
            Transition::Terminating => {
                self.append_terminated(pausing);
            },
        }
        let ghost dsp = *self;
        let mut p: usize = 0;
        while p < conf::TASK_PRIORITIES && self.tasks_ready[p].len() == 0
            invariant
                *self == dsp,
                dsp.inv(),
                p <= conf::TASK_PRIORITIES,
                forall|q: int| 0 <= q < p ==> (#[trigger] dsp.ready_view(q)).len() == 0,
            decreases conf::TASK_PRIORITIES - p,
        {
            proof {
                assert(self.list_at(p as int).inv(self.task_pool));
                self.tasks_ready@[p as int].lemma_len_counts_nodes(self.task_pool);
            }
            p = p + 1;
        }
        proof {
            if p == conf::TASK_PRIORITIES {
                if trans is Ready {
                    let c = paused.priority.0 as int;
                    assert(dsp.ready_view(c).len() > 0);
                } else {
                    let p0 = choose|p0: int|
                        0 <= p0 < prios() && (#[trigger] old(self).ready_view(p0)).len() > 0;
                    assert(dsp.ready_view(p0).len() > 0);
                }
                assert(false);
            }
            assert(dsp.list_at(p as int).inv(dsp.task_pool));
            self.tasks_ready@[p as int].lemma_len_counts_nodes(self.task_pool);
        }
        let next = self.take_ready_front(p);
        let sp = next.stack_ptr();
        let ghost pk = *self;
        self.task_running = Some(next);
        proof {
            crate::array_pool::lemma_live_slots_le_len(pk.task_pool@);
            Self::lemma_inv_set_running(pk, *self);
            let t0 = old(self).spec_running()->0;
            let mid_ready = if t0.transition is Ready {
                old(self).ready_views().update(
                    t0.priority.0 as int,
                    old(self).ready_view(t0.priority.0 as int).push(paused),
                )
            } else {
                old(self).ready_views()
            };
            assert forall|q: int| 0 <= q < prios() implies #[trigger] mid_ready[q] == dsp.ready_view(q) by {
                if trans is Ready {
                    if q == t0.priority.0 as int {
                        assert(dsp.ready_view(q) == old(self).ready_view(q).push(paused));
                    } else {
                        assert(dsp.ready_view(q) == old(self).ready_view(q));
                    }
                } else {
                    assert(dsp.ready_view(q) == old(self).ready_view(q));
                }
            }
            assert(mid_ready =~= dsp.ready_views());
            assert forall|q: int| 0 <= q < prios() implies #[trigger] self.ready_views()[q]
                == dsp.ready_views().update(p as int, dsp.ready_view(p as int).drop_first())[q] by {
                assert(self.ready_view(q) == pk.ready_view(q));
                if q == p as int {
                    assert(pk.ready_view(q) == dsp.ready_view(q).drop_first());
                } else {
                    assert(pk.ready_view(q) == dsp.ready_view(q));
                }
            }
            assert(self.ready_views() =~= dsp.ready_views().update(
                p as int,
                dsp.ready_view(p as int).drop_first(),
            ));
            assert forall|q: int| 0 <= q < p as int implies (#[trigger] mid_ready[q]).len() == 0 by {
                assert(dsp.ready_view(q).len() == 0);
            }
            assert(next == dsp.ready_view(p as int)[0]);
            assert(Self::picks(mid_ready, self.ready_views(), next, p as int));
            // chain the remaining containers back to the caller's state
            assert(dsp0.sleeping_view() == old(self).sleeping_view());
            assert(dsp0.terminated_view() == old(self).terminated_view());
            assert(self.sleeping_view() == pk.sleeping_view());
            assert(pk.sleeping_view() == dsp.sleeping_view());
            assert(self.terminated_view() == pk.terminated_view());
            assert(pk.terminated_view() == dsp.terminated_view());
            if !(trans is Sleeping) {
                assert(dsp.sleeping_view() == dsp0.sleeping_view());
            }
            if !(trans is Terminating) {
                assert(dsp.terminated_view() == dsp0.terminated_view());
            }
            assert forall|j: int|
                0 <= j < old(self).events_len() implies #[trigger] self.event_id_at(j) == old(self).event_id_at(j)
                    && self.pending_view(j) == dsp.pending_view(j)
                    && dsp0.pending_view(j) == old(self).pending_view(j) by {
                let x0 = old(self).pending_view(j);
                let x1 = dsp0.pending_view(j);
                let x2 = dsp.pending_view(j);
                let x3 = pk.pending_view(j);
                let x4 = self.pending_view(j);
                let y1 = dsp0.event_id_at(j);
                let y2 = dsp.event_id_at(j);
                let y3 = pk.event_id_at(j);
                assert(x4 == x3 && x3 == x2);
                assert(x1 == x0);
            }
            if !(trans is Blocked) {
                assert forall|j: int|
                    0 <= j < old(self).events_len() implies #[trigger] self.pending_view(j)
                        == old(self).pending_view(j) by {
                    assert(dsp.pending_view(j) == dsp0.pending_view(j));
                }
            }
            if trans is Sleeping {
                let osv = dsp0.sleeping_view();
                let q = choose|q: int|
                    {
                        &&& 0 <= q <= osv.len()
                        &&& #[trigger] dsp.sleeping_view() == osv.insert(q, paused)
                        &&& (forall|m: int| 0 <= m < q ==> !WakeOrder::precedes(paused, #[trigger] osv[m]))
                        &&& (q < osv.len() ==> WakeOrder::precedes(paused, osv[q]))
                    };
                assert(self.sleeping_view() == old(self).sleeping_view().insert(q, paused));
                assert forall|m: int| 0 <= m < q implies !WakeOrder::precedes(
                    paused,
                    #[trigger] old(self).sleeping_view()[m],
                ) by {
                    assert(!WakeOrder::precedes(paused, osv[m]));
                }
            }
            if trans is Terminating {
                assert(self.terminated_view() == old(self).terminated_view().push(paused));
            }
            if trans is Blocked {
                let jj = blocked_j;
                let opv = dsp0.pending_view(jj);
                let q = choose|q: int|
                    {
                        &&& 0 <= q <= opv.len()
                        &&& #[trigger] dsp.pending_view(jj) == opv.insert(q, paused)
                        &&& (forall|m: int| 0 <= m < q ==> !PriorityOrder::precedes(paused, #[trigger] opv[m]))
                        &&& (q < opv.len() ==> PriorityOrder::precedes(paused, opv[q]))
                    };
                assert(old(self).event_id_at(jj) == paused.blocking_event->0);
                assert(self.pending_view(jj) == old(self).pending_view(jj).insert(q, paused));
                assert forall|m: int| 0 <= m < q implies !PriorityOrder::precedes(
                    paused,
                    #[trigger] old(self).pending_view(jj)[m],
                ) by {
                    assert(!PriorityOrder::precedes(paused, opv[m]));
                }
                assert forall|j2: int|
                    0 <= j2 < old(self).events_len() && j2 != jj implies #[trigger] self.pending_view(j2)
                        == old(self).pending_view(j2) by {
                    assert(dsp.pending_view(j2) == dsp0.pending_view(j2));
                }
            }
            assert(self.spec_running() == Some(next));
            assert(paused == Self::paused_of(*old(self), stack_ptr));
            assert(mid_ready == Self::mid_ready_of(*old(self), stack_ptr));
            assert(Self::picks(mid_ready, self.ready_views(), self.spec_running()->0, p as int));
            assert(Self::picks(
                Self::mid_ready_of(*old(self), stack_ptr),
                self.ready_views(),
                self.spec_running()->0,
                p as int,
            ));


        }
        sp
    }

    /// Boots the scheduler: picks the first task to run — the front of the
    /// lowest-numbered non-empty ready list — and returns its stack pointer
    /// for the architecture's first unprivileged jump. The idle task must
    /// already be admitted, so a runnable task always exists.
    pub fn start(&mut self) -> (r: usize)
        requires
            old(self).inv(),
            old(self).spec_running() is None,
            old(self).ready_view(prios() - 1).len() > 0,
        ensures
            final(self).inv(),
            final(self).spec_running() is Some,
            r == final(self).spec_running()->0.stack.ptr,
            final(self).spec_now() == old(self).spec_now(),
            final(self).spec_event_counter() == old(self).spec_event_counter(),
            final(self).task_capacity() == old(self).task_capacity(),
            final(self).task_count() == old(self).task_count(),
            final(self).events_len() == old(self).events_len(),
            final(self).sleeping_view() == old(self).sleeping_view(),
            final(self).terminated_view() == old(self).terminated_view(),
            forall|j: int|
                0 <= j < old(self).events_len() ==> #[trigger] final(self).pending_view(j) == old(self).pending_view(j)
                    && final(self).event_id_at(j) == old(self).event_id_at(j),
            exists|pp: int|
                Self::picks(
                    old(self).ready_views(),
                    final(self).ready_views(),
                    final(self).spec_running()->0,
                    pp,
                ),
    {
        let ghost dsp = *self;
        let mut p: usize = 0;
        while p < conf::TASK_PRIORITIES && self.tasks_ready[p].len() == 0
            invariant
                *self == dsp,
                dsp.inv(),
                p <= conf::TASK_PRIORITIES,
                forall|q: int| 0 <= q < p ==> (#[trigger] dsp.ready_view(q)).len() == 0,
            decreases conf::TASK_PRIORITIES - p,
        {
            proof {
                assert(self.list_at(p as int).inv(self.task_pool));
                self.tasks_ready@[p as int].lemma_len_counts_nodes(self.task_pool);
            }
            p = p + 1;
        }
        proof {
            if p == conf::TASK_PRIORITIES {
                assert(dsp.ready_view(prios() - 1).len() > 0);
                assert(false);
            }
            assert(dsp.list_at(p as int).inv(dsp.task_pool));
            self.tasks_ready@[p as int].lemma_len_counts_nodes(self.task_pool);
        }
        let next = self.take_ready_front(p);
        let sp = next.stack_ptr();
        let ghost pk = *self;
        self.task_running = Some(next);
        proof {
            crate::array_pool::lemma_live_slots_le_len(dsp.task_pool@);
            Self::lemma_inv_set_running(pk, *self);
            assert forall|q: int| 0 <= q < prios() implies #[trigger] self.ready_views()[q]
                == dsp.ready_views().update(p as int, dsp.ready_view(p as int).drop_first())[q] by {
                assert(self.ready_view(q) == pk.ready_view(q));
                if q == p as int {
                    assert(pk.ready_view(q) == dsp.ready_view(q).drop_first());
                } else {
                    assert(pk.ready_view(q) == dsp.ready_view(q));
                }
            }
            assert(self.ready_views() =~= dsp.ready_views().update(
                p as int,
                dsp.ready_view(p as int).drop_first(),
            ));
            assert forall|q: int| 0 <= q < p as int implies (#[trigger] dsp.ready_views()[q]).len() == 0 by {
                assert(dsp.ready_view(q).len() == 0);
            }
            assert(self.spec_running() == Some(next));
            assert(next == dsp.ready_view(p as int)[0]);
            assert(Self::picks(dsp.ready_views(), self.ready_views(), self.spec_running()->0, p as int));
        }
        sp
    }

    /// Law: the sleeping list is always ordered by ascending wake time, so
    /// the tick sweep may stop at the first task that is not yet due.
    pub proof fn lemma_sleeping_sorted(self)
        requires
            self.inv(),
        ensures
            sorted_by::<Task, WakeOrder>(self.sleeping_view()),
    {
    }

    /// Law: every event's pending list is always ordered by descending
    /// urgency — the numerically smallest priority stands at the front — so a
    /// fire wakes the most urgent waiter.
    pub proof fn lemma_pending_sorted(self, j: int)
        requires
            self.inv(),
            0 <= j < self.events_len(),
        ensures
            sorted_by::<Task, PriorityOrder>(self.pending_view(j)),
            forall|m: int|
                0 <= m < self.pending_view(j).len() ==> self.pending_view(j)[0].priority.0 <= (
                #[trigger] self.pending_view(j)[m]).priority.0,
    {
        assert forall|m: int|
            0 <= m < self.pending_view(j).len() implies self.pending_view(j)[0].priority.0 <= (
        #[trigger] self.pending_view(j)[m]).priority.0 by {
            if m > 0 {
                assert(!PriorityOrder::precedes(self.pending_view(j)[m], self.pending_view(j)[0]));
            }
        }
    }

    /// Law: every ready queue holds only tasks of its own priority level.
    pub proof fn lemma_ready_priorities(self, p: int, m: int)
        requires
            self.inv(),
            0 <= p < prios(),
            0 <= m < self.ready_view(p).len(),
        ensures
            self.ready_view(p)[m].priority.0 == p,
    {
    }

    /// Law: the kernel never holds more tasks than the fixed task budget.
    pub proof fn lemma_task_budget(self)
        requires
            self.inv(),
        ensures
            self.task_count() <= self.task_capacity(),
    {
        crate::array_pool::lemma_live_slots_le_len(self.task_pool@);
    }

    /// Detaches and returns the front of the sleeping list: the task with the
    /// earliest wake time.
    fn take_sleeping_front(&mut self) -> (t: Task)
        requires
            old(self).inv(),
            old(self).sleeping_view().len() > 0,
        ensures
            final(self).inv(),
            final(self).spec_running() == old(self).spec_running(),
            final(self).spec_now() == old(self).spec_now(),
            final(self).spec_event_counter() == old(self).spec_event_counter(),
            final(self).task_capacity() == old(self).task_capacity(),
            final(self).task_count() == old(self).task_count() - 1,
            final(self).events_len() == old(self).events_len(),
            final(self).terminated_view() == old(self).terminated_view(),
            t == old(self).sleeping_view()[0],
            Self::stored_task_ok(t),
            final(self).sleeping_view() == old(self).sleeping_view().drop_first(),
            forall|p: int|
                0 <= p < prios() ==> #[trigger] final(self).ready_view(p) == old(self).ready_view(p),
            forall|j: int|
                0 <= j < old(self).events_len() ==> #[trigger] final(self).pending_view(j) == old(self).pending_view(j)
                    && final(self).event_id_at(j) == old(self).event_id_at(j),
    {
        let ghost pre = *self;
        let ghost c = prios();
        proof {
            assert(pre.list_at(c).inv(pre.task_pool));
            pre.tasks_sleeping.lemma_len_counts_nodes(pre.task_pool);
        }
        let popped = self.tasks_sleeping.pop_front(&mut self.task_pool);
        proof {
            assert(popped is Some);
        }
        let t = popped.unwrap();
        proof {
            let pord = pre.list_at(c).indices();
            assert(self.list_at(c) == self.tasks_sleeping);
            assert(self.list_at(c).indices() == pord.remove(0));
            assert forall|a: int| 0 <= a < pre.n_lists() && a != c implies #[trigger] self.list_at(a) == pre.list_at(a) by {}
            assert forall|x: usize| #[trigger] self.list_at(c).indices().contains(x)
                implies pre.list_at(c).indices().contains(x) || Seq::<usize>::empty().contains(x) by {
                let ord = self.list_at(c).indices();
                let kx = choose|kx: int| 0 <= kx < ord.len() && ord[kx] == x;
                assert(ord[kx] == pord.remove(0)[kx]);
                assert(pord.remove(0)[kx] == pord[kx + 1]);
            }
            Self::lemma_lists_frame(pre, *self, c, Seq::<usize>::empty());
            assert(self.sleeping_view() == pre.sleeping_view().remove(0));
            assert(self.sleeping_view() =~= pre.sleeping_view().drop_first());
            assert(t == pre.sleeping_view()[0]);
            assert(Self::stored_task_ok(pre.list_at(c).view_in(pre.task_pool)[0]));
            assert forall|p2: int| 0 <= p2 < prios() implies #[trigger] self.ready_view(p2) == pre.ready_view(p2) by {
                assert(self.list_at(p2).view_in(self.task_pool) == pre.list_at(p2).view_in(pre.task_pool));
            }
            assert(self.list_at(prios() + 1).view_in(self.task_pool) == pre.list_at(prios() + 1).view_in(pre.task_pool));
            assert(self.terminated_view() == pre.terminated_view());
            assert forall|j: int| 0 <= j < pre.events_len() implies #[trigger] self.pending_view(j) == pre.pending_view(j)
                && self.event_id_at(j) == pre.event_id_at(j) by {
                assert(self.list_at(prios() + 2 + j).view_in(self.task_pool) == pre.list_at(prios() + 2 + j).view_in(pre.task_pool));
            }
            assert forall|p2: int, m: int|
                0 <= p2 < prios() && 0 <= m < self.ready_view(p2).len() implies (#[trigger] self.ready_view(p2)[m]).priority.0 == p2 by {
                assert(pre.ready_view(p2)[m].priority.0 == p2);
            }
            assert forall|a: int, m: int|
                0 <= a < self.n_lists() && 0 <= m < self.list_at(a).view_in(self.task_pool).len()
                implies Self::stored_task_ok(#[trigger] self.list_at(a).view_in(self.task_pool)[m]) by {
                if a != c {
                    assert(self.list_at(a).view_in(self.task_pool) == pre.list_at(a).view_in(pre.task_pool));
                    assert(Self::stored_task_ok(pre.list_at(a).view_in(pre.task_pool)[m]));
                } else {
                    assert(self.list_at(c).view_in(self.task_pool) == self.sleeping_view());
                    assert(self.sleeping_view()[m] == pre.sleeping_view()[m + 1]);
                    assert(Self::stored_task_ok(pre.list_at(c).view_in(pre.task_pool)[m + 1]));
                }
            }
            let psv = pre.sleeping_view();
            assert forall|k1: int, k2: int|
                0 <= k1 < k2 < self.sleeping_view().len() implies !WakeOrder::precedes(
                #[trigger] self.sleeping_view()[k2],
                #[trigger] self.sleeping_view()[k1],
            ) by {
                assert(self.sleeping_view()[k1] == psv[k1 + 1]);
                assert(self.sleeping_view()[k2] == psv[k2 + 1]);
                assert(!WakeOrder::precedes(psv[k2 + 1], psv[k1 + 1]));
            }
            assert forall|j2: int| 0 <= j2 < self.events@.len() implies sorted_by::<Task, PriorityOrder>(#[trigger] self.pending_view(j2)) by {
                assert(self.pending_view(j2) == pre.pending_view(j2));
                assert(sorted_by::<Task, PriorityOrder>(pre.pending_view(j2)));
            }
            let tr = pre.task_running;
            if tr is Some && tr->0.transition is Blocked {
                Self::lemma_event_exists_stable(pre, *self, tr->0.blocking_event->0);
            }
        }
        t
    }

    /// Detaches and returns the front of the `j`-th event's pending list: its
    /// single most urgent waiter.
    fn take_pending_front(&mut self, j: usize) -> (t: Task)
        requires
            old(self).inv(),
            (j as int) < old(self).events_len(),
            old(self).pending_view(j as int).len() > 0,
        ensures
            final(self).inv(),
            final(self).spec_running() == old(self).spec_running(),
            final(self).spec_now() == old(self).spec_now(),
            final(self).spec_event_counter() == old(self).spec_event_counter(),
            final(self).task_capacity() == old(self).task_capacity(),
            final(self).task_count() == old(self).task_count() - 1,
            final(self).events_len() == old(self).events_len(),
            final(self).terminated_view() == old(self).terminated_view(),
            final(self).sleeping_view() == old(self).sleeping_view(),
            t == old(self).pending_view(j as int)[0],
            Self::stored_task_ok(t),
            forall|m: int|
                0 <= m < old(self).pending_view(j as int).len() ==> t.priority.0 <= (
                #[trigger] old(self).pending_view(j as int)[m]).priority.0,
            final(self).pending_view(j as int) == old(self).pending_view(j as int).drop_first(),
            forall|j2: int|
                0 <= j2 < old(self).events_len() && j2 != j as int ==> #[trigger] final(self).pending_view(j2) == old(self).pending_view(j2),
            forall|j2: int|
                0 <= j2 < old(self).events_len() ==> #[trigger] final(self).event_id_at(j2) == old(self).event_id_at(j2),
            forall|p: int|
                0 <= p < prios() ==> #[trigger] final(self).ready_view(p) == old(self).ready_view(p),
    {
        let ghost pre = *self;
        let ghost c = prios() + 2 + j as int;
        proof {
            assert(pre.list_at(c).inv(pre.task_pool));
            assert(pre.list_at(c) == pre.events@[j as int].pending);
            pre.events@[j as int].pending.lemma_len_counts_nodes(pre.task_pool);
        }
        let ev = &mut self.events[j];
        let popped = ev.pending.pop_front(&mut self.task_pool);
        proof {
            assert(popped is Some);
        }
        let t = popped.unwrap();
        proof {
            let pord = pre.list_at(c).indices();
            assert(self.list_at(c) == self.events@[j as int].pending);
            assert(self.list_at(c).indices() == pord.remove(0));
            assert forall|a: int| 0 <= a < pre.n_lists() && a != c implies #[trigger] self.list_at(a) == pre.list_at(a) by {}
            assert forall|x: usize| #[trigger] self.list_at(c).indices().contains(x)
                implies pre.list_at(c).indices().contains(x) || Seq::<usize>::empty().contains(x) by {
                let ord = self.list_at(c).indices();
                let kx = choose|kx: int| 0 <= kx < ord.len() && ord[kx] == x;
                assert(ord[kx] == pord.remove(0)[kx]);
                assert(pord.remove(0)[kx] == pord[kx + 1]);
            }
            Self::lemma_lists_frame(pre, *self, c, Seq::<usize>::empty());
            assert(self.pending_view(j as int) == pre.pending_view(j as int).remove(0));
            assert(self.pending_view(j as int) =~= pre.pending_view(j as int).drop_first());
            assert(t == pre.pending_view(j as int)[0]);
            assert(Self::stored_task_ok(pre.list_at(c).view_in(pre.task_pool)[0]));
            let ppv = pre.pending_view(j as int);
            assert forall|m: int| 0 <= m < ppv.len() implies t.priority.0 <= (#[trigger] ppv[m]).priority.0 by {
                if m > 0 {
                    assert(!PriorityOrder::precedes(ppv[m], ppv[0]));
                }
            }
            assert forall|p2: int| 0 <= p2 < prios() implies #[trigger] self.ready_view(p2) == pre.ready_view(p2) by {
                assert(self.list_at(p2).view_in(self.task_pool) == pre.list_at(p2).view_in(pre.task_pool));
            }
            assert(self.list_at(prios()).view_in(self.task_pool) == pre.list_at(prios()).view_in(pre.task_pool));
            assert(self.sleeping_view() == pre.sleeping_view());
            assert(self.list_at(prios() + 1).view_in(self.task_pool) == pre.list_at(prios() + 1).view_in(pre.task_pool));
            assert(self.terminated_view() == pre.terminated_view());
            assert forall|j2: int| 0 <= j2 < pre.events_len() && j2 != j as int
                implies #[trigger] self.pending_view(j2) == pre.pending_view(j2) by {
                assert(self.list_at(prios() + 2 + j2).view_in(self.task_pool) == pre.list_at(prios() + 2 + j2).view_in(pre.task_pool));
            }
            assert forall|j2: int| 0 <= j2 < pre.events_len()
                implies #[trigger] self.event_id_at(j2) == pre.event_id_at(j2) by {}
            assert forall|p2: int, m: int|
                0 <= p2 < prios() && 0 <= m < self.ready_view(p2).len() implies (#[trigger] self.ready_view(p2)[m]).priority.0 == p2 by {
                assert(pre.ready_view(p2)[m].priority.0 == p2);
            }
            assert forall|a: int, m: int|
                0 <= a < self.n_lists() && 0 <= m < self.list_at(a).view_in(self.task_pool).len()
                implies Self::stored_task_ok(#[trigger] self.list_at(a).view_in(self.task_pool)[m]) by {
                if a != c {
                    assert(self.list_at(a).view_in(self.task_pool) == pre.list_at(a).view_in(pre.task_pool));
                    assert(Self::stored_task_ok(pre.list_at(a).view_in(pre.task_pool)[m]));
                } else {
                    assert(self.list_at(c).view_in(self.task_pool) == self.pending_view(j as int));
                    assert(self.pending_view(j as int)[m] == pre.pending_view(j as int)[m + 1]);
                    assert(Self::stored_task_ok(pre.list_at(c).view_in(pre.task_pool)[m + 1]));
                }
            }
            assert forall|j2: int| 0 <= j2 < self.events@.len() implies sorted_by::<Task, PriorityOrder>(#[trigger] self.pending_view(j2)) by {
                if j2 != j as int {
                    assert(self.pending_view(j2) == pre.pending_view(j2));
                    assert(sorted_by::<Task, PriorityOrder>(pre.pending_view(j2)));
                } else {
                    assert forall|k1: int, k2: int|
                        0 <= k1 < k2 < self.pending_view(j2).len() implies !PriorityOrder::precedes(
                        #[trigger] self.pending_view(j2)[k2],
                        #[trigger] self.pending_view(j2)[k1],
                    ) by {
                        assert(self.pending_view(j2)[k1] == ppv[k1 + 1]);
                        assert(self.pending_view(j2)[k2] == ppv[k2 + 1]);
                        assert(!PriorityOrder::precedes(ppv[k2 + 1], ppv[k1 + 1]));
                    }
                }
            }
            let tr = pre.task_running;
            if tr is Some && tr->0.transition is Blocked {
                Self::lemma_event_exists_stable(pre, *self, tr->0.blocking_event->0);
            }
        }
        t
    }
}

} // verus!
