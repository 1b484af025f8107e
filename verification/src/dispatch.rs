//! Jobs that run beside each other, each as soon as the containers that it
//! depends on are finished.

use vstd::prelude::*;

use crate::circular::{
    circle_of, first_circle, lemma_first_circle_is_one,
    lemma_first_leading_back_is_one, reported, CircularDependencyView,
};
use crate::config::{Container, ContainerView};
use crate::grounded::{
    after, fewest, found_circle, grounded, leads_to, lemma_fewer_before, lemma_found_circle,
    lemma_leads_to, names_at, stands_for, stuck,
};
use crate::job::{queue_views, ContainerSetupJob, JobView};
use crate::schedule::names;
use crate::text::{contains, copy_texts, texts};

verus! {

/// How far a job has come.
#[derive(Debug, Clone, Copy, PartialEq, Eq, Structural)]
pub enum Status {
    /// It has not been started.
    Waiting,
    /// It has been started.
    Running,
    /// It is finished.
    Finished,
    /// It was started and will not be finished.
    Failed,
}

/// The jobs of a queue and how far they have come.
#[derive(Debug)]
pub struct Dispatcher {
    names: Vec<String>,
    depends: Vec<Option<Vec<String>>>,
    status: Vec<Status>,
    finished: Vec<String>,
}

/// What a [`Dispatcher`] reads.
pub ghost struct DispatcherView {
    /// The names of the containers.
    pub names: Seq<Seq<char>>,
    /// The dependencies of the containers.
    pub depends: Seq<Option<Seq<Seq<char>>>>,
    /// How far each job has come.
    pub status: Seq<Status>,
    /// The names of the finished containers, in the order in which they were
    /// finished.
    pub finished: Seq<Seq<char>>,
}

/// What dependencies read.
pub open spec fn depends_view(depends: Option<Vec<String>>) -> Option<Seq<Seq<char>>> {
    match depends {
        Some(names) => Some(texts(names@)),
        None => None,
    }
}

impl View for Dispatcher {
    type V = DispatcherView;

    closed spec fn view(&self) -> DispatcherView {
        DispatcherView {
            names: texts(self.names@),
            depends: self.depends@.map_values(|d: Option<Vec<String>>| depends_view(d)),
            status: self.status@,
            finished: texts(self.finished@),
        }
    }
}

/// Whether all dependencies are finished. What has none need not wait.
pub open spec fn ready(depends: Option<Seq<Seq<char>>>, finished: Seq<Seq<char>>) -> bool {
    depends matches Some(wanted) ==> forall|k: int|
        0 <= k < wanted.len() ==> finished.contains(#[trigger] wanted[k])
}

/// The `k`-th finished name is that of the `i`-th job, which is finished, and
/// all of the job's dependencies stand before it in the list.
pub open spec fn finished_in_order(state: DispatcherView, k: int, i: int) -> bool {
    &&& 0 <= i < state.names.len()
    &&& state.status[i] == Status::Finished
    &&& state.names[i] == state.finished[k]
    &&& ready(state.depends[i], state.finished.take(k))
}

/// The `k`-th finished name is that of a finished job all of whose dependencies
/// stand before it in the list.
pub open spec fn in_order(state: DispatcherView, k: int) -> bool {
    exists|i: int| finished_in_order(state, k, i)
}

impl DispatcherView {
    /// Every job has a name, dependencies and a status. What has been started
    /// was ready. The finished names are those of the finished jobs, and each
    /// came behind all names that its job depends on.
    pub open spec fn wf(self) -> bool {
        &&& self.depends.len() == self.names.len()
        &&& self.status.len() == self.names.len()
        &&& forall|i: int|
            0 <= i < self.names.len() && self.status[i] != Status::Waiting ==> ready(
                #[trigger] self.depends[i],
                self.finished,
            )
        &&& forall|i: int|
            0 <= i < self.names.len() && self.status[i] == Status::Finished
                ==> self.finished.contains(#[trigger] self.names[i])
        &&& forall|k: int| 0 <= k < self.finished.len() ==> #[trigger] in_order(self, k)
    }

    /// The same jobs, with one of them in another status.
    pub open spec fn with_status(self, i: int, status: Status) -> DispatcherView {
        DispatcherView { status: self.status.update(i, status), ..self }
    }
}

/// A queue of which nothing has been started.
pub open spec fn waiting(queue: Seq<ContainerView>) -> DispatcherView {
    DispatcherView {
        names: queue.map_values(|c: ContainerView| c.name),
        depends: queue.map_values(|c: ContainerView| c.depends),
        status: queue.map_values(|c: ContainerView| Status::Waiting),
        finished: Seq::empty(),
    }
}

/// Whether all dependencies are among the finished names.
pub fn is_ready(depends: &Option<Vec<String>>, finished: &Vec<String>) -> (yes: bool)
    ensures
        yes == ready(depends_view(*depends), texts(finished@)),
        *depends is None ==> yes,
        *depends matches Some(wanted) ==> (yes <==> forall|k: int|
            0 <= k < wanted@.len() ==> texts(finished@).contains((#[trigger] wanted@[k])@)),
{
    proof {
        if *depends is Some {
            lemma_ready_names(depends->0@, texts(finished@));
        }
    }
    match depends {
        None => true,
        Some(wanted) => {
            let ghost all = texts(wanted@);
            let mut k: usize = 0;
            while k < wanted.len()
                invariant
                    k <= wanted.len(),
                    all == texts(wanted@),
                    depends_view(*depends) == Some(all),
                    forall|j: int| 0 <= j < k ==> texts(finished@).contains(#[trigger] all[j]),
                decreases wanted.len() - k,
            {
                assert(all[k as int] == wanted@[k as int]@);
                if !contains(finished, &wanted[k]) {
                    assert(!texts(finished@).contains(depends_view(*depends)->0[k as int]));
                    return false;
                }
                k = k + 1;
            }
            true
        },
    }
}

impl Dispatcher {
    /// The jobs of a queue, none of them started.
    pub fn new(queue: &Vec<(Container, ContainerSetupJob)>) -> (dispatcher: Dispatcher)
        ensures
            dispatcher@ == waiting(
                queue_views(queue@).map_values(
                    |p: (ContainerView, JobView)| p.0,
                ),
            ),
            dispatcher@.wf(),
            dispatcher@.names.len() == queue@.len(),
            dispatcher@.finished.len() == 0,
            forall|i: int|
                0 <= i < queue@.len() ==> #[trigger] dispatcher@.names[i] == queue@[i].0.name@,
            forall|i: int|
                0 <= i < queue@.len() ==> #[trigger] dispatcher@.depends[i]
                    == queue@[i].0@.depends,
            forall|i: int|
                0 <= i < queue@.len() ==> #[trigger] dispatcher@.status[i] == Status::Waiting,
    {
        let mut names: Vec<String> = Vec::new();
        let mut depends: Vec<Option<Vec<String>>> = Vec::new();
        let mut status: Vec<Status> = Vec::new();
        let mut i: usize = 0;
        while i < queue.len()
            invariant
                i <= queue.len(),
                names.len() == i,
                depends.len() == i,
                status.len() == i,
                forall|j: int| 0 <= j < i ==> (#[trigger] names@[j])@ == queue@[j].0@.name,
                forall|j: int|
                    0 <= j < i ==> depends_view(#[trigger] depends@[j]) == queue@[j].0@.depends,
                forall|j: int| 0 <= j < i ==> #[trigger] status@[j] == Status::Waiting,
            decreases queue.len() - i,
        {
            let container = &queue[i].0;
            names.push(container.name.clone());
            depends.push(
                match &container.depends {
                    Some(wanted) => Some(copy_texts(wanted)),
                    None => None,
                },
            );
            status.push(Status::Waiting);
            i = i + 1;
        }
        let dispatcher = Dispatcher { names, depends, status, finished: Vec::new() };
        proof {
            let expected = waiting(
                queue_views(queue@).map_values(|p: (ContainerView, JobView)| p.0),
            );
            assert(dispatcher@.names =~= expected.names);
            assert(dispatcher@.depends =~= expected.depends);
            assert(dispatcher@.status =~= expected.status);
            assert(dispatcher@.finished =~= expected.finished);
        }
        dispatcher
    }

    /// Starts a job if all that it depends on is finished, and tells whether
    /// it did.
    pub fn try_start(&mut self, i: usize) -> (started: bool)
        requires
            old(self)@.wf(),
            i < old(self)@.names.len(),
            old(self)@.status[i as int] == Status::Waiting,
        ensures
            started == ready(old(self)@.depends[i as int], old(self)@.finished),
            final(self)@ == if started {
                old(self)@.with_status(i as int, Status::Running)
            } else {
                old(self)@
            },
            final(self)@.wf(),
    {
        let ghost before = self@;
        if !is_ready(&self.depends[i], &self.finished) {
            return false;
        }
        self.status.set(i, Status::Running);
        proof {
            let after = self@;
            assert(after =~= before.with_status(i as int, Status::Running));
            lemma_status_kept(before, i as int, Status::Running);
        }
        true
    }

    /// Records that a job is finished.
    pub fn finish(&mut self, i: usize)
        requires
            old(self)@.wf(),
            i < old(self)@.names.len(),
            old(self)@.status[i as int] == Status::Running,
        ensures
            final(self)@ == (DispatcherView {
                finished: old(self)@.finished.push(old(self)@.names[i as int]),
                ..old(self)@.with_status(i as int, Status::Finished)
            }),
            final(self)@.wf(),
    {
        let ghost before = self@;
        self.status.set(i, Status::Finished);
        let name = self.names[i].clone();
        self.finished.push(name);
        proof {
            let after = self@;
            assert(after.finished =~= before.finished.push(before.names[i as int]));
            lemma_finished(before, i as int);
        }
    }

    /// Records that a job will not be finished.
    pub fn fail(&mut self, i: usize)
        requires
            old(self)@.wf(),
            i < old(self)@.names.len(),
            old(self)@.status[i as int] == Status::Running,
        ensures
            final(self)@ == old(self)@.with_status(i as int, Status::Failed),
            final(self)@.wf(),
    {
        let ghost before = self@;
        self.status.set(i, Status::Failed);
        proof {
            lemma_status_kept(before, i as int, Status::Failed);
        }
    }
}

/// A job that is ready can change its status, unless it is finished.
proof fn lemma_status_kept(before: DispatcherView, i: int, status: Status)
    requires
        before.wf(),
        0 <= i < before.names.len(),
        before.status[i] != Status::Finished,
        status != Status::Finished,
        ready(before.depends[i], before.finished),
    ensures
        before.with_status(i, status).wf(),
{
    let after = before.with_status(i, status);
    assert forall|k: int| 0 <= k < after.finished.len() implies #[trigger] in_order(
        after,
        k,
    ) by {
        assert(in_order(before, k));
        let j = choose|j: int| finished_in_order(before, k, j);
        assert(finished_in_order(after, k, j));
    }
}

proof fn lemma_finished(before: DispatcherView, i: int)
    requires
        before.wf(),
        0 <= i < before.names.len(),
        before.status[i] == Status::Running,
    ensures
        (DispatcherView {
            finished: before.finished.push(before.names[i]),
            ..before.with_status(i, Status::Finished)
        }).wf(),
{
    let after = DispatcherView {
        finished: before.finished.push(before.names[i]),
        ..before.with_status(i, Status::Finished)
    };
    let last = before.finished.len() as int;
    assert(after.finished[last] == before.names[i]);
    assert forall|name: Seq<char>| before.finished.contains(name) implies after.finished.contains(
        name,
    ) by {
        let k = choose|k: int| 0 <= k < last && before.finished[k] == name;
        assert(after.finished[k] == name);
    }
    assert forall|j: int|
        0 <= j < after.names.len() && after.status[j] != Status::Waiting implies ready(
        #[trigger] after.depends[j],
        after.finished,
    ) by {
        assert(ready(before.depends[j], before.finished));
    }
    assert forall|k: int| 0 <= k < after.finished.len() implies #[trigger] in_order(
        after,
        k,
    ) by {
        if k < last {
            assert(in_order(before, k));
            let j = choose|j: int| finished_in_order(before, k, j);
            assert(after.finished.take(k) =~= before.finished.take(k));
            assert(finished_in_order(after, k, j));
        } else {
            assert(after.finished.take(k) =~= before.finished);
            assert(finished_in_order(after, k, i));
        }
    }
}

/// What names no dependencies is ready from the beginning.
pub proof fn law_independent_is_ready(finished: Seq<Seq<char>>)
    ensures
        ready(None, finished),
{
}

/// What is ready stays ready, whatever is finished besides.
pub proof fn law_ready_stays_ready(
    depends: Option<Seq<Seq<char>>>,
    finished: Seq<Seq<char>>,
    more: Seq<Seq<char>>,
)
    requires
        ready(depends, finished),
    ensures
        ready(depends, finished + more),
{
    if let Some(wanted) = depends {
        assert forall|k: int| 0 <= k < wanted.len() implies (finished + more).contains(
            #[trigger] wanted[k],
        ) by {
            let j = choose|j: int| 0 <= j < finished.len() && finished[j] == wanted[k];
            assert((finished + more)[j] == wanted[k]);
        }
    }
}

/// No container is finished before one that it depends on: where no two jobs
/// share a name, a finished name stands behind each name that the job which
/// bears it depends on.
pub proof fn law_dependencies_finish_first(state: DispatcherView, i: int, k: int, name: Seq<char>)
    requires
        state.wf(),
        state.names.no_duplicates(),
        0 <= i < state.names.len(),
        0 <= k < state.finished.len(),
        state.finished[k] == state.names[i],
        state.depends[i] matches Some(wanted) && wanted.contains(name),
    ensures
        state.finished.take(k).contains(name),
{
    assert(in_order(state, k));
    let o = choose|o: int| finished_in_order(state, k, o);
    assert(o == i);
    let wanted = state.depends[i]->0;
    let l = choose|l: int| 0 <= l < wanted.len() && wanted[l] == name;
    assert(state.finished.take(k).contains(wanted[l]));
}

/// Jobs that wait for each other in a circle, however long, are never started:
/// none of a set of jobs is, if each depends on one of the set and no two jobs
/// share a name. A job that depends on itself is such a set.
pub proof fn law_circles_wait_forever(state: DispatcherView, circle: Set<int>)
    requires
        state.wf(),
        state.names.no_duplicates(),
        forall|i: int| #[trigger] circle.contains(i) ==> 0 <= i < state.names.len(),
        forall|i: int| #[trigger]
            circle.contains(i) ==> exists|j: int|
                circle.contains(j) && state.depends[i] is Some && state.depends[i]->0.contains(
                    #[trigger] state.names[j],
                ),
    ensures
        forall|i: int| #[trigger] circle.contains(i) ==> state.status[i] == Status::Waiting,
{
    assert forall|i: int| #[trigger] circle.contains(i) implies state.status[i]
        == Status::Waiting by {
        if state.status[i] != Status::Waiting {
            assert(ready(state.depends[i], state.finished));
            let j = choose|j: int|
                circle.contains(j) && state.depends[i] is Some && state.depends[i]->0.contains(
                    #[trigger] state.names[j],
                );
            let wanted = state.depends[i]->0;
            let k = choose|k: int| 0 <= k < wanted.len() && wanted[k] == state.names[j];
            assert(state.finished.contains(wanted[k]));
            let p = choose|p: int| 0 <= p < state.finished.len() && state.finished[p] == wanted[k];
            lemma_circle_unfinished(state, circle, p, j);
        }
    }
}

proof fn lemma_circle_unfinished(state: DispatcherView, circle: Set<int>, p: int, i: int)
    requires
        state.wf(),
        state.names.no_duplicates(),
        forall|i: int| #[trigger] circle.contains(i) ==> 0 <= i < state.names.len(),
        forall|i: int| #[trigger]
            circle.contains(i) ==> exists|j: int|
                circle.contains(j) && state.depends[i] is Some && state.depends[i]->0.contains(
                    #[trigger] state.names[j],
                ),
        circle.contains(i),
        0 <= p < state.finished.len(),
    ensures
        state.finished[p] != state.names[i],
    decreases p,
{
    if state.finished[p] == state.names[i] {
        assert(in_order(state, p));
        let o = choose|o: int| finished_in_order(state, p, o);
        assert(o == i);
        let before = state.finished.take(p);
        let j = choose|j: int|
            circle.contains(j) && state.depends[i] is Some && state.depends[i]->0.contains(
                #[trigger] state.names[j],
            );
        let wanted = state.depends[i]->0;
        let k = choose|k: int| 0 <= k < wanted.len() && wanted[k] == state.names[j];
        assert(before.contains(wanted[k]));
        let q = choose|q: int| 0 <= q < before.len() && before[q] == wanted[k];
        assert(state.finished[q] == state.names[j]);
        lemma_circle_unfinished(state, circle, q, j);
    }
}

/// Whether every dependency of a job is the name of a job of lower rank.
pub open spec fn ranked(state: DispatcherView, rank: spec_fn(int) -> nat) -> bool {
    forall|i: int, k: int|
        0 <= i < state.names.len() && state.depends[i] is Some && 0 <= k
            < state.depends[i]->0.len() ==> exists|j: int|
            0 <= j < state.names.len() && #[trigger] state.names[j]
                == #[trigger] state.depends[i]->0[k] && rank(j) < rank(i)
}

/// Where the jobs can be ranked so that each depends on queued jobs of lower
/// rank only, and none is running or has failed, a job that has not been
/// started means that there is one that is ready.
pub proof fn law_no_deadlock(state: DispatcherView, rank: spec_fn(int) -> nat, i: int)
    requires
        state.wf(),
        ranked(state, rank),
        forall|j: int|
            0 <= j < state.names.len() ==> #[trigger] state.status[j] == Status::Waiting
                || state.status[j] == Status::Finished,
        0 <= i < state.names.len(),
        state.status[i] == Status::Waiting,
    ensures
        exists|j: int|
            0 <= j < state.names.len() && #[trigger] state.status[j] == Status::Waiting && ready(
                state.depends[j],
                state.finished,
            ),
    decreases rank(i),
{
    if !ready(state.depends[i], state.finished) {
        let wanted = state.depends[i]->0;
        let k = choose|k: int|
            0 <= k < wanted.len() && !state.finished.contains(#[trigger] wanted[k]);
        let j = choose|j: int|
            0 <= j < state.names.len() && #[trigger] state.names[j] == wanted[k] && rank(j) < rank(
                i,
            );
        assert(state.status[j] == Status::Waiting);
        law_no_deadlock(state, rank, j);
    }
}

/// Whether a container is one of the jobs.
pub open spec fn queued(state: DispatcherView, container: ContainerView, k: int) -> bool {
    &&& 0 <= k < state.names.len()
    &&& state.names[k] == container.name
    &&& state.depends[k] == container.depends
}

/// Containers that are reported for a circular dependency would wait forever:
/// where all containers are queued and no two jobs share a name, none of them
/// is ever started.
pub proof fn law_reported_containers_wait_forever(
    state: DispatcherView,
    containers: Seq<ContainerView>,
    k: int,
)
    requires
        state.wf(),
        state.names.no_duplicates(),
        forall|i: int|
            0 <= i < containers.len() ==> exists|k: int|
                queued(state, #[trigger] containers[i], k),
        0 <= k < state.names.len(),
        reported(containers) matches Some(circle) && circle.members().contains(state.names[k]),
    ensures
        state.status[k] == Status::Waiting,
{
    let circle = reported(containers)->0;
    match circle {
        CircularDependencyView::OnItself { name } => {
            lemma_first_circle_is_one(containers, 0);
            let i = choose|i: int|
                0 <= i < containers.len() && circle_of(containers, #[trigger] containers[i])
                    == Some(circle);
            let at = choose|at: int| queued(state, containers[i], at);
            assert(circle.members()[0] == state.names[k]);
            assert(at == k);
            law_circles_wait_forever(state, set![k]);
            assert(set![k].contains(k));
        },
        CircularDependencyView::Through { name, other } => {
            lemma_first_circle_is_one(containers, 0);
            let i = choose|i: int|
                0 <= i < containers.len() && circle_of(containers, #[trigger] containers[i])
                    == Some(circle);
            let wanted = containers[i].depends->0;
            lemma_first_leading_back_is_one(containers, wanted, name, 0);
            names(containers).index_of_last_ensures(other);
            let j = stands_for(containers, other)->0;
            assert(names(containers)[j] == containers[j].name);
            let a = choose|a: int| queued(state, containers[i], a);
            let b = choose|b: int| queued(state, containers[j], b);
            assert(state.depends[b]->0.contains(state.names[a]));
            assert(state.depends[a]->0.contains(state.names[b]));
            let both = set![a, b];
            assert(both.contains(a) && both.contains(b));
            assert(circle.members()[0] == state.names[a]);
            assert(circle.members()[1] == state.names[b]);
            assert(k == a || k == b);
            law_circles_wait_forever(state, both);
        },
        CircularDependencyView::Around { path } => {
            if first_circle(containers, 0) is Some {
                lemma_first_circle_is_one(containers, 0);
            }
            lemma_found_circle(containers);
            let at = found_circle(containers)->0;
            assert(path == names_at(containers, at));
            let waiting = Set::new(
                |j: int| 0 <= j < state.names.len() && path.contains(state.names[j]),
            );
            assert forall|j: int| #[trigger] waiting.contains(j) implies exists|l: int|
                waiting.contains(l) && state.depends[j] is Some && state.depends[j]->0.contains(
                    #[trigger] state.names[l],
                ) by {
                let p = choose|p: int| 0 <= p < path.len() && path[p] == state.names[j];
                let q = after(p, at.len());
                assert(leads_to(containers, at[p], at[q]));
                lemma_leads_to(containers, at[p], at[q]);
                let o = choose|o: int| queued(state, containers[at[p]], o);
                assert(o == j);
                let l = choose|l: int| queued(state, containers[at[q]], l);
                assert(path[q] == state.names[l]);
                assert(waiting.contains(l));
            }
            law_circles_wait_forever(state, waiting);
            assert(waiting.contains(k));
        },
    }
}

/// Whether a job is that of a container of a list.
pub open spec fn listed(state: DispatcherView, containers: Seq<ContainerView>, k: int) -> bool {
    exists|i: int| 0 <= i < containers.len() && #[trigger] queued(state, containers[i], k)
}

/// Whether the jobs are those of the containers of a list, each of which has a
/// name of its own and depends on listed containers only.
pub open spec fn self_contained(state: DispatcherView, containers: Seq<ContainerView>) -> bool {
    &&& names(containers).no_duplicates()
    &&& forall|i: int|
        0 <= i < containers.len() ==> exists|k: int| queued(state, #[trigger] containers[i], k)
    &&& forall|k: int|
        0 <= k < state.names.len() ==> #[trigger] listed(state, containers, k)
    &&& forall|i: int, k: int|
        0 <= i < containers.len() && containers[i].depends is Some && 0 <= k
            < containers[i].depends->0.len() ==> names(containers).contains(
            #[trigger] containers[i].depends->0[k],
        )
}

/// Containers that pass the check for circular dependencies do not wait for
/// each other forever: where they are queued and depend on each other only, and
/// no job is running or has failed, a job that has not been started means that
/// there is one that is ready.
pub proof fn law_checked_containers_do_not_deadlock(
    state: DispatcherView,
    containers: Seq<ContainerView>,
    i: int,
)
    requires
        state.wf(),
        self_contained(state, containers),
        reported(containers) is None,
        forall|j: int|
            0 <= j < state.names.len() ==> #[trigger] state.status[j] == Status::Waiting
                || state.status[j] == Status::Finished,
        0 <= i < state.names.len(),
        state.status[i] == Status::Waiting,
    ensures
        exists|j: int|
            0 <= j < state.names.len() && #[trigger] state.status[j] == Status::Waiting && ready(
                state.depends[j],
                state.finished,
            ),
{
    let all = names(containers);
    let rank = |k: int| fewest(containers, stands_for(containers, state.names[k])->0);
    assert forall|j: int, k: int|
        0 <= j < state.names.len() && state.depends[j] is Some && 0 <= k
            < state.depends[j]->0.len() implies exists|l: int|
        0 <= l < state.names.len() && #[trigger] state.names[l]
            == #[trigger] state.depends[j]->0[k] && rank(l) < rank(j) by {
        assert(listed(state, containers, j));
        let a = choose|a: int|
            0 <= a < containers.len() && #[trigger] queued(state, containers[a], j);
        let name = containers[a].depends->0[k];
        all.index_of_last_ensures(containers[a].name);
        assert(all[a] == containers[a].name);
        assert(stands_for(containers, state.names[j]) == Some(a));
        assert(all.contains(name));
        all.index_of_last_ensures(name);
        let b = stands_for(containers, name)->0;
        assert(leads_to(containers, a, b));
        assert(all[b] == containers[b].name);
        let l = choose|l: int| queued(state, containers[b], l);
        assert(!stuck(containers, a));
        let rounds = choose|rounds: nat| #[trigger] grounded(containers, a, rounds);
        lemma_fewer_before(containers, a, b, rounds);
        assert(state.names[l] == name && rank(l) < rank(j));
    }
    law_no_deadlock(state, rank, i);
}

/// Dependencies are ready when each of their names is finished.
proof fn lemma_ready_names(wanted: Seq<String>, finished: Seq<Seq<char>>)
    ensures
        ready(Some(texts(wanted)), finished) <==> forall|k: int|
            0 <= k < wanted.len() ==> finished.contains((#[trigger] wanted[k])@),
{
    let all = texts(wanted);
    assert(forall|k: int| 0 <= k < wanted.len() ==> #[trigger] all[k] == wanted[k]@);
    if ready(Some(all), finished) {
        assert forall|k: int| 0 <= k < wanted.len() implies finished.contains(
            (#[trigger] wanted[k])@,
        ) by {
            assert(finished.contains(Some(all)->0[k]));
        }
    }
    if forall|k: int| 0 <= k < wanted.len() ==> finished.contains((#[trigger] wanted[k])@) {
        assert forall|k: int| 0 <= k < all.len() implies finished.contains(#[trigger] all[k]) by {
            assert(finished.contains(wanted[k]@));
        }
    }
}

/// The jobs of a queue before any of them is started.
pub open spec fn fresh(queue: Seq<(Container, ContainerSetupJob)>) -> DispatcherView {
    waiting(queue_views(queue).map_values(|p: (ContainerView, JobView)| p.0))
}

/// Whether one state comes of another by trying to start a waiting job, or by
/// finishing or failing a running one.
pub open spec fn follows(before: DispatcherView, after: DispatcherView, i: int) -> bool {
    &&& 0 <= i < before.names.len()
    &&& {
        ||| before.status[i] == Status::Waiting && after == if ready(
            before.depends[i],
            before.finished,
        ) {
            before.with_status(i, Status::Running)
        } else {
            before
        }
        ||| before.status[i] == Status::Running && after == before.with_status(i, Status::Failed)
        ||| before.status[i] == Status::Running && after == (DispatcherView {
            finished: before.finished.push(before.names[i]),
            ..before.with_status(i, Status::Finished)
        })
    }
}

/// Whether states follow each other from the beginning of a queue.
pub open spec fn is_history(
    queue: Seq<(Container, ContainerSetupJob)>,
    history: Seq<DispatcherView>,
) -> bool {
    &&& history.len() > 0
    &&& history[0] == fresh(queue)
    &&& forall|k: int, l: int|
        0 <= k && l == k + 1 && l < history.len() ==> exists|i: int|
            follows(#[trigger] history[k], #[trigger] history[l], i)
}

/// All that a container names as dependencies is in a list of names.
pub open spec fn all_named(container: Container, finished: Seq<Seq<char>>) -> bool {
    container.depends matches Some(wanted) ==> forall|l: int|
        0 <= l < wanted@.len() ==> finished.contains((#[trigger] wanted@[l])@)
}

/// Some job of a queue is finished whose container bears a name.
pub open spec fn finished_as(
    queue: Seq<(Container, ContainerSetupJob)>,
    state: DispatcherView,
    name: Seq<char>,
) -> bool {
    exists|j: int|
        0 <= j < queue.len() && #[trigger] state.status[j] == Status::Finished && queue[j].0.name@
            == name
}

/// A new dispatcher holds the jobs of its queue, one for one and in order, each
/// under the name of its container and waiting for all that the container names
/// as dependencies, and nothing is finished.
pub proof fn law_new_dispatcher(queue: Seq<(Container, ContainerSetupJob)>)
    ensures
        fresh(queue).names.len() == queue.len(),
        fresh(queue).depends.len() == queue.len(),
        fresh(queue).status.len() == queue.len(),
        fresh(queue).finished.len() == 0,
        forall|i: int|
            0 <= i < queue.len() ==> #[trigger] fresh(queue).names[i] == queue[i].0.name@,
        forall|i: int|
            0 <= i < queue.len() ==> #[trigger] fresh(queue).status[i] == Status::Waiting,
        forall|i: int|
            0 <= i < queue.len() ==> (#[trigger] fresh(queue).depends[i] is Some
                <==> queue[i].0.depends is Some),
        forall|i: int, l: int|
            0 <= i < queue.len() && queue[i].0.depends is Some ==> {
                &&& fresh(queue).depends[i]->0.len() == queue[i].0.depends->0@.len()
                &&& 0 <= l < queue[i].0.depends->0@.len() ==> #[trigger] fresh(
                    queue,
                ).depends[i]->0[l] == queue[i].0.depends->0@[l]@
            },
{
    assert forall|i: int, l: int| 0 <= i < queue.len() && queue[i].0.depends is Some implies {
        &&& fresh(queue).depends[i]->0.len() == queue[i].0.depends->0@.len()
        &&& 0 <= l < queue[i].0.depends->0@.len() ==> #[trigger] fresh(queue).depends[i]->0[l]
            == queue[i].0.depends->0@[l]@
    } by {
        assert(fresh(queue).depends[i] == queue[i].0@.depends);
    }
}

/// Whatever is started, finished and failed from the beginning of a queue on,
/// in whatever order:
/// a job has been started only if every container that its own container
/// depends on was finished;
/// a waiting job can be started exactly when all of these are finished;
/// what is finished is what finished jobs are called, and nothing else.
pub proof fn law_jobs_wait_for_all_dependencies(
    queue: Seq<(Container, ContainerSetupJob)>,
    history: Seq<DispatcherView>,
    k: int,
    i: int,
)
    requires
        is_history(queue, history),
        0 <= k < history.len(),
        0 <= i < queue.len(),
    ensures
        history[k].names.len() == queue.len(),
        history[k].status.len() == queue.len(),
        history[k].names[i] == queue[i].0.name@,
        history[k].status[i] != Status::Waiting ==> all_named(queue[i].0, history[k].finished),
        ready(history[k].depends[i], history[k].finished) <==> all_named(
            queue[i].0,
            history[k].finished,
        ),
        history[k].status[i] == Status::Finished ==> history[k].finished.contains(
            queue[i].0.name@,
        ),
        forall|n: int|
            0 <= n < history[k].finished.len() ==> finished_as(
                queue,
                history[k],
                #[trigger] history[k].finished[n],
            ),
{
    lemma_history(queue, history, k);
    let state = history[k];
    assert(state.depends[i] == queue[i].0@.depends);
    if queue[i].0.depends is Some {
        lemma_ready_names(queue[i].0.depends->0@, state.finished);
    }
    if state.status[i] == Status::Finished {
        assert(state.finished.contains(state.names[i]));
    }
    assert forall|n: int| 0 <= n < state.finished.len() implies finished_as(
        queue,
        state,
        #[trigger] state.finished[n],
    ) by {
        assert(in_order(state, n));
        let j = choose|j: int| finished_in_order(state, n, j);
        assert(queue[j].0.name@ == state.names[j]);
        assert(state.status[j] == Status::Finished);
    }
}

proof fn lemma_history(
    queue: Seq<(Container, ContainerSetupJob)>,
    history: Seq<DispatcherView>,
    k: int,
)
    requires
        is_history(queue, history),
        0 <= k < history.len(),
    ensures
        history[k].wf(),
        history[k].names == fresh(queue).names,
        history[k].depends == fresh(queue).depends,
        history[k].names.len() == queue.len(),
        forall|i: int|
            0 <= i < queue.len() ==> #[trigger] history[k].names[i] == queue[i].0.name@,
        forall|i: int|
            0 <= i < queue.len() ==> #[trigger] history[k].depends[i] == queue[i].0@.depends,
    decreases k,
{
    if k > 0 {
        lemma_history(queue, history, k - 1);
        let before = history[k - 1];
        let after = history[k];
        let i = choose|i: int| follows(before, after, i);
        if before.status[i] == Status::Waiting {
            if ready(before.depends[i], before.finished) {
                lemma_status_kept(before, i, Status::Running);
            }
        } else if after == before.with_status(i, Status::Failed) {
            assert(ready(before.depends[i], before.finished));
            lemma_status_kept(before, i, Status::Failed);
        } else {
            lemma_finished(before, i);
        }
    }
}

/// A change of status is one of the job that it is about, and of nothing else.
pub proof fn law_one_status_changes(state: DispatcherView, i: int, status: Status)
    requires
        0 <= i < state.status.len(),
    ensures
        state.with_status(i, status).status.len() == state.status.len(),
        state.with_status(i, status).status[i] == status,
        forall|j: int|
            0 <= j < state.status.len() && j != i ==> #[trigger] state.with_status(
                i,
                status,
            ).status[j] == state.status[j],
        state.with_status(i, status).names == state.names,
        state.with_status(i, status).depends == state.depends,
        state.with_status(i, status).finished == state.finished,
{
}

/// Dependencies read as the names that they hold, one for one and in order.
pub proof fn law_dependencies_are_read(depends: Option<Vec<String>>)
    ensures
        depends is Some <==> depends_view(depends) is Some,
        depends matches Some(names) ==> {
            &&& depends_view(depends)->0.len() == names@.len()
            &&& forall|k: int|
                0 <= k < names@.len() ==> #[trigger] depends_view(depends)->0[k] == names@[k]@
        },
{
}

} // verus!
