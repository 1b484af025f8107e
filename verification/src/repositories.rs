//! Having the repositories of a configuration, one by one.
//!
//! A [`Provision`] says what to do next. Whoever does it reports back what
//! came of it, and is told the next action.

use vstd::prelude::*;

use crate::config::{repo_views, Repo, RepoView};
use crate::paths::{data_dir, get_data_dir};

verus! {

/// What to do next.
#[derive(Debug, PartialEq)]
pub enum CloneAction {
    /// Look whether a path exists.
    Look { dir: String },
    /// Clone a repository to a path.
    Clone { url: String, dir: String },
    /// All repositories are there.
    Done,
    /// Give up with the error that was met.
    Fail,
}

/// What a [`CloneAction`] reads.
pub ghost enum CloneActionView {
    Look { dir: Seq<char> },
    Clone { url: Seq<char>, dir: Seq<char> },
    Done,
    Fail,
}

impl View for CloneAction {
    type V = CloneActionView;

    open spec fn view(&self) -> CloneActionView {
        match self {
            CloneAction::Look { dir } => CloneActionView::Look { dir: dir@ },
            CloneAction::Clone { url, dir } => CloneActionView::Clone { url: url@, dir: dir@ },
            CloneAction::Done => CloneActionView::Done,
            CloneAction::Fail => CloneActionView::Fail,
        }
    }
}

/// What came of an action.
#[derive(Debug, Clone, Copy, PartialEq, Eq, Structural)]
pub enum CloneEvent {
    /// The path exists.
    Found,
    /// The path does not exist.
    Missing,
    /// The repository was cloned.
    Cloned,
    /// The repository could not be cloned.
    Failed,
}

/// How far the repositories have come.
#[derive(Debug, Clone, Copy, PartialEq, Eq, Structural)]
pub enum ClonePhase {
    /// A path is being looked for.
    Looking,
    /// A repository is being cloned.
    Cloning,
    /// There is no more to do.
    Over,
}

/// The repositories to have.
#[derive(Debug, PartialEq)]
pub struct Provision<'a> {
    repositories: &'a Vec<Repo>,
    next: usize,
    phase: ClonePhase,
}

/// What a [`Provision`] reads.
pub ghost struct ProvisionView {
    pub repositories: Seq<RepoView>,
    /// The repository that is looked for or cloned.
    pub next: int,
    pub phase: ClonePhase,
}

impl<'a> View for Provision<'a> {
    type V = ProvisionView;

    closed spec fn view(&self) -> ProvisionView {
        ProvisionView {
            repositories: repo_views(self.repositories@),
            next: self.next as int,
            phase: self.phase,
        }
    }
}

impl ProvisionView {
    /// There is a repository to look for or to clone while the phase says so.
    pub open spec fn wf(self) -> bool {
        &&& 0 <= self.next <= self.repositories.len()
        &&& self.phase != ClonePhase::Over ==> self.next < self.repositories.len()
    }

    /// Whether an event can come in the current phase.
    pub open spec fn accepts(self, event: CloneEvent) -> bool {
        match self.phase {
            ClonePhase::Looking => event == CloneEvent::Found || event == CloneEvent::Missing,
            ClonePhase::Cloning => event == CloneEvent::Cloned || event == CloneEvent::Failed,
            ClonePhase::Over => false,
        }
    }

    /// The next repository is looked for, if there is any.
    pub open spec fn proceed(self) -> (ProvisionView, CloneActionView) {
        if self.next < self.repositories.len() {
            (
                ProvisionView { phase: ClonePhase::Looking, ..self },
                CloneActionView::Look { dir: data_dir(self.repositories[self.next].name) },
            )
        } else {
            (ProvisionView { phase: ClonePhase::Over, ..self }, CloneActionView::Done)
        }
    }

    /// What follows from an event. A repository is cloned where its path does
    /// not exist. One that cannot be cloned is the end.
    pub open spec fn transition(self, event: CloneEvent) -> (ProvisionView, CloneActionView) {
        match event {
            CloneEvent::Found => ProvisionView { next: self.next + 1, ..self }.proceed(),
            CloneEvent::Missing => (
                ProvisionView { phase: ClonePhase::Cloning, ..self },
                CloneActionView::Clone {
                    url: self.repositories[self.next].url,
                    dir: data_dir(self.repositories[self.next].name),
                },
            ),
            CloneEvent::Cloned => ProvisionView { next: self.next + 1, ..self }.proceed(),
            CloneEvent::Failed => (
                ProvisionView { phase: ClonePhase::Over, ..self },
                CloneActionView::Fail,
            ),
        }
    }
}

/// Repositories of which none has been looked for.
pub open spec fn unprovided(repositories: Seq<RepoView>) -> ProvisionView {
    ProvisionView { repositories, next: 0, phase: ClonePhase::Looking }
}

impl<'a> Provision<'a> {
    /// Looks for the next repository, if there is any.
    fn proceed(&mut self) -> (action: CloneAction)
        requires
            old(self)@.next <= old(self)@.repositories.len(),
        ensures
            (final(self)@, action@) == old(self)@.proceed(),
    {
        if self.next < self.repositories.len() {
            self.phase = ClonePhase::Looking;
            let repository = &self.repositories[self.next];
            assert(self@.repositories[self.next as int] == repository@);
            CloneAction::Look { dir: get_data_dir(repository.name.as_str()) }
        } else {
            self.phase = ClonePhase::Over;
            CloneAction::Done
        }
    }

    /// Begins with the first repository.
    pub fn begin(repositories: &'a Vec<Repo>) -> (begun: (Provision<'a>, CloneAction))
        ensures
            (begun.0@, begun.1@) == unprovided(repo_views(repositories@)).proceed(),
            begun.0@.wf(),
    {
        let mut provision = Provision { repositories, next: 0, phase: ClonePhase::Looking };
        let action = provision.proceed();
        (provision, action)
    }

    /// Takes what came of the last action and says what to do next.
    pub fn step(&mut self, event: CloneEvent) -> (action: CloneAction)
        requires
            old(self)@.wf(),
            old(self)@.accepts(event),
        ensures
            (final(self)@, action@) == old(self)@.transition(event),
            final(self)@.wf(),
    {
        assert(self.next < self.repositories.len());
        match event {
            CloneEvent::Missing => {
                self.phase = ClonePhase::Cloning;
                let repository = &self.repositories[self.next];
                assert(self@.repositories[self.next as int] == repository@);
                CloneAction::Clone {
                    url: repository.url.clone(),
                    dir: get_data_dir(repository.name.as_str()),
                }
            },
            CloneEvent::Failed => {
                self.phase = ClonePhase::Over;
                CloneAction::Fail
            },
            _ => {
                self.next = self.next + 1;
                self.proceed()
            },
        }
    }
}

/// Where a provision comes to when the paths of the remaining repositories
/// exist or not, as `found` says, and all that is cloned can be; and the
/// repositories that are cloned on the way, in order.
pub open spec fn run(state: ProvisionView, found: Seq<bool>) -> (ProvisionView, Seq<CloneActionView>)
    decreases found.len(),
{
    if found.len() == 0 {
        (state, Seq::empty())
    } else if found[0] {
        run(state.transition(CloneEvent::Found).0, found.skip(1))
    } else {
        let missing = state.transition(CloneEvent::Missing);
        let rest = run(missing.0.transition(CloneEvent::Cloned).0, found.skip(1));
        (rest.0, seq![missing.1] + rest.1)
    }
}

/// The clones of the repositories whose paths do not exist, in order.
pub open spec fn clones(repositories: Seq<RepoView>, found: Seq<bool>) -> Seq<CloneActionView>
    decreases found.len(),
{
    if found.len() == 0 {
        Seq::empty()
    } else {
        let rest = clones(repositories.skip(1), found.skip(1));
        if found[0] {
            rest
        } else {
            let first = CloneActionView::Clone {
                url: repositories[0].url,
                dir: data_dir(repositories[0].name),
            };
            seq![first] + rest
        }
    }
}

/// Exactly the repositories whose paths do not exist are cloned, each once and
/// in the order in which they are listed, and then there is no more to do.
pub proof fn law_missing_repositories_are_cloned(state: ProvisionView, found: Seq<bool>)
    requires
        state.wf(),
        state.phase == ClonePhase::Looking,
        found.len() == state.repositories.len() - state.next,
    ensures
        run(state, found).0.phase == ClonePhase::Over,
        run(state, found).1 == clones(state.repositories.skip(state.next), found),
    decreases found.len(),
{
    let after = ProvisionView { next: state.next + 1, ..state }.proceed().0;
    let rest = found.skip(1);
    assert(state.repositories.skip(state.next).skip(1) =~= state.repositories.skip(
        state.next + 1,
    ));
    assert(state.repositories.skip(state.next)[0] == state.repositories[state.next]);
    let cloning = state.transition(CloneEvent::Missing).0;
    assert(cloning.transition(CloneEvent::Cloned).0 == after);
    if rest.len() > 0 {
        law_missing_repositories_are_cloned(after, rest);
    } else {
        assert(run(after, rest) == (after, Seq::<CloneActionView>::empty()));
        assert(clones(state.repositories.skip(state.next + 1), rest) =~= Seq::empty());
    }
}

/// What is done about a repository that is not there: it is cloned from its
/// address to the directory of its name.
pub open spec fn clone_of(repository: Repo) -> CloneActionView {
    CloneActionView::Clone { url: repository.url@, dir: "./data/"@ + repository.name@ }
}

/// The repositories are looked for from the first one on: whatever the list
/// holds, the directory of its first repository is the first thing that is
/// looked for, and only an empty list is done with at once.
pub proof fn law_begins_with_the_first(repositories: Seq<Repo>)
    ensures
        ({
            let begun = unprovided(repo_views(repositories)).proceed();
            &&& begun.0.repositories.len() == repositories.len()
            &&& begun.0.next == 0
            &&& repositories.len() > 0 ==> begun.0.phase == ClonePhase::Looking && begun.1 == (
            CloneActionView::Look { dir: "./data/"@ + repositories[0].name@ })
            &&& repositories.len() == 0 ==> begun.0.phase == ClonePhase::Over && begun.1
                == CloneActionView::Done
        }),
{
}

/// Each repository is dealt with in its turn. One that is found, and one that
/// is cloned, is followed by looking for the one listed behind it, or by the
/// end where it was the last. One that is missing is cloned. One that cannot be
/// cloned is the end.
pub proof fn law_one_repository(repositories: Seq<Repo>, state: ProvisionView)
    requires
        state.repositories == repo_views(repositories),
        0 <= state.next < repositories.len(),
    ensures
        ({
            let k = state.next;
            let found = state.transition(CloneEvent::Found);
            let missing = state.transition(CloneEvent::Missing);
            let cloned = missing.0.transition(CloneEvent::Cloned);
            let failed = missing.0.transition(CloneEvent::Failed);
            &&& missing.1 == clone_of(repositories[k])
            &&& missing.0.phase == ClonePhase::Cloning
            &&& missing.0.next == k
            &&& failed.1 == CloneActionView::Fail
            &&& failed.0.phase == ClonePhase::Over
            &&& cloned == found
            &&& found.0.repositories == state.repositories
            &&& found.0.next == k + 1
            &&& k + 1 < repositories.len() ==> found.0.phase == ClonePhase::Looking && found.1 == (
            CloneActionView::Look { dir: "./data/"@ + repositories[k + 1].name@ })
            &&& k + 1 == repositories.len() ==> found.0.phase == ClonePhase::Over && found.1
                == CloneActionView::Done
        }),
{
}

/// What can come of an action is taken: a path exists or does not, a clone
/// succeeds or fails, and nothing comes when there is no more to do.
pub proof fn law_outcomes_are_taken(state: ProvisionView, event: CloneEvent)
    ensures
        state.phase == ClonePhase::Looking ==> (state.accepts(event) <==> event
            == CloneEvent::Found || event == CloneEvent::Missing),
        state.phase == ClonePhase::Cloning ==> (state.accepts(event) <==> event
            == CloneEvent::Cloned || event == CloneEvent::Failed),
        state.phase == ClonePhase::Over ==> !state.accepts(event),
{
}

/// From the beginning to the end, exactly the listed repositories whose
/// directories do not exist are cloned, in the order in which they are listed.
/// `found` tells of each whether its directory exists.
pub proof fn law_a_whole_provision(repositories: Seq<Repo>, found: Seq<bool>)
    requires
        found.len() == repositories.len(),
    ensures
        ({
            let whole = run(unprovided(repo_views(repositories)).proceed().0, found);
            &&& whole.0.phase == ClonePhase::Over
            &&& whole.1 == Seq::new(found.len(), |k: int| k).filter(
                |k: int| !found[k],
            ).map_values(|k: int| clone_of(repositories[k]))
        }),
{
    let views = repo_views(repositories);
    let state = unprovided(views).proceed().0;
    lemma_clones(repositories, found);
    if found.len() > 0 {
        law_missing_repositories_are_cloned(state, found);
        assert(views.skip(0) =~= views);
    } else {
        assert(run(state, found) == (state, Seq::<CloneActionView>::empty()));
        assert(clones(views, found) =~= Seq::empty());
    }
}

proof fn lemma_clones(repositories: Seq<Repo>, found: Seq<bool>)
    requires
        found.len() == repositories.len(),
    ensures
        clones(repo_views(repositories), found) == Seq::new(found.len(), |k: int| k).filter(
            |k: int| !found[k],
        ).map_values(|k: int| clone_of(repositories[k])),
    decreases found.len(),
{
    let absent = |k: int| !found[k];
    let clone = |k: int| clone_of(repositories[k]);
    let all = Seq::new(found.len(), |k: int| k);
    if found.len() == 0 {
        reveal(Seq::filter);
        assert(all.filter(absent).map_values(clone) =~= Seq::empty());
    } else {
        let last = found.len() - 1;
        let fewer = Seq::new(last as nat, |k: int| k);
        lemma_clones(repositories.drop_last(), found.drop_last());
        lemma_clones_push(repositories, found);
        assert(all.drop_last() =~= fewer);
        lemma_filter_within(fewer, absent, |k: int| !found.drop_last()[k]);
        reveal(Seq::filter);
        let before = fewer.filter(absent);
        assert forall|m: int| 0 <= m < before.len() implies 0 <= #[trigger] before[m] < last by {
            fewer.lemma_filter_contains_rev(absent, before[m]);
        }
        assert(before.map_values(clone) =~= before.map_values(
            |k: int| clone_of(repositories.drop_last()[k]),
        ));
        if !found[last] {
            assert(all.filter(absent) == before.push(last));
            assert(before.push(last).map_values(clone) =~= before.map_values(clone).push(
                clone_of(repositories[last]),
            ));
        }
    }
}

proof fn lemma_filter_within(
    list: Seq<int>,
    pass: spec_fn(int) -> bool,
    other: spec_fn(int) -> bool,
)
    requires
        forall|i: int| 0 <= i < list.len() ==> pass(#[trigger] list[i]) == other(list[i]),
    ensures
        list.filter(pass) == list.filter(other),
    decreases list.len(),
{
    reveal(Seq::filter);
    if list.len() > 0 {
        let shorter = list.drop_last();
        assert forall|i: int| 0 <= i < shorter.len() implies pass(#[trigger] shorter[i]) == other(
            shorter[i],
        ) by {
            assert(shorter[i] == list[i]);
        }
        lemma_filter_within(shorter, pass, other);
        assert(list.last() == list[list.len() - 1]);
    }
}

proof fn lemma_clones_push(repositories: Seq<Repo>, found: Seq<bool>)
    requires
        found.len() == repositories.len(),
        found.len() > 0,
    ensures
        clones(repo_views(repositories), found) == if found.last() {
            clones(repo_views(repositories.drop_last()), found.drop_last())
        } else {
            clones(repo_views(repositories.drop_last()), found.drop_last()).push(
                clone_of(repositories.last()),
            )
        },
    decreases found.len(),
{
    let views = repo_views(repositories);
    let shorter = repo_views(repositories.drop_last());
    let none = Seq::<CloneActionView>::empty();
    if found.len() == 1 {
        assert(clones(views.skip(1), found.skip(1)) =~= none);
        assert(clones(shorter, found.drop_last()) =~= none);
        assert(clones(views, found) =~= if found.last() {
            none
        } else {
            none.push(clone_of(repositories.last()))
        });
    } else {
        let rest = repositories.skip(1);
        lemma_clones_push(rest, found.skip(1));
        assert(views.skip(1) =~= repo_views(rest));
        assert(shorter.skip(1) =~= repo_views(rest.drop_last()));
        assert(found.drop_last().skip(1) =~= found.skip(1).drop_last());
        assert(shorter[0] == views[0]);
        assert(clones(views, found) =~= if found.last() {
            clones(shorter, found.drop_last())
        } else {
            clones(shorter, found.drop_last()).push(clone_of(repositories.last()))
        });
    }
}

/// An action reads as the kind that it is, with the texts that it holds.
pub proof fn law_clone_actions_are_read(action: CloneAction)
    ensures
        action matches CloneAction::Look { dir } ==> action@ == (CloneActionView::Look {
            dir: dir@,
        }),
        action matches CloneAction::Clone { url, dir } ==> action@ == (CloneActionView::Clone {
            url: url@,
            dir: dir@,
        }),
        action is Done <==> action@ is Done,
        action is Fail <==> action@ is Fail,
{
}

} // verus!
