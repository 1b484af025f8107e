//! How the containers of a configuration are set up.

use vstd::prelude::*;

use crate::circular::{check, reported, CircularDependency, CircularDependencyView};
use crate::config::{container_views, Container, ContainerView, MainConfig};
use crate::schedule::{law_schedule_is_a_permutation, schedule, scheduled};

verus! {

/// The containers to set up, in order.
#[derive(Debug, PartialEq)]
pub enum Plan {
    /// Each container is set up when the one before it is done.
    OneByOne { containers: Vec<Container> },
    /// The containers are set up beside each other, each when those that it
    /// depends on are done.
    Together { containers: Vec<Container> },
}

/// What a [`Plan`] reads.
pub ghost enum PlanView {
    OneByOne { containers: Seq<ContainerView> },
    Together { containers: Seq<ContainerView> },
}

impl View for Plan {
    type V = PlanView;

    open spec fn view(&self) -> PlanView {
        match self {
            Plan::OneByOne { containers } => PlanView::OneByOne {
                containers: container_views(containers@),
            },
            Plan::Together { containers } => PlanView::Together {
                containers: container_views(containers@),
            },
        }
    }
}

impl PlanView {
    /// The containers to set up, in order.
    pub open spec fn containers(self) -> Seq<ContainerView> {
        match self {
            PlanView::OneByOne { containers } => containers,
            PlanView::Together { containers } => containers,
        }
    }
}

/// How containers are set up: as they are listed and one by one, if that order
/// is to be kept, whatever they depend on; otherwise together, as they are
/// scheduled, unless one of them waits for itself.
pub open spec fn planned(ordered: bool, containers: Seq<ContainerView>) -> Result<
    PlanView,
    CircularDependencyView,
> {
    if ordered {
        Ok(PlanView::OneByOne { containers })
    } else {
        match reported(containers) {
            Some(circle) => Err(circle),
            None => Ok(PlanView::Together { containers: scheduled(containers) }),
        }
    }
}

impl MainConfig {
    /// How the containers are set up.
    pub fn plan(&self) -> (result: Result<Plan, CircularDependency>)
        ensures
            planned(self.container_ordering, container_views(self.containers@)) == match result {
                Ok(plan) => Ok(plan@),
                Err(circle) => Err(circle@),
            },
            self.container_ordering ==> (result matches Ok(Plan::OneByOne { containers })
                && containers@.len() == self.containers@.len() && forall|i: int|
                0 <= i < containers@.len() ==> (#[trigger] containers@[i])@
                    == self.containers@[i]@),
            !self.container_ordering ==> !(result matches Ok(Plan::OneByOne { .. })),
    {
        if self.container_ordering {
            let mut containers: Vec<Container> = Vec::new();
            let mut i: usize = 0;
            while i < self.containers.len()
                invariant
                    i <= self.containers.len(),
                    containers.len() == i,
                    forall|j: int|
                        0 <= j < i ==> (#[trigger] containers@[j])@ == self.containers@[j]@,
                decreases self.containers.len() - i,
            {
                containers.push(self.containers[i].clone());
                i = i + 1;
            }
            assert(container_views(containers@) =~= container_views(self.containers@));
            return Ok(Plan::OneByOne { containers });
        }
        match check(&self.containers) {
            Ok(_) => Ok(Plan::Together { containers: schedule(&self.containers) }),
            Err(circle) => Err(circle),
        }
    }
}

/// A plan sets up the containers that are listed, each as often as it is
/// listed, and no others.
pub proof fn law_plan_is_complete(ordered: bool, containers: Seq<ContainerView>)
    ensures
        planned(ordered, containers) matches Ok(plan) ==> plan.containers().to_multiset()
            == containers.to_multiset(),
{
    law_schedule_is_a_permutation(containers);
}

/// Where the order is to be kept there is always a plan, and it sets up the
/// listed containers one by one as they are listed, whatever they depend on.
/// Otherwise nothing is set up one by one: there is no plan where a circular
/// dependency is reported, and where none is, the containers are set up
/// together as they are scheduled.
pub proof fn law_plan_follows_the_ordering(containers: Seq<ContainerView>)
    ensures
        planned(true, containers) matches Ok(PlanView::OneByOne { containers: order })
            && order.len() == containers.len() && forall|i: int|
            0 <= i < containers.len() ==> #[trigger] order[i] == containers[i],
        !(planned(false, containers) matches Ok(PlanView::OneByOne { .. })),
        reported(containers) matches Some(circle) ==> planned(false, containers) == Err::<
            PlanView,
            CircularDependencyView,
        >(circle),
        reported(containers) is None ==> (planned(false, containers) matches Ok(
            PlanView::Together { containers: order },
        ) && order == scheduled(containers)),
{
}

/// A plan reads as the kind that it is, with the containers that it holds.
pub proof fn law_plan_is_read(plan: Plan)
    ensures
        plan matches Plan::OneByOne { containers } ==> plan@ == (PlanView::OneByOne {
            containers: containers@.map_values(|c: Container| c@),
        }),
        plan matches Plan::Together { containers } ==> plan@ == (PlanView::Together {
            containers: containers@.map_values(|c: Container| c@),
        }),
        plan@.containers().len() == match plan {
            Plan::OneByOne { containers } => containers@.len(),
            Plan::Together { containers } => containers@.len(),
        },
{
}

} // verus!
