//! The order in which containers are set up.

use vstd::prelude::*;

use crate::config::{container_views, Container, ContainerView};
use crate::text::texts;

verus! {

/// The names of a list of containers.
pub open spec fn names(list: Seq<ContainerView>) -> Seq<Seq<char>> {
    list.map_values(|c: ContainerView| c.name)
}

/// Where each of the named containers first stands in a list, if it does.
pub open spec fn positions(list: Seq<ContainerView>, wanted: Seq<Seq<char>>) -> Seq<Option<int>> {
    wanted.map_values(|name: Seq<char>| names(list).index_of_first(name))
}

/// The greatest of the positions, or -1 where there is none.
pub open spec fn latest(found: Seq<Option<int>>) -> int
    decreases found.len(),
{
    if found.len() == 0 {
        -1
    } else {
        let before = latest(found.drop_last());
        match found.last() {
            Some(position) if position > before => position,
            _ => before,
        }
    }
}

/// The position that a container is put in front of when not all of its
/// dependencies are scheduled: the latest of those that are, whenever there
/// is one. It is what stands last when the positions are sorted with the
/// missing ones in front.
pub open spec fn anchor(found: Seq<Option<int>>) -> Option<int> {
    if latest(found) >= 0 {
        Some(latest(found))
    } else {
        None
    }
}

/// Where a container is put into a schedule:
/// in front, where it names no dependencies;
/// at the back, where they are all scheduled;
/// otherwise in front of its anchor, or at the back where it has none.
pub open spec fn slot(scheduled: Seq<ContainerView>, container: ContainerView) -> int {
    match container.depends {
        None => 0,
        Some(wanted) => {
            let found = positions(scheduled, wanted);
            if !found.contains(None) {
                scheduled.len() as int
            } else {
                match anchor(found) {
                    Some(position) => position,
                    None => scheduled.len() as int,
                }
            }
        },
    }
}

/// The schedule of a list of containers: each is put in its slot in turn.
pub open spec fn scheduled(containers: Seq<ContainerView>) -> Seq<ContainerView>
    decreases containers.len(),
{
    if containers.len() == 0 {
        Seq::empty()
    } else {
        let before = scheduled(containers.drop_last());
        before.insert(slot(before, containers.last()), containers.last())
    }
}

/// A position as a mathematical integer.
pub open spec fn position_view(position: Option<usize>) -> Option<int> {
    match position {
        Some(i) => Some(i as int),
        None => None,
    }
}

/// Positions as mathematical integers.
pub open spec fn position_views(found: Seq<Option<usize>>) -> Seq<Option<int>> {
    found.map_values(|p: Option<usize>| position_view(p))
}

/// The greatest position is one of those given, and none of them exceeds it.
pub proof fn lemma_latest(found: Seq<Option<int>>)
    requires
        forall|i: int| 0 <= i < found.len() ==> (#[trigger] found[i] matches Some(p) ==> p >= 0),
    ensures
        forall|i: int|
            0 <= i < found.len() ==> (#[trigger] found[i] matches Some(p) ==> p <= latest(found)),
        latest(found) == -1 || found.contains(Some(latest(found))),
    decreases found.len(),
{
    if found.len() > 0 {
        let shorter = found.drop_last();
        lemma_latest(shorter);
        assert(forall|i: int| 0 <= i < shorter.len() ==> shorter[i] == found[i]);
        if latest(found) == latest(shorter) {
            if latest(found) != -1 {
                let i = choose|i: int| 0 <= i < shorter.len() && shorter[i] == Some(latest(found));
                assert(found[i] == Some(latest(found)));
            }
        } else {
            assert(found[found.len() - 1] == Some(latest(found)));
        }
        assert(found[found.len() - 1] == found.last());
    }
}

/// The first container of a name in a list, as a position.
fn position(list: &Vec<Container>, name: &String) -> (position: Option<usize>)
    ensures
        position_view(position) == names(container_views(list@)).index_of_first(name@),
        position matches Some(i) ==> i < list.len(),
{
    let ghost all = names(container_views(list@));
    proof {
        all.index_of_first_ensures(name@);
    }
    let mut i: usize = 0;
    while i < list.len()
        invariant
            i <= list.len(),
            all == names(container_views(list@)),
            forall|j: int| 0 <= j < i ==> all[j] != name@,
            match all.index_of_first(name@) {
                Some(first) => {
                    &&& all.contains(name@)
                    &&& 0 <= first < all.len()
                    &&& all[first] == name@
                    &&& forall|j: int| 0 <= j < first ==> all[j] != name@
                },
                None => !all.contains(name@),
            },
        decreases list.len() - i,
    {
        if list[i].name == *name {
            assert(all[i as int] == name@);
            return Some(i);
        }
        i = i + 1;
    }
    None
}

/// Where each of the named containers stands in a schedule.
pub fn find_all(list: &Vec<Container>, wanted: &Vec<String>) -> (found: Vec<Option<usize>>)
    ensures
        position_views(found@) == positions(container_views(list@), texts(wanted@)),
        forall|i: int|
            0 <= i < found.len() ==> (#[trigger] found@[i] matches Some(p) ==> p < list.len()),
{
    let mut found: Vec<Option<usize>> = Vec::new();
    let mut i: usize = 0;
    while i < wanted.len()
        invariant
            i <= wanted.len(),
            found.len() == i,
            forall|j: int|
                0 <= j < i ==> position_view(#[trigger] found@[j]) == names(
                    container_views(list@),
                ).index_of_first(wanted@[j]@),
            forall|j: int|
                0 <= j < i ==> (#[trigger] found@[j] matches Some(p) ==> p < list.len()),
        decreases wanted.len() - i,
    {
        found.push(position(list, &wanted[i]));
        i = i + 1;
    }
    assert(position_views(found@) =~= positions(container_views(list@), texts(wanted@)));
    found
}

/// Where a container with these dependencies goes in a schedule that ends at
/// `end`, given where its dependencies stand in it.
pub fn slot_among(found: &Vec<Option<usize>>, end: usize) -> (at: usize)
    ensures
        at == if !position_views(found@).contains(None) {
            end as int
        } else {
            match anchor(position_views(found@)) {
                Some(position) => position,
                None => end as int,
            }
        },
{
    let ghost views = position_views(found@);
    let mut missing: bool = false;
    let mut greatest: Option<usize> = None;
    let mut i: usize = 0;
    while i < found.len()
        invariant
            i <= found.len(),
            views == position_views(found@),
            missing == exists|j: int| 0 <= j < i && views[j] is None,
            match greatest {
                Some(p) => latest(views.take(i as int)) == p,
                None => latest(views.take(i as int)) == -1,
            },
        decreases found.len() - i,
    {
        assert(views.take(i + 1).drop_last() =~= views.take(i as int));
        assert(views[i as int] == position_view(found@[i as int]));
        match found[i] {
            Some(p) => match greatest {
                Some(g) => {
                    if p > g {
                        greatest = Some(p);
                    }
                },
                None => {
                    greatest = Some(p);
                },
            },
            None => {
                missing = true;
            },
        }
        i = i + 1;
    }
    assert(views.take(i as int) =~= views);
    assert(missing == views.contains(None)) by {
        if missing {
            let j = choose|j: int| 0 <= j < i && views[j] is None;
            assert(views[j] == None::<int>);
        }
    }
    if !missing {
        return end;
    }
    match greatest {
        Some(p) => p,
        None => end,
    }
}

/// Puts a container into a schedule.
pub fn place(schedule: &mut Vec<Container>, container: &Container)
    ensures
        container_views(final(schedule)@) == container_views(old(schedule)@).insert(
            slot(container_views(old(schedule)@), container@),
            container@,
        ),
        0 <= slot(container_views(old(schedule)@), container@) <= old(schedule)@.len(),
{
    let ghost before = container_views(schedule@);
    let at: usize = match &container.depends {
        None => 0,
        Some(wanted) => {
            let found = find_all(schedule, wanted);
            let end: usize = schedule.len();
            proof {
                let views = position_views(found@);
                assert(forall|i: int| 0 <= i < views.len() ==> views[i] == position_view(found@[i]));
                lemma_latest(views);
                if views.contains(Some(latest(views))) {
                    let i = choose|i: int| 0 <= i < views.len() && views[i] == Some(latest(views));
                    assert(found@[i] is Some);
                }
            }
            slot_among(&found, end)
        },
    };
    let copy = container.clone();
    schedule.insert(at, copy);
    assert(container_views(schedule@) =~= before.insert(at as int, container@));
}

/// The containers in the order in which they are set up.
pub fn schedule(containers: &Vec<Container>) -> (order: Vec<Container>)
    ensures
        container_views(order@) == scheduled(container_views(containers@)),
{
    let ghost all = container_views(containers@);
    let mut order: Vec<Container> = Vec::with_capacity(containers.len());
    assert(container_views(order@) =~= Seq::empty());
    let mut i: usize = 0;
    while i < containers.len()
        invariant
            i <= containers.len(),
            all == container_views(containers@),
            container_views(order@) == scheduled(all.take(i as int)),
        decreases containers.len() - i,
    {
        place(&mut order, &containers[i]);
        assert(all.take(i + 1).drop_last() =~= all.take(i as int));
        i = i + 1;
    }
    assert(all.take(i as int) =~= all);
    order
}

/// A slot lies within the schedule or at its end.
pub proof fn lemma_slot(order: Seq<ContainerView>, container: ContainerView)
    ensures
        0 <= slot(order, container) <= order.len(),
{
    if let Some(wanted) = container.depends {
        let found = positions(order, wanted);
        assert forall|i: int| 0 <= i < found.len() implies (#[trigger] found[i] matches Some(p)
            ==> 0 <= p < order.len()) by {
            names(order).index_of_first_ensures(wanted[i]);
        }
        lemma_latest(found);
        if anchor(found) is Some {
            assert(found.contains(Some(latest(found))));
        }
    }
}

/// A schedule holds the containers that are listed, each as often as it is
/// listed, and nothing else.
pub proof fn law_schedule_is_a_permutation(containers: Seq<ContainerView>)
    ensures
        scheduled(containers).to_multiset() == containers.to_multiset(),
        scheduled(containers).len() == containers.len(),
    decreases containers.len(),
{
    broadcast use vstd::seq_lib::group_to_multiset_ensures;

    if containers.len() == 0 {
        assert(containers =~= Seq::empty());
    } else {
        let before = containers.drop_last();
        let last = containers.last();
        law_schedule_is_a_permutation(before);
        lemma_slot(scheduled(before), last);
        assert(containers =~= before.push(last));
        vstd::seq_lib::to_multiset_insert(
            scheduled(before),
            slot(scheduled(before), last),
            last,
        );
    }
}

/// A map of positions under which one list is found in another, in order.
pub open spec fn embedding(
    to: spec_fn(int) -> int,
    shorter: Seq<ContainerView>,
    longer: Seq<ContainerView>,
) -> bool {
    &&& forall|i: int|
        0 <= i < shorter.len() ==> 0 <= #[trigger] to(i) < longer.len() && longer[to(i)]
            == shorter[i]
    &&& forall|i: int, j: int|
        0 <= i < j < shorter.len() ==> #[trigger] to(i) < #[trigger] to(j)
}

/// Containers that are listed later are put among those that are scheduled
/// already without changing the order of these.
pub proof fn law_order_is_kept(containers: Seq<ContainerView>, more: Seq<ContainerView>)
    ensures
        exists|to: spec_fn(int) -> int|
            embedding(to, scheduled(containers), scheduled(containers + more)),
    decreases more.len(),
{
    let first = scheduled(containers);
    if more.len() == 0 {
        assert(containers + more =~= containers);
        let to = |i: int| i;
        assert(embedding(to, first, first));
    } else {
        law_order_is_kept(containers, more.drop_last());
        let before = scheduled(containers + more.drop_last());
        let after = scheduled(containers + more);
        assert((containers + more).drop_last() =~= containers + more.drop_last());
        assert((containers + more).last() == more.last());
        let at = slot(before, more.last());
        lemma_slot(before, more.last());
        let inner = choose|to: spec_fn(int) -> int| embedding(to, first, before);
        let to = |i: int|
            if inner(i) < at {
                inner(i)
            } else {
                inner(i) + 1
            };
        assert(embedding(to, first, after)) by {
            assert forall|i: int| 0 <= i < first.len() implies 0 <= #[trigger] to(i) < after.len()
                && after[to(i)] == first[i] by {
                assert(0 <= inner(i) < before.len());
            }
            assert forall|i: int, j: int| 0 <= i < j < first.len() implies #[trigger] to(i)
                < #[trigger] to(j) by {
                assert(inner(i) < inner(j));
            }
        }
    }
}

/// A container that names no dependencies goes in front of all that is
/// scheduled before it.
pub proof fn law_independent_goes_first(containers: Seq<ContainerView>, container: ContainerView)
    requires
        container.depends is None,
    ensures
        scheduled(containers.push(container)) == seq![container] + scheduled(containers),
{
    assert(containers.push(container).drop_last() =~= containers);
    assert(scheduled(containers).insert(0, container) =~= seq![container] + scheduled(containers));
}

/// Containers that all name no dependencies are set up in reverse order.
pub proof fn law_independent_containers(containers: Seq<ContainerView>)
    requires
        forall|i: int| 0 <= i < containers.len() ==> (#[trigger] containers[i]).depends is None,
    ensures
        scheduled(containers) == containers.reverse(),
    decreases containers.len(),
{
    if containers.len() == 0 {
        assert(containers.reverse() =~= Seq::empty());
    } else {
        let before = containers.drop_last();
        assert forall|i: int| 0 <= i < before.len() implies (
        #[trigger] before[i]).depends is None by {
            assert(before[i] == containers[i]);
        }
        law_independent_containers(before);
        assert(containers.last() == containers[containers.len() - 1]);
        assert(containers =~= before.push(containers.last()));
        law_independent_goes_first(before, containers.last());
        assert(containers.reverse() =~= seq![containers.last()] + before.reverse());
    }
}

/// What is listed is scheduled.
proof fn lemma_scheduled_name(containers: Seq<ContainerView>, name: Seq<char>)
    requires
        names(containers).contains(name),
    ensures
        names(scheduled(containers)).contains(name),
{
    broadcast use vstd::seq_lib::group_to_multiset_ensures;

    let i = choose|i: int| 0 <= i < containers.len() && names(containers)[i] == name;
    let order = scheduled(containers);
    law_schedule_is_a_permutation(containers);
    assert(containers.contains(containers[i]));
    assert(containers.to_multiset().count(containers[i]) > 0);
    assert(order.contains(containers[i]));
    let j = choose|j: int| 0 <= j < order.len() && order[j] == containers[i];
    assert(names(order)[j] == name);
}

/// A container stands at a position of a schedule, behind all of its
/// dependencies.
pub open spec fn behind_dependencies(
    order: Seq<ContainerView>,
    j: int,
    container: ContainerView,
) -> bool {
    &&& 0 <= j < order.len()
    &&& order[j] == container
    &&& container.depends matches Some(wanted) ==> forall|k: int|
        0 <= k < wanted.len() ==> names(order.take(j)).contains(#[trigger] wanted[k])
}

/// A container whose dependencies are all listed before it comes behind each
/// of them in the schedule, whatever is listed after it.
pub proof fn law_dependencies_come_first(
    containers: Seq<ContainerView>,
    container: ContainerView,
    more: Seq<ContainerView>,
)
    requires
        container.depends is Some,
        forall|k: int|
            0 <= k < container.depends->0.len() ==> names(containers).contains(
                #[trigger] container.depends->0[k],
            ),
    ensures
        exists|j: int|
            behind_dependencies(scheduled(containers.push(container) + more), j, container),
{
    let wanted = container.depends->0;
    let before = scheduled(containers);
    let found = positions(before, wanted);
    assert forall|k: int| 0 <= k < wanted.len() implies #[trigger] found[k] is Some by {
        lemma_scheduled_name(containers, wanted[k]);
        names(before).index_of_first_ensures(wanted[k]);
    }
    assert(!found.contains(None));
    let at = before.len() as int;
    assert(slot(before, container) == at);
    assert(containers.push(container).drop_last() =~= containers);
    let short = scheduled(containers.push(container));
    assert(short =~= before.push(container));
    law_order_is_kept(containers.push(container), more);
    let order = scheduled(containers.push(container) + more);
    let to = choose|to: spec_fn(int) -> int| embedding(to, short, order);
    let j = to(at);
    assert(order[j] == container);
    assert forall|k: int| 0 <= k < wanted.len() implies names(order.take(j)).contains(
        #[trigger] wanted[k],
    ) by {
        lemma_scheduled_name(containers, wanted[k]);
        let i = choose|i: int| 0 <= i < before.len() && names(before)[i] == wanted[k];
        assert(short[i] == before[i]);
        assert(to(i) < to(at));
        assert(names(order.take(j))[to(i)] == wanted[k]);
    }
    assert(behind_dependencies(order, j, container));
}

/// A container of which not all of the dependencies are scheduled goes right
/// in front of the latest of them that is, and to the back if none is.
pub proof fn law_partly_scheduled(order: Seq<ContainerView>, container: ContainerView)
    requires
        container.depends is Some,
        positions(order, container.depends->0).contains(None),
    ensures
        (exists|k: int|
            0 <= k < container.depends->0.len() && names(order).contains(
                #[trigger] container.depends->0[k],
            )) ==> {
            let at = slot(order, container);
            &&& 0 <= at < order.len()
            &&& container.depends->0.contains(order[at].name)
            &&& forall|i: int|
                at < i < order.len() && container.depends->0.contains(#[trigger] order[i].name)
                    ==> names(order.take(i)).contains(order[i].name)
        },
        (forall|k: int|
            0 <= k < container.depends->0.len() ==> !names(order).contains(
                #[trigger] container.depends->0[k],
            )) ==> slot(order, container) == order.len(),
{
    let wanted = container.depends->0;
    let found = positions(order, wanted);
    let all = names(order);
    assert forall|i: int| 0 <= i < found.len() implies (#[trigger] found[i] matches Some(p) ==> 0
        <= p < order.len() && all[p] == wanted[i] && forall|q: int|
        0 <= q < p ==> all[q] != wanted[i]) by {
        all.index_of_first_ensures(wanted[i]);
    }
    lemma_latest(found);
    if exists|k: int| 0 <= k < wanted.len() && all.contains(#[trigger] wanted[k]) {
        let first = choose|k: int| 0 <= k < wanted.len() && all.contains(#[trigger] wanted[k]);
        all.index_of_first_ensures(wanted[first]);
        assert(found[first] is Some);
        let at = slot(order, container);
        assert(found.contains(Some(at)));
        let k = choose|k: int| 0 <= k < found.len() && found[k] == Some(at);
        assert(all[at] == wanted[k]);
        assert forall|i: int|
            at < i < order.len() && wanted.contains(#[trigger] order[i].name) implies names(
            order.take(i),
        ).contains(order[i].name) by {
            let k = choose|k: int| 0 <= k < wanted.len() && wanted[k] == order[i].name;
            all.index_of_first_ensures(wanted[k]);
            assert(all[i] == wanted[k]);
            assert(all.contains(wanted[k]));
            assert(found[k] is Some);
            let p = found[k]->0;
            assert(p <= latest(found));
            assert(names(order.take(i))[p] == wanted[k]);
        }
    } else if latest(found) >= 0 {
        let k = choose|k: int| 0 <= k < found.len() && found[k] == Some(latest(found));
        assert(all[latest(found)] == wanted[k]);
        assert(all.contains(wanted[k]));
    }
}

/// The names of a list of containers are their own, one for one and in order.
pub proof fn law_names(list: Seq<ContainerView>)
    ensures
        names(list).len() == list.len(),
        forall|i: int| 0 <= i < list.len() ==> #[trigger] names(list)[i] == list[i].name,
{
}

/// A name is found where the first container that bears it stands, and is
/// missing where no container does.
pub proof fn law_positions(list: Seq<ContainerView>, wanted: Seq<Seq<char>>, k: int)
    requires
        0 <= k < wanted.len(),
    ensures
        positions(list, wanted).len() == wanted.len(),
        positions(list, wanted)[k] matches Some(p) ==> {
            &&& 0 <= p < list.len()
            &&& list[p].name == wanted[k]
            &&& forall|q: int| 0 <= q < p ==> (#[trigger] list[q]).name != wanted[k]
        },
        positions(list, wanted)[k] is None ==> forall|q: int|
            0 <= q < list.len() ==> (#[trigger] list[q]).name != wanted[k],
{
    let all = names(list);
    all.index_of_first_ensures(wanted[k]);
    assert forall|q: int| 0 <= q < list.len() implies all[q] == (#[trigger] list[q]).name by {}
    if positions(list, wanted)[k] is None {
        assert forall|q: int| 0 <= q < list.len() implies (#[trigger] list[q]).name
            != wanted[k] by {
            if list[q].name == wanted[k] {
                assert(all[q] == wanted[k]);
            }
        }
    } else {
        let p = positions(list, wanted)[k]->0;
        assert(all[p] == wanted[k]);
        assert forall|q: int| 0 <= q < p implies (#[trigger] list[q]).name != wanted[k] by {
            assert(all[q] != wanted[k]);
        }
    }
}

/// The anchor is the greatest of the positions that were found, and is missing
/// only where all of them are.
pub proof fn law_anchor(found: Seq<Option<int>>)
    requires
        forall|i: int| 0 <= i < found.len() ==> (#[trigger] found[i] matches Some(p) ==> p >= 0),
    ensures
        anchor(found) is None <==> forall|i: int| 0 <= i < found.len() ==> #[trigger] found[i] is None,
        anchor(found) matches Some(p) ==> {
            &&& found.contains(Some(p))
            &&& forall|i: int|
                0 <= i < found.len() ==> (#[trigger] found[i] matches Some(q) ==> q <= p)
        },
{
    lemma_latest(found);
    if anchor(found) is Some {
        let i = choose|i: int| 0 <= i < found.len() && found[i] == Some(latest(found));
        assert(found[i] is Some);
    }
}

/// Positions read as the numbers that they are, one for one and in order.
pub proof fn law_positions_are_read(found: Seq<Option<usize>>)
    ensures
        position_views(found).len() == found.len(),
        forall|k: int|
            0 <= k < found.len() ==> (#[trigger] position_views(found)[k] is Some
                <==> found[k] is Some),
        forall|k: int|
            0 <= k < found.len() && found[k] is Some ==> #[trigger] position_views(found)[k]
                == Some(found[k]->0 as int),
{
}

/// Where a container goes among those that are scheduled already:
/// in front of them all, where it names no dependencies;
/// behind them all, where each of its dependencies is among them, and where
/// none is;
/// otherwise right in front of the one of its dependencies whose name comes up
/// for the first time behind those of all the others.
pub proof fn law_slot(before: Seq<ContainerView>, container: ContainerView)
    ensures
        ({
            let at = slot(before, container);
            &&& 0 <= at <= before.len()
            &&& container.depends is None ==> at == 0
            &&& container.depends matches Some(wanted) ==> {
                let all = forall|k: int|
                    0 <= k < wanted.len() ==> exists|j: int|
                        0 <= j < before.len() && before[j].name == #[trigger] wanted[k];
                let none = forall|j: int|
                    0 <= j < before.len() ==> !wanted.contains((#[trigger] before[j]).name);
                &&& all || none ==> at == before.len()
                &&& !all && !none ==> {
                    &&& at < before.len()
                    &&& wanted.contains(before[at].name)
                    &&& forall|j: int| 0 <= j < at ==> (#[trigger] before[j]).name != before[at].name
                    &&& forall|j: int|
                        at < j < before.len() && wanted.contains((#[trigger] before[j]).name)
                            ==> exists|l: int|
                            0 <= l <= at && (#[trigger] before[l]).name == before[j].name
                }
            }
        }),
{
    let at = slot(before, container);
    lemma_slot(before, container);
    if let Some(wanted) = container.depends {
        let found = positions(before, wanted);
        assert forall|k: int| 0 <= k < wanted.len() implies (match #[trigger] found[k] {
            Some(p) => 0 <= p < before.len() && before[p].name == wanted[k] && forall|q: int|
                0 <= q < p ==> (#[trigger] before[q]).name != wanted[k],
            None => forall|q: int|
                0 <= q < before.len() ==> (#[trigger] before[q]).name != wanted[k],
        }) by {
            law_positions(before, wanted, k);
        }
        let all = forall|k: int|
            0 <= k < wanted.len() ==> exists|j: int|
                0 <= j < before.len() && before[j].name == #[trigger] wanted[k];
        let none = forall|j: int|
            0 <= j < before.len() ==> !wanted.contains((#[trigger] before[j]).name);
        assert(all == !found.contains(None)) by {
            if all && found.contains(None) {
                let k = choose|k: int| 0 <= k < found.len() && found[k] == None::<int>;
                let j = choose|j: int| 0 <= j < before.len() && before[j].name == wanted[k];
                assert(before[j].name != wanted[k]);
            }
            if !found.contains(None) {
                assert forall|k: int| 0 <= k < wanted.len() implies exists|j: int|
                    0 <= j < before.len() && before[j].name == #[trigger] wanted[k] by {
                    assert(found[k] is Some);
                    assert(before[found[k]->0].name == wanted[k]);
                }
            }
        }
        assert forall|i: int| 0 <= i < found.len() implies (#[trigger] found[i] matches Some(p)
            ==> p >= 0) by {}
        law_anchor(found);
        if !all {
            if none {
                assert forall|k: int| 0 <= k < found.len() implies #[trigger] found[k] is None by {
                    if found[k] is Some {
                        assert(wanted.contains(before[found[k]->0].name));
                    }
                }
            } else {
                let j = choose|j: int|
                    0 <= j < before.len() && wanted.contains((#[trigger] before[j]).name);
                let k = choose|k: int| 0 <= k < wanted.len() && wanted[k] == before[j].name;
                assert(found[k] is Some);
                let first = choose|k: int| 0 <= k < found.len() && found[k] == Some(at);
                assert(before[at].name == wanted[first]);
                assert forall|j: int|
                    at < j < before.len() && wanted.contains((#[trigger] before[j]).name) implies
                    exists|l: int|
                    0 <= l <= at && (#[trigger] before[l]).name == before[j].name by {
                    let k = choose|k: int| 0 <= k < wanted.len() && wanted[k] == before[j].name;
                    assert(found[k] is Some);
                    let l = found[k]->0;
                    assert(l <= at);
                    assert(before[l].name == before[j].name);
                }
            }
        }
    }
}

/// Nothing is scheduled for nothing. One more container is put among those that
/// are scheduled already where it goes among them; what stood before it and
/// behind it is as it was.
pub proof fn law_one_more_container(containers: Seq<ContainerView>, container: ContainerView)
    ensures
        scheduled(Seq::empty()) == Seq::<ContainerView>::empty(),
        ({
            let before = scheduled(containers);
            let after = scheduled(containers.push(container));
            let at = slot(before, container);
            &&& 0 <= at <= before.len()
            &&& after.len() == before.len() + 1
            &&& after.take(at) == before.take(at)
            &&& after[at] == container
            &&& after.skip(at + 1) == before.skip(at)
        }),
{
    let before = scheduled(containers);
    let after = scheduled(containers.push(container));
    let at = slot(before, container);
    lemma_slot(before, container);
    assert(containers.push(container).drop_last() =~= containers);
    assert(after == before.insert(at, container));
    assert(after.take(at) =~= before.take(at));
    assert(after.skip(at + 1) =~= before.skip(at));
}

} // verus!
