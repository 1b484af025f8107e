//! Containers that can be finished one behind the other, and the circles of
//! those that cannot.

use vstd::prelude::*;
use vstd::set_lib::{lemma_int_range, lemma_len_subset, set_int_range};

use crate::config::{container_views, Container, ContainerView};
use crate::schedule::names;
use crate::text::texts;

verus! {

/// The container that a name stands for. Where a name is used more than once,
/// it stands for the last container.
pub open spec fn stands_for(containers: Seq<ContainerView>, name: Seq<char>) -> Option<int> {
    names(containers).index_of_last(name)
}

/// Whether the `i`-th container depends on a name that stands for the `j`-th.
pub open spec fn leads_to(containers: Seq<ContainerView>, i: int, j: int) -> bool {
    &&& 0 <= i < containers.len()
    &&& containers[i].depends is Some
    &&& exists|k: int|
        0 <= k < containers[i].depends->0.len() && stands_for(
            containers,
            #[trigger] containers[i].depends->0[k],
        ) == Some(j)
}

/// Whether a container can be finished within a number of rounds, each of which
/// finishes the containers whose listed dependencies are finished.
pub open spec fn grounded(containers: Seq<ContainerView>, i: int, rounds: nat) -> bool
    decreases rounds,
{
    rounds > 0 && forall|j: int| #[trigger]
        leads_to(containers, i, j) ==> grounded(containers, j, (rounds - 1) as nat)
}

/// Whether a container can not be finished in any number of rounds.
pub open spec fn stuck(containers: Seq<ContainerView>, i: int) -> bool {
    &&& 0 <= i < containers.len()
    &&& forall|rounds: nat| !#[trigger] grounded(containers, i, rounds)
}

/// Whether a container is the first one in the list that is stuck.
pub open spec fn stuck_first(containers: Seq<ContainerView>, i: int) -> bool {
    &&& stuck(containers, i)
    &&& forall|j: int| 0 <= j < i ==> !#[trigger] stuck(containers, j)
}

/// The first container that is stuck of those that some names, from the `k`-th
/// on, stand for.
pub open spec fn first_stuck(
    containers: Seq<ContainerView>,
    wanted: Seq<Seq<char>>,
    k: int,
) -> Option<int>
    decreases wanted.len() - k,
{
    if k < 0 || k >= wanted.len() {
        None
    } else {
        match stands_for(containers, wanted[k]) {
            Some(j) if stuck(containers, j) => Some(j),
            _ => first_stuck(containers, wanted, k + 1),
        }
    }
}

/// The first dependency of a container that is stuck. Where there is none, the
/// container itself.
pub open spec fn next(containers: Seq<ContainerView>, i: int) -> int {
    match containers[i].depends {
        Some(wanted) => match first_stuck(containers, wanted, 0) {
            Some(j) => j,
            None => i,
        },
        None => i,
    }
}

/// Where one comes to from a container by a number of steps, each to the first
/// dependency that is stuck.
pub open spec fn walk(containers: Seq<ContainerView>, i: int, steps: int) -> int
    decreases steps,
{
    if steps <= 0 {
        i
    } else {
        next(containers, walk(containers, i, steps - 1))
    }
}

/// Whether a walk comes to a container for the second time after `b` steps,
/// having been there after `a` steps, and comes to none twice before.
pub open spec fn first_repeat(containers: Seq<ContainerView>, i: int, a: int, b: int) -> bool {
    &&& 0 <= a < b
    &&& walk(containers, i, a) == walk(containers, i, b)
    &&& forall|k: int, l: int|
        0 <= k < l < b ==> #[trigger] walk(containers, i, k) != #[trigger] walk(containers, i, l)
}

/// The containers that a walk comes to from the `a`-th step to the `b`-th.
pub open spec fn stretch(containers: Seq<ContainerView>, i: int, a: int, b: int) -> Seq<int> {
    Seq::new((b - a) as nat, |k: int| walk(containers, i, a + k))
}

/// The names of the containers at some positions of a list.
pub open spec fn names_at(containers: Seq<ContainerView>, path: Seq<int>) -> Seq<Seq<char>> {
    path.map_values(|i: int| containers[i].name)
}

/// Whether the walk from the first container that is stuck ends in a circle
/// through some positions of the list.
pub open spec fn ends_in(containers: Seq<ContainerView>, path: Seq<int>) -> bool {
    exists|i: int, a: int, b: int|
        stuck_first(containers, i) && #[trigger] first_repeat(containers, i, a, b) && path
            == stretch(containers, i, a, b)
}

/// The circle that is found where a container is stuck: the one that the walk
/// from the first such container ends in.
pub open spec fn found_circle(containers: Seq<ContainerView>) -> Option<Seq<int>> {
    if exists|i: int| stuck(containers, i) {
        Some(choose|path: Seq<int>| ends_in(containers, path))
    } else {
        None
    }
}

/// The position behind the `k`-th in a circle of some length.
pub open spec fn after(k: int, length: nat) -> int {
    if k + 1 < length {
        k + 1
    } else {
        0
    }
}

/// Whether each container at some positions of a list depends on the one at
/// the next position, and the last one on the first.
pub open spec fn is_circle(containers: Seq<ContainerView>, path: Seq<int>) -> bool {
    &&& path.len() > 0
    &&& forall|k: int|
        0 <= k < path.len() ==> leads_to(
            containers,
            #[trigger] path[k],
            path[after(k, path.len())],
        )
}

/// The fewest rounds within which a container can be finished.
pub open spec fn fewest(containers: Seq<ContainerView>, i: int) -> nat {
    choose|rounds: nat|
        grounded(containers, i, rounds) && forall|fewer: nat|
            fewer < rounds ==> !#[trigger] grounded(containers, i, fewer)
}

/// What a dependency leads to is listed, and its name stands for it.
pub proof fn lemma_leads_to(containers: Seq<ContainerView>, i: int, j: int)
    requires
        leads_to(containers, i, j),
    ensures
        0 <= j < containers.len(),
        stands_for(containers, containers[j].name) == Some(j),
        containers[i].depends->0.contains(containers[j].name),
{
    let wanted = containers[i].depends->0;
    let k = choose|k: int|
        0 <= k < wanted.len() && stands_for(containers, #[trigger] wanted[k]) == Some(j);
    names(containers).index_of_last_ensures(wanted[k]);
    assert(names(containers)[j] == containers[j].name);
}

/// What can be finished within some rounds can be finished within more.
pub proof fn lemma_more_rounds(containers: Seq<ContainerView>, i: int, fewer: nat, rounds: nat)
    requires
        grounded(containers, i, fewer),
        fewer <= rounds,
    ensures
        grounded(containers, i, rounds),
    decreases fewer,
{
    assert forall|j: int| #[trigger] leads_to(containers, i, j) implies grounded(
        containers,
        j,
        (rounds - 1) as nat,
    ) by {
        lemma_more_rounds(containers, j, (fewer - 1) as nat, (rounds - 1) as nat);
    }
}

/// What can be finished can be finished within a fewest number of rounds.
pub proof fn lemma_fewest(containers: Seq<ContainerView>, i: int, rounds: nat)
    requires
        grounded(containers, i, rounds),
    ensures
        grounded(containers, i, fewest(containers, i)),
        forall|fewer: nat|
            fewer < fewest(containers, i) ==> !#[trigger] grounded(containers, i, fewer),
    decreases rounds,
{
    if exists|fewer: nat| fewer < rounds && #[trigger] grounded(containers, i, fewer) {
        let fewer = choose|fewer: nat| fewer < rounds && #[trigger] grounded(containers, i, fewer);
        lemma_fewest(containers, i, fewer);
    }
}

/// What depends on a container takes more rounds than that container.
pub proof fn lemma_fewer_before(containers: Seq<ContainerView>, i: int, j: int, rounds: nat)
    requires
        grounded(containers, i, rounds),
        leads_to(containers, i, j),
    ensures
        fewest(containers, j) < fewest(containers, i),
{
    lemma_fewest(containers, i, rounds);
    let before = (fewest(containers, i) - 1) as nat;
    assert(grounded(containers, j, before));
    lemma_fewest(containers, j, before);
}

/// Within some number of rounds all of a container's dependencies, up to the
/// `k`-th, that are not stuck can be finished.
proof fn lemma_common_rounds(
    containers: Seq<ContainerView>,
    wanted: Seq<Seq<char>>,
    k: int,
) -> (rounds: nat)
    requires
        0 <= k <= wanted.len(),
    ensures
        forall|l: int|
            0 <= l < k ==> (stands_for(containers, #[trigger] wanted[l]) matches Some(j)
                ==> stuck(containers, j) || grounded(containers, j, rounds)),
    decreases k,
{
    if k == 0 {
        0
    } else {
        let before = lemma_common_rounds(containers, wanted, k - 1);
        names(containers).index_of_last_ensures(wanted[k - 1]);
        let last: nat = match stands_for(containers, wanted[k - 1]) {
            Some(j) => if stuck(containers, j) {
                0
            } else {
                choose|rounds: nat| #[trigger] grounded(containers, j, rounds)
            },
            None => 0,
        };
        let rounds = before + last;
        assert forall|l: int| 0 <= l < k implies (stands_for(
            containers,
            #[trigger] wanted[l],
        ) matches Some(j) ==> stuck(containers, j) || grounded(containers, j, rounds)) by {
            if let Some(j) = stands_for(containers, wanted[l]) {
                if !stuck(containers, j) {
                    if l < k - 1 {
                        lemma_more_rounds(containers, j, before, rounds);
                    } else {
                        lemma_more_rounds(containers, j, last, rounds);
                    }
                }
            }
        }
        rounds
    }
}

proof fn lemma_first_stuck(containers: Seq<ContainerView>, wanted: Seq<Seq<char>>, k: int)
    requires
        0 <= k <= wanted.len(),
    ensures
        match first_stuck(containers, wanted, k) {
            Some(j) => stuck(containers, j) && exists|l: int|
                k <= l < wanted.len() && stands_for(containers, #[trigger] wanted[l]) == Some(j),
            None => forall|l: int|
                k <= l < wanted.len() ==> (stands_for(containers, #[trigger] wanted[l]) matches Some(
                    j,
                ) ==> !stuck(containers, j)),
        },
    decreases wanted.len() - k,
{
    if k < wanted.len() {
        lemma_first_stuck(containers, wanted, k + 1);
    }
}

/// A container that is stuck depends on one that is stuck.
pub proof fn lemma_next(containers: Seq<ContainerView>, i: int)
    requires
        stuck(containers, i),
    ensures
        stuck(containers, next(containers, i)),
        leads_to(containers, i, next(containers, i)),
{
    assert(!grounded(containers, i, 1));
    let wanted = containers[i].depends->0;
    let rounds = lemma_common_rounds(containers, wanted, wanted.len() as int);
    lemma_first_stuck(containers, wanted, 0);
    assert(!grounded(containers, i, rounds + 1));
    let j = choose|j: int| #[trigger]
        leads_to(containers, i, j) && !grounded(containers, j, rounds);
    let k = choose|k: int|
        0 <= k < wanted.len() && stands_for(containers, #[trigger] wanted[k]) == Some(j);
    assert(stuck(containers, j));
}

/// A walk from a container that is stuck leads from one such container to the
/// next.
pub proof fn lemma_walk(containers: Seq<ContainerView>, i: int, steps: int)
    requires
        stuck(containers, i),
        0 <= steps,
    ensures
        stuck(containers, walk(containers, i, steps)),
        leads_to(containers, walk(containers, i, steps), walk(containers, i, steps + 1)),
    decreases steps,
{
    if steps > 0 {
        lemma_walk(containers, i, steps - 1);
        lemma_next(containers, walk(containers, i, steps - 1));
    }
    lemma_next(containers, walk(containers, i, steps));
}

/// Positions in a list of which none is given twice are no more than the list
/// has.
pub proof fn lemma_distinct_positions(path: Seq<int>, length: nat)
    requires
        path.no_duplicates(),
        forall|k: int| 0 <= k < path.len() ==> 0 <= #[trigger] path[k] < length,
    ensures
        path.len() <= length,
{
    path.unique_seq_to_set();
    lemma_int_range(0, length as int);
    assert(path.to_set().subset_of(set_int_range(0, length as int)));
    lemma_len_subset(path.to_set(), set_int_range(0, length as int));
}

proof fn lemma_repeat_within(containers: Seq<ContainerView>, i: int, steps: int)
    requires
        0 <= steps,
    ensures
        (exists|a: int, b: int| #[trigger] first_repeat(containers, i, a, b)) || forall|
            k: int,
            l: int,
        |
            0 <= k < l <= steps ==> #[trigger] walk(containers, i, k) != #[trigger] walk(
                containers,
                i,
                l,
            ),
    decreases steps,
{
    if steps > 0 {
        lemma_repeat_within(containers, i, steps - 1);
        if !(exists|a: int, b: int| #[trigger] first_repeat(containers, i, a, b)) {
            assert forall|k: int, l: int| 0 <= k < l <= steps implies #[trigger] walk(
                containers,
                i,
                k,
            ) != #[trigger] walk(containers, i, l) by {
                if l == steps && walk(containers, i, k) == walk(containers, i, l) {
                    assert(first_repeat(containers, i, k, l));
                }
            }
        }
    }
}

/// A walk from a container that is stuck comes to some container twice.
pub proof fn lemma_walk_repeats(containers: Seq<ContainerView>, i: int)
    requires
        stuck(containers, i),
    ensures
        exists|a: int, b: int| #[trigger] first_repeat(containers, i, a, b),
{
    let steps = containers.len() as int;
    lemma_repeat_within(containers, i, steps);
    if !(exists|a: int, b: int| #[trigger] first_repeat(containers, i, a, b)) {
        let path = stretch(containers, i, 0, steps + 1);
        assert forall|k: int| 0 <= k < path.len() implies 0 <= #[trigger] path[k]
            < containers.len() by {
            lemma_walk(containers, i, k);
        }
        assert forall|k: int, l: int|
            0 <= k < path.len() && 0 <= l < path.len() && k != l implies path[k] != path[l] by {
            assert(walk(containers, i, k) != walk(containers, i, l));
        }
        lemma_distinct_positions(path, containers.len());
    }
}

proof fn lemma_first_stuck_container(containers: Seq<ContainerView>, i: int) -> (first: int)
    requires
        stuck(containers, i),
    ensures
        stuck_first(containers, first),
    decreases i,
{
    if exists|j: int| 0 <= j < i && #[trigger] stuck(containers, j) {
        lemma_first_stuck_container(
            containers,
            choose|j: int| 0 <= j < i && #[trigger] stuck(containers, j),
        )
    } else {
        i
    }
}

/// The walk from the first container that is stuck ends in one circle only.
pub proof fn lemma_one_end(containers: Seq<ContainerView>, path: Seq<int>, other: Seq<int>)
    requires
        ends_in(containers, path),
        ends_in(containers, other),
    ensures
        path == other,
{
    let (i, a, b) = choose|i: int, a: int, b: int|
        stuck_first(containers, i) && #[trigger] first_repeat(containers, i, a, b) && path
            == stretch(containers, i, a, b);
    let (j, c, d) = choose|i: int, a: int, b: int|
        stuck_first(containers, i) && #[trigger] first_repeat(containers, i, a, b) && other
            == stretch(containers, i, a, b);
    assert(i == j) by {
        if i < j {
            assert(!stuck(containers, i));
        } else if j < i {
            assert(!stuck(containers, j));
        }
    }
    assert(b == d) by {
        if b < d {
            assert(walk(containers, i, a) != walk(containers, i, b));
        } else if d < b {
            assert(walk(containers, i, c) != walk(containers, i, d));
        }
    }
    assert(a == c) by {
        if a < c {
            assert(walk(containers, i, a) != walk(containers, i, c));
        } else if c < a {
            assert(walk(containers, i, c) != walk(containers, i, a));
        }
    }
}

/// What is found is a circle, and comes to no container twice.
pub proof fn lemma_found_circle(containers: Seq<ContainerView>)
    requires
        found_circle(containers) is Some,
    ensures
        ends_in(containers, found_circle(containers)->0),
        is_circle(containers, found_circle(containers)->0),
        found_circle(containers)->0.no_duplicates(),
{
    let any = choose|i: int| stuck(containers, i);
    let first = lemma_first_stuck_container(containers, any);
    lemma_walk_repeats(containers, first);
    let (from, to) = choose|a: int, b: int| #[trigger] first_repeat(containers, first, a, b);
    assert(ends_in(containers, stretch(containers, first, from, to)));
    let path = found_circle(containers)->0;
    let (i, a, b) = choose|i: int, a: int, b: int|
        stuck_first(containers, i) && #[trigger] first_repeat(containers, i, a, b) && path
            == stretch(containers, i, a, b);
    assert forall|k: int| 0 <= k < path.len() implies leads_to(
        containers,
        #[trigger] path[k],
        path[after(k, path.len())],
    ) by {
        lemma_walk(containers, i, a + k);
        assert(path[k] == walk(containers, i, a + k));
        if k + 1 < path.len() {
            assert(path[k + 1] == walk(containers, i, a + (k + 1)));
        } else {
            assert(path[0] == walk(containers, i, a + 0));
            assert(a + k + 1 == b);
        }
    }
    assert forall|k: int, l: int|
        0 <= k < path.len() && 0 <= l < path.len() && k != l implies path[k] != path[l] by {
        assert(walk(containers, i, a + k) != walk(containers, i, a + l));
    }
}

proof fn lemma_circle_is_not_grounded(
    containers: Seq<ContainerView>,
    path: Seq<int>,
    k: int,
    rounds: nat,
)
    requires
        is_circle(containers, path),
        0 <= k < path.len(),
    ensures
        !grounded(containers, path[k], rounds),
    decreases rounds,
{
    if rounds > 0 {
        assert(leads_to(containers, path[k], path[after(k, path.len())]));
        lemma_circle_is_not_grounded(
            containers,
            path,
            after(k, path.len()),
            (rounds - 1) as nat,
        );
    }
}

/// A circle is found exactly where there is one.
pub proof fn law_circles_are_found(containers: Seq<ContainerView>)
    ensures
        found_circle(containers) is Some <==> exists|path: Seq<int>| is_circle(containers, path),
{
    if found_circle(containers) is Some {
        lemma_found_circle(containers);
    }
    if exists|path: Seq<int>| is_circle(containers, path) {
        let path = choose|path: Seq<int>| is_circle(containers, path);
        assert(leads_to(containers, path[0], path[after(0, path.len())]));
        assert forall|rounds: nat| !#[trigger] grounded(containers, path[0], rounds) by {
            lemma_circle_is_not_grounded(containers, path, 0, rounds);
        }
        assert(stuck(containers, path[0]));
    }
}

/// The last container of a name.
pub fn last_named(containers: &Vec<Container>, name: &String) -> (position: Option<usize>)
    ensures
        match position {
            Some(i) => {
                &&& i < containers.len()
                &&& stands_for(container_views(containers@), name@) == Some(i as int)
            },
            None => stands_for(container_views(containers@), name@) is None,
        },
{
    let ghost all = names(container_views(containers@));
    proof {
        all.index_of_last_ensures(name@);
    }
    let mut i: usize = containers.len();
    while i > 0
        invariant
            i <= containers.len(),
            all == names(container_views(containers@)),
            forall|j: int| i <= j < all.len() ==> all[j] != name@,
            match all.index_of_last(name@) {
                Some(last) => {
                    &&& 0 <= last < all.len()
                    &&& all[last] == name@
                    &&& forall|j: int| last < j < all.len() ==> all[j] != name@
                },
                None => !all.contains(name@),
            },
        decreases i,
    {
        i = i - 1;
        if containers[i].name == *name {
            assert(all[i as int] == name@);
            return Some(i);
        }
    }
    None
}

/// Whether all listed dependencies of a container are done.
fn dependencies_done(containers: &Vec<Container>, done: &Vec<bool>, i: usize) -> (all_done: bool)
    requires
        i < containers.len(),
        done.len() == containers.len(),
    ensures
        all_done == forall|j: int| #[trigger]
            leads_to(container_views(containers@), i as int, j) ==> done@[j],
{
    let ghost all = container_views(containers@);
    assert(all[i as int] == containers@[i as int]@);
    match &containers[i].depends {
        None => true,
        Some(wanted) => {
            let mut k: usize = 0;
            while k < wanted.len()
                invariant
                    k <= wanted.len(),
                    i < containers.len(),
                    done.len() == containers.len(),
                    all == container_views(containers@),
                    all[i as int].depends == Some(texts(wanted@)),
                    forall|l: int|
                        0 <= l < k ==> (stands_for(all, #[trigger] texts(wanted@)[l]) matches Some(j)
                            ==> done@[j]),
                decreases wanted.len() - k,
            {
                match last_named(containers, &wanted[k]) {
                    Some(j) => {
                        if !done[j] {
                            assert(texts(wanted@)[k as int] == wanted@[k as int]@);
                            assert(leads_to(all, i as int, j as int));
                            return false;
                        }
                    },
                    None => {},
                }
                k = k + 1;
            }
            assert forall|j: int| #[trigger] leads_to(all, i as int, j) implies done@[j] by {
                let l = choose|l: int|
                    0 <= l < texts(wanted@).len() && stands_for(all, #[trigger] texts(wanted@)[l])
                        == Some(j);
            }
            true
        },
    }
}

/// A container that is not done although all of its listed dependencies are.
fn find_ready(containers: &Vec<Container>, done: &Vec<bool>) -> (ready: Option<usize>)
    requires
        done.len() == containers.len(),
    ensures
        match ready {
            Some(i) => {
                &&& i < containers.len()
                &&& !done@[i as int]
                &&& forall|j: int| #[trigger]
                    leads_to(container_views(containers@), i as int, j) ==> done@[j]
            },
            None => forall|i: int|
                0 <= i < containers.len() && !#[trigger] done@[i] ==> exists|j: int| #[trigger]
                    leads_to(container_views(containers@), i, j) && !done@[j],
        },
{
    let mut i: usize = 0;
    while i < containers.len()
        invariant
            i <= containers.len(),
            done.len() == containers.len(),
            forall|k: int|
                0 <= k < i && !#[trigger] done@[k] ==> exists|j: int| #[trigger]
                    leads_to(container_views(containers@), k, j) && !done@[j],
        decreases containers.len() - i,
    {
        if !done[i] && dependencies_done(containers, done, i) {
            return Some(i);
        }
        i = i + 1;
    }
    None
}

proof fn lemma_left_over(
    containers: Seq<ContainerView>,
    done: Seq<bool>,
    i: int,
    rounds: nat,
)
    requires
        done.len() == containers.len(),
        forall|i: int|
            0 <= i < containers.len() && !#[trigger] done[i] ==> exists|j: int| #[trigger]
                leads_to(containers, i, j) && !done[j],
        0 <= i < containers.len(),
        !done[i],
    ensures
        !grounded(containers, i, rounds),
    decreases rounds,
{
    if rounds > 0 {
        let j = choose|j: int| #[trigger] leads_to(containers, i, j) && !done[j];
        lemma_leads_to(containers, i, j);
        lemma_left_over(containers, done, j, (rounds - 1) as nat);
    }
}

/// Which containers can be finished.
pub fn find_grounded(containers: &Vec<Container>) -> (done: Vec<bool>)
    ensures
        done.len() == containers.len(),
        forall|i: int|
            0 <= i < containers.len() ==> #[trigger] done@[i] == !stuck(
                container_views(containers@),
                i,
            ),
{
    let ghost all = container_views(containers@);
    let ghost range = set_int_range(0, containers.len() as int);
    let mut done: Vec<bool> = Vec::new();
    let mut i: usize = 0;
    while i < containers.len()
        invariant
            i <= containers.len(),
            done.len() == i,
            forall|j: int| 0 <= j < i ==> !#[trigger] done@[j],
        decreases containers.len() - i,
    {
        done.push(false);
        i = i + 1;
    }
    let ghost mut marked: Set<int> = Set::empty();
    proof {
        lemma_int_range(0, containers.len() as int);
    }
    loop
        invariant
            all == container_views(containers@),
            range == set_int_range(0, containers.len() as int),
            range.finite(),
            range.len() == containers.len(),
            done.len() == containers.len(),
            marked.finite(),
            marked.subset_of(range),
            marked.len() <= containers.len(),
            forall|j: int| 0 <= j < containers.len() ==> #[trigger] done@[j] == marked.contains(j),
            forall|j: int|
                0 <= j < containers.len() && #[trigger] done@[j] ==> grounded(all, j, marked.len()),
        decreases containers.len() - marked.len(),
    {
        match find_ready(containers, &done) {
            Some(i) => {
                let ghost before = done@;
                let ghost rounds = marked.len();
                done.set(i, true);
                proof {
                    assert(!marked.contains(i as int));
                    marked = marked.insert(i as int);
                    lemma_len_subset(marked, range);
                    assert(marked.len() == rounds + 1);
                    assert forall|j: int| 0 <= j < containers.len() && #[trigger] done@[j] implies
                        grounded(all, j, marked.len()) by {
                        if j == i {
                            assert forall|l: int| #[trigger] leads_to(all, j, l) implies grounded(
                                all,
                                l,
                                rounds,
                            ) by {
                                lemma_leads_to(all, j, l);
                                assert(before[l]);
                            }
                        } else {
                            assert(before[j]);
                            lemma_more_rounds(all, j, rounds, marked.len());
                        }
                    }
                }
            },
            None => {
                proof {
                    assert forall|j: int| 0 <= j < containers.len() implies #[trigger] done@[j]
                        == !stuck(all, j) by {
                        if !done@[j] {
                            assert forall|rounds: nat| !#[trigger] grounded(all, j, rounds) by {
                                lemma_left_over(all, done@, j, rounds);
                            }
                        }
                    }
                }
                return done;
            },
        }
    }
}

/// The first dependency of a stuck container that is stuck.
fn find_next(containers: &Vec<Container>, done: &Vec<bool>, i: usize) -> (found: usize)
    requires
        i < containers.len(),
        done.len() == containers.len(),
        forall|j: int|
            0 <= j < containers.len() ==> #[trigger] done@[j] == !stuck(
                container_views(containers@),
                j,
            ),
        stuck(container_views(containers@), i as int),
    ensures
        found < containers.len(),
        found == next(container_views(containers@), i as int),
        stuck(container_views(containers@), found as int),
{
    let ghost all = container_views(containers@);
    proof {
        lemma_next(all, i as int);
        lemma_leads_to(all, i as int, next(all, i as int));
    }
    assert(all[i as int] == containers@[i as int]@);
    match &containers[i].depends {
        None => i,
        Some(wanted) => {
            let mut k: usize = 0;
            while k < wanted.len()
                invariant
                    k <= wanted.len(),
                    i < containers.len(),
                    done.len() == containers.len(),
                    all == container_views(containers@),
                    all[i as int].depends == Some(texts(wanted@)),
                    forall|j: int|
                        0 <= j < containers.len() ==> #[trigger] done@[j] == !stuck(all, j),
                    first_stuck(all, texts(wanted@), 0) == first_stuck(
                        all,
                        texts(wanted@),
                        k as int,
                    ),
                decreases wanted.len() - k,
            {
                assert(texts(wanted@)[k as int] == wanted@[k as int]@);
                match last_named(containers, &wanted[k]) {
                    Some(j) => {
                        if !done[j] {
                            return j;
                        }
                    },
                    None => {},
                }
                k = k + 1;
            }
            i
        },
    }
}

/// Where a position stands among others.
fn find_position(path: &Vec<usize>, wanted: usize) -> (position: Option<usize>)
    ensures
        match position {
            Some(i) => i < path.len() && path@[i as int] == wanted,
            None => !path@.contains(wanted),
        },
{
    let mut i: usize = 0;
    while i < path.len()
        invariant
            i <= path.len(),
            forall|j: int| 0 <= j < i ==> path@[j] != wanted,
        decreases path.len() - i,
    {
        if path[i] == wanted {
            return Some(i);
        }
        i = i + 1;
    }
    None
}

/// The first container that is stuck.
fn find_stuck(done: &Vec<bool>) -> (position: Option<usize>)
    ensures
        match position {
            Some(i) => i < done.len() && !done@[i as int] && forall|j: int|
                0 <= j < i ==> #[trigger] done@[j],
            None => forall|j: int| 0 <= j < done.len() ==> #[trigger] done@[j],
        },
{
    let mut i: usize = 0;
    while i < done.len()
        invariant
            i <= done.len(),
            forall|j: int| 0 <= j < i ==> #[trigger] done@[j],
        decreases done.len() - i,
    {
        if !done[i] {
            return Some(i);
        }
        i = i + 1;
    }
    None
}

/// The names of the containers at the positions from `from` on.
fn copy_names(containers: &Vec<Container>, path: &Vec<usize>, from: usize) -> (copies: Vec<String>)
    requires
        from <= path.len(),
        forall|k: int| 0 <= k < path.len() ==> #[trigger] path@[k] < containers.len(),
    ensures
        texts(copies@) == Seq::new(
            (path.len() - from) as nat,
            |k: int| container_views(containers@)[path@[from + k] as int].name,
        ),
{
    let ghost all = container_views(containers@);
    let mut copies: Vec<String> = Vec::new();
    let mut k: usize = from;
    while k < path.len()
        invariant
            from <= k <= path.len(),
            all == container_views(containers@),
            forall|k: int| 0 <= k < path.len() ==> #[trigger] path@[k] < containers.len(),
            texts(copies@) == Seq::new(
                (k - from) as nat,
                |k: int| all[path@[from + k] as int].name,
            ),
        decreases path.len() - k,
    {
        assert(path@[k as int] < containers.len());
        let ghost before = copies@;
        copies.push(containers[path[k]].name.clone());
        k = k + 1;
        assert(texts(copies@) =~= texts(before).push(all[path@[k - 1] as int].name));
        assert(texts(copies@) =~= Seq::new(
            (k - from) as nat,
            |k: int| all[path@[from + k] as int].name,
        ));
    }
    copies
}

/// The names along the circle that is found where a container is stuck.
pub fn find_circle(containers: &Vec<Container>) -> (circle: Option<Vec<String>>)
    ensures
        match circle {
            Some(path) => {
                &&& found_circle(container_views(containers@)) is Some
                &&& texts(path@) == names_at(
                    container_views(containers@),
                    found_circle(container_views(containers@))->0,
                )
            },
            None => found_circle(container_views(containers@)) is None,
        },
{
    let ghost all = container_views(containers@);
    let done = find_grounded(containers);
    let first: usize = match find_stuck(&done) {
        Some(i) => i,
        None => {
            assert forall|j: int| !stuck(all, j) by {
                if stuck(all, j) {
                    assert(done@[j]);
                }
            }
            return None;
        },
    };
    proof {
        assert(!done@[first as int]);
        assert(stuck(all, first as int));
        assert forall|j: int| 0 <= j < first implies !#[trigger] stuck(all, j) by {
            assert(done@[j]);
        }
        assert(walk(all, first as int, 0) == first);
    }
    let mut path: Vec<usize> = Vec::new();
    path.push(first);
    let mut at: usize = first;
    loop
        invariant
            all == container_views(containers@),
            done.len() == containers.len(),
            forall|i: int|
                0 <= i < containers.len() ==> #[trigger] done@[i] == !stuck(all, i),
            first < containers.len(),
            stuck_first(all, first as int),
            at < containers.len(),
            stuck(all, at as int),
            1 <= path.len() <= containers.len(),
            at == path@[path.len() - 1],
            forall|k: int| 0 <= k < path.len() ==> #[trigger] path@[k] < containers.len(),
            forall|k: int|
                0 <= k < path.len() ==> #[trigger] path@[k] == walk(all, first as int, k),
            forall|k: int, l: int| 0 <= k < l < path.len() ==> path@[k] != path@[l],
        decreases containers.len() - path.len(),
    {
        let ghost steps = path.len() as int;
        assert(walk(all, first as int, steps) == next(all, at as int));
        at = find_next(containers, &done, at);
        match find_position(&path, at) {
            Some(from) => {
                let names = copy_names(containers, &path, from);
                proof {
                    let i = first as int;
                    let a = from as int;
                    assert(path@[a] == walk(all, i, a));
                    assert forall|k: int, l: int| 0 <= k < l < steps implies #[trigger] walk(
                        all,
                        i,
                        k,
                    ) != #[trigger] walk(all, i, l) by {
                        assert(path@[k] == walk(all, i, k));
                        assert(path@[l] == walk(all, i, l));
                    }
                    assert(first_repeat(all, i, a, steps));
                    let circle = stretch(all, i, a, steps);
                    assert(ends_in(all, circle));
                    lemma_found_circle(all);
                    lemma_one_end(all, circle, found_circle(all)->0);
                    assert forall|k: int| 0 <= k < circle.len() implies path@[a + k]
                        == #[trigger] circle[k] by {
                        assert(path@[a + k] == walk(all, i, a + k));
                    }
                    assert(texts(names@) =~= names_at(all, circle));
                }
                return Some(names);
            },
            None => {
                path.push(at);
                proof {
                    let positions = path@.map_values(|p: usize| p as int);
                    assert forall|k: int, l: int|
                        0 <= k < l < path.len() implies path@[k] != path@[l] by {
                        if l == steps {
                            assert(path@.take(steps)[k] == path@[k]);
                        }
                    }
                    assert forall|k: int, l: int|
                        0 <= k < positions.len() && 0 <= l < positions.len() && k != l implies
                        positions[k] != positions[l] by {
                        assert(path@[k] != path@[l]);
                    }
                    assert forall|k: int| 0 <= k < positions.len() implies 0
                        <= #[trigger] positions[k] < containers.len() by {
                        assert(path@[k] < containers.len());
                    }
                    lemma_distinct_positions(positions, containers.len() as nat);
                }
            },
        }
    }
}

/// Whether one container waits for another: it names the other as a dependency,
/// and the other is the last one that bears that name.
pub open spec fn waits_for(containers: Seq<ContainerView>, i: int, j: int) -> bool {
    &&& 0 <= i < containers.len()
    &&& 0 <= j < containers.len()
    &&& containers[i].depends matches Some(wanted) && wanted.contains(containers[j].name)
    &&& forall|l: int| j < l < containers.len() ==> (#[trigger] containers[l]).name
        != containers[j].name
}

/// Whether each of some containers waits for the next one, and the last one for
/// the first.
pub open spec fn wait_in_a_circle(containers: Seq<ContainerView>, path: Seq<int>) -> bool {
    &&& path.len() > 0
    &&& forall|k: int, l: int|
        0 <= k && l == k + 1 && l < path.len() ==> waits_for(
            containers,
            #[trigger] path[k],
            #[trigger] path[l],
        )
    &&& waits_for(containers, path.last(), path[0])
}

/// To lead to a container is to wait for it.
pub proof fn lemma_leading_is_waiting(containers: Seq<ContainerView>, i: int, j: int)
    ensures
        leads_to(containers, i, j) <==> waits_for(containers, i, j),
{
    let all = names(containers);
    if leads_to(containers, i, j) {
        lemma_leads_to(containers, i, j);
        all.index_of_last_ensures(containers[j].name);
        assert forall|l: int| j < l < containers.len() implies (#[trigger] containers[l]).name
            != containers[j].name by {
            assert(all[l] == containers[l].name);
        }
    }
    if waits_for(containers, i, j) {
        let wanted = containers[i].depends->0;
        let k = choose|k: int| 0 <= k < wanted.len() && wanted[k] == containers[j].name;
        all.index_of_last_ensures(wanted[k]);
        assert(all[j] == wanted[k]);
        assert(all.contains(wanted[k]));
        let last = all.index_of_last(wanted[k])->0;
        assert(all[last] == containers[last].name);
        assert(last == j);
        assert(stands_for(containers, wanted[k]) == Some(j));
    }
}

/// The two ways to say that containers wait in a circle are one.
pub proof fn lemma_circles_are_waiting(containers: Seq<ContainerView>, path: Seq<int>)
    ensures
        is_circle(containers, path) <==> wait_in_a_circle(containers, path),
{
    if is_circle(containers, path) {
        assert forall|k: int, l: int| 0 <= k && l == k + 1 && l < path.len() implies waits_for(
            containers,
            #[trigger] path[k],
            #[trigger] path[l],
        ) by {
            assert(leads_to(containers, path[k], path[after(k, path.len())]));
            lemma_leading_is_waiting(containers, path[k], path[l]);
        }
        let last = path.len() - 1;
        assert(leads_to(containers, path[last], path[after(last, path.len())]));
        lemma_leading_is_waiting(containers, path[last], path[0]);
    }
    if wait_in_a_circle(containers, path) {
        assert forall|k: int| 0 <= k < path.len() implies leads_to(
            containers,
            #[trigger] path[k],
            path[after(k, path.len())],
        ) by {
            if k + 1 < path.len() {
                assert(waits_for(containers, path[k], path[k + 1]));
            }
            lemma_leading_is_waiting(containers, path[k], path[after(k, path.len())]);
        }
    }
}

/// A container that can be finished waits for such containers only, and one
/// that waits for such containers only can be finished.
pub proof fn law_what_can_be_finished(containers: Seq<ContainerView>, i: int)
    requires
        0 <= i < containers.len(),
    ensures
        stuck(containers, i) <==> exists|j: int|
            waits_for(containers, i, j) && #[trigger] stuck(containers, j),
{
    if stuck(containers, i) {
        lemma_next(containers, i);
        lemma_leading_is_waiting(containers, i, next(containers, i));
    }
    if exists|j: int| waits_for(containers, i, j) && #[trigger] stuck(containers, j) {
        let j = choose|j: int| waits_for(containers, i, j) && #[trigger] stuck(containers, j);
        lemma_leading_is_waiting(containers, i, j);
        assert forall|rounds: nat| !#[trigger] grounded(containers, i, rounds) by {
            if grounded(containers, i, rounds) {
                assert(grounded(containers, j, (rounds - 1) as nat));
            }
        }
    }
}

/// None of the containers that wait in a circle can be finished.
pub proof fn law_circles_are_not_finished(containers: Seq<ContainerView>, path: Seq<int>, k: int)
    requires
        wait_in_a_circle(containers, path),
        0 <= k < path.len(),
    ensures
        stuck(containers, path[k]),
{
    lemma_circles_are_waiting(containers, path);
    assert(leads_to(containers, path[k], path[after(k, path.len())]));
    assert forall|rounds: nat| !#[trigger] grounded(containers, path[k], rounds) by {
        lemma_circle_is_not_grounded(containers, path, k, rounds);
    }
}

/// A name stands for the last container that bears it, and for none where no
/// container does.
pub proof fn law_names_stand_for_the_last(containers: Seq<ContainerView>, name: Seq<char>)
    ensures
        stands_for(containers, name) matches Some(j) ==> {
            &&& 0 <= j < containers.len()
            &&& containers[j].name == name
            &&& forall|l: int| j < l < containers.len() ==> (#[trigger] containers[l]).name != name
        },
        stands_for(containers, name) is None ==> forall|l: int|
            0 <= l < containers.len() ==> (#[trigger] containers[l]).name != name,
{
    let all = names(containers);
    all.index_of_last_ensures(name);
    assert forall|l: int| 0 <= l < containers.len() implies all[l] == (
    #[trigger] containers[l]).name by {}
    if stands_for(containers, name) is None {
        assert forall|l: int| 0 <= l < containers.len() implies (#[trigger] containers[l]).name
            != name by {
            if containers[l].name == name {
                assert(all[l] == name);
            }
        }
    } else {
        let j = stands_for(containers, name)->0;
        assert(all[j] == containers[j].name);
        assert forall|l: int| j < l < containers.len() implies (#[trigger] containers[l]).name
            != name by {
            assert(all[l] != name);
        }
    }
}

/// Whether a container waits for another one that can not be finished, and
/// every dependency that it names before that one can be.
pub open spec fn waits_first_for(containers: Seq<ContainerView>, i: int, j: int) -> bool {
    &&& stuck(containers, j)
    &&& waits_for(containers, i, j)
    &&& exists|k: int|
        0 <= k < containers[i].depends->0.len() && #[trigger] containers[i].depends->0[k]
            == containers[j].name && forall|m: int, l: int|
            0 <= m < k && #[trigger] stuck(containers, l) && waits_for(containers, i, l)
                ==> #[trigger] containers[i].depends->0[m] != containers[l].name
}

proof fn lemma_first_stuck_before(
    containers: Seq<ContainerView>,
    wanted: Seq<Seq<char>>,
    from: int,
) -> (k: int)
    requires
        0 <= from <= wanted.len(),
        first_stuck(containers, wanted, from) is Some,
    ensures
        from <= k < wanted.len(),
        stands_for(containers, wanted[k]) == first_stuck(containers, wanted, from),
        forall|m: int|
            from <= m < k ==> (stands_for(containers, #[trigger] wanted[m]) matches Some(j)
                ==> !stuck(containers, j)),
    decreases wanted.len() - from,
{
    match stands_for(containers, wanted[from]) {
        Some(j) if stuck(containers, j) => from,
        _ => lemma_first_stuck_before(containers, wanted, from + 1),
    }
}

/// A step of a walk goes to what the container waits for first.
proof fn lemma_next_is_first(containers: Seq<ContainerView>, i: int)
    requires
        stuck(containers, i),
    ensures
        waits_first_for(containers, i, next(containers, i)),
{
    let j = next(containers, i);
    let wanted = containers[i].depends->0;
    lemma_next(containers, i);
    lemma_leads_to(containers, i, j);
    lemma_leading_is_waiting(containers, i, j);
    lemma_first_stuck(containers, wanted, 0);
    assert(first_stuck(containers, wanted, 0) is Some) by {
        if first_stuck(containers, wanted, 0) is None {
            let k = choose|k: int|
                0 <= k < wanted.len() && stands_for(containers, #[trigger] wanted[k]) == Some(j);
            assert(!stuck(containers, j));
        }
    }
    let k = lemma_first_stuck_before(containers, wanted, 0);
    law_names_stand_for_the_last(containers, wanted[k]);
    assert(wanted[k] == containers[j].name);
    assert forall|m: int, l: int|
        0 <= m < k && #[trigger] stuck(containers, l) && waits_for(containers, i, l) implies
        #[trigger] wanted[m] != containers[l].name by {
        if wanted[m] == containers[l].name {
            lemma_leading_is_waiting(containers, i, l);
            lemma_leads_to(containers, i, l);
            assert(stands_for(containers, wanted[m]) == Some(l));
        }
    }
}

/// Which circle is found: one comes to it from the container that is listed
/// first of those that can not be finished, by going from each container to
/// what it waits for first, and it starts where one comes to it.
pub proof fn law_which_circle_is_found(containers: Seq<ContainerView>)
    requires
        found_circle(containers) is Some,
    ensures
        exists|way: Seq<int>|
            #![trigger way.no_duplicates()]
            {
                let path = found_circle(containers)->0;
                &&& way.no_duplicates()
                &&& way.len() >= path.len() > 0
                &&& way.skip(way.len() - path.len()) == path
                &&& stuck(containers, way[0])
                &&& forall|j: int| 0 <= j < way[0] ==> !#[trigger] stuck(containers, j)
                &&& forall|k: int, l: int|
                    0 <= k && l == k + 1 && l < way.len() ==> waits_first_for(
                        containers,
                        #[trigger] way[k],
                        #[trigger] way[l],
                    )
                &&& waits_first_for(containers, way.last(), path[0])
            },
{
    lemma_found_circle(containers);
    let path = found_circle(containers)->0;
    let (i, a, b) = choose|i: int, a: int, b: int|
        stuck_first(containers, i) && #[trigger] first_repeat(containers, i, a, b) && path
            == stretch(containers, i, a, b);
    let way = stretch(containers, i, 0, b);
    assert forall|k: int| 0 <= k < way.len() implies #[trigger] way[k] == walk(
        containers,
        i,
        k,
    ) by {}
    assert(way.no_duplicates()) by {
        assert forall|k: int, l: int|
            0 <= k < way.len() && 0 <= l < way.len() && k != l implies way[k] != way[l] by {
            assert(walk(containers, i, k) != walk(containers, i, l));
        }
    }
    assert(way.skip(way.len() - path.len()) =~= path);
    assert(walk(containers, i, 0) == i);
    assert forall|k: int, l: int| 0 <= k && l == k + 1 && l < way.len() implies waits_first_for(
        containers,
        #[trigger] way[k],
        #[trigger] way[l],
    ) by {
        lemma_walk(containers, i, k);
        lemma_next_is_first(containers, walk(containers, i, k));
    }
    lemma_walk(containers, i, b - 1);
    lemma_next_is_first(containers, walk(containers, i, b - 1));
    assert(way.last() == walk(containers, i, b - 1));
    assert(path[0] == walk(containers, i, a + 0));
}

/// The names at some positions are those of the containers there, one for one
/// and in order.
pub proof fn law_names_at(containers: Seq<ContainerView>, path: Seq<int>)
    ensures
        names_at(containers, path).len() == path.len(),
        forall|k: int|
            0 <= k < path.len() ==> #[trigger] names_at(containers, path)[k]
                == containers[path[k]].name,
{
}

} // verus!
