//! Containers that wait for themselves, directly or through others.

use vstd::prelude::*;

use crate::config::{container_views, Container, ContainerView};
use crate::grounded::{
    after, find_circle, found_circle, is_circle, last_named, law_circles_are_found, leads_to,
    lemma_circles_are_waiting, lemma_found_circle, lemma_leading_is_waiting, lemma_leads_to,
    names_at, stands_for, wait_in_a_circle, waits_for,
};
use crate::schedule::names;
use crate::text::{contains, copy_texts, texts};

verus! {

/// A dependency that can never be met.
#[derive(Debug, PartialEq)]
pub enum CircularDependency {
    /// The container depends on itself.
    OnItself { name: String },
    /// The container depends on another one, which depends on it.
    Through { name: String, other: String },
    /// Each container along the path depends on the next one, and the last one
    /// on the first.
    Around { path: Vec<String> },
}

/// What a [`CircularDependency`] reads.
pub ghost enum CircularDependencyView {
    OnItself { name: Seq<char> },
    Through { name: Seq<char>, other: Seq<char> },
    Around { path: Seq<Seq<char>> },
}

impl View for CircularDependency {
    type V = CircularDependencyView;

    open spec fn view(&self) -> CircularDependencyView {
        match self {
            CircularDependency::OnItself { name } => CircularDependencyView::OnItself {
                name: name@,
            },
            CircularDependency::Through { name, other } => CircularDependencyView::Through {
                name: name@,
                other: other@,
            },
            CircularDependency::Around { path } => CircularDependencyView::Around {
                path: texts(path@),
            },
        }
    }
}

/// Whether a container names another one as a dependency.
pub open spec fn depends_on(container: ContainerView, name: Seq<char>) -> bool {
    container.depends matches Some(wanted) && wanted.contains(name)
}

/// Whether the container that a name stands for depends on another one.
/// Where a name is used more than once, it stands for the last container.
pub open spec fn leads_back(
    containers: Seq<ContainerView>,
    name: Seq<char>,
    to: Seq<char>,
) -> bool {
    match stands_for(containers, name) {
        Some(j) => depends_on(containers[j], to),
        None => false,
    }
}

/// The first of a container's dependencies, from the `k`-th on, that leads
/// back to it.
pub open spec fn first_leading_back(
    containers: Seq<ContainerView>,
    wanted: Seq<Seq<char>>,
    to: Seq<char>,
    k: int,
) -> Option<Seq<char>>
    decreases wanted.len() - k,
{
    if k < 0 || k >= wanted.len() {
        None
    } else if leads_back(containers, wanted[k], to) {
        Some(wanted[k])
    } else {
        first_leading_back(containers, wanted, to, k + 1)
    }
}

/// The circular dependency that a container is in by itself or with one other
/// container, if any. Naming itself comes before anything else.
pub open spec fn circle_of(
    containers: Seq<ContainerView>,
    container: ContainerView,
) -> Option<CircularDependencyView> {
    match container.depends {
        None => None,
        Some(wanted) => if wanted.contains(container.name) {
            Some(CircularDependencyView::OnItself { name: container.name })
        } else {
            match first_leading_back(containers, wanted, container.name, 0) {
                Some(other) => Some(
                    CircularDependencyView::Through { name: container.name, other },
                ),
                None => None,
            }
        },
    }
}

/// The first circular dependency of one or two containers, in the order in
/// which the containers are listed, from the `i`-th on.
pub open spec fn first_circle(containers: Seq<ContainerView>, i: int) -> Option<
    CircularDependencyView,
>
    decreases containers.len() - i,
{
    if i < 0 || i >= containers.len() {
        None
    } else {
        match circle_of(containers, containers[i]) {
            Some(circle) => Some(circle),
            None => first_circle(containers, i + 1),
        }
    }
}

/// The circular dependency that is reported, if there is any: the first one of
/// one or two containers, and where there is none of these, a longer one.
pub open spec fn reported(containers: Seq<ContainerView>) -> Option<CircularDependencyView> {
    match first_circle(containers, 0) {
        Some(circle) => Some(circle),
        None => match found_circle(containers) {
            Some(path) => Some(
                CircularDependencyView::Around { path: names_at(containers, path) },
            ),
            None => None,
        },
    }
}

/// Whether the container that a name stands for depends on another one.
fn check_leads_back(containers: &Vec<Container>, name: &String, to: &String) -> (back: bool)
    ensures
        back == leads_back(container_views(containers@), name@, to@),
{
    match last_named(containers, name) {
        Some(j) => match &containers[j].depends {
            Some(wanted) => contains(wanted, to),
            None => false,
        },
        None => false,
    }
}

/// The circular dependency that a container is in by itself or with one other.
fn check_container(containers: &Vec<Container>, container: &Container) -> (circle: Option<
    CircularDependency,
>)
    ensures
        match circle {
            Some(found) => circle_of(container_views(containers@), container@) == Some(found@),
            None => circle_of(container_views(containers@), container@) is None,
        },
{
    let ghost all = container_views(containers@);
    match &container.depends {
        None => None,
        Some(wanted) => {
            if contains(wanted, &container.name) {
                return Some(CircularDependency::OnItself { name: container.name.clone() });
            }
            let mut k: usize = 0;
            while k < wanted.len()
                invariant
                    k <= wanted.len(),
                    all == container_views(containers@),
                    first_leading_back(all, texts(wanted@), container.name@, 0)
                        == first_leading_back(all, texts(wanted@), container.name@, k as int),
                    container@.depends == Some(texts(wanted@)),
                    !texts(wanted@).contains(container.name@),
                decreases wanted.len() - k,
            {
                if check_leads_back(containers, &wanted[k], &container.name) {
                    return Some(
                        CircularDependency::Through {
                            name: container.name.clone(),
                            other: wanted[k].clone(),
                        },
                    );
                }
                k = k + 1;
            }
            None
        },
    }
}

/// Reports a circular dependency of the containers, if there is any.
pub fn check(containers: &Vec<Container>) -> (result: Result<(), CircularDependency>)
    ensures
        match result {
            Ok(_) => reported(container_views(containers@)) is None,
            Err(circle) => reported(container_views(containers@)) == Some(circle@),
        },
{
    let ghost all = container_views(containers@);
    let mut i: usize = 0;
    while i < containers.len()
        invariant
            i <= containers.len(),
            all == container_views(containers@),
            first_circle(all, 0) == first_circle(all, i as int),
        decreases containers.len() - i,
    {
        match check_container(containers, &containers[i]) {
            Some(circle) => {
                return Err(circle);
            },
            None => {},
        }
        i = i + 1;
    }
    match find_circle(containers) {
        Some(path) => Err(CircularDependency::Around { path }),
        None => Ok(()),
    }
}

/// Names of which each is said to depend on the next one.
pub open spec fn chained(path: Seq<Seq<char>>) -> Seq<char>
    decreases path.len(),
{
    if path.len() == 0 {
        Seq::empty()
    } else if path.len() == 1 {
        path[0]
    } else if path.len() == 2 {
        path[0] + " depends on "@ + path[1]
    } else {
        chained(path.drop_last()) + " which depends on "@ + path.last()
    }
}

/// A path that comes back to where it starts.
pub open spec fn closed_path(path: Seq<Seq<char>>) -> Seq<Seq<char>> {
    if path.len() == 0 {
        path
    } else {
        path.push(path[0])
    }
}

impl CircularDependencyView {
    /// The containers that wait for themselves.
    pub open spec fn members(self) -> Seq<Seq<char>> {
        match self {
            CircularDependencyView::OnItself { name } => seq![name],
            CircularDependencyView::Through { name, other } => seq![name, other],
            CircularDependencyView::Around { path } => path,
        }
    }

    /// How the circular dependency is reported.
    pub open spec fn message(self) -> Seq<char> {
        match self {
            CircularDependencyView::OnItself { name } => name + " depends on itself"@,
            CircularDependencyView::Through { name, other } => "[CIRCULAR DEPENDANCY] "@ + name
                + " depends on "@ + other + " which depends on "@ + name,
            CircularDependencyView::Around { path } => "[CIRCULAR DEPENDANCY] "@ + chained(
                closed_path(path),
            ),
        }
    }
}

/// Appends names of which each is said to depend on the next one.
fn push_chained(out: &mut String, path: &Vec<String>)
    ensures
        final(out)@ == old(out)@ + chained(texts(path@)),
{
    let ghost all = texts(path@);
    let mut k: usize = 0;
    assert(all.take(0) =~= Seq::empty());
    assert(chained(all.take(0)) =~= Seq::empty());
    assert(out@ =~= old(out)@ + chained(all.take(0)));
    while k < path.len()
        invariant
            k <= path.len(),
            all == texts(path@),
            out@ == old(out)@ + chained(all.take(k as int)),
        decreases path.len() - k,
    {
        let ghost before = out@;
        if k == 1 {
            out.append(" depends on ");
        }
        if k > 1 {
            out.append(" which depends on ");
        }
        out.append(path[k].as_str());
        k = k + 1;
        proof {
            assert(all.take(k as int).drop_last() =~= all.take(k - 1));
            assert(all.take(k as int).last() == path@[k - 1]@);
            if k == 2 {
                assert(all.take(1)[0] == all.take(2)[0]);
            }
            assert(out@ =~= old(out)@ + chained(all.take(k as int)));
        }
    }
    assert(all.take(k as int) =~= all);
}

impl CircularDependency {
    /// How the circular dependency is reported.
    pub fn message(&self) -> (message: String)
        ensures
            message@ == self@.message(),
    {
        match self {
            CircularDependency::OnItself { name } => name.clone().concat(" depends on itself"),
            CircularDependency::Through { name, other } => {
                let mut message = "[CIRCULAR DEPENDANCY] ".to_owned();
                message.append(name.as_str());
                message.append(" depends on ");
                message.append(other.as_str());
                message.append(" which depends on ");
                message.append(name.as_str());
                message
            },
            CircularDependency::Around { path } => {
                let mut message = "[CIRCULAR DEPENDANCY] ".to_owned();
                let mut around = copy_texts(path);
                assert(around@.len() == texts(path@).len());
                if path.len() > 0 {
                    around.push(path[0].clone());
                }
                assert(texts(around@) =~= closed_path(texts(path@)));
                push_chained(&mut message, &around);
                message
            },
        }
    }
}

/// There is no circular dependency of one or two containers exactly when none
/// depends on itself and none depends on a name that stands for a container
/// which depends on it.
pub proof fn law_no_short_circle(containers: Seq<ContainerView>)
    ensures
        first_circle(containers, 0) is None <==> forall|i: int, name: Seq<char>|
            0 <= i < containers.len() && #[trigger] depends_on(containers[i], name) ==> {
                &&& name != containers[i].name
                &&& !leads_back(containers, name, containers[i].name)
            },
{
    lemma_first_circle(containers, 0);
    let clean = |i: int|
        forall|name: Seq<char>| #[trigger]
            depends_on(containers[i], name) ==> name != containers[i].name && !leads_back(
                containers,
                name,
                containers[i].name,
            );
    assert forall|i: int| 0 <= i < containers.len() implies (circle_of(containers, containers[i])
        is None <==> #[trigger] clean(i)) by {
        lemma_circle_of(containers, containers[i]);
    }
    if first_circle(containers, 0) is None {
        assert forall|i: int, name: Seq<char>|
            0 <= i < containers.len() && #[trigger] depends_on(containers[i], name) implies name
            != containers[i].name && !leads_back(containers, name, containers[i].name) by {
            assert(clean(i));
        }
    } else {
        let i = choose|i: int|
            0 <= i < containers.len() && circle_of(containers, #[trigger] containers[i]) is Some;
        assert(!clean(i));
    }
}

proof fn lemma_first_circle(containers: Seq<ContainerView>, from: int)
    requires
        0 <= from <= containers.len(),
    ensures
        first_circle(containers, from) is None <==> forall|i: int|
            from <= i < containers.len() ==> circle_of(containers, #[trigger] containers[i])
                is None,
    decreases containers.len() - from,
{
    if from < containers.len() {
        lemma_first_circle(containers, from + 1);
    }
}

proof fn lemma_first_leading_back(
    containers: Seq<ContainerView>,
    wanted: Seq<Seq<char>>,
    to: Seq<char>,
    k: int,
)
    requires
        0 <= k <= wanted.len(),
    ensures
        first_leading_back(containers, wanted, to, k) is None <==> forall|i: int|
            k <= i < wanted.len() ==> !leads_back(containers, #[trigger] wanted[i], to),
    decreases wanted.len() - k,
{
    if k < wanted.len() {
        lemma_first_leading_back(containers, wanted, to, k + 1);
    }
}

/// What is reported is reported for one of the containers.
pub proof fn lemma_first_circle_is_one(containers: Seq<ContainerView>, from: int)
    requires
        0 <= from <= containers.len(),
        first_circle(containers, from) is Some,
    ensures
        exists|i: int|
            from <= i < containers.len() && circle_of(containers, #[trigger] containers[i])
                == first_circle(containers, from),
    decreases containers.len() - from,
{
    if circle_of(containers, containers[from]) is None {
        lemma_first_circle_is_one(containers, from + 1);
    }
}

/// A dependency that is found to lead back is one, and does.
pub proof fn lemma_first_leading_back_is_one(
    containers: Seq<ContainerView>,
    wanted: Seq<Seq<char>>,
    to: Seq<char>,
    k: int,
)
    requires
        0 <= k <= wanted.len(),
    ensures
        first_leading_back(containers, wanted, to, k) matches Some(other) ==> wanted.contains(other)
            && leads_back(containers, other, to),
    decreases wanted.len() - k,
{
    if k < wanted.len() {
        lemma_first_leading_back_is_one(containers, wanted, to, k + 1);
    }
}

proof fn lemma_circle_of(containers: Seq<ContainerView>, container: ContainerView)
    ensures
        circle_of(containers, container) is None <==> forall|name: Seq<char>| #[trigger]
            depends_on(container, name) ==> name != container.name && !leads_back(
                containers,
                name,
                container.name,
            ),
{
    match container.depends {
        None => {},
        Some(wanted) => {
            lemma_first_leading_back(containers, wanted, container.name, 0);
            assert forall|i: int| 0 <= i < wanted.len() implies depends_on(
                container,
                #[trigger] wanted[i],
            ) by {}
            if wanted.contains(container.name) {
                assert(depends_on(container, container.name));
            }
        },
    }
}

/// Where the check passes, the containers hold no circle, whatever its length.
/// Where no two share a name, the check passes exactly then.
pub proof fn law_no_circle(containers: Seq<ContainerView>)
    ensures
        reported(containers) is None ==> !exists|path: Seq<int>| is_circle(containers, path),
        names(containers).no_duplicates() ==> (reported(containers) is None
            <==> !exists|path: Seq<int>| is_circle(containers, path)),
{
    law_circles_are_found(containers);
    if names(containers).no_duplicates() && first_circle(containers, 0) is Some {
        lemma_first_circle_is_one(containers, 0);
        let i = choose|i: int|
            0 <= i < containers.len() && circle_of(containers, #[trigger] containers[i])
                == first_circle(containers, 0);
        let name = containers[i].name;
        let wanted = containers[i].depends->0;
        lemma_stands_for_itself(containers, i);
        if wanted.contains(name) {
            let k = choose|k: int| 0 <= k < wanted.len() && wanted[k] == name;
            assert(stands_for(containers, wanted[k]) == Some(i));
            assert(leads_to(containers, i, i));
            assert(is_circle(containers, seq![i]));
        } else {
            lemma_first_leading_back_is_one(containers, wanted, name, 0);
            let other = first_leading_back(containers, wanted, name, 0)->0;
            let k = choose|k: int| 0 <= k < wanted.len() && wanted[k] == other;
            let j = stands_for(containers, wanted[k])->0;
            names(containers).index_of_last_ensures(other);
            assert(leads_to(containers, i, j));
            let back = containers[j].depends->0;
            let l = choose|l: int| 0 <= l < back.len() && back[l] == name;
            assert(stands_for(containers, back[l]) == Some(i));
            assert(leads_to(containers, j, i));
            let path = seq![i, j];
            assert(path[0] == i && path[1] == j);
            assert(is_circle(containers, path));
        }
    }
}

proof fn lemma_stands_for_itself(containers: Seq<ContainerView>, i: int)
    requires
        names(containers).no_duplicates(),
        0 <= i < containers.len(),
    ensures
        stands_for(containers, containers[i].name) == Some(i),
{
    let all = names(containers);
    all.index_of_last_ensures(containers[i].name);
    assert(all[i] == containers[i].name);
    assert(all.contains(containers[i].name));
}

/// A longer circular dependency that is reported leads through three or more
/// containers with names of their own, each of which depends on the next one,
/// and the last one on the first.
pub proof fn law_longer_circle(containers: Seq<ContainerView>)
    ensures
        reported(containers) matches Some(CircularDependencyView::Around { path }) ==> {
            &&& path.len() >= 3
            &&& path.no_duplicates()
            &&& forall|k: int|
                0 <= k < path.len() ==> leads_back(
                    containers,
                    #[trigger] path[k],
                    path[after(k, path.len())],
                )
        },
{
    if first_circle(containers, 0) is Some {
        lemma_first_circle_is_one(containers, 0);
    } else if found_circle(containers) is Some {
        lemma_found_circle(containers);
        let at = found_circle(containers)->0;
        let path = names_at(containers, at);
        assert forall|k: int| 0 <= k < path.len() implies stands_for(
            containers,
            #[trigger] path[k],
        ) == Some(at[k]) && leads_back(containers, path[k], path[after(k, path.len())]) by {
            lemma_circle_step(containers, at, k);
        }
        assert forall|k: int, l: int|
            0 <= k < path.len() && 0 <= l < path.len() && k != l implies path[k] != path[l] by {
            assert(stands_for(containers, path[k]) == Some(at[k]));
            assert(stands_for(containers, path[l]) == Some(at[l]));
        }
        law_no_short_circle(containers);
        assert(leads_to(containers, at[0], at[after(0, at.len())]));
        assert(path[0] == containers[at[0]].name);
        assert(leads_back(containers, path[0], path[after(0, path.len())]));
        assert(depends_on(containers[at[0]], path[after(0, path.len())]));
        if path.len() == 2 {
            assert(leads_back(containers, path[1], path[0]));
        }
    }
}

proof fn lemma_circle_step(containers: Seq<ContainerView>, at: Seq<int>, k: int)
    requires
        is_circle(containers, at),
        0 <= k < at.len(),
    ensures
        stands_for(containers, containers[at[k]].name) == Some(at[k]),
        depends_on(containers[at[k]], containers[at[after(k, at.len())]].name),
{
    assert(leads_to(containers, at[k], at[after(k, at.len())]));
    lemma_leads_to(containers, at[k], at[after(k, at.len())]);
    let before = if k == 0 {
        at.len() - 1
    } else {
        k - 1
    };
    assert(after(before, at.len()) == k);
    assert(leads_to(containers, at[before], at[after(before, at.len())]));
    lemma_leads_to(containers, at[before], at[k]);
}

/// Where no two containers share a name and the check passes, no container
/// depends on itself and no two depend on each other.
pub proof fn law_no_mutual_dependency(containers: Seq<ContainerView>, i: int, j: int)
    requires
        names(containers).no_duplicates(),
        reported(containers) is None,
        0 <= i < containers.len(),
        0 <= j < containers.len(),
    ensures
        !(depends_on(containers[i], containers[j].name) && depends_on(
            containers[j],
            containers[i].name,
        )),
{
    law_no_short_circle(containers);
    lemma_stands_for_itself(containers, j);
}

/// Containers that wait for each other in a circle, of whatever length and
/// through whichever of their dependencies, never pass the check. Where every
/// container has a name of its own, all others do.
pub proof fn law_waiting_in_a_circle_is_reported(containers: Seq<ContainerView>)
    ensures
        (exists|path: Seq<int>| wait_in_a_circle(containers, path)) ==> reported(containers)
            is Some,
        (forall|i: int, j: int|
            0 <= i < j < containers.len() ==> (#[trigger] containers[i]).name != (
            #[trigger] containers[j]).name) && reported(containers) is Some ==> exists|
            path: Seq<int>,
        |
            wait_in_a_circle(containers, path),
{
    law_no_circle(containers);
    if exists|path: Seq<int>| wait_in_a_circle(containers, path) {
        let path = choose|path: Seq<int>| wait_in_a_circle(containers, path);
        lemma_circles_are_waiting(containers, path);
    }
    if (forall|i: int, j: int|
        0 <= i < j < containers.len() ==> (#[trigger] containers[i]).name != (
        #[trigger] containers[j]).name) && reported(containers) is Some {
        let all = names(containers);
        assert forall|i: int, j: int| 0 <= i < all.len() && 0 <= j < all.len() && i != j implies
            all[i] != all[j] by {
            if i < j {
                assert(containers[i].name != containers[j].name);
            } else {
                assert(containers[j].name != containers[i].name);
            }
        }
        let path = choose|path: Seq<int>| is_circle(containers, path);
        lemma_circles_are_waiting(containers, path);
    }
}

/// A longer circle is reported by the names along the circle that is found:
/// those of containers each of which waits for the next one, and the last one
/// for the first.
pub proof fn law_reported_path(containers: Seq<ContainerView>)
    ensures
        reported(containers) matches Some(CircularDependencyView::Around { path }) ==> {
            &&& path.len() >= 3
            &&& found_circle(containers) is Some
            &&& path.len() == found_circle(containers)->0.len()
            &&& forall|k: int|
                0 <= k < path.len() ==> #[trigger] path[k] == containers[found_circle(
                    containers,
                )->0[k]].name
            &&& exists|at: Seq<int>|
                #![trigger wait_in_a_circle(containers, at)]
                wait_in_a_circle(containers, at) && at.len() == path.len() && forall|k: int|
                    0 <= k < path.len() ==> #[trigger] path[k] == containers[at[k]].name
        },
{
    law_longer_circle(containers);
    if first_circle(containers, 0) is Some {
        lemma_first_circle_is_one(containers, 0);
    } else if found_circle(containers) is Some {
        lemma_found_circle(containers);
        lemma_circles_are_waiting(containers, found_circle(containers)->0);
    }
}

/// Whether a container names itself as a dependency.
pub open spec fn names_itself(container: ContainerView) -> bool {
    container.depends matches Some(wanted) && wanted.contains(container.name)
}

/// Whether two containers wait for each other, the first for the second by the
/// name of its `k`-th dependency.
pub open spec fn wait_for_each_other(
    containers: Seq<ContainerView>,
    i: int,
    k: int,
    j: int,
) -> bool {
    &&& waits_for(containers, i, j)
    &&& 0 <= k < containers[i].depends->0.len()
    &&& containers[i].depends->0[k] == containers[j].name
    &&& containers[j].depends matches Some(wanted) && wanted.contains(containers[i].name)
}

/// The container that is listed first of those that name themselves or wait for
/// a container that names them is the one that is reported: for itself, if it
/// names itself; otherwise with the first such container that it names.
pub proof fn law_first_in_the_list_is_reported(
    containers: Seq<ContainerView>,
    i: int,
    k: int,
    j: int,
)
    requires
        0 <= i < containers.len(),
        forall|l: int| 0 <= l < i ==> !names_itself(#[trigger] containers[l]),
        forall|l: int, m: int, n: int|
            0 <= l < i ==> !#[trigger] wait_for_each_other(containers, l, m, n),
    ensures
        names_itself(containers[i]) ==> reported(containers) == Some(
            CircularDependencyView::OnItself { name: containers[i].name },
        ),
        !names_itself(containers[i]) && wait_for_each_other(containers, i, k, j) && (forall|
            m: int,
            n: int,
        |
            m < k ==> !#[trigger] wait_for_each_other(containers, i, m, n)) ==> reported(containers)
            == Some(
            CircularDependencyView::Through { name: containers[i].name, other: containers[j].name },
        ),
{
    assert forall|l: int| 0 <= l < i implies circle_of(containers, #[trigger] containers[l])
        is None by {
        lemma_circle_of(containers, containers[l]);
        assert forall|name: Seq<char>| #[trigger] depends_on(containers[l], name) implies name
            != containers[l].name && !leads_back(containers, name, containers[l].name) by {
            assert(!names_itself(containers[l]));
            if leads_back(containers, name, containers[l].name) {
                let wanted = containers[l].depends->0;
                let m = choose|m: int| 0 <= m < wanted.len() && wanted[m] == name;
                lemma_leading_back(containers, l, m);
            }
        }
    }
    lemma_first_circle_from(containers, i);
    if !names_itself(containers[i]) && wait_for_each_other(containers, i, k, j) && (forall|
        m: int,
        n: int,
    |
        m < k ==> !#[trigger] wait_for_each_other(containers, i, m, n)) {
        let wanted = containers[i].depends->0;
        lemma_leading_back(containers, i, k);
        assert forall|m: int| 0 <= m < k implies !leads_back(
            containers,
            #[trigger] wanted[m],
            containers[i].name,
        ) by {
            lemma_leading_back(containers, i, m);
        }
        lemma_first_leading_back_at(containers, wanted, containers[i].name, 0, k);
    }
}

/// A dependency leads back exactly where the two containers wait for each other.
proof fn lemma_leading_back(containers: Seq<ContainerView>, i: int, k: int)
    requires
        0 <= i < containers.len(),
        containers[i].depends is Some,
        0 <= k < containers[i].depends->0.len(),
    ensures
        leads_back(containers, containers[i].depends->0[k], containers[i].name) <==> exists|j: int|
            wait_for_each_other(containers, i, k, j),
{
    let wanted = containers[i].depends->0;
    let all = names(containers);
    all.index_of_last_ensures(wanted[k]);
    if leads_back(containers, wanted[k], containers[i].name) {
        let j = stands_for(containers, wanted[k])->0;
        assert(all[j] == containers[j].name);
        assert(leads_to(containers, i, j));
        lemma_leading_is_waiting(containers, i, j);
        assert(wait_for_each_other(containers, i, k, j));
    }
    if exists|j: int| wait_for_each_other(containers, i, k, j) {
        let j = choose|j: int| wait_for_each_other(containers, i, k, j);
        assert(all[j] == wanted[k]);
        assert(all.contains(wanted[k]));
        let last = all.index_of_last(wanted[k])->0;
        assert(all[last] == containers[last].name);
        assert(last == j);
    }
}

proof fn lemma_first_circle_from(containers: Seq<ContainerView>, i: int)
    requires
        0 <= i <= containers.len(),
        forall|l: int| 0 <= l < i ==> circle_of(containers, #[trigger] containers[l]) is None,
    ensures
        first_circle(containers, 0) == first_circle(containers, i),
    decreases i,
{
    if i > 0 {
        lemma_first_circle_from(containers, i - 1);
        assert(circle_of(containers, containers[i - 1]) is None);
    }
}

proof fn lemma_first_leading_back_at(
    containers: Seq<ContainerView>,
    wanted: Seq<Seq<char>>,
    to: Seq<char>,
    from: int,
    k: int,
)
    requires
        0 <= from <= k < wanted.len(),
        leads_back(containers, wanted[k], to),
        forall|m: int| from <= m < k ==> !leads_back(containers, #[trigger] wanted[m], to),
    ensures
        first_leading_back(containers, wanted, to, from) == Some(wanted[k]),
    decreases k - from,
{
    if from < k {
        lemma_first_leading_back_at(containers, wanted, to, from + 1, k);
    }
}

/// How short circular dependencies are reported: a container that depends on
/// itself is named alone, and of two the first is named again behind the other.
/// A path of two is reported like these two.
pub proof fn law_messages(name: Seq<char>, other: Seq<char>)
    ensures
        (CircularDependencyView::OnItself { name }).message() == name + " depends on itself"@,
        (CircularDependencyView::Through { name, other }).message() == "[CIRCULAR DEPENDANCY] "@
            + name + " depends on "@ + other + " which depends on "@ + name,
        (CircularDependencyView::Around { path: seq![name, other] }).message() == (
        CircularDependencyView::Through { name, other }).message(),
{
    let two = seq![name, other];
    let start = "[CIRCULAR DEPENDANCY] "@;
    let end = " which depends on "@;
    assert(closed_path(two).drop_last() =~= two);
    assert(closed_path(two).last() == name);
    let chain = name + " depends on "@ + other;
    assert(chained(two) == chain);
    assert(chained(closed_path(two)) == chain + end + name);
    lemma_regrouped(start, name, " depends on "@, other, end, name);
}

proof fn lemma_regrouped(
    a: Seq<char>,
    b: Seq<char>,
    c: Seq<char>,
    d: Seq<char>,
    e: Seq<char>,
    f: Seq<char>,
)
    ensures
        a + (b + c + d + e + f) == a + b + c + d + e + f,
{
    assert(a + (b + c + d + e + f) =~= a + b + c + d + e + f);
}

/// How longer circular dependencies are reported: a path that is one longer is
/// reported with one more name before it comes back to its start.
pub proof fn law_longer_messages(path: Seq<Seq<char>>, name: Seq<char>, text: Seq<char>)
    requires
        path.len() >= 2,
        (CircularDependencyView::Around { path }).message() == text + " which depends on "@
            + path[0],
    ensures
        (CircularDependencyView::Around { path: path.push(name) }).message() == text
            + " which depends on "@ + name + " which depends on "@ + path[0],
{
    let start = "[CIRCULAR DEPENDANCY] "@;
    let link = " which depends on "@;
    let longer = path.push(name);
    lemma_closed_chain(path);
    lemma_closed_chain(longer);
    assert(longer.drop_last() =~= path);
    assert(longer.last() == name);
    assert(longer[0] == path[0]);
    assert(chained(longer) == chained(path) + link + name);
    lemma_same_start(start, chained(path), text, link, path[0]);
    lemma_longer_chain(start, chained(path), link, name, path[0]);
}

proof fn lemma_closed_chain(path: Seq<Seq<char>>)
    requires
        path.len() >= 2,
    ensures
        chained(closed_path(path)) == chained(path) + " which depends on "@ + path[0],
{
    assert(closed_path(path).drop_last() =~= path);
    assert(closed_path(path).last() == path[0]);
}

proof fn lemma_same_start(
    start: Seq<char>,
    chain: Seq<char>,
    text: Seq<char>,
    link: Seq<char>,
    end: Seq<char>,
)
    requires
        start + (chain + link + end) == text + link + end,
    ensures
        text == start + chain,
{
    let whole = text + link + end;
    let length = whole.len() - link.len() - end.len();
    assert(whole.take(length) =~= text);
    assert((start + (chain + link + end)).take(length) =~= start + chain);
}

proof fn lemma_longer_chain(
    start: Seq<char>,
    chain: Seq<char>,
    link: Seq<char>,
    name: Seq<char>,
    end: Seq<char>,
)
    ensures
        start + (chain + link + name + link + end) == start + chain + link + name + link + end,
{
    assert(start + (chain + link + name + link + end) =~= start + chain + link + name + link
        + end);
}

/// A circular dependency reads as the kind that it is, with the names that it
/// holds, and these are the containers in it.
pub proof fn law_circular_dependencies_are_read(circle: CircularDependency)
    ensures
        circle matches CircularDependency::OnItself { name } ==> circle@ == (
        CircularDependencyView::OnItself { name: name@ }) && circle@.members() == seq![name@],
        circle matches CircularDependency::Through { name, other } ==> circle@ == (
        CircularDependencyView::Through { name: name@, other: other@ }) && circle@.members()
            == seq![name@, other@],
        circle matches CircularDependency::Around { path } ==> (circle@ matches
            CircularDependencyView::Around { path: names } && names.len() == path@.len() && forall|
            k: int,
        |
            0 <= k < names.len() ==> #[trigger] names[k] == path@[k]@),
{
}

/// Nothing is reported that is not so, whether or not names are shared: what is
/// reported for itself names itself, and two that are reported together wait
/// for each other. Where neither is the case and no containers wait in a
/// circle, nothing is reported.
pub proof fn law_only_circles_are_reported(containers: Seq<ContainerView>)
    ensures
        reported(containers) matches Some(CircularDependencyView::OnItself { name }) ==> exists|
            i: int,
        |
            0 <= i < containers.len() && names_itself(#[trigger] containers[i])
                && containers[i].name == name,
        reported(containers) matches Some(CircularDependencyView::Through { name, other })
            ==> exists|i: int, k: int, j: int| #[trigger]
            wait_for_each_other(containers, i, k, j) && containers[i].name == name
                && containers[j].name == other,
        reported(containers) is Some ==> {
            ||| exists|i: int| 0 <= i < containers.len() && names_itself(#[trigger] containers[i])
            ||| exists|i: int, k: int, j: int| #[trigger]
                wait_for_each_other(containers, i, k, j)
            ||| exists|path: Seq<int>| wait_in_a_circle(containers, path)
        },
{
    if first_circle(containers, 0) is Some {
        lemma_first_circle_is_one(containers, 0);
        let i = choose|i: int|
            0 <= i < containers.len() && circle_of(containers, #[trigger] containers[i])
                == first_circle(containers, 0);
        let wanted = containers[i].depends->0;
        let name = containers[i].name;
        if wanted.contains(name) {
            assert(names_itself(containers[i]));
        } else {
            lemma_first_leading_back_is_one(containers, wanted, name, 0);
            let other = first_leading_back(containers, wanted, name, 0)->0;
            let k = choose|k: int| 0 <= k < wanted.len() && wanted[k] == other;
            lemma_leading_back(containers, i, k);
            let j = choose|j: int| wait_for_each_other(containers, i, k, j);
            assert(containers[j].name == other);
        }
    } else if found_circle(containers) is Some {
        lemma_found_circle(containers);
        lemma_circles_are_waiting(containers, found_circle(containers)->0);
    }
}

} // verus!
