//! The configuration of a run.

use vstd::prelude::*;

use crate::text::{copy_texts, texts};

verus! {

/// A repository that is cloned to `./data/<name>`.
#[derive(Debug, PartialEq)]
pub struct Repo {
    pub name: String,
    pub url: String,
}

/// What a [`Repo`] reads.
pub ghost struct RepoView {
    pub name: Seq<char>,
    pub url: Seq<char>,
}

impl View for Repo {
    type V = RepoView;

    open spec fn view(&self) -> RepoView {
        RepoView { name: self.name@, url: self.url@ }
    }
}

/// The network that set-up containers are connected to.
#[derive(Debug, PartialEq)]
pub struct ContainerNetwork {
    pub name: String,
    /// Names of the containers in the network.
    pub containers: Vec<String>,
}

/// A container to set up from `configs/<name>`.
#[derive(Debug, PartialEq)]
pub struct Container {
    pub name: String,
    pub enabled: Option<bool>,
    /// Environment variables, name and value, in the order of their names.
    pub env: Option<Vec<(String, String)>>,
    pub async_execution: Option<bool>,
    /// Whether the container's output is printed while it is set up.
    pub output: bool,
    /// Names of the containers that have to be finished before this one.
    pub depends: Option<Vec<String>>,
}

/// What a [`Container`] reads.
pub ghost struct ContainerView {
    pub name: Seq<char>,
    pub enabled: Option<bool>,
    pub env: Option<Seq<(Seq<char>, Seq<char>)>>,
    pub async_execution: Option<bool>,
    pub output: bool,
    pub depends: Option<Seq<Seq<char>>>,
}

/// What a list of pairs of strings reads.
pub open spec fn pair_texts(list: Seq<(String, String)>) -> Seq<(Seq<char>, Seq<char>)> {
    list.map_values(|p: (String, String)| (p.0@, p.1@))
}

impl View for Container {
    type V = ContainerView;

    open spec fn view(&self) -> ContainerView {
        ContainerView {
            name: self.name@,
            enabled: self.enabled,
            env: match self.env {
                Some(pairs) => Some(pair_texts(pairs@)),
                None => None,
            },
            async_execution: self.async_execution,
            output: self.output,
            depends: match self.depends {
                Some(names) => Some(texts(names@)),
                None => None,
            },
        }
    }
}

fn copy_pairs(list: &Vec<(String, String)>) -> (copy: Vec<(String, String)>)
    ensures
        pair_texts(copy@) == pair_texts(list@),
{
    let mut copy: Vec<(String, String)> = Vec::new();
    let mut i: usize = 0;
    while i < list.len()
        invariant
            i <= list.len(),
            copy.len() == i,
            forall|j: int|
                0 <= j < i ==> (#[trigger] copy@[j]).0@ == list@[j].0@ && copy@[j].1@ == list@[j].1@,
        decreases list.len() - i,
    {
        let pair = &list[i];
        copy.push((pair.0.clone(), pair.1.clone()));
        i = i + 1;
    }
    assert(pair_texts(copy@) =~= pair_texts(list@));
    copy
}

impl Clone for Container {
    fn clone(&self) -> (copy: Container)
        ensures
            copy@ == self@,
    {
        let env = match &self.env {
            Some(pairs) => Some(copy_pairs(pairs)),
            None => None,
        };
        let depends = match &self.depends {
            Some(names) => Some(copy_texts(names)),
            None => None,
        };
        Container {
            name: self.name.clone(),
            enabled: self.enabled,
            env,
            async_execution: self.async_execution,
            output: self.output,
            depends,
        }
    }
}

/// What each repository of a list reads.
pub open spec fn repo_views(list: Seq<Repo>) -> Seq<RepoView> {
    list.map_values(|r: Repo| r@)
}

/// What each container of a list reads.
pub open spec fn container_views(list: Seq<Container>) -> Seq<ContainerView> {
    list.map_values(|c: Container| c@)
}

/// The whole configuration, as `configs/main.yml` gives it.
#[derive(Debug, PartialEq)]
pub struct MainConfig {
    pub repositories: Vec<Repo>,
    /// Whether containers are set up one by one, in the order they are listed.
    pub container_ordering: bool,
    pub containers: Vec<Container>,
    pub dashboard_port: Option<u16>,
    pub container_network: Option<ContainerNetwork>,
    pub worker_containers: Option<Vec<Container>>,
}

impl MainConfig {
    /// The name of the network that set-up containers are connected to.
    pub open spec fn network(self) -> Option<Seq<char>> {
        match self.container_network {
            Some(network) => Some(network.name@),
            None => None,
        }
    }
}

/// A container and a repository read as their own fields do, whatever these
/// hold.
pub proof fn law_fields_are_read(container: Container, repo: Repo)
    ensures
        container@.name == container.name@,
        container@.enabled == container.enabled,
        container@.async_execution == container.async_execution,
        container@.output == container.output,
        container.depends is Some <==> container@.depends is Some,
        container.depends matches Some(names) ==> {
            &&& container@.depends->0.len() == names@.len()
            &&& forall|k: int|
                0 <= k < names@.len() ==> #[trigger] container@.depends->0[k] == names@[k]@
        },
        container.env is Some <==> container@.env is Some,
        container.env matches Some(pairs) ==> {
            &&& container@.env->0.len() == pairs@.len()
            &&& forall|k: int|
                0 <= k < pairs@.len() ==> (#[trigger] container@.env->0[k]).0 == pairs@[k].0@
                    && container@.env->0[k].1 == pairs@[k].1@
        },
        repo@.name == repo.name@,
        repo@.url == repo.url@,
{
}

/// Lists of containers and repositories read as what stands in them, one for
/// one and in order.
pub proof fn law_lists_are_read(containers: Seq<Container>, repositories: Seq<Repo>)
    ensures
        container_views(containers).len() == containers.len(),
        forall|i: int|
            0 <= i < containers.len() ==> #[trigger] container_views(containers)[i]
                == containers[i]@,
        repo_views(repositories).len() == repositories.len(),
        forall|i: int|
            0 <= i < repositories.len() ==> #[trigger] repo_views(repositories)[i]
                == repositories[i]@,
{
}

/// A configuration names a network exactly when it has one, and then by the
/// network's own name, whatever containers the network lists.
pub proof fn law_network_is_named(config: MainConfig)
    ensures
        config.network() is Some <==> config.container_network is Some,
        config.container_network matches Some(network) ==> config.network() == Some(network.name@),
{
}

} // verus!
