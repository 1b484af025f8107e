//! Setup jobs: how a container is set up, from the files that are kept for it.

use vstd::prelude::*;

use crate::config::{container_views, Container, ContainerView};
use crate::paths::{config_dir, get_config_dir, join, joined};

verus! {

/// The kind of file that a container is set up from.
#[derive(Debug, Clone, Copy, PartialEq, Eq, Structural)]
pub enum SetupFile {
    DockerCompose,
    DockerFile,
    Shell,
}

/// Where to look for the files that a container is set up from.
#[derive(Debug, PartialEq)]
pub struct SetupPaths {
    pub dir: String,
    pub compose: String,
    pub docker_file: String,
    pub shell: String,
}

impl SetupPaths {
    /// The paths for a container of a name.
    pub fn new(name: &str) -> (paths: SetupPaths)
        ensures
            paths.dir@ == config_dir(name@),
            paths.compose@ == joined(config_dir(name@), "docker-compose.yml"@),
            paths.docker_file@ == joined(config_dir(name@), "Dockerfile"@),
            paths.shell@ == joined(config_dir(name@), name@ + ".shell"@),
    {
        let dir = get_config_dir(name);
        let compose = join(dir.as_str(), "docker-compose.yml");
        let docker_file = join(dir.as_str(), "Dockerfile");
        let shell = join(dir.as_str(), name.to_owned().concat(".shell").as_str());
        SetupPaths { dir, compose, docker_file, shell }
    }
}

/// Which of the files that a container is set up from exist.
#[derive(Debug, Clone, Copy, PartialEq, Eq, Structural)]
pub struct SetupFiles {
    /// Whether the container's directory is one.
    pub dir: bool,
    pub compose: bool,
    pub docker_file: bool,
    pub shell: bool,
}

impl SetupFiles {
    /// Whether there is both a compose file and a docker file, of which there
    /// can be one only.
    pub open spec fn conflict(self) -> bool {
        self.dir && self.compose && self.docker_file
    }

    /// The file that a container is set up from: the only one there is.
    pub open spec fn setup_file(self) -> Option<SetupFile> {
        if !self.dir {
            None
        } else if self.compose && !self.docker_file && !self.shell {
            Some(SetupFile::DockerCompose)
        } else if !self.compose && self.docker_file && !self.shell {
            Some(SetupFile::DockerFile)
        } else if !self.compose && !self.docker_file && self.shell {
            Some(SetupFile::Shell)
        } else {
            None
        }
    }

    /// Whether there is both a compose file and a docker file.
    pub fn is_conflict(&self) -> (conflict: bool)
        ensures
            conflict == self.conflict(),
    {
        self.dir && self.compose && self.docker_file
    }
}

/// The setup of one container.
#[derive(Debug, PartialEq)]
pub struct ContainerSetupJob {
    pub name: String,
    pub job_type: SetupFile,
    /// Whether a script is to run besides.
    pub shell_hook: bool,
    /// Whether the container's output is printed while it is set up.
    pub output: bool,
}

/// What a [`ContainerSetupJob`] reads.
pub ghost struct JobView {
    pub name: Seq<char>,
    pub job_type: SetupFile,
    pub shell_hook: bool,
    pub output: bool,
}

impl View for ContainerSetupJob {
    type V = JobView;

    open spec fn view(&self) -> JobView {
        JobView {
            name: self.name@,
            job_type: self.job_type,
            shell_hook: self.shell_hook,
            output: self.output,
        }
    }
}

/// The setup of a container, given the files that there are for it.
pub open spec fn job_of(container: ContainerView, files: SetupFiles) -> Option<JobView> {
    match files.setup_file() {
        Some(job_type) => Some(
            JobView {
                name: container.name,
                job_type,
                shell_hook: files.shell && (files.compose || files.docker_file),
                output: container.output,
            },
        ),
        None => None,
    }
}

impl ContainerSetupJob {
    /// The setup of a container, given the files that there are for it. A
    /// container without a directory, or without exactly one file to set it up
    /// from, has none.
    pub fn try_from(container: &Container, files: SetupFiles) -> (job: Result<
        ContainerSetupJob,
        (),
    >)
        requires
            !files.conflict(),
        ensures
            match job {
                Ok(job) => job_of(container@, files) == Some(job@),
                Err(_) => job_of(container@, files) is None,
            },
    {
        if !files.dir {
            return Err(());
        }
        let job_type = match (files.compose, files.docker_file, files.shell) {
            (true, false, false) => SetupFile::DockerCompose,
            (false, true, false) => SetupFile::DockerFile,
            (false, false, true) => SetupFile::Shell,
            _ => {
                return Err(());
            },
        };
        Ok(
            ContainerSetupJob {
                name: container.name.clone(),
                job_type,
                shell_hook: files.shell && (files.compose || files.docker_file),
                output: container.output,
            },
        )
    }
}

/// What the pairs of a queue read.
pub open spec fn queue_views(queue: Seq<(Container, ContainerSetupJob)>) -> Seq<
    (ContainerView, JobView),
> {
    queue.map_values(|p: (Container, ContainerSetupJob)| (p.0@, p.1@))
}

/// The containers that have a setup, each with it, in the order given.
pub open spec fn queue_of(containers: Seq<ContainerView>, files: Seq<SetupFiles>) -> Seq<
    (ContainerView, JobView),
>
    decreases containers.len(),
{
    if containers.len() == 0 {
        Seq::empty()
    } else {
        let before = queue_of(containers.drop_last(), files);
        match job_of(containers.last(), files[containers.len() - 1]) {
            Some(job) => before.push((containers.last(), job)),
            None => before,
        }
    }
}

/// The containers that have a setup, each with it, in the order given.
/// `files` tells for each container which files there are for it.
pub fn setup_queue(containers: &Vec<Container>, files: &Vec<SetupFiles>) -> (queue: Vec<
    (Container, ContainerSetupJob),
>)
    requires
        files.len() == containers.len(),
        forall|i: int| 0 <= i < files.len() ==> !(#[trigger] files@[i]).conflict(),
    ensures
        queue_views(queue@) == queue_of(container_views(containers@), files@),
{
    let ghost all = container_views(containers@);
    let mut queue: Vec<(Container, ContainerSetupJob)> = Vec::new();
    assert(queue_views(queue@) =~= Seq::empty());
    let mut i: usize = 0;
    while i < containers.len()
        invariant
            i <= containers.len(),
            files.len() == containers.len(),
            all == container_views(containers@),
            forall|i: int| 0 <= i < files.len() ==> !(#[trigger] files@[i]).conflict(),
            queue_views(queue@) == queue_of(all.take(i as int), files@),
        decreases containers.len() - i,
    {
        assert(all.take(i + 1).drop_last() =~= all.take(i as int));
        let ghost before = queue@;
        match ContainerSetupJob::try_from(&containers[i], files[i]) {
            Ok(job) => {
                queue.push((containers[i].clone(), job));
                assert(queue_views(queue@) =~= queue_views(before).push((all[i as int], job@)));
            },
            Err(_) => {},
        }
        i = i + 1;
    }
    assert(all.take(i as int) =~= all);
    queue
}

/// A setup never comes with a script besides: a script next to another file
/// leaves the container without a setup.
pub proof fn law_no_shell_hook(container: ContainerView, files: SetupFiles)
    ensures
        job_of(container, files) matches Some(job) ==> !job.shell_hook,
{
}

/// A container has a setup exactly when it has a directory with exactly one
/// file to set it up from, and then the setup bears its name.
pub proof fn law_one_setup_file(container: ContainerView, files: SetupFiles)
    ensures
        job_of(container, files) is Some <==> files.dir && (if files.compose {
            1int
        } else {
            0
        }) + (if files.docker_file {
            1int
        } else {
            0
        }) + (if files.shell {
            1int
        } else {
            0
        }) == 1,
        job_of(container, files) matches Some(job) ==> job.name == container.name && job.output
            == container.output,
{
}

/// A map that tells for each place of the queue which listed container stands
/// there, with its setup, in the order in which they are listed.
pub open spec fn queued_from(
    from: spec_fn(int) -> int,
    queue: Seq<(ContainerView, JobView)>,
    containers: Seq<ContainerView>,
    files: Seq<SetupFiles>,
) -> bool {
    &&& forall|k: int|
        0 <= k < queue.len() ==> {
            &&& 0 <= #[trigger] from(k) < containers.len()
            &&& queue[k].0 == containers[from(k)]
            &&& job_of(containers[from(k)], files[from(k)]) == Some(queue[k].1)
        }
    &&& forall|k: int, l: int|
        0 <= k < l < queue.len() ==> #[trigger] from(k) < #[trigger] from(l)
}

/// Every container whose files make a setup is queued. What is queued is
/// listed, and stands in the queue in the order in which it is listed.
pub proof fn law_queue(containers: Seq<ContainerView>, files: Seq<SetupFiles>)
    ensures
        forall|i: int|
            0 <= i < containers.len() ==> (job_of(#[trigger] containers[i], files[i]) matches Some(
                job,
            ) ==> queue_of(containers, files).contains((containers[i], job))),
        exists|from: spec_fn(int) -> int|
            queued_from(from, queue_of(containers, files), containers, files),
    decreases containers.len(),
{
    let after = queue_of(containers, files);
    if containers.len() == 0 {
        let from = |k: int| k;
        assert(queued_from(from, after, containers, files));
    } else {
        let shorter = containers.drop_last();
        let last = containers.len() - 1;
        let before = queue_of(shorter, files);
        law_queue(shorter, files);
        assert forall|i: int| 0 <= i < containers.len() implies (job_of(
            #[trigger] containers[i],
            files[i],
        ) matches Some(job) ==> after.contains((containers[i], job))) by {
            if let Some(job) = job_of(containers[i], files[i]) {
                if i < last {
                    assert(shorter[i] == containers[i]);
                    let k = choose|k: int| 0 <= k < before.len() && before[k] == (shorter[i], job);
                    assert(after[k] == (containers[i], job));
                } else {
                    assert(after[before.len() as int] == (containers[i], job));
                }
            }
        }
        let inner = choose|from: spec_fn(int) -> int| queued_from(from, before, shorter, files);
        let from = |k: int|
            if k < before.len() {
                inner(k)
            } else {
                last
            };
        assert(queued_from(from, after, containers, files)) by {
            assert forall|k: int| 0 <= k < after.len() implies 0 <= #[trigger] from(k)
                < containers.len() && after[k].0 == containers[from(k)] && job_of(
                containers[from(k)],
                files[from(k)],
            ) == Some(after[k].1) by {
                if k < before.len() {
                    assert(0 <= inner(k) < shorter.len());
                    assert(shorter[inner(k)] == containers[inner(k)]);
                }
            }
            assert forall|k: int, l: int| 0 <= k < l < after.len() implies #[trigger] from(k)
                < #[trigger] from(l) by {
                assert(0 <= inner(k) < shorter.len());
                if l < before.len() {
                    assert(inner(k) < inner(l));
                }
            }
        }
    }
}

/// Which setup a container has, by which files there are: one that has a
/// directory and a compose file alone is composed, with a docker file alone it
/// is built, with a script alone the script is run, and with anything else it
/// has no setup. What it is called and whether its output is printed is as the
/// container says.
pub proof fn law_setup_by_files(container: Container, files: SetupFiles)
    ensures
        !files.dir ==> job_of(container@, files) is None,
        job_of(container@, files) matches Some(job) ==> {
            &&& job.name == container.name@
            &&& job.output == container.output
            &&& job.shell_hook == false
            &&& job.job_type == SetupFile::DockerCompose <==> files.compose
            &&& job.job_type == SetupFile::DockerFile <==> files.docker_file
            &&& job.job_type == SetupFile::Shell <==> files.shell
        },
        files.dir && files.compose && !files.docker_file && !files.shell ==> job_of(
            container@,
            files,
        ) is Some,
        files.dir && !files.compose && files.docker_file && !files.shell ==> job_of(
            container@,
            files,
        ) is Some,
        files.dir && !files.compose && !files.docker_file && files.shell ==> job_of(
            container@,
            files,
        ) is Some,
        files.compose && files.shell ==> job_of(container@, files) is None,
        files.docker_file && files.shell ==> job_of(container@, files) is None,
        files.compose && files.docker_file ==> job_of(container@, files) is None,
{
}

/// Files are in conflict exactly when a directory holds both a compose file and
/// a docker file, whether or not there is a script.
pub proof fn law_conflicts(files: SetupFiles)
    ensures
        files.conflict() <==> files.dir && files.compose && files.docker_file,
        files.conflict() == (SetupFiles { shell: !files.shell, ..files }).conflict(),
        files.conflict() ==> files.setup_file() is None,
{
}

/// A job reads as its own fields do.
pub proof fn law_jobs_are_read(job: ContainerSetupJob)
    ensures
        job@.name == job.name@,
        job@.job_type == job.job_type,
        job@.shell_hook == job.shell_hook,
        job@.output == job.output,
{
}

/// A queue reads as what stands in it, one for one and in order.
pub proof fn law_queues_are_read(queue: Seq<(Container, ContainerSetupJob)>)
    ensures
        queue_views(queue).len() == queue.len(),
        forall|k: int|
            0 <= k < queue.len() ==> (#[trigger] queue_views(queue)[k]).0 == queue[k].0@
                && queue_views(queue)[k].1 == queue[k].1@,
{
}

/// One more container comes to the end of the queue, with its setup, where it
/// has one, and leaves the queue as it is where it has none. No containers make
/// no queue.
pub proof fn law_one_more_in_the_queue(
    containers: Seq<ContainerView>,
    container: ContainerView,
    files: Seq<SetupFiles>,
)
    requires
        files.len() == containers.len() + 1,
    ensures
        queue_of(Seq::empty(), files) == Seq::<(ContainerView, JobView)>::empty(),
        job_of(container, files.last()) matches Some(job) ==> queue_of(
            containers.push(container),
            files,
        ) == queue_of(containers, files.drop_last()).push((container, job)),
        job_of(container, files.last()) is None ==> queue_of(containers.push(container), files)
            == queue_of(containers, files.drop_last()),
{
    assert(containers.push(container).drop_last() =~= containers);
    lemma_queue_within(containers, files, files.drop_last());
}

proof fn lemma_queue_within(
    containers: Seq<ContainerView>,
    files: Seq<SetupFiles>,
    other: Seq<SetupFiles>,
)
    requires
        forall|i: int| 0 <= i < containers.len() ==> #[trigger] files[i] == other[i],
    ensures
        queue_of(containers, files) == queue_of(containers, other),
    decreases containers.len(),
{
    if containers.len() > 0 {
        lemma_queue_within(containers.drop_last(), files, other);
        assert(files[containers.len() - 1] == other[containers.len() - 1]);
    }
}

} // verus!
