//! Carrying out a setup job, one action at a time.
//!
//! An [`Execution`] says what to do next. Whoever does it reports back what
//! came of it, and is told the next action.

use vstd::prelude::*;

use crate::config::MainConfig;
use crate::job::{ContainerSetupJob, JobView, SetupFile};
use crate::paths::{config_dir, data_dir, get_config_dir, get_data_dir, joined};
use crate::script::{command_texts, commands, law_commands_are_not_empty, parse};
use crate::text::{copy_texts, texts};

verus! {

/// Something that runs for a while and yields output.
#[derive(Debug, PartialEq)]
pub enum Work {
    /// A process, in a directory of its own where one is given.
    Process { program: String, args: Vec<String>, dir: Option<String> },
    /// The build of an image.
    Build { dockerfile: String, network_mode: String },
}

/// What a [`Work`] reads.
pub ghost enum WorkView {
    Process { program: Seq<char>, args: Seq<Seq<char>>, dir: Option<Seq<char>> },
    Build { dockerfile: Seq<char>, network_mode: Seq<char> },
}

impl View for Work {
    type V = WorkView;

    open spec fn view(&self) -> WorkView {
        match self {
            Work::Process { program, args, dir } => WorkView::Process {
                program: program@,
                args: texts(args@),
                dir: match dir {
                    Some(path) => Some(path@),
                    None => None,
                },
            },
            Work::Build { dockerfile, network_mode } => WorkView::Build {
                dockerfile: dockerfile@,
                network_mode: network_mode@,
            },
        }
    }
}

impl Clone for Work {
    fn clone(&self) -> (copy: Work)
        ensures
            copy@ == self@,
    {
        match self {
            Work::Process { program, args, dir } => {
                let dir = match dir {
                    Some(path) => Some(path.clone()),
                    None => None,
                };
                Work::Process { program: program.clone(), args: copy_texts(args), dir }
            },
            Work::Build { dockerfile, network_mode } => Work::Build {
                dockerfile: dockerfile.clone(),
                network_mode: network_mode.clone(),
            },
        }
    }
}

/// What a list of works reads.
pub open spec fn work_views(list: Seq<Work>) -> Seq<WorkView> {
    list.map_values(|w: Work| w@)
}

/// What work yields.
#[derive(Debug, PartialEq)]
pub enum Output {
    /// A line that a process wrote to its standard output.
    Stdout(String),
    /// A line that a process wrote to its standard error.
    Stderr(String),
    /// A process has exited.
    Exited,
    /// A message of a build.
    Message(String),
}

/// What an [`Output`] reads. The exit of a process reads as nothing.
pub open spec fn output_text(output: Output) -> Seq<char> {
    match output {
        Output::Stdout(line) => line@,
        Output::Stderr(line) => line@,
        Output::Exited => Seq::empty(),
        Output::Message(message) => message@,
    }
}

/// What to do next.
#[derive(Debug, PartialEq)]
pub enum Action {
    /// Read a script.
    Read { path: String },
    /// Start a work.
    Start { work: Work },
    /// Connect a container to a network.
    Connect { network: String, container: String },
    /// Wait for what the work yields next.
    Wait,
    /// Print a line, then wait for what the work yields next.
    Print { line: String },
    /// The job is done.
    Finish,
    /// The job has failed: give up with the error that was met.
    Fail,
    /// Panic with a message and the error that was met.
    Panic { message: String },
}

/// What an [`Action`] reads.
pub ghost enum ActionView {
    Read { path: Seq<char> },
    Start { work: WorkView },
    Connect { network: Seq<char>, container: Seq<char> },
    Wait,
    Print { line: Seq<char> },
    Finish,
    Fail,
    Panic { message: Seq<char> },
}

impl View for Action {
    type V = ActionView;

    open spec fn view(&self) -> ActionView {
        match self {
            Action::Read { path } => ActionView::Read { path: path@ },
            Action::Start { work } => ActionView::Start { work: work@ },
            Action::Connect { network, container } => ActionView::Connect {
                network: network@,
                container: container@,
            },
            Action::Wait => ActionView::Wait,
            Action::Print { line } => ActionView::Print { line: line@ },
            Action::Finish => ActionView::Finish,
            Action::Fail => ActionView::Fail,
            Action::Panic { message } => ActionView::Panic { message: message@ },
        }
    }
}

/// What came of an action.
#[derive(Debug, PartialEq)]
pub enum Event {
    /// The script was read.
    Script { text: String },
    /// The work was started.
    Started,
    /// The container was connected.
    Connected,
    /// The work yielded something.
    Yielded { output: Output },
    /// The work yields no more.
    Ended,
    /// The action failed.
    Failed,
}

/// What an [`Event`] reads.
pub ghost enum EventView {
    Script { text: Seq<char> },
    Started,
    Connected,
    Yielded { text: Seq<char> },
    Ended,
    Failed,
}

impl View for Event {
    type V = EventView;

    open spec fn view(&self) -> EventView {
        match self {
            Event::Script { text } => EventView::Script { text: text@ },
            Event::Started => EventView::Started,
            Event::Connected => EventView::Connected,
            Event::Yielded { output } => EventView::Yielded { text: output_text(*output) },
            Event::Ended => EventView::Ended,
            Event::Failed => EventView::Failed,
        }
    }
}

/// How far an execution has come.
#[derive(Debug, Clone, Copy, PartialEq, Eq, Structural)]
pub enum Phase {
    /// A script is being read.
    Reading,
    /// A work is being started.
    Starting,
    /// The container is being connected to a network.
    Connecting,
    /// A work is running.
    Running,
    /// The job is over.
    Over,
}

/// A setup job that is being carried out.
#[derive(Debug, PartialEq)]
pub struct Execution {
    name: String,
    job_type: SetupFile,
    output: bool,
    network: Option<String>,
    work: Vec<Work>,
    next: usize,
    phase: Phase,
}

/// What an [`Execution`] reads.
pub ghost struct ExecutionView {
    /// The name of the container.
    pub name: Seq<char>,
    pub job_type: SetupFile,
    /// Whether what the works yield is printed.
    pub output: bool,
    /// The network to connect the container to.
    pub network: Option<Seq<char>>,
    /// All works, in order.
    pub work: Seq<WorkView>,
    /// The work that is started next or is running.
    pub next: int,
    pub phase: Phase,
}

impl View for Execution {
    type V = ExecutionView;

    closed spec fn view(&self) -> ExecutionView {
        ExecutionView {
            name: self.name@,
            job_type: self.job_type,
            output: self.output,
            network: match self.network {
                Some(name) => Some(name@),
                None => None,
            },
            work: work_views(self.work@),
            next: self.next as int,
            phase: self.phase,
        }
    }
}

/// The script of a container.
pub open spec fn script_path(name: Seq<char>) -> Seq<char> {
    config_dir(name) + "/"@ + name + ".shell"@
}

/// The docker file of a container.
pub open spec fn docker_file_path(name: Seq<char>) -> Seq<char> {
    config_dir(name) + "/Dockerfile"@
}

/// The compose file of a container.
pub open spec fn compose_path(name: Seq<char>) -> Seq<char> {
    config_dir(name) + "/docker-compose.yml"@
}

/// A command of a container's script, as work: its first word is run with the
/// others as arguments, where the container's data is kept.
pub open spec fn command_work(name: Seq<char>, command: Seq<Seq<char>>) -> WorkView {
    WorkView::Process {
        program: command[0],
        args: command.skip(1),
        dir: Some(data_dir(name)),
    }
}

/// The commands of a container's script, as work.
pub open spec fn script_work(name: Seq<char>, text: Seq<char>) -> Seq<WorkView> {
    commands(text).map_values(|command: Seq<Seq<char>>| command_work(name, command))
}

/// The build of a container's image.
pub open spec fn build_work(name: Seq<char>) -> WorkView {
    WorkView::Build { dockerfile: docker_file_path(name), network_mode: "bridge"@ }
}

/// Bringing up a container's compose file.
pub open spec fn compose_work(name: Seq<char>) -> WorkView {
    WorkView::Process {
        program: "docker-compose"@,
        args: seq!["-f"@, compose_path(name), "up"@, "-d"@],
        dir: None,
    }
}

/// What is panicked with when work of a job cannot be started.
pub open spec fn start_failure(job_type: SetupFile) -> Seq<char> {
    match job_type {
        SetupFile::Shell => "2"@,
        _ => "`"@,
    }
}

/// A line of output of a container.
pub open spec fn output_line(name: Seq<char>, text: Seq<char>) -> Seq<char> {
    "["@ + name + "] "@ + text
}

/// What is done with what a work yields: it is printed where the container's
/// output is wanted, and passed over where it is not.
pub open spec fn yield_action(name: Seq<char>, output: bool, text: Seq<char>) -> ActionView {
    if output {
        ActionView::Print { line: output_line(name, text) }
    } else {
        ActionView::Wait
    }
}

impl ExecutionView {
    /// There is work to start or running exactly while the phase says so.
    pub open spec fn wf(self) -> bool {
        &&& 0 <= self.next <= self.work.len()
        &&& self.phase == Phase::Reading ==> self.job_type == SetupFile::Shell
        &&& (self.phase == Phase::Starting || self.phase == Phase::Connecting || self.phase
            == Phase::Running) ==> self.next < self.work.len()
        &&& self.phase == Phase::Connecting ==> self.network is Some
    }

    /// Whether an event can come in the current phase.
    pub open spec fn accepts(self, event: EventView) -> bool {
        match self.phase {
            Phase::Reading => event is Script || event is Failed,
            Phase::Starting => event is Started || (event is Failed && self.job_type
                != SetupFile::DockerFile),
            Phase::Connecting => event is Connected || event is Failed,
            Phase::Running => event is Yielded || event is Ended,
            Phase::Over => false,
        }
    }

    /// The next work is started, if there is any.
    pub open spec fn proceed(self) -> (ExecutionView, ActionView) {
        if self.next < self.work.len() {
            (
                ExecutionView { phase: Phase::Starting, ..self },
                ActionView::Start { work: self.work[self.next] },
            )
        } else {
            (ExecutionView { phase: Phase::Over, ..self }, ActionView::Finish)
        }
    }

    /// What follows from an event.
    pub open spec fn transition(self, event: EventView) -> (ExecutionView, ActionView) {
        match (self.phase, event) {
            (Phase::Reading, EventView::Script { text }) => ExecutionView {
                work: script_work(self.name, text),
                next: 0,
                ..self
            }.proceed(),
            (Phase::Starting, EventView::Started) => match self.network {
                Some(network) => (
                    ExecutionView { phase: Phase::Connecting, ..self },
                    ActionView::Connect { network, container: self.name },
                ),
                None => (ExecutionView { phase: Phase::Running, ..self }, ActionView::Wait),
            },
            (Phase::Starting, EventView::Failed) => (
                ExecutionView { phase: Phase::Over, ..self },
                ActionView::Panic { message: start_failure(self.job_type) },
            ),
            (Phase::Connecting, _) => (
                ExecutionView { phase: Phase::Running, ..self },
                ActionView::Wait,
            ),
            (Phase::Running, EventView::Yielded { text }) => (
                self,
                yield_action(self.name, self.output, text),
            ),
            (Phase::Running, EventView::Ended) => ExecutionView {
                next: self.next + 1,
                ..self
            }.proceed(),
            _ => (ExecutionView { phase: Phase::Over, ..self }, ActionView::Fail),
        }
    }
}

/// How the execution of a job begins: a script is read, other work is started
/// at once.
pub open spec fn begin(job: JobView, network: Option<Seq<char>>) -> (ExecutionView, ActionView) {
    let idle = ExecutionView {
        name: job.name,
        job_type: job.job_type,
        output: job.output,
        network,
        work: Seq::empty(),
        next: 0,
        phase: Phase::Reading,
    };
    match job.job_type {
        SetupFile::Shell => (idle, ActionView::Read { path: script_path(job.name) }),
        SetupFile::DockerFile => ExecutionView {
            work: seq![build_work(job.name)],
            ..idle
        }.proceed(),
        SetupFile::DockerCompose => ExecutionView {
            work: seq![compose_work(job.name)],
            ..idle
        }.proceed(),
    }
}

/// What an output reads.
fn get_output_text(output: &Output) -> (text: String)
    ensures
        text@ == output_text(*output),
{
    match output {
        Output::Stdout(line) => line.clone(),
        Output::Stderr(line) => line.clone(),
        Output::Exited => String::new(),
        Output::Message(message) => message.clone(),
    }
}

/// The commands of a container's script, as work.
fn get_script_work(name: &String, text: &str) -> (work: Vec<Work>)
    ensures
        work_views(work@) == script_work(name@, text@),
{
    let list = parse(text);
    let ghost all = commands(text@);
    proof {
        law_commands_are_not_empty(text@);
    }
    let mut work: Vec<Work> = Vec::new();
    let mut i: usize = 0;
    while i < list.len()
        invariant
            i <= list.len(),
            command_texts(list@) == all,
            forall|k: int| 0 <= k < all.len() ==> (#[trigger] all[k]).len() > 0,
            work.len() == i,
            forall|k: int| 0 <= k < i ==> (#[trigger] work@[k])@ == command_work(name@, all[k]),
        decreases list.len() - i,
    {
        assert(all[i as int] == texts(list@[i as int]@));
        let mut args = copy_texts(&list[i]);
        let ghost whole = texts(args@);
        let program = args.remove(0);
        assert(texts(args@) =~= whole.skip(1));
        assert(program@ == whole[0]);
        work.push(Work::Process { program, args, dir: Some(get_data_dir(name.as_str())) });
        i = i + 1;
    }
    assert(work_views(work@) =~= script_work(name@, text@));
    work
}

impl Execution {
    /// Starts the next work, if there is any.
    fn proceed(&mut self) -> (action: Action)
        requires
            old(self)@.next <= old(self)@.work.len(),
        ensures
            (final(self)@, action@) == old(self)@.proceed(),
    {
        if self.next < self.work.len() {
            self.phase = Phase::Starting;
            let work = self.work[self.next].clone();
            assert(self@.work[self.next as int] == work@);
            Action::Start { work }
        } else {
            self.phase = Phase::Over;
            Action::Finish
        }
    }

    /// Takes what came of the last action and says what to do next.
    pub fn step(&mut self, event: Event) -> (action: Action)
        requires
            old(self)@.wf(),
            old(self)@.accepts(event@),
        ensures
            (final(self)@, action@) == old(self)@.transition(event@),
            final(self)@.wf(),
    {
        match self.phase {
            Phase::Reading => match event {
                Event::Script { text } => {
                    self.work = get_script_work(&self.name, text.as_str());
                    self.next = 0;
                    self.proceed()
                },
                _ => {
                    self.phase = Phase::Over;
                    Action::Fail
                },
            },
            Phase::Starting => match event {
                Event::Started => match &self.network {
                    Some(network) => {
                        let action = Action::Connect {
                            network: network.clone(),
                            container: self.name.clone(),
                        };
                        self.phase = Phase::Connecting;
                        action
                    },
                    None => {
                        self.phase = Phase::Running;
                        Action::Wait
                    },
                },
                _ => {
                    self.phase = Phase::Over;
                    let message = match self.job_type {
                        SetupFile::Shell => "2".to_owned(),
                        _ => "`".to_owned(),
                    };
                    Action::Panic { message }
                },
            },
            Phase::Connecting => {
                self.phase = Phase::Running;
                Action::Wait
            },
            Phase::Running => match event {
                Event::Yielded { output } => {
                    if !self.output {
                        return Action::Wait;
                    }
                    let mut line = "[".to_owned();
                    line.append(self.name.as_str());
                    line.append("] ");
                    line.append(get_output_text(&output).as_str());
                    Action::Print { line }
                },
                _ => {
                    assert(self.next < self.work.len());
                    self.next = self.next + 1;
                    self.proceed()
                },
            },
            Phase::Over => Action::Fail,
        }
    }
}

impl ContainerSetupJob {
    /// Begins to carry out the job.
    pub fn execute(&self, main_config: &MainConfig) -> (begun: (Execution, Action))
        ensures
            (begun.0@, begun.1@) == begin(self@, main_config.network()),
            begun.0@.wf(),
    {
        let network = match &main_config.container_network {
            Some(network) => Some(network.name.clone()),
            None => None,
        };
        let mut execution = Execution {
            name: self.name.clone(),
            job_type: self.job_type,
            output: self.output,
            network,
            work: Vec::new(),
            next: 0,
            phase: Phase::Reading,
        };
        assert(execution@.work =~= Seq::empty());
        let dir = get_config_dir(self.name.as_str());
        match self.job_type {
            SetupFile::Shell => {
                let mut path = dir;
                path.append("/");
                path.append(self.name.as_str());
                path.append(".shell");
                (execution, Action::Read { path })
            },
            SetupFile::DockerFile => {
                execution.work.push(
                    Work::Build {
                        dockerfile: dir.concat("/Dockerfile"),
                        network_mode: "bridge".to_owned(),
                    },
                );
                assert(execution@.work =~= seq![build_work(self.name@)]);
                let action = execution.proceed();
                (execution, action)
            },
            SetupFile::DockerCompose => {
                let mut args: Vec<String> = Vec::new();
                args.push("-f".to_owned());
                args.push(dir.concat("/docker-compose.yml"));
                args.push("up".to_owned());
                args.push("-d".to_owned());
                assert(texts(args@) =~= seq!["-f"@, compose_path(self.name@), "up"@, "-d"@]);
                execution.work.push(
                    Work::Process { program: "docker-compose".to_owned(), args, dir: None },
                );
                assert(execution@.work =~= seq![compose_work(self.name@)]);
                let action = execution.proceed();
                (execution, action)
            },
        }
    }

    /// Begins to carry out the job beside others. It is carried out in the
    /// same way.
    pub fn execute_threaded(&self, main_config: &MainConfig) -> (begun: (Execution, Action))
        ensures
            (begun.0@, begun.1@) == begin(self@, main_config.network()),
            begun.0@.wf(),
    {
        self.execute(main_config)
    }
}

/// The files that a container is set up from are those that were looked for,
/// where its name is not empty and does not end with a separator; for a script
/// it must not start with one either.
pub proof fn law_found_files_are_used(name: Seq<char>)
    requires
        name.len() > 0,
        name.last() != '/',
    ensures
        name[0] != '/' ==> script_path(name) == joined(config_dir(name), name + ".shell"@),
        docker_file_path(name) == joined(config_dir(name), "Dockerfile"@),
        compose_path(name) == joined(config_dir(name), "docker-compose.yml"@),
{
    reveal_strlit("/");
    reveal_strlit("Dockerfile");
    reveal_strlit("/Dockerfile");
    reveal_strlit("docker-compose.yml");
    reveal_strlit("/docker-compose.yml");
    let dir = config_dir(name);
    assert(dir.last() == name.last());
    assert((name + ".shell"@)[0] == name[0]);
    assert(script_path(name) =~= dir + "/"@ + (name + ".shell"@));
    assert(docker_file_path(name) =~= dir + "/"@ + "Dockerfile"@);
    assert(compose_path(name) =~= dir + "/"@ + "docker-compose.yml"@);
}

/// Whether the container could be connected to the network changes nothing.
pub proof fn law_connecting_may_fail(state: ExecutionView)
    requires
        state.phase == Phase::Connecting,
    ensures
        state.transition(EventView::Connected) == state.transition(EventView::Failed),
{
}

/// Where an execution comes to by a sequence of events, and the actions that
/// it answers them with.
pub open spec fn run(state: ExecutionView, events: Seq<EventView>) -> (
    ExecutionView,
    Seq<ActionView>,
)
    decreases events.len(),
{
    if events.len() == 0 {
        (state, Seq::empty())
    } else {
        let before = run(state, events.drop_last());
        let after = before.0.transition(events.last());
        (after.0, before.1.push(after.1))
    }
}

/// Whether two sequences of events differ at most in whether the container
/// could be connected to the network, where the execution asked for that.
pub open spec fn differ_in_connecting(
    state: ExecutionView,
    events: Seq<EventView>,
    others: Seq<EventView>,
) -> bool {
    &&& events.len() == others.len()
    &&& forall|k: int|
        0 <= k < events.len() && #[trigger] events[k] != #[trigger] others[k] ==> {
            &&& run(state, events.take(k)).0.phase == Phase::Connecting
            &&& events[k] == EventView::Connected || events[k] == EventView::Failed
            &&& others[k] == EventView::Connected || others[k] == EventView::Failed
        }
}

/// Over a whole run, too, it changes nothing whether the container could be
/// connected to the network: the actions are the same, and so is where the
/// execution comes to.
pub proof fn law_failed_connections_change_nothing(
    state: ExecutionView,
    events: Seq<EventView>,
    others: Seq<EventView>,
)
    requires
        differ_in_connecting(state, events, others),
    ensures
        run(state, events) == run(state, others),
    decreases events.len(),
{
    if events.len() > 0 {
        let last = events.len() - 1;
        let before = events.drop_last();
        let instead = others.drop_last();
        assert forall|k: int|
            0 <= k < before.len() && #[trigger] before[k] != #[trigger] instead[k] implies run(
            state,
            before.take(k),
        ).0.phase == Phase::Connecting && (before[k] == EventView::Connected || before[k]
            == EventView::Failed) && (instead[k] == EventView::Connected || instead[k]
            == EventView::Failed) by {
            assert(events[k] != others[k]);
            assert(before.take(k) =~= events.take(k));
        }
        law_failed_connections_change_nothing(state, before, instead);
        assert(events.take(last) =~= before);
        if events[last] != others[last] {
            law_connecting_may_fail(run(state, before).0);
        }
    }
}

/// The events of one work that is started and yields some outputs.
pub open spec fn work_events(network: Option<Seq<char>>, outputs: Seq<Seq<char>>) -> Seq<
    EventView,
> {
    let connected = if network is Some {
        seq![EventView::Connected]
    } else {
        Seq::empty()
    };
    seq![EventView::Started] + connected + outputs.map_values(
        |text: Seq<char>| EventView::Yielded { text },
    ) + seq![EventView::Ended]
}

/// What is done from the start of one work to its end: the container is
/// connected if there is a network, and each output is printed in turn, where
/// output is wanted.
pub open spec fn work_actions(
    name: Seq<char>,
    output: bool,
    network: Option<Seq<char>>,
    outputs: Seq<Seq<char>>,
) -> Seq<ActionView> {
    let connect = match network {
        Some(network) => seq![ActionView::Connect { network, container: name }],
        None => Seq::empty(),
    };
    connect + seq![ActionView::Wait] + outputs.map_values(
        |text: Seq<char>| yield_action(name, output, text),
    )
}

/// The events of several works, one after the other.
pub open spec fn all_events(network: Option<Seq<char>>, outputs: Seq<Seq<Seq<char>>>) -> Seq<
    EventView,
>
    decreases outputs.len(),
{
    if outputs.len() == 0 {
        Seq::empty()
    } else {
        work_events(network, outputs[0]) + all_events(network, outputs.skip(1))
    }
}

/// What is done while several works run: the outputs of each are printed,
/// where output is wanted, before the next one is started, and behind the last
/// the job is finished.
pub open spec fn all_actions(
    name: Seq<char>,
    output: bool,
    network: Option<Seq<char>>,
    work: Seq<WorkView>,
    outputs: Seq<Seq<Seq<char>>>,
) -> Seq<ActionView>
    decreases outputs.len(),
{
    if outputs.len() == 0 {
        Seq::empty()
    } else {
        let last = if work.len() > 1 {
            ActionView::Start { work: work[1] }
        } else {
            ActionView::Finish
        };
        work_actions(name, output, network, outputs[0]) + seq![last] + all_actions(
            name,
            output,
            network,
            work.skip(1),
            outputs.skip(1),
        )
    }
}

proof fn lemma_run_add(state: ExecutionView, first: Seq<EventView>, second: Seq<EventView>)
    ensures
        run(state, first + second).0 == run(run(state, first).0, second).0,
        run(state, first + second).1 == run(state, first).1 + run(run(state, first).0, second).1,
    decreases second.len(),
{
    let middle = run(state, first).0;
    if second.len() == 0 {
        assert(first + second =~= first);
        assert(run(state, first).1 + run(middle, second).1 =~= run(state, first).1);
    } else {
        lemma_run_add(state, first, second.drop_last());
        assert((first + second).drop_last() =~= first + second.drop_last());
        assert((first + second).last() == second.last());
        assert(run(state, first + second).1 =~= run(state, first).1 + run(middle, second).1);
    }
}

proof fn lemma_run_one(state: ExecutionView, event: EventView)
    ensures
        run(state, seq![event]) == (
            state.transition(event).0,
            seq![state.transition(event).1],
        ),
{
    assert(seq![event].drop_last() =~= Seq::empty());
    assert(run(state, Seq::empty()) == (state, Seq::<ActionView>::empty()));
    assert(run(state, seq![event]).1 =~= seq![state.transition(event).1]);
}

proof fn lemma_run_outputs(state: ExecutionView, outputs: Seq<Seq<char>>)
    requires
        state.phase == Phase::Running,
    ensures
        run(state, outputs.map_values(|text: Seq<char>| EventView::Yielded { text })) == (
            state,
            outputs.map_values(
                |text: Seq<char>| yield_action(state.name, state.output, text),
            ),
        ),
    decreases outputs.len(),
{
    let events = outputs.map_values(|text: Seq<char>| EventView::Yielded { text });
    let prints = outputs.map_values(
        |text: Seq<char>| yield_action(state.name, state.output, text),
    );
    if outputs.len() == 0 {
        assert(prints =~= Seq::empty());
    } else {
        let shorter = outputs.drop_last();
        lemma_run_outputs(state, shorter);
        assert(events.drop_last() =~= shorter.map_values(
            |text: Seq<char>| EventView::Yielded { text },
        ));
        assert(prints.drop_last() =~= shorter.map_values(
            |text: Seq<char>| yield_action(state.name, state.output, text),
        ));
        assert(run(state, events).1 =~= prints);
    }
}

/// A work that is started and yields some outputs is answered by connecting
/// the container, if there is a network, by printing every output in turn,
/// where output is wanted, and by starting the next work or finishing the job.
pub proof fn law_one_work(state: ExecutionView, outputs: Seq<Seq<char>>)
    requires
        state.wf(),
        state.phase == Phase::Starting,
    ensures
        run(state, work_events(state.network, outputs)) == (
            ExecutionView { next: state.next + 1, ..state }.proceed().0,
            work_actions(state.name, state.output, state.network, outputs).push(
                ExecutionView { next: state.next + 1, ..state }.proceed().1,
            ),
        ),
{
    let running = ExecutionView { phase: Phase::Running, ..state };
    let yielded = outputs.map_values(|text: Seq<char>| EventView::Yielded { text });
    let prints = outputs.map_values(
        |text: Seq<char>| yield_action(state.name, state.output, text),
    );
    let started = seq![EventView::Started];
    let connected = if state.network is Some {
        seq![EventView::Connected]
    } else {
        Seq::empty()
    };
    let ended = seq![EventView::Ended];
    lemma_run_one(state, EventView::Started);
    lemma_run_add(state, started, connected);
    let connecting = run(state, started).0;
    if state.network is Some {
        lemma_run_one(connecting, EventView::Connected);
    }
    assert(run(state, started + connected).0 == running);
    lemma_run_outputs(running, outputs);
    lemma_run_add(state, started + connected, yielded);
    lemma_run_one(running, EventView::Ended);
    lemma_run_add(state, started + connected + yielded, ended);
    let next = ExecutionView { next: state.next + 1, ..state };
    assert(ExecutionView { next: state.next + 1, ..running }.proceed() == next.proceed());
    assert(run(state, work_events(state.network, outputs)).1 =~= work_actions(
        state.name,
        state.output,
        state.network,
        outputs,
    ).push(next.proceed().1));
}

/// Works that are all started and yield some outputs are carried out one by
/// one, in order, each once, and then the job is finished.
pub proof fn law_all_work(state: ExecutionView, outputs: Seq<Seq<Seq<char>>>)
    requires
        state.wf(),
        state.phase == Phase::Starting,
        outputs.len() == state.work.len() - state.next,
    ensures
        run(state, all_events(state.network, outputs)).0.phase == Phase::Over,
        run(state, all_events(state.network, outputs)).1 == all_actions(
            state.name,
            state.output,
            state.network,
            state.work.skip(state.next),
            outputs,
        ),
        all_actions(
            state.name,
            state.output,
            state.network,
            state.work.skip(state.next),
            outputs,
        ).last() == ActionView::Finish,
    decreases outputs.len(),
{
    let work = state.work.skip(state.next);
    let after = ExecutionView { next: state.next + 1, ..state }.proceed();
    let next = after.0;
    let rest = outputs.skip(1);
    let first_events = work_events(state.network, outputs[0]);
    let first_actions = work_actions(state.name, state.output, state.network, outputs[0]);
    let more_events = all_events(state.network, rest);
    let more_actions = all_actions(state.name, state.output, state.network, work.skip(1), rest);
    law_one_work(state, outputs[0]);
    lemma_run_add(state, first_events, more_events);
    assert(work.skip(1) =~= state.work.skip(state.next + 1));
    assert(run(next, more_events).1 == more_actions && run(next, more_events).0.phase
        == Phase::Over) by {
        if rest.len() > 0 {
            law_all_work(next, rest);
        } else {
            assert(more_events =~= Seq::empty());
            assert(run(next, Seq::empty()) == (next, Seq::<ActionView>::empty()));
            assert(more_actions =~= Seq::empty());
        }
    }
    let last = if work.len() > 1 {
        ActionView::Start { work: work[1] }
    } else {
        ActionView::Finish
    };
    assert(after.1 == last);
    let actions = all_actions(state.name, state.output, state.network, work, outputs);
    assert(actions == first_actions + seq![last] + more_actions);
    assert(first_actions.push(last) =~= first_actions + seq![last]);
    assert(actions.last() == ActionView::Finish) by {
        if rest.len() > 0 {
            law_all_work(next, rest);
            assert(more_actions.len() > 0);
            assert(actions.last() == more_actions.last());
        } else {
            assert(more_actions =~= Seq::empty());
        }
    }
}

/// A script that gives no command finishes its job as soon as it is read.
pub proof fn law_empty_script(state: ExecutionView, text: Seq<char>)
    requires
        state.phase == Phase::Reading,
        commands(text).len() == 0,
    ensures
        state.transition(EventView::Script { text }).1 == ActionView::Finish,
{
}

/// A container with a script is set up by reading the script and running its
/// commands one by one, in order, each once.
pub proof fn law_script_job(
    job: JobView,
    network: Option<Seq<char>>,
    text: Seq<char>,
    outputs: Seq<Seq<Seq<char>>>,
)
    requires
        job.job_type == SetupFile::Shell,
        commands(text).len() > 0,
        outputs.len() == commands(text).len(),
    ensures
        begin(job, network).1 == (ActionView::Read { path: script_path(job.name) }),
        ({
            let work = script_work(job.name, text);
            run(
                begin(job, network).0,
                seq![EventView::Script { text }] + all_events(network, outputs),
            ).1 == seq![ActionView::Start { work: work[0] }] + all_actions(
                job.name,
                job.output,
                network,
                work,
                outputs,
            )
        }),
{
    let idle = begin(job, network).0;
    let event = EventView::Script { text };
    let started = idle.transition(event).0;
    let work = script_work(job.name, text);
    lemma_run_one(idle, event);
    lemma_run_add(idle, seq![event], all_events(network, outputs));
    law_all_work(started, outputs);
    assert(work.skip(0) =~= work);
}

/// A container with a docker file or a compose file is set up by one work,
/// which is started at once; when that yields no more, the job is finished.
pub proof fn law_single_work_job(
    job: JobView,
    network: Option<Seq<char>>,
    outputs: Seq<Seq<char>>,
)
    requires
        job.job_type != SetupFile::Shell,
    ensures
        begin(job, network).1 == (ActionView::Start {
            work: if job.job_type == SetupFile::DockerFile {
                build_work(job.name)
            } else {
                compose_work(job.name)
            },
        }),
        run(begin(job, network).0, work_events(network, outputs)).1 == work_actions(
            job.name,
            job.output,
            network,
            outputs,
        ).push(ActionView::Finish),
{
    law_one_work(begin(job, network).0, outputs);
}

/// Nothing of what a container's works yield is printed where its output is
/// not wanted, whatever happens.
pub proof fn law_unwanted_output_is_not_printed(
    job: JobView,
    network: Option<Seq<char>>,
    events: Seq<EventView>,
)
    requires
        !job.output,
    ensures
        !(begin(job, network).1 is Print),
        forall|k: int|
            0 <= k < run(begin(job, network).0, events).1.len() ==> !(#[trigger] run(
                begin(job, network).0,
                events,
            ).1[k] is Print),
{
    lemma_quiet(begin(job, network).0, events);
}

proof fn lemma_quiet(state: ExecutionView, events: Seq<EventView>)
    requires
        !state.output,
    ensures
        !run(state, events).0.output,
        forall|k: int|
            0 <= k < run(state, events).1.len() ==> !(#[trigger] run(state, events).1[k] is Print),
    decreases events.len(),
{
    if events.len() > 0 {
        lemma_quiet(state, events.drop_last());
    }
}

/// All that a job is answered with, from its beginning on, when some events
/// come.
pub open spec fn answers(
    job: ContainerSetupJob,
    config: MainConfig,
    events: Seq<EventView>,
) -> Seq<ActionView> {
    let begun = begin(job@, config.network());
    seq![begun.1] + run(begun.0, events).1
}

/// Whether each of some events can come when it does.
pub open spec fn can_come(
    job: ContainerSetupJob,
    config: MainConfig,
    events: Seq<EventView>,
) -> bool {
    forall|k: int|
        0 <= k < events.len() ==> run(
            begin(job@, config.network()).0,
            events.take(k),
        ).0.accepts(#[trigger] events[k])
}

/// The answers by which a work is started.
pub open spec fn starts(all: Seq<ActionView>) -> Seq<ActionView> {
    all.filter(|action: ActionView| action is Start)
}

/// Each work of a list, started.
spec fn all_started(work: Seq<WorkView>) -> Seq<ActionView> {
    work.map_values(|w: WorkView| ActionView::Start { work: w })
}

/// An answer tells how far the execution has come.
spec fn tells(action: ActionView, phase: Phase) -> bool {
    match phase {
        Phase::Reading => action is Read,
        Phase::Starting => action is Start,
        Phase::Connecting => action is Connect,
        Phase::Running => action is Wait || action is Print,
        Phase::Over => action is Finish || action is Fail || action is Panic,
    }
}

/// How many works have been started, by how far the execution has come.
spec fn counted(state: ExecutionView, last: ActionView, started: Seq<ActionView>) -> bool {
    &&& started.len() <= state.work.len()
    &&& started == all_started(state.work.take(started.len() as int))
    &&& state.phase == Phase::Starting || state.phase == Phase::Connecting || state.phase
        == Phase::Running ==> started.len() == state.next + 1
    &&& state.phase == Phase::Reading ==> started.len() == 0
    &&& last is Finish ==> started.len() == state.work.len()
}

/// The works of a job, as far as they are known from the events.
spec fn known_work(job: ContainerSetupJob, events: Seq<EventView>) -> Seq<WorkView> {
    match job.job_type {
        SetupFile::DockerFile => seq![build_work(job.name@)],
        SetupFile::DockerCompose => seq![compose_work(job.name@)],
        SetupFile::Shell => if events.len() > 0 && events[0] is Script {
            script_work(job.name@, events[0]->Script_text)
        } else {
            Seq::empty()
        },
    }
}

proof fn lemma_starts_push(all: Seq<ActionView>, action: ActionView)
    ensures
        starts(all.push(action)) == if action is Start {
            starts(all).push(action)
        } else {
            starts(all)
        },
{
    reveal(Seq::filter);
    assert(all.push(action).drop_last() =~= all);
}

proof fn lemma_no_starts()
    ensures
        starts(Seq::empty()) == Seq::<ActionView>::empty(),
{
    reveal(Seq::filter);
    assert(starts(Seq::empty()) =~= Seq::<ActionView>::empty());
}

/// An event that can come keeps count of the works that have been started.
proof fn lemma_counted(
    state: ExecutionView,
    last: ActionView,
    started: Seq<ActionView>,
    event: EventView,
)
    requires
        state.wf(),
        state.accepts(event),
        tells(last, state.phase),
        counted(state, last, started),
    ensures
        ({
            let next = state.transition(event);
            &&& next.0.wf()
            &&& tells(next.1, next.0.phase)
            &&& counted(
                next.0,
                next.1,
                if next.1 is Start {
                    started.push(next.1)
                } else {
                    started
                },
            )
            &&& next.0.name == state.name
            &&& next.0.job_type == state.job_type
            &&& next.0.output == state.output
            &&& next.0.network == state.network
            &&& next.0.phase != Phase::Reading
            &&& state.phase == Phase::Reading && event is Script ==> next.0.work == script_work(
                state.name,
                event->Script_text,
            )
            &&& state.phase != Phase::Reading || event is Failed ==> next.0.work == state.work
        }),
{
    let next = state.transition(event);
    let m = started.len() as int;
    if next.1 is Start {
        let after = started.push(next.1);
        assert(next.1 == (ActionView::Start { work: next.0.work[m] }));
        if state.phase == Phase::Reading {
            assert(started =~= Seq::empty());
        }
        assert(after =~= all_started(next.0.work.take(m + 1)));
    } else if state.phase == Phase::Reading {
        assert(started =~= all_started(next.0.work.take(m)));
    }
}

/// What holds of an execution all along.
proof fn lemma_answers(job: ContainerSetupJob, config: MainConfig, events: Seq<EventView>)
    requires
        can_come(job, config, events),
    ensures
        ({
            let state = run(begin(job@, config.network()).0, events).0;
            let all = answers(job, config, events);
            &&& all.len() == events.len() + 1
            &&& state.wf()
            &&& state.name == job.name@
            &&& state.job_type == job.job_type
            &&& state.output == job.output
            &&& state.network == config.network()
            &&& state.work == known_work(job, events)
            &&& tells(all.last(), state.phase)
            &&& counted(state, all.last(), starts(all))
            &&& state.phase == Phase::Reading ==> events.len() == 0
        }),
    decreases events.len(),
{
    let first = begin(job@, config.network());
    let all = answers(job, config, events);
    let none = Seq::<ActionView>::empty();
    if events.len() == 0 {
        lemma_no_starts();
        assert(all =~= none.push(first.1));
        lemma_starts_push(none, first.1);
        assert(starts(all) =~= all_started(first.0.work.take(starts(all).len() as int)));
    } else {
        let before = events.drop_last();
        let last = events.len() - 1;
        assert(events.take(last) =~= before);
        lemma_before(job, config, events, last);
        lemma_answers(job, config, before);
        let earlier = answers(job, config, before);
        let state = run(first.0, before).0;
        let next = state.transition(events.last());
        assert(state.accepts(events[last]));
        assert(all =~= earlier.push(next.1));
        lemma_starts_push(earlier, next.1);
        lemma_counted(state, earlier.last(), starts(earlier), events.last());
        assert(next.0.work == known_work(job, events)) by {
            if before.len() > 0 {
                assert(before[0] == events[0]);
                assert(state.phase != Phase::Reading);
            } else {
                assert(run(first.0, before) == (first.0, none));
            }
        }
    }
}

/// The answers to the first events are the first answers.
proof fn lemma_answer_at(
    job: ContainerSetupJob,
    config: MainConfig,
    events: Seq<EventView>,
    k: int,
)
    requires
        0 <= k <= events.len(),
    ensures
        answers(job, config, events).len() == events.len() + 1,
        answers(job, config, events)[k] == answers(job, config, events.take(k)).last(),
        k < events.len() ==> answers(job, config, events)[k + 1] == run(
            begin(job@, config.network()).0,
            events.take(k),
        ).0.transition(events[k]).1,
{
    let first = begin(job@, config.network());
    let earlier = events.take(k);
    lemma_run_length(first.0, events);
    lemma_run_length(first.0, earlier);
    assert(events =~= earlier + events.skip(k));
    lemma_run_add(first.0, earlier, events.skip(k));
    lemma_run_length(run(first.0, earlier).0, events.skip(k));
    if k < events.len() {
        let once = seq![events[k]];
        let later = events.skip(k + 1);
        assert(events.skip(k) =~= once + later);
        lemma_run_add(run(first.0, earlier).0, once, later);
        lemma_run_one(run(first.0, earlier).0, events[k]);
    }
}

proof fn lemma_run_length(state: ExecutionView, events: Seq<EventView>)
    ensures
        run(state, events).1.len() == events.len(),
    decreases events.len(),
{
    if events.len() > 0 {
        lemma_run_length(state, events.drop_last());
    }
}

proof fn lemma_before(
    job: ContainerSetupJob,
    config: MainConfig,
    events: Seq<EventView>,
    k: int,
)
    requires
        can_come(job, config, events),
        0 <= k <= events.len(),
    ensures
        can_come(job, config, events.take(k)),
{
    let earlier = events.take(k);
    assert forall|l: int| 0 <= l < earlier.len() implies run(
        begin(job@, config.network()).0,
        earlier.take(l),
    ).0.accepts(#[trigger] earlier[l]) by {
        assert(earlier.take(l) =~= events.take(l));
        assert(events[l] == earlier[l]);
    }
}

/// Where there is a network, every work that has been started is answered by
/// connecting the container to it, whatever containers the network lists.
/// Where there is none, nothing is ever connected. Nothing is connected that
/// has not been started, or to any other network, or under another name.
pub proof fn law_what_is_started_is_connected(
    job: ContainerSetupJob,
    config: MainConfig,
    events: Seq<EventView>,
    k: int,
)
    requires
        can_come(job, config, events),
        0 <= k < events.len(),
    ensures
        !(answers(job, config, events)[0] is Connect),
        answers(job, config, events)[k] is Start && events[k] is Started ==> answers(
            job,
            config,
            events,
        )[k + 1] == match config.container_network {
            Some(network) => ActionView::Connect { network: network.name@, container: job.name@ },
            None => ActionView::Wait,
        },
        answers(job, config, events)[k + 1] is Connect ==> {
            &&& config.container_network is Some
            &&& answers(job, config, events)[k] is Start
            &&& events[k] is Started
        },
{
    lemma_answer_at(job, config, events, k);
    lemma_answer_at(job, config, events, 0);
    lemma_before(job, config, events, k);
    lemma_answers(job, config, events.take(k));
    assert(events.take(0) =~= Seq::empty());
    let first = begin(job@, config.network());
    assert(run(first.0, Seq::empty()) == (first.0, Seq::<ActionView>::empty()));
    assert(answers(job, config, Seq::empty()) =~= seq![first.1]);
}

/// What a running work yields is printed behind the name of the container in
/// brackets, where the container's output is wanted, and passed over where it
/// is not. When it yields no more, the next work is started or the job is
/// finished. Connecting, whether it succeeds or not, is followed by waiting. A
/// script that cannot be read fails the job, and work that cannot be started is
/// the end of the program.
pub proof fn law_next_answer(
    job: ContainerSetupJob,
    config: MainConfig,
    events: Seq<EventView>,
    k: int,
)
    requires
        can_come(job, config, events),
        0 <= k < events.len(),
    ensures
        ({
            let all = answers(job, config, events);
            let running = all[k] is Wait || all[k] is Print;
            &&& all.len() == events.len() + 1
            &&& running && events[k] is Yielded ==> all[k + 1] == if job.output {
                ActionView::Print {
                    line: seq!['['] + job.name@ + seq![']', ' '] + events[k]->Yielded_text,
                }
            } else {
                ActionView::Wait
            }
            &&& running && events[k] is Ended ==> all[k + 1] is Start || all[k + 1] is Finish
            &&& all[k] is Connect ==> all[k + 1] is Wait
            &&& all[k] is Read && events[k] is Script ==> all[k + 1] is Start || all[k
                + 1] is Finish
            &&& all[k] is Read && events[k] is Failed ==> all[k + 1] is Fail
            &&& all[k] is Start && events[k] is Failed ==> all[k + 1] == (ActionView::Panic {
                message: if job.job_type == SetupFile::Shell {
                    seq!['2']
                } else {
                    seq!['`']
                },
            })
        }),
{
    lemma_answer_at(job, config, events, k);
    lemma_before(job, config, events, k);
    lemma_answers(job, config, events.take(k));
    let all = answers(job, config, events);
    let state = run(begin(job@, config.network()).0, events.take(k)).0;
    assert(state.accepts(events[k]));
    lemma_one_answer(state, all[k], events[k]);
}

proof fn lemma_one_answer(state: ExecutionView, last: ActionView, event: EventView)
    requires
        state.accepts(event),
        tells(last, state.phase),
    ensures
        ({
            let next = state.transition(event).1;
            let running = last is Wait || last is Print;
            &&& running && event is Yielded ==> next == if state.output {
                ActionView::Print {
                    line: seq!['['] + state.name + seq![']', ' '] + event->Yielded_text,
                }
            } else {
                ActionView::Wait
            }
            &&& running && event is Ended ==> next is Start || next is Finish
            &&& last is Connect ==> next is Wait
            &&& last is Read && event is Script ==> next is Start || next is Finish
            &&& last is Read && event is Failed ==> next is Fail
            &&& last is Start && event is Failed ==> next == (ActionView::Panic {
                message: if state.job_type == SetupFile::Shell {
                    seq!['2']
                } else {
                    seq!['`']
                },
            })
        }),
{
    reveal_strlit("[");
    reveal_strlit("] ");
    reveal_strlit("2");
    reveal_strlit("`");
    assert("["@ =~= seq!['[']);
    assert("] "@ =~= seq![']', ' ']);
    assert("2"@ =~= seq!['2']);
    assert("`"@ =~= seq!['`']);
}

/// What can come next follows from the last answer: a script is read or not; a
/// work is started or, unless it is the build of an image, cannot be; the
/// container is connected or not; a running work yields something or ends; and
/// when the job is over nothing comes.
pub proof fn law_what_can_come(
    job: ContainerSetupJob,
    config: MainConfig,
    events: Seq<EventView>,
    event: EventView,
)
    requires
        can_come(job, config, events),
    ensures
        run(begin(job@, config.network()).0, events).0.accepts(event) <==> match answers(
            job,
            config,
            events,
        ).last() {
            ActionView::Read { .. } => event is Script || event is Failed,
            ActionView::Start { .. } => event is Started || (event is Failed && job.job_type
                != SetupFile::DockerFile),
            ActionView::Connect { .. } => event is Connected || event is Failed,
            ActionView::Wait => event is Yielded || event is Ended,
            ActionView::Print { .. } => event is Yielded || event is Ended,
            ActionView::Finish => false,
            ActionView::Fail => false,
            ActionView::Panic { .. } => false,
        },
{
    lemma_answers(job, config, events);
}

/// Which works a job starts. A docker file is built once, and a compose file
/// brought up once, both at the beginning. Of a script, which is read at the
/// beginning, the commands are run in order, each with its own words and where
/// the container's data is kept; none is left out or run twice, and the job is
/// finished only when all have been run.
pub proof fn law_works_of_a_job(
    job: ContainerSetupJob,
    config: MainConfig,
    events: Seq<EventView>,
)
    requires
        can_come(job, config, events),
    ensures
        ({
            let all = answers(job, config, events);
            let dir = "configs/"@ + job.name@;
            &&& job.job_type == SetupFile::DockerFile ==> all[0] is Start && starts(all)
                == seq![
                ActionView::Start {
                    work: WorkView::Build {
                        dockerfile: dir + "/Dockerfile"@,
                        network_mode: "bridge"@,
                    },
                },
            ]
            &&& job.job_type == SetupFile::DockerCompose ==> all[0] is Start && starts(all)
                == seq![
                ActionView::Start {
                    work: WorkView::Process {
                        program: "docker-compose"@,
                        args: seq!["-f"@, dir + "/docker-compose.yml"@, "up"@, "-d"@],
                        dir: None,
                    },
                },
            ]
            &&& job.job_type == SetupFile::Shell ==> all[0] == (ActionView::Read {
                path: dir + "/"@ + job.name@ + ".shell"@,
            })
            &&& job.job_type == SetupFile::Shell && events.len() > 0 ==> {
                let list = commands(events[0]->Script_text);
                &&& events[0] is Script || events[0] is Failed
                &&& events[0] is Failed ==> starts(all).len() == 0
                &&& events[0] is Script ==> {
                    &&& starts(all).len() <= list.len()
                    &&& forall|m: int|
                        0 <= m < starts(all).len() ==> #[trigger] starts(all)[m] == (
                        ActionView::Start {
                            work: WorkView::Process {
                                program: list[m][0],
                                args: list[m].drop_first(),
                                dir: Some("./data/"@ + job.name@),
                            },
                        })
                    &&& all.last() is Finish ==> starts(all).len() == list.len()
                }
            }
        }),
{
    let all = answers(job, config, events);
    let first = begin(job@, config.network());
    lemma_answers(job, config, events);
    lemma_answer_at(job, config, events, 0);
    assert(events.take(0) =~= Seq::empty());
    assert(run(first.0, Seq::empty()) == (first.0, Seq::<ActionView>::empty()));
    assert(answers(job, config, Seq::empty()) =~= seq![first.1]);
    if job.job_type == SetupFile::Shell {
        if events.len() > 0 {
            assert(first.0.accepts(events[0]));
            let list = commands(events[0]->Script_text);
            assert forall|m: int|
                0 <= m < starts(all).len() && events[0] is Script implies #[trigger] starts(all)[m]
                == (ActionView::Start {
                work: WorkView::Process {
                    program: list[m][0],
                    args: list[m].drop_first(),
                    dir: Some("./data/"@ + job.name@),
                },
            }) by {
                assert(list[m].drop_first() =~= list[m].skip(1));
            }
        }
    } else {
        lemma_started_once(job, config, events);
        assert(starts(all) =~= seq![ActionView::Start { work: known_work(job, events)[0] }]);
    }
}

/// A job without a script has started its work from the beginning on.
proof fn lemma_started_once(job: ContainerSetupJob, config: MainConfig, events: Seq<EventView>)
    requires
        job.job_type != SetupFile::Shell,
    ensures
        starts(answers(job, config, events)).len() >= 1,
    decreases events.len(),
{
    let all = answers(job, config, events);
    let first = begin(job@, config.network());
    let none = Seq::<ActionView>::empty();
    if events.len() == 0 {
        assert(all =~= none.push(first.1));
        lemma_starts_push(none, first.1);
    } else {
        let before = events.drop_last();
        lemma_started_once(job, config, before);
        assert(all =~= answers(job, config, before).push(
            run(first.0, before).0.transition(events.last()).1,
        ));
        lemma_starts_push(
            answers(job, config, before),
            run(first.0, before).0.transition(events.last()).1,
        );
    }
}

/// Actions, works and events read as the kinds that they are, with the texts
/// that they hold. Of what a work yields the exit of a process reads as nothing
/// and everything else as its own text.
pub proof fn law_actions_and_events_are_read(action: Action, work: Work, event: Event)
    ensures
        action matches Action::Read { path } ==> action@ == (ActionView::Read { path: path@ }),
        action matches Action::Start { work: w } ==> action@ == (ActionView::Start { work: w@ }),
        action matches Action::Connect { network, container } ==> action@ == (ActionView::Connect {
            network: network@,
            container: container@,
        }),
        action matches Action::Print { line } ==> action@ == (ActionView::Print { line: line@ }),
        action matches Action::Panic { message } ==> action@ == (ActionView::Panic {
            message: message@,
        }),
        action is Wait <==> action@ is Wait,
        action is Finish <==> action@ is Finish,
        action is Fail <==> action@ is Fail,
        work matches Work::Build { dockerfile, network_mode } ==> work@ == (WorkView::Build {
            dockerfile: dockerfile@,
            network_mode: network_mode@,
        }),
        work matches Work::Process { program, args, dir } ==> (work@ matches WorkView::Process {
            program: p,
            args: a,
            dir: d,
        } && p == program@ && a.len() == args@.len() && (forall|k: int|
            0 <= k < a.len() ==> #[trigger] a[k] == args@[k]@) && (dir is Some <==> d is Some) && (
        dir matches Some(path) ==> d == Some(path@))),
        event matches Event::Script { text } ==> event@ == (EventView::Script { text: text@ }),
        event is Started <==> event@ is Started,
        event is Connected <==> event@ is Connected,
        event is Ended <==> event@ is Ended,
        event is Failed <==> event@ is Failed,
        event matches Event::Yielded { output } ==> (event@ matches EventView::Yielded { text }
            && match output {
            Output::Stdout(line) => text == line@,
            Output::Stderr(line) => text == line@,
            Output::Exited => text.len() == 0,
            Output::Message(message) => text == message@,
        }),
{
}

} // verus!
