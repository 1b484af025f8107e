use container_ci::config::{ContainerNetwork, MainConfig};
use container_ci::execution::{Action, Event, Output, Work};
use container_ci::job::{ContainerSetupJob, SetupFile, SetupPaths};

fn config(network: Option<&str>) -> MainConfig {
    MainConfig {
        repositories: vec![],
        container_ordering: false,
        containers: vec![],
        dashboard_port: None,
        container_network: network.map(|name| ContainerNetwork {
            name: name.to_string(),
            containers: vec![],
        }),
        worker_containers: None,
    }
}

fn job(job_type: SetupFile) -> ContainerSetupJob {
    ContainerSetupJob { name: "web".to_string(), job_type, shell_hook: false, output: true }
}

fn process(program: &str, args: &[&str], dir: Option<&str>) -> Action {
    Action::Start {
        work: Work::Process {
            program: program.to_string(),
            args: args.iter().map(|arg| arg.to_string()).collect(),
            dir: dir.map(|path| path.to_string()),
        },
    }
}

fn print(line: &str) -> Action {
    Action::Print { line: line.to_string() }
}

fn yielded(line: &str) -> Event {
    Event::Yielded { output: Output::Stdout(line.to_string()) }
}

#[test]
fn a_script_is_run_line_by_line() {
    let (mut execution, action) = job(SetupFile::Shell).execute(&config(None));
    assert_eq!(action, Action::Read { path: "configs/web/web.shell".to_string() });
    let text = "# first\nnpm install\n\nmake all -j\n".to_string();
    let action = execution.step(Event::Script { text });
    assert_eq!(action, process("npm", &["install"], Some("./data/web")));
    assert_eq!(execution.step(Event::Started), Action::Wait);
    assert_eq!(execution.step(yielded("ok")), print("[web] ok"));
    let event = Event::Yielded { output: Output::Stderr("warn".to_string()) };
    assert_eq!(execution.step(event), print("[web] warn"));
    let event = Event::Yielded { output: Output::Exited };
    assert_eq!(execution.step(event), print("[web] "));
    assert_eq!(
        execution.step(Event::Ended),
        process("make", &["all", "-j"], Some("./data/web"))
    );
    assert_eq!(execution.step(Event::Started), Action::Wait);
    assert_eq!(execution.step(Event::Ended), Action::Finish);
}

#[test]
fn a_script_that_cannot_be_read_fails_the_job() {
    let (mut execution, _) = job(SetupFile::Shell).execute(&config(None));
    assert_eq!(execution.step(Event::Failed), Action::Fail);
}

#[test]
fn a_script_without_commands_is_done_at_once() {
    let (mut execution, _) = job(SetupFile::Shell).execute(&config(Some("net")));
    let text = "# nothing\n\n".to_string();
    assert_eq!(execution.step(Event::Script { text }), Action::Finish);
}

#[test]
fn a_command_that_cannot_be_started_is_a_panic() {
    let (mut execution, _) = job(SetupFile::Shell).execute(&config(None));
    execution.step(Event::Script { text: "nope".to_string() });
    assert_eq!(execution.step(Event::Failed), Action::Panic { message: "2".to_string() });
    let (mut execution, _) = job(SetupFile::DockerCompose).execute(&config(None));
    assert_eq!(execution.step(Event::Failed), Action::Panic { message: "`".to_string() });
}

#[test]
fn every_command_connects_to_the_network() {
    let connect = || Action::Connect {
        network: "net".to_string(),
        container: "web".to_string(),
    };
    let (mut execution, _) = job(SetupFile::Shell).execute(&config(Some("net")));
    execution.step(Event::Script { text: "a\nb".to_string() });
    assert_eq!(execution.step(Event::Started), connect());
    assert_eq!(execution.step(Event::Connected), Action::Wait);
    assert_eq!(execution.step(Event::Ended), process("b", &[], Some("./data/web")));
    assert_eq!(execution.step(Event::Started), connect());
    assert_eq!(execution.step(Event::Failed), Action::Wait);
    assert_eq!(execution.step(Event::Ended), Action::Finish);
}

#[test]
fn an_image_is_built() {
    let (mut execution, action) = job(SetupFile::DockerFile).execute(&config(Some("net")));
    assert_eq!(
        action,
        Action::Start {
            work: Work::Build {
                dockerfile: "configs/web/Dockerfile".to_string(),
                network_mode: "bridge".to_string(),
            },
        }
    );
    assert!(matches!(execution.step(Event::Started), Action::Connect { .. }));
    assert_eq!(execution.step(Event::Failed), Action::Wait);
    let event = Event::Yielded { output: Output::Message("Ok(step)".to_string()) };
    assert_eq!(execution.step(event), print("[web] Ok(step)"));
    assert_eq!(execution.step(Event::Ended), Action::Finish);
}

#[test]
fn a_compose_file_is_brought_up() {
    let (mut execution, action) = job(SetupFile::DockerCompose).execute(&config(None));
    assert_eq!(
        action,
        process(
            "docker-compose",
            &["-f", "configs/web/docker-compose.yml", "up", "-d"],
            None
        )
    );
    assert_eq!(execution.step(Event::Started), Action::Wait);
    assert_eq!(execution.step(Event::Ended), Action::Finish);
}

#[test]
fn jobs_beside_others_run_the_same() {
    for kind in [SetupFile::Shell, SetupFile::DockerFile, SetupFile::DockerCompose] {
        let config = config(Some("net"));
        let alone = job(kind).execute(&config);
        let beside = job(kind).execute_threaded(&config);
        assert_eq!(alone, beside);
    }
}

#[test]
fn the_files_that_were_looked_for_are_used() {
    let paths = SetupPaths::new("web");
    let (_, action) = job(SetupFile::Shell).execute(&config(None));
    assert_eq!(action, Action::Read { path: paths.shell });
    let (_, action) = job(SetupFile::DockerFile).execute(&config(None));
    let work = Work::Build {
        dockerfile: paths.docker_file,
        network_mode: "bridge".to_string(),
    };
    assert_eq!(action, Action::Start { work });
    let (_, action) = job(SetupFile::DockerCompose).execute(&config(None));
    assert_eq!(action, process("docker-compose", &["-f", &paths.compose, "up", "-d"], None));
}

#[test]
fn unwanted_output_is_not_printed() {
    for kind in [SetupFile::Shell, SetupFile::DockerFile, SetupFile::DockerCompose] {
        let quiet = ContainerSetupJob { output: false, ..job(kind) };
        let (mut execution, first) = quiet.execute_threaded(&config(Some("net")));
        let (_, expected) = job(kind).execute(&config(Some("net")));
        assert_eq!(first, expected);
        if kind == SetupFile::Shell {
            let action = execution.step(Event::Script { text: "make".to_string() });
            assert_eq!(action, process("make", &[], Some("./data/web")));
        }
        assert!(matches!(execution.step(Event::Started), Action::Connect { .. }));
        assert_eq!(execution.step(Event::Connected), Action::Wait);
        for output in [
            Output::Stdout("a".to_string()),
            Output::Stderr("b".to_string()),
            Output::Exited,
            Output::Message("c".to_string()),
        ] {
            assert_eq!(execution.step(Event::Yielded { output }), Action::Wait);
        }
        assert_eq!(execution.step(Event::Ended), Action::Finish);
    }
}

/// The actions of a script of two works on a network, by whether each could be
/// connected.
fn actions_on_a_network(connected: [bool; 2]) -> Vec<Action> {
    let (mut execution, first) = job(SetupFile::Shell).execute(&config(Some("net")));
    let mut actions = vec![first];
    actions.push(execution.step(Event::Script { text: "npm install\nmake all\n".to_string() }));
    for joined in connected {
        actions.push(execution.step(Event::Started));
        actions.push(execution.step(if joined { Event::Connected } else { Event::Failed }));
        actions.push(execution.step(yielded("ok")));
        actions.push(execution.step(Event::Ended));
    }
    actions
}

#[test]
fn failed_connections_change_nothing() {
    let expected = actions_on_a_network([true, true]);
    assert_eq!(expected.len(), 10);
    assert_eq!(expected[3], Action::Wait);
    assert_eq!(expected[4], print("[web] ok"));
    assert_eq!(expected[9], Action::Finish);
    assert_eq!(actions_on_a_network([false, true]), expected);
    assert_eq!(actions_on_a_network([true, false]), expected);
    assert_eq!(actions_on_a_network([false, false]), expected);
}
