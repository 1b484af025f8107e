use container_ci::config::Container;
use container_ci::job::{setup_queue, ContainerSetupJob, SetupFile, SetupFiles, SetupPaths};

fn container(name: &str, output: bool) -> Container {
    Container {
        name: name.to_string(),
        enabled: Some(true),
        env: None,
        async_execution: None,
        output,
        depends: None,
    }
}

fn files(dir: bool, compose: bool, docker_file: bool, shell: bool) -> SetupFiles {
    SetupFiles { dir, compose, docker_file, shell }
}

#[test]
fn setup_paths_lie_in_the_directory() {
    let paths = SetupPaths::new("web");
    assert_eq!(paths.dir, "configs/web");
    assert_eq!(paths.compose, "configs/web/docker-compose.yml");
    assert_eq!(paths.docker_file, "configs/web/Dockerfile");
    assert_eq!(paths.shell, "configs/web/web.shell");
}

#[test]
fn setup_paths_of_odd_names() {
    let paths = SetupPaths::new("a/");
    assert_eq!(paths.compose, "configs/a/docker-compose.yml");
    assert_eq!(paths.shell, "configs/a/a/.shell");
    let paths = SetupPaths::new("/a");
    assert_eq!(paths.dir, "configs//a");
    assert_eq!(paths.shell, "/a.shell");
}

#[test]
fn one_file_makes_a_job() {
    let web = container("web", true);
    let kinds = [
        (files(true, true, false, false), SetupFile::DockerCompose),
        (files(true, false, true, false), SetupFile::DockerFile),
        (files(true, false, false, true), SetupFile::Shell),
    ];
    for (found, job_type) in kinds {
        assert_eq!(
            ContainerSetupJob::try_from(&web, found),
            Ok(ContainerSetupJob {
                name: "web".to_string(),
                job_type,
                shell_hook: false,
                output: true,
            })
        );
    }
}

#[test]
fn other_files_make_no_job() {
    let web = container("web", false);
    for found in [
        files(true, false, false, false),
        files(true, true, false, true),
        files(true, false, true, true),
        files(false, false, false, false),
        files(false, false, false, true),
        files(false, true, true, false),
    ] {
        assert!(!found.is_conflict());
        assert_eq!(ContainerSetupJob::try_from(&web, found), Err(()));
    }
}

#[test]
fn compose_and_docker_file_conflict() {
    assert!(files(true, true, true, false).is_conflict());
    assert!(files(true, true, true, true).is_conflict());
    assert!(!files(true, true, false, true).is_conflict());
    assert!(!files(true, false, true, true).is_conflict());
}

#[test]
fn the_queue_keeps_order_and_leaves_out() {
    let all = vec![container("a", false), container("b", true), container("c", false)];
    let found = vec![
        files(true, false, false, true),
        files(false, false, false, false),
        files(true, false, true, false),
    ];
    let queue = setup_queue(&all, &found);
    assert_eq!(queue.len(), 2);
    assert_eq!(queue[0].0, all[0]);
    assert_eq!(queue[0].1.job_type, SetupFile::Shell);
    assert_eq!(queue[1].0, all[2]);
    assert_eq!(queue[1].1.name, "c");
    assert_eq!(queue[1].1.job_type, SetupFile::DockerFile);
}
