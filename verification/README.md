# container_ci

A small end-to-end CI runner that sets up containers with docker. What it
decides is a library verified with Verus; the program around it does the I/O.

- `src/config.rs`: the configuration of a run.
- `src/plan.rs`, `src/schedule.rs`: in which order containers are set up.
- `src/circular.rs`, `src/grounded.rs`: dependencies that can never be met, and
  which containers can be finished.
- `src/job.rs`, `src/script.rs`, `src/paths.rs`: how a container is set up, from
  the files that are kept for it.
- `src/execution.rs`: carrying out a job, one action at a time.
- `src/dispatch.rs`: jobs that run beside each other and wait for each other.
- `src/repositories.rs`, `src/progress.rs`: cloning repositories and reporting
  how far that has come.
- `src/text.rs`: numbers and lists of names.
- `app/`: files, processes, git and docker.
