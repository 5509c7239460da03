use cobble::execute::job_io::{ConcurrentIO, IoAction, JobOutcome};

fn stdout_of<'a>(a: &'a IoAction) -> Option<(&'a str, &'a str)> {
    match a {
        IoAction::Stdout { job, text } => Some((job.as_str(), text.as_str())),
        _ => None,
    }
}

#[test]
fn first_job_is_shown_at_once() {
    let mut io = ConcurrentIO::new();
    let actions = io.job_started("t1");
    assert_eq!(actions.len(), 2);
    assert_eq!(stdout_of(&actions[0]), Some(("t1", "[v--v] t1 started\n")));
    assert!(matches!(&actions[1], IoAction::StdinReady { job } if job == "t1"));
}

#[test]
fn other_jobs_wait_for_the_shown_job() {
    let mut io = ConcurrentIO::new();
    io.job_started("t1");
    assert!(io.job_started("t2").is_empty());
    assert!(io.print_stdout("t2", String::from("x")).is_empty());
    assert!(io.print_stderr("t2", String::from("e")).is_empty());
    let shown = io.print_stdout("t1", String::from("y"));
    assert_eq!(shown.len(), 1);
    assert_eq!(stdout_of(&shown[0]), Some(("t1", "y")));

    let actions = io.job_completed("t1", &JobOutcome::Success);
    assert_eq!(actions.len(), 5);
    assert_eq!(stdout_of(&actions[0]), Some(("t1", "[ OK ] t1 succeeded\n")));
    assert_eq!(stdout_of(&actions[1]), Some(("t2", "[v--v] t2 started\n")));
    assert_eq!(stdout_of(&actions[2]), Some(("t2", "x")));
    assert!(matches!(&actions[3], IoAction::Stderr { job, text } if job == "t2" && text == "e"));
    assert!(matches!(&actions[4], IoAction::StdinReady { job } if job == "t2"));

    let done = io.job_completed("t2", &JobOutcome::Failed(String::from("boom")));
    assert_eq!(done.len(), 1);
    assert_eq!(stdout_of(&done[0]), Some(("t2", "[FAIL] t2 failed: boom\n")));
    assert!(io.finish().is_empty());
}

#[test]
fn a_job_that_completes_in_the_background_is_shown_later() {
    let mut io = ConcurrentIO::new();
    io.job_started("a");
    io.job_started("b");
    assert!(io.job_completed("b", &JobOutcome::UpToDate).is_empty());
    assert!(io.print_stdout("b", String::from("late")).is_empty());
    let actions = io.job_completed("a", &JobOutcome::UpToDate);
    assert_eq!(stdout_of(&actions[0]), Some(("a", "[ UP ] a is up to date\n")));
    assert_eq!(stdout_of(&actions[1]), Some(("b", "[v--v] b started\n")));
    assert_eq!(stdout_of(&actions[2]), Some(("b", "[ UP ] b is up to date\n")));
    assert!(matches!(&actions[3], IoAction::StdinReady { job } if job == "b"));
    assert_eq!(actions.len(), 4);
}

#[test]
fn finishing_writes_out_all_held_back_output() {
    let mut io = ConcurrentIO::new();
    io.job_started("a");
    io.job_started("b");
    io.print_stdout("b", String::from("1"));
    let actions = io.finish();
    let texts: Vec<(&str, &str)> = actions.iter().filter_map(stdout_of).collect();
    assert_eq!(texts, vec![("b", "[v--v] b started\n"), ("b", "1")]);
}

#[test]
fn untracked_jobs_are_ignored() {
    let mut io = ConcurrentIO::new();
    assert!(io.print_stdout("ghost", String::from("x")).is_empty());
    assert!(io.job_completed("ghost", &JobOutcome::Success).is_empty());
}
