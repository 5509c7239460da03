use cobble::commands::{list_command_lines, list_task_names, show_task_text, TaskSummary};

fn s(x: &str) -> String {
    String::from(x)
}

#[test]
fn list_lines_are_sorted_padded_and_cut() {
    let long = "d".repeat(100);
    let tasks = vec![
        (s("/proj/build"), s("Builds it")),
        (s("/proj"), s("Default task")),
        (s("/other/x"), s("x")),
        (s("/proj/a"), long.clone()),
    ];
    let lines = list_command_lines("/proj", &tasks);
    // The longest shown name is "(default)", 9 bytes: 9 + 8 + 9 % 4 = 18.
    assert_eq!(
        lines,
        vec![
            format!("{:<18}{}", "/other/x", "x"),
            format!("{:<18}{}", "(default)", "Default task"),
            format!("{:<18}{}...", "a", &long[..77]),
            format!("{:<18}{}", "build", "Builds it"),
        ]
    );
}

#[test]
fn list_names_drop_one_slash_and_keep_other_projects() {
    let tasks = vec![(s("/proj/"), s("")), (s("/project2/t"), s("")), (s("/q"), s(""))];
    let lines = list_command_lines("/proj", &tasks);
    // "(default)" is the longest shown name: 9 bytes give a width of 18.
    assert_eq!(lines, vec![format!("{:<18}", "(default)"), format!("{:<18}", "ect2/t"), format!("{:<18}", "/q")]);
}

#[test]
fn list_of_no_tasks_is_empty() {
    assert!(list_command_lines("/proj", &vec![]).is_empty());
}

#[test]
fn list_descriptions_of_eighty_bytes_stay_whole() {
    let exact = "e".repeat(80);
    let lines = list_command_lines("", &vec![(s("t"), exact.clone())]);
    // The shown name "t" is 1 byte: 1 + 8 + 1 % 4 = 10.
    assert_eq!(lines, vec![format!("{:<10}{}", "t", exact)]);
}

#[test]
fn task_report_has_a_section_for_each_part() {
    let task = TaskSummary {
        artifacts: vec![(s("out"), s("build/out.bin"))],
        file_deps: vec![(s("src"), s("src/main.c"), None), (s("gen"), s("gen/x.h"), Some(s("/proj/gen")))],
        task_deps: vec![],
        envs: vec![s("/proj/env")],
        tools: vec![],
    };
    let text = show_task_text("/proj/build", &task);
    assert_eq!(
        text,
        "Task: /proj/build\n  Artifacts:\n    [out] = build/out.bin\n\n  File Dependencies:\n    [src] = src/main.c\n    [gen] = gen/x.h  (*provided by /proj/gen)\n\n  Task Dependencies:\n    <none>\n\n  Envs:\n    /proj/env\n\n  Tools:\n    <none>\n\n"
    );
}

#[test]
fn plain_list_shows_sorted_relative_names() {
    let names = vec![s("/proj/b"), s("/proj"), s("/lib/x"), s("/proj/a")];
    assert_eq!(list_task_names("/proj", &names), vec![s("/lib/x"), s("(default)"), s("a"), s("b")]);
}
