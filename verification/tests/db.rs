use cobble::db::{entries_agree, get_task_key, get_up_to_date_task_record, TaskInput, TaskOutput, TaskRecord};

fn pairs(v: &[(&str, &str)]) -> Vec<(String, String)> {
    v.iter().map(|(a, b)| (String::from(*a), String::from(*b))).collect()
}

fn input() -> TaskInput {
    TaskInput {
        project_source_hashes: pairs(&[("project.lua", "h1")]),
        file_hashes: pairs(&[("src", "h2"), ("lib", "h3")]),
        task_outputs: pairs(&[("dep", "{\"ok\":true}")]),
        vars: pairs(&[("mode", "\"release\"")]),
    }
}

fn record() -> TaskRecord {
    TaskRecord {
        input: input(),
        output: TaskOutput { file_hashes: pairs(&[("out.bin", "h9")]), task_output: String::from("null") },
    }
}

#[test]
fn task_key() {
    assert_eq!(get_task_key("/build"), "task:/build");
}

#[test]
fn unchanged_task_is_up_to_date() {
    let current = input();
    let outputs = Some(pairs(&[("out.bin", "h9")]));
    let r = get_up_to_date_task_record(Some(record()), &current, &outputs);
    assert_eq!(r.unwrap().output.task_output, "null");
}

#[test]
fn entry_order_does_not_matter() {
    assert!(entries_agree(&pairs(&[("a", "1"), ("b", "2")]), &pairs(&[("b", "2"), ("a", "1")])));
    assert!(!entries_agree(&pairs(&[("a", "1")]), &pairs(&[("a", "1"), ("b", "2")])));
    assert!(!entries_agree(&pairs(&[("a", "1")]), &pairs(&[("a", "2")])));
}

#[test]
fn changed_input_is_not_up_to_date() {
    let mut current = input();
    current.file_hashes = pairs(&[("src", "changed"), ("lib", "h3")]);
    let outputs = Some(pairs(&[("out.bin", "h9")]));
    assert!(get_up_to_date_task_record(Some(record()), &current, &outputs).is_none());
    let mut current = input();
    current.vars = pairs(&[]);
    assert!(get_up_to_date_task_record(Some(record()), &current, &outputs).is_none());
}

#[test]
fn changed_or_missing_output_is_not_up_to_date() {
    let current = input();
    assert!(get_up_to_date_task_record(Some(record()), &current, &Some(pairs(&[("out.bin", "x")]))).is_none());
    assert!(get_up_to_date_task_record(Some(record()), &current, &None).is_none());
    assert!(get_up_to_date_task_record(None, &current, &Some(pairs(&[("out.bin", "h9")]))).is_none());
}
