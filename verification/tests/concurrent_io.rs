use cobble::concurrent_io::{ConcurrentIO, TaskConsoleOutput};

fn texts(v: &[TaskConsoleOutput]) -> Vec<String> {
    v.iter()
        .map(|o| match o {
            TaskConsoleOutput::Out(s) => format!("out:{}", s),
            TaskConsoleOutput::Error(s) => format!("err:{}", s),
        })
        .collect()
}

#[test]
fn first_key_owns_the_console() {
    let mut io = ConcurrentIO::new();
    assert_eq!(texts(&io.print_stdout("a", String::from("1"))), vec!["out:1"]);
    assert!(io.print_stdout("b", String::from("2")).is_empty());
    assert!(io.print_stderr("b", String::from("3")).is_empty());
    assert_eq!(io.get_keys(), vec!["b"]);
    assert_eq!(texts(&io.print_stderr("a", String::from("4"))), vec!["err:4"]);
}

#[test]
fn finished_keys_are_written_when_the_owner_finishes() {
    let mut io = ConcurrentIO::new();
    io.print_stdout("a", String::from("1"));
    io.print_stdout("b", String::from("2"));
    io.print_stderr("b", String::from("3"));
    assert!(io.finish_key("b").is_empty());
    assert!(io.print_stdout("b", String::from("dropped")).is_empty());
    assert_eq!(texts(&io.finish_key("a")), vec!["out:2", "err:3"]);
    assert!(io.finish().is_empty());
}

#[test]
fn unfinished_keys_stay_held_back() {
    let mut io = ConcurrentIO::new();
    io.print_stdout("a", String::from("1"));
    io.print_stdout("c", String::from("5"));
    assert!(io.finish().is_empty());
    assert_eq!(io.get_keys(), vec!["c"]);
}

#[test]
fn held_back_output_is_released_when_its_key_takes_the_console() {
    let mut io = ConcurrentIO::new();
    let mut shown: Vec<String> = Vec::new();
    shown.extend(texts(&io.print_stdout("a", String::from("1"))));
    shown.extend(texts(&io.print_stdout("b", String::from("2"))));
    shown.extend(texts(&io.finish_key("a")));
    shown.extend(texts(&io.print_stdout("b", String::from("3"))));
    shown.extend(texts(&io.finish_key("b")));
    shown.extend(texts(&io.finish()));
    assert_eq!(shown, vec!["out:1", "out:2", "out:3"]);
}

#[test]
fn each_key_is_written_as_one_block() {
    let mut io = ConcurrentIO::new();
    let mut shown: Vec<String> = Vec::new();
    shown.extend(texts(&io.print_stdout("a", String::from("a1"))));
    shown.extend(texts(&io.print_stdout("b", String::from("b1"))));
    shown.extend(texts(&io.print_stderr("c", String::from("c1"))));
    shown.extend(texts(&io.print_stdout("b", String::from("b2"))));
    shown.extend(texts(&io.finish_key("c")));
    shown.extend(texts(&io.print_stdout("a", String::from("a2"))));
    shown.extend(texts(&io.finish_key("a")));
    shown.extend(texts(&io.print_stdout("b", String::from("b3"))));
    shown.extend(texts(&io.finish()));
    assert_eq!(shown, vec!["out:a1", "out:a2", "err:c1", "out:b1", "out:b2", "out:b3"]);
}
