use cobble::lua::cmd::{cmd_input, spawn_error_message, ChildMessage, CmdInput, CmdOutput, ReadBuffer};
use cobble::lua::value::{LuaKind, LuaTable, LuaValue};

fn s(text: &str) -> LuaValue {
    LuaValue { kind: LuaKind::Str, text: Ok(text.to_string()), debug: format!("String({:?})", text) }
}

fn integer(i: i64) -> LuaValue {
    LuaValue { kind: LuaKind::Integer(i), text: Ok(i.to_string()), debug: format!("Integer({})", i) }
}

fn func(h: u64) -> LuaValue {
    LuaValue {
        kind: LuaKind::Function(h),
        text: Err("error converting Lua function to String (expected string or number)".to_string()),
        debug: "Function(Ref(0x1))".to_string(),
    }
}

fn args(len: usize, pairs: Vec<(LuaValue, LuaValue)>) -> LuaTable {
    LuaTable { len, pairs }
}

#[test]
fn command_words_come_from_positions() {
    let t = args(2, vec![(integer(2), s("hi!")), (integer(1), s("echo")), (s("cwd"), s("/tmp"))]);
    let c = cmd_input(&t).unwrap();
    assert_eq!(c.cmd, "echo");
    assert_eq!(c.args, vec!["hi!".to_string()]);
    assert_eq!(c.cwd, Some("/tmp".to_string()));
    assert_eq!((c.out, c.err), (None, None));
}

#[test]
fn command_output_functions_are_kept() {
    let t = args(1, vec![(integer(1), s("ls")), (s("out"), func(5)), (s("err"), func(6))]);
    let c = cmd_input(&t).unwrap();
    assert_eq!((c.out, c.err), (Some(5), Some(6)));
}

#[test]
fn command_input_errors() {
    assert_eq!(cmd_input(&args(0, vec![])).err(), Some("No command given".to_string()));
    assert_eq!(
        cmd_input(&args(1, vec![(integer(1), s("ls")), (integer(3), s("x"))])).err(),
        Some("Invalid index used for command args: 3".to_string())
    );
    assert_eq!(
        cmd_input(&args(1, vec![(integer(1), s("ls")), (s("dir"), s("x"))])).err(),
        Some("Unknown key in cmd input: dir".to_string())
    );
    assert_eq!(
        cmd_input(&args(1, vec![(integer(1), s("ls")), (s("out"), s("x"))])).err(),
        Some("error converting Lua string to function".to_string())
    );
    let key = LuaValue {
        kind: LuaKind::Boolean(true),
        text: Err("no".to_string()),
        debug: "Boolean(true)".to_string(),
    };
    assert_eq!(
        cmd_input(&args(0, vec![(key, s("x"))])).err(),
        Some("Key type not allowed in cmd input: boolean".to_string())
    );
}

#[test]
fn spawn_errors_name_the_command_line() {
    let c = CmdInput { cmd: "ech".to_string(), args: vec!["a".to_string(), "b".to_string()], cwd: None, out: None, err: None };
    assert_eq!(spawn_error_message(&c, "not found"), "Error executing command 'ech a b': not found");
}

#[test]
fn output_gathers_each_stream_in_order() {
    let c = CmdInput { cmd: "x".to_string(), args: vec![], cwd: None, out: Some(1), err: None };
    let mut o = CmdOutput::new();
    assert_eq!(o.receive(ChildMessage::Stdout("a".to_string()), &c), Some((1, "a".to_string())));
    assert_eq!(o.receive(ChildMessage::Stderr("e".to_string()), &c), None);
    assert_eq!(o.receive(ChildMessage::Stdout("b".to_string()), &c), Some((1, "b".to_string())));
    assert!(!o.finished());
    o.receive(ChildMessage::StdoutDone, &c);
    o.receive(ChildMessage::StderrDone, &c);
    assert!(o.finished());
    assert_eq!(o.stdout, "ab");
    assert_eq!(o.stderr, "e");
}

#[test]
fn read_buffer_hands_on_each_valid_read() {
    let mut b = ReadBuffer::new();
    assert_eq!(b.capacity(), 256);
    assert_eq!(b.on_read(b.start(), &vec![b'h', b'i']), Some("hi".to_string()));
    assert_eq!(b.start(), 0);
    // The first byte of "é" alone is not valid text: it is kept, and the next read goes after it.
    assert_eq!(b.on_read(b.start(), &vec![0xC3]), None);
    assert_eq!(b.start(), 1);
    // Each read is decoded by itself.
    assert_eq!(b.on_read(b.start(), &vec![0xA9, b'!']), None);
    assert_eq!(b.start(), 3);
    assert_eq!(b.on_read(b.start(), &vec![b'o', b'k']), Some("ok".to_string()));
    assert_eq!(b.start(), 0);
}

#[test]
fn read_buffer_doubles_when_full() {
    let mut b = ReadBuffer::new();
    let mut data = vec![b'a'; 255];
    data.push(0xC3);
    assert_eq!(b.on_read(0, &data), None);
    assert_eq!(b.start(), 256);
    assert_eq!(b.capacity(), 512);
}
