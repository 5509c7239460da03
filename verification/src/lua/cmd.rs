//! The `cmd` library that project scripts use to run a command: reading
//! its argument table, and gathering what the command writes.
use vstd::prelude::*;
use crate::datamodel::types::{decimal, decimal_text};
use crate::lua::value::{text_view, type_name_of, LuaKind, LuaTable, LuaValue};
use crate::text::str_eq;

verus! {

/// A command to run: the program, its arguments, the directory to run it
/// in, and the Lua functions (by handle) that receive its output and its
/// error output as they come.
#[derive(Debug)]
pub struct CmdInput {
    pub cmd: String,
    pub args: Vec<String>,
    pub cwd: Option<String>,
    pub out: Option<u64>,
    pub err: Option<u64>,
}

pub struct CmdState {
    pub slots: Seq<Seq<char>>,
    pub cwd: Option<Seq<char>>,
    pub out: Option<u64>,
    pub err: Option<u64>,
}

/// What the conversion of a value to a function gives.
pub open spec fn function_of(v: LuaValue) -> Result<u64, Seq<char>> {
    match v.kind {
        LuaKind::Function(h) => Ok(h),
        _ => Err("error converting Lua "@ + type_name_of(v.kind) + " to function"@),
    }
}

/// The state of the command input after one pair of the argument table: a
/// position `i` sets the `i`-th word of the command line (positions past
/// the length are refused), and the names `cwd`, `out` and `err` set the
/// directory and the output functions.
pub open spec fn cmd_step(st: CmdState, p: (LuaValue, LuaValue)) -> Result<CmdState, Seq<char>> {
    match p.0.kind {
        LuaKind::Integer(i) => if i < 0 {
            Err("Invalid index used for command args: out of range integral type conversion attempted"@)
        } else if i > st.slots.len() {
            Err("Invalid index used for command args: "@ + decimal(i as int))
        } else {
            match text_view(p.1) {
                Err(e) => Err(e),
                Ok(t) => Ok(CmdState { slots: st.slots.update(i - 1, t), ..st }),
            }
        },
        LuaKind::Str => match text_view(p.0) {
            Err(e) => Err("Error reading lua string value: "@ + e),
            Ok(k) => if k == "cwd"@ {
                match text_view(p.1) {
                    Err(e) => Err(e),
                    Ok(d) => Ok(CmdState { cwd: Some(d), ..st }),
                }
            } else if k == "out"@ {
                match function_of(p.1) {
                    Err(e) => Err(e),
                    Ok(h) => Ok(CmdState { out: Some(h), ..st }),
                }
            } else if k == "err"@ {
                match function_of(p.1) {
                    Err(e) => Err(e),
                    Ok(h) => Ok(CmdState { err: Some(h), ..st }),
                }
            } else {
                Err("Unknown key in cmd input: "@ + k)
            },
        },
        _ => Err("Key type not allowed in cmd input: "@ + type_name_of(p.0.kind)),
    }
}

pub open spec fn cmd_fold(st: CmdState, ps: Seq<(LuaValue, LuaValue)>) -> Result<CmdState, Seq<char>>
    decreases ps.len(),
{
    if ps.len() == 0 {
        Ok(st)
    } else {
        match cmd_fold(st, ps.drop_last()) {
            Err(e) => Err(e),
            Ok(s) => cmd_step(s, ps.last()),
        }
    }
}

pub struct CmdInputView {
    pub cmd: Seq<char>,
    pub args: Seq<Seq<char>>,
    pub cwd: Option<Seq<char>>,
    pub out: Option<u64>,
    pub err: Option<u64>,
}

/// The command that an argument table asks for: the words of the command
/// line start out empty, one for each position up to the table's length,
/// and the pairs fill them in; the first word is the program.
pub open spec fn cmd_input_spec(t: LuaTable) -> Result<CmdInputView, Seq<char>> {
    let start = CmdState { slots: Seq::new(t.len as nat, |i: int| Seq::<char>::empty()), cwd: None, out: None, err: None };
    match cmd_fold(start, t.pairs@) {
        Err(e) => Err(e),
        Ok(st) => if st.slots.len() < 1 {
            Err("No command given"@)
        } else {
            Ok(CmdInputView { cmd: st.slots[0], args: st.slots.drop_first(), cwd: st.cwd, out: st.out, err: st.err })
        },
    }
}

/// No key of the table is the position 0.
pub open spec fn no_zero_position(t: LuaTable) -> bool {
    forall|i: int| 0 <= i < t.pairs@.len() ==> !(#[trigger] t.pairs@[i].0.kind matches LuaKind::Integer(j) && j == 0)
}

pub open spec fn texts_of(v: Seq<String>) -> Seq<Seq<char>> {
    v.map_values(|s: String| s@)
}

pub open spec fn opt_text(o: Option<String>) -> Option<Seq<char>> {
    match o {
        Some(s) => Some(s@),
        None => None,
    }
}

pub open spec fn cmd_input_view(c: CmdInput) -> CmdInputView {
    CmdInputView { cmd: c.cmd@, args: texts_of(c.args@), cwd: opt_text(c.cwd), out: c.out, err: c.err }
}

proof fn lemma_cmd_fold_prefix_err(st: CmdState, ps: Seq<(LuaValue, LuaValue)>, k: int)
    requires
        0 <= k <= ps.len(),
        cmd_fold(st, ps.take(k)) is Err,
    ensures
        cmd_fold(st, ps) == cmd_fold(st, ps.take(k)),
    decreases ps.len() - k,
{
    if k < ps.len() {
        assert(ps.take(k + 1).drop_last() =~= ps.take(k));
        lemma_cmd_fold_prefix_err(st, ps, k + 1);
    } else {
        assert(ps.take(k) =~= ps);
    }
}

fn function_handle(v: &LuaValue) -> (r: Result<u64, String>)
    ensures
        match function_of(*v) {
            Ok(h) => r == Ok::<u64, String>(h),
            Err(e) => r matches Err(m) && m@ == e,
        },
{
    match &v.kind {
        LuaKind::Function(h) => Ok(*h),
        _ => {
            let mut m = String::from_str("error converting Lua ");
            m.append(v.kind_name());
            m.append(" to function");
            Err(m)
        },
    }
}

/// Reads the argument table of a command.
pub fn cmd_input(args: &LuaTable) -> (r: Result<CmdInput, String>)
    requires
        no_zero_position(*args),
    ensures
        match cmd_input_spec(*args) {
            Ok(c) => r matches Ok(x) && cmd_input_view(x) == c,
            Err(e) => r matches Err(m) && m@ == e,
        },
{
    let ghost ps = args.pairs@;
    let ghost start = CmdState {
        slots: Seq::new(args.len as nat, |i: int| Seq::<char>::empty()),
        cwd: None,
        out: None,
        err: None,
    };
    let mut slots: Vec<String> = Vec::new();
    let mut k: usize = 0;
    while k < args.len
        invariant
            k <= args.len,
            slots@.len() == k,
            forall|j: int| 0 <= j < k ==> #[trigger] slots@[j]@ == Seq::<char>::empty(),
        decreases args.len - k,
    {
        slots.push(String::new());
        k = k + 1;
    }
    let mut cwd: Option<String> = None;
    let mut out: Option<u64> = None;
    let mut err: Option<u64> = None;
    proof {
        assert(texts_of(slots@) =~= start.slots);
        assert(ps.take(0) =~= Seq::<(LuaValue, LuaValue)>::empty());
    }
    let mut i: usize = 0;
    while i < args.pairs.len()
        invariant
            ps == args.pairs@,
            no_zero_position(*args),
            start.slots.len() == args.len,
            start == (CmdState {
                slots: Seq::new(args.len as nat, |i: int| Seq::<char>::empty()),
                cwd: None,
                out: None,
                err: None,
            }),
            i <= ps.len(),
            slots@.len() == args.len,
            cmd_fold(start, ps.take(i as int)) == Ok::<CmdState, Seq<char>>(
                CmdState { slots: texts_of(slots@), cwd: opt_text(cwd), out: out, err: err },
            ),
        decreases ps.len() - i,
    {
        proof {
            assert(ps.take(i as int + 1).drop_last() =~= ps.take(i as int));
            assert(ps.take(i as int + 1).last() == ps[i as int]);
        }
        let p = &args.pairs[i];
        let step: Result<(), String> = match &p.0.kind {
            LuaKind::Integer(n) => {
                if *n < 0 {
                    Err(String::from_str(
                        "Invalid index used for command args: out of range integral type conversion attempted",
                    ))
                } else if (*n as u64) > (slots.len() as u64) {
                    let mut m = String::from_str("Invalid index used for command args: ");
                    let d = decimal_text(*n);
                    m.append(d.as_str());
                    Err(m)
                } else {
                    match &p.1.text {
                        Err(e) => Err(e.clone()),
                        Ok(t) => {
                            proof {
                                assert(ps[i as int].0.kind matches LuaKind::Integer(j) && j == *n);
                                assert(*n != 0);
                            }
                            let idx = (*n as u64 - 1) as usize;
                            let ghost prev = slots@;
                            slots.set(idx, t.clone());
                            proof {
                                assert(texts_of(slots@) =~= texts_of(prev).update(*n - 1, t@));
                            }
                            Ok(())
                        },
                    }
                }
            },
            LuaKind::Str => match &p.0.text {
                Err(e) => {
                    let mut m = String::from_str("Error reading lua string value: ");
                    m.append(e.as_str());
                    Err(m)
                },
                Ok(k) => {
                    if str_eq(k.as_str(), "cwd") {
                        match &p.1.text {
                            Err(e) => Err(e.clone()),
                            Ok(d) => {
                                cwd = Some(d.clone());
                                Ok(())
                            },
                        }
                    } else if str_eq(k.as_str(), "out") {
                        match function_handle(&p.1) {
                            Err(e) => Err(e),
                            Ok(h) => {
                                out = Some(h);
                                Ok(())
                            },
                        }
                    } else if str_eq(k.as_str(), "err") {
                        match function_handle(&p.1) {
                            Err(e) => Err(e),
                            Ok(h) => {
                                err = Some(h);
                                Ok(())
                            },
                        }
                    } else {
                        let mut m = String::from_str("Unknown key in cmd input: ");
                        m.append(k.as_str());
                        Err(m)
                    }
                },
            },
            _ => {
                let mut m = String::from_str("Key type not allowed in cmd input: ");
                m.append(p.0.kind_name());
                Err(m)
            },
        };
        match step {
            Err(e) => {
                proof {
                    lemma_cmd_fold_prefix_err(start, ps, i as int + 1);
                }
                return Err(e);
            },
            Ok(()) => {},
        }
        i = i + 1;
    }
    proof {
        assert(ps.take(i as int) =~= ps);
    }
    if slots.len() < 1 {
        return Err(String::from_str("No command given"));
    }
    let ghost whole = slots@;
    let cmd = slots.remove(0);
    proof {
        assert(texts_of(slots@) =~= texts_of(whole).drop_first());
    }
    Ok(CmdInput { cmd, args: slots, cwd, out, err })
}

/// The message for a command that could not be started.
pub open spec fn spawn_error(c: CmdInputView, error: Seq<char>) -> Seq<char> {
    "Error executing command '"@ + c.cmd + " "@ + joined_words(c.args) + "': "@ + error
}

/// The words joined with single spaces.
pub open spec fn joined_words(s: Seq<Seq<char>>) -> Seq<char>
    decreases s.len(),
{
    if s.len() == 0 {
        seq![]
    } else if s.len() == 1 {
        s[0]
    } else {
        joined_words(s.drop_last()) + " "@ + s.last()
    }
}

/// The message for a command that could not be started, with the error
/// that starting it gave.
pub fn spawn_error_message(input: &CmdInput, error: &str) -> (r: String)
    ensures
        r@ == spawn_error(cmd_input_view(*input), error@),
{
    let ghost ws = texts_of(input.args@);
    let mut words = String::new();
    let mut i: usize = 0;
    while i < input.args.len()
        invariant
            ws == texts_of(input.args@),
            i <= ws.len(),
            words@ == joined_words(ws.take(i as int)),
        decreases ws.len() - i,
    {
        proof {
            assert(ws.take(i as int + 1).drop_last() =~= ws.take(i as int));
            assert(ws.take(i as int + 1).last() == input.args@[i as int]@);
            if i == 0 {
                assert(ws.take(1) =~= seq![ws[0]]);
                assert(words@ =~= seq![]);
            }
        }
        if i > 0 {
            words.append(" ");
        }
        words.append(input.args[i].as_str());
        i = i + 1;
    }
    proof {
        assert(ws.take(i as int) =~= ws);
    }
    let mut m = String::from_str("Error executing command '");
    m.append(input.cmd.as_str());
    m.append(" ");
    m.append(words.as_str());
    m.append("': ");
    m.append(error);
    m
}

/// What the threads that read a running command's output report.
#[derive(Debug)]
pub enum ChildMessage {
    Stdout(String),
    StdoutDone,
    Stderr(String),
    StderrDone,
}

pub enum MessageView {
    Stdout(Seq<char>),
    StdoutDone,
    Stderr(Seq<char>),
    StderrDone,
}

pub open spec fn message_view(m: ChildMessage) -> MessageView {
    match m {
        ChildMessage::Stdout(t) => MessageView::Stdout(t@),
        ChildMessage::StdoutDone => MessageView::StdoutDone,
        ChildMessage::Stderr(t) => MessageView::Stderr(t@),
        ChildMessage::StderrDone => MessageView::StderrDone,
    }
}

/// What a running command has written so far, and which of its outputs
/// have ended.
#[derive(Debug)]
pub struct CmdOutput {
    pub stdout: String,
    pub stderr: String,
    pub stdout_done: bool,
    pub stderr_done: bool,
}

pub struct OutputView {
    pub stdout: Seq<char>,
    pub stderr: Seq<char>,
    pub stdout_done: bool,
    pub stderr_done: bool,
}

pub open spec fn output_view(o: CmdOutput) -> OutputView {
    OutputView { stdout: o.stdout@, stderr: o.stderr@, stdout_done: o.stdout_done, stderr_done: o.stderr_done }
}

/// The output after one message: text is added to its stream, and an end
/// marks its stream as ended.
pub open spec fn output_after(o: OutputView, m: MessageView) -> OutputView {
    match m {
        MessageView::Stdout(t) => OutputView { stdout: o.stdout + t, ..o },
        MessageView::StdoutDone => OutputView { stdout_done: true, ..o },
        MessageView::Stderr(t) => OutputView { stderr: o.stderr + t, ..o },
        MessageView::StderrDone => OutputView { stderr_done: true, ..o },
    }
}

/// The output after the messages, in order.
pub open spec fn output_after_all(o: OutputView, ms: Seq<MessageView>) -> OutputView
    decreases ms.len(),
{
    if ms.len() == 0 {
        o
    } else {
        output_after(output_after_all(o, ms.drop_last()), ms.last())
    }
}

/// The text of the messages of one stream, in order.
pub open spec fn stream_text(ms: Seq<MessageView>, out: bool) -> Seq<char>
    decreases ms.len(),
{
    if ms.len() == 0 {
        seq![]
    } else {
        stream_text(ms.drop_last(), out) + match ms.last() {
            MessageView::Stdout(t) => if out {
                t
            } else {
                seq![]
            },
            MessageView::Stderr(t) => if out {
                seq![]
            } else {
                t
            },
            _ => seq![],
        }
    }
}

pub open spec fn empty_output() -> OutputView {
    OutputView { stdout: seq![], stderr: seq![], stdout_done: false, stderr_done: false }
}

/// What a command has written is, for each stream, the text of its
/// messages in the order they came, whatever the order in which the two
/// streams' messages mix; a stream has ended exactly when its end came.
pub proof fn law_output_is_each_stream_in_order(ms: Seq<MessageView>)
    ensures
        output_after_all(empty_output(), ms).stdout == stream_text(ms, true),
        output_after_all(empty_output(), ms).stderr == stream_text(ms, false),
        output_after_all(empty_output(), ms).stdout_done <==> exists|i: int|
            0 <= i < ms.len() && #[trigger] ms[i] == MessageView::StdoutDone,
        output_after_all(empty_output(), ms).stderr_done <==> exists|i: int|
            0 <= i < ms.len() && #[trigger] ms[i] == MessageView::StderrDone,
    decreases ms.len(),
{
    if ms.len() > 0 {
        let d = ms.drop_last();
        law_output_is_each_stream_in_order(d);
        let prev = output_after_all(empty_output(), d);
        match ms.last() {
            MessageView::Stdout(t) => {
                assert(stream_text(ms, false) =~= stream_text(d, false) + seq![]);
            },
            MessageView::Stderr(t) => {
                assert(stream_text(ms, true) =~= stream_text(d, true) + seq![]);
            },
            _ => {
                assert(stream_text(ms, true) =~= stream_text(d, true) + seq![]);
                assert(stream_text(ms, false) =~= stream_text(d, false) + seq![]);
            },
        }
        if exists|i: int| 0 <= i < d.len() && #[trigger] d[i] == MessageView::StdoutDone {
            let i = choose|i: int| 0 <= i < d.len() && #[trigger] d[i] == MessageView::StdoutDone;
            assert(ms[i] == d[i]);
        }
        if exists|i: int| 0 <= i < d.len() && #[trigger] d[i] == MessageView::StderrDone {
            let i = choose|i: int| 0 <= i < d.len() && #[trigger] d[i] == MessageView::StderrDone;
            assert(ms[i] == d[i]);
        }
        if exists|i: int| 0 <= i < ms.len() && #[trigger] ms[i] == MessageView::StdoutDone {
            let i = choose|i: int| 0 <= i < ms.len() && #[trigger] ms[i] == MessageView::StdoutDone;
            if i < d.len() {
                assert(d[i] == ms[i]);
            }
        }
        if exists|i: int| 0 <= i < ms.len() && #[trigger] ms[i] == MessageView::StderrDone {
            let i = choose|i: int| 0 <= i < ms.len() && #[trigger] ms[i] == MessageView::StderrDone;
            if i < d.len() {
                assert(d[i] == ms[i]);
            }
        }
        assert(ms[ms.len() - 1] == ms.last());
    }
}

impl CmdOutput {
    /// Nothing written yet, and neither stream ended.
    pub fn new() -> (r: CmdOutput)
        ensures
            output_view(r) == empty_output(),
    {
        CmdOutput { stdout: String::new(), stderr: String::new(), stdout_done: false, stderr_done: false }
    }

    /// Takes in a message; gives back the function to call with the text
    /// that came, when the command has one for that stream.
    pub fn receive(&mut self, msg: ChildMessage, input: &CmdInput) -> (r: Option<(u64, String)>)
        ensures
            output_view(*final(self)) == output_after(output_view(*old(self)), message_view(msg)),
            match msg {
                ChildMessage::Stdout(t) => match input.out {
                    Some(h) => r matches Some(c) && c.0 == h && c.1@ == t@,
                    None => r is None,
                },
                ChildMessage::Stderr(t) => match input.err {
                    Some(h) => r matches Some(c) && c.0 == h && c.1@ == t@,
                    None => r is None,
                },
                _ => r is None,
            },
    {
        match msg {
            ChildMessage::Stdout(t) => {
                self.stdout.append(t.as_str());
                match input.out {
                    Some(h) => Some((h, t)),
                    None => None,
                }
            },
            ChildMessage::StdoutDone => {
                self.stdout_done = true;
                None
            },
            ChildMessage::Stderr(t) => {
                self.stderr.append(t.as_str());
                match input.err {
                    Some(h) => Some((h, t)),
                    None => None,
                }
            },
            ChildMessage::StderrDone => {
                self.stderr_done = true;
                None
            },
        }
    }

    /// Both streams have ended.
    pub fn finished(&self) -> (r: bool)
        ensures
            r == (self.stdout_done && self.stderr_done),
    {
        self.stdout_done && self.stderr_done
    }
}

/// The text of the bytes when they are valid UTF-8.
pub open spec fn utf8_decoded(bytes: Seq<u8>) -> Option<Seq<char>> {
    if vstd::utf8::valid_utf8(bytes) {
        Some(vstd::utf8::decode_utf8(bytes))
    } else {
        None
    }
}

/// `std::str::from_utf8`: the text of the bytes when they are valid UTF-8,
/// none otherwise.
#[verifier::external_body]
fn utf8_text(bytes: &[u8]) -> (r: Option<String>)
    ensures
        match utf8_decoded(bytes@) {
            Some(t) => r matches Some(s) && s@ == t,
            None => r is None,
        },
{
    std::str::from_utf8(bytes).ok().map(|s| s.to_string())
}

fn sub_bytes(v: &Vec<u8>, from: usize, to: usize) -> (r: Vec<u8>)
    requires
        from <= to <= v@.len(),
    ensures
        r@ == v@.subrange(from as int, to as int),
{
    let mut r: Vec<u8> = Vec::new();
    let mut i: usize = from;
    while i < to
        invariant
            from <= i <= to,
            to <= v@.len(),
            r@ == v@.subrange(from as int, i as int),
        decreases to - i,
    {
        r.push(v[i]);
        proof {
            assert(r@ =~= v@.subrange(from as int, i + 1));
        }
        i = i + 1;
    }
    r
}

/// The buffer of a thread that reads a command's output: the bytes of each
/// read are handed on as text when they are valid UTF-8 by themselves;
/// otherwise they stay, the next read goes after them, and the buffer
/// doubles when they fill it.
#[derive(Debug)]
pub struct ReadBuffer {
    buf: Vec<u8>,
    start_from: usize,
}

impl ReadBuffer {
    pub closed spec fn bytes(self) -> Seq<u8> {
        self.buf@
    }

    pub closed spec fn waiting(self) -> nat {
        self.start_from as nat
    }

    /// The buffer holds `start_from` waiting bytes, and has room past them.
    pub closed spec fn wf(self) -> bool {
        self.start_from < self.buf@.len()
    }

    /// A buffer of 256 zero bytes, nothing waiting.
    pub fn new() -> (r: ReadBuffer)
        ensures
            r.wf(),
            r.bytes() == Seq::new(256, |i: int| 0u8),
            r.waiting() == 0,
    {
        let mut buf: Vec<u8> = Vec::new();
        let mut i: usize = 0;
        while i < 256
            invariant
                i <= 256,
                buf@ == Seq::new(i as nat, |j: int| 0u8),
            decreases 256 - i,
        {
            buf.push(0);
            proof {
                assert(buf@ =~= Seq::new((i + 1) as nat, |j: int| 0u8));
            }
            i = i + 1;
        }
        ReadBuffer { buf, start_from: 0 }
    }

    /// The size of the buffer.
    pub fn capacity(&self) -> (r: usize)
        ensures
            r == self.bytes().len(),
    {
        self.buf.len()
    }

    /// Where the next read goes when it goes after the waiting bytes.
    pub fn start(&self) -> (r: usize)
        ensures
            r == self.waiting(),
    {
        self.start_from
    }

    /// Takes in bytes that a read put at `written_at`: the `data.len()`
    /// bytes that start where the kept bytes end are decoded; valid text is
    /// handed on and nothing is kept any more; otherwise they are kept too,
    /// and a full buffer doubles.
    pub fn on_read(&mut self, written_at: usize, data: &Vec<u8>) -> (r: Option<String>)
        requires
            old(self).wf(),
            written_at + data@.len() <= old(self).bytes().len(),
            old(self).waiting() + data@.len() <= old(self).bytes().len(),
            2 * old(self).bytes().len() <= usize::MAX,
        ensures
            ({
                let written = old(self).bytes().take(written_at as int) + data@ + old(self).bytes().skip(
                    (written_at + data@.len()) as int,
                );
                let chunk = written.subrange(
                    old(self).waiting() as int,
                    (old(self).waiting() + data@.len()) as int,
                );
                match utf8_decoded(chunk) {
                    Some(t) => r matches Some(s) && s@ == t && final(self).waiting() == 0 && final(self).bytes()
                        == written,
                    None => r is None && final(self).waiting() == old(self).waiting() + data@.len() && (if old(
                        self,
                    ).waiting() + data@.len() >= written.len() {
                        final(self).bytes() == written + Seq::new(written.len(), |i: int| 0u8)
                    } else {
                        final(self).bytes() == written
                    }),
                }
            }),
            final(self).wf(),
    {
        let ghost before = self.buf@;
        let cap = self.buf.len();
        let mut k: usize = 0;
        while k < data.len()
            invariant
                cap == before.len(),
                before == old(self).buf@,
                old(self).wf(),
                written_at + data@.len() <= before.len(),
                self.buf@.len() == before.len(),
                k <= data@.len(),
                self.start_from == old(self).start_from,
                self.buf@ == before.take(written_at as int) + data@.take(k as int) + before.skip(written_at + k),
            decreases data@.len() - k,
        {
            self.buf.set(written_at + k, data[k]);
            proof {
                assert(self.buf@ =~= before.take(written_at as int) + data@.take(k + 1) + before.skip(
                    written_at + k + 1,
                ));
            }
            k = k + 1;
        }
        proof {
            assert(data@.take(k as int) =~= data@);
        }
        let n = data.len();
        let start = self.start_from;
        let chunk = sub_bytes(&self.buf, start, start + n);
        let decoded = utf8_text(chunk.as_slice());
        match decoded {
            Some(s) => {
                self.start_from = 0;
                Some(s)
            },
            None => {
                self.start_from = start + n;
                if self.start_from >= self.buf.len() {
                    let len = self.buf.len();
                    let ghost written = self.buf@;
                    let mut j: usize = 0;
                    while j < len
                        invariant
                            j <= len,
                            len == written.len(),
                            len > 0,
                            self.start_from == start + n,
                            start + n <= len,
                            self.buf@ == written + Seq::new(j as nat, |i: int| 0u8),
                        decreases len - j,
                    {
                        self.buf.push(0);
                        proof {
                            assert(self.buf@ =~= written + Seq::new((j + 1) as nat, |i: int| 0u8));
                        }
                        j = j + 1;
                    }
                }
                None
            },
        }
    }
}

} // verus!
