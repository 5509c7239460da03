//! Console output of concurrently running tasks, keyed by task: the first
//! task to write owns the console; the others are held back until the owner
//! finishes, and a finished task's held-back output is written out as soon
//! as nobody owns the console.
use vstd::prelude::*;
use crate::text::str_eq;

verus! {

/// Text that a task writes, on the standard output or the standard error.
#[derive(Debug)]
pub enum TaskConsoleOutput {
    Out(String),
    Error(String),
}

/// The mathematical model of a piece of console output.
pub enum ConsoleText {
    Out(Seq<char>),
    Error(Seq<char>),
}

pub open spec fn console_text(o: TaskConsoleOutput) -> ConsoleText {
    match o {
        TaskConsoleOutput::Out(s) => ConsoleText::Out(s@),
        TaskConsoleOutput::Error(s) => ConsoleText::Error(s@),
    }
}

pub open spec fn console_texts(v: Seq<TaskConsoleOutput>) -> Seq<ConsoleText> {
    v.map_values(|o: TaskConsoleOutput| console_text(o))
}

/// The held-back output of each task, keyed by task.
pub type Buffers = Seq<(Seq<char>, Seq<ConsoleText>)>;

/// The held-back output once `o` is held back for `key`.
pub open spec fn held(bufs: Buffers, key: Seq<char>, o: ConsoleText) -> Buffers {
    if exists|i: int| 0 <= i < bufs.len() && #[trigger] bufs[i].0 == key {
        let i = choose|i: int| 0 <= i < bufs.len() && #[trigger] bufs[i].0 == key;
        bufs.update(i, (key, bufs[i].1.push(o)))
    } else {
        bufs.push((key, seq![o]))
    }
}

/// Writes out the held-back output of the given tasks, in order: the output
/// written and the buffers left.
pub open spec fn flush_keys(bufs: Buffers, keys: Seq<Seq<char>>) -> (Buffers, Seq<ConsoleText>)
    decreases keys.len(),
{
    if keys.len() == 0 {
        (bufs, seq![])
    } else {
        let (b1, out1) = flush_keys(bufs, keys.drop_last());
        let k = keys.last();
        if exists|i: int| 0 <= i < b1.len() && #[trigger] b1[i].0 == k {
            let i = choose|i: int| 0 <= i < b1.len() && #[trigger] b1[i].0 == k;
            (b1.update(i, (k, Seq::<ConsoleText>::empty())), out1 + b1[i].1)
        } else {
            (b1, out1)
        }
    }
}

/// No key occurs twice.
pub open spec fn keys_distinct(bufs: Buffers) -> bool {
    forall|i: int, j: int| 0 <= i < j < bufs.len() ==> #[trigger] bufs[i].0 != #[trigger] bufs[j].0
}

pub struct ConcurrentIO {
    buffers: Vec<(String, Vec<TaskConsoleOutput>)>,
    finished_keys: Vec<String>,
    active_key: Option<String>,
}

impl ConcurrentIO {
    /// The held-back output, keyed by task, in the order the tasks were first
    /// held back.
    pub closed spec fn buffers(&self) -> Buffers {
        self.buffers@.map_values(|e: (String, Vec<TaskConsoleOutput>)| (e.0@, console_texts(e.1@)))
    }

    /// The tasks that finished while another task owned the console.
    pub closed spec fn finished(&self) -> Seq<Seq<char>> {
        self.finished_keys@.map_values(|k: String| k@)
    }

    /// The task that owns the console.
    pub closed spec fn active(&self) -> Option<Seq<char>> {
        match self.active_key {
            Some(k) => Some(k@),
            None => None,
        }
    }

    /// The state of the console, as `io_step` reads it.
    pub open spec fn model(&self) -> IoModel {
        IoModel { bufs: self.buffers(), finished: self.finished(), active: self.active() }
    }

    pub closed spec fn wf(&self) -> bool {
        keys_distinct(self.buffers())
    }

    pub fn new() -> (r: ConcurrentIO)
        ensures
            r.wf(),
            r.buffers().len() == 0,
            r.finished().len() == 0,
            r.active() is None,
    {
        let r = ConcurrentIO { buffers: Vec::new(), finished_keys: Vec::new(), active_key: None };
        proof {
            assert(r.buffers() =~= Seq::<(Seq<char>, Seq<ConsoleText>)>::empty());
        }
        r
    }

    fn is_finished(&self, key: &str) -> (b: bool)
        ensures
            b == self.finished().contains(key@),
    {
        let mut i: usize = 0;
        while i < self.finished_keys.len()
            invariant
                i <= self.finished_keys@.len(),
                forall|j: int| 0 <= j < i ==> self.finished_keys@[j]@ != key@,
            decreases self.finished_keys@.len() - i,
        {
            if str_eq(self.finished_keys[i].as_str(), key) {
                proof {
                    assert(self.finished()[i as int] == key@);
                }
                return true;
            }
            i = i + 1;
        }
        proof {
            if self.finished().contains(key@) {
                let j = choose|j: int| 0 <= j < self.finished().len() && self.finished()[j] == key@;
                assert(self.finished_keys@[j]@ == key@);
            }
        }
        false
    }

    fn find_buffer(&self, key: &str) -> (r: Option<usize>)
        ensures
            match r {
                Some(i) => i < self.buffers@.len() && self.buffers@[i as int].0@ == key@,
                None => forall|j: int| 0 <= j < self.buffers@.len() ==> #[trigger] self.buffers@[j].0@ != key@,
            },
    {
        let mut i: usize = 0;
        while i < self.buffers.len()
            invariant
                i <= self.buffers@.len(),
                forall|j: int| 0 <= j < i ==> #[trigger] self.buffers@[j].0@ != key@,
            decreases self.buffers@.len() - i,
        {
            if str_eq(self.buffers[i].0.as_str(), key) {
                return Some(i);
            }
            i = i + 1;
        }
        None
    }

    /// Writes `o` for task `key`: at once if the task owns the console or
    /// nobody does (the task then takes it), held back if another task owns
    /// it, and not at all once the task has finished.
    fn print(&mut self, key: &str, o: TaskConsoleOutput) -> (out: Vec<TaskConsoleOutput>)
        requires
            old(self).wf(),
        ensures
            final(self).wf(),
            final(self).finished() == old(self).finished(),
            old(self).finished().contains(key@) ==> out@.len() == 0 && final(self).buffers() == old(
                self,
            ).buffers() && final(self).active() == old(self).active(),
            !old(self).finished().contains(key@) ==> match old(self).active() {
                None => console_texts(out@) == flush_keys(old(self).buffers(), seq![key@]).1.push(
                    console_text(o),
                ) && final(self).active() == Some(key@) && final(self).buffers() == flush_keys(
                    old(self).buffers(),
                    seq![key@],
                ).0,
                Some(a) => if a == key@ {
                    console_texts(out@) == seq![console_text(o)] && final(self).active() == old(self).active()
                        && final(self).buffers() == old(self).buffers()
                } else {
                    out@.len() == 0 && final(self).active() == old(self).active() && final(self).buffers()
                        == held(old(self).buffers(), key@, console_text(o))
                },
            },
    {
        if self.is_finished(key) {
            return Vec::new();
        }
        let is_active = match &self.active_key {
            Some(a) => str_eq(a.as_str(), key),
            None => false,
        };
        let had_owner = self.active_key.is_some();
        let mut out: Vec<TaskConsoleOutput> = if !had_owner {
            let released = self.flush_one(key);
            self.active_key = Some(String::from_str(key));
            released
        } else {
            Vec::new()
        };
        let ghost released = console_texts(out@);
        if is_active || !had_owner {
            let ghost prev = out@;
            out.push(o);
            proof {
                assert(console_texts(out@) =~= console_texts(prev).push(console_text(o)));
            }
        } else {
            let ghost b0 = self.buffers();
            let ghost raw0 = self.buffers@;
            match self.find_buffer(key) {
                Some(i) => {
                    let mut buf: Vec<TaskConsoleOutput> = Vec::new();
                    std::mem::swap(&mut buf, &mut self.buffers[i].1);
                    buf.push(o);
                    std::mem::swap(&mut buf, &mut self.buffers[i].1);
                    proof {
                        assert(b0[i as int].0 == key@);
                        let w = choose|w: int| 0 <= w < b0.len() && #[trigger] b0[w].0 == key@;
                        if w != i as int {
                            assert(b0[w].0 != b0[i as int].0);
                        }
                        assert(console_texts(self.buffers@[i as int].1@) =~= console_texts(raw0[i as int].1@).push(
                            console_text(o),
                        ));
                        assert(self.buffers() =~= held(b0, key@, console_text(o)));
                    }
                },
                None => {
                    let mut buf: Vec<TaskConsoleOutput> = Vec::new();
                    buf.push(o);
                    self.buffers.push((String::from_str(key), buf));
                    proof {
                        assert forall|w: int| 0 <= w < b0.len() implies #[trigger] b0[w].0 != key@ by {
                            assert(raw0[w].0@ != key@);
                        }
                        assert(console_texts(buf@) =~= seq![console_text(o)]);
                        assert(self.buffers() =~= b0.push((key@, seq![console_text(o)])));
                    }
                },
            }
        }
        out
    }

    /// Writes text on the standard output for task `key`.
    pub fn print_stdout(&mut self, key: &str, text: String) -> (out: Vec<TaskConsoleOutput>)
        requires
            old(self).wf(),
        ensures
            final(self).wf(),
            final(self).finished() == old(self).finished(),
            old(self).finished().contains(key@) ==> out@.len() == 0 && final(self).buffers() == old(
                self,
            ).buffers() && final(self).active() == old(self).active(),
            !old(self).finished().contains(key@) ==> match old(self).active() {
                None => console_texts(out@) == flush_keys(old(self).buffers(), seq![key@]).1.push(
                    ConsoleText::Out(text@),
                ) && final(self).active() == Some(key@) && final(self).buffers() == flush_keys(
                    old(self).buffers(),
                    seq![key@],
                ).0,
                Some(a) => if a == key@ {
                    console_texts(out@) == seq![ConsoleText::Out(text@)] && final(self).active() == old(
                        self,
                    ).active() && final(self).buffers() == old(self).buffers()
                } else {
                    out@.len() == 0 && final(self).active() == old(self).active() && final(self).buffers()
                        == held(old(self).buffers(), key@, ConsoleText::Out(text@))
                },
            },
            final(self).model() == io_step(old(self).model(), IoOp::Print(key@, ConsoleText::Out(text@))).0,
            console_texts(out@) == untag(io_step(old(self).model(), IoOp::Print(key@, ConsoleText::Out(text@))).1),
    {
        let ghost t = text@;
        let ghost m0 = self.model();
        let out = self.print(key, TaskConsoleOutput::Out(text));
        proof {
            lemma_flush_tagged_untags(m0.bufs, seq![key@]);
            let o = io_step(m0, IoOp::Print(key@, ConsoleText::Out(t))).1;
            if !m0.finished.contains(key@) && m0.active is None {
                assert(untag(o) =~= untag(flush_tagged(m0.bufs, seq![key@])).push(ConsoleText::Out(t)));
            } else {
                assert(untag(o) =~= console_texts(out@));
            }
        }
        out
    }

    /// Writes text on the standard error for task `key`.
    pub fn print_stderr(&mut self, key: &str, text: String) -> (out: Vec<TaskConsoleOutput>)
        requires
            old(self).wf(),
        ensures
            final(self).wf(),
            final(self).finished() == old(self).finished(),
            old(self).finished().contains(key@) ==> out@.len() == 0 && final(self).buffers() == old(
                self,
            ).buffers() && final(self).active() == old(self).active(),
            !old(self).finished().contains(key@) ==> match old(self).active() {
                None => console_texts(out@) == flush_keys(old(self).buffers(), seq![key@]).1.push(
                    ConsoleText::Error(text@),
                ) && final(self).active() == Some(key@) && final(self).buffers() == flush_keys(
                    old(self).buffers(),
                    seq![key@],
                ).0,
                Some(a) => if a == key@ {
                    console_texts(out@) == seq![ConsoleText::Error(text@)] && final(self).active() == old(
                        self,
                    ).active() && final(self).buffers() == old(self).buffers()
                } else {
                    out@.len() == 0 && final(self).active() == old(self).active() && final(self).buffers()
                        == held(old(self).buffers(), key@, ConsoleText::Error(text@))
                },
            },
            final(self).model() == io_step(old(self).model(), IoOp::Print(key@, ConsoleText::Error(text@))).0,
            console_texts(out@) == untag(io_step(old(self).model(), IoOp::Print(key@, ConsoleText::Error(text@))).1),
    {
        let ghost t = text@;
        let ghost m0 = self.model();
        let out = self.print(key, TaskConsoleOutput::Error(text));
        proof {
            lemma_flush_tagged_untags(m0.bufs, seq![key@]);
            let o = io_step(m0, IoOp::Print(key@, ConsoleText::Error(t))).1;
            if !m0.finished.contains(key@) && m0.active is None {
                assert(untag(o) =~= untag(flush_tagged(m0.bufs, seq![key@])).push(ConsoleText::Error(t)));
            } else {
                assert(untag(o) =~= console_texts(out@));
            }
        }
        out
    }

    /// Writes out the held-back output of task `key` and empties its buffer.
    fn flush_one(&mut self, key: &str) -> (out: Vec<TaskConsoleOutput>)
        requires
            old(self).wf(),
        ensures
            final(self).wf(),
            final(self).finished() == old(self).finished(),
            final(self).active() == old(self).active(),
            final(self).finished_keys@ == old(self).finished_keys@,
            (final(self).buffers(), console_texts(out@)) == flush_keys(old(self).buffers(), seq![key@]),
    {
        let ghost bm = self.buffers();
        let ghost k = key@;
        let mut out: Vec<TaskConsoleOutput> = Vec::new();
        proof {
            assert(seq![k].drop_last() =~= Seq::<Seq<char>>::empty());
            assert(console_texts(out@) =~= Seq::<ConsoleText>::empty());
        }
        let found = self.find_buffer(key);
        if let Some(i) = found {
            let mut buf: Vec<TaskConsoleOutput> = Vec::new();
            let ghost raw = self.buffers@;
            std::mem::swap(&mut buf, &mut self.buffers[i].1);
            let ghost before_out = out@;
            let mut n: usize = 0;
            while n < buf.len()
                invariant
                    n <= buf@.len(),
                    console_texts(out@) == console_texts(before_out) + console_texts(buf@.take(n as int)),
                decreases buf@.len() - n,
            {
                let piece = match &buf[n] {
                    TaskConsoleOutput::Out(s) => TaskConsoleOutput::Out(s.clone()),
                    TaskConsoleOutput::Error(s) => TaskConsoleOutput::Error(s.clone()),
                };
                assert(console_text(piece) == console_text(buf@[n as int]));
                let ghost prev = out@;
                out.push(piece);
                proof {
                    assert(console_texts(out@) =~= console_texts(prev).push(console_text(buf@[n as int])));
                    assert(buf@.take(n as int + 1) =~= buf@.take(n as int).push(buf@[n as int]));
                    assert(console_texts(buf@.take(n as int + 1)) =~= console_texts(buf@.take(n as int)).push(
                        console_text(buf@[n as int]),
                    ));
                    assert(console_texts(out@) =~= console_texts(before_out) + console_texts(
                        buf@.take(n as int + 1),
                    ));
                }
                n = n + 1;
            }
            proof {
                assert(buf@.take(n as int) =~= buf@);
                assert(bm[i as int].0 == k);
                let w = choose|w: int| 0 <= w < bm.len() && #[trigger] bm[w].0 == k;
                if w != i as int {
                    assert(bm[w].0 != bm[i as int].0);
                }
                assert(console_texts(self.buffers@[i as int].1@) =~= Seq::<ConsoleText>::empty());
                assert(self.buffers() =~= bm.update(i as int, (k, Seq::<ConsoleText>::empty())));
                assert(bm[i as int].1 == console_texts(buf@));
                assert(flush_keys(bm, seq![k].drop_last()) == (bm, Seq::<ConsoleText>::empty()));
                assert(Seq::<ConsoleText>::empty() + bm[i as int].1 =~= bm[i as int].1);
                assert(console_texts(out@) =~= console_texts(buf@));
                assert forall|p: int, q: int|
                    0 <= p < q < self.buffers().len() implies #[trigger] self.buffers()[p].0
                    != #[trigger] self.buffers()[q].0 by {
                    assert(bm[p].0 != bm[q].0);
                }
            }
        } else {
            proof {
                assert forall|w: int| 0 <= w < bm.len() implies #[trigger] bm[w].0 != k by {
                    assert(self.buffers@[w].0@ != k);
                }
                assert(flush_keys(bm, seq![k].drop_last()) == (bm, Seq::<ConsoleText>::empty()));
            }
        }
        out
    }

    /// The finished tasks whose held-back output can be written out: all of
    /// them while nobody owns the console, none while a task does.
    fn get_flushable_buffers(&self) -> (keys: Vec<String>)
        ensures
            keys@.len() == (if self.active() is None {
                self.finished().len()
            } else {
                0
            }),
            self.active() is None ==> forall|j: int| 0 <= j < keys@.len() ==> (#[trigger] keys@[j])@ == self.finished()[j],
    {
        let mut keys: Vec<String> = Vec::new();
        if self.active_key.is_none() {
            let mut i: usize = 0;
            while i < self.finished_keys.len()
                invariant
                    i <= self.finished_keys@.len(),
                    keys@.len() == i,
                    forall|j: int| 0 <= j < i ==> (#[trigger] keys@[j])@ == self.finished_keys@[j]@,
                decreases self.finished_keys@.len() - i,
            {
                keys.push(self.finished_keys[i].clone());
                i = i + 1;
            }
        }
        keys
    }

    /// Writes out the held-back output of every finished task, in the order
    /// in which they finished.
    fn flush_finished(&mut self) -> (out: Vec<TaskConsoleOutput>)
        requires
            old(self).wf(),
            old(self).active() is None,
        ensures
            final(self).wf(),
            final(self).finished() == old(self).finished(),
            final(self).active() == old(self).active(),
            (final(self).buffers(), console_texts(out@)) == flush_keys(old(self).buffers(), old(self).finished()),
    {
        let ghost b0 = self.buffers();
        let ghost keys = self.finished();
        let flushable = self.get_flushable_buffers();
        let mut out: Vec<TaskConsoleOutput> = Vec::new();
        let mut m: usize = 0;
        proof {
            assert(keys.take(0) =~= Seq::<Seq<char>>::empty());
            assert(console_texts(out@) =~= Seq::<ConsoleText>::empty());
        }
        while m < flushable.len()
            invariant
                self.wf(),
                m <= flushable@.len(),
                flushable@.len() == keys.len(),
                forall|j: int| 0 <= j < keys.len() ==> (#[trigger] flushable@[j])@ == keys[j],
                keys == self.finished(),
                self.active() == old(self).active(),
                self.finished_keys@ == old(self).finished_keys@,
                (self.buffers(), console_texts(out@)) == flush_keys(b0, keys.take(m as int)),
            decreases flushable@.len() - m,
        {
            let ghost bm = self.buffers();
            let ghost om = console_texts(out@);
            let ghost k = keys[m as int];
            proof {
                assert(keys.take(m as int + 1).drop_last() =~= keys.take(m as int));
                assert(keys.take(m as int + 1).last() == k);
                assert(flushable@[m as int]@ == k);
            }
            let mut more = self.flush_one(flushable[m].as_str());
            let ghost o2 = console_texts(more@);
            let ghost prev = out@;
            out.append(&mut more);
            proof {
                assert(console_texts(out@) =~= console_texts(prev) + o2);
                lemma_flush_keys_append(b0, keys.take(m as int), seq![k]);
                assert(keys.take(m as int) + seq![k] =~= keys.take(m as int + 1));
            }
            m = m + 1;
        }
        proof {
            assert(keys.take(m as int) =~= keys);
        }
        out
    }

    /// Marks task `key` finished. If it owned the console, nobody owns it
    /// any more; otherwise it joins the finished tasks. When nobody owns the
    /// console, the held-back output of the finished tasks is written out.
    pub fn finish_key(&mut self, key: &str) -> (out: Vec<TaskConsoleOutput>)
        requires
            old(self).wf(),
        ensures
            final(self).wf(),
            old(self).active() == Some(key@) ==> final(self).active() is None && final(self).finished()
                == old(self).finished() && (final(self).buffers(), console_texts(out@)) == flush_keys(
                old(self).buffers(),
                seq![key@] + old(self).finished(),
            ),
            old(self).active() != Some(key@) ==> final(self).active() == old(self).active()
                && final(self).finished() == old(self).finished().push(key@),
            old(self).active() is None ==> (final(self).buffers(), console_texts(out@)) == flush_keys(
                old(self).buffers(),
                old(self).finished().push(key@),
            ),
            old(self).active() is Some && old(self).active() != Some(key@) ==> out@.len() == 0
                && final(self).buffers() == old(self).buffers(),
            final(self).model() == io_step(old(self).model(), IoOp::Finish(key@)).0,
            console_texts(out@) == untag(io_step(old(self).model(), IoOp::Finish(key@)).1),
    {
        let ghost m0 = self.model();
        proof {
            lemma_flush_tagged_untags(m0.bufs, seq![key@] + m0.finished);
            lemma_flush_tagged_untags(m0.bufs, m0.finished.push(key@));
            if m0.active is Some && m0.active != Some(key@) {
                assert(untag(Seq::<(Seq<char>, ConsoleText)>::empty()) =~= Seq::<ConsoleText>::empty());
            }
        }
        let is_active = match &self.active_key {
            Some(a) => str_eq(a.as_str(), key),
            None => false,
        };
        if is_active {
            let ghost b0 = self.buffers();
            let mut out = self.flush_one(key);
            self.active_key = None;
            let ghost b1 = self.buffers();
            let ghost o1 = console_texts(out@);
            let mut more = self.flush_finished();
            let ghost o2 = console_texts(more@);
            out.append(&mut more);
            proof {
                assert(console_texts(out@) =~= o1 + o2);
                lemma_flush_keys_append(b0, seq![key@], self.finished());
            }
            out
        } else {
            self.finished_keys.push(String::from_str(key));
            proof {
                assert(self.finished() =~= old(self).finished().push(key@));
            }
            if self.active_key.is_none() {
                self.flush_finished()
            } else {
                Vec::new()
            }
        }
    }

    /// The tasks that have held-back output, in the order they were first
    /// held back.
    pub fn get_keys(&self) -> (keys: Vec<String>)
        ensures
            keys@.len() == self.buffers().len(),
            forall|i: int| 0 <= i < keys@.len() ==> (#[trigger] keys@[i])@ == self.buffers()[i].0,
    {
        let mut keys: Vec<String> = Vec::new();
        let mut i: usize = 0;
        while i < self.buffers.len()
            invariant
                i <= self.buffers@.len(),
                keys@.len() == i,
                forall|j: int| 0 <= j < i ==> (#[trigger] keys@[j])@ == self.buffers@[j].0@,
            decreases self.buffers@.len() - i,
        {
            keys.push(self.buffers[i].0.clone());
            i = i + 1;
        }
        keys
    }

    /// Closes the console: the task that owns it finishes; with nobody owning
    /// it, the held-back output of the finished tasks is written out.
    pub fn finish(&mut self) -> (out: Vec<TaskConsoleOutput>)
        requires
            old(self).wf(),
        ensures
            final(self).wf(),
            final(self).active() is None,
            final(self).finished() == old(self).finished(),
            (final(self).buffers(), console_texts(out@)) == flush_keys(
                old(self).buffers(),
                match old(self).active() {
                    Some(a) => seq![a] + old(self).finished(),
                    None => old(self).finished(),
                },
            ),
    {
        match &self.active_key {
            Some(a) => {
                let key = a.clone();
                self.finish_key(key.as_str())
            },
            None => self.flush_finished(),
        }
    }
}

/// Writing out the buffers of `a + c` is writing out those of `a`, then
/// those of `c` from what is left.
pub proof fn lemma_flush_keys_append(bufs: Buffers, a: Seq<Seq<char>>, c: Seq<Seq<char>>)
    ensures
        flush_keys(bufs, a + c) == (
            flush_keys(flush_keys(bufs, a).0, c).0,
            flush_keys(bufs, a).1 + flush_keys(flush_keys(bufs, a).0, c).1,
        ),
    decreases c.len(),
{
    if c.len() == 0 {
        assert(a + c =~= a);
        assert(flush_keys(bufs, a).1 + Seq::<ConsoleText>::empty() =~= flush_keys(bufs, a).1);
    } else {
        lemma_flush_keys_append(bufs, a, c.drop_last());
        assert((a + c).drop_last() =~= a + c.drop_last());
        assert((a + c).last() == c.last());
        let b1 = flush_keys(bufs, a).0;
        let o1 = flush_keys(bufs, a).1;
        let (b2, o2) = flush_keys(b1, c.drop_last());
        let k = c.last();
        if exists|i: int| 0 <= i < b2.len() && #[trigger] b2[i].0 == k {
            let i = choose|i: int| 0 <= i < b2.len() && #[trigger] b2[i].0 == k;
            assert(o1 + o2 + b2[i].1 =~= o1 + (o2 + b2[i].1));
        }
    }
}

/// Writing out the held-back output of finished tasks empties exactly their
/// buffers: every task keeps its place, a finished task is left with nothing
/// held back, and every other task keeps its output.
pub proof fn law_finished_output_is_released(bufs: Buffers, keys: Seq<Seq<char>>)
    requires
        keys_distinct(bufs),
    ensures
        flush_keys(bufs, keys).0.len() == bufs.len(),
        keys_distinct(flush_keys(bufs, keys).0),
        forall|i: int| 0 <= i < bufs.len() ==> (#[trigger] flush_keys(bufs, keys).0[i]).0 == bufs[i].0,
        forall|i: int|
            0 <= i < bufs.len() && keys.contains(bufs[i].0) ==> (#[trigger] flush_keys(bufs, keys).0[i]).1.len()
                == 0,
        forall|i: int|
            0 <= i < bufs.len() && !keys.contains(bufs[i].0) ==> (#[trigger] flush_keys(bufs, keys).0[i]).1
                == bufs[i].1,
    decreases keys.len(),
{
    if keys.len() > 0 {
        let prev = keys.drop_last();
        law_finished_output_is_released(bufs, prev);
        let b1 = flush_keys(bufs, prev).0;
        let k = keys.last();
        assert forall|i: int| 0 <= i < bufs.len() && keys.contains(bufs[i].0) && !prev.contains(bufs[i].0) implies bufs[i].0 == k by {
            let j = choose|j: int| 0 <= j < keys.len() && keys[j] == bufs[i].0;
            if j < keys.len() - 1 {
                assert(prev[j] == keys[j]);
            }
        }
        assert forall|i: int| 0 <= i < bufs.len() && prev.contains(bufs[i].0) implies keys.contains(bufs[i].0) by {
            let j = choose|j: int| 0 <= j < prev.len() && prev[j] == bufs[i].0;
            assert(keys[j] == prev[j]);
        }
        assert forall|i: int| 0 <= i < bufs.len() && !keys.contains(bufs[i].0) implies !prev.contains(bufs[i].0) && bufs[i].0 != k by {
            if prev.contains(bufs[i].0) {
                let j = choose|j: int| 0 <= j < prev.len() && prev[j] == bufs[i].0;
                assert(keys[j] == prev[j]);
            }
            assert(keys[keys.len() - 1] == k);
        }
        if exists|i: int| 0 <= i < b1.len() && #[trigger] b1[i].0 == k {
            let w = choose|w: int| 0 <= w < b1.len() && #[trigger] b1[w].0 == k;
            assert forall|i: int| 0 <= i < bufs.len() && i != w implies flush_keys(bufs, keys).0[i] == b1[i] by {}
            assert forall|i: int| 0 <= i < bufs.len() && bufs[i].0 == k implies i == w by {
                if i != w {
                    assert(b1[i].0 == bufs[i].0);
                    assert(b1[i].0 != b1[w].0);
                }
            }
        }
    }
}

/// Output with the task that wrote each piece.
pub type Tagged = Seq<(Seq<char>, ConsoleText)>;

/// The pieces `ts`, each written by task `k`.
pub open spec fn tag_all(k: Seq<char>, ts: Seq<ConsoleText>) -> Tagged {
    ts.map_values(|t: ConsoleText| (k, t))
}

/// The pieces without their tasks.
pub open spec fn untag(ts: Tagged) -> Seq<ConsoleText> {
    ts.map_values(|e: (Seq<char>, ConsoleText)| e.1)
}

/// What `flush_keys` writes out, each piece with its task.
pub open spec fn flush_tagged(bufs: Buffers, keys: Seq<Seq<char>>) -> Tagged
    decreases keys.len(),
{
    if keys.len() == 0 {
        seq![]
    } else {
        let b1 = flush_keys(bufs, keys.drop_last()).0;
        let prev = flush_tagged(bufs, keys.drop_last());
        let k = keys.last();
        if exists|i: int| 0 <= i < b1.len() && #[trigger] b1[i].0 == k {
            let i = choose|i: int| 0 <= i < b1.len() && #[trigger] b1[i].0 == k;
            prev + tag_all(k, b1[i].1)
        } else {
            prev
        }
    }
}

/// The tagged output is the output of `flush_keys`, each piece with its task.
pub proof fn lemma_flush_tagged_untags(bufs: Buffers, keys: Seq<Seq<char>>)
    ensures
        untag(flush_tagged(bufs, keys)) == flush_keys(bufs, keys).1,
    decreases keys.len(),
{
    if keys.len() == 0 {
        assert(untag(flush_tagged(bufs, keys)) =~= Seq::<ConsoleText>::empty());
    } else {
        lemma_flush_tagged_untags(bufs, keys.drop_last());
        let b1 = flush_keys(bufs, keys.drop_last()).0;
        let prev = flush_tagged(bufs, keys.drop_last());
        let k = keys.last();
        if exists|i: int| 0 <= i < b1.len() && #[trigger] b1[i].0 == k {
            let i = choose|i: int| 0 <= i < b1.len() && #[trigger] b1[i].0 == k;
            assert(untag(prev + tag_all(k, b1[i].1)) =~= untag(prev) + b1[i].1);
        }
    }
}

/// A console operation: task `k` writes a piece, or task `k` finishes.
pub enum IoOp {
    Print(Seq<char>, ConsoleText),
    Finish(Seq<char>),
}

/// The state of the console: the held-back output, the tasks finished while
/// another owned it, and the owner.
pub struct IoModel {
    pub bufs: Buffers,
    pub finished: Seq<Seq<char>>,
    pub active: Option<Seq<char>>,
}

/// One operation on the console, as `print_stdout`, `print_stderr` and
/// `finish_key` state it: the state after it and what it writes out.
pub open spec fn io_step(s: IoModel, op: IoOp) -> (IoModel, Tagged) {
    match op {
        IoOp::Print(k, t) => if s.finished.contains(k) {
            (s, seq![])
        } else {
            match s.active {
                None => (
                    IoModel { bufs: flush_keys(s.bufs, seq![k]).0, finished: s.finished, active: Some(k) },
                    flush_tagged(s.bufs, seq![k]).push((k, t)),
                ),
                Some(a) => if a == k {
                    (s, seq![(k, t)])
                } else {
                    (IoModel { bufs: held(s.bufs, k, t), finished: s.finished, active: s.active }, seq![])
                },
            }
        },
        IoOp::Finish(k) => if s.active == Some(k) {
            (
                IoModel { bufs: flush_keys(s.bufs, seq![k] + s.finished).0, finished: s.finished, active: None },
                flush_tagged(s.bufs, seq![k] + s.finished),
            )
        } else if s.active is None {
            (
                IoModel { bufs: flush_keys(s.bufs, s.finished.push(k)).0, finished: s.finished.push(k), active: None },
                flush_tagged(s.bufs, s.finished.push(k)),
            )
        } else {
            (IoModel { bufs: s.bufs, finished: s.finished.push(k), active: s.active }, seq![])
        },
    }
}

/// The operations in turn: the state after them and all they write out.
pub open spec fn io_run(s: IoModel, ops: Seq<IoOp>) -> (IoModel, Tagged)
    decreases ops.len(),
{
    if ops.len() == 0 {
        (s, seq![])
    } else {
        let (s1, o1) = io_run(s, ops.drop_last());
        let (s2, o2) = io_step(s1, ops.last());
        (s2, o1 + o2)
    }
}

/// The tasks finished by the operations.
pub open spec fn finished_by(ops: Seq<IoOp>, k: Seq<char>) -> bool {
    exists|i: int| 0 <= i < ops.len() && #[trigger] ops[i] == IoOp::Finish(k)
}

/// No task writes after it has finished.
pub open spec fn no_print_after_finish(ops: Seq<IoOp>) -> bool {
    forall|i: int, j: int|
        0 <= i < j < ops.len() && (#[trigger] ops[i]) is Finish && (#[trigger] ops[j]) is Print ==> ops[i]->Finish_0
            != ops[j]->Print_0
}

/// Some piece of `t` was written by task `x`.
pub open spec fn has_key(t: Tagged, x: Seq<char>) -> bool {
    exists|i: int| 0 <= i < t.len() && #[trigger] t[i].0 == x
}

/// The output of each task forms one block: between two pieces of a task
/// lie only pieces of that task.
pub open spec fn grouped(t: Tagged) -> bool {
    forall|i: int, j: int, l: int| 0 <= i < j < l < t.len() && #[trigger] t[i].0 == #[trigger] t[l].0 ==> #[trigger] t[j].0 == t[i].0
}

proof fn lemma_grouped_fresh_block(t: Tagged, k: Seq<char>, ts: Seq<ConsoleText>)
    requires
        grouped(t),
        !has_key(t, k),
    ensures
        grouped(t + tag_all(k, ts)),
        forall|x: Seq<char>| has_key(t + tag_all(k, ts), x) ==> has_key(t, x) || (x == k && ts.len() > 0),
{
    let u = t + tag_all(k, ts);
    let n = t.len() as int;
    assert forall|i: int, j: int, l: int| 0 <= i < j < l < u.len() && #[trigger] u[i].0 == #[trigger] u[l].0 implies #[trigger] u[j].0
        == u[i].0 by {
        if l < n {
            assert(u[i] == t[i] && u[j] == t[j] && u[l] == t[l]);
        } else if i < n {
            assert(u[l].0 == k);
            assert(t[i].0 == k);
        } else {
            assert(u[j].0 == k && u[i].0 == k);
        }
    }
    assert forall|x: Seq<char>| has_key(u, x) implies has_key(t, x) || (x == k && ts.len() > 0) by {
        let i = choose|i: int| 0 <= i < u.len() && #[trigger] u[i].0 == x;
        if i < n {
            assert(t[i].0 == x);
        }
    }
}

proof fn lemma_grouped_push_same(t: Tagged, k: Seq<char>, c: ConsoleText)
    requires
        grouped(t),
        t.len() > 0,
        t.last().0 == k,
    ensures
        grouped(t.push((k, c))),
{
    let u = t.push((k, c));
    let n = t.len() as int;
    assert forall|i: int, j: int, l: int| 0 <= i < j < l < u.len() && #[trigger] u[i].0 == #[trigger] u[l].0 implies #[trigger] u[j].0
        == u[i].0 by {
        if l < n {
            assert(u[i] == t[i] && u[j] == t[j] && u[l] == t[l]);
        } else if j < n - 1 {
            assert(t[i].0 == t[n - 1].0);
            assert(u[j] == t[j]);
        } else {
            assert(u[j] == t[n - 1]);
            assert(u[i] == t[i]);
        }
    }
}

/// Writing out the buffers of `keys` after `t` appends one block per task
/// whose buffer held something, of tasks that have no piece in `t`.
proof fn lemma_flush_grouped(bufs: Buffers, keys: Seq<Seq<char>>, t: Tagged)
    requires
        keys_distinct(bufs),
        grouped(t),
        forall|i: int| 0 <= i < bufs.len() && (#[trigger] bufs[i]).1.len() > 0 ==> !has_key(t, bufs[i].0),
    ensures
        grouped(t + flush_tagged(bufs, keys)),
        forall|i: int|
            0 <= i < bufs.len() && (#[trigger] flush_keys(bufs, keys).0[i]).1.len() > 0 ==> !has_key(
                t + flush_tagged(bufs, keys),
                bufs[i].0,
            ),
        forall|x: Seq<char>| has_key(t + flush_tagged(bufs, keys), x) ==> has_key(t, x) || keys.contains(x),
    decreases keys.len(),
{
    law_finished_output_is_released(bufs, keys);
    if keys.len() == 0 {
        assert(t + flush_tagged(bufs, keys) =~= t);
    } else {
        let prev = keys.drop_last();
        lemma_flush_grouped(bufs, prev, t);
        law_finished_output_is_released(bufs, prev);
        let b1 = flush_keys(bufs, prev).0;
        let t1 = t + flush_tagged(bufs, prev);
        let k = keys.last();
        assert forall|x: Seq<char>| prev.contains(x) implies keys.contains(x) by {
            let j = choose|j: int| 0 <= j < prev.len() && prev[j] == x;
            assert(keys[j] == x);
        }
        assert(keys[keys.len() - 1] == k);
        if exists|i: int| 0 <= i < b1.len() && #[trigger] b1[i].0 == k {
            let w = choose|i: int| 0 <= i < b1.len() && #[trigger] b1[i].0 == k;
            let blk = tag_all(k, b1[w].1);
            assert(t + flush_tagged(bufs, keys) =~= t1 + blk);
            if b1[w].1.len() > 0 {
                assert(b1[w].0 == bufs[w].0);
                lemma_grouped_fresh_block(t1, k, b1[w].1);
            } else {
                assert(blk =~= Seq::<(Seq<char>, ConsoleText)>::empty());
                assert(t1 + blk =~= t1);
            }
            let b2 = flush_keys(bufs, keys).0;
            assert forall|i: int| 0 <= i < bufs.len() && (#[trigger] b2[i]).1.len() > 0 implies !has_key(
                t1 + blk,
                bufs[i].0,
            ) by {
                if i != w {
                    assert(b2[i] == b1[i]);
                    assert(b1[i].0 != b1[w].0);
                    if b1[w].1.len() > 0 {
                        lemma_grouped_fresh_block(t1, k, b1[w].1);
                    }
                }
            }
            assert forall|x: Seq<char>| has_key(t1 + blk, x) implies has_key(t, x) || keys.contains(x) by {
                if b1[w].1.len() > 0 {
                    lemma_grouped_fresh_block(t1, k, b1[w].1);
                }
            }
        } else {
            assert(t + flush_tagged(bufs, keys) =~= t1);
        }
    }
}

/// What holds of the console after some operations, `done` being the tasks
/// finished so far and `t` what was written out.
pub open spec fn io_inv(s: IoModel, t: Tagged, done: Set<Seq<char>>) -> bool {
    &&& keys_distinct(s.bufs)
    &&& grouped(t)
    &&& forall|i: int| 0 <= i < s.bufs.len() && (#[trigger] s.bufs[i]).1.len() > 0 ==> !has_key(t, s.bufs[i].0)
    &&& (s.active matches Some(a) ==> t.len() > 0 && t.last().0 == a && !done.contains(a))
    &&& forall|x: Seq<char>| has_key(t, x) ==> s.active == Some(x) || done.contains(x)
    &&& forall|x: Seq<char>| #[trigger] s.finished.contains(x) ==> done.contains(x)
}

proof fn lemma_held_keys(bufs: Buffers, k: Seq<char>, c: ConsoleText)
    requires
        keys_distinct(bufs),
    ensures
        keys_distinct(held(bufs, k, c)),
        forall|i: int|
            0 <= i < held(bufs, k, c).len() ==> (#[trigger] held(bufs, k, c)[i]).0 == k || (i < bufs.len()
                && held(bufs, k, c)[i] == bufs[i]),
{
    let h = held(bufs, k, c);
    if exists|i: int| 0 <= i < bufs.len() && #[trigger] bufs[i].0 == k {
        let w = choose|i: int| 0 <= i < bufs.len() && #[trigger] bufs[i].0 == k;
        assert forall|i: int, j: int| 0 <= i < j < h.len() implies #[trigger] h[i].0 != #[trigger] h[j].0 by {
            assert(bufs[i].0 != bufs[j].0);
        }
    } else {
        assert forall|i: int, j: int| 0 <= i < j < h.len() implies #[trigger] h[i].0 != #[trigger] h[j].0 by {
            if j < bufs.len() {
                assert(bufs[i].0 != bufs[j].0);
            }
        }
    }
}

/// The tasks finished once `op` has been applied.
pub open spec fn next_done(done: Set<Seq<char>>, op: IoOp) -> Set<Seq<char>> {
    match op {
        IoOp::Finish(k) => done.insert(k),
        IoOp::Print(_, _) => done,
    }
}

proof fn lemma_io_step(s: IoModel, t: Tagged, done: Set<Seq<char>>, op: IoOp)
    requires
        io_inv(s, t, done),
        op matches IoOp::Print(k, _) ==> !done.contains(k),
    ensures
        io_inv(io_step(s, op).0, t + io_step(s, op).1, next_done(done, op)),
{
    let (s2, o) = io_step(s, op);
    match op {
        IoOp::Print(k, c) => {
            assert(next_done(done, op) == done);
            if s.finished.contains(k) {
                assert(t + o =~= t);
                assert(s2 == s);
            } else {
                match s.active {
                    None => {
                        assert(!has_key(t, k));
                        law_finished_output_is_released(s.bufs, seq![k]);
                        assert(seq![k].drop_last() =~= Seq::<Seq<char>>::empty());
                        assert(flush_keys(s.bufs, seq![k].drop_last()) == (s.bufs, Seq::<ConsoleText>::empty()));
                        assert(flush_tagged(s.bufs, seq![k].drop_last()) == Seq::<(Seq<char>, ConsoleText)>::empty());
                        let x: Seq<ConsoleText> = if exists|i: int| 0 <= i < s.bufs.len() && #[trigger] s.bufs[i].0 == k {
                            s.bufs[choose|i: int| 0 <= i < s.bufs.len() && #[trigger] s.bufs[i].0 == k].1
                        } else {
                            seq![]
                        };
                        assert(flush_tagged(s.bufs, seq![k]) =~= tag_all(k, x));
                        assert(o =~= tag_all(k, x.push(c)));
                        lemma_grouped_fresh_block(t, k, x.push(c));
                        let u = t + o;
                        assert(u.last() == (k, c));
                        assert(s2.active == Some(k));
                        assert(s2.finished == s.finished);
                        assert forall|y: Seq<char>| has_key(u, y) implies s2.active == Some(y) || done.contains(y) by {
                            assert(has_key(t + tag_all(k, x.push(c)), y));
                            if has_key(t, y) {
                                assert(s.active == Some(y) || done.contains(y));
                            }
                        }
                        assert forall|i: int| 0 <= i < s2.bufs.len() && (#[trigger] s2.bufs[i]).1.len() > 0 implies !has_key(
                            u,
                            s2.bufs[i].0,
                        ) by {
                            assert(seq![k][0] == k);
                            if s2.bufs[i].0 == k {
                                assert(seq![k].contains(s.bufs[i].0));
                            }
                            assert(!seq![k].contains(s.bufs[i].0));
                            assert(s2.bufs[i].1 == s.bufs[i].1);
                        }
                    },
                    Some(a) => {
                        if a == k {
                            let u = t.push((k, c));
                            assert(t + o =~= u);
                            assert(s2 == s);
                            lemma_grouped_push_same(t, k, c);
                            assert forall|x: Seq<char>| has_key(u, x) implies s.active == Some(x) || done.contains(x) by {
                                let i = choose|i: int| 0 <= i < u.len() && #[trigger] u[i].0 == x;
                                if i < t.len() {
                                    assert(t[i].0 == x);
                                    assert(has_key(t, x));
                                } else {
                                    assert(u[i] == (k, c));
                                }
                            }
                            assert forall|i: int| 0 <= i < s.bufs.len() && (#[trigger] s.bufs[i]).1.len() > 0 implies !has_key(
                                t.push((k, c)),
                                s.bufs[i].0,
                            ) by {
                                assert(!has_key(t, s.bufs[i].0));
                                assert(has_key(t, k));
                                if has_key(t.push((k, c)), s.bufs[i].0) {
                                    let j = choose|j: int| 0 <= j < t.push((k, c)).len() && #[trigger] t.push((k, c))[j].0 == s.bufs[i].0;
                                    if j < t.len() {
                                        assert(t[j].0 == s.bufs[i].0);
                                    }
                                }
                            }
                        } else {
                            assert(t + o =~= t);
                            assert(!has_key(t, k));
                            lemma_held_keys(s.bufs, k, c);
                            assert(s2.active == s.active && s2.finished == s.finished);
                            assert forall|i: int| 0 <= i < s2.bufs.len() && (#[trigger] s2.bufs[i]).1.len() > 0 implies !has_key(
                                t,
                                s2.bufs[i].0,
                            ) by {
                                if s2.bufs[i].0 != k {
                                    assert(s2.bufs[i] == s.bufs[i]);
                                }
                            }
                        }
                    },
                }
            }
        },
        IoOp::Finish(k) => {
            let d2 = done.insert(k);
            assert(next_done(done, op) == d2);
            if s.active == Some(k) {
                let keys = seq![k] + s.finished;
                lemma_flush_grouped(s.bufs, keys, t);
                law_finished_output_is_released(s.bufs, keys);
                assert forall|x: Seq<char>| keys.contains(x) implies d2.contains(x) by {
                    let j = choose|j: int| 0 <= j < keys.len() && keys[j] == x;
                    if j > 0 {
                        assert(s.finished[j - 1] == x);
                        assert(s.finished.contains(x));
                    }
                }
            } else if s.active is None {
                let keys = s.finished.push(k);
                lemma_flush_grouped(s.bufs, keys, t);
                law_finished_output_is_released(s.bufs, keys);
                assert forall|x: Seq<char>| keys.contains(x) implies d2.contains(x) by {
                    let j = choose|j: int| 0 <= j < keys.len() && keys[j] == x;
                    if j < s.finished.len() {
                        assert(s.finished[j] == x);
                        assert(s.finished.contains(x));
                    }
                }
            } else {
                assert(t + o =~= t);
                assert forall|x: Seq<char>| #[trigger] s.finished.push(k).contains(x) implies d2.contains(x) by {
                    if x != k {
                        let j = choose|j: int| 0 <= j < s.finished.push(k).len() && s.finished.push(k)[j] == x;
                        assert(s.finished[j] == x);
                        assert(s.finished.contains(x));
                    }
                }
            }
        },
    }
}

/// Each task's output is written out together: from a fresh console, when
/// no task writes after it has finished, between two pieces that a task
/// wrote out lie only pieces of that task.
pub proof fn law_each_task_output_is_one_block(ops: Seq<IoOp>)
    requires
        no_print_after_finish(ops),
    ensures
        grouped(io_run(IoModel { bufs: seq![], finished: seq![], active: None }, ops).1),
{
    lemma_io_run_inv(ops);
}

proof fn lemma_io_run_inv(ops: Seq<IoOp>)
    requires
        no_print_after_finish(ops),
    ensures
        io_inv(
            io_run(IoModel { bufs: seq![], finished: seq![], active: None }, ops).0,
            io_run(IoModel { bufs: seq![], finished: seq![], active: None }, ops).1,
            Set::new(|x: Seq<char>| finished_by(ops, x)),
        ),
    decreases ops.len(),
{
    let s0 = IoModel { bufs: seq![], finished: seq![], active: None };
    if ops.len() == 0 {
        let t0: Tagged = seq![];
        assert forall|x: Seq<char>| has_key(t0, x) implies false by {}
    } else {
        let prev = ops.drop_last();
        assert(no_print_after_finish(prev)) by {
            assert forall|i: int, j: int|
                0 <= i < j < prev.len() && (#[trigger] prev[i]) is Finish && (#[trigger] prev[j]) is Print implies prev[i]->Finish_0
                != prev[j]->Print_0 by {
                assert(prev[i] == ops[i] && prev[j] == ops[j]);
            }
        }
        lemma_io_run_inv(prev);
        let (s1, o1) = io_run(s0, prev);
        let d1 = Set::new(|x: Seq<char>| finished_by(prev, x));
        let op = ops.last();
        if let IoOp::Print(k, _) = op {
            if d1.contains(k) {
                let i = choose|i: int| 0 <= i < prev.len() && #[trigger] prev[i] == IoOp::Finish(k);
                assert(ops[i] == prev[i]);
                assert(ops[ops.len() - 1] == op);
                assert(false);
            }
        }
        lemma_io_step(s1, o1, d1, op);
        let d2 = next_done(d1, op);
        assert forall|x: Seq<char>| d2.contains(x) == finished_by(ops, x) by {
            if finished_by(prev, x) {
                let i = choose|i: int| 0 <= i < prev.len() && #[trigger] prev[i] == IoOp::Finish(x);
                assert(ops[i] == prev[i]);
            }
            if finished_by(ops, x) {
                let i = choose|i: int| 0 <= i < ops.len() && #[trigger] ops[i] == IoOp::Finish(x);
                if i < prev.len() {
                    assert(prev[i] == ops[i]);
                } else {
                    assert(ops[i] == op);
                }
            }
            if let IoOp::Finish(k) = op {
                if x == k {
                    assert(ops[ops.len() - 1] == IoOp::Finish(x));
                }
            }
        }
        assert(d2 =~= Set::new(|x: Seq<char>| finished_by(ops, x)));
    }
}

/// The pieces of `t` that task `k` wrote, in order.
pub open spec fn texts_of(t: Tagged, k: Seq<char>) -> Seq<ConsoleText>
    decreases t.len(),
{
    if t.len() == 0 {
        seq![]
    } else {
        texts_of(t.drop_last(), k) + if t.last().0 == k {
            seq![t.last().1]
        } else {
            Seq::<ConsoleText>::empty()
        }
    }
}

/// The output held back for task `k`.
pub open spec fn buffer_of(bufs: Buffers, k: Seq<char>) -> Seq<ConsoleText> {
    if exists|i: int| 0 <= i < bufs.len() && #[trigger] bufs[i].0 == k {
        bufs[choose|i: int| 0 <= i < bufs.len() && #[trigger] bufs[i].0 == k].1
    } else {
        seq![]
    }
}

/// What the operation has task `k` write.
pub open spec fn printed_by(op: IoOp, k: Seq<char>) -> Seq<ConsoleText> {
    match op {
        IoOp::Print(j, c) => if j == k {
            seq![c]
        } else {
            seq![]
        },
        IoOp::Finish(_) => seq![],
    }
}

/// What the operations have task `k` write, in order.
pub open spec fn printed(ops: Seq<IoOp>, k: Seq<char>) -> Seq<ConsoleText>
    decreases ops.len(),
{
    if ops.len() == 0 {
        seq![]
    } else {
        printed(ops.drop_last(), k) + printed_by(ops.last(), k)
    }
}

proof fn lemma_texts_of_append(t: Tagged, u: Tagged, k: Seq<char>)
    ensures
        texts_of(t + u, k) == texts_of(t, k) + texts_of(u, k),
    decreases u.len(),
{
    if u.len() == 0 {
        assert(t + u =~= t);
        assert(texts_of(t, k) + texts_of(u, k) =~= texts_of(t, k));
    } else {
        lemma_texts_of_append(t, u.drop_last(), k);
        assert((t + u).drop_last() =~= t + u.drop_last());
        assert((t + u).last() == u.last());
        let tail = if u.last().0 == k {
            seq![u.last().1]
        } else {
            Seq::<ConsoleText>::empty()
        };
        assert(texts_of(t, k) + texts_of(u.drop_last(), k) + tail =~= texts_of(t, k) + (texts_of(u.drop_last(), k)
            + tail));
    }
}

proof fn lemma_texts_of_tag_all(j: Seq<char>, ts: Seq<ConsoleText>, k: Seq<char>)
    ensures
        texts_of(tag_all(j, ts), k) == if j == k {
            ts
        } else {
            Seq::<ConsoleText>::empty()
        },
    decreases ts.len(),
{
    if ts.len() == 0 {
        assert(tag_all(j, ts) =~= Seq::<(Seq<char>, ConsoleText)>::empty());
    } else {
        lemma_texts_of_tag_all(j, ts.drop_last(), k);
        assert(tag_all(j, ts).drop_last() =~= tag_all(j, ts.drop_last()));
        if j == k {
            assert(ts.drop_last().push(ts.last()) =~= ts);
        } else {
            assert(Seq::<ConsoleText>::empty() + Seq::<ConsoleText>::empty() =~= Seq::<ConsoleText>::empty());
        }
    }
}

proof fn lemma_buffer_of_at(bufs: Buffers, i: int)
    requires
        keys_distinct(bufs),
        0 <= i < bufs.len(),
    ensures
        buffer_of(bufs, bufs[i].0) == bufs[i].1,
{
    let w = choose|w: int| 0 <= w < bufs.len() && #[trigger] bufs[w].0 == bufs[i].0;
    if w != i {
        if w < i {
            assert(bufs[w].0 != bufs[i].0);
        } else {
            assert(bufs[i].0 != bufs[w].0);
        }
    }
}

/// Writing out buffers moves their output, piece for piece, from the
/// buffers to the output.
proof fn lemma_flush_accounts(bufs: Buffers, keys: Seq<Seq<char>>, k: Seq<char>)
    requires
        keys_distinct(bufs),
    ensures
        texts_of(flush_tagged(bufs, keys), k) + buffer_of(flush_keys(bufs, keys).0, k) == buffer_of(bufs, k),
    decreases keys.len(),
{
    if keys.len() == 0 {
        assert(flush_tagged(bufs, keys) =~= Seq::<(Seq<char>, ConsoleText)>::empty());
        assert(Seq::<ConsoleText>::empty() + buffer_of(bufs, k) =~= buffer_of(bufs, k));
    } else {
        let prev = keys.drop_last();
        lemma_flush_accounts(bufs, prev, k);
        law_finished_output_is_released(bufs, prev);
        let b1 = flush_keys(bufs, prev).0;
        let f1 = flush_tagged(bufs, prev);
        let kk = keys.last();
        if exists|i: int| 0 <= i < b1.len() && #[trigger] b1[i].0 == kk {
            let w = choose|i: int| 0 <= i < b1.len() && #[trigger] b1[i].0 == kk;
            let b2 = flush_keys(bufs, keys).0;
            assert(b2 == b1.update(w, (kk, Seq::<ConsoleText>::empty())));
            lemma_texts_of_append(f1, tag_all(kk, b1[w].1), k);
            lemma_texts_of_tag_all(kk, b1[w].1, k);
            assert forall|p: int, q: int| 0 <= p < q < b2.len() implies #[trigger] b2[p].0 != #[trigger] b2[q].0 by {
                assert(b1[p].0 != b1[q].0);
            }
            if k == kk {
                lemma_buffer_of_at(b1, w);
                lemma_buffer_of_at(b2, w);
                assert(texts_of(f1, k) + b1[w].1 + Seq::<ConsoleText>::empty() =~= texts_of(f1, k) + b1[w].1);
            } else {
                assert(buffer_of(b2, k) == buffer_of(b1, k)) by {
                    if exists|i: int| 0 <= i < b1.len() && #[trigger] b1[i].0 == k {
                        let i = choose|i: int| 0 <= i < b1.len() && #[trigger] b1[i].0 == k;
                        assert(b2[i] == b1[i]);
                        lemma_buffer_of_at(b1, i);
                        lemma_buffer_of_at(b2, i);
                    } else {
                        assert forall|i: int| 0 <= i < b2.len() implies #[trigger] b2[i].0 != k by {
                            if i != w {
                                assert(b2[i] == b1[i]);
                            }
                        }
                    }
                }
                assert(texts_of(f1, k) + Seq::<ConsoleText>::empty() =~= texts_of(f1, k));
            }
        }
    }
}

/// Holding back `c` for task `k` adds it to that task's buffer only.
proof fn lemma_held_accounts(bufs: Buffers, k: Seq<char>, c: ConsoleText, j: Seq<char>)
    requires
        keys_distinct(bufs),
    ensures
        buffer_of(held(bufs, k, c), j) == buffer_of(bufs, j) + if j == k {
            seq![c]
        } else {
            Seq::<ConsoleText>::empty()
        },
{
    lemma_held_keys(bufs, k, c);
    let h = held(bufs, k, c);
    if exists|i: int| 0 <= i < bufs.len() && #[trigger] bufs[i].0 == k {
        let w = choose|i: int| 0 <= i < bufs.len() && #[trigger] bufs[i].0 == k;
        if j == k {
            lemma_buffer_of_at(bufs, w);
            lemma_buffer_of_at(h, w);
        } else {
            if exists|i: int| 0 <= i < bufs.len() && #[trigger] bufs[i].0 == j {
                let i = choose|i: int| 0 <= i < bufs.len() && #[trigger] bufs[i].0 == j;
                lemma_buffer_of_at(bufs, i);
                lemma_buffer_of_at(h, i);
            } else {
                assert forall|i: int| 0 <= i < h.len() implies #[trigger] h[i].0 != j by {
                    if i != w {
                        assert(h[i] == bufs[i]);
                    }
                }
            }
            assert(buffer_of(bufs, j) + Seq::<ConsoleText>::empty() =~= buffer_of(bufs, j));
        }
    } else {
        if j == k {
            assert forall|i: int| 0 <= i < bufs.len() implies #[trigger] bufs[i].0 != j by {}
            lemma_buffer_of_at(h, bufs.len() as int);
            assert(Seq::<ConsoleText>::empty() + seq![c] =~= seq![c]);
        } else {
            if exists|i: int| 0 <= i < bufs.len() && #[trigger] bufs[i].0 == j {
                let i = choose|i: int| 0 <= i < bufs.len() && #[trigger] bufs[i].0 == j;
                lemma_buffer_of_at(bufs, i);
                lemma_buffer_of_at(h, i);
            } else {
                assert forall|i: int| 0 <= i < h.len() implies #[trigger] h[i].0 != j by {
                    if i < bufs.len() {
                        assert(h[i] == bufs[i]);
                    }
                }
            }
            assert(buffer_of(bufs, j) + Seq::<ConsoleText>::empty() =~= buffer_of(bufs, j));
        }
    }
}

/// After writing out the buffers of `keys`, none of them holds anything.
proof fn lemma_flushed_empty(bufs: Buffers, keys: Seq<Seq<char>>, f: Seq<char>)
    requires
        keys_distinct(bufs),
        keys.contains(f),
    ensures
        buffer_of(flush_keys(bufs, keys).0, f).len() == 0,
{
    law_finished_output_is_released(bufs, keys);
    let b2 = flush_keys(bufs, keys).0;
    if exists|i: int| 0 <= i < b2.len() && #[trigger] b2[i].0 == f {
        let i = choose|i: int| 0 <= i < b2.len() && #[trigger] b2[i].0 == f;
        assert(bufs[i].0 == f);
    }
}

/// Each operation moves output between the buffers and the console piece
/// for piece, adding what it has a task write.
proof fn lemma_io_step_accounts(s: IoModel, t: Tagged, done: Set<Seq<char>>, op: IoOp, k: Seq<char>)
    requires
        io_inv(s, t, done),
        op matches IoOp::Print(j, _) ==> !done.contains(j),
    ensures
        texts_of(t + io_step(s, op).1, k) + buffer_of(io_step(s, op).0.bufs, k) == texts_of(t, k) + buffer_of(
            s.bufs,
            k,
        ) + printed_by(op, k),
{
    let (s2, o) = io_step(s, op);
    lemma_texts_of_append(t, o, k);
    let e = Seq::<ConsoleText>::empty();
    assert(texts_of(o, k) + buffer_of(s2.bufs, k) == buffer_of(s.bufs, k) + printed_by(op, k)) by {
        match op {
            IoOp::Print(j, c) => {
                if s.finished.contains(j) {
                    assert(done.contains(j));
                } else {
                    match s.active {
                        None => {
                            let f = flush_tagged(s.bufs, seq![j]);
                            assert(o.drop_last() =~= f);
                            assert(o.last() == (j, c));
                            lemma_flush_accounts(s.bufs, seq![j], k);
                            if j == k {
                                assert(seq![j].contains(k)) by {
                                    assert(seq![j][0] == k);
                                }
                                lemma_flushed_empty(s.bufs, seq![j], k);
                                assert(buffer_of(s2.bufs, k) =~= e);
                                assert(texts_of(f, k) + seq![c] + e =~= texts_of(f, k) + e + seq![c]);
                            } else {
                                assert(texts_of(f, k) + e + buffer_of(s2.bufs, k) =~= texts_of(f, k) + buffer_of(
                                    s2.bufs,
                                    k,
                                ));
                                assert(buffer_of(s.bufs, k) + e =~= buffer_of(s.bufs, k));
                            }
                        },
                        Some(a) => {
                            if a == j {
                                assert(o == seq![(j, c)]);
                                assert(s2 == s);
                                assert(o.drop_last() =~= Seq::<(Seq<char>, ConsoleText)>::empty());
                                assert(texts_of(o.drop_last(), k) == e);
                                assert(o.last() == (j, c));
                                assert(texts_of(o, k) =~= printed_by(op, k));
                                if j == k {
                                    assert(e + seq![c] + buffer_of(s.bufs, k) =~= buffer_of(s.bufs, k) + seq![c]) by {
                                        // the owner holds nothing back
                                        assert(has_key(t, k)) by {
                                            assert(t[t.len() - 1].0 == k);
                                        }
                                        if buffer_of(s.bufs, k).len() > 0 {
                                            let i = choose|i: int| 0 <= i < s.bufs.len() && #[trigger] s.bufs[i].0 == k;
                                            assert(s.bufs[i].1.len() > 0);
                                        }
                                        assert(buffer_of(s.bufs, k) =~= e);
                                    }
                                } else {
                                    assert(e + e + buffer_of(s.bufs, k) =~= buffer_of(s.bufs, k) + e);
                                }
                            } else {
                                assert(o =~= Seq::<(Seq<char>, ConsoleText)>::empty());
                                lemma_held_accounts(s.bufs, j, c, k);
                                assert(e + buffer_of(s2.bufs, k) =~= buffer_of(s2.bufs, k));
                            }
                        },
                    }
                }
            },
            IoOp::Finish(k0) => {
                if s.active == Some(k0) {
                    lemma_flush_accounts(s.bufs, seq![k0] + s.finished, k);
                } else if s.active is None {
                    lemma_flush_accounts(s.bufs, s.finished.push(k0), k);
                } else {
                    assert(o =~= Seq::<(Seq<char>, ConsoleText)>::empty());
                    assert(e + buffer_of(s.bufs, k) =~= buffer_of(s.bufs, k));
                }
                assert(buffer_of(s.bufs, k) + e =~= buffer_of(s.bufs, k));
            },
        }
    }
    assert(texts_of(t, k) + texts_of(o, k) + buffer_of(s2.bufs, k) =~= texts_of(t, k) + (texts_of(o, k) + buffer_of(
        s2.bufs,
        k,
    )));
    assert(texts_of(t, k) + (buffer_of(s.bufs, k) + printed_by(op, k)) =~= texts_of(t, k) + buffer_of(s.bufs, k)
        + printed_by(op, k));
}

/// Nothing stays held back that could have been written out: with nobody
/// owning the console, the finished tasks hold nothing back, and a task
/// finished while it owned the console holds nothing back.
pub open spec fn io_settled(s: IoModel, done: Set<Seq<char>>) -> bool {
    &&& (s.active is None ==> forall|f: Seq<char>| #[trigger] s.finished.contains(f) ==> buffer_of(s.bufs, f).len() == 0)
    &&& forall|k: Seq<char>| done.contains(k) && !s.finished.contains(k) ==> #[trigger] buffer_of(s.bufs, k).len() == 0
}

proof fn lemma_io_step_settled(s: IoModel, t: Tagged, done: Set<Seq<char>>, op: IoOp)
    requires
        io_inv(s, t, done),
        io_settled(s, done),
        op matches IoOp::Print(j, _) ==> !done.contains(j),
    ensures
        io_settled(io_step(s, op).0, next_done(done, op)),
{
    let (s2, o) = io_step(s, op);
    let d2 = next_done(done, op);
    assert forall|k: Seq<char>| printed_by(op, k).len() == 0 implies buffer_of(s2.bufs, k).len() <= buffer_of(
        s.bufs,
        k,
    ).len() by {
        lemma_io_step_accounts(s, t, done, op, k);
        lemma_texts_of_append(t, o, k);
        assert((texts_of(t, k) + texts_of(o, k) + buffer_of(s2.bufs, k)).len() == (texts_of(t, k) + buffer_of(
            s.bufs,
            k,
        ) + printed_by(op, k)).len());
    }
    match op {
        IoOp::Print(j, c) => {
            if s.finished.contains(j) {
                assert(done.contains(j));
            }
            assert(s2.active is Some);
            assert forall|k: Seq<char>| d2.contains(k) && !s2.finished.contains(k) implies #[trigger] buffer_of(
                s2.bufs,
                k,
            ).len() == 0 by {
                assert(k != j);
                assert(printed_by(op, k).len() == 0);
            }
        },
        IoOp::Finish(k0) => {
            if s.active == Some(k0) {
                let keys = seq![k0] + s.finished;
                assert forall|f: Seq<char>| #[trigger] s2.finished.contains(f) implies buffer_of(s2.bufs, f).len()
                    == 0 by {
                    let i = choose|i: int| 0 <= i < s.finished.len() && s.finished[i] == f;
                    assert(keys[i + 1] == f);
                    lemma_flushed_empty(s.bufs, keys, f);
                }
                assert forall|k: Seq<char>| d2.contains(k) && !s2.finished.contains(k) implies #[trigger] buffer_of(
                    s2.bufs,
                    k,
                ).len() == 0 by {
                    if k == k0 {
                        assert(keys[0] == k);
                        lemma_flushed_empty(s.bufs, keys, k);
                    } else {
                        assert(printed_by(op, k).len() == 0);
                    }
                }
            } else if s.active is None {
                let keys = s.finished.push(k0);
                assert forall|f: Seq<char>| #[trigger] s2.finished.contains(f) implies buffer_of(s2.bufs, f).len()
                    == 0 by {
                    lemma_flushed_empty(s.bufs, keys, f);
                }
                assert forall|k: Seq<char>| d2.contains(k) && !s2.finished.contains(k) implies #[trigger] buffer_of(
                    s2.bufs,
                    k,
                ).len() == 0 by {
                    assert(keys[keys.len() - 1] == k0);
                    assert(k != k0);
                    assert(printed_by(op, k).len() == 0);
                    if s.finished.contains(k) {
                        let i = choose|i: int| 0 <= i < s.finished.len() && s.finished[i] == k;
                        assert(keys[i] == k);
                    }
                }
            } else {
                assert forall|k: Seq<char>| d2.contains(k) && !s2.finished.contains(k) implies #[trigger] buffer_of(
                    s2.bufs,
                    k,
                ).len() == 0 by {
                    assert(s2.finished == s.finished.push(k0));
                    assert(s2.finished[s.finished.len() as int] == k0);
                    assert(k != k0);
                    if s.finished.contains(k) {
                        let i = choose|i: int| 0 <= i < s.finished.len() && s.finished[i] == k;
                        assert(s2.finished[i] == k);
                    }
                }
            }
        },
    }
}

proof fn lemma_io_run_accounts(ops: Seq<IoOp>)
    requires
        no_print_after_finish(ops),
    ensures
        io_settled(
            io_run(IoModel { bufs: seq![], finished: seq![], active: None }, ops).0,
            Set::new(|x: Seq<char>| finished_by(ops, x)),
        ),
        forall|k: Seq<char>|
            texts_of(io_run(IoModel { bufs: seq![], finished: seq![], active: None }, ops).1, k) + buffer_of(
                io_run(IoModel { bufs: seq![], finished: seq![], active: None }, ops).0.bufs,
                k,
            ) == #[trigger] printed(ops, k),
    decreases ops.len(),
{
    let s0 = IoModel { bufs: seq![], finished: seq![], active: None };
    lemma_io_run_inv(ops);
    if ops.len() == 0 {
        assert forall|k: Seq<char>| texts_of(io_run(s0, ops).1, k) + buffer_of(io_run(s0, ops).0.bufs, k) == #[trigger] printed(
            ops,
            k,
        ) by {
            assert(Seq::<ConsoleText>::empty() + Seq::<ConsoleText>::empty() =~= Seq::<ConsoleText>::empty());
        }
    } else {
        let prev = ops.drop_last();
        assert(no_print_after_finish(prev)) by {
            assert forall|i: int, j: int|
                0 <= i < j < prev.len() && (#[trigger] prev[i]) is Finish && (#[trigger] prev[j]) is Print implies prev[i]->Finish_0
                != prev[j]->Print_0 by {
                assert(prev[i] == ops[i] && prev[j] == ops[j]);
            }
        }
        lemma_io_run_inv(prev);
        lemma_io_run_accounts(prev);
        let (s1, o1) = io_run(s0, prev);
        let d1 = Set::new(|x: Seq<char>| finished_by(prev, x));
        let op = ops.last();
        if let IoOp::Print(k, _) = op {
            if d1.contains(k) {
                let i = choose|i: int| 0 <= i < prev.len() && #[trigger] prev[i] == IoOp::Finish(k);
                assert(ops[i] == prev[i]);
                assert(ops[ops.len() - 1] == op);
                assert(false);
            }
        }
        lemma_io_step_settled(s1, o1, d1, op);
        let d2 = next_done(d1, op);
        assert forall|x: Seq<char>| d2.contains(x) == finished_by(ops, x) by {
            if finished_by(prev, x) {
                let i = choose|i: int| 0 <= i < prev.len() && #[trigger] prev[i] == IoOp::Finish(x);
                assert(ops[i] == prev[i]);
            }
            if finished_by(ops, x) {
                let i = choose|i: int| 0 <= i < ops.len() && #[trigger] ops[i] == IoOp::Finish(x);
                if i < prev.len() {
                    assert(prev[i] == ops[i]);
                } else {
                    assert(ops[i] == op);
                }
            }
            if let IoOp::Finish(k) = op {
                if x == k {
                    assert(ops[ops.len() - 1] == IoOp::Finish(x));
                }
            }
        }
        assert(d2 =~= Set::new(|x: Seq<char>| finished_by(ops, x)));
        assert forall|k: Seq<char>| texts_of(io_run(s0, ops).1, k) + buffer_of(io_run(s0, ops).0.bufs, k) == #[trigger] printed(
            ops,
            k,
        ) by {
            lemma_io_step_accounts(s1, o1, d1, op, k);
            assert(printed(prev, k) == texts_of(o1, k) + buffer_of(s1.bufs, k));
        }
    }
}

/// No output is lost or repeated: from a fresh console, when no task writes
/// after it has finished and every task that writes finishes, what is
/// written out for a task is exactly what it wrote, in order.
pub proof fn law_each_task_output_is_written_whole(ops: Seq<IoOp>, k: Seq<char>)
    requires
        no_print_after_finish(ops),
        forall|j: Seq<char>| #[trigger] printed(ops, j).len() > 0 ==> finished_by(ops, j),
    ensures
        texts_of(io_run(IoModel { bufs: seq![], finished: seq![], active: None }, ops).1, k) == printed(ops, k),
{
    let s0 = IoModel { bufs: seq![], finished: seq![], active: None };
    lemma_io_run_inv(ops);
    lemma_io_run_accounts(ops);
    let (s, t) = io_run(s0, ops);
    let d = Set::new(|x: Seq<char>| finished_by(ops, x));
    assert(printed(ops, k) == texts_of(t, k) + buffer_of(s.bufs, k));
    if let Some(a) = s.active {
        assert(t.len() > 0 && t.last().0 == a);
        assert(texts_of(t, a).len() > 0);
        assert(printed(ops, a) == texts_of(t, a) + buffer_of(s.bufs, a));
        assert(finished_by(ops, a));
        assert(d.contains(a));
    }
    if buffer_of(s.bufs, k).len() > 0 {
        assert(printed(ops, k).len() > 0);
        assert(d.contains(k));
        if s.finished.contains(k) {
            assert(s.active is None);
        }
    }
    assert(texts_of(t, k) + buffer_of(s.bufs, k) =~= texts_of(t, k));
}

} // verus!
