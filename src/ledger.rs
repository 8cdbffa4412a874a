//! The REPL session protocol.
//!
//! Each command is written to the tool followed by `echo ‹SENTINEL›`; its
//! response is the stdout lines up to the sentinel line. Stderr lines are
//! held back and decide, when the sentinel arrives, whether the command
//! failed. Stdout ending before the sentinel means the tool is gone: the
//! command fails with an I/O error, as does an empty stderr closing; a
//! stderr that closes after reporting something fails the command with that
//! report. The I/O itself is done by the caller, which hands every line it
//! reads to a [`CommandFrame`] and carries out the step it returns.
use vstd::prelude::*;

use crate::sexpr::{
    drained, finish_model, initial_model, run, values_view, Error, Parser, ParserModel, SValue, Value,
};
use crate::text::{chars_of, string_of, trim, trim_chars};
use crate::transactions::{transaction_spec, ParseTransactionError, Transaction};

verus! {

/// The token echoed after every command; a stdout line equal to it ends the response.
pub const SENTINEL: &'static str = "__END_OF_RESPONSE__";

/// The command the tool is asked for the structured transaction dump.
pub const TRANSACTIONS_COMMAND: &'static str = "lisp --lisp-date-format %Y-%m-%d";

/// How a command, or the reading of its response, failed.
#[derive(Debug, Clone, PartialEq)]
pub enum LedgerError {
    /// Reading from or writing to the tool failed; the session is over.
    Io(String),
    /// The tool reported these diagnostics for the command.
    Stderr(String),
    /// The response is not a well-formed S-expression.
    Parse(Error),
    /// A record of the response is not a transaction list.
    NotAList(Value),
    /// A transaction list does not decode.
    Decode(ParseTransactionError),
}

/// The session is no longer accepting commands.
#[derive(Debug, Clone, Copy, PartialEq, Eq)]
pub struct ChannelClosed;

/// What a consumer receives for a command: its output lines, then the outcome.
#[derive(Debug, PartialEq)]
pub enum LedgerEvent {
    Line(String),
    Done(Result<(), LedgerError>),
}

/// The text written to the tool for `cmd`: the command on its own line
/// (nothing where it is empty), then the request to echo the sentinel.
pub open spec fn command_text_spec(cmd: Seq<char>) -> Seq<char> {
    (if cmd.len() == 0 {
        seq![]
    } else {
        cmd + seq!['\n']
    }) + "echo "@ + SENTINEL@ + seq!['\n']
}

pub fn command_text(cmd: &str) -> (r: String)
    ensures
        r@ == command_text_spec(cmd@),
{
    let mut out: Vec<char> = Vec::new();
    if !cmd.is_empty() {
        out = chars_of(cmd);
        out.push('\n');
    }
    let mut echo = chars_of("echo ");
    let mut token = chars_of(SENTINEL);
    out.append(&mut echo);
    out.append(&mut token);
    out.push('\n');
    assert(out@ =~= command_text_spec(cmd@));
    string_of(&out)
}

/// Whether a stdout line (with or without its line break) is the sentinel.
pub open spec fn is_sentinel_spec(line: Seq<char>) -> bool {
    line == SENTINEL@ || line == SENTINEL@ + seq!['\n']
}

pub fn is_sentinel(line: &str) -> (r: bool)
    ensures
        r == is_sentinel_spec(line@),
{
    let chars = chars_of(line);
    let token = chars_of(SENTINEL);
    let n = chars.len();
    let body = if n > 0 && chars[n - 1] == '\n' {
        n - 1
    } else {
        n
    };
    if body != token.len() {
        proof {
            reveal_strlit("__END_OF_RESPONSE__");
            if line@ == SENTINEL@ + seq!['\n'] {
                assert(line@.last() == '\n');
            }
            if line@ == SENTINEL@ {
                assert(line@.last() == '_');
            }
        }
        return false;
    }
    let mut i: usize = 0;
    while i < body
        invariant
            i <= body <= chars.len(),
            body == token.len(),
            chars@ == line@,
            token@ == SENTINEL@,
            forall|j: int| 0 <= j < i ==> chars@[j] == token@[j],
        decreases body - i,
    {
        if chars[i] != token[i] {
            proof {
                if line@ == SENTINEL@ + seq!['\n'] {
                    assert((SENTINEL@ + seq!['\n'])[i as int] == token@[i as int]);
                }
            }
            return false;
        }
        i = i + 1;
    }
    proof {
        if body == n {
            assert(line@ =~= SENTINEL@);
        } else {
            assert(line@ =~= SENTINEL@ + seq!['\n']);
        }
    }
    true
}

/// What the caller observed while a command is in flight.
pub enum ActorEvent {
    /// A stdout line, or `None` at the end of stdout.
    Stdout(Option<String>),
    /// A stderr line, or `None` at the end of stderr.
    Stderr(Option<String>),
    /// Writing the command or reading a line failed, with the error's text.
    IoFailed(String),
    /// The consumer of the response stopped listening.
    ConsumerGone,
}

/// What the caller is to do next.
#[derive(Debug, PartialEq)]
pub enum FrameStep {
    /// Read the next line.
    Continue,
    /// Hand this line to the consumer, then read the next one.
    Forward(String),
    /// Hand this outcome to the consumer; the command is over.
    Finish(Result<(), LedgerError>),
    /// The command is over and nothing is to be sent.
    Drained,
}

pub enum EventModel {
    Stdout(Option<Seq<char>>),
    Stderr(Option<Seq<char>>),
    IoFailed(Seq<char>),
    ConsumerGone,
}

impl ActorEvent {
    pub open spec fn view(&self) -> EventModel {
        match self {
            ActorEvent::Stdout(l) => EventModel::Stdout(
                match l {
                    Some(s) => Some(s@),
                    None => None,
                },
            ),
            ActorEvent::Stderr(l) => EventModel::Stderr(
                match l {
                    Some(s) => Some(s@),
                    None => None,
                },
            ),
            ActorEvent::IoFailed(t) => EventModel::IoFailed(t@),
            ActorEvent::ConsumerGone => EventModel::ConsumerGone,
        }
    }
}

pub enum StepModel {
    Continue,
    Forward(Seq<char>),
    Succeed,
    FailStderr(Seq<char>),
    FailIo(Seq<char>),
    /// A finish with an error that framing never produces.
    FailOther,
    Drained,
}

impl FrameStep {
    pub open spec fn view(&self) -> StepModel {
        match self {
            FrameStep::Continue => StepModel::Continue,
            FrameStep::Forward(l) => StepModel::Forward(l@),
            FrameStep::Finish(Ok(())) => StepModel::Succeed,
            FrameStep::Finish(Err(LedgerError::Stderr(t))) => StepModel::FailStderr(t@),
            FrameStep::Finish(Err(LedgerError::Io(t))) => StepModel::FailIo(t@),
            FrameStep::Finish(Err(_)) => StepModel::FailOther,
            FrameStep::Drained => StepModel::Drained,
        }
    }
}

/// The framing state of one command: the stderr lines held back, whether
/// the consumer is gone (the rest of the response is then discarded), and
/// whether the command is over.
pub struct FrameModel {
    pub stderr: Seq<Seq<char>>,
    pub draining: bool,
    pub done: bool,
}

pub open spec fn fresh_frame() -> FrameModel {
    FrameModel { stderr: seq![], draining: false, done: false }
}

/// The lines one after another.
pub open spec fn concat_lines(lines: Seq<Seq<char>>) -> Seq<char>
    decreases lines.len(),
{
    if lines.len() == 0 {
        seq![]
    } else {
        concat_lines(lines.drop_last()) + lines.last()
    }
}

/// The outcome when the response ends: success where no stderr line was
/// held back, else the held-back text, joined and trimmed.
pub open spec fn outcome(f: FrameModel) -> StepModel {
    if f.stderr.len() == 0 {
        StepModel::Succeed
    } else {
        StepModel::FailStderr(trim(concat_lines(f.stderr)))
    }
}

pub open spec fn closed(f: FrameModel) -> FrameModel {
    FrameModel { done: true, ..f }
}

/// The effect of one event on the framing state, and the step it calls for.
pub open spec fn frame_step(f: FrameModel, e: EventModel) -> (FrameModel, StepModel) {
    if f.done {
        (f, StepModel::Continue)
    } else {
        match e {
            EventModel::ConsumerGone => (FrameModel { draining: true, ..f }, StepModel::Continue),
            EventModel::IoFailed(t) => (closed(f), StepModel::FailIo(t)),
            EventModel::Stdout(Some(line)) => if is_sentinel_spec(line) {
                (closed(f), if f.draining {
                    StepModel::Drained
                } else {
                    outcome(f)
                })
            } else if f.draining {
                (f, StepModel::Continue)
            } else {
                (f, StepModel::Forward(line))
            },
            EventModel::Stdout(None) => (closed(f), if f.draining {
                StepModel::Drained
            } else {
                StepModel::FailIo("stdout closed"@)
            }),
            EventModel::Stderr(Some(line)) => if f.draining {
                (f, StepModel::Continue)
            } else {
                (FrameModel { stderr: f.stderr.push(line), ..f }, StepModel::Continue)
            },
            EventModel::Stderr(None) => (closed(f), if f.draining {
                StepModel::Drained
            } else if f.stderr.len() == 0 {
                StepModel::FailIo("stderr closed"@)
            } else {
                outcome(f)
            }),
        }
    }
}

/// Framing of the response to one command; see the module documentation.
pub struct CommandFrame {
    stderr_lines: Vec<String>,
    draining: bool,
    done: bool,
}

impl CommandFrame {
    pub closed spec fn view(&self) -> FrameModel {
        FrameModel {
            stderr: self.stderr_lines@.map_values(|s: String| s@),
            draining: self.draining,
            done: self.done,
        }
    }

    pub fn new() -> (r: Self)
        ensures
            r@ == fresh_frame(),
    {
        let r = CommandFrame { stderr_lines: Vec::new(), draining: false, done: false };
        assert(r@.stderr =~= seq![]);
        r
    }

    /// Whether the command is over.
    pub fn is_done(&self) -> (r: bool)
        ensures
            r == self@.done,
    {
        self.done
    }

    fn joined_stderr(&self) -> (r: String)
        ensures
            r@ == trim(concat_lines(self@.stderr)),
    {
        let ghost ls = self@.stderr;
        let mut all: Vec<char> = Vec::new();
        let mut i: usize = 0;
        assert(ls.take(0) =~= seq![]);
        while i < self.stderr_lines.len()
            invariant
                i <= self.stderr_lines.len(),
                ls == self@.stderr,
                all@ == concat_lines(ls.take(i as int)),
            decreases self.stderr_lines.len() - i,
        {
            let mut piece = chars_of(self.stderr_lines[i].as_str());
            all.append(&mut piece);
            assert(ls.take(i + 1).drop_last() =~= ls.take(i as int));
            i = i + 1;
        }
        assert(ls.take(i as int) =~= ls);
        let t = trim_chars(&all);
        string_of(&t)
    }

    fn finish_outcome(&self) -> (r: FrameStep)
        ensures
            r@ == outcome(self@),
    {
        if self.stderr_lines.len() == 0 {
            FrameStep::Finish(Ok(()))
        } else {
            FrameStep::Finish(Err(LedgerError::Stderr(self.joined_stderr())))
        }
    }

    /// Takes one event of the command in flight and says what to do next.
    pub fn on_event(&mut self, event: ActorEvent) -> (r: FrameStep)
        ensures
            (final(self)@, r@) == frame_step(old(self)@, event@),
    {
        if self.done {
            return FrameStep::Continue;
        }
        match event {
            ActorEvent::ConsumerGone => {
                self.draining = true;
                FrameStep::Continue
            },
            ActorEvent::IoFailed(t) => {
                self.done = true;
                FrameStep::Finish(Err(LedgerError::Io(t)))
            },
            ActorEvent::Stdout(Some(line)) => {
                if is_sentinel(line.as_str()) {
                    let step = if self.draining {
                        FrameStep::Drained
                    } else {
                        self.finish_outcome()
                    };
                    self.done = true;
                    step
                } else if self.draining {
                    FrameStep::Continue
                } else {
                    FrameStep::Forward(line)
                }
            },
            ActorEvent::Stdout(None) => {
                let step = if self.draining {
                    FrameStep::Drained
                } else {
                    FrameStep::Finish(Err(LedgerError::Io(string_of(&chars_of("stdout closed")))))
                };
                self.done = true;
                step
            },
            ActorEvent::Stderr(Some(line)) => {
                if !self.draining {
                    let ghost before = self.stderr_lines@;
                    let ghost l = line@;
                    self.stderr_lines.push(line);
                    assert(self@.stderr =~= before.map_values(|s: String| s@).push(l));
                }
                FrameStep::Continue
            },
            ActorEvent::Stderr(None) => {
                let step = if self.draining {
                    FrameStep::Drained
                } else if self.stderr_lines.len() == 0 {
                    FrameStep::Finish(Err(LedgerError::Io(string_of(&chars_of("stderr closed")))))
                } else {
                    self.finish_outcome()
                };
                self.done = true;
                step
            },
        }
    }
}

/// The frame after a run of events, and the steps called for, in order.
pub open spec fn run_frame(f: FrameModel, es: Seq<EventModel>) -> (FrameModel, Seq<StepModel>)
    decreases es.len(),
{
    if es.len() == 0 {
        (f, seq![])
    } else {
        let (f1, out) = run_frame(f, es.drop_last());
        let (f2, s) = frame_step(f1, es.last());
        (f2, out.push(s))
    }
}

/// An output line of the command in flight: a stdout line other than the
/// sentinel, or a stderr line.
pub open spec fn is_output_line(e: EventModel) -> bool {
    match e {
        EventModel::Stdout(Some(l)) => !is_sentinel_spec(l),
        EventModel::Stderr(Some(_)) => true,
        _ => false,
    }
}

/// The stderr lines among `es`, in order.
pub open spec fn stderr_lines(es: Seq<EventModel>) -> Seq<Seq<char>>
    decreases es.len(),
{
    if es.len() == 0 {
        seq![]
    } else {
        match es.last() {
            EventModel::Stderr(Some(l)) => stderr_lines(es.drop_last()).push(l),
            _ => stderr_lines(es.drop_last()),
        }
    }
}

/// One step per event: stdout lines are forwarded, the rest wait.
pub open spec fn forwarded(es: Seq<EventModel>) -> Seq<StepModel> {
    es.map_values(
        |e: EventModel|
            match e {
                EventModel::Stdout(Some(l)) => StepModel::Forward(l),
                _ => StepModel::Continue,
            },
    )
}

proof fn lemma_output_lines(es: Seq<EventModel>)
    requires
        forall|i: int| 0 <= i < es.len() ==> is_output_line(es[i]),
    ensures
        run_frame(fresh_frame(), es) == (
            FrameModel { stderr: stderr_lines(es), draining: false, done: false },
            forwarded(es),
        ),
    decreases es.len(),
{
    if es.len() > 0 {
        let p = es.drop_last();
        assert forall|i: int| 0 <= i < p.len() implies is_output_line(p[i]) by {
            assert(p[i] == es[i]);
        }
        lemma_output_lines(p);
        assert(forwarded(es) =~= forwarded(p).push(forwarded(es).last()));
        assert(is_output_line(es[es.len() - 1]));
    }
}

/// Response framing: while a command runs, every stdout line is forwarded
/// at once and in order, and stderr lines are held back; at the sentinel the
/// command succeeds where no stderr line came, and otherwise fails with the
/// stderr lines joined and trimmed.
pub proof fn lemma_response_framing(es: Seq<EventModel>)
    requires
        forall|i: int| 0 <= i < es.len() ==> is_output_line(es[i]),
    ensures
        run_frame(fresh_frame(), es.push(EventModel::Stdout(Some(SENTINEL@)))) == (
            FrameModel { stderr: stderr_lines(es), draining: false, done: true },
            forwarded(es).push(
                if stderr_lines(es).len() == 0 {
                    StepModel::Succeed
                } else {
                    StepModel::FailStderr(trim(concat_lines(stderr_lines(es))))
                },
            ),
        ),
{
    let all = es.push(EventModel::Stdout(Some(SENTINEL@)));
    assert(all.drop_last() =~= es);
    lemma_output_lines(es);
}

/// Events of a command after its consumer is gone: output lines only.
proof fn lemma_draining(f: FrameModel, es: Seq<EventModel>)
    requires
        f.draining,
        !f.done,
        forall|i: int| 0 <= i < es.len() ==> is_output_line(es[i]),
    ensures
        run_frame(f, es) == (f, Seq::new(es.len(), |i: int| StepModel::Continue)),
    decreases es.len(),
{
    if es.len() > 0 {
        let p = es.drop_last();
        assert forall|i: int| 0 <= i < p.len() implies is_output_line(p[i]) by {
            assert(p[i] == es[i]);
        }
        lemma_draining(f, p);
        assert(is_output_line(es[es.len() - 1]));
        assert(Seq::new(p.len(), |i: int| StepModel::Continue).push(StepModel::Continue)
            =~= Seq::new(es.len(), |i: int| StepModel::Continue));
    }
}

proof fn lemma_run_frame_append(f: FrameModel, a: Seq<EventModel>, b: Seq<EventModel>)
    ensures
        run_frame(f, a + b) == (
            run_frame(run_frame(f, a).0, b).0,
            run_frame(f, a).1 + run_frame(run_frame(f, a).0, b).1,
        ),
    decreases b.len(),
{
    if b.len() == 0 {
        assert(a + b =~= a);
        assert(run_frame(f, a).1 + seq![] =~= run_frame(f, a).1);
    } else {
        assert((a + b).drop_last() =~= a + b.drop_last());
        assert((a + b).last() == b.last());
        lemma_run_frame_append(f, a, b.drop_last());
        let g = run_frame(f, a).0;
        let (g1, o1) = run_frame(g, b.drop_last());
        let (g2, s2) = frame_step(g1, b.last());
        assert(run_frame(f, a).1 + o1.push(s2) =~= (run_frame(f, a).1 + o1).push(s2));
    }
}

/// An abandoned consumer: once the consumer of a response is gone, the rest
/// of that response is read and discarded (nothing more is sent for it),
/// and the frame ends exactly at the response's sentinel, so the next
/// command starts from a fresh frame on the next line.
pub proof fn lemma_abandoned_consumer(before: Seq<EventModel>, after: Seq<EventModel>)
    requires
        forall|i: int| 0 <= i < before.len() ==> is_output_line(before[i]),
        forall|i: int| 0 <= i < after.len() ==> is_output_line(after[i]),
    ensures
        ({
            let es = before + seq![EventModel::ConsumerGone] + after + seq![
                EventModel::Stdout(Some(SENTINEL@)),
            ];
            run_frame(fresh_frame(), es) == (
                FrameModel { stderr: stderr_lines(before), draining: true, done: true },
                forwarded(before) + seq![StepModel::Continue] + Seq::new(
                    after.len(),
                    |i: int| StepModel::Continue,
                ) + seq![StepModel::Drained],
            )
        }),
{
    let gone = seq![EventModel::ConsumerGone];
    let end = seq![EventModel::Stdout(Some(SENTINEL@))];
    lemma_output_lines(before);
    let f0 = FrameModel { stderr: stderr_lines(before), draining: false, done: false };
    let f1 = FrameModel { draining: true, ..f0 };
    assert(gone.drop_last() =~= Seq::<EventModel>::empty());
    assert(run_frame(f0, Seq::<EventModel>::empty()) == (f0, Seq::<StepModel>::empty()));
    assert(Seq::<StepModel>::empty().push(StepModel::Continue) =~= seq![StepModel::Continue]);
    assert(run_frame(f0, gone) == (f1, seq![StepModel::Continue]));
    lemma_draining(f1, after);
    assert(end.drop_last() =~= Seq::<EventModel>::empty());
    assert(run_frame(f1, Seq::<EventModel>::empty()) == (f1, Seq::<StepModel>::empty()));
    assert(Seq::<StepModel>::empty().push(StepModel::Drained) =~= seq![StepModel::Drained]);
    assert(run_frame(f1, end) == (closed(f1), seq![StepModel::Drained]));
    lemma_run_frame_append(f1, after, end);
    lemma_run_frame_append(f0, gone, after + end);
    lemma_run_frame_append(fresh_frame(), before, gone + (after + end));
    assert(before + gone + after + end =~= before + (gone + (after + end)));
    assert(forwarded(before) + seq![StepModel::Continue] + Seq::new(
        after.len(),
        |i: int| StepModel::Continue,
    ) + seq![StepModel::Drained] =~= forwarded(before) + (seq![StepModel::Continue] + (Seq::new(
        after.len(),
        |i: int| StepModel::Continue,
    ) + seq![StepModel::Drained])));
}

/// A finished frame ignores whatever else it is given.
pub proof fn lemma_done_frame_inert(f: FrameModel, es: Seq<EventModel>)
    requires
        f.done,
    ensures
        run_frame(f, es).0 == f,
        forall|i: int| 0 <= i < es.len() ==> run_frame(f, es).1[i] == StepModel::Continue,
        run_frame(f, es).1.len() == es.len(),
    decreases es.len(),
{
    if es.len() > 0 {
        lemma_done_frame_inert(f, es.drop_last());
    }
}

/// What a line stream yields for an event received for its command: a
/// line; the end (success); the error; or, where the session closed the
/// channel, an I/O error.
pub fn line_item(event: Result<LedgerEvent, ChannelClosed>) -> (r: Option<Result<String, LedgerError>>)
    ensures
        match event {
            Ok(LedgerEvent::Line(l)) => r == Some(Ok::<String, LedgerError>(l)),
            Ok(LedgerEvent::Done(Ok(()))) => r is None,
            Ok(LedgerEvent::Done(Err(e))) => r == Some(Err::<String, LedgerError>(e)),
            Err(_) => r is Some && r->0 is Err && r->0->Err_0 is Io,
        },
{
    match event {
        Ok(LedgerEvent::Line(l)) => Some(Ok(l)),
        Ok(LedgerEvent::Done(Ok(()))) => None,
        Ok(LedgerEvent::Done(Err(e))) => Some(Err(e)),
        Err(_) => Some(Err(LedgerError::Io(string_of(&chars_of("channel closed"))))),
    }
}

/// The output lines of one command, received from the session over `rx`.
pub struct LineStream<R> {
    pub rx: R,
}

impl<R> LineStream<R> {
    pub fn from_events(rx: R) -> (r: Self)
        ensures
            r.rx == rx,
    {
        LineStream { rx }
    }

    /// The S-expression values that the lines spell.
    pub fn sexpr(self) -> (r: SexpStream<Self>)
        ensures
            r.source() == self,
            r@ == (SexpModel { parser: initial_model(), pending: seq![], finished: false }),
    {
        SexpStream::new(self)
    }
}

pub struct SexpModel {
    pub parser: ParserModel,
    pub pending: Seq<SValue>,
    pub finished: bool,
}

/// Feeds the lines of `inner` through a [`Parser`] and yields the values
/// it completes, in order.
pub struct SexpStream<S> {
    pub inner: S,
    parser: Parser,
    pending: Vec<Value>,
    finished: bool,
}

impl<S> SexpStream<S> {
    /// The stream of lines being read.
    pub closed spec fn source(&self) -> S {
        self.inner
    }

    pub closed spec fn view(&self) -> SexpModel {
        SexpModel {
            parser: self.parser@,
            pending: values_view(self.pending@),
            finished: self.finished,
        }
    }

    pub fn new(inner: S) -> (r: Self)
        ensures
            r.source() == inner,
            r@ == (SexpModel { parser: initial_model(), pending: seq![], finished: false }),
    {
        let r = SexpStream { inner, parser: Parser::new(), pending: Vec::new(), finished: false };
        assert(r@.pending =~= seq![]);
        r
    }

    /// The transactions that the values decode to.
    pub fn transactions(self) -> (r: TransactionStream<S>)
        ensures
            r.inner == self,
    {
        TransactionStream::new(self)
    }

    /// What can be yielded without reading `inner`: the oldest completed
    /// value; the end, once the input is over and every value was yielded;
    /// or `None`, where the next item of `inner` is needed.
    pub fn next_ready(&mut self) -> (r: Option<Option<Result<Value, LedgerError>>>)
        ensures
            old(self)@.pending.len() > 0 ==> r is Some && r->0 is Some && r->0->0 is Ok
                && r->0->0->Ok_0@ == old(self)@.pending[0] && final(self)@ == (SexpModel {
                pending: old(self)@.pending.drop_first(),
                ..old(self)@
            }),
            old(self)@.pending.len() == 0 ==> final(self)@ == old(self)@ && (r is Some
                <==> old(self)@.finished) && (r is Some ==> r->0 is None),
            final(self).source() == old(self).source(),
    {
        if self.pending.len() > 0 {
            let ghost before = self.pending@;
            let v = self.pending.remove(0);
            assert(values_view(self.pending@) =~= values_view(before).drop_first());
            Some(Some(Ok(v)))
        } else if self.finished {
            Some(None)
        } else {
            None
        }
    }

    /// Takes the next item of `inner`: a line is fed to the parser and the
    /// values it completes are queued; the end of the lines finishes the
    /// parser and queues what remains. A parse error, or an error of
    /// `inner`, is returned to be yielded, and ends the stream.
    pub fn on_input(&mut self, item: Option<Result<String, LedgerError>>) -> (r: Option<
        Result<Value, LedgerError>,
    >)
        ensures
            final(self).source() == old(self).source(),
            match item {
                Some(Ok(line)) => match run(old(self)@.parser, line@) {
                    Ok(m) => r is None && final(self)@ == (SexpModel {
                        parser: drained(m),
                        pending: old(self)@.pending + m.output,
                        finished: old(self)@.finished,
                    }),
                    Err(e) => r == Some(Err::<Value, LedgerError>(LedgerError::Parse(e)))
                        && final(self)@.finished && final(self)@.pending == old(self)@.pending,
                },
                Some(Err(e)) => r == Some(Err::<Value, LedgerError>(e)) && final(self)@.finished
                    && final(self)@.pending == old(self)@.pending,
                None => final(self)@.finished && match finish_model(old(self)@.parser) {
                    Ok(vs) => r is None && final(self)@.pending == old(self)@.pending + vs,
                    Err(e) => r == Some(Err::<Value, LedgerError>(LedgerError::Parse(e)))
                        && final(self)@.pending == old(self)@.pending,
                },
            },
    {
        match item {
            Some(Ok(line)) => match self.parser.take(line.as_str()) {
                Ok(()) => {
                    let ghost before = self.pending@;
                    let mut done = self.parser.drain_output();
                    let ghost d = done@;
                    self.pending.append(&mut done);
                    assert(values_view(self.pending@) =~= values_view(before) + values_view(d));
                    None
                },
                Err(e) => {
                    self.finished = true;
                    Some(Err(LedgerError::Parse(e)))
                },
            },
            Some(Err(e)) => {
                self.finished = true;
                Some(Err(e))
            },
            None => {
                self.finished = true;
                let mut parser = Parser::new();
                std::mem::swap(&mut parser, &mut self.parser);
                match parser.finish() {
                    Ok(values) => {
                        let ghost before = self.pending@;
                        let ghost d = values@;
                        let mut rest = values;
                        self.pending.append(&mut rest);
                        assert(values_view(self.pending@) =~= values_view(before) + values_view(d));
                        None
                    },
                    Err(e) => Some(Err(LedgerError::Parse(e))),
                }
            },
        }
    }
}

/// Decodes each value of a [`SexpStream`] as a transaction.
pub struct TransactionStream<S> {
    pub inner: SexpStream<S>,
}

impl<S> TransactionStream<S> {
    pub fn new(inner: SexpStream<S>) -> (r: Self)
        ensures
            r.inner == inner,
    {
        TransactionStream { inner }
    }
}

/// What a transaction stream yields for an item of its value stream: the
/// decoded transaction, or why the value is not one; errors and the end
/// pass through.
pub fn transaction_item(item: Option<Result<Value, LedgerError>>) -> (r: Option<
    Result<Transaction, LedgerError>,
>)
    ensures
        match item {
            None => r is None,
            Some(Err(e)) => r == Some(Err::<Transaction, LedgerError>(e)),
            Some(Ok(Value::List(l))) => r is Some && match transaction_spec(values_view(l@)) {
                Ok(t) => r->0 is Ok && r->0->Ok_0@ == t,
                Err(f) => r->0 is Err && r->0->Err_0 is Decode && r->0->Err_0->Decode_0@ == f,
            },
            Some(Ok(v)) => r == Some(Err::<Transaction, LedgerError>(LedgerError::NotAList(v))),
        },
{
    match item {
        None => None,
        Some(Err(e)) => Some(Err(e)),
        Some(Ok(Value::List(l))) => {
            assert(crate::transactions::slice_values(l@) =~= values_view(l@));
            match Transaction::from_sexpr(l.as_slice()) {
                Ok(t) => Some(Ok(t)),
                Err(e) => Some(Err(LedgerError::Decode(e))),
            }
        },
        Some(Ok(v)) => Some(Err(LedgerError::NotAList(v))),
    }
}

} // verus!
