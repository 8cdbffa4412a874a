use ledger_view::ledger::{
    command_text, is_sentinel, line_item, transaction_item, ActorEvent, ChannelClosed,
    CommandFrame, FrameStep, LedgerError, LedgerEvent, LineStream, SENTINEL,
};
use ledger_view::sexpr::{Error, Value};
use ledger_view::transactions::ParseTransactionError;

fn out(l: &str) -> ActorEvent {
    ActorEvent::Stdout(Some(l.to_string()))
}

fn err(l: &str) -> ActorEvent {
    ActorEvent::Stderr(Some(l.to_string()))
}

#[test]
fn command_text_adds_the_sentinel_echo() {
    assert_eq!(command_text("balance"), "balance\necho __END_OF_RESPONSE__\n");
    assert_eq!(command_text(""), "echo __END_OF_RESPONSE__\n");
}

#[test]
fn sentinel_lines() {
    assert!(is_sentinel(SENTINEL));
    assert!(is_sentinel("__END_OF_RESPONSE__\n"));
    assert!(!is_sentinel("__END_OF_RESPONSE__ \n"));
    assert!(!is_sentinel("x__END_OF_RESPONSE__"));
    assert!(!is_sentinel(""));
}

#[test]
fn stdout_only_succeeds_forwarding_lines() {
    let mut f = CommandFrame::new();
    assert_eq!(f.on_event(out("a\n")), FrameStep::Forward("a\n".into()));
    assert_eq!(f.on_event(out("b\n")), FrameStep::Forward("b\n".into()));
    assert!(!f.is_done());
    assert_eq!(f.on_event(out("__END_OF_RESPONSE__\n")), FrameStep::Finish(Ok(())));
    assert!(f.is_done());
}

#[test]
fn stderr_before_sentinel_fails_with_joined_text() {
    let mut f = CommandFrame::new();
    assert_eq!(f.on_event(out("a\n")), FrameStep::Forward("a\n".into()));
    assert_eq!(f.on_event(err("Error: bad\n")), FrameStep::Continue);
    assert_eq!(f.on_event(err("  more\n")), FrameStep::Continue);
    assert_eq!(f.on_event(out("b\n")), FrameStep::Forward("b\n".into()));
    assert_eq!(
        f.on_event(out("__END_OF_RESPONSE__\n")),
        FrameStep::Finish(Err(LedgerError::Stderr("Error: bad\n  more".into())))
    );
}

#[test]
fn dropped_consumer_drains_to_the_sentinel() {
    let mut f = CommandFrame::new();
    assert_eq!(f.on_event(out("a\n")), FrameStep::Forward("a\n".into()));
    assert_eq!(f.on_event(ActorEvent::ConsumerGone), FrameStep::Continue);
    assert_eq!(f.on_event(out("b\n")), FrameStep::Continue);
    assert_eq!(f.on_event(err("late\n")), FrameStep::Continue);
    assert_eq!(f.on_event(out("__END_OF_RESPONSE__\n")), FrameStep::Drained);
    assert!(f.is_done());
    assert_eq!(f.on_event(out("next\n")), FrameStep::Continue);
    let mut next = CommandFrame::new();
    assert_eq!(next.on_event(out("next\n")), FrameStep::Forward("next\n".into()));
    assert_eq!(next.on_event(out("__END_OF_RESPONSE__")), FrameStep::Finish(Ok(())));
}

#[test]
fn end_of_streams_and_failures() {
    let mut f = CommandFrame::new();
    assert_eq!(
        f.on_event(ActorEvent::Stdout(None)),
        FrameStep::Finish(Err(LedgerError::Io("stdout closed".into())))
    );
    let mut e = CommandFrame::new();
    e.on_event(out("partial\n"));
    e.on_event(err("oops\n"));
    assert!(matches!(e.on_event(ActorEvent::Stdout(None)), FrameStep::Finish(Err(LedgerError::Io(_)))));
    let mut g = CommandFrame::new();
    assert!(matches!(g.on_event(ActorEvent::Stderr(None)), FrameStep::Finish(Err(LedgerError::Io(_)))));
    let mut h = CommandFrame::new();
    h.on_event(err("oops\n"));
    assert_eq!(
        h.on_event(ActorEvent::Stderr(None)),
        FrameStep::Finish(Err(LedgerError::Stderr("oops".into())))
    );
    let mut k = CommandFrame::new();
    assert_eq!(
        k.on_event(ActorEvent::IoFailed("broken pipe".into())),
        FrameStep::Finish(Err(LedgerError::Io("broken pipe".into())))
    );
}

#[test]
fn line_items() {
    assert_eq!(line_item(Ok(LedgerEvent::Line("x".into()))), Some(Ok("x".into())));
    assert_eq!(line_item(Ok(LedgerEvent::Done(Ok(())))), None);
    assert_eq!(
        line_item(Ok(LedgerEvent::Done(Err(LedgerError::Stderr("e".into()))))),
        Some(Err(LedgerError::Stderr("e".into())))
    );
    assert!(matches!(line_item(Err(ChannelClosed)), Some(Err(LedgerError::Io(_)))));
}

fn collect(lines: &[&str]) -> Vec<Result<Value, LedgerError>> {
    let mut s = LineStream::from_events(()).sexpr();
    let mut out = Vec::new();
    let mut input = lines.iter();
    loop {
        match s.next_ready() {
            Some(Some(item)) => out.push(item),
            Some(None) => return out,
            None => {
                let item = input.next().map(|l| Ok(l.to_string()));
                if let Some(e) = s.on_input(item) {
                    out.push(e);
                }
            },
        }
    }
}

#[test]
fn sexp_stream_yields_each_record() {
    let items = collect(&["(", "(\"f\" 1", " \"2025-01-01\" nil \"d\")", "(x)", ")"]);
    assert_eq!(items.len(), 2);
    assert!(matches!(&items[1], Ok(Value::List(l)) if l.len() == 1));
    let t = transaction_item(Some(items[0].clone())).unwrap().unwrap();
    assert_eq!(t.line, 1);
    assert!(matches!(
        transaction_item(Some(items[1].clone())),
        Some(Err(LedgerError::Decode(ParseTransactionError::UnexpectedLength(5, 1))))
    ));
    assert_eq!(
        transaction_item(Some(Ok(Value::I64(3)))),
        Some(Err(LedgerError::NotAList(Value::I64(3))))
    );
}

#[test]
fn sexp_stream_reports_parse_errors() {
    let items = collect(&["(a", ")", ")"]);
    assert_eq!(items, vec![Ok(Value::Atom("a".into())), Err(LedgerError::Parse(Error::UnmatchedCloseParen))]);
    let unclosed = collect(&["(a (b"]);
    assert_eq!(unclosed, vec![Ok(Value::Atom("a".into())), Err(LedgerError::Parse(Error::UnclosedParens(2)))]);
}
