//! Incremental S-expression parser.
//!
//! Text arrives in chunks that need not align with forms. The first `(`
//! opens an implicit outer list whose direct children are emitted one by one
//! as soon as each completes; a second top-level form is an error.
use vstd::prelude::*;

use crate::text::{
    chars_of, decimal_digits, i64_text, int_text, is_whitespace, is_ws, string_of, usize_text,
};

verus! {

/// A parsed S-expression.
#[derive(Debug, PartialEq)]
pub enum Value {
    Atom(String),
    I64(i64),
    String(String),
    List(Vec<Value>),
}

/// Mathematical form of a [`Value`].
pub enum SValue {
    Atom(Seq<char>),
    Int(int),
    Str(Seq<char>),
    List(Seq<SValue>),
}

impl Value {
    pub open spec fn view(self) -> SValue
        decreases self,
    {
        match self {
            Value::Atom(s) => SValue::Atom(s@),
            Value::I64(n) => SValue::Int(n as int),
            Value::String(s) => SValue::Str(s@),
            Value::List(v) => SValue::List(
                Seq::new(
                    v.len() as nat,
                    |i: int|
                        if 0 <= i < v.len() {
                            v[i].view()
                        } else {
                            SValue::Int(0)
                        },
                ),
            ),
        }
    }
}

pub open spec fn values_view(v: Seq<Value>) -> Seq<SValue> {
    v.map_values(|x: Value| x@)
}

pub proof fn lemma_list_view(v: Vec<Value>)
    ensures
        Value::List(v)@ == SValue::List(values_view(v@)),
{
    let l = Value::List(v);
    let inner = l@->List_0;
    assert(inner.len() == v.len());
    assert forall|i: int| 0 <= i < v.len() implies inner[i] == values_view(v@)[i] by {}
    assert(inner =~= values_view(v@));
}

/// Why a token that looks like an integer is not one.
#[derive(Debug, Clone, Copy, PartialEq, Eq)]
pub enum IntErrorKind {
    InvalidDigit,
    PosOverflow,
    NegOverflow,
}

/// Syntax errors of the parser.
#[derive(Debug, Clone, PartialEq)]
pub enum Error {
    UnmatchedCloseParen,
    UnterminatedString,
    UnclosedParens(usize),
    MultipleTopLevelForms,
    InvalidInteger(IntErrorKind),
}

impl IntErrorKind {
    pub open spec fn message_spec(&self) -> Seq<char> {
        match self {
            IntErrorKind::InvalidDigit => "invalid digit found in string"@,
            IntErrorKind::PosOverflow => "number too large to fit in target type"@,
            IntErrorKind::NegOverflow => "number too small to fit in target type"@,
        }
    }
}

impl Error {
    pub open spec fn message_spec(&self) -> Seq<char> {
        match self {
            Error::UnmatchedCloseParen => "unmatched closing parenthesis"@,
            Error::UnterminatedString => "unterminated string literal"@,
            Error::UnclosedParens(n) => "unclosed parentheses: "@ + decimal_digits(*n as nat)
                + " unclosed"@,
            Error::MultipleTopLevelForms => "multiple top-level forms not allowed"@,
            Error::InvalidInteger(k) => k.message_spec(),
        }
    }

    /// A human-readable description of the error.
    pub fn message(&self) -> (r: String)
        ensures
            r@ == self.message_spec(),
    {
        let v = match self {
            Error::UnmatchedCloseParen => chars_of("unmatched closing parenthesis"),
            Error::UnterminatedString => chars_of("unterminated string literal"),
            Error::UnclosedParens(n) => {
                let mut v = chars_of("unclosed parentheses: ");
                let count = usize_text(*n);
                let mut digits = chars_of(count.as_str());
                let mut tail = chars_of(" unclosed");
                v.append(&mut digits);
                v.append(&mut tail);
                v
            },
            Error::MultipleTopLevelForms => chars_of("multiple top-level forms not allowed"),
            Error::InvalidInteger(IntErrorKind::InvalidDigit) => chars_of(
                "invalid digit found in string",
            ),
            Error::InvalidInteger(IntErrorKind::PosOverflow) => chars_of(
                "number too large to fit in target type",
            ),
            Error::InvalidInteger(IntErrorKind::NegOverflow) => chars_of(
                "number too small to fit in target type",
            ),
        };
        string_of(&v)
    }
}

/// Mathematical state of a [`Parser`].
pub struct ParserModel {
    pub in_string: bool,
    pub escaped: bool,
    pub buf: Seq<char>,
    pub atom: Seq<char>,
    pub stack: Seq<Seq<SValue>>,
    pub output: Seq<SValue>,
    pub in_outer: bool,
}

pub open spec fn initial_model() -> ParserModel {
    ParserModel {
        in_string: false,
        escaped: false,
        buf: seq![],
        atom: seq![],
        stack: seq![],
        output: seq![],
        in_outer: false,
    }
}

pub open spec fn is_digit(c: char) -> bool {
    '0' <= c && c <= '9'
}

/// Reads the decimal digits of `s` from left to right, each step multiplying
/// by ten and adding (or, for a negative number, subtracting) the next digit;
/// the first non-digit or the first step that leaves the `i64` range fails.
pub open spec fn read_digits(s: Seq<char>, neg: bool) -> Result<int, IntErrorKind>
    decreases s.len(),
{
    if s.len() == 0 {
        Ok(0)
    } else {
        match read_digits(s.drop_last(), neg) {
            Err(k) => Err(k),
            Ok(v) => {
                let c = s.last();
                if !is_digit(c) {
                    Err(IntErrorKind::InvalidDigit)
                } else {
                    let w = if neg {
                        v * 10 - (c as int - 48)
                    } else {
                        v * 10 + (c as int - 48)
                    };
                    if w > i64::MAX {
                        Err(IntErrorKind::PosOverflow)
                    } else if w < i64::MIN {
                        Err(IntErrorKind::NegOverflow)
                    } else {
                        Ok(w)
                    }
                }
            },
        }
    }
}

/// The integer written by a token that starts with `-` or a digit.
pub open spec fn int_token(s: Seq<char>) -> Result<int, IntErrorKind> {
    if s.len() > 0 && s[0] == '-' {
        if s.len() == 1 {
            Err(IntErrorKind::InvalidDigit)
        } else {
            read_digits(s.drop_first(), true)
        }
    } else {
        read_digits(s, false)
    }
}

pub open spec fn unescape(c: char) -> char {
    if c == 'n' {
        '\n'
    } else if c == 't' {
        '\t'
    } else {
        c
    }
}

/// Where a completed value goes: straight to the output when it is a direct
/// child of the outer list (or stands outside any list), else into the list
/// being built.
pub open spec fn push_value(m: ParserModel, v: SValue) -> ParserModel {
    if m.stack.len() == 1 && m.in_outer {
        ParserModel { output: m.output.push(v), ..m }
    } else if m.stack.len() > 0 {
        ParserModel { stack: m.stack.update(m.stack.len() - 1, m.stack.last().push(v)), ..m }
    } else {
        ParserModel { output: m.output.push(v), ..m }
    }
}

/// Ends the pending atom, if any, turning it into an integer or an atom.
pub open spec fn flush_atom(m: ParserModel) -> Result<ParserModel, Error> {
    if m.atom.len() == 0 {
        Ok(m)
    } else {
        let cleared = ParserModel { atom: seq![], ..m };
        if m.atom[0] == '-' || is_digit(m.atom[0]) {
            match int_token(m.atom) {
                Ok(n) => Ok(push_value(cleared, SValue::Int(n))),
                Err(k) => Err(Error::InvalidInteger(k)),
            }
        } else {
            Ok(push_value(cleared, SValue::Atom(m.atom)))
        }
    }
}

/// The effect of one input character.
pub open spec fn step(m: ParserModel, c: char) -> Result<ParserModel, Error> {
    if m.in_string {
        if m.escaped {
            Ok(ParserModel { buf: m.buf.push(unescape(c)), escaped: false, ..m })
        } else if c == '\\' {
            Ok(ParserModel { escaped: true, ..m })
        } else if c == '"' {
            Ok(push_value(ParserModel { in_string: false, buf: seq![], ..m }, SValue::Str(m.buf)))
        } else {
            Ok(ParserModel { buf: m.buf.push(c), ..m })
        }
    } else if c == '"' {
        match flush_atom(m) {
            Ok(m1) => Ok(ParserModel { in_string: true, escaped: false, buf: seq![], ..m1 }),
            Err(e) => Err(e),
        }
    } else if c == '(' {
        match flush_atom(m) {
            Ok(m1) => if m1.stack.len() == 0 && m1.in_outer {
                Err(Error::MultipleTopLevelForms)
            } else {
                Ok(
                    ParserModel {
                        in_outer: if m1.stack.len() == 0 {
                            true
                        } else {
                            m1.in_outer
                        },
                        stack: m1.stack.push(seq![]),
                        ..m1
                    },
                )
            },
            Err(e) => Err(e),
        }
    } else if c == ')' {
        match flush_atom(m) {
            Ok(m1) => if m1.stack.len() == 0 {
                Err(Error::UnmatchedCloseParen)
            } else {
                let m2 = ParserModel { stack: m1.stack.drop_last(), ..m1 };
                if m2.stack.len() == 0 && m2.in_outer {
                    Ok(m2)
                } else {
                    Ok(push_value(m2, SValue::List(m1.stack.last())))
                }
            },
            Err(e) => Err(e),
        }
    } else if is_ws(c) {
        flush_atom(m)
    } else {
        Ok(ParserModel { atom: m.atom.push(c), ..m })
    }
}

/// The effect of a run of characters, stopping at the first error.
pub open spec fn run(m: ParserModel, s: Seq<char>) -> Result<ParserModel, Error>
    decreases s.len(),
{
    if s.len() == 0 {
        Ok(m)
    } else {
        match run(m, s.drop_last()) {
            Ok(m1) => step(m1, s.last()),
            Err(e) => Err(e),
        }
    }
}

/// End of input: the values still buffered, or the reason the input is incomplete.
pub open spec fn finish_model(m: ParserModel) -> Result<Seq<SValue>, Error> {
    match flush_atom(m) {
        Err(e) => Err(e),
        Ok(m1) => if m1.in_string {
            Err(Error::UnterminatedString)
        } else if m1.stack.len() > 0 {
            Err(Error::UnclosedParens(m1.stack.len() as usize))
        } else {
            Ok(m1.output)
        },
    }
}

/// The values that a whole text parses to.
pub open spec fn parse_text(s: Seq<char>) -> Result<Seq<SValue>, Error> {
    match run(initial_model(), s) {
        Ok(m) => finish_model(m),
        Err(e) => Err(e),
    }
}

/// Reads a token that starts with `-` or a digit as an `i64`.
fn parse_int(s: &Vec<char>) -> (r: Result<i64, IntErrorKind>)
    requires
        s.len() > 0,
    ensures
        match int_token(s@) {
            Ok(n) => r == Ok::<i64, IntErrorKind>(n as i64),
            Err(k) => r == Err::<i64, IntErrorKind>(k),
        },
{
    let neg = s[0] == '-';
    if neg && s.len() == 1 {
        return Err(IntErrorKind::InvalidDigit);
    }
    let start: usize = if neg {
        1
    } else {
        0
    };
    let ghost digits = if neg {
        s@.drop_first()
    } else {
        s@
    };
    assert(s@.subrange(start as int, start as int) =~= seq![]);
    assert(s@.subrange(start as int, s.len() as int) =~= digits);
    assert(int_token(s@) == read_digits(digits, neg));
    let mut acc: i64 = 0;
    let mut i: usize = start;
    while i < s.len()
        invariant
            start <= i <= s.len(),
            digits == s@.subrange(start as int, s.len() as int),
            int_token(s@) == read_digits(digits, neg),
            neg == (s@[0] == '-'),
            read_digits(s@.subrange(start as int, i as int), neg) == Ok::<int, IntErrorKind>(
                acc as int,
            ),
        decreases s.len() - i,
    {
        let c = s[i];
        assert(s@.subrange(start as int, i + 1).drop_last() =~= s@.subrange(
            start as int,
            i as int,
        ));
        assert(s@.subrange(start as int, i + 1).last() == c);
        assert(s@.subrange(start as int, s.len() as int).subrange(0, i - start + 1) =~= s@.subrange(
            start as int,
            i + 1,
        ));
        if !('0' <= c && c <= '9') {
            proof { lemma_read_digits_err(s@.subrange(start as int, s.len() as int), neg, (i - start) as int); }
            return Err(IntErrorKind::InvalidDigit);
        }
        let d = (c as u32 - 48) as i128;
        let w: i128 = if neg {
            acc as i128 * 10 - d
        } else {
            acc as i128 * 10 + d
        };
        assert(w == if neg {
            acc * 10 - (c as int - 48)
        } else {
            acc * 10 + (c as int - 48)
        });
        if w > i64::MAX as i128 {
            assert(read_digits(s@.subrange(start as int, i + 1), neg) == Err::<int, IntErrorKind>(IntErrorKind::PosOverflow));
            proof { lemma_read_digits_err(s@.subrange(start as int, s.len() as int), neg, (i - start) as int); }
            return Err(IntErrorKind::PosOverflow);
        }
        if w < i64::MIN as i128 {
            assert(read_digits(s@.subrange(start as int, i + 1), neg) == Err::<int, IntErrorKind>(IntErrorKind::NegOverflow));
            proof { lemma_read_digits_err(s@.subrange(start as int, s.len() as int), neg, (i - start) as int); }
            return Err(IntErrorKind::NegOverflow);
        }
        acc = w as i64;
        i = i + 1;
    }
    assert(s@.subrange(start as int, s.len() as int) =~= digits);
    Ok(acc)
}

/// Once reading a prefix fails, reading the whole fails the same way.
proof fn lemma_read_digits_err(s: Seq<char>, neg: bool, i: int)
    requires
        0 <= i < s.len(),
        read_digits(s.subrange(0, i + 1), neg) is Err,
    ensures
        read_digits(s, neg) == read_digits(s.subrange(0, i + 1), neg),
    decreases s.len(),
{
    if i + 1 == s.len() {
        assert(s.subrange(0, i + 1) =~= s);
    } else {
        assert(s.drop_last().subrange(0, i + 1) =~= s.subrange(0, i + 1));
        lemma_read_digits_err(s.drop_last(), neg, i);
    }
}

/// Incremental parser; see the module documentation.
#[derive(Debug)]
pub struct Parser {
    in_string: bool,
    escaped: bool,
    buf: Vec<char>,
    current_atom: Vec<char>,
    stack: Vec<Vec<Value>>,
    output: Vec<Value>,
    /// Whether the outer `(` has been opened and its children are streamed.
    in_outer_list: bool,
}

impl Parser {
    pub closed spec fn view(&self) -> ParserModel {
        ParserModel {
            in_string: self.in_string,
            escaped: self.escaped,
            buf: self.buf@,
            atom: self.current_atom@,
            stack: self.stack@.map_values(|l: Vec<Value>| values_view(l@)),
            output: values_view(self.output@),
            in_outer: self.in_outer_list,
        }
    }

    pub fn new() -> (r: Self)
        ensures
            r@ == initial_model(),
    {
        let r = Parser {
            in_string: false,
            escaped: false,
            buf: Vec::new(),
            current_atom: Vec::new(),
            stack: Vec::new(),
            output: Vec::new(),
            in_outer_list: false,
        };
        assert(r@.stack =~= seq![]);
        assert(r@.output =~= seq![]);
        r
    }

    fn push_value(&mut self, value: Value)
        ensures
            final(self)@ == push_value(old(self)@, value@),
    {
        let ghost old_m = self@;
        if self.stack.len() == 1 && self.in_outer_list {
            self.output.push(value);
            assert(self@.output =~= old_m.output.push(value@));
            assert(self@.stack =~= old_m.stack);
        } else if self.stack.len() > 0 {
            let mut top = self.stack.pop().unwrap();
            top.push(value);
            self.stack.push(top);
            assert(values_view(top@) =~= old_m.stack.last().push(value@));
            assert(self@.stack =~= old_m.stack.update(old_m.stack.len() - 1, old_m.stack.last().push(value@)));
        } else {
            self.output.push(value);
            assert(self@.output =~= old_m.output.push(value@));
            assert(self@.stack =~= old_m.stack);
        }
    }

    fn flush_atom(&mut self) -> (r: Result<(), Error>)
        ensures
            match flush_atom(old(self)@) {
                Ok(m) => r is Ok && final(self)@ == m,
                Err(e) => r == Err::<(), Error>(e),
            },
    {
        if self.current_atom.len() == 0 {
            return Ok(());
        }
        let first = self.current_atom[0];
        let mut atom: Vec<char> = Vec::new();
        std::mem::swap(&mut atom, &mut self.current_atom);
        if first == '-' || ('0' <= first && first <= '9') {
            match parse_int(&atom) {
                Ok(n) => {
                    self.push_value(Value::I64(n));
                    Ok(())
                },
                Err(k) => Err(Error::InvalidInteger(k)),
            }
        } else {
            let text = string_of(&atom);
            self.push_value(Value::Atom(text));
            Ok(())
        }
    }

    fn feed_char(&mut self, c: char) -> (r: Result<(), Error>)
        ensures
            match step(old(self)@, c) {
                Ok(m) => r is Ok && final(self)@ == m,
                Err(e) => r == Err::<(), Error>(e),
            },
    {
        if self.in_string {
            if self.escaped {
                let u = if c == 'n' {
                    '\n'
                } else if c == 't' {
                    '\t'
                } else {
                    c
                };
                self.buf.push(u);
                self.escaped = false;
            } else if c == '\\' {
                self.escaped = true;
            } else if c == '"' {
                let mut buf: Vec<char> = Vec::new();
                std::mem::swap(&mut buf, &mut self.buf);
                self.in_string = false;
                let text = string_of(&buf);
                self.push_value(Value::String(text));
            } else {
                self.buf.push(c);
            }
            Ok(())
        } else if c == '"' {
            self.flush_atom()?;
            self.in_string = true;
            self.escaped = false;
            self.buf = Vec::new();
            Ok(())
        } else if c == '(' {
            self.flush_atom()?;
            if self.stack.len() == 0 && self.in_outer_list {
                return Err(Error::MultipleTopLevelForms);
            }
            if self.stack.len() == 0 {
                self.in_outer_list = true;
            }
            let ghost before = self@;
            let fresh: Vec<Value> = Vec::new();
            assert(values_view(fresh@) =~= seq![]);
            self.stack.push(fresh);
            assert(self@.stack =~= before.stack.push(seq![]));
            Ok(())
        } else if c == ')' {
            self.flush_atom()?;
            let ghost before = self@;
            match self.stack.pop() {
                None => Err(Error::UnmatchedCloseParen),
                Some(list) => {
                    assert(self@.stack =~= before.stack.drop_last());
                    if self.stack.len() == 0 && self.in_outer_list {
                    } else {
                        proof { lemma_list_view(list); }
                        self.push_value(Value::List(list));
                    }
                    Ok(())
                },
            }
        } else if is_whitespace(c) {
            self.flush_atom()
        } else {
            self.current_atom.push(c);
            Ok(())
        }
    }

    /// Feeds a chunk of text; completed direct children of the outer list
    /// become available through [`Parser::drain_output`].
    pub fn take(&mut self, chunk: &str) -> (r: Result<(), Error>)
        ensures
            match run(old(self)@, chunk@) {
                Ok(m) => r is Ok && final(self)@ == m,
                Err(e) => r == Err::<(), Error>(e),
            },
    {
        let chars = chars_of(chunk);
        let ghost start = self@;
        let mut i: usize = 0;
        assert(chars@.take(0) =~= seq![]);
        while i < chars.len()
            invariant
                i <= chars.len(),
                chars@ == chunk@,
                start == old(self)@,
                run(start, chars@.take(i as int)) == Ok::<ParserModel, Error>(self@),
            decreases chars.len() - i,
        {
            assert(chars@.take(i + 1).drop_last() =~= chars@.take(i as int));
            assert(chars@.take(i + 1).last() == chars@[i as int]);
            assert(run(start, chars@.take(i + 1)) == step(self@, chars@[i as int]));
            let ghost old_m = self@;
            match self.feed_char(chars[i]) {
                Err(e) => {
                    proof { lemma_run_err_extends(start, chars@, i + 1); }
                    assert(run(start, chunk@) == step(old_m, chars@[i as int]));
                    return Err(e);
                },
                Ok(()) => {},
            }
            i = i + 1;
        }
        assert(chars@.take(i as int) =~= chunk@);
        Ok(())
    }

    /// Removes and returns the completed values, oldest first.
    pub fn drain_output(&mut self) -> (r: Vec<Value>)
        ensures
            values_view(r@) == old(self)@.output,
            final(self)@ == (ParserModel { output: seq![], ..old(self)@ }),
    {
        let mut out: Vec<Value> = Vec::new();
        std::mem::swap(&mut out, &mut self.output);
        assert(values_view(self.output@) =~= seq![]);
        out
    }

    /// Ends the input: flushes a trailing atom and reports an unterminated
    /// string or unclosed lists, else returns the values still buffered.
    pub fn finish(self) -> (r: Result<Vec<Value>, Error>)
        ensures
            match finish_model(self@) {
                Ok(vs) => r is Ok && values_view(r->Ok_0@) == vs,
                Err(e) => r is Err && r->Err_0 == e,
            },
    {
        let mut p = self;
        p.flush_atom()?;
        if p.in_string {
            return Err(Error::UnterminatedString);
        }
        if p.stack.len() > 0 {
            return Err(Error::UnclosedParens(p.stack.len()));
        }
        Ok(p.output)
    }
}

/// Once a prefix of the input fails, the whole input fails the same way.
proof fn lemma_run_err_extends(m: ParserModel, s: Seq<char>, i: int)
    requires
        0 < i <= s.len(),
        run(m, s.take(i)) is Err,
    ensures
        run(m, s) == run(m, s.take(i)),
    decreases s.len(),
{
    if i == s.len() {
        assert(s.take(i) =~= s);
    } else {
        assert(s.drop_last().take(i) =~= s.take(i));
        lemma_run_err_extends(m, s.drop_last(), i);
    }
}

/// Parses a complete text in one go.
pub fn parse_sexpr(input: &str) -> (r: Result<Vec<Value>, Error>)
    ensures
        match parse_text(input@) {
            Ok(vs) => r is Ok && values_view(r->Ok_0@) == vs,
            Err(e) => r is Err && r->Err_0 == e,
        },
{
    let mut parser = Parser::new();
    parser.take(input)?;
    parser.finish()
}

/// The texts of `chunks`, one after another.
pub open spec fn concat_chunks(chunks: Seq<Seq<char>>) -> Seq<char>
    decreases chunks.len(),
{
    if chunks.len() == 0 {
        seq![]
    } else {
        chunks[0] + concat_chunks(chunks.drop_first())
    }
}

pub open spec fn drained(m: ParserModel) -> ParserModel {
    ParserModel { output: seq![], ..m }
}

/// What a consumer collects when it feeds `chunks` one by one with
/// [`Parser::take`], drains the output after each, and then calls
/// [`Parser::finish`].
pub open spec fn parse_chunks(m: ParserModel, chunks: Seq<Seq<char>>) -> Result<
    Seq<SValue>,
    Error,
>
    decreases chunks.len(),
{
    if chunks.len() == 0 {
        finish_model(m)
    } else {
        match run(m, chunks[0]) {
            Err(e) => Err(e),
            Ok(m1) => match parse_chunks(drained(m1), chunks.drop_first()) {
                Ok(rest) => Ok(m1.output + rest),
                Err(e) => Err(e),
            },
        }
    }
}

proof fn lemma_run_append(m: ParserModel, a: Seq<char>, b: Seq<char>)
    ensures
        run(m, a + b) == match run(m, a) {
            Ok(m1) => run(m1, b),
            Err(e) => Err(e),
        },
    decreases b.len(),
{
    if b.len() == 0 {
        assert(a + b =~= a);
    } else {
        assert((a + b).drop_last() =~= a + b.drop_last());
        assert((a + b).last() == b.last());
        lemma_run_append(m, a, b.drop_last());
    }
}

pub open spec fn prepend(m: ParserModel, p: Seq<SValue>) -> ParserModel {
    ParserModel { output: p + m.output, ..m }
}

proof fn lemma_push_prepend(m: ParserModel, p: Seq<SValue>, v: SValue)
    ensures
        push_value(prepend(m, p), v) == prepend(push_value(m, v), p),
{
    assert((p + m.output).push(v) =~= p + m.output.push(v));
}

proof fn lemma_flush_prepend(m: ParserModel, p: Seq<SValue>)
    ensures
        flush_atom(prepend(m, p)) == match flush_atom(m) {
            Ok(m1) => Ok(prepend(m1, p)),
            Err(e) => Err(e),
        },
{
    let cleared = ParserModel { atom: seq![], ..m };
    assert(ParserModel { atom: seq![], ..prepend(m, p) } == prepend(cleared, p));
    if m.atom.len() > 0 {
        match int_token(m.atom) {
            Ok(n) => lemma_push_prepend(cleared, p, SValue::Int(n)),
            Err(_) => {},
        }
        lemma_push_prepend(cleared, p, SValue::Atom(m.atom));
    }
}

proof fn lemma_step_prepend(m: ParserModel, p: Seq<SValue>, c: char)
    ensures
        step(prepend(m, p), c) == match step(m, c) {
            Ok(m1) => Ok(prepend(m1, p)),
            Err(e) => Err(e),
        },
{
    lemma_flush_prepend(m, p);
    if m.in_string {
        lemma_push_prepend(ParserModel { in_string: false, buf: seq![], ..m }, p, SValue::Str(m.buf));
    } else {
        match flush_atom(m) {
            Ok(m1) => {
                if m1.stack.len() > 0 {
                    let m2 = ParserModel { stack: m1.stack.drop_last(), ..m1 };
                    lemma_push_prepend(m2, p, SValue::List(m1.stack.last()));
                }
            },
            Err(_) => {},
        }
    }
}

proof fn lemma_run_prepend(m: ParserModel, p: Seq<SValue>, s: Seq<char>)
    ensures
        run(prepend(m, p), s) == match run(m, s) {
            Ok(m1) => Ok(prepend(m1, p)),
            Err(e) => Err(e),
        },
    decreases s.len(),
{
    if s.len() > 0 {
        lemma_run_prepend(m, p, s.drop_last());
        match run(m, s.drop_last()) {
            Ok(m1) => lemma_step_prepend(m1, p, s.last()),
            Err(_) => {},
        }
    }
}

proof fn lemma_finish_prepend(m: ParserModel, p: Seq<SValue>)
    ensures
        finish_model(prepend(m, p)) == match finish_model(m) {
            Ok(o) => Ok(p + o),
            Err(e) => Err(e),
        },
{
    lemma_flush_prepend(m, p);
}

proof fn lemma_parse_chunks_from(m: ParserModel, chunks: Seq<Seq<char>>)
    ensures
        parse_chunks(m, chunks) == match run(m, concat_chunks(chunks)) {
            Ok(m1) => finish_model(m1),
            Err(e) => Err(e),
        },
    decreases chunks.len(),
{
    if chunks.len() > 0 {
        let rest = concat_chunks(chunks.drop_first());
        lemma_run_append(m, chunks[0], rest);
        match run(m, chunks[0]) {
            Ok(m1) => {
                let d = drained(m1);
                assert(prepend(d, m1.output) == m1) by {
                    assert(m1.output + seq![] =~= m1.output);
                }
                lemma_parse_chunks_from(d, chunks.drop_first());
                lemma_run_prepend(d, m1.output, rest);
                match run(d, rest) {
                    Ok(m2) => lemma_finish_prepend(m2, m1.output),
                    Err(_) => {},
                }
            },
            Err(_) => {},
        }
    }
}

/// Chunk independence: feeding a text in any number of pieces, draining the
/// completed values after each piece and finishing at the end, gives the same
/// values, in the same order, as parsing the whole text at once; and where
/// the text is malformed, the same error.
pub proof fn lemma_chunk_independence(chunks: Seq<Seq<char>>)
    ensures
        parse_chunks(initial_model(), chunks) == parse_text(concat_chunks(chunks)),
{
    lemma_parse_chunks_from(initial_model(), chunks);
}

impl Value {
    /// A copy of the whole value.
    pub fn deep_copy(&self) -> (r: Value)
        ensures
            r@ == self@,
        decreases self,
    {
        match self {
            Value::Atom(s) => Value::Atom(s.clone()),
            Value::I64(n) => Value::I64(*n),
            Value::String(s) => Value::String(s.clone()),
            Value::List(items) => {
                let mut out: Vec<Value> = Vec::new();
                let mut i: usize = 0;
                while i < items.len()
                    invariant
                        i <= items.len(),
                        out@.len() == i,
                        *self == Value::List(*items),
                        values_view(out@) == values_view(items@).take(i as int),
                    decreases items.len() - i,
                {
                    proof {
                        vstd::std_specs::vec::axiom_vec_index_decreases(*items, i as int);
                        assert(*self == Value::List(*items));
                        assert(decreases_to!(*self => self->List_0));
                        assert(decreases_to!(*self => items[i as int]));
                    }
                    let c = items[i].deep_copy();
                    let ghost before = out@;
                    out.push(c);
                    assert(values_view(out@) =~= values_view(items@).take(i + 1)) by {
                        assert(out@ =~= before.push(c));
                        assert forall|j: int| 0 <= j < i implies values_view(out@)[j] == values_view(
                            before,
                        )[j] by {}
                        assert(values_view(out@)[i as int] == c@);
                    }
                    i = i + 1;
                }
                assert(values_view(items@).take(i as int) =~= values_view(items@));
                proof {
                    lemma_list_view(out);
                    lemma_list_view(*items);
                }
                Value::List(out)
            },
        }
    }
}

impl Clone for Value {
    fn clone(&self) -> Self {
        self.deep_copy()
    }
}

/// The text of a value: atoms as they are, integers in decimal, strings
/// in double quotes, lists in parentheses with their items separated by
/// single spaces.
pub open spec fn value_text(v: SValue) -> Seq<char>
    decreases v,
{
    match v {
        SValue::Atom(s) => s,
        SValue::Int(n) => int_text(n),
        SValue::Str(s) => seq!['"'] + s + seq!['"'],
        SValue::List(items) => seq!['('] + items_text(items) + seq![')'],
    }
}

pub open spec fn items_text(items: Seq<SValue>) -> Seq<char>
    decreases items,
{
    if items.len() == 0 {
        seq![]
    } else if items.len() == 1 {
        value_text(items[0])
    } else {
        items_text(items.drop_last()) + seq![' '] + value_text(items.last())
    }
}

impl Value {
    /// The value as text; see [`value_text`].
    pub fn to_text(&self) -> (r: String)
        ensures
            r@ == value_text(self@),
        decreases self,
    {
        match self {
            Value::Atom(s) => s.clone(),
            Value::I64(n) => i64_text(*n),
            Value::String(s) => {
                let mut out = chars_of("\"");
                let mut body = chars_of(s.as_str());
                out.append(&mut body);
                out.push('"');
                proof { reveal_strlit("\""); }
                assert(out@ =~= value_text(self@));
                string_of(&out)
            },
            Value::List(items) => {
                proof { lemma_list_view(*items); }
                let ghost vs = values_view(items@);
                let mut out: Vec<char> = Vec::new();
                out.push('(');
                let mut i: usize = 0;
                assert(vs.take(0) =~= seq![]);
                while i < items.len()
                    invariant
                        i <= items.len(),
                        vs == values_view(items@),
                        *self == Value::List(*items),
                        out@ == seq!['('] + items_text(vs.take(i as int)),
                    decreases items.len() - i,
                {
                    proof {
                        vstd::std_specs::vec::axiom_vec_index_decreases(*items, i as int);
                        assert(decreases_to!(*self => self->List_0));
                        assert(decreases_to!(*self => items[i as int]));
                    }
                    if i > 0 {
                        out.push(' ');
                    }
                    let t = items[i].to_text();
                    let mut tc = chars_of(t.as_str());
                    out.append(&mut tc);
                    proof {
                        let p = vs.take(i + 1);
                        assert(p.drop_last() =~= vs.take(i as int));
                        assert(p.last() == items@[i as int]@);
                        if i == 0 {
                            assert(out@ =~= seq!['('] + items_text(p));
                        } else {
                            assert(out@ =~= seq!['('] + items_text(p));
                        }
                    }
                    i = i + 1;
                }
                out.push(')');
                assert(vs.take(i as int) =~= vs);
                assert(out@ =~= value_text(self@));
                string_of(&out)
            },
        }
    }
}

} // verus!
