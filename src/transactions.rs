//! Decoding of the accounting tool's transaction records.
//!
//! A transaction is a list `(file line date _ description posting...)`; a
//! posting is a list `(_ account amount _ [note])`; an amount is text such as
//! `-20.48 GEL {3.6041025641 SEK} [2025/12/03]`.
use vstd::prelude::*;

use crate::accounts::{account_segments, Account};
use crate::decimal::{
    chrono_date, chrono_epoch_date, chrono_epoch_day, chrono_parse, decimal_of, fastnum_parse, has_exponent, parse_decimal, plain_decimal, plain_number, Date, Decimal,
    DecimalError,
};
use crate::sexpr::{SValue, Value};
use crate::text::{
    chars_of, find_char, find_in, join_chars, join_with, lemma_find_char_bound, remove_char,
    split_words, string_of, strip_char, strip_chars, sub_chars, trim, trim_chars, without_char,
    words,
};

verus! {

/// A decimal value with its commodity (possibly empty).
#[derive(Debug, Clone, PartialEq, Eq)]
pub struct CurrencyAmount {
    pub value: Decimal,
    pub commodity: String,
}

pub struct CurrencyModel {
    pub value: Decimal,
    pub commodity: Seq<char>,
}

impl CurrencyAmount {
    pub open spec fn view(&self) -> CurrencyModel {
        CurrencyModel { value: self.value, commodity: self.commodity@ }
    }
}

/// Why an amount text cannot be read.
#[derive(Debug, Clone, PartialEq, Eq)]
pub enum ParseAmounError {
    InvalidDecimal(String),
    InvalidFormat,
}

pub enum AmountFault {
    Decimal(Seq<char>),
    Format,
}

impl ParseAmounError {
    pub open spec fn view(&self) -> AmountFault {
        match self {
            ParseAmounError::InvalidDecimal(m) => AmountFault::Decimal(m@),
            ParseAmounError::InvalidFormat => AmountFault::Format,
        }
    }
}

/// The message given for a number that does not parse.
pub open spec fn decimal_error_text(s: Seq<char>) -> Seq<char> {
    if has_exponent(s) {
        "exponent not accepted"@
    } else if s.len() > i32::MAX {
        "number too long"@
    } else {
        match fastnum_parse(s) {
            Err(t) => t,
            Ok(_) => "not a finite number"@,
        }
    }
}

/// `‹number› ‹commodity…›`: the first word, without thousands separators,
/// is the number; the remaining words, joined by single spaces and without
/// surrounding double quotes, are the commodity.
pub open spec fn currency_spec(s: Seq<char>) -> Result<CurrencyModel, AmountFault> {
    let ws = words(s);
    if ws.len() == 0 {
        Err(AmountFault::Format)
    } else {
        let num = without_char(ws[0], ',');
        match decimal_of(num) {
            None => Err(AmountFault::Decimal(decimal_error_text(num))),
            Some(d) => Ok(
                CurrencyModel {
                    value: d,
                    commodity: if ws.len() == 1 {
                        seq![]
                    } else {
                        strip_char(join_with(ws.drop_first(), ' '), '"')
                    },
                },
            ),
        }
    }
}

/// `s` is a plain number (thousands separators allowed) and one commodity
/// word without double quotes.
pub open spec fn plain_amount(s: Seq<char>) -> bool {
    let ws = words(s);
    &&& ws.len() == 2
    &&& plain_number(without_char(ws[0], ','))
    &&& forall|i: int| 0 <= i < ws[1].len() ==> ws[1][i] != '"'
}

fn parse_currency_chars(s: &Vec<char>) -> (r: Result<CurrencyAmount, ParseAmounError>)
    ensures
        plain_amount(s@) ==> r is Ok && r->Ok_0.value == plain_decimal(
            without_char(words(s@)[0], ','),
        ) && r->Ok_0.commodity@ == words(s@)[1],
        match r {
            Ok(a) => currency_spec(s@) == Ok::<CurrencyModel, AmountFault>(a@),
            Err(e) => currency_spec(s@) == Err::<CurrencyModel, AmountFault>(e@),
        },
{
    let mut parts = split_words(s);
    if parts.len() == 0 {
        return Err(ParseAmounError::InvalidFormat);
    }
    let ghost ws = parts@.map_values(|w: Vec<char>| w@);
    let number = remove_char(&parts[0], ',');
    let number_text = string_of(&number);
    let value = match parse_decimal(number_text.as_str()) {
        Ok(d) => d,
        Err(DecimalError::Syntax(t)) => {
            return Err(ParseAmounError::InvalidDecimal(t));
        },
        Err(DecimalError::NotFinite) => {
            return Err(ParseAmounError::InvalidDecimal(string_of(&chars_of("not a finite number"))));
        },
        Err(DecimalError::Exponent) => {
            return Err(ParseAmounError::InvalidDecimal(string_of(&chars_of("exponent not accepted"))));
        },
        Err(DecimalError::TooLong) => {
            return Err(ParseAmounError::InvalidDecimal(string_of(&chars_of("number too long"))));
        },
    };
    if parts.len() == 1 {
        let empty: Vec<char> = Vec::new();
        return Ok(CurrencyAmount { value, commodity: string_of(&empty) });
    }
    let _ = parts.remove(0);
    assert(parts@.map_values(|w: Vec<char>| w@) =~= ws.drop_first());
    let joined = join_chars(&parts, ' ');
    let commodity = strip_chars(&joined, '"');
    Ok(CurrencyAmount { value, commodity: string_of(&commodity) })
}

impl CurrencyAmount {
    /// Reads `‹number› ‹commodity›`; see [`currency_spec`].
    /// A plain number with one commodity word reads digit for digit, with
    /// no rounding or truncation (see [`plain_amount`]).
    pub fn parse(amount_str: &str) -> (r: Result<Self, ParseAmounError>)
        ensures
            plain_amount(amount_str@) ==> r is Ok && r->Ok_0.value == plain_decimal(
                without_char(words(amount_str@)[0], ','),
            ) && r->Ok_0.commodity@ == words(amount_str@)[1],
            match r {
                Ok(a) => currency_spec(amount_str@) == Ok::<CurrencyModel, AmountFault>(a@),
                Err(e) => currency_spec(amount_str@) == Err::<CurrencyModel, AmountFault>(e@),
            },
    {
        let chars = chars_of(amount_str);
        parse_currency_chars(&chars)
    }

    /// `‹number› ‹commodity›`.
    pub fn to_text(&self) -> (r: String)
        ensures
            r@ == self.value.text_spec() + seq![' '] + self.commodity@,
    {
        let number = self.value.to_text();
        let mut out = chars_of(number.as_str());
        out.push(' ');
        let mut commodity = chars_of(self.commodity.as_str());
        out.append(&mut commodity);
        string_of(&out)
    }
}

/// An amount with an optional unit price and settlement date.
#[derive(Debug, Clone, PartialEq, Eq)]
pub struct Amount {
    pub value: CurrencyAmount,
    pub price: Option<CurrencyAmount>,
    pub date: Option<Date>,
}

pub struct AmountModel {
    pub value: CurrencyModel,
    pub price: Option<CurrencyModel>,
    pub date: Option<Date>,
}

impl Amount {
    pub open spec fn view(&self) -> AmountModel {
        AmountModel {
            value: self.value@,
            price: match self.price {
                Some(p) => Some(p@),
                None => None,
            },
            date: self.date,
        }
    }
}

/// The trimmed text between the first `open` and the first `close`: `None`
/// where `open` does not occur, `Some(None)` where `close` is missing or
/// comes before `open`.
pub open spec fn delimited(s: Seq<char>, open: char, close: char) -> Option<Option<Seq<char>>> {
    match find_char(s, open) {
        None => None,
        Some(start) => match find_char(s, close) {
            None => Some(None),
            Some(end) => if end < start + 1 {
                Some(None)
            } else {
                Some(Some(trim(s.subrange(start + 1 as int, end as int))))
            },
        },
    }
}

/// `‹number› ‹commodity› {‹price›} [‹date›]`, both clauses optional: the price
/// is read as a [`currency_spec`], the date as `%Y/%m/%d`, and the text
/// before the first clause as the amount itself. A malformed clause is a
/// format error.
pub open spec fn amount_spec(s: Seq<char>) -> Result<AmountModel, AmountFault> {
    let price: Result<Option<CurrencyModel>, AmountFault> = match delimited(s, '{', '}') {
        None => Ok(None),
        Some(None) => Err(AmountFault::Format),
        Some(Some(t)) => match currency_spec(t) {
            Ok(c) => Ok(Some(c)),
            Err(_) => Err(AmountFault::Format),
        },
    };
    let date: Result<Option<Date>, AmountFault> = match delimited(s, '[', ']') {
        None => Ok(None),
        Some(None) => Err(AmountFault::Format),
        Some(Some(t)) => match chrono_parse(t, "%Y/%m/%d"@) {
            Some((y, m, d)) => Ok(Some(Date { year: y as i32, month: m as u32, day: d as u32 })),
            None => Err(AmountFault::Format),
        },
    };
    let head = match find_char(s, '{') {
        Some(i) => s.take(i as int),
        None => match find_char(s, '[') {
            Some(i) => s.take(i as int),
            None => s,
        },
    };
    match price {
        Err(e) => Err(e),
        Ok(price) => match date {
            Err(e) => Err(e),
            Ok(date) => match currency_spec(head) {
                Err(e) => Err(e),
                Ok(value) => Ok(AmountModel { value, price, date }),
            },
        },
    }
}

/// The trimmed text between `open` and `close`, as [`delimited`] describes.
fn delimited_chars(s: &Vec<char>, open: char, close: char) -> (r: Option<Option<Vec<char>>>)
    ensures
        match delimited(s@, open, close) {
            None => r is None,
            Some(None) => r == Some(None::<Vec<char>>),
            Some(Some(t)) => r is Some && r->0 is Some && r->0->0@ == t,
        },
{
    proof {
        lemma_find_char_bound(s@, open);
        lemma_find_char_bound(s@, close);
    }
    match find_in(s, open) {
        None => None,
        Some(start) => match find_in(s, close) {
            None => Some(None),
            Some(end) => if end <= start {
                Some(None)
            } else {
                let inner = sub_chars(s, start + 1, end);
                Some(Some(trim_chars(&inner)))
            },
        },
    }
}

impl Amount {
    /// Reads an amount with its optional price and date; see [`amount_spec`].
    pub fn parse(amount_str: &str) -> (r: Result<Self, ParseAmounError>)
        ensures
            match r {
                Ok(a) => amount_spec(amount_str@) == Ok::<AmountModel, AmountFault>(a@),
                Err(e) => amount_spec(amount_str@) == Err::<AmountModel, AmountFault>(e@),
            },
    {
        let s = chars_of(amount_str);
        proof {
            lemma_find_char_bound(s@, '{');
            lemma_find_char_bound(s@, '[');
        }
        let price = match delimited_chars(&s, '{', '}') {
            None => None,
            Some(None) => {
                return Err(ParseAmounError::InvalidFormat);
            },
            Some(Some(t)) => match parse_currency_chars(&t) {
                Ok(c) => Some(c),
                Err(_) => {
                    return Err(ParseAmounError::InvalidFormat);
                },
            },
        };
        let date = match delimited_chars(&s, '[', ']') {
            None => None,
            Some(None) => {
                return Err(ParseAmounError::InvalidFormat);
            },
            Some(Some(t)) => {
                let text = string_of(&t);
                match chrono_date(text.as_str(), "%Y/%m/%d") {
                    Some(d) => Some(d),
                    None => {
                        return Err(ParseAmounError::InvalidFormat);
                    },
                }
            },
        };
        let head = match find_in(&s, '{') {
            Some(i) => sub_chars(&s, 0, i),
            None => match find_in(&s, '[') {
                Some(i) => sub_chars(&s, 0, i),
                None => s,
            },
        };
        let value = parse_currency_chars(&head)?;
        let r = Amount { value, price, date };
        assert(r@.price == match price {
            Some(p) => Some(p@),
            None => None::<CurrencyModel>,
        });
        Ok(r)
    }

    /// The amount, then ` {price}` and ` [YYYY/MM/DD]` where present.
    pub fn to_text(&self) -> (r: String)
        ensures
            r@ == self.text_spec(),
    {
        let first = self.value.to_text();
        let mut out = chars_of(first.as_str());
        match &self.price {
            Some(p) => {
                let pt = p.to_text();
                out.push(' ');
                out.push('{');
                let mut pc = chars_of(pt.as_str());
                out.append(&mut pc);
                out.push('}');
            },
            None => {},
        }
        let ghost mid = out@;
        match &self.date {
            Some(d) => {
                let dt = d.to_text();
                out.push(' ');
                out.push('[');
                let mut dc = chars_of(dt.as_str());
                out.append(&mut dc);
                out.push(']');
            },
            None => {},
        }
        assert(out@ =~= self.text_spec());
        string_of(&out)
    }

    pub open spec fn text_spec(&self) -> Seq<char> {
        let v = self.value.value.text_spec() + seq![' '] + self.value.commodity@;
        let with_price = match self.price {
            Some(p) => v + seq![' ', '{'] + p.value.text_spec() + seq![' '] + p.commodity@ + seq![
                '}',
            ],
            None => v,
        };
        match self.date {
            Some(d) => with_price + seq![' ', '['] + d.text_spec() + seq![']'],
            None => with_price,
        }
    }
}

/// Why a posting list cannot be decoded.
#[derive(Debug, Clone, PartialEq)]
pub enum ParsePostingError {
    /// Expected at least this many elements, got that many.
    UnexpectedLength(usize, usize),
    /// The element at this position has the wrong kind.
    UnexpectedType(usize, Value),
    InvalidAmount(ParseAmounError),
}

pub enum PostingFault {
    Length(nat, nat),
    Type(nat, SValue),
    Amount(AmountFault),
}

impl ParsePostingError {
    pub open spec fn view(&self) -> PostingFault {
        match self {
            ParsePostingError::UnexpectedLength(a, b) => PostingFault::Length(*a as nat, *b as nat),
            ParsePostingError::UnexpectedType(i, v) => PostingFault::Type(*i as nat, v@),
            ParsePostingError::InvalidAmount(e) => PostingFault::Amount(e@),
        }
    }
}

/// One account line of a transaction.
#[derive(Debug, Clone, PartialEq)]
pub struct Posting {
    pub account: Account,
    pub amount: Amount,
    pub note: Option<String>,
}

pub struct PostingModel {
    pub account: Seq<Seq<char>>,
    pub amount: AmountModel,
    pub note: Option<Seq<char>>,
}

impl Posting {
    pub open spec fn view(&self) -> PostingModel {
        PostingModel {
            account: self.account@,
            amount: self.amount@,
            note: match self.note {
                Some(n) => Some(n@),
                None => None,
            },
        }
    }
}

/// A posting list: at least four elements; element 1 is the account name
/// (a string), element 2 the amount text (a string); where there are
/// exactly five, element 4 is the note (a string).
pub open spec fn posting_spec(items: Seq<SValue>) -> Result<PostingModel, PostingFault> {
    if items.len() < 4 {
        Err(PostingFault::Length(4, items.len()))
    } else {
        match items[1] {
            SValue::Str(account) => match items[2] {
                SValue::Str(amount) => match amount_spec(amount) {
                    Err(e) => Err(PostingFault::Amount(e)),
                    Ok(a) => if items.len() == 5 {
                        match items[4] {
                            SValue::Str(note) => Ok(
                                PostingModel {
                                    account: account_segments(account),
                                    amount: a,
                                    note: Some(note),
                                },
                            ),
                            _ => Err(PostingFault::Type(4, items[4])),
                        }
                    } else {
                        Ok(
                            PostingModel {
                                account: account_segments(account),
                                amount: a,
                                note: None,
                            },
                        )
                    },
                },
                _ => Err(PostingFault::Type(2, items[2])),
            },
            _ => Err(PostingFault::Type(1, items[1])),
        }
    }
}

pub open spec fn slice_values(v: Seq<Value>) -> Seq<SValue> {
    v.map_values(|x: Value| x@)
}

impl Posting {
    /// Decodes a posting list; see [`posting_spec`].
    pub fn from_sexpr(value: &[Value]) -> (r: Result<Self, ParsePostingError>)
        ensures
            match r {
                Ok(p) => posting_spec(slice_values(value@)) == Ok::<PostingModel, PostingFault>(
                    p@,
                ),
                Err(e) => posting_spec(slice_values(value@)) == Err::<PostingModel, PostingFault>(
                    e@,
                ),
            },
    {
        let ghost items = slice_values(value@);
        if value.len() < 4 {
            return Err(ParsePostingError::UnexpectedLength(4, value.len()));
        }
        assert(items[1] == value@[1]@ && items[2] == value@[2]@);
        let account = match &value[1] {
            Value::String(s) => Account::parse(s.as_str()),
            other => {
                return Err(ParsePostingError::UnexpectedType(1, other.deep_copy()));
            },
        };
        let amount = match &value[2] {
            Value::String(s) => match Amount::parse(s.as_str()) {
                Ok(a) => a,
                Err(e) => {
                    return Err(ParsePostingError::InvalidAmount(e));
                },
            },
            other => {
                return Err(ParsePostingError::UnexpectedType(2, other.deep_copy()));
            },
        };
        if value.len() == 5 {
            assert(items[4] == value@[4]@);
            match &value[4] {
                Value::String(n) => Ok(Posting { account, amount, note: Some(n.clone()) }),
                other => Err(ParsePostingError::UnexpectedType(4, other.deep_copy())),
            }
        } else {
            Ok(Posting { account, amount, note: None })
        }
    }
}

/// Why a transaction list cannot be decoded.
#[derive(Debug, Clone, PartialEq)]
pub enum ParseTransactionError {
    /// The date element does not denote a date.
    ParseDateError(Value),
    /// Expected at least this many elements, got that many.
    UnexpectedLength(usize, usize),
    /// The element at this position has the wrong kind.
    UnexpectedType(usize, Value),
    /// The posting with this index (counting postings from 0) is malformed.
    PostingError(usize, ParsePostingError),
}

pub enum TransactionFault {
    Date(SValue),
    Length(nat, nat),
    Type(nat, SValue),
    Posting(nat, PostingFault),
}

impl ParseTransactionError {
    pub open spec fn view(&self) -> TransactionFault {
        match self {
            ParseTransactionError::ParseDateError(v) => TransactionFault::Date(v@),
            ParseTransactionError::UnexpectedLength(a, b) => TransactionFault::Length(
                *a as nat,
                *b as nat,
            ),
            ParseTransactionError::UnexpectedType(i, v) => TransactionFault::Type(*i as nat, v@),
            ParseTransactionError::PostingError(i, e) => TransactionFault::Posting(*i as nat, e@),
        }
    }
}

/// One transaction as the tool reports it.
#[derive(Debug, Clone, PartialEq)]
pub struct Transaction {
    /// The file the transaction was read from.
    pub file: String,
    pub line: i64,
    pub time: Date,
    pub description: String,
    pub postings: Vec<Posting>,
}

pub struct TransactionModel {
    pub file: Seq<char>,
    pub line: int,
    pub time: Date,
    pub description: Seq<char>,
    pub postings: Seq<PostingModel>,
}

impl Transaction {
    pub open spec fn view(&self) -> TransactionModel {
        TransactionModel {
            file: self.file@,
            line: self.line as int,
            time: self.time,
            description: self.description@,
            postings: self.postings@.map_values(|p: Posting| p@),
        }
    }
}

/// The postings `ps`, which stand from position 5 of a transaction list:
/// each must be a list that decodes as a posting; the first that does not
/// gives the error.
pub open spec fn postings_spec(ps: Seq<SValue>) -> Result<Seq<PostingModel>, TransactionFault>
    decreases ps.len(),
{
    if ps.len() == 0 {
        Ok(seq![])
    } else {
        match postings_spec(ps.drop_last()) {
            Err(e) => Err(e),
            Ok(done) => {
                let k = (ps.len() - 1) as nat;
                match ps.last() {
                    SValue::List(items) => match posting_spec(items) {
                        Ok(p) => Ok(done.push(p)),
                        Err(e) => Err(TransactionFault::Posting(k, e)),
                    },
                    _ => Err(TransactionFault::Type(k + 5, ps.last())),
                }
            },
        }
    }
}

/// The date element: an ISO `%Y-%m-%d` string, or a count of seconds since
/// the Unix epoch (the day it falls on in UTC).
pub open spec fn date_spec(v: SValue) -> Option<Date> {
    match v {
        SValue::Str(t) => match chrono_parse(t, "%Y-%m-%d"@) {
            Some((y, m, d)) => Some(Date { year: y as i32, month: m as u32, day: d as u32 }),
            None => None,
        },
        SValue::Int(n) => match chrono_epoch_day(n) {
            Some((y, m, d)) => Some(Date { year: y as i32, month: m as u32, day: d as u32 }),
            None => None,
        },
        _ => None,
    }
}

/// A transaction list: at least five elements; the file (a string), the
/// line (an integer), the date (a string or an integer), an element that is
/// not read, the description (a string), then the postings. Element kinds
/// are checked first, then the postings, then the date's value.
pub open spec fn transaction_spec(items: Seq<SValue>) -> Result<TransactionModel, TransactionFault> {
    if items.len() < 5 {
        Err(TransactionFault::Length(5, items.len()))
    } else {
        match (items[0], items[1], items[4]) {
            (SValue::Str(file), SValue::Int(line), SValue::Str(description)) => if !(
            items[2] is Str || items[2] is Int) {
                Err(TransactionFault::Type(2, items[2]))
            } else {
                match postings_spec(items.skip(5)) {
                    Err(e) => Err(e),
                    Ok(postings) => match date_spec(items[2]) {
                        None => Err(TransactionFault::Date(items[2])),
                        Some(time) => Ok(
                            TransactionModel { file, line, time, description, postings },
                        ),
                    },
                }
            },
            _ => if !(items[0] is Str) {
                Err(TransactionFault::Type(0, items[0]))
            } else if !(items[1] is Int) {
                Err(TransactionFault::Type(1, items[1]))
            } else if !(items[2] is Str || items[2] is Int) {
                Err(TransactionFault::Type(2, items[2]))
            } else {
                Err(TransactionFault::Type(4, items[4]))
            },
        }
    }
}

impl Transaction {
    /// Decodes a transaction list; see [`transaction_spec`].
    pub fn from_sexpr(value: &[Value]) -> (r: Result<Self, ParseTransactionError>)
        ensures
            match r {
                Ok(t) => transaction_spec(slice_values(value@)) == Ok::<
                    TransactionModel,
                    TransactionFault,
                >(t@),
                Err(e) => transaction_spec(slice_values(value@)) == Err::<
                    TransactionModel,
                    TransactionFault,
                >(e@),
            },
    {
        let ghost items = slice_values(value@);
        if value.len() < 5 {
            return Err(ParseTransactionError::UnexpectedLength(5, value.len()));
        }
        assert(items[0] == value@[0]@ && items[1] == value@[1]@ && items[2] == value@[2]@
            && items[4] == value@[4]@);
        let file = match &value[0] {
            Value::String(s) => s.clone(),
            other => {
                return Err(ParseTransactionError::UnexpectedType(0, other.deep_copy()));
            },
        };
        let line = match &value[1] {
            Value::I64(n) => *n,
            other => {
                return Err(ParseTransactionError::UnexpectedType(1, other.deep_copy()));
            },
        };
        match &value[2] {
            Value::String(_) => {},
            Value::I64(_) => {},
            other => {
                return Err(ParseTransactionError::UnexpectedType(2, other.deep_copy()));
            },
        }
        let description = match &value[4] {
            Value::String(s) => s.clone(),
            other => {
                return Err(ParseTransactionError::UnexpectedType(4, other.deep_copy()));
            },
        };
        let mut postings: Vec<Posting> = Vec::new();
        let mut i: usize = 5;
        assert(items.skip(5).take(0) =~= seq![]);
        assert(postings@.map_values(|p: Posting| p@) =~= seq![]);
        while i < value.len()
            invariant
                5 <= i <= value.len(),
                items == slice_values(value@),
                items[0] is Str && items[1] is Int && items[4] is Str,
                items[2] is Str || items[2] is Int,
                postings_spec(items.skip(5).take(i - 5)) == Ok::<
                    Seq<PostingModel>,
                    TransactionFault,
                >(postings@.map_values(|p: Posting| p@)),
            decreases value.len() - i,
        {
            let ghost ps = items.skip(5).take(i - 4);
            assert(ps.drop_last() =~= items.skip(5).take(i - 5));
            assert(ps.last() == value@[i as int]@);
            match &value[i] {
                Value::List(list) => {
                    proof { crate::sexpr::lemma_list_view(*list); }
                    assert(slice_values(list@) =~= crate::sexpr::values_view(list@));
                    match Posting::from_sexpr(list.as_slice()) {
                        Ok(p) => {
                            let ghost before = postings@;
                            postings.push(p);
                            assert(postings@.map_values(|p: Posting| p@) =~= before.map_values(
                                |p: Posting| p@,
                            ).push(p@));
                        },
                        Err(e) => {
                            proof { lemma_postings_err_extends(items.skip(5), i - 4); }
                            assert(items.skip(5).take(value.len() - 5) =~= items.skip(5));
                            return Err(ParseTransactionError::PostingError(i - 5, e));
                        },
                    }
                },
                other => {
                    proof { lemma_postings_err_extends(items.skip(5), i - 4); }
                    assert(items.skip(5).take(value.len() - 5) =~= items.skip(5));
                    return Err(ParseTransactionError::UnexpectedType(i, other.deep_copy()));
                },
            }
            i = i + 1;
        }
        assert(items.skip(5).take(i - 5) =~= items.skip(5));
        let time = match &value[2] {
            Value::String(s) => chrono_date(s.as_str(), "%Y-%m-%d"),
            Value::I64(n) => chrono_epoch_date(*n),
            _ => None,
        };
        match time {
            Some(time) => Ok(Transaction { file, line, time, description, postings }),
            None => Err(ParseTransactionError::ParseDateError(value[2].deep_copy())),
        }
    }
}

/// Once the postings of a prefix fail, all of them fail the same way.
proof fn lemma_postings_err_extends(ps: Seq<SValue>, n: int)
    requires
        0 < n <= ps.len(),
        postings_spec(ps.take(n)) is Err,
    ensures
        postings_spec(ps) == postings_spec(ps.take(n)),
    decreases ps.len(),
{
    if n == ps.len() {
        assert(ps.take(n) =~= ps);
    } else {
        assert(ps.drop_last().take(n) =~= ps.take(n));
        lemma_postings_err_extends(ps.drop_last(), n);
    }
}

} // verus!
