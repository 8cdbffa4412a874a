//! Character-level helpers shared by the parsers: conversions between
//! strings and character vectors, whitespace, and small sequence utilities.
use vstd::prelude::*;
use vstd::std_specs::iter::IteratorSpec;

verus! {

/// Unicode `White_Space`, the property that `char::is_whitespace` tests.
pub open spec fn is_ws(c: char) -> bool {
    ||| c == ' '
    ||| ('\u{9}' <= c && c <= '\u{d}')
    ||| c == '\u{85}'
    ||| c == '\u{a0}'
    ||| c == '\u{1680}'
    ||| ('\u{2000}' <= c && c <= '\u{200a}')
    ||| c == '\u{2028}'
    ||| c == '\u{2029}'
    ||| c == '\u{202f}'
    ||| c == '\u{205f}'
    ||| c == '\u{3000}'
}

pub fn is_whitespace(c: char) -> (r: bool)
    ensures
        r == is_ws(c),
{
    c == ' ' || ('\u{9}' <= c && c <= '\u{d}') || c == '\u{85}' || c == '\u{a0}' || c
        == '\u{1680}' || ('\u{2000}' <= c && c <= '\u{200a}') || c == '\u{2028}' || c
        == '\u{2029}' || c == '\u{202f}' || c == '\u{205f}' || c == '\u{3000}'
}

/// The characters of `s` in order.
pub(crate) fn chars_of(s: &str) -> (r: Vec<char>)
    ensures
        r@ == s@,
{
    broadcast use vstd::string::group_string_axioms;

    let mut it = s.chars();
    let mut r: Vec<char> = Vec::new();
    assert(it.remaining() == s@);
    loop
        invariant
            it.obeys_prophetic_iter_laws(),
            it.decrease() is Some,
            r@ + it.remaining() == s@,
        ensures
            r@ == s@,
        decreases it.decrease()->0,
    {
        let ghost before = it.remaining();
        match it.next() {
            Some(c) => {
                r.push(c);
                assert(r@ + it.remaining() =~= s@) by {
                    assert(before =~= seq![c] + it.remaining());
                }
            },
            None => {
                assert(r@ =~= s@);
                break;
            },
        }
    }
    r
}

/// Relies on `String::push`: appends one character.
#[verifier::external_body]
fn push_char(s: &mut String, c: char)
    ensures
        final(s)@ == old(s)@.push(c),
{
    s.push(c)
}

/// The string made of the characters of `v`.
pub(crate) fn string_of(v: &Vec<char>) -> (r: String)
    ensures
        r@ == v@,
{
    let mut r = String::new();
    let mut i: usize = 0;
    while i < v.len()
        invariant
            i <= v.len(),
            r@ == v@.take(i as int),
        decreases v.len() - i,
    {
        push_char(&mut r, v[i]);
        i = i + 1;
        assert(r@ =~= v@.take(i as int));
    }
    assert(v@.take(i as int) =~= v@);
    r
}

/// The decimal digits of a natural number, most significant first.
pub open spec fn decimal_digits(n: nat) -> Seq<char>
    decreases n,
{
    if n < 10 {
        seq![(n + 48) as char]
    } else {
        decimal_digits(n / 10).push(((n % 10) + 48) as char)
    }
}

/// The decimal digits of `n`, most significant first.
pub fn digits_of(n: u128) -> (r: Vec<char>)
    ensures
        r@ == decimal_digits(n as nat),
    decreases n,
{
    let d = ((n % 10) as u8 + 48u8) as char;
    assert(d == ((n as nat % 10) + 48) as char);
    if n < 10 {
        let mut v: Vec<char> = Vec::new();
        v.push(d);
        assert(v@ =~= seq![d]);
        v
    } else {
        let mut v = digits_of(n / 10);
        v.push(d);
        v
    }
}

/// `n` in decimal.
pub(crate) fn u128_text(n: u128) -> (r: String)
    ensures
        r@ == decimal_digits(n as nat),
{
    string_of(&digits_of(n))
}

/// `n` in decimal.
pub(crate) fn usize_text(n: usize) -> (r: String)
    ensures
        r@ == decimal_digits(n as nat),
{
    u128_text(n as u128)
}

/// `s` with the leading and trailing whitespace removed.
pub open spec fn trim_start(s: Seq<char>) -> Seq<char>
    decreases s.len(),
{
    if s.len() > 0 && is_ws(s[0]) {
        trim_start(s.drop_first())
    } else {
        s
    }
}

pub open spec fn trim_end(s: Seq<char>) -> Seq<char>
    decreases s.len(),
{
    if s.len() > 0 && is_ws(s.last()) {
        trim_end(s.drop_last())
    } else {
        s
    }
}

pub open spec fn trim(s: Seq<char>) -> Seq<char> {
    trim_end(trim_start(s))
}

/// Index of the first occurrence of `c` in `s`, if any.
pub open spec fn find_char(s: Seq<char>, c: char) -> Option<nat>
    decreases s.len(),
{
    if s.len() == 0 {
        None
    } else if s[0] == c {
        Some(0)
    } else {
        match find_char(s.drop_first(), c) {
            Some(i) => Some(i + 1),
            None => None,
        }
    }
}

pub fn trim_chars(s: &Vec<char>) -> (r: Vec<char>)
    ensures
        r@ == trim(s@),
{
    let mut start: usize = 0;
    assert(s@.subrange(0, s.len() as int) =~= s@);
    while start < s.len() && is_whitespace(s[start])
        invariant
            start <= s.len(),
            trim_start(s@) == trim_start(s@.subrange(start as int, s.len() as int)),
        decreases s.len() - start,
    {
        assert(s@.subrange(start + 1, s.len() as int) =~= s@.subrange(
            start as int,
            s.len() as int,
        ).drop_first());
        start = start + 1;
    }
    assert(trim_start(s@) == s@.subrange(start as int, s.len() as int));
    let mut end: usize = s.len();
    assert(trim_start(s@) == trim_start(s@.subrange(start as int, s.len() as int)));
    while end > start && is_whitespace(s[end - 1])
        invariant
            start <= end <= s.len(),
            trim_start(s@) == s@.subrange(start as int, s.len() as int),
            trim(s@) == trim_end(s@.subrange(start as int, end as int)),
        decreases end,
    {
        assert(s@.subrange(start as int, end - 1) =~= s@.subrange(
            start as int,
            end as int,
        ).drop_last());
        end = end - 1;
    }
    let mut r: Vec<char> = Vec::new();
    let mut i: usize = start;
    while i < end
        invariant
            start <= i <= end <= s.len(),
            r@ == s@.subrange(start as int, i as int),
        decreases end - i,
    {
        r.push(s[i]);
        assert(r@ =~= s@.subrange(start as int, i + 1));
        i = i + 1;
    }
    r
}

pub fn find_in(s: &Vec<char>, c: char) -> (r: Option<usize>)
    ensures
        match r {
            Some(i) => find_char(s@, c) == Some(i as nat),
            None => find_char(s@, c) is None,
        },
{
    let mut i: usize = 0;
    while i < s.len()
        invariant
            i <= s.len(),
            forall|j: int| 0 <= j < i ==> s@[j] != c,
        decreases s.len() - i,
    {
        if s[i] == c {
            proof { lemma_find_char_at(s@, c, i as int); }
            return Some(i);
        }
        i = i + 1;
    }
    proof { lemma_find_char_none(s@, c); }
    None
}

proof fn lemma_find_char_at(s: Seq<char>, c: char, i: int)
    requires
        0 <= i < s.len(),
        s[i] == c,
        forall|j: int| 0 <= j < i ==> s[j] != c,
    ensures
        find_char(s, c) == Some(i as nat),
    decreases i,
{
    if i > 0 {
        lemma_find_char_at(s.drop_first(), c, i - 1);
    }
}

proof fn lemma_find_char_none(s: Seq<char>, c: char)
    requires
        forall|j: int| 0 <= j < s.len() ==> s[j] != c,
    ensures
        find_char(s, c) is None,
    decreases s.len(),
{
    if s.len() > 0 {
        lemma_find_char_none(s.drop_first(), c);
    }
}

pub proof fn lemma_find_char_bound(s: Seq<char>, c: char)
    ensures
        match find_char(s, c) {
            Some(i) => i < s.len() && s[i as int] == c,
            None => true,
        },
    decreases s.len(),
{
    if s.len() > 0 {
        lemma_find_char_bound(s.drop_first(), c);
    }
}

pub fn sub_chars(s: &Vec<char>, from: usize, to: usize) -> (r: Vec<char>)
    requires
        from <= to <= s.len(),
    ensures
        r@ == s@.subrange(from as int, to as int),
{
    let mut r: Vec<char> = Vec::new();
    let mut i: usize = from;
    while i < to
        invariant
            from <= i <= to <= s.len(),
            r@ == s@.subrange(from as int, i as int),
        decreases to - i,
    {
        r.push(s[i]);
        assert(r@ =~= s@.subrange(from as int, i + 1));
        i = i + 1;
    }
    r
}

/// The pieces of `s` joined with `sep` between them.
pub open spec fn join_with(pieces: Seq<Seq<char>>, sep: char) -> Seq<char>
    decreases pieces.len(),
{
    if pieces.len() == 0 {
        seq![]
    } else if pieces.len() == 1 {
        pieces[0]
    } else {
        join_with(pieces.drop_last(), sep) + seq![sep] + pieces.last()
    }
}

/// Word-splitting state after reading `s`: the words completed so far and
/// the word being read.
pub open spec fn word_state(s: Seq<char>) -> (Seq<Seq<char>>, Seq<char>)
    decreases s.len(),
{
    if s.len() == 0 {
        (seq![], seq![])
    } else {
        let (done, cur) = word_state(s.drop_last());
        if is_ws(s.last()) {
            (
                if cur.len() > 0 {
                    done.push(cur)
                } else {
                    done
                },
                seq![],
            )
        } else {
            (done, cur.push(s.last()))
        }
    }
}

/// The maximal runs of non-whitespace characters of `s`, in order.
pub open spec fn words(s: Seq<char>) -> Seq<Seq<char>> {
    let (done, cur) = word_state(s);
    if cur.len() > 0 {
        done.push(cur)
    } else {
        done
    }
}

pub fn split_words(s: &Vec<char>) -> (r: Vec<Vec<char>>)
    ensures
        r@.map_values(|w: Vec<char>| w@) == words(s@),
{
    let mut done: Vec<Vec<char>> = Vec::new();
    let mut cur: Vec<char> = Vec::new();
    let mut i: usize = 0;
    assert(s@.take(0) =~= seq![]);
    assert(done@.map_values(|w: Vec<char>| w@) =~= seq![]);
    while i < s.len()
        invariant
            i <= s.len(),
            word_state(s@.take(i as int)) == (done@.map_values(|w: Vec<char>| w@), cur@),
        decreases s.len() - i,
    {
        let c = s[i];
        assert(s@.take(i + 1).drop_last() =~= s@.take(i as int));
        assert(s@.take(i + 1).last() == c);
        if is_whitespace(c) {
            if cur.len() > 0 {
                let ghost before = done@;
                let ghost w = cur@;
                let mut piece: Vec<char> = Vec::new();
                std::mem::swap(&mut piece, &mut cur);
                done.push(piece);
                assert(done@.map_values(|w: Vec<char>| w@) =~= before.map_values(
                    |w: Vec<char>| w@,
                ).push(w));
            }
            cur = Vec::new();
        } else {
            cur.push(c);
        }
        i = i + 1;
    }
    if cur.len() > 0 {
        let ghost before = done@;
        let ghost w = cur@;
        done.push(cur);
        assert(done@.map_values(|w: Vec<char>| w@) =~= before.map_values(|w: Vec<char>| w@).push(
            w,
        ));
    }
    assert(s@.take(i as int) =~= s@);
    done
}

/// `s` without any occurrence of `c`.
pub open spec fn without_char(s: Seq<char>, c: char) -> Seq<char>
    decreases s.len(),
{
    if s.len() == 0 {
        seq![]
    } else if s.last() == c {
        without_char(s.drop_last(), c)
    } else {
        without_char(s.drop_last(), c).push(s.last())
    }
}

pub fn remove_char(s: &Vec<char>, c: char) -> (r: Vec<char>)
    ensures
        r@ == without_char(s@, c),
{
    let mut r: Vec<char> = Vec::new();
    let mut i: usize = 0;
    assert(s@.take(0) =~= seq![]);
    while i < s.len()
        invariant
            i <= s.len(),
            r@ == without_char(s@.take(i as int), c),
        decreases s.len() - i,
    {
        assert(s@.take(i + 1).drop_last() =~= s@.take(i as int));
        assert(s@.take(i + 1).last() == s@[i as int]);
        if s[i] != c {
            r.push(s[i]);
        }
        i = i + 1;
    }
    assert(s@.take(i as int) =~= s@);
    r
}

/// `s` without leading and trailing occurrences of `c`.
pub open spec fn strip_start(s: Seq<char>, c: char) -> Seq<char>
    decreases s.len(),
{
    if s.len() > 0 && s[0] == c {
        strip_start(s.drop_first(), c)
    } else {
        s
    }
}

pub open spec fn strip_end(s: Seq<char>, c: char) -> Seq<char>
    decreases s.len(),
{
    if s.len() > 0 && s.last() == c {
        strip_end(s.drop_last(), c)
    } else {
        s
    }
}

pub open spec fn strip_char(s: Seq<char>, c: char) -> Seq<char> {
    strip_end(strip_start(s, c), c)
}

pub fn strip_chars(s: &Vec<char>, c: char) -> (r: Vec<char>)
    ensures
        r@ == strip_char(s@, c),
{
    let mut start: usize = 0;
    assert(s@.subrange(0, s.len() as int) =~= s@);
    while start < s.len() && s[start] == c
        invariant
            start <= s.len(),
            strip_start(s@, c) == strip_start(s@.subrange(start as int, s.len() as int), c),
        decreases s.len() - start,
    {
        assert(s@.subrange(start + 1, s.len() as int) =~= s@.subrange(
            start as int,
            s.len() as int,
        ).drop_first());
        start = start + 1;
    }
    let mut end: usize = s.len();
    while end > start && s[end - 1] == c
        invariant
            start <= end <= s.len(),
            strip_start(s@, c) == s@.subrange(start as int, s.len() as int),
            strip_char(s@, c) == strip_end(s@.subrange(start as int, end as int), c),
        decreases end,
    {
        assert(s@.subrange(start as int, end - 1) =~= s@.subrange(
            start as int,
            end as int,
        ).drop_last());
        end = end - 1;
    }
    sub_chars(s, start, end)
}

/// The pieces joined with `sep`.
pub fn join_chars(pieces: &Vec<Vec<char>>, sep: char) -> (r: Vec<char>)
    ensures
        r@ == join_with(pieces@.map_values(|w: Vec<char>| w@), sep),
{
    let ghost ps = pieces@.map_values(|w: Vec<char>| w@);
    let mut out: Vec<char> = Vec::new();
    let mut i: usize = 0;
    while i < pieces.len()
        invariant
            i <= pieces.len(),
            ps == pieces@.map_values(|w: Vec<char>| w@),
            out@ == join_with(ps.take(i as int), sep),
        decreases pieces.len() - i,
    {
        if i > 0 {
            out.push(sep);
        }
        let mut piece = pieces[i].clone();
        out.append(&mut piece);
        proof {
            let t = ps.take(i + 1);
            assert(t.drop_last() =~= ps.take(i as int));
            assert(t.last() == pieces@[i as int]@);
            if i == 0 {
                assert(out@ =~= t[0]);
            }
        }
        i = i + 1;
    }
    assert(ps.take(i as int) =~= ps);
    out
}

/// An integer in decimal, with a `-` where it is negative.
pub open spec fn int_text(n: int) -> Seq<char> {
    if n < 0 {
        seq!['-'] + decimal_digits((-n) as nat)
    } else {
        decimal_digits(n as nat)
    }
}

/// `n` in decimal, with a `-` where it is negative.
pub(crate) fn i64_text(n: i64) -> (r: String)
    ensures
        r@ == int_text(n as int),
{
    if n < 0 {
        let mut v: Vec<char> = Vec::new();
        v.push('-');
        let mut ds = digits_of((-(n as i128)) as u128);
        v.append(&mut ds);
        assert(v@ =~= int_text(n as int));
        string_of(&v)
    } else {
        u128_text(n as u128)
    }
}

proof fn lemma_word_run(x: Seq<char>, y: Seq<char>)
    requires
        word_state(x).1 == Seq::<char>::empty(),
        forall|i: int| 0 <= i < y.len() ==> !is_ws(y[i]),
    ensures
        word_state(x + y) == (word_state(x).0, y),
    decreases y.len(),
{
    if y.len() == 0 {
        assert(x + y =~= x);
    } else {
        assert((x + y).drop_last() =~= x + y.drop_last());
        assert((x + y).last() == y.last());
        lemma_word_run(x, y.drop_last());
        assert(y.drop_last().push(y.last()) =~= y);
    }
}

/// A number and a commodity separated by one space are exactly two words,
/// and a commodity without double quotes is kept as it is.
pub proof fn lemma_amount_words(d: Seq<char>, c: Seq<char>)
    requires
        d.len() > 0,
        c.len() > 0,
        forall|i: int| 0 <= i < d.len() ==> !is_ws(d[i]),
        forall|i: int| 0 <= i < c.len() ==> !is_ws(c[i]) && c[i] != '"',
    ensures
        words(d + seq![' '] + c) == seq![d, c],
        strip_char(join_with(seq![c], ' '), '"') == c,
{
    let e = Seq::<char>::empty();
    lemma_word_run(e, d);
    assert(e + d =~= d);
    let ds = d + seq![' '];
    assert(ds.drop_last() =~= d);
    assert(word_state(ds) == (seq![d], e));
    lemma_word_run(ds, c);
    assert(seq![d].push(c) =~= seq![d, c]);
    assert(join_with(seq![c], ' ') == c);
    assert(strip_start(c, '"') == c);
    assert(strip_end(c, '"') == c);
}

} // verus!
