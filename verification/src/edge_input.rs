//! Reading an edge typed as two whitespace-separated vertex numbers.
use vstd::prelude::*;

use crate::text::{chars_of, decimal, digit_char};

verus! {

/// The characters with the Unicode `White_Space` property.
pub open spec fn is_space(c: char) -> bool {
    let x = c as u32;
    ||| 9 <= x <= 13
    ||| x == 32
    ||| x == 0x85
    ||| x == 0xA0
    ||| x == 0x1680
    ||| 0x2000 <= x <= 0x200A
    ||| x == 0x2028
    ||| x == 0x2029
    ||| x == 0x202F
    ||| x == 0x205F
    ||| x == 0x3000
}

/// The maximal runs of non-space characters of `s`, in order.
pub open spec fn words(s: Seq<char>) -> Seq<Seq<char>>
    decreases s.len(),
{
    if s.len() == 0 {
        Seq::empty()
    } else {
        let w = words(s.drop_last());
        let c = s.last();
        if is_space(c) {
            w
        } else if s.len() == 1 || is_space(s[s.len() - 2]) {
            w.push(seq![c])
        } else {
            w.update(w.len() - 1, w.last().push(c))
        }
    }
}

/// An ASCII decimal digit.
pub open spec fn is_digit(c: char) -> bool {
    48 <= (c as u32) <= 57
}

/// The value of the decimal numeral `d` (most significant digit first).
pub open spec fn numeral_value(d: Seq<char>) -> nat
    decreases d.len(),
{
    if d.len() == 0 {
        0
    } else {
        numeral_value(d.drop_last()) * 10 + ((d.last() as u32) - 48) as nat
    }
}

/// The digits of an unsigned numeral: an optional leading `+` is dropped.
pub open spec fn unsigned_digits(w: Seq<char>) -> Seq<char> {
    if w.len() > 0 && w[0] == '+' {
        w.drop_first()
    } else {
        w
    }
}

/// The `usize` written by `w`: an optional `+` followed by at least one ASCII
/// digit, with a value that fits; `None` for anything else.
pub open spec fn numeral(w: Seq<char>) -> Option<usize> {
    let d = unsigned_digits(w);
    if d.len() > 0 && (forall|i: int| 0 <= i < d.len() ==> is_digit(#[trigger] d[i])) && numeral_value(d)
        <= usize::MAX {
        Some(numeral_value(d) as usize)
    } else {
        None
    }
}

/// Why a line is not an edge.
#[derive(Debug, Clone, Copy, PartialEq, Eq)]
pub enum EdgeParseError {
    /// The line does not hold exactly two words.
    WrongCount,
    /// The first word is not a vertex number.
    InvalidFirst,
    /// The second word is not a vertex number.
    InvalidSecond,
}

/// What a line of text denotes as an edge.
pub open spec fn edge_of(s: Seq<char>) -> Result<(usize, usize), EdgeParseError> {
    let w = words(s);
    if w.len() != 2 {
        Err(EdgeParseError::WrongCount)
    } else {
        match numeral(w[0]) {
            None => Err(EdgeParseError::InvalidFirst),
            Some(u) => match numeral(w[1]) {
                None => Err(EdgeParseError::InvalidSecond),
                Some(v) => Ok((u, v)),
            },
        }
    }
}

/// A longer numeral is worth at least as much as its prefix.
proof fn lemma_numeral_prefix(d: Seq<char>, i: int)
    requires
        0 <= i <= d.len(),
    ensures
        numeral_value(d.take(i)) <= numeral_value(d),
    decreases d.len(),
{
    if i < d.len() {
        assert(d.drop_last().take(i) =~= d.take(i));
        lemma_numeral_prefix(d.drop_last(), i);
        let v = numeral_value(d.drop_last());
        assert(v <= v * 10 + ((d.last() as u32) - 48) as nat) by (nonlinear_arith);
    } else {
        assert(d.take(i) =~= d);
    }
}

/// Whether `c` is white space.
pub fn is_space_char(c: char) -> (r: bool)
    ensures
        r == is_space(c),
{
    let x = c as u32;
    (9 <= x && x <= 13) || x == 32 || x == 0x85 || x == 0xA0 || x == 0x1680 || (0x2000 <= x && x <= 0x200A)
        || x == 0x2028 || x == 0x2029 || x == 0x202F || x == 0x205F || x == 0x3000
}

/// The maximal runs of non-space characters of `s`.
pub fn split_words(s: &Vec<char>) -> (r: Vec<Vec<char>>)
    ensures
        r@.map_values(|t: Vec<char>| t@) == words(s@),
{
    let mut out: Vec<Vec<char>> = Vec::new();
    let mut in_word = false;
    let mut i: usize = 0;
    while i < s.len()
        invariant
            i <= s@.len(),
            out@.map_values(|t: Vec<char>| t@) == words(s@.take(i as int)),
            in_word == (i > 0 && !is_space(s@[i - 1])),
            in_word ==> out@.len() > 0,
        decreases s@.len() - i,
    {
        let c = s[i];
        let ghost before = out@.map_values(|t: Vec<char>| t@);
        proof {
            assert(s@.take(i + 1).drop_last() =~= s@.take(i as int));
            assert(s@.take(i + 1).last() == c);
            if i > 0 {
                assert(s@.take(i + 1)[i - 1] == s@[i - 1]);
            }
        }
        if is_space_char(c) {
            in_word = false;
        } else if !in_word {
            let mut t: Vec<char> = Vec::new();
            t.push(c);
            out.push(t);
            in_word = true;
            assert(out@.map_values(|t: Vec<char>| t@) =~= before.push(seq![c]));
        } else {
            let last = out.len() - 1;
            out[last].push(c);
            assert(out@.map_values(|t: Vec<char>| t@) =~= before.update(before.len() - 1, before.last().push(c)));
        }
        i += 1;
    }
    assert(s@.take(s@.len() as int) =~= s@);
    out
}

/// The `usize` written by `w`, as `str::parse::<usize>` reads it.
pub fn parse_numeral(w: &Vec<char>) -> (r: Option<usize>)
    ensures
        r == numeral(w@),
{
    let ghost d = unsigned_digits(w@);
    let start: usize = if w.len() > 0 && w[0] == '+' {
        1
    } else {
        0
    };
    assert(d =~= w@.skip(start as int));
    if start >= w.len() {
        return None;
    }
    let mut acc: usize = 0;
    let mut i: usize = start;
    assert(d.take(0) =~= Seq::<char>::empty());
    while i < w.len()
        invariant
            start <= i <= w@.len(),
            start < w@.len(),
            d == w@.skip(start as int),
            d == unsigned_digits(w@),
            acc == numeral_value(d.take(i - start)),
            forall|k: int| 0 <= k < i - start ==> is_digit(#[trigger] d[k]),
        decreases w@.len() - i,
    {
        let c = w[i];
        assert(d[i - start] == c);
        let x = c as u32;
        if x < 48 || x > 57 {
            assert(!is_digit(d[i - start]));
            return None;
        }
        let dv = (x - 48) as usize;
        assert(d.take(i - start + 1).drop_last() =~= d.take(i - start));
        assert(d.take(i - start + 1).last() == c);
        match acc.checked_mul(10) {
            None => {
                proof {
                    lemma_numeral_prefix(d, i - start + 1);
                }
                return None;
            },
            Some(m) => match m.checked_add(dv) {
                None => {
                    proof {
                        lemma_numeral_prefix(d, i - start + 1);
                    }
                    return None;
                },
                Some(y) => {
                    acc = y;
                },
            },
        }
        i += 1;
    }
    assert(d.take(w@.len() - start) =~= d);
    Some(acc)
}

/// Reads a line of the form `u v` (two vertex numbers separated by white space).
pub fn parse_edge(input: &str) -> (r: Result<(usize, usize), EdgeParseError>)
    ensures
        r == edge_of(input@),
{
    let chars = chars_of(input);
    let parts = split_words(&chars);
    let ghost w = words(input@);
    assert(parts@.len() == w.len());
    if parts.len() != 2 {
        return Err(EdgeParseError::WrongCount);
    }
    assert(parts@[0]@ == w[0]);
    assert(parts@[1]@ == w[1]);
    let u = match parse_numeral(&parts[0]) {
        Some(u) => u,
        None => return Err(EdgeParseError::InvalidFirst),
    };
    let v = match parse_numeral(&parts[1]) {
        Some(v) => v,
        None => return Err(EdgeParseError::InvalidSecond),
    };
    Ok((u, v))
}

/// Why a typed edge is refused for a graph.
#[derive(Debug, Clone, Copy, PartialEq, Eq)]
pub enum EdgeRejection {
    /// The line is not an edge.
    Malformed(EdgeParseError),
    /// An end is not a vertex of the graph.
    OutOfRange,
}

/// What a line of text gives as an edge of a graph on `n` vertices.
pub open spec fn accepted_edge(s: Seq<char>, n: usize) -> Result<(usize, usize), EdgeRejection> {
    match edge_of(s) {
        Err(e) => Err(EdgeRejection::Malformed(e)),
        Ok((u, v)) => if u < n && v < n {
            Ok((u, v))
        } else {
            Err(EdgeRejection::OutOfRange)
        },
    }
}

/// Reads a line `u v` as an edge of a graph on `n` vertices: both ends must be below `n`.
pub fn accept_edge(input: &str, n: usize) -> (r: Result<(usize, usize), EdgeRejection>)
    ensures
        r == accepted_edge(input@, n),
{
    match parse_edge(input) {
        Err(e) => Err(EdgeRejection::Malformed(e)),
        Ok((u, v)) => if u < n && v < n {
            Ok((u, v))
        } else {
            Err(EdgeRejection::OutOfRange)
        },
    }
}


/// A line is accepted exactly when it reads as an edge `(u, v)` with both
/// `u < n` and `v < n`, whichever end is the larger, and then as that edge;
/// it is refused as out of range exactly when it reads as an edge with an end
/// at `n` or above; otherwise it is malformed, with the reading's own error.
/// An edge accepted for `n` vertices is accepted, unchanged, for more.
pub proof fn law_accepted_edges(s: Seq<char>, n: usize)
    ensures
        (accepted_edge(s, n) is Ok) == (edge_of(s) is Ok && edge_of(s)->Ok_0.0 < n && edge_of(s)->Ok_0.1 < n),
        accepted_edge(s, n) is Ok ==> accepted_edge(s, n)->Ok_0 == edge_of(s)->Ok_0,
        (accepted_edge(s, n) == Err::<(usize, usize), EdgeRejection>(EdgeRejection::OutOfRange)) == (edge_of(s) is Ok
            && (edge_of(s)->Ok_0.0 >= n || edge_of(s)->Ok_0.1 >= n)),
        edge_of(s) is Err ==> accepted_edge(s, n) == Err::<(usize, usize), EdgeRejection>(
            EdgeRejection::Malformed(edge_of(s)->Err_0),
        ),
        forall|m: usize| n <= m && accepted_edge(s, n) is Ok ==> #[trigger] accepted_edge(s, m) == accepted_edge(s, n),
{
}


/// The decimal notation of a number is made of digits and reads back as that
/// number.
proof fn lemma_decimal_value(n: nat)
    ensures
        decimal(n).len() > 0,
        forall|i: int| 0 <= i < decimal(n).len() ==> is_digit(#[trigger] decimal(n)[i]),
        numeral_value(decimal(n)) == n,
    decreases n,
{
    let c = digit_char(n % 10);
    assert((c as u32) == 48 + n % 10);
    if n < 10 {
        assert(decimal(n) == seq![c]);
        assert(decimal(n).drop_last() =~= Seq::<char>::empty());
        assert(numeral_value(decimal(n)) == numeral_value(Seq::<char>::empty()) * 10 + ((c as u32) - 48) as nat);
    } else {
        lemma_decimal_value(n / 10);
        let d = decimal(n / 10);
        assert(decimal(n) == d.push(c));
        assert(decimal(n).drop_last() =~= d);
        assert(numeral_value(decimal(n)) == numeral_value(d) * 10 + ((c as u32) - 48) as nat);
        assert((n / 10) * 10 + n % 10 == n) by (nonlinear_arith);
        assert forall|i: int| 0 <= i < decimal(n).len() implies is_digit(#[trigger] decimal(n)[i]) by {
            if i < d.len() {
                assert(decimal(n)[i] == d[i]);
            }
        }
    }
}

/// Every vertex number, written in decimal, reads back as itself, and its
/// notation has no leading zero.
pub proof fn law_numeral_reads_decimal(n: usize)
    ensures
        numeral(decimal(n as nat)) == Some(n),
        n > 0 ==> decimal(n as nat)[0] != '0',
    decreases n,
{
    lemma_decimal_value(n as nat);
    assert(is_digit(decimal(n as nat)[0]));
    assert(unsigned_digits(decimal(n as nat)) == decimal(n as nat));
    if n >= 10 {
        law_numeral_reads_decimal(n / 10);
        assert(decimal(n as nat)[0] == decimal((n / 10) as nat)[0]);
    } else {
        assert(decimal(n as nat)[0] == digit_char(n as nat));
        assert((digit_char(n as nat) as u32) == 48 + n);
    }
}


/// A word of characters other than spaces, written after nothing or after a
/// space, is one more word.
proof fn lemma_words_append_word(p: Seq<char>, w: Seq<char>)
    requires
        w.len() > 0,
        forall|i: int| 0 <= i < w.len() ==> !is_space(#[trigger] w[i]),
        p.len() == 0 || is_space(p.last()),
    ensures
        words(p + w) == words(p).push(w),
    decreases w.len(),
{
    let s = p + w;
    assert(s.last() == w.last());
    if w.len() == 1 {
        assert(s.drop_last() =~= p);
        assert(seq![w.last()] =~= w);
        if p.len() > 0 {
            assert(s[s.len() - 2] == p.last());
        }
    } else {
        let w1 = w.drop_last();
        assert forall|i: int| 0 <= i < w1.len() implies !is_space(#[trigger] w1[i]) by {
            assert(w1[i] == w[i]);
        }
        lemma_words_append_word(p, w1);
        assert(s.drop_last() =~= p + w1);
        assert(s[s.len() - 2] == w[w.len() - 2]);
        assert(w1.push(w.last()) =~= w);
        let ws = words(p).push(w1);
        assert(ws.last() == w1);
        assert(ws.update(ws.len() - 1, ws.last().push(w.last())) =~= words(p).push(w));
    }
}

/// Digits are not spaces.
proof fn lemma_digits_not_spaces(d: Seq<char>)
    requires
        forall|i: int| 0 <= i < d.len() ==> is_digit(#[trigger] d[i]),
    ensures
        forall|i: int| 0 <= i < d.len() ==> !is_space(#[trigger] d[i]),
{
    assert forall|i: int| 0 <= i < d.len() implies !is_space(#[trigger] d[i]) by {
        assert(is_digit(d[i]));
    }
}

/// Two words of digits with a space between them are two words.
#[verifier::rlimit(40)]
proof fn lemma_two_words(du: Seq<char>, dv: Seq<char>)
    requires
        du.len() > 0,
        dv.len() > 0,
        forall|i: int| 0 <= i < du.len() ==> is_digit(#[trigger] du[i]),
        forall|i: int| 0 <= i < dv.len() ==> is_digit(#[trigger] dv[i]),
    ensures
        words(du + seq![' '] + dv) == seq![du, dv],
{
    lemma_digits_not_spaces(du);
    lemma_digits_not_spaces(dv);
    let e = Seq::<char>::empty();
    lemma_words_append_word(e, du);
    assert(e + du =~= du);
    assert(words(e) == Seq::<Seq<char>>::empty());
    assert(words(du) =~= seq![du]);
    let p = du + seq![' '];
    assert(p.drop_last() =~= du);
    assert(p.last() == ' ');
    assert(is_space(' '));
    assert(words(p) == words(du));
    lemma_words_append_word(p, dv);
    assert(words(p).push(dv) =~= seq![du, dv]);
}

/// The line `u v`, both written in decimal, reads as the edge `(u, v)`, and
/// is accepted as that edge for any graph with more than `u` and `v` vertices.
pub proof fn law_edge_reads_decimal(u: usize, v: usize, n: usize)
    ensures
        edge_of(decimal(u as nat) + seq![' '] + decimal(v as nat)) == Ok::<(usize, usize), EdgeParseError>((u, v)),
        u < n && v < n ==> accepted_edge(decimal(u as nat) + seq![' '] + decimal(v as nat), n) == Ok::<
            (usize, usize),
            EdgeRejection,
        >((u, v)),
{
    let du = decimal(u as nat);
    let dv = decimal(v as nat);
    lemma_decimal_value(u as nat);
    lemma_decimal_value(v as nat);
    law_numeral_reads_decimal(u);
    law_numeral_reads_decimal(v);
    lemma_two_words(du, dv);
    let w = words(du + seq![' '] + dv);
    assert(w[0] == du && w[1] == dv);
}

} // verus!
