//! Reading puzzle text: characters, separators and decimal numbers.

use vstd::prelude::*;

verus! {

/// What parts a text between its pieces.
#[derive(Clone, Copy, Debug, PartialEq, Eq, Structural)]
pub enum Separator {
    /// The line feed.
    Newline,
    /// A blank of ASCII: space, tab, line feed, form feed or carriage return.
    Space,
    /// One given character.
    Char(char),
}

/// Whether a character is a blank of ASCII.
pub open spec fn is_space(c: char) -> bool {
    c == ' ' || c == '\t' || c == '\n' || c == '\r' || c as u32 == 12
}

impl Separator {
    /// Whether a character parts the text.
    pub open spec fn parts(self, c: char) -> bool {
        match self {
            Separator::Newline => c == '\n',
            Separator::Space => is_space(c),
            Separator::Char(s) => c == s,
        }
    }

    /// Whether a character parts the text.
    pub fn parts_at(self, c: char) -> (b: bool)
        ensures
            b == self.parts(c),
    {
        match self {
            Separator::Newline => c == '\n',
            Separator::Space => c == ' ' || c == '\t' || c == '\n' || c == '\r' || c as u32 == 12,
            Separator::Char(s) => c == s,
        }
    }
}

/// Whether a character has the property `Alphabetic` of Unicode.
pub uninterp spec fn alphabetic(c: char) -> bool;

/// `char::is_alphabetic` of std: whether the character has the property
/// `Alphabetic` of Unicode.
#[verifier::external_body]
pub(crate) fn is_alphabetic(c: char) -> (b: bool)
    ensures
        b == alphabetic(c),
{
    c.is_alphabetic()
}

/// The pieces of a text between its separators, empty ones too: one more
/// than there are separators.
pub open spec fn pieces(s: Seq<char>, sep: Separator) -> Seq<Seq<char>>
    decreases s.len(),
{
    if s.len() == 0 {
        seq![Seq::<char>::empty()]
    } else {
        let before = pieces(s.drop_last(), sep);
        if sep.parts(s.last()) {
            before.push(Seq::<char>::empty())
        } else {
            before.update(before.len() - 1, before.last().push(s.last()))
        }
    }
}

/// The value of a decimal digit.
pub open spec fn digit(c: char) -> Option<nat> {
    if 48 <= c as u32 <= 57 {
        Some((c as u32 - 48) as nat)
    } else {
        None
    }
}

/// Whether a text holds decimal digits only.
pub open spec fn all_digits(s: Seq<char>) -> bool {
    forall|i: int| 0 <= i < s.len() ==> (#[trigger] digit(s[i])) is Some
}

/// The value of a text of decimal digits.
pub open spec fn decimal(s: Seq<char>) -> nat
    decreases s.len(),
{
    if s.len() == 0 {
        0
    } else {
        decimal(s.drop_last()) * 10 + match digit(s.last()) {
            Some(d) => d,
            None => 0,
        }
    }
}

/// The digits of a token: the token without a leading plus sign.
pub open spec fn unsigned(token: Seq<char>) -> Seq<char> {
    if token.len() > 0 && token[0] == '+' {
        token.subrange(1, token.len() as int)
    } else {
        token
    }
}

/// The number that a token stands for: a plus sign or none, then one decimal
/// digit or more, with a value of at most `max`. Any other token stands for
/// no number.
pub open spec fn number(token: Seq<char>, max: u64) -> Option<u64> {
    let body = unsigned(token);
    if body.len() > 0 && all_digits(body) && decimal(body) <= max {
        Some(decimal(body) as u64)
    } else {
        None
    }
}

/// The numbers among some tokens, in their order.
pub open spec fn numbers(tokens: Seq<Seq<char>>, max: u64) -> Seq<u64>
    decreases tokens.len(),
{
    if tokens.len() == 0 {
        Seq::empty()
    } else {
        match number(tokens.last(), max) {
            Some(v) => numbers(tokens.drop_last(), max).push(v),
            None => numbers(tokens.drop_last(), max),
        }
    }
}

/// The numbers of each line of a text: a line's numbers are those among its
/// pieces between blanks.
pub open spec fn line_numbers(text: Seq<char>, max: u64) -> Seq<Seq<u64>> {
    Seq::new(
        pieces(text, Separator::Newline).len(),
        |i: int| numbers(pieces(pieces(text, Separator::Newline)[i], Separator::Space), max),
    )
}

/// The beginning of a text of digits is worth no more than the whole.
pub proof fn lemma_decimal_grows(s: Seq<char>, k: int)
    requires
        0 <= k <= s.len(),
    ensures
        decimal(s.take(k)) <= decimal(s),
    decreases s.len() - k,
{
    if k < s.len() {
        lemma_decimal_grows(s, k + 1);
        assert(s.take(k + 1).drop_last() == s.take(k));
    } else {
        assert(s.take(k) == s);
    }
}

/// The characters of a text.
pub fn chars_of(text: &str) -> (r: Vec<char>)
    ensures
        r@ == text@,
{
    let mut out: Vec<char> = Vec::new();
    for c in it: text.chars()
        invariant
            it.seq() == text@,
            out@ == text@.take(it.index() as int),
    {
        out.push(c);
        proof {
            assert(text@.take(it.index() + 1) == text@.take(it.index() as int).push(c));
        }
    }
    proof {
        assert(text@.take(text@.len() as int) == text@);
    }
    out
}

/// The value of a decimal digit.
pub fn digit_of(c: char) -> (r: Option<u64>)
    ensures
        r == match digit(c) {
            Some(d) => Some(d as u64),
            None => None,
        },
{
    let code: u32 = c as u32;
    if 48 <= code && code <= 57 {
        Some((code - 48) as u64)
    } else {
        None
    }
}

/// Parts the characters from `from` up to `to` at the separators and returns
/// where each piece begins and ends.
pub fn split(chars: &Vec<char>, from: usize, to: usize, sep: Separator) -> (r: Vec<(usize, usize)>)
    requires
        from <= to <= chars.len(),
    ensures
        r@.len() == pieces(chars@.subrange(from as int, to as int), sep).len(),
        r@.len() >= 1,
        r@[0].0 == from,
        r@[r@.len() - 1].1 == to,
        forall|k: int| 0 <= k < r@.len() - 1 ==> (#[trigger] r@[k]).1 + 1 == r@[k + 1].0,
        forall|k: int|
            0 <= k < r@.len() ==> from <= (#[trigger] r@[k]).0 <= r@[k].1 <= to && chars@.subrange(
                r@[k].0 as int,
                r@[k].1 as int,
            ) == pieces(chars@.subrange(from as int, to as int), sep)[k],
{
    let ghost whole = chars@.subrange(from as int, to as int);
    let mut out: Vec<(usize, usize)> = Vec::new();
    let mut begin: usize = from;
    let mut i: usize = from;
    proof {
        assert(whole.take(0) =~= Seq::<char>::empty());
        assert(chars@.subrange(from as int, from as int) =~= Seq::<char>::empty());
    }
    while i < to
        invariant
            from <= begin <= i <= to <= chars.len(),
            whole == chars@.subrange(from as int, to as int),
            out@.len() + 1 == pieces(whole.take(i - from), sep).len(),
            out@.len() == 0 ==> begin == from,
            out@.len() > 0 ==> out@[0].0 == from && out@[out@.len() - 1].1 + 1 == begin,
            forall|k: int| 0 <= k < out@.len() - 1 ==> (#[trigger] out@[k]).1 + 1 == out@[k + 1].0,
            chars@.subrange(begin as int, i as int) == pieces(whole.take(i - from), sep).last(),
            forall|k: int|
                0 <= k < out@.len() ==> from <= (#[trigger] out@[k]).0 <= out@[k].1 <= to
                    && chars@.subrange(out@[k].0 as int, out@[k].1 as int) == pieces(
                    whole.take(i - from),
                    sep,
                )[k],
        decreases to - i,
    {
        let c: char = chars[i];
        proof {
            assert(whole.take(i + 1 - from).drop_last() == whole.take(i - from));
            assert(whole.take(i + 1 - from).last() == c);
        }
        if sep.parts_at(c) {
            out.push((begin, i));
            begin = i + 1;
            proof {
                assert(chars@.subrange(begin as int, begin as int) =~= Seq::<char>::empty());
            }
        } else {
            proof {
                assert(chars@.subrange(begin as int, i + 1) =~= chars@.subrange(
                    begin as int,
                    i as int,
                ).push(c));
            }
        }
        i = i + 1;
    }
    proof {
        assert(whole.take(to - from) == whole);
    }
    out.push((begin, to));
    out
}

/// Reads the characters from `from` up to `to` as one number of at most
/// `max`.
pub fn parse_number(chars: &Vec<char>, from: usize, to: usize, max: u64) -> (r: Option<u64>)
    requires
        from <= to <= chars.len(),
    ensures
        r == number(chars@.subrange(from as int, to as int), max),
{
    let ghost token = chars@.subrange(from as int, to as int);
    let first: usize = if from < to && chars[from] == '+' {
        from + 1
    } else {
        from
    };
    let ghost body = chars@.subrange(first as int, to as int);
    proof {
        assert(body =~= unsigned(token));
    }
    if first == to {
        return None;
    }
    let mut value: u64 = 0;
    let mut i: usize = first;
    proof {
        assert(body.take(0) =~= Seq::<char>::empty());
    }
    while i < to
        invariant
            first <= i <= to <= chars.len(),
            body == chars@.subrange(first as int, to as int),
            body == unsigned(chars@.subrange(from as int, to as int)),
            body.len() > 0,
            all_digits(body.take(i - first)),
            value == decimal(body.take(i - first)),
            value <= max,
        decreases to - i,
    {
        proof {
            assert(body.take(i + 1 - first).drop_last() == body.take(i - first));
            assert(body.take(i + 1 - first).last() == chars@[i as int]);
            lemma_decimal_grows(body, i + 1 - first);
        }
        let d: u64 = match digit_of(chars[i]) {
            Some(d) => d,
            None => {
                proof {
                    assert(digit(body[i - first]) is None);
                }
                return None;
            },
        };
        let next: u128 = value as u128 * 10 + d as u128;
        if next > max as u128 {
            return None;
        }
        value = next as u64;
        proof {
            assert forall|k: int| 0 <= k < i + 1 - first implies (#[trigger] digit(
                body.take(i + 1 - first)[k],
            )) is Some by {
                if k < i - first {
                    assert(body.take(i - first)[k] == body.take(i + 1 - first)[k]);
                }
            }
        }
        i = i + 1;
    }
    proof {
        assert(body.take(to - first) == body);
    }
    Some(value)
}

/// Reads the numbers of at most `max` among the pieces of the characters
/// from `from` up to `to`; pieces that are no numbers are passed over.
pub fn read_numbers(chars: &Vec<char>, from: usize, to: usize, sep: Separator, max: u64) -> (r:
    Vec<u64>)
    requires
        from <= to <= chars.len(),
    ensures
        r@ == numbers(pieces(chars@.subrange(from as int, to as int), sep), max),
{
    let ranges = split(chars, from, to, sep);
    let ghost tokens = pieces(chars@.subrange(from as int, to as int), sep);
    let mut out: Vec<u64> = Vec::new();
    let mut k: usize = 0;
    proof {
        assert(tokens.take(0) =~= Seq::<Seq<char>>::empty());
    }
    while k < ranges.len()
        invariant
            k <= ranges.len(),
            ranges@.len() == tokens.len(),
            forall|j: int|
                0 <= j < ranges@.len() ==> from <= (#[trigger] ranges@[j]).0 <= ranges@[j].1 <= to
                    && chars@.subrange(ranges@[j].0 as int, ranges@[j].1 as int) == tokens[j],
            to <= chars.len(),
            out@ == numbers(tokens.take(k as int), max),
        decreases ranges.len() - k,
    {
        proof {
            assert(tokens.take(k + 1).drop_last() == tokens.take(k as int));
            assert(tokens.take(k + 1).last() == tokens[k as int]);
        }
        let range: (usize, usize) = ranges[k];
        match parse_number(chars, range.0, range.1, max) {
            Some(v) => {
                out.push(v);
            },
            None => {},
        }
        k = k + 1;
    }
    proof {
        assert(tokens.take(tokens.len() as int) == tokens);
    }
    out
}

/// Reads the numbers of at most `max` of each line.
pub fn read_line_numbers(chars: &Vec<char>, max: u64) -> (r: Vec<Vec<u64>>)
    ensures
        r@.len() == line_numbers(chars@, max).len(),
        forall|i: int| 0 <= i < r@.len() ==> (#[trigger] r@[i])@ == line_numbers(chars@, max)[i],
{
    let lines = split(chars, 0, chars.len(), Separator::Newline);
    let mut out: Vec<Vec<u64>> = Vec::new();
    let mut k: usize = 0;
    proof {
        assert(chars@.subrange(0, chars.len() as int) == chars@);
    }
    while k < lines.len()
        invariant
            k <= lines.len(),
            lines@.len() == pieces(chars@, Separator::Newline).len(),
            forall|j: int|
                0 <= j < lines@.len() ==> (#[trigger] lines@[j]).0 <= lines@[j].1 <= chars.len()
                    && chars@.subrange(lines@[j].0 as int, lines@[j].1 as int) == pieces(
                    chars@,
                    Separator::Newline,
                )[j],
            out@.len() == k,
            forall|i: int| 0 <= i < k ==> (#[trigger] out@[i])@ == line_numbers(chars@, max)[i],
        decreases lines.len() - k,
    {
        let line: (usize, usize) = lines[k];
        let row = read_numbers(chars, line.0, line.1, Separator::Space, max);
        out.push(row);
        k = k + 1;
    }
    out
}

} // verus!
