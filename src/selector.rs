use crate::text::chars_of;
use vstd::prelude::*;

verus! {

/// A closed interval of field positions, kept exactly as written: `start` may
/// exceed `stop` (the interval is then walked downwards), and either end may be
/// negative (counted from the end of a line).
#[derive(Debug, Clone, Copy, PartialEq, Eq, Structural)]
pub struct FieldRange {
    pub start: isize,
    pub stop: isize,
}

impl FieldRange {
    /// The span from `start` to `stop`, as given.
    pub fn new_span(start: isize, stop: isize) -> (r: Self)
        ensures
            r == (FieldRange { start, stop }),
    {
        FieldRange { start, stop }
    }

    /// The single position `val`.
    pub fn new_val(val: isize) -> (r: Self)
        ensures
            r == (FieldRange { start: val, stop: val }),
    {
        FieldRange { start: val, stop: val }
    }
}

/// The compiled selector: ranges in emission order, repeats allowed.
#[derive(Debug)]
pub struct FieldSelector {
    pub fields: Vec<FieldRange>,
}

/// Why a selector expression was refused.
#[derive(Debug)]
pub enum ParseError {
    /// A comma-separated token was empty.
    EmptyRange,
    /// This part of a token is not a signed decimal `isize`.
    InvalidInteger(String),
}

/// `ParseError` with its text as a sequence of chars.
pub enum ParseFault {
    EmptyRange,
    InvalidInteger(Seq<char>),
}

impl View for ParseError {
    type V = ParseFault;

    open spec fn view(&self) -> ParseFault {
        match self {
            ParseError::EmptyRange => ParseFault::EmptyRange,
            ParseError::InvalidInteger(s) => ParseFault::InvalidInteger(s@),
        }
    }
}

pub open spec fn is_digit(c: char) -> bool {
    '0' <= c && c <= '9'
}

pub open spec fn digit_value(c: char) -> int {
    c as int - '0' as int
}

pub open spec fn all_digits(s: Seq<char>) -> bool {
    forall|i: int| 0 <= i < s.len() ==> is_digit(#[trigger] s[i])
}

/// The number that a run of decimal digits denotes.
pub open spec fn digits_value(s: Seq<char>) -> int
    decreases s.len(),
{
    if s.len() == 0 {
        0
    } else {
        10 * digits_value(s.drop_last()) + digit_value(s.last())
    }
}

/// The integer that `s` denotes in signed decimal notation: an optional `+` or
/// `-`, then one or more digits. `None` for any other text.
pub open spec fn decimal_value(s: Seq<char>) -> Option<int> {
    if s.len() > 0 && (s[0] == '-' || s[0] == '+') {
        let body = s.skip(1);
        if body.len() > 0 && all_digits(body) {
            Some(if s[0] == '-' { -digits_value(body) } else { digits_value(body) })
        } else {
            None
        }
    } else if s.len() > 0 && all_digits(s) {
        Some(digits_value(s))
    } else {
        None
    }
}

/// The `isize` that `s` denotes, when it is signed decimal notation of a value
/// in range.
pub open spec fn isize_value(s: Seq<char>) -> Option<isize> {
    match decimal_value(s) {
        Some(v) => if isize::MIN <= v && v <= isize::MAX {
            Some(v as isize)
        } else {
            None
        },
        None => None,
    }
}

proof fn lemma_digits_value_nonneg(s: Seq<char>)
    requires
        all_digits(s),
    ensures
        digits_value(s) >= 0,
    decreases s.len(),
{
    if s.len() > 0 {
        lemma_digits_value_nonneg(s.drop_last());
    }
}

/// A longer run of digits never denotes less than its prefix.
proof fn lemma_digits_value_prefix(s: Seq<char>, k: int)
    requires
        all_digits(s),
        0 <= k <= s.len(),
    ensures
        digits_value(s.take(k)) <= digits_value(s),
    decreases s.len(),
{
    if k < s.len() {
        let d = s.drop_last();
        assert(d.take(k) =~= s.take(k));
        lemma_digits_value_prefix(d, k);
        lemma_digits_value_nonneg(d);
    } else {
        assert(s.take(k) =~= s);
    }
}

/// Reads `chars[from..to]` as a signed decimal `isize`.
pub fn parse_isize(chars: &Vec<char>, from: usize, to: usize) -> (r: Option<isize>)
    requires
        from <= to <= chars@.len(),
    ensures
        r == isize_value(chars@.subrange(from as int, to as int)),
{
    let ghost s = chars@.subrange(from as int, to as int);
    if from == to {
        return None;
    }
    assert(s[0] == chars[from as int]);
    let negative = chars[from] == '-';
    let start: usize = if chars[from] == '-' || chars[from] == '+' { from + 1 } else { from };
    let ghost body = chars@.subrange(start as int, to as int);
    assert(start == from + 1 ==> body =~= s.skip(1));
    assert(start == from ==> body =~= s);
    if start == to {
        return None;
    }
    let mut i: usize = start;
    while i < to
        invariant
            start <= i <= to <= chars@.len(),
            body == chars@.subrange(start as int, to as int),
            s == chars@.subrange(from as int, to as int),
            s.len() > 0 && s[0] == chars[from as int],
            negative == (s[0] == '-'),
            start == from || start == from + 1,
            start == from + 1 <==> (s[0] == '-' || s[0] == '+'),
            start == from + 1 ==> body == s.skip(1),
            start == from ==> body == s,
            all_digits(body.take(i - start)),
        decreases to - i,
    {
        if !('0' <= chars[i] && chars[i] <= '9') {
            assert(body[i - start] == chars[i as int]);
            assert(!all_digits(body));
            return None;
        }
        assert(body.take(i + 1 - start) =~= body.take(i - start).push(chars[i as int]));
        i += 1;
    }
    assert(body.take(to - start) =~= body);
    let limit: i128 = isize::MAX as i128 + 1;
    let mut acc: i128 = 0;
    let mut j: usize = start;
    while j < to
        invariant
            start <= j <= to <= chars@.len(),
            body == chars@.subrange(start as int, to as int),
            all_digits(body),
            s == chars@.subrange(from as int, to as int),
            s.len() > 0 && s[0] == chars[from as int],
            negative == (s[0] == '-'),
            start == from || start == from + 1,
            start == from + 1 <==> (s[0] == '-' || s[0] == '+'),
            start == from + 1 ==> body == s.skip(1),
            start == from ==> body == s,
            acc == digits_value(body.take(j - start)),
            0 <= acc <= limit,
            limit == isize::MAX + 1,
        decreases to - j,
    {
        assert(body[j - start] == chars[j as int]);
        assert(body.take(j + 1 - start).drop_last() =~= body.take(j - start));
        acc = acc * 10 + (chars[j] as u32 - '0' as u32) as i128;
        j += 1;
        if acc > limit {
            proof {
                lemma_digits_value_prefix(body, j - start);
            }
            return None;
        }
    }
    assert(body.take(to - start) =~= body);
    let v: i128 = if negative { -acc } else { acc };
    if v < isize::MIN as i128 || v > isize::MAX as i128 {
        None
    } else {
        Some(v as isize)
    }
}

/// The first index `k >= i` with `s[k] == c`, or -1 when there is none.
pub open spec fn find_from(s: Seq<char>, c: char, i: int) -> int
    decreases s.len() - i,
{
    if i < 0 || i >= s.len() {
        -1
    } else if s[i] == c {
        i
    } else {
        find_from(s, c, i + 1)
    }
}

pub proof fn lemma_find_from(s: Seq<char>, c: char, i: int)
    requires
        0 <= i,
    ensures
        find_from(s, c, i) == -1 || (i <= find_from(s, c, i) < s.len() && s[find_from(s, c, i)]
            == c),
        find_from(s, c, i) == -1 ==> forall|k: int| i <= k < s.len() ==> s[k] != c,
        find_from(s, c, i) != -1 ==> forall|k: int| i <= k < find_from(s, c, i) ==> s[k] != c,
    decreases s.len() - i,
{
    if i < s.len() && s[i] != c {
        lemma_find_from(s, c, i + 1);
    }
}

/// The range that one comma-separated token denotes. A token with no `-`
/// after its first char is a lone value; otherwise it is split at the first
/// such `-` into the two ends of a span.
pub open spec fn token_range(t: Seq<char>) -> Result<FieldRange, ParseFault> {
    if t.len() == 0 {
        Err(ParseFault::EmptyRange)
    } else {
        let k = find_from(t, '-', 1);
        if k < 0 {
            match isize_value(t) {
                Some(n) => Ok(FieldRange { start: n, stop: n }),
                None => Err(ParseFault::InvalidInteger(t)),
            }
        } else {
            let a = t.take(k);
            let b = t.skip(k + 1);
            match isize_value(a) {
                None => Err(ParseFault::InvalidInteger(a)),
                Some(x) => match isize_value(b) {
                    None => Err(ParseFault::InvalidInteger(b)),
                    Some(y) => Ok(FieldRange { start: x, stop: y }),
                },
            }
        }
    }
}

/// The ranges of the tokens of `s` from index `i` on, tokens being separated
/// by `,`; the error of the first bad token if there is one.
pub open spec fn ranges_from(s: Seq<char>, i: int) -> Result<Seq<FieldRange>, ParseFault>
    decreases s.len() - i,
{
    if i < 0 || i > s.len() {
        Ok(Seq::empty())
    } else {
        let k = find_from(s, ',', i);
        if k < 0 {
            match token_range(s.subrange(i, s.len() as int)) {
                Err(e) => Err(e),
                Ok(r) => Ok(seq![r]),
            }
        } else {
            proof {
                lemma_find_from(s, ',', i);
            }
            match token_range(s.subrange(i, k)) {
                Err(e) => Err(e),
                Ok(r) => match ranges_from(s, k + 1) {
                    Err(e) => Err(e),
                    Ok(rs) => Ok(seq![r] + rs),
                },
            }
        }
    }
}

/// What a selector expression compiles to.
pub open spec fn parse_selector(s: Seq<char>) -> Result<Seq<FieldRange>, ParseFault> {
    ranges_from(s, 0)
}

pub open spec fn range_outcome(r: Result<FieldRange, ParseError>) -> Result<FieldRange, ParseFault> {
    match r {
        Ok(x) => Ok(x),
        Err(e) => Err(e@),
    }
}

pub open spec fn selector_outcome(r: Result<FieldSelector, ParseError>) -> Result<Seq<FieldRange>, ParseFault> {
    match r {
        Ok(sel) => Ok(sel.fields@),
        Err(e) => Err(e@),
    }
}

/// The text of `text[from..to]` as an error.
fn invalid_integer(text: &str, from: usize, to: usize) -> (e: ParseError)
    requires
        from <= to <= text@.len(),
    ensures
        e@ == ParseFault::InvalidInteger(text@.subrange(from as int, to as int)),
{
    ParseError::InvalidInteger(text.substring_char(from, to).to_owned())
}

/// Compiles the token `chars[from..to]` of `text`.
fn parse_token(text: &str, chars: &Vec<char>, from: usize, to: usize) -> (r: Result<FieldRange, ParseError>)
    requires
        chars@ == text@,
        from <= to <= chars@.len(),
    ensures
        range_outcome(r) == token_range(chars@.subrange(from as int, to as int)),
{
    let ghost t = chars@.subrange(from as int, to as int);
    if from == to {
        return Err(ParseError::EmptyRange);
    }
    let mut k: usize = from + 1;
    while k < to && chars[k] != '-'
        invariant
            from < k <= to <= chars@.len(),
            t == chars@.subrange(from as int, to as int),
            find_from(t, '-', 1) == find_from(t, '-', k - from),
        decreases to - k,
    {
        k += 1;
    }
    if k == to {
        match parse_isize(chars, from, to) {
            Some(n) => Ok(FieldRange::new_val(n)),
            None => Err(invalid_integer(text, from, to)),
        }
    } else {
        assert(t.take(k - from) =~= chars@.subrange(from as int, k as int));
        assert(t.skip(k - from + 1) =~= chars@.subrange(k + 1, to as int));
        match parse_isize(chars, from, k) {
            None => Err(invalid_integer(text, from, k)),
            Some(x) => match parse_isize(chars, k + 1, to) {
                None => Err(invalid_integer(text, k + 1, to)),
                Some(y) => Ok(FieldRange::new_span(x, y)),
            },
        }
    }
}

/// Compiles a selector expression: comma-separated tokens, each a signed
/// integer `N` (the range `{N, N}`) or a span `A-B` (the range `{A, B}`).
pub fn field_parser(s: &str) -> (r: Result<FieldSelector, ParseError>)
    ensures
        selector_outcome(r) == parse_selector(s@),
{
    let chars = chars_of(s);
    let mut fields: Vec<FieldRange> = Vec::new();
    let mut ts: usize = 0;
    let mut i: usize = 0;
    loop
        invariant
            chars@ == s@,
            ts <= i <= chars@.len(),
            find_from(chars@, ',', ts as int) == find_from(chars@, ',', i as int),
            parse_selector(s@) == match ranges_from(chars@, ts as int) {
                Err(e) => Err(e),
                Ok(rs) => Ok(fields@ + rs),
            },
        decreases chars@.len() - i,
    {
        if i == chars.len() || chars[i] == ',' {
            let ghost prev = fields@;
            let tok = parse_token(s, &chars, ts, i);
            match tok {
                Err(e) => {
                    return Err(e);
                },
                Ok(range) => {
                    fields.push(range);
                    proof {
                        assert(fields@ =~= prev + seq![range]);
                        if i < chars@.len() {
                            assert forall|rs: Seq<FieldRange>| fields@ + rs =~= prev + (seq![range] + rs) by {}
                        }
                    }
                },
            }
            if i == chars.len() {
                return Ok(FieldSelector { fields });
            }
            i += 1;
            ts = i;
        } else {
            i += 1;
        }
    }
}

} // verus!
