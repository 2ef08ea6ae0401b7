use crate::text::chars_of;
use vstd::prelude::*;

verus! {

/// How a line is cut into fields.
#[derive(Debug)]
pub enum Delimiter {
    /// Runs of ASCII whitespace separate fields; no field is empty.
    Whitespace,
    /// Each non-overlapping occurrence of the string, leftmost first,
    /// separates two fields, which may be empty.
    Literal(String),
}

/// ASCII whitespace: space, tab, line feed, form feed and carriage return.
pub open spec fn is_ascii_space(c: char) -> bool {
    c == ' ' || c == '\t' || c == '\n' || c == '\u{c}' || c == '\r'
}

/// The views of a sequence of char vectors.
pub open spec fn views(v: Seq<Vec<char>>) -> Seq<Seq<char>> {
    Seq::new(v.len(), |i: int| v[i]@)
}

/// The maximal runs of non-whitespace chars of `s`, in order.
pub open spec fn words(s: Seq<char>) -> Seq<Seq<char>>
    decreases s.len(),
{
    if s.len() == 0 {
        Seq::empty()
    } else {
        let prev = words(s.drop_last());
        let c = s.last();
        if is_ascii_space(c) {
            prev
        } else if s.len() >= 2 && !is_ascii_space(s[s.len() - 2]) {
            prev.update(prev.len() - 1, prev.last().push(c))
        } else {
            prev.push(seq![c])
        }
    }
}

/// `s` cut at the non-overlapping occurrences of `sep`, found left to right.
/// Read char by char: each char extends the last piece, and once that piece
/// ends with `sep`, the occurrence is removed and a new piece begins. An
/// empty `sep` occurs at every char boundary, so each char is a piece of its
/// own between two empty pieces.
pub open spec fn split_literal(s: Seq<char>, sep: Seq<char>) -> Seq<Seq<char>>
    decreases s.len(),
{
    if sep.len() == 0 {
        seq![Seq::empty()] + Seq::new(s.len(), |i: int| seq![s[i]]) + seq![Seq::empty()]
    } else if s.len() == 0 {
        seq![Seq::empty()]
    } else {
        let prev = split_literal(s.drop_last(), sep);
        let cur = prev.last().push(s.last());
        if cur.len() >= sep.len() && cur.skip(cur.len() - sep.len()) == sep {
            prev.drop_last().push(cur.take(cur.len() - sep.len())).push(Seq::empty())
        } else {
            prev.drop_last().push(cur)
        }
    }
}

/// The fields of `line` under `delim`.
pub open spec fn split_by(line: Seq<char>, delim: Delimiter) -> Seq<Seq<char>> {
    match delim {
        Delimiter::Whitespace => words(line),
        Delimiter::Literal(sep) => split_literal(line, sep@),
    }
}

fn is_space(c: char) -> (r: bool)
    ensures
        r == is_ascii_space(c),
{
    c == ' ' || c == '\t' || c == '\n' || c == '\u{c}' || c == '\r'
}

/// Cuts `line` at runs of ASCII whitespace.
fn split_words(line: &Vec<char>) -> (r: Vec<Vec<char>>)
    ensures
        views(r@) == words(line@),
{
    let mut fields: Vec<Vec<char>> = Vec::new();
    let mut cur: Vec<char> = Vec::new();
    let mut i: usize = 0;
    while i < line.len()
        invariant
            i <= line@.len(),
            words(line@.take(i as int)) == if i > 0 && !is_ascii_space(line@[i - 1]) {
                views(fields@).push(cur@)
            } else {
                views(fields@)
            },
            !(i > 0 && !is_ascii_space(line@[i - 1])) ==> cur@.len() == 0,
        decreases line@.len() - i,
    {
        let c = line[i];
        let ghost vs = views(fields@);
        let ghost cv = cur@;
        assert(line@.take(i + 1).drop_last() =~= line@.take(i as int));
        if is_space(c) {
            if i > 0 && !is_space(line[i - 1]) {
                fields.push(cur);
                cur = Vec::new();
                assert(views(fields@) =~= vs.push(cv));
            }
        } else {
            let in_word = i > 0 && !is_space(line[i - 1]);
            cur.push(c);
            if in_word {
                assert(views(fields@).push(cur@) =~= vs.push(cv).update(vs.len() as int, cv.push(c)));
            } else {
                assert(cur@ =~= seq![c]);
            }
        }
        i += 1;
    }
    if i > 0 && !is_space(line[i - 1]) {
        let ghost vs = views(fields@);
        let ghost cv = cur@;
        fields.push(cur);
        assert(views(fields@) =~= vs.push(cv));
    }
    assert(line@.take(i as int) =~= line@);
    fields
}

/// Whether `cur` ends with `sep`.
fn ends_with(cur: &Vec<char>, sep: &Vec<char>) -> (r: bool)
    ensures
        r == (cur@.len() >= sep@.len() && cur@.skip(cur@.len() - sep@.len()) == sep@),
{
    if cur.len() < sep.len() {
        return false;
    }
    let off = cur.len() - sep.len();
    let mut k: usize = 0;
    while k < sep.len()
        invariant
            sep@.len() <= cur@.len() <= usize::MAX,
            off + sep@.len() == cur@.len(),
            k <= sep@.len(),
            forall|j: int| 0 <= j < k ==> cur@[off + j] == sep@[j],
        decreases sep@.len() - k,
    {
        if cur[off + k] != sep[k] {
            assert(cur@.skip(off as int)[k as int] != sep@[k as int]);
            return false;
        }
        k += 1;
    }
    assert(cur@.skip(off as int) =~= sep@);
    true
}

/// Cuts `line` at the occurrences of `sep`.
fn split_on_literal(line: &Vec<char>, sep: &Vec<char>) -> (r: Vec<Vec<char>>)
    ensures
        views(r@) == split_literal(line@, sep@),
{
    let mut fields: Vec<Vec<char>> = Vec::new();
    if sep.len() == 0 {
        fields.push(Vec::new());
        let mut i: usize = 0;
        while i < line.len()
            invariant
                i <= line@.len(),
                views(fields@) == seq![Seq::<char>::empty()] + Seq::new(
                    i as nat,
                    |j: int| seq![line@[j]],
                ),
            decreases line@.len() - i,
        {
            let ghost vs = views(fields@);
            let mut one: Vec<char> = Vec::new();
            one.push(line[i]);
            assert(one@ =~= seq![line@[i as int]]);
            let ghost ov = one@;
            fields.push(one);
            assert(views(fields@) =~= vs.push(ov));
            i += 1;
            assert(views(fields@) =~= seq![Seq::<char>::empty()] + Seq::new(
                i as nat,
                |j: int| seq![line@[j]],
            ));
        }
        let ghost vs = views(fields@);
        fields.push(Vec::new());
        assert(views(fields@) =~= vs + seq![Seq::<char>::empty()]);
        assert(Seq::new(i as nat, |j: int| seq![line@[j]]) =~= Seq::new(
            line@.len(),
            |j: int| seq![line@[j]],
        ));
        return fields;
    }
    let mut cur: Vec<char> = Vec::new();
    let mut i: usize = 0;
    assert(views(fields@).push(cur@) =~= seq![Seq::<char>::empty()]);
    while i < line.len()
        invariant
            sep@.len() > 0,
            i <= line@.len(),
            split_literal(line@.take(i as int), sep@) == views(fields@).push(cur@),
        decreases line@.len() - i,
    {
        let c = line[i];
        let ghost vs = views(fields@);
        let ghost cv = cur@;
        assert(line@.take(i + 1).drop_last() =~= line@.take(i as int));
        assert(vs.push(cv).drop_last() =~= vs);
        cur.push(c);
        if ends_with(&cur, sep) {
            let keep = cur.len() - sep.len();
            let ghost whole = cur@;
            cur.truncate(keep);
            assert(cur@ =~= whole.take(keep as int));
            fields.push(cur);
            cur = Vec::new();
            assert(views(fields@) =~= vs.push(whole.take(keep as int)));
        }
        i += 1;
    }
    assert(line@.take(i as int) =~= line@);
    let ghost vs = views(fields@);
    let ghost cv = cur@;
    fields.push(cur);
    assert(views(fields@) =~= vs.push(cv));
    fields
}

/// Cuts `line` into its fields under `delim`.
pub fn split_fields(line: &Vec<char>, delim: &Delimiter) -> (r: Vec<Vec<char>>)
    ensures
        views(r@) == split_by(line@, *delim),
{
    match delim {
        Delimiter::Whitespace => split_words(line),
        Delimiter::Literal(sep) => {
            let sep_chars = chars_of(sep.as_str());
            split_on_literal(line, &sep_chars)
        },
    }
}

} // verus!
