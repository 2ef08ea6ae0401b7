use crate::job::{cut_line, join, picked, picked_span, selected};
use crate::selector::{
    all_digits, decimal_value, digit_value, digits_value, find_from, is_digit, isize_value,
    lemma_find_from, parse_selector, FieldRange, ParseFault,
};
use crate::split::{is_ascii_space, split_by, split_literal, words, Delimiter};
use vstd::prelude::*;

verus! {

/// The decimal digit for `d`, `0 <= d < 10`.
pub open spec fn digit_char(d: int) -> char {
    ((48 + d) as u8) as char
}

/// The digits of `n` in decimal, without leading zeros.
pub open spec fn digits_of(n: nat) -> Seq<char>
    decreases n,
{
    if n < 10 {
        seq![digit_char(n as int)]
    } else {
        digits_of(n / 10).push(digit_char(n as int % 10))
    }
}

/// How `n` is written in decimal: a `-` for a negative value, then digits.
pub open spec fn decimal(n: int) -> Seq<char> {
    if n < 0 {
        seq!['-'] + digits_of((-n) as nat)
    } else {
        digits_of(n as nat)
    }
}

proof fn lemma_digits_of(n: nat)
    ensures
        digits_of(n).len() >= 1,
        all_digits(digits_of(n)),
        digits_value(digits_of(n)) == n,
    decreases n,
{
    let d = n as int % 10;
    assert(digit_value(digit_char(d)) == d);
    if n >= 10 {
        lemma_digits_of(n / 10);
        let s = digits_of(n);
        assert(s.drop_last() =~= digits_of(n / 10));
        assert(10 * (n / 10) + d == n);
        assert(s.last() == digit_char(d));
        assert(digits_value(s) == 10 * digits_value(s.drop_last()) + digit_value(s.last()));
    } else {
        let s = digits_of(n);
        assert(s.drop_last() =~= Seq::<char>::empty());
        assert(digits_value(s.drop_last()) == 0);
        assert(d == n);
        assert(digits_value(s) == 10 * digits_value(s.drop_last()) + digit_value(s.last()));
    }
    let s = digits_of(n);
    assert forall|i: int| 0 <= i < s.len() implies is_digit(#[trigger] s[i]) by {
        if n >= 10 && i < s.len() - 1 {
            assert(s[i] == digits_of(n / 10)[i]);
        }
    }
}

/// The text `decimal(n)` reads back as `n`.
proof fn lemma_decimal_value(n: int)
    ensures
        decimal_value(decimal(n)) == Some(n),
        decimal(n).len() >= 1,
        forall|i: int| 1 <= i < decimal(n).len() ==> is_digit(#[trigger] decimal(n)[i]),
{
    if n < 0 {
        lemma_digits_of((-n) as nat);
        assert(decimal(n).skip(1) =~= digits_of((-n) as nat));
        assert forall|i: int| 1 <= i < decimal(n).len() implies is_digit(#[trigger] decimal(n)[i]) by {
            assert(decimal(n)[i] == digits_of((-n) as nat)[i - 1]);
        }
    } else {
        lemma_digits_of(n as nat);
    }
}

proof fn lemma_no_char(s: Seq<char>, c: char, i: int)
    requires
        0 <= i,
        forall|k: int| i <= k < s.len() ==> s[k] != c,
    ensures
        find_from(s, c, i) == -1,
{
    lemma_find_from(s, c, i);
}

/// A selector made of one integer, written in decimal, compiles to the
/// single range `{n, n}`.
pub proof fn lemma_parse_single(n: isize)
    ensures
        parse_selector(decimal(n as int)) == Ok::<Seq<FieldRange>, ParseFault>(
            seq![FieldRange { start: n, stop: n }],
        ),
{
    let s = decimal(n as int);
    lemma_decimal_value(n as int);
    assert forall|k: int| 0 <= k < s.len() implies s[k] != ',' by {
        if k == 0 && n < 0 {
        } else if k == 0 {
            lemma_digits_of(n as nat);
            assert(is_digit(digits_of(n as nat)[0]));
        }
    }
    lemma_no_char(s, ',', 0);
    lemma_no_char(s, '-', 1);
    assert(s.subrange(0, s.len() as int) =~= s);
    assert(isize_value(s) == Some(n));
}

/// A span `a-b`, both ends written in decimal, compiles to the single range
/// `{a, b}`, ends kept as written, whichever is larger.
pub proof fn lemma_parse_span(a: isize, b: isize)
    ensures
        parse_selector(decimal(a as int) + seq!['-'] + decimal(b as int)) == Ok::<
            Seq<FieldRange>,
            ParseFault,
        >(seq![FieldRange { start: a, stop: b }]),
{
    let da = decimal(a as int);
    let db = decimal(b as int);
    let t = da + seq!['-'] + db;
    lemma_decimal_value(a as int);
    lemma_decimal_value(b as int);
    if a >= 0 {
        lemma_digits_of(a as nat);
        assert(is_digit(da[0]));
    }
    if b >= 0 {
        lemma_digits_of(b as nat);
        assert(is_digit(db[0]));
    }
    assert forall|k: int| 0 <= k < t.len() implies t[k] != ',' by {
        if k < da.len() {
            assert(t[k] == da[k]);
        } else if k > da.len() {
            assert(t[k] == db[k - da.len() - 1]);
        }
    }
    lemma_no_char(t, ',', 0);
    let k = da.len() as int;
    assert forall|j: int| 1 <= j < k implies t[j] != '-' by {
        assert(t[j] == da[j]);
    }
    lemma_find_from(t, '-', 1);
    assert(t[k] == '-');
    if find_from(t, '-', 1) != k {
        assert(find_from(t, '-', 1) < k || find_from(t, '-', 1) == -1);
    }
    assert(find_from(t, '-', 1) == k);
    assert(t.take(k) =~= da);
    assert(t.skip(k + 1) =~= db);
    assert(t.subrange(0, t.len() as int) =~= t);
    assert(isize_value(da) == Some(a));
    assert(isize_value(db) == Some(b));
}

/// The span `i..=n` of a line of `n` fields picks fields `i` to `n`.
proof fn lemma_span_to_end(f: Seq<Seq<char>>, i: int)
    requires
        1 <= i <= f.len(),
    ensures
        picked_span(f, i, f.len() as int) == f.subrange(i - 1, f.len() as int),
    decreases f.len() - i,
{
    if i < f.len() {
        lemma_span_to_end(f, i + 1);
        assert(seq![f[i - 1]] + f.subrange(i, f.len() as int) =~= f.subrange(i - 1, f.len() as int));
    } else {
        assert(seq![f[i - 1]] =~= f.subrange(i - 1, f.len() as int));
    }
}

/// The selector `1-n`, where `n` is the number of fields of `line`, compiles
/// to one range, and the output line holds every field of `line`, in order,
/// joined by the separator.
pub proof fn lemma_full_span(line: Seq<char>, delim: Delimiter, sep: Seq<char>, n: isize)
    requires
        n == split_by(line, delim).len(),
    ensures
        parse_selector(decimal(1) + seq!['-'] + decimal(n as int)) == Ok::<
            Seq<FieldRange>,
            ParseFault,
        >(seq![FieldRange { start: 1, stop: n }]),
        cut_line(line, delim, seq![FieldRange { start: 1, stop: n }], sep) == join(
            split_by(line, delim),
            sep,
        ).push('\n'),
{
    lemma_parse_span(1, n);
    let f = split_by(line, delim);
    let sel = seq![FieldRange { start: 1, stop: n }];
    assert(sel.drop_last() =~= Seq::<FieldRange>::empty());
    assert(selected(f, sel) == selected(f, sel.drop_last()) + picked_span(f, 1, n as int));
    assert(selected(f, sel.drop_last()) == Seq::<Seq<char>>::empty());
    if n == 0 {
        assert(picked_span(f, 0, 0) == picked(f, 0));
        assert(picked(f, 0) =~= Seq::<Seq<char>>::empty());
        assert(picked(f, 1) =~= Seq::<Seq<char>>::empty());
        assert(picked_span(f, 1, 0) == picked(f, 1) + picked_span(f, 0, 0));
        assert(f =~= Seq::<Seq<char>>::empty());
        assert(selected(f, sel) =~= f);
    } else {
        lemma_span_to_end(f, 1);
        assert(f.subrange(0, f.len() as int) =~= f);
        assert(selected(f, sel) =~= f);
    }
}

/// A run of non-whitespace chars is one word.
proof fn lemma_words_single(f: Seq<char>, k: int)
    requires
        1 <= k <= f.len(),
        forall|j: int| 0 <= j < f.len() ==> !is_ascii_space(#[trigger] f[j]),
    ensures
        words(f.take(k)) == seq![f.take(k)],
    decreases k,
{
    let x = f.take(k);
    assert(x.drop_last() =~= f.take(k - 1));
    if k == 1 {
        assert(words(x.drop_last()) =~= Seq::<Seq<char>>::empty());
        assert(x =~= seq![f[0]]);
    } else {
        lemma_words_single(f, k - 1);
        assert(f.take(k - 1).push(f[k - 1]) =~= x);
        assert(seq![f.take(k - 1)].update(0, f.take(k - 1).push(f[k - 1])) =~= seq![x]);
    }
}

/// A space, then a run of non-whitespace chars, adds one word.
proof fn lemma_words_after_space(s: Seq<char>, f: Seq<char>, k: int)
    requires
        0 <= k <= f.len(),
        forall|j: int| 0 <= j < f.len() ==> !is_ascii_space(#[trigger] f[j]),
    ensures
        k == 0 ==> words(s + seq![' '] + f.take(k)) == words(s),
        k > 0 ==> words(s + seq![' '] + f.take(k)) == words(s).push(f.take(k)),
    decreases k,
{
    let x = s + seq![' '] + f.take(k);
    if k == 0 {
        assert(x.drop_last() =~= s);
    } else {
        lemma_words_after_space(s, f, k - 1);
        assert(x.drop_last() =~= s + seq![' '] + f.take(k - 1));
        assert(f.take(k - 1).push(f[k - 1]) =~= f.take(k));
        if k == 1 {
            assert(x[x.len() - 2] == ' ');
            assert(f.take(1) =~= seq![f[0]]);
        } else {
            assert(x[x.len() - 2] == f[k - 2]);
            let w = words(s);
            assert(w.push(f.take(k - 1)).update(w.len() as int, f.take(k)) =~= w.push(f.take(k)));
        }
    }
}

/// Words without whitespace, joined by single spaces, split back into the
/// same words.
proof fn lemma_words_join(fields: Seq<Seq<char>>)
    requires
        forall|i: int| 0 <= i < fields.len() ==> #[trigger] fields[i].len() > 0,
        forall|i: int, j: int|
            0 <= i < fields.len() && 0 <= j < fields[i].len() ==> !is_ascii_space(
                #[trigger] fields[i][j],
            ),
    ensures
        words(join(fields, seq![' '])) == fields,
    decreases fields.len(),
{
    if fields.len() == 1 {
        let f = fields[0];
        lemma_words_single(f, f.len() as int);
        assert(f.take(f.len() as int) =~= f);
        assert(seq![f] =~= fields);
    } else if fields.len() > 1 {
        let rest = fields.drop_last();
        let f = fields.last();
        lemma_words_join(rest);
        lemma_words_after_space(join(rest, seq![' ']), f, f.len() as int);
        assert(f.take(f.len() as int) =~= f);
        assert(rest.push(f) =~= fields);
    } else {
        assert(words(Seq::<char>::empty()) =~= Seq::<Seq<char>>::empty());
        assert(fields =~= Seq::<Seq<char>>::empty());
    }
}

/// Fields without whitespace, joined by single spaces, make a line that
/// comes back unchanged when it is cut on whitespace, every field is
/// selected with `1-n`, and a single space joins them.
pub proof fn lemma_round_trip(fields: Seq<Seq<char>>)
    requires
        fields.len() <= isize::MAX,
        forall|i: int| 0 <= i < fields.len() ==> #[trigger] fields[i].len() > 0,
        forall|i: int, j: int|
            0 <= i < fields.len() && 0 <= j < fields[i].len() ==> !is_ascii_space(
                #[trigger] fields[i][j],
            ),
    ensures
        cut_line(
            join(fields, seq![' ']),
            Delimiter::Whitespace,
            seq![FieldRange { start: 1, stop: fields.len() as isize }],
            seq![' '],
        ) == join(fields, seq![' ']).push('\n'),
{
    let line = join(fields, seq![' ']);
    lemma_words_join(fields);
    lemma_full_span(line, Delimiter::Whitespace, seq![' '], fields.len() as isize);
}

proof fn lemma_split_literal_nonempty(s: Seq<char>, sep: Seq<char>)
    ensures
        split_literal(s, sep).len() >= 1,
    decreases s.len(),
{
    if sep.len() > 0 && s.len() > 0 {
        lemma_split_literal_nonempty(s.drop_last(), sep);
    }
}

/// Text free of the char `c` is one piece when cut at `c`.
proof fn lemma_literal_single(f: Seq<char>, c: char, k: int)
    requires
        0 <= k <= f.len(),
        forall|j: int| 0 <= j < f.len() ==> #[trigger] f[j] != c,
    ensures
        split_literal(f.take(k), seq![c]) == seq![f.take(k)],
    decreases k,
{
    if k > 0 {
        lemma_literal_single(f, c, k - 1);
        let x = f.take(k);
        assert(x.drop_last() =~= f.take(k - 1));
        assert(f.take(k - 1).push(f[k - 1]) =~= x);
        assert(x.skip(x.len() - 1) =~= seq![f[k - 1]]);
        assert(seq![f[k - 1]][0] != seq![c][0]);
        assert(seq![f.take(k - 1)].drop_last().push(x) =~= seq![x]);
    } else {
        assert(f.take(0) =~= Seq::<char>::empty());
    }
}

/// The char `c`, then text free of `c`, adds one piece when cut at `c`.
proof fn lemma_literal_after_sep(s: Seq<char>, c: char, f: Seq<char>, k: int)
    requires
        0 <= k <= f.len(),
        forall|j: int| 0 <= j < f.len() ==> #[trigger] f[j] != c,
    ensures
        split_literal(s + seq![c] + f.take(k), seq![c]) == split_literal(s, seq![c]).push(
            f.take(k),
        ),
    decreases k,
{
    let x = s + seq![c] + f.take(k);
    let p = split_literal(s, seq![c]);
    if k == 0 {
        lemma_split_literal_nonempty(s, seq![c]);
        assert(x.drop_last() =~= s);
        let cur = p.last().push(c);
        assert(cur.skip(cur.len() - 1) =~= seq![c]);
        assert(cur.take(cur.len() - 1) =~= p.last());
        assert(p.drop_last().push(p.last()) =~= p);
        assert(f.take(0) =~= Seq::<char>::empty());
    } else {
        lemma_literal_after_sep(s, c, f, k - 1);
        assert(x.drop_last() =~= s + seq![c] + f.take(k - 1));
        let cur = f.take(k - 1).push(f[k - 1]);
        assert(cur =~= f.take(k));
        assert(cur.skip(cur.len() - 1) =~= seq![f[k - 1]]);
        assert(seq![f[k - 1]][0] != seq![c][0]);
        assert(p.push(f.take(k - 1)).drop_last() =~= p);
    }
}

/// Pieces free of the char `c`, joined by `c`, cut back into the same pieces.
proof fn lemma_literal_join(fields: Seq<Seq<char>>, c: char)
    requires
        fields.len() >= 1,
        forall|i: int, j: int|
            0 <= i < fields.len() && 0 <= j < fields[i].len() ==> #[trigger] fields[i][j] != c,
    ensures
        split_literal(join(fields, seq![c]), seq![c]) == fields,
    decreases fields.len(),
{
    if fields.len() == 1 {
        let f = fields[0];
        lemma_literal_single(f, c, f.len() as int);
        assert(f.take(f.len() as int) =~= f);
        assert(seq![f] =~= fields);
    } else {
        let rest = fields.drop_last();
        let f = fields.last();
        lemma_literal_join(rest, c);
        lemma_literal_after_sep(join(rest, seq![c]), c, f, f.len() as int);
        assert(f.take(f.len() as int) =~= f);
        assert(rest.push(f) =~= fields);
    }
}

/// Pieces free of the one-char delimiter `d`, joined by `d`, make a line
/// that comes back unchanged when it is cut at `d`, every field is selected
/// with `1-n`, and `d` joins them.
pub proof fn lemma_round_trip_literal(fields: Seq<Seq<char>>, d: String)
    requires
        d@.len() == 1,
        1 <= fields.len() <= isize::MAX,
        forall|i: int, j: int|
            0 <= i < fields.len() && 0 <= j < fields[i].len() ==> #[trigger] fields[i][j] != d@[0],
    ensures
        cut_line(
            join(fields, d@),
            Delimiter::Literal(d),
            seq![FieldRange { start: 1, stop: fields.len() as isize }],
            d@,
        ) == join(fields, d@).push('\n'),
{
    let c = d@[0];
    assert(d@ =~= seq![c]);
    lemma_literal_join(fields, c);
    lemma_full_span(join(fields, d@), Delimiter::Literal(d), d@, fields.len() as isize);
}

/// In a line of three fields, the selector `1,5,2` emits the first and the
/// second field; position 5 names no field and adds no separator.
pub proof fn lemma_out_of_range_omitted(line: Seq<char>, delim: Delimiter, sep: Seq<char>)
    requires
        split_by(line, delim).len() == 3,
    ensures
        cut_line(
            line,
            delim,
            seq![
                FieldRange { start: 1, stop: 1 },
                FieldRange { start: 5, stop: 5 },
                FieldRange { start: 2, stop: 2 },
            ],
            sep,
        ) == (split_by(line, delim)[0] + sep + split_by(line, delim)[1]).push('\n'),
{
    let f = split_by(line, delim);
    let sel = seq![
        FieldRange { start: 1, stop: 1 },
        FieldRange { start: 5, stop: 5 },
        FieldRange { start: 2, stop: 2 },
    ];
    let s1 = sel.drop_last().drop_last();
    let s2 = sel.drop_last();
    assert(s1.drop_last() =~= Seq::<FieldRange>::empty());
    assert(s2.drop_last() =~= s1);
    assert(selected(f, s1.drop_last()) == Seq::<Seq<char>>::empty());
    assert(picked_span(f, 1, 1) == picked(f, 1));
    assert(picked_span(f, 5, 5) == picked(f, 5));
    assert(picked_span(f, 2, 2) == picked(f, 2));
    assert(picked(f, 5) =~= Seq::<Seq<char>>::empty());
    assert(selected(f, s1) =~= seq![f[0]]);
    assert(selected(f, s2) =~= seq![f[0]]);
    assert(selected(f, sel) =~= seq![f[0], f[1]]);
    let parts = seq![f[0], f[1]];
    assert(parts.drop_last() =~= seq![f[0]]);
    assert(join(parts, sep) == join(parts.drop_last(), sep) + sep + parts.last());
    assert(join(seq![f[0]], sep) == f[0]);
}

/// A span walked upwards, with its last index left off, then that index.
proof fn lemma_span_snoc(f: Seq<Seq<char>>, a: int, b: int)
    requires
        a < b,
    ensures
        picked_span(f, a, b) == picked_span(f, a, b - 1) + picked(f, b),
    decreases b - a,
{
    assert(picked_span(f, a, b) == picked(f, a) + picked_span(f, a + 1, b));
    if a + 1 < b {
        lemma_span_snoc(f, a + 1, b);
        assert(picked_span(f, a, b - 1) == picked(f, a) + picked_span(f, a + 1, b - 1));
        assert(picked(f, a) + (picked_span(f, a + 1, b - 1) + picked(f, b)) =~= (picked(f, a)
            + picked_span(f, a + 1, b - 1)) + picked(f, b));
    } else {
        assert(picked_span(f, b, b) == picked(f, b));
        assert(picked_span(f, a, a) == picked(f, a));
    }
}

/// A span written from its high end to its low end emits the same fields as
/// the span written low to high, in reverse order.
pub proof fn lemma_descending_span(f: Seq<Seq<char>>, a: int, b: int)
    requires
        a <= b,
    ensures
        picked_span(f, b, a) == picked_span(f, a, b).reverse(),
    decreases b - a,
{
    if a < b {
        assert(picked_span(f, b, a) == picked(f, b) + picked_span(f, b - 1, a));
        lemma_descending_span(f, a, b - 1);
        lemma_span_snoc(f, a, b);
        let x = picked_span(f, a, b - 1);
        let y = picked(f, b);
        assert(y.reverse() =~= y);
        assert((x + y).reverse() =~= y + x.reverse());
    } else {
        assert(picked(f, a).reverse() =~= picked(f, a));
    }
}

} // verus!
