use crate::selector::{
    field_parser, parse_selector, FieldRange, FieldSelector, ParseError,
    ParseFault,
};
use crate::split::{split_by, split_fields, split_literal, views, Delimiter};
use crate::text::{chars_of, push_all, string_of};
use vstd::prelude::*;

verus! {

/// The 1-based position that a raw index names in a line of `count` fields:
/// a negative index counts back from the end, so -1 is the last field.
pub open spec fn resolve(idx: int, count: int) -> int {
    if idx < 0 {
        count + idx + 1
    } else {
        idx
    }
}

/// The field that `idx` names, or nothing when it names no field.
pub open spec fn picked(fields: Seq<Seq<char>>, idx: int) -> Seq<Seq<char>> {
    let p = resolve(idx, fields.len() as int);
    if 1 <= p <= fields.len() {
        seq![fields[p - 1]]
    } else {
        Seq::empty()
    }
}

/// The fields that the indices `from, ..., to` name, walking upwards when
/// `from <= to` and downwards otherwise.
pub open spec fn picked_span(fields: Seq<Seq<char>>, from: int, to: int) -> Seq<Seq<char>>
    decreases (if from <= to { to - from } else { from - to }),
{
    if from == to {
        picked(fields, from)
    } else if from < to {
        picked(fields, from) + picked_span(fields, from + 1, to)
    } else {
        picked(fields, from) + picked_span(fields, from - 1, to)
    }
}

/// The fields that a selector emits, range after range.
pub open spec fn selected(fields: Seq<Seq<char>>, sel: Seq<FieldRange>) -> Seq<Seq<char>>
    decreases sel.len(),
{
    if sel.len() == 0 {
        Seq::empty()
    } else {
        selected(fields, sel.drop_last()) + picked_span(
            fields,
            sel.last().start as int,
            sel.last().stop as int,
        )
    }
}

/// `parts` with `sep` between each two neighbours.
pub open spec fn join(parts: Seq<Seq<char>>, sep: Seq<char>) -> Seq<char>
    decreases parts.len(),
{
    if parts.len() == 0 {
        Seq::empty()
    } else if parts.len() == 1 {
        parts[0]
    } else {
        join(parts.drop_last(), sep) + sep + parts.last()
    }
}

/// The output line for `line`: the selected fields joined by `sep`, then a
/// newline.
pub open spec fn cut_line(line: Seq<char>, delim: Delimiter, sel: Seq<FieldRange>, sep: Seq<char>) -> Seq<char> {
    join(selected(split_by(line, delim), sel), sep).push('\n')
}

/// A line without the `\r` of a `\r\n` terminator.
pub open spec fn strip_cr(l: Seq<char>) -> Seq<char> {
    if l.len() > 0 && l.last() == '\r' {
        l.drop_last()
    } else {
        l
    }
}

/// The lines of a text: each ends at `\n` or `\r\n`, which is not part of
/// it, and a last line may lack a terminator.
pub open spec fn text_lines(s: Seq<char>) -> Seq<Seq<char>> {
    let pieces = split_literal(s, seq!['\n']);
    let ended = pieces.drop_last().map_values(|l: Seq<char>| strip_cr(l));
    if pieces.last().len() == 0 {
        ended
    } else {
        ended.push(pieces.last())
    }
}

/// The output lines for `lines`, one after the other.
pub open spec fn cut_lines(
    lines: Seq<Seq<char>>,
    delim: Delimiter,
    sel: Seq<FieldRange>,
    sep: Seq<char>,
) -> Seq<char>
    decreases lines.len(),
{
    if lines.len() == 0 {
        Seq::empty()
    } else {
        cut_lines(lines.drop_last(), delim, sel, sep) + cut_line(lines.last(), delim, sel, sep)
    }
}

/// The 0-based place in a line of `count` fields of the field that `idx`
/// names, if it names one.
pub fn field_index(idx: isize, count: usize) -> (r: Option<usize>)
    ensures
        r == (if 1 <= resolve(idx as int, count as int) <= count {
            Some((resolve(idx as int, count as int) - 1) as usize)
        } else {
            None
        }),
{
    if idx < 0 {
        let back = (-(idx + 1)) as usize;
        if back < count {
            Some(count - 1 - back)
        } else {
            None
        }
    } else {
        let p = idx as usize;
        if 1 <= p && p <= count {
            Some(p - 1)
        } else {
            None
        }
    }
}

proof fn lemma_join_push(parts: Seq<Seq<char>>, sep: Seq<char>, f: Seq<char>)
    ensures
        join(parts.push(f), sep) == if parts.len() == 0 {
            f
        } else {
            join(parts, sep) + sep + f
        },
{
    assert(parts.push(f).drop_last() =~= parts);
}

/// An index that names no field of a line of `count` fields, counted from
/// either end.
pub open spec fn beyond(idx: int, count: int) -> bool {
    idx > count || idx < -count
}

/// A span of indices that all name no field picks nothing.
proof fn lemma_span_nothing(f: Seq<Seq<char>>, a: int, b: int)
    requires
        forall|i: int|
            (a <= i <= b || b <= i <= a) ==> #[trigger] beyond(i, f.len() as int),
    ensures
        picked_span(f, a, b) == Seq::<Seq<char>>::empty(),
    decreases (if a <= b { b - a } else { a - b }),
{
    assert(beyond(a, f.len() as int));
    assert(picked(f, a) =~= Seq::<Seq<char>>::empty());
    if a < b {
        lemma_span_nothing(f, a + 1, b);
    } else if a > b {
        lemma_span_nothing(f, a - 1, b);
    }
}

/// Leading indices of a span that name no field can be skipped.
proof fn lemma_span_skip(f: Seq<Seq<char>>, a: int, a2: int, b: int)
    requires
        a <= a2 <= b || b <= a2 <= a,
        forall|i: int|
            (a <= i < a2 || a2 < i <= a) ==> #[trigger] beyond(i, f.len() as int),
    ensures
        picked_span(f, a, b) == picked_span(f, a2, b),
    decreases (if a <= a2 { a2 - a } else { a - a2 }),
{
    if a != a2 {
        assert(beyond(a, f.len() as int));
        assert(picked(f, a) =~= Seq::<Seq<char>>::empty());
        if a < a2 {
            assert(picked_span(f, a, b) =~= picked_span(f, a + 1, b));
            lemma_span_skip(f, a + 1, a2, b);
        } else {
            assert(picked_span(f, a, b) =~= picked_span(f, a - 1, b));
            lemma_span_skip(f, a - 1, a2, b);
        }
    }
}

/// The compiled job: how to cut lines, which fields to keep, and what goes
/// between them.
#[derive(Debug)]
pub struct CutJob {
    pub input_delim: Delimiter,
    pub selector: FieldSelector,
    pub output_separator: String,
}

impl CutJob {
    /// Appends to `out` the output line for `line`.
    fn cut_into(&self, line: &Vec<char>, sep: &Vec<char>, out: &mut Vec<char>)
        requires
            sep@ == self.output_separator@,
        ensures
            final(out)@ == old(out)@ + cut_line(
                line@,
                self.input_delim,
                self.selector.fields@,
                self.output_separator@,
            ),
    {
        let fields = split_fields(line, &self.input_delim);
        let ghost fv = views(fields@);
        let ghost sel = self.selector.fields@;
        let mut emitted: Vec<char> = Vec::new();
        let ghost mut parts: Seq<Seq<char>> = Seq::empty();
        let mut needs_sep = false;
        let mut j: usize = 0;
        while j < self.selector.fields.len()
            invariant
                fv == views(fields@),
                sel == self.selector.fields@,
                sep@ == self.output_separator@,
                j <= sel.len(),
                parts == selected(fv, sel.take(j as int)),
                emitted@ == join(parts, sep@),
                needs_sep == (parts.len() > 0),
            decreases sel.len() - j,
        {
            let range = self.selector.fields[j];
            let ghost target = selected(fv, sel.take(j + 1));
            assert(sel.take(j + 1).drop_last() =~= sel.take(j as int));
            let mut idx: isize = range.start;
            loop
                invariant_except_break
                    range.start <= range.stop ==> range.start <= idx <= range.stop,
                    range.start > range.stop ==> range.stop <= idx <= range.start,
                    parts + picked_span(fv, idx as int, range.stop as int) == target,
                invariant
                    fv == views(fields@),
                    sep@ == self.output_separator@,
                    emitted@ == join(parts, sep@),
                    needs_sep == (parts.len() > 0),
                ensures
                    parts == target,
                decreases (if idx <= range.stop {
                    range.stop - idx
                } else {
                    idx - range.stop
                }),
            {
                // Runs of indices beyond the line's fields pick nothing: skip
                // them, so that a wide span costs no more than the line.
                let count = fields.len() as i128;
                let at = idx as i128;
                let stop = range.stop as i128;
                if range.start <= range.stop {
                    if at > count || (at < -count && stop < -count) {
                        proof {
                            lemma_span_nothing(fv, idx as int, range.stop as int);
                        }
                        assert(parts =~= target);
                        break;
                    }
                    if at < -count {
                        proof {
                            lemma_span_skip(fv, idx as int, -count, range.stop as int);
                        }
                        idx = (-count) as isize;
                    }
                } else {
                    if at < -count || (at > count && stop > count) {
                        proof {
                            lemma_span_nothing(fv, idx as int, range.stop as int);
                        }
                        assert(parts =~= target);
                        break;
                    }
                    if at > count {
                        proof {
                            lemma_span_skip(fv, idx as int, count as int, range.stop as int);
                        }
                        idx = count as isize;
                    }
                }
                let ghost before = parts;
                match field_index(idx, fields.len()) {
                    Some(p) => {
                        proof {
                            lemma_join_push(parts, sep@, fv[p as int]);
                            parts = parts.push(fv[p as int]);
                        }
                        if needs_sep {
                            push_all(&mut emitted, sep);
                        }
                        push_all(&mut emitted, &fields[p]);
                        needs_sep = true;
                        assert(parts =~= before + picked(fv, idx as int));
                    },
                    None => {
                        assert(parts =~= before + picked(fv, idx as int));
                    },
                }
                if idx == range.stop {
                    assert(parts =~= target);
                    break;
                }
                let ghost here = idx;
                if idx < range.stop {
                    idx = idx + 1;
                } else {
                    idx = idx - 1;
                }
                assert(before + picked_span(fv, here as int, range.stop as int) =~= parts
                    + picked_span(fv, idx as int, range.stop as int));
            }
            assert(parts =~= target);
            j += 1;
        }
        assert(sel.take(j as int) =~= sel);
        push_all(out, &emitted);
        out.push('\n');
        assert(out@ =~= old(out)@ + join(parts, sep@).push('\n'));
    }

    /// The output line for `line`, newline included.
    pub fn process_line(&self, line: &str) -> (r: String)
        ensures
            r@ == cut_line(
                line@,
                self.input_delim,
                self.selector.fields@,
                self.output_separator@,
            ),
    {
        let chars = chars_of(line);
        let sep = chars_of(self.output_separator.as_str());
        let mut out: Vec<char> = Vec::new();
        self.cut_into(&chars, &sep, &mut out);
        assert(out@ =~= cut_line(
            line@,
            self.input_delim,
            self.selector.fields@,
            self.output_separator@,
        ));
        string_of(&out)
    }

    /// The output for a whole text: one output line per line of `input`.
    pub fn process_reader(&self, input: &str) -> (r: String)
        ensures
            r@ == cut_lines(
                text_lines(input@),
                self.input_delim,
                self.selector.fields@,
                self.output_separator@,
            ),
    {
        let ghost delim = self.input_delim;
        let ghost sel = self.selector.fields@;
        let ghost sepv = self.output_separator@;
        let ghost nl = seq!['\n'];
        let chars = chars_of(input);
        let sep = chars_of(self.output_separator.as_str());
        let mut out: Vec<char> = Vec::new();
        let mut cur: Vec<char> = Vec::new();
        let ghost mut done: Seq<Seq<char>> = Seq::empty();
        let mut i: usize = 0;
        assert(done.push(cur@) =~= seq![Seq::<char>::empty()]);
        while i < chars.len()
            invariant
                chars@ == input@,
                sep@ == sepv,
                delim == self.input_delim,
                sel == self.selector.fields@,
                sepv == self.output_separator@,
                nl == seq!['\n'],
                i <= chars@.len(),
                split_literal(chars@.take(i as int), nl) == done.push(cur@),
                out@ == cut_lines(done.map_values(|l: Seq<char>| strip_cr(l)), delim, sel, sepv),
            decreases chars@.len() - i,
        {
            let c = chars[i];
            let ghost cv = cur@;
            assert(chars@.take(i + 1).drop_last() =~= chars@.take(i as int));
            assert(done.push(cv).drop_last() =~= done);
            assert(cv.push(c).skip(cv.len() as int) =~= seq![c]);
            assert(cv.push(c).take(cv.len() as int) =~= cv);
            let ghost done0 = done;
            if c == '\n' {
                assert(cv.push(c).skip(cv.len() as int) == nl);
                if cur.len() > 0 && cur[cur.len() - 1] == '\r' {
                    cur.pop();
                }
                assert(cur@ =~= strip_cr(cv));
                self.cut_into(&cur, &sep, &mut out);
                proof {
                    let ghost old_done = done;
                    done = done.push(cv);
                    assert(done.map_values(|l: Seq<char>| strip_cr(l)) =~= old_done.map_values(
                        |l: Seq<char>| strip_cr(l),
                    ).push(strip_cr(cv)));
                    assert(done.map_values(|l: Seq<char>| strip_cr(l)).drop_last() =~= old_done.map_values(
                        |l: Seq<char>| strip_cr(l),
                    ));
                }
                cur = Vec::new();
                assert(done.push(cur@) =~= done0.push(cv).push(Seq::empty()));
            } else {
                assert(seq![c][0] != nl[0]);
                cur.push(c);
            }
            i += 1;
        }
        assert(chars@.take(i as int) =~= chars@);
        let ghost pieces = done.push(cur@);
        assert(pieces.drop_last() =~= done);
        if cur.len() > 0 {
            self.cut_into(&cur, &sep, &mut out);
            let ghost ended = done.map_values(|l: Seq<char>| strip_cr(l));
            assert(ended.push(cur@).drop_last() =~= ended);
        }
        string_of(&out)
    }
}

/// The views of a sequence of strings.
pub open spec fn string_views(v: Seq<String>) -> Seq<Seq<char>> {
    Seq::new(v.len(), |i: int| v[i]@)
}

/// The selector text of a command line: the explicit one if given, else the
/// positional arguments joined by commas.
pub open spec fn selector_text(fields: Option<String>, args: Seq<String>) -> Seq<char> {
    match fields {
        Some(f) => f@,
        None => join(string_views(args), seq![',']),
    }
}

/// The output separator: the one given, else the input delimiter's string,
/// else a single space.
pub open spec fn separator_choice(delimiter: Option<String>, output_separator: Option<String>) -> Seq<char> {
    match output_separator {
        Some(o) => o@,
        None => match delimiter {
            Some(d) => d@,
            None => seq![' '],
        },
    }
}

/// `args` joined by commas.
fn comma_join(args: &Vec<String>) -> (r: String)
    ensures
        r@ == join(string_views(args@), seq![',']),
{
    let mut out: Vec<char> = Vec::new();
    let mut i: usize = 0;
    while i < args.len()
        invariant
            i <= args@.len(),
            out@ == join(string_views(args@.take(i as int)), seq![',']),
        decreases args@.len() - i,
    {
        let ghost prev = string_views(args@.take(i as int));
        let a = chars_of(args[i].as_str());
        if i > 0 {
            out.push(',');
        }
        push_all(&mut out, &a);
        proof {
            lemma_join_push(prev, seq![','], args@[i as int]@);
            assert(string_views(args@.take(i + 1)) =~= prev.push(args@[i as int]@));
            if i > 0 {
                assert(out@ =~= join(prev, seq![',']) + seq![','] + args@[i as int]@);
            }
        }
        i += 1;
    }
    assert(args@.take(i as int) =~= args@);
    string_of(&out)
}

/// Builds the job from the options of a command line. With an explicit
/// selector (`fields`), the positional arguments are the inputs; without
/// one, they are the selector's tokens and there are no named inputs.
pub fn assemble_job(
    delimiter: Option<String>,
    output_separator: Option<String>,
    fields: Option<String>,
    args: Vec<String>,
) -> (r: Result<(CutJob, Vec<String>), ParseError>)
    ensures
        match r {
            Ok((job, inputs)) => {
                &&& parse_selector(selector_text(fields, args@)) == Ok::<
                    Seq<FieldRange>,
                    ParseFault,
                >(job.selector.fields@)
                &&& job.input_delim == match delimiter {
                    Some(d) => Delimiter::Literal(d),
                    None => Delimiter::Whitespace,
                }
                &&& job.output_separator@ == separator_choice(delimiter, output_separator)
                &&& inputs@ == if fields is Some {
                    args@
                } else {
                    Seq::<String>::empty()
                }
            },
            Err(e) => parse_selector(selector_text(fields, args@)) == Err::<
                Seq<FieldRange>,
                ParseFault,
            >(e@),
        },
{
    let parsed = match &fields {
        Some(f) => field_parser(f.as_str()),
        None => {
            let text = comma_join(&args);
            field_parser(text.as_str())
        },
    };
    let selector = match parsed {
        Ok(sel) => sel,
        Err(e) => {
            return Err(e);
        },
    };
    let inputs = if fields.is_some() {
        args
    } else {
        Vec::new()
    };
    let sep: String = match &output_separator {
        Some(o) => o.clone(),
        None => match &delimiter {
            Some(d) => d.clone(),
            None => {
                let mut space: Vec<char> = Vec::new();
                space.push(' ');
                assert(space@ =~= seq![' ']);
                string_of(&space)
            },
        },
    };
    let input_delim = match delimiter {
        Some(d) => Delimiter::Literal(d),
        None => Delimiter::Whitespace,
    };
    Ok((CutJob { input_delim, selector, output_separator: sep }, inputs))
}

} // verus!
