use rcut::{
    assemble_job, field_index, field_parser, muffle_epipe, record_failure, CutJob, Delimiter,
    FieldRange, ParseError, RunError,
};

fn job(delim: Delimiter, selector: &str, sep: &str) -> CutJob {
    CutJob {
        input_delim: delim,
        selector: field_parser(selector).unwrap(),
        output_separator: sep.to_string(),
    }
}

fn spans(selector: &str) -> Vec<FieldRange> {
    field_parser(selector).unwrap().fields
}

fn invalid_text(selector: &str) -> String {
    match field_parser(selector) {
        Err(ParseError::InvalidInteger(s)) => s,
        other => panic!("expected an invalid integer, got {:?}", other),
    }
}

#[test]
fn test_simple_field_parsing() {
    assert_eq!(FieldRange::new_val(1), FieldRange::new_span(1, 1));
    assert_eq!(
        field_parser("1").unwrap().fields,
        vec![FieldRange::new_val(1)]
    );
    assert_eq!(
        field_parser("1,2").unwrap().fields,
        vec![FieldRange::new_val(1), FieldRange::new_val(2)]
    );
    assert_eq!(
        field_parser("1-1").unwrap().fields,
        vec![FieldRange::new_val(1)]
    );
    assert_eq!(
        field_parser("1-4").unwrap().fields,
        vec![FieldRange::new_span(1, 4)]
    );
    assert_eq!(
        field_parser("1-2,3-4").unwrap().fields,
        vec![FieldRange::new_span(1, 2), FieldRange::new_span(3, 4)]
    );
    assert_eq!(
        field_parser("2-1,3-4").unwrap().fields,
        vec![FieldRange::new_span(2, 1), FieldRange::new_span(3, 4)]
    );
}

#[test]
fn test_cut_job() {
    let simple_alphabet = "a b c d e f g\np q r s t u\ni j k\n";
    let job1 = CutJob {
        input_delim: Delimiter::Whitespace,
        selector: field_parser("-1").unwrap(),
        output_separator: " ".to_string(),
    };
    assert_eq!(job1.process_reader(simple_alphabet), "g\nu\nk\n");

    let job2 = CutJob {
        input_delim: Delimiter::Whitespace,
        selector: field_parser("1-3").unwrap(),
        output_separator: " ".to_string(),
    };
    assert_eq!(job2.process_reader(simple_alphabet), "a b c\np q r\ni j k\n");
}

#[test]
fn single_integer_is_one_range() {
    assert_eq!(spans("7"), vec![FieldRange::new_val(7)]);
    assert_eq!(spans("-3"), vec![FieldRange::new_val(-3)]);
    assert_eq!(spans("+5"), vec![FieldRange::new_val(5)]);
    assert_eq!(spans("0"), vec![FieldRange::new_val(0)]);
    assert_eq!(
        spans("9223372036854775807"),
        vec![FieldRange::new_val(isize::MAX)]
    );
    assert_eq!(
        spans("-9223372036854775808"),
        vec![FieldRange::new_val(isize::MIN)]
    );
}

#[test]
fn span_endpoints_kept_verbatim() {
    assert_eq!(spans("2-1"), vec![FieldRange { start: 2, stop: 1 }]);
    assert_eq!(spans("1-2"), vec![FieldRange { start: 1, stop: 2 }]);
    assert_ne!(spans("2-1"), spans("1-2"));
    assert_eq!(spans("-3--1"), vec![FieldRange::new_span(-3, -1)]);
    assert_eq!(spans("1--3"), vec![FieldRange::new_span(1, -3)]);
    assert_eq!(spans("-2-4"), vec![FieldRange::new_span(-2, 4)]);
}

#[test]
fn negative_tokens_in_a_list() {
    assert_eq!(
        spans("-1,-3,-5"),
        vec![
            FieldRange::new_val(-1),
            FieldRange::new_val(-3),
            FieldRange::new_val(-5)
        ]
    );
}

#[test]
fn empty_token_rejected() {
    assert!(matches!(field_parser("1,,2"), Err(ParseError::EmptyRange)));
    assert!(matches!(field_parser("1,"), Err(ParseError::EmptyRange)));
    assert!(matches!(field_parser(",1"), Err(ParseError::EmptyRange)));
    assert!(matches!(field_parser(""), Err(ParseError::EmptyRange)));
}

#[test]
fn invalid_integer_names_the_bad_part() {
    assert_eq!(invalid_text("a"), "a");
    assert_eq!(invalid_text("1-x"), "x");
    assert_eq!(invalid_text("y-2"), "y");
    assert_eq!(invalid_text("1-"), "");
    assert_eq!(invalid_text("1- 2"), " 2");
    assert_eq!(invalid_text(" 1"), " 1");
    assert_eq!(invalid_text("1-2-3"), "2-3");
    assert_eq!(invalid_text("-"), "-");
    assert_eq!(invalid_text("+"), "+");
    assert_eq!(invalid_text("3,z"), "z");
    assert_eq!(invalid_text("9223372036854775808"), "9223372036854775808");
    assert_eq!(invalid_text("-9223372036854775809"), "-9223372036854775809");
}

#[test]
fn first_bad_token_wins() {
    assert_eq!(invalid_text("q,,2"), "q");
    assert!(matches!(field_parser("1,,r"), Err(ParseError::EmptyRange)));
}

#[test]
fn negative_index_resolution() {
    let line = "a b c d e f g";
    assert_eq!(job(Delimiter::Whitespace, "-1", " ").process_line(line), "g\n");
    assert_eq!(
        job(Delimiter::Whitespace, "-1,-3,-5", " ").process_line(line),
        "g e c\n"
    );
    assert_eq!(job(Delimiter::Whitespace, "-7", " ").process_line(line), "a\n");
    assert_eq!(job(Delimiter::Whitespace, "-8", " ").process_line(line), "\n");
}

#[test]
fn out_of_range_omitted() {
    assert_eq!(
        job(Delimiter::Whitespace, "1,5,2", "|").process_line("a b c"),
        "a|b\n"
    );
    assert_eq!(job(Delimiter::Whitespace, "0", " ").process_line("a b c"), "\n");
    assert_eq!(
        job(Delimiter::Whitespace, "4-6,1", " ").process_line("a b c"),
        "a\n"
    );
}

#[test]
fn reordering() {
    assert_eq!(
        job(Delimiter::Whitespace, "3,1,2", " ").process_line("a b c"),
        "c a b\n"
    );
    assert_eq!(
        job(Delimiter::Whitespace, "1,1,1", "-").process_line("x y"),
        "x-x-x\n"
    );
}

#[test]
fn descending_span() {
    assert_eq!(
        job(Delimiter::Whitespace, "5-2", " ").process_line("a b c d e f"),
        "e d c b\n"
    );
    assert_eq!(
        job(Delimiter::Whitespace, "-1--3", " ").process_line("a b c d"),
        "d c b\n"
    );
    assert_eq!(
        job(Delimiter::Whitespace, "-3--1", " ").process_line("a b c d"),
        "b c d\n"
    );
}

#[test]
fn full_span_reproduces_fields() {
    assert_eq!(
        job(Delimiter::Whitespace, "1-4", ",").process_line("  w  x\ty   z "),
        "w,x,y,z\n"
    );
}

#[test]
fn whitespace_round_trip() {
    let line = "alpha beta gamma";
    assert_eq!(
        job(Delimiter::Whitespace, "1-3", " ").process_line(line),
        "alpha beta gamma\n"
    );
}

#[test]
fn whitespace_splitting_ignores_runs_and_ends() {
    let j = job(Delimiter::Whitespace, "1-10", "|");
    assert_eq!(j.process_line(" \t a \x0c b\r c  "), "a|b|c\n");
    assert_eq!(j.process_line(""), "\n");
    assert_eq!(j.process_line("   "), "\n");
}

#[test]
fn literal_delimiter_keeps_empty_fields() {
    let j = job(Delimiter::Literal(":".to_string()), "1-4", ",");
    assert_eq!(j.process_line("a:b::c"), "a,b,,c\n");
    let third = job(Delimiter::Literal(":".to_string()), "3", ",");
    assert_eq!(third.process_line("a:b::c"), "\n");
    let last = job(Delimiter::Literal(":".to_string()), "-1", ",");
    assert_eq!(last.process_line("a:b:"), "\n");
    assert_eq!(last.process_line(""), "\n");
}

#[test]
fn literal_delimiter_of_several_chars() {
    let j = job(Delimiter::Literal("::".to_string()), "1-9", "|");
    assert_eq!(j.process_line("a::b:c::::d"), "a|b:c||d\n");
    let k = job(Delimiter::Literal("aa".to_string()), "1-9", "|");
    assert_eq!(k.process_line("aaa"), "|a\n");
    assert_eq!(k.process_line("baaaab"), "b||b\n");
}

#[test]
fn empty_literal_delimiter_splits_every_char() {
    let j = job(Delimiter::Literal(String::new()), "1-9", "|");
    assert_eq!(j.process_line("abc"), "|a|b|c|\n");
    let k = job(Delimiter::Literal(String::new()), "2", "|");
    assert_eq!(k.process_line("xyz"), "x\n");
}

#[test]
fn non_ascii_text() {
    let j = job(Delimiter::Literal("→".to_string()), "2,1", "·");
    assert_eq!(j.process_line("héllo→wörld"), "wörld·héllo\n");
}

#[test]
fn reader_line_endings() {
    let j = job(Delimiter::Whitespace, "2", " ");
    assert_eq!(j.process_reader("a b\r\nc d\n"), "b\nd\n");
    assert_eq!(j.process_reader("a b\nc d"), "b\nd\n");
    assert_eq!(j.process_reader(""), "");
    assert_eq!(j.process_reader("\n\n"), "\n\n");
    let k = job(Delimiter::Literal(",".to_string()), "2", " ");
    assert_eq!(k.process_reader("a,b\r\n"), "b\n");
    assert_eq!(k.process_reader("a,b\r"), "b\r\n");
}

#[test]
fn field_index_resolution() {
    assert_eq!(field_index(1, 3), Some(0));
    assert_eq!(field_index(3, 3), Some(2));
    assert_eq!(field_index(4, 3), None);
    assert_eq!(field_index(0, 3), None);
    assert_eq!(field_index(-1, 3), Some(2));
    assert_eq!(field_index(-3, 3), Some(0));
    assert_eq!(field_index(-4, 3), None);
    assert_eq!(field_index(isize::MIN, 3), None);
    assert_eq!(field_index(-1, 0), None);
}

#[test]
fn job_from_explicit_selector() {
    let (j, inputs) = assemble_job(None, None, Some("1".to_string()), vec![]).unwrap();
    assert_eq!(j.selector.fields, vec![FieldRange::new_val(1)]);
    assert!(inputs.is_empty());
    assert!(matches!(j.input_delim, Delimiter::Whitespace));
    assert_eq!(j.output_separator, " ");

    let (j, inputs) = assemble_job(
        None,
        None,
        Some("1".to_string()),
        vec!["/etc/passwd".to_string()],
    )
    .unwrap();
    assert_eq!(j.selector.fields, vec![FieldRange::new_val(1)]);
    assert_eq!(inputs, vec!["/etc/passwd".to_string()]);
}

#[test]
fn job_from_positional_selector() {
    let (j, inputs) = assemble_job(None, None, None, vec!["1".to_string()]).unwrap();
    assert_eq!(j.selector.fields, vec![FieldRange::new_val(1)]);
    assert!(inputs.is_empty());

    let (j, inputs) = assemble_job(None, None, None, vec!["1-5".to_string()]).unwrap();
    assert_eq!(j.selector.fields, vec![FieldRange::new_span(1, 5)]);
    assert!(inputs.is_empty());

    let (j, _) = assemble_job(None, None, None, vec!["3".to_string(), "1-2".to_string()]).unwrap();
    assert_eq!(
        j.selector.fields,
        vec![FieldRange::new_val(3), FieldRange::new_span(1, 2)]
    );

    let (j, _) = assemble_job(None, None, None, vec!["-1".to_string(), "-2".to_string()]).unwrap();
    assert_eq!(
        j.selector.fields,
        vec![FieldRange::new_val(-1), FieldRange::new_val(-2)]
    );
}

#[test]
fn job_separator_defaults() {
    let (j, _) = assemble_job(Some(":".to_string()), None, Some("1".to_string()), vec![]).unwrap();
    assert!(matches!(&j.input_delim, Delimiter::Literal(d) if d == ":"));
    assert_eq!(j.output_separator, ":");

    let (j, _) = assemble_job(
        Some(":".to_string()),
        Some("\t".to_string()),
        Some("1".to_string()),
        vec![],
    )
    .unwrap();
    assert_eq!(j.output_separator, "\t");
}

#[test]
fn job_refuses_bad_selector() {
    assert!(matches!(
        assemble_job(None, None, Some("1,,2".to_string()), vec![]),
        Err(ParseError::EmptyRange)
    ));
    assert!(matches!(
        assemble_job(None, None, None, vec![]),
        Err(ParseError::EmptyRange)
    ));
    assert!(matches!(
        assemble_job(None, None, None, vec!["x".to_string()]),
        Err(ParseError::InvalidInteger(s)) if s == "x"
    ));
}

#[test]
fn broken_pipe_is_quiet() {
    let pipe = RunError::Io {
        source_name: None,
        broken_pipe: true,
        message: "broken pipe".to_string(),
    };
    assert!(muffle_epipe(pipe).is_ok());
    let missing = RunError::Io {
        source_name: Some("nope.txt".to_string()),
        broken_pipe: false,
        message: "not found".to_string(),
    };
    assert!(muffle_epipe(missing).is_err());
    assert!(muffle_epipe(RunError::Selector(ParseError::EmptyRange)).is_err());
}

#[test]
fn first_failure_is_kept() {
    let first = record_failure(None, Ok(()));
    assert!(first.is_none());
    let first = record_failure(first, Err(RunError::Selector(ParseError::EmptyRange)));
    let first = record_failure(
        first,
        Err(RunError::Io {
            source_name: Some("b".to_string()),
            broken_pipe: false,
            message: "later".to_string(),
        }),
    );
    assert!(matches!(first, Some(RunError::Selector(ParseError::EmptyRange))));
}

#[test]
fn wide_spans_finish() {
    let line = "a b c";
    let cut = |sel: &str| job(Delimiter::Whitespace, sel, " ").process_line(line);
    assert_eq!(cut("1-9223372036854775807"), "a b c\n");
    assert_eq!(cut("9223372036854775807-1"), "c b a\n");
    assert_eq!(cut("-9223372036854775808--1"), "a b c\n");
    assert_eq!(cut("-1--9223372036854775808"), "c b a\n");
    assert_eq!(
        cut("-9223372036854775808-9223372036854775807"),
        "a b c a b c\n"
    );
    assert_eq!(
        cut("9223372036854775807--9223372036854775808"),
        "c b a c b a\n"
    );
    assert_eq!(cut("5-9223372036854775807"), "\n");
    assert_eq!(cut("-9223372036854775808--4"), "\n");
}

#[test]
fn literal_round_trip() {
    let line = "x:y::z";
    assert_eq!(
        job(Delimiter::Literal(":".to_string()), "1-4", ":").process_line(line),
        "x:y::z\n"
    );
}
