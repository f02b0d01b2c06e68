use lanthir::oats::{parse_oats, Groat, Marker};
use lanthir::oats_runner::{groats_to_oatlets, oatlet_runs, Oatlet};
use lanthir::text::ParseError;

#[test]
fn and_then() {
    let oats = r#"~ hello
        "#;
    let grains = parse_oats(&oats).unwrap();
    assert_eq!(grains[0].marker, Some(Marker::AndThen));
    assert_eq!(grains[0].content, Some(String::from("hello")));
}

#[test]
fn optional() {
    let oats = r#"? hello
        "#;
    let grains = parse_oats(&oats).unwrap();
    assert_eq!(grains[0].marker, Some(Marker::Optional));
    assert_eq!(grains[0].content, Some(String::from("hello")));
}

#[test]
fn one_of() {
    let oats = r#"| hello
        "#;
    let grains = parse_oats(&oats).unwrap();
    assert_eq!(grains[0].marker, Some(Marker::OneOf));
    assert_eq!(grains[0].content, Some(String::from("hello")));
}

#[test]
fn unordered() {
    let oats = r#"& hello
        "#;
    let grains = parse_oats(&oats).unwrap();
    assert_eq!(grains[0].marker, Some(Marker::Unordered));
    assert_eq!(grains[0].content, Some(String::from("hello")));
}

#[test]
fn all_together() {
    let oats = r#"& hello
    & there // comment
    // this comment shouldn't change anything

    | foo
    // this comment shouldn't change anything
    ~ bar
    ? baz
        "#;
    let grains = parse_oats(&oats).unwrap();
    assert_eq!(grains[0].marker, Some(Marker::Unordered));
    assert_eq!(grains[0].content, Some(String::from("hello")));
    assert_eq!(grains[1].marker, Some(Marker::Unordered));
    assert_eq!(grains[1].content, Some(String::from("there")));
    assert_eq!(grains[2].marker, Some(Marker::Breaker));
    assert_eq!(grains[2].content, None);
    assert_eq!(grains[3].marker, Some(Marker::OneOf));
    assert_eq!(grains[3].content, Some(String::from("foo")));
    assert_eq!(grains[4].marker, Some(Marker::AndThen));
    assert_eq!(grains[4].content, Some(String::from("bar")));
    assert_eq!(grains[5].marker, Some(Marker::Optional));
    assert_eq!(grains[5].content, Some(String::from("baz")));
}

#[test]
fn clipboard_groats() {
    let oats = r#"& hello
    & there // comment
    // this comment shouldn't change anything
    = blah blah

    | foo
    // this comment shouldn't change anything
    ~ bar
        "#;
    let grains = parse_oats(&oats).unwrap();
    assert_eq!(grains[0].marker, Some(Marker::Unordered));
    assert_eq!(grains[0].content, Some(String::from("hello")));
    assert_eq!(grains[1].marker, Some(Marker::Unordered));
    assert_eq!(grains[1].content, Some(String::from("there")));
    assert_eq!(grains[2].marker, Some(Marker::Clipbo));
    assert_eq!(grains[2].content, Some(String::from("blah blah")));
    assert_eq!(grains[3].marker, Some(Marker::Breaker));
    assert_eq!(grains[3].content, None);
    assert_eq!(grains[4].marker, Some(Marker::OneOf));
    assert_eq!(grains[4].content, Some(String::from("foo")));
    assert_eq!(grains[5].marker, Some(Marker::AndThen));
    assert_eq!(grains[5].content, Some(String::from("bar")));
}

#[test]
fn clipboard_oatlets() {
    let oats = r#"& hello
    & there // comment
    // this comment shouldn't change anything
    = blah blah

    | foo
    // this comment shouldn't change anything
    ~ bar
        "#;
    let groats: Vec<Groat> = parse_oats(&oats).unwrap();
    let oatlets: Vec<Oatlet> = groats_to_oatlets(&groats);
    assert_eq!(oatlets[0].marker, Marker::Unordered);
    assert_eq!(oatlets[0].content, Some(String::from("hello")));
    assert_eq!(oatlets[0].clipboard, None);
    assert_eq!(oatlets[0].done, false);
    assert_eq!(oatlets[1].marker, Marker::Unordered);
    assert_eq!(oatlets[1].content, Some(String::from("there")));
    assert_eq!(oatlets[1].clipboard, Some(String::from("blah blah")));
    assert_eq!(oatlets[2].marker, Marker::Breaker);
    assert_eq!(oatlets[2].content, None);
    assert_eq!(oatlets[3].marker, Marker::OneOf);
    assert_eq!(oatlets[3].content, Some(String::from("foo")));
    assert_eq!(oatlets[4].marker, Marker::AndThen);
    assert_eq!(oatlets[4].content, Some(String::from("bar")));
}

fn grain(marker: Marker, content: &str) -> Groat {
    Groat { marker: Some(marker), content: Some(String::from(content)) }
}

fn run_sizes(oatlets: &Vec<Oatlet>) -> Vec<usize> {
    oatlet_runs(oatlets).iter().map(|(a, b)| b - a).collect()
}

#[test]
fn runs_group_contiguous_markers() {
    let groats = vec![
        grain(Marker::Unordered, "a"),
        grain(Marker::Unordered, "b"),
        grain(Marker::OneOf, "c"),
        grain(Marker::AndThen, "d"),
        grain(Marker::Optional, "e"),
    ];
    let oatlets = groats_to_oatlets(&groats);
    assert_eq!(run_sizes(&oatlets), vec![2, 1, 1, 1]);
    assert_eq!(oatlet_runs(&oatlets), vec![(0, 2), (2, 3), (3, 4), (4, 5)]);
}

#[test]
fn runs_do_not_sort_and_breaks_stand_alone() {
    let groats = vec![
        grain(Marker::AndThen, "a"),
        grain(Marker::OneOf, "b"),
        grain(Marker::AndThen, "c"),
        grain(Marker::AndThen, "d"),
        Groat { marker: Some(Marker::Breaker), content: None },
        Groat { marker: Some(Marker::Breaker), content: None },
    ];
    let oatlets = groats_to_oatlets(&groats);
    assert_eq!(run_sizes(&oatlets), vec![1, 1, 2, 1, 1]);
    assert!(oatlet_runs(&Vec::new()).is_empty());
}

#[test]
fn clipboard_attaches_to_preceding_oatlet() {
    let groats = vec![
        grain(Marker::Unordered, "a"),
        grain(Marker::Clipbo, "text"),
        grain(Marker::Unordered, "b"),
    ];
    let oatlets = groats_to_oatlets(&groats);
    assert_eq!(oatlets.len(), 2);
    assert_eq!(oatlets[0].clipboard, Some(String::from("text")));
    assert_eq!(oatlets[1].clipboard, None);
}

#[test]
fn leading_clipboard_is_dropped() {
    let groats = vec![grain(Marker::Clipbo, "text"), grain(Marker::AndThen, "a")];
    let oatlets = groats_to_oatlets(&groats);
    assert_eq!(oatlets.len(), 1);
    assert_eq!(oatlets[0].marker, Marker::AndThen);
    assert_eq!(oatlets[0].clipboard, None);
    let oatlets = groats_to_oatlets(&vec![grain(Marker::Clipbo, "only")]);
    assert!(oatlets.is_empty());
}

#[test]
fn grains_without_marker_are_skipped() {
    let groats = vec![Groat { marker: None, content: Some(String::from("x")) }, grain(Marker::OneOf, "a")];
    let oatlets = groats_to_oatlets(&groats);
    assert_eq!(oatlets.len(), 1);
    assert_eq!(oatlets[0].content, Some(String::from("a")));
}

#[test]
fn blank_lines_make_one_break_between_declarations() {
    let grains = parse_oats("\n\n~ a\n\n\n  \n~ b\n\n").unwrap();
    assert_eq!(grains.len(), 3);
    assert_eq!(grains[1].marker, Some(Marker::Breaker));
    let grains = parse_oats("~ a\n// note\n~ b\n").unwrap();
    assert_eq!(grains.len(), 2);
}

#[test]
fn unknown_marker_is_an_error() {
    let r = parse_oats("~ a\nhello\n");
    assert_eq!(r.err(), Some(ParseError { line: 2 }));
}

#[test]
fn empty_sequence_text() {
    assert!(parse_oats("").unwrap().is_empty());
    assert!(parse_oats("   \n// only a note\n").unwrap().is_empty());
}
