use std::cmp::Ordering;

use compiler_utils::ErrorDisplaySettings;
use compiler_utils::ErrorKind;
use compiler_utils::ErrorLevel;
use compiler_utils::FileWalker;
use compiler_utils::LineDisplay;
use compiler_utils::MultiNoteDisplay;
use compiler_utils::Note;
use compiler_utils::NoteDisplay;
use compiler_utils::Location;
use compiler_utils::RegionRender;
use compiler_utils::Span;

const CLEAR: &str = "\x1b[0m";
const CYAN: &str = "\x1b[36m";

#[test]
fn line_display_no_color() {
    let settings = ErrorDisplaySettings { colored: false };

    let line_display = LineDisplay::new(
        Span::from_components(
            Location::from_components(0, 41, "input.txt"),
            "Hello World!",
        ),
        &settings,
    );

    assert_eq!(line_display.to_string(), " 42 |Hello World!");
}

#[test]
fn line_display_color() {
    let settings = ErrorDisplaySettings { colored: true };

    let line_display = LineDisplay::new(
        Span::from_components(
            Location::from_components(0, 41, "input.txt"),
            "Hello World!",
        ),
        &settings,
    );

    assert_eq!(
        line_display.to_string(),
        format!("{CYAN} 42 |{CLEAR}Hello World!")
    );
}

#[test]
fn region_render() {
    let settings = ErrorDisplaySettings::default();

    let input = "ABC\n DEF\nGHI\n JKL";
    let walker = FileWalker::from_data(input, "input.txt");

    let inner_span = Span::from_components(
        Location::from_components(0, 2, "input.txt"),
        &input[10..12],
    );

    let mut region_render0 = RegionRender::new(&settings, &inner_span, &walker, 0);

    assert_eq!(
        region_render0.next(),
        Some(LineDisplay::new(
            Span::from_components(Location::from_components(0, 2, "input.txt"), "GHI"),
            &settings
        ))
    );
    assert_eq!(region_render0.next(), None);

    let mut region_render1 = RegionRender::new(&settings, &inner_span, &walker, 1);

    assert_eq!(
        region_render1.next(),
        Some(LineDisplay::new(
            Span::from_components(Location::from_components(0, 1, "input.txt"), " DEF"),
            &settings
        ))
    );
    assert_eq!(
        region_render1.next(),
        Some(LineDisplay::new(
            Span::from_components(Location::from_components(0, 2, "input.txt"), "GHI"),
            &settings
        ))
    );
    assert_eq!(
        region_render1.next(),
        Some(LineDisplay::new(
            Span::from_components(Location::from_components(0, 3, "input.txt"), " JKL"),
            &settings
        ))
    );
    assert_eq!(region_render1.next(), None);

    let mut region_render2 = RegionRender::new(&settings, &inner_span, &walker, 2);

    assert_eq!(
        region_render2.next(),
        Some(LineDisplay::new(
            Span::from_components(Location::from_components(0, 0, "input.txt"), "ABC"),
            &settings
        ))
    );
    assert_eq!(
        region_render2.next(),
        Some(LineDisplay::new(
            Span::from_components(Location::from_components(0, 1, "input.txt"), " DEF"),
            &settings
        ))
    );
    assert_eq!(
        region_render2.next(),
        Some(LineDisplay::new(
            Span::from_components(Location::from_components(0, 2, "input.txt"), "GHI"),
            &settings
        ))
    );
    assert_eq!(
        region_render2.next(),
        Some(LineDisplay::new(
            Span::from_components(Location::from_components(0, 3, "input.txt"), " JKL"),
            &settings
        ))
    );
    assert_eq!(region_render2.next(), None);
}

#[test]
fn multi_note_rows_descend_by_column() {

    let settings = ErrorDisplaySettings { colored: false };
    let wide_span = Span::from_components(Location::from_components(3, 5, "f"), "ZZ");
    let narrow_span = Span::from_components(Location::from_components(1, 5, "f"), "Y");
    let elsewhere = Span::from_components(Location::from_components(0, 6, "f"), "Q");

    let notes = vec![
        Note::new(&narrow_span, "narrow", ErrorLevel::Info),
        Note::new(&elsewhere, "elsewhere", ErrorLevel::Info),
        Note::new(&wide_span, "wide", ErrorLevel::Info),
    ];

    let display = MultiNoteDisplay::new(&settings, &notes, 5);
    assert_eq!(display.to_string(), "    |   ^^ wide\n    | ^ narrow");
}

#[test]
fn note_display_rows() {

    let plain = ErrorDisplaySettings { colored: false };
    let span = Span::from_components(Location::from_components(1, 0, "f"), "Y");
    let display = NoteDisplay::new(&span, &plain, "msg", ErrorLevel::Error);
    assert_eq!(display.to_string(), "    | ^ msg");

    let colored = ErrorDisplaySettings { colored: true };
    let display = NoteDisplay::new(&span, &colored, "msg", ErrorLevel::Error);
    let red = "\x1b[31m";
    assert_eq!(
        display.to_string(),
        format!("{CYAN}    | {red}^ msg{CLEAR}")
    );
}

#[test]
fn location_ordering() {

    let early = Location::from_components(3, 1, "f");
    let later_line = Location::from_components(0, 2, "f");
    let later_col = Location::from_components(4, 1, "f");
    let other_file = Location::from_components(3, 1, "g");

    assert_eq!(early.partial_cmp(&later_line), Some(Ordering::Less));
    assert_eq!(later_line.partial_cmp(&early), Some(Ordering::Greater));
    assert_eq!(early.partial_cmp(&later_col), Some(Ordering::Less));
    assert_eq!(early.partial_cmp(&early), Some(Ordering::Equal));
    assert_eq!(early.partial_cmp(&other_file), None);
}

#[test]
fn location_display_form() {
    // one-based rendering of the zero-based coordinates
    let location = Location::from_components(4, 6, "file.txt");
    assert_eq!(location.display_string(), "column 5 line 7 in file.txt");

    let span = Span::from_components(location, "body");
    assert_eq!(span.display_string(), "body");
}

#[test]
fn error_kinds_compare_by_variant_and_payload() {

    assert_eq!(ErrorKind::ExpectedTag("a"), ErrorKind::ExpectedTag("a"));
    assert_ne!(ErrorKind::ExpectedTag("a"), ErrorKind::ExpectedTag("b"));
    assert_ne!(ErrorKind::ExpectedTag("a"), ErrorKind::ExpectedKind("a"));
    assert_eq!(ErrorKind::DemoError::<'static>, ErrorKind::DemoError);
}
