use compiler_utils::FileWalker;
use compiler_utils::Location;
use compiler_utils::Span;

#[test]
pub fn simple_walk_step() {
    let data = "Möbius";
    let mut walker = FileWalker::from_data(data, "hello.txt");

    assert_eq!(walker.step(), Some('M'));
    assert_eq!(walker.step(), Some('ö'));
    assert_eq!(walker.step(), Some('b'));
    assert_eq!(walker.step(), Some('i'));
    assert_eq!(walker.step(), Some('u'));
    assert_eq!(walker.step(), Some('s'));
    assert_eq!(walker.step(), None);
    assert_eq!(walker.step(), None);
}

#[test]
pub fn simple_walk_current_str() {
    let data = "Möbius";
    let mut walker = FileWalker::from_data(data, "hello.txt");

    assert_eq!(walker.current_string(), "Möbius");
    walker.step();
    assert_eq!(walker.current_string(), "öbius");
    walker.step();
    assert_eq!(walker.current_string(), "bius");
    walker.step();
    assert_eq!(walker.current_string(), "ius");
    walker.step();
    assert_eq!(walker.current_string(), "us");
    walker.step();
    assert_eq!(walker.current_string(), "s");
    walker.step();
    assert_eq!(walker.current_string(), "");
    walker.step();
    assert_eq!(walker.current_string(), "");
}

#[test]
pub fn simple_walk_current_location() {
    let data = "Möbius";
    let mut walker = FileWalker::from_data(data, "hello.txt");

    assert_eq!(walker.current_location(), Location::from_components(0, 0, "hello.txt"));
    walker.step();
    assert_eq!(walker.current_location(), Location::from_components(1, 0, "hello.txt"));
    walker.step();
    assert_eq!(walker.current_location(), Location::from_components(2, 0, "hello.txt"));
    walker.step();
    assert_eq!(walker.current_location(), Location::from_components(3, 0, "hello.txt"));
    walker.step();
    assert_eq!(walker.current_location(), Location::from_components(4, 0, "hello.txt"));
    walker.step();
    assert_eq!(walker.current_location(), Location::from_components(5, 0, "hello.txt"));
    walker.step();
    assert_eq!(walker.current_location(), Location::from_components(6, 0, "hello.txt"));
    walker.step();
    assert_eq!(walker.current_location(), Location::from_components(6, 0, "hello.txt"));
}

#[test]
pub fn simple_walk_pop_back() {
    let data = "Möbius";
    let mut walker = FileWalker::from_data(data, "hello.txt");

    let start = walker.get_marker();
    assert_eq!(walker.current_string(), "Möbius");
    assert_eq!(walker.current_location(), Location::from_components(0, 0, "hello.txt"));
    walker.step();
    let at_unicode = walker.get_marker();
    assert_eq!(walker.current_string(), "öbius");
    assert_eq!(walker.current_location(), Location::from_components(1, 0, "hello.txt"));
    walker.step();
    assert_eq!(walker.current_string(), "bius");
    assert_eq!(walker.current_location(), Location::from_components(2, 0, "hello.txt"));
    walker.step();
    let middle = walker.get_marker();
    assert_eq!(walker.current_string(), "ius");
    assert_eq!(walker.current_location(), Location::from_components(3, 0, "hello.txt"));

    walker.pop_back(at_unicode);
    assert_eq!(walker.current_string(), "öbius");
    assert_eq!(walker.current_location(), Location::from_components(1, 0, "hello.txt"));
    walker.step();
    assert_eq!(walker.current_string(), "bius");
    assert_eq!(walker.current_location(), Location::from_components(2, 0, "hello.txt"));

    walker.pop_back(start);
    assert_eq!(walker.current_string(), "Möbius");
    assert_eq!(walker.current_location(), Location::from_components(0, 0, "hello.txt"));
    walker.step();
    assert_eq!(walker.current_string(), "öbius");
    assert_eq!(walker.current_location(), Location::from_components(1, 0, "hello.txt"));
    walker.step();
    assert_eq!(walker.current_string(), "bius");
    assert_eq!(walker.current_location(), Location::from_components(2, 0, "hello.txt"));
    walker.step();
    assert_eq!(walker.current_string(), "ius");
    assert_eq!(walker.current_location(), Location::from_components(3, 0, "hello.txt"));
    walker.step();
    assert_eq!(walker.current_string(), "us");
    assert_eq!(walker.current_location(), Location::from_components(4, 0, "hello.txt"));
    walker.step();
    assert_eq!(walker.current_string(), "s");
    assert_eq!(walker.current_location(), Location::from_components(5, 0, "hello.txt"));

    walker.pop_back(middle);
    assert_eq!(walker.current_string(), "ius");
    assert_eq!(walker.current_location(), Location::from_components(3, 0, "hello.txt"));
    walker.step();
    assert_eq!(walker.current_string(), "us");
    assert_eq!(walker.current_location(), Location::from_components(4, 0, "hello.txt"));
    walker.step();
    assert_eq!(walker.current_string(), "s");
    assert_eq!(walker.current_location(), Location::from_components(5, 0, "hello.txt"));
    walker.step();
    assert_eq!(walker.current_string(), "");
    assert_eq!(walker.current_location(), Location::from_components(6, 0, "hello.txt"));
    walker.step();
    assert_eq!(walker.current_string(), "");
    assert_eq!(walker.current_location(), Location::from_components(6, 0, "hello.txt"));
}

#[test]
pub fn line_break_walk_step() {
    let data = "Mö\nbi\r\nus";
    let mut walker = FileWalker::from_data(data, "hello.txt");

    assert_eq!(walker.step(), Some('M'));
    assert_eq!(walker.step(), Some('ö'));
    assert_eq!(walker.step(), Some('\n'));
    assert_eq!(walker.step(), Some('b'));
    assert_eq!(walker.step(), Some('i'));
    assert_eq!(walker.step(), Some('\r'));
    assert_eq!(walker.step(), Some('\n'));
    assert_eq!(walker.step(), Some('u'));
    assert_eq!(walker.step(), Some('s'));
    assert_eq!(walker.step(), None);
    assert_eq!(walker.step(), None);
}

#[test]
pub fn line_break_walk_current_str() {
    let data = "Mö\nbi\r\nus";
    let mut walker = FileWalker::from_data(data, "hello.txt");

    assert_eq!(walker.current_string(), "Mö\nbi\r\nus");
    walker.step();
    assert_eq!(walker.current_string(), "ö\nbi\r\nus");
    walker.step();
    assert_eq!(walker.current_string(), "\nbi\r\nus");
    walker.step();
    assert_eq!(walker.current_string(), "bi\r\nus");
    walker.step();
    assert_eq!(walker.current_string(), "i\r\nus");
    walker.step();
    assert_eq!(walker.current_string(), "\r\nus");
    walker.step();
    assert_eq!(walker.current_string(), "\nus");
    walker.step();
    assert_eq!(walker.current_string(), "us");
    walker.step();
    assert_eq!(walker.current_string(), "s");
    walker.step();
    assert_eq!(walker.current_string(), "");
    walker.step();
    assert_eq!(walker.current_string(), "");
}

#[test]
pub fn line_break_walk_current_location() {
    let data = "Mö\nbi\r\nus";
    let mut walker = FileWalker::from_data(data, "hello.txt");

    assert_eq!(walker.current_location(), Location::from_components(0, 0, "hello.txt"));
    walker.step();
    assert_eq!(walker.current_location(), Location::from_components(1, 0, "hello.txt"));
    walker.step();
    assert_eq!(walker.current_location(), Location::from_components(2, 0, "hello.txt"));
    walker.step();
    assert_eq!(walker.current_location(), Location::from_components(0, 1, "hello.txt"));
    walker.step();
    assert_eq!(walker.current_location(), Location::from_components(1, 1, "hello.txt"));
    walker.step();
    assert_eq!(walker.current_location(), Location::from_components(2, 1, "hello.txt"));
    walker.step();
    assert_eq!(walker.current_location(), Location::from_components(3, 1, "hello.txt"));
    walker.step();
    assert_eq!(walker.current_location(), Location::from_components(0, 2, "hello.txt"));
    walker.step();
    assert_eq!(walker.current_location(), Location::from_components(1, 2, "hello.txt"));
    walker.step();
    assert_eq!(walker.current_location(), Location::from_components(2, 2, "hello.txt"));
    walker.step();
    assert_eq!(walker.current_location(), Location::from_components(2, 2, "hello.txt"));
}

#[test]
pub fn line_break_walk_pop_back() {
    let data = "Mö\nbi\r\nus";
    let mut walker = FileWalker::from_data(data, "hello.txt");

    let start = walker.get_marker();
    assert_eq!(walker.current_string(), "Mö\nbi\r\nus");
    assert_eq!(walker.current_location(), Location::from_components(0, 0, "hello.txt"));
    walker.step();
    let at_unicode = walker.get_marker();
    assert_eq!(walker.current_string(), "ö\nbi\r\nus");
    assert_eq!(walker.current_location(), Location::from_components(1, 0, "hello.txt"));
    walker.step();
    let before_line = walker.get_marker();
    assert_eq!(walker.current_string(), "\nbi\r\nus");
    assert_eq!(walker.current_location(), Location::from_components(2, 0, "hello.txt"));
    walker.step();
    let after_line = walker.get_marker();
    assert_eq!(walker.current_string(), "bi\r\nus");
    assert_eq!(walker.current_location(), Location::from_components(0, 1, "hello.txt"));
    walker.step();
    assert_eq!(walker.current_string(), "i\r\nus");
    assert_eq!(walker.current_location(), Location::from_components(1, 1, "hello.txt"));
    walker.step();
    let at_carriage_return = walker.get_marker();
    assert_eq!(walker.current_string(), "\r\nus");
    assert_eq!(walker.current_location(), Location::from_components(2, 1, "hello.txt"));
    walker.step();
    assert_eq!(walker.current_string(), "\nus");
    assert_eq!(walker.current_location(), Location::from_components(3, 1, "hello.txt"));

    walker.pop_back(before_line);
    assert_eq!(walker.current_string(), "\nbi\r\nus");
    assert_eq!(walker.current_location(), Location::from_components(2, 0, "hello.txt"));
    walker.step();
    assert_eq!(walker.current_string(), "bi\r\nus");
    assert_eq!(walker.current_location(), Location::from_components(0, 1, "hello.txt"));
    walker.step();
    assert_eq!(walker.current_string(), "i\r\nus");
    assert_eq!(walker.current_location(), Location::from_components(1, 1, "hello.txt"));
    walker.step();
    assert_eq!(walker.current_string(), "\r\nus");
    assert_eq!(walker.current_location(), Location::from_components(2, 1, "hello.txt"));
    walker.step();
    assert_eq!(walker.current_string(), "\nus");
    assert_eq!(walker.current_location(), Location::from_components(3, 1, "hello.txt"));
    walker.step();
    assert_eq!(walker.current_string(), "us");
    assert_eq!(walker.current_location(), Location::from_components(0, 2, "hello.txt"));
    walker.step();
    let right_at_end = walker.get_marker();
    assert_eq!(walker.current_string(), "s");
    assert_eq!(walker.current_location(), Location::from_components(1, 2, "hello.txt"));

    walker.pop_back(start);
    assert_eq!(walker.current_string(), "Mö\nbi\r\nus");
    assert_eq!(walker.current_location(), Location::from_components(0, 0, "hello.txt"));
    walker.step();
    assert_eq!(walker.current_string(), "ö\nbi\r\nus");
    assert_eq!(walker.current_location(), Location::from_components(1, 0, "hello.txt"));
    walker.step();
    assert_eq!(walker.current_string(), "\nbi\r\nus");
    assert_eq!(walker.current_location(), Location::from_components(2, 0, "hello.txt"));
    walker.step();
    assert_eq!(walker.current_string(), "bi\r\nus");
    assert_eq!(walker.current_location(), Location::from_components(0, 1, "hello.txt"));

    walker.pop_back(at_carriage_return);
    assert_eq!(walker.current_string(), "\r\nus");
    assert_eq!(walker.current_location(), Location::from_components(2, 1, "hello.txt"));
    walker.step();
    assert_eq!(walker.current_string(), "\nus");
    assert_eq!(walker.current_location(), Location::from_components(3, 1, "hello.txt"));
    walker.step();
    assert_eq!(walker.current_string(), "us");
    assert_eq!(walker.current_location(), Location::from_components(0, 2, "hello.txt"));
    walker.step();
    assert_eq!(walker.current_string(), "s");
    assert_eq!(walker.current_location(), Location::from_components(1, 2, "hello.txt"));
    walker.step();
    assert_eq!(walker.current_string(), "");
    assert_eq!(walker.current_location(), Location::from_components(2, 2, "hello.txt"));
    walker.step();
    assert_eq!(walker.current_string(), "");
    assert_eq!(walker.current_location(), Location::from_components(2, 2, "hello.txt"));

    walker.pop_back(at_unicode);
    assert_eq!(walker.current_string(), "ö\nbi\r\nus");
    assert_eq!(walker.current_location(), Location::from_components(1, 0, "hello.txt"));
    walker.step();
    assert_eq!(walker.current_string(), "\nbi\r\nus");
    assert_eq!(walker.current_location(), Location::from_components(2, 0, "hello.txt"));
    walker.step();
    assert_eq!(walker.current_string(), "bi\r\nus");
    assert_eq!(walker.current_location(), Location::from_components(0, 1, "hello.txt"));
    walker.step();
    assert_eq!(walker.current_string(), "i\r\nus");
    assert_eq!(walker.current_location(), Location::from_components(1, 1, "hello.txt"));

    walker.pop_back(right_at_end);
    assert_eq!(walker.current_string(), "s");
    assert_eq!(walker.current_location(), Location::from_components(1, 2, "hello.txt"));
    walker.step();
    assert_eq!(walker.current_string(), "");
    assert_eq!(walker.current_location(), Location::from_components(2, 2, "hello.txt"));
    walker.step();
    assert_eq!(walker.current_string(), "");
    assert_eq!(walker.current_location(), Location::from_components(2, 2, "hello.txt"));

    walker.pop_back(after_line);
    assert_eq!(walker.current_string(), "bi\r\nus");
    assert_eq!(walker.current_location(), Location::from_components(0, 1, "hello.txt"));
    walker.step();
    assert_eq!(walker.current_string(), "i\r\nus");
    assert_eq!(walker.current_location(), Location::from_components(1, 1, "hello.txt"));
    walker.step();
    assert_eq!(walker.current_string(), "\r\nus");
    assert_eq!(walker.current_location(), Location::from_components(2, 1, "hello.txt"));
    walker.step();
    assert_eq!(walker.current_string(), "\nus");
    assert_eq!(walker.current_location(), Location::from_components(3, 1, "hello.txt"));
}

#[test]
pub fn line_break_walk_span_from_marker_to_here() {
    let data = "Mö\nbi\r\nus";
    let mut walker = FileWalker::from_data(data, "hello.txt");

    assert_eq!(walker.current_string(), "Mö\nbi\r\nus");
    assert_eq!(walker.current_location(), Location::from_components(0, 0, "hello.txt"));
    walker.step();
    let at_unicode = walker.get_marker();
    assert_eq!(walker.current_string(), "ö\nbi\r\nus");
    assert_eq!(walker.current_location(), Location::from_components(1, 0, "hello.txt"));
    walker.step();
    assert_eq!(walker.current_string(), "\nbi\r\nus");
    assert_eq!(walker.current_location(), Location::from_components(2, 0, "hello.txt"));
    walker.step();
    let later = walker.get_marker();
    assert_eq!(walker.current_string(), "bi\r\nus");
    assert_eq!(walker.current_location(), Location::from_components(0, 1, "hello.txt"));
    walker.step();
    assert_eq!(walker.current_string(), "i\r\nus");
    assert_eq!(walker.current_location(), Location::from_components(1, 1, "hello.txt"));
    assert_eq!(walker.span_from_marker_to_here(at_unicode), Some(Span::from_components(Location::from_components(1, 0, "hello.txt"), "ö\nb")));
    walker.step();
    assert_eq!(walker.current_string(), "\r\nus");
    assert_eq!(walker.current_location(), Location::from_components(2, 1, "hello.txt"));
    walker.step();
    assert_eq!(walker.current_string(), "\nus");
    assert_eq!(walker.current_location(), Location::from_components(3, 1, "hello.txt"));
    assert_eq!(walker.span_from_marker_to_here(at_unicode), Some(Span::from_components(Location::from_components(1, 0, "hello.txt"), "ö\nbi\r")));
    assert_eq!(walker.span_from_marker_to_here(later), Some(Span::from_components(Location::from_components(0, 1, "hello.txt"), "bi\r")));
}

#[test]
pub fn simple_expand_span() {
    let data = "abc\ndef\nghi\njkl\nmno\npqr\nstu\nvwx\nyz0";
    let mut walker = FileWalker::from_data(data, "input");

    let mut line_spans = Vec::new();

    for (i, line) in data.lines().enumerate() {
        line_spans.push(Span::from_components(Location::from_components(0, i, "input"), line));
    }

    loop {
        let marker = walker.get_marker();
        walker.step();
        let Some(span) = walker.span_from_marker_to_here(marker) else { break; };
        
        if span.data.is_empty() { break; }

        // a span that is itself a line feed ends at the start of the next
        // line, so its window reaches one line further down
        let ends_on_next_line = span.data == "\n";
        let end_line = span.location.line + if ends_on_next_line { 1 } else { 0 };

        for i in 0..10 {
            let expanded = walker.expand_span(&span, i);
            assert!(expanded.data.lines().count() <= 1 + 2 * i + if ends_on_next_line { 1 } else { 0 });
            assert_eq!(expanded.data.lines().count(), 1 + ((end_line + i).min(line_spans.len() - 1)) - (span.location.line.max(i) - i));

            if i == 0 && !ends_on_next_line {
                assert_eq!(expanded, line_spans[span.location.line]);
            }
        }
        
    }
}
