use compiler_utils::ErrorKind;
use compiler_utils::FileWalker;
use compiler_utils::Location;
use compiler_utils::ParsingError;
use compiler_utils::Span;
use compiler_utils::accepts;
use compiler_utils::accepts_while;
use compiler_utils::alt;
use compiler_utils::but_not;
use compiler_utils::one_of;
use compiler_utils::opt;
use compiler_utils::pair;
use compiler_utils::tag;
use compiler_utils::take_if;
use compiler_utils::take_while;
use compiler_utils::triple;

#[test]
fn map_ok() {
    fn comb<'filedata>(
        walker: FileWalker<'filedata>,
    ) -> (FileWalker<'filedata>, Result<usize, ParsingError<'filedata>>) {
        let len = walker.current_string().len();
        (walker, Ok(len))
    }

    assert_eq!(comb(FileWalker::from_data("Hi!", "input")).1, Ok(3));
    assert_eq!(comb(FileWalker::from_data("Hello!", "input")).1, Ok(6));

    assert_eq!(
        compiler_utils::combinators::map(comb, |v| v + 3, FileWalker::from_data("Hi!", "input")).1,
        Ok(6)
    );
    assert_eq!(
        compiler_utils::combinators::map(comb, |v| v + 3, FileWalker::from_data("Hello!", "input")).1,
        Ok(9)
    );
}

#[test]
fn map_failure() {
    fn comb<'filedata>(
        walker: FileWalker<'filedata>,
    ) -> (FileWalker<'filedata>, Result<usize, ParsingError<'filedata>>) {
        let location = walker.current_location();
        (walker, Err(ParsingError(location, ErrorKind::DemoError)))
    }

    assert_eq!(
        compiler_utils::combinators::map(comb, |v| v + 3, FileWalker::from_data("Hi!", "input"))
            .1
            .unwrap_err(),
        comb(FileWalker::from_data("Hi!", "input")).1.unwrap_err()
    );
    assert_eq!(
        compiler_utils::combinators::map(comb, |v| v + 3, FileWalker::from_data("Hello!", "input"))
            .1
            .unwrap_err(),
        comb(FileWalker::from_data("Hello!", "input")).1.unwrap_err()
    );
}

#[test]
fn pair_ok() {
    let comb_a = |w| tag("Hello", w);
    let comb_b = |w| tag("World", w);
    let comb_c = |w| tag("!", w);

    let (a, b) = pair(&comb_a, &comb_c, FileWalker::from_data("Hello!", "input"))
        .1
        .unwrap();
    assert_eq!(a.data, "Hello");
    assert_eq!(b.data, "!");

    let (a, b) = pair(&comb_b, &comb_c, FileWalker::from_data("World!", "input"))
        .1
        .unwrap();
    assert_eq!(a.data, "World");
    assert_eq!(b.data, "!");

    let (a, b) = pair(
        &comb_a,
        &comb_b,
        FileWalker::from_data("HelloWorld!", "input"),
    )
    .1
    .unwrap();
    assert_eq!(a.data, "Hello");
    assert_eq!(b.data, "World");
}

#[test]
fn pair_failure() {
    let comb_a = |w| tag("Hello", w);
    let comb_b = |w| tag("World", w);
    let comb_c = |w| tag("!", w);

    assert_eq!(
        pair(&comb_a, &comb_b, FileWalker::from_data("Hello !", "input")).1,
        Err(ParsingError(
            Location::from_components(5, 0, "input"),
            ErrorKind::ExpectedTag("World")
        ))
    );

    assert_eq!(
        pair(&comb_b, &comb_c, FileWalker::from_data("Hello !", "input")).1,
        Err(ParsingError(
            Location::from_components(0, 0, "input"),
            ErrorKind::ExpectedTag("World")
        ))
    );

    assert_eq!(
        pair(&comb_a, &comb_b, FileWalker::from_data("Hello", "input")).1,
        Err(ParsingError(
            Location::from_components(5, 0, "input"),
            ErrorKind::ExpectedTag("World")
        ))
    );
}

#[test]
fn triple_ok() {
    let comb_a = |w| tag("Hello", w);
    let comb_b = |w| tag("World", w);
    let comb_c = |w| tag(" ", w);

    let (a, b, c) = triple(
        &comb_a,
        &comb_c,
        &comb_b,
        FileWalker::from_data("Hello World", "input"),
    )
    .1
    .unwrap();
    assert_eq!(a.data, "Hello");
    assert_eq!(b.data, " ");
    assert_eq!(c.data, "World");
}

#[test]
fn triple_failure() {
    let comb_a = |w| tag("Hello", w);
    let comb_b = |w| tag("World", w);
    let comb_c = |w| tag(" ", w);

    assert_eq!(
        triple(
            &comb_a,
            &comb_c,
            &comb_b,
            FileWalker::from_data("hello World", "input")
        )
        .1,
        Err(ParsingError(
            Location::from_components(0, 0, "input"),
            ErrorKind::ExpectedTag("Hello")
        ))
    );

    assert_eq!(
        triple(
            &comb_a,
            &comb_c,
            &comb_b,
            FileWalker::from_data("Hello_World", "input")
        )
        .1,
        Err(ParsingError(
            Location::from_components(5, 0, "input"),
            ErrorKind::ExpectedTag(" ")
        ))
    );

    assert_eq!(
        triple(
            &comb_a,
            &comb_c,
            &comb_b,
            FileWalker::from_data("Hello world", "input")
        )
        .1,
        Err(ParsingError(
            Location::from_components(6, 0, "input"),
            ErrorKind::ExpectedTag("World")
        ))
    );

    assert_eq!(
        triple(
            &comb_a,
            &comb_c,
            &comb_b,
            FileWalker::from_data("Hello ", "input")
        )
        .1,
        Err(ParsingError(
            Location::from_components(6, 0, "input"),
            ErrorKind::ExpectedTag("World")
        ))
    );
}

#[test]
fn opt_ok() {
    let comb_a = |w| tag("Hello", w);

    let v = opt(&comb_a, FileWalker::from_data("Hello World", "input"))
        .1
        .unwrap()
        .unwrap();
    assert_eq!(v.data, "Hello");

    assert!(opt(&comb_a, FileWalker::from_data("World", "input"))
        .1
        .unwrap()
        .is_none())
}

#[test]
fn alt_ok() {
    let comb_a = |w| tag("Hello", w);
    let comb_b = |w| tag("World", w);

    let v = alt(
        &comb_a,
        &comb_b,
        FileWalker::from_data("Hello World", "input"),
    )
    .1
    .unwrap();
    assert_eq!(v.data, "Hello");

    let v = alt(
        &comb_a,
        &comb_b,
        FileWalker::from_data("World Hello", "input"),
    )
    .1
    .unwrap();
    assert_eq!(v.data, "World");
}

#[test]
fn alt_err() {
    let comb_a = |w| tag("Hello", w);
    let comb_b = |w| tag("World", w);

    assert_eq!(
        alt(
            &comb_a,
            &comb_b,
            FileWalker::from_data("hello World", "input")
        )
        .1,
        Err(ParsingError(
            Location::from_components(0, 0, "input"),
            ErrorKind::ExpectedTag("World")
        ))
    );
}

#[test]
fn but_not_ok() {
    let comb_a = |w| take_while(|c: char| c.is_uppercase(), "uppercase", w);
    let comb_b = |w| one_of("HW", w);

    let v = but_not(&comb_a, &comb_b, FileWalker::from_data("Balcony", "input"))
        .1
        .unwrap();
    assert_eq!(v.data, "B");

    let comb_a = |w| take_while(|c: char| c.is_uppercase(), "uppercase", w);
    let comb_b = |w| one_of("HW", w);

    let v = but_not(
        &comb_a,
        &comb_b,
        FileWalker::from_data("HEllo World!", "input"),
    )
    .1
    .unwrap();
    assert_eq!(v.data, "HE");
}

#[test]
fn but_not_err() {
    let comb_a = |w| take_while(|c: char| c.is_uppercase(), "uppercase", w);
    let comb_b = |w| one_of("HW", w);

    assert_eq!(
        but_not(&comb_a, &comb_b, FileWalker::from_data("Hello", "input")).1,
        Err(ParsingError(
            Location::from_components(0, 0, "input"),
            ErrorKind::InverseFailedGot("H")
        ))
    );

    let comb_a = |w| take_while(|c: char| c.is_uppercase(), "uppercase", w);
    let comb_b = |w| take_while(|c: char| c == 'H' || c == 'W', "'H' or 'W'", w);

    assert_eq!(
        but_not(&comb_a, &comb_b, FileWalker::from_data("HWllo", "input")).1,
        Err(ParsingError(
            Location::from_components(0, 0, "input"),
            ErrorKind::InverseFailedGot("HW")
        ))
    );
}

#[test]
fn accepts_while_ok() {
    let comb = |w| {
        alt(
            &|w2| tag("Ba", w2),
            &|w2| tag("lc", w2),
            w,
        )
    };

    let v = accepts_while(&comb, FileWalker::from_data("Balcony", "input"))
        .1
        .unwrap();
    assert_eq!(v.data, "Balc");

    let comb = |w| take_if(|c: char| c.is_ascii_uppercase(), "uppercase", w);

    let v = accepts_while(&comb, FileWalker::from_data("HARmony", "input"))
        .1
        .unwrap();
    assert_eq!(v.data, "HAR");

    let v = accepts_while(&comb, FileWalker::from_data("Below", "input"))
        .1
        .unwrap();
    assert_eq!(v.data, "B");
}

#[test]
fn accepts_while_err() {
    let comb = |w| {
        alt(
            &|w2| tag("Balance", w2),
            &|w2| tag("alcony", w2),
            w,
        )
    };

    assert_eq!(
        accepts_while(&comb, FileWalker::from_data("Balcony", "input")).1,
        Err(ParsingError(
            Location::from_components(0, 0, "input"),
            ErrorKind::ExpectedTag("alcony")
        ))
    );

    let comb = |w| take_if(|c: char| c.is_uppercase(), "uppercase", w);

    assert_eq!(
        accepts_while(&comb, FileWalker::from_data("bALCONY", "input")).1,
        Err(ParsingError(
            Location::from_components(0, 0, "input"),
            ErrorKind::ExpectedOneOfKind("uppercase")
        ))
    );
}

#[test]
fn accepts_ok() {
    let comb_a = |w| tag("Hello", w);
    let comb_b = |w| tag("World", w);
    let comb_c = |w| tag("!", w);

    let (a, b) = pair(&comb_a, &comb_c, FileWalker::from_data("Hello!", "input"))
        .1
        .unwrap();
    assert_eq!(a.data, "Hello");
    assert_eq!(b.data, "!");

    let (a, b) = pair(&comb_b, &comb_c, FileWalker::from_data("World!", "input"))
        .1
        .unwrap();
    assert_eq!(a.data, "World");
    assert_eq!(b.data, "!");

    let (a, b) = pair(
        &comb_a,
        &comb_b,
        FileWalker::from_data("HelloWorld!", "input"),
    )
    .1
    .unwrap();
    assert_eq!(a.data, "Hello");
    assert_eq!(b.data, "World");
}

#[test]
fn accepts_failure() {
    let comb_a = |w| tag("Hello", w);
    let comb_b = |w| tag("World", w);
    let comb_c = |w| tag("!", w);

    assert_eq!(
        pair(&comb_a, &comb_b, FileWalker::from_data("Hello !", "input")).1,
        Err(ParsingError(
            Location::from_components(5, 0, "input"),
            ErrorKind::ExpectedTag("World")
        ))
    );

    assert_eq!(
        pair(&comb_b, &comb_c, FileWalker::from_data("Hello !", "input")).1,
        Err(ParsingError(
            Location::from_components(0, 0, "input"),
            ErrorKind::ExpectedTag("World")
        ))
    );

    assert_eq!(
        pair(&comb_a, &comb_b, FileWalker::from_data("Hello", "input")).1,
        Err(ParsingError(
            Location::from_components(5, 0, "input"),
            ErrorKind::ExpectedTag("World")
        ))
    );
}

#[test]
fn accepts_spans_consumed_region() {
    let comb = |w| {
        pair(
            &|w2| tag("Hello", w2),
            &|w2| tag("World", w2),
            w,
        )
    };

    let v = accepts(&comb, FileWalker::from_data("HelloWorld!", "input"))
        .1
        .unwrap();
    assert_eq!(
        v,
        Span::from_components(Location::from_components(0, 0, "input"), "HelloWorld")
    );
}
