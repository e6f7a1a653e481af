use compiler_utils::FileWalker;
use compiler_utils::ParsingError;
use compiler_utils::accepts_while;
use compiler_utils::alt;
use compiler_utils::opt;
use compiler_utils::tag;
use compiler_utils::triple;

fn parens<'filedata>(
    walker: FileWalker<'filedata>,
) -> (FileWalker<'filedata>, Result<(), ParsingError<'filedata>>) {
    alt(
        &|w| {
            compiler_utils::combinators::map(
                |w2| {
                    triple(
                        &|x| tag("(", x),
                        &|x| opt(&|y| accepts_while(&parens, y), x),
                        &|x| tag(")", x),
                        w2,
                    )
                },
                |_| (),
                w,
            )
        },
        &|w| {
            compiler_utils::combinators::map(
                |w2| {
                    triple(
                        &|x| tag("[", x),
                        &|x| opt(&|y| accepts_while(&parens, y), x),
                        &|x| tag("]", x),
                        w2,
                    )
                },
                |_| (),
                w,
            )
        },
        walker,
    )
}

#[test]
fn test_simple() {
    let (walker, result) = parens(FileWalker::from_data("()", "input"));

    result.unwrap();
    assert!(walker.current_string().is_empty());

    let (walker, result) = parens(FileWalker::from_data("[]", "input"));

    result.unwrap();
    assert!(walker.current_string().is_empty());
}

#[test]
fn test_simple_failure() {
    assert!(parens(FileWalker::from_data("(", "input")).1.is_err());

    assert!(parens(FileWalker::from_data(")", "input")).1.is_err());

    assert!(parens(FileWalker::from_data("[", "input")).1.is_err());

    assert!(parens(FileWalker::from_data("]", "input")).1.is_err());

    assert!(parens(FileWalker::from_data("[)", "input")).1.is_err());

    assert!(parens(FileWalker::from_data("(]", "input")).1.is_err());
}

#[test]
fn test_nested() {
    let (walker, result) = parens(FileWalker::from_data("(())", "input"));

    result.unwrap();
    assert!(walker.current_string().is_empty());

    let (walker, result) = parens(FileWalker::from_data("([])", "input"));

    result.unwrap();
    assert!(walker.current_string().is_empty());

    let (walker, result) = parens(FileWalker::from_data("[()]", "input"));

    result.unwrap();
    assert!(walker.current_string().is_empty());

    let (walker, result) = parens(FileWalker::from_data("[[]]", "input"));

    result.unwrap();
    assert!(walker.current_string().is_empty());
}

#[test]
fn test_nested_failure() {
    assert!(parens(FileWalker::from_data("([)]", "input")).1.is_err());

    assert!(parens(FileWalker::from_data("([)", "input")).1.is_err());

    assert!(parens(FileWalker::from_data("[(]", "input")).1.is_err());

    assert!(parens(FileWalker::from_data("[[]", "input")).1.is_err());
}
