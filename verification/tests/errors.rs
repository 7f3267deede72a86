use toml_edit::parser::errors::{translate_position, SourcePosition};

#[test]
fn errors_empty() {
    let input = b"";
    let index = 0;
    let position = translate_position(&input[..], index);
    assert_eq!(position, SourcePosition { line: 0, column: 0 });
}

#[test]
fn start() {
    let input = b"Hello";
    let index = 0;
    let position = translate_position(&input[..], index);
    assert_eq!(position, SourcePosition { line: 0, column: 0 });
}

#[test]
fn end() {
    let input = b"Hello";
    let index = input.len() - 1;
    let position = translate_position(&input[..], index);
    assert_eq!(
        position,
        SourcePosition {
            line: 0,
            column: input.len() as i32 - 1
        }
    );
}

#[test]
fn after() {
    let input = b"Hello";
    let index = input.len();
    let position = translate_position(&input[..], index);
    assert_eq!(
        position,
        SourcePosition {
            line: 0,
            column: input.len() as i32
        }
    );
}

#[test]
fn first_line() {
    let input = b"Hello\nWorld\n";
    let index = 2;
    let position = translate_position(&input[..], index);
    assert_eq!(position, SourcePosition { line: 0, column: 2 });
}

#[test]
fn end_of_line() {
    let input = b"Hello\nWorld\n";
    let index = 5;
    let position = translate_position(&input[..], index);
    assert_eq!(position, SourcePosition { line: 0, column: 5 });
}

#[test]
fn start_of_second_line() {
    let input = b"Hello\nWorld\n";
    let index = 6;
    let position = translate_position(&input[..], index);
    assert_eq!(position, SourcePosition { line: 1, column: 0 });
}

#[test]
fn second_line() {
    let input = b"Hello\nWorld\n";
    let index = 8;
    let position = translate_position(&input[..], index);
    assert_eq!(position, SourcePosition { line: 1, column: 2 });
}
