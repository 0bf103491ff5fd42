use figtree::MutablePosition;
use figtree::CharReader;

#[test]
fn construction() {
    let pos = MutablePosition::new();
    assert_eq!(pos.line, 0);
    assert_eq!(pos.pos, 0);
}

#[test]
fn push_position() {
    let mut pos = MutablePosition::new();
    assert_eq!(pos.line, 0);
    assert_eq!(pos.pos, 0);

    pos.push(1);
    assert_eq!(pos.line, 0);
    assert_eq!(pos.pos, 1);

    pos.push(5);
    assert_eq!(pos.line, 0);
    assert_eq!(pos.pos, 6);
}

#[test]
fn new_line() {
    let mut pos = MutablePosition::new();
    assert_eq!(pos.line, 0);
    assert_eq!(pos.pos, 0);

    pos.new_line();
    assert_eq!(pos.line, 1);
    assert_eq!(pos.pos, 0);

    pos.push(10);
    assert_eq!(pos.line, 1);
    assert_eq!(pos.pos, 10);

    pos.new_line();
    assert_eq!(pos.line, 2);
    assert_eq!(pos.pos, 0);
}

#[test]
fn unpush() {
    let mut pos = MutablePosition::new();
    assert_eq!(pos.line, 0);
    assert_eq!(pos.pos, 0);

    pos.push(10);
    assert_eq!(pos.line, 0);
    assert_eq!(pos.pos, 10);

    pos.unpush(1);
    assert_eq!(pos.line, 0);
    assert_eq!(pos.pos, 9);

    pos.push(1);
    assert_eq!(pos.line, 0);
    assert_eq!(pos.pos, 10);

    pos.new_line();
    assert_eq!(pos.line, 1);
    assert_eq!(pos.pos, 0);

    pos.unpush(1);
    assert_eq!(pos.line, 0);
    assert_eq!(pos.pos, 10);
}

#[test]
fn equality() {
    let mut pos = MutablePosition::new();
    assert_eq!(pos, MutablePosition::new());
    assert_eq!(pos, MutablePosition::at(0, 0));

    pos.push(15);
    let mut other = MutablePosition::new();
    other.push(15);
    assert_eq!(pos, other);
    assert_eq!(pos, MutablePosition::at(0, 15));

    pos.new_line();
    let mut fresh = MutablePosition::new();
    fresh.new_line();
    assert_eq!(pos, fresh);
    assert_eq!(pos, MutablePosition::at(1, 0));
}

#[test]
fn iteration() {
    let mut reader = CharReader::new("text");
    assert_eq!(reader.next(), Some('t'));
    assert_eq!(reader.next(), Some('e'));
    assert_eq!(reader.next(), Some('x'));
    assert_eq!(reader.next(), Some('t'));
    assert_eq!(reader.next(), None);
}

#[test]
fn empty_iteration() {
    let mut reader = CharReader::new("");
    assert_eq!(reader.next(), None);
}
