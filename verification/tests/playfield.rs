use berust::playfield::{Direction, Playfield, PlayfieldNavigator};

#[test]
fn playfield() {
    let mut playfield = Playfield::new("abc\nde\nx yz\n".as_bytes());

    assert_eq!((4, 3), playfield.dimensions());
    assert_eq!("abc \nde  \nx yz\n".as_bytes().to_vec(), playfield.to_text());

    assert_eq!('a', playfield.get(0, 0) as char);
    assert_eq!(' ', playfield.get(3, 1) as char);

    playfield.set(3, 1, 0x62);

    assert_eq!('b', playfield.get(3, 1) as char);
}

#[test]
fn playfield_navigator() {
    let mut navigator = PlayfieldNavigator::new((4, 3));

    assert_eq!(Direction::Right, navigator.dir());
    assert_eq!((0, 0), navigator.pos());

    navigator.step();

    assert_eq!((1, 0), navigator.pos());

    navigator.step();

    assert_eq!((2, 0), navigator.pos());

    navigator.step();

    assert_eq!((3, 0), navigator.pos());

    navigator.step();

    assert_eq!((0, 0), navigator.pos());

    navigator.turn(Direction::Down);

    assert_eq!(Direction::Down, navigator.dir());
    assert_eq!((0, 0), navigator.pos());

    navigator.step();

    assert_eq!((0, 1), navigator.pos());

    navigator.step();

    assert_eq!((0, 2), navigator.pos());

    navigator.step();

    assert_eq!((0, 0), navigator.pos());

    navigator.turn(Direction::Left);

    assert_eq!(Direction::Left, navigator.dir());
    assert_eq!((0, 0), navigator.pos());

    navigator.step();

    assert_eq!((3, 0), navigator.pos());

    navigator.turn(Direction::Up);

    assert_eq!(Direction::Up, navigator.dir());
    assert_eq!((3, 0), navigator.pos());

    navigator.step();

    assert_eq!((3, 2), navigator.pos());
}
