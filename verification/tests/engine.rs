use berust::interpreter::{InputOutput, Interpreter, Mode, StepError};
use berust::playfield::{Direction, Playfield, PlayfieldNavigator};
use berust::runtime::{RuntimeCommand, RuntimePacing};

fn interpreter_for(field: &str, input: &str) -> Interpreter {
    let playfield = Playfield::new(field.as_bytes());
    let io = InputOutput::new(input.bytes().collect::<Vec<_>>(), Vec::new());
    Interpreter::new(playfield, io)
}

#[test]
fn illegal_instruction_reports_and_preserves_state() {
    let mut interpreter = interpreter_for("x", "");

    let r = interpreter.next();

    assert_eq!(
        r,
        Err(StepError::IllegalInstruction { code: 0x78, col: 0, row: 0 })
    );
    assert_eq!(Mode::Execute, interpreter.mode());
    assert_eq!(&Vec::<i64>::new(), interpreter.stack());
    assert_eq!((0, 0), interpreter.nav().pos());
}

#[test]
fn division_by_zero_reports_and_preserves_state() {
    let mut interpreter = interpreter_for("10/", "");

    assert!(interpreter.next().is_ok());
    assert!(interpreter.next().is_ok());
    let r = interpreter.next();

    assert_eq!(r, Err(StepError::DivisionByZero { col: 2, row: 0 }));
    assert_eq!(&vec![1, 0], interpreter.stack());
    assert_eq!((2, 0), interpreter.nav().pos());
}

#[test]
fn modulo_by_zero_reports() {
    let mut interpreter = interpreter_for("30%", "");

    assert!(interpreter.next().is_ok());
    assert!(interpreter.next().is_ok());
    let r = interpreter.next();

    assert_eq!(r, Err(StepError::DivisionByZero { col: 2, row: 0 }));
    assert_eq!(&vec![3, 0], interpreter.stack());
}

#[test]
fn put_out_of_bounds_reports_and_preserves_state() {
    let mut interpreter = interpreter_for("99p", "");

    assert!(interpreter.next().is_ok());
    assert!(interpreter.next().is_ok());
    let r = interpreter.next();

    assert_eq!(r, Err(StepError::OutOfBounds { x: 9, y: 9 }));
    assert_eq!(&vec![9, 9], interpreter.stack());
}

#[test]
fn get_out_of_bounds_reports() {
    let mut interpreter = interpreter_for("9g", "");

    assert!(interpreter.next().is_ok());
    let r = interpreter.next();

    assert_eq!(r, Err(StepError::OutOfBounds { x: 0, y: 9 }));
    assert_eq!(&vec![9], interpreter.stack());
}

#[test]
fn negative_number_output() {
    let mut interpreter = interpreter_for("01-.", "");

    for _ in 0..4 {
        assert!(interpreter.next().is_ok());
    }

    assert_eq!(&"-1 ".bytes().collect::<Vec<_>>(), interpreter.io().writer());
}

#[test]
fn negative_character_output_takes_low_byte() {
    let mut interpreter = interpreter_for("01-,", "");

    for _ in 0..4 {
        assert!(interpreter.next().is_ok());
    }

    assert_eq!(&vec![0xffu8], interpreter.io().writer());
}

#[test]
fn multiplication_wraps() {
    let mut interpreter = interpreter_for("99*:*:*:*:*", "");

    for _ in 0..11 {
        assert!(interpreter.next().is_ok());
    }

    assert_eq!(&vec![8733086111712066817], interpreter.stack());
}

#[test]
fn read_int_trims_and_accepts_signs() {
    let mut interpreter = interpreter_for("&&&", " 42 \n-5\n+7\n");

    for _ in 0..3 {
        assert!(interpreter.next().is_ok());
    }

    assert_eq!(&vec![42, -5, 7], interpreter.stack());
}

#[test]
fn read_int_extreme_values() {
    let mut interpreter = interpreter_for(
        "&&&",
        "9223372036854775807\n-9223372036854775808\n99999999999999999999\n",
    );

    for _ in 0..3 {
        assert!(interpreter.next().is_ok());
    }

    assert_eq!(
        &vec![i64::MAX, i64::MIN, 0],
        interpreter.stack()
    );
}

#[test]
fn reader_returns_unread_input() {
    let mut interpreter = interpreter_for("~", "ab");

    assert!(interpreter.next().is_ok());

    assert_eq!(vec![0x62u8], interpreter.io().reader());
}

#[test]
fn playfield_lines_are_padded() {
    let playfield = Playfield::new("abc\nde\nx yz\n".as_bytes());

    let lines = playfield.lines();

    assert_eq!(3, lines.len());
    assert_eq!("abc ".as_bytes().to_vec(), lines[0]);
    assert_eq!("de  ".as_bytes().to_vec(), lines[1]);
    assert_eq!("x yz".as_bytes().to_vec(), lines[2]);
}

#[test]
fn playfield_without_trailing_newline() {
    let playfield = Playfield::new("ab".as_bytes());

    assert_eq!((2, 1), playfield.dimensions());
    assert_eq!("ab\n".as_bytes().to_vec(), playfield.to_text());
}

#[test]
fn navigator_wraps_on_single_cell() {
    let mut navigator = PlayfieldNavigator::new((1, 1));

    for dir in [Direction::Up, Direction::Down, Direction::Left, Direction::Right] {
        navigator.turn(dir);
        navigator.step();
        assert_eq!((0, 0), navigator.pos());
    }
}

#[test]
fn turn_twice_is_turn_once() {
    let mut once = PlayfieldNavigator::new((4, 3));
    let mut twice = PlayfieldNavigator::new((4, 3));

    once.turn(Direction::Up);
    twice.turn(Direction::Up);
    twice.turn(Direction::Up);

    assert_eq!(once.dir(), twice.dir());
    assert_eq!(once.pos(), twice.pos());
}

#[test]
fn toroidal_closure_on_both_axes() {
    let mut navigator = PlayfieldNavigator::new((5, 7));

    for _ in 0..5 {
        navigator.step();
    }
    assert_eq!((0, 0), navigator.pos());

    navigator.turn(Direction::Down);
    for _ in 0..7 {
        navigator.step();
    }
    assert_eq!((0, 0), navigator.pos());

    navigator.turn(Direction::Up);
    for _ in 0..7 {
        navigator.step();
    }
    assert_eq!((0, 0), navigator.pos());
}

#[test]
fn pacing_starts_paused() {
    let pacing = RuntimePacing::new();

    assert_eq!(100, pacing.delay_ms);
    assert!(!pacing.running);
    assert!(!pacing.on_tick());
}

#[test]
fn pacing_toggle_and_tick() {
    let mut pacing = RuntimePacing::new();

    assert!(!pacing.apply(RuntimeCommand::TogglePause));
    assert!(pacing.running);
    assert!(pacing.on_tick());

    assert!(!pacing.apply(RuntimeCommand::TogglePause));
    assert!(!pacing.running);
}

#[test]
fn pacing_step_only_when_paused() {
    let mut pacing = RuntimePacing::new();

    assert!(pacing.apply(RuntimeCommand::Step));

    pacing.apply(RuntimeCommand::TogglePause);

    assert!(!pacing.apply(RuntimeCommand::Step));
}

#[test]
fn pacing_delay_is_clamped() {
    let mut pacing = RuntimePacing::new();

    for _ in 0..32 {
        pacing.apply(RuntimeCommand::Slower);
    }
    assert_eq!(1000, pacing.delay_ms);

    for _ in 0..64 {
        pacing.apply(RuntimeCommand::Faster);
    }
    assert_eq!(10, pacing.delay_ms);

    pacing.apply(RuntimeCommand::Slower);
    assert_eq!(12, pacing.delay_ms);
}
