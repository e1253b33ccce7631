use berust::interpreter::{InputOutput, Interpreter, Mode, Stack};
use berust::playfield::Playfield;

fn test_program(field: &str, input: &str, output: &str, execution: Vec<(Mode, Stack)>) {
    let reader = input.bytes().collect::<Vec<_>>();
    let writer = Vec::new();

    let playfield = Playfield::new(field.as_bytes());
    let io = InputOutput::new(reader, writer);
    let mut interpreter = Interpreter::new(playfield, io);

    for (mode, stack) in execution {
        assert_eq!(mode, interpreter.mode());
        assert_eq!(&stack, interpreter.stack());

        let _ = interpreter.next();
    }

    assert_eq!(&output.bytes().collect::<Vec<_>>(), interpreter.io().writer());
}

#[test]
fn interpret_digits() {
    test_program(
        "0123456789",
        "",
        "",
        vec![
            (Mode::Execute, vec![]),
            (Mode::Execute, vec![0]),
            (Mode::Execute, vec![0, 1]),
            (Mode::Execute, vec![0, 1, 2]),
            (Mode::Execute, vec![0, 1, 2, 3]),
            (Mode::Execute, vec![0, 1, 2, 3, 4]),
            (Mode::Execute, vec![0, 1, 2, 3, 4, 5]),
            (Mode::Execute, vec![0, 1, 2, 3, 4, 5, 6]),
            (Mode::Execute, vec![0, 1, 2, 3, 4, 5, 6, 7]),
            (Mode::Execute, vec![0, 1, 2, 3, 4, 5, 6, 7, 8]),
            (Mode::Execute, vec![0, 1, 2, 3, 4, 5, 6, 7, 8, 9]),
        ],
    );
}

#[test]
fn interpret_arithmetic() {
    test_program(
        "73+",
        "",
        "",
        vec![
            (Mode::Execute, vec![]),
            (Mode::Execute, vec![7]),
            (Mode::Execute, vec![7, 3]),
            (Mode::Execute, vec![10]),
        ],
    );

    test_program(
        "73-",
        "",
        "",
        vec![
            (Mode::Execute, vec![]),
            (Mode::Execute, vec![7]),
            (Mode::Execute, vec![7, 3]),
            (Mode::Execute, vec![4]),
        ],
    );

    test_program(
        "73*",
        "",
        "",
        vec![
            (Mode::Execute, vec![]),
            (Mode::Execute, vec![7]),
            (Mode::Execute, vec![7, 3]),
            (Mode::Execute, vec![21]),
        ],
    );

    test_program(
        "73/",
        "",
        "",
        vec![
            (Mode::Execute, vec![]),
            (Mode::Execute, vec![7]),
            (Mode::Execute, vec![7, 3]),
            (Mode::Execute, vec![2]),
        ],
    );

    test_program(
        "73%",
        "",
        "",
        vec![
            (Mode::Execute, vec![]),
            (Mode::Execute, vec![7]),
            (Mode::Execute, vec![7, 3]),
            (Mode::Execute, vec![1]),
        ],
    );
}

#[test]
fn interpret_logic() {
    test_program(
        "0!",
        "",
        "",
        vec![
            (Mode::Execute, vec![]),
            (Mode::Execute, vec![0]),
            (Mode::Execute, vec![1]),
        ],
    );

    test_program(
        "5!",
        "",
        "",
        vec![
            (Mode::Execute, vec![]),
            (Mode::Execute, vec![5]),
            (Mode::Execute, vec![0]),
        ],
    );

    test_program(
        "73`",
        "",
        "",
        vec![
            (Mode::Execute, vec![]),
            (Mode::Execute, vec![7]),
            (Mode::Execute, vec![7, 3]),
            (Mode::Execute, vec![1]),
        ],
    );

    test_program(
        "45`",
        "",
        "",
        vec![
            (Mode::Execute, vec![]),
            (Mode::Execute, vec![4]),
            (Mode::Execute, vec![4, 5]),
            (Mode::Execute, vec![0]),
        ],
    );
}

#[test]
fn interpret_direction() {
    test_program(
        "v\n3\n>4",
        "",
        "",
        vec![
            (Mode::Execute, vec![]),
            (Mode::Execute, vec![]),
            (Mode::Execute, vec![3]),
            (Mode::Execute, vec![3]),
            (Mode::Execute, vec![3, 4]),
        ],
    );

    test_program(
        "<@^\n  @\n  5",
        "",
        "",
        vec![
            (Mode::Execute, vec![]),
            (Mode::Execute, vec![]),
            (Mode::Execute, vec![]),
            (Mode::Execute, vec![5]),
        ],
    );

    test_program(
        "?5@5\n5\n@\n5",
        "",
        "",
        vec![
            (Mode::Execute, vec![]),
            (Mode::Execute, vec![]),
            (Mode::Execute, vec![5]),
        ],
    );
}

#[test]
fn interpret_controlflow() {
    test_program(
        "0_5",
        "",
        "",
        vec![
            (Mode::Execute, vec![]),
            (Mode::Execute, vec![0]),
            (Mode::Execute, vec![]),
            (Mode::Execute, vec![5]),
        ],
    );

    test_program(
        "3_5",
        "",
        "",
        vec![
            (Mode::Execute, vec![]),
            (Mode::Execute, vec![3]),
            (Mode::Execute, vec![]),
            (Mode::Execute, vec![3]),
        ],
    );

    test_program(
        "0|\n 5",
        "",
        "",
        vec![
            (Mode::Execute, vec![]),
            (Mode::Execute, vec![0]),
            (Mode::Execute, vec![]),
            (Mode::Execute, vec![5]),
        ],
    );

    test_program(
        "3|\n 5\n 4",
        "",
        "",
        vec![
            (Mode::Execute, vec![]),
            (Mode::Execute, vec![3]),
            (Mode::Execute, vec![]),
            (Mode::Execute, vec![4]),
        ],
    );
}

#[test]
fn interpret_string() {
    test_program(
        "\"abc\"",
        "",
        "",
        vec![
            (Mode::Execute, vec![]),
            (Mode::Parse, vec![]),
            (Mode::Parse, vec![0x61]),
            (Mode::Parse, vec![0x61, 0x62]),
            (Mode::Parse, vec![0x61, 0x62, 0x63]),
            (Mode::Execute, vec![0x61, 0x62, 0x63]),
        ],
    );

    test_program(
        "1\"23",
        "",
        "",
        vec![
            (Mode::Execute, vec![]),
            (Mode::Execute, vec![1]),
            (Mode::Parse, vec![1]),
            (Mode::Parse, vec![1, 0x32]),
            (Mode::Parse, vec![1, 0x32, 0x33]),
            (Mode::Parse, vec![1, 0x32, 0x33, 0x31]),
            (Mode::Execute, vec![1, 0x32, 0x33, 0x31]),
        ],
    );

    test_program(
        "v\n\"\na\nb\n\"",
        "",
        "",
        vec![
            (Mode::Execute, vec![]),
            (Mode::Execute, vec![]),
            (Mode::Parse, vec![]),
            (Mode::Parse, vec![0x61]),
            (Mode::Parse, vec![0x61, 0x62]),
            (Mode::Execute, vec![0x61, 0x62]),
        ],
    );
}

#[test]
fn interpret_stack_manipulation() {
    test_program(
        "1:",
        "",
        "",
        vec![
            (Mode::Execute, vec![]),
            (Mode::Execute, vec![1]),
            (Mode::Execute, vec![1, 1]),
        ],
    );

    test_program(
        "12\\",
        "",
        "",
        vec![
            (Mode::Execute, vec![]),
            (Mode::Execute, vec![1]),
            (Mode::Execute, vec![1, 2]),
            (Mode::Execute, vec![2, 1]),
        ],
    );

    test_program(
        "1$",
        "",
        "",
        vec![
            (Mode::Execute, vec![]),
            (Mode::Execute, vec![1]),
            (Mode::Execute, vec![]),
        ],
    );
}

#[test]
fn interpret_output() {
    test_program(
        "1.",
        "",
        "1 ",
        vec![
            (Mode::Execute, vec![]),
            (Mode::Execute, vec![1]),
            (Mode::Execute, vec![]),
        ],
    );

    test_program(
        "\"a\",25*,",
        "",
        "a\n",
        vec![
            (Mode::Execute, vec![]),
            (Mode::Parse, vec![]),
            (Mode::Parse, vec![0x61]),
            (Mode::Execute, vec![0x61]),
            (Mode::Execute, vec![]),
            (Mode::Execute, vec![2]),
            (Mode::Execute, vec![2, 5]),
            (Mode::Execute, vec![10]),
            (Mode::Execute, vec![]),
        ],
    );
}

#[test]
fn interpret_bridge() {
    test_program(
        "#01",
        "",
        "",
        vec![
            (Mode::Execute, vec![]),
            (Mode::Execute, vec![]),
            (Mode::Execute, vec![1]),
        ],
    );
}

#[test]
fn interpret_field_manipulation() {
    test_program(
        "30g5",
        "",
        "",
        vec![
            (Mode::Execute, vec![]),
            (Mode::Execute, vec![3]),
            (Mode::Execute, vec![3, 0]),
            (Mode::Execute, vec![0x35]),
            (Mode::Execute, vec![0x35, 5]),
        ],
    );

    test_program(
        "77*40p1",
        "",
        "",
        vec![
            (Mode::Execute, vec![]),
            (Mode::Execute, vec![7]),
            (Mode::Execute, vec![7, 7]),
            (Mode::Execute, vec![49]),
            (Mode::Execute, vec![49, 4]),
            (Mode::Execute, vec![49, 4, 0]),
            (Mode::Execute, vec![]),
            (Mode::Execute, vec![1]),
        ],
    );
}

#[test]
fn interpret_user_input() {
    test_program(
        "&",
        "4\n",
        "",
        vec![(Mode::Execute, vec![]), (Mode::Execute, vec![4])],
    );

    test_program(
        "&",
        "abc\n",
        "",
        vec![(Mode::Execute, vec![]), (Mode::Execute, vec![0])],
    );

    test_program(
        "&",
        "",
        "",
        vec![(Mode::Execute, vec![]), (Mode::Execute, vec![0])],
    );

    test_program(
        "~~~",
        "ab",
        "",
        vec![
            (Mode::Execute, vec![]),
            (Mode::Execute, vec![0x61]),
            (Mode::Execute, vec![0x61, 0x62]),
            (Mode::Execute, vec![0x61, 0x62, -1]),
        ],
    );
}

#[test]
fn interpret_termination() {
    test_program(
        "@",
        "",
        "",
        vec![
            (Mode::Execute, vec![]),
            (Mode::Terminate, vec![]),
            (Mode::Terminate, vec![]),
        ],
    );

    test_program(
        "5@",
        "",
        "",
        vec![
            (Mode::Execute, vec![]),
            (Mode::Execute, vec![5]),
            (Mode::Terminate, vec![5]),
            (Mode::Terminate, vec![5]),
        ],
    );
}
