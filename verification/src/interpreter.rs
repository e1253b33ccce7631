//! The interpreter: a step-at-a-time virtual machine over a playfield, an
//! operand stack and a pair of byte streams.

use crate::numeric::format_int;
use crate::numeric::DIGIT_NINE;
use crate::numeric::DIGIT_ZERO;
use crate::numeric::int_text;
use crate::numeric::parse_int;
use crate::numeric::parsed_int;
use crate::numeric::trim_ws;
use crate::playfield::lemma_line_end_position;
use crate::playfield::line_end;
use crate::playfield::nav_step;
use crate::playfield::nav_turn;
use crate::playfield::Direction;
use crate::playfield::NavView;
use crate::playfield::Playfield;
use crate::playfield::PlayfieldNavigator;
use crate::playfield::PlayfieldView;
use crate::playfield::LINE_FEED;
use crate::playfield::SPACE;
use vstd::wrapping::i64_specs;
use vstd::arithmetic::div_mod::lemma_fundamental_div_mod;
use vstd::arithmetic::div_mod::lemma_fundamental_div_mod_converse_mod;
use vstd::arithmetic::div_mod::lemma_mod_division_less_than_divisor;
use vstd::prelude::*;

verus! {

/// The current mode of the program.
///
/// A program is either executing normally, parsing a string or has
/// terminated.
#[derive(Clone, Copy, Debug, PartialEq, Eq, Structural)]
pub enum Mode {
    Execute,
    Parse,
    Terminate,
}

/// The stack of an execution.
pub type Stack = Vec<i64>;

/// Mathematical view of an [`InputOutput`]: the bytes not yet read and the
/// bytes written so far.
pub ghost struct IoView {
    pub input: Seq<u8>,
    pub output: Seq<u8>,
}

/// The line that one buffered read consumes: the bytes through the first
/// line feed, or all remaining bytes if there is none.
pub open spec fn taken_line(inp: Seq<u8>) -> Seq<u8> {
    if line_end(inp) < inp.len() {
        inp.take(line_end(inp) as int + 1)
    } else {
        inp
    }
}

/// What remains of the input after one buffered line read.
pub open spec fn after_line(inp: Seq<u8>) -> Seq<u8> {
    inp.skip(taken_line(inp).len() as int)
}

/// The low byte of `v`: its value modulo 256.
pub open spec fn low_byte(v: i64) -> u8 {
    ((v as int) % 256) as u8
}

/// A provider of input and output operations.
///
/// The input is a byte buffer read from front to back; the output is a byte
/// buffer appended to. Any stream can be drained into or filled from these
/// buffers by a surrounding driver.
pub struct InputOutput {
    input: Vec<u8>,
    cursor: usize,
    output: Vec<u8>,
}

impl View for InputOutput {
    type V = IoView;

    closed spec fn view(&self) -> IoView {
        IoView { input: self.input@.skip(self.cursor as int), output: self.output@ }
    }
}

impl InputOutput {
    /// The read cursor never passes the end of the input buffer.
    pub closed spec fn wf(&self) -> bool {
        self.cursor <= self.input@.len()
    }

    /// Create a new provider reading from `input` and appending to `output`.
    pub fn new(input: Vec<u8>, output: Vec<u8>) -> (io: Self)
        ensures
            io@.input == input@,
            io@.output == output@,
            io.wf(),
    {
        let io = Self { input, cursor: 0, output };
        proof {
            assert(io@.input =~= io.input@);
        }
        io
    }

    /// Return the bytes that have not been read yet.
    pub fn reader(&self) -> (r: Vec<u8>)
        requires
            self.wf(),
        ensures
            r@ == self@.input,
    {
        let mut r: Vec<u8> = Vec::new();
        let mut k: usize = self.cursor;
        while k < self.input.len()
            invariant
                self.cursor <= k <= self.input@.len(),
                r@ == self.input@.subrange(self.cursor as int, k as int),
            decreases self.input@.len() - k,
        {
            let c = self.input[k];
            r.push(c);
            proof {
                assert(r@ =~= self.input@.subrange(self.cursor as int, k + 1 as int));
            }
            k += 1;
        }
        proof {
            assert(r@ =~= self@.input);
        }
        r
    }

    /// Return the bytes written so far.
    pub fn writer(&self) -> (r: &Vec<u8>)
        ensures
            r@ == self@.output,
    {
        &self.output
    }

    /// Write `val` as decimal text followed by a single space.
    pub fn write_int(&mut self, val: i64)
        requires
            old(self).wf(),
        ensures
            final(self).wf(),
            final(self)@.input == old(self)@.input,
            final(self)@.output == old(self)@.output + int_text(val as int) + seq![SPACE],
    {
        let text = format_int(val);
        self.output.extend_from_slice(text.as_slice());
        self.output.push(SPACE);
        proof {
            assert(final(self)@.output =~= old(self)@.output + int_text(val as int) + seq![SPACE]);
        }
    }

    /// Write the low byte of `val` as one character.
    pub fn write_ascii(&mut self, val: i64)
        requires
            old(self).wf(),
        ensures
            final(self).wf(),
            final(self)@.input == old(self)@.input,
            final(self)@.output == old(self)@.output + seq![low_byte(val)],
    {
        let b = to_low_byte(val);
        self.output.push(b);
        proof {
            assert(final(self)@.output =~= old(self)@.output + seq![low_byte(val)]);
        }
    }

    /// Read one line from the input and parse it as a signed decimal
    /// integer; a missing or malformed line yields `0`.
    pub fn read_int(&mut self) -> (r: i64)
        requires
            old(self).wf(),
        ensures
            final(self).wf(),
            final(self)@.output == old(self)@.output,
            final(self)@.input == after_line(old(self)@.input),
            r == parsed_int(trim_ws(taken_line(old(self)@.input))),
    {
        let ghost rem = self@.input;
        let n = self.input.len();
        let mut j: usize = self.cursor;
        while j < n && self.input[j] != LINE_FEED
            invariant
                self.cursor <= j <= n == self.input@.len(),
                forall|k: int| self.cursor <= k < j ==> self.input@[k] != LINE_FEED,
            decreases n - j,
        {
            j += 1;
        }
        proof {
            assert forall|k: int| 0 <= k < j - self.cursor implies rem[k] != LINE_FEED by {
                assert(self.input@[self.cursor + k] != LINE_FEED);
            }
            if j < n {
                assert(rem[j - self.cursor] == self.input@[j as int]);
            }
            lemma_line_end_position(rem, j - self.cursor);
        }
        let endx: usize = if j < n {
            j + 1
        } else {
            j
        };
        let mut line: Vec<u8> = Vec::new();
        let mut k: usize = self.cursor;
        while k < endx
            invariant
                self.cursor <= k <= endx <= self.input@.len(),
                line@ == self.input@.subrange(self.cursor as int, k as int),
            decreases endx - k,
        {
            let c = self.input[k];
            line.push(c);
            proof {
                assert(line@ =~= self.input@.subrange(self.cursor as int, k + 1 as int));
            }
            k += 1;
        }
        proof {
            assert(taken_line(rem) =~= self.input@.subrange(self.cursor as int, endx as int));
        }
        let r = parse_int(line.as_slice());
        self.cursor = endx;
        proof {
            assert(final(self)@.input =~= after_line(rem));
        }
        r
    }

    /// Read exactly one byte from the input and return its value, or `-1` if
    /// the input is exhausted.
    pub fn read_ascii(&mut self) -> (r: i64)
        requires
            old(self).wf(),
        ensures
            final(self).wf(),
            final(self)@.output == old(self)@.output,
            old(self)@.input.len() == 0 ==> r == -1 && final(self)@.input == old(self)@.input,
            old(self)@.input.len() > 0 ==> r == old(self)@.input[0] as i64 && final(self)@.input
                == old(self)@.input.drop_first(),
    {
        if self.cursor < self.input.len() {
            let b = self.input[self.cursor];
            self.cursor = self.cursor + 1;
            proof {
                assert(final(self)@.input =~= old(self)@.input.drop_first());
            }
            b as i64
        } else {
            proof {
                assert(old(self)@.input.len() == 0);
            }
            -1
        }
    }
}

/// Addition: `+`.
pub const OP_ADD: u8 = 0x2b;

/// Subtraction: `-`.
pub const OP_SUB: u8 = 0x2d;

/// Multiplication: `*`.
pub const OP_MUL: u8 = 0x2a;

/// Integer division: `/`.
pub const OP_DIV: u8 = 0x2f;

/// Remainder: `%`.
pub const OP_MOD: u8 = 0x25;

/// Logical not: `!`.
pub const OP_NOT: u8 = 0x21;

/// Greater than: a backtick.
pub const OP_GREATER: u8 = 0x60;

/// Start moving right: `>`.
pub const OP_RIGHT: u8 = 0x3e;

/// Start moving left: `<`.
pub const OP_LEFT: u8 = 0x3c;

/// Start moving up: `^`.
pub const OP_UP: u8 = 0x5e;

/// Start moving down: `v`.
pub const OP_DOWN: u8 = 0x76;

/// Start moving in a random direction: `?`.
pub const OP_RANDOM: u8 = 0x3f;

/// Horizontal branch: `_`.
pub const OP_IF_HORIZONTAL: u8 = 0x5f;

/// Vertical branch: `|`.
pub const OP_IF_VERTICAL: u8 = 0x7c;

/// The string-mode delimiter: a double quote.
pub const OP_QUOTE: u8 = 0x22;

/// Duplicate the top of the stack: `:`.
pub const OP_DUP: u8 = 0x3a;

/// Swap the two topmost values: a backslash.
pub const OP_SWAP: u8 = 0x5c;

/// Pop and discard: `$`.
pub const OP_DISCARD: u8 = 0x24;

/// Output a number: `.`.
pub const OP_WRITE_INT: u8 = 0x2e;

/// Output a character: `,`.
pub const OP_WRITE_CHAR: u8 = 0x2c;

/// Bridge, skipping the next cell: `#`.
pub const OP_BRIDGE: u8 = 0x23;

/// Put a byte into the grid: `p`.
pub const OP_PUT: u8 = 0x70;

/// Get a byte from the grid: `g`.
pub const OP_GET: u8 = 0x67;

/// Read a number: `&`.
pub const OP_READ_INT: u8 = 0x26;

/// Read a character: `~`.
pub const OP_READ_CHAR: u8 = 0x7e;

/// End the program: `@`.
pub const OP_END: u8 = 0x40;

/// A programmer error: the source program is malformed. A failed step
/// reports the fault and leaves the interpreter unchanged.
#[derive(Clone, Copy, Debug, PartialEq, Eq, Structural)]
pub enum StepError {
    /// An unrecognized instruction byte, with the grid position it was read
    /// from.
    IllegalInstruction { code: u8, col: usize, row: usize },
    /// A `p` or `g` instruction addressed a cell outside the grid.
    OutOfBounds { x: i64, y: i64 },
    /// A `/` or `%` instruction divided by zero, at this grid position.
    DivisionByZero { col: usize, row: usize },
}

/// Mathematical view of an [`Interpreter`]: the grid, the navigator, the
/// operand stack, the mode and the two byte streams.
pub ghost struct VmView {
    pub field: PlayfieldView,
    pub nav: NavView,
    pub stack: Seq<i64>,
    pub mode: Mode,
    pub io: IoView,
}

impl VmView {
    /// The grid is well-formed and at least one cell wide and high, and the
    /// navigator moves over exactly its dimensions.
    pub open spec fn wf(self) -> bool {
        &&& self.field.wf()
        &&& self.nav.wf()
        &&& self.nav.dim.0 == self.field.width
        &&& self.nav.dim.1 == self.field.height
    }
}

/// Pop one value: the top of the stack, or `0` if the stack is empty, and
/// the remaining stack.
pub open spec fn pop1(st: Seq<i64>) -> (i64, Seq<i64>) {
    if st.len() == 0 {
        (0i64, st)
    } else {
        (st.last(), st.drop_last())
    }
}

/// Pop two values `(a, b)`: `a` was on top of `b`.
pub open spec fn pop2(st: Seq<i64>) -> (i64, i64, Seq<i64>) {
    let (a, st1) = pop1(st);
    let (b, st2) = pop1(st1);
    (a, b, st2)
}

/// Pop three values, topmost first.
pub open spec fn pop3(st: Seq<i64>) -> (i64, i64, i64, Seq<i64>) {
    let (a, st1) = pop1(st);
    let (b, st2) = pop1(st1);
    let (c, st3) = pop1(st2);
    (a, b, c, st3)
}

/// The direction that a random sample from `0..4` selects.
pub open spec fn direction_of(i: int) -> Direction {
    if i == 0 {
        Direction::Up
    } else if i == 1 {
        Direction::Down
    } else if i == 2 {
        Direction::Left
    } else {
        Direction::Right
    }
}

/// One instruction dispatched in `Execute` mode: the machine after executing
/// byte `c`, or the programmer error that aborts the run. The navigator has
/// not yet advanced past the instruction; `rd` is the direction a random
/// source supplied, read only by the `?` instruction.
pub open spec fn exec_instr(s: VmView, c: u8, rd: Direction) -> Result<VmView, StepError> {
    let at_x = s.nav.pos.0 as usize;
    let at_y = s.nav.pos.1 as usize;
    if DIGIT_ZERO <= c <= DIGIT_NINE {
        // push this number on the stack
        Ok(VmView { stack: s.stack.push((c - DIGIT_ZERO) as i64), ..s })
    } else if c == OP_ADD {
        // addition: pop a and b, then push a+b, wrapping
        let (a, b, st) = pop2(s.stack);
        Ok(VmView { stack: st.push(i64_specs::wrapping_add(a, b)), ..s })
    } else if c == OP_SUB {
        // subtraction: pop a and b, then push b-a, wrapping
        let (a, b, st) = pop2(s.stack);
        Ok(VmView { stack: st.push(i64_specs::wrapping_sub(b, a)), ..s })
    } else if c == OP_MUL {
        // multiplication: pop a and b, then push a*b, wrapping
        let (a, b, st) = pop2(s.stack);
        Ok(VmView { stack: st.push(i64_specs::wrapping_mul(a, b)), ..s })
    } else if c == OP_DIV {
        // integer division: pop a and b, then push b/a, truncated towards 0
        let (a, b, st) = pop2(s.stack);
        if a == 0 {
            Err(StepError::DivisionByZero { col: at_x, row: at_y })
        } else {
            let q = match b.checked_div(a) {
                Some(q) => q,
                None => i64::MIN,
            };
            Ok(VmView { stack: st.push(q), ..s })
        }
    } else if c == OP_MOD {
        // modulo: pop a and b, then push the remainder of b/a
        let (a, b, st) = pop2(s.stack);
        if a == 0 {
            Err(StepError::DivisionByZero { col: at_x, row: at_y })
        } else {
            let q = match b.checked_rem(a) {
                Some(q) => q,
                None => 0,
            };
            Ok(VmView { stack: st.push(q), ..s })
        }
    } else if c == OP_NOT {
        // logical not: pop a value; push 1 if it is zero, 0 otherwise
        let (v, st) = pop1(s.stack);
        Ok(VmView { stack: st.push(if v == 0 { 1i64 } else { 0i64 }), ..s })
    } else if c == OP_GREATER {
        // greater than: pop a and b, then push 1 if b>a, 0 otherwise
        let (a, b, st) = pop2(s.stack);
        Ok(VmView { stack: st.push(if b > a { 1i64 } else { 0i64 }), ..s })
    } else if c == OP_RIGHT {
        // start moving right
        Ok(VmView { nav: nav_turn(s.nav, Direction::Right), ..s })
    } else if c == OP_LEFT {
        // start moving left
        Ok(VmView { nav: nav_turn(s.nav, Direction::Left), ..s })
    } else if c == OP_UP {
        // start moving up
        Ok(VmView { nav: nav_turn(s.nav, Direction::Up), ..s })
    } else if c == OP_DOWN {
        // start moving down
        Ok(VmView { nav: nav_turn(s.nav, Direction::Down), ..s })
    } else if c == OP_RANDOM {
        // start moving in the direction the random source supplied
        Ok(VmView { nav: nav_turn(s.nav, rd), ..s })
    } else if c == OP_IF_HORIZONTAL {
        // pop a value; move right if it is zero, left otherwise
        let (v, st) = pop1(s.stack);
        Ok(VmView {
            stack: st,
            nav: nav_turn(s.nav, if v == 0 { Direction::Right } else { Direction::Left }),
            ..s
        })
    } else if c == OP_IF_VERTICAL {
        // pop a value; move down if it is zero, up otherwise
        let (v, st) = pop1(s.stack);
        Ok(VmView {
            stack: st,
            nav: nav_turn(s.nav, if v == 0 { Direction::Down } else { Direction::Up }),
            ..s
        })
    } else if c == OP_QUOTE {
        // start string mode
        Ok(VmView { mode: Mode::Parse, ..s })
    } else if c == OP_DUP {
        // duplicate the value on top of the stack
        let (v, st) = pop1(s.stack);
        Ok(VmView { stack: st.push(v).push(v), ..s })
    } else if c == OP_SWAP {
        // swap the two values on top of the stack
        let (a, b, st) = pop2(s.stack);
        Ok(VmView { stack: st.push(a).push(b), ..s })
    } else if c == OP_DISCARD {
        // pop a value and discard it
        let (v, st) = pop1(s.stack);
        Ok(VmView { stack: st, ..s })
    } else if c == OP_WRITE_INT {
        // pop a value and output it as an integer followed by a space
        let (v, st) = pop1(s.stack);
        Ok(VmView {
            stack: st,
            io: IoView {
                input: s.io.input,
                output: s.io.output + int_text(v as int) + seq![SPACE],
            },
            ..s
        })
    } else if c == OP_WRITE_CHAR {
        // pop a value and output its low byte as a character
        let (v, st) = pop1(s.stack);
        Ok(VmView {
            stack: st,
            io: IoView { input: s.io.input, output: s.io.output + seq![low_byte(v)] },
            ..s
        })
    } else if c == OP_BRIDGE {
        // bridge: skip the next cell
        Ok(VmView { nav: nav_step(s.nav), ..s })
    } else if c == OP_PUT {
        // put: pop y, x and v, then write v's low byte into cell (x, y)
        let (y, x, v, st) = pop3(s.stack);
        if s.field.in_bounds(x as int, y as int) {
            Ok(VmView {
                stack: st,
                field: s.field.write(x as int, y as int, low_byte(v)),
                ..s
            })
        } else {
            Err(StepError::OutOfBounds { x, y })
        }
    } else if c == OP_GET {
        // get: pop y and x, then push the byte at cell (x, y)
        let (y, x, st) = pop2(s.stack);
        if s.field.in_bounds(x as int, y as int) {
            Ok(VmView { stack: st.push(s.field.cell(x as int, y as int) as i64), ..s })
        } else {
            Err(StepError::OutOfBounds { x, y })
        }
    } else if c == OP_READ_INT {
        // ask for a number and push it; 0 where none can be read
        Ok(VmView {
            stack: s.stack.push(parsed_int(trim_ws(taken_line(s.io.input)))),
            io: IoView { input: after_line(s.io.input), output: s.io.output },
            ..s
        })
    } else if c == OP_READ_CHAR {
        // ask for a character and push its value; -1 at end of input
        if s.io.input.len() == 0 {
            Ok(VmView { stack: s.stack.push(-1i64), ..s })
        } else {
            Ok(VmView {
                stack: s.stack.push(s.io.input[0] as i64),
                io: IoView { input: s.io.input.drop_first(), output: s.io.output },
                ..s
            })
        }
    } else if c == OP_END {
        // end the program
        Ok(VmView { mode: Mode::Terminate, ..s })
    } else if c == SPACE {
        // no-op
        Ok(s)
    } else {
        Err(StepError::IllegalInstruction { code: c, col: at_x, row: at_y })
    }
}

/// One instruction dispatched in `Parse` (string) mode: the closing
/// delimiter returns to `Execute`; any other byte is pushed on the stack.
pub open spec fn parse_instr(s: VmView, c: u8) -> VmView {
    if c == OP_QUOTE {
        VmView { mode: Mode::Execute, ..s }
    } else {
        VmView { stack: s.stack.push(c as i64), ..s }
    }
}

/// One step of the machine. A terminated machine does not move; otherwise
/// the byte under the navigator is dispatched by mode, and the navigator
/// advances unless the program terminated or the dispatch failed. A failed
/// dispatch leaves the machine unchanged.
pub open spec fn vm_step(s: VmView, rd: Direction) -> VmView {
    if s.mode == Mode::Terminate {
        s
    } else {
        let c = s.field.cell(s.nav.pos.0 as int, s.nav.pos.1 as int);
        let outcome = if s.mode == Mode::Execute {
            exec_instr(s, c, rd)
        } else {
            Ok(parse_instr(s, c))
        };
        match outcome {
            Err(e) => s,
            Ok(s2) => if s2.mode == Mode::Terminate {
                s2
            } else {
                VmView { nav: nav_step(s2.nav), ..s2 }
            },
        }
    }
}

/// What one step reports: `Ok(true)` when a step was consumed, `Ok(false)`
/// when the run has ended, and the programmer error when the dispatch
/// failed.
pub open spec fn vm_step_result(s: VmView, rd: Direction) -> Result<bool, StepError> {
    if s.mode == Mode::Terminate {
        Ok(false)
    } else {
        let c = s.field.cell(s.nav.pos.0 as int, s.nav.pos.1 as int);
        let outcome = if s.mode == Mode::Execute {
            exec_instr(s, c, rd)
        } else {
            Ok(parse_instr(s, c))
        };
        match outcome {
            Err(e) => Err(e),
            Ok(s2) => if s2.mode == Mode::Terminate {
                Ok(false)
            } else {
                Ok(true)
            },
        }
    }
}

/// A Befunge interpreter.
pub struct Interpreter {
    field: Playfield,
    io: InputOutput,
    nav: PlayfieldNavigator,
    stack: Stack,
    mode: Mode,
}

impl View for Interpreter {
    type V = VmView;

    closed spec fn view(&self) -> VmView {
        VmView {
            field: self.field@,
            nav: self.nav@,
            stack: self.stack@,
            mode: self.mode,
            io: self.io@,
        }
    }
}

impl Interpreter {
    /// The machine's parts agree: the view is well-formed and the input
    /// provider's buffers are sound.
    pub closed spec fn wf(&self) -> bool {
        self@.wf() && self.io.wf()
    }

    /// Create a new interpreter for the given playfield and input/output
    /// provider, at position `(0, 0)` facing right, in `Execute` mode, with
    /// an empty stack.
    pub fn new(field: Playfield, io: InputOutput) -> (r: Self)
        requires
            field.wf(),
            field@.width >= 1,
            field@.height >= 1,
            io.wf(),
        ensures
            r@ == (VmView {
                field: field@,
                nav: NavView {
                    dim: (field@.width, field@.height),
                    pos: (0nat, 0nat),
                    dir: Direction::Right,
                },
                stack: Seq::empty(),
                mode: Mode::Execute,
                io: io@,
            }),
            r.wf(),
    {
        let dimensions = field.dimensions();
        let r = Self {
            field,
            io,
            nav: PlayfieldNavigator::new(dimensions),
            stack: Vec::new(),
            mode: Mode::Execute,
        };
        proof {
            assert(r@.stack =~= Seq::<i64>::empty());
        }
        r
    }

    /// Get a reference to the playfield.
    pub fn field(&self) -> (r: &Playfield)
        ensures
            r@ == self@.field,
            self.wf() ==> r.wf(),
    {
        &self.field
    }

    /// Get a reference to the input and output provider.
    pub fn io(&self) -> (r: &InputOutput)
        ensures
            r@ == self@.io,
    {
        &self.io
    }

    /// Get a reference to the navigator.
    pub fn nav(&self) -> (r: &PlayfieldNavigator)
        ensures
            r@ == self@.nav,
    {
        &self.nav
    }

    /// Get a reference to the stack.
    pub fn stack(&self) -> (r: &Stack)
        ensures
            r@ == self@.stack,
    {
        &self.stack
    }

    /// Get the current mode.
    pub fn mode(&self) -> (m: Mode)
        ensures
            m == self@.mode,
    {
        self.mode
    }

    /// Dispatch one byte in `Execute` mode, leaving the stored mode to the
    /// caller: the next mode is returned. A programmer error is reported
    /// with the machine unchanged.
    #[verifier::loop_isolation(false)]
    fn execute_step(&mut self, c: u8, rd: Direction) -> (r: Result<Mode, StepError>)
        requires
            old(self).wf(),
        ensures
            final(self).wf(),
            match r {
                Ok(m) => {
                    &&& exec_instr(old(self)@, c, rd) is Ok
                    &&& final(self)@ == (VmView {
                        mode: old(self)@.mode,
                        ..exec_instr(old(self)@, c, rd)->Ok_0
                    })
                    &&& m == exec_instr(old(self)@, c, rd)->Ok_0.mode
                },
                Err(e) => {
                    &&& exec_instr(old(self)@, c, rd) == Err::<VmView, StepError>(e)
                    &&& final(self)@ == old(self)@
                },
            },
    {
        if DIGIT_ZERO <= c && c <= DIGIT_NINE {
            self.stack.push((c - DIGIT_ZERO) as i64);
            Ok(self.mode)
        } else if c == OP_ADD {
            let a = self.pop_default();
            let b = self.pop_default();
            self.stack.push(a.wrapping_add(b));
            Ok(self.mode)
        } else if c == OP_SUB {
            let a = self.pop_default();
            let b = self.pop_default();
            self.stack.push(b.wrapping_sub(a));
            Ok(self.mode)
        } else if c == OP_MUL {
            let a = self.pop_default();
            let b = self.pop_default();
            self.stack.push(a.wrapping_mul(b));
            Ok(self.mode)
        } else if c == OP_DIV {
            if self.top_default() == 0 {
                let (x, y) = self.nav.pos();
                return Err(StepError::DivisionByZero { col: x, row: y });
            }
            let a = self.pop_default();
            let b = self.pop_default();
            let q = match b.checked_div(a) {
                Some(q) => q,
                None => i64::MIN,
            };
            self.stack.push(q);
            Ok(self.mode)
        } else if c == OP_MOD {
            if self.top_default() == 0 {
                let (x, y) = self.nav.pos();
                return Err(StepError::DivisionByZero { col: x, row: y });
            }
            let a = self.pop_default();
            let b = self.pop_default();
            let q = match b.checked_rem(a) {
                Some(q) => q,
                None => 0,
            };
            self.stack.push(q);
            Ok(self.mode)
        } else if c == OP_NOT {
            let v = self.pop_default();
            self.stack.push(if v == 0 { 1 } else { 0 });
            Ok(self.mode)
        } else if c == OP_GREATER {
            let a = self.pop_default();
            let b = self.pop_default();
            self.stack.push(if b > a { 1 } else { 0 });
            Ok(self.mode)
        } else if c == OP_RIGHT {
            self.nav.turn(Direction::Right);
            Ok(self.mode)
        } else if c == OP_LEFT {
            self.nav.turn(Direction::Left);
            Ok(self.mode)
        } else if c == OP_UP {
            self.nav.turn(Direction::Up);
            Ok(self.mode)
        } else if c == OP_DOWN {
            self.nav.turn(Direction::Down);
            Ok(self.mode)
        } else if c == OP_RANDOM {
            self.nav.turn(rd);
            Ok(self.mode)
        } else if c == OP_IF_HORIZONTAL {
            let v = self.pop_default();
            self.nav.turn(if v == 0 { Direction::Right } else { Direction::Left });
            Ok(self.mode)
        } else if c == OP_IF_VERTICAL {
            let v = self.pop_default();
            self.nav.turn(if v == 0 { Direction::Down } else { Direction::Up });
            Ok(self.mode)
        } else if c == OP_QUOTE {
            Ok(Mode::Parse)
        } else if c == OP_DUP {
            let v = self.pop_default();
            self.stack.push(v);
            self.stack.push(v);
            Ok(self.mode)
        } else if c == OP_SWAP {
            let a = self.pop_default();
            let b = self.pop_default();
            self.stack.push(a);
            self.stack.push(b);
            Ok(self.mode)
        } else if c == OP_DISCARD {
            let _ = self.pop_default();
            Ok(self.mode)
        } else if c == OP_WRITE_INT {
            let v = self.pop_default();
            self.io.write_int(v);
            Ok(self.mode)
        } else if c == OP_WRITE_CHAR {
            let v = self.pop_default();
            self.io.write_ascii(v);
            Ok(self.mode)
        } else if c == OP_BRIDGE {
            self.nav.step();
            Ok(self.mode)
        } else if c == OP_PUT {
            match self.peek_target() {
                Some((x, y)) => {
                    let _ = self.pop_default();
                    let _ = self.pop_default();
                    let v = self.pop_default();
                    self.field.set(x, y, to_low_byte(v));
                    Ok(self.mode)
                },
                None => {
                    let py = self.top_nth(1);
                    let px = self.top_nth(2);
                    Err(StepError::OutOfBounds { x: px, y: py })
                },
            }
        } else if c == OP_GET {
            match self.peek_target() {
                Some((x, y)) => {
                    let _ = self.pop_default();
                    let _ = self.pop_default();
                    let v = self.field.get(x, y);
                    self.stack.push(v as i64);
                    Ok(self.mode)
                },
                None => {
                    let py = self.top_nth(1);
                    let px = self.top_nth(2);
                    Err(StepError::OutOfBounds { x: px, y: py })
                },
            }
        } else if c == OP_READ_INT {
            let v = self.io.read_int();
            self.stack.push(v);
            Ok(self.mode)
        } else if c == OP_READ_CHAR {
            let v = self.io.read_ascii();
            self.stack.push(v);
            Ok(self.mode)
        } else if c == OP_END {
            Ok(Mode::Terminate)
        } else if c == SPACE {
            Ok(self.mode)
        } else {
            let (x, y) = self.nav.pos();
            Err(StepError::IllegalInstruction { code: c, col: x, row: y })
        }
    }

    /// Pop the top of the stack, or `0` if the stack is empty.
    fn pop_default(&mut self) -> (v: i64)
        ensures
            v == pop1(old(self)@.stack).0,
            final(self)@ == (VmView { stack: pop1(old(self)@.stack).1, ..old(self)@ }),
            final(self).wf() == old(self).wf(),
    {
        match self.stack.pop() {
            Some(v) => v,
            None => 0,
        }
    }

    /// Read the top of the stack without popping, or `0` if the stack is
    /// empty.
    fn top_default(&self) -> (v: i64)
        ensures
            v == pop1(self@.stack).0,
    {
        let n = self.stack.len();
        if n == 0 {
            0
        } else {
            self.stack[n - 1]
        }
    }

    /// Read the `i`-th value from the top of the stack without popping, or
    /// `0` if the stack holds fewer than `i` values.
    fn top_nth(&self, i: usize) -> (v: i64)
        requires
            1 <= i <= 2,
        ensures
            i == 1 ==> v == pop1(self@.stack).0,
            i == 2 ==> v == pop2(self@.stack).1,
    {
        let n = self.stack.len();
        if n >= i {
            self.stack[n - i]
        } else {
            0
        }
    }

    /// Whether the top two values of the stack, read as `(y, x)` from the
    /// top, address a cell of the grid; on success the coordinates are
    /// returned as indices.
    fn peek_target(&self) -> (r: Option<(usize, usize)>)
        requires
            self.wf(),
        ensures
            ({
                let y = pop1(self@.stack).0;
                let x = pop2(self@.stack).1;
                match r {
                    Some(p) => {
                        &&& self@.field.in_bounds(x as int, y as int)
                        &&& p.0 == x
                        &&& p.1 == y
                    },
                    None => !self@.field.in_bounds(x as int, y as int),
                }
            }),
    {
        let y = self.top_nth(1);
        let x = self.top_nth(2);
        let (w, h) = self.field.dimensions();
        if x >= 0 && y >= 0 && (x as u64) < (w as u64) && (y as u64) < (h as u64) {
            Some((x as usize, y as usize))
        } else {
            None
        }
    }

    /// Dispatch one byte in `Parse` (string) mode, leaving the stored mode
    /// to the caller: the next mode is returned.
    fn parse_step(&mut self, c: u8) -> (m: Mode)
        requires
            old(self).wf(),
        ensures
            final(self).wf(),
            final(self)@ == (VmView { mode: old(self)@.mode, ..parse_instr(old(self)@, c) }),
            m == parse_instr(old(self)@, c).mode,
    {
        if c == OP_QUOTE {
            Mode::Execute
        } else {
            self.stack.push(c as i64);
            self.mode
        }
    }

    /// Perform one step with the given direction standing in for the random
    /// source: read the byte under the navigator, dispatch it by mode, and
    /// advance. Returns `Ok(true)` when a step was consumed, `Ok(false)`
    /// when the run has ended, and the programmer error — with the machine
    /// unchanged — when the dispatch failed.
    ///
    /// This deterministic form makes an execution reproducible; [`Self::next`]
    /// draws the direction from a random source instead.
    pub fn next_with(&mut self, rd: Direction) -> (r: Result<bool, StepError>)
        requires
            old(self).wf(),
        ensures
            final(self).wf(),
            final(self)@ == vm_step(old(self)@, rd),
            r == vm_step_result(old(self)@, rd),
    {
        if self.mode == Mode::Terminate {
            return Ok(false);
        }
        let (x, y) = self.nav.pos();
        let c = self.field.get(x, y);
        let m = match self.mode {
            Mode::Execute => match self.execute_step(c, rd) {
                Ok(m) => m,
                Err(e) => {
                    return Err(e);
                },
            },
            _ => self.parse_step(c),
        };
        self.mode = m;
        if m == Mode::Terminate {
            return Ok(false);
        }
        self.nav.step();
        Ok(true)
    }

    /// Perform one step, drawing the direction for the `?` instruction from
    /// the process's random source. Every other instruction ignores it, so
    /// for some direction this behaves exactly like [`Self::next_with`].
    pub fn next(&mut self) -> (r: Result<bool, StepError>)
        requires
            old(self).wf(),
        ensures
            final(self).wf(),
            exists|rd: Direction|
                final(self)@ == vm_step(old(self)@, rd) && r == vm_step_result(old(self)@, rd),
    {
        let q = random_quarter();
        let rd = pick_direction(q);
        let r = self.next_with(rd);
        proof {
            assert(final(self)@ == vm_step(old(self)@, rd) && r == vm_step_result(
                old(self)@,
                rd,
            ));
        }
        r
    }
}

#[verifier::external_type_specification]
#[verifier::external_body]
pub struct ExThreadRng(rand::rngs::ThreadRng);

/// Relies on `rand::thread_rng`: it returns a handle to the thread-local
/// random generator. Nothing is promised of the handle.
#[verifier::external_body]
fn thread_rng() -> rand::rngs::ThreadRng {
    rand::thread_rng()
}

/// Relies on `rand::Rng::gen_range`: a sample from the half-open range
/// `0..4` lies below `4`.
#[verifier::external_body]
fn sample_quarter(rng: &mut rand::rngs::ThreadRng) -> (r: u8)
    ensures
        r < 4,
{
    rand::Rng::gen_range(rng, 0..4u8)
}

/// A direction index drawn from the thread-local random source.
fn random_quarter() -> (r: u8)
    ensures
        r < 4,
{
    let mut rng = thread_rng();
    sample_quarter(&mut rng)
}

/// Map a random sample to the direction it selects.
fn pick_direction(i: u8) -> (d: Direction)
    ensures
        d == direction_of(i as int),
{
    if i == 0 {
        Direction::Up
    } else if i == 1 {
        Direction::Down
    } else if i == 2 {
        Direction::Left
    } else {
        Direction::Right
    }
}

/// Termination is absorbing: once the machine has terminated, a step leaves
/// it untouched and only reports completion, whatever the random source
/// supplies.
pub proof fn lemma_terminate_absorbing(s: VmView, rd: Direction)
    requires
        s.mode == Mode::Terminate,
    ensures
        vm_step(s, rd) == s,
        vm_step_result(s, rd) == Ok::<bool, StepError>(false),
{
}

/// Input fallback: with the input exhausted, the read-number instruction
/// pushes `0` and the read-character instruction pushes `-1`; neither
/// changes anything else.
pub proof fn lemma_input_fallback(s: VmView, rd: Direction)
    requires
        s.io.input.len() == 0,
    ensures
        exec_instr(s, OP_READ_INT, rd) == Ok::<VmView, StepError>(
            VmView { stack: s.stack.push(0i64), ..s },
        ),
        exec_instr(s, OP_READ_CHAR, rd) == Ok::<VmView, StepError>(
            VmView { stack: s.stack.push(-1i64), ..s },
        ),
{
    assert(taken_line(s.io.input) =~= s.io.input);
    assert(after_line(s.io.input) =~= s.io.input);
    assert(trim_ws(taken_line(s.io.input)).len() == 0);
    assert(parsed_int(trim_ws(taken_line(s.io.input))) == 0);
    assert((IoView { input: after_line(s.io.input), output: s.io.output }) == s.io);
}

/// The low byte of `v` as executable code: the remainder is shifted into
/// `0..256`.
fn to_low_byte(v: i64) -> (b: u8)
    ensures
        b == low_byte(v),
{
    let r = match v.checked_rem(256) {
        Some(r) => r,
        None => 0,
    };
    proof {
        lemma_mod_division_less_than_divisor(v as int, 256);
        if v < 0 {
            let m = (v as int) * -1;
            lemma_fundamental_div_mod(m, 256);
            let q = m / 256;
            let u = m % 256;
            lemma_mod_division_less_than_divisor(m, 256);
            if u == 0 {
                lemma_fundamental_div_mod_converse_mod(v as int, 256, -q, 0);
            } else {
                lemma_fundamental_div_mod_converse_mod(v as int, 256, -q - 1, 256 - u);
            }
        }
    }
    if r < 0 {
        (r + 256) as u8
    } else {
        r as u8
    }
}

} // verus!

