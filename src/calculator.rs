use vstd::prelude::*;

use vstd::utf8::*;

use crate::custom_error::CustomError;
use crate::decfix::{
    all_digits, all_digits_in, digits_value, is_digit, read_digits, DecimalFixed, DEFAULT_EXPONENT,
};
use crate::stack::{CustomStack, MAX_STACK_SIZE};
use crate::textbox::{lemma_encode_concat, text_bytes, CustomTextbox, TEXT_BUFFER_SIZE};

verus! {

// ---------------------------------------------------------------------------
// Commands

/// A command of command mode, as read from the confirmed line.
#[derive(Debug, Clone, Copy, PartialEq, Eq, Structural)]
pub enum Command {
    Reset,
    Halt,
    Breakpoint,
    BreakpointAlt,
    BootUsb,
    Redraw,
    /// A display brightness level, 1 to 5.
    Brightness(u8),
    Clear,
    Duplicate,
    Drop,
    /// Drop this many elements, at least 1 and at most `MAX_STACK_SIZE`.
    DropMany(usize),
    Swap,
    /// Nothing was typed.
    Empty,
    /// Not a command, or a command with a malformed or out-of-range argument.
    Invalid,
}

/// What handling one input event led to: the state change to show, an action for the
/// driver to carry out, or a failure.
#[derive(Debug, Clone, Copy, PartialEq, Eq, Structural)]
pub enum Outcome {
    /// Nothing changed.
    Ignored,
    /// Only the input line changed.
    LineChanged,
    /// The stack changed (and the line with it).
    StackChanged,
    /// Redraw everything and clear any error indicator.
    Redraw,
    CommandModeEntered,
    /// Command input was abandoned; back in entry mode.
    Cancelled,
    Reset,
    Halt,
    Breakpoint,
    BreakpointAlt,
    BootUsb,
    SetBrightness(u8),
    Failed(CustomError),
}

/// Index of the first character at or after `i` that is not a space.
pub open spec fn skip_spaces(s: Seq<char>, i: int) -> int
    decreases s.len() - i,
{
    if 0 <= i < s.len() && s[i] == ' ' {
        skip_spaces(s, i + 1)
    } else {
        i
    }
}

/// End of `s[lo..j]` once trailing spaces are dropped.
pub open spec fn back_spaces(s: Seq<char>, lo: int, j: int) -> int
    decreases j - lo,
{
    if lo < j && s[j - 1] == ' ' {
        back_spaces(s, lo, j - 1)
    } else {
        j
    }
}

/// `s` without leading and trailing spaces.
pub open spec fn trimmed(s: Seq<char>) -> Seq<char> {
    let a = skip_spaces(s, 0);
    s.subrange(a, back_spaces(s, a, s.len() as int))
}

/// Index of the last space in `t[..j]`, or -1.
pub open spec fn last_space(t: Seq<char>, j: int) -> int
    decreases j,
{
    if j <= 0 {
        -1
    } else if t[j - 1] == ' ' {
        j - 1
    } else {
        last_space(t, j - 1)
    }
}

pub open spec fn has_prefix(t: Seq<char>, p: Seq<char>) -> bool {
    p.len() <= t.len() && t.take(p.len() as int) == p
}

/// The part of `t` before its last space (all of it when it has none).
pub open spec fn head_word(t: Seq<char>) -> Seq<char> {
    let i = last_space(t, t.len() as int);
    if i < 0 {
        t
    } else {
        t.take(i)
    }
}

/// The part of `t` after its last space (nothing when it has none).
pub open spec fn tail_word(t: Seq<char>) -> Seq<char> {
    let i = last_space(t, t.len() as int);
    if i < 0 {
        Seq::empty()
    } else {
        t.skip(i + 1)
    }
}

/// A non-empty run of digits whose value lies in `lo..=hi`.
pub open spec fn number_in(t: Seq<char>, lo: nat, hi: nat) -> bool {
    t.len() > 0 && all_digits(t) && lo <= digits_value(t) <= hi
}

/// The command named by a confirmed line (spaces around it do not count). Words
/// with an argument split at the last space, so a doubled space spoils the word.
pub open spec fn spec_parse_command(line: Seq<char>) -> Command {
    let t = trimmed(line);
    if t.len() == 0 {
        Command::Empty
    } else if t == "reset"@ {
        Command::Reset
    } else if t == "halt"@ {
        Command::Halt
    } else if t == "b"@ || t == "bkpt"@ || t == "breakpoint"@ {
        Command::Breakpoint
    } else if t == "b alt"@ || t == "bkpt alt"@ || t == "breakpoint alt"@ {
        Command::BreakpointAlt
    } else if t == "boot usb"@ || t == "usb boot"@ || t == "usb"@ {
        Command::BootUsb
    } else if t == "r"@ || t == "f5"@ || t == "refresh"@ || t == "reload"@ || t == "redraw"@ {
        Command::Redraw
    } else if has_prefix(t, "brt "@) || has_prefix(t, "brightness "@) {
        if (head_word(t) == "brt"@ || head_word(t) == "brightness"@) && number_in(
            tail_word(t),
            1,
            5,
        ) {
            Command::Brightness(digits_value(tail_word(t)) as u8)
        } else {
            Command::Invalid
        }
    } else if t == "c"@ || t == "cls"@ || t == "clear"@ {
        Command::Clear
    } else if t == "d"@ || t == "dup"@ || t == "duplicate"@ {
        Command::Duplicate
    } else if has_prefix(t, "drop "@) {
        if head_word(t) == "drop"@ && number_in(tail_word(t), 1, MAX_STACK_SIZE as nat) {
            Command::DropMany(digits_value(tail_word(t)) as usize)
        } else {
            Command::Invalid
        }
    } else if t == "drop"@ {
        Command::Drop
    } else if t == "s"@ || t == "swap"@ {
        Command::Swap
    } else {
        Command::Invalid
    }
}

/// The stack and the outcome after running `cmd` on `stack`.
pub open spec fn spec_run_command(cmd: Command, stack: Seq<DecimalFixed>) -> (
    Seq<DecimalFixed>,
    Outcome,
) {
    let n = stack.len() as int;
    match cmd {
        Command::Reset => (stack, Outcome::Reset),
        Command::Halt => (stack, Outcome::Halt),
        Command::Breakpoint => (stack, Outcome::Breakpoint),
        Command::BreakpointAlt => (stack, Outcome::BreakpointAlt),
        Command::BootUsb => (stack, Outcome::BootUsb),
        Command::Redraw => (stack, Outcome::Redraw),
        Command::Brightness(level) => (stack, Outcome::SetBrightness(level)),
        Command::Clear => if n == 0 {
            (stack, Outcome::Ignored)
        } else {
            (Seq::empty(), Outcome::StackChanged)
        },
        Command::Duplicate => if n == 0 {
            (stack, Outcome::Failed(CustomError::BadInput))
        } else if n >= MAX_STACK_SIZE {
            (stack, Outcome::Failed(CustomError::CapacityError))
        } else {
            (stack.push(stack.last()), Outcome::StackChanged)
        },
        Command::Drop => if n == 0 {
            (stack, Outcome::Failed(CustomError::BadInput))
        } else {
            (stack.drop_last(), Outcome::StackChanged)
        },
        Command::DropMany(count) => if count == 0 || count > n {
            (stack, Outcome::Failed(CustomError::BadInput))
        } else {
            (stack.take(n - count), Outcome::StackChanged)
        },
        Command::Swap => if n < 2 {
            (stack, Outcome::Failed(CustomError::BadInput))
        } else {
            (stack.take(n - 2).push(stack[n - 1]).push(stack[n - 2]), Outcome::StackChanged)
        },
        Command::Empty => (stack, Outcome::Cancelled),
        Command::Invalid => (stack, Outcome::Failed(CustomError::BadInput)),
    }
}

/// Whether `t[from..to]` spells `lit`.
fn range_is(t: &str, from: usize, to: usize, lit: &str) -> (r: bool)
    requires
        from <= to <= t@.len(),
    ensures
        r == (t@.subrange(from as int, to as int) == lit@),
{
    let m = lit.unicode_len();
    if to - from != m {
        return false;
    }
    let mut j: usize = 0;
    while j < m
        invariant
            m == lit@.len(),
            from + m == to,
            to <= t@.len(),
            j <= m,
            forall|k: int| 0 <= k < j ==> t@[from + k] == lit@[k],
        decreases m - j,
    {
        if t.get_char(from + j) != lit.get_char(j) {
            assert(t@.subrange(from as int, to as int)[j as int] != lit@[j as int]);
            return false;
        }
        j = j + 1;
    }
    assert(t@.subrange(from as int, to as int) =~= lit@);
    true
}

fn is_word(t: &str, lit: &str) -> (r: bool)
    ensures
        r == (t@ == lit@),
{
    let n = t.unicode_len();
    let r = range_is(t, 0, n, lit);
    assert(t@.subrange(0, n as int) =~= t@);
    r
}

fn starts_with_word(t: &str, lit: &str) -> (r: bool)
    ensures
        r == has_prefix(t@, lit@),
{
    let n = t.unicode_len();
    let m = lit.unicode_len();
    if m > n {
        return false;
    }
    let r = range_is(t, 0, m, lit);
    assert(t@.subrange(0, m as int) =~= t@.take(m as int));
    r
}

/// `s` with the spaces around it removed.
fn trim_spaces(s: &str) -> (r: &str)
    ensures
        r@ == trimmed(s@),
{
    let n = s.unicode_len();
    let mut a: usize = 0;
    while a < n && s.get_char(a) == ' '
        invariant
            n == s@.len(),
            a <= n,
            skip_spaces(s@, 0) == skip_spaces(s@, a as int),
        decreases n - a,
    {
        a = a + 1;
    }
    let mut b: usize = n;
    while a < b && s.get_char(b - 1) == ' '
        invariant
            n == s@.len(),
            a <= b <= n,
            skip_spaces(s@, 0) == a,
            back_spaces(s@, a as int, n as int) == back_spaces(s@, a as int, b as int),
        decreases b,
    {
        b = b - 1;
    }
    s.substring_char(a, b)
}

/// Index of the last space of `t`, if any.
fn find_last_space(t: &str) -> (r: Option<usize>)
    ensures
        r matches Some(i) ==> i < t@.len() && i as int == last_space(t@, t@.len() as int),
        r is None ==> last_space(t@, t@.len() as int) == -1,
{
    let n = t.unicode_len();
    let mut j: usize = n;
    while j > 0
        invariant
            n == t@.len(),
            j <= n,
            last_space(t@, n as int) == last_space(t@, j as int),
        decreases j,
    {
        if t.get_char(j - 1) == ' ' {
            return Some(j - 1);
        }
        j = j - 1;
    }
    None
}

/// For a command with one argument: whether the word before the last space is one of
/// `w1`, `w2`, and the number after it, when it is a run of digits in `lo..=hi`.
fn word_and_number(t: &str, w1: &str, w2: &str, lo: u128, hi: u128) -> (r: Option<u128>)
    requires
        hi <= u64::MAX,
    ensures
        r matches Some(v) ==> (head_word(t@) == w1@ || head_word(t@) == w2@) && number_in(
            tail_word(t@),
            lo as nat,
            hi as nat,
        ) && v == digits_value(tail_word(t@)),
        r is None ==> !((head_word(t@) == w1@ || head_word(t@) == w2@) && number_in(
            tail_word(t@),
            lo as nat,
            hi as nat,
        )),
{
    let n = t.unicode_len();
    let i = match find_last_space(t) {
        Some(i) => i,
        None => {
            return None;
        },
    };
    let head = t.substring_char(0, i);
    let tail = t.substring_char(i + 1, n);
    assert(head@ =~= head_word(t@));
    assert(tail@ =~= tail_word(t@));
    if !(is_word(head, w1) || is_word(head, w2)) {
        return None;
    }
    let m = tail.unicode_len();
    if m == 0 || !all_digits_in(tail, 0, m) {
        assert(tail@.subrange(0, m as int) =~= tail@);
        return None;
    }
    assert(tail@.subrange(0, m as int) =~= tail@);
    match read_digits(tail, 0, m, hi) {
        Some(v) => if v < lo {
            None
        } else {
            Some(v)
        },
        None => None,
    }
}

/// Reads the command named by a confirmed line.
pub fn parse_command(line: &str) -> (r: Command)
    ensures
        r == spec_parse_command(line@),
{
    let t = trim_spaces(line);
    let n = t.unicode_len();
    if n == 0 {
        return Command::Empty;
    }
    if is_word(t, "reset") {
        return Command::Reset;
    }
    if is_word(t, "halt") {
        return Command::Halt;
    }
    if is_word(t, "b") || is_word(t, "bkpt") || is_word(t, "breakpoint") {
        return Command::Breakpoint;
    }
    if is_word(t, "b alt") || is_word(t, "bkpt alt") || is_word(t, "breakpoint alt") {
        return Command::BreakpointAlt;
    }
    if is_word(t, "boot usb") || is_word(t, "usb boot") || is_word(t, "usb") {
        return Command::BootUsb;
    }
    if is_word(t, "r") || is_word(t, "f5") || is_word(t, "refresh") || is_word(t, "reload")
        || is_word(t, "redraw") {
        return Command::Redraw;
    }
    if starts_with_word(t, "brt ") || starts_with_word(t, "brightness ") {
        return match word_and_number(t, "brt", "brightness", 1, 5) {
            Some(v) => Command::Brightness(v as u8),
            None => Command::Invalid,
        };
    }
    if is_word(t, "c") || is_word(t, "cls") || is_word(t, "clear") {
        return Command::Clear;
    }
    if is_word(t, "d") || is_word(t, "dup") || is_word(t, "duplicate") {
        return Command::Duplicate;
    }
    if starts_with_word(t, "drop ") {
        return match word_and_number(t, "drop", "drop", 1, MAX_STACK_SIZE as u128) {
            Some(v) => Command::DropMany(v as usize),
            None => Command::Invalid,
        };
    }
    if is_word(t, "drop") {
        return Command::Drop;
    }
    if is_word(t, "s") || is_word(t, "swap") {
        return Command::Swap;
    }
    Command::Invalid
}

// ---------------------------------------------------------------------------
// The state machine

/// Exponent at which typed numbers are entered.
pub const ENTRY_EXPONENT: i8 = DEFAULT_EXPONENT;

#[derive(Debug, Clone, Copy, PartialEq, Eq, Structural)]
pub enum Mode {
    /// Numbers and operators (the initial mode).
    Entry,
    /// Whole-word commands.
    Command,
}

/// One decoded input event.
#[derive(Debug, Clone, Copy, PartialEq, Eq, Structural)]
pub enum Key {
    Char(char),
    Backspace,
    Enter,
    SignToggle,
    Redraw,
    CommandMode,
    Cancel,
}

pub open spec fn is_operator(c: char) -> bool {
    c == '+' || c == '-' || c == '*' || c == '/'
}

/// `a op b`, with the operand order left to right.
pub open spec fn spec_apply(op: char, a: DecimalFixed, b: DecimalFixed) -> Result<DecimalFixed, CustomError> {
    if op == '+' {
        DecimalFixed::spec_add(a, b)
    } else if op == '-' {
        DecimalFixed::spec_subtract(a, b)
    } else if op == '*' {
        DecimalFixed::spec_multiply(a, b)
    } else {
        DecimalFixed::spec_divide(a, b)
    }
}

/// Pushing the number typed on `line`: the new stack and whether a number was pushed.
/// An empty line, or a lone '-', pushes nothing.
pub open spec fn spec_commit(stack: Seq<DecimalFixed>, line: Seq<char>) -> Result<
    (Seq<DecimalFixed>, bool),
    CustomError,
> {
    if line.len() == 0 || line == seq!['-'] {
        Ok((stack, false))
    } else {
        match DecimalFixed::spec_parse_static(line, ENTRY_EXPONENT as int) {
            Err(e) => Err(e),
            Ok(d) => if stack.len() >= MAX_STACK_SIZE {
                Err(CustomError::CapacityError)
            } else {
                Ok((stack.push(d), true))
            },
        }
    }
}

/// The state as the stack, the input line and the mode.
pub open spec fn state_of(stack: Seq<DecimalFixed>, line: Seq<char>, mode: Mode) -> (
    Seq<DecimalFixed>,
    Seq<char>,
    Mode,
) {
    (stack, line, mode)
}

/// Replacing the line by `line`, when it fits in the byte budget.
pub open spec fn spec_set_line(st: (Seq<DecimalFixed>, Seq<char>, Mode), line: Seq<char>) -> (
    (Seq<DecimalFixed>, Seq<char>, Mode),
    Outcome,
) {
    if text_bytes(line) <= TEXT_BUFFER_SIZE {
        ((st.0, line, st.2), Outcome::LineChanged)
    } else {
        (st, Outcome::Failed(CustomError::CapacityError))
    }
}

/// A binary operator in entry mode: the typed number (if any) is pushed first, then
/// the two topmost elements are replaced by their result. With fewer than two, or
/// when the operation fails, the operands stay.
pub open spec fn spec_operator(st: (Seq<DecimalFixed>, Seq<char>, Mode), op: char) -> (
    (Seq<DecimalFixed>, Seq<char>, Mode),
    Outcome,
) {
    match spec_commit(st.0, st.1) {
        Err(e) => (st, Outcome::Failed(e)),
        Ok((s, pushed)) => {
            let line = if pushed {
                Seq::empty()
            } else {
                st.1
            };
            let n = s.len() as int;
            if n < 2 {
                ((s, line, st.2), Outcome::Failed(CustomError::BadInput))
            } else {
                match spec_apply(op, s[n - 2], s[n - 1]) {
                    Ok(v) => ((s.take(n - 2).push(v), line, st.2), Outcome::StackChanged),
                    Err(e) => ((s, line, st.2), Outcome::Failed(e)),
                }
            }
        },
    }
}

/// One event in entry mode.
pub open spec fn spec_entry_step(st: (Seq<DecimalFixed>, Seq<char>, Mode), key: Key) -> (
    (Seq<DecimalFixed>, Seq<char>, Mode),
    Outcome,
) {
    let stack = st.0;
    let line = st.1;
    match key {
        Key::Char(c) => if is_digit(c) {
            spec_set_line(st, line.push(c))
        } else if c == '.' || c == ',' {
            if line.len() == 0 {
                ((stack, seq!['0', '.'], st.2), Outcome::LineChanged)
            } else if line.contains('.') {
                (st, Outcome::Ignored)
            } else {
                spec_set_line(st, line.push('.'))
            }
        } else if is_operator(c) {
            spec_operator(st, c)
        } else {
            (st, Outcome::Ignored)
        },
        Key::SignToggle => if line.len() == 0 {
            ((stack, seq!['-'], st.2), Outcome::LineChanged)
        } else if line[0] == '-' {
            ((stack, line.drop_first(), st.2), Outcome::LineChanged)
        } else if line.contains('-') {
            (st, Outcome::Failed(CustomError::Impossible))
        } else {
            spec_set_line(st, seq!['-'] + line)
        },
        Key::Backspace => if line.len() == 0 {
            (st, Outcome::Ignored)
        } else {
            ((stack, line.drop_last(), st.2), Outcome::LineChanged)
        },
        Key::Enter => match spec_commit(stack, line) {
            Err(e) => (st, Outcome::Failed(e)),
            Ok((s, pushed)) => if pushed {
                ((s, Seq::empty(), st.2), Outcome::StackChanged)
            } else {
                (st, Outcome::Ignored)
            },
        },
        Key::Redraw => (st, Outcome::Redraw),
        Key::CommandMode => ((stack, Seq::empty(), Mode::Command), Outcome::CommandModeEntered),
        Key::Cancel => (st, Outcome::Ignored),
    }
}

/// Characters that command mode accepts, after folding to lower case.
pub open spec fn is_command_char(c: char) -> bool {
    ('a' <= c <= 'z') || ('0' <= c <= '9') || c == ' '
}

pub open spec fn spec_fold_char(c: char) -> char {
    if 'A' <= c <= 'Z' {
        ((c as u32) + 32) as char
    } else {
        c
    }
}

/// One event in command mode. A confirmed command that fails keeps command mode and
/// its text; any other outcome returns to entry mode with an empty line.
pub open spec fn spec_command_step(st: (Seq<DecimalFixed>, Seq<char>, Mode), key: Key) -> (
    (Seq<DecimalFixed>, Seq<char>, Mode),
    Outcome,
) {
    let stack = st.0;
    let line = st.1;
    match key {
        Key::Char(c) => if is_command_char(spec_fold_char(c)) {
            spec_set_line(st, line.push(spec_fold_char(c)))
        } else {
            (st, Outcome::Ignored)
        },
        Key::Backspace => if line.len() == 0 {
            (st, Outcome::Ignored)
        } else {
            ((stack, line.drop_last(), st.2), Outcome::LineChanged)
        },
        Key::Enter => {
            let (s, out) = spec_run_command(spec_parse_command(line), stack);
            if out is Failed {
                ((s, line, st.2), out)
            } else {
                ((s, Seq::empty(), Mode::Entry), out)
            }
        },
        Key::Cancel => ((stack, Seq::empty(), Mode::Entry), Outcome::Cancelled),
        Key::Redraw => (st, Outcome::Redraw),
        _ => (st, Outcome::Ignored),
    }
}

/// One event in either mode.
pub open spec fn spec_step(st: (Seq<DecimalFixed>, Seq<char>, Mode), key: Key) -> (
    (Seq<DecimalFixed>, Seq<char>, Mode),
    Outcome,
) {
    match st.2 {
        Mode::Entry => spec_entry_step(st, key),
        Mode::Command => spec_command_step(st, key),
    }
}

fn fold_char(c: char) -> (r: char)
    ensures
        r == spec_fold_char(c),
{
    if 'A' <= c && c <= 'Z' {
        ((c as u8) + 32u8) as char
    } else {
        c
    }
}

/// The calculator: a stack of decimals, the line being typed, and the input mode.
pub struct Calculator {
    stack: CustomStack<DecimalFixed>,
    line: CustomTextbox,
    mode: Mode,
}

impl View for Calculator {
    type V = (Seq<DecimalFixed>, Seq<char>, Mode);

    closed spec fn view(&self) -> (Seq<DecimalFixed>, Seq<char>, Mode) {
        (self.stack@, self.line@, self.mode)
    }
}

impl Calculator {
    pub open spec fn wf(&self) -> bool {
        self@.0.len() <= MAX_STACK_SIZE
    }

    /// Entry mode, an empty stack and an empty line.
    pub fn new() -> (r: Self)
        ensures
            r@ == state_of(Seq::empty(), Seq::empty(), Mode::Entry),
            r.wf(),
    {
        Calculator { stack: CustomStack::new(), line: CustomTextbox::new(), mode: Mode::Entry }
    }

    pub fn mode(&self) -> (r: Mode)
        ensures
            r == self@.2,
    {
        self.mode
    }

    /// The stack, for display.
    pub fn stack(&self) -> (r: &CustomStack<DecimalFixed>)
        ensures
            r@ == self@.0,
    {
        &self.stack
    }

    /// The input line, for display.
    pub fn textbox(&self) -> (r: &CustomTextbox)
        ensures
            r@ == self@.1,
    {
        &self.line
    }

    /// Handles one input event (see `spec_step`).
    pub fn handle_key(&mut self, key: Key) -> (r: Outcome)
        requires
            old(self).wf(),
        ensures
            final(self).wf(),
            (final(self)@, r) == spec_step(old(self)@, key),
    {
        match self.mode {
            Mode::Entry => self.entry_key(key),
            Mode::Command => self.command_key(key),
        }
    }

    fn set_line_push(&mut self, c: char) -> (r: Outcome)
        requires
            old(self).wf(),
        ensures
            final(self).wf(),
            (final(self)@, r) == spec_set_line(old(self)@, old(self)@.1.push(c)),
    {
        match self.line.append_char(c) {
            Ok(()) => Outcome::LineChanged,
            Err(e) => Outcome::Failed(e),
        }
    }

    fn backspace_one(&mut self) -> (r: Outcome)
        requires
            old(self).wf(),
        ensures
            final(self).wf(),
            old(self)@.1.len() == 0 ==> final(self)@ == old(self)@ && r == Outcome::Ignored,
            old(self)@.1.len() > 0 ==> final(self)@ == state_of(
                old(self)@.0,
                old(self)@.1.drop_last(),
                old(self)@.2,
            ) && r == Outcome::LineChanged,
    {
        if self.line.is_empty() {
            return Outcome::Ignored;
        }
        match self.line.backspace(1) {
            Ok(()) => {
                assert(old(self)@.1.take(old(self)@.1.len() - 1) =~= old(self)@.1.drop_last());
                Outcome::LineChanged
            },
            Err(_) => Outcome::Failed(CustomError::Impossible),
        }
    }

    /// Pushes the typed number, if any, leaving the line as it is.
    fn commit_line(&mut self) -> (r: Result<bool, CustomError>)
        requires
            old(self).wf(),
        ensures
            final(self).wf(),
            final(self)@.1 == old(self)@.1,
            final(self)@.2 == old(self)@.2,
            spec_commit(old(self)@.0, old(self)@.1) matches Ok((s, p)) ==> r == Ok::<
                bool,
                CustomError,
            >(p) && final(self)@.0 == s,
            spec_commit(old(self)@.0, old(self)@.1) matches Err(e) ==> r == Err::<
                bool,
                CustomError,
            >(e) && final(self)@.0 == old(self)@.0,
    {
        let text = self.line.get_text_str();
        let n = text.unicode_len();
        if n == 0 {
            return Ok(false);
        }
        if n == 1 && text.get_char(0) == '-' {
            assert(text@ =~= seq!['-']);
            return Ok(false);
        }
        assert(text@ != seq!['-']);
        match DecimalFixed::parse_static_exp(text, Some(ENTRY_EXPONENT)) {
            Err(e) => Err(e),
            Ok(d) => match self.stack.push(d) {
                Ok(()) => Ok(true),
                Err(_) => Err(CustomError::CapacityError),
            },
        }
    }

    fn apply_operator(&mut self, op: char) -> (r: Outcome)
        requires
            old(self).wf(),
            is_operator(op),
        ensures
            final(self).wf(),
            (final(self)@, r) == spec_operator(old(self)@, op),
    {
        let pushed = match self.commit_line() {
            Ok(p) => p,
            Err(e) => {
                return Outcome::Failed(e);
            },
        };
        if pushed {
            self.line.clear();
        }
        let ghost s = self.stack@;
        if self.stack.len() < 2 {
            return Outcome::Failed(CustomError::BadInput);
        }
        let b = match self.stack.pop() {
            Some(b) => b,
            None => {
                return Outcome::Failed(CustomError::Impossible);
            },
        };
        let a = match self.stack.pop() {
            Some(a) => a,
            None => {
                return Outcome::Failed(CustomError::Impossible);
            },
        };
        let res = if op == '+' {
            a.addition(b)
        } else if op == '-' {
            a.subtract(b)
        } else if op == '*' {
            a.multiply(b)
        } else {
            a.divide(b)
        };
        assert(s.drop_last().drop_last() =~= s.take(s.len() - 2));
        match res {
            Ok(v) => match self.stack.push(v) {
                Ok(()) => Outcome::StackChanged,
                Err(_) => Outcome::Failed(CustomError::Impossible),
            },
            Err(e) => {
                match self.stack.push(a) {
                    Ok(()) => {},
                    Err(_) => {
                        return Outcome::Failed(CustomError::Impossible);
                    },
                }
                match self.stack.push(b) {
                    Ok(()) => {},
                    Err(_) => {
                        return Outcome::Failed(CustomError::Impossible);
                    },
                }
                assert(self.stack@ =~= s);
                Outcome::Failed(e)
            },
        }
    }

    fn toggle_sign(&mut self) -> (r: Outcome)
        requires
            old(self).wf(),
        ensures
            final(self).wf(),
            (final(self)@, r) == spec_entry_step(old(self)@, Key::SignToggle),
    {
        if self.line.is_empty() {
            assert(self@.1 =~= Seq::<char>::empty());
            let r = self.set_line_push('-');
            proof {
                assert(Seq::<char>::empty().push('-') =~= seq!['-']);
                vstd::utf8::is_ascii_chars_encode_utf8(seq!['-']);
            }
            return r;
        }
        if self.line.starts_with('-') {
            let ghost l = self@.1;
            proof {
                assert(l.take(0) =~= Seq::<char>::empty());
                assert(encode_utf8(Seq::<char>::empty()) =~= Seq::<u8>::empty());
                assert(crate::textbox::prefix_bytes(l, 0) == 0);
            }
            return match self.line.remove_at(0) {
                Ok(_) => {
                    assert(l.remove(0) =~= l.drop_first());
                    Outcome::LineChanged
                },
                Err(e) => Outcome::Failed(e),
            };
        }
        if self.line.contains('-') {
            return Outcome::Failed(CustomError::Impossible);
        }
        let ghost l = self@.1;
        proof {
            assert(l.take(0) =~= Seq::<char>::empty());
            assert(encode_utf8(Seq::<char>::empty()) =~= Seq::<u8>::empty());
            assert(crate::textbox::prefix_bytes(l, 0) == 0);
            lemma_encode_concat(seq!['-'], l);
            lemma_encode_concat(l, seq!['-']);
            assert(l.push('-') =~= l + seq!['-']);
            assert(l.take(0).push('-') + l.skip(0) =~= seq!['-'] + l);
        }
        match self.line.insert_at(0, '-') {
            Ok(()) => Outcome::LineChanged,
            Err(e) => Outcome::Failed(e),
        }
    }

    fn entry_key(&mut self, key: Key) -> (r: Outcome)
        requires
            old(self).wf(),
            old(self)@.2 == Mode::Entry,
        ensures
            final(self).wf(),
            (final(self)@, r) == spec_entry_step(old(self)@, key),
    {
        match key {
            Key::Char(c) => {
                if '0' <= c && c <= '9' {
                    self.set_line_push(c)
                } else if c == '.' || c == ',' {
                    if self.line.is_empty() {
                        proof {
                            reveal_strlit("0.");
                            vstd::utf8::is_ascii_chars_encode_utf8(seq!['0', '.']);
                            assert(Seq::<char>::empty() + "0."@ =~= seq!['0', '.']);
                        }
                        match self.line.append_str("0.") {
                            Ok(()) => Outcome::LineChanged,
                            Err(e) => Outcome::Failed(e),
                        }
                    } else if self.line.contains('.') {
                        Outcome::Ignored
                    } else {
                        self.set_line_push('.')
                    }
                } else if c == '+' || c == '-' || c == '*' || c == '/' {
                    self.apply_operator(c)
                } else {
                    Outcome::Ignored
                }
            },
            Key::SignToggle => self.toggle_sign(),
            Key::Backspace => self.backspace_one(),
            Key::Enter => match self.commit_line() {
                Err(e) => Outcome::Failed(e),
                Ok(pushed) => {
                    if pushed {
                        self.line.clear();
                        Outcome::StackChanged
                    } else {
                        Outcome::Ignored
                    }
                },
            },
            Key::Redraw => Outcome::Redraw,
            Key::CommandMode => {
                self.line.clear();
                self.mode = Mode::Command;
                Outcome::CommandModeEntered
            },
            Key::Cancel => Outcome::Ignored,
        }
    }

    fn command_key(&mut self, key: Key) -> (r: Outcome)
        requires
            old(self).wf(),
            old(self)@.2 == Mode::Command,
        ensures
            final(self).wf(),
            (final(self)@, r) == spec_command_step(old(self)@, key),
    {
        match key {
            Key::Char(c) => {
                let f = fold_char(c);
                if ('a' <= f && f <= 'z') || ('0' <= f && f <= '9') || f == ' ' {
                    self.set_line_push(f)
                } else {
                    Outcome::Ignored
                }
            },
            Key::Backspace => self.backspace_one(),
            Key::Enter => {
                let cmd = parse_command(self.line.get_text_str());
                let out = self.run_command(cmd);
                match out {
                    Outcome::Failed(_) => out,
                    _ => {
                        self.line.clear();
                        self.mode = Mode::Entry;
                        out
                    },
                }
            },
            Key::Cancel => {
                self.line.clear();
                self.mode = Mode::Entry;
                Outcome::Cancelled
            },
            Key::Redraw => Outcome::Redraw,
            _ => Outcome::Ignored,
        }
    }

    /// Runs a command on the stack (see `spec_run_command`); the line and mode stay.
    pub fn run_command(&mut self, cmd: Command) -> (r: Outcome)
        requires
            old(self).wf(),
        ensures
            final(self).wf(),
            final(self)@.1 == old(self)@.1,
            final(self)@.2 == old(self)@.2,
            (final(self)@.0, r) == spec_run_command(cmd, old(self)@.0),
    {
        let ghost s = self.stack@;
        match cmd {
            Command::Reset => Outcome::Reset,
            Command::Halt => Outcome::Halt,
            Command::Breakpoint => Outcome::Breakpoint,
            Command::BreakpointAlt => Outcome::BreakpointAlt,
            Command::BootUsb => Outcome::BootUsb,
            Command::Redraw => Outcome::Redraw,
            Command::Brightness(level) => Outcome::SetBrightness(level),
            Command::Clear => {
                if self.stack.is_empty() {
                    Outcome::Ignored
                } else {
                    self.stack.clear();
                    Outcome::StackChanged
                }
            },
            Command::Duplicate => {
                let top = match self.stack.peek() {
                    Some(t) => *t,
                    None => {
                        return Outcome::Failed(CustomError::BadInput);
                    },
                };
                match self.stack.push(top) {
                    Ok(()) => Outcome::StackChanged,
                    Err(_) => Outcome::Failed(CustomError::CapacityError),
                }
            },
            Command::Drop => match self.stack.pop() {
                Some(_) => Outcome::StackChanged,
                None => Outcome::Failed(CustomError::BadInput),
            },
            Command::DropMany(count) => {
                if count == 0 || count > self.stack.len() {
                    Outcome::Failed(CustomError::BadInput)
                } else {
                    let _ = self.stack.multipop(count);
                    assert(s.subrange(0, s.len() - count as int) =~= s.take(s.len() - count as int));
                    Outcome::StackChanged
                }
            },
            Command::Swap => {
                let ob = self.stack.pop();
                let oa = self.stack.pop();
                match (oa, ob) {
                    (Some(a), Some(b)) => {
                        match self.stack.push(b) {
                            Ok(()) => {},
                            Err(_) => {
                                return Outcome::Failed(CustomError::Impossible);
                            },
                        }
                        match self.stack.push(a) {
                            Ok(()) => {},
                            Err(_) => {
                                return Outcome::Failed(CustomError::Impossible);
                            },
                        }
                        assert(s.drop_last().drop_last() =~= s.take(s.len() - 2));
                        Outcome::StackChanged
                    },
                    (None, Some(b)) => {
                        match self.stack.push(b) {
                            Ok(()) => {},
                            Err(_) => {
                                return Outcome::Failed(CustomError::Impossible);
                            },
                        }
                        assert(self.stack@ =~= s);
                        Outcome::Failed(CustomError::BadInput)
                    },
                    (None, None) => Outcome::Failed(CustomError::BadInput),
                    (Some(_), None) => Outcome::Failed(CustomError::Impossible),
                }
            },
            Command::Empty => Outcome::Cancelled,
            Command::Invalid => Outcome::Failed(CustomError::BadInput),
        }
    }
}

} // verus!
