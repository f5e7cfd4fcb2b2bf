use rpn_calc::{
    parse_command, Calculator, Command, CustomError, DecimalFixed, Key, KeyDecoder, Mode, Outcome,
};

fn type_text(c: &mut Calculator, text: &str) {
    for ch in text.chars() {
        c.handle_key(Key::Char(ch));
    }
}

fn enter_number(c: &mut Calculator, text: &str) {
    type_text(c, text);
    assert_eq!(c.handle_key(Key::Enter), Outcome::StackChanged);
}

fn stack_values(c: &Calculator) -> Vec<DecimalFixed> {
    c.stack().peek_all().to_vec()
}

fn num(i: i64) -> DecimalFixed {
    DecimalFixed::new(i, None).unwrap()
}

#[test]
fn minus_subtracts_top_from_next() {
    let mut c = Calculator::new();
    enter_number(&mut c, "5");
    enter_number(&mut c, "6");
    assert_eq!(c.handle_key(Key::Char('-')), Outcome::StackChanged);
    assert_eq!(stack_values(&c), vec![num(-1)]);
    assert_eq!(c.stack().peek().unwrap().format(), "-1");
}

#[test]
fn operator_pushes_typed_number_first() {
    let mut c = Calculator::new();
    enter_number(&mut c, "2.5");
    type_text(&mut c, "4");
    assert_eq!(c.handle_key(Key::Char('*')), Outcome::StackChanged);
    assert_eq!(stack_values(&c), vec![num(10)]);
    assert_eq!(c.textbox().get_text_str(), "");
}

#[test]
fn operator_with_one_operand_keeps_it() {
    let mut c = Calculator::new();
    enter_number(&mut c, "3");
    assert_eq!(c.handle_key(Key::Char('+')), Outcome::Failed(CustomError::BadInput));
    assert_eq!(stack_values(&c), vec![num(3)]);
}

#[test]
fn division_by_zero_keeps_operands() {
    let mut c = Calculator::new();
    enter_number(&mut c, "5");
    enter_number(&mut c, "0");
    assert_eq!(c.handle_key(Key::Char('/')), Outcome::Failed(CustomError::BadInput));
    assert_eq!(stack_values(&c), vec![num(5), num(0)]);
}

#[test]
fn sign_toggle_flips_leading_minus() {
    let mut c = Calculator::new();
    assert_eq!(c.handle_key(Key::SignToggle), Outcome::LineChanged);
    type_text(&mut c, "5");
    assert_eq!(c.textbox().get_text_str(), "-5");
    assert_eq!(c.handle_key(Key::SignToggle), Outcome::LineChanged);
    assert_eq!(c.textbox().get_text_str(), "5");
    assert_eq!(c.handle_key(Key::SignToggle), Outcome::LineChanged);
    assert_eq!(c.textbox().get_text_str(), "-5");
}

#[test]
fn decimal_point_rules() {
    let mut c = Calculator::new();
    assert_eq!(c.handle_key(Key::Char(',')), Outcome::LineChanged);
    assert_eq!(c.textbox().get_text_str(), "0.");
    assert_eq!(c.handle_key(Key::Char('.')), Outcome::Ignored);
    type_text(&mut c, "25");
    assert_eq!(c.handle_key(Key::Enter), Outcome::StackChanged);
    assert_eq!(stack_values(&c), vec![DecimalFixed::new_prescaled(250_000_000, -9)]);
}

#[test]
fn enter_on_empty_or_lone_minus_does_nothing() {
    let mut c = Calculator::new();
    assert_eq!(c.handle_key(Key::Enter), Outcome::Ignored);
    c.handle_key(Key::SignToggle);
    assert_eq!(c.handle_key(Key::Enter), Outcome::Ignored);
    assert!(c.stack().is_empty());
    assert_eq!(c.handle_key(Key::Backspace), Outcome::LineChanged);
    assert_eq!(c.handle_key(Key::Backspace), Outcome::Ignored);
}

#[test]
fn overflowing_entry_is_recoverable() {
    let mut c = Calculator::new();
    type_text(&mut c, "99999999999");
    let out = c.handle_key(Key::Enter);
    assert_eq!(out, Outcome::Failed(CustomError::MathOverflow));
    assert!(CustomError::MathOverflow.is_recoverable());
    assert!(c.stack().is_empty());
    assert_eq!(c.textbox().get_text_str(), "99999999999");
}

fn run(c: &mut Calculator, command: &str) -> Outcome {
    assert_eq!(c.handle_key(Key::CommandMode), Outcome::CommandModeEntered);
    assert_eq!(c.mode(), Mode::Command);
    type_text(c, command);
    c.handle_key(Key::Enter)
}

#[test]
fn drop_more_than_stack_is_bad_input() {
    let mut c = Calculator::new();
    enter_number(&mut c, "1");
    enter_number(&mut c, "2");
    assert_eq!(run(&mut c, "drop 3"), Outcome::Failed(CustomError::BadInput));
    assert_eq!(stack_values(&c), vec![num(1), num(2)]);
    assert_eq!(c.mode(), Mode::Command);
    assert_eq!(c.handle_key(Key::Cancel), Outcome::Cancelled);
    assert_eq!(c.mode(), Mode::Entry);
    assert_eq!(run(&mut c, "drop 2"), Outcome::StackChanged);
    assert!(c.stack().is_empty());
    assert_eq!(c.mode(), Mode::Entry);
}

#[test]
fn swap_with_one_element_is_bad_input() {
    let mut c = Calculator::new();
    enter_number(&mut c, "7");
    assert_eq!(run(&mut c, "swap"), Outcome::Failed(CustomError::BadInput));
    assert_eq!(stack_values(&c), vec![num(7)]);
}

#[test]
fn swap_duplicate_drop_clear() {
    let mut c = Calculator::new();
    enter_number(&mut c, "1");
    enter_number(&mut c, "2");
    assert_eq!(run(&mut c, "s"), Outcome::StackChanged);
    assert_eq!(stack_values(&c), vec![num(2), num(1)]);
    assert_eq!(run(&mut c, "dup"), Outcome::StackChanged);
    assert_eq!(stack_values(&c), vec![num(2), num(1), num(1)]);
    assert_eq!(run(&mut c, "drop"), Outcome::StackChanged);
    assert_eq!(stack_values(&c), vec![num(2), num(1)]);
    assert_eq!(run(&mut c, "CLS"), Outcome::StackChanged);
    assert!(c.stack().is_empty());
    assert_eq!(run(&mut c, "clear"), Outcome::Ignored);
    assert_eq!(run(&mut c, "d"), Outcome::Failed(CustomError::BadInput));
}

#[test]
fn command_actions() {
    let mut c = Calculator::new();
    assert_eq!(run(&mut c, "brt 3"), Outcome::SetBrightness(3));
    assert_eq!(run(&mut c, "reset"), Outcome::Reset);
    assert_eq!(run(&mut c, "f5"), Outcome::Redraw);
    assert_eq!(run(&mut c, ""), Outcome::Cancelled);
    assert_eq!(c.mode(), Mode::Entry);
}

#[test]
fn parse_commands() {
    assert_eq!(parse_command("  reset "), Command::Reset);
    assert_eq!(parse_command("halt"), Command::Halt);
    assert_eq!(parse_command("bkpt"), Command::Breakpoint);
    assert_eq!(parse_command("b alt"), Command::BreakpointAlt);
    assert_eq!(parse_command("usb boot"), Command::BootUsb);
    assert_eq!(parse_command("reload"), Command::Redraw);
    assert_eq!(parse_command("brightness 5"), Command::Brightness(5));
    assert_eq!(parse_command("brt 1"), Command::Brightness(1));
    assert_eq!(parse_command("brt  3"), Command::Invalid);
    assert_eq!(parse_command("brt 6"), Command::Invalid);
    assert_eq!(parse_command("brt x"), Command::Invalid);
    assert_eq!(parse_command("duplicate"), Command::Duplicate);
    assert_eq!(parse_command("drop 2"), Command::DropMany(2));
    assert_eq!(parse_command("drop 0"), Command::Invalid);
    assert_eq!(parse_command("drop 999"), Command::Invalid);
    assert_eq!(parse_command("drop"), Command::Drop);
    assert_eq!(parse_command("swap"), Command::Swap);
    assert_eq!(parse_command("   "), Command::Empty);
    assert_eq!(parse_command("frobnicate"), Command::Invalid);
}

#[test]
fn decoder_bytes_and_escapes() {
    let mut k = KeyDecoder::new();
    assert_eq!(k.feed(b'7'), Some(Key::Char('7')));
    assert_eq!(k.feed(0x03), Some(Key::Cancel));
    assert_eq!(k.feed(b'\r'), Some(Key::Enter));
    assert_eq!(k.feed(0x7f), Some(Key::Backspace));
    assert_eq!(k.feed(0x12), Some(Key::Redraw));
    assert_eq!(k.feed(b'_'), Some(Key::SignToggle));
    assert_eq!(k.feed(b':'), Some(Key::CommandMode));
    assert_eq!(k.feed(0xc3), None);
    for b in [0x1b, b'[', b'1', b'5'] {
        assert_eq!(k.feed(b), None);
    }
    assert_eq!(k.feed(b'~'), Some(Key::Redraw));
    for b in [0x1b, b'[', b'3'] {
        assert_eq!(k.feed(b), None);
    }
    assert_eq!(k.feed(b'~'), Some(Key::Backspace));
    assert_eq!(k.feed(0x1b), None);
    assert_eq!(k.feed(b'x'), None);
    assert_eq!(k.feed(b'a'), Some(Key::Char('a')));
}
