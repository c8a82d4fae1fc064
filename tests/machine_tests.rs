use lexxon::lexxon::Lexxon;
use lexxon::machine::Token;
use lexxon::tokenizer::LexError;

const MASK: i32 = 0x7FFF_FFFF;

fn session(melody: &str) -> Lexxon {
    Lexxon::parse(melody.to_string(), &[]).expect("melody parses")
}

fn first_value(melody: &str) -> i32 {
    session(melody).compute(0)
}

fn texts(line: &str) -> Vec<String> {
    let lex = Lexxon::new(String::new());
    lex.tokenize(&[line.to_string()], &[]).expect("line tokenizes")
}

#[test]
fn tokenizer_fuses_hex_runs() {
    assert_eq!(texts("13880fa400he"), vec!["13880", "f", "a", "400", "h", "e"]);
}

#[test]
fn pad_produces_no_token() {
    assert_eq!(texts("a...b"), vec!["a", "b"]);
}

#[test]
fn pad_ends_a_number_run() {
    assert_eq!(texts("12.34"), vec!["12", "34"]);
}

#[test]
fn digit_after_opcode_starts_new_number() {
    assert_eq!(texts("1a2"), vec!["1", "a", "2"]);
}

#[test]
fn number_runs_do_not_cross_lines() {
    let lex = Lexxon::new(String::new());
    let lines = vec!["12".to_string(), "34".to_string()];
    assert_eq!(lex.tokenize(&lines, &[]).unwrap(), vec!["12", "34"]);
}

#[test]
fn muted_line_yields_no_tokens() {
    let lex = Lexxon::new(String::new());
    let lines = vec!["1a".to_string(), "2b".to_string(), "3c".to_string()];
    assert_eq!(lex.tokenize(&lines, &[1]).unwrap(), vec!["1", "a", "3", "c"]);
}

#[test]
fn divide_by_zero_emits_zero() {
    let mut lex = session("!a0e");
    for t in 0..600 {
        assert_eq!(lex.sample(t), 0);
    }
}

#[test]
fn add_two_wraps_byte() {
    let mut lex = session("!a2f");
    for t in 0..256 {
        assert_eq!(lex.sample(t) as i32, (t + 2) % 256);
    }
    let mut again = session("!a2f");
    assert_eq!(again.sample(254), 0);
    assert_eq!(again.sample(255), 1);
}

#[test]
fn time_byte_round_trip() {
    let mut lex = session("!a");
    let mut expected: u8 = 0;
    for t in 0..600 {
        assert_eq!(lex.sample(t), expected);
        expected = expected.wrapping_add(1);
    }
}

#[test]
fn ring_keeps_256_registers() {
    let mut lex = session("w3_forever!a13880fa400he!a3kma2kn30g!aCk28!a12k1ld!2fladm!43n");
    assert_eq!(lex.stack.len(), 256);
    for t in 0..1000 {
        lex.compute(t);
        assert_eq!(lex.stack.len(), 256);
    }
}

#[test]
fn tick_is_deterministic() {
    let melody = "!a3kma2kn30g!aCk28!a12k1ld";
    let mut a = session(melody);
    let mut b = session(melody);
    for t in 0..50 {
        a.compute(t);
        b.compute(t);
    }
    let ra = a.compute(77);
    let rb = b.compute(77);
    assert_eq!(ra, rb);
    for i in 0..256 {
        assert_eq!(a.stack.get(i), b.stack.get(i));
    }
}

#[test]
fn ring_persists_between_ticks() {
    let mut lex = session("!1f");
    assert_eq!(lex.compute(0), 1);
    assert_eq!(lex.compute(1), 2);
    assert_eq!(lex.compute(2), 3);
}

#[test]
fn time_is_masked() {
    assert_eq!(session("!a").compute(-1), MASK);
    assert_eq!(session("!a").compute(i32::MIN), 0);
}

#[test]
fn sample_is_low_byte() {
    assert_eq!(session("!1FF").sample(0), 0xFF);
    assert_eq!(session("!1234").sample(0), 0x34);
}

#[test]
fn literal_pushes_value() {
    assert_eq!(first_value("!13880"), 0x13880);
    assert_eq!(first_value("!7FFFFFFF"), MASK);
}

#[test]
fn multiply() {
    assert_eq!(first_value("!3.5d"), 15);
    assert_eq!(first_value("!7FFFFFFF.2d"), 0x7FFF_FFFE);
}

#[test]
fn divide() {
    assert_eq!(first_value("!7.2e"), 3);
    assert_eq!(first_value("!7.0e"), 0);
}

#[test]
fn add_wraps() {
    assert_eq!(first_value("!3.4f"), 7);
    assert_eq!(first_value("!7FFFFFFF.1f"), 0);
}

#[test]
fn subtract_wraps() {
    assert_eq!(first_value("!5.3g"), 2);
    assert_eq!(first_value("!1.2g"), MASK);
}

#[test]
fn modulo() {
    assert_eq!(first_value("!7.3h"), 1);
    assert_eq!(first_value("!7.0h"), 0);
}

#[test]
fn shift_left() {
    assert_eq!(first_value("!1.4j"), 16);
    assert_eq!(first_value("!1.1Ej"), 0x4000_0000);
    assert_eq!(first_value("!1.1Fj"), 0);
    assert_eq!(first_value("!3.1Ej"), 0x4000_0000);
    assert_eq!(first_value("!1.20j"), 0);
}

#[test]
fn shift_right() {
    assert_eq!(first_value("!100.4k"), 0x10);
    assert_eq!(first_value("!7FFFFFFF.1Fk"), 0);
    assert_eq!(first_value("!100.20k"), 0);
}

#[test]
fn bitwise_and_or_xor() {
    assert_eq!(first_value("!C.Al"), 8);
    assert_eq!(first_value("!C.Am"), 14);
    assert_eq!(first_value("!C.An"), 6);
}

#[test]
fn not_in_place() {
    let mut lex = session("!5.0o");
    assert_eq!(lex.compute(0), MASK);
    assert_eq!(lex.stack.get(254), 5);
    assert_eq!(first_value("!7FFFFFFFo"), 0);
}

#[test]
fn duplicate() {
    let mut lex = session("!5p");
    assert_eq!(lex.compute(0), 5);
    assert_eq!(lex.stack.get(254), 5);
    assert_eq!(first_value("!5pf"), 10);
}

#[test]
fn pick() {
    assert_eq!(first_value("!7.0q"), 7);
    assert_eq!(first_value("!FFq"), 0xFF);
    assert_eq!(first_value("!9.8.1q"), 9);
}

#[test]
fn put() {
    // `!9.8.1b`: stores 8 one register under the back, where 8 already is.
    let mut lex = session("!9.8.1b");
    assert_eq!(lex.compute(0), 8);
    assert_eq!(lex.stack.get(254), 9);
    assert_eq!(lex.stack.get(0), 1);
    // `!9.8.0b`: stores 8 at the back, over the operand, which then wraps to the front.
    let mut at_back = session("!9.8.0b");
    assert_eq!(at_back.compute(0), 8);
    assert_eq!(at_back.stack.get(254), 9);
    assert_eq!(at_back.stack.get(0), 8);
    // `!9.8.7.2b`: stores 7 two registers under the back, over the 8.
    let mut deeper = session("!9.8.7.2b");
    assert_eq!(deeper.compute(0), 7);
    assert_eq!(deeper.stack.get(254), 7);
    assert_eq!(deeper.stack.get(253), 9);
    assert_eq!(deeper.stack.get(0), 2);
}

#[test]
fn put_index_wraps_modulo_256() {
    // 0x101 is 1 modulo 256, so it stores where `1` does.
    let mut lex = session("!9.8.101b");
    assert_eq!(lex.compute(0), 8);
    assert_eq!(lex.stack.get(254), 9);
}

#[test]
fn opcode_outside_table_is_no_op_at_run_time() {
    let mut lex = session("!5");
    lex.tokens.push(Token::Opcode('v'));
    lex.tokens.push(Token::Opcode('#'));
    assert_eq!(lex.compute(0), 5);
    assert_eq!(lex.stack.get(254), 0);
}

#[test]
fn swap() {
    let mut lex = session("!1.2r");
    assert_eq!(lex.compute(0), 1);
    assert_eq!(lex.stack.get(254), 2);
    assert_eq!(first_value("!1.2rg"), 1);
}

#[test]
fn drop_top() {
    let mut lex = session("!1.2c");
    assert_eq!(lex.compute(0), 1);
    assert_eq!(lex.stack.get(0), 2);
}

#[test]
fn comparisons() {
    assert_eq!(first_value("!1.2s"), MASK);
    assert_eq!(first_value("!2.1s"), 0);
    assert_eq!(first_value("!2.1t"), MASK);
    assert_eq!(first_value("!1.2t"), 0);
    assert_eq!(first_value("!3.3u"), MASK);
    assert_eq!(first_value("!3.4u"), 0);
}

#[test]
fn binary_operator_consumes_two() {
    let mut lex = session("!1.2.3f");
    assert_eq!(lex.compute(0), 5);
    assert_eq!(lex.stack.get(254), 1);
    assert_eq!(lex.stack.get(0), 2);
}

#[test]
fn reserved_opcode_is_no_op() {
    assert_eq!(first_value("!5G"), 5);
    assert_eq!(first_value("!5i"), 5);
}

#[test]
fn long_line_is_rejected() {
    let r = Lexxon::parse("!aaaaaaaaaaaaaaaaa".to_string(), &[]);
    assert_eq!(r.err(), Some(LexError::LineTooLong(0)));
    let r = Lexxon::parse("!a!bbbbbbbbbbbbbbbbb".to_string(), &[]);
    assert_eq!(r.err(), Some(LexError::LineTooLong(1)));
    assert!(Lexxon::parse("!aaaaaaaaaaaaaaaa".to_string(), &[]).is_ok());
}

#[test]
fn long_muted_line_is_still_rejected() {
    let r = Lexxon::parse("!a!bbbbbbbbbbbbbbbbb".to_string(), &[1]);
    assert_eq!(r.err(), Some(LexError::LineTooLong(1)));
}

#[test]
fn long_title_is_accepted() {
    assert!(Lexxon::parse("a very long title indeed!a".to_string(), &[]).is_ok());
}

#[test]
fn number_too_large_is_rejected() {
    let r = Lexxon::parse("!80000000".to_string(), &[]);
    assert_eq!(r.err(), Some(LexError::NumberOutOfRange));
    let r = Lexxon::parse("!FFFFFFFFFFFFFFFF".to_string(), &[]);
    assert_eq!(r.err(), Some(LexError::NumberOutOfRange));
}

#[test]
fn unknown_symbol_is_rejected() {
    let r = Lexxon::parse("!a#".to_string(), &[]);
    assert_eq!(r.err(), Some(LexError::InvalidToken));
    let r = Lexxon::parse("!v".to_string(), &[]);
    assert_eq!(r.err(), Some(LexError::InvalidToken));
}

#[test]
fn program_tokens_of_example() {
    let lex = session("w3_forever!a13880fa400he!aCk28");
    let expected = vec![
        Token::Opcode('a'),
        Token::Number(0x13880),
        Token::Opcode('f'),
        Token::Opcode('a'),
        Token::Number(0x400),
        Token::Opcode('h'),
        Token::Opcode('e'),
        Token::Opcode('a'),
        Token::Number(0xC),
        Token::Opcode('k'),
        Token::Number(0x28),
    ];
    assert_eq!(lex.tokens, expected);
}

#[test]
fn muting_a_program_line() {
    let lex = Lexxon::parse("!1!2".to_string(), &[1]).unwrap();
    assert_eq!(lex.tokens, vec![Token::Number(1)]);
    let lex = Lexxon::parse("!1!2".to_string(), &[0]).unwrap();
    assert_eq!(lex.tokens, vec![Token::Number(2)]);
}

#[test]
fn title_taken_from_first_segment() {
    let lex = session("w3_forever!a");
    assert_eq!(lex.title, Some("w3_forever".to_string()));
    let lex = session("!a");
    assert_eq!(lex.title, None);
}

#[test]
fn new_splits_on_bang() {
    let lex = Lexxon::new("t!a1!!b".to_string());
    assert_eq!(lex.lines, vec!["t", "a1", "", "b"]);
    assert_eq!(lex.title, None);
    assert!(lex.tokens.is_empty());
    assert_eq!(Lexxon::new(String::new()).lines, vec![""]);
}

#[test]
fn step_by_step_session() {
    let mut lex = Lexxon::new("song!a2f".to_string());
    lex.get_title();
    assert_eq!(lex.get_tokens(&[]), Ok(()));
    lex.reset_stack();
    assert_eq!(lex.title, Some("song".to_string()));
    assert_eq!(lex.compute(10), 12);
}

#[test]
fn failed_get_tokens_keeps_program() {
    let mut lex = Lexxon::new("!a".to_string());
    assert_eq!(lex.get_tokens(&[]), Ok(()));
    lex.lines.push("#".to_string());
    assert_eq!(lex.get_tokens(&[]), Err(LexError::InvalidToken));
    assert_eq!(lex.tokens, vec![Token::Opcode('a')]);
}

#[test]
fn reset_zeroes_ring() {
    let mut lex = session("!5");
    lex.compute(0);
    assert_eq!(lex.stack.get(255), 5);
    lex.reset_stack();
    for i in 0..256 {
        assert_eq!(lex.stack.get(i), 0);
    }
}

#[test]
fn repr_strips_pads_and_trailing_segments() {
    let mut lex = Lexxon::new("w3!a1..!b...!!".to_string());
    lex.get_title();
    assert_eq!(lex.repr(), "w3!a1!b");
    let mut untitled = Lexxon::new("!a1..!..".to_string());
    untitled.get_title();
    assert_eq!(untitled.repr(), "!!a1");
}

#[test]
fn expand_pads_to_sixteen() {
    let mut lex = Lexxon::new("t!ab!0123456789ABCDEFGHIJ".to_string());
    lex.expand();
    assert_eq!(lex.lines.len(), 17);
    assert_eq!(lex.lines[0], "t...............");
    assert_eq!(lex.lines[1], "ab..............");
    assert_eq!(lex.lines[2], "0123456789ABCDEF");
    for i in 3..17 {
        assert_eq!(lex.lines[i], "................");
    }
}
