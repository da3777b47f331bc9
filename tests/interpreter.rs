use whitespace_vm::decimal::{parse_decimal, trimmed_len};
use whitespace_vm::frame::CallFrame;
use whitespace_vm::label_map::LabelMap;
use whitespace_vm::parse_error::{ErrorKind, InstType, ParseError};
use whitespace_vm::parser::Parser;
use whitespace_vm::program::{Instruction, Program};
use whitespace_vm::token::{Token, Tokens};
use whitespace_vm::vm::{Request, Vm};
use whitespace_vm::vm_error::{RuntimeError, TraceEntry, Traceback};

/// Source text from a notation where `S`, `T` and `L` stand for space, tab
/// and line feed; every other character is left out.
fn ws(notation: &str) -> String {
    notation
        .chars()
        .filter_map(|c| match c {
            'S' => Some(' '),
            'T' => Some('\t'),
            'L' => Some('\n'),
            _ => None,
        })
        .collect()
}

fn parse(notation: &str) -> Result<Program, ParseError> {
    Parser::new(&ws(notation)).parse()
}

/// Runs a parsed program to the end on the given input and returns what it
/// wrote and how it ended.
fn run_program(program: &Program, input: &[u8]) -> (String, Result<(), Traceback>) {
    let mut vm = Vm::new(program);
    let mut out = Vec::new();
    let mut pos = 0usize;
    loop {
        let req = match vm.step() {
            Ok(r) => r,
            Err(tb) => return (String::from_utf8(out).unwrap(), Err(tb)),
        };
        let done = match req {
            Request::Nothing => Ok(()),
            Request::Halt => return (String::from_utf8(out).unwrap(), Ok(())),
            Request::WriteChar(b) => {
                out.push(b);
                vm.finish_output(true)
            }
            Request::WriteNum(n) => {
                out.extend(n.to_string().bytes());
                vm.finish_output(true)
            }
            Request::ReadChar => {
                let b = input.get(pos).copied();
                pos += 1;
                vm.finish_read_char(b)
            }
            Request::ReadNum => {
                let rest = &input[pos.min(input.len())..];
                let end = rest.iter().position(|b| *b == b'\n').map(|i| i + 1).unwrap_or(rest.len());
                pos += end;
                let line = String::from_utf8(rest[..end].to_vec()).unwrap();
                vm.finish_read_num(Some(&line))
            }
        };
        if let Err(tb) = done {
            return (String::from_utf8(out).unwrap(), Err(tb));
        }
    }
}

fn run(notation: &str, input: &[u8]) -> (String, Result<(), Traceback>) {
    let program = parse(notation).expect("program parses");
    run_program(&program, input)
}

fn failure(notation: &str, input: &[u8]) -> Traceback {
    match run(notation, input).1 {
        Err(tb) => tb,
        Ok(()) => panic!("expected a runtime failure"),
    }
}

fn parse_failure(notation: &str) -> ParseError {
    match parse(notation) {
        Err(e) => e,
        Ok(_) => panic!("expected a parse failure"),
    }
}

// Instruction spellings used below.
const PUSH: &str = "SS";
const OUT_NUM: &str = "TLST";
const OUT_CHAR: &str = "TLSS";
const END: &str = "LLL";

fn push(n: i64) -> String {
    let sign = if n < 0 { "T" } else { "S" };
    let bits: String = format!("{:b}", n.unsigned_abs()).chars().map(|c| if c == '1' { 'T' } else { 'S' }).collect();
    format!("{}{}{}L", PUSH, sign, bits)
}

#[test]
fn push_output_number_end() {
    let src = format!("{}{}{}", push(1), OUT_NUM, END);
    let (out, result) = run(&src, b"");
    assert_eq!(out, "1");
    assert!(result.is_ok());
}

#[test]
fn invalid_heap_suffix_at_end_of_input() {
    let e = parse_failure("TT");
    assert_eq!(e.kind, ErrorKind::InvalidInstruction(InstType::Heap));
    assert_eq!(e.line_no, 1);
}

#[test]
fn invalid_heap_suffix_line_feed() {
    let e = parse_failure("TTL");
    assert_eq!(e.kind, ErrorKind::InvalidInstruction(InstType::Heap));
    assert_eq!(e.line_no, 2);
}

#[test]
fn heap_retrieve_then_truncated_stack_instruction() {
    let e = parse_failure("TTTS");
    assert_eq!(e.kind, ErrorKind::UnexpectedEof);
}

#[test]
fn call_to_undeclared_label() {
    // push 1 on line 1; the call starts on line 2
    let src = format!("{}LSTTL", push(1));
    let e = parse_failure(&src);
    assert_eq!(e.kind, ErrorKind::InvalidLabel);
    assert_eq!(e.line_no, 2);
}

#[test]
fn undeclared_label_reports_referencing_line() {
    // a jump on line 1, a declaration of another label later
    let src = format!("LSLTL{}LSSTTL", push(3));
    let e = parse_failure(&src);
    assert_eq!(e.kind, ErrorKind::InvalidLabel);
    assert_eq!(e.line_no, 1);
}

#[test]
fn divide_by_zero_traceback() {
    let src = format!("{}{}TSTS{}", push(10), push(0), END);
    let tb = failure(&src, b"");
    assert_eq!(tb.reason, RuntimeError::ZeroDivision);
    assert_eq!(tb.stack.len(), 1);
    assert_eq!(tb.stack[0].label, None);
    assert_eq!(tb.stack[0].line_no, 3);
}

#[test]
fn modulo_by_zero() {
    let src = format!("{}{}TSTT{}", push(10), push(0), END);
    assert_eq!(failure(&src, b"").reason, RuntimeError::ZeroDivision);
}

#[test]
fn divide_with_zero_alone_underflows() {
    let src = format!("{}TSTS{}", push(0), END);
    assert_eq!(failure(&src, b"").reason, RuntimeError::StackUnderflow);
}

#[test]
fn unbounded_recursion_keeps_running() {
    // label 1: call 1
    let program = parse("LSSTL LSTTL").unwrap();
    let mut vm = Vm::new(&program);
    for _ in 0..10_000 {
        assert_eq!(vm.step().ok(), Some(Request::Nothing));
    }
}

#[test]
fn read_number_rejects_text() {
    let src = format!("{}TLTT{}", push(0), END);
    let tb = failure(&src, b"abc\n");
    assert_eq!(tb.reason, RuntimeError::NumParseError);
}

#[test]
fn read_number_stores_value() {
    // read a number to address 0, retrieve it, print it
    let src = format!("{}TLTT{}TTT{}{}", push(0), push(0), OUT_NUM, END);
    let (out, result) = run(&src, b"-42  \n");
    assert!(result.is_ok());
    assert_eq!(out, "-42");
}

#[test]
fn read_number_range() {
    let src = format!("{}TLTT{}TTT{}{}", push(0), push(0), OUT_NUM, END);
    assert_eq!(run(&src, b"-9223372036854775808\n").0, "-9223372036854775808");
    assert_eq!(run(&src, b"+17\n").0, "17");
    assert_eq!(failure(&src, b"9223372036854775808\n").reason, RuntimeError::NumParseError);
    assert_eq!(failure(&src, b"\n").reason, RuntimeError::NumParseError);
    assert_eq!(failure(&src, b"-\n").reason, RuntimeError::NumParseError);
    assert_eq!(failure(&src, b"1 2\n").reason, RuntimeError::NumParseError);
}

#[test]
fn read_char_stores_byte() {
    let src = format!("{}TLTS{}TTT{}{}", push(7), push(7), OUT_NUM, END);
    let (out, result) = run(&src, b"A");
    assert!(result.is_ok());
    assert_eq!(out, "65");
}

#[test]
fn read_char_at_end_of_input_is_io_error() {
    let src = format!("{}TLTS{}", push(7), END);
    assert_eq!(failure(&src, b"").reason, RuntimeError::IoError);
}

#[test]
fn failed_write_is_io_error() {
    let program = parse(&format!("{}{}{}", push(5), OUT_NUM, END)).unwrap();
    let mut vm = Vm::new(&program);
    assert_eq!(vm.step().ok(), Some(Request::Nothing));
    assert_eq!(vm.step().ok(), Some(Request::WriteNum(5)));
    let tb = vm.finish_output(false).unwrap_err();
    assert_eq!(tb.reason, RuntimeError::IoError);
    // the output instruction starts on line 2, after the push's line feed
    assert_eq!(tb.stack, vec![TraceEntry::new(2, None)]);
}

#[test]
fn output_char_low_byte() {
    let src = format!("{}{}{}{}{}", push(65), OUT_CHAR, push(321), OUT_CHAR, END);
    assert_eq!(run(&src, b"").0, "AA");
}

#[test]
fn underflow_on_each_consuming_instruction() {
    let cases = [
        "SLS",      // dup
        "SLT",      // swap
        "SLL",      // pop
        "TSSS",     // add
        "TSST",     // subtract
        "TSSL",     // multiply
        "TSTS",     // divide
        "TSTT",     // modulo
        "TTS",      // store
        "TTT",      // retrieve
        "LTSTL",    // jump if zero (label 1 declared below)
        "LTTTL",    // jump if negative
        "TLSS",     // output char
        "TLST",     // output number
        "TLTS",     // read char
        "TLTT",     // read number
    ];
    for inst in cases.iter() {
        let src = format!("{}{}LSSTL{}", push(9), inst, END);
        // one value on the stack: instructions taking two fail at once
        let program = parse(&src).unwrap();
        let (_, result) = run_program(&program, b"");
        let needs_two = matches!(*inst, "SLT" | "TSSS" | "TSST" | "TSSL" | "TSTS" | "TSTT" | "TTS");
        if needs_two {
            assert_eq!(result.unwrap_err().reason, RuntimeError::StackUnderflow, "{}", inst);
        }
        let src = format!("{}LSSTL{}", inst, END);
        let (_, result) = run(&src, b"");
        assert_eq!(result.unwrap_err().reason, RuntimeError::StackUnderflow, "{}", inst);
    }
}

#[test]
fn underflow_leaves_stack_unchanged() {
    // one value, then swap fails; the value is still there afterwards
    let program = parse(&format!("{}SLT{}", push(4), END)).unwrap();
    let mut vm = Vm::new(&program);
    assert_eq!(vm.step().ok(), Some(Request::Nothing));
    let tb = vm.step().unwrap_err();
    assert_eq!(tb.reason, RuntimeError::StackUnderflow);
    assert_eq!(tb.stack, vec![TraceEntry::new(2, None)]);
}

#[test]
fn copy_and_slide() {
    // 1 2 3, copy 2 -> 1 2 3 1; slide 2 -> 1 1; add; print -> 2
    let src = format!("{}{}{}STSSTSL STLSTSL TSSS{}{}", push(1), push(2), push(3), OUT_NUM, END);
    assert_eq!(run(&src, b"").0, "2");
    let too_deep = format!("{}STSSTL{}", push(1), END);
    assert_eq!(failure(&too_deep, b"").reason, RuntimeError::StackUnderflow);
    let slide_too_far = format!("{}STLSTL{}", push(1), END);
    assert_eq!(failure(&slide_too_far, b"").reason, RuntimeError::StackUnderflow);
    let negative = format!("{}STSTTL{}", push(1), END);
    assert_eq!(failure(&negative, b"").reason, RuntimeError::StackUnderflow);
}

#[test]
fn store_then_retrieve() {
    let src = format!("{}{}TTS{}TTT{}{}", push(-3), push(77), push(-3), OUT_NUM, END);
    assert_eq!(run(&src, b"").0, "77");
}

#[test]
fn store_overwrites() {
    let src = format!("{}{}TTS{}{}TTS{}TTT{}{}", push(1), push(5), push(1), push(6), push(1), OUT_NUM, END);
    assert_eq!(run(&src, b"").0, "6");
}

#[test]
fn retrieve_missing_address() {
    let src = format!("{}{}TTS{}TTT{}", push(1), push(5), push(2), END);
    assert_eq!(failure(&src, b"").reason, RuntimeError::InvalidHeapEntry);
}

#[test]
fn arithmetic_wraps_and_truncates() {
    let cases: [(i64, i64, &str, String); 7] = [
        (i64::MAX, 1, "TSSS", i64::MIN.to_string()),
        (i64::MIN + 1, 2, "TSST", i64::MAX.to_string()),
        (i64::MAX, 2, "TSSL", "-2".to_string()),
        (-7, 2, "TSTS", "-3".to_string()),
        (-7, 2, "TSTT", "-1".to_string()),
        (7, -2, "TSTT", "1".to_string()),
        (6, 7, "TSSL", "42".to_string()),
    ];
    for (l, r, op, expected) in cases.iter() {
        let src = format!("{}{}{}{}{}", push(*l), push(*r), op, OUT_NUM, END);
        assert_eq!(&run(&src, b"").0, expected);
    }
}

#[test]
fn minimum_divided_by_minus_one() {
    // i64::MIN cannot be written as a literal: compute it
    let min = format!("{}{}TSST", push(-i64::MAX), push(1));
    let div = format!("{}{}TSTS{}{}", min, push(-1), OUT_NUM, END);
    assert_eq!(run(&div, b"").0, i64::MIN.to_string());
    let rem = format!("{}{}TSTT{}{}", min, push(-1), OUT_NUM, END);
    assert_eq!(run(&rem, b"").0, "0");
}

#[test]
fn jumps_and_conditionals() {
    // count down from 3, printing each value
    // label 1: dup, print, push 1, sub, dup, jz 2, jump 1; label 2: end
    let src = format!(
        "{} LSSTL SLS {} {} TSST SLS LTSTSL LSLTL LSSTSL {}",
        push(3),
        OUT_NUM,
        push(1),
        END
    );
    assert_eq!(run(&src, b"").0, "321");
}

#[test]
fn jump_if_negative() {
    let src = format!("{} LTTTL {} {} LSSTL {} {} {}", push(-1), push(1), OUT_NUM, push(2), OUT_NUM, END);
    assert_eq!(run(&src, b"").0, "2");
}

#[test]
fn call_and_return() {
    // call 1; print 9; end; label 1: print 8; return
    let src = format!("LSTTL {} {} {} LSSTL {} {} LTL", push(9), OUT_NUM, END, push(8), OUT_NUM);
    assert_eq!(run(&src, b"").0, "89");
}

#[test]
fn return_from_top_level_ends() {
    let src = format!("{} LTL {}", push(1), OUT_NUM);
    let (out, result) = run(&src, b"");
    assert_eq!(out, "");
    assert!(result.is_ok());
}

#[test]
fn running_off_the_end_halts() {
    let (out, result) = run(&push(1), b"");
    assert_eq!(out, "");
    assert!(result.is_ok());
}

#[test]
fn traceback_through_subroutine() {
    // call 3 starts on line 1, end on line 3, label 3 on line 6, and the
    // pop on an empty stack on line 8 (every `L` ends a line)
    let program = parse("LSTTTL LLL LSSTTL SLL").unwrap();
    let tb = run_program(&program, b"").1.unwrap_err();
    assert_eq!(tb.reason, RuntimeError::StackUnderflow);
    assert_eq!(tb.stack, vec![TraceEntry::new(3, None), TraceEntry::new(8, Some(3))]);
}

#[test]
fn label_declared_twice_keeps_last() {
    // label 1 at pc 0; push; label 1 again at pc 1; jump 1
    let src = format!("LSSTL {} LSSTL LSLTL", push(5));
    let program = parse(&src).unwrap();
    assert_eq!(program.inst_count(), 2);
    assert_eq!(*program.inst_at(1), Instruction::Jump(1));
}

#[test]
fn forward_and_backward_targets() {
    // pc0: jump 2 (forward); label 1 at pc1; pc1: end; label 2 at pc2; pc2: call 1
    let src = format!("LSLTSL LSSTL {} LSSTSL LSTTL", END);
    let program = parse(&src).unwrap();
    assert_eq!(*program.inst_at(0), Instruction::Jump(2));
    assert_eq!(*program.inst_at(2), Instruction::Call(1));
    assert_eq!(program.get_label(1), Some(1));
    assert_eq!(program.get_label(2), None);
    assert_eq!(program.line_at(0), 1);
}

#[test]
fn constant_pool_deduplicates() {
    let src = format!("{}{}{}{}", push(5), push(-5), push(5), push(0));
    let program = parse(&src).unwrap();
    assert_eq!(*program.inst_at(0), Instruction::Push(0));
    assert_eq!(*program.inst_at(1), Instruction::Push(1));
    assert_eq!(*program.inst_at(2), Instruction::Push(0));
    assert_eq!(*program.inst_at(3), Instruction::Push(2));
    assert_eq!(program.get_const(0), 5);
    assert_eq!(program.get_const(1), -5);
    assert_eq!(program.get_const(2), 0);
}

#[test]
fn literal_limits() {
    let max = format!("{}{}{}", push(i64::MAX), OUT_NUM, END);
    assert_eq!(run(&max, b"").0, i64::MAX.to_string());
    // 64 one-bits do not fit
    let too_big = format!("SSS{}L", "T".repeat(64));
    assert_eq!(parse_failure(&too_big).kind, ErrorKind::LiteralOverflow);
    // leading zeros do not count
    let zeros = format!("SSS{}TL{}{}", "S".repeat(100), OUT_NUM, END);
    assert_eq!(run(&zeros, b"").0, "1");
}

#[test]
fn label_limits() {
    let fits = format!("LSS{}L", "T".repeat(64));
    assert!(parse(&fits).is_ok());
    let too_big = format!("LSS{}L", "T".repeat(65));
    assert_eq!(parse_failure(&too_big).kind, ErrorKind::TooManyLabels);
}

#[test]
fn malformed_instructions() {
    assert_eq!(parse_failure("SSL").kind, ErrorKind::InvalidLiteral);
    assert_eq!(parse_failure("SSST").kind, ErrorKind::UnexpectedEof);
    assert_eq!(parse_failure("T").kind, ErrorKind::InvalidInstruction(InstType::Unknown));
    assert_eq!(parse_failure("STT").kind, ErrorKind::InvalidInstruction(InstType::Stack));
    assert_eq!(parse_failure("TSTL").kind, ErrorKind::InvalidInstruction(InstType::Arithmetic));
    assert_eq!(parse_failure("TLLS").kind, ErrorKind::InvalidInstruction(InstType::Io));
    assert_eq!(parse_failure("LLS").kind, ErrorKind::InvalidInstruction(InstType::ControlFlow));
    assert_eq!(parse_failure("LS").kind, ErrorKind::UnexpectedEof);
    assert_eq!(parse_failure("LSST").kind, ErrorKind::UnexpectedEof);
}

#[test]
fn error_lines_count_line_feeds() {
    // two pushes (lines 1 and 2), then a bad stack instruction on line 3
    let src = format!("{}{}STT", push(1), push(2));
    let e = parse_failure(&src);
    assert_eq!(e, ParseError { line_no: 3, kind: ErrorKind::InvalidInstruction(InstType::Stack) });
}

#[test]
fn comments_are_ignored() {
    let text = ws(&format!("{}{}{}", push(1), OUT_NUM, END));
    let commented: String = text.chars().flat_map(|c| vec!['x', c, 'y']).collect();
    let program = Parser::new(&format!("abc{}", commented)).parse().unwrap();
    assert_eq!(run_program(&program, b"").0, "1");
}

#[test]
fn empty_source_is_empty_program() {
    let program = Parser::new("").parse().unwrap();
    assert_eq!(program.inst_count(), 0);
    let (out, result) = run_program(&program, b"");
    assert_eq!(out, "");
    assert!(result.is_ok());
}

#[test]
fn tokens_skip_other_bytes_and_count_lines() {
    let mut t = Tokens::new("a \tx\ny");
    assert_eq!(t.line_no(), 1);
    assert_eq!(t.next(), Some(Token::Space));
    assert_eq!(t.next(), Some(Token::Tab));
    assert_eq!(t.line_no(), 1);
    assert_eq!(t.next(), Some(Token::Newline));
    assert_eq!(t.line_no(), 2);
    assert_eq!(t.next(), None);
    assert_eq!(t.next(), None);
    assert_eq!(t.line_no(), 2);
}

#[test]
fn label_map_last_declaration_wins() {
    let mut m = LabelMap::new();
    assert_eq!(m.get_pc(4), None);
    m.add_label(4, 10);
    m.add_label(4, 20);
    assert_eq!(m.get_pc(4), Some(20));
    m.add_inst(0, 4);
    m.add_inst(3, 5);
    assert_eq!(m.iter_insts(), &vec![(0, 4), (3, 5)]);
}

#[test]
fn program_bookkeeping() {
    let mut p = Program::new();
    assert_eq!(p.add_const(7), 0);
    assert_eq!(p.add_const(8), 1);
    assert_eq!(p.add_const(7), 0);
    p.emit(Instruction::Call(0), 3);
    p.emit(Instruction::End, 4);
    assert_eq!(p.inst_count(), 2);
    assert_eq!(p.line_at(1), 4);
    *p.inst_at_mut(0) = Instruction::Call(1);
    assert_eq!(*p.inst_at(0), Instruction::Call(1));
    p.add_sub_label(1, 9);
    assert_eq!(p.get_label(1), Some(9));
}

#[test]
fn frames_and_entries() {
    assert_eq!(CallFrame::new_main(), CallFrame { pc: 0, label: None });
    assert_eq!(CallFrame::new(4, 2), CallFrame { pc: 4, label: Some(2) });
    assert_eq!(TraceEntry::new(3, Some(1)), TraceEntry { line_no: 3, label: Some(1) });
    assert_eq!(ParseError::new(ErrorKind::InvalidLabel, 2), ParseError { line_no: 2, kind: ErrorKind::InvalidLabel });
}

#[test]
fn end_inside_subroutine_halts() {
    let src = format!("LSTTL {} {} LSSTL {}", push(1), OUT_NUM, END);
    let (out, result) = run(&src, b"");
    assert_eq!(out, "");
    assert!(result.is_ok());
}

#[test]
fn decimal_parsing() {
    assert_eq!(parse_decimal("007"), Some(7));
    assert_eq!(parse_decimal("-0"), Some(0));
    assert_eq!(parse_decimal("+5"), Some(5));
    assert_eq!(parse_decimal("9223372036854775807"), Some(i64::MAX));
    assert_eq!(parse_decimal("-9223372036854775808"), Some(i64::MIN));
    assert_eq!(parse_decimal("-9223372036854775809"), None);
    assert_eq!(parse_decimal("99999999999999999999x"), None);
    assert_eq!(parse_decimal(""), None);
    assert_eq!(parse_decimal("+"), None);
    assert_eq!(parse_decimal(" 1"), None);
    assert_eq!(parse_decimal("1a"), None);
    assert_eq!(parse_decimal("--1"), None);
    assert_eq!(parse_decimal("\u{663}"), None);
}

#[test]
fn read_number_strips_line_end_and_trailing_space() {
    let program = parse(&format!("{}TLTT{}", push(0), END)).unwrap();
    let lines: [&str; 4] = ["5\n", "5 \t\r\n", "5\u{3000}\u{a0}\n", "5"];
    for line in lines.iter() {
        let mut vm = Vm::new(&program);
        assert_eq!(vm.step().ok(), Some(Request::Nothing));
        assert_eq!(vm.step().ok(), Some(Request::ReadNum));
        assert!(vm.finish_read_num(Some(line)).is_ok(), "{:?}", line);
    }
    for line in [" 5\n", "5\u{1c}\n", "5x\n"].iter() {
        let mut vm = Vm::new(&program);
        vm.step().unwrap();
        vm.step().unwrap();
        assert_eq!(vm.finish_read_num(Some(line)).unwrap_err().reason, RuntimeError::NumParseError);
    }
}

#[test]
fn trimmed_lengths() {
    assert_eq!(trimmed_len("12 \n"), 2);
    assert_eq!(trimmed_len(" \t\r\n\u{b}\u{c}"), 0);
    assert_eq!(trimmed_len("a\u{2003}\u{85}\u{2028}\u{205f}"), 1);
    assert_eq!(trimmed_len("a\u{1c}"), 2);
    assert_eq!(trimmed_len("\u{3000}a"), 4);
    assert_eq!(trimmed_len(""), 0);
}

#[test]
fn label_map_replaces_reference_from_same_index() {
    let mut m = LabelMap::new();
    m.add_inst(0, 1);
    m.add_inst(2, 7);
    m.add_inst(0, 2);
    assert_eq!(m.iter_insts(), &vec![(0, 2), (2, 7)]);
}

#[test]
fn push_cut_off_before_sign() {
    let e = parse_failure("SS");
    assert_eq!(e, ParseError { line_no: 1, kind: ErrorKind::UnexpectedEof });
    assert_eq!(parse_failure("STS").kind, ErrorKind::UnexpectedEof);
    assert_eq!(parse_failure("SSL").kind, ErrorKind::InvalidLiteral);
}
