use hack_assembler::error::AssemblyError;
use hack_assembler::parser::{
    is_numeral, parse_numeral, Instruction, InstructionVariant, Parser,
};

fn parser_init() -> Parser {
    Parser::new()
}

fn sample_c_instruction() -> String {
    "D=D-M".to_string()
}

fn sample_a_instruction() -> String {
    "@10".to_string()
}

fn sample_symbol() -> String {
    "(ITSR0)".to_string()
}

fn sample_symbol_variable() -> String {
    "@var".to_string()
}

fn compute(dest: &str, comp: &str, jmp: &str) -> InstructionVariant {
    InstructionVariant::C { comp: comp.to_string(), dest: dest.to_string(), jmp: jmp.to_string() }
}

fn label(name: &str) -> InstructionVariant {
    InstructionVariant::Symbol { symbol: name.to_string(), is_variable: false }
}

fn variable(name: &str) -> InstructionVariant {
    InstructionVariant::Symbol { symbol: name.to_string(), is_variable: true }
}

fn parse_one(line: &str) -> Result<InstructionVariant, AssemblyError> {
    Parser::new().parse(line.to_string()).map(|parsed| parsed.variant)
}

#[test]
fn parser_init_test() {
    let parser = parser_init();
    assert_eq!(parser.instructions_count, 0);
}

#[test]
fn parser_test_c_instruction() {
    let mut parser = parser_init();
    let parsed = parser.parse(sample_c_instruction()).unwrap();
    assert_eq!(parser.instructions_count, 1);
    assert_eq!(parsed.line_number, 0);
    assert_eq!(
        parsed.variant,
        InstructionVariant::C {
            comp: "D-M".to_string(),
            dest: "D".to_string(),
            jmp: String::new()
        }
    );
    assert_eq!(parsed.rep(), sample_c_instruction());
}

#[test]
fn parser_test_a_instruction() {
    let mut parser = parser_init();
    let parsed = parser.parse(sample_a_instruction()).unwrap();
    assert_eq!(parser.instructions_count, 1);
    assert_eq!(parsed.line_number, 0);
    assert_eq!(parsed.variant, InstructionVariant::A("10".to_string()));
    assert_eq!(parsed.rep(), sample_a_instruction());
}

#[test]
fn parser_test_variable_symbol() {
    let mut parser = parser_init();
    let parsed = parser.parse(sample_symbol_variable()).unwrap();
    assert_eq!(parser.instructions_count, 1);
    assert_eq!(parsed.line_number, 0);
    assert_eq!(
        parsed.variant,
        InstructionVariant::Symbol { symbol: "var".to_string(), is_variable: true }
    );
    assert_eq!(parsed.rep(), sample_symbol_variable());
}

#[test]
fn parser_test_symbol() {
    let mut parser = parser_init();
    let parsed = parser.parse(sample_symbol()).unwrap();
    assert_eq!(parser.instructions_count, 0);
    assert_eq!(parsed.line_number, 0);
    assert_eq!(
        parsed.variant,
        InstructionVariant::Symbol { symbol: "ITSR0".to_string(), is_variable: false }
    );
    assert_eq!(parsed.rep(), sample_symbol());
}

#[test]
fn parse_rejects_a_line_without_content() {
    let mut parser = parser_init();
    assert_eq!(parser.parse(String::new()).err(), Some(AssemblyError::EmptyInstruction));
    assert_eq!(parser.parse("   ".to_string()).err(), Some(AssemblyError::EmptyInstruction));
    let blank = " \t\u{a0}\n".to_string();
    assert_eq!(parser.parse(blank).err(), Some(AssemblyError::EmptyInstruction));
    assert_eq!(parser.instructions_count, 0);
}

#[test]
fn parse_rejects_too_many_segments() {
    assert_eq!(parse_one("D=A=A"), Err(AssemblyError::MalformedInstruction));
    assert_eq!(parse_one("D=A=A;JMP"), Err(AssemblyError::MalformedInstruction));
    assert_eq!(parse_one("D;JGT;JMP"), Err(AssemblyError::MalformedInstruction));
    assert_eq!(parse_one("0;;"), Err(AssemblyError::MalformedInstruction));
    assert_eq!(parse_one("D=="), Err(AssemblyError::MalformedInstruction));
    assert_eq!(parse_one("D=M;JGT;"), Err(AssemblyError::MalformedInstruction));
    let mut parser = parser_init();
    parser.parse("D=A".to_string()).unwrap();
    assert!(parser.parse("D=A=A".to_string()).is_err());
    assert_eq!(parser.instructions_count, 1);
}

#[test]
fn parse_reads_the_three_fields() {
    assert_eq!(parse_one("D=M"), Ok(compute("D", "M", "")));
    assert_eq!(parse_one("0;JMP"), Ok(compute("", "0", "JMP")));
    assert_eq!(parse_one("AMD=D|M;JNE"), Ok(compute("AMD", "D|M", "JNE")));
    assert_eq!(parse_one("D"), Ok(compute("", "D", "")));
    assert_eq!(parse_one("=D"), Ok(compute("", "D", "")));
    assert_eq!(parse_one("D;"), Ok(compute("", "D", "")));
    assert_eq!(parse_one("D="), Ok(compute("D", "", "")));
    assert_eq!(parse_one("="), Ok(compute("", "", "")));
    assert_eq!(parse_one(";"), Ok(compute("", "", "")));
    assert_eq!(parse_one("D;J=A"), Ok(compute("D;J", "A", "")));
    assert_eq!(parse_one("XYZ=FOO;JXX"), Ok(compute("XYZ", "FOO", "JXX")));
}

#[test]
fn parse_ignores_white_space() {
    assert_eq!(parse_one("  D = M ; JGT  "), Ok(compute("D", "M", "JGT")));
    assert_eq!(parse_one("\t@ 1 0"), Ok(InstructionVariant::A("10".to_string())));
    assert_eq!(parse_one(" ( LOOP ) "), Ok(label("LOOP")));
    assert_eq!(parse_one("@\u{2003}sum\u{3000}"), Ok(variable("sum")));
}

#[test]
fn parse_tells_numbers_from_names() {
    assert_eq!(parse_one("@0"), Ok(InstructionVariant::A("0".to_string())));
    assert_eq!(parse_one("@007"), Ok(InstructionVariant::A("007".to_string())));
    assert_eq!(parse_one("@+5"), Ok(InstructionVariant::A("+5".to_string())));
    assert_eq!(parse_one("@70000"), Ok(InstructionVariant::A("70000".to_string())));
    assert_eq!(parse_one("@4294967295"), Ok(InstructionVariant::A("4294967295".to_string())));
    assert_eq!(parse_one("@4294967296"), Ok(InstructionVariant::A("4294967296".to_string())));
    let long = "123456789012345678901234567890123456789012345678901234567890";
    assert_eq!(parse_one(&format!("@{}", long)), Ok(InstructionVariant::A(long.to_string())));
    assert_eq!(parse_one(&format!("@+{}", long)), Ok(InstructionVariant::A(format!("+{}", long))));
    assert_eq!(parse_one(&format!("@{}x", long)), Ok(variable(&format!("{}x", long))));
    assert_eq!(parse_one("@-1"), Ok(variable("-1")));
    assert_eq!(parse_one("@+"), Ok(variable("+")));
    assert_eq!(parse_one("@"), Ok(variable("")));
    assert_eq!(parse_one("@1a"), Ok(variable("1a")));
    assert_eq!(parse_one("@i"), Ok(variable("i")));
    assert_eq!(parse_one("@a@b"), Ok(variable("a@b")));
    assert_eq!(parse_one("@\u{664}"), Ok(variable("\u{664}")));
}

#[test]
fn is_numeral_takes_digits_of_any_length() {
    for text in ["0", "7", "007", "65536", "4294967296", "+1", "+000", "99999999999999999999999"] {
        let chars: Vec<char> = text.chars().collect();
        assert!(is_numeral(&chars));
    }
    for text in ["", "+", "-1", "++1", "1+", "1a", "a1", " 1", "1 ", "0x10", "\u{661}", "1.5"] {
        let chars: Vec<char> = text.chars().collect();
        assert!(!is_numeral(&chars));
    }
}

#[test]
fn parse_numeral_agrees_with_the_standard_parser() {
    let samples = [
        "", "0", "1", "9", "10", "65535", "65536", "0065535", "4294967295", "4294967296",
        "99999999999999999999", "+", "+0", "+12", "++1", "-0", "-1", "1+", "12a", "a12", " 1",
        "1 ", "1_000", "0x10", "\u{661}", "+4294967295", "+4294967296", "000000000000000000001",
    ];
    for text in samples {
        let chars: Vec<char> = text.chars().collect();
        assert_eq!(parse_numeral(&chars, u32::MAX), text.parse::<u32>().ok());
        assert_eq!(parse_numeral(&chars, 65535), text.parse::<u16>().ok().map(u32::from));
    }
}

#[test]
fn parse_strips_the_enclosing_parentheses() {
    assert_eq!(parse_one("(END)"), Ok(label("END")));
    assert_eq!(parse_one("()"), Ok(label("")));
    assert_eq!(parse_one("("), Ok(label("")));
    assert_eq!(parse_one("(END"), Ok(label("END")));
    assert_eq!(parse_one("(A(B))"), Ok(label("A(B)")));
    assert_eq!(parse_one("(A)B"), Ok(label("A)B")));
    assert_eq!(parse_one("(sys.init$0:x_y)"), Ok(label("sys.init$0:x_y")));
}

#[test]
fn parser_counts_instructions_and_not_labels() {
    let mut parser = parser_init();
    let lines = ["(START)", "@2", "D=A", "(A)", "(B)", "@i", "(C)", "0;JMP", "(END)"];
    let expected = [0, 0, 1, 2, 2, 2, 3, 3, 4];
    for (line, number) in lines.iter().zip(expected) {
        let parsed = parser.parse(line.to_string()).unwrap();
        assert_eq!(parsed.line_number, number);
    }
    assert_eq!(parser.instructions_count, 4);
    parser.clear();
    assert_eq!(parser.instructions_count, 0);
    assert_eq!(parser.parse("@2".to_string()).unwrap().line_number, 0);
}

#[test]
fn parser_stops_at_the_last_position() {
    let mut parser = Parser { instructions_count: u16::MAX - 1 };
    assert_eq!(parser.parse("D=A".to_string()).unwrap().line_number, u16::MAX - 1);
    assert_eq!(parser.instructions_count, u16::MAX);
    assert_eq!(parser.parse("(END)".to_string()).unwrap().line_number, u16::MAX);
    assert_eq!(parser.parse("D=A".to_string()).err(), Some(AssemblyError::AddressSpaceExhausted));
    assert_eq!(parser.parse("@1".to_string()).err(), Some(AssemblyError::AddressSpaceExhausted));
    assert_eq!(parser.parse("@x".to_string()).err(), Some(AssemblyError::AddressSpaceExhausted));
    assert_eq!(parser.parse("A=B=C".to_string()).err(), Some(AssemblyError::MalformedInstruction));
    assert_eq!(parser.instructions_count, u16::MAX);
}

#[test]
fn rep_writes_each_kind() {
    let text = |variant: InstructionVariant| Instruction { variant, line_number: 0 }.rep();
    assert_eq!(text(InstructionVariant::A("42".to_string())), "@42");
    assert_eq!(text(variable("sum")), "@sum");
    assert_eq!(text(label("LOOP")), "(LOOP)");
    assert_eq!(text(compute("D", "M", "")), "D=M");
    assert_eq!(text(compute("", "0", "JMP")), "0;JMP");
    assert_eq!(text(compute("MD", "D+1", "JLE")), "MD=D+1;JLE");
    assert_eq!(text(compute("", "D", "")), "D");
    assert_eq!(text(compute("", "", "")), "");
}

#[test]
fn rep_gives_back_a_line_in_normal_form() {
    let lines = [
        "@2", "@sum", "@+5", "@a@b", "@", "(LOOP)", "()", "(A(B))", "D=M", "0;JMP", "AM=M-1;JEQ",
        "D", "D=", ";JMP", "XYZ=FOO;JXX", "D;J=A",
    ];
    for line in lines {
        let spaced = format!("  {} ", line.chars().map(|c| format!("{} ", c)).collect::<String>());
        let mut parser = Parser::new();
        assert_eq!(parser.parse(line.to_string()).unwrap().rep(), line);
        assert_eq!(parser.parse(spaced).unwrap().rep(), line);
    }
}

#[test]
fn rep_differs_from_a_line_that_is_not_in_normal_form() {
    let mut parser = Parser::new();
    assert_eq!(parser.parse("=D".to_string()).unwrap().rep(), "D");
    assert_eq!(parser.parse("D;".to_string()).unwrap().rep(), "D");
    assert_eq!(parser.parse("=D;".to_string()).unwrap().rep(), "D");
    assert_eq!(parser.parse("(END".to_string()).unwrap().rep(), "(END)");
    assert_eq!(parser.parse("(".to_string()).unwrap().rep(), "()");
    assert_eq!(parser.parse("(A)B".to_string()).unwrap().rep(), "(A)B)");
}
