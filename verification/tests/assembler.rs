use hasm::assemble;
use hasm::assemble_checked;
use hasm::within_limit;
use hasm::code::generate_code;
use hasm::config::Config;
use hasm::instruction::AInstAddress;
use hasm::instruction::Instruction;
use hasm::instruction::default_symbols;
use hasm::instruction::make_comp;
use hasm::parser::Command;
use hasm::parser::ParseResult;
use hasm::parser::Parser;
use hasm::parser::parse;

#[test]
fn address_round_trip() {
    let result = ParseResult {
        commands: vec![Command {
            inst: Instruction::AInstruction { address: AInstAddress::Address(5) },
            raw: "@5".to_string(),
        }],
        inst_counter: 1,
    };
    assert_eq!(generate_code(result), "0000000000000101\n");
    assert_eq!(assemble("@5"), "0000000000000101\n");
}

#[test]
fn compute_with_destination() {
    assert_eq!(assemble("D=D+A"), "1110000010010000\n");
}

#[test]
fn unconditional_jump() {
    assert_eq!(assemble("0;JMP"), "1110101010000111\n");
}

#[test]
fn label_binds_to_next_instruction() {
    let out = assemble("(LOOP)\nD=A\n@LOOP\n");
    assert_eq!(out, "1110110000010000\n0000000000000000\n");
}

#[test]
fn label_defined_after_use() {
    let out = assemble("@END\n0;JMP\n(END)\n@END\n");
    assert_eq!(
        out,
        "0000000000000010\n1110101010000111\n0000000000000010\n"
    );
}

#[test]
fn variables_allocated_from_sixteen() {
    let out = assemble("@counter\n@i\n@counter\n");
    assert_eq!(
        out,
        "0000000000010000\n0000000000010001\n0000000000010000\n"
    );
}

#[test]
fn blank_and_comment_lines_contribute_nothing() {
    let with_noise = "@1\n\n// a comment\n   \nD=A\n";
    let without = "@1\nD=A\n";
    assert_eq!(assemble(with_noise), assemble(without));
    let result = parse(with_noise.to_string());
    assert_eq!(result.inst_counter, 2);
    assert_eq!(result.commands.len(), 2);
}

#[test]
fn numeric_program_independent_of_first_pass() {
    let source = "@3\nD=A\n@7\n0;JMP\n";
    let mut parser = Parser::new(source);
    let mut symbols = parser.build_symbols();
    let single_pass = parser.parse_input(&mut symbols, false);
    assert_eq!(generate_code(single_pass), assemble(source));
}

#[test]
fn predefined_symbols_resolve() {
    let out = assemble("@R5\n@SCREEN\n@KBD\n@THIS\n");
    assert_eq!(
        out,
        "0000000000000101\n0100000000000000\n0110000000000000\n0000000000000011\n"
    );
}

#[test]
fn unknown_mnemonic_yields_sentinel() {
    assert_eq!(assemble("FOO"), "111-------000000\n");
}

#[test]
fn empty_source_yields_empty_output() {
    assert_eq!(assemble(""), "");
    assert_eq!(assemble("// only a comment\n   \n"), "");
}

#[test]
fn widest_numeric_addresses() {
    assert_eq!(assemble("@32767"), "0111111111111111\n");
    assert_eq!(assemble("@0"), "0000000000000000\n");
}

#[test]
fn operand_with_plus_sign_is_numeric() {
    assert_eq!(assemble("@+5"), assemble("@5"));
}

#[test]
fn operand_too_large_for_numeric_becomes_variable() {
    assert_eq!(assemble("@70000"), "0000000000010000\n");
}

#[test]
fn destination_and_jump_tables() {
    assert_eq!(assemble("AMD=M+1;JNE"), "1111110111111101\n");
    assert_eq!(assemble("MD=D-1"), "1110001110011000\n");
}

#[test]
fn whitespace_and_trailing_comment_ignored() {
    assert_eq!(assemble("   @2   // jump target\n"), "0000000000000010\n");
}

#[test]
fn carriage_return_line_endings() {
    assert_eq!(assemble("@1\r\nD=A\r\n"), assemble("@1\nD=A\n"));
}

#[test]
fn parse_keeps_cleaned_text() {
    let result = parse("  @L  // note\n(L)\nD=A\n".to_string());
    assert_eq!(result.commands.len(), 2);
    assert_eq!(result.commands[0].raw, "@L");
    assert_eq!(result.commands[1].raw, "D=A");
}

#[test]
fn comp_table_patterns() {
    assert_eq!(make_comp("D+A".to_string()).fmt_binary(), "0000010");
    assert_eq!(make_comp("M-1".to_string()).fmt_binary(), "1110010");
    assert_eq!(make_comp("0".to_string()).fmt_binary(), "0101010");
    assert_eq!(make_comp("XYZ".to_string()).fmt_binary(), "-------");
}

#[test]
fn comp_table_negation_and_complement_differ() {
    assert_eq!(make_comp("!D".to_string()).fmt_binary(), "0001101");
    assert_eq!(make_comp("-D".to_string()).fmt_binary(), "0001111");
    assert_eq!(make_comp("!A".to_string()).fmt_binary(), "0110001");
    assert_eq!(make_comp("-A".to_string()).fmt_binary(), "0110011");
    assert_eq!(make_comp("!M".to_string()).fmt_binary(), "1110001");
    assert_eq!(make_comp("-M".to_string()).fmt_binary(), "1110011");
}

#[test]
fn duplicate_label_first_definition_wins() {
    let out = assemble("(X)\nD=A\n(X)\n@X\n");
    assert_eq!(out, "1110110000010000\n0000000000000000\n");
}

#[test]
fn label_cannot_overwrite_predefined_name() {
    let out = assemble("(R5)\n@R5\n");
    assert_eq!(out, "0000000000000101\n");
}

#[test]
fn oversized_numeric_operand_takes_symbol_path() {
    // 40000 parses as a sixteen-bit number but exceeds the fifteen-bit
    // address space, so the name is treated as a variable.
    assert_eq!(assemble("@40000"), "0000000000010000\n");
}

#[test]
fn symbol_table_lookup() {
    let table = default_symbols();
    assert_eq!(table.get("THIS"), Some(3));
    assert_eq!(table.get("KBD"), Some(24576));
    assert_eq!(table.get("missing"), None);
}

#[test]
fn symbol_table_insert_and_overwrite() {
    let mut table = default_symbols();
    table.insert("x".to_string(), 42);
    assert_eq!(table.get("x"), Some(42));
    table.insert("x".to_string(), 7);
    assert_eq!(table.get("x"), Some(7));
}

#[test]
fn config_needs_a_filename() {
    let short = vec!["hasm".to_string()];
    assert!(Config::new(&short).is_err());
    let full = vec!["hasm".to_string(), "prog.asm".to_string()];
    let config = Config::new(&full).unwrap();
    assert_eq!(config.filename, "prog.asm");
}

#[test]
fn checked_translation_of_small_program() {
    let source = "@1\nD=A\n";
    assert!(within_limit(source));
    assert_eq!(assemble_checked(source), Some(assemble(source)));
}

#[test]
fn generator_drops_unresolved_shapes() {
    let result = ParseResult {
        commands: vec![
            Command {
                inst: Instruction::AInstruction { address: AInstAddress::Label("x".to_string()) },
                raw: "@x".to_string(),
            },
            Command {
                inst: Instruction::LInstruction { label: "L".to_string() },
                raw: "(L)".to_string(),
            },
            Command {
                inst: Instruction::AInstruction { address: AInstAddress::Address(9) },
                raw: "@9".to_string(),
            },
        ],
        inst_counter: 2,
    };
    assert_eq!(generate_code(result), "0000000000001001\n");
}

#[test]
fn parser_method_runs_both_passes() {
    let parser = Parser::new("(A_LABEL)\n@A_LABEL\n@fresh\n");
    let result = parser.parse();
    assert_eq!(result.inst_counter, 2);
    let out = generate_code(result);
    assert_eq!(out, "0000000000000000\n0000000000010000\n");
}

#[test]
fn whole_program() {
    let source = "// add up to 100\n@i\nM=1\n(LOOP)\n@i\nD=M\n@100\nD=D-A\n@END\nD;JGT\n@LOOP\n0;JMP\n(END)\n@END\n0;JMP\n";
    let out = assemble(source);
    let lines: Vec<&str> = out.lines().collect();
    assert_eq!(lines.len(), 12);
    assert_eq!(lines[0], "0000000000010000"); // @i -> 16
    assert_eq!(lines[2], "0000000000010000"); // @i again -> 16
    assert_eq!(lines[4], "0000000001100100"); // @100
    assert_eq!(lines[6], "0000000000001010"); // @END -> 10
    assert_eq!(lines[8], "0000000000000010"); // @LOOP -> 2
    assert_eq!(lines[9], "1110101010000111"); // 0;JMP
    assert_eq!(lines[10], "0000000000001010"); // @END -> 10
}
