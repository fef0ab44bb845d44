use qasm_core::bits::extract_bits;
use qasm_core::lang::Mnemonic;
use qasm_core::lang::ParseError;
use qasm_core::parse::parse;
use qasm_core::render::serialize_instructions;

#[test]
fn bell_pair_program_is_accepted() {
    let r = parse("QUBITS 2\nH 0\nCNOT 0 1");
    let (c, ds) = r.expect("program should parse");
    assert_eq!(c.instructions.len(), 2);
    assert_eq!(c.qubit_count, 2);
    assert!(c.measure_targets.is_none());
    assert!(ds.is_empty());
    assert_eq!(c.instructions[0].mnemonic, Mnemonic::H);
    assert_eq!(c.instructions[0].targets, vec![0]);
    assert_eq!(c.instructions[0].line, 2);
    assert_eq!(c.instructions[1].mnemonic, Mnemonic::Cnot);
    assert_eq!(c.instructions[1].targets, vec![0, 1]);
    assert_eq!(c.instructions[1].line, 3);
}

#[test]
fn gate_before_declaration_is_order_violation() {
    let r = parse("H 0");
    assert_eq!(r.err(), Some(ParseError::OrderViolation { line: 1 }));
}

#[test]
fn measure_before_declaration_is_order_violation() {
    let r = parse("MEASURE 0");
    assert_eq!(r.err(), Some(ParseError::OrderViolation { line: 1 }));
}

#[test]
fn cnot_with_one_target_is_arity_mismatch() {
    let r = parse("QUBITS 1\nCNOT 0");
    assert_eq!(
        r.err(),
        Some(ParseError::ArityMismatch { line: 2, expected: 2, actual: 1 })
    );
}

#[test]
fn cnot_with_three_targets_is_arity_mismatch() {
    let r = parse("QUBITS 3\nCNOT 0 1 2");
    assert_eq!(
        r.err(),
        Some(ParseError::ArityMismatch { line: 2, expected: 2, actual: 3 })
    );
}

#[test]
fn single_qubit_gates_reject_zero_and_two_targets() {
    for g in ["H", "X", "Y", "Z", "S", "T"] {
        let none = parse(&format!("QUBITS 1\n{}", g));
        assert_eq!(
            none.err(),
            Some(ParseError::ArityMismatch { line: 2, expected: 1, actual: 0 })
        );
        let two = parse(&format!("QUBITS 2\n{} 0 1", g));
        assert_eq!(
            two.err(),
            Some(ParseError::ArityMismatch { line: 2, expected: 1, actual: 2 })
        );
    }
}

#[test]
fn empty_program_is_missing_declaration() {
    assert_eq!(parse("").err(), Some(ParseError::MissingDeclaration));
}

#[test]
fn blank_and_unknown_lines_only_is_missing_declaration() {
    assert_eq!(
        parse("\n  \nFOO 1\nBAR\n").err(),
        Some(ParseError::MissingDeclaration)
    );
}

#[test]
fn duplicate_qubits_cites_second_occurrence() {
    let r = parse("QUBITS 2\nH 0\nQUBITS 3");
    assert_eq!(r.err(), Some(ParseError::DuplicateDeclaration { line: 3 }));
}

#[test]
fn qubits_arity_and_operand_errors() {
    assert_eq!(
        parse("QUBITS").err(),
        Some(ParseError::ArityMismatch { line: 1, expected: 1, actual: 0 })
    );
    assert_eq!(
        parse("QUBITS 1 2").err(),
        Some(ParseError::ArityMismatch { line: 1, expected: 1, actual: 2 })
    );
    assert_eq!(
        parse("QUBITS two").err(),
        Some(ParseError::MalformedOperand { line: 1 })
    );
    assert_eq!(
        parse("QUBITS 99999999999999999999999999").err(),
        Some(ParseError::MalformedOperand { line: 1 })
    );
}

#[test]
fn malformed_gate_operand_cites_its_line() {
    assert_eq!(
        parse("QUBITS 1\nH x").err(),
        Some(ParseError::MalformedOperand { line: 2 })
    );
    assert_eq!(
        parse("QUBITS 2\nH 0\nCNOT 0 +1").err(),
        Some(ParseError::MalformedOperand { line: 3 })
    );
}

#[test]
fn measure_requires_at_least_one_target() {
    assert_eq!(
        parse("QUBITS 1\nMEASURE").err(),
        Some(ParseError::ArityMismatch { line: 2, expected: 1, actual: 0 })
    );
}

#[test]
fn measure_halts_the_scan() {
    let r = parse("QUBITS 2\nH 0\nMEASURE 0 1\nX 1");
    let (c, ds) = r.expect("trailing lines after MEASURE are ignored");
    assert_eq!(c.instructions.len(), 1);
    assert_eq!(c.instructions[0].mnemonic, Mnemonic::H);
    assert_eq!(c.measure_targets, Some(vec![0, 1]));
    assert!(ds.is_empty());
}

#[test]
fn lines_after_measure_produce_no_error_even_if_invalid() {
    let r = parse("QUBITS 1\nMEASURE 0\nCNOT 9\nQUBITS 5\nH x y z");
    let (c, _ds) = r.expect("everything after MEASURE is never validated");
    assert_eq!(c.instructions.len(), 0);
    assert_eq!(c.measure_targets, Some(vec![0]));
}

#[test]
fn unknown_mnemonics_are_diagnostics_not_errors() {
    let r = parse("QUBITS 1\nFOO 9 9\nH 0\nBAR !!");
    let (c, ds) = r.expect("unknown mnemonics never abort parsing");
    assert_eq!(c.instructions.len(), 1);
    assert_eq!(c.instructions[0].mnemonic, Mnemonic::H);
    assert_eq!(ds.len(), 2);
    assert_eq!(ds[0].line, 2);
    assert_eq!(ds[0].mnemonic, vec!['F', 'O', 'O']);
    assert_eq!(ds[1].line, 4);
    assert_eq!(ds[1].mnemonic, vec!['B', 'A', 'R']);
}

#[test]
fn unknown_mnemonic_before_declaration_is_skipped() {
    let (c, ds) = parse("FOO 1\nQUBITS 1\nH 0").expect("an unknown line is never fatal");
    assert_eq!(c.qubit_count, 1);
    assert_eq!(c.instructions.len(), 1);
    assert_eq!(ds.len(), 1);
    assert_eq!(ds[0].line, 1);
}

#[test]
fn mnemonics_are_case_insensitive() {
    let r = parse("qubits 2\nh 0\ncNoT 0 1\nMeAsUrE 1");
    let (c, ds) = r.expect("case must not matter");
    assert_eq!(c.instructions.len(), 2);
    assert_eq!(c.qubit_count, 2);
    assert_eq!(c.measure_targets, Some(vec![1]));
    assert!(ds.is_empty());
}

#[test]
fn line_numbers_count_blank_lines() {
    assert_eq!(
        parse("\n\nH 0").err(),
        Some(ParseError::OrderViolation { line: 3 })
    );
}

#[test]
fn carriage_returns_are_whitespace() {
    let r = parse("QUBITS 1\r\nH 0\r\n");
    let (c, _ds) = r.expect("dos line endings should parse");
    assert_eq!(c.instructions.len(), 1);
    assert_eq!(c.instructions[0].targets, vec![0]);
}

#[test]
fn largest_count_is_accepted() {
    let r = parse("QUBITS 18446744073709551615");
    let (c, _ds) = r.expect("a count that fits the machine word parses");
    assert_eq!(c.qubit_count, usize::MAX);
}

#[test]
fn serializer_renders_mnemonics_and_targets() {
    let (c, _ds) = parse("QUBITS 2\nH 0\nCNOT 0 1").expect("parses");
    let text: String = serialize_instructions(&c.instructions).into_iter().collect();
    assert_eq!(text, "H 0\nCNOT 0 1\n");
}

#[test]
fn round_trip_preserves_the_instruction_sequence() {
    let (c, _ds) = parse("QUBITS 3\nh 2\nx 0\ny 1\nz 2\ns 0\nt 1\ncnot 1 2").expect("parses");
    let body: String = serialize_instructions(&c.instructions).into_iter().collect();
    let text = format!("QUBITS {}\n{}", c.qubit_count, body);
    let (c2, ds2) = parse(&text).expect("re-parsing serialized text succeeds");
    assert_eq!(c2.qubit_count, c.qubit_count);
    assert!(c2.measure_targets.is_none());
    assert!(ds2.is_empty());
    assert_eq!(c2.instructions.len(), c.instructions.len());
    for (a, b) in c.instructions.iter().zip(c2.instructions.iter()) {
        assert_eq!(a.mnemonic, b.mnemonic);
        assert_eq!(a.targets, b.targets);
    }
}

#[test]
fn extract_bits_follows_target_order() {
    let outcome: usize = 0b110;
    let bits = extract_bits(outcome, &vec![1, 2, 0]);
    assert_eq!(bits, vec![1, 1, 0]);
}

#[test]
fn extract_bits_of_zero_outcome_are_zero() {
    let bits = extract_bits(0, &vec![0, 5, 63]);
    assert_eq!(bits, vec![0, 0, 0]);
}

#[test]
fn circuit_getters_report_the_parse() {
    let (c, _ds) = parse("QUBITS 4\nH 3\nMEASURE 3 0").expect("parses");
    assert_eq!(c.len(), 1);
    assert_eq!(c.qubit_count(), 4);
    assert_eq!(c.measure_targets(), &Some(vec![3, 0]));
}
