//! The general laws of the parse pass, proved over [`crate::parse::parse_spec`]:
//! missing and duplicate declarations, order violations, arity mismatches,
//! the halting effect of `MEASURE`, and the harmlessness of unknown
//! mnemonics.

use vstd::prelude::*;
use crate::lang::Mnemonic;
use crate::lang::ParseError;
use crate::lang::ParseState;
use crate::lang::SpecDiagnostic;
use crate::lang::SpecInstruction;
use crate::lang::arity;
use crate::numeral::is_numeral;
use crate::parse::Keyword;
use crate::parse::SpecOutcome;
use crate::parse::classify;
use crate::parse::initial_state;
use crate::parse::operand_vals;
use crate::parse::operands_ok;
use crate::parse::parse_lines;
use crate::parse::parse_spec;
use crate::parse::validate_spec;
use crate::scan::lines_of;
use crate::scan::split_lines;
use crate::scan::tokens_of;

verus! {

/// A line the parse pass always passes over without effect on the state:
/// blank, or led by an unknown mnemonic.
pub open spec fn inert_line(l: Seq<char>) -> bool {
    tokens_of(l).len() == 0 || classify(tokens_of(l)[0]) == Keyword::Unknown
}

/// A gate line that validates in any declared state: a known gate, the
/// arity it requires, and well-formed operands.
pub open spec fn valid_gate_line(l: Seq<char>) -> bool {
    let toks = tokens_of(l);
    &&& toks.len() > 0
    &&& classify(toks[0]) is Gate
    &&& toks.len() - 1 == arity(classify(toks[0])->Gate_0)
    &&& operands_ok(toks)
}

/// A line that leaves a declared, unmeasured state declared and unmeasured.
pub open spec fn benign_line(l: Seq<char>) -> bool {
    inert_line(l) || valid_gate_line(l)
}

/// There are never more lines than characters, plus one.
proof fn lemma_split_lines_len(s: Seq<char>, i: int, cur: Seq<char>)
    requires
        0 <= i <= s.len(),
    ensures
        split_lines(s, i, cur).len() <= s.len() - i + 1,
    decreases s.len() - i,
{
    if i < s.len() {
        if s[i] == '\n' {
            lemma_split_lines_len(s, i + 1, seq![]);
        } else {
            lemma_split_lines_len(s, i + 1, cur.push(s[i]));
        }
    }
}

/// Whether and how a parse pass fails does not depend on the instructions
/// and diagnostics accumulated so far.
proof fn lemma_acc_congruence(
    lines: Seq<Seq<char>>,
    k: int,
    st: ParseState,
    i1: Seq<SpecInstruction>,
    d1: Seq<SpecDiagnostic>,
    i2: Seq<SpecInstruction>,
    d2: Seq<SpecDiagnostic>,
)
    ensures
        (parse_lines(lines, k, st, i1, d1) is Err) == (parse_lines(lines, k, st, i2, d2) is Err),
        parse_lines(lines, k, st, i1, d1) is Err ==> parse_lines(lines, k, st, i1, d1)
            == parse_lines(lines, k, st, i2, d2),
    decreases lines.len() - k,
{
    if 0 <= k < lines.len() {
        let toks = tokens_of(lines[k]);
        if toks.len() == 0 {
            lemma_acc_congruence(lines, k + 1, st, i1, d1, i2, d2);
        } else {
            let line = (k + 1) as usize;
            match validate_spec(toks, st, line) {
                Err(_e) => {
                },
                Ok(SpecOutcome::Declared { count }) => {
                    lemma_acc_congruence(
                        lines,
                        k + 1,
                        ParseState { qubit_count: Some(count), measured: st.measured },
                        i1,
                        d1,
                        i2,
                        d2,
                    );
                },
                Ok(SpecOutcome::Gate { instruction }) => {
                    lemma_acc_congruence(
                        lines,
                        k + 1,
                        st,
                        i1.push(instruction),
                        d1,
                        i2.push(instruction),
                        d2,
                    );
                },
                Ok(SpecOutcome::Measure { targets: _ }) => {
                },
                Ok(SpecOutcome::Unknown { mnemonic }) => {
                    lemma_acc_congruence(
                        lines,
                        k + 1,
                        st,
                        i1,
                        d1.push(SpecDiagnostic { line, mnemonic }),
                        i2,
                        d2.push(SpecDiagnostic { line, mnemonic }),
                    );
                },
            }
        }
    }
}

/// A run of inert lines changes nothing about whether and how the pass
/// fails.
proof fn lemma_inert_advance(
    lines: Seq<Seq<char>>,
    k: int,
    j: int,
    st: ParseState,
    instrs: Seq<SpecInstruction>,
    diags: Seq<SpecDiagnostic>,
)
    requires
        0 <= k <= j <= lines.len(),
        forall|m: int| k <= m < j ==> inert_line(#[trigger] lines[m]),
    ensures
        (parse_lines(lines, k, st, instrs, diags) is Err) == (parse_lines(
            lines,
            j,
            st,
            instrs,
            diags,
        ) is Err),
        parse_lines(lines, j, st, instrs, diags) is Err ==> parse_lines(lines, k, st, instrs, diags)
            == parse_lines(lines, j, st, instrs, diags),
    decreases j - k,
{
    if k < j {
        assert(inert_line(lines[k]));
        let toks = tokens_of(lines[k]);
        if toks.len() == 0 {
            lemma_inert_advance(lines, k + 1, j, st, instrs, diags);
        } else {
            let line = (k + 1) as usize;
            assert(validate_spec(toks, st, line) == Ok::<SpecOutcome, ParseError>(
                SpecOutcome::Unknown { mnemonic: toks[0] },
            ));
            let d2 = diags.push(SpecDiagnostic { line, mnemonic: toks[0] });
            lemma_acc_congruence(lines, k + 1, st, instrs, d2, instrs, diags);
            lemma_inert_advance(lines, k + 1, j, st, instrs, diags);
        }
    }
}

/// A run of benign lines, in a declared and unmeasured state, changes
/// nothing about whether and how the pass fails.
proof fn lemma_benign_advance(
    lines: Seq<Seq<char>>,
    k: int,
    j: int,
    n: usize,
    instrs: Seq<SpecInstruction>,
    diags: Seq<SpecDiagnostic>,
)
    requires
        0 <= k <= j <= lines.len(),
        forall|m: int| k <= m < j ==> benign_line(#[trigger] lines[m]),
    ensures
        ({
            let st = ParseState { qubit_count: Some(n), measured: false };
            &&& (parse_lines(lines, k, st, instrs, diags) is Err) == (parse_lines(
                lines,
                j,
                st,
                instrs,
                diags,
            ) is Err)
            &&& (parse_lines(lines, j, st, instrs, diags) is Err ==> parse_lines(
                lines,
                k,
                st,
                instrs,
                diags,
            ) == parse_lines(lines, j, st, instrs, diags))
        }),
    decreases j - k,
{
    let st = ParseState { qubit_count: Some(n), measured: false };
    if k < j {
        assert(benign_line(lines[k]));
        let toks = tokens_of(lines[k]);
        if toks.len() == 0 {
            lemma_benign_advance(lines, k + 1, j, n, instrs, diags);
        } else {
            let line = (k + 1) as usize;
            if classify(toks[0]) == Keyword::Unknown {
                assert(validate_spec(toks, st, line) == Ok::<SpecOutcome, ParseError>(
                    SpecOutcome::Unknown { mnemonic: toks[0] },
                ));
                let d2 = diags.push(SpecDiagnostic { line, mnemonic: toks[0] });
                lemma_acc_congruence(lines, k + 1, st, instrs, d2, instrs, diags);
                lemma_benign_advance(lines, k + 1, j, n, instrs, diags);
            } else {
                assert(valid_gate_line(lines[k]));
                let m = classify(toks[0])->Gate_0;
                let si = SpecInstruction { mnemonic: m, targets: operand_vals(toks), line };
                assert(validate_spec(toks, st, line) == Ok::<SpecOutcome, ParseError>(
                    SpecOutcome::Gate { instruction: si },
                ));
                let i2 = instrs.push(si);
                lemma_acc_congruence(lines, k + 1, st, i2, diags, instrs, diags);
                lemma_benign_advance(lines, k + 1, j, n, instrs, diags);
            }
        }
    }
}

/// A program whose every line is blank or led by an unknown mnemonic never
/// declares a qubit count, so parsing fails with `MissingDeclaration`.
///
/// (A known gate or measurement line in such a program would fail earlier,
/// with `OrderViolation`.)
pub proof fn lemma_missing_declaration(s: Seq<char>)
    requires
        forall|m: int| 0 <= m < lines_of(s).len() ==> inert_line(#[trigger] lines_of(s)[m]),
    ensures
        parse_spec(s) == Err::<crate::parse::SpecOutput, ParseError>(
            ParseError::MissingDeclaration,
        ),
{
    let lines = lines_of(s);
    let st = initial_state();
    assert(parse_lines(lines, lines.len() as int, st, seq![], seq![]) == Err::<
        crate::parse::SpecOutput,
        ParseError,
    >(ParseError::MissingDeclaration));
    lemma_inert_advance(lines, 0, lines.len() as int, st, seq![], seq![]);
}

/// A known gate or measurement line before any `QUBITS` declaration fails
/// with `OrderViolation` at that line, whatever follows it.
pub proof fn lemma_order_violation(s: Seq<char>, k: int)
    requires
        s.len() < usize::MAX,
        0 <= k < lines_of(s).len(),
        forall|m: int| 0 <= m < k ==> inert_line(#[trigger] lines_of(s)[m]),
        tokens_of(lines_of(s)[k]).len() > 0,
        classify(tokens_of(lines_of(s)[k])[0]) is Gate || classify(
            tokens_of(lines_of(s)[k])[0],
        ) == Keyword::Measure,
    ensures
        parse_spec(s) == Err::<crate::parse::SpecOutput, ParseError>(
            (ParseError::OrderViolation { line: (k + 1) as usize }),
        ),
{
    let lines = lines_of(s);
    let st = initial_state();
    lemma_split_lines_len(s, 0, seq![]);
    assert(k + 1 <= usize::MAX);
    let toks = tokens_of(lines[k]);
    let line = (k + 1) as usize;
    assert(validate_spec(toks, st, line) == Err::<SpecOutcome, ParseError>(
        (ParseError::OrderViolation { line }),
    ));
    assert(parse_lines(lines, k, st, seq![], seq![]) == Err::<crate::parse::SpecOutput,
        ParseError,
    >((ParseError::OrderViolation { line })));
    lemma_inert_advance(lines, 0, k, st, seq![], seq![]);
}

/// A second `QUBITS` line fails with `DuplicateDeclaration` citing the
/// second occurrence, when the first declaration is well formed and the
/// lines between are blank, unknown or valid gate lines.
pub proof fn lemma_duplicate_declaration(s: Seq<char>, i: int, j: int)
    requires
        s.len() < usize::MAX,
        0 <= i < j < lines_of(s).len(),
        forall|m: int| 0 <= m < i ==> inert_line(#[trigger] lines_of(s)[m]),
        tokens_of(lines_of(s)[i]).len() == 2,
        classify(tokens_of(lines_of(s)[i])[0]) == Keyword::Qubits,
        is_numeral(tokens_of(lines_of(s)[i])[1]),
        forall|m: int| i < m < j ==> benign_line(#[trigger] lines_of(s)[m]),
        tokens_of(lines_of(s)[j]).len() > 0,
        classify(tokens_of(lines_of(s)[j])[0]) == Keyword::Qubits,
    ensures
        parse_spec(s) == Err::<crate::parse::SpecOutput, ParseError>(
            (ParseError::DuplicateDeclaration { line: (j + 1) as usize }),
        ),
{
    let lines = lines_of(s);
    let st0 = initial_state();
    lemma_split_lines_len(s, 0, seq![]);
    let itoks = tokens_of(lines[i]);
    let iline = (i + 1) as usize;
    let count = (crate::numeral::num_val(itoks[1]) as usize);
    assert(validate_spec(itoks, st0, iline) == Ok::<SpecOutcome, ParseError>(
        (SpecOutcome::Declared { count }),
    ));
    let st1 = ParseState { qubit_count: Some(count), measured: false };
    // at line j, in the declared state, the duplicate is fatal
    let jtoks = tokens_of(lines[j]);
    let jline = (j + 1) as usize;
    assert(validate_spec(jtoks, st1, jline) == Err::<SpecOutcome, ParseError>(
        (ParseError::DuplicateDeclaration { line: jline }),
    ));
    assert(parse_lines(lines, j, st1, seq![], seq![]) == Err::<crate::parse::SpecOutput,
        ParseError,
    >((ParseError::DuplicateDeclaration { line: jline })));
    lemma_benign_advance(lines, i + 1, j, count, seq![], seq![]);
    assert(parse_lines(lines, i, st0, seq![], seq![]) == parse_lines(
        lines,
        i + 1,
        st1,
        seq![],
        seq![],
    ));
    lemma_inert_advance(lines, 0, i, st0, seq![], seq![]);
}

/// A single-qubit gate given anything but one target fails with
/// `ArityMismatch` reporting one expected target and the count supplied.
pub proof fn lemma_single_qubit_arity(toks: Seq<Seq<char>>, st: ParseState, line: usize)
    requires
        toks.len() > 0,
        classify(toks[0]) is Gate,
        arity(classify(toks[0])->Gate_0) == 1,
        st.qubit_count is Some,
        toks.len() != 2,
    ensures
        validate_spec(toks, st, line) == Err::<SpecOutcome, ParseError>(
            (ParseError::ArityMismatch { line, expected: 1, actual: (toks.len() - 1) as usize }),
        ),
{
}

/// `CNOT` given anything but two targets fails with `ArityMismatch`
/// reporting two expected targets and the count supplied.
pub proof fn lemma_cnot_arity(toks: Seq<Seq<char>>, st: ParseState, line: usize)
    requires
        toks.len() > 0,
        classify(toks[0]) == Keyword::Gate(Mnemonic::Cnot),
        st.qubit_count is Some,
        toks.len() != 3,
    ensures
        validate_spec(toks, st, line) == Err::<SpecOutcome, ParseError>(
            (ParseError::ArityMismatch { line, expected: 2, actual: (toks.len() - 1) as usize }),
        ),
{
}

/// Appending lines to a program that was accepted with a measurement
/// request changes nothing: the pass halted at the `MEASURE` line and the
/// extra lines are never validated and never added.
proof fn lemma_parse_lines_append(
    lines: Seq<Seq<char>>,
    extra: Seq<Seq<char>>,
    k: int,
    st: ParseState,
    instrs: Seq<SpecInstruction>,
    diags: Seq<SpecDiagnostic>,
)
    requires
        0 <= k <= lines.len(),
        parse_lines(lines, k, st, instrs, diags) is Ok,
        parse_lines(lines, k, st, instrs, diags)->Ok_0.measure_targets is Some,
    ensures
        parse_lines(lines + extra, k, st, instrs, diags) == parse_lines(
            lines,
            k,
            st,
            instrs,
            diags,
        ),
    decreases lines.len() - k,
{
    if k < lines.len() {
        assert((lines + extra)[k] == lines[k]);
        let toks = tokens_of(lines[k]);
        if toks.len() == 0 {
            lemma_parse_lines_append(lines, extra, k + 1, st, instrs, diags);
        } else {
            let line = (k + 1) as usize;
            match validate_spec(toks, st, line) {
                Err(_e) => {
                },
                Ok(SpecOutcome::Declared { count }) => {
                    lemma_parse_lines_append(
                        lines,
                        extra,
                        k + 1,
                        ParseState { qubit_count: Some(count), measured: st.measured },
                        instrs,
                        diags,
                    );
                },
                Ok(SpecOutcome::Gate { instruction }) => {
                    lemma_parse_lines_append(
                        lines,
                        extra,
                        k + 1,
                        st,
                        instrs.push(instruction),
                        diags,
                    );
                },
                Ok(SpecOutcome::Measure { targets: _ }) => {
                },
                Ok(SpecOutcome::Unknown { mnemonic }) => {
                    lemma_parse_lines_append(
                        lines,
                        extra,
                        k + 1,
                        st,
                        instrs,
                        diags.push(SpecDiagnostic { line, mnemonic }),
                    );
                },
            }
        }
    }
}

/// Splitting lines distributes over concatenation at a line boundary.
proof fn lemma_split_shift(t: Seq<char>, i: int, j: int, cur: Seq<char>)
    requires
        0 <= i,
        0 <= j,
        i <= t.len(),
    ensures
        split_lines(t.skip(i), j, cur) == split_lines(t, i + j, cur),
    decreases t.len() - i - j,
{
    if i + j < t.len() {
        assert(t.skip(i)[j] == t[i + j]);
        if t[i + j] == '\n' {
            lemma_split_shift(t, i, j + 1, seq![]);
        } else {
            lemma_split_shift(t, i, j + 1, cur.push(t[i + j]));
        }
    } else {
        assert(j >= t.skip(i).len());
    }
}

proof fn lemma_split_append(s: Seq<char>, extra: Seq<char>, i: int, cur: Seq<char>)
    requires
        s.len() > 0,
        s[s.len() - 1] == '\n',
        0 <= i <= s.len(),
        i < s.len() || cur == Seq::<char>::empty(),
    ensures
        split_lines(s + extra, i, cur) == split_lines(s, i, cur) + split_lines(
            extra,
            0,
            seq![],
        ),
    decreases s.len() - i,
{
    if i == s.len() {
        lemma_split_shift(s + extra, s.len() as int, 0, seq![]);
        assert((s + extra).skip(s.len() as int) =~= extra);
        assert(split_lines(s, i, cur) =~= Seq::<Seq<char>>::empty());
        assert(Seq::<Seq<char>>::empty() + split_lines(extra, 0, seq![]) =~= split_lines(
            extra,
            0,
            seq![],
        ));
    } else {
        assert((s + extra)[i] == s[i]);
        if s[i] == '\n' {
            lemma_split_append(s, extra, i + 1, seq![]);
            assert(seq![cur] + (split_lines(s, i + 1, seq![]) + split_lines(extra, 0, seq![]))
                =~= (seq![cur] + split_lines(s, i + 1, seq![])) + split_lines(
                extra,
                0,
                seq![],
            ));
        } else {
            assert(i + 1 < s.len());
            assert(i + 1 < s.len());
            lemma_split_append(s, extra, i + 1, cur.push(s[i]));
        }
    }
}

/// A `MEASURE` line halts instruction accumulation: whatever text follows
/// a program that was accepted with a measurement — even text that would
/// otherwise be invalid — is neither validated nor added, and the result
/// is unchanged.
pub proof fn lemma_measure_halts(s: Seq<char>, extra: Seq<char>)
    requires
        s.len() > 0,
        s[s.len() - 1] == '\n',
        parse_spec(s) is Ok,
        parse_spec(s)->Ok_0.measure_targets is Some,
    ensures
        parse_spec(s + extra) == parse_spec(s),
{
    lemma_split_append(s, extra, 0, seq![]);
    assert(lines_of(s + extra) == lines_of(s) + lines_of(extra));
    lemma_parse_lines_append(
        lines_of(s),
        lines_of(extra),
        0,
        initial_state(),
        seq![],
        seq![],
    );
}

/// An unknown mnemonic is never fatal: whatever the state and whatever
/// follows it on its line, the line validates to a diagnostic and nothing
/// else.
pub proof fn lemma_unknown_never_fatal(toks: Seq<Seq<char>>, st: ParseState, line: usize)
    requires
        toks.len() > 0,
        classify(toks[0]) == Keyword::Unknown,
    ensures
        validate_spec(toks, st, line) == Ok::<SpecOutcome, ParseError>(
            (SpecOutcome::Unknown { mnemonic: toks[0] }),
        ),
{
}

/// Every instruction of an accepted parse comes from a line whose first
/// token classifies as that instruction's gate, with its targets the
/// line's operand values: unknown mnemonics (and framing lines) never
/// appear in the instruction list.
proof fn lemma_instructions_from_gate_lines_rec(
    lines: Seq<Seq<char>>,
    k: int,
    st: ParseState,
    instrs: Seq<SpecInstruction>,
    diags: Seq<SpecDiagnostic>,
)
    requires
        0 <= k <= lines.len(),
        lines.len() <= usize::MAX,
        parse_lines(lines, k, st, instrs, diags) is Ok,
        forall|x: int| 0 <= x < instrs.len() ==> gate_line_origin(lines, #[trigger] instrs[x]),
    ensures
        forall|x: int|
            0 <= x < parse_lines(lines, k, st, instrs, diags)->Ok_0.instructions.len()
                ==> gate_line_origin(
                lines,
                #[trigger] parse_lines(lines, k, st, instrs, diags)->Ok_0.instructions[x],
            ),
    decreases lines.len() - k,
{
    if k < lines.len() {
        let toks = tokens_of(lines[k]);
        if toks.len() == 0 {
            lemma_instructions_from_gate_lines_rec(lines, k + 1, st, instrs, diags);
        } else {
            let line = (k + 1) as usize;
            match validate_spec(toks, st, line) {
                Err(_e) => {
                },
                Ok(SpecOutcome::Declared { count }) => {
                    lemma_instructions_from_gate_lines_rec(
                        lines,
                        k + 1,
                        ParseState { qubit_count: Some(count), measured: st.measured },
                        instrs,
                        diags,
                    );
                },
                Ok(SpecOutcome::Gate { instruction }) => {
                    assert(gate_line_origin(lines, instruction));
                    assert(forall|x: int|
                        0 <= x < instrs.push(instruction).len() ==> gate_line_origin(
                            lines,
                            #[trigger] instrs.push(instruction)[x],
                        ));
                    lemma_instructions_from_gate_lines_rec(
                        lines,
                        k + 1,
                        st,
                        instrs.push(instruction),
                        diags,
                    );
                },
                Ok(SpecOutcome::Measure { targets: _ }) => {
                },
                Ok(SpecOutcome::Unknown { mnemonic }) => {
                    lemma_instructions_from_gate_lines_rec(
                        lines,
                        k + 1,
                        st,
                        instrs,
                        diags.push(SpecDiagnostic { line, mnemonic }),
                    );
                },
            }
        }
    }
}

/// An instruction's provenance: its recorded line exists, its first token
/// is a known gate naming the instruction's own mnemonic, and its targets
/// are that line's operand values.
pub open spec fn gate_line_origin(lines: Seq<Seq<char>>, si: SpecInstruction) -> bool {
    let toks = tokens_of(lines[si.line - 1]);
    &&& 1 <= si.line <= lines.len()
    &&& toks.len() > 0
    &&& classify(toks[0]) == Keyword::Gate(si.mnemonic)
    &&& si.targets == operand_vals(toks)
}

/// Unknown mnemonics never appear in an accepted circuit: every
/// instruction originates from a line whose first token classifies as the
/// instruction's gate.
pub proof fn lemma_instructions_from_gate_lines(s: Seq<char>)
    requires
        s.len() < usize::MAX,
        parse_spec(s) is Ok,
    ensures
        forall|x: int|
            0 <= x < parse_spec(s)->Ok_0.instructions.len() ==> gate_line_origin(
                lines_of(s),
                #[trigger] parse_spec(s)->Ok_0.instructions[x],
            ),
{
    lemma_split_lines_len(s, 0, seq![]);
    lemma_instructions_from_gate_lines_rec(
        lines_of(s),
        0,
        initial_state(),
        seq![],
        seq![],
    );
}

} // verus!
