//! The per-line validator and the parse pass: mnemonic classification,
//! operand checking, and the left-to-right fold that builds a circuit,
//! short-circuiting on the first fatal error and halting at `MEASURE`.

use vstd::prelude::*;
use crate::lang::Circuit;
use crate::lang::Diagnostic;
use crate::lang::Instruction;
use crate::lang::Mnemonic;
use crate::lang::ParseError;
use crate::lang::ParseState;
use crate::lang::SpecDiagnostic;
use crate::lang::SpecInstruction;
use crate::lang::arity;
use crate::lang::instruction_wf;
use crate::lang::instructions_wf;
use crate::numeral::is_numeral;
use crate::numeral::num_val;
use crate::numeral::parse_usize;
use crate::scan::lines_of;
use crate::scan::split_program;
use crate::scan::to_char_vec;
use crate::scan::tokenize_line;
use crate::scan::tokens_of;

verus! {

/// ASCII upper-casing of one character; mnemonics compare case-insensitively.
pub open spec fn upper(c: char) -> char {
    if 97 <= (c as u32) && (c as u32) <= 122 {
        (((c as u8) - 32) as char)
    } else {
        c
    }
}

/// ASCII upper-casing of a token.
pub open spec fn upper_seq(t: Seq<char>) -> Seq<char> {
    Seq::new(t.len(), |i: int| upper(t[i]))
}

fn to_upper(c: char) -> (r: char)
    ensures
        r == upper(c),
{
    let u: u32 = c as u32;
    if 97 <= u && u <= 122 {
        ((c as u8) - 32) as char
    } else {
        c
    }
}

/// What the first token of a line can mean.
#[derive(Clone, Copy, PartialEq, Eq, Structural, Debug)]
pub enum Keyword {
    /// The qubit-count declaration `QUBITS`.
    Qubits,
    /// One of the fixed gates.
    Gate(Mnemonic),
    /// The measurement request `MEASURE`.
    Measure,
    /// Anything else: reported as a diagnostic, never fatal.
    Unknown,
}

/// Classifies a mnemonic token, case-insensitively.
pub open spec fn classify(t: Seq<char>) -> Keyword {
    let u = upper_seq(t);
    if u == seq!['Q', 'U', 'B', 'I', 'T', 'S'] {
        Keyword::Qubits
    } else if u == seq!['H'] {
        Keyword::Gate(Mnemonic::H)
    } else if u == seq!['X'] {
        Keyword::Gate(Mnemonic::X)
    } else if u == seq!['Y'] {
        Keyword::Gate(Mnemonic::Y)
    } else if u == seq!['Z'] {
        Keyword::Gate(Mnemonic::Z)
    } else if u == seq!['S'] {
        Keyword::Gate(Mnemonic::S)
    } else if u == seq!['T'] {
        Keyword::Gate(Mnemonic::T)
    } else if u == seq!['C', 'N', 'O', 'T'] {
        Keyword::Gate(Mnemonic::Cnot)
    } else if u == seq!['M', 'E', 'A', 'S', 'U', 'R', 'E'] {
        Keyword::Measure
    } else {
        Keyword::Unknown
    }
}

/// Classifies a mnemonic token.
pub fn classify_token(t: &Vec<char>) -> (k: Keyword)
    ensures
        k == classify(t@),
{
    let n = t.len();
    let mut u: Vec<char> = Vec::new();
    let mut i: usize = 0;
    while i < n
        invariant
            0 <= i <= n,
            n == t@.len(),
            u@ == upper_seq(t@).take(i as int),
        decreases n - i,
    {
        u.push(to_upper(t[i]));
        i = i + 1;
        proof {
            assert(u@ =~= upper_seq(t@).take(i as int));
        }
    }
    proof {
        assert(u@ =~= upper_seq(t@));
    }
    if n == 1 {
        let c = u[0];
        if c == 'H' {
            proof {
                assert(upper_seq(t@) =~= seq!['H']);
            }
            Keyword::Gate(Mnemonic::H)
        } else if c == 'X' {
            proof {
                assert(upper_seq(t@) =~= seq!['X']);
            }
            Keyword::Gate(Mnemonic::X)
        } else if c == 'Y' {
            proof {
                assert(upper_seq(t@) =~= seq!['Y']);
            }
            Keyword::Gate(Mnemonic::Y)
        } else if c == 'Z' {
            proof {
                assert(upper_seq(t@) =~= seq!['Z']);
            }
            Keyword::Gate(Mnemonic::Z)
        } else if c == 'S' {
            proof {
                assert(upper_seq(t@) =~= seq!['S']);
            }
            Keyword::Gate(Mnemonic::S)
        } else if c == 'T' {
            proof {
                assert(upper_seq(t@) =~= seq!['T']);
            }
            Keyword::Gate(Mnemonic::T)
        } else {
            Keyword::Unknown
        }
    } else if n == 4 {
        if u[0] == 'C' && u[1] == 'N' && u[2] == 'O' && u[3] == 'T' {
            proof {
                assert(upper_seq(t@) =~= seq!['C', 'N', 'O', 'T']);
            }
            Keyword::Gate(Mnemonic::Cnot)
        } else {
            Keyword::Unknown
        }
    } else if n == 6 {
        if u[0] == 'Q' && u[1] == 'U' && u[2] == 'B' && u[3] == 'I' && u[4] == 'T' && u[5]
            == 'S' {
            proof {
                assert(upper_seq(t@) =~= seq!['Q', 'U', 'B', 'I', 'T', 'S']);
            }
            Keyword::Qubits
        } else {
            Keyword::Unknown
        }
    } else if n == 7 {
        if u[0] == 'M' && u[1] == 'E' && u[2] == 'A' && u[3] == 'S' && u[4] == 'U' && u[5]
            == 'R' && u[6] == 'E' {
            proof {
                assert(upper_seq(t@) =~= seq!['M', 'E', 'A', 'S', 'U', 'R', 'E']);
            }
            Keyword::Measure
        } else {
            Keyword::Unknown
        }
    } else {
        Keyword::Unknown
    }
}

/// Every operand token (everything after the mnemonic) is a numeral.
pub open spec fn operands_ok(toks: Seq<Seq<char>>) -> bool {
    forall|i: int| 1 <= i < toks.len() ==> is_numeral(#[trigger] toks[i])
}

/// The operand values of a line, in the order written.
pub open spec fn operand_vals(toks: Seq<Seq<char>>) -> Seq<usize> {
    Seq::new((toks.len() - 1) as nat, |i: int| num_val(toks[i + 1]) as usize)
}

/// What a validated line contributes to the parse.
pub enum LineOutcome {
    /// A `QUBITS` line: sets the qubit count, produces no instruction.
    Declared { count: usize },
    /// A gate line: one instruction, appended in textual order.
    Gate { instruction: Instruction },
    /// A `MEASURE` line: records targets and halts the scan.
    Measure { targets: Vec<usize> },
    /// An unknown mnemonic: a diagnostic, the line is dropped.
    Unknown { mnemonic: Vec<char> },
}

/// The mathematical view of a [`LineOutcome`].
pub ghost enum SpecOutcome {
    Declared { count: usize },
    Gate { instruction: SpecInstruction },
    Measure { targets: Seq<usize> },
    Unknown { mnemonic: Seq<char> },
}

impl View for LineOutcome {
    type V = SpecOutcome;

    open spec fn view(&self) -> SpecOutcome {
        match self {
            LineOutcome::Declared { count } => SpecOutcome::Declared { count: *count },
            LineOutcome::Gate { instruction } => SpecOutcome::Gate {
                instruction: instruction@,
            },
            LineOutcome::Measure { targets } => SpecOutcome::Measure { targets: targets@ },
            LineOutcome::Unknown { mnemonic } => SpecOutcome::Unknown { mnemonic: mnemonic@ },
        }
    }
}

/// The per-line contract: given a line's tokens and the running state,
/// exactly which outcome or fatal error the line produces.
///
/// Checks run in this order: the mnemonic is classified first (an unknown
/// mnemonic is never fatal, whatever follows it); a known gate or
/// measurement before the declaration is an order violation; then the
/// operand count, then the operand syntax.  A duplicate `QUBITS` is fatal
/// at the duplicate line.
pub open spec fn validate_spec(toks: Seq<Seq<char>>, st: ParseState, line: usize) -> Result<
    SpecOutcome,
    ParseError,
>
    recommends
        toks.len() > 0,
{
    match classify(toks[0]) {
        Keyword::Qubits => {
            if st.qubit_count is Some {
                Err(ParseError::DuplicateDeclaration { line })
            } else if toks.len() != 2 {
                Err(
                    ParseError::ArityMismatch {
                        line,
                        expected: 1,
                        actual: (toks.len() - 1) as usize,
                    },
                )
            } else if !is_numeral(toks[1]) {
                Err(ParseError::MalformedOperand { line })
            } else {
                Ok(SpecOutcome::Declared { count: num_val(toks[1]) as usize })
            }
        },
        Keyword::Gate(m) => {
            if st.qubit_count is None {
                Err(ParseError::OrderViolation { line })
            } else if toks.len() - 1 != arity(m) {
                Err(
                    ParseError::ArityMismatch {
                        line,
                        expected: arity(m) as usize,
                        actual: (toks.len() - 1) as usize,
                    },
                )
            } else if !operands_ok(toks) {
                Err(ParseError::MalformedOperand { line })
            } else {
                Ok(
                    SpecOutcome::Gate {
                        instruction: SpecInstruction {
                            mnemonic: m,
                            targets: operand_vals(toks),
                            line,
                        },
                    },
                )
            }
        },
        Keyword::Measure => {
            if st.qubit_count is None {
                Err(ParseError::OrderViolation { line })
            } else if toks.len() < 2 {
                Err(ParseError::ArityMismatch { line, expected: 1, actual: 0 })
            } else if st.measured {
                Err(ParseError::DuplicateDeclaration { line })
            } else if !operands_ok(toks) {
                Err(ParseError::MalformedOperand { line })
            } else {
                Ok(SpecOutcome::Measure { targets: operand_vals(toks) })
            }
        },
        Keyword::Unknown => Ok(SpecOutcome::Unknown { mnemonic: toks[0] }),
    }
}

/// Copies a token's characters.
fn copy_chars(v: &Vec<char>) -> (r: Vec<char>)
    ensures
        r@ == v@,
{
    let mut r: Vec<char> = Vec::new();
    let n = v.len();
    let mut i: usize = 0;
    while i < n
        invariant
            0 <= i <= n,
            n == v@.len(),
            r@ == v@.take(i as int),
        decreases n - i,
    {
        r.push(v[i]);
        i = i + 1;
        proof {
            assert(r@ =~= v@.take(i as int));
        }
    }
    proof {
        assert(v@.take(n as int) =~= v@);
    }
    r
}

/// Reads every operand token of a line as a machine integer, left to right.
fn parse_operands(tokens: &Vec<Vec<char>>) -> (r: Option<Vec<usize>>)
    requires
        tokens@.len() >= 1,
    ensures
        match r {
            Some(v) => operands_ok(tokens.deep_view()) && v@ == operand_vals(
                tokens.deep_view(),
            ),
            None => !operands_ok(tokens.deep_view()),
        },
{
    let ghost toks = tokens.deep_view();
    let mut v: Vec<usize> = Vec::new();
    let n = tokens.len();
    let mut i: usize = 1;
    while i < n
        invariant
            1 <= i <= n,
            n == tokens@.len(),
            toks == tokens.deep_view(),
            toks.len() == n,
            forall|j: int| 1 <= j < i ==> is_numeral(#[trigger] toks[j]),
            v@.len() == i - 1,
            forall|j: int| 0 <= j < i - 1 ==> v@[j] == num_val(#[trigger] toks[j + 1]) as usize,
        decreases n - i,
    {
        proof {
            assert(toks[i as int] == tokens@[i as int].deep_view());
            assert(tokens@[i as int].deep_view() =~= tokens@[i as int]@);
        }
        match parse_usize(&tokens[i]) {
            None => {
                return None;
            },
            Some(x) => {
                v.push(x);
            },
        }
        i = i + 1;
    }
    proof {
        assert(v@ =~= operand_vals(toks));
    }
    Some(v)
}

/// Validates one non-blank line against the running parse state.
pub fn validate_line(tokens: &Vec<Vec<char>>, state: &ParseState, line: usize) -> (r: Result<
    LineOutcome,
    ParseError,
>)
    requires
        tokens@.len() > 0,
    ensures
        match r {
            Ok(o) => validate_spec(tokens.deep_view(), *state, line) == Ok::<
                SpecOutcome,
                ParseError,
            >(o@),
            Err(e) => validate_spec(tokens.deep_view(), *state, line) == Err::<
                SpecOutcome,
                ParseError,
            >(e),
        },
{
    let ghost toks = tokens.deep_view();
    proof {
        assert(toks[0] == tokens@[0].deep_view());
        assert(tokens@[0].deep_view() =~= tokens@[0]@);
    }
    let k = classify_token(&tokens[0]);
    match k {
        Keyword::Qubits => {
            if state.qubit_count.is_some() {
                Err(ParseError::DuplicateDeclaration { line })
            } else if tokens.len() != 2 {
                Err(
                    ParseError::ArityMismatch {
                        line,
                        expected: 1,
                        actual: tokens.len() - 1,
                    },
                )
            } else {
                proof {
                    assert(toks[1] == tokens@[1].deep_view());
                    assert(tokens@[1].deep_view() =~= tokens@[1]@);
                }
                match parse_usize(&tokens[1]) {
                    None => Err(ParseError::MalformedOperand { line }),
                    Some(count) => Ok(LineOutcome::Declared { count }),
                }
            }
        },
        Keyword::Gate(m) => {
            if state.qubit_count.is_none() {
                Err(ParseError::OrderViolation { line })
            } else {
                let need: usize = match m {
                    Mnemonic::Cnot => 2,
                    _ => 1,
                };
                proof {
                    assert(need == arity(m));
                }
                if tokens.len() - 1 != need {
                    Err(
                        ParseError::ArityMismatch {
                            line,
                            expected: need,
                            actual: tokens.len() - 1,
                        },
                    )
                } else {
                    match parse_operands(tokens) {
                        None => Err(ParseError::MalformedOperand { line }),
                        Some(targets) => Ok(
                            LineOutcome::Gate {
                                instruction: Instruction { mnemonic: m, targets, line },
                            },
                        ),
                    }
                }
            }
        },
        Keyword::Measure => {
            if state.qubit_count.is_none() {
                Err(ParseError::OrderViolation { line })
            } else if tokens.len() < 2 {
                Err(ParseError::ArityMismatch { line, expected: 1, actual: 0 })
            } else if state.measured {
                Err(ParseError::DuplicateDeclaration { line })
            } else {
                match parse_operands(tokens) {
                    None => Err(ParseError::MalformedOperand { line }),
                    Some(targets) => Ok(LineOutcome::Measure { targets }),
                }
            }
        },
        Keyword::Unknown => Ok(LineOutcome::Unknown { mnemonic: copy_chars(&tokens[0]) }),
    }
}

/// Everything an accepted parse yields: the instruction sequence, the
/// declared qubit count, the measurement targets if any, and the collected
/// unknown-mnemonic diagnostics.
pub ghost struct SpecOutput {
    pub instructions: Seq<SpecInstruction>,
    pub qubit_count: usize,
    pub measure_targets: Option<Seq<usize>>,
    pub diagnostics: Seq<SpecDiagnostic>,
}

/// The state a parse pass starts in: nothing declared, nothing measured.
pub open spec fn initial_state() -> ParseState {
    ParseState { qubit_count: None, measured: false }
}

/// The parse pass from line index `k` on, folding the per-line contract
/// over the lines with 1-based numbering.  Blank lines are skipped; the
/// first fatal error ends the pass; a `MEASURE` outcome ends it
/// successfully without looking at later lines; end of input without a
/// declaration is `MissingDeclaration`.
pub open spec fn parse_lines(
    lines: Seq<Seq<char>>,
    k: int,
    st: ParseState,
    instrs: Seq<SpecInstruction>,
    diags: Seq<SpecDiagnostic>,
) -> Result<SpecOutput, ParseError>
    decreases lines.len() - k,
{
    if k < 0 || k >= lines.len() {
        match st.qubit_count {
            Some(n) => Ok(
                SpecOutput {
                    instructions: instrs,
                    qubit_count: n,
                    measure_targets: None,
                    diagnostics: diags,
                },
            ),
            None => Err(ParseError::MissingDeclaration),
        }
    } else {
        let toks = tokens_of(lines[k]);
        if toks.len() == 0 {
            parse_lines(lines, k + 1, st, instrs, diags)
        } else {
            let line = (k + 1) as usize;
            match validate_spec(toks, st, line) {
                Err(e) => Err(e),
                Ok(SpecOutcome::Declared { count }) => parse_lines(
                    lines,
                    k + 1,
                    ParseState { qubit_count: Some(count), measured: st.measured },
                    instrs,
                    diags,
                ),
                Ok(SpecOutcome::Gate { instruction }) => parse_lines(
                    lines,
                    k + 1,
                    st,
                    instrs.push(instruction),
                    diags,
                ),
                Ok(SpecOutcome::Measure { targets }) => match st.qubit_count {
                    Some(n) => Ok(
                        SpecOutput {
                            instructions: instrs,
                            qubit_count: n,
                            measure_targets: Some(targets),
                            diagnostics: diags,
                        },
                    ),
                    None => Err(ParseError::MissingDeclaration),
                },
                Ok(SpecOutcome::Unknown { mnemonic }) => parse_lines(
                    lines,
                    k + 1,
                    st,
                    instrs,
                    diags.push(SpecDiagnostic { line, mnemonic }),
                ),
            }
        }
    }
}

/// What parsing a whole program text yields.
pub open spec fn parse_spec(s: Seq<char>) -> Result<SpecOutput, ParseError> {
    parse_lines(lines_of(s), 0, initial_state(), seq![], seq![])
}

/// The view of an optional target list.
pub open spec fn opt_view(o: Option<Vec<usize>>) -> Option<Seq<usize>> {
    match o {
        Some(v) => Some(v@),
        None => None,
    }
}

/// Parses a program text into a circuit and the non-fatal diagnostics, or
/// the first fatal error.  The result is exactly what [`parse_spec`] says
/// of the text, and every accepted instruction carries the arity its gate
/// requires.
pub fn parse(program: &str) -> (r: Result<(Circuit, Vec<Diagnostic>), ParseError>)
    ensures
        match r {
            Ok((c, ds)) => parse_spec(program@) == Ok::<SpecOutput, ParseError>(
                SpecOutput {
                    instructions: c.instructions.deep_view(),
                    qubit_count: c.qubit_count,
                    measure_targets: opt_view(c.measure_targets),
                    diagnostics: ds.deep_view(),
                },
            ) && instructions_wf(c.instructions.deep_view()),
            Err(e) => parse_spec(program@) == Err::<SpecOutput, ParseError>(e),
        },
{
    let chars = to_char_vec(program);
    let line_vecs = split_program(&chars);
    let ghost linesv = line_vecs.deep_view();
    let mut st = ParseState { qubit_count: None, measured: false };
    let mut instrs: Vec<Instruction> = Vec::new();
    let mut diags: Vec<Diagnostic> = Vec::new();
    let n = line_vecs.len();
    let mut k: usize = 0;
    proof {
        assert(instrs.deep_view() =~= Seq::<SpecInstruction>::empty());
        assert(diags.deep_view() =~= Seq::<SpecDiagnostic>::empty());
    }
    while k < n
        invariant
            0 <= k <= n,
            n == linesv.len(),
            linesv == line_vecs.deep_view(),
            linesv == lines_of(program@),
            parse_spec(program@) == parse_lines(
                linesv,
                k as int,
                st,
                instrs.deep_view(),
                diags.deep_view(),
            ),
            instructions_wf(instrs.deep_view()),
        decreases n - k,
    {
        proof {
            assert(linesv[k as int] == line_vecs@[k as int].deep_view());
            assert(line_vecs@[k as int].deep_view() =~= line_vecs@[k as int]@);
        }
        let toks = tokenize_line(&line_vecs[k]);
        if toks.len() == 0 {
            proof {
                assert(parse_lines(linesv, k as int, st, instrs.deep_view(), diags.deep_view())
                    == parse_lines(
                    linesv,
                    k as int + 1,
                    st,
                    instrs.deep_view(),
                    diags.deep_view(),
                ));
            }
        } else {
            let line = k + 1;
            match validate_line(&toks, &st, line) {
                Err(e) => {
                    return Err(e);
                },
                Ok(LineOutcome::Declared { count }) => {
                    st = ParseState { qubit_count: Some(count), measured: st.measured };
                },
                Ok(LineOutcome::Gate { instruction }) => {
                    let ghost iprev = instrs.deep_view();
                    proof {
                        assert(instruction@.targets.len() == arity(instruction@.mnemonic));
                    }
                    instrs.push(instruction);
                    proof {
                        assert(instrs.deep_view() =~~= iprev.push(instruction@));
                    }
                },
                Ok(LineOutcome::Measure { targets }) => {
                    match st.qubit_count {
                        Some(nq) => {
                            return Ok(
                                (
                                    Circuit {
                                        instructions: instrs,
                                        qubit_count: nq,
                                        measure_targets: Some(targets),
                                    },
                                    diags,
                                ),
                            );
                        },
                        None => {
                            return vstd::pervasive::unreached();
                        },
                    }
                },
                Ok(LineOutcome::Unknown { mnemonic }) => {
                    let ghost dprev = diags.deep_view();
                    let d = Diagnostic { line, mnemonic };
                    let ghost dv = d@;
                    diags.push(d);
                    proof {
                        assert(diags.deep_view() =~~= dprev.push(dv));
                    }
                },
            }
        }
        k = k + 1;
    }
    match st.qubit_count {
        Some(nq) => Ok(
            (
                Circuit { instructions: instrs, qubit_count: nq, measure_targets: None },
                diags,
            ),
        ),
        None => Err(ParseError::MissingDeclaration),
    }
}

} // verus!
