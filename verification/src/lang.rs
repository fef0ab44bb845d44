//! The data model of the language: instructions, circuits, errors and
//! diagnostics, together with their mathematical views.

use vstd::prelude::*;

verus! {

/// Gate mnemonics that an instruction can carry.  `QUBITS` and `MEASURE`
/// are framing lines, not instructions, so they are not listed here; an
/// unknown mnemonic never becomes an instruction at all.
#[derive(Clone, Copy, PartialEq, Eq, Structural, Debug)]
pub enum Mnemonic {
    H,
    X,
    Y,
    Z,
    S,
    T,
    Cnot,
}

/// The number of operand qubits each gate requires: 1 for the single-qubit
/// gates, 2 for `CNOT`.
pub open spec fn arity(m: Mnemonic) -> int {
    match m {
        Mnemonic::Cnot => 2,
        _ => 1,
    }
}

/// One validated gate application: a mnemonic, its operand qubit indices in
/// the order written, and the 1-based source line it came from.
pub struct Instruction {
    pub mnemonic: Mnemonic,
    pub targets: Vec<usize>,
    pub line: usize,
}

/// The mathematical view of an [`Instruction`].
pub ghost struct SpecInstruction {
    pub mnemonic: Mnemonic,
    pub targets: Seq<usize>,
    pub line: usize,
}

impl View for Instruction {
    type V = SpecInstruction;

    open spec fn view(&self) -> SpecInstruction {
        SpecInstruction { mnemonic: self.mnemonic, targets: self.targets@, line: self.line }
    }
}

impl DeepView for Instruction {
    type V = SpecInstruction;

    open spec fn deep_view(&self) -> SpecInstruction {
        self.view()
    }
}

/// An instruction is well formed when it carries exactly as many targets as
/// its gate requires.
pub open spec fn instruction_wf(si: SpecInstruction) -> bool {
    si.targets.len() == arity(si.mnemonic)
}

/// All instructions of a sequence are well formed.
pub open spec fn instructions_wf(instrs: Seq<SpecInstruction>) -> bool {
    forall|i: int| 0 <= i < instrs.len() ==> instruction_wf(#[trigger] instrs[i])
}

/// A validated program: gate applications in execution order, the
/// declared qubit count, and the measurement targets if a `MEASURE` line
/// was present.
pub struct Circuit {
    pub instructions: Vec<Instruction>,
    pub qubit_count: usize,
    pub measure_targets: Option<Vec<usize>>,
}

impl Circuit {
    /// How many gate applications the circuit holds.
    pub fn len(&self) -> (n: usize)
        ensures
            n == self.instructions@.len(),
    {
        self.instructions.len()
    }

    /// The declared qubit count.
    pub fn qubit_count(&self) -> (n: usize)
        ensures
            n == self.qubit_count,
    {
        self.qubit_count
    }

    /// The measurement targets, if a `MEASURE` line was accepted.
    pub fn measure_targets(&self) -> (r: &Option<Vec<usize>>)
        ensures
            r == &self.measure_targets,
    {
        &self.measure_targets
    }
}

/// The fatal parse errors.  Every fatal error except `MissingDeclaration`
/// cites the 1-based line it arose on; `MissingDeclaration` is an
/// end-of-input condition and has no single offending line.
#[derive(Clone, Copy, PartialEq, Eq, Structural, Debug)]
pub enum ParseError {
    /// A second `QUBITS` line (or, in principle, a second `MEASURE`) was seen.
    DuplicateDeclaration { line: usize },
    /// A mnemonic was given the wrong number of operands.
    ArityMismatch { line: usize, expected: usize, actual: usize },
    /// A gate or measurement line preceded the `QUBITS` declaration.
    OrderViolation { line: usize },
    /// An operand was not a base-10 non-negative integer fitting the machine.
    MalformedOperand { line: usize },
    /// End of input was reached without any `QUBITS` declaration.
    MissingDeclaration,
}

/// A non-fatal diagnostic: an unknown mnemonic, reported with its line and
/// the offending token; the line contributes no instruction.
pub struct Diagnostic {
    pub line: usize,
    pub mnemonic: Vec<char>,
}

/// The mathematical view of a [`Diagnostic`].
pub ghost struct SpecDiagnostic {
    pub line: usize,
    pub mnemonic: Seq<char>,
}

impl View for Diagnostic {
    type V = SpecDiagnostic;

    open spec fn view(&self) -> SpecDiagnostic {
        SpecDiagnostic { line: self.line, mnemonic: self.mnemonic@ }
    }
}

impl DeepView for Diagnostic {
    type V = SpecDiagnostic;

    open spec fn deep_view(&self) -> SpecDiagnostic {
        self.view()
    }
}

/// The running state of one parse pass: whether (and to what) the qubit
/// count has been declared, and whether a measurement has been recorded.
pub struct ParseState {
    pub qubit_count: Option<usize>,
    pub measured: bool,
}

} // verus!
