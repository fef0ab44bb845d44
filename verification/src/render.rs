//! Serialization of accepted instruction sequences back to mnemonic+target
//! text, and the proof that re-parsing such text (with the `QUBITS` framing
//! line reinserted) yields the same instruction sequence.

use vstd::prelude::*;
use crate::lang::Instruction;
use crate::lang::Mnemonic;
use crate::lang::ParseError;
use crate::lang::ParseState;
use crate::lang::SpecDiagnostic;
use crate::lang::SpecInstruction;
use crate::lang::arity;
use crate::lang::instruction_wf;
use crate::lang::instructions_wf;
use crate::numeral::dec_rep;
use crate::numeral::is_numeral;
use crate::numeral::lemma_dec_rep;
use crate::numeral::num_val;
use crate::numeral::render_usize;
use crate::parse::Keyword;
use crate::parse::SpecOutcome;
use crate::parse::SpecOutput;
use crate::parse::classify;
use crate::parse::initial_state;
use crate::parse::operand_vals;
use crate::parse::operands_ok;
use crate::parse::parse_lines;
use crate::parse::parse_spec;
use crate::parse::upper_seq;
use crate::parse::validate_spec;
use crate::scan::is_space;
use crate::scan::lines_of;
use crate::scan::split_lines;
use crate::scan::tokenize;
use crate::scan::tokens_of;

verus! {

/// The canonical (upper-case) spelling of a gate mnemonic.
pub open spec fn mnemonic_chars(m: Mnemonic) -> Seq<char> {
    match m {
        Mnemonic::H => seq!['H'],
        Mnemonic::X => seq!['X'],
        Mnemonic::Y => seq!['Y'],
        Mnemonic::Z => seq!['Z'],
        Mnemonic::S => seq!['S'],
        Mnemonic::T => seq!['T'],
        Mnemonic::Cnot => seq!['C', 'N', 'O', 'T'],
    }
}

/// The rendering of a target list: one leading blank before each decimal.
pub open spec fn render_targets(ts: Seq<usize>) -> Seq<char>
    decreases ts.len(),
{
    if ts.len() == 0 {
        seq![]
    } else {
        seq![' '] + dec_rep(ts[0] as int) + render_targets(ts.skip(1))
    }
}

/// The rendering of one instruction, without its line break.
pub open spec fn render_instruction(si: SpecInstruction) -> Seq<char> {
    mnemonic_chars(si.mnemonic) + render_targets(si.targets)
}

/// The rendering of an instruction sequence: one line per instruction,
/// each terminated by a line break.
pub open spec fn render_instructions(instrs: Seq<SpecInstruction>) -> Seq<char>
    decreases instrs.len(),
{
    if instrs.len() == 0 {
        seq![]
    } else {
        render_instruction(instrs[0]) + seq!['\n'] + render_instructions(instrs.skip(1))
    }
}

/// The `QUBITS` framing line for a declared count.
pub open spec fn qubits_line(n: usize) -> Seq<char> {
    seq!['Q', 'U', 'B', 'I', 'T', 'S'] + render_targets(seq![n]) + seq!['\n']
}

fn push_all(r: &mut Vec<char>, s: &Vec<char>)
    ensures
        final(r)@ == old(r)@ + s@,
{
    let n = s.len();
    let mut i: usize = 0;
    while i < n
        invariant
            0 <= i <= n,
            n == s@.len(),
            r@ == old(r)@ + s@.take(i as int),
        decreases n - i,
    {
        r.push(s[i]);
        i = i + 1;
        proof {
            assert(old(r)@ + s@.take(i - 1) + seq![s@[i - 1]] =~= old(r)@ + s@.take(i as int));
        }
    }
    proof {
        assert(old(r)@ + s@.take(n as int) =~= old(r)@ + s@);
    }
}

fn targets_text(ts: &Vec<usize>, i: usize) -> (r: Vec<char>)
    requires
        i <= ts@.len(),
    ensures
        r@ == render_targets(ts@.skip(i as int)),
    decreases ts@.len() - i,
{
    if i == ts.len() {
        let r: Vec<char> = Vec::new();
        proof {
            assert(ts@.skip(i as int) =~= Seq::<usize>::empty());
        }
        r
    } else {
        let mut r: Vec<char> = Vec::new();
        r.push(' ');
        let d = render_usize(ts[i]);
        push_all(&mut r, &d);
        let rest = targets_text(ts, i + 1);
        push_all(&mut r, &rest);
        proof {
            assert(ts@.skip(i as int)[0] == ts@[i as int]);
            assert(ts@.skip(i as int).skip(1) =~= ts@.skip(i as int + 1));
            assert(r@ =~= render_targets(ts@.skip(i as int)));
        }
        r
    }
}

fn instruction_text(instr: &Instruction) -> (r: Vec<char>)
    ensures
        r@ == render_instruction(instr@),
{
    let mut r: Vec<char> = Vec::new();
    match instr.mnemonic {
        Mnemonic::H => r.push('H'),
        Mnemonic::X => r.push('X'),
        Mnemonic::Y => r.push('Y'),
        Mnemonic::Z => r.push('Z'),
        Mnemonic::S => r.push('S'),
        Mnemonic::T => r.push('T'),
        Mnemonic::Cnot => {
            r.push('C');
            r.push('N');
            r.push('O');
            r.push('T');
        },
    }
    proof {
        assert(r@ =~= mnemonic_chars(instr.mnemonic));
    }
    let t = targets_text(&instr.targets, 0);
    push_all(&mut r, &t);
    proof {
        assert(instr.targets@.skip(0) =~= instr.targets@);
    }
    r
}

/// Serializes an instruction sequence back to program text: one
/// mnemonic+targets line per instruction, in order, each ending in a line
/// break.  The `QUBITS` (and any `MEASURE`) framing lines are the caller's
/// to reinsert.
pub fn serialize_instructions(instrs: &Vec<Instruction>) -> (r: Vec<char>)
    ensures
        r@ == render_instructions(instrs.deep_view()),
{
    let r = serialize_from(instrs, 0);
    proof {
        assert(instrs.deep_view().skip(0) =~= instrs.deep_view());
    }
    r
}

fn serialize_from(instrs: &Vec<Instruction>, i: usize) -> (r: Vec<char>)
    requires
        i <= instrs@.len(),
    ensures
        r@ == render_instructions(instrs.deep_view().skip(i as int)),
    decreases instrs@.len() - i,
{
    if i == instrs.len() {
        let r: Vec<char> = Vec::new();
        proof {
            assert(instrs.deep_view().skip(i as int) =~= Seq::<SpecInstruction>::empty());
        }
        r
    } else {
        let mut r = instruction_text(&instrs[i]);
        r.push('\n');
        let rest = serialize_from(instrs, i + 1);
        push_all(&mut r, &rest);
        proof {
            assert(instrs.deep_view().skip(i as int)[0] == instrs@[i as int]@);
            assert(instrs.deep_view().skip(i as int).skip(1) =~= instrs.deep_view().skip(
                i as int + 1,
            ));
            assert(r@ =~= render_instructions(instrs.deep_view().skip(i as int)));
        }
        r
    }
}

// ---------------------------------------------------------------------------
// The round-trip proof.
// ---------------------------------------------------------------------------

/// A rendered target list holds only blanks and digits: never a line break,
/// and it starts with a blank unless empty.
proof fn lemma_render_targets_chars(ts: Seq<usize>)
    ensures
        forall|i: int|
            0 <= i < render_targets(ts).len() ==> #[trigger] render_targets(ts)[i] != '\n',
        ts.len() > 0 ==> render_targets(ts).len() > 0,
    decreases ts.len(),
{
    if ts.len() > 0 {
        lemma_dec_rep(ts[0] as int);
        lemma_render_targets_chars(ts.skip(1));
        let d = dec_rep(ts[0] as int);
        let rest = render_targets(ts.skip(1));
        assert forall|i: int| 0 <= i < render_targets(ts).len() implies #[trigger] render_targets(
            ts,
        )[i] != '\n' by {
            assert(render_targets(ts) == seq![' '] + d + rest);
            if i == 0 {
                assert(render_targets(ts)[i] == ' ');
            } else if i < 1 + d.len() {
                assert(render_targets(ts)[i] == d[i - 1]);
            } else {
                assert(render_targets(ts)[i] == rest[i - 1 - d.len()]);
            }
        }
    }
}

/// A gate's spelling is non-empty upper-case letters: no blanks, no line
/// breaks, and upper-casing leaves it fixed.
proof fn lemma_mnemonic_chars(m: Mnemonic)
    ensures
        mnemonic_chars(m).len() > 0,
        forall|i: int|
            0 <= i < mnemonic_chars(m).len()
                ==> !is_space(#[trigger] mnemonic_chars(m)[i]) && mnemonic_chars(m)[i] != '\n',
        upper_seq(mnemonic_chars(m)) == mnemonic_chars(m),
{
    assert(upper_seq(mnemonic_chars(m)) =~= mnemonic_chars(m));
}

/// Consuming a line at its terminating break: the scanner yields the line
/// and continues after the break.
proof fn lemma_split_upto_newline(s: Seq<char>, i: int, cur: Seq<char>, e: int)
    requires
        0 <= i <= e < s.len(),
        s[e] == '\n',
        forall|j: int| i <= j < e ==> s[j] != '\n',
    ensures
        split_lines(s, i, cur) == seq![cur + s.subrange(i, e)] + split_lines(s, e + 1, seq![]),
    decreases e - i,
{
    if i == e {
        assert(cur + s.subrange(i, e) =~= cur);
    } else {
        lemma_split_upto_newline(s, i + 1, cur.push(s[i]), e);
        assert(cur.push(s[i]) + s.subrange(i + 1, e) =~= cur + s.subrange(i, e));
    }
}

/// Consuming a non-blank run: the tokenizer appends it to the current token.
proof fn lemma_tokenize_word(line: Seq<char>, i: int, j: int, cur: Seq<char>)
    requires
        0 <= i <= j <= line.len(),
        forall|m: int| i <= m < j ==> !is_space(#[trigger] line[m]),
    ensures
        tokenize(line, i, cur) == tokenize(line, j, cur + line.subrange(i, j)),
    decreases j - i,
{
    if i == j {
        assert(cur + line.subrange(i, j) =~= cur);
    } else {
        lemma_tokenize_word(line, i + 1, j, cur.push(line[i]));
        assert(cur.push(line[i]) + line.subrange(i + 1, j) =~= cur + line.subrange(i, j));
    }
}

/// The tokens of a rendered target list are exactly the decimal tokens,
/// one per target.
proof fn lemma_tokens_targets(line: Seq<char>, pos: int, ts: Seq<usize>)
    requires
        0 <= pos <= line.len(),
        line.subrange(pos, line.len() as int) == render_targets(ts),
    ensures
        tokenize(line, pos, seq![]) == Seq::new(ts.len(), |i: int| dec_rep(ts[i] as int)),
    decreases ts.len(),
{
    if ts.len() == 0 {
        assert(pos == line.len());
        assert(tokenize(line, pos, seq![]) =~= Seq::new(0, |i: int| dec_rep(ts[i] as int)));
    } else {
        let d = dec_rep(ts[0] as int);
        lemma_dec_rep(ts[0] as int);
        let rest = render_targets(ts.skip(1));
        assert(line.subrange(pos, line.len() as int) == seq![' '] + d + rest);
        assert(line[pos] == (seq![' '] + d + rest)[0]);
        assert(is_space(line[pos]));
        let j = pos + 1 + d.len();
        assert(j <= line.len());
        assert(line.subrange(pos + 1, j as int) =~= d) by {
            assert(forall|m: int|
                0 <= m < d.len() ==> line[pos + 1 + m] == (seq![' '] + d + rest)[1 + m]
                    == #[trigger] d[m]);
        }
        assert(forall|m: int| pos + 1 <= m < j ==> !is_space(#[trigger] line[m])) by {
            assert(forall|m: int|
                pos + 1 <= m < j ==> #[trigger] line[m] == d[m - (pos + 1)]);
        }
        lemma_tokenize_word(line, pos + 1, j, seq![]);
        assert(seq![] + line.subrange(pos + 1, j) =~= d);
        // tokenize(line, pos, []) == tokenize(line, pos + 1, []) == tokenize(line, j, d)
        assert(line.subrange(j, line.len() as int) =~= rest) by {
            assert(forall|m: int|
                0 <= m < rest.len() ==> line[j + m] == (seq![' '] + d + rest)[1 + d.len() + m]
                    == #[trigger] rest[m]);
        }
        if ts.skip(1).len() == 0 {
            assert(rest.len() == 0);
            assert(j == line.len());
            assert(tokenize(line, j, d) == seq![d]);
            assert(Seq::new(ts.len(), |i: int| dec_rep(ts[i] as int)) =~= seq![d]);
        } else {
            assert(rest.len() > 0);
            assert(j < line.len());
            assert(line[j] == rest[0]);
            assert(is_space(line[j]));
            // at a blank with a pending token: emit it
            assert(tokenize(line, j, d) == seq![d] + tokenize(line, j + 1, seq![]));
            assert(tokenize(line, j, seq![]) == tokenize(line, j + 1, seq![]));
            lemma_tokens_targets(line, j, ts.skip(1));
            assert(Seq::new(ts.len(), |i: int| dec_rep(ts[i] as int)) =~= seq![d] + Seq::new(
                ts.skip(1).len(),
                |i: int| dec_rep(ts.skip(1)[i] as int),
            ));
        }
    }
}

/// The tokens of `word` followed by a rendered target list are the word and
/// then one decimal token per target.
proof fn lemma_tokens_word_targets(word: Seq<char>, ts: Seq<usize>)
    requires
        word.len() > 0,
        forall|i: int| 0 <= i < word.len() ==> !is_space(#[trigger] word[i]),
    ensures
        tokens_of(word + render_targets(ts)) == seq![word] + Seq::new(
            ts.len(),
            |i: int| dec_rep(ts[i] as int),
        ),
{
    let line = word + render_targets(ts);
    let rest = render_targets(ts);
    let j = word.len() as int;
    assert(line.subrange(0, j) =~= word);
    assert(forall|m: int| 0 <= m < j ==> !is_space(#[trigger] line[m])) by {
        assert(forall|m: int| 0 <= m < j ==> #[trigger] line[m] == word[m]);
    }
    lemma_tokenize_word(line, 0, j, seq![]);
    assert(seq![] + line.subrange(0, j) =~= word);
    assert(line.subrange(j, line.len() as int) =~= rest);
    if ts.len() == 0 {
        assert(rest.len() == 0) by {
            lemma_render_targets_chars(ts);
        }
        assert(j == line.len());
        assert(tokenize(line, j, word) == seq![word]);
        assert(seq![word] + Seq::new(0, |i: int| dec_rep(ts[i] as int)) =~= seq![word]);
    } else {
        lemma_render_targets_chars(ts);
        assert(rest.len() > 0);
        assert(line[j] == rest[0]);
        assert(is_space(line[j]));
        assert(tokenize(line, j, word) == seq![word] + tokenize(line, j + 1, seq![]));
        assert(tokenize(line, j, seq![]) == tokenize(line, j + 1, seq![]));
        lemma_tokens_targets(line, j, ts);
    }
}

/// The lines of a rendered instruction sequence, one per instruction.
proof fn lemma_lines_render(s: Seq<char>, pos: int, instrs: Seq<SpecInstruction>)
    requires
        0 <= pos <= s.len(),
        s.subrange(pos, s.len() as int) == render_instructions(instrs),
    ensures
        split_lines(s, pos, seq![]) == Seq::new(instrs.len(), |i: int| render_instruction(instrs[i])),
    decreases instrs.len(),
{
    if instrs.len() == 0 {
        assert(pos == s.len());
        assert(split_lines(s, pos, seq![]) =~= Seq::new(
            0,
            |i: int| render_instruction(instrs[i]),
        ));
    } else {
        let l = render_instruction(instrs[0]);
        let rest = render_instructions(instrs.skip(1));
        assert(s.subrange(pos, s.len() as int) == l + seq!['\n'] + rest);
        let e = pos + l.len();
        assert(e < s.len());
        assert(forall|m: int| 0 <= m < l.len() ==> (l + seq!['\n'] + rest)[m] == #[trigger] l[m]);
        assert(forall|j: int| pos <= j < e ==> #[trigger] s[j] == l[j - pos]);
        assert(forall|j: int| pos <= j < e ==> s[j] != '\n') by {
            lemma_mnemonic_chars(instrs[0].mnemonic);
            lemma_render_targets_chars(instrs[0].targets);
            assert(forall|m: int|
                0 <= m < l.len() ==> #[trigger] l[m] != '\n');
        }
        assert(s[e] == (l + seq!['\n'] + rest)[l.len() as int]);
        assert(s[e] == '\n');
        lemma_split_upto_newline(s, pos, seq![], e);
        assert(seq![] + s.subrange(pos, e) =~= s.subrange(pos, e));
        assert(s.subrange(pos, e) =~= l);
        assert(s.subrange(e + 1, s.len() as int) =~= rest) by {
            assert(forall|m: int|
                0 <= m < rest.len() ==> s[e + 1 + m] == (l + seq!['\n'] + rest)[l.len() + 1 + m]
                    == #[trigger] rest[m]);
        }
        lemma_lines_render(s, e + 1, instrs.skip(1));
        assert(Seq::new(instrs.len(), |i: int| render_instruction(instrs[i])) =~= seq![l]
            + Seq::new(instrs.skip(1).len(), |i: int| render_instruction(instrs.skip(1)[i])));
    }
}

/// Validating a rendered instruction line in a declared, unmeasured state
/// accepts it and reproduces the instruction, at the given line number.
proof fn lemma_validate_rendered(si: SpecInstruction, n: usize, line: usize)
    requires
        instruction_wf(si),
    ensures
        ({
            let toks = tokens_of(render_instruction(si));
            &&& toks.len() == 1 + si.targets.len()
            &&& validate_spec(
                toks,
                (ParseState { qubit_count: Some(n), measured: false }),
                line,
            ) == Ok::<SpecOutcome, ParseError>(
                SpecOutcome::Gate {
                    instruction: (SpecInstruction {
                        mnemonic: si.mnemonic,
                        targets: si.targets,
                        line,
                    }),
                },
            )
        }),
{
    let m = si.mnemonic;
    let ts = si.targets;
    lemma_mnemonic_chars(m);
    lemma_tokens_word_targets(mnemonic_chars(m), ts);
    let toks = tokens_of(render_instruction(si));
    let dtoks = Seq::new(ts.len(), |i: int| dec_rep(ts[i] as int));
    assert(toks == seq![mnemonic_chars(m)] + dtoks);
    assert(toks.len() == 1 + ts.len());
    assert(toks[0] == mnemonic_chars(m));
    // the first token classifies as this instruction's own mnemonic
    assert(classify(toks[0]) == Keyword::Gate(m)) by {
        assert(upper_seq(mnemonic_chars(m)) == mnemonic_chars(m));
        match m {
            Mnemonic::H => assert(upper_seq(toks[0]) == seq!['H']),
            Mnemonic::X => assert(upper_seq(toks[0]) == seq!['X']),
            Mnemonic::Y => assert(upper_seq(toks[0]) == seq!['Y']),
            Mnemonic::Z => assert(upper_seq(toks[0]) == seq!['Z']),
            Mnemonic::S => assert(upper_seq(toks[0]) == seq!['S']),
            Mnemonic::T => assert(upper_seq(toks[0]) == seq!['T']),
            Mnemonic::Cnot => assert(upper_seq(toks[0]) == seq!['C', 'N', 'O', 'T']),
        }
    }
    assert(toks.len() - 1 == arity(m));
    assert(operands_ok(toks)) by {
        assert(forall|i: int| 1 <= i < toks.len() ==> #[trigger] toks[i] == dtoks[i - 1]);
        assert(forall|i: int|
            0 <= i < ts.len() ==> is_numeral(#[trigger] dtoks[i]) && num_val(dtoks[i])
                == ts[i]) by {
            assert forall|i: int| 0 <= i < ts.len() implies is_numeral(#[trigger] dtoks[i])
                && num_val(dtoks[i]) == ts[i] by {
                lemma_dec_rep(ts[i] as int);
            }
        }
    }
    assert(operand_vals(toks) =~= ts) by {
        assert(forall|i: int| 1 <= i < toks.len() ==> #[trigger] toks[i] == dtoks[i - 1]);
        assert forall|i: int| 0 <= i < ts.len() implies operand_vals(toks)[i] == ts[i] by {
            lemma_dec_rep(ts[i] as int);
        }
    }
}

/// The parse pass over the rendered suffix: every remaining line is a
/// rendered instruction, and the pass accepts them all in order.
proof fn lemma_parse_suffix(
    lines: Seq<Seq<char>>,
    instrs: Seq<SpecInstruction>,
    k: int,
    n: usize,
    acc: Seq<SpecInstruction>,
    diags: Seq<SpecDiagnostic>,
)
    requires
        instructions_wf(instrs),
        lines.len() == instrs.len() + 1,
        lines.len() + 1 <= usize::MAX,
        1 <= k <= lines.len(),
        forall|j: int| k <= j < lines.len() ==> #[trigger] lines[j] == render_instruction(
            instrs[j - 1],
        ),
    ensures
        parse_lines(
            lines,
            k,
            (ParseState { qubit_count: Some(n), measured: false }),
            acc,
            diags,
        ) == Ok::<SpecOutput, ParseError>(
            SpecOutput {
                instructions: acc + Seq::new(
                    (instrs.len() - (k - 1)) as nat,
                    |i: int| SpecInstruction {
                        mnemonic: instrs[k - 1 + i].mnemonic,
                        targets: instrs[k - 1 + i].targets,
                        line: (k + 1 + i) as usize,
                    },
                ),
                qubit_count: n,
                measure_targets: None,
                diagnostics: diags,
            },
        ),
    decreases lines.len() - k,
{
    let st = ParseState { qubit_count: Some(n), measured: false };
    if k == lines.len() {
        assert(acc + Seq::new(0, |i: int| SpecInstruction {
            mnemonic: instrs[k - 1 + i].mnemonic,
            targets: instrs[k - 1 + i].targets,
            line: (k + 1 + i) as usize,
        }) =~= acc);
    } else {
        let si = instrs[k - 1];
        assert(instruction_wf(si));
        let line = (k + 1) as usize;
        lemma_validate_rendered(si, n, line);
        let toks = tokens_of(lines[k]);
        assert(toks.len() > 0);
        let accepted = SpecInstruction { mnemonic: si.mnemonic, targets: si.targets, line };
        assert(validate_spec(toks, st, line) == Ok::<SpecOutcome, ParseError>(
            SpecOutcome::Gate { instruction: accepted },
        ));
        assert(parse_lines(lines, k, st, acc, diags) == parse_lines(
            lines,
            k + 1,
            st,
            acc.push(accepted),
            diags,
        ));
        lemma_parse_suffix(lines, instrs, k + 1, n, acc.push(accepted), diags);
        assert(acc.push(accepted) + Seq::new(
            (instrs.len() - k) as nat,
            |i: int| SpecInstruction {
                mnemonic: instrs[k + i].mnemonic,
                targets: instrs[k + i].targets,
                line: (k + 2 + i) as usize,
            },
        ) =~= acc + Seq::new(
            (instrs.len() - (k - 1)) as nat,
            |i: int| SpecInstruction {
                mnemonic: instrs[k - 1 + i].mnemonic,
                targets: instrs[k - 1 + i].targets,
                line: (k + 1 + i) as usize,
            },
        ));
    }
}

/// Round trip: serializing an accepted circuit's instruction sequence and
/// re-parsing it under its `QUBITS` framing line yields the same
/// instruction sequence — same gates, same targets, in the same order —
/// with the same declared count, no measurement and no diagnostics.
pub proof fn lemma_round_trip(instrs: Seq<SpecInstruction>, n: usize)
    requires
        instructions_wf(instrs),
        instrs.len() + 2 <= usize::MAX,
    ensures
        ({
            let text = qubits_line(n) + render_instructions(instrs);
            let r = parse_spec(text);
            &&& r is Ok
            &&& r->Ok_0.qubit_count == n
            &&& r->Ok_0.measure_targets is None
            &&& r->Ok_0.diagnostics.len() == 0
            &&& r->Ok_0.instructions.len() == instrs.len()
            &&& forall|i: int|
                0 <= i < instrs.len() ==> #[trigger] r->Ok_0.instructions[i].mnemonic
                    == instrs[i].mnemonic && r->Ok_0.instructions[i].targets == instrs[i].targets
        }),
{
    let text = qubits_line(n) + render_instructions(instrs);
    let qword = seq!['Q', 'U', 'B', 'I', 'T', 'S'];
    let qline = qword + render_targets(seq![n]);
    // the first line and the rest
    lemma_dec_rep(n as int);
    lemma_render_targets_chars(seq![n]);
    assert(forall|m: int| 0 <= m < qline.len() ==> #[trigger] qline[m] != '\n') by {
        assert(forall|m: int|
            0 <= m < render_targets(seq![n]).len() ==> #[trigger] render_targets(seq![n])[m]
                != '\n');
        assert(forall|m: int|
            0 <= m < qline.len() ==> #[trigger] qline[m] == if m < 6 {
                qword[m]
            } else {
                render_targets(seq![n])[m - 6]
            });
    }
    let e = qline.len() as int;
    assert(text[e] == '\n') by {
        assert(qubits_line(n) == qline + seq!['\n']);
        assert(text[e] == (qline + seq!['\n'] + render_instructions(instrs))[e]);
    }
    assert(forall|j: int| 0 <= j < e ==> #[trigger] text[j] == qline[j]);
    lemma_split_upto_newline(text, 0, seq![], e);
    assert(seq![] + text.subrange(0, e) =~= qline);
    assert(text.subrange(e + 1, text.len() as int) =~= render_instructions(instrs));
    lemma_lines_render(text, e + 1, instrs);
    let ilines = Seq::new(instrs.len(), |i: int| render_instruction(instrs[i]));
    assert(lines_of(text) == seq![qline] + ilines);
    let lines = lines_of(text);
    assert(lines.len() == instrs.len() + 1);
    // line 1 declares the count
    lemma_tokens_word_targets(qword, seq![n]);
    let toks = tokens_of(qline);
    assert(toks == seq![qword] + Seq::new(1, |i: int| dec_rep(seq![n][i] as int)));
    assert(toks.len() == 2);
    assert(toks[0] == qword);
    assert(classify(toks[0]) == Keyword::Qubits) by {
        assert(upper_seq(qword) =~= qword);
    }
    assert(toks[1] == dec_rep(n as int));
    assert(is_numeral(toks[1]) && num_val(toks[1]) == n);
    let st0 = initial_state();
    assert(validate_spec(toks, st0, 1) == Ok::<SpecOutcome, ParseError>(
        SpecOutcome::Declared { count: n },
    ));
    assert(lines[0] == qline);
    assert(parse_spec(text) == parse_lines(
        lines,
        1,
        (ParseState { qubit_count: Some(n), measured: false }),
        seq![],
        seq![],
    ));
    assert(forall|j: int| 1 <= j < lines.len() ==> #[trigger] lines[j] == render_instruction(
        instrs[j - 1],
    ));
    lemma_parse_suffix(lines, instrs, 1, n, seq![], seq![]);
    let r = parse_spec(text);
    assert(r is Ok);
    assert(r->Ok_0.instructions =~= Seq::new(
        instrs.len(),
        |i: int| SpecInstruction {
            mnemonic: instrs[i].mnemonic,
            targets: instrs[i].targets,
            line: (2 + i) as usize,
        },
    ));
}

} // verus!
