//! The tape machine: executes a compiled program against a growable byte
//! tape, an input byte source and an output byte sink.
//!
//! The machine's meaning is given by a small-step interpreter over a
//! mathematical state. The executable engine is proved to realize exactly
//! that interpreter: whatever it returns, some number of specification
//! steps leads from the initial state to that very outcome, and the
//! specification machine is deterministic, so the outcome is pinned.
//!
//! Input exhaustion is an explicit, reported failure: when the program
//! asks for a byte and the source has none left, the run ends with an
//! error rather than reading a default value.

use vstd::prelude::*;
use vstd::arithmetic::div_mod::lemma_fundamental_div_mod;
use vstd::arithmetic::div_mod::lemma_mod_bound;
use vstd::arithmetic::div_mod::lemma_mod_multiples_vanish;
use vstd::arithmetic::div_mod::lemma_small_mod;
use crate::opcode::Opcode;
use crate::opcode::is_loop_bracket;
use crate::jumps::StructuralError;
use crate::jumps::balanced;
use crate::jumps::depth;
use crate::jumps::first_unmatched_close;
use crate::jumps::partners;
use crate::jumps::prefix_ok;
use crate::jumps::table_matches;
use crate::compile::compile_spec;
use crate::compile::compile_opcodes;

verus! {

/// A failure during a run.
#[derive(Clone, Copy, Debug, PartialEq, Eq, Structural)]
pub enum RunError {
    /// The program asked for an input byte and the source was exhausted.
    InputExhausted,
}

/// What one fueled engine call yields.
#[derive(Debug)]
pub enum RunOutcome {
    /// The program ran to completion; these are the bytes it printed.
    Done(Vec<u8>),
    /// The program failed at run time.
    Failed(RunError),
    /// The step budget ran out with the program still going; the caller
    /// may retry with a larger budget.
    OutOfFuel,
}

/// A failure of the whole pipeline, compile time or run time.
#[derive(Clone, Copy, Debug, PartialEq, Eq, Structural)]
pub enum BfError {
    /// The program's bracket structure is broken; found before any
    /// execution begins.
    Brackets(StructuralError),
    /// The program started running and failed.
    Run(RunError),
    /// The step budget ran out with the program still going.
    OutOfFuel,
}

/// The mathematical state of the machine between two dispatch steps.
#[verifier::ext_equal]
pub struct MState {
    /// The cells of the tape, leftmost first.
    pub tape: Seq<u8>,
    /// The index of the current cell.
    pub pos: int,
    /// The index of the next opcode to execute.
    pub pc: int,
    /// The input bytes not yet consumed.
    pub input: Seq<u8>,
    /// The bytes printed so far.
    pub output: Seq<u8>,
}

/// What a bounded number of machine steps yields.
#[verifier::ext_equal]
pub enum Outcome {
    /// The step budget ran out with the machine still going.
    Running(MState),
    /// The program counter ran off the end of the program: a completed run.
    Halted(MState),
    /// The machine sat at an `Input` opcode with the source exhausted.
    InputFailed(MState),
}

/// The machine starts with a single zeroed cell, at position 0, at the
/// first opcode, with nothing yet printed.
pub open spec fn init_state(input: Seq<u8>) -> MState {
    MState { tape: seq![0u8], pos: 0, pc: 0, input: input, output: Seq::empty() }
}

/// The position always addresses a cell of the tape.
pub open spec fn state_wf(s: MState) -> bool {
    0 <= s.pos < s.tape.len()
}

/// The run is complete: the program counter left the opcode sequence.
pub open spec fn at_end(ops: Seq<Opcode>, s: MState) -> bool {
    !(0 <= s.pc < ops.len())
}

/// The machine needs a byte that the input source cannot supply.
pub open spec fn needs_input(ops: Seq<Opcode>, s: MState) -> bool {
    0 <= s.pc < ops.len() && ops[s.pc] is Input && s.input.len() == 0
}

/// `n` zero cells.
pub open spec fn zeros(n: nat) -> Seq<u8> {
    Seq::new(n, |i: int| 0u8)
}

/// The current cell after adding `n`, modulo 256.
pub open spec fn cell_add(c: u8, n: int) -> u8 {
    ((c + n) % 256) as u8
}

/// The current cell after subtracting `n`, modulo 256.
pub open spec fn cell_sub(c: u8, n: int) -> u8 {
    ((c - n) % 256) as u8
}

/// Each loop bracket's table entry is a valid opcode index: all the
/// machine needs in order to dispatch without leaving the program.
pub open spec fn table_bounds(ops: Seq<Opcode>, table: Seq<usize>) -> bool {
    &&& table.len() == ops.len()
    &&& forall|i: int|
        0 <= i < ops.len() && is_loop_bracket(#[trigger] ops[i]) ==> table[i] < ops.len()
}

/// One dispatch step, for a state that is neither completed nor stuck.
/// After every dispatch the program counter advances by one, including
/// after a jump: the jump targets the partner bracket and the advance
/// moves past it.
pub open spec fn step(ops: Seq<Opcode>, table: Seq<usize>, s: MState) -> MState
    recommends
        !at_end(ops, s),
        !needs_input(ops, s),
        state_wf(s),
{
    match ops[s.pc] {
        Opcode::Add(n) => MState {
            tape: s.tape.update(s.pos, cell_add(s.tape[s.pos], n as int)),
            pos: s.pos,
            pc: s.pc + 1,
            input: s.input,
            output: s.output,
        },
        Opcode::Sub(n) => MState {
            tape: s.tape.update(s.pos, cell_sub(s.tape[s.pos], n as int)),
            pos: s.pos,
            pc: s.pc + 1,
            input: s.input,
            output: s.output,
        },
        Opcode::ShiftLeft(n) => if n <= s.pos {
            MState {
                tape: s.tape,
                pos: s.pos - n,
                pc: s.pc + 1,
                input: s.input,
                output: s.output,
            }
        } else {
            MState {
                tape: zeros((n - s.pos) as nat) + s.tape,
                pos: 0,
                pc: s.pc + 1,
                input: s.input,
                output: s.output,
            }
        },
        Opcode::ShiftRight(n) => MState {
            tape: if s.pos + n < s.tape.len() {
                s.tape
            } else {
                s.tape + zeros((s.pos + n + 1 - s.tape.len()) as nat)
            },
            pos: s.pos + n,
            pc: s.pc + 1,
            input: s.input,
            output: s.output,
        },
        Opcode::Print => MState {
            tape: s.tape,
            pos: s.pos,
            pc: s.pc + 1,
            input: s.input,
            output: s.output.push(s.tape[s.pos]),
        },
        Opcode::Input => MState {
            tape: s.tape.update(s.pos, s.input[0]),
            pos: s.pos,
            pc: s.pc + 1,
            input: s.input.skip(1),
            output: s.output,
        },
        Opcode::BeginLoop => MState {
            tape: s.tape,
            pos: s.pos,
            pc: if s.tape[s.pos] == 0 {
                table[s.pc] + 1
            } else {
                s.pc + 1
            },
            input: s.input,
            output: s.output,
        },
        Opcode::EndLoop => MState {
            tape: s.tape,
            pos: s.pos,
            pc: if s.tape[s.pos] != 0 {
                table[s.pc] + 1
            } else {
                s.pc + 1
            },
            input: s.input,
            output: s.output,
        },
    }
}

/// The outcome after at most `n` dispatch steps: a completed or stuck
/// state is final whatever budget remains.
pub open spec fn run_n(ops: Seq<Opcode>, table: Seq<usize>, s: MState, n: nat) -> Outcome
    decreases n,
{
    if at_end(ops, s) {
        Outcome::Halted(s)
    } else if needs_input(ops, s) {
        Outcome::InputFailed(s)
    } else if n == 0 {
        Outcome::Running(s)
    } else {
        run_n(ops, table, step(ops, table, s), (n - 1) as nat)
    }
}

/// A budget that ran out mid-run extends by one step.
proof fn lemma_run_extend(ops: Seq<Opcode>, table: Seq<usize>, s: MState, n: nat)
    requires
        run_n(ops, table, s, n) is Running,
    ensures
        run_n(ops, table, s, n + 1) == run_n(
            ops,
            table,
            step(ops, table, run_n(ops, table, s, n)->Running_0),
            0,
        ),
    decreases n,
{
    if !at_end(ops, s) && !needs_input(ops, s) && n > 0 {
        lemma_run_extend(ops, table, step(ops, table, s), (n - 1) as nat);
    }
}

/// The machine is deterministic: two step budgets that both finish agree
/// on the outcome, state and all.
pub proof fn lemma_run_unique(
    ops: Seq<Opcode>,
    table: Seq<usize>,
    s: MState,
    n1: nat,
    n2: nat,
)
    requires
        !(run_n(ops, table, s, n1) is Running),
        !(run_n(ops, table, s, n2) is Running),
    ensures
        run_n(ops, table, s, n1) == run_n(ops, table, s, n2),
    decreases n1,
{
    if !at_end(ops, s) && !needs_input(ops, s) {
        lemma_run_unique(ops, table, step(ops, table, s), (n1 - 1) as nat, (n2 - 1) as nat);
    }
}

/// A matched jump table keeps every jump inside the program.
pub proof fn lemma_matched_table_bounds(ops: Seq<Opcode>, table: Seq<usize>)
    requires
        table_matches(ops, table),
    ensures
        table_bounds(ops, table),
{
    assert forall|i: int|
        0 <= i < ops.len() && is_loop_bracket(#[trigger] ops[i]) implies table[i]
        < ops.len() by {
        if ops[i] is BeginLoop {
            assert(partners(ops, table, i, table[i] as int));
        } else {
            assert(partners(ops, table, table[i] as int, i));
        }
    }
}

/// Shifting left from the leftmost cell by any positive amount grows the
/// tape leftward by exactly that many zero cells and leaves the position
/// on the new leftmost cell; the position never goes negative.
pub proof fn lemma_shift_left_from_zero_grows(
    ops: Seq<Opcode>,
    table: Seq<usize>,
    s: MState,
    k: usize,
)
    requires
        0 <= s.pc < ops.len(),
        ops[s.pc] == Opcode::ShiftLeft(k),
        k > 0,
        s.pos == 0,
    ensures
        step(ops, table, s).pos == 0,
        step(ops, table, s).tape =~= zeros(k as nat) + s.tape,
        step(ops, table, s).tape.len() == s.tape.len() + k,
        step(ops, table, s).output == s.output,
{
}

/// Links cell arithmetic modulo 256 with the wrapping byte operations.
proof fn lemma_mod256(c: int, n: int)
    requires
        0 <= c < 256,
        0 <= n,
    ensures
        0 <= n % 256 < 256,
        c + (n % 256) < 256 ==> (c + n) % 256 == c + (n % 256),
        c + (n % 256) >= 256 ==> (c + n) % 256 == c + (n % 256) - 256,
        c - (n % 256) >= 0 ==> (c - n) % 256 == c - (n % 256),
        c - (n % 256) < 0 ==> (c - n) % 256 == c - (n % 256) + 256,
{
    let d = n % 256;
    let q = n / 256;
    lemma_mod_bound(n, 256);
    lemma_fundamental_div_mod(n, 256);
    assert(n == 256 * q + d);
    assert(c + n == 256 * q + (c + d)) by {
        assert(c + (256 * q + d) == 256 * q + (c + d));
    }
    lemma_mod_multiples_vanish(q, c + d, 256);
    assert((c + n) % 256 == (c + d) % 256);
    assert(c - n == 256 * (-q) + (c - d)) by {
        assert(c - (256 * q + d) == 256 * (-q) + (c - d)) by {
            assert(256 * (-q) == -(256 * q)) by (nonlinear_arith);
        }
    }
    lemma_mod_multiples_vanish(-q, c - d, 256);
    assert((c - n) % 256 == (c - d) % 256);
    if c + d < 256 {
        lemma_small_mod((c + d) as nat, 256);
    } else {
        lemma_mod_multiples_vanish(1, c + d - 256, 256);
        assert(256 * 1 + (c + d - 256) == c + d);
        lemma_small_mod((c + d - 256) as nat, 256);
    }
    if c - d >= 0 {
        lemma_small_mod((c - d) as nat, 256);
    } else {
        lemma_mod_multiples_vanish(-1, c - d + 256, 256);
        assert(256 * (-1) + (c - d + 256) == c - d);
        lemma_small_mod((c - d + 256) as nat, 256);
    }
}

/// The machine state that the engine's locals denote.
spec fn live(
    tape: Seq<u8>,
    pos: usize,
    pc: usize,
    input: Seq<u8>,
    in_pos: usize,
    output: Seq<u8>,
) -> MState {
    MState {
        tape: tape,
        pos: pos as int,
        pc: pc as int,
        input: input.skip(in_pos as int),
        output: output,
    }
}

/// Runs a compiled program with its jump table against an input byte
/// source, collecting every byte the program prints, for at most `fuel`
/// dispatch steps. The language itself imposes no step limit: the budget
/// is the caller's, and because the machine is deterministic
/// (`lemma_run_unique`), a larger budget can only turn `OutOfFuel` into
/// the one outcome the program has. Returns the collected output when the
/// program counter runs off the end of the opcode sequence; fails with
/// `InputExhausted` when the program asks for a byte and the source has
/// none left.
pub fn run_program(ops: &Vec<Opcode>, table: &Vec<usize>, input: &Vec<u8>, fuel: u64) -> (r:
    RunOutcome)
    requires
        table_bounds(ops@, table@),
    ensures
        match r {
            RunOutcome::Done(out) => exists|n: nat|
                #[trigger] run_n(ops@, table@, init_state(input@), n) matches Outcome::Halted(t)
                    && t.output == out@,
            RunOutcome::Failed(e) => e is InputExhausted && exists|n: nat|
                #[trigger] run_n(ops@, table@, init_state(input@), n) is InputFailed,
            RunOutcome::OutOfFuel => run_n(ops@, table@, init_state(input@), fuel as nat)
                is Running,
        },
{
    let ghost init = init_state(input@);
    let n = ops.len();
    let mut fuel_left: u64 = fuel;
    let mut tape: Vec<u8> = Vec::new();
    tape.push(0);
    let mut pos: usize = 0;
    let mut pc: usize = 0;
    let mut in_pos: usize = 0;
    let mut out: Vec<u8> = Vec::new();
    let ghost mut steps: nat = 0;
    proof {
        assert(live(tape@, pos, pc, input@, in_pos, out@) =~= init);
    }
    while pc < n && fuel_left > 0
        invariant
            n == ops@.len(),
            table_bounds(ops@, table@),
            pos < tape@.len(),
            in_pos <= input@.len(),
            init == init_state(input@),
            fuel_left <= fuel,
            steps == fuel - fuel_left,
            run_n(ops@, table@, init, steps) == run_n(
                ops@,
                table@,
                live(tape@, pos, pc, input@, in_pos, out@),
                0,
            ),
        decreases fuel_left,
    {
        fuel_left = fuel_left - 1;
        let ghost cur0 = live(tape@, pos, pc, input@, in_pos, out@);
        let op = ops[pc];
        match op {
            Opcode::Add(amount) => {
                let d = (amount % 256) as u8;
                let c = tape[pos];
                proof {
                    lemma_mod256(c as int, amount as int);
                }
                tape[pos] = c.wrapping_add(d);
                pc = pc + 1;
                proof {
                    assert(tape@[pos as int] == cell_add(c, amount as int));
                    assert(live(tape@, pos, pc, input@, in_pos, out@) =~= step(
                        ops@,
                        table@,
                        cur0,
                    ));
                    lemma_run_extend(ops@, table@, init, steps);
                    steps = steps + 1;
                }
            },
            Opcode::Sub(amount) => {
                let d = (amount % 256) as u8;
                let c = tape[pos];
                proof {
                    lemma_mod256(c as int, amount as int);
                }
                tape[pos] = c.wrapping_sub(d);
                pc = pc + 1;
                proof {
                    assert(tape@[pos as int] == cell_sub(c, amount as int));
                    assert(live(tape@, pos, pc, input@, in_pos, out@) =~= step(
                        ops@,
                        table@,
                        cur0,
                    ));
                    lemma_run_extend(ops@, table@, init, steps);
                    steps = steps + 1;
                }
            },
            Opcode::ShiftLeft(amount) => {
                if amount <= pos {
                    pos = pos - amount;
                } else {
                    let grow = amount - pos;
                    let ghost tape0 = tape@;
                    let mut done: usize = 0;
                    while done < grow
                        invariant
                            done <= grow,
                            tape@ == zeros(done as nat) + tape0,
                            tape0.len() > 0,
                        decreases grow - done,
                    {
                        tape.insert(0, 0);
                        done = done + 1;
                        proof {
                            assert(tape@ =~= zeros(done as nat) + tape0);
                        }
                    }
                    pos = 0;
                }
                pc = pc + 1;
                proof {
                    assert(live(tape@, pos, pc, input@, in_pos, out@) =~= step(
                        ops@,
                        table@,
                        cur0,
                    ));
                    lemma_run_extend(ops@, table@, init, steps);
                    steps = steps + 1;
                }
            },
            Opcode::ShiftRight(amount) => {
                let ghost tape0 = tape@;
                while tape.len() - 1 - pos < amount
                    invariant
                        pos < tape0.len(),
                        pos < tape@.len(),
                        tape0.len() <= tape@.len(),
                        tape@ == tape0 + zeros((tape@.len() - tape0.len()) as nat),
                        tape@.len() == tape0.len() || tape@.len() <= pos + amount + 1,
                    decreases pos + amount + 1 - tape@.len(),
                {
                    tape.push(0);
                    proof {
                        assert(tape@ =~= tape0 + zeros((tape@.len() - tape0.len()) as nat));
                    }
                }
                pos = pos + amount;
                pc = pc + 1;
                proof {
                    if pos as int - amount as int + amount < tape0.len() {
                        assert(tape@ =~= tape0);
                    }
                    assert(live(tape@, pos, pc, input@, in_pos, out@) =~= step(
                        ops@,
                        table@,
                        cur0,
                    ));
                    lemma_run_extend(ops@, table@, init, steps);
                    steps = steps + 1;
                }
            },
            Opcode::Print => {
                let c = tape[pos];
                out.push(c);
                pc = pc + 1;
                proof {
                    assert(live(tape@, pos, pc, input@, in_pos, out@) =~= step(
                        ops@,
                        table@,
                        cur0,
                    ));
                    lemma_run_extend(ops@, table@, init, steps);
                    steps = steps + 1;
                }
            },
            Opcode::Input => {
                if in_pos < input.len() {
                    let b = input[in_pos];
                    tape[pos] = b;
                    in_pos = in_pos + 1;
                    pc = pc + 1;
                    proof {
                        assert(input@.skip(in_pos - 1).skip(1) =~= input@.skip(in_pos as int));
                        assert(live(tape@, pos, pc, input@, in_pos, out@) =~= step(
                            ops@,
                            table@,
                            cur0,
                        ));
                        lemma_run_extend(ops@, table@, init, steps);
                        steps = steps + 1;
                    }
                } else {
                    proof {
                        assert(needs_input(ops@, cur0));
                        assert(run_n(ops@, table@, init, steps) is InputFailed);
                    }
                    return RunOutcome::Failed(RunError::InputExhausted);
                }
            },
            Opcode::BeginLoop => {
                let c = tape[pos];
                if c == 0 {
                    let target = table[pc];
                    pc = target + 1;
                } else {
                    pc = pc + 1;
                }
                proof {
                    assert(live(tape@, pos, pc, input@, in_pos, out@) =~= step(
                        ops@,
                        table@,
                        cur0,
                    ));
                    lemma_run_extend(ops@, table@, init, steps);
                    steps = steps + 1;
                }
            },
            Opcode::EndLoop => {
                let c = tape[pos];
                if c != 0 {
                    let target = table[pc];
                    pc = target + 1;
                } else {
                    pc = pc + 1;
                }
                proof {
                    assert(live(tape@, pos, pc, input@, in_pos, out@) =~= step(
                        ops@,
                        table@,
                        cur0,
                    ));
                    lemma_run_extend(ops@, table@, init, steps);
                    steps = steps + 1;
                }
            },
        }
    }
    if pc >= n {
        proof {
            let cur = live(tape@, pos, pc, input@, in_pos, out@);
            assert(at_end(ops@, cur));
            assert(run_n(ops@, table@, init_state(input@), steps) matches Outcome::Halted(t)
                && t.output == out@);
        }
        RunOutcome::Done(out)
    } else {
        let op = ops[pc];
        let ghost cur = live(tape@, pos, pc, input@, in_pos, out@);
        if op == Opcode::Input && in_pos >= input.len() {
            proof {
                assert(needs_input(ops@, cur));
                assert(run_n(ops@, table@, init_state(input@), steps) is InputFailed);
            }
            RunOutcome::Failed(RunError::InputExhausted)
        } else {
            proof {
                assert(!at_end(ops@, cur));
                assert(!needs_input(ops@, cur));
                assert(run_n(ops@, table@, init_state(input@), fuel as nat) is Running);
            }
            RunOutcome::OutOfFuel
        }
    }
}

/// The whole pipeline on one program text: compile it, build the jump
/// table, and run it against `input` for at most `fuel` dispatch steps.
/// A structural error is returned before any execution begins. This is
/// the compute-only heart of an interpreter: the collaborator that owns
/// real I/O reads the program text and the input bytes, calls this, and
/// forwards the returned bytes to its sink.
pub fn brainf_output(src: &str, input: &Vec<u8>, fuel: u64) -> (r: Result<Vec<u8>, BfError>)
    ensures
        ({
            let ops = compile_spec(src@);
            match r {
                Ok(out) => balanced(ops) && exists|table: Seq<usize>, n: nat|
                    table_matches(ops, table) && (#[trigger] run_n(
                        ops,
                        table,
                        init_state(input@),
                        n,
                    ) matches Outcome::Halted(t) && t.output == out@),
                Err(BfError::Brackets(StructuralError::UnmatchedClose { index })) =>
                    first_unmatched_close(ops, index as int),
                Err(BfError::Brackets(StructuralError::UnmatchedOpen { count })) => count > 0
                    && depth(ops) == count && prefix_ok(ops, ops.len() as int),
                Err(BfError::Run(e)) => e is InputExhausted && balanced(ops) && exists|
                    table: Seq<usize>,
                    n: nat,
                |
                    table_matches(ops, table) && #[trigger] run_n(
                        ops,
                        table,
                        init_state(input@),
                        n,
                    ) is InputFailed,
                Err(BfError::OutOfFuel) => balanced(ops) && exists|table: Seq<usize>|
                    table_matches(ops, table) && #[trigger] run_n(
                        ops,
                        table,
                        init_state(input@),
                        fuel as nat,
                    ) is Running,
            }
        }),
{
    let ops = compile_opcodes(src);
    let table = match crate::jumps::compile_jump_table(&ops) {
        Ok(t) => t,
        Err(e) => {
            return Err(BfError::Brackets(e));
        },
    };
    proof {
        lemma_matched_table_bounds(ops@, table@);
    }
    match run_program(&ops, &table, input, fuel) {
        RunOutcome::Done(out) => {
            proof {
                let n = choose|n: nat|
                    (#[trigger] run_n(ops@, table@, init_state(input@), n)) matches Outcome::Halted(
                        t,
                    ) && t.output == out@;
                assert(table_matches(ops@, table@) && (run_n(
                    ops@,
                    table@,
                    init_state(input@),
                    n,
                ) matches Outcome::Halted(t) && t.output == out@));
            }
            Ok(out)
        },
        RunOutcome::Failed(e) => {
            proof {
                let n = choose|n: nat|
                    #[trigger] run_n(ops@, table@, init_state(input@), n) is InputFailed;
                assert(table_matches(ops@, table@) && run_n(ops@, table@, init_state(input@), n)
                    is InputFailed);
            }
            Err(BfError::Run(e))
        },
        RunOutcome::OutOfFuel => {
            proof {
                assert(table_matches(ops@, table@) && run_n(
                    ops@,
                    table@,
                    init_state(input@),
                    fuel as nat,
                ) is Running);
            }
            Err(BfError::OutOfFuel)
        },
    }
}

} // verus!
