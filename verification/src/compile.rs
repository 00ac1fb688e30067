//! Source-to-opcode compilation: comment stripping and run-length folding.
//!
//! A program is any character sequence; only the eight command characters
//! are significant, everything else is a comment. A maximal adjacent run of
//! `+`/`-` folds into a single arithmetic opcode carrying the net magnitude
//! of the run, a maximal run of `<`/`>` into a single shift opcode; a run
//! whose net effect is zero emits nothing. The four remaining commands are
//! always emitted as singleton opcodes. Compilation is total: bracket
//! nesting is checked later, by the jump-table builder.

use vstd::prelude::*;
use crate::opcode::Opcode;
use crate::opcode::opcode_wf;

verus! {

/// True of the eight command characters; every other character is a comment.
pub open spec fn is_command(c: char) -> bool {
    c == '+' || c == '-' || c == '<' || c == '>' || c == '[' || c == ']' || c == '.' || c == ','
}

/// True of the two cell-arithmetic commands.
pub open spec fn is_arith(c: char) -> bool {
    c == '+' || c == '-'
}

/// True of the two tape-movement commands.
pub open spec fn is_shift(c: char) -> bool {
    c == '<' || c == '>'
}

/// The source text with every comment character removed.
pub open spec fn command_chars(s: Seq<char>) -> Seq<char>
    decreases s.len(),
{
    if s.len() == 0 {
        Seq::empty()
    } else if is_command(s.last()) {
        command_chars(s.drop_last()).push(s.last())
    } else {
        command_chars(s.drop_last())
    }
}

/// How many occurrences of `c` stand in `s[i..j)`.
pub open spec fn count_in(s: Seq<char>, c: char, i: int, j: int) -> int
    decreases j - i,
{
    if i >= j {
        0
    } else {
        count_in(s, c, i, j - 1) + if s[j - 1] == c { 1int } else { 0int }
    }
}

/// The index just past the maximal run of arithmetic commands starting at `i`.
pub open spec fn arith_run_end(s: Seq<char>, i: int) -> int
    decreases s.len() - i,
{
    if i < 0 || i >= s.len() || !is_arith(s[i]) {
        i
    } else {
        arith_run_end(s, i + 1)
    }
}

/// The index just past the maximal run of shift commands starting at `i`.
pub open spec fn shift_run_end(s: Seq<char>, i: int) -> int
    decreases s.len() - i,
{
    if i < 0 || i >= s.len() || !is_shift(s[i]) {
        i
    } else {
        shift_run_end(s, i + 1)
    }
}

pub proof fn lemma_arith_run_end_bounds(s: Seq<char>, i: int)
    requires
        0 <= i <= s.len(),
    ensures
        i <= arith_run_end(s, i) <= s.len(),
        i < s.len() && is_arith(s[i]) ==> arith_run_end(s, i) > i,
    decreases s.len() - i,
{
    if i < s.len() && is_arith(s[i]) {
        lemma_arith_run_end_bounds(s, i + 1);
    }
}

pub proof fn lemma_shift_run_end_bounds(s: Seq<char>, i: int)
    requires
        0 <= i <= s.len(),
    ensures
        i <= shift_run_end(s, i) <= s.len(),
        i < s.len() && is_shift(s[i]) ==> shift_run_end(s, i) > i,
    decreases s.len() - i,
{
    if i < s.len() && is_shift(s[i]) {
        lemma_shift_run_end_bounds(s, i + 1);
    }
}

/// The opcode for one of the four commands that are never merged.
pub open spec fn singleton_op(c: char) -> Opcode {
    if c == '.' {
        Opcode::Print
    } else if c == ',' {
        Opcode::Input
    } else if c == '[' {
        Opcode::BeginLoop
    } else {
        Opcode::EndLoop
    }
}

/// What an arithmetic run `s[i..j)` folds to: the net magnitude, elided when zero.
pub open spec fn arith_ops(s: Seq<char>, i: int, j: int) -> Seq<Opcode> {
    let plus = count_in(s, '+', i, j);
    let minus = count_in(s, '-', i, j);
    if plus > minus {
        seq![Opcode::Add((plus - minus) as usize)]
    } else if minus > plus {
        seq![Opcode::Sub((minus - plus) as usize)]
    } else {
        Seq::empty()
    }
}

/// What a shift run `s[i..j)` folds to: the net magnitude, elided when zero.
pub open spec fn shift_ops(s: Seq<char>, i: int, j: int) -> Seq<Opcode> {
    let left = count_in(s, '<', i, j);
    let right = count_in(s, '>', i, j);
    if right > left {
        seq![Opcode::ShiftRight((right - left) as usize)]
    } else if left > right {
        seq![Opcode::ShiftLeft((left - right) as usize)]
    } else {
        Seq::empty()
    }
}

/// The opcodes compiled from the comment-free command sequence `s`, from
/// index `i` to the end: each maximal run folded, singletons emitted as is.
pub open spec fn compile_from(s: Seq<char>, i: int) -> Seq<Opcode>
    decreases s.len() - i
        via compile_from_decreases
{
    if i < 0 || i >= s.len() {
        Seq::empty()
    } else if is_arith(s[i]) {
        arith_ops(s, i, arith_run_end(s, i)) + compile_from(s, arith_run_end(s, i))
    } else if is_shift(s[i]) {
        shift_ops(s, i, shift_run_end(s, i)) + compile_from(s, shift_run_end(s, i))
    } else {
        seq![singleton_op(s[i])] + compile_from(s, i + 1)
    }
}

#[via_fn]
proof fn compile_from_decreases(s: Seq<char>, i: int) {
    if 0 <= i && i < s.len() {
        if is_arith(s[i]) {
            lemma_arith_run_end_bounds(s, i);
        } else if is_shift(s[i]) {
            lemma_shift_run_end_bounds(s, i);
        }
    }
}

/// The compiled form of a source text: comments stripped, runs folded.
pub open spec fn compile_spec(s: Seq<char>) -> Seq<Opcode> {
    compile_from(command_chars(s), 0)
}

proof fn lemma_count_in_bounds(s: Seq<char>, c: char, i: int, j: int)
    requires
        i <= j,
    ensures
        0 <= count_in(s, c, i, j) <= j - i,
    decreases j - i,
{
    if i < j {
        lemma_count_in_bounds(s, c, i, j - 1);
    }
}

proof fn lemma_command_chars_len(s: Seq<char>)
    ensures
        command_chars(s).len() <= s.len(),
    decreases s.len(),
{
    if s.len() > 0 {
        lemma_command_chars_len(s.drop_last());
    }
}

proof fn lemma_compile_from_wf(s: Seq<char>, i: int)
    requires
        s.len() <= usize::MAX,
        0 <= i <= s.len(),
    ensures
        forall|k: int|
            0 <= k < compile_from(s, i).len() ==> opcode_wf(#[trigger] compile_from(s, i)[k]),
    decreases s.len() - i,
{
    if i < s.len() {
        if is_arith(s[i]) {
            let j = arith_run_end(s, i);
            lemma_arith_run_end_bounds(s, i);
            lemma_count_in_bounds(s, '+', i, j);
            lemma_count_in_bounds(s, '-', i, j);
            lemma_compile_from_wf(s, j);
            assert forall|k: int| 0 <= k < compile_from(s, i).len() implies opcode_wf(
                #[trigger] compile_from(s, i)[k],
            ) by {
                let head = arith_ops(s, i, j);
                if k >= head.len() {
                    assert(compile_from(s, i)[k] == compile_from(s, j)[k - head.len()]);
                }
            }
        } else if is_shift(s[i]) {
            let j = shift_run_end(s, i);
            lemma_shift_run_end_bounds(s, i);
            lemma_count_in_bounds(s, '<', i, j);
            lemma_count_in_bounds(s, '>', i, j);
            lemma_compile_from_wf(s, j);
            assert forall|k: int| 0 <= k < compile_from(s, i).len() implies opcode_wf(
                #[trigger] compile_from(s, i)[k],
            ) by {
                let head = shift_ops(s, i, j);
                if k >= head.len() {
                    assert(compile_from(s, i)[k] == compile_from(s, j)[k - head.len()]);
                }
            }
        } else {
            lemma_compile_from_wf(s, i + 1);
            assert forall|k: int| 0 <= k < compile_from(s, i).len() implies opcode_wf(
                #[trigger] compile_from(s, i)[k],
            ) by {
                if k >= 1 {
                    assert(compile_from(s, i)[k] == compile_from(s, i + 1)[k - 1]);
                }
            }
        }
    }
}

/// The data-model invariant of the compiled form: every opcode the
/// compiler emits carries a strictly positive magnitude, because a run
/// whose net effect is zero is elided entirely.
pub proof fn lemma_compile_wf(s: Seq<char>)
    requires
        s.len() <= usize::MAX,
    ensures
        forall|k: int|
            0 <= k < compile_spec(s).len() ==> opcode_wf(#[trigger] compile_spec(s)[k]),
{
    lemma_command_chars_len(s);
    lemma_compile_from_wf(command_chars(s), 0);
}

/// Strips comments: keeps exactly the command characters, in order.
fn filter_commands(src: &str) -> (out: Vec<char>)
    ensures
        out@ == command_chars(src@),
{
    let n = src.unicode_len();
    let mut out: Vec<char> = Vec::new();
    let mut i: usize = 0;
    while i < n
        invariant
            n == src@.len(),
            i <= n,
            out@ == command_chars(src@.take(i as int)),
        decreases n - i,
    {
        let c = src.get_char(i);
        proof {
            assert(src@.take(i + 1).drop_last() =~= src@.take(i as int));
            assert(src@.take(i + 1).last() == src@[i as int]);
        }
        if c == '+' || c == '-' || c == '<' || c == '>' || c == '[' || c == ']' || c == '.'
            || c == ',' {
            out.push(c);
        }
        i = i + 1;
    }
    proof {
        assert(src@.take(n as int) =~= src@);
    }
    out
}

proof fn lemma_arith_run_end_is(s: Seq<char>, i: int, j: int)
    requires
        0 <= i <= j <= s.len(),
        forall|k: int| i <= k < j ==> is_arith(s[k]),
        j == s.len() || !is_arith(s[j]),
    ensures
        arith_run_end(s, i) == j,
    decreases j - i,
{
    if i < j {
        assert(is_arith(s[i]));
        lemma_arith_run_end_is(s, i + 1, j);
    }
}

proof fn lemma_shift_run_end_is(s: Seq<char>, i: int, j: int)
    requires
        0 <= i <= j <= s.len(),
        forall|k: int| i <= k < j ==> is_shift(s[k]),
        j == s.len() || !is_shift(s[j]),
    ensures
        shift_run_end(s, i) == j,
    decreases j - i,
{
    if i < j {
        assert(is_shift(s[i]));
        lemma_shift_run_end_is(s, i + 1, j);
    }
}

/// Compiles a source text into its opcode sequence. Compilation is total;
/// malformed bracket nesting is detected later by the jump-table builder.
pub fn compile_opcodes(src: &str) -> (ops: Vec<Opcode>)
    ensures
        ops@ == compile_spec(src@),
{
    let cmds = filter_commands(src);
    let ghost f = cmds@;
    let n = cmds.len();
    let mut ops: Vec<Opcode> = Vec::new();
    let mut i: usize = 0;
    while i < n
        invariant
            n == f.len(),
            cmds@ == f,
            i <= n,
            compile_from(f, 0) == ops@ + compile_from(f, i as int),
        decreases n - i,
    {
        let c = cmds[i];
        if c == '+' || c == '-' {
            let mut j: usize = i;
            let mut plus: usize = 0;
            let mut minus: usize = 0;
            while j < n && (cmds[j] == '+' || cmds[j] == '-')
                invariant
                    n == f.len(),
                    cmds@ == f,
                    i <= j <= n,
                    forall|k: int| i <= k < j ==> is_arith(f[k]),
                    plus == count_in(f, '+', i as int, j as int),
                    minus == count_in(f, '-', i as int, j as int),
                    plus + minus == j - i,
                decreases n - j,
            {
                if cmds[j] == '+' {
                    plus = plus + 1;
                } else {
                    minus = minus + 1;
                }
                j = j + 1;
            }
            proof {
                lemma_arith_run_end_is(f, i as int, j as int);
            }
            let ghost ops_before = ops@;
            if plus > minus {
                ops.push(Opcode::Add(plus - minus));
            } else if minus > plus {
                ops.push(Opcode::Sub(minus - plus));
            }
            proof {
                assert(ops@ =~= ops_before + arith_ops(f, i as int, j as int));
                assert((ops_before + arith_ops(f, i as int, j as int)) + compile_from(
                    f,
                    j as int,
                ) =~= ops_before + (arith_ops(f, i as int, j as int) + compile_from(f, j as int)));
            }
            i = j;
        } else if c == '<' || c == '>' {
            let mut j: usize = i;
            let mut left: usize = 0;
            let mut right: usize = 0;
            while j < n && (cmds[j] == '<' || cmds[j] == '>')
                invariant
                    n == f.len(),
                    cmds@ == f,
                    i <= j <= n,
                    forall|k: int| i <= k < j ==> is_shift(f[k]),
                    left == count_in(f, '<', i as int, j as int),
                    right == count_in(f, '>', i as int, j as int),
                    left + right == j - i,
                decreases n - j,
            {
                if cmds[j] == '<' {
                    left = left + 1;
                } else {
                    right = right + 1;
                }
                j = j + 1;
            }
            proof {
                lemma_shift_run_end_is(f, i as int, j as int);
            }
            let ghost ops_before = ops@;
            if right > left {
                ops.push(Opcode::ShiftRight(right - left));
            } else if left > right {
                ops.push(Opcode::ShiftLeft(left - right));
            }
            proof {
                assert(ops@ =~= ops_before + shift_ops(f, i as int, j as int));
                assert((ops_before + shift_ops(f, i as int, j as int)) + compile_from(
                    f,
                    j as int,
                ) =~= ops_before + (shift_ops(f, i as int, j as int) + compile_from(f, j as int)));
            }
            i = j;
        } else {
            let ghost ops_before = ops@;
            if c == '.' {
                ops.push(Opcode::Print);
            } else if c == ',' {
                ops.push(Opcode::Input);
            } else if c == '[' {
                ops.push(Opcode::BeginLoop);
            } else {
                ops.push(Opcode::EndLoop);
            }
            proof {
                assert(ops@ =~= ops_before + seq![singleton_op(f[i as int])]);
                assert((ops_before + seq![singleton_op(f[i as int])]) + compile_from(
                    f,
                    i + 1,
                ) =~= ops_before + (seq![singleton_op(f[i as int])] + compile_from(f, i + 1)));
            }
            i = i + 1;
        }
    }
    proof {
        assert(ops@ + compile_from(f, n as int) =~= ops@);
    }
    ops
}

} // verus!
