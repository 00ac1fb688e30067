//! Jump-table construction: pairing every loop bracket with its syntactic
//! partner before execution begins.
//!
//! The table is an array indexed in parallel with the opcode sequence. At
//! every index holding a loop bracket it stores the index of the matching
//! bracket, so that the machine can jump in constant time; entries at other
//! indices are meaningless placeholders. A program with broken bracket
//! structure is rejected here, before any execution.

use vstd::prelude::*;
use crate::opcode::Opcode;

verus! {

/// A structural bracket error, detected before any execution begins.
#[derive(Clone, Copy, Debug, PartialEq, Eq, Structural)]
pub enum StructuralError {
    /// A close bracket with nothing open; `index` is the position of the
    /// leftmost such opcode.
    UnmatchedClose { index: usize },
    /// Open brackets left unclosed at the end of the program; `count` says
    /// how many.
    UnmatchedOpen { count: usize },
}

/// +1 for an open bracket, -1 for a close, 0 for every other opcode.
pub open spec fn bracket_delta(op: Opcode) -> int {
    if op is BeginLoop {
        1
    } else if op is EndLoop {
        -1
    } else {
        0
    }
}

/// Open brackets minus close brackets over the whole sequence.
pub open spec fn depth(ops: Seq<Opcode>) -> int
    decreases ops.len(),
{
    if ops.len() == 0 {
        0
    } else {
        depth(ops.drop_last()) + bracket_delta(ops.last())
    }
}

/// No prefix of length at most `i` closes more brackets than it opens.
pub open spec fn prefix_ok(ops: Seq<Opcode>, i: int) -> bool {
    forall|k: int| 0 <= k <= i ==> depth(#[trigger] ops.take(k)) >= 0
}

/// Well-bracketed: every prefix is nonnegative and the whole nets to zero.
pub open spec fn balanced(ops: Seq<Opcode>) -> bool {
    depth(ops) == 0 && prefix_ok(ops, ops.len() as int)
}

/// `i` is the leftmost close bracket that has nothing open before it.
pub open spec fn first_unmatched_close(ops: Seq<Opcode>, i: int) -> bool {
    &&& 0 <= i < ops.len()
    &&& ops[i] is EndLoop
    &&& depth(ops.take(i)) == 0
    &&& prefix_ok(ops, i)
}

/// Indices `i < j` form a matched open/close pair under `table`: each entry
/// points at the other and the opcodes strictly between them are themselves
/// well bracketed.
pub open spec fn partners(ops: Seq<Opcode>, table: Seq<usize>, i: int, j: int) -> bool {
    &&& 0 <= i < j < ops.len()
    &&& ops[i] is BeginLoop
    &&& ops[j] is EndLoop
    &&& table[i] == j
    &&& table[j] == i
    &&& balanced(ops.subrange(i + 1, j))
}

/// The table pairs every loop bracket with its syntactic partner, a perfect
/// involution over the loop-boundary indices.
pub open spec fn table_matches(ops: Seq<Opcode>, table: Seq<usize>) -> bool {
    &&& table.len() == ops.len()
    &&& forall|i: int|
        0 <= i < ops.len() && (#[trigger] ops[i]) is BeginLoop ==> partners(
            ops,
            table,
            i,
            table[i] as int,
        )
    &&& forall|i: int|
        0 <= i < ops.len() && (#[trigger] ops[i]) is EndLoop ==> partners(
            ops,
            table,
            table[i] as int,
            i,
        )
}

pub proof fn lemma_depth_concat(a: Seq<Opcode>, b: Seq<Opcode>)
    ensures
        depth(a + b) == depth(a) + depth(b),
    decreases b.len(),
{
    if b.len() == 0 {
        assert(a + b =~= a);
    } else {
        assert((a + b).drop_last() =~= a + b.drop_last());
        assert((a + b).last() == b.last());
        lemma_depth_concat(a, b.drop_last());
    }
}

/// One step of scanning: the depth of a prefix grows by the delta of the
/// opcode that ends it.
pub proof fn lemma_depth_take_step(ops: Seq<Opcode>, i: int)
    requires
        0 <= i < ops.len(),
    ensures
        depth(ops.take(i + 1)) == depth(ops.take(i)) + bracket_delta(ops[i]),
{
    assert(ops.take(i + 1).drop_last() =~= ops.take(i));
    assert(ops.take(i + 1).last() == ops[i]);
}

pub proof fn lemma_balanced_empty()
    ensures
        balanced(Seq::<Opcode>::empty()),
{
    assert forall|k: int| 0 <= k <= 0 implies depth(#[trigger] Seq::<Opcode>::empty().take(k))
        >= 0 by {
        assert(Seq::<Opcode>::empty().take(k) =~= Seq::<Opcode>::empty());
    }
}

/// A well-bracketed sequence stays well bracketed when an opcode that is
/// not a bracket is appended.
pub proof fn lemma_balanced_push_nop(s: Seq<Opcode>, x: Opcode)
    requires
        balanced(s),
        bracket_delta(x) == 0,
    ensures
        balanced(s.push(x)),
{
    assert(s.push(x).drop_last() =~= s);
    assert(s.push(x).last() == x);
    assert forall|k: int| 0 <= k <= s.push(x).len() implies depth(#[trigger] s.push(x).take(k))
        >= 0 by {
        if k <= s.len() {
            assert(s.push(x).take(k) =~= s.take(k));
        } else {
            assert(s.push(x).take(k) =~= s.push(x));
        }
    }
}

/// Wrapping one well-bracketed sequence in a bracket pair and appending it
/// to another keeps the whole well bracketed.
pub proof fn lemma_balanced_join(a: Seq<Opcode>, b: Seq<Opcode>, o: Opcode, c: Opcode)
    requires
        balanced(a),
        balanced(b),
        bracket_delta(o) == 1,
        bracket_delta(c) == -1,
    ensures
        balanced(a + seq![o] + b + seq![c]),
{
    let s = a + seq![o] + b + seq![c];
    let la = a.len() as int;
    let lb = b.len() as int;
    lemma_depth_concat(a, seq![o]);
    lemma_depth_concat(a + seq![o], b);
    lemma_depth_concat(a + seq![o] + b, seq![c]);
    assert(depth(Seq::<Opcode>::empty()) == 0);
    assert(depth(seq![o]) == 1) by {
        assert(seq![o].drop_last() =~= Seq::<Opcode>::empty());
        assert(seq![o].last() == o);
    }
    assert(depth(seq![c]) == -1) by {
        assert(seq![c].drop_last() =~= Seq::<Opcode>::empty());
        assert(seq![c].last() == c);
    }
    assert(depth(s) == 0);
    assert forall|k: int| 0 <= k <= s.len() implies depth(#[trigger] s.take(k)) >= 0 by {
        if k <= la {
            assert(s.take(k) =~= a.take(k));
        } else if k <= la + 1 {
            assert(s.take(k) =~= a + seq![o]);
        } else if k <= la + 1 + lb {
            assert(s.take(k) =~= (a + seq![o]) + b.take(k - la - 1));
            lemma_depth_concat(a + seq![o], b.take(k - la - 1));
        } else {
            assert(s.take(k) =~= s);
        }
    }
}

/// Two closes of the same open coincide: a close strictly inside the
/// shorter well-bracketed interior would push a prefix of the longer one
/// below depth zero.
proof fn lemma_partner_unique_open(ops: Seq<Opcode>, i: int, j1: int, j2: int)
    requires
        0 <= i < j1 < ops.len(),
        i < j2 < ops.len(),
        ops[j1] is EndLoop,
        ops[j2] is EndLoop,
        balanced(ops.subrange(i + 1, j1)),
        balanced(ops.subrange(i + 1, j2)),
    ensures
        j1 == j2,
{
    if j1 != j2 {
        let jsmall = if j1 < j2 { j1 } else { j2 };
        let jbig = if j1 < j2 { j2 } else { j1 };
        let inner = ops.subrange(i + 1, jbig);
        let k = jsmall - i;
        assert(inner.take(k).drop_last() =~= ops.subrange(i + 1, jsmall));
        assert(inner.take(k).last() == ops[jsmall]);
        assert(depth(inner.take(k)) == depth(ops.subrange(i + 1, jsmall)) + bracket_delta(
            ops[jsmall],
        ));
    }
}

/// Two opens of the same close coincide: an open strictly inside the
/// longer well-bracketed interior would leave one of its prefixes at
/// negative depth.
proof fn lemma_partner_unique_close(ops: Seq<Opcode>, p1: int, p2: int, i: int)
    requires
        0 <= p1 < i < ops.len(),
        0 <= p2 < i,
        ops[p1] is BeginLoop,
        ops[p2] is BeginLoop,
        balanced(ops.subrange(p1 + 1, i)),
        balanced(ops.subrange(p2 + 1, i)),
    ensures
        p1 == p2,
{
    if p1 != p2 {
        let psmall = if p1 < p2 { p1 } else { p2 };
        let pbig = if p1 < p2 { p2 } else { p1 };
        let inner = ops.subrange(psmall + 1, i);
        let pre = ops.subrange(psmall + 1, pbig);
        let post = ops.subrange(pbig + 1, i);
        assert(inner =~= pre + seq![ops[pbig]] + post);
        lemma_depth_concat(pre, seq![ops[pbig]]);
        lemma_depth_concat(pre + seq![ops[pbig]], post);
        assert(depth(seq![ops[pbig]]) == 1) by {
            assert(seq![ops[pbig]].drop_last() =~= Seq::<Opcode>::empty());
            assert(seq![ops[pbig]].last() == ops[pbig]);
            assert(depth(Seq::<Opcode>::empty()) == 0);
        }
        assert(inner.take(pbig - psmall - 1) =~= pre);
    }
}

/// A well-bracketed opcode sequence pins its jump table: any two matching
/// tables agree at every loop-boundary index.
pub proof fn lemma_table_unique(ops: Seq<Opcode>, t1: Seq<usize>, t2: Seq<usize>)
    requires
        table_matches(ops, t1),
        table_matches(ops, t2),
    ensures
        forall|i: int|
            0 <= i < ops.len() && crate::opcode::is_loop_bracket(#[trigger] ops[i]) ==> t1[i]
                == t2[i],
{
    assert forall|i: int|
        0 <= i < ops.len() && crate::opcode::is_loop_bracket(#[trigger] ops[i]) implies t1[i]
        == t2[i] by {
        if ops[i] is BeginLoop {
            assert(partners(ops, t1, i, t1[i] as int));
            assert(partners(ops, t2, i, t2[i] as int));
            lemma_partner_unique_open(ops, i, t1[i] as int, t2[i] as int);
        } else {
            assert(partners(ops, t1, t1[i] as int, i));
            assert(partners(ops, t2, t2[i] as int, i));
            lemma_partner_unique_close(ops, t1[i] as int, t2[i] as int, i);
        }
    }
}

/// For any well-bracketed opcode sequence, a matching jump table is a
/// perfect involution over the loop-boundary indices: following an entry
/// twice leads back to where it started.
pub proof fn lemma_table_involution(ops: Seq<Opcode>, table: Seq<usize>)
    requires
        table_matches(ops, table),
    ensures
        forall|i: int|
            0 <= i < ops.len() && crate::opcode::is_loop_bracket(#[trigger] ops[i]) ==> table[
                table[i] as int
            ] == i,
{
    assert forall|i: int|
        0 <= i < ops.len() && crate::opcode::is_loop_bracket(#[trigger] ops[i]) implies table[
        table[i] as int
    ] == i by {
        if ops[i] is BeginLoop {
            assert(partners(ops, table, i, table[i] as int));
        } else {
            assert(partners(ops, table, table[i] as int, i));
        }
    }
}

/// `j` occurs among the pending open-bracket indices.
spec fn in_seq(s: Seq<usize>, j: int) -> bool {
    exists|k: int| 0 <= k < s.len() && s[k] == j
}

spec fn increasing(s: Seq<usize>) -> bool {
    forall|p: int, q: int| 0 <= p < q < s.len() ==> s[p] < s[q]
}

spec fn between_ok(ops: Seq<Opcode>, st: Seq<usize>, k: int) -> bool {
    balanced(ops.subrange(st[k] as int + 1, st[k + 1] as int))
}

proof fn lemma_in_seq_push(s: Seq<usize>, x: usize)
    ensures
        forall|j: int| #[trigger] in_seq(s.push(x), j) <==> (in_seq(s, j) || j == x),
{
    assert forall|j: int| #[trigger] in_seq(s.push(x), j) implies (in_seq(s, j) || j == x) by {
        let k = choose|k: int| 0 <= k < s.push(x).len() && s.push(x)[k] == j;
        if k < s.len() {
            assert(s[k] == j);
        }
    }
    assert forall|j: int| (in_seq(s, j) || j == x) implies #[trigger] in_seq(s.push(x), j) by {
        if in_seq(s, j) {
            let k = choose|k: int| 0 <= k < s.len() && s[k] == j;
            assert(s.push(x)[k] == j);
        } else {
            assert(s.push(x)[s.len() as int] == x);
        }
    }
}

proof fn lemma_in_seq_drop(s: Seq<usize>)
    requires
        s.len() > 0,
    ensures
        forall|j: int| #[trigger] in_seq(s.drop_last(), j) ==> in_seq(s, j),
        forall|j: int| #[trigger] in_seq(s, j) ==> in_seq(s.drop_last(), j) || j == s.last(),
{
    assert forall|j: int| #[trigger] in_seq(s.drop_last(), j) implies in_seq(s, j) by {
        let k = choose|k: int| 0 <= k < s.drop_last().len() && s.drop_last()[k] == j;
        assert(s[k] == j);
    }
    assert forall|j: int| #[trigger] in_seq(s, j) implies (in_seq(s.drop_last(), j) || j
        == s.last()) by {
        let k = choose|k: int| 0 <= k < s.len() && s[k] == j;
        if k < s.len() - 1 {
            assert(s.drop_last()[k] == j);
        }
    }
}

/// Builds the jump table for an opcode sequence in a single left-to-right
/// pass, keeping a stack of pending open brackets. A close bracket with an
/// empty stack is reported at once with its position; opens still pending
/// after the scan are reported by their count. On success the table pairs
/// every loop bracket with its syntactic partner, and the sequence is well
/// bracketed exactly when the result is a table.
pub fn compile_jump_table(ops: &Vec<Opcode>) -> (r: Result<Vec<usize>, StructuralError>)
    ensures
        match r {
            Ok(table) => balanced(ops@) && table_matches(ops@, table@),
            Err(StructuralError::UnmatchedClose { index }) => first_unmatched_close(
                ops@,
                index as int,
            ),
            Err(StructuralError::UnmatchedOpen { count }) => {
                &&& count > 0
                &&& depth(ops@) == count
                &&& prefix_ok(ops@, ops@.len() as int)
            },
        },
        (r is Ok) <==> balanced(ops@),
{
    let ghost g = ops@;
    let n = ops.len();
    let mut table: Vec<usize> = Vec::new();
    let mut k: usize = 0;
    while k < n
        invariant
            k <= n,
            table@.len() == k,
        decreases n - k,
    {
        table.push(0);
        k = k + 1;
    }
    let mut stack: Vec<usize> = Vec::new();
    let mut i: usize = 0;
    proof {
        assert(g.take(0) =~= Seq::<Opcode>::empty());
    }
    while i < n
        invariant
            n == g.len(),
            ops@ == g,
            table@.len() == n,
            i <= n,
            increasing(stack@),
            forall|k: int|
                0 <= k < stack@.len() ==> (#[trigger] stack@[k]) < i && g[stack@[k] as int]
                    is BeginLoop,
            depth(g.take(i as int)) == stack@.len(),
            prefix_ok(g, i as int),
            forall|k: int| 0 <= k < stack@.len() - 1 ==> #[trigger] between_ok(g, stack@, k),
            stack@.len() > 0 ==> balanced(g.subrange(stack@.last() as int + 1, i as int)),
            forall|j: int|
                0 <= j < i && (#[trigger] g[j]) is BeginLoop && !in_seq(stack@, j) ==> j
                    < table@[j] < i && partners(g, table@, j, table@[j] as int),
            forall|j: int|
                0 <= j < i && (#[trigger] g[j]) is EndLoop ==> partners(
                    g,
                    table@,
                    table@[j] as int,
                    j,
                ) && !in_seq(stack@, table@[j] as int),
        decreases n - i,
    {
        let ghost ii = i as int;
        let ghost old_stack = stack@;
        let ghost old_table = table@;
        let op = ops[i];
        proof {
            lemma_depth_take_step(g, ii);
        }
        match op {
            Opcode::BeginLoop => {
                stack.push(i);
                proof {
                    lemma_in_seq_push(old_stack, i);
                    lemma_balanced_empty();
                    assert(g.subrange(ii + 1, ii + 1) =~= Seq::<Opcode>::empty());
                    assert forall|k: int| 0 <= k <= ii + 1 implies depth(#[trigger] g.take(k))
                        >= 0 by {
                        if k <= ii {
                            assert(depth(g.take(k)) >= 0);
                        }
                    }
                    assert forall|k: int| 0 <= k < stack@.len() - 1 implies #[trigger] between_ok(
                        g,
                        stack@,
                        k,
                    ) by {
                        if k < old_stack.len() - 1 {
                            assert(between_ok(g, old_stack, k));
                            assert(stack@[k] == old_stack[k]);
                            assert(stack@[k + 1] == old_stack[k + 1]);
                        } else {
                            assert(stack@[k] == old_stack.last());
                            assert(stack@[k + 1] == i);
                        }
                    }
                }
            },
            Opcode::EndLoop => {
                if stack.len() == 0 {
                    proof {
                        assert(first_unmatched_close(g, ii));
                        assert(depth(g.take(ii + 1)) < 0);
                        assert(!balanced(g));
                    }
                    return Err(StructuralError::UnmatchedClose { index: i });
                }
                let t = stack[stack.len() - 1];
                stack.pop();
                table[t] = i;
                table[i] = t;
                proof {
                    let tt = t as int;
                    assert(old_stack.last() == t);
                    assert(stack@ =~= old_stack.drop_last());
                    lemma_in_seq_drop(old_stack);
                    assert(table@ == old_table.update(tt, i).update(ii, t));
                    assert(tt < ii);
                    // The new pair.
                    assert(table@[tt] == i);
                    assert(table@[ii] == t);
                    assert(balanced(g.subrange(tt + 1, ii)));
                    assert(partners(g, table@, tt, ii));
                    // Depths and prefixes.
                    assert(depth(g.take(ii + 1)) == stack@.len());
                    assert forall|k: int| 0 <= k <= ii + 1 implies depth(#[trigger] g.take(k))
                        >= 0 by {
                        if k <= ii {
                            assert(depth(g.take(k)) >= 0);
                        }
                    }
                    // The popped index is on no remaining stack entry.
                    assert(!in_seq(stack@, tt)) by {
                        if in_seq(stack@, tt) {
                            let k = choose|k: int|
                                0 <= k < stack@.len() && stack@[k] == t;
                            assert(old_stack[k] == t);
                            assert(old_stack[k] < old_stack[old_stack.len() - 1]);
                        }
                    }
                    // Segments between remaining stack entries.
                    assert forall|k: int| 0 <= k < stack@.len() - 1 implies #[trigger] between_ok(
                        g,
                        stack@,
                        k,
                    ) by {
                        assert(between_ok(g, old_stack, k));
                        assert(stack@[k] == old_stack[k]);
                        assert(stack@[k + 1] == old_stack[k + 1]);
                    }
                    // The new last segment swallows the closed pair.
                    if stack@.len() > 0 {
                        let q = stack@.last() as int;
                        assert(between_ok(g, old_stack, old_stack.len() - 2));
                        assert(old_stack[old_stack.len() - 2] == stack@.last());
                        assert(balanced(g.subrange(q + 1, tt)));
                        lemma_balanced_join(
                            g.subrange(q + 1, tt),
                            g.subrange(tt + 1, ii),
                            g[tt],
                            g[ii],
                        );
                        assert(g.subrange(q + 1, ii + 1) =~= g.subrange(q + 1, tt) + seq![g[tt]]
                            + g.subrange(tt + 1, ii) + seq![g[ii]]);
                    }
                    // Previously matched opens keep their partners.
                    assert forall|j: int|
                        0 <= j < i + 1 && (#[trigger] g[j]) is BeginLoop && !in_seq(stack@, j)
                            implies j < table@[j] < i + 1 && partners(
                            g,
                            table@,
                            j,
                            table@[j] as int,
                        ) by {
                        if j == tt {
                            assert(partners(g, table@, tt, ii));
                        } else {
                            assert(j < ii);
                            assert(!in_seq(old_stack, j));
                            assert(partners(g, old_table, j, old_table[j] as int));
                            let p = old_table[j] as int;
                            assert(g[p] is EndLoop);
                            assert(p != tt && p != ii && j != tt && j != ii);
                            assert(table@[j] == old_table[j]);
                            assert(table@[p] == old_table[p]);
                            assert(partners(g, table@, j, table@[j] as int));
                        }
                    }
                    // Previously matched closes keep their partners.
                    assert forall|j: int| 0 <= j < i + 1 && (#[trigger] g[j]) is EndLoop implies
                        partners(g, table@, table@[j] as int, j) && !in_seq(
                            stack@,
                            table@[j] as int,
                        ) by {
                        if j == ii {
                            assert(partners(g, table@, tt, ii));
                        } else {
                            assert(partners(g, old_table, old_table[j] as int, j));
                            let p = old_table[j] as int;
                            assert(!in_seq(old_stack, p));
                            assert(in_seq(old_stack, tt)) by {
                                assert(old_stack[old_stack.len() - 1] == t);
                            }
                            assert(p != tt && p != ii && j != tt && j != ii);
                            assert(table@[j] == old_table[j]);
                            assert(table@[p] == old_table[p]);
                            assert(!in_seq(stack@, p));
                        }
                    }
                }
            },
            _ => {
                proof {
                    assert(bracket_delta(g[ii]) == 0);
                    assert forall|k: int| 0 <= k <= ii + 1 implies depth(#[trigger] g.take(k))
                        >= 0 by {
                        if k <= ii {
                            assert(depth(g.take(k)) >= 0);
                        }
                    }
                    if stack@.len() > 0 {
                        let q = stack@.last() as int;
                        lemma_balanced_push_nop(g.subrange(q + 1, ii), g[ii]);
                        assert(g.subrange(q + 1, ii + 1) =~= g.subrange(q + 1, ii).push(g[ii]));
                    }
                }
            },
        }
        i = i + 1;
    }
    proof {
        assert(g.take(n as int) =~= g);
    }
    if stack.len() == 0 {
        proof {
            assert(balanced(g));
            assert(table_matches(g, table@));
        }
        Ok(table)
    } else {
        proof {
            assert(depth(g) == stack@.len());
            assert(!balanced(g));
        }
        Err(StructuralError::UnmatchedOpen { count: stack.len() })
    }
}

} // verus!
