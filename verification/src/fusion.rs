//! Fusion is correct: the interpreter of the primitive program and the
//! interpreter of its intermediate representation read and write the same
//! bytes.

use crate::brainfuck;
use crate::brainfuck::Instruction as BfInstruction;
use crate::ir;
use crate::ir::{
    fuse_one, fused, joins, lemma_fused_unfold, lemma_run_is_maximal, lemma_total_bounds, lowered,
    tail_len, total, unit, MAX_PROGRAM_LEN,
};
use crate::machine::{wrap_cell, Machine, TAPE_LEN};
use crate::nesting::{
    balanced, closer, depth, lemma_balanced_pairs, lemma_closer_is, lemma_depth_flat,
    lemma_depth_one, lemma_depth_split, lemma_matched_ends, lemma_opener_is, matched, opener,
    Bracket,
};
use vstd::prelude::*;

verus! {

/// The number of primitive instructions that the group beginning at `at`
/// consists of: one, or a whole run of increments.
pub open spec fn group_len(program: Seq<BfInstruction>, at: int) -> int {
    1 + tail_len(program.skip(at))
}

/// Where in the primitive program the group begins that instruction `j` of
/// the fused program stands for.
pub open spec fn origin(program: Seq<BfInstruction>, j: int) -> int
    decreases j,
{
    if j <= 0 {
        0
    } else {
        origin(program, j - 1) + group_len(program, origin(program, j - 1))
    }
}

/// The groups lie one behind the other inside the program, and the fused
/// program from instruction `j` on is what fusion makes of the primitive
/// program from the origin of `j` on.
pub proof fn lemma_origin(program: Seq<BfInstruction>, j: int)
    requires
        0 <= j <= fused(program).len(),
    ensures
        0 <= origin(program, j) <= program.len(),
        j < fused(program).len() <==> origin(program, j) < program.len(),
        fused(program.skip(origin(program, j))) == fused(program).skip(j),
        j < fused(program).len() ==> origin(program, j) < origin(program, j + 1) <= program.len(),
    decreases j,
{
    if j == 0 {
        assert(program.skip(0) =~= program);
    } else {
        lemma_origin(program, j - 1);
        let before = origin(program, j - 1);
        let rest = program.skip(before);
        lemma_fused_unfold(rest);
        let g = group_len(program, before);
        assert(rest.skip(g) =~= program.skip(before + g));
        assert(fused(program).skip(j - 1).skip(1) =~= fused(program).skip(j));
    }
    let here = origin(program, j);
    if here < program.len() {
        lemma_fused_unfold(program.skip(here));
    } else {
        assert(program.skip(here).len() == 0);
    }
}

/// The instruction `j` of the fused program, by the group that it stands
/// for: the group begins at the origin of `j`, and the instructions after
/// its first one are a run of the kind of the first.
pub proof fn lemma_group(program: Seq<BfInstruction>, j: int)
    requires
        0 <= j < fused(program).len(),
    ensures
        0 <= origin(program, j) < origin(program, j + 1) <= program.len(),
        origin(program, j + 1) == origin(program, j) + group_len(program, origin(program, j)),
        fused(program)[j] == fuse_one(
            program[origin(program, j)],
            total(program.subrange(origin(program, j) + 1, origin(program, j + 1))),
        ),
        forall|k: int|
            origin(program, j) < k < origin(program, j + 1) ==> joins(
                #[trigger] program[k],
                joins(program[origin(program, j)], true),
            ),
        origin(program, j) + 1 < origin(program, j + 1) ==> joins(program[origin(program, j)], true)
            || joins(program[origin(program, j)], false),
{
    lemma_origin(program, j);
    let here = origin(program, j);
    let rest = program.skip(here);
    lemma_fused_unfold(rest);
    lemma_run_is_maximal(rest.skip(1), true);
    lemma_run_is_maximal(rest.skip(1), false);
    let n = tail_len(rest);
    assert(rest.subrange(1, 1 + n) =~= program.subrange(here + 1, here + 1 + n));
    assert forall|k: int| here < k < here + 1 + n implies joins(
        #[trigger] program[k],
        joins(program[here], true),
    ) by {
        assert(program[k] == rest.skip(1)[k - here - 1]);
    }
}

/// A group holds the bracket of its instruction: over the group, the
/// primitive program is as deep as the fused program over the instruction.
pub proof fn lemma_group_depth(program: Seq<BfInstruction>, j: int)
    requires
        0 <= j < fused(program).len(),
    ensures
        ir::shape(fused(program))[j] == brainfuck::shape(program)[origin(program, j)],
        forall|k: int|
            origin(program, j) < k < origin(program, j + 1) ==> #[trigger] brainfuck::shape(
                program,
            )[k] == Bracket::Neither,
        origin(program, j) + 1 < origin(program, j + 1) ==> brainfuck::shape(program)[origin(
            program,
            j,
        )] == Bracket::Neither,
        forall|k: int|
            origin(program, j) < k <= origin(program, j + 1) ==> #[trigger] depth(
                brainfuck::shape(program),
                origin(program, j),
                k,
            ) == crate::nesting::weight(ir::shape(fused(program))[j]),
{
    lemma_group(program, j);
    let here = origin(program, j);
    let next = origin(program, j + 1);
    let sh = brainfuck::shape(program);
    assert forall|k: int| here < k < next implies #[trigger] sh[k] == Bracket::Neither by {
        assert(joins(program[k], joins(program[here], true)));
    }
    assert forall|k: int| here < k <= next implies #[trigger] depth(sh, here, k)
        == crate::nesting::weight(ir::shape(fused(program))[j]) by {
        lemma_depth_one(sh, here);
        lemma_depth_split(sh, here, here + 1, k);
        lemma_depth_flat(sh, here + 1, k);
    }
}

/// Between the origins of two instructions the primitive program is as deep
/// as the fused program between the instructions.
pub proof fn lemma_depth_carries(program: Seq<BfInstruction>, a: int, b: int)
    requires
        0 <= a <= b <= fused(program).len(),
    ensures
        origin(program, a) <= origin(program, b),
        depth(brainfuck::shape(program), origin(program, a), origin(program, b)) == depth(
            ir::shape(fused(program)),
            a,
            b,
        ),
    decreases b - a,
{
    if a < b {
        lemma_depth_carries(program, a, b - 1);
        lemma_group_depth(program, b - 1);
        lemma_group(program, b - 1);
        lemma_depth_split(
            brainfuck::shape(program),
            origin(program, a),
            origin(program, b - 1),
            origin(program, b),
        );
        assert(depth(brainfuck::shape(program), origin(program, b - 1), origin(program, b))
            == crate::nesting::weight(ir::shape(fused(program))[b - 1]));
    }
}

/// Inside a loop of the fused program, the primitive program stays inside
/// the loop too: up to the origin of `b + 1` its depth, counted from the
/// origin of the opening bracket, is positive.
proof fn lemma_stays_open(program: Seq<BfInstruction>, open: int, close: int, b: int)
    requires
        matched(ir::shape(fused(program)), open, close),
        open <= b < close,
    ensures
        forall|k: int|
            origin(program, open) < k <= origin(program, b + 1) ==> depth(
                brainfuck::shape(program),
                origin(program, open),
                k,
            ) > 0,
    decreases b - open,
{
    let sh = brainfuck::shape(program);
    let ish = ir::shape(fused(program));
    let start = origin(program, open);
    crate::nesting::lemma_matched_ends(ish, open, close);
    lemma_group_depth(program, b);
    lemma_group(program, b);
    lemma_depth_carries(program, open, b);
    if open < b {
        lemma_stays_open(program, open, close, b - 1);
    }
    assert forall|k: int| start < k <= origin(program, b + 1) implies depth(sh, start, k) > 0 by {
        if k > origin(program, b) {
            reveal(matched);
            lemma_depth_split(sh, start, origin(program, b), k);
            lemma_depth_one(ish, b);
            lemma_depth_split(ish, open, b, b + 1);
        }
    }
}

/// A pair of brackets of the fused program is a pair of brackets of the
/// primitive program, at the origins of the two.
pub proof fn lemma_match_carries(program: Seq<BfInstruction>, open: int, close: int)
    requires
        matched(ir::shape(fused(program)), open, close),
    ensures
        matched(brainfuck::shape(program), origin(program, open), origin(program, close)),
        origin(program, close + 1) == origin(program, close) + 1,
        origin(program, open + 1) == origin(program, open) + 1,
{
    let sh = brainfuck::shape(program);
    let ish = ir::shape(fused(program));
    crate::nesting::lemma_matched_ends(ish, open, close);
    lemma_stays_open(program, open, close, close - 1);
    lemma_group_depth(program, open);
    lemma_group_depth(program, close);
    lemma_group(program, open);
    lemma_group(program, close);
    lemma_depth_carries(program, open, close + 1);
    lemma_depth_carries(program, open + 1, close);
    lemma_origin(program, open);
    lemma_origin(program, close);
    let o = origin(program, open);
    let c = origin(program, close);
    assert(ish[open] == Bracket::Open && ish[close] == Bracket::Close && depth(
        ish,
        open,
        close + 1,
    ) == 0) by {
        reveal(matched);
    }
    assert(matched(sh, o, c)) by {
        reveal(matched);
    }
}

/// The brackets of a program are balanced if and only if those of the
/// fused program are.
pub proof fn lemma_balance_carries(program: Seq<BfInstruction>)
    ensures
        balanced(brainfuck::shape(program)) <==> balanced(ir::shape(fused(program))),
{
    let sh = brainfuck::shape(program);
    let ish = ir::shape(fused(program));
    let n = fused(program).len() as int;
    lemma_origin(program, n);
    lemma_depth_carries(program, 0, n);
    if balanced(sh) {
        assert forall|b: int| 0 <= b <= n implies depth(ish, 0, b) >= 0 by {
            lemma_depth_carries(program, 0, b);
            lemma_origin(program, b);
        }
    }
    if balanced(ish) {
        assert forall|k: int| 0 <= k <= sh.len() implies depth(sh, 0, k) >= 0 by {
            if k > 0 {
                lemma_prefixes(program, n - 1, k);
            }
        }
    }
}

/// If no prefix of the fused program closes more than it opens, then none
/// of the primitive program does, up to the end of group `b`.
proof fn lemma_prefixes(program: Seq<BfInstruction>, b: int, k: int)
    requires
        0 <= b < fused(program).len(),
        0 < k <= origin(program, b + 1),
        forall|i: int| 0 <= i <= fused(program).len() ==> depth(ir::shape(fused(program)), 0, i) >= 0,
    ensures
        depth(brainfuck::shape(program), 0, k) >= 0,
    decreases b,
{
    let sh = brainfuck::shape(program);
    let ish = ir::shape(fused(program));
    lemma_group(program, b);
    if k <= origin(program, b) {
        lemma_prefixes(program, b - 1, k);
    } else {
        lemma_group_depth(program, b);
        lemma_depth_carries(program, 0, b);
        lemma_depth_split(sh, 0, origin(program, b), k);
        lemma_depth_one(ish, b);
        lemma_depth_split(ish, 0, b, b + 1);
    }
}

/// A run of `a + b` instructions is a run of `a` and then, unless it has
/// failed, one of `b`.
pub proof fn lemma_run_more(program: Seq<BfInstruction>, m: Machine, a: nat, b: nat)
    ensures
        brainfuck::run(program, m, a + b) == if brainfuck::run(program, m, a).error is None {
            brainfuck::run(program, brainfuck::run(program, m, a).machine, b)
        } else {
            brainfuck::run(program, m, a)
        },
    decreases a,
{
    if a == 0 {
    } else if brainfuck::halted(program, m) {
        assert(brainfuck::run(program, m, b) == brainfuck::run(program, m, 0)) by {
            lemma_halted_stays(program, m, b);
        }
    } else {
        match brainfuck::step_of(program, m) {
            Ok(next) => {
                lemma_run_more(program, next, (a - 1) as nat, b);
            },
            Err(_) => {},
        }
    }
}

/// A machine that has halted stays as it is.
pub proof fn lemma_halted_stays(program: Seq<BfInstruction>, m: Machine, fuel: nat)
    requires
        brainfuck::halted(program, m),
    ensures
        brainfuck::run(program, m, fuel) == (brainfuck::Outcome { machine: m, error: None }),
{
}

/// Adding to a cell twice is adding the sum once.
proof fn lemma_wrap_twice(value: int, more: int)
    ensures
        wrap_cell(wrap_cell(value) + more) == wrap_cell(value + more),
{
    vstd::arithmetic::div_mod::lemma_add_mod_noop(value, more, 256);
    vstd::arithmetic::div_mod::lemma_add_mod_noop(value % 256, more, 256);
    vstd::arithmetic::div_mod::lemma_mod_twice(value, 256);
}

/// The sum of a run is the first increment plus the sum of the rest.
proof fn lemma_total_front(run: Seq<BfInstruction>)
    requires
        run.len() > 0,
    ensures
        total(run) == unit(run[0]) + total(run.skip(1)),
    decreases run.len(),
{
    if run.len() == 1 {
        assert(run.drop_last() =~= run.skip(1));
    } else {
        lemma_total_front(run.drop_last());
        assert(run.drop_last().skip(1) =~= run.skip(1).drop_last());
    }
}

/// What the direct interpreter makes of `t` cell increments in a row: one
/// addition of their sum.
pub proof fn lemma_cell_run(program: Seq<BfInstruction>, m: Machine, t: nat)
    requires
        m.wf(),
        m.pc + t <= program.len(),
        forall|k: int| m.pc <= k < m.pc + t ==> joins(#[trigger] program[k], true),
    ensures
        brainfuck::run(program, m, t) == (brainfuck::Outcome {
            machine: Machine {
                pc: m.pc + t,
                cells: m.cells.update(
                    m.pointer,
                    wrap_cell(m.cell() + total(program.subrange(m.pc, m.pc + t))),
                ),
                ..m
            },
            error: None,
        }),
    decreases t,
{
    if t == 0 {
        assert(m.cells.update(m.pointer, wrap_cell(m.cell() + 0)) =~= m.cells);
    } else {
        let before = (t - 1) as nat;
        lemma_cell_run(program, m, before);
        lemma_run_more(program, m, before, 1);
        let mid = brainfuck::run(program, m, before).machine;
        let last = program[m.pc + before];
        let run = program.subrange(m.pc, m.pc + t);
        assert(run.drop_last() =~= program.subrange(m.pc, m.pc + before));
        lemma_wrap_twice(m.cell() + total(run.drop_last()), unit(last));
        let next = brainfuck::step_of(program, mid).unwrap();
        assert(brainfuck::run(program, mid, 1) == brainfuck::run(program, next, 0));
        assert(next.cells =~= m.cells.update(m.pointer, wrap_cell(m.cell() + total(run))));
    }
}

/// What the direct interpreter makes of `t` pointer moves in a row, if none
/// of them leaves the tape: one move by their sum.
pub proof fn lemma_pointer_run(program: Seq<BfInstruction>, m: Machine, t: nat)
    requires
        m.wf(),
        m.pc + t <= program.len(),
        forall|k: int| m.pc <= k < m.pc + t ==> joins(#[trigger] program[k], false),
        brainfuck::run(program, m, t).error is None,
    ensures
        brainfuck::run(program, m, t).machine == (Machine {
            pc: m.pc + t,
            pointer: m.pointer + total(program.subrange(m.pc, m.pc + t)),
            ..m
        }),
        0 <= m.pointer + total(program.subrange(m.pc, m.pc + t)) < TAPE_LEN,
    decreases t,
{
    if t == 0 {
        assert(program.subrange(m.pc, m.pc + 0) =~= Seq::<BfInstruction>::empty());
    } else {
        let before = (t - 1) as nat;
        lemma_run_more(program, m, before, 1);
        lemma_pointer_run(program, m, before);
        let mid = brainfuck::run(program, m, before).machine;
        let run = program.subrange(m.pc, m.pc + t);
        assert(run.drop_last() =~= program.subrange(m.pc, m.pc + before));
        match brainfuck::step_of(program, mid) {
            Ok(next) => {
                assert(brainfuck::run(program, mid, 1) == brainfuck::run(program, next, 0));
            },
            Err(_) => {},
        }
    }
}

/// The two machines are at the same point of the same computation: the
/// direct one stands at the origin of the instruction at which the lowered
/// one stands, and they agree on tape, pointer, input and output.
pub open spec fn corresponds(program: Seq<BfInstruction>, direct: Machine, lowered: Machine) -> bool {
    &&& 0 <= lowered.pc <= fused(program).len()
    &&& direct.pc == origin(program, lowered.pc)
    &&& direct.pointer == lowered.pointer
    &&& direct.cells == lowered.cells
    &&& direct.input == lowered.input
    &&& direct.output == lowered.output
}

/// One instruction of the direct interpreter, as a run of length one.
proof fn lemma_run_one(program: Seq<BfInstruction>, m: Machine)
    requires
        !brainfuck::halted(program, m),
    ensures
        brainfuck::run(program, m, 1) == match brainfuck::step_of(program, m) {
            Ok(next) => brainfuck::Outcome { machine: next, error: None },
            Err(error) => brainfuck::Outcome { machine: m, error: Some(error) },
        },
{
    match brainfuck::step_of(program, m) {
        Ok(next) => {
            assert(brainfuck::run(program, m, 1) == brainfuck::run(program, next, 0));
        },
        Err(_) => {},
    }
}

/// One instruction of the lowered program does what the direct interpreter
/// does with the group that the instruction stands for, if the direct
/// interpreter gets through the group.
proof fn lemma_group_simulated(program: Seq<BfInstruction>, direct: Machine, low: Machine)
    requires
        program.len() <= MAX_PROGRAM_LEN,
        balanced(ir::shape(fused(program))),
        direct.wf(),
        corresponds(program, direct, low),
        low.pc < fused(program).len(),
        brainfuck::run(program, direct, group_len(program, direct.pc) as nat).error is None,
    ensures
        group_len(program, direct.pc) >= 1,
        ir::step_of(lowered(program), low) is Ok,
        brainfuck::run(program, direct, group_len(program, direct.pc) as nat).machine.wf(),
        corresponds(
            program,
            brainfuck::run(program, direct, group_len(program, direct.pc) as nat).machine,
            ir::step_of(lowered(program), low).unwrap(),
        ),
{
    let raw = fused(program);
    let j = low.pc;
    let k = direct.pc;
    let g = group_len(program, k);
    let sh = brainfuck::shape(program);
    let ish = ir::shape(raw);
    lemma_group(program, j);
    lemma_origin(program, j);
    lemma_origin(program, j + 1);
    crate::ir::lemma_fused_len(program);
    let first = program[k];
    let tail = program.subrange(k + 1, k + g);
    let group = program.subrange(k, k + g);
    lemma_total_bounds(tail);
    if joins(first, true) {
        assert forall|x: int| k <= x < k + g implies joins(#[trigger] program[x], true) by {}
        lemma_cell_run(program, direct, g as nat);
        lemma_total_front(group);
        assert(group.skip(1) =~= tail);
    } else if joins(first, false) {
        assert forall|x: int| k <= x < k + g implies joins(#[trigger] program[x], false) by {}
        lemma_pointer_run(program, direct, g as nat);
        lemma_total_front(group);
        assert(group.skip(1) =~= tail);
    } else {
        lemma_run_one(program, direct);
        match first {
            BfInstruction::JumpForwardsIfZero => {
                lemma_balanced_pairs(ish, j);
                let close = closer(ish, j).unwrap();
                lemma_matched_ends(ish, j, close);
                lemma_match_carries(program, j, close);
                lemma_closer_is(sh, k, origin(program, close));
                lemma_origin(program, close);
            },
            BfInstruction::JumpBackwardsIfNotZero => {
                lemma_balanced_pairs(ish, j);
                let open = opener(ish, j).unwrap();
                lemma_matched_ends(ish, open, j);
                lemma_match_carries(program, open, j);
                lemma_opener_is(sh, origin(program, open), k);
                lemma_origin(program, open);
            },
            _ => {},
        }
    }
}

/// While the direct interpreter is inside a group it neither reads nor
/// writes.
proof fn lemma_inside_group(program: Seq<BfInstruction>, direct: Machine, low: Machine, n: nat)
    requires
        direct.wf(),
        corresponds(program, direct, low),
        low.pc < fused(program).len(),
        0 < n < group_len(program, direct.pc),
        brainfuck::run(program, direct, n).error is None,
    ensures
        brainfuck::run(program, direct, n).machine.input == direct.input,
        brainfuck::run(program, direct, n).machine.output == direct.output,
        !brainfuck::halted(program, brainfuck::run(program, direct, n).machine),
{
    let j = low.pc;
    let k = direct.pc;
    lemma_group(program, j);
    if joins(program[k], true) {
        assert forall|x: int| k <= x < k + n implies joins(#[trigger] program[x], true) by {}
        lemma_cell_run(program, direct, n);
    } else {
        assert forall|x: int| k <= x < k + n implies joins(#[trigger] program[x], false) by {}
        lemma_pointer_run(program, direct, n);
    }
}

/// From corresponding states on, whatever the direct interpreter has read
/// and written after `n` instructions without an error, the lowered
/// program has read and written after the number of instructions that is
/// returned, and where the one has halted the other has.
proof fn lemma_simulated(program: Seq<BfInstruction>, direct: Machine, low: Machine, n: nat) -> (m:
    nat)
    requires
        program.len() <= MAX_PROGRAM_LEN,
        balanced(ir::shape(fused(program))),
        direct.wf(),
        corresponds(program, direct, low),
        brainfuck::run(program, direct, n).error is None,
    ensures
        m <= n,
        agree(
            program,
            brainfuck::run(program, direct, n),
            ir::run(lowered(program), low, m),
        ),
    decreases n,
{
    lemma_origin(program, low.pc);
    if n == 0 || brainfuck::halted(program, direct) {
        0
    } else {
        let g = group_len(program, direct.pc);
        lemma_group(program, low.pc);
        if n < g {
            lemma_inside_group(program, direct, low, n);
            0
        } else {
            let rest = (n - g) as nat;
            lemma_run_more(program, direct, g as nat, rest);
            lemma_group_simulated(program, direct, low);
            let next_direct = brainfuck::run(program, direct, g as nat).machine;
            let next_low = ir::step_of(lowered(program), low).unwrap();
            let m = lemma_simulated(program, next_direct, next_low, rest);
            m + 1
        }
    }
}

/// What it means that the lowered program has done what the direct
/// interpreter has done: it has not failed, it has read and written the
/// same bytes, and if the direct interpreter has halted then so has the
/// lowered program, on the same tape.
pub open spec fn agree(
    program: Seq<BfInstruction>,
    direct: brainfuck::Outcome,
    low: ir::Outcome,
) -> bool {
    &&& low.error is None
    &&& low.machine.input == direct.machine.input
    &&& low.machine.output == direct.machine.output
    &&& brainfuck::halted(program, direct.machine) ==> {
        &&& ir::halted(lowered(program), low.machine)
        &&& low.machine.cells == direct.machine.cells
        &&& low.machine.pointer == direct.machine.pointer
    }
}

/// Fusion is correct. Take a program with balanced brackets and any input.
/// Whatever the direct interpreter has read and written after `n`
/// instructions, if none of them has failed, the interpreter of the lowered
/// program has read and written after at most `n` of its instructions; and
/// where the direct interpreter has halted, the other has too, with the
/// same tape.
pub proof fn lemma_fusion_is_correct(program: Seq<BfInstruction>, input: Seq<u8>, n: nat)
    requires
        program.len() <= MAX_PROGRAM_LEN,
        balanced(brainfuck::shape(program)),
        brainfuck::run(program, Machine::initial(input), n).error is None,
    ensures
        exists|m: nat|
            m <= n && agree(
                program,
                brainfuck::run(program, Machine::initial(input), n),
                #[trigger] ir::run(lowered(program), Machine::initial(input), m),
            ),
{
    lemma_balance_carries(program);
    let start = Machine::initial(input);
    let m = lemma_simulated(program, start, start, n);
    assert(m <= n && agree(
        program,
        brainfuck::run(program, start, n),
        ir::run(lowered(program), start, m),
    ));
}

/// A run of pointer moves fails, if it fails, because the pointer leaves
/// the tape.
proof fn lemma_pointer_run_fails(program: Seq<BfInstruction>, m: Machine, t: nat)
    requires
        m.wf(),
        m.pc + t <= program.len(),
        forall|k: int| m.pc <= k < m.pc + t ==> joins(#[trigger] program[k], false),
    ensures
        brainfuck::run(program, m, t).error is None || brainfuck::run(program, m, t).error == Some(
            brainfuck::VmError::PointerOutOfBounds,
        ),
    decreases t,
{
    if t > 0 {
        let before = (t - 1) as nat;
        lemma_pointer_run_fails(program, m, before);
        lemma_run_more(program, m, before, 1);
        if brainfuck::run(program, m, before).error is None {
            lemma_pointer_run(program, m, before);
            let mid = brainfuck::run(program, m, before).machine;
            lemma_run_one(program, mid);
        }
    }
}

/// The direct interpreter gets through a group of a balanced program, or
/// the pointer leaves the tape.
proof fn lemma_group_fails(program: Seq<BfInstruction>, direct: Machine, low: Machine)
    requires
        program.len() <= MAX_PROGRAM_LEN,
        balanced(ir::shape(fused(program))),
        direct.wf(),
        corresponds(program, direct, low),
        low.pc < fused(program).len(),
    ensures
        group_len(program, direct.pc) >= 1,
        brainfuck::run(program, direct, group_len(program, direct.pc) as nat).error is None
            || brainfuck::run(program, direct, group_len(program, direct.pc) as nat).error == Some(
            brainfuck::VmError::PointerOutOfBounds,
        ),
{
    let raw = fused(program);
    let j = low.pc;
    let k = direct.pc;
    let g = group_len(program, k);
    let sh = brainfuck::shape(program);
    let ish = ir::shape(raw);
    lemma_group(program, j);
    lemma_origin(program, j);
    let first = program[k];
    if joins(first, true) {
        assert forall|x: int| k <= x < k + g implies joins(#[trigger] program[x], true) by {}
        lemma_cell_run(program, direct, g as nat);
    } else if joins(first, false) {
        assert forall|x: int| k <= x < k + g implies joins(#[trigger] program[x], false) by {}
        lemma_pointer_run_fails(program, direct, g as nat);
    } else {
        lemma_run_one(program, direct);
        match first {
            BfInstruction::JumpForwardsIfZero => {
                lemma_balanced_pairs(ish, j);
                let close = closer(ish, j).unwrap();
                lemma_match_carries(program, j, close);
                lemma_closer_is(sh, k, origin(program, close));
            },
            BfInstruction::JumpBackwardsIfNotZero => {
                lemma_balanced_pairs(ish, j);
                let open = opener(ish, j).unwrap();
                lemma_match_carries(program, open, j);
                lemma_opener_is(sh, origin(program, open), k);
            },
            _ => {},
        }
    }
}

/// Whether the direct interpreter has followed the lowered program: it has
/// left the tape, or it has reached the state that corresponds.
pub open spec fn follows(
    program: Seq<BfInstruction>,
    direct: brainfuck::Outcome,
    low: ir::Outcome,
) -> bool {
    ||| direct.error == Some(brainfuck::VmError::PointerOutOfBounds)
    ||| direct.error is None && corresponds(program, direct.machine, low.machine)
}

/// From corresponding states on, wherever the lowered program is after `m`
/// instructions without an error, the direct interpreter is there after
/// the number of instructions that is returned, unless the pointer has left
/// the tape on the way.
proof fn lemma_followed(program: Seq<BfInstruction>, direct: Machine, low: Machine, m: nat) -> (n:
    nat)
    requires
        program.len() <= MAX_PROGRAM_LEN,
        balanced(ir::shape(fused(program))),
        direct.wf(),
        corresponds(program, direct, low),
        ir::run(lowered(program), low, m).error is None,
    ensures
        follows(program, brainfuck::run(program, direct, n), ir::run(lowered(program), low, m)),
    decreases m,
{
    lemma_origin(program, low.pc);
    crate::ir::lemma_fused_len(program);
    if m == 0 || ir::halted(lowered(program), low) {
        0
    } else {
        let g = group_len(program, direct.pc) as nat;
        lemma_group_fails(program, direct, low);
        if brainfuck::run(program, direct, g).error is Some {
            g
        } else {
            lemma_group_simulated(program, direct, low);
            let next_direct = brainfuck::run(program, direct, g).machine;
            let next_low = ir::step_of(lowered(program), low).unwrap();
            let rest = (m - 1) as nat;
            let more = lemma_followed(program, next_direct, next_low, rest);
            lemma_run_more(program, direct, g, more);
            g + more
        }
    }
}

/// Fusion adds nothing. Take a program with balanced brackets and any
/// input. Wherever the interpreter of the lowered program is after `m`
/// instructions without an error, the direct interpreter gets there too,
/// with the same tape, pointer, input and output, unless the pointer leaves
/// the tape on the way.
pub proof fn lemma_fusion_is_complete(program: Seq<BfInstruction>, input: Seq<u8>, m: nat)
    requires
        program.len() <= MAX_PROGRAM_LEN,
        balanced(brainfuck::shape(program)),
        ir::run(lowered(program), Machine::initial(input), m).error is None,
    ensures
        exists|n: nat|
            follows(
                program,
                #[trigger] brainfuck::run(program, Machine::initial(input), n),
                ir::run(lowered(program), Machine::initial(input), m),
            ),
{
    lemma_balance_carries(program);
    let start = Machine::initial(input);
    let n = lemma_followed(program, start, start, m);
    assert(follows(
        program,
        brainfuck::run(program, start, n),
        ir::run(lowered(program), start, m),
    ));
}

} // verus!
