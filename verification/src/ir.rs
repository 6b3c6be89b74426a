//! The intermediate representation: runs of increments fused into one
//! instruction, and every bracket carrying the distance to its partner.

use crate::brainfuck::Instruction as BfInstruction;
use crate::machine::{Input, Machine, TAPE_LEN};
use crate::nesting::{balanced, closer, depth, matched, opener, Bracket};
use itertools::Itertools;
use vstd::prelude::*;
use vstd::slice::slice_subrange;

verus! {

/// An instruction of the intermediate representation.
#[derive(Debug, PartialEq, Eq, Clone, Copy, Structural)]
pub enum Instruction {
    /// Moves the data pointer by this many cells.
    IncrementPointer(i32),
    /// Adds this value to the current cell, modulo 256.
    IncrementByte(i32),
    /// Writes the current cell to the output.
    OutputByte,
    /// Reads one byte of input into the current cell.
    ReadByte,
    /// Moves the program counter forwards by this distance if the current
    /// cell is zero.
    JumpForwardsIfZero(usize),
    /// Moves the program counter backwards by this distance if the current
    /// cell is not zero.
    JumpBackwardsIfNotZero(usize),
}

/// Why a program cannot be lowered.
#[derive(Debug, PartialEq, Eq, Clone, Copy, Structural)]
pub enum TransformError {
    /// A bracket has no partner.
    UnbalancedBrackets,
}

/// The longest program that `transform` accepts: the sum of a run of
/// increments must fit the 32 bits of a fused instruction.
pub const MAX_PROGRAM_LEN: usize = 0x7fff_ffff;

/// Whether a primitive instruction belongs to a run of cell increments
/// (`cell_ops`) or of pointer increments (otherwise).
pub open spec fn joins(instruction: BfInstruction, cell_ops: bool) -> bool {
    if cell_ops {
        instruction == BfInstruction::IncrementByte || instruction == BfInstruction::DecrementByte
    } else {
        instruction == BfInstruction::IncrementPointer || instruction
            == BfInstruction::DecrementPointer
    }
}

/// What one primitive increment or decrement adds.
pub open spec fn unit(instruction: BfInstruction) -> int {
    match instruction {
        BfInstruction::IncrementByte | BfInstruction::IncrementPointer => 1,
        BfInstruction::DecrementByte | BfInstruction::DecrementPointer => -1,
        _ => 0,
    }
}

/// The sum of the increments and decrements in `run`.
pub open spec fn total(run: Seq<BfInstruction>) -> int
    decreases run.len(),
{
    if run.len() == 0 {
        0
    } else {
        total(run.drop_last()) + unit(run.last())
    }
}

/// The length of the longest prefix of `rest` whose instructions all join
/// the run.
pub open spec fn run_len(rest: Seq<BfInstruction>, cell_ops: bool) -> int
    decreases rest.len(),
{
    if rest.len() > 0 && joins(rest[0], cell_ops) {
        1 + run_len(rest.skip(1), cell_ops)
    } else {
        0
    }
}

/// How many of the instructions after the first one are fused with it.
pub open spec fn tail_len(program: Seq<BfInstruction>) -> int
    recommends
        program.len() > 0,
{
    if joins(program[0], true) {
        run_len(program.skip(1), true)
    } else if joins(program[0], false) {
        run_len(program.skip(1), false)
    } else {
        0
    }
}

/// The instruction that stands for `first` and a run after it that adds
/// `tail` in all. Brackets get the distance zero: it is not known yet.
pub open spec fn fuse_one(first: BfInstruction, tail: int) -> Instruction {
    match first {
        BfInstruction::IncrementByte => Instruction::IncrementByte((1 + tail) as i32),
        BfInstruction::DecrementByte => Instruction::IncrementByte((-1 + tail) as i32),
        BfInstruction::IncrementPointer => Instruction::IncrementPointer((1 + tail) as i32),
        BfInstruction::DecrementPointer => Instruction::IncrementPointer((-1 + tail) as i32),
        BfInstruction::OutputByte => Instruction::OutputByte,
        BfInstruction::ReadByte => Instruction::ReadByte,
        BfInstruction::JumpForwardsIfZero => Instruction::JumpForwardsIfZero(0),
        BfInstruction::JumpBackwardsIfNotZero => Instruction::JumpBackwardsIfNotZero(0),
    }
}

/// The program with every maximal run of cell increments, and every maximal
/// run of pointer increments, fused into one instruction.
pub open spec fn fused(program: Seq<BfInstruction>) -> Seq<Instruction>
    decreases program.len(),
{
    if program.len() == 0 {
        Seq::empty()
    } else {
        let n = tail_len(program);
        if 0 <= n < program.len() {
            seq![fuse_one(program[0], total(program.subrange(1, 1 + n)))] + fused(
                program.skip(1 + n),
            )
        } else {
            Seq::empty()
        }
    }
}

/// The role of an instruction in the loop structure.
pub open spec fn bracket(instruction: Instruction) -> Bracket {
    match instruction {
        Instruction::JumpForwardsIfZero(_) => Bracket::Open,
        Instruction::JumpBackwardsIfNotZero(_) => Bracket::Close,
        _ => Bracket::Neither,
    }
}

/// The loop structure of a program.
pub open spec fn shape(program: Seq<Instruction>) -> Seq<Bracket> {
    Seq::new(program.len(), |i: int| bracket(program[i]))
}

/// The instruction at `i` with the distance to its partner, if it is a
/// bracket that has one.
pub open spec fn paired_at(raw: Seq<Instruction>, i: int) -> Instruction {
    match raw[i] {
        Instruction::JumpForwardsIfZero(_) => match closer(shape(raw), i) {
            Some(close) => Instruction::JumpForwardsIfZero((close - i) as usize),
            None => raw[i],
        },
        Instruction::JumpBackwardsIfNotZero(_) => match opener(shape(raw), i) {
            Some(open) => Instruction::JumpBackwardsIfNotZero((i - open) as usize),
            None => raw[i],
        },
        other => other,
    }
}

/// The program with every bracket carrying the distance to its partner.
pub open spec fn resolved(raw: Seq<Instruction>) -> Seq<Instruction> {
    Seq::new(raw.len(), |i: int| paired_at(raw, i))
}

/// The intermediate representation of a primitive program.
pub open spec fn lowered(program: Seq<BfInstruction>) -> Seq<Instruction> {
    resolved(fused(program))
}

/// The instruction at `i` is no jump, or it is one whose partner lies at
/// its distance and carries the same distance back.
pub open spec fn paired(program: Seq<Instruction>, i: int) -> bool {
    match program[i] {
        Instruction::JumpForwardsIfZero(d) => {
            &&& 0 < d
            &&& i + d < program.len()
            &&& program[i + d] == Instruction::JumpBackwardsIfNotZero(d)
        },
        Instruction::JumpBackwardsIfNotZero(d) => {
            &&& 0 < d <= i
            &&& program[i - d] == Instruction::JumpForwardsIfZero(d)
        },
        _ => true,
    }
}

/// Brackets come in pairs: a forward jump of distance `d` at `i` has a
/// backward jump of the same distance at `i + d`, and the other way round.
/// So every distance is positive and stays inside the program.
#[verifier::opaque]
pub open spec fn well_formed(program: Seq<Instruction>) -> bool {
    forall|i: int| 0 <= i < program.len() ==> paired(program, i)
}

/// What `well_formed` says of the instruction at `i`.
pub proof fn lemma_partner(program: Seq<Instruction>, i: int)
    requires
        well_formed(program),
        0 <= i < program.len(),
    ensures
        paired(program, i),
{
    reveal(well_formed);
}

/// Whether the brackets of a program come in pairs.
pub fn is_well_formed(program: &[Instruction]) -> (ok: bool)
    ensures
        ok == well_formed(program@),
{
    let len = program.len();
    let mut i: usize = 0;
    while i < len
        invariant
            i <= len == program@.len(),
            forall|k: int| 0 <= k < i ==> paired(program@, k),
        decreases len - i,
    {
        let ok = match program[i] {
            Instruction::JumpForwardsIfZero(d) => d > 0 && d < len - i && program[i + d]
                == Instruction::JumpBackwardsIfNotZero(d),
            Instruction::JumpBackwardsIfNotZero(d) => d > 0 && d <= i && program[i - d]
                == Instruction::JumpForwardsIfZero(d),
            _ => true,
        };
        if !ok {
            proof {
                reveal(well_formed);
                assert(!paired(program@, i as int));
            }
            return false;
        }
        i = i + 1;
    }
    proof {
        reveal(well_formed);
    }
    true
}

/// No two neighbours are both pointer moves, and no two are both cell
/// additions.
pub open spec fn fully_fused(program: Seq<Instruction>) -> bool {
    forall|i: int|
        0 <= i < program.len() - 1 ==> !(#[trigger] program[i] is IncrementPointer && program[i
            + 1] is IncrementPointer) && !(program[i] is IncrementByte && program[i
            + 1] is IncrementByte)
}

fn joins_run(instruction: BfInstruction, cell_ops: bool) -> (joined: bool)
    ensures
        joined == joins(instruction, cell_ops),
{
    if cell_ops {
        instruction == BfInstruction::IncrementByte || instruction == BfInstruction::DecrementByte
    } else {
        instruction == BfInstruction::IncrementPointer || instruction
            == BfInstruction::DecrementPointer
    }
}

/// `Itertools::take_while_ref` on the iterator of `rest`, collected. The
/// adaptor yields items as long as the predicate accepts them and stops
/// before the first one that it rejects: the result is the longest prefix of
/// `rest` whose items all join the run. This is taken from the source of
/// `itertools` and not proved here.
#[verifier::external_body]
fn take_run(rest: &[BfInstruction], cell_ops: bool) -> (run: Vec<BfInstruction>)
    ensures
        run@.len() <= rest@.len(),
        run@ == rest@.take(run@.len() as int),
        forall|i: int| 0 <= i < run@.len() ==> joins(#[trigger] run@[i], cell_ops),
        run@.len() < rest@.len() ==> !joins(rest@[run@.len() as int], cell_ops),
{
    let mut it = rest.iter();
    it.take_while_ref(|x| joins_run(**x, cell_ops)).cloned().collect()
}

/// A prefix that joins the run and cannot be extended is the longest one.
proof fn lemma_run_len(rest: Seq<BfInstruction>, n: int, cell_ops: bool)
    requires
        0 <= n <= rest.len(),
        forall|i: int| 0 <= i < n ==> joins(#[trigger] rest[i], cell_ops),
        n < rest.len() ==> !joins(rest[n], cell_ops),
    ensures
        run_len(rest, cell_ops) == n,
    decreases n,
{
    if n > 0 {
        let tail = rest.skip(1);
        assert forall|i: int| 0 <= i < n - 1 implies joins(#[trigger] tail[i], cell_ops) by {
            assert(tail[i] == rest[i + 1]);
        }
        lemma_run_len(tail, n - 1, cell_ops);
    }
}

/// The sum of a run is at most its length, in either direction.
pub proof fn lemma_total_bounds(run: Seq<BfInstruction>)
    ensures
        -run.len() <= total(run) <= run.len(),
    decreases run.len(),
{
    if run.len() > 0 {
        lemma_total_bounds(run.drop_last());
    }
}

/// The sum of the increments and decrements in `run`.
fn sum_run(run: &Vec<BfInstruction>) -> (sum: i32)
    requires
        run@.len() < MAX_PROGRAM_LEN,
    ensures
        sum == total(run@),
{
    let mut sum: i32 = 0;
    let mut i: usize = 0;
    while i < run.len()
        invariant
            i <= run@.len() < MAX_PROGRAM_LEN,
            sum == total(run@.take(i as int)),
        decreases run@.len() - i,
    {
        proof {
            lemma_total_bounds(run@.take(i as int));
            assert(run@.take(i + 1).drop_last() =~= run@.take(i as int));
        }
        match run[i] {
            BfInstruction::IncrementByte | BfInstruction::IncrementPointer => {
                sum = sum + 1;
            },
            BfInstruction::DecrementByte | BfInstruction::DecrementPointer => {
                sum = sum - 1;
            },
            _ => {},
        }
        i = i + 1;
    }
    assert(run@.take(i as int) =~= run@);
    sum
}

/// The run of increments of one kind that `rest` begins with: what it adds
/// in all, and how long it is.
fn aggregate(rest: &[BfInstruction], cell_ops: bool) -> (counted: (i32, usize))
    requires
        rest@.len() < MAX_PROGRAM_LEN,
    ensures
        counted.1 == run_len(rest@, cell_ops),
        counted.0 == total(rest@.take(counted.1 as int)),
{
    let run = take_run(rest, cell_ops);
    proof {
        assert forall|k: int| 0 <= k < run@.len() implies joins(#[trigger] rest@[k], cell_ops) by {
            assert(rest@[k] == run@[k]);
        }
        lemma_run_len(rest@, run@.len() as int, cell_ops);
    }
    (sum_run(&run), run.len())
}

/// The run of cell increments that `rest` begins with.
fn aggregate_byte_ops(rest: &[BfInstruction]) -> (counted: (i32, usize))
    requires
        rest@.len() < MAX_PROGRAM_LEN,
    ensures
        counted.1 == run_len(rest@, true),
        counted.0 == total(rest@.take(counted.1 as int)),
{
    aggregate(rest, true)
}

/// The run of pointer increments that `rest` begins with.
fn aggregate_pointer_ops(rest: &[BfInstruction]) -> (counted: (i32, usize))
    requires
        rest@.len() < MAX_PROGRAM_LEN,
    ensures
        counted.1 == run_len(rest@, false),
        counted.0 == total(rest@.take(counted.1 as int)),
{
    aggregate(rest, false)
}

/// The first pass: fuses runs of increments. Brackets get the distance zero.
fn fuse(instructions: &[BfInstruction]) -> (raw: Vec<Instruction>)
    requires
        instructions@.len() <= MAX_PROGRAM_LEN,
    ensures
        raw@ == fused(instructions@),
{
    let len = instructions.len();
    let mut raw: Vec<Instruction> = Vec::with_capacity(len);
    let mut i: usize = 0;
    assert(raw@ + fused(instructions@.skip(0)) =~= fused(instructions@)) by {
        assert(instructions@.skip(0) =~= instructions@);
    }
    while i < len
        invariant
            i <= len == instructions@.len() <= MAX_PROGRAM_LEN,
            raw@ + fused(instructions@.skip(i as int)) == fused(instructions@),
        decreases len - i,
    {
        let first = instructions[i];
        let rest = slice_subrange(instructions, i + 1, len);
        let ghost here = instructions@.skip(i as int);
        proof {
            assert(rest@ =~= here.skip(1));
            lemma_total_bounds(rest@.take(run_len(rest@, true)));
            lemma_total_bounds(rest@.take(run_len(rest@, false)));
            lemma_run_is_maximal(rest@, true);
            lemma_run_is_maximal(rest@, false);
            assert(here.subrange(1, 1 + tail_len(here)) =~= rest@.take(tail_len(here)));
        }
        let (instruction, taken) = match first {
            BfInstruction::IncrementByte => {
                let (agg, taken) = aggregate_byte_ops(rest);
                (Instruction::IncrementByte(1 + agg), taken)
            },
            BfInstruction::DecrementByte => {
                let (agg, taken) = aggregate_byte_ops(rest);
                (Instruction::IncrementByte(-1 + agg), taken)
            },
            BfInstruction::IncrementPointer => {
                let (agg, taken) = aggregate_pointer_ops(rest);
                (Instruction::IncrementPointer(1 + agg), taken)
            },
            BfInstruction::DecrementPointer => {
                let (agg, taken) = aggregate_pointer_ops(rest);
                (Instruction::IncrementPointer(-1 + agg), taken)
            },
            BfInstruction::OutputByte => (Instruction::OutputByte, 0),
            BfInstruction::ReadByte => (Instruction::ReadByte, 0),
            BfInstruction::JumpBackwardsIfNotZero => (Instruction::JumpBackwardsIfNotZero(0), 0),
            BfInstruction::JumpForwardsIfZero => (Instruction::JumpForwardsIfZero(0), 0),
        };
        proof {
            assert(here.skip(1 + taken) =~= instructions@.skip(i + 1 + taken));
            assert(raw@.push(instruction) + fused(instructions@.skip(i + 1 + taken)) =~= raw@ + (
                seq![instruction] + fused(here.skip(1 + taken))));
        }
        raw.push(instruction);
        i = i + 1 + taken;
    }
    raw
}

/// The stack of the second pass: the positions of the brackets that are open
/// at the current position, the innermost last. It is a `tinyvec::TinyVec`
/// with room for 32 positions before it moves to the heap.
///
/// The verifier does not look inside. What the stack holds is known only as
/// `stack_items`, and of its four operations only what is written above
/// each: that is taken from the source of `tinyvec` and not proved here.
#[verifier::external_body]
pub struct JumpStack {
    positions: tinyvec::TinyVec<[usize; 32]>,
}

/// The positions that a stack holds, the oldest first.
pub uninterp spec fn stack_items(stack: JumpStack) -> Seq<usize>;

impl JumpStack {
    /// `TinyVec::new`: a stack that holds nothing.
    #[verifier::external_body]
    fn new() -> (stack: JumpStack)
        ensures
            stack_items(stack) == Seq::<usize>::empty(),
    {
        JumpStack { positions: tinyvec::TinyVec::new() }
    }

    /// `TinyVec::push`: puts `position` at the end and leaves the rest as
    /// it is.
    #[verifier::external_body]
    fn push(&mut self, position: usize)
        ensures
            stack_items(*final(self)) == stack_items(*old(self)).push(position),
    {
        self.positions.push(position)
    }

    /// `TinyVec::pop`: takes the last position off and returns it; on an
    /// empty stack it returns `None` and changes nothing.
    #[verifier::external_body]
    fn pop(&mut self) -> (top: Option<usize>)
        ensures
            stack_items(*old(self)).len() == 0 ==> top.is_none() && stack_items(*final(self))
                == stack_items(*old(self)),
            stack_items(*old(self)).len() > 0 ==> top == Some(stack_items(*old(self)).last())
                && stack_items(*final(self)) == stack_items(*old(self)).drop_last(),
    {
        self.positions.pop()
    }

    /// `TinyVec::is_empty`: whether the stack holds nothing.
    #[verifier::external_body]
    fn is_empty(&self) -> (empty: bool)
        ensures
            empty == (stack_items(*self).len() == 0),
    {
        self.positions.is_empty()
    }
}

/// The brackets that are open at `done`, as the second pass knows them:
/// `open[j]` opened a loop that is `open.len() - j` deep at `done` and has
/// not been closed before.
spec fn open_at(sh: Seq<Bracket>, open: Seq<usize>, done: int) -> bool {
    forall|j: int|
        0 <= j < open.len() ==> {
            &&& 0 <= (#[trigger] open[j]) < done
            &&& sh[open[j] as int] == Bracket::Open
            &&& depth(sh, open[j] as int, done) == open.len() - j
            &&& forall|k: int| open[j] < k <= done ==> depth(sh, open[j] as int, k) > 0
        }
}

/// Every bracket before `done` that is not on the stack has its partner
/// before `done`.
spec fn paired_before(sh: Seq<Bracket>, open: Seq<usize>, done: int) -> bool {
    forall|i: int|
        0 <= i < done && !open.contains(i as usize) ==> match #[trigger] sh[i] {
            Bracket::Open => exists|close: int| close < done && matched(sh, i, close),
            Bracket::Close => exists|o: int| matched(sh, o, i),
            Bracket::Neither => true,
        }
}

/// What the second pass knows after `done` instructions.
spec fn scanned(sh: Seq<Bracket>, open: Seq<usize>, done: int) -> bool {
    &&& 0 <= done <= sh.len() <= usize::MAX
    &&& open.len() == depth(sh, 0, done)
    &&& forall|k: int| 0 <= k <= done ==> depth(sh, 0, k) >= 0
    &&& open_at(sh, open, done)
    &&& paired_before(sh, open, done)
}

/// Whether the instruction at `i` has its final form after `done`
/// instructions: it is a bracket before `done` and not on the stack.
spec fn settled(sh: Seq<Bracket>, open: Seq<usize>, done: int, i: int) -> bool {
    i < done && sh[i] != Bracket::Neither && !open.contains(i as usize)
}

/// An opening bracket goes on the stack.
proof fn lemma_scan_open(sh: Seq<Bracket>, open: Seq<usize>, here: usize)
    requires
        scanned(sh, open, here as int),
        here < sh.len(),
        sh[here as int] == Bracket::Open,
    ensures
        scanned(sh, open.push(here), here + 1),
        forall|p: usize| #[trigger]
            open.push(here).contains(p) <==> (open.contains(p) || p == here),
{
    let now = open.push(here);
    let done = here as int;
    assert(depth(sh, done, done + 1) == 1) by {
        assert(depth(sh, done, done) == 0);
    }
    assert forall|p: usize| #[trigger] now.contains(p) <==> (open.contains(p) || p == here) by {
        if open.contains(p) {
            let j = choose|j: int| 0 <= j < open.len() && open[j] == p;
            assert(now[j] == p);
        }
        if p == here {
            assert(now[open.len() as int] == here);
        }
        if now.contains(p) {
            let j = choose|j: int| 0 <= j < now.len() && now[j] == p;
            if j < open.len() {
                assert(open[j] == p);
            }
        }
    }
    assert forall|j: int| 0 <= j < now.len() implies {
        &&& 0 <= (#[trigger] now[j]) < done + 1
        &&& sh[now[j] as int] == Bracket::Open
        &&& depth(sh, now[j] as int, done + 1) == now.len() - j
        &&& forall|k: int| now[j] < k <= done + 1 ==> depth(sh, now[j] as int, k) > 0
    } by {
        if j < open.len() {
            assert(now[j] == open[j]);
        }
    }
    assert forall|i: int| 0 <= i < done + 1 && !now.contains(i as usize) implies match #[trigger] sh[i] {
        Bracket::Open => exists|close: int| close < done + 1 && matched(sh, i, close),
        Bracket::Close => exists|o: int| matched(sh, o, i),
        Bracket::Neither => true,
    } by {
        if sh[i] == Bracket::Open {
            let close = choose|close: int| close < done && matched(sh, i, close);
        }
    }
}

/// A closing bracket takes its partner off the stack.
proof fn lemma_scan_close(sh: Seq<Bracket>, open: Seq<usize>, here: usize)
    requires
        scanned(sh, open, here as int),
        here < sh.len(),
        sh[here as int] == Bracket::Close,
        open.len() > 0,
    ensures
        scanned(sh, open.drop_last(), here + 1),
        matched(sh, open.last() as int, here as int),
        forall|p: usize| #[trigger]
            open.drop_last().contains(p) <==> (open.contains(p) && p != open.last()),
{
    let now = open.drop_last();
    let done = here as int;
    let t = open.last() as int;
    assert(matched(sh, t, done)) by {
        reveal(matched);
    }
    assert forall|p: usize| #[trigger] now.contains(p) <==> (open.contains(p) && p != open.last()) by {
        if now.contains(p) {
            let j = choose|j: int| 0 <= j < now.len() && now[j] == p;
        }
        if open.contains(p) && p != open.last() {
            let j = choose|j: int| 0 <= j < open.len() && open[j] == p;
            assert(now[j] == p);
        }
    }
    assert forall|j: int| 0 <= j < now.len() implies {
        &&& 0 <= (#[trigger] now[j]) < done + 1
        &&& sh[now[j] as int] == Bracket::Open
        &&& depth(sh, now[j] as int, done + 1) == now.len() - j
        &&& forall|k: int| now[j] < k <= done + 1 ==> depth(sh, now[j] as int, k) > 0
    } by {
        assert(now[j] == open[j]);
    }
    assert forall|i: int| 0 <= i < done + 1 && !now.contains(i as usize) implies match #[trigger] sh[i] {
        Bracket::Open => exists|close: int| close < done + 1 && matched(sh, i, close),
        Bracket::Close => exists|o: int| matched(sh, o, i),
        Bracket::Neither => true,
    } by {
        if i == done {
            assert(matched(sh, t, i));
        } else if sh[i] == Bracket::Open {
            if i == t {
                assert(done < done + 1 && matched(sh, i, done));
            } else {
                let close = choose|close: int| close < done && matched(sh, i, close);
            }
        }
    }
}

/// Any other instruction leaves the stack alone.
proof fn lemma_scan_other(sh: Seq<Bracket>, open: Seq<usize>, here: usize)
    requires
        scanned(sh, open, here as int),
        here < sh.len(),
        sh[here as int] == Bracket::Neither,
    ensures
        scanned(sh, open, here + 1),
{
    let done = here as int;
    assert forall|i: int| 0 <= i < done + 1 && !open.contains(i as usize) implies match #[trigger] sh[i] {
        Bracket::Open => exists|close: int| close < done + 1 && matched(sh, i, close),
        Bracket::Close => exists|o: int| matched(sh, o, i),
        Bracket::Neither => true,
    } by {
        if sh[i] == Bracket::Open {
            let close = choose|close: int| close < done && matched(sh, i, close);
        }
    }
}

/// With the whole program scanned and the stack empty, every bracket has a
/// partner and the brackets are balanced.
proof fn lemma_scan_done(sh: Seq<Bracket>, open: Seq<usize>)
    requires
        scanned(sh, open, sh.len() as int),
        open.len() == 0,
    ensures
        balanced(sh),
        forall|i: int| 0 <= i < sh.len() && #[trigger] sh[i] == Bracket::Open ==> closer(sh, i) is Some,
        forall|i: int| 0 <= i < sh.len() && #[trigger] sh[i] == Bracket::Close ==> opener(sh, i) is Some,
{
    assert forall|i: int| 0 <= i < sh.len() implies (#[trigger] sh[i] == Bracket::Open ==> closer(
        sh,
        i,
    ) is Some) && (sh[i] == Bracket::Close ==> opener(sh, i) is Some) by {
        assert(!open.contains(i as usize));
    }
}

/// The second pass: gives every bracket the distance to its partner.
fn resolve(raw: Vec<Instruction>) -> (result: Result<Vec<Instruction>, TransformError>)
    ensures
        match result {
            Ok(program) => {
                &&& balanced(shape(raw@))
                &&& program@ == resolved(raw@)
                &&& well_formed(program@)
            },
            Err(error) => !balanced(shape(raw@)),
        },
{
    let ghost sh = shape(raw@);
    let ghost start = raw@;
    let mut program = raw;
    let mut stack = JumpStack::new();
    let len = program.len();
    let mut idx: usize = 0;
    while idx < len
        invariant
            idx <= len == start.len() == program@.len(),
            start == raw@,
            sh == shape(start),
            scanned(sh, stack_items(stack), idx as int),
            forall|i: int|
                0 <= i < len ==> #[trigger] program@[i] == if settled(
                    sh,
                    stack_items(stack),
                    idx as int,
                    i,
                ) {
                    resolved(start)[i]
                } else {
                    start[i]
                },
        decreases len - idx,
    {
        let ghost before = stack_items(stack);
        let ghost here = idx as int;
        match program[idx] {
            Instruction::JumpForwardsIfZero(_) => {
                stack.push(idx);
                proof {
                    lemma_scan_open(sh, before, idx);
                }
            },
            Instruction::JumpBackwardsIfNotZero(_) => {
                let target = match stack.pop() {
                    Some(target) => target,
                    None => {
                        proof {
                            assert(depth(sh, 0, here + 1) == -1);
                        }
                        return Err(TransformError::UnbalancedBrackets);
                    },
                };
                proof {
                    lemma_scan_close(sh, before, idx);
                    lemma_resolved_pair(start, target as int, here);
                }
                let distance = idx - target;
                program[target] = Instruction::JumpForwardsIfZero(distance);
                program[idx] = Instruction::JumpBackwardsIfNotZero(distance);
            },
            _ => {
                proof {
                    lemma_scan_other(sh, before, idx);
                }
            },
        }
        idx = idx + 1;
    }
    if !stack.is_empty() {
        return Err(TransformError::UnbalancedBrackets);
    }
    proof {
        lemma_scan_done(sh, stack_items(stack));
        assert forall|i: int| 0 <= i < len implies program@[i] == resolved(start)[i] by {
            assert(!stack_items(stack).contains(i as usize));
        }
        lemma_resolved_well_formed(start);
    }
    Ok(program)
}

/// A bracket and its partner carry the distance between them.
proof fn lemma_resolved_pair(raw: Seq<Instruction>, open: int, close: int)
    requires
        matched(shape(raw), open, close),
    ensures
        0 <= open < close < raw.len(),
        shape(raw)[open] == Bracket::Open,
        shape(raw)[close] == Bracket::Close,
        resolved(raw)[open] == Instruction::JumpForwardsIfZero((close - open) as usize),
        resolved(raw)[close] == Instruction::JumpBackwardsIfNotZero((close - open) as usize),
{
    let sh = shape(raw);
    reveal(matched);
    crate::nesting::lemma_opener_is(sh, open, close);
    crate::nesting::lemma_closer_is(sh, open, close);
}

/// Where every bracket has a partner, the resolved program is well formed.
pub proof fn lemma_resolved_well_formed(raw: Seq<Instruction>)
    requires
        raw.len() <= usize::MAX,
        forall|i: int|
            0 <= i < raw.len() && #[trigger] shape(raw)[i] == Bracket::Open ==> closer(
                shape(raw),
                i,
            ) is Some,
        forall|i: int|
            0 <= i < raw.len() && #[trigger] shape(raw)[i] == Bracket::Close ==> opener(
                shape(raw),
                i,
            ) is Some,
    ensures
        well_formed(resolved(raw)),
{
    let sh = shape(raw);
    let program = resolved(raw);
    reveal(well_formed);
    assert forall|i: int| 0 <= i < program.len() implies paired(program, i) by {
        assert(sh[i] == bracket(raw[i]));
        match raw[i] {
            Instruction::JumpForwardsIfZero(_) => {
                let close = closer(sh, i).unwrap();
                lemma_resolved_pair(raw, i, close);
            },
            Instruction::JumpBackwardsIfNotZero(_) => {
                let open = opener(sh, i).unwrap();
                lemma_resolved_pair(raw, open, i);
            },
            _ => {},
        }
    }
}

/// The run that `run_len` measures lies inside `rest`, joins throughout,
/// and stops only at the end or before an instruction that does not join.
pub proof fn lemma_run_is_maximal(rest: Seq<BfInstruction>, cell_ops: bool)
    ensures
        0 <= run_len(rest, cell_ops) <= rest.len(),
        forall|i: int| 0 <= i < run_len(rest, cell_ops) ==> joins(#[trigger] rest[i], cell_ops),
        run_len(rest, cell_ops) < rest.len() ==> !joins(
            rest[run_len(rest, cell_ops)],
            cell_ops,
        ),
    decreases rest.len(),
{
    if rest.len() > 0 && joins(rest[0], cell_ops) {
        let tail = rest.skip(1);
        lemma_run_is_maximal(tail, cell_ops);
        assert forall|i: int| 0 <= i < run_len(rest, cell_ops) implies joins(
            #[trigger] rest[i],
            cell_ops,
        ) by {
            if i > 0 {
                assert(rest[i] == tail[i - 1]);
            }
        }
        if run_len(rest, cell_ops) < rest.len() {
            assert(rest[run_len(rest, cell_ops)] == tail[run_len(tail, cell_ops)]);
        }
    }
}

/// A fused program begins with the instruction that its first group stands
/// for, and goes on with the fused rest.
pub proof fn lemma_fused_unfold(program: Seq<BfInstruction>)
    requires
        program.len() > 0,
    ensures
        0 <= tail_len(program) < program.len(),
        fused(program) == seq![
            fuse_one(program[0], total(program.subrange(1, 1 + tail_len(program)))),
        ] + fused(program.skip(1 + tail_len(program))),
        fused(program).len() == 1 + fused(program.skip(1 + tail_len(program))).len(),
        fused(program)[0] is IncrementByte <==> joins(program[0], true),
        fused(program)[0] is IncrementPointer <==> joins(program[0], false),
{
    lemma_run_is_maximal(program.skip(1), true);
    lemma_run_is_maximal(program.skip(1), false);
}

/// Fusion leaves no two pointer moves and no two cell additions side by side.
pub proof fn lemma_fused_is_fully_fused(program: Seq<BfInstruction>)
    ensures
        fully_fused(fused(program)),
    decreases program.len(),
{
    if program.len() > 0 {
        lemma_fused_unfold(program);
        let n = tail_len(program);
        let rest = program.skip(1 + n);
        lemma_fused_is_fully_fused(rest);
        let all = fused(program);
        assert forall|i: int| 0 <= i < all.len() - 1 implies !(#[trigger] all[i] is IncrementPointer
            && all[i + 1] is IncrementPointer) && !(all[i] is IncrementByte && all[i
            + 1] is IncrementByte) by {
            if i == 0 {
                lemma_fused_unfold(rest);
                lemma_run_is_maximal(program.skip(1), true);
                lemma_run_is_maximal(program.skip(1), false);
            } else {
                assert(all[i] == fused(rest)[i - 1]);
                assert(all[i + 1] == fused(rest)[i]);
            }
        }
    }
}

/// Giving the brackets their distances does not touch the other
/// instructions: a fully fused program stays so.
pub proof fn lemma_resolved_is_fully_fused(raw: Seq<Instruction>)
    requires
        fully_fused(raw),
    ensures
        fully_fused(resolved(raw)),
{
    let program = resolved(raw);
    assert forall|i: int| 0 <= i < program.len() - 1 implies !(#[trigger] program[i] is IncrementPointer
        && program[i + 1] is IncrementPointer) && !(program[i] is IncrementByte && program[i
        + 1] is IncrementByte) by {
        assert(!(raw[i] is IncrementPointer && raw[i + 1] is IncrementPointer));
    }
}

/// Bracket partnership: in the representation of a program with balanced
/// brackets, a forward jump of distance `d` at `i` and a backward jump of
/// the same distance at `i + d` always come together.
pub proof fn lemma_lowered_is_well_formed(program: Seq<BfInstruction>)
    requires
        program.len() <= usize::MAX,
        balanced(shape(fused(program))),
    ensures
        well_formed(lowered(program)),
{
    let raw = fused(program);
    lemma_fused_len(program);
    assert forall|i: int| 0 <= i < raw.len() implies (#[trigger] shape(raw)[i] == Bracket::Open
        ==> closer(shape(raw), i) is Some) && (shape(raw)[i] == Bracket::Close ==> opener(
        shape(raw),
        i,
    ) is Some) by {
        crate::nesting::lemma_balanced_pairs(shape(raw), i);
    }
    lemma_resolved_well_formed(raw);
}

/// Fusion makes a program no longer.
pub proof fn lemma_fused_len(program: Seq<BfInstruction>)
    ensures
        fused(program).len() <= program.len(),
    decreases program.len(),
{
    if program.len() > 0 {
        lemma_fused_unfold(program);
        lemma_fused_len(program.skip(1 + tail_len(program)));
    }
}

/// Lowers a primitive program: fuses its runs of increments and gives every
/// bracket the distance to its partner. It fails if and only if the
/// brackets are not balanced.
pub fn transform(instructions: &[BfInstruction]) -> (result: Result<
    Vec<Instruction>,
    TransformError,
>)
    requires
        instructions@.len() <= MAX_PROGRAM_LEN,
    ensures
        match result {
            Ok(program) => {
                &&& balanced(crate::brainfuck::shape(instructions@))
                &&& program@ == lowered(instructions@)
                &&& program@.len() <= instructions@.len()
                &&& well_formed(program@)
                &&& fully_fused(program@)
            },
            Err(error) => {
                &&& error == TransformError::UnbalancedBrackets
                &&& !balanced(crate::brainfuck::shape(instructions@))
            },
        },
{
    let raw = fuse(instructions);
    proof {
        lemma_fused_is_fully_fused(instructions@);
        lemma_resolved_is_fully_fused(raw@);
        lemma_fused_len(instructions@);
        crate::fusion::lemma_balance_carries(instructions@);
    }
    resolve(raw)
}

/// Why the interpreter stopped before the end of the program.
#[derive(Debug, PartialEq, Eq, Clone, Copy, Structural)]
pub enum VmError {
    /// The data pointer was to be moved off the tape.
    PointerOutOfBounds,
}

/// Whether the machine has run past the last instruction.
pub open spec fn halted(program: Seq<Instruction>, m: Machine) -> bool {
    m.pc >= program.len()
}

/// What one instruction does to the machine, or the error that stops it.
pub open spec fn step_of(program: Seq<Instruction>, m: Machine) -> Result<Machine, VmError>
    recommends
        m.wf(),
        !halted(program, m),
{
    match program[m.pc] {
        Instruction::IncrementPointer(delta) => if 0 <= m.pointer + delta < TAPE_LEN {
            Ok(m.shift(delta as int))
        } else {
            Err(VmError::PointerOutOfBounds)
        },
        Instruction::IncrementByte(delta) => Ok(m.bump(delta as int)),
        Instruction::OutputByte => Ok(m.emit()),
        Instruction::ReadByte => Ok(m.absorb()),
        Instruction::JumpForwardsIfZero(distance) => if m.cell() == 0 {
            Ok(m.jump(m.pc + distance))
        } else {
            Ok(m.advance())
        },
        Instruction::JumpBackwardsIfNotZero(distance) => if m.cell() != 0 {
            Ok(m.jump(m.pc - distance))
        } else {
            Ok(m.advance())
        },
    }
}

/// Where a run of at most `fuel` instructions leaves the machine.
pub struct Outcome {
    /// The state after the last instruction that was executed.
    pub machine: Machine,
    /// The error that stopped the run, if one did.
    pub error: Option<VmError>,
}

/// The run of a program from `m`: it ends when the program has halted, when
/// an instruction fails, or after `fuel` instructions.
pub open spec fn run(program: Seq<Instruction>, m: Machine, fuel: nat) -> Outcome
    decreases fuel,
{
    if fuel == 0 || halted(program, m) {
        Outcome { machine: m, error: None }
    } else {
        match step_of(program, m) {
            Ok(next) => run(program, next, (fuel - 1) as nat),
            Err(error) => Outcome { machine: m, error: Some(error) },
        }
    }
}

/// Cell arithmetic wraps: adding 256 changes nothing, and subtracting one
/// from a zero cell leaves 255.
pub proof fn lemma_cell_add_wraps(program: Seq<Instruction>, m: Machine)
    requires
        m.wf(),
        !halted(program, m),
    ensures
        program[m.pc] == Instruction::IncrementByte(256) ==> step_of(program, m) == Ok::<
            Machine,
            VmError,
        >(m.advance()),
        program[m.pc] == Instruction::IncrementByte(-1i32) && m.cell() == 0 ==> step_of(
            program,
            m,
        ).unwrap().cell() == 255,
{
    if program[m.pc] == Instruction::IncrementByte(256) {
        assert(m.bump(256).cells =~= m.cells);
    }
}

/// An interpreter of the intermediate representation. A jump costs one
/// addition: the distances are in the instructions.
pub struct Vm {
    program: Vec<Instruction>,
    program_counter: usize,
    cells: [u8; 30000],
    data_pointer: usize,
}

impl Vm {
    /// The data pointer is on the tape and the program's brackets pair up.
    #[verifier::type_invariant]
    closed spec fn inv(&self) -> bool {
        &&& self.data_pointer < TAPE_LEN
        &&& well_formed(self.program@)
    }

    /// The program that this interpreter runs.
    pub closed spec fn program(&self) -> Seq<Instruction> {
        self.program@
    }

    /// Index of the next instruction.
    pub closed spec fn pc(&self) -> int {
        self.program_counter as int
    }

    /// Index of the current cell.
    pub closed spec fn pointer(&self) -> int {
        self.data_pointer as int
    }

    /// The tape.
    pub closed spec fn tape(&self) -> Seq<u8> {
        self.cells@
    }

    /// The state of the machine, given what is left of the input and what
    /// has been written.
    pub open spec fn machine(&self, input: Seq<u8>, output: Seq<u8>) -> Machine {
        Machine { pc: self.pc(), pointer: self.pointer(), cells: self.tape(), input, output }
    }

    /// An interpreter at the start of `program`, with a zeroed tape.
    pub fn new(program: Vec<Instruction>) -> (vm: Vm)
        requires
            well_formed(program@),
        ensures
            vm.program() == program@,
            forall|input: Seq<u8>| #[trigger]
                vm.machine(input, Seq::empty()) == Machine::initial(input),
    {
        let vm = Vm { program, program_counter: 0, cells: [0u8; 30000], data_pointer: 0 };
        assert(vm.cells@ =~= Machine::initial(Seq::empty()).cells);
        vm
    }

    /// Whether the program has run to its end.
    pub fn halted(&self) -> (done: bool)
        ensures
            done == (self.pc() >= self.program().len()),
    {
        self.program_counter >= self.program.len()
    }

    /// Whether the next instruction reads a byte of input.
    pub fn wants_input(&self) -> (wanted: bool)
        ensures
            wanted == (0 <= self.pc() < self.program().len() && self.program()[self.pc()]
                == Instruction::ReadByte),
    {
        self.program_counter < self.program.len() && self.program[self.program_counter]
            == Instruction::ReadByte
    }

    /// The cells of the tape.
    pub fn cells(&self) -> (cells: &[u8; 30000])
        ensures
            cells@ == self.tape(),
    {
        &self.cells
    }

    /// Executes one instruction. On an error nothing changes.
    pub fn step(&mut self, input: &mut Input, output: &mut Vec<u8>) -> (result: Result<
        (),
        VmError,
    >)
        requires
            !halted(old(self).program(), old(self).machine(old(input)@, old(output)@)),
        ensures
            final(self).program() == old(self).program(),
            match step_of(old(self).program(), old(self).machine(old(input)@, old(output)@)) {
                Ok(next) => result is Ok && final(self).machine(final(input)@, final(output)@)
                    == next,
                Err(error) => result == Err::<(), VmError>(error) && final(self).machine(
                    final(input)@,
                    final(output)@,
                ) == old(self).machine(old(input)@, old(output)@),
            },
    {
        proof {
            use_type_invariant(&*self);
            lemma_partner(self.program@, self.program_counter as int);
        }
        let len = self.program.len();
        let pc = match self.program[self.program_counter] {
            Instruction::IncrementPointer(inc) => {
                let target: i64 = self.data_pointer as i64 + inc as i64;
                if target < 0 || target >= 30000 {
                    return Err(VmError::PointerOutOfBounds);
                }
                self.data_pointer = target as usize;
                self.program_counter + 1
            },
            Instruction::IncrementByte(inc) => {
                let byte = self.cells[self.data_pointer];
                let sum: i64 = byte as i64 + inc as i64;
                let lifted: u64 = (sum + 0x1_0000_0000) as u64;
                assert((sum + 0x1_0000_0000) % 256 == sum % 256) by {
                    vstd::arithmetic::div_mod::lemma_mod_multiples_vanish(0x100_0000, sum as int, 256);
                }
                self.cells[self.data_pointer] = (lifted % 256) as u8;
                self.program_counter + 1
            },
            Instruction::OutputByte => {
                output.push(self.cells[self.data_pointer]);
                self.program_counter + 1
            },
            Instruction::ReadByte => {
                let byte = match input.read() {
                    Some(byte) => byte,
                    None => 0,
                };
                self.cells[self.data_pointer] = byte;
                self.program_counter + 1
            },
            Instruction::JumpForwardsIfZero(jmp) => {
                if self.cells[self.data_pointer] == 0 {
                    self.program_counter + jmp
                } else {
                    self.program_counter + 1
                }
            },
            Instruction::JumpBackwardsIfNotZero(jmp) => {
                if self.cells[self.data_pointer] != 0 {
                    self.program_counter - jmp
                } else {
                    self.program_counter + 1
                }
            },
        };
        self.program_counter = pc;
        Ok(())
    }

    /// Runs the program until it halts or fails, but for at most `max_steps`
    /// instructions. A failing instruction leaves the machine as it was
    /// before it. Whether the program has halted is what `halted` tells.
    pub fn vm_loop(&mut self, input: &mut Input, output: &mut Vec<u8>, max_steps: u64) -> (result:
        Result<(), VmError>)
        ensures
            final(self).program() == old(self).program(),
            ({
                let outcome = run(
                    old(self).program(),
                    old(self).machine(old(input)@, old(output)@),
                    max_steps as nat,
                );
                &&& final(self).machine(final(input)@, final(output)@) == outcome.machine
                &&& match outcome.error {
                    Some(error) => result == Err::<(), VmError>(error),
                    None => result is Ok,
                }
            }),
    {
        let ghost program = self.program();
        let ghost start = self.machine(input@, output@);
        let mut steps: u64 = 0;
        while steps < max_steps && !self.halted()
            invariant
                steps <= max_steps,
                self.program() == program,
                program == old(self).program(),
                start == old(self).machine(old(input)@, old(output)@),
                run(program, start, max_steps as nat) == run(
                    program,
                    self.machine(input@, output@),
                    (max_steps - steps) as nat,
                ),
            decreases max_steps - steps,
        {
            match self.step(input, output) {
                Ok(()) => {},
                Err(error) => {
                    return Err(error);
                },
            }
            steps = steps + 1;
        }
        Ok(())
    }
}

} // verus!
