//! A reversible stack machine over textual instructions.
//!
//! Each executed instruction leaves an undo record that holds exactly what is
//! needed to restore the value stack; stepping back replays that record and
//! returns the instruction text to the front of the pending queue.
//!
//! Arithmetic wraps on `i32` overflow (`i32::MIN / -1` gives `i32::MIN`).
use vstd::prelude::*;
use vstd::wrapping::i32_specs;
use crate::text::{parse_i32, parse_int, split_words, views, words};

verus! {

/// Why a step could not be taken.
#[derive(Clone, Copy, Debug, PartialEq, Eq, Structural)]
pub enum RuntimeError {
    DivideByZero,
    StackUnderflow,
    InvalidCommand,
    NoInstructions,
}

/// The binary arithmetic operations.
#[derive(Clone, Copy, Debug, PartialEq, Eq, Structural)]
pub enum BinOp {
    Add,
    Sub,
    Mul,
    Div,
}

/// A decoded instruction.
#[derive(Clone, Copy, Debug, PartialEq, Eq, Structural)]
pub enum Command {
    Push(i32),
    Pop,
    Arith(BinOp),
}

/// How to reverse one executed instruction on the value stack.
#[derive(Clone, Copy, Debug, PartialEq, Eq, Structural)]
pub enum Restore {
    /// Remove the value that a `PUSH` added.
    Unpush,
    /// Push back the value that a `POP` removed.
    Repush(i32),
    /// Replace the result of a binary operation by its operands `a` (the
    /// former top) and `b` (the value below it).
    Unapply(i32, i32),
}

/// One undo record: the executed text and how to reverse its effect.
#[derive(Debug)]
pub struct UndoOp {
    pub instruction: String,
    pub restore: Restore,
}

/// The machine: pending instructions (front first), the value stack (top
/// last), and the undo log (latest last).
#[derive(Debug)]
pub struct Interpreter {
    pub instructions: Vec<String>,
    pub stack: Vec<i32>,
    pub undo_stack: Vec<UndoOp>,
}

/// The abstract state of a machine.
pub struct Machine {
    pub pending: Seq<Seq<char>>,
    pub stack: Seq<i32>,
    pub history: Seq<(Seq<char>, Restore)>,
}

pub open spec fn mnemonic(w: Seq<char>) -> Option<Command> {
    if w == seq!['P', 'O', 'P'] {
        Some(Command::Pop)
    } else if w == seq!['A', 'D', 'D'] {
        Some(Command::Arith(BinOp::Add))
    } else if w == seq!['S', 'U', 'B'] {
        Some(Command::Arith(BinOp::Sub))
    } else if w == seq!['M', 'U', 'L'] {
        Some(Command::Arith(BinOp::Mul))
    } else if w == seq!['D', 'I', 'V'] {
        Some(Command::Arith(BinOp::Div))
    } else {
        None
    }
}

/// What an instruction text means: `PUSH <i32>`, or one of the operand-less
/// mnemonics alone; `None` for anything else.
pub open spec fn decode(text: Seq<char>) -> Option<Command> {
    let t = words(text);
    if t.len() == 0 {
        None
    } else if t[0] == seq!['P', 'U', 'S', 'H'] {
        if t.len() == 2 {
            match parse_i32(t[1]) {
                Some(v) => Some(Command::Push(v)),
                None => None,
            }
        } else {
            None
        }
    } else if t.len() == 1 {
        mnemonic(t[0])
    } else {
        None
    }
}

/// Integer division truncating toward zero.
pub open spec fn quotient(a: int, b: int) -> int {
    let q = (if a < 0 { -a } else { a }) / (if b < 0 { -b } else { b });
    if (a < 0) == (b < 0) { q } else { -q }
}

/// `a` is the former top of the stack, `b` the value below it.
pub open spec fn apply(op: BinOp, a: i32, b: i32) -> i32 {
    match op {
        BinOp::Add => i32_specs::wrapping_add(a, b),
        BinOp::Sub => i32_specs::wrapping_sub(a, b),
        BinOp::Mul => i32_specs::wrapping_mul(a, b),
        BinOp::Div => i32_specs::signed_crop(quotient(a as int, b as int)),
    }
}

/// The new stack and the undo record of executing `cmd` on `s`, or the error.
pub open spec fn execute(cmd: Command, s: Seq<i32>) -> Result<(Seq<i32>, Restore), RuntimeError> {
    match cmd {
        Command::Push(v) => Ok((s.push(v), Restore::Unpush)),
        Command::Pop => if s.len() == 0 {
            Err(RuntimeError::StackUnderflow)
        } else {
            Ok((s.drop_last(), Restore::Repush(s.last())))
        },
        Command::Arith(op) => if s.len() < 2 {
            Err(RuntimeError::StackUnderflow)
        } else {
            let a = s.last();
            let b = s[s.len() - 2];
            if op == BinOp::Div && b == 0 {
                Err(RuntimeError::DivideByZero)
            } else {
                Ok((s.drop_last().drop_last().push(apply(op, a, b)), Restore::Unapply(a, b)))
            }
        },
    }
}

/// Removes the top value, if any.
pub open spec fn drop_top(s: Seq<i32>) -> Seq<i32> {
    if s.len() == 0 { s } else { s.drop_last() }
}

/// The stack after reversing `r` on `s`.
pub open spec fn revert(r: Restore, s: Seq<i32>) -> Seq<i32> {
    match r {
        Restore::Unpush => drop_top(s),
        Restore::Repush(v) => s.push(v),
        Restore::Unapply(a, b) => drop_top(s).push(b).push(a),
    }
}

/// One forward step of the machine.
pub open spec fn forward_spec(m: Machine) -> Result<Machine, RuntimeError> {
    if m.pending.len() == 0 {
        Err(RuntimeError::NoInstructions)
    } else {
        match decode(m.pending[0]) {
            None => Err(RuntimeError::InvalidCommand),
            Some(cmd) => match execute(cmd, m.stack) {
                Err(e) => Err(e),
                Ok((s, r)) => Ok(
                    Machine {
                        pending: m.pending.drop_first(),
                        stack: s,
                        history: m.history.push((m.pending[0], r)),
                    },
                ),
            },
        }
    }
}

/// One backward step of the machine.
pub open spec fn back_spec(m: Machine) -> Result<Machine, RuntimeError> {
    if m.history.len() == 0 {
        Err(RuntimeError::NoInstructions)
    } else {
        let (text, r) = m.history.last();
        Ok(
            Machine {
                pending: seq![text].add(m.pending),
                stack: revert(r, m.stack),
                history: m.history.drop_last(),
            },
        )
    }
}

/// The outcome of running forward until the queue is empty or a step fails:
/// the machine left behind, and `Ok` or the error of the failing step.
pub open spec fn run_spec(m: Machine) -> (Machine, Result<(), RuntimeError>)
    decreases m.pending.len(),
{
    match forward_spec(m) {
        Ok(next) => run_spec(next),
        Err(RuntimeError::NoInstructions) => (m, Ok(())),
        Err(e) => (m, Err(e)),
    }
}

/// `n` forward steps in a row, or the error of the first that fails.
pub open spec fn forward_n(m: Machine, n: nat) -> Result<Machine, RuntimeError>
    decreases n,
{
    if n == 0 {
        Ok(m)
    } else {
        match forward_spec(m) {
            Ok(next) => forward_n(next, (n - 1) as nat),
            Err(e) => Err(e),
        }
    }
}

/// `n` backward steps in a row, or the error of the first that fails.
pub open spec fn back_n(m: Machine, n: nat) -> Result<Machine, RuntimeError>
    decreases n,
{
    if n == 0 {
        Ok(m)
    } else {
        match back_n(m, (n - 1) as nat) {
            Ok(prev) => back_spec(prev),
            Err(e) => Err(e),
        }
    }
}

/// A backward step right after a successful forward step restores the
/// machine exactly.
pub proof fn lemma_back_undoes_forward(m: Machine)
    requires
        forward_spec(m) is Ok,
    ensures
        back_spec(forward_spec(m)->Ok_0) == Ok::<Machine, RuntimeError>(m),
{
    let next = forward_spec(m)->Ok_0;
    let cmd = decode(m.pending[0])->Some_0;
    let r = execute(cmd, m.stack)->Ok_0.1;
    assert(next.history.last() == (m.pending[0], r));
    assert(next.history.drop_last() =~= m.history);
    assert(seq![m.pending[0]].add(next.pending) =~= m.pending);
    let s = m.stack;
    match cmd {
        Command::Push(v) => {
            assert(revert(r, next.stack) =~= s);
        },
        Command::Pop => {
            assert(revert(r, next.stack) =~= s);
        },
        Command::Arith(op) => {
            assert(revert(r, next.stack) =~= s);
        },
    }
}

/// Inverse law: after `n` successful forward steps, `n` backward steps give
/// back the machine as it was, stack and pending queue alike.
pub proof fn lemma_inverse(m: Machine, n: nat)
    requires
        forward_n(m, n) is Ok,
    ensures
        back_n(forward_n(m, n)->Ok_0, n) == Ok::<Machine, RuntimeError>(m),
    decreases n,
{
    if n > 0 {
        let next = forward_spec(m)->Ok_0;
        lemma_inverse(next, (n - 1) as nat);
        lemma_back_undoes_forward(m);
    }
}

/// A run that ends in `Ok` leaves no pending instruction.
pub proof fn lemma_run_empties_queue(m: Machine)
    requires
        run_spec(m).1 is Ok,
    ensures
        run_spec(m).0.pending.len() == 0,
    decreases m.pending.len(),
{
    if let Ok(next) = forward_spec(m) {
        lemma_run_empties_queue(next);
    }
}

/// Determinism: the outcome of a run depends only on the pending
/// instructions and the stack, not on the undo history.
pub proof fn lemma_run_deterministic(a: Machine, b: Machine)
    requires
        a.pending == b.pending,
        a.stack == b.stack,
    ensures
        run_spec(a).0.pending == run_spec(b).0.pending,
        run_spec(a).0.stack == run_spec(b).0.stack,
        run_spec(a).1 == run_spec(b).1,
    decreases a.pending.len(),
{
    if let Ok(na) = forward_spec(a) {
        let nb = forward_spec(b)->Ok_0;
        lemma_run_deterministic(na, nb);
    }
}

fn word3(w: &Vec<char>, a: char, b: char, c: char) -> (r: bool)
    ensures
        r == (w@ == seq![a, b, c]),
{
    let r = w.len() == 3 && w[0] == a && w[1] == b && w[2] == c;
    if r {
        assert(w@ =~= seq![a, b, c]);
    }
    r
}

fn is_push(w: &Vec<char>) -> (r: bool)
    ensures
        r == (w@ == seq!['P', 'U', 'S', 'H']),
{
    let r = w.len() == 4 && w[0] == 'P' && w[1] == 'U' && w[2] == 'S' && w[3] == 'H';
    if r {
        assert(w@ =~= seq!['P', 'U', 'S', 'H']);
    }
    r
}

fn decode_mnemonic(w: &Vec<char>) -> (r: Option<Command>)
    ensures
        r == mnemonic(w@),
{
    if word3(w, 'P', 'O', 'P') {
        Some(Command::Pop)
    } else if word3(w, 'A', 'D', 'D') {
        Some(Command::Arith(BinOp::Add))
    } else if word3(w, 'S', 'U', 'B') {
        Some(Command::Arith(BinOp::Sub))
    } else if word3(w, 'M', 'U', 'L') {
        Some(Command::Arith(BinOp::Mul))
    } else if word3(w, 'D', 'I', 'V') {
        Some(Command::Arith(BinOp::Div))
    } else {
        None
    }
}

/// Decodes one instruction text.
pub fn decode_instruction(text: &str) -> (r: Option<Command>)
    ensures
        r == decode(text@),
{
    let toks = split_words(text);
    let ghost t = words(text@);
    if toks.len() == 0 {
        return None;
    }
    assert(t[0] == toks@[0]@);
    if is_push(&toks[0]) {
        if toks.len() == 2 {
            assert(t[1] == toks@[1]@);
            match parse_int(&toks[1]) {
                Some(v) => Some(Command::Push(v)),
                None => None,
            }
        } else {
            None
        }
    } else if toks.len() == 1 {
        decode_mnemonic(&toks[0])
    } else {
        None
    }
}

/// Applies a binary operation to `a` (former top) and `b` (the value below).
pub fn apply_op(op: BinOp, a: i32, b: i32) -> (r: i32)
    requires
        op == BinOp::Div ==> b != 0,
    ensures
        r == apply(op, a, b),
{
    match op {
        BinOp::Add => a.wrapping_add(b),
        BinOp::Sub => a.wrapping_sub(b),
        BinOp::Mul => a.wrapping_mul(b),
        BinOp::Div => match a.checked_div(b) {
            Some(q) => q,
            None => i32::MIN,
        },
    }
}

impl View for UndoOp {
    type V = (Seq<char>, Restore);

    open spec fn view(&self) -> (Seq<char>, Restore) {
        (self.instruction@, self.restore)
    }
}

impl Interpreter {
    /// The undo log, oldest record first.
    pub open spec fn history(&self) -> Seq<(Seq<char>, Restore)> {
        self.undo_stack@.map_values(|u: UndoOp| u@)
    }

    pub open spec fn pending(&self) -> Seq<Seq<char>> {
        self.instructions@.map_values(|s: String| s@)
    }

    pub open spec fn model(&self) -> Machine {
        Machine { pending: self.pending(), stack: self.stack@, history: self.history() }
    }

    pub fn new() -> (r: Self)
        ensures
            r.model() == (Machine { pending: seq![], stack: seq![], history: seq![] }),
    {
        let r = Interpreter { instructions: Vec::new(), stack: Vec::new(), undo_stack: Vec::new() };
        assert(r.pending() =~= seq![]);
        assert(r.history() =~= seq![]);
        r
    }

    /// Appends `instructions` at the back of the pending queue, in order.
    pub fn add_instructions(&mut self, instructions: &[&str])
        ensures
            final(self).pending() == old(self).pending() + instructions@.map_values(
                |s: &str| s@,
            ),
            final(self).stack == old(self).stack,
            final(self).undo_stack == old(self).undo_stack,
    {
        let mut i: usize = 0;
        while i < instructions.len()
            invariant
                i <= instructions@.len(),
                self.pending() == old(self).pending() + instructions@.subrange(
                    0,
                    i as int,
                ).map_values(|s: &str| s@),
                self.stack == old(self).stack,
                self.undo_stack == old(self).undo_stack,
            decreases instructions@.len() - i,
        {
            let text = String::from_str(instructions[i]);
            assert(text@ == instructions@[i as int]@);
            let ghost before = self.pending();
            self.instructions.push(text);
            assert(self.pending() =~= before.push(text@));
            assert(instructions@.subrange(0, i + 1).map_values(|s: &str| s@) =~= instructions@.subrange(
                0,
                i as int,
            ).map_values(|s: &str| s@).push(text@));
            assert(self.pending() =~= old(self).pending() + instructions@.subrange(
                0,
                i + 1,
            ).map_values(|s: &str| s@));
            i += 1;
        }
        assert(instructions@.subrange(0, instructions@.len() as int) =~= instructions@);
    }

    /// The instruction at the front of the pending queue, writable in place.
    pub fn current_instruction(&mut self) -> (r: Option<&mut String>)
        ensures
            old(self).instructions@.len() == 0 ==> r is None && *final(self) == *old(self),
            old(self).instructions@.len() > 0 ==> {
                &&& r is Some
                &&& *r.unwrap() == old(self).instructions@[0]
                &&& final(self).instructions@ == old(self).instructions@.update(
                    0,
                    *final(r.unwrap()),
                )
                &&& final(self).stack == old(self).stack
                &&& final(self).undo_stack == old(self).undo_stack
            },
    {
        if self.instructions.len() == 0 {
            None
        } else {
            Some(&mut self.instructions[0])
        }
    }

    /// Executes the front instruction. On failure nothing changes.
    pub fn forward(&mut self) -> (r: Result<(), RuntimeError>)
        ensures
            match forward_spec(old(self).model()) {
                Ok(m) => r is Ok && final(self).model() == m,
                Err(e) => r == Err::<(), RuntimeError>(e) && *final(self) == *old(self),
            },
    {
        if self.instructions.len() == 0 {
            return Err(RuntimeError::NoInstructions);
        }
        let cmd = match decode_instruction(self.instructions[0].as_str()) {
            None => return Err(RuntimeError::InvalidCommand),
            Some(c) => c,
        };
        let ghost s0 = self.stack@;
        let restore = match cmd {
            Command::Push(v) => {
                self.stack.push(v);
                Restore::Unpush
            },
            Command::Pop => {
                if self.stack.len() == 0 {
                    return Err(RuntimeError::StackUnderflow);
                }
                let v = self.stack.pop().unwrap();
                Restore::Repush(v)
            },
            Command::Arith(op) => {
                let n = self.stack.len();
                if n < 2 {
                    return Err(RuntimeError::StackUnderflow);
                }
                let a = self.stack[n - 1];
                let b = self.stack[n - 2];
                if op == BinOp::Div && b == 0 {
                    return Err(RuntimeError::DivideByZero);
                }
                self.stack.pop();
                self.stack.pop();
                self.stack.push(apply_op(op, a, b));
                assert(self.stack@ =~= s0.drop_last().drop_last().push(apply(op, a, b)));
                Restore::Unapply(a, b)
            },
        };
        let ghost pending0 = self.pending();
        let text = self.instructions.remove(0);
        assert(self.pending() =~= pending0.drop_first());
        self.undo_stack.push(UndoOp { instruction: text, restore });
        assert(self.history() =~= old(self).history().push((pending0[0], restore)));
        Ok(())
    }

    /// Steps forward until the queue is empty (`Ok`) or a step fails (that
    /// error, with the failing instruction still pending).
    pub fn run(&mut self) -> (r: Result<(), RuntimeError>)
        ensures
            (final(self).model(), r) == run_spec(old(self).model()),
            r is Ok ==> final(self).instructions@.len() == 0,
    {
        proof {
            if run_spec(old(self).model()).1 is Ok {
                lemma_run_empties_queue(old(self).model());
            }
        }
        loop
            invariant
                run_spec(self.model()) == run_spec(old(self).model()),
            decreases self.instructions@.len(),
        {
            match self.forward() {
                Err(RuntimeError::NoInstructions) => return Ok(()),
                Err(e) => return Err(e),
                Ok(()) => {},
            }
        }
    }

    /// Reverses the latest executed instruction and puts its text back at
    /// the front of the queue.
    pub fn back(&mut self) -> (r: Result<(), RuntimeError>)
        ensures
            match back_spec(old(self).model()) {
                Ok(m) => r is Ok && final(self).model() == m,
                Err(e) => r == Err::<(), RuntimeError>(e) && *final(self) == *old(self),
            },
    {
        if self.undo_stack.len() == 0 {
            return Err(RuntimeError::NoInstructions);
        }
        let op = self.undo_stack.pop().unwrap();
        assert(self.history() =~= old(self).history().drop_last());
        match op.restore {
            Restore::Unpush => {
                self.stack.pop();
            },
            Restore::Repush(v) => self.stack.push(v),
            Restore::Unapply(a, b) => {
                self.stack.pop();
                self.stack.push(b);
                self.stack.push(a);
            },
        }
        let ghost pending0 = self.pending();
        self.instructions.insert(0, op.instruction);
        assert(self.pending() =~= seq![op.instruction@].add(pending0));
        Ok(())
    }
}

} // verus!
