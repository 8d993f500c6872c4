//! The command buffer and the pointer algebra built on it.
use crate::command::{
    displacement, emit, emit_all, lemma_displacement_concat, lemma_displacement_emit,
    lemma_displacement_emit_all, lemma_emit_all_basics, lemma_emit_all_concat_all,
    lemma_emit_reduced, lemma_parse_text, parse, parse_symbol, reduced, repeat, text, BfCmd,
};
use crate::effect::program::{lemma_demo_writes_334, yields, Outcome};
use crate::effect::{adds, lemma_algebra, moves, reads, writes};
use crate::generator::dispatch::program_code;
use crate::isa::Inst;
use crate::opcode::lemma_opcode_table;
use vstd::prelude::*;
use vstd::string::StrSliceExecFns;
use vstd::string::StringExecFns;

pub mod arith;
pub mod control;
pub mod dispatch;
pub mod print;

verus! {

/// The commands that move the pointer by `n` cells: to the right if `n` is
/// positive, to the left if it is negative.
pub open spec fn move_code(n: int) -> Seq<BfCmd> {
    if n >= 0 {
        repeat(BfCmd::Right, n)
    } else {
        repeat(BfCmd::Left, -n)
    }
}

/// The commands that add `x` to the current cell: increments if `x` is
/// positive, decrements if it is negative.
pub open spec fn adjust_code(x: int) -> Seq<BfCmd> {
    if x >= 0 {
        repeat(BfCmd::Inc, x)
    } else {
        repeat(BfCmd::Dec, -x)
    }
}

/// The commands that visit slot `p`, add `x` there and come back.
pub open spec fn add_code(p: int, x: int) -> Seq<BfCmd> {
    move_code(p) + adjust_code(x) + move_code(-p)
}

/// The commands that visit slot `p`, read a byte into it and come back.
pub open spec fn get_code(p: int) -> Seq<BfCmd> {
    move_code(p) + seq![BfCmd::Get] + move_code(-p)
}

/// The commands that visit slot `p`, write it and come back.
pub open spec fn put_code(p: int) -> Seq<BfCmd> {
    move_code(p) + seq![BfCmd::Put] + move_code(-p)
}

/// A run of one command moves the pointer by its length times the command's
/// own movement.
pub proof fn lemma_displacement_repeat(c: BfCmd, n: int)
    ensures
        displacement(repeat(c, n)) == if n >= 0 {
            n * c.shift()
        } else {
            0
        },
    decreases n,
{
    if n > 0 {
        assert(repeat(c, n).drop_last() =~= repeat(c, n - 1));
        lemma_displacement_repeat(c, n - 1);
        assert(n * c.shift() == (n - 1) * c.shift() + c.shift()) by (nonlinear_arith);
    }
}

/// `move_code(n)` moves the pointer by `n`; adding to the current cell does
/// not move it.
pub proof fn lemma_displacement_moves(n: int)
    ensures
        displacement(move_code(n)) == n,
        displacement(adjust_code(n)) == 0,
{
    lemma_displacement_repeat(BfCmd::Right, n);
    lemma_displacement_repeat(BfCmd::Left, -n);
    lemma_displacement_repeat(BfCmd::Inc, n);
    lemma_displacement_repeat(BfCmd::Dec, -n);
    assert(BfCmd::Right.shift() == 1 && BfCmd::Left.shift() == -1);
    assert(BfCmd::Inc.shift() == 0 && BfCmd::Dec.shift() == 0);
    assert(n * 1 == n && (-n) * (-1) == n && n * 0 == 0 && (-n) * 0 == 0);
}

/// Visiting a slot to add to it, to read into it or to write it leaves the
/// pointer where it was.
pub proof fn lemma_displacement_visit(p: int, x: int)
    ensures
        displacement(add_code(p, x)) == 0,
        displacement(get_code(p)) == 0,
        displacement(put_code(p)) == 0,
{
    lemma_displacement_moves(p);
    lemma_displacement_moves(-p);
    lemma_displacement_moves(x);
    lemma_displacement_concat(move_code(p), adjust_code(x));
    lemma_displacement_concat(move_code(p) + adjust_code(x), move_code(-p));
    lemma_displacement_concat(move_code(p), seq![BfCmd::Get]);
    lemma_displacement_concat(move_code(p) + seq![BfCmd::Get], move_code(-p));
    lemma_displacement_concat(move_code(p), seq![BfCmd::Put]);
    lemma_displacement_concat(move_code(p) + seq![BfCmd::Put], move_code(-p));
    reveal_with_fuel(displacement, 2);
}

/// The one-character text of a command.
fn symbol_text(c: BfCmd) -> (s: &'static str)
    ensures
        s@ == seq![c.symbol()],
{
    proof {
        reveal_strlit("+");
        reveal_strlit("-");
        reveal_strlit(">");
        reveal_strlit("<");
        reveal_strlit("[");
        reveal_strlit("]");
        reveal_strlit(",");
        reveal_strlit(".");
    }
    let s = match c {
        BfCmd::Inc => "+",
        BfCmd::Dec => "-",
        BfCmd::Right => ">",
        BfCmd::Left => "<",
        BfCmd::Open => "[",
        BfCmd::Close => "]",
        BfCmd::Get => ",",
        BfCmd::Put => ".",
    };
    assert(s@ =~= seq![c.symbol()]);
    s
}

/// The command that a character stands for, if any.
fn command_of(c: char) -> (r: Option<BfCmd>)
    ensures
        r == parse_symbol(c),
{
    if c == '+' {
        Some(BfCmd::Inc)
    } else if c == '-' {
        Some(BfCmd::Dec)
    } else if c == '>' {
        Some(BfCmd::Right)
    } else if c == '<' {
        Some(BfCmd::Left)
    } else if c == '[' {
        Some(BfCmd::Open)
    } else if c == ']' {
        Some(BfCmd::Close)
    } else if c == ',' {
        Some(BfCmd::Get)
    } else if c == '.' {
        Some(BfCmd::Put)
    } else {
        None
    }
}

/// The absolute value of `x`.
fn magnitude(x: isize) -> (n: usize)
    ensures
        n == if x >= 0 {
            x as int
        } else {
            -x
        },
{
    if x >= 0 {
        x as usize
    } else {
        (-(x + 1)) as usize + 1
    }
}

/// A command buffer: the program generated so far.
///
/// Commands are appended under the cancellation rule of [`emit`], so the
/// buffer never holds a command directly followed by the one that undoes it.
pub struct Generator {
    cmds: Vec<BfCmd>,
}

impl View for Generator {
    type V = Seq<BfCmd>;

    closed spec fn view(&self) -> Seq<BfCmd> {
        self.cmds@
    }
}

impl Generator {
    /// The buffer's invariant: no two neighbours cancel.
    pub open spec fn wf(&self) -> bool {
        reduced(self@)
    }

    /// An empty buffer.
    pub fn new() -> (gen: Generator)
        ensures
            gen.wf(),
            gen@ == Seq::<BfCmd>::empty(),
    {
        Generator { cmds: Vec::new() }
    }

    /// The number of commands in the buffer.
    pub fn len(&self) -> (n: usize)
        ensures
            n == self@.len(),
    {
        self.cmds.len()
    }

    /// The command at position `i`.
    pub fn command(&self, i: usize) -> (c: BfCmd)
        requires
            i < self@.len(),
        ensures
            c == self@[i as int],
    {
        self.cmds[i]
    }

    /// Renders the buffer as program text. The buffer is left as it is.
    pub fn build(&self) -> (result: String)
        ensures
            result@ == text(self@),
    {
        let mut result = String::new();
        let mut i: usize = 0;
        while i < self.cmds.len()
            invariant
                i <= self.cmds.len(),
                result@ == text(self.cmds@.take(i as int)),
            decreases self.cmds.len() - i,
        {
            result.append(symbol_text(self.cmds[i]));
            proof {
                let before = self.cmds@.take(i as int);
                let after = self.cmds@.take(i + 1);
                assert(after =~= before.push(self.cmds@[i as int]));
                assert(text(after) =~= text(before) + seq![self.cmds@[i as int].symbol()]);
            }
            i += 1;
        }
        assert(self.cmds@.take(i as int) =~= self.cmds@);
        result
    }

    /// Appends one command under the cancellation rule.
    pub fn append(&mut self, cmd: BfCmd)
        requires
            old(self).wf(),
        ensures
            final(self).wf(),
            final(self)@ == emit(old(self)@, cmd),
            final(self)@ == emit_all(old(self)@, seq![cmd]),
            displacement(final(self)@) == displacement(old(self)@) + cmd.shift(),
    {
        proof {
            lemma_emit_reduced(self@, cmd);
            lemma_emit_all_basics(self@, cmd);
            lemma_displacement_emit(self@, cmd);
        }
        let n: usize = self.cmds.len();
        if n > 0 && self.cmds[n - 1].undo() == Some(cmd) {
            self.cmds.pop();
        } else {
            self.cmds.push(cmd);
        }
    }

    /// Appends the commands that `code` holds, skipping every other character.
    pub fn raw(&mut self, code: &str)
        requires
            old(self).wf(),
        ensures
            final(self).wf(),
            final(self)@ == emit_all(old(self)@, parse(code@)),
    {
        let n: usize = code.unicode_len();
        let mut i: usize = 0;
        while i < n
            invariant
                n == code@.len(),
                i <= n,
                self.wf(),
                self@ == emit_all(old(self)@, parse(code@.take(i as int))),
            decreases n - i,
        {
            let c: char = code.get_char(i);
            proof {
                let before = code@.take(i as int);
                let after = code@.take(i + 1);
                assert(after.drop_last() =~= before);
                assert(after.last() == c);
                if parse_symbol(c) is Some {
                    assert(parse(after).drop_last() =~= parse(before));
                }
            }
            match command_of(c) {
                Some(cmd) => self.append(cmd),
                None => {},
            }
            i += 1;
        }
        assert(code@.take(i as int) =~= code@);
    }

    /// Appends an increment.
    pub fn bf_inc(&mut self)
        requires
            old(self).wf(),
        ensures
            final(self).wf(),
            final(self)@ == emit(old(self)@, BfCmd::Inc),
            final(self)@ == emit_all(old(self)@, seq![BfCmd::Inc]),
            displacement(final(self)@) == displacement(old(self)@),
    {
        self.append(BfCmd::Inc);
    }

    /// Appends a decrement.
    pub fn bf_dec(&mut self)
        requires
            old(self).wf(),
        ensures
            final(self).wf(),
            final(self)@ == emit(old(self)@, BfCmd::Dec),
            final(self)@ == emit_all(old(self)@, seq![BfCmd::Dec]),
            displacement(final(self)@) == displacement(old(self)@),
    {
        self.append(BfCmd::Dec);
    }

    /// Appends a step to the right.
    pub fn bf_right(&mut self)
        requires
            old(self).wf(),
        ensures
            final(self).wf(),
            final(self)@ == emit(old(self)@, BfCmd::Right),
            final(self)@ == emit_all(old(self)@, seq![BfCmd::Right]),
            displacement(final(self)@) == displacement(old(self)@) + 1,
    {
        self.append(BfCmd::Right);
    }

    /// Appends a step to the left.
    pub fn bf_left(&mut self)
        requires
            old(self).wf(),
        ensures
            final(self).wf(),
            final(self)@ == emit(old(self)@, BfCmd::Left),
            final(self)@ == emit_all(old(self)@, seq![BfCmd::Left]),
            displacement(final(self)@) == displacement(old(self)@) - 1,
    {
        self.append(BfCmd::Left);
    }

    /// Appends a loop opening. It is never cancelled.
    pub fn bf_open(&mut self)
        requires
            old(self).wf(),
        ensures
            final(self).wf(),
            final(self)@ == old(self)@.push(BfCmd::Open),
            final(self)@ == emit_all(old(self)@, seq![BfCmd::Open]),
            displacement(final(self)@) == displacement(old(self)@),
    {
        self.append(BfCmd::Open);
    }

    /// Appends a loop closing. It is never cancelled.
    pub fn bf_close(&mut self)
        requires
            old(self).wf(),
        ensures
            final(self).wf(),
            final(self)@ == old(self)@.push(BfCmd::Close),
            final(self)@ == emit_all(old(self)@, seq![BfCmd::Close]),
            displacement(final(self)@) == displacement(old(self)@),
    {
        self.append(BfCmd::Close);
    }

    /// Appends a read. It is never cancelled.
    pub fn bf_get(&mut self)
        requires
            old(self).wf(),
        ensures
            final(self).wf(),
            final(self)@ == old(self)@.push(BfCmd::Get),
            final(self)@ == emit_all(old(self)@, seq![BfCmd::Get]),
            displacement(final(self)@) == displacement(old(self)@),
    {
        self.append(BfCmd::Get);
    }

    /// Appends a write. It is never cancelled.
    pub fn bf_put(&mut self)
        requires
            old(self).wf(),
        ensures
            final(self).wf(),
            final(self)@ == old(self)@.push(BfCmd::Put),
            final(self)@ == emit_all(old(self)@, seq![BfCmd::Put]),
            displacement(final(self)@) == displacement(old(self)@),
    {
        self.append(BfCmd::Put);
    }

    /// Appends `n` copies of `cmd`.
    fn repeat(&mut self, cmd: BfCmd, n: usize)
        requires
            old(self).wf(),
        ensures
            final(self).wf(),
            final(self)@ == emit_all(old(self)@, repeat(cmd, n as int)),
    {
        let mut i: usize = 0;
        while i < n
            invariant
                i <= n,
                self.wf(),
                self@ == emit_all(old(self)@, repeat(cmd, i as int)),
            decreases n - i,
        {
            proof {
                assert(repeat(cmd, i + 1).drop_last() =~= repeat(cmd, i as int));
            }
            self.append(cmd);
            i += 1;
        }
    }

    /// Moves the pointer `x` cells to the right, or `-x` cells to the left if
    /// `x` is negative.
    pub fn right(&mut self, x: isize)
        requires
            old(self).wf(),
        ensures
            final(self).wf(),
            final(self)@ == emit_all(old(self)@, move_code(x as int)),
            displacement(final(self)@) == displacement(old(self)@) + x,
            moves(move_code(x as int), x as int),
    {
        proof {
            lemma_displacement_emit_all(self@, move_code(x as int));
            lemma_displacement_moves(x as int);
            lemma_algebra(x as int, 0);
        }
        if x >= 0 {
            self.repeat(BfCmd::Right, magnitude(x));
        } else {
            self.repeat(BfCmd::Left, magnitude(x));
        }
    }

    /// Moves the pointer `x` cells to the left, or `-x` cells to the right if
    /// `x` is negative.
    pub fn left(&mut self, x: isize)
        requires
            old(self).wf(),
        ensures
            final(self).wf(),
            final(self)@ == emit_all(old(self)@, move_code(-x)),
            displacement(final(self)@) == displacement(old(self)@) - x,
            moves(move_code(-x), -x),
    {
        proof {
            lemma_displacement_emit_all(self@, move_code(-x));
            lemma_displacement_moves(-x);
            lemma_algebra(-x, 0);
        }
        if x > 0 {
            self.repeat(BfCmd::Left, magnitude(x));
        } else {
            self.repeat(BfCmd::Right, magnitude(x));
        }
    }

    /// Moves the pointer from the reference position to slot `p`.
    pub fn enter(&mut self, p: isize)
        requires
            old(self).wf(),
        ensures
            final(self).wf(),
            final(self)@ == emit_all(old(self)@, move_code(p as int)),
            displacement(final(self)@) == displacement(old(self)@) + p,
            moves(move_code(p as int), p as int),
    {
        self.right(p);
    }

    /// Moves the pointer from slot `p` back to the reference position.
    pub fn exit(&mut self, p: isize)
        requires
            old(self).wf(),
        ensures
            final(self).wf(),
            final(self)@ == emit_all(old(self)@, move_code(-p)),
            displacement(final(self)@) == displacement(old(self)@) - p,
            moves(move_code(-p), -p),
    {
        self.left(p);
    }

    /// Adds `x` to the current cell.
    fn adjust(&mut self, x: i32)
        requires
            old(self).wf(),
        ensures
            final(self).wf(),
            final(self)@ == emit_all(old(self)@, adjust_code(x as int)),
    {
        if x >= 0 {
            self.repeat(BfCmd::Inc, magnitude(x as isize));
        } else {
            self.repeat(BfCmd::Dec, magnitude(x as isize));
        }
    }

    /// Adds `x` to slot `p`: enters the slot, increments or decrements, and
    /// comes back.
    pub fn add(&mut self, p: isize, x: i32)
        requires
            old(self).wf(),
        ensures
            final(self).wf(),
            final(self)@ == emit_all(old(self)@, add_code(p as int, x as int)),
            displacement(final(self)@) == displacement(old(self)@),
            adds(add_code(p as int, x as int), p as int, x as int),
    {
        self.enter(p);
        self.adjust(x);
        self.exit(p);
        proof {
            lemma_emit_all_concat_all();
            lemma_displacement_emit_all(old(self)@, add_code(p as int, x as int));
            lemma_displacement_visit(p as int, x as int);
            lemma_algebra(p as int, x as int);
        }
    }

    /// Subtracts `x` from slot `p`.
    pub fn sub(&mut self, p: isize, x: i32)
        requires
            old(self).wf(),
        ensures
            final(self).wf(),
            final(self)@ == emit_all(old(self)@, add_code(p as int, -x)),
            displacement(final(self)@) == displacement(old(self)@),
            adds(add_code(p as int, -x), p as int, -x),
    {
        self.enter(p);
        if x > 0 {
            self.repeat(BfCmd::Dec, magnitude(x as isize));
        } else {
            self.repeat(BfCmd::Inc, magnitude(x as isize));
        }
        self.exit(p);
        proof {
            lemma_emit_all_concat_all();
            lemma_displacement_emit_all(old(self)@, add_code(p as int, -x));
            lemma_displacement_visit(p as int, -x);
            lemma_algebra(p as int, -x);
        }
    }

    /// Reads one byte into slot `p`.
    pub fn get(&mut self, p: isize)
        requires
            old(self).wf(),
        ensures
            final(self).wf(),
            final(self)@ == emit_all(old(self)@, get_code(p as int)),
            displacement(final(self)@) == displacement(old(self)@),
            reads(get_code(p as int), p as int),
    {
        self.enter(p);
        self.bf_get();
        self.exit(p);
        proof {
            lemma_emit_all_concat_all();
            lemma_algebra(p as int, 0);
        }
    }

    /// Writes slot `p` as one byte.
    pub fn put(&mut self, p: isize)
        requires
            old(self).wf(),
        ensures
            final(self).wf(),
            final(self)@ == emit_all(old(self)@, put_code(p as int)),
            displacement(final(self)@) == displacement(old(self)@),
            writes(put_code(p as int), p as int),
    {
        self.enter(p);
        self.bf_put();
        self.exit(p);
        proof {
            lemma_emit_all_concat_all();
            lemma_algebra(p as int, 0);
        }
    }
}

/// The program that [`generate`] compiles: load 334 and write it.
pub open spec fn demo_program() -> Seq<Inst> {
    seq![Inst::I32Const(334), Inst::I32Print]
}

/// The text of the tape-machine program that loads the constant 334 and
/// writes it in decimal: run on an empty tape, the program writes the three
/// bytes `334`.
pub fn generate() -> (rendered: String)
    ensures
        rendered@ == text(emit_all(Seq::empty(), program_code(demo_program()))),
        yields(
            parse(rendered@),
            demo_program(),
            Outcome { stack: Seq::empty(), output: seq![51u8, 51u8, 52u8] },
        ),
{
    let mut gen = Generator::new();
    let program: Vec<Inst> = vec![Inst::I32Const(334), Inst::I32Print];
    proof {
        assert(program@ =~= demo_program());
        lemma_opcode_table(program@);
        lemma_demo_writes_334();
        lemma_parse_text(emit_all(Seq::empty(), program_code(demo_program())));
    }
    gen.compile(program).unwrap()
}

} // verus!
