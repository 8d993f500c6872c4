//! The tape machine that generated programs run on, as a mathematical model:
//! what a program does to a tape, for how long it runs, and which programs
//! do the same.
use crate::command::{cancels, emit_all, BfCmd};
use vstd::prelude::*;

verus! {

/// A state of the tape machine: a tape of byte cells without end in either
/// direction, the pointer, the input yet to be read, and the output so far.
#[verifier::ext_equal]
pub struct Machine {
    /// The value of each cell.
    pub tape: spec_fn(int) -> u8,
    /// The cell that the pointer is on.
    pub ptr: int,
    /// The bytes that reads will deliver, the next one first.
    pub input: Seq<u8>,
    /// The bytes written so far.
    pub output: Seq<u8>,
}

/// The byte that a cell holds after its value has become `v`: cells wrap at
/// 256.
pub open spec fn wrap(v: int) -> u8 {
    (v % 256) as u8
}

/// Wrapping a sum is the same whether or not its first term was wrapped
/// before.
pub proof fn lemma_wrap_sum(a: int, b: int)
    ensures
        wrap(wrap(a) + b) == wrap(a + b),
{
    vstd::arithmetic::div_mod::lemma_add_mod_noop(a, b, 256);
    vstd::arithmetic::div_mod::lemma_add_mod_noop_right(a % 256, b, 256);
}

impl Machine {
    /// The value of cell `i`.
    pub open spec fn at(self, i: int) -> u8 {
        (self.tape)(i)
    }

    /// The value of the cell under the pointer.
    pub open spec fn cell(self) -> u8 {
        (self.tape)(self.ptr)
    }

    /// The value of the cell `p` cells to the right of the pointer.
    pub open spec fn slot(self, p: int) -> u8 {
        (self.tape)(self.ptr + p)
    }

    /// This state with the pointer `n` cells further to the right.
    pub open spec fn moved(self, n: int) -> Machine {
        Machine { ptr: self.ptr + n, ..self }
    }

    /// This state with the value `v` in cell `i`.
    pub open spec fn with_cell(self, i: int, v: u8) -> Machine {
        Machine {
            tape: |j: int|
                if j == i {
                    v
                } else {
                    (self.tape)(j)
                },
            ..self
        }
    }

    /// This state with `x` added to the cell `p` cells to the right of the
    /// pointer.
    pub open spec fn added(self, p: int, x: int) -> Machine {
        self.with_cell(self.ptr + p, wrap(self.slot(p) + x))
    }

    /// This state after a read into the cell under the pointer. At the end
    /// of the input a read delivers 0.
    pub open spec fn read(self) -> Machine {
        if self.input.len() > 0 {
            Machine { input: self.input.skip(1), ..self.with_cell(self.ptr, self.input[0]) }
        } else {
            self.with_cell(self.ptr, 0)
        }
    }

    /// This state after the cell under the pointer has been written.
    pub open spec fn written(self) -> Machine {
        Machine { output: self.output.push(self.cell()), ..self }
    }
}

/// The state after one command that is not a bracket.
pub open spec fn step(s: Machine, c: BfCmd) -> Machine {
    match c {
        BfCmd::Inc => s.added(0, 1),
        BfCmd::Dec => s.added(0, -1),
        BfCmd::Right => s.moved(1),
        BfCmd::Left => s.moved(-1),
        BfCmd::Get => s.read(),
        BfCmd::Put => s.written(),
        BfCmd::Open => s,
        BfCmd::Close => s,
    }
}

/// Whether `code`, read with `depth` loops open before it, closes all of
/// them and every loop of its own, and closes none that is not open.
pub open spec fn closes(code: Seq<BfCmd>, depth: nat) -> bool
    decreases code.len(),
{
    if code.len() == 0 {
        depth == 0
    } else if code[0] == BfCmd::Open {
        closes(code.skip(1), depth + 1)
    } else if code[0] == BfCmd::Close {
        depth > 0 && closes(code.skip(1), (depth - 1) as nat)
    } else {
        closes(code.skip(1), depth)
    }
}

/// Whether the brackets of `code` match.
pub open spec fn balanced(code: Seq<BfCmd>) -> bool {
    closes(code, 0)
}

/// The index in `code` of the first `]` that has no `[` in `code` and is not
/// one of the first `depth` such: the one that closes a loop opened just
/// before `code` with `depth` more loops inside it already open. Without
/// such a bracket, the length of `code`.
pub open spec fn close_index(code: Seq<BfCmd>, depth: nat) -> nat
    decreases code.len(),
{
    if code.len() == 0 {
        0
    } else if code[0] == BfCmd::Open {
        1 + close_index(code.skip(1), depth + 1)
    } else if code[0] == BfCmd::Close {
        if depth == 0 {
            0
        } else {
            1 + close_index(code.skip(1), (depth - 1) as nat)
        }
    } else {
        1 + close_index(code.skip(1), depth)
    }
}

/// The state in which `code` ends when started in `s`, if its brackets
/// match and it ends within `fuel`: each turn of a loop, and each loop
/// inside another, takes one unit.
pub open spec fn run(code: Seq<BfCmd>, s: Machine, fuel: nat) -> Option<Machine>
    decreases fuel, code.len(),
{
    if code.len() == 0 {
        Some(s)
    } else if code[0] == BfCmd::Open {
        let n = close_index(code.skip(1), 0) as int;
        if n + 1 >= code.len() {
            None
        } else if s.cell() == 0 {
            run(code.skip(n + 2), s, fuel)
        } else if fuel == 0 {
            None
        } else {
            match run(code.subrange(1, n + 1), s, (fuel - 1) as nat) {
                Some(after) => run(code, after, (fuel - 1) as nat),
                None => None,
            }
        }
    } else if code[0] == BfCmd::Close {
        None
    } else {
        run(code.skip(1), step(s, code[0]), fuel)
    }
}

/// `code` has matching brackets and, started in `s`, ends in `t`.
pub closed spec fn runs(code: Seq<BfCmd>, s: Machine, t: Machine) -> bool {
    balanced(code) && exists|fuel: nat| run(code, s, fuel) == Some(t)
}

/// The index of the closing bracket is within the code.
pub proof fn lemma_close_index_bound(code: Seq<BfCmd>, depth: nat)
    ensures
        close_index(code, depth) <= code.len(),
        close_index(code, depth) < code.len() ==> code[close_index(code, depth) as int]
            == BfCmd::Close,
    decreases code.len(),
{
    if code.len() > 0 {
        if code[0] == BfCmd::Open {
            lemma_close_index_bound(code.skip(1), depth + 1);
        } else if code[0] == BfCmd::Close {
            if depth > 0 {
                lemma_close_index_bound(code.skip(1), (depth - 1) as nat);
            }
        } else {
            lemma_close_index_bound(code.skip(1), depth);
        }
    }
}

/// Code that closes `inner` open loops, put before other code, hands that
/// code the loops that were open beyond those.
pub proof fn lemma_closes_concat(x: Seq<BfCmd>, inner: nat, y: Seq<BfCmd>, depth: nat)
    requires
        closes(x, inner),
    ensures
        closes(x + y, inner + depth) == closes(y, depth),
        close_index(x + y, inner + depth) == x.len() + close_index(y, depth),
    decreases x.len(),
{
    if x.len() == 0 {
        assert(x + y =~= y);
    } else {
        assert((x + y).skip(1) =~= x.skip(1) + y);
        if x[0] == BfCmd::Open {
            lemma_closes_concat(x.skip(1), inner + 1, y, depth);
        } else if x[0] == BfCmd::Close {
            lemma_closes_concat(x.skip(1), (inner - 1) as nat, y, depth);
        } else {
            lemma_closes_concat(x.skip(1), inner, y, depth);
        }
    }
}

/// The concatenation of two codes with matching brackets has matching
/// brackets.
pub proof fn lemma_balanced_concat(x: Seq<BfCmd>, y: Seq<BfCmd>)
    requires
        balanced(x),
        balanced(y),
    ensures
        balanced(x + y),
{
    lemma_closes_concat(x, 0, y, 0);
}

/// A loop around code with matching brackets has matching brackets.
pub proof fn lemma_balanced_loop(body: Seq<BfCmd>)
    requires
        balanced(body),
    ensures
        balanced(seq![BfCmd::Open] + body + seq![BfCmd::Close]),
        close_index(body + seq![BfCmd::Close], 0) == body.len(),
{
    let close = seq![BfCmd::Close];
    let whole = seq![BfCmd::Open] + body + close;
    assert(whole.skip(1) =~= body + close);
    lemma_closes_concat(body, 0, close, 1);
    assert(close.skip(1) =~= Seq::<BfCmd>::empty());
    reveal_with_fuel(closes, 2);
    reveal_with_fuel(close_index, 2);
    lemma_closes_concat(body, 0, close, 0);
}

/// Code without brackets has matching brackets.
pub proof fn lemma_balanced_plain(code: Seq<BfCmd>)
    requires
        forall|i: int| 0 <= i < code.len() ==> code[i] != BfCmd::Open && code[i] != BfCmd::Close,
    ensures
        balanced(code),
    decreases code.len(),
{
    if code.len() > 0 {
        lemma_balanced_plain(code.skip(1));
    }
}

/// Where the closing bracket of a loop stands, the code splits into the body
/// of the loop, which closes the loops that were open inside it, and the
/// code behind the loop.
pub proof fn lemma_split_at_close(code: Seq<BfCmd>, depth: nat)
    requires
        closes(code, depth + 1),
    ensures
        close_index(code, depth) < code.len(),
        code[close_index(code, depth) as int] == BfCmd::Close,
        closes(code.take(close_index(code, depth) as int), depth),
        closes(code.skip(close_index(code, depth) as int + 1), 0),
    decreases code.len(),
{
    let n = close_index(code, depth) as int;
    if code.len() > 0 {
        let rest = code.skip(1);
        if code[0] == BfCmd::Close && depth == 0 {
            assert(code.take(0) =~= Seq::<BfCmd>::empty());
        } else {
            let inner: nat = if code[0] == BfCmd::Open {
                depth + 1
            } else if code[0] == BfCmd::Close {
                (depth - 1) as nat
            } else {
                depth
            };
            lemma_split_at_close(rest, inner);
            let m = close_index(rest, inner) as int;
            assert(code.take(n).skip(1) =~= rest.take(m));
            assert(code.skip(n + 1) =~= rest.skip(m + 1));
        }
    }
}

/// More fuel does not change where a run ends.
pub proof fn lemma_run_more_fuel(code: Seq<BfCmd>, s: Machine, fuel: nat, more: nat)
    requires
        run(code, s, fuel) is Some,
        fuel <= more,
    ensures
        run(code, s, more) == run(code, s, fuel),
    decreases fuel, code.len(),
{
    if code.len() == 0 {
    } else if code[0] == BfCmd::Open {
        let n = close_index(code.skip(1), 0) as int;
        if s.cell() == 0 {
            lemma_run_more_fuel(code.skip(n + 2), s, fuel, more);
        } else {
            let body = code.subrange(1, n + 1);
            lemma_run_more_fuel(body, s, (fuel - 1) as nat, (more - 1) as nat);
            let after = run(body, s, (fuel - 1) as nat).unwrap();
            lemma_run_more_fuel(code, after, (fuel - 1) as nat, (more - 1) as nat);
        }
    } else if code[0] == BfCmd::Close {
    } else {
        lemma_run_more_fuel(code.skip(1), step(s, code[0]), fuel, more);
    }
}

/// A run of `x` and then a run of `y` from where it ended make a run of
/// their concatenation, with the fuel of both.
#[verifier::rlimit(50)]
pub proof fn lemma_run_concat(
    x: Seq<BfCmd>,
    y: Seq<BfCmd>,
    s: Machine,
    fuel_x: nat,
    fuel_y: nat,
)
    requires
        balanced(x),
        run(x, s, fuel_x) is Some,
        run(y, run(x, s, fuel_x).unwrap(), fuel_y) is Some,
    ensures
        run(x + y, s, fuel_x + fuel_y) == run(y, run(x, s, fuel_x).unwrap(), fuel_y),
    decreases fuel_x, x.len(),
{
    let t = run(x, s, fuel_x).unwrap();
    if x.len() == 0 {
        assert(x + y =~= y);
        lemma_run_more_fuel(y, t, fuel_y, fuel_x + fuel_y);
    } else if x[0] == BfCmd::Open {
        let tail = x.skip(1);
        let n = close_index(tail, 0) as int;
        lemma_split_at_close(tail, 0);
        let body = x.subrange(1, n + 1);
        let rest = x.skip(n + 2);
        assert(tail.take(n) =~= body);
        assert(tail.skip(n + 1) =~= rest);
        assert((x + y).skip(1) =~= body + (tail.skip(n) + y));
        lemma_closes_concat(body, 0, tail.skip(n) + y, 0);
        assert(close_index(tail.skip(n) + y, 0) == 0);
        assert((x + y).subrange(1, n + 1) =~= body);
        assert((x + y).skip(n + 2) =~= rest + y);
        if s.cell() == 0 {
            lemma_run_concat(rest, y, s, fuel_x, fuel_y);
        } else {
            let after = run(body, s, (fuel_x - 1) as nat).unwrap();
            lemma_run_more_fuel(body, s, (fuel_x - 1) as nat, (fuel_x + fuel_y - 1) as nat);
            lemma_run_concat(x, y, after, (fuel_x - 1) as nat, fuel_y);
        }
    } else if x[0] == BfCmd::Close {
    } else {
        assert((x + y).skip(1) =~= x.skip(1) + y);
        lemma_run_concat(x.skip(1), y, step(s, x[0]), fuel_x, fuel_y);
    }
}

/// A run of a concatenation splits: if `x + y` ends, then `x` ends, and `y`
/// leads from where it ends to where `x + y` ends.
#[verifier::rlimit(50)]
pub proof fn lemma_run_split(x: Seq<BfCmd>, y: Seq<BfCmd>, s: Machine, fuel: nat)
    requires
        balanced(x),
        run(x + y, s, fuel) is Some,
    ensures
        run(x, s, fuel) is Some,
        run(y, run(x, s, fuel).unwrap(), fuel) == run(x + y, s, fuel),
    decreases fuel, x.len(),
{
    if x.len() == 0 {
        assert(x + y =~= y);
    } else if x[0] == BfCmd::Open {
        let tail = x.skip(1);
        let n = close_index(tail, 0) as int;
        lemma_split_at_close(tail, 0);
        let body = x.subrange(1, n + 1);
        let rest = x.skip(n + 2);
        assert(tail.take(n) =~= body);
        assert(tail.skip(n + 1) =~= rest);
        assert((x + y).skip(1) =~= body + (tail.skip(n) + y));
        lemma_closes_concat(body, 0, tail.skip(n) + y, 0);
        assert(close_index(tail.skip(n) + y, 0) == 0);
        assert((x + y).subrange(1, n + 1) =~= body);
        assert((x + y).skip(n + 2) =~= rest + y);
        if s.cell() == 0 {
            lemma_run_split(rest, y, s, fuel);
        } else {
            let after = run(body, s, (fuel - 1) as nat).unwrap();
            lemma_run_split(x, y, after, (fuel - 1) as nat);
            let t = run(x, after, (fuel - 1) as nat).unwrap();
            lemma_run_more_fuel(y, t, (fuel - 1) as nat, fuel);
        }
    } else if x[0] == BfCmd::Close {
    } else {
        assert((x + y).skip(1) =~= x.skip(1) + y);
        lemma_run_split(x.skip(1), y, step(s, x[0]), fuel);
    }
}

/// A run of a concatenation passes through the state in which its first
/// part ends: if `x` leads from `s` to `t` and `x + y` from `s` to `u`, then
/// `y` leads from `t` to `u`.
pub proof fn lemma_runs_split(x: Seq<BfCmd>, y: Seq<BfCmd>, s: Machine, t: Machine, u: Machine)
    requires
        runs(x, s, t),
        balanced(y),
        runs(x + y, s, u),
    ensures
        runs(y, t, u),
{
    let f = choose|fuel: nat| run(x + y, s, fuel) == Some(u);
    let g = choose|fuel: nat| run(x, s, fuel) == Some(t);
    lemma_run_split(x, y, s, f);
    if f <= g {
        lemma_run_more_fuel(x, s, f, g);
    } else {
        lemma_run_more_fuel(x, s, g, f);
    }
}

/// If a concatenation and its second part have matching brackets, so has
/// its first part.
pub proof fn lemma_balanced_back(x: Seq<BfCmd>, y: Seq<BfCmd>)
    requires
        balanced(x + y),
        balanced(y),
    ensures
        balanced(x),
    decreases x.len(),
{
    lemma_balanced_prefix(x, y, 0);
}

/// Code that closes `depth` loops when code with matching brackets follows
/// it closes them without it.
proof fn lemma_balanced_prefix(x: Seq<BfCmd>, y: Seq<BfCmd>, depth: nat)
    requires
        closes(x + y, depth),
        balanced(y),
    ensures
        closes(x, depth),
    decreases x.len(),
{
    if x.len() == 0 {
        assert(x + y =~= y);
        lemma_closes_same(y, depth, 0);
    } else {
        assert((x + y).skip(1) =~= x.skip(1) + y);
        if x[0] == BfCmd::Open {
            lemma_balanced_prefix(x.skip(1), y, depth + 1);
        } else if x[0] == BfCmd::Close {
            lemma_balanced_prefix(x.skip(1), y, (depth - 1) as nat);
        } else {
            lemma_balanced_prefix(x.skip(1), y, depth);
        }
    }
}

/// Code closes the loops that are open before it for one number of such
/// loops only.
proof fn lemma_closes_same(y: Seq<BfCmd>, a: nat, b: nat)
    requires
        closes(y, a),
        closes(y, b),
    ensures
        a == b,
    decreases y.len(),
{
    if y.len() > 0 {
        if y[0] == BfCmd::Open {
            lemma_closes_same(y.skip(1), a + 1, b + 1);
        } else if y[0] == BfCmd::Close {
            lemma_closes_same(y.skip(1), (a - 1) as nat, (b - 1) as nat);
        } else {
            lemma_closes_same(y.skip(1), a, b);
        }
    }
}

/// A run of a concatenation passes through a state in which its first part
/// ends: if `x + y` leads from `s` to `u`, then `x` leads from `s` to some
/// state, and `y` from there to `u`.
pub proof fn lemma_runs_middle(x: Seq<BfCmd>, y: Seq<BfCmd>, s: Machine, u: Machine) -> (t:
    Machine)
    requires
        balanced(x),
        balanced(y),
        runs(x + y, s, u),
    ensures
        runs(x, s, t),
        runs(y, t, u),
{
    let f = choose|fuel: nat| run(x + y, s, fuel) == Some(u);
    lemma_run_split(x, y, s, f);
    run(x, s, f).unwrap()
}

/// What `runs` means: the brackets match, and some amount of fuel is enough
/// to end in `t`.
pub proof fn lemma_runs_unfold(code: Seq<BfCmd>, s: Machine, t: Machine)
    ensures
        runs(code, s, t) <==> balanced(code) && exists|fuel: nat| run(code, s, fuel) == Some(t),
{
}

/// Code that leads anywhere has matching brackets.
pub proof fn lemma_runs_balanced(code: Seq<BfCmd>, s: Machine, t: Machine)
    requires
        runs(code, s, t),
    ensures
        balanced(code),
{
}

/// Where a run ends does not depend on the fuel: a program has one result.
pub proof fn lemma_runs_one_result(code: Seq<BfCmd>, s: Machine, t: Machine, u: Machine)
    requires
        runs(code, s, t),
        runs(code, s, u),
    ensures
        t == u,
{
    let f = choose|fuel: nat| run(code, s, fuel) == Some(t);
    let g = choose|fuel: nat| run(code, s, fuel) == Some(u);
    if f <= g {
        lemma_run_more_fuel(code, s, f, g);
    } else {
        lemma_run_more_fuel(code, s, g, f);
    }
}

/// Code that is run in sequence composes: if `x` leads from `s` to `t` and
/// `y` from `t` to `u`, then `x + y` leads from `s` to `u`.
pub proof fn lemma_runs_concat(x: Seq<BfCmd>, y: Seq<BfCmd>, s: Machine, t: Machine, u: Machine)
    requires
        runs(x, s, t),
        runs(y, t, u),
    ensures
        runs(x + y, s, u),
{
    let f = choose|fuel: nat| run(x, s, fuel) == Some(t);
    let g = choose|fuel: nat| run(y, t, fuel) == Some(u);
    lemma_run_concat(x, y, s, f, g);
    lemma_balanced_concat(x, y);
}

/// Empty code leaves the state as it is.
pub proof fn lemma_runs_empty(s: Machine)
    ensures
        runs(Seq::empty(), s, s),
{
    assert(run(Seq::empty(), s, 0) == Some(s));
}

/// One command that is not a bracket leads to the state after that command.
pub proof fn lemma_runs_one(c: BfCmd, s: Machine)
    requires
        c != BfCmd::Open,
        c != BfCmd::Close,
    ensures
        runs(seq![c], s, step(s, c)),
{
    assert(seq![c].skip(1) =~= Seq::<BfCmd>::empty());
    reveal_with_fuel(run, 2);
    reveal_with_fuel(closes, 2);
    assert(run(seq![c], s, 0) == Some(step(s, c)));
}

/// Whether `code` holds no brackets.
pub open spec fn plain(code: Seq<BfCmd>) -> bool {
    forall|i: int| 0 <= i < code.len() ==> code[i] != BfCmd::Open && code[i] != BfCmd::Close
}

/// The state after the commands of `code`, none of which is a bracket, have
/// been done one after the other.
pub open spec fn after_plain(code: Seq<BfCmd>, s: Machine) -> Machine
    decreases code.len(),
{
    if code.len() == 0 {
        s
    } else {
        after_plain(code.skip(1), step(s, code[0]))
    }
}

/// Code without brackets does its commands one after the other.
pub proof fn lemma_runs_plain(code: Seq<BfCmd>, s: Machine)
    requires
        plain(code),
    ensures
        runs(code, s, after_plain(code, s)),
    decreases code.len(),
{
    lemma_balanced_plain(code);
    if code.len() > 0 {
        lemma_runs_plain(code.skip(1), step(s, code[0]));
        let f = choose|fuel: nat|
            run(code.skip(1), step(s, code[0]), fuel) == Some(after_plain(code, s));
        assert(run(code, s, f) == Some(after_plain(code, s)));
    } else {
        assert(run(code, s, 0) == Some(s));
    }
}

/// A loop whose cell is zero is skipped.
pub proof fn lemma_loop_skip(body: Seq<BfCmd>, s: Machine)
    requires
        balanced(body),
        s.cell() == 0,
    ensures
        runs(seq![BfCmd::Open] + body + seq![BfCmd::Close], s, s),
{
    let whole = seq![BfCmd::Open] + body + seq![BfCmd::Close];
    lemma_balanced_loop(body);
    assert(whole.skip(1) =~= body + seq![BfCmd::Close]);
    assert(whole.skip(body.len() as int + 2) =~= Seq::<BfCmd>::empty());
    reveal_with_fuel(run, 2);
    assert(run(whole, s, 0) == Some(s));
}

/// A loop whose cell is not zero runs its body and then starts again.
pub proof fn lemma_loop_turn(body: Seq<BfCmd>, s: Machine, t: Machine, u: Machine)
    requires
        s.cell() != 0,
        runs(body, s, t),
        runs(seq![BfCmd::Open] + body + seq![BfCmd::Close], t, u),
    ensures
        runs(seq![BfCmd::Open] + body + seq![BfCmd::Close], s, u),
{
    let whole = seq![BfCmd::Open] + body + seq![BfCmd::Close];
    lemma_balanced_loop(body);
    assert(whole.skip(1) =~= body + seq![BfCmd::Close]);
    assert(whole.subrange(1, body.len() as int + 1) =~= body);
    let f = choose|fuel: nat| run(body, s, fuel) == Some(t);
    let g = choose|fuel: nat| run(whole, t, fuel) == Some(u);
    lemma_run_more_fuel(body, s, f, f + g);
    lemma_run_more_fuel(whole, t, g, f + g);
    assert(run(whole, s, f + g + 1) == Some(u));
}

/// A command and the one that undoes it, run one after the other, leave the
/// state as it was.
pub proof fn lemma_step_cancels(s: Machine, c: BfCmd, d: BfCmd)
    requires
        cancels(c, d),
    ensures
        step(step(s, c), d) == s,
{
    let t = step(step(s, c), d);
    assert(t.tape =~= s.tape) by {
        let v = s.cell();
        assert(wrap(wrap(v + 1) - 1) == v);
        assert(wrap(wrap(v - 1) + 1) == v);
    }
    assert(t =~= s);
}

/// A cancelling pair in the code does not change which brackets match: the
/// closing bracket is found where it was, two places further if it stands
/// behind the pair.
pub proof fn lemma_close_index_pair(
    x: Seq<BfCmd>,
    c: BfCmd,
    d: BfCmd,
    y: Seq<BfCmd>,
    depth: nat,
)
    requires
        cancels(c, d),
    ensures
        close_index(x + seq![c, d] + y, depth) == if close_index(x + y, depth) < x.len() {
            close_index(x + y, depth)
        } else {
            close_index(x + y, depth) + 2
        },
        closes(x + seq![c, d] + y, depth) == closes(x + y, depth),
    decreases x.len(),
{
    let with = x + seq![c, d] + y;
    let without = x + y;
    if x.len() == 0 {
        assert(with.skip(1) =~= seq![d] + y);
        assert(with.skip(1).skip(1) =~= y);
        assert(without =~= y);
        reveal_with_fuel(close_index, 3);
        reveal_with_fuel(closes, 3);
    } else {
        assert(with.skip(1) =~= x.skip(1) + seq![c, d] + y);
        assert(without.skip(1) =~= x.skip(1) + y);
        if x[0] == BfCmd::Open {
            lemma_close_index_pair(x.skip(1), c, d, y, depth + 1);
        } else if x[0] == BfCmd::Close {
            if depth > 0 {
                lemma_close_index_pair(x.skip(1), c, d, y, (depth - 1) as nat);
            }
        } else {
            lemma_close_index_pair(x.skip(1), c, d, y, depth);
        }
    }
}

/// A cancelling pair at the front of the code does not change what the code
/// does.
proof fn lemma_run_pair_front(c: BfCmd, d: BfCmd, y: Seq<BfCmd>, s: Machine, fuel: nat)
    requires
        cancels(c, d),
    ensures
        run(seq![c, d] + y, s, fuel) == run(y, s, fuel),
{
    let with = seq![c, d] + y;
    assert(with.skip(1) =~= seq![d] + y);
    assert(with.skip(1).skip(1) =~= y);
    lemma_step_cancels(s, c, d);
    assert(run(with, s, fuel) == run(with.skip(1), step(s, c), fuel));
    assert(run(with.skip(1), step(s, c), fuel) == run(y, step(step(s, c), d), fuel));
}

/// A cancelling pair anywhere in the code, inside loops too, does not change
/// what the code does.
#[verifier::rlimit(50)]
pub proof fn lemma_run_pair(
    x: Seq<BfCmd>,
    c: BfCmd,
    d: BfCmd,
    y: Seq<BfCmd>,
    s: Machine,
    fuel: nat,
)
    requires
        cancels(c, d),
    ensures
        run(x + seq![c, d] + y, s, fuel) == run(x + y, s, fuel),
    decreases fuel, x.len(),
{
    let with = x + seq![c, d] + y;
    let without = x + y;
    if x.len() == 0 {
        assert(with =~= seq![c, d] + y);
        assert(without =~= y);
        lemma_run_pair_front(c, d, y, s, fuel);
    } else if x[0] == BfCmd::Open {
        let tail = x.skip(1);
        assert(with.skip(1) =~= tail + seq![c, d] + y);
        assert(without.skip(1) =~= tail + y);
        lemma_close_index_pair(tail, c, d, y, 0);
        let n = close_index(tail + y, 0) as int;
        lemma_close_index_bound(tail + y, 0);
        if n < tail.len() {
            assert(with.subrange(1, n + 1) =~= without.subrange(1, n + 1));
            assert(with.skip(n + 2) =~= x.skip(n + 2) + seq![c, d] + y);
            assert(without.skip(n + 2) =~= x.skip(n + 2) + y);
            if s.cell() == 0 {
                lemma_run_pair(x.skip(n + 2), c, d, y, s, fuel);
            } else if fuel > 0 {
                let body = without.subrange(1, n + 1);
                match run(body, s, (fuel - 1) as nat) {
                    Some(after) => {
                        lemma_run_pair(x, c, d, y, after, (fuel - 1) as nat);
                    },
                    None => {},
                }
            }
        } else if n + 1 < without.len() {
            let k = n - tail.len();
            assert(with.subrange(1, n + 3) =~= tail + seq![c, d] + y.take(k));
            assert(without.subrange(1, n + 1) =~= tail + y.take(k));
            assert(with.skip(n + 4) =~= without.skip(n + 2));
            if s.cell() != 0 && fuel > 0 {
                lemma_run_pair(tail, c, d, y.take(k), s, (fuel - 1) as nat);
                match run(tail + y.take(k), s, (fuel - 1) as nat) {
                    Some(after) => {
                        lemma_run_pair(x, c, d, y, after, (fuel - 1) as nat);
                    },
                    None => {},
                }
            }
        }
    } else if x[0] == BfCmd::Close {
    } else {
        assert(with.skip(1) =~= x.skip(1) + seq![c, d] + y);
        assert(without.skip(1) =~= x.skip(1) + y);
        lemma_run_pair(x.skip(1), c, d, y, step(s, x[0]), fuel);
    }
}

/// The cancellation rule is sound: the buffer that it leaves does what the
/// appended code would have done behind the old buffer, whatever follows.
pub proof fn lemma_run_emit_all(
    buf: Seq<BfCmd>,
    code: Seq<BfCmd>,
    rest: Seq<BfCmd>,
    s: Machine,
    fuel: nat,
)
    ensures
        run(emit_all(buf, code) + rest, s, fuel) == run(buf + code + rest, s, fuel),
        closes(emit_all(buf, code) + rest, 0) == closes(buf + code + rest, 0),
    decreases code.len(),
{
    if code.len() == 0 {
        assert(buf + code =~= buf);
    } else {
        let c = code.last();
        let front = code.drop_last();
        let before = emit_all(buf, front);
        lemma_run_emit_all(buf, front, seq![c] + rest, s, fuel);
        assert(buf + front + (seq![c] + rest) =~= buf + code + rest);
        if before.len() > 0 && cancels(before.last(), c) {
            let shorter = before.drop_last();
            lemma_run_pair(shorter, before.last(), c, rest, s, fuel);
            lemma_close_index_pair(shorter, before.last(), c, rest, 0);
            assert(shorter + seq![before.last(), c] + rest =~= before + (seq![c] + rest));
        } else {
            assert(before.push(c) + rest =~= before + (seq![c] + rest));
        }
    }
}

/// A buffer filled under the cancellation rule runs as the code that was
/// appended to it: from the same state it ends in the same state.
pub proof fn lemma_peephole_sound(code: Seq<BfCmd>, s: Machine, t: Machine)
    ensures
        runs(emit_all(Seq::empty(), code), s, t) <==> runs(code, s, t),
{
    let reduced = emit_all(Seq::empty(), code);
    assert(reduced + Seq::<BfCmd>::empty() =~= reduced);
    assert(Seq::<BfCmd>::empty() + code + Seq::<BfCmd>::empty() =~= code);
    assert forall|fuel: nat| run(reduced, s, fuel) == run(code, s, fuel) by {
        lemma_run_emit_all(Seq::empty(), code, Seq::empty(), s, fuel);
    }
    lemma_run_emit_all(Seq::empty(), code, Seq::empty(), s, 0);
    if runs(code, s, t) {
        let f = choose|fuel: nat| run(code, s, fuel) == Some(t);
        assert(run(reduced, s, f) == Some(t));
    }
    if runs(reduced, s, t) {
        let f = choose|fuel: nat| run(reduced, s, fuel) == Some(t);
        assert(run(code, s, f) == Some(t));
    }
}

} // verus!
