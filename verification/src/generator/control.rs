//! Loops and two-armed conditionals built from the machine's only control
//! primitive, the loop that runs while the current cell is not zero.
use crate::command::{
    displacement, emit_all, lemma_displacement_concat, lemma_displacement_emit_all,
    lemma_emit_all_block, lemma_emit_all_concat_all, BfCmd,
};
use crate::effect::decrement::{borrows, lemma_decs_borrows, lemma_decs_lends, lends};
use crate::effect::increment::{carries, lemma_incs_ripples, lemma_successor, ripples};
use crate::effect::{branches, lemma_algebra, lemma_control, loops, sets};
use crate::generator::{
    add_code, lemma_displacement_moves, lemma_displacement_visit, move_code, Generator,
};
use vstd::prelude::*;

verus! {

/// The commands that open a loop on slot `p`, seen from the reference
/// position.
pub open spec fn loop_open_code(p: int) -> Seq<BfCmd> {
    move_code(p) + seq![BfCmd::Open] + move_code(-p)
}

/// The commands that close a loop on slot `p`, seen from the reference
/// position.
pub open spec fn loop_close_code(p: int) -> Seq<BfCmd> {
    move_code(p) + seq![BfCmd::Close] + move_code(-p)
}

/// A loop that runs `body` while slot `p` is not zero. The body starts and
/// must end at the reference position.
pub open spec fn while_code(p: int, body: Seq<BfCmd>) -> Seq<BfCmd> {
    loop_open_code(p) + body + loop_close_code(p)
}

/// The commands that set slot `p` to `x`: a loop that counts the slot down
/// to zero, then `x` added.
pub open spec fn set_code(p: int, x: int) -> Seq<BfCmd> {
    while_code(p, add_code(p, -1)) + add_code(p, x)
}

/// The body of the first loop of a conditional: the consequent, then both
/// cells counted down.
pub open spec fn if_taken_code(flg: int, tmp: int, cons: Seq<BfCmd>) -> Seq<BfCmd> {
    cons + add_code(tmp, -1) + add_code(flg, -1)
}

/// The body of the second loop of a conditional: both cells counted down,
/// then the alternate.
pub open spec fn if_skipped_code(flg: int, tmp: int, alt: Seq<BfCmd>) -> Seq<BfCmd> {
    add_code(tmp, -1) + add_code(flg, -1) + alt
}

/// The two loops of a conditional on the flag in slot `flg`, with slot
/// `tmp` as scratch.
///
/// While the flag is not zero, the consequent runs and both cells count
/// down. Then both are raised by one, and a loop on the scratch cell counts
/// both down and runs the alternate.
pub open spec fn if_arms_code(flg: int, tmp: int, cons: Seq<BfCmd>, alt: Seq<BfCmd>) -> Seq<
    BfCmd,
> {
    while_code(flg, if_taken_code(flg, tmp, cons)) + add_code(flg, 1) + add_code(tmp, 1)
        + while_code(tmp, if_skipped_code(flg, tmp, alt))
}

/// A two-armed conditional on the flag in slot `flg`, with slot `tmp` as
/// scratch: the two loops of [`if_arms_code`], and the flag cleared, which
/// the loops leave at 1 when the consequent has run.
///
/// With a flag of 0 or 1 and a scratch cell of 0 on entry, exactly one arm
/// runs, and both cells end at 0.
pub open spec fn if_code(flg: int, tmp: int, cons: Seq<BfCmd>, alt: Seq<BfCmd>) -> Seq<BfCmd> {
    if_arms_code(flg, tmp, cons, alt) + set_code(flg, 0)
}

/// The carry chain that adds one to a number whose bits lie to the right of
/// the current cell, least significant first: `[>]+<[-<]>`.
pub open spec fn carry_code() -> Seq<BfCmd> {
    seq![
        BfCmd::Open,
        BfCmd::Right,
        BfCmd::Close,
        BfCmd::Inc,
        BfCmd::Left,
        BfCmd::Open,
        BfCmd::Dec,
        BfCmd::Left,
        BfCmd::Close,
        BfCmd::Right,
    ]
}

/// The borrow chain that subtracts one from a number whose bits lie to the
/// right of the current cell, least significant first: `-[++>-]<[<]>`.
pub open spec fn borrow_code() -> Seq<BfCmd> {
    seq![
        BfCmd::Dec,
        BfCmd::Open,
        BfCmd::Inc,
        BfCmd::Inc,
        BfCmd::Right,
        BfCmd::Dec,
        BfCmd::Close,
        BfCmd::Left,
        BfCmd::Open,
        BfCmd::Left,
        BfCmd::Close,
        BfCmd::Right,
    ]
}

/// The commands that add one to the number that starts at slot `p`.
pub open spec fn incs_code(p: int) -> Seq<BfCmd> {
    move_code(p) + carry_code() + move_code(-p)
}

/// The commands that subtract one from the number that starts at slot `p`.
pub open spec fn decs_code(p: int) -> Seq<BfCmd> {
    move_code(p) + borrow_code() + move_code(-p)
}

/// A loop around the reduced form of a body gives the same buffer as a loop
/// around the body itself.
pub proof fn lemma_while_block(buf: Seq<BfCmd>, p: int, body: Seq<BfCmd>)
    requires
        crate::command::reduced(buf),
    ensures
        emit_all(buf, while_code(p, emit_all(Seq::empty(), body))) == emit_all(
            buf,
            while_code(p, body),
        ),
{
    lemma_emit_all_block(buf, loop_open_code(p), body, loop_close_code(p));
}

/// A conditional around the reduced forms of its arms gives the same buffer
/// as a conditional around the arms themselves.
pub proof fn lemma_if_block(
    buf: Seq<BfCmd>,
    flg: int,
    tmp: int,
    cons: Seq<BfCmd>,
    alt: Seq<BfCmd>,
)
    requires
        crate::command::reduced(buf),
    ensures
        emit_all(
            buf,
            if_code(flg, tmp, emit_all(Seq::empty(), cons), emit_all(Seq::empty(), alt)),
        ) == emit_all(buf, if_code(flg, tmp, cons, alt)),
{
    lemma_if_arms_block(buf, flg, tmp, cons, alt);
    lemma_emit_all_concat_all();
}

/// The two loops of a conditional around the reduced forms of its arms give
/// the same buffer as the loops around the arms themselves.
proof fn lemma_if_arms_block(
    buf: Seq<BfCmd>,
    flg: int,
    tmp: int,
    cons: Seq<BfCmd>,
    alt: Seq<BfCmd>,
)
    requires
        crate::command::reduced(buf),
    ensures
        emit_all(
            buf,
            if_arms_code(flg, tmp, emit_all(Seq::empty(), cons), emit_all(Seq::empty(), alt)),
        ) == emit_all(buf, if_arms_code(flg, tmp, cons, alt)),
{
    let reduced_cons = emit_all(Seq::empty(), cons);
    let reduced_alt = emit_all(Seq::empty(), alt);
    let tail = add_code(tmp, -1) + add_code(flg, -1);
    let between = add_code(flg, 1) + add_code(tmp, 1);
    lemma_emit_all_concat_all();
    // first loop
    lemma_emit_all_block(buf, loop_open_code(flg), cons, tail + loop_close_code(flg));
    assert(loop_open_code(flg) + cons + (tail + loop_close_code(flg)) =~= while_code(
        flg,
        if_taken_code(flg, tmp, cons),
    ));
    assert(loop_open_code(flg) + reduced_cons + (tail + loop_close_code(flg)) =~= while_code(
        flg,
        if_taken_code(flg, tmp, reduced_cons),
    ));
    // second loop
    let mid = emit_all(emit_all(buf, while_code(flg, if_taken_code(flg, tmp, cons))), between);
    crate::command::lemma_emit_all_reduced(buf, while_code(flg, if_taken_code(flg, tmp, cons)));
    crate::command::lemma_emit_all_reduced(
        emit_all(buf, while_code(flg, if_taken_code(flg, tmp, cons))),
        between,
    );
    lemma_emit_all_block(mid, loop_open_code(tmp) + tail, alt, loop_close_code(tmp));
    assert(loop_open_code(tmp) + tail + alt + loop_close_code(tmp) =~= while_code(
        tmp,
        if_skipped_code(flg, tmp, alt),
    ));
    assert(loop_open_code(tmp) + tail + reduced_alt + loop_close_code(tmp) =~= while_code(
        tmp,
        if_skipped_code(flg, tmp, reduced_alt),
    ));
}

impl Generator {
    /// Appends the commands of `block`, each under the cancellation rule.
    pub fn extend(&mut self, block: &Generator)
        requires
            old(self).wf(),
        ensures
            final(self).wf(),
            final(self)@ == emit_all(old(self)@, block@),
            displacement(final(self)@) == displacement(old(self)@) + displacement(block@),
    {
        let n: usize = block.len();
        let mut i: usize = 0;
        while i < n
            invariant
                n == block@.len(),
                i <= n,
                self.wf(),
                self@ == emit_all(old(self)@, block@.take(i as int)),
            decreases n - i,
        {
            proof {
                assert(block@.take(i + 1).drop_last() =~= block@.take(i as int));
            }
            self.append(block.command(i));
            i += 1;
        }
        proof {
            assert(block@.take(n as int) =~= block@);
            lemma_displacement_emit_all(old(self)@, block@);
        }
    }

    /// Appends a loop that runs `body` while slot `p` is not zero: enter the
    /// slot, open the loop, come back, the body, enter the slot, close the
    /// loop, come back.
    ///
    /// The loop leaves the pointer where it found it if the body does.
    pub fn while_nonzero(&mut self, p: isize, body: &Generator)
        requires
            old(self).wf(),
        ensures
            final(self).wf(),
            final(self)@ == emit_all(old(self)@, while_code(p as int, body@)),
            displacement(final(self)@) == displacement(old(self)@) + displacement(body@),
            loops(while_code(p as int, body@), p as int, body@),
    {
        self.enter(p);
        self.bf_open();
        self.exit(p);
        self.extend(body);
        self.enter(p);
        self.bf_close();
        self.exit(p);
        proof {
            lemma_emit_all_concat_all();
            lemma_control(p as int, 0, body@, Seq::empty());
        }
    }

    /// Sets slot `p` to `x`: counts the slot down to zero in a loop, then
    /// adds `x`.
    #[verifier::rlimit(50)]
    pub fn set(&mut self, p: isize, x: i32)
        requires
            old(self).wf(),
        ensures
            final(self).wf(),
            final(self)@ == emit_all(old(self)@, set_code(p as int, x as int)),
            displacement(final(self)@) == displacement(old(self)@),
            sets(set_code(p as int, x as int), p as int, x as int),
    {
        let mut body = Generator::new();
        body.sub(p, 1);
        self.while_nonzero(p, &body);
        self.add(p, x);
        proof {
            lemma_while_block(old(self)@, p as int, add_code(p as int, -1));
            lemma_emit_all_concat_all();
            lemma_displacement_emit_all(Seq::empty(), add_code(p as int, -1));
            lemma_displacement_visit(p as int, -1);
            lemma_algebra(p as int, x as int);
        }
    }

    /// Appends a two-armed conditional on the flag in slot `flg`, with slot
    /// `tmp` as scratch; see [`if_code`]. When the program runs with a flag
    /// of 0 or 1 and a scratch cell of 0, exactly one arm runs, and both
    /// cells end at 0.
    ///
    /// The conditional leaves the pointer where it found it if both arms do.
    #[verifier::rlimit(50)]
    pub fn if_else(&mut self, flg: isize, tmp: isize, cons: &Generator, alt: &Generator)
        requires
            old(self).wf(),
        ensures
            final(self).wf(),
            final(self)@ == emit_all(old(self)@, if_code(flg as int, tmp as int, cons@, alt@)),
            displacement(final(self)@) == displacement(old(self)@) + displacement(cons@)
                + displacement(alt@),
            flg != tmp ==> branches(
                if_code(flg as int, tmp as int, cons@, alt@),
                flg as int,
                tmp as int,
                cons@,
                alt@,
            ),
    {
        let mut taken = Generator::new();
        taken.extend(cons);
        taken.sub(tmp, 1);
        taken.sub(flg, 1);
        self.while_nonzero(flg, &taken);
        self.add(flg, 1);
        self.add(tmp, 1);
        let ghost last = self@;
        let mut skipped = Generator::new();
        skipped.sub(tmp, 1);
        skipped.sub(flg, 1);
        skipped.extend(alt);
        self.while_nonzero(tmp, &skipped);
        self.set(flg, 0);
        proof {
            lemma_emit_all_concat_all();
            lemma_while_block(old(self)@, flg as int, if_taken_code(flg as int, tmp as int, cons@));
            lemma_while_block(last, tmp as int, if_skipped_code(flg as int, tmp as int, alt@));
            lemma_control(flg as int, tmp as int, cons@, alt@);
        }
    }

    /// Adds one to the number whose bits start at slot `p`, least significant
    /// first, by a carry chain: the carry runs over the bits that hold 1,
    /// clears them, and sets the first bit that holds 0. The cell to the left
    /// of slot `p` must hold 0 when the program runs.
    pub fn incs(&mut self, p: isize)
        requires
            old(self).wf(),
        ensures
            final(self).wf(),
            final(self)@ == emit_all(old(self)@, incs_code(p as int)),
            displacement(final(self)@) == displacement(old(self)@),
            ripples(incs_code(p as int), p as int),
            carries(incs_code(p as int), p as int),
    {
        self.enter(p);
        self.raw("[>]+<[-<]>");
        self.exit(p);
        proof {
            reveal_strlit("[>]+<[-<]>");
            reveal_with_fuel(crate::command::parse, 11);
            assert(crate::command::parse("[>]+<[-<]>"@) =~= carry_code());
            lemma_emit_all_concat_all();
            lemma_displacement_emit_all(old(self)@, incs_code(p as int));
            lemma_displacement_concat(move_code(p as int), carry_code());
            lemma_displacement_concat(move_code(p as int) + carry_code(), move_code(-p));
            lemma_displacement_moves(p as int);
            lemma_displacement_moves(-p);
            reveal_with_fuel(displacement, 11);
            assert(displacement(carry_code()) == 0);
            lemma_successor(0, p as int);
            lemma_incs_ripples(p as int);
        }
    }

    /// Subtracts one from the number whose bits start at slot `p`, least
    /// significant first, by a borrow chain: the borrow runs over the bits
    /// that hold 0, sets them, and clears the first bit that holds 1. The
    /// cell to the left of slot `p` must hold 0 when the program runs, and
    /// the number must not be 0.
    pub fn decs(&mut self, p: isize)
        requires
            old(self).wf(),
        ensures
            final(self).wf(),
            final(self)@ == emit_all(old(self)@, decs_code(p as int)),
            displacement(final(self)@) == displacement(old(self)@),
            lends(decs_code(p as int), p as int),
            borrows(decs_code(p as int), p as int),
    {
        self.enter(p);
        self.raw("-[++>-]<[<]>");
        self.exit(p);
        proof {
            reveal_strlit("-[++>-]<[<]>");
            reveal_with_fuel(crate::command::parse, 13);
            assert(crate::command::parse("-[++>-]<[<]>"@) =~= borrow_code());
            lemma_emit_all_concat_all();
            lemma_displacement_emit_all(old(self)@, decs_code(p as int));
            lemma_displacement_concat(move_code(p as int), borrow_code());
            lemma_displacement_concat(move_code(p as int) + borrow_code(), move_code(-p));
            lemma_displacement_moves(p as int);
            lemma_displacement_moves(-p);
            reveal_with_fuel(displacement, 13);
            assert(displacement(borrow_code()) == 0);
            lemma_decs_borrows(p as int);
            lemma_decs_lends(p as int);
        }
    }
}

} // verus!
