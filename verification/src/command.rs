//! The eight primitive commands of the tape machine, and the mathematical
//! model of a command buffer with its single-lookback cancellation rule.
use vstd::prelude::*;

verus! {

/// One primitive command of the tape machine.
#[derive(Clone, Copy, Debug, PartialEq, Eq, Structural)]
pub enum BfCmd {
    /// `+`: add one to the current cell, wrapping at 256.
    Inc,
    /// `-`: subtract one from the current cell, wrapping at 0.
    Dec,
    /// `>`: move the pointer one cell to the right.
    Right,
    /// `<`: move the pointer one cell to the left.
    Left,
    /// `[`: skip to the matching `]` if the current cell is zero.
    Open,
    /// `]`: go back to the matching `[` if the current cell is not zero.
    Close,
    /// `,`: read one byte into the current cell.
    Get,
    /// `.`: write the current cell as one byte.
    Put,
}

impl BfCmd {
    /// The character that stands for this command in program text.
    pub open spec fn symbol(self) -> char {
        match self {
            BfCmd::Inc => '+',
            BfCmd::Dec => '-',
            BfCmd::Right => '>',
            BfCmd::Left => '<',
            BfCmd::Open => '[',
            BfCmd::Close => ']',
            BfCmd::Get => ',',
            BfCmd::Put => '.',
        }
    }

    /// How far this command moves the pointer to the right.
    pub open spec fn shift(self) -> int {
        match self {
            BfCmd::Right => 1,
            BfCmd::Left => -1,
            _ => 0,
        }
    }

    /// The command that undoes this one, if there is one.
    pub open spec fn inverse(self) -> Option<BfCmd> {
        match self {
            BfCmd::Inc => Some(BfCmd::Dec),
            BfCmd::Dec => Some(BfCmd::Inc),
            BfCmd::Right => Some(BfCmd::Left),
            BfCmd::Left => Some(BfCmd::Right),
            _ => None,
        }
    }

    /// The command that undoes this one, if there is one.
    pub fn undo(self) -> (r: Option<BfCmd>)
        ensures
            r == self.inverse(),
    {
        match self {
            BfCmd::Inc => Some(BfCmd::Dec),
            BfCmd::Dec => Some(BfCmd::Inc),
            BfCmd::Right => Some(BfCmd::Left),
            BfCmd::Left => Some(BfCmd::Right),
            _ => None,
        }
    }
}

/// The command that a character of program text stands for. Every other
/// character is a comment.
pub open spec fn parse_symbol(c: char) -> Option<BfCmd> {
    if c == '+' {
        Some(BfCmd::Inc)
    } else if c == '-' {
        Some(BfCmd::Dec)
    } else if c == '>' {
        Some(BfCmd::Right)
    } else if c == '<' {
        Some(BfCmd::Left)
    } else if c == '[' {
        Some(BfCmd::Open)
    } else if c == ']' {
        Some(BfCmd::Close)
    } else if c == ',' {
        Some(BfCmd::Get)
    } else if c == '.' {
        Some(BfCmd::Put)
    } else {
        None
    }
}

/// The commands that a piece of program text holds, in order, comments left
/// out.
pub open spec fn parse(text: Seq<char>) -> Seq<BfCmd>
    decreases text.len(),
{
    if text.len() == 0 {
        Seq::empty()
    } else {
        match parse_symbol(text.last()) {
            Some(c) => parse(text.drop_last()).push(c),
            None => parse(text.drop_last()),
        }
    }
}

/// The commands of a concatenated text are those of its parts, concatenated.
pub proof fn lemma_parse_concat(x: Seq<char>, y: Seq<char>)
    ensures
        parse(x + y) == parse(x) + parse(y),
    decreases y.len(),
{
    if y.len() == 0 {
        assert(x + y =~= x);
        assert(parse(x) + parse(y) =~= parse(x));
    } else {
        assert((x + y).drop_last() =~= x + y.drop_last());
        lemma_parse_concat(x, y.drop_last());
        assert(parse(x) + parse(y.drop_last()).push(parse_symbol(y.last()).unwrap()) =~= (parse(x)
            + parse(y.drop_last())).push(parse_symbol(y.last()).unwrap()));
    }
}

/// The program text of a command sequence.
pub open spec fn text(code: Seq<BfCmd>) -> Seq<char> {
    code.map_values(|c: BfCmd| c.symbol())
}

/// Rendering is faithful: the text of a command sequence holds exactly its
/// commands.
pub proof fn lemma_parse_text(code: Seq<BfCmd>)
    ensures
        parse(text(code)) == code,
    decreases code.len(),
{
    if code.len() == 0 {
        assert(parse(text(code)) =~= code);
    } else {
        lemma_parse_text(code.drop_last());
        assert(text(code).drop_last() =~= text(code.drop_last()));
        assert(parse_symbol(code.last().symbol()) == Some(code.last()));
        assert(code.drop_last().push(code.last()) =~= code);
    }
}

/// Whether `b` directly after `a` leaves the machine as it was: an increment
/// and a decrement, or a step right and a step left, in either order.
pub open spec fn cancels(a: BfCmd, b: BfCmd) -> bool {
    a.inverse() == Some(b)
}

/// The buffer after `c` is appended under the cancellation rule: if `c`
/// undoes the last command, that command is removed; else `c` is added.
pub open spec fn emit(buf: Seq<BfCmd>, c: BfCmd) -> Seq<BfCmd> {
    if buf.len() > 0 && cancels(buf.last(), c) {
        buf.drop_last()
    } else {
        buf.push(c)
    }
}

/// The buffer after the commands of `code` are appended one by one, each
/// under the cancellation rule.
pub open spec fn emit_all(buf: Seq<BfCmd>, code: Seq<BfCmd>) -> Seq<BfCmd>
    decreases code.len(),
{
    if code.len() == 0 {
        buf
    } else {
        emit(emit_all(buf, code.drop_last()), code.last())
    }
}

/// No two neighbours in `buf` cancel.
pub open spec fn reduced(buf: Seq<BfCmd>) -> bool {
    forall|i: int| 0 <= i < buf.len() - 1 ==> !cancels(#[trigger] buf[i], buf[i + 1])
}

/// The net pointer movement of `code`: its steps right minus its steps left.
pub open spec fn displacement(code: Seq<BfCmd>) -> int
    decreases code.len(),
{
    if code.len() == 0 {
        0
    } else {
        displacement(code.drop_last()) + code.last().shift()
    }
}

/// `n` copies of `c`.
pub open spec fn repeat(c: BfCmd, n: int) -> Seq<BfCmd> {
    Seq::new(if n >= 0 { n as nat } else { 0 }, |i: int| c)
}

/// Appending under the cancellation rule keeps a buffer reduced.
pub proof fn lemma_emit_reduced(buf: Seq<BfCmd>, c: BfCmd)
    requires
        reduced(buf),
    ensures
        reduced(emit(buf, c)),
{
    let r = emit(buf, c);
    assert forall|i: int| 0 <= i < r.len() - 1 implies !cancels(#[trigger] r[i], r[i + 1]) by {
        if buf.len() > 0 && cancels(buf.last(), c) {
            assert(r[i] == buf[i]);
            assert(r[i + 1] == buf[i + 1]);
        } else if i < buf.len() - 1 {
            assert(r[i] == buf[i]);
            assert(r[i + 1] == buf[i + 1]);
        }
    }
}

/// Appending a whole sequence under the cancellation rule keeps a buffer
/// reduced.
pub proof fn lemma_emit_all_reduced(buf: Seq<BfCmd>, code: Seq<BfCmd>)
    requires
        reduced(buf),
    ensures
        reduced(emit_all(buf, code)),
    decreases code.len(),
{
    if code.len() > 0 {
        lemma_emit_all_reduced(buf, code.drop_last());
        lemma_emit_reduced(emit_all(buf, code.drop_last()), code.last());
    }
}

/// Appending nothing changes nothing, and appending one command is `emit`.
pub proof fn lemma_emit_all_basics(buf: Seq<BfCmd>, c: BfCmd)
    ensures
        emit_all(buf, Seq::empty()) == buf,
        emit_all(buf, seq![c]) == emit(buf, c),
{
    assert(seq![c].drop_last() =~= Seq::<BfCmd>::empty());
    reveal_with_fuel(emit_all, 2);
}

/// Appending `x` and then `y` is appending their concatenation.
pub proof fn lemma_emit_all_concat(buf: Seq<BfCmd>, x: Seq<BfCmd>, y: Seq<BfCmd>)
    ensures
        emit_all(buf, x + y) == emit_all(emit_all(buf, x), y),
    decreases y.len(),
{
    if y.len() == 0 {
        assert(x + y =~= x);
    } else {
        assert((x + y).drop_last() =~= x + y.drop_last());
        lemma_emit_all_concat(buf, x, y.drop_last());
    }
}

/// Appending `x` and then `y` is appending their concatenation, for every
/// buffer and every pair of sequences.
pub proof fn lemma_emit_all_concat_all()
    ensures
        forall|buf: Seq<BfCmd>, x: Seq<BfCmd>, y: Seq<BfCmd>| #[trigger]
            emit_all(buf, x + y) == emit_all(emit_all(buf, x), y),
{
    assert forall|buf: Seq<BfCmd>, x: Seq<BfCmd>, y: Seq<BfCmd>| #[trigger]
        emit_all(buf, x + y) == emit_all(emit_all(buf, x), y) by {
        lemma_emit_all_concat(buf, x, y);
    }
}

/// Appending one command moves the net pointer movement of the buffer by the
/// movement of that command, whether or not the rule cancels.
pub proof fn lemma_displacement_emit(buf: Seq<BfCmd>, c: BfCmd)
    ensures
        displacement(emit(buf, c)) == displacement(buf) + c.shift(),
{
    if buf.len() > 0 && cancels(buf.last(), c) {
    } else {
        assert(buf.push(c).drop_last() =~= buf);
    }
}

/// The cancellation rule never changes the net pointer movement: a buffer
/// moves by what was appended to it.
pub proof fn lemma_displacement_emit_all(buf: Seq<BfCmd>, code: Seq<BfCmd>)
    ensures
        displacement(emit_all(buf, code)) == displacement(buf) + displacement(code),
    decreases code.len(),
{
    if code.len() > 0 {
        lemma_displacement_emit_all(buf, code.drop_last());
        lemma_displacement_emit(emit_all(buf, code.drop_last()), code.last());
    }
}

/// The net pointer movement of a concatenation is the sum of the parts'.
pub proof fn lemma_displacement_concat(x: Seq<BfCmd>, y: Seq<BfCmd>)
    ensures
        displacement(x + y) == displacement(x) + displacement(y),
    decreases y.len(),
{
    if y.len() == 0 {
        assert(x + y =~= x);
    } else {
        assert((x + y).drop_last() =~= x + y.drop_last());
        lemma_displacement_concat(x, y.drop_last());
    }
}

/// A command appended directly after the one it undoes leaves a reduced
/// buffer as it was.
pub proof fn lemma_cancellation(buf: Seq<BfCmd>, c: BfCmd, d: BfCmd)
    requires
        reduced(buf),
        cancels(c, d),
    ensures
        emit(emit(buf, c), d) == buf,
{
    if buf.len() > 0 && cancels(buf.last(), c) {
        let shorter = buf.drop_last();
        if shorter.len() > 0 {
            assert(!cancels(buf[buf.len() - 2], buf[buf.len() - 1]));
            assert(shorter.last() == buf[buf.len() - 2]);
        }
        assert(shorter.push(d) =~= buf);
    } else {
        assert(buf.push(c).drop_last() =~= buf);
    }
}

/// Appending a sequence is the same as appending its own reduced form: what
/// cancels inside `code` may cancel before or after it meets the buffer.
pub proof fn lemma_emit_all_normal(buf: Seq<BfCmd>, code: Seq<BfCmd>)
    requires
        reduced(buf),
    ensures
        emit_all(buf, emit_all(Seq::empty(), code)) == emit_all(buf, code),
    decreases code.len(),
{
    if code.len() > 0 {
        let c = code.last();
        let normal = emit_all(Seq::empty(), code.drop_last());
        lemma_emit_all_normal(buf, code.drop_last());
        if normal.len() > 0 && cancels(normal.last(), c) {
            let shorter = emit_all(buf, normal.drop_last());
            lemma_emit_all_reduced(buf, normal.drop_last());
            lemma_cancellation(shorter, normal.last(), c);
        } else {
            assert(normal.push(c).drop_last() =~= normal);
        }
    }
}

/// Inside a longer sequence too, a part may be replaced by its reduced form
/// without changing what the buffer becomes.
pub proof fn lemma_emit_all_block(
    buf: Seq<BfCmd>,
    before: Seq<BfCmd>,
    code: Seq<BfCmd>,
    after: Seq<BfCmd>,
)
    requires
        reduced(buf),
    ensures
        emit_all(buf, before + emit_all(Seq::empty(), code) + after) == emit_all(
            buf,
            before + code + after,
        ),
{
    let normal = emit_all(Seq::empty(), code);
    lemma_emit_all_concat(buf, before + normal, after);
    lemma_emit_all_concat(buf, before, normal);
    lemma_emit_all_concat(buf, before + code, after);
    lemma_emit_all_concat(buf, before, code);
    lemma_emit_all_reduced(buf, before);
    lemma_emit_all_normal(emit_all(buf, before), code);
}

} // verus!
