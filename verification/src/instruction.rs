use vstd::prelude::*;

verus! {

/// The eight executable symbols of the language.  Any other character in a
/// source text is a comment and lowers to no instruction at all.
#[derive(Clone, Copy, Debug, PartialEq, Eq, Hash, Structural)]
pub enum BfInstruction {
    /// `>`: move the tape pointer one cell to the right, growing the tape.
    GoRight,
    /// `<`: move the tape pointer one cell to the left.
    GoLeft,
    /// `+`: add one to the current cell, wrapping modulo 256.
    Increment,
    /// `-`: subtract one from the current cell, wrapping modulo 256.
    Decrement,
    /// `,`: read one byte from the input stream into the current cell.
    GetInput,
    /// `.`: write the current cell to the output stream.
    PutOutput,
    /// `[`: if the current cell is zero, jump past the matching `]`.
    LoopStart,
    /// `]`: if the current cell is non-zero, jump back into the loop body.
    LoopEnd,
}

/// Everything that can go wrong, at load time (the two unmatched-bracket
/// syntax errors) or while the machine runs.
#[derive(Clone, Copy, Debug, PartialEq, Eq, Structural)]
pub enum BfError {
    /// A `]` was met while no loop was open.
    LoopNotStarted,
    /// The scan ended while at least one `[` was still open.
    LoopNotEnded,
    /// A `<` was executed while the tape pointer already sat on cell 0.
    SeekOverLeftmost,
    /// A `,` was executed after the input stream ran out of bytes.
    LackOfInput,
}

impl BfError {
    /// A short human-readable description of the error.
    pub fn message(&self) -> (r: &'static str)
        ensures
            self is LoopNotStarted ==> r@ == "syntax error: ending loop `]` unmatched"@,
            self is LoopNotEnded ==> r@ == "syntax error: starting loop `[` unmatched"@,
            self is SeekOverLeftmost ==> r@ == "cannot seek over leftmost of tape"@,
            self is LackOfInput ==> r@ == "lack of input"@,
    {
        match self {
            BfError::LoopNotStarted => "syntax error: ending loop `]` unmatched",
            BfError::LoopNotEnded => "syntax error: starting loop `[` unmatched",
            BfError::SeekOverLeftmost => "cannot seek over leftmost of tape",
            BfError::LackOfInput => "lack of input",
        }
    }
}

/// The instruction, if any, that one source character stands for.
pub open spec fn instruction_of_char(c: char) -> Option<BfInstruction> {
    if c == '>' {
        Some(BfInstruction::GoRight)
    } else if c == '<' {
        Some(BfInstruction::GoLeft)
    } else if c == '+' {
        Some(BfInstruction::Increment)
    } else if c == '-' {
        Some(BfInstruction::Decrement)
    } else if c == ',' {
        Some(BfInstruction::GetInput)
    } else if c == '.' {
        Some(BfInstruction::PutOutput)
    } else if c == '[' {
        Some(BfInstruction::LoopStart)
    } else if c == ']' {
        Some(BfInstruction::LoopEnd)
    } else {
        None
    }
}

/// Executable twin of [`instruction_of_char`].
pub(crate) fn instruction_for(c: char) -> (r: Option<BfInstruction>)
    ensures
        r == instruction_of_char(c),
{
    match c {
        '>' => Some(BfInstruction::GoRight),
        '<' => Some(BfInstruction::GoLeft),
        '+' => Some(BfInstruction::Increment),
        '-' => Some(BfInstruction::Decrement),
        ',' => Some(BfInstruction::GetInput),
        '.' => Some(BfInstruction::PutOutput),
        '[' => Some(BfInstruction::LoopStart),
        ']' => Some(BfInstruction::LoopEnd),
        _ => None,
    }
}

/// The instruction sequence a source text lowers to: one instruction per
/// recognized symbol, in source order, comments skipped.
pub open spec fn lowered(s: Seq<char>) -> Seq<BfInstruction>
    decreases s.len(),
{
    if s.len() == 0 {
        Seq::empty()
    } else {
        match instruction_of_char(s.last()) {
            Some(i) => lowered(s.drop_last()).push(i),
            None => lowered(s.drop_last()),
        }
    }
}

/// How many characters of a source text are recognized symbols.
pub open spec fn symbol_count(s: Seq<char>) -> nat
    decreases s.len(),
{
    if s.len() == 0 {
        0
    } else {
        symbol_count(s.drop_last()) + (if instruction_of_char(s.last()) is Some {
            1nat
        } else {
            0nat
        })
    }
}

/// Scans a program with standard stack discipline and yields the positions
/// of the loop starts still open at its end, innermost last; `None` means
/// some prefix closed a loop that was never opened.
pub open spec fn open_loops(prog: Seq<BfInstruction>) -> Option<Seq<int>>
    decreases prog.len(),
{
    if prog.len() == 0 {
        Some(Seq::empty())
    } else {
        match open_loops(prog.drop_last()) {
            None => None,
            Some(st) => match prog.last() {
                BfInstruction::LoopStart => Some(st.push(prog.len() - 1)),
                BfInstruction::LoopEnd => if st.len() == 0 {
                    None
                } else {
                    Some(st.drop_last())
                },
                _ => Some(st),
            },
        }
    }
}

/// A program is balanced when its scan closes every loop it opens and never
/// closes one it did not open.
pub open spec fn balanced(prog: Seq<BfInstruction>) -> bool {
    open_loops(prog) == Some(Seq::<int>::empty())
}

/// Lowering is compositional: a concatenation of source texts lowers to the
/// concatenation of their programs.
pub proof fn lemma_lowered_append(s1: Seq<char>, s2: Seq<char>)
    ensures
        lowered(s1 + s2) == lowered(s1) + lowered(s2),
    decreases s2.len(),
{
    if s2.len() == 0 {
        assert(s1 + s2 =~= s1);
        assert(lowered(s1) + lowered(s2) =~= lowered(s1));
    } else {
        lemma_lowered_append(s1, s2.drop_last());
        assert((s1 + s2).drop_last() =~= s1 + s2.drop_last());
        match instruction_of_char(s2.last()) {
            Some(i) => {
                assert(lowered(s1) + lowered(s2) =~= (lowered(s1) + lowered(
                    s2.drop_last(),
                )).push(i));
            },
            None => {},
        }
    }
}

/// Once some prefix has closed a loop that was never opened, no extension
/// can undo it.
pub proof fn lemma_open_loops_none_extends(p: Seq<BfInstruction>, q: Seq<BfInstruction>)
    requires
        open_loops(p) is None,
    ensures
        open_loops(p + q) is None,
    decreases q.len(),
{
    if q.len() == 0 {
        assert(p + q =~= p);
    } else {
        lemma_open_loops_none_extends(p, q.drop_last());
        assert((p + q).drop_last() =~= p + q.drop_last());
    }
}

} // verus!
