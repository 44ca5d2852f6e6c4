use vstd::prelude::*;

verus! {

/// Instructions denoting simple matches.
#[derive(Clone, Copy, Debug, PartialEq, Eq, Structural)]
pub enum Match {
    /// Match exactly this character.
    Char(char),
    /// Match any character.
    Dot,
}

/// All the instructions that the virtual machine understands.
#[derive(Clone, Copy, Debug, PartialEq, Eq, Structural)]
pub enum Instruction {
    /// Consume one character if it matches.
    Match(Match),
    /// Unconditional jump.
    Jmp(usize),
    /// Successful match.
    Succeed,
    /// Split the current virtual thread into two.
    Split(usize, usize),
}

impl Match {
    /// Whether this matcher accepts the character `c`.
    pub open spec fn accepts(self, c: char) -> bool {
        match self {
            Match::Char(x) => x == c,
            Match::Dot => true,
        }
    }

    pub fn test(&self, c: char) -> (r: bool)
        ensures
            r == self.accepts(c),
    {
        match self {
            Match::Char(x) => *x == c,
            Match::Dot => true,
        }
    }
}


/// The instruction at address `at` of a program of `n` instructions leaves
/// no address dangling: every target is an address, and a `Match` is
/// followed by another instruction.
pub open spec fn inst_ok(ins: Instruction, at: int, n: int) -> bool {
    match ins {
        Instruction::Match(_) => at + 1 < n,
        Instruction::Jmp(t) => t < n,
        Instruction::Split(a, b) => a < n && b < n,
        Instruction::Succeed => true,
    }
}

/// A program the engine can run.
pub open spec fn wf_program(p: Seq<Instruction>) -> bool {
    &&& p.len() > 0
    &&& forall|i: int| 0 <= i < p.len() ==> #[trigger] inst_ok(p[i], i, p.len() as int)
}

} // verus!
