//! The instruction set, and how program text is read as instructions.

use vstd::prelude::*;

verus! {

/// One instruction of the machine. Instructions carry no operand.
#[derive(Clone, Copy, Debug, PartialEq, Eq, Structural)]
pub enum BrainfuckInstructions {
    /// `>`: move the pointer one cell to the right.
    IncreasePointer,
    /// `<`: move the pointer one cell to the left.
    DecreasePointer,
    /// `+`: add one to the current cell.
    IncreaseValue,
    /// `-`: subtract one from the current cell.
    DecreaseValue,
    /// `[`: open a loop.
    BeginLoop,
    /// `]`: close a loop.
    EndLoop,
    /// `,`: read one unit of input into the current cell.
    WriteToCell,
    /// `.`: emit the current cell as one unit of output.
    PrintCell,
}

/// The instruction that a character of program text stands for, if any.
pub open spec fn instruction_of(c: char) -> Option<BrainfuckInstructions> {
    if c == '>' {
        Some(BrainfuckInstructions::IncreasePointer)
    } else if c == '<' {
        Some(BrainfuckInstructions::DecreasePointer)
    } else if c == '+' {
        Some(BrainfuckInstructions::IncreaseValue)
    } else if c == '-' {
        Some(BrainfuckInstructions::DecreaseValue)
    } else if c == '[' {
        Some(BrainfuckInstructions::BeginLoop)
    } else if c == ']' {
        Some(BrainfuckInstructions::EndLoop)
    } else if c == ',' {
        Some(BrainfuckInstructions::WriteToCell)
    } else if c == '.' {
        Some(BrainfuckInstructions::PrintCell)
    } else {
        None
    }
}

/// The instructions that a program text holds, in order: every character
/// that stands for an instruction gives one, every other character is
/// dropped.
pub open spec fn instructions_of(text: Seq<char>) -> Seq<BrainfuckInstructions>
    decreases text.len(),
{
    if text.len() == 0 {
        Seq::empty()
    } else {
        let before = instructions_of(text.drop_last());
        match instruction_of(text.last()) {
            Some(instruction) => before.push(instruction),
            None => before,
        }
    }
}

impl BrainfuckInstructions {
    /// Reads one character of program text.
    pub fn from_char(c: char) -> (r: Option<BrainfuckInstructions>)
        ensures
            r == instruction_of(c),
    {
        if c == '>' {
            Some(BrainfuckInstructions::IncreasePointer)
        } else if c == '<' {
            Some(BrainfuckInstructions::DecreasePointer)
        } else if c == '+' {
            Some(BrainfuckInstructions::IncreaseValue)
        } else if c == '-' {
            Some(BrainfuckInstructions::DecreaseValue)
        } else if c == '[' {
            Some(BrainfuckInstructions::BeginLoop)
        } else if c == ']' {
            Some(BrainfuckInstructions::EndLoop)
        } else if c == ',' {
            Some(BrainfuckInstructions::WriteToCell)
        } else if c == '.' {
            Some(BrainfuckInstructions::PrintCell)
        } else {
            None
        }
    }

    /// The character that is written for this instruction in program text.
    pub fn to_char(&self) -> (c: char)
        ensures
            instruction_of(c) == Some(*self),
    {
        match self {
            BrainfuckInstructions::IncreasePointer => '>',
            BrainfuckInstructions::DecreasePointer => '<',
            BrainfuckInstructions::IncreaseValue => '+',
            BrainfuckInstructions::DecreaseValue => '-',
            BrainfuckInstructions::BeginLoop => '[',
            BrainfuckInstructions::EndLoop => ']',
            BrainfuckInstructions::WriteToCell => ',',
            BrainfuckInstructions::PrintCell => '.',
        }
    }
}

/// Reads program text as instructions, dropping every character that is
/// not one of the eight instruction characters.
pub fn chars_to_instructions(text: &[char]) -> (instructions: Vec<BrainfuckInstructions>)
    ensures
        instructions@ == instructions_of(text@),
{
    let mut instructions: Vec<BrainfuckInstructions> = Vec::new();
    let mut i: usize = 0;
    while i < text.len()
        invariant
            i <= text.len(),
            instructions@ == instructions_of(text@.take(i as int)),
        decreases text.len() - i,
    {
        proof {
            assert(text@.take(i + 1).drop_last() =~= text@.take(i as int));
        }
        match BrainfuckInstructions::from_char(text[i]) {
            Some(instruction) => instructions.push(instruction),
            None => {},
        }
        i += 1;
    }
    proof {
        assert(text@.take(i as int) =~= text@);
    }
    instructions
}

} // verus!
