use brainfuck_interpreter::BrainfuckInstructions::{
    BeginLoop,       // [
    DecreasePointer, // <
    DecreaseValue,   // -
    EndLoop,         // ]
    IncreasePointer, // >
    IncreaseValue,   // +
    PrintCell,       // .
    WriteToCell,     // ,
};
use brainfuck_interpreter::BrainfuckProgram;
use brainfuck_interpreter::MEMORY_ARRAY_LENGTH;

/// Steps enough for every program in this file.
const STEP_LIMIT: usize = 1_000_000;

#[test]
/// Checks if the constructor produces a BrainfuckProgram with the right instructions
fn constructor_works() {
    let instructions = vec![
        IncreasePointer,
        DecreasePointer,
        IncreaseValue,
        DecreaseValue,
        BeginLoop,
        EndLoop,
        WriteToCell,
        PrintCell,
    ];

    let brainfuck_program = BrainfuckProgram::new(instructions.clone());

    assert_eq!(brainfuck_program.instructions(), &instructions)
}

#[test]
/// Tests if the find_end_loop method works
fn find_end_loop_works() {
    let instructions = vec![
        BeginLoop,
        IncreaseValue,
        IncreasePointer,
        EndLoop,
        IncreaseValue,
    ];

    let program = BrainfuckProgram::new(instructions);

    assert_eq!(program.find_end_loop().unwrap(), 3);
}

#[test]
/// Tests if the find_end_loop method works with nested loops
fn find_end_loop_nested_works() {
    let instructions = vec![
        BeginLoop,
        IncreaseValue,
        BeginLoop,
        IncreasePointer,
        IncreaseValue,
        EndLoop,
        EndLoop,
        IncreaseValue,
    ];

    let mut program = BrainfuckProgram::new(instructions);

    assert!(program.set_program_counter(2));

    assert_eq!(program.find_end_loop().unwrap(), 5);

    assert!(program.set_program_counter(0));

    assert_eq!(program.find_end_loop().unwrap(), 6);
}

#[test]
/// Tests if the find_begin_loop method works
fn find_begin_loop_works() {
    // testing with the begin loop at the start
    let instructions = vec![
        BeginLoop,
        IncreaseValue,
        IncreasePointer,
        EndLoop,
        IncreaseValue,
    ];

    let mut program = BrainfuckProgram::new(instructions);

    assert!(program.set_program_counter(3));

    assert_eq!(program.find_begin_loop().unwrap(), 0);
}

#[test]
/// Tests if the find_begin_loop method works with nested loops
fn find_begin_loop_nested_works() {
    let instructions = vec![
        BeginLoop,
        IncreaseValue,
        BeginLoop,
        IncreasePointer,
        IncreaseValue,
        EndLoop,
        EndLoop,
        IncreaseValue,
    ];

    let mut program = BrainfuckProgram::new(instructions);

    assert!(program.set_program_counter(5));

    assert_eq!(program.find_begin_loop().unwrap(), 2);

    // The outer loop end has to skip the inner loop beginning
    assert!(program.set_program_counter(6));

    assert_eq!(program.find_begin_loop().unwrap(), 0);
}

#[test]
/// Tests if IncreasePointer, DecreasePointer, IncreaseValue, and DecreaseValue Instructions
/// works
fn first_four_instructions_works() {
    // The instruction set to test
    let instructions = vec![
        IncreaseValue,
        IncreasePointer,
        IncreaseValue,
        IncreaseValue,
        DecreasePointer,
        DecreaseValue,
        IncreasePointer,
        IncreasePointer,
        IncreaseValue,
    ];

    // Creating the Brainfuck program and running it
    let mut program = BrainfuckProgram::new(instructions);
    let outcome = program.run(&[], STEP_LIMIT).unwrap();
    assert!(outcome.halted);

    // Writing the expected state of the memory array
    let mut expected_array: [u8; MEMORY_ARRAY_LENGTH] = [0; MEMORY_ARRAY_LENGTH];
    expected_array[1] = 2;
    expected_array[2] = 1;

    // Testing if they are the same
    assert!(expected_array.iter().eq(program.memory().iter()))
}

#[test]
fn overflow_works() {
    // Testing 0 - 1 = 255
    let instructions = vec![DecreaseValue];

    let mut program = BrainfuckProgram::new(instructions);

    let outcome = program.run(&[], STEP_LIMIT).unwrap();
    assert!(outcome.halted);

    assert_eq!(program.memory()[0], 255);

    // Tesing 255 + 1 = 0
    let instructions = vec![
        // Setting the current cell to 16
        IncreaseValue,
        IncreaseValue,
        IncreaseValue,
        IncreaseValue,
        IncreaseValue,
        IncreaseValue,
        IncreaseValue,
        IncreaseValue,
        IncreaseValue,
        IncreaseValue,
        IncreaseValue,
        IncreaseValue,
        IncreaseValue,
        IncreaseValue,
        IncreaseValue,
        IncreaseValue,
        // Entering the loop
        BeginLoop,
        // Adding second to the next cell
        IncreasePointer,
        IncreaseValue,
        IncreaseValue,
        IncreaseValue,
        IncreaseValue,
        IncreaseValue,
        IncreaseValue,
        IncreaseValue,
        IncreaseValue,
        IncreaseValue,
        IncreaseValue,
        IncreaseValue,
        IncreaseValue,
        IncreaseValue,
        IncreaseValue,
        IncreaseValue,
        IncreaseValue,
        DecreasePointer,
        DecreaseValue,
        EndLoop,
    ];

    let mut program = BrainfuckProgram::new(instructions);

    let outcome = program.run(&[], STEP_LIMIT).unwrap();
    assert!(outcome.halted);

    assert_eq!(program.memory()[1], 0)
}

#[test]
/// Tests if looping works
fn loops_work() {
    // A sum numbers program that uses a loop
    let sum_two_numbers = vec![
        // Setting up the two numbers to add
        IncreaseValue, // 2
        IncreaseValue,
        IncreasePointer,
        IncreaseValue, // 3
        IncreaseValue,
        IncreaseValue,
        BeginLoop,
        DecreaseValue,
        DecreasePointer,
        IncreaseValue,
        IncreasePointer,
        EndLoop,
    ];

    // Creating the Brainfuck program and running it
    let mut program = BrainfuckProgram::new(sum_two_numbers);
    let outcome = program.run(&[], STEP_LIMIT).unwrap();
    assert!(outcome.halted);

    // Asserting that the program ran as expected
    assert_eq!(program.memory()[0], 5);
    assert_eq!(program.memory()[1], 0)
}

#[test]
/// Tests if BeginLoop jumpts
fn begin_loop_jumps_if_cell_is_zero() {
    let instructions = vec![
        BeginLoop,
        // This will create an infinite loop if this loop is not skipped
        IncreaseValue,
        EndLoop,
        DecreaseValue,
    ];

    let mut program = BrainfuckProgram::new(instructions);
    let outcome = program.run(&[], STEP_LIMIT).unwrap();
    assert!(outcome.halted);

    assert_eq!(program.memory()[0], 255);
}
