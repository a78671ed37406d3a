use neuro_bf::{decode, Instruction, VmError};

#[test]
fn decodes_each_command() {
    let p = decode("><+-.,").unwrap();
    assert_eq!(
        p.instructions(),
        &[
            Instruction::MoveRight,
            Instruction::MoveLeft,
            Instruction::Increment,
            Instruction::Decrement,
            Instruction::Output,
            Instruction::Input,
        ]
    );
}

#[test]
fn ignores_other_characters() {
    let p = decode("a + b\n- ä [ comment ]").unwrap();
    assert_eq!(
        p.instructions(),
        &[
            Instruction::Increment,
            Instruction::Decrement,
            Instruction::LoopOpen(3),
            Instruction::LoopClose(2),
        ]
    );
}

#[test]
fn empty_text_gives_empty_program() {
    assert_eq!(decode("").unwrap().len(), 0);
    assert_eq!(decode("no commands here").unwrap().len(), 0);
}

#[test]
fn links_nested_brackets_innermost_first() {
    let p = decode("[[]]").unwrap();
    assert_eq!(
        p.instructions(),
        &[
            Instruction::LoopOpen(3),
            Instruction::LoopOpen(2),
            Instruction::LoopClose(1),
            Instruction::LoopClose(0),
        ]
    );
}

#[test]
fn links_sequential_brackets() {
    let p = decode("[-][+]").unwrap();
    assert_eq!(
        p.instructions(),
        &[
            Instruction::LoopOpen(2),
            Instruction::Decrement,
            Instruction::LoopClose(0),
            Instruction::LoopOpen(5),
            Instruction::Increment,
            Instruction::LoopClose(3),
        ]
    );
}

#[test]
fn loop_markers_point_at_each_other() {
    let p = decode("+[>[-<+>]<[->+<]]>[.[,]]").unwrap();
    let ins = p.instructions();
    for (i, instruction) in ins.iter().enumerate() {
        match *instruction {
            Instruction::LoopOpen(j) => {
                assert!(j > i);
                assert_eq!(ins[j], Instruction::LoopClose(i));
            }
            Instruction::LoopClose(j) => {
                assert!(j < i);
                assert_eq!(ins[j], Instruction::LoopOpen(i));
            }
            _ => {}
        }
    }
}

#[test]
fn decoding_twice_gives_the_same_program() {
    let text = "++[>+[-]<-]. some text ,";
    assert_eq!(decode(text), decode(text));
    assert_eq!(decode("[["), decode("[["));
}

#[test]
fn unclosed_open_brackets_fail() {
    assert_eq!(decode("[["), Err(VmError::MismatchedBracket));
    assert_eq!(decode("+[[-]"), Err(VmError::MismatchedBracket));
}

#[test]
fn stray_close_bracket_fails() {
    assert_eq!(decode("]"), Err(VmError::MismatchedBracket));
    assert_eq!(decode("[]]["), Err(VmError::MismatchedBracket));
}
