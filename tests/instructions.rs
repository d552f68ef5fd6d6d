use delta_patch::{Instruction, MAX_INSTRUCTION_LENGTH, MIN_INSTRUCTION_LENGTH};

#[test]
fn len() {
    let mut max_length_instruction = Instruction::Add {
        content: vec![0; MAX_INSTRUCTION_LENGTH.into()],
    };
    let mut min_length_instruction = Instruction::Add {
        content: vec![0; MIN_INSTRUCTION_LENGTH.into()],
    };
    assert_eq!(max_length_instruction.len(), MAX_INSTRUCTION_LENGTH);
    assert_eq!(min_length_instruction.len(), MIN_INSTRUCTION_LENGTH);

    max_length_instruction = Instruction::Remove {
        length: MAX_INSTRUCTION_LENGTH,
    };
    min_length_instruction = Instruction::Remove {
        length: MIN_INSTRUCTION_LENGTH,
    };
    assert_eq!(max_length_instruction.len(), MAX_INSTRUCTION_LENGTH);
    assert_eq!(min_length_instruction.len(), MIN_INSTRUCTION_LENGTH);
}

#[test]
fn is_empty() {
    let max_length_instruction = Instruction::Add {
        content: vec![0; MAX_INSTRUCTION_LENGTH.into()],
    };
    let min_length_instruction = Instruction::Add {
        content: vec![0; MIN_INSTRUCTION_LENGTH.into()],
    };
    assert!(min_length_instruction.is_empty());
    assert!(!max_length_instruction.is_empty());
}

#[test]
fn is_full() {
    let max_length_instruction = Instruction::Add {
        content: vec![0; MAX_INSTRUCTION_LENGTH.into()],
    };
    let min_length_instruction = Instruction::Add {
        content: vec![0; MIN_INSTRUCTION_LENGTH.into()],
    };
    assert!(!min_length_instruction.is_full());
    assert!(max_length_instruction.is_full());
}

#[test]
fn push() {
    let mut instruction = Instruction::Add {
        content: vec![0; (MAX_INSTRUCTION_LENGTH - 1).into()],
    };
    assert!(instruction.push(b'\x00').is_ok());
    assert!(instruction.is_full());
    assert!(instruction.push(b'\x00').is_err());

    instruction = Instruction::Remove {
        length: (MAX_INSTRUCTION_LENGTH - 1),
    };
    assert!(instruction.push(b'\x00').is_ok());
    assert!(instruction.is_full());
    assert!(instruction.push(b'\x00').is_err());
}
