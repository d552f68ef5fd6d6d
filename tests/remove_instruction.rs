use delta_patch::{
    ByteCursor, ConvertBetweenBytes, InstructionError, Lcs, RemoveInstruction,
    REMOVE_INSTRUCTION_SIGN,
};

#[test]
fn instruction_info() {
    let mut instruction = RemoveInstruction::new(u8::MAX);
    assert_eq!(instruction.len(), u8::MAX);
    assert!(instruction.is_full());

    instruction = RemoveInstruction::new(u8::MIN);
    assert_eq!(instruction.len(), u8::MIN);
    assert!(instruction.is_empty());

    let default_instruction = RemoveInstruction::default();
    assert_eq!(default_instruction, instruction);
}

#[test]
fn instruction_content_push() {
    let mut instruction = RemoveInstruction::new(u8::MAX - 1);
    assert!(instruction.push(0).is_ok());
    assert_eq!(instruction.push(0), Err(InstructionError::ContentOverflow));
}

fn fill_wrapper(source: &[u8], target: &[u8]) -> RemoveInstruction {
    let mut instruction = RemoveInstruction::default();
    let lcs = Lcs::new(source, target).subsequence();
    let mut lcs_iter = ByteCursor::new(&lcs);
    let mut source_iter = ByteCursor::new(source);
    let mut target_iter = ByteCursor::new(target);
    instruction.fill(&mut lcs_iter, &mut source_iter, &mut target_iter);
    instruction
}

#[test]
fn instruction_content_fill() {
    let instruction = fill_wrapper(b"AAA", b"");
    assert_eq!(instruction.len(), 3);
    let instruction = fill_wrapper(b"AAA", b"B");
    assert_eq!(instruction.len(), 3);
    let instruction = fill_wrapper(b"AAA", b"BBA");
    assert_eq!(instruction.len(), 0);
}

#[test]
fn instruction_bytes_to_bytes() {
    let mut instruction = RemoveInstruction::new(u8::MAX);
    let mut bytes = vec![REMOVE_INSTRUCTION_SIGN];
    bytes.extend(instruction.len().to_be_bytes());
    assert_eq!(instruction.to_bytes(), bytes);

    instruction = RemoveInstruction::default();
    bytes = vec![REMOVE_INSTRUCTION_SIGN];
    bytes.extend(instruction.len().to_be_bytes());
    assert_eq!(instruction.to_bytes(), bytes);
}

#[test]
fn instruction_bytes_try_from_bytes_ok() {
    let mut instruction = RemoveInstruction::new(u8::MAX);
    let mut bytes = instruction.to_bytes();
    assert_eq!(
        RemoveInstruction::try_from_bytes(&mut ByteCursor::new(&bytes)),
        Ok(instruction)
    );

    instruction = RemoveInstruction::default();
    bytes = instruction.to_bytes();
    assert_eq!(
        RemoveInstruction::try_from_bytes(&mut ByteCursor::new(&bytes)),
        Ok(instruction)
    );
}

#[test]
fn instruction_bytes_try_from_bytes_err() {
    let mut bytes: Vec<u8> = vec![];
    assert_eq!(
        RemoveInstruction::try_from_bytes(&mut ByteCursor::new(&bytes)),
        Err(InstructionError::MissingSign)
    );
    bytes = vec![b'A'];
    assert_eq!(
        RemoveInstruction::try_from_bytes(&mut ByteCursor::new(&bytes)),
        Err(InstructionError::InvalidSign)
    );
    bytes = vec![REMOVE_INSTRUCTION_SIGN];
    assert_eq!(
        RemoveInstruction::try_from_bytes(&mut ByteCursor::new(&bytes)),
        Err(InstructionError::MissingLength)
    );
}
