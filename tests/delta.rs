use delta_patch::{
    apply, decode, diff, encode, ByteCursor, Instruction, InstructionError, Lcs,
    ADD_INSTRUCTION_SIGN, COPY_INSTRUCTION_SIGN, REMOVE_INSTRUCTION_SIGN,
};

fn round_trip(source: &[u8], target: &[u8]) {
    let stream = diff(source, target);
    assert_eq!(apply(source, &stream), Ok(target.to_vec()));
    assert_eq!(decode(&encode(&stream)), Ok(stream.clone()));
}

#[test]
fn diff_removes_all_when_target_is_empty() {
    assert_eq!(diff(b"AAA", b""), vec![Instruction::Remove { length: 3 }]);
}

#[test]
fn diff_removes_then_adds_without_common_bytes() {
    assert_eq!(
        diff(b"AAA", b"B"),
        vec![
            Instruction::Remove { length: 3 },
            Instruction::Add { content: b"B".to_vec() },
        ]
    );
}

#[test]
fn diff_adds_then_copies_shared_byte() {
    assert_eq!(Lcs::new(b"AAA", b"BBA").subsequence(), b"A".to_vec());
    let stream = diff(b"AAA", b"BBA");
    assert_eq!(
        stream[..2].to_vec(),
        vec![
            Instruction::Add { content: b"BB".to_vec() },
            Instruction::Copy { content: b"A".to_vec() },
        ]
    );
    assert_eq!(
        stream,
        vec![
            Instruction::Add { content: b"BB".to_vec() },
            Instruction::Copy { content: b"A".to_vec() },
            Instruction::Remove { length: 2 },
        ]
    );
}

#[test]
fn diff_of_empty_inputs_is_empty() {
    assert_eq!(diff(b"", b""), vec![]);
    assert_eq!(encode(&[]), Vec::<u8>::new());
    assert_eq!(decode(&[]), Ok(vec![]));
}

#[test]
fn diff_of_equal_inputs_only_copies() {
    let data = b"hello, world".to_vec();
    assert_eq!(diff(&data, &data), vec![Instruction::Copy { content: data.clone() }]);
}

#[test]
fn diff_of_long_equal_inputs_splits_copies() {
    let data: Vec<u8> = (0..600u32).map(|x| (x % 251) as u8).collect();
    let stream = diff(&data, &data);
    let lens: Vec<u8> = stream.iter().map(|i| i.len()).collect();
    assert_eq!(lens, vec![255, 255, 90]);
    assert!(stream.iter().all(|i| matches!(i, Instruction::Copy { .. })));
    round_trip(&data, &data);
}

#[test]
fn diff_splits_long_remove_run() {
    let source = vec![7u8; 300];
    assert_eq!(
        diff(&source, b""),
        vec![
            Instruction::Remove { length: 255 },
            Instruction::Remove { length: 45 },
        ]
    );
}

#[test]
fn diff_splits_long_add_run() {
    let target = vec![9u8; 256];
    assert_eq!(
        diff(b"", &target),
        vec![
            Instruction::Add { content: vec![9u8; 255] },
            Instruction::Add { content: vec![9u8] },
        ]
    );
}

#[test]
fn diff_round_trips() {
    round_trip(b"kitten", b"sitting");
    round_trip(b"ABCBDAB", b"BDCABA");
    round_trip(b"", b"xyz");
    round_trip(b"xyz", b"");
    let source: Vec<u8> = (0..700u32).map(|x| (x * 7 % 13) as u8).collect();
    let target: Vec<u8> = (0..500u32).map(|x| (x * 5 % 11) as u8).collect();
    round_trip(&source, &target);
}

#[test]
fn lcs_is_longest_common_subsequence() {
    assert_eq!(Lcs::new(b"ABCBDAB", b"BDCABA").subsequence().len(), 4);
    assert_eq!(Lcs::new(b"kitten", b"sitting").subsequence(), b"ittn".to_vec());
    assert_eq!(Lcs::new(b"", b"abc").subsequence(), Vec::<u8>::new());
    assert_eq!(Lcs::new(b"abc", b"abc").subsequence(), b"abc".to_vec());
}

#[test]
fn encode_writes_sign_length_content() {
    let stream = vec![
        Instruction::Remove { length: 2 },
        Instruction::Add { content: b"xy".to_vec() },
        Instruction::Copy { content: b"z".to_vec() },
    ];
    assert_eq!(
        encode(&stream),
        vec![
            REMOVE_INSTRUCTION_SIGN,
            2,
            ADD_INSTRUCTION_SIGN,
            2,
            b'x',
            b'y',
            COPY_INSTRUCTION_SIGN,
            1,
            b'z',
        ]
    );
    assert_eq!(decode(&encode(&stream)), Ok(stream));
}

#[test]
fn decode_single_instruction_errors() {
    let empty: Vec<u8> = vec![];
    assert_eq!(
        Instruction::try_from_bytes(&mut ByteCursor::new(&empty)),
        Err(InstructionError::MissingSign)
    );
    assert_eq!(
        Instruction::try_from_bytes(&mut ByteCursor::new(b"X")),
        Err(InstructionError::InvalidSign)
    );
    assert_eq!(
        Instruction::try_from_bytes(&mut ByteCursor::new(&[ADD_INSTRUCTION_SIGN])),
        Err(InstructionError::MissingLength)
    );
    assert_eq!(
        Instruction::try_from_bytes(&mut ByteCursor::new(&[ADD_INSTRUCTION_SIGN, 5, 1, 2, 3])),
        Err(InstructionError::MissingContent)
    );
}

#[test]
fn decode_stream_errors() {
    assert_eq!(decode(b"X"), Err(InstructionError::InvalidSign));
    assert_eq!(decode(&[ADD_INSTRUCTION_SIGN]), Err(InstructionError::MissingLength));
    assert_eq!(
        decode(&[ADD_INSTRUCTION_SIGN, 5, 1, 2, 3]),
        Err(InstructionError::MissingContent)
    );
    assert_eq!(
        decode(&[REMOVE_INSTRUCTION_SIGN, 1, COPY_INSTRUCTION_SIGN]),
        Err(InstructionError::MissingLength)
    );
}

#[test]
fn try_from_bytes_moves_past_one_instruction() {
    let bytes = [COPY_INSTRUCTION_SIGN, 2, b'a', b'b', REMOVE_INSTRUCTION_SIGN, 4];
    let mut cursor = ByteCursor::new(&bytes);
    assert_eq!(
        Instruction::try_from_bytes(&mut cursor),
        Ok(Instruction::Copy { content: b"ab".to_vec() })
    );
    assert_eq!(cursor.position(), 4);
    assert_eq!(
        Instruction::try_from_bytes(&mut cursor),
        Ok(Instruction::Remove { length: 4 })
    );
    assert!(cursor.is_done());
}

#[test]
fn apply_reports_underrun_and_mismatch() {
    assert_eq!(
        apply(b"ab", &[Instruction::Remove { length: 3 }]),
        Err(InstructionError::SourceUnderrun)
    );
    assert_eq!(
        apply(b"ab", &[Instruction::Copy { content: b"abc".to_vec() }]),
        Err(InstructionError::SourceUnderrun)
    );
    assert_eq!(
        apply(b"ab", &[Instruction::Copy { content: b"ax".to_vec() }]),
        Err(InstructionError::ContentMismatch)
    );
    assert_eq!(
        apply(
            b"abcd",
            &[
                Instruction::Remove { length: 1 },
                Instruction::Copy { content: b"bc".to_vec() },
                Instruction::Add { content: b"Z".to_vec() },
            ]
        ),
        Ok(b"bcZ".to_vec())
    );
}

#[test]
fn push_on_full_instruction_overflows() {
    let mut instruction = Instruction::Copy { content: vec![1u8; 255] };
    assert_eq!(instruction.push(2), Err(InstructionError::ContentOverflow));
    assert_eq!(instruction.len(), 255);
}

#[test]
fn instruction_fill_copies_shared_run() {
    let lcs = b"ab".to_vec();
    let mut l = ByteCursor::new(&lcs);
    let mut s = ByteCursor::new(b"abx");
    let mut t = ByteCursor::new(b"aby");
    let mut copy = Instruction::Copy { content: vec![] };
    copy.fill(&mut l, &mut s, &mut t);
    assert_eq!(copy, Instruction::Copy { content: b"ab".to_vec() });
    let mut add = Instruction::Add { content: vec![] };
    add.fill(&mut l, &mut s, &mut t);
    assert_eq!(add, Instruction::Add { content: b"y".to_vec() });
    assert_eq!(s.remaining(), 1);
}
