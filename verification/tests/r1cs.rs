use zk::error::{DecodeError, GenError};
use zk::r1cs::encoding::{
    assignment_array, gen_assignments, gen_r1cs, gen_slice, header, linear_combination,
};
use zk::r1cs::{
    Assignment, Assignments, Coefficient, Constraint, Header, LinearCombination, VariableIndex,
    R1CS,
};
use zk::ConstraintSystem;

fn xor_circuit() -> R1CS {
    let header = Header::from_file(0, vec![64513, 1, 1, 2]).unwrap();
    let constraints = vec![
        Constraint {
            a: LinearCombination(vec![
                (VariableIndex::Constant, Coefficient(1)),
                (VariableIndex::Witness(0), Coefficient(-1)),
            ]),
            b: LinearCombination(vec![(VariableIndex::Witness(0), Coefficient(1))]),
            c: LinearCombination(vec![(VariableIndex::Constant, Coefficient(0))]),
        },
        Constraint {
            a: LinearCombination(vec![
                (VariableIndex::Constant, Coefficient(1)),
                (VariableIndex::Witness(1), Coefficient(-1)),
            ]),
            b: LinearCombination(vec![(VariableIndex::Witness(1), Coefficient(1))]),
            c: LinearCombination(vec![(VariableIndex::Constant, Coefficient(0))]),
        },
        Constraint {
            a: LinearCombination(vec![(VariableIndex::Witness(0), Coefficient(2))]),
            b: LinearCombination(vec![(VariableIndex::Witness(1), Coefficient(1))]),
            c: LinearCombination(vec![
                (VariableIndex::Instance(0), Coefficient(-1)),
                (VariableIndex::Witness(0), Coefficient(1)),
                (VariableIndex::Witness(1), Coefficient(1)),
            ]),
        },
    ];
    R1CS(header, constraints)
}

fn xor_assignments() -> Assignments {
    let header = Header::from_file(0, vec![64513, 1, 1, 2]).unwrap();
    let assignments = vec![
        Assignment(VariableIndex::Constant, 1),
        Assignment(VariableIndex::Instance(0), 1),
        Assignment(VariableIndex::Witness(0), 0),
        Assignment(VariableIndex::Witness(1), 1),
    ];
    Assignments(header, assignments)
}

#[test]
fn r1cs_encode_decode() {
    // Simple XOR circuit:
    //   (1 - w_0) * (w_0) = 0
    //   (1 - w_1) * (w_1) = 0
    //   (w_0 * 2) * (w_1) = -x_0 + w_0 + w_1
    let r1cs = xor_circuit();

    let encoded = r1cs.encode().unwrap();
    let decoded = R1CS::decode(&encoded);
    assert_eq!(decoded.unwrap(), r1cs);
}

#[test]
fn assignments_encode_decode() {
    let assignments = xor_assignments();

    let encoded = assignments.encode().unwrap();
    let decoded = Assignments::decode(&encoded);
    assert_eq!(decoded.unwrap(), assignments);
}

#[test]
fn r1cs_exact_bytes() {
    let encoded = xor_circuit().encode().unwrap();
    let expected: Vec<u8> = vec![
        0x52, 0x31, 0x43, 0x53, // tag
        0, 4, 130, 240, 7, 2, 2, 4, // header
        3, // constraints
        2, 0, 2, 2, 1, 1, 2, 2, 1, 0, 0, //
        2, 0, 2, 4, 1, 1, 4, 2, 1, 0, 0, //
        1, 2, 4, 1, 4, 2, 3, 1, 1, 2, 2, 4, 2,
    ];
    assert_eq!(encoded, expected);
}

#[test]
fn assignments_exact_bytes() {
    let encoded = xor_assignments().encode().unwrap();
    let expected: Vec<u8> = vec![0x52, 0x31, 0x61, 0x73, 0, 4, 130, 240, 7, 2, 2, 4, 2, 2, 0, 2];
    assert_eq!(encoded, expected);
}

#[test]
fn variable_index_numbers() {
    assert_eq!(VariableIndex::from(0), VariableIndex::Constant);
    assert_eq!(VariableIndex::from(-1), VariableIndex::Instance(0));
    assert_eq!(VariableIndex::from(-5), VariableIndex::Instance(4));
    assert_eq!(VariableIndex::from(1), VariableIndex::Witness(0));
    assert_eq!(VariableIndex::from(7), VariableIndex::Witness(6));
    assert_eq!(VariableIndex::from(i64::MIN), VariableIndex::Instance(i64::MAX as u64));
    assert_eq!(VariableIndex::from(i64::MAX), VariableIndex::Witness(i64::MAX as u64 - 1));
    assert_eq!(VariableIndex::Constant.to_i64(), 0);
    assert_eq!(VariableIndex::Instance(4).to_i64(), -5);
    assert_eq!(VariableIndex::Witness(6).to_i64(), 7);
    assert_eq!(VariableIndex::Instance(i64::MAX as u64).to_i64(), i64::MIN);
}

#[test]
fn header_keeps_trailing_entries() {
    let h = Header::from_file(3, vec![7, 1, 0, 0, -9, 300, i64::MIN]).unwrap();
    assert_eq!(h.v, 3);
    assert_eq!(h.p, 7);
    assert_eq!(h.m, 1);
    assert_eq!(h.nx, 0);
    assert_eq!(h.nw, 0);
    assert_eq!(h._ignored, vec![-9, 300, i64::MIN]);
    assert_eq!(h.to_file(), (3, vec![7, 1, 0, 0, -9, 300, i64::MIN]));

    let a = Assignments(h, vec![Assignment(VariableIndex::Constant, 1)]);
    let bytes = a.encode().unwrap();
    let back = Assignments::decode(&bytes).unwrap();
    assert_eq!(back, a);
    assert_eq!(back.encode().unwrap(), bytes);
}

#[test]
fn header_with_too_few_entries_is_invalid() {
    assert_eq!(Header::from_file(0, vec![]), Err(DecodeError::InvalidHeader));
    assert_eq!(Header::from_file(0, vec![5, 1, 1]), Err(DecodeError::InvalidHeader));
    // version 0, three entries
    assert_eq!(header(&[0, 3, 2, 2, 2]), Err(DecodeError::InvalidHeader));
}

#[test]
fn header_with_negative_field_is_invalid() {
    assert_eq!(Header::from_file(0, vec![-1, 1, 1, 2]), Err(DecodeError::InvalidHeader));
    assert_eq!(Header::from_file(0, vec![5, -1, 1, 2]), Err(DecodeError::InvalidHeader));
    assert_eq!(Header::from_file(0, vec![5, 1, -3, 2]), Err(DecodeError::InvalidHeader));
    assert_eq!(Header::from_file(0, vec![5, 1, 1, i64::MIN]), Err(DecodeError::InvalidHeader));
    assert!(Header::from_file(0, vec![5, 1, 1, 2, -7]).is_ok());
    let bytes = [0x52, 0x31, 0x43, 0x53, 0, 4, 10, 2, 1, 0, 0];
    assert_eq!(R1CS::decode(&bytes), Err(DecodeError::InvalidHeader));
}

#[test]
fn wrong_tag_is_rejected() {
    let mut bytes = xor_circuit().encode().unwrap();
    assert_eq!(Assignments::decode(&bytes).err(), Some(DecodeError::MalformedTag));
    bytes[3] = 0x54;
    assert_eq!(R1CS::decode(&bytes), Err(DecodeError::MalformedTag));
    let other = xor_assignments().encode().unwrap();
    assert_eq!(R1CS::decode(&other), Err(DecodeError::MalformedTag));
    assert_eq!(R1CS::decode(&[0x52, 0x31]), Err(DecodeError::MalformedTag));
    assert_eq!(Assignments::decode(&[]).err(), Some(DecodeError::MalformedTag));
}

#[test]
fn truncated_files_are_rejected() {
    let bytes = xor_circuit().encode().unwrap();
    for cut in 4..bytes.len() {
        assert_eq!(R1CS::decode(&bytes[..cut]), Err(DecodeError::TruncatedInput));
    }
    let bytes = xor_assignments().encode().unwrap();
    for cut in 4..bytes.len() {
        assert_eq!(Assignments::decode(&bytes[..cut]).err(), Some(DecodeError::TruncatedInput));
    }
}

#[test]
fn count_beyond_the_buffer_is_truncated() {
    // a combination that announces five terms and holds one
    assert_eq!(linear_combination(&[5, 0, 2]).err(), Some(DecodeError::TruncatedInput));
    // a count of 2^63 terms
    let huge = [128, 128, 128, 128, 128, 128, 128, 128, 128, 1, 0, 2];
    assert_eq!(linear_combination(&huge).err(), Some(DecodeError::TruncatedInput));
    assert_eq!(assignment_array(&[2, 2], 1, 1).err(), Some(DecodeError::TruncatedInput));
    assert_eq!(
        assignment_array(&[2, 2], u64::MAX, u64::MAX).err(),
        Some(DecodeError::TruncatedInput)
    );
}

#[test]
fn first_failure_wins() {
    let wide = [1, 255, 255, 255, 255, 255, 255, 255, 255, 255, 2];
    assert_eq!(linear_combination(&wide).err(), Some(DecodeError::IntegerOverflow));
}

#[test]
fn terms_are_taken_as_they_come() {
    // a zero coefficient, a repeated variable, witnesses before instances
    let bytes = [4, 2, 0, 2, 6, 1, 2, 0, 8, 99];
    let (rest, lc) = linear_combination(&bytes).unwrap();
    assert_eq!(rest, &[99u8][..]);
    assert_eq!(
        lc,
        LinearCombination(vec![
            (VariableIndex::Witness(0), Coefficient(0)),
            (VariableIndex::Witness(0), Coefficient(3)),
            (VariableIndex::Instance(0), Coefficient(1)),
            (VariableIndex::Constant, Coefficient(4)),
        ])
    );
}

#[test]
fn assignment_array_labels_in_order() {
    let (rest, a) = assignment_array(&[2, 4, 6, 8, 10, 12, 77], 2, 3).unwrap();
    assert_eq!(rest, &[77u8][..]);
    assert_eq!(
        a,
        vec![
            Assignment(VariableIndex::Constant, 1),
            Assignment(VariableIndex::Instance(0), 2),
            Assignment(VariableIndex::Instance(1), 3),
            Assignment(VariableIndex::Witness(0), 4),
            Assignment(VariableIndex::Witness(1), 5),
            Assignment(VariableIndex::Witness(2), 6),
        ]
    );
}

#[test]
fn decode_ignores_what_follows() {
    let mut bytes = xor_circuit().encode().unwrap();
    bytes.extend_from_slice(&[255, 255]);
    assert_eq!(R1CS::decode(&bytes).unwrap(), xor_circuit());
}

#[test]
fn empty_system_round_trips() {
    let r = R1CS(Header::from_file(1, vec![0, 0, 0, 0]).unwrap(), vec![]);
    let bytes = r.encode().unwrap();
    assert_eq!(bytes, vec![0x52, 0x31, 0x43, 0x53, 1, 4, 0, 0, 0, 0, 0]);
    assert_eq!(R1CS::decode(&bytes).unwrap(), r);
}

#[test]
fn gen_slice_writes_in_place() {
    let mut buf = [9u8; 6];
    assert_eq!(gen_slice((&mut buf, 2), &[1, 2, 3]).map(|r| r.1), Ok(5));
    assert_eq!(buf, [9, 9, 1, 2, 3, 9]);
    assert_eq!(gen_slice((&mut buf, 6), &[]).map(|r| r.1), Ok(6));
    assert_eq!(buf, [9, 9, 1, 2, 3, 9]);
    // the buffer comes back for the next write
    let (rest, end) = gen_slice((&mut buf, 0), &[4]).unwrap();
    assert_eq!(gen_slice((rest, end), &[5, 6]).map(|r| r.1), Ok(3));
    assert_eq!(buf, [4, 5, 6, 2, 3, 9]);
}

#[test]
fn gen_slice_reports_the_length_needed() {
    let mut buf = [9u8; 4];
    assert_eq!(gen_slice((&mut buf, 2), &[1, 2, 3]).err(), Some(GenError::BufferTooSmall(5)));
    assert_eq!(buf, [9, 9, 9, 9]);
    assert_eq!(gen_slice((&mut buf, 7), &[1]).err(), Some(GenError::BufferTooSmall(8)));
    assert_eq!(gen_slice((&mut buf, usize::MAX), &[1]).err(), Some(GenError::InvalidOffset));
    assert_eq!(buf, [9, 9, 9, 9]);
}

#[test]
fn gen_r1cs_into_a_buffer() {
    let r = xor_circuit();
    let bytes = r.encode().unwrap();
    let n = bytes.len();
    assert_eq!(n, 48);

    let mut small = vec![7u8; n - 1];
    assert_eq!(gen_r1cs((&mut small, 0), &r).err(), Some(GenError::BufferTooSmall(n)));
    assert_eq!(small, vec![7u8; n - 1]);

    let mut large = vec![7u8; n + 5];
    assert_eq!(gen_r1cs((&mut large, 3), &r).map(|r| r.1), Ok(n + 3));
    assert_eq!(&large[..3], &[7, 7, 7]);
    assert_eq!(&large[3..n + 3], &bytes[..]);
    assert_eq!(&large[n + 3..], &[7, 7]);
    assert_eq!(gen_r1cs((&mut large, 6), &r).err(), Some(GenError::BufferTooSmall(n + 6)));
}

#[test]
fn gen_assignments_into_a_buffer() {
    let a = xor_assignments();
    let mut empty: Vec<u8> = Vec::new();
    assert_eq!(gen_assignments((&mut empty, 0), &a).err(), Some(GenError::BufferTooSmall(16)));
    let mut buf = vec![0u8; 16];
    assert_eq!(gen_assignments((&mut buf, 0), &a).map(|r| r.1), Ok(16));
    assert_eq!(buf, a.encode().unwrap());
    assert_eq!(gen_assignments((&mut buf, usize::MAX), &a).err(), Some(GenError::InvalidOffset));
}

#[test]
fn what_is_read_is_well_formed() {
    let r = R1CS::decode(&xor_circuit().encode().unwrap()).unwrap();
    assert!(r.is_wf());
    let a = Assignments::decode(&xor_assignments().encode().unwrap()).unwrap();
    assert!(a.is_wf());
    // the extremes of the signed range are variables too
    let bytes = [1, 255, 255, 255, 255, 255, 255, 255, 255, 255, 1, 2];
    let (_, lc) = linear_combination(&bytes).unwrap();
    assert_eq!(
        lc,
        LinearCombination(vec![(VariableIndex::Instance(i64::MAX as u64), Coefficient(1))])
    );
    assert!(lc.is_wf());
}

#[test]
fn values_out_of_range_are_told_apart() {
    assert!(VariableIndex::Constant.is_wf());
    assert!(VariableIndex::Instance(i64::MAX as u64).is_wf());
    assert!(!VariableIndex::Instance(i64::MAX as u64 + 1).is_wf());
    assert!(VariableIndex::Witness(i64::MAX as u64 - 1).is_wf());
    assert!(!VariableIndex::Witness(i64::MAX as u64).is_wf());

    let mut r = xor_circuit();
    assert!(r.is_wf());
    r.1[2].c.0[1].0 = VariableIndex::Witness(u64::MAX);
    assert!(!r.1[2].is_wf());
    assert!(!r.is_wf());

    let mut r = xor_circuit();
    r.0.m = u64::MAX;
    assert!(!r.0.is_wf());
    assert!(!r.is_wf());
}

#[test]
fn assignment_lists_out_of_order_are_told_apart() {
    assert!(xor_assignments().is_wf());

    let mut a = xor_assignments();
    a.1.pop();
    assert!(!a.is_wf());

    let mut a = xor_assignments();
    a.1.swap(2, 3);
    assert!(!a.is_wf());

    let mut a = xor_assignments();
    a.1[1].0 = VariableIndex::Witness(0);
    assert!(!a.is_wf());

    let mut a = xor_assignments();
    a.1[0].1 = -5;
    assert!(a.is_wf());
}
