use zk::r1cs::text::{digit_str, push_decimal, push_digits, show_coefficient};
use zk::r1cs::{
    Assignment, Assignments, Coefficient, Constraint, Header, LinearCombination, VariableIndex,
    R1CS,
};

fn lc(terms: Vec<(VariableIndex, i64)>) -> LinearCombination {
    LinearCombination(terms.into_iter().map(|(v, c)| (v, Coefficient(c))).collect())
}

#[test]
fn numbers_in_decimal() {
    let mut s = String::new();
    push_digits(&mut s, 0);
    s.push(' ');
    push_digits(&mut s, 9);
    s.push(' ');
    push_digits(&mut s, 10);
    s.push(' ');
    push_digits(&mut s, 64513);
    s.push(' ');
    push_digits(&mut s, u64::MAX);
    assert_eq!(s, "0 9 10 64513 18446744073709551615");
    assert_eq!(digit_str(7), "7");
    assert_eq!(digit_str(40), "0");

    let mut s = String::from("n=");
    push_decimal(&mut s, -1);
    s.push(' ');
    push_decimal(&mut s, 0);
    s.push(' ');
    push_decimal(&mut s, i64::MIN);
    s.push(' ');
    push_decimal(&mut s, i64::MAX);
    assert_eq!(s, format!("n=-1 0 {} {}", i64::MIN, i64::MAX));
}

#[test]
fn coefficients_near_the_characteristic_are_negative() {
    assert_eq!(show_coefficient(64512, 64513), (true, 1));
    assert_eq!(show_coefficient(64503, 64513), (true, 10));
    assert_eq!(show_coefficient(64502, 64513), (false, 64502));
    assert_eq!(show_coefficient(64513, 64513), (false, 64513));
    assert_eq!(show_coefficient(-7, 64513), (true, 7));
    assert_eq!(show_coefficient(3, 64513), (false, 3));
    assert_eq!(show_coefficient(i64::MIN, 64513), (true, 1u64 << 63));
    assert_eq!(show_coefficient(-1, 0), (true, 1));
}

#[test]
fn linear_combination_text() {
    assert_eq!(lc(vec![]).fmt(64513), "0");
    assert_eq!(
        lc(vec![(VariableIndex::Constant, 1), (VariableIndex::Witness(0), -1)]).fmt(64513),
        "1 - w_0"
    );
    assert_eq!(lc(vec![(VariableIndex::Witness(0), 2)]).fmt(64513), "w_0 * 2");
    assert_eq!(
        lc(vec![
            (VariableIndex::Instance(0), -1),
            (VariableIndex::Witness(0), 1),
            (VariableIndex::Witness(1), 1),
        ])
        .fmt(64513),
        "-x_0 + w_0 + w_1"
    );
    assert_eq!(
        lc(vec![(VariableIndex::Witness(3), 64512), (VariableIndex::Instance(12), 64510)])
            .fmt(64513),
        "-w_3 - x_12 * 3"
    );
    // a constant term shows its coefficient as it is held
    assert_eq!(
        lc(vec![(VariableIndex::Witness(0), 5), (VariableIndex::Constant, -2)]).fmt(64513),
        "w_0 * 5 - -2"
    );
}

#[test]
fn constraint_text() {
    let c = Constraint {
        a: lc(vec![(VariableIndex::Constant, 1), (VariableIndex::Witness(0), -1)]),
        b: lc(vec![(VariableIndex::Witness(0), 1)]),
        c: lc(vec![]),
    };
    assert_eq!(c.fmt(64513), "(1 - w_0) * (w_0) = 0");
}

#[test]
fn assignment_text() {
    assert_eq!(Assignment(VariableIndex::Constant, 1).to_string(), "Constant = 1");
    assert_eq!(Assignment(VariableIndex::Instance(0), -4).to_string(), "x_0 = -4");
    assert_eq!(Assignment(VariableIndex::Witness(11), 0).to_string(), "w_11 = 0");
}

#[test]
fn r1cs_text() {
    let r = R1CS(
        Header::from_file(0, vec![64513, 1, 1, 2]).unwrap(),
        vec![
            Constraint {
                a: lc(vec![(VariableIndex::Constant, 1), (VariableIndex::Witness(1), -1)]),
                b: lc(vec![(VariableIndex::Witness(1), 1)]),
                c: lc(vec![(VariableIndex::Constant, 0)]),
            },
            Constraint {
                a: lc(vec![(VariableIndex::Witness(0), 2)]),
                b: lc(vec![(VariableIndex::Witness(1), 1)]),
                c: lc(vec![
                    (VariableIndex::Instance(0), -1),
                    (VariableIndex::Witness(0), 1),
                    (VariableIndex::Witness(1), 1),
                ]),
            },
        ],
    );
    let expected = "Version:           0\n\
                    Characteristic:    64513\n\
                    Degree:            1\n\
                    Input variables:   1\n\
                    Witness variables: 2\n\
                    Constraints:\n  \
                    (1 - w_1) * (w_1) = 0\n  \
                    (w_0 * 2) * (w_1) = -x_0 + w_0 + w_1\n";
    assert_eq!(r.to_string(), expected);
}

#[test]
fn assignments_text() {
    let a = Assignments(
        Header::from_file(2, vec![7, 1, 1, 1]).unwrap(),
        vec![
            Assignment(VariableIndex::Constant, 1),
            Assignment(VariableIndex::Instance(0), 6),
            Assignment(VariableIndex::Witness(0), -3),
        ],
    );
    let expected = "Version:           2\n\
                    Characteristic:    7\n\
                    Degree:            1\n\
                    Input variables:   1\n\
                    Witness variables: 1\n\
                    Assignments:\n  \
                    Constant = 1\n  \
                    x_0 = 6\n  \
                    w_0 = -3\n";
    assert_eq!(a.to_string(), expected);
}
