//! Constraint systems and assignments as text for a reader.
use vstd::prelude::*;
use vstd::string::*;
use crate::r1cs::{
    Assignment, Assignments, AssignmentsView, Coefficient, Constraint, ConstraintView, Header,
    HeaderView, LinearCombination, R1CS, R1CSView, VariableIndex, constraints_view,
};

verus! {

/// The character of a decimal digit.
pub open spec fn digit(d: nat) -> char {
    if d == 0 {
        '0'
    } else if d == 1 {
        '1'
    } else if d == 2 {
        '2'
    } else if d == 3 {
        '3'
    } else if d == 4 {
        '4'
    } else if d == 5 {
        '5'
    } else if d == 6 {
        '6'
    } else if d == 7 {
        '7'
    } else if d == 8 {
        '8'
    } else {
        '9'
    }
}

/// A natural number in decimal, without leading zeros.
pub open spec fn digits(n: nat) -> Seq<char>
    decreases n,
{
    if n < 10 {
        seq![digit(n)]
    } else {
        digits(n / 10).push(digit(n % 10))
    }
}

/// An integer in decimal, with a minus sign in front if it is negative.
pub open spec fn decimal(n: int) -> Seq<char> {
    if n < 0 {
        seq!['-'] + digits((-n) as nat)
    } else {
        digits(n as nat)
    }
}

/// How a coefficient is shown under a field of the given characteristic:
/// whether with a minus sign, and with which magnitude. A coefficient that
/// lies at most ten below the characteristic is shown as the small negative
/// number that it stands for in the field.
pub open spec fn shown_coefficient(k: i64, characteristic: u64) -> (bool, nat) {
    if 1 <= characteristic - k <= 10 {
        (true, (characteristic - k) as nat)
    } else if k < 0 {
        (true, (-k) as nat)
    } else {
        (false, k as nat)
    }
}

/// The name of a variable followed by the factor `k`, which is left out if
/// it is one.
pub open spec fn variable_text(name: Seq<char>, j: u64, k: nat) -> Seq<char> {
    if k == 1 {
        name + digits(j as nat)
    } else {
        name + digits(j as nat) + " * "@ + digits(k)
    }
}

/// The text of the term at position `i` of a linear combination: the sign
/// that joins it to what stands before it, then the term. A constant term
/// shows its coefficient as it is held.
pub open spec fn term_text(i: int, t: (VariableIndex, Coefficient), characteristic: u64) -> Seq<
    char,
> {
    let (negate, k) = shown_coefficient(t.1.0, characteristic);
    let sign = if negate {
        if i > 0 {
            " - "@
        } else {
            "-"@
        }
    } else if i > 0 {
        " + "@
    } else {
        Seq::<char>::empty()
    };
    sign + match t.0 {
        VariableIndex::Constant => decimal(t.1.0 as int),
        VariableIndex::Instance(j) => variable_text("x_"@, j, k),
        VariableIndex::Witness(j) => variable_text("w_"@, j, k),
    }
}

/// The text of the first `n` terms of a linear combination.
pub open spec fn terms_text(
    lc: Seq<(VariableIndex, Coefficient)>,
    n: nat,
    characteristic: u64,
) -> Seq<char>
    decreases n,
{
    if n == 0 {
        Seq::<char>::empty()
    } else {
        terms_text(lc, (n - 1) as nat, characteristic) + term_text(
            n - 1,
            lc[n - 1],
            characteristic,
        )
    }
}

/// The text of a linear combination: its terms, or `0` if it has none.
pub open spec fn lc_text(lc: Seq<(VariableIndex, Coefficient)>, characteristic: u64) -> Seq<char> {
    if lc.len() == 0 {
        "0"@
    } else {
        terms_text(lc, lc.len(), characteristic)
    }
}

/// The text of a constraint: `(a) * (b) = c`.
pub open spec fn constraint_text(c: ConstraintView, characteristic: u64) -> Seq<char> {
    "("@ + lc_text(c.a, characteristic) + ") * ("@ + lc_text(c.b, characteristic) + ") = "@
        + lc_text(c.c, characteristic)
}

/// The text of an assignment: the variable, then its value.
pub open spec fn assignment_text(a: Assignment) -> Seq<char> {
    match a.0 {
        VariableIndex::Constant => "Constant = "@ + decimal(a.1 as int),
        VariableIndex::Instance(i) => "x_"@ + digits(i as nat) + " = "@ + decimal(a.1 as int),
        VariableIndex::Witness(i) => "w_"@ + digits(i as nat) + " = "@ + decimal(a.1 as int),
    }
}

/// The five lines that show the known fields of a header.
pub open spec fn header_text(h: HeaderView) -> Seq<char> {
    "Version:           "@ + digits(h.v as nat) + "\n"@ + "Characteristic:    "@ + digits(
        h.p as nat,
    ) + "\n"@ + "Degree:            "@ + digits(h.m as nat) + "\n"@ + "Input variables:   "@
        + digits(h.nx as nat) + "\n"@ + "Witness variables: "@ + digits(h.nw as nat) + "\n"@
}

/// The lines of the first `n` constraints, each indented by two spaces.
pub open spec fn constraint_lines(cs: Seq<ConstraintView>, n: nat, characteristic: u64) -> Seq<
    char,
>
    decreases n,
{
    if n == 0 {
        Seq::<char>::empty()
    } else {
        constraint_lines(cs, (n - 1) as nat, characteristic) + "  "@ + constraint_text(
            cs[n - 1],
            characteristic,
        ) + "\n"@
    }
}

/// The text of a constraint system: its header, then its constraints.
pub open spec fn r1cs_text(r: R1CSView) -> Seq<char> {
    header_text(r.header) + "Constraints:\n"@ + constraint_lines(
        r.constraints,
        r.constraints.len(),
        r.header.p,
    )
}

/// The lines of the first `n` assignments, each indented by two spaces.
pub open spec fn assignment_lines(a: Seq<Assignment>, n: nat) -> Seq<char>
    decreases n,
{
    if n == 0 {
        Seq::<char>::empty()
    } else {
        assignment_lines(a, (n - 1) as nat) + "  "@ + assignment_text(a[n - 1]) + "\n"@
    }
}

/// The text of an assignment list: its header, then its assignments.
pub open spec fn assignments_text(a: AssignmentsView) -> Seq<char> {
    header_text(a.header) + "Assignments:\n"@ + assignment_lines(
        a.assignments,
        a.assignments.len(),
    )
}

/// The last decimal digit of `d`.
pub fn digit_str(d: u64) -> (s: &'static str)
    ensures
        s@ == seq![digit((d % 10) as nat)],
{
    proof {
        reveal_strlit("0");
        reveal_strlit("1");
        reveal_strlit("2");
        reveal_strlit("3");
        reveal_strlit("4");
        reveal_strlit("5");
        reveal_strlit("6");
        reveal_strlit("7");
        reveal_strlit("8");
        reveal_strlit("9");
    }
    let r = d % 10;
    let s = if r == 0 {
        "0"
    } else if r == 1 {
        "1"
    } else if r == 2 {
        "2"
    } else if r == 3 {
        "3"
    } else if r == 4 {
        "4"
    } else if r == 5 {
        "5"
    } else if r == 6 {
        "6"
    } else if r == 7 {
        "7"
    } else if r == 8 {
        "8"
    } else {
        "9"
    };
    proof {
        assert(s@ =~= seq![digit(r as nat)]);
    }
    s
}

/// Appends `n` in decimal.
pub fn push_digits(out: &mut String, n: u64)
    ensures
        final(out)@ == old(out)@ + digits(n as nat),
    decreases n,
{
    if n >= 10 {
        push_digits(out, n / 10);
    }
    out.append(digit_str(n));
    proof {
        assert(final(out)@ =~= old(out)@ + digits(n as nat));
    }
}

/// Appends `n` in decimal, with its sign if it is negative.
pub fn push_decimal(out: &mut String, n: i64)
    ensures
        final(out)@ == old(out)@ + decimal(n as int),
{
    if n < 0 {
        proof {
            reveal_strlit("-");
            assert("-"@ =~= seq!['-']);
        }
        out.append("-");
        push_digits(out, (-(n as i128)) as u64);
        proof {
            assert(final(out)@ =~= old(out)@ + decimal(n as int));
        }
    } else {
        push_digits(out, n as u64);
    }
}

/// Decides how a coefficient is shown: whether with a minus sign, and with
/// which magnitude.
pub fn show_coefficient(k: i64, characteristic: u64) -> (res: (bool, u64))
    ensures
        res.0 == shown_coefficient(k, characteristic).0,
        res.1 == shown_coefficient(k, characteristic).1,
{
    let d: i128 = characteristic as i128 - k as i128;
    if 1 <= d && d <= 10 {
        (true, d as u64)
    } else if k < 0 {
        (true, (-(k as i128)) as u64)
    } else {
        (false, k as u64)
    }
}

impl LinearCombination {
    /// The linear combination as text, for a field of the given
    /// characteristic.
    pub fn fmt(&self, characteristic: u64) -> (s: String)
        ensures
            s@ == lc_text(self@, characteristic),
    {
        let mut s = String::new();
        if self.0.len() == 0 {
            s.append("0");
            proof {
                assert(s@ =~= "0"@);
            }
            return s;
        }
        let mut i: usize = 0;
        while i < self.0.len()
            invariant
                i <= self@.len(),
                s@ == terms_text(self@, i as nat, characteristic),
            decreases self@.len() - i,
        {
            let ghost before = s@;
            let v = self.0[i].0;
            let c = self.0[i].1;
            let (negate, k) = show_coefficient(c.0, characteristic);
            if negate {
                if i > 0 {
                    s.append(" - ");
                } else {
                    s.append("-");
                }
            } else if i > 0 {
                s.append(" + ");
            }
            match v {
                VariableIndex::Constant => {
                    push_decimal(&mut s, c.0);
                },
                VariableIndex::Instance(j) => {
                    s.append("x_");
                    push_digits(&mut s, j);
                    if k != 1 {
                        s.append(" * ");
                        push_digits(&mut s, k);
                    }
                },
                VariableIndex::Witness(j) => {
                    s.append("w_");
                    push_digits(&mut s, j);
                    if k != 1 {
                        s.append(" * ");
                        push_digits(&mut s, k);
                    }
                },
            }
            proof {
                assert(s@ =~= before + term_text(i as int, self@[i as int], characteristic));
            }
            i = i + 1;
        }
        s
    }
}

impl Constraint {
    /// The constraint as text, for a field of the given characteristic.
    pub fn fmt(&self, characteristic: u64) -> (s: String)
        ensures
            s@ == constraint_text(self@, characteristic),
    {
        let mut s = String::new();
        s.append("(");
        s.append(self.a.fmt(characteristic).as_str());
        s.append(") * (");
        s.append(self.b.fmt(characteristic).as_str());
        s.append(") = ");
        s.append(self.c.fmt(characteristic).as_str());
        proof {
            assert(s@ =~= constraint_text(self@, characteristic));
        }
        s
    }
}

impl Assignment {
    /// The assignment as text.
    pub fn to_string(&self) -> (s: String)
        ensures
            s@ == assignment_text(*self),
    {
        let mut s = String::new();
        match self.0 {
            VariableIndex::Constant => {
                s.append("Constant = ");
            },
            VariableIndex::Instance(i) => {
                s.append("x_");
                push_digits(&mut s, i);
                s.append(" = ");
            },
            VariableIndex::Witness(i) => {
                s.append("w_");
                push_digits(&mut s, i);
                s.append(" = ");
            },
        }
        push_decimal(&mut s, self.1);
        proof {
            assert(s@ =~= assignment_text(*self));
        }
        s
    }
}

impl Header {
    /// The five lines that show the known fields of the header.
    pub fn to_string(&self) -> (s: String)
        ensures
            s@ == header_text(self@),
    {
        let mut s = String::new();
        s.append("Version:           ");
        push_digits(&mut s, self.v as u64);
        s.append("\n");
        s.append("Characteristic:    ");
        push_digits(&mut s, self.p);
        s.append("\n");
        s.append("Degree:            ");
        push_digits(&mut s, self.m);
        s.append("\n");
        s.append("Input variables:   ");
        push_digits(&mut s, self.nx);
        s.append("\n");
        s.append("Witness variables: ");
        push_digits(&mut s, self.nw);
        s.append("\n");
        proof {
            assert(s@ =~= header_text(self@));
        }
        s
    }
}

impl R1CS {
    /// The constraint system as text: the header, then one line for each
    /// constraint.
    pub fn to_string(&self) -> (s: String)
        ensures
            s@ == r1cs_text(self@),
    {
        let mut s = self.0.to_string();
        s.append("Constraints:\n");
        let ghost base = s@;
        let ghost cs = constraints_view(self.1@);
        let mut i: usize = 0;
        proof {
            assert(s@ =~= base + constraint_lines(cs, 0, self.0.p));
        }
        while i < self.1.len()
            invariant
                i <= self.1@.len(),
                cs == constraints_view(self.1@),
                s@ == base + constraint_lines(cs, i as nat, self.0.p),
            decreases self.1@.len() - i,
        {
            s.append("  ");
            s.append(self.1[i].fmt(self.0.p).as_str());
            s.append("\n");
            proof {
                assert(s@ =~= base + constraint_lines(cs, (i + 1) as nat, self.0.p));
            }
            i = i + 1;
        }
        s
    }
}

impl Assignments {
    /// The assignment list as text: the header, then one line for each
    /// assignment.
    pub fn to_string(&self) -> (s: String)
        ensures
            s@ == assignments_text(self@),
    {
        let mut s = self.0.to_string();
        s.append("Assignments:\n");
        let ghost base = s@;
        let mut i: usize = 0;
        proof {
            assert(s@ =~= base + assignment_lines(self.1@, 0));
        }
        while i < self.1.len()
            invariant
                i <= self.1@.len(),
                s@ == base + assignment_lines(self.1@, i as nat),
            decreases self.1@.len() - i,
        {
            s.append("  ");
            s.append(self.1[i].to_string().as_str());
            s.append("\n");
            proof {
                assert(s@ =~= base + assignment_lines(self.1@, (i + 1) as nat));
            }
            i = i + 1;
        }
        s
    }
}

} // verus!
