//! The byte format: what the bytes of each structure are, how they are read
//! back, and the functions that write and read them.
use vstd::prelude::*;
use vstd::slice::slice_subrange;
use crate::error::{DecodeError, GenError};
use crate::r1cs::{
    Assignment, Assignments, AssignmentsView, Coefficient, Constraint, ConstraintView, Header,
    HeaderView, LinearCombination, R1CS, R1CSView, VariableIndex, assigned_values,
    constraints_view, label_values, terms_wf,
};
use crate::varint::{
    i64_to_bits, parse_vli64, parse_vlusize, usize_to_bits, varint, vli64, vlusize, zigzag,
};

verus! {

/// The four bytes `R1CS` that open a constraint-system file.
pub open spec fn magic_r1cs() -> Seq<u8> {
    seq![0x52u8, 0x31u8, 0x43u8, 0x53u8]
}

/// The four bytes `R1as` that open an assignments file.
pub open spec fn magic_assignments() -> Seq<u8> {
    seq![0x52u8, 0x31u8, 0x61u8, 0x73u8]
}

/// The bytes of the elements of `xs`, one after the other, each written by
/// `f`.
pub open spec fn ser_seq<T>(xs: Seq<T>, f: spec_fn(T) -> Seq<u8>) -> Seq<u8>
    decreases xs.len(),
{
    if xs.len() == 0 {
        Seq::<u8>::empty()
    } else {
        ser_seq(xs.drop_last(), f) + f(xs.last())
    }
}

/// Reading `n` elements in a row with `p`: the first failure is the failure
/// of the whole, and otherwise the elements come with the rest that the last
/// of them left unread.
pub open spec fn parse_seq<T>(
    s: Seq<u8>,
    n: nat,
    p: spec_fn(Seq<u8>) -> Result<(T, Seq<u8>), DecodeError>,
) -> Result<(Seq<T>, Seq<u8>), DecodeError>
    decreases n,
{
    if n == 0 {
        Ok((Seq::<T>::empty(), s))
    } else {
        match parse_seq(s, (n - 1) as nat, p) {
            Err(e) => Err(e),
            Ok((xs, rest)) => match p(rest) {
                Err(e) => Err(e),
                Ok((x, rest)) => Ok((xs.push(x), rest)),
            },
        }
    }
}

/// The bytes of a signed integer.
pub open spec fn ser_i64(n: i64) -> Seq<u8> {
    varint(zigzag(n as int))
}

/// [`ser_i64`] as a function value.
pub open spec fn i64_ser() -> spec_fn(i64) -> Seq<u8> {
    |n: i64| ser_i64(n)
}

/// [`parse_vli64`] as a function value.
pub open spec fn i64_parser() -> spec_fn(Seq<u8>) -> Result<(i64, Seq<u8>), DecodeError> {
    |s: Seq<u8>| parse_vli64(s)
}

/// The bytes of one term: the number of its variable, then its coefficient.
pub open spec fn ser_term(t: (VariableIndex, Coefficient)) -> Seq<u8> {
    ser_i64(t.0.number()) + ser_i64(t.1.0)
}

/// Reading one term.
pub open spec fn parse_term(s: Seq<u8>) -> Result<
    ((VariableIndex, Coefficient), Seq<u8>),
    DecodeError,
> {
    match parse_vli64(s) {
        Err(e) => Err(e),
        Ok((i, rest)) => match parse_vli64(rest) {
            Err(e) => Err(e),
            Ok((c, rest)) => Ok(((VariableIndex::of_number(i), Coefficient(c)), rest)),
        },
    }
}

/// [`ser_term`] as a function value.
pub open spec fn term_ser() -> spec_fn((VariableIndex, Coefficient)) -> Seq<u8> {
    |t: (VariableIndex, Coefficient)| ser_term(t)
}

/// [`parse_term`] as a function value.
pub open spec fn term_parser() -> spec_fn(Seq<u8>) -> Result<
    ((VariableIndex, Coefficient), Seq<u8>),
    DecodeError,
> {
    |s: Seq<u8>| parse_term(s)
}

/// The bytes of a linear combination: the number of its terms, then the
/// terms.
pub open spec fn ser_lc(lc: Seq<(VariableIndex, Coefficient)>) -> Seq<u8> {
    varint(lc.len()) + ser_seq(lc, term_ser())
}

/// Reading one linear combination.
pub open spec fn parse_lc(s: Seq<u8>) -> Result<
    (Seq<(VariableIndex, Coefficient)>, Seq<u8>),
    DecodeError,
> {
    match parse_vlusize(s) {
        Err(e) => Err(e),
        Ok((n, rest)) => parse_seq(rest, n as nat, term_parser()),
    }
}

/// The bytes of a constraint: its three linear combinations.
pub open spec fn ser_constraint(c: ConstraintView) -> Seq<u8> {
    ser_lc(c.a) + ser_lc(c.b) + ser_lc(c.c)
}

/// Reading one constraint.
pub open spec fn parse_constraint(s: Seq<u8>) -> Result<(ConstraintView, Seq<u8>), DecodeError> {
    match parse_lc(s) {
        Err(e) => Err(e),
        Ok((a, rest)) => match parse_lc(rest) {
            Err(e) => Err(e),
            Ok((b, rest)) => match parse_lc(rest) {
                Err(e) => Err(e),
                Ok((c, rest)) => Ok((ConstraintView { a, b, c }, rest)),
            },
        },
    }
}

/// [`ser_constraint`] as a function value.
pub open spec fn constraint_ser() -> spec_fn(ConstraintView) -> Seq<u8> {
    |c: ConstraintView| ser_constraint(c)
}

/// [`parse_constraint`] as a function value.
pub open spec fn constraint_parser() -> spec_fn(Seq<u8>) -> Result<
    (ConstraintView, Seq<u8>),
    DecodeError,
> {
    |s: Seq<u8>| parse_constraint(s)
}

/// The bytes of a header: the version, the number of entries, the entries.
pub open spec fn ser_header(h: HeaderView) -> Seq<u8> {
    varint(h.v as nat) + varint(h.to_file().len()) + ser_seq(h.to_file(), i64_ser())
}

/// Reading one header.
pub open spec fn parse_header(s: Seq<u8>) -> Result<(HeaderView, Seq<u8>), DecodeError> {
    match parse_vlusize(s) {
        Err(e) => Err(e),
        Ok((v, rest)) => match parse_vlusize(rest) {
            Err(e) => Err(e),
            Ok((n, rest)) => match parse_seq(rest, n as nat, i64_parser()) {
                Err(e) => Err(e),
                Ok((entries, rest)) => match HeaderView::from_file(v, entries) {
                    Err(e) => Err(e),
                    Ok(h) => Ok((h, rest)),
                },
            },
        },
    }
}

/// Taking the tag `magic` off the front of `s`.
pub open spec fn parse_tag(s: Seq<u8>, magic: Seq<u8>) -> Result<Seq<u8>, DecodeError> {
    if s.len() >= magic.len() && s.take(magic.len() as int) == magic {
        Ok(s.skip(magic.len() as int))
    } else {
        Err(DecodeError::MalformedTag)
    }
}

/// The bytes of a constraint-system file.
pub open spec fn ser_r1cs(r: R1CSView) -> Seq<u8> {
    magic_r1cs() + ser_header(r.header) + varint(r.constraints.len()) + ser_seq(
        r.constraints,
        constraint_ser(),
    )
}

/// Reading a constraint-system file.
pub open spec fn parse_r1cs(s: Seq<u8>) -> Result<(R1CSView, Seq<u8>), DecodeError> {
    match parse_tag(s, magic_r1cs()) {
        Err(e) => Err(e),
        Ok(rest) => match parse_header(rest) {
            Err(e) => Err(e),
            Ok((header, rest)) => match parse_vlusize(rest) {
                Err(e) => Err(e),
                Ok((n, rest)) => match parse_seq(rest, n as nat, constraint_parser()) {
                    Err(e) => Err(e),
                    Ok((constraints, rest)) => Ok((R1CSView { header, constraints }, rest)),
                },
            },
        },
    }
}

/// Reading the values of an assignments file: one for the constant, `nx` for
/// the instance variables, `nw` for the witness variables, each put under
/// its variable.
pub open spec fn parse_assignment_array(s: Seq<u8>, nx: u64, nw: u64) -> Result<
    (Seq<Assignment>, Seq<u8>),
    DecodeError,
> {
    match parse_seq(s, 1, i64_parser()) {
        Err(e) => Err(e),
        Ok((c, rest)) => match parse_seq(rest, nx as nat, i64_parser()) {
            Err(e) => Err(e),
            Ok((x, rest)) => match parse_seq(rest, nw as nat, i64_parser()) {
                Err(e) => Err(e),
                Ok((w, rest)) => Ok((label_values(c + x + w, nx as int), rest)),
            },
        },
    }
}

/// The bytes of an assignments file: the values follow the header with no
/// count of their own.
pub open spec fn ser_assignments(a: AssignmentsView) -> Seq<u8> {
    magic_assignments() + ser_header(a.header) + ser_seq(
        assigned_values(a.assignments),
        i64_ser(),
    )
}

/// Reading an assignments file.
pub open spec fn parse_assignments(s: Seq<u8>) -> Result<(AssignmentsView, Seq<u8>), DecodeError> {
    match parse_tag(s, magic_assignments()) {
        Err(e) => Err(e),
        Ok(rest) => match parse_header(rest) {
            Err(e) => Err(e),
            Ok((header, rest)) => match parse_assignment_array(rest, header.nx, header.nw) {
                Err(e) => Err(e),
                Ok((assignments, rest)) => Ok((AssignmentsView { header, assignments }, rest)),
            },
        },
    }
}

/// Once reading a run of elements has failed, asking for more of them fails
/// in the same way.
pub proof fn lemma_parse_seq_fails<T>(
    s: Seq<u8>,
    i: nat,
    n: nat,
    p: spec_fn(Seq<u8>) -> Result<(T, Seq<u8>), DecodeError>,
)
    requires
        i <= n,
        parse_seq(s, i, p) is Err,
    ensures
        parse_seq(s, n, p) == parse_seq(s, i, p),
    decreases n,
{
    if i < n {
        lemma_parse_seq_fails(s, i, (n - 1) as nat, p);
    }
}

/// Reading `n` elements gives `n` elements.
pub proof fn lemma_parse_seq_len<T>(
    s: Seq<u8>,
    n: nat,
    p: spec_fn(Seq<u8>) -> Result<(T, Seq<u8>), DecodeError>,
)
    ensures
        parse_seq(s, n, p) matches Ok(r) ==> r.0.len() == n,
    decreases n,
{
    if n > 0 {
        lemma_parse_seq_len(s, (n - 1) as nat, p);
    }
}

/// The bytes of a list with one more element are the bytes of the list and
/// then those of the element.
pub proof fn lemma_ser_seq_push<T>(xs: Seq<T>, x: T, f: spec_fn(T) -> Seq<u8>)
    ensures
        ser_seq(xs.push(x), f) == ser_seq(xs, f) + f(x),
{
    assert(xs.push(x).drop_last() =~= xs);
}

/// Reads the reference to a variable.
pub fn variable_index(input: &[u8]) -> (res: Result<(&[u8], VariableIndex), DecodeError>)
    ensures
        match parse_vli64(input@) {
            Ok((n, rest)) => res is Ok && res->Ok_0.1 == VariableIndex::of_number(n)
                && res->Ok_0.0@ == rest,
            Err(e) => res is Err && res->Err_0 == e,
        },
{
    match vli64(input) {
        Ok((rest, n)) => Ok((rest, VariableIndex::from(n))),
        Err(e) => Err(e),
    }
}

/// Reads a coefficient.
pub fn coefficient(input: &[u8]) -> (res: Result<(&[u8], Coefficient), DecodeError>)
    ensures
        match parse_vli64(input@) {
            Ok((n, rest)) => res is Ok && res->Ok_0.1 == Coefficient(n) && res->Ok_0.0@ == rest,
            Err(e) => res is Err && res->Err_0 == e,
        },
{
    match vli64(input) {
        Ok((rest, n)) => Ok((rest, Coefficient(n))),
        Err(e) => Err(e),
    }
}

/// Reads one term of a linear combination.
pub fn linear_combination_entry(input: &[u8]) -> (res: Result<
    (&[u8], (VariableIndex, Coefficient)),
    DecodeError,
>)
    ensures
        match parse_term(input@) {
            Ok((t, rest)) => res is Ok && res->Ok_0.1 == t && res->Ok_0.0@ == rest,
            Err(e) => res is Err && res->Err_0 == e,
        },
{
    match variable_index(input) {
        Err(e) => Err(e),
        Ok((rest, i)) => match coefficient(rest) {
            Err(e) => Err(e),
            Ok((rest, c)) => Ok((rest, (i, c))),
        },
    }
}

/// Reads a linear combination: a count, then as many terms. The terms are
/// taken as they come: neither their order nor their coefficients are
/// checked.
#[verifier::loop_isolation(false)]
pub fn linear_combination(input: &[u8]) -> (res: Result<(&[u8], LinearCombination), DecodeError>)
    ensures
        match parse_lc(input@) {
            Ok((lc, rest)) => res is Ok && res->Ok_0.1@ == lc && res->Ok_0.0@ == rest,
            Err(e) => res is Err && res->Err_0 == e,
        },
{
    let (start, n) = match vlusize(input) {
        Ok(r) => r,
        Err(e) => {
            return Err(e);
        },
    };
    let mut terms: Vec<(VariableIndex, Coefficient)> = Vec::new();
    let mut rest: &[u8] = start;
    let mut i: usize = 0;
    while i < n
        invariant
            i <= n,
            parse_seq(start@, i as nat, term_parser()) == Ok::<
                (Seq<(VariableIndex, Coefficient)>, Seq<u8>),
                DecodeError,
            >((terms@, rest@)),
        decreases n - i,
    {
        match linear_combination_entry(rest) {
            Err(e) => {
                proof {
                    lemma_parse_seq_fails(start@, (i + 1) as nat, n as nat, term_parser());
                }
                return Err(e);
            },
            Ok((r, t)) => {
                terms.push(t);
                rest = r;
            },
        }
        i = i + 1;
    }
    Ok((rest, LinearCombination(terms)))
}

/// Reads a constraint: three linear combinations.
pub fn constraint(input: &[u8]) -> (res: Result<(&[u8], Constraint), DecodeError>)
    ensures
        match parse_constraint(input@) {
            Ok((c, rest)) => res is Ok && res->Ok_0.1@ == c && res->Ok_0.0@ == rest,
            Err(e) => res is Err && res->Err_0 == e,
        },
{
    let (rest, a) = match linear_combination(input) {
        Ok(r) => r,
        Err(e) => {
            return Err(e);
        },
    };
    let (rest, b) = match linear_combination(rest) {
        Ok(r) => r,
        Err(e) => {
            return Err(e);
        },
    };
    let (rest, c) = match linear_combination(rest) {
        Ok(r) => r,
        Err(e) => {
            return Err(e);
        },
    };
    Ok((rest, Constraint { a, b, c }))
}

/// Reads `n` signed integers in a row.
pub fn count_vli64(input: &[u8], n: u64) -> (res: Result<(&[u8], Vec<i64>), DecodeError>)
    ensures
        match parse_seq(input@, n as nat, i64_parser()) {
            Ok((xs, rest)) => res is Ok && res->Ok_0.1@ == xs && res->Ok_0.0@ == rest,
            Err(e) => res is Err && res->Err_0 == e,
        },
{
    let mut values: Vec<i64> = Vec::new();
    let mut rest: &[u8] = input;
    let mut i: u64 = 0;
    while i < n
        invariant
            i <= n,
            parse_seq(input@, i as nat, i64_parser()) == Ok::<(Seq<i64>, Seq<u8>), DecodeError>(
                (values@, rest@),
            ),
        decreases n - i,
    {
        match vli64(rest) {
            Err(e) => {
                proof {
                    lemma_parse_seq_fails(input@, (i + 1) as nat, n as nat, i64_parser());
                }
                return Err(e);
            },
            Ok((r, v)) => {
                values.push(v);
                rest = r;
            },
        }
        i = i + 1;
    }
    Ok((rest, values))
}

/// Reads a header: the version, then a counted list of signed integers of
/// which the first four are the known fields.
pub fn header(input: &[u8]) -> (res: Result<(&[u8], Header), DecodeError>)
    ensures
        match parse_header(input@) {
            Ok((h, rest)) => res is Ok && res->Ok_0.1@ == h && res->Ok_0.0@ == rest,
            Err(e) => res is Err && res->Err_0 == e,
        },
{
    let (rest, v) = match vlusize(input) {
        Ok(r) => r,
        Err(e) => {
            return Err(e);
        },
    };
    let (rest, n) = match vlusize(rest) {
        Ok(r) => r,
        Err(e) => {
            return Err(e);
        },
    };
    let (rest, entries) = match count_vli64(rest, n as u64) {
        Ok(r) => r,
        Err(e) => {
            return Err(e);
        },
    };
    match Header::from_file(v, entries) {
        Ok(h) => Ok((rest, h)),
        Err(e) => Err(e),
    }
}

/// Takes the four bytes of a tag off the front of `input`.
pub fn tag(input: &[u8], magic: [u8; 4]) -> (res: Result<&[u8], DecodeError>)
    ensures
        match parse_tag(input@, magic@) {
            Ok(rest) => res is Ok && res->Ok_0@ == rest,
            Err(e) => res is Err && res->Err_0 == e,
        },
{
    if input.len() < 4 || input[0] != magic[0] || input[1] != magic[1] || input[2] != magic[2]
        || input[3] != magic[3] {
        Err(DecodeError::MalformedTag)
    } else {
        proof {
            assert(input@.take(4) =~= magic@);
        }
        Ok(slice_subrange(input, 4, input.len()))
    }
}

/// Reads a constraint-system file: the tag, the header, a count, and as many
/// constraints.
#[verifier::loop_isolation(false)]
pub fn r1cs(input: &[u8]) -> (res: Result<(&[u8], R1CS), DecodeError>)
    ensures
        match parse_r1cs(input@) {
            Ok((r, rest)) => res is Ok && res->Ok_0.1@ == r && res->Ok_0.0@ == rest,
            Err(e) => res is Err && res->Err_0 == e,
        },
{
    let magic: [u8; 4] = [0x52, 0x31, 0x43, 0x53];
    proof {
        assert(magic@ =~= magic_r1cs());
    }
    let rest = match tag(input, magic) {
        Ok(r) => r,
        Err(e) => {
            return Err(e);
        },
    };
    let (rest, h) = match header(rest) {
        Ok(r) => r,
        Err(e) => {
            return Err(e);
        },
    };
    let (start, n) = match vlusize(rest) {
        Ok(r) => r,
        Err(e) => {
            return Err(e);
        },
    };
    let mut constraints: Vec<Constraint> = Vec::new();
    let mut rest: &[u8] = start;
    let mut i: usize = 0;
    proof {
        assert(constraints_view(constraints@) =~= Seq::<ConstraintView>::empty());
    }
    while i < n
        invariant
            i <= n,
            parse_seq(start@, i as nat, constraint_parser()) == Ok::<
                (Seq<ConstraintView>, Seq<u8>),
                DecodeError,
            >((constraints_view(constraints@), rest@)),
        decreases n - i,
    {
        match constraint(rest) {
            Err(e) => {
                proof {
                    lemma_parse_seq_fails(start@, (i + 1) as nat, n as nat, constraint_parser());
                }
                return Err(e);
            },
            Ok((r, c)) => {
                proof {
                    assert(constraints_view(constraints@.push(c)) =~= constraints_view(
                        constraints@,
                    ).push(c@));
                }
                constraints.push(c);
                rest = r;
            },
        }
        i = i + 1;
    }
    Ok((rest, R1CS(h, constraints)))
}

/// Reads the values of an assignments file, `1 + nx + nw` signed integers,
/// and puts each under its variable: the constant, the instance variables
/// from 0 up, the witness variables from 0 up.
#[verifier::loop_isolation(false)]
pub fn assignment_array(input: &[u8], nx: u64, nw: u64) -> (res: Result<
    (&[u8], Vec<Assignment>),
    DecodeError,
>)
    ensures
        match parse_assignment_array(input@, nx, nw) {
            Ok((a, rest)) => res is Ok && res->Ok_0.1@ == a && res->Ok_0.0@ == rest,
            Err(e) => res is Err && res->Err_0 == e,
        },
{
    let (rest, c) = match count_vli64(input, 1) {
        Ok(r) => r,
        Err(e) => {
            return Err(e);
        },
    };
    let (rest, x) = match count_vli64(rest, nx) {
        Ok(r) => r,
        Err(e) => {
            return Err(e);
        },
    };
    let (rest, w) = match count_vli64(rest, nw) {
        Ok(r) => r,
        Err(e) => {
            return Err(e);
        },
    };
    let ghost all = c@ + x@ + w@;
    proof {
        lemma_parse_seq_len(input@, 1, i64_parser());
        if let Ok((_, r1)) = parse_seq(input@, 1, i64_parser()) {
            lemma_parse_seq_len(r1, nx as nat, i64_parser());
            if let Ok((_, r2)) = parse_seq(r1, nx as nat, i64_parser()) {
                lemma_parse_seq_len(r2, nw as nat, i64_parser());
            }
        }
    }
    let mut out: Vec<Assignment> = Vec::new();
    out.push(Assignment(VariableIndex::Constant, c[0]));
    proof {
        assert(out@ =~= label_values(all, nx as int).take(1));
    }
    let mut j: usize = 0;
    while j < x.len()
        invariant
            j <= x@.len(),
            c@.len() == 1,
            x@.len() == nx,
            all == c@ + x@ + w@,
            out@ == label_values(all, nx as int).take(1 + j),
        decreases x@.len() - j,
    {
        out.push(Assignment(VariableIndex::Instance(j as u64), x[j]));
        proof {
            assert(out@ =~= label_values(all, nx as int).take(2 + j));
        }
        j = j + 1;
    }
    let mut j: usize = 0;
    while j < w.len()
        invariant
            j <= w@.len(),
            c@.len() == 1,
            x@.len() == nx,
            w@.len() == nw,
            all == c@ + x@ + w@,
            out@ == label_values(all, nx as int).take(1 + nx + j),
        decreases w@.len() - j,
    {
        out.push(Assignment(VariableIndex::Witness(j as u64), w[j]));
        proof {
            assert(out@ =~= label_values(all, nx as int).take(2 + nx + j));
        }
        j = j + 1;
    }
    proof {
        assert(out@ =~= label_values(all, nx as int));
    }
    Ok((rest, out))
}

/// Reads an assignments file: the tag, the header, and the values that the
/// header counts.
pub fn assignments(input: &[u8]) -> (res: Result<(&[u8], Assignments), DecodeError>)
    ensures
        match parse_assignments(input@) {
            Ok((a, rest)) => res is Ok && res->Ok_0.1@ == a && res->Ok_0.0@ == rest,
            Err(e) => res is Err && res->Err_0 == e,
        },
{
    let magic: [u8; 4] = [0x52, 0x31, 0x61, 0x73];
    proof {
        assert(magic@ =~= magic_assignments());
    }
    let rest = match tag(input, magic) {
        Ok(r) => r,
        Err(e) => {
            return Err(e);
        },
    };
    let (rest, h) = match header(rest) {
        Ok(r) => r,
        Err(e) => {
            return Err(e);
        },
    };
    match assignment_array(rest, h.nx, h.nw) {
        Ok((rest, a)) => Ok((rest, Assignments(h, a))),
        Err(e) => Err(e),
    }
}

/// What writing `data` at `offset` into a buffer that held `before` comes
/// to: the bytes are in place and the result is the offset after them; or
/// the buffer is too small, nothing is written and the result names the
/// length that would do; or no offset can name the end of the bytes.
pub open spec fn gen_outcome(
    before: Seq<u8>,
    offset: usize,
    data: Seq<u8>,
    after: Seq<u8>,
    res: Result<usize, GenError>,
) -> bool {
    if offset + data.len() > usize::MAX {
        res == Err::<usize, GenError>(GenError::InvalidOffset) && after == before
    } else if offset + data.len() > before.len() {
        res == Err::<usize, GenError>(GenError::BufferTooSmall((offset + data.len()) as usize))
            && after == before
    } else {
        res == Ok::<usize, GenError>((offset + data.len()) as usize) && after == before.take(
            offset as int,
        ) + data + before.skip(offset + data.len())
    }
}

/// Copies `data` into the buffer `input.0` at the offset `input.1`, if it
/// fits there, and hands the buffer back with the offset behind the copy.
pub fn gen_slice<'a>(input: (&'a mut [u8], usize), data: &[u8]) -> (res: Result<
    (&'a mut [u8], usize),
    GenError,
>)
    ensures
        match res {
            Ok((buf, end)) => gen_outcome(
                old(input.0)@,
                input.1,
                data@,
                buf@,
                Ok::<usize, GenError>(end),
            ) && final(input.0)@ == final(buf)@,
            Err(e) => gen_outcome(
                old(input.0)@,
                input.1,
                data@,
                final(input.0)@,
                Err::<usize, GenError>(e),
            ),
        },
{
    let (buf, offset) = input;
    let n = data.len();
    if n > usize::MAX - offset {
        return Err(GenError::InvalidOffset);
    }
    if buf.len() < offset + n {
        return Err(GenError::BufferTooSmall(offset + n));
    }
    let ghost before = buf@;
    let mut i: usize = 0;
    proof {
        assert(buf@ =~= before.take(offset as int) + data@.take(0) + before.skip(offset as int));
    }
    while i < n
        invariant
            i <= n,
            n == data@.len(),
            buf@.len() == before.len(),
            offset + n <= buf@.len() <= usize::MAX,
            buf@ == before.take(offset as int) + data@.take(i as int) + before.skip(offset + i),
        decreases n - i,
    {
        buf[offset + i] = data[i];
        proof {
            assert(buf@ =~= before.take(offset as int) + data@.take(i + 1) + before.skip(
                offset + i + 1,
            ));
        }
        i = i + 1;
    }
    proof {
        assert(data@.take(n as int) =~= data@);
    }
    Ok((buf, offset + n))
}

/// Appends an unsigned variable-length integer.
pub fn gen_vlusize(out: &mut Vec<u8>, n: usize)
    ensures
        final(out)@ == old(out)@ + varint(n as nat),
{
    let mut bits = usize_to_bits(n);
    out.append(&mut bits);
}

/// Appends a signed variable-length integer.
pub fn gen_vli64(out: &mut Vec<u8>, n: i64)
    ensures
        final(out)@ == old(out)@ + ser_i64(n),
{
    let mut bits = i64_to_bits(n);
    out.append(&mut bits);
}

/// Appends the reference to a variable.
pub fn gen_variable_index(out: &mut Vec<u8>, i: &VariableIndex)
    requires
        i.wf(),
    ensures
        final(out)@ == old(out)@ + ser_i64(i.number()),
{
    gen_vli64(out, i.to_i64());
}

/// Appends a coefficient.
pub fn gen_coefficient(out: &mut Vec<u8>, c: &Coefficient)
    ensures
        final(out)@ == old(out)@ + ser_i64(c.0),
{
    gen_vli64(out, c.0);
}

/// Appends one term of a linear combination.
pub fn gen_linear_combination_entry(out: &mut Vec<u8>, entry: &(VariableIndex, Coefficient))
    requires
        entry.0.wf(),
    ensures
        final(out)@ == old(out)@ + ser_term(*entry),
{
    gen_variable_index(out, &entry.0);
    gen_coefficient(out, &entry.1);
    proof {
        assert(final(out)@ =~= old(out)@ + ser_term(*entry));
    }
}

/// Appends a linear combination.
pub fn gen_linear_combination(out: &mut Vec<u8>, lc: &LinearCombination)
    requires
        terms_wf(lc@),
    ensures
        final(out)@ == old(out)@ + ser_lc(lc@),
{
    gen_vlusize(out, lc.0.len());
    let mut i: usize = 0;
    proof {
        assert(out@ =~= old(out)@ + varint(lc@.len()) + ser_seq(lc@.take(0), term_ser()));
    }
    while i < lc.0.len()
        invariant
            i <= lc@.len(),
            terms_wf(lc@),
            out@ == old(out)@ + varint(lc@.len()) + ser_seq(lc@.take(i as int), term_ser()),
        decreases lc@.len() - i,
    {
        gen_linear_combination_entry(out, &lc.0[i]);
        proof {
            lemma_ser_seq_push(lc@.take(i as int), lc@[i as int], term_ser());
            assert(lc@.take(i + 1) =~= lc@.take(i as int).push(lc@[i as int]));
            assert(out@ =~= old(out)@ + varint(lc@.len()) + ser_seq(lc@.take(i + 1), term_ser()));
        }
        i = i + 1;
    }
    proof {
        assert(lc@.take(i as int) =~= lc@);
        assert(out@ =~= old(out)@ + ser_lc(lc@));
    }
}

/// Appends a constraint.
pub fn gen_constraint(out: &mut Vec<u8>, c: &Constraint)
    requires
        c@.wf(),
    ensures
        final(out)@ == old(out)@ + ser_constraint(c@),
{
    gen_linear_combination(out, &c.a);
    gen_linear_combination(out, &c.b);
    gen_linear_combination(out, &c.c);
    proof {
        assert(final(out)@ =~= old(out)@ + ser_constraint(c@));
    }
}

/// Appends a header.
pub fn gen_header(out: &mut Vec<u8>, h: &Header)
    requires
        h@.wf(),
    ensures
        final(out)@ == old(out)@ + ser_header(h@),
{
    let (v, n) = h.to_file();
    gen_vlusize(out, v);
    gen_vlusize(out, n.len());
    let ghost base = out@;
    let mut i: usize = 0;
    proof {
        assert(out@ =~= base + ser_seq(n@.take(0), i64_ser()));
    }
    while i < n.len()
        invariant
            i <= n@.len(),
            out@ == base + ser_seq(n@.take(i as int), i64_ser()),
        decreases n@.len() - i,
    {
        gen_vli64(out, n[i]);
        proof {
            lemma_ser_seq_push(n@.take(i as int), n@[i as int], i64_ser());
            assert(n@.take(i + 1) =~= n@.take(i as int).push(n@[i as int]));
            assert(out@ =~= base + ser_seq(n@.take(i + 1), i64_ser()));
        }
        i = i + 1;
    }
    proof {
        assert(n@.take(i as int) =~= n@);
        assert(out@ =~= old(out)@ + ser_header(h@));
    }
}

/// Appends the value of an assignment. The variable is not written: the
/// place of the value in the file tells it.
pub fn gen_assignment(out: &mut Vec<u8>, a: &Assignment)
    ensures
        final(out)@ == old(out)@ + ser_i64(a.1),
{
    gen_vli64(out, a.1);
}

/// The bytes of a constraint-system file.
pub fn r1cs_to_bytes(r: &R1CS) -> (bytes: Vec<u8>)
    requires
        r@.wf(),
    ensures
        bytes@ == ser_r1cs(r@),
{
    let mut out: Vec<u8> = Vec::new();
    out.push(0x52);
    out.push(0x31);
    out.push(0x43);
    out.push(0x53);
    proof {
        assert(out@ =~= magic_r1cs());
    }
    gen_header(&mut out, &r.0);
    gen_vlusize(&mut out, r.1.len());
    let ghost base = out@;
    let ghost cs = constraints_view(r.1@);
    let mut i: usize = 0;
    proof {
        assert(out@ =~= base + ser_seq(cs.take(0), constraint_ser()));
    }
    while i < r.1.len()
        invariant
            i <= r.1@.len(),
            r@.wf(),
            cs == constraints_view(r.1@),
            out@ == base + ser_seq(cs.take(i as int), constraint_ser()),
        decreases r.1@.len() - i,
    {
        proof {
            assert(r@.constraints[i as int].wf());
        }
        gen_constraint(&mut out, &r.1[i]);
        proof {
            lemma_ser_seq_push(cs.take(i as int), cs[i as int], constraint_ser());
            assert(cs.take(i + 1) =~= cs.take(i as int).push(cs[i as int]));
            assert(out@ =~= base + ser_seq(cs.take(i + 1), constraint_ser()));
        }
        i = i + 1;
    }
    proof {
        assert(cs.take(i as int) =~= cs);
    }
    out
}

/// Writes a constraint-system file into the buffer `input.0` at the offset
/// `input.1` and hands the buffer back with the offset behind the file.
/// Nothing is written unless the whole file fits.
pub fn gen_r1cs<'a>(input: (&'a mut [u8], usize), r: &R1CS) -> (res: Result<
    (&'a mut [u8], usize),
    GenError,
>)
    requires
        r@.wf(),
    ensures
        match res {
            Ok((buf, end)) => gen_outcome(
                old(input.0)@,
                input.1,
                ser_r1cs(r@),
                buf@,
                Ok::<usize, GenError>(end),
            ) && final(input.0)@ == final(buf)@,
            Err(e) => gen_outcome(
                old(input.0)@,
                input.1,
                ser_r1cs(r@),
                final(input.0)@,
                Err::<usize, GenError>(e),
            ),
        },
        ser_r1cs(r@).len() <= usize::MAX,
{
    let bytes = r1cs_to_bytes(r);
    proof {
        assert(bytes@.len() == bytes.len());
    }
    gen_slice(input, bytes.as_slice())
}

/// The bytes of an assignments file.
pub fn assignments_to_bytes(r: &Assignments) -> (bytes: Vec<u8>)
    requires
        r@.header.wf(),
    ensures
        bytes@ == ser_assignments(r@),
{
    let mut out: Vec<u8> = Vec::new();
    out.push(0x52);
    out.push(0x31);
    out.push(0x61);
    out.push(0x73);
    proof {
        assert(out@ =~= magic_assignments());
    }
    gen_header(&mut out, &r.0);
    let ghost base = out@;
    let ghost values = assigned_values(r.1@);
    let mut i: usize = 0;
    proof {
        assert(out@ =~= base + ser_seq(values.take(0), i64_ser()));
    }
    while i < r.1.len()
        invariant
            i <= r.1@.len(),
            values == assigned_values(r.1@),
            out@ == base + ser_seq(values.take(i as int), i64_ser()),
        decreases r.1@.len() - i,
    {
        gen_assignment(&mut out, &r.1[i]);
        proof {
            lemma_ser_seq_push(values.take(i as int), values[i as int], i64_ser());
            assert(values.take(i + 1) =~= values.take(i as int).push(values[i as int]));
            assert(out@ =~= base + ser_seq(values.take(i + 1), i64_ser()));
        }
        i = i + 1;
    }
    proof {
        assert(values.take(i as int) =~= values);
    }
    out
}

/// Writes an assignments file into the buffer `input.0` at the offset
/// `input.1` and hands the buffer back with the offset behind the file.
/// Nothing is written unless the whole file fits.
pub fn gen_assignments<'a>(input: (&'a mut [u8], usize), r: &Assignments) -> (res: Result<
    (&'a mut [u8], usize),
    GenError,
>)
    requires
        r@.header.wf(),
    ensures
        match res {
            Ok((buf, end)) => gen_outcome(
                old(input.0)@,
                input.1,
                ser_assignments(r@),
                buf@,
                Ok::<usize, GenError>(end),
            ) && final(input.0)@ == final(buf)@,
            Err(e) => gen_outcome(
                old(input.0)@,
                input.1,
                ser_assignments(r@),
                final(input.0)@,
                Err::<usize, GenError>(e),
            ),
        },
        ser_assignments(r@).len() <= usize::MAX,
{
    let bytes = assignments_to_bytes(r);
    proof {
        assert(bytes@.len() == bytes.len());
    }
    gen_slice(input, bytes.as_slice())
}

} // verus!
