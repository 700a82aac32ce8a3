//! Rank-1 constraint systems and assignments to their variables, as values
//! in memory.
use vstd::prelude::*;
use vstd::slice::{slice_subrange, slice_to_vec};
use vstd::std_specs::convert::FromSpecImpl;
use crate::error::{DecodeError, EncodeError, GenError};
use crate::r1cs::encoding::{
    assignments, gen_assignments, gen_r1cs, parse_assignments, parse_r1cs, r1cs, ser_assignments,
    ser_r1cs,
};
use crate::r1cs::laws::{lemma_parsed_assignments_wf, lemma_parsed_r1cs_wf};
use crate::ConstraintSystem;

pub mod encoding;
pub mod laws;
pub mod text;
pub mod truncation;

verus! {

/// What a term of a linear combination refers to: the constant one, a public
/// input, or a private input.
#[derive(Debug, PartialEq, Eq, Clone, Copy)]
pub enum VariableIndex {
    Constant,
    Instance(u64),
    Witness(u64),
}

impl VariableIndex {
    /// The index is small enough for the reference to have a number.
    pub open spec fn wf(self) -> bool {
        match self {
            VariableIndex::Constant => true,
            VariableIndex::Instance(i) => i <= i64::MAX as u64,
            VariableIndex::Witness(i) => i < i64::MAX as u64,
        }
    }

    /// The reference that the number `n` stands for: zero is the constant,
    /// `-1, -2, ..` are the instance variables `0, 1, ..` and `1, 2, ..` the
    /// witness variables `0, 1, ..`.
    pub open spec fn of_number(n: i64) -> VariableIndex {
        if n == 0 {
            VariableIndex::Constant
        } else if n < 0 {
            VariableIndex::Instance((-n - 1) as u64)
        } else {
            VariableIndex::Witness((n - 1) as u64)
        }
    }

    /// The number that stands for this reference.
    pub open spec fn number(self) -> i64 {
        match self {
            VariableIndex::Constant => 0,
            VariableIndex::Instance(i) => (-(i as int) - 1) as i64,
            VariableIndex::Witness(i) => (i + 1) as i64,
        }
    }

    /// Tells whether the reference has a number.
    pub fn is_wf(&self) -> (b: bool)
        ensures
            b == self.wf(),
    {
        match *self {
            VariableIndex::Constant => true,
            VariableIndex::Instance(i) => i <= i64::MAX as u64,
            VariableIndex::Witness(i) => i < i64::MAX as u64,
        }
    }

    /// The number that stands for this reference.
    pub fn to_i64(&self) -> (n: i64)
        requires
            self.wf(),
        ensures
            n == self.number(),
    {
        match *self {
            VariableIndex::Constant => 0,
            VariableIndex::Instance(i) => -(i as i64) - 1,
            VariableIndex::Witness(i) => i as i64 + 1,
        }
    }

    /// Numbering references and reading the numbers back are inverse to each
    /// other.
    pub proof fn lemma_number_bijection(self, n: i64)
        ensures
            VariableIndex::of_number(n).wf(),
            VariableIndex::of_number(n).number() == n,
            self.wf() ==> VariableIndex::of_number(self.number()) == self,
    {
    }
}

impl From<i64> for VariableIndex {
    fn from(n: i64) -> (res: Self) {
        if n == 0 {
            VariableIndex::Constant
        } else if n < 0 {
            VariableIndex::Instance((-(n + 1)) as u64)
        } else {
            VariableIndex::Witness((n - 1) as u64)
        }
    }
}

impl FromSpecImpl<i64> for VariableIndex {
    open spec fn obeys_from_spec() -> bool {
        true
    }

    open spec fn from_spec(n: i64) -> Self {
        VariableIndex::of_number(n)
    }
}

/// A field element, held as a signed 64-bit integer.
#[derive(Debug, PartialEq, Eq, Clone, Copy)]
pub struct Coefficient(pub i64);

/// A weighted sum of variables: its terms in order.
#[derive(Debug, PartialEq, Eq)]
pub struct LinearCombination(pub Vec<(VariableIndex, Coefficient)>);

impl View for LinearCombination {
    type V = Seq<(VariableIndex, Coefficient)>;

    open spec fn view(&self) -> Self::V {
        self.0@
    }
}

impl LinearCombination {
    /// Tells whether every term refers to a variable that has a number.
    pub fn is_wf(&self) -> (b: bool)
        ensures
            b == terms_wf(self@),
    {
        let mut i: usize = 0;
        while i < self.0.len()
            invariant
                i <= self@.len(),
                forall|j: int| 0 <= j < i ==> (#[trigger] self@[j]).0.wf(),
            decreases self@.len() - i,
        {
            if !self.0[i].0.is_wf() {
                return false;
            }
            i = i + 1;
        }
        true
    }
}

/// Every term of the combination refers to a variable that has a number.
pub open spec fn terms_wf(terms: Seq<(VariableIndex, Coefficient)>) -> bool {
    forall|i: int| 0 <= i < terms.len() ==> (#[trigger] terms[i]).0.wf()
}

/// The number of terms can be written as a count.
pub open spec fn terms_fit(terms: Seq<(VariableIndex, Coefficient)>) -> bool {
    terms.len() <= usize::MAX
}

/// The constraint `a * b = c`.
#[derive(Debug, PartialEq, Eq)]
pub struct Constraint {
    pub a: LinearCombination,
    pub b: LinearCombination,
    pub c: LinearCombination,
}

/// A constraint as a mathematical value.
pub struct ConstraintView {
    pub a: Seq<(VariableIndex, Coefficient)>,
    pub b: Seq<(VariableIndex, Coefficient)>,
    pub c: Seq<(VariableIndex, Coefficient)>,
}

impl ConstraintView {
    /// Every term refers to a variable that has a number.
    pub open spec fn wf(self) -> bool {
        terms_wf(self.a) && terms_wf(self.b) && terms_wf(self.c)
    }

    /// Each of the three combinations has a number of terms that can be
    /// written as a count.
    pub open spec fn fits(self) -> bool {
        terms_fit(self.a) && terms_fit(self.b) && terms_fit(self.c)
    }
}

impl Constraint {
    /// Tells whether every term of the three combinations refers to a
    /// variable that has a number.
    pub fn is_wf(&self) -> (b: bool)
        ensures
            b == self@.wf(),
    {
        self.a.is_wf() && self.b.is_wf() && self.c.is_wf()
    }
}

impl View for Constraint {
    type V = ConstraintView;

    open spec fn view(&self) -> Self::V {
        ConstraintView { a: self.a@, b: self.b@, c: self.c@ }
    }
}

/// The constraints of a list as mathematical values.
pub open spec fn constraints_view(cs: Seq<Constraint>) -> Seq<ConstraintView> {
    Seq::new(cs.len(), |i: int| cs[i]@)
}

/// The leading record of both file formats.
#[derive(Debug, PartialEq, Eq)]
pub struct Header {
    /// Version of the format.
    pub v: usize,
    /// Characteristic of the field.
    pub p: u64,
    /// Degree of the field extension.
    pub m: u64,
    /// Number of instance variables.
    pub nx: u64,
    /// Number of witness variables.
    pub nw: u64,
    /// Entries after the fourth, kept as they were read.
    pub _ignored: Vec<i64>,
}

/// A header as a mathematical value.
pub struct HeaderView {
    pub v: usize,
    pub p: u64,
    pub m: u64,
    pub nx: u64,
    pub nw: u64,
    pub ignored: Seq<i64>,
}

impl View for Header {
    type V = HeaderView;

    open spec fn view(&self) -> Self::V {
        HeaderView {
            v: self.v,
            p: self.p,
            m: self.m,
            nx: self.nx,
            nw: self.nw,
            ignored: self._ignored@,
        }
    }
}

impl HeaderView {
    /// The four known fields can be written as non-negative signed integers.
    pub open spec fn wf(self) -> bool {
        &&& self.p <= i64::MAX as u64
        &&& self.m <= i64::MAX as u64
        &&& self.nx <= i64::MAX as u64
        &&& self.nw <= i64::MAX as u64
    }

    /// The number of entries can be written as a count.
    pub open spec fn fits(self) -> bool {
        4 + self.ignored.len() <= usize::MAX
    }

    /// The header that the version `v` and the entries `n` describe:
    /// characteristic, degree and the two counts, then whatever follows.
    pub open spec fn from_file(v: usize, n: Seq<i64>) -> Result<HeaderView, DecodeError> {
        if n.len() < 4 || n[0] < 0 || n[1] < 0 || n[2] < 0 || n[3] < 0 {
            Err(DecodeError::InvalidHeader)
        } else {
            Ok(
                HeaderView {
                    v,
                    p: n[0] as u64,
                    m: n[1] as u64,
                    nx: n[2] as u64,
                    nw: n[3] as u64,
                    ignored: n.skip(4),
                },
            )
        }
    }

    /// The entries that describe this header.
    pub open spec fn to_file(self) -> Seq<i64> {
        seq![self.p as i64, self.m as i64, self.nx as i64, self.nw as i64] + self.ignored
    }

    /// A header read from entries is well formed and gives the same entries
    /// back, those after the fourth included; a well-formed header is read
    /// back from its own entries.
    pub proof fn lemma_file_round_trip(self, v: usize, n: Seq<i64>)
        ensures
            HeaderView::from_file(v, n) matches Ok(h) ==> h.wf() && h.v == v && h.to_file() == n,
            self.wf() ==> HeaderView::from_file(self.v, self.to_file()) == Ok::<
                HeaderView,
                DecodeError,
            >(self),
    {
        if let Ok(h) = HeaderView::from_file(v, n) {
            assert(h.to_file() =~= n);
        }
        if self.wf() {
            assert(self.to_file().skip(4) =~= self.ignored);
        }
    }
}

impl Header {
    /// Tells whether the four known fields can be written as non-negative
    /// signed integers.
    pub fn is_wf(&self) -> (b: bool)
        ensures
            b == self@.wf(),
    {
        self.p <= i64::MAX as u64 && self.m <= i64::MAX as u64 && self.nx <= i64::MAX as u64
            && self.nw <= i64::MAX as u64
    }

    /// Builds a header from the version and the entries of a file. Fails
    /// exactly when there are fewer than four entries or one of the first
    /// four is negative.
    pub fn from_file(v: usize, n: Vec<i64>) -> (res: Result<Header, DecodeError>)
        ensures
            match HeaderView::from_file(v, n@) {
                Ok(h) => res is Ok && res->Ok_0@ == h,
                Err(e) => res == Err::<Header, DecodeError>(e),
            },
    {
        if n.len() < 4 || n[0] < 0 || n[1] < 0 || n[2] < 0 || n[3] < 0 {
            return Err(DecodeError::InvalidHeader);
        }
        let ignored = slice_to_vec(slice_subrange(n.as_slice(), 4, n.len()));
        Ok(
            Header {
                v,
                p: n[0] as u64,
                m: n[1] as u64,
                nx: n[2] as u64,
                nw: n[3] as u64,
                _ignored: ignored,
            },
        )
    }

    /// The version and the entries that a file holds for this header.
    pub fn to_file(&self) -> (res: (usize, Vec<i64>))
        requires
            self@.wf(),
        ensures
            res.0 == self.v,
            res.1@ == self@.to_file(),
    {
        let mut n: Vec<i64> = Vec::new();
        n.push(self.p as i64);
        n.push(self.m as i64);
        n.push(self.nx as i64);
        n.push(self.nw as i64);
        let mut i: usize = 0;
        while i < self._ignored.len()
            invariant
                i <= self._ignored@.len(),
                n@ == seq![self.p as i64, self.m as i64, self.nx as i64, self.nw as i64]
                    + self._ignored@.take(i as int),
            decreases self._ignored@.len() - i,
        {
            n.push(self._ignored[i]);
            i = i + 1;
            proof {
                assert(self._ignored@.take(i as int) =~= self._ignored@.take(i - 1).push(
                    self._ignored@[i - 1],
                ));
            }
        }
        proof {
            assert(self._ignored@.take(i as int) =~= self._ignored@);
        }
        (self.v, n)
    }
}

/// A constraint system: its header and its constraints.
#[derive(Debug, PartialEq, Eq)]
pub struct R1CS(pub Header, pub Vec<Constraint>);

/// A constraint system as a mathematical value.
pub struct R1CSView {
    pub header: HeaderView,
    pub constraints: Seq<ConstraintView>,
}

impl R1CSView {
    /// The header is well formed and every term of every constraint refers
    /// to a variable that has a number.
    pub open spec fn wf(self) -> bool {
        &&& self.header.wf()
        &&& forall|i: int| 0 <= i < self.constraints.len() ==> (#[trigger] self.constraints[i]).wf()
    }

    /// Every list of the system has a length that can be written as a count.
    pub open spec fn fits(self) -> bool {
        &&& self.header.fits()
        &&& self.constraints.len() <= usize::MAX
        &&& forall|i: int|
            0 <= i < self.constraints.len() ==> (#[trigger] self.constraints[i]).fits()
    }
}

impl View for R1CS {
    type V = R1CSView;

    open spec fn view(&self) -> Self::V {
        R1CSView { header: self.0@, constraints: constraints_view(self.1@) }
    }
}

impl R1CS {
    /// Tells whether the constraint system can be written to a file.
    pub fn is_wf(&self) -> (b: bool)
        ensures
            b == self@.wf(),
    {
        if !self.0.is_wf() {
            return false;
        }
        let mut i: usize = 0;
        while i < self.1.len()
            invariant
                i <= self.1@.len(),
                self@.header.wf(),
                forall|j: int| 0 <= j < i ==> (#[trigger] self@.constraints[j]).wf(),
            decreases self.1@.len() - i,
        {
            if !self.1[i].is_wf() {
                proof {
                    assert(!self@.constraints[i as int].wf());
                }
                return false;
            }
            i = i + 1;
        }
        true
    }
}

impl ConstraintSystem for R1CS {
    open spec fn encodable(&self) -> bool {
        self@.wf()
    }

    open spec fn encoding(&self) -> Seq<u8> {
        ser_r1cs(self@)
    }

    /// Reads a constraint system from the front of `buf`; what follows it
    /// there is not looked at. Fails exactly when the bytes are not those of
    /// a constraint-system file, with the first fault found.
    fn decode(buf: &[u8]) -> (res: Result<Self, DecodeError>)
        ensures
            match parse_r1cs(buf@) {
                Ok((r, rest)) => res is Ok && res->Ok_0@ == r,
                Err(e) => res is Err && res->Err_0 == e,
            },
    {
        proof {
            lemma_parsed_r1cs_wf(buf@);
        }
        match r1cs(buf) {
            Ok((_, res)) => Ok(res),
            Err(e) => Err(e),
        }
    }

    /// Writes the constraint system into a buffer of its own, grown until
    /// the file fits, and as long as the file.
    fn encode(&self) -> (res: Result<Vec<u8>, EncodeError>)
        ensures
            res is Ok,
    {
        let mut data: Vec<u8> = Vec::new();
        loop
            invariant
                self@.wf(),
                data@.len() == 0 || data@.len() == ser_r1cs(self@).len(),
            decreases ser_r1cs(self@).len() - data@.len(),
        {
            match gen_r1cs((data.as_mut_slice(), 0), self) {
                Ok(_) => {
                    proof {
                        assert(data@ =~= ser_r1cs(self@));
                    }
                    return Ok(data);
                },
                Err(GenError::BufferTooSmall(sz)) => {
                    data.resize(sz, 0);
                },
                Err(GenError::InvalidOffset) => {
                    return Err(EncodeError);
                },
            }
        }
    }
}

/// The value given to one variable.
#[derive(Debug, PartialEq, Eq, Clone, Copy)]
pub struct Assignment(pub VariableIndex, pub i64);

/// The variable that stands at position `i` of an assignment list with `nx`
/// instance variables: the constant first, then the instance variables, then
/// the witness variables.
pub open spec fn assigned_variable(i: int, nx: int) -> VariableIndex {
    if i == 0 {
        VariableIndex::Constant
    } else if i <= nx {
        VariableIndex::Instance((i - 1) as u64)
    } else {
        VariableIndex::Witness((i - 1 - nx) as u64)
    }
}

/// The assignment list that gives the values `values` to the variables in
/// their fixed order.
pub open spec fn label_values(values: Seq<i64>, nx: int) -> Seq<Assignment> {
    Seq::new(values.len(), |i: int| Assignment(assigned_variable(i, nx), values[i]))
}

/// The values of an assignment list, without the variables.
pub open spec fn assigned_values(assignments: Seq<Assignment>) -> Seq<i64> {
    Seq::new(assignments.len(), |i: int| assignments[i].1)
}

/// Values for all the variables of a constraint system.
#[derive(Debug, PartialEq, Eq)]
pub struct Assignments(pub Header, pub Vec<Assignment>);

/// An assignment list with its header, as a mathematical value.
pub struct AssignmentsView {
    pub header: HeaderView,
    pub assignments: Seq<Assignment>,
}

impl AssignmentsView {
    /// The list holds one value for the constant and one for each variable
    /// that the header counts, each under its own variable, in order.
    pub open spec fn wf(self) -> bool {
        &&& self.header.wf()
        &&& self.assignments.len() == 1 + self.header.nx + self.header.nw
        &&& self.assignments == label_values(
            assigned_values(self.assignments),
            self.header.nx as int,
        )
    }
}

impl View for Assignments {
    type V = AssignmentsView;

    open spec fn view(&self) -> Self::V {
        AssignmentsView { header: self.0@, assignments: self.1@ }
    }
}

impl Assignments {
    /// Tells whether the list holds one value for the constant and one for
    /// each variable that the header counts, each under its own variable.
    pub fn is_wf(&self) -> (b: bool)
        ensures
            b == self@.wf(),
    {
        if !self.0.is_wf() {
            return false;
        }
        let nx = self.0.nx;
        let nw = self.0.nw;
        if self.1.len() as u64 != 1 + nx + nw {
            return false;
        }
        let ghost labelled = label_values(assigned_values(self.1@), nx as int);
        let mut i: usize = 0;
        while i < self.1.len()
            invariant
                i <= self.1@.len(),
                nx == self.0.nx,
                self.1@.len() == 1 + nx + self.0.nw,
                self@.header.wf(),
                labelled == label_values(assigned_values(self.1@), nx as int),
                forall|j: int| 0 <= j < i ==> self.1@[j] == #[trigger] labelled[j],
            decreases self.1@.len() - i,
        {
            let k = i as u64;
            let fits = match self.1[i].0 {
                VariableIndex::Constant => k == 0,
                VariableIndex::Instance(j) => 1 <= k && k <= nx && j == k - 1,
                VariableIndex::Witness(j) => k > nx && j == k - 1 - nx,
            };
            if !fits {
                proof {
                    assert(self.1@[i as int] != labelled[i as int]);
                }
                return false;
            }
            i = i + 1;
        }
        proof {
            assert(self.1@ =~= labelled);
        }
        true
    }

    /// Reads an assignment list from the front of `buf`; what follows it
    /// there is not looked at. Fails exactly when the bytes are not those of
    /// an assignments file, with the first fault found.
    pub fn decode(buf: &[u8]) -> (res: Result<Self, DecodeError>)
        ensures
            match parse_assignments(buf@) {
                Ok((a, rest)) => res is Ok && res->Ok_0@ == a,
                Err(e) => res is Err && res->Err_0 == e,
            },
            res matches Ok(a) ==> a@.wf(),
    {
        proof {
            lemma_parsed_assignments_wf(buf@);
        }
        match assignments(buf) {
            Ok((_, res)) => Ok(res),
            Err(e) => Err(e),
        }
    }

    /// Writes the assignment list into a buffer of its own, grown until the
    /// file fits, and as long as the file.
    pub fn encode(&self) -> (res: Result<Vec<u8>, EncodeError>)
        requires
            self@.header.wf(),
        ensures
            res is Ok,
            res->Ok_0@ == ser_assignments(self@),
    {
        let mut data: Vec<u8> = Vec::new();
        loop
            invariant
                self@.header.wf(),
                data@.len() == 0 || data@.len() == ser_assignments(self@).len(),
            decreases ser_assignments(self@).len() - data@.len(),
        {
            match gen_assignments((data.as_mut_slice(), 0), self) {
                Ok(_) => {
                    proof {
                        assert(data@ =~= ser_assignments(self@));
                    }
                    return Ok(data);
                },
                Err(GenError::BufferTooSmall(sz)) => {
                    data.resize(sz, 0);
                },
                Err(GenError::InvalidOffset) => {
                    return Err(EncodeError);
                },
            }
        }
    }
}

} // verus!
