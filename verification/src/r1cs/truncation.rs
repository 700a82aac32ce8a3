//! What holds of files that were cut short: wherever the cut falls behind
//! the tag, reading fails, and with the error that says so.
use vstd::prelude::*;
use crate::error::DecodeError;
use crate::r1cs::encoding::{
    constraint_parser, constraint_ser, i64_parser, i64_ser, magic_assignments, magic_r1cs,
    parse_assignment_array, parse_assignments, parse_constraint, parse_header, parse_lc,
    parse_r1cs, parse_seq, parse_term, ser_assignments, ser_constraint, ser_header, ser_i64,
    ser_lc, ser_r1cs, ser_seq, ser_term, term_parser, term_ser,
};
use crate::r1cs::laws::{
    lemma_constraint_round_trip, lemma_header_round_trip, lemma_i64s_round_trip,
    lemma_lc_round_trip, lemma_seq_round_trip, lemma_ser_seq_concat, lemma_term_round_trip,
};
use crate::r1cs::{
    Assignment, AssignmentsView, Coefficient, ConstraintView, HeaderView, R1CSView,
    VariableIndex, assigned_values, terms_fit, terms_wf,
};
use crate::varint::{
    lemma_varint_cut, lemma_vli64_round_trip, lemma_vlusize_round_trip, varint, zigzag,
};

verus! {

/// Where each element is read back from its bytes and is missed when its
/// bytes are cut short, a list is missed when its bytes are cut short.
pub proof fn lemma_seq_cut<T>(
    xs: Seq<T>,
    k: int,
    f: spec_fn(T) -> Seq<u8>,
    p: spec_fn(Seq<u8>) -> Result<(T, Seq<u8>), DecodeError>,
)
    requires
        0 <= k < ser_seq(xs, f).len(),
        forall|i: int, t: Seq<u8>|
            0 <= i < xs.len() ==> #[trigger] p(f(xs[i]) + t) == Ok::<(T, Seq<u8>), DecodeError>(
                (xs[i], t),
            ),
        forall|i: int, j: int|
            0 <= i < xs.len() && 0 <= j < f(xs[i]).len() ==> #[trigger] p(f(xs[i]).take(j))
                == Err::<(T, Seq<u8>), DecodeError>(DecodeError::TruncatedInput),
    ensures
        parse_seq(ser_seq(xs, f).take(k), xs.len(), p) == Err::<(Seq<T>, Seq<u8>), DecodeError>(
            DecodeError::TruncatedInput,
        ),
    decreases xs.len(),
{
    let init = xs.drop_last();
    let last = xs.last();
    let b = ser_seq(init, f);
    assert forall|i: int, t: Seq<u8>| 0 <= i < init.len() implies #[trigger] p(f(init[i]) + t)
        == Ok::<(T, Seq<u8>), DecodeError>((init[i], t)) by {
        assert(init[i] == xs[i]);
        assert(p(f(xs[i]) + t) == Ok::<(T, Seq<u8>), DecodeError>((xs[i], t)));
    }
    if k < b.len() {
        assert forall|i: int, j: int| 0 <= i < init.len() && 0 <= j < f(init[i]).len() implies (
        #[trigger] p(f(init[i]).take(j))) == Err::<(T, Seq<u8>), DecodeError>(
            DecodeError::TruncatedInput,
        ) by {
            assert(init[i] == xs[i]);
            assert(p(f(xs[i]).take(j)) == Err::<(T, Seq<u8>), DecodeError>(
                DecodeError::TruncatedInput,
            ));
        }
        lemma_seq_cut(init, k, f, p);
        assert(ser_seq(xs, f).take(k) =~= b.take(k));
    } else {
        let j = k - b.len();
        assert(ser_seq(xs, f).take(k) =~= b + f(last).take(j));
        lemma_seq_round_trip(init, f(last).take(j), f, p);
        assert(p(f(xs[xs.len() - 1]).take(j)) == Err::<(T, Seq<u8>), DecodeError>(
            DecodeError::TruncatedInput,
        ));
    }
}

/// A list of signed integers that is cut short is missed.
pub proof fn lemma_i64s_cut(xs: Seq<i64>, k: int)
    requires
        0 <= k < ser_seq(xs, i64_ser()).len(),
    ensures
        parse_seq(ser_seq(xs, i64_ser()).take(k), xs.len(), i64_parser()) == Err::<
            (Seq<i64>, Seq<u8>),
            DecodeError,
        >(DecodeError::TruncatedInput),
{
    let f = i64_ser();
    let p = i64_parser();
    assert forall|i: int, t: Seq<u8>| 0 <= i < xs.len() implies #[trigger] p(f(xs[i]) + t) == Ok::<
        (i64, Seq<u8>),
        DecodeError,
    >((xs[i], t)) by {
        lemma_vli64_round_trip(xs[i], t);
    }
    assert forall|i: int, j: int| 0 <= i < xs.len() && 0 <= j < f(xs[i]).len() implies (
    #[trigger] p(f(xs[i]).take(j))) == Err::<(i64, Seq<u8>), DecodeError>(
        DecodeError::TruncatedInput,
    ) by {
        lemma_varint_cut(zigzag(xs[i] as int), j);
    }
    lemma_seq_cut(xs, k, f, p);
}

/// A term that is cut short is missed.
pub proof fn lemma_term_cut(t: (VariableIndex, Coefficient), k: int)
    requires
        0 <= k < ser_term(t).len(),
    ensures
        parse_term(ser_term(t).take(k)) == Err::<
            ((VariableIndex, Coefficient), Seq<u8>),
            DecodeError,
        >(DecodeError::TruncatedInput),
{
    let a = ser_i64(t.0.number());
    let b = ser_i64(t.1.0);
    let s = ser_term(t).take(k);
    if k < a.len() {
        assert(s =~= a.take(k));
        lemma_varint_cut(zigzag(t.0.number() as int), k);
    } else {
        assert(s =~= a + b.take(k - a.len()));
        lemma_vli64_round_trip(t.0.number(), b.take(k - a.len()));
        lemma_varint_cut(zigzag(t.1.0 as int), k - a.len());
    }
}

/// A linear combination that is cut short is missed.
pub proof fn lemma_lc_cut(lc: Seq<(VariableIndex, Coefficient)>, k: int)
    requires
        terms_wf(lc),
        terms_fit(lc),
        0 <= k < ser_lc(lc).len(),
    ensures
        parse_lc(ser_lc(lc).take(k)) == Err::<
            (Seq<(VariableIndex, Coefficient)>, Seq<u8>),
            DecodeError,
        >(DecodeError::TruncatedInput),
{
    let f = term_ser();
    let p = term_parser();
    let a = varint(lc.len());
    let b = ser_seq(lc, f);
    let s = ser_lc(lc).take(k);
    if k < a.len() {
        assert(s =~= a.take(k));
        lemma_varint_cut(lc.len(), k);
    } else {
        let j = k - a.len();
        assert(s =~= a + b.take(j));
        lemma_vlusize_round_trip(lc.len() as usize, b.take(j));
        assert forall|i: int, t: Seq<u8>| 0 <= i < lc.len() implies #[trigger] p(f(lc[i]) + t)
            == Ok::<((VariableIndex, Coefficient), Seq<u8>), DecodeError>((lc[i], t)) by {
            lemma_term_round_trip(lc[i], t);
        }
        assert forall|i: int, j: int| 0 <= i < lc.len() && 0 <= j < f(lc[i]).len() implies (
        #[trigger] p(f(lc[i]).take(j))) == Err::<
            ((VariableIndex, Coefficient), Seq<u8>),
            DecodeError,
        >(DecodeError::TruncatedInput) by {
            lemma_term_cut(lc[i], j);
        }
        lemma_seq_cut(lc, j, f, p);
    }
}

/// A constraint that is cut short is missed.
pub proof fn lemma_constraint_cut(c: ConstraintView, k: int)
    requires
        c.wf(),
        c.fits(),
        0 <= k < ser_constraint(c).len(),
    ensures
        parse_constraint(ser_constraint(c).take(k)) == Err::<
            (ConstraintView, Seq<u8>),
            DecodeError,
        >(DecodeError::TruncatedInput),
{
    let a = ser_lc(c.a);
    let b = ser_lc(c.b);
    let d = ser_lc(c.c);
    let s = ser_constraint(c).take(k);
    if k < a.len() {
        assert(s =~= a.take(k));
        lemma_lc_cut(c.a, k);
    } else if k < a.len() + b.len() {
        let j = k - a.len();
        assert(s =~= a + b.take(j));
        lemma_lc_round_trip(c.a, b.take(j));
        lemma_lc_cut(c.b, j);
    } else {
        let j = k - a.len() - b.len();
        assert(s =~= a + (b + d.take(j)));
        lemma_lc_round_trip(c.a, b + d.take(j));
        lemma_lc_round_trip(c.b, d.take(j));
        lemma_lc_cut(c.c, j);
    }
}

/// A header that is cut short is missed.
pub proof fn lemma_header_cut(h: HeaderView, k: int)
    requires
        h.wf(),
        h.fits(),
        0 <= k < ser_header(h).len(),
    ensures
        parse_header(ser_header(h).take(k)) == Err::<(HeaderView, Seq<u8>), DecodeError>(
            DecodeError::TruncatedInput,
        ),
{
    let n = h.to_file();
    let a = varint(h.v as nat);
    let b = varint(n.len());
    let d = ser_seq(n, i64_ser());
    let s = ser_header(h).take(k);
    if k < a.len() {
        assert(s =~= a.take(k));
        lemma_varint_cut(h.v as nat, k);
    } else if k < a.len() + b.len() {
        let j = k - a.len();
        assert(s =~= a + b.take(j));
        lemma_vlusize_round_trip(h.v, b.take(j));
        lemma_varint_cut(n.len(), j);
    } else {
        let j = k - a.len() - b.len();
        assert(s =~= a + (b + d.take(j)));
        lemma_vlusize_round_trip(h.v, b + d.take(j));
        lemma_vlusize_round_trip(n.len() as usize, d.take(j));
        lemma_i64s_cut(n, j);
    }
}

/// A constraint-system file that is cut short anywhere behind its tag is
/// refused as truncated.
pub proof fn lemma_r1cs_cut(r: R1CSView, k: int)
    requires
        r.wf(),
        r.fits(),
        4 <= k < ser_r1cs(r).len(),
    ensures
        parse_r1cs(ser_r1cs(r).take(k)) == Err::<(R1CSView, Seq<u8>), DecodeError>(
            DecodeError::TruncatedInput,
        ),
{
    let f = constraint_ser();
    let p = constraint_parser();
    let cs = r.constraints;
    let a = ser_header(r.header);
    let b = varint(cs.len());
    let d = ser_seq(cs, f);
    let s = ser_r1cs(r).take(k);
    let body = (a + b + d).take(k - 4);
    assert(s =~= magic_r1cs() + body);
    assert(s.take(4) =~= magic_r1cs());
    assert(s.skip(4) =~= body);
    if k - 4 < a.len() {
        assert(body =~= a.take(k - 4));
        lemma_header_cut(r.header, k - 4);
    } else if k - 4 < a.len() + b.len() {
        let j = k - 4 - a.len();
        assert(body =~= a + b.take(j));
        lemma_header_round_trip(r.header, b.take(j));
        lemma_varint_cut(cs.len(), j);
    } else {
        let j = k - 4 - a.len() - b.len();
        assert(body =~= a + (b + d.take(j)));
        lemma_header_round_trip(r.header, b + d.take(j));
        lemma_vlusize_round_trip(cs.len() as usize, d.take(j));
        assert forall|i: int, t: Seq<u8>| 0 <= i < cs.len() implies #[trigger] p(f(cs[i]) + t)
            == Ok::<(ConstraintView, Seq<u8>), DecodeError>((cs[i], t)) by {
            lemma_constraint_round_trip(cs[i], t);
        }
        assert forall|i: int, j: int| 0 <= i < cs.len() && 0 <= j < f(cs[i]).len() implies (
        #[trigger] p(f(cs[i]).take(j))) == Err::<(ConstraintView, Seq<u8>), DecodeError>(
            DecodeError::TruncatedInput,
        ) by {
            lemma_constraint_cut(cs[i], j);
        }
        lemma_seq_cut(cs, j, f, p);
    }
}

/// An assignments file that is cut short anywhere behind its tag, be it
/// within the header or before the last of the values that the header
/// counts, is refused as truncated.
pub proof fn lemma_assignments_cut(a: AssignmentsView, k: int)
    requires
        a.wf(),
        a.header.fits(),
        4 <= k < ser_assignments(a).len(),
    ensures
        parse_assignments(ser_assignments(a).take(k)) == Err::<
            (AssignmentsView, Seq<u8>),
            DecodeError,
        >(DecodeError::TruncatedInput),
{
    let f = i64_ser();
    let values = assigned_values(a.assignments);
    let nx = a.header.nx as int;
    let c = values.take(1);
    let x = values.subrange(1, 1 + nx);
    let w = values.skip(1 + nx);
    let h = ser_header(a.header);
    let v = ser_seq(values, f);
    let s = ser_assignments(a).take(k);
    let body = (h + v).take(k - 4);
    assert(s =~= magic_assignments() + body);
    assert(s.take(4) =~= magic_assignments());
    assert(s.skip(4) =~= body);
    if k - 4 < h.len() {
        assert(body =~= h.take(k - 4));
        lemma_header_cut(a.header, k - 4);
    } else {
        let j = k - 4 - h.len();
        let (bc, bx, bw) = (ser_seq(c, f), ser_seq(x, f), ser_seq(w, f));
        assert(body =~= h + v.take(j));
        lemma_header_round_trip(a.header, v.take(j));
        assert(values =~= c + x + w);
        lemma_ser_seq_concat(c, x, f);
        lemma_ser_seq_concat(c + x, w, f);
        assert(v == bc + bx + bw);
        if j < bc.len() {
            assert(v.take(j) =~= bc.take(j));
            lemma_i64s_cut(c, j);
        } else if j < bc.len() + bx.len() {
            let i = j - bc.len();
            assert(v.take(j) =~= bc + bx.take(i));
            lemma_i64s_round_trip(c, bx.take(i));
            lemma_i64s_cut(x, i);
        } else {
            let i = j - bc.len() - bx.len();
            assert(v.take(j) =~= bc + (bx + bw.take(i)));
            lemma_i64s_round_trip(c, bx + bw.take(i));
            lemma_i64s_round_trip(x, bw.take(i));
            lemma_i64s_cut(w, i);
        }
        assert(parse_assignment_array(v.take(j), a.header.nx, a.header.nw) == Err::<
            (Seq<Assignment>, Seq<u8>),
            DecodeError,
        >(DecodeError::TruncatedInput));
    }
}

} // verus!
