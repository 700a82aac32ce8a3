//! What holds of the byte format as a whole: a value that is written and
//! read back comes out unchanged, with nothing of what follows it consumed.
use vstd::prelude::*;
use crate::error::DecodeError;
use crate::r1cs::encoding::{
    constraint_parser, constraint_ser, i64_parser, i64_ser, magic_assignments, magic_r1cs,
    parse_assignment_array, parse_assignments, parse_constraint, parse_header, parse_lc,
    lemma_parse_seq_len, parse_r1cs, parse_seq, parse_term, ser_assignments, ser_constraint, ser_header,
    ser_i64, ser_lc, ser_r1cs, ser_seq, ser_term, term_parser, term_ser,
};
use crate::r1cs::{
    Assignment, AssignmentsView, Coefficient, ConstraintView, HeaderView, R1CSView,
    VariableIndex, assigned_values, label_values, terms_fit, terms_wf,
};
use crate::varint::{
    lemma_varint_len_bounds, lemma_vli64_round_trip, lemma_vlusize_round_trip, parse_vli64,
    parse_vlusize, varint,
};

verus! {

/// Where each element alone is read back from its bytes, a list of them is
/// read back from theirs.
pub proof fn lemma_seq_round_trip<T>(
    xs: Seq<T>,
    tail: Seq<u8>,
    f: spec_fn(T) -> Seq<u8>,
    p: spec_fn(Seq<u8>) -> Result<(T, Seq<u8>), DecodeError>,
)
    requires
        forall|i: int, t: Seq<u8>|
            0 <= i < xs.len() ==> #[trigger] p(f(xs[i]) + t) == Ok::<(T, Seq<u8>), DecodeError>(
                (xs[i], t),
            ),
    ensures
        parse_seq(ser_seq(xs, f) + tail, xs.len(), p) == Ok::<(Seq<T>, Seq<u8>), DecodeError>(
            (xs, tail),
        ),
    decreases xs.len(),
{
    if xs.len() == 0 {
        assert(ser_seq(xs, f) + tail =~= tail);
        assert(xs =~= Seq::<T>::empty());
    } else {
        let init = xs.drop_last();
        let last = xs.last();
        assert forall|i: int, t: Seq<u8>| 0 <= i < init.len() implies #[trigger] p(f(init[i]) + t)
            == Ok::<(T, Seq<u8>), DecodeError>((init[i], t)) by {
            assert(init[i] == xs[i]);
            assert(p(f(xs[i]) + t) == Ok::<(T, Seq<u8>), DecodeError>((xs[i], t)));
        }
        lemma_seq_round_trip(init, f(last) + tail, f, p);
        assert(ser_seq(xs, f) + tail =~= ser_seq(init, f) + (f(last) + tail));
        assert(p(f(xs[xs.len() - 1]) + tail) == Ok::<(T, Seq<u8>), DecodeError>((last, tail)));
        assert(init.push(last) =~= xs);
    }
}

/// The bytes of two lists in a row are the bytes of the lists joined.
pub proof fn lemma_ser_seq_concat<T>(xs: Seq<T>, ys: Seq<T>, f: spec_fn(T) -> Seq<u8>)
    ensures
        ser_seq(xs + ys, f) == ser_seq(xs, f) + ser_seq(ys, f),
    decreases ys.len(),
{
    if ys.len() == 0 {
        assert(xs + ys =~= xs);
        assert(ser_seq(xs, f) + ser_seq(ys, f) =~= ser_seq(xs, f));
    } else {
        lemma_ser_seq_concat(xs, ys.drop_last(), f);
        assert((xs + ys).drop_last() =~= xs + ys.drop_last());
        assert(ser_seq(xs + ys, f) =~= ser_seq(xs, f) + ser_seq(ys, f));
    }
}

/// A list of signed integers is read back from its bytes.
pub proof fn lemma_i64s_round_trip(xs: Seq<i64>, tail: Seq<u8>)
    ensures
        parse_seq(ser_seq(xs, i64_ser()) + tail, xs.len(), i64_parser()) == Ok::<
            (Seq<i64>, Seq<u8>),
            DecodeError,
        >((xs, tail)),
{
    let f = i64_ser();
    let p = i64_parser();
    assert forall|i: int, t: Seq<u8>| 0 <= i < xs.len() implies #[trigger] p(f(xs[i]) + t) == Ok::<
        (i64, Seq<u8>),
        DecodeError,
    >((xs[i], t)) by {
        lemma_vli64_round_trip(xs[i], t);
    }
    lemma_seq_round_trip(xs, tail, f, p);
}

/// A term is read back from its bytes.
pub proof fn lemma_term_round_trip(t: (VariableIndex, Coefficient), tail: Seq<u8>)
    requires
        t.0.wf(),
    ensures
        parse_term(ser_term(t) + tail) == Ok::<
            ((VariableIndex, Coefficient), Seq<u8>),
            DecodeError,
        >((t, tail)),
{
    lemma_vli64_round_trip(t.0.number(), ser_i64(t.1.0) + tail);
    lemma_vli64_round_trip(t.1.0, tail);
    t.0.lemma_number_bijection(0);
    assert(ser_term(t) + tail =~= ser_i64(t.0.number()) + (ser_i64(t.1.0) + tail));
}

/// A linear combination is read back from its bytes, whatever the order of
/// its terms and whatever its coefficients.
pub proof fn lemma_lc_round_trip(lc: Seq<(VariableIndex, Coefficient)>, tail: Seq<u8>)
    requires
        terms_wf(lc),
        terms_fit(lc),
    ensures
        parse_lc(ser_lc(lc) + tail) == Ok::<
            (Seq<(VariableIndex, Coefficient)>, Seq<u8>),
            DecodeError,
        >((lc, tail)),
{
    let f = term_ser();
    let p = term_parser();
    assert forall|i: int, t: Seq<u8>| 0 <= i < lc.len() implies #[trigger] p(f(lc[i]) + t) == Ok::<
        ((VariableIndex, Coefficient), Seq<u8>),
        DecodeError,
    >((lc[i], t)) by {
        lemma_term_round_trip(lc[i], t);
    }
    lemma_seq_round_trip(lc, tail, f, p);
    lemma_vlusize_round_trip(lc.len() as usize, ser_seq(lc, f) + tail);
    assert(ser_lc(lc) + tail =~= varint(lc.len()) + (ser_seq(lc, f) + tail));
}

/// A constraint is read back from its bytes.
pub proof fn lemma_constraint_round_trip(c: ConstraintView, tail: Seq<u8>)
    requires
        c.wf(),
        c.fits(),
    ensures
        parse_constraint(ser_constraint(c) + tail) == Ok::<(ConstraintView, Seq<u8>), DecodeError>(
            (c, tail),
        ),
{
    lemma_lc_round_trip(c.a, ser_lc(c.b) + (ser_lc(c.c) + tail));
    lemma_lc_round_trip(c.b, ser_lc(c.c) + tail);
    lemma_lc_round_trip(c.c, tail);
    assert(ser_constraint(c) + tail =~= ser_lc(c.a) + (ser_lc(c.b) + (ser_lc(c.c) + tail)));
}

/// A header is read back from its bytes, the entries after the fourth
/// included.
pub proof fn lemma_header_round_trip(h: HeaderView, tail: Seq<u8>)
    requires
        h.wf(),
        h.fits(),
    ensures
        parse_header(ser_header(h) + tail) == Ok::<(HeaderView, Seq<u8>), DecodeError>((h, tail)),
{
    let n = h.to_file();
    let body = ser_seq(n, i64_ser());
    lemma_vlusize_round_trip(h.v, varint(n.len()) + (body + tail));
    lemma_vlusize_round_trip(n.len() as usize, body + tail);
    lemma_i64s_round_trip(n, tail);
    h.lemma_file_round_trip(h.v, n);
    assert(ser_header(h) + tail =~= varint(h.v as nat) + (varint(n.len()) + (body + tail)));
}

/// A constraint system is read back from the bytes of its file: every field
/// of the header and every term of every constraint comes out as it went
/// in, and what follows the file is left unread.
pub proof fn lemma_r1cs_round_trip(r: R1CSView, tail: Seq<u8>)
    requires
        r.wf(),
        r.fits(),
    ensures
        parse_r1cs(ser_r1cs(r) + tail) == Ok::<(R1CSView, Seq<u8>), DecodeError>((r, tail)),
{
    let f = constraint_ser();
    let p = constraint_parser();
    let cs = r.constraints;
    let body = ser_seq(cs, f);
    let s = ser_r1cs(r) + tail;
    let after_tag = ser_header(r.header) + (varint(cs.len()) + (body + tail));
    assert(s =~= magic_r1cs() + after_tag);
    assert(s.take(4) =~= magic_r1cs());
    assert(s.skip(4) =~= after_tag);
    lemma_header_round_trip(r.header, varint(cs.len()) + (body + tail));
    lemma_vlusize_round_trip(cs.len() as usize, body + tail);
    assert forall|i: int, t: Seq<u8>| 0 <= i < cs.len() implies #[trigger] p(f(cs[i]) + t) == Ok::<
        (ConstraintView, Seq<u8>),
        DecodeError,
    >((cs[i], t)) by {
        lemma_constraint_round_trip(cs[i], t);
    }
    lemma_seq_round_trip(cs, tail, f, p);
}

/// An assignment list is read back from the bytes of its file: the header
/// says how many values follow, and each comes out under its own variable.
pub proof fn lemma_assignments_round_trip(a: AssignmentsView, tail: Seq<u8>)
    requires
        a.wf(),
        a.header.fits(),
    ensures
        parse_assignments(ser_assignments(a) + tail) == Ok::<
            (AssignmentsView, Seq<u8>),
            DecodeError,
        >((a, tail)),
{
    let f = i64_ser();
    let values = assigned_values(a.assignments);
    let nx = a.header.nx as int;
    let c = values.take(1);
    let x = values.subrange(1, 1 + nx);
    let w = values.skip(1 + nx);
    let s = ser_assignments(a) + tail;
    let after_tag = ser_header(a.header) + (ser_seq(values, f) + tail);
    assert(s =~= magic_assignments() + after_tag);
    assert(s.take(4) =~= magic_assignments());
    assert(s.skip(4) =~= after_tag);
    lemma_header_round_trip(a.header, ser_seq(values, f) + tail);
    assert(values =~= c + x + w);
    lemma_ser_seq_concat(c, x, f);
    lemma_ser_seq_concat(c + x, w, f);
    assert(ser_seq(values, f) + tail =~= ser_seq(c, f) + (ser_seq(x, f) + (ser_seq(w, f)
        + tail)));
    lemma_i64s_round_trip(c, ser_seq(x, f) + (ser_seq(w, f) + tail));
    lemma_i64s_round_trip(x, ser_seq(w, f) + tail);
    lemma_i64s_round_trip(w, tail);
    assert(parse_assignment_array(ser_seq(values, f) + tail, a.header.nx, a.header.nw) == Ok::<
        (Seq<Assignment>, Seq<u8>),
        DecodeError,
    >((a.assignments, tail)));
}

/// What holds of every element that `p` can read holds of every element of
/// a list read with `p`.
pub proof fn lemma_parse_seq_all<T>(
    s: Seq<u8>,
    n: nat,
    p: spec_fn(Seq<u8>) -> Result<(T, Seq<u8>), DecodeError>,
    good: spec_fn(T) -> bool,
)
    requires
        forall|t: Seq<u8>| (#[trigger] p(t)) is Ok ==> good(p(t)->Ok_0.0),
    ensures
        parse_seq(s, n, p) matches Ok(r) ==> forall|i: int|
            0 <= i < r.0.len() ==> good(#[trigger] r.0[i]),
    decreases n,
{
    if n > 0 {
        lemma_parse_seq_all(s, (n - 1) as nat, p, good);
    }
}

/// Every linear combination that is read refers to variables that have
/// numbers, and can be written again.
pub proof fn lemma_parsed_lc_wf(s: Seq<u8>)
    ensures
        parse_lc(s) matches Ok(r) ==> terms_wf(r.0) && terms_fit(r.0),
{
    if let Ok((n, rest)) = parse_vlusize(s) {
        let good = |t: (VariableIndex, Coefficient)| t.0.wf();
        assert forall|t: Seq<u8>| (#[trigger] term_parser()(t)) is Ok implies good(
            term_parser()(t)->Ok_0.0,
        ) by {
            if let Ok((t, _)) = parse_term(t) {
                t.0.lemma_number_bijection(t.0.number());
            }
        }
        lemma_parse_seq_all(rest, n as nat, term_parser(), good);
        lemma_parse_seq_len(rest, n as nat, term_parser());
    }
}

/// Every constraint that is read can be written again.
pub proof fn lemma_parsed_constraint_wf(s: Seq<u8>)
    ensures
        parse_constraint(s) matches Ok(r) ==> r.0.wf() && r.0.fits(),
{
    lemma_parsed_lc_wf(s);
    if let Ok((_, rest)) = parse_lc(s) {
        lemma_parsed_lc_wf(rest);
        if let Ok((_, rest)) = parse_lc(rest) {
            lemma_parsed_lc_wf(rest);
        }
    }
}

/// Every header that is read can be written again, and its entries are those
/// that were read.
pub proof fn lemma_parsed_header_wf(s: Seq<u8>)
    ensures
        parse_header(s) matches Ok(r) ==> r.0.wf() && r.0.fits(),
{
    if let Ok((v, rest)) = parse_vlusize(s) {
        if let Ok((n, rest)) = parse_vlusize(rest) {
            lemma_parse_seq_len(rest, n as nat, i64_parser());
            if let Ok((entries, _)) = parse_seq(rest, n as nat, i64_parser()) {
                HeaderView::lemma_file_round_trip(
                    HeaderView { v: 0, p: 0, m: 0, nx: 0, nw: 0, ignored: Seq::empty() },
                    v,
                    entries,
                );
            }
        }
    }
}

/// Every constraint system that is read can be written again.
pub proof fn lemma_parsed_r1cs_wf(s: Seq<u8>)
    ensures
        parse_r1cs(s) matches Ok(r) ==> r.0.wf() && r.0.fits(),
{
    if s.len() >= 4 {
        let rest = s.skip(4);
        lemma_parsed_header_wf(rest);
        if let Ok((_, rest)) = parse_header(rest) {
            if let Ok((n, rest)) = parse_vlusize(rest) {
                let good = |c: ConstraintView| c.wf() && c.fits();
                assert forall|t: Seq<u8>| (#[trigger] constraint_parser()(t)) is Ok implies good(
                    constraint_parser()(t)->Ok_0.0,
                ) by {
                    lemma_parsed_constraint_wf(t);
                }
                lemma_parse_seq_all(rest, n as nat, constraint_parser(), good);
                lemma_parse_seq_len(rest, n as nat, constraint_parser());
            }
        }
    }
}

/// Every assignment list that is read holds one value for the constant and
/// one for each variable that its header counts, each under its own
/// variable, and can be written again.
pub proof fn lemma_parsed_assignments_wf(s: Seq<u8>)
    ensures
        parse_assignments(s) matches Ok(r) ==> r.0.wf() && r.0.header.fits(),
{
    if s.len() >= 4 {
        let rest = s.skip(4);
        lemma_parsed_header_wf(rest);
        if let Ok((h, rest)) = parse_header(rest) {
            lemma_parse_seq_len(rest, 1, i64_parser());
            if let Ok((c, rest)) = parse_seq(rest, 1, i64_parser()) {
                lemma_parse_seq_len(rest, h.nx as nat, i64_parser());
                if let Ok((x, rest)) = parse_seq(rest, h.nx as nat, i64_parser()) {
                    lemma_parse_seq_len(rest, h.nw as nat, i64_parser());
                    if let Ok((w, _)) = parse_seq(rest, h.nw as nat, i64_parser()) {
                        let a = label_values(c + x + w, h.nx as int);
                        assert(a =~= label_values(assigned_values(a), h.nx as int));
                    }
                }
            }
        }
    }
}

/// Where each element takes at least one byte, a list that is read leaves
/// at least as many bytes fewer as it has elements.
pub proof fn lemma_parse_seq_consumes<T>(
    s: Seq<u8>,
    n: nat,
    p: spec_fn(Seq<u8>) -> Result<(T, Seq<u8>), DecodeError>,
)
    requires
        forall|t: Seq<u8>| (#[trigger] p(t)) is Ok ==> p(t)->Ok_0.1.len() < t.len(),
    ensures
        parse_seq(s, n, p) matches Ok(r) ==> r.1.len() + n <= s.len(),
    decreases n,
{
    if n > 0 {
        lemma_parse_seq_consumes(s, (n - 1) as nat, p);
    }
}

/// A term takes at least one byte.
pub proof fn lemma_term_consumes(s: Seq<u8>)
    ensures
        parse_term(s) matches Ok(r) ==> r.1.len() < s.len(),
{
    lemma_varint_len_bounds(s);
    if let Ok((_, rest)) = parse_vli64(s) {
        lemma_varint_len_bounds(rest);
    }
}

/// A linear combination takes at least one byte, and at least one more for
/// each of its terms.
pub proof fn lemma_lc_consumes(s: Seq<u8>)
    ensures
        parse_lc(s) matches Ok(r) ==> r.1.len() + r.0.len() < s.len(),
{
    lemma_varint_len_bounds(s);
    if let Ok((n, rest)) = parse_vlusize(s) {
        assert forall|t: Seq<u8>| (#[trigger] term_parser()(t)) is Ok implies term_parser()(
            t,
        )->Ok_0.1.len() < t.len() by {
            lemma_term_consumes(t);
        }
        lemma_parse_seq_consumes(rest, n as nat, term_parser());
        lemma_parse_seq_len(rest, n as nat, term_parser());
    }
}

/// A constraint takes at least one byte.
pub proof fn lemma_constraint_consumes(s: Seq<u8>)
    ensures
        parse_constraint(s) matches Ok(r) ==> r.1.len() < s.len(),
{
    lemma_lc_consumes(s);
    if let Ok((_, rest)) = parse_lc(s) {
        lemma_lc_consumes(rest);
        if let Ok((_, rest)) = parse_lc(rest) {
            lemma_lc_consumes(rest);
        }
    }
}

/// A count that is larger than the number of bytes left cannot be met:
/// reading that many integers, terms or constraints fails.
pub proof fn lemma_count_beyond_buffer(s: Seq<u8>, n: nat)
    requires
        n > s.len(),
    ensures
        parse_seq(s, n, i64_parser()) is Err,
        parse_seq(s, n, term_parser()) is Err,
        parse_seq(s, n, constraint_parser()) is Err,
{
    assert forall|t: Seq<u8>| (#[trigger] i64_parser()(t)) is Ok implies i64_parser()(
        t,
    )->Ok_0.1.len() < t.len() by {
        lemma_varint_len_bounds(t);
    }
    lemma_parse_seq_consumes(s, n, i64_parser());
    assert forall|t: Seq<u8>| (#[trigger] term_parser()(t)) is Ok implies term_parser()(
        t,
    )->Ok_0.1.len() < t.len() by {
        lemma_term_consumes(t);
    }
    lemma_parse_seq_consumes(s, n, term_parser());
    assert forall|t: Seq<u8>| (#[trigger] constraint_parser()(t)) is Ok implies constraint_parser()(
        t,
    )->Ok_0.1.len() < t.len() by {
        lemma_constraint_consumes(t);
    }
    lemma_parse_seq_consumes(s, n, constraint_parser());
}

/// Bytes that do not start with the tag of a format are refused as such,
/// whatever follows.
pub proof fn lemma_wrong_tag_rejected(s: Seq<u8>)
    ensures
        s.len() < 4 || s.take(4) != magic_r1cs() ==> parse_r1cs(s) == Err::<
            (R1CSView, Seq<u8>),
            DecodeError,
        >(DecodeError::MalformedTag),
        s.len() < 4 || s.take(4) != magic_assignments() ==> parse_assignments(s) == Err::<
            (AssignmentsView, Seq<u8>),
            DecodeError,
        >(DecodeError::MalformedTag),
{
}

/// Entries of which one of the first four is negative make no header.
pub proof fn lemma_negative_field_rejected(v: usize, n: Seq<i64>, i: int)
    requires
        0 <= i < 4,
        i < n.len(),
        n[i] < 0,
    ensures
        HeaderView::from_file(v, n) == Err::<HeaderView, DecodeError>(DecodeError::InvalidHeader),
{
}

/// The bytes of a version and of any list of entries, whether or not they
/// make a header.
pub open spec fn ser_entries(v: usize, n: Seq<i64>) -> Seq<u8> {
    varint(v as nat) + varint(n.len()) + ser_seq(n, i64_ser())
}

/// Entries of which there are fewer than four, or of which one of the first
/// four is negative, are refused as an invalid header once they are read.
pub proof fn lemma_invalid_header_rejected(v: usize, n: Seq<i64>, tail: Seq<u8>)
    requires
        n.len() <= usize::MAX,
        n.len() < 4 || n[0] < 0 || n[1] < 0 || n[2] < 0 || n[3] < 0,
    ensures
        parse_header(ser_entries(v, n) + tail) == Err::<(HeaderView, Seq<u8>), DecodeError>(
            DecodeError::InvalidHeader,
        ),
{
    let body = ser_seq(n, i64_ser());
    let s = ser_entries(v, n) + tail;
    let s1 = varint(n.len()) + (body + tail);
    let s2 = body + tail;
    lemma_vlusize_round_trip(v, s1);
    lemma_vlusize_round_trip(n.len() as usize, s2);
    lemma_i64s_round_trip(n, tail);
    assert(s =~= varint(v as nat) + s1);
    assert(parse_vlusize(s) == Ok::<(usize, Seq<u8>), DecodeError>((v, s1)));
    assert(parse_vlusize(s1) == Ok::<(usize, Seq<u8>), DecodeError>((n.len() as usize, s2)));
    assert(parse_seq(s2, n.len(), i64_parser()) == Ok::<(Seq<i64>, Seq<u8>), DecodeError>(
        (n, tail),
    ));
}

/// A file whose header has fewer than four entries, or a negative one among
/// the first four, is refused as having an invalid header, whatever stands
/// behind the header.
pub proof fn lemma_invalid_header_file_rejected(v: usize, n: Seq<i64>, tail: Seq<u8>)
    requires
        n.len() <= usize::MAX,
        n.len() < 4 || n[0] < 0 || n[1] < 0 || n[2] < 0 || n[3] < 0,
    ensures
        parse_r1cs(magic_r1cs() + (ser_entries(v, n) + tail)) == Err::<
            (R1CSView, Seq<u8>),
            DecodeError,
        >(DecodeError::InvalidHeader),
        parse_assignments(magic_assignments() + (ser_entries(v, n) + tail)) == Err::<
            (AssignmentsView, Seq<u8>),
            DecodeError,
        >(DecodeError::InvalidHeader),
{
    let h = ser_entries(v, n) + tail;
    lemma_invalid_header_rejected(v, n, tail);
    let r = magic_r1cs() + h;
    assert(r.take(4) =~= magic_r1cs());
    assert(r.skip(4) =~= h);
    let a = magic_assignments() + h;
    assert(a.take(4) =~= magic_assignments());
    assert(a.skip(4) =~= h);
}

} // verus!
