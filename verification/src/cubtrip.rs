//! The cube header's text, piece by piece: the bytes of every fixed piece of a tensor object
//! and of the label, where each key, '=' and line break falls in them, and how one tensor
//! object reads back under the header reader's `pvl_val`.

use vstd::prelude::*;
use vstd::string::StringSliceAdditionalSpecFns;
use vstd::utf8::{decode_utf8, encode_utf8, valid_utf8};

use crate::cub::CubTensorSpec;
use crate::cubfile::{
    all_digits, dec, field_i32, field_uint, header_text, idec, label_onto, parse_i32, parse_uint, printable, pvl_val, quote_back, quote_front, skip_ws_in,
    entry_matches, entry_next, entry_ok, tensor_onto, tensors_onto, trim_back, ws_back,
};
use crate::fold::TensorFold;
use crate::surfaces::{digits_val, find_from, matches_at, ws_len};

verus! {

// ── searching ────────────────────────────────────────────────────────────────

/// `pat` occurs nowhere in `s`.
pub open spec fn free_of(s: Seq<u8>, pat: Seq<u8>) -> bool {
    forall|q: int| !#[trigger] matches_at(s, pat, q)
}

/// `pat` starts at no byte q of `d` with a <= q < b.
pub open spec fn no_hit(d: Seq<u8>, pat: Seq<u8>, a: int, b: int) -> bool {
    forall|q: int| a <= q < b ==> !#[trigger] matches_at(d, pat, q)
}

/// `p` stands in `d` at byte x.
pub open spec fn piece_at(d: Seq<u8>, x: int, p: Seq<u8>) -> bool {
    &&& 0 <= x
    &&& x + p.len() <= d.len()
    &&& d.subrange(x, x + p.len()) == p
}

pub(crate) proof fn lemma_piece_bytes(d: Seq<u8>, x: int, p: Seq<u8>)
    requires
        piece_at(d, x, p),
    ensures
        forall|q: int| x <= q < x + p.len() ==> #[trigger] d[q] == p[q - x],
{
    assert forall|q: int| x <= q < x + p.len() implies #[trigger] d[q] == p[q - x] by {
        assert(d.subrange(x, x + p.len())[q - x] == d[q]);
    }
}

pub(crate) proof fn lemma_match_head(d: Seq<u8>, pat: Seq<u8>, q: int)
    requires
        matches_at(d, pat, q),
    ensures
        forall|j: int| 0 <= j < pat.len() ==> #[trigger] d[q + j] == pat[j],
{
    assert forall|j: int| 0 <= j < pat.len() implies #[trigger] d[q + j] == pat[j] by {
        assert(d.subrange(q, q + pat.len())[j] == pat[j]);
    }
}

/// The first occurrence of `pat` at or after i is the one at p when none comes before it.
pub(crate) proof fn lemma_find_first(d: Seq<u8>, pat: Seq<u8>, i: int, p: int)
    requires
        0 <= i <= p,
        matches_at(d, pat, p),
        no_hit(d, pat, i, p),
    ensures
        find_from(d, pat, i) == Some(p),
    decreases p - i,
{
    if i < p {
        assert(!matches_at(d, pat, i));
        lemma_find_first(d, pat, i + 1, p);
    }
}

/// No occurrence at or after i: nothing is found.
pub(crate) proof fn lemma_find_none(d: Seq<u8>, pat: Seq<u8>, i: int)
    requires
        0 <= i,
        no_hit(d, pat, i, d.len() as int + 1),
    ensures
        find_from(d, pat, i) is None,
    decreases d.len() - i,
{
    if !(i < 0 || i + pat.len() > d.len()) && i < d.len() {
        assert(!matches_at(d, pat, i));
        lemma_find_none(d, pat, i + 1);
    }
}

/// No occurrence starts at a byte unlike the pattern's first.
pub(crate) proof fn lemma_no_hit_first(d: Seq<u8>, pat: Seq<u8>, a: int, b: int)
    requires
        pat.len() >= 1,
        forall|q: int| a <= q < b ==> #[trigger] d[q] != pat[0],
    ensures
        no_hit(d, pat, a, b),
{
    assert forall|q: int| a <= q < b implies !#[trigger] matches_at(d, pat, q) by {
        if matches_at(d, pat, q) {
            lemma_match_head(d, pat, q);
            assert(d[q + 0] == pat[0]);
        }
    }
}

pub(crate) proof fn lemma_sub_piece(d: Seq<u8>, x: int, p: Seq<u8>, o: int, c: Seq<u8>)
    requires
        piece_at(d, x, p),
        0 <= o,
        o + c.len() <= p.len(),
        p.subrange(o, o + c.len()) == c,
    ensures
        piece_at(d, x + o, c),
{
    assert(d.subrange(x + o, x + o + c.len()) =~= c) by {
        assert forall|j: int| 0 <= j < c.len() implies d.subrange(x + o, x + o + c.len())[j] == c[j] by {
            assert(d.subrange(x, x + p.len())[o + j] == p[o + j]);
            assert(p.subrange(o, o + c.len())[j] == p[o + j]);
        }
    }
}

/// A piece free of the pattern, followed by a byte the pattern does not hold, hides no
/// occurrence.
pub(crate) proof fn lemma_no_hit_free(d: Seq<u8>, pat: Seq<u8>, x: int, s: Seq<u8>)
    requires
        piece_at(d, x, s),
        free_of(s, pat),
        x + s.len() < d.len(),
        forall|j: int| 0 <= j < pat.len() ==> pat[j] != d[x + s.len()],
    ensures
        no_hit(d, pat, x, x + s.len()),
{
    lemma_piece_bytes(d, x, s);
    assert forall|q: int| x <= q < x + s.len() implies !#[trigger] matches_at(d, pat, q) by {
        if matches_at(d, pat, q) {
            lemma_match_head(d, pat, q);
            if q + pat.len() <= x + s.len() {
                assert(s.subrange(q - x, q - x + pat.len()) =~= pat) by {
                    assert forall|j: int| 0 <= j < pat.len() implies s.subrange(q - x, q - x + pat.len())[j] == pat[j] by {
                        assert(d[q + j] == pat[j]);
                        assert(d[q + j] == s[q + j - x]);
                    }
                }
                assert(matches_at(s, pat, q - x));
            } else {
                let j = x + s.len() - q;
                assert(d[q + j] == pat[j]);
            }
        }
    }
}

/// Tensor object text, piece 0.
pub open spec fn tp0() -> Seq<u8> {
    seq![32u8, 32u8, 79u8, 98u8, 106u8, 101u8, 99u8, 116u8, 32u8, 61u8, 32u8, 84u8, 101u8, 110u8, 115u8, 111u8, 114u8, 10u8, 32u8, 32u8, 32u8, 32u8, 78u8, 97u8, 109u8, 101u8, 32u8, 32u8, 32u8, 32u8, 32u8, 32u8, 32u8, 61u8, 32u8, 34u8]
}

/// Tensor object text, piece 1.
pub open spec fn tp1() -> Seq<u8> {
    seq![34u8, 10u8, 32u8, 32u8, 32u8, 32u8, 76u8, 105u8, 110u8, 101u8, 115u8, 32u8, 32u8, 32u8, 32u8, 32u8, 32u8, 61u8, 32u8]
}

/// Tensor object text, piece 2.
pub open spec fn tp2() -> Seq<u8> {
    seq![10u8, 32u8, 32u8, 32u8, 32u8, 83u8, 97u8, 109u8, 112u8, 108u8, 101u8, 115u8, 32u8, 32u8, 32u8, 32u8, 61u8, 32u8]
}

/// Tensor object text, piece 3.
pub open spec fn tp3() -> Seq<u8> {
    seq![10u8, 32u8, 32u8, 32u8, 32u8, 82u8, 117u8, 110u8, 103u8, 77u8, 105u8, 110u8, 32u8, 32u8, 32u8, 32u8, 61u8, 32u8]
}

/// Tensor object text, piece 4.
pub open spec fn tp4() -> Seq<u8> {
    seq![10u8, 32u8, 32u8, 32u8, 32u8, 82u8, 117u8, 110u8, 103u8, 77u8, 97u8, 120u8, 32u8, 32u8, 32u8, 32u8, 61u8, 32u8]
}

/// Tensor object text, piece 5.
pub open spec fn tp5() -> Seq<u8> {
    seq![10u8, 32u8, 32u8, 32u8, 32u8, 66u8, 97u8, 110u8, 100u8, 115u8, 32u8, 32u8, 32u8, 32u8, 32u8, 32u8, 61u8, 32u8]
}

/// Tensor object text, piece 6.
pub open spec fn tp6() -> Seq<u8> {
    seq![10u8, 32u8, 32u8, 32u8, 32u8, 84u8, 105u8, 108u8, 101u8, 115u8, 32u8, 32u8, 32u8, 32u8, 32u8, 32u8, 61u8, 32u8]
}

/// Tensor object text, piece 7.
pub open spec fn tp7() -> Seq<u8> {
    seq![10u8, 32u8, 32u8, 32u8, 32u8, 73u8, 110u8, 100u8, 101u8, 120u8, 66u8, 121u8, 116u8, 101u8, 32u8, 32u8, 61u8, 32u8]
}

/// Tensor object text, piece 8.
pub open spec fn tp8() -> Seq<u8> {
    seq![10u8, 32u8, 32u8, 32u8, 32u8, 66u8, 111u8, 100u8, 121u8, 66u8, 121u8, 116u8, 101u8, 32u8, 32u8, 32u8, 61u8, 32u8]
}

/// Tensor object text, piece 9.
pub open spec fn tp9() -> Seq<u8> {
    seq![10u8, 32u8, 32u8, 32u8, 32u8, 66u8, 111u8, 100u8, 121u8, 66u8, 121u8, 116u8, 101u8, 115u8, 32u8, 32u8, 61u8, 32u8]
}

/// Tensor object text, piece 10.
pub open spec fn tp10() -> Seq<u8> {
    seq![10u8, 32u8, 32u8, 69u8, 110u8, 100u8, 95u8, 79u8, 98u8, 106u8, 101u8, 99u8, 116u8, 10u8]
}

/// The header's closing text.
pub open spec fn trailer() -> Seq<u8> {
    seq![69u8, 110u8, 100u8, 95u8, 79u8, 98u8, 106u8, 101u8, 99u8, 116u8, 10u8, 69u8, 110u8, 100u8, 10u8]
}

pub open spec fn pat_ot() -> Seq<u8> {
    seq![79u8, 98u8, 106u8, 101u8, 99u8, 116u8, 32u8, 61u8, 32u8, 84u8, 101u8, 110u8, 115u8, 111u8, 114u8]
}

pub open spec fn pat_end() -> Seq<u8> {
    seq![69u8, 110u8, 100u8, 10u8]
}

pub open spec fn pat_name() -> Seq<u8> {
    seq![78u8, 97u8, 109u8, 101u8]
}

pub open spec fn pat_lines() -> Seq<u8> {
    seq![76u8, 105u8, 110u8, 101u8, 115u8]
}

pub open spec fn pat_samples() -> Seq<u8> {
    seq![83u8, 97u8, 109u8, 112u8, 108u8, 101u8, 115u8]
}

pub open spec fn pat_rmin() -> Seq<u8> {
    seq![82u8, 117u8, 110u8, 103u8, 77u8, 105u8, 110u8]
}

pub open spec fn pat_rmax() -> Seq<u8> {
    seq![82u8, 117u8, 110u8, 103u8, 77u8, 97u8, 120u8]
}

pub open spec fn pat_tiles() -> Seq<u8> {
    seq![84u8, 105u8, 108u8, 101u8, 115u8]
}

pub open spec fn pat_ib() -> Seq<u8> {
    seq![73u8, 110u8, 100u8, 101u8, 120u8, 66u8, 121u8, 116u8, 101u8]
}

pub open spec fn pat_bb() -> Seq<u8> {
    seq![66u8, 111u8, 100u8, 121u8, 66u8, 121u8, 116u8, 101u8]
}

pub open spec fn pat_bbs() -> Seq<u8> {
    seq![66u8, 111u8, 100u8, 121u8, 66u8, 121u8, 116u8, 101u8, 115u8]
}

pub open spec fn pat_eq() -> Seq<u8> {
    seq![61u8]
}

pub open spec fn pat_nl() -> Seq<u8> {
    seq![10u8]
}

#[verifier::spinoff_prover]
pub(crate) proof fn lemma_tp0_pat_end(d: Seq<u8>, x: int)
    requires
        piece_at(d, x, tp0()),
    ensures
        no_hit(d, pat_end(), x + 0, x + 36),
{
    lemma_piece_bytes(d, x, tp0());
    assert forall|q: int| x + 0 <= q < x + 36 implies !#[trigger] matches_at(d, pat_end(), q) by {
        if matches_at(d, pat_end(), q) {
            lemma_match_head(d, pat_end(), q);
            assert(d[q + 0] == pat_end()[0]);
        }
    }
}

#[verifier::spinoff_prover]
pub(crate) proof fn lemma_tp0_pat_nl(d: Seq<u8>, x: int)
    requires
        piece_at(d, x, tp0()),
    ensures
        no_hit(d, pat_nl(), x + 0, x + 17),
        matches_at(d, pat_nl(), x + 17),
        no_hit(d, pat_nl(), x + 18, x + 36),
{
    lemma_piece_bytes(d, x, tp0());
    assert forall|q: int| x + 0 <= q < x + 17 implies !#[trigger] matches_at(d, pat_nl(), q) by {
        if matches_at(d, pat_nl(), q) {
            lemma_match_head(d, pat_nl(), q);
            assert(d[q + 0] == pat_nl()[0]);
        }
    }
    assert(d.subrange(x + 17, x + 17 + 1) =~= pat_nl());
    assert forall|q: int| x + 18 <= q < x + 36 implies !#[trigger] matches_at(d, pat_nl(), q) by {
        if matches_at(d, pat_nl(), q) {
            lemma_match_head(d, pat_nl(), q);
            assert(d[q + 0] == pat_nl()[0]);
        }
    }
}

#[verifier::spinoff_prover]
pub(crate) proof fn lemma_tp0_pat_ot(d: Seq<u8>, x: int)
    requires
        piece_at(d, x, tp0()),
    ensures
        no_hit(d, pat_ot(), x + 0, x + 2),
        matches_at(d, pat_ot(), x + 2),
        no_hit(d, pat_ot(), x + 3, x + 36),
{
    lemma_piece_bytes(d, x, tp0());
    assert forall|q: int| x + 0 <= q < x + 2 implies !#[trigger] matches_at(d, pat_ot(), q) by {
        if matches_at(d, pat_ot(), q) {
            lemma_match_head(d, pat_ot(), q);
            assert(d[q + 0] == pat_ot()[0]);
        }
    }
    assert(d.subrange(x + 2, x + 2 + 15) =~= pat_ot());
    assert forall|q: int| x + 3 <= q < x + 36 implies !#[trigger] matches_at(d, pat_ot(), q) by {
        if matches_at(d, pat_ot(), q) {
            lemma_match_head(d, pat_ot(), q);
            assert(d[q + 0] == pat_ot()[0]);
        }
    }
}

#[verifier::spinoff_prover]
pub(crate) proof fn lemma_tp0_pat_eq(d: Seq<u8>, x: int)
    requires
        piece_at(d, x, tp0()),
    ensures
        no_hit(d, pat_eq(), x + 0, x + 9),
        matches_at(d, pat_eq(), x + 9),
        no_hit(d, pat_eq(), x + 10, x + 33),
        matches_at(d, pat_eq(), x + 33),
        no_hit(d, pat_eq(), x + 34, x + 36),
{
    lemma_piece_bytes(d, x, tp0());
    assert forall|q: int| x + 0 <= q < x + 9 implies !#[trigger] matches_at(d, pat_eq(), q) by {
        if matches_at(d, pat_eq(), q) {
            lemma_match_head(d, pat_eq(), q);
            assert(d[q + 0] == pat_eq()[0]);
        }
    }
    assert(d.subrange(x + 9, x + 9 + 1) =~= pat_eq());
    assert forall|q: int| x + 10 <= q < x + 33 implies !#[trigger] matches_at(d, pat_eq(), q) by {
        if matches_at(d, pat_eq(), q) {
            lemma_match_head(d, pat_eq(), q);
            assert(d[q + 0] == pat_eq()[0]);
        }
    }
    assert(d.subrange(x + 33, x + 33 + 1) =~= pat_eq());
    assert forall|q: int| x + 34 <= q < x + 36 implies !#[trigger] matches_at(d, pat_eq(), q) by {
        if matches_at(d, pat_eq(), q) {
            lemma_match_head(d, pat_eq(), q);
            assert(d[q + 0] == pat_eq()[0]);
        }
    }
}

#[verifier::spinoff_prover]
pub(crate) proof fn lemma_tp0_pat_name(d: Seq<u8>, x: int)
    requires
        piece_at(d, x, tp0()),
    ensures
        no_hit(d, pat_name(), x + 0, x + 22),
        matches_at(d, pat_name(), x + 22),
        no_hit(d, pat_name(), x + 23, x + 36),
{
    lemma_piece_bytes(d, x, tp0());
    assert forall|q: int| x + 0 <= q < x + 22 implies !#[trigger] matches_at(d, pat_name(), q) by {
        if matches_at(d, pat_name(), q) {
            lemma_match_head(d, pat_name(), q);
            assert(d[q + 0] == pat_name()[0]);
        }
    }
    assert(d.subrange(x + 22, x + 22 + 4) =~= pat_name());
    assert forall|q: int| x + 23 <= q < x + 36 implies !#[trigger] matches_at(d, pat_name(), q) by {
        if matches_at(d, pat_name(), q) {
            lemma_match_head(d, pat_name(), q);
            assert(d[q + 0] == pat_name()[0]);
        }
    }
}

#[verifier::spinoff_prover]
pub(crate) proof fn lemma_tp0_pat_lines(d: Seq<u8>, x: int)
    requires
        piece_at(d, x, tp0()),
    ensures
        no_hit(d, pat_lines(), x + 0, x + 36),
{
    lemma_piece_bytes(d, x, tp0());
    assert forall|q: int| x + 0 <= q < x + 36 implies !#[trigger] matches_at(d, pat_lines(), q) by {
        if matches_at(d, pat_lines(), q) {
            lemma_match_head(d, pat_lines(), q);
            assert(d[q + 0] == pat_lines()[0]);
        }
    }
}

#[verifier::spinoff_prover]
pub(crate) proof fn lemma_tp0_pat_samples(d: Seq<u8>, x: int)
    requires
        piece_at(d, x, tp0()),
    ensures
        no_hit(d, pat_samples(), x + 0, x + 36),
{
    lemma_piece_bytes(d, x, tp0());
    assert forall|q: int| x + 0 <= q < x + 36 implies !#[trigger] matches_at(d, pat_samples(), q) by {
        if matches_at(d, pat_samples(), q) {
            lemma_match_head(d, pat_samples(), q);
            assert(d[q + 0] == pat_samples()[0]);
        }
    }
}

#[verifier::spinoff_prover]
pub(crate) proof fn lemma_tp0_pat_rmin(d: Seq<u8>, x: int)
    requires
        piece_at(d, x, tp0()),
    ensures
        no_hit(d, pat_rmin(), x + 0, x + 36),
{
    lemma_piece_bytes(d, x, tp0());
    assert forall|q: int| x + 0 <= q < x + 36 implies !#[trigger] matches_at(d, pat_rmin(), q) by {
        if matches_at(d, pat_rmin(), q) {
            lemma_match_head(d, pat_rmin(), q);
            assert(d[q + 0] == pat_rmin()[0]);
        }
    }
}

#[verifier::spinoff_prover]
pub(crate) proof fn lemma_tp0_pat_rmax(d: Seq<u8>, x: int)
    requires
        piece_at(d, x, tp0()),
    ensures
        no_hit(d, pat_rmax(), x + 0, x + 36),
{
    lemma_piece_bytes(d, x, tp0());
    assert forall|q: int| x + 0 <= q < x + 36 implies !#[trigger] matches_at(d, pat_rmax(), q) by {
        if matches_at(d, pat_rmax(), q) {
            lemma_match_head(d, pat_rmax(), q);
            assert(d[q + 0] == pat_rmax()[0]);
        }
    }
}

#[verifier::spinoff_prover]
pub(crate) proof fn lemma_tp0_pat_tiles(d: Seq<u8>, x: int)
    requires
        piece_at(d, x, tp0()),
    ensures
        no_hit(d, pat_tiles(), x + 0, x + 36),
{
    lemma_piece_bytes(d, x, tp0());
    assert forall|q: int| x + 0 <= q < x + 36 implies !#[trigger] matches_at(d, pat_tiles(), q) by {
        if matches_at(d, pat_tiles(), q) {
            lemma_match_head(d, pat_tiles(), q);
            assert(d[q + 0] == pat_tiles()[0]); assert(d[q + 1] == pat_tiles()[1]);
        }
    }
}

#[verifier::spinoff_prover]
pub(crate) proof fn lemma_tp0_pat_ib(d: Seq<u8>, x: int)
    requires
        piece_at(d, x, tp0()),
    ensures
        no_hit(d, pat_ib(), x + 0, x + 36),
{
    lemma_piece_bytes(d, x, tp0());
    assert forall|q: int| x + 0 <= q < x + 36 implies !#[trigger] matches_at(d, pat_ib(), q) by {
        if matches_at(d, pat_ib(), q) {
            lemma_match_head(d, pat_ib(), q);
            assert(d[q + 0] == pat_ib()[0]);
        }
    }
}

#[verifier::spinoff_prover]
pub(crate) proof fn lemma_tp0_pat_bb(d: Seq<u8>, x: int)
    requires
        piece_at(d, x, tp0()),
    ensures
        no_hit(d, pat_bb(), x + 0, x + 36),
{
    lemma_piece_bytes(d, x, tp0());
    assert forall|q: int| x + 0 <= q < x + 36 implies !#[trigger] matches_at(d, pat_bb(), q) by {
        if matches_at(d, pat_bb(), q) {
            lemma_match_head(d, pat_bb(), q);
            assert(d[q + 0] == pat_bb()[0]);
        }
    }
}

#[verifier::spinoff_prover]
pub(crate) proof fn lemma_tp0_pat_bbs(d: Seq<u8>, x: int)
    requires
        piece_at(d, x, tp0()),
    ensures
        no_hit(d, pat_bbs(), x + 0, x + 36),
{
    lemma_piece_bytes(d, x, tp0());
    assert forall|q: int| x + 0 <= q < x + 36 implies !#[trigger] matches_at(d, pat_bbs(), q) by {
        if matches_at(d, pat_bbs(), q) {
            lemma_match_head(d, pat_bbs(), q);
            assert(d[q + 0] == pat_bbs()[0]);
        }
    }
}

/// What piece `tp0` holds of the patterns, where it stands at byte x.
pub(crate) proof fn lemma_tp0(d: Seq<u8>, x: int)
    requires
        piece_at(d, x, tp0()),
    ensures
        no_hit(d, pat_end(), x + 0, x + 36),
        no_hit(d, pat_nl(), x + 0, x + 17),
        matches_at(d, pat_nl(), x + 17),
        no_hit(d, pat_nl(), x + 18, x + 36),
        no_hit(d, pat_ot(), x + 0, x + 2),
        matches_at(d, pat_ot(), x + 2),
        no_hit(d, pat_ot(), x + 3, x + 36),
        no_hit(d, pat_eq(), x + 0, x + 9),
        matches_at(d, pat_eq(), x + 9),
        no_hit(d, pat_eq(), x + 10, x + 33),
        matches_at(d, pat_eq(), x + 33),
        no_hit(d, pat_eq(), x + 34, x + 36),
        no_hit(d, pat_name(), x + 0, x + 22),
        matches_at(d, pat_name(), x + 22),
        no_hit(d, pat_name(), x + 23, x + 36),
        no_hit(d, pat_lines(), x + 0, x + 36),
        no_hit(d, pat_samples(), x + 0, x + 36),
        no_hit(d, pat_rmin(), x + 0, x + 36),
        no_hit(d, pat_rmax(), x + 0, x + 36),
        no_hit(d, pat_tiles(), x + 0, x + 36),
        no_hit(d, pat_ib(), x + 0, x + 36),
        no_hit(d, pat_bb(), x + 0, x + 36),
        no_hit(d, pat_bbs(), x + 0, x + 36),
{
    lemma_tp0_pat_end(d, x);
    lemma_tp0_pat_nl(d, x);
    lemma_tp0_pat_ot(d, x);
    lemma_tp0_pat_eq(d, x);
    lemma_tp0_pat_name(d, x);
    lemma_tp0_pat_lines(d, x);
    lemma_tp0_pat_samples(d, x);
    lemma_tp0_pat_rmin(d, x);
    lemma_tp0_pat_rmax(d, x);
    lemma_tp0_pat_tiles(d, x);
    lemma_tp0_pat_ib(d, x);
    lemma_tp0_pat_bb(d, x);
    lemma_tp0_pat_bbs(d, x);
}

#[verifier::spinoff_prover]
pub(crate) proof fn lemma_tp1_pat_end(d: Seq<u8>, x: int)
    requires
        piece_at(d, x, tp1()),
    ensures
        no_hit(d, pat_end(), x + 0, x + 19),
{
    lemma_piece_bytes(d, x, tp1());
    assert forall|q: int| x + 0 <= q < x + 19 implies !#[trigger] matches_at(d, pat_end(), q) by {
        if matches_at(d, pat_end(), q) {
            lemma_match_head(d, pat_end(), q);
            assert(d[q + 0] == pat_end()[0]);
        }
    }
}

#[verifier::spinoff_prover]
pub(crate) proof fn lemma_tp1_pat_nl(d: Seq<u8>, x: int)
    requires
        piece_at(d, x, tp1()),
    ensures
        no_hit(d, pat_nl(), x + 0, x + 1),
        matches_at(d, pat_nl(), x + 1),
        no_hit(d, pat_nl(), x + 2, x + 19),
{
    lemma_piece_bytes(d, x, tp1());
    assert forall|q: int| x + 0 <= q < x + 1 implies !#[trigger] matches_at(d, pat_nl(), q) by {
        if matches_at(d, pat_nl(), q) {
            lemma_match_head(d, pat_nl(), q);
            assert(d[q + 0] == pat_nl()[0]);
        }
    }
    assert(d.subrange(x + 1, x + 1 + 1) =~= pat_nl());
    assert forall|q: int| x + 2 <= q < x + 19 implies !#[trigger] matches_at(d, pat_nl(), q) by {
        if matches_at(d, pat_nl(), q) {
            lemma_match_head(d, pat_nl(), q);
            assert(d[q + 0] == pat_nl()[0]);
        }
    }
}

#[verifier::spinoff_prover]
pub(crate) proof fn lemma_tp1_pat_eq(d: Seq<u8>, x: int)
    requires
        piece_at(d, x, tp1()),
    ensures
        no_hit(d, pat_eq(), x + 0, x + 17),
        matches_at(d, pat_eq(), x + 17),
        no_hit(d, pat_eq(), x + 18, x + 19),
{
    lemma_piece_bytes(d, x, tp1());
    assert forall|q: int| x + 0 <= q < x + 17 implies !#[trigger] matches_at(d, pat_eq(), q) by {
        if matches_at(d, pat_eq(), q) {
            lemma_match_head(d, pat_eq(), q);
            assert(d[q + 0] == pat_eq()[0]);
        }
    }
    assert(d.subrange(x + 17, x + 17 + 1) =~= pat_eq());
    assert forall|q: int| x + 18 <= q < x + 19 implies !#[trigger] matches_at(d, pat_eq(), q) by {
        if matches_at(d, pat_eq(), q) {
            lemma_match_head(d, pat_eq(), q);
            assert(d[q + 0] == pat_eq()[0]);
        }
    }
}

#[verifier::spinoff_prover]
pub(crate) proof fn lemma_tp1_pat_lines(d: Seq<u8>, x: int)
    requires
        piece_at(d, x, tp1()),
    ensures
        no_hit(d, pat_lines(), x + 0, x + 6),
        matches_at(d, pat_lines(), x + 6),
        no_hit(d, pat_lines(), x + 7, x + 19),
{
    lemma_piece_bytes(d, x, tp1());
    assert forall|q: int| x + 0 <= q < x + 6 implies !#[trigger] matches_at(d, pat_lines(), q) by {
        if matches_at(d, pat_lines(), q) {
            lemma_match_head(d, pat_lines(), q);
            assert(d[q + 0] == pat_lines()[0]);
        }
    }
    assert(d.subrange(x + 6, x + 6 + 5) =~= pat_lines());
    assert forall|q: int| x + 7 <= q < x + 19 implies !#[trigger] matches_at(d, pat_lines(), q) by {
        if matches_at(d, pat_lines(), q) {
            lemma_match_head(d, pat_lines(), q);
            assert(d[q + 0] == pat_lines()[0]);
        }
    }
}

#[verifier::spinoff_prover]
pub(crate) proof fn lemma_tp1_pat_samples(d: Seq<u8>, x: int)
    requires
        piece_at(d, x, tp1()),
    ensures
        no_hit(d, pat_samples(), x + 0, x + 19),
{
    lemma_piece_bytes(d, x, tp1());
    assert forall|q: int| x + 0 <= q < x + 19 implies !#[trigger] matches_at(d, pat_samples(), q) by {
        if matches_at(d, pat_samples(), q) {
            lemma_match_head(d, pat_samples(), q);
            assert(d[q + 0] == pat_samples()[0]);
        }
    }
}

#[verifier::spinoff_prover]
pub(crate) proof fn lemma_tp1_pat_rmin(d: Seq<u8>, x: int)
    requires
        piece_at(d, x, tp1()),
    ensures
        no_hit(d, pat_rmin(), x + 0, x + 19),
{
    lemma_piece_bytes(d, x, tp1());
    assert forall|q: int| x + 0 <= q < x + 19 implies !#[trigger] matches_at(d, pat_rmin(), q) by {
        if matches_at(d, pat_rmin(), q) {
            lemma_match_head(d, pat_rmin(), q);
            assert(d[q + 0] == pat_rmin()[0]);
        }
    }
}

#[verifier::spinoff_prover]
pub(crate) proof fn lemma_tp1_pat_rmax(d: Seq<u8>, x: int)
    requires
        piece_at(d, x, tp1()),
    ensures
        no_hit(d, pat_rmax(), x + 0, x + 19),
{
    lemma_piece_bytes(d, x, tp1());
    assert forall|q: int| x + 0 <= q < x + 19 implies !#[trigger] matches_at(d, pat_rmax(), q) by {
        if matches_at(d, pat_rmax(), q) {
            lemma_match_head(d, pat_rmax(), q);
            assert(d[q + 0] == pat_rmax()[0]);
        }
    }
}

#[verifier::spinoff_prover]
pub(crate) proof fn lemma_tp1_pat_tiles(d: Seq<u8>, x: int)
    requires
        piece_at(d, x, tp1()),
    ensures
        no_hit(d, pat_tiles(), x + 0, x + 19),
{
    lemma_piece_bytes(d, x, tp1());
    assert forall|q: int| x + 0 <= q < x + 19 implies !#[trigger] matches_at(d, pat_tiles(), q) by {
        if matches_at(d, pat_tiles(), q) {
            lemma_match_head(d, pat_tiles(), q);
            assert(d[q + 0] == pat_tiles()[0]);
        }
    }
}

#[verifier::spinoff_prover]
pub(crate) proof fn lemma_tp1_pat_ib(d: Seq<u8>, x: int)
    requires
        piece_at(d, x, tp1()),
    ensures
        no_hit(d, pat_ib(), x + 0, x + 19),
{
    lemma_piece_bytes(d, x, tp1());
    assert forall|q: int| x + 0 <= q < x + 19 implies !#[trigger] matches_at(d, pat_ib(), q) by {
        if matches_at(d, pat_ib(), q) {
            lemma_match_head(d, pat_ib(), q);
            assert(d[q + 0] == pat_ib()[0]);
        }
    }
}

#[verifier::spinoff_prover]
pub(crate) proof fn lemma_tp1_pat_bb(d: Seq<u8>, x: int)
    requires
        piece_at(d, x, tp1()),
    ensures
        no_hit(d, pat_bb(), x + 0, x + 19),
{
    lemma_piece_bytes(d, x, tp1());
    assert forall|q: int| x + 0 <= q < x + 19 implies !#[trigger] matches_at(d, pat_bb(), q) by {
        if matches_at(d, pat_bb(), q) {
            lemma_match_head(d, pat_bb(), q);
            assert(d[q + 0] == pat_bb()[0]);
        }
    }
}

#[verifier::spinoff_prover]
pub(crate) proof fn lemma_tp1_pat_bbs(d: Seq<u8>, x: int)
    requires
        piece_at(d, x, tp1()),
    ensures
        no_hit(d, pat_bbs(), x + 0, x + 19),
{
    lemma_piece_bytes(d, x, tp1());
    assert forall|q: int| x + 0 <= q < x + 19 implies !#[trigger] matches_at(d, pat_bbs(), q) by {
        if matches_at(d, pat_bbs(), q) {
            lemma_match_head(d, pat_bbs(), q);
            assert(d[q + 0] == pat_bbs()[0]);
        }
    }
}

/// What piece `tp1` holds of the patterns, where it stands at byte x.
pub(crate) proof fn lemma_tp1(d: Seq<u8>, x: int)
    requires
        piece_at(d, x, tp1()),
    ensures
        no_hit(d, pat_end(), x + 0, x + 19),
        no_hit(d, pat_nl(), x + 0, x + 1),
        matches_at(d, pat_nl(), x + 1),
        no_hit(d, pat_nl(), x + 2, x + 19),
        no_hit(d, pat_eq(), x + 0, x + 17),
        matches_at(d, pat_eq(), x + 17),
        no_hit(d, pat_eq(), x + 18, x + 19),
        no_hit(d, pat_lines(), x + 0, x + 6),
        matches_at(d, pat_lines(), x + 6),
        no_hit(d, pat_lines(), x + 7, x + 19),
        no_hit(d, pat_samples(), x + 0, x + 19),
        no_hit(d, pat_rmin(), x + 0, x + 19),
        no_hit(d, pat_rmax(), x + 0, x + 19),
        no_hit(d, pat_tiles(), x + 0, x + 19),
        no_hit(d, pat_ib(), x + 0, x + 19),
        no_hit(d, pat_bb(), x + 0, x + 19),
        no_hit(d, pat_bbs(), x + 0, x + 19),
{
    lemma_tp1_pat_end(d, x);
    lemma_tp1_pat_nl(d, x);
    lemma_tp1_pat_eq(d, x);
    lemma_tp1_pat_lines(d, x);
    lemma_tp1_pat_samples(d, x);
    lemma_tp1_pat_rmin(d, x);
    lemma_tp1_pat_rmax(d, x);
    lemma_tp1_pat_tiles(d, x);
    lemma_tp1_pat_ib(d, x);
    lemma_tp1_pat_bb(d, x);
    lemma_tp1_pat_bbs(d, x);
}

#[verifier::spinoff_prover]
pub(crate) proof fn lemma_tp2_pat_end(d: Seq<u8>, x: int)
    requires
        piece_at(d, x, tp2()),
    ensures
        no_hit(d, pat_end(), x + 0, x + 18),
{
    lemma_piece_bytes(d, x, tp2());
    assert forall|q: int| x + 0 <= q < x + 18 implies !#[trigger] matches_at(d, pat_end(), q) by {
        if matches_at(d, pat_end(), q) {
            lemma_match_head(d, pat_end(), q);
            assert(d[q + 0] == pat_end()[0]);
        }
    }
}

#[verifier::spinoff_prover]
pub(crate) proof fn lemma_tp2_pat_nl(d: Seq<u8>, x: int)
    requires
        piece_at(d, x, tp2()),
    ensures
        matches_at(d, pat_nl(), x + 0),
        no_hit(d, pat_nl(), x + 1, x + 18),
{
    lemma_piece_bytes(d, x, tp2());
    assert(d.subrange(x + 0, x + 0 + 1) =~= pat_nl());
    assert forall|q: int| x + 1 <= q < x + 18 implies !#[trigger] matches_at(d, pat_nl(), q) by {
        if matches_at(d, pat_nl(), q) {
            lemma_match_head(d, pat_nl(), q);
            assert(d[q + 0] == pat_nl()[0]);
        }
    }
}

#[verifier::spinoff_prover]
pub(crate) proof fn lemma_tp2_pat_eq(d: Seq<u8>, x: int)
    requires
        piece_at(d, x, tp2()),
    ensures
        no_hit(d, pat_eq(), x + 0, x + 16),
        matches_at(d, pat_eq(), x + 16),
        no_hit(d, pat_eq(), x + 17, x + 18),
{
    lemma_piece_bytes(d, x, tp2());
    assert forall|q: int| x + 0 <= q < x + 16 implies !#[trigger] matches_at(d, pat_eq(), q) by {
        if matches_at(d, pat_eq(), q) {
            lemma_match_head(d, pat_eq(), q);
            assert(d[q + 0] == pat_eq()[0]);
        }
    }
    assert(d.subrange(x + 16, x + 16 + 1) =~= pat_eq());
    assert forall|q: int| x + 17 <= q < x + 18 implies !#[trigger] matches_at(d, pat_eq(), q) by {
        if matches_at(d, pat_eq(), q) {
            lemma_match_head(d, pat_eq(), q);
            assert(d[q + 0] == pat_eq()[0]);
        }
    }
}

#[verifier::spinoff_prover]
pub(crate) proof fn lemma_tp2_pat_samples(d: Seq<u8>, x: int)
    requires
        piece_at(d, x, tp2()),
    ensures
        no_hit(d, pat_samples(), x + 0, x + 5),
        matches_at(d, pat_samples(), x + 5),
        no_hit(d, pat_samples(), x + 6, x + 18),
{
    lemma_piece_bytes(d, x, tp2());
    assert forall|q: int| x + 0 <= q < x + 5 implies !#[trigger] matches_at(d, pat_samples(), q) by {
        if matches_at(d, pat_samples(), q) {
            lemma_match_head(d, pat_samples(), q);
            assert(d[q + 0] == pat_samples()[0]);
        }
    }
    assert(d.subrange(x + 5, x + 5 + 7) =~= pat_samples());
    assert forall|q: int| x + 6 <= q < x + 18 implies !#[trigger] matches_at(d, pat_samples(), q) by {
        if matches_at(d, pat_samples(), q) {
            lemma_match_head(d, pat_samples(), q);
            assert(d[q + 0] == pat_samples()[0]);
        }
    }
}

#[verifier::spinoff_prover]
pub(crate) proof fn lemma_tp2_pat_rmin(d: Seq<u8>, x: int)
    requires
        piece_at(d, x, tp2()),
    ensures
        no_hit(d, pat_rmin(), x + 0, x + 18),
{
    lemma_piece_bytes(d, x, tp2());
    assert forall|q: int| x + 0 <= q < x + 18 implies !#[trigger] matches_at(d, pat_rmin(), q) by {
        if matches_at(d, pat_rmin(), q) {
            lemma_match_head(d, pat_rmin(), q);
            assert(d[q + 0] == pat_rmin()[0]);
        }
    }
}

#[verifier::spinoff_prover]
pub(crate) proof fn lemma_tp2_pat_rmax(d: Seq<u8>, x: int)
    requires
        piece_at(d, x, tp2()),
    ensures
        no_hit(d, pat_rmax(), x + 0, x + 18),
{
    lemma_piece_bytes(d, x, tp2());
    assert forall|q: int| x + 0 <= q < x + 18 implies !#[trigger] matches_at(d, pat_rmax(), q) by {
        if matches_at(d, pat_rmax(), q) {
            lemma_match_head(d, pat_rmax(), q);
            assert(d[q + 0] == pat_rmax()[0]);
        }
    }
}

#[verifier::spinoff_prover]
pub(crate) proof fn lemma_tp2_pat_tiles(d: Seq<u8>, x: int)
    requires
        piece_at(d, x, tp2()),
    ensures
        no_hit(d, pat_tiles(), x + 0, x + 18),
{
    lemma_piece_bytes(d, x, tp2());
    assert forall|q: int| x + 0 <= q < x + 18 implies !#[trigger] matches_at(d, pat_tiles(), q) by {
        if matches_at(d, pat_tiles(), q) {
            lemma_match_head(d, pat_tiles(), q);
            assert(d[q + 0] == pat_tiles()[0]);
        }
    }
}

#[verifier::spinoff_prover]
pub(crate) proof fn lemma_tp2_pat_ib(d: Seq<u8>, x: int)
    requires
        piece_at(d, x, tp2()),
    ensures
        no_hit(d, pat_ib(), x + 0, x + 18),
{
    lemma_piece_bytes(d, x, tp2());
    assert forall|q: int| x + 0 <= q < x + 18 implies !#[trigger] matches_at(d, pat_ib(), q) by {
        if matches_at(d, pat_ib(), q) {
            lemma_match_head(d, pat_ib(), q);
            assert(d[q + 0] == pat_ib()[0]);
        }
    }
}

#[verifier::spinoff_prover]
pub(crate) proof fn lemma_tp2_pat_bb(d: Seq<u8>, x: int)
    requires
        piece_at(d, x, tp2()),
    ensures
        no_hit(d, pat_bb(), x + 0, x + 18),
{
    lemma_piece_bytes(d, x, tp2());
    assert forall|q: int| x + 0 <= q < x + 18 implies !#[trigger] matches_at(d, pat_bb(), q) by {
        if matches_at(d, pat_bb(), q) {
            lemma_match_head(d, pat_bb(), q);
            assert(d[q + 0] == pat_bb()[0]);
        }
    }
}

#[verifier::spinoff_prover]
pub(crate) proof fn lemma_tp2_pat_bbs(d: Seq<u8>, x: int)
    requires
        piece_at(d, x, tp2()),
    ensures
        no_hit(d, pat_bbs(), x + 0, x + 18),
{
    lemma_piece_bytes(d, x, tp2());
    assert forall|q: int| x + 0 <= q < x + 18 implies !#[trigger] matches_at(d, pat_bbs(), q) by {
        if matches_at(d, pat_bbs(), q) {
            lemma_match_head(d, pat_bbs(), q);
            assert(d[q + 0] == pat_bbs()[0]);
        }
    }
}

/// What piece `tp2` holds of the patterns, where it stands at byte x.
pub(crate) proof fn lemma_tp2(d: Seq<u8>, x: int)
    requires
        piece_at(d, x, tp2()),
    ensures
        no_hit(d, pat_end(), x + 0, x + 18),
        matches_at(d, pat_nl(), x + 0),
        no_hit(d, pat_nl(), x + 1, x + 18),
        no_hit(d, pat_eq(), x + 0, x + 16),
        matches_at(d, pat_eq(), x + 16),
        no_hit(d, pat_eq(), x + 17, x + 18),
        no_hit(d, pat_samples(), x + 0, x + 5),
        matches_at(d, pat_samples(), x + 5),
        no_hit(d, pat_samples(), x + 6, x + 18),
        no_hit(d, pat_rmin(), x + 0, x + 18),
        no_hit(d, pat_rmax(), x + 0, x + 18),
        no_hit(d, pat_tiles(), x + 0, x + 18),
        no_hit(d, pat_ib(), x + 0, x + 18),
        no_hit(d, pat_bb(), x + 0, x + 18),
        no_hit(d, pat_bbs(), x + 0, x + 18),
{
    lemma_tp2_pat_end(d, x);
    lemma_tp2_pat_nl(d, x);
    lemma_tp2_pat_eq(d, x);
    lemma_tp2_pat_samples(d, x);
    lemma_tp2_pat_rmin(d, x);
    lemma_tp2_pat_rmax(d, x);
    lemma_tp2_pat_tiles(d, x);
    lemma_tp2_pat_ib(d, x);
    lemma_tp2_pat_bb(d, x);
    lemma_tp2_pat_bbs(d, x);
}

#[verifier::spinoff_prover]
pub(crate) proof fn lemma_tp3_pat_end(d: Seq<u8>, x: int)
    requires
        piece_at(d, x, tp3()),
    ensures
        no_hit(d, pat_end(), x + 0, x + 18),
{
    lemma_piece_bytes(d, x, tp3());
    assert forall|q: int| x + 0 <= q < x + 18 implies !#[trigger] matches_at(d, pat_end(), q) by {
        if matches_at(d, pat_end(), q) {
            lemma_match_head(d, pat_end(), q);
            assert(d[q + 0] == pat_end()[0]);
        }
    }
}

#[verifier::spinoff_prover]
pub(crate) proof fn lemma_tp3_pat_nl(d: Seq<u8>, x: int)
    requires
        piece_at(d, x, tp3()),
    ensures
        matches_at(d, pat_nl(), x + 0),
        no_hit(d, pat_nl(), x + 1, x + 18),
{
    lemma_piece_bytes(d, x, tp3());
    assert(d.subrange(x + 0, x + 0 + 1) =~= pat_nl());
    assert forall|q: int| x + 1 <= q < x + 18 implies !#[trigger] matches_at(d, pat_nl(), q) by {
        if matches_at(d, pat_nl(), q) {
            lemma_match_head(d, pat_nl(), q);
            assert(d[q + 0] == pat_nl()[0]);
        }
    }
}

#[verifier::spinoff_prover]
pub(crate) proof fn lemma_tp3_pat_eq(d: Seq<u8>, x: int)
    requires
        piece_at(d, x, tp3()),
    ensures
        no_hit(d, pat_eq(), x + 0, x + 16),
        matches_at(d, pat_eq(), x + 16),
        no_hit(d, pat_eq(), x + 17, x + 18),
{
    lemma_piece_bytes(d, x, tp3());
    assert forall|q: int| x + 0 <= q < x + 16 implies !#[trigger] matches_at(d, pat_eq(), q) by {
        if matches_at(d, pat_eq(), q) {
            lemma_match_head(d, pat_eq(), q);
            assert(d[q + 0] == pat_eq()[0]);
        }
    }
    assert(d.subrange(x + 16, x + 16 + 1) =~= pat_eq());
    assert forall|q: int| x + 17 <= q < x + 18 implies !#[trigger] matches_at(d, pat_eq(), q) by {
        if matches_at(d, pat_eq(), q) {
            lemma_match_head(d, pat_eq(), q);
            assert(d[q + 0] == pat_eq()[0]);
        }
    }
}

#[verifier::spinoff_prover]
pub(crate) proof fn lemma_tp3_pat_rmin(d: Seq<u8>, x: int)
    requires
        piece_at(d, x, tp3()),
    ensures
        no_hit(d, pat_rmin(), x + 0, x + 5),
        matches_at(d, pat_rmin(), x + 5),
        no_hit(d, pat_rmin(), x + 6, x + 18),
{
    lemma_piece_bytes(d, x, tp3());
    assert forall|q: int| x + 0 <= q < x + 5 implies !#[trigger] matches_at(d, pat_rmin(), q) by {
        if matches_at(d, pat_rmin(), q) {
            lemma_match_head(d, pat_rmin(), q);
            assert(d[q + 0] == pat_rmin()[0]);
        }
    }
    assert(d.subrange(x + 5, x + 5 + 7) =~= pat_rmin());
    assert forall|q: int| x + 6 <= q < x + 18 implies !#[trigger] matches_at(d, pat_rmin(), q) by {
        if matches_at(d, pat_rmin(), q) {
            lemma_match_head(d, pat_rmin(), q);
            assert(d[q + 0] == pat_rmin()[0]);
        }
    }
}

#[verifier::spinoff_prover]
pub(crate) proof fn lemma_tp3_pat_rmax(d: Seq<u8>, x: int)
    requires
        piece_at(d, x, tp3()),
    ensures
        no_hit(d, pat_rmax(), x + 0, x + 18),
{
    lemma_piece_bytes(d, x, tp3());
    assert forall|q: int| x + 0 <= q < x + 18 implies !#[trigger] matches_at(d, pat_rmax(), q) by {
        if matches_at(d, pat_rmax(), q) {
            lemma_match_head(d, pat_rmax(), q);
            assert(d[q + 0] == pat_rmax()[0]); assert(d[q + 1] == pat_rmax()[1]); assert(d[q + 2] == pat_rmax()[2]); assert(d[q + 3] == pat_rmax()[3]); assert(d[q + 4] == pat_rmax()[4]); assert(d[q + 5] == pat_rmax()[5]);
        }
    }
}

#[verifier::spinoff_prover]
pub(crate) proof fn lemma_tp3_pat_tiles(d: Seq<u8>, x: int)
    requires
        piece_at(d, x, tp3()),
    ensures
        no_hit(d, pat_tiles(), x + 0, x + 18),
{
    lemma_piece_bytes(d, x, tp3());
    assert forall|q: int| x + 0 <= q < x + 18 implies !#[trigger] matches_at(d, pat_tiles(), q) by {
        if matches_at(d, pat_tiles(), q) {
            lemma_match_head(d, pat_tiles(), q);
            assert(d[q + 0] == pat_tiles()[0]);
        }
    }
}

#[verifier::spinoff_prover]
pub(crate) proof fn lemma_tp3_pat_ib(d: Seq<u8>, x: int)
    requires
        piece_at(d, x, tp3()),
    ensures
        no_hit(d, pat_ib(), x + 0, x + 18),
{
    lemma_piece_bytes(d, x, tp3());
    assert forall|q: int| x + 0 <= q < x + 18 implies !#[trigger] matches_at(d, pat_ib(), q) by {
        if matches_at(d, pat_ib(), q) {
            lemma_match_head(d, pat_ib(), q);
            assert(d[q + 0] == pat_ib()[0]);
        }
    }
}

#[verifier::spinoff_prover]
pub(crate) proof fn lemma_tp3_pat_bb(d: Seq<u8>, x: int)
    requires
        piece_at(d, x, tp3()),
    ensures
        no_hit(d, pat_bb(), x + 0, x + 18),
{
    lemma_piece_bytes(d, x, tp3());
    assert forall|q: int| x + 0 <= q < x + 18 implies !#[trigger] matches_at(d, pat_bb(), q) by {
        if matches_at(d, pat_bb(), q) {
            lemma_match_head(d, pat_bb(), q);
            assert(d[q + 0] == pat_bb()[0]);
        }
    }
}

#[verifier::spinoff_prover]
pub(crate) proof fn lemma_tp3_pat_bbs(d: Seq<u8>, x: int)
    requires
        piece_at(d, x, tp3()),
    ensures
        no_hit(d, pat_bbs(), x + 0, x + 18),
{
    lemma_piece_bytes(d, x, tp3());
    assert forall|q: int| x + 0 <= q < x + 18 implies !#[trigger] matches_at(d, pat_bbs(), q) by {
        if matches_at(d, pat_bbs(), q) {
            lemma_match_head(d, pat_bbs(), q);
            assert(d[q + 0] == pat_bbs()[0]);
        }
    }
}

/// What piece `tp3` holds of the patterns, where it stands at byte x.
pub(crate) proof fn lemma_tp3(d: Seq<u8>, x: int)
    requires
        piece_at(d, x, tp3()),
    ensures
        no_hit(d, pat_end(), x + 0, x + 18),
        matches_at(d, pat_nl(), x + 0),
        no_hit(d, pat_nl(), x + 1, x + 18),
        no_hit(d, pat_eq(), x + 0, x + 16),
        matches_at(d, pat_eq(), x + 16),
        no_hit(d, pat_eq(), x + 17, x + 18),
        no_hit(d, pat_rmin(), x + 0, x + 5),
        matches_at(d, pat_rmin(), x + 5),
        no_hit(d, pat_rmin(), x + 6, x + 18),
        no_hit(d, pat_rmax(), x + 0, x + 18),
        no_hit(d, pat_tiles(), x + 0, x + 18),
        no_hit(d, pat_ib(), x + 0, x + 18),
        no_hit(d, pat_bb(), x + 0, x + 18),
        no_hit(d, pat_bbs(), x + 0, x + 18),
{
    lemma_tp3_pat_end(d, x);
    lemma_tp3_pat_nl(d, x);
    lemma_tp3_pat_eq(d, x);
    lemma_tp3_pat_rmin(d, x);
    lemma_tp3_pat_rmax(d, x);
    lemma_tp3_pat_tiles(d, x);
    lemma_tp3_pat_ib(d, x);
    lemma_tp3_pat_bb(d, x);
    lemma_tp3_pat_bbs(d, x);
}

#[verifier::spinoff_prover]
pub(crate) proof fn lemma_tp4_pat_end(d: Seq<u8>, x: int)
    requires
        piece_at(d, x, tp4()),
    ensures
        no_hit(d, pat_end(), x + 0, x + 18),
{
    lemma_piece_bytes(d, x, tp4());
    assert forall|q: int| x + 0 <= q < x + 18 implies !#[trigger] matches_at(d, pat_end(), q) by {
        if matches_at(d, pat_end(), q) {
            lemma_match_head(d, pat_end(), q);
            assert(d[q + 0] == pat_end()[0]);
        }
    }
}

#[verifier::spinoff_prover]
pub(crate) proof fn lemma_tp4_pat_nl(d: Seq<u8>, x: int)
    requires
        piece_at(d, x, tp4()),
    ensures
        matches_at(d, pat_nl(), x + 0),
        no_hit(d, pat_nl(), x + 1, x + 18),
{
    lemma_piece_bytes(d, x, tp4());
    assert(d.subrange(x + 0, x + 0 + 1) =~= pat_nl());
    assert forall|q: int| x + 1 <= q < x + 18 implies !#[trigger] matches_at(d, pat_nl(), q) by {
        if matches_at(d, pat_nl(), q) {
            lemma_match_head(d, pat_nl(), q);
            assert(d[q + 0] == pat_nl()[0]);
        }
    }
}

#[verifier::spinoff_prover]
pub(crate) proof fn lemma_tp4_pat_eq(d: Seq<u8>, x: int)
    requires
        piece_at(d, x, tp4()),
    ensures
        no_hit(d, pat_eq(), x + 0, x + 16),
        matches_at(d, pat_eq(), x + 16),
        no_hit(d, pat_eq(), x + 17, x + 18),
{
    lemma_piece_bytes(d, x, tp4());
    assert forall|q: int| x + 0 <= q < x + 16 implies !#[trigger] matches_at(d, pat_eq(), q) by {
        if matches_at(d, pat_eq(), q) {
            lemma_match_head(d, pat_eq(), q);
            assert(d[q + 0] == pat_eq()[0]);
        }
    }
    assert(d.subrange(x + 16, x + 16 + 1) =~= pat_eq());
    assert forall|q: int| x + 17 <= q < x + 18 implies !#[trigger] matches_at(d, pat_eq(), q) by {
        if matches_at(d, pat_eq(), q) {
            lemma_match_head(d, pat_eq(), q);
            assert(d[q + 0] == pat_eq()[0]);
        }
    }
}

#[verifier::spinoff_prover]
pub(crate) proof fn lemma_tp4_pat_rmax(d: Seq<u8>, x: int)
    requires
        piece_at(d, x, tp4()),
    ensures
        no_hit(d, pat_rmax(), x + 0, x + 5),
        matches_at(d, pat_rmax(), x + 5),
        no_hit(d, pat_rmax(), x + 6, x + 18),
{
    lemma_piece_bytes(d, x, tp4());
    assert forall|q: int| x + 0 <= q < x + 5 implies !#[trigger] matches_at(d, pat_rmax(), q) by {
        if matches_at(d, pat_rmax(), q) {
            lemma_match_head(d, pat_rmax(), q);
            assert(d[q + 0] == pat_rmax()[0]);
        }
    }
    assert(d.subrange(x + 5, x + 5 + 7) =~= pat_rmax());
    assert forall|q: int| x + 6 <= q < x + 18 implies !#[trigger] matches_at(d, pat_rmax(), q) by {
        if matches_at(d, pat_rmax(), q) {
            lemma_match_head(d, pat_rmax(), q);
            assert(d[q + 0] == pat_rmax()[0]);
        }
    }
}

#[verifier::spinoff_prover]
pub(crate) proof fn lemma_tp4_pat_tiles(d: Seq<u8>, x: int)
    requires
        piece_at(d, x, tp4()),
    ensures
        no_hit(d, pat_tiles(), x + 0, x + 18),
{
    lemma_piece_bytes(d, x, tp4());
    assert forall|q: int| x + 0 <= q < x + 18 implies !#[trigger] matches_at(d, pat_tiles(), q) by {
        if matches_at(d, pat_tiles(), q) {
            lemma_match_head(d, pat_tiles(), q);
            assert(d[q + 0] == pat_tiles()[0]);
        }
    }
}

#[verifier::spinoff_prover]
pub(crate) proof fn lemma_tp4_pat_ib(d: Seq<u8>, x: int)
    requires
        piece_at(d, x, tp4()),
    ensures
        no_hit(d, pat_ib(), x + 0, x + 18),
{
    lemma_piece_bytes(d, x, tp4());
    assert forall|q: int| x + 0 <= q < x + 18 implies !#[trigger] matches_at(d, pat_ib(), q) by {
        if matches_at(d, pat_ib(), q) {
            lemma_match_head(d, pat_ib(), q);
            assert(d[q + 0] == pat_ib()[0]);
        }
    }
}

#[verifier::spinoff_prover]
pub(crate) proof fn lemma_tp4_pat_bb(d: Seq<u8>, x: int)
    requires
        piece_at(d, x, tp4()),
    ensures
        no_hit(d, pat_bb(), x + 0, x + 18),
{
    lemma_piece_bytes(d, x, tp4());
    assert forall|q: int| x + 0 <= q < x + 18 implies !#[trigger] matches_at(d, pat_bb(), q) by {
        if matches_at(d, pat_bb(), q) {
            lemma_match_head(d, pat_bb(), q);
            assert(d[q + 0] == pat_bb()[0]);
        }
    }
}

#[verifier::spinoff_prover]
pub(crate) proof fn lemma_tp4_pat_bbs(d: Seq<u8>, x: int)
    requires
        piece_at(d, x, tp4()),
    ensures
        no_hit(d, pat_bbs(), x + 0, x + 18),
{
    lemma_piece_bytes(d, x, tp4());
    assert forall|q: int| x + 0 <= q < x + 18 implies !#[trigger] matches_at(d, pat_bbs(), q) by {
        if matches_at(d, pat_bbs(), q) {
            lemma_match_head(d, pat_bbs(), q);
            assert(d[q + 0] == pat_bbs()[0]);
        }
    }
}

/// What piece `tp4` holds of the patterns, where it stands at byte x.
pub(crate) proof fn lemma_tp4(d: Seq<u8>, x: int)
    requires
        piece_at(d, x, tp4()),
    ensures
        no_hit(d, pat_end(), x + 0, x + 18),
        matches_at(d, pat_nl(), x + 0),
        no_hit(d, pat_nl(), x + 1, x + 18),
        no_hit(d, pat_eq(), x + 0, x + 16),
        matches_at(d, pat_eq(), x + 16),
        no_hit(d, pat_eq(), x + 17, x + 18),
        no_hit(d, pat_rmax(), x + 0, x + 5),
        matches_at(d, pat_rmax(), x + 5),
        no_hit(d, pat_rmax(), x + 6, x + 18),
        no_hit(d, pat_tiles(), x + 0, x + 18),
        no_hit(d, pat_ib(), x + 0, x + 18),
        no_hit(d, pat_bb(), x + 0, x + 18),
        no_hit(d, pat_bbs(), x + 0, x + 18),
{
    lemma_tp4_pat_end(d, x);
    lemma_tp4_pat_nl(d, x);
    lemma_tp4_pat_eq(d, x);
    lemma_tp4_pat_rmax(d, x);
    lemma_tp4_pat_tiles(d, x);
    lemma_tp4_pat_ib(d, x);
    lemma_tp4_pat_bb(d, x);
    lemma_tp4_pat_bbs(d, x);
}

#[verifier::spinoff_prover]
pub(crate) proof fn lemma_tp5_pat_end(d: Seq<u8>, x: int)
    requires
        piece_at(d, x, tp5()),
    ensures
        no_hit(d, pat_end(), x + 0, x + 18),
{
    lemma_piece_bytes(d, x, tp5());
    assert forall|q: int| x + 0 <= q < x + 18 implies !#[trigger] matches_at(d, pat_end(), q) by {
        if matches_at(d, pat_end(), q) {
            lemma_match_head(d, pat_end(), q);
            assert(d[q + 0] == pat_end()[0]);
        }
    }
}

#[verifier::spinoff_prover]
pub(crate) proof fn lemma_tp5_pat_nl(d: Seq<u8>, x: int)
    requires
        piece_at(d, x, tp5()),
    ensures
        matches_at(d, pat_nl(), x + 0),
        no_hit(d, pat_nl(), x + 1, x + 18),
{
    lemma_piece_bytes(d, x, tp5());
    assert(d.subrange(x + 0, x + 0 + 1) =~= pat_nl());
    assert forall|q: int| x + 1 <= q < x + 18 implies !#[trigger] matches_at(d, pat_nl(), q) by {
        if matches_at(d, pat_nl(), q) {
            lemma_match_head(d, pat_nl(), q);
            assert(d[q + 0] == pat_nl()[0]);
        }
    }
}

#[verifier::spinoff_prover]
pub(crate) proof fn lemma_tp5_pat_eq(d: Seq<u8>, x: int)
    requires
        piece_at(d, x, tp5()),
    ensures
        no_hit(d, pat_eq(), x + 0, x + 16),
        matches_at(d, pat_eq(), x + 16),
        no_hit(d, pat_eq(), x + 17, x + 18),
{
    lemma_piece_bytes(d, x, tp5());
    assert forall|q: int| x + 0 <= q < x + 16 implies !#[trigger] matches_at(d, pat_eq(), q) by {
        if matches_at(d, pat_eq(), q) {
            lemma_match_head(d, pat_eq(), q);
            assert(d[q + 0] == pat_eq()[0]);
        }
    }
    assert(d.subrange(x + 16, x + 16 + 1) =~= pat_eq());
    assert forall|q: int| x + 17 <= q < x + 18 implies !#[trigger] matches_at(d, pat_eq(), q) by {
        if matches_at(d, pat_eq(), q) {
            lemma_match_head(d, pat_eq(), q);
            assert(d[q + 0] == pat_eq()[0]);
        }
    }
}

#[verifier::spinoff_prover]
pub(crate) proof fn lemma_tp5_pat_tiles(d: Seq<u8>, x: int)
    requires
        piece_at(d, x, tp5()),
    ensures
        no_hit(d, pat_tiles(), x + 0, x + 18),
{
    lemma_piece_bytes(d, x, tp5());
    assert forall|q: int| x + 0 <= q < x + 18 implies !#[trigger] matches_at(d, pat_tiles(), q) by {
        if matches_at(d, pat_tiles(), q) {
            lemma_match_head(d, pat_tiles(), q);
            assert(d[q + 0] == pat_tiles()[0]);
        }
    }
}

#[verifier::spinoff_prover]
pub(crate) proof fn lemma_tp5_pat_ib(d: Seq<u8>, x: int)
    requires
        piece_at(d, x, tp5()),
    ensures
        no_hit(d, pat_ib(), x + 0, x + 18),
{
    lemma_piece_bytes(d, x, tp5());
    assert forall|q: int| x + 0 <= q < x + 18 implies !#[trigger] matches_at(d, pat_ib(), q) by {
        if matches_at(d, pat_ib(), q) {
            lemma_match_head(d, pat_ib(), q);
            assert(d[q + 0] == pat_ib()[0]);
        }
    }
}

#[verifier::spinoff_prover]
pub(crate) proof fn lemma_tp5_pat_bb(d: Seq<u8>, x: int)
    requires
        piece_at(d, x, tp5()),
    ensures
        no_hit(d, pat_bb(), x + 0, x + 18),
{
    lemma_piece_bytes(d, x, tp5());
    assert forall|q: int| x + 0 <= q < x + 18 implies !#[trigger] matches_at(d, pat_bb(), q) by {
        if matches_at(d, pat_bb(), q) {
            lemma_match_head(d, pat_bb(), q);
            assert(d[q + 0] == pat_bb()[0]); assert(d[q + 1] == pat_bb()[1]);
        }
    }
}

#[verifier::spinoff_prover]
pub(crate) proof fn lemma_tp5_pat_bbs(d: Seq<u8>, x: int)
    requires
        piece_at(d, x, tp5()),
    ensures
        no_hit(d, pat_bbs(), x + 0, x + 18),
{
    lemma_piece_bytes(d, x, tp5());
    assert forall|q: int| x + 0 <= q < x + 18 implies !#[trigger] matches_at(d, pat_bbs(), q) by {
        if matches_at(d, pat_bbs(), q) {
            lemma_match_head(d, pat_bbs(), q);
            assert(d[q + 0] == pat_bbs()[0]); assert(d[q + 1] == pat_bbs()[1]);
        }
    }
}

/// What piece `tp5` holds of the patterns, where it stands at byte x.
pub(crate) proof fn lemma_tp5(d: Seq<u8>, x: int)
    requires
        piece_at(d, x, tp5()),
    ensures
        no_hit(d, pat_end(), x + 0, x + 18),
        matches_at(d, pat_nl(), x + 0),
        no_hit(d, pat_nl(), x + 1, x + 18),
        no_hit(d, pat_eq(), x + 0, x + 16),
        matches_at(d, pat_eq(), x + 16),
        no_hit(d, pat_eq(), x + 17, x + 18),
        no_hit(d, pat_tiles(), x + 0, x + 18),
        no_hit(d, pat_ib(), x + 0, x + 18),
        no_hit(d, pat_bb(), x + 0, x + 18),
        no_hit(d, pat_bbs(), x + 0, x + 18),
{
    lemma_tp5_pat_end(d, x);
    lemma_tp5_pat_nl(d, x);
    lemma_tp5_pat_eq(d, x);
    lemma_tp5_pat_tiles(d, x);
    lemma_tp5_pat_ib(d, x);
    lemma_tp5_pat_bb(d, x);
    lemma_tp5_pat_bbs(d, x);
}

#[verifier::spinoff_prover]
pub(crate) proof fn lemma_tp6_pat_end(d: Seq<u8>, x: int)
    requires
        piece_at(d, x, tp6()),
    ensures
        no_hit(d, pat_end(), x + 0, x + 18),
{
    lemma_piece_bytes(d, x, tp6());
    assert forall|q: int| x + 0 <= q < x + 18 implies !#[trigger] matches_at(d, pat_end(), q) by {
        if matches_at(d, pat_end(), q) {
            lemma_match_head(d, pat_end(), q);
            assert(d[q + 0] == pat_end()[0]);
        }
    }
}

#[verifier::spinoff_prover]
pub(crate) proof fn lemma_tp6_pat_nl(d: Seq<u8>, x: int)
    requires
        piece_at(d, x, tp6()),
    ensures
        matches_at(d, pat_nl(), x + 0),
        no_hit(d, pat_nl(), x + 1, x + 18),
{
    lemma_piece_bytes(d, x, tp6());
    assert(d.subrange(x + 0, x + 0 + 1) =~= pat_nl());
    assert forall|q: int| x + 1 <= q < x + 18 implies !#[trigger] matches_at(d, pat_nl(), q) by {
        if matches_at(d, pat_nl(), q) {
            lemma_match_head(d, pat_nl(), q);
            assert(d[q + 0] == pat_nl()[0]);
        }
    }
}

#[verifier::spinoff_prover]
pub(crate) proof fn lemma_tp6_pat_eq(d: Seq<u8>, x: int)
    requires
        piece_at(d, x, tp6()),
    ensures
        no_hit(d, pat_eq(), x + 0, x + 16),
        matches_at(d, pat_eq(), x + 16),
        no_hit(d, pat_eq(), x + 17, x + 18),
{
    lemma_piece_bytes(d, x, tp6());
    assert forall|q: int| x + 0 <= q < x + 16 implies !#[trigger] matches_at(d, pat_eq(), q) by {
        if matches_at(d, pat_eq(), q) {
            lemma_match_head(d, pat_eq(), q);
            assert(d[q + 0] == pat_eq()[0]);
        }
    }
    assert(d.subrange(x + 16, x + 16 + 1) =~= pat_eq());
    assert forall|q: int| x + 17 <= q < x + 18 implies !#[trigger] matches_at(d, pat_eq(), q) by {
        if matches_at(d, pat_eq(), q) {
            lemma_match_head(d, pat_eq(), q);
            assert(d[q + 0] == pat_eq()[0]);
        }
    }
}

#[verifier::spinoff_prover]
pub(crate) proof fn lemma_tp6_pat_tiles(d: Seq<u8>, x: int)
    requires
        piece_at(d, x, tp6()),
    ensures
        no_hit(d, pat_tiles(), x + 0, x + 5),
        matches_at(d, pat_tiles(), x + 5),
        no_hit(d, pat_tiles(), x + 6, x + 18),
{
    lemma_piece_bytes(d, x, tp6());
    assert forall|q: int| x + 0 <= q < x + 5 implies !#[trigger] matches_at(d, pat_tiles(), q) by {
        if matches_at(d, pat_tiles(), q) {
            lemma_match_head(d, pat_tiles(), q);
            assert(d[q + 0] == pat_tiles()[0]);
        }
    }
    assert(d.subrange(x + 5, x + 5 + 5) =~= pat_tiles());
    assert forall|q: int| x + 6 <= q < x + 18 implies !#[trigger] matches_at(d, pat_tiles(), q) by {
        if matches_at(d, pat_tiles(), q) {
            lemma_match_head(d, pat_tiles(), q);
            assert(d[q + 0] == pat_tiles()[0]);
        }
    }
}

#[verifier::spinoff_prover]
pub(crate) proof fn lemma_tp6_pat_ib(d: Seq<u8>, x: int)
    requires
        piece_at(d, x, tp6()),
    ensures
        no_hit(d, pat_ib(), x + 0, x + 18),
{
    lemma_piece_bytes(d, x, tp6());
    assert forall|q: int| x + 0 <= q < x + 18 implies !#[trigger] matches_at(d, pat_ib(), q) by {
        if matches_at(d, pat_ib(), q) {
            lemma_match_head(d, pat_ib(), q);
            assert(d[q + 0] == pat_ib()[0]);
        }
    }
}

#[verifier::spinoff_prover]
pub(crate) proof fn lemma_tp6_pat_bb(d: Seq<u8>, x: int)
    requires
        piece_at(d, x, tp6()),
    ensures
        no_hit(d, pat_bb(), x + 0, x + 18),
{
    lemma_piece_bytes(d, x, tp6());
    assert forall|q: int| x + 0 <= q < x + 18 implies !#[trigger] matches_at(d, pat_bb(), q) by {
        if matches_at(d, pat_bb(), q) {
            lemma_match_head(d, pat_bb(), q);
            assert(d[q + 0] == pat_bb()[0]);
        }
    }
}

#[verifier::spinoff_prover]
pub(crate) proof fn lemma_tp6_pat_bbs(d: Seq<u8>, x: int)
    requires
        piece_at(d, x, tp6()),
    ensures
        no_hit(d, pat_bbs(), x + 0, x + 18),
{
    lemma_piece_bytes(d, x, tp6());
    assert forall|q: int| x + 0 <= q < x + 18 implies !#[trigger] matches_at(d, pat_bbs(), q) by {
        if matches_at(d, pat_bbs(), q) {
            lemma_match_head(d, pat_bbs(), q);
            assert(d[q + 0] == pat_bbs()[0]);
        }
    }
}

/// What piece `tp6` holds of the patterns, where it stands at byte x.
pub(crate) proof fn lemma_tp6(d: Seq<u8>, x: int)
    requires
        piece_at(d, x, tp6()),
    ensures
        no_hit(d, pat_end(), x + 0, x + 18),
        matches_at(d, pat_nl(), x + 0),
        no_hit(d, pat_nl(), x + 1, x + 18),
        no_hit(d, pat_eq(), x + 0, x + 16),
        matches_at(d, pat_eq(), x + 16),
        no_hit(d, pat_eq(), x + 17, x + 18),
        no_hit(d, pat_tiles(), x + 0, x + 5),
        matches_at(d, pat_tiles(), x + 5),
        no_hit(d, pat_tiles(), x + 6, x + 18),
        no_hit(d, pat_ib(), x + 0, x + 18),
        no_hit(d, pat_bb(), x + 0, x + 18),
        no_hit(d, pat_bbs(), x + 0, x + 18),
{
    lemma_tp6_pat_end(d, x);
    lemma_tp6_pat_nl(d, x);
    lemma_tp6_pat_eq(d, x);
    lemma_tp6_pat_tiles(d, x);
    lemma_tp6_pat_ib(d, x);
    lemma_tp6_pat_bb(d, x);
    lemma_tp6_pat_bbs(d, x);
}

#[verifier::spinoff_prover]
pub(crate) proof fn lemma_tp7_pat_end(d: Seq<u8>, x: int)
    requires
        piece_at(d, x, tp7()),
    ensures
        no_hit(d, pat_end(), x + 0, x + 18),
{
    lemma_piece_bytes(d, x, tp7());
    assert forall|q: int| x + 0 <= q < x + 18 implies !#[trigger] matches_at(d, pat_end(), q) by {
        if matches_at(d, pat_end(), q) {
            lemma_match_head(d, pat_end(), q);
            assert(d[q + 0] == pat_end()[0]);
        }
    }
}

#[verifier::spinoff_prover]
pub(crate) proof fn lemma_tp7_pat_nl(d: Seq<u8>, x: int)
    requires
        piece_at(d, x, tp7()),
    ensures
        matches_at(d, pat_nl(), x + 0),
        no_hit(d, pat_nl(), x + 1, x + 18),
{
    lemma_piece_bytes(d, x, tp7());
    assert(d.subrange(x + 0, x + 0 + 1) =~= pat_nl());
    assert forall|q: int| x + 1 <= q < x + 18 implies !#[trigger] matches_at(d, pat_nl(), q) by {
        if matches_at(d, pat_nl(), q) {
            lemma_match_head(d, pat_nl(), q);
            assert(d[q + 0] == pat_nl()[0]);
        }
    }
}

#[verifier::spinoff_prover]
pub(crate) proof fn lemma_tp7_pat_eq(d: Seq<u8>, x: int)
    requires
        piece_at(d, x, tp7()),
    ensures
        no_hit(d, pat_eq(), x + 0, x + 16),
        matches_at(d, pat_eq(), x + 16),
        no_hit(d, pat_eq(), x + 17, x + 18),
{
    lemma_piece_bytes(d, x, tp7());
    assert forall|q: int| x + 0 <= q < x + 16 implies !#[trigger] matches_at(d, pat_eq(), q) by {
        if matches_at(d, pat_eq(), q) {
            lemma_match_head(d, pat_eq(), q);
            assert(d[q + 0] == pat_eq()[0]);
        }
    }
    assert(d.subrange(x + 16, x + 16 + 1) =~= pat_eq());
    assert forall|q: int| x + 17 <= q < x + 18 implies !#[trigger] matches_at(d, pat_eq(), q) by {
        if matches_at(d, pat_eq(), q) {
            lemma_match_head(d, pat_eq(), q);
            assert(d[q + 0] == pat_eq()[0]);
        }
    }
}

#[verifier::spinoff_prover]
pub(crate) proof fn lemma_tp7_pat_ib(d: Seq<u8>, x: int)
    requires
        piece_at(d, x, tp7()),
    ensures
        no_hit(d, pat_ib(), x + 0, x + 5),
        matches_at(d, pat_ib(), x + 5),
        no_hit(d, pat_ib(), x + 6, x + 18),
{
    lemma_piece_bytes(d, x, tp7());
    assert forall|q: int| x + 0 <= q < x + 5 implies !#[trigger] matches_at(d, pat_ib(), q) by {
        if matches_at(d, pat_ib(), q) {
            lemma_match_head(d, pat_ib(), q);
            assert(d[q + 0] == pat_ib()[0]);
        }
    }
    assert(d.subrange(x + 5, x + 5 + 9) =~= pat_ib());
    assert forall|q: int| x + 6 <= q < x + 18 implies !#[trigger] matches_at(d, pat_ib(), q) by {
        if matches_at(d, pat_ib(), q) {
            lemma_match_head(d, pat_ib(), q);
            assert(d[q + 0] == pat_ib()[0]);
        }
    }
}

#[verifier::spinoff_prover]
pub(crate) proof fn lemma_tp7_pat_bb(d: Seq<u8>, x: int)
    requires
        piece_at(d, x, tp7()),
    ensures
        no_hit(d, pat_bb(), x + 0, x + 18),
{
    lemma_piece_bytes(d, x, tp7());
    assert forall|q: int| x + 0 <= q < x + 18 implies !#[trigger] matches_at(d, pat_bb(), q) by {
        if matches_at(d, pat_bb(), q) {
            lemma_match_head(d, pat_bb(), q);
            assert(d[q + 0] == pat_bb()[0]); assert(d[q + 1] == pat_bb()[1]);
        }
    }
}

#[verifier::spinoff_prover]
pub(crate) proof fn lemma_tp7_pat_bbs(d: Seq<u8>, x: int)
    requires
        piece_at(d, x, tp7()),
    ensures
        no_hit(d, pat_bbs(), x + 0, x + 18),
{
    lemma_piece_bytes(d, x, tp7());
    assert forall|q: int| x + 0 <= q < x + 18 implies !#[trigger] matches_at(d, pat_bbs(), q) by {
        if matches_at(d, pat_bbs(), q) {
            lemma_match_head(d, pat_bbs(), q);
            assert(d[q + 0] == pat_bbs()[0]); assert(d[q + 1] == pat_bbs()[1]);
        }
    }
}

/// What piece `tp7` holds of the patterns, where it stands at byte x.
pub(crate) proof fn lemma_tp7(d: Seq<u8>, x: int)
    requires
        piece_at(d, x, tp7()),
    ensures
        no_hit(d, pat_end(), x + 0, x + 18),
        matches_at(d, pat_nl(), x + 0),
        no_hit(d, pat_nl(), x + 1, x + 18),
        no_hit(d, pat_eq(), x + 0, x + 16),
        matches_at(d, pat_eq(), x + 16),
        no_hit(d, pat_eq(), x + 17, x + 18),
        no_hit(d, pat_ib(), x + 0, x + 5),
        matches_at(d, pat_ib(), x + 5),
        no_hit(d, pat_ib(), x + 6, x + 18),
        no_hit(d, pat_bb(), x + 0, x + 18),
        no_hit(d, pat_bbs(), x + 0, x + 18),
{
    lemma_tp7_pat_end(d, x);
    lemma_tp7_pat_nl(d, x);
    lemma_tp7_pat_eq(d, x);
    lemma_tp7_pat_ib(d, x);
    lemma_tp7_pat_bb(d, x);
    lemma_tp7_pat_bbs(d, x);
}

#[verifier::spinoff_prover]
pub(crate) proof fn lemma_tp8_pat_end(d: Seq<u8>, x: int)
    requires
        piece_at(d, x, tp8()),
    ensures
        no_hit(d, pat_end(), x + 0, x + 18),
{
    lemma_piece_bytes(d, x, tp8());
    assert forall|q: int| x + 0 <= q < x + 18 implies !#[trigger] matches_at(d, pat_end(), q) by {
        if matches_at(d, pat_end(), q) {
            lemma_match_head(d, pat_end(), q);
            assert(d[q + 0] == pat_end()[0]);
        }
    }
}

#[verifier::spinoff_prover]
pub(crate) proof fn lemma_tp8_pat_nl(d: Seq<u8>, x: int)
    requires
        piece_at(d, x, tp8()),
    ensures
        matches_at(d, pat_nl(), x + 0),
        no_hit(d, pat_nl(), x + 1, x + 18),
{
    lemma_piece_bytes(d, x, tp8());
    assert(d.subrange(x + 0, x + 0 + 1) =~= pat_nl());
    assert forall|q: int| x + 1 <= q < x + 18 implies !#[trigger] matches_at(d, pat_nl(), q) by {
        if matches_at(d, pat_nl(), q) {
            lemma_match_head(d, pat_nl(), q);
            assert(d[q + 0] == pat_nl()[0]);
        }
    }
}

#[verifier::spinoff_prover]
pub(crate) proof fn lemma_tp8_pat_eq(d: Seq<u8>, x: int)
    requires
        piece_at(d, x, tp8()),
    ensures
        no_hit(d, pat_eq(), x + 0, x + 16),
        matches_at(d, pat_eq(), x + 16),
        no_hit(d, pat_eq(), x + 17, x + 18),
{
    lemma_piece_bytes(d, x, tp8());
    assert forall|q: int| x + 0 <= q < x + 16 implies !#[trigger] matches_at(d, pat_eq(), q) by {
        if matches_at(d, pat_eq(), q) {
            lemma_match_head(d, pat_eq(), q);
            assert(d[q + 0] == pat_eq()[0]);
        }
    }
    assert(d.subrange(x + 16, x + 16 + 1) =~= pat_eq());
    assert forall|q: int| x + 17 <= q < x + 18 implies !#[trigger] matches_at(d, pat_eq(), q) by {
        if matches_at(d, pat_eq(), q) {
            lemma_match_head(d, pat_eq(), q);
            assert(d[q + 0] == pat_eq()[0]);
        }
    }
}

#[verifier::spinoff_prover]
pub(crate) proof fn lemma_tp8_pat_bb(d: Seq<u8>, x: int)
    requires
        piece_at(d, x, tp8()),
    ensures
        no_hit(d, pat_bb(), x + 0, x + 5),
        matches_at(d, pat_bb(), x + 5),
        no_hit(d, pat_bb(), x + 6, x + 18),
{
    lemma_piece_bytes(d, x, tp8());
    assert forall|q: int| x + 0 <= q < x + 5 implies !#[trigger] matches_at(d, pat_bb(), q) by {
        if matches_at(d, pat_bb(), q) {
            lemma_match_head(d, pat_bb(), q);
            assert(d[q + 0] == pat_bb()[0]);
        }
    }
    assert(d.subrange(x + 5, x + 5 + 8) =~= pat_bb());
    assert forall|q: int| x + 6 <= q < x + 18 implies !#[trigger] matches_at(d, pat_bb(), q) by {
        if matches_at(d, pat_bb(), q) {
            lemma_match_head(d, pat_bb(), q);
            assert(d[q + 0] == pat_bb()[0]); assert(d[q + 1] == pat_bb()[1]);
        }
    }
}

#[verifier::spinoff_prover]
pub(crate) proof fn lemma_tp8_pat_bbs(d: Seq<u8>, x: int)
    requires
        piece_at(d, x, tp8()),
    ensures
        no_hit(d, pat_bbs(), x + 0, x + 18),
{
    lemma_piece_bytes(d, x, tp8());
    assert forall|q: int| x + 0 <= q < x + 18 implies !#[trigger] matches_at(d, pat_bbs(), q) by {
        if matches_at(d, pat_bbs(), q) {
            lemma_match_head(d, pat_bbs(), q);
            assert(d[q + 0] == pat_bbs()[0]); assert(d[q + 1] == pat_bbs()[1]); assert(d[q + 2] == pat_bbs()[2]); assert(d[q + 3] == pat_bbs()[3]); assert(d[q + 4] == pat_bbs()[4]); assert(d[q + 5] == pat_bbs()[5]); assert(d[q + 6] == pat_bbs()[6]); assert(d[q + 7] == pat_bbs()[7]); assert(d[q + 8] == pat_bbs()[8]);
        }
    }
}

/// What piece `tp8` holds of the patterns, where it stands at byte x.
pub(crate) proof fn lemma_tp8(d: Seq<u8>, x: int)
    requires
        piece_at(d, x, tp8()),
    ensures
        no_hit(d, pat_end(), x + 0, x + 18),
        matches_at(d, pat_nl(), x + 0),
        no_hit(d, pat_nl(), x + 1, x + 18),
        no_hit(d, pat_eq(), x + 0, x + 16),
        matches_at(d, pat_eq(), x + 16),
        no_hit(d, pat_eq(), x + 17, x + 18),
        no_hit(d, pat_bb(), x + 0, x + 5),
        matches_at(d, pat_bb(), x + 5),
        no_hit(d, pat_bb(), x + 6, x + 18),
        no_hit(d, pat_bbs(), x + 0, x + 18),
{
    lemma_tp8_pat_end(d, x);
    lemma_tp8_pat_nl(d, x);
    lemma_tp8_pat_eq(d, x);
    lemma_tp8_pat_bb(d, x);
    lemma_tp8_pat_bbs(d, x);
}

#[verifier::spinoff_prover]
pub(crate) proof fn lemma_tp9_pat_end(d: Seq<u8>, x: int)
    requires
        piece_at(d, x, tp9()),
    ensures
        no_hit(d, pat_end(), x + 0, x + 18),
{
    lemma_piece_bytes(d, x, tp9());
    assert forall|q: int| x + 0 <= q < x + 18 implies !#[trigger] matches_at(d, pat_end(), q) by {
        if matches_at(d, pat_end(), q) {
            lemma_match_head(d, pat_end(), q);
            assert(d[q + 0] == pat_end()[0]);
        }
    }
}

#[verifier::spinoff_prover]
pub(crate) proof fn lemma_tp9_pat_nl(d: Seq<u8>, x: int)
    requires
        piece_at(d, x, tp9()),
    ensures
        matches_at(d, pat_nl(), x + 0),
        no_hit(d, pat_nl(), x + 1, x + 18),
{
    lemma_piece_bytes(d, x, tp9());
    assert(d.subrange(x + 0, x + 0 + 1) =~= pat_nl());
    assert forall|q: int| x + 1 <= q < x + 18 implies !#[trigger] matches_at(d, pat_nl(), q) by {
        if matches_at(d, pat_nl(), q) {
            lemma_match_head(d, pat_nl(), q);
            assert(d[q + 0] == pat_nl()[0]);
        }
    }
}

#[verifier::spinoff_prover]
pub(crate) proof fn lemma_tp9_pat_eq(d: Seq<u8>, x: int)
    requires
        piece_at(d, x, tp9()),
    ensures
        no_hit(d, pat_eq(), x + 0, x + 16),
        matches_at(d, pat_eq(), x + 16),
        no_hit(d, pat_eq(), x + 17, x + 18),
{
    lemma_piece_bytes(d, x, tp9());
    assert forall|q: int| x + 0 <= q < x + 16 implies !#[trigger] matches_at(d, pat_eq(), q) by {
        if matches_at(d, pat_eq(), q) {
            lemma_match_head(d, pat_eq(), q);
            assert(d[q + 0] == pat_eq()[0]);
        }
    }
    assert(d.subrange(x + 16, x + 16 + 1) =~= pat_eq());
    assert forall|q: int| x + 17 <= q < x + 18 implies !#[trigger] matches_at(d, pat_eq(), q) by {
        if matches_at(d, pat_eq(), q) {
            lemma_match_head(d, pat_eq(), q);
            assert(d[q + 0] == pat_eq()[0]);
        }
    }
}

#[verifier::spinoff_prover]
pub(crate) proof fn lemma_tp9_pat_bbs(d: Seq<u8>, x: int)
    requires
        piece_at(d, x, tp9()),
    ensures
        no_hit(d, pat_bbs(), x + 0, x + 5),
        matches_at(d, pat_bbs(), x + 5),
        no_hit(d, pat_bbs(), x + 6, x + 18),
{
    lemma_piece_bytes(d, x, tp9());
    assert forall|q: int| x + 0 <= q < x + 5 implies !#[trigger] matches_at(d, pat_bbs(), q) by {
        if matches_at(d, pat_bbs(), q) {
            lemma_match_head(d, pat_bbs(), q);
            assert(d[q + 0] == pat_bbs()[0]);
        }
    }
    assert(d.subrange(x + 5, x + 5 + 9) =~= pat_bbs());
    assert forall|q: int| x + 6 <= q < x + 18 implies !#[trigger] matches_at(d, pat_bbs(), q) by {
        if matches_at(d, pat_bbs(), q) {
            lemma_match_head(d, pat_bbs(), q);
            assert(d[q + 0] == pat_bbs()[0]); assert(d[q + 1] == pat_bbs()[1]);
        }
    }
}

/// What piece `tp9` holds of the patterns, where it stands at byte x.
pub(crate) proof fn lemma_tp9(d: Seq<u8>, x: int)
    requires
        piece_at(d, x, tp9()),
    ensures
        no_hit(d, pat_end(), x + 0, x + 18),
        matches_at(d, pat_nl(), x + 0),
        no_hit(d, pat_nl(), x + 1, x + 18),
        no_hit(d, pat_eq(), x + 0, x + 16),
        matches_at(d, pat_eq(), x + 16),
        no_hit(d, pat_eq(), x + 17, x + 18),
        no_hit(d, pat_bbs(), x + 0, x + 5),
        matches_at(d, pat_bbs(), x + 5),
        no_hit(d, pat_bbs(), x + 6, x + 18),
{
    lemma_tp9_pat_end(d, x);
    lemma_tp9_pat_nl(d, x);
    lemma_tp9_pat_eq(d, x);
    lemma_tp9_pat_bbs(d, x);
}

#[verifier::spinoff_prover]
pub(crate) proof fn lemma_tp10_pat_end(d: Seq<u8>, x: int)
    requires
        piece_at(d, x, tp10()),
    ensures
        no_hit(d, pat_end(), x + 0, x + 14),
{
    lemma_piece_bytes(d, x, tp10());
    assert forall|q: int| x + 0 <= q < x + 14 implies !#[trigger] matches_at(d, pat_end(), q) by {
        if matches_at(d, pat_end(), q) {
            lemma_match_head(d, pat_end(), q);
            assert(d[q + 0] == pat_end()[0]); assert(d[q + 1] == pat_end()[1]); assert(d[q + 2] == pat_end()[2]); assert(d[q + 3] == pat_end()[3]);
        }
    }
}

#[verifier::spinoff_prover]
pub(crate) proof fn lemma_tp10_pat_nl(d: Seq<u8>, x: int)
    requires
        piece_at(d, x, tp10()),
    ensures
        matches_at(d, pat_nl(), x + 0),
        no_hit(d, pat_nl(), x + 1, x + 13),
        matches_at(d, pat_nl(), x + 13),
{
    lemma_piece_bytes(d, x, tp10());
    assert(d.subrange(x + 0, x + 0 + 1) =~= pat_nl());
    assert forall|q: int| x + 1 <= q < x + 13 implies !#[trigger] matches_at(d, pat_nl(), q) by {
        if matches_at(d, pat_nl(), q) {
            lemma_match_head(d, pat_nl(), q);
            assert(d[q + 0] == pat_nl()[0]);
        }
    }
    assert(d.subrange(x + 13, x + 13 + 1) =~= pat_nl());
}

#[verifier::spinoff_prover]
pub(crate) proof fn lemma_tp10_pat_ot(d: Seq<u8>, x: int)
    requires
        piece_at(d, x, tp10()),
    ensures
        no_hit(d, pat_ot(), x + 0, x + 14),
{
    lemma_piece_bytes(d, x, tp10());
    assert forall|q: int| x + 0 <= q < x + 14 implies !#[trigger] matches_at(d, pat_ot(), q) by {
        if matches_at(d, pat_ot(), q) {
            lemma_match_head(d, pat_ot(), q);
            assert(d[q + 0] == pat_ot()[0]); assert(d[q + 1] == pat_ot()[1]); assert(d[q + 2] == pat_ot()[2]); assert(d[q + 3] == pat_ot()[3]); assert(d[q + 4] == pat_ot()[4]); assert(d[q + 5] == pat_ot()[5]); assert(d[q + 6] == pat_ot()[6]);
        }
    }
}

/// What piece `tp10` holds of the patterns, where it stands at byte x.
pub(crate) proof fn lemma_tp10(d: Seq<u8>, x: int)
    requires
        piece_at(d, x, tp10()),
    ensures
        no_hit(d, pat_end(), x + 0, x + 14),
        matches_at(d, pat_nl(), x + 0),
        no_hit(d, pat_nl(), x + 1, x + 13),
        matches_at(d, pat_nl(), x + 13),
        no_hit(d, pat_ot(), x + 0, x + 14),
{
    lemma_tp10_pat_end(d, x);
    lemma_tp10_pat_nl(d, x);
    lemma_tp10_pat_ot(d, x);
}

pub open spec fn lp0_0() -> Seq<u8> {
    seq![79u8, 98u8, 106u8, 101u8, 99u8, 116u8, 32u8, 61u8, 32u8, 73u8, 115u8, 105u8, 115u8, 67u8, 117u8, 98u8, 101u8, 10u8, 32u8, 32u8, 47u8, 42u8, 32u8, 65u8, 116u8, 108u8, 97u8, 115u8, 32u8, 69u8, 110u8, 103u8, 105u8, 110u8, 101u8, 32u8, 102u8, 111u8, 108u8, 100u8]
}

pub open spec fn lp0_1() -> Seq<u8> {
    seq![32u8, 99u8, 117u8, 98u8, 101u8, 58u8, 32u8, 116u8, 104u8, 101u8, 32u8, 116u8, 104u8, 105u8, 114u8, 100u8, 32u8, 115u8, 117u8, 114u8, 102u8, 97u8, 99u8, 101u8, 44u8, 32u8, 98u8, 97u8, 110u8, 100u8, 101u8, 100u8, 32u8, 98u8, 121u8, 32u8, 114u8, 117u8, 110u8, 103u8]
}

pub open spec fn lp0_2() -> Seq<u8> {
    seq![46u8, 32u8, 76u8, 105u8, 110u8, 101u8, 97u8, 103u8, 101u8, 58u8, 32u8, 86u8, 53u8, 32u8, 109u8, 97u8, 115u8, 116u8, 101u8, 114u8, 46u8, 99u8, 117u8, 98u8, 46u8, 32u8, 42u8, 47u8, 10u8, 32u8, 32u8]
}

pub open spec fn lp0_3() -> Seq<u8> {
    seq![79u8, 98u8, 106u8, 101u8, 99u8, 116u8, 32u8, 61u8, 32u8, 67u8, 111u8, 114u8, 101u8, 10u8, 32u8, 32u8, 32u8, 32u8, 83u8, 116u8, 97u8, 114u8, 116u8, 66u8, 121u8, 116u8, 101u8, 32u8, 32u8, 32u8, 61u8, 32u8]
}

/// Label text, piece 0.
pub open spec fn lp0() -> Seq<u8> {
    lp0_0() + lp0_1() + lp0_2() + lp0_3()
}

pub open spec fn lp1_0() -> Seq<u8> {
    seq![10u8, 32u8, 32u8, 32u8, 32u8, 70u8, 111u8, 114u8, 109u8, 97u8, 116u8, 32u8, 32u8, 32u8, 32u8, 32u8, 32u8, 61u8, 32u8, 82u8, 117u8, 110u8, 103u8, 66u8, 97u8, 110u8, 100u8, 101u8, 100u8, 10u8, 32u8, 32u8, 32u8, 32u8, 76u8, 105u8, 110u8, 101u8, 84u8, 105u8]
}

pub open spec fn lp1_1() -> Seq<u8> {
    seq![108u8, 101u8, 32u8, 32u8, 32u8, 32u8, 61u8, 32u8]
}

/// Label text, piece 1.
pub open spec fn lp1() -> Seq<u8> {
    lp1_0() + lp1_1()
}

pub open spec fn lp2_0() -> Seq<u8> {
    seq![10u8, 32u8, 32u8, 32u8, 32u8, 71u8, 114u8, 111u8, 117u8, 112u8, 32u8, 61u8, 32u8, 80u8, 105u8, 120u8, 101u8, 108u8, 115u8, 10u8, 32u8, 32u8, 32u8, 32u8, 32u8, 32u8, 84u8, 121u8, 112u8, 101u8, 32u8, 61u8, 32u8, 85u8, 110u8, 115u8, 105u8, 103u8, 110u8, 101u8]
}

pub open spec fn lp2_1() -> Seq<u8> {
    seq![100u8, 87u8, 111u8, 114u8, 100u8, 10u8, 32u8, 32u8, 32u8, 32u8, 32u8, 32u8, 66u8, 121u8, 116u8, 101u8, 79u8, 114u8, 100u8, 101u8, 114u8, 32u8, 61u8, 32u8, 76u8, 115u8, 98u8, 10u8, 32u8, 32u8, 32u8, 32u8, 32u8, 32u8, 77u8, 101u8, 97u8, 110u8, 105u8, 110u8]
}

pub open spec fn lp2_2() -> Seq<u8> {
    seq![103u8, 32u8, 61u8, 32u8, 34u8, 99u8, 111u8, 108u8, 117u8, 109u8, 110u8, 32u8, 105u8, 110u8, 100u8, 101u8, 120u8, 59u8, 32u8, 108u8, 97u8, 110u8, 101u8, 32u8, 98u8, 121u8, 116u8, 101u8, 32u8, 61u8, 32u8, 115u8, 105u8, 103u8, 110u8, 42u8, 49u8, 50u8, 56u8, 32u8]
}

pub open spec fn lp2_3() -> Seq<u8> {
    seq![43u8, 32u8, 40u8, 111u8, 100u8, 100u8, 45u8, 49u8, 41u8, 47u8, 50u8, 59u8, 32u8, 98u8, 97u8, 110u8, 100u8, 32u8, 61u8, 32u8, 114u8, 109u8, 97u8, 120u8, 32u8, 45u8, 32u8, 114u8, 117u8, 110u8, 103u8, 34u8, 10u8, 32u8, 32u8, 32u8, 32u8]
}

pub open spec fn lp2_4() -> Seq<u8> {
    seq![69u8, 110u8, 100u8, 95u8, 71u8, 114u8, 111u8, 117u8, 112u8, 10u8, 32u8, 32u8, 69u8, 110u8, 100u8, 95u8, 79u8, 98u8, 106u8, 101u8, 99u8, 116u8, 10u8, 32u8, 32u8, 79u8, 98u8, 106u8, 101u8, 99u8, 116u8, 32u8, 61u8, 32u8, 76u8, 97u8, 98u8, 101u8, 108u8, 10u8]
}

pub open spec fn lp2_5() -> Seq<u8> {
    seq![32u8, 32u8, 32u8, 32u8, 77u8, 111u8, 100u8, 101u8, 108u8, 32u8, 32u8, 32u8, 32u8, 32u8, 32u8, 32u8, 61u8, 32u8, 34u8]
}

/// Label text, piece 2.
pub open spec fn lp2() -> Seq<u8> {
    lp2_0() + lp2_1() + lp2_2() + lp2_3() + lp2_4() + lp2_5()
}

pub open spec fn lp3_0() -> Seq<u8> {
    seq![34u8, 10u8, 32u8, 32u8, 32u8, 32u8, 73u8, 110u8, 116u8, 97u8, 107u8, 101u8, 83u8, 101u8, 97u8, 108u8, 32u8, 32u8, 61u8, 32u8]
}

/// Label text, piece 3.
pub open spec fn lp3() -> Seq<u8> {
    lp3_0()
}

pub open spec fn lp4_0() -> Seq<u8> {
    seq![10u8, 32u8, 32u8, 32u8, 32u8, 70u8, 108u8, 111u8, 111u8, 114u8, 32u8, 32u8, 32u8, 32u8, 32u8, 32u8, 32u8, 61u8, 32u8, 34u8, 97u8, 99u8, 116u8, 105u8, 118u8, 97u8, 116u8, 105u8, 111u8, 110u8, 115u8, 32u8, 98u8, 101u8, 108u8, 111u8, 119u8, 32u8, 50u8, 94u8]
}

pub open spec fn lp4_1() -> Seq<u8> {
    seq![45u8, 57u8, 48u8, 32u8, 100u8, 114u8, 111u8, 112u8, 112u8, 101u8, 100u8, 32u8, 119u8, 105u8, 116u8, 104u8, 32u8, 115u8, 116u8, 105u8, 99u8, 107u8, 121u8, 59u8, 32u8, 97u8, 98u8, 111u8, 118u8, 101u8, 32u8, 105u8, 116u8, 32u8, 101u8, 118u8, 101u8, 114u8, 121u8, 32u8]
}

pub open spec fn lp4_2() -> Seq<u8> {
    seq![116u8, 101u8, 114u8, 109u8, 32u8, 101u8, 120u8, 97u8, 99u8, 116u8, 34u8, 10u8, 32u8, 32u8, 32u8, 32u8, 84u8, 101u8, 110u8, 115u8, 111u8, 114u8, 115u8, 32u8, 32u8, 32u8, 32u8, 32u8, 61u8, 32u8]
}

/// Label text, piece 4.
pub open spec fn lp4() -> Seq<u8> {
    lp4_0() + lp4_1() + lp4_2()
}

pub open spec fn lp5_0() -> Seq<u8> {
    seq![10u8, 32u8, 32u8, 32u8, 32u8, 70u8, 105u8, 108u8, 101u8, 66u8, 121u8, 116u8, 101u8, 115u8, 32u8, 32u8, 32u8, 61u8, 32u8]
}

/// Label text, piece 5.
pub open spec fn lp5() -> Seq<u8> {
    lp5_0()
}

pub open spec fn lp6_0() -> Seq<u8> {
    seq![10u8, 32u8, 32u8, 69u8, 110u8, 100u8, 95u8, 79u8, 98u8, 106u8, 101u8, 99u8, 116u8, 10u8]
}

/// Label text, piece 6.
pub open spec fn lp6() -> Seq<u8> {
    lp6_0()
}

#[verifier::spinoff_prover]
pub(crate) proof fn lemma_lp0_0_pat_ot(d: Seq<u8>, x: int)
    requires
        piece_at(d, x, lp0_0()),
    ensures
        no_hit(d, pat_ot(), x + 0, x + 40),
{
    lemma_piece_bytes(d, x, lp0_0());
    assert forall|q: int| x + 0 <= q < x + 40 implies !#[trigger] matches_at(d, pat_ot(), q) by {
        if matches_at(d, pat_ot(), q) {
            lemma_match_head(d, pat_ot(), q);
            assert(d[q + 0] == pat_ot()[0]); assert(d[q + 1] == pat_ot()[1]); assert(d[q + 2] == pat_ot()[2]); assert(d[q + 3] == pat_ot()[3]); assert(d[q + 4] == pat_ot()[4]); assert(d[q + 5] == pat_ot()[5]); assert(d[q + 6] == pat_ot()[6]); assert(d[q + 7] == pat_ot()[7]); assert(d[q + 8] == pat_ot()[8]); assert(d[q + 9] == pat_ot()[9]);
        }
    }
}

#[verifier::spinoff_prover]
pub(crate) proof fn lemma_lp0_0_pat_end(d: Seq<u8>, x: int)
    requires
        piece_at(d, x, lp0_0()),
    ensures
        no_hit(d, pat_end(), x + 0, x + 40),
{
    lemma_piece_bytes(d, x, lp0_0());
    assert forall|q: int| x + 0 <= q < x + 40 implies !#[trigger] matches_at(d, pat_end(), q) by {
        if matches_at(d, pat_end(), q) {
            lemma_match_head(d, pat_end(), q);
            assert(d[q + 0] == pat_end()[0]); assert(d[q + 1] == pat_end()[1]); assert(d[q + 2] == pat_end()[2]);
        }
    }
}

/// What piece `lp0_0` holds of the patterns, where it stands at byte x.
pub(crate) proof fn lemma_lp0_0(d: Seq<u8>, x: int)
    requires
        piece_at(d, x, lp0_0()),
    ensures
        no_hit(d, pat_ot(), x + 0, x + 40),
        no_hit(d, pat_end(), x + 0, x + 40),
{
    lemma_lp0_0_pat_ot(d, x);
    lemma_lp0_0_pat_end(d, x);
}

#[verifier::spinoff_prover]
pub(crate) proof fn lemma_lp0_1_pat_ot(d: Seq<u8>, x: int)
    requires
        piece_at(d, x, lp0_1()),
    ensures
        no_hit(d, pat_ot(), x + 0, x + 40),
{
    lemma_piece_bytes(d, x, lp0_1());
    assert forall|q: int| x + 0 <= q < x + 40 implies !#[trigger] matches_at(d, pat_ot(), q) by {
        if matches_at(d, pat_ot(), q) {
            lemma_match_head(d, pat_ot(), q);
            assert(d[q + 0] == pat_ot()[0]);
        }
    }
}

#[verifier::spinoff_prover]
pub(crate) proof fn lemma_lp0_1_pat_end(d: Seq<u8>, x: int)
    requires
        piece_at(d, x, lp0_1()),
    ensures
        no_hit(d, pat_end(), x + 0, x + 40),
{
    lemma_piece_bytes(d, x, lp0_1());
    assert forall|q: int| x + 0 <= q < x + 40 implies !#[trigger] matches_at(d, pat_end(), q) by {
        if matches_at(d, pat_end(), q) {
            lemma_match_head(d, pat_end(), q);
            assert(d[q + 0] == pat_end()[0]);
        }
    }
}

/// What piece `lp0_1` holds of the patterns, where it stands at byte x.
pub(crate) proof fn lemma_lp0_1(d: Seq<u8>, x: int)
    requires
        piece_at(d, x, lp0_1()),
    ensures
        no_hit(d, pat_ot(), x + 0, x + 40),
        no_hit(d, pat_end(), x + 0, x + 40),
{
    lemma_lp0_1_pat_ot(d, x);
    lemma_lp0_1_pat_end(d, x);
}

#[verifier::spinoff_prover]
pub(crate) proof fn lemma_lp0_2_pat_ot(d: Seq<u8>, x: int)
    requires
        piece_at(d, x, lp0_2()),
    ensures
        no_hit(d, pat_ot(), x + 0, x + 31),
{
    lemma_piece_bytes(d, x, lp0_2());
    assert forall|q: int| x + 0 <= q < x + 31 implies !#[trigger] matches_at(d, pat_ot(), q) by {
        if matches_at(d, pat_ot(), q) {
            lemma_match_head(d, pat_ot(), q);
            assert(d[q + 0] == pat_ot()[0]);
        }
    }
}

#[verifier::spinoff_prover]
pub(crate) proof fn lemma_lp0_2_pat_end(d: Seq<u8>, x: int)
    requires
        piece_at(d, x, lp0_2()),
    ensures
        no_hit(d, pat_end(), x + 0, x + 31),
{
    lemma_piece_bytes(d, x, lp0_2());
    assert forall|q: int| x + 0 <= q < x + 31 implies !#[trigger] matches_at(d, pat_end(), q) by {
        if matches_at(d, pat_end(), q) {
            lemma_match_head(d, pat_end(), q);
            assert(d[q + 0] == pat_end()[0]);
        }
    }
}

/// What piece `lp0_2` holds of the patterns, where it stands at byte x.
pub(crate) proof fn lemma_lp0_2(d: Seq<u8>, x: int)
    requires
        piece_at(d, x, lp0_2()),
    ensures
        no_hit(d, pat_ot(), x + 0, x + 31),
        no_hit(d, pat_end(), x + 0, x + 31),
{
    lemma_lp0_2_pat_ot(d, x);
    lemma_lp0_2_pat_end(d, x);
}

#[verifier::spinoff_prover]
pub(crate) proof fn lemma_lp0_3_pat_ot(d: Seq<u8>, x: int)
    requires
        piece_at(d, x, lp0_3()),
    ensures
        no_hit(d, pat_ot(), x + 0, x + 32),
{
    lemma_piece_bytes(d, x, lp0_3());
    assert forall|q: int| x + 0 <= q < x + 32 implies !#[trigger] matches_at(d, pat_ot(), q) by {
        if matches_at(d, pat_ot(), q) {
            lemma_match_head(d, pat_ot(), q);
            assert(d[q + 0] == pat_ot()[0]); assert(d[q + 1] == pat_ot()[1]); assert(d[q + 2] == pat_ot()[2]); assert(d[q + 3] == pat_ot()[3]); assert(d[q + 4] == pat_ot()[4]); assert(d[q + 5] == pat_ot()[5]); assert(d[q + 6] == pat_ot()[6]); assert(d[q + 7] == pat_ot()[7]); assert(d[q + 8] == pat_ot()[8]); assert(d[q + 9] == pat_ot()[9]);
        }
    }
}

#[verifier::spinoff_prover]
pub(crate) proof fn lemma_lp0_3_pat_end(d: Seq<u8>, x: int)
    requires
        piece_at(d, x, lp0_3()),
    ensures
        no_hit(d, pat_end(), x + 0, x + 32),
{
    lemma_piece_bytes(d, x, lp0_3());
    assert forall|q: int| x + 0 <= q < x + 32 implies !#[trigger] matches_at(d, pat_end(), q) by {
        if matches_at(d, pat_end(), q) {
            lemma_match_head(d, pat_end(), q);
            assert(d[q + 0] == pat_end()[0]);
        }
    }
}

/// What piece `lp0_3` holds of the patterns, where it stands at byte x.
pub(crate) proof fn lemma_lp0_3(d: Seq<u8>, x: int)
    requires
        piece_at(d, x, lp0_3()),
    ensures
        no_hit(d, pat_ot(), x + 0, x + 32),
        no_hit(d, pat_end(), x + 0, x + 32),
{
    lemma_lp0_3_pat_ot(d, x);
    lemma_lp0_3_pat_end(d, x);
}

/// Label piece 0 holds neither a tensor object nor the header's end.
pub(crate) proof fn lemma_lp0(d: Seq<u8>, x: int)
    requires
        piece_at(d, x, lp0()),
    ensures
        lp0().len() == 143,
        no_hit(d, pat_ot(), x, x + 143),
        no_hit(d, pat_end(), x, x + 143),
{
    assert(lp0().subrange(0, 40) =~= lp0_0());
    lemma_sub_piece(d, x, lp0(), 0, lp0_0());
    lemma_lp0_0(d, x + 0);
    assert(lp0().subrange(40, 80) =~= lp0_1());
    lemma_sub_piece(d, x, lp0(), 40, lp0_1());
    lemma_lp0_1(d, x + 40);
    assert(lp0().subrange(80, 111) =~= lp0_2());
    lemma_sub_piece(d, x, lp0(), 80, lp0_2());
    lemma_lp0_2(d, x + 80);
    assert(lp0().subrange(111, 143) =~= lp0_3());
    lemma_sub_piece(d, x, lp0(), 111, lp0_3());
    lemma_lp0_3(d, x + 111);
}

#[verifier::spinoff_prover]
pub(crate) proof fn lemma_lp1_0_pat_ot(d: Seq<u8>, x: int)
    requires
        piece_at(d, x, lp1_0()),
    ensures
        no_hit(d, pat_ot(), x + 0, x + 40),
{
    lemma_piece_bytes(d, x, lp1_0());
    assert forall|q: int| x + 0 <= q < x + 40 implies !#[trigger] matches_at(d, pat_ot(), q) by {
        if matches_at(d, pat_ot(), q) {
            lemma_match_head(d, pat_ot(), q);
            assert(d[q + 0] == pat_ot()[0]);
        }
    }
}

#[verifier::spinoff_prover]
pub(crate) proof fn lemma_lp1_0_pat_end(d: Seq<u8>, x: int)
    requires
        piece_at(d, x, lp1_0()),
    ensures
        no_hit(d, pat_end(), x + 0, x + 40),
{
    lemma_piece_bytes(d, x, lp1_0());
    assert forall|q: int| x + 0 <= q < x + 40 implies !#[trigger] matches_at(d, pat_end(), q) by {
        if matches_at(d, pat_end(), q) {
            lemma_match_head(d, pat_end(), q);
            assert(d[q + 0] == pat_end()[0]);
        }
    }
}

/// What piece `lp1_0` holds of the patterns, where it stands at byte x.
pub(crate) proof fn lemma_lp1_0(d: Seq<u8>, x: int)
    requires
        piece_at(d, x, lp1_0()),
    ensures
        no_hit(d, pat_ot(), x + 0, x + 40),
        no_hit(d, pat_end(), x + 0, x + 40),
{
    lemma_lp1_0_pat_ot(d, x);
    lemma_lp1_0_pat_end(d, x);
}

#[verifier::spinoff_prover]
pub(crate) proof fn lemma_lp1_1_pat_ot(d: Seq<u8>, x: int)
    requires
        piece_at(d, x, lp1_1()),
    ensures
        no_hit(d, pat_ot(), x + 0, x + 8),
{
    lemma_piece_bytes(d, x, lp1_1());
    assert forall|q: int| x + 0 <= q < x + 8 implies !#[trigger] matches_at(d, pat_ot(), q) by {
        if matches_at(d, pat_ot(), q) {
            lemma_match_head(d, pat_ot(), q);
            assert(d[q + 0] == pat_ot()[0]);
        }
    }
}

#[verifier::spinoff_prover]
pub(crate) proof fn lemma_lp1_1_pat_end(d: Seq<u8>, x: int)
    requires
        piece_at(d, x, lp1_1()),
    ensures
        no_hit(d, pat_end(), x + 0, x + 8),
{
    lemma_piece_bytes(d, x, lp1_1());
    assert forall|q: int| x + 0 <= q < x + 8 implies !#[trigger] matches_at(d, pat_end(), q) by {
        if matches_at(d, pat_end(), q) {
            lemma_match_head(d, pat_end(), q);
            assert(d[q + 0] == pat_end()[0]);
        }
    }
}

/// What piece `lp1_1` holds of the patterns, where it stands at byte x.
pub(crate) proof fn lemma_lp1_1(d: Seq<u8>, x: int)
    requires
        piece_at(d, x, lp1_1()),
    ensures
        no_hit(d, pat_ot(), x + 0, x + 8),
        no_hit(d, pat_end(), x + 0, x + 8),
{
    lemma_lp1_1_pat_ot(d, x);
    lemma_lp1_1_pat_end(d, x);
}

/// Label piece 1 holds neither a tensor object nor the header's end.
pub(crate) proof fn lemma_lp1(d: Seq<u8>, x: int)
    requires
        piece_at(d, x, lp1()),
    ensures
        lp1().len() == 48,
        no_hit(d, pat_ot(), x, x + 48),
        no_hit(d, pat_end(), x, x + 48),
{
    assert(lp1().subrange(0, 40) =~= lp1_0());
    lemma_sub_piece(d, x, lp1(), 0, lp1_0());
    lemma_lp1_0(d, x + 0);
    assert(lp1().subrange(40, 48) =~= lp1_1());
    lemma_sub_piece(d, x, lp1(), 40, lp1_1());
    lemma_lp1_1(d, x + 40);
}

#[verifier::spinoff_prover]
pub(crate) proof fn lemma_lp2_0_pat_ot(d: Seq<u8>, x: int)
    requires
        piece_at(d, x, lp2_0()),
    ensures
        no_hit(d, pat_ot(), x + 0, x + 40),
{
    lemma_piece_bytes(d, x, lp2_0());
    assert forall|q: int| x + 0 <= q < x + 40 implies !#[trigger] matches_at(d, pat_ot(), q) by {
        if matches_at(d, pat_ot(), q) {
            lemma_match_head(d, pat_ot(), q);
            assert(d[q + 0] == pat_ot()[0]);
        }
    }
}

#[verifier::spinoff_prover]
pub(crate) proof fn lemma_lp2_0_pat_end(d: Seq<u8>, x: int)
    requires
        piece_at(d, x, lp2_0()),
    ensures
        no_hit(d, pat_end(), x + 0, x + 40),
{
    lemma_piece_bytes(d, x, lp2_0());
    assert forall|q: int| x + 0 <= q < x + 40 implies !#[trigger] matches_at(d, pat_end(), q) by {
        if matches_at(d, pat_end(), q) {
            lemma_match_head(d, pat_end(), q);
            assert(d[q + 0] == pat_end()[0]);
        }
    }
}

/// What piece `lp2_0` holds of the patterns, where it stands at byte x.
pub(crate) proof fn lemma_lp2_0(d: Seq<u8>, x: int)
    requires
        piece_at(d, x, lp2_0()),
    ensures
        no_hit(d, pat_ot(), x + 0, x + 40),
        no_hit(d, pat_end(), x + 0, x + 40),
{
    lemma_lp2_0_pat_ot(d, x);
    lemma_lp2_0_pat_end(d, x);
}

#[verifier::spinoff_prover]
pub(crate) proof fn lemma_lp2_1_pat_ot(d: Seq<u8>, x: int)
    requires
        piece_at(d, x, lp2_1()),
    ensures
        no_hit(d, pat_ot(), x + 0, x + 40),
{
    lemma_piece_bytes(d, x, lp2_1());
    assert forall|q: int| x + 0 <= q < x + 40 implies !#[trigger] matches_at(d, pat_ot(), q) by {
        if matches_at(d, pat_ot(), q) {
            lemma_match_head(d, pat_ot(), q);
            assert(d[q + 0] == pat_ot()[0]); assert(d[q + 1] == pat_ot()[1]);
        }
    }
}

#[verifier::spinoff_prover]
pub(crate) proof fn lemma_lp2_1_pat_end(d: Seq<u8>, x: int)
    requires
        piece_at(d, x, lp2_1()),
    ensures
        no_hit(d, pat_end(), x + 0, x + 40),
{
    lemma_piece_bytes(d, x, lp2_1());
    assert forall|q: int| x + 0 <= q < x + 40 implies !#[trigger] matches_at(d, pat_end(), q) by {
        if matches_at(d, pat_end(), q) {
            lemma_match_head(d, pat_end(), q);
            assert(d[q + 0] == pat_end()[0]);
        }
    }
}

/// What piece `lp2_1` holds of the patterns, where it stands at byte x.
pub(crate) proof fn lemma_lp2_1(d: Seq<u8>, x: int)
    requires
        piece_at(d, x, lp2_1()),
    ensures
        no_hit(d, pat_ot(), x + 0, x + 40),
        no_hit(d, pat_end(), x + 0, x + 40),
{
    lemma_lp2_1_pat_ot(d, x);
    lemma_lp2_1_pat_end(d, x);
}

#[verifier::spinoff_prover]
pub(crate) proof fn lemma_lp2_2_pat_ot(d: Seq<u8>, x: int)
    requires
        piece_at(d, x, lp2_2()),
    ensures
        no_hit(d, pat_ot(), x + 0, x + 40),
{
    lemma_piece_bytes(d, x, lp2_2());
    assert forall|q: int| x + 0 <= q < x + 40 implies !#[trigger] matches_at(d, pat_ot(), q) by {
        if matches_at(d, pat_ot(), q) {
            lemma_match_head(d, pat_ot(), q);
            assert(d[q + 0] == pat_ot()[0]);
        }
    }
}

#[verifier::spinoff_prover]
pub(crate) proof fn lemma_lp2_2_pat_end(d: Seq<u8>, x: int)
    requires
        piece_at(d, x, lp2_2()),
    ensures
        no_hit(d, pat_end(), x + 0, x + 40),
{
    lemma_piece_bytes(d, x, lp2_2());
    assert forall|q: int| x + 0 <= q < x + 40 implies !#[trigger] matches_at(d, pat_end(), q) by {
        if matches_at(d, pat_end(), q) {
            lemma_match_head(d, pat_end(), q);
            assert(d[q + 0] == pat_end()[0]);
        }
    }
}

/// What piece `lp2_2` holds of the patterns, where it stands at byte x.
pub(crate) proof fn lemma_lp2_2(d: Seq<u8>, x: int)
    requires
        piece_at(d, x, lp2_2()),
    ensures
        no_hit(d, pat_ot(), x + 0, x + 40),
        no_hit(d, pat_end(), x + 0, x + 40),
{
    lemma_lp2_2_pat_ot(d, x);
    lemma_lp2_2_pat_end(d, x);
}

#[verifier::spinoff_prover]
pub(crate) proof fn lemma_lp2_3_pat_ot(d: Seq<u8>, x: int)
    requires
        piece_at(d, x, lp2_3()),
    ensures
        no_hit(d, pat_ot(), x + 0, x + 37),
{
    lemma_piece_bytes(d, x, lp2_3());
    assert forall|q: int| x + 0 <= q < x + 37 implies !#[trigger] matches_at(d, pat_ot(), q) by {
        if matches_at(d, pat_ot(), q) {
            lemma_match_head(d, pat_ot(), q);
            assert(d[q + 0] == pat_ot()[0]);
        }
    }
}

#[verifier::spinoff_prover]
pub(crate) proof fn lemma_lp2_3_pat_end(d: Seq<u8>, x: int)
    requires
        piece_at(d, x, lp2_3()),
    ensures
        no_hit(d, pat_end(), x + 0, x + 37),
{
    lemma_piece_bytes(d, x, lp2_3());
    assert forall|q: int| x + 0 <= q < x + 37 implies !#[trigger] matches_at(d, pat_end(), q) by {
        if matches_at(d, pat_end(), q) {
            lemma_match_head(d, pat_end(), q);
            assert(d[q + 0] == pat_end()[0]);
        }
    }
}

/// What piece `lp2_3` holds of the patterns, where it stands at byte x.
pub(crate) proof fn lemma_lp2_3(d: Seq<u8>, x: int)
    requires
        piece_at(d, x, lp2_3()),
    ensures
        no_hit(d, pat_ot(), x + 0, x + 37),
        no_hit(d, pat_end(), x + 0, x + 37),
{
    lemma_lp2_3_pat_ot(d, x);
    lemma_lp2_3_pat_end(d, x);
}

#[verifier::spinoff_prover]
pub(crate) proof fn lemma_lp2_4_pat_ot(d: Seq<u8>, x: int)
    requires
        piece_at(d, x, lp2_4()),
    ensures
        no_hit(d, pat_ot(), x + 0, x + 40),
{
    lemma_piece_bytes(d, x, lp2_4());
    assert forall|q: int| x + 0 <= q < x + 40 implies !#[trigger] matches_at(d, pat_ot(), q) by {
        if matches_at(d, pat_ot(), q) {
            lemma_match_head(d, pat_ot(), q);
            assert(d[q + 0] == pat_ot()[0]); assert(d[q + 1] == pat_ot()[1]); assert(d[q + 2] == pat_ot()[2]); assert(d[q + 3] == pat_ot()[3]); assert(d[q + 4] == pat_ot()[4]); assert(d[q + 5] == pat_ot()[5]); assert(d[q + 6] == pat_ot()[6]); assert(d[q + 7] == pat_ot()[7]); assert(d[q + 8] == pat_ot()[8]); assert(d[q + 9] == pat_ot()[9]);
        }
    }
}

#[verifier::spinoff_prover]
pub(crate) proof fn lemma_lp2_4_pat_end(d: Seq<u8>, x: int)
    requires
        piece_at(d, x, lp2_4()),
    ensures
        no_hit(d, pat_end(), x + 0, x + 40),
{
    lemma_piece_bytes(d, x, lp2_4());
    assert forall|q: int| x + 0 <= q < x + 40 implies !#[trigger] matches_at(d, pat_end(), q) by {
        if matches_at(d, pat_end(), q) {
            lemma_match_head(d, pat_end(), q);
            assert(d[q + 0] == pat_end()[0]); assert(d[q + 1] == pat_end()[1]); assert(d[q + 2] == pat_end()[2]); assert(d[q + 3] == pat_end()[3]);
        }
    }
}

/// What piece `lp2_4` holds of the patterns, where it stands at byte x.
pub(crate) proof fn lemma_lp2_4(d: Seq<u8>, x: int)
    requires
        piece_at(d, x, lp2_4()),
    ensures
        no_hit(d, pat_ot(), x + 0, x + 40),
        no_hit(d, pat_end(), x + 0, x + 40),
{
    lemma_lp2_4_pat_ot(d, x);
    lemma_lp2_4_pat_end(d, x);
}

#[verifier::spinoff_prover]
pub(crate) proof fn lemma_lp2_5_pat_ot(d: Seq<u8>, x: int)
    requires
        piece_at(d, x, lp2_5()),
    ensures
        no_hit(d, pat_ot(), x + 0, x + 19),
{
    lemma_piece_bytes(d, x, lp2_5());
    assert forall|q: int| x + 0 <= q < x + 19 implies !#[trigger] matches_at(d, pat_ot(), q) by {
        if matches_at(d, pat_ot(), q) {
            lemma_match_head(d, pat_ot(), q);
            assert(d[q + 0] == pat_ot()[0]);
        }
    }
}

#[verifier::spinoff_prover]
pub(crate) proof fn lemma_lp2_5_pat_end(d: Seq<u8>, x: int)
    requires
        piece_at(d, x, lp2_5()),
    ensures
        no_hit(d, pat_end(), x + 0, x + 19),
{
    lemma_piece_bytes(d, x, lp2_5());
    assert forall|q: int| x + 0 <= q < x + 19 implies !#[trigger] matches_at(d, pat_end(), q) by {
        if matches_at(d, pat_end(), q) {
            lemma_match_head(d, pat_end(), q);
            assert(d[q + 0] == pat_end()[0]);
        }
    }
}

/// What piece `lp2_5` holds of the patterns, where it stands at byte x.
pub(crate) proof fn lemma_lp2_5(d: Seq<u8>, x: int)
    requires
        piece_at(d, x, lp2_5()),
    ensures
        no_hit(d, pat_ot(), x + 0, x + 19),
        no_hit(d, pat_end(), x + 0, x + 19),
{
    lemma_lp2_5_pat_ot(d, x);
    lemma_lp2_5_pat_end(d, x);
}

/// Label piece 2 holds neither a tensor object nor the header's end.
pub(crate) proof fn lemma_lp2(d: Seq<u8>, x: int)
    requires
        piece_at(d, x, lp2()),
    ensures
        lp2().len() == 216,
        no_hit(d, pat_ot(), x, x + 216),
        no_hit(d, pat_end(), x, x + 216),
{
    assert(lp2().subrange(0, 40) =~= lp2_0());
    lemma_sub_piece(d, x, lp2(), 0, lp2_0());
    lemma_lp2_0(d, x + 0);
    assert(lp2().subrange(40, 80) =~= lp2_1());
    lemma_sub_piece(d, x, lp2(), 40, lp2_1());
    lemma_lp2_1(d, x + 40);
    assert(lp2().subrange(80, 120) =~= lp2_2());
    lemma_sub_piece(d, x, lp2(), 80, lp2_2());
    lemma_lp2_2(d, x + 80);
    assert(lp2().subrange(120, 157) =~= lp2_3());
    lemma_sub_piece(d, x, lp2(), 120, lp2_3());
    lemma_lp2_3(d, x + 120);
    assert(lp2().subrange(157, 197) =~= lp2_4());
    lemma_sub_piece(d, x, lp2(), 157, lp2_4());
    lemma_lp2_4(d, x + 157);
    assert(lp2().subrange(197, 216) =~= lp2_5());
    lemma_sub_piece(d, x, lp2(), 197, lp2_5());
    lemma_lp2_5(d, x + 197);
}

#[verifier::spinoff_prover]
pub(crate) proof fn lemma_lp3_0_pat_ot(d: Seq<u8>, x: int)
    requires
        piece_at(d, x, lp3_0()),
    ensures
        no_hit(d, pat_ot(), x + 0, x + 20),
{
    lemma_piece_bytes(d, x, lp3_0());
    assert forall|q: int| x + 0 <= q < x + 20 implies !#[trigger] matches_at(d, pat_ot(), q) by {
        if matches_at(d, pat_ot(), q) {
            lemma_match_head(d, pat_ot(), q);
            assert(d[q + 0] == pat_ot()[0]);
        }
    }
}

#[verifier::spinoff_prover]
pub(crate) proof fn lemma_lp3_0_pat_end(d: Seq<u8>, x: int)
    requires
        piece_at(d, x, lp3_0()),
    ensures
        no_hit(d, pat_end(), x + 0, x + 20),
{
    lemma_piece_bytes(d, x, lp3_0());
    assert forall|q: int| x + 0 <= q < x + 20 implies !#[trigger] matches_at(d, pat_end(), q) by {
        if matches_at(d, pat_end(), q) {
            lemma_match_head(d, pat_end(), q);
            assert(d[q + 0] == pat_end()[0]);
        }
    }
}

/// What piece `lp3_0` holds of the patterns, where it stands at byte x.
pub(crate) proof fn lemma_lp3_0(d: Seq<u8>, x: int)
    requires
        piece_at(d, x, lp3_0()),
    ensures
        no_hit(d, pat_ot(), x + 0, x + 20),
        no_hit(d, pat_end(), x + 0, x + 20),
{
    lemma_lp3_0_pat_ot(d, x);
    lemma_lp3_0_pat_end(d, x);
}

/// Label piece 3 holds neither a tensor object nor the header's end.
pub(crate) proof fn lemma_lp3(d: Seq<u8>, x: int)
    requires
        piece_at(d, x, lp3()),
    ensures
        lp3().len() == 20,
        no_hit(d, pat_ot(), x, x + 20),
        no_hit(d, pat_end(), x, x + 20),
{
    assert(lp3().subrange(0, 20) =~= lp3_0());
    lemma_sub_piece(d, x, lp3(), 0, lp3_0());
    lemma_lp3_0(d, x + 0);
}

#[verifier::spinoff_prover]
pub(crate) proof fn lemma_lp4_0_pat_ot(d: Seq<u8>, x: int)
    requires
        piece_at(d, x, lp4_0()),
    ensures
        no_hit(d, pat_ot(), x + 0, x + 40),
{
    lemma_piece_bytes(d, x, lp4_0());
    assert forall|q: int| x + 0 <= q < x + 40 implies !#[trigger] matches_at(d, pat_ot(), q) by {
        if matches_at(d, pat_ot(), q) {
            lemma_match_head(d, pat_ot(), q);
            assert(d[q + 0] == pat_ot()[0]);
        }
    }
}

#[verifier::spinoff_prover]
pub(crate) proof fn lemma_lp4_0_pat_end(d: Seq<u8>, x: int)
    requires
        piece_at(d, x, lp4_0()),
    ensures
        no_hit(d, pat_end(), x + 0, x + 40),
{
    lemma_piece_bytes(d, x, lp4_0());
    assert forall|q: int| x + 0 <= q < x + 40 implies !#[trigger] matches_at(d, pat_end(), q) by {
        if matches_at(d, pat_end(), q) {
            lemma_match_head(d, pat_end(), q);
            assert(d[q + 0] == pat_end()[0]);
        }
    }
}

/// What piece `lp4_0` holds of the patterns, where it stands at byte x.
pub(crate) proof fn lemma_lp4_0(d: Seq<u8>, x: int)
    requires
        piece_at(d, x, lp4_0()),
    ensures
        no_hit(d, pat_ot(), x + 0, x + 40),
        no_hit(d, pat_end(), x + 0, x + 40),
{
    lemma_lp4_0_pat_ot(d, x);
    lemma_lp4_0_pat_end(d, x);
}

#[verifier::spinoff_prover]
pub(crate) proof fn lemma_lp4_1_pat_ot(d: Seq<u8>, x: int)
    requires
        piece_at(d, x, lp4_1()),
    ensures
        no_hit(d, pat_ot(), x + 0, x + 40),
{
    lemma_piece_bytes(d, x, lp4_1());
    assert forall|q: int| x + 0 <= q < x + 40 implies !#[trigger] matches_at(d, pat_ot(), q) by {
        if matches_at(d, pat_ot(), q) {
            lemma_match_head(d, pat_ot(), q);
            assert(d[q + 0] == pat_ot()[0]);
        }
    }
}

#[verifier::spinoff_prover]
pub(crate) proof fn lemma_lp4_1_pat_end(d: Seq<u8>, x: int)
    requires
        piece_at(d, x, lp4_1()),
    ensures
        no_hit(d, pat_end(), x + 0, x + 40),
{
    lemma_piece_bytes(d, x, lp4_1());
    assert forall|q: int| x + 0 <= q < x + 40 implies !#[trigger] matches_at(d, pat_end(), q) by {
        if matches_at(d, pat_end(), q) {
            lemma_match_head(d, pat_end(), q);
            assert(d[q + 0] == pat_end()[0]);
        }
    }
}

/// What piece `lp4_1` holds of the patterns, where it stands at byte x.
pub(crate) proof fn lemma_lp4_1(d: Seq<u8>, x: int)
    requires
        piece_at(d, x, lp4_1()),
    ensures
        no_hit(d, pat_ot(), x + 0, x + 40),
        no_hit(d, pat_end(), x + 0, x + 40),
{
    lemma_lp4_1_pat_ot(d, x);
    lemma_lp4_1_pat_end(d, x);
}

#[verifier::spinoff_prover]
pub(crate) proof fn lemma_lp4_2_pat_ot(d: Seq<u8>, x: int)
    requires
        piece_at(d, x, lp4_2()),
    ensures
        no_hit(d, pat_ot(), x + 0, x + 30),
{
    lemma_piece_bytes(d, x, lp4_2());
    assert forall|q: int| x + 0 <= q < x + 30 implies !#[trigger] matches_at(d, pat_ot(), q) by {
        if matches_at(d, pat_ot(), q) {
            lemma_match_head(d, pat_ot(), q);
            assert(d[q + 0] == pat_ot()[0]);
        }
    }
}

#[verifier::spinoff_prover]
pub(crate) proof fn lemma_lp4_2_pat_end(d: Seq<u8>, x: int)
    requires
        piece_at(d, x, lp4_2()),
    ensures
        no_hit(d, pat_end(), x + 0, x + 30),
{
    lemma_piece_bytes(d, x, lp4_2());
    assert forall|q: int| x + 0 <= q < x + 30 implies !#[trigger] matches_at(d, pat_end(), q) by {
        if matches_at(d, pat_end(), q) {
            lemma_match_head(d, pat_end(), q);
            assert(d[q + 0] == pat_end()[0]);
        }
    }
}

/// What piece `lp4_2` holds of the patterns, where it stands at byte x.
pub(crate) proof fn lemma_lp4_2(d: Seq<u8>, x: int)
    requires
        piece_at(d, x, lp4_2()),
    ensures
        no_hit(d, pat_ot(), x + 0, x + 30),
        no_hit(d, pat_end(), x + 0, x + 30),
{
    lemma_lp4_2_pat_ot(d, x);
    lemma_lp4_2_pat_end(d, x);
}

/// Label piece 4 holds neither a tensor object nor the header's end.
pub(crate) proof fn lemma_lp4(d: Seq<u8>, x: int)
    requires
        piece_at(d, x, lp4()),
    ensures
        lp4().len() == 110,
        no_hit(d, pat_ot(), x, x + 110),
        no_hit(d, pat_end(), x, x + 110),
{
    assert(lp4().subrange(0, 40) =~= lp4_0());
    lemma_sub_piece(d, x, lp4(), 0, lp4_0());
    lemma_lp4_0(d, x + 0);
    assert(lp4().subrange(40, 80) =~= lp4_1());
    lemma_sub_piece(d, x, lp4(), 40, lp4_1());
    lemma_lp4_1(d, x + 40);
    assert(lp4().subrange(80, 110) =~= lp4_2());
    lemma_sub_piece(d, x, lp4(), 80, lp4_2());
    lemma_lp4_2(d, x + 80);
}

#[verifier::spinoff_prover]
pub(crate) proof fn lemma_lp5_0_pat_ot(d: Seq<u8>, x: int)
    requires
        piece_at(d, x, lp5_0()),
    ensures
        no_hit(d, pat_ot(), x + 0, x + 19),
{
    lemma_piece_bytes(d, x, lp5_0());
    assert forall|q: int| x + 0 <= q < x + 19 implies !#[trigger] matches_at(d, pat_ot(), q) by {
        if matches_at(d, pat_ot(), q) {
            lemma_match_head(d, pat_ot(), q);
            assert(d[q + 0] == pat_ot()[0]);
        }
    }
}

#[verifier::spinoff_prover]
pub(crate) proof fn lemma_lp5_0_pat_end(d: Seq<u8>, x: int)
    requires
        piece_at(d, x, lp5_0()),
    ensures
        no_hit(d, pat_end(), x + 0, x + 19),
{
    lemma_piece_bytes(d, x, lp5_0());
    assert forall|q: int| x + 0 <= q < x + 19 implies !#[trigger] matches_at(d, pat_end(), q) by {
        if matches_at(d, pat_end(), q) {
            lemma_match_head(d, pat_end(), q);
            assert(d[q + 0] == pat_end()[0]);
        }
    }
}

/// What piece `lp5_0` holds of the patterns, where it stands at byte x.
pub(crate) proof fn lemma_lp5_0(d: Seq<u8>, x: int)
    requires
        piece_at(d, x, lp5_0()),
    ensures
        no_hit(d, pat_ot(), x + 0, x + 19),
        no_hit(d, pat_end(), x + 0, x + 19),
{
    lemma_lp5_0_pat_ot(d, x);
    lemma_lp5_0_pat_end(d, x);
}

/// Label piece 5 holds neither a tensor object nor the header's end.
pub(crate) proof fn lemma_lp5(d: Seq<u8>, x: int)
    requires
        piece_at(d, x, lp5()),
    ensures
        lp5().len() == 19,
        no_hit(d, pat_ot(), x, x + 19),
        no_hit(d, pat_end(), x, x + 19),
{
    assert(lp5().subrange(0, 19) =~= lp5_0());
    lemma_sub_piece(d, x, lp5(), 0, lp5_0());
    lemma_lp5_0(d, x + 0);
}

#[verifier::spinoff_prover]
pub(crate) proof fn lemma_lp6_0_pat_ot(d: Seq<u8>, x: int)
    requires
        piece_at(d, x, lp6_0()),
    ensures
        no_hit(d, pat_ot(), x + 0, x + 14),
{
    lemma_piece_bytes(d, x, lp6_0());
    assert forall|q: int| x + 0 <= q < x + 14 implies !#[trigger] matches_at(d, pat_ot(), q) by {
        if matches_at(d, pat_ot(), q) {
            lemma_match_head(d, pat_ot(), q);
            assert(d[q + 0] == pat_ot()[0]); assert(d[q + 1] == pat_ot()[1]); assert(d[q + 2] == pat_ot()[2]); assert(d[q + 3] == pat_ot()[3]); assert(d[q + 4] == pat_ot()[4]); assert(d[q + 5] == pat_ot()[5]); assert(d[q + 6] == pat_ot()[6]);
        }
    }
}

#[verifier::spinoff_prover]
pub(crate) proof fn lemma_lp6_0_pat_end(d: Seq<u8>, x: int)
    requires
        piece_at(d, x, lp6_0()),
    ensures
        no_hit(d, pat_end(), x + 0, x + 14),
{
    lemma_piece_bytes(d, x, lp6_0());
    assert forall|q: int| x + 0 <= q < x + 14 implies !#[trigger] matches_at(d, pat_end(), q) by {
        if matches_at(d, pat_end(), q) {
            lemma_match_head(d, pat_end(), q);
            assert(d[q + 0] == pat_end()[0]); assert(d[q + 1] == pat_end()[1]); assert(d[q + 2] == pat_end()[2]); assert(d[q + 3] == pat_end()[3]);
        }
    }
}

/// What piece `lp6_0` holds of the patterns, where it stands at byte x.
pub(crate) proof fn lemma_lp6_0(d: Seq<u8>, x: int)
    requires
        piece_at(d, x, lp6_0()),
    ensures
        no_hit(d, pat_ot(), x + 0, x + 14),
        no_hit(d, pat_end(), x + 0, x + 14),
{
    lemma_lp6_0_pat_ot(d, x);
    lemma_lp6_0_pat_end(d, x);
}

/// Label piece 6 holds neither a tensor object nor the header's end.
pub(crate) proof fn lemma_lp6(d: Seq<u8>, x: int)
    requires
        piece_at(d, x, lp6()),
    ensures
        lp6().len() == 14,
        no_hit(d, pat_ot(), x, x + 14),
        no_hit(d, pat_end(), x, x + 14),
{
    assert(lp6().subrange(0, 14) =~= lp6_0());
    lemma_sub_piece(d, x, lp6(), 0, lp6_0());
    lemma_lp6_0(d, x + 0);
}

#[verifier::spinoff_prover]
pub(crate) proof fn lemma_trailer_pat_ot(d: Seq<u8>, x: int)
    requires
        piece_at(d, x, trailer()),
    ensures
        no_hit(d, pat_ot(), x + 0, x + 15),
{
    lemma_piece_bytes(d, x, trailer());
    assert forall|q: int| x + 0 <= q < x + 15 implies !#[trigger] matches_at(d, pat_ot(), q) by {
        if matches_at(d, pat_ot(), q) {
            lemma_match_head(d, pat_ot(), q);
            assert(d[q + 0] == pat_ot()[0]); assert(d[q + 1] == pat_ot()[1]); assert(d[q + 2] == pat_ot()[2]); assert(d[q + 3] == pat_ot()[3]); assert(d[q + 4] == pat_ot()[4]); assert(d[q + 5] == pat_ot()[5]); assert(d[q + 6] == pat_ot()[6]);
        }
    }
}

#[verifier::spinoff_prover]
pub(crate) proof fn lemma_trailer_pat_end(d: Seq<u8>, x: int)
    requires
        piece_at(d, x, trailer()),
    ensures
        no_hit(d, pat_end(), x + 0, x + 11),
        matches_at(d, pat_end(), x + 11),
        no_hit(d, pat_end(), x + 12, x + 15),
{
    lemma_piece_bytes(d, x, trailer());
    assert forall|q: int| x + 0 <= q < x + 11 implies !#[trigger] matches_at(d, pat_end(), q) by {
        if matches_at(d, pat_end(), q) {
            lemma_match_head(d, pat_end(), q);
            assert(d[q + 0] == pat_end()[0]); assert(d[q + 1] == pat_end()[1]); assert(d[q + 2] == pat_end()[2]); assert(d[q + 3] == pat_end()[3]);
        }
    }
    assert(d.subrange(x + 11, x + 11 + 4) =~= pat_end());
    assert forall|q: int| x + 12 <= q < x + 15 implies !#[trigger] matches_at(d, pat_end(), q) by {
        if matches_at(d, pat_end(), q) {
            lemma_match_head(d, pat_end(), q);
            assert(d[q + 0] == pat_end()[0]);
        }
    }
}

/// What piece `trailer` holds of the patterns, where it stands at byte x.
pub(crate) proof fn lemma_trailer(d: Seq<u8>, x: int)
    requires
        piece_at(d, x, trailer()),
    ensures
        no_hit(d, pat_ot(), x + 0, x + 15),
        no_hit(d, pat_end(), x + 0, x + 11),
        matches_at(d, pat_end(), x + 11),
        no_hit(d, pat_end(), x + 12, x + 15),
{
    lemma_trailer_pat_ot(d, x);
    lemma_trailer_pat_end(d, x);
}

pub(crate) proof fn lemma_lit_0()
    ensures
        "  Object = Tensor\n".spec_bytes() == seq![32u8, 32u8, 79u8, 98u8, 106u8, 101u8, 99u8, 116u8, 32u8, 61u8, 32u8, 84u8, 101u8, 110u8, 115u8, 111u8, 114u8, 10u8],
{
    reveal_strlit("  Object = Tensor\n");
    vstd::utf8::is_ascii_chars_encode_utf8("  Object = Tensor\n"@);
    assert("  Object = Tensor\n".spec_bytes() =~= seq![32u8, 32u8, 79u8, 98u8, 106u8, 101u8, 99u8, 116u8, 32u8, 61u8, 32u8, 84u8, 101u8, 110u8, 115u8, 111u8, 114u8, 10u8]);
}

pub(crate) proof fn lemma_lit_1()
    ensures
        "    Name       = \"".spec_bytes() == seq![32u8, 32u8, 32u8, 32u8, 78u8, 97u8, 109u8, 101u8, 32u8, 32u8, 32u8, 32u8, 32u8, 32u8, 32u8, 61u8, 32u8, 34u8],
{
    reveal_strlit("    Name       = \"");
    vstd::utf8::is_ascii_chars_encode_utf8("    Name       = \""@);
    assert("    Name       = \"".spec_bytes() =~= seq![32u8, 32u8, 32u8, 32u8, 78u8, 97u8, 109u8, 101u8, 32u8, 32u8, 32u8, 32u8, 32u8, 32u8, 32u8, 61u8, 32u8, 34u8]);
}

pub(crate) proof fn lemma_lit_2()
    ensures
        "\"\n".spec_bytes() == seq![34u8, 10u8],
{
    reveal_strlit("\"\n");
    vstd::utf8::is_ascii_chars_encode_utf8("\"\n"@);
    assert("\"\n".spec_bytes() =~= seq![34u8, 10u8]);
}

pub(crate) proof fn lemma_lit_3()
    ensures
        "    Lines      = ".spec_bytes() == seq![32u8, 32u8, 32u8, 32u8, 76u8, 105u8, 110u8, 101u8, 115u8, 32u8, 32u8, 32u8, 32u8, 32u8, 32u8, 61u8, 32u8],
{
    reveal_strlit("    Lines      = ");
    vstd::utf8::is_ascii_chars_encode_utf8("    Lines      = "@);
    assert("    Lines      = ".spec_bytes() =~= seq![32u8, 32u8, 32u8, 32u8, 76u8, 105u8, 110u8, 101u8, 115u8, 32u8, 32u8, 32u8, 32u8, 32u8, 32u8, 61u8, 32u8]);
}

pub(crate) proof fn lemma_lit_4()
    ensures
        "\n    Samples    = ".spec_bytes() == seq![10u8, 32u8, 32u8, 32u8, 32u8, 83u8, 97u8, 109u8, 112u8, 108u8, 101u8, 115u8, 32u8, 32u8, 32u8, 32u8, 61u8, 32u8],
{
    reveal_strlit("\n    Samples    = ");
    vstd::utf8::is_ascii_chars_encode_utf8("\n    Samples    = "@);
    assert("\n    Samples    = ".spec_bytes() =~= seq![10u8, 32u8, 32u8, 32u8, 32u8, 83u8, 97u8, 109u8, 112u8, 108u8, 101u8, 115u8, 32u8, 32u8, 32u8, 32u8, 61u8, 32u8]);
}

pub(crate) proof fn lemma_lit_5()
    ensures
        "\n".spec_bytes() == seq![10u8],
{
    reveal_strlit("\n");
    vstd::utf8::is_ascii_chars_encode_utf8("\n"@);
    assert("\n".spec_bytes() =~= seq![10u8]);
}

pub(crate) proof fn lemma_lit_6()
    ensures
        "    RungMin    = ".spec_bytes() == seq![32u8, 32u8, 32u8, 32u8, 82u8, 117u8, 110u8, 103u8, 77u8, 105u8, 110u8, 32u8, 32u8, 32u8, 32u8, 61u8, 32u8],
{
    reveal_strlit("    RungMin    = ");
    vstd::utf8::is_ascii_chars_encode_utf8("    RungMin    = "@);
    assert("    RungMin    = ".spec_bytes() =~= seq![32u8, 32u8, 32u8, 32u8, 82u8, 117u8, 110u8, 103u8, 77u8, 105u8, 110u8, 32u8, 32u8, 32u8, 32u8, 61u8, 32u8]);
}

pub(crate) proof fn lemma_lit_7()
    ensures
        "\n    RungMax    = ".spec_bytes() == seq![10u8, 32u8, 32u8, 32u8, 32u8, 82u8, 117u8, 110u8, 103u8, 77u8, 97u8, 120u8, 32u8, 32u8, 32u8, 32u8, 61u8, 32u8],
{
    reveal_strlit("\n    RungMax    = ");
    vstd::utf8::is_ascii_chars_encode_utf8("\n    RungMax    = "@);
    assert("\n    RungMax    = ".spec_bytes() =~= seq![10u8, 32u8, 32u8, 32u8, 32u8, 82u8, 117u8, 110u8, 103u8, 77u8, 97u8, 120u8, 32u8, 32u8, 32u8, 32u8, 61u8, 32u8]);
}

pub(crate) proof fn lemma_lit_8()
    ensures
        "\n    Bands      = ".spec_bytes() == seq![10u8, 32u8, 32u8, 32u8, 32u8, 66u8, 97u8, 110u8, 100u8, 115u8, 32u8, 32u8, 32u8, 32u8, 32u8, 32u8, 61u8, 32u8],
{
    reveal_strlit("\n    Bands      = ");
    vstd::utf8::is_ascii_chars_encode_utf8("\n    Bands      = "@);
    assert("\n    Bands      = ".spec_bytes() =~= seq![10u8, 32u8, 32u8, 32u8, 32u8, 66u8, 97u8, 110u8, 100u8, 115u8, 32u8, 32u8, 32u8, 32u8, 32u8, 32u8, 61u8, 32u8]);
}

pub(crate) proof fn lemma_lit_9()
    ensures
        "    Tiles      = ".spec_bytes() == seq![32u8, 32u8, 32u8, 32u8, 84u8, 105u8, 108u8, 101u8, 115u8, 32u8, 32u8, 32u8, 32u8, 32u8, 32u8, 61u8, 32u8],
{
    reveal_strlit("    Tiles      = ");
    vstd::utf8::is_ascii_chars_encode_utf8("    Tiles      = "@);
    assert("    Tiles      = ".spec_bytes() =~= seq![32u8, 32u8, 32u8, 32u8, 84u8, 105u8, 108u8, 101u8, 115u8, 32u8, 32u8, 32u8, 32u8, 32u8, 32u8, 61u8, 32u8]);
}

pub(crate) proof fn lemma_lit_10()
    ensures
        "\n    IndexByte  = ".spec_bytes() == seq![10u8, 32u8, 32u8, 32u8, 32u8, 73u8, 110u8, 100u8, 101u8, 120u8, 66u8, 121u8, 116u8, 101u8, 32u8, 32u8, 61u8, 32u8],
{
    reveal_strlit("\n    IndexByte  = ");
    vstd::utf8::is_ascii_chars_encode_utf8("\n    IndexByte  = "@);
    assert("\n    IndexByte  = ".spec_bytes() =~= seq![10u8, 32u8, 32u8, 32u8, 32u8, 73u8, 110u8, 100u8, 101u8, 120u8, 66u8, 121u8, 116u8, 101u8, 32u8, 32u8, 61u8, 32u8]);
}

pub(crate) proof fn lemma_lit_11()
    ensures
        "\n    BodyByte   = ".spec_bytes() == seq![10u8, 32u8, 32u8, 32u8, 32u8, 66u8, 111u8, 100u8, 121u8, 66u8, 121u8, 116u8, 101u8, 32u8, 32u8, 32u8, 61u8, 32u8],
{
    reveal_strlit("\n    BodyByte   = ");
    vstd::utf8::is_ascii_chars_encode_utf8("\n    BodyByte   = "@);
    assert("\n    BodyByte   = ".spec_bytes() =~= seq![10u8, 32u8, 32u8, 32u8, 32u8, 66u8, 111u8, 100u8, 121u8, 66u8, 121u8, 116u8, 101u8, 32u8, 32u8, 32u8, 61u8, 32u8]);
}

pub(crate) proof fn lemma_lit_12()
    ensures
        "\n    BodyBytes  = ".spec_bytes() == seq![10u8, 32u8, 32u8, 32u8, 32u8, 66u8, 111u8, 100u8, 121u8, 66u8, 121u8, 116u8, 101u8, 115u8, 32u8, 32u8, 61u8, 32u8],
{
    reveal_strlit("\n    BodyBytes  = ");
    vstd::utf8::is_ascii_chars_encode_utf8("\n    BodyBytes  = "@);
    assert("\n    BodyBytes  = ".spec_bytes() =~= seq![10u8, 32u8, 32u8, 32u8, 32u8, 66u8, 111u8, 100u8, 121u8, 66u8, 121u8, 116u8, 101u8, 115u8, 32u8, 32u8, 61u8, 32u8]);
}

pub(crate) proof fn lemma_lit_13()
    ensures
        "  End_Object\n".spec_bytes() == seq![32u8, 32u8, 69u8, 110u8, 100u8, 95u8, 79u8, 98u8, 106u8, 101u8, 99u8, 116u8, 10u8],
{
    reveal_strlit("  End_Object\n");
    vstd::utf8::is_ascii_chars_encode_utf8("  End_Object\n"@);
    assert("  End_Object\n".spec_bytes() =~= seq![32u8, 32u8, 69u8, 110u8, 100u8, 95u8, 79u8, 98u8, 106u8, 101u8, 99u8, 116u8, 10u8]);
}

pub(crate) proof fn lemma_lit_14()
    ensures
        "Object = IsisCube\n".spec_bytes() == seq![79u8, 98u8, 106u8, 101u8, 99u8, 116u8, 32u8, 61u8, 32u8, 73u8, 115u8, 105u8, 115u8, 67u8, 117u8, 98u8, 101u8, 10u8],
{
    reveal_strlit("Object = IsisCube\n");
    vstd::utf8::is_ascii_chars_encode_utf8("Object = IsisCube\n"@);
    assert("Object = IsisCube\n".spec_bytes() =~= seq![79u8, 98u8, 106u8, 101u8, 99u8, 116u8, 32u8, 61u8, 32u8, 73u8, 115u8, 105u8, 115u8, 67u8, 117u8, 98u8, 101u8, 10u8]);
}

pub(crate) proof fn lemma_lit_15()
    ensures
        "  /* Atlas Engine fold cube: the third surface, banded by rung. Lineage: V5 master.cub. */\n".spec_bytes() == seq![32u8, 32u8, 47u8, 42u8, 32u8, 65u8, 116u8, 108u8, 97u8, 115u8, 32u8, 69u8, 110u8, 103u8, 105u8, 110u8, 101u8, 32u8, 102u8, 111u8, 108u8, 100u8, 32u8, 99u8, 117u8, 98u8, 101u8, 58u8, 32u8, 116u8, 104u8, 101u8, 32u8, 116u8, 104u8, 105u8, 114u8, 100u8, 32u8, 115u8, 117u8, 114u8, 102u8, 97u8, 99u8, 101u8, 44u8, 32u8, 98u8, 97u8, 110u8, 100u8, 101u8, 100u8, 32u8, 98u8, 121u8, 32u8, 114u8, 117u8, 110u8, 103u8, 46u8, 32u8, 76u8, 105u8, 110u8, 101u8, 97u8, 103u8, 101u8, 58u8, 32u8, 86u8, 53u8, 32u8, 109u8, 97u8, 115u8, 116u8, 101u8, 114u8, 46u8, 99u8, 117u8, 98u8, 46u8, 32u8, 42u8, 47u8, 10u8],
{
    reveal_strlit("  /* Atlas Engine fold cube: the third surface, banded by rung. Lineage: V5 master.cub. */\n");
    vstd::utf8::is_ascii_chars_encode_utf8("  /* Atlas Engine fold cube: the third surface, banded by rung. Lineage: V5 master.cub. */\n"@);
    assert("  /* Atlas Engine fold cube: the third surface, banded by rung. Lineage: V5 master.cub. */\n".spec_bytes() =~= seq![32u8, 32u8, 47u8, 42u8, 32u8, 65u8, 116u8, 108u8, 97u8, 115u8, 32u8, 69u8, 110u8, 103u8, 105u8, 110u8, 101u8, 32u8, 102u8, 111u8, 108u8, 100u8, 32u8, 99u8, 117u8, 98u8, 101u8, 58u8, 32u8, 116u8, 104u8, 101u8, 32u8, 116u8, 104u8, 105u8, 114u8, 100u8, 32u8, 115u8, 117u8, 114u8, 102u8, 97u8, 99u8, 101u8, 44u8, 32u8, 98u8, 97u8, 110u8, 100u8, 101u8, 100u8, 32u8, 98u8, 121u8, 32u8, 114u8, 117u8, 110u8, 103u8, 46u8, 32u8, 76u8, 105u8, 110u8, 101u8, 97u8, 103u8, 101u8, 58u8, 32u8, 86u8, 53u8, 32u8, 109u8, 97u8, 115u8, 116u8, 101u8, 114u8, 46u8, 99u8, 117u8, 98u8, 46u8, 32u8, 42u8, 47u8, 10u8]);
}

pub(crate) proof fn lemma_lit_16()
    ensures
        "  Object = Core\n".spec_bytes() == seq![32u8, 32u8, 79u8, 98u8, 106u8, 101u8, 99u8, 116u8, 32u8, 61u8, 32u8, 67u8, 111u8, 114u8, 101u8, 10u8],
{
    reveal_strlit("  Object = Core\n");
    vstd::utf8::is_ascii_chars_encode_utf8("  Object = Core\n"@);
    assert("  Object = Core\n".spec_bytes() =~= seq![32u8, 32u8, 79u8, 98u8, 106u8, 101u8, 99u8, 116u8, 32u8, 61u8, 32u8, 67u8, 111u8, 114u8, 101u8, 10u8]);
}

pub(crate) proof fn lemma_lit_17()
    ensures
        "    StartByte   = ".spec_bytes() == seq![32u8, 32u8, 32u8, 32u8, 83u8, 116u8, 97u8, 114u8, 116u8, 66u8, 121u8, 116u8, 101u8, 32u8, 32u8, 32u8, 61u8, 32u8],
{
    reveal_strlit("    StartByte   = ");
    vstd::utf8::is_ascii_chars_encode_utf8("    StartByte   = "@);
    assert("    StartByte   = ".spec_bytes() =~= seq![32u8, 32u8, 32u8, 32u8, 83u8, 116u8, 97u8, 114u8, 116u8, 66u8, 121u8, 116u8, 101u8, 32u8, 32u8, 32u8, 61u8, 32u8]);
}

pub(crate) proof fn lemma_lit_18()
    ensures
        "    Format      = RungBanded\n".spec_bytes() == seq![32u8, 32u8, 32u8, 32u8, 70u8, 111u8, 114u8, 109u8, 97u8, 116u8, 32u8, 32u8, 32u8, 32u8, 32u8, 32u8, 61u8, 32u8, 82u8, 117u8, 110u8, 103u8, 66u8, 97u8, 110u8, 100u8, 101u8, 100u8, 10u8],
{
    reveal_strlit("    Format      = RungBanded\n");
    vstd::utf8::is_ascii_chars_encode_utf8("    Format      = RungBanded\n"@);
    assert("    Format      = RungBanded\n".spec_bytes() =~= seq![32u8, 32u8, 32u8, 32u8, 70u8, 111u8, 114u8, 109u8, 97u8, 116u8, 32u8, 32u8, 32u8, 32u8, 32u8, 32u8, 61u8, 32u8, 82u8, 117u8, 110u8, 103u8, 66u8, 97u8, 110u8, 100u8, 101u8, 100u8, 10u8]);
}

pub(crate) proof fn lemma_lit_19()
    ensures
        "    LineTile    = ".spec_bytes() == seq![32u8, 32u8, 32u8, 32u8, 76u8, 105u8, 110u8, 101u8, 84u8, 105u8, 108u8, 101u8, 32u8, 32u8, 32u8, 32u8, 61u8, 32u8],
{
    reveal_strlit("    LineTile    = ");
    vstd::utf8::is_ascii_chars_encode_utf8("    LineTile    = "@);
    assert("    LineTile    = ".spec_bytes() =~= seq![32u8, 32u8, 32u8, 32u8, 76u8, 105u8, 110u8, 101u8, 84u8, 105u8, 108u8, 101u8, 32u8, 32u8, 32u8, 32u8, 61u8, 32u8]);
}

pub(crate) proof fn lemma_lit_20()
    ensures
        "    Group = Pixels\n      Type = UnsignedWord\n      ByteOrder = Lsb\n      Meaning = \"column index; lane byte = sign*128 + (odd-1)/2; band = rmax - rung\"\n    End_Group\n".spec_bytes() == seq![32u8, 32u8, 32u8, 32u8, 71u8, 114u8, 111u8, 117u8, 112u8, 32u8, 61u8, 32u8, 80u8, 105u8, 120u8, 101u8, 108u8, 115u8, 10u8, 32u8, 32u8, 32u8, 32u8, 32u8, 32u8, 84u8, 121u8, 112u8, 101u8, 32u8, 61u8, 32u8, 85u8, 110u8, 115u8, 105u8, 103u8, 110u8, 101u8, 100u8, 87u8, 111u8, 114u8, 100u8, 10u8, 32u8, 32u8, 32u8, 32u8, 32u8, 32u8, 66u8, 121u8, 116u8, 101u8, 79u8, 114u8, 100u8, 101u8, 114u8, 32u8, 61u8, 32u8, 76u8, 115u8, 98u8, 10u8, 32u8, 32u8, 32u8, 32u8, 32u8, 32u8, 77u8, 101u8, 97u8, 110u8, 105u8, 110u8, 103u8, 32u8, 61u8, 32u8, 34u8, 99u8, 111u8, 108u8, 117u8, 109u8, 110u8, 32u8, 105u8, 110u8, 100u8, 101u8, 120u8, 59u8, 32u8, 108u8, 97u8, 110u8, 101u8, 32u8, 98u8, 121u8, 116u8, 101u8, 32u8, 61u8, 32u8, 115u8, 105u8, 103u8, 110u8, 42u8, 49u8, 50u8, 56u8, 32u8, 43u8, 32u8, 40u8, 111u8, 100u8, 100u8, 45u8, 49u8, 41u8, 47u8, 50u8, 59u8, 32u8, 98u8, 97u8, 110u8, 100u8, 32u8, 61u8, 32u8, 114u8, 109u8, 97u8, 120u8, 32u8, 45u8, 32u8, 114u8, 117u8, 110u8, 103u8, 34u8, 10u8, 32u8, 32u8, 32u8, 32u8, 69u8, 110u8, 100u8, 95u8, 71u8, 114u8, 111u8, 117u8, 112u8, 10u8],
{
    reveal_strlit("    Group = Pixels\n      Type = UnsignedWord\n      ByteOrder = Lsb\n      Meaning = \"column index; lane byte = sign*128 + (odd-1)/2; band = rmax - rung\"\n    End_Group\n");
    vstd::utf8::is_ascii_chars_encode_utf8("    Group = Pixels\n      Type = UnsignedWord\n      ByteOrder = Lsb\n      Meaning = \"column index; lane byte = sign*128 + (odd-1)/2; band = rmax - rung\"\n    End_Group\n"@);
    assert("    Group = Pixels\n      Type = UnsignedWord\n      ByteOrder = Lsb\n      Meaning = \"column index; lane byte = sign*128 + (odd-1)/2; band = rmax - rung\"\n    End_Group\n".spec_bytes() =~= seq![32u8, 32u8, 32u8, 32u8, 71u8, 114u8, 111u8, 117u8, 112u8, 32u8, 61u8, 32u8, 80u8, 105u8, 120u8, 101u8, 108u8, 115u8, 10u8, 32u8, 32u8, 32u8, 32u8, 32u8, 32u8, 84u8, 121u8, 112u8, 101u8, 32u8, 61u8, 32u8, 85u8, 110u8, 115u8, 105u8, 103u8, 110u8, 101u8, 100u8, 87u8, 111u8, 114u8, 100u8, 10u8, 32u8, 32u8, 32u8, 32u8, 32u8, 32u8, 66u8, 121u8, 116u8, 101u8, 79u8, 114u8, 100u8, 101u8, 114u8, 32u8, 61u8, 32u8, 76u8, 115u8, 98u8, 10u8, 32u8, 32u8, 32u8, 32u8, 32u8, 32u8, 77u8, 101u8, 97u8, 110u8, 105u8, 110u8, 103u8, 32u8, 61u8, 32u8, 34u8, 99u8, 111u8, 108u8, 117u8, 109u8, 110u8, 32u8, 105u8, 110u8, 100u8, 101u8, 120u8, 59u8, 32u8, 108u8, 97u8, 110u8, 101u8, 32u8, 98u8, 121u8, 116u8, 101u8, 32u8, 61u8, 32u8, 115u8, 105u8, 103u8, 110u8, 42u8, 49u8, 50u8, 56u8, 32u8, 43u8, 32u8, 40u8, 111u8, 100u8, 100u8, 45u8, 49u8, 41u8, 47u8, 50u8, 59u8, 32u8, 98u8, 97u8, 110u8, 100u8, 32u8, 61u8, 32u8, 114u8, 109u8, 97u8, 120u8, 32u8, 45u8, 32u8, 114u8, 117u8, 110u8, 103u8, 34u8, 10u8, 32u8, 32u8, 32u8, 32u8, 69u8, 110u8, 100u8, 95u8, 71u8, 114u8, 111u8, 117u8, 112u8, 10u8]);
}

pub(crate) proof fn lemma_lit_21()
    ensures
        "  Object = Label\n".spec_bytes() == seq![32u8, 32u8, 79u8, 98u8, 106u8, 101u8, 99u8, 116u8, 32u8, 61u8, 32u8, 76u8, 97u8, 98u8, 101u8, 108u8, 10u8],
{
    reveal_strlit("  Object = Label\n");
    vstd::utf8::is_ascii_chars_encode_utf8("  Object = Label\n"@);
    assert("  Object = Label\n".spec_bytes() =~= seq![32u8, 32u8, 79u8, 98u8, 106u8, 101u8, 99u8, 116u8, 32u8, 61u8, 32u8, 76u8, 97u8, 98u8, 101u8, 108u8, 10u8]);
}

pub(crate) proof fn lemma_lit_22()
    ensures
        "    Model       = \"".spec_bytes() == seq![32u8, 32u8, 32u8, 32u8, 77u8, 111u8, 100u8, 101u8, 108u8, 32u8, 32u8, 32u8, 32u8, 32u8, 32u8, 32u8, 61u8, 32u8, 34u8],
{
    reveal_strlit("    Model       = \"");
    vstd::utf8::is_ascii_chars_encode_utf8("    Model       = \""@);
    assert("    Model       = \"".spec_bytes() =~= seq![32u8, 32u8, 32u8, 32u8, 77u8, 111u8, 100u8, 101u8, 108u8, 32u8, 32u8, 32u8, 32u8, 32u8, 32u8, 32u8, 61u8, 32u8, 34u8]);
}

pub(crate) proof fn lemma_lit_23()
    ensures
        "    IntakeSeal  = ".spec_bytes() == seq![32u8, 32u8, 32u8, 32u8, 73u8, 110u8, 116u8, 97u8, 107u8, 101u8, 83u8, 101u8, 97u8, 108u8, 32u8, 32u8, 61u8, 32u8],
{
    reveal_strlit("    IntakeSeal  = ");
    vstd::utf8::is_ascii_chars_encode_utf8("    IntakeSeal  = "@);
    assert("    IntakeSeal  = ".spec_bytes() =~= seq![32u8, 32u8, 32u8, 32u8, 73u8, 110u8, 116u8, 97u8, 107u8, 101u8, 83u8, 101u8, 97u8, 108u8, 32u8, 32u8, 61u8, 32u8]);
}

pub(crate) proof fn lemma_lit_24()
    ensures
        "    Floor       = \"activations below 2^-90 dropped with sticky; above it every term exact\"\n".spec_bytes() == seq![32u8, 32u8, 32u8, 32u8, 70u8, 108u8, 111u8, 111u8, 114u8, 32u8, 32u8, 32u8, 32u8, 32u8, 32u8, 32u8, 61u8, 32u8, 34u8, 97u8, 99u8, 116u8, 105u8, 118u8, 97u8, 116u8, 105u8, 111u8, 110u8, 115u8, 32u8, 98u8, 101u8, 108u8, 111u8, 119u8, 32u8, 50u8, 94u8, 45u8, 57u8, 48u8, 32u8, 100u8, 114u8, 111u8, 112u8, 112u8, 101u8, 100u8, 32u8, 119u8, 105u8, 116u8, 104u8, 32u8, 115u8, 116u8, 105u8, 99u8, 107u8, 121u8, 59u8, 32u8, 97u8, 98u8, 111u8, 118u8, 101u8, 32u8, 105u8, 116u8, 32u8, 101u8, 118u8, 101u8, 114u8, 121u8, 32u8, 116u8, 101u8, 114u8, 109u8, 32u8, 101u8, 120u8, 97u8, 99u8, 116u8, 34u8, 10u8],
{
    reveal_strlit("    Floor       = \"activations below 2^-90 dropped with sticky; above it every term exact\"\n");
    vstd::utf8::is_ascii_chars_encode_utf8("    Floor       = \"activations below 2^-90 dropped with sticky; above it every term exact\"\n"@);
    assert("    Floor       = \"activations below 2^-90 dropped with sticky; above it every term exact\"\n".spec_bytes() =~= seq![32u8, 32u8, 32u8, 32u8, 70u8, 108u8, 111u8, 111u8, 114u8, 32u8, 32u8, 32u8, 32u8, 32u8, 32u8, 32u8, 61u8, 32u8, 34u8, 97u8, 99u8, 116u8, 105u8, 118u8, 97u8, 116u8, 105u8, 111u8, 110u8, 115u8, 32u8, 98u8, 101u8, 108u8, 111u8, 119u8, 32u8, 50u8, 94u8, 45u8, 57u8, 48u8, 32u8, 100u8, 114u8, 111u8, 112u8, 112u8, 101u8, 100u8, 32u8, 119u8, 105u8, 116u8, 104u8, 32u8, 115u8, 116u8, 105u8, 99u8, 107u8, 121u8, 59u8, 32u8, 97u8, 98u8, 111u8, 118u8, 101u8, 32u8, 105u8, 116u8, 32u8, 101u8, 118u8, 101u8, 114u8, 121u8, 32u8, 116u8, 101u8, 114u8, 109u8, 32u8, 101u8, 120u8, 97u8, 99u8, 116u8, 34u8, 10u8]);
}

pub(crate) proof fn lemma_lit_25()
    ensures
        "    Tensors     = ".spec_bytes() == seq![32u8, 32u8, 32u8, 32u8, 84u8, 101u8, 110u8, 115u8, 111u8, 114u8, 115u8, 32u8, 32u8, 32u8, 32u8, 32u8, 61u8, 32u8],
{
    reveal_strlit("    Tensors     = ");
    vstd::utf8::is_ascii_chars_encode_utf8("    Tensors     = "@);
    assert("    Tensors     = ".spec_bytes() =~= seq![32u8, 32u8, 32u8, 32u8, 84u8, 101u8, 110u8, 115u8, 111u8, 114u8, 115u8, 32u8, 32u8, 32u8, 32u8, 32u8, 61u8, 32u8]);
}

pub(crate) proof fn lemma_lit_26()
    ensures
        "    FileBytes   = ".spec_bytes() == seq![32u8, 32u8, 32u8, 32u8, 70u8, 105u8, 108u8, 101u8, 66u8, 121u8, 116u8, 101u8, 115u8, 32u8, 32u8, 32u8, 61u8, 32u8],
{
    reveal_strlit("    FileBytes   = ");
    vstd::utf8::is_ascii_chars_encode_utf8("    FileBytes   = "@);
    assert("    FileBytes   = ".spec_bytes() =~= seq![32u8, 32u8, 32u8, 32u8, 70u8, 105u8, 108u8, 101u8, 66u8, 121u8, 116u8, 101u8, 115u8, 32u8, 32u8, 32u8, 61u8, 32u8]);
}

pub(crate) proof fn lemma_lit_27()
    ensures
        "End_Object\nEnd\n".spec_bytes() == seq![69u8, 110u8, 100u8, 95u8, 79u8, 98u8, 106u8, 101u8, 99u8, 116u8, 10u8, 69u8, 110u8, 100u8, 10u8],
{
    reveal_strlit("End_Object\nEnd\n");
    vstd::utf8::is_ascii_chars_encode_utf8("End_Object\nEnd\n"@);
    assert("End_Object\nEnd\n".spec_bytes() =~= seq![69u8, 110u8, 100u8, 95u8, 79u8, 98u8, 106u8, 101u8, 99u8, 116u8, 10u8, 69u8, 110u8, 100u8, 10u8]);
}

pub(crate) proof fn lemma_lit_28()
    ensures
        "Name".spec_bytes() == seq![78u8, 97u8, 109u8, 101u8],
{
    reveal_strlit("Name");
    vstd::utf8::is_ascii_chars_encode_utf8("Name"@);
    assert("Name".spec_bytes() =~= seq![78u8, 97u8, 109u8, 101u8]);
}

pub(crate) proof fn lemma_lit_29()
    ensures
        "Lines".spec_bytes() == seq![76u8, 105u8, 110u8, 101u8, 115u8],
{
    reveal_strlit("Lines");
    vstd::utf8::is_ascii_chars_encode_utf8("Lines"@);
    assert("Lines".spec_bytes() =~= seq![76u8, 105u8, 110u8, 101u8, 115u8]);
}

pub(crate) proof fn lemma_lit_30()
    ensures
        "Samples".spec_bytes() == seq![83u8, 97u8, 109u8, 112u8, 108u8, 101u8, 115u8],
{
    reveal_strlit("Samples");
    vstd::utf8::is_ascii_chars_encode_utf8("Samples"@);
    assert("Samples".spec_bytes() =~= seq![83u8, 97u8, 109u8, 112u8, 108u8, 101u8, 115u8]);
}

pub(crate) proof fn lemma_lit_31()
    ensures
        "RungMin".spec_bytes() == seq![82u8, 117u8, 110u8, 103u8, 77u8, 105u8, 110u8],
{
    reveal_strlit("RungMin");
    vstd::utf8::is_ascii_chars_encode_utf8("RungMin"@);
    assert("RungMin".spec_bytes() =~= seq![82u8, 117u8, 110u8, 103u8, 77u8, 105u8, 110u8]);
}

pub(crate) proof fn lemma_lit_32()
    ensures
        "RungMax".spec_bytes() == seq![82u8, 117u8, 110u8, 103u8, 77u8, 97u8, 120u8],
{
    reveal_strlit("RungMax");
    vstd::utf8::is_ascii_chars_encode_utf8("RungMax"@);
    assert("RungMax".spec_bytes() =~= seq![82u8, 117u8, 110u8, 103u8, 77u8, 97u8, 120u8]);
}

pub(crate) proof fn lemma_lit_33()
    ensures
        "Tiles".spec_bytes() == seq![84u8, 105u8, 108u8, 101u8, 115u8],
{
    reveal_strlit("Tiles");
    vstd::utf8::is_ascii_chars_encode_utf8("Tiles"@);
    assert("Tiles".spec_bytes() =~= seq![84u8, 105u8, 108u8, 101u8, 115u8]);
}

pub(crate) proof fn lemma_lit_34()
    ensures
        "IndexByte".spec_bytes() == seq![73u8, 110u8, 100u8, 101u8, 120u8, 66u8, 121u8, 116u8, 101u8],
{
    reveal_strlit("IndexByte");
    vstd::utf8::is_ascii_chars_encode_utf8("IndexByte"@);
    assert("IndexByte".spec_bytes() =~= seq![73u8, 110u8, 100u8, 101u8, 120u8, 66u8, 121u8, 116u8, 101u8]);
}

pub(crate) proof fn lemma_lit_35()
    ensures
        "BodyByte".spec_bytes() == seq![66u8, 111u8, 100u8, 121u8, 66u8, 121u8, 116u8, 101u8],
{
    reveal_strlit("BodyByte");
    vstd::utf8::is_ascii_chars_encode_utf8("BodyByte"@);
    assert("BodyByte".spec_bytes() =~= seq![66u8, 111u8, 100u8, 121u8, 66u8, 121u8, 116u8, 101u8]);
}

pub(crate) proof fn lemma_lit_36()
    ensures
        "BodyBytes".spec_bytes() == seq![66u8, 111u8, 100u8, 121u8, 66u8, 121u8, 116u8, 101u8, 115u8],
{
    reveal_strlit("BodyBytes");
    vstd::utf8::is_ascii_chars_encode_utf8("BodyBytes"@);
    assert("BodyBytes".spec_bytes() =~= seq![66u8, 111u8, 100u8, 121u8, 66u8, 121u8, 116u8, 101u8, 115u8]);
}

pub(crate) proof fn lemma_lit_37()
    ensures
        "Object = Tensor".spec_bytes() == seq![79u8, 98u8, 106u8, 101u8, 99u8, 116u8, 32u8, 61u8, 32u8, 84u8, 101u8, 110u8, 115u8, 111u8, 114u8],
{
    reveal_strlit("Object = Tensor");
    vstd::utf8::is_ascii_chars_encode_utf8("Object = Tensor"@);
    assert("Object = Tensor".spec_bytes() =~= seq![79u8, 98u8, 106u8, 101u8, 99u8, 116u8, 32u8, 61u8, 32u8, 84u8, 101u8, 110u8, 115u8, 111u8, 114u8]);
}

pub(crate) proof fn lemma_lit_38()
    ensures
        "End\n".spec_bytes() == seq![69u8, 110u8, 100u8, 10u8],
{
    reveal_strlit("End\n");
    vstd::utf8::is_ascii_chars_encode_utf8("End\n"@);
    assert("End\n".spec_bytes() =~= seq![69u8, 110u8, 100u8, 10u8]);
}

pub(crate) proof fn lemma_lit_39()
    ensures
        "=".spec_bytes() == seq![61u8],
{
    reveal_strlit("=");
    vstd::utf8::is_ascii_chars_encode_utf8("="@);
    assert("=".spec_bytes() =~= seq![61u8]);
}

/// The bytes of every literal the header is written from and read by.
pub(crate) proof fn lemma_lits()
    ensures
        "  Object = Tensor\n".spec_bytes() == seq![32u8, 32u8, 79u8, 98u8, 106u8, 101u8, 99u8, 116u8, 32u8, 61u8, 32u8, 84u8, 101u8, 110u8, 115u8, 111u8, 114u8, 10u8],
        "    Name       = \"".spec_bytes() == seq![32u8, 32u8, 32u8, 32u8, 78u8, 97u8, 109u8, 101u8, 32u8, 32u8, 32u8, 32u8, 32u8, 32u8, 32u8, 61u8, 32u8, 34u8],
        "\"\n".spec_bytes() == seq![34u8, 10u8],
        "    Lines      = ".spec_bytes() == seq![32u8, 32u8, 32u8, 32u8, 76u8, 105u8, 110u8, 101u8, 115u8, 32u8, 32u8, 32u8, 32u8, 32u8, 32u8, 61u8, 32u8],
        "\n    Samples    = ".spec_bytes() == seq![10u8, 32u8, 32u8, 32u8, 32u8, 83u8, 97u8, 109u8, 112u8, 108u8, 101u8, 115u8, 32u8, 32u8, 32u8, 32u8, 61u8, 32u8],
        "\n".spec_bytes() == seq![10u8],
        "    RungMin    = ".spec_bytes() == seq![32u8, 32u8, 32u8, 32u8, 82u8, 117u8, 110u8, 103u8, 77u8, 105u8, 110u8, 32u8, 32u8, 32u8, 32u8, 61u8, 32u8],
        "\n    RungMax    = ".spec_bytes() == seq![10u8, 32u8, 32u8, 32u8, 32u8, 82u8, 117u8, 110u8, 103u8, 77u8, 97u8, 120u8, 32u8, 32u8, 32u8, 32u8, 61u8, 32u8],
        "\n    Bands      = ".spec_bytes() == seq![10u8, 32u8, 32u8, 32u8, 32u8, 66u8, 97u8, 110u8, 100u8, 115u8, 32u8, 32u8, 32u8, 32u8, 32u8, 32u8, 61u8, 32u8],
        "    Tiles      = ".spec_bytes() == seq![32u8, 32u8, 32u8, 32u8, 84u8, 105u8, 108u8, 101u8, 115u8, 32u8, 32u8, 32u8, 32u8, 32u8, 32u8, 61u8, 32u8],
        "\n    IndexByte  = ".spec_bytes() == seq![10u8, 32u8, 32u8, 32u8, 32u8, 73u8, 110u8, 100u8, 101u8, 120u8, 66u8, 121u8, 116u8, 101u8, 32u8, 32u8, 61u8, 32u8],
        "\n    BodyByte   = ".spec_bytes() == seq![10u8, 32u8, 32u8, 32u8, 32u8, 66u8, 111u8, 100u8, 121u8, 66u8, 121u8, 116u8, 101u8, 32u8, 32u8, 32u8, 61u8, 32u8],
        "\n    BodyBytes  = ".spec_bytes() == seq![10u8, 32u8, 32u8, 32u8, 32u8, 66u8, 111u8, 100u8, 121u8, 66u8, 121u8, 116u8, 101u8, 115u8, 32u8, 32u8, 61u8, 32u8],
        "  End_Object\n".spec_bytes() == seq![32u8, 32u8, 69u8, 110u8, 100u8, 95u8, 79u8, 98u8, 106u8, 101u8, 99u8, 116u8, 10u8],
        "Object = IsisCube\n".spec_bytes() == seq![79u8, 98u8, 106u8, 101u8, 99u8, 116u8, 32u8, 61u8, 32u8, 73u8, 115u8, 105u8, 115u8, 67u8, 117u8, 98u8, 101u8, 10u8],
        "  /* Atlas Engine fold cube: the third surface, banded by rung. Lineage: V5 master.cub. */\n".spec_bytes() == seq![32u8, 32u8, 47u8, 42u8, 32u8, 65u8, 116u8, 108u8, 97u8, 115u8, 32u8, 69u8, 110u8, 103u8, 105u8, 110u8, 101u8, 32u8, 102u8, 111u8, 108u8, 100u8, 32u8, 99u8, 117u8, 98u8, 101u8, 58u8, 32u8, 116u8, 104u8, 101u8, 32u8, 116u8, 104u8, 105u8, 114u8, 100u8, 32u8, 115u8, 117u8, 114u8, 102u8, 97u8, 99u8, 101u8, 44u8, 32u8, 98u8, 97u8, 110u8, 100u8, 101u8, 100u8, 32u8, 98u8, 121u8, 32u8, 114u8, 117u8, 110u8, 103u8, 46u8, 32u8, 76u8, 105u8, 110u8, 101u8, 97u8, 103u8, 101u8, 58u8, 32u8, 86u8, 53u8, 32u8, 109u8, 97u8, 115u8, 116u8, 101u8, 114u8, 46u8, 99u8, 117u8, 98u8, 46u8, 32u8, 42u8, 47u8, 10u8],
        "  Object = Core\n".spec_bytes() == seq![32u8, 32u8, 79u8, 98u8, 106u8, 101u8, 99u8, 116u8, 32u8, 61u8, 32u8, 67u8, 111u8, 114u8, 101u8, 10u8],
        "    StartByte   = ".spec_bytes() == seq![32u8, 32u8, 32u8, 32u8, 83u8, 116u8, 97u8, 114u8, 116u8, 66u8, 121u8, 116u8, 101u8, 32u8, 32u8, 32u8, 61u8, 32u8],
        "    Format      = RungBanded\n".spec_bytes() == seq![32u8, 32u8, 32u8, 32u8, 70u8, 111u8, 114u8, 109u8, 97u8, 116u8, 32u8, 32u8, 32u8, 32u8, 32u8, 32u8, 61u8, 32u8, 82u8, 117u8, 110u8, 103u8, 66u8, 97u8, 110u8, 100u8, 101u8, 100u8, 10u8],
        "    LineTile    = ".spec_bytes() == seq![32u8, 32u8, 32u8, 32u8, 76u8, 105u8, 110u8, 101u8, 84u8, 105u8, 108u8, 101u8, 32u8, 32u8, 32u8, 32u8, 61u8, 32u8],
        "    Group = Pixels\n      Type = UnsignedWord\n      ByteOrder = Lsb\n      Meaning = \"column index; lane byte = sign*128 + (odd-1)/2; band = rmax - rung\"\n    End_Group\n".spec_bytes() == seq![32u8, 32u8, 32u8, 32u8, 71u8, 114u8, 111u8, 117u8, 112u8, 32u8, 61u8, 32u8, 80u8, 105u8, 120u8, 101u8, 108u8, 115u8, 10u8, 32u8, 32u8, 32u8, 32u8, 32u8, 32u8, 84u8, 121u8, 112u8, 101u8, 32u8, 61u8, 32u8, 85u8, 110u8, 115u8, 105u8, 103u8, 110u8, 101u8, 100u8, 87u8, 111u8, 114u8, 100u8, 10u8, 32u8, 32u8, 32u8, 32u8, 32u8, 32u8, 66u8, 121u8, 116u8, 101u8, 79u8, 114u8, 100u8, 101u8, 114u8, 32u8, 61u8, 32u8, 76u8, 115u8, 98u8, 10u8, 32u8, 32u8, 32u8, 32u8, 32u8, 32u8, 77u8, 101u8, 97u8, 110u8, 105u8, 110u8, 103u8, 32u8, 61u8, 32u8, 34u8, 99u8, 111u8, 108u8, 117u8, 109u8, 110u8, 32u8, 105u8, 110u8, 100u8, 101u8, 120u8, 59u8, 32u8, 108u8, 97u8, 110u8, 101u8, 32u8, 98u8, 121u8, 116u8, 101u8, 32u8, 61u8, 32u8, 115u8, 105u8, 103u8, 110u8, 42u8, 49u8, 50u8, 56u8, 32u8, 43u8, 32u8, 40u8, 111u8, 100u8, 100u8, 45u8, 49u8, 41u8, 47u8, 50u8, 59u8, 32u8, 98u8, 97u8, 110u8, 100u8, 32u8, 61u8, 32u8, 114u8, 109u8, 97u8, 120u8, 32u8, 45u8, 32u8, 114u8, 117u8, 110u8, 103u8, 34u8, 10u8, 32u8, 32u8, 32u8, 32u8, 69u8, 110u8, 100u8, 95u8, 71u8, 114u8, 111u8, 117u8, 112u8, 10u8],
        "  Object = Label\n".spec_bytes() == seq![32u8, 32u8, 79u8, 98u8, 106u8, 101u8, 99u8, 116u8, 32u8, 61u8, 32u8, 76u8, 97u8, 98u8, 101u8, 108u8, 10u8],
        "    Model       = \"".spec_bytes() == seq![32u8, 32u8, 32u8, 32u8, 77u8, 111u8, 100u8, 101u8, 108u8, 32u8, 32u8, 32u8, 32u8, 32u8, 32u8, 32u8, 61u8, 32u8, 34u8],
        "    IntakeSeal  = ".spec_bytes() == seq![32u8, 32u8, 32u8, 32u8, 73u8, 110u8, 116u8, 97u8, 107u8, 101u8, 83u8, 101u8, 97u8, 108u8, 32u8, 32u8, 61u8, 32u8],
        "    Floor       = \"activations below 2^-90 dropped with sticky; above it every term exact\"\n".spec_bytes() == seq![32u8, 32u8, 32u8, 32u8, 70u8, 108u8, 111u8, 111u8, 114u8, 32u8, 32u8, 32u8, 32u8, 32u8, 32u8, 32u8, 61u8, 32u8, 34u8, 97u8, 99u8, 116u8, 105u8, 118u8, 97u8, 116u8, 105u8, 111u8, 110u8, 115u8, 32u8, 98u8, 101u8, 108u8, 111u8, 119u8, 32u8, 50u8, 94u8, 45u8, 57u8, 48u8, 32u8, 100u8, 114u8, 111u8, 112u8, 112u8, 101u8, 100u8, 32u8, 119u8, 105u8, 116u8, 104u8, 32u8, 115u8, 116u8, 105u8, 99u8, 107u8, 121u8, 59u8, 32u8, 97u8, 98u8, 111u8, 118u8, 101u8, 32u8, 105u8, 116u8, 32u8, 101u8, 118u8, 101u8, 114u8, 121u8, 32u8, 116u8, 101u8, 114u8, 109u8, 32u8, 101u8, 120u8, 97u8, 99u8, 116u8, 34u8, 10u8],
        "    Tensors     = ".spec_bytes() == seq![32u8, 32u8, 32u8, 32u8, 84u8, 101u8, 110u8, 115u8, 111u8, 114u8, 115u8, 32u8, 32u8, 32u8, 32u8, 32u8, 61u8, 32u8],
        "    FileBytes   = ".spec_bytes() == seq![32u8, 32u8, 32u8, 32u8, 70u8, 105u8, 108u8, 101u8, 66u8, 121u8, 116u8, 101u8, 115u8, 32u8, 32u8, 32u8, 61u8, 32u8],
        "End_Object\nEnd\n".spec_bytes() == seq![69u8, 110u8, 100u8, 95u8, 79u8, 98u8, 106u8, 101u8, 99u8, 116u8, 10u8, 69u8, 110u8, 100u8, 10u8],
        "Name".spec_bytes() == seq![78u8, 97u8, 109u8, 101u8],
        "Lines".spec_bytes() == seq![76u8, 105u8, 110u8, 101u8, 115u8],
        "Samples".spec_bytes() == seq![83u8, 97u8, 109u8, 112u8, 108u8, 101u8, 115u8],
        "RungMin".spec_bytes() == seq![82u8, 117u8, 110u8, 103u8, 77u8, 105u8, 110u8],
        "RungMax".spec_bytes() == seq![82u8, 117u8, 110u8, 103u8, 77u8, 97u8, 120u8],
        "Tiles".spec_bytes() == seq![84u8, 105u8, 108u8, 101u8, 115u8],
        "IndexByte".spec_bytes() == seq![73u8, 110u8, 100u8, 101u8, 120u8, 66u8, 121u8, 116u8, 101u8],
        "BodyByte".spec_bytes() == seq![66u8, 111u8, 100u8, 121u8, 66u8, 121u8, 116u8, 101u8],
        "BodyBytes".spec_bytes() == seq![66u8, 111u8, 100u8, 121u8, 66u8, 121u8, 116u8, 101u8, 115u8],
        "Object = Tensor".spec_bytes() == seq![79u8, 98u8, 106u8, 101u8, 99u8, 116u8, 32u8, 61u8, 32u8, 84u8, 101u8, 110u8, 115u8, 111u8, 114u8],
        "End\n".spec_bytes() == seq![69u8, 110u8, 100u8, 10u8],
        "=".spec_bytes() == seq![61u8],
{
    lemma_lit_0();
    lemma_lit_1();
    lemma_lit_2();
    lemma_lit_3();
    lemma_lit_4();
    lemma_lit_5();
    lemma_lit_6();
    lemma_lit_7();
    lemma_lit_8();
    lemma_lit_9();
    lemma_lit_10();
    lemma_lit_11();
    lemma_lit_12();
    lemma_lit_13();
    lemma_lit_14();
    lemma_lit_15();
    lemma_lit_16();
    lemma_lit_17();
    lemma_lit_18();
    lemma_lit_19();
    lemma_lit_20();
    lemma_lit_21();
    lemma_lit_22();
    lemma_lit_23();
    lemma_lit_24();
    lemma_lit_25();
    lemma_lit_26();
    lemma_lit_27();
    lemma_lit_28();
    lemma_lit_29();
    lemma_lit_30();
    lemma_lit_31();
    lemma_lit_32();
    lemma_lit_33();
    lemma_lit_34();
    lemma_lit_35();
    lemma_lit_36();
    lemma_lit_37();
    lemma_lit_38();
    lemma_lit_39();
}

// ── pieces of a concatenation ────────────────────────────────────────────────

/// `small` is where `big` starts.
pub open spec fn is_prefix(small: Seq<u8>, big: Seq<u8>) -> bool {
    small.len() <= big.len() && big.subrange(0, small.len() as int) == small
}

pub(crate) proof fn lemma_add_assoc(a: Seq<u8>, b: Seq<u8>, c: Seq<u8>)
    ensures
        (a + b) + c == a + (b + c),
{
    assert((a + b) + c =~= a + (b + c));
}

pub(crate) proof fn lemma_piece_last(s: Seq<u8>, e: Seq<u8>)
    ensures
        piece_at(s + e, s.len() as int, e),
{
    assert((s + e).subrange(s.len() as int, (s.len() + e.len()) as int) =~= e);
}

pub(crate) proof fn lemma_prefix_self(s: Seq<u8>)
    ensures
        is_prefix(s, s),
{
    assert(s.subrange(0, s.len() as int) =~= s);
}

pub(crate) proof fn lemma_prefix_add(s: Seq<u8>, e: Seq<u8>)
    ensures
        is_prefix(s, s + e),
{
    assert((s + e).subrange(0, s.len() as int) =~= s);
}

pub(crate) proof fn lemma_prefix_trans(a: Seq<u8>, b: Seq<u8>, c: Seq<u8>)
    requires
        is_prefix(a, b),
        is_prefix(b, c),
    ensures
        is_prefix(a, c),
{
    assert(c.subrange(0, a.len() as int) =~= a) by {
        assert forall|j: int| 0 <= j < a.len() implies c.subrange(0, a.len() as int)[j] == a[j] by {
            assert(c.subrange(0, b.len() as int)[j] == b[j]);
            assert(b.subrange(0, a.len() as int)[j] == a[j]);
        }
    }
}

/// A piece of a prefix is a piece of the whole.
pub(crate) proof fn lemma_piece_prefix(s: Seq<u8>, big: Seq<u8>, y: int, p: Seq<u8>)
    requires
        piece_at(s, y, p),
        is_prefix(s, big),
    ensures
        piece_at(big, y, p),
{
    assert(big.subrange(y, y + p.len()) =~= p) by {
        assert forall|j: int| 0 <= j < p.len() implies big.subrange(y, y + p.len())[j] == p[j] by {
            assert(big.subrange(0, s.len() as int)[y + j] == s[y + j]);
            assert(s.subrange(y, y + p.len())[j] == p[j]);
        }
    }
}

/// Two pieces side by side are one piece.
pub(crate) proof fn lemma_join(d: Seq<u8>, x: int, a: Seq<u8>, b: Seq<u8>)
    requires
        piece_at(d, x, a),
        piece_at(d, x + a.len(), b),
    ensures
        piece_at(d, x, a + b),
{
    assert(d.subrange(x, x + (a + b).len()) =~= a + b) by {
        assert forall|j: int| 0 <= j < (a + b).len() implies d.subrange(x, x + (a + b).len())[j] == (a + b)[j] by {
            if j < a.len() {
                assert(d.subrange(x, x + a.len())[j] == a[j]);
            } else {
                assert(d.subrange(x + a.len(), x + a.len() + b.len())[j - a.len()] == b[j - a.len()]);
            }
        }
    }
}

/// The parts laid end to end.
pub open spec fn flat(ps: Seq<Seq<u8>>) -> Seq<u8>
    decreases ps.len(),
{
    if ps.len() == 0 {
        seq![]
    } else {
        flat(ps.drop_last()) + ps.last()
    }
}

/// Where part k starts: the lengths of the parts before it.
pub open spec fn part_off(ps: Seq<Seq<u8>>, k: int) -> int
    decreases k,
{
    if k <= 0 {
        0
    } else {
        part_off(ps, k - 1) + ps[k - 1].len()
    }
}

/// Every part stands in `d` where the parts laid from byte x put it.
pub open spec fn laid(d: Seq<u8>, x: int, ps: Seq<Seq<u8>>) -> bool {
    forall|k: int| 0 <= k < ps.len() ==> piece_at(d, x + #[trigger] part_off(ps, k), ps[k])
}

pub(crate) proof fn lemma_flat_len(ps: Seq<Seq<u8>>, k: int)
    requires
        0 <= k <= ps.len(),
    ensures
        flat(ps.subrange(0, k)).len() == part_off(ps, k),
    decreases k,
{
    if k > 0 {
        lemma_flat_len(ps, k - 1);
        assert(ps.subrange(0, k).drop_last() =~= ps.subrange(0, k - 1));
    } else {
        assert(ps.subrange(0, 0) =~= Seq::<Seq<u8>>::empty());
    }
}

pub(crate) proof fn lemma_flat_piece(ps: Seq<Seq<u8>>, k: int)
    requires
        0 <= k < ps.len(),
    ensures
        piece_at(flat(ps), part_off(ps, k), ps[k]),
    decreases ps.len(),
{
    let init = ps.drop_last();
    if k == ps.len() - 1 {
        assert(init =~= ps.subrange(0, k));
        lemma_flat_len(ps, k);
        lemma_piece_last(flat(init), ps.last());
    } else {
        lemma_flat_piece(init, k);
        assert forall|j: int| 0 <= j <= k implies part_off(init, j) == part_off(ps, j) by {
            lemma_part_off_same(init, ps, j);
        }
        lemma_prefix_add(flat(init), ps.last());
        lemma_piece_prefix(flat(init), flat(ps), part_off(ps, k), ps[k]);
    }
}

pub(crate) proof fn lemma_part_off_same(a: Seq<Seq<u8>>, b: Seq<Seq<u8>>, j: int)
    requires
        0 <= j <= a.len(),
        j <= b.len(),
        forall|i: int| 0 <= i < a.len() && i < b.len() ==> a[i] == b[i],
    ensures
        part_off(a, j) == part_off(b, j),
    decreases j,
{
    if j > 0 {
        lemma_part_off_same(a, b, j - 1);
    }
}

/// Parts laid end to end from byte x of d are each where `part_off` says.
pub(crate) proof fn lemma_laid(d: Seq<u8>, x: int, ps: Seq<Seq<u8>>)
    requires
        piece_at(d, x, flat(ps)),
    ensures
        laid(d, x, ps),
{
    assert forall|k: int| 0 <= k < ps.len() implies piece_at(d, x + #[trigger] part_off(ps, k), ps[k]) by {
        lemma_flat_piece(ps, k);
        lemma_sub_piece(d, x, flat(ps), part_off(ps, k), ps[k]);
    }
}

pub(crate) proof fn lemma_part_off_mono(ps: Seq<Seq<u8>>, a: int, b: int)
    requires
        0 <= a <= b,
    ensures
        part_off(ps, a) <= part_off(ps, b),
    decreases b - a,
{
    if a < b {
        lemma_part_off_mono(ps, a, b - 1);
    }
}

/// A tensor object's parts: fixed text and the values between.
pub open spec fn obj_parts(t: CubTensorSpec) -> Seq<Seq<u8>> {
    seq![tp0(), nm(t), tp1(), dec(t.rows as nat), tp2(), dec(t.cols as nat), tp3(), idec(t.rmin as int), tp4(), idec(t.rmax as int), tp5(), dec(((t.rmax - t.rmin + 1) as usize) as nat), tp6(), dec(t.tiles as nat), tp7(), dec((t.index_start + 1) as nat), tp8(), dec((t.body_start + 1) as nat), tp9(), dec(t.body_bytes as nat), tp10()]
}
/// The core and label objects' parts.
pub open spec fn label_parts(m: Seq<u8>, seal: Seq<u8>, n: nat, hl: int, fl: int) -> Seq<Seq<u8>> {
    seq![lp0(), dec((hl + 1) as nat), lp1(), dec(128), lp2(), m, lp3(), seal, lp4(), dec(n), lp5(), dec(fl as nat), lp6()]
}
#[verifier::spinoff_prover]
#[verifier::rlimit(100)]
pub(crate) proof fn lemma_obj_flat(t: CubTensorSpec)
    ensures
        tensor_onto(seq![], t) == flat(obj_parts(t)),
{
    reveal(tensor_onto);
    let ps = obj_parts(t);
    assert(ps.subrange(0, 0) =~= Seq::<Seq<u8>>::empty());
    assert(ps.subrange(0, 1).drop_last() =~= ps.subrange(0, 0));
    assert(flat(ps.subrange(0, 1)) == flat(ps.subrange(0, 0)) + ps[0]);
    assert(ps.subrange(0, 2).drop_last() =~= ps.subrange(0, 1));
    assert(flat(ps.subrange(0, 2)) == flat(ps.subrange(0, 1)) + ps[1]);
    assert(ps.subrange(0, 3).drop_last() =~= ps.subrange(0, 2));
    assert(flat(ps.subrange(0, 3)) == flat(ps.subrange(0, 2)) + ps[2]);
    assert(ps.subrange(0, 4).drop_last() =~= ps.subrange(0, 3));
    assert(flat(ps.subrange(0, 4)) == flat(ps.subrange(0, 3)) + ps[3]);
    assert(ps.subrange(0, 5).drop_last() =~= ps.subrange(0, 4));
    assert(flat(ps.subrange(0, 5)) == flat(ps.subrange(0, 4)) + ps[4]);
    assert(ps.subrange(0, 6).drop_last() =~= ps.subrange(0, 5));
    assert(flat(ps.subrange(0, 6)) == flat(ps.subrange(0, 5)) + ps[5]);
    assert(ps.subrange(0, 7).drop_last() =~= ps.subrange(0, 6));
    assert(flat(ps.subrange(0, 7)) == flat(ps.subrange(0, 6)) + ps[6]);
    assert(ps.subrange(0, 8).drop_last() =~= ps.subrange(0, 7));
    assert(flat(ps.subrange(0, 8)) == flat(ps.subrange(0, 7)) + ps[7]);
    assert(ps.subrange(0, 9).drop_last() =~= ps.subrange(0, 8));
    assert(flat(ps.subrange(0, 9)) == flat(ps.subrange(0, 8)) + ps[8]);
    assert(ps.subrange(0, 10).drop_last() =~= ps.subrange(0, 9));
    assert(flat(ps.subrange(0, 10)) == flat(ps.subrange(0, 9)) + ps[9]);
    assert(ps.subrange(0, 11).drop_last() =~= ps.subrange(0, 10));
    assert(flat(ps.subrange(0, 11)) == flat(ps.subrange(0, 10)) + ps[10]);
    assert(ps.subrange(0, 12).drop_last() =~= ps.subrange(0, 11));
    assert(flat(ps.subrange(0, 12)) == flat(ps.subrange(0, 11)) + ps[11]);
    assert(ps.subrange(0, 13).drop_last() =~= ps.subrange(0, 12));
    assert(flat(ps.subrange(0, 13)) == flat(ps.subrange(0, 12)) + ps[12]);
    assert(ps.subrange(0, 14).drop_last() =~= ps.subrange(0, 13));
    assert(flat(ps.subrange(0, 14)) == flat(ps.subrange(0, 13)) + ps[13]);
    assert(ps.subrange(0, 15).drop_last() =~= ps.subrange(0, 14));
    assert(flat(ps.subrange(0, 15)) == flat(ps.subrange(0, 14)) + ps[14]);
    assert(ps.subrange(0, 16).drop_last() =~= ps.subrange(0, 15));
    assert(flat(ps.subrange(0, 16)) == flat(ps.subrange(0, 15)) + ps[15]);
    assert(ps.subrange(0, 17).drop_last() =~= ps.subrange(0, 16));
    assert(flat(ps.subrange(0, 17)) == flat(ps.subrange(0, 16)) + ps[16]);
    assert(ps.subrange(0, 18).drop_last() =~= ps.subrange(0, 17));
    assert(flat(ps.subrange(0, 18)) == flat(ps.subrange(0, 17)) + ps[17]);
    assert(ps.subrange(0, 19).drop_last() =~= ps.subrange(0, 18));
    assert(flat(ps.subrange(0, 19)) == flat(ps.subrange(0, 18)) + ps[18]);
    assert(ps.subrange(0, 20).drop_last() =~= ps.subrange(0, 19));
    assert(flat(ps.subrange(0, 20)) == flat(ps.subrange(0, 19)) + ps[19]);
    assert(ps.subrange(0, 21).drop_last() =~= ps.subrange(0, 20));
    assert(flat(ps.subrange(0, 21)) == flat(ps.subrange(0, 20)) + ps[20]);
    assert(ps.subrange(0, 21) =~= ps);
    let c0 = Seq::<u8>::empty() + "  Object = Tensor\n".spec_bytes();
    lemma_lit_0();
    lemma_lit_1();
    let c1 = c0 + "    Name       = \"".spec_bytes();
    lemma_add_assoc(flat(ps.subrange(0, 0)), "  Object = Tensor\n".spec_bytes(), "    Name       = \"".spec_bytes());
    assert(Seq::<u8>::empty() =~= flat(ps.subrange(0, 0)));
    assert("  Object = Tensor\n".spec_bytes() + "    Name       = \"".spec_bytes() =~= tp0());
    assert(c1 == flat(ps.subrange(0, 1)));
    let c2 = c1 + nm(t);
    assert(c2 == flat(ps.subrange(0, 2)));
    lemma_lit_2();
    lemma_lit_3();
    let c3 = c2 + "\"\n".spec_bytes();
    let c4 = c3 + "    Lines      = ".spec_bytes();
    lemma_add_assoc(flat(ps.subrange(0, 2)), "\"\n".spec_bytes(), "    Lines      = ".spec_bytes());
    assert("\"\n".spec_bytes() + "    Lines      = ".spec_bytes() =~= tp1());
    assert(c4 == flat(ps.subrange(0, 3)));
    let c5 = c4 + dec(t.rows as nat);
    assert(c5 == flat(ps.subrange(0, 4)));
    lemma_lit_4();
    let c6 = c5 + "\n    Samples    = ".spec_bytes();
    assert(c6 == flat(ps.subrange(0, 5)));
    let c7 = c6 + dec(t.cols as nat);
    assert(c7 == flat(ps.subrange(0, 6)));
    lemma_lit_5();
    lemma_lit_6();
    let c8 = c7 + "\n".spec_bytes();
    let c9 = c8 + "    RungMin    = ".spec_bytes();
    lemma_add_assoc(flat(ps.subrange(0, 6)), "\n".spec_bytes(), "    RungMin    = ".spec_bytes());
    assert("\n".spec_bytes() + "    RungMin    = ".spec_bytes() =~= tp3());
    assert(c9 == flat(ps.subrange(0, 7)));
    let c10 = c9 + idec(t.rmin as int);
    assert(c10 == flat(ps.subrange(0, 8)));
    lemma_lit_7();
    let c11 = c10 + "\n    RungMax    = ".spec_bytes();
    assert(c11 == flat(ps.subrange(0, 9)));
    let c12 = c11 + idec(t.rmax as int);
    assert(c12 == flat(ps.subrange(0, 10)));
    lemma_lit_8();
    let c13 = c12 + "\n    Bands      = ".spec_bytes();
    assert(c13 == flat(ps.subrange(0, 11)));
    let c14 = c13 + dec(((t.rmax - t.rmin + 1) as usize) as nat);
    assert(c14 == flat(ps.subrange(0, 12)));
    lemma_lit_5();
    lemma_lit_9();
    let c15 = c14 + "\n".spec_bytes();
    let c16 = c15 + "    Tiles      = ".spec_bytes();
    lemma_add_assoc(flat(ps.subrange(0, 12)), "\n".spec_bytes(), "    Tiles      = ".spec_bytes());
    assert("\n".spec_bytes() + "    Tiles      = ".spec_bytes() =~= tp6());
    assert(c16 == flat(ps.subrange(0, 13)));
    let c17 = c16 + dec(t.tiles as nat);
    assert(c17 == flat(ps.subrange(0, 14)));
    lemma_lit_10();
    let c18 = c17 + "\n    IndexByte  = ".spec_bytes();
    assert(c18 == flat(ps.subrange(0, 15)));
    let c19 = c18 + dec((t.index_start + 1) as nat);
    assert(c19 == flat(ps.subrange(0, 16)));
    lemma_lit_11();
    let c20 = c19 + "\n    BodyByte   = ".spec_bytes();
    assert(c20 == flat(ps.subrange(0, 17)));
    let c21 = c20 + dec((t.body_start + 1) as nat);
    assert(c21 == flat(ps.subrange(0, 18)));
    lemma_lit_12();
    let c22 = c21 + "\n    BodyBytes  = ".spec_bytes();
    assert(c22 == flat(ps.subrange(0, 19)));
    let c23 = c22 + dec(t.body_bytes as nat);
    assert(c23 == flat(ps.subrange(0, 20)));
    lemma_lit_5();
    lemma_lit_13();
    let c24 = c23 + "\n".spec_bytes();
    let c25 = c24 + "  End_Object\n".spec_bytes();
    lemma_add_assoc(flat(ps.subrange(0, 20)), "\n".spec_bytes(), "  End_Object\n".spec_bytes());
    assert("\n".spec_bytes() + "  End_Object\n".spec_bytes() =~= tp10());
    assert(c25 == flat(ps.subrange(0, 21)));
    assert(tensor_onto(seq![], t) == c25);
}
#[verifier::spinoff_prover]
#[verifier::rlimit(100)]
pub(crate) proof fn lemma_label_flat(m: Seq<u8>, seal: Seq<u8>, n: nat, hl: int, fl: int)
    ensures
        label_onto(seq![], m, seal, n, hl, fl) == flat(label_parts(m, seal, n, hl, fl)),
{
    reveal(label_onto);
    let ps = label_parts(m, seal, n, hl, fl);
    assert(ps.subrange(0, 0) =~= Seq::<Seq<u8>>::empty());
    assert(ps.subrange(0, 1).drop_last() =~= ps.subrange(0, 0));
    assert(flat(ps.subrange(0, 1)) == flat(ps.subrange(0, 0)) + ps[0]);
    assert(ps.subrange(0, 2).drop_last() =~= ps.subrange(0, 1));
    assert(flat(ps.subrange(0, 2)) == flat(ps.subrange(0, 1)) + ps[1]);
    assert(ps.subrange(0, 3).drop_last() =~= ps.subrange(0, 2));
    assert(flat(ps.subrange(0, 3)) == flat(ps.subrange(0, 2)) + ps[2]);
    assert(ps.subrange(0, 4).drop_last() =~= ps.subrange(0, 3));
    assert(flat(ps.subrange(0, 4)) == flat(ps.subrange(0, 3)) + ps[3]);
    assert(ps.subrange(0, 5).drop_last() =~= ps.subrange(0, 4));
    assert(flat(ps.subrange(0, 5)) == flat(ps.subrange(0, 4)) + ps[4]);
    assert(ps.subrange(0, 6).drop_last() =~= ps.subrange(0, 5));
    assert(flat(ps.subrange(0, 6)) == flat(ps.subrange(0, 5)) + ps[5]);
    assert(ps.subrange(0, 7).drop_last() =~= ps.subrange(0, 6));
    assert(flat(ps.subrange(0, 7)) == flat(ps.subrange(0, 6)) + ps[6]);
    assert(ps.subrange(0, 8).drop_last() =~= ps.subrange(0, 7));
    assert(flat(ps.subrange(0, 8)) == flat(ps.subrange(0, 7)) + ps[7]);
    assert(ps.subrange(0, 9).drop_last() =~= ps.subrange(0, 8));
    assert(flat(ps.subrange(0, 9)) == flat(ps.subrange(0, 8)) + ps[8]);
    assert(ps.subrange(0, 10).drop_last() =~= ps.subrange(0, 9));
    assert(flat(ps.subrange(0, 10)) == flat(ps.subrange(0, 9)) + ps[9]);
    assert(ps.subrange(0, 11).drop_last() =~= ps.subrange(0, 10));
    assert(flat(ps.subrange(0, 11)) == flat(ps.subrange(0, 10)) + ps[10]);
    assert(ps.subrange(0, 12).drop_last() =~= ps.subrange(0, 11));
    assert(flat(ps.subrange(0, 12)) == flat(ps.subrange(0, 11)) + ps[11]);
    assert(ps.subrange(0, 13).drop_last() =~= ps.subrange(0, 12));
    assert(flat(ps.subrange(0, 13)) == flat(ps.subrange(0, 12)) + ps[12]);
    assert(ps.subrange(0, 13) =~= ps);
    let c0 = Seq::<u8>::empty() + "Object = IsisCube\n".spec_bytes();
    lemma_lit_14();
    lemma_lit_15();
    lemma_lit_16();
    lemma_lit_17();
    let c1 = c0 + "  /* Atlas Engine fold cube: the third surface, banded by rung. Lineage: V5 master.cub. */\n".spec_bytes();
    lemma_add_assoc(flat(ps.subrange(0, 0)), "Object = IsisCube\n".spec_bytes(), "  /* Atlas Engine fold cube: the third surface, banded by rung. Lineage: V5 master.cub. */\n".spec_bytes());
    let c2 = c1 + "  Object = Core\n".spec_bytes();
    lemma_add_assoc(flat(ps.subrange(0, 0)), "Object = IsisCube\n".spec_bytes() + "  /* Atlas Engine fold cube: the third surface, banded by rung. Lineage: V5 master.cub. */\n".spec_bytes(), "  Object = Core\n".spec_bytes());
    let c3 = c2 + "    StartByte   = ".spec_bytes();
    lemma_add_assoc(flat(ps.subrange(0, 0)), "Object = IsisCube\n".spec_bytes() + "  /* Atlas Engine fold cube: the third surface, banded by rung. Lineage: V5 master.cub. */\n".spec_bytes() + "  Object = Core\n".spec_bytes(), "    StartByte   = ".spec_bytes());
    assert(Seq::<u8>::empty() =~= flat(ps.subrange(0, 0)));
    assert("Object = IsisCube\n".spec_bytes() + "  /* Atlas Engine fold cube: the third surface, banded by rung. Lineage: V5 master.cub. */\n".spec_bytes() + "  Object = Core\n".spec_bytes() + "    StartByte   = ".spec_bytes() =~= lp0());
    assert(c3 == flat(ps.subrange(0, 1)));
    let c4 = c3 + dec((hl + 1) as nat);
    assert(c4 == flat(ps.subrange(0, 2)));
    lemma_lit_5();
    lemma_lit_18();
    lemma_lit_19();
    let c5 = c4 + "\n".spec_bytes();
    let c6 = c5 + "    Format      = RungBanded\n".spec_bytes();
    lemma_add_assoc(flat(ps.subrange(0, 2)), "\n".spec_bytes(), "    Format      = RungBanded\n".spec_bytes());
    let c7 = c6 + "    LineTile    = ".spec_bytes();
    lemma_add_assoc(flat(ps.subrange(0, 2)), "\n".spec_bytes() + "    Format      = RungBanded\n".spec_bytes(), "    LineTile    = ".spec_bytes());
    assert("\n".spec_bytes() + "    Format      = RungBanded\n".spec_bytes() + "    LineTile    = ".spec_bytes() =~= lp1());
    assert(c7 == flat(ps.subrange(0, 3)));
    let c8 = c7 + dec(128);
    assert(c8 == flat(ps.subrange(0, 4)));
    lemma_lit_5();
    lemma_lit_20();
    lemma_lit_13();
    lemma_lit_21();
    lemma_lit_22();
    let c9 = c8 + "\n".spec_bytes();
    let c10 = c9 + "    Group = Pixels\n      Type = UnsignedWord\n      ByteOrder = Lsb\n      Meaning = \"column index; lane byte = sign*128 + (odd-1)/2; band = rmax - rung\"\n    End_Group\n".spec_bytes();
    lemma_add_assoc(flat(ps.subrange(0, 4)), "\n".spec_bytes(), "    Group = Pixels\n      Type = UnsignedWord\n      ByteOrder = Lsb\n      Meaning = \"column index; lane byte = sign*128 + (odd-1)/2; band = rmax - rung\"\n    End_Group\n".spec_bytes());
    let c11 = c10 + "  End_Object\n".spec_bytes();
    lemma_add_assoc(flat(ps.subrange(0, 4)), "\n".spec_bytes() + "    Group = Pixels\n      Type = UnsignedWord\n      ByteOrder = Lsb\n      Meaning = \"column index; lane byte = sign*128 + (odd-1)/2; band = rmax - rung\"\n    End_Group\n".spec_bytes(), "  End_Object\n".spec_bytes());
    let c12 = c11 + "  Object = Label\n".spec_bytes();
    lemma_add_assoc(flat(ps.subrange(0, 4)), "\n".spec_bytes() + "    Group = Pixels\n      Type = UnsignedWord\n      ByteOrder = Lsb\n      Meaning = \"column index; lane byte = sign*128 + (odd-1)/2; band = rmax - rung\"\n    End_Group\n".spec_bytes() + "  End_Object\n".spec_bytes(), "  Object = Label\n".spec_bytes());
    let c13 = c12 + "    Model       = \"".spec_bytes();
    lemma_add_assoc(flat(ps.subrange(0, 4)), "\n".spec_bytes() + "    Group = Pixels\n      Type = UnsignedWord\n      ByteOrder = Lsb\n      Meaning = \"column index; lane byte = sign*128 + (odd-1)/2; band = rmax - rung\"\n    End_Group\n".spec_bytes() + "  End_Object\n".spec_bytes() + "  Object = Label\n".spec_bytes(), "    Model       = \"".spec_bytes());
    assert("\n".spec_bytes() + "    Group = Pixels\n      Type = UnsignedWord\n      ByteOrder = Lsb\n      Meaning = \"column index; lane byte = sign*128 + (odd-1)/2; band = rmax - rung\"\n    End_Group\n".spec_bytes() + "  End_Object\n".spec_bytes() + "  Object = Label\n".spec_bytes() + "    Model       = \"".spec_bytes() =~= lp2());
    assert(c13 == flat(ps.subrange(0, 5)));
    let c14 = c13 + m;
    assert(c14 == flat(ps.subrange(0, 6)));
    lemma_lit_2();
    lemma_lit_23();
    let c15 = c14 + "\"\n".spec_bytes();
    let c16 = c15 + "    IntakeSeal  = ".spec_bytes();
    lemma_add_assoc(flat(ps.subrange(0, 6)), "\"\n".spec_bytes(), "    IntakeSeal  = ".spec_bytes());
    assert("\"\n".spec_bytes() + "    IntakeSeal  = ".spec_bytes() =~= lp3());
    assert(c16 == flat(ps.subrange(0, 7)));
    let c17 = c16 + seal;
    assert(c17 == flat(ps.subrange(0, 8)));
    lemma_lit_5();
    lemma_lit_24();
    lemma_lit_25();
    let c18 = c17 + "\n".spec_bytes();
    let c19 = c18 + "    Floor       = \"activations below 2^-90 dropped with sticky; above it every term exact\"\n".spec_bytes();
    lemma_add_assoc(flat(ps.subrange(0, 8)), "\n".spec_bytes(), "    Floor       = \"activations below 2^-90 dropped with sticky; above it every term exact\"\n".spec_bytes());
    let c20 = c19 + "    Tensors     = ".spec_bytes();
    lemma_add_assoc(flat(ps.subrange(0, 8)), "\n".spec_bytes() + "    Floor       = \"activations below 2^-90 dropped with sticky; above it every term exact\"\n".spec_bytes(), "    Tensors     = ".spec_bytes());
    assert("\n".spec_bytes() + "    Floor       = \"activations below 2^-90 dropped with sticky; above it every term exact\"\n".spec_bytes() + "    Tensors     = ".spec_bytes() =~= lp4());
    assert(c20 == flat(ps.subrange(0, 9)));
    let c21 = c20 + dec(n);
    assert(c21 == flat(ps.subrange(0, 10)));
    lemma_lit_5();
    lemma_lit_26();
    let c22 = c21 + "\n".spec_bytes();
    let c23 = c22 + "    FileBytes   = ".spec_bytes();
    lemma_add_assoc(flat(ps.subrange(0, 10)), "\n".spec_bytes(), "    FileBytes   = ".spec_bytes());
    assert("\n".spec_bytes() + "    FileBytes   = ".spec_bytes() =~= lp5());
    assert(c23 == flat(ps.subrange(0, 11)));
    let c24 = c23 + dec(fl as nat);
    assert(c24 == flat(ps.subrange(0, 12)));
    lemma_lit_5();
    lemma_lit_13();
    let c25 = c24 + "\n".spec_bytes();
    let c26 = c25 + "  End_Object\n".spec_bytes();
    lemma_add_assoc(flat(ps.subrange(0, 12)), "\n".spec_bytes(), "  End_Object\n".spec_bytes());
    assert("\n".spec_bytes() + "  End_Object\n".spec_bytes() =~= lp6());
    assert(c26 == flat(ps.subrange(0, 13)));
    assert(label_onto(seq![], m, seal, n, hl, fl) == c26);
}
// ── numbers and names in the text ────────────────────────────────────────────

pub(crate) proof fn lemma_dec_digits(n: nat)
    ensures
        dec(n).len() >= 1,
        forall|i: int| 0 <= i < dec(n).len() ==> 48 <= #[trigger] dec(n)[i] <= 57,
    decreases n,
{
    if n >= 10 {
        lemma_dec_digits(n / 10);
        assert forall|i: int| 0 <= i < dec(n).len() implies 48 <= #[trigger] dec(n)[i] <= 57 by {
            if i < dec(n).len() - 1 {
                assert(dec(n)[i] == dec(n / 10)[i]);
            }
        }
    }
}

/// A value's bytes: digits, or a leading minus.
pub open spec fn value_bytes(v: Seq<u8>) -> bool {
    &&& v.len() >= 1
    &&& forall|i: int| 0 <= i < v.len() ==> (48 <= #[trigger] v[i] <= 57 || (i == 0 && v[i] == 45))
    &&& 48 <= v[v.len() - 1] <= 57
}

pub(crate) proof fn lemma_dec_value_bytes(n: nat)
    ensures
        value_bytes(dec(n)),
{
    lemma_dec_digits(n);
}

pub(crate) proof fn lemma_idec_value_bytes(v: int)
    ensures
        value_bytes(idec(v)),
{
    if v < 0 {
        lemma_dec_digits((-v) as nat);
        let s = idec(v);
        assert forall|i: int| 0 <= i < s.len() implies (48 <= #[trigger] s[i] <= 57 || (i == 0 && s[i] == 45)) by {
            if i > 0 {
                assert(s[i] == dec((-v) as nat)[i - 1]);
            }
        }
        assert(s[s.len() - 1] == dec((-v) as nat)[dec((-v) as nat).len() - 1]);
    } else {
        lemma_dec_digits(v as nat);
    }
}

/// The digits of n, standing at y, read back as n.
pub(crate) proof fn lemma_dec_read(d: Seq<u8>, y: int, n: nat)
    requires
        piece_at(d, y, dec(n)),
    ensures
        all_digits(d, y, y + dec(n).len()),
        digits_val(d, y, y + dec(n).len()) == n,
    decreases n,
{
    lemma_dec_digits(n);
    lemma_piece_bytes(d, y, dec(n));
    if n >= 10 {
        let s = dec(n / 10);
        assert(dec(n).subrange(0, s.len() as int) =~= s);
        lemma_sub_piece(d, y, dec(n), 0, s);
        lemma_dec_read(d, y, n / 10);
        assert(d[y + s.len()] == dec(n)[s.len() as int]);
        assert(dec(n)[s.len() as int] == 48 + n % 10);
        assert(digits_val(d, y, y + dec(n).len()) == digits_val(d, y, y + s.len()) * 10 + (d[y + s.len()] - 48));
        vstd::arithmetic::div_mod::lemma_fundamental_div_mod(n as int, 10);
    } else {
        assert(d[y] == dec(n)[0]);
        assert(digits_val(d, y, y) == 0);
        assert(digits_val(d, y, y + 1) == digits_val(d, y, y) * 10 + (d[y] - 48));
    }
}

pub(crate) proof fn lemma_parse_dec(d: Seq<u8>, y: int, n: nat)
    requires
        piece_at(d, y, dec(n)),
        n <= usize::MAX,
    ensures
        parse_uint(d, y, y + dec(n).len()) == Some(n as usize),
{
    lemma_dec_read(d, y, n);
    lemma_dec_digits(n);
    lemma_piece_bytes(d, y, dec(n));
    assert(d[y] == dec(n)[0]);
}

pub(crate) proof fn lemma_parse_idec(d: Seq<u8>, y: int, v: i32)
    requires
        piece_at(d, y, idec(v as int)),
    ensures
        parse_i32(d, y, y + idec(v as int).len()) == Some(v),
{
    lemma_piece_bytes(d, y, idec(v as int));
    if v < 0 {
        let s = dec((-v) as nat);
        assert(idec(v as int).subrange(1, idec(v as int).len() as int) =~= s);
        lemma_sub_piece(d, y, idec(v as int), 1, s);
        lemma_dec_read(d, y + 1, (-v) as nat);
        lemma_dec_digits((-v) as nat);
        assert(d[y] == 45);
    } else {
        lemma_dec_read(d, y, v as nat);
        lemma_dec_digits(v as nat);
        assert(d[y] == dec(v as nat)[0]);
    }
}

/// No pattern that starts with a letter starts inside a value.
pub(crate) proof fn lemma_no_hit_value(d: Seq<u8>, pat: Seq<u8>, y: int, v: Seq<u8>)
    requires
        piece_at(d, y, v),
        value_bytes(v),
        pat.len() >= 1,
        !(45 <= pat[0] <= 57),
    ensures
        no_hit(d, pat, y, y + v.len()),
{
    lemma_piece_bytes(d, y, v);
    assert forall|q: int| y <= q < y + v.len() implies #[trigger] d[q] != pat[0] by {
        assert(d[q] == v[q - y]);
    }
    lemma_no_hit_first(d, pat, y, y + v.len());
}

/// A byte that `s` never holds keeps out every pattern that holds it.
pub(crate) proof fn lemma_free_by_byte(s: Seq<u8>, pat: Seq<u8>, j: int)
    requires
        0 <= j < pat.len(),
        forall|i: int| 0 <= i < s.len() ==> #[trigger] s[i] != pat[j],
    ensures
        free_of(s, pat),
{
    assert forall|q: int| !#[trigger] matches_at(s, pat, q) by {
        if matches_at(s, pat, q) {
            lemma_match_head(s, pat, q);
            assert(s[q + j] == pat[j]);
        }
    }
}

// ── reading one value ────────────────────────────────────────────────────────

/// A `key = value` line whose value is digits (or a minus and digits) reads as those bytes.
pub(crate) proof fn lemma_pvl_num(d: Seq<u8>, key: Seq<u8>, base: int, p: int, eqp: int, v: Seq<u8>)
    requires
        find_from(d, key, base) == Some(p),
        find_from(d, pat_eq(), p) == Some(eqp),
        0 <= eqp,
        d[eqp + 1] == 32,
        piece_at(d, eqp + 2, v),
        value_bytes(v),
        eqp + 2 + v.len() < d.len(),
        d[eqp + 2 + v.len()] == 10,
    ensures
        pvl_val(d, key, base) == Some((eqp + 2, eqp + 2 + v.len(), eqp + 2 + v.len())),
{
    lemma_lit_39();
    lemma_lit_5();
    let y = eqp + 2;
    let e = y + v.len();
    lemma_piece_bytes(d, y, v);
    assert forall|q: int| eqp + 1 <= q < e implies #[trigger] d[q] != pat_nl()[0] by {
        if q > eqp + 1 {
            assert(d[q] == v[q - y]);
        }
    }
    lemma_no_hit_first(d, pat_nl(), eqp + 1, e);
    assert(d.subrange(e, e + 1) =~= pat_nl());
    lemma_find_first(d, pat_nl(), eqp + 1, e);
    assert(ws_len(d, eqp + 1) == 1);
    assert(d[y] == v[0]);
    assert(ws_len(d, y) == 0);
    assert(skip_ws_in(d, y, e) == y);
    assert(skip_ws_in(d, eqp + 1, e) == y);
    assert(d[e - 1] == v[v.len() - 1]);
    assert(ws_back(d, y, e) == 0);
    assert(trim_back(d, y, e) == e);
    assert(quote_front(d, y, e) == y);
    assert(quote_back(d, y, e) == e);
}

/// A `key = "name"` line reads as the name's bytes.
pub(crate) proof fn lemma_pvl_name(d: Seq<u8>, key: Seq<u8>, base: int, p: int, eqp: int, v: Seq<u8>)
    requires
        find_from(d, key, base) == Some(p),
        find_from(d, pat_eq(), p) == Some(eqp),
        0 <= eqp,
        d[eqp + 1] == 32,
        d[eqp + 2] == 34,
        piece_at(d, eqp + 3, v),
        forall|i: int| 0 <= i < v.len() ==> #[trigger] v[i] != 10 && v[i] != 34,
        eqp + 4 + v.len() < d.len(),
        d[eqp + 3 + v.len()] == 34,
        d[eqp + 4 + v.len()] == 10,
    ensures
        pvl_val(d, key, base) matches Some((a, b, e)) && d.subrange(a, b) == v && e == eqp + 4 + v.len(),
{
    lemma_lit_39();
    lemma_lit_5();
    let y = eqp + 3;
    let e = y + v.len() + 1;
    lemma_piece_bytes(d, y, v);
    assert forall|q: int| eqp + 1 <= q < e implies #[trigger] d[q] != pat_nl()[0] by {
        if y <= q < y + v.len() {
            assert(d[q] == v[q - y]);
        }
    }
    lemma_no_hit_first(d, pat_nl(), eqp + 1, e);
    assert(d.subrange(e, e + 1) =~= pat_nl());
    lemma_find_first(d, pat_nl(), eqp + 1, e);
    assert(ws_len(d, eqp + 1) == 1);
    assert(ws_len(d, eqp + 2) == 0);
    assert(skip_ws_in(d, eqp + 2, e) == eqp + 2);
    assert(skip_ws_in(d, eqp + 1, e) == eqp + 2);
    assert(ws_back(d, eqp + 2, e) == 0);
    assert(trim_back(d, eqp + 2, e) == e);
    if v.len() > 0 {
        assert(d[y] == v[0]);
        assert(quote_front(d, y, e) == y);
        assert(quote_front(d, eqp + 2, e) == y);
        assert(d[e - 2] == v[v.len() - 1]);
        assert(quote_back(d, y, e - 1) == e - 1);
        assert(quote_back(d, y, e) == e - 1);
        assert(d.subrange(y, e - 1) =~= v);
    } else {
        assert(quote_front(d, e, e) == e);
        assert(quote_front(d, y, e) == e);
        assert(quote_front(d, eqp + 2, e) == e);
        assert(quote_back(d, e, e) == e);
        assert(d.subrange(e, e) =~= v);
    }
}

// ── reading one tensor object ────────────────────────────────────────────────

/// A tensor name the header can carry: no line break or double quote, and no key of a later
/// line inside it.
pub open spec fn name_clean(t: CubTensorSpec) -> bool {
    &&& forall|i: int| 0 <= i < nm(t).len() ==> #[trigger] nm(t)[i] != 10 && nm(t)[i] != 34
    &&& free_of(nm(t), pat_lines())
    &&& free_of(nm(t), pat_samples())
    &&& free_of(nm(t), pat_rmin())
    &&& free_of(nm(t), pat_rmax())
    &&& free_of(nm(t), pat_tiles())
    &&& free_of(nm(t), pat_ib())
    &&& free_of(nm(t), pat_bb())
    &&& free_of(nm(t), pat_bbs())
}

/// A tensor's name bytes as the header writes them.
pub open spec fn nm(t: CubTensorSpec) -> Seq<u8> {
    encode_utf8(t.name@)
}

#[verifier::spinoff_prover]
#[verifier::rlimit(100)]
pub(crate) proof fn lemma_read_name(d: Seq<u8>, x: int, t: CubTensorSpec)
    requires
        laid(d, x, obj_parts(t)),
        x + flat(obj_parts(t)).len() < d.len(),
        name_clean(t),
        printable(t),
    ensures
        pvl_val(d, "Name".spec_bytes(), x + 2) matches Some((a, b, e)) && d.subrange(a, b) == nm(t) && e == x + part_off(obj_parts(t), 2) + 1,
{
    lemma_lit_28();
    assert(obj_parts(t)[0] == tp0());
    assert(part_off(obj_parts(t), 1) == part_off(obj_parts(t), 0) + obj_parts(t)[0].len());
    assert(piece_at(d, x + part_off(obj_parts(t), 0), obj_parts(t)[0]));
    assert(obj_parts(t)[1] == vstd::utf8::encode_utf8(t.name@));
    assert(part_off(obj_parts(t), 2) == part_off(obj_parts(t), 1) + obj_parts(t)[1].len());
    assert(piece_at(d, x + part_off(obj_parts(t), 1), obj_parts(t)[1]));
    assert(obj_parts(t)[2] == tp1());
    assert(part_off(obj_parts(t), 3) == part_off(obj_parts(t), 2) + obj_parts(t)[2].len());
    assert(piece_at(d, x + part_off(obj_parts(t), 2), obj_parts(t)[2]));
    assert(part_off(obj_parts(t), 0) == 0);
    lemma_tp0_pat_name(d, x + part_off(obj_parts(t), 0));
    lemma_tp0_pat_eq(d, x + part_off(obj_parts(t), 0));
    lemma_piece_bytes(d, x + part_off(obj_parts(t), 0), tp0());
    lemma_piece_bytes(d, x + part_off(obj_parts(t), 2), tp1());
    assert(no_hit(d, pat_name(), x + 2, x + part_off(obj_parts(t), 0) + 22));
    lemma_find_first(d, pat_name(), x + 2, x + part_off(obj_parts(t), 0) + 22);
    assert(no_hit(d, pat_eq(), x + part_off(obj_parts(t), 0) + 22, x + part_off(obj_parts(t), 0) + 33));
    lemma_find_first(d, pat_eq(), x + part_off(obj_parts(t), 0) + 22, x + part_off(obj_parts(t), 0) + 33);
    lemma_pvl_name(d, pat_name(), x + 2, x + part_off(obj_parts(t), 0) + 22, x + part_off(obj_parts(t), 0) + 33, nm(t));
}

#[verifier::spinoff_prover]
pub(crate) proof fn lemma_lines_upto_0(d: Seq<u8>, x: int, t: CubTensorSpec)
    requires
        laid(d, x, obj_parts(t)),
        x + flat(obj_parts(t)).len() < d.len(),
        name_clean(t),
        printable(t),
    ensures
        no_hit(d, pat_lines(), x + 2, x + part_off(obj_parts(t), 1)),
{
    assert(obj_parts(t)[0] == tp0());
    assert(part_off(obj_parts(t), 1) == part_off(obj_parts(t), 0) + obj_parts(t)[0].len());
    assert(piece_at(d, x + part_off(obj_parts(t), 0), obj_parts(t)[0]));
    lemma_tp0_pat_lines(d, x + part_off(obj_parts(t), 0));
    assert(part_off(obj_parts(t), 0) == 0);
}

#[verifier::spinoff_prover]
pub(crate) proof fn lemma_lines_upto_1(d: Seq<u8>, x: int, t: CubTensorSpec)
    requires
        laid(d, x, obj_parts(t)),
        x + flat(obj_parts(t)).len() < d.len(),
        name_clean(t),
        printable(t),
    ensures
        no_hit(d, pat_lines(), x + 2, x + part_off(obj_parts(t), 2)),
{
    assert(obj_parts(t)[1] == vstd::utf8::encode_utf8(t.name@));
    assert(part_off(obj_parts(t), 2) == part_off(obj_parts(t), 1) + obj_parts(t)[1].len());
    assert(piece_at(d, x + part_off(obj_parts(t), 1), obj_parts(t)[1]));
    lemma_lines_upto_0(d, x, t);
    lemma_piece_bytes(d, x + part_off(obj_parts(t), 2), tp1());
    assert(obj_parts(t)[2] == tp1());
    assert(part_off(obj_parts(t), 2) == part_off(obj_parts(t), 1) + nm(t).len());
    assert(piece_at(d, x + part_off(obj_parts(t), 2), obj_parts(t)[2]));
    assert forall|i: int| 0 <= i < pat_lines().len() implies pat_lines()[i] != d[x + part_off(obj_parts(t), 1) + nm(t).len()] by {
        assert(d[x + part_off(obj_parts(t), 2)] == tp1()[0]);
    }
    lemma_no_hit_free(d, pat_lines(), x + part_off(obj_parts(t), 1), nm(t));
}

#[verifier::spinoff_prover]
#[verifier::rlimit(100)]
pub(crate) proof fn lemma_read_lines(d: Seq<u8>, x: int, t: CubTensorSpec)
    requires
        laid(d, x, obj_parts(t)),
        x + flat(obj_parts(t)).len() < d.len(),
        name_clean(t),
        printable(t),
    ensures
        pvl_val(d, "Lines".spec_bytes(), x + 2) == Some((x + part_off(obj_parts(t), 3), x + part_off(obj_parts(t), 4), x + part_off(obj_parts(t), 4))),
        field_uint(d, "Lines".spec_bytes(), x + 2) == Some((t.rows as nat) as usize),
{
    lemma_lit_29();
    assert(obj_parts(t)[2] == tp1());
    assert(part_off(obj_parts(t), 3) == part_off(obj_parts(t), 2) + obj_parts(t)[2].len());
    assert(piece_at(d, x + part_off(obj_parts(t), 2), obj_parts(t)[2]));
    assert(obj_parts(t)[3] == dec(t.rows as nat));
    assert(part_off(obj_parts(t), 4) == part_off(obj_parts(t), 3) + obj_parts(t)[3].len());
    assert(piece_at(d, x + part_off(obj_parts(t), 3), obj_parts(t)[3]));
    assert(obj_parts(t)[4] == tp2());
    assert(part_off(obj_parts(t), 5) == part_off(obj_parts(t), 4) + obj_parts(t)[4].len());
    assert(piece_at(d, x + part_off(obj_parts(t), 4), obj_parts(t)[4]));
    lemma_lines_upto_1(d, x, t);
    lemma_part_off_mono(obj_parts(t), 1, 2);
    assert(obj_parts(t)[0] == tp0());
    assert(part_off(obj_parts(t), 1) == part_off(obj_parts(t), 0) + obj_parts(t)[0].len());
    assert(piece_at(d, x + part_off(obj_parts(t), 0), obj_parts(t)[0]));
    lemma_tp1_pat_lines(d, x + part_off(obj_parts(t), 2));
    lemma_tp1_pat_eq(d, x + part_off(obj_parts(t), 2));
    lemma_piece_bytes(d, x + part_off(obj_parts(t), 2), tp1());
    lemma_piece_bytes(d, x + part_off(obj_parts(t), 4), tp2());
    assert(no_hit(d, pat_lines(), x + 2, x + part_off(obj_parts(t), 2) + 6));
    lemma_find_first(d, pat_lines(), x + 2, x + part_off(obj_parts(t), 2) + 6);
    assert(no_hit(d, pat_eq(), x + part_off(obj_parts(t), 2) + 6, x + part_off(obj_parts(t), 2) + 17));
    lemma_find_first(d, pat_eq(), x + part_off(obj_parts(t), 2) + 6, x + part_off(obj_parts(t), 2) + 17);
    lemma_dec_value_bytes(t.rows as nat);
    lemma_parse_dec(d, x + part_off(obj_parts(t), 3), t.rows as nat);
    lemma_pvl_num(d, pat_lines(), x + 2, x + part_off(obj_parts(t), 2) + 6, x + part_off(obj_parts(t), 2) + 17, obj_parts(t)[3]);
}

#[verifier::spinoff_prover]
pub(crate) proof fn lemma_samples_upto_0(d: Seq<u8>, x: int, t: CubTensorSpec)
    requires
        laid(d, x, obj_parts(t)),
        x + flat(obj_parts(t)).len() < d.len(),
        name_clean(t),
        printable(t),
    ensures
        no_hit(d, pat_samples(), x + 2, x + part_off(obj_parts(t), 1)),
{
    assert(obj_parts(t)[0] == tp0());
    assert(part_off(obj_parts(t), 1) == part_off(obj_parts(t), 0) + obj_parts(t)[0].len());
    assert(piece_at(d, x + part_off(obj_parts(t), 0), obj_parts(t)[0]));
    lemma_tp0_pat_samples(d, x + part_off(obj_parts(t), 0));
    assert(part_off(obj_parts(t), 0) == 0);
}

#[verifier::spinoff_prover]
pub(crate) proof fn lemma_samples_upto_1(d: Seq<u8>, x: int, t: CubTensorSpec)
    requires
        laid(d, x, obj_parts(t)),
        x + flat(obj_parts(t)).len() < d.len(),
        name_clean(t),
        printable(t),
    ensures
        no_hit(d, pat_samples(), x + 2, x + part_off(obj_parts(t), 2)),
{
    assert(obj_parts(t)[1] == vstd::utf8::encode_utf8(t.name@));
    assert(part_off(obj_parts(t), 2) == part_off(obj_parts(t), 1) + obj_parts(t)[1].len());
    assert(piece_at(d, x + part_off(obj_parts(t), 1), obj_parts(t)[1]));
    lemma_samples_upto_0(d, x, t);
    lemma_piece_bytes(d, x + part_off(obj_parts(t), 2), tp1());
    assert(obj_parts(t)[2] == tp1());
    assert(part_off(obj_parts(t), 2) == part_off(obj_parts(t), 1) + nm(t).len());
    assert(piece_at(d, x + part_off(obj_parts(t), 2), obj_parts(t)[2]));
    assert forall|i: int| 0 <= i < pat_samples().len() implies pat_samples()[i] != d[x + part_off(obj_parts(t), 1) + nm(t).len()] by {
        assert(d[x + part_off(obj_parts(t), 2)] == tp1()[0]);
    }
    lemma_no_hit_free(d, pat_samples(), x + part_off(obj_parts(t), 1), nm(t));
}

#[verifier::spinoff_prover]
pub(crate) proof fn lemma_samples_upto_2(d: Seq<u8>, x: int, t: CubTensorSpec)
    requires
        laid(d, x, obj_parts(t)),
        x + flat(obj_parts(t)).len() < d.len(),
        name_clean(t),
        printable(t),
    ensures
        no_hit(d, pat_samples(), x + 2, x + part_off(obj_parts(t), 3)),
{
    assert(obj_parts(t)[2] == tp1());
    assert(part_off(obj_parts(t), 3) == part_off(obj_parts(t), 2) + obj_parts(t)[2].len());
    assert(piece_at(d, x + part_off(obj_parts(t), 2), obj_parts(t)[2]));
    lemma_samples_upto_1(d, x, t);
    lemma_tp1_pat_samples(d, x + part_off(obj_parts(t), 2));
}

#[verifier::spinoff_prover]
pub(crate) proof fn lemma_samples_upto_3(d: Seq<u8>, x: int, t: CubTensorSpec)
    requires
        laid(d, x, obj_parts(t)),
        x + flat(obj_parts(t)).len() < d.len(),
        name_clean(t),
        printable(t),
    ensures
        no_hit(d, pat_samples(), x + 2, x + part_off(obj_parts(t), 4)),
{
    assert(obj_parts(t)[3] == dec(t.rows as nat));
    assert(part_off(obj_parts(t), 4) == part_off(obj_parts(t), 3) + obj_parts(t)[3].len());
    assert(piece_at(d, x + part_off(obj_parts(t), 3), obj_parts(t)[3]));
    lemma_samples_upto_2(d, x, t);
    lemma_dec_value_bytes(t.rows as nat);
    lemma_no_hit_value(d, pat_samples(), x + part_off(obj_parts(t), 3), obj_parts(t)[3]);
}

#[verifier::spinoff_prover]
#[verifier::rlimit(100)]
pub(crate) proof fn lemma_read_samples(d: Seq<u8>, x: int, t: CubTensorSpec)
    requires
        laid(d, x, obj_parts(t)),
        x + flat(obj_parts(t)).len() < d.len(),
        name_clean(t),
        printable(t),
    ensures
        pvl_val(d, "Samples".spec_bytes(), x + 2) == Some((x + part_off(obj_parts(t), 5), x + part_off(obj_parts(t), 6), x + part_off(obj_parts(t), 6))),
        field_uint(d, "Samples".spec_bytes(), x + 2) == Some((t.cols as nat) as usize),
{
    lemma_lit_30();
    assert(obj_parts(t)[4] == tp2());
    assert(part_off(obj_parts(t), 5) == part_off(obj_parts(t), 4) + obj_parts(t)[4].len());
    assert(piece_at(d, x + part_off(obj_parts(t), 4), obj_parts(t)[4]));
    assert(obj_parts(t)[5] == dec(t.cols as nat));
    assert(part_off(obj_parts(t), 6) == part_off(obj_parts(t), 5) + obj_parts(t)[5].len());
    assert(piece_at(d, x + part_off(obj_parts(t), 5), obj_parts(t)[5]));
    assert(obj_parts(t)[6] == tp3());
    assert(part_off(obj_parts(t), 7) == part_off(obj_parts(t), 6) + obj_parts(t)[6].len());
    assert(piece_at(d, x + part_off(obj_parts(t), 6), obj_parts(t)[6]));
    lemma_samples_upto_3(d, x, t);
    lemma_part_off_mono(obj_parts(t), 1, 4);
    assert(obj_parts(t)[0] == tp0());
    assert(part_off(obj_parts(t), 1) == part_off(obj_parts(t), 0) + obj_parts(t)[0].len());
    assert(piece_at(d, x + part_off(obj_parts(t), 0), obj_parts(t)[0]));
    lemma_tp2_pat_samples(d, x + part_off(obj_parts(t), 4));
    lemma_tp2_pat_eq(d, x + part_off(obj_parts(t), 4));
    lemma_piece_bytes(d, x + part_off(obj_parts(t), 4), tp2());
    lemma_piece_bytes(d, x + part_off(obj_parts(t), 6), tp3());
    assert(no_hit(d, pat_samples(), x + 2, x + part_off(obj_parts(t), 4) + 5));
    lemma_find_first(d, pat_samples(), x + 2, x + part_off(obj_parts(t), 4) + 5);
    assert(no_hit(d, pat_eq(), x + part_off(obj_parts(t), 4) + 5, x + part_off(obj_parts(t), 4) + 16));
    lemma_find_first(d, pat_eq(), x + part_off(obj_parts(t), 4) + 5, x + part_off(obj_parts(t), 4) + 16);
    lemma_dec_value_bytes(t.cols as nat);
    lemma_parse_dec(d, x + part_off(obj_parts(t), 5), t.cols as nat);
    lemma_pvl_num(d, pat_samples(), x + 2, x + part_off(obj_parts(t), 4) + 5, x + part_off(obj_parts(t), 4) + 16, obj_parts(t)[5]);
}

#[verifier::spinoff_prover]
pub(crate) proof fn lemma_rungmin_upto_0(d: Seq<u8>, x: int, t: CubTensorSpec)
    requires
        laid(d, x, obj_parts(t)),
        x + flat(obj_parts(t)).len() < d.len(),
        name_clean(t),
        printable(t),
    ensures
        no_hit(d, pat_rmin(), x + 2, x + part_off(obj_parts(t), 1)),
{
    assert(obj_parts(t)[0] == tp0());
    assert(part_off(obj_parts(t), 1) == part_off(obj_parts(t), 0) + obj_parts(t)[0].len());
    assert(piece_at(d, x + part_off(obj_parts(t), 0), obj_parts(t)[0]));
    lemma_tp0_pat_rmin(d, x + part_off(obj_parts(t), 0));
    assert(part_off(obj_parts(t), 0) == 0);
}

#[verifier::spinoff_prover]
pub(crate) proof fn lemma_rungmin_upto_1(d: Seq<u8>, x: int, t: CubTensorSpec)
    requires
        laid(d, x, obj_parts(t)),
        x + flat(obj_parts(t)).len() < d.len(),
        name_clean(t),
        printable(t),
    ensures
        no_hit(d, pat_rmin(), x + 2, x + part_off(obj_parts(t), 2)),
{
    assert(obj_parts(t)[1] == vstd::utf8::encode_utf8(t.name@));
    assert(part_off(obj_parts(t), 2) == part_off(obj_parts(t), 1) + obj_parts(t)[1].len());
    assert(piece_at(d, x + part_off(obj_parts(t), 1), obj_parts(t)[1]));
    lemma_rungmin_upto_0(d, x, t);
    lemma_piece_bytes(d, x + part_off(obj_parts(t), 2), tp1());
    assert(obj_parts(t)[2] == tp1());
    assert(part_off(obj_parts(t), 2) == part_off(obj_parts(t), 1) + nm(t).len());
    assert(piece_at(d, x + part_off(obj_parts(t), 2), obj_parts(t)[2]));
    assert forall|i: int| 0 <= i < pat_rmin().len() implies pat_rmin()[i] != d[x + part_off(obj_parts(t), 1) + nm(t).len()] by {
        assert(d[x + part_off(obj_parts(t), 2)] == tp1()[0]);
    }
    lemma_no_hit_free(d, pat_rmin(), x + part_off(obj_parts(t), 1), nm(t));
}

#[verifier::spinoff_prover]
pub(crate) proof fn lemma_rungmin_upto_2(d: Seq<u8>, x: int, t: CubTensorSpec)
    requires
        laid(d, x, obj_parts(t)),
        x + flat(obj_parts(t)).len() < d.len(),
        name_clean(t),
        printable(t),
    ensures
        no_hit(d, pat_rmin(), x + 2, x + part_off(obj_parts(t), 3)),
{
    assert(obj_parts(t)[2] == tp1());
    assert(part_off(obj_parts(t), 3) == part_off(obj_parts(t), 2) + obj_parts(t)[2].len());
    assert(piece_at(d, x + part_off(obj_parts(t), 2), obj_parts(t)[2]));
    lemma_rungmin_upto_1(d, x, t);
    lemma_tp1_pat_rmin(d, x + part_off(obj_parts(t), 2));
}

#[verifier::spinoff_prover]
pub(crate) proof fn lemma_rungmin_upto_3(d: Seq<u8>, x: int, t: CubTensorSpec)
    requires
        laid(d, x, obj_parts(t)),
        x + flat(obj_parts(t)).len() < d.len(),
        name_clean(t),
        printable(t),
    ensures
        no_hit(d, pat_rmin(), x + 2, x + part_off(obj_parts(t), 4)),
{
    assert(obj_parts(t)[3] == dec(t.rows as nat));
    assert(part_off(obj_parts(t), 4) == part_off(obj_parts(t), 3) + obj_parts(t)[3].len());
    assert(piece_at(d, x + part_off(obj_parts(t), 3), obj_parts(t)[3]));
    lemma_rungmin_upto_2(d, x, t);
    lemma_dec_value_bytes(t.rows as nat);
    lemma_no_hit_value(d, pat_rmin(), x + part_off(obj_parts(t), 3), obj_parts(t)[3]);
}

#[verifier::spinoff_prover]
pub(crate) proof fn lemma_rungmin_upto_4(d: Seq<u8>, x: int, t: CubTensorSpec)
    requires
        laid(d, x, obj_parts(t)),
        x + flat(obj_parts(t)).len() < d.len(),
        name_clean(t),
        printable(t),
    ensures
        no_hit(d, pat_rmin(), x + 2, x + part_off(obj_parts(t), 5)),
{
    assert(obj_parts(t)[4] == tp2());
    assert(part_off(obj_parts(t), 5) == part_off(obj_parts(t), 4) + obj_parts(t)[4].len());
    assert(piece_at(d, x + part_off(obj_parts(t), 4), obj_parts(t)[4]));
    lemma_rungmin_upto_3(d, x, t);
    lemma_tp2_pat_rmin(d, x + part_off(obj_parts(t), 4));
}

#[verifier::spinoff_prover]
pub(crate) proof fn lemma_rungmin_upto_5(d: Seq<u8>, x: int, t: CubTensorSpec)
    requires
        laid(d, x, obj_parts(t)),
        x + flat(obj_parts(t)).len() < d.len(),
        name_clean(t),
        printable(t),
    ensures
        no_hit(d, pat_rmin(), x + 2, x + part_off(obj_parts(t), 6)),
{
    assert(obj_parts(t)[5] == dec(t.cols as nat));
    assert(part_off(obj_parts(t), 6) == part_off(obj_parts(t), 5) + obj_parts(t)[5].len());
    assert(piece_at(d, x + part_off(obj_parts(t), 5), obj_parts(t)[5]));
    lemma_rungmin_upto_4(d, x, t);
    lemma_dec_value_bytes(t.cols as nat);
    lemma_no_hit_value(d, pat_rmin(), x + part_off(obj_parts(t), 5), obj_parts(t)[5]);
}

#[verifier::spinoff_prover]
#[verifier::rlimit(100)]
pub(crate) proof fn lemma_read_rungmin(d: Seq<u8>, x: int, t: CubTensorSpec)
    requires
        laid(d, x, obj_parts(t)),
        x + flat(obj_parts(t)).len() < d.len(),
        name_clean(t),
        printable(t),
    ensures
        pvl_val(d, "RungMin".spec_bytes(), x + 2) == Some((x + part_off(obj_parts(t), 7), x + part_off(obj_parts(t), 8), x + part_off(obj_parts(t), 8))),
        field_i32(d, "RungMin".spec_bytes(), x + 2) == Some(t.rmin),
{
    lemma_lit_31();
    assert(obj_parts(t)[6] == tp3());
    assert(part_off(obj_parts(t), 7) == part_off(obj_parts(t), 6) + obj_parts(t)[6].len());
    assert(piece_at(d, x + part_off(obj_parts(t), 6), obj_parts(t)[6]));
    assert(obj_parts(t)[7] == idec(t.rmin as int));
    assert(part_off(obj_parts(t), 8) == part_off(obj_parts(t), 7) + obj_parts(t)[7].len());
    assert(piece_at(d, x + part_off(obj_parts(t), 7), obj_parts(t)[7]));
    assert(obj_parts(t)[8] == tp4());
    assert(part_off(obj_parts(t), 9) == part_off(obj_parts(t), 8) + obj_parts(t)[8].len());
    assert(piece_at(d, x + part_off(obj_parts(t), 8), obj_parts(t)[8]));
    lemma_rungmin_upto_5(d, x, t);
    lemma_part_off_mono(obj_parts(t), 1, 6);
    assert(obj_parts(t)[0] == tp0());
    assert(part_off(obj_parts(t), 1) == part_off(obj_parts(t), 0) + obj_parts(t)[0].len());
    assert(piece_at(d, x + part_off(obj_parts(t), 0), obj_parts(t)[0]));
    lemma_tp3_pat_rmin(d, x + part_off(obj_parts(t), 6));
    lemma_tp3_pat_eq(d, x + part_off(obj_parts(t), 6));
    lemma_piece_bytes(d, x + part_off(obj_parts(t), 6), tp3());
    lemma_piece_bytes(d, x + part_off(obj_parts(t), 8), tp4());
    assert(no_hit(d, pat_rmin(), x + 2, x + part_off(obj_parts(t), 6) + 5));
    lemma_find_first(d, pat_rmin(), x + 2, x + part_off(obj_parts(t), 6) + 5);
    assert(no_hit(d, pat_eq(), x + part_off(obj_parts(t), 6) + 5, x + part_off(obj_parts(t), 6) + 16));
    lemma_find_first(d, pat_eq(), x + part_off(obj_parts(t), 6) + 5, x + part_off(obj_parts(t), 6) + 16);
    lemma_idec_value_bytes(t.rmin as int);
    lemma_parse_idec(d, x + part_off(obj_parts(t), 7), t.rmin);
    lemma_pvl_num(d, pat_rmin(), x + 2, x + part_off(obj_parts(t), 6) + 5, x + part_off(obj_parts(t), 6) + 16, obj_parts(t)[7]);
}

#[verifier::spinoff_prover]
pub(crate) proof fn lemma_rungmax_upto_0(d: Seq<u8>, x: int, t: CubTensorSpec)
    requires
        laid(d, x, obj_parts(t)),
        x + flat(obj_parts(t)).len() < d.len(),
        name_clean(t),
        printable(t),
    ensures
        no_hit(d, pat_rmax(), x + 2, x + part_off(obj_parts(t), 1)),
{
    assert(obj_parts(t)[0] == tp0());
    assert(part_off(obj_parts(t), 1) == part_off(obj_parts(t), 0) + obj_parts(t)[0].len());
    assert(piece_at(d, x + part_off(obj_parts(t), 0), obj_parts(t)[0]));
    lemma_tp0_pat_rmax(d, x + part_off(obj_parts(t), 0));
    assert(part_off(obj_parts(t), 0) == 0);
}

#[verifier::spinoff_prover]
pub(crate) proof fn lemma_rungmax_upto_1(d: Seq<u8>, x: int, t: CubTensorSpec)
    requires
        laid(d, x, obj_parts(t)),
        x + flat(obj_parts(t)).len() < d.len(),
        name_clean(t),
        printable(t),
    ensures
        no_hit(d, pat_rmax(), x + 2, x + part_off(obj_parts(t), 2)),
{
    assert(obj_parts(t)[1] == vstd::utf8::encode_utf8(t.name@));
    assert(part_off(obj_parts(t), 2) == part_off(obj_parts(t), 1) + obj_parts(t)[1].len());
    assert(piece_at(d, x + part_off(obj_parts(t), 1), obj_parts(t)[1]));
    lemma_rungmax_upto_0(d, x, t);
    lemma_piece_bytes(d, x + part_off(obj_parts(t), 2), tp1());
    assert(obj_parts(t)[2] == tp1());
    assert(part_off(obj_parts(t), 2) == part_off(obj_parts(t), 1) + nm(t).len());
    assert(piece_at(d, x + part_off(obj_parts(t), 2), obj_parts(t)[2]));
    assert forall|i: int| 0 <= i < pat_rmax().len() implies pat_rmax()[i] != d[x + part_off(obj_parts(t), 1) + nm(t).len()] by {
        assert(d[x + part_off(obj_parts(t), 2)] == tp1()[0]);
    }
    lemma_no_hit_free(d, pat_rmax(), x + part_off(obj_parts(t), 1), nm(t));
}

#[verifier::spinoff_prover]
pub(crate) proof fn lemma_rungmax_upto_2(d: Seq<u8>, x: int, t: CubTensorSpec)
    requires
        laid(d, x, obj_parts(t)),
        x + flat(obj_parts(t)).len() < d.len(),
        name_clean(t),
        printable(t),
    ensures
        no_hit(d, pat_rmax(), x + 2, x + part_off(obj_parts(t), 3)),
{
    assert(obj_parts(t)[2] == tp1());
    assert(part_off(obj_parts(t), 3) == part_off(obj_parts(t), 2) + obj_parts(t)[2].len());
    assert(piece_at(d, x + part_off(obj_parts(t), 2), obj_parts(t)[2]));
    lemma_rungmax_upto_1(d, x, t);
    lemma_tp1_pat_rmax(d, x + part_off(obj_parts(t), 2));
}

#[verifier::spinoff_prover]
pub(crate) proof fn lemma_rungmax_upto_3(d: Seq<u8>, x: int, t: CubTensorSpec)
    requires
        laid(d, x, obj_parts(t)),
        x + flat(obj_parts(t)).len() < d.len(),
        name_clean(t),
        printable(t),
    ensures
        no_hit(d, pat_rmax(), x + 2, x + part_off(obj_parts(t), 4)),
{
    assert(obj_parts(t)[3] == dec(t.rows as nat));
    assert(part_off(obj_parts(t), 4) == part_off(obj_parts(t), 3) + obj_parts(t)[3].len());
    assert(piece_at(d, x + part_off(obj_parts(t), 3), obj_parts(t)[3]));
    lemma_rungmax_upto_2(d, x, t);
    lemma_dec_value_bytes(t.rows as nat);
    lemma_no_hit_value(d, pat_rmax(), x + part_off(obj_parts(t), 3), obj_parts(t)[3]);
}

#[verifier::spinoff_prover]
pub(crate) proof fn lemma_rungmax_upto_4(d: Seq<u8>, x: int, t: CubTensorSpec)
    requires
        laid(d, x, obj_parts(t)),
        x + flat(obj_parts(t)).len() < d.len(),
        name_clean(t),
        printable(t),
    ensures
        no_hit(d, pat_rmax(), x + 2, x + part_off(obj_parts(t), 5)),
{
    assert(obj_parts(t)[4] == tp2());
    assert(part_off(obj_parts(t), 5) == part_off(obj_parts(t), 4) + obj_parts(t)[4].len());
    assert(piece_at(d, x + part_off(obj_parts(t), 4), obj_parts(t)[4]));
    lemma_rungmax_upto_3(d, x, t);
    lemma_tp2_pat_rmax(d, x + part_off(obj_parts(t), 4));
}

#[verifier::spinoff_prover]
pub(crate) proof fn lemma_rungmax_upto_5(d: Seq<u8>, x: int, t: CubTensorSpec)
    requires
        laid(d, x, obj_parts(t)),
        x + flat(obj_parts(t)).len() < d.len(),
        name_clean(t),
        printable(t),
    ensures
        no_hit(d, pat_rmax(), x + 2, x + part_off(obj_parts(t), 6)),
{
    assert(obj_parts(t)[5] == dec(t.cols as nat));
    assert(part_off(obj_parts(t), 6) == part_off(obj_parts(t), 5) + obj_parts(t)[5].len());
    assert(piece_at(d, x + part_off(obj_parts(t), 5), obj_parts(t)[5]));
    lemma_rungmax_upto_4(d, x, t);
    lemma_dec_value_bytes(t.cols as nat);
    lemma_no_hit_value(d, pat_rmax(), x + part_off(obj_parts(t), 5), obj_parts(t)[5]);
}

#[verifier::spinoff_prover]
pub(crate) proof fn lemma_rungmax_upto_6(d: Seq<u8>, x: int, t: CubTensorSpec)
    requires
        laid(d, x, obj_parts(t)),
        x + flat(obj_parts(t)).len() < d.len(),
        name_clean(t),
        printable(t),
    ensures
        no_hit(d, pat_rmax(), x + 2, x + part_off(obj_parts(t), 7)),
{
    assert(obj_parts(t)[6] == tp3());
    assert(part_off(obj_parts(t), 7) == part_off(obj_parts(t), 6) + obj_parts(t)[6].len());
    assert(piece_at(d, x + part_off(obj_parts(t), 6), obj_parts(t)[6]));
    lemma_rungmax_upto_5(d, x, t);
    lemma_tp3_pat_rmax(d, x + part_off(obj_parts(t), 6));
}

#[verifier::spinoff_prover]
pub(crate) proof fn lemma_rungmax_upto_7(d: Seq<u8>, x: int, t: CubTensorSpec)
    requires
        laid(d, x, obj_parts(t)),
        x + flat(obj_parts(t)).len() < d.len(),
        name_clean(t),
        printable(t),
    ensures
        no_hit(d, pat_rmax(), x + 2, x + part_off(obj_parts(t), 8)),
{
    assert(obj_parts(t)[7] == idec(t.rmin as int));
    assert(part_off(obj_parts(t), 8) == part_off(obj_parts(t), 7) + obj_parts(t)[7].len());
    assert(piece_at(d, x + part_off(obj_parts(t), 7), obj_parts(t)[7]));
    lemma_rungmax_upto_6(d, x, t);
    lemma_idec_value_bytes(t.rmin as int);
    lemma_no_hit_value(d, pat_rmax(), x + part_off(obj_parts(t), 7), obj_parts(t)[7]);
}

#[verifier::spinoff_prover]
#[verifier::rlimit(100)]
pub(crate) proof fn lemma_read_rungmax(d: Seq<u8>, x: int, t: CubTensorSpec)
    requires
        laid(d, x, obj_parts(t)),
        x + flat(obj_parts(t)).len() < d.len(),
        name_clean(t),
        printable(t),
    ensures
        pvl_val(d, "RungMax".spec_bytes(), x + 2) == Some((x + part_off(obj_parts(t), 9), x + part_off(obj_parts(t), 10), x + part_off(obj_parts(t), 10))),
        field_i32(d, "RungMax".spec_bytes(), x + 2) == Some(t.rmax),
{
    lemma_lit_32();
    assert(obj_parts(t)[8] == tp4());
    assert(part_off(obj_parts(t), 9) == part_off(obj_parts(t), 8) + obj_parts(t)[8].len());
    assert(piece_at(d, x + part_off(obj_parts(t), 8), obj_parts(t)[8]));
    assert(obj_parts(t)[9] == idec(t.rmax as int));
    assert(part_off(obj_parts(t), 10) == part_off(obj_parts(t), 9) + obj_parts(t)[9].len());
    assert(piece_at(d, x + part_off(obj_parts(t), 9), obj_parts(t)[9]));
    assert(obj_parts(t)[10] == tp5());
    assert(part_off(obj_parts(t), 11) == part_off(obj_parts(t), 10) + obj_parts(t)[10].len());
    assert(piece_at(d, x + part_off(obj_parts(t), 10), obj_parts(t)[10]));
    lemma_rungmax_upto_7(d, x, t);
    lemma_part_off_mono(obj_parts(t), 1, 8);
    assert(obj_parts(t)[0] == tp0());
    assert(part_off(obj_parts(t), 1) == part_off(obj_parts(t), 0) + obj_parts(t)[0].len());
    assert(piece_at(d, x + part_off(obj_parts(t), 0), obj_parts(t)[0]));
    lemma_tp4_pat_rmax(d, x + part_off(obj_parts(t), 8));
    lemma_tp4_pat_eq(d, x + part_off(obj_parts(t), 8));
    lemma_piece_bytes(d, x + part_off(obj_parts(t), 8), tp4());
    lemma_piece_bytes(d, x + part_off(obj_parts(t), 10), tp5());
    assert(no_hit(d, pat_rmax(), x + 2, x + part_off(obj_parts(t), 8) + 5));
    lemma_find_first(d, pat_rmax(), x + 2, x + part_off(obj_parts(t), 8) + 5);
    assert(no_hit(d, pat_eq(), x + part_off(obj_parts(t), 8) + 5, x + part_off(obj_parts(t), 8) + 16));
    lemma_find_first(d, pat_eq(), x + part_off(obj_parts(t), 8) + 5, x + part_off(obj_parts(t), 8) + 16);
    lemma_idec_value_bytes(t.rmax as int);
    lemma_parse_idec(d, x + part_off(obj_parts(t), 9), t.rmax);
    lemma_pvl_num(d, pat_rmax(), x + 2, x + part_off(obj_parts(t), 8) + 5, x + part_off(obj_parts(t), 8) + 16, obj_parts(t)[9]);
}

#[verifier::spinoff_prover]
pub(crate) proof fn lemma_tiles_upto_0(d: Seq<u8>, x: int, t: CubTensorSpec)
    requires
        laid(d, x, obj_parts(t)),
        x + flat(obj_parts(t)).len() < d.len(),
        name_clean(t),
        printable(t),
    ensures
        no_hit(d, pat_tiles(), x + 2, x + part_off(obj_parts(t), 1)),
{
    assert(obj_parts(t)[0] == tp0());
    assert(part_off(obj_parts(t), 1) == part_off(obj_parts(t), 0) + obj_parts(t)[0].len());
    assert(piece_at(d, x + part_off(obj_parts(t), 0), obj_parts(t)[0]));
    lemma_tp0_pat_tiles(d, x + part_off(obj_parts(t), 0));
    assert(part_off(obj_parts(t), 0) == 0);
}

#[verifier::spinoff_prover]
pub(crate) proof fn lemma_tiles_upto_1(d: Seq<u8>, x: int, t: CubTensorSpec)
    requires
        laid(d, x, obj_parts(t)),
        x + flat(obj_parts(t)).len() < d.len(),
        name_clean(t),
        printable(t),
    ensures
        no_hit(d, pat_tiles(), x + 2, x + part_off(obj_parts(t), 2)),
{
    assert(obj_parts(t)[1] == vstd::utf8::encode_utf8(t.name@));
    assert(part_off(obj_parts(t), 2) == part_off(obj_parts(t), 1) + obj_parts(t)[1].len());
    assert(piece_at(d, x + part_off(obj_parts(t), 1), obj_parts(t)[1]));
    lemma_tiles_upto_0(d, x, t);
    lemma_piece_bytes(d, x + part_off(obj_parts(t), 2), tp1());
    assert(obj_parts(t)[2] == tp1());
    assert(part_off(obj_parts(t), 2) == part_off(obj_parts(t), 1) + nm(t).len());
    assert(piece_at(d, x + part_off(obj_parts(t), 2), obj_parts(t)[2]));
    assert forall|i: int| 0 <= i < pat_tiles().len() implies pat_tiles()[i] != d[x + part_off(obj_parts(t), 1) + nm(t).len()] by {
        assert(d[x + part_off(obj_parts(t), 2)] == tp1()[0]);
    }
    lemma_no_hit_free(d, pat_tiles(), x + part_off(obj_parts(t), 1), nm(t));
}

#[verifier::spinoff_prover]
pub(crate) proof fn lemma_tiles_upto_2(d: Seq<u8>, x: int, t: CubTensorSpec)
    requires
        laid(d, x, obj_parts(t)),
        x + flat(obj_parts(t)).len() < d.len(),
        name_clean(t),
        printable(t),
    ensures
        no_hit(d, pat_tiles(), x + 2, x + part_off(obj_parts(t), 3)),
{
    assert(obj_parts(t)[2] == tp1());
    assert(part_off(obj_parts(t), 3) == part_off(obj_parts(t), 2) + obj_parts(t)[2].len());
    assert(piece_at(d, x + part_off(obj_parts(t), 2), obj_parts(t)[2]));
    lemma_tiles_upto_1(d, x, t);
    lemma_tp1_pat_tiles(d, x + part_off(obj_parts(t), 2));
}

#[verifier::spinoff_prover]
pub(crate) proof fn lemma_tiles_upto_3(d: Seq<u8>, x: int, t: CubTensorSpec)
    requires
        laid(d, x, obj_parts(t)),
        x + flat(obj_parts(t)).len() < d.len(),
        name_clean(t),
        printable(t),
    ensures
        no_hit(d, pat_tiles(), x + 2, x + part_off(obj_parts(t), 4)),
{
    assert(obj_parts(t)[3] == dec(t.rows as nat));
    assert(part_off(obj_parts(t), 4) == part_off(obj_parts(t), 3) + obj_parts(t)[3].len());
    assert(piece_at(d, x + part_off(obj_parts(t), 3), obj_parts(t)[3]));
    lemma_tiles_upto_2(d, x, t);
    lemma_dec_value_bytes(t.rows as nat);
    lemma_no_hit_value(d, pat_tiles(), x + part_off(obj_parts(t), 3), obj_parts(t)[3]);
}

#[verifier::spinoff_prover]
pub(crate) proof fn lemma_tiles_upto_4(d: Seq<u8>, x: int, t: CubTensorSpec)
    requires
        laid(d, x, obj_parts(t)),
        x + flat(obj_parts(t)).len() < d.len(),
        name_clean(t),
        printable(t),
    ensures
        no_hit(d, pat_tiles(), x + 2, x + part_off(obj_parts(t), 5)),
{
    assert(obj_parts(t)[4] == tp2());
    assert(part_off(obj_parts(t), 5) == part_off(obj_parts(t), 4) + obj_parts(t)[4].len());
    assert(piece_at(d, x + part_off(obj_parts(t), 4), obj_parts(t)[4]));
    lemma_tiles_upto_3(d, x, t);
    lemma_tp2_pat_tiles(d, x + part_off(obj_parts(t), 4));
}

#[verifier::spinoff_prover]
pub(crate) proof fn lemma_tiles_upto_5(d: Seq<u8>, x: int, t: CubTensorSpec)
    requires
        laid(d, x, obj_parts(t)),
        x + flat(obj_parts(t)).len() < d.len(),
        name_clean(t),
        printable(t),
    ensures
        no_hit(d, pat_tiles(), x + 2, x + part_off(obj_parts(t), 6)),
{
    assert(obj_parts(t)[5] == dec(t.cols as nat));
    assert(part_off(obj_parts(t), 6) == part_off(obj_parts(t), 5) + obj_parts(t)[5].len());
    assert(piece_at(d, x + part_off(obj_parts(t), 5), obj_parts(t)[5]));
    lemma_tiles_upto_4(d, x, t);
    lemma_dec_value_bytes(t.cols as nat);
    lemma_no_hit_value(d, pat_tiles(), x + part_off(obj_parts(t), 5), obj_parts(t)[5]);
}

#[verifier::spinoff_prover]
pub(crate) proof fn lemma_tiles_upto_6(d: Seq<u8>, x: int, t: CubTensorSpec)
    requires
        laid(d, x, obj_parts(t)),
        x + flat(obj_parts(t)).len() < d.len(),
        name_clean(t),
        printable(t),
    ensures
        no_hit(d, pat_tiles(), x + 2, x + part_off(obj_parts(t), 7)),
{
    assert(obj_parts(t)[6] == tp3());
    assert(part_off(obj_parts(t), 7) == part_off(obj_parts(t), 6) + obj_parts(t)[6].len());
    assert(piece_at(d, x + part_off(obj_parts(t), 6), obj_parts(t)[6]));
    lemma_tiles_upto_5(d, x, t);
    lemma_tp3_pat_tiles(d, x + part_off(obj_parts(t), 6));
}

#[verifier::spinoff_prover]
pub(crate) proof fn lemma_tiles_upto_7(d: Seq<u8>, x: int, t: CubTensorSpec)
    requires
        laid(d, x, obj_parts(t)),
        x + flat(obj_parts(t)).len() < d.len(),
        name_clean(t),
        printable(t),
    ensures
        no_hit(d, pat_tiles(), x + 2, x + part_off(obj_parts(t), 8)),
{
    assert(obj_parts(t)[7] == idec(t.rmin as int));
    assert(part_off(obj_parts(t), 8) == part_off(obj_parts(t), 7) + obj_parts(t)[7].len());
    assert(piece_at(d, x + part_off(obj_parts(t), 7), obj_parts(t)[7]));
    lemma_tiles_upto_6(d, x, t);
    lemma_idec_value_bytes(t.rmin as int);
    lemma_no_hit_value(d, pat_tiles(), x + part_off(obj_parts(t), 7), obj_parts(t)[7]);
}

#[verifier::spinoff_prover]
pub(crate) proof fn lemma_tiles_upto_8(d: Seq<u8>, x: int, t: CubTensorSpec)
    requires
        laid(d, x, obj_parts(t)),
        x + flat(obj_parts(t)).len() < d.len(),
        name_clean(t),
        printable(t),
    ensures
        no_hit(d, pat_tiles(), x + 2, x + part_off(obj_parts(t), 9)),
{
    assert(obj_parts(t)[8] == tp4());
    assert(part_off(obj_parts(t), 9) == part_off(obj_parts(t), 8) + obj_parts(t)[8].len());
    assert(piece_at(d, x + part_off(obj_parts(t), 8), obj_parts(t)[8]));
    lemma_tiles_upto_7(d, x, t);
    lemma_tp4_pat_tiles(d, x + part_off(obj_parts(t), 8));
}

#[verifier::spinoff_prover]
pub(crate) proof fn lemma_tiles_upto_9(d: Seq<u8>, x: int, t: CubTensorSpec)
    requires
        laid(d, x, obj_parts(t)),
        x + flat(obj_parts(t)).len() < d.len(),
        name_clean(t),
        printable(t),
    ensures
        no_hit(d, pat_tiles(), x + 2, x + part_off(obj_parts(t), 10)),
{
    assert(obj_parts(t)[9] == idec(t.rmax as int));
    assert(part_off(obj_parts(t), 10) == part_off(obj_parts(t), 9) + obj_parts(t)[9].len());
    assert(piece_at(d, x + part_off(obj_parts(t), 9), obj_parts(t)[9]));
    lemma_tiles_upto_8(d, x, t);
    lemma_idec_value_bytes(t.rmax as int);
    lemma_no_hit_value(d, pat_tiles(), x + part_off(obj_parts(t), 9), obj_parts(t)[9]);
}

#[verifier::spinoff_prover]
pub(crate) proof fn lemma_tiles_upto_10(d: Seq<u8>, x: int, t: CubTensorSpec)
    requires
        laid(d, x, obj_parts(t)),
        x + flat(obj_parts(t)).len() < d.len(),
        name_clean(t),
        printable(t),
    ensures
        no_hit(d, pat_tiles(), x + 2, x + part_off(obj_parts(t), 11)),
{
    assert(obj_parts(t)[10] == tp5());
    assert(part_off(obj_parts(t), 11) == part_off(obj_parts(t), 10) + obj_parts(t)[10].len());
    assert(piece_at(d, x + part_off(obj_parts(t), 10), obj_parts(t)[10]));
    lemma_tiles_upto_9(d, x, t);
    lemma_tp5_pat_tiles(d, x + part_off(obj_parts(t), 10));
}

#[verifier::spinoff_prover]
pub(crate) proof fn lemma_tiles_upto_11(d: Seq<u8>, x: int, t: CubTensorSpec)
    requires
        laid(d, x, obj_parts(t)),
        x + flat(obj_parts(t)).len() < d.len(),
        name_clean(t),
        printable(t),
    ensures
        no_hit(d, pat_tiles(), x + 2, x + part_off(obj_parts(t), 12)),
{
    assert(obj_parts(t)[11] == dec(((t.rmax - t.rmin + 1) as usize) as nat));
    assert(part_off(obj_parts(t), 12) == part_off(obj_parts(t), 11) + obj_parts(t)[11].len());
    assert(piece_at(d, x + part_off(obj_parts(t), 11), obj_parts(t)[11]));
    lemma_tiles_upto_10(d, x, t);
    lemma_dec_value_bytes(((t.rmax - t.rmin + 1) as usize) as nat);
    lemma_no_hit_value(d, pat_tiles(), x + part_off(obj_parts(t), 11), obj_parts(t)[11]);
}

#[verifier::spinoff_prover]
#[verifier::rlimit(100)]
pub(crate) proof fn lemma_read_tiles(d: Seq<u8>, x: int, t: CubTensorSpec)
    requires
        laid(d, x, obj_parts(t)),
        x + flat(obj_parts(t)).len() < d.len(),
        name_clean(t),
        printable(t),
    ensures
        pvl_val(d, "Tiles".spec_bytes(), x + 2) == Some((x + part_off(obj_parts(t), 13), x + part_off(obj_parts(t), 14), x + part_off(obj_parts(t), 14))),
        field_uint(d, "Tiles".spec_bytes(), x + 2) == Some((t.tiles as nat) as usize),
{
    lemma_lit_33();
    assert(obj_parts(t)[12] == tp6());
    assert(part_off(obj_parts(t), 13) == part_off(obj_parts(t), 12) + obj_parts(t)[12].len());
    assert(piece_at(d, x + part_off(obj_parts(t), 12), obj_parts(t)[12]));
    assert(obj_parts(t)[13] == dec(t.tiles as nat));
    assert(part_off(obj_parts(t), 14) == part_off(obj_parts(t), 13) + obj_parts(t)[13].len());
    assert(piece_at(d, x + part_off(obj_parts(t), 13), obj_parts(t)[13]));
    assert(obj_parts(t)[14] == tp7());
    assert(part_off(obj_parts(t), 15) == part_off(obj_parts(t), 14) + obj_parts(t)[14].len());
    assert(piece_at(d, x + part_off(obj_parts(t), 14), obj_parts(t)[14]));
    lemma_tiles_upto_11(d, x, t);
    lemma_part_off_mono(obj_parts(t), 1, 12);
    assert(obj_parts(t)[0] == tp0());
    assert(part_off(obj_parts(t), 1) == part_off(obj_parts(t), 0) + obj_parts(t)[0].len());
    assert(piece_at(d, x + part_off(obj_parts(t), 0), obj_parts(t)[0]));
    lemma_tp6_pat_tiles(d, x + part_off(obj_parts(t), 12));
    lemma_tp6_pat_eq(d, x + part_off(obj_parts(t), 12));
    lemma_piece_bytes(d, x + part_off(obj_parts(t), 12), tp6());
    lemma_piece_bytes(d, x + part_off(obj_parts(t), 14), tp7());
    assert(no_hit(d, pat_tiles(), x + 2, x + part_off(obj_parts(t), 12) + 5));
    lemma_find_first(d, pat_tiles(), x + 2, x + part_off(obj_parts(t), 12) + 5);
    assert(no_hit(d, pat_eq(), x + part_off(obj_parts(t), 12) + 5, x + part_off(obj_parts(t), 12) + 16));
    lemma_find_first(d, pat_eq(), x + part_off(obj_parts(t), 12) + 5, x + part_off(obj_parts(t), 12) + 16);
    lemma_dec_value_bytes(t.tiles as nat);
    lemma_parse_dec(d, x + part_off(obj_parts(t), 13), t.tiles as nat);
    lemma_pvl_num(d, pat_tiles(), x + 2, x + part_off(obj_parts(t), 12) + 5, x + part_off(obj_parts(t), 12) + 16, obj_parts(t)[13]);
}

#[verifier::spinoff_prover]
pub(crate) proof fn lemma_indexbyte_upto_0(d: Seq<u8>, x: int, t: CubTensorSpec)
    requires
        laid(d, x, obj_parts(t)),
        x + flat(obj_parts(t)).len() < d.len(),
        name_clean(t),
        printable(t),
    ensures
        no_hit(d, pat_ib(), x + 2, x + part_off(obj_parts(t), 1)),
{
    assert(obj_parts(t)[0] == tp0());
    assert(part_off(obj_parts(t), 1) == part_off(obj_parts(t), 0) + obj_parts(t)[0].len());
    assert(piece_at(d, x + part_off(obj_parts(t), 0), obj_parts(t)[0]));
    lemma_tp0_pat_ib(d, x + part_off(obj_parts(t), 0));
    assert(part_off(obj_parts(t), 0) == 0);
}

#[verifier::spinoff_prover]
pub(crate) proof fn lemma_indexbyte_upto_1(d: Seq<u8>, x: int, t: CubTensorSpec)
    requires
        laid(d, x, obj_parts(t)),
        x + flat(obj_parts(t)).len() < d.len(),
        name_clean(t),
        printable(t),
    ensures
        no_hit(d, pat_ib(), x + 2, x + part_off(obj_parts(t), 2)),
{
    assert(obj_parts(t)[1] == vstd::utf8::encode_utf8(t.name@));
    assert(part_off(obj_parts(t), 2) == part_off(obj_parts(t), 1) + obj_parts(t)[1].len());
    assert(piece_at(d, x + part_off(obj_parts(t), 1), obj_parts(t)[1]));
    lemma_indexbyte_upto_0(d, x, t);
    lemma_piece_bytes(d, x + part_off(obj_parts(t), 2), tp1());
    assert(obj_parts(t)[2] == tp1());
    assert(part_off(obj_parts(t), 2) == part_off(obj_parts(t), 1) + nm(t).len());
    assert(piece_at(d, x + part_off(obj_parts(t), 2), obj_parts(t)[2]));
    assert forall|i: int| 0 <= i < pat_ib().len() implies pat_ib()[i] != d[x + part_off(obj_parts(t), 1) + nm(t).len()] by {
        assert(d[x + part_off(obj_parts(t), 2)] == tp1()[0]);
    }
    lemma_no_hit_free(d, pat_ib(), x + part_off(obj_parts(t), 1), nm(t));
}

#[verifier::spinoff_prover]
pub(crate) proof fn lemma_indexbyte_upto_2(d: Seq<u8>, x: int, t: CubTensorSpec)
    requires
        laid(d, x, obj_parts(t)),
        x + flat(obj_parts(t)).len() < d.len(),
        name_clean(t),
        printable(t),
    ensures
        no_hit(d, pat_ib(), x + 2, x + part_off(obj_parts(t), 3)),
{
    assert(obj_parts(t)[2] == tp1());
    assert(part_off(obj_parts(t), 3) == part_off(obj_parts(t), 2) + obj_parts(t)[2].len());
    assert(piece_at(d, x + part_off(obj_parts(t), 2), obj_parts(t)[2]));
    lemma_indexbyte_upto_1(d, x, t);
    lemma_tp1_pat_ib(d, x + part_off(obj_parts(t), 2));
}

#[verifier::spinoff_prover]
pub(crate) proof fn lemma_indexbyte_upto_3(d: Seq<u8>, x: int, t: CubTensorSpec)
    requires
        laid(d, x, obj_parts(t)),
        x + flat(obj_parts(t)).len() < d.len(),
        name_clean(t),
        printable(t),
    ensures
        no_hit(d, pat_ib(), x + 2, x + part_off(obj_parts(t), 4)),
{
    assert(obj_parts(t)[3] == dec(t.rows as nat));
    assert(part_off(obj_parts(t), 4) == part_off(obj_parts(t), 3) + obj_parts(t)[3].len());
    assert(piece_at(d, x + part_off(obj_parts(t), 3), obj_parts(t)[3]));
    lemma_indexbyte_upto_2(d, x, t);
    lemma_dec_value_bytes(t.rows as nat);
    lemma_no_hit_value(d, pat_ib(), x + part_off(obj_parts(t), 3), obj_parts(t)[3]);
}

#[verifier::spinoff_prover]
pub(crate) proof fn lemma_indexbyte_upto_4(d: Seq<u8>, x: int, t: CubTensorSpec)
    requires
        laid(d, x, obj_parts(t)),
        x + flat(obj_parts(t)).len() < d.len(),
        name_clean(t),
        printable(t),
    ensures
        no_hit(d, pat_ib(), x + 2, x + part_off(obj_parts(t), 5)),
{
    assert(obj_parts(t)[4] == tp2());
    assert(part_off(obj_parts(t), 5) == part_off(obj_parts(t), 4) + obj_parts(t)[4].len());
    assert(piece_at(d, x + part_off(obj_parts(t), 4), obj_parts(t)[4]));
    lemma_indexbyte_upto_3(d, x, t);
    lemma_tp2_pat_ib(d, x + part_off(obj_parts(t), 4));
}

#[verifier::spinoff_prover]
pub(crate) proof fn lemma_indexbyte_upto_5(d: Seq<u8>, x: int, t: CubTensorSpec)
    requires
        laid(d, x, obj_parts(t)),
        x + flat(obj_parts(t)).len() < d.len(),
        name_clean(t),
        printable(t),
    ensures
        no_hit(d, pat_ib(), x + 2, x + part_off(obj_parts(t), 6)),
{
    assert(obj_parts(t)[5] == dec(t.cols as nat));
    assert(part_off(obj_parts(t), 6) == part_off(obj_parts(t), 5) + obj_parts(t)[5].len());
    assert(piece_at(d, x + part_off(obj_parts(t), 5), obj_parts(t)[5]));
    lemma_indexbyte_upto_4(d, x, t);
    lemma_dec_value_bytes(t.cols as nat);
    lemma_no_hit_value(d, pat_ib(), x + part_off(obj_parts(t), 5), obj_parts(t)[5]);
}

#[verifier::spinoff_prover]
pub(crate) proof fn lemma_indexbyte_upto_6(d: Seq<u8>, x: int, t: CubTensorSpec)
    requires
        laid(d, x, obj_parts(t)),
        x + flat(obj_parts(t)).len() < d.len(),
        name_clean(t),
        printable(t),
    ensures
        no_hit(d, pat_ib(), x + 2, x + part_off(obj_parts(t), 7)),
{
    assert(obj_parts(t)[6] == tp3());
    assert(part_off(obj_parts(t), 7) == part_off(obj_parts(t), 6) + obj_parts(t)[6].len());
    assert(piece_at(d, x + part_off(obj_parts(t), 6), obj_parts(t)[6]));
    lemma_indexbyte_upto_5(d, x, t);
    lemma_tp3_pat_ib(d, x + part_off(obj_parts(t), 6));
}

#[verifier::spinoff_prover]
pub(crate) proof fn lemma_indexbyte_upto_7(d: Seq<u8>, x: int, t: CubTensorSpec)
    requires
        laid(d, x, obj_parts(t)),
        x + flat(obj_parts(t)).len() < d.len(),
        name_clean(t),
        printable(t),
    ensures
        no_hit(d, pat_ib(), x + 2, x + part_off(obj_parts(t), 8)),
{
    assert(obj_parts(t)[7] == idec(t.rmin as int));
    assert(part_off(obj_parts(t), 8) == part_off(obj_parts(t), 7) + obj_parts(t)[7].len());
    assert(piece_at(d, x + part_off(obj_parts(t), 7), obj_parts(t)[7]));
    lemma_indexbyte_upto_6(d, x, t);
    lemma_idec_value_bytes(t.rmin as int);
    lemma_no_hit_value(d, pat_ib(), x + part_off(obj_parts(t), 7), obj_parts(t)[7]);
}

#[verifier::spinoff_prover]
pub(crate) proof fn lemma_indexbyte_upto_8(d: Seq<u8>, x: int, t: CubTensorSpec)
    requires
        laid(d, x, obj_parts(t)),
        x + flat(obj_parts(t)).len() < d.len(),
        name_clean(t),
        printable(t),
    ensures
        no_hit(d, pat_ib(), x + 2, x + part_off(obj_parts(t), 9)),
{
    assert(obj_parts(t)[8] == tp4());
    assert(part_off(obj_parts(t), 9) == part_off(obj_parts(t), 8) + obj_parts(t)[8].len());
    assert(piece_at(d, x + part_off(obj_parts(t), 8), obj_parts(t)[8]));
    lemma_indexbyte_upto_7(d, x, t);
    lemma_tp4_pat_ib(d, x + part_off(obj_parts(t), 8));
}

#[verifier::spinoff_prover]
pub(crate) proof fn lemma_indexbyte_upto_9(d: Seq<u8>, x: int, t: CubTensorSpec)
    requires
        laid(d, x, obj_parts(t)),
        x + flat(obj_parts(t)).len() < d.len(),
        name_clean(t),
        printable(t),
    ensures
        no_hit(d, pat_ib(), x + 2, x + part_off(obj_parts(t), 10)),
{
    assert(obj_parts(t)[9] == idec(t.rmax as int));
    assert(part_off(obj_parts(t), 10) == part_off(obj_parts(t), 9) + obj_parts(t)[9].len());
    assert(piece_at(d, x + part_off(obj_parts(t), 9), obj_parts(t)[9]));
    lemma_indexbyte_upto_8(d, x, t);
    lemma_idec_value_bytes(t.rmax as int);
    lemma_no_hit_value(d, pat_ib(), x + part_off(obj_parts(t), 9), obj_parts(t)[9]);
}

#[verifier::spinoff_prover]
pub(crate) proof fn lemma_indexbyte_upto_10(d: Seq<u8>, x: int, t: CubTensorSpec)
    requires
        laid(d, x, obj_parts(t)),
        x + flat(obj_parts(t)).len() < d.len(),
        name_clean(t),
        printable(t),
    ensures
        no_hit(d, pat_ib(), x + 2, x + part_off(obj_parts(t), 11)),
{
    assert(obj_parts(t)[10] == tp5());
    assert(part_off(obj_parts(t), 11) == part_off(obj_parts(t), 10) + obj_parts(t)[10].len());
    assert(piece_at(d, x + part_off(obj_parts(t), 10), obj_parts(t)[10]));
    lemma_indexbyte_upto_9(d, x, t);
    lemma_tp5_pat_ib(d, x + part_off(obj_parts(t), 10));
}

#[verifier::spinoff_prover]
pub(crate) proof fn lemma_indexbyte_upto_11(d: Seq<u8>, x: int, t: CubTensorSpec)
    requires
        laid(d, x, obj_parts(t)),
        x + flat(obj_parts(t)).len() < d.len(),
        name_clean(t),
        printable(t),
    ensures
        no_hit(d, pat_ib(), x + 2, x + part_off(obj_parts(t), 12)),
{
    assert(obj_parts(t)[11] == dec(((t.rmax - t.rmin + 1) as usize) as nat));
    assert(part_off(obj_parts(t), 12) == part_off(obj_parts(t), 11) + obj_parts(t)[11].len());
    assert(piece_at(d, x + part_off(obj_parts(t), 11), obj_parts(t)[11]));
    lemma_indexbyte_upto_10(d, x, t);
    lemma_dec_value_bytes(((t.rmax - t.rmin + 1) as usize) as nat);
    lemma_no_hit_value(d, pat_ib(), x + part_off(obj_parts(t), 11), obj_parts(t)[11]);
}

#[verifier::spinoff_prover]
pub(crate) proof fn lemma_indexbyte_upto_12(d: Seq<u8>, x: int, t: CubTensorSpec)
    requires
        laid(d, x, obj_parts(t)),
        x + flat(obj_parts(t)).len() < d.len(),
        name_clean(t),
        printable(t),
    ensures
        no_hit(d, pat_ib(), x + 2, x + part_off(obj_parts(t), 13)),
{
    assert(obj_parts(t)[12] == tp6());
    assert(part_off(obj_parts(t), 13) == part_off(obj_parts(t), 12) + obj_parts(t)[12].len());
    assert(piece_at(d, x + part_off(obj_parts(t), 12), obj_parts(t)[12]));
    lemma_indexbyte_upto_11(d, x, t);
    lemma_tp6_pat_ib(d, x + part_off(obj_parts(t), 12));
}

#[verifier::spinoff_prover]
pub(crate) proof fn lemma_indexbyte_upto_13(d: Seq<u8>, x: int, t: CubTensorSpec)
    requires
        laid(d, x, obj_parts(t)),
        x + flat(obj_parts(t)).len() < d.len(),
        name_clean(t),
        printable(t),
    ensures
        no_hit(d, pat_ib(), x + 2, x + part_off(obj_parts(t), 14)),
{
    assert(obj_parts(t)[13] == dec(t.tiles as nat));
    assert(part_off(obj_parts(t), 14) == part_off(obj_parts(t), 13) + obj_parts(t)[13].len());
    assert(piece_at(d, x + part_off(obj_parts(t), 13), obj_parts(t)[13]));
    lemma_indexbyte_upto_12(d, x, t);
    lemma_dec_value_bytes(t.tiles as nat);
    lemma_no_hit_value(d, pat_ib(), x + part_off(obj_parts(t), 13), obj_parts(t)[13]);
}

#[verifier::spinoff_prover]
#[verifier::rlimit(100)]
pub(crate) proof fn lemma_read_indexbyte(d: Seq<u8>, x: int, t: CubTensorSpec)
    requires
        laid(d, x, obj_parts(t)),
        x + flat(obj_parts(t)).len() < d.len(),
        name_clean(t),
        printable(t),
    ensures
        pvl_val(d, "IndexByte".spec_bytes(), x + 2) == Some((x + part_off(obj_parts(t), 15), x + part_off(obj_parts(t), 16), x + part_off(obj_parts(t), 16))),
        field_uint(d, "IndexByte".spec_bytes(), x + 2) == Some(((t.index_start + 1) as nat) as usize),
{
    lemma_lit_34();
    assert(obj_parts(t)[14] == tp7());
    assert(part_off(obj_parts(t), 15) == part_off(obj_parts(t), 14) + obj_parts(t)[14].len());
    assert(piece_at(d, x + part_off(obj_parts(t), 14), obj_parts(t)[14]));
    assert(obj_parts(t)[15] == dec((t.index_start + 1) as nat));
    assert(part_off(obj_parts(t), 16) == part_off(obj_parts(t), 15) + obj_parts(t)[15].len());
    assert(piece_at(d, x + part_off(obj_parts(t), 15), obj_parts(t)[15]));
    assert(obj_parts(t)[16] == tp8());
    assert(part_off(obj_parts(t), 17) == part_off(obj_parts(t), 16) + obj_parts(t)[16].len());
    assert(piece_at(d, x + part_off(obj_parts(t), 16), obj_parts(t)[16]));
    lemma_indexbyte_upto_13(d, x, t);
    lemma_part_off_mono(obj_parts(t), 1, 14);
    assert(obj_parts(t)[0] == tp0());
    assert(part_off(obj_parts(t), 1) == part_off(obj_parts(t), 0) + obj_parts(t)[0].len());
    assert(piece_at(d, x + part_off(obj_parts(t), 0), obj_parts(t)[0]));
    lemma_tp7_pat_ib(d, x + part_off(obj_parts(t), 14));
    lemma_tp7_pat_eq(d, x + part_off(obj_parts(t), 14));
    lemma_piece_bytes(d, x + part_off(obj_parts(t), 14), tp7());
    lemma_piece_bytes(d, x + part_off(obj_parts(t), 16), tp8());
    assert(no_hit(d, pat_ib(), x + 2, x + part_off(obj_parts(t), 14) + 5));
    lemma_find_first(d, pat_ib(), x + 2, x + part_off(obj_parts(t), 14) + 5);
    assert(no_hit(d, pat_eq(), x + part_off(obj_parts(t), 14) + 5, x + part_off(obj_parts(t), 14) + 16));
    lemma_find_first(d, pat_eq(), x + part_off(obj_parts(t), 14) + 5, x + part_off(obj_parts(t), 14) + 16);
    lemma_dec_value_bytes((t.index_start + 1) as nat);
    lemma_parse_dec(d, x + part_off(obj_parts(t), 15), (t.index_start + 1) as nat);
    lemma_pvl_num(d, pat_ib(), x + 2, x + part_off(obj_parts(t), 14) + 5, x + part_off(obj_parts(t), 14) + 16, obj_parts(t)[15]);
}

#[verifier::spinoff_prover]
pub(crate) proof fn lemma_bodybyte_upto_0(d: Seq<u8>, x: int, t: CubTensorSpec)
    requires
        laid(d, x, obj_parts(t)),
        x + flat(obj_parts(t)).len() < d.len(),
        name_clean(t),
        printable(t),
    ensures
        no_hit(d, pat_bb(), x + 2, x + part_off(obj_parts(t), 1)),
{
    assert(obj_parts(t)[0] == tp0());
    assert(part_off(obj_parts(t), 1) == part_off(obj_parts(t), 0) + obj_parts(t)[0].len());
    assert(piece_at(d, x + part_off(obj_parts(t), 0), obj_parts(t)[0]));
    lemma_tp0_pat_bb(d, x + part_off(obj_parts(t), 0));
    assert(part_off(obj_parts(t), 0) == 0);
}

#[verifier::spinoff_prover]
pub(crate) proof fn lemma_bodybyte_upto_1(d: Seq<u8>, x: int, t: CubTensorSpec)
    requires
        laid(d, x, obj_parts(t)),
        x + flat(obj_parts(t)).len() < d.len(),
        name_clean(t),
        printable(t),
    ensures
        no_hit(d, pat_bb(), x + 2, x + part_off(obj_parts(t), 2)),
{
    assert(obj_parts(t)[1] == vstd::utf8::encode_utf8(t.name@));
    assert(part_off(obj_parts(t), 2) == part_off(obj_parts(t), 1) + obj_parts(t)[1].len());
    assert(piece_at(d, x + part_off(obj_parts(t), 1), obj_parts(t)[1]));
    lemma_bodybyte_upto_0(d, x, t);
    lemma_piece_bytes(d, x + part_off(obj_parts(t), 2), tp1());
    assert(obj_parts(t)[2] == tp1());
    assert(part_off(obj_parts(t), 2) == part_off(obj_parts(t), 1) + nm(t).len());
    assert(piece_at(d, x + part_off(obj_parts(t), 2), obj_parts(t)[2]));
    assert forall|i: int| 0 <= i < pat_bb().len() implies pat_bb()[i] != d[x + part_off(obj_parts(t), 1) + nm(t).len()] by {
        assert(d[x + part_off(obj_parts(t), 2)] == tp1()[0]);
    }
    lemma_no_hit_free(d, pat_bb(), x + part_off(obj_parts(t), 1), nm(t));
}

#[verifier::spinoff_prover]
pub(crate) proof fn lemma_bodybyte_upto_2(d: Seq<u8>, x: int, t: CubTensorSpec)
    requires
        laid(d, x, obj_parts(t)),
        x + flat(obj_parts(t)).len() < d.len(),
        name_clean(t),
        printable(t),
    ensures
        no_hit(d, pat_bb(), x + 2, x + part_off(obj_parts(t), 3)),
{
    assert(obj_parts(t)[2] == tp1());
    assert(part_off(obj_parts(t), 3) == part_off(obj_parts(t), 2) + obj_parts(t)[2].len());
    assert(piece_at(d, x + part_off(obj_parts(t), 2), obj_parts(t)[2]));
    lemma_bodybyte_upto_1(d, x, t);
    lemma_tp1_pat_bb(d, x + part_off(obj_parts(t), 2));
}

#[verifier::spinoff_prover]
pub(crate) proof fn lemma_bodybyte_upto_3(d: Seq<u8>, x: int, t: CubTensorSpec)
    requires
        laid(d, x, obj_parts(t)),
        x + flat(obj_parts(t)).len() < d.len(),
        name_clean(t),
        printable(t),
    ensures
        no_hit(d, pat_bb(), x + 2, x + part_off(obj_parts(t), 4)),
{
    assert(obj_parts(t)[3] == dec(t.rows as nat));
    assert(part_off(obj_parts(t), 4) == part_off(obj_parts(t), 3) + obj_parts(t)[3].len());
    assert(piece_at(d, x + part_off(obj_parts(t), 3), obj_parts(t)[3]));
    lemma_bodybyte_upto_2(d, x, t);
    lemma_dec_value_bytes(t.rows as nat);
    lemma_no_hit_value(d, pat_bb(), x + part_off(obj_parts(t), 3), obj_parts(t)[3]);
}

#[verifier::spinoff_prover]
pub(crate) proof fn lemma_bodybyte_upto_4(d: Seq<u8>, x: int, t: CubTensorSpec)
    requires
        laid(d, x, obj_parts(t)),
        x + flat(obj_parts(t)).len() < d.len(),
        name_clean(t),
        printable(t),
    ensures
        no_hit(d, pat_bb(), x + 2, x + part_off(obj_parts(t), 5)),
{
    assert(obj_parts(t)[4] == tp2());
    assert(part_off(obj_parts(t), 5) == part_off(obj_parts(t), 4) + obj_parts(t)[4].len());
    assert(piece_at(d, x + part_off(obj_parts(t), 4), obj_parts(t)[4]));
    lemma_bodybyte_upto_3(d, x, t);
    lemma_tp2_pat_bb(d, x + part_off(obj_parts(t), 4));
}

#[verifier::spinoff_prover]
pub(crate) proof fn lemma_bodybyte_upto_5(d: Seq<u8>, x: int, t: CubTensorSpec)
    requires
        laid(d, x, obj_parts(t)),
        x + flat(obj_parts(t)).len() < d.len(),
        name_clean(t),
        printable(t),
    ensures
        no_hit(d, pat_bb(), x + 2, x + part_off(obj_parts(t), 6)),
{
    assert(obj_parts(t)[5] == dec(t.cols as nat));
    assert(part_off(obj_parts(t), 6) == part_off(obj_parts(t), 5) + obj_parts(t)[5].len());
    assert(piece_at(d, x + part_off(obj_parts(t), 5), obj_parts(t)[5]));
    lemma_bodybyte_upto_4(d, x, t);
    lemma_dec_value_bytes(t.cols as nat);
    lemma_no_hit_value(d, pat_bb(), x + part_off(obj_parts(t), 5), obj_parts(t)[5]);
}

#[verifier::spinoff_prover]
pub(crate) proof fn lemma_bodybyte_upto_6(d: Seq<u8>, x: int, t: CubTensorSpec)
    requires
        laid(d, x, obj_parts(t)),
        x + flat(obj_parts(t)).len() < d.len(),
        name_clean(t),
        printable(t),
    ensures
        no_hit(d, pat_bb(), x + 2, x + part_off(obj_parts(t), 7)),
{
    assert(obj_parts(t)[6] == tp3());
    assert(part_off(obj_parts(t), 7) == part_off(obj_parts(t), 6) + obj_parts(t)[6].len());
    assert(piece_at(d, x + part_off(obj_parts(t), 6), obj_parts(t)[6]));
    lemma_bodybyte_upto_5(d, x, t);
    lemma_tp3_pat_bb(d, x + part_off(obj_parts(t), 6));
}

#[verifier::spinoff_prover]
pub(crate) proof fn lemma_bodybyte_upto_7(d: Seq<u8>, x: int, t: CubTensorSpec)
    requires
        laid(d, x, obj_parts(t)),
        x + flat(obj_parts(t)).len() < d.len(),
        name_clean(t),
        printable(t),
    ensures
        no_hit(d, pat_bb(), x + 2, x + part_off(obj_parts(t), 8)),
{
    assert(obj_parts(t)[7] == idec(t.rmin as int));
    assert(part_off(obj_parts(t), 8) == part_off(obj_parts(t), 7) + obj_parts(t)[7].len());
    assert(piece_at(d, x + part_off(obj_parts(t), 7), obj_parts(t)[7]));
    lemma_bodybyte_upto_6(d, x, t);
    lemma_idec_value_bytes(t.rmin as int);
    lemma_no_hit_value(d, pat_bb(), x + part_off(obj_parts(t), 7), obj_parts(t)[7]);
}

#[verifier::spinoff_prover]
pub(crate) proof fn lemma_bodybyte_upto_8(d: Seq<u8>, x: int, t: CubTensorSpec)
    requires
        laid(d, x, obj_parts(t)),
        x + flat(obj_parts(t)).len() < d.len(),
        name_clean(t),
        printable(t),
    ensures
        no_hit(d, pat_bb(), x + 2, x + part_off(obj_parts(t), 9)),
{
    assert(obj_parts(t)[8] == tp4());
    assert(part_off(obj_parts(t), 9) == part_off(obj_parts(t), 8) + obj_parts(t)[8].len());
    assert(piece_at(d, x + part_off(obj_parts(t), 8), obj_parts(t)[8]));
    lemma_bodybyte_upto_7(d, x, t);
    lemma_tp4_pat_bb(d, x + part_off(obj_parts(t), 8));
}

#[verifier::spinoff_prover]
pub(crate) proof fn lemma_bodybyte_upto_9(d: Seq<u8>, x: int, t: CubTensorSpec)
    requires
        laid(d, x, obj_parts(t)),
        x + flat(obj_parts(t)).len() < d.len(),
        name_clean(t),
        printable(t),
    ensures
        no_hit(d, pat_bb(), x + 2, x + part_off(obj_parts(t), 10)),
{
    assert(obj_parts(t)[9] == idec(t.rmax as int));
    assert(part_off(obj_parts(t), 10) == part_off(obj_parts(t), 9) + obj_parts(t)[9].len());
    assert(piece_at(d, x + part_off(obj_parts(t), 9), obj_parts(t)[9]));
    lemma_bodybyte_upto_8(d, x, t);
    lemma_idec_value_bytes(t.rmax as int);
    lemma_no_hit_value(d, pat_bb(), x + part_off(obj_parts(t), 9), obj_parts(t)[9]);
}

#[verifier::spinoff_prover]
pub(crate) proof fn lemma_bodybyte_upto_10(d: Seq<u8>, x: int, t: CubTensorSpec)
    requires
        laid(d, x, obj_parts(t)),
        x + flat(obj_parts(t)).len() < d.len(),
        name_clean(t),
        printable(t),
    ensures
        no_hit(d, pat_bb(), x + 2, x + part_off(obj_parts(t), 11)),
{
    assert(obj_parts(t)[10] == tp5());
    assert(part_off(obj_parts(t), 11) == part_off(obj_parts(t), 10) + obj_parts(t)[10].len());
    assert(piece_at(d, x + part_off(obj_parts(t), 10), obj_parts(t)[10]));
    lemma_bodybyte_upto_9(d, x, t);
    lemma_tp5_pat_bb(d, x + part_off(obj_parts(t), 10));
}

#[verifier::spinoff_prover]
pub(crate) proof fn lemma_bodybyte_upto_11(d: Seq<u8>, x: int, t: CubTensorSpec)
    requires
        laid(d, x, obj_parts(t)),
        x + flat(obj_parts(t)).len() < d.len(),
        name_clean(t),
        printable(t),
    ensures
        no_hit(d, pat_bb(), x + 2, x + part_off(obj_parts(t), 12)),
{
    assert(obj_parts(t)[11] == dec(((t.rmax - t.rmin + 1) as usize) as nat));
    assert(part_off(obj_parts(t), 12) == part_off(obj_parts(t), 11) + obj_parts(t)[11].len());
    assert(piece_at(d, x + part_off(obj_parts(t), 11), obj_parts(t)[11]));
    lemma_bodybyte_upto_10(d, x, t);
    lemma_dec_value_bytes(((t.rmax - t.rmin + 1) as usize) as nat);
    lemma_no_hit_value(d, pat_bb(), x + part_off(obj_parts(t), 11), obj_parts(t)[11]);
}

#[verifier::spinoff_prover]
pub(crate) proof fn lemma_bodybyte_upto_12(d: Seq<u8>, x: int, t: CubTensorSpec)
    requires
        laid(d, x, obj_parts(t)),
        x + flat(obj_parts(t)).len() < d.len(),
        name_clean(t),
        printable(t),
    ensures
        no_hit(d, pat_bb(), x + 2, x + part_off(obj_parts(t), 13)),
{
    assert(obj_parts(t)[12] == tp6());
    assert(part_off(obj_parts(t), 13) == part_off(obj_parts(t), 12) + obj_parts(t)[12].len());
    assert(piece_at(d, x + part_off(obj_parts(t), 12), obj_parts(t)[12]));
    lemma_bodybyte_upto_11(d, x, t);
    lemma_tp6_pat_bb(d, x + part_off(obj_parts(t), 12));
}

#[verifier::spinoff_prover]
pub(crate) proof fn lemma_bodybyte_upto_13(d: Seq<u8>, x: int, t: CubTensorSpec)
    requires
        laid(d, x, obj_parts(t)),
        x + flat(obj_parts(t)).len() < d.len(),
        name_clean(t),
        printable(t),
    ensures
        no_hit(d, pat_bb(), x + 2, x + part_off(obj_parts(t), 14)),
{
    assert(obj_parts(t)[13] == dec(t.tiles as nat));
    assert(part_off(obj_parts(t), 14) == part_off(obj_parts(t), 13) + obj_parts(t)[13].len());
    assert(piece_at(d, x + part_off(obj_parts(t), 13), obj_parts(t)[13]));
    lemma_bodybyte_upto_12(d, x, t);
    lemma_dec_value_bytes(t.tiles as nat);
    lemma_no_hit_value(d, pat_bb(), x + part_off(obj_parts(t), 13), obj_parts(t)[13]);
}

#[verifier::spinoff_prover]
pub(crate) proof fn lemma_bodybyte_upto_14(d: Seq<u8>, x: int, t: CubTensorSpec)
    requires
        laid(d, x, obj_parts(t)),
        x + flat(obj_parts(t)).len() < d.len(),
        name_clean(t),
        printable(t),
    ensures
        no_hit(d, pat_bb(), x + 2, x + part_off(obj_parts(t), 15)),
{
    assert(obj_parts(t)[14] == tp7());
    assert(part_off(obj_parts(t), 15) == part_off(obj_parts(t), 14) + obj_parts(t)[14].len());
    assert(piece_at(d, x + part_off(obj_parts(t), 14), obj_parts(t)[14]));
    lemma_bodybyte_upto_13(d, x, t);
    lemma_tp7_pat_bb(d, x + part_off(obj_parts(t), 14));
}

#[verifier::spinoff_prover]
pub(crate) proof fn lemma_bodybyte_upto_15(d: Seq<u8>, x: int, t: CubTensorSpec)
    requires
        laid(d, x, obj_parts(t)),
        x + flat(obj_parts(t)).len() < d.len(),
        name_clean(t),
        printable(t),
    ensures
        no_hit(d, pat_bb(), x + 2, x + part_off(obj_parts(t), 16)),
{
    assert(obj_parts(t)[15] == dec((t.index_start + 1) as nat));
    assert(part_off(obj_parts(t), 16) == part_off(obj_parts(t), 15) + obj_parts(t)[15].len());
    assert(piece_at(d, x + part_off(obj_parts(t), 15), obj_parts(t)[15]));
    lemma_bodybyte_upto_14(d, x, t);
    lemma_dec_value_bytes((t.index_start + 1) as nat);
    lemma_no_hit_value(d, pat_bb(), x + part_off(obj_parts(t), 15), obj_parts(t)[15]);
}

#[verifier::spinoff_prover]
#[verifier::rlimit(100)]
pub(crate) proof fn lemma_read_bodybyte(d: Seq<u8>, x: int, t: CubTensorSpec)
    requires
        laid(d, x, obj_parts(t)),
        x + flat(obj_parts(t)).len() < d.len(),
        name_clean(t),
        printable(t),
    ensures
        pvl_val(d, "BodyByte".spec_bytes(), x + 2) == Some((x + part_off(obj_parts(t), 17), x + part_off(obj_parts(t), 18), x + part_off(obj_parts(t), 18))),
        field_uint(d, "BodyByte".spec_bytes(), x + 2) == Some(((t.body_start + 1) as nat) as usize),
{
    lemma_lit_35();
    assert(obj_parts(t)[16] == tp8());
    assert(part_off(obj_parts(t), 17) == part_off(obj_parts(t), 16) + obj_parts(t)[16].len());
    assert(piece_at(d, x + part_off(obj_parts(t), 16), obj_parts(t)[16]));
    assert(obj_parts(t)[17] == dec((t.body_start + 1) as nat));
    assert(part_off(obj_parts(t), 18) == part_off(obj_parts(t), 17) + obj_parts(t)[17].len());
    assert(piece_at(d, x + part_off(obj_parts(t), 17), obj_parts(t)[17]));
    assert(obj_parts(t)[18] == tp9());
    assert(part_off(obj_parts(t), 19) == part_off(obj_parts(t), 18) + obj_parts(t)[18].len());
    assert(piece_at(d, x + part_off(obj_parts(t), 18), obj_parts(t)[18]));
    lemma_bodybyte_upto_15(d, x, t);
    lemma_part_off_mono(obj_parts(t), 1, 16);
    assert(obj_parts(t)[0] == tp0());
    assert(part_off(obj_parts(t), 1) == part_off(obj_parts(t), 0) + obj_parts(t)[0].len());
    assert(piece_at(d, x + part_off(obj_parts(t), 0), obj_parts(t)[0]));
    lemma_tp8_pat_bb(d, x + part_off(obj_parts(t), 16));
    lemma_tp8_pat_eq(d, x + part_off(obj_parts(t), 16));
    lemma_piece_bytes(d, x + part_off(obj_parts(t), 16), tp8());
    lemma_piece_bytes(d, x + part_off(obj_parts(t), 18), tp9());
    assert(no_hit(d, pat_bb(), x + 2, x + part_off(obj_parts(t), 16) + 5));
    lemma_find_first(d, pat_bb(), x + 2, x + part_off(obj_parts(t), 16) + 5);
    assert(no_hit(d, pat_eq(), x + part_off(obj_parts(t), 16) + 5, x + part_off(obj_parts(t), 16) + 16));
    lemma_find_first(d, pat_eq(), x + part_off(obj_parts(t), 16) + 5, x + part_off(obj_parts(t), 16) + 16);
    lemma_dec_value_bytes((t.body_start + 1) as nat);
    lemma_parse_dec(d, x + part_off(obj_parts(t), 17), (t.body_start + 1) as nat);
    lemma_pvl_num(d, pat_bb(), x + 2, x + part_off(obj_parts(t), 16) + 5, x + part_off(obj_parts(t), 16) + 16, obj_parts(t)[17]);
}

#[verifier::spinoff_prover]
pub(crate) proof fn lemma_bodybytes_upto_0(d: Seq<u8>, x: int, t: CubTensorSpec)
    requires
        laid(d, x, obj_parts(t)),
        x + flat(obj_parts(t)).len() < d.len(),
        name_clean(t),
        printable(t),
    ensures
        no_hit(d, pat_bbs(), x + 2, x + part_off(obj_parts(t), 1)),
{
    assert(obj_parts(t)[0] == tp0());
    assert(part_off(obj_parts(t), 1) == part_off(obj_parts(t), 0) + obj_parts(t)[0].len());
    assert(piece_at(d, x + part_off(obj_parts(t), 0), obj_parts(t)[0]));
    lemma_tp0_pat_bbs(d, x + part_off(obj_parts(t), 0));
    assert(part_off(obj_parts(t), 0) == 0);
}

#[verifier::spinoff_prover]
pub(crate) proof fn lemma_bodybytes_upto_1(d: Seq<u8>, x: int, t: CubTensorSpec)
    requires
        laid(d, x, obj_parts(t)),
        x + flat(obj_parts(t)).len() < d.len(),
        name_clean(t),
        printable(t),
    ensures
        no_hit(d, pat_bbs(), x + 2, x + part_off(obj_parts(t), 2)),
{
    assert(obj_parts(t)[1] == vstd::utf8::encode_utf8(t.name@));
    assert(part_off(obj_parts(t), 2) == part_off(obj_parts(t), 1) + obj_parts(t)[1].len());
    assert(piece_at(d, x + part_off(obj_parts(t), 1), obj_parts(t)[1]));
    lemma_bodybytes_upto_0(d, x, t);
    lemma_piece_bytes(d, x + part_off(obj_parts(t), 2), tp1());
    assert(obj_parts(t)[2] == tp1());
    assert(part_off(obj_parts(t), 2) == part_off(obj_parts(t), 1) + nm(t).len());
    assert(piece_at(d, x + part_off(obj_parts(t), 2), obj_parts(t)[2]));
    assert forall|i: int| 0 <= i < pat_bbs().len() implies pat_bbs()[i] != d[x + part_off(obj_parts(t), 1) + nm(t).len()] by {
        assert(d[x + part_off(obj_parts(t), 2)] == tp1()[0]);
    }
    lemma_no_hit_free(d, pat_bbs(), x + part_off(obj_parts(t), 1), nm(t));
}

#[verifier::spinoff_prover]
pub(crate) proof fn lemma_bodybytes_upto_2(d: Seq<u8>, x: int, t: CubTensorSpec)
    requires
        laid(d, x, obj_parts(t)),
        x + flat(obj_parts(t)).len() < d.len(),
        name_clean(t),
        printable(t),
    ensures
        no_hit(d, pat_bbs(), x + 2, x + part_off(obj_parts(t), 3)),
{
    assert(obj_parts(t)[2] == tp1());
    assert(part_off(obj_parts(t), 3) == part_off(obj_parts(t), 2) + obj_parts(t)[2].len());
    assert(piece_at(d, x + part_off(obj_parts(t), 2), obj_parts(t)[2]));
    lemma_bodybytes_upto_1(d, x, t);
    lemma_tp1_pat_bbs(d, x + part_off(obj_parts(t), 2));
}

#[verifier::spinoff_prover]
pub(crate) proof fn lemma_bodybytes_upto_3(d: Seq<u8>, x: int, t: CubTensorSpec)
    requires
        laid(d, x, obj_parts(t)),
        x + flat(obj_parts(t)).len() < d.len(),
        name_clean(t),
        printable(t),
    ensures
        no_hit(d, pat_bbs(), x + 2, x + part_off(obj_parts(t), 4)),
{
    assert(obj_parts(t)[3] == dec(t.rows as nat));
    assert(part_off(obj_parts(t), 4) == part_off(obj_parts(t), 3) + obj_parts(t)[3].len());
    assert(piece_at(d, x + part_off(obj_parts(t), 3), obj_parts(t)[3]));
    lemma_bodybytes_upto_2(d, x, t);
    lemma_dec_value_bytes(t.rows as nat);
    lemma_no_hit_value(d, pat_bbs(), x + part_off(obj_parts(t), 3), obj_parts(t)[3]);
}

#[verifier::spinoff_prover]
pub(crate) proof fn lemma_bodybytes_upto_4(d: Seq<u8>, x: int, t: CubTensorSpec)
    requires
        laid(d, x, obj_parts(t)),
        x + flat(obj_parts(t)).len() < d.len(),
        name_clean(t),
        printable(t),
    ensures
        no_hit(d, pat_bbs(), x + 2, x + part_off(obj_parts(t), 5)),
{
    assert(obj_parts(t)[4] == tp2());
    assert(part_off(obj_parts(t), 5) == part_off(obj_parts(t), 4) + obj_parts(t)[4].len());
    assert(piece_at(d, x + part_off(obj_parts(t), 4), obj_parts(t)[4]));
    lemma_bodybytes_upto_3(d, x, t);
    lemma_tp2_pat_bbs(d, x + part_off(obj_parts(t), 4));
}

#[verifier::spinoff_prover]
pub(crate) proof fn lemma_bodybytes_upto_5(d: Seq<u8>, x: int, t: CubTensorSpec)
    requires
        laid(d, x, obj_parts(t)),
        x + flat(obj_parts(t)).len() < d.len(),
        name_clean(t),
        printable(t),
    ensures
        no_hit(d, pat_bbs(), x + 2, x + part_off(obj_parts(t), 6)),
{
    assert(obj_parts(t)[5] == dec(t.cols as nat));
    assert(part_off(obj_parts(t), 6) == part_off(obj_parts(t), 5) + obj_parts(t)[5].len());
    assert(piece_at(d, x + part_off(obj_parts(t), 5), obj_parts(t)[5]));
    lemma_bodybytes_upto_4(d, x, t);
    lemma_dec_value_bytes(t.cols as nat);
    lemma_no_hit_value(d, pat_bbs(), x + part_off(obj_parts(t), 5), obj_parts(t)[5]);
}

#[verifier::spinoff_prover]
pub(crate) proof fn lemma_bodybytes_upto_6(d: Seq<u8>, x: int, t: CubTensorSpec)
    requires
        laid(d, x, obj_parts(t)),
        x + flat(obj_parts(t)).len() < d.len(),
        name_clean(t),
        printable(t),
    ensures
        no_hit(d, pat_bbs(), x + 2, x + part_off(obj_parts(t), 7)),
{
    assert(obj_parts(t)[6] == tp3());
    assert(part_off(obj_parts(t), 7) == part_off(obj_parts(t), 6) + obj_parts(t)[6].len());
    assert(piece_at(d, x + part_off(obj_parts(t), 6), obj_parts(t)[6]));
    lemma_bodybytes_upto_5(d, x, t);
    lemma_tp3_pat_bbs(d, x + part_off(obj_parts(t), 6));
}

#[verifier::spinoff_prover]
pub(crate) proof fn lemma_bodybytes_upto_7(d: Seq<u8>, x: int, t: CubTensorSpec)
    requires
        laid(d, x, obj_parts(t)),
        x + flat(obj_parts(t)).len() < d.len(),
        name_clean(t),
        printable(t),
    ensures
        no_hit(d, pat_bbs(), x + 2, x + part_off(obj_parts(t), 8)),
{
    assert(obj_parts(t)[7] == idec(t.rmin as int));
    assert(part_off(obj_parts(t), 8) == part_off(obj_parts(t), 7) + obj_parts(t)[7].len());
    assert(piece_at(d, x + part_off(obj_parts(t), 7), obj_parts(t)[7]));
    lemma_bodybytes_upto_6(d, x, t);
    lemma_idec_value_bytes(t.rmin as int);
    lemma_no_hit_value(d, pat_bbs(), x + part_off(obj_parts(t), 7), obj_parts(t)[7]);
}

#[verifier::spinoff_prover]
pub(crate) proof fn lemma_bodybytes_upto_8(d: Seq<u8>, x: int, t: CubTensorSpec)
    requires
        laid(d, x, obj_parts(t)),
        x + flat(obj_parts(t)).len() < d.len(),
        name_clean(t),
        printable(t),
    ensures
        no_hit(d, pat_bbs(), x + 2, x + part_off(obj_parts(t), 9)),
{
    assert(obj_parts(t)[8] == tp4());
    assert(part_off(obj_parts(t), 9) == part_off(obj_parts(t), 8) + obj_parts(t)[8].len());
    assert(piece_at(d, x + part_off(obj_parts(t), 8), obj_parts(t)[8]));
    lemma_bodybytes_upto_7(d, x, t);
    lemma_tp4_pat_bbs(d, x + part_off(obj_parts(t), 8));
}

#[verifier::spinoff_prover]
pub(crate) proof fn lemma_bodybytes_upto_9(d: Seq<u8>, x: int, t: CubTensorSpec)
    requires
        laid(d, x, obj_parts(t)),
        x + flat(obj_parts(t)).len() < d.len(),
        name_clean(t),
        printable(t),
    ensures
        no_hit(d, pat_bbs(), x + 2, x + part_off(obj_parts(t), 10)),
{
    assert(obj_parts(t)[9] == idec(t.rmax as int));
    assert(part_off(obj_parts(t), 10) == part_off(obj_parts(t), 9) + obj_parts(t)[9].len());
    assert(piece_at(d, x + part_off(obj_parts(t), 9), obj_parts(t)[9]));
    lemma_bodybytes_upto_8(d, x, t);
    lemma_idec_value_bytes(t.rmax as int);
    lemma_no_hit_value(d, pat_bbs(), x + part_off(obj_parts(t), 9), obj_parts(t)[9]);
}

#[verifier::spinoff_prover]
pub(crate) proof fn lemma_bodybytes_upto_10(d: Seq<u8>, x: int, t: CubTensorSpec)
    requires
        laid(d, x, obj_parts(t)),
        x + flat(obj_parts(t)).len() < d.len(),
        name_clean(t),
        printable(t),
    ensures
        no_hit(d, pat_bbs(), x + 2, x + part_off(obj_parts(t), 11)),
{
    assert(obj_parts(t)[10] == tp5());
    assert(part_off(obj_parts(t), 11) == part_off(obj_parts(t), 10) + obj_parts(t)[10].len());
    assert(piece_at(d, x + part_off(obj_parts(t), 10), obj_parts(t)[10]));
    lemma_bodybytes_upto_9(d, x, t);
    lemma_tp5_pat_bbs(d, x + part_off(obj_parts(t), 10));
}

#[verifier::spinoff_prover]
pub(crate) proof fn lemma_bodybytes_upto_11(d: Seq<u8>, x: int, t: CubTensorSpec)
    requires
        laid(d, x, obj_parts(t)),
        x + flat(obj_parts(t)).len() < d.len(),
        name_clean(t),
        printable(t),
    ensures
        no_hit(d, pat_bbs(), x + 2, x + part_off(obj_parts(t), 12)),
{
    assert(obj_parts(t)[11] == dec(((t.rmax - t.rmin + 1) as usize) as nat));
    assert(part_off(obj_parts(t), 12) == part_off(obj_parts(t), 11) + obj_parts(t)[11].len());
    assert(piece_at(d, x + part_off(obj_parts(t), 11), obj_parts(t)[11]));
    lemma_bodybytes_upto_10(d, x, t);
    lemma_dec_value_bytes(((t.rmax - t.rmin + 1) as usize) as nat);
    lemma_no_hit_value(d, pat_bbs(), x + part_off(obj_parts(t), 11), obj_parts(t)[11]);
}

#[verifier::spinoff_prover]
pub(crate) proof fn lemma_bodybytes_upto_12(d: Seq<u8>, x: int, t: CubTensorSpec)
    requires
        laid(d, x, obj_parts(t)),
        x + flat(obj_parts(t)).len() < d.len(),
        name_clean(t),
        printable(t),
    ensures
        no_hit(d, pat_bbs(), x + 2, x + part_off(obj_parts(t), 13)),
{
    assert(obj_parts(t)[12] == tp6());
    assert(part_off(obj_parts(t), 13) == part_off(obj_parts(t), 12) + obj_parts(t)[12].len());
    assert(piece_at(d, x + part_off(obj_parts(t), 12), obj_parts(t)[12]));
    lemma_bodybytes_upto_11(d, x, t);
    lemma_tp6_pat_bbs(d, x + part_off(obj_parts(t), 12));
}

#[verifier::spinoff_prover]
pub(crate) proof fn lemma_bodybytes_upto_13(d: Seq<u8>, x: int, t: CubTensorSpec)
    requires
        laid(d, x, obj_parts(t)),
        x + flat(obj_parts(t)).len() < d.len(),
        name_clean(t),
        printable(t),
    ensures
        no_hit(d, pat_bbs(), x + 2, x + part_off(obj_parts(t), 14)),
{
    assert(obj_parts(t)[13] == dec(t.tiles as nat));
    assert(part_off(obj_parts(t), 14) == part_off(obj_parts(t), 13) + obj_parts(t)[13].len());
    assert(piece_at(d, x + part_off(obj_parts(t), 13), obj_parts(t)[13]));
    lemma_bodybytes_upto_12(d, x, t);
    lemma_dec_value_bytes(t.tiles as nat);
    lemma_no_hit_value(d, pat_bbs(), x + part_off(obj_parts(t), 13), obj_parts(t)[13]);
}

#[verifier::spinoff_prover]
pub(crate) proof fn lemma_bodybytes_upto_14(d: Seq<u8>, x: int, t: CubTensorSpec)
    requires
        laid(d, x, obj_parts(t)),
        x + flat(obj_parts(t)).len() < d.len(),
        name_clean(t),
        printable(t),
    ensures
        no_hit(d, pat_bbs(), x + 2, x + part_off(obj_parts(t), 15)),
{
    assert(obj_parts(t)[14] == tp7());
    assert(part_off(obj_parts(t), 15) == part_off(obj_parts(t), 14) + obj_parts(t)[14].len());
    assert(piece_at(d, x + part_off(obj_parts(t), 14), obj_parts(t)[14]));
    lemma_bodybytes_upto_13(d, x, t);
    lemma_tp7_pat_bbs(d, x + part_off(obj_parts(t), 14));
}

#[verifier::spinoff_prover]
pub(crate) proof fn lemma_bodybytes_upto_15(d: Seq<u8>, x: int, t: CubTensorSpec)
    requires
        laid(d, x, obj_parts(t)),
        x + flat(obj_parts(t)).len() < d.len(),
        name_clean(t),
        printable(t),
    ensures
        no_hit(d, pat_bbs(), x + 2, x + part_off(obj_parts(t), 16)),
{
    assert(obj_parts(t)[15] == dec((t.index_start + 1) as nat));
    assert(part_off(obj_parts(t), 16) == part_off(obj_parts(t), 15) + obj_parts(t)[15].len());
    assert(piece_at(d, x + part_off(obj_parts(t), 15), obj_parts(t)[15]));
    lemma_bodybytes_upto_14(d, x, t);
    lemma_dec_value_bytes((t.index_start + 1) as nat);
    lemma_no_hit_value(d, pat_bbs(), x + part_off(obj_parts(t), 15), obj_parts(t)[15]);
}

#[verifier::spinoff_prover]
pub(crate) proof fn lemma_bodybytes_upto_16(d: Seq<u8>, x: int, t: CubTensorSpec)
    requires
        laid(d, x, obj_parts(t)),
        x + flat(obj_parts(t)).len() < d.len(),
        name_clean(t),
        printable(t),
    ensures
        no_hit(d, pat_bbs(), x + 2, x + part_off(obj_parts(t), 17)),
{
    assert(obj_parts(t)[16] == tp8());
    assert(part_off(obj_parts(t), 17) == part_off(obj_parts(t), 16) + obj_parts(t)[16].len());
    assert(piece_at(d, x + part_off(obj_parts(t), 16), obj_parts(t)[16]));
    lemma_bodybytes_upto_15(d, x, t);
    lemma_tp8_pat_bbs(d, x + part_off(obj_parts(t), 16));
}

#[verifier::spinoff_prover]
pub(crate) proof fn lemma_bodybytes_upto_17(d: Seq<u8>, x: int, t: CubTensorSpec)
    requires
        laid(d, x, obj_parts(t)),
        x + flat(obj_parts(t)).len() < d.len(),
        name_clean(t),
        printable(t),
    ensures
        no_hit(d, pat_bbs(), x + 2, x + part_off(obj_parts(t), 18)),
{
    assert(obj_parts(t)[17] == dec((t.body_start + 1) as nat));
    assert(part_off(obj_parts(t), 18) == part_off(obj_parts(t), 17) + obj_parts(t)[17].len());
    assert(piece_at(d, x + part_off(obj_parts(t), 17), obj_parts(t)[17]));
    lemma_bodybytes_upto_16(d, x, t);
    lemma_dec_value_bytes((t.body_start + 1) as nat);
    lemma_no_hit_value(d, pat_bbs(), x + part_off(obj_parts(t), 17), obj_parts(t)[17]);
}

#[verifier::spinoff_prover]
#[verifier::rlimit(100)]
pub(crate) proof fn lemma_read_bodybytes(d: Seq<u8>, x: int, t: CubTensorSpec)
    requires
        laid(d, x, obj_parts(t)),
        x + flat(obj_parts(t)).len() < d.len(),
        name_clean(t),
        printable(t),
    ensures
        pvl_val(d, "BodyBytes".spec_bytes(), x + 2) == Some((x + part_off(obj_parts(t), 19), x + part_off(obj_parts(t), 20), x + part_off(obj_parts(t), 20))),
        field_uint(d, "BodyBytes".spec_bytes(), x + 2) == Some((t.body_bytes as nat) as usize),
{
    lemma_lit_36();
    assert(obj_parts(t)[18] == tp9());
    assert(part_off(obj_parts(t), 19) == part_off(obj_parts(t), 18) + obj_parts(t)[18].len());
    assert(piece_at(d, x + part_off(obj_parts(t), 18), obj_parts(t)[18]));
    assert(obj_parts(t)[19] == dec(t.body_bytes as nat));
    assert(part_off(obj_parts(t), 20) == part_off(obj_parts(t), 19) + obj_parts(t)[19].len());
    assert(piece_at(d, x + part_off(obj_parts(t), 19), obj_parts(t)[19]));
    assert(obj_parts(t)[20] == tp10());
    assert(part_off(obj_parts(t), 21) == part_off(obj_parts(t), 20) + obj_parts(t)[20].len());
    assert(piece_at(d, x + part_off(obj_parts(t), 20), obj_parts(t)[20]));
    lemma_bodybytes_upto_17(d, x, t);
    lemma_part_off_mono(obj_parts(t), 1, 18);
    assert(obj_parts(t)[0] == tp0());
    assert(part_off(obj_parts(t), 1) == part_off(obj_parts(t), 0) + obj_parts(t)[0].len());
    assert(piece_at(d, x + part_off(obj_parts(t), 0), obj_parts(t)[0]));
    lemma_tp9_pat_bbs(d, x + part_off(obj_parts(t), 18));
    lemma_tp9_pat_eq(d, x + part_off(obj_parts(t), 18));
    lemma_piece_bytes(d, x + part_off(obj_parts(t), 18), tp9());
    lemma_piece_bytes(d, x + part_off(obj_parts(t), 20), tp10());
    assert(no_hit(d, pat_bbs(), x + 2, x + part_off(obj_parts(t), 18) + 5));
    lemma_find_first(d, pat_bbs(), x + 2, x + part_off(obj_parts(t), 18) + 5);
    assert(no_hit(d, pat_eq(), x + part_off(obj_parts(t), 18) + 5, x + part_off(obj_parts(t), 18) + 16));
    lemma_find_first(d, pat_eq(), x + part_off(obj_parts(t), 18) + 5, x + part_off(obj_parts(t), 18) + 16);
    lemma_dec_value_bytes(t.body_bytes as nat);
    lemma_parse_dec(d, x + part_off(obj_parts(t), 19), t.body_bytes as nat);
    lemma_pvl_num(d, pat_bbs(), x + 2, x + part_off(obj_parts(t), 18) + 5, x + part_off(obj_parts(t), 18) + 16, obj_parts(t)[19]);
}

#[verifier::spinoff_prover]
pub(crate) proof fn lemma_obj_end_upto_0(d: Seq<u8>, x: int, t: CubTensorSpec)
    requires
        laid(d, x, obj_parts(t)),
        x + flat(obj_parts(t)).len() < d.len(),
        name_clean(t),
    ensures
        no_hit(d, pat_end(), x, x + part_off(obj_parts(t), 1)),
{
    assert(obj_parts(t)[0] == tp0());
    assert(part_off(obj_parts(t), 1) == part_off(obj_parts(t), 0) + obj_parts(t)[0].len());
    assert(piece_at(d, x + part_off(obj_parts(t), 0), obj_parts(t)[0]));
    assert(part_off(obj_parts(t), 0) == 0);
    lemma_tp0_pat_end(d, x + part_off(obj_parts(t), 0));
}

#[verifier::spinoff_prover]
pub(crate) proof fn lemma_obj_end_upto_1(d: Seq<u8>, x: int, t: CubTensorSpec)
    requires
        laid(d, x, obj_parts(t)),
        x + flat(obj_parts(t)).len() < d.len(),
        name_clean(t),
    ensures
        no_hit(d, pat_end(), x, x + part_off(obj_parts(t), 2)),
{
    assert(obj_parts(t)[1] == vstd::utf8::encode_utf8(t.name@));
    assert(part_off(obj_parts(t), 2) == part_off(obj_parts(t), 1) + obj_parts(t)[1].len());
    assert(piece_at(d, x + part_off(obj_parts(t), 1), obj_parts(t)[1]));
    lemma_obj_end_upto_0(d, x, t);
    assert(obj_parts(t)[2] == tp1());
    assert(part_off(obj_parts(t), 2) == part_off(obj_parts(t), 1) + nm(t).len());
    assert(piece_at(d, x + part_off(obj_parts(t), 2), obj_parts(t)[2]));
    lemma_piece_bytes(d, x + part_off(obj_parts(t), 2), tp1());
    assert forall|i: int| 0 <= i < pat_end().len() implies pat_end()[i] != d[x + part_off(obj_parts(t), 1) + nm(t).len()] by {
        assert(d[x + part_off(obj_parts(t), 2)] == tp1()[0]);
    }
    assert forall|i: int| 0 <= i < nm(t).len() implies #[trigger] nm(t)[i] != pat_end()[3] by {}
    lemma_free_by_byte(nm(t), pat_end(), 3);
    lemma_no_hit_free(d, pat_end(), x + part_off(obj_parts(t), 1), nm(t));
}

#[verifier::spinoff_prover]
pub(crate) proof fn lemma_obj_end_upto_2(d: Seq<u8>, x: int, t: CubTensorSpec)
    requires
        laid(d, x, obj_parts(t)),
        x + flat(obj_parts(t)).len() < d.len(),
        name_clean(t),
    ensures
        no_hit(d, pat_end(), x, x + part_off(obj_parts(t), 3)),
{
    assert(obj_parts(t)[2] == tp1());
    assert(part_off(obj_parts(t), 3) == part_off(obj_parts(t), 2) + obj_parts(t)[2].len());
    assert(piece_at(d, x + part_off(obj_parts(t), 2), obj_parts(t)[2]));
    lemma_obj_end_upto_1(d, x, t);
    lemma_tp1_pat_end(d, x + part_off(obj_parts(t), 2));
}

#[verifier::spinoff_prover]
pub(crate) proof fn lemma_obj_end_upto_3(d: Seq<u8>, x: int, t: CubTensorSpec)
    requires
        laid(d, x, obj_parts(t)),
        x + flat(obj_parts(t)).len() < d.len(),
        name_clean(t),
    ensures
        no_hit(d, pat_end(), x, x + part_off(obj_parts(t), 4)),
{
    assert(obj_parts(t)[3] == dec(t.rows as nat));
    assert(part_off(obj_parts(t), 4) == part_off(obj_parts(t), 3) + obj_parts(t)[3].len());
    assert(piece_at(d, x + part_off(obj_parts(t), 3), obj_parts(t)[3]));
    lemma_obj_end_upto_2(d, x, t);
    lemma_dec_value_bytes(t.rows as nat);
    lemma_no_hit_value(d, pat_end(), x + part_off(obj_parts(t), 3), obj_parts(t)[3]);
}

#[verifier::spinoff_prover]
pub(crate) proof fn lemma_obj_end_upto_4(d: Seq<u8>, x: int, t: CubTensorSpec)
    requires
        laid(d, x, obj_parts(t)),
        x + flat(obj_parts(t)).len() < d.len(),
        name_clean(t),
    ensures
        no_hit(d, pat_end(), x, x + part_off(obj_parts(t), 5)),
{
    assert(obj_parts(t)[4] == tp2());
    assert(part_off(obj_parts(t), 5) == part_off(obj_parts(t), 4) + obj_parts(t)[4].len());
    assert(piece_at(d, x + part_off(obj_parts(t), 4), obj_parts(t)[4]));
    lemma_obj_end_upto_3(d, x, t);
    lemma_tp2_pat_end(d, x + part_off(obj_parts(t), 4));
}

#[verifier::spinoff_prover]
pub(crate) proof fn lemma_obj_end_upto_5(d: Seq<u8>, x: int, t: CubTensorSpec)
    requires
        laid(d, x, obj_parts(t)),
        x + flat(obj_parts(t)).len() < d.len(),
        name_clean(t),
    ensures
        no_hit(d, pat_end(), x, x + part_off(obj_parts(t), 6)),
{
    assert(obj_parts(t)[5] == dec(t.cols as nat));
    assert(part_off(obj_parts(t), 6) == part_off(obj_parts(t), 5) + obj_parts(t)[5].len());
    assert(piece_at(d, x + part_off(obj_parts(t), 5), obj_parts(t)[5]));
    lemma_obj_end_upto_4(d, x, t);
    lemma_dec_value_bytes(t.cols as nat);
    lemma_no_hit_value(d, pat_end(), x + part_off(obj_parts(t), 5), obj_parts(t)[5]);
}

#[verifier::spinoff_prover]
pub(crate) proof fn lemma_obj_end_upto_6(d: Seq<u8>, x: int, t: CubTensorSpec)
    requires
        laid(d, x, obj_parts(t)),
        x + flat(obj_parts(t)).len() < d.len(),
        name_clean(t),
    ensures
        no_hit(d, pat_end(), x, x + part_off(obj_parts(t), 7)),
{
    assert(obj_parts(t)[6] == tp3());
    assert(part_off(obj_parts(t), 7) == part_off(obj_parts(t), 6) + obj_parts(t)[6].len());
    assert(piece_at(d, x + part_off(obj_parts(t), 6), obj_parts(t)[6]));
    lemma_obj_end_upto_5(d, x, t);
    lemma_tp3_pat_end(d, x + part_off(obj_parts(t), 6));
}

#[verifier::spinoff_prover]
pub(crate) proof fn lemma_obj_end_upto_7(d: Seq<u8>, x: int, t: CubTensorSpec)
    requires
        laid(d, x, obj_parts(t)),
        x + flat(obj_parts(t)).len() < d.len(),
        name_clean(t),
    ensures
        no_hit(d, pat_end(), x, x + part_off(obj_parts(t), 8)),
{
    assert(obj_parts(t)[7] == idec(t.rmin as int));
    assert(part_off(obj_parts(t), 8) == part_off(obj_parts(t), 7) + obj_parts(t)[7].len());
    assert(piece_at(d, x + part_off(obj_parts(t), 7), obj_parts(t)[7]));
    lemma_obj_end_upto_6(d, x, t);
    lemma_idec_value_bytes(t.rmin as int);
    lemma_no_hit_value(d, pat_end(), x + part_off(obj_parts(t), 7), obj_parts(t)[7]);
}

#[verifier::spinoff_prover]
pub(crate) proof fn lemma_obj_end_upto_8(d: Seq<u8>, x: int, t: CubTensorSpec)
    requires
        laid(d, x, obj_parts(t)),
        x + flat(obj_parts(t)).len() < d.len(),
        name_clean(t),
    ensures
        no_hit(d, pat_end(), x, x + part_off(obj_parts(t), 9)),
{
    assert(obj_parts(t)[8] == tp4());
    assert(part_off(obj_parts(t), 9) == part_off(obj_parts(t), 8) + obj_parts(t)[8].len());
    assert(piece_at(d, x + part_off(obj_parts(t), 8), obj_parts(t)[8]));
    lemma_obj_end_upto_7(d, x, t);
    lemma_tp4_pat_end(d, x + part_off(obj_parts(t), 8));
}

#[verifier::spinoff_prover]
pub(crate) proof fn lemma_obj_end_upto_9(d: Seq<u8>, x: int, t: CubTensorSpec)
    requires
        laid(d, x, obj_parts(t)),
        x + flat(obj_parts(t)).len() < d.len(),
        name_clean(t),
    ensures
        no_hit(d, pat_end(), x, x + part_off(obj_parts(t), 10)),
{
    assert(obj_parts(t)[9] == idec(t.rmax as int));
    assert(part_off(obj_parts(t), 10) == part_off(obj_parts(t), 9) + obj_parts(t)[9].len());
    assert(piece_at(d, x + part_off(obj_parts(t), 9), obj_parts(t)[9]));
    lemma_obj_end_upto_8(d, x, t);
    lemma_idec_value_bytes(t.rmax as int);
    lemma_no_hit_value(d, pat_end(), x + part_off(obj_parts(t), 9), obj_parts(t)[9]);
}

#[verifier::spinoff_prover]
pub(crate) proof fn lemma_obj_end_upto_10(d: Seq<u8>, x: int, t: CubTensorSpec)
    requires
        laid(d, x, obj_parts(t)),
        x + flat(obj_parts(t)).len() < d.len(),
        name_clean(t),
    ensures
        no_hit(d, pat_end(), x, x + part_off(obj_parts(t), 11)),
{
    assert(obj_parts(t)[10] == tp5());
    assert(part_off(obj_parts(t), 11) == part_off(obj_parts(t), 10) + obj_parts(t)[10].len());
    assert(piece_at(d, x + part_off(obj_parts(t), 10), obj_parts(t)[10]));
    lemma_obj_end_upto_9(d, x, t);
    lemma_tp5_pat_end(d, x + part_off(obj_parts(t), 10));
}

#[verifier::spinoff_prover]
pub(crate) proof fn lemma_obj_end_upto_11(d: Seq<u8>, x: int, t: CubTensorSpec)
    requires
        laid(d, x, obj_parts(t)),
        x + flat(obj_parts(t)).len() < d.len(),
        name_clean(t),
    ensures
        no_hit(d, pat_end(), x, x + part_off(obj_parts(t), 12)),
{
    assert(obj_parts(t)[11] == dec(((t.rmax - t.rmin + 1) as usize) as nat));
    assert(part_off(obj_parts(t), 12) == part_off(obj_parts(t), 11) + obj_parts(t)[11].len());
    assert(piece_at(d, x + part_off(obj_parts(t), 11), obj_parts(t)[11]));
    lemma_obj_end_upto_10(d, x, t);
    lemma_dec_value_bytes(((t.rmax - t.rmin + 1) as usize) as nat);
    lemma_no_hit_value(d, pat_end(), x + part_off(obj_parts(t), 11), obj_parts(t)[11]);
}

#[verifier::spinoff_prover]
pub(crate) proof fn lemma_obj_end_upto_12(d: Seq<u8>, x: int, t: CubTensorSpec)
    requires
        laid(d, x, obj_parts(t)),
        x + flat(obj_parts(t)).len() < d.len(),
        name_clean(t),
    ensures
        no_hit(d, pat_end(), x, x + part_off(obj_parts(t), 13)),
{
    assert(obj_parts(t)[12] == tp6());
    assert(part_off(obj_parts(t), 13) == part_off(obj_parts(t), 12) + obj_parts(t)[12].len());
    assert(piece_at(d, x + part_off(obj_parts(t), 12), obj_parts(t)[12]));
    lemma_obj_end_upto_11(d, x, t);
    lemma_tp6_pat_end(d, x + part_off(obj_parts(t), 12));
}

#[verifier::spinoff_prover]
pub(crate) proof fn lemma_obj_end_upto_13(d: Seq<u8>, x: int, t: CubTensorSpec)
    requires
        laid(d, x, obj_parts(t)),
        x + flat(obj_parts(t)).len() < d.len(),
        name_clean(t),
    ensures
        no_hit(d, pat_end(), x, x + part_off(obj_parts(t), 14)),
{
    assert(obj_parts(t)[13] == dec(t.tiles as nat));
    assert(part_off(obj_parts(t), 14) == part_off(obj_parts(t), 13) + obj_parts(t)[13].len());
    assert(piece_at(d, x + part_off(obj_parts(t), 13), obj_parts(t)[13]));
    lemma_obj_end_upto_12(d, x, t);
    lemma_dec_value_bytes(t.tiles as nat);
    lemma_no_hit_value(d, pat_end(), x + part_off(obj_parts(t), 13), obj_parts(t)[13]);
}

#[verifier::spinoff_prover]
pub(crate) proof fn lemma_obj_end_upto_14(d: Seq<u8>, x: int, t: CubTensorSpec)
    requires
        laid(d, x, obj_parts(t)),
        x + flat(obj_parts(t)).len() < d.len(),
        name_clean(t),
    ensures
        no_hit(d, pat_end(), x, x + part_off(obj_parts(t), 15)),
{
    assert(obj_parts(t)[14] == tp7());
    assert(part_off(obj_parts(t), 15) == part_off(obj_parts(t), 14) + obj_parts(t)[14].len());
    assert(piece_at(d, x + part_off(obj_parts(t), 14), obj_parts(t)[14]));
    lemma_obj_end_upto_13(d, x, t);
    lemma_tp7_pat_end(d, x + part_off(obj_parts(t), 14));
}

#[verifier::spinoff_prover]
pub(crate) proof fn lemma_obj_end_upto_15(d: Seq<u8>, x: int, t: CubTensorSpec)
    requires
        laid(d, x, obj_parts(t)),
        x + flat(obj_parts(t)).len() < d.len(),
        name_clean(t),
    ensures
        no_hit(d, pat_end(), x, x + part_off(obj_parts(t), 16)),
{
    assert(obj_parts(t)[15] == dec((t.index_start + 1) as nat));
    assert(part_off(obj_parts(t), 16) == part_off(obj_parts(t), 15) + obj_parts(t)[15].len());
    assert(piece_at(d, x + part_off(obj_parts(t), 15), obj_parts(t)[15]));
    lemma_obj_end_upto_14(d, x, t);
    lemma_dec_value_bytes((t.index_start + 1) as nat);
    lemma_no_hit_value(d, pat_end(), x + part_off(obj_parts(t), 15), obj_parts(t)[15]);
}

#[verifier::spinoff_prover]
pub(crate) proof fn lemma_obj_end_upto_16(d: Seq<u8>, x: int, t: CubTensorSpec)
    requires
        laid(d, x, obj_parts(t)),
        x + flat(obj_parts(t)).len() < d.len(),
        name_clean(t),
    ensures
        no_hit(d, pat_end(), x, x + part_off(obj_parts(t), 17)),
{
    assert(obj_parts(t)[16] == tp8());
    assert(part_off(obj_parts(t), 17) == part_off(obj_parts(t), 16) + obj_parts(t)[16].len());
    assert(piece_at(d, x + part_off(obj_parts(t), 16), obj_parts(t)[16]));
    lemma_obj_end_upto_15(d, x, t);
    lemma_tp8_pat_end(d, x + part_off(obj_parts(t), 16));
}

#[verifier::spinoff_prover]
pub(crate) proof fn lemma_obj_end_upto_17(d: Seq<u8>, x: int, t: CubTensorSpec)
    requires
        laid(d, x, obj_parts(t)),
        x + flat(obj_parts(t)).len() < d.len(),
        name_clean(t),
    ensures
        no_hit(d, pat_end(), x, x + part_off(obj_parts(t), 18)),
{
    assert(obj_parts(t)[17] == dec((t.body_start + 1) as nat));
    assert(part_off(obj_parts(t), 18) == part_off(obj_parts(t), 17) + obj_parts(t)[17].len());
    assert(piece_at(d, x + part_off(obj_parts(t), 17), obj_parts(t)[17]));
    lemma_obj_end_upto_16(d, x, t);
    lemma_dec_value_bytes((t.body_start + 1) as nat);
    lemma_no_hit_value(d, pat_end(), x + part_off(obj_parts(t), 17), obj_parts(t)[17]);
}

#[verifier::spinoff_prover]
pub(crate) proof fn lemma_obj_end_upto_18(d: Seq<u8>, x: int, t: CubTensorSpec)
    requires
        laid(d, x, obj_parts(t)),
        x + flat(obj_parts(t)).len() < d.len(),
        name_clean(t),
    ensures
        no_hit(d, pat_end(), x, x + part_off(obj_parts(t), 19)),
{
    assert(obj_parts(t)[18] == tp9());
    assert(part_off(obj_parts(t), 19) == part_off(obj_parts(t), 18) + obj_parts(t)[18].len());
    assert(piece_at(d, x + part_off(obj_parts(t), 18), obj_parts(t)[18]));
    lemma_obj_end_upto_17(d, x, t);
    lemma_tp9_pat_end(d, x + part_off(obj_parts(t), 18));
}

#[verifier::spinoff_prover]
pub(crate) proof fn lemma_obj_end_upto_19(d: Seq<u8>, x: int, t: CubTensorSpec)
    requires
        laid(d, x, obj_parts(t)),
        x + flat(obj_parts(t)).len() < d.len(),
        name_clean(t),
    ensures
        no_hit(d, pat_end(), x, x + part_off(obj_parts(t), 20)),
{
    assert(obj_parts(t)[19] == dec(t.body_bytes as nat));
    assert(part_off(obj_parts(t), 20) == part_off(obj_parts(t), 19) + obj_parts(t)[19].len());
    assert(piece_at(d, x + part_off(obj_parts(t), 19), obj_parts(t)[19]));
    lemma_obj_end_upto_18(d, x, t);
    lemma_dec_value_bytes(t.body_bytes as nat);
    lemma_no_hit_value(d, pat_end(), x + part_off(obj_parts(t), 19), obj_parts(t)[19]);
}

#[verifier::spinoff_prover]
pub(crate) proof fn lemma_obj_end_upto_20(d: Seq<u8>, x: int, t: CubTensorSpec)
    requires
        laid(d, x, obj_parts(t)),
        x + flat(obj_parts(t)).len() < d.len(),
        name_clean(t),
    ensures
        no_hit(d, pat_end(), x, x + part_off(obj_parts(t), 21)),
{
    assert(obj_parts(t)[20] == tp10());
    assert(part_off(obj_parts(t), 21) == part_off(obj_parts(t), 20) + obj_parts(t)[20].len());
    assert(piece_at(d, x + part_off(obj_parts(t), 20), obj_parts(t)[20]));
    lemma_obj_end_upto_19(d, x, t);
    lemma_tp10_pat_end(d, x + part_off(obj_parts(t), 20));
}

/// The entry holds the tensor's own fields.
pub open spec fn same_entry(s: CubTensorSpec, t: CubTensorSpec) -> bool {
    &&& s.name@ == t.name@
    &&& s.rows == t.rows
    &&& s.cols == t.cols
    &&& s.rmin == t.rmin
    &&& s.rmax == t.rmax
    &&& s.tiles == t.tiles
    &&& s.index_start == t.index_start
    &&& s.body_start == t.body_start
    &&& s.body_bytes == t.body_bytes
}

/// A tensor object laid at byte x reads whole, as the tensor it was written from; reading
/// resumes at its last line break, and neither a tensor object nor the header's end begins
/// inside it but where it says "Object = Tensor".
#[verifier::spinoff_prover]
#[verifier::rlimit(100)]
pub(crate) proof fn lemma_obj_reads(d: Seq<u8>, x: int, t: CubTensorSpec)
    requires
        laid(d, x, obj_parts(t)),
        x + flat(obj_parts(t)).len() < d.len(),
        name_clean(t),
        printable(t),
    ensures
        entry_ok(d, x + 2),
        entry_next(d, x + 2) == x + part_off(obj_parts(t), 20),
        forall|s: CubTensorSpec| entry_matches(s, d, x + 2) ==> same_entry(s, t),
        matches_at(d, pat_ot(), x + 2),
        no_hit(d, pat_ot(), x, x + 2),
        no_hit(d, pat_ot(), x + part_off(obj_parts(t), 20), x + part_off(obj_parts(t), 21)),
        no_hit(d, pat_end(), x, x + part_off(obj_parts(t), 21)),
        part_off(obj_parts(t), 21) == flat(obj_parts(t)).len(),
        x + 2 < x + part_off(obj_parts(t), 20),
{
    let ps = obj_parts(t);
    lemma_read_name(d, x, t);
    lemma_read_lines(d, x, t);
    lemma_read_samples(d, x, t);
    lemma_read_rungmin(d, x, t);
    lemma_read_rungmax(d, x, t);
    lemma_read_tiles(d, x, t);
    lemma_read_indexbyte(d, x, t);
    lemma_read_bodybyte(d, x, t);
    lemma_read_bodybytes(d, x, t);
    lemma_obj_end_upto_20(d, x, t);
    vstd::utf8::encode_utf8_valid_utf8(t.name@);
    vstd::utf8::encode_utf8_decode_utf8(t.name@);
    assert(ps[0] == tp0());
    assert(ps[20] == tp10());
    assert(part_off(ps, 1) == part_off(ps, 0) + ps[0].len());
    assert(part_off(ps, 0) == 0);
    assert(piece_at(d, x + part_off(ps, 0), ps[0]));
    assert(piece_at(d, x + part_off(ps, 20), ps[20]));
    lemma_tp0_pat_ot(d, x);
    lemma_tp10_pat_ot(d, x + part_off(ps, 20));
    lemma_part_off_mono(ps, 1, 20);
    assert(ps.subrange(0, 21) =~= ps);
    lemma_flat_len(ps, 21);
    assert forall|s: CubTensorSpec| entry_matches(s, d, x + 2) implies same_entry(s, t) by {
        assert(s.name@ == decode_utf8(nm(t)));
    }
}

#[verifier::spinoff_prover]
pub(crate) proof fn lemma_label_upto_0(d: Seq<u8>, x: int, m: Seq<u8>, seal: Seq<u8>, n: nat, hl: int, fl: int)
    requires
        laid(d, x, label_parts(m, seal, n, hl, fl)),
        x + flat(label_parts(m, seal, n, hl, fl)).len() < d.len(),
        label_clean(m, seal),
    ensures
        no_hit(d, pat_ot(), x, x + part_off(label_parts(m, seal, n, hl, fl), 1)),
        no_hit(d, pat_end(), x, x + part_off(label_parts(m, seal, n, hl, fl), 1)),
{
    assert(label_parts(m, seal, n, hl, fl)[0] == lp0());
    assert(part_off(label_parts(m, seal, n, hl, fl), 1) == part_off(label_parts(m, seal, n, hl, fl), 0) + label_parts(m, seal, n, hl, fl)[0].len());
    assert(piece_at(d, x + part_off(label_parts(m, seal, n, hl, fl), 0), label_parts(m, seal, n, hl, fl)[0]));
    assert(part_off(label_parts(m, seal, n, hl, fl), 0) == 0);
    lemma_lp0(d, x + part_off(label_parts(m, seal, n, hl, fl), 0));
}

#[verifier::spinoff_prover]
pub(crate) proof fn lemma_label_upto_1(d: Seq<u8>, x: int, m: Seq<u8>, seal: Seq<u8>, n: nat, hl: int, fl: int)
    requires
        laid(d, x, label_parts(m, seal, n, hl, fl)),
        x + flat(label_parts(m, seal, n, hl, fl)).len() < d.len(),
        label_clean(m, seal),
    ensures
        no_hit(d, pat_ot(), x, x + part_off(label_parts(m, seal, n, hl, fl), 2)),
        no_hit(d, pat_end(), x, x + part_off(label_parts(m, seal, n, hl, fl), 2)),
{
    assert(label_parts(m, seal, n, hl, fl)[1] == dec((hl + 1) as nat));
    assert(part_off(label_parts(m, seal, n, hl, fl), 2) == part_off(label_parts(m, seal, n, hl, fl), 1) + label_parts(m, seal, n, hl, fl)[1].len());
    assert(piece_at(d, x + part_off(label_parts(m, seal, n, hl, fl), 1), label_parts(m, seal, n, hl, fl)[1]));
    lemma_label_upto_0(d, x, m, seal, n, hl, fl);
    lemma_dec_value_bytes((hl + 1) as nat);
    lemma_no_hit_value(d, pat_ot(), x + part_off(label_parts(m, seal, n, hl, fl), 1), label_parts(m, seal, n, hl, fl)[1]);
    lemma_no_hit_value(d, pat_end(), x + part_off(label_parts(m, seal, n, hl, fl), 1), label_parts(m, seal, n, hl, fl)[1]);
}

#[verifier::spinoff_prover]
pub(crate) proof fn lemma_label_upto_2(d: Seq<u8>, x: int, m: Seq<u8>, seal: Seq<u8>, n: nat, hl: int, fl: int)
    requires
        laid(d, x, label_parts(m, seal, n, hl, fl)),
        x + flat(label_parts(m, seal, n, hl, fl)).len() < d.len(),
        label_clean(m, seal),
    ensures
        no_hit(d, pat_ot(), x, x + part_off(label_parts(m, seal, n, hl, fl), 3)),
        no_hit(d, pat_end(), x, x + part_off(label_parts(m, seal, n, hl, fl), 3)),
{
    assert(label_parts(m, seal, n, hl, fl)[2] == lp1());
    assert(part_off(label_parts(m, seal, n, hl, fl), 3) == part_off(label_parts(m, seal, n, hl, fl), 2) + label_parts(m, seal, n, hl, fl)[2].len());
    assert(piece_at(d, x + part_off(label_parts(m, seal, n, hl, fl), 2), label_parts(m, seal, n, hl, fl)[2]));
    lemma_label_upto_1(d, x, m, seal, n, hl, fl);
    lemma_lp1(d, x + part_off(label_parts(m, seal, n, hl, fl), 2));
}

#[verifier::spinoff_prover]
pub(crate) proof fn lemma_label_upto_3(d: Seq<u8>, x: int, m: Seq<u8>, seal: Seq<u8>, n: nat, hl: int, fl: int)
    requires
        laid(d, x, label_parts(m, seal, n, hl, fl)),
        x + flat(label_parts(m, seal, n, hl, fl)).len() < d.len(),
        label_clean(m, seal),
    ensures
        no_hit(d, pat_ot(), x, x + part_off(label_parts(m, seal, n, hl, fl), 4)),
        no_hit(d, pat_end(), x, x + part_off(label_parts(m, seal, n, hl, fl), 4)),
{
    assert(label_parts(m, seal, n, hl, fl)[3] == dec(128));
    assert(part_off(label_parts(m, seal, n, hl, fl), 4) == part_off(label_parts(m, seal, n, hl, fl), 3) + label_parts(m, seal, n, hl, fl)[3].len());
    assert(piece_at(d, x + part_off(label_parts(m, seal, n, hl, fl), 3), label_parts(m, seal, n, hl, fl)[3]));
    lemma_label_upto_2(d, x, m, seal, n, hl, fl);
    lemma_dec_value_bytes(128);
    lemma_no_hit_value(d, pat_ot(), x + part_off(label_parts(m, seal, n, hl, fl), 3), label_parts(m, seal, n, hl, fl)[3]);
    lemma_no_hit_value(d, pat_end(), x + part_off(label_parts(m, seal, n, hl, fl), 3), label_parts(m, seal, n, hl, fl)[3]);
}

#[verifier::spinoff_prover]
pub(crate) proof fn lemma_label_upto_4(d: Seq<u8>, x: int, m: Seq<u8>, seal: Seq<u8>, n: nat, hl: int, fl: int)
    requires
        laid(d, x, label_parts(m, seal, n, hl, fl)),
        x + flat(label_parts(m, seal, n, hl, fl)).len() < d.len(),
        label_clean(m, seal),
    ensures
        no_hit(d, pat_ot(), x, x + part_off(label_parts(m, seal, n, hl, fl), 5)),
        no_hit(d, pat_end(), x, x + part_off(label_parts(m, seal, n, hl, fl), 5)),
{
    assert(label_parts(m, seal, n, hl, fl)[4] == lp2());
    assert(part_off(label_parts(m, seal, n, hl, fl), 5) == part_off(label_parts(m, seal, n, hl, fl), 4) + label_parts(m, seal, n, hl, fl)[4].len());
    assert(piece_at(d, x + part_off(label_parts(m, seal, n, hl, fl), 4), label_parts(m, seal, n, hl, fl)[4]));
    lemma_label_upto_3(d, x, m, seal, n, hl, fl);
    lemma_lp2(d, x + part_off(label_parts(m, seal, n, hl, fl), 4));
}

#[verifier::spinoff_prover]
pub(crate) proof fn lemma_label_upto_5(d: Seq<u8>, x: int, m: Seq<u8>, seal: Seq<u8>, n: nat, hl: int, fl: int)
    requires
        laid(d, x, label_parts(m, seal, n, hl, fl)),
        x + flat(label_parts(m, seal, n, hl, fl)).len() < d.len(),
        label_clean(m, seal),
    ensures
        no_hit(d, pat_ot(), x, x + part_off(label_parts(m, seal, n, hl, fl), 6)),
        no_hit(d, pat_end(), x, x + part_off(label_parts(m, seal, n, hl, fl), 6)),
{
    assert(label_parts(m, seal, n, hl, fl)[5] == m);
    assert(part_off(label_parts(m, seal, n, hl, fl), 6) == part_off(label_parts(m, seal, n, hl, fl), 5) + label_parts(m, seal, n, hl, fl)[5].len());
    assert(piece_at(d, x + part_off(label_parts(m, seal, n, hl, fl), 5), label_parts(m, seal, n, hl, fl)[5]));
    lemma_label_upto_4(d, x, m, seal, n, hl, fl);
    assert(label_parts(m, seal, n, hl, fl)[6] == lp3());
    assert(part_off(label_parts(m, seal, n, hl, fl), 7) == part_off(label_parts(m, seal, n, hl, fl), 6) + label_parts(m, seal, n, hl, fl)[6].len());
    assert(piece_at(d, x + part_off(label_parts(m, seal, n, hl, fl), 6), label_parts(m, seal, n, hl, fl)[6]));
    lemma_piece_bytes(d, x + part_off(label_parts(m, seal, n, hl, fl), 6), lp3());
    assert(d[x + part_off(label_parts(m, seal, n, hl, fl), 6)] == lp3()[0]);
    assert forall|i: int| 0 <= i < pat_ot().len() implies pat_ot()[i] != d[x + part_off(label_parts(m, seal, n, hl, fl), 5) + m.len()] by {}
    lemma_no_hit_free(d, pat_ot(), x + part_off(label_parts(m, seal, n, hl, fl), 5), m);
    assert forall|i: int| 0 <= i < pat_end().len() implies pat_end()[i] != d[x + part_off(label_parts(m, seal, n, hl, fl), 5) + m.len()] by {}
    lemma_no_hit_free(d, pat_end(), x + part_off(label_parts(m, seal, n, hl, fl), 5), m);
}

#[verifier::spinoff_prover]
pub(crate) proof fn lemma_label_upto_6(d: Seq<u8>, x: int, m: Seq<u8>, seal: Seq<u8>, n: nat, hl: int, fl: int)
    requires
        laid(d, x, label_parts(m, seal, n, hl, fl)),
        x + flat(label_parts(m, seal, n, hl, fl)).len() < d.len(),
        label_clean(m, seal),
    ensures
        no_hit(d, pat_ot(), x, x + part_off(label_parts(m, seal, n, hl, fl), 7)),
        no_hit(d, pat_end(), x, x + part_off(label_parts(m, seal, n, hl, fl), 7)),
{
    assert(label_parts(m, seal, n, hl, fl)[6] == lp3());
    assert(part_off(label_parts(m, seal, n, hl, fl), 7) == part_off(label_parts(m, seal, n, hl, fl), 6) + label_parts(m, seal, n, hl, fl)[6].len());
    assert(piece_at(d, x + part_off(label_parts(m, seal, n, hl, fl), 6), label_parts(m, seal, n, hl, fl)[6]));
    lemma_label_upto_5(d, x, m, seal, n, hl, fl);
    lemma_lp3(d, x + part_off(label_parts(m, seal, n, hl, fl), 6));
}

#[verifier::spinoff_prover]
pub(crate) proof fn lemma_label_upto_7(d: Seq<u8>, x: int, m: Seq<u8>, seal: Seq<u8>, n: nat, hl: int, fl: int)
    requires
        laid(d, x, label_parts(m, seal, n, hl, fl)),
        x + flat(label_parts(m, seal, n, hl, fl)).len() < d.len(),
        label_clean(m, seal),
    ensures
        no_hit(d, pat_ot(), x, x + part_off(label_parts(m, seal, n, hl, fl), 8)),
        no_hit(d, pat_end(), x, x + part_off(label_parts(m, seal, n, hl, fl), 8)),
{
    assert(label_parts(m, seal, n, hl, fl)[7] == seal);
    assert(part_off(label_parts(m, seal, n, hl, fl), 8) == part_off(label_parts(m, seal, n, hl, fl), 7) + label_parts(m, seal, n, hl, fl)[7].len());
    assert(piece_at(d, x + part_off(label_parts(m, seal, n, hl, fl), 7), label_parts(m, seal, n, hl, fl)[7]));
    lemma_label_upto_6(d, x, m, seal, n, hl, fl);
    assert(label_parts(m, seal, n, hl, fl)[8] == lp4());
    assert(part_off(label_parts(m, seal, n, hl, fl), 9) == part_off(label_parts(m, seal, n, hl, fl), 8) + label_parts(m, seal, n, hl, fl)[8].len());
    assert(piece_at(d, x + part_off(label_parts(m, seal, n, hl, fl), 8), label_parts(m, seal, n, hl, fl)[8]));
    lemma_piece_bytes(d, x + part_off(label_parts(m, seal, n, hl, fl), 8), lp4());
    assert(d[x + part_off(label_parts(m, seal, n, hl, fl), 8)] == lp4()[0]);
    assert forall|i: int| 0 <= i < pat_ot().len() implies pat_ot()[i] != d[x + part_off(label_parts(m, seal, n, hl, fl), 7) + seal.len()] by {}
    lemma_no_hit_free(d, pat_ot(), x + part_off(label_parts(m, seal, n, hl, fl), 7), seal);
    assert(d.subrange(x + part_off(label_parts(m, seal, n, hl, fl), 7) + seal.len(), x + part_off(label_parts(m, seal, n, hl, fl), 7) + seal.len() + 1) =~= seq![10u8]);
    assert(d[x + part_off(label_parts(m, seal, n, hl, fl), 8) + 1] == lp4()[1]);
    lemma_join(d, x + part_off(label_parts(m, seal, n, hl, fl), 7), seal, seq![10u8]);
    assert forall|i: int| 0 <= i < pat_end().len() implies pat_end()[i] != d[x + part_off(label_parts(m, seal, n, hl, fl), 7) + (seal + seq![10u8]).len()] by {}
    lemma_no_hit_free(d, pat_end(), x + part_off(label_parts(m, seal, n, hl, fl), 7), seal + seq![10u8]);
}

#[verifier::spinoff_prover]
pub(crate) proof fn lemma_label_upto_8(d: Seq<u8>, x: int, m: Seq<u8>, seal: Seq<u8>, n: nat, hl: int, fl: int)
    requires
        laid(d, x, label_parts(m, seal, n, hl, fl)),
        x + flat(label_parts(m, seal, n, hl, fl)).len() < d.len(),
        label_clean(m, seal),
    ensures
        no_hit(d, pat_ot(), x, x + part_off(label_parts(m, seal, n, hl, fl), 9)),
        no_hit(d, pat_end(), x, x + part_off(label_parts(m, seal, n, hl, fl), 9)),
{
    assert(label_parts(m, seal, n, hl, fl)[8] == lp4());
    assert(part_off(label_parts(m, seal, n, hl, fl), 9) == part_off(label_parts(m, seal, n, hl, fl), 8) + label_parts(m, seal, n, hl, fl)[8].len());
    assert(piece_at(d, x + part_off(label_parts(m, seal, n, hl, fl), 8), label_parts(m, seal, n, hl, fl)[8]));
    lemma_label_upto_7(d, x, m, seal, n, hl, fl);
    lemma_lp4(d, x + part_off(label_parts(m, seal, n, hl, fl), 8));
}

#[verifier::spinoff_prover]
pub(crate) proof fn lemma_label_upto_9(d: Seq<u8>, x: int, m: Seq<u8>, seal: Seq<u8>, n: nat, hl: int, fl: int)
    requires
        laid(d, x, label_parts(m, seal, n, hl, fl)),
        x + flat(label_parts(m, seal, n, hl, fl)).len() < d.len(),
        label_clean(m, seal),
    ensures
        no_hit(d, pat_ot(), x, x + part_off(label_parts(m, seal, n, hl, fl), 10)),
        no_hit(d, pat_end(), x, x + part_off(label_parts(m, seal, n, hl, fl), 10)),
{
    assert(label_parts(m, seal, n, hl, fl)[9] == dec(n));
    assert(part_off(label_parts(m, seal, n, hl, fl), 10) == part_off(label_parts(m, seal, n, hl, fl), 9) + label_parts(m, seal, n, hl, fl)[9].len());
    assert(piece_at(d, x + part_off(label_parts(m, seal, n, hl, fl), 9), label_parts(m, seal, n, hl, fl)[9]));
    lemma_label_upto_8(d, x, m, seal, n, hl, fl);
    lemma_dec_value_bytes(n);
    lemma_no_hit_value(d, pat_ot(), x + part_off(label_parts(m, seal, n, hl, fl), 9), label_parts(m, seal, n, hl, fl)[9]);
    lemma_no_hit_value(d, pat_end(), x + part_off(label_parts(m, seal, n, hl, fl), 9), label_parts(m, seal, n, hl, fl)[9]);
}

#[verifier::spinoff_prover]
pub(crate) proof fn lemma_label_upto_10(d: Seq<u8>, x: int, m: Seq<u8>, seal: Seq<u8>, n: nat, hl: int, fl: int)
    requires
        laid(d, x, label_parts(m, seal, n, hl, fl)),
        x + flat(label_parts(m, seal, n, hl, fl)).len() < d.len(),
        label_clean(m, seal),
    ensures
        no_hit(d, pat_ot(), x, x + part_off(label_parts(m, seal, n, hl, fl), 11)),
        no_hit(d, pat_end(), x, x + part_off(label_parts(m, seal, n, hl, fl), 11)),
{
    assert(label_parts(m, seal, n, hl, fl)[10] == lp5());
    assert(part_off(label_parts(m, seal, n, hl, fl), 11) == part_off(label_parts(m, seal, n, hl, fl), 10) + label_parts(m, seal, n, hl, fl)[10].len());
    assert(piece_at(d, x + part_off(label_parts(m, seal, n, hl, fl), 10), label_parts(m, seal, n, hl, fl)[10]));
    lemma_label_upto_9(d, x, m, seal, n, hl, fl);
    lemma_lp5(d, x + part_off(label_parts(m, seal, n, hl, fl), 10));
}

#[verifier::spinoff_prover]
pub(crate) proof fn lemma_label_upto_11(d: Seq<u8>, x: int, m: Seq<u8>, seal: Seq<u8>, n: nat, hl: int, fl: int)
    requires
        laid(d, x, label_parts(m, seal, n, hl, fl)),
        x + flat(label_parts(m, seal, n, hl, fl)).len() < d.len(),
        label_clean(m, seal),
    ensures
        no_hit(d, pat_ot(), x, x + part_off(label_parts(m, seal, n, hl, fl), 12)),
        no_hit(d, pat_end(), x, x + part_off(label_parts(m, seal, n, hl, fl), 12)),
{
    assert(label_parts(m, seal, n, hl, fl)[11] == dec(fl as nat));
    assert(part_off(label_parts(m, seal, n, hl, fl), 12) == part_off(label_parts(m, seal, n, hl, fl), 11) + label_parts(m, seal, n, hl, fl)[11].len());
    assert(piece_at(d, x + part_off(label_parts(m, seal, n, hl, fl), 11), label_parts(m, seal, n, hl, fl)[11]));
    lemma_label_upto_10(d, x, m, seal, n, hl, fl);
    lemma_dec_value_bytes(fl as nat);
    lemma_no_hit_value(d, pat_ot(), x + part_off(label_parts(m, seal, n, hl, fl), 11), label_parts(m, seal, n, hl, fl)[11]);
    lemma_no_hit_value(d, pat_end(), x + part_off(label_parts(m, seal, n, hl, fl), 11), label_parts(m, seal, n, hl, fl)[11]);
}

#[verifier::spinoff_prover]
pub(crate) proof fn lemma_label_upto_12(d: Seq<u8>, x: int, m: Seq<u8>, seal: Seq<u8>, n: nat, hl: int, fl: int)
    requires
        laid(d, x, label_parts(m, seal, n, hl, fl)),
        x + flat(label_parts(m, seal, n, hl, fl)).len() < d.len(),
        label_clean(m, seal),
    ensures
        no_hit(d, pat_ot(), x, x + part_off(label_parts(m, seal, n, hl, fl), 13)),
        no_hit(d, pat_end(), x, x + part_off(label_parts(m, seal, n, hl, fl), 13)),
{
    assert(label_parts(m, seal, n, hl, fl)[12] == lp6());
    assert(part_off(label_parts(m, seal, n, hl, fl), 13) == part_off(label_parts(m, seal, n, hl, fl), 12) + label_parts(m, seal, n, hl, fl)[12].len());
    assert(piece_at(d, x + part_off(label_parts(m, seal, n, hl, fl), 12), label_parts(m, seal, n, hl, fl)[12]));
    lemma_label_upto_11(d, x, m, seal, n, hl, fl);
    lemma_lp6(d, x + part_off(label_parts(m, seal, n, hl, fl), 12));
}

#[verifier::spinoff_prover]
pub(crate) proof fn lemma_obj_pre(pre: Seq<u8>, t: CubTensorSpec)
    ensures
        tensor_onto(pre, t) == pre + tensor_onto(seq![], t),
{
    reveal(tensor_onto);
    let p0 = pre + "  Object = Tensor\n".spec_bytes();
    let q0 = Seq::<u8>::empty() + "  Object = Tensor\n".spec_bytes();
    assert(q0 =~= "  Object = Tensor\n".spec_bytes());
    let p1 = p0 + "    Name       = \"".spec_bytes();
    let q1 = q0 + "    Name       = \"".spec_bytes();
    lemma_add_assoc(pre, q0, "    Name       = \"".spec_bytes());
    let p2 = p1 + vstd::utf8::encode_utf8(t.name@);
    let q2 = q1 + vstd::utf8::encode_utf8(t.name@);
    lemma_add_assoc(pre, q1, vstd::utf8::encode_utf8(t.name@));
    let p3 = p2 + "\"\n".spec_bytes();
    let q3 = q2 + "\"\n".spec_bytes();
    lemma_add_assoc(pre, q2, "\"\n".spec_bytes());
    let p4 = p3 + "    Lines      = ".spec_bytes();
    let q4 = q3 + "    Lines      = ".spec_bytes();
    lemma_add_assoc(pre, q3, "    Lines      = ".spec_bytes());
    let p5 = p4 + dec(t.rows as nat);
    let q5 = q4 + dec(t.rows as nat);
    lemma_add_assoc(pre, q4, dec(t.rows as nat));
    let p6 = p5 + "\n    Samples    = ".spec_bytes();
    let q6 = q5 + "\n    Samples    = ".spec_bytes();
    lemma_add_assoc(pre, q5, "\n    Samples    = ".spec_bytes());
    let p7 = p6 + dec(t.cols as nat);
    let q7 = q6 + dec(t.cols as nat);
    lemma_add_assoc(pre, q6, dec(t.cols as nat));
    let p8 = p7 + "\n".spec_bytes();
    let q8 = q7 + "\n".spec_bytes();
    lemma_add_assoc(pre, q7, "\n".spec_bytes());
    let p9 = p8 + "    RungMin    = ".spec_bytes();
    let q9 = q8 + "    RungMin    = ".spec_bytes();
    lemma_add_assoc(pre, q8, "    RungMin    = ".spec_bytes());
    let p10 = p9 + idec(t.rmin as int);
    let q10 = q9 + idec(t.rmin as int);
    lemma_add_assoc(pre, q9, idec(t.rmin as int));
    let p11 = p10 + "\n    RungMax    = ".spec_bytes();
    let q11 = q10 + "\n    RungMax    = ".spec_bytes();
    lemma_add_assoc(pre, q10, "\n    RungMax    = ".spec_bytes());
    let p12 = p11 + idec(t.rmax as int);
    let q12 = q11 + idec(t.rmax as int);
    lemma_add_assoc(pre, q11, idec(t.rmax as int));
    let p13 = p12 + "\n    Bands      = ".spec_bytes();
    let q13 = q12 + "\n    Bands      = ".spec_bytes();
    lemma_add_assoc(pre, q12, "\n    Bands      = ".spec_bytes());
    let p14 = p13 + dec(((t.rmax - t.rmin + 1) as usize) as nat);
    let q14 = q13 + dec(((t.rmax - t.rmin + 1) as usize) as nat);
    lemma_add_assoc(pre, q13, dec(((t.rmax - t.rmin + 1) as usize) as nat));
    let p15 = p14 + "\n".spec_bytes();
    let q15 = q14 + "\n".spec_bytes();
    lemma_add_assoc(pre, q14, "\n".spec_bytes());
    let p16 = p15 + "    Tiles      = ".spec_bytes();
    let q16 = q15 + "    Tiles      = ".spec_bytes();
    lemma_add_assoc(pre, q15, "    Tiles      = ".spec_bytes());
    let p17 = p16 + dec(t.tiles as nat);
    let q17 = q16 + dec(t.tiles as nat);
    lemma_add_assoc(pre, q16, dec(t.tiles as nat));
    let p18 = p17 + "\n    IndexByte  = ".spec_bytes();
    let q18 = q17 + "\n    IndexByte  = ".spec_bytes();
    lemma_add_assoc(pre, q17, "\n    IndexByte  = ".spec_bytes());
    let p19 = p18 + dec((t.index_start + 1) as nat);
    let q19 = q18 + dec((t.index_start + 1) as nat);
    lemma_add_assoc(pre, q18, dec((t.index_start + 1) as nat));
    let p20 = p19 + "\n    BodyByte   = ".spec_bytes();
    let q20 = q19 + "\n    BodyByte   = ".spec_bytes();
    lemma_add_assoc(pre, q19, "\n    BodyByte   = ".spec_bytes());
    let p21 = p20 + dec((t.body_start + 1) as nat);
    let q21 = q20 + dec((t.body_start + 1) as nat);
    lemma_add_assoc(pre, q20, dec((t.body_start + 1) as nat));
    let p22 = p21 + "\n    BodyBytes  = ".spec_bytes();
    let q22 = q21 + "\n    BodyBytes  = ".spec_bytes();
    lemma_add_assoc(pre, q21, "\n    BodyBytes  = ".spec_bytes());
    let p23 = p22 + dec(t.body_bytes as nat);
    let q23 = q22 + dec(t.body_bytes as nat);
    lemma_add_assoc(pre, q22, dec(t.body_bytes as nat));
    let p24 = p23 + "\n".spec_bytes();
    let q24 = q23 + "\n".spec_bytes();
    lemma_add_assoc(pre, q23, "\n".spec_bytes());
    let p25 = p24 + "  End_Object\n".spec_bytes();
    let q25 = q24 + "  End_Object\n".spec_bytes();
    lemma_add_assoc(pre, q24, "  End_Object\n".spec_bytes());
    assert(tensor_onto(pre, t) == p25);
    assert(tensor_onto(seq![], t) == q25);
}

// ── reading the whole header ─────────────────────────────────────────────────

/// A model id and intake seal the header can carry: neither holds a tensor object or the
/// header's end, nor does the seal end where its line break would close the header.
pub open spec fn label_clean(m: Seq<u8>, seal: Seq<u8>) -> bool {
    &&& free_of(m, pat_ot())
    &&& free_of(m, pat_end())
    &&& free_of(seal, pat_ot())
    &&& free_of(seal + seq![10u8], pat_end())
}

pub(crate) proof fn lemma_tensors_grow(pre: Seq<u8>, specs: Seq<CubTensorSpec>, k: int)
    requires
        0 <= k,
    ensures
        tensors_onto(pre, specs, k + 1) == tensors_onto(pre, specs, k) + flat(obj_parts(specs[k])),
{
    lemma_obj_pre(tensors_onto(pre, specs, k), specs[k]);
    lemma_obj_flat(specs[k]);
}

pub(crate) proof fn lemma_tensors_prefix(pre: Seq<u8>, specs: Seq<CubTensorSpec>, j: int, n: int)
    requires
        0 <= j <= n,
    ensures
        is_prefix(tensors_onto(pre, specs, j), tensors_onto(pre, specs, n)),
    decreases n - j,
{
    if j == n {
        lemma_prefix_self(tensors_onto(pre, specs, n));
    } else {
        lemma_tensors_prefix(pre, specs, j + 1, n);
        lemma_tensors_grow(pre, specs, j);
        lemma_prefix_add(tensors_onto(pre, specs, j), flat(obj_parts(specs[j])));
        lemma_prefix_trans(tensors_onto(pre, specs, j), tensors_onto(pre, specs, j + 1), tensors_onto(pre, specs, n));
    }
}

pub(crate) proof fn lemma_tensors_len(pre: Seq<u8>, specs: Seq<CubTensorSpec>, k: int)
    requires
        0 <= k,
    ensures
        tensors_onto(pre, specs, k).len() >= pre.len(),
    decreases k,
{
    if k > 0 {
        lemma_tensors_len(pre, specs, k - 1);
        lemma_tensors_grow(pre, specs, k - 1);
    }
}

/// Tensor object k stands in `d` where the header text (a prefix of `d`) puts it.
pub(crate) proof fn lemma_obj_in(d: Seq<u8>, pre: Seq<u8>, specs: Seq<CubTensorSpec>, n: int, k: int)
    requires
        0 <= k < n,
        is_prefix(tensors_onto(pre, specs, n), d),
    ensures
        laid(d, tensors_onto(pre, specs, k).len() as int, obj_parts(specs[k])),
        tensors_onto(pre, specs, k + 1).len() == tensors_onto(pre, specs, k).len() + flat(obj_parts(specs[k])).len(),
{
    lemma_tensors_grow(pre, specs, k);
    lemma_piece_last(tensors_onto(pre, specs, k), flat(obj_parts(specs[k])));
    lemma_tensors_prefix(pre, specs, k + 1, n);
    lemma_prefix_trans(tensors_onto(pre, specs, k + 1), tensors_onto(pre, specs, n), d);
    lemma_piece_prefix(tensors_onto(pre, specs, k + 1), d, tensors_onto(pre, specs, k).len() as int, flat(obj_parts(specs[k])));
    lemma_laid(d, tensors_onto(pre, specs, k).len() as int, obj_parts(specs[k]));
}

/// Every tensor of the header can be carried by it.
pub open spec fn specs_clean(specs: Seq<CubTensorSpec>) -> bool {
    forall|i: int| 0 <= i < specs.len() ==> name_clean(#[trigger] specs[i]) && printable(specs[i])
}

/// Where reading resumes before tensor k: the top of the text, or the last line break of the
/// object before it.
pub open spec fn resume_at(pre: Seq<u8>, specs: Seq<CubTensorSpec>, k: int) -> int {
    if k <= 0 {
        0
    } else {
        tensors_onto(pre, specs, k - 1).len() + part_off(obj_parts(specs[k - 1]), 20)
    }
}

/// The objects' bases from tensor k on.
pub open spec fn bases_from(pre: Seq<u8>, specs: Seq<CubTensorSpec>, k: int) -> Seq<int>
    decreases specs.len() - k,
{
    if k < 0 || k >= specs.len() {
        seq![]
    } else {
        seq![(tensors_onto(pre, specs, k).len() + 2) as int] + bases_from(pre, specs, k + 1)
    }
}

} // verus!
