//! Opening what was written: the cube that `cube_bytes` writes opens, its header reads back
//! every tensor entry it was written from, and each tile block stands where the entry and the
//! tile index say.

use vstd::prelude::*;
use vstd::string::StringSliceAdditionalSpecFns;
use vstd::utf8::{encode_utf8, valid_utf8};

use crate::cub::CubTensorSpec;
use crate::fold::TensorFold;
use crate::cubfile::{
    base_specs, bodies_of, ceil64, cubable, cube_file, cube_fits, cube_specs, file_end, first_h, index_of, lemma_placed_printable, pad,
    placed, printable, settle, settle_fits, lemma_before_mono, text_at, dec, idec, bodies_fit, bytes_before, fold_body, le_seq, tile_index, tile_of,
    tiles_before, entry_matches, entry_next, entry_ok, header_end, header_text, label_onto, tensor_bases, tensors_ok, tensors_onto};
use crate::cubtrip::{
    lemma_dec_value_bytes, lemma_idec_value_bytes, tp0, tp1, tp2, tp3, tp4, tp5, tp6, tp7, tp8, tp9, tp10, lp0, lp1, lp2, lp3,
    lp4, lp5, lp6, nm, lemma_obj_flat, name_clean,
    bases_from, flat, is_prefix, label_clean, label_parts, laid, lemma_find_first, lemma_find_none, lemma_label_flat,
    lemma_label_upto_12, lemma_laid, lemma_lit_37, lemma_lit_38, lemma_obj_in, lemma_obj_reads, lemma_piece_last,
    lemma_prefix_add, lemma_prefix_self, lemma_sub_piece, lemma_prefix_trans, lemma_piece_prefix, lemma_tensors_len, lemma_tensors_prefix,
    lemma_trailer, lemma_lit_27, no_hit, obj_parts, part_off, pat_end, pat_ot, piece_at, resume_at, same_entry, specs_clean,
    trailer, lemma_flat_len, lemma_tensors_grow,
};
use crate::surfaces::{find_from, matches_at};

verus! {

proof fn lemma_header(m: Seq<u8>, seal: Seq<u8>, specs: Seq<CubTensorSpec>, hl: int, fl: int)
    ensures
        header_text(m, seal, specs, hl, fl) == tensors_onto(
            label_onto(seq![], m, seal, specs.len(), hl, fl),
            specs,
            specs.len() as int,
        ) + trailer(),
{
    reveal(header_text);
    lemma_lit_27();
}

/// The text before tensor k's object, from where reading resumes, holds no tensor object.
#[verifier::spinoff_prover]
#[verifier::rlimit(100)]
proof fn lemma_before_obj(t: Seq<u8>, lab: Seq<u8>, specs: Seq<CubTensorSpec>, k: int)
    requires
        0 <= k <= specs.len(),
        t == tensors_onto(lab, specs, specs.len() as int) + trailer(),
        specs_clean(specs),
        no_hit(t, pat_ot(), 0, lab.len() as int),
    ensures
        no_hit(t, pat_ot(), resume_at(lab, specs, k), tensors_onto(lab, specs, k).len() as int),
        0 <= resume_at(lab, specs, k) <= tensors_onto(lab, specs, k).len(),
{
    let n = specs.len() as int;
    lemma_prefix_add(tensors_onto(lab, specs, n), trailer());
    if k > 0 {
        lemma_obj_in(t, lab, specs, n, k - 1);
        lemma_tensors_len(lab, specs, k - 1);
        lemma_tensors_prefix(lab, specs, k, n);
        lemma_obj_reads(t, tensors_onto(lab, specs, k - 1).len() as int, specs[k - 1]);
        let x0 = tensors_onto(lab, specs, k - 1).len() as int;
        let ps = obj_parts(specs[k - 1]);
        assert(resume_at(lab, specs, k) == x0 + part_off(ps, 20));
        assert(tensors_onto(lab, specs, k).len() == x0 + part_off(ps, 21));
        assert(part_off(ps, 20) <= part_off(ps, 21));
    }
}

/// From where reading resumes before tensor k, the next tensor object read is k's, whole.
#[verifier::spinoff_prover]
proof fn lemma_next_obj(t: Seq<u8>, lab: Seq<u8>, specs: Seq<CubTensorSpec>, k: int)
    requires
        0 <= k < specs.len(),
        t == tensors_onto(lab, specs, specs.len() as int) + trailer(),
        specs_clean(specs),
        no_hit(t, pat_ot(), 0, lab.len() as int),
    ensures
        find_from(t, "Object = Tensor".spec_bytes(), resume_at(lab, specs, k)) == Some(tensors_onto(lab, specs, k).len() as int + 2),
        entry_ok(t, tensors_onto(lab, specs, k).len() as int + 2),
        entry_next(t, tensors_onto(lab, specs, k).len() as int + 2) == resume_at(lab, specs, k + 1),
        resume_at(lab, specs, k) < resume_at(lab, specs, k + 1) <= t.len(),
        forall|s: CubTensorSpec| entry_matches(s, t, tensors_onto(lab, specs, k).len() as int + 2) ==> same_entry(s, specs[k]),
{
    let n = specs.len() as int;
    lemma_lit_37();
    lemma_prefix_add(tensors_onto(lab, specs, n), trailer());
    lemma_before_obj(t, lab, specs, k);
    lemma_obj_in(t, lab, specs, n, k);
    lemma_tensors_prefix(lab, specs, k + 1, n);
    let xk = tensors_onto(lab, specs, k).len() as int;
    lemma_obj_reads(t, xk, specs[k]);
    lemma_find_first(t, pat_ot(), resume_at(lab, specs, k), xk + 2);
}

/// Past the last tensor no tensor object is read.
#[verifier::spinoff_prover]
proof fn lemma_no_more(t: Seq<u8>, lab: Seq<u8>, specs: Seq<CubTensorSpec>)
    requires
        t == tensors_onto(lab, specs, specs.len() as int) + trailer(),
        specs_clean(specs),
        no_hit(t, pat_ot(), 0, lab.len() as int),
    ensures
        find_from(t, "Object = Tensor".spec_bytes(), resume_at(lab, specs, specs.len() as int)) is None,
{
    let n = specs.len() as int;
    let pn = tensors_onto(lab, specs, n);
    lemma_lit_37();
    lemma_piece_last(pn, trailer());
    lemma_before_obj(t, lab, specs, n);
    lemma_trailer(t, pn.len() as int);
    let r = resume_at(lab, specs, n);
    assert(no_hit(t, pat_ot(), r, t.len() as int + 1));
    lemma_find_none(t, pat_ot(), r);
}

/// Reading tensor objects from where tensor k's reading resumes gives objects k.. in order.
proof fn lemma_parse_from(t: Seq<u8>, lab: Seq<u8>, specs: Seq<CubTensorSpec>, k: int)
    requires
        0 <= k <= specs.len(),
        t == tensors_onto(lab, specs, specs.len() as int) + trailer(),
        specs_clean(specs),
        no_hit(t, pat_ot(), 0, lab.len() as int),
    ensures
        tensors_ok(t, resume_at(lab, specs, k)),
        tensor_bases(t, resume_at(lab, specs, k)) == bases_from(lab, specs, k),
    decreases specs.len() - k,
{
    if k < specs.len() {
        lemma_next_obj(t, lab, specs, k);
        lemma_parse_from(t, lab, specs, k + 1);
        lemma_lit_37();
    } else {
        lemma_no_more(t, lab, specs);
        lemma_lit_37();
    }
}

/// The bases read are the objects' own, in order.
proof fn lemma_bases_from(lab: Seq<u8>, specs: Seq<CubTensorSpec>, k: int)
    requires
        0 <= k <= specs.len(),
    ensures
        bases_from(lab, specs, k).len() == specs.len() - k,
        forall|i: int| k <= i < specs.len() ==> #[trigger] bases_from(lab, specs, k)[i - k] == tensors_onto(lab, specs, i).len() + 2,
    decreases specs.len() - k,
{
    if k < specs.len() {
        lemma_bases_from(lab, specs, k + 1);
        assert forall|i: int| k <= i < specs.len() implies #[trigger] bases_from(lab, specs, k)[i - k] == tensors_onto(lab, specs, i).len() + 2 by {
            if i > k {
                assert(bases_from(lab, specs, k)[i - k] == bases_from(lab, specs, k + 1)[i - (k + 1)]);
            }
        }
    }
}

/// No header end inside the tensor objects before tensor k.
proof fn lemma_end_objs(d: Seq<u8>, lab: Seq<u8>, specs: Seq<CubTensorSpec>, k: int)
    requires
        0 <= k <= specs.len(),
        is_prefix(tensors_onto(lab, specs, specs.len() as int), d),
        tensors_onto(lab, specs, specs.len() as int).len() < d.len(),
        specs_clean(specs),
    ensures
        no_hit(d, pat_end(), lab.len() as int, tensors_onto(lab, specs, k).len() as int),
        lab.len() <= tensors_onto(lab, specs, k).len(),
    decreases k,
{
    lemma_tensors_len(lab, specs, k);
    if k > 0 {
        let n = specs.len() as int;
        lemma_end_objs(d, lab, specs, k - 1);
        lemma_obj_in(d, lab, specs, n, k - 1);
        lemma_tensors_prefix(lab, specs, k, n);
        lemma_obj_reads(d, tensors_onto(lab, specs, k - 1).len() as int, specs[k - 1]);
    }
}

/// The label laid at the top of `d`, and nothing in it a tensor object or the header's end.
#[verifier::spinoff_prover]
proof fn lemma_label_clear(d: Seq<u8>, m: Seq<u8>, seal: Seq<u8>, n: nat, hl: int, fl: int)
    requires
        is_prefix(label_onto(seq![], m, seal, n, hl, fl), d),
        label_onto(seq![], m, seal, n, hl, fl).len() < d.len(),
        label_clean(m, seal),
    ensures
        no_hit(d, pat_ot(), 0, label_onto(seq![], m, seal, n, hl, fl).len() as int),
        no_hit(d, pat_end(), 0, label_onto(seq![], m, seal, n, hl, fl).len() as int),
{
    let ps = label_parts(m, seal, n, hl, fl);
    lemma_label_flat(m, seal, n, hl, fl);
    let lab = flat(ps);
    assert(d.subrange(0, lab.len() as int) == lab);
    assert(piece_at(d, 0, lab));
    lemma_laid(d, 0, ps);
    lemma_label_upto_12(d, 0, m, seal, n, hl, fl);
    lemma_flat_len(ps, 13);
    assert(ps.subrange(0, 13) =~= ps);
}

/// The header ends at its own closing "End": `header_end` of any bytes the header text begins
/// is the text's length.
#[verifier::spinoff_prover]
proof fn lemma_header_ends(d: Seq<u8>, m: Seq<u8>, seal: Seq<u8>, specs: Seq<CubTensorSpec>, hl: int, fl: int)
    requires
        is_prefix(header_text(m, seal, specs, hl, fl), d),
        label_clean(m, seal),
        specs_clean(specs),
    ensures
        header_end(d) == header_text(m, seal, specs, hl, fl).len(),
{
    let n = specs.len() as int;
    let lab = label_onto(seq![], m, seal, specs.len(), hl, fl);
    let pn = tensors_onto(lab, specs, n);
    let t = header_text(m, seal, specs, hl, fl);
    lemma_header(m, seal, specs, hl, fl);
    lemma_lit_38();
    lemma_prefix_add(pn, trailer());
    lemma_prefix_trans(pn, t, d);
    lemma_piece_last(pn, trailer());
    lemma_piece_prefix(t, d, pn.len() as int, trailer());
    lemma_tensors_prefix(lab, specs, 0, n);
    lemma_prefix_trans(lab, pn, d);
    lemma_label_clear(d, m, seal, specs.len(), hl, fl);
    lemma_end_objs(d, lab, specs, n);
    lemma_trailer(d, pn.len() as int);
    assert(no_hit(d, pat_end(), 0, pn.len() as int + 11));
    lemma_find_first(d, pat_end(), 0, pn.len() as int + 11);
}

/// Bytes below 128 are valid UTF-8: they encode their own characters.
proof fn lemma_ascii_valid(s: Seq<u8>)
    requires
        forall|i: int| 0 <= i < s.len() ==> #[trigger] s[i] < 128,
    ensures
        valid_utf8(s),
{
    let cs = Seq::new(s.len(), |i: int| s[i] as char);
    assert forall|i: int| 0 <= i < cs.len() implies '\0' <= #[trigger] cs[i] <= '\u{7f}' by {
        assert(s[i] < 128);
    }
    vstd::utf8::is_ascii_chars_encode_utf8(cs);
    assert forall|i: int| 0 <= i < s.len() implies #[trigger] encode_utf8(cs)[i] == s[i] by {
        assert(cs[i] as u8 == encode_utf8(cs)[i]);
    }
    assert(encode_utf8(cs) =~= s);
    vstd::utf8::encode_utf8_valid_utf8(cs);
}

proof fn lemma_flat_valid(ps: Seq<Seq<u8>>)
    requires
        forall|k: int| 0 <= k < ps.len() ==> valid_utf8(#[trigger] ps[k]),
    ensures
        valid_utf8(flat(ps)),
    decreases ps.len(),
{
    if ps.len() == 0 {
        assert(valid_utf8(Seq::<u8>::empty()));
    } else {
        lemma_flat_valid(ps.drop_last());
        vstd::utf8::valid_utf8_concat(flat(ps.drop_last()), ps.last());
    }
}

proof fn lemma_obj_valid(t: CubTensorSpec)
    ensures
        valid_utf8(flat(obj_parts(t))),
{
    lemma_ascii_valid(tp0());
    assert(valid_utf8(obj_parts(t)[0]));
    vstd::utf8::encode_utf8_valid_utf8(t.name@);
    assert(obj_parts(t)[1] == nm(t));
    assert(valid_utf8(obj_parts(t)[1]));
    lemma_ascii_valid(tp1());
    assert(valid_utf8(obj_parts(t)[2]));
    lemma_dec_value_bytes(t.rows as nat);
    lemma_ascii_valid(dec(t.rows as nat));
    assert(valid_utf8(obj_parts(t)[3]));
    lemma_ascii_valid(tp2());
    assert(valid_utf8(obj_parts(t)[4]));
    lemma_dec_value_bytes(t.cols as nat);
    lemma_ascii_valid(dec(t.cols as nat));
    assert(valid_utf8(obj_parts(t)[5]));
    lemma_ascii_valid(tp3());
    assert(valid_utf8(obj_parts(t)[6]));
    lemma_idec_value_bytes(t.rmin as int);
    lemma_ascii_valid(idec(t.rmin as int));
    assert(valid_utf8(obj_parts(t)[7]));
    lemma_ascii_valid(tp4());
    assert(valid_utf8(obj_parts(t)[8]));
    lemma_idec_value_bytes(t.rmax as int);
    lemma_ascii_valid(idec(t.rmax as int));
    assert(valid_utf8(obj_parts(t)[9]));
    lemma_ascii_valid(tp5());
    assert(valid_utf8(obj_parts(t)[10]));
    lemma_dec_value_bytes(((t.rmax - t.rmin + 1) as usize) as nat);
    lemma_ascii_valid(dec(((t.rmax - t.rmin + 1) as usize) as nat));
    assert(valid_utf8(obj_parts(t)[11]));
    lemma_ascii_valid(tp6());
    assert(valid_utf8(obj_parts(t)[12]));
    lemma_dec_value_bytes(t.tiles as nat);
    lemma_ascii_valid(dec(t.tiles as nat));
    assert(valid_utf8(obj_parts(t)[13]));
    lemma_ascii_valid(tp7());
    assert(valid_utf8(obj_parts(t)[14]));
    lemma_dec_value_bytes((t.index_start + 1) as nat);
    lemma_ascii_valid(dec((t.index_start + 1) as nat));
    assert(valid_utf8(obj_parts(t)[15]));
    lemma_ascii_valid(tp8());
    assert(valid_utf8(obj_parts(t)[16]));
    lemma_dec_value_bytes((t.body_start + 1) as nat);
    lemma_ascii_valid(dec((t.body_start + 1) as nat));
    assert(valid_utf8(obj_parts(t)[17]));
    lemma_ascii_valid(tp9());
    assert(valid_utf8(obj_parts(t)[18]));
    lemma_dec_value_bytes(t.body_bytes as nat);
    lemma_ascii_valid(dec(t.body_bytes as nat));
    assert(valid_utf8(obj_parts(t)[19]));
    lemma_ascii_valid(tp10());
    assert(valid_utf8(obj_parts(t)[20]));
    lemma_flat_valid(obj_parts(t));
}

proof fn lemma_label_valid(m: Seq<u8>, seal: Seq<u8>, n: nat, hl: int, fl: int)
    requires
        valid_utf8(m),
        valid_utf8(seal),
    ensures
        valid_utf8(flat(label_parts(m, seal, n, hl, fl))),
{
    lemma_ascii_valid(lp0());
    assert(valid_utf8(label_parts(m, seal, n, hl, fl)[0]));
    lemma_dec_value_bytes((hl + 1) as nat);
    lemma_ascii_valid(dec((hl + 1) as nat));
    assert(valid_utf8(label_parts(m, seal, n, hl, fl)[1]));
    lemma_ascii_valid(lp1());
    assert(valid_utf8(label_parts(m, seal, n, hl, fl)[2]));
    lemma_dec_value_bytes(128);
    lemma_ascii_valid(dec(128));
    assert(valid_utf8(label_parts(m, seal, n, hl, fl)[3]));
    lemma_ascii_valid(lp2());
    assert(valid_utf8(label_parts(m, seal, n, hl, fl)[4]));
    assert(valid_utf8(label_parts(m, seal, n, hl, fl)[5]));
    lemma_ascii_valid(lp3());
    assert(valid_utf8(label_parts(m, seal, n, hl, fl)[6]));
    assert(valid_utf8(label_parts(m, seal, n, hl, fl)[7]));
    lemma_ascii_valid(lp4());
    assert(valid_utf8(label_parts(m, seal, n, hl, fl)[8]));
    lemma_dec_value_bytes(n);
    lemma_ascii_valid(dec(n));
    assert(valid_utf8(label_parts(m, seal, n, hl, fl)[9]));
    lemma_ascii_valid(lp5());
    assert(valid_utf8(label_parts(m, seal, n, hl, fl)[10]));
    lemma_dec_value_bytes(fl as nat);
    lemma_ascii_valid(dec(fl as nat));
    assert(valid_utf8(label_parts(m, seal, n, hl, fl)[11]));
    lemma_ascii_valid(lp6());
    assert(valid_utf8(label_parts(m, seal, n, hl, fl)[12]));
    lemma_flat_valid(label_parts(m, seal, n, hl, fl));
}

proof fn lemma_tensors_valid(lab: Seq<u8>, specs: Seq<CubTensorSpec>, k: int)
    requires
        0 <= k,
        valid_utf8(lab),
    ensures
        valid_utf8(tensors_onto(lab, specs, k)),
    decreases k,
{
    if k > 0 {
        lemma_tensors_valid(lab, specs, k - 1);
        lemma_tensors_grow(lab, specs, k - 1);
        lemma_obj_valid(specs[k - 1]);
        vstd::utf8::valid_utf8_concat(tensors_onto(lab, specs, k - 1), flat(obj_parts(specs[k - 1])));
    }
}

/// The header text is valid UTF-8 when its model id and seal are.
proof fn lemma_header_valid(m: Seq<u8>, seal: Seq<u8>, specs: Seq<CubTensorSpec>, hl: int, fl: int)
    requires
        valid_utf8(m),
        valid_utf8(seal),
    ensures
        valid_utf8(header_text(m, seal, specs, hl, fl)),
{
    lemma_header(m, seal, specs, hl, fl);
    lemma_label_flat(m, seal, specs.len(), hl, fl);
    lemma_label_valid(m, seal, specs.len(), hl, fl);
    let lab = label_onto(seq![], m, seal, specs.len(), hl, fl);
    lemma_tensors_valid(lab, specs, specs.len() as int);
    lemma_ascii_valid(trailer());
    vstd::utf8::valid_utf8_concat(tensors_onto(lab, specs, specs.len() as int), trailer());
}

proof fn lemma_settle(m: Seq<u8>, seal: Seq<u8>, base: Seq<CubTensorSpec>, h: int, rounds: nat)
    requires
        settle_fits(m, seal, base, h, rounds),
    ensures
        settle(m, seal, base, h, rounds).0 >= 0,
        file_end(base, settle(m, seal, base, h, rounds).0) + 64 <= usize::MAX,
        settle(m, seal, base, h, rounds).1 == ceil64(text_at(m, seal, base, settle(m, seal, base, h, rounds).0).len() as int),
    decreases rounds,
{
    let nh = ceil64(text_at(m, seal, base, h).len() as int);
    if !(nh == h || rounds <= 1) {
        lemma_settle(m, seal, base, nh, (rounds - 1) as nat);
    }
}

/// The tensors' names are ones the header can carry.
pub open spec fn names_clean(folds: Seq<(String, &TensorFold)>) -> bool {
    forall|i: int| 0 <= i < folds.len() ==> name_clean(#[trigger] base_specs(folds)[i])
}

/// Opening the cube that `cube_bytes` writes reads its header back whole: the header ends
/// where it was written to end, is UTF-8, and its tensor objects are the written entries, in
/// order and field for field. With `CubFold::open`'s contract: `open` of these bytes is `Some`,
/// and its specs are `cube_specs`, entry for entry. The model id and seal must not hold a
/// tensor object or the header's end, and no name a line break, a double quote or a key of a
/// later line.
pub proof fn lemma_cube_header_reads(model_id: &str, intake_seal: &str, folds: Seq<(String, &TensorFold)>)
    requires
        forall|j: int| 0 <= j < folds.len() ==> cubable(*(#[trigger] folds[j]).1),
        cube_fits(model_id.spec_bytes(), intake_seal.spec_bytes(), folds),
        label_clean(model_id.spec_bytes(), intake_seal.spec_bytes()),
        names_clean(folds),
    ensures
        ({
            let d = cube_file(model_id.spec_bytes(), intake_seal.spec_bytes(), folds);
            let specs = cube_specs(model_id.spec_bytes(), intake_seal.spec_bytes(), folds);
            let t = d.subrange(0, header_end(d));
            &&& header_end(d) <= d.len()
            &&& valid_utf8(t)
            &&& tensors_ok(t, 0)
            &&& tensor_bases(t, 0).len() == specs.len()
            &&& forall|i: int, s: CubTensorSpec|
                0 <= i < specs.len() && #[trigger] entry_matches(s, t, tensor_bases(t, 0)[i]) ==> same_entry(s, specs[i])
        }),
{
    let m = model_id.spec_bytes();
    let seal = intake_seal.spec_bytes();
    let base = base_specs(folds);
    let h0 = first_h(m, seal, base);
    lemma_settle(m, seal, base, h0, 3);
    let (used, fin) = settle(m, seal, base, h0, 3);
    let specs = placed(base, used);
    let fe = file_end(base, used);
    let text = header_text(m, seal, specs, used, fe);
    assert(text == text_at(m, seal, base, used));
    let d = cube_file(m, seal, folds);
    vstd::arithmetic::div_mod::lemma_fundamental_div_mod(text.len() as int + 63, 64);
    assert(fin >= text.len());
    let padded = pad(text, fin);
    assert(padded.subrange(0, text.len() as int) =~= text);
    assert(d.subrange(0, text.len() as int) =~= text) by {
        assert(d == padded + index_of(folds, placed(base, used), folds.len() as int) + bodies_of(folds, folds.len() as int));
        assert forall|j: int| 0 <= j < text.len() implies d.subrange(0, text.len() as int)[j] == text[j] by {
            assert(d[j] == padded[j]);
            assert(padded.subrange(0, text.len() as int)[j] == padded[j]);
        }
    }
    assert(is_prefix(text, d));
    lemma_placed_printable(base, folds, used);
    assert forall|i: int| 0 <= i < specs.len() implies name_clean(#[trigger] specs[i]) && printable(specs[i]) by {
        assert(specs[i].name == base[i].name);
        assert(nm(specs[i]) == nm(base[i]));
    }
    assert(specs_clean(specs));
    lemma_header_ends(d, m, seal, specs, used, fe);
    assert(d.subrange(0, header_end(d)) == text);
    vstd::utf8::encode_utf8_valid_utf8(model_id@);
    vstd::utf8::encode_utf8_valid_utf8(intake_seal@);
    lemma_header_valid(m, seal, specs, used, fe);
    let lab = label_onto(seq![], m, seal, specs.len(), used, fe);
    let n = specs.len() as int;
    lemma_header(m, seal, specs, used, fe);
    lemma_prefix_add(tensors_onto(lab, specs, n), trailer());
    lemma_tensors_prefix(lab, specs, 0, n);
    lemma_prefix_trans(lab, tensors_onto(lab, specs, n), text);
    lemma_tensors_len(lab, specs, n);
    lemma_label_clear(text, m, seal, specs.len(), used, fe);
    lemma_parse_from(text, lab, specs, 0);
    lemma_bases_from(lab, specs, 0);
    assert forall|i: int, s: CubTensorSpec|
        0 <= i < specs.len() && #[trigger] entry_matches(s, text, tensor_bases(text, 0)[i]) implies same_entry(s, specs[i]) by {
        lemma_next_obj(text, lab, specs, i);
        assert(tensor_bases(text, 0)[i] == bases_from(lab, specs, 0)[i - 0]);
    }
}

// ── the index and the tile blocks ───────────────────────────────────────────

/// In a sequence grown one piece at a time, piece k stands where the sequence before it ends.
proof fn lemma_grown_piece(g: spec_fn(int) -> Seq<u8>, e: spec_fn(int) -> Seq<u8>, k: int, n: int)
    requires
        0 <= k < n,
        forall|j: int| 0 <= j < n ==> #[trigger] g(j + 1) == g(j) + e(j),
    ensures
        piece_at(g(n), g(k).len() as int, e(k)),
    decreases n,
{
    assert(g(n - 1 + 1) == g(n - 1) + e(n - 1));
    assert(n - 1 + 1 == n);
    if k == n - 1 {
        lemma_piece_last(g(k), e(k));
    } else {
        lemma_grown_piece(g, e, k, n - 1);
        lemma_prefix_add(g(n - 1), e(n - 1));
        lemma_piece_prefix(g(n - 1), g(n), g(k).len() as int, e(k));
    }
}

proof fn lemma_le_seq_len(v: int, w: nat)
    ensures
        le_seq(v, w).len() == w,
    decreases w,
{
    if w > 0 {
        lemma_le_seq_len(v / 256, (w - 1) as nat);
    }
}

proof fn lemma_tile_index_len(f: TensorFold, start: int, t: int)
    requires
        0 <= t,
    ensures
        tile_index(f, start, t).len() == 8 * t,
    decreases t,
{
    if t > 0 {
        lemma_tile_index_len(f, start, t - 1);
        lemma_le_seq_len(start + fold_body(f, t - 1).len(), 8);
    }
}

proof fn lemma_index_len(folds: Seq<(String, &TensorFold)>, h: int, i: int)
    requires
        0 <= i <= folds.len(),
    ensures
        index_of(folds, placed(base_specs(folds), h), i).len() == 8 * tiles_before(base_specs(folds), i),
    decreases i,
{
    if i > 0 {
        lemma_index_len(folds, h, i - 1);
        let sp = placed(base_specs(folds), h);
        lemma_tile_index_len(*folds[i - 1].1, sp[i - 1].body_start as int, sp[i - 1].tiles as int);
    }
}

proof fn lemma_bodies_len(folds: Seq<(String, &TensorFold)>, i: int)
    requires
        0 <= i <= folds.len(),
        bodies_fit(folds),
    ensures
        bodies_of(folds, i).len() == bytes_before(base_specs(folds), i),
    decreases i,
{
    if i > 0 {
        lemma_bodies_len(folds, i - 1);
        assert(fold_body(*folds[i - 1].1, (folds[i - 1].1.rows / 128) as int).len() <= usize::MAX);
    }
}

/// The cube's tile index and tile blocks: for tensor i and tile t, the index entry t holds the
/// block's byte offset, and the block there is the fold's tile t. This holds when the header
/// length settled (the offsets were placed with the length the header is padded to).
pub proof fn lemma_cube_tiles(m: Seq<u8>, seal: Seq<u8>, folds: Seq<(String, &TensorFold)>, i: int, t: int)
    requires
        bodies_fit(folds),
        cube_fits(m, seal, folds),
        settle(m, seal, base_specs(folds), first_h(m, seal, base_specs(folds)), 3).0 == settle(
            m,
            seal,
            base_specs(folds),
            first_h(m, seal, base_specs(folds)),
            3,
        ).1,
        0 <= i < folds.len(),
        0 <= t < cube_specs(m, seal, folds)[i].tiles,
    ensures
        ({
            let d = cube_file(m, seal, folds);
            let s = cube_specs(m, seal, folds)[i];
            let f = *folds[i].1;
            let at = s.body_start + fold_body(f, t).len();
            &&& d.subrange(s.index_start + 8 * t, s.index_start + 8 * t + 8) == le_seq(at, 8)
            &&& d.subrange(at, at + tile_of(f, t).len()) == tile_of(f, t)
        }),
{
    let base = base_specs(folds);
    let (used, fin) = settle(m, seal, base, first_h(m, seal, base), 3);
    let sp = placed(base, used);
    let n = folds.len() as int;
    let text = text_at(m, seal, base, used);
    let padded = pad(text, fin);
    let idx = index_of(folds, sp, n);
    let bod = bodies_of(folds, n);
    let d = cube_file(m, seal, folds);
    let f = *folds[i].1;
    let s = sp[i];
    assert(d == padded + idx + bod);
    lemma_settle(m, seal, base, first_h(m, seal, base), 3);
    vstd::arithmetic::div_mod::lemma_fundamental_div_mod(text.len() as int + 63, 64);
    assert(fin >= text.len());
    assert(padded.len() == fin);
    lemma_before_mono(base, i, n);
    lemma_before_mono(base, i + 1, n);
    lemma_piece_last(padded, idx);
    lemma_piece_last(padded + idx, bod);
    lemma_prefix_add(padded + idx, bod);
    lemma_piece_prefix(padded + idx, d, padded.len() as int, idx);
    lemma_index_len(folds, used, n);
    // the index entry
    let gi = |j: int| index_of(folds, sp, j);
    let ei = |j: int| tile_index(*folds[j].1, sp[j].body_start as int, sp[j].tiles as int);
    assert forall|j: int| 0 <= j < n implies #[trigger] gi(j + 1) == gi(j) + ei(j) by {}
    lemma_grown_piece(gi, ei, i, n);
    lemma_index_len(folds, used, i);
    let gt = |j: int| tile_index(f, s.body_start as int, j);
    let et = |j: int| le_seq(s.body_start + fold_body(f, j).len(), 8);
    assert forall|j: int| 0 <= j < s.tiles implies #[trigger] gt(j + 1) == gt(j) + et(j) by {}
    lemma_grown_piece(gt, et, t, s.tiles as int);
    lemma_tile_index_len(f, s.body_start as int, t);
    lemma_sub_piece(d, padded.len() as int, idx, 8 * tiles_before(base, i), ei(i));
    lemma_sub_piece(d, padded.len() + 8 * tiles_before(base, i), ei(i), 8 * t, et(t));
    lemma_le_seq_len(s.body_start + fold_body(f, t).len(), 8);
    // the tile block
    lemma_bodies_len(folds, i);
    let gb = |j: int| bodies_of(folds, j);
    let eb = |j: int| fold_body(*folds[j].1, (folds[j].1.rows / 128) as int);
    assert forall|j: int| 0 <= j < n implies #[trigger] gb(j + 1) == gb(j) + eb(j) by {}
    lemma_grown_piece(gb, eb, i, n);
    let gf = |j: int| fold_body(f, j);
    let ef = |j: int| tile_of(f, j);
    assert forall|j: int| 0 <= j < s.tiles implies #[trigger] gf(j + 1) == gf(j) + ef(j) by {}
    lemma_grown_piece(gf, ef, t, s.tiles as int);
    let bstart = (padded + idx).len() as int;
    lemma_sub_piece(d, bstart, bod, bytes_before(base, i), eb(i));
    lemma_sub_piece(d, bstart + bytes_before(base, i), eb(i), fold_body(f, t).len() as int, ef(t));
    assert(s.index_start == used + 8 * tiles_before(base, i));
    assert(s.body_start == used + 8 * tiles_before(base, n) + bytes_before(base, i));
}

} // verus!
