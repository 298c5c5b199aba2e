//! Laws of the library, proved over the specifications its functions are verified against.

use vstd::prelude::*;

use crate::matcher::{
    add_binding, binding_name, chosen_from, consolidate, encodings_purposes, find_name, group,
    instruction_proposals, instruction_purposes, interpretation, le_value, numbers_from,
    part_purposes, pow256, proposals_from, register_bindings, BindingView, PurposeView,
    lemma_le_value_bound, lemma_pow256_monotone,
};
use crate::discovery::{dedup, discovered, probe_outcomes, probe_tuple, successes};
use crate::pattern::{unique_register_names, PartView, Register};
use crate::pattern::{
    classify, parse_variables, tokens, type_of_tag, type_tag, variable_text, PatternError, VariableType,
};
use crate::replacement::{after_pass, fits, patched, regions_within};

verus! {

/// The text `$<tag>:<name>` of a variable token.
pub open spec fn token_text(t: (Seq<char>, Seq<char>)) -> Seq<char> {
    seq!['$'] + t.0 + seq![':'] + t.1
}

proof fn lemma_classify_texts(toks: Seq<(Seq<char>, Seq<char>)>)
    requires
        classify(toks) is Ok,
    ensures
        classify(toks)->Ok_0.len() == toks.len(),
        forall|i: int| 0 <= i < toks.len() ==> variable_text(#[trigger] classify(toks)->Ok_0[i].0, classify(toks)->Ok_0[i].1)
            == token_text(toks[i]),
    decreases toks.len(),
{
    if toks.len() > 0 {
        lemma_classify_texts(toks.drop_first());
        let t = type_of_tag(toks[0].0).unwrap();
        assert(type_tag(t) == toks[0].0);
        let rest = classify(toks.drop_first())->Ok_0;
        let all = classify(toks)->Ok_0;
        assert(all == seq![(toks[0].1, t)] + rest);
        assert forall|i: int| 0 <= i < toks.len() implies variable_text(#[trigger] all[i].0, all[i].1) == token_text(toks[i]) by {
            if i > 0 {
                assert(all[i] == rest[i - 1]);
                assert(toks.drop_first()[i - 1] == toks[i]);
            }
        }
    }
}

/// Parsing lists the variables in the order of their `$<type>:<name>` occurrences in the
/// text, repetitions included: written back as text, the i-th variable is the i-th
/// occurrence.
pub proof fn law_parse_lists_occurrences(s: Seq<char>)
    requires
        parse_variables(s) is Ok,
    ensures
        parse_variables(s)->Ok_0.len() == tokens(s).len(),
        forall|i: int| 0 <= i < tokens(s).len() ==> variable_text(#[trigger] parse_variables(s)->Ok_0[i].0, parse_variables(s)->Ok_0[i].1)
            == token_text(tokens(s)[i]),
{
    lemma_classify_texts(tokens(s));
}

proof fn lemma_consolidate_holds_all(ps: Seq<BindingView>)
    requires
        consolidate(ps) is Some,
    ensures
        forall|i: int| 0 <= i < ps.len() ==> consolidate(ps).unwrap().contains(#[trigger] ps[i]),
        forall|x: int, y: int|
            0 <= x < consolidate(ps).unwrap().len() && 0 <= y < consolidate(ps).unwrap().len()
                && binding_name(#[trigger] consolidate(ps).unwrap()[x]) == binding_name(#[trigger] consolidate(ps).unwrap()[y]) ==> x == y,
    decreases ps.len(),
{
    if ps.len() > 0 {
        let prev = ps.drop_last();
        lemma_consolidate_holds_all(prev);
        let st = consolidate(prev).unwrap();
        let p = ps.last();
        let out = consolidate(ps).unwrap();
        assert(out == add_binding(st, p).unwrap());
        match find_name(st, binding_name(p)) {
            Some(k) => {
                assert(out == st);
                assert(st[k] == p);
                assert forall|i: int| 0 <= i < ps.len() implies out.contains(#[trigger] ps[i]) by {
                    if i < ps.len() - 1 {
                        assert(prev[i] == ps[i]);
                    }
                }
            },
            None => {
                assert(out == st.push(p));
                assert(!exists|i: int| 0 <= i < st.len() && binding_name(st[i]) == binding_name(p));
                assert forall|i: int| 0 <= i < ps.len() implies out.contains(#[trigger] ps[i]) by {
                    if i < ps.len() - 1 {
                        assert(prev[i] == ps[i]);
                        let k = choose|k: int| 0 <= k < st.len() && st[k] == ps[i];
                        assert(out[k] == ps[i]);
                    } else {
                        assert(out[st.len() as int] == p);
                    }
                }
                assert forall|x: int, y: int|
                    0 <= x < out.len() && 0 <= y < out.len() && binding_name(#[trigger] out[x]) == binding_name(#[trigger] out[y]) implies x == y by {
                    if x < st.len() && y < st.len() {
                        assert(out[x] == st[x] && out[y] == st[y]);
                    } else if x < st.len() {
                        assert(out[x] == st[x]);
                    } else if y < st.len() {
                        assert(out[y] == st[y]);
                    }
                }
            },
        }
    }
}

/// Cross-instruction consistency: a match is accepted only if every two proposals for one
/// variable name, wherever in the instructions they come from, are the same binding;
/// a match that binds one name to two values is rejected.
pub proof fn law_accepted_matches_are_consistent(
    caps: Seq<Option<(usize, usize)>>,
    bytes: Seq<u8>,
    pss: Seq<Seq<PurposeView>>,
    i: int,
    j: int,
)
    requires
        proposals_from(pss, caps, bytes, 0, 1) is Some,
        0 <= i < proposals_from(pss, caps, bytes, 0, 1).unwrap().len(),
        0 <= j < proposals_from(pss, caps, bytes, 0, 1).unwrap().len(),
        binding_name(proposals_from(pss, caps, bytes, 0, 1).unwrap()[i]) == binding_name(
            proposals_from(pss, caps, bytes, 0, 1).unwrap()[j],
        ),
        proposals_from(pss, caps, bytes, 0, 1).unwrap()[i] != proposals_from(pss, caps, bytes, 0, 1).unwrap()[j],
    ensures
        interpretation(caps, bytes, pss) is None,
{
    let ps = proposals_from(pss, caps, bytes, 0, 1).unwrap();
    if consolidate(ps) is Some {
        lemma_consolidate_holds_all(ps);
        let st = consolidate(ps).unwrap();
        assert(st.contains(ps[i]));
        assert(st.contains(ps[j]));
        let x = choose|x: int| 0 <= x < st.len() && st[x] == ps[i];
        let y = choose|y: int| 0 <= y < st.len() && st[y] == ps[j];
        assert(binding_name(st[x]) == binding_name(st[y]));
        assert(x == y);
    }
}

/// `sum of bs[k] * 256^k` over the first `n` bytes.
pub open spec fn weighted_sum(bs: Seq<u8>, n: nat) -> nat
    decreases n,
{
    if n == 0 || n > bs.len() {
        0
    } else {
        weighted_sum(bs, (n - 1) as nat) + bs[n - 1] as nat * pow256((n - 1) as nat)
    }
}

proof fn lemma_weighted_sum_shift(bs: Seq<u8>, n: nat)
    requires
        1 <= n <= bs.len(),
    ensures
        weighted_sum(bs, n) == bs[0] as nat + 256 * weighted_sum(bs.drop_first(), (n - 1) as nat),
    decreases n,
{
    if n > 1 {
        lemma_weighted_sum_shift(bs, (n - 1) as nat);
        let rest = bs.drop_first();
        assert(rest[n - 2] == bs[n - 1]);
        let a = weighted_sum(rest, (n - 2) as nat);
        let b = bs[n - 1] as nat;
        let p = pow256((n - 2) as nat);
        assert(pow256((n - 1) as nat) == 256 * p);
        assert(weighted_sum(rest, (n - 1) as nat) == a + b * p);
        assert(weighted_sum(bs, n) == weighted_sum(bs, (n - 1) as nat) + b * pow256((n - 1) as nat));
        assert(b * (256 * p) == 256 * (b * p)) by (nonlinear_arith);
        assert(256 * a + 256 * (b * p) == 256 * (a + b * p)) by (nonlinear_arith);
    } else {
        assert(weighted_sum(bs.drop_first(), 0) == 0);
        assert(weighted_sum(bs, 0) == 0);
        assert(pow256(0) == 1);
        assert(weighted_sum(bs, 1) == bs[0] as nat * pow256(0));
    }
}

/// Little-endian interpretation: a number captured over bytes `b[0] ... b[n-1]` is the
/// sum of `b[k] * 256^k`.
pub proof fn law_little_endian_value(bs: Seq<u8>)
    ensures
        le_value(bs) == weighted_sum(bs, bs.len()),
    decreases bs.len(),
{
    if bs.len() > 0 {
        law_little_endian_value(bs.drop_first());
        lemma_weighted_sum_shift(bs, bs.len());
    }
}

/// Replacement keeps the span's size: after a pass, the span is exactly as long as
/// before, and each replacement written fills its match exactly.
pub proof fn law_pass_keeps_length(code: Seq<u8>, regions: Seq<(usize, usize)>, assembled: Seq<Option<Vec<u8>>>)
    requires
        regions_within(regions, code.len()),
    ensures
        after_pass(code, regions, assembled).len() == code.len(),
    decreases regions.len(),
{
    if regions.len() > 0 {
        law_pass_keeps_length(code, regions.drop_last(), assembled);
        let prev = after_pass(code, regions.drop_last(), assembled);
        let (s, e) = regions.last();
        assert(regions_within(regions, code.len()));
        assert(regions[regions.len() - 1] == regions.last());
        if regions.len() - 1 < assembled.len() {
            match assembled[regions.len() - 1] {
                Some(a) => {
                    if a@.len() <= e - s {
                        assert(patched(prev, s as int, e as int, a@).len() == prev.len());
                    }
                },
                None => {},
            }
        }
    }
}

/// Idempotence: a pass in which no replacement is written (no match was found, or none
/// fits) leaves the span's bytes unchanged.
pub proof fn law_pass_without_replacement_is_identity(code: Seq<u8>, regions: Seq<(usize, usize)>, assembled: Seq<Option<Vec<u8>>>)
    requires
        forall|i: int| 0 <= i < regions.len() ==> !fits(regions, assembled, i),
    ensures
        after_pass(code, regions, assembled) == code,
    decreases regions.len(),
{
    if regions.len() > 0 {
        let prev = regions.drop_last();
        assert forall|i: int| 0 <= i < prev.len() implies !fits(prev, assembled, i) by {
            assert(prev[i] == regions[i]);
            assert(!fits(regions, assembled, i));
        }
        law_pass_without_replacement_is_identity(code, prev, assembled);
        assert(!fits(regions, assembled, regions.len() - 1));
    }
}


proof fn lemma_purposes_prefix(encs: Seq<(Seq<PartView>, Seq<(Seq<char>, Register)>)>, k: int)
    requires
        0 <= k <= encs.len(),
    ensures
        encodings_purposes(encs.subrange(0, k)).len() <= encodings_purposes(encs).len(),
        forall|i: int| 0 <= i < encodings_purposes(encs.subrange(0, k)).len() ==>
            encodings_purposes(encs)[i] == #[trigger] encodings_purposes(encs.subrange(0, k))[i],
    decreases encs.len(),
{
    if k == encs.len() {
        assert(encs.subrange(0, k) =~= encs);
    } else {
        let prev = encs.drop_last();
        assert(prev.subrange(0, k) =~= encs.subrange(0, k));
        lemma_purposes_prefix(prev, k);
    }
}

proof fn lemma_choice_reaches(ps: Seq<PurposeView>, caps: Seq<Option<(usize, usize)>>, i: int, idx: int)
    requires
        1 <= i <= idx < ps.len(),
        ps[idx] is NewEncoding,
        group(caps, idx + 1) is Some,
        forall|g: int| 2 <= g < idx + 1 ==> (#[trigger] group(caps, g)) is None,
    ensures
        chosen_from(ps, caps, 1, i) == Some(idx),
    decreases idx - i,
{
    if i < idx {
        lemma_choice_reaches(ps, caps, i + 1, idx);
    }
}

proof fn lemma_distinct_names_consolidate(ps: Seq<BindingView>)
    requires
        forall|x: int, y: int| 0 <= x < y < ps.len() ==> binding_name(#[trigger] ps[x]) != binding_name(#[trigger] ps[y]),
    ensures
        consolidate(ps) == Some(ps),
    decreases ps.len(),
{
    if ps.len() > 0 {
        let prev = ps.drop_last();
        lemma_distinct_names_consolidate(prev);
        assert(!exists|i: int| 0 <= i < prev.len() && binding_name(prev[i]) == binding_name(ps.last())) by {
            assert forall|i: int| 0 <= i < prev.len() implies binding_name(prev[i]) != binding_name(ps.last()) by {
                assert(prev[i] == ps[i]);
                assert(ps.last() == ps[ps.len() - 1]);
            }
        }
        assert(prev.push(ps.last()) =~= ps);
    }
}

/// Recovery of an encoding's values: when the regex of a one-instruction matcher reports
/// that encoding `k` (fixed bytes, then a number run) took part, no earlier encoding did,
/// and its number group spans bytes `b` of at most four, the match binds the number
/// variable to the little-endian value of `b` and each register variable to the register
/// that encoding `k` stands for, provided the variables' names differ.
pub proof fn law_selected_encoding_binds_its_values(
    encs: Seq<(Seq<PartView>, Seq<(Seq<char>, Register)>)>,
    k: int,
    caps: Seq<Option<(usize, usize)>>,
    bytes: Seq<u8>,
)
    requires
        0 <= k < encs.len(),
        encs[k].0.len() == 2,
        encs[k].0[0] is Fixed,
        encs[k].0[1] is Intermediate,
        group(caps, 0) is Some,
        group(caps, 0).unwrap().0 <= group(caps, 0).unwrap().1 <= bytes.len(),
        forall|g: int| 2 <= g < 2 + encodings_purposes(encs.subrange(0, k)).len() as int ==> (#[trigger] group(caps, g)) is None,
        group(caps, 2 + encodings_purposes(encs.subrange(0, k)).len() as int) is Some,
        group(caps, 3 + encodings_purposes(encs.subrange(0, k)).len() as int) matches Some(span) && span.0 <= span.1 <= bytes.len()
            && span.1 - span.0 <= 4,
        forall|x: int, y: int|
            0 <= x < y < 1 + encs[k].1.len() ==> binding_name(
                #[trigger] (seq![BindingView::Number(encs[k].0[1]->Intermediate_1, 0)] + register_bindings(encs[k].1))[x],
            ) != binding_name(#[trigger] (seq![BindingView::Number(encs[k].0[1]->Intermediate_1, 0)] + register_bindings(encs[k].1))[y]),
    ensures
        ({
            let span = group(caps, 3 + encodings_purposes(encs.subrange(0, k)).len() as int).unwrap();
            let value = le_value(bytes.subrange(span.0 as int, span.1 as int)) as u64;
            interpretation(caps, bytes, seq![instruction_purposes(encs)]) == Some(
                (
                    seq![BindingView::Number(encs[k].0[1]->Intermediate_1, value)] + register_bindings(encs[k].1),
                    group(caps, 0).unwrap().0,
                    group(caps, 0).unwrap().1,
                ),
            )
        }),
{
    let ps = instruction_purposes(encs);
    let before = encodings_purposes(encs.subrange(0, k));
    let idx: int = 1 + before.len() as int;
    let e = encs[k];
    let name = e.0[1]->Intermediate_1;
    // the purposes of encoding k follow those of the encodings before it
    lemma_purposes_prefix(encs, k + 1);
    let upto = encs.subrange(0, k + 1);
    assert(upto.drop_last() =~= encs.subrange(0, k));
    assert(upto.last() == e);
    assert(e.0.drop_last().drop_last() =~= Seq::<PartView>::empty());
    assert(part_purposes(e.0.drop_last()) == part_purposes(e.0.drop_last().drop_last()));
    assert(part_purposes(e.0) =~= seq![PurposeView::NumberVariable(name)]);
    let own = encodings_purposes(upto);
    assert(own =~= before + seq![PurposeView::NewEncoding(e.1)] + seq![PurposeView::NumberVariable(name)]);
    assert(own[before.len() as int] == PurposeView::NewEncoding(e.1));
    assert(own[before.len() as int + 1] == PurposeView::NumberVariable(name));
    assert(ps[idx] == encodings_purposes(encs)[before.len() as int]);
    assert(ps[idx] == PurposeView::NewEncoding(e.1));
    assert(ps[idx + 1] == PurposeView::NumberVariable(name));
    // after them comes the end, or the next encoding
    if k + 1 < encs.len() {
        lemma_purposes_prefix(encs, k + 2);
        let next = encs.subrange(0, k + 2);
        assert(next.drop_last() =~= upto);
        assert(encodings_purposes(next)[own.len() as int] == PurposeView::NewEncoding(encs[k + 1].1));
        assert(ps[idx + 2] == PurposeView::NewEncoding(encs[k + 1].1));
    } else {
        assert(upto =~= encs);
        assert(ps.len() == idx + 2);
    }
    // the encoding chosen is k
    lemma_choice_reaches(ps, caps, 1, idx);
    // its numbers
    let span = group(caps, idx + 2).unwrap();
    let value = le_value(bytes.subrange(span.0 as int, span.1 as int)) as u64;
    assert(numbers_from(ps, caps, bytes, 1, idx + 2) == Some(Seq::<BindingView>::empty()));
    assert(numbers_from(ps, caps, bytes, 1, idx + 1) == Some(seq![BindingView::Number(name, value)] + Seq::<BindingView>::empty()));
    assert(seq![BindingView::Number(name, value)] + Seq::<BindingView>::empty() =~= seq![BindingView::Number(name, value)]);
    let found = seq![BindingView::Number(name, value)] + register_bindings(e.1);
    assert(instruction_proposals(ps, caps, bytes, 1) == Some(found));
    let pss = seq![ps];
    assert(proposals_from(pss, caps, bytes, 1, 1 + ps.len() as int) == Some(Seq::<BindingView>::empty()));
    assert(found + Seq::<BindingView>::empty() =~= found);
    assert(proposals_from(pss, caps, bytes, 0, 1) == Some(found));
    // the names differ, so every proposal is kept
    let shape = seq![BindingView::Number(name, 0)] + register_bindings(e.1);
    assert forall|x: int, y: int| 0 <= x < y < found.len() implies binding_name(#[trigger] found[x]) != binding_name(#[trigger] found[y]) by {
        assert(binding_name(found[x]) == binding_name(shape[x]));
        assert(binding_name(found[y]) == binding_name(shape[y]));
    }
    lemma_distinct_names_consolidate(found);
}


proof fn lemma_dedup_from<E>(s: Seq<E>, k: int)
    requires
        0 <= k < dedup(s).len(),
    ensures
        s.contains(dedup(s)[k]),
    decreases s.len(),
{
    let prev = dedup(s.drop_last());
    if prev.contains(s.last()) {
        lemma_dedup_from(s.drop_last(), k);
        let j = choose|j: int| 0 <= j < s.drop_last().len() && s.drop_last()[j] == dedup(s)[k];
        assert(s[j] == dedup(s)[k]);
    } else if k < prev.len() {
        lemma_dedup_from(s.drop_last(), k);
        let j = choose|j: int| 0 <= j < s.drop_last().len() && s.drop_last()[j] == dedup(s)[k];
        assert(s[j] == dedup(s)[k]);
    } else {
        assert(s[s.len() - 1] == dedup(s)[k]);
    }
}

proof fn lemma_successes_from<E>(rs: Seq<Result<E, PatternError>>, x: E)
    requires
        successes(rs).contains(x),
    ensures
        exists|i: int| 0 <= i < rs.len() && rs[i] == Ok::<E, PatternError>(x),
    decreases rs.len(),
{
    let prev = successes(rs.drop_last());
    match rs.last() {
        Ok(e) => {
            if e == x {
                assert(rs[rs.len() - 1] == Ok::<E, PatternError>(x));
            } else {
                let k = choose|k: int| 0 <= k < successes(rs).len() && successes(rs)[k] == x;
                assert(k < prev.len());
                assert(prev[k] == x);
                lemma_successes_from(rs.drop_last(), x);
                let i = choose|i: int| 0 <= i < rs.drop_last().len() && rs.drop_last()[i] == Ok::<E, PatternError>(x);
                assert(rs[i] == Ok::<E, PatternError>(x));
            }
        },
        Err(_) => {
            lemma_successes_from(rs.drop_last(), x);
            let i = choose|i: int| 0 <= i < rs.drop_last().len() && rs.drop_last()[i] == Ok::<E, PatternError>(x);
            assert(rs[i] == Ok::<E, PatternError>(x));
        },
    }
}

proof fn lemma_unique_names_distinct(vars: Seq<(Seq<char>, VariableType)>)
    ensures
        forall|x: int, y: int| 0 <= x < y < unique_register_names(vars).len() ==>
            #[trigger] unique_register_names(vars)[x] != #[trigger] unique_register_names(vars)[y],
    decreases vars.len(),
{
    if vars.len() > 0 {
        lemma_unique_names_distinct(vars.drop_last());
        let prev = unique_register_names(vars.drop_last());
        let last = vars.last();
        if last.1 == VariableType::Register && !prev.contains(last.0) {
            let u = prev.push(last.0);
            assert forall|x: int, y: int| 0 <= x < y < u.len() implies #[trigger] u[x] != #[trigger] u[y] by {
                if y == prev.len() {
                    assert(u[x] == prev[x]);
                    assert(!prev.contains(last.0));
                } else {
                    assert(u[x] == prev[x] && u[y] == prev[y]);
                }
            }
        }
    }
}

/// Each register variable stands for one register per encoding: every encoding found for a
/// pattern binds the pattern's distinct register variables, each exactly once and in order
/// of first occurrence, so a variable that occurs twice (`lea $reg:r1,[$reg:r1 + ...]`) has
/// one register in both places.
pub proof fn law_encodings_bind_each_register_variable_once(
    text: Seq<char>,
    vars: Seq<(Seq<char>, VariableType)>,
    outs: Seq<Option<Vec<u8>>>,
    k: int,
)
    requires
        discovered(text, vars, outs) is Ok,
        0 <= k < (discovered(text, vars, outs)->Ok_0).len(),
    ensures
        (discovered(text, vars, outs)->Ok_0)[k].1.len() == unique_register_names(vars).len(),
        forall|j: int| 0 <= j < unique_register_names(vars).len() ==>
            (#[trigger] (discovered(text, vars, outs)->Ok_0)[k].1[j]).0 == unique_register_names(vars)[j],
        forall|x: int, y: int| 0 <= x < y < unique_register_names(vars).len() ==>
            #[trigger] unique_register_names(vars)[x] != #[trigger] unique_register_names(vars)[y],
{
    lemma_unique_names_distinct(vars);
    let encs = discovered(text, vars, outs)->Ok_0;
    if vars.len() == 0 {
        assert(unique_register_names(vars).len() == 0);
    } else {
        let outcomes = probe_outcomes(vars, outs);
        let oks = successes(outcomes);
        assert(encs == dedup(oks));
        lemma_dedup_from(oks, k);
        lemma_successes_from(outcomes, encs[k]);
        let i = choose|i: int| 0 <= i < outcomes.len() && outcomes[i] == Ok::<(Seq<PartView>, Seq<(Seq<char>, Register)>), PatternError>(encs[k]);
        let t = probe_tuple(vars, i);
        assert(encs[k].1 == crate::discovery::probe_mappings(vars, t));
    }
}

/// Whether a binding's number, if it is one, is the little-endian value of a run of at most
/// four bytes of `bytes`.
pub open spec fn number_read_from(b: BindingView, bytes: Seq<u8>) -> bool {
    match b {
        BindingView::Number(_, v) => exists|a: int, c: int|
            0 <= a <= c <= bytes.len() && c - a <= 4 && v as nat == le_value(#[trigger] bytes.subrange(a, c)),
        BindingView::Register(..) => true,
    }
}

proof fn lemma_numbers_read(ps: Seq<PurposeView>, caps: Seq<Option<(usize, usize)>>, bytes: Seq<u8>, o: int, j: int)
    requires
        numbers_from(ps, caps, bytes, o, j) is Some,
    ensures
        forall|x: int| 0 <= x < (numbers_from(ps, caps, bytes, o, j)->Some_0).len() ==>
            number_read_from(#[trigger] (numbers_from(ps, caps, bytes, o, j)->Some_0)[x], bytes),
    decreases ps.len() - j,
{
    if 1 <= j < ps.len() {
        match ps[j] {
            PurposeView::NumberVariable(name) => {
                let span = group(caps, j + o).unwrap();
                lemma_numbers_read(ps, caps, bytes, o, j + 1);
                let sub = bytes.subrange(span.0 as int, span.1 as int);
                lemma_le_value_bound(sub);
                lemma_pow256_monotone(sub.len(), 4);
                reveal_with_fuel(pow256, 5);
                let first = BindingView::Number(name, le_value(sub) as u64);
                assert(number_read_from(first, bytes));
                let all = numbers_from(ps, caps, bytes, o, j)->Some_0;
                let rest = numbers_from(ps, caps, bytes, o, j + 1)->Some_0;
                assert(all == seq![first] + rest);
                assert forall|x: int| 0 <= x < all.len() implies number_read_from(#[trigger] all[x], bytes) by {
                    if x > 0 {
                        assert(all[x] == rest[x - 1]);
                    }
                }
            },
            _ => {},
        }
    }
}

proof fn lemma_proposals_read(pss: Seq<Seq<PurposeView>>, caps: Seq<Option<(usize, usize)>>, bytes: Seq<u8>, k: int, o: int)
    requires
        proposals_from(pss, caps, bytes, k, o) is Some,
    ensures
        forall|x: int| 0 <= x < (proposals_from(pss, caps, bytes, k, o)->Some_0).len() ==>
            number_read_from(#[trigger] (proposals_from(pss, caps, bytes, k, o)->Some_0)[x], bytes),
    decreases pss.len() - k,
{
    if 0 <= k < pss.len() {
        let ps = pss[k];
        let i = chosen_from(ps, caps, o, 1).unwrap();
        let m = ps[i]->NewEncoding_0;
        lemma_numbers_read(ps, caps, bytes, o, i + 1);
        let ns = numbers_from(ps, caps, bytes, o, i + 1)->Some_0;
        let a = instruction_proposals(ps, caps, bytes, o)->Some_0;
        assert(a == ns + register_bindings(m));
        lemma_proposals_read(pss, caps, bytes, k + 1, o + ps.len());
        let b = proposals_from(pss, caps, bytes, k + 1, o + ps.len())->Some_0;
        let all = proposals_from(pss, caps, bytes, k, o)->Some_0;
        assert(all == a + b);
        assert forall|x: int| 0 <= x < all.len() implies number_read_from(#[trigger] all[x], bytes) by {
            if x < ns.len() {
                assert(all[x] == ns[x]);
            } else if x < a.len() {
                assert(all[x] == register_bindings(m)[x - ns.len()]);
            } else {
                assert(all[x] == b[x - a.len()]);
            }
        }
    }
}

proof fn lemma_consolidate_from(ps: Seq<BindingView>)
    requires
        consolidate(ps) is Some,
    ensures
        forall|x: int| 0 <= x < (consolidate(ps)->Some_0).len() ==> ps.contains(#[trigger] (consolidate(ps)->Some_0)[x]),
    decreases ps.len(),
{
    if ps.len() > 0 {
        let prev = ps.drop_last();
        lemma_consolidate_from(prev);
        let st = consolidate(prev)->Some_0;
        let out = consolidate(ps)->Some_0;
        assert forall|x: int| 0 <= x < out.len() implies ps.contains(#[trigger] out[x]) by {
            if x < st.len() {
                assert(out[x] == st[x]);
                let j = choose|j: int| 0 <= j < prev.len() && prev[j] == st[x];
                assert(ps[j] == st[x]);
            } else {
                assert(out[x] == ps[ps.len() - 1]);
            }
        }
    }
}

/// Little-endian reading in every accepted match: each number a match binds is the unsigned
/// little-endian value of a run of at most four bytes of the input, so it is below `2^32`.
pub proof fn law_bound_numbers_are_read_little_endian(
    caps: Seq<Option<(usize, usize)>>,
    bytes: Seq<u8>,
    pss: Seq<Seq<PurposeView>>,
    x: int,
)
    requires
        interpretation(caps, bytes, pss) is Some,
        0 <= x < (interpretation(caps, bytes, pss)->Some_0).0.len(),
    ensures
        number_read_from((interpretation(caps, bytes, pss)->Some_0).0[x], bytes),
        (interpretation(caps, bytes, pss)->Some_0).0[x] matches BindingView::Number(_, v) ==> v < 0x1_0000_0000,
{
    let ps = proposals_from(pss, caps, bytes, 0, 1)->Some_0;
    lemma_proposals_read(pss, caps, bytes, 0, 1);
    lemma_consolidate_from(ps);
    let st = consolidate(ps)->Some_0;
    let b = st[x];
    assert(ps.contains(b));
    let j = choose|j: int| 0 <= j < ps.len() && ps[j] == b;
    assert(number_read_from(ps[j], bytes));
    match b {
        BindingView::Number(_, v) => {
            let (a, c) = choose|a: int, c: int|
                0 <= a <= c <= bytes.len() && c - a <= 4 && v as nat == le_value(#[trigger] bytes.subrange(a, c));
            let sub = bytes.subrange(a, c);
            lemma_le_value_bound(sub);
            lemma_pow256_monotone(sub.len(), 4);
            reveal_with_fuel(pow256, 5);
        },
        _ => {},
    }
}
} // verus!
