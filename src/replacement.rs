//! Rewriting a match in place: the replacement's text with the match's bindings
//! substituted, and the write of its assembled bytes padded with NOPs.

use vstd::prelude::*;

use crate::matcher::{binding_name, binding_type, binding_value_text, bindings_view, BindingView, InstantiatedVariable};
use crate::pattern::{variable_text, InstructionPattern, ObfuscationPattern};
use crate::text::{chars_of, push_all, string_of, substitute, substitute_exec};

verus! {

/// The single-byte NOP (`xchg eax, eax`) that pads a shorter replacement.
pub const NOP: u8 = 0x90;

/// Why a replacement was not written.
#[derive(Debug, Clone, Copy, PartialEq, Eq, Structural)]
pub enum ReplacementError {
    /// The replacement assembles to more bytes than the match spans.
    ReplacementTooLarge,
    /// The assembler rejected the replacement's text.
    ReplacementAssemblyFailed,
}

/// The texts of the instruction patterns, joined by newlines.
pub open spec fn joined_text(ps: Seq<InstructionPattern>) -> Seq<char>
    decreases ps.len(),
{
    if ps.len() == 0 {
        Seq::empty()
    } else if ps.len() == 1 {
        ps[0].text()
    } else {
        joined_text(ps.drop_last()) + seq!['\n'] + ps.last().text()
    }
}

/// For each binding, its variable's text replaced by the value's text.
pub open spec fn binding_subs(bs: Seq<BindingView>) -> Seq<(Seq<char>, Seq<char>)> {
    bs.map_values(|b: BindingView| (variable_text(binding_name(b), binding_type(b)), binding_value_text(b)))
}

/// The text to assemble in place of a match: the replacement's instructions, one per
/// line, with each bound variable replaced by its value.
pub open spec fn replacement_text_spec(ps: Seq<InstructionPattern>, bs: Seq<BindingView>) -> Seq<char> {
    substitute(joined_text(ps), binding_subs(bs))
}

/// The text to assemble in place of a match with bindings `bindings`.
pub fn replacement_text(replacement: &[InstructionPattern], bindings: &[InstantiatedVariable]) -> (r: String)
    ensures
        r@ == replacement_text_spec(replacement@, bindings_view(bindings@)),
{
    let ghost ps = replacement@;
    let mut text: Vec<char> = Vec::new();
    let mut i: usize = 0;
    while i < replacement.len()
        invariant
            i <= ps.len(),
            ps == replacement@,
            text@ == joined_text(ps.subrange(0, i as int)),
        decreases ps.len() - i,
    {
        let ghost sub = ps.subrange(0, i as int + 1);
        assert(sub.drop_last() =~= ps.subrange(0, i as int));
        if i > 0 {
            text.push('\n');
        }
        let line = chars_of(replacement[i].pattern());
        push_all(&mut text, &line);
        proof {
            if i == 0 {
                assert(text@ =~= ps[0].text());
            }
        }
        i = i + 1;
    }
    assert(ps.subrange(0, i as int) =~= ps);
    let ghost bv = bindings_view(bindings@);
    let mut subs: Vec<(Vec<char>, Vec<char>)> = Vec::new();
    let mut j: usize = 0;
    while j < bindings.len()
        invariant
            j <= bindings@.len(),
            bv == bindings_view(bindings@),
            forall|k: int| 0 <= k < subs@.len() ==> (#[trigger] subs@[k]).0@.len() > 0,
            subs@.map_values(|p: (Vec<char>, Vec<char>)| (p.0@, p.1@)) == binding_subs(bv.subrange(0, j as int)),
        decreases bindings@.len() - j,
    {
        let from = bindings[j].as_variable().text_chars();
        let to = bindings[j].value_chars();
        let ghost before = subs@;
        let ghost entry = (from@, to@);
        subs.push((from, to));
        assert(subs@.map_values(|p: (Vec<char>, Vec<char>)| (p.0@, p.1@)) =~= before.map_values(|p: (Vec<char>, Vec<char>)| (p.0@, p.1@)).push(entry));
        assert(binding_subs(bv.subrange(0, j as int + 1)) =~= binding_subs(bv.subrange(0, j as int)).push(entry));
        j = j + 1;
    }
    assert(bv.subrange(0, j as int) =~= bv);
    string_of(&substitute_exec(&text, &subs))
}

impl ObfuscationPattern {
    /// The text to assemble in place of a match of this rule with bindings `bindings`.
    pub fn replacement_text(&self, bindings: &[InstantiatedVariable]) -> (r: String)
        ensures
            r@ == replacement_text_spec(self.replacement_spec(), bindings_view(bindings@)),
    {
        replacement_text(self.replacement(), bindings)
    }
}

/// `code` with `[start, end)` overwritten by `new_bytes` followed by NOPs up to `end`.
pub open spec fn patched(code: Seq<u8>, start: int, end: int, new_bytes: Seq<u8>) -> Seq<u8> {
    code.subrange(0, start) + new_bytes + Seq::new((end - start - new_bytes.len()) as nat, |i: int| NOP)
        + code.subrange(end, code.len() as int)
}

/// Writes the assembled replacement over the match `[start, end)`, padded with NOPs, if it
/// fits; otherwise leaves `code` as it was.
pub fn write_replacement(code: &mut Vec<u8>, start: usize, end: usize, assembled: &Vec<u8>) -> (r: Result<(), ReplacementError>)
    requires
        start <= end <= old(code)@.len(),
    ensures
        assembled@.len() <= end - start ==> r == Ok::<(), ReplacementError>(()) && final(code)@ == patched(old(code)@, start as int, end as int, assembled@),
        assembled@.len() > end - start ==> r == Err::<(), ReplacementError>(ReplacementError::ReplacementTooLarge)
            && final(code)@ == old(code)@,
{
    if assembled.len() > end - start {
        return Err(ReplacementError::ReplacementTooLarge);
    }
    let ghost before = code@;
    let mut i: usize = 0;
    while i < end - start
        invariant
            start <= end <= before.len(),
            assembled@.len() <= end - start,
            code@.len() == before.len(),
            i <= end - start,
            forall|k: int| 0 <= k < start ==> code@[k] == before[k],
            forall|k: int| end <= k < before.len() ==> code@[k] == before[k],
            forall|k: int| start <= k < start + i ==> code@[k] == (if k - start < assembled@.len() { assembled@[k - start] } else { NOP }),
            forall|k: int| start + i <= k < end ==> code@[k] == before[k],
        decreases end - start - i,
    {
        let b = if i < assembled.len() { assembled[i] } else { NOP };
        code.set(start + i, b);
        i = i + 1;
    }
    assert(code@ =~= patched(before, start as int, end as int, assembled@));
    Ok(())
}

/// A span's bytes after the replacements of a pass: for each match `[start, end)` in turn,
/// its assembled replacement (`None` where assembly failed) written if it fits.
pub open spec fn after_pass(code: Seq<u8>, regions: Seq<(usize, usize)>, assembled: Seq<Option<Vec<u8>>>) -> Seq<u8>
    decreases regions.len(),
{
    if regions.len() == 0 {
        code
    } else {
        let prev = after_pass(code, regions.drop_last(), assembled);
        let i = regions.len() - 1;
        let (s, e) = regions.last();
        if i < assembled.len() {
            match assembled[i] {
                Some(a) => if a@.len() <= e - s {
                    patched(prev, s as int, e as int, a@)
                } else {
                    prev
                },
                None => prev,
            }
        } else {
            prev
        }
    }
}

/// Whether the replacement of match `i` assembled and fits in it.
pub open spec fn fits(regions: Seq<(usize, usize)>, assembled: Seq<Option<Vec<u8>>>, i: int) -> bool {
    &&& 0 <= i < assembled.len()
    &&& assembled[i] is Some
    &&& assembled[i].unwrap()@.len() <= regions[i].1 - regions[i].0
}

/// What the pass reports for match `i`: written, its replacement did not assemble (the
/// output is `None` or missing), or it does not fit.
pub open spec fn outcome(regions: Seq<(usize, usize)>, assembled: Seq<Option<Vec<u8>>>, i: int) -> Result<(), ReplacementError> {
    if !(0 <= i < assembled.len()) || assembled[i] is None {
        Err(ReplacementError::ReplacementAssemblyFailed)
    } else if fits(regions, assembled, i) {
        Ok(())
    } else {
        Err(ReplacementError::ReplacementTooLarge)
    }
}

/// Whether every match lies within a span of `len` bytes.
pub open spec fn regions_within(regions: Seq<(usize, usize)>, len: nat) -> bool {
    forall|i: int| 0 <= i < regions.len() ==> (#[trigger] regions[i]).0 <= regions[i].1 && regions[i].1 <= len
}

proof fn lemma_after_pass_len(code: Seq<u8>, regions: Seq<(usize, usize)>, assembled: Seq<Option<Vec<u8>>>)
    requires
        regions_within(regions, code.len()),
    ensures
        after_pass(code, regions, assembled).len() == code.len(),
    decreases regions.len(),
{
    if regions.len() > 0 {
        lemma_after_pass_len(code, regions.drop_last(), assembled);
    }
}

/// Applies the replacements of one pass over a span, in order, and reports for each match
/// whether it was replaced; a replacement that failed to assemble or does not fit is
/// skipped and the span left as it was at that match.
pub fn apply_replacements(code: &mut Vec<u8>, regions: &Vec<(usize, usize)>, assembled: &Vec<Option<Vec<u8>>>) -> (r: Vec<Result<(), ReplacementError>>)
    requires
        regions_within(regions@, old(code)@.len()),
    ensures
        final(code)@ == after_pass(old(code)@, regions@, assembled@),
        final(code)@.len() == old(code)@.len(),
        r@.len() == regions@.len(),
        forall|i: int| 0 <= i < regions@.len() ==> #[trigger] r@[i] == outcome(regions@, assembled@, i),
{
    let ghost original = code@;
    let mut r: Vec<Result<(), ReplacementError>> = Vec::new();
    let mut i: usize = 0;
    while i < regions.len()
        invariant
            i <= regions@.len(),
            regions_within(regions@, original.len()),
            code@ == after_pass(original, regions@.subrange(0, i as int), assembled@),
            code@.len() == original.len(),
            r@.len() == i,
            forall|k: int| 0 <= k < i ==> #[trigger] r@[k] == outcome(regions@, assembled@, k),
        decreases regions@.len() - i,
    {
        let ghost sub = regions@.subrange(0, i as int + 1);
        assert(sub.drop_last() =~= regions@.subrange(0, i as int));
        assert(sub.last() == regions@[i as int]);
        let (start, end) = regions[i];
        assert(start <= end && end <= original.len()) by {
            assert(regions_within(regions@, original.len()));
            let x = regions@[i as int];
        }
        let result = if i < assembled.len() {
            match &assembled[i] {
                Some(a) => write_replacement(code, start, end, a),
                None => Err(ReplacementError::ReplacementAssemblyFailed),
            }
        } else {
            Err(ReplacementError::ReplacementAssemblyFailed)
        };
        assert(result == outcome(regions@, assembled@, i as int));
        let ghost before = r@;
        r.push(result);
        assert(forall|k: int| 0 <= k < i ==> r@[k] == before[k]);
        i = i + 1;
    }
    assert(regions@.subrange(0, i as int) =~= regions@);
    r
}

} // verus!
