//! Discovery of the concrete encodings of an instruction pattern by probing an assembler.
//!
//! Each register variable is instantiated with every register, each number variable with
//! sentinel values of 1, 2, 4 and 8 bytes; the assembler's output for each probe is then
//! cut into fixed bytes and the run of bytes that holds the number.

use vstd::arithmetic::div_mod::lemma_fundamental_div_mod_converse;
use vstd::prelude::*;

use crate::pattern::{
    all_registers, has_negated_number, has_negated_number_exec, mappings_view, register_name, unique_register_names, variable_text,
    variables_of_type, Encoding, EncodingPart, InstructionPattern, PartView, PatternError,
    Register, Variable, VariableType,
};
use crate::text::{chars_of, string_of, substitute, substitute_exec};

verus! {

/// `16` to the power `k`.
pub open spec fn pow16(k: nat) -> nat
    decreases k,
{
    if k == 0 {
        1
    } else {
        16 * pow16((k - 1) as nat)
    }
}

/// The `n`-th tuple of `k` registers, the first register the most significant digit.
pub open spec fn register_tuple(k: nat, n: nat) -> Seq<Register>
    decreases k,
{
    if k == 0 {
        Seq::empty()
    } else {
        register_tuple((k - 1) as nat, n / 16).push(all_registers()[(n % 16) as int])
    }
}

fn extend_tuple(t: &Vec<Register>, r: Register) -> (res: Vec<Register>)
    ensures
        res@ == t@.push(r),
{
    let mut res: Vec<Register> = Vec::new();
    let mut i: usize = 0;
    while i < t.len()
        invariant
            i <= t@.len(),
            res@ == t@.subrange(0, i as int),
        decreases t@.len() - i,
    {
        res.push(t[i]);
        i = i + 1;
        assert(res@ =~= t@.subrange(0, i as int));
    }
    assert(t@.subrange(0, i as int) =~= t@);
    res.push(r);
    res
}

/// Every tuple of `k` registers, in the order of `register_tuple`.
pub fn register_tuples(k: usize) -> (r: Vec<Vec<Register>>)
    ensures
        r@.len() == pow16(k as nat),
        forall|n: int| 0 <= n < r@.len() ==> (#[trigger] r@[n])@ == register_tuple(k as nat, n as nat),
{
    let all = Register::all();
    let mut cur: Vec<Vec<Register>> = vec![Vec::new()];
    assert(cur@[0]@ =~= register_tuple(0, 0));
    let mut j: usize = 0;
    while j < k
        invariant
            j <= k,
            all@ == all_registers(),
            cur@.len() == pow16(j as nat),
            forall|n: int| 0 <= n < cur@.len() ==> (#[trigger] cur@[n])@ == register_tuple(j as nat, n as nat),
        decreases k - j,
    {
        let mut next: Vec<Vec<Register>> = Vec::new();
        let mut m: usize = 0;
        while m < cur.len()
            invariant
                m <= cur@.len(),
                all@ == all_registers(),
                cur@.len() == pow16(j as nat),
                forall|n: int| 0 <= n < cur@.len() ==> (#[trigger] cur@[n])@ == register_tuple(j as nat, n as nat),
                next@.len() == 16 * m,
                forall|n: int| 0 <= n < next@.len() ==> (#[trigger] next@[n])@ == register_tuple(j as nat + 1, n as nat),
            decreases cur@.len() - m,
        {
            let mut d: usize = 0;
            while d < 16
                invariant
                    m < cur@.len(),
                    d <= 16,
                    all@ == all_registers(),
                    cur@.len() == pow16(j as nat),
                    forall|n: int| 0 <= n < cur@.len() ==> (#[trigger] cur@[n])@ == register_tuple(j as nat, n as nat),
                    next@.len() == 16 * m + d,
                    forall|n: int| 0 <= n < next@.len() ==> (#[trigger] next@[n])@ == register_tuple(j as nat + 1, n as nat),
                decreases 16 - d,
            {
                let t = extend_tuple(&cur[m], all[d]);
                proof {
                    let x = 16 * m + d;
                    lemma_fundamental_div_mod_converse(x as int, 16, m as int, d as int);
                    assert(register_tuple(j as nat + 1, x as nat) == register_tuple(j as nat, m as nat).push(all_registers()[d as int]));
                }
                next.push(t);
                d = d + 1;
            }
            m = m + 1;
        }
        cur = next;
        j = j + 1;
    }
    cur
}

/// Where, counted from the end, the sentinel byte `0x0F` marks the start of the run of
/// 1, 2, 4 or 8 bytes that holds the probed number.
pub open spec fn detect_len(b: Seq<u8>) -> Option<u8> {
    let n = b.len();
    if n >= 1 && b[n - 1] == 0x0F {
        Some(1)
    } else if n >= 2 && b[n - 2] == 0x0F {
        Some(2)
    } else if n >= 4 && b[n - 4] == 0x0F {
        Some(4)
    } else if n >= 8 && b[n - 8] == 0x0F {
        Some(8)
    } else {
        None
    }
}

/// The length of the run of bytes that holds the probed number at the end of an
/// assembled probe.
pub fn detect_intermediate_len(encoded: &[u8]) -> (r: Result<u8, PatternError>)
    ensures
        match detect_len(encoded@) {
            Some(l) => r == Ok::<u8, PatternError>(l),
            None => r == Err::<u8, PatternError>(PatternError::DetectionError),
        },
{
    let n = encoded.len();
    if n >= 1 && encoded[n - 1] == 0x0F {
        Ok(1)
    } else if n >= 2 && encoded[n - 2] == 0x0F {
        Ok(2)
    } else if n >= 4 && encoded[n - 4] == 0x0F {
        Ok(4)
    } else if n >= 8 && encoded[n - 8] == 0x0F {
        Ok(8)
    } else {
        Err(PatternError::DetectionError)
    }
}

/// The hexadecimal literal substituted for the number variable in the probe of width `w`
/// (`0x0F`, `0xDD0F`, `0xDDDDDD0F`, `0xDDDDDDDDDDDDDD0F`).
pub open spec fn sentinel(w: int) -> Seq<char> {
    let dd = seq!['D', 'D'];
    if w == 0 {
        seq!['0', 'x', '0', 'F']
    } else if w == 1 {
        seq!['0', 'x'] + dd + seq!['0', 'F']
    } else if w == 2 {
        seq!['0', 'x'] + dd + dd + dd + seq!['0', 'F']
    } else {
        seq!['0', 'x'] + dd + dd + dd + dd + dd + dd + dd + seq!['0', 'F']
    }
}

fn sentinel_exec(w: usize) -> (r: Vec<char>)
    ensures
        r@ == sentinel(w as int),
{
    let mut r: Vec<char> = vec!['0', 'x'];
    let pairs: usize = if w == 0 { 0 } else if w == 1 { 1 } else if w == 2 { 3 } else { 7 };
    let mut i: usize = 0;
    while i < pairs
        invariant
            i <= pairs,
            r@.len() == 2 + 2 * i,
            r@[0] == '0' && r@[1] == 'x',
            forall|k: int| 2 <= k < r@.len() ==> r@[k] == 'D',
        decreases pairs - i,
    {
        r.push('D');
        r.push('D');
        i = i + 1;
    }
    r.push('0');
    r.push('F');
    assert(r@ =~= sentinel(w as int));
    r
}

/// How many probes each register tuple gets: one per sentinel width when the pattern has
/// a number variable, else one.
pub open spec fn widths(vars: Seq<(Seq<char>, VariableType)>) -> nat {
    if variables_of_type(vars, VariableType::Number).len() == 1 {
        4
    } else {
        1
    }
}

/// Each register variable's text, replaced by the register's name.
pub open spec fn register_subs(names: Seq<Seq<char>>, t: Seq<Register>) -> Seq<(Seq<char>, Seq<char>)> {
    Seq::new(names.len(), |i: int| (variable_text(names[i], VariableType::Register), register_name(t[i])))
}

/// Each length variable's text, erased.
pub open spec fn length_subs(vars: Seq<(Seq<char>, VariableType)>) -> Seq<(Seq<char>, Seq<char>)> {
    variables_of_type(vars, VariableType::Length).map_values(
        |v: (Seq<char>, VariableType)| (variable_text(v.0, VariableType::Length), Seq::<char>::empty()),
    )
}

/// The number variable's text, replaced by the sentinel of width `w`.
pub open spec fn number_subs(vars: Seq<(Seq<char>, VariableType)>, w: int) -> Seq<(Seq<char>, Seq<char>)> {
    let nums = variables_of_type(vars, VariableType::Number);
    if nums.len() == 1 {
        seq![(variable_text(nums[0].0, VariableType::Number), sentinel(w))]
    } else {
        Seq::empty()
    }
}

/// The text handed to the assembler for register tuple `t` and sentinel width `w`.
pub open spec fn probe_text(text: Seq<char>, vars: Seq<(Seq<char>, VariableType)>, t: Seq<Register>, w: int) -> Seq<char> {
    substitute(text, register_subs(unique_register_names(vars), t) + length_subs(vars) + number_subs(vars, w))
}

/// The register bindings of the probes of register tuple `t`.
pub open spec fn probe_mappings(vars: Seq<(Seq<char>, VariableType)>, t: Seq<Register>) -> Seq<(Seq<char>, Register)> {
    let names = unique_register_names(vars);
    Seq::new(names.len(), |i: int| (names[i], t[i]))
}

/// How many probes a pattern gets.
pub open spec fn probe_count(vars: Seq<(Seq<char>, VariableType)>) -> nat {
    pow16(unique_register_names(vars).len()) * widths(vars)
}

/// The register tuple of probe `i`.
pub open spec fn probe_tuple(vars: Seq<(Seq<char>, VariableType)>, i: int) -> Seq<Register> {
    register_tuple(unique_register_names(vars).len(), (i / widths(vars) as int) as nat)
}

/// The sentinel width of probe `i`.
pub open spec fn probe_width(vars: Seq<(Seq<char>, VariableType)>, i: int) -> int {
    i % widths(vars) as int
}

/// One text to assemble, with the register bindings it stands for.
pub struct Probe {
    pub text: Vec<char>,
    pub register_mappings: Vec<(String, Register)>,
}

/// Whether `probe` is the `i`-th probe of a pattern with text `text` and variables `vars`.
pub open spec fn is_probe(probe: Probe, text: Seq<char>, vars: Seq<(Seq<char>, VariableType)>, i: int) -> bool {
    &&& probe.text@ == probe_text(text, vars, probe_tuple(vars, i), probe_width(vars, i))
    &&& mappings_view(probe.register_mappings@) == probe_mappings(vars, probe_tuple(vars, i))
}


fn length_variables(vars: &[Variable]) -> (r: Vec<&Variable>)
    ensures
        r@.len() == variables_of_type(crate::pattern::variables_view(vars@), VariableType::Length).len(),
        forall|i: int| 0 <= i < r@.len() ==> (#[trigger] r@[i])@ == variables_of_type(crate::pattern::variables_view(vars@), VariableType::Length)[i],
{
    let ghost vv = crate::pattern::variables_view(vars@);
    let mut r: Vec<&Variable> = Vec::new();
    let mut i: usize = 0;
    while i < vars.len()
        invariant
            i <= vars@.len(),
            vv == crate::pattern::variables_view(vars@),
            r@.len() == variables_of_type(vv.subrange(0, i as int), VariableType::Length).len(),
            forall|k: int| 0 <= k < r@.len() ==> (#[trigger] r@[k])@ == variables_of_type(vv.subrange(0, i as int), VariableType::Length)[k],
        decreases vars@.len() - i,
    {
        assert(vv.subrange(0, i as int + 1).drop_last() =~= vv.subrange(0, i as int));
        if vars[i].typee() == VariableType::Length {
            r.push(&vars[i]);
        }
        i = i + 1;
    }
    assert(vv.subrange(0, i as int) =~= vv);
    r
}

/// The substitutions of one probe: registers, then erased lengths, then the sentinel.
fn probe_subs(
    regs: &Vec<&Variable>,
    t: &Vec<Register>,
    lens: &Vec<&Variable>,
    num: Option<&Variable>,
    w: usize,
) -> (r: Vec<(Vec<char>, Vec<char>)>)
    requires
        t@.len() == regs@.len(),
        forall|i: int| 0 <= i < regs@.len() ==> (#[trigger] regs@[i])@.1 == VariableType::Register,
        forall|i: int| 0 <= i < lens@.len() ==> (#[trigger] lens@[i])@.1 == VariableType::Length,
        num matches Some(v) ==> v@.1 == VariableType::Number,
    ensures
        forall|k: int| 0 <= k < r@.len() ==> (#[trigger] r@[k]).0@.len() > 0,
        r@.map_values(|p: (Vec<char>, Vec<char>)| (p.0@, p.1@)) == Seq::new(
            regs@.len(),
            |i: int| (variable_text(regs@[i]@.0, VariableType::Register), register_name(t@[i])),
        ) + lens@.map_values(|v: &Variable| (variable_text(v@.0, VariableType::Length), Seq::<char>::empty())) + match num {
            Some(v) => seq![(variable_text(v@.0, VariableType::Number), sentinel(w as int))],
            None => Seq::<(Seq<char>, Seq<char>)>::empty(),
        },
{
    let ghost regs_part = Seq::new(
        regs@.len(),
        |i: int| (variable_text(regs@[i]@.0, VariableType::Register), register_name(t@[i])),
    );
    let ghost lens_part = lens@.map_values(|v: &Variable| (variable_text(v@.0, VariableType::Length), Seq::<char>::empty()));
    let mut r: Vec<(Vec<char>, Vec<char>)> = Vec::new();
    let mut i: usize = 0;
    while i < regs.len()
        invariant
            i <= regs@.len(),
            t@.len() == regs@.len(),
            forall|i: int| 0 <= i < regs@.len() ==> (#[trigger] regs@[i])@.1 == VariableType::Register,
            forall|k: int| 0 <= k < r@.len() ==> (#[trigger] r@[k]).0@.len() > 0,
            regs_part == Seq::new(
                regs@.len(),
                |i: int| (variable_text(regs@[i]@.0, VariableType::Register), register_name(t@[i])),
            ),
            r@.map_values(|p: (Vec<char>, Vec<char>)| (p.0@, p.1@)) == regs_part.subrange(0, i as int),
        decreases regs@.len() - i,
    {
        let from = regs[i].text_chars();
        let to = chars_of(t[i].name());
        let ghost before = r@;
        let ghost entry = (from@, to@);
        assert(regs@[i as int]@.1 == VariableType::Register);
        assert(entry == regs_part[i as int]);
        r.push((from, to));
        assert(r@.map_values(|p: (Vec<char>, Vec<char>)| (p.0@, p.1@)) =~= before.map_values(|p: (Vec<char>, Vec<char>)| (p.0@, p.1@)).push(entry));
        assert(r@.map_values(|p: (Vec<char>, Vec<char>)| (p.0@, p.1@)) =~= regs_part.subrange(0, i as int + 1));
        i = i + 1;
    }
    assert(regs_part.subrange(0, i as int) =~= regs_part);
    let mut j: usize = 0;
    while j < lens.len()
        invariant
            j <= lens@.len(),
            forall|i: int| 0 <= i < lens@.len() ==> (#[trigger] lens@[i])@.1 == VariableType::Length,
            forall|k: int| 0 <= k < r@.len() ==> (#[trigger] r@[k]).0@.len() > 0,
            lens_part == lens@.map_values(|v: &Variable| (variable_text(v@.0, VariableType::Length), Seq::<char>::empty())),
            r@.map_values(|p: (Vec<char>, Vec<char>)| (p.0@, p.1@)) == regs_part + lens_part.subrange(0, j as int),
        decreases lens@.len() - j,
    {
        let from = lens[j].text_chars();
        let ghost before = r@;
        let ghost entry = (from@, Seq::<char>::empty());
        assert(lens@[j as int]@.1 == VariableType::Length);
        assert(entry == lens_part[j as int]);
        r.push((from, Vec::new()));
        assert(r@.map_values(|p: (Vec<char>, Vec<char>)| (p.0@, p.1@)) =~= before.map_values(|p: (Vec<char>, Vec<char>)| (p.0@, p.1@)).push(entry));
        assert(r@.map_values(|p: (Vec<char>, Vec<char>)| (p.0@, p.1@)) =~= regs_part + lens_part.subrange(0, j as int + 1));
        j = j + 1;
    }
    assert(lens_part.subrange(0, j as int) =~= lens_part);
    let ghost before = r@.map_values(|p: (Vec<char>, Vec<char>)| (p.0@, p.1@));
    match num {
        Some(v) => {
            let from = v.text_chars();
            r.push((from, sentinel_exec(w)));
            assert(r@.map_values(|p: (Vec<char>, Vec<char>)| (p.0@, p.1@)) =~= before + seq![(variable_text(v@.0, VariableType::Number), sentinel(w as int))]);
        },
        None => {
            assert(before + Seq::<(Seq<char>, Seq<char>)>::empty() =~= before);
        },
    }
    r
}

fn register_bindings(regs: &Vec<&Variable>, t: &Vec<Register>) -> (r: Vec<(String, Register)>)
    requires
        t@.len() == regs@.len(),
    ensures
        mappings_view(r@) == Seq::new(regs@.len(), |i: int| (regs@[i]@.0, t@[i])),
{
    let ghost target = Seq::new(regs@.len(), |i: int| (regs@[i]@.0, t@[i]));
    let mut r: Vec<(String, Register)> = Vec::new();
    let mut i: usize = 0;
    while i < regs.len()
        invariant
            i <= regs@.len(),
            t@.len() == regs@.len(),
            target == Seq::new(regs@.len(), |i: int| (regs@[i]@.0, t@[i])),
            mappings_view(r@) == target.subrange(0, i as int),
        decreases regs@.len() - i,
    {
        let name = regs[i].name().to_string();
        let ghost before = r@;
        let ghost entry = (name@, t@[i as int]);
        r.push((name, t[i]));
        assert(mappings_view(r@) =~= mappings_view(before).push(entry));
        assert(mappings_view(r@) =~= target.subrange(0, i as int + 1));
        i = i + 1;
    }
    assert(target.subrange(0, i as int) =~= target);
    r
}

proof fn lemma_register_tuple_len(k: nat, n: nat)
    ensures
        register_tuple(k, n).len() == k,
    decreases k,
{
    if k > 0 {
        lemma_register_tuple_len((k - 1) as nat, n / 16);
    }
}

proof fn lemma_index_split(n: int, w: int, count: int)
    requires
        count > 0,
        0 <= n,
        0 <= w < count,
    ensures
        (n * count + w) / count == n,
        (n * count + w) % count == w,
{
    lemma_fundamental_div_mod_converse(n * count + w, count, n, w);
}

impl InstructionPattern {
    /// Every probe of the pattern, in order: for each register tuple, one per sentinel width.
    fn probes(&self) -> (r: Vec<Probe>)
        ensures
            r@.len() == probe_count(self.vars()),
            forall|i: int| 0 <= i < r@.len() ==> is_probe(#[trigger] r@[i], self.text(), self.vars(), i),
    {
        let ghost vars = self.vars();
        let ghost names = unique_register_names(vars);
        let regs = self.unique_register_variables();
        let nums = self.number_variables();
        let lens = length_variables(self.variables());
        let num: Option<&Variable> = if nums.len() == 1 { Some(nums[0]) } else { None };
        let count: usize = if nums.len() == 1 { 4 } else { 1 };
        let tuples = register_tuples(regs.len());
        let text = chars_of(self.pattern());
        proof {
            assert forall|i: int| 0 <= i < regs@.len() implies (#[trigger] regs@[i])@.1 == VariableType::Register by {}
            assert forall|i: int| 0 <= i < lens@.len() implies (#[trigger] lens@[i])@.1 == VariableType::Length by {
                assert(variables_of_type(vars, VariableType::Length)[i].1 == VariableType::Length) by {
                    lemma_variables_of_type(vars, VariableType::Length);
                }
            }
            if nums.len() == 1 {
                lemma_variables_of_type(vars, VariableType::Number);
            }
            assert(lens@.map_values(|v: &Variable| (variable_text(v@.0, VariableType::Length), Seq::<char>::empty())) =~= length_subs(vars));
        }
        let mut r: Vec<Probe> = Vec::new();
        let mut n: usize = 0;
        while n < tuples.len()
            invariant
                n <= tuples@.len(),
                tuples@.len() == pow16(regs@.len() as nat),
                forall|m: int| 0 <= m < tuples@.len() ==> (#[trigger] tuples@[m])@ == register_tuple(regs@.len() as nat, m as nat),
                regs@.len() == names.len(),
                forall|i: int| 0 <= i < regs@.len() ==> (#[trigger] regs@[i])@ == (names[i], VariableType::Register),
                forall|i: int| 0 <= i < lens@.len() ==> (#[trigger] lens@[i])@.1 == VariableType::Length,
                lens@.map_values(|v: &Variable| (variable_text(v@.0, VariableType::Length), Seq::<char>::empty())) == length_subs(vars),
                num matches Some(v) ==> v@.1 == VariableType::Number,
                num matches Some(v) ==> variables_of_type(vars, VariableType::Number).len() == 1
                    && v@ == variables_of_type(vars, VariableType::Number)[0],
                num is None ==> variables_of_type(vars, VariableType::Number).len() != 1,
                count == widths(vars),
                vars == self.vars(),
                names == unique_register_names(vars),
                text@ == self.text(),
                r@.len() == n * count,
                forall|i: int| 0 <= i < r@.len() ==> is_probe(#[trigger] r@[i], self.text(), vars, i),
            decreases tuples@.len() - n,
        {
            let t = &tuples[n];
            proof {
                lemma_register_tuple_len(regs@.len() as nat, n as nat);
            }
            let mut w: usize = 0;
            while w < count
                invariant
                    n < tuples@.len(),
                    w <= count,
                    count == widths(vars),
                    count == 1 || count == 4,
                    t@ == register_tuple(regs@.len() as nat, n as nat),
                    t@.len() == regs@.len(),
                    regs@.len() == names.len(),
                    forall|i: int| 0 <= i < regs@.len() ==> (#[trigger] regs@[i])@ == (names[i], VariableType::Register),
                    forall|i: int| 0 <= i < lens@.len() ==> (#[trigger] lens@[i])@.1 == VariableType::Length,
                    lens@.map_values(|v: &Variable| (variable_text(v@.0, VariableType::Length), Seq::<char>::empty())) == length_subs(vars),
                    num matches Some(v) ==> v@.1 == VariableType::Number,
                    num matches Some(v) ==> variables_of_type(vars, VariableType::Number).len() == 1
                        && v@ == variables_of_type(vars, VariableType::Number)[0],
                    num is None ==> variables_of_type(vars, VariableType::Number).len() != 1,
                    vars == self.vars(),
                    names == unique_register_names(vars),
                    text@ == self.text(),
                    r@.len() == n * count + w,
                    forall|i: int| 0 <= i < r@.len() ==> is_probe(#[trigger] r@[i], self.text(), vars, i),
                decreases count - w,
            {
                let subs = probe_subs(&regs, t, &lens, num, w);
                let probe_text_chars = substitute_exec(&text, &subs);
                let mappings = register_bindings(&regs, t);
                proof {
                    let i = n * count + w;
                    lemma_index_split(n as int, w as int, count as int);
                    assert(probe_tuple(vars, i as int) == t@);
                    assert(probe_width(vars, i as int) == w);
                    assert(Seq::new(regs@.len(), |k: int| (variable_text(regs@[k]@.0, VariableType::Register), register_name(t@[k])))
                        =~= register_subs(names, t@));
                    assert(match num {
                        Some(v) => seq![(variable_text(v@.0, VariableType::Number), sentinel(w as int))],
                        None => Seq::<(Seq<char>, Seq<char>)>::empty(),
                    } =~= number_subs(vars, w as int));
                    assert(Seq::new(regs@.len(), |k: int| (regs@[k]@.0, t@[k])) =~= probe_mappings(vars, t@));
                }
                r.push(Probe { text: probe_text_chars, register_mappings: mappings });
                w = w + 1;
            }
            n = n + 1;
        }
        r
    }

    /// The texts to assemble to discover the pattern's encodings, in the order in which
    /// `find_encodings` expects the assembler's outputs.
    pub fn probe_texts(&self) -> (r: Vec<String>)
        ensures
            r@.len() == probe_count(self.vars()),
            forall|i: int| 0 <= i < r@.len() ==> (#[trigger] r@[i])@ == probe_text(
                self.text(),
                self.vars(),
                probe_tuple(self.vars(), i),
                probe_width(self.vars(), i),
            ),
    {
        let probes = self.probes();
        let mut r: Vec<String> = Vec::new();
        let mut i: usize = 0;
        while i < probes.len()
            invariant
                i <= probes@.len(),
                probes@.len() == probe_count(self.vars()),
                forall|k: int| 0 <= k < probes@.len() ==> is_probe(#[trigger] probes@[k], self.text(), self.vars(), k),
                r@.len() == i,
                forall|k: int| 0 <= k < r@.len() ==> (#[trigger] r@[k])@ == probe_text(
                    self.text(),
                    self.vars(),
                    probe_tuple(self.vars(), k),
                    probe_width(self.vars(), k),
                ),
            decreases probes@.len() - i,
        {
            assert(is_probe(probes@[i as int], self.text(), self.vars(), i as int));
            r.push(string_of(&probes[i].text));
            i = i + 1;
        }
        r
    }
}

proof fn lemma_variables_of_type(vars: Seq<(Seq<char>, VariableType)>, t: VariableType)
    ensures
        forall|i: int| 0 <= i < variables_of_type(vars, t).len() ==> (#[trigger] variables_of_type(vars, t)[i]).1 == t,
    decreases vars.len(),
{
    if vars.len() > 0 {
        lemma_variables_of_type(vars.drop_last(), t);
    }
}


/// What the assembler gave for probe `i`, if anything.
pub open spec fn assembled_at(outs: Seq<Option<Vec<u8>>>, i: int) -> Option<Seq<u8>> {
    if 0 <= i < outs.len() {
        match outs[i] {
            Some(b) => Some(b@),
            None => None,
        }
    } else {
        None
    }
}

/// The encoding that probe `i` yields from the assembler's output `out`, or why none.
pub open spec fn probe_outcome(vars: Seq<(Seq<char>, VariableType)>, i: int, out: Option<Seq<u8>>) -> Result<
    (Seq<PartView>, Seq<(Seq<char>, Register)>),
    PatternError,
> {
    let maps = probe_mappings(vars, probe_tuple(vars, i));
    match out {
        None => Err(PatternError::AssemblyFailed),
        Some(b) => if widths(vars) == 1 {
            Ok((seq![PartView::Fixed(b)], maps))
        } else {
            match detect_len(b) {
                Some(l) => Ok(
                    (
                        seq![
                            PartView::Fixed(b.subrange(0, b.len() - l)),
                            PartView::Intermediate(l, variables_of_type(vars, VariableType::Number)[0].0),
                        ],
                        maps,
                    ),
                ),
                None => Err(PatternError::DetectionError),
            }
        },
    }
}

/// The outcomes of all probes of a pattern, given the assembler's outputs.
pub open spec fn probe_outcomes(vars: Seq<(Seq<char>, VariableType)>, outs: Seq<Option<Vec<u8>>>) -> Seq<
    Result<(Seq<PartView>, Seq<(Seq<char>, Register)>), PatternError>,
> {
    Seq::new(probe_count(vars), |i: int| probe_outcome(vars, i, assembled_at(outs, i)))
}

/// The successful results, in order.
pub open spec fn successes<E>(rs: Seq<Result<E, PatternError>>) -> Seq<E>
    decreases rs.len(),
{
    if rs.len() == 0 {
        Seq::empty()
    } else {
        let prev = successes(rs.drop_last());
        match rs.last() {
            Ok(e) => prev.push(e),
            Err(_) => prev,
        }
    }
}

/// The elements in order of first occurrence, each once.
pub open spec fn dedup<E>(s: Seq<E>) -> Seq<E>
    decreases s.len(),
{
    if s.len() == 0 {
        Seq::empty()
    } else {
        let prev = dedup(s.drop_last());
        if prev.contains(s.last()) {
            prev
        } else {
            prev.push(s.last())
        }
    }
}

/// The encodings of a pattern with text `text` and variables `vars`, given the assembler's
/// output for each of its probes.
pub open spec fn discovered(text: Seq<char>, vars: Seq<(Seq<char>, VariableType)>, outs: Seq<Option<Vec<u8>>>) -> Result<
    Seq<(Seq<PartView>, Seq<(Seq<char>, Register)>)>,
    PatternError,
> {
    if has_negated_number(text) {
        Err(PatternError::NegatedNumberVariable)
    } else if variables_of_type(vars, VariableType::Number).len() >= 2 {
        Err(PatternError::MultipleNumberVariables)
    } else if vars.len() == 0 {
        match assembled_at(outs, 0) {
            Some(b) => Ok(seq![(seq![PartView::Fixed(b)], Seq::empty())]),
            None => Err(PatternError::DetectionError),
        }
    } else {
        let outcomes = probe_outcomes(vars, outs);
        let encs = dedup(successes(outcomes));
        if encs.len() > 0 {
            Ok(encs)
        } else if forall|i: int| 0 <= i < outcomes.len() ==> outcomes[i] == Err::<(Seq<PartView>, Seq<(Seq<char>, Register)>), PatternError>(PatternError::AssemblyFailed) {
            Err(PatternError::AssemblyFailed)
        } else {
            Err(PatternError::DetectionError)
        }
    }
}

fn copy_prefix(b: &Vec<u8>, n: usize) -> (r: Vec<u8>)
    requires
        n <= b@.len(),
    ensures
        r@ == b@.subrange(0, n as int),
{
    let mut r: Vec<u8> = Vec::new();
    let mut i: usize = 0;
    while i < n
        invariant
            i <= n,
            n <= b@.len(),
            r@ == b@.subrange(0, i as int),
        decreases n - i,
    {
        r.push(b[i]);
        i = i + 1;
        assert(r@ =~= b@.subrange(0, i as int));
    }
    r
}

pub(crate) fn copy_mappings(m: &[(String, Register)]) -> (r: Vec<(String, Register)>)
    ensures
        mappings_view(r@) == mappings_view(m@),
{
    let mut r: Vec<(String, Register)> = Vec::new();
    let mut i: usize = 0;
    while i < m.len()
        invariant
            i <= m@.len(),
            mappings_view(r@) == mappings_view(m@).subrange(0, i as int),
        decreases m@.len() - i,
    {
        let name = m[i].0.clone();
        let ghost before = r@;
        r.push((name, m[i].1));
        assert(mappings_view(r@) =~= mappings_view(before).push((m@[i as int].0@, m@[i as int].1)));
        assert(mappings_view(r@) =~= mappings_view(m@).subrange(0, i as int + 1));
        i = i + 1;
    }
    assert(mappings_view(m@).subrange(0, i as int) =~= mappings_view(m@));
    r
}

fn contains_encoding(encs: &Vec<Encoding>, e: &Encoding) -> (r: bool)
    ensures
        r == encs@.map_values(|x: Encoding| x@).contains(e@),
{
    let ghost views = encs@.map_values(|x: Encoding| x@);
    let mut i: usize = 0;
    while i < encs.len()
        invariant
            i <= encs@.len(),
            views == encs@.map_values(|x: Encoding| x@),
            forall|k: int| 0 <= k < i ==> views[k] != e@,
        decreases encs@.len() - i,
    {
        if encs[i].same_as(e) {
            assert(views[i as int] == e@);
            return true;
        }
        i = i + 1;
    }
    false
}

impl InstructionPattern {
    /// The encoding that one probe yields from the assembler's output, or why none.
    fn probe_outcome_exec(probe: &Probe, out: Option<&Vec<u8>>, num: Option<&Variable>) -> (r: Result<Encoding, PatternError>)
        ensures
            match out {
                None => r == Err::<Encoding, PatternError>(PatternError::AssemblyFailed),
                Some(b) => match num {
                    None => r matches Ok(e) && e@ == (seq![PartView::Fixed(b@)], mappings_view(probe.register_mappings@)),
                    Some(v) => match detect_len(b@) {
                        Some(l) => r matches Ok(e) && e@ == (
                            seq![PartView::Fixed(b@.subrange(0, b@.len() - l)), PartView::Intermediate(l, v@.0)],
                            mappings_view(probe.register_mappings@),
                        ),
                        None => r == Err::<Encoding, PatternError>(PatternError::DetectionError),
                    },
                },
            },
    {
        match out {
            None => Err(PatternError::AssemblyFailed),
            Some(b) => {
                let maps = copy_mappings(&probe.register_mappings);
                match num {
                    None => {
                        let parts = vec![EncodingPart::Fixed(copy_prefix(b, b.len()))];
                        assert(b@.subrange(0, b@.len() as int) =~= b@);
                        let ghost pv = parts@.map_values(|p: EncodingPart| p@);
                        assert(pv =~= seq![PartView::Fixed(b@)]);
                        Ok(Encoding::new(parts, maps))
                    },
                    Some(v) => match detect_intermediate_len(b.as_slice()) {
                        Ok(l) => {
                            let fixed = copy_prefix(b, b.len() - l as usize);
                            let parts = vec![
                                EncodingPart::Fixed(fixed),
                                EncodingPart::Intermediate { length: l, variable_name: v.name().to_string() },
                            ];
                            let ghost pv = parts@.map_values(|p: EncodingPart| p@);
                            assert(pv =~= seq![PartView::Fixed(b@.subrange(0, b@.len() - l)), PartView::Intermediate(l, v@.0)]);
                            Ok(Encoding::new(parts, maps))
                        },
                        Err(e) => Err(e),
                    },
                }
            },
        }
    }

    /// The pattern's encodings, given the assembler's output for each text of
    /// `probe_texts` (`None` where it failed), each encoding once.
    pub fn find_encodings(&self, assembled: &Vec<Option<Vec<u8>>>) -> (r: Result<Vec<Encoding>, PatternError>)
        ensures
            match discovered(self.text(), self.vars(), assembled@) {
                Ok(encs) => r matches Ok(v) && v@.map_values(|e: Encoding| e@) == encs,
                Err(e) => r == Err::<Vec<Encoding>, PatternError>(e),
            },
    {
        let ghost vars = self.vars();
        let text = chars_of(self.pattern());
        if has_negated_number_exec(&text) {
            return Err(PatternError::NegatedNumberVariable);
        }
        let nums = self.number_variables();
        if nums.len() >= 2 {
            return Err(PatternError::MultipleNumberVariables);
        }
        if self.variables().len() == 0 {
            assert(vars.len() == 0);
            if assembled.len() > 0 {
                match &assembled[0] {
                    Some(b) => {
                        let parts = vec![EncodingPart::Fixed(copy_prefix(b, b.len()))];
                        assert(b@.subrange(0, b@.len() as int) =~= b@);
                        let e = Encoding::new(parts, Vec::new());
                        assert(e@ =~= (seq![PartView::Fixed(b@)], Seq::<(Seq<char>, Register)>::empty()));
                        let encs = vec![e];
                        assert(encs@.map_values(|e: Encoding| e@) =~= seq![(seq![PartView::Fixed(b@)], Seq::<(Seq<char>, Register)>::empty())]);
                        return Ok(encs);
                    },
                    None => {},
                }
            }
            return Err(PatternError::DetectionError);
        }
        let num: Option<&Variable> = if nums.len() == 1 { Some(nums[0]) } else { None };
        let probes = self.probes();
        let ghost outcomes = probe_outcomes(vars, assembled@);
        let mut encs: Vec<Encoding> = Vec::new();
        let mut all_failed = true;
        let mut i: usize = 0;
        while i < probes.len()
            invariant
                i <= probes@.len(),
                probes@.len() == probe_count(vars),
                vars == self.vars(),
                outcomes == probe_outcomes(vars, assembled@),
                forall|k: int| 0 <= k < probes@.len() ==> is_probe(#[trigger] probes@[k], self.text(), vars, k),
                num matches Some(v) ==> widths(vars) == 4 && v@ == variables_of_type(vars, VariableType::Number)[0],
                num is None ==> widths(vars) == 1,
                encs@.map_values(|e: Encoding| e@) == dedup(successes(outcomes.subrange(0, i as int))),
                all_failed == forall|k: int| 0 <= k < i ==> outcomes[k] == Err::<(Seq<PartView>, Seq<(Seq<char>, Register)>), PatternError>(PatternError::AssemblyFailed),
            decreases probes@.len() - i,
        {
            let out: Option<&Vec<u8>> = if i < assembled.len() {
                match &assembled[i] {
                    Some(b) => Some(b),
                    None => None,
                }
            } else {
                None
            };
            let outcome = Self::probe_outcome_exec(&probes[i], out, num);
            proof {
                assert(is_probe(probes@[i as int], self.text(), vars, i as int));
                assert(outcomes.subrange(0, i as int + 1).drop_last() =~= outcomes.subrange(0, i as int));
                assert(outcomes.subrange(0, i as int + 1).last() == outcomes[i as int]);
            }
            match outcome {
                Ok(e) => {
                    assert(outcomes[i as int] == Ok::<(Seq<PartView>, Seq<(Seq<char>, Register)>), PatternError>(e@));
                    proof {
                        let s0 = successes(outcomes.subrange(0, i as int));
                        let s1 = successes(outcomes.subrange(0, i as int + 1));
                        assert(s1 == s0.push(e@));
                        assert(s1.drop_last() =~= s0);
                        assert(s1.last() == e@);
                    }
                    if !contains_encoding(&encs, &e) {
                        let ghost before = encs@;
                        encs.push(e);
                        assert(encs@.map_values(|e: Encoding| e@) =~= before.map_values(|e: Encoding| e@).push(e@));
                    }
                    all_failed = false;
                },
                Err(err) => {
                    assert(outcomes[i as int] == Err::<(Seq<PartView>, Seq<(Seq<char>, Register)>), PatternError>(err));
                    assert(successes(outcomes.subrange(0, i as int + 1)) == successes(outcomes.subrange(0, i as int)));
                    match err {
                        PatternError::AssemblyFailed => {},
                        _ => {
                            all_failed = false;
                        },
                    }
                },
            }
            i = i + 1;
        }
        assert(outcomes.subrange(0, i as int) =~= outcomes);
        if encs.len() > 0 {
            Ok(encs)
        } else if all_failed {
            Err(PatternError::AssemblyFailed)
        } else {
            Err(PatternError::DetectionError)
        }
    }
}

} // verus!
