//! Matchers: encodings compiled into a byte regex, and matches interpreted back into
//! consistent variable bindings.

use vstd::prelude::*;

use crate::byte_regex::{captures_of, regex_accepts, ByteRegex};
use crate::discovery::{copy_mappings, discovered};
use crate::pattern::{
    mappings_view, register_name, same_patterns, Encoding, EncodingPart, InstructionPattern,
    PartView, PatternError, Register, Variable, VariableType,
};
use crate::text::{chars_of, hex_digit, hex_digit_exec, hex_literal, hex_literal_exec, push_all, string_of};

verus! {

/// What a capture group of a matcher's regex stands for, in mathematical terms.
pub enum PurposeView {
    NumberVariable(Seq<char>),
    NewEncoding(Seq<(Seq<char>, Register)>),
    WholeMatch,
}

/// What a capture group of a matcher's regex stands for.
#[derive(Debug)]
pub enum CaptureGroupPurpose {
    /// The group holds the bytes of a number variable.
    NumberVariable(String),
    /// The group spans one encoding; the registers its register variables stood for.
    NewEncoding(Vec<(String, Register)>),
    /// The group spans the whole instruction.
    WholeMatch,
}

impl View for CaptureGroupPurpose {
    type V = PurposeView;

    open spec fn view(&self) -> PurposeView {
        match self {
            CaptureGroupPurpose::NumberVariable(n) => PurposeView::NumberVariable(n@),
            CaptureGroupPurpose::NewEncoding(m) => PurposeView::NewEncoding(mappings_view(m@)),
            CaptureGroupPurpose::WholeMatch => PurposeView::WholeMatch,
        }
    }
}

/// The views of a sequence of purposes.
pub open spec fn purposes_view(p: Seq<CaptureGroupPurpose>) -> Seq<PurposeView> {
    p.map_values(|x: CaptureGroupPurpose| x@)
}

/// `\xHH`: the regex escape of one byte, in lower-case hexadecimal.
pub open spec fn byte_escape(b: u8) -> Seq<char> {
    seq!['\\', 'x', hex_digit((b / 16) as nat), hex_digit((b % 16) as nat)]
}

/// The escapes of a run of literal bytes.
pub open spec fn fixed_regex(bs: Seq<u8>) -> Seq<char>
    decreases bs.len(),
{
    if bs.len() == 0 {
        Seq::empty()
    } else {
        fixed_regex(bs.drop_last()) + byte_escape(bs.last())
    }
}

/// The regex of one part: its escaped bytes, or a group of `length` dots.
pub open spec fn part_regex(p: PartView) -> Seq<char> {
    match p {
        PartView::Fixed(bs) => fixed_regex(bs),
        PartView::Intermediate(l, _) => seq!['('] + Seq::new(l as nat, |i: int| '.') + seq![')'],
    }
}

/// The regexes of the parts, one after the other.
pub open spec fn parts_regex(ps: Seq<PartView>) -> Seq<char>
    decreases ps.len(),
{
    if ps.len() == 0 {
        Seq::empty()
    } else {
        parts_regex(ps.drop_last()) + part_regex(ps.last())
    }
}

/// The regex of one encoding: its parts, in a group.
pub open spec fn encoding_regex(e: (Seq<PartView>, Seq<(Seq<char>, Register)>)) -> Seq<char> {
    seq!['('] + parts_regex(e.0) + seq![')']
}

/// The encodings' regexes, separated by `|`.
pub open spec fn alternatives(es: Seq<(Seq<PartView>, Seq<(Seq<char>, Register)>)>) -> Seq<char>
    decreases es.len(),
{
    if es.len() == 0 {
        Seq::empty()
    } else if es.len() == 1 {
        encoding_regex(es[0])
    } else {
        alternatives(es.drop_last()) + seq!['|'] + encoding_regex(es.last())
    }
}

/// The regex of an instruction: the alternatives of its encodings, in a group.
pub open spec fn instruction_regex(es: Seq<(Seq<PartView>, Seq<(Seq<char>, Register)>)>) -> Seq<char> {
    seq!['('] + alternatives(es) + seq![')']
}

/// One purpose for each intermediate part, in order.
pub open spec fn part_purposes(ps: Seq<PartView>) -> Seq<PurposeView>
    decreases ps.len(),
{
    if ps.len() == 0 {
        Seq::empty()
    } else {
        let prev = part_purposes(ps.drop_last());
        match ps.last() {
            PartView::Intermediate(_, name) => prev.push(PurposeView::NumberVariable(name)),
            PartView::Fixed(_) => prev,
        }
    }
}

/// The purposes of the groups that the encodings open, in order.
pub open spec fn encodings_purposes(es: Seq<(Seq<PartView>, Seq<(Seq<char>, Register)>)>) -> Seq<PurposeView>
    decreases es.len(),
{
    if es.len() == 0 {
        Seq::empty()
    } else {
        encodings_purposes(es.drop_last()) + seq![PurposeView::NewEncoding(es.last().1)] + part_purposes(es.last().0)
    }
}

/// The purposes of an instruction's groups: the whole instruction, then its encodings'.
pub open spec fn instruction_purposes(es: Seq<(Seq<PartView>, Seq<(Seq<char>, Register)>)>) -> Seq<PurposeView> {
    seq![PurposeView::WholeMatch] + encodings_purposes(es)
}

/// Appends one encoding's regex to `regex` and its groups' purposes to `purposes`.
fn encoding_to_regex(regex: &mut Vec<char>, purposes: &mut Vec<CaptureGroupPurpose>, encoding: &Encoding)
    ensures
        final(regex)@ == old(regex)@ + encoding_regex(encoding@),
        purposes_view(final(purposes)@) == purposes_view(old(purposes)@) + seq![PurposeView::NewEncoding(encoding@.1)]
            + part_purposes(encoding@.0),
{
    let ghost r0 = regex@;
    let ghost p0 = purposes_view(purposes@);
    regex.push('(');
    let ghost pb = purposes@;
    purposes.push(CaptureGroupPurpose::NewEncoding(copy_mappings(encoding.register_mappings())));
    proof {
        assert(purposes_view(purposes@) =~= purposes_view(pb).push(PurposeView::NewEncoding(encoding@.1)));
    }
    let parts = encoding.parts();
    let ghost pv = encoding@.0;
    let mut i: usize = 0;
    while i < parts.len()
        invariant
            i <= parts@.len(),
            pv == parts@.map_values(|p: EncodingPart| p@),
            regex@ == r0 + seq!['('] + parts_regex(pv.subrange(0, i as int)),
            purposes_view(purposes@) == p0 + seq![PurposeView::NewEncoding(encoding@.1)] + part_purposes(pv.subrange(0, i as int)),
        decreases parts@.len() - i,
    {
        let ghost sub = pv.subrange(0, i as int + 1);
        assert(sub.drop_last() =~= pv.subrange(0, i as int));
        assert(sub.last() == parts@[i as int]@);
        let ghost rb = regex@;
        let ghost pbefore = purposes@;
        match &parts[i] {
            EncodingPart::Fixed(bytes) => {
                let mut j: usize = 0;
                while j < bytes.len()
                    invariant
                        j <= bytes@.len(),
                        regex@ == rb + fixed_regex(bytes@.subrange(0, j as int)),
                    decreases bytes@.len() - j,
                {
                    let b = bytes[j];
                    let ghost before = regex@;
                    regex.push('\\');
                    regex.push('x');
                    regex.push(hex_digit_exec((b / 16) as u64));
                    regex.push(hex_digit_exec((b % 16) as u64));
                    assert(bytes@.subrange(0, j as int + 1).drop_last() =~= bytes@.subrange(0, j as int));
                    assert(regex@ =~= before + byte_escape(b));
                    j = j + 1;
                }
                assert(bytes@.subrange(0, j as int) =~= bytes@);
                assert(regex@ =~= r0 + seq!['('] + parts_regex(pv.subrange(0, i as int)) + part_regex(sub.last()));
            },
            EncodingPart::Intermediate { length, variable_name } => {
                regex.push('(');
                purposes.push(CaptureGroupPurpose::NumberVariable(variable_name.clone()));
                assert(purposes_view(purposes@) =~= purposes_view(pbefore).push(PurposeView::NumberVariable(variable_name@)));
                let ghost mid = regex@;
                let mut j: u8 = 0;
                while j < *length
                    invariant
                        j <= *length,
                        regex@ == mid + Seq::new(j as nat, |k: int| '.'),
                    decreases *length - j,
                {
                    regex.push('.');
                    assert(regex@ =~= mid + Seq::new((j + 1) as nat, |k: int| '.'));
                    j = j + 1;
                }
                regex.push(')');
                assert(regex@ =~= r0 + seq!['('] + parts_regex(pv.subrange(0, i as int)) + part_regex(sub.last()));
            },
        }
        i = i + 1;
    }
    assert(pv.subrange(0, i as int) =~= pv);
    regex.push(')');
    assert(regex@ =~= r0 + encoding_regex(encoding@));
}


/// The regex of one instruction, `(enc|enc|...)`, and the purposes of its capture groups;
/// index 0 stands for the group that spans the whole instruction.
pub fn encodings_to_regex(encodings: &[Encoding]) -> (r: (String, Vec<CaptureGroupPurpose>))
    ensures
        r.0@ == instruction_regex(encodings@.map_values(|e: Encoding| e@)),
        purposes_view(r.1@) == instruction_purposes(encodings@.map_values(|e: Encoding| e@)),
{
    let ghost es = encodings@.map_values(|e: Encoding| e@);
    let mut regex: Vec<char> = vec!['('];
    let mut purposes: Vec<CaptureGroupPurpose> = Vec::new();
    purposes.push(CaptureGroupPurpose::WholeMatch);
    assert(purposes_view(purposes@) =~= seq![PurposeView::WholeMatch]);
    let mut i: usize = 0;
    while i < encodings.len()
        invariant
            i <= encodings@.len(),
            es == encodings@.map_values(|e: Encoding| e@),
            regex@ == seq!['('] + alternatives(es.subrange(0, i as int)),
            purposes_view(purposes@) == seq![PurposeView::WholeMatch] + encodings_purposes(es.subrange(0, i as int)),
        decreases encodings@.len() - i,
    {
        let ghost sub = es.subrange(0, i as int + 1);
        assert(sub.drop_last() =~= es.subrange(0, i as int));
        assert(sub.last() == encodings@[i as int]@);
        if i > 0 {
            regex.push('|');
        }
        let ghost rb = regex@;
        encoding_to_regex(&mut regex, &mut purposes, &encodings[i]);
        proof {
            if i == 0 {
                assert(sub.len() == 1);
                assert(regex@ =~= seq!['('] + alternatives(sub));
            } else {
                assert(regex@ =~= seq!['('] + alternatives(sub));
            }
            assert(purposes_view(purposes@) =~= seq![PurposeView::WholeMatch] + encodings_purposes(sub));
        }
        i = i + 1;
    }
    assert(es.subrange(0, i as int) =~= es);
    regex.push(')');
    assert(regex@ =~= instruction_regex(es));
    (string_of(&regex), purposes)
}

/// A matcher for one instruction pattern: the regex of its encodings and what each of its
/// capture groups stands for.
#[derive(Debug)]
pub struct InstructionPatternMatcher {
    pattern: InstructionPattern,
    regex: String,
    /// For each capture group of the regex: the whole instruction (index 0), the start of
    /// an encoding with its register bindings, or a number variable of that encoding.
    capture_group_purposes: Vec<CaptureGroupPurpose>,
}

impl InstructionPatternMatcher {
    /// The pattern matched.
    pub closed spec fn pattern_spec(&self) -> InstructionPattern {
        self.pattern
    }

    /// The regex text.
    pub closed spec fn regex_spec(&self) -> Seq<char> {
        self.regex@
    }

    /// What each capture group of the regex stands for.
    pub closed spec fn purposes_spec(&self) -> Seq<PurposeView> {
        purposes_view(self.capture_group_purposes@)
    }

    /// Builds the matcher of `pattern` from the assembler's output for each of its probe
    /// texts (see `InstructionPattern::probe_texts`; `None` where assembly failed).
    pub fn new(pattern: InstructionPattern, assembled: &Vec<Option<Vec<u8>>>) -> (r: Result<InstructionPatternMatcher, PatternError>)
        ensures
            match discovered(pattern.text(), pattern.vars(), assembled@) {
                Ok(encs) => r matches Ok(m) && m.pattern_spec() == pattern
                    && m.regex_spec() == instruction_regex(encs)
                    && m.purposes_spec() == instruction_purposes(encs),
                Err(e) => r == Err::<InstructionPatternMatcher, PatternError>(e),
            },
    {
        let encodings = match pattern.find_encodings(assembled) {
            Ok(encodings) => encodings,
            Err(e) => {
                return Err(e);
            },
        };
        let (regex, capture_group_purposes) = encodings_to_regex(encodings.as_slice());
        Ok(InstructionPatternMatcher { pattern, regex, capture_group_purposes })
    }

    /// The pattern matched.
    pub fn pattern(&self) -> (r: &InstructionPattern)
        ensures
            *r == self.pattern_spec(),
    {
        &self.pattern
    }

    /// The regex text, `(enc|enc|...)`.
    pub fn regex(&self) -> (r: &str)
        ensures
            r@ == self.regex_spec(),
    {
        self.regex.as_str()
    }

    /// What each capture group of the regex stands for.
    pub fn capture_group_purposes(&self) -> (r: &[CaptureGroupPurpose])
        ensures
            purposes_view(r@) == self.purposes_spec(),
    {
        self.capture_group_purposes.as_slice()
    }
}


/// A variable bound to a concrete value, in mathematical terms.
pub enum BindingView {
    Number(Seq<char>, u64),
    Register(Seq<char>, Register),
}

/// The name of the variable bound.
pub open spec fn binding_name(b: BindingView) -> Seq<char> {
    match b {
        BindingView::Number(n, _) => n,
        BindingView::Register(n, _) => n,
    }
}

/// The text that stands for the bound value: a hexadecimal literal or a register name.
pub open spec fn binding_value_text(b: BindingView) -> Seq<char> {
    match b {
        BindingView::Number(_, v) => hex_literal(v as nat),
        BindingView::Register(_, r) => register_name(r),
    }
}

/// The type of the variable bound.
pub open spec fn binding_type(b: BindingView) -> VariableType {
    match b {
        BindingView::Number(..) => VariableType::Number,
        BindingView::Register(..) => VariableType::Register,
    }
}

/// A variable of a pattern bound to the concrete value found in a match.
#[derive(Debug, PartialEq)]
pub enum InstantiatedVariable {
    Number(String, u64),
    Register(String, Register),
}

impl View for InstantiatedVariable {
    type V = BindingView;

    open spec fn view(&self) -> BindingView {
        match self {
            InstantiatedVariable::Number(n, v) => BindingView::Number(n@, *v),
            InstantiatedVariable::Register(n, r) => BindingView::Register(n@, *r),
        }
    }
}

impl Clone for InstantiatedVariable {
    fn clone(&self) -> (r: Self)
        ensures
            r == *self,
    {
        match self {
            InstantiatedVariable::Number(n, v) => InstantiatedVariable::Number(n.clone(), *v),
            InstantiatedVariable::Register(n, r) => InstantiatedVariable::Register(n.clone(), *r),
        }
    }
}

/// The views of a sequence of bindings.
pub open spec fn bindings_view(bs: Seq<InstantiatedVariable>) -> Seq<BindingView> {
    bs.map_values(|b: InstantiatedVariable| b@)
}

impl InstantiatedVariable {
    pub fn new_number(name: String, value: u64) -> (r: InstantiatedVariable)
        ensures
            r@ == BindingView::Number(name@, value),
    {
        InstantiatedVariable::Number(name, value)
    }

    pub fn new_register(name: String, value: Register) -> (r: InstantiatedVariable)
        ensures
            r@ == BindingView::Register(name@, value),
    {
        InstantiatedVariable::Register(name, value)
    }

    pub fn name(&self) -> (r: &str)
        ensures
            r@ == binding_name(self@),
    {
        match self {
            InstantiatedVariable::Number(name, _) => name.as_str(),
            InstantiatedVariable::Register(name, _) => name.as_str(),
        }
    }

    pub fn typee(&self) -> (r: VariableType)
        ensures
            r == binding_type(self@),
    {
        match self {
            InstantiatedVariable::Number(..) => VariableType::Number,
            InstantiatedVariable::Register(..) => VariableType::Register,
        }
    }

    /// The variable that is bound.
    pub fn as_variable(&self) -> (r: Variable)
        ensures
            r@ == (binding_name(self@), binding_type(self@)),
    {
        Variable::new(self.name(), self.typee())
    }

    /// The text that stands for the value: `0x...` for a number, the register's name.
    pub fn value(&self) -> (r: String)
        ensures
            r@ == binding_value_text(self@),
    {
        string_of(&self.value_chars())
    }

    /// The text that stands for the value, as characters.
    pub fn value_chars(&self) -> (r: Vec<char>)
        ensures
            r@ == binding_value_text(self@),
    {
        match self {
            InstantiatedVariable::Number(_, v) => hex_literal_exec(*v),
            InstantiatedVariable::Register(_, r) => chars_of(r.name()),
        }
    }

    /// Whether two bindings are equal: the same name, type and value.
    pub fn same_as(&self, other: &InstantiatedVariable) -> (r: bool)
        ensures
            r == (self@ == other@),
    {
        match self {
            InstantiatedVariable::Number(na, va) => match other {
                InstantiatedVariable::Number(nb, vb) => {
                    let same_name = *na == *nb;
                    same_name && *va == *vb
                },
                InstantiatedVariable::Register(..) => false,
            },
            InstantiatedVariable::Register(na, ra) => match other {
                InstantiatedVariable::Register(nb, rb) => {
                    let same_name = *na == *nb;
                    let same_register = *ra == *rb;
                    same_name && same_register
                },
                InstantiatedVariable::Number(..) => false,
            },
        }
    }

    /// Whether two bindings are of the same variable name.
    fn same_name(&self, other: &InstantiatedVariable) -> (r: bool)
        ensures
            r == (binding_name(self@) == binding_name(other@)),
    {
        let a = match self {
            InstantiatedVariable::Number(n, _) => n,
            InstantiatedVariable::Register(n, _) => n,
        };
        let b = match other {
            InstantiatedVariable::Number(n, _) => n,
            InstantiatedVariable::Register(n, _) => n,
        };
        *a == *b
    }
}

/// The unsigned little-endian value of `bs`: the sum of `bs[i] * 256^i`.
pub open spec fn le_value(bs: Seq<u8>) -> nat
    decreases bs.len(),
{
    if bs.len() == 0 {
        0
    } else {
        bs[0] as nat + 256 * le_value(bs.drop_first())
    }
}

/// `256` to the power `n`.
pub open spec fn pow256(n: nat) -> nat
    decreases n,
{
    if n == 0 {
        1
    } else {
        256 * pow256((n - 1) as nat)
    }
}

pub(crate) proof fn lemma_le_value_bound(bs: Seq<u8>)
    ensures
        le_value(bs) < pow256(bs.len()),
    decreases bs.len(),
{
    if bs.len() > 0 {
        lemma_le_value_bound(bs.drop_first());
        let rest = le_value(bs.drop_first());
        let p = pow256(bs.drop_first().len());
        assert(bs[0] as nat + 256 * rest < 256 * p) by (nonlinear_arith)
            requires
                rest < p,
                bs[0] < 256,
        ;
    }
}

pub(crate) proof fn lemma_pow256_monotone(a: nat, b: nat)
    requires
        a <= b,
    ensures
        pow256(a) <= pow256(b),
    decreases b,
{
    if a < b {
        lemma_pow256_monotone(a, (b - 1) as nat);
    }
}

/// The unsigned little-endian value of at most eight bytes.
pub fn little_endian_value(bytes: &[u8]) -> (r: u64)
    requires
        bytes@.len() <= 8,
    ensures
        r as nat == le_value(bytes@),
{
    let n = bytes.len();
    let mut value: u64 = 0;
    let mut i: usize = n;
    assert(bytes@.subrange(n as int, n as int) =~= Seq::<u8>::empty());
    while i > 0
        invariant
            i <= n,
            n == bytes@.len(),
            n <= 8,
            value as nat == le_value(bytes@.subrange(i as int, n as int)),
        decreases i,
    {
        let ghost tail = bytes@.subrange(i as int, n as int);
        proof {
            lemma_le_value_bound(tail);
            lemma_pow256_monotone(tail.len(), 7);
            reveal_with_fuel(pow256, 8);
            assert(pow256(7) == 72057594037927936);
        }
        let b = bytes[i - 1];
        assert(value * 256 + b < 18446744073709551616) by (nonlinear_arith)
            requires
                value < 72057594037927936,
                b < 256,
        ;
        value = value * 256 + b as u64;
        i = i - 1;
        assert(bytes@.subrange(i as int, n as int).drop_first() =~= tail);
        assert(bytes@.subrange(i as int, n as int)[0] == b);
    }
    assert(bytes@.subrange(0, n as int) =~= bytes@);
    value
}

/// The span of capture group `g`, if it took part in the match.
pub open spec fn group(caps: Seq<Option<(usize, usize)>>, g: int) -> Option<(usize, usize)> {
    if 0 <= g < caps.len() {
        caps[g]
    } else {
        None
    }
}

/// The first index from `i` on whose purpose opens an encoding that took part in the match;
/// `o` is where the instruction's groups start among all groups.
pub open spec fn chosen_from(ps: Seq<PurposeView>, caps: Seq<Option<(usize, usize)>>, o: int, i: int) -> Option<int>
    decreases ps.len() - i,
{
    if i < 1 || i >= ps.len() {
        None
    } else if ps[i] is NewEncoding && group(caps, i + o) is Some {
        Some(i)
    } else {
        chosen_from(ps, caps, o, i + 1)
    }
}

/// The numbers bound by the run of number-variable groups from index `j` on; `None` where
/// such a group is missing, out of `bytes`, or longer than four bytes.
pub open spec fn numbers_from(ps: Seq<PurposeView>, caps: Seq<Option<(usize, usize)>>, bytes: Seq<u8>, o: int, j: int) -> Option<
    Seq<BindingView>,
>
    decreases ps.len() - j,
{
    if j < 1 || j >= ps.len() {
        Some(Seq::empty())
    } else {
        match ps[j] {
            PurposeView::NumberVariable(name) => match group(caps, j + o) {
                Some(span) => if span.0 <= span.1 && span.1 <= bytes.len() && span.1 - span.0 <= 4 {
                    match numbers_from(ps, caps, bytes, o, j + 1) {
                        Some(rest) => Some(
                            seq![BindingView::Number(name, le_value(bytes.subrange(span.0 as int, span.1 as int)) as u64)] + rest,
                        ),
                        None => None,
                    }
                } else {
                    None
                },
                None => None,
            },
            _ => Some(Seq::empty()),
        }
    }
}

/// The register bindings of an encoding.
pub open spec fn register_bindings(m: Seq<(Seq<char>, Register)>) -> Seq<BindingView> {
    m.map_values(|p: (Seq<char>, Register)| BindingView::Register(p.0, p.1))
}

/// What one instruction's groups propose: the numbers of the encoding that took part,
/// then its registers.
pub open spec fn instruction_proposals(ps: Seq<PurposeView>, caps: Seq<Option<(usize, usize)>>, bytes: Seq<u8>, o: int) -> Option<
    Seq<BindingView>,
> {
    match chosen_from(ps, caps, o, 1) {
        Some(i) => match ps[i] {
            PurposeView::NewEncoding(m) => match numbers_from(ps, caps, bytes, o, i + 1) {
                Some(ns) => Some(ns + register_bindings(m)),
                None => None,
            },
            _ => None,
        },
        None => None,
    }
}

/// What the instructions from `k` on propose, their groups starting at `o`.
pub open spec fn proposals_from(pss: Seq<Seq<PurposeView>>, caps: Seq<Option<(usize, usize)>>, bytes: Seq<u8>, k: int, o: int) -> Option<
    Seq<BindingView>,
>
    decreases pss.len() - k,
{
    if k < 0 || k >= pss.len() {
        Some(Seq::empty())
    } else {
        match instruction_proposals(pss[k], caps, bytes, o) {
            Some(a) => match proposals_from(pss, caps, bytes, k + 1, o + pss[k].len()) {
                Some(b) => Some(a + b),
                None => None,
            },
            None => None,
        }
    }
}

/// The index of the first binding of `name`, if any.
pub open spec fn find_name(st: Seq<BindingView>, name: Seq<char>) -> Option<int> {
    if exists|i: int| 0 <= i < st.len() && binding_name(st[i]) == name {
        Some(choose|i: int| 0 <= i < st.len() && binding_name(st[i]) == name && forall|j: int| 0 <= j < i ==> binding_name(st[j]) != name)
    } else {
        None
    }
}

/// Adds a proposal to the bindings: a new name is added, a known one must agree.
pub open spec fn add_binding(st: Seq<BindingView>, p: BindingView) -> Option<Seq<BindingView>> {
    match find_name(st, binding_name(p)) {
        Some(i) => if st[i] == p {
            Some(st)
        } else {
            None
        },
        None => Some(st.push(p)),
    }
}

/// The bindings that the proposals make, in order of first proposal; `None` where two
/// proposals for one name disagree.
pub open spec fn consolidate(ps: Seq<BindingView>) -> Option<Seq<BindingView>>
    decreases ps.len(),
{
    if ps.len() == 0 {
        Some(Seq::empty())
    } else {
        match consolidate(ps.drop_last()) {
            Some(st) => add_binding(st, ps.last()),
            None => None,
        }
    }
}

/// What one match, given by the spans of its capture groups, yields: the bindings and the
/// span of the whole match; `None` where it is rejected.
pub open spec fn interpretation(caps: Seq<Option<(usize, usize)>>, bytes: Seq<u8>, pss: Seq<Seq<PurposeView>>) -> Option<
    (Seq<BindingView>, usize, usize),
> {
    match group(caps, 0) {
        Some(whole) => if whole.0 <= whole.1 && whole.1 <= bytes.len() {
            match proposals_from(pss, caps, bytes, 0, 1) {
                Some(ps) => match consolidate(ps) {
                    Some(st) => Some((st, whole.0, whole.1)),
                    None => None,
                },
                None => None,
            }
        } else {
            None
        },
        None => None,
    }
}

/// The accepted matches among those given, in order.
pub open spec fn accepted(all: Seq<Seq<Option<(usize, usize)>>>, bytes: Seq<u8>, pss: Seq<Seq<PurposeView>>) -> Seq<
    (Seq<BindingView>, usize, usize),
>
    decreases all.len(),
{
    if all.len() == 0 {
        Seq::empty()
    } else {
        let prev = accepted(all.drop_last(), bytes, pss);
        match interpretation(all.last(), bytes, pss) {
            Some(m) => prev.push(m),
            None => prev,
        }
    }
}

/// The view of a reported match.
pub open spec fn match_view(m: (Vec<InstantiatedVariable>, usize, usize)) -> (Seq<BindingView>, usize, usize) {
    (bindings_view(m.0@), m.1, m.2)
}


fn group_exec(caps: &Vec<Option<(usize, usize)>>, i: usize, o: usize) -> (r: Option<(usize, usize)>)
    ensures
        r == group(caps@, i + o),
{
    if o <= caps.len() && i < caps.len() - o {
        caps[i + o]
    } else {
        None
    }
}

proof fn lemma_no_choice_past_groups(ps: Seq<PurposeView>, caps: Seq<Option<(usize, usize)>>, o: int, i: int)
    requires
        o >= caps.len(),
        i >= 1,
    ensures
        chosen_from(ps, caps, o, i) is None,
    decreases ps.len() - i,
{
    if i < ps.len() {
        lemma_no_choice_past_groups(ps, caps, o, i + 1);
    }
}

fn chosen_exec(ps: &[CaptureGroupPurpose], caps: &Vec<Option<(usize, usize)>>, o: usize) -> (r: Option<usize>)
    ensures
        match r {
            Some(i) => chosen_from(purposes_view(ps@), caps@, o as int, 1) == Some(i as int) && 1 <= i < ps@.len(),
            None => chosen_from(purposes_view(ps@), caps@, o as int, 1) is None,
        },
{
    let ghost pv = purposes_view(ps@);
    let mut i: usize = 1;
    while i < ps.len()
        invariant
            1 <= i,
            pv == purposes_view(ps@),
            chosen_from(pv, caps@, o as int, 1) == chosen_from(pv, caps@, o as int, i as int),
        decreases ps@.len() - i,
    {
        assert(pv[i as int] == ps@[i as int]@);
        match &ps[i] {
            CaptureGroupPurpose::NewEncoding(_) => {
                if group_exec(caps, i, o).is_some() {
                    return Some(i);
                }
            },
            _ => {},
        }
        i = i + 1;
    }
    None
}

fn numbers_exec(ps: &[CaptureGroupPurpose], caps: &Vec<Option<(usize, usize)>>, bytes: &[u8], o: usize, start: usize) -> (r: Option<Vec<InstantiatedVariable>>)
    requires
        start >= 1,
    ensures
        match r {
            Some(v) => numbers_from(purposes_view(ps@), caps@, bytes@, o as int, start as int) == Some(bindings_view(v@)),
            None => numbers_from(purposes_view(ps@), caps@, bytes@, o as int, start as int) is None,
        },
{
    let ghost pv = purposes_view(ps@);
    let mut acc: Vec<InstantiatedVariable> = Vec::new();
    let mut j: usize = start;
    proof {
        match numbers_from(pv, caps@, bytes@, o as int, start as int) {
            Some(rest) => {
                assert(bindings_view(acc@) + rest =~= rest);
            },
            None => {},
        }
    }
    while j < ps.len()
        invariant
            j >= 1,
            pv == purposes_view(ps@),
            numbers_from(pv, caps@, bytes@, o as int, start as int) == match numbers_from(pv, caps@, bytes@, o as int, j as int) {
                Some(rest) => Some(bindings_view(acc@) + rest),
                None => None::<Seq<BindingView>>,
            },
        decreases ps@.len() - j,
    {
        assert(pv[j as int] == ps@[j as int]@);
        match &ps[j] {
            CaptureGroupPurpose::NumberVariable(name) => {
                match group_exec(caps, j, o) {
                    Some(span) => {
                        let (s, e) = span;
                        if s <= e && e <= bytes.len() && e - s <= 4 {
                            let value = little_endian_value(vstd::slice::slice_subrange(bytes, s, e));
                            let b = InstantiatedVariable::Number(name.clone(), value);
                            let ghost before = acc@;
                            acc.push(b);
                            proof {
                                assert(bindings_view(acc@) =~= bindings_view(before).push(b@));
                                match numbers_from(pv, caps@, bytes@, o as int, j as int + 1) {
                                    Some(rest) => {
                                        assert(bindings_view(before) + (seq![b@] + rest) =~= bindings_view(acc@) + rest);
                                    },
                                    None => {},
                                }
                            }
                        } else {
                            return None;
                        }
                    },
                    None => {
                        return None;
                    },
                }
            },
            _ => {
                assert(bindings_view(acc@) + Seq::<BindingView>::empty() =~= bindings_view(acc@));
                return Some(acc);
            },
        }
        j = j + 1;
    }
    assert(bindings_view(acc@) + Seq::<BindingView>::empty() =~= bindings_view(acc@));
    Some(acc)
}

fn instruction_exec(ps: &[CaptureGroupPurpose], caps: &Vec<Option<(usize, usize)>>, bytes: &[u8], o: usize) -> (r: Option<Vec<InstantiatedVariable>>)
    ensures
        match r {
            Some(v) => instruction_proposals(purposes_view(ps@), caps@, bytes@, o as int) == Some(bindings_view(v@)),
            None => instruction_proposals(purposes_view(ps@), caps@, bytes@, o as int) is None,
        },
{
    let ghost pv = purposes_view(ps@);
    match chosen_exec(ps, caps, o) {
        None => None,
        Some(i) => {
            assert(pv[i as int] == ps@[i as int]@);
            match &ps[i] {
                CaptureGroupPurpose::NewEncoding(m) => {
                    match numbers_exec(ps, caps, bytes, o, i + 1) {
                        None => None,
                        Some(mut acc) => {
                            let ghost before = bindings_view(acc@);
                            let mut k: usize = 0;
                            while k < m.len()
                                invariant
                                    k <= m@.len(),
                                    bindings_view(acc@) == before + register_bindings(mappings_view(m@)).subrange(0, k as int),
                                decreases m@.len() - k,
                            {
                                let b = InstantiatedVariable::Register(m[k].0.clone(), m[k].1);
                                let ghost prev = acc@;
                                acc.push(b);
                                assert(bindings_view(acc@) =~= bindings_view(prev).push(b@));
                                assert(register_bindings(mappings_view(m@)).subrange(0, k as int + 1)
                                    =~= register_bindings(mappings_view(m@)).subrange(0, k as int).push(b@));
                                k = k + 1;
                            }
                            assert(register_bindings(mappings_view(m@)).subrange(0, k as int) =~= register_bindings(mappings_view(m@)));
                            Some(acc)
                        },
                    }
                },
                _ => None,
            }
        },
    }
}

fn find_name_exec(st: &Vec<InstantiatedVariable>, p: &InstantiatedVariable) -> (r: Option<usize>)
    ensures
        match r {
            Some(i) => find_name(bindings_view(st@), binding_name(p@)) == Some(i as int) && i < st@.len(),
            None => find_name(bindings_view(st@), binding_name(p@)) is None,
        },
{
    let ghost sv = bindings_view(st@);
    let ghost name = binding_name(p@);
    let mut i: usize = 0;
    while i < st.len()
        invariant
            i <= st@.len(),
            sv == bindings_view(st@),
            name == binding_name(p@),
            forall|j: int| 0 <= j < i ==> binding_name(sv[j]) != name,
        decreases st@.len() - i,
    {
        assert(sv[i as int] == st@[i as int]@);
        if st[i].same_name(p) {
            proof {
                assert(binding_name(sv[i as int]) == name);
                let w = choose|w: int| 0 <= w < sv.len() && binding_name(sv[w]) == name && forall|j: int| 0 <= j < w ==> binding_name(sv[j]) != name;
                // no earlier binding has the name, and this one has it
                assert(!(w < i));
                assert(!(w > i));
            }
            return Some(i);
        }
        i = i + 1;
    }
    None
}

proof fn lemma_consolidate_prefix_none(ps: Seq<BindingView>, i: int)
    requires
        0 <= i <= ps.len(),
        consolidate(ps.subrange(0, i)) is None,
    ensures
        consolidate(ps) is None,
    decreases ps.len(),
{
    if i == ps.len() {
        assert(ps.subrange(0, i) =~= ps);
    } else {
        assert(ps.drop_last().subrange(0, i) =~= ps.subrange(0, i));
        lemma_consolidate_prefix_none(ps.drop_last(), i);
    }
}

fn consolidate_exec(ps: &Vec<InstantiatedVariable>) -> (r: Option<Vec<InstantiatedVariable>>)
    ensures
        match r {
            Some(v) => consolidate(bindings_view(ps@)) == Some(bindings_view(v@)),
            None => consolidate(bindings_view(ps@)) is None,
        },
{
    let ghost pv = bindings_view(ps@);
    let mut store: Vec<InstantiatedVariable> = Vec::new();
    let mut i: usize = 0;
    assert(bindings_view(store@) =~= Seq::<BindingView>::empty());
    assert(pv.subrange(0, 0) =~= Seq::<BindingView>::empty());
    while i < ps.len()
        invariant
            i <= ps@.len(),
            pv == bindings_view(ps@),
            consolidate(pv.subrange(0, i as int)) == Some(bindings_view(store@)),
        decreases ps@.len() - i,
    {
        let ghost sub = pv.subrange(0, i as int + 1);
        assert(sub.drop_last() =~= pv.subrange(0, i as int));
        assert(sub.last() == ps@[i as int]@);
        let p = &ps[i];
        match find_name_exec(&store, p) {
            Some(k) => {
                assert(bindings_view(store@)[k as int] == store@[k as int]@);
                if !store[k].same_as(p) {
                    proof {
                        lemma_consolidate_prefix_none(pv, i as int + 1);
                    }
                    return None;
                }
            },
            None => {
                let ghost before = store@;
                store.push(p.clone());
                assert(bindings_view(store@) =~= bindings_view(before).push(p@));
            },
        }
        i = i + 1;
    }
    assert(pv.subrange(0, i as int) =~= pv);
    Some(store)
}

/// The regex of a sequence of instructions: theirs, back to back, with `.` matching every
/// byte and Unicode off.
pub open spec fn obfuscation_regex(ms: Seq<InstructionPatternMatcher>) -> Seq<char>
    decreases ms.len(),
{
    if ms.len() == 0 {
        seq!['(', '?', 's', '-', 'u', ')']
    } else {
        obfuscation_regex(ms.drop_last()) + ms.last().regex_spec()
    }
}

/// The assembler's outputs for the probes of pattern `i`; none where they are missing.
pub open spec fn outputs_at(outs: Seq<Vec<Option<Vec<u8>>>>, i: int) -> Seq<Option<Vec<u8>>> {
    if 0 <= i < outs.len() {
        outs[i]@
    } else {
        Seq::empty()
    }
}

/// The first failure, from pattern `i` on, of discovering the patterns' encodings.
pub open spec fn first_failure(ps: Seq<InstructionPattern>, outs: Seq<Vec<Option<Vec<u8>>>>, i: int) -> Option<PatternError>
    decreases ps.len() - i,
{
    if i < 0 || i >= ps.len() {
        None
    } else {
        match discovered(ps[i].text(), ps[i].vars(), outputs_at(outs, i)) {
            Err(e) => Some(e),
            Ok(_) => first_failure(ps, outs, i + 1),
        }
    }
}

/// The regex of the first `n` patterns, back to back, given that their encodings were found.
pub open spec fn patterns_regex(ps: Seq<InstructionPattern>, outs: Seq<Vec<Option<Vec<u8>>>>, n: int) -> Seq<char>
    decreases n,
{
    if n <= 0 {
        seq!['(', '?', 's', '-', 'u', ')']
    } else {
        patterns_regex(ps, outs, n - 1) + instruction_regex(
            discovered(ps[n - 1].text(), ps[n - 1].vars(), outputs_at(outs, n - 1))->Ok_0,
        )
    }
}

/// A matcher for a sequence of instruction patterns, which must appear back to back and
/// agree on the values of their variables.
#[derive(Debug)]
pub struct ObfuscationPatternMatcher {
    instruction_pattern_matchers: Vec<InstructionPatternMatcher>,
    regex: ByteRegex,
}

impl ObfuscationPatternMatcher {
    /// The instruction matchers, in order.
    pub closed spec fn matchers_spec(&self) -> Seq<InstructionPatternMatcher> {
        self.instruction_pattern_matchers@
    }

    /// The text of the compiled regex.
    pub closed spec fn regex_source(&self) -> Seq<char> {
        self.regex.source()
    }

    /// The purposes of each instruction's capture groups, in order.
    pub open spec fn purposes_lists(&self) -> Seq<Seq<PurposeView>> {
        self.matchers_spec().map_values(|m: InstructionPatternMatcher| m.purposes_spec())
    }

    /// Compiles the regex of the instructions, back to back.
    pub fn new(instruction_pattern_matchers: Vec<InstructionPatternMatcher>) -> (r: Result<ObfuscationPatternMatcher, PatternError>)
        ensures
            (r is Ok) == regex_accepts(obfuscation_regex(instruction_pattern_matchers@)),
            r matches Ok(m) ==> m.matchers_spec() == instruction_pattern_matchers@
                && m.regex_source() == obfuscation_regex(instruction_pattern_matchers@),
            r matches Err(e) ==> e == PatternError::RegexCompilationFailed,
    {
        let ghost ms = instruction_pattern_matchers@;
        let mut text: Vec<char> = vec!['(', '?', 's', '-', 'u', ')'];
        assert(text@ =~= obfuscation_regex(ms.subrange(0, 0)));
        let mut i: usize = 0;
        while i < instruction_pattern_matchers.len()
            invariant
                i <= ms.len(),
                ms == instruction_pattern_matchers@,
                text@ == obfuscation_regex(ms.subrange(0, i as int)),
            decreases ms.len() - i,
        {
            let part = chars_of(instruction_pattern_matchers[i].regex());
            push_all(&mut text, &part);
            assert(ms.subrange(0, i as int + 1).drop_last() =~= ms.subrange(0, i as int));
            i = i + 1;
        }
        assert(ms.subrange(0, i as int) =~= ms);
        match ByteRegex::new(string_of(&text)) {
            Ok(regex) => Ok(ObfuscationPatternMatcher { instruction_pattern_matchers, regex }),
            Err(_) => Err(PatternError::RegexCompilationFailed),
        }
    }

    /// Builds the matcher of `patterns`, given for each the assembler's output for each of
    /// its probe texts (`InstructionPattern::probe_texts`): fails with the error of the
    /// first pattern whose encodings cannot be found, else compiles their regex.
    pub fn from_patterns(patterns: &[InstructionPattern], assembled: &Vec<Vec<Option<Vec<u8>>>>) -> (r: Result<ObfuscationPatternMatcher, PatternError>)
        ensures
            match first_failure(patterns@, assembled@, 0) {
                Some(e) => r == Err::<ObfuscationPatternMatcher, PatternError>(e),
                None => (r is Ok) == regex_accepts(patterns_regex(patterns@, assembled@, patterns@.len() as int))
                    && (r is Err ==> r == Err::<ObfuscationPatternMatcher, PatternError>(PatternError::RegexCompilationFailed)),
            },
            r matches Ok(m) ==> m.matchers_spec().len() == patterns@.len()
                && forall|i: int| 0 <= i < patterns@.len() ==> (#[trigger] m.matchers_spec()[i]).pattern_spec().text() == patterns@[i].text()
                    && m.matchers_spec()[i].pattern_spec().vars() == patterns@[i].vars(),
    {
        let ghost ps = patterns@;
        let ghost outs = assembled@;
        let mut matchers: Vec<InstructionPatternMatcher> = Vec::new();
        let mut i: usize = 0;
        assert(obfuscation_regex(matchers@) == patterns_regex(ps, outs, 0));
        while i < patterns.len()
            invariant
                i <= ps.len(),
                ps == patterns@,
                outs == assembled@,
                first_failure(ps, outs, 0) == first_failure(ps, outs, i as int),
                matchers@.len() == i,
                forall|k: int| 0 <= k < i ==> (#[trigger] matchers@[k]).pattern_spec().text() == ps[k].text()
                    && matchers@[k].pattern_spec().vars() == ps[k].vars(),
                obfuscation_regex(matchers@) == patterns_regex(ps, outs, i as int),
            decreases ps.len() - i,
        {
            let empty: Vec<Option<Vec<u8>>> = Vec::new();
            let outputs: &Vec<Option<Vec<u8>>> = if i < assembled.len() { &assembled[i] } else { &empty };
            assert(outputs@ == outputs_at(outs, i as int));
            let pattern = patterns[i].clone();
            match InstructionPatternMatcher::new(pattern, outputs) {
                Ok(m) => {
                    let ghost before = matchers@;
                    matchers.push(m);
                    assert(matchers@.drop_last() =~= before);
                },
                Err(e) => {
                    return Err(e);
                },
            }
            i = i + 1;
        }
        ObfuscationPatternMatcher::new(matchers)
    }

    /// The instruction patterns, in order.
    pub fn instruction_patterns(&self) -> (r: Vec<InstructionPattern>)
        ensures
            same_patterns(r@, self.matchers_spec().map_values(|m: InstructionPatternMatcher| m.pattern_spec())),
    {
        let ghost ps = self.matchers_spec().map_values(|m: InstructionPatternMatcher| m.pattern_spec());
        let mut r: Vec<InstructionPattern> = Vec::new();
        let mut i: usize = 0;
        while i < self.instruction_pattern_matchers.len()
            invariant
                i <= self.instruction_pattern_matchers@.len(),
                ps == self.matchers_spec().map_values(|m: InstructionPatternMatcher| m.pattern_spec()),
                same_patterns(r@, ps.subrange(0, i as int)),
            decreases self.instruction_pattern_matchers@.len() - i,
        {
            r.push(self.instruction_pattern_matchers[i].pattern().clone());
            i = i + 1;
        }
        assert(ps.subrange(0, i as int) =~= ps);
        r
    }

    /// What one match yields, given the spans of its capture groups (group 0 the whole
    /// match): the variables it binds and its start and end in `bytes`; `None` where two
    /// instructions bind one variable to different values, or the groups are not those of
    /// a match of this matcher's regex.
    #[verifier::rlimit(20)]
    pub fn interpret(&self, captures: &Vec<Option<(usize, usize)>>, bytes: &[u8]) -> (r: Option<(Vec<InstantiatedVariable>, usize, usize)>)
        ensures
            match r {
                Some(m) => interpretation(captures@, bytes@, self.purposes_lists()) == Some(match_view(m)),
                None => interpretation(captures@, bytes@, self.purposes_lists()) is None,
            },
    {
        let ghost pss = self.purposes_lists();
        let whole = match group_exec(captures, 0, 0) {
            Some(w) => w,
            None => {
                return None;
            },
        };
        if !(whole.0 <= whole.1 && whole.1 <= bytes.len()) {
            return None;
        }
        let n = self.instruction_pattern_matchers.len();
        let mut acc: Vec<InstantiatedVariable> = Vec::new();
        let mut o: usize = 1;
        let mut k: usize = 0;
        proof {
            match proposals_from(pss, captures@, bytes@, 0, 1) {
                Some(rest) => {
                    assert(bindings_view(acc@) + rest =~= rest);
                },
                None => {},
            }
        }
        while k < n
            invariant
                k <= n,
                n == self.instruction_pattern_matchers@.len(),
                pss == self.purposes_lists(),
                proposals_from(pss, captures@, bytes@, 0, 1) == match proposals_from(pss, captures@, bytes@, k as int, o as int) {
                    Some(rest) => Some(bindings_view(acc@) + rest),
                    None => None::<Seq<BindingView>>,
                },
            decreases n - k,
        {
            let ps = self.instruction_pattern_matchers[k].capture_group_purposes();
            assert(purposes_view(ps@) == pss[k as int]);
            if o >= captures.len() {
                proof {
                    lemma_no_choice_past_groups(pss[k as int], captures@, o as int, 1);
                }
                return None;
            }
            match instruction_exec(ps, captures, bytes, o) {
                None => {
                    return None;
                },
                Some(found) => {
                    let ghost before = bindings_view(acc@);
                    let ghost fv = bindings_view(found@);
                    let mut found = found;
                    acc.append(&mut found);
                    assert(bindings_view(acc@) =~= before + fv);
                },
            }
            if k + 1 < n && ps.len() >= captures.len() - o {
                proof {
                    let next_o = o as int + pss[k as int].len();
                    lemma_no_choice_past_groups(pss[k as int + 1], captures@, next_o, 1);
                }
                return None;
            }
            proof {
                // split on what the remaining instructions propose
                match proposals_from(pss, captures@, bytes@, k as int + 1, o as int + pss[k as int].len()) {
                    Some(rest) => {},
                    None => {},
                }
            }
            if k + 1 < n {
                o = o + ps.len();
            }
            k = k + 1;
        }
        assert(bindings_view(acc@) + Seq::<BindingView>::empty() =~= bindings_view(acc@));
        match consolidate_exec(&acc) {
            Some(store) => Some((store, whole.0, whole.1)),
            None => None,
        }
    }

    /// The accepted matches in `bytes`, in order: for each, the variables it binds and its
    /// start and end.
    pub fn match_against(&self, bytes: &[u8]) -> (r: Vec<(Vec<InstantiatedVariable>, usize, usize)>)
        ensures
            r@.map_values(|m: (Vec<InstantiatedVariable>, usize, usize)| match_view(m))
                == accepted(captures_of(self.regex_source(), bytes@), bytes@, self.purposes_lists()),
    {
        let all = self.regex.captures_all(bytes);
        let ghost cs = captures_of(self.regex_source(), bytes@);
        let ghost pss = self.purposes_lists();
        let mut r: Vec<(Vec<InstantiatedVariable>, usize, usize)> = Vec::new();
        let mut i: usize = 0;
        while i < all.len()
            invariant
                i <= all@.len(),
                all@.len() == cs.len(),
                forall|k: int| 0 <= k < all@.len() ==> (#[trigger] all@[k])@ == cs[k],
                cs == captures_of(self.regex_source(), bytes@),
                pss == self.purposes_lists(),
                r@.map_values(|m: (Vec<InstantiatedVariable>, usize, usize)| match_view(m)) == accepted(cs.subrange(0, i as int), bytes@, pss),
            decreases all@.len() - i,
        {
            assert(cs.subrange(0, i as int + 1).drop_last() =~= cs.subrange(0, i as int));
            assert(cs.subrange(0, i as int + 1).last() == all@[i as int]@);
            match self.interpret(&all[i], bytes) {
                Some(m) => {
                    let ghost before = r@;
                    let ghost mv = match_view(m);
                    r.push(m);
                    assert(r@.map_values(|m: (Vec<InstantiatedVariable>, usize, usize)| match_view(m))
                        =~= before.map_values(|m: (Vec<InstantiatedVariable>, usize, usize)| match_view(m)).push(mv));
                },
                None => {},
            }
            i = i + 1;
        }
        assert(cs.subrange(0, i as int) =~= cs);
        r
    }
}

} // verus!
