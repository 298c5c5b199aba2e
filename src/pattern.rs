//! Instruction patterns: the grammar of typed variables, registers and encodings.

use vstd::prelude::*;

use crate::text::{chars_between, chars_of, push_all, string_of};

verus! {

/// Why a pattern could not be parsed or compiled into a matcher.
#[derive(Debug, Clone, PartialEq, Eq)]
pub enum PatternError {
    /// A variable's type tag is none of `num`, `reg` and `len`.
    InvalidVariableType(String),
    /// Some probe assembled, but in none of them could the number variable be located.
    DetectionError,
    /// Every probe of the pattern was rejected by the assembler.
    AssemblyFailed,
    /// The instruction holds more than one number variable, which is not supported.
    MultipleNumberVariables,
    /// The byte regex built from the encodings could not be compiled.
    RegexCompilationFailed,
    /// A number variable is negated (`- $num:x`), which patterns may not do.
    NegatedNumberVariable,
}

/// A general-purpose x86-64 register, in its 64- or 32-bit form.
#[derive(Debug, Clone, Copy, PartialEq, Eq, Hash, Structural)]
pub enum Register {
    RAX,
    EAX,
    RBX,
    EBX,
    RCX,
    ECX,
    RDX,
    EDX,
    RBP,
    EBP,
    RSP,
    ESP,
    RSI,
    ESI,
    RDI,
    EDI,
}

/// Every register, in a fixed order.
pub open spec fn all_registers() -> Seq<Register> {
    seq![
        Register::RAX,
        Register::EAX,
        Register::RBX,
        Register::EBX,
        Register::RCX,
        Register::ECX,
        Register::RDX,
        Register::EDX,
        Register::RBP,
        Register::EBP,
        Register::RSP,
        Register::ESP,
        Register::RSI,
        Register::ESI,
        Register::RDI,
        Register::EDI,
    ]
}

/// The mnemonic of a register, in capitals.
pub open spec fn register_name(r: Register) -> Seq<char> {
    match r {
        Register::RAX => seq!['R', 'A', 'X'],
        Register::EAX => seq!['E', 'A', 'X'],
        Register::RBX => seq!['R', 'B', 'X'],
        Register::EBX => seq!['E', 'B', 'X'],
        Register::RCX => seq!['R', 'C', 'X'],
        Register::ECX => seq!['E', 'C', 'X'],
        Register::RDX => seq!['R', 'D', 'X'],
        Register::EDX => seq!['E', 'D', 'X'],
        Register::RBP => seq!['R', 'B', 'P'],
        Register::EBP => seq!['E', 'B', 'P'],
        Register::RSP => seq!['R', 'S', 'P'],
        Register::ESP => seq!['E', 'S', 'P'],
        Register::RSI => seq!['R', 'S', 'I'],
        Register::ESI => seq!['E', 'S', 'I'],
        Register::RDI => seq!['R', 'D', 'I'],
        Register::EDI => seq!['E', 'D', 'I'],
    }
}

impl Register {
    /// Every register, in a fixed order.
    pub fn all() -> (r: Vec<Register>)
        ensures
            r@ == all_registers(),
    {
        let r = vec![
            Register::RAX,
            Register::EAX,
            Register::RBX,
            Register::EBX,
            Register::RCX,
            Register::ECX,
            Register::RDX,
            Register::EDX,
            Register::RBP,
            Register::EBP,
            Register::RSP,
            Register::ESP,
            Register::RSI,
            Register::ESI,
            Register::RDI,
            Register::EDI,
        ];
        assert(r@ =~= all_registers());
        r
    }

    /// The register's mnemonic, in capitals.
    pub fn name(self) -> (r: &'static str)
        ensures
            r@ == register_name(self),
    {
        match self {
            Register::RAX => { proof { reveal_strlit("RAX"); } "RAX" },
            Register::EAX => { proof { reveal_strlit("EAX"); } "EAX" },
            Register::RBX => { proof { reveal_strlit("RBX"); } "RBX" },
            Register::EBX => { proof { reveal_strlit("EBX"); } "EBX" },
            Register::RCX => { proof { reveal_strlit("RCX"); } "RCX" },
            Register::ECX => { proof { reveal_strlit("ECX"); } "ECX" },
            Register::RDX => { proof { reveal_strlit("RDX"); } "RDX" },
            Register::EDX => { proof { reveal_strlit("EDX"); } "EDX" },
            Register::RBP => { proof { reveal_strlit("RBP"); } "RBP" },
            Register::EBP => { proof { reveal_strlit("EBP"); } "EBP" },
            Register::RSP => { proof { reveal_strlit("RSP"); } "RSP" },
            Register::ESP => { proof { reveal_strlit("ESP"); } "ESP" },
            Register::RSI => { proof { reveal_strlit("RSI"); } "RSI" },
            Register::ESI => { proof { reveal_strlit("ESI"); } "ESI" },
            Register::RDI => { proof { reveal_strlit("RDI"); } "RDI" },
            Register::EDI => { proof { reveal_strlit("EDI"); } "EDI" },
        }
    }
}

/// The type of a pattern variable.
#[derive(Debug, Clone, Copy, PartialEq, Eq, Hash, Structural)]
pub enum VariableType {
    /// An immediate or displacement, whose width each encoding fixes.
    Number,
    /// A general-purpose register.
    Register,
    /// A marker that contributes no text to the assembler's input.
    Length,
}

/// The tag that names a variable type in pattern text.
pub open spec fn type_tag(t: VariableType) -> Seq<char> {
    match t {
        VariableType::Number => seq!['n', 'u', 'm'],
        VariableType::Register => seq!['r', 'e', 'g'],
        VariableType::Length => seq!['l', 'e', 'n'],
    }
}

/// The variable type that a tag names, if any.
pub open spec fn type_of_tag(tag: Seq<char>) -> Option<VariableType> {
    if tag == type_tag(VariableType::Number) {
        Some(VariableType::Number)
    } else if tag == type_tag(VariableType::Register) {
        Some(VariableType::Register)
    } else if tag == type_tag(VariableType::Length) {
        Some(VariableType::Length)
    } else {
        None
    }
}

/// How a variable is written in pattern text: `$<tag>:<name>`.
pub open spec fn variable_text(name: Seq<char>, t: VariableType) -> Seq<char> {
    seq!['$'] + type_tag(t) + seq![':'] + name
}

/// A typed variable of an instruction pattern.
#[derive(Debug, PartialEq)]
pub struct Variable {
    name: String,
    typee: VariableType,
}

impl View for Variable {
    type V = (Seq<char>, VariableType);

    closed spec fn view(&self) -> (Seq<char>, VariableType) {
        (self.name@, self.typee)
    }
}

impl Clone for Variable {
    fn clone(&self) -> (r: Self)
        ensures
            r == *self,
    {
        Variable { name: self.name.clone(), typee: self.typee }
    }
}

fn tag_chars(t: VariableType) -> (r: Vec<char>)
    ensures
        r@ == type_tag(t),
{
    let r = match t {
        VariableType::Number => vec!['n', 'u', 'm'],
        VariableType::Register => vec!['r', 'e', 'g'],
        VariableType::Length => vec!['l', 'e', 'n'],
    };
    assert(r@ =~= type_tag(t));
    r
}

impl Variable {
    pub fn new(name: &str, typee: VariableType) -> (r: Variable)
        ensures
            r@ == (name@, typee),
    {
        Variable { name: name.to_string(), typee }
    }

    pub fn name(&self) -> (r: &str)
        ensures
            r@ == self@.0,
    {
        self.name.as_str()
    }

    pub fn typee(&self) -> (r: VariableType)
        ensures
            r == self@.1,
    {
        self.typee
    }

    /// The variable as written in pattern text, `$<tag>:<name>`.
    pub fn text_chars(&self) -> (r: Vec<char>)
        ensures
            r@ == variable_text(self@.0, self@.1),
            r@.len() > 0,
    {
        let mut r: Vec<char> = vec!['$'];
        let tag = tag_chars(self.typee);
        push_all(&mut r, &tag);
        r.push(':');
        let name = chars_of(self.name.as_str());
        push_all(&mut r, &name);
        assert(r@ =~= variable_text(self@.0, self@.1));
        r
    }

    /// The variable as written in pattern text, `$<tag>:<name>`.
    pub fn to_string(&self) -> (r: String)
        ensures
            r@ == variable_text(self@.0, self@.1),
    {
        string_of(&self.text_chars())
    }
}

/// Characters that may form a variable's tag or name: ASCII letters, digits and `_`.
pub open spec fn is_word_char(c: char) -> bool {
    ('a' <= c && c <= 'z') || ('A' <= c && c <= 'Z') || ('0' <= c && c <= '9') || c == '_'
}

/// The length of the run of word characters that starts at `i`.
pub open spec fn word_len(s: Seq<char>, i: int) -> nat
    decreases s.len() - i,
{
    if 0 <= i < s.len() && is_word_char(s[i]) {
        1 + word_len(s, i + 1)
    } else {
        0
    }
}

/// Whether a variable `$<tag>:<name>` starts at `i`, both parts being non-empty runs of
/// word characters.
pub open spec fn token_at(s: Seq<char>, i: int) -> bool {
    &&& 0 <= i < s.len()
    &&& s[i] == '$'
    &&& word_len(s, i + 1) > 0
    &&& i + 1 + word_len(s, i + 1) < s.len()
    &&& s[i + 1 + word_len(s, i + 1)] == ':'
    &&& word_len(s, i + 2 + word_len(s, i + 1)) > 0
}

/// Where the tag of the token at `i` ends (the position of its `:`).
pub open spec fn token_colon(s: Seq<char>, i: int) -> int {
    i + 1 + word_len(s, i + 1)
}

/// Where the token at `i` ends.
pub open spec fn token_end(s: Seq<char>, i: int) -> int {
    token_colon(s, i) + 1 + word_len(s, token_colon(s, i) + 1)
}

/// The `(tag, name)` of every variable token from position `i` on, left to right and
/// without overlap.
pub open spec fn tokens_from(s: Seq<char>, i: int) -> Seq<(Seq<char>, Seq<char>)>
    decreases s.len() - i,
{
    if i < 0 || i >= s.len() {
        Seq::empty()
    } else if token_at(s, i) {
        seq![(s.subrange(i + 1, token_colon(s, i)), s.subrange(token_colon(s, i) + 1, token_end(s, i)))]
            + tokens_from(s, if i < token_end(s, i) <= s.len() { token_end(s, i) } else { s.len() as int })
    } else {
        tokens_from(s, i + 1)
    }
}

/// The variable tokens of a pattern text, left to right.
pub open spec fn tokens(s: Seq<char>) -> Seq<(Seq<char>, Seq<char>)> {
    tokens_from(s, 0)
}

/// The variables `(name, type)` of the tokens, or the first tag that names no type.
pub open spec fn classify(toks: Seq<(Seq<char>, Seq<char>)>) -> Result<Seq<(Seq<char>, VariableType)>, Seq<char>>
    decreases toks.len(),
{
    if toks.len() == 0 {
        Ok(Seq::empty())
    } else {
        match type_of_tag(toks[0].0) {
            None => Err(toks[0].0),
            Some(t) => match classify(toks.drop_first()) {
                Ok(rest) => Ok(seq![(toks[0].1, t)] + rest),
                Err(e) => Err(e),
            },
        }
    }
}

/// The variables of a pattern text, in order of occurrence and with repetitions; or the
/// first type tag that is unknown.
pub open spec fn parse_variables(s: Seq<char>) -> Result<Seq<(Seq<char>, VariableType)>, Seq<char>> {
    classify(tokens(s))
}

/// The views of a sequence of variables.
pub open spec fn variables_view(vs: Seq<Variable>) -> Seq<(Seq<char>, VariableType)> {
    vs.map_values(|v: Variable| v@)
}

fn is_word_char_exec(c: char) -> (r: bool)
    ensures
        r == is_word_char(c),
{
    ('a' <= c && c <= 'z') || ('A' <= c && c <= 'Z') || ('0' <= c && c <= '9') || c == '_'
}

fn word_end(s: &Vec<char>, i: usize) -> (r: usize)
    requires
        i <= s@.len(),
    ensures
        r == i + word_len(s@, i as int),
        r <= s@.len(),
{
    let mut j: usize = i;
    while j < s.len() && is_word_char_exec(s[j])
        invariant
            i <= j <= s@.len(),
            word_len(s@, i as int) == (j - i) + word_len(s@, j as int),
        decreases s@.len() - j,
    {
        j = j + 1;
    }
    j
}

/// Whether a token starts at `i`, and where its colon and end are.
fn token_at_exec(s: &Vec<char>, i: usize) -> (r: Option<(usize, usize)>)
    requires
        i < s@.len(),
    ensures
        r is Some == token_at(s@, i as int),
        r matches Some(p) ==> p.0 == token_colon(s@, i as int) && p.1 == token_end(s@, i as int)
            && p.1 <= s@.len(),
{
    let n = s.len();
    if s[i] != '$' {
        return None;
    }
    let colon = word_end(s, i + 1);
    if colon == i + 1 || colon >= s.len() || s[colon] != ':' {
        return None;
    }
    let end = word_end(s, colon + 1);
    if end == colon + 1 {
        return None;
    }
    Some((colon, end))
}

fn type_of_tag_exec(tag: &Vec<char>) -> (r: Option<VariableType>)
    ensures
        r == type_of_tag(tag@),
{
    let num = tag_chars(VariableType::Number);
    let reg = tag_chars(VariableType::Register);
    let len = tag_chars(VariableType::Length);
    if tag.len() == 3 && tag[0] == num[0] && tag[1] == num[1] && tag[2] == num[2] {
        assert(tag@ =~= num@);
        Some(VariableType::Number)
    } else if tag.len() == 3 && tag[0] == reg[0] && tag[1] == reg[1] && tag[2] == reg[2] {
        assert(tag@ =~= reg@);
        assert(tag@ != type_tag(VariableType::Number));
        Some(VariableType::Register)
    } else if tag.len() == 3 && tag[0] == len[0] && tag[1] == len[1] && tag[2] == len[2] {
        assert(tag@ =~= len@);
        assert(tag@ != type_tag(VariableType::Number));
        assert(tag@ != type_tag(VariableType::Register));
        Some(VariableType::Length)
    } else {
        proof {
            if tag@ == type_tag(VariableType::Number) {
                assert(tag@[0] == num@[0] && tag@[1] == num@[1] && tag@[2] == num@[2]);
            }
            if tag@ == type_tag(VariableType::Register) {
                assert(tag@[0] == reg@[0] && tag@[1] == reg@[1] && tag@[2] == reg@[2]);
            }
            if tag@ == type_tag(VariableType::Length) {
                assert(tag@[0] == len@[0] && tag@[1] == len@[1] && tag@[2] == len@[2]);
            }
        }
        None
    }
}

/// The `(tag, name)` pairs of the variable tokens of `s`, left to right.
fn scan_tokens(s: &Vec<char>) -> (r: Vec<(Vec<char>, Vec<char>)>)
    ensures
        r@.map_values(|p: (Vec<char>, Vec<char>)| (p.0@, p.1@)) == tokens(s@),
{
    let mut r: Vec<(Vec<char>, Vec<char>)> = Vec::new();
    let mut i: usize = 0;
    while i < s.len()
        invariant
            i <= s@.len(),
            r@.map_values(|p: (Vec<char>, Vec<char>)| (p.0@, p.1@)) + tokens_from(s@, i as int) == tokens(s@),
        decreases s@.len() - i,
    {
        let ghost before = r@.map_values(|p: (Vec<char>, Vec<char>)| (p.0@, p.1@));
        match token_at_exec(s, i) {
            Some((colon, end)) => {
                let tag = chars_between(s, i + 1, colon);
                let name = chars_between(s, colon + 1, end);
                r.push((tag, name));
                assert(r@.map_values(|p: (Vec<char>, Vec<char>)| (p.0@, p.1@)) =~= before.push(
                    (s@.subrange(i + 1, token_colon(s@, i as int)), s@.subrange(token_colon(s@, i as int) + 1, token_end(s@, i as int))),
                ));
                assert(before.push(
                    (s@.subrange(i + 1, token_colon(s@, i as int)), s@.subrange(token_colon(s@, i as int) + 1, token_end(s@, i as int))),
                ) + tokens_from(s@, end as int) =~= before + tokens_from(s@, i as int));
                i = end;
            },
            None => {
                i = i + 1;
            },
        }
    }
    assert(r@.map_values(|p: (Vec<char>, Vec<char>)| (p.0@, p.1@)) + tokens_from(s@, i as int)
        =~= r@.map_values(|p: (Vec<char>, Vec<char>)| (p.0@, p.1@)));
    r
}

/// Whether a number variable starts at `i` with a `-` before it, spaces aside.
pub open spec fn negated_number_at(s: Seq<char>, i: int) -> bool {
    &&& token_at(s, i)
    &&& s.subrange(i + 1, token_colon(s, i)) == type_tag(VariableType::Number)
    &&& exists|j: int| 0 <= j < i && s[j] == '-' && forall|k: int| j < k < i ==> s[k] == ' '
}

/// Whether the text negates a number variable somewhere.
pub open spec fn has_negated_number(s: Seq<char>) -> bool {
    exists|i: int| negated_number_at(s, i)
}

/// Whether the character before position `i`, spaces aside, is a `-`.
fn minus_before(s: &Vec<char>, i: usize) -> (r: bool)
    requires
        i <= s@.len(),
    ensures
        r == exists|j: int| 0 <= j < i && s@[j] == '-' && forall|k: int| j < k < i ==> s@[k] == ' ',
{
    let mut j: usize = i;
    while j > 0 && s[j - 1] == ' '
        invariant
            j <= i <= s@.len(),
            forall|k: int| j <= k < i ==> s@[k] == ' ',
        decreases j,
    {
        j = j - 1;
    }
    if j > 0 && s[j - 1] == '-' {
        assert(forall|k: int| (j - 1) < k < i ==> s@[k] == ' ');
        true
    } else {
        assert forall|w: int| 0 <= w < i && s@[w] == '-' implies !(forall|k: int| w < k < i ==> s@[k] == ' ') by {
            if w < j - 1 {
                assert(s@[j - 1] != ' ');
            } else {
                assert(w >= j);
                assert(s@[w] != ' ');
            }
        }
        false
    }
}

/// Whether the text negates a number variable somewhere.
pub fn has_negated_number_exec(s: &Vec<char>) -> (r: bool)
    ensures
        r == has_negated_number(s@),
{
    let mut i: usize = 0;
    while i < s.len()
        invariant
            i <= s@.len(),
            forall|k: int| 0 <= k < i ==> !negated_number_at(s@, k),
        decreases s@.len() - i,
    {
        match token_at_exec(s, i) {
            Some((colon, _)) => {
                let tag = chars_between(s, i + 1, colon);
                let is_num = match type_of_tag_exec(&tag) {
                    Some(t) => t == VariableType::Number,
                    None => false,
                };
                proof {
                    if tag@ == type_tag(VariableType::Number) {
                        assert(type_of_tag(tag@) == Some(VariableType::Number));
                    }
                }
                if is_num && minus_before(s, i) {
                    assert(negated_number_at(s@, i as int));
                    return true;
                }
            },
            None => {},
        }
        i = i + 1;
    }
    assert forall|k: int| !negated_number_at(s@, k) by {
        if 0 <= k < i {
        }
    }
    false
}

/// A symbolic instruction: its text and the variables in it.
#[derive(Debug, PartialEq)]
pub struct InstructionPattern {
    pattern: String,
    /// The variables in the order they appear in the pattern, duplicates included.
    variables: Vec<Variable>,
}

impl Clone for InstructionPattern {
    fn clone(&self) -> (r: Self)
        ensures
            r.text() == self.text(),
            r.vars() == self.vars(),
    {
        let variables = self.variables.clone();
        assert(forall|k: int| 0 <= k < variables@.len() ==> variables@[k] == self.variables@[k]);
        assert(variables@ =~= self.variables@);
        InstructionPattern { pattern: self.pattern.clone(), variables }
    }
}

impl InstructionPattern {
    /// The pattern text.
    pub closed spec fn text(&self) -> Seq<char> {
        self.pattern@
    }

    /// The variables `(name, type)` of the pattern, in order of occurrence.
    pub closed spec fn vars(&self) -> Seq<(Seq<char>, VariableType)> {
        variables_view(self.variables@)
    }

    /// Whether the variables are those that the text holds.
    pub open spec fn wf(&self) -> bool {
        parse_variables(self.text()) == Ok::<_, Seq<char>>(self.vars())
    }

    /// Parses a pattern text; fails on the first variable whose type tag is unknown.
    pub fn parse(pattern: &str) -> (r: Result<InstructionPattern, PatternError>)
        ensures
            match parse_variables(pattern@) {
                Ok(vars) => r matches Ok(p) && p.text() == pattern@ && p.vars() == vars,
                Err(tag) => r matches Err(PatternError::InvalidVariableType(t)) && t@ == tag,
            },
            r matches Ok(p) ==> p.wf(),
    {
        let s = chars_of(pattern);
        let toks = scan_tokens(&s);
        let ghost tv = toks@.map_values(|p: (Vec<char>, Vec<char>)| (p.0@, p.1@));
        let mut variables: Vec<Variable> = Vec::new();
        let mut i: usize = 0;
        proof {
            assert(tv.subrange(0, tv.len() as int) =~= tv);
            match classify(tv) {
                Ok(rest) => {
                    assert(variables_view(variables@) + rest =~= rest);
                },
                Err(e) => {},
            }
        }
        while i < toks.len()
            invariant
                i <= toks@.len(),
                tv == toks@.map_values(|p: (Vec<char>, Vec<char>)| (p.0@, p.1@)),
                tv == tokens(pattern@),
                classify(tv) == match classify(tv.subrange(i as int, tv.len() as int)) {
                    Ok(rest) => Ok(variables_view(variables@) + rest),
                    Err(e) => Err(e),
                },
            decreases toks@.len() - i,
        {
            let ghost sub = tv.subrange(i as int, tv.len() as int);
            assert(sub.drop_first() =~= tv.subrange(i as int + 1, tv.len() as int));
            assert(sub[0] == tv[i as int]);
            match type_of_tag_exec(&toks[i].0) {
                None => {
                    return Err(PatternError::InvalidVariableType(string_of(&toks[i].0)));
                },
                Some(t) => {
                    let ghost before = variables_view(variables@);
                    variables.push(Variable { name: string_of(&toks[i].1), typee: t });
                    assert(variables_view(variables@) =~= before.push((tv[i as int].1, t)));
                    proof {
                        match classify(tv.subrange(i as int + 1, tv.len() as int)) {
                            Ok(rest) => {
                                assert(before.push((tv[i as int].1, t)) + rest =~= before + (seq![(tv[i as int].1, t)] + rest));
                            },
                            Err(e) => {},
                        }
                    }
                },
            }
            i = i + 1;
        }
        assert(tv.subrange(i as int, tv.len() as int) =~= Seq::<(Seq<char>, Seq<char>)>::empty());
        assert(variables_view(variables@) + Seq::<(Seq<char>, VariableType)>::empty() =~= variables_view(variables@));
        Ok(InstructionPattern { pattern: string_of(&s), variables })
    }

    /// The pattern text.
    pub fn pattern(&self) -> (r: &str)
        ensures
            r@ == self.text(),
    {
        self.pattern.as_str()
    }

    /// The variables in order of occurrence, duplicates included.
    pub fn variables(&self) -> (r: &[Variable])
        ensures
            variables_view(r@) == self.vars(),
    {
        self.variables.as_slice()
    }
}


/// The names of the distinct register variables, in order of first occurrence.
pub open spec fn unique_register_names(vars: Seq<(Seq<char>, VariableType)>) -> Seq<Seq<char>>
    decreases vars.len(),
{
    if vars.len() == 0 {
        Seq::empty()
    } else {
        let prev = unique_register_names(vars.drop_last());
        let last = vars.last();
        if last.1 == VariableType::Register && !prev.contains(last.0) {
            prev.push(last.0)
        } else {
            prev
        }
    }
}

/// The variables of type `t`, in order of occurrence, duplicates included.
pub open spec fn variables_of_type(vars: Seq<(Seq<char>, VariableType)>, t: VariableType) -> Seq<(Seq<char>, VariableType)>
    decreases vars.len(),
{
    if vars.len() == 0 {
        Seq::empty()
    } else {
        let prev = variables_of_type(vars.drop_last(), t);
        if vars.last().1 == t {
            prev.push(vars.last())
        } else {
            prev
        }
    }
}

/// The index of the first variable of type `t`, if there is one.
pub open spec fn first_of_type(vars: Seq<(Seq<char>, VariableType)>, t: VariableType) -> Option<int> {
    if exists|i: int| 0 <= i < vars.len() && vars[i].1 == t {
        Some(choose|i: int| 0 <= i < vars.len() && vars[i].1 == t && forall|j: int| 0 <= j < i ==> vars[j].1 != t)
    } else {
        None
    }
}

impl InstructionPattern {
    /// The first variable of type length, if any.
    pub fn length_variable(&self) -> (r: Option<&Variable>)
        ensures
            match first_of_type(self.vars(), VariableType::Length) {
                Some(i) => r matches Some(v) && v@ == self.vars()[i],
                None => r is None,
            },
    {
        let ghost vars = self.vars();
        let mut i: usize = 0;
        while i < self.variables.len()
            invariant
                i <= self.variables@.len(),
                vars == variables_view(self.variables@),
                forall|j: int| 0 <= j < i ==> vars[j].1 != VariableType::Length,
            decreases self.variables@.len() - i,
        {
            if self.variables[i].typee == VariableType::Length {
                let ghost w = choose|w: int| 0 <= w < vars.len() && vars[w].1 == VariableType::Length && forall|j: int| 0 <= j < w ==> vars[j].1 != VariableType::Length;
                assert(0 <= i < vars.len() && vars[i as int].1 == VariableType::Length);
                // no earlier variable has the type, and this one has it
                assert(!(w < i));
                assert(!(w > i));
                return Some(&self.variables[i]);
            }
            i = i + 1;
        }
        None
    }

    /// The distinct register variables, in order of first occurrence.
    pub fn unique_register_variables(&self) -> (r: Vec<&Variable>)
        ensures
            r@.len() == unique_register_names(self.vars()).len(),
            forall|i: int| 0 <= i < r@.len() ==> (#[trigger] r@[i])@ == (unique_register_names(self.vars())[i], VariableType::Register),
    {
        let ghost vars = self.vars();
        let mut r: Vec<&Variable> = Vec::new();
        let mut i: usize = 0;
        while i < self.variables.len()
            invariant
                i <= self.variables@.len(),
                vars == variables_view(self.variables@),
                r@.len() == unique_register_names(vars.subrange(0, i as int)).len(),
                forall|k: int| 0 <= k < r@.len() ==> (#[trigger] r@[k])@ == (unique_register_names(vars.subrange(0, i as int))[k], VariableType::Register),
            decreases self.variables@.len() - i,
        {
            let v = &self.variables[i];
            let ghost prev = unique_register_names(vars.subrange(0, i as int));
            assert(vars.subrange(0, i as int + 1).drop_last() =~= vars.subrange(0, i as int));
            if v.typee == VariableType::Register {
                let mut seen = false;
                let mut j: usize = 0;
                while j < r.len()
                    invariant
                        j <= r@.len(),
                        r@.len() == prev.len(),
                        forall|k: int| 0 <= k < r@.len() ==> (#[trigger] r@[k])@ == (prev[k], VariableType::Register),
                        seen == exists|k: int| 0 <= k < j && prev[k] == v@.0,
                    decreases r@.len() - j,
                {
                    if r[j].name == v.name {
                        seen = true;
                    }
                    assert(r@[j as int]@ == (prev[j as int], VariableType::Register));
                    j = j + 1;
                }
                if !seen {
                    r.push(v);
                    assert(!prev.contains(v@.0));
                } else {
                    assert(prev.contains(v@.0));
                }
            }
            i = i + 1;
        }
        assert(vars.subrange(0, i as int) =~= vars);
        r
    }

    /// The number variables, in order of occurrence, duplicates included.
    pub fn number_variables(&self) -> (r: Vec<&Variable>)
        ensures
            r@.len() == variables_of_type(self.vars(), VariableType::Number).len(),
            forall|i: int| 0 <= i < r@.len() ==> (#[trigger] r@[i])@ == variables_of_type(self.vars(), VariableType::Number)[i],
    {
        let ghost vars = self.vars();
        let mut r: Vec<&Variable> = Vec::new();
        let mut i: usize = 0;
        while i < self.variables.len()
            invariant
                i <= self.variables@.len(),
                vars == variables_view(self.variables@),
                r@.len() == variables_of_type(vars.subrange(0, i as int), VariableType::Number).len(),
                forall|k: int| 0 <= k < r@.len() ==> (#[trigger] r@[k])@ == variables_of_type(vars.subrange(0, i as int), VariableType::Number)[k],
            decreases self.variables@.len() - i,
        {
            assert(vars.subrange(0, i as int + 1).drop_last() =~= vars.subrange(0, i as int));
            if self.variables[i].typee == VariableType::Number {
                r.push(&self.variables[i]);
            }
            i = i + 1;
        }
        assert(vars.subrange(0, i as int) =~= vars);
        r
    }
}

/// A rewrite rule: a sequence of instruction patterns and the sequence that replaces it.
#[derive(Debug, PartialEq)]
pub struct ObfuscationPattern {
    pattern: Vec<InstructionPattern>,
    replacement: Vec<InstructionPattern>,
}

/// Whether two sequences of instruction patterns hold the same texts and variables.
pub open spec fn same_patterns(a: Seq<InstructionPattern>, b: Seq<InstructionPattern>) -> bool {
    &&& a.len() == b.len()
    &&& forall|i: int| 0 <= i < a.len() ==> (#[trigger] a[i]).text() == b[i].text() && a[i].vars() == b[i].vars()
}

impl Clone for ObfuscationPattern {
    fn clone(&self) -> (r: Self)
        ensures
            same_patterns(r.pattern_spec(), self.pattern_spec()),
            same_patterns(r.replacement_spec(), self.replacement_spec()),
    {
        let pattern = self.pattern.clone();
        let replacement = self.replacement.clone();
        ObfuscationPattern { pattern, replacement }
    }
}

impl ObfuscationPattern {
    /// The instruction patterns to find.
    pub closed spec fn pattern_spec(&self) -> Seq<InstructionPattern> {
        self.pattern@
    }

    /// The instruction patterns to write in their place.
    pub closed spec fn replacement_spec(&self) -> Seq<InstructionPattern> {
        self.replacement@
    }

    pub fn new(pattern: Vec<InstructionPattern>, replacement: Vec<InstructionPattern>) -> (r: ObfuscationPattern)
        ensures
            r.pattern_spec() == pattern@,
            r.replacement_spec() == replacement@,
    {
        ObfuscationPattern { pattern, replacement }
    }

    pub fn instruction_patterns(&self) -> (r: &[InstructionPattern])
        ensures
            r@ == self.pattern_spec(),
    {
        self.pattern.as_slice()
    }

    pub fn replacement(&self) -> (r: &[InstructionPattern])
        ensures
            r@ == self.replacement_spec(),
    {
        self.replacement.as_slice()
    }
}

/// What one part of an encoding is, in mathematical terms.
pub enum PartView {
    Fixed(Seq<u8>),
    Intermediate(u8, Seq<char>),
}

/// One piece of a concrete encoding of an instruction pattern.
#[derive(Debug, PartialEq, Eq, Hash)]
pub enum EncodingPart {
    /// Bytes that must appear literally.
    Fixed(Vec<u8>),
    /// A run of `length` bytes holding, little-endian, the value of a number variable.
    Intermediate { length: u8, variable_name: String },
}

impl View for EncodingPart {
    type V = PartView;

    open spec fn view(&self) -> PartView {
        match self {
            EncodingPart::Fixed(b) => PartView::Fixed(b@),
            EncodingPart::Intermediate { length, variable_name } => PartView::Intermediate(*length, variable_name@),
        }
    }
}

/// A register binding `(variable name, register)` in mathematical terms.
pub open spec fn mappings_view(m: Seq<(String, Register)>) -> Seq<(Seq<char>, Register)> {
    m.map_values(|p: (String, Register)| (p.0@, p.1))
}

/// One concrete byte-level form of an instruction pattern, with the registers that its
/// register variables stood for when it was found.
#[derive(Debug, PartialEq, Eq, Hash)]
pub struct Encoding {
    parts: Vec<EncodingPart>,
    register_mappings: Vec<(String, Register)>,
}

impl View for Encoding {
    type V = (Seq<PartView>, Seq<(Seq<char>, Register)>);

    closed spec fn view(&self) -> (Seq<PartView>, Seq<(Seq<char>, Register)>) {
        (self.parts@.map_values(|p: EncodingPart| p@), mappings_view(self.register_mappings@))
    }
}

impl Encoding {
    pub fn new(parts: Vec<EncodingPart>, register_mappings: Vec<(String, Register)>) -> (r: Encoding)
        ensures
            r@ == (parts@.map_values(|p: EncodingPart| p@), mappings_view(register_mappings@)),
    {
        Encoding { parts, register_mappings }
    }

    pub fn parts(&self) -> (r: &[EncodingPart])
        ensures
            r@.map_values(|p: EncodingPart| p@) == self@.0,
    {
        self.parts.as_slice()
    }

    pub fn register_mappings(&self) -> (r: &[(String, Register)])
        ensures
            mappings_view(r@) == self@.1,
    {
        self.register_mappings.as_slice()
    }
}


/// Whether two byte vectors are equal.
pub fn same_bytes(a: &Vec<u8>, b: &Vec<u8>) -> (r: bool)
    ensures
        r == (a@ == b@),
{
    if a.len() != b.len() {
        return false;
    }
    let mut i: usize = 0;
    while i < a.len()
        invariant
            a@.len() == b@.len(),
            i <= a@.len(),
            forall|k: int| 0 <= k < i ==> a@[k] == b@[k],
        decreases a@.len() - i,
    {
        if a[i] != b[i] {
            return false;
        }
        i = i + 1;
    }
    assert(a@ =~= b@);
    true
}

impl EncodingPart {
    /// Whether two parts are equal.
    pub fn same_as(&self, other: &EncodingPart) -> (r: bool)
        ensures
            r == (self@ == other@),
    {
        match self {
            EncodingPart::Fixed(a) => match other {
                EncodingPart::Fixed(b) => {
                    let r = same_bytes(a, b);
                    assert(self@ == PartView::Fixed(a@) && other@ == PartView::Fixed(b@));
                    assert(r ==> self@ == other@);
                    assert(self@ == other@ ==> a@ == b@);
                    r
                },
                EncodingPart::Intermediate { length, variable_name } => {
                    assert(other@ == PartView::Intermediate(*length, variable_name@));
                    false
                },
            },
            EncodingPart::Intermediate { length: la, variable_name: na } => match other {
                EncodingPart::Fixed(b) => {
                    assert(other@ == PartView::Fixed(b@));
                    false
                },
                EncodingPart::Intermediate { length: lb, variable_name: nb } => {
                    let same_name = *na == *nb;
                    *la == *lb && same_name
                },
            },
        }
    }
}

impl Encoding {
    /// Whether two encodings are equal: the same parts and the same register bindings.
    pub fn same_as(&self, other: &Encoding) -> (r: bool)
        ensures
            r == (self@ == other@),
    {
        let ghost pa = self@.0;
        let ghost pb = other@.0;
        if self.parts.len() != other.parts.len() || self.register_mappings.len() != other.register_mappings.len() {
            assert(pa.len() == self.parts@.len() && pb.len() == other.parts@.len());
            assert(self@.1.len() == self.register_mappings@.len() && other@.1.len() == other.register_mappings@.len());
            return false;
        }
        let mut i: usize = 0;
        while i < self.parts.len()
            invariant
                pa == self.parts@.map_values(|p: EncodingPart| p@),
                pb == other.parts@.map_values(|p: EncodingPart| p@),
                self.parts@.len() == other.parts@.len(),
                i <= self.parts@.len(),
                forall|k: int| 0 <= k < i ==> pa[k] == pb[k],
            decreases self.parts@.len() - i,
        {
            if !self.parts[i].same_as(&other.parts[i]) {
                assert(pa[i as int] != pb[i as int]);
                return false;
            }
            i = i + 1;
        }
        assert(pa =~= pb);
        let ghost ma = self@.1;
        let ghost mb = other@.1;
        let mut j: usize = 0;
        while j < self.register_mappings.len()
            invariant
                ma == mappings_view(self.register_mappings@),
                mb == mappings_view(other.register_mappings@),
                self.register_mappings@.len() == other.register_mappings@.len(),
                j <= self.register_mappings@.len(),
                forall|k: int| 0 <= k < j ==> ma[k] == mb[k],
            decreases self.register_mappings@.len() - j,
        {
            assert(ma[j as int] == (self.register_mappings@[j as int].0@, self.register_mappings@[j as int].1));
            assert(mb[j as int] == (other.register_mappings@[j as int].0@, other.register_mappings@[j as int].1));
            let na = &self.register_mappings[j].0;
            let nb = &other.register_mappings[j].0;
            let same_name = *na == *nb;
            let same_register = self.register_mappings[j].1 == other.register_mappings[j].1;
            if !same_name || !same_register {
                assert(ma[j as int] != mb[j as int]);
                return false;
            }
            j = j + 1;
        }
        assert(ma =~= mb);
        true
    }
}


impl std::str::FromStr for InstructionPattern {
    type Err = PatternError;

    fn from_str(pattern: &str) -> (r: Result<InstructionPattern, PatternError>)
        ensures
            match parse_variables(pattern@) {
                Ok(vars) => r matches Ok(p) && p.text() == pattern@ && p.vars() == vars,
                Err(tag) => r matches Err(PatternError::InvalidVariableType(t)) && t@ == tag,
            },
            r matches Ok(p) ==> p.wf(),
    {
        InstructionPattern::parse(pattern)
    }
}

} // verus!
