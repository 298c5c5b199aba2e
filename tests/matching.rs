use pattern_based_deobfuscator::discovery::detect_intermediate_len;
use pattern_based_deobfuscator::matcher::{
    encodings_to_regex, little_endian_value, CaptureGroupPurpose, InstantiatedVariable,
    InstructionPatternMatcher, ObfuscationPatternMatcher,
};
use pattern_based_deobfuscator::pattern::{
    Encoding, EncodingPart, InstructionPattern, ObfuscationPattern, PatternError, Register,
};
use pattern_based_deobfuscator::replacement::{
    apply_replacements, replacement_text, write_replacement, ReplacementError, NOP,
};

// A stand-in for the assembler, for the instruction forms used below; it produces the
// bytes that an x86-64 assembler in Intel syntax gives for them.

fn reg_code(name: &str) -> Option<(u8, bool)> {
    let r = match name.trim().to_ascii_lowercase().as_str() {
        "rax" => (0, true),
        "eax" => (0, false),
        "rcx" => (1, true),
        "ecx" => (1, false),
        "rdx" => (2, true),
        "edx" => (2, false),
        "rbx" => (3, true),
        "ebx" => (3, false),
        "rsp" => (4, true),
        "esp" => (4, false),
        "rbp" => (5, true),
        "ebp" => (5, false),
        "rsi" => (6, true),
        "esi" => (6, false),
        "rdi" => (7, true),
        "edi" => (7, false),
        _ => return None,
    };
    Some(r)
}

fn parse_imm(s: &str) -> Option<u64> {
    let s = s.trim();
    let hex = s.strip_prefix("0x").or_else(|| s.strip_prefix("0X"))?;
    u64::from_str_radix(hex, 16).ok()
}

enum Base {
    Rip,
    Reg(u8, bool),
}

fn parse_mem(s: &str) -> Option<(Base, u64)> {
    let inner = s.trim().strip_prefix('[')?.strip_suffix(']')?;
    let mut parts = inner.split('+');
    let base_text = parts.next()?.trim();
    let base = if base_text.eq_ignore_ascii_case("rip") {
        Base::Rip
    } else {
        let (c, w) = reg_code(base_text)?;
        Base::Reg(c, w)
    };
    let disp = match parts.next() {
        Some(d) => parse_imm(d)?,
        None => 0,
    };
    if parts.next().is_some() {
        return None;
    }
    Some((base, disp))
}

fn assemble_line(line: &str) -> Option<Vec<u8>> {
    let line = line.trim();
    let (mnemonic, operands) = match line.find(' ') {
        Some(i) => (&line[..i], line[i + 1..].trim()),
        None => (line, ""),
    };
    let mut out = Vec::new();
    match mnemonic.to_ascii_lowercase().as_str() {
        "ret" => out.push(0xC3),
        "lea" => {
            let comma = operands.find(',')?;
            let (dst, dst64) = reg_code(&operands[..comma])?;
            let (base, disp) = parse_mem(&operands[comma + 1..])?;
            match base {
                Base::Rip => {
                    if disp > 0xFFFF_FFFF {
                        return None;
                    }
                    if dst64 {
                        out.push(0x48);
                    }
                    out.push(0x8D);
                    out.push((dst << 3) | 5);
                    out.extend_from_slice(&(disp as u32).to_le_bytes());
                }
                Base::Reg(b, b64) => {
                    if !b64 {
                        out.push(0x67);
                    }
                    if dst64 {
                        out.push(0x48);
                    }
                    out.push(0x8D);
                    let (mode, disp_bytes): (u8, Vec<u8>) = if disp == 0 && b != 5 {
                        (0, vec![])
                    } else if disp < 0x80 {
                        (1, vec![disp as u8])
                    } else if disp <= 0xFFFF_FFFF {
                        (2, (disp as u32).to_le_bytes().to_vec())
                    } else {
                        return None;
                    };
                    out.push((mode << 6) | (dst << 3) | b);
                    if b == 4 {
                        out.push(0x24);
                    }
                    out.extend_from_slice(&disp_bytes);
                }
            }
        }
        "xchg" => {
            let comma = operands.find(',')?;
            let (r, r64) = reg_code(&operands[..comma])?;
            let (base, disp) = parse_mem(&operands[comma + 1..])?;
            match base {
                Base::Reg(4, true) if disp == 0 => {}
                _ => return None,
            }
            if r64 {
                out.push(0x48);
            }
            out.push(0x87);
            out.push((r << 3) | 4);
            out.push(0x24);
        }
        "jmp" => {
            let (base, disp) = parse_mem(operands)?;
            match base {
                Base::Rip if disp <= 0xFFFF_FFFF => {}
                _ => return None,
            }
            out.push(0xFF);
            out.push(0x25);
            out.extend_from_slice(&(disp as u32).to_le_bytes());
        }
        _ => return None,
    }
    Some(out)
}

fn assemble(text: &str) -> Option<Vec<u8>> {
    let mut out = Vec::new();
    for line in text.lines() {
        out.extend(assemble_line(line)?);
    }
    Some(out)
}

fn instruction_matcher(text: &str) -> Result<InstructionPatternMatcher, PatternError> {
    let pattern = InstructionPattern::parse(text).unwrap();
    let outputs: Vec<Option<Vec<u8>>> = pattern.probe_texts().iter().map(|t| assemble(t)).collect();
    InstructionPatternMatcher::new(pattern, &outputs)
}

fn matcher(texts: &[&str]) -> ObfuscationPatternMatcher {
    let ipms = texts.iter().map(|t| instruction_matcher(t).unwrap()).collect();
    ObfuscationPatternMatcher::new(ipms).unwrap()
}

fn number(name: &str, value: u64) -> InstantiatedVariable {
    InstantiatedVariable::new_number(name.to_string(), value)
}

fn register(name: &str, value: Register) -> InstantiatedVariable {
    InstantiatedVariable::new_register(name.to_string(), value)
}

// A small deterministic generator in place of random inputs.
struct Lcg(u64);

impl Lcg {
    fn next(&mut self) -> u64 {
        self.0 = self.0.wrapping_mul(6364136223846793005).wrapping_add(1442695040888963407);
        self.0 >> 11
    }
}

fn random_number(rng: &mut Lcg) -> u64 {
    loop {
        let v = match rng.next() % 3 {
            0 => rng.next() & 0xFF,
            1 => rng.next() & 0xFFFF,
            _ => rng.next() & 0xFFFF_FFFF,
        };
        if v != 0 {
            return v;
        }
    }
}

/// Instantiates every variable of the patterns at random, assembles the instance and checks
/// that the matcher finds it exactly once, over its whole length, with every value.
fn check_self_match(texts: &[&str], rounds: usize, seed: u64) {
    let m = matcher(texts);
    let mut rng = Lcg(seed);
    let mut checked = 0;
    for _ in 0..rounds {
        let mut instance = texts.join("\n");
        let mut expected = Vec::new();
        for p in m.instruction_patterns() {
            for v in p.variables() {
                let token = v.to_string();
                if !instance.contains(&token) {
                    continue;
                }
                match v.typee() {
                    pattern_based_deobfuscator::pattern::VariableType::Number => {
                        let n = random_number(&mut rng);
                        instance = instance.replace(&token, &format!("0x{:x}", n));
                        expected.push(number(v.name(), n));
                    }
                    pattern_based_deobfuscator::pattern::VariableType::Register => {
                        let all = Register::all();
                        let r = all[(rng.next() % all.len() as u64) as usize];
                        instance = instance.replace(&token, r.name());
                        expected.push(register(v.name(), r));
                    }
                    pattern_based_deobfuscator::pattern::VariableType::Length => {
                        instance = instance.replace(&token, "");
                    }
                }
            }
        }
        let bytes = match assemble(&instance) {
            Some(b) => b,
            None => continue,
        };
        let found = m.match_against(&bytes);
        assert_eq!(found.len(), 1, "instance {:?} matched {} times", instance, found.len());
        let (vars, start, end) = &found[0];
        assert_eq!(*start, 0);
        assert_eq!(*end, bytes.len());
        for e in &expected {
            assert!(vars.contains(e), "{:?} not found in {:?} for {:?}", e, vars, instance);
        }
        checked += 1;
    }
    assert!(checked > 0);
}

#[test]
fn quickcheck_test_one_instruction_pattern() {
    check_self_match(&["lea eax, [rip + $num:n1]"], 200, 1);
    check_self_match(&["lea rax, [rip + $num:n1]"], 200, 2);
    check_self_match(&["lea $reg:r1, [rip]"], 100, 3);
    check_self_match(&["lea $reg:r1, [rip + $num:n1]"], 200, 4);
    check_self_match(&["lea $reg:r1, [$reg:r2 + $num:n1]"], 200, 5);
    check_self_match(&["lea $reg:r1, [$reg:r1 + $num:n1]"], 200, 6);
}

#[test]
fn quickcheck_test_multiple_instruction_pattern() {
    check_self_match(&["lea eax, [rip + $num:n1]", "lea edx, [rip + $num:n1]"], 200, 7);
    check_self_match(&["lea $reg:r1, [rip + $num:n1]", "xchg $reg:r1, [rsp]", "ret"], 200, 8);
}

#[test]
fn s1_lea_xchg_ret_becomes_jmp() {
    let rule = ObfuscationPattern::new(
        vec![
            InstructionPattern::parse("lea rbp,[rip + $num:d]").unwrap(),
            InstructionPattern::parse("xchg rbp,[rsp]").unwrap(),
            InstructionPattern::parse("ret").unwrap(),
        ],
        vec![InstructionPattern::parse("jmp [rip + $num:d]").unwrap()],
    );
    let m = matcher(&["lea rbp,[rip + $num:d]", "xchg rbp,[rsp]", "ret"]);
    let mut code = vec![0x48, 0x8D, 0x2D, 0x47, 0xF7, 0xE4, 0xFF, 0x48, 0x87, 0x2C, 0x24, 0xC3];
    let found = m.match_against(&code);
    assert_eq!(found.len(), 1);
    let (vars, start, end) = &found[0];
    assert_eq!((*start, *end), (0, 12));
    assert_eq!(vars, &vec![number("d", 0xFFE4F747)]);

    let text = rule.replacement_text(vars);
    assert_eq!(text, "jmp [rip + 0xffe4f747]");
    let assembled = assemble(&text);
    assert_eq!(assembled, Some(vec![0xFF, 0x25, 0x47, 0xF7, 0xE4, 0xFF]));
    let outcomes = apply_replacements(&mut code, &vec![(*start, *end)], &vec![assembled]);
    assert_eq!(outcomes, vec![Ok(())]);
    assert_eq!(code, vec![0xFF, 0x25, 0x47, 0xF7, 0xE4, 0xFF, 0x90, 0x90, 0x90, 0x90, 0x90, 0x90]);
}

#[test]
fn s2_lea_eax_recovers_number() {
    let m = matcher(&["lea eax,[rip + $num:n]"]);
    let mut rng = Lcg(42);
    let mut values = vec![1u64, 0x7F, 0x80, 0xFF, 0x100, 0xFFFF, 0x1_0000, 0xFFFF_FFFF];
    for _ in 0..100 {
        values.push(1 + rng.next() % 0xFFFF_FFFF);
    }
    for n in values {
        let mut bytes = vec![0x8D, 0x05];
        bytes.extend_from_slice(&(n as u32).to_le_bytes());
        let found = m.match_against(&bytes);
        assert_eq!(found.len(), 1);
        assert_eq!(found[0].0, vec![number("n", n)]);
        assert_eq!((found[0].1, found[0].2), (0, 6));
    }
}

#[test]
fn s3_register_mismatch_is_rejected() {
    let m = matcher(&["lea $reg:r1,[rip + $num:n]", "xchg $reg:r1,[rsp]", "ret"]);
    let mismatched = assemble("lea rbp,[rip + 0x1234]\nxchg rcx,[rsp]\nret").unwrap();
    assert!(m.match_against(&mismatched).is_empty());
    let consistent = assemble("lea rbp,[rip + 0x1234]\nxchg rbp,[rsp]\nret").unwrap();
    let found = m.match_against(&consistent);
    assert_eq!(found.len(), 1);
    assert!(found[0].0.contains(&register("r1", Register::RBP)));
    assert!(found[0].0.contains(&number("n", 0x1234)));
}

#[test]
fn s4_duplicate_register_variable() {
    let m = matcher(&["lea $reg:r1,[$reg:r1 + $num:n]"]);
    let same = assemble("lea rcx,[rcx + 0x10]").unwrap();
    let found = m.match_against(&same);
    assert_eq!(found.len(), 1);
    assert!(found[0].0.contains(&register("r1", Register::RCX)));
    let different = assemble("lea rcx,[rdx + 0x10]").unwrap();
    assert!(m.match_against(&different).is_empty());
}

#[test]
fn s5_too_large_replacement_is_skipped() {
    let mut code = vec![1u8, 2, 3, 4, 5, 6, 7, 8];
    let regions = vec![(0usize, 2usize), (2, 3), (4, 8)];
    let assembled = vec![Some(vec![9u8, 9, 9]), None, Some(vec![0xAAu8, 0xBB])];
    let outcomes = apply_replacements(&mut code, &regions, &assembled);
    assert_eq!(
        outcomes,
        vec![
            Err(ReplacementError::ReplacementTooLarge),
            Err(ReplacementError::ReplacementAssemblyFailed),
            Ok(())
        ]
    );
    assert_eq!(code, vec![1, 2, 3, 4, 0xAA, 0xBB, NOP, NOP]);
}

#[test]
fn write_replacement_fills_exactly() {
    let mut code = vec![0u8; 6];
    assert_eq!(write_replacement(&mut code, 1, 5, &vec![7, 7, 7, 7]), Ok(()));
    assert_eq!(code, vec![0, 7, 7, 7, 7, 0]);
    assert_eq!(
        write_replacement(&mut code, 1, 2, &vec![1, 1]),
        Err(ReplacementError::ReplacementTooLarge)
    );
    assert_eq!(code, vec![0, 7, 7, 7, 7, 0]);
}

#[test]
fn pass_keeps_length_and_no_replacement_keeps_bytes() {
    let original = vec![0x48u8, 0x8D, 0x2D, 0x00, 0x10, 0x00, 0x00, 0xC3];
    let mut code = original.clone();
    let outcomes = apply_replacements(&mut code, &vec![], &vec![]);
    assert!(outcomes.is_empty());
    assert_eq!(code, original);
    let outcomes = apply_replacements(&mut code, &vec![(0, 7)], &vec![Some(vec![0xC3])]);
    assert_eq!(outcomes, vec![Ok(())]);
    assert_eq!(code.len(), original.len());
    let again = code.clone();
    let outcomes = apply_replacements(&mut code, &vec![(0, 2)], &vec![None]);
    assert_eq!(outcomes, vec![Err(ReplacementError::ReplacementAssemblyFailed)]);
    assert_eq!(code, again);
}

#[test]
fn detect_intermediate_len_each_width() {
    assert_eq!(detect_intermediate_len(&[0x8D, 0x0F]), Ok(1));
    assert_eq!(detect_intermediate_len(&[0x8D, 0x0F, 0xDD]), Ok(2));
    assert_eq!(detect_intermediate_len(&[0x8D, 0x0F, 0xDD, 0xDD, 0xDD]), Ok(4));
    assert_eq!(
        detect_intermediate_len(&[0x48, 0x0F, 0xDD, 0xDD, 0xDD, 0xDD, 0xDD, 0xDD, 0xDD]),
        Ok(8)
    );
    assert_eq!(detect_intermediate_len(&[0x48, 0x8D, 0x05]), Err(PatternError::DetectionError));
    assert_eq!(detect_intermediate_len(&[]), Err(PatternError::DetectionError));
}

#[test]
fn little_endian_values() {
    assert_eq!(little_endian_value(&[]), 0);
    assert_eq!(little_endian_value(&[0x47, 0xF7, 0xE4, 0xFF]), 0xFFE4F747);
    assert_eq!(little_endian_value(&[0x34, 0x12]), 0x1234);
    assert_eq!(little_endian_value(&[0xFF; 8]), u64::MAX);
}

#[test]
fn encodings_compile_to_regex_and_purposes() {
    let e = Encoding::new(
        vec![
            EncodingPart::Fixed(vec![0x48, 0x8D]),
            EncodingPart::Intermediate { length: 2, variable_name: "d".to_string() },
        ],
        vec![("r".to_string(), Register::RAX)],
    );
    let f = Encoding::new(vec![EncodingPart::Fixed(vec![0xC3])], vec![]);
    let (regex, purposes) = encodings_to_regex(&[e, f]);
    assert_eq!(regex, r"((\x48\x8d(..))|(\xc3))");
    assert_eq!(purposes.len(), 4);
    assert!(matches!(purposes[0], CaptureGroupPurpose::WholeMatch));
    assert!(matches!(&purposes[1], CaptureGroupPurpose::NewEncoding(m) if m == &vec![("r".to_string(), Register::RAX)]));
    assert!(matches!(&purposes[2], CaptureGroupPurpose::NumberVariable(n) if n == "d"));
    assert!(matches!(&purposes[3], CaptureGroupPurpose::NewEncoding(m) if m.is_empty()));
}

#[test]
fn interpret_rejects_inconsistent_bindings() {
    let m = matcher(&["lea eax, [rip + $num:n]", "lea edx, [rip + $num:n]"]);
    let mut bytes = vec![0x8D, 0x05, 0x10, 0, 0, 0, 0x8D, 0x15, 0x10, 0, 0, 0];
    assert_eq!(m.match_against(&bytes).len(), 1);
    bytes[8] = 0x11;
    assert!(m.match_against(&bytes).is_empty());
}

#[test]
fn interpret_reads_given_captures() {
    let m = matcher(&["lea eax, [rip + $num:n]"]);
    let bytes = vec![0x8D, 0x05, 0x78, 0x56, 0x34, 0x12];
    let purposes = m.instruction_patterns();
    assert_eq!(purposes.len(), 1);
    // group 0 whole match, group 1 the instruction, group 2 its encoding, group 3 the number
    let caps = vec![Some((0usize, 6usize)), Some((0, 6)), Some((0, 6)), Some((2, 6))];
    let found = m.interpret(&caps, &bytes).unwrap();
    assert_eq!(found.0, vec![number("n", 0x12345678)]);
    assert_eq!((found.1, found.2), (0, 6));
    let too_long = vec![Some((0usize, 6usize)), Some((0, 6)), Some((0, 6)), Some((0, 6))];
    assert!(m.interpret(&too_long, &bytes).is_none());
    assert!(m.interpret(&vec![None], &bytes).is_none());
}

#[test]
fn find_encodings_errors() {
    let p = InstructionPattern::parse("lea $reg:r, [rip + $num:n]").unwrap();
    let n = p.probe_texts().len();
    assert_eq!(n, 64);
    assert_eq!(p.find_encodings(&vec![None; n]), Err(PatternError::AssemblyFailed));
    let mut outputs = vec![None; n];
    outputs[3] = Some(vec![0x48, 0x8D, 0x05]);
    assert_eq!(p.find_encodings(&outputs), Err(PatternError::DetectionError));
    let two = InstructionPattern::parse("mov [$num:a], $num:b").unwrap();
    assert_eq!(two.find_encodings(&vec![]), Err(PatternError::MultipleNumberVariables));
    let plain = InstructionPattern::parse("ret").unwrap();
    assert_eq!(plain.probe_texts(), vec!["ret".to_string()]);
    assert_eq!(plain.find_encodings(&vec![None]), Err(PatternError::DetectionError));
    let encs = plain.find_encodings(&vec![Some(vec![0xC3])]).unwrap();
    assert_eq!(encs, vec![Encoding::new(vec![EncodingPart::Fixed(vec![0xC3])], vec![])]);
}

#[test]
fn find_encodings_cuts_and_dedups() {
    let p = InstructionPattern::parse("lea eax, [rip + $num:n]").unwrap();
    let texts = p.probe_texts();
    assert_eq!(
        texts,
        vec![
            "lea eax, [rip + 0x0F]".to_string(),
            "lea eax, [rip + 0xDD0F]".to_string(),
            "lea eax, [rip + 0xDDDDDD0F]".to_string(),
            "lea eax, [rip + 0xDDDDDDDDDDDDDD0F]".to_string(),
        ]
    );
    let outputs: Vec<Option<Vec<u8>>> = texts.iter().map(|t| assemble(t)).collect();
    let encs = p.find_encodings(&outputs).unwrap();
    assert_eq!(
        encs,
        vec![Encoding::new(
            vec![
                EncodingPart::Fixed(vec![0x8D, 0x05]),
                EncodingPart::Intermediate { length: 4, variable_name: "n".to_string() },
            ],
            vec![],
        )]
    );
}

#[test]
fn probe_texts_substitute_registers_and_erase_lengths() {
    let p = InstructionPattern::parse("xchg $reg:a,[rsp]$len:l").unwrap();
    let texts = p.probe_texts();
    assert_eq!(texts.len(), 16);
    assert_eq!(texts[0], "xchg RAX,[rsp]");
    assert_eq!(texts[9], "xchg EBP,[rsp]");
}

#[test]
fn replacement_text_substitutes_every_binding() {
    let replacement = vec![
        InstructionPattern::parse("lea $reg:r, [rip + $num:d]").unwrap(),
        InstructionPattern::parse("jmp $reg:r").unwrap(),
    ];
    let text = replacement_text(&replacement, &[register("r", Register::RCX), number("d", 0x10)]);
    assert_eq!(text, "lea RCX, [rip + 0x10]\njmp RCX");
}

#[test]
fn instantiated_variable_accessors() {
    let n = number("d", 0xFFE4F747);
    assert_eq!(n.name(), "d");
    assert_eq!(n.value(), "0xffe4f747");
    assert_eq!(n.as_variable().to_string(), "$num:d");
    let r = register("r", Register::EDI);
    assert_eq!(r.value(), "EDI");
    assert_eq!(r.as_variable().to_string(), "$reg:r");
    assert_eq!(number("z", 0).value(), "0x0");
}

#[test]
fn register_names_and_order() {
    let all = Register::all();
    assert_eq!(all.len(), 16);
    assert_eq!(all[0], Register::RAX);
    assert_eq!(all[15], Register::EDI);
    assert_eq!(Register::RBP.name(), "RBP");
    assert_eq!(Register::ESI.name(), "ESI");
}

#[test]
fn negated_number_variable_is_rejected() {
    let p = InstructionPattern::parse("lea rax, [rip -  $num:x]").unwrap();
    let outputs: Vec<Option<Vec<u8>>> = p.probe_texts().iter().map(|t| assemble(t)).collect();
    assert_eq!(p.find_encodings(&outputs), Err(PatternError::NegatedNumberVariable));
    assert_eq!(
        instruction_matcher("lea rax, [rip - $num:x]").err(),
        Some(PatternError::NegatedNumberVariable)
    );
    // a minus after the variable does not negate it; here the assembler rejects the text
    assert_eq!(
        instruction_matcher("lea rax, [rip + $num:x] -").err(),
        Some(PatternError::AssemblyFailed)
    );
    let q = InstructionPattern::parse("lea rax, [rip + $num:x]").unwrap();
    let outputs: Vec<Option<Vec<u8>>> = q.probe_texts().iter().map(|t| assemble(t)).collect();
    assert!(q.find_encodings(&outputs).is_ok());
}

#[test]
fn from_patterns_builds_or_reports_first_failure() {
    let patterns: Vec<InstructionPattern> = ["lea rbp,[rip + $num:d]", "xchg rbp,[rsp]", "ret"]
        .iter()
        .map(|t| t.parse().unwrap())
        .collect();
    let outputs: Vec<Vec<Option<Vec<u8>>>> =
        patterns.iter().map(|p| p.probe_texts().iter().map(|t| assemble(t)).collect()).collect();
    let m = ObfuscationPatternMatcher::from_patterns(&patterns, &outputs).unwrap();
    let code = vec![0x48, 0x8D, 0x2D, 0x47, 0xF7, 0xE4, 0xFF, 0x48, 0x87, 0x2C, 0x24, 0xC3];
    let found = m.match_against(&code);
    assert_eq!(found.len(), 1);
    assert_eq!(found[0].0, vec![number("d", 0xFFE4F747)]);

    let mut broken = outputs.clone();
    broken[1] = vec![None];
    broken[2] = vec![];
    assert_eq!(
        ObfuscationPatternMatcher::from_patterns(&patterns, &broken).err(),
        Some(PatternError::DetectionError)
    );
    let missing = vec![outputs[0].clone()];
    assert_eq!(
        ObfuscationPatternMatcher::from_patterns(&patterns, &missing).err(),
        Some(PatternError::DetectionError)
    );
    let mut no_probe = outputs.clone();
    no_probe[0] = vec![None; 4];
    assert_eq!(
        ObfuscationPatternMatcher::from_patterns(&patterns, &no_probe).err(),
        Some(PatternError::AssemblyFailed)
    );
}
