use pattern_based_deobfuscator::pattern::{InstructionPattern, PatternError, Variable, VariableType};

fn check_parse(pattern: &str, variables: Vec<Variable>) {
    let parsed: InstructionPattern = pattern.parse().unwrap();
    assert_eq!(parsed.pattern(), pattern);
    assert_eq!(parsed.variables(), &variables[..]);
}

fn parse_instruction_pattern_cases() {
    let var = Variable::new;

    check_parse("move eax, ebx", vec![]);
    check_parse(
        "move $reg:a, $reg:b",
        vec![var("a", VariableType::Register), var("b", VariableType::Register)],
    );
    check_parse(
        "move $reg:a, $reg:a",
        vec![var("a", VariableType::Register), var("a", VariableType::Register)],
    );
    check_parse("move eax, [$num:num1]", vec![var("num1", VariableType::Number)]);
    check_parse("move eax, [$num:42]", vec![var("42", VariableType::Number)]);
    assert_eq!(
        "move $n:a, $r:b".parse::<InstructionPattern>(),
        Err(PatternError::InvalidVariableType("n".to_string()))
    );
}

#[test]
fn pattern_parse_instruction_pattern() {
    parse_instruction_pattern_cases();
}

#[test]
fn mod_parse_instruction_pattern() {
    parse_instruction_pattern_cases();
}

#[test]
fn parse_keeps_length_variables_and_occurrence_order() {
    let p = InstructionPattern::parse("jmp $len:l [rip + $num:d] $reg:r").unwrap();
    let names: Vec<&str> = p.variables().iter().map(|v| v.name()).collect();
    assert_eq!(names, vec!["l", "d", "r"]);
    assert_eq!(p.variables()[0].typee(), VariableType::Length);
    assert_eq!(p.length_variable().map(|v| v.name()), Some("l"));
    assert_eq!(p.number_variables().len(), 1);
    assert_eq!(p.unique_register_variables().len(), 1);
}

#[test]
fn parse_ignores_incomplete_tokens() {
    let p = InstructionPattern::parse("mov $:a, $reg:, $$reg:b, $ num:c").unwrap();
    assert_eq!(p.variables(), &[Variable::new("b", VariableType::Register)][..]);
}

#[test]
fn unique_register_variables_drop_repeats() {
    let p = InstructionPattern::parse("lea $reg:r1, [$reg:r2 + $reg:r1]").unwrap();
    let names: Vec<&str> = p.unique_register_variables().iter().map(|v| v.name()).collect();
    assert_eq!(names, vec!["r1", "r2"]);
}

#[test]
fn variable_text_form() {
    assert_eq!(Variable::new("x", VariableType::Number).to_string(), "$num:x");
    assert_eq!(Variable::new("y", VariableType::Register).to_string(), "$reg:y");
    assert_eq!(Variable::new("z", VariableType::Length).to_string(), "$len:z");
}
