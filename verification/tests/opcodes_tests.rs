use ill::interpreter::{EnhancedFile, Interpreter, Register};
use ill::opcodes::{
    container, default_opcodes, inst_ref, literal, prob_literal, register, s_literal,
    select_branch, variable, ExpressionType, OpCode, ProbableValue, FALSE, TRUE,
};
use ill::scan::ReadHead;

#[test]
fn catalog_holds_all_builtins() {
    let catalog = default_opcodes();
    let names: Vec<String> = catalog
        .iter()
        .map(|o| String::from_utf8(o.name.clone()).unwrap())
        .collect();
    for expected in [
        "mov", "mod", "gt", "lt", "eq", "gte", "lte", "add", "mak", "dis", "dsl", "do", "dor",
        "del", "pt", "ptl", "neg", "for", "if",
    ] {
        assert!(names.iter().any(|n| n == expected), "missing {}", expected);
    }
}

#[test]
fn catalog_arities() {
    let catalog = default_opcodes();
    let arity = |name: &str| {
        catalog
            .iter()
            .find(|o| o.name == name.as_bytes().to_vec())
            .unwrap()
            .arguments
            .len()
    };
    assert_eq!(arity("mov"), 2);
    assert_eq!(arity("gt"), 3);
    assert_eq!(arity("for"), 5);
    assert_eq!(arity("if"), 3);
    assert_eq!(arity("dis"), 1);
}

#[test]
fn opcode_builder_appends_expectations() {
    let op = OpCode::new_str(b"xyz".to_vec()).expecting(prob_literal()).expecting(container());
    assert_eq!(op.name, b"xyz".to_vec());
    assert_eq!(op.arguments.len(), 2);
    assert!(op.location.is_none());
}

#[test]
fn expression_kind_names() {
    assert_eq!(literal().name(), "Integer Literal");
    assert_eq!(prob_literal().name(), "Probable Integer (Variable, or Literal)");
    assert_eq!(s_literal().name(), "String Literal");
    assert_eq!(container().name(), "Container Reference");
    assert_eq!(register().name(), "Register Reference");
    assert_eq!(variable().name(), "Variable Reference");
    assert_eq!(inst_ref().name(), "Instruction Reference");
}

#[test]
fn sentinels_are_distinct() {
    assert_ne!(TRUE, FALSE);
    assert_eq!(TRUE, 0);
    assert_eq!(FALSE, 1);
}

#[test]
fn select_branch_picks_then_only_on_true() {
    assert!(select_branch(TRUE));
    assert!(!select_branch(FALSE));
    assert!(!select_branch(7));
    assert!(!select_branch(-1));
}

#[test]
fn get_absolute_value_resolves_literal_and_name() {
    let file = EnhancedFile { filename: b"t".to_vec(), content: Vec::new() };
    let rh = ReadHead::new();
    let op = OpCode { name: b"mov".to_vec(), arguments: Vec::new(), location: None };
    let registers = vec![Register { identifier: b"x".to_vec(), value: 9, is_variable: false }];
    let scope = vec![Register { identifier: b"x".to_vec(), value: 4, is_variable: true }];
    let lit = ProbableValue::Value(5);
    assert_eq!(op.get_absolute_value(&file, rh, &lit, &registers, &scope).ok(), Some(5));
    // the local scope is searched before the globals
    let named = ProbableValue::Name(b"x".to_vec());
    assert_eq!(op.get_absolute_value(&file, rh, &named, &registers, &scope).ok(), Some(4));
    let missing = ProbableValue::Name(b"zz".to_vec());
    assert!(op.get_absolute_value(&file, rh, &missing, &registers, &scope).is_err());
}

#[test]
fn interpreter_lookups() {
    let catalog = default_opcodes();
    let interp = Interpreter::new(false, false, Vec::new(), Vec::new(), catalog);
    assert!(interp.does_opcode_exist(&b"mov".to_vec()));
    assert!(!interp.does_opcode_exist(&b"nope".to_vec()));
    assert!(interp.find_opcode(&b"gt".to_vec()).is_some());
    assert!(!interp.does_register_exist(&b"x".to_vec()));
    assert!(!interp.does_instruction_exist(&b"main".to_vec()));
}

#[test]
fn expression_variants_round_trip_through_parse() {
    // a validated statement carries concrete operands of the expected kinds
    let mut interp = Interpreter::new(
        false,
        false,
        vec![EnhancedFile {
            filename: b"m".to_vec(),
            content: b"+x;\n$$main(){ mov 5 x; }".to_vec(),
        }],
        Vec::new(),
        default_opcodes(),
    );
    assert!(interp.begin_parsing().is_none());
    let main = &interp.instructions[0];
    assert_eq!(main.codes.len(), 1);
    let op = &main.codes[0];
    assert_eq!(op.name, b"mov".to_vec());
    assert!(matches!(op.arguments[0], ExpressionType::ProbableLiteral(ProbableValue::Value(5))));
    match &op.arguments[1] {
        ExpressionType::ContainerReference(n) => assert_eq!(n, &b"x".to_vec()),
        other => panic!("unexpected operand {:?}", other),
    }
}
