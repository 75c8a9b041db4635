use ill::interpreter::{EnhancedFile, IllError, Interpreter};
use ill::opcodes::default_opcodes;

fn file_of(name: &str, content: &str) -> EnhancedFile {
    EnhancedFile { filename: name.as_bytes().to_vec(), content: content.as_bytes().to_vec() }
}

fn run(source: &str) -> (Interpreter, Option<ill::interpreter::AdvancedIllError>) {
    let mut interp = Interpreter::new(
        false,
        false,
        vec![file_of("main.ill", source)],
        Vec::new(),
        default_opcodes(),
    );
    let err = interp.begin_parsing();
    (interp, err)
}

fn output_str(interp: &Interpreter) -> String {
    String::from_utf8(interp.output.clone()).unwrap()
}

#[test]
fn no_registers_found_without_declaration() {
    let (_, err) = run("$$main(){ pt \"hello\"; }");
    let err = err.expect("a program without register declarations must fail");
    assert!(matches!(err.error, IllError::NoRegistersFound(_)));
}

#[test]
fn no_registers_found_names_the_file() {
    let (_, err) = run("$$main(){ }");
    let err = err.unwrap();
    match err.error {
        IllError::NoRegistersFound(f) => assert_eq!(f.filename, b"main.ill".to_vec()),
        other => panic!("unexpected error {:?}", other),
    }
}

#[test]
fn no_main_instruction_without_definitions() {
    let (_, err) = run("+x;\n");
    let err = err.expect("a program without instruction definitions must fail");
    assert!(matches!(err.error, IllError::NoMainInstruction));
}

#[test]
fn single_instruction_is_main_without_sigil() {
    let (interp, err) = run("+x;\n$main(){ mov 5 x; }");
    assert!(err.is_none(), "{:?}", err.map(|e| e.error));
    assert_eq!(interp.instructions.len(), 1);
    assert!(interp.instructions[0].is_main);
}

#[test]
fn doubled_sigil_marks_main_among_many() {
    let (interp, err) = run("+x;\n$helper(){ mov 1 x; }\n$$main(){ mov 5 x; }");
    assert!(err.is_none(), "{:?}", err.map(|e| e.error));
    assert_eq!(interp.instructions.len(), 2);
    // the sigils are not part of the name
    assert!(interp.instructions.iter().any(|i| i.name == b"main".to_vec() && i.is_main));
    // the main instruction ran, so x holds 5
    let x = interp.registers.iter().find(|r| r.identifier == b"x".to_vec()).unwrap();
    assert_eq!(x.value, 5);
}

#[test]
fn main_instruction_is_referencable_by_name() {
    // a doubled-sigil definition is referencable under its bare name by a
    // later definition
    let (interp, err) = run("+x;\n$$boost(){ add 1 x; }\n$caller(){ do boost; }");
    assert!(err.is_none(), "{:?}", err.map(|e| e.error));
    let x = interp.registers.iter().find(|r| r.identifier == b"x".to_vec()).unwrap();
    assert_eq!(x.value, 1);
}

#[test]
fn duplicate_global_register_is_redefinition() {
    let (_, err) = run("+x;x;\n$$main(){ }");
    let err = err.expect("declaring a register twice must fail");
    match err.error {
        IllError::RegisterRedefinition(_, name, _) => assert_eq!(name, b"x".to_vec()),
        other => panic!("unexpected error {:?}", other),
    }
}

#[test]
fn duplicate_local_variable_is_redefinition() {
    let (_, err) = run("+x;\n$$main(){ mak \"y\" 1; mak \"y\" 2; }");
    let err = err.expect("creating the same local twice must fail");
    match err.error {
        IllError::RegisterRedefinition(_, name, hint) => {
            assert_eq!(name, b"y".to_vec());
            assert_eq!(hint, Some(b"Variable Reference".to_vec()));
        },
        other => panic!("unexpected error {:?}", other),
    }
}

#[test]
fn shadowing_hint_names_the_register_kind() {
    let (_, err) = run("+x;\n$$main(){ gt 1 2 \"x\"; }");
    let err = err.unwrap();
    match err.error {
        IllError::RegisterRedefinition(_, name, hint) => {
            assert_eq!(name, b"x".to_vec());
            assert_eq!(hint, Some(b"Register Reference".to_vec()));
        },
        other => panic!("unexpected error {:?}", other),
    }
}

#[test]
fn local_shadowing_global_is_redefinition() {
    let (_, err) = run("+x;\n$$main(){ mak \"x\" 1; }");
    let err = err.expect("a local may not take a global's name");
    assert!(matches!(err.error, IllError::RegisterRedefinition(_, _, _)));
}

#[test]
fn mov_sets_and_dis_prints() {
    let (interp, err) = run("+x;\n$$main(){ mov 5 x; dis x; }");
    assert!(err.is_none(), "{:?}", err.map(|e| e.error));
    let x = interp.registers.iter().find(|r| r.identifier == b"x".to_vec()).unwrap();
    assert_eq!(x.value, 5);
    assert_eq!(output_str(&interp), "5");
}

#[test]
fn dsl_prints_with_newline() {
    let (interp, err) = run("+x;\n$$main(){ mov 7 x; dsl x; }");
    assert!(err.is_none());
    assert_eq!(output_str(&interp), "7\n");
}

#[test]
fn mak_creates_local_not_global() {
    let (interp, err) = run("+x;\n$$main(){ mak \"y\" 3; }");
    assert!(err.is_none(), "{:?}", err.map(|e| e.error));
    assert!(interp.registers.iter().all(|r| r.identifier != b"y".to_vec()));
}

#[test]
fn invoked_instruction_shares_caller_scope() {
    // a sub-instruction runs against the caller's scope, so a local it
    // creates is visible to the caller afterwards
    let (interp, err) = run("+x;\n$helper(){ mak \"y\" 3; }\n$$main(){ do helper; dis y; }");
    assert!(err.is_none(), "{:?}", err.map(|e| e.error));
    assert_eq!(output_str(&interp), "3");
}

#[test]
fn local_not_visible_in_fresh_top_level_scope() {
    // a variable of one top-level execution does not leak into another:
    // reading it without the creating call fails
    let (_, err) = run("+x;\n$helper(){ mak \"y\" 3; }\n$$main(){ dis y; }");
    let err = err.expect("an uncreated local must not resolve");
    assert!(matches!(err.error, IllError::NonExistentRegister(_, _)));
}

#[test]
fn gt_binds_true_sentinel() {
    let (interp, err) = run("+x;\n$$main(){ gt 5 3 \"r\"; dis r; }");
    assert!(err.is_none(), "{:?}", err.map(|e| e.error));
    // TRUE is the sentinel 0
    assert_eq!(output_str(&interp), "0");
}

#[test]
fn gt_binds_false_sentinel() {
    let (interp, err) = run("+x;\n$$main(){ gt 3 5 \"s\"; dis s; }");
    assert!(err.is_none());
    // FALSE is the sentinel 1
    assert_eq!(output_str(&interp), "1");
}

#[test]
fn comparison_family() {
    let (interp, err) = run("+x;\n$$main(){ lt 3 5 \"a\"; eq 4 4 \"b\"; gte 4 4 \"c\"; lte 5 4 \"d\"; dis a; dis b; dis c; dis d; }");
    assert!(err.is_none(), "{:?}", err.map(|e| e.error));
    assert_eq!(output_str(&interp), "0001");
}

#[test]
fn modulo_binds_remainder() {
    let (interp, err) = run("+x;\n$$main(){ mod 7 3 \"m\"; dis m; }");
    assert!(err.is_none());
    assert_eq!(output_str(&interp), "1");
}

#[test]
fn modulo_by_zero_fails() {
    let (_, err) = run("+x;\n$$main(){ mod 7 0 \"m\"; }");
    let err = err.expect("modulo by zero must fail");
    assert!(matches!(err.error, IllError::DivisionByZero(_)));
}

#[test]
fn add_accumulates() {
    let (interp, err) = run("+x;\n$$main(){ mov 2 x; add 3 x; dis x; }");
    assert!(err.is_none());
    assert_eq!(output_str(&interp), "5");
}

#[test]
fn neg_flips_sentinels() {
    let (interp, err) = run("+x;\n$$main(){ gt 1 2 \"r\"; neg r; dis r; neg r; dis r; }");
    assert!(err.is_none());
    assert_eq!(output_str(&interp), "01");
}

#[test]
fn del_removes_local() {
    let (_, err) = run("+x;\n$$main(){ mak \"y\" 1; del y; dis y; }");
    let err = err.expect("reading a deleted variable must fail");
    assert!(matches!(err.error, IllError::NonExistentRegister(_, _)));
}

#[test]
fn del_missing_local_fails() {
    let (_, err) = run("+x;\n$$main(){ del y; }");
    let err = err.unwrap();
    assert!(matches!(err.error, IllError::NonExistentRegister(_, _)));
}

#[test]
fn pt_and_ptl_print_literals() {
    let (interp, err) = run("+x;\n$$main(){ pt \"ab\"; ptl \"cd\"; pt \"e\"; }");
    assert!(err.is_none());
    assert_eq!(output_str(&interp), "abcd\ne");
}

#[test]
fn probable_operand_resolves_register() {
    let (interp, err) = run("+x;\n$$main(){ mov 4 x; mak \"y\" x; dis y; }");
    assert!(err.is_none(), "{:?}", err.map(|e| e.error));
    assert_eq!(output_str(&interp), "4");
}

#[test]
fn undeclared_container_fails_at_runtime() {
    let (_, err) = run("+x;\n$$main(){ mov 5 q; }");
    let err = err.expect("writing an undeclared container must fail");
    match err.error {
        IllError::NonExistentRegister(_, name) => assert_eq!(name, b"q".to_vec()),
        other => panic!("unexpected error {:?}", other),
    }
}

#[test]
fn undeclared_probable_name_fails_at_runtime() {
    let (_, err) = run("+x;\n$$main(){ mak \"y\" nope; }");
    let err = err.unwrap();
    assert!(matches!(err.error, IllError::NonExistentRegister(_, _)));
}

#[test]
fn unknown_instruction_reference_fails_at_parse() {
    let (_, err) = run("+x;\n$$main(){ do nothing; }");
    let err = err.expect("an unknown instruction reference must fail");
    match err.error {
        IllError::NonExistentInstruction(_, name) => assert_eq!(name, b"nothing".to_vec()),
        other => panic!("unexpected error {:?}", other),
    }
}

#[test]
fn unknown_opcode_fails() {
    let (_, err) = run("+x;\n$$main(){ zzz 1; }");
    let err = err.unwrap();
    match err.error {
        IllError::UnknownOpCode(_, name) => assert_eq!(name, b"zzz".to_vec()),
        other => panic!("unexpected error {:?}", other),
    }
}

#[test]
fn argument_count_mismatch_fails() {
    let (_, err) = run("+x;\n$$main(){ mov 5; }");
    let err = err.unwrap();
    match err.error {
        IllError::OpCodeArgumentMismatch(_, _, expected, got) => {
            assert_eq!(expected, 2);
            assert_eq!(got, 1);
        },
        other => panic!("unexpected error {:?}", other),
    }
}

#[test]
fn unescaped_string_literal_naming_container_fails() {
    let (_, err) = run("+x;\n$$main(){ mak x 1; }");
    let err = err.unwrap();
    assert!(matches!(err.error, IllError::UnescapedStringLiteralIsContainer(_, _)));
}

#[test]
fn string_literal_with_digit_fails() {
    let (_, err) = run("+x;\n$$main(){ mak \"y2\" 1; }");
    let err = err.unwrap();
    assert!(matches!(err.error, IllError::OpCodeInvalidArgument(_, _, _)));
}

#[test]
fn instruction_redefinition_fails() {
    let (_, err) = run("+x;\n$one(){ }\n$one(){ }");
    let err = err.unwrap();
    match err.error {
        IllError::InstructionRedefinition(_, name) => assert_eq!(name, b"one".to_vec()),
        other => panic!("unexpected error {:?}", other),
    }
}

#[test]
fn missing_body_opener_fails() {
    let (_, err) = run("+x;\n$one() }");
    let err = err.unwrap();
    assert!(matches!(err.error, IllError::UnexpectedCharacter(_, _, _)));
}

#[test]
fn if_takes_then_branch_on_true() {
    let (interp, err) = run("+x;\n$cond(){ mov 0 res; }\n$yes(){ pt \"Y\"; }\n$no(){ pt \"N\"; }\n$$main(){ if cond yes no; }");
    assert!(err.is_none(), "{:?}", err.map(|e| e.error));
    assert_eq!(output_str(&interp), "Y");
}

#[test]
fn if_takes_else_branch_on_false() {
    let (interp, err) = run("+x;\n$cond(){ mov 1 res; }\n$yes(){ pt \"Y\"; }\n$no(){ pt \"N\"; }\n$$main(){ if cond yes no; }");
    assert!(err.is_none(), "{:?}", err.map(|e| e.error));
    assert_eq!(output_str(&interp), "N");
}

#[test]
fn dor_binds_result() {
    let (interp, err) = run("+x;\n$five(){ mov 5 res; }\n$$main(){ dor five \"v\"; dis v; }");
    assert!(err.is_none(), "{:?}", err.map(|e| e.error));
    assert_eq!(output_str(&interp), "5");
}

#[test]
fn do_runs_for_side_effects() {
    let (interp, err) = run("+x;\n$bump(){ add 1 x; }\n$$main(){ mov 0 x; do bump; do bump; dis x; }");
    assert!(err.is_none(), "{:?}", err.map(|e| e.error));
    assert_eq!(output_str(&interp), "2");
}

#[test]
fn for_loop_counts_and_removes_variable() {
    // the counter runs from `from` through `through` inclusive; the
    // injected variable is gone afterwards
    let (interp, err) = run("+x;\n$body(){ dis i; }\n$$main(){ for \"i\" 1 3 1 body; }");
    assert!(err.is_none(), "{:?}", err.map(|e| e.error));
    assert_eq!(output_str(&interp), "123");
}

#[test]
fn for_loop_variable_removed_after() {
    let (_, err) = run("+x;\n$body(){ }\n$$main(){ for \"i\" 1 3 1 body; dis i; }");
    let err = err.expect("the loop variable must be removed after the loop");
    assert!(matches!(err.error, IllError::NonExistentRegister(_, _)));
}

#[test]
fn for_loop_downward() {
    // `from > through` counts down, again inclusive
    let (interp, err) = run("+x;\n$body(){ dis i; }\n$$main(){ for \"i\" 3 1 1 body; }");
    assert!(err.is_none(), "{:?}", err.map(|e| e.error));
    assert_eq!(output_str(&interp), "321");
}

#[test]
fn for_loop_with_step() {
    let (interp, err) = run("+x;\n$body(){ dis i; }\n$$main(){ for \"i\" 1 7 2 body; }");
    assert!(err.is_none(), "{:?}", err.map(|e| e.error));
    assert_eq!(output_str(&interp), "1357");
}

#[test]
fn long_loops_run_to_completion() {
    // the iteration budget is far above any reasonable loop length
    let (interp, err) =
        run("+x;\n$body(){ add 1 x; }\n$$main(){ for \"i\" 1 10000 1 body; dis x; }");
    assert!(err.is_none(), "{:?}", err.map(|e| e.error));
    assert_eq!(output_str(&interp), "10000");
}

#[test]
fn for_loop_body_shares_scope() {
    // the body may mutate the caller-injected counter through the shared scope
    let (interp, err) = run("+x;\n$body(){ add 1 i; }\n$$main(){ for \"i\" 1 4 1 body; pt \"done\"; }");
    assert!(err.is_none(), "{:?}", err.map(|e| e.error));
    assert_eq!(output_str(&interp), "done");
}

#[test]
fn endless_loop_hits_depth_bound() {
    // a zero step never advances the counter, so the loop would run forever
    let (_, err) = run("+x;\n$body(){ }\n$$main(){ for \"i\" 1 3 0 body; }");
    let err = err.expect("an endless loop must hit the evaluation bound");
    assert!(matches!(err.error, IllError::StackOverflow(_)));
}

#[test]
fn self_reference_fails_at_parse() {
    // an instruction cannot reference itself: it is not defined until its
    // body has been scanned
    let (_, err) = run("+x;\n$loopy(){ do loopy; }\n$$main(){ do loopy; }");
    let err = err.unwrap();
    assert!(matches!(err.error, IllError::NonExistentInstruction(_, _)));
}

#[test]
fn dor_rebinding_a_body_created_name_fails() {
    // the body shares the caller's scope; if it creates the binding name
    // itself, the bind afterwards is a redefinition
    let (_, err) = run("+x;\n$mk(){ mak \"v\" 1; }\n$$main(){ dor mk \"v\"; }");
    let err = err.expect("binding a name the body created must fail");
    assert!(matches!(err.error, IllError::RegisterRedefinition(_, _, _)));
}

#[test]
fn several_unmarked_instructions_have_no_main() {
    let (_, err) = run("+x;\n$a(){ }\n$b(){ }");
    let err = err.expect("several definitions with no doubled sigil leave no main");
    assert!(matches!(err.error, IllError::NoMainInstruction));
}

#[test]
fn comments_are_skipped() {
    let (interp, err) = run("+x;\n> nothing to see\n$$main(){ pt \"ok\"; }");
    assert!(err.is_none(), "{:?}", err.map(|e| e.error));
    assert_eq!(output_str(&interp), "ok");
}

#[test]
fn preamble_contributes_instructions() {
    let pre = file_of("pre.ill", "$greet(){ ptl \"hi\"; }");
    let main = file_of("main.ill", "+x;\n$$main(){ do greet; }");
    let mut interp = Interpreter::new(false, false, vec![main], vec![pre], default_opcodes());
    let err = interp.begin_parsing();
    assert!(err.is_none(), "{:?}", err.map(|e| e.error));
    assert_eq!(String::from_utf8(interp.output.clone()).unwrap(), "hi\n");
}

#[test]
fn preamble_contributes_registers() {
    // a register declared in a preamble file is usable by the main files
    let pre = file_of("pre.ill", "+p;\n");
    let main = file_of("main.ill", "+x;\n$$main(){ mov 3 p; dis p; }");
    let mut interp = Interpreter::new(false, false, vec![main], vec![pre], default_opcodes());
    let err = interp.begin_parsing();
    assert!(err.is_none(), "{:?}", err.map(|e| e.error));
    assert_eq!(String::from_utf8(interp.output.clone()).unwrap(), "3");
    assert!(interp.registers.iter().any(|r| r.identifier == b"p".to_vec()));
}

#[test]
fn preamble_duplicate_of_main_register_fails() {
    let pre = file_of("pre.ill", "+x;\n");
    let main = file_of("main.ill", "+x;\n$$main(){ }");
    let mut interp = Interpreter::new(false, false, vec![main], vec![pre], default_opcodes());
    let err = interp.begin_parsing().expect("the same name in preamble and main must fail");
    assert!(matches!(err.error, IllError::RegisterRedefinition(_, _, _)));
}

#[test]
fn comment_inside_body_is_skipped() {
    let (interp, err) =
        run("+x;\n$$main(){ pt \"a\";\n> a comment line\n pt \"b\"; }");
    assert!(err.is_none(), "{:?}", err.map(|e| e.error));
    assert_eq!(output_str(&interp), "ab");
}

#[test]
fn preamble_is_not_executed() {
    let pre = file_of("pre.ill", "$noisy(){ ptl \"should not print\"; }");
    let main = file_of("main.ill", "+x;\n$$main(){ pt \"only\"; }");
    let mut interp = Interpreter::new(false, false, vec![main], vec![pre], default_opcodes());
    let err = interp.begin_parsing();
    assert!(err.is_none());
    assert_eq!(String::from_utf8(interp.output.clone()).unwrap(), "only");
}

#[test]
fn negative_values_print_with_sign() {
    let (interp, err) = run("+x;\n$$main(){ mov -42 x; dis x; }");
    assert!(err.is_none(), "{:?}", err.map(|e| e.error));
    assert_eq!(output_str(&interp), "-42");
}

#[test]
fn error_portion_names_the_line() {
    let (_, err) = run("+x;\n$$main(){ zzz 1; }");
    let err = err.unwrap();
    let line = err.get_error_portion().expect("the error points at a line");
    assert_eq!(String::from_utf8(line).unwrap(), "$$main(){ zzz 1; }");
}

#[test]
fn error_name_and_description() {
    let (_, err) = run("+x;\n$$main(){ zzz 1; }");
    let err = err.unwrap();
    assert_eq!(err.error.name(), "Unknown OpCode");
    assert_eq!(err.error.get_actual_desc(), "An unknown OpCode was used.");
}

#[test]
fn enhanced_file_clones_by_content() {
    let f = file_of("a.ill", "+x;\n");
    let c = f.unsafe_clone();
    assert_eq!(c.filename, f.filename);
    assert_eq!(c.content, f.content);
    assert!(f.try_clone().is_some());
}

#[test]
fn default_instruction_scope_seeds_res() {
    let inst = ill::interpreter::Instruction::new_default();
    assert_eq!(inst.scope.len(), 1);
    assert_eq!(inst.scope[0].identifier, b"res".to_vec());
    assert_eq!(inst.scope[0].value, 0);
    assert!(inst.scope[0].is_variable);
    assert!(!inst.is_main);
}

#[test]
fn mak_cannot_rebind_res() {
    let (_, err) = run("+x;\n$$main(){ mak \"RES\" 1; }");
    let err = err.expect("the reserved name res is protected, ignoring case");
    assert!(matches!(err.error, IllError::RegisterRedefinition(_, _, _)));
}

#[test]
fn registers_are_declared_with_zero() {
    let (interp, err) = run("+a;b;\n$$main(){ }");
    assert!(err.is_none(), "{:?}", err.map(|e| e.error));
    assert_eq!(interp.registers.len(), 2);
    assert!(interp.registers.iter().all(|r| r.value == 0 && !r.is_variable));
}
