use pipa_playground::ir::gen_ir;
use pipa_playground::ir::instr::{Instr, IrProgram, Macro};
use pipa_playground::render::{compile_template, render, RenderError};
use pipa_playground::syntax::ast;
use pipa_playground::syntax::token::Span;
use pipa_playground::vm::env::Table;
use pipa_playground::vm::semantics::RuntimeError;
use pipa_playground::vm::Vm;

fn machine(vars: &[(&str, &str)], arrays: &[(&str, &[&str])]) -> Vm {
    let mut v: Table<Vec<u8>> = Table::new();
    for (k, x) in vars {
        v.insert(k.as_bytes().to_vec(), x.as_bytes().to_vec());
    }
    let mut a: Table<Vec<Vec<u8>>> = Table::new();
    for (k, items) in arrays {
        a.insert(k.as_bytes().to_vec(), items.iter().map(|i| i.as_bytes().to_vec()).collect());
    }
    Vm::new(v, a)
}

fn run(source: &str, vm: &Vm) -> (String, Result<(), RenderError>) {
    let mut sink = Vec::new();
    let r = render(source.as_bytes(), vm, &mut sink);
    (String::from_utf8(sink).unwrap(), r)
}

#[test]
fn host_text_round_trips() {
    let vm = machine(&[], &[]);
    for source in ["", "plain", "<p>\n  {x} }} $(y) \"q\" # @m ?m\n</p>\t\r\n", "a { b"] {
        assert_eq!(run(source, &vm), (source.to_string(), Ok(())));
    }
}

#[test]
fn interpolation_substitutes_the_variable() {
    let vm = machine(&[("name", "jon")], &[]);
    assert_eq!(run("{{ \"$(name)\" }}", &vm), ("jon".to_string(), Ok(())));
    assert_eq!(run("{{ name }}", &vm), ("jon".to_string(), Ok(())));
    assert_eq!(run("<{{ \"Hi, $(name)!\" }}>", &vm), ("<Hi, jon!>".to_string(), Ok(())));
}

#[test]
fn undefined_variable_ends_the_run() {
    let vm = machine(&[("name", "jon")], &[]);
    assert_eq!(
        run("{{ \"$(x)\" }}", &vm),
        (
            String::new(),
            Err(RenderError::Runtime(RuntimeError::UndefinedVariable { name: b"x".to_vec() }))
        )
    );
}

#[test]
fn macro_is_applied_to_each_element_in_order() {
    let vm = machine(&[], &[("LIST", &["a", "b"])]);
    let source = "{{\n@greet \"$(_item_)\" | \"Hi $(_)!\n\"\nLIST[:] | ?greet\n}}";
    assert_eq!(run(source, &vm), ("Hi a!\nHi b!\n".to_string(), Ok(())));
}

#[test]
fn index_counts_from_zero() {
    let vm = machine(&[], &[("LIST", &["a", "b"])]);
    let source = "{{ @m \"$(_index_)=$(_item_)\" | \"[$(_)]\"\nLIST[:] | ?m }}";
    assert_eq!(run(source, &vm), ("[0=a][1=b]".to_string(), Ok(())));
}

#[test]
fn index_is_written_in_decimal() {
    let items: Vec<&str> = (0..12).map(|_| "x").collect();
    let vm = machine(&[], &[("L", &items)]);
    let source = "{{ @m \"$(_index_)\" | \"$(_),\"\nL[:] | ?m }}";
    assert_eq!(run(source, &vm).0, "0,1,2,3,4,5,6,7,8,9,10,11,");
}

#[test]
fn body_sees_iteration_bindings_and_variables() {
    let vm = machine(&[("sep", "-")], &[("L", &["a", "b"])]);
    let source = "{{ @m \"$(_item_)\" | \"$(_index_)$(sep)$(_item_)$(sep)$(_) \"\nL[:] | ?m }}";
    assert_eq!(run(source, &vm), ("0-a-a 1-b-b ".to_string(), Ok(())));
}

#[test]
fn iteration_bindings_shadow_variables_only_inside() {
    let vm = machine(&[("_item_", "outer"), ("_", "under")], &[("L", &["a"])]);
    let source = "{{ _item_\n@m \"$(_item_)\" | \"<$(_)>\"\nL[:] | ?m\n_item_ _ }}";
    assert_eq!(run(source, &vm), ("outer<a>outerunder".to_string(), Ok(())));
}

#[test]
fn pattern_does_not_see_the_result_binding() {
    let vm = machine(&[], &[("L", &["a"])]);
    let source = "{{ @m \"$(_)\" | \"x\"\nL[:] | ?m }}";
    assert_eq!(
        run(source, &vm),
        (
            String::new(),
            Err(RenderError::Runtime(RuntimeError::UndefinedVariable { name: b"_".to_vec() }))
        )
    );
}

#[test]
fn empty_array_runs_the_body_no_time() {
    let vm = machine(&[], &[("L", &[])]);
    let source = "a{{ @m \"$(nobody)\" | \"x\"\nL[:] | ?m }}b";
    assert_eq!(run(source, &vm), ("ab".to_string(), Ok(())));
}

#[test]
fn undefined_array_ends_the_run() {
    let vm = machine(&[], &[("L", &["a"])]);
    assert_eq!(
        run("a{{ M[:] }}b", &vm),
        (
            "a".to_string(),
            Err(RenderError::Runtime(RuntimeError::UndefinedArray { name: b"M".to_vec() }))
        )
    );
}

#[test]
fn variables_are_no_arrays() {
    let vm = machine(&[("L", "x")], &[]);
    assert!(matches!(
        run("{{ L[:] }}", &vm).1,
        Err(RenderError::Runtime(RuntimeError::UndefinedArray { .. }))
    ));
}

#[test]
fn run_fails_fast_and_keeps_what_was_written() {
    let vm = machine(&[], &[]);
    assert_eq!(
        run("before {{ x }} after", &vm),
        (
            "before ".to_string(),
            Err(RenderError::Runtime(RuntimeError::UndefinedVariable { name: b"x".to_vec() }))
        )
    );
    assert_eq!(
        run("{{ \"one $(x) two\" }}", &vm),
        (
            "one ".to_string(),
            Err(RenderError::Runtime(RuntimeError::UndefinedVariable { name: b"x".to_vec() }))
        )
    );
}

#[test]
fn error_in_the_second_element_keeps_the_first() {
    let vm = machine(&[], &[("L", &["a", "b"])]);
    let source = "{{ @m \"$(_item_)\" | \"$(_)$(nobody)\"\nL[:] | ?m }}";
    assert_eq!(run(source, &vm).0, "a");
}

#[test]
fn errors_of_earlier_stages_write_nothing() {
    let vm = machine(&[], &[]);
    let (out, r) = run("text {{ ! }}", &vm);
    assert_eq!(out, "");
    assert!(matches!(r, Err(RenderError::Syntax(_))));
    let (out, r) = run("text {{ L[:] | ?m }}", &vm);
    assert_eq!(out, "");
    assert!(matches!(r, Err(RenderError::Semantic(_))));
}

#[test]
fn run_appends_to_the_sink() {
    let vm = machine(&[("a", "1")], &[]);
    let program = compile_template(b"{{ a }}").unwrap();
    let mut sink = b">".to_vec();
    assert_eq!(vm.run(&mut sink, &program), Ok(()));
    assert_eq!(vm.run(&mut sink, &program), Ok(()));
    assert_eq!(sink, b">11");
}

#[test]
fn rendering_twice_gives_the_same_bytes() {
    let vm = machine(&[("n", "v")], &[("L", &["a", "b", "c"])]);
    let source = "{{ @m \"$(_index_):$(_item_)\" | \"<$(_)$(n)>\"\nL[:] | ?m }}";
    assert_eq!(run(source, &vm), run(source, &vm));
    assert_eq!(run(source, &vm).0, "<0:av><1:bv><2:cv>");
}

#[test]
fn nested_brackets_run_inner_for_each_outer() {
    let vm = machine(&[], &[("A", &["1", "2"]), ("B", &["x", "y"])]);
    let pair = Macro {
        name: b"pair".to_vec(),
        pattern: vec![Instr::EmitVar { name: b"_item_".to_vec() }],
        body: vec![
            Instr::EmitVar { name: b"_index_".to_vec() },
            Instr::EmitVar { name: b"_".to_vec() },
        ],
        span: Span { start: 0, end: 0, line: 0, column: 0 },
    };
    let program = IrProgram {
        instrs: vec![
            Instr::BeginArrayIter { array: b"A".to_vec() },
            Instr::EmitVar { name: b"_item_".to_vec() },
            Instr::BeginArrayIter { array: b"B".to_vec() },
            Instr::BeginMacroCall { name: b"pair".to_vec(), index: 0 },
            Instr::EndMacroCall,
            Instr::EndArrayIter,
            Instr::EmitLiteral { text: b";".to_vec() },
            Instr::EndArrayIter,
            Instr::EmitLiteral { text: b".".to_vec() },
        ],
        macros: vec![pair],
    };
    let mut sink = Vec::new();
    assert_eq!(vm.run(&mut sink, &program), Ok(()));
    assert_eq!(sink, b"10x1y;20x1y;.");
}

#[test]
fn bracket_left_open_runs_to_the_end() {
    let vm = machine(&[], &[("A", &["1", "2"])]);
    let program = IrProgram {
        instrs: vec![
            Instr::EmitLiteral { text: b"<".to_vec() },
            Instr::BeginArrayIter { array: b"A".to_vec() },
            Instr::EmitVar { name: b"_item_".to_vec() },
        ],
        macros: vec![],
    };
    let mut sink = Vec::new();
    assert_eq!(vm.run(&mut sink, &program), Ok(()));
    assert_eq!(sink, b"<12");
}

#[test]
fn what_follows_a_failure_is_not_run() {
    let vm = machine(&[("a", "1")], &[("L", &["x", "y"])]);
    let failing = compile_template(b"{{ a }}-{{ L[:] }}{{ nobody }}").unwrap();
    let mut longer = compile_template(b"{{ a }}-{{ L[:] }}{{ nobody }}").unwrap();
    longer.instrs.push(Instr::EmitLiteral { text: b"more".to_vec() });
    longer.instrs.push(Instr::BeginArrayIter { array: b"M".to_vec() });
    let mut one = Vec::new();
    let mut two = Vec::new();
    let first = vm.run(&mut one, &failing);
    let second = vm.run(&mut two, &longer);
    assert_eq!(first, Err(RuntimeError::UndefinedVariable { name: b"nobody".to_vec() }));
    assert_eq!(first, second);
    assert_eq!(one, b"1-");
    assert_eq!(one, two);
}

#[test]
fn what_follows_a_failing_read_inside_a_bracket_is_not_run() {
    let vm = machine(&[], &[("L", &["x", "y"])]);
    let lit = |t: &str| Instr::EmitLiteral { text: t.as_bytes().to_vec() };
    let program = IrProgram {
        instrs: vec![
            lit("w1"),
            Instr::BeginArrayIter { array: b"L".to_vec() },
            lit("w2"),
            Instr::EmitVar { name: b"nobody".to_vec() },
            lit("w3"),
            Instr::EndArrayIter,
            lit("w4"),
        ],
        macros: vec![],
    };
    let mut sink = Vec::new();
    assert_eq!(
        vm.run(&mut sink, &program),
        Err(RuntimeError::UndefinedVariable { name: b"nobody".to_vec() })
    );
    assert_eq!(sink, b"w1w2");
    let vm = machine(&[], &[("L", &["x", "y"])]);
    let mut sink = Vec::new();
    let source = "w1{{ @m \"$(_item_)\" | \"<$(_)$(nobody)>\"\nL[:] | ?m }}w4";
    assert!(render(source.as_bytes(), &vm, &mut sink).is_err());
    assert_eq!(sink, b"w1<x");
}

#[test]
fn rendering_keeps_utf8() {
    let vm = machine(&[("name", "Zo\u{eb}")], &[("L", &["\u{3b1}", "\u{3b2}\u{3b3}"])]);
    let source = "h\u{e9}llo\u{2192}{{ @m \"\u{ab}$(_item_)\u{bb}\" | \"\u{b7}$(_)\u{b7}$(name)\"\nL[:] | ?m }}\u{2713}";
    let mut sink = Vec::new();
    assert_eq!(render(source.as_bytes(), &vm, &mut sink), Ok(()));
    assert_eq!(
        String::from_utf8(sink).unwrap(),
        "h\u{e9}llo\u{2192}\u{b7}\u{ab}\u{3b1}\u{bb}\u{b7}Zo\u{eb}\u{b7}\u{ab}\u{3b2}\u{3b3}\u{bb}\u{b7}Zo\u{eb}\u{2713}"
    );
    let mut sink = Vec::new();
    assert!(render("\u{e9}{{ \"\u{e9}$(nobody)\u{e9}\" }}".as_bytes(), &vm, &mut sink).is_err());
    assert_eq!(String::from_utf8(sink).unwrap(), "\u{e9}\u{e9}");
}

#[test]
fn escapes_other_than_the_quote_pass_through() {
    let vm = machine(&[], &[("LIST", &["a", "b"])]);
    let source = "{{\n@greet \"$(_item_)\" | \"Hi \\\"$(_)\\\"!\\n\"\nLIST[:] | ?greet\n}}";
    assert_eq!(run(source, &vm), ("Hi \"a\"!\\nHi \"b\"!\\n".to_string(), Ok(())));
}

#[test]
fn dump_state_lists_names_in_dictionary_order() {
    let vm = machine(&[("sirname", "doe"), ("name", "jon")], &[("LIST", &["a", "b"]), ("A", &[])]);
    let mut sink = Vec::new();
    vm.dump_state(&mut sink);
    assert_eq!(
        String::from_utf8(sink).unwrap(),
        "variables:\n  name = jon\n  sirname = doe\narrays:\n  A = []\n  LIST = [a, b]\n"
    );
}

#[test]
fn dump_state_does_not_depend_on_insertion_order() {
    let first = machine(&[("b", "2"), ("a", "1"), ("c", "3")], &[("Y", &["y"]), ("X", &["x"])]);
    let second = machine(&[("c", "0"), ("a", "1"), ("c", "3"), ("b", "2")], &[("X", &["x"]), ("Y", &["y"])]);
    let mut one = Vec::new();
    let mut two = Vec::new();
    first.dump_state(&mut one);
    second.dump_state(&mut two);
    assert_eq!(one, two);
    assert_eq!(
        String::from_utf8(one).unwrap(),
        "variables:\n  a = 1\n  b = 2\n  c = 3\narrays:\n  X = [x]\n  Y = [y]\n"
    );
}

#[test]
fn dump_state_of_an_empty_machine() {
    let vm = machine(&[], &[]);
    let mut sink = b"x".to_vec();
    vm.dump_state(&mut sink);
    assert_eq!(sink, b"xvariables:\narrays:\n");
}

#[test]
fn gen_ir_and_run_by_hand() {
    let source = b"{{ \"$(a)$(b)\" }}";
    let program = gen_ir(source, ast(source).unwrap()).unwrap();
    let vm = machine(&[("a", "x"), ("b", "y")], &[]);
    let mut sink = Vec::new();
    assert_eq!(vm.run(&mut sink, &program), Ok(()));
    assert_eq!(sink, b"xy");
}
