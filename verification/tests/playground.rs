use pipa_playground::playground::{run_vm, App, DEFAULT_CODE, LABEL};
use pipa_playground::render::RenderError;
use pipa_playground::text::{bytes_less, expand_tabs, split_lines, to_decimal};
use pipa_playground::vm::env::Table;
use pipa_playground::vm::semantics::RuntimeError;

fn text(bytes: &[u8]) -> String {
    String::from_utf8(bytes.to_vec()).unwrap()
}

#[test]
fn default_session_holds_the_hello_page() {
    let app = App::default();
    assert_eq!(app.code, DEFAULT_CODE.as_bytes());
    assert_eq!(app.vars.len(), 2);
    assert_eq!(app.vars.get(b"name"), Some(&b"jon".to_vec()));
    assert_eq!(app.vars.get(b"sirname"), Some(&b"doe".to_vec()));
    assert_eq!(app.arrays.get(b"LIST"), Some(&b"first\nsecond\nthird".to_vec()));
    assert!(app.output.is_empty() && app.console.is_empty());
    assert_eq!(LABEL, "index.pipa");
}

#[test]
fn default_session_renders_the_hello_page() {
    let mut app = App::default();
    assert_eq!(run_vm(&mut app), Ok(()));
    let expected = "<!DOCTYPE html>\n<html>\n  <head>\n    <title>This is a hello page</title>\n  </head>\n  <body>\n    <div>\n        <p>\n        \"Hello, jon doe\"\n        <p>This page is generated using the pipa language</p>\n        <ul>\n          \\n\\t\\t\\t<li>0: first</li>\\n\\t\\t\\t<li>1: second</li>\\n\\t\\t\\t<li>2: third</li>\n        </ul>\n    </div>\n  </body>\n</html>";
    assert_eq!(text(&app.output), expected);
    let console = text(&app.console);
    assert!(console.starts_with(
        "variables:\n  name = jon\n  sirname = doe\narrays:\n  LIST = [first, second, third]\n\nmacros:\n  @print_item\n    pattern:\n      EmitVar _index_\n      EmitLiteral \": \"\n      EmitVar _item_\n    body:\n"
    ));
    assert!(console.ends_with(
        "  BeginArrayIter LIST\n    BeginMacroCall print_item\n    EndMacroCall\n  EndArrayIter\n  EmitLiteral \"\n        </ul>\n    </div>\n  </body>\n</html>\"\n"
    ));
}

#[test]
fn run_leaves_the_template_and_its_tabs() {
    let mut app = App::default();
    app.code = b"\ta\t{{\tname\t}}".to_vec();
    assert_eq!(run_vm(&mut app), Ok(()));
    assert_eq!(app.code, b"\ta\t{{\tname\t}}");
    assert_eq!(app.output, b"\ta\tjon");
}

#[test]
fn template_without_blocks_is_shown_unchanged() {
    for source in ["\t", "", "a\tb }} { c\r\n", "plain"] {
        let mut app = App::default();
        app.code = source.as_bytes().to_vec();
        assert_eq!(run_vm(&mut app), Ok(()));
        assert_eq!(app.output, source.as_bytes());
        assert_eq!(app.code, source.as_bytes());
    }
}

#[test]
fn syntax_error_becomes_the_output_and_leaves_the_console() {
    let mut app = App::default();
    app.code = b"{{ @m \"a\" }}".to_vec();
    app.console = b"old".to_vec();
    app.output = b"stale".to_vec();
    assert!(matches!(run_vm(&mut app), Err(RenderError::Syntax(_))));
    assert_eq!(
        text(&app.output),
        "error: expected `|`, found `}}`\n --> index.pipa:1:11\n{{ @m \"a\" }}\n          ^^\n"
    );
    assert_eq!(app.console, b"old");
}

#[test]
fn semantic_error_becomes_the_output_and_leaves_the_console() {
    let mut app = App::default();
    app.code = b"{{ LIST[:] | ?m }}".to_vec();
    app.console = b"old".to_vec();
    assert!(matches!(run_vm(&mut app), Err(RenderError::Semantic(_))));
    assert_eq!(
        text(&app.output),
        "error: unknown macro `m`\n --> index.pipa:1:14\n{{ LIST[:] | ?m }}\n             ^^\n"
    );
    assert_eq!(app.console, b"old");
}

#[test]
fn runtime_error_keeps_partial_output_and_fills_the_console() {
    let mut app = App::default();
    app.code = b"a {{ nobody }} b".to_vec();
    assert_eq!(
        run_vm(&mut app),
        Err(RenderError::Runtime(RuntimeError::UndefinedVariable { name: b"nobody".to_vec() }))
    );
    assert_eq!(app.output, b"a ");
    assert!(text(&app.console).ends_with("program:\n  EmitLiteral \"a \"\n  EmitVar nobody\n  EmitLiteral \" b\"\n"));
}

#[test]
fn output_and_console_stay_utf8() {
    let mut app = App::default();
    app.new_var = ("n\u{e4}me".as_bytes().to_vec(), "v\u{e4}lue".as_bytes().to_vec());
    app.add_var();
    app.new_array = ("L".as_bytes().to_vec(), "\u{3b1}\r\n\u{3b2}".as_bytes().to_vec());
    app.add_array();
    app.code = "\u{2192}{{ @m \"$(_item_)\" | \"\u{ab}$(_)\u{bb}\"\nL[:] | ?m }}".as_bytes().to_vec();
    assert_eq!(run_vm(&mut app), Ok(()));
    assert_eq!(String::from_utf8(app.output.clone()).unwrap(), "\u{2192}\u{ab}\u{3b1}\u{bb}\u{ab}\u{3b2}\u{bb}");
    let console = String::from_utf8(app.console.clone()).unwrap();
    assert!(console.contains("  n\u{e4}me = v\u{e4}lue\n"));
    assert!(console.contains("  L = [\u{3b1}, \u{3b2}]\n"));
    app.code = "a\u{e9}\n{{ \u{e9} }}".as_bytes().to_vec();
    assert!(matches!(run_vm(&mut app), Err(RenderError::Syntax(_))));
    assert_eq!(
        String::from_utf8(app.output.clone()).unwrap(),
        "error: expected a statement, found an unknown character\n --> index.pipa:2:4\n{{ \u{e9} }}\n   ^\n"
    );
}

#[test]
fn arrays_are_split_into_lines() {
    let mut app = App::default();
    app.new_array = (b"L".to_vec(), b"x\r\ny\n\nz\n".to_vec());
    app.add_array();
    assert_eq!(app.new_array, (Vec::new(), Vec::new()));
    app.code = b"{{ @m \"$(_item_)\" | \"[$(_)]\"\nL[:] | ?m }}".to_vec();
    assert_eq!(run_vm(&mut app), Ok(()));
    assert_eq!(app.output, b"[x][y][][z]");
}

#[test]
fn variables_can_be_added_replaced_and_removed() {
    let mut app = App::default();
    app.new_var = (b"name".to_vec(), b"ann".to_vec());
    app.add_var();
    assert_eq!(app.new_var, (Vec::new(), Vec::new()));
    assert_eq!(app.vars.len(), 2);
    app.new_var = (b"age".to_vec(), b"7".to_vec());
    app.add_var();
    app.remove_var(b"sirname");
    app.remove_var(b"nobody");
    app.code = b"{{ \"$(name) $(age)\" }}".to_vec();
    assert_eq!(run_vm(&mut app), Ok(()));
    assert_eq!(app.output, b"ann 7");
    app.code = b"{{ sirname }}".to_vec();
    assert!(run_vm(&mut app).is_err());
    app.remove_array(b"LIST");
    assert_eq!(app.arrays.len(), 0);
}

#[test]
fn table_keeps_names_in_dictionary_order() {
    let mut t: Table<Vec<u8>> = Table::new();
    for name in ["b", "ab", "", "a", "B", "abc", "b"] {
        t.insert(name.as_bytes().to_vec(), name.to_uppercase().into_bytes());
    }
    let names: Vec<String> = (0..t.len()).map(|i| text(t.name_at(i))).collect();
    assert_eq!(names, vec!["", "B", "a", "ab", "abc", "b"]);
    assert_eq!(t.value_at(3), &b"AB".to_vec());
    assert_eq!(t.get(b"abc"), Some(&b"ABC".to_vec()));
    assert_eq!(t.get(b"c"), None);
    assert_eq!(t.remove(b"a"), Some(b"A".to_vec()));
    assert_eq!(t.remove(b"a"), None);
    assert_eq!(t.len(), 5);
    t.insert(b"ab".to_vec(), b"new".to_vec());
    assert_eq!(t.get(b"ab"), Some(&b"new".to_vec()));
    assert_eq!(t.len(), 5);
}

#[test]
fn table_with_values_keeps_the_names() {
    let mut t: Table<Vec<u8>> = Table::new();
    t.insert(b"b".to_vec(), b"2".to_vec());
    t.insert(b"a".to_vec(), b"1".to_vec());
    let lengths: Table<Vec<Vec<u8>>> = t.with_values(vec![vec![b"x".to_vec()], vec![]]);
    assert_eq!(lengths.len(), 2);
    assert_eq!(lengths.name_at(0), &b"a".to_vec());
    assert_eq!(lengths.value_at(0), &vec![b"x".to_vec()]);
    assert_eq!(lengths.name_at(1), &b"b".to_vec());
    assert_eq!(lengths.value_at(1), &Vec::<Vec<u8>>::new());
}

#[test]
fn dictionary_order_of_bytes() {
    assert!(bytes_less(b"", b"a"));
    assert!(bytes_less(b"a", b"ab"));
    assert!(bytes_less(b"ab", b"b"));
    assert!(bytes_less(b"B", b"a"));
    assert!(!bytes_less(b"a", b"a"));
    assert!(!bytes_less(b"b", b"ab"));
    assert!(!bytes_less(b"", b""));
}

#[test]
fn decimal_digits() {
    assert_eq!(to_decimal(0), b"0");
    assert_eq!(to_decimal(7), b"7");
    assert_eq!(to_decimal(10), b"10");
    assert_eq!(to_decimal(12345), b"12345");
    assert_eq!(to_decimal(u128::MAX), b"340282366920938463463374607431768211455");
}

#[test]
fn tabs_become_four_spaces() {
    assert_eq!(expand_tabs(b""), b"");
    assert_eq!(expand_tabs(b"a\tb\t"), b"a    b    ");
    assert_eq!(expand_tabs(b"no tabs\n"), b"no tabs\n");
}

#[test]
fn lines_split_as_text_lines_do() {
    for s in ["", "a", "a\n", "a\nb", "a\n\nb\n", "\n", "\n\n", "a\r\nb\r", "\r\n", "a\rb\n", "x\r\n\r\ny"] {
        let expected: Vec<Vec<u8>> = s.lines().map(|l| l.as_bytes().to_vec()).collect();
        assert_eq!(split_lines(s.as_bytes()), expected, "{:?}", s);
    }
    assert_eq!(split_lines(b"first\nsecond\nthird"), vec![b"first".to_vec(), b"second".to_vec(), b"third".to_vec()]);
}
