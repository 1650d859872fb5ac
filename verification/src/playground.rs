//! The state of a playground session: a template, the variables and arrays
//! to render it with, and what the last run showed.

use vstd::prelude::*;
use vstd::string::*;
use crate::diag::{diagnostic_text, semantic_report, syntax_diagnostic};
use crate::ir::dump::{dump_ir, ir_text};
use crate::ir::lower::{gen_ir, lower};
use crate::render::{
    compile, lemma_host_text_round_trip, render_error_view, rendering, RenderError,
};
use crate::syntax::lexer::lex;
use crate::syntax::parser::{ast, parse_spec};
use crate::text::{emit, lines, opens_block, split_lines, to_vec};
use crate::vm::env::{entries_map, Table};
use crate::vm::machine::{state_text, Vm};
use crate::vm::semantics::{execute, Env};

verus! {

/// The template of a new session.
pub const DEFAULT_CODE: &'static str = r#"<!DOCTYPE html>
<html>
  <head>
    <title>This is a hello page</title>
  </head>
  <body>
    <div>
        <p>
        {{
            # stirng formatting
            "\"Hello, $(name) $(sirname)\""
        }}
        <p>This page is generated using the pipa language</p>
        <ul>
          {{
            # macro
            @print_item "$(_index_): $(_item_)" | "\n\t\t\t<li>$(_)</li>"

            # arrays
            LIST[:] | ?print_item
          }}
        </ul>
    </div>
  </body>
</html>"#;

/// The label under which reports name the template.
pub const LABEL: &'static str = "index.pipa";

/// A playground session.
#[derive(Debug, PartialEq, Eq)]
pub struct App {
    /// The name and the value of the variable that is being entered.
    pub new_var: (Vec<u8>, Vec<u8>),
    /// The name and the elements, one on a line, of the array that is being
    /// entered.
    pub new_array: (Vec<u8>, Vec<u8>),
    /// The variables.
    pub vars: Table<Vec<u8>>,
    /// The arrays, each as text with one element on a line.
    pub arrays: Table<Vec<u8>>,
    /// The template.
    pub code: Vec<u8>,
    /// The state of the machine and the program of the last run that
    /// compiled.
    pub console: Vec<u8>,
    /// What the last run wrote, or the report of why it did not compile.
    pub output: Vec<u8>,
}

/// The arrays of a session as the machine gets them: each text split into
/// its lines.
pub open spec fn split_arrays(arrays: Seq<(Seq<u8>, Seq<u8>)>) -> Seq<(Seq<u8>, Seq<Seq<u8>>)> {
    Seq::new(arrays.len(), |i: int| (arrays[i].0, lines(arrays[i].1)))
}

/// The values that a session renders its template with.
pub open spec fn session_env(vars: Seq<(Seq<u8>, Seq<u8>)>, arrays: Seq<(Seq<u8>, Seq<u8>)>) -> Env {
    Env { variables: entries_map(vars), arrays: entries_map(split_arrays(arrays)) }
}

/// What a run shows as output: the report of the error for a template that
/// does not compile, else what the program wrote, up to its first error.
pub open spec fn shown_output(code: Seq<u8>, env: Env) -> Seq<u8> {
    match parse_spec(lex(code)) {
        Err(e) => diagnostic_text(LABEL.spec_bytes(), code, syntax_diagnostic(e)),
        Ok(tree) => match lower(code, tree) {
            Err(e) => semantic_report(LABEL.spec_bytes(), code, e),
            Ok(program) => execute(program, env).output,
        },
    }
}

/// What a run leaves in the console: for a template that compiles the dump
/// of the machine's state, an empty line and the listing of the program;
/// else what was there.
pub open spec fn shown_console(
    code: Seq<u8>,
    vars: Seq<(Seq<u8>, Seq<u8>)>,
    arrays: Seq<(Seq<u8>, Seq<u8>)>,
    console: Seq<u8>,
) -> Seq<u8> {
    match compile(code) {
        Err(e) => console,
        Ok(program) => state_text(vars, split_arrays(arrays)) + "\n".spec_bytes() + ir_text(program),
    }
}

/// A template that holds no `{{` is shown as it is: the output of a run is
/// the template itself, whatever the variables and arrays are.
pub proof fn lemma_plain_text_shown(code: Seq<u8>, env: Env)
    requires
        code.len() <= usize::MAX,
        forall|j: int| !opens_block(code, j),
    ensures
        shown_output(code, env) == code,
{
    lemma_host_text_round_trip(code, env);
}

fn copy_values(table: &Table<Vec<u8>>) -> (r: Vec<Vec<u8>>)
    ensures
        r@.len() == table.listing().len(),
        forall|i: int| 0 <= i < r@.len() ==> (#[trigger] r@[i]).deep_view() == table.listing()[i].1,
{
    let mut r: Vec<Vec<u8>> = Vec::new();
    let mut i: usize = 0;
    while i < table.len()
        invariant
            i <= table.listing().len(),
            r@.len() == i,
            forall|j: int| 0 <= j < i ==> (#[trigger] r@[j]).deep_view() == table.listing()[j].1,
        decreases table.listing().len() - i,
    {
        let value = to_vec(table.value_at(i).as_slice());
        assert(value.deep_view() =~= table.listing()[i as int].1);
        r.push(value);
        i += 1;
    }
    r
}

fn split_values(table: &Table<Vec<u8>>) -> (r: Vec<Vec<Vec<u8>>>)
    ensures
        r@.len() == table.listing().len(),
        forall|i: int|
            0 <= i < r@.len() ==> (#[trigger] r@[i]).deep_view() == lines(table.listing()[i].1),
{
    let mut r: Vec<Vec<Vec<u8>>> = Vec::new();
    let mut i: usize = 0;
    while i < table.len()
        invariant
            i <= table.listing().len(),
            r@.len() == i,
            forall|j: int|
                0 <= j < i ==> (#[trigger] r@[j]).deep_view() == lines(table.listing()[j].1),
        decreases table.listing().len() - i,
    {
        let text = table.value_at(i);
        assert(text@ =~= text.deep_view());
        r.push(split_lines(text.as_slice()));
        i += 1;
    }
    r
}

impl App {
    /// Both tables are in order.
    pub open spec fn wf(&self) -> bool {
        self.vars.wf() && self.arrays.wf()
    }

    /// Enters the variable in `new_var` among the variables, in place of one
    /// of the same name, and empties `new_var`.
    pub fn add_var(&mut self)
        requires
            old(self).wf(),
        ensures
            final(self).wf(),
            final(self).vars.map() == old(self).vars.map().insert(
                old(self).new_var.0@,
                old(self).new_var.1@,
            ),
            final(self).new_var.0@ == Seq::<u8>::empty(),
            final(self).new_var.1@ == Seq::<u8>::empty(),
            final(self).new_array == old(self).new_array,
            final(self).arrays == old(self).arrays,
            final(self).code == old(self).code,
            final(self).console == old(self).console,
            final(self).output == old(self).output,
    {
        let key = to_vec(self.new_var.0.as_slice());
        let value = to_vec(self.new_var.1.as_slice());
        assert(value.deep_view() =~= value@);
        self.new_var = (Vec::new(), Vec::new());
        self.vars.insert(key, value);
    }

    /// Enters the array in `new_array` among the arrays, in place of one of
    /// the same name, and empties `new_array`.
    pub fn add_array(&mut self)
        requires
            old(self).wf(),
        ensures
            final(self).wf(),
            final(self).arrays.map() == old(self).arrays.map().insert(
                old(self).new_array.0@,
                old(self).new_array.1@,
            ),
            final(self).new_array.0@ == Seq::<u8>::empty(),
            final(self).new_array.1@ == Seq::<u8>::empty(),
            final(self).new_var == old(self).new_var,
            final(self).vars == old(self).vars,
            final(self).code == old(self).code,
            final(self).console == old(self).console,
            final(self).output == old(self).output,
    {
        let key = to_vec(self.new_array.0.as_slice());
        let value = to_vec(self.new_array.1.as_slice());
        assert(value.deep_view() =~= value@);
        self.new_array = (Vec::new(), Vec::new());
        self.arrays.insert(key, value);
    }

    /// Removes the variable called `key`, if there is one.
    pub fn remove_var(&mut self, key: &[u8])
        requires
            old(self).wf(),
        ensures
            final(self).wf(),
            final(self).vars.map() == old(self).vars.map().remove(key@),
            final(self).arrays == old(self).arrays,
            final(self).new_var == old(self).new_var,
            final(self).new_array == old(self).new_array,
            final(self).code == old(self).code,
            final(self).console == old(self).console,
            final(self).output == old(self).output,
    {
        let _ = self.vars.remove(key);
    }

    /// Removes the array called `key`, if there is one.
    pub fn remove_array(&mut self, key: &[u8])
        requires
            old(self).wf(),
        ensures
            final(self).wf(),
            final(self).arrays.map() == old(self).arrays.map().remove(key@),
            final(self).vars == old(self).vars,
            final(self).new_var == old(self).new_var,
            final(self).new_array == old(self).new_array,
            final(self).code == old(self).code,
            final(self).console == old(self).console,
            final(self).output == old(self).output,
    {
        let _ = self.arrays.remove(key);
    }
}

impl Default for App {
    /// A session with the template `DEFAULT_CODE`, the variables `name` and
    /// `sirname`, and the array `LIST` of three elements.
    fn default() -> (r: App)
        ensures
            r.wf(),
            r.code@ == DEFAULT_CODE.spec_bytes(),
            r.vars.map() == Map::<Seq<u8>, Seq<u8>>::empty().insert(
                "name".spec_bytes(),
                "jon".spec_bytes(),
            ).insert("sirname".spec_bytes(), "doe".spec_bytes()),
            r.arrays.map() == Map::<Seq<u8>, Seq<u8>>::empty().insert(
                "LIST".spec_bytes(),
                "first\nsecond\nthird".spec_bytes(),
            ),
            r.new_var.0@.len() == 0 && r.new_var.1@.len() == 0,
            r.new_array.0@.len() == 0 && r.new_array.1@.len() == 0,
            r.console@.len() == 0,
            r.output@.len() == 0,
    {
        let mut vars: Table<Vec<u8>> = Table::new();
        let name = to_vec("name".as_bytes());
        let jon = to_vec("jon".as_bytes());
        assert(jon.deep_view() =~= jon@);
        vars.insert(name, jon);
        let sirname = to_vec("sirname".as_bytes());
        let doe = to_vec("doe".as_bytes());
        assert(doe.deep_view() =~= doe@);
        vars.insert(sirname, doe);
        let mut arrays: Table<Vec<u8>> = Table::new();
        let list = to_vec("LIST".as_bytes());
        let elements = to_vec("first\nsecond\nthird".as_bytes());
        assert(elements.deep_view() =~= elements@);
        arrays.insert(list, elements);
        App {
            new_var: (Vec::new(), Vec::new()),
            new_array: (Vec::new(), Vec::new()),
            vars,
            arrays,
            code: to_vec(DEFAULT_CODE.as_bytes()),
            console: Vec::new(),
            output: Vec::new(),
        }
    }
}

/// Runs the template of a session, which stays as it is. A template that
/// does not compile leaves the report of its error as the output, and the
/// console as it was. One that compiles is run against the variables and
/// arrays of the session: what it wrote, up to its first error, becomes the
/// output, and the console gets the state of the machine and the listing of
/// the program. The result is the error of the stage that failed.
pub fn run_vm(state: &mut App) -> (r: Result<(), RenderError>)
    requires
        old(state).wf(),
    ensures
        final(state).wf(),
        final(state).vars == old(state).vars,
        final(state).arrays == old(state).arrays,
        final(state).new_var == old(state).new_var,
        final(state).new_array == old(state).new_array,
        final(state).code == old(state).code,
        final(state).output@ == shown_output(
            old(state).code@,
            session_env(old(state).vars.listing(), old(state).arrays.listing()),
        ),
        final(state).console@ == shown_console(
            old(state).code@,
            old(state).vars.listing(),
            old(state).arrays.listing(),
            old(state).console@,
        ),
        render_error_view(r) == rendering(
            old(state).code@,
            session_env(old(state).vars.listing(), old(state).arrays.listing()),
        ).error,
{
    let mut output: Vec<u8> = Vec::new();
    let tree = match ast(state.code.as_slice()) {
        Ok(tree) => tree,
        Err(e) => {
            e.write_message(&mut output, LABEL, state.code.as_slice());
            assert(output@ =~= shown_output(
                state.code@,
                session_env(old(state).vars.listing(), old(state).arrays.listing()),
            ));
            state.output = output;
            return Err(RenderError::Syntax(e));
        },
    };
    let program = match gen_ir(state.code.as_slice(), tree) {
        Ok(program) => program,
        Err(e) => {
            e.write_message(&mut output, LABEL, state.code.as_slice());
            assert(output@ =~= shown_output(
                state.code@,
                session_env(old(state).vars.listing(), old(state).arrays.listing()),
            ));
            state.output = output;
            return Err(RenderError::Semantic(e));
        },
    };
    let vars = state.vars.with_values(copy_values(&state.vars));
    let arrays = state.arrays.with_values(split_values(&state.arrays));
    assert(vars.listing() =~= state.vars.listing());
    assert(arrays.listing() =~= split_arrays(state.arrays.listing()));
    let vm = Vm::new(vars, arrays);
    let result = vm.run(&mut output, &program);
    let mut console: Vec<u8> = Vec::new();
    vm.dump_state(&mut console);
    emit(&mut console, "\n".as_bytes());
    dump_ir(&mut console, &program);
    assert(console@ =~= state_text(vars.listing(), arrays.listing()) + "\n".spec_bytes() + ir_text(
        program@,
    ));
    assert(output@ =~= execute(program@, vm.env()).output);
    state.output = output;
    state.console = console;
    match result {
        Ok(()) => Ok(()),
        Err(e) => Err(RenderError::Runtime(e)),
    }
}

} // verus!
