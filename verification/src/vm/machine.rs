//! The machine that runs programs.

use vstd::prelude::*;
use vstd::string::*;
use crate::ir::instr::{instrs_view, resolved, Instr, IrProgram, Macro};
use crate::text::{bytes_eq, emit, to_decimal, to_vec};
use crate::vm::env::Table;
use crate::ir::bracket::iter_end;
use crate::vm::semantics::{
    after, apply, bound, bound_below, call, error_view, execute, fragment, iteration_scope,
    resolve, run_items, run_range, step, then, Env, Outcome, RuntimeError,
};

verus! {

/// The mathematical value of a scope: its bindings, the innermost last.
pub open spec fn scope_view(scope: Seq<(Vec<u8>, Vec<u8>)>) -> Seq<(Seq<u8>, Seq<u8>)> {
    Seq::new(scope.len(), |i: int| (scope[i].0@, scope[i].1@))
}

fn copy_scope(scope: &Vec<(Vec<u8>, Vec<u8>)>) -> (r: Vec<(Vec<u8>, Vec<u8>)>)
    ensures
        scope_view(r@) == scope_view(scope@),
{
    let mut r: Vec<(Vec<u8>, Vec<u8>)> = Vec::new();
    let mut i: usize = 0;
    while i < scope.len()
        invariant
            i <= scope@.len(),
            r@.len() == i,
            forall|j: int| 0 <= j < i ==> r@[j].0@ == scope@[j].0@ && r@[j].1@ == scope@[j].1@,
        decreases scope@.len() - i,
    {
        r.push((to_vec(scope[i].0.as_slice()), to_vec(scope[i].1.as_slice())));
        i += 1;
    }
    assert(scope_view(r@) =~= scope_view(scope@));
    r
}

fn bind(scope: &mut Vec<(Vec<u8>, Vec<u8>)>, name: &str, value: Vec<u8>)
    ensures
        scope_view(final(scope)@) == scope_view(old(scope)@).push((name.spec_bytes(), value@)),
{
    let ghost before = scope@;
    let entry = (to_vec(name.as_bytes()), value);
    scope.push(entry);
    assert(scope_view(scope@) =~= scope_view(before).push((name.spec_bytes(), entry.1@)));
}

fn lookup<'a>(scope: &'a Vec<(Vec<u8>, Vec<u8>)>, name: &[u8]) -> (r: Option<&'a Vec<u8>>)
    ensures
        match r {
            Some(value) => bound(scope_view(scope@), name@) == Some(value@),
            None => bound(scope_view(scope@), name@) == None::<Seq<u8>>,
        },
{
    let mut i: usize = scope.len();
    while i > 0
        invariant
            i <= scope@.len(),
            bound(scope_view(scope@), name@) == bound_below(scope_view(scope@), name@, i as int),
        decreases i,
    {
        if bytes_eq(scope[i - 1].0.as_slice(), name) {
            return Some(&scope[i - 1].1);
        }
        i -= 1;
    }
    None
}

fn find_end(instrs: &Vec<Instr>, pos: usize, hi: usize) -> (end: usize)
    requires
        pos <= hi <= instrs@.len(),
    ensures
        end == iter_end(instrs_view(instrs@), pos as int, hi as int, 0),
        pos <= end <= hi,
{
    let mut i: usize = pos;
    let mut depth: usize = 0;
    while i < hi
        invariant
            pos <= i <= hi <= instrs@.len(),
            depth <= i - pos,
            iter_end(instrs_view(instrs@), pos as int, hi as int, 0) == iter_end(
                instrs_view(instrs@),
                i as int,
                hi as int,
                depth as nat,
            ),
        decreases hi - i,
    {
        assert(instrs_view(instrs@)[i as int] == instrs@[i as int]@);
        match &instrs[i] {
            Instr::BeginArrayIter { array } => {
                depth += 1;
            },
            Instr::EndArrayIter => {
                if depth == 0 {
                    return i;
                }
                depth -= 1;
            },
            _ => {},
        }
        i += 1;
    }
    hi
}

/// The elements `items[k..]` of an array as a dump shows them, with `, `
/// between them.
pub open spec fn items_text(items: Seq<Seq<u8>>, k: int) -> Seq<u8>
    decreases items.len() - k,
{
    if k < 0 || k >= items.len() {
        Seq::empty()
    } else if k == 0 {
        items[k] + items_text(items, k + 1)
    } else {
        ", ".spec_bytes() + items[k] + items_text(items, k + 1)
    }
}

/// The variables `listing[i..]` as a dump shows them, one on a line.
pub open spec fn variables_text(listing: Seq<(Seq<u8>, Seq<u8>)>, i: int) -> Seq<u8>
    decreases listing.len() - i,
{
    if i < 0 || i >= listing.len() {
        Seq::empty()
    } else {
        "  ".spec_bytes() + listing[i].0 + " = ".spec_bytes() + listing[i].1 + "\n".spec_bytes()
            + variables_text(listing, i + 1)
    }
}

/// The arrays `listing[i..]` as a dump shows them, one on a line.
pub open spec fn arrays_text(listing: Seq<(Seq<u8>, Seq<Seq<u8>>)>, i: int) -> Seq<u8>
    decreases listing.len() - i,
{
    if i < 0 || i >= listing.len() {
        Seq::empty()
    } else {
        "  ".spec_bytes() + listing[i].0 + " = [".spec_bytes() + items_text(listing[i].1, 0)
            + "]\n".spec_bytes() + arrays_text(listing, i + 1)
    }
}

/// The dump of a machine's state: the variables, then the arrays, each in
/// the order of the listing.
pub open spec fn state_text(
    variables: Seq<(Seq<u8>, Seq<u8>)>,
    arrays: Seq<(Seq<u8>, Seq<Seq<u8>>)>,
) -> Seq<u8> {
    "variables:\n".spec_bytes() + variables_text(variables, 0) + "arrays:\n".spec_bytes()
        + arrays_text(arrays, 0)
}

fn write_items(sink: &mut Vec<u8>, items: &Vec<Vec<u8>>)
    ensures
        final(sink)@ == old(sink)@ + items_text(items.deep_view(), 0),
{
    let ghost elements = items.deep_view();
    let ghost mut written: Seq<u8> = Seq::empty();
    let mut k: usize = 0;
    assert(sink@ =~= old(sink)@ + written);
    while k < items.len()
        invariant
            k <= items@.len(),
            elements == items.deep_view(),
            sink@ == old(sink)@ + written,
            items_text(elements, 0) == written + items_text(elements, k as int),
        decreases items@.len() - k,
    {
        let ghost before = sink@;
        if k > 0 {
            emit(sink, ", ".as_bytes());
        }
        emit(sink, items[k].as_slice());
        proof {
            assert(items@[k as int]@ =~= elements[k as int]);
            let one = if k == 0 {
                elements[k as int]
            } else {
                ", ".spec_bytes() + elements[k as int]
            };
            let rest = items_text(elements, k + 1);
            assert(sink@ =~= before + one);
            assert(items_text(elements, k as int) =~= one + rest);
            assert(written + (one + rest) =~= (written + one) + rest);
            assert(sink@ =~= old(sink)@ + (written + one));
            written = written + one;
        }
        k += 1;
    }
    assert(written + Seq::<u8>::empty() =~= written);
}

/// A virtual machine: the variables and arrays that programs run against.
/// Running a program changes neither.
pub struct Vm {
    variables: Table<Vec<u8>>,
    arrays: Table<Vec<Vec<u8>>>,
}

impl Vm {
    /// The variables, by name.
    pub closed spec fn variables(&self) -> Map<Seq<u8>, Seq<u8>> {
        self.variables.map()
    }

    /// The arrays, by name.
    pub closed spec fn arrays(&self) -> Map<Seq<u8>, Seq<Seq<u8>>> {
        self.arrays.map()
    }

    /// The variables in dictionary order of their names.
    pub closed spec fn variable_listing(&self) -> Seq<(Seq<u8>, Seq<u8>)> {
        self.variables.listing()
    }

    /// The arrays in dictionary order of their names.
    pub closed spec fn array_listing(&self) -> Seq<(Seq<u8>, Seq<Seq<u8>>)> {
        self.arrays.listing()
    }

    /// The values that programs run against.
    pub open spec fn env(&self) -> Env {
        Env { variables: self.variables(), arrays: self.arrays() }
    }

    /// Both tables are in order.
    pub closed spec fn wf(&self) -> bool {
        self.variables.wf() && self.arrays.wf()
    }

    /// A machine with the given variables and arrays.
    pub fn new(variables: Table<Vec<u8>>, arrays: Table<Vec<Vec<u8>>>) -> (vm: Vm)
        requires
            variables.wf(),
            arrays.wf(),
        ensures
            vm.wf(),
            vm.variables() == variables.map(),
            vm.arrays() == arrays.map(),
            vm.variable_listing() == variables.listing(),
            vm.array_listing() == arrays.listing(),
    {
        Vm { variables, arrays }
    }

    fn resolve_exec<'a>(&'a self, scope: &'a Vec<(Vec<u8>, Vec<u8>)>, name: &[u8]) -> (r: Option<
        &'a Vec<u8>,
    >)
        requires
            self.wf(),
        ensures
            match r {
                Some(value) => resolve(self.env(), scope_view(scope@), name@) == Some(value@),
                None => resolve(self.env(), scope_view(scope@), name@) == None::<Seq<u8>>,
            },
    {
        match lookup(scope, name) {
            Some(value) => Some(value),
            None => match self.variables.get(name) {
                Some(value) => {
                    assert(value@ =~= value.deep_view());
                    Some(value)
                },
                None => None,
            },
        }
    }

    fn exec_step(&self, sink: &mut Vec<u8>, scope: &Vec<(Vec<u8>, Vec<u8>)>, instr: &Instr) -> (r: Result<
        (),
        RuntimeError,
    >)
        requires
            self.wf(),
        ensures
            final(sink)@ == old(sink)@ + step(self.env(), scope_view(scope@), instr@).output,
            error_view(r) == step(self.env(), scope_view(scope@), instr@).error,
    {
        match instr {
            Instr::EmitLiteral { text } => {
                emit(sink, text.as_slice());
                Ok(())
            },
            Instr::EmitVar { name } => match self.resolve_exec(scope, name.as_slice()) {
                Some(value) => {
                    emit(sink, value.as_slice());
                    Ok(())
                },
                None => {
                    assert(sink@ =~= old(sink)@ + Seq::<u8>::empty());
                    Err(RuntimeError::UndefinedVariable { name: to_vec(name.as_slice()) })
                },
            },
            _ => {
                assert(sink@ =~= old(sink)@ + Seq::<u8>::empty());
                Ok(())
            },
        }
    }

    fn exec_fragment(&self, sink: &mut Vec<u8>, scope: &Vec<(Vec<u8>, Vec<u8>)>, instrs: &Vec<Instr>) -> (r:
        Result<(), RuntimeError>)
        requires
            self.wf(),
        ensures
            final(sink)@ == old(sink)@ + fragment(
                self.env(),
                scope_view(scope@),
                instrs_view(instrs@),
                0,
            ).output,
            error_view(r) == fragment(self.env(), scope_view(scope@), instrs_view(instrs@), 0).error,
    {
        let ghost env = self.env();
        let ghost sc = scope_view(scope@);
        let ghost code = instrs_view(instrs@);
        let ghost mut written: Seq<u8> = Seq::empty();
        let mut i: usize = 0;
        assert(sink@ =~= old(sink)@ + written);
        while i < instrs.len()
            invariant
                i <= instrs@.len(),
                self.wf(),
                env == self.env(),
                sc == scope_view(scope@),
                code == instrs_view(instrs@),
                sink@ == old(sink)@ + written,
                fragment(env, sc, code, 0) == after(written, fragment(env, sc, code, i as int)),
            decreases instrs@.len() - i,
        {
            assert(code[i as int] == instrs@[i as int]@);
            let ghost one = step(env, sc, code[i as int]);
            let ghost rest = fragment(env, sc, code, i + 1);
            match self.exec_step(sink, scope, &instrs[i]) {
                Err(e) => {
                    assert(sink@ =~= old(sink)@ + (written + one.output));
                    return Err(e);
                },
                Ok(()) => {
                    proof {
                        assert(written + (one.output + rest.output) =~= (written + one.output)
                            + rest.output);
                        assert(sink@ =~= old(sink)@ + (written + one.output));
                        written = written + one.output;
                    }
                },
            }
            i += 1;
        }
        assert(written + Seq::<u8>::empty() =~= written);
        Ok(())
    }

    fn exec_apply(&self, sink: &mut Vec<u8>, scope: &Vec<(Vec<u8>, Vec<u8>)>, m: &Macro) -> (r: Result<
        (),
        RuntimeError,
    >)
        requires
            self.wf(),
        ensures
            final(sink)@ == old(sink)@ + apply(self.env(), scope_view(scope@), m@).output,
            error_view(r) == apply(self.env(), scope_view(scope@), m@).error,
    {
        let mut rendered: Vec<u8> = Vec::new();
        match self.exec_fragment(&mut rendered, scope, &m.pattern) {
            Err(e) => {
                assert(sink@ =~= old(sink)@ + Seq::<u8>::empty());
                return Err(e);
            },
            Ok(()) => {},
        }
        let ghost pattern = fragment(self.env(), scope_view(scope@), m@.pattern, 0);
        assert(rendered@ =~= pattern.output);
        let mut inner = copy_scope(scope);
        bind(&mut inner, "_", rendered);
        self.exec_fragment(sink, &inner, &m.body)
    }

    fn exec_range(
        &self,
        sink: &mut Vec<u8>,
        program: &IrProgram,
        scope: &Vec<(Vec<u8>, Vec<u8>)>,
        lo: usize,
        hi: usize,
    ) -> (r: Result<(), RuntimeError>)
        requires
            self.wf(),
            program.wf(),
            lo <= hi <= program.instrs@.len(),
        ensures
            final(sink)@ == old(sink)@ + run_range(
                program@,
                self.env(),
                scope_view(scope@),
                lo as int,
                hi as int,
            ).output,
            error_view(r) == run_range(
                program@,
                self.env(),
                scope_view(scope@),
                lo as int,
                hi as int,
            ).error,
        decreases hi - lo, 0nat,
    {
        let ghost p = program@;
        let ghost env = self.env();
        let ghost sc = scope_view(scope@);
        let ghost mut written: Seq<u8> = Seq::empty();
        let mut pc: usize = lo;
        assert(sink@ =~= old(sink)@ + written);
        while pc < hi
            invariant
                lo <= pc <= hi <= program.instrs@.len(),
                self.wf(),
                program.wf(),
                p == program@,
                env == self.env(),
                sc == scope_view(scope@),
                sink@ == old(sink)@ + written,
                run_range(p, env, sc, lo as int, hi as int) == after(
                    written,
                    run_range(p, env, sc, pc as int, hi as int),
                ),
            decreases hi - pc,
        {
            assert(p.instrs[pc as int] == program.instrs@[pc as int]@);
            let ghost here = run_range(p, env, sc, pc as int, hi as int);
            let next: usize;
            let ghost one: Outcome;
            let result = match &program.instrs[pc] {
                Instr::BeginArrayIter { array } => {
                    let end = find_end(&program.instrs, pc + 1, hi);
                    next = if end < hi { end + 1 } else { hi };
                    match self.arrays.get(array.as_slice()) {
                        None => {
                            proof {
                                one = here;
                            }
                            Err(RuntimeError::UndefinedArray { name: to_vec(array.as_slice()) })
                        },
                        Some(items) => {
                            proof {
                                one = run_items(p, env, sc, pc + 1, end as int, items.deep_view(), 0);
                            }
                            self.exec_items(sink, program, scope, pc + 1, end, items)
                        },
                    }
                },
                Instr::BeginMacroCall { name, index } => {
                    next = pc + 1;
                    proof {
                        one = call(p, env, sc, *index);
                        assert(resolved(p.instrs[pc as int], p.macros));
                        assert(p.macros[*index as int] == program.macros@[*index as int]@);
                    }
                    self.exec_apply(sink, scope, &program.macros[*index])
                },
                other => {
                    next = pc + 1;
                    proof {
                        one = step(env, sc, other@);
                    }
                    self.exec_step(sink, scope, other)
                },
            };
            let ghost rest = run_range(p, env, sc, next as int, hi as int);
            assert(here == then(one, rest) || (one.error is Some && here == one));
            match result {
                Err(e) => {
                    assert(sink@ =~= old(sink)@ + (written + one.output));
                    return Err(e);
                },
                Ok(()) => {
                    proof {
                        assert(written + (one.output + rest.output) =~= (written + one.output)
                            + rest.output);
                        assert(sink@ =~= old(sink)@ + (written + one.output));
                        written = written + one.output;
                    }
                },
            }
            pc = next;
        }
        assert(written + Seq::<u8>::empty() =~= written);
        Ok(())
    }

    fn exec_items(
        &self,
        sink: &mut Vec<u8>,
        program: &IrProgram,
        scope: &Vec<(Vec<u8>, Vec<u8>)>,
        lo: usize,
        hi: usize,
        items: &Vec<Vec<u8>>,
    ) -> (r: Result<(), RuntimeError>)
        requires
            self.wf(),
            program.wf(),
            lo <= hi <= program.instrs@.len(),
        ensures
            final(sink)@ == old(sink)@ + run_items(
                program@,
                self.env(),
                scope_view(scope@),
                lo as int,
                hi as int,
                items.deep_view(),
                0,
            ).output,
            error_view(r) == run_items(
                program@,
                self.env(),
                scope_view(scope@),
                lo as int,
                hi as int,
                items.deep_view(),
                0,
            ).error,
        decreases hi - lo, 1nat,
    {
        let ghost p = program@;
        let ghost env = self.env();
        let ghost sc = scope_view(scope@);
        let ghost elements = items.deep_view();
        let ghost mut written: Seq<u8> = Seq::empty();
        let mut k: usize = 0;
        assert(sink@ =~= old(sink)@ + written);
        while k < items.len()
            invariant
                k <= items@.len(),
                lo <= hi <= program.instrs@.len(),
                self.wf(),
                program.wf(),
                p == program@,
                env == self.env(),
                sc == scope_view(scope@),
                elements == items.deep_view(),
                sink@ == old(sink)@ + written,
                run_items(p, env, sc, lo as int, hi as int, elements, 0) == after(
                    written,
                    run_items(p, env, sc, lo as int, hi as int, elements, k as int),
                ),
            decreases items@.len() - k,
        {
            let mut inner = copy_scope(scope);
            bind(&mut inner, "_index_", to_decimal(k as u128));
            bind(&mut inner, "_item_", to_vec(items[k].as_slice()));
            assert(items@[k as int]@ =~= elements[k as int]);
            assert(scope_view(inner@) == iteration_scope(sc, k as int, elements[k as int]));
            let ghost one = run_range(p, env, scope_view(inner@), lo as int, hi as int);
            let ghost rest = run_items(p, env, sc, lo as int, hi as int, elements, k + 1);
            match self.exec_range(sink, program, &inner, lo, hi) {
                Err(e) => {
                    assert(sink@ =~= old(sink)@ + (written + one.output));
                    return Err(e);
                },
                Ok(()) => {
                    proof {
                        assert(written + (one.output + rest.output) =~= (written + one.output)
                            + rest.output);
                        assert(sink@ =~= old(sink)@ + (written + one.output));
                        written = written + one.output;
                    }
                },
            }
            k += 1;
        }
        assert(written + Seq::<u8>::empty() =~= written);
        Ok(())
    }

    /// The dump of a machine's state depends on the variables and arrays it
    /// holds and on nothing else: two machines that hold the same mappings
    /// dump the same text, in whatever order their tables were filled.
    pub proof fn lemma_dump_state_stable(&self, other: &Vm)
        requires
            self.wf(),
            other.wf(),
            self.variables() == other.variables(),
            self.arrays() == other.arrays(),
        ensures
            self.variable_listing() == other.variable_listing(),
            self.array_listing() == other.array_listing(),
            state_text(self.variable_listing(), self.array_listing()) == state_text(
                other.variable_listing(),
                other.array_listing(),
            ),
    {
        self.variables.lemma_listing_unique(&other.variables);
        self.arrays.lemma_listing_unique(&other.arrays);
    }

    /// Writes the variables and the arrays to `sink`, each table in
    /// dictionary order of its names, whatever the order in which they were
    /// entered.
    pub fn dump_state(&self, sink: &mut Vec<u8>)
        ensures
            final(sink)@ == old(sink)@ + state_text(self.variable_listing(), self.array_listing()),
    {
        emit(sink, "variables:\n".as_bytes());
        let ghost vars = self.variable_listing();
        let ghost start = sink@;
        let ghost mut written: Seq<u8> = Seq::empty();
        let mut i: usize = 0;
        assert(sink@ =~= start + written);
        while i < self.variables.len()
            invariant
                i <= self.variables.listing().len(),
                vars == self.variables.listing(),
                sink@ == start + written,
                variables_text(vars, 0) == written + variables_text(vars, i as int),
            decreases self.variables.listing().len() - i,
        {
            let ghost before = sink@;
            emit(sink, "  ".as_bytes());
            emit(sink, self.variables.name_at(i).as_slice());
            emit(sink, " = ".as_bytes());
            let value = self.variables.value_at(i);
            assert(value@ =~= value.deep_view());
            emit(sink, value.as_slice());
            emit(sink, "\n".as_bytes());
            proof {
                let one = "  ".spec_bytes() + vars[i as int].0 + " = ".spec_bytes() + vars[i as int].1
                    + "\n".spec_bytes();
                let rest = variables_text(vars, i + 1);
                assert(sink@ =~= before + one);
                assert(variables_text(vars, i as int) =~= one + rest);
                assert(written + (one + rest) =~= (written + one) + rest);
                assert(sink@ =~= start + (written + one));
                written = written + one;
            }
            i += 1;
        }
        assert(written + Seq::<u8>::empty() =~= written);
        let ghost middle = sink@;
        emit(sink, "arrays:\n".as_bytes());
        let ghost arrays = self.array_listing();
        let ghost start2 = sink@;
        let ghost mut written2: Seq<u8> = Seq::empty();
        let mut j: usize = 0;
        assert(sink@ =~= start2 + written2);
        while j < self.arrays.len()
            invariant
                j <= self.arrays.listing().len(),
                arrays == self.arrays.listing(),
                sink@ == start2 + written2,
                arrays_text(arrays, 0) == written2 + arrays_text(arrays, j as int),
            decreases self.arrays.listing().len() - j,
        {
            let ghost before = sink@;
            emit(sink, "  ".as_bytes());
            emit(sink, self.arrays.name_at(j).as_slice());
            emit(sink, " = [".as_bytes());
            write_items(sink, self.arrays.value_at(j));
            emit(sink, "]\n".as_bytes());
            proof {
                let one = "  ".spec_bytes() + arrays[j as int].0 + " = [".spec_bytes() + items_text(
                    arrays[j as int].1,
                    0,
                ) + "]\n".spec_bytes();
                let rest = arrays_text(arrays, j + 1);
                assert(sink@ =~= before + one);
                assert(arrays_text(arrays, j as int) =~= one + rest);
                assert(written2 + (one + rest) =~= (written2 + one) + rest);
                assert(sink@ =~= start2 + (written2 + one));
                written2 = written2 + one;
            }
            j += 1;
        }
        assert(written2 + Seq::<u8>::empty() =~= written2);
        assert(sink@ =~= old(sink)@ + state_text(vars, arrays));
    }

    /// Runs `program`, writing to `sink`. The instructions run in program
    /// order; the first error ends the run, and what was written before it
    /// stays in `sink`.
    pub fn run(&self, sink: &mut Vec<u8>, program: &IrProgram) -> (r: Result<(), RuntimeError>)
        requires
            self.wf(),
            program.wf(),
        ensures
            final(sink)@ == old(sink)@ + execute(program@, self.env()).output,
            error_view(r) == execute(program@, self.env()).error,
    {
        let scope: Vec<(Vec<u8>, Vec<u8>)> = Vec::new();
        assert(scope_view(scope@) =~= Seq::<(Seq<u8>, Seq<u8>)>::empty());
        self.exec_range(sink, program, &scope, 0, program.instrs.len())
    }
}

} // verus!
