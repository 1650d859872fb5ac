//! What running a program means: the text it writes and the error it ends
//! with, as a function of the program and the values it runs against.

use vstd::prelude::*;
use vstd::string::*;
use crate::ir::bracket::{agree, iter_end, lemma_iter_end_agree, lemma_iter_end_bounds};
use crate::ir::instr::{InstrView, IrView, MacroView};
use crate::text::decimal;

verus! {

/// What a run can fail with.
#[derive(Clone, Debug, PartialEq, Eq)]
pub enum RuntimeError {
    /// A name is bound neither in the active scope nor among the variables.
    UndefinedVariable { name: Vec<u8> },
    /// No array is called `name`.
    UndefinedArray { name: Vec<u8> },
}

/// The mathematical value of a `RuntimeError`.
pub enum RuntimeErrorView {
    UndefinedVariable { name: Seq<u8> },
    UndefinedArray { name: Seq<u8> },
}

impl View for RuntimeError {
    type V = RuntimeErrorView;

    open spec fn view(&self) -> RuntimeErrorView {
        match self {
            RuntimeError::UndefinedVariable { name } => RuntimeErrorView::UndefinedVariable {
                name: name@,
            },
            RuntimeError::UndefinedArray { name } => RuntimeErrorView::UndefinedArray { name: name@ },
        }
    }
}

/// The error of a result, if it is one.
pub open spec fn error_view(r: Result<(), RuntimeError>) -> Option<RuntimeErrorView> {
    match r {
        Ok(()) => None,
        Err(e) => Some(e@),
    }
}

/// The values a program runs against.
pub struct Env {
    pub variables: Map<Seq<u8>, Seq<u8>>,
    pub arrays: Map<Seq<u8>, Seq<Seq<u8>>>,
}

/// What a run does: the text it writes, and the error that ended it, if one
/// did. Text written before an error stays written.
pub struct Outcome {
    pub output: Seq<u8>,
    pub error: Option<RuntimeErrorView>,
}

/// Nothing written, no error.
pub open spec fn done() -> Outcome {
    Outcome { output: Seq::empty(), error: None }
}

/// `text` written, no error.
pub open spec fn emitted(text: Seq<u8>) -> Outcome {
    Outcome { output: text, error: None }
}

/// Nothing written, ended by `error`.
pub open spec fn failed(error: RuntimeErrorView) -> Outcome {
    Outcome { output: Seq::empty(), error: Some(error) }
}

/// `first`, and then `second` unless `first` ended in an error.
pub open spec fn then(first: Outcome, second: Outcome) -> Outcome {
    if first.error is Some {
        first
    } else {
        Outcome { output: first.output + second.output, error: second.error }
    }
}

/// `outcome` behind text that was written before it.
pub open spec fn after(written: Seq<u8>, outcome: Outcome) -> Outcome {
    Outcome { output: written + outcome.output, error: outcome.error }
}

/// The name bound to the ordinal of the current element.
pub open spec fn index_name() -> Seq<u8> {
    "_index_".spec_bytes()
}

/// The name bound to the current element.
pub open spec fn item_name() -> Seq<u8> {
    "_item_".spec_bytes()
}

/// The name bound to the rendered pattern of the macro that is being applied.
pub open spec fn result_name() -> Seq<u8> {
    "_".spec_bytes()
}

/// The value of `name` among the first `n` bindings of `scope`, the last of
/// them first.
pub open spec fn bound_below(scope: Seq<(Seq<u8>, Seq<u8>)>, name: Seq<u8>, n: int) -> Option<Seq<u8>>
    decreases n,
{
    if n <= 0 {
        None
    } else if scope[n - 1].0 == name {
        Some(scope[n - 1].1)
    } else {
        bound_below(scope, name, n - 1)
    }
}

/// The value that the innermost binding of `name` in `scope` gives it.
pub open spec fn bound(scope: Seq<(Seq<u8>, Seq<u8>)>, name: Seq<u8>) -> Option<Seq<u8>> {
    bound_below(scope, name, scope.len() as int)
}

/// The value of `name`: that of the active scope, else that of the variable.
pub open spec fn resolve(env: Env, scope: Seq<(Seq<u8>, Seq<u8>)>, name: Seq<u8>) -> Option<Seq<u8>> {
    match bound(scope, name) {
        Some(value) => Some(value),
        None => if env.variables.contains_key(name) {
            Some(env.variables[name])
        } else {
            None
        },
    }
}

/// What an instruction that only writes does. The brackets do nothing here.
pub open spec fn step(env: Env, scope: Seq<(Seq<u8>, Seq<u8>)>, instr: InstrView) -> Outcome {
    match instr {
        InstrView::EmitLiteral { text } => emitted(text),
        InstrView::EmitVar { name } => match resolve(env, scope, name) {
            Some(value) => emitted(value),
            None => failed(RuntimeErrorView::UndefinedVariable { name }),
        },
        _ => done(),
    }
}

/// What the instructions `instrs[i..]` of a macro's pattern or body do.
pub open spec fn fragment(env: Env, scope: Seq<(Seq<u8>, Seq<u8>)>, instrs: Seq<InstrView>, i: int) -> Outcome
    decreases instrs.len() - i,
{
    if i < 0 || i >= instrs.len() {
        done()
    } else {
        then(step(env, scope, instrs[i]), fragment(env, scope, instrs, i + 1))
    }
}

/// What applying a macro does: its pattern is rendered, aside, and its body
/// written with `_` bound to the rendered pattern. An error in the pattern
/// ends the run with nothing of the pattern written.
pub open spec fn apply(env: Env, scope: Seq<(Seq<u8>, Seq<u8>)>, m: MacroView) -> Outcome {
    let pattern = fragment(env, scope, m.pattern, 0);
    match pattern.error {
        Some(error) => failed(error),
        None => fragment(env, scope.push((result_name(), pattern.output)), m.body, 0),
    }
}

/// What a call of the macro at `index` does.
pub open spec fn call(p: IrView, env: Env, scope: Seq<(Seq<u8>, Seq<u8>)>, index: usize) -> Outcome {
    if index < p.macros.len() {
        apply(env, scope, p.macros[index as int])
    } else {
        done()
    }
}

/// The scope of the body of an array bracket for the element `item` at
/// ordinal `k`.
pub open spec fn iteration_scope(scope: Seq<(Seq<u8>, Seq<u8>)>, k: int, item: Seq<u8>) -> Seq<
    (Seq<u8>, Seq<u8>),
> {
    scope.push((index_name(), decimal(k as nat))).push((item_name(), item))
}

/// What the instructions `lo..hi` of `p` do, in order. An array bracket runs
/// its body once for each element of its array, in the array's order, and
/// the first error ends the run.
pub open spec fn run_range(p: IrView, env: Env, scope: Seq<(Seq<u8>, Seq<u8>)>, lo: int, hi: int) -> Outcome
    decreases hi - lo, 0nat,
{
    if lo < 0 || lo >= hi {
        done()
    } else {
        match p.instrs[lo] {
            InstrView::BeginArrayIter { array } => {
                let end = iter_end(p.instrs, lo + 1, hi, 0);
                proof {
                    lemma_iter_end_bounds(p.instrs, lo + 1, hi, 0);
                }
                let next = if end < hi {
                    end + 1
                } else {
                    hi
                };
                if env.arrays.contains_key(array) {
                    then(
                        run_items(p, env, scope, lo + 1, end, env.arrays[array], 0),
                        run_range(p, env, scope, next, hi),
                    )
                } else {
                    failed(RuntimeErrorView::UndefinedArray { name: array })
                }
            },
            InstrView::BeginMacroCall { name, index } => then(
                call(p, env, scope, index),
                run_range(p, env, scope, lo + 1, hi),
            ),
            other => then(step(env, scope, other), run_range(p, env, scope, lo + 1, hi)),
        }
    }
}

/// What the body `lo..hi` of an array bracket does for the elements
/// `items[k..]`.
pub open spec fn run_items(
    p: IrView,
    env: Env,
    scope: Seq<(Seq<u8>, Seq<u8>)>,
    lo: int,
    hi: int,
    items: Seq<Seq<u8>>,
    k: int,
) -> Outcome
    decreases hi - lo, items.len() - k + 1,
{
    if k < 0 || k >= items.len() {
        done()
    } else {
        then(
            run_range(p, env, iteration_scope(scope, k, items[k]), lo, hi),
            run_items(p, env, scope, lo, hi, items, k + 1),
        )
    }
}

/// What running the whole of `p` against `env` does.
pub open spec fn execute(p: IrView, env: Env) -> Outcome {
    run_range(p, env, Seq::empty(), 0, p.instrs.len() as int)
}

/// A variable is never given a value it does not have: a program that
/// starts by reading the undefined variable `name` writes nothing and ends
/// with `UndefinedVariable`.
pub proof fn lemma_undefined_variable(p: IrView, env: Env, name: Seq<u8>)
    requires
        p.instrs.len() >= 1,
        p.instrs[0] == (InstrView::EmitVar { name }),
        !env.variables.contains_key(name),
    ensures
        execute(p, env) == failed(RuntimeErrorView::UndefinedVariable { name }),
{
    let scope = Seq::<(Seq<u8>, Seq<u8>)>::empty();
    assert(step(env, scope, p.instrs[0]).error is Some);
}

/// A run stops at its first error: where a program writes `text` and then
/// reads the undefined variable `name`, the run writes `text`, ends with
/// `UndefinedVariable`, and nothing behind those two instructions is run.
pub proof fn lemma_fail_fast(p: IrView, env: Env, text: Seq<u8>, name: Seq<u8>)
    requires
        p.instrs.len() >= 2,
        p.instrs[0] == (InstrView::EmitLiteral { text }),
        p.instrs[1] == (InstrView::EmitVar { name }),
        !env.variables.contains_key(name),
    ensures
        execute(p, env) == (Outcome {
            output: text,
            error: Some(RuntimeErrorView::UndefinedVariable { name }),
        }),
{
    let scope = Seq::<(Seq<u8>, Seq<u8>)>::empty();
    let n = p.instrs.len() as int;
    let second = run_range(p, env, scope, 1, n);
    assert(step(env, scope, p.instrs[1]).error is Some);
    assert(second == step(env, scope, p.instrs[1]));
    assert(run_range(p, env, scope, 0, n) == then(emitted(text), second));
    assert(text + Seq::<u8>::empty() =~= text);
}

/// What a range of instructions does depends on those instructions and the
/// macro table alone.
pub proof fn lemma_range_agree(
    p: IrView,
    q: IrView,
    env: Env,
    scope: Seq<(Seq<u8>, Seq<u8>)>,
    lo: int,
    hi: int,
)
    requires
        p.macros == q.macros,
        0 <= lo,
        agree(p.instrs, q.instrs, lo, hi),
    ensures
        run_range(p, env, scope, lo, hi) == run_range(q, env, scope, lo, hi),
    decreases hi - lo, 0nat,
{
    if lo < hi {
        assert(p.instrs[lo] == q.instrs[lo]);
        match p.instrs[lo] {
            InstrView::BeginArrayIter { array } => {
                lemma_iter_end_bounds(p.instrs, lo + 1, hi, 0);
                lemma_iter_end_agree(p.instrs, q.instrs, lo + 1, hi, hi, 0);
                let end = iter_end(p.instrs, lo + 1, hi, 0);
                let next = if end < hi {
                    end + 1
                } else {
                    hi
                };
                if env.arrays.contains_key(array) {
                    lemma_items_agree(p, q, env, scope, lo + 1, end, env.arrays[array], 0);
                    lemma_range_agree(p, q, env, scope, next, hi);
                }
            },
            _ => {
                lemma_range_agree(p, q, env, scope, lo + 1, hi);
            },
        }
    }
}

/// What the body of a bracket does for the elements of an array depends on
/// the instructions of the body and the macro table alone.
pub proof fn lemma_items_agree(
    p: IrView,
    q: IrView,
    env: Env,
    scope: Seq<(Seq<u8>, Seq<u8>)>,
    lo: int,
    hi: int,
    items: Seq<Seq<u8>>,
    k: int,
)
    requires
        p.macros == q.macros,
        0 <= lo,
        agree(p.instrs, q.instrs, lo, hi),
    ensures
        run_items(p, env, scope, lo, hi, items, k) == run_items(q, env, scope, lo, hi, items, k),
    decreases hi - lo, items.len() - k + 1,
{
    if 0 <= k < items.len() {
        lemma_range_agree(p, q, env, iteration_scope(scope, k, items[k]), lo, hi);
        lemma_items_agree(p, q, env, scope, lo, hi, items, k + 1);
    }
}

/// Whether two scopes bind the same names in the same order.
pub open spec fn same_names(a: Seq<(Seq<u8>, Seq<u8>)>, b: Seq<(Seq<u8>, Seq<u8>)>) -> bool {
    a.len() == b.len() && forall|k: int| 0 <= k < a.len() ==> (#[trigger] a[k]).0 == b[k].0
}

/// Whether a name is bound depends on the names of the scope alone.
pub proof fn lemma_bound_uniform(
    a: Seq<(Seq<u8>, Seq<u8>)>,
    b: Seq<(Seq<u8>, Seq<u8>)>,
    name: Seq<u8>,
    n: int,
)
    requires
        same_names(a, b),
        0 <= n <= a.len(),
    ensures
        bound_below(a, name, n) is Some <==> bound_below(b, name, n) is Some,
    decreases n,
{
    if n > 0 {
        assert(a[n - 1].0 == b[n - 1].0);
        lemma_bound_uniform(a, b, name, n - 1);
    }
}

/// Whether a writing instruction fails, and with what, depends on the names
/// of the scope alone.
pub proof fn lemma_step_uniform(
    env: Env,
    a: Seq<(Seq<u8>, Seq<u8>)>,
    b: Seq<(Seq<u8>, Seq<u8>)>,
    instr: InstrView,
)
    requires
        same_names(a, b),
    ensures
        step(env, a, instr).error == step(env, b, instr).error,
{
    match instr {
        InstrView::EmitVar { name } => {
            lemma_bound_uniform(a, b, name, a.len() as int);
        },
        _ => {},
    }
}

/// Whether a fragment fails, and with what, depends on the names of the
/// scope alone.
pub proof fn lemma_fragment_uniform(
    env: Env,
    a: Seq<(Seq<u8>, Seq<u8>)>,
    b: Seq<(Seq<u8>, Seq<u8>)>,
    instrs: Seq<InstrView>,
    i: int,
)
    requires
        same_names(a, b),
    ensures
        fragment(env, a, instrs, i).error == fragment(env, b, instrs, i).error,
    decreases instrs.len() - i,
{
    if 0 <= i < instrs.len() {
        lemma_step_uniform(env, a, b, instrs[i]);
        lemma_fragment_uniform(env, a, b, instrs, i + 1);
    }
}

/// Whether applying a macro fails, and with what, depends on the names of
/// the scope alone.
pub proof fn lemma_apply_uniform(
    env: Env,
    a: Seq<(Seq<u8>, Seq<u8>)>,
    b: Seq<(Seq<u8>, Seq<u8>)>,
    m: MacroView,
)
    requires
        same_names(a, b),
    ensures
        apply(env, a, m).error == apply(env, b, m).error,
{
    lemma_fragment_uniform(env, a, b, m.pattern, 0);
    let first = fragment(env, a, m.pattern, 0);
    let second = fragment(env, b, m.pattern, 0);
    if first.error is None {
        let inner_a = a.push((result_name(), first.output));
        let inner_b = b.push((result_name(), second.output));
        assert forall|k: int| 0 <= k < inner_a.len() implies (#[trigger] inner_a[k]).0
            == inner_b[k].0 by {
            if k < a.len() {
                assert(inner_a[k] == a[k]);
                assert(inner_b[k] == b[k]);
            }
        }
        lemma_fragment_uniform(env, inner_a, inner_b, m.body, 0);
    }
}

/// Whether a range of instructions fails, and with what, depends on the
/// names of the scope alone, not on the values bound to them.
pub proof fn lemma_range_uniform(
    p: IrView,
    env: Env,
    a: Seq<(Seq<u8>, Seq<u8>)>,
    b: Seq<(Seq<u8>, Seq<u8>)>,
    lo: int,
    hi: int,
)
    requires
        same_names(a, b),
    ensures
        run_range(p, env, a, lo, hi).error == run_range(p, env, b, lo, hi).error,
    decreases hi - lo, 0nat,
{
    if 0 <= lo < hi {
        match p.instrs[lo] {
            InstrView::BeginArrayIter { array } => {
                let end = iter_end(p.instrs, lo + 1, hi, 0);
                lemma_iter_end_bounds(p.instrs, lo + 1, hi, 0);
                let next = if end < hi {
                    end + 1
                } else {
                    hi
                };
                if env.arrays.contains_key(array) {
                    lemma_items_uniform(p, env, a, b, lo + 1, end, env.arrays[array], 0);
                    lemma_range_uniform(p, env, a, b, next, hi);
                }
            },
            InstrView::BeginMacroCall { name, index } => {
                if index < p.macros.len() {
                    lemma_apply_uniform(env, a, b, p.macros[index as int]);
                }
                lemma_range_uniform(p, env, a, b, lo + 1, hi);
            },
            other => {
                lemma_step_uniform(env, a, b, other);
                lemma_range_uniform(p, env, a, b, lo + 1, hi);
            },
        }
    }
}

/// Whether the body of a bracket fails for the elements of an array, and
/// with what, depends on the names of the scope alone.
pub proof fn lemma_items_uniform(
    p: IrView,
    env: Env,
    a: Seq<(Seq<u8>, Seq<u8>)>,
    b: Seq<(Seq<u8>, Seq<u8>)>,
    lo: int,
    hi: int,
    items: Seq<Seq<u8>>,
    k: int,
)
    requires
        same_names(a, b),
    ensures
        run_items(p, env, a, lo, hi, items, k).error == run_items(p, env, b, lo, hi, items, k).error,
    decreases hi - lo, items.len() - k + 1,
{
    if 0 <= k < items.len() {
        let inner_a = iteration_scope(a, k, items[k]);
        let inner_b = iteration_scope(b, k, items[k]);
        lemma_iteration_names(a, b, k, items[k], k, items[k]);
        lemma_range_uniform(p, env, inner_a, inner_b, lo, hi);
        lemma_items_uniform(p, env, a, b, lo, hi, items, k + 1);
    }
}

/// The scopes of two elements bind the same names.
pub proof fn lemma_iteration_names(
    a: Seq<(Seq<u8>, Seq<u8>)>,
    b: Seq<(Seq<u8>, Seq<u8>)>,
    k: int,
    item: Seq<u8>,
    n: int,
    other: Seq<u8>,
)
    requires
        same_names(a, b),
    ensures
        same_names(iteration_scope(a, k, item), iteration_scope(b, n, other)),
{
    let inner_a = iteration_scope(a, k, item);
    let inner_b = iteration_scope(b, n, other);
    assert forall|j: int| 0 <= j < inner_a.len() implies (#[trigger] inner_a[j]).0 == inner_b[j].0 by {
        if j < a.len() {
            assert(inner_a[j] == a[j]);
            assert(inner_b[j] == b[j]);
        }
    }
}

/// A body that does not fail for the first element of an array fails for
/// none.
pub proof fn lemma_items_all_fine(
    p: IrView,
    env: Env,
    scope: Seq<(Seq<u8>, Seq<u8>)>,
    lo: int,
    hi: int,
    items: Seq<Seq<u8>>,
    k: int,
)
    requires
        items.len() > 0,
        run_range(p, env, iteration_scope(scope, 0, items[0]), lo, hi).error is None,
    ensures
        run_items(p, env, scope, lo, hi, items, k).error is None,
    decreases items.len() - k,
{
    if 0 <= k < items.len() {
        lemma_iteration_names(scope, scope, k, items[k], 0, items[0]);
        lemma_range_uniform(
            p,
            env,
            iteration_scope(scope, k, items[k]),
            iteration_scope(scope, 0, items[0]),
            lo,
            hi,
        );
        lemma_items_all_fine(p, env, scope, lo, hi, items, k + 1);
    }
}

/// Where the instructions `lo..hp` end in an error, any instructions that
/// follow them are not run: not those behind a bracket, and not those that
/// go on inside a bracket which `hp` leaves open.
pub proof fn lemma_error_ends_range(
    p: IrView,
    q: IrView,
    env: Env,
    scope: Seq<(Seq<u8>, Seq<u8>)>,
    lo: int,
    hp: int,
    hq: int,
)
    requires
        p.macros == q.macros,
        0 <= lo <= hp <= hq,
        agree(p.instrs, q.instrs, lo, hp),
        run_range(p, env, scope, lo, hp).error is Some,
    ensures
        run_range(q, env, scope, lo, hq) == run_range(p, env, scope, lo, hp),
    decreases hp - lo,
{
    if lo < hp {
        assert(p.instrs[lo] == q.instrs[lo]);
        match p.instrs[lo] {
            InstrView::BeginArrayIter { array } => {
                let end = iter_end(p.instrs, lo + 1, hp, 0);
                let far = iter_end(q.instrs, lo + 1, hq, 0);
                lemma_iter_end_bounds(p.instrs, lo + 1, hp, 0);
                lemma_iter_end_bounds(q.instrs, lo + 1, hq, 0);
                lemma_iter_end_agree(p.instrs, q.instrs, lo + 1, hp, hq, 0);
                if env.arrays.contains_key(array) {
                    let items = env.arrays[array];
                    if end < hp {
                        lemma_items_agree(p, q, env, scope, lo + 1, end, items, 0);
                        if run_items(p, env, scope, lo + 1, end, items, 0).error is None {
                            lemma_error_ends_range(p, q, env, scope, end + 1, hp, hq);
                        }
                    } else {
                        assert(run_range(p, env, scope, hp, hp).error is None);
                        assert(run_items(p, env, scope, lo + 1, hp, items, 0).error is Some);
                        assert(items.len() > 0);
                        let first = iteration_scope(scope, 0, items[0]);
                        if run_range(p, env, first, lo + 1, hp).error is None {
                            lemma_items_all_fine(p, env, scope, lo + 1, hp, items, 0);
                        }
                        lemma_error_ends_range(p, q, env, first, lo + 1, hp, far);
                    }
                }
            },
            InstrView::BeginMacroCall { name, index } => {
                if call(p, env, scope, index).error is None {
                    lemma_error_ends_range(p, q, env, scope, lo + 1, hp, hq);
                }
            },
            other => {
                if step(env, scope, other).error is None {
                    lemma_error_ends_range(p, q, env, scope, lo + 1, hp, hq);
                }
            },
        }
    }
}

/// A run stops at its first error. Where a program ends in an error, a
/// program that goes on behind it does the same: it writes what the first
/// wrote and ends in the same error, and nothing that follows is run. The
/// first program may end anywhere, also inside an array bracket: what
/// follows a failing instruction in the body of a bracket is not run, for
/// this element or for a later one.
pub proof fn lemma_error_ends_run(p: IrView, q: IrView, env: Env)
    requires
        p.macros == q.macros,
        p.instrs.len() <= q.instrs.len(),
        agree(p.instrs, q.instrs, 0, p.instrs.len() as int),
        execute(p, env).error is Some,
    ensures
        execute(q, env) == execute(p, env),
{
    lemma_error_ends_range(
        p,
        q,
        env,
        Seq::empty(),
        0,
        p.instrs.len() as int,
        q.instrs.len() as int,
    );
}

} // verus!
