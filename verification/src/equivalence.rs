//! The lowering keeps the meaning of a procedure: the state machine hands
//! back, step by step, what the procedure hands back when it is run straight
//! through.

use crate::lowering::{
    any_lacks_type, capture_set, emission_valid, emitted, fault_at, lemma_chunk_count,
    lemma_declared_names, lowers, Exit, StateMachine,
};
use crate::machine::{
    contents, emitted_value, entry_scope, filled, runs_from, step, StateModel,
};
use crate::procedure::{
    bound_names, chunks, declared, emissions, eval, let_names, lookup, names, run_all, run_stmt,
    variables, Emission, Expr, Procedure, ScopeModel, Stmt, ValueModel,
};
use crate::interpreter::lemma_eval_all_len;
use crate::task::FreezableState;
use vstd::prelude::*;

verus! {

/// What a run hands back: one partial result per suspension, in order, and
/// the final result.
pub struct Outcome {
    pub emissions: Seq<Option<ValueModel>>,
    pub result: ValueModel,
}

/// What a marker hands back in a scope, or `None` where it hands back
/// something that has no value there.
pub open spec fn emission_value(emission: Emission, scope: ScopeModel) -> Option<
    Option<ValueModel>,
> {
    match emission {
        Emission::Silent => Some(None),
        Emission::Variable(name) => match lookup(scope.names, name@) {
            Some(slot) => Some(Some(scope.values[slot])),
            None => None,
        },
        Emission::Expression => None,
    }
}

/// Runs a list of statements straight through. Gives the scope at the end
/// and what the markers on the way handed back, or `None` where a statement
/// could not run.
pub open spec fn run_through(stmts: Seq<Stmt>, scope: ScopeModel) -> Option<
    (ScopeModel, Seq<Option<ValueModel>>),
>
    decreases stmts.len(),
{
    if stmts.len() == 0 {
        Some((scope, Seq::empty()))
    } else {
        match run_through(stmts.drop_last(), scope) {
            Some((before, emitted)) => match stmts.last() {
                Stmt::Freeze(emission) => match emission_value(emission, before) {
                    Some(value) => Some((before, emitted.push(value))),
                    None => None,
                },
                stmt => match run_stmt(stmt, before) {
                    Some(after) => Some((after, emitted)),
                    None => None,
                },
            },
            None => None,
        }
    }
}

/// The outcome of a run that has come to the end of the statements: the
/// final expression is evaluated in the last scope.
pub open spec fn finish(
    run: Option<(ScopeModel, Seq<Option<ValueModel>>)>,
    result: Expr,
) -> Option<Outcome> {
    match run {
        Some((scope, emitted)) => match eval(result, scope) {
            Some(value) => Some(Outcome { emissions: emitted, result: value }),
            None => None,
        },
        None => None,
    }
}

/// What a procedure hands back when it is run straight through on the given
/// arguments.
pub open spec fn direct(procedure: Procedure, arguments: Seq<ValueModel>) -> Option<Outcome> {
    finish(
        run_through(
            procedure.body@,
            ScopeModel { names: names(variables(procedure.parameters@)), values: arguments },
        ),
        procedure.result,
    )
}

/// What a state machine hands back when it is stepped from the start of
/// chunk `index`, holding `values`, until it finishes: the payloads of its
/// `Frozen` results and of its `Finished` result.
pub open spec fn payloads(machine: StateMachine, index: int, values: Seq<ValueModel>) -> Option<
    Outcome,
>
    decreases machine.chunks.len() - index,
{
    if index < 0 || index >= machine.chunks.len() {
        None
    } else {
        match step(machine, StateModel::Chunk(index, filled(values))) {
            (StateModel::Chunk(next, payload), Ok(FreezableState::Frozen(emitted))) => {
                if next == index + 1 {
                    match payloads(machine, next, contents(payload)) {
                        Some(rest) => Some(
                            Outcome {
                                emissions: seq![emitted] + rest.emissions,
                                result: rest.result,
                            },
                        ),
                        None => None,
                    }
                } else {
                    None
                }
            },
            (StateModel::Finished, Ok(FreezableState::Finished(value))) => Some(
                Outcome { emissions: Seq::empty(), result: value },
            ),
            _ => None,
        }
    }
}

/// The statements of a body from the start of chunk `index` on, markers
/// included.
pub open spec fn suffix(bodies: Seq<Seq<Stmt>>, markers: Seq<Emission>, index: int) -> Seq<Stmt>
    decreases bodies.len() - index,
{
    if index < 0 || index >= bodies.len() {
        Seq::empty()
    } else if index == bodies.len() - 1 {
        bodies[index]
    } else {
        bodies[index] + seq![Stmt::Freeze(markers[index])] + suffix(bodies, markers, index + 1)
    }
}

/// A statement added to a body is added to each of its suffixes.
proof fn lemma_suffix_push(stmts: Seq<Stmt>, stmt: Stmt, index: int)
    requires
        0 <= index < chunks(stmts).len(),
    ensures
        suffix(chunks(stmts.push(stmt)), emissions(stmts.push(stmt)), index) == suffix(
            chunks(stmts),
            emissions(stmts),
            index,
        ).push(stmt),
    decreases chunks(stmts).len() - index,
{
    let longer = stmts.push(stmt);
    let last = chunks(stmts).len() - 1;
    assert(longer.drop_last() == stmts);
    lemma_chunk_count(stmts);
    lemma_chunk_count(longer);
    if index < last {
        lemma_suffix_push(stmts, stmt, index + 1);
        let head = chunks(stmts)[index] + seq![Stmt::Freeze(emissions(stmts)[index])];
        assert(chunks(longer)[index] == chunks(stmts)[index]);
        assert(emissions(longer)[index] == emissions(stmts)[index]);
        assert(head + suffix(chunks(stmts), emissions(stmts), index + 1).push(stmt) == (head
            + suffix(chunks(stmts), emissions(stmts), index + 1)).push(stmt));
    } else {
        match stmt {
            Stmt::Freeze(emission) => {
                assert(suffix(chunks(longer), emissions(longer), index + 1) == Seq::<Stmt>::empty());
                assert(chunks(stmts)[index] + seq![stmt] + Seq::<Stmt>::empty() == chunks(
                    stmts,
                )[index].push(stmt));
            },
            _ => {},
        }
    }
}

/// The suffix from the first chunk on is the whole body.
proof fn lemma_suffix_whole(stmts: Seq<Stmt>)
    ensures
        suffix(chunks(stmts), emissions(stmts), 0) == stmts,
    decreases stmts.len(),
{
    if stmts.len() > 0 {
        let shorter = stmts.drop_last();
        lemma_suffix_whole(shorter);
        lemma_chunk_count(shorter);
        lemma_suffix_push(shorter, stmts.last(), 0);
        assert(shorter.push(stmts.last()) == stmts);
    }
}

/// No chunk holds a marker.
proof fn lemma_chunks_hold_no_marker(stmts: Seq<Stmt>)
    ensures
        forall|i: int, j: int|
            0 <= i < chunks(stmts).len() && 0 <= j < chunks(stmts)[i].len() ==> !(
            #[trigger] chunks(stmts)[i][j] is Freeze),
    decreases stmts.len(),
{
    if stmts.len() > 0 {
        let shorter = chunks(stmts.drop_last());
        lemma_chunks_hold_no_marker(stmts.drop_last());
        lemma_chunk_count(stmts.drop_last());
        assert forall|i: int, j: int|
            0 <= i < chunks(stmts).len() && 0 <= j < chunks(stmts)[i].len() implies !(
        #[trigger] chunks(stmts)[i][j] is Freeze) by {
            if i < shorter.len() && j < shorter[i].len() {
                assert(!(shorter[i][j] is Freeze));
            }
        }
    }
}

/// The position that a name refers to is a position of the scope.
proof fn lemma_lookup_bound(list: Seq<Seq<char>>, name: Seq<char>)
    ensures
        lookup(list, name) is Some ==> 0 <= lookup(list, name)->0 < list.len(),
    decreases list.len(),
{
    if list.len() > 0 {
        lemma_lookup_bound(list.drop_last(), name);
    }
}

/// Running two lists of statements one after the other is running the
/// second in the scope that the first leaves, and collecting the emissions
/// of both.
proof fn lemma_run_through_concat(first: Seq<Stmt>, second: Seq<Stmt>, scope: ScopeModel)
    ensures
        run_through(first + second, scope) == match run_through(first, scope) {
            Some((between, early)) => match run_through(second, between) {
                Some((after, late)) => Some((after, early + late)),
                None => None,
            },
            None => None,
        },
    decreases second.len(),
{
    if second.len() == 0 {
        assert(first + second == first);
        match run_through(first, scope) {
            Some((between, early)) => {
                assert(early + Seq::<Option<ValueModel>>::empty() == early);
            },
            None => {},
        }
    } else {
        lemma_run_through_concat(first, second.drop_last(), scope);
        assert((first + second).drop_last() == first + second.drop_last());
        assert((first + second).last() == second.last());
        match run_through(first, scope) {
            Some((between, early)) => match run_through(second.drop_last(), between) {
                Some((before, late)) => {
                    match second.last() {
                        Stmt::Freeze(emission) => match emission_value(emission, before) {
                            Some(value) => {
                                assert((early + late).push(value) == early + late.push(value));
                            },
                            None => {},
                        },
                        _ => {},
                    }
                },
                None => {},
            },
            None => {},
        }
    }
}

/// Statements without a marker among them run through as they run, and
/// hand back nothing on the way.
proof fn lemma_run_through_plain(stmts: Seq<Stmt>, scope: ScopeModel)
    requires
        forall|j: int| 0 <= j < stmts.len() ==> !(#[trigger] stmts[j] is Freeze),
    ensures
        run_through(stmts, scope) == match run_all(stmts, scope) {
            Some(after) => Some((after, Seq::<Option<ValueModel>>::empty())),
            None => None,
        },
    decreases stmts.len(),
{
    if stmts.len() > 0 {
        let shorter = stmts.drop_last();
        assert forall|j: int| 0 <= j < shorter.len() implies !(#[trigger] shorter[j] is Freeze) by {
            assert(shorter[j] == stmts[j]);
        }
        lemma_run_through_plain(shorter, scope);
        assert(!(stmts[stmts.len() - 1] is Freeze));
    }
}

/// Statements bring the names of their `let`s into scope and no others,
/// and keep one value per name.
proof fn lemma_run_all_names(stmts: Seq<Stmt>, scope: ScopeModel)
    requires
        run_all(stmts, scope) is Some,
    ensures
        run_all(stmts, scope)->0.names == scope.names + let_names(stmts),
        scope.names.len() == scope.values.len() ==> run_all(stmts, scope)->0.names.len()
            == run_all(stmts, scope)->0.values.len(),
    decreases stmts.len(),
{
    if stmts.len() == 0 {
        assert(scope.names + let_names(stmts) == scope.names);
    } else {
        let shorter = stmts.drop_last();
        lemma_run_all_names(shorter, scope);
        let before = run_all(shorter, scope)->0;
        match stmts.last() {
            Stmt::Let { bindings, values } => {
                lemma_eval_all_len(values@, before);
                assert(scope.names + let_names(shorter) + bound_names(bindings@) == scope.names
                    + (let_names(shorter) + bound_names(bindings@)));
            },
            Stmt::Assign { target, .. } => {
                lemma_lookup_bound(before.names, target@);
            },
            Stmt::Append { target, .. } => {
                lemma_lookup_bound(before.names, target@);
            },
            Stmt::Truncate { target, .. } => {
                lemma_lookup_bound(before.names, target@);
            },
            Stmt::Freeze(_) => {},
        }
    }
}

/// From the start of any chunk on, the machine hands back what the rest of
/// the body hands back when it is run straight through in the same scope.
proof fn lemma_payloads_from(
    procedure: Procedure,
    machine: StateMachine,
    index: int,
    scope: ScopeModel,
)
    requires
        lowers(machine, procedure),
        forall|i: int|
            0 <= i < emissions(procedure.body@).len() ==> fault_at(
                variables(procedure.parameters@),
                procedure.body@,
                i,
            ) is None,
        0 <= index < machine.chunks.len(),
        scope.names == names(
            capture_set(variables(procedure.parameters@), chunks(procedure.body@), index),
        ),
        scope.names.len() == scope.values.len(),
    ensures
        payloads(machine, index, scope.values) == finish(
            run_through(suffix(chunks(procedure.body@), emissions(procedure.body@), index), scope),
            procedure.result,
        ),
    decreases machine.chunks.len() - index,
{
    let parameters = variables(procedure.parameters@);
    let body = procedure.body@;
    let bodies = chunks(body);
    let markers = emissions(body);
    let last = bodies.len() - 1;
    let chunk = machine.chunks[index];
    lemma_chunk_count(body);
    lemma_chunks_hold_no_marker(body);
    assert(chunk.body@ == bodies[index]);
    assert(variables(chunk.captures@) == capture_set(parameters, bodies, index));
    assert(contents(filled(scope.values)) == scope.values);
    assert(entry_scope(chunk, scope.values) == scope);
    lemma_run_through_plain(bodies[index], scope);
    if index == last {
        assert(chunk.exit == (Exit::Finish { result: procedure.result }));
    } else {
        let marker = markers[index];
        let rest = suffix(bodies, markers, index + 1);
        assert(chunk.exit == (Exit::Freeze { emission: emitted(marker) }));
        assert(fault_at(parameters, body, index) is None);
        lemma_run_through_concat(bodies[index] + seq![Stmt::Freeze(marker)], rest, scope);
        lemma_run_through_concat(bodies[index], seq![Stmt::Freeze(marker)], scope);
        match run_all(bodies[index], scope) {
            Some(after) => {
                lemma_run_all_names(bodies[index], scope);
                lemma_declared_names(bodies[index]);
                let earlier = capture_set(parameters, bodies, index);
                let later = capture_set(parameters, bodies, index + 1);
                assert(later == earlier + declared(bodies[index]));
                assert(names(later) == names(earlier) + names(declared(bodies[index])));
                assert(after.names == names(later));
                assert(emission_valid(marker, later));
                assert(seq![Stmt::Freeze(marker)].drop_last() == Seq::<Stmt>::empty());
                assert(seq![Stmt::Freeze(marker)].last() == Stmt::Freeze(marker));
                assert(emission_value(marker, after) == Some(
                    emitted_value(emitted(marker), after),
                ));
                let handed = emitted_value(emitted(marker), after);
                reveal_with_fuel(run_through, 2);
                assert(run_through(seq![Stmt::Freeze(marker)], after) == Some(
                    (after, Seq::<Option<ValueModel>>::empty().push(handed)),
                ));
                assert(Seq::<Option<ValueModel>>::empty() + Seq::<Option<ValueModel>>::empty().push(
                    handed,
                ) == seq![handed]);
                assert(contents(filled(after.values)) == after.values);
                lemma_payloads_from(procedure, machine, index + 1, after);
            },
            None => {},
        }
    }
}

/// From the start of any chunk on, the machine can run to its end exactly
/// when stepping it yields an outcome.
proof fn lemma_runs_from(procedure: Procedure, machine: StateMachine, index: int, scope: ScopeModel)
    requires
        lowers(machine, procedure),
        forall|i: int|
            0 <= i < emissions(procedure.body@).len() ==> fault_at(
                variables(procedure.parameters@),
                procedure.body@,
                i,
            ) is None,
        0 <= index < machine.chunks.len(),
        scope.names == names(
            capture_set(variables(procedure.parameters@), chunks(procedure.body@), index),
        ),
        scope.names.len() == scope.values.len(),
    ensures
        runs_from(machine, index, scope.values) == (payloads(machine, index, scope.values) is Some),
    decreases machine.chunks.len() - index,
{
    let parameters = variables(procedure.parameters@);
    let body = procedure.body@;
    let bodies = chunks(body);
    let markers = emissions(body);
    let last = bodies.len() - 1;
    let chunk = machine.chunks[index];
    lemma_chunk_count(body);
    assert(chunk.body@ == bodies[index]);
    assert(variables(chunk.captures@) == capture_set(parameters, bodies, index));
    assert(contents(filled(scope.values)) == scope.values);
    assert(entry_scope(chunk, scope.values) == scope);
    if index == last {
        assert(chunk.exit == (Exit::Finish { result: procedure.result }));
    } else {
        let marker = markers[index];
        assert(chunk.exit == (Exit::Freeze { emission: emitted(marker) }));
        assert(fault_at(parameters, body, index) is None);
        match run_all(bodies[index], scope) {
            Some(after) => {
                lemma_run_all_names(bodies[index], scope);
                lemma_declared_names(bodies[index]);
                let earlier = capture_set(parameters, bodies, index);
                let later = capture_set(parameters, bodies, index + 1);
                assert(later == earlier + declared(bodies[index]));
                assert(names(later) == names(earlier) + names(declared(bodies[index])));
                assert(after.names == names(later));
                assert(emission_valid(marker, later));
                assert(contents(filled(after.values)) == after.values);
                lemma_runs_from(procedure, machine, index + 1, after);
            },
            None => {},
        }
    }
}

/// An instance of a lowered machine that starts on the given arguments can
/// be stepped to its end exactly when the procedure, run straight through on
/// those arguments, has an outcome.
pub proof fn lemma_runs_when_procedure_runs(
    procedure: Procedure,
    machine: StateMachine,
    arguments: Seq<ValueModel>,
)
    requires
        lowers(machine, procedure),
        forall|i: int|
            0 <= i < emissions(procedure.body@).len() ==> fault_at(
                variables(procedure.parameters@),
                procedure.body@,
                i,
            ) is None,
        arguments.len() == procedure.parameters.len(),
    ensures
        runs_from(machine, 0, arguments) == (direct(procedure, arguments) is Some),
{
    let scope = ScopeModel { names: names(variables(procedure.parameters@)), values: arguments };
    lemma_chunk_count(procedure.body@);
    lemma_runs_from(procedure, machine, 0, scope);
    lemma_lowering_keeps_outcome(procedure, machine, arguments);
}

/// The lowering keeps what a procedure hands back: stepped from its start
/// until it finishes, the machine that a procedure lowers to yields the
/// partial results and the final result that the procedure yields when it
/// is run straight through on the same arguments; and where one of the two
/// cannot run to its end, neither can the other.
pub proof fn lemma_lowering_keeps_outcome(
    procedure: Procedure,
    machine: StateMachine,
    arguments: Seq<ValueModel>,
)
    requires
        lowers(machine, procedure),
        forall|i: int|
            0 <= i < emissions(procedure.body@).len() ==> fault_at(
                variables(procedure.parameters@),
                procedure.body@,
                i,
            ) is None,
        arguments.len() == procedure.parameters.len(),
    ensures
        payloads(machine, 0, arguments) == direct(procedure, arguments),
{
    let scope = ScopeModel { names: names(variables(procedure.parameters@)), values: arguments };
    lemma_chunk_count(procedure.body@);
    lemma_suffix_whole(procedure.body@);
    lemma_payloads_from(procedure, machine, 0, scope);
}

} // verus!
