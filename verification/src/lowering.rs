//! The lowering engine: turns a procedure with suspension markers into the
//! description of a state machine that runs it one chunk per step.

use crate::procedure::{
    bound_names, chunks, declared, emissions, lacks_type, let_names, lookup, marker_count, names,
    typed, variables, Binding, Emission, Expr, Procedure, Stmt, Variable, VariableModel,
};
use vstd::prelude::*;

verus! {

/// How a chunk ends.
#[derive(Debug, PartialEq, Eq)]
pub enum Exit {
    /// The machine moves on to the next chunk and hands back `Frozen`, with
    /// the value of the named variable if there is one.
    Freeze { emission: Option<String> },
    /// The machine moves to its finished state and hands back `Finished`
    /// with the value of the expression.
    Finish { result: Expr },
}

/// One resumption point of the machine and the transition that starts there.
///
/// `captures` are the variables that the state holds when the machine
/// resumes at this chunk; the transition takes them out of the state, runs
/// `body` and leaves as `exit` says.
#[derive(Debug, PartialEq, Eq)]
pub struct Chunk {
    pub captures: Vec<Variable>,
    pub body: Vec<Stmt>,
    pub exit: Exit,
}

/// The state machine for a procedure: one chunk per resumption point. The
/// finished and the cancelled state are common to all machines and hold
/// nothing.
#[derive(Debug, PartialEq, Eq)]
pub struct StateMachine {
    pub chunks: Vec<Chunk>,
}

/// Why a procedure cannot be lowered.
#[derive(Debug, PartialEq, Eq)]
pub enum LoweringError {
    /// A variable that lives across a suspension has no declared type.
    MissingType,
    /// A suspension marker hands back something other than a variable that
    /// is declared at that point.
    InvalidEmission,
}

/// The capture set of chunk `index`: the variables that are alive when the
/// machine resumes there. The first chunk captures the parameters; every
/// later chunk captures what the chunk before it captures and, after those,
/// the variables declared in that chunk. Nothing is ever dropped.
pub open spec fn capture_set(
    parameters: Seq<VariableModel>,
    bodies: Seq<Seq<Stmt>>,
    index: int,
) -> Seq<VariableModel>
    decreases index,
{
    if index <= 0 {
        parameters
    } else {
        capture_set(parameters, bodies, index - 1) + declared(bodies[index - 1])
    }
}

/// The marker hands back nothing or a variable that is among `scope`.
pub open spec fn emission_valid(emission: Emission, scope: Seq<VariableModel>) -> bool {
    match emission {
        Emission::Silent => true,
        Emission::Variable(name) => lookup(names(scope), name@) is Some,
        Emission::Expression => false,
    }
}

/// The variable that a marker hands back, if any.
pub open spec fn emitted(emission: Emission) -> Option<String> {
    match emission {
        Emission::Variable(name) => Some(name),
        _ => None,
    }
}

/// Some `let` among the statements leaves out a type.
pub open spec fn any_lacks_type(stmts: Seq<Stmt>) -> bool {
    exists|j: int| 0 <= j < stmts.len() && lacks_type(#[trigger] stmts[j])
}

/// What is wrong at the suspension that ends chunk `index`, if anything: a
/// variable declared in the chunk has no type, or else the marker is not
/// valid in the scope that the next chunk captures.
pub open spec fn fault_at(
    parameters: Seq<VariableModel>,
    body: Seq<Stmt>,
    index: int,
) -> Option<LoweringError> {
    if any_lacks_type(chunks(body)[index]) {
        Some(LoweringError::MissingType)
    } else if !emission_valid(
        emissions(body)[index],
        capture_set(parameters, chunks(body), index + 1),
    ) {
        Some(LoweringError::InvalidEmission)
    } else {
        None
    }
}

/// The suspension that ends chunk `index` is the first one at which
/// something is wrong.
pub open spec fn first_fault_at(parameters: Seq<VariableModel>, body: Seq<Stmt>, index: int) -> bool {
    &&& 0 <= index < emissions(body).len()
    &&& fault_at(parameters, body, index) is Some
    &&& forall|earlier: int| 0 <= earlier < index ==> fault_at(parameters, body, earlier) is None
}

/// The machine is the lowering of the procedure: one chunk per run of
/// statements between markers, each with its capture set and its exit.
pub open spec fn lowers(machine: StateMachine, procedure: Procedure) -> bool {
    let bodies = chunks(procedure.body@);
    let last = bodies.len() - 1;
    &&& machine.chunks.len() == bodies.len()
    &&& forall|i: int|
        0 <= i <= last ==> {
            &&& variables((#[trigger] machine.chunks[i]).captures@) == capture_set(
                variables(procedure.parameters@),
                bodies,
                i,
            )
            &&& machine.chunks[i].body@ == bodies[i]
        }
    &&& forall|i: int|
        0 <= i < last ==> (#[trigger] machine.chunks[i]).exit == (Exit::Freeze {
            emission: emitted(emissions(procedure.body@)[i]),
        })
    &&& machine.chunks[last].exit == (Exit::Finish { result: procedure.result })
}

impl StateMachine {
    /// The chunks are chained: all but the last end in a suspension, whose
    /// variable is captured by the next chunk; each chunk captures the names
    /// of the chunk before it followed by the names that chunk brings into
    /// scope; the last chunk finishes.
    pub open spec fn well_formed(&self) -> bool {
        &&& self.chunks.len() >= 1
        &&& forall|i: int|
            0 <= i < self.chunks.len() - 1 ==> {
                &&& (#[trigger] self.chunks[i]).exit is Freeze
                &&& names(variables(self.chunks[i + 1].captures@)) == names(
                    variables(self.chunks[i].captures@),
                ) + let_names(self.chunks[i].body@)
                &&& match self.chunks[i].exit {
                    Exit::Freeze { emission: Some(name) } => lookup(
                        names(variables(self.chunks[i + 1].captures@)),
                        name@,
                    ) is Some,
                    _ => true,
                }
            }
        &&& self.chunks[self.chunks.len() - 1].exit is Finish
    }
}

/// A body has one chunk more than it has markers, and one emission per
/// marker.
pub proof fn lemma_chunk_count(stmts: Seq<Stmt>)
    ensures
        chunks(stmts).len() == marker_count(stmts) + 1,
        emissions(stmts).len() == marker_count(stmts),
    decreases stmts.len(),
{
    if stmts.len() > 0 {
        lemma_chunk_count(stmts.drop_last());
    }
}

/// A capture set depends only on the chunks before it.
proof fn lemma_capture_set_prefix(
    parameters: Seq<VariableModel>,
    bodies: Seq<Seq<Stmt>>,
    others: Seq<Seq<Stmt>>,
    index: int,
)
    requires
        index <= bodies.len(),
        index <= others.len(),
        forall|i: int| 0 <= i < index ==> bodies[i] == others[i],
    ensures
        capture_set(parameters, bodies, index) == capture_set(parameters, others, index),
    decreases index,
{
    if index > 0 {
        lemma_capture_set_prefix(parameters, bodies, others, index - 1);
    }
}

/// Where every `let` gives its types, the variables declared with a type are
/// all the names brought into scope.
pub proof fn lemma_declared_names(stmts: Seq<Stmt>)
    requires
        !any_lacks_type(stmts),
    ensures
        names(declared(stmts)) == let_names(stmts),
    decreases stmts.len(),
{
    if stmts.len() > 0 {
        let before = stmts.drop_last();
        assert forall|j: int| 0 <= j < before.len() implies !lacks_type(#[trigger] before[j]) by {
            assert(before[j] == stmts[j]);
        }
        lemma_declared_names(before);
        assert(!lacks_type(stmts[stmts.len() - 1]));
        match stmts.last() {
            Stmt::Let { bindings, .. } => {
                lemma_typed_names(bindings@);
                assert(names(declared(before) + typed(bindings@)) == names(declared(before))
                    + names(typed(bindings@)));
            },
            _ => {},
        }
    } else {
        assert(names(declared(stmts)) == let_names(stmts));
    }
}

/// Where every binding has a type, the typed ones are all of them.
proof fn lemma_typed_names(bindings: Seq<Binding>)
    requires
        forall|i: int| 0 <= i < bindings.len() ==> (#[trigger] bindings[i]).ty is Some,
    ensures
        names(typed(bindings)) == bound_names(bindings),
        typed(bindings).len() == bindings.len(),
    decreases bindings.len(),
{
    if bindings.len() > 0 {
        let before = bindings.drop_last();
        assert forall|i: int| 0 <= i < before.len() implies (#[trigger] before[i]).ty is Some by {
            assert(before[i] == bindings[i]);
        }
        lemma_typed_names(before);
        let last = bindings[bindings.len() - 1];
        assert(last.ty is Some);
        assert(bound_names(bindings) == bound_names(before).push(last.name@));
        assert(names(typed(bindings)) == names(typed(before)).push(last.name@));
    } else {
        assert(names(typed(bindings)) == bound_names(bindings));
    }
}

/// The chunks that a prefix of a body has closed, and the emissions of its
/// markers, are those of the whole body.
proof fn lemma_chunks_prefix(stmts: Seq<Stmt>, n: int)
    requires
        0 <= n <= stmts.len(),
    ensures
        chunks(stmts.take(n)).len() <= chunks(stmts).len(),
        emissions(stmts.take(n)).len() <= emissions(stmts).len(),
        forall|i: int|
            0 <= i < chunks(stmts.take(n)).len() - 1 ==> #[trigger] chunks(stmts)[i] == chunks(
                stmts.take(n),
            )[i],
        forall|i: int|
            0 <= i < emissions(stmts.take(n)).len() ==> #[trigger] emissions(stmts)[i]
                == emissions(stmts.take(n))[i],
    decreases stmts.len() - n,
{
    if n < stmts.len() {
        let shorter = stmts.drop_last();
        assert(shorter.take(n) == stmts.take(n));
        lemma_chunks_prefix(shorter, n);
        lemma_chunk_count(shorter);
        lemma_chunk_count(stmts.take(n));
    } else {
        assert(stmts.take(n) == stmts);
    }
}

/// A copy of a list of variables.
fn duplicate_variables(list: &Vec<Variable>) -> (copy: Vec<Variable>)
    ensures
        variables(copy@) == variables(list@),
{
    let mut copy: Vec<Variable> = Vec::new();
    let mut done: usize = 0;
    while done < list.len()
        invariant
            done <= list.len(),
            variables(copy@) == variables(list@).take(done as int),
        decreases list.len() - done,
    {
        let variable = Variable { name: list[done].name.clone(), ty: list[done].ty.clone() };
        assert(variables(copy@.push(variable)) == variables(copy@).push(variable@));
        assert(variables(list@).take(done + 1) == variables(list@).take(done as int).push(
            list@[done as int]@,
        ));
        copy.push(variable);
        done = done + 1;
    }
    assert(variables(list@).take(done as int) == variables(list@));
    copy
}

/// Adds the typed variables of a `let` to those that are alive, and tells
/// whether the `let` leaves out a type.
fn declare(live: &mut Vec<Variable>, bindings: &Vec<Binding>) -> (untyped: bool)
    ensures
        variables(final(live)@) == variables(old(live)@) + typed(bindings@),
        untyped == exists|i: int| 0 <= i < bindings.len() && (#[trigger] bindings[i]).ty is None,
{
    let mut untyped = false;
    let mut done: usize = 0;
    assert(bindings@.take(0) == Seq::<Binding>::empty());
    assert(variables(live@) + Seq::<VariableModel>::empty() == variables(live@));
    while done < bindings.len()
        invariant
            done <= bindings.len(),
            variables(live@) == variables(old(live)@) + typed(bindings@.take(done as int)),
            untyped == exists|i: int| 0 <= i < done && (#[trigger] bindings[i]).ty is None,
        decreases bindings.len() - done,
    {
        let ghost longer = bindings@.take(done + 1);
        assert(longer.drop_last() == bindings@.take(done as int));
        assert(longer.last() == bindings@[done as int]);
        match &bindings[done].ty {
            Some(ty) => {
                let variable = Variable { name: bindings[done].name.clone(), ty: ty.clone() };
                assert(variables(live@.push(variable)) == variables(live@).push(variable@));
                live.push(variable);
            },
            None => {
                untyped = true;
            },
        }
        done = done + 1;
    }
    assert(bindings@.take(done as int) == bindings@);
    untyped
}

/// A name is in scope exactly when some variable has it.
proof fn lemma_lookup_some(list: Seq<Seq<char>>, name: Seq<char>)
    ensures
        lookup(list, name) is Some <==> exists|i: int| 0 <= i < list.len() && list[i] == name,
    decreases list.len(),
{
    if list.len() > 0 {
        lemma_lookup_some(list.drop_last(), name);
        if list.last() == name {
            assert(list[list.len() - 1] == name);
        } else if lookup(list.drop_last(), name) is Some {
            let i = choose|i: int| 0 <= i < list.drop_last().len() && list.drop_last()[i] == name;
            assert(list[i] == name);
        } else {
            assert forall|i: int| 0 <= i < list.len() implies list[i] != name by {
                if i < list.len() - 1 {
                    assert(list.drop_last()[i] == list[i]);
                }
            }
        }
    }
}

/// Whether one of the variables has the given name.
fn in_scope(live: &Vec<Variable>, name: &String) -> (found: bool)
    ensures
        found == (lookup(names(variables(live@)), name@) is Some),
{
    let mut done: usize = 0;
    while done < live.len()
        invariant
            done <= live.len(),
            forall|i: int| 0 <= i < done ==> names(variables(live@))[i] != name@,
        decreases live.len() - done,
    {
        if live[done].name.eq(name) {
            proof {
                lemma_lookup_some(names(variables(live@)), name@);
                assert(names(variables(live@))[done as int] == name@);
            }
            return true;
        }
        done = done + 1;
    }
    proof {
        lemma_lookup_some(names(variables(live@)), name@);
    }
    false
}

/// What is known of a chunk that the lowering has closed, with respect to
/// the statements read so far.
spec fn closed_chunk(
    parameters: Seq<VariableModel>,
    read: Seq<Stmt>,
    chunk: Chunk,
    index: int,
) -> bool {
    &&& variables(chunk.captures@) == capture_set(parameters, chunks(read), index)
    &&& chunk.body@ == chunks(read)[index]
    &&& chunk.exit == (Exit::Freeze { emission: emitted(emissions(read)[index]) })
    &&& fault_at(parameters, read, index) is None
}

/// The state of the lowering after it has read the statements `read`:
/// `done` are the closed chunks, `current` the statements of the open chunk,
/// `captures` its capture set and `live` the variables declared so far.
spec fn lowering_state(
    parameters: Seq<VariableModel>,
    read: Seq<Stmt>,
    done: Seq<Chunk>,
    captures: Seq<Variable>,
    live: Seq<Variable>,
    current: Seq<Stmt>,
    untyped: bool,
) -> bool {
    &&& done.len() + 1 == chunks(read).len()
    &&& done.len() == emissions(read).len()
    &&& current == chunks(read)[done.len() as int]
    &&& forall|i: int| 0 <= i < done.len() ==> closed_chunk(parameters, read, #[trigger] done[i], i)
    &&& variables(captures) == capture_set(parameters, chunks(read), done.len() as int)
    &&& variables(live) == variables(captures) + declared(current)
    &&& untyped == any_lacks_type(current)
}

/// What holds of a closed chunk with respect to a prefix of a body holds of
/// it with respect to the body.
proof fn lemma_fault_prefix(parameters: Seq<VariableModel>, stmts: Seq<Stmt>, n: int, index: int)
    requires
        0 <= n <= stmts.len(),
        0 <= index < chunks(stmts.take(n)).len() - 1,
    ensures
        index < chunks(stmts).len() - 1,
        index < emissions(stmts).len(),
        chunks(stmts)[index] == chunks(stmts.take(n))[index],
        emissions(stmts)[index] == emissions(stmts.take(n))[index],
        capture_set(parameters, chunks(stmts), index) == capture_set(
            parameters,
            chunks(stmts.take(n)),
            index,
        ),
        capture_set(parameters, chunks(stmts), index + 1) == capture_set(
            parameters,
            chunks(stmts.take(n)),
            index + 1,
        ),
        fault_at(parameters, stmts, index) == fault_at(parameters, stmts.take(n), index),
{
    lemma_chunks_prefix(stmts, n);
    lemma_chunk_count(stmts);
    lemma_chunk_count(stmts.take(n));
    lemma_capture_set_prefix(parameters, chunks(stmts), chunks(stmts.take(n)), index);
    lemma_capture_set_prefix(parameters, chunks(stmts), chunks(stmts.take(n)), index + 1);
}

/// Reading a statement that is no marker extends the open chunk.
proof fn lemma_read_statement(
    parameters: Seq<VariableModel>,
    read: Seq<Stmt>,
    stmt: Stmt,
    done: Seq<Chunk>,
    captures: Seq<Variable>,
    live: Seq<Variable>,
    longer_live: Seq<Variable>,
    current: Seq<Stmt>,
    untyped: bool,
)
    requires
        lowering_state(parameters, read, done, captures, live, current, untyped),
        !(stmt is Freeze),
        variables(longer_live) == variables(live) + match stmt {
            Stmt::Let { bindings, .. } => typed(bindings@),
            _ => Seq::empty(),
        },
    ensures
        lowering_state(
            parameters,
            read.push(stmt),
            done,
            captures,
            longer_live,
            current.push(stmt),
            untyped || lacks_type(stmt),
        ),
{
    let longer = read.push(stmt);
    assert(longer.drop_last() == read);
    assert(longer.take(read.len() as int) == read);
    lemma_any_lacks_type_push(current, stmt);
    assert(current.push(stmt).drop_last() == current);
    assert forall|i: int| 0 <= i < done.len() implies closed_chunk(
        parameters,
        longer,
        #[trigger] done[i],
        i,
    ) by {
        assert(closed_chunk(parameters, read, done[i], i));
        lemma_fault_prefix(parameters, longer, read.len() as int, i);
    }
    lemma_capture_set_prefix(parameters, chunks(longer), chunks(read), done.len() as int);
    assert(variables(captures) + (declared(current) + match stmt {
        Stmt::Let { bindings, .. } => typed(bindings@),
        _ => Seq::empty(),
    }) == variables(captures) + declared(current) + match stmt {
        Stmt::Let { bindings, .. } => typed(bindings@),
        _ => Seq::empty(),
    });
    assert(declared(current) + Seq::<VariableModel>::empty() == declared(current));
}

/// What reading a marker finds: the fault at the suspension that it ends is
/// decided by the open chunk and the variables declared so far, and no
/// earlier suspension has a fault, whatever the body goes on with.
proof fn lemma_read_marker(
    parameters: Seq<VariableModel>,
    whole: Seq<Stmt>,
    position: int,
    done: Seq<Chunk>,
    captures: Seq<Variable>,
    live: Seq<Variable>,
    current: Seq<Stmt>,
    untyped: bool,
)
    requires
        0 <= position < whole.len(),
        whole[position] is Freeze,
        lowering_state(parameters, whole.take(position), done, captures, live, current, untyped),
    ensures
        done.len() < emissions(whole).len(),
        forall|i: int| 0 <= i < done.len() ==> fault_at(parameters, whole, i) is None,
        fault_at(parameters, whole, done.len() as int) == fault_at(
            parameters,
            whole.take(position + 1),
            done.len() as int,
        ),
        chunks(whole.take(position + 1))[done.len() as int] == current,
        emissions(whole.take(position + 1))[done.len() as int] == whole[position]->Freeze_0,
        capture_set(parameters, chunks(whole.take(position + 1)), done.len() as int + 1) == variables(
            live,
        ),
        capture_set(parameters, chunks(whole.take(position + 1)), done.len() as int) == variables(
            captures,
        ),
{
    let read = whole.take(position);
    let longer = whole.take(position + 1);
    let closed = done.len() as int;
    assert(longer.drop_last() == read);
    assert(longer.last() == whole[position]);
    assert(longer.take(position) == read);
    lemma_fault_prefix(parameters, whole, position + 1, closed);
    assert forall|i: int| 0 <= i < closed implies fault_at(parameters, whole, i) is None by {
        assert(closed_chunk(parameters, read, done[i], i));
        lemma_fault_prefix(parameters, whole, position, i);
    }
    lemma_capture_set_prefix(parameters, chunks(longer), chunks(read), closed);
}

/// Closing the open chunk at a marker without fault.
proof fn lemma_close_chunk(
    parameters: Seq<VariableModel>,
    read: Seq<Stmt>,
    marker: Stmt,
    done: Seq<Chunk>,
    captures: Seq<Variable>,
    live: Seq<Variable>,
    current: Seq<Stmt>,
    chunk: Chunk,
    next: Seq<Variable>,
)
    requires
        lowering_state(parameters, read, done, captures, live, current, false),
        marker is Freeze,
        chunk.captures@ == captures,
        chunk.body@ == current,
        chunk.exit == (Exit::Freeze { emission: emitted(marker->Freeze_0) }),
        emission_valid(marker->Freeze_0, variables(live)),
        variables(next) == variables(live),
    ensures
        lowering_state(
            parameters,
            read.push(marker),
            done.push(chunk),
            next,
            live,
            Seq::empty(),
            false,
        ),
{
    let longer = read.push(marker);
    let closed = done.len() as int;
    assert(longer.drop_last() == read);
    assert(longer.take(read.len() as int) == read);
    lemma_capture_set_prefix(parameters, chunks(longer), chunks(read), closed);
    assert forall|i: int| 0 <= i < done.push(chunk).len() implies closed_chunk(
        parameters,
        longer,
        #[trigger] done.push(chunk)[i],
        i,
    ) by {
        if i < closed {
            assert(closed_chunk(parameters, read, done[i], i));
            lemma_fault_prefix(parameters, longer, read.len() as int, i);
        }
    }
    assert(variables(live) + declared(Seq::<Stmt>::empty()) == variables(live));
}

/// Adding the last chunk to the closed ones gives the lowering of the
/// procedure, and a machine whose chunks are chained.
proof fn lemma_finish(procedure: Procedure, machine: StateMachine, done: Seq<Chunk>, last: Chunk)
    requires
        exists|live: Seq<Variable>|
            lowering_state(
                variables(procedure.parameters@),
                procedure.body@,
                done,
                last.captures@,
                live,
                last.body@,
                any_lacks_type(last.body@),
            ),
        last.exit == (Exit::Finish { result: procedure.result }),
        machine.chunks@ == done.push(last),
    ensures
        forall|i: int|
            0 <= i < emissions(procedure.body@).len() ==> fault_at(
                variables(procedure.parameters@),
                procedure.body@,
                i,
            ) is None,
        lowers(machine, procedure),
        machine.well_formed(),
{
    let parameters = variables(procedure.parameters@);
    let whole = procedure.body@;
    let closed = done.len() as int;
    assert forall|i: int| 0 <= i < closed implies {
        &&& fault_at(parameters, whole, i) is None
        &&& closed_chunk(parameters, whole, machine.chunks[i], i)
    } by {
        assert(closed_chunk(parameters, whole, done[i], i));
        assert(machine.chunks@[i] == done[i]);
    }
    assert forall|i: int| 0 <= i < closed implies {
        &&& (#[trigger] machine.chunks[i]).exit is Freeze
        &&& names(variables(machine.chunks[i + 1].captures@)) == names(
            variables(machine.chunks[i].captures@),
        ) + let_names(machine.chunks[i].body@)
        &&& match machine.chunks[i].exit {
            Exit::Freeze { emission: Some(name) } => lookup(
                names(variables(machine.chunks[i + 1].captures@)),
                name@,
            ) is Some,
            _ => true,
        }
    } by {
        assert(closed_chunk(parameters, whole, machine.chunks[i], i));
        assert(machine.chunks@[i + 1] == done.push(last)[i + 1]);
        if i + 1 < closed {
            assert(closed_chunk(parameters, whole, done[i + 1], i + 1));
        }
        lemma_declared_names(chunks(whole)[i]);
        let earlier = capture_set(parameters, chunks(whole), i);
        let later = capture_set(parameters, chunks(whole), i + 1);
        assert(later == earlier + declared(chunks(whole)[i]));
        assert(names(later) == names(earlier) + names(declared(chunks(whole)[i])));
    }
    assert(machine.chunks@[closed] == last);
}

/// Lowers a procedure to its state machine.
///
/// The body is cut at its suspension markers: `k` markers give `k + 1`
/// chunks. Each chunk gets its capture set, its statements and its exit. The
/// lowering fails at the first suspension where a variable declared in the
/// chunk before it has no type, or whose marker does not name a variable
/// declared by then; of the two, the missing type is reported.
pub fn lower(procedure: Procedure) -> (lowered: Result<StateMachine, LoweringError>)
    ensures
        match lowered {
            Ok(machine) => {
                &&& forall|i: int|
                    0 <= i < emissions(procedure.body@).len() ==> fault_at(
                        variables(procedure.parameters@),
                        procedure.body@,
                        i,
                    ) is None
                &&& lowers(machine, procedure)
                &&& machine.well_formed()
                &&& machine.chunks.len() == marker_count(procedure.body@) + 1
            },
            Err(error) => exists|i: int|
                first_fault_at(variables(procedure.parameters@), procedure.body@, i) && fault_at(
                    variables(procedure.parameters@),
                    procedure.body@,
                    i,
                ) == Some(error),
        },
{
    let ghost parameters = variables(procedure.parameters@);
    let ghost whole = procedure.body@;
    let Procedure { parameters: captures, body, result } = procedure;
    let mut captures = captures;
    let mut live = duplicate_variables(&captures);
    let mut done: Vec<Chunk> = Vec::new();
    let mut current: Vec<Stmt> = Vec::new();
    let mut untyped = false;
    proof {
        assert(whole.take(0) == Seq::<Stmt>::empty());
        assert(variables(live@) + declared(current@) == variables(live@));
    }
    for stmt in it: body
        invariant
            whole == body@,
            whole == procedure.body@,
            parameters == variables(procedure.parameters@),
            lowering_state(
                parameters,
                whole.take(it.index() as int),
                done@,
                captures@,
                live@,
                current@,
                untyped,
            ),
    {
        let ghost position = it.index() as int;
        let ghost read = whole.take(position);
        proof {
            assert(whole.take(position + 1) == read.push(stmt));
        }
        match stmt {
            Stmt::Freeze(emission) => {
                proof {
                    lemma_read_marker(
                        parameters,
                        whole,
                        position,
                        done@,
                        captures@,
                        live@,
                        current@,
                        untyped,
                    );
                }
                if untyped {
                    assert(fault_at(parameters, whole, done.len() as int) == Some(
                        LoweringError::MissingType,
                    ));
                    assert(first_fault_at(parameters, whole, done.len() as int));
                    return Err(LoweringError::MissingType);
                }
                let valid = match &emission {
                    Emission::Silent => true,
                    Emission::Variable(name) => in_scope(&live, name),
                    Emission::Expression => false,
                };
                assert(valid == emission_valid(emission, variables(live@)));
                if !valid {
                    assert(fault_at(parameters, whole, done.len() as int) == Some(
                        LoweringError::InvalidEmission,
                    ));
                    assert(first_fault_at(parameters, whole, done.len() as int));
                    return Err(LoweringError::InvalidEmission);
                }
                let next = duplicate_variables(&live);
                let emission = match emission {
                    Emission::Variable(name) => Some(name),
                    _ => None,
                };
                let chunk = Chunk { captures, body: current, exit: Exit::Freeze { emission } };
                proof {
                    lemma_close_chunk(
                        parameters,
                        read,
                        stmt,
                        done@,
                        chunk.captures@,
                        live@,
                        chunk.body@,
                        chunk,
                        next@,
                    );
                }
                done.push(chunk);
                captures = next;
                current = Vec::new();
                untyped = false;
            },
            Stmt::Let { bindings, values } => {
                let ghost earlier_live = live@;
                let ghost earlier = current@;
                let lacking = declare(&mut live, &bindings);
                current.push(Stmt::Let { bindings, values });
                proof {
                    lemma_read_statement(
                        parameters,
                        read,
                        stmt,
                        done@,
                        captures@,
                        earlier_live,
                        live@,
                        earlier,
                        untyped,
                    );
                }
                if lacking {
                    untyped = true;
                }
            },
            other => {
                let ghost earlier = current@;
                current.push(other);
                proof {
                    lemma_read_statement(
                        parameters,
                        read,
                        stmt,
                        done@,
                        captures@,
                        live@,
                        live@,
                        earlier,
                        untyped,
                    );
                }
            },
        }
    }
    proof {
        assert(whole.take(whole.len() as int) == whole);
    }
    let last = Chunk { captures, body: current, exit: Exit::Finish { result } };
    let ghost closed = done@;
    let ghost live = live@;
    done.push(last);
    let machine = StateMachine { chunks: done };
    proof {
        assert(lowering_state(
            parameters,
            whole,
            closed,
            last.captures@,
            live,
            last.body@,
            any_lacks_type(last.body@),
        ));
        lemma_finish(procedure, machine, closed, last);
        lemma_chunk_count(whole);
    }
    Ok(machine)
}

/// Adding a statement to a list adds its missing type to those of the list.
proof fn lemma_any_lacks_type_push(stmts: Seq<Stmt>, stmt: Stmt)
    ensures
        any_lacks_type(stmts.push(stmt)) == (any_lacks_type(stmts) || lacks_type(stmt)),
{
    let longer = stmts.push(stmt);
    if any_lacks_type(stmts) {
        let j = choose|j: int| 0 <= j < stmts.len() && lacks_type(#[trigger] stmts[j]);
        assert(lacks_type(longer[j]));
    }
    if lacks_type(stmt) {
        assert(lacks_type(longer[stmts.len() as int]));
    }
    if any_lacks_type(longer) {
        let j = choose|j: int| 0 <= j < longer.len() && lacks_type(#[trigger] longer[j]);
        if j < stmts.len() {
            assert(lacks_type(stmts[j]));
        }
    }
}

} // verus!
