use vstd::prelude::*;
use crate::coerce::{Coercion, coercion, target_of, coerce_to_type, str_eq};
use crate::evaluator::{RuntimeError, evaluate, evaluated};
use crate::expression::Expression;
use crate::parser::ParsedBlock;
use crate::value::Value;

verus! {

/// The binding of `n` among `s`: the value and declared type of the last
/// entry named `n`.
pub open spec fn lookup(s: Seq<(String, Value, String)>, n: Seq<char>) -> Option<(Value, Seq<char>)>
    decreases s.len(),
{
    if s.len() == 0 {
        None
    } else if s.last().0@ == n {
        Some((s.last().1, s.last().2@))
    } else {
        lookup(s.drop_last(), n)
    }
}

proof fn lemma_lookup_update(
    s: Seq<(String, Value, String)>,
    k: int,
    e: (String, Value, String),
    m: Seq<char>,
)
    requires
        0 <= k < s.len(),
        s[k].0@ == e.0@,
        forall|j: int| k < j < s.len() ==> (#[trigger] s[j]).0@ != e.0@,
    ensures
        lookup(s.update(k, e), m) == if m == e.0@ {
            Some((e.1, e.2@))
        } else {
            lookup(s, m)
        },
    decreases s.len(),
{
    let u = s.update(k, e);
    if k < s.len() - 1 {
        assert(u.drop_last() =~= s.drop_last().update(k, e));
        lemma_lookup_update(s.drop_last(), k, e, m);
    } else {
        assert(u.drop_last() =~= s.drop_last());
    }
}

/// `after` is `before` with `name` bound to `value` and the declared type `t`.
pub open spec fn declared(before: Runtime, after: Runtime, name: Seq<char>, value: Value, t: Seq<char>) -> bool {
    forall|n: Seq<char>|
        #[trigger] after.binding(n) == if n == name {
            Some((value, t))
        } else {
            before.binding(n)
        }
}

/// `after` binds every name as `before` does.
pub open spec fn unchanged(before: Runtime, after: Runtime) -> bool {
    forall|n: Seq<char>| #[trigger] after.binding(n) == before.binding(n)
}

/// What assigning `value` to `name` does to the store `before`.
pub open spec fn assigned(
    before: Runtime,
    after: Runtime,
    name: Seq<char>,
    value: Value,
    r: Result<(), RuntimeError>,
) -> bool {
    match before.binding(name) {
        None => r matches Err(RuntimeError::VariableNotFound { name: n }) && n@ == name && unchanged(
            before,
            after,
        ),
        Some((_, t)) => match coercion(target_of(t), value) {
            Coercion::To(x) => r is Ok && declared(before, after, name, x, t),
            Coercion::NeedsFloat => r matches Err(RuntimeError::FloatingPoint) && unchanged(
                before,
                after,
            ),
            Coercion::NoRule => r matches Err(RuntimeError::TypeMismatch { expected, found })
                && expected@ == t && found == value && unchanged(before, after),
        },
    }
}

/// Assigning to a name that was never declared fails with
/// `VariableNotFound` and leaves the store as it was.
pub proof fn lemma_set_undeclared_fails(
    before: Runtime,
    after: Runtime,
    name: Seq<char>,
    value: Value,
    r: Result<(), RuntimeError>,
)
    requires
        before.binding(name) is None,
        assigned(before, after, name, value, r),
    ensures
        r matches Err(RuntimeError::VariableNotFound { name: n }) && n@ == name,
        unchanged(before, after),
{
}

/// Declaring a name twice keeps only the second binding: reading the name
/// afterwards gives the newest value and type, and other names keep theirs.
pub proof fn lemma_redeclare_replaces(
    r0: Runtime,
    r1: Runtime,
    r2: Runtime,
    name: Seq<char>,
    v1: Value,
    t1: Seq<char>,
    v2: Value,
    t2: Seq<char>,
)
    requires
        declared(r0, r1, name, v1, t1),
        declared(r1, r2, name, v2, t2),
    ensures
        r2.binding(name) == Some((v2, t2)),
        forall|n: Seq<char>| n != name ==> #[trigger] r2.binding(n) == r0.binding(n),
{
    assert(r2.binding(name) == Some((v2, t2)));
    assert forall|n: Seq<char>| n != name implies #[trigger] r2.binding(n) == r0.binding(n) by {
        assert(r2.binding(n) == r1.binding(n));
    }
}

/// The variables of a running program: each name bound to a value and the
/// type it was declared with.
pub struct Runtime {
    variables: Vec<(String, Value, String)>,
}

impl Runtime {
    /// The value and declared type bound to `name`.
    pub closed spec fn binding(&self, name: Seq<char>) -> Option<(Value, Seq<char>)> {
        lookup(self.variables@, name)
    }

    /// Each name has a single entry.
    pub closed spec fn wf(&self) -> bool {
        forall|i: int, j: int|
            0 <= i < j < self.variables@.len() ==> (#[trigger] self.variables@[i]).0@ != (
            #[trigger] self.variables@[j]).0@
    }

    pub fn new() -> (r: Runtime)
        ensures
            r.wf(),
            forall|n: Seq<char>| r.binding(n) is None,
    {
        Runtime { variables: Vec::new() }
    }

    /// Index of the entry that binds `name`.
    fn find(&self, name: &str) -> (r: Option<usize>)
        ensures
            match r {
                Some(k) => k < self.variables@.len() && self.variables@[k as int].0@ == name@
                    && (forall|j: int|
                    k < j < self.variables@.len() ==> (#[trigger] self.variables@[j]).0@ != name@)
                    && self.binding(name@) == Some(
                    (self.variables@[k as int].1, self.variables@[k as int].2@),
                ),
                None => self.binding(name@) is None && forall|j: int|
                    0 <= j < self.variables@.len() ==> (#[trigger] self.variables@[j]).0@ != name@,
            },
    {
        let ghost s = self.variables@;
        let mut i: usize = self.variables.len();
        assert(s.subrange(0, i as int) =~= s);
        while i > 0
            invariant
                i <= s.len(),
                s == self.variables@,
                forall|j: int| i <= j < s.len() ==> (#[trigger] s[j]).0@ != name@,
                lookup(s.subrange(0, i as int), name@) == lookup(s, name@),
            decreases i,
        {
            let entry = &self.variables[i - 1];
            assert(s.subrange(0, i as int).drop_last() =~= s.subrange(0, i - 1));
            if str_eq(entry.0.as_str(), name) {
                return Some(i - 1);
            }
            i = i - 1;
        }
        assert(s.subrange(0, 0) =~= Seq::<(String, Value, String)>::empty());
        None
    }

    /// Binds `name` to `value` with the declared type `actualType`, replacing
    /// any earlier binding of the name.
    pub fn declare_variable(&mut self, name: String, value: Value, actualType: String)
        requires
            old(self).wf(),
        ensures
            final(self).wf(),
            declared(*old(self), *final(self), name@, value, actualType@),
    {
        let ghost old_vars = self.variables@;
        let ghost nm = name@;
        let ghost v = value;
        let ghost t = actualType@;
        match self.find(name.as_str()) {
            Some(k) => {
                let ghost e = (name, value, actualType);
                proof {
                    assert forall|n: Seq<char>| lookup(old_vars.update(k as int, e), n) == (if n == nm {
                        Some((v, t))
                    } else {
                        lookup(old_vars, n)
                    }) by {
                        lemma_lookup_update(old_vars, k as int, e, n);
                    }
                }
                self.variables.set(k, (name, value, actualType));
                assert(self.variables@ == old_vars.update(k as int, e));
                assert(forall|j: int|
                    0 <= j < old_vars.len() ==> (#[trigger] self.variables@[j]).0@ == old_vars[j].0@);
            },
            None => {
                self.variables.push((name, value, actualType));
                assert(self.variables@.drop_last() =~= old_vars);
                assert(forall|j: int|
                    0 <= j < old_vars.len() ==> (#[trigger] self.variables@[j]) == old_vars[j]);
            },
        }
    }

    /// The value bound to `name`.
    pub fn get_variable(&self, name: &str) -> (r: Option<&Value>)
        ensures
            match self.binding(name@) {
                Some((v, _)) => r matches Some(x) && *x == v,
                None => r is None,
            },
    {
        match self.find(name) {
            Some(k) => Some(&self.variables[k].1),
            None => None,
        }
    }

    /// The type `name` was declared with.
    pub fn getVarType(&self, name: &str) -> (r: Option<&String>)
        ensures
            match self.binding(name@) {
                Some((_, t)) => r matches Some(x) && x@ == t,
                None => r is None,
            },
    {
        match self.find(name) {
            Some(k) => Some(&self.variables[k].2),
            None => None,
        }
    }

    /// Assigns to a declared variable: the value is coerced to the type the
    /// variable was declared with, which stays. An undeclared name, or a
    /// value that does not coerce, leaves the store as it was.
    pub fn set_variable(&mut self, name: String, value: Value) -> (r: Result<(), RuntimeError>)
        requires
            old(self).wf(),
        ensures
            final(self).wf(),
            assigned(*old(self), *final(self), name@, value, r),
    {
        let ghost old_vars = self.variables@;
        match self.find(name.as_str()) {
            None => Err(RuntimeError::VariableNotFound { name }),
            Some(k) => {
                let coerced = coerce_to_type(value, self.variables[k].2.as_str());
                match coerced {
                    Err(e) => Err(e),
                    Ok(x) => {
                        let declared = self.variables[k].2.clone();
                        let ghost e = (name, x, declared);
                        proof {
                            assert forall|m: Seq<char>|
                                lookup(old_vars.update(k as int, e), m) == (if m == name@ {
                                    Some((x, declared@))
                                } else {
                                    lookup(old_vars, m)
                                }) by {
                                lemma_lookup_update(old_vars, k as int, e, m);
                            }
                        }
                        self.variables.set(k, (name, x, declared));
                        assert(self.variables@ == old_vars.update(k as int, e));
                        assert(forall|j: int|
                            0 <= j < old_vars.len() ==> (#[trigger] self.variables@[j]).0@
                                == old_vars[j].0@);
                        Ok(())
                    },
                }
            },
        }
    }
}

/// What a running program reports to its host.
#[derive(Debug)]
pub enum Event {
    /// A print statement's value.
    Printed(Value),
    /// A name was read that no declaration bound; `Null` stood in for it.
    VariableNotFound(String),
}

/// One `VariableNotFound` for each name that `e` reads and `rt` does not
/// bind, left to right.
pub open spec fn missing_events(e: Expression, rt: Runtime) -> Seq<Event>
    decreases e,
{
    match e {
        Expression::Variable(n) => if rt.binding(n@) is None {
            seq![Event::VariableNotFound(n)]
        } else {
            Seq::empty()
        },
        Expression::BinaryOp { left, right, .. } => missing_events(*left, rt) + missing_events(
            *right,
            rt,
        ),
        _ => Seq::empty(),
    }
}

/// What running `pb` on the store `before` reports: the names its value
/// reads without a binding, and for a print the value printed (`Null`,
/// after a `VariableNotFound`, for an undeclared name).
pub open spec fn step_events(before: Runtime, pb: ParsedBlock) -> Seq<Event> {
    match pb {
        ParsedBlock::VarDec { value, .. } => missing_events(value, before),
        ParsedBlock::VarSet { name, value } => if before.binding(name@) is None {
            Seq::empty()
        } else {
            missing_events(value, before)
        },
        ParsedBlock::PrintVar { name } => match before.binding(name@) {
            Some((v, _)) => seq![Event::Printed(v)],
            None => seq![Event::VariableNotFound(name), Event::Printed(Value::Null)],
        },
        _ => Seq::empty(),
    }
}

/// Appends the `VariableNotFound` events of `expr`.
fn note_missing(expr: &Expression, rt: &Runtime, events: &mut Vec<Event>)
    ensures
        final(events)@ == old(events)@ + missing_events(*expr, *rt),
    decreases expr,
{
    match expr {
        Expression::Variable(n) => {
            if rt.get_variable(n.as_str()).is_none() {
                events.push(Event::VariableNotFound(n.clone()));
            }
        },
        Expression::BinaryOp { left, right, .. } => {
            note_missing(left, rt, events);
            note_missing(right, rt, events);
        },
        _ => {},
    }
    assert(events@ =~= old(events)@ + missing_events(*expr, *rt));
}

/// What running the statement `pb` on the store `before` does: the store it
/// leaves, and `Err` when the statement stops the program.
pub open spec fn ran(before: Runtime, pb: ParsedBlock, after: Runtime, out: Result<(), RuntimeError>) -> bool {
    match pb {
        ParsedBlock::VarDec { name, datatype, value, .. } => match out {
            Err(e) => evaluated(value, before, Some(datatype@), Err(e)) && unchanged(before, after),
            Ok(_) => {
                &&& after.binding(name@) matches Some((x, _))
                &&& evaluated(value, before, Some(datatype@), Ok(x))
                &&& declared(before, after, name@, x, datatype@)
            },
        },
        ParsedBlock::VarSet { name, value } => match before.binding(name@) {
            None => out matches Err(RuntimeError::VariableNotFound { name: n }) && n@ == name@
                && unchanged(before, after),
            Some((_, t)) => {
                ||| (out matches Err(e) && evaluated(value, before, Some(t), Err(e)) && unchanged(
                    before,
                    after,
                ))
                ||| exists|x: Value|
                    evaluated(value, before, Some(t), Ok(x)) && #[trigger] assigned(
                        before,
                        after,
                        name@,
                        x,
                        out,
                    )
            },
        },
        _ => unchanged(before, after) && out is Ok,
    }
}

/// Runs one statement: a declaration evaluates its value against its
/// declared type and binds it; an assignment evaluates against the
/// variable's declared type and stores; a print reports the variable's value.
/// Control blocks and unrecognised statements do nothing. What the statement
/// reports is appended to `events`, also when it stops the program.
pub fn execute_statement(rt: &mut Runtime, pb: &ParsedBlock, events: &mut Vec<Event>) -> (r: Result<(), RuntimeError>)
    requires
        old(rt).wf(),
    ensures
        final(rt).wf(),
        ran(*old(rt), *pb, *final(rt), r),
        final(events)@ == old(events)@ + step_events(*old(rt), *pb),
{
    match pb {
        ParsedBlock::VarDec { name, datatype, value, .. } => {
            note_missing(value, rt, events);
            match evaluate(value, rt, Some(datatype)) {
                Err(e) => Err(e),
                Ok(x) => {
                    rt.declare_variable(name.clone(), x, datatype.clone());
                    Ok(())
                },
            }
        },
        ParsedBlock::VarSet { name, value } => {
            let declared_type = match rt.getVarType(name.as_str()) {
                None => {
                    assert(events@ =~= old(events)@ + step_events(*old(rt), *pb));
                    return Err(RuntimeError::VariableNotFound { name: name.clone() });
                },
                Some(t) => t.clone(),
            };
            note_missing(value, rt, events);
            match evaluate(value, rt, Some(&declared_type)) {
                Err(e) => Err(e),
                Ok(x) => {
                    let ghost before = *rt;
                    let res = rt.set_variable(name.clone(), x);
                    assert(assigned(before, *rt, name@, x, res));
                    res
                },
            }
        },
        ParsedBlock::PrintVar { name } => {
            match rt.get_variable(name.as_str()) {
                Some(v) => {
                    events.push(Event::Printed(v.copy()));
                },
                None => {
                    events.push(Event::VariableNotFound(name.clone()));
                    events.push(Event::Printed(Value::Null));
                },
            }
            assert(events@ =~= old(events)@ + step_events(*old(rt), *pb));
            Ok(())
        },
        _ => {
            assert(events@ =~= old(events)@ + step_events(*old(rt), *pb));
            Ok(())
        },
    }
}

/// `states` and `outs` record a run of `code` from a store that binds
/// nothing: each statement ran on the store the previous one left, and the
/// run went on until the end or the first error.
pub open spec fn program_ran(
    code: Seq<ParsedBlock>,
    states: Seq<Runtime>,
    outs: Seq<Result<(), RuntimeError>>,
) -> bool {
    &&& states.len() == outs.len() + 1
    &&& outs.len() <= code.len()
    &&& forall|n: Seq<char>| #[trigger] states[0].binding(n) is None
    &&& forall|i: int| 0 <= i < outs.len() ==> ran(states[i], code[i], states[i + 1], #[trigger] outs[i])
    &&& forall|i: int| 0 <= i < outs.len() - 1 ==> (#[trigger] outs[i]) is Ok
    &&& outs.len() == code.len() || (outs.len() > 0 && outs.last() is Err)
}

/// What the first `n` statements of a run reported, in order.
pub open spec fn run_events(code: Seq<ParsedBlock>, states: Seq<Runtime>, n: int) -> Seq<Event>
    decreases n,
{
    if n <= 0 {
        Seq::empty()
    } else {
        run_events(code, states, n - 1) + step_events(states[n - 1], code[n - 1])
    }
}

/// The outcome of running a program: what it reported, and the error that
/// stopped it, if one did.
#[derive(Debug)]
pub struct Run {
    pub events: Vec<Event>,
    pub outcome: Result<(), RuntimeError>,
}

/// Runs a program from an empty store, statement by statement, until the end
/// or the first error. What was reported before an error is kept.
pub fn jruntime(code: Vec<ParsedBlock>) -> (r: Run)
    ensures
        exists|states: Seq<Runtime>, outs: Seq<Result<(), RuntimeError>>|
            #[trigger] program_ran(code@, states, outs) && r.events@ == run_events(
                code@,
                states,
                outs.len() as int,
            ) && match r.outcome {
                Ok(_) => outs.len() == code@.len() && (outs.len() == 0 || outs.last() is Ok),
                Err(e) => outs.len() > 0 && outs.last() == Err::<(), RuntimeError>(e),
            },
{
    let mut variables = Runtime::new();
    let mut events: Vec<Event> = Vec::new();
    let ghost mut states: Seq<Runtime> = seq![variables];
    let ghost mut outs: Seq<Result<(), RuntimeError>> = Seq::empty();
    let mut i: usize = 0;
    while i < code.len()
        invariant
            i <= code@.len(),
            variables.wf(),
            states.len() == outs.len() + 1,
            outs.len() == i,
            states.last() == variables,
            forall|n: Seq<char>| #[trigger] states[0].binding(n) is None,
            forall|j: int| 0 <= j < outs.len() ==> ran(states[j], code@[j], states[j + 1], #[trigger] outs[j]),
            forall|j: int| 0 <= j < outs.len() ==> (#[trigger] outs[j]) is Ok,
            events@ == run_events(code@, states, i as int),
        decreases code@.len() - i,
    {
        let ghost prev_states = states;
        let res = execute_statement(&mut variables, &code[i], &mut events);
        proof {
            states = states.push(variables);
            outs = outs.push(res);
            assert(run_events(code@, states, i as int) == run_events(code@, prev_states, i as int))
                by {
                lemma_run_events_prefix(code@, prev_states, states, i as int);
            }
        }
        match res {
            Err(e) => {
                assert(program_ran(code@, states, outs));
                return Run { events, outcome: Err(e) };
            },
            Ok(_) => {},
        }
        i = i + 1;
    }
    assert(program_ran(code@, states, outs));
    Run { events, outcome: Ok(()) }
}

proof fn lemma_run_events_prefix(code: Seq<ParsedBlock>, a: Seq<Runtime>, b: Seq<Runtime>, n: int)
    requires
        n <= a.len(),
        n <= b.len(),
        forall|j: int| 0 <= j < n ==> a[j] == b[j],
    ensures
        run_events(code, a, n) == run_events(code, b, n),
    decreases n,
{
    if n > 0 {
        lemma_run_events_prefix(code, a, b, n - 1);
    }
}

} // verus!
