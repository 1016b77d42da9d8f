use vstd::prelude::*;
use crate::text::{contains_str, has_str};
use crate::formula::{Formula, FormulaV, Step, Leg, Var, VarV};

verus! {

/// A structural rule of formulas that a value breaks.
#[derive(Clone, Debug)]
pub enum SchemaError {
    EmptyName,
    EmptyDescription,
    DuplicateVar(String),
    EmptyEnum(String),
    EmptyStepId,
    DuplicateStep(String),
    SelfDependency(String),
    EmptyLegId,
    DuplicateLeg(String),
    /// Found where text is read: a `type` that names no kind.
    UnknownType(String),
    /// Found where text is read: a negative `version`.
    NegativeVersion,
}

/// Why formula text could not become a formula.
#[derive(Clone, Debug)]
pub enum ParseError {
    SyntaxError(String),
    Schema(SchemaError),
}

pub open spec fn enum_ok(v: VarV) -> bool {
    match v.enum_values {
        Some(e) => e.len() > 0,
        None => true,
    }
}

/// The structural rules every formula obeys.
pub open spec fn well_formed(f: FormulaV) -> bool {
    &&& f.name.len() > 0
    &&& f.description.len() > 0
    &&& forall|i: int, j: int| 0 <= i < j < f.vars.len() ==> f.vars[i].name != f.vars[j].name
    &&& forall|k: int| 0 <= k < f.vars.len() ==> enum_ok(#[trigger] f.vars[k])
    &&& forall|k: int| 0 <= k < f.steps.len() ==> (#[trigger] f.steps[k]).id.len() > 0
    &&& forall|i: int, j: int| 0 <= i < j < f.steps.len() ==> f.steps[i].id != f.steps[j].id
    &&& forall|k: int|
        0 <= k < f.steps.len() ==> !contains_str((#[trigger] f.steps[k]).needs, f.steps[k].id)
    &&& forall|k: int| 0 <= k < f.legs.len() ==> (#[trigger] f.legs[k]).id.len() > 0
    &&& forall|i: int, j: int| 0 <= i < j < f.legs.len() ==> f.legs[i].id != f.legs[j].id
}

/// `e` names a rule that `f` actually breaks.
pub open spec fn breaks(f: FormulaV, e: SchemaError) -> bool {
    match e {
        SchemaError::EmptyName => f.name.len() == 0,
        SchemaError::EmptyDescription => f.description.len() == 0,
        SchemaError::DuplicateVar(n) => exists|i: int, j: int|
            0 <= i < j < f.vars.len() && f.vars[i].name == n@ && f.vars[j].name == n@,
        SchemaError::EmptyEnum(n) => exists|k: int|
            0 <= k < f.vars.len() && f.vars[k].name == n@ && !enum_ok(f.vars[k]),
        SchemaError::EmptyStepId => exists|k: int| 0 <= k < f.steps.len() && f.steps[k].id.len() == 0,
        SchemaError::DuplicateStep(n) => exists|i: int, j: int|
            0 <= i < j < f.steps.len() && f.steps[i].id == n@ && f.steps[j].id == n@,
        SchemaError::SelfDependency(n) => exists|k: int|
            0 <= k < f.steps.len() && f.steps[k].id == n@ && contains_str(f.steps[k].needs, n@),
        SchemaError::EmptyLegId => exists|k: int| 0 <= k < f.legs.len() && f.legs[k].id.len() == 0,
        SchemaError::DuplicateLeg(n) => exists|i: int, j: int|
            0 <= i < j < f.legs.len() && f.legs[i].id == n@ && f.legs[j].id == n@,
        SchemaError::UnknownType(_) => false,
        SchemaError::NegativeVersion => false,
    }
}

fn check_vars(vars: &Vec<Var>) -> (r: Result<(), SchemaError>)
    ensures
        r is Ok <==> ((forall|a: int, b: int|
            0 <= a < b < vars@.len() ==> vars@[a]@.name != vars@[b]@.name)
            && forall|k: int| 0 <= k < vars@.len() ==> enum_ok(#[trigger] vars@[k]@)),
        r matches Err(e) ==> breaks_vars(vars@, e),
{
    let mut i: usize = 0;
    while i < vars.len()
        invariant
            i <= vars@.len(),
            forall|a: int, b: int| 0 <= a < b < i ==> vars@[a]@.name != vars@[b]@.name,
            forall|k: int| 0 <= k < i ==> enum_ok(#[trigger] vars@[k]@),
        decreases vars.len() - i,
    {
        let mut j: usize = 0;
        while j < i
            invariant
                i < vars@.len(),
                j <= i,
                forall|b: int| 0 <= b < j ==> vars@[b]@.name != vars@[i as int]@.name,
            decreases i - j,
        {
            if vars[j].name == vars[i].name {
                assert(vars@[j as int]@.name == vars@[i as int]@.name);
                return Err(SchemaError::DuplicateVar(vars[i].name.clone()));
            }
            j = j + 1;
        }
        if let Some(e) = &vars[i].enum_values {
            if e.len() == 0 {
                assert(!enum_ok(vars@[i as int]@));
                return Err(SchemaError::EmptyEnum(vars[i].name.clone()));
            }
        }
        i = i + 1;
    }
    Ok(())
}

pub open spec fn breaks_vars(vars: Seq<Var>, e: SchemaError) -> bool {
    match e {
        SchemaError::DuplicateVar(n) => exists|i: int, j: int|
            0 <= i < j < vars.len() && vars[i]@.name == n@ && vars[j]@.name == n@,
        SchemaError::EmptyEnum(n) => exists|k: int|
            0 <= k < vars.len() && vars[k]@.name == n@ && !enum_ok(vars[k]@),
        _ => false,
    }
}

pub open spec fn breaks_steps(steps: Seq<Step>, e: SchemaError) -> bool {
    match e {
        SchemaError::EmptyStepId => exists|k: int| 0 <= k < steps.len() && steps[k]@.id.len() == 0,
        SchemaError::DuplicateStep(n) => exists|i: int, j: int|
            0 <= i < j < steps.len() && steps[i]@.id == n@ && steps[j]@.id == n@,
        SchemaError::SelfDependency(n) => exists|k: int|
            0 <= k < steps.len() && steps[k]@.id == n@ && contains_str(steps[k]@.needs, n@),
        _ => false,
    }
}

fn check_steps(steps: &Vec<Step>) -> (r: Result<(), SchemaError>)
    ensures
        r is Ok <==> ((forall|k: int| 0 <= k < steps@.len() ==> (#[trigger] steps@[k])@.id.len() > 0)
            && (forall|a: int, b: int| 0 <= a < b < steps@.len() ==> steps@[a]@.id != steps@[b]@.id)
            && forall|k: int| 0 <= k < steps@.len()
                ==> !contains_str((#[trigger] steps@[k])@.needs, steps@[k]@.id)),
        r matches Err(e) ==> breaks_steps(steps@, e),
{
    let mut i: usize = 0;
    while i < steps.len()
        invariant
            i <= steps@.len(),
            forall|k: int| 0 <= k < i ==> (#[trigger] steps@[k])@.id.len() > 0,
            forall|a: int, b: int| 0 <= a < b < i ==> steps@[a]@.id != steps@[b]@.id,
            forall|k: int| 0 <= k < i ==> !contains_str((#[trigger] steps@[k])@.needs, steps@[k]@.id),
        decreases steps.len() - i,
    {
        if steps[i].id.as_str().unicode_len() == 0 {
            assert(steps@[i as int]@.id.len() == 0);
            return Err(SchemaError::EmptyStepId);
        }
        let mut j: usize = 0;
        while j < i
            invariant
                i < steps@.len(),
                j <= i,
                forall|b: int| 0 <= b < j ==> steps@[b]@.id != steps@[i as int]@.id,
            decreases i - j,
        {
            if steps[j].id == steps[i].id {
                assert(steps@[j as int]@.id == steps@[i as int]@.id);
                return Err(SchemaError::DuplicateStep(steps[i].id.clone()));
            }
            j = j + 1;
        }
        if has_str(&steps[i].needs, &steps[i].id) {
            return Err(SchemaError::SelfDependency(steps[i].id.clone()));
        }
        i = i + 1;
    }
    Ok(())
}

pub open spec fn breaks_legs(legs: Seq<Leg>, e: SchemaError) -> bool {
    match e {
        SchemaError::EmptyLegId => exists|k: int| 0 <= k < legs.len() && legs[k]@.id.len() == 0,
        SchemaError::DuplicateLeg(n) => exists|i: int, j: int|
            0 <= i < j < legs.len() && legs[i]@.id == n@ && legs[j]@.id == n@,
        _ => false,
    }
}

fn check_legs(legs: &Vec<Leg>) -> (r: Result<(), SchemaError>)
    ensures
        r is Ok <==> ((forall|k: int| 0 <= k < legs@.len() ==> (#[trigger] legs@[k])@.id.len() > 0)
            && forall|a: int, b: int| 0 <= a < b < legs@.len() ==> legs@[a]@.id != legs@[b]@.id),
        r matches Err(e) ==> breaks_legs(legs@, e),
{
    let mut i: usize = 0;
    while i < legs.len()
        invariant
            i <= legs@.len(),
            forall|k: int| 0 <= k < i ==> (#[trigger] legs@[k])@.id.len() > 0,
            forall|a: int, b: int| 0 <= a < b < i ==> legs@[a]@.id != legs@[b]@.id,
        decreases legs.len() - i,
    {
        if legs[i].id.as_str().unicode_len() == 0 {
            assert(legs@[i as int]@.id.len() == 0);
            return Err(SchemaError::EmptyLegId);
        }
        let mut j: usize = 0;
        while j < i
            invariant
                i < legs@.len(),
                j <= i,
                forall|b: int| 0 <= b < j ==> legs@[b]@.id != legs@[i as int]@.id,
            decreases i - j,
        {
            if legs[j].id == legs[i].id {
                assert(legs@[j as int]@.id == legs@[i as int]@.id);
                return Err(SchemaError::DuplicateLeg(legs[i].id.clone()));
            }
            j = j + 1;
        }
        i = i + 1;
    }
    Ok(())
}

/// Checks a formula value against the structural rules: non-empty name and
/// description, unique variable names, non-empty enums, non-empty and unique
/// step and leg ids, and no step that needs itself.
pub fn check_formula(f: &Formula) -> (r: Result<(), SchemaError>)
    ensures
        r is Ok <==> well_formed(f@),
        r matches Err(e) ==> breaks(f@, e),
{
    if f.name.as_str().unicode_len() == 0 {
        return Err(SchemaError::EmptyName);
    }
    if f.description.as_str().unicode_len() == 0 {
        return Err(SchemaError::EmptyDescription);
    }
    let ghost v = f@;
    assert(forall|k: int| 0 <= k < f.vars@.len() ==> v.vars[k] == (#[trigger] f.vars@[k])@);
    assert(forall|k: int| 0 <= k < f.steps@.len() ==> v.steps[k] == (#[trigger] f.steps@[k])@);
    assert(forall|k: int| 0 <= k < f.legs@.len() ==> v.legs[k] == (#[trigger] f.legs@[k])@);
    match check_vars(&f.vars) {
        Err(e) => { return Err(e); },
        Ok(()) => {},
    }
    match check_steps(&f.steps) {
        Err(e) => { return Err(e); },
        Ok(()) => {},
    }
    match check_legs(&f.legs) {
        Err(e) => { return Err(e); },
        Ok(()) => {},
    }
    Ok(())
}

} // verus!
