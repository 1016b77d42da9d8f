use vstd::prelude::*;
use vstd::string::*;
use crate::text::{glob_match, glob_matches, contains_str, has_str, strs, copy_strings, copy_opt};
use crate::formula::{Formula, FormulaV, CookedFormula, CookedFormulaV, Step, StepV, Leg, LegV, Var, VarV, Synthesis, SynthesisV, pairs};

verus! {

/// Why a formula could not be cooked with the given bindings.
#[derive(Clone, Debug)]
pub enum CookError {
    MissingRequiredVar(String),
    PatternMismatch { name: String, value: String, pattern: String },
    InvalidEnumValue { name: String, value: String, allowed: Vec<String> },
    UnknownVariableReference(String),
}

pub ghost enum CookFault {
    MissingRequiredVar(Seq<char>),
    PatternMismatch(Seq<char>, Seq<char>, Seq<char>),
    InvalidEnumValue(Seq<char>, Seq<char>, Seq<Seq<char>>),
    UnknownVariableReference(Seq<char>),
}

impl View for CookError {
    type V = CookFault;

    open spec fn view(&self) -> CookFault {
        match self {
            CookError::MissingRequiredVar(n) => CookFault::MissingRequiredVar(n@),
            CookError::PatternMismatch { name, value, pattern } => CookFault::PatternMismatch(
                name@,
                value@,
                pattern@,
            ),
            CookError::InvalidEnumValue { name, value, allowed } => CookFault::InvalidEnumValue(
                name@,
                value@,
                strs(allowed@),
            ),
            CookError::UnknownVariableReference(n) => CookFault::UnknownVariableReference(n@),
        }
    }
}

/// The value bound to `name`: the first pair whose name matches.
pub open spec fn lookup(b: Seq<(Seq<char>, Seq<char>)>, name: Seq<char>) -> Option<Seq<char>>
    decreases b.len(),
{
    if b.len() == 0 {
        None
    } else if b[0].0 == name {
        Some(b[0].1)
    } else {
        lookup(b.drop_first(), name)
    }
}

/// The value a variable takes: the caller's binding; else its default; else
/// empty, unless the variable is required.
pub open spec fn value_var(v: VarV, b: Seq<(Seq<char>, Seq<char>)>) -> Result<Seq<char>, CookFault> {
    match lookup(b, v.name) {
        Some(x) => Ok(x),
        None => match v.default {
            Some(d) => Ok(d),
            None => if v.required {
                Err(CookFault::MissingRequiredVar(v.name))
            } else {
                Ok(Seq::empty())
            },
        },
    }
}

/// A value the caller supplied, checked against the variable's pattern, then
/// its enum. Defaults are not held to the pattern or enum.
pub open spec fn check_var(v: VarV, b: Seq<(Seq<char>, Seq<char>)>) -> Result<Seq<char>, CookFault> {
    match lookup(b, v.name) {
        Some(x) => {
            if v.pattern matches Some(p) && !glob_match(p, x) {
                Err(CookFault::PatternMismatch(v.name, x, v.pattern->0))
            } else if v.enum_values matches Some(e) && !contains_str(e, x) {
                Err(CookFault::InvalidEnumValue(v.name, x, v.enum_values->0))
            } else {
                Ok(x)
            }
        },
        None => Ok(Seq::empty()),
    }
}

/// One pass over a variable: resolving its value (`first`), or checking a
/// supplied value.
pub open spec fn step_var(v: VarV, b: Seq<(Seq<char>, Seq<char>)>, first: bool) -> Result<Seq<char>, CookFault> {
    if first {
        value_var(v, b)
    } else {
        check_var(v, b)
    }
}

/// One pass over all variables in declaration order: the values it gives,
/// or the fault of the first variable that fails it.
pub open spec fn pass_all(vars: Seq<VarV>, b: Seq<(Seq<char>, Seq<char>)>, first: bool) -> Result<
    Seq<(Seq<char>, Seq<char>)>,
    CookFault,
>
    decreases vars.len(),
{
    if vars.len() == 0 {
        Ok(Seq::empty())
    } else {
        match pass_all(vars.drop_last(), b, first) {
            Err(e) => Err(e),
            Ok(env) => match step_var(vars.last(), b, first) {
                Err(e) => Err(e),
                Ok(x) => Ok(env.push((vars.last().name, x))),
            },
        }
    }
}

/// Resolution in two passes: every variable gets its value (the first
/// required variable with neither binding nor default fails), and only then
/// are the supplied values checked against patterns and enums.
pub open spec fn resolve_all(vars: Seq<VarV>, b: Seq<(Seq<char>, Seq<char>)>) -> Result<
    Seq<(Seq<char>, Seq<char>)>,
    CookFault,
> {
    match pass_all(vars, b, true) {
        Err(e) => Err(e),
        Ok(env) => match pass_all(vars, b, false) {
            Err(e) => Err(e),
            Ok(_) => Ok(env),
        },
    }
}

fn find_binding(b: &Vec<(String, String)>, name: &String) -> (r: Option<usize>)
    ensures
        match r {
            Some(k) => k < b@.len() && lookup(pairs(b@), name@) == Some(b@[k as int].1@),
            None => lookup(pairs(b@), name@) is None,
        },
{
    let ghost p = pairs(b@);
    let mut i: usize = 0;
    assert(p.skip(0) =~= p);
    while i < b.len()
        invariant
            i <= b@.len(),
            p == pairs(b@),
            lookup(p, name@) == lookup(p.skip(i as int), name@),
        decreases b.len() - i,
    {
        assert(p.skip(i as int).drop_first() =~= p.skip(i as int + 1));
        if b[i].0 == *name {
            return Some(i);
        }
        i = i + 1;
    }
    None
}

fn step_one(v: &Var, b: &Vec<(String, String)>, first: bool) -> (r: Result<String, CookError>)
    ensures
        match r {
            Ok(x) => step_var(v@, pairs(b@), first) == Ok::<Seq<char>, CookFault>(x@),
            Err(e) => step_var(v@, pairs(b@), first) == Err::<Seq<char>, CookFault>(e@),
        },
{
    match find_binding(b, &v.name) {
        Some(k) => {
            let x = &b[k].1;
            if !first {
                if let Some(p) = &v.pattern {
                    if !glob_matches(p.as_str(), x.as_str()) {
                        return Err(
                            CookError::PatternMismatch {
                                name: v.name.clone(),
                                value: x.clone(),
                                pattern: p.clone(),
                            },
                        );
                    }
                }
                if let Some(e) = &v.enum_values {
                    if !has_str(e, x) {
                        return Err(
                            CookError::InvalidEnumValue {
                                name: v.name.clone(),
                                value: x.clone(),
                                allowed: copy_strings(e),
                            },
                        );
                    }
                }
            }
            Ok(x.clone())
        },
        None => {
            if !first {
                return Ok(String::new());
            }
            match &v.default {
                Some(d) => Ok(d.clone()),
                None => {
                    if v.required {
                        Err(CookError::MissingRequiredVar(v.name.clone()))
                    } else {
                        Ok(String::new())
                    }
                },
            }
        },
    }
}

fn run_pass(vars: &Vec<Var>, b: &Vec<(String, String)>, first: bool) -> (r: Result<Vec<(String, String)>, CookError>)
    ensures
        match r {
            Ok(env) => pass_all(vars@.map_values(|v: Var| v@), pairs(b@), first) == Ok::<_, CookFault>(pairs(env@)),
            Err(e) => pass_all(vars@.map_values(|v: Var| v@), pairs(b@), first) == Err::<Seq<(Seq<char>, Seq<char>)>, CookFault>(e@),
        },
{
    let ghost vs = vars@.map_values(|v: Var| v@);
    let mut env: Vec<(String, String)> = Vec::new();
    let mut i: usize = 0;
    assert(vs.subrange(0, 0) =~= Seq::<VarV>::empty());
    assert(pairs(env@) =~= Seq::empty());
    while i < vars.len()
        invariant
            i <= vars@.len(),
            vs == vars@.map_values(|v: Var| v@),
            pass_all(vs.subrange(0, i as int), pairs(b@), first) == Ok::<_, CookFault>(pairs(env@)),
        decreases vars.len() - i,
    {
        let ghost pre = vs.subrange(0, i as int + 1);
        assert(pre.drop_last() =~= vs.subrange(0, i as int));
        assert(pre.last() == vars@[i as int]@);
        match step_one(&vars[i], b, first) {
            Err(e) => {
                proof { lemma_pass_err_extends(vs, pairs(b@), first, i as int + 1); }
                return Err(e);
            },
            Ok(x) => {
                let ghost old_env = env@;
                env.push((vars[i].name.clone(), x));
                assert(pairs(env@) =~= pairs(old_env).push((vars@[i as int]@.name, x@)));
            },
        }
        i = i + 1;
    }
    assert(vs.subrange(0, vars@.len() as int) =~= vs);
    Ok(env)
}

fn resolve_vars(vars: &Vec<Var>, b: &Vec<(String, String)>) -> (r: Result<Vec<(String, String)>, CookError>)
    ensures
        match r {
            Ok(env) => resolve_all(vars@.map_values(|v: Var| v@), pairs(b@)) == Ok::<_, CookFault>(pairs(env@)),
            Err(e) => resolve_all(vars@.map_values(|v: Var| v@), pairs(b@)) == Err::<Seq<(Seq<char>, Seq<char>)>, CookFault>(e@),
        },
{
    let env = match run_pass(vars, b, true) {
        Err(e) => { return Err(e); },
        Ok(env) => env,
    };
    match run_pass(vars, b, false) {
        Err(e) => Err(e),
        Ok(_) => Ok(env),
    }
}

/// Once a prefix of the variables fails a pass, every longer prefix fails
/// it with the same fault.
pub proof fn lemma_pass_err_extends(vars: Seq<VarV>, b: Seq<(Seq<char>, Seq<char>)>, first: bool, k: int)
    requires
        0 <= k <= vars.len(),
        pass_all(vars.subrange(0, k), b, first) is Err,
    ensures
        pass_all(vars, b, first) == pass_all(vars.subrange(0, k), b, first),
    decreases vars.len() - k,
{
    if k < vars.len() {
        let next = vars.subrange(0, k + 1);
        assert(next.drop_last() =~= vars.subrange(0, k));
        lemma_pass_err_extends(vars, b, first, k + 1);
    } else {
        assert(vars.subrange(0, k) =~= vars);
    }
}

/// The first position at or after `k` where `}}` starts.
pub open spec fn close_from(t: Seq<char>, k: int) -> Option<int>
    decreases t.len() - k,
{
    if k < 0 || k + 1 >= t.len() {
        None
    } else if t[k] == '}' && t[k + 1] == '}' {
        Some(k)
    } else {
        close_from(t, k + 1)
    }
}

/// Whether a reference `{{name}}` starts at position `i` of `t`, closing at `c`.
pub open spec fn ref_at(t: Seq<char>, i: int, c: int) -> bool {
    &&& 0 <= i
    &&& i + 1 < t.len()
    &&& t[i] == '{'
    &&& t[i + 1] == '{'
    &&& close_from(t, i + 2) == Some(c)
    &&& i + 2 <= c
    &&& c + 2 <= t.len()
}

pub open spec fn prepend(o: Seq<char>, r: Result<Seq<char>, Seq<char>>) -> Result<Seq<char>, Seq<char>> {
    match r {
        Ok(x) => Ok(o + x),
        Err(e) => Err(e),
    }
}

/// The text from position `i` on with every reference `{{name}}` replaced by
/// the value bound to `name`, in one left-to-right pass that never rescans an
/// inserted value; or the first name that has no value. A `{{` with no
/// closing `}}` is kept as it is.
pub open spec fn subst_at(t: Seq<char>, i: int, env: Seq<(Seq<char>, Seq<char>)>) -> Result<
    Seq<char>,
    Seq<char>,
>
    decreases t.len() - i,
{
    if i < 0 || i >= t.len() {
        Ok(Seq::empty())
    } else if ref_at(t, i, close_from(t, i + 2)->0) {
        let c = close_from(t, i + 2)->0;
        match lookup(env, t.subrange(i + 2, c)) {
            None => Err(t.subrange(i + 2, c)),
            Some(v) => prepend(v, subst_at(t, c + 2, env)),
        }
    } else {
        prepend(seq![t[i]], subst_at(t, i + 1, env))
    }
}

/// `t` with its references substituted, or the first unknown name.
pub open spec fn subst(t: Seq<char>, env: Seq<(Seq<char>, Seq<char>)>) -> Result<Seq<char>, Seq<char>> {
    subst_at(t, 0, env)
}

fn find_close(t: &str, k: usize, n: usize) -> (r: Option<usize>)
    requires
        n == t@.len(),
    ensures
        match r {
            Some(c) => close_from(t@, k as int) == Some(c as int) && k <= c && c + 1 < n,
            None => close_from(t@, k as int) is None,
        },
{
    let mut j: usize = k;
    while n > 0 && j < n - 1
        invariant
            n == t@.len(),
            k <= j,
            close_from(t@, k as int) == close_from(t@, j as int),
        decreases n - j,
    {
        if t.get_char(j) == '}' && t.get_char(j + 1) == '}' {
            return Some(j);
        }
        j = j + 1;
    }
    None
}

/// Replaces every reference `{{name}}` in `t` by its value in `env`.
pub fn substitute(t: &str, env: &Vec<(String, String)>) -> (r: Result<String, String>)
    ensures
        match r {
            Ok(x) => subst(t@, pairs(env@)) == Ok::<Seq<char>, Seq<char>>(x@),
            Err(n) => subst(t@, pairs(env@)) == Err::<Seq<char>, Seq<char>>(n@),
        },
{
    let ghost e = pairs(env@);
    let n = t.unicode_len();
    let mut out = String::new();
    let mut i: usize = 0;
    while i < n
        invariant
            n == t@.len(),
            i <= n,
            e == pairs(env@),
            subst(t@, e) == prepend(out@, subst_at(t@, i as int, e)),
        decreases n - i,
    {
        let opens = i + 1 < n && t.get_char(i) == '{' && t.get_char(i + 1) == '{';
        let closed = if opens {
            find_close(t, i + 2, n)
        } else {
            None
        };
        match closed {
            Some(c) => {
                assert(opens);
                assert(ref_at(t@, i as int, c as int));
                let name = t.substring_char(i + 2, c).to_owned();
                match find_binding(env, &name) {
                    None => {
                        return Err(name);
                    },
                    Some(k) => {
                        let ghost before = out@;
                        out.append(env[k].1.as_str());
                        assert(before + (env@[k as int].1@ + subst_at(t@, c + 2, e)->Ok_0) =~= out@ + subst_at(t@, c + 2, e)->Ok_0);
                        i = c + 2;
                    },
                }
            },
            None => {
                assert(!ref_at(t@, i as int, close_from(t@, i + 2)->0));
                let ghost before = out@;
                out.append(t.substring_char(i, i + 1));
                assert(t@.subrange(i as int, i + 1) =~= seq![t@[i as int]]);
                assert(before + (seq![t@[i as int]] + subst_at(t@, i + 1, e)->Ok_0) =~= out@ + subst_at(t@, i + 1, e)->Ok_0);
                i = i + 1;
            },
        }
    }
    assert(out@ + Seq::<char>::empty() =~= out@);
    Ok(out)
}

pub open spec fn subst_step(s: StepV, env: Seq<(Seq<char>, Seq<char>)>) -> Result<StepV, Seq<char>> {
    match subst(s.title, env) {
        Err(n) => Err(n),
        Ok(t) => match subst(s.description, env) {
            Err(n) => Err(n),
            Ok(d) => Ok(
                StepV {
                    id: s.id,
                    title: t,
                    description: d,
                    needs: s.needs,
                    duration: s.duration,
                    requires: s.requires,
                },
            ),
        },
    }
}

pub open spec fn subst_steps(ss: Seq<StepV>, env: Seq<(Seq<char>, Seq<char>)>) -> Result<Seq<StepV>, Seq<char>>
    decreases ss.len(),
{
    if ss.len() == 0 {
        Ok(Seq::empty())
    } else {
        match subst_steps(ss.drop_last(), env) {
            Err(n) => Err(n),
            Ok(p) => match subst_step(ss.last(), env) {
                Err(n) => Err(n),
                Ok(x) => Ok(p.push(x)),
            },
        }
    }
}

pub open spec fn subst_leg(l: LegV, env: Seq<(Seq<char>, Seq<char>)>) -> Result<LegV, Seq<char>> {
    match subst(l.title, env) {
        Err(n) => Err(n),
        Ok(t) => match subst(l.focus, env) {
            Err(n) => Err(n),
            Ok(f) => match subst(l.description, env) {
                Err(n) => Err(n),
                Ok(d) => Ok(
                    LegV { id: l.id, title: t, focus: f, description: d, agent: l.agent, order: l.order },
                ),
            },
        },
    }
}

pub open spec fn subst_legs(ls: Seq<LegV>, env: Seq<(Seq<char>, Seq<char>)>) -> Result<Seq<LegV>, Seq<char>>
    decreases ls.len(),
{
    if ls.len() == 0 {
        Ok(Seq::empty())
    } else {
        match subst_legs(ls.drop_last(), env) {
            Err(n) => Err(n),
            Ok(p) => match subst_leg(ls.last(), env) {
                Err(n) => Err(n),
                Ok(x) => Ok(p.push(x)),
            },
        }
    }
}

pub open spec fn subst_synthesis(o: Option<SynthesisV>, env: Seq<(Seq<char>, Seq<char>)>) -> Result<
    Option<SynthesisV>,
    Seq<char>,
> {
    match o {
        None => Ok(None),
        Some(s) => match s.description {
            None => Ok(Some(s)),
            Some(d) => match subst(d, env) {
                Err(n) => Err(n),
                Ok(x) => Ok(
                    Some(SynthesisV { strategy: s.strategy, format: s.format, description: Some(x) }),
                ),
            },
        },
    }
}

/// The formula with every template field substituted (name, description,
/// step titles and descriptions, leg titles, focuses and descriptions, the
/// synthesis description), or the first unknown name in that order.
pub open spec fn subst_formula(f: FormulaV, env: Seq<(Seq<char>, Seq<char>)>) -> Result<FormulaV, Seq<char>> {
    match subst(f.name, env) {
        Err(n) => Err(n),
        Ok(name) => match subst(f.description, env) {
            Err(n) => Err(n),
            Ok(description) => match subst_steps(f.steps, env) {
                Err(n) => Err(n),
                Ok(steps) => match subst_legs(f.legs, env) {
                    Err(n) => Err(n),
                    Ok(legs) => match subst_synthesis(f.synthesis, env) {
                        Err(n) => Err(n),
                        Ok(synthesis) => Ok(
                            FormulaV {
                                name,
                                description,
                                formula_type: f.formula_type,
                                version: f.version,
                                legs,
                                synthesis,
                                steps,
                                vars: f.vars,
                            },
                        ),
                    },
                },
            },
        },
    }
}

/// What cooking `f` with bindings `b` gives: the resolved variables, then the
/// substituted formula, its original name kept apart.
pub open spec fn cook_view(f: FormulaV, b: Seq<(Seq<char>, Seq<char>)>) -> Result<CookedFormulaV, CookFault> {
    match resolve_all(f.vars, b) {
        Err(e) => Err(e),
        Ok(env) => match subst_formula(f, env) {
            Err(n) => Err(CookFault::UnknownVariableReference(n)),
            Ok(g) => Ok(CookedFormulaV { formula: g, cooked_vars: env, original_name: f.name }),
        },
    }
}

/// No two variables of the formula share a name.
pub open spec fn distinct_var_names(f: FormulaV) -> bool {
    forall|i: int, j: int| 0 <= i < j < f.vars.len() ==> f.vars[i].name != f.vars[j].name
}

/// `r` is what cooking `f` with bindings `b` at time `at` gives.
pub open spec fn cook_outcome(
    f: Formula,
    b: Seq<(String, String)>,
    at: Seq<char>,
    r: Result<CookedFormula, CookError>,
) -> bool {
    match r {
        Ok(c) => cook_view(f@, pairs(b)) == Ok::<CookedFormulaV, CookFault>(c@) && c.cooked_at@ == at,
        Err(e) => cook_view(f@, pairs(b)) == Err::<CookedFormulaV, CookFault>(e@),
    }
}

fn cook_step(s: &Step, env: &Vec<(String, String)>) -> (r: Result<Step, String>)
    ensures
        match r {
            Ok(x) => subst_step(s@, pairs(env@)) == Ok::<StepV, Seq<char>>(x@),
            Err(n) => subst_step(s@, pairs(env@)) == Err::<StepV, Seq<char>>(n@),
        },
{
    let title = match substitute(s.title.as_str(), env) {
        Err(n) => { return Err(n); },
        Ok(t) => t,
    };
    let description = match substitute(s.description.as_str(), env) {
        Err(n) => { return Err(n); },
        Ok(d) => d,
    };
    let r = Step {
        id: s.id.clone(),
        title,
        description,
        needs: copy_strings(&s.needs),
        duration: s.duration,
        requires: copy_strings(&s.requires),
    };
    Ok(r)
}

fn cook_leg(l: &Leg, env: &Vec<(String, String)>) -> (r: Result<Leg, String>)
    ensures
        match r {
            Ok(x) => subst_leg(l@, pairs(env@)) == Ok::<LegV, Seq<char>>(x@),
            Err(n) => subst_leg(l@, pairs(env@)) == Err::<LegV, Seq<char>>(n@),
        },
{
    let title = match substitute(l.title.as_str(), env) {
        Err(n) => { return Err(n); },
        Ok(t) => t,
    };
    let focus = match substitute(l.focus.as_str(), env) {
        Err(n) => { return Err(n); },
        Ok(t) => t,
    };
    let description = match substitute(l.description.as_str(), env) {
        Err(n) => { return Err(n); },
        Ok(d) => d,
    };
    Ok(Leg { id: l.id.clone(), title, focus, description, agent: copy_opt(&l.agent), order: l.order })
}

proof fn lemma_steps_err_extends(ss: Seq<StepV>, env: Seq<(Seq<char>, Seq<char>)>, k: int)
    requires
        0 <= k <= ss.len(),
        subst_steps(ss.subrange(0, k), env) is Err,
    ensures
        subst_steps(ss, env) == subst_steps(ss.subrange(0, k), env),
    decreases ss.len() - k,
{
    if k < ss.len() {
        assert(ss.subrange(0, k + 1).drop_last() =~= ss.subrange(0, k));
        lemma_steps_err_extends(ss, env, k + 1);
    } else {
        assert(ss.subrange(0, k) =~= ss);
    }
}

proof fn lemma_legs_err_extends(ls: Seq<LegV>, env: Seq<(Seq<char>, Seq<char>)>, k: int)
    requires
        0 <= k <= ls.len(),
        subst_legs(ls.subrange(0, k), env) is Err,
    ensures
        subst_legs(ls, env) == subst_legs(ls.subrange(0, k), env),
    decreases ls.len() - k,
{
    if k < ls.len() {
        assert(ls.subrange(0, k + 1).drop_last() =~= ls.subrange(0, k));
        lemma_legs_err_extends(ls, env, k + 1);
    } else {
        assert(ls.subrange(0, k) =~= ls);
    }
}

fn cook_steps(ss: &Vec<Step>, env: &Vec<(String, String)>) -> (r: Result<Vec<Step>, String>)
    ensures
        match r {
            Ok(x) => subst_steps(ss@.map_values(|s: Step| s@), pairs(env@)) == Ok::<Seq<StepV>, Seq<char>>(
                x@.map_values(|s: Step| s@),
            ),
            Err(n) => subst_steps(ss@.map_values(|s: Step| s@), pairs(env@)) == Err::<Seq<StepV>, Seq<char>>(n@),
        },
{
    let ghost vs = ss@.map_values(|s: Step| s@);
    let ghost e = pairs(env@);
    let mut out: Vec<Step> = Vec::new();
    let mut i: usize = 0;
    assert(vs.subrange(0, 0) =~= Seq::<StepV>::empty());
    assert(out@.map_values(|s: Step| s@) =~= Seq::<StepV>::empty());
    while i < ss.len()
        invariant
            i <= ss@.len(),
            vs == ss@.map_values(|s: Step| s@),
            e == pairs(env@),
            subst_steps(vs.subrange(0, i as int), e) == Ok::<Seq<StepV>, Seq<char>>(out@.map_values(|s: Step| s@)),
        decreases ss.len() - i,
    {
        let ghost pre = vs.subrange(0, i as int + 1);
        assert(pre.drop_last() =~= vs.subrange(0, i as int));
        assert(pre.last() == ss@[i as int]@);
        match cook_step(&ss[i], env) {
            Err(n) => {
                proof { lemma_steps_err_extends(vs, e, i as int + 1); }
                return Err(n);
            },
            Ok(x) => {
                let ghost old_out = out@;
                out.push(x);
                assert(out@.map_values(|s: Step| s@) =~= old_out.map_values(|s: Step| s@).push(x@));
            },
        }
        i = i + 1;
    }
    assert(vs.subrange(0, ss@.len() as int) =~= vs);
    Ok(out)
}

fn cook_legs(ls: &Vec<Leg>, env: &Vec<(String, String)>) -> (r: Result<Vec<Leg>, String>)
    ensures
        match r {
            Ok(x) => subst_legs(ls@.map_values(|l: Leg| l@), pairs(env@)) == Ok::<Seq<LegV>, Seq<char>>(
                x@.map_values(|l: Leg| l@),
            ),
            Err(n) => subst_legs(ls@.map_values(|l: Leg| l@), pairs(env@)) == Err::<Seq<LegV>, Seq<char>>(n@),
        },
{
    let ghost vs = ls@.map_values(|l: Leg| l@);
    let ghost e = pairs(env@);
    let mut out: Vec<Leg> = Vec::new();
    let mut i: usize = 0;
    assert(vs.subrange(0, 0) =~= Seq::<LegV>::empty());
    assert(out@.map_values(|l: Leg| l@) =~= Seq::<LegV>::empty());
    while i < ls.len()
        invariant
            i <= ls@.len(),
            vs == ls@.map_values(|l: Leg| l@),
            e == pairs(env@),
            subst_legs(vs.subrange(0, i as int), e) == Ok::<Seq<LegV>, Seq<char>>(out@.map_values(|l: Leg| l@)),
        decreases ls.len() - i,
    {
        let ghost pre = vs.subrange(0, i as int + 1);
        assert(pre.drop_last() =~= vs.subrange(0, i as int));
        assert(pre.last() == ls@[i as int]@);
        match cook_leg(&ls[i], env) {
            Err(n) => {
                proof { lemma_legs_err_extends(vs, e, i as int + 1); }
                return Err(n);
            },
            Ok(x) => {
                let ghost old_out = out@;
                out.push(x);
                assert(out@.map_values(|l: Leg| l@) =~= old_out.map_values(|l: Leg| l@).push(x@));
            },
        }
        i = i + 1;
    }
    assert(vs.subrange(0, ls@.len() as int) =~= vs);
    Ok(out)
}

fn cook_synthesis(o: &Option<Synthesis>, env: &Vec<(String, String)>) -> (r: Result<Option<Synthesis>, String>)
    ensures
        ({
            let v = match *o { Some(s) => Some(s@), None => None::<SynthesisV> };
            match r {
                Ok(x) => subst_synthesis(v, pairs(env@)) == Ok::<Option<SynthesisV>, Seq<char>>(
                    match x { Some(s) => Some(s@), None => None::<SynthesisV> },
                ),
                Err(n) => subst_synthesis(v, pairs(env@)) == Err::<Option<SynthesisV>, Seq<char>>(n@),
            }
        }),
{
    match o {
        None => Ok(None),
        Some(s) => match &s.description {
            None => Ok(
                Some(Synthesis { strategy: s.strategy.clone(), format: copy_opt(&s.format), description: None }),
            ),
            Some(d) => match substitute(d.as_str(), env) {
                Err(n) => Err(n),
                Ok(x) => Ok(
                    Some(
                        Synthesis {
                            strategy: s.strategy.clone(),
                            format: copy_opt(&s.format),
                            description: Some(x),
                        },
                    ),
                ),
            },
        },
    }
}

fn copy_var(v: &Var) -> (r: Var)
    ensures
        r@ == v@,
{
    let enum_values = match &v.enum_values {
        Some(e) => Some(copy_strings(e)),
        None => None,
    };
    Var {
        name: v.name.clone(),
        description: copy_opt(&v.description),
        default: copy_opt(&v.default),
        required: v.required,
        pattern: copy_opt(&v.pattern),
        enum_values,
    }
}

fn copy_vars(vs: &Vec<Var>) -> (r: Vec<Var>)
    ensures
        r@.map_values(|v: Var| v@) == vs@.map_values(|v: Var| v@),
{
    let mut r: Vec<Var> = Vec::new();
    let mut i: usize = 0;
    while i < vs.len()
        invariant
            i <= vs@.len(),
            r@.len() == i,
            forall|k: int| 0 <= k < i ==> r@[k]@ == vs@[k]@,
        decreases vs.len() - i,
    {
        r.push(copy_var(&vs[i]));
        i = i + 1;
    }
    assert(r@.map_values(|v: Var| v@) =~= vs@.map_values(|v: Var| v@));
    r
}

/// Cooks `formula` with the caller's `bindings` (name, value): resolves every
/// declared variable, checks supplied values against their pattern and enum,
/// and substitutes every `{{name}}` reference in the template fields. The
/// result is stamped with `cooked_at`. All or nothing: on any fault no
/// cooked formula comes back.
pub fn cook_formula(formula: &Formula, bindings: &Vec<(String, String)>, cooked_at: &str) -> (r: Result<
    CookedFormula,
    CookError,
>)
    requires
        distinct_var_names(formula@),
    ensures
        cook_outcome(*formula, bindings@, cooked_at@, r),
{
    let ghost fv = formula@;
    let env = match resolve_vars(&formula.vars, bindings) {
        Err(e) => { return Err(e); },
        Ok(env) => env,
    };
    let name = match substitute(formula.name.as_str(), &env) {
        Err(n) => { return Err(CookError::UnknownVariableReference(n)); },
        Ok(x) => x,
    };
    let description = match substitute(formula.description.as_str(), &env) {
        Err(n) => { return Err(CookError::UnknownVariableReference(n)); },
        Ok(x) => x,
    };
    let steps = match cook_steps(&formula.steps, &env) {
        Err(n) => { return Err(CookError::UnknownVariableReference(n)); },
        Ok(x) => x,
    };
    let legs = match cook_legs(&formula.legs, &env) {
        Err(n) => { return Err(CookError::UnknownVariableReference(n)); },
        Ok(x) => x,
    };
    let synthesis = match cook_synthesis(&formula.synthesis, &env) {
        Err(n) => { return Err(CookError::UnknownVariableReference(n)); },
        Ok(x) => x,
    };
    let cooked = Formula {
        name,
        description,
        formula_type: formula.formula_type,
        version: formula.version,
        legs,
        synthesis,
        steps,
        vars: copy_vars(&formula.vars),
    };
    let r = CookedFormula {
        formula: cooked,
        cooked_at: cooked_at.to_owned(),
        cooked_vars: env,
        original_name: formula.name.clone(),
    };
    Ok(r)
}

/// Cooks each formula with the bindings at the same index. A fault stays in
/// its own slot and never stops the others; slot `i` of the result belongs to
/// item `i` of the input.
pub fn cook_batch(
    formulas: &Vec<Formula>,
    bindings_list: &Vec<Vec<(String, String)>>,
    cooked_at: &str,
) -> (r: Vec<Result<CookedFormula, CookError>>)
    requires
        formulas@.len() == bindings_list@.len(),
        forall|i: int| 0 <= i < formulas@.len() ==> distinct_var_names((#[trigger] formulas@[i])@),
    ensures
        r@.len() == formulas@.len(),
        forall|i: int|
            0 <= i < r@.len() ==> cook_outcome(formulas@[i], bindings_list@[i]@, cooked_at@, #[trigger] r@[i]),
{
    let mut r: Vec<Result<CookedFormula, CookError>> = Vec::new();
    let mut i: usize = 0;
    while i < formulas.len()
        invariant
            formulas@.len() == bindings_list@.len(),
            forall|i: int| 0 <= i < formulas@.len() ==> distinct_var_names((#[trigger] formulas@[i])@),
            i <= formulas@.len(),
            r@.len() == i,
            forall|k: int|
                0 <= k < i ==> cook_outcome(formulas@[k], bindings_list@[k]@, cooked_at@, #[trigger] r@[k]),
        decreases formulas.len() - i,
    {
        let c = cook_formula(&formulas[i], &bindings_list[i], cooked_at);
        r.push(c);
        i = i + 1;
    }
    r
}

proof fn lemma_all_pass(vars: Seq<VarV>, b: Seq<(Seq<char>, Seq<char>)>, first: bool)
    requires
        forall|j: int| 0 <= j < vars.len() ==> step_var(#[trigger] vars[j], b, first) is Ok,
    ensures
        pass_all(vars, b, first) is Ok,
    decreases vars.len(),
{
    if vars.len() > 0 {
        let p = vars.drop_last();
        assert forall|j: int| 0 <= j < p.len() implies step_var(#[trigger] p[j], b, first) is Ok by {
            assert(p[j] == vars[j]);
        }
        lemma_all_pass(p, b, first);
    }
}

/// A pass fails with the fault of the first variable that fails it.
pub proof fn lemma_first_fault(vars: Seq<VarV>, b: Seq<(Seq<char>, Seq<char>)>, first: bool, k: int)
    requires
        0 <= k < vars.len(),
        step_var(vars[k], b, first) is Err,
        forall|j: int| 0 <= j < k ==> step_var(#[trigger] vars[j], b, first) is Ok,
    ensures
        pass_all(vars, b, first) == Err::<Seq<(Seq<char>, Seq<char>)>, CookFault>(
            step_var(vars[k], b, first)->Err_0,
        ),
    decreases vars.len(),
{
    let p = vars.drop_last();
    if k == vars.len() - 1 {
        assert forall|j: int| 0 <= j < p.len() implies step_var(#[trigger] p[j], b, first) is Ok by {
            assert(p[j] == vars[j]);
        }
        lemma_all_pass(p, b, first);
    } else {
        assert(p[k] == vars[k]);
        assert forall|j: int| 0 <= j < k implies step_var(#[trigger] p[j], b, first) is Ok by {
            assert(p[j] == vars[j]);
        }
        lemma_first_fault(p, b, first, k);
    }
}

/// A pass fails with the fault of some variable that fails it.
pub proof fn lemma_fault_source(vars: Seq<VarV>, b: Seq<(Seq<char>, Seq<char>)>, first: bool)
    ensures
        pass_all(vars, b, first) matches Err(e) ==> exists|k: int|
            0 <= k < vars.len() && step_var(#[trigger] vars[k], b, first) == Err::<Seq<char>, CookFault>(e),
    decreases vars.len(),
{
    if vars.len() > 0 {
        let p = vars.drop_last();
        lemma_fault_source(p, b, first);
        if pass_all(p, b, first) is Err {
            let e = pass_all(p, b, first)->Err_0;
            let k = choose|k: int| 0 <= k < p.len() && step_var(#[trigger] p[k], b, first) == Err::<Seq<char>, CookFault>(e);
            assert(vars[k] == p[k]);
        } else if step_var(vars.last(), b, first) is Err {
            assert(vars[vars.len() - 1] == vars.last());
        }
    }
}

/// A variable that fails a pass makes the pass fail.
pub proof fn lemma_any_fault(vars: Seq<VarV>, b: Seq<(Seq<char>, Seq<char>)>, first: bool, k: int)
    requires
        0 <= k < vars.len(),
        step_var(vars[k], b, first) is Err,
    ensures
        pass_all(vars, b, first) is Err,
    decreases vars.len(),
{
    if k < vars.len() - 1 {
        let p = vars.drop_last();
        assert(p[k] == vars[k]);
        lemma_any_fault(p, b, first, k);
    }
}

/// Cooking the same formula with the same bindings twice gives the same
/// resolved variables and the same substituted formula, or the same fault;
/// only the time stamp may differ.
pub proof fn lemma_cook_idempotent(
    f: Formula,
    b: Seq<(String, String)>,
    at1: Seq<char>,
    at2: Seq<char>,
    r1: Result<CookedFormula, CookError>,
    r2: Result<CookedFormula, CookError>,
)
    requires
        cook_outcome(f, b, at1, r1),
        cook_outcome(f, b, at2, r2),
    ensures
        r1 is Ok <==> r2 is Ok,
        r1 matches Ok(c1) ==> r2 matches Ok(c2) && c1@ == c2@ && pairs(c1.cooked_vars@) == pairs(
            c2.cooked_vars@,
        ) && c1.formula@ == c2.formula@,
        r1 matches Err(e1) ==> r2 matches Err(e2) && e1@ == e2@,
{
}

/// A required variable with neither a binding nor a default makes cooking
/// fail with `MissingRequiredVar`, before any pattern or enum is checked. The
/// fault names a required variable with neither binding nor default: the
/// first one in declaration order, so this one when no earlier one is.
pub proof fn lemma_required_var_missing(f: Formula, b: Seq<(String, String)>, k: int)
    requires
        0 <= k < f.vars@.len(),
        f.vars@[k].required,
        f.vars@[k].default is None,
        lookup(pairs(b), f.vars@[k].name@) is None,
    ensures
        cook_view(f@, pairs(b)) matches Err(CookFault::MissingRequiredVar(m)) && exists|j: int|
            0 <= j < f@.vars.len() && (#[trigger] f@.vars[j]).name == m && f@.vars[j].required
                && f@.vars[j].default is None && lookup(pairs(b), m) is None,
        (forall|j: int| 0 <= j < k ==> value_var(#[trigger] f@.vars[j], pairs(b)) is Ok) ==> cook_view(
            f@,
            pairs(b),
        ) == Err::<CookedFormulaV, CookFault>(CookFault::MissingRequiredVar(f.vars@[k].name@)),
{
    let vs = f@.vars;
    assert(vs[k] == f.vars@[k]@);
    lemma_any_fault(vs, pairs(b), true, k);
    lemma_fault_source(vs, pairs(b), true);
    if forall|j: int| 0 <= j < k ==> value_var(#[trigger] vs[j], pairs(b)) is Ok {
        assert forall|j: int| 0 <= j < k implies step_var(#[trigger] vs[j], pairs(b), true) is Ok by {
            assert(value_var(vs[j], pairs(b)) is Ok);
        }
        lemma_first_fault(vs, pairs(b), true, k);
    }
}

/// A supplied value that breaks its variable's pattern, or that lies outside
/// its enum, makes cooking fail with no cooked formula. When every variable
/// has a value and every earlier supplied value passes, the fault is the
/// matching one.
pub proof fn lemma_constraint_violation(f: Formula, b: Seq<(String, String)>, k: int, x: Seq<char>)
    requires
        0 <= k < f.vars@.len(),
        lookup(pairs(b), f.vars@[k].name@) == Some(x),
        (f@.vars[k].pattern matches Some(p) && !glob_match(p, x)) || (f@.vars[k].enum_values matches Some(
            e,
        ) && !contains_str(e, x)),
    ensures
        cook_view(f@, pairs(b)) is Err,
        ((forall|j: int| 0 <= j < f@.vars.len() ==> value_var(#[trigger] f@.vars[j], pairs(b)) is Ok)
            && (forall|j: int| 0 <= j < k ==> check_var(#[trigger] f@.vars[j], pairs(b)) is Ok))
            ==> cook_view(f@, pairs(b)) == Err::<CookedFormulaV, CookFault>(
            if f@.vars[k].pattern matches Some(p) && !glob_match(p, x) {
                CookFault::PatternMismatch(f@.vars[k].name, x, f@.vars[k].pattern->0)
            } else {
                CookFault::InvalidEnumValue(f@.vars[k].name, x, f@.vars[k].enum_values->0)
            },
        ),
{
    let vs = f@.vars;
    assert(vs[k] == f.vars@[k]@);
    assert(step_var(vs[k], pairs(b), false) is Err);
    lemma_any_fault(vs, pairs(b), false, k);
    if forall|j: int| 0 <= j < vs.len() ==> value_var(#[trigger] vs[j], pairs(b)) is Ok {
        assert forall|j: int| 0 <= j < vs.len() implies step_var(#[trigger] vs[j], pairs(b), true) is Ok by {
            assert(value_var(vs[j], pairs(b)) is Ok);
        }
        lemma_all_pass(vs, pairs(b), true);
        if forall|j: int| 0 <= j < k ==> check_var(#[trigger] vs[j], pairs(b)) is Ok {
            assert forall|j: int| 0 <= j < k implies step_var(#[trigger] vs[j], pairs(b), false) is Ok by {
                assert(check_var(vs[j], pairs(b)) is Ok);
            }
            lemma_first_fault(vs, pairs(b), false, k);
        }
    }
}

} // verus!
