use gastown_formula::{
    check_formula, cook_batch, cook_formula, default_version, generate_molecule, glob_matches,
    str_less, substitute, type_hint, CookError, CookedFormula, Formula, FormulaType, GraphError, Leg,
    SchemaError, Step, Synthesis, Var,
};

fn s(x: &str) -> String {
    x.to_string()
}

fn step(id: &str, needs: &[&str]) -> Step {
    Step {
        id: s(id),
        title: format!("Title {}", id),
        description: format!("Do {}", id),
        needs: needs.iter().map(|n| s(n)).collect(),
        duration: None,
        requires: vec![],
    }
}

fn leg(id: &str, order: Option<u32>) -> Leg {
    Leg {
        id: s(id),
        title: s(id),
        focus: s("focus"),
        description: s("leg"),
        agent: None,
        order,
    }
}

fn var(name: &str) -> Var {
    Var {
        name: s(name),
        description: None,
        default: None,
        required: false,
        pattern: None,
        enum_values: None,
    }
}

fn formula(name: &str, t: FormulaType) -> Formula {
    Formula {
        name: s(name),
        description: s("a formula"),
        formula_type: t,
        version: default_version(),
        legs: vec![],
        synthesis: None,
        steps: vec![],
        vars: vec![],
    }
}

fn bind(pairs: &[(&str, &str)]) -> Vec<(String, String)> {
    pairs.iter().map(|(a, b)| (s(a), s(b))).collect()
}

fn cooked(f: &Formula) -> CookedFormula {
    cook_formula(f, &vec![], "t0").unwrap()
}

fn ids(beads: &[gastown_formula::Bead]) -> Vec<String> {
    beads.iter().map(|b| b.id.clone()).collect()
}

#[test]
fn test_formula_types() {
    assert_eq!(format!("\"{}\"", FormulaType::Workflow.as_tag()), "\"workflow\"");
    assert_eq!(format!("\"{}\"", FormulaType::Convoy.as_tag()), "\"convoy\"");
}

#[test]
fn tags_round_trip() {
    for t in [FormulaType::Convoy, FormulaType::Workflow, FormulaType::Expansion, FormulaType::Aspect] {
        assert_eq!(FormulaType::from_tag(&t.as_tag()), Some(t));
    }
    assert_eq!(FormulaType::from_tag("Workflow"), None);
    assert_eq!(FormulaType::from_tag(""), None);
}

#[test]
fn default_version_is_one() {
    assert_eq!(default_version(), 1);
}

#[test]
fn well_formed_formula_passes() {
    let mut f = formula("deploy", FormulaType::Workflow);
    f.steps = vec![step("build", &[]), step("ship", &["build"])];
    assert!(check_formula(&f).is_ok());
}

#[test]
fn schema_errors_are_reported() {
    let f = formula("", FormulaType::Workflow);
    assert!(matches!(check_formula(&f), Err(SchemaError::EmptyName)));

    let mut f = formula("x", FormulaType::Workflow);
    f.description = s("");
    assert!(matches!(check_formula(&f), Err(SchemaError::EmptyDescription)));

    let mut f = formula("x", FormulaType::Workflow);
    f.vars = vec![var("a"), var("a")];
    assert!(matches!(check_formula(&f), Err(SchemaError::DuplicateVar(n)) if n == "a"));

    let mut f = formula("x", FormulaType::Workflow);
    let mut v = var("a");
    v.enum_values = Some(vec![]);
    f.vars = vec![v];
    assert!(matches!(check_formula(&f), Err(SchemaError::EmptyEnum(n)) if n == "a"));

    let mut f = formula("x", FormulaType::Workflow);
    f.steps = vec![step("", &[])];
    assert!(matches!(check_formula(&f), Err(SchemaError::EmptyStepId)));

    let mut f = formula("x", FormulaType::Workflow);
    f.steps = vec![step("a", &[]), step("a", &[])];
    assert!(matches!(check_formula(&f), Err(SchemaError::DuplicateStep(n)) if n == "a"));

    let mut f = formula("x", FormulaType::Workflow);
    f.steps = vec![step("a", &["a"])];
    assert!(matches!(check_formula(&f), Err(SchemaError::SelfDependency(n)) if n == "a"));

    let mut f = formula("x", FormulaType::Convoy);
    f.legs = vec![leg("", None)];
    assert!(matches!(check_formula(&f), Err(SchemaError::EmptyLegId)));

    let mut f = formula("x", FormulaType::Convoy);
    f.legs = vec![leg("l", None), leg("l", Some(1))];
    assert!(matches!(check_formula(&f), Err(SchemaError::DuplicateLeg(n)) if n == "l"));
}

#[test]
fn forward_references_are_allowed() {
    let mut f = formula("x", FormulaType::Workflow);
    f.steps = vec![step("a", &["b"]), step("b", &[])];
    assert!(check_formula(&f).is_ok());
    let m = generate_molecule(&cooked(&f)).unwrap();
    assert_eq!(ids(&m.beads), vec![s("b"), s("a")]);
}

#[test]
fn glob_patterns() {
    assert!(glob_matches("prod", "prod"));
    assert!(!glob_matches("prod", "production"));
    assert!(glob_matches("prod*", "production"));
    assert!(glob_matches("*", ""));
    assert!(glob_matches("v?.*", "v1.20"));
    assert!(!glob_matches("v?", "v"));
    assert!(!glob_matches("", "a"));
}

#[test]
fn lexicographic_order() {
    assert!(str_less("a", "b"));
    assert!(str_less("ab", "abc"));
    assert!(!str_less("abc", "ab"));
    assert!(!str_less("same", "same"));
    assert!(str_less("", "a"));
}

#[test]
fn substitution_replaces_references_once() {
    let env = bind(&[("env", "prod"), ("loop", "{{env}}")]);
    assert_eq!(substitute("deploy-{{env}}", &env).unwrap(), "deploy-prod");
    assert_eq!(substitute("{{loop}}!", &env).unwrap(), "{{env}}!");
    assert_eq!(substitute("no refs", &env).unwrap(), "no refs");
    assert_eq!(substitute("open {{env", &env).unwrap(), "open {{env");
    assert_eq!(substitute("{{env}}{{env}}", &env).unwrap(), "prodprod");
    assert_eq!(substitute("{{other}}", &env).unwrap_err(), "other");
}

#[test]
fn cook_substitutes_every_template_field() {
    let mut f = formula("deploy-{{env}}", FormulaType::Workflow);
    f.description = s("Deploy to {{env}}");
    let mut st = step("build", &[]);
    st.title = s("Build {{env}}");
    f.steps = vec![st];
    let mut l = leg("l1", None);
    l.focus = s("focus {{env}}");
    f.legs = vec![l];
    f.synthesis = Some(Synthesis { strategy: s("merge"), format: None, description: Some(s("for {{env}}")) });
    let mut v = var("env");
    v.required = true;
    f.vars = vec![v];
    let c = cook_formula(&f, &bind(&[("env", "prod")]), "2026-01-01T00:00:00Z").unwrap();
    assert_eq!(c.formula.name, "deploy-prod");
    assert_eq!(c.formula.description, "Deploy to prod");
    assert_eq!(c.formula.steps[0].title, "Build prod");
    assert_eq!(c.formula.steps[0].id, "build");
    assert_eq!(c.formula.legs[0].focus, "focus prod");
    assert_eq!(c.formula.synthesis.as_ref().unwrap().description.as_deref(), Some("for prod"));
    assert_eq!(c.original_name, "deploy-{{env}}");
    assert_eq!(c.cooked_at, "2026-01-01T00:00:00Z");
    assert_eq!(c.cooked_vars, bind(&[("env", "prod")]));
}

#[test]
fn defaults_and_optional_vars() {
    let mut f = formula("x-{{region}}-{{tag}}", FormulaType::Workflow);
    let mut region = var("region");
    region.default = Some(s("eu"));
    region.pattern = Some(s("us-*"));
    f.vars = vec![region, var("tag")];
    let c = cook_formula(&f, &vec![], "t").unwrap();
    assert_eq!(c.formula.name, "x-eu-");
    assert_eq!(c.cooked_vars, bind(&[("region", "eu"), ("tag", "")]));
}

#[test]
fn cook_is_idempotent() {
    let mut f = formula("n-{{a}}", FormulaType::Workflow);
    f.vars = vec![var("a")];
    let b = bind(&[("a", "1")]);
    let c1 = cook_formula(&f, &b, "t1").unwrap();
    let c2 = cook_formula(&f, &b, "t2").unwrap();
    assert_eq!(c1.cooked_vars, c2.cooked_vars);
    assert_eq!(c1.formula.name, c2.formula.name);
    assert_eq!(c1.original_name, c2.original_name);
}

#[test]
fn missing_required_var_fails() {
    let mut f = formula("x", FormulaType::Workflow);
    let mut v = var("env");
    v.required = true;
    f.vars = vec![v];
    match cook_formula(&f, &vec![], "t") {
        Err(CookError::MissingRequiredVar(n)) => assert_eq!(n, "env"),
        other => panic!("unexpected {:?}", other),
    }
}

#[test]
fn pattern_mismatch_fails() {
    let mut f = formula("x-{{env}}", FormulaType::Workflow);
    let mut v = var("env");
    v.pattern = Some(s("p*"));
    f.vars = vec![v];
    match cook_formula(&f, &bind(&[("env", "staging")]), "t") {
        Err(CookError::PatternMismatch { name, value, pattern }) => {
            assert_eq!((name.as_str(), value.as_str(), pattern.as_str()), ("env", "staging", "p*"));
        }
        other => panic!("unexpected {:?}", other),
    }
}

#[test]
fn enum_violation_fails() {
    let mut f = formula("x-{{env}}", FormulaType::Workflow);
    let mut v = var("env");
    v.enum_values = Some(vec![s("dev"), s("prod")]);
    f.vars = vec![v];
    match cook_formula(&f, &bind(&[("env", "qa")]), "t") {
        Err(CookError::InvalidEnumValue { name, value, allowed }) => {
            assert_eq!(name, "env");
            assert_eq!(value, "qa");
            assert_eq!(allowed, vec![s("dev"), s("prod")]);
        }
        other => panic!("unexpected {:?}", other),
    }
    assert!(cook_formula(&f, &bind(&[("env", "prod")]), "t").is_ok());
}

#[test]
fn unknown_reference_fails() {
    let f = formula("x-{{nope}}", FormulaType::Workflow);
    match cook_formula(&f, &vec![], "t") {
        Err(CookError::UnknownVariableReference(n)) => assert_eq!(n, "nope"),
        other => panic!("unexpected {:?}", other),
    }
}

#[test]
fn batch_isolates_failures() {
    let mut f = formula("x-{{env}}", FormulaType::Workflow);
    let mut v = var("env");
    v.required = true;
    f.vars = vec![v];
    let formulas = vec![f.clone(), f.clone(), f];
    let bindings = vec![bind(&[("env", "a")]), bind(&[]), bind(&[("env", "c")])];
    let r = cook_batch(&formulas, &bindings, "t");
    assert_eq!(r.len(), 3);
    assert_eq!(r[0].as_ref().unwrap().formula.name, "x-a");
    assert!(matches!(&r[1], Err(CookError::MissingRequiredVar(n)) if n == "env"));
    assert_eq!(r[2].as_ref().unwrap().formula.name, "x-c");
}

#[test]
fn end_to_end_deploy() {
    let mut f = formula("deploy", FormulaType::Workflow);
    let mut v = var("env");
    v.required = true;
    f.vars = vec![v];
    f.steps = vec![step("build", &[]), step("ship", &["build"])];
    let c = cook_formula(&f, &bind(&[("env", "prod")]), "t").unwrap();
    let m = generate_molecule(&c).unwrap();
    assert_eq!(m.beads.len(), 2);
    assert_eq!(ids(&m.beads), vec![s("build"), s("ship")]);
    assert_eq!(m.beads[1].predecessors, vec![s("build")]);
    assert!(m.beads[0].predecessors.is_empty());
}

#[test]
fn cycle_is_detected() {
    let mut f = formula("loop", FormulaType::Workflow);
    f.steps = vec![step("A", &["B"]), step("B", &["A"])];
    match generate_molecule(&cooked(&f)) {
        Err(GraphError::CycleDetected(v)) => assert_eq!(v, vec![s("A"), s("B")]),
        other => panic!("unexpected {:?}", other),
    }
}

#[test]
fn dangling_reference_is_detected() {
    let mut f = formula("x", FormulaType::Workflow);
    f.steps = vec![step("a", &[]), step("b", &["ghost"])];
    match generate_molecule(&cooked(&f)) {
        Err(GraphError::DanglingReference(x)) => assert_eq!(x, "ghost"),
        other => panic!("unexpected {:?}", other),
    }
}

#[test]
fn ties_break_by_smallest_id() {
    let mut f = formula("x", FormulaType::Workflow);
    f.steps = vec![step("zeta", &[]), step("alpha", &[]), step("mid", &["zeta"]), step("beta", &[])];
    let c = cooked(&f);
    let m1 = generate_molecule(&c).unwrap();
    let m2 = generate_molecule(&c).unwrap();
    assert_eq!(ids(&m1.beads), vec![s("alpha"), s("beta"), s("zeta"), s("mid")]);
    assert_eq!(ids(&m1.beads), ids(&m2.beads));
}

#[test]
fn convoy_groups_by_order() {
    let mut f = formula("c", FormulaType::Convoy);
    f.legs = vec![leg("b1", Some(2)), leg("a1", Some(1)), leg("a2", Some(1)), leg("free", None), leg("c1", Some(5))];
    let m = generate_molecule(&cooked(&f)).unwrap();
    assert_eq!(ids(&m.beads), vec![s("a1"), s("a2"), s("b1"), s("c1"), s("free")]);
    let b1 = m.beads.iter().find(|b| b.id == "b1").unwrap();
    assert_eq!(b1.predecessors, vec![s("a1"), s("a2")]);
    let c1 = m.beads.iter().find(|b| b.id == "c1").unwrap();
    assert_eq!(c1.predecessors, vec![s("b1")]);
    let a1 = m.beads.iter().find(|b| b.id == "a1").unwrap();
    assert!(a1.predecessors.is_empty());
}

#[test]
fn expansion_wraps_synthesis() {
    let mut f = formula("exp", FormulaType::Expansion);
    f.synthesis = Some(Synthesis { strategy: s("merge"), format: Some(s("md")), description: Some(s("sum")) });
    let m = generate_molecule(&cooked(&f)).unwrap();
    assert_eq!(m.beads.len(), 1);
    assert_eq!(m.beads[0].id, "exp");
    assert_eq!(m.beads[0].title, "merge");
    assert_eq!(m.beads[0].description, "sum");
    assert!(m.beads[0].predecessors.is_empty());
    let syn = m.beads[0].synthesis.as_ref().unwrap();
    assert_eq!(syn.strategy, "merge");
    assert_eq!(syn.format.as_deref(), Some("md"));
    assert_eq!(syn.description.as_deref(), Some("sum"));
    let g = formula("asp", FormulaType::Aspect);
    let m = generate_molecule(&cooked(&g)).unwrap();
    assert_eq!(m.beads.len(), 1);
    assert_eq!(m.beads[0].id, "asp");
    assert!(m.beads[0].synthesis.is_none());
}

#[test]
fn type_hint_reads_top_level_type_line() {
    let text = "formula = \"test-workflow\"\ndescription = \"Test workflow\"\ntype = \"workflow\"\nversion = 1\n";
    assert_eq!(type_hint(text), Some(FormulaType::Workflow));
    assert_eq!(type_hint("  type=\"convoy\""), Some(FormulaType::Convoy));
    assert_eq!(type_hint("type =\t\"aspect\"\n"), Some(FormulaType::Aspect));
    assert_eq!(type_hint("[[steps]]\ntype = \"workflow\"\n"), None);
    assert_eq!(type_hint("type = \"bogus\""), None);
    assert_eq!(type_hint("types = \"workflow\""), None);
    assert_eq!(type_hint(""), None);
}

#[test]
fn missing_required_var_comes_before_pattern_checks() {
    let mut f = formula("x-{{a}}", FormulaType::Workflow);
    let mut a = var("a");
    a.pattern = Some(s("p*"));
    let mut b = var("b");
    b.required = true;
    f.vars = vec![a, b];
    match cook_formula(&f, &bind(&[("a", "staging")]), "t") {
        Err(CookError::MissingRequiredVar(n)) => assert_eq!(n, "b"),
        other => panic!("unexpected {:?}", other),
    }
}

#[test]
fn cycle_lists_only_its_members() {
    let mut f = formula("loop", FormulaType::Workflow);
    f.steps = vec![step("A", &["B"]), step("B", &["A"]), step("C", &["A"]), step("D", &[])];
    match generate_molecule(&cooked(&f)) {
        Err(GraphError::CycleDetected(v)) => assert_eq!(v, vec![s("A"), s("B")]),
        other => panic!("unexpected {:?}", other),
    }
}

#[test]
fn type_hint_stops_at_multi_line_values() {
    let text = "formula = \"w\"\ndescription = \"\"\"\ntype = \"convoy\"\n\"\"\"\ntype = \"workflow\"\n";
    assert_eq!(type_hint(text), None);
    assert_eq!(type_hint("d = '''\ntype = \"convoy\"\n'''\n"), None);
    assert_eq!(type_hint("needs = [\ntype = \"convoy\"\n]\n"), None);
    assert_eq!(type_hint("type = \"convoy\" junk\n"), None);
    assert_eq!(type_hint("# comment\n\nversion = 2\ntype = \"expansion\" # kind\n"), Some(FormulaType::Expansion));
}
