use vstd::prelude::*;
use crate::text::{strs, opt_str};

verus! {

/// The four kinds of formula; the kind selects which sections matter and how
/// a molecule is built.
#[derive(Clone, Copy, Debug, PartialEq, Eq, Structural)]
pub enum FormulaType {
    Convoy,
    Workflow,
    Expansion,
    Aspect,
}

/// A workflow unit.
#[derive(Clone, Debug)]
pub struct Step {
    pub id: String,
    pub title: String,
    pub description: String,
    pub needs: Vec<String>,
    pub duration: Option<u32>,
    pub requires: Vec<String>,
}

/// A convoy unit.
#[derive(Clone, Debug)]
pub struct Leg {
    pub id: String,
    pub title: String,
    pub focus: String,
    pub description: String,
    pub agent: Option<String>,
    pub order: Option<u32>,
}

/// A substitution slot of a formula.
#[derive(Clone, Debug)]
pub struct Var {
    pub name: String,
    pub description: Option<String>,
    pub default: Option<String>,
    pub required: bool,
    pub pattern: Option<String>,
    pub enum_values: Option<Vec<String>>,
}

/// A post-processing directive of expansion and aspect formulas.
#[derive(Clone, Debug)]
pub struct Synthesis {
    pub strategy: String,
    pub format: Option<String>,
    pub description: Option<String>,
}

/// A formula. Variables are kept in declaration order, keyed by `Var::name`.
#[derive(Clone, Debug)]
pub struct Formula {
    pub name: String,
    pub description: String,
    pub formula_type: FormulaType,
    pub version: u32,
    pub legs: Vec<Leg>,
    pub synthesis: Option<Synthesis>,
    pub steps: Vec<Step>,
    pub vars: Vec<Var>,
}

/// A formula with every variable bound and substituted.
#[derive(Clone, Debug)]
pub struct CookedFormula {
    pub formula: Formula,
    pub cooked_at: String,
    pub cooked_vars: Vec<(String, String)>,
    pub original_name: String,
}

pub ghost struct StepV {
    pub id: Seq<char>,
    pub title: Seq<char>,
    pub description: Seq<char>,
    pub needs: Seq<Seq<char>>,
    pub duration: Option<u32>,
    pub requires: Seq<Seq<char>>,
}

pub ghost struct LegV {
    pub id: Seq<char>,
    pub title: Seq<char>,
    pub focus: Seq<char>,
    pub description: Seq<char>,
    pub agent: Option<Seq<char>>,
    pub order: Option<u32>,
}

pub ghost struct VarV {
    pub name: Seq<char>,
    pub description: Option<Seq<char>>,
    pub default: Option<Seq<char>>,
    pub required: bool,
    pub pattern: Option<Seq<char>>,
    pub enum_values: Option<Seq<Seq<char>>>,
}

pub ghost struct SynthesisV {
    pub strategy: Seq<char>,
    pub format: Option<Seq<char>>,
    pub description: Option<Seq<char>>,
}

pub ghost struct FormulaV {
    pub name: Seq<char>,
    pub description: Seq<char>,
    pub formula_type: FormulaType,
    pub version: u32,
    pub legs: Seq<LegV>,
    pub synthesis: Option<SynthesisV>,
    pub steps: Seq<StepV>,
    pub vars: Seq<VarV>,
}

pub ghost struct CookedFormulaV {
    pub formula: FormulaV,
    pub cooked_vars: Seq<(Seq<char>, Seq<char>)>,
    pub original_name: Seq<char>,
}

impl View for Step {
    type V = StepV;

    open spec fn view(&self) -> StepV {
        StepV {
            id: self.id@,
            title: self.title@,
            description: self.description@,
            needs: strs(self.needs@),
            duration: self.duration,
            requires: strs(self.requires@),
        }
    }
}

impl View for Leg {
    type V = LegV;

    open spec fn view(&self) -> LegV {
        LegV {
            id: self.id@,
            title: self.title@,
            focus: self.focus@,
            description: self.description@,
            agent: opt_str(self.agent),
            order: self.order,
        }
    }
}

impl View for Var {
    type V = VarV;

    open spec fn view(&self) -> VarV {
        VarV {
            name: self.name@,
            description: opt_str(self.description),
            default: opt_str(self.default),
            required: self.required,
            pattern: opt_str(self.pattern),
            enum_values: match self.enum_values {
                Some(v) => Some(strs(v@)),
                None => None,
            },
        }
    }
}

impl View for Synthesis {
    type V = SynthesisV;

    open spec fn view(&self) -> SynthesisV {
        SynthesisV {
            strategy: self.strategy@,
            format: opt_str(self.format),
            description: opt_str(self.description),
        }
    }
}

impl View for Formula {
    type V = FormulaV;

    open spec fn view(&self) -> FormulaV {
        FormulaV {
            name: self.name@,
            description: self.description@,
            formula_type: self.formula_type,
            version: self.version,
            legs: self.legs@.map_values(|l: Leg| l@),
            synthesis: match self.synthesis {
                Some(s) => Some(s@),
                None => None,
            },
            steps: self.steps@.map_values(|s: Step| s@),
            vars: self.vars@.map_values(|v: Var| v@),
        }
    }
}

/// The name/value pairs that a list of string pairs holds.
pub open spec fn pairs(v: Seq<(String, String)>) -> Seq<(Seq<char>, Seq<char>)> {
    v.map_values(|p: (String, String)| (p.0@, p.1@))
}

impl View for CookedFormula {
    type V = CookedFormulaV;

    open spec fn view(&self) -> CookedFormulaV {
        CookedFormulaV {
            formula: self.formula@,
            cooked_vars: pairs(self.cooked_vars@),
            original_name: self.original_name@,
        }
    }
}

/// The version a formula has when its text names none.
pub fn default_version() -> (r: u32)
    ensures
        r == 1,
{
    1
}

/// The lower-case tag of a formula kind.
pub open spec fn type_tag(t: FormulaType) -> Seq<char> {
    match t {
        FormulaType::Convoy => seq!['c', 'o', 'n', 'v', 'o', 'y'],
        FormulaType::Workflow => seq!['w', 'o', 'r', 'k', 'f', 'l', 'o', 'w'],
        FormulaType::Expansion => seq!['e', 'x', 'p', 'a', 'n', 's', 'i', 'o', 'n'],
        FormulaType::Aspect => seq!['a', 's', 'p', 'e', 'c', 't'],
    }
}

impl FormulaType {
    /// The lower-case tag of this kind, as formula text spells it.
    pub fn as_tag(&self) -> (r: String)
        ensures
            r@ == type_tag(*self),
    {
        let r = match self {
            FormulaType::Convoy => String::from_str("convoy"),
            FormulaType::Workflow => String::from_str("workflow"),
            FormulaType::Expansion => String::from_str("expansion"),
            FormulaType::Aspect => String::from_str("aspect"),
        };
        proof {
            reveal_strlit("convoy");
            reveal_strlit("workflow");
            reveal_strlit("expansion");
            reveal_strlit("aspect");
        }
        assert(r@ =~= type_tag(*self));
        r
    }

    /// The kind that a tag names, if it names one.
    pub fn from_tag(s: &str) -> (r: Option<FormulaType>)
        ensures
            match r {
                Some(t) => type_tag(t) == s@,
                None => forall|t: FormulaType| type_tag(t) != s@,
            },
    {
        proof {
            reveal_strlit("convoy");
            reveal_strlit("workflow");
            reveal_strlit("expansion");
            reveal_strlit("aspect");
        }
        let c = String::from_str("convoy");
        let w = String::from_str("workflow");
        let e = String::from_str("expansion");
        let a = String::from_str("aspect");
        let t = s.to_owned();
        assert(c@ =~= type_tag(FormulaType::Convoy));
        assert(w@ =~= type_tag(FormulaType::Workflow));
        assert(e@ =~= type_tag(FormulaType::Expansion));
        assert(a@ =~= type_tag(FormulaType::Aspect));
        if t == c {
            Some(FormulaType::Convoy)
        } else if t == w {
            Some(FormulaType::Workflow)
        } else if t == e {
            Some(FormulaType::Expansion)
        } else if t == a {
            Some(FormulaType::Aspect)
        } else {
            proof {
                assert forall|k: FormulaType| type_tag(k) != s@ by {
                    match k {
                        FormulaType::Convoy => {},
                        FormulaType::Workflow => {},
                        FormulaType::Expansion => {},
                        FormulaType::Aspect => {},
                    }
                }
            }
            None
        }
    }
}

} // verus!
