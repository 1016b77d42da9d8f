//! Formula pipeline: formula values and their structural rules, cooking
//! (binding and substituting variables), and compiling a cooked formula into a
//! molecule, an ordered graph of beads.

pub mod text;
pub mod formula;
pub mod schema;
pub mod cooker;
pub mod molecule;
pub mod scan;

pub use formula::{FormulaType, Step, Leg, Var, Synthesis, Formula, CookedFormula, default_version};
pub use schema::{SchemaError, ParseError, check_formula};
pub use cooker::{CookError, cook_formula, cook_batch, substitute};
pub use molecule::{Bead, Molecule, GraphError, generate_molecule};
pub use text::{glob_matches, str_less};
pub use scan::type_hint;
