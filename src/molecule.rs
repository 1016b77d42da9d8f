use vstd::prelude::*;
use crate::text::{seq_lt, str_less, strs, copy_strings, lemma_seq_lt_total, lemma_seq_lt_trans, lemma_seq_lt_asym};
use crate::formula::{FormulaType, Formula, FormulaV, CookedFormula, Leg, LegV, StepV, Synthesis, SynthesisV};
use crate::text::copy_opt;

verus! {

/// One node of a molecule: a unit of work and the ids it waits for.
#[derive(Clone, Debug)]
pub struct Bead {
    pub id: String,
    pub title: String,
    pub description: String,
    pub predecessors: Vec<String>,
    /// The synthesis that the bead carries, as the formula gives it (only
    /// the bead of an expansion or aspect carries one).
    pub synthesis: Option<Synthesis>,
}

/// The compiled plan of a cooked formula: its beads in execution order.
#[derive(Clone, Debug)]
pub struct Molecule {
    pub name: String,
    pub formula_type: FormulaType,
    pub beads: Vec<Bead>,
}

/// Why a cooked formula has no valid plan.
#[derive(Clone, Debug)]
pub enum GraphError {
    CycleDetected(Vec<String>),
    DanglingReference(String),
}

pub ghost struct BeadV {
    pub id: Seq<char>,
    pub title: Seq<char>,
    pub description: Seq<char>,
    pub predecessors: Seq<Seq<char>>,
    pub synthesis: Option<SynthesisV>,
}

pub ghost struct MoleculeV {
    pub name: Seq<char>,
    pub formula_type: FormulaType,
    pub beads: Seq<BeadV>,
}

impl View for Bead {
    type V = BeadV;

    open spec fn view(&self) -> BeadV {
        BeadV {
            id: self.id@,
            title: self.title@,
            description: self.description@,
            predecessors: strs(self.predecessors@),
            synthesis: match self.synthesis {
                Some(x) => Some(x@),
                None => None,
            },
        }
    }
}

impl View for Molecule {
    type V = MoleculeV;

    open spec fn view(&self) -> MoleculeV {
        MoleculeV {
            name: self.name@,
            formula_type: self.formula_type,
            beads: self.beads@.map_values(|b: Bead| b@),
        }
    }
}

/// The largest leg order below `o`, if any leg has one.
pub open spec fn lower_order(legs: Seq<LegV>, o: u32) -> Option<u32>
    decreases legs.len(),
{
    if legs.len() == 0 {
        None
    } else {
        let rest = lower_order(legs.drop_last(), o);
        match legs.last().order {
            Some(x) => if x < o && !(rest matches Some(y) && y >= x) {
                Some(x)
            } else {
                rest
            },
            None => rest,
        }
    }
}

/// The ids of the legs whose order is `q`, in declaration order.
pub open spec fn ids_at_order(legs: Seq<LegV>, q: u32) -> Seq<Seq<char>>
    decreases legs.len(),
{
    if legs.len() == 0 {
        Seq::empty()
    } else {
        let rest = ids_at_order(legs.drop_last(), q);
        if legs.last().order == Some(q) {
            rest.push(legs.last().id)
        } else {
            rest
        }
    }
}

/// A leg waits for every leg at the next lower order present; a leg with no
/// order waits for none.
pub open spec fn leg_preds(legs: Seq<LegV>, l: LegV) -> Seq<Seq<char>> {
    match l.order {
        None => Seq::empty(),
        Some(o) => match lower_order(legs, o) {
            None => Seq::empty(),
            Some(q) => ids_at_order(legs, q),
        },
    }
}

pub open spec fn step_bead(s: StepV) -> BeadV {
    BeadV { id: s.id, title: s.title, description: s.description, predecessors: s.needs, synthesis: None }
}

pub open spec fn leg_bead(legs: Seq<LegV>, l: LegV) -> BeadV {
    BeadV {
        id: l.id,
        title: l.title,
        description: l.description,
        predecessors: leg_preds(legs, l),
        synthesis: None,
    }
}

/// The beads of a formula, in declaration order: one per step of a workflow,
/// one per leg of a convoy, and for an expansion or aspect a single bead,
/// named after the formula, that carries the synthesis as it stands (its
/// strategy and description also serve as title and description).
pub open spec fn beads_of(f: FormulaV) -> Seq<BeadV> {
    match f.formula_type {
        FormulaType::Workflow => f.steps.map_values(|s: StepV| step_bead(s)),
        FormulaType::Convoy => f.legs.map_values(|l: LegV| leg_bead(f.legs, l)),
        _ => seq![
            BeadV {
                id: f.name,
                title: match f.synthesis {
                    Some(s) => s.strategy,
                    None => Seq::empty(),
                },
                description: match f.synthesis {
                    Some(s) => match s.description {
                        Some(d) => d,
                        None => Seq::empty(),
                    },
                    None => Seq::empty(),
                },
                predecessors: Seq::empty(),
                synthesis: f.synthesis,
            },
        ],
    }
}

fn copy_synthesis(o: &Option<Synthesis>) -> (r: Option<Synthesis>)
    ensures
        match (r, *o) {
            (Some(a), Some(b)) => a@ == b@,
            (None, None) => true,
            _ => false,
        },
{
    match o {
        Some(s) => Some(Synthesis { strategy: s.strategy.clone(), format: copy_opt(&s.format), description: copy_opt(&s.description) }),
        None => None,
    }
}

fn find_lower_order(legs: &Vec<Leg>, o: u32) -> (r: Option<u32>)
    ensures
        r == lower_order(legs@.map_values(|l: Leg| l@), o),
{
    let ghost vs = legs@.map_values(|l: Leg| l@);
    let mut best: Option<u32> = None;
    let mut i: usize = 0;
    assert(vs.subrange(0, 0) =~= Seq::<LegV>::empty());
    while i < legs.len()
        invariant
            i <= legs@.len(),
            vs == legs@.map_values(|l: Leg| l@),
            best == lower_order(vs.subrange(0, i as int), o),
        decreases legs.len() - i,
    {
        let ghost pre = vs.subrange(0, i as int + 1);
        assert(pre.drop_last() =~= vs.subrange(0, i as int));
        assert(pre.last() == legs@[i as int]@);
        if let Some(x) = legs[i].order {
            if x < o {
                match best {
                    Some(y) => {
                        if y < x {
                            best = Some(x);
                        }
                    },
                    None => {
                        best = Some(x);
                    },
                }
            }
        }
        i = i + 1;
    }
    assert(vs.subrange(0, legs@.len() as int) =~= vs);
    best
}

fn legs_at_order(legs: &Vec<Leg>, q: u32) -> (r: Vec<String>)
    ensures
        strs(r@) == ids_at_order(legs@.map_values(|l: Leg| l@), q),
{
    let ghost vs = legs@.map_values(|l: Leg| l@);
    let mut r: Vec<String> = Vec::new();
    let mut i: usize = 0;
    assert(vs.subrange(0, 0) =~= Seq::<LegV>::empty());
    assert(strs(r@) =~= Seq::<Seq<char>>::empty());
    while i < legs.len()
        invariant
            i <= legs@.len(),
            vs == legs@.map_values(|l: Leg| l@),
            strs(r@) == ids_at_order(vs.subrange(0, i as int), q),
        decreases legs.len() - i,
    {
        let ghost pre = vs.subrange(0, i as int + 1);
        assert(pre.drop_last() =~= vs.subrange(0, i as int));
        assert(pre.last() == legs@[i as int]@);
        if legs[i].order == Some(q) {
            let ghost before = r@;
            r.push(legs[i].id.clone());
            assert(strs(r@) =~= strs(before).push(legs@[i as int]@.id));
        }
        i = i + 1;
    }
    assert(vs.subrange(0, legs@.len() as int) =~= vs);
    r
}

fn build_beads(f: &Formula) -> (r: Vec<Bead>)
    ensures
        r@.map_values(|b: Bead| b@) == beads_of(f@),
{
    let mut r: Vec<Bead> = Vec::new();
    match f.formula_type {
        FormulaType::Workflow => {
            let mut i: usize = 0;
            while i < f.steps.len()
                invariant
                    i <= f.steps@.len(),
                    r@.len() == i,
                    forall|k: int| 0 <= k < i ==> (#[trigger] r@[k])@ == step_bead(f.steps@[k]@),
                decreases f.steps.len() - i,
            {
                let s = &f.steps[i];
                r.push(
                    Bead {
                        id: s.id.clone(),
                        title: s.title.clone(),
                        description: s.description.clone(),
                        predecessors: copy_strings(&s.needs),
                        synthesis: None,
                    },
                );
                i = i + 1;
            }
            assert(r@.map_values(|b: Bead| b@) =~= beads_of(f@));
        },
        FormulaType::Convoy => {
            let ghost lv = f.legs@.map_values(|l: Leg| l@);
            let mut i: usize = 0;
            while i < f.legs.len()
                invariant
                    i <= f.legs@.len(),
                    lv == f.legs@.map_values(|l: Leg| l@),
                    r@.len() == i,
                    forall|k: int| 0 <= k < i ==> (#[trigger] r@[k])@ == leg_bead(lv, f.legs@[k]@),
                decreases f.legs.len() - i,
            {
                let l = &f.legs[i];
                let preds = match l.order {
                    None => Vec::new(),
                    Some(o) => match find_lower_order(&f.legs, o) {
                        None => Vec::new(),
                        Some(q) => legs_at_order(&f.legs, q),
                    },
                };
                assert(strs(preds@) =~= leg_preds(lv, l@));
                r.push(
                    Bead {
                        id: l.id.clone(),
                        title: l.title.clone(),
                        description: l.description.clone(),
                        predecessors: preds,
                        synthesis: None,
                    },
                );
                i = i + 1;
            }
            assert(r@.map_values(|b: Bead| b@) =~= beads_of(f@));
        },
        _ => {
            let (title, description) = match &f.synthesis {
                Some(s) => (
                    s.strategy.clone(),
                    match &s.description {
                        Some(d) => d.clone(),
                        None => String::new(),
                    },
                ),
                None => (String::new(), String::new()),
            };
            let predecessors: Vec<String> = Vec::new();
            assert(strs(predecessors@) =~= Seq::<Seq<char>>::empty());
            r.push(
                Bead {
                    id: f.name.clone(),
                    title,
                    description,
                    predecessors,
                    synthesis: copy_synthesis(&f.synthesis),
                },
            );
            assert(r@.map_values(|b: Bead| b@) =~= beads_of(f@));
        },
    }
    r
}

/// Step ids are pairwise distinct, and so are leg ids.
pub open spec fn distinct_unit_ids(f: FormulaV) -> bool {
    &&& forall|i: int, j: int| 0 <= i < j < f.steps.len() ==> f.steps[i].id != f.steps[j].id
    &&& forall|i: int, j: int| 0 <= i < j < f.legs.len() ==> f.legs[i].id != f.legs[j].id
}

/// The ids of a list of beads.
pub open spec fn bead_ids(bs: Seq<BeadV>) -> Seq<Seq<char>> {
    bs.map_values(|b: BeadV| b.id)
}

/// The first position of `x` in `ids`.
pub open spec fn index_of(ids: Seq<Seq<char>>, x: Seq<char>) -> Option<int>
    decreases ids.len(),
{
    if ids.len() == 0 {
        None
    } else {
        match index_of(ids.drop_last(), x) {
            Some(j) => Some(j),
            None => if ids.last() == x {
                Some(ids.len() - 1)
            } else {
                None
            },
        }
    }
}

/// `x` is a predecessor named by some bead that no bead has as its id.
pub open spec fn dangling(bs: Seq<BeadV>, x: Seq<char>) -> bool {
    &&& exists|i: int, k: int|
        0 <= i < bs.len() && 0 <= k < bs[i].predecessors.len() && bs[i].predecessors[k] == x
    &&& index_of(bead_ids(bs), x) is None
}

/// Predecessor `k` of bead `i` names no bead, and every predecessor before
/// it (by bead, then by position) does.
pub open spec fn first_dangling_at(bs: Seq<BeadV>, i: int, k: int) -> bool {
    &&& 0 <= i < bs.len()
    &&& 0 <= k < bs[i].predecessors.len()
    &&& index_of(bead_ids(bs), bs[i].predecessors[k]) is None
    &&& forall|a: int, c: int|
        0 <= a < bs.len() && 0 <= c < bs[a].predecessors.len() && (a < i || (a == i && c < k))
            ==> index_of(bead_ids(bs), #[trigger] bs[a].predecessors[c]) is Some
}

/// `x` is the first predecessor that names no bead.
pub open spec fn first_dangling(bs: Seq<BeadV>, x: Seq<char>) -> bool {
    exists|i: int, k: int| first_dangling_at(bs, i, k) && bs[i].predecessors[k] == x
}

/// Each predecessor as the position of the first bead with that id.
pub open spec fn pred_indices(bs: Seq<BeadV>) -> Seq<Seq<usize>> {
    bs.map_values(
        |b: BeadV|
            b.predecessors.map_values(|x: Seq<char>| index_of(bead_ids(bs), x)->0 as usize),
    )
}

/// Bead `i` is not placed yet and all that it waits for is.
pub open spec fn ready(pidx: Seq<Seq<usize>>, placed: Seq<usize>, i: usize) -> bool {
    &&& !placed.contains(i)
    &&& forall|k: int| 0 <= k < pidx[i as int].len() ==> placed.contains(#[trigger] pidx[i as int][k])
}

/// Bead `a` comes before bead `b` when both are ready: smaller id first, and
/// of equal ids the one declared first.
pub open spec fn before(ids: Seq<Seq<char>>, a: usize, b: usize) -> bool {
    seq_lt(ids[a as int], ids[b as int]) || (ids[a as int] == ids[b as int] && a < b)
}

/// Bead `i` is the one to place next: ready, and before every other ready bead.
pub open spec fn first_ready(ids: Seq<Seq<char>>, pidx: Seq<Seq<usize>>, placed: Seq<usize>, i: usize) -> bool {
    &&& i < ids.len()
    &&& ready(pidx, placed, i)
    &&& forall|j: usize| j < ids.len() && j != i && ready(pidx, placed, j) ==> before(ids, i, j)
}

/// Every bead of `order` was the one to place next at its turn.
pub open spec fn greedy(ids: Seq<Seq<char>>, pidx: Seq<Seq<usize>>, order: Seq<usize>) -> bool {
    forall|p: int| 0 <= p < order.len() ==> first_ready(ids, pidx, order.take(p), #[trigger] order[p])
}

/// No bead is ready after `placed`.
pub open spec fn stuck(ids: Seq<Seq<char>>, pidx: Seq<Seq<usize>>, placed: Seq<usize>) -> bool {
    forall|j: usize| j < ids.len() ==> !ready(pidx, placed, j)
}

/// `S` holds every bead left over by `order` that bead `i` waits for, and is
/// closed under that: with a bead it holds every left-over bead that one
/// waits for.
pub open spec fn closed_from(pi: Seq<Seq<usize>>, order: Seq<usize>, i: usize, S: Set<usize>) -> bool {
    &&& forall|k: int|
        0 <= k < pi[i as int].len() && !order.contains(pi[i as int][k]) ==> S.contains(
            #[trigger] pi[i as int][k],
        )
    &&& forall|m: usize, k: int|
        S.contains(m) && 0 <= k < pi[m as int].len() && !order.contains(pi[m as int][k]) ==> S.contains(
            #[trigger] pi[m as int][k],
        )
}

/// Bead `i` lies on a cycle of left-over beads: following what left-over
/// beads wait for, starting from `i`, leads back to `i` (it lies in every set
/// that such chains cannot leave).
pub open spec fn on_cycle(pi: Seq<Seq<usize>>, order: Seq<usize>, i: usize) -> bool {
    forall|S: Set<usize>| #[trigger] closed_from(pi, order, i, S) ==> S.contains(i)
}

/// The ids of the first `n` beads that `order` leaves out and that lie on a
/// cycle of left-over beads, in bead order.
pub open spec fn cycle_ids(ids: Seq<Seq<char>>, pi: Seq<Seq<usize>>, order: Seq<usize>, n: nat) -> Seq<
    Seq<char>,
>
    decreases n,
{
    if n == 0 {
        Seq::empty()
    } else {
        let rest = cycle_ids(ids, pi, order, (n - 1) as nat);
        if !order.contains((n - 1) as usize) && on_cycle(pi, order, (n - 1) as usize) {
            rest.push(ids[n - 1])
        } else {
            rest
        }
    }
}

/// The number of `true` entries.
pub open spec fn count_true(s: Seq<bool>) -> nat
    decreases s.len(),
{
    if s.len() == 0 {
        0
    } else {
        count_true(s.drop_last()) + if s.last() {
            1nat
        } else {
            0nat
        }
    }
}

proof fn lemma_count_bound(s: Seq<bool>)
    ensures
        count_true(s) <= s.len(),
    decreases s.len(),
{
    if s.len() > 0 {
        lemma_count_bound(s.drop_last());
    }
}

proof fn lemma_count_set(s: Seq<bool>, x: int)
    requires
        0 <= x < s.len(),
        !s[x],
    ensures
        count_true(s.update(x, true)) == count_true(s) + 1,
    decreases s.len(),
{
    let t = s.update(x, true);
    if x < s.len() - 1 {
        assert(t.drop_last() =~= s.drop_last().update(x, true));
        lemma_count_set(s.drop_last(), x);
    } else {
        assert(t.drop_last() =~= s.drop_last());
    }
}

/// Marks as seen, and pushes, each left-over bead that bead `m` waits for
/// and that was not seen yet.
fn visit(pidx: &Vec<Vec<usize>>, left: &Vec<bool>, m: usize, seen: &mut Vec<bool>, stack: &mut Vec<usize>)
    requires
        m < pidx@.len(),
        left@.len() == pidx@.len(),
        old(seen)@.len() == pidx@.len(),
        forall|a: int, k: int|
            0 <= a < pidx@.len() && 0 <= k < pidx@[a]@.len() ==> #[trigger] pidx@[a]@[k] < pidx@.len(),
    ensures
        final(seen)@.len() == old(seen)@.len(),
        forall|x: int| 0 <= x < old(seen)@.len() && old(seen)@[x] ==> final(seen)@[x],
        forall|k: int|
            0 <= k < pidx@[m as int]@.len() && left@[pidx@[m as int]@[k] as int] ==> final(seen)@[
                #[trigger] pidx@[m as int]@[k] as int
            ],
        forall|x: usize|
            x < old(seen)@.len() && #[trigger] final(seen)@[x as int] && !old(seen)@[x as int] ==> left@[x as int]
                && exists|k: int| 0 <= k < pidx@[m as int]@.len() && #[trigger] pidx@[m as int]@[k] == x,
        final(stack)@.len() >= old(stack)@.len(),
        final(stack)@.subrange(0, old(stack)@.len() as int) == old(stack)@,
        forall|q: int|
            old(stack)@.len() <= q < final(stack)@.len() ==> (#[trigger] final(stack)@[q]) < pidx@.len()
                && final(seen)@[final(stack)@[q] as int] && !old(seen)@[final(stack)@[q] as int],
        forall|x: int|
            0 <= x < old(seen)@.len() && final(seen)@[x] && !old(seen)@[x] ==> final(stack)@.contains(x as usize),
        count_true(final(seen)@) == count_true(old(seen)@) + (final(stack)@.len() - old(stack)@.len()),
{
    let ghost s0 = seen@;
    let ghost st0 = stack@;
    let preds = &pidx[m];
    let mut k: usize = 0;
    while k < preds.len()
        invariant
            *preds == pidx@[m as int],
            m < pidx@.len(),
            left@.len() == pidx@.len(),
            seen@.len() == s0.len(),
            s0.len() == pidx@.len(),
            k <= preds@.len(),
            forall|a: int, c: int|
                0 <= a < pidx@.len() && 0 <= c < pidx@[a]@.len() ==> #[trigger] pidx@[a]@[c] < pidx@.len(),
            forall|x: int| 0 <= x < s0.len() && s0[x] ==> seen@[x],
            forall|c: int| 0 <= c < k && left@[preds@[c] as int] ==> seen@[#[trigger] preds@[c] as int],
            forall|x: usize|
                x < s0.len() && #[trigger] seen@[x as int] && !s0[x as int] ==> left@[x as int] && exists|c: int|
                    0 <= c < preds@.len() && #[trigger] preds@[c] == x,
            stack@.len() >= st0.len(),
            stack@.subrange(0, st0.len() as int) == st0,
            forall|q: int|
                st0.len() <= q < stack@.len() ==> (#[trigger] stack@[q]) < pidx@.len() && seen@[stack@[q] as int]
                    && !s0[stack@[q] as int],
            forall|x: int| 0 <= x < s0.len() && seen@[x] && !s0[x] ==> stack@.contains(x as usize),
            count_true(seen@) == count_true(s0) + (stack@.len() - st0.len()),
        decreases preds.len() - k,
    {
        let x = preds[k];
        if left[x] && !seen[x] {
            proof { lemma_count_set(seen@, x as int); }
            let ghost sb = stack@;
            seen.set(x, true);
            stack.push(x);
            assert(stack@.subrange(0, st0.len() as int) =~= sb.subrange(0, st0.len() as int));
            assert(stack@[sb.len() as int] == x);
            assert forall|y: int| 0 <= y < s0.len() && seen@[y] && !s0[y] implies stack@.contains(y as usize) by {
                if y != x as int {
                    let w = choose|w: int| 0 <= w < sb.len() && sb[w] == y as usize;
                    assert(stack@[w] == y as usize);
                }
            }
        }
        k = k + 1;
    }
}

/// Whether bead `i` lies on a cycle of left-over beads; `left[x]` tells
/// whether bead `x` is left over.
fn reaches_itself(pidx: &Vec<Vec<usize>>, left: &Vec<bool>, i: usize, Ghost(order): Ghost<Seq<usize>>) -> (r: bool)
    requires
        i < pidx@.len(),
        left@.len() == pidx@.len(),
        forall|a: int, k: int|
            0 <= a < pidx@.len() && 0 <= k < pidx@[a]@.len() ==> #[trigger] pidx@[a]@[k] < pidx@.len(),
        forall|x: usize| x < pidx@.len() ==> (left@[x as int] <==> !order.contains(x)),
    ensures
        r == on_cycle(pidx@.map_values(|v: Vec<usize>| v@), order, i),
{
    let ghost pi = pidx@.map_values(|v: Vec<usize>| v@);
    let n = pidx.len();
    let mut seen: Vec<bool> = Vec::new();
    let mut done: Vec<bool> = Vec::new();
    let mut z: usize = 0;
    while z < n
        invariant
            z <= n,
            seen@.len() == z,
            done@.len() == z,
            forall|x: int| 0 <= x < z ==> !seen@[x] && !done@[x],
        decreases n - z,
    {
        seen.push(false);
        done.push(false);
        z = z + 1;
    }
    let mut stack: Vec<usize> = Vec::new();
    assert(pi[i as int] == pidx@[i as int]@);
    let ghost seen_init = seen@;
    visit(pidx, left, i, &mut seen, &mut stack);
    proof {
        lemma_count_bound(seen@);
        assert forall|S: Set<usize>| #[trigger] closed_from(pi, order, i, S) implies forall|x: usize|
            x < n && seen@[x as int] ==> S.contains(x) by {
            assert forall|x: usize| x < n && seen@[x as int] implies S.contains(x) by {
                assert(!seen_init[x as int]);
                let k = choose|k: int| 0 <= k < pidx@[i as int]@.len() && #[trigger] pidx@[i as int]@[k] == x;
                assert(pi[i as int][k] == x);
                assert(!order.contains(x));
            }
        }
    }
    while stack.len() > 0
        invariant
            n == pidx@.len(),
            pi == pidx@.map_values(|v: Vec<usize>| v@),
            i < n,
            left@.len() == n,
            seen@.len() == n,
            done@.len() == n,
            count_true(seen@) <= n,
            forall|a: int, k: int|
                0 <= a < pidx@.len() && 0 <= k < pidx@[a]@.len() ==> #[trigger] pidx@[a]@[k] < n,
            forall|x: usize| x < n ==> (left@[x as int] <==> !order.contains(x)),
            forall|q: int| 0 <= q < stack@.len() ==> (#[trigger] stack@[q]) < n && seen@[stack@[q] as int],
            forall|x: int| 0 <= x < n && seen@[x] && !done@[x] ==> stack@.contains(x as usize),
            forall|k: int|
                0 <= k < pidx@[i as int]@.len() && left@[pidx@[i as int]@[k] as int] ==> seen@[
                    #[trigger] pidx@[i as int]@[k] as int
                ],
            forall|x: int| 0 <= x < n && done@[x] ==> seen@[x],
            forall|x: int, k: int|
                0 <= x < n && done@[x] && 0 <= k < pidx@[x]@.len() && left@[pidx@[x]@[k] as int] ==> seen@[
                    #[trigger] pidx@[x]@[k] as int
                ],
            forall|S: Set<usize>| #[trigger] closed_from(pi, order, i, S) ==> forall|x: usize|
                x < n && seen@[x as int] ==> S.contains(x),
        decreases n - count_true(seen@), stack@.len(),
    {
        let ghost seen0 = seen@;
        let ghost st0 = stack@;
        let m = stack.pop().unwrap();
        assert(m == st0.last());
        assert(seen0[m as int]);
        let ghost st1 = stack@;
        visit(pidx, left, m, &mut seen, &mut stack);
        done.set(m, true);
        proof {
            lemma_count_bound(seen@);
            assert forall|S: Set<usize>| #[trigger] closed_from(pi, order, i, S) implies forall|x: usize|
                x < n && seen@[x as int] ==> S.contains(x) by {
                assert forall|x: usize| x < n && seen@[x as int] implies S.contains(x) by {
                    if !seen0[x as int] {
                        let k = choose|k: int| 0 <= k < pidx@[m as int]@.len() && #[trigger] pidx@[m as int]@[k] == x;
                        assert(S.contains(m));
                        assert(pi[m as int] == pidx@[m as int]@);
                        assert(pi[m as int][k] == x);
                        assert(!order.contains(x));
                    }
                }
            }
            assert forall|q: int| 0 <= q < stack@.len() implies (#[trigger] stack@[q]) < n && seen@[stack@[q] as int] by {
                if q < st1.len() {
                    assert(stack@.subrange(0, st1.len() as int)[q] == st1[q]);
                    assert(st1[q] == st0[q]);
                }
            }
            assert forall|x: int| 0 <= x < n && seen@[x] && !done@[x] implies stack@.contains(x as usize) by {
                if seen0[x] {
                    let w = choose|w: int| 0 <= w < st0.len() && st0[w] == x as usize;
                    if w < st0.len() - 1 {
                        assert(st1[w] == x as usize);
                        assert(stack@.subrange(0, st1.len() as int)[w] == x as usize);
                    }
                }
            }
        }
    }
    proof {
        let S_end = Set::new(|x: usize| x < n && seen@[x as int]);
        assert(pi[i as int] == pidx@[i as int]@);
        assert forall|m: usize, k: int|
            S_end.contains(m) && 0 <= k < pi[m as int].len() && !order.contains(pi[m as int][k]) implies S_end.contains(
                #[trigger] pi[m as int][k],
            ) by {
            assert(pi[m as int] == pidx@[m as int]@);
            assert(!stack@.contains(m));
        }
        assert(closed_from(pi, order, i, S_end));
    }
    seen[i]
}

fn find_index(beads: &Vec<Bead>, x: &String) -> (r: Option<usize>)
    ensures
        r == (match index_of(bead_ids(beads@.map_values(|b: Bead| b@)), x@) {
            Some(j) => Some(j as usize),
            None => None::<usize>,
        }),
        r matches Some(j) ==> j < beads@.len() && index_of(bead_ids(beads@.map_values(|b: Bead| b@)), x@) == Some(j as int),
{
    let ghost ids = bead_ids(beads@.map_values(|b: Bead| b@));
    let mut i: usize = 0;
    assert(ids.subrange(0, 0) =~= Seq::<Seq<char>>::empty());
    while i < beads.len()
        invariant
            i <= beads@.len(),
            ids == bead_ids(beads@.map_values(|b: Bead| b@)),
            index_of(ids.subrange(0, i as int), x@) is None,
        decreases beads.len() - i,
    {
        let ghost pre = ids.subrange(0, i as int + 1);
        assert(pre.drop_last() =~= ids.subrange(0, i as int));
        if beads[i].id == *x {
            proof { lemma_index_of_prefix(ids, x@, i as int + 1); }
            return Some(i);
        }
        i = i + 1;
    }
    assert(ids.subrange(0, beads@.len() as int) =~= ids);
    None
}

proof fn lemma_index_of_prefix(ids: Seq<Seq<char>>, x: Seq<char>, k: int)
    requires
        0 <= k <= ids.len(),
        index_of(ids.subrange(0, k), x) is Some,
    ensures
        index_of(ids, x) == index_of(ids.subrange(0, k), x),
        index_of(ids, x)->0 < k,
    decreases ids.len() - k,
{
    if k < ids.len() {
        assert(ids.subrange(0, k + 1).drop_last() =~= ids.subrange(0, k));
        lemma_index_of_in_range(ids.subrange(0, k), x);
        lemma_index_of_prefix(ids, x, k + 1);
    } else {
        assert(ids.subrange(0, k) =~= ids);
        lemma_index_of_in_range(ids, x);
    }
}

proof fn lemma_index_of_in_range(ids: Seq<Seq<char>>, x: Seq<char>)
    ensures
        index_of(ids, x) matches Some(j) ==> 0 <= j < ids.len() && ids[j] == x,
    decreases ids.len(),
{
    if ids.len() > 0 {
        lemma_index_of_in_range(ids.drop_last(), x);
    }
}

/// Each bead's predecessors as bead positions, or a predecessor id that no
/// bead has.
fn resolve_preds(beads: &Vec<Bead>) -> (r: Result<Vec<Vec<usize>>, String>)
    ensures
        ({
            let bs = beads@.map_values(|b: Bead| b@);
            match r {
                Ok(p) => p@.map_values(|v: Vec<usize>| v@) == pred_indices(bs)
                    && (forall|x: Seq<char>| !dangling(bs, x)),
                Err(x) => first_dangling(bs, x@),
            }
        }),
{
    let ghost bs = beads@.map_values(|b: Bead| b@);
    let ghost pi = pred_indices(bs);
    let mut r: Vec<Vec<usize>> = Vec::new();
    let mut i: usize = 0;
    while i < beads.len()
        invariant
            i <= beads@.len(),
            bs == beads@.map_values(|b: Bead| b@),
            pi == pred_indices(bs),
            r@.len() == i,
            forall|a: int| 0 <= a < i ==> (#[trigger] r@[a])@ == pi[a],
            forall|a: int, k: int|
                0 <= a < i && 0 <= k < bs[a].predecessors.len() ==> index_of(bead_ids(bs), #[trigger] bs[a].predecessors[k]) is Some,
        decreases beads.len() - i,
    {
        let preds = &beads[i].predecessors;
        let mut v: Vec<usize> = Vec::new();
        let mut k: usize = 0;
        while k < preds.len()
            invariant
                i < beads@.len(),
                k <= preds@.len(),
                *preds == beads@[i as int].predecessors,
                bs == beads@.map_values(|b: Bead| b@),
                pi == pred_indices(bs),
                v@.len() == k,
                forall|c: int| 0 <= c < k ==> v@[c] == pi[i as int][c],
                forall|c: int| 0 <= c < k ==> index_of(bead_ids(bs), #[trigger] bs[i as int].predecessors[c]) is Some,
                forall|a: int, c: int|
                    0 <= a < i && 0 <= c < bs[a].predecessors.len() ==> index_of(bead_ids(bs), #[trigger] bs[a].predecessors[c]) is Some,
            decreases preds.len() - k,
        {
            match find_index(beads, &preds[k]) {
                None => {
                    assert(bs[i as int].predecessors[k as int] == preds@[k as int]@);
                    assert(index_of(bead_ids(bs), bs[i as int].predecessors[k as int]) is None);
                    assert forall|a: int, c: int|
                        0 <= a < bs.len() && 0 <= c < bs[a].predecessors.len() && (a < i || (a == i && c < k))
                            implies index_of(bead_ids(bs), #[trigger] bs[a].predecessors[c]) is Some by {
                        if a == i {
                            assert(c < k);
                        }
                    }
                    assert(first_dangling_at(bs, i as int, k as int));
                    return Err(preds[k].clone());
                },
                Some(j) => {
                    v.push(j);
                },
            }
            k = k + 1;
        }
        assert(v@ =~= pi[i as int]);
        r.push(v);
        i = i + 1;
    }
    assert(r@.map_values(|v: Vec<usize>| v@) =~= pi);
    Ok(r)
}

fn all_placed(placed: &Vec<bool>, preds: &Vec<usize>) -> (r: bool)
    requires
        forall|k: int| 0 <= k < preds@.len() ==> preds@[k] < placed@.len(),
    ensures
        r == forall|k: int| 0 <= k < preds@.len() ==> placed@[#[trigger] preds@[k] as int],
{
    let mut k: usize = 0;
    while k < preds.len()
        invariant
            k <= preds@.len(),
            forall|c: int| 0 <= c < preds@.len() ==> preds@[c] < placed@.len(),
            forall|c: int| 0 <= c < k ==> placed@[#[trigger] preds@[c] as int],
        decreases preds.len() - k,
    {
        if !placed[preds[k]] {
            return false;
        }
        k = k + 1;
    }
    true
}

/// Orders the beads so that each comes after all that it waits for, taking
/// at each turn the ready bead with the smallest id. Returns the whole order,
/// or the prefix after which no bead is ready.
fn order_beads(beads: &Vec<Bead>, pidx: &Vec<Vec<usize>>) -> (r: Result<Vec<usize>, Vec<usize>>)
    requires
        pidx@.len() == beads@.len(),
        forall|i: int, k: int|
            0 <= i < pidx@.len() && 0 <= k < pidx@[i]@.len() ==> #[trigger] pidx@[i]@[k] < beads@.len(),
    ensures
        ({
            let ids = bead_ids(beads@.map_values(|b: Bead| b@));
            let pi = pidx@.map_values(|v: Vec<usize>| v@);
            match r {
                Ok(o) => o@.len() == beads@.len() && greedy(ids, pi, o@),
                Err(o) => o@.len() < beads@.len() && greedy(ids, pi, o@) && stuck(ids, pi, o@),
            }
        }),
{
    let ghost ids = bead_ids(beads@.map_values(|b: Bead| b@));
    let ghost pi = pidx@.map_values(|v: Vec<usize>| v@);
    let n = beads.len();
    let mut placed: Vec<bool> = Vec::new();
    let mut z: usize = 0;
    while z < n
        invariant
            z <= n,
            placed@.len() == z,
            forall|x: int| 0 <= x < z ==> !placed@[x],
        decreases n - z,
    {
        placed.push(false);
        z = z + 1;
    }
    let mut order: Vec<usize> = Vec::new();
    while order.len() < n
        invariant
            n == beads@.len(),
            n == ids.len(),
            pidx@.len() == n,
            pi == pidx@.map_values(|v: Vec<usize>| v@),
            ids == bead_ids(beads@.map_values(|b: Bead| b@)),
            forall|i: int, k: int|
                0 <= i < pidx@.len() && 0 <= k < pidx@[i]@.len() ==> #[trigger] pidx@[i]@[k] < n,
            placed@.len() == n,
            order@.len() <= n,
            forall|x: usize| x < n ==> (placed@[x as int] <==> order@.contains(x)),
            greedy(ids, pi, order@),
        decreases n - order@.len(),
    {
        let mut best: Option<usize> = None;
        let mut i: usize = 0;
        while i < n
            invariant
                n == beads@.len(),
                n == ids.len(),
                pidx@.len() == n,
                pi == pidx@.map_values(|v: Vec<usize>| v@),
                ids == bead_ids(beads@.map_values(|b: Bead| b@)),
                forall|a: int, k: int|
                    0 <= a < pidx@.len() && 0 <= k < pidx@[a]@.len() ==> #[trigger] pidx@[a]@[k] < n,
                placed@.len() == n,
                forall|x: usize| x < n ==> (placed@[x as int] <==> order@.contains(x)),
                i <= n,
                match best {
                    None => forall|j: usize| j < i ==> !ready(pi, order@, j),
                    Some(b) => b < i && ready(pi, order@, b) && forall|j: usize|
                        j < i && j != b && ready(pi, order@, j) ==> before(ids, b, j),
                },
            decreases n - i,
        {
            let ok = !placed[i] && all_placed(&placed, &pidx[i]);
            assert(pi[i as int] == pidx@[i as int]@);
            if ok {
                assert forall|k: int| 0 <= k < pi[i as int].len() implies order@.contains(
                    #[trigger] pi[i as int][k],
                ) by {
                    assert(placed@[pidx@[i as int]@[k] as int]);
                }
                assert(ready(pi, order@, i));
            } else {
                if !placed[i] {
                    let ghost k = choose|k: int|
                        0 <= k < pidx@[i as int]@.len() && !placed@[#[trigger] pidx@[i as int]@[k] as int];
                    assert(!order@.contains(pi[i as int][k]));
                }
                assert(!ready(pi, order@, i));
            }
            if ok {
                match best {
                    None => {
                        best = Some(i);
                    },
                    Some(b) => {
                        assert(ids[i as int] == beads@[i as int].id@);
                        assert(ids[b as int] == beads@[b as int].id@);
                        if str_less(beads[i].id.as_str(), beads[b].id.as_str()) {
                            proof {
                                assert(seq_lt(ids[i as int], ids[b as int]));
                                assert forall|j: usize|
                                    j <= i && j != i && ready(pi, order@, j) implies before(ids, i, j) by {
                                    if j == b {
                                        assert(seq_lt(ids[i as int], ids[j as int]));
                                    } else {
                                        assert(before(ids, b, j));
                                        if seq_lt(ids[b as int], ids[j as int]) {
                                            lemma_seq_lt_trans(ids[i as int], ids[b as int], ids[j as int]);
                                        }
                                    }
                                }
                            }
                            best = Some(i);
                        } else {
                            proof {
                                lemma_seq_lt_total(ids[i as int], ids[b as int]);
                            }
                        }
                    },
                }
            }
            i = i + 1;
        }
        match best {
            None => {
                return Err(order);
            },
            Some(b) => {
                let ghost old_order = order@;
                assert(old_order.take(old_order.len() as int) =~= old_order);
                assert(first_ready(ids, pi, old_order, b));
                order.push(b);
                placed.set(b, true);
                assert forall|p: int| 0 <= p < order@.len() implies first_ready(
                    ids,
                    pi,
                    order@.take(p),
                    #[trigger] order@[p],
                ) by {
                    assert(order@.take(p) =~= old_order.take(p));
                }
                assert forall|x: usize| x < n implies (placed@[x as int] <==> order@.contains(x)) by {
                    if x == b {
                        assert(order@[old_order.len() as int] == b);
                    } else if order@.contains(x) {
                        let w = choose|w: int| 0 <= w < order@.len() && order@[w] == x;
                        assert(old_order[w] == x);
                    } else if old_order.contains(x) {
                        let w = choose|w: int| 0 <= w < old_order.len() && old_order[w] == x;
                        assert(order@[w] == x);
                    }
                }
            },
        }
    }
    Ok(order)
}

/// The beads of `bs` in the order `order`.
pub open spec fn in_order(bs: Seq<BeadV>, order: Seq<usize>) -> Seq<BeadV> {
    order.map_values(|x: usize| bs[x as int])
}

/// `r` is what compiling the cooked formula `c` gives: a dangling
/// predecessor is reported first; else the beads in the order that takes at
/// each turn the ready bead with the smallest id, or, where that order stops
/// short, the ids of the left-over beads that lie on a cycle of left-over
/// beads (see `on_cycle`), in bead order.
pub open spec fn compile_outcome(c: CookedFormula, r: Result<Molecule, GraphError>) -> bool {
    let f = c.formula@;
    let bs = beads_of(f);
    let ids = bead_ids(bs);
    let pi = pred_indices(bs);
    match r {
        Ok(m) => {
            &&& forall|x: Seq<char>| !dangling(bs, x)
            &&& m@.name == f.name
            &&& m@.formula_type == f.formula_type
            &&& exists|o: Seq<usize>|
                o.len() == bs.len() && #[trigger] greedy(ids, pi, o) && m@.beads == in_order(bs, o)
        },
        Err(GraphError::DanglingReference(x)) => first_dangling(bs, x@),
        Err(GraphError::CycleDetected(rem)) => {
            &&& forall|x: Seq<char>| !dangling(bs, x)
            &&& exists|o: Seq<usize>|
                o.len() < bs.len() && #[trigger] greedy(ids, pi, o) && stuck(ids, pi, o) && strs(rem@)
                    == cycle_ids(ids, pi, o, bs.len())
        },
    }
}

fn copy_bead(b: &Bead) -> (r: Bead)
    ensures
        r@ == b@,
{
    Bead {
        id: b.id.clone(),
        title: b.title.clone(),
        description: b.description.clone(),
        predecessors: copy_strings(&b.predecessors),
        synthesis: copy_synthesis(&b.synthesis),
    }
}

fn has_index(o: &Vec<usize>, x: usize) -> (r: bool)
    ensures
        r == o@.contains(x),
{
    let mut i: usize = 0;
    while i < o.len()
        invariant
            i <= o@.len(),
            forall|k: int| 0 <= k < i ==> o@[k] != x,
        decreases o.len() - i,
    {
        if o[i] == x {
            return true;
        }
        i = i + 1;
    }
    false
}

/// Compiles a cooked formula into a molecule: builds its beads, resolves
/// what each waits for, and orders them, taking at each turn the ready bead
/// with the smallest id, so that the same input always gives the same plan.
pub fn generate_molecule(c: &CookedFormula) -> (r: Result<Molecule, GraphError>)
    requires
        distinct_unit_ids(c.formula@),
    ensures
        compile_outcome(*c, r),
{
    let beads = build_beads(&c.formula);
    let ghost bs = beads_of(c.formula@);
    let ghost ids = bead_ids(bs);
    assert(beads@.map_values(|b: Bead| b@) == bs);
    let pidx = match resolve_preds(&beads) {
        Err(x) => {
            return Err(GraphError::DanglingReference(x));
        },
        Ok(p) => p,
    };
    let ghost pi = pred_indices(bs);
    assert(pidx@.map_values(|v: Vec<usize>| v@) == pi);
    proof {
        lemma_index_of_in_range(ids, Seq::empty());
        assert forall|i: int, k: int|
            0 <= i < pidx@.len() && 0 <= k < pidx@[i]@.len() implies #[trigger] pidx@[i]@[k] < beads@.len() by {
            assert(pidx@[i]@ == pi[i]);
            let x = bs[i].predecessors[k];
            lemma_index_of_in_range(ids, x);
            if index_of(ids, x) is None {
                assert(dangling(bs, x));
            }
        }
    }
    match order_beads(&beads, &pidx) {
        Ok(o) => {
            let mut out: Vec<Bead> = Vec::new();
            let mut p: usize = 0;
            while p < o.len()
                invariant
                    p <= o@.len(),
                    o@.len() == beads@.len(),
                    bs == beads@.map_values(|b: Bead| b@),
                    forall|q: int| 0 <= q < o@.len() ==> o@[q] < beads@.len(),
                    out@.len() == p,
                    forall|q: int| 0 <= q < p ==> (#[trigger] out@[q])@ == bs[o@[q] as int],
                decreases o.len() - p,
            {
                out.push(copy_bead(&beads[o[p]]));
                p = p + 1;
            }
            assert(out@.map_values(|b: Bead| b@) =~= in_order(bs, o@));
            let m = Molecule { name: c.formula.name.clone(), formula_type: c.formula.formula_type, beads: out };
            assert(greedy(ids, pi, o@));
            Ok(m)
        },
        Err(o) => {
            let mut left: Vec<bool> = Vec::new();
            let mut z: usize = 0;
            while z < beads.len()
                invariant
                    z <= beads@.len(),
                    left@.len() == z,
                    forall|x: usize| x < z ==> (left@[x as int] <==> !o@.contains(x)),
                decreases beads.len() - z,
            {
                left.push(!has_index(&o, z));
                z = z + 1;
            }
            let mut rem: Vec<String> = Vec::new();
            let mut i: usize = 0;
            assert(strs(rem@) =~= Seq::<Seq<char>>::empty());
            while i < beads.len()
                invariant
                    i <= beads@.len(),
                    bs == beads@.map_values(|b: Bead| b@),
                    ids == bead_ids(bs),
                    pi == pidx@.map_values(|v: Vec<usize>| v@),
                    pidx@.len() == beads@.len(),
                    left@.len() == beads@.len(),
                    forall|x: usize| x < beads@.len() ==> (left@[x as int] <==> !o@.contains(x)),
                    forall|a: int, k: int|
                        0 <= a < pidx@.len() && 0 <= k < pidx@[a]@.len() ==> #[trigger] pidx@[a]@[k] < beads@.len(),
                    strs(rem@) == cycle_ids(ids, pi, o@, i as nat),
                decreases beads.len() - i,
            {
                if left[i] && reaches_itself(&pidx, &left, i, Ghost(o@)) {
                    let ghost before = rem@;
                    rem.push(beads[i].id.clone());
                    assert(strs(rem@) =~= strs(before).push(ids[i as int]));
                }
                i = i + 1;
            }
            assert(greedy(ids, pi, o@));
            Err(GraphError::CycleDetected(rem))
        },
    }
}

/// Two orders that each take the next ready bead with the smallest id agree
/// on every common prefix.
pub proof fn lemma_greedy_prefix_eq(
    ids: Seq<Seq<char>>,
    pi: Seq<Seq<usize>>,
    o1: Seq<usize>,
    o2: Seq<usize>,
    p: int,
)
    requires
        greedy(ids, pi, o1),
        greedy(ids, pi, o2),
        0 <= p <= o1.len(),
        p <= o2.len(),
    ensures
        o1.take(p) == o2.take(p),
    decreases p,
{
    if p == 0 {
        assert(o1.take(0) =~= o2.take(0));
    } else {
        lemma_greedy_prefix_eq(ids, pi, o1, o2, p - 1);
        let a = o1[p - 1];
        let b = o2[p - 1];
        assert(first_ready(ids, pi, o1.take(p - 1), a));
        assert(first_ready(ids, pi, o2.take(p - 1), b));
        if a != b {
            lemma_seq_lt_asym(ids[a as int], ids[b as int]);
            lemma_seq_lt_asym(ids[a as int], ids[a as int]);
            assert(before(ids, a, b));
            assert(before(ids, b, a));
        }
        assert(o1.take(p) =~= o1.take(p - 1).push(a));
        assert(o2.take(p) =~= o2.take(p - 1).push(b));
    }
}

proof fn lemma_greedy_stuck_len(ids: Seq<Seq<char>>, pi: Seq<Seq<usize>>, o1: Seq<usize>, o2: Seq<usize>)
    requires
        greedy(ids, pi, o1),
        greedy(ids, pi, o2),
        stuck(ids, pi, o1),
    ensures
        o2.len() <= o1.len(),
{
    if o2.len() > o1.len() {
        let k = o1.len() as int;
        lemma_greedy_prefix_eq(ids, pi, o1, o2, k);
        assert(o1.take(k) =~= o1);
        assert(first_ready(ids, pi, o2.take(k), o2[k]));
    }
}

/// Compiling the same cooked formula twice gives the same molecule, bead for
/// bead, or the same fault.
pub proof fn lemma_compile_deterministic(
    c: CookedFormula,
    r1: Result<Molecule, GraphError>,
    r2: Result<Molecule, GraphError>,
)
    requires
        compile_outcome(c, r1),
        compile_outcome(c, r2),
    ensures
        r1 is Ok <==> r2 is Ok,
        r1 matches Ok(m1) ==> r2 matches Ok(m2) && m1@ == m2@,
        r1 matches Err(GraphError::DanglingReference(x1)) ==> r2 matches Err(
            GraphError::DanglingReference(x2),
        ) && x1@ == x2@,
        r1 matches Err(GraphError::CycleDetected(v1)) ==> r2 matches Err(GraphError::CycleDetected(v2))
            && strs(v1@) == strs(v2@),
{
    let f = c.formula@;
    let bs = beads_of(f);
    let ids = bead_ids(bs);
    let pi = pred_indices(bs);
    lemma_outcome_kinds(c, r1, r2);
    lemma_outcome_kinds(c, r2, r1);
    match (r1, r2) {
        (Ok(m1), Ok(m2)) => {
            let o1 = choose|o: Seq<usize>| o.len() == bs.len() && #[trigger] greedy(ids, pi, o) && m1@.beads == in_order(bs, o);
            let o2 = choose|o: Seq<usize>| o.len() == bs.len() && #[trigger] greedy(ids, pi, o) && m2@.beads == in_order(bs, o);
            lemma_greedy_prefix_eq(ids, pi, o1, o2, bs.len() as int);
            assert(o1.take(bs.len() as int) =~= o1);
            assert(o2.take(bs.len() as int) =~= o2);
            assert(m1@ =~= m2@);
        },
        (Err(GraphError::CycleDetected(v1)), Err(GraphError::CycleDetected(v2))) => {
            let o1 = choose|o: Seq<usize>|
                o.len() < bs.len() && #[trigger] greedy(ids, pi, o) && stuck(ids, pi, o) && strs(v1@)
                    == cycle_ids(ids, pi, o, bs.len());
            let o2 = choose|o: Seq<usize>|
                o.len() < bs.len() && #[trigger] greedy(ids, pi, o) && stuck(ids, pi, o) && strs(v2@)
                    == cycle_ids(ids, pi, o, bs.len());
            lemma_greedy_stuck_len(ids, pi, o1, o2);
            lemma_greedy_stuck_len(ids, pi, o2, o1);
            lemma_greedy_prefix_eq(ids, pi, o1, o2, o1.len() as int);
            assert(o1.take(o1.len() as int) =~= o1);
            assert(o2.take(o2.len() as int) =~= o2);
        },
        (Err(GraphError::DanglingReference(x1)), Err(GraphError::DanglingReference(x2))) => {
            let (i1, k1) = choose|i: int, k: int| first_dangling_at(bs, i, k) && bs[i].predecessors[k] == x1@;
            let (i2, k2) = choose|i: int, k: int| first_dangling_at(bs, i, k) && bs[i].predecessors[k] == x2@;
            if i1 < i2 || (i1 == i2 && k1 < k2) {
                assert(index_of(ids, bs[i1].predecessors[k1]) is Some);
            } else if i2 < i1 || (i1 == i2 && k2 < k1) {
                assert(index_of(ids, bs[i2].predecessors[k2]) is Some);
            }
        },
        _ => {},
    }
}

/// The kinds of outcome exclude one another: a complete order, a dangling
/// predecessor and an order that stops short never stand for the same input.
proof fn lemma_outcome_kinds(c: CookedFormula, r1: Result<Molecule, GraphError>, r2: Result<Molecule, GraphError>)
    requires
        compile_outcome(c, r1),
        compile_outcome(c, r2),
    ensures
        r1 is Ok ==> r2 is Ok,
        r1 matches Err(GraphError::DanglingReference(_)) ==> r2 matches Err(GraphError::DanglingReference(_)),
{
    let f = c.formula@;
    let bs = beads_of(f);
    let ids = bead_ids(bs);
    let pi = pred_indices(bs);
    match (r1, r2) {
        (Ok(m1), Err(GraphError::CycleDetected(v2))) => {
            let o1 = choose|o: Seq<usize>| o.len() == bs.len() && #[trigger] greedy(ids, pi, o) && m1@.beads == in_order(bs, o);
            let o2 = choose|o: Seq<usize>|
                o.len() < bs.len() && #[trigger] greedy(ids, pi, o) && stuck(ids, pi, o) && strs(v2@)
                    == cycle_ids(ids, pi, o, bs.len());
            lemma_greedy_stuck_len(ids, pi, o2, o1);
        },
        (Ok(_), Err(GraphError::DanglingReference(x))) | (Err(GraphError::CycleDetected(_)), Err(GraphError::DanglingReference(x))) => {
            let (i, k) = choose|i: int, k: int| first_dangling_at(bs, i, k) && bs[i].predecessors[k] == x@;
            assert(dangling(bs, x@));
        },
        (Err(GraphError::DanglingReference(x)), _) => {
            let (i, k) = choose|i: int, k: int| first_dangling_at(bs, i, k) && bs[i].predecessors[k] == x@;
            assert(dangling(bs, x@));
        },
        _ => {},
    }
}

/// With distinct step and leg ids, the beads of a compiled molecule have
/// pairwise distinct ids.
pub proof fn lemma_molecule_ids_distinct(c: CookedFormula, m: Molecule)
    requires
        distinct_unit_ids(c.formula@),
        compile_outcome(c, Ok(m)),
    ensures
        forall|a: int, b: int| 0 <= a < b < m@.beads.len() ==> m@.beads[a].id != m@.beads[b].id,
{
    let f = c.formula@;
    let bs = beads_of(f);
    let ids = bead_ids(bs);
    let pi = pred_indices(bs);
    let o = choose|o: Seq<usize>| o.len() == bs.len() && #[trigger] greedy(ids, pi, o) && m@.beads == in_order(bs, o);
    assert forall|a: int, b: int| 0 <= a < b < m@.beads.len() implies m@.beads[a].id != m@.beads[b].id by {
        assert(first_ready(ids, pi, o.take(b), o[b]));
        assert(first_ready(ids, pi, o.take(a), o[a]));
        assert(o.take(b)[a] == o[a]);
        assert(o[a] != o[b]);
        assert(m@.beads[a] == bs[o[a] as int]);
        assert(m@.beads[b] == bs[o[b] as int]);
        if f.formula_type == FormulaType::Workflow {
            assert(bs[o[a] as int].id == f.steps[o[a] as int].id);
            assert(bs[o[b] as int].id == f.steps[o[b] as int].id);
            if o[a] < o[b] {
                assert(f.steps[o[a] as int].id != f.steps[o[b] as int].id);
            } else {
                assert(f.steps[o[b] as int].id != f.steps[o[a] as int].id);
            }
        } else if f.formula_type == FormulaType::Convoy {
            assert(bs[o[a] as int].id == f.legs[o[a] as int].id);
            assert(bs[o[b] as int].id == f.legs[o[b] as int].id);
            if o[a] < o[b] {
                assert(f.legs[o[a] as int].id != f.legs[o[b] as int].id);
            } else {
                assert(f.legs[o[b] as int].id != f.legs[o[a] as int].id);
            }
        }
    }
}

/// Such an order is topological: every bead comes after each bead that it
/// waits for.
pub proof fn lemma_greedy_is_topological(
    ids: Seq<Seq<char>>,
    pi: Seq<Seq<usize>>,
    o: Seq<usize>,
    p: int,
    k: int,
)
    requires
        greedy(ids, pi, o),
        0 <= p < o.len(),
        0 <= k < pi[o[p] as int].len(),
    ensures
        exists|w: int| 0 <= w < p && o[w] == pi[o[p] as int][k],
{
    assert(first_ready(ids, pi, o.take(p), o[p]));
    let x = pi[o[p] as int][k];
    assert(o.take(p).contains(x));
    let w = choose|w: int| 0 <= w < o.take(p).len() && o.take(p)[w] == x;
    assert(o[w] == x);
}

/// Where the order stops short, every bead left over waits for another bead
/// left over: each is on a cycle or waits, through left-over beads, on one.
pub proof fn lemma_left_over_waits(ids: Seq<Seq<char>>, pi: Seq<Seq<usize>>, o: Seq<usize>, i: usize)
    requires
        stuck(ids, pi, o),
        i < ids.len(),
        !o.contains(i),
    ensures
        exists|k: int| 0 <= k < pi[i as int].len() && !o.contains(#[trigger] pi[i as int][k]),
{
    assert(!ready(pi, o, i));
}

/// `t` lists each of the `n` beads once, every bead after all that it waits for.
pub open spec fn topological(pi: Seq<Seq<usize>>, t: Seq<usize>, n: nat) -> bool {
    &&& t.len() == n
    &&& forall|p: int| 0 <= p < t.len() ==> (#[trigger] t[p]) < n
    &&& forall|a: int, b: int| 0 <= a < b < t.len() ==> t[a] != t[b]
    &&& forall|p: int, k: int|
        0 <= p < t.len() && 0 <= k < pi[t[p] as int].len() ==> t.take(p).contains(
            #[trigger] pi[t[p] as int][k],
        )
}

proof fn lemma_first_difference(o: Seq<usize>, t: Seq<usize>, q: int) -> (p: int)
    requires
        o.len() == t.len(),
        0 <= q <= o.len(),
        o != t,
        o.take(q) == t.take(q),
    ensures
        q <= p < o.len(),
        o.take(p) == t.take(p),
        o[p] != t[p],
    decreases o.len() - q,
{
    if q == o.len() {
        assert(o.take(q) =~= o);
        assert(t.take(q) =~= t);
        q
    } else if o[q] != t[q] {
        q
    } else {
        assert(o.take(q + 1) =~= o.take(q).push(o[q]));
        assert(t.take(q + 1) =~= t.take(q).push(t[q]));
        lemma_first_difference(o, t, q + 1)
    }
}

/// When bead ids are distinct, the order that takes the ready bead with the
/// smallest id at each turn is the lexicographically smallest topological
/// order: any other one first differs from it at a bead with a larger id.
pub proof fn lemma_greedy_is_smallest(ids: Seq<Seq<char>>, pi: Seq<Seq<usize>>, o: Seq<usize>, t: Seq<usize>)
    requires
        forall|a: int, b: int| 0 <= a < b < ids.len() ==> ids[a] != ids[b],
        o.len() == ids.len(),
        greedy(ids, pi, o),
        topological(pi, t, ids.len()),
        o != t,
    ensures
        exists|p: int|
            0 <= p < o.len() && o.take(p) == t.take(p) && seq_lt(ids[o[p] as int], ids[#[trigger] t[p] as int]),
{
    assert(o.take(0) =~= t.take(0));
    let p = lemma_first_difference(o, t, 0);
    let x = t[p];
    assert(first_ready(ids, pi, o.take(p), o[p]));
    assert(!t.take(p).contains(x)) by {
        if t.take(p).contains(x) {
            let w = choose|w: int| 0 <= w < t.take(p).len() && t.take(p)[w] == x;
            assert(t[w] == t[p]);
        }
    }
    assert forall|k: int| 0 <= k < pi[x as int].len() implies o.take(p).contains(#[trigger] pi[x as int][k]) by {
        assert(t.take(p).contains(pi[t[p] as int][k]));
    }
    assert(ready(pi, o.take(p), x));
    assert(before(ids, o[p], x));
    if ids[o[p] as int] == ids[x as int] {
        if (o[p] as int) < (x as int) {
            assert(ids[o[p] as int] != ids[x as int]);
        } else {
            assert(ids[x as int] != ids[o[p] as int]);
        }
    }
}

} // verus!
