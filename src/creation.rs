//! The resolution engine: evaluates adopted features against the player's
//! choices and accumulates the resulting character.

use vstd::prelude::*;
use crate::feature_db::{MemDB, has_id, ids_unique, selected};
use crate::material::{Feature, Query, Trait, Value};
use crate::roll::{DiceSource, Roll, RollExpr};
use crate::table::Table;

verus! {

/// Why an evaluation failed.
#[derive(Debug)]
pub enum EvalError {
    /// A root or a `Ref` names no feature of the store.
    UnknownFeature(String),
    /// `Add` on a name that holds no value yet.
    MissingBaseValue(String),
    /// `Add` where the held value or the increment is not an integer.
    TypeMismatch(String),
    /// `Add` whose sum does not fit an `i64`.
    Overflow(String),
    /// A roll that has a die of no sides, or whose total may not fit an `i32`.
    UnrollableRoll(String),
    /// A feature was reached again while it was being evaluated; the path of
    /// identifiers that led back to it.
    CycleDetected(Vec<String>),
}

/// The accumulated result of an evaluation.
pub struct Character {
    /// Identifiers of the features that were evaluated.
    pub features: Table<()>,
    /// For each choice point, the identifiers of the features it offered.
    pub choices: Table<Vec<String>>,
    /// The current value of each name.
    pub values: Table<Value>,
    /// The roll made for each roll name.
    pub rolls: Table<Roll>,
}

/// The integer that `Add` of `delta` to `name` gives, or the error it fails with.
pub open spec fn sum_of(values: Map<Seq<char>, Value>, name: String, delta: Value) -> Result<
    i64,
    EvalError,
> {
    if !values.contains_key(name@) {
        Err(EvalError::MissingBaseValue(name))
    } else {
        match (values[name@], delta) {
            (Value::Int(a), Value::Int(b)) => if i64::MIN <= a + b <= i64::MAX {
                Ok((a + b) as i64)
            } else {
                Err(EvalError::Overflow(name))
            },
            _ => Err(EvalError::TypeMismatch(name)),
        }
    }
}

/// `b` extends `a`: no evaluated feature or choice point is lost and no
/// roll is replaced.
pub open spec fn grows(a: Character, b: Character) -> bool {
    &&& a.features@.dom().subset_of(b.features@.dom())
    &&& a.choices@.dom().subset_of(b.choices@.dom())
    &&& forall|k: Seq<char>| #[trigger]
        a.rolls@.contains_key(k) ==> b.rolls@.contains_key(k) && b.rolls@[k] == a.rolls@[k]
}

/// The identifier a choice point selects: the caller's decision when it names
/// an offered feature, else the default when that does, else none.
pub open spec fn choice_target(
    options: Seq<Feature>,
    decision: Option<Seq<char>>,
    default: Option<Seq<char>>,
) -> Option<Seq<char>> {
    if decision is Some && has_id(options, decision->0) {
        decision
    } else if default is Some && has_id(options, default->0) {
        default
    } else {
        None
    }
}

pub open spec fn text_of(o: Option<&String>) -> Option<Seq<char>> {
    match o {
        Some(s) => Some(s@),
        None => None,
    }
}

pub open spec fn owned_text_of(o: Option<String>) -> Option<Seq<char>> {
    match o {
        Some(s) => Some(s@),
        None => None,
    }
}

pub open spec fn deref_all(s: Seq<&Feature>) -> Seq<Feature> {
    s.map_values(|f: &Feature| *f)
}

/// The offered feature whose identifier is `id`.
fn find_option<'b>(options: &Vec<&'b Feature>, id: &String) -> (r: Option<&'b Feature>)
    ensures
        match r {
            Some(f) => deref_all(options@).contains(*f) && f.id@ == id@,
            None => !has_id(deref_all(options@), id@),
        },
{
    let mut i: usize = 0;
    while i < options.len()
        invariant
            i <= options@.len(),
            forall|j: int| 0 <= j < i ==> (#[trigger] deref_all(options@)[j]).id@ != id@,
        decreases options@.len() - i,
    {
        if options[i].id == *id {
            assert(deref_all(options@)[i as int] == *options@[i as int]);
            return Some(options[i]);
        }
        i = i + 1;
    }
    None
}

/// Resolves a choice point among `options`, as `choice_target` says.
pub fn select_option<'b>(
    options: &Vec<&'b Feature>,
    decision: Option<&String>,
    default: Option<&String>,
) -> (r: Option<&'b Feature>)
    ensures
        match choice_target(deref_all(options@), text_of(decision), text_of(default)) {
            Some(id) => r is Some && deref_all(options@).contains(*r->0) && r->0.id@ == id,
            None => r is None,
        },
{
    if let Some(d) = decision {
        if let Some(f) = find_option(options, d) {
            return Some(f);
        }
    }
    if let Some(d) = default {
        if let Some(f) = find_option(options, d) {
            return Some(f);
        }
    }
    None
}

impl Character {
    pub open spec fn wf(&self) -> bool {
        &&& self.features.wf()
        &&& self.choices.wf()
        &&& self.values.wf()
        &&& self.rolls.wf()
    }

    /// A character with nothing evaluated.
    pub fn new() -> (r: Character)
        ensures
            r.wf(),
            r.features@ == Map::<Seq<char>, ()>::empty(),
            r.choices@ == Map::<Seq<char>, Vec<String>>::empty(),
            r.values@ == Map::<Seq<char>, Value>::empty(),
            r.rolls@ == Map::<Seq<char>, Roll>::empty(),
    {
        Character { features: Table::new(), choices: Table::new(), values: Table::new(), rolls: Table::new() }
    }

    /// Applies `Data`: `name` holds `value` afterwards, whatever it held.
    pub fn set_value(&mut self, name: &String, value: &Value)
        requires
            old(self).wf(),
        ensures
            final(self).wf(),
            final(self).values@ == old(self).values@.insert(name@, *value),
            final(self).features@ == old(self).features@,
            final(self).choices@ == old(self).choices@,
            final(self).rolls@ == old(self).rolls@,
    {
        self.values.set(name.clone(), value.duplicate());
    }

    /// Applies `Add`: adds the integer `delta` to the integer that `name`
    /// holds, failing as `sum_of` says and then changing nothing.
    pub fn add_value(&mut self, name: &String, delta: &Value) -> (r: Result<(), EvalError>)
        requires
            old(self).wf(),
        ensures
            final(self).wf(),
            match sum_of(old(self).values@, *name, *delta) {
                Ok(n) => r is Ok && final(self).values@ == old(self).values@.insert(
                    name@,
                    Value::Int(n),
                ),
                Err(e) => r == Err::<(), EvalError>(e) && final(self).values@ == old(self).values@,
            },
            final(self).features@ == old(self).features@,
            final(self).choices@ == old(self).choices@,
            final(self).rolls@ == old(self).rolls@,
    {
        let base = match self.values.get(name) {
            None => return Err(EvalError::MissingBaseValue(name.clone())),
            Some(v) => v,
        };
        match (base, delta) {
            (Value::Int(a), Value::Int(b)) => {
                match a.checked_add(*b) {
                    Some(n) => {
                        self.values.set(name.clone(), Value::Int(n));
                        Ok(())
                    },
                    None => Err(EvalError::Overflow(name.clone())),
                }
            },
            _ => Err(EvalError::TypeMismatch(name.clone())),
        }
    }

    /// Applies `Roll`: the first roll under `name` is made from `expr` and
    /// kept; every later one reuses it. `name` then holds the roll's total.
    pub fn apply_roll(&mut self, name: &String, expr: &RollExpr, dice: &mut DiceSource) -> (r: Result<
        (),
        EvalError,
    >)
        requires
            old(self).wf(),
            old(dice).wf(),
        ensures
            final(self).wf(),
            final(dice).wf(),
            final(dice).fixed_faces() == old(dice).fixed_faces(),
            final(self).features@ == old(self).features@,
            final(self).choices@ == old(self).choices@,
            r is Ok ==> roll_applied(*old(self), *final(self), name@),
            old(self).rolls@.contains_key(name@) ==> *final(dice) == *old(dice),
            old(dice).fixed_faces() is None ==> final(dice).position() == old(dice).position(),
            !old(self).rolls@.contains_key(name@) && expr.rollable() ==> (old(dice).fixed_faces() matches Some(
                fs,
            ) ==> final(dice).position() == expr.fixed_next(fs, old(dice).position())),
            old(self).rolls@.contains_key(name@) ==> r is Ok && final(self).rolls@ == old(
                self,
            ).rolls@ && final(self).values@ == old(self).values@.insert(
                name@,
                Value::Int(old(self).rolls@[name@].total() as i64),
            ),
            !old(self).rolls@.contains_key(name@) && !expr.rollable() ==> r == Err::<(), EvalError>(
                EvalError::UnrollableRoll(*name),
            ) && final(self).rolls@ == old(self).rolls@ && final(self).values@ == old(self).values@,
            !old(self).rolls@.contains_key(name@) && expr.rollable() ==> {
                let made = final(self).rolls@[name@];
                &&& r is Ok
                &&& final(self).rolls@ == old(self).rolls@.insert(name@, made)
                &&& expr.possible_faces(made.faces())
                &&& made.total() == expr.total_of(made.faces())
                &&& old(dice).fixed_faces() matches Some(fs) ==> made.faces() == expr.fixed_kept(
                    fs,
                    old(dice).position(),
                )
                &&& final(self).values@ == old(self).values@.insert(
                    name@,
                    Value::Int(made.total() as i64),
                )
            },
    {
        if !self.rolls.contains_key(name) {
            if !expr.can_roll() {
                return Err(EvalError::UnrollableRoll(name.clone()));
            }
            let made = expr.roll(dice);
            self.rolls.set(name.clone(), made);
        }
        let total = match self.rolls.get(name) {
            Some(made) => made.value(),
            None => 0,
        };
        self.values.set(name.clone(), Value::Int(total as i64));
        Ok(())
    }

    /// Records the features a choice point offered, replacing an earlier record.
    pub fn record_choice(&mut self, id: &String, options: &Vec<&Feature>)
        requires
            old(self).wf(),
        ensures
            final(self).wf(),
            final(self).choices@.contains_key(id@),
            final(self).choices@ == old(self).choices@.insert(id@, final(self).choices@[id@]),
            final(self).choices@[id@]@ == options@.map_values(|f: &Feature| f.id),
            final(self).features@ == old(self).features@,
            final(self).values@ == old(self).values@,
            final(self).rolls@ == old(self).rolls@,
    {
        let mut ids: Vec<String> = Vec::new();
        let mut i: usize = 0;
        while i < options.len()
            invariant
                i <= options@.len(),
                ids@ == options@.take(i as int).map_values(|f: &Feature| f.id),
            decreases options@.len() - i,
        {
            ids.push(options[i].id.clone());
            i = i + 1;
            assert(ids@ =~= options@.take(i as int).map_values(|f: &Feature| f.id));
        }
        assert(options@.take(i as int) == options@);
        self.choices.set(id.clone(), ids);
    }
}

/// What a successful `Roll` under `name` leaves: `b` holds a roll under
/// `name`, one that `a` already held if it held any, and `name` holds its total.
pub open spec fn roll_applied(a: Character, b: Character, name: Seq<char>) -> bool {
    &&& b.rolls@.contains_key(name)
    &&& a.rolls@.contains_key(name) ==> b.rolls@ == a.rolls@
    &&& b.values@ == a.values@.insert(name, Value::Int(b.rolls@[name].total() as i64))
}

/// `Data(x, v1)` and then `Data(x, v2)` leave `v2` under `x`.
pub proof fn law_last_write_wins(c0: Character, c1: Character, c2: Character, x: String, v1: Value, v2: Value)
    requires
        c1.values@ == c0.values@.insert(x@, v1),
        c2.values@ == c1.values@.insert(x@, v2),
    ensures
        c2.values@.contains_key(x@),
        c2.values@[x@] == v2,
{
}

/// `Add` on a name that holds no value fails with `MissingBaseValue`.
pub proof fn law_add_needs_base(values: Map<Seq<char>, Value>, x: String, delta: Value)
    requires
        !values.contains_key(x@),
    ensures
        sum_of(values, x, delta) == Err::<i64, EvalError>(EvalError::MissingBaseValue(x)),
{
}

/// Without a decision, a choice point selects its default when offered; a
/// decision that names an offered feature overrides the default.
pub proof fn law_choice_precedence(options: Seq<Feature>, decision: Seq<char>, default: Seq<char>)
    requires
        has_id(options, default),
    ensures
        choice_target(options, None, Some(default)) == Some(default),
        has_id(options, decision) ==> choice_target(options, Some(decision), Some(default)) == Some(
            decision,
        ),
{
}

/// A roll name reached a second time in one evaluation, with any evaluation
/// in between, gives the same total and keeps the same roll.
pub proof fn law_roll_memoized(c0: Character, c1: Character, c2: Character, c3: Character, name: Seq<char>)
    requires
        roll_applied(c0, c1, name),
        grows(c1, c2),
        roll_applied(c2, c3, name),
    ensures
        c3.rolls@[name] == c1.rolls@[name],
        c3.values@[name] == c1.values@[name],
{
    assert(c2.rolls@.contains_key(name));
}

/// The decision recorded for the choice point `id`, as text.
pub open spec fn decision_of(decisions: Map<Seq<char>, String>, id: Seq<char>) -> Option<Seq<char>> {
    if decisions.contains_key(id) {
        Some(decisions[id]@)
    } else {
        None
    }
}

/// The feature of `entries` whose identifier is `id`.
pub open spec fn feature_named(entries: Seq<Feature>, id: Seq<char>) -> Feature {
    entries[choose|i: int| 0 <= i < entries.len() && (#[trigger] entries[i]).id@ == id]
}

/// Why an evaluation fails, over plain values.
pub enum Fault {
    UnknownFeature(Seq<char>),
    MissingBaseValue(Seq<char>),
    TypeMismatch(Seq<char>),
    Overflow(Seq<char>),
    UnrollableRoll(Seq<char>),
    CycleDetected(Seq<Seq<char>>),
    /// A roll from a random source that `Env::oracle` does not supply.
    NoRoll(Seq<char>),
}

pub open spec fn fault_of(e: EvalError) -> Fault {
    match e {
        EvalError::UnknownFeature(s) => Fault::UnknownFeature(s@),
        EvalError::MissingBaseValue(s) => Fault::MissingBaseValue(s@),
        EvalError::TypeMismatch(s) => Fault::TypeMismatch(s@),
        EvalError::Overflow(s) => Fault::Overflow(s@),
        EvalError::UnrollableRoll(s) => Fault::UnrollableRoll(s@),
        EvalError::CycleDetected(p) => Fault::CycleDetected(p@.map_values(|t: String| t@)),
    }
}

/// A character as plain values, with the position of a fixed dice source.
pub struct Sheet {
    pub features: Set<Seq<char>>,
    pub choices: Map<Seq<char>, Seq<Seq<char>>>,
    pub values: Map<Seq<char>, Value>,
    pub rolls: Map<Seq<char>, (int, Seq<u8>)>,
    pub pos: nat,
}

pub open spec fn ids_of(v: Vec<String>) -> Seq<Seq<char>> {
    v@.map_values(|t: String| t@)
}

pub open spec fn roll_of(r: Roll) -> (int, Seq<u8>) {
    (r.total(), r.faces())
}

pub open spec fn sheet_of(c: Character, pos: nat) -> Sheet {
    Sheet {
        features: c.features@.dom(),
        choices: c.choices@.map_values(|v: Vec<String>| ids_of(v)),
        values: c.values@,
        rolls: c.rolls@.map_values(|r: Roll| roll_of(r)),
        pos,
    }
}

pub open spec fn empty_sheet(pos: nat) -> Sheet {
    Sheet {
        features: Set::empty(),
        choices: Map::empty(),
        values: Map::empty(),
        rolls: Map::empty(),
        pos,
    }
}

/// What an evaluation reads: the store, the decisions, the faces of a fixed
/// dice source (none for a random one), and, for a random source, the roll
/// made under each name.
pub struct Env {
    pub entries: Seq<Feature>,
    pub decisions: Map<Seq<char>, String>,
    pub fixed: Option<Seq<u8>>,
    pub oracle: Map<Seq<char>, (int, Seq<u8>)>,
}

/// The roll first made under `name` from `e`, and the dice position after
/// it: from a fixed source, the roll its faces give; from a random one, the
/// oracle's roll for `name` when it is one that `e` can give.
pub open spec fn fresh_roll(env: Env, name: Seq<char>, e: RollExpr, pos: nat) -> Option<((int, Seq<u8>), nat)> {
    match env.fixed {
        Some(fs) => Some(((e.total_of(e.fixed_kept(fs, pos)), e.fixed_kept(fs, pos)), e.fixed_next(fs, pos))),
        None => if env.oracle.contains_key(name) && e.possible_faces(env.oracle[name].1)
            && env.oracle[name].0 == e.total_of(env.oracle[name].1) {
            Some((env.oracle[name], pos))
        } else {
            None
        },
    }
}

/// Evaluating `f` from `s`, with `path` the features being evaluated and
/// `fuel` the depth still allowed: a feature already on the path is a cycle;
/// otherwise it is recorded and its traits applied in order.
pub open spec fn run_feature(env: Env, f: Feature, s: Sheet, path: Seq<Seq<char>>, fuel: nat) -> Result<
    Sheet,
    Fault,
>
    decreases fuel, f.traits@.len() + 1,
{
    if path.contains(f.id@) || fuel == 0 {
        Err(Fault::CycleDetected(path.push(f.id@)))
    } else {
        run_traits(
            env,
            f,
            0,
            Sheet { features: s.features.insert(f.id@), ..s },
            path.push(f.id@),
            fuel,
        )
    }
}

/// Applying the traits of `f` from index `i` on; the first failure ends it.
pub open spec fn run_traits(
    env: Env,
    f: Feature,
    i: nat,
    s: Sheet,
    path: Seq<Seq<char>>,
    fuel: nat,
) -> Result<Sheet, Fault>
    decreases fuel, f.traits@.len() - i,
{
    if i >= f.traits@.len() {
        Ok(s)
    } else {
        let next: Result<Sheet, Fault> = match f.traits@[i as int] {
            Trait::Data { name, value } => Ok(Sheet { values: s.values.insert(name@, value), ..s }),
            Trait::Add { name, value } => match sum_of(s.values, name, value) {
                Ok(n) => Ok(Sheet { values: s.values.insert(name@, Value::Int(n)), ..s }),
                Err(e) => Err(fault_of(e)),
            },
            Trait::Roll { name, expr } => if s.rolls.contains_key(name@) {
                Ok(Sheet { values: s.values.insert(name@, Value::Int(s.rolls[name@].0 as i64)), ..s })
            } else if !expr.rollable() {
                Err(Fault::UnrollableRoll(name@))
            } else {
                match fresh_roll(env, name@, expr, s.pos) {
                    Some((r, p)) => Ok(
                        Sheet {
                            rolls: s.rolls.insert(name@, r),
                            values: s.values.insert(name@, Value::Int(r.0 as i64)),
                            pos: p,
                            ..s
                        },
                    ),
                    None => Err(Fault::NoRoll(name@)),
                }
            },
            Trait::Ref { id } => if !has_id(env.entries, id@) {
                Err(Fault::UnknownFeature(id@))
            } else if fuel == 0 {
                Err(Fault::CycleDetected(path.push(id@)))
            } else {
                run_feature(env, feature_named(env.entries, id@), s, path, (fuel - 1) as nat)
            },
            Trait::Choice { id, query, default } => {
                let offered = selected(env.entries, query);
                let s1 = Sheet {
                    choices: s.choices.insert(id@, offered.map_values(|g: Feature| g.id@)),
                    ..s
                };
                match choice_target(offered, decision_of(env.decisions, id@), owned_text_of(default)) {
                    None => Ok(s1),
                    Some(t) => if fuel == 0 {
                        Err(Fault::CycleDetected(path.push(t)))
                    } else {
                        run_feature(env, feature_named(env.entries, t), s1, path, (fuel - 1) as nat)
                    },
                }
            },
        };
        match next {
            Ok(s2) => run_traits(env, f, i + 1, s2, path, fuel),
            Err(e) => Err(e),
        }
    }
}

/// Evaluating the roots in order from `s`, each with an empty path and the
/// store's size as depth.
pub open spec fn run_roots(env: Env, roots: Seq<String>, s: Sheet) -> Result<Sheet, Fault>
    decreases roots.len(),
{
    if roots.len() == 0 {
        Ok(s)
    } else {
        match run_roots(env, roots.drop_last(), s) {
            Err(e) => Err(e),
            Ok(s1) => if !has_id(env.entries, roots.last()@) {
                Err(Fault::UnknownFeature(roots.last()@))
            } else {
                run_feature(
                    env,
                    feature_named(env.entries, roots.last()@),
                    s1,
                    Seq::empty(),
                    env.entries.len(),
                )
            },
        }
    }
}

/// A feature whose first trait adds to a name that holds no value fails
/// with `MissingBaseValue` for that name.
pub proof fn law_add_without_base_fails(env: Env, f: Feature, s: Sheet, path: Seq<Seq<char>>, fuel: nat, name: String, delta: Value)
    requires
        !path.contains(f.id@),
        fuel > 0,
        f.traits@.len() > 0,
        f.traits@[0] == (Trait::Add { name, value: delta }),
        !s.values.contains_key(name@),
    ensures
        run_feature(env, f, s, path, fuel) == Err::<Sheet, Fault>(Fault::MissingBaseValue(name@)),
{
}

/// A feature that sets `x` to `v1` and then to `v2` leaves `v2` under `x`.
pub proof fn law_feature_last_write_wins(env: Env, f: Feature, s: Sheet, path: Seq<Seq<char>>, fuel: nat, x: String, v1: Value, v2: Value)
    requires
        !path.contains(f.id@),
        fuel > 0,
        f.traits@ == seq![Trait::Data { name: x, value: v1 }, Trait::Data { name: x, value: v2 }],
    ensures
        run_feature(env, f, s, path, fuel) is Ok,
        run_feature(env, f, s, path, fuel)->Ok_0.values.contains_key(x@),
        run_feature(env, f, s, path, fuel)->Ok_0.values[x@] == v2,
{
    let p = path.push(f.id@);
    let s0 = Sheet { features: s.features.insert(f.id@), ..s };
    let s1 = Sheet { values: s0.values.insert(x@, v1), ..s0 };
    let s2 = Sheet { values: s1.values.insert(x@, v2), ..s1 };
    assert(run_traits(env, f, 2, s2, p, fuel) == Ok::<Sheet, Fault>(s2));
    assert(run_traits(env, f, 1, s1, p, fuel) == run_traits(env, f, 2, s2, p, fuel));
    assert(run_traits(env, f, 0, s0, p, fuel) == run_traits(env, f, 1, s1, p, fuel));
    assert(run_feature(env, f, s, path, fuel) == run_traits(env, f, 0, s0, p, fuel));
}

/// The sheet after `f` is recorded and the choice point `id` offers `offered`.
pub open spec fn offered_sheet(s: Sheet, f: Feature, id: String, offered: Seq<Feature>) -> Sheet {
    Sheet {
        features: s.features.insert(f.id@),
        choices: s.choices.insert(id@, offered.map_values(|g: Feature| g.id@)),
        ..s
    }
}

/// A feature whose only trait is a choice point with an offered default and
/// no decision evaluates exactly the default's feature, after recording the
/// offered identifiers.
pub proof fn law_choice_default_evaluated(
    env: Env,
    f: Feature,
    s: Sheet,
    path: Seq<Seq<char>>,
    fuel: nat,
    id: String,
    query: Query,
    d: String,
)
    requires
        !path.contains(f.id@),
        fuel > 1,
        f.traits@ == seq![Trait::Choice { id, query, default: Some(d) }],
        !env.decisions.contains_key(id@),
        has_id(selected(env.entries, query), d@),
    ensures
        run_feature(env, f, s, path, fuel) == run_feature(
            env,
            feature_named(env.entries, d@),
            offered_sheet(s, f, id, selected(env.entries, query)),
            path.push(f.id@),
            (fuel - 1) as nat,
        ),
{
    reveal_with_fuel(run_traits, 3);
    let inner = run_feature(
        env,
        feature_named(env.entries, d@),
        offered_sheet(s, f, id, selected(env.entries, query)),
        path.push(f.id@),
        (fuel - 1) as nat,
    );
    if let Ok(s2) = inner {
        assert(run_traits(env, f, 1, s2, path.push(f.id@), fuel) == Ok::<Sheet, Fault>(s2));
    }
}

/// A decision that names an offered feature overrides the default: the
/// choice point evaluates exactly the decided feature.
pub proof fn law_choice_decision_overrides(
    env: Env,
    f: Feature,
    s: Sheet,
    path: Seq<Seq<char>>,
    fuel: nat,
    id: String,
    query: Query,
    default: Option<String>,
)
    requires
        !path.contains(f.id@),
        fuel > 1,
        f.traits@ == seq![Trait::Choice { id, query, default }],
        env.decisions.contains_key(id@),
        has_id(selected(env.entries, query), env.decisions[id@]@),
    ensures
        run_feature(env, f, s, path, fuel) == run_feature(
            env,
            feature_named(env.entries, env.decisions[id@]@),
            offered_sheet(s, f, id, selected(env.entries, query)),
            path.push(f.id@),
            (fuel - 1) as nat,
        ),
{
    reveal_with_fuel(run_traits, 3);
    let inner = run_feature(
        env,
        feature_named(env.entries, env.decisions[id@]@),
        offered_sheet(s, f, id, selected(env.entries, query)),
        path.push(f.id@),
        (fuel - 1) as nat,
    );
    if let Ok(s2) = inner {
        assert(run_traits(env, f, 1, s2, path.push(f.id@), fuel) == Ok::<Sheet, Fault>(s2));
    }
}

/// A roll name that already holds a roll is not rolled again: the trait
/// keeps the roll and the dice position, and sets the name to its total.
pub proof fn law_roll_reused(env: Env, f: Feature, i: nat, s: Sheet, path: Seq<Seq<char>>, fuel: nat, name: String, expr: RollExpr)
    requires
        i < f.traits@.len(),
        f.traits@[i as int] == (Trait::Roll { name, expr }),
        s.rolls.contains_key(name@),
    ensures
        run_traits(env, f, i, s, path, fuel) == run_traits(
            env,
            f,
            i + 1,
            Sheet { values: s.values.insert(name@, Value::Int(s.rolls[name@].0 as i64)), ..s },
            path,
            fuel,
        ),
{
}

/// Two features that each refer to the other only: evaluating either ends
/// in `CycleDetected`, whatever depth is allowed.
pub proof fn law_reference_cycle_detected(env: Env, a: Feature, b: Feature, s: Sheet, fuel: nat)
    requires
        ids_unique(env.entries),
        env.entries.contains(a),
        env.entries.contains(b),
        a.id@ != b.id@,
        a.traits@ == seq![Trait::Ref { id: b.id }],
        b.traits@ == seq![Trait::Ref { id: a.id }],
    ensures
        run_feature(env, a, s, Seq::empty(), fuel) is Err,
        run_feature(env, a, s, Seq::empty(), fuel)->Err_0 is CycleDetected,
{
    let ka = choose|k: int| 0 <= k < env.entries.len() && env.entries[k] == a;
    let kb = choose|k: int| 0 <= k < env.entries.len() && env.entries[k] == b;
    assert(has_id(env.entries, a.id@) && has_id(env.entries, b.id@)) by {
        assert(env.entries[ka].id@ == a.id@);
        assert(env.entries[kb].id@ == b.id@);
    }
    let ja = choose|j: int| 0 <= j < env.entries.len() && (#[trigger] env.entries[j]).id@ == a.id@;
    let jb = choose|j: int| 0 <= j < env.entries.len() && (#[trigger] env.entries[j]).id@ == b.id@;
    assert(env.entries[ka].id@ == a.id@);
    assert(env.entries[kb].id@ == b.id@);
    assert(ja == ka && jb == kb);
    assert(feature_named(env.entries, a.id@) == a);
    assert(feature_named(env.entries, b.id@) == b);
    if fuel >= 2 {
        let sa = Sheet { features: s.features.insert(a.id@), ..s };
        let sb = Sheet { features: sa.features.insert(b.id@), ..sa };
        let p1 = Seq::<Seq<char>>::empty().push(a.id@);
        let p2 = p1.push(b.id@);
        assert(p2[0] == a.id@);
        assert(p2.contains(a.id@));
        assert(!p1.contains(b.id@)) by {
            if p1.contains(b.id@) {
                let i = choose|i: int| 0 <= i < p1.len() && p1[i] == b.id@;
                assert(p1[i] == a.id@);
            }
        }
        assert(run_feature(env, a, sb, p2, (fuel - 2) as nat) is Err);
        assert(run_traits(env, b, 1, sb, p2, (fuel - 1) as nat) == Ok::<Sheet, Fault>(sb));
        assert(run_traits(env, b, 0, sb, p2, (fuel - 1) as nat) == run_feature(env, a, sb, p2, (fuel - 2) as nat));
        assert(run_feature(env, b, sa, p1, (fuel - 1) as nat) == run_feature(env, a, sb, p2, (fuel - 2) as nat));
        assert(run_traits(env, a, 0, sa, p1, fuel) == run_feature(env, b, sa, p1, (fuel - 1) as nat));
    } else if fuel == 1 {
        let sa = Sheet { features: s.features.insert(a.id@), ..s };
        let p1 = Seq::<Seq<char>>::empty().push(a.id@);
        assert(run_feature(env, b, sa, p1, 0) is Err);
        assert(run_traits(env, a, 0, sa, p1, fuel) == run_feature(env, b, sa, p1, 0));
    }
}

/// Two successful evaluations of the same roots, store and decisions from
/// fixed dice sources in the same state give the same features, choices,
/// values and rolls, and leave the sources at the same position.
pub proof fn law_fixed_evaluations_agree(env: Env, roots: Seq<String>, pos: nat, c1: Character, p1: nat, c2: Character, p2: nat)
    requires
        env.fixed is Some,
        run_roots(env, roots, empty_sheet(pos)) == Ok::<Sheet, Fault>(sheet_of(c1, p1)),
        run_roots(env, roots, empty_sheet(pos)) == Ok::<Sheet, Fault>(sheet_of(c2, p2)),
    ensures
        sheet_of(c1, p1) == sheet_of(c2, p2),
        c1.values@ == c2.values@,
        p1 == p2,
{
}

proof fn lemma_roots_err(env: Env, roots: Seq<String>, j: int, s: Sheet)
    requires
        0 <= j <= roots.len(),
        run_roots(env, roots.take(j), s) is Err,
    ensures
        run_roots(env, roots, s) == run_roots(env, roots.take(j), s),
    decreases roots.len(),
{
    if j < roots.len() {
        assert(roots.drop_last().take(j) == roots.take(j));
        lemma_roots_err(env, roots.drop_last(), j, s);
    } else {
        assert(roots.take(j) == roots);
    }
}

/// `o` can stand for the rolls `rolls`: for a fixed source no oracle is
/// read, and it is empty; for a random one it holds each of the rolls.
pub open spec fn fits(fixed: Option<Seq<u8>>, o: Map<Seq<char>, (int, Seq<u8>)>, rolls: Map<Seq<char>, Roll>) -> bool {
    if fixed is Some {
        o == Map::<Seq<char>, (int, Seq<u8>)>::empty()
    } else {
        forall|k: Seq<char>| #[trigger] rolls.contains_key(k) ==> o.contains_key(k) && o[k] == roll_of(rolls[k])
    }
}

/// The result of an evaluation, as the semantics gives it.
pub open spec fn outcome(r: Result<(), EvalError>, c: Character, pos: nat) -> Result<Sheet, Fault> {
    match r {
        Ok(_) => Ok(sheet_of(c, pos)),
        Err(e) => Err(fault_of(e)),
    }
}

pub open spec fn path_view(path: Seq<String>) -> Seq<Seq<char>> {
    path.map_values(|t: String| t@)
}

proof fn lemma_map_values_insert<V, W>(m: Map<Seq<char>, V>, k: Seq<char>, v: V, g: spec_fn(V) -> W)
    ensures
        m.insert(k, v).map_values(g) == m.map_values(g).insert(k, g(v)),
{
    assert(m.insert(k, v).map_values(g) =~= m.map_values(g).insert(k, g(v)));
}

/// `path` holds distinct identifiers, each of a feature of `entries`.
pub open spec fn path_ok(entries: Seq<Feature>, path: Seq<String>) -> bool {
    &&& forall|i: int, j: int| 0 <= i < j < path.len() ==> path[i]@ != path[j]@
    &&& forall|i: int| 0 <= i < path.len() ==> has_id(entries, #[trigger] path[i]@)
}

pub open spec fn on_path(path: Seq<String>, id: Seq<char>) -> bool {
    exists|i: int| 0 <= i < path.len() && (#[trigger] path[i])@ == id
}

proof fn lemma_path_len(entries: Seq<Feature>, path: Seq<String>)
    requires
        path_ok(entries, path),
    ensures
        path.len() <= entries.len(),
{
    broadcast use vstd::seq_lib::seq_to_set_is_finite;
    let ps = path.map_values(|s: String| s@);
    let ids = entries.map_values(|f: Feature| f.id@);
    assert(ps.no_duplicates());
    ps.unique_seq_to_set();
    assert forall|x: Seq<char>| ps.to_set().contains(x) implies ids.to_set().contains(x) by {
        let i = choose|i: int| 0 <= i < ps.len() && ps[i] == x;
        assert(has_id(entries, path[i]@));
        let j = choose|j: int| 0 <= j < entries.len() && (#[trigger] entries[j]).id@ == path[i]@;
        assert(ids[j] == x);
    }
    vstd::set_lib::lemma_len_subset(ps.to_set(), ids.to_set());
    ids.lemma_cardinality_of_set();
}

fn on_path_exec(path: &Vec<String>, id: &String) -> (r: bool)
    ensures
        r == on_path(path@, id@),
{
    let mut i: usize = 0;
    while i < path.len()
        invariant
            i <= path@.len(),
            forall|j: int| 0 <= j < i ==> (#[trigger] path@[j])@ != id@,
        decreases path@.len() - i,
    {
        if path[i] == *id {
            return true;
        }
        i = i + 1;
    }
    false
}

fn cycle_of(path: &Vec<String>, id: &String) -> (r: Vec<String>)
    ensures
        r@ == path@.push(*id),
{
    let mut out: Vec<String> = Vec::new();
    let mut i: usize = 0;
    while i < path.len()
        invariant
            i <= path@.len(),
            out@ == path@.take(i as int),
        decreases path@.len() - i,
    {
        out.push(path[i].clone());
        i = i + 1;
        assert(out@ =~= path@.take(i as int));
    }
    assert(path@.take(i as int) == path@);
    out.push(id.clone());
    out
}

/// A build in progress: the store, the adopted root features, and the
/// player's decisions at choice points.
pub struct Creation<'a> {
    db: &'a MemDB,
    features: Vec<String>,
    choices: Table<String>,
}

impl<'a> Creation<'a> {
    /// The store's features.
    pub closed spec fn entries(&self) -> Seq<Feature> {
        self.db.entries()
    }

    /// The adopted root identifiers, in adoption order.
    pub closed spec fn adopted(&self) -> Seq<String> {
        self.features@
    }

    /// The decisions, by choice identifier.
    pub closed spec fn decisions(&self) -> Map<Seq<char>, String> {
        self.choices@
    }

    pub closed spec fn wf(&self) -> bool {
        self.choices.wf()
    }

    pub fn new(db: &'a MemDB) -> (r: Creation<'a>)
        ensures
            r.wf(),
            r.entries() == db.entries(),
            r.adopted() == Seq::<String>::empty(),
            r.decisions() == Map::<Seq<char>, String>::empty(),
    {
        Creation { db, features: Vec::new(), choices: Table::new() }
    }

    /// Adds a root feature, evaluated after those adopted before it.
    pub fn adopt_feature(&mut self, id: &str)
        requires
            old(self).wf(),
        ensures
            final(self).wf(),
            final(self).entries() == old(self).entries(),
            final(self).adopted().len() == old(self).adopted().len() + 1,
            final(self).adopted().drop_last() == old(self).adopted(),
            final(self).adopted().last()@ == id@,
            final(self).decisions() == old(self).decisions(),
    {
        self.features.push(String::from_str(id));
        assert(self.features@.drop_last() == old(self).features@);
    }

    /// Records the player's decision `choice` for the choice point `name`,
    /// replacing an earlier one.
    pub fn make_choice(&mut self, name: &str, choice: &str)
        requires
            old(self).wf(),
        ensures
            final(self).wf(),
            final(self).entries() == old(self).entries(),
            final(self).adopted() == old(self).adopted(),
            final(self).decisions().contains_key(name@),
            final(self).decisions() == old(self).decisions().insert(
                name@,
                final(self).decisions()[name@],
            ),
            final(self).decisions()[name@]@ == choice@,
    {
        self.choices.set(String::from_str(name), String::from_str(choice));
    }

    /// What an evaluation from a dice source holding `fixed` reads, with
    /// the oracle `o`.
    pub open spec fn env(&self, fixed: Option<Seq<u8>>, o: Map<Seq<char>, (int, Seq<u8>)>) -> Env {
        Env { entries: self.entries(), decisions: self.decisions(), fixed, oracle: o }
    }

    /// Evaluates every adopted root, in adoption order, into a new character.
    /// The result is what `run_roots` gives: for a fixed dice source exactly
    /// (so the evaluation succeeds exactly when `run_roots` does, and two
    /// evaluations from sources in the same state agree); for a random source,
    /// with the rolls the evaluation made.
    pub fn eval(&self, dice: &mut DiceSource) -> (r: Result<Character, EvalError>)
        requires
            self.wf(),
            old(dice).wf(),
        ensures
            final(dice).wf(),
            final(dice).fixed_faces() == old(dice).fixed_faces(),
            r matches Ok(c) ==> c.wf() && forall|o: Map<Seq<char>, (int, Seq<u8>)>|
                #[trigger] fits(old(dice).fixed_faces(), o, c.rolls@) ==> run_roots(
                    self.env(old(dice).fixed_faces(), o),
                    self.adopted(),
                    empty_sheet(old(dice).position()),
                ) == Ok::<Sheet, Fault>(sheet_of(c, final(dice).position())),
            r matches Err(e) ==> exists|o: Map<Seq<char>, (int, Seq<u8>)>|
                (old(dice).fixed_faces() is Some ==> o == Map::<Seq<char>, (int, Seq<u8>)>::empty())
                    && #[trigger] run_roots(
                    self.env(old(dice).fixed_faces(), o),
                    self.adopted(),
                    empty_sheet(old(dice).position()),
                ) == Err::<Sheet, Fault>(fault_of(e)),
    {
        let ghost fx = dice.fixed_faces();
        let ghost pos0 = dice.position();
        let mut c = Character::new();
        let mut path: Vec<String> = Vec::new();
        let mut i: usize = 0;
        proof {
            assert(sheet_of(c, pos0) =~= empty_sheet(pos0)) by {
                assert(c.features@.dom() =~= Set::<Seq<char>>::empty());
                assert(c.choices@.map_values(|v: Vec<String>| ids_of(v)) =~= Map::<Seq<char>, Seq<Seq<char>>>::empty());
                assert(c.rolls@.map_values(|r: Roll| roll_of(r)) =~= Map::<Seq<char>, (int, Seq<u8>)>::empty());
            }
            assert(self.adopted().take(0) =~= Seq::<String>::empty());
        }
        while i < self.features.len()
            invariant
                self.wf(),
                i <= self.adopted().len(),
                c.wf(),
                path@ == Seq::<String>::empty(),
                dice.wf(),
                dice.fixed_faces() == fx,
                fx == old(dice).fixed_faces(),
                pos0 == old(dice).position(),
                forall|o: Map<Seq<char>, (int, Seq<u8>)>|
                    #[trigger] fits(fx, o, c.rolls@) ==> run_roots(
                        self.env(fx, o),
                        self.adopted().take(i as int),
                        empty_sheet(pos0),
                    ) == Ok::<Sheet, Fault>(sheet_of(c, dice.position())),
            decreases self.adopted().len() - i,
        {
            let ghost before = c;
            let ghost pb = dice.position();
            let ghost roots = self.adopted().take(i as int + 1);
            proof {
                assert(roots.drop_last() == self.adopted().take(i as int));
                assert(roots.last() == self.adopted()[i as int]);
            }
            let f = match self.db.lookup_feature(&self.features[i]) {
                None => {
                    let e = EvalError::UnknownFeature(self.features[i].clone());
                    proof {
                        let o = if fx is Some {
                            Map::<Seq<char>, (int, Seq<u8>)>::empty()
                        } else {
                            c.rolls@.map_values(|r: Roll| roll_of(r))
                        };
                        assert(fits(fx, o, c.rolls@));
                        assert(run_roots(self.env(fx, o), roots, empty_sheet(pos0)) == Err::<Sheet, Fault>(fault_of(e)));
                        lemma_roots_err(self.env(fx, o), self.adopted(), i as int + 1, empty_sheet(pos0));
                    }
                    return Err(e);
                },
                Some(f) => f,
            };
            proof {
                let id = self.adopted()[i as int]@;
                let k = choose|k: int| 0 <= k < self.entries().len() && self.entries()[k] == *f;
                let j = choose|j: int| 0 <= j < self.entries().len() && (#[trigger] self.entries()[j]).id@ == id;
                assert(self.entries()[k].id@ == id);
                assert(k == j);
                assert(feature_named(self.entries(), id) == *f);
                assert(path_view(path@) =~= Seq::<Seq<char>>::empty());
            }
            let r = self.eval_feature(f, &mut c, &mut path, dice);
            match r {
                Err(e) => {
                    proof {
                        let o = if fx is Some {
                            Map::<Seq<char>, (int, Seq<u8>)>::empty()
                        } else {
                            c.rolls@.map_values(|r: Roll| roll_of(r))
                        };
                        assert(fits(fx, o, c.rolls@));
                        assert(fits(fx, o, before.rolls@));
                        assert(run_roots(self.env(fx, o), roots, empty_sheet(pos0)) == Err::<Sheet, Fault>(fault_of(e)));
                        lemma_roots_err(self.env(fx, o), self.adopted(), i as int + 1, empty_sheet(pos0));
                    }
                    return Err(e);
                },
                Ok(()) => {},
            }
            proof {
                assert forall|o: Map<Seq<char>, (int, Seq<u8>)>| #[trigger] fits(fx, o, c.rolls@) implies run_roots(
                    self.env(fx, o),
                    roots,
                    empty_sheet(pos0),
                ) == Ok::<Sheet, Fault>(sheet_of(c, dice.position())) by {
                    assert(fits(fx, o, before.rolls@));
                }
            }
            i = i + 1;
        }
        assert(self.adopted().take(i as int) == self.adopted());
        Ok(c)
    }

    /// Evaluates `f` into `c`: records it, then applies its traits in order,
    /// descending into referenced and chosen features. `path` holds the
    /// features being evaluated; reaching one of them again is a cycle. The
    /// result is what `run_feature` gives.
    fn eval_feature(
        &self,
        f: &Feature,
        c: &mut Character,
        path: &mut Vec<String>,
        dice: &mut DiceSource,
    ) -> (r: Result<(), EvalError>)
        requires
            self.wf(),
            old(c).wf(),
            old(dice).wf(),
            self.entries().contains(*f),
            path_ok(self.entries(), old(path)@),
        ensures
            final(dice).wf(),
            final(dice).fixed_faces() == old(dice).fixed_faces(),
            final(c).wf(),
            grows(*old(c), *final(c)),
            r is Ok ==> final(path)@ == old(path)@,
            forall|o: Map<Seq<char>, (int, Seq<u8>)>|
                #[trigger] fits(old(dice).fixed_faces(), o, final(c).rolls@) ==> run_feature(
                    self.env(old(dice).fixed_faces(), o),
                    *f,
                    sheet_of(*old(c), old(dice).position()),
                    path_view(old(path)@),
                    (self.entries().len() - old(path)@.len()) as nat,
                ) == outcome(r, *final(c), final(dice).position()),
        decreases self.entries().len() - old(path)@.len(),
    {
        let _ = self.db.len();
        proof {
            lemma_path_len(self.entries(), path@);
        }
        let ghost fx = dice.fixed_faces();
        let ghost outer = path@;
        let ghost fuel = (self.entries().len() - outer.len()) as nat;
        let ghost s0 = sheet_of(*c, dice.position());
        if on_path_exec(path, &f.id) {
            let e = EvalError::CycleDetected(cycle_of(path, &f.id));
            proof {
                let i = choose|i: int| 0 <= i < outer.len() && (#[trigger] outer[i])@ == f.id@;
                assert(path_view(outer)[i] == f.id@);
                assert(path_view(outer).contains(f.id@));
                assert(fault_of(e) == Fault::CycleDetected(path_view(outer).push(f.id@))) by {
                    assert(outer.push(f.id).map_values(|t: String| t@) =~= path_view(outer).push(f.id@));
                }
            }
            return Err(e);
        }
        let ghost start = *c;
        c.features.set(f.id.clone(), ());
        path.push(f.id.clone());
        proof {
            assert(!path_view(outer).contains(f.id@)) by {
                if path_view(outer).contains(f.id@) {
                    let i = choose|i: int| 0 <= i < path_view(outer).len() && path_view(outer)[i] == f.id@;
                    assert(outer[i]@ == f.id@);
                }
            }
            let k = choose|k: int| 0 <= k < self.entries().len() && self.entries()[k] == *f;
            assert(has_id(self.entries(), f.id@));
            assert(path_ok(self.entries(), path@)) by {
                assert forall|i: int| 0 <= i < path@.len() implies has_id(self.entries(), #[trigger] path@[i]@) by {
                    if i < outer.len() {
                        assert(path@[i] == outer[i]);
                    }
                }
                assert forall|i: int, j: int| 0 <= i < j < path@.len() implies path@[i]@ != path@[j]@ by {
                    if j == outer.len() {
                        assert(path@[i] == outer[i]);
                    } else {
                        assert(path@[i] == outer[i]);
                        assert(path@[j] == outer[j]);
                    }
                }
            }
            lemma_path_len(self.entries(), path@);
            assert(path_view(path@) =~= path_view(outer).push(f.id@));
            assert(sheet_of(*c, dice.position()) =~= Sheet { features: s0.features.insert(f.id@), ..s0 }) by {
                assert(c.features@.dom() =~= start.features@.dom().insert(f.id@));
            }
        }
        let mut i: usize = 0;
        while i < f.traits.len()
            invariant
                self.wf(),
                ids_unique(self.entries()),
                self.entries().contains(*f),
                i <= f.traits@.len(),
                c.wf(),
                grows(start, *c),
                path@ == outer.push(f.id),
                path_view(path@) == path_view(outer).push(f.id@),
                path_ok(self.entries(), path@),
                path@.len() <= self.entries().len(),
                fuel == (self.entries().len() - outer.len()) as nat,
                dice.wf(),
                dice.fixed_faces() == fx,
                fx == old(dice).fixed_faces(),
                outer == old(path)@,
                start == *old(c),
                s0 == sheet_of(start, old(dice).position()),
                !on_path(outer, f.id@),
                forall|o: Map<Seq<char>, (int, Seq<u8>)>|
                    #[trigger] fits(fx, o, c.rolls@) ==> run_feature(self.env(fx, o), *f, s0, path_view(outer), fuel)
                        == run_traits(self.env(fx, o), *f, i as nat, sheet_of(*c, dice.position()), path_view(path@), fuel),
            decreases f.traits@.len() - i,
        {
            let ghost before = *c;
            let ghost pb = dice.position();
            let ghost sb = sheet_of(before, pb);
            let ghost pv = path_view(path@);
            match &f.traits[i] {
                Trait::Data { name, value } => {
                    c.set_value(name, value);
                    proof {
                        assert(sheet_of(*c, dice.position()) =~= Sheet { values: sb.values.insert(name@, *value), ..sb });
                    }
                },
                Trait::Add { name, value } => {
                    let r = c.add_value(name, value);
                    if let Err(e) = r {
                        proof {
                            assert forall|o: Map<Seq<char>, (int, Seq<u8>)>| #[trigger] fits(fx, o, c.rolls@) implies
                                run_feature(self.env(fx, o), *f, s0, path_view(outer), fuel) == outcome(
                                Err::<(), EvalError>(e), *c, dice.position()) by {
                                assert(fits(fx, o, before.rolls@));
                            }
                        }
                        return Err(e);
                    }
                    proof {
                        let n = sum_of(before.values@, *name, *value)->Ok_0;
                        assert(sheet_of(*c, dice.position()) =~= Sheet { values: sb.values.insert(name@, Value::Int(n)), ..sb });
                    }
                },
                Trait::Choice { id, query, default } => {
                    let options = self.db.query(query);
                    c.record_choice(id, &options);
                    let ghost offered = selected(self.entries(), *query);
                    let ghost s1 = Sheet { choices: sb.choices.insert(id@, offered.map_values(|g: Feature| g.id@)), ..sb };
                    proof {
                        assert(deref_all(options@) == offered);
                        let v = c.choices@[id@];
                        assert(ids_of(v) =~= offered.map_values(|g: Feature| g.id@)) by {
                            assert forall|k: int| 0 <= k < offered.len() implies ids_of(v)[k] == offered[k].id@ by {
                                assert(deref_all(options@)[k] == *options@[k]);
                            }
                        }
                        lemma_map_values_insert(before.choices@, id@, v, |w: Vec<String>| ids_of(w));
                        assert(sheet_of(*c, dice.position()) =~= s1);
                    }
                    let decision = self.choices.get(id);
                    let dflt = default.as_ref();
                    let picked = select_option(&options, decision, dflt);
                    proof {
                        assert(text_of(decision) == decision_of(self.choices@, id@));
                        assert(text_of(dflt) == owned_text_of(*default));
                    }
                    if let Some(g) = picked {
                        proof {
                            assert(deref_all(options@) == options@.map_values(|f: &Feature| *f));
                            self.entries().lemma_filter_contains_rev(
                                |h: Feature| query.matches(h.tags@),
                                *g,
                            );
                            let t = g.id@;
                            let k = choose|k: int| 0 <= k < self.entries().len() && self.entries()[k] == *g;
                            assert(has_id(self.entries(), t));
                            let j = choose|j: int| 0 <= j < self.entries().len() && (#[trigger] self.entries()[j]).id@ == t;
                            assert(self.entries()[k].id@ == t);
                            assert(k == j);
                            assert(feature_named(self.entries(), t) == *g);
                        }
                        let ghost mid = *c;
                        let ghost pm = dice.position();
                        let r = self.eval_feature(g, c, path, dice);
                        if let Err(e) = r {
                            proof {
                                assert forall|o: Map<Seq<char>, (int, Seq<u8>)>| #[trigger] fits(fx, o, c.rolls@) implies
                                    run_feature(self.env(fx, o), *f, s0, path_view(outer), fuel) == outcome(
                                    Err::<(), EvalError>(e), *c, dice.position()) by {
                                    assert(fits(fx, o, before.rolls@));
                                }
                            }
                            return Err(e);
                        }
                        assert(grows(mid, *c));
                    }
                },
                Trait::Ref { id } => {
                    match self.db.lookup_feature(id) {
                        None => {
                            let e = EvalError::UnknownFeature(id.clone());
                            proof {
                                assert forall|o: Map<Seq<char>, (int, Seq<u8>)>| #[trigger] fits(fx, o, c.rolls@) implies
                                    run_feature(self.env(fx, o), *f, s0, path_view(outer), fuel) == outcome(
                                    Err::<(), EvalError>(e), *c, dice.position()) by {
                                    assert(fits(fx, o, before.rolls@));
                                }
                            }
                            return Err(e);
                        },
                        Some(g) => {
                            proof {
                                let k = choose|k: int| 0 <= k < self.entries().len() && self.entries()[k] == *g;
                                let j = choose|j: int| 0 <= j < self.entries().len() && (#[trigger] self.entries()[j]).id@ == id@;
                                assert(self.entries()[k].id@ == id@);
                                assert(k == j);
                                assert(feature_named(self.entries(), id@) == *g);
                                assert(has_id(self.entries(), id@));
                            }
                            let ghost mid = *c;
                            let r = self.eval_feature(g, c, path, dice);
                            if let Err(e) = r {
                                proof {
                                    assert forall|o: Map<Seq<char>, (int, Seq<u8>)>| #[trigger] fits(fx, o, c.rolls@) implies
                                        run_feature(self.env(fx, o), *f, s0, path_view(outer), fuel) == outcome(
                                        Err::<(), EvalError>(e), *c, dice.position()) by {
                                        assert(fits(fx, o, before.rolls@));
                                    }
                                }
                                return Err(e);
                            }
                            assert(grows(mid, *c));
                        },
                    }
                },
                Trait::Roll { name, expr } => {
                    let r = c.apply_roll(name, expr, dice);
                    if let Err(e) = r {
                        proof {
                            assert forall|o: Map<Seq<char>, (int, Seq<u8>)>| #[trigger] fits(fx, o, c.rolls@) implies
                                run_feature(self.env(fx, o), *f, s0, path_view(outer), fuel) == outcome(
                                Err::<(), EvalError>(e), *c, dice.position()) by {
                                assert(fits(fx, o, before.rolls@));
                            }
                        }
                        return Err(e);
                    }
                    proof {
                        if before.rolls@.contains_key(name@) {
                            assert(sheet_of(*c, dice.position()) =~= Sheet {
                                values: sb.values.insert(name@, Value::Int(sb.rolls[name@].0 as i64)),
                                ..sb
                            });
                        } else {
                            let made = c.rolls@[name@];
                            lemma_map_values_insert(before.rolls@, name@, made, |q: Roll| roll_of(q));
                            assert(sheet_of(*c, dice.position()) =~= Sheet {
                                rolls: sb.rolls.insert(name@, roll_of(made)),
                                values: sb.values.insert(name@, Value::Int(roll_of(made).0 as i64)),
                                pos: dice.position(),
                                ..sb
                            });
                        }
                    }
                },
            }
            proof {
                assert forall|o: Map<Seq<char>, (int, Seq<u8>)>| #[trigger] fits(fx, o, c.rolls@) implies run_feature(
                    self.env(fx, o),
                    *f,
                    s0,
                    path_view(outer),
                    fuel,
                ) == run_traits(self.env(fx, o), *f, i as nat + 1, sheet_of(*c, dice.position()), path_view(path@), fuel) by {
                    assert(fits(fx, o, before.rolls@));
                }
            }
            i = i + 1;
        }
        path.pop();
        assert(path@ == outer);
        Ok(())
    }
}

} // verus!
