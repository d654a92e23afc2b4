//! The walker.
//!
//! One branch per node of the abstract syntax tree, turning the four moves of
//! the calculus — make a formation, apply an argument to the next void, dispatch
//! an attribute, fall through a decoratee — into constraints.
//!
//! The built-in shapes live here too: `bytes`, `number` and a `bool` value are
//! mutually recursive and hand-modelled, because they are the ground everything
//! else decorates. Every other atom is read from what it declares about itself.

use vstd::prelude::*;

use crate::resolve::{Locs, NESTING, names_empty_object, resolved, resolves_to_nothing, underway};
use crate::solver::{Clash, Solver, DEPTH, bound_below, lemma_bound_kept, lemma_settled_bound, level_of};
use crate::types::{Level, RecId, Site, Type, TypeId, Types, VarId, copy_strings, lemma_lookup_found, prefix, same_text};
use crate::xmir::{Kind, Node, Void, generic, is_generic, size, sizes, lemma_sizes, spec_core, spec_tail, tail, words};

verus! {

broadcast use {Types::lemma_grows_trans, Types::lemma_recs_kept_trans, Types::lemma_knots_kept_trans, crate::types::lemma_keeps_trans, crate::types::lemma_prefix_refl};

/// What names are in scope, and what they stand for. A later entry hides an
/// earlier one of the same name.
pub type Env = Vec<(String, TypeId)>;

/// What a name stands for in a scope: its last entry.
pub open spec fn env_find(env: Seq<(String, TypeId)>, name: Seq<char>) -> Option<TypeId>
    decreases env.len(),
{
    if env.len() == 0 {
        None
    } else if env.last().0@ == name {
        Some(env.last().1)
    } else {
        env_find(env.drop_last(), name)
    }
}

/// Whether everything a scope names is a type of the arena.
pub open spec fn env_ok(types: &Types, env: Seq<(String, TypeId)>) -> bool {
    forall|i: int| 0 <= i < env.len() ==> types.ty_ok(#[trigger] env[i].1)
}

/// What a name stands for in a scope.
pub fn find(env: &Env, name: &str) -> (found: Option<TypeId>)
    ensures
        found == env_find(env@, name@),
{
    let mut i = env.len();
    assert(env@.subrange(0, env@.len() as int) =~= env@);
    while i > 0
        invariant
            0 <= i <= env@.len(),
            env_find(env@, name@) == env_find(env@.subrange(0, i as int), name@),
        decreases i,
    {
        let ghost prefix_ = env@.subrange(0, i as int);
        assert(prefix_.drop_last() =~= env@.subrange(0, i - 1));
        if same_text(env[i - 1].0.as_str(), name) {
            return Some(env[i - 1].1);
        }
        i = i - 1;
    }
    None
}

/// What a scope names is a type of the arena.
pub proof fn lemma_env_find_ok(env: Seq<(String, TypeId)>, name: Seq<char>, types: &Types)
    requires
        env_ok(types, env),
        env_find(env, name) is Some,
    ensures
        types.ty_ok(env_find(env, name)->0),
    decreases env.len(),
{
    if env.last().0@ != name {
        lemma_env_find_ok(env.drop_last(), name, types);
    }
}

/// A copy of a scope.
fn copy_env(env: &Env) -> (copy: Env)
    ensures
        copy@ == env@,
{
    let mut copy: Env = Vec::new();
    let mut i: usize = 0;
    while i < env.len()
        invariant
            0 <= i <= env@.len(),
            copy@ == env@.subrange(0, i as int),
        decreases env@.len() - i,
    {
        copy.push((env[i].0.clone(), env[i].1));
        i = i + 1;
    }
    assert(env@.subrange(0, env@.len() as int) =~= env@);
    copy
}

/// How often a name was reached among some counts.
pub open spec fn count(counts: Seq<(String, usize)>, name: Seq<char>) -> nat
    decreases counts.len(),
{
    if counts.len() == 0 {
        0
    } else if counts.last().0@ == name {
        counts.last().1 as nat
    } else {
        count(counts.drop_last(), name)
    }
}

/// How forgiving the walker is about what it does not know, and what it noticed
/// while being forgiving.
#[derive(Debug)]
pub struct Leniency {
    /// Whether an unknown name becomes a fresh unknown rather than a failure.
    /// On when checking real files, where an unmodelled atom must not be
    /// mistaken for an error.
    pub lenient: bool,
    /// How often each unmodelled name was reached, each name listed once.
    pub unmodelled: Vec<(String, usize)>,
}

impl Leniency {
    /// Count one more reach of an unmodelled name. A count saturates rather
    /// than wrapping.
    pub fn note(&mut self, name: &str)
        ensures
            final(self).lenient == old(self).lenient,
            count(final(self).unmodelled@, name@) == if count(old(self).unmodelled@, name@) < usize::MAX {
                count(old(self).unmodelled@, name@) + 1
            } else {
                count(old(self).unmodelled@, name@)
            },
            forall|other: Seq<char>| other != name@ ==> #[trigger] count(final(self).unmodelled@, other) == count(
                old(self).unmodelled@,
                other,
            ),
    {
        let ghost before = self.unmodelled@;
        let mut i = self.unmodelled.len();
        while i > 0
            invariant
                0 <= i <= self.unmodelled@.len(),
                self.unmodelled@ == before,
                self.lenient == old(self).lenient,
                before == old(self).unmodelled@,
                forall|j: int| i <= j < before.len() ==> before[j].0@ != name@,
            decreases i,
        {
            if same_text(self.unmodelled[i - 1].0.as_str(), name) {
                let mut slot = (String::new(), 0usize);
                self.unmodelled.set_and_swap(i - 1, &mut slot);
                let (key, hits) = slot;
                let bumped = if hits < usize::MAX { hits + 1 } else { hits };
                let mut fresh = (key, bumped);
                self.unmodelled.set_and_swap(i - 1, &mut fresh);
                proof {
                    let entry = (before[i - 1].0, bumped);
                    assert(self.unmodelled@ =~= before.update(i - 1, entry));
                    lemma_count_update(before, (i - 1) as int, entry, name@);
                    lemma_count_last(before, (i - 1) as int, name@);
                    assert forall|other: Seq<char>| other != name@ implies #[trigger] count(self.unmodelled@, other)
                        == count(before, other) by {
                        lemma_count_update(before, (i - 1) as int, entry, other);
                    }
                }
                return;
            }
            i = i - 1;
        }
        self.unmodelled.push((String::from_str(name), 1));
        proof {
            lemma_count_absent(before, name@);
            assert(self.unmodelled@.drop_last() =~= before);
        }
    }
}

/// Replacing the last entry of a name changes its count and nothing else.
proof fn lemma_count_update(counts: Seq<(String, usize)>, i: int, entry: (String, usize), name: Seq<char>)
    requires
        0 <= i < counts.len(),
        counts[i].0@ == entry.0@,
        forall|j: int| i < j < counts.len() ==> counts[j].0@ != entry.0@,
    ensures
        count(counts.update(i, entry), name) == if name == entry.0@ {
            entry.1 as nat
        } else {
            count(counts, name)
        },
    decreases counts.len(),
{
    if i < counts.len() - 1 {
        assert(counts.update(i, entry).drop_last() =~= counts.drop_last().update(i, entry));
        lemma_count_update(counts.drop_last(), i, entry, name);
    } else {
        assert(counts.update(i, entry).drop_last() =~= counts.drop_last());
    }
}

/// The count of a name is that of its last entry.
proof fn lemma_count_last(counts: Seq<(String, usize)>, i: int, name: Seq<char>)
    requires
        0 <= i < counts.len(),
        counts[i].0@ == name,
        forall|j: int| i < j < counts.len() ==> counts[j].0@ != name,
    ensures
        count(counts, name) == counts[i].1 as nat,
    decreases counts.len(),
{
    if i < counts.len() - 1 {
        lemma_count_last(counts.drop_last(), i, name);
    }
}

/// A name listed nowhere has been reached no times.
proof fn lemma_count_absent(counts: Seq<(String, usize)>, name: Seq<char>)
    requires
        forall|j: int| 0 <= j < counts.len() ==> counts[j].0@ != name,
    ensures
        count(counts, name) == 0,
    decreases counts.len(),
{
    if counts.len() > 0 {
        lemma_count_absent(counts.drop_last(), name);
    }
}

/// Whether a result is the failure of a name that is nowhere.
pub open spec fn unbound(r: Result<TypeId, Clash>) -> bool {
    r matches Err(Clash::Unbound { .. })
}

/// Whether a name is one of the hand-modelled built-ins.
pub open spec fn is_builtin(name: Seq<char>) -> bool {
    name == "number"@ || name == "bool"@ || name == "true"@ || name == "false"@ || name == "string"@
        || name == "bytes"@ || name == "stdout"@ || name == "dataized"@ || name == "recovered"@
}

/// Whether a node surely has a maybe-`⊥` type, as its syntax and its scope
/// show: a `?` value, or a name that the scope binds to such a type.
pub open spec fn surely_maybe(types: &Types, env: Seq<(String, TypeId)>, node: Node) -> bool {
    match node {
        Node::Maybe(_) => true,
        Node::Name(n) => env_find(env, n@) matches Some(t) && types.spec_at(t) is Opt,
        _ => false,
    }
}

/// Whether a node is a name that the scope binds to a record lacking an
/// attribute, with no decoratee to reach it through.
pub open spec fn surely_lacks(types: &Types, env: Seq<(String, TypeId)>, node: Node, label: Seq<char>) -> bool {
    node matches Node::Name(n) && env_find(env, n@) matches Some(t) && types.spec_at(t) matches Type::Rec(s)
        && types.spec_field(s, label) is None && types.spec_field(s, "@"@) is None
}

/// Whether a node is a name that the scope binds to a record with no voids
/// and no decoratee: nothing that can be applied.
pub open spec fn surely_inapplicable(types: &Types, env: Seq<(String, TypeId)>, node: Node) -> bool {
    node matches Node::Name(n) && env_find(env, n@) matches Some(t) && types.spec_at(t) matches Type::Rec(s)
        && types.recs@[s.0 as int].voids@.len() == 0 && types.spec_field(s, "@"@) is None
}

/// Whether a type is an unknown that nothing bounds from below yet and that is
/// no formation's knot, at a level no shallower than a given one: a demand on
/// it is recorded rather than checked.
pub open spec fn open_unknown(types: &Types, t: TypeId, level: Level) -> bool {
    types.spec_at(t) matches Type::Var(v) && types.vars@[v.0 as int].knot is None && types.spec_lower(v).len() == 0
        && level.0 <= types.spec_level(v).0
}

/// Whether a program is surely accepted because all it does is demand
/// something of an unknown nothing bounds from below yet: a dispatch on a name
/// the scope binds to such an unknown, or the application of such a name to a
/// name whose type sits no deeper than the unknown. The demand is recorded on
/// the unknown, to be checked where it gets a value.
pub open spec fn recorded(types: &Types, env: Seq<(String, TypeId)>, level: Level, node: Node) -> bool {
    match node {
        Node::Dispatch { obj, .. } => *obj matches Node::Name(n) && env_find(env, n@) matches Some(t) && open_unknown(
            types,
            t,
            level,
        ),
        Node::Apply { fun, arg } => *fun matches Node::Name(f) && env_find(env, f@) matches Some(t) && open_unknown(
            types,
            t,
            level,
        ) && (*arg matches Node::Name(x) && env_find(env, x@) matches Some(g) && (types.spec_at(t) matches Type::Var(v)
            && level_of(*types, g, (DEPTH - 1) as nat) <= types.spec_level(v).0)),
        _ => false,
    }
}

/// Whether a field of a formation's record is the parent link, or an unknown
/// made at a given level.
pub open spec fn field_at_level(types: &Types, f: (String, TypeId), level: Level) -> bool {
    crate::solver::is_parent(f.0@) || (types.ty_ok(f.1) && (types.spec_at(f.1) matches Type::Var(u)
        && types.spec_level(u) == level))
}

/// The unknown a recorded demand is made on: that of the dispatched or applied
/// name.
pub open spec fn demanded(types: &Types, env: Seq<(String, TypeId)>, node: Node) -> int {
    match node {
        Node::Dispatch { obj, .. } => match *obj {
            Node::Name(n) => match env_find(env, n@) {
                Some(t) => match types.spec_at(t) {
                    Type::Var(v) => v.0 as int,
                    _ => -1,
                },
                None => -1,
            },
            _ => -1,
        },
        Node::Apply { fun, .. } => match *fun {
            Node::Name(n) => match env_find(env, n@) {
                Some(t) => match types.spec_at(t) {
                    Type::Var(v) => v.0 as int,
                    _ => -1,
                },
                None => -1,
            },
            _ => -1,
        },
        _ => -1,
    }
}

/// Whether a name is one of some parameters.
pub open spec fn is_param(params: Seq<String>, n: Seq<char>) -> bool {
    exists|i: int| 0 <= i < params.len() && #[trigger] params[i]@ == n
}

/// Whether a formation does nothing but demand something of its own
/// parameters: it has no attributes, and its decoratee dispatches on a
/// parameter or applies a parameter to a parameter. Such a formation is
/// accepted, its demands left open for each call site to meet.
pub open spec fn demands_on_params(node: Node) -> bool {
    node matches Node::Lam { params, body: Some(b), binds, .. } && binds@.len() == 0 && match *b {
        Node::Dispatch { obj, .. } => *obj matches Node::Name(p) && is_param(params@, p@),
        Node::Apply { fun, arg } => *fun matches Node::Name(p) && is_param(params@, p@) && (*arg matches Node::Name(q)
            && is_param(params@, q@)),
        _ => false,
    }
}

/// A formation's record, whose fields are its parent link or unknowns of the
/// knot's level, lands below the knot at once while the knot has no upper
/// bound.
pub proof fn lemma_formation_lands(
    before: Types,
    after: Types,
    shape: RecId,
    host: VarId,
    whole: TypeId,
    ty: TypeId,
    level: Level,
)
    requires
        before.wf(),
        after.wf(),
        before.grows_to(&after),
        after.ty_ok(whole),
        after.spec_at(whole) == Type::Rec(shape),
        after.spec_at(ty) == Type::Var(host),
        host.0 < before.vars@.len(),
        after.vars@[host.0 as int] == before.vars@[host.0 as int],
        before.spec_upper(host).len() == 0,
        before.spec_level(host) == level,
        forall|j: int|
            0 <= j < after.recs@[shape.0 as int].fields@.len() ==> ((#[trigger] after.recs@[shape.0 as int].fields@[j]).0@
                == "@"@ && (after.spec_at(after.recs@[shape.0 as int].fields@[j].1) matches Type::Var(u) && after.spec_level(u)
                == level)) || before.recs@[shape.0 as int].fields@.contains(after.recs@[shape.0 as int].fields@[j]),
        forall|j: int|
            0 <= j < before.recs@[shape.0 as int].fields@.len() ==> field_at_level(
                &before,
                #[trigger] before.recs@[shape.0 as int].fields@[j],
                level,
            ),
    ensures
        crate::solver::lands_below(after, whole, ty),
{
    let fields = after.recs@[shape.0 as int].fields@;
    assert forall|j: int| 0 <= j < fields.len() implies crate::solver::is_parent((#[trigger] fields[j]).0@) || level_of(
        after,
        fields[j].1,
        (DEPTH - 1) as nat,
    ) <= level.0 by {
        let f = fields[j];
        assert(after.record_ok(after.recs@[shape.0 as int]));
        assert(after.ty_ok(f.1));
        if f.0@ == "@"@ && (after.spec_at(f.1) matches Type::Var(u) && after.spec_level(u) == level) {
            let u = after.spec_at(f.1)->Var_0;
            assert(after.type_ok(after.nodes@[f.1.0 as int]));
        } else {
            let i = choose|i: int| 0 <= i < before.recs@[shape.0 as int].fields@.len() && before.recs@[shape.0 as int].fields@[i]
                == f;
            assert(field_at_level(&before, before.recs@[shape.0 as int].fields@[i], level));
            if !crate::solver::is_parent(f.0@) {
                before.lemma_grows_keeps(&after, f.1);
                let u = before.spec_at(f.1)->Var_0;
                assert(before.type_ok(before.nodes@[f.1.0 as int]));
                assert(after.vars@[u.0 as int].level == before.vars@[u.0 as int].level);
            }
        }
    }
    crate::solver::lemma_fields_level_bound(after, fields, (DEPTH - 1) as nat, level.0);
    assert(after.type_ok(after.nodes@[whole.0 as int]));
}

/// A name bound past some point of a scope is found among the bindings past
/// that point.
pub proof fn lemma_env_find_past(env: Seq<(String, TypeId)>, n: Seq<char>, base: int)
    requires
        0 <= base <= env.len(),
        exists|i: int| base <= i < env.len() && #[trigger] env[i].0@ == n,
    ensures
        exists|i: int| base <= i < env.len() && #[trigger] env[i].0@ == n && env_find(env, n) == Some(env[i].1),
    decreases env.len(),
{
    if env.last().0@ == n {
        assert(env[env.len() - 1] == env.last());
    } else {
        let i = choose|i: int| base <= i < env.len() && #[trigger] env[i].0@ == n;
        assert(i < env.len() - 1);
        assert(env.drop_last()[i] == env[i]);
        lemma_env_find_past(env.drop_last(), n, base);
        let j = choose|j: int| base <= j < env.drop_last().len() && #[trigger] env.drop_last()[j].0@ == n && env_find(
            env.drop_last(),
            n,
        ) == Some(env.drop_last()[j].1);
        assert(env.drop_last()[j] == env[j]);
    }
}

/// Whether a program recovers a value whose type is, or is maybe-`⊥` of, an
/// unknown nothing bounds from below yet, with an alternative of such an
/// unknown: both flow into the result, and the recovery is accepted.
pub open spec fn recovers_open(types: &Types, env: Seq<(String, TypeId)>, level: Level, node: Node) -> bool {
    node matches Node::Recovered { value, alt } && (*value matches Node::Name(x) && env_find(env, x@) matches Some(t) && (
    open_unknown(types, t, level) || (types.spec_at(t) matches Type::Opt(g) && open_unknown(types, g, level)))) && (
    *alt matches Node::Name(y) && env_find(env, y@) matches Some(w) && open_unknown(types, w, level))
}

/// Whether a program chains optionally on a maybe-`⊥` value of an unknown
/// nothing bounds from below yet: `?.` on a `?` of such a name, or on a name
/// the scope binds to a maybe-`⊥` of such an unknown. The demand goes to the
/// value inside, and the chain is accepted and stays maybe-`⊥`.
pub open spec fn chains_open(types: &Types, env: Seq<(String, TypeId)>, level: Level, node: Node) -> bool {
    node matches Node::Fragile { obj, .. } && match *obj {
        Node::Maybe(i) => *i matches Node::Name(n) && env_find(env, n@) matches Some(t) && open_unknown(types, t, level),
        Node::Name(n) => env_find(env, n@) matches Some(t) && (types.spec_at(t) matches Type::Opt(g) && open_unknown(
            types,
            g,
            level,
        )),
        _ => false,
    }
}

/// Whether a name is one of the four primitive built-ins.
pub open spec fn is_primitive(name: Seq<char>) -> bool {
    name == "bytes"@ || name == "number"@ || name == "string"@ || name == "bool"@
}

/// What an annotation naming a primitive gives: that primitive's built-in,
/// maybe-`⊥` when the annotation ends in `?`.
pub open spec fn primitive_typed(types: &Types, text: Seq<char>, t: TypeId) -> bool {
    let name = spec_tail(spec_core(text));
    if text.len() > 0 && text.last() == '?' {
        types.spec_at(t) matches Type::Opt(inner) && is_primitive_type(types, name, inner)
    } else {
        is_primitive_type(types, name, t)
    }
}

/// What an annotation that names a forma other than a primitive gives, as far
/// as the locator index already settles it: a locator under way gives the
/// unknown standing for it, and a locator that resolves to nothing gives an
/// unknown nothing bounds yet; a trailing `?` makes either maybe-`⊥`.
pub open spec fn forma_typed(locs: Locs, after: &Types, text: Seq<char>, t: TypeId, level: Level) -> bool {
    let core = spec_core(text);
    let optional = text.len() > 0 && text.last() == '?';
    &&& underway(locs.underway@, core) matches Some(k) ==> (if optional {
        after.spec_at(t) == Type::Opt(k)
    } else {
        t == k
    })
    &&& resolves_to_nothing(locs, core) && !optional ==> open_unknown(after, t, level)
}

/// A value with its `⊥` stripped: what a maybe-`⊥` holds, or the value itself.
pub open spec fn stripped(types: &Types, held: TypeId) -> TypeId {
    match types.spec_at(held) {
        Type::Opt(inner) => inner,
        _ => held,
    }
}

/// Whether a program is surely refused, whatever else holds: it names what is
/// bound nowhere while the engine is strict, makes a plain dispatch on a
/// maybe-`⊥` value, dispatches an attribute a known record lacks, applies a
/// record that takes nothing, or holds such
/// a program in its receiver, its applied function, its argument, its `?`
/// value or either side of a recovery.
pub open spec fn refused(types: &Types, env: Seq<(String, TypeId)>, lenient: bool, node: Node) -> bool
    decreases node,
{
    match node {
        Node::Name(n) => !lenient && env_find(env, n@) is None && !is_builtin(n@),
        Node::Dispatch { obj, label, .. } => surely_maybe(types, env, *obj) || surely_lacks(types, env, *obj, label@)
            || refused(types, env, lenient, *obj),
        Node::Fragile { obj, .. } => refused(types, env, lenient, *obj),
        Node::Apply { fun, arg } => surely_inapplicable(types, env, *fun) || refused(types, env, lenient, *fun)
            || refused(types, env, lenient, *arg),
        Node::Maybe(inner) => refused(types, env, lenient, *inner),
        Node::Recovered { value, alt } => refused(types, env, lenient, *value) || refused(types, env, lenient, *alt),
        _ => false,
    }
}

/// A program surely refused stays so as the arena grows and keeps its records.
pub proof fn lemma_refused_grows(before: &Types, after: &Types, env: Seq<(String, TypeId)>, lenient: bool, node: Node)
    requires
        before.wf(),
        env_ok(before, env),
        before.grows_to(after),
        before.recs_kept(after),
        refused(before, env, lenient, node),
    ensures
        refused(after, env, lenient, node),
    decreases node,
{
    match node {
        Node::Dispatch { obj, label, .. } => {
            if let Node::Name(n) = *obj {
                if env_find(env, n@) is Some {
                    lemma_env_find_ok(env, n@, before);
                    let t = env_find(env, n@)->0;
                    before.lemma_grows_keeps(after, t);
                    assert(before.type_ok(before.nodes@[t.0 as int]));
                    if let Type::Rec(s) = before.spec_at(t) {
                        assert(after.recs@[s.0 as int] == before.recs@[s.0 as int]);
                    }
                }
            }
            if refused(before, env, lenient, *obj) {
                lemma_refused_grows(before, after, env, lenient, *obj);
            }
        },
        Node::Fragile { obj, .. } => lemma_refused_grows(before, after, env, lenient, *obj),
        Node::Apply { fun, arg } => {
            if let Node::Name(n) = *fun {
                if env_find(env, n@) is Some {
                    lemma_env_find_ok(env, n@, before);
                    let t = env_find(env, n@)->0;
                    before.lemma_grows_keeps(after, t);
                    assert(before.type_ok(before.nodes@[t.0 as int]));
                    if let Type::Rec(s) = before.spec_at(t) {
                        assert(after.recs@[s.0 as int] == before.recs@[s.0 as int]);
                    }
                }
            }
            if refused(before, env, lenient, *fun) {
                lemma_refused_grows(before, after, env, lenient, *fun);
            } else if refused(before, env, lenient, *arg) {
                lemma_refused_grows(before, after, env, lenient, *arg);
            }
        },
        Node::Maybe(inner) => lemma_refused_grows(before, after, env, lenient, *inner),
        Node::Recovered { value, alt } => {
            if refused(before, env, lenient, *value) {
                lemma_refused_grows(before, after, env, lenient, *value);
            } else {
                lemma_refused_grows(before, after, env, lenient, *alt);
            }
        },
        _ => {},
    }
}

/// The record behind a dispatch receiver, when it is known: a record itself,
/// the record an unknown is the recursion knot of, or the one record an
/// unknown has as its only lower bound.
pub open spec fn spec_host(types: &Types, ty: TypeId) -> Option<RecId> {
    match types.spec_at(ty) {
        Type::Rec(shape) => Some(shape),
        Type::Var(u) => if types.vars@[u.0 as int].knot is Some {
            types.vars@[u.0 as int].knot
        } else if types.spec_lower(u).len() == 1 {
            match types.spec_at(types.spec_lower(u)[0]) {
                Type::Rec(shape) => Some(shape),
                _ => None,
            }
        } else {
            None
        },
        _ => None,
    }
}

/// The whole checker: the arena, the solver, the locator index, and how
/// forgiving to be.
#[derive(Debug)]
pub struct Engine {
    /// The arena every type lives in.
    pub types: Types,
    /// The constraint solver.
    pub solver: Solver,
    /// Locator resolution.
    pub locs: Locs,
    /// What to do about the unknown.
    pub leniency: Leniency,
    /// The records of the formations being defined right now, innermost last.
    pub defining: Vec<RecId>,
}

/// A built-in shape.
#[derive(Clone, Copy, Debug)]
pub enum Ground {
    /// The one leaf object everything else bottoms out in.
    Bytes,
    /// A number.
    Number,
    /// A boolean value.
    Bool,
    /// A string.
    String,
    /// A tuple over a fresh element type.
    Tuple,
    /// Takes a string, offers `print`.
    Stdout,
    /// Anything dataizable, giving back its bytes.
    Dataized,
    /// The `⊥` eliminator.
    Recovered,
}

impl Ground {
    /// The built-in a forma names, when it names one of the four primitives.
    pub fn named(name: &str) -> (ground: Option<Ground>)
        ensures
            ground is Some == (name@ == "bytes"@ || name@ == "number"@ || name@ == "string"@ || name@ == "bool"@),
            name@ == "bytes"@ ==> ground == Some(Ground::Bytes),
            name@ == "number"@ ==> ground == Some(Ground::Number),
            name@ == "string"@ ==> ground == Some(Ground::String),
            name@ == "bool"@ ==> ground == Some(Ground::Bool),
    {
        proof {
            reveal_strlit("bytes");
            reveal_strlit("number");
            reveal_strlit("string");
            reveal_strlit("bool");
            assert("bytes"@.len() == 5);
            assert("number"@.len() == 6);
            assert("string"@.len() == 6);
            assert("bool"@.len() == 4);
            assert("number"@[0] != "string"@[0]);
        }
        if same_text(name, "bytes") {
            Some(Ground::Bytes)
        } else if same_text(name, "number") {
            Some(Ground::Number)
        } else if same_text(name, "string") {
            Some(Ground::String)
        } else if same_text(name, "bool") {
            Some(Ground::Bool)
        } else {
            None
        }
    }
}

impl Engine {
    /// The engine is consistent: the arena is, and so is everything that
    /// names a type of it.
    pub open spec fn inv(&self) -> bool {
        &&& self.types.wf()
        &&& self.solver.wf(&self.types)
        &&& self.locs.wf(&self.types)
        &&& crate::resolve::distinct(self.locs.toplevel@)
    }

    /// A checker with nothing in it, forgiving or not.
    fn empty(lenient: bool, fragile: bool) -> (engine: Engine)
        ensures
            engine.inv(),
            engine.leniency.lenient == lenient,
            engine.solver.fragile == fragile,
            engine.solver.level.0 == 0,
            engine.leniency.unmodelled@.len() == 0,
            engine.locs.toplevel@.len() == 0,
            engine.locs.underway@.len() == 0,
            engine.defining@.len() == 0,
            engine.types.nodes@.len() == 0,
            engine.types.vars@.len() == 0,
            engine.types.recs@.len() == 0,
            engine.solver.needs@.len() == 0,
            engine.solver.dropped@.len() == 0,
            engine.locs.resolved@.len() == 0,
    {
        Engine {
            types: Types::new(),
            solver: Solver::new(fragile),
            locs: Locs::new(),
            leniency: Leniency { lenient, unmodelled: Vec::new() },
            defining: Vec::new(),
        }
    }

    /// A checker that fails on an unknown name, as the examples need.
    pub fn strict() -> (engine: Engine)
        ensures
            engine.inv(),
            !engine.leniency.lenient,
            !engine.solver.fragile,
            engine.solver.level.0 == 0,
            engine.leniency.unmodelled@.len() == 0,
            engine.locs.toplevel@.len() == 0,
            engine.locs.underway@.len() == 0,
            engine.defining@.len() == 0,
            engine.types.nodes@.len() == 0,
            engine.types.vars@.len() == 0,
            engine.types.recs@.len() == 0,
            engine.solver.needs@.len() == 0,
            engine.solver.dropped@.len() == 0,
            engine.locs.resolved@.len() == 0,
    {
        Engine::empty(false, false)
    }

    /// A checker that treats an unknown name as anything, as real files need:
    /// an unmodelled atom must never turn into a false error.
    pub fn lenient(fragile: bool) -> (engine: Engine)
        ensures
            engine.inv(),
            engine.leniency.lenient,
            engine.solver.fragile == fragile,
            engine.solver.level.0 == 0,
            engine.leniency.unmodelled@.len() == 0,
            engine.locs.toplevel@.len() == 0,
            engine.locs.underway@.len() == 0,
            engine.defining@.len() == 0,
    {
        Engine::empty(true, fragile)
    }

    /// A fresh unknown at the level the solver is at.
    pub fn fresh(&mut self) -> (t: TypeId)
        requires
            old(self).inv(),
        ensures
            final(self).inv(),
            old(self).keeps(final(self)),
            old(self).types.knots_kept(&final(self).types),
            old(self).types.recs_kept(&final(self).types),
            final(self).leniency == old(self).leniency,
            final(self).locs == old(self).locs,
            final(self).solver == old(self).solver,
            final(self).types.ty_ok(t),
            final(self).types.spec_at(t) matches Type::Var(v) && final(self).types.spec_level(v) == old(self).solver.level
                && final(self).types.spec_lower(v).len() == 0 && final(self).types.spec_upper(v).len() == 0
                && final(self).types.vars@[v.0 as int].knot is None && v.0 == old(self).types.vars@.len(),
            forall|k: int| 0 <= k < old(self).types.vars@.len() ==> #[trigger] final(self).types.vars@[k]
                == old(self).types.vars@[k],
    {
        let ghost e0 = *self;
        let unknown = self.types.var(self.solver.level());
        let t = self.types.node(Type::Var(unknown));
        proof {
            e0.lemma_keeps_refl();
        }
        t
    }

    /// An unknown at the outermost level: fully general, so it never needs
    /// lowering and stays shared with whatever uses it.
    fn opaque(&mut self) -> (t: TypeId)
        requires
            old(self).inv(),
        ensures
            final(self).inv(),
            old(self).keeps(final(self)),
            old(self).types.knots_kept(&final(self).types),
            old(self).types.recs_kept(&final(self).types),
            final(self).leniency == old(self).leniency,
            final(self).locs == old(self).locs,
            final(self).solver == old(self).solver,
            final(self).types.ty_ok(t),
            final(self).types.spec_at(t) matches Type::Var(v) && final(self).types.spec_level(v).0 == 0
                && final(self).types.spec_lower(v).len() == 0 && final(self).types.spec_upper(v).len() == 0,
    {
        let ghost e0 = *self;
        let unknown = self.types.var(Level(0));
        let t = self.types.node(Type::Var(unknown));
        proof {
            e0.lemma_keeps_refl();
        }
        t
    }

    /// The record behind a dispatch receiver, when it is known: the in-progress
    /// record of a formation being defined, or an unknown pinned to one record.
    pub fn host(&self, ty: TypeId) -> (shape: Option<RecId>)
        requires
            self.inv(),
            self.types.ty_ok(ty),
        ensures
            shape == spec_host(&self.types, ty),
            shape matches Some(s) ==> self.types.rec_ok(s),
    {
        assert(self.types.type_ok(self.types.nodes@[ty.0 as int]));
        match self.types.at(ty) {
            Type::Rec(shape) => Some(shape),
            Type::Var(unknown) => {
                assert(self.types.unknown_ok(self.types.vars@[unknown.0 as int]));
                if let Some(shape) = self.types.knot(unknown) {
                    return Some(shape);
                }
                let lower = self.types.lower(unknown);
                if lower.len() == 1 {
                    let only = lower[0];
                    assert(self.types.ty_ok(self.types.spec_lower(unknown)[0]));
                    assert(self.types.type_ok(self.types.nodes@[only.0 as int]));
                    match self.types.at(only) {
                        Type::Rec(shape) => Some(shape),
                        _ => None,
                    }
                } else {
                    None
                }
            },
            Type::Fun { .. } => None,
            Type::Opt(_) => None,
        }
    }

    /// The attribute of an already inferred object, for walking down a locator.
    ///
    /// # Errors
    ///
    /// A [`Clash`] when there is no such attribute to walk through.
    pub fn project(&mut self, ty: TypeId, seg: &str) -> (r: Result<TypeId, Clash>)
        requires
            old(self).inv(),
            old(self).types.ty_ok(ty),
        ensures
            *final(self) == *old(self),
            r matches Ok(t) ==> spec_host(&old(self).types, ty) matches Some(s) && old(self).types.spec_field(s, seg@)
                == Some(t),
            r is Err ==> (r matches Err(Clash::UnknownAttribute { attribute, receiver, site }) && attribute@ == seg@
                && receiver == ty && site.at is None && site.loc is None),
            r is Err <==> (spec_host(&old(self).types, ty) matches Some(s) ==> old(self).types.spec_field(s, seg@) is None),
            r matches Ok(t) ==> final(self).types.ty_ok(t),
    {
        match self.host(ty) {
            Some(shape) => match self.types.field(shape, seg) {
                Some(t) => Ok(t),
                None => Err(Clash::UnknownAttribute { attribute: String::from_str(seg), receiver: ty, site: Site::default() }),
            },
            None => Err(Clash::UnknownAttribute { attribute: String::from_str(seg), receiver: ty, site: Site::default() }),
        }
    }
}


/// A scope that names types of an arena still does once the arena grew.
pub proof fn lemma_env_grows(env: Seq<(String, TypeId)>, before: &Types, after: &Types)
    requires
        env_ok(before, env),
        before.grows_to(after),
    ensures
        env_ok(after, env),
{
}

/// The field a list of built-in methods gives a label: its last entry.
pub open spec fn listed(fields: Seq<(&str, TypeId)>, label: Seq<char>) -> Option<TypeId>
    decreases fields.len(),
{
    if fields.len() == 0 {
        None
    } else if fields.last().0@ == label {
        Some(fields.last().1)
    } else {
        listed(fields.drop_last(), label)
    }
}

/// Whether a type is the shape an atom declares: a record whose voids are
/// the atom's voids in order, with an attribute for each of them and its result
/// as the decoratee.
pub open spec fn atom_shape(types: &Types, t: TypeId, voids: Seq<Void>) -> bool {
    types.spec_at(t) matches Type::Rec(r) && types.recs@[r.0 as int].voids@.len() == voids.len() && (forall|k: int|
        0 <= k < voids.len() ==> (#[trigger] types.recs@[r.0 as int].voids@[k])@ == voids[k].label@) && (forall|k: int|
        0 <= k < voids.len() ==> types.spec_field(r, (#[trigger] voids[k]).label@) is Some) && types.spec_field(r, "@"@) is Some
}

/// The attributes of a formation.
pub open spec fn node_binds(node: Node) -> Seq<(String, Node)> {
    match node {
        Node::Obj { binds, .. } => binds@,
        Node::Lam { binds, .. } => binds@,
        _ => Seq::empty(),
    }
}

/// The parameters of a formation: none for an object.
pub open spec fn node_params(node: Node) -> Seq<String> {
    match node {
        Node::Lam { params, .. } => params@,
        _ => Seq::empty(),
    }
}

/// Whether a formation has a decoratee apart from its attributes.
pub open spec fn has_body(node: Node) -> bool {
    match node {
        Node::Lam { body, .. } => body is Some,
        _ => false,
    }
}

/// Whether a record is the shape of a formation written in a scope: its voids
/// are the formation's parameters, in order, and it has an attribute for each
/// parameter, for each attribute written, for the decoratee when one is
/// written apart, and for the parent link when the scope has a self.
pub open spec fn shaped(types: &Types, s: RecId, node: Node, env: Seq<(String, TypeId)>) -> bool {
    let params = node_params(node);
    let binds = node_binds(node);
    &&& types.recs@[s.0 as int].voids@.len() == params.len()
    &&& forall|k: int| 0 <= k < params.len() ==> (#[trigger] types.recs@[s.0 as int].voids@[k])@ == params[k]@
    &&& forall|k: int| 0 <= k < params.len() ==> types.spec_field(s, (#[trigger] params[k])@) is Some
    &&& forall|k: int| 0 <= k < binds.len() ==> types.spec_field(s, (#[trigger] binds[k]).0@) is Some
    &&& has_body(node) ==> types.spec_field(s, "@"@) is Some
    &&& env_find(env, "ξ"@) is Some ==> types.spec_field(s, "ρ"@) is Some
}

/// Whether a node is itself a formation: a definition.
pub open spec fn is_definition(node: Node) -> bool {
    node is Obj || node is Lam
}

/// The labels of a list of built-in methods.
pub open spec fn labels(fields: Seq<(&str, TypeId)>) -> Seq<Seq<char>> {
    fields.map_values(|f: (&str, TypeId)| f.0@)
}

/// A list of built-in methods gives a label a field exactly when it lists the
/// label.
pub proof fn lemma_listed(fields: Seq<(&str, TypeId)>, label: Seq<char>)
    ensures
        listed(fields, label) is Some <==> labels(fields).contains(label),
    decreases fields.len(),
{
    if fields.len() > 0 {
        lemma_listed(fields.drop_last(), label);
        assert(labels(fields.drop_last()) =~= labels(fields).drop_last());
        if labels(fields).contains(label) && fields.last().0@ != label {
            let k = choose|k: int| 0 <= k < labels(fields).len() && labels(fields)[k] == label;
            assert(k < fields.len() - 1);
            assert(labels(fields.drop_last())[k] == label);
        }
        if labels(fields.drop_last()).contains(label) {
            let k = choose|k: int| 0 <= k < labels(fields.drop_last()).len() && labels(fields.drop_last())[k] == label;
            assert(labels(fields)[k] == label);
        }
        if fields.last().0@ == label {
            assert(labels(fields)[fields.len() - 1] == label);
        }
    }
}

/// A list of built-in methods gives a label the field of the last entry that
/// carries it.
pub proof fn lemma_listed_at(fields: Seq<(&str, TypeId)>, label: Seq<char>, k: int)
    requires
        0 <= k < fields.len(),
        fields[k].0@ == label,
        forall|j: int| k < j < fields.len() ==> #[trigger] fields[j].0@ != label,
    ensures
        listed(fields, label) == Some(fields[k].1),
    decreases fields.len(),
{
    if k < fields.len() - 1 {
        assert(fields.last() == fields[fields.len() - 1]);
        assert forall|j: int| k < j < fields.drop_last().len() implies #[trigger] fields.drop_last()[j].0@ != label by {
            assert(fields.drop_last()[j] == fields[j]);
        }
        lemma_listed_at(fields.drop_last(), label, k);
    }
}

/// Whether a method of `bytes` has its type: `eq` takes bytes to a truth,
/// the bitwise operations and `concat` take bytes to bytes, the shifts take a
/// number to bytes, `slice` takes two numbers to bytes, `not` and `as-bytes`
/// are bytes, `as-bool` is a truth, and the rest are numbers.
pub open spec fn leaf_typed(types: &Types, bytes: TypeId, number: TypeId, truth: TypeId, l: Seq<char>, t: TypeId) -> bool {
    ||| l == "eq"@ && types.spec_at(t) == (Type::Fun { arg: bytes, res: truth })
    ||| (l == "and"@ || l == "or"@ || l == "xor"@ || l == "concat"@) && types.spec_at(t) == (Type::Fun { arg: bytes, res: bytes })
    ||| (l == "left"@ || l == "right"@) && types.spec_at(t) == (Type::Fun { arg: number, res: bytes })
    ||| l == "slice"@ && (types.spec_at(t) matches Type::Fun { arg, res } && arg == number && types.spec_at(res) == (
        Type::Fun { arg: number, res: bytes }))
    ||| (l == "not"@ || l == "as-bytes"@) && t == bytes
    ||| l == "as-bool"@ && t == truth
    ||| (l == "size"@ || l == "as-i64"@ || l == "as-i32"@ || l == "as-i16"@ || l == "as-i8"@ || l == "as-u64"@ || l == "as-u32"@ || l == "as-u16"@ || l == "as-u8"@ || l == "as-number"@) && t == number
}

/// Whether a method of a number has its type: arithmetic takes bytes to a
/// number, comparison takes bytes to a truth, the tests are truths, `as-bytes`
/// and the decoratee are bytes, and the rest are numbers.
pub open spec fn number_typed(types: &Types, bytes: TypeId, number: TypeId, truth: TypeId, l: Seq<char>, t: TypeId) -> bool {
    ||| (l == "plus"@ || l == "minus"@ || l == "times"@ || l == "div"@ || l == "power"@) && types.spec_at(t) == (Type::Fun { arg: bytes, res: number })
    ||| (l == "gt"@ || l == "lt"@ || l == "gte"@ || l == "lte"@ || l == "eq"@) && types.spec_at(t) == (Type::Fun { arg: bytes, res: truth })
    ||| (l == "is-nan"@ || l == "is-integer"@ || l == "is-finite"@) && t == truth
    ||| (l == "as-bytes"@ || l == "@"@) && t == bytes
    ||| (l == "neg"@ || l == "floor"@ || l == "as-i64"@ || l == "as-i32"@ || l == "as-i16"@ || l == "as-number"@) && t == number
}

/// A list of built-in methods gives a label only the field of an entry that
/// carries it.
pub proof fn lemma_listed_from(fields: Seq<(&str, TypeId)>, label: Seq<char>)
    ensures
        listed(fields, label) matches Some(t) ==> exists|k: int|
            0 <= k < fields.len() && (#[trigger] fields[k]).0@ == label && fields[k].1 == t,
    decreases fields.len(),
{
    if fields.len() > 0 {
        lemma_listed_from(fields.drop_last(), label);
        if listed(fields, label) is Some {
            if fields.last().0@ == label {
                assert(fields[fields.len() - 1] == fields.last());
            } else {
                let k = choose|k: int| 0 <= k < fields.drop_last().len() && (#[trigger] fields.drop_last()[k]).0@ == label
                    && fields.drop_last()[k].1 == listed(fields, label)->0;
                assert(fields.drop_last()[k] == fields[k]);
            }
        }
    }
}

/// Whether a type is what an annotation gives under a table of type letters:
/// a letter, with or without a trailing `?`, is the type the table holds for
/// it, maybe-`⊥` when the `?` is there. Other annotations are not letters and
/// ask nothing here.
pub open spec fn letter_in(types: &Types, letters: Seq<(String, TypeId)>, text: Seq<char>, t: TypeId) -> bool {
    is_generic(spec_core(text)) ==> (env_find(letters, spec_core(text)) matches Some(g) && if text.len() > 0
        && text.last() == '?' {
        types.spec_at(t) == Type::Opt(g)
    } else {
        t == g
    })
}

/// The text of an optional annotation.
pub open spec fn text_of(text: Option<&str>) -> Option<Seq<char>> {
    match text {
        Some(x) => Some(x@),
        None => None,
    }
}

/// Whether no other void of a list carries the label of one of them.
pub open spec fn alone(voids: Seq<Void>, j: int) -> bool {
    forall|i: int| 0 <= i < voids.len() && i != j ==> (#[trigger] voids[i]).label@ != voids[j].label@
}

/// Whether the type letters of a native atom are shared under one table: each
/// void that declares its own type, and the result, is typed by that table, so
/// one letter is one type across the whole atom.
pub open spec fn letters_shared(
    types: &Types,
    letters: Seq<(String, TypeId)>,
    s: RecId,
    voids: Seq<Void>,
    ret: Option<Seq<char>>,
) -> bool {
    &&& forall|j: int|
        0 <= j < voids.len() && alone(voids, j) && voids[j].label@ != "@"@ ==> ((#[trigger] voids[j]).kind matches Kind::Own(
            x,
        ) ==> types.spec_field(s, voids[j].label@) matches Some(t) && letter_in(types, letters, x@, t))
    &&& ret matches Some(x) ==> types.spec_field(s, "@"@) matches Some(t) && letter_in(types, letters, x, t)
}

/// What an annotation gives under a table stays so as the arena grows and the
/// table gains letters it did not hold.
pub proof fn lemma_letter_kept(
    before: &Types,
    after: &Types,
    g0: Seq<(String, TypeId)>,
    g1: Seq<(String, TypeId)>,
    text: Seq<char>,
    t: TypeId,
)
    requires
        before.grows_to(after),
        before.ty_ok(t),
        letter_in(before, g0, text, t),
        forall|n: Seq<char>| env_find(g0, n) is Some ==> #[trigger] env_find(g1, n) == env_find(g0, n),
    ensures
        letter_in(after, g1, text, t),
{
    before.lemma_grows_keeps(after, t);
    if is_generic(spec_core(text)) {
        assert(env_find(g0, spec_core(text)) is Some);
    }
}

/// Whether a record is the shape of `recovered`, `∀A. A? → A → A`: its voids
/// are the value and the alternative, in order; the value is a maybe-`⊥` of
/// one unknown, and the alternative and the result are that unknown.
pub open spec fn recovers(types: &Types, r: RecId) -> bool {
    &&& types.recs@[r.0 as int].voids@.len() == 2
    &&& types.recs@[r.0 as int].voids@[0]@ == "value"@
    &&& types.recs@[r.0 as int].voids@[1]@ == "alternative"@
    &&& types.spec_field(r, "alternative"@) matches Some(a) && types.spec_at(a) is Var && types.spec_field(r, "@"@)
        == Some(a) && (types.spec_field(r, "value"@) matches Some(m) && types.spec_at(m) == Type::Opt(a))
}

/// Whether a method of a `bool` value has its type: `if` takes one branch
/// and then the other to what they both flow into, each an unknown of its own;
/// `not` is a truth; `and`, `or` and `eq` take a truth to a truth; `as-bytes`
/// and the decoratee are bytes.
pub open spec fn bool_typed(types: &Types, bytes: TypeId, truth: TypeId, l: Seq<char>, t: TypeId) -> bool {
    ||| l == "if"@ && (types.spec_at(t) matches Type::Fun { arg: a, res } && types.spec_at(a) is Var && (types.spec_at(
        res,
    ) matches Type::Fun { arg: b, res: c } && types.spec_at(b) is Var && types.spec_at(c) is Var))
    ||| l == "not"@ && t == truth
    ||| (l == "and"@ || l == "or"@ || l == "eq"@) && types.spec_at(t) == (Type::Fun { arg: truth, res: truth })
    ||| (l == "as-bytes"@ || l == "@"@) && t == bytes
}

/// The methods of a string.
pub open spec fn string_methods() -> Seq<Seq<char>> {
    seq!["eq"@, "concat"@, "length"@, "as-bytes"@, "printf"@, "@"@]
}

/// Whether a method of a string has its type: `eq` takes bytes to a truth,
/// `concat` takes bytes to the string, `printf` gives back the string, its
/// `length` is a number, and `as-bytes` and its decoratee are bytes.
pub open spec fn string_typed(types: &Types, text: TypeId, l: Seq<char>, t: TypeId) -> bool {
    ||| l == "eq"@ && (types.spec_at(t) matches Type::Fun { arg, res } && is_bytes(types, arg) && is_truth(types, res))
    ||| l == "concat"@ && (types.spec_at(t) matches Type::Fun { arg, res } && is_bytes(types, arg) && res == text)
    ||| l == "printf"@ && (types.spec_at(t) matches Type::Fun { res, .. } && res == text)
    ||| l == "length"@ && is_number(types, t)
    ||| (l == "as-bytes"@ || l == "@"@) && is_bytes(types, t)
}

/// Whether a record is the shape of a string: it has exactly the methods of a
/// string, each of its type.
pub open spec fn string_shape(types: &Types, r: RecId, text: TypeId) -> bool {
    &&& forall|l: Seq<char>| #[trigger] types.spec_field(r, l) is Some <==> string_methods().contains(l)
    &&& forall|l: Seq<char>| #[trigger] types.spec_field(r, l) matches Some(t) ==> string_typed(types, text, l, t)
}

/// Whether a record is the shape of `bytes` over the three primitives: it
/// has exactly the methods of `bytes`, each of its type.
pub open spec fn bytes_record(types: &Types, r: RecId, bytes: TypeId, number: TypeId, truth: TypeId) -> bool {
    &&& forall|l: Seq<char>| #[trigger] types.spec_field(r, l) is Some <==> leaf_methods().contains(l)
    &&& forall|l: Seq<char>| #[trigger] types.spec_field(r, l) matches Some(t) ==> leaf_typed(types, bytes, number, truth, l, t)
}

/// Whether a record is the shape of a number over the three primitives.
pub open spec fn number_record(types: &Types, r: RecId, bytes: TypeId, number: TypeId, truth: TypeId) -> bool {
    &&& forall|l: Seq<char>| #[trigger] types.spec_field(r, l) is Some <==> number_methods().contains(l)
    &&& forall|l: Seq<char>| #[trigger] types.spec_field(r, l) matches Some(t) ==> number_typed(types, bytes, number, truth, l, t)
}

/// Whether a record is the shape of a `bool` value over `bytes` and the truth type.
pub open spec fn bool_record(types: &Types, r: RecId, bytes: TypeId, truth: TypeId) -> bool {
    &&& forall|l: Seq<char>| #[trigger] types.spec_field(r, l) is Some <==> bool_methods().contains(l)
    &&& forall|l: Seq<char>| #[trigger] types.spec_field(r, l) matches Some(t) ==> bool_typed(types, bytes, truth, l, t)
}

/// Whether a type is the built-in `bytes`: an unknown that a record of the
/// arena with the methods of `bytes` names as its bytes.
pub open spec fn is_bytes(types: &Types, t: TypeId) -> bool {
    types.spec_at(t) is Var && exists|r: RecId, n: TypeId, q: TypeId| types.rec_ok(r) && #[trigger] bytes_record(types, r, t, n, q)
}

/// Whether a type is the built-in number: an unknown that a record of the
/// arena with the methods of a number names as its number.
pub open spec fn is_number(types: &Types, t: TypeId) -> bool {
    types.spec_at(t) is Var && exists|r: RecId, b: TypeId, q: TypeId| types.rec_ok(r) && #[trigger] number_record(types, r, b, t, q)
}

/// Whether a type is the built-in truth type: an unknown that a record of the
/// arena with the methods of a `bool` names as its truth type.
pub open spec fn is_truth(types: &Types, t: TypeId) -> bool {
    types.spec_at(t) is Var && exists|r: RecId, b: TypeId| types.rec_ok(r) && #[trigger] bool_record(types, r, b, t)
}

/// Whether a type is the built-in string: an unknown with a record of the
/// arena shaped as a string over it.
pub open spec fn is_string(types: &Types, t: TypeId) -> bool {
    types.spec_at(t) is Var && exists|r: RecId| types.rec_ok(r) && #[trigger] string_shape(types, r, t)
}

/// The built-in a primitive names.
pub open spec fn is_primitive_type(types: &Types, name: Seq<char>, t: TypeId) -> bool {
    &&& name == "bytes"@ ==> is_bytes(types, t)
    &&& name == "number"@ ==> is_number(types, t)
    &&& name == "bool"@ ==> is_truth(types, t)
    &&& name == "string"@ ==> is_string(types, t)
}

/// A recovery admits both of its sides: once it succeeds, the value inside and
/// the alternative, when they are no unknowns and their levels admit it, are
/// both lower bounds of the result.
pub proof fn law_recovery_admits_both(types: Types, inside: TypeId, otherwise: TypeId, t: TypeId, v: VarId)
    requires
        bound_below(types, inside, t),
        bound_below(types, otherwise, t),
        types.spec_at(t) == Type::Var(v),
        inside != t && !(types.spec_at(inside) is Var) && level_of(types, inside, DEPTH as nat) <= types.spec_level(v).0,
        otherwise != t && !(types.spec_at(otherwise) is Var) && level_of(types, otherwise, DEPTH as nat) <= types.spec_level(
            v,
        ).0,
    ensures
        types.spec_lower(v).contains(inside),
        types.spec_lower(v).contains(otherwise),
{
}

/// A string's length is a number, what it decorates and gives as bytes are
/// bytes, and concatenating gives back a string.
pub proof fn law_string_methods(types: &Types, t: TypeId)
    requires
        is_string(types, t),
    ensures
        exists|r: RecId|
            types.rec_ok(r) && (#[trigger] types.spec_field(r, "length"@) matches Some(n) && is_number(types, n))
                && (types.spec_field(r, "@"@) matches Some(b) && is_bytes(types, b)) && (types.spec_field(r, "as-bytes"@) matches Some(
                b,
            ) && is_bytes(types, b)) && (types.spec_field(r, "concat"@) matches Some(c) && (types.spec_at(c) matches Type::Fun {
                res,
                ..
            } && res == t)),
{
    reveal_strlit("eq");
    reveal_strlit("concat");
    reveal_strlit("printf");
    reveal_strlit("length");
    reveal_strlit("as-bytes");
    reveal_strlit("@");
    assert("length"@[0] != "concat"@[0] && "length"@[0] != "printf"@[0] && "concat"@[0] != "printf"@[0]);
    let r = choose|r: RecId| types.rec_ok(r) && #[trigger] string_shape(types, r, t);
    assert(string_methods().contains("length"@)) by {
        assert(string_methods()[2] == "length"@);
    }
    assert(string_methods().contains("@"@)) by {
        assert(string_methods()[5] == "@"@);
    }
    assert(string_methods().contains("as-bytes"@)) by {
        assert(string_methods()[3] == "as-bytes"@);
    }
    assert(string_methods().contains("concat"@)) by {
        assert(string_methods()[1] == "concat"@);
    }
    assert(types.spec_field(r, "length"@) is Some);
    assert(types.spec_field(r, "@"@) is Some);
    assert(types.spec_field(r, "as-bytes"@) is Some);
    assert(types.spec_field(r, "concat"@) is Some);
    let n = types.spec_field(r, "length"@)->0;
    let b = types.spec_field(r, "@"@)->0;
    let a = types.spec_field(r, "as-bytes"@)->0;
    let c = types.spec_field(r, "concat"@)->0;
    assert(string_typed(types, t, "length"@, n));
    assert(string_typed(types, t, "@"@, b));
    assert(string_typed(types, t, "as-bytes"@, a));
    assert(string_typed(types, t, "concat"@, c));
    assert("length"@ != "eq"@ && "length"@ != "concat"@ && "length"@ != "printf"@ && "length"@ != "as-bytes"@
        && "length"@ != "@"@);
    assert("concat"@ != "eq"@ && "concat"@ != "printf"@ && "concat"@ != "length"@ && "concat"@ != "as-bytes"@
        && "concat"@ != "@"@);
    assert("@"@ != "eq"@ && "@"@ != "concat"@ && "@"@ != "printf"@ && "@"@ != "length"@);
    assert("as-bytes"@.len() == 8 && "eq"@.len() == 2 && "concat"@.len() == 6 && "printf"@.len() == 6 && "length"@.len() == 6);
    assert("as-bytes"@ != "eq"@ && "as-bytes"@ != "concat"@ && "as-bytes"@ != "printf"@ && "as-bytes"@ != "length"@);
    assert(is_number(types, n));
    assert(is_bytes(types, b));
    assert(is_bytes(types, a));
}

/// A number has `plus`, taking bytes to a number of its own kind, and its
/// `neg` is itself.
pub proof fn law_number_methods(types: &Types, t: TypeId)
    requires
        is_number(types, t),
    ensures
        exists|r: RecId|
            types.rec_ok(r) && (#[trigger] types.spec_field(r, "plus"@) matches Some(f) && (types.spec_at(f) matches Type::Fun {
                res,
                ..
            } && res == t)) && types.spec_field(r, "neg"@) == Some(t),
{
    reveal_strlit("plus");
    reveal_strlit("minus");
    reveal_strlit("times");
    reveal_strlit("div");
    reveal_strlit("power");
    reveal_strlit("gt");
    reveal_strlit("lt");
    reveal_strlit("gte");
    reveal_strlit("lte");
    reveal_strlit("eq");
    reveal_strlit("neg");
    reveal_strlit("is-nan");
    reveal_strlit("is-integer");
    reveal_strlit("is-finite");
    reveal_strlit("floor");
    reveal_strlit("as-i64");
    reveal_strlit("as-i32");
    reveal_strlit("as-i16");
    reveal_strlit("as-number");
    reveal_strlit("as-bytes");
    reveal_strlit("@");
    let (r, b, q) = choose|r: RecId, b: TypeId, q: TypeId| types.rec_ok(r) && #[trigger] number_record(types, r, b, t, q);
    assert(number_methods().contains("plus"@)) by {
        assert(number_methods()[0] == "plus"@);
    }
    assert(number_methods().contains("neg"@)) by {
        assert(number_methods()[10] == "neg"@);
    }
    assert(types.spec_field(r, "plus"@) is Some);
    assert(types.spec_field(r, "neg"@) is Some);
    let f = types.spec_field(r, "plus"@)->0;
    let g = types.spec_field(r, "neg"@)->0;
    assert(number_typed(types, b, t, q, "plus"@, f));
    assert(number_typed(types, b, t, q, "neg"@, g));
    assert("neg"@[0] != "div"@[0] && "neg"@[0] != "gte"@[0] && "neg"@[0] != "lte"@[0]);
    assert("neg"@ != "div"@ && "neg"@ != "gte"@ && "neg"@ != "lte"@);
    assert(g == t);
    assert("plus"@.len() == 4 && "gt"@.len() == 2 && "lt"@.len() == 2 && "gte"@.len() == 3 && "lte"@.len() == 3
        && "eq"@.len() == 2 && "is-nan"@.len() == 6 && "is-integer"@.len() == 10 && "is-finite"@.len() == 9
        && "as-bytes"@.len() == 8 && "@"@.len() == 1 && "neg"@.len() == 3 && "floor"@.len() == 5 && "as-i64"@.len() == 6
        && "as-i32"@.len() == 6 && "as-i16"@.len() == 6 && "as-number"@.len() == 9);
    assert(types.spec_at(f) == (Type::Fun { arg: b, res: t }));
}

/// What an attribute of a record of an arena is, down to two constructors
/// deep, stays so as the arena grows and keeps its records.
pub proof fn lemma_field_kept(before: &Types, after: &Types, r: RecId, l: Seq<char>)
    requires
        before.wf(),
        before.grows_to(after),
        before.recs_kept(after),
        before.rec_ok(r),
    ensures
        after.spec_field(r, l) == before.spec_field(r, l),
        before.spec_field(r, l) matches Some(t) ==> kept_deep(before, after, t),
{
    assert(after.recs@[r.0 as int] == before.recs@[r.0 as int]);
    if before.spec_field(r, l) is Some {
        lemma_lookup_found(before.recs@[r.0 as int].fields@, l);
        assert(before.record_ok(before.recs@[r.0 as int]));
        let t = before.spec_field(r, l)->0;
        let j = choose|j: int| 0 <= j < before.recs@[r.0 as int].fields@.len() && before.recs@[r.0 as int].fields@[j].0@ == l
            && before.recs@[r.0 as int].fields@[j].1 == t;
        assert(before.ty_ok(before.recs@[r.0 as int].fields@[j].1));
        lemma_deep_kept(before, after, t);
    }
}

/// Whether a type reads the same in two arenas down to two constructors deep.
pub open spec fn kept_deep(before: &Types, after: &Types, t: TypeId) -> bool {
    &&& after.spec_at(t) == before.spec_at(t)
    &&& before.spec_at(t) matches Type::Fun { arg, res } ==> {
        &&& after.spec_at(arg) == before.spec_at(arg)
        &&& after.spec_at(res) == before.spec_at(res)
        &&& (before.spec_at(res) matches Type::Fun { arg: b, res: c } ==> after.spec_at(b) == before.spec_at(b)
            && after.spec_at(c) == before.spec_at(c))
    }
}

/// A type of an arena reads the same, two constructors deep, once the arena
/// grew.
pub proof fn lemma_deep_kept(before: &Types, after: &Types, t: TypeId)
    requires
        before.wf(),
        before.grows_to(after),
        before.ty_ok(t),
    ensures
        kept_deep(before, after, t),
{
    before.lemma_grows_keeps(after, t);
    assert(before.type_ok(before.nodes@[t.0 as int]));
    if let Type::Fun { arg, res } = before.spec_at(t) {
        before.lemma_grows_keeps(after, arg);
        before.lemma_grows_keeps(after, res);
        assert(before.type_ok(before.nodes@[res.0 as int]));
        if let Type::Fun { arg: b, res: c } = before.spec_at(res) {
            before.lemma_grows_keeps(after, b);
            before.lemma_grows_keeps(after, c);
        }
    }
}

/// The built-ins stay what they are as the arena grows and keeps its records.
pub proof fn lemma_builtins_kept(before: &Types, after: &Types, t: TypeId)
    requires
        before.wf(),
        before.grows_to(after),
        before.recs_kept(after),
        before.ty_ok(t),
    ensures
        is_bytes(before, t) ==> is_bytes(after, t),
        is_number(before, t) ==> is_number(after, t),
        is_truth(before, t) ==> is_truth(after, t),
        is_string(before, t) ==> is_string(after, t),
{
    lemma_prims_kept(before, after, t);
    if is_string(before, t) {
        let r = choose|r: RecId| before.rec_ok(r) && #[trigger] string_shape(before, r, t);
        assert forall|l: Seq<char>| #[trigger] after.spec_field(r, l) is Some <==> string_methods().contains(l) by {
            lemma_field_kept(before, after, r, l);
        }
        assert forall|l: Seq<char>| #[trigger] after.spec_field(r, l) is Some implies string_typed(after, t, l, after.spec_field(r, l)->0) by {
            lemma_field_kept(before, after, r, l);
            let f = before.spec_field(r, l)->0;
            assert(string_typed(before, t, l, f));
            lemma_lookup_found(before.recs@[r.0 as int].fields@, l);
            assert(before.record_ok(before.recs@[r.0 as int]));
            let j = choose|j: int| 0 <= j < before.recs@[r.0 as int].fields@.len() && before.recs@[r.0 as int].fields@[j].0@ == l
                && before.recs@[r.0 as int].fields@[j].1 == f;
            assert(before.ty_ok(before.recs@[r.0 as int].fields@[j].1));
            lemma_prims_kept(before, after, f);
            assert(before.type_ok(before.nodes@[f.0 as int]));
            if let Type::Fun { arg, res } = before.spec_at(f) {
                lemma_prims_kept(before, after, arg);
                lemma_prims_kept(before, after, res);
            }
        }
        assert(string_shape(after, r, t));
    }
}

/// The primitive built-ins stay what they are as the arena grows and keeps
/// its records.
pub proof fn lemma_prims_kept(before: &Types, after: &Types, t: TypeId)
    requires
        before.wf(),
        before.grows_to(after),
        before.recs_kept(after),
        before.ty_ok(t),
    ensures
        is_bytes(before, t) ==> is_bytes(after, t),
        is_number(before, t) ==> is_number(after, t),
        is_truth(before, t) ==> is_truth(after, t),
{
    before.lemma_grows_keeps(after, t);
    if is_bytes(before, t) {
        let (r, n, q) = choose|r: RecId, n: TypeId, q: TypeId| before.rec_ok(r) && #[trigger] bytes_record(before, r, t, n, q);
        assert forall|l: Seq<char>| #[trigger] after.spec_field(r, l) is Some <==> leaf_methods().contains(l) by {
            lemma_field_kept(before, after, r, l);
        }
        assert forall|l: Seq<char>| #[trigger] after.spec_field(r, l) is Some implies leaf_typed(after, t, n, q, l, after.spec_field(r, l)->0) by {
            lemma_field_kept(before, after, r, l);
        }
        assert(bytes_record(after, r, t, n, q));
    }
    if is_number(before, t) {
        let (r, b, q) = choose|r: RecId, b: TypeId, q: TypeId| before.rec_ok(r) && #[trigger] number_record(before, r, b, t, q);
        assert forall|l: Seq<char>| #[trigger] after.spec_field(r, l) is Some <==> number_methods().contains(l) by {
            lemma_field_kept(before, after, r, l);
        }
        assert forall|l: Seq<char>| #[trigger] after.spec_field(r, l) is Some implies number_typed(after, b, t, q, l, after.spec_field(r, l)->0) by {
            lemma_field_kept(before, after, r, l);
        }
        assert(number_record(after, r, b, t, q));
    }
    if is_truth(before, t) {
        let (r, b) = choose|r: RecId, b: TypeId| before.rec_ok(r) && #[trigger] bool_record(before, r, b, t);
        assert forall|l: Seq<char>| #[trigger] after.spec_field(r, l) is Some <==> bool_methods().contains(l) by {
            lemma_field_kept(before, after, r, l);
        }
        assert forall|l: Seq<char>| #[trigger] after.spec_field(r, l) is Some implies bool_typed(after, b, t, l, after.spec_field(r, l)->0) by {
            lemma_field_kept(before, after, r, l);
        }
        assert(bool_record(after, r, b, t));
    }
}

/// The methods of a tuple.
pub open spec fn tuple_methods() -> Seq<Seq<char>> {
    seq!["head"@, "tail"@, "with"@, "at"@, "contains"@, "length"@]
}

/// Whether a record is the shape of a tuple over an element type: its head is
/// the element, its tail is the tuple itself, `with` takes an element and gives
/// back the tuple, and it has exactly the methods of a tuple.
pub open spec fn tuple_shape(types: &Types, r: RecId, element: TypeId, whole: TypeId) -> bool {
    &&& types.spec_field(r, "head"@) == Some(element)
    &&& types.spec_field(r, "tail"@) == Some(whole)
    &&& types.spec_field(r, "with"@) matches Some(w) && types.spec_at(w) == (Type::Fun { arg: element, res: whole })
    &&& forall|l: Seq<char>| #[trigger] types.spec_field(r, l) is Some <==> tuple_methods().contains(l)
}

/// The methods of `bytes`.
pub open spec fn leaf_methods() -> Seq<Seq<char>> {
    seq![
        "eq"@, "and"@, "or"@, "xor"@, "not"@, "left"@, "right"@, "concat"@, "slice"@, "size"@, "as-i64"@,
        "as-i32"@, "as-i16"@, "as-i8"@, "as-u64"@, "as-u32"@, "as-u16"@, "as-u8"@, "as-bytes"@, "as-number"@,
        "as-bool"@,
    ]
}

/// The methods of `number`, and its decoratee.
pub open spec fn number_methods() -> Seq<Seq<char>> {
    seq![
        "plus"@, "minus"@, "times"@, "div"@, "power"@, "gt"@, "lt"@, "gte"@, "lte"@, "eq"@, "neg"@, "is-nan"@,
        "is-integer"@, "is-finite"@, "floor"@, "as-i64"@, "as-i32"@, "as-i16"@, "as-number"@, "as-bytes"@, "@"@,
    ]
}

/// The methods of a `bool` value, and its decoratee.
pub open spec fn bool_methods() -> Seq<Seq<char>> {
    seq!["if"@, "not"@, "and"@, "or"@, "eq"@, "as-bytes"@, "@"@]
}

impl Engine {
    /// The type of one node.
    ///
    /// # Errors
    ///
    /// A [`Clash`] when the program cannot be typed.
    #[verifier::rlimit(90)]
    pub fn infer(&mut self, node: &Node, env: &Env) -> (r: Result<TypeId, Clash>)
        requires
            old(self).inv(),
            env_ok(&old(self).types, env@),
        ensures
            final(self).inv(),
            old(self).keeps(final(self)),
            old(self).types.knots_kept(&final(self).types),
            old(self).types.recs_kept(&final(self).types),
            r matches Ok(t) ==> final(self).types.ty_ok(t),
            old(self).leniency.lenient ==> !unbound(r),
            *node matches Node::Name(n) ==> (env_find(env@, n@) matches Some(t) ==> (r matches Ok(x) && x == t) && *final(self)
                == *old(self)),
            *node matches Node::Name(n) ==> (env_find(env@, n@) is None && is_builtin(n@) ==> r is Ok),
            *node matches Node::Name(n) ==> (env_find(env@, n@) is None && !is_builtin(n@) && !old(self).leniency.lenient
                ==> (r matches Err(Clash::Unbound { name }) && name@ == n@)),
            *node matches Node::Name(n) ==> (env_find(env@, n@) is None && !is_builtin(n@) && old(self).leniency.lenient
                ==> r is Ok && count(final(self).leniency.unmodelled@, n@) == if count(
                old(self).leniency.unmodelled@,
                n@,
            ) < usize::MAX {
                count(old(self).leniency.unmodelled@, n@) + 1
            } else {
                count(old(self).leniency.unmodelled@, n@)
            }),
            *node matches Node::Name(n) ==> forall|other: Seq<char>| other != n@ ==> #[trigger] count(
                final(self).leniency.unmodelled@,
                other,
            ) == count(old(self).leniency.unmodelled@, other),
            (*node is Num || *node is Str || *node is Bytes || *node is Bool || *node is Tuple) ==> r is Ok,
            *node is Maybe ==> (r matches Ok(t) ==> final(self).types.spec_at(t) is Opt),
            *node is Apply ==> (r matches Ok(t) ==> final(self).types.spec_at(t) matches Type::Var(v)
                && final(self).types.spec_level(v) == old(self).solver.level),
            *node is Apply ==> (r matches Ok(t) ==> exists|f: TypeId, w: TypeId|
                final(self).types.ty_ok(f) && final(self).types.ty_ok(w) && (final(self).types.spec_at(w) matches Type::Fun {
                    res,
                    ..
                } && res == t) && #[trigger] bound_below(final(self).types, f, w)),
            *node is Recovered ==> (r matches Ok(t) ==> exists|h: TypeId, o: TypeId|
                final(self).types.ty_ok(h) && final(self).types.ty_ok(o) && #[trigger] bound_below(final(self).types, h, t)
                    && #[trigger] bound_below(final(self).types, o, t)),
            *node is Recovered ==> (r matches Ok(t) ==> final(self).types.spec_at(t) matches Type::Var(v)
                && final(self).types.spec_level(v) == old(self).solver.level),
            *node matches Node::Recovered { alt, .. } ==> ((*alt matches Node::Name(y) && env_find(env@, y@) is Some) ==> (
            r matches Ok(t) ==> bound_below(final(self).types, env_find(env@, (*alt)->Name_0@)->0, t))),
            *node matches Node::Recovered { value, .. } ==> ((*value matches Node::Name(x) && env_find(env@, x@) is Some)
                ==> (r matches Ok(t) ==> bound_below(
                final(self).types,
                stripped(&old(self).types, env_find(env@, (*value)->Name_0@)->0),
                t,
            ))),
            *node matches Node::Atom { voids, .. } ==> (r matches Ok(t) && atom_shape(&final(self).types, t, voids@)),
            *node matches Node::Loc(l) ==> (env_find(env@, spec_tail(l@)) matches Some(t) ==> (r matches Ok(x) && x == t)),
            *node matches Node::Loc(l) ==> (env_find(env@, spec_tail(l@)) is None && is_builtin(spec_tail(l@)) ==> r is Ok),
            *node is Loc && old(self).leniency.lenient ==> r is Ok,
            *node matches Node::Loc(l) ==> (underway(old(self).locs.underway@, l@) is None && resolved(
                old(self).locs.resolved@,
                l@,
            ) is None && old(self).locs.underway@.len() < NESTING && names_empty_object(old(self).locs, l@) ==> r is Ok),
            *node matches Node::Loc(l) ==> (env_find(env@, spec_tail(l@)) is None && !is_builtin(spec_tail(l@))
                && resolves_to_nothing(old(self).locs, l@) && !old(self).leniency.lenient ==> (r matches Err(
                Clash::Unbound { name },
            ) && name@ == l@)),
            *node matches Node::Loc(l) ==> (env_find(env@, spec_tail(l@)) is None && !is_builtin(spec_tail(l@))
                && resolves_to_nothing(old(self).locs, l@) && old(self).leniency.lenient ==> count(
                final(self).leniency.unmodelled@,
                l@,
            ) == if count(old(self).leniency.unmodelled@, l@) < usize::MAX {
                count(old(self).leniency.unmodelled@, l@) + 1
            } else {
                count(old(self).leniency.unmodelled@, l@)
            }),
            (*node matches Node::Dispatch { obj, .. } && *obj is Maybe) ==> r is Err,
            refused(&old(self).types, env@, old(self).leniency.lenient, *node) ==> r is Err,
            recorded(&old(self).types, env@, old(self).solver.level, *node) ==> r is Ok,
            recovers_open(&old(self).types, env@, old(self).solver.level, *node) ==> r is Ok,
            chains_open(&old(self).types, env@, old(self).solver.level, *node) ==> (r matches Ok(t) && final(self).types.spec_at(t)
                is Opt),
            *node matches Node::Maybe(i) ==> ((*i matches Node::Name(n) && env_find(env@, n@) is Some) ==> (r matches Ok(x)
                && final(self).types.spec_at(x) == Type::Opt(env_find(env@, (*i)->Name_0@)->0) && final(self).types.vars@
                == old(self).types.vars@ && final(self).solver == old(self).solver)),
            recorded(&old(self).types, env@, old(self).solver.level, *node) ==> (r matches Ok(t) && (final(self).types.spec_at(
                t,
            ) matches Type::Var(u) && final(self).types.spec_level(u) == old(self).solver.level)),
            recorded(&old(self).types, env@, old(self).solver.level, *node) ==> final(self).solver.level
                == old(self).solver.level && forall|k: int|
                0 <= k < old(self).types.vars@.len() && k != demanded(&old(self).types, env@, *node) ==> #[trigger] final(self).types.vars@[k] == old(self).types.vars@[k],
            (*node matches Node::Fragile { obj, .. } && *obj is Maybe) ==> (r matches Ok(t) ==> final(self).types.spec_at(t) is Opt),
            (*node is Obj || *node is Lam) ==> (r matches Ok(t) ==> final(self).types.spec_at(t) matches Type::Var(v)
                && final(self).types.spec_level(v) == old(self).solver.level.deeper_spec()),
            (*node is Obj || *node is Lam) ==> (r matches Ok(t) ==> final(self).types.spec_at(t) matches Type::Var(v)
                && final(self).types.vars@[v.0 as int].knot matches Some(s) && shaped(&final(self).types, s, *node, env@)),
            (*node is Obj || *node is Lam) && node_binds(*node).len() == 0 && !has_body(*node) ==> r is Ok,
            (*node is Obj || *node is Lam) && node_binds(*node).len() == 0 && !has_body(*node) ==> (r matches Ok(t) && (final(
                self).types.spec_at(t) matches Type::Var(v) && final(self).types.spec_level(v)
                == old(self).solver.level.deeper_spec() && final(self).types.spec_lower(v).len() == 1
                && final(self).types.spec_upper(v).len() == 0 && !(final(self).types.spec_at(
                final(self).types.spec_lower(v)[0],
            ) is Var) && level_of(final(self).types, final(self).types.spec_lower(v)[0], DEPTH as nat)
                <= final(self).types.spec_level(v).0)),
            (*node is Obj || *node is Lam) && node_binds(*node).len() == 0 && !has_body(*node) ==> forall|k: int|
                0 <= k < old(self).types.vars@.len() ==> #[trigger] final(self).types.vars@[k] == old(self).types.vars@[k],
            demands_on_params(*node) ==> r is Ok,
            (*node is Obj || *node is Lam) ==> (r matches Ok(t) ==> final(self).types.spec_at(t) matches Type::Var(v)
                && final(self).types.vars@[v.0 as int].knot matches Some(s) && exists|w: TypeId|
                final(self).types.ty_ok(w) && final(self).types.spec_at(w) == Type::Rec(s) && #[trigger] bound_below(
                    final(self).types,
                    w,
                    t,
                )),
        decreases 2 * (NESTING - old(self).locs.underway@.len()) + 1, size(*node), 3int,
    {
        let ghost e0 = *self;
        proof {
            e0.lemma_keeps_refl();
        }
        match node {
            Node::Name(name) => self.name(name.as_str(), env),
            Node::Loc(loc) => self.located(loc.as_str(), env),
            Node::Num => Ok(self.ground(Ground::Number)),
            Node::Str => Ok(self.ground(Ground::String)),
            Node::Bytes => Ok(self.ground(Ground::Bytes)),
            Node::Bool => Ok(self.ground(Ground::Bool)),
            Node::Tuple => Ok(self.ground(Ground::Tuple)),
            Node::Atom { voids, ret } => {
                let save = self.solver.jump(Level(0));
                let ty = match ret {
                    Some(ret) => self.declared(voids, Some(ret.as_str())),
                    None => self.declared(voids, None),
                };
                self.solver.jump(save);
                Ok(ty)
            },
            Node::Obj { .. } => self.formation(node, env),
            Node::Lam { .. } => self.formation(node, env),
            Node::Apply { fun, arg } => {
                let applied = self.infer(fun, env)?;
                let ghost e1 = *self;
                let result = self.fresh();
                proof {
                    lemma_env_grows(env@, &e1.types, &self.types);
                }
                proof {
                    if refused(&e0.types, env@, e0.leniency.lenient, **arg) {
                        lemma_refused_grows(&e0.types, &self.types, env@, e0.leniency.lenient, **arg);
                    }
                }
                let given = self.infer(arg, env)?;
                let want = self.types.fun(given, result);
                proof {
                    let f: Node = **fun;
                    if f is Name && env_find(env@, f->Name_0@) is Some {
                        lemma_env_find_ok(env@, f->Name_0@, &e0.types);
                        e0.types.lemma_grows_keeps(&self.types, applied);
                        assert(e0.types.type_ok(e0.types.nodes@[applied.0 as int]));
                        if let Type::Rec(s) = e0.types.spec_at(applied) {
                            assert(self.types.recs@[s.0 as int] == e0.types.recs@[s.0 as int]);
                        }
                    }
                }
                let ghost e2 = self.types;
                proof {
                    if recorded(&e0.types, env@, e0.solver.level, *node) {
                        let f: Node = **fun;
                        let a: Node = **arg;
                        lemma_env_find_ok(env@, f->Name_0@, &e0.types);
                        lemma_env_find_ok(env@, a->Name_0@, &e0.types);
                        let v = e0.types.spec_at(applied)->Var_0;
                        assert(e1.types.vars@[v.0 as int] == e0.types.vars@[v.0 as int]);
                        assert(e2.vars@[v.0 as int] == e0.types.vars@[v.0 as int]);
                        e0.types.lemma_grows_keeps(&e2, applied);
                        crate::solver::lemma_level_kept(e0.types, e2, given, (DEPTH - 1) as nat);
                        assert(e2.spec_at(want) == (Type::Fun { arg: given, res: result }));
                        assert(level_of(e2, result, (DEPTH - 1) as nat) == e0.solver.level.0);
                        assert(level_of(e2, want, DEPTH as nat) <= e0.types.spec_level(v).0);
                        assert(crate::solver::lands_above(e2, applied, want));
                    }
                }
                self.solver.constrain(&mut self.types, applied, want)?;
                proof {
                    lemma_settled_bound(e2, self.types, applied, want);
                    e2.lemma_grows_keeps(&self.types, want);
                    e2.lemma_grows_keeps(&self.types, result);
                }
                Ok(result)
            },
            Node::Dispatch { obj, label, site } => {
                let receiver = self.infer(obj, env)?;
                proof {
                    let o: Node = **obj;
                    if o is Name && env_find(env@, o->Name_0@) is Some {
                        lemma_env_find_ok(env@, o->Name_0@, &e0.types);
                        assert(*self == e0);
                    }
                }
                self.dispatch(receiver, label.as_str(), site)
            },
            Node::Fragile { obj, label, site } => {
                let receiver = self.infer(obj, env)?;
                let ghost e1 = *self;
                let result = self.fresh();
                let want = self.requirement(label.as_str(), result, site);
                proof {
                    e1.types.lemma_grows_keeps(&self.types, receiver);
                }
                let seen = self.peek(receiver);
                proof {
                    if chains_open(&e0.types, env@, e0.solver.level, *node) {
                        let o: Node = **obj;
                        if o is Maybe {
                            let n = (*(o->Maybe_0))->Name_0;
                            lemma_env_find_ok(env@, n@, &e0.types);
                        } else {
                            lemma_env_find_ok(env@, o->Name_0@, &e0.types);
                        }
                        assert(e1.types.spec_at(receiver) is Opt);
                        assert(self.types.spec_at(receiver) is Opt);
                        assert(seen == receiver);
                    }
                }
                if let Type::Opt(inner) = self.types.at(seen) {
                    proof {
                        assert(self.types.type_ok(self.types.nodes@[seen.0 as int]));
                        if chains_open(&e0.types, env@, e0.solver.level, *node) {
                            let o: Node = **obj;
                            if o is Maybe {
                                let n = (*(o->Maybe_0))->Name_0;
                                lemma_env_find_ok(env@, n@, &e0.types);
                            } else {
                                lemma_env_find_ok(env@, o->Name_0@, &e0.types);
                                assert(e0.types.type_ok(e0.types.nodes@[receiver.0 as int]));
                            }
                            let v = e1.types.spec_at(inner)->Var_0;
                            assert(e0.types.type_ok(e0.types.nodes@[inner.0 as int]));
                            assert(self.types.vars@[v.0 as int] == e1.types.vars@[v.0 as int]);
                            e1.types.lemma_grows_keeps(&self.types, inner);
                            let w = self.types.spec_at(want)->Rec_0;
                            let res = self.types.recs@[w.0 as int].fields@[0].1;
                            assert(self.types.record_ok(self.types.recs@[w.0 as int]));
                            assert(self.types.recs@[w.0 as int].fields@.drop_last().len() == 0);
                            assert(crate::solver::fields_level(
                                self.types,
                                self.types.recs@[w.0 as int].fields@.drop_last(),
                                (DEPTH - 1) as nat,
                            ) == 0);
                            assert(self.types.recs@[w.0 as int].fields@.last() == self.types.recs@[w.0 as int].fields@[0]);
                            assert(level_of(self.types, res, (DEPTH - 1) as nat) == e0.solver.level.0);
                            assert(crate::solver::fields_level(self.types, self.types.recs@[w.0 as int].fields@, (DEPTH - 1) as nat)
                                <= e0.solver.level.0);
                            assert(level_of(self.types, want, DEPTH as nat) <= e0.solver.level.0);
                            assert(crate::solver::lands_above(self.types, inner, want));
                        }
                    }
                    self.solver.constrain(&mut self.types, inner, want)?;
                    return Ok(self.types.opt(result));
                }
                self.solver.constrain(&mut self.types, receiver, want)?;
                Ok(result)
            },
            Node::Maybe(inner) => {
                let found = self.infer(inner, env);
                proof {
                    let ii: Node = **inner;
                    if let Node::Name(n) = ii {
                        if env_find(env@, n@) is Some {
                            assert(found == Ok::<TypeId, Clash>(env_find(env@, n@)->0));
                            assert(*self == e0);
                        }
                    }
                }
                let inner = found?;
                Ok(self.types.opt(inner))
            },
            Node::Recovered { value, alt } => {
                let held = self.infer(value, env)?;
                let ghost e1 = *self;
                proof {
                    lemma_env_grows(env@, &e0.types, &self.types);
                }
                proof {
                    if refused(&e0.types, env@, e0.leniency.lenient, **alt) {
                        lemma_refused_grows(&e0.types, &self.types, env@, e0.leniency.lenient, **alt);
                    }
                }
                let otherwise = self.infer(alt, env)?;
                proof {
                    if recovers_open(&e0.types, env@, e0.solver.level, *node) {
                        let va: Node = **value;
                        let al: Node = **alt;
                        lemma_env_find_ok(env@, va->Name_0@, &e0.types);
                        lemma_env_find_ok(env@, al->Name_0@, &e0.types);
                        assert(held == env_find(env@, va->Name_0@)->0);
                        assert(otherwise == env_find(env@, al->Name_0@)->0);
                        assert(*self == e0);
                    }
                    let al: Node = **alt;
                    if al is Name && env_find(env@, al->Name_0@) is Some {
                        assert(otherwise == env_find(env@, al->Name_0@)->0);
                    }
                }
                self.recover(held, otherwise)
            },
        }
    }

    /// Strip the `⊥` off a value, falling back to an alternative: the value
    /// inside a maybe-`⊥`, and the alternative, both flow into one new unknown,
    /// which is the result.
    fn recover(&mut self, held: TypeId, otherwise: TypeId) -> (r: Result<TypeId, Clash>)
        requires
            old(self).inv(),
            old(self).types.ty_ok(held),
            old(self).types.ty_ok(otherwise),
        ensures
            final(self).inv(),
            old(self).keeps(final(self)),
            old(self).types.knots_kept(&final(self).types),
            old(self).types.recs_kept(&final(self).types),
            !unbound(r),
            r matches Ok(t) ==> final(self).types.ty_ok(t) && (final(self).types.spec_at(t) matches Type::Var(v)
                && final(self).types.spec_level(v) == old(self).solver.level),
            r matches Ok(t) ==> bound_below(final(self).types, stripped(&old(self).types, held), t) && bound_below(
                final(self).types,
                otherwise,
                t,
            ),
            open_unknown(&old(self).types, stripped(&old(self).types, held), old(self).solver.level) && open_unknown(
                &old(self).types,
                otherwise,
                old(self).solver.level,
            ) ==> r is Ok,
    {
        let ghost e0 = *self;
        let result = self.fresh();
        proof {
            assert(self.types.type_ok(self.types.nodes@[held.0 as int]));
            e0.types.lemma_grows_keeps(&self.types, held);
        }
        let stripped = match self.types.at(held) {
            Type::Opt(inner) => inner,
            _ => held,
        };
        let ghost e2 = self.types;
        proof {
            assert(stripped == crate::infer::stripped(&e0.types, held));
            if open_unknown(&e0.types, stripped, e0.solver.level) {
                let v = e0.types.spec_at(stripped)->Var_0;
                assert(e2.vars@[v.0 as int] == e0.types.vars@[v.0 as int]);
                e0.types.lemma_grows_keeps(&e2, stripped);
                assert(level_of(e2, result, DEPTH as nat) == e0.solver.level.0);
                assert(crate::solver::lands_above(e2, stripped, result));
            }
        }
        self.solver.constrain(&mut self.types, stripped, result)?;
        let ghost e3 = self.types;
        proof {
            e0.types.lemma_grows_keeps(&e3, otherwise);
            if open_unknown(&e0.types, stripped, e0.solver.level) && open_unknown(&e0.types, otherwise, e0.solver.level) {
                let w = e0.types.spec_at(otherwise)->Var_0;
                assert(e0.types.type_ok(e0.types.nodes@[otherwise.0 as int]));
                assert(e2.vars@[w.0 as int] == e0.types.vars@[w.0 as int]);
                assert(e3.spec_lower(w).len() == 0);
                let u = e2.spec_at(result)->Var_0;
                assert(e3.spec_at(result) == e2.spec_at(result));
                assert(e3.spec_level(u) == e2.spec_level(u));
                assert(level_of(e3, result, DEPTH as nat) == e0.solver.level.0);
                assert(crate::solver::lands_above(e3, otherwise, result));
            }
        }
        self.solver.constrain(&mut self.types, otherwise, result)?;
        proof {
            lemma_settled_bound(e2, e3, stripped, result);
            e2.lemma_grows_keeps(&e3, stripped);
            e2.lemma_grows_keeps(&e3, result);
            lemma_bound_kept(e3, self.types, stripped, result);
            lemma_settled_bound(e3, self.types, otherwise, result);
            e3.lemma_grows_keeps(&self.types, stripped);
            e3.lemma_grows_keeps(&self.types, otherwise);
            e3.lemma_grows_keeps(&self.types, result);
        }
        Ok(result)
    }

    /// A name: what it stands for in scope, then among the built-ins, then —
    /// when forgiving — anything at all.
    fn name(&mut self, name: &str, env: &Env) -> (r: Result<TypeId, Clash>)
        requires
            old(self).inv(),
            env_ok(&old(self).types, env@),
        ensures
            final(self).inv(),
            old(self).keeps(final(self)),
            old(self).types.knots_kept(&final(self).types),
            old(self).types.recs_kept(&final(self).types),
            r matches Ok(t) ==> final(self).types.ty_ok(t),
            old(self).leniency.lenient ==> !unbound(r),
            env_find(env@, name@) matches Some(t) ==> (r matches Ok(x) && x == t) && *final(self) == *old(self),
            env_find(env@, name@) is None && is_builtin(name@) ==> r is Ok,
            env_find(env@, name@) is None && !is_builtin(name@) && !old(self).leniency.lenient ==> (r matches Err(
                Clash::Unbound { name: n },
            ) && n@ == name@),
            env_find(env@, name@) is None && !is_builtin(name@) && old(self).leniency.lenient ==> r is Ok && count(
                final(self).leniency.unmodelled@,
                name@,
            ) == if count(old(self).leniency.unmodelled@, name@) < usize::MAX {
                count(old(self).leniency.unmodelled@, name@) + 1
            } else {
                count(old(self).leniency.unmodelled@, name@)
            },
            forall|other: Seq<char>| other != name@ ==> #[trigger] count(final(self).leniency.unmodelled@, other) == count(
                old(self).leniency.unmodelled@,
                other,
            ),
    {
        let ghost e0 = *self;
        proof {
            e0.lemma_keeps_refl();
        }
        if let Some(found) = find(env, name) {
            proof {
                lemma_env_find_ok(env@, name@, &self.types);
            }
            return Ok(found);
        }
        if let Some(atom) = self.atom(name) {
            return Ok(atom);
        }
        if self.leniency.lenient {
            self.leniency.note(name);
            return Ok(self.opaque());
        }
        Err(Clash::Unbound { name: String::from_str(name) })
    }

    /// A forma. In scope or a built-in it behaves as a name would; otherwise it
    /// is resolved through the locator index to the shape it points at.
    fn located(&mut self, loc: &str, env: &Env) -> (r: Result<TypeId, Clash>)
        requires
            old(self).inv(),
            env_ok(&old(self).types, env@),
        ensures
            final(self).inv(),
            old(self).keeps(final(self)),
            old(self).types.knots_kept(&final(self).types),
            old(self).types.recs_kept(&final(self).types),
            r matches Ok(t) ==> final(self).types.ty_ok(t),
            old(self).leniency.lenient ==> !unbound(r),
            env_find(env@, spec_tail(loc@)) matches Some(t) ==> (r matches Ok(x) && x == t) && *final(self) == *old(self),
            env_find(env@, spec_tail(loc@)) is None && is_builtin(spec_tail(loc@)) ==> r is Ok,
            r matches Err(Clash::Unbound { name }) ==> name@ == loc@,
            old(self).leniency.lenient ==> r is Ok,
            underway(old(self).locs.underway@, loc@) is None && resolved(old(self).locs.resolved@, loc@) is None
                && old(self).locs.underway@.len() < NESTING && names_empty_object(old(self).locs, loc@) ==> r is Ok,
            env_find(env@, spec_tail(loc@)) is None && !is_builtin(spec_tail(loc@)) && resolves_to_nothing(old(self).locs, loc@)
                && !old(self).leniency.lenient ==> (r matches Err(Clash::Unbound { name }) && name@ == loc@),
            env_find(env@, spec_tail(loc@)) is None && !is_builtin(spec_tail(loc@)) && resolves_to_nothing(old(self).locs, loc@)
                && old(self).leniency.lenient ==> count(final(self).leniency.unmodelled@, loc@) == if count(
                old(self).leniency.unmodelled@,
                loc@,
            ) < usize::MAX {
                count(old(self).leniency.unmodelled@, loc@) + 1
            } else {
                count(old(self).leniency.unmodelled@, loc@)
            },
            env_find(env@, spec_tail(loc@)) is None && !is_builtin(spec_tail(loc@)) && resolves_to_nothing(old(self).locs, loc@)
                ==> forall|other: Seq<char>| other != loc@ ==> #[trigger] count(final(self).leniency.unmodelled@, other)
                == count(old(self).leniency.unmodelled@, other),
        decreases 2 * (NESTING - old(self).locs.underway@.len()), 0nat, 2int,
    {
        let ghost e0 = *self;
        proof {
            e0.lemma_keeps_refl();
        }
        let last = tail(loc);
        if let Some(found) = find(env, last.as_str()) {
            proof {
                lemma_env_find_ok(env@, last@, &self.types);
            }
            return Ok(found);
        }
        if let Some(atom) = self.atom(last.as_str()) {
            return Ok(atom);
        }
        if let Some(resolved) = self.resolve(loc) {
            return Ok(resolved);
        }
        if self.leniency.lenient {
            self.leniency.note(loc);
            return Ok(self.opaque());
        }
        Err(Clash::Unbound { name: String::from_str(loc) })
    }

    /// A formation. The recursion unknown lives at *body* level rather than
    /// definition level: tying the knot at definition level would lower the
    /// parameters along with it, and the checker would stop noticing real
    /// errors without failing anything.
    #[verifier::rlimit(80)]
    #[verifier::spinoff_prover]
    fn formation(&mut self, node: &Node, env: &Env) -> (r: Result<TypeId, Clash>)
        requires
            old(self).inv(),
            env_ok(&old(self).types, env@),
            *node is Obj || *node is Lam,
        ensures
            final(self).inv(),
            old(self).keeps(final(self)),
            old(self).types.knots_kept(&final(self).types),
            old(self).types.recs_kept(&final(self).types),
            r matches Ok(t) ==> final(self).types.ty_ok(t),
            old(self).leniency.lenient ==> !unbound(r),
            r matches Ok(t) ==> final(self).types.spec_at(t) matches Type::Var(v) && final(self).types.spec_level(v)
                == old(self).solver.level.deeper_spec(),
            r matches Ok(t) ==> final(self).types.spec_at(t) matches Type::Var(v) && final(self).types.vars@[v.0 as int].knot
                matches Some(s) && shaped(&final(self).types, s, *node, env@),
            r matches Ok(t) ==> final(self).types.spec_at(t) matches Type::Var(v) && final(self).types.vars@[v.0 as int].knot
                matches Some(s) && exists|w: TypeId|
                final(self).types.ty_ok(w) && final(self).types.spec_at(w) == Type::Rec(s) && #[trigger] bound_below(
                    final(self).types,
                    w,
                    t,
                ),
            node_binds(*node).len() == 0 && !has_body(*node) ==> r is Ok,
            demands_on_params(*node) ==> r is Ok,
            node_binds(*node).len() == 0 && !has_body(*node) ==> (r matches Ok(t) && (final(self).types.spec_at(t) matches Type::Var(v)
                && final(self).types.spec_lower(v).len() == 1 && final(self).types.spec_upper(v).len() == 0
                && !(final(self).types.spec_at(final(self).types.spec_lower(v)[0]) is Var) && level_of(
                final(self).types,
                final(self).types.spec_lower(v)[0],
                DEPTH as nat,
            ) <= final(self).types.spec_level(v).0)),
            node_binds(*node).len() == 0 && !has_body(*node) ==> forall|k: int|
                0 <= k < old(self).types.vars@.len() ==> #[trigger] final(self).types.vars@[k] == old(self).types.vars@[k],
        decreases 2 * (NESTING - old(self).locs.underway@.len()) + 1, size(*node), 2int,
    {
        let ghost e0 = *self;
        proof {
            e0.lemma_keeps_refl();
        }
        let (name, params) = match node {
            Node::Obj { name, .. } => (name, None),
            Node::Lam { name, params, .. } => (name, Some(params)),
            _ => {
                return Err(Clash::Exhausted);
            },
        };
        let outer = self.solver.level();
        self.solver.descend();
        let host = self.types.var(self.solver.level());
        let ty = self.types.node(Type::Var(host));
        let ghost knot = *self;
        assert(knot.types.spec_at(ty) == Type::Var(host));
        assert(knot.types.spec_level(host) == e0.solver.level.deeper_spec());
        let mut inner = copy_env(env);
        proof {
            lemma_env_grows(env@, &e0.types, &self.types);
        }
        if let Some(name) = name {
            inner.push((name.clone(), ty));
        }
        let parent = find(env, "ξ");
        inner.push((String::from_str("ξ"), ty));
        let ghost base = inner@.len() as int;
        let voids = match params {
            Some(params) => copy_strings(params),
            None => Vec::new(),
        };
        assert(voids@ == node_params(*node));
        let shape = self.types.rec(voids);
        let ghost untied = self.types;
        self.types.tie(host, shape);
        proof {
            assert(e0.types.knots_kept(&untied));
            assert(host.0 >= e0.types.vars@.len());
            assert(e0.types.knots_kept(&self.types));
        }
        self.types.define(shape, outer);
        if let Some(parent) = parent {
            proof {
                lemma_env_find_ok(env@, "ξ"@, &self.types);
            }
            self.types.bind(shape, "ρ", parent);
        }
        assert(self.types.vars@[host.0 as int].knot == Some(shape));
        assert(self.types.recs@[shape.0 as int].voids@ == node_params(*node));
        assert(env_find(env@, "ξ"@) is Some ==> self.types.spec_field(shape, "ρ"@) is Some);
        proof {
            reveal_strlit("ρ");
            assert forall|j: int| 0 <= j < self.types.recs@[shape.0 as int].fields@.len() implies field_at_level(
                &self.types,
                #[trigger] self.types.recs@[shape.0 as int].fields@[j],
                knot.solver.level,
            ) by {
                assert(crate::solver::is_parent(self.types.recs@[shape.0 as int].fields@[j].0@));
            }
        }
        self.defining.push(shape);
        match params {
            Some(params) => {
                let mut k: usize = 0;
                while k < params.len()
                    invariant
                        self.types.wf(),
                        self.solver.wf(&self.types),
                        self.locs.wf(&self.types),
                        crate::resolve::distinct(self.locs.toplevel@),
                        e0.types.grows_to(&self.types),
                        e0.types.knots_kept(&self.types),
                        knot.types.grows_to(&self.types),
                        forall|k: int| 0 <= k < e0.types.recs@.len() ==> #[trigger] self.types.recs@[k] == e0.types.recs@[k],
                        self.types.recs@.len() >= e0.types.recs@.len(),
                        shape.0 >= e0.types.recs@.len(),
                        self.solver.fragile == e0.solver.fragile,
                        self.leniency == e0.leniency,
                        self.locs == e0.locs,
                        self.defining@ == e0.defining@.push(shape),
                        self.types.rec_ok(shape),
                        env_ok(&self.types, inner@),
                        0 <= k <= params@.len(),
                        params@ == node_params(*node),
                        host.0 < self.types.vars@.len(),
                        self.types.vars@[host.0 as int].knot == Some(shape),
                        self.types.recs@[shape.0 as int].voids@ == node_params(*node),
                        env_find(env@, "ξ"@) is Some ==> self.types.spec_field(shape, "ρ"@) is Some,
                        forall|j: int| 0 <= j < k ==> self.types.spec_field(shape, (#[trigger] params@[j])@) is Some,
                        self.solver.level == knot.solver.level,
                        self.types.spec_upper(host).len() == 0,
                        self.types.spec_lower(host).len() == 0,
                        forall|m: int| 0 <= m < e0.types.vars@.len() ==> #[trigger] self.types.vars@[m] == e0.types.vars@[m],
                        self.types.spec_level(host) == knot.solver.level,
                        forall|j: int| 0 <= j < self.types.recs@[shape.0 as int].fields@.len() ==> field_at_level(
                            &self.types,
                            #[trigger] self.types.recs@[shape.0 as int].fields@[j],
                            knot.solver.level,
                        ),
                        inner@.len() == base + k,
                        0 <= base,
                        forall|i: int|
                            base <= i < inner@.len() ==> (#[trigger] inner@[i]).0@ == params@[i - base]@ && open_unknown(
                                &self.types,
                                inner@[i].1,
                                knot.solver.level,
                            ) && self.types.spec_at(inner@[i].1)->Var_0.0 > host.0 && self.types.spec_level(
                                self.types.spec_at(inner@[i].1)->Var_0,
                            ) == knot.solver.level,
                    decreases params@.len() - k,
                {
                    let ghost before = self.types;
                    let slot = self.fresh();
                    let ghost middle = self.types;
                    assert(middle.recs@[shape.0 as int] == before.recs@[shape.0 as int]);
                    proof {
                        assert(middle.vars@[host.0 as int] == before.vars@[host.0 as int]);
                        assert forall|j: int| 0 <= j < middle.recs@[shape.0 as int].fields@.len() implies field_at_level(
                            &middle,
                            #[trigger] middle.recs@[shape.0 as int].fields@[j],
                            knot.solver.level,
                        ) by {
                            let f = middle.recs@[shape.0 as int].fields@[j];
                            assert(field_at_level(&before, before.recs@[shape.0 as int].fields@[j], knot.solver.level));
                            if !crate::solver::is_parent(f.0@) {
                                before.lemma_grows_keeps(&middle, f.1);
                                let u = before.spec_at(f.1)->Var_0;
                                assert(before.type_ok(before.nodes@[f.1.0 as int]));
                                assert(middle.vars@[u.0 as int].level == before.vars@[u.0 as int].level);
                            }
                        }
                    }
                    self.types.bind(shape, params[k].as_str(), slot);
                    proof {
                        assert forall|j: int| 0 <= j < self.types.recs@[shape.0 as int].fields@.len() implies field_at_level(
                            &self.types,
                            #[trigger] self.types.recs@[shape.0 as int].fields@[j],
                            knot.solver.level,
                        ) by {
                            let f = self.types.recs@[shape.0 as int].fields@[j];
                            if !(f.0@ == params@[k as int]@ && f.1 == slot) {
                                let i = choose|i: int| 0 <= i < middle.recs@[shape.0 as int].fields@.len()
                                    && middle.recs@[shape.0 as int].fields@[i] == f;
                                assert(field_at_level(&middle, middle.recs@[shape.0 as int].fields@[i], knot.solver.level));
                            }
                        }
                        assert forall|j: int| 0 <= j < k + 1 implies self.types.spec_field(shape, (#[trigger] params@[j])@) is Some by {
                            if j < k && params@[j]@ != params@[k as int]@ {
                                assert(middle.spec_field(shape, params@[j]@) is Some);
                            }
                        }
                        if env_find(env@, "ξ"@) is Some && params@[k as int]@ != "ρ"@ {
                            assert(middle.spec_field(shape, "ρ"@) is Some);
                        }
                    }
                    let ghost pre_inner = inner@;
                    let label = params[k].clone();
                    inner.push((label, slot));
                    proof {
                        assert(inner@ =~= pre_inner.push((label, slot)));
                        assert forall|i: int| base <= i < inner@.len() implies (#[trigger] inner@[i]).0@ == params@[i - base]@
                            && open_unknown(&self.types, inner@[i].1, knot.solver.level) && self.types.spec_at(
                            inner@[i].1,
                        )->Var_0.0 > host.0 && self.types.spec_level(self.types.spec_at(inner@[i].1)->Var_0)
                            == knot.solver.level by {
                            if i < inner@.len() - 1 {
                                assert(inner@[i] == pre_inner[i]);
                                let t = pre_inner[i].1;
                                let u = before.spec_at(t)->Var_0;
                                before.lemma_grows_keeps(&self.types, t);
                                assert(before.type_ok(before.nodes@[t.0 as int]));
                                assert(self.types.vars@[u.0 as int] == before.vars@[u.0 as int]);
                            } else {
                                let u = middle.spec_at(slot)->Var_0;
                                assert(u.0 >= before.vars@.len());
                                assert(self.types.vars@[u.0 as int] == middle.vars@[u.0 as int]);
                            }
                        }
                    }
                    k = k + 1;
                }
            },
            None => {},
        }
        let ghost e1 = *self;
        proof {
            assert(e0.types.grows_to(&e1.types));
            assert(knot.types.grows_to(&e1.types));
            assert(prefix(e0.locs.resolved@, e1.locs.resolved@));
            assert(forall|j: int|
                0 <= j < node_params(*node).len() ==> e1.types.spec_field(shape, (#[trigger] node_params(*node)[j])@) is Some);
        }
        proof {
            let nd: Node = *node;
            if demands_on_params(nd) {
                if let Node::Lam { params: ps, body: Some(bx), .. } = nd {
                    assert(ps@ == node_params(*node));
                    let b: Node = *bx;
                    if let Node::Dispatch { obj, .. } = b {
                        if let Node::Name(p) = *obj {
                            let i = choose|i: int| 0 <= i < ps@.len() && #[trigger] ps@[i]@ == p@;
                            assert(inner@[base + i].0@ == p@);
                            lemma_env_find_past(inner@, p@, base);
                            let j = choose|j: int| base <= j < inner@.len() && #[trigger] inner@[j].0@ == p@ && env_find(
                                inner@,
                                p@,
                            ) == Some(inner@[j].1);
                            assert(open_unknown(&self.types, inner@[j].1, self.solver.level));
                        }
                    }
                    if let Node::Apply { fun, arg } = b {
                        if let Node::Name(p) = *fun {
                            let i = choose|i: int| 0 <= i < ps@.len() && #[trigger] ps@[i]@ == p@;
                            assert(inner@[base + i].0@ == p@);
                            lemma_env_find_past(inner@, p@, base);
                            let j = choose|j: int| base <= j < inner@.len() && #[trigger] inner@[j].0@ == p@ && env_find(
                                inner@,
                                p@,
                            ) == Some(inner@[j].1);
                            assert(open_unknown(&self.types, inner@[j].1, self.solver.level));
                        }
                        if let Node::Name(q) = *arg {
                            let i = choose|i: int| 0 <= i < ps@.len() && #[trigger] ps@[i]@ == q@;
                            assert(inner@[base + i].0@ == q@);
                            lemma_env_find_past(inner@, q@, base);
                            let j = choose|j: int| base <= j < inner@.len() && #[trigger] inner@[j].0@ == q@ && env_find(
                                inner@,
                                q@,
                            ) == Some(inner@[j].1);
                            let u = self.types.spec_at(inner@[j].1)->Var_0;
                            assert(self.types.type_ok(self.types.nodes@[inner@[j].1.0 as int]));
                            assert(level_of(self.types, inner@[j].1, (DEPTH - 1) as nat) == self.types.spec_level(u).0);
                        }
                    }
                    assert(recorded(&self.types, inner@, self.solver.level, b));
                }
            }
        }
        let outcome = self.attributes(shape, node, &inner);
        let ghost e2 = *self;
        proof {
            assert(e1.keeps(&e2));
        }
        self.defining.pop();
        self.solver.jump(outer);
        proof {
            assert(self.defining@ =~= e0.defining@);
            assert(self.solver.level == e0.solver.level);
            assert(self.types == e2.types);
            assert(e0.types.grows_to(&self.types));
            assert(e0.keeps(self));
        }
        outcome?;
        let ghost e3 = self.types;
        assert(shaped(&e3, shape, *node, env@)) by {
            assert forall|j: int| 0 <= j < node_params(*node).len() implies e3.spec_field(shape, (#[trigger] node_params(*node)[j])@) is Some by {
                assert(e1.types.spec_field(shape, node_params(*node)[j]@) is Some);
            }
            if env_find(env@, "ξ"@) is Some {
                assert(e1.types.spec_field(shape, "ρ"@) is Some);
            }
        }
        let whole = self.types.node(Type::Rec(shape));
        let ghost e4 = self.types;
        proof {
            let nd: Node = *node;
            if (node_binds(nd).len() == 0 && !has_body(nd)) || demands_on_params(nd) {
                assert(e4.recs@[shape.0 as int] == e2.types.recs@[shape.0 as int]);
                if demands_on_params(nd) {
                    if let Node::Lam { params: ps, body: Some(bx), .. } = nd {
                        let b: Node = *bx;
                        let p = match b {
                            Node::Dispatch { obj, .. } => (*obj)->Name_0,
                            Node::Apply { fun, .. } => (*fun)->Name_0,
                            _ => arbitrary(),
                        };
                        let i = choose|i: int| 0 <= i < ps@.len() && #[trigger] ps@[i]@ == p@;
                        assert(inner@[base + i].0@ == p@);
                        lemma_env_find_past(inner@, p@, base);
                        let j = choose|j: int| base <= j < inner@.len() && #[trigger] inner@[j].0@ == p@ && env_find(
                            inner@,
                            p@,
                        ) == Some(inner@[j].1);
                        assert(e1.types.spec_at(inner@[j].1)->Var_0.0 > host.0);
                        assert(demanded(&e1.types, inner@, b) != host.0);
                    }
                }
                lemma_formation_lands(e1.types, e4, shape, host, whole, ty, knot.solver.level);
            }
        }
        self.solver.constrain(&mut self.types, whole, ty)?;
        proof {
            assert(e4.ty_ok(ty)) by {
                knot.types.lemma_grows_keeps(&e4, ty);
            }
            lemma_settled_bound(e4, self.types, whole, ty);
            if node_binds(*node).len() == 0 && !has_body(*node) {
                assert(e4.type_ok(e4.nodes@[whole.0 as int]));
                crate::solver::lemma_level_kept(e4, self.types, whole, DEPTH as nat);
                assert(self.types.spec_lower(host) == seq![whole]);
            }
            e4.lemma_grows_keeps(&self.types, whole);
            assert(knot.types.grows_to(&self.types));
            knot.types.lemma_grows_keeps(&self.types, ty);
            assert(self.types.vars@[host.0 as int].level == knot.types.vars@[host.0 as int].level);
            assert(self.types.recs@[shape.0 as int] == e3.recs@[shape.0 as int]);
            assert(self.types.vars@[host.0 as int].knot == e3.vars@[host.0 as int].knot);
        }
        Ok(ty)
    }
}

impl Engine {
    /// Every attribute of a formation, definitions first so that a forward
    /// reference to a sibling written later still finds its record, and the
    /// decoratee last so it sees them all.
    fn attributes(&mut self, shape: RecId, node: &Node, env: &Env) -> (r: Result<(), Clash>)
        requires
            old(self).inv(),
            env_ok(&old(self).types, env@),
            old(self).types.rec_ok(shape),
            *node is Obj || *node is Lam,
        ensures
            final(self).inv(),
            old(self).keeps(final(self)),
            old(self).types.knots_kept(&final(self).types),
            final(self).types.recs@.len() >= old(self).types.recs@.len(),
            forall|k: int|
                0 <= k < old(self).types.recs@.len() && k != shape.0 ==> #[trigger] final(self).types.recs@[k]
                    == old(self).types.recs@[k],
            final(self).types.recs@[shape.0 as int].voids == old(self).types.recs@[shape.0 as int].voids,
            forall|l: Seq<char>|
                old(self).types.spec_field(shape, l) is Some ==> #[trigger] final(self).types.spec_field(shape, l) is Some,
            r is Ok ==> forall|k: int|
                0 <= k < node_binds(*node).len() ==> final(self).types.spec_field(
                    shape,
                    (#[trigger] node_binds(*node)[k]).0@,
                ) is Some,
            r is Ok && has_body(*node) ==> final(self).types.spec_field(shape, "@"@) is Some,
            old(self).leniency.lenient ==> !(r matches Err(Clash::Unbound { .. })),
            node_binds(*node).len() == 0 && !has_body(*node) ==> r is Ok && *final(self) == *old(self),
            node_binds(*node).len() == 0 && (*node matches Node::Lam { body: Some(b), .. } && recorded(
                &old(self).types,
                env@,
                old(self).solver.level,
                *b,
            )) ==> r is Ok && final(self).solver.level == old(self).solver.level && (*node matches Node::Lam {
                body: Some(b),
                ..
            } && forall|k: int|
                0 <= k < old(self).types.vars@.len() && k != demanded(&old(self).types, env@, *b) ==> #[trigger] final(
                self).types.vars@[k] == old(self).types.vars@[k]) && forall|j: int|
                0 <= j < final(self).types.recs@[shape.0 as int].fields@.len() ==> ((#[trigger] final(self).types.recs@[shape.0 as int].fields@[j]).0@
                    == "@"@ && (final(self).types.spec_at(final(self).types.recs@[shape.0 as int].fields@[j].1) matches Type::Var(
                    u,
                ) && final(self).types.spec_level(u) == old(self).solver.level)) || old(self).types.recs@[shape.0 as int].fields@.contains(
                    final(self).types.recs@[shape.0 as int].fields@[j],
                ),
        decreases 2 * (NESTING - old(self).locs.underway@.len()) + 1, size(*node), 1int,
    {
        let ghost e0 = *self;
        proof {
            e0.lemma_keeps_refl();
        }
        let (binds, body) = match node {
            Node::Obj { binds, .. } => (binds, None),
            Node::Lam { binds, body, .. } => (binds, match body {
                Some(b) => Some(&**b),
                None => None,
            }),
            _ => {
                return Ok(());
            },
        };
        assert(sizes(binds@) < size(*node));
        assert(binds@ == node_binds(*node));
        assert(body is Some <==> has_body(*node));
        let mut pass: usize = 0;
        while pass < 2
            invariant
                self.inv(),
                e0.keeps(self),
                e0.types.knots_kept(&self.types),
                self.types.recs@.len() >= e0.types.recs@.len(),
                forall|m: int|
                    0 <= m < e0.types.recs@.len() && m != shape.0 ==> #[trigger] self.types.recs@[m] == e0.types.recs@[m],
                env_ok(&self.types, env@),
                self.types.rec_ok(shape),
                sizes(binds@) < size(*node),
                self.locs.underway@ == e0.locs.underway@,
                e0 == *old(self),
                0 <= pass <= 2,
                self.types.recs@[shape.0 as int].voids == e0.types.recs@[shape.0 as int].voids,
                forall|l: Seq<char>| e0.types.spec_field(shape, l) is Some ==> #[trigger] self.types.spec_field(shape, l) is Some,
                forall|j: int|
                    0 <= j < binds@.len() && ((pass >= 1 && is_definition(binds@[j].1)) || pass >= 2) ==> self.types.spec_field(
                        shape,
                        (#[trigger] binds@[j]).0@,
                    ) is Some,
                binds@.len() == 0 ==> *self == e0,
                binds@ == node_binds(*node),
            decreases 2 - pass,
        {
            let mut k: usize = 0;
            while k < binds.len()
                invariant
                    self.inv(),
                    e0.keeps(self),
                e0.types.knots_kept(&self.types),
                    self.types.recs@.len() >= e0.types.recs@.len(),
                    forall|m: int|
                        0 <= m < e0.types.recs@.len() && m != shape.0 ==> #[trigger] self.types.recs@[m] == e0.types.recs@[m],
                    env_ok(&self.types, env@),
                    self.types.rec_ok(shape),
                    sizes(binds@) < size(*node),
                    self.locs.underway@ == e0.locs.underway@,
                    e0 == *old(self),
                    0 <= k <= binds@.len(),
                    pass < 2,
                    self.types.recs@[shape.0 as int].voids == e0.types.recs@[shape.0 as int].voids,
                    forall|l: Seq<char>| e0.types.spec_field(shape, l) is Some ==> #[trigger] self.types.spec_field(shape, l) is Some,
                    forall|j: int|
                        0 <= j < binds@.len() && ((pass >= 1 && is_definition(binds@[j].1)) || (j < k && is_definition(binds@[j].1)
                            == (pass == 0))) ==> self.types.spec_field(shape, (#[trigger] binds@[j]).0@) is Some,
                    binds@.len() == 0 ==> *self == e0,
                    binds@ == node_binds(*node),
                decreases binds@.len() - k,
            {
                let definition = match &binds[k].1 {
                    Node::Obj { .. } => true,
                    Node::Lam { .. } => true,
                    _ => false,
                };
                assert(definition == is_definition(binds@[k as int].1));
                if definition == (pass == 0) {
                    proof {
                        lemma_sizes(binds@, k as int);
                    }
                    let ghost e1 = *self;
                    let outcome = self.infer(&binds[k].1, env);
                    proof {
                        assert forall|l: Seq<char>| e0.types.spec_field(shape, l) is Some implies #[trigger] self.types.spec_field(
                            shape,
                            l,
                        ) is Some by {
                            assert(e1.types.spec_field(shape, l) is Some);
                        }
                    }
                    let ty = outcome?;
                    let ghost e2 = self.types;
                    assert(e2.recs@[shape.0 as int] == e1.types.recs@[shape.0 as int]);
                    self.types.bind(shape, binds[k].0.as_str(), ty);
                    proof {
                        lemma_env_grows(env@, &e1.types, &self.types);
                        assert forall|l: Seq<char>| e1.types.spec_field(shape, l) is Some implies #[trigger] self.types.spec_field(
                            shape,
                            l,
                        ) is Some by {
                            assert(e2.spec_field(shape, l) == e1.types.spec_field(shape, l));
                        }
                    }
                }
                k = k + 1;
            }
            pass = pass + 1;
        }
        if let Some(body) = body {
            let ghost e1 = *self;
            let outcome = self.infer(body, env);
            proof {
                assert forall|l: Seq<char>| e0.types.spec_field(shape, l) is Some implies #[trigger] self.types.spec_field(
                    shape,
                    l,
                ) is Some by {
                    assert(e1.types.spec_field(shape, l) is Some);
                }
            }
            let ty = outcome?;
            let ghost e2 = self.types;
            assert(e2.recs@[shape.0 as int] == e1.types.recs@[shape.0 as int]);
            self.types.bind(shape, "@", ty);
            proof {
                reveal_strlit("@");
            }
            proof {
                assert forall|l: Seq<char>| e1.types.spec_field(shape, l) is Some implies #[trigger] self.types.spec_field(
                    shape,
                    l,
                ) is Some by {
                    assert(e2.spec_field(shape, l) == e1.types.spec_field(shape, l));
                }
            }
        }
        Ok(())
    }

    /// A one-attribute requirement, remembering where it was written so a
    /// failure can be pointed at.
    fn requirement(&mut self, label: &str, result: TypeId, site: &Site) -> (t: TypeId)
        requires
            old(self).inv(),
            old(self).types.ty_ok(result),
        ensures
            final(self).inv(),
            old(self).keeps(final(self)),
            old(self).types.knots_kept(&final(self).types),
            old(self).types.recs_kept(&final(self).types),
            final(self).leniency == old(self).leniency,
            final(self).locs == old(self).locs,
            final(self).types.ty_ok(t),
            final(self).types.spec_at(t) matches Type::Rec(r) && final(self).types.spec_field(r, label@) == Some(result)
                && final(self).types.recs@[r.0 as int].site == Some(*site),
            final(self).types.spec_at(t) matches Type::Rec(r) && final(self).types.recs@[r.0 as int].fields@.len() == 1
                && final(self).types.recs@[r.0 as int].fields@[0].0@ == label@
                && final(self).types.recs@[r.0 as int].fields@[0].1 == result,
            final(self).types.vars@ == old(self).types.vars@,
            final(self).solver == old(self).solver,
    {
        let ghost e0 = *self;
        let want = self.types.rec(Vec::new());
        self.types.bind(want, label, result);
        self.types.mark(want, site.duplicate());
        let t = self.types.node(Type::Rec(want));
        t
    }

    /// A plain dispatch of an attribute on a receiver of a known type: reached
    /// directly when the receiver's record is known and the attribute is a
    /// formation to instantiate, and otherwise required of the receiver. A
    /// maybe-`⊥` receiver is refused: only `?.` or `recovered` may look inside.
    fn dispatch(&mut self, receiver: TypeId, label: &str, site: &Site) -> (r: Result<TypeId, Clash>)
        requires
            old(self).inv(),
            old(self).types.ty_ok(receiver),
        ensures
            final(self).inv(),
            old(self).keeps(final(self)),
            old(self).types.knots_kept(&final(self).types),
            old(self).types.recs_kept(&final(self).types),
            r matches Ok(t) ==> final(self).types.ty_ok(t),
            !unbound(r),
            old(self).types.spec_at(receiver) is Opt ==> (r matches Err(Clash::NotRecovered { value }) && value
                == receiver),
            old(self).types.spec_at(receiver) matches Type::Rec(s) && old(self).types.spec_field(s, label@) is None
                && old(self).types.spec_field(s, "@"@) is None ==> r is Err,
            open_unknown(&old(self).types, receiver, old(self).solver.level) ==> r is Ok,
            open_unknown(&old(self).types, receiver, old(self).solver.level) ==> (r matches Ok(t) && (final(self).types.spec_at(t) matches Type::Var(u) && final(self).types.spec_level(u) == old(self).solver.level)),
            open_unknown(&old(self).types, receiver, old(self).solver.level) ==> final(self).solver.level == old(self).solver.level && (old(self).types.spec_at(receiver) matches Type::Var(v) && forall|k: int|
                0 <= k < old(self).types.vars@.len() && k != v.0 ==> #[trigger] final(self).types.vars@[k]
                    == old(self).types.vars@[k]),
    {
        let ghost e0 = *self;
        if let Some(shortcut) = self.through(receiver, label) {
            return Ok(shortcut);
        }
        let ghost e1 = *self;
        let result = self.fresh();
        let want = self.requirement(label, result, site);
        proof {
            e0.types.lemma_grows_keeps(&self.types, receiver);
            assert(e0.types.type_ok(e0.types.nodes@[receiver.0 as int]));
            if let Type::Rec(s) = e0.types.spec_at(receiver) {
                assert(self.types.recs@[s.0 as int] == e0.types.recs@[s.0 as int]);
                if let Type::Rec(w) = self.types.spec_at(want) {
                    assert(self.types.spec_field(w, label@) is Some);
                }
            }
        }
        let ghost e2 = self.types;
        proof {
            if open_unknown(&e0.types, receiver, e0.solver.level) {
                let v = e0.types.spec_at(receiver)->Var_0;
                assert(e2.spec_at(receiver) == Type::Var(v));
                assert(e2.vars@[v.0 as int] == e0.types.vars@[v.0 as int]);
                if let Type::Rec(w) = e2.spec_at(want) {
                    let res = e2.recs@[w.0 as int].fields@[0].1;
                    assert(e2.spec_at(res) matches Type::Var(u) && e2.spec_level(u) == e0.solver.level);
                    assert(e2.record_ok(e2.recs@[w.0 as int]));
                    assert(e2.recs@[w.0 as int].fields@.drop_last().len() == 0);
                    assert(crate::solver::fields_level(e2, e2.recs@[w.0 as int].fields@.drop_last(), (DEPTH - 1) as nat) == 0);
                    assert(e2.recs@[w.0 as int].fields@.last() == e2.recs@[w.0 as int].fields@[0]);
                    assert(level_of(e2, res, (DEPTH - 1) as nat) == e0.solver.level.0);
                    assert(crate::solver::fields_level(e2, e2.recs@[w.0 as int].fields@, (DEPTH - 1) as nat)
                        <= e0.solver.level.0);
                    assert(level_of(e2, want, DEPTH as nat) <= e0.solver.level.0);
                }
                assert(crate::solver::lands_above(e2, receiver, want));
            }
        }
        let done = self.solver.constrain(&mut self.types, receiver, want);
        proof {
            if let Type::Rec(s) = e0.types.spec_at(receiver) {
                if let Type::Rec(w) = e2.spec_at(want) {
                    if e0.types.spec_field(s, label@) is None && e0.types.spec_field(s, "@"@) is None {
                        assert(e2.spec_field(w, label@) is Some && e2.spec_field(s, label@) is None);
                        assert(crate::solver::lacks(e2, s, w));
                    }
                }
            }
        }
        match done {
            Ok(()) => Ok(result),
            Err(e) => Err(e),
        }
    }

    /// Reaching an attribute directly, when the receiver's record is already
    /// known. The parent link is navigation and hands back what it holds; a
    /// formation still expecting voids is instantiated, so each use of it gets
    /// its own parameters.
    fn through(&mut self, receiver: TypeId, label: &str) -> (found: Option<TypeId>)
        requires
            old(self).inv(),
            old(self).types.ty_ok(receiver),
        ensures
            final(self).inv(),
            old(self).keeps(final(self)),
            old(self).types.knots_kept(&final(self).types),
            old(self).types.recs_kept(&final(self).types),
            final(self).leniency == old(self).leniency,
            final(self).locs == old(self).locs,
            found matches Some(t) ==> final(self).types.ty_ok(t),
            found is Some ==> (spec_host(&old(self).types, receiver) matches Some(s) && old(self).types.spec_field(s, label@) is Some),
            label@ == "ρ"@ ==> (spec_host(&old(self).types, receiver) matches Some(s) ==> found == old(self).types.spec_field(s, label@)),
            spec_host(&old(self).types, receiver) is None ==> found is None && *final(self) == *old(self),
    {
        let ghost e0 = *self;
        proof {
            e0.lemma_keeps_refl();
        }
        let shape = self.host(receiver)?;
        let field = self.types.field(shape, label)?;
        if same_text(label, "ρ") {
            return Some(field);
        }
        let inner = self.host(field)?;
        if self.types.voids(inner).len() == 0 || contains_rec(&self.defining, inner) {
            return None;
        }
        let limit = match self.types.defined_at(inner) {
            Some(level) => level,
            None => Level(0),
        };
        let whole = self.types.node(Type::Rec(inner));
        let instance = self.solver.freshen(&mut self.types, limit, whole);
        Some(if self.solver.fragile() {
            self.types.opt(instance)
        } else {
            instance
        })
    }

    /// See past unknowns that carry exactly one thing, to what they carry — so
    /// optional chaining can find a maybe-`⊥` value even behind the unknowns the
    /// solver generated.
    fn peek(&self, ty: TypeId) -> (seen: TypeId)
        requires
            self.inv(),
            self.types.ty_ok(ty),
        ensures
            self.types.ty_ok(seen),
            !(self.types.spec_at(ty) is Var) ==> seen == ty,
            exists|k: nat|
                #![trigger forward(&self.types, ty, k)]
                seen == forward(&self.types, ty, k) && (!forwards(&self.types, seen) || (exists|j: nat|
                    j < k && #[trigger] self.types.spec_at(forward(&self.types, ty, j)) == self.types.spec_at(seen))
                    || k >= self.types.vars@.len()),
    {
        let mut cur = ty;
        let mut visited: Vec<VarId> = Vec::new();
        let ghost mut steps: nat = 0;
        loop
            invariant
                self.inv(),
                self.types.ty_ok(cur),
                visited@.len() <= self.types.vars@.len(),
                !(self.types.spec_at(ty) is Var) ==> cur == ty,
                visited@.len() == steps,
                cur == forward(&self.types, ty, steps),
                forall|j: int|
                    0 <= j < steps ==> self.types.spec_at(forward(&self.types, ty, j as nat)) == Type::Var(visited@[j]),
            decreases self.types.vars@.len() - visited@.len(),
        {
            proof {
                assert(self.types.type_ok(self.types.nodes@[cur.0 as int]));
            }
            match self.types.at(cur) {
                Type::Var(unknown) => {
                    let mut k: usize = 0;
                    while k < visited.len()
                        invariant
                            self.inv(),
                            self.types.ty_ok(cur),
                            self.types.spec_at(cur) == Type::Var(unknown),
                            !(self.types.spec_at(ty) is Var) ==> cur == ty,
                            visited@.len() == steps,
                            cur == forward(&self.types, ty, steps),
                            forall|j: int|
                                0 <= j < steps ==> self.types.spec_at(forward(&self.types, ty, j as nat)) == Type::Var(
                                    visited@[j],
                                ),
                            0 <= k <= visited@.len(),
                            forall|a: int| 0 <= a < k ==> visited@[a] != unknown,
                        decreases visited@.len() - k,
                    {
                        if visited[k] == unknown {
                            proof {
                                let j = k as nat;
                                assert(self.types.spec_at(forward(&self.types, ty, j)) == self.types.spec_at(cur));
                            }
                            return cur;
                        }
                        k = k + 1;
                    }
                    if visited.len() >= self.types.vars.len() {
                        return cur;
                    }
                    visited.push(unknown);
                    let lower = self.types.lower(unknown);
                    if lower.len() == 1 {
                        proof {
                            assert(self.types.unknown_ok(self.types.vars@[unknown.0 as int]));
                            assert(self.types.ty_ok(self.types.spec_lower(unknown)[0]));
                        }
                        cur = lower[0];
                        proof {
                            steps = steps + 1;
                            assert(cur == forward(&self.types, ty, steps));
                        }
                    } else {
                        proof {
                            assert(!forwards(&self.types, cur));
                        }
                        return cur;
                    }
                },
                _ => {
                    return cur;
                },
            }
        }
    }
}

/// Whether a type is an unknown that carries exactly one thing flowing in.
pub open spec fn forwards(types: &Types, t: TypeId) -> bool {
    types.spec_at(t) matches Type::Var(u) && types.spec_lower(u).len() == 1
}

/// Where a number of steps lead from a type, each step going from an unknown
/// that carries exactly one thing to that thing; a type that carries nothing
/// single stays where it is.
pub open spec fn forward(types: &Types, t: TypeId, k: nat) -> TypeId
    decreases k,
{
    if k == 0 {
        t
    } else {
        let here = forward(types, t, (k - 1) as nat);
        match types.spec_at(here) {
            Type::Var(u) => if types.spec_lower(u).len() == 1 {
                types.spec_lower(u)[0]
            } else {
                here
            },
            _ => here,
        }
    }
}

/// Whether a record is among some records.
fn contains_rec(recs: &Vec<RecId>, r: RecId) -> (found: bool)
    ensures
        found == recs@.contains(r),
{
    let mut k: usize = 0;
    while k < recs.len()
        invariant
            0 <= k <= recs@.len(),
            forall|a: int| 0 <= a < k ==> recs@[a] != r,
        decreases recs@.len() - k,
    {
        if recs[k] == r {
            return true;
        }
        k = k + 1;
    }
    false
}


impl Engine {
    /// The shape a native atom declares for itself: each void becomes an
    /// attribute, the return becomes the decoratee, and one map of generics is
    /// shared across the whole atom, so the same letter names the same variable
    /// wherever it appears.
    fn declared(&mut self, voids: &Vec<Void>, ret: Option<&str>) -> (t: TypeId)
        requires
            old(self).inv(),
            old(self).solver.level.0 == 0,
        ensures
            final(self).inv(),
            old(self).keeps(final(self)),
            old(self).types.knots_kept(&final(self).types),
            old(self).types.recs_kept(&final(self).types),
            final(self).types.ty_ok(t),
            atom_shape(&final(self).types, t, voids@),
            final(self).types.spec_at(t) matches Type::Rec(s) && exists|letters: Seq<(String, TypeId)>|
                #[trigger] letters_shared(&final(self).types, letters, s, voids@, text_of(ret)),
        decreases 2 * (NESTING - old(self).locs.underway@.len()), 1nat, 0int,
    {
        let ghost e0 = *self;
        proof {
            e0.lemma_keeps_refl();
        }
        let mut generics: Vec<(String, TypeId)> = Vec::new();
        let mut labels: Vec<String> = Vec::new();
        let mut k: usize = 0;
        while k < voids.len()
            invariant
                0 <= k <= voids@.len(),
                labels@.len() == k,
                forall|j: int| 0 <= j < k ==> (#[trigger] labels@[j])@ == voids@[j].label@,
            decreases voids@.len() - k,
        {
            labels.push(voids[k].label.clone());
            k = k + 1;
        }
        let ghost names = labels@;
        let shape = self.types.rec(labels);
        let mut k: usize = 0;
        while k < voids.len()
            invariant
                self.inv(),
                e0.keeps(self),
                e0.types.knots_kept(&self.types),
                e0 == *old(self),
                self.solver.level.0 == 0,
                self.types.rec_ok(shape),
                shape.0 >= e0.types.recs@.len(),
                e0.types.recs_kept(&self.types),
                env_ok(&self.types, generics@),
                0 <= k <= voids@.len(),
                self.types.recs@[shape.0 as int].voids@ == names,
                names.len() == voids@.len(),
                forall|j: int| 0 <= j < voids@.len() ==> (#[trigger] names[j])@ == voids@[j].label@,
                forall|j: int| 0 <= j < k ==> self.types.spec_field(shape, (#[trigger] voids@[j]).label@) is Some,
                forall|j: int|
                    0 <= j < k && alone(voids@, j) && voids@[j].label@ != "@"@ ==> ((#[trigger] voids@[j]).kind matches Kind::Own(
                        x,
                    ) ==> self.types.spec_field(shape, voids@[j].label@) matches Some(t) && self.types.ty_ok(t) && letter_in(
                        &self.types,
                        generics@,
                        x@,
                        t,
                    )),
            decreases voids@.len() - k,
        {
            let ghost rs = self.types.recs@[shape.0 as int];
            let ghost start = self.types;
            let ghost gstart = generics@;
            let ty = match &voids[k].kind {
                Kind::Args(spec) => {
                    let mut callback = self.fresh();
                    let args = words(spec.as_str());
                    let mut a = args.len();
                    while a > 0
                        invariant
                            self.inv(),
                            e0.keeps(self),
                e0.types.knots_kept(&self.types),
                            e0 == *old(self),
                            self.solver.level.0 == 0,
                            self.types.rec_ok(shape),
                            shape.0 >= e0.types.recs@.len(),
                            e0.types.recs_kept(&self.types),
                            self.types.recs@[shape.0 as int] == rs,
                            env_ok(&self.types, generics@),
                            self.types.ty_ok(callback),
                            0 <= a <= args@.len(),
                            start.grows_to(&self.types),
                            forall|n: Seq<char>| env_find(gstart, n) is Some ==> #[trigger] env_find(generics@, n) == env_find(
                                gstart,
                                n,
                            ),
                        decreases a,
                    {
                        let taken = self.spec(Some(args[a - 1].as_str()), &mut generics);
                        callback = self.types.fun(taken, callback);
                        a = a - 1;
                    }
                    callback
                },
                Kind::Own(spec) => self.spec(Some(spec.as_str()), &mut generics),
                Kind::Plain => self.spec(None, &mut generics),
            };
            let ghost mid = self.types;
            assert(mid.recs@[shape.0 as int] == rs);
            proof {
                if let Kind::Own(x) = voids@[k as int].kind {
                    assert(letter_in(&mid, generics@, x@, ty));
                }
            }
            self.types.bind(shape, voids[k].label.as_str(), ty);
            proof {
                assert forall|j: int| 0 <= j < k + 1 implies self.types.spec_field(shape, (#[trigger] voids@[j]).label@) is Some by {
                    if j < k && voids@[j].label@ != voids@[k as int].label@ {
                        assert(mid.spec_field(shape, voids@[j].label@) is Some);
                    }
                }
                assert forall|j: int|
                    0 <= j < k + 1 && alone(voids@, j) && voids@[j].label@ != "@"@ implies ((#[trigger] voids@[j]).kind matches Kind::Own(
                        x,
                    ) ==> self.types.spec_field(shape, voids@[j].label@) matches Some(t) && self.types.ty_ok(t) && letter_in(
                        &self.types,
                        generics@,
                        x@,
                        t,
                    )) by {
                    if let Kind::Own(x) = voids@[j].kind {
                        if j < k {
                            assert(voids@[k as int].label@ != voids@[j].label@);
                            let t = start.spec_field(shape, voids@[j].label@)->0;
                            assert(mid.spec_field(shape, voids@[j].label@) == start.spec_field(shape, voids@[j].label@));
                            lemma_letter_kept(&start, &self.types, gstart, generics@, x@, t);
                            start.lemma_grows_keeps(&self.types, t);
                        } else {
                            lemma_letter_kept(&mid, &self.types, generics@, generics@, x@, ty);
                        }
                    }
                }
            }
            k = k + 1;
        }
        let ghost rs = self.types.recs@[shape.0 as int];
        let ghost start = self.types;
        let ghost gstart = generics@;
        let returned = self.spec(ret, &mut generics);
        let ghost mid = self.types;
        assert(mid.recs@[shape.0 as int] == rs);
        self.types.bind(shape, "@", returned);
        proof {
            assert forall|j: int| 0 <= j < voids@.len() implies self.types.spec_field(shape, (#[trigger] voids@[j]).label@) is Some by {
                if voids@[j].label@ != "@"@ {
                    assert(mid.spec_field(shape, voids@[j].label@) is Some);
                }
            }
        }
        let ghost bound = self.types;
        let whole = self.types.node(Type::Rec(shape));
        proof {
            reveal_strlit("@");
            assert forall|j: int|
                0 <= j < voids@.len() && alone(voids@, j) && voids@[j].label@ != "@"@ implies ((#[trigger] voids@[j]).kind matches Kind::Own(
                    x,
                ) ==> self.types.spec_field(shape, voids@[j].label@) matches Some(t) && letter_in(
                    &self.types,
                    generics@,
                    x@,
                    t,
                )) by {
                if let Kind::Own(x) = voids@[j].kind {
                    let t = start.spec_field(shape, voids@[j].label@)->0;
                    assert(mid.spec_field(shape, voids@[j].label@) == start.spec_field(shape, voids@[j].label@));
                    lemma_letter_kept(&start, &self.types, gstart, generics@, x@, t);
                }
            }
            if let Some(x) = ret {
                lemma_letter_kept(&mid, &self.types, generics@, generics@, x@, returned);
            }
            assert(letters_shared(&self.types, generics@, shape, voids@, text_of(ret)));
        }
        whole
    }

    /// One annotation as a type. A letter shares the atom's map of generics, a
    /// trailing `?` makes it maybe-`⊥`, a known forma is its built-in, and any
    /// other forma is resolved through the locator index or left opaque.
    fn spec(&mut self, text: Option<&str>, generics: &mut Vec<(String, TypeId)>) -> (t: TypeId)
        requires
            old(self).inv(),
            old(self).solver.level.0 == 0,
            env_ok(&old(self).types, old(generics)@),
        ensures
            final(self).inv(),
            old(self).keeps(final(self)),
            old(self).types.knots_kept(&final(self).types),
            old(self).types.recs_kept(&final(self).types),
            final(self).types.ty_ok(t),
            env_ok(&final(self).types, final(generics)@),
            text matches Some(x) && x@.len() > 0 && x@.last() == '?' ==> final(self).types.spec_at(t) is Opt,
            text is Some ==> (is_generic(spec_core(text->0@)) ==> (env_find(final(generics)@, spec_core(text->0@)) matches Some(g)
                && (if text->0@.len() > 0 && text->0@.last() == '?' {
                final(self).types.spec_at(t) == Type::Opt(g)
            } else {
                t == g
            }))),
            text is Some ==> (is_generic(spec_core(text->0@)) && env_find(old(generics)@, spec_core(text->0@)) is Some
                ==> final(generics)@ == old(generics)@),
            text is None || !is_generic(spec_core(text->0@)) ==> final(generics)@ == old(generics)@,
            forall|n: Seq<char>| env_find(old(generics)@, n) is Some ==> #[trigger] env_find(final(generics)@, n)
                == env_find(old(generics)@, n),
            text is Some && !is_generic(spec_core(text->0@)) && is_primitive(spec_tail(spec_core(text->0@))) ==> primitive_typed(
                &final(self).types,
                text->0@,
                t,
            ),
            text is Some && !is_generic(spec_core(text->0@)) && !is_primitive(spec_tail(spec_core(text->0@))) ==> forma_typed(
                old(self).locs,
                &final(self).types,
                text->0@,
                t,
                old(self).solver.level,
            ),
        decreases 2 * (NESTING - old(self).locs.underway@.len()), 0nat, 5int,
    {
        let ghost e0 = *self;
        proof {
            e0.lemma_keeps_refl();
        }
        let text = match text {
            Some(text) => text,
            None => {
                return self.fresh();
            },
        };
        let n = text.unicode_len();
        let optional = n > 0 && text.get_char(n - 1) == '?';
        let core = if optional {
            text.substring_char(0, n - 1)
        } else {
            text
        };
        proof {
            if optional {
                assert(text@.subrange(0, n - 1) =~= text@.drop_last());
            }
            assert(core@ == spec_core(text@));
        }
        let ty = if generic(core) {
            match find(generics, core) {
                Some(found) => {
                    proof {
                        lemma_env_find_ok(generics@, core@, &self.types);
                    }
                    found
                },
                None => {
                    let made = self.fresh();
                    let ghost before = generics@;
                    generics.push((String::from_str(core), made));
                    proof {
                        assert(generics@.drop_last() =~= before);
                    }
                    made
                },
            }
        } else {
            let last = tail(core);
            match Ground::named(last.as_str()) {
                Some(ground) => {
                    let built = self.build(ground);
                    proof {
                        reveal_strlit("bytes");
                        reveal_strlit("number");
                        reveal_strlit("string");
                        reveal_strlit("bool");
                        assert(is_primitive_type(&self.types, spec_tail(spec_core(text@)), built));
                    }
                    built
                },
                None => match self.resolve(core) {
                    Some(resolved) => resolved,
                    None => self.fresh(),
                },
            }
        };
        if optional {
            let ghost before = self.types;
            let t = self.types.opt(ty);
            proof {
                if !is_generic(spec_core(text@)) && is_primitive(spec_tail(spec_core(text@))) {
                    lemma_builtins_kept(&before, &self.types, ty);
                }
            }
            t
        } else {
            ty
        }
    }

    /// A built-in, built at the outermost level. A starting fact is fully
    /// general, so it never needs lowering — and building it any deeper sets off
    /// extrusion storms.
    fn ground(&mut self, ground: Ground) -> (t: TypeId)
        requires
            old(self).inv(),
        ensures
            final(self).inv(),
            old(self).keeps(final(self)),
            old(self).types.knots_kept(&final(self).types),
            old(self).types.recs_kept(&final(self).types),
            final(self).leniency == old(self).leniency,
            final(self).locs == old(self).locs,
            final(self).types.ty_ok(t),
    {
        let save = self.solver.jump(Level(0));
        let built = self.build(ground);
        self.solver.jump(save);
        built
    }

    /// The built-in a name stands for, if it is one.
    fn atom(&mut self, name: &str) -> (t: Option<TypeId>)
        requires
            old(self).inv(),
        ensures
            final(self).inv(),
            old(self).keeps(final(self)),
            old(self).types.knots_kept(&final(self).types),
            old(self).types.recs_kept(&final(self).types),
            final(self).leniency == old(self).leniency,
            final(self).locs == old(self).locs,
            t is Some == is_builtin(name@),
            t matches Some(ty) ==> final(self).types.ty_ok(ty),
            !is_builtin(name@) ==> *final(self) == *old(self),
    {
        let ground = if same_text(name, "number") {
            Ground::Number
        } else if same_text(name, "bool") || same_text(name, "true") || same_text(name, "false") {
            Ground::Bool
        } else if same_text(name, "string") {
            Ground::String
        } else if same_text(name, "bytes") {
            Ground::Bytes
        } else if same_text(name, "stdout") {
            Ground::Stdout
        } else if same_text(name, "dataized") {
            Ground::Dataized
        } else if same_text(name, "recovered") {
            Ground::Recovered
        } else {
            return None;
        };
        Some(self.ground(ground))
    }

    /// Build one built-in. A built-in is only ever built at the outermost
    /// level: built any deeper, it would need lowering wherever it is used.
    fn build(&mut self, ground: Ground) -> (t: TypeId)
        requires
            old(self).inv(),
            old(self).solver.level.0 == 0,
        ensures
            final(self).inv(),
            old(self).keeps(final(self)),
            old(self).types.knots_kept(&final(self).types),
            old(self).types.recs_kept(&final(self).types),
            final(self).leniency == old(self).leniency,
            final(self).locs == old(self).locs,
            final(self).types.ty_ok(t),
            ground is Bytes ==> is_bytes(&final(self).types, t),
            ground is Number ==> is_number(&final(self).types, t),
            ground is Bool ==> is_truth(&final(self).types, t),
            ground is String ==> is_string(&final(self).types, t),
    {
        match ground {
            Ground::Bytes => self.prims().0,
            Ground::Number => self.prims().1,
            Ground::Bool => self.prims().2,
            Ground::String => self.string(),
            Ground::Tuple => {
                let element = self.fresh();
                self.tuple(element)
            },
            Ground::Stdout => self.stdout(),
            Ground::Dataized => {
                let anything = self.fresh();
                let bytes = self.prims().0;
                self.types.fun(anything, bytes)
            },
            Ground::Recovered => self.recovered(),
        }
    }

    /// A named unknown, standing for a built-in. The name makes it print by
    /// name rather than by shape, and makes instantiation share it rather than
    /// copy it.
    fn named(&mut self, alias: &str) -> (t: TypeId)
        requires
            old(self).inv(),
        ensures
            final(self).inv(),
            old(self).keeps(final(self)),
            old(self).types.knots_kept(&final(self).types),
            old(self).types.recs_kept(&final(self).types),
            final(self).leniency == old(self).leniency,
            final(self).locs == old(self).locs,
            final(self).types.ty_ok(t),
            final(self).types.spec_at(t) is Var,
            final(self).types.aliases@[t.0 as int] matches Some(a) && a@ == alias@,
            t.0 == old(self).types.nodes@.len(),
            final(self).types.spec_at(t) matches Type::Var(v) && v.0 == old(self).types.vars@.len()
                && final(self).types.spec_level(v) == old(self).solver.level,
    {
        let unknown = self.types.var(self.solver.level());
        let ty = self.types.node(Type::Var(unknown));
        self.types.name(ty, alias);
        ty
    }

    /// Bind a shape's attributes and tie it to the unknown that names it.
    fn shape(&mut self, alias: &str, named: TypeId, fields: Vec<(&str, TypeId)>) -> (r: RecId)
        requires
            old(self).inv(),
            old(self).types.ty_ok(named),
            forall|j: int| 0 <= j < fields@.len() ==> old(self).types.ty_ok(#[trigger] fields@[j].1),
        ensures
            final(self).inv(),
            old(self).keeps(final(self)),
            old(self).types.knots_kept(&final(self).types),
            old(self).types.recs_kept(&final(self).types),
            final(self).leniency == old(self).leniency,
            final(self).locs == old(self).locs,
            final(self).types.rec_ok(r),
            r.0 >= old(self).types.recs@.len(),
            forall|l: Seq<char>| #[trigger] final(self).types.spec_field(r, l) == listed(fields@, l),
    {
        let ghost e0 = *self;
        let shape = self.types.rec(Vec::new());
        let mut k: usize = 0;
        while k < fields.len()
            invariant
                self.inv(),
                e0.keeps(self),
                e0.types.knots_kept(&self.types),
                self.leniency == e0.leniency,
                self.locs == e0.locs,
                self.types.rec_ok(shape),
                shape.0 >= e0.types.recs@.len(),
                e0.types.recs_kept(&self.types),
                forall|j: int| 0 <= j < fields@.len() ==> self.types.ty_ok(#[trigger] fields@[j].1),
                0 <= k <= fields@.len(),
                forall|l: Seq<char>| #[trigger] self.types.spec_field(shape, l) == listed(fields@.subrange(0, k as int), l),
            decreases fields@.len() - k,
        {
            let ghost before = fields@.subrange(0, k as int);
            let ghost after = fields@.subrange(0, k + 1);
            assert(after.drop_last() =~= before);
            self.types.bind(shape, fields[k].0, fields[k].1);
            proof {
                assert forall|l: Seq<char>| #[trigger] self.types.spec_field(shape, l) == listed(after, l) by {
                    if l != fields@[k as int].0@ {
                    }
                }
            }
            k = k + 1;
        }
        assert(fields@.subrange(0, fields@.len() as int) =~= fields@);
        let ghost e1 = *self;
        let whole = self.types.node(Type::Rec(shape));
        self.types.name(whole, alias);
        let _ = self.solver.constrain(&mut self.types, whole, named);
        proof {
            assert(forall|l: Seq<char>| #[trigger] self.types.spec_field(shape, l) == e1.types.spec_field(shape, l));
        }
        shape
    }
}

impl Engine {
    /// The three mutually recursive built-ins, built together so their methods
    /// can name one another. `bytes` is the one object that decorates nothing;
    /// everything else bottoms out in it.
    fn prims(&mut self) -> (ts: (TypeId, TypeId, TypeId))
        requires
            old(self).inv(),
        ensures
            final(self).inv(),
            old(self).keeps(final(self)),
            old(self).types.knots_kept(&final(self).types),
            old(self).types.recs_kept(&final(self).types),
            final(self).leniency == old(self).leniency,
            final(self).locs == old(self).locs,
            final(self).types.ty_ok(ts.0),
            final(self).types.ty_ok(ts.1),
            final(self).types.ty_ok(ts.2),
            is_bytes(&final(self).types, ts.0),
            is_number(&final(self).types, ts.1),
            is_truth(&final(self).types, ts.2),
    {
        let bytes = self.named("bytes");
        let number = self.named("number");
        let truth = self.named("bool");
        let ghost named = self.types;
        let r1 = self.leaf(bytes, number, truth);
        let ghost t1 = self.types;
        proof {
            named.lemma_grows_keeps(&t1, bytes);
            assert(bytes_record(&t1, r1, bytes, number, truth));
            assert(is_bytes(&t1, bytes));
        }
        let r2 = self.arithmetic(bytes, number, truth);
        let ghost t2 = self.types;
        proof {
            named.lemma_grows_keeps(&t2, number);
            assert(number_record(&t2, r2, bytes, number, truth));
            assert(is_number(&t2, number));
            lemma_prims_kept(&t1, &t2, bytes);
        }
        let r3 = self.logic(bytes, truth);
        proof {
            named.lemma_grows_keeps(&self.types, truth);
            assert(bool_record(&self.types, r3, bytes, truth));
            assert(is_truth(&self.types, truth));
            lemma_prims_kept(&t2, &self.types, bytes);
            lemma_prims_kept(&t2, &self.types, number);
        }
        (bytes, number, truth)
    }

    /// The shape of `bytes`: comparison, bitwise logic, shifts, slicing, its
    /// size, and its reinterpretation as any other primitive.
    fn leaf(&mut self, bytes: TypeId, number: TypeId, truth: TypeId) -> (r: RecId)
        requires
            old(self).inv(),
            old(self).types.ty_ok(bytes),
            old(self).types.ty_ok(number),
            old(self).types.ty_ok(truth),
        ensures
            final(self).inv(),
            old(self).keeps(final(self)),
            old(self).types.knots_kept(&final(self).types),
            old(self).types.recs_kept(&final(self).types),
            final(self).leniency == old(self).leniency,
            final(self).locs == old(self).locs,
            final(self).types.rec_ok(r),
            forall|l: Seq<char>| #[trigger] final(self).types.spec_field(r, l) is Some <==> leaf_methods().contains(l),
            forall|l: Seq<char>| #[trigger] final(self).types.spec_field(r, l) matches Some(t) ==> leaf_typed(
                &final(self).types,
                bytes,
                number,
                truth,
                l,
                t,
            ),
    {
        let eq = self.types.fun(bytes, truth);
        let over = self.types.fun(bytes, bytes);
        let of_number = self.types.fun(number, bytes);
        let inner = self.types.fun(number, bytes);
        let slice = self.types.fun(number, inner);
        let fields = vec![
            ("eq", eq),
            ("and", over),
            ("or", over),
            ("xor", over),
            ("not", bytes),
            ("left", of_number),
            ("right", of_number),
            ("concat", over),
            ("slice", slice),
            ("size", number),
            ("as-i64", number),
            ("as-i32", number),
            ("as-i16", number),
            ("as-i8", number),
            ("as-u64", number),
            ("as-u32", number),
            ("as-u16", number),
            ("as-u8", number),
            ("as-bytes", bytes),
            ("as-number", number),
            ("as-bool", truth),
        ];
        assert(labels(fields@) =~= leaf_methods());
        let ghost listing = fields@;
        let ghost made = self.types;
        let r = self.shape("bytes", bytes, fields);
        proof {
            assert forall|l: Seq<char>| #[trigger] self.types.spec_field(r, l) is Some <==> leaf_methods().contains(l) by {
                lemma_listed(listing, l);
            }
            made.lemma_grows_keeps(&self.types, eq);
            made.lemma_grows_keeps(&self.types, over);
            made.lemma_grows_keeps(&self.types, of_number);
            made.lemma_grows_keeps(&self.types, slice);
            made.lemma_grows_keeps(&self.types, inner);
            assert forall|k: int| 0 <= k < listing.len() implies leaf_typed(&self.types, bytes, number, truth, (#[trigger] listing[k]).0@, listing[k].1) by {
                if k == 0 {
                } else if k == 1 {
                } else if k == 2 {
                } else if k == 3 {
                } else if k == 4 {
                } else if k == 5 {
                } else if k == 6 {
                } else if k == 7 {
                } else if k == 8 {
                } else if k == 9 {
                } else if k == 10 {
                } else if k == 11 {
                } else if k == 12 {
                } else if k == 13 {
                } else if k == 14 {
                } else if k == 15 {
                } else if k == 16 {
                } else if k == 17 {
                } else if k == 18 {
                } else if k == 19 {
                } else if k == 20 {
                }
            }
            assert forall|l: Seq<char>| #[trigger] self.types.spec_field(r, l) is Some implies leaf_typed(&self.types, bytes, number, truth, l, self.types.spec_field(r, l)->0) by {
                lemma_listed_from(listing, l);
            }
        }
        r
    }
}

impl Engine {
    /// The shape of `number`. The numeric methods only need their argument to
    /// be dataizable, since they take its bytes — so the argument is `bytes`,
    /// and a number is usable as bytes through its own decoratee. Both are
    /// therefore accepted.
    fn arithmetic(&mut self, bytes: TypeId, number: TypeId, truth: TypeId) -> (r: RecId)
        requires
            old(self).inv(),
            old(self).types.ty_ok(bytes),
            old(self).types.ty_ok(number),
            old(self).types.ty_ok(truth),
        ensures
            final(self).inv(),
            old(self).keeps(final(self)),
            old(self).types.knots_kept(&final(self).types),
            old(self).types.recs_kept(&final(self).types),
            final(self).leniency == old(self).leniency,
            final(self).locs == old(self).locs,
            final(self).types.rec_ok(r),
            forall|l: Seq<char>| #[trigger] final(self).types.spec_field(r, l) is Some <==> number_methods().contains(l),
            forall|l: Seq<char>| #[trigger] final(self).types.spec_field(r, l) matches Some(t) ==> number_typed(
                &final(self).types,
                bytes,
                number,
                truth,
                l,
                t,
            ),
    {
        let arith = self.types.fun(bytes, number);
        let compare = self.types.fun(bytes, truth);
        let fields = vec![
            ("plus", arith),
            ("minus", arith),
            ("times", arith),
            ("div", arith),
            ("power", arith),
            ("gt", compare),
            ("lt", compare),
            ("gte", compare),
            ("lte", compare),
            ("eq", compare),
            ("neg", number),
            ("is-nan", truth),
            ("is-integer", truth),
            ("is-finite", truth),
            ("floor", number),
            ("as-i64", number),
            ("as-i32", number),
            ("as-i16", number),
            ("as-number", number),
            ("as-bytes", bytes),
            ("@", bytes),
        ];
        assert(labels(fields@) =~= number_methods());
        let ghost listing = fields@;
        let ghost made = self.types;
        let r = self.shape("number", number, fields);
        proof {
            assert forall|l: Seq<char>| #[trigger] self.types.spec_field(r, l) is Some <==> number_methods().contains(l) by {
                lemma_listed(listing, l);
            }
            made.lemma_grows_keeps(&self.types, arith);
            made.lemma_grows_keeps(&self.types, compare);
            assert forall|k: int| 0 <= k < listing.len() implies number_typed(&self.types, bytes, number, truth, (#[trigger] listing[k]).0@, listing[k].1) by {
                if k == 0 {
                } else if k == 1 {
                } else if k == 2 {
                } else if k == 3 {
                } else if k == 4 {
                } else if k == 5 {
                } else if k == 6 {
                } else if k == 7 {
                } else if k == 8 {
                } else if k == 9 {
                } else if k == 10 {
                } else if k == 11 {
                } else if k == 12 {
                } else if k == 13 {
                } else if k == 14 {
                } else if k == 15 {
                } else if k == 16 {
                } else if k == 17 {
                } else if k == 18 {
                } else if k == 19 {
                } else if k == 20 {
                }
            }
            assert forall|l: Seq<char>| #[trigger] self.types.spec_field(r, l) is Some implies number_typed(&self.types, bytes, number, truth, l, self.types.spec_field(r, l)->0) by {
                lemma_listed_from(listing, l);
            }
        }
        r
    }

    /// The shape of a `bool` value. The branches of a conditional both flow
    /// into one result, which is what lets a demand on that result reach each
    /// of them.
    fn logic(&mut self, bytes: TypeId, truth: TypeId) -> (r: RecId)
        requires
            old(self).inv(),
            old(self).types.ty_ok(bytes),
            old(self).types.ty_ok(truth),
        ensures
            final(self).inv(),
            old(self).keeps(final(self)),
            old(self).types.knots_kept(&final(self).types),
            old(self).types.recs_kept(&final(self).types),
            final(self).leniency == old(self).leniency,
            final(self).locs == old(self).locs,
            final(self).types.rec_ok(r),
            forall|l: Seq<char>| #[trigger] final(self).types.spec_field(r, l) is Some <==> bool_methods().contains(l),
            forall|l: Seq<char>| #[trigger] final(self).types.spec_field(r, l) matches Some(t) ==> bool_typed(
                &final(self).types,
                bytes,
                truth,
                l,
                t,
            ),
    {
        let left = self.fresh();
        let right = self.fresh();
        let pick = self.fresh();
        let _ = self.solver.constrain(&mut self.types, left, pick);
        let _ = self.solver.constrain(&mut self.types, right, pick);
        let ghost picked = self.types;
        let inner = self.types.fun(right, pick);
        let branch = self.types.fun(left, inner);
        let logic = self.types.fun(truth, truth);
        let fields = vec![
            ("if", branch),
            ("not", truth),
            ("and", logic),
            ("or", logic),
            ("eq", logic),
            ("as-bytes", bytes),
            ("@", bytes),
        ];
        assert(labels(fields@) =~= bool_methods());
        let ghost listing = fields@;
        let ghost made = self.types;
        let r = self.shape("bool", truth, fields);
        proof {
            assert forall|l: Seq<char>| #[trigger] self.types.spec_field(r, l) is Some <==> bool_methods().contains(l) by {
                lemma_listed(listing, l);
            }
            picked.lemma_grows_keeps(&self.types, left);
            picked.lemma_grows_keeps(&self.types, right);
            picked.lemma_grows_keeps(&self.types, pick);
            made.lemma_grows_keeps(&self.types, inner);
            made.lemma_grows_keeps(&self.types, branch);
            made.lemma_grows_keeps(&self.types, logic);
            assert forall|k: int| 0 <= k < listing.len() implies bool_typed(&self.types, bytes, truth, (#[trigger] listing[k]).0@, listing[k].1) by {
                if k == 0 {
                } else if k == 1 {
                } else if k == 2 {
                } else if k == 3 {
                } else if k == 4 {
                } else if k == 5 {
                } else if k == 6 {
                }
            }
            assert forall|l: Seq<char>| #[trigger] self.types.spec_field(r, l) is Some implies bool_typed(&self.types, bytes, truth, l, self.types.spec_field(r, l)->0) by {
                lemma_listed_from(listing, l);
            }
        }
        r
    }

    /// A string: it compares, concatenates, has a length and formats, and
    /// decorates `bytes`.
    fn string(&mut self) -> (t: TypeId)
        requires
            old(self).inv(),
        ensures
            final(self).inv(),
            old(self).keeps(final(self)),
            old(self).types.knots_kept(&final(self).types),
            old(self).types.recs_kept(&final(self).types),
            final(self).leniency == old(self).leniency,
            final(self).locs == old(self).locs,
            final(self).types.ty_ok(t),
            final(self).types.spec_at(t) is Var,
            exists|r: RecId|
                final(self).types.rec_ok(r) && r.0 >= old(self).types.recs@.len() && #[trigger] string_shape(
                    &final(self).types,
                    r,
                    t,
                ),
            is_string(&final(self).types, t),
    {
        let text = self.named("string");
        let ghost named = self.types;
        let bytes = self.prims().0;
        let ghost sb = self.types;
        let truth = self.prims().2;
        let ghost st = self.types;
        let eq = self.types.fun(bytes, truth);
        let concat = self.types.fun(bytes, text);
        let length = self.prims().1;
        let ghost sl = self.types;
        let args = self.fresh();
        let printf = self.types.fun(args, text);
        let fields = vec![
            ("eq", eq),
            ("concat", concat),
            ("length", length),
            ("as-bytes", bytes),
            ("printf", printf),
            ("@", bytes),
        ];
        assert(labels(fields@) =~= string_methods());
        let ghost listing = fields@;
        let ghost made = self.types;
        let r = self.shape("string", text, fields);
        proof {
            assert forall|l: Seq<char>| #[trigger] self.types.spec_field(r, l) is Some <==> string_methods().contains(l) by {
                lemma_listed(listing, l);
            }
            named.lemma_grows_keeps(&self.types, text);
            made.lemma_grows_keeps(&self.types, eq);
            made.lemma_grows_keeps(&self.types, concat);
            made.lemma_grows_keeps(&self.types, printf);
            lemma_prims_kept(&sb, &self.types, bytes);
            lemma_prims_kept(&st, &self.types, truth);
            lemma_prims_kept(&sl, &self.types, length);
            assert forall|k: int| 0 <= k < listing.len() implies string_typed(&self.types, text, (#[trigger] listing[k]).0@, listing[k].1) by {
                if k == 0 {
                } else if k == 1 {
                } else if k == 2 {
                } else if k == 3 {
                } else if k == 4 {
                } else if k == 5 {
                }
            }
            assert forall|l: Seq<char>| #[trigger] self.types.spec_field(r, l) is Some implies string_typed(&self.types, text, l, self.types.spec_field(r, l)->0) by {
                lemma_listed_from(listing, l);
            }
            assert(string_shape(&self.types, r, text));
        }
        text
    }

    /// A tuple over one element type.
    fn tuple(&mut self, element: TypeId) -> (t: TypeId)
        requires
            old(self).inv(),
            old(self).types.ty_ok(element),
        ensures
            final(self).inv(),
            old(self).keeps(final(self)),
            old(self).types.knots_kept(&final(self).types),
            old(self).types.recs_kept(&final(self).types),
            final(self).leniency == old(self).leniency,
            final(self).locs == old(self).locs,
            final(self).types.ty_ok(t),
            final(self).types.spec_at(t) matches Type::Var(v) && v.0 >= old(self).types.vars@.len()
                && final(self).types.spec_level(v) == old(self).solver.level,
            exists|r: RecId|
                final(self).types.rec_ok(r) && r.0 >= old(self).types.recs@.len()
                    && #[trigger] tuple_shape(&final(self).types, r, element, t),
    {
        let whole = self.named("tuple");
        let ghost named = self.types;
        let with = self.types.fun(element, whole);
        let ghost joined = self.types;
        let at = {
            let index = self.prims().1;
            self.types.fun(index, element)
        };
        let contains = {
            let truth = self.prims().2;
            self.types.fun(element, truth)
        };
        let length = self.prims().1;
        let fields = vec![
            ("head", element),
            ("tail", whole),
            ("with", with),
            ("at", at),
            ("contains", contains),
            ("length", length),
        ];
        proof {
            reveal_strlit("head");
            reveal_strlit("tail");
            reveal_strlit("with");
            reveal_strlit("at");
            reveal_strlit("contains");
            reveal_strlit("length");
        }
        assert(labels(fields@) =~= tuple_methods());
        let ghost listing = fields@;
        let r = self.shape("tuple", whole, fields);
        proof {
            assert forall|j: int| 0 < j < 6 implies #[trigger] listing[j].0@ != "head"@ by {
                assert(labels(listing)[j] == listing[j].0@);
                if j == 1 {
                    assert("tail"@[0] != "head"@[0]);
                } else if j == 2 {
                    assert("with"@[0] != "head"@[0]);
                }
            }
            assert forall|j: int| 1 < j < 6 implies #[trigger] listing[j].0@ != "tail"@ by {
                assert(labels(listing)[j] == listing[j].0@);
                if j == 1 {
                    
                } else if j == 2 {
                    assert("with"@[0] != "tail"@[0]);
                }
            }
            assert forall|j: int| 2 < j < 6 implies #[trigger] listing[j].0@ != "with"@ by {
                assert(labels(listing)[j] == listing[j].0@);
            }
            lemma_listed_at(listing, "head"@, 0);
            lemma_listed_at(listing, "tail"@, 1);
            lemma_listed_at(listing, "with"@, 2);
            assert forall|l: Seq<char>| #[trigger] self.types.spec_field(r, l) is Some <==> tuple_methods().contains(l) by {
                lemma_listed(listing, l);
            }
            named.lemma_grows_keeps(&self.types, whole);
            joined.lemma_grows_keeps(&self.types, with);
            assert(tuple_shape(&self.types, r, element, whole));
        }
        whole
    }

    /// `stdout`: takes a string, and gives back something that prints.
    fn stdout(&mut self) -> (t: TypeId)
        requires
            old(self).inv(),
        ensures
            final(self).inv(),
            old(self).keeps(final(self)),
            old(self).types.knots_kept(&final(self).types),
            old(self).types.recs_kept(&final(self).types),
            final(self).leniency == old(self).leniency,
            final(self).locs == old(self).locs,
            final(self).types.ty_ok(t),
            final(self).types.spec_at(t) matches Type::Fun { arg, res } && final(self).types.spec_at(arg) is Var && (
            final(self).types.spec_at(res) matches Type::Rec(p) && final(self).types.spec_field(p, "print"@) is Some),
    {
        let text = self.string();
        let ghost strung = self.types;
        let printed = self.types.rec(Vec::new());
        let bytes = self.prims().0;
        self.types.bind(printed, "print", bytes);
        let whole = self.types.node(Type::Rec(printed));
        self.types.name(whole, "printed");
        let t = self.types.fun(text, whole);
        proof {
            strung.lemma_grows_keeps(&self.types, text);
        }
        t
    }

    /// `recovered`: the `⊥` eliminator, `∀A. A? → A → A`.
    fn recovered(&mut self) -> (t: TypeId)
        requires
            old(self).inv(),
        ensures
            final(self).inv(),
            old(self).keeps(final(self)),
            old(self).types.knots_kept(&final(self).types),
            old(self).types.recs_kept(&final(self).types),
            final(self).leniency == old(self).leniency,
            final(self).locs == old(self).locs,
            final(self).types.ty_ok(t),
            final(self).types.spec_at(t) matches Type::Rec(r) && recovers(&final(self).types, r),
    {
        let held = self.fresh();
        let mut voids: Vec<String> = Vec::new();
        voids.push(String::from_str("value"));
        voids.push(String::from_str("alternative"));
        let shape = self.types.rec(voids);
        let maybe = self.types.opt(held);
        proof {
            reveal_strlit("value");
            reveal_strlit("alternative");
            reveal_strlit("@");
        }
        assert("value"@.len() == 5 && "alternative"@.len() == 11 && "@"@.len() == 1);
        self.types.bind(shape, "value", maybe);
        let ghost b1 = self.types;
        self.types.bind(shape, "alternative", held);
        let ghost b2 = self.types;
        assert(b2.spec_field(shape, "value"@) == b1.spec_field(shape, "value"@));
        self.types.bind(shape, "@", held);
        assert(self.types.spec_field(shape, "value"@) == b2.spec_field(shape, "value"@));
        assert(self.types.spec_field(shape, "alternative"@) == b2.spec_field(shape, "alternative"@));
        let ghost bound = self.types;
        let whole = self.types.node(Type::Rec(shape));
        self.types.name(whole, "recovered");
        proof {
            bound.lemma_grows_keeps(&self.types, maybe);
            bound.lemma_grows_keeps(&self.types, held);
            assert(recovers(&self.types, shape));
        }
        whole
    }
}

} // verus!
