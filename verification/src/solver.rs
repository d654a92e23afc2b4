//! The constraint solver.
//!
//! Constraining says one type must be usable as another, accumulating lower and
//! upper bounds on every unknown it passes through. Levels keep a formation's
//! parameters fresh per use while its recursion and context stay shared, and
//! extrusion lowers a deep unknown when it meets a shallower one.
//!
//! Every walk the solver makes is bounded. Constraining spends at most
//! [`BUDGET`] steps per request and fails with [`Clash::Exhausted`] beyond that;
//! the level of a type is read at most [`DEPTH`] constructors deep; and
//! instantiation shares, rather than copies, whatever lies beyond its budget.

use vstd::prelude::*;

use crate::types::{
    Level, RecId, Site, Type, TypeId, Types, VarId, copy_fields, copy_strings, lemma_lookup_found, lookup, prefix,
    same_text,
};

verus! {

broadcast use {Types::lemma_grows_trans, Types::lemma_recs_kept_trans, Types::lemma_knots_kept_trans};

/// How many steps one request to constrain may take.
pub const BUDGET: u64 = 16_777_216;

/// How many constructors deep the level of a type is read.
pub const DEPTH: u64 = 1024;

/// Why a program cannot be typed.
#[derive(Debug)]
pub enum Clash {
    /// An attribute was required of something that does not have it, neither
    /// itself nor through its decoratee.
    UnknownAttribute {
        /// The attribute wanted.
        attribute: String,
        /// What it was wanted of.
        receiver: TypeId,
        /// Where it was wanted.
        site: Site,
    },
    /// A name that is neither in scope nor a built-in.
    Unbound {
        /// The name.
        name: String,
    },
    /// Something was applied that has no void left to fill and no decoratee
    /// to fall through to.
    NotApplicable {
        /// What was applied.
        receiver: TypeId,
    },
    /// A value that can be `⊥` was used where a definite one is needed: it
    /// has to be recovered first.
    NotRecovered {
        /// The value.
        value: TypeId,
    },
    /// The solver spent its whole budget on one request.
    Exhausted,
}

impl Clash {
    /// Whether the clash stops a build. Running out of budget says nothing
    /// about the program, so it does not.
    pub fn gates(&self) -> (stops: bool)
        ensures
            stops == !(self is Exhausted),
    {
        match self {
            Clash::Exhausted => false,
            _ => true,
        }
    }
}

/// The larger of two levels.
pub open spec fn top(a: u64, b: u64) -> u64 {
    if a < b {
        b
    } else {
        a
    }
}

/// The parent link of a formation.
pub open spec fn is_parent(label: Seq<char>) -> bool {
    label == "ρ"@
}

/// The level of a type: the deepest level of an unknown it holds, reading at
/// most `depth` constructors deep, and not following the parent link of a
/// record, which is navigation rather than content.
pub open spec fn level_of(types: Types, t: TypeId, depth: nat) -> u64
    decreases depth, 0nat,
{
    if depth == 0 || !types.ty_ok(t) {
        0
    } else {
        match types.spec_at(t) {
            Type::Var(v) => if types.var_ok(v) { types.spec_level(v).0 } else { 0 },
            Type::Fun { arg, res } => top(
                level_of(types, arg, (depth - 1) as nat),
                level_of(types, res, (depth - 1) as nat),
            ),
            Type::Opt(inner) => level_of(types, inner, (depth - 1) as nat),
            Type::Rec(r) => if types.rec_ok(r) {
                fields_level(types, types.recs@[r.0 as int].fields@, (depth - 1) as nat)
            } else {
                0
            },
        }
    }
}

/// The deepest level among some fields, the parent link aside.
pub open spec fn fields_level(types: Types, fields: Seq<(String, TypeId)>, depth: nat) -> u64
    decreases depth, fields.len() + 1,
{
    if fields.len() == 0 {
        0
    } else {
        let rest = fields_level(types, fields.drop_last(), depth);
        if is_parent(fields.last().0@) {
            rest
        } else {
            top(rest, level_of(types, fields.last().1, depth))
        }
    }
}

/// The level of a type, as [`level_of`] reads it.
pub fn level_of_exec(types: &Types, t: TypeId, depth: u64) -> (level: u64)
    requires
        types.wf(),
        types.ty_ok(t),
    ensures
        level == level_of(*types, t, depth as nat),
    decreases depth,
{
    if depth == 0 {
        return 0;
    }
    match types.at(t) {
        Type::Var(v) => {
            assert(types.type_ok(types.nodes@[t.0 as int]));
            types.level(v).0
        },
        Type::Fun { arg, res } => {
            assert(types.type_ok(types.nodes@[t.0 as int]));
            let a = level_of_exec(types, arg, depth - 1);
            let b = level_of_exec(types, res, depth - 1);
            if a < b {
                b
            } else {
                a
            }
        },
        Type::Opt(inner) => {
            assert(types.type_ok(types.nodes@[t.0 as int]));
            level_of_exec(types, inner, depth - 1)
        },
        Type::Rec(r) => {
            assert(types.type_ok(types.nodes@[t.0 as int]));
            assert(types.record_ok(types.recs@[r.0 as int]));
            let fields = types.fields(r);
            let mut acc: u64 = 0;
            let mut i: usize = 0;
            while i < fields.len()
                invariant
                    types.wf(),
                    types.rec_ok(r),
                    fields@ == types.recs@[r.0 as int].fields@,
                    0 <= i <= fields@.len(),
                    depth > 0,
                    acc == fields_level(*types, fields@.subrange(0, i as int), (depth - 1) as nat),
                decreases fields@.len() - i,
            {
                let ghost before = fields@.subrange(0, i as int);
                let ghost after = fields@.subrange(0, i + 1);
                assert(after.drop_last() =~= before);
                assert(after.last() == fields@[i as int]);
                if !same_text(fields[i].0.as_str(), "ρ") {
                    proof {
                        assert(types.record_ok(types.recs@[r.0 as int]));
                        assert(types.ty_ok(fields@[i as int].1));
                    }
                    let l = level_of_exec(types, fields[i].1, depth - 1);
                    assert(!is_parent(after.last().0@));
                    assert(fields_level(*types, after, (depth - 1) as nat) == top(acc, l));
                    if acc < l {
                        acc = l;
                    }
                } else {
                    proof {
                        assert(is_parent(after.last().0@));
                        assert(fields_level(*types, after, (depth - 1) as nat) == acc);
                    }
                }
                i = i + 1;
            }
            assert(fields@.subrange(0, fields@.len() as int) =~= fields@);
            acc
        },
    }
}


/// Whatever an extrusion remembers names something of the arena.
pub open spec fn memo_ok(types: &Types, memo: Seq<(VarId, bool, TypeId)>) -> bool {
    forall|i: int| 0 <= i < memo.len() ==> types.var_ok((#[trigger] memo[i]).0) && types.ty_ok(memo[i].2)
}

/// Lower a type to a level: every unknown deeper than the level is replaced by
/// a fresh one at the level, linked to it by a bound in the direction the
/// polarity gives, so that what is known of the deep unknown still reaches the
/// shallow one. The parent link of a record is shared, not lowered.
fn extrude(
    types: &mut Types,
    t: TypeId,
    positive: bool,
    lvl: Level,
    memo: &mut Vec<(VarId, bool, TypeId)>,
    fuel: &mut u64,
) -> (r: Result<TypeId, Clash>)
    requires
        old(types).wf(),
        old(types).ty_ok(t),
        memo_ok(old(types), old(memo)@),
    ensures
        final(types).wf(),
        old(types).grows_to(final(types)),
        old(types).recs_kept(final(types)),
        old(types).knots_kept(final(types)),
        memo_ok(final(types), final(memo)@),
        r matches Ok(x) ==> final(types).ty_ok(x),
        r is Err ==> r matches Err(Clash::Exhausted),
        *final(fuel) <= *old(fuel),
    decreases *old(fuel),
{
    let ghost g0 = *types;
    proof {
        g0.lemma_grows_refl();
    }
    if *fuel == 0 {
        return Err(Clash::Exhausted);
    }
    *fuel = *fuel - 1;
    let ghost f0 = *fuel;
    if level_of_exec(types, t, DEPTH) <= lvl.0 {
        return Ok(t);
    }
    assert(types.type_ok(types.nodes@[t.0 as int]));
    match types.at(t) {
        Type::Var(v) => {
            let mut k: usize = 0;
            while k < memo.len()
                invariant
                    0 <= k <= memo@.len(),
                    memo_ok(types, memo@),
                    *types == g0,
                    *fuel == f0,
                    f0 < *old(fuel),
                    g0 == *old(types),
                    types.wf(),
                    g0.grows_to(types),
                        g0.recs_kept(types),
                g0.knots_kept(types),
                decreases memo@.len() - k,
            {
                if memo[k].0 == v && memo[k].1 == positive {
                    return Ok(memo[k].2);
                }
                k = k + 1;
            }
            let nv = types.var(lvl);
            let nt = types.node(Type::Var(nv));
            proof {
                Types::lemma_grows_trans(&g0, &old(types), &types);
            }
            memo.push((v, positive, nt));
            if positive {
                types.push_upper(v, nt);
                let n = types.lower(v).len();
                let mut i: usize = 0;
                while i < n
                    invariant
                        types.wf(),
                        g0.grows_to(types),
                        g0.recs_kept(types),
                g0.knots_kept(types),
                        g0 == *old(types),
                        memo_ok(types, memo@),
                        types.var_ok(v),
                        types.var_ok(nv),
                        types.ty_ok(nt),
                        0 <= i <= n,
                        n <= types.spec_lower(v).len(),
                        *fuel <= f0,
                        f0 < *old(fuel),
                    decreases n - i,
                {
                    let ghost g1 = *types;
                    let l = types.lower(v)[i];
                    assert(types.unknown_ok(types.vars@[v.0 as int]));
                    assert(types.ty_ok(types.spec_lower(v)[i as int]));
                    let x = extrude(types, l, positive, lvl, memo, fuel)?;
                    let ghost g2 = *types;
                    types.push_lower(nv, x);
                    proof {
                        Types::lemma_grows_trans(&g1, &g2, &types);
                        Types::lemma_grows_trans(&g0, &g1, &types);
                        assert(prefix(g1.spec_lower(v), types.spec_lower(v)));
                    }
                    i = i + 1;
                }
            } else {
                types.push_lower(v, nt);
                let n = types.upper(v).len();
                let mut i: usize = 0;
                while i < n
                    invariant
                        types.wf(),
                        g0.grows_to(types),
                        g0.recs_kept(types),
                g0.knots_kept(types),
                        g0 == *old(types),
                        memo_ok(types, memo@),
                        types.var_ok(v),
                        types.var_ok(nv),
                        types.ty_ok(nt),
                        0 <= i <= n,
                        n <= types.spec_upper(v).len(),
                        *fuel <= f0,
                        f0 < *old(fuel),
                    decreases n - i,
                {
                    let ghost g1 = *types;
                    let u = types.upper(v)[i];
                    assert(types.unknown_ok(types.vars@[v.0 as int]));
                    assert(types.ty_ok(types.spec_upper(v)[i as int]));
                    let x = extrude(types, u, positive, lvl, memo, fuel)?;
                    let ghost g2 = *types;
                    types.push_upper(nv, x);
                    proof {
                        Types::lemma_grows_trans(&g1, &g2, &types);
                        Types::lemma_grows_trans(&g0, &g1, &types);
                        assert(prefix(g1.spec_upper(v), types.spec_upper(v)));
                    }
                    i = i + 1;
                }
            }
            Ok(nt)
        },
        Type::Fun { arg, res } => {
            let a = extrude(types, arg, !positive, lvl, memo, fuel)?;
            let ghost g1 = *types;
            let b = extrude(types, res, positive, lvl, memo, fuel)?;
            proof {
                Types::lemma_grows_trans(&g0, &g1, &types);
            }
            let ghost g2 = *types;
            let made = types.fun(a, b);
            proof {
                Types::lemma_grows_trans(&g0, &g2, &types);
            }
            Ok(made)
        },
        Type::Opt(inner) => {
            let x = extrude(types, inner, positive, lvl, memo, fuel)?;
            let ghost g1 = *types;
            let made = types.opt(x);
            proof {
                Types::lemma_grows_trans(&g0, &g1, &types);
            }
            Ok(made)
        },
        Type::Rec(s) => {
            assert(types.record_ok(types.recs@[s.0 as int]));
            let fields = copy_fields(types.fields(s));
            let voids = copy_strings(types.voids(s));
            let defined = types.defined_at(s);
            let site = types.site_of(s);
            let ns = types.rec(voids);
            types.restamp(ns, defined, site);
            proof {
                Types::lemma_grows_trans(&g0, &old(types), &types);
            }
            let mut i: usize = 0;
            while i < fields.len()
                invariant
                    types.wf(),
                    g0.grows_to(types),
                        g0.recs_kept(types),
                g0.knots_kept(types),
                    g0 == *old(types),
                    memo_ok(types, memo@),
                    types.rec_ok(ns),
                    ns.0 >= g0.recs@.len(),
                    0 <= i <= fields@.len(),
                    forall|j: int| 0 <= j < fields@.len() ==> types.ty_ok(#[trigger] fields@[j].1),
                    *fuel <= f0,
                    f0 < *old(fuel),
                decreases fields@.len() - i,
            {
                let ghost g1 = *types;
                let x = if same_text(fields[i].0.as_str(), "ρ") {
                    fields[i].1
                } else {
                    extrude(types, fields[i].1, positive, lvl, memo, fuel)?
                };
                let ghost g2 = *types;
                types.bind(ns, fields[i].0.as_str(), x);
                proof {
                    Types::lemma_grows_trans(&g1, &g2, &types);
                    Types::lemma_grows_trans(&g0, &g1, &types);
                }
                i = i + 1;
            }
            let ghost g1 = *types;
            let made = types.node(Type::Rec(ns));
            proof {
                Types::lemma_grows_trans(&g0, &g1, &types);
            }
            Ok(made)
        },
    }
}


/// Whatever an instantiation remembers names something of the arena.
pub open spec fn copies_ok(types: &Types, vars: Seq<(VarId, TypeId)>, recs: Seq<(RecId, RecId)>) -> bool {
    &&& forall|i: int| 0 <= i < vars.len() ==> types.var_ok((#[trigger] vars[i]).0) && types.ty_ok(vars[i].1)
    &&& forall|i: int| 0 <= i < recs.len() ==> types.rec_ok((#[trigger] recs[i]).0) && types.rec_ok(recs[i].1)
}

/// A copy of a type in which every unknown deeper than `limit` is replaced by a
/// fresh one at level `at`, its bounds copied alike. A named type, anything
/// no deeper than the limit, and the parent link of a record are shared.
fn fresh_type(
    types: &mut Types,
    limit: Level,
    at: Level,
    t: TypeId,
    vars: &mut Vec<(VarId, TypeId)>,
    recs: &mut Vec<(RecId, RecId)>,
    fuel: &mut u64,
) -> (copy: TypeId)
    requires
        old(types).wf(),
        old(types).ty_ok(t),
        copies_ok(old(types), old(vars)@, old(recs)@),
    ensures
        final(types).wf(),
        old(types).grows_to(final(types)),
        old(types).recs_kept(final(types)),
        old(types).knots_kept(final(types)),
        copies_ok(final(types), final(vars)@, final(recs)@),
        final(types).ty_ok(copy),
        *final(fuel) <= *old(fuel),
        old(types).aliases@[t.0 as int] is Some ==> copy == t,
        level_of(*old(types), t, DEPTH as nat) <= limit.0 ==> copy == t,
    decreases *old(fuel), 1nat,
{
    let ghost g0 = *types;
    proof {
        g0.lemma_grows_refl();
    }
    if *fuel == 0 {
        return t;
    }
    *fuel = *fuel - 1;
    let ghost f0 = *fuel;
    if types.is_named(t) || level_of_exec(types, t, DEPTH) <= limit.0 {
        return t;
    }
    assert(types.type_ok(types.nodes@[t.0 as int]));
    match types.at(t) {
        Type::Var(v) => {
            let mut k: usize = 0;
            while k < vars.len()
                invariant
                    0 <= k <= vars@.len(),
                    copies_ok(types, vars@, recs@),
                    types.wf(),
                    *types == g0,
                    g0 == *old(types),
                    g0.aliases@[t.0 as int] is None,
                    level_of(g0, t, DEPTH as nat) > limit.0,
                    g0.grows_to(types),
                        g0.recs_kept(types),
                g0.knots_kept(types),
                    *fuel == f0,
                    f0 < *old(fuel),
                decreases vars@.len() - k,
            {
                if vars[k].0 == v {
                    return vars[k].1;
                }
                k = k + 1;
            }
            let nv = types.var(at);
            let nt = types.node(Type::Var(nv));
            vars.push((v, nt));
            match types.knot(v) {
                Some(r) => {
                    assert(types.unknown_ok(types.vars@[v.0 as int]));
                    let nr = fresh_rec(types, limit, at, r, vars, recs, fuel);
                    types.tie(nv, nr);
                },
                None => {},
            }
            let n = types.lower(v).len();
            let mut i: usize = 0;
            while i < n
                invariant
                    types.wf(),
                    g0.grows_to(types),
                        g0.recs_kept(types),
                g0.knots_kept(types),
                    g0 == *old(types),
                    copies_ok(types, vars@, recs@),
                    types.var_ok(v),
                    types.var_ok(nv),
                    types.ty_ok(nt),
                    0 <= i <= n,
                    n <= types.spec_lower(v).len(),
                    *fuel <= f0,
                    f0 < *old(fuel),
                decreases n - i,
            {
                let ghost g1 = *types;
                let l = types.lower(v)[i];
                assert(types.unknown_ok(types.vars@[v.0 as int]));
                assert(types.ty_ok(types.spec_lower(v)[i as int]));
                let x = fresh_type(types, limit, at, l, vars, recs, fuel);
                types.push_lower(nv, x);
                proof {
                    assert(prefix(g1.spec_lower(v), types.spec_lower(v)));
                }
                i = i + 1;
            }
            let n = types.upper(v).len();
            let mut i: usize = 0;
            while i < n
                invariant
                    types.wf(),
                    g0.grows_to(types),
                        g0.recs_kept(types),
                g0.knots_kept(types),
                    g0 == *old(types),
                    copies_ok(types, vars@, recs@),
                    types.var_ok(v),
                    types.var_ok(nv),
                    types.ty_ok(nt),
                    0 <= i <= n,
                    n <= types.spec_upper(v).len(),
                    *fuel <= f0,
                    f0 < *old(fuel),
                decreases n - i,
            {
                let ghost g1 = *types;
                let u = types.upper(v)[i];
                assert(types.unknown_ok(types.vars@[v.0 as int]));
                assert(types.ty_ok(types.spec_upper(v)[i as int]));
                let x = fresh_type(types, limit, at, u, vars, recs, fuel);
                types.push_upper(nv, x);
                proof {
                    assert(prefix(g1.spec_upper(v), types.spec_upper(v)));
                }
                i = i + 1;
            }
            nt
        },
        Type::Fun { arg, res } => {
            let a = fresh_type(types, limit, at, arg, vars, recs, fuel);
            let b = fresh_type(types, limit, at, res, vars, recs, fuel);
            types.fun(a, b)
        },
        Type::Opt(inner) => {
            let x = fresh_type(types, limit, at, inner, vars, recs, fuel);
            types.opt(x)
        },
        Type::Rec(s) => {
            let ns = fresh_rec(types, limit, at, s, vars, recs, fuel);
            types.node(Type::Rec(ns))
        },
    }
}

/// A copy of a record, as [`fresh_type`] copies: the same voids, level of
/// definition and site, every field copied but the parent link, which is
/// shared. Each record is copied once per instantiation.
fn fresh_rec(
    types: &mut Types,
    limit: Level,
    at: Level,
    s: RecId,
    vars: &mut Vec<(VarId, TypeId)>,
    recs: &mut Vec<(RecId, RecId)>,
    fuel: &mut u64,
) -> (copy: RecId)
    requires
        old(types).wf(),
        old(types).rec_ok(s),
        copies_ok(old(types), old(vars)@, old(recs)@),
    ensures
        final(types).wf(),
        old(types).grows_to(final(types)),
        old(types).recs_kept(final(types)),
        old(types).knots_kept(final(types)),
        copies_ok(final(types), final(vars)@, final(recs)@),
        final(types).rec_ok(copy),
        *final(fuel) <= *old(fuel),
    decreases *old(fuel), 0nat,
{
    let ghost g0 = *types;
    proof {
        g0.lemma_grows_refl();
    }
    if *fuel == 0 {
        return s;
    }
    *fuel = *fuel - 1;
    let ghost f0 = *fuel;
    let mut k: usize = 0;
    while k < recs.len()
        invariant
            0 <= k <= recs@.len(),
            copies_ok(types, vars@, recs@),
            types.wf(),
            *types == g0,
            g0 == *old(types),
            g0.grows_to(types),
                        g0.recs_kept(types),
                g0.knots_kept(types),
            *fuel == f0,
            f0 < *old(fuel),
        decreases recs@.len() - k,
    {
        if recs[k].0 == s {
            return recs[k].1;
        }
        k = k + 1;
    }
    assert(types.record_ok(types.recs@[s.0 as int]));
    let fields = copy_fields(types.fields(s));
    let voids = copy_strings(types.voids(s));
    let defined = types.defined_at(s);
    let site = types.site_of(s);
    let ns = types.rec(voids);
    types.restamp(ns, defined, site);
    recs.push((s, ns));
    let mut i: usize = 0;
    while i < fields.len()
        invariant
            types.wf(),
            g0.grows_to(types),
                        g0.recs_kept(types),
                g0.knots_kept(types),
            g0 == *old(types),
            copies_ok(types, vars@, recs@),
            types.rec_ok(ns),
            ns.0 >= g0.recs@.len(),
            0 <= i <= fields@.len(),
            forall|j: int| 0 <= j < fields@.len() ==> types.ty_ok(#[trigger] fields@[j].1),
            *fuel <= f0,
            f0 < *old(fuel),
        decreases fields@.len() - i,
    {
        let x = if same_text(fields[i].0.as_str(), "ρ") {
            fields[i].1
        } else {
            fresh_type(types, limit, at, fields[i].1, vars, recs, fuel)
        };
        types.bind(ns, fields[i].0.as_str(), x);
        i = i + 1;
    }
    ns
}


/// What one request to constrain settles at once, before anything it leads to:
/// a type is usable as itself; an unknown that is no shallower than what it
/// must be usable as takes it as an upper bound, and one that is no shallower
/// than what must be usable as it takes that as a lower bound; a value that
/// can be `⊥` is refused where a definite shape or function is wanted; a
/// record that lacks an attribute another requires, and has no decoratee to
/// reach it through, is refused; a record with no void left and no decoratee
/// cannot be applied; and a function offers no attribute at all.
pub open spec fn settles(before: Types, after: Types, lhs: TypeId, rhs: TypeId, r: Result<(), Clash>) -> bool {
    &&& lhs == rhs ==> r is Ok && after == before
    &&& lhs != rhs ==> match (before.spec_at(lhs), before.spec_at(rhs)) {
        (Type::Var(v), _) => r is Ok && level_of(before, rhs, DEPTH as nat) <= before.spec_level(v).0
            ==> after.spec_upper(v).contains(rhs),
        (_, Type::Var(v)) => r is Ok && level_of(before, lhs, DEPTH as nat) <= before.spec_level(v).0
            ==> after.spec_lower(v).contains(lhs),
        (Type::Opt(_), Type::Rec(_)) => r matches Err(Clash::NotRecovered { value }) && value == lhs,
        (Type::Opt(_), Type::Fun { .. }) => r matches Err(Clash::NotRecovered { value }) && value == lhs,
        (Type::Rec(s1), Type::Rec(s2)) => lacks(before, s1, s2) ==> r is Err,
        (Type::Rec(s1), Type::Fun { .. }) => before.recs@[s1.0 as int].voids@.len() == 0 && before.spec_field(
            s1,
            "@"@,
        ) is None ==> (r matches Err(Clash::NotApplicable { receiver }) && receiver == lhs),
        (Type::Fun { .. }, Type::Rec(s2)) => if before.recs@[s2.0 as int].fields@.len() == 0 {
            r is Ok
        } else {
            r matches Err(Clash::UnknownAttribute { attribute, receiver, .. }) && receiver == lhs && attribute@
                == before.recs@[s2.0 as int].fields@[0].0@
        },
        _ => true,
    }
}

/// Whether one type is held below another in an arena: an unknown on the left
/// has the right as an upper bound, or else an unknown on the right has the
/// left as a lower bound, wherever the levels let the bound stand.
pub open spec fn bound_below(types: Types, lhs: TypeId, rhs: TypeId) -> bool {
    lhs != rhs ==> match (types.spec_at(lhs), types.spec_at(rhs)) {
        (Type::Var(v), _) => level_of(types, rhs, DEPTH as nat) <= types.spec_level(v).0
            ==> types.spec_upper(v).contains(rhs),
        (_, Type::Var(v)) => level_of(types, lhs, DEPTH as nat) <= types.spec_level(v).0
            ==> types.spec_lower(v).contains(lhs),
        _ => true,
    }
}

/// The level of a type of an arena stays the same as the arena grows and
/// keeps its records.
pub(crate) proof fn lemma_level_kept(before: Types, after: Types, t: TypeId, depth: nat)
    requires
        before.wf(),
        before.grows_to(&after),
        before.recs_kept(&after),
        before.ty_ok(t),
    ensures
        level_of(before, t, depth) == level_of(after, t, depth),
    decreases depth, 0nat,
{
    if depth > 0 {
        before.lemma_grows_keeps(&after, t);
        assert(before.type_ok(before.nodes@[t.0 as int]));
        match before.spec_at(t) {
            Type::Var(v) => {
                assert(after.vars@[v.0 as int].level == before.vars@[v.0 as int].level);
            },
            Type::Fun { arg, res } => {
                lemma_level_kept(before, after, arg, (depth - 1) as nat);
                lemma_level_kept(before, after, res, (depth - 1) as nat);
            },
            Type::Opt(inner) => {
                lemma_level_kept(before, after, inner, (depth - 1) as nat);
            },
            Type::Rec(r) => {
                assert(after.recs@[r.0 as int] == before.recs@[r.0 as int]);
                assert(before.record_ok(before.recs@[r.0 as int]));
                lemma_fields_level_kept(before, after, before.recs@[r.0 as int].fields@, (depth - 1) as nat);
            },
        }
    }
}

/// The level of some fields of an arena stays the same as the arena grows and
/// keeps its records.
proof fn lemma_fields_level_kept(before: Types, after: Types, fields: Seq<(String, TypeId)>, depth: nat)
    requires
        before.wf(),
        before.grows_to(&after),
        before.recs_kept(&after),
        forall|j: int| 0 <= j < fields.len() ==> before.ty_ok(#[trigger] fields[j].1),
    ensures
        fields_level(before, fields, depth) == fields_level(after, fields, depth),
    decreases depth, fields.len() + 1,
{
    if fields.len() > 0 {
        assert(fields.last() == fields[fields.len() - 1]);
        assert forall|j: int| 0 <= j < fields.drop_last().len() implies before.ty_ok(#[trigger] fields.drop_last()[j].1) by {
            assert(fields.drop_last()[j] == fields[j]);
        }
        lemma_fields_level_kept(before, after, fields.drop_last(), depth);
        lemma_level_kept(before, after, fields.last().1, depth);
    }
}

/// Some fields, the parent link aside, each no deeper than a level, are no
/// deeper than it all together.
pub(crate) proof fn lemma_fields_level_bound(types: Types, fields: Seq<(String, TypeId)>, depth: nat, k: u64)
    requires
        forall|j: int|
            0 <= j < fields.len() ==> is_parent((#[trigger] fields[j]).0@) || level_of(types, fields[j].1, depth) <= k,
    ensures
        fields_level(types, fields, depth) <= k,
    decreases fields.len(),
{
    if fields.len() > 0 {
        assert forall|j: int| 0 <= j < fields.drop_last().len() implies is_parent((#[trigger] fields.drop_last()[j]).0@)
            || level_of(types, fields.drop_last()[j].1, depth) <= k by {
            assert(fields.drop_last()[j] == fields[j]);
        }
        lemma_fields_level_bound(types, fields.drop_last(), depth, k);
        assert(fields.last() == fields[fields.len() - 1]);
    }
}

/// Two types held one below the other stay so as the arena grows and keeps
/// its records.
pub(crate) proof fn lemma_bound_kept(before: Types, after: Types, lhs: TypeId, rhs: TypeId)
    requires
        before.wf(),
        before.grows_to(&after),
        before.recs_kept(&after),
        before.ty_ok(lhs),
        before.ty_ok(rhs),
        bound_below(before, lhs, rhs),
    ensures
        bound_below(after, lhs, rhs),
{
    before.lemma_grows_keeps(&after, lhs);
    before.lemma_grows_keeps(&after, rhs);
    lemma_level_kept(before, after, lhs, DEPTH as nat);
    lemma_level_kept(before, after, rhs, DEPTH as nat);
    assert(before.type_ok(before.nodes@[lhs.0 as int]));
    assert(before.type_ok(before.nodes@[rhs.0 as int]));
    if lhs != rhs {
        match before.spec_at(lhs) {
            Type::Var(v) => {
                assert(after.vars@[v.0 as int].level == before.vars@[v.0 as int].level);
                if before.spec_upper(v).contains(rhs) {
                    lemma_prefix_contains(before.spec_upper(v), after.spec_upper(v), rhs);
                }
            },
            _ => {
                match before.spec_at(rhs) {
                    Type::Var(v) => {
                        assert(after.vars@[v.0 as int].level == before.vars@[v.0 as int].level);
                        if before.spec_lower(v).contains(lhs) {
                            lemma_prefix_contains(before.spec_lower(v), after.spec_lower(v), lhs);
                        }
                    },
                    _ => {},
                }
            },
        }
    }
}

/// A request that succeeded leaves its two sides bound one below the other in
/// the arena it produced.
pub(crate) proof fn lemma_settled_bound(before: Types, after: Types, lhs: TypeId, rhs: TypeId)
    requires
        before.wf(),
        before.grows_to(&after),
        before.recs_kept(&after),
        before.ty_ok(lhs),
        before.ty_ok(rhs),
        settles(before, after, lhs, rhs, Ok(())),
    ensures
        bound_below(after, lhs, rhs),
{
    before.lemma_grows_keeps(&after, lhs);
    before.lemma_grows_keeps(&after, rhs);
    lemma_level_kept(before, after, lhs, DEPTH as nat);
    lemma_level_kept(before, after, rhs, DEPTH as nat);
    assert(before.type_ok(before.nodes@[lhs.0 as int]));
    assert(before.type_ok(before.nodes@[rhs.0 as int]));
    match before.spec_at(lhs) {
        Type::Var(v) => {
            assert(after.vars@[v.0 as int].level == before.vars@[v.0 as int].level);
        },
        _ => {
            match before.spec_at(rhs) {
                Type::Var(v) => {
                    assert(after.vars@[v.0 as int].level == before.vars@[v.0 as int].level);
                },
                _ => {},
            }
        },
    }
}

/// Whether an arena is another with one more lower bound on one unknown and
/// nothing else changed.
pub open spec fn lower_pushed(before: Types, after: Types, v: VarId, t: TypeId) -> bool {
    &&& after.nodes@ == before.nodes@
    &&& after.recs@ == before.recs@
    &&& after.vars@.len() == before.vars@.len()
    &&& after.spec_lower(v) == before.spec_lower(v).push(t)
    &&& after.spec_upper(v) == before.spec_upper(v)
    &&& after.vars@[v.0 as int].knot == before.vars@[v.0 as int].knot
    &&& after.spec_level(v) == before.spec_level(v)
    &&& forall|k: int| 0 <= k < before.vars@.len() && k != v.0 ==> after.vars@[k] == before.vars@[k]
}

/// Whether an arena is another with one more upper bound on one unknown and
/// nothing else changed.
pub open spec fn upper_pushed(before: Types, after: Types, v: VarId, t: TypeId) -> bool {
    &&& after.nodes@ == before.nodes@
    &&& after.recs@ == before.recs@
    &&& after.vars@.len() == before.vars@.len()
    &&& after.spec_upper(v) == before.spec_upper(v).push(t)
    &&& after.spec_lower(v) == before.spec_lower(v)
    &&& after.vars@[v.0 as int].knot == before.vars@[v.0 as int].knot
    &&& after.spec_level(v) == before.spec_level(v)
    &&& forall|k: int| 0 <= k < before.vars@.len() && k != v.0 ==> after.vars@[k] == before.vars@[k]
}

/// Whether a request settles at once on the unknown it wants: a type that is
/// no unknown, below an unknown with no upper bound to pass it on to, at a
/// level the unknown admits.
pub open spec fn lands_below(types: Types, lhs: TypeId, rhs: TypeId) -> bool {
    &&& lhs != rhs
    &&& !(types.spec_at(lhs) is Var)
    &&& types.spec_at(rhs) matches Type::Var(v) && types.spec_upper(v).len() == 0 && level_of(types, lhs, DEPTH as nat)
        <= types.spec_level(v).0
}

/// Whether a request settles at once on the unknown it starts from: an unknown
/// with no lower bound to pass on, below a type at a level the unknown admits.
pub open spec fn lands_above(types: Types, lhs: TypeId, rhs: TypeId) -> bool {
    &&& lhs != rhs
    &&& types.spec_at(lhs) matches Type::Var(v) && types.spec_lower(v).len() == 0 && level_of(types, rhs, DEPTH as nat)
        <= types.spec_level(v).0
}

/// Whether a request passes through an unknown to settle at once: an unknown
/// with exactly one lower bound, which is no unknown, below another unknown
/// that has no upper bound, at levels both unknowns admit.
pub open spec fn lands_through(types: Types, lhs: TypeId, rhs: TypeId) -> bool {
    &&& lhs != rhs
    &&& types.spec_at(lhs) matches Type::Var(v) && types.spec_lower(v).len() == 1 && level_of(types, rhs, DEPTH as nat)
        <= types.spec_level(v).0 && (types.spec_at(rhs) matches Type::Var(w) && w != v && lands_below(
        types,
        types.spec_lower(v)[0],
        rhs,
    ))
}

/// What a request that settles at once on an unknown does: it succeeds, and
/// the only change is the one new bound.
pub open spec fn lands(before: Types, after: Types, lhs: TypeId, rhs: TypeId, r: Result<(), Clash>) -> bool {
    &&& lands_above(before, lhs, rhs) ==> r is Ok && (before.spec_at(lhs) matches Type::Var(v) && upper_pushed(
        before,
        after,
        v,
        rhs,
    ))
    &&& lands_below(before, lhs, rhs) ==> r is Ok && (before.spec_at(rhs) matches Type::Var(v) && lower_pushed(
        before,
        after,
        v,
        lhs,
    ))
}

/// Whether some voids are what is left of others once the first is filled.
pub open spec fn rest_voids(all: Seq<String>, rest: Seq<String>) -> bool {
    all.len() > 0 ==> rest.len() == all.len() - 1 && forall|k: int| 0 <= k < rest.len() ==> #[trigger] rest[k]@ == all[k + 1]@
}

/// Whether a request is refused by its first step alone: a maybe-`⊥` value
/// where a record or a function is wanted, a record lacking an attribute the
/// other requires, a record that takes nothing where a function is wanted, or a
/// function where a record with attributes is wanted.
pub open spec fn refused_at_once(types: Types, lhs: TypeId, rhs: TypeId) -> bool {
    lhs != rhs && match (types.spec_at(lhs), types.spec_at(rhs)) {
        (Type::Var(_), _) => false,
        (_, Type::Var(_)) => false,
        (Type::Opt(_), Type::Rec(_)) => true,
        (Type::Opt(_), Type::Fun { .. }) => true,
        (Type::Rec(s1), Type::Rec(s2)) => lacks(types, s1, s2),
        (Type::Rec(s1), Type::Fun { .. }) => types.recs@[s1.0 as int].voids@.len() == 0 && types.spec_field(s1, "@"@)
            is None,
        (Type::Fun { .. }, Type::Rec(s2)) => types.recs@[s2.0 as int].fields@.len() > 0,
        _ => false,
    }
}

/// What a request between two types built alike asks of their parts: a
/// function below another needs the second's argument below the first's, a
/// maybe-`⊥` below another needs the first's value below the second's, and a
/// plain type below a maybe-`⊥` needs it below the value. A part refused at
/// once refuses the whole.
pub open spec fn settles_parts(before: Types, lhs: TypeId, rhs: TypeId, r: Result<(), Clash>) -> bool {
    lhs != rhs ==> match (before.spec_at(lhs), before.spec_at(rhs)) {
        (Type::Var(_), _) => true,
        (_, Type::Var(_)) => true,
        (Type::Opt(a), Type::Opt(b)) => refused_at_once(before, a, b) ==> r is Err,
        (_, Type::Opt(b)) => refused_at_once(before, lhs, b) ==> r is Err,
        (Type::Fun { arg: a1, .. }, Type::Fun { arg: a2, .. }) => refused_at_once(before, a2, a1) ==> r is Err,
        (Type::Rec(s1), Type::Fun { arg, .. }) => (first_slot(before, s1) matches Some(slot) && refused_at_once(
            before,
            arg,
            slot,
        )) ==> r is Err,
        _ => true,
    }
}

/// The attribute of a record's first void, the one an application fills.
pub open spec fn first_slot(types: Types, s: RecId) -> Option<TypeId> {
    if types.recs@[s.0 as int].voids@.len() > 0 {
        types.spec_field(s, types.recs@[s.0 as int].voids@[0]@)
    } else {
        None
    }
}

/// What applying a formation leaves: the argument is bound below the
/// attribute of the formation's first void.
pub open spec fn fills_first(before: Types, after: Types, lhs: TypeId, rhs: TypeId, r: Result<(), Clash>) -> bool {
    lhs != rhs ==> match (before.spec_at(lhs), before.spec_at(rhs)) {
        (Type::Rec(s1), Type::Fun { arg, .. }) => (first_slot(before, s1) matches Some(slot) && (arg, slot) != (lhs, rhs))
            ==> (r is Ok ==> bound_below(after, arg, first_slot(before, s1)->0)),
        _ => true,
    }
}

/// Applying a formation fills its first void: once the application succeeds,
/// an argument that is no unknown is a lower bound of the first void's
/// attribute, when that attribute is an unknown at a level that admits it.
pub proof fn law_application_fills_first_void(
    before: Types,
    after: Types,
    lhs: TypeId,
    rhs: TypeId,
    slot: TypeId,
    v: VarId,
)
    requires
        fills_first(before, after, lhs, rhs, Ok(())),
        lhs != rhs,
        before.spec_at(lhs) matches Type::Rec(s) && first_slot(before, s) == Some(slot),
        before.spec_at(rhs) matches Type::Fun { arg, .. } && (arg, slot) != (lhs, rhs) && arg != slot && !(after.spec_at(
            arg,
        ) is Var) && level_of(after, arg, DEPTH as nat) <= after.spec_level(v).0,
        after.spec_at(slot) == Type::Var(v),
    ensures
        after.spec_lower(v).contains(before.spec_at(rhs)->arg),
{
}

/// The requests between types built alike that their parts settle at once: a
/// maybe-`⊥` of a value below a maybe-`⊥` of the same value, a value below a
/// maybe-`⊥` of itself, and a function below one with the same argument and
/// result, all succeed.
pub open spec fn parts_alike(before: Types, lhs: TypeId, rhs: TypeId, r: Result<(), Clash>) -> bool {
    lhs != rhs ==> match (before.spec_at(lhs), before.spec_at(rhs)) {
        (Type::Var(_), _) => true,
        (_, Type::Var(_)) => true,
        (Type::Opt(a), Type::Opt(b)) => a == b ==> r is Ok,
        (_, Type::Opt(b)) => lhs == b ==> r is Ok,
        (Type::Fun { arg: a1, res: r1 }, Type::Fun { arg: a2, res: r2 }) => a1 == a2 && r1 == r2 ==> r is Ok,
        _ => true,
    }
}

/// Whether a record has every attribute another requires, each of the very
/// type required.
pub open spec fn fits(types: Types, s1: RecId, s2: RecId) -> bool {
    forall|k: int|
        0 <= k < types.recs@[s2.0 as int].fields@.len() ==> types.spec_field(
            s1,
            (#[trigger] types.recs@[s2.0 as int].fields@[k]).0@,
        ) == Some(types.recs@[s2.0 as int].fields@[k].1)
}

/// Whether one type is a record that fits another record's requirements,
/// with budget left to check every one of them.
pub open spec fn fits_within(types: Types, lhs: TypeId, rhs: TypeId, budget: nat) -> bool {
    match (types.spec_at(lhs), types.spec_at(rhs)) {
        (Type::Rec(s1), Type::Rec(s2)) => fits(types, s1, s2) && types.recs@[s2.0 as int].fields@.len() < budget,
        _ => false,
    }
}

/// Whether a record lacks an attribute another requires, and has no decoratee
/// to reach it through.
pub open spec fn lacks(types: Types, s1: RecId, s2: RecId) -> bool {
    types.spec_field(s1, "@"@) is None && exists|l: Seq<char>|
        #[trigger] types.spec_field(s2, l) is Some && types.spec_field(s1, l) is None
}

/// A list that another begins with holds everything the first holds.
pub proof fn lemma_prefix_contains<T>(shorter: Seq<T>, longer: Seq<T>, x: T)
    requires
        prefix(shorter, longer),
        shorter.contains(x),
    ensures
        longer.contains(x),
{
    let k = choose|k: int| 0 <= k < shorter.len() && shorter[k] == x;
    assert(longer.subrange(0, shorter.len() as int)[k] == longer[k]);
}

/// The solver: the level inference is at, whether incomplete objects are
/// fragile, and what it made once and shares since.
#[derive(Debug)]
pub struct Solver {
    /// The current MLsub level.
    pub level: Level,
    /// Whether an object with an unset attribute counts as possibly `⊥`.
    pub fragile: bool,
    /// The one-attribute requirements made to reach through a decoratee: the
    /// attribute, what it must be usable as, and the requirement.
    pub needs: Vec<(String, TypeId, TypeId)>,
    /// The records with their first void filled: the record, and the record
    /// that is left once it is.
    pub dropped: Vec<(RecId, TypeId)>,
}

impl Solver {
    /// Whatever the solver shares names something of the arena.
    pub open spec fn wf(&self, types: &Types) -> bool {
        &&& forall|i: int|
            0 <= i < self.needs@.len() ==> types.ty_ok((#[trigger] self.needs@[i]).1) && types.ty_ok(
                self.needs@[i].2,
            )
        &&& forall|i: int|
            0 <= i < self.dropped@.len() ==> types.rec_ok((#[trigger] self.dropped@[i]).0)
                && types.ty_ok(self.dropped@[i].1) && (types.spec_at(self.dropped@[i].1) matches Type::Rec(ns)
                && types.rec_ok(ns) && rest_voids(types.recs@[self.dropped@[i].0.0 as int].voids@, types.recs@[ns.0 as int].voids@))
    }

    /// A solver at the outermost level.
    pub fn new(fragile: bool) -> (solver: Solver)
        ensures
            solver.level.0 == 0,
            solver.fragile == fragile,
            solver.needs@.len() == 0,
            solver.dropped@.len() == 0,
    {
        Solver { level: Level(0), fragile, needs: Vec::new(), dropped: Vec::new() }
    }

    /// The current level.
    pub fn level(&self) -> (level: Level)
        ensures
            level == self.level,
    {
        self.level
    }

    /// Whether incomplete objects are fragile.
    pub fn fragile(&self) -> (fragile: bool)
        ensures
            fragile == self.fragile,
    {
        self.fragile
    }

    /// Go one level in.
    pub fn descend(&mut self)
        ensures
            final(self).level.0 == if old(self).level.0 < u64::MAX {
                old(self).level.0 + 1
            } else {
                old(self).level.0 as int
            },
            final(self).fragile == old(self).fragile,
            final(self).needs == old(self).needs,
            final(self).dropped == old(self).dropped,
    {
        self.level = self.level.deeper();
    }

    /// Go to a level, handing back the level it was at.
    pub fn jump(&mut self, to: Level) -> (was: Level)
        ensures
            was == old(self).level,
            final(self).level == to,
            final(self).fragile == old(self).fragile,
            final(self).needs == old(self).needs,
            final(self).dropped == old(self).dropped,
    {
        let was = self.level;
        self.level = to;
        was
    }

    /// The requirement of one attribute: `{label: t}`, marked with where it
    /// was wanted. Made once per attribute and type and shared after, so that
    /// reaching repeatedly through the same decoratee meets the same
    /// requirement and stops.
    fn need(&mut self, types: &mut Types, label: &str, t: TypeId, site: Site) -> (req: TypeId)
        requires
            old(types).wf(),
            old(self).wf(old(types)),
            old(types).ty_ok(t),
        ensures
            final(types).wf(),
            old(types).grows_to(final(types)),
            old(types).recs_kept(final(types)),
        old(types).knots_kept(final(types)),
            final(self).wf(final(types)),
            final(types).ty_ok(req),
            final(self).level == old(self).level,
            final(self).fragile == old(self).fragile,
    {
        let ghost g0 = *types;
        proof {
            g0.lemma_grows_refl();
            assert(g0.recs_kept(&g0));
        }
        let mut i: usize = 0;
        while i < self.needs.len()
            invariant
                0 <= i <= self.needs@.len(),
                self.wf(types),
                *types == g0,
                g0 == *old(types),
                *self == *old(self),
                g0.grows_to(types),
                        g0.recs_kept(types),
                g0.knots_kept(types),
                types.wf(),
            decreases self.needs@.len() - i,
        {
            if same_text(self.needs[i].0.as_str(), label) && self.needs[i].1 == t {
                return self.needs[i].2;
            }
            i = i + 1;
        }
        let r = types.rec(Vec::new());
        types.bind(r, label, t);
        types.mark(r, site);
        let made = types.node(Type::Rec(r));
        self.needs.push((String::from_str(label), t, made));
        made
    }

    /// A record with its first void filled: the same fields, and the voids
    /// after the first. Made once per record and shared after, so that
    /// applying a recursive formation repeatedly stops.
    fn drop_void(&mut self, types: &mut Types, s: RecId) -> (rest: TypeId)
        requires
            old(types).wf(),
            old(self).wf(old(types)),
            old(types).rec_ok(s),
        ensures
            final(types).wf(),
            old(types).grows_to(final(types)),
            old(types).recs_kept(final(types)),
        old(types).knots_kept(final(types)),
            final(self).wf(final(types)),
            final(types).ty_ok(rest),
            final(self).level == old(self).level,
            final(self).fragile == old(self).fragile,
            final(types).spec_at(rest) matches Type::Rec(ns) && rest_voids(old(types).recs@[s.0 as int].voids@, final(
                types).recs@[ns.0 as int].voids@),
    {
        let ghost g0 = *types;
        proof {
            g0.lemma_grows_refl();
            assert(g0.recs_kept(&g0));
        }
        let mut i: usize = 0;
        while i < self.dropped.len()
            invariant
                0 <= i <= self.dropped@.len(),
                self.wf(types),
                *types == g0,
                g0 == *old(types),
                *self == *old(self),
                g0.grows_to(types),
                        g0.recs_kept(types),
                g0.knots_kept(types),
                types.wf(),
            decreases self.dropped@.len() - i,
        {
            if self.dropped[i].0 == s {
                proof {
                    assert(self.wf(types));
                }
                return self.dropped[i].1;
            }
            i = i + 1;
        }
        assert(types.record_ok(types.recs@[s.0 as int]));
        let fields = copy_fields(types.fields(s));
        let all = types.voids(s);
        let mut voids: Vec<String> = Vec::new();
        let mut k: usize = 1;
        while k < all.len()
            invariant
                1 <= k,
                all@ == g0.recs@[s.0 as int].voids@,
                all@.len() > 0 ==> k <= all@.len() && voids@.len() == k - 1 && forall|m: int|
                    0 <= m < voids@.len() ==> #[trigger] voids@[m]@ == all@[m + 1]@,
                all@.len() == 0 ==> voids@.len() == 0,
                decreases all@.len() - k,
        {
            voids.push(all[k].clone());
            k = k + 1;
        }
        let defined = types.defined_at(s);
        let site = types.site_of(s);
        let ns = types.rec(voids);
        types.restamp(ns, defined, site);
        let mut j: usize = 0;
        while j < fields.len()
            invariant
                types.wf(),
                g0.grows_to(types),
                        g0.recs_kept(types),
                g0.knots_kept(types),
                g0 == *old(types),
                self.wf(types),
                *self == *old(self),
                types.rec_ok(ns),
                ns.0 >= g0.recs@.len(),
                0 <= j <= fields@.len(),
                types.recs@[ns.0 as int].voids@ == voids@,
                forall|m: int| 0 <= m < fields@.len() ==> types.ty_ok(#[trigger] fields@[m].1),
            decreases fields@.len() - j,
        {
            types.bind(ns, fields[j].0.as_str(), fields[j].1);
            j = j + 1;
        }
        let made = types.node(Type::Rec(ns));
        let ghost before_push = *self;
        self.dropped.push((s, made));
        proof {
            assert(types.recs@[s.0 as int] == g0.recs@[s.0 as int]);
            assert(rest_voids(types.recs@[s.0 as int].voids@, types.recs@[ns.0 as int].voids@));
            assert forall|i: int| 0 <= i < self.dropped@.len() implies types.rec_ok((#[trigger] self.dropped@[i]).0)
                && types.ty_ok(self.dropped@[i].1) && (types.spec_at(self.dropped@[i].1) matches Type::Rec(ns2)
                && types.rec_ok(ns2) && rest_voids(types.recs@[self.dropped@[i].0.0 as int].voids@, types.recs@[ns2.0 as int].voids@)) by {
                if i < self.dropped@.len() - 1 {
                    assert(self.dropped@[i] == before_push.dropped@[i]);
                }
            }
        }
        made
    }

    /// A fresh instance of a type: every unknown deeper than `limit` copied to
    /// a fresh one at the current level, so each use of a generalized
    /// formation gets its own parameters while what it shares with its
    /// context stays shared. A named type, such as a built-in, and a type no
    /// deeper than the limit are shared rather than copied.
    pub fn freshen(&self, types: &mut Types, limit: Level, t: TypeId) -> (copy: TypeId)
        requires
            old(types).wf(),
            self.wf(old(types)),
            old(types).ty_ok(t),
        ensures
            final(types).wf(),
            old(types).grows_to(final(types)),
            old(types).recs_kept(final(types)),
        old(types).knots_kept(final(types)),
            self.wf(final(types)),
            final(types).ty_ok(copy),
            old(types).aliases@[t.0 as int] is Some ==> copy == t,
            level_of(*old(types), t, DEPTH as nat) <= limit.0 ==> copy == t,
    {
        let mut vars: Vec<(VarId, TypeId)> = Vec::new();
        let mut recs: Vec<(RecId, RecId)> = Vec::new();
        let mut fuel: u64 = BUDGET;
        fresh_type(types, limit, self.level, t, &mut vars, &mut recs, &mut fuel)
    }

    /// Require that `lhs` be usable as `rhs`.
    ///
    /// # Errors
    ///
    /// A [`Clash`] when it cannot be, or when the request runs past
    /// [`BUDGET`] steps.
    pub fn constrain(&mut self, types: &mut Types, lhs: TypeId, rhs: TypeId) -> (r: Result<(), Clash>)
        requires
            old(types).wf(),
            old(self).wf(old(types)),
            old(types).ty_ok(lhs),
            old(types).ty_ok(rhs),
        ensures
            final(types).wf(),
            old(types).grows_to(final(types)),
            old(types).recs_kept(final(types)),
        old(types).knots_kept(final(types)),
            final(self).wf(final(types)),
            final(self).level == old(self).level,
            final(self).fragile == old(self).fragile,
            settles(*old(types), *final(types), lhs, rhs, r),
            settles_parts(*old(types), lhs, rhs, r),
            parts_alike(*old(types), lhs, rhs, r),
            lands(*old(types), *final(types), lhs, rhs, r),
            lands_through(*old(types), lhs, rhs) ==> r is Ok,
            fills_first(*old(types), *final(types), lhs, rhs, r),
            fits_within(*old(types), lhs, rhs, BUDGET as nat) ==> r is Ok,
            !(r matches Err(Clash::Unbound { .. })),
    {
        let mut seen: Vec<(TypeId, TypeId)> = Vec::new();
        let mut fuel: u64 = BUDGET;
        self.go(types, lhs, rhs, &mut seen, &mut fuel)
    }

    /// One step of constraining, remembering the pairs already under way so a
    /// cycle through the bounds stops.
    fn go(
        &mut self,
        types: &mut Types,
        lhs: TypeId,
        rhs: TypeId,
        seen: &mut Vec<(TypeId, TypeId)>,
        fuel: &mut u64,
    ) -> (r: Result<(), Clash>)
        requires
            old(types).wf(),
            old(self).wf(old(types)),
            old(types).ty_ok(lhs),
            old(types).ty_ok(rhs),
        ensures
            final(types).wf(),
            old(types).grows_to(final(types)),
            old(types).recs_kept(final(types)),
        old(types).knots_kept(final(types)),
            final(self).wf(final(types)),
            final(self).level == old(self).level,
            final(self).fragile == old(self).fragile,
            *final(fuel) <= *old(fuel),
            *old(fuel) > 0 && !old(seen)@.contains((lhs, rhs)) ==> settles(*old(types), *final(types), lhs, rhs, r),
            *old(fuel) == 0 ==> r is Err,
            old(seen)@.len() == 0 ==> settles_parts(*old(types), lhs, rhs, r),
            *old(fuel) > 2 ==> parts_alike(*old(types), lhs, rhs, r),
            *old(fuel) > 1 && old(seen)@.len() == 0 ==> fills_first(*old(types), *final(types), lhs, rhs, r),
            *old(fuel) > 0 && !old(seen)@.contains((lhs, rhs)) ==> lands(*old(types), *final(types), lhs, rhs, r),
            *old(fuel) > 1 && old(seen)@.len() == 0 && lands_through(*old(types), lhs, rhs) ==> r is Ok,
            lhs == rhs && *old(fuel) > 0 ==> r is Ok && *final(fuel) == *old(fuel) - 1 && *final(types) == *old(types),
            old(seen)@.len() == 0 && fits_within(*old(types), lhs, rhs, *old(fuel) as nat) ==> r is Ok,
            !(r matches Err(Clash::Unbound { .. })),
        decreases *old(fuel),
    {
        let ghost g0 = *types;
        let ghost s0 = seen@;
        proof {
            g0.lemma_grows_refl();
            assert(g0.recs_kept(&g0));
        }
        if *fuel == 0 {
            return Err(Clash::Exhausted);
        }
        *fuel = *fuel - 1;
        let ghost f0 = *fuel;
        if lhs == rhs {
            return Ok(());
        }
        let mut k: usize = 0;
        while k < seen.len()
            invariant
                0 <= k <= seen@.len(),
                *types == g0,
                g0 == *old(types),
                *self == *old(self),
                g0.grows_to(types),
                        g0.recs_kept(types),
                g0.knots_kept(types),
                types.wf(),
                self.wf(types),
                *fuel == f0,
                f0 < *old(fuel),
                lhs != rhs,
                seen@ == s0,
                s0 == old(seen)@,
            decreases seen@.len() - k,
        {
            if seen[k].0 == lhs && seen[k].1 == rhs {
                proof {
                    assert(s0[k as int] == (lhs, rhs));
                }
                return Ok(());
            }
            k = k + 1;
        }
        seen.push((lhs, rhs));
        proof {
            if s0.len() == 0 {
                assert(seen@ =~= seq![(lhs, rhs)]);
            }
        }
        let ghost lt = g0.spec_at(lhs);
        let ghost rt = g0.spec_at(rhs);
        assert(types.type_ok(types.nodes@[lhs.0 as int]));
        assert(types.type_ok(types.nodes@[rhs.0 as int]));
        match (types.at(lhs), types.at(rhs)) {
            (Type::Var(v), _) => {
                let lv = types.level(v);
                if level_of_exec(types, rhs, DEPTH) <= lv.0 {
                    types.push_upper(v, rhs);
                    let ghost gp = *types;
                    proof {
                        gp.lemma_grows_refl();
                        assert(gp.spec_upper(v)[gp.spec_upper(v).len() - 1] == rhs);
                    }
                    let n = types.lower(v).len();
                    let mut i: usize = 0;
                    while i < n
                        invariant
                            types.wf(),
                            g0.grows_to(types),
                        g0.recs_kept(types),
                g0.knots_kept(types),
                            gp.grows_to(types),
                            gp.spec_upper(v).contains(rhs),
                            g0 == *old(types),
                            self.wf(types),
                            self.level == old(self).level,
                            self.fragile == old(self).fragile,
                            lhs != rhs,
                            g0.spec_at(lhs) == lt,
                            g0.spec_at(rhs) == rt,
                            lt == Type::Var(v) || rt == Type::Var(v),
                            types.var_ok(v),
                            types.ty_ok(rhs),
                            0 <= i <= n,
                            n <= types.spec_lower(v).len(),
                            n == 0 ==> *types == gp,
                            n == gp.spec_lower(v).len(),
                            gp.spec_lower(v) == g0.spec_lower(v),
                            lt == Type::Var(v),
                            i == 0 ==> *types == gp && *fuel == f0 && seen@ == s0.push((lhs, rhs)),
                            g0.wf(),
                            g0.ty_ok(rhs),
                            g0.ty_ok(lhs),
                            gp.vars@.len() == g0.vars@.len(),
                            forall|m: int| 0 <= m < g0.vars@.len() && m != v.0 ==> #[trigger] gp.vars@[m] == g0.vars@[m],
                            gp.nodes@ == g0.nodes@,
                            gp.recs@ == g0.recs@,
                            s0 == old(seen)@,
                            f0 == *old(fuel) - 1,
                            *fuel <= f0,
                            f0 < *old(fuel),
                        decreases n - i,
                    {
                        let ghost g1 = *types;
                        let l = types.lower(v)[i];
                        assert(types.unknown_ok(types.vars@[v.0 as int]));
                        assert(types.ty_ok(types.spec_lower(v)[i as int]));
                        proof {
                            if i == 0 && s0.len() == 0 && f0 > 0 && lands_through(g0, lhs, rhs) {
                                let w = g0.spec_at(rhs)->Var_0;
                                assert(g0.type_ok(g0.nodes@[rhs.0 as int]));
                                assert(gp.vars@[w.0 as int] == g0.vars@[w.0 as int]);
                                assert(g0.ty_ok(l));
                                lemma_level_kept(g0, gp, l, DEPTH as nat);
                                assert(lands_below(gp, l, rhs));
                                assert(!seen@.contains((l, rhs))) by {
                                    if seen@.contains((l, rhs)) {
                                        assert(seen@[0] == (l, rhs));
                                    }
                                }
                            }
                        }
                        self.go(types, l, rhs, seen, fuel)?;
                        proof {
                            assert(prefix(g1.spec_lower(v), types.spec_lower(v)));
                        }
                        i = i + 1;
                    }
                    proof {
                        lemma_prefix_contains(gp.spec_upper(v), types.spec_upper(v), rhs);
                    }
                    Ok(())
                } else {
                    let mut memo: Vec<(VarId, bool, TypeId)> = Vec::new();
                    let lowered = extrude(types, rhs, false, lv, &mut memo, fuel)?;
                    self.go(types, lhs, lowered, seen, fuel)
                }
            },
            (_, Type::Var(v)) => {
                let lv = types.level(v);
                if level_of_exec(types, lhs, DEPTH) <= lv.0 {
                    types.push_lower(v, lhs);
                    let ghost gp = *types;
                    proof {
                        gp.lemma_grows_refl();
                        assert(gp.spec_lower(v)[gp.spec_lower(v).len() - 1] == lhs);
                    }
                    let n = types.upper(v).len();
                    let mut i: usize = 0;
                    while i < n
                        invariant
                            types.wf(),
                            g0.grows_to(types),
                        g0.recs_kept(types),
                g0.knots_kept(types),
                            gp.grows_to(types),
                            gp.spec_lower(v).contains(lhs),
                            g0 == *old(types),
                            self.wf(types),
                            self.level == old(self).level,
                            self.fragile == old(self).fragile,
                            lhs != rhs,
                            g0.spec_at(lhs) == lt,
                            g0.spec_at(rhs) == rt,
                            lt == Type::Var(v) || rt == Type::Var(v),
                            types.var_ok(v),
                            types.ty_ok(lhs),
                            0 <= i <= n,
                            n <= types.spec_upper(v).len(),
                            n == 0 ==> *types == gp,
                            n == gp.spec_upper(v).len(),
                            gp.spec_upper(v) == g0.spec_upper(v),
                            rt == Type::Var(v),
                            !(lt is Var),
                            *fuel <= f0,
                            f0 < *old(fuel),
                        decreases n - i,
                    {
                        let ghost g1 = *types;
                        let u = types.upper(v)[i];
                        assert(types.unknown_ok(types.vars@[v.0 as int]));
                        assert(types.ty_ok(types.spec_upper(v)[i as int]));
                        self.go(types, lhs, u, seen, fuel)?;
                        proof {
                            assert(prefix(g1.spec_upper(v), types.spec_upper(v)));
                        }
                        i = i + 1;
                    }
                    proof {
                        lemma_prefix_contains(gp.spec_lower(v), types.spec_lower(v), lhs);
                    }
                    Ok(())
                } else {
                    let mut memo: Vec<(VarId, bool, TypeId)> = Vec::new();
                    let raised = extrude(types, lhs, true, lv, &mut memo, fuel)?;
                    self.go(types, raised, rhs, seen, fuel)
                }
            },
            (Type::Opt(a), Type::Opt(b)) => {
                proof {
                    if s0.len() == 0 && refused_at_once(g0, a, b) {
                        assert(!seen@.contains((a, b))) by {
                            if seen@.contains((a, b)) {
                                assert(seen@[0] == (a, b));
                            }
                        }
                    }
                }
                self.go(types, a, b, seen, fuel)
            },
            (_, Type::Opt(b)) => {
                proof {
                    if s0.len() == 0 && refused_at_once(g0, lhs, b) {
                        assert(!seen@.contains((lhs, b))) by {
                            if seen@.contains((lhs, b)) {
                                assert(seen@[0] == (lhs, b));
                            }
                        }
                    }
                }
                self.go(types, lhs, b, seen, fuel)
            },
            (Type::Opt(_), _) => Err(Clash::NotRecovered { value: lhs }),
            (Type::Fun { arg: a1, res: r1 }, Type::Fun { arg: a2, res: r2 }) => {
                proof {
                    if s0.len() == 0 && refused_at_once(g0, a2, a1) {
                        assert(!seen@.contains((a2, a1))) by {
                            if seen@.contains((a2, a1)) {
                                assert(seen@[0] == (a2, a1));
                            }
                        }
                    }
                }
                self.go(types, a2, a1, seen, fuel)?;
                self.go(types, r1, r2, seen, fuel)
            },
            (Type::Rec(s1), Type::Rec(s2)) => {
                assert(types.record_ok(types.recs@[s2.0 as int]));
                let wanted = copy_fields(types.fields(s2));
                let ghost missing: int = wanted@.len() as int;
                proof {
                    if lacks(g0, s1, s2) {
                        let l = choose|l: Seq<char>| #[trigger] g0.spec_field(s2, l) is Some && g0.spec_field(s1, l) is None;
                        lemma_lookup_found(g0.recs@[s2.0 as int].fields@, l);
                        missing = choose|j: int| 0 <= j < wanted@.len() && wanted@[j].0@ == l && wanted@[j].1 == lookup(g0.recs@[s2.0 as int].fields@, l)->0;
                    }
                }
                let mut i: usize = 0;
                while i < wanted.len()
                    invariant
                        types.wf(),
                        g0.grows_to(types),
                        g0.recs_kept(types),
                g0.knots_kept(types),
                        g0 == *old(types),
                        self.wf(types),
                        self.level == old(self).level,
                        self.fragile == old(self).fragile,
                        lhs != rhs,
                        g0.spec_at(lhs) == lt,
                        g0.spec_at(rhs) == rt,
                        lt == Type::Rec(s1),
                        rt == Type::Rec(s2),
                        types.rec_ok(s1),
                        types.rec_ok(s2),
                        types.ty_ok(lhs),
                        0 <= i <= wanted@.len(),
                        lacks(g0, s1, s2) ==> i <= missing < wanted@.len() && g0.spec_field(s1, wanted@[missing].0@) is None,
                        types.recs@[s1.0 as int] == g0.recs@[s1.0 as int],
                        wanted@ == g0.recs@[s2.0 as int].fields@,
                        s0 == old(seen)@,
                        f0 == *old(fuel) - 1,
                        s0.len() == 0 && fits(g0, s1, s2) && wanted@.len() < *old(fuel) ==> *fuel == f0 - i,
                        forall|m: int| 0 <= m < wanted@.len() ==> types.ty_ok(#[trigger] wanted@[m].1),
                        *fuel <= f0,
                        f0 < *old(fuel),
                    decreases wanted@.len() - i,
                {
                    let label = wanted[i].0.as_str();
                    let ghost before = *types;
                    assert(wanted@[i as int] == g0.recs@[s2.0 as int].fields@[i as int]);
                    match types.field(s1, label) {
                        Some(t1) => {
                            self.go(types, t1, wanted[i].1, seen, fuel)?;
                            proof {
                                assert(types.recs@[s1.0 as int] == before.recs@[s1.0 as int]);
                            }
                        },
                        None => match types.field(s1, "@") {
                            Some(d) => {
                                let site = match types.site_of(s2) {
                                    Some(site) => site,
                                    None => Site::default(),
                                };
                                let req = self.need(types, label, wanted[i].1, site);
                                let ghost middle = *types;
                                self.go(types, d, req, seen, fuel)?;
                                proof {
                                    assert(middle.recs@[s1.0 as int] == before.recs@[s1.0 as int]);
                                    assert(types.recs@[s1.0 as int] == middle.recs@[s1.0 as int]);
                                }
                            },
                            None => {
                                let site = match types.site_of(s2) {
                                    Some(site) => site,
                                    None => Site::default(),
                                };
                                return Err(
                                    Clash::UnknownAttribute {
                                        attribute: wanted[i].0.clone(),
                                        receiver: lhs,
                                        site,
                                    },
                                );
                            },
                        },
                    }
                    i = i + 1;
                }
                Ok(())
            },
            (Type::Rec(s1), Type::Fun { arg, res }) => {
                if types.voids(s1).len() > 0 {
                    let first = types.voids(s1)[0].clone();
                    let ghost ga = *types;
                    let ghost filled: Option<TypeId> = None;
                    match types.field(s1, first.as_str()) {
                        Some(slot) => {
                            proof {
                                assert(first_slot(g0, s1) == Some(slot));
                                assert(types.ty_ok(slot));
                                if s0.len() == 0 && (arg, slot) != (lhs, rhs) {
                                    assert(!seen@.contains((arg, slot))) by {
                                        if seen@.contains((arg, slot)) {
                                            assert(seen@[0] == (arg, slot));
                                        }
                                    }
                                }
                                if s0.len() == 0 && refused_at_once(g0, arg, slot) {
                                    assert(!seen@.contains((arg, slot))) by {
                                        if seen@.contains((arg, slot)) {
                                            assert(seen@[0] == (arg, slot));
                                        }
                                    }
                                }
                            }
                            self.go(types, arg, slot, seen, fuel)?;
                            proof {
                                if s0.len() == 0 && f0 > 0 && (arg, slot) != (lhs, rhs) {
                                    lemma_settled_bound(ga, *types, arg, slot);
                                }
                                filled = Some(slot);
                            }
                        },
                        None => {},
                    }
                    let ghost gb = *types;
                    let rest = self.drop_void(types, s1);
                    let done = self.go(types, rest, res, seen, fuel);
                    proof {
                        if done is Ok && filled is Some && s0.len() == 0 && f0 > 0 && (arg, filled->0) != (lhs, rhs) {
                            assert(gb.ty_ok(arg) && gb.ty_ok(filled->0));
                            lemma_bound_kept(gb, *types, arg, filled->0);
                        }
                    }
                    done
                } else {
                    match types.field(s1, "@") {
                        Some(d) => self.go(types, d, rhs, seen, fuel),
                        None => Err(Clash::NotApplicable { receiver: lhs }),
                    }
                }
            },
            (Type::Fun { .. }, Type::Rec(s2)) => {
                let wanted = types.fields(s2);
                if wanted.len() == 0 {
                    Ok(())
                } else {
                    let site = match types.site_of(s2) {
                        Some(site) => site,
                        None => Site::default(),
                    };
                    Err(
                        Clash::UnknownAttribute {
                            attribute: wanted[0].0.clone(),
                            receiver: lhs,
                            site,
                        },
                    )
                }
            },
        }
    }
}

} // verus!
