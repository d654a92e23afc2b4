//! The type vocabulary.
//!
//! A type is a shape, not a name. An unknown carries an MLsub level and the
//! bounds that flow through it, `bytes` is the single base type, a record holds
//! its fields and its ordered voids, and an option is a value that may be `⊥`.
//!
//! Every type lives in one arena, [`Types`], and is named by its index. The
//! arena only ever grows: a type once made keeps its meaning, and the bounds of
//! an unknown only ever gain entries at their end.

use vstd::prelude::*;

use crate::infer::Engine;

verus! {

/// An MLsub level: how deeply nested the formation is at which an unknown was
/// made. The outermost level is zero.
#[derive(Clone, Copy, Debug, PartialEq, Eq, Structural)]
pub struct Level(pub u64);

impl Default for Level {
    fn default() -> (level: Self)
        ensures
            level.0 == 0,
    {
        Level(0)
    }
}

impl Level {
    /// One level further in, saturating at the deepest.
    pub open spec fn deeper_spec(self) -> Level {
        Level(if self.0 < u64::MAX { (self.0 + 1) as u64 } else { self.0 })
    }

    /// One level further in. The count saturates at its maximum rather than
    /// wrapping round to the outermost level.
    pub fn deeper(self) -> (level: Level)
        ensures
            level == self.deeper_spec(),
    {
        Level(self.0.saturating_add(1))
    }
}

/// A type, by its index in the arena.
#[derive(Clone, Copy, Debug, PartialEq, Eq, Structural)]
pub struct TypeId(pub usize);

/// An unknown, by its index in the arena.
#[derive(Clone, Copy, Debug, PartialEq, Eq, Structural)]
pub struct VarId(pub usize);

/// A record, by its index in the arena.
#[derive(Clone, Copy, Debug, PartialEq, Eq, Structural)]
pub struct RecId(pub usize);

/// One type.
#[derive(Clone, Copy, Debug, PartialEq, Eq, Structural)]
pub enum Type {
    /// An unknown, known only by its bounds.
    Var(VarId),
    /// A shape: fields, and the voids still to fill.
    Rec(RecId),
    /// A function from one type to another.
    Fun {
        /// What it takes.
        arg: TypeId,
        /// What it gives.
        res: TypeId,
    },
    /// A value that may be `⊥`.
    Opt(TypeId),
}

/// A place in a source file.
#[derive(Clone, Copy, Debug, PartialEq, Eq, Structural)]
pub struct Spot {
    /// The line.
    pub line: usize,
    /// The position on the line.
    pub pos: usize,
}

/// Where something was written: a place in the file, and the object's locator.
#[derive(Clone, Debug)]
pub struct Site {
    /// The place, when the element says where it is.
    pub at: Option<Spot>,
    /// The `@loc` of the element, when it has one.
    pub loc: Option<String>,
}

impl Default for Site {
    fn default() -> (site: Self)
        ensures
            site.at is None,
            site.loc is None,
    {
        Site { at: None, loc: None }
    }
}

/// A copy of an optional string, known to hold the same text.
pub fn copy_text(text: &Option<String>) -> (copy: Option<String>)
    ensures
        copy == *text,
{
    match text {
        Some(t) => Some(t.clone()),
        None => None,
    }
}

impl Site {
    /// A copy of this site, known to be equal to it.
    pub fn duplicate(&self) -> (copy: Site)
        ensures
            copy == *self,
    {
        Site { at: self.at, loc: copy_text(&self.loc) }
    }
}

/// Everything known of one unknown.
#[derive(Debug)]
pub struct Unknown {
    /// The level it was made at.
    pub level: Level,
    /// What flows into it, in the order it was learned.
    pub lower: Vec<TypeId>,
    /// What it flows out to, in the order it was learned.
    pub upper: Vec<TypeId>,
    /// The record it is the recursion knot of, when it stands for a formation
    /// being defined.
    pub knot: Option<RecId>,
}

/// Everything known of one record.
#[derive(Debug)]
pub struct Record {
    /// Its attributes, by name.
    pub fields: Vec<(String, TypeId)>,
    /// Its voids, in application order.
    pub voids: Vec<String>,
    /// The level it was defined at, when it is a formation.
    pub defined: Option<Level>,
    /// Where a requirement was written, when it is one.
    pub site: Option<Site>,
}

/// The arena every type lives in.
#[derive(Debug)]
pub struct Types {
    /// Every type, by index.
    pub nodes: Vec<Type>,
    /// The name a type prints by, per type.
    pub aliases: Vec<Option<String>>,
    /// Every unknown, by index.
    pub vars: Vec<Unknown>,
    /// Every record, by index.
    pub recs: Vec<Record>,
}

/// The type a label has among some fields: the first field of that name.
pub open spec fn lookup(fields: Seq<(String, TypeId)>, label: Seq<char>) -> Option<TypeId>
    decreases fields.len(),
{
    if fields.len() == 0 {
        None
    } else if fields[0].0@ == label {
        Some(fields[0].1)
    } else {
        lookup(fields.drop_first(), label)
    }
}

impl Engine {
    /// `later` is this engine after some inference: the arena only grew, the
    /// level, the fragility, the forgiveness, the resolutions under way and the
    /// formations being defined are as they were, what was resolved is still
    /// resolved the same way, and a strict engine counted nothing.
    pub open spec fn keeps(&self, later: &Engine) -> bool {
        &&& self.types.grows_to(&later.types)
        &&& later.solver.level == self.solver.level
        &&& later.solver.fragile == self.solver.fragile
        &&& later.leniency.lenient == self.leniency.lenient
        &&& later.locs.underway@ == self.locs.underway@
        &&& later.locs.toplevel@ == self.locs.toplevel@
        &&& prefix(self.locs.resolved@, later.locs.resolved@)
        &&& later.defining@ == self.defining@
        &&& !self.leniency.lenient ==> later.leniency.unmodelled@ == self.leniency.unmodelled@
    }

    /// Keeping is reflexive.
    pub proof fn lemma_keeps_refl(&self)
        ensures
            self.keeps(self),
    {
        self.types.lemma_grows_refl();
        assert(self.locs.resolved@.subrange(0, self.locs.resolved@.len() as int) =~= self.locs.resolved@);
    }

}

/// Keeping is transitive.
pub broadcast proof fn lemma_keeps_trans(a: &Engine, b: &Engine, c: &Engine)
    requires
        #[trigger] a.keeps(b),
        #[trigger] b.keeps(c),
    ensures
        a.keeps(c),
{
    Types::lemma_grows_trans(&a.types, &b.types, &c.types);
    let (ra, rb, rc) = (a.locs.resolved@, b.locs.resolved@, c.locs.resolved@);
    assert(rc.subrange(0, ra.len() as int) =~= ra) by {
        assert forall|k: int| 0 <= k < ra.len() implies rc[k] == ra[k] by {
            assert(rc.subrange(0, rb.len() as int)[k] == rc[k]);
            assert(rb.subrange(0, ra.len() as int)[k] == rb[k]);
        }
    }
}


/// Whether two string slices hold the same characters, compared one by one.
pub(crate) fn same_text(a: &str, b: &str) -> (same: bool)
    ensures
        same == (a@ == b@),
{
    let n = a.unicode_len();
    if n != b.unicode_len() {
        return false;
    }
    let mut i: usize = 0;
    while i < n
        invariant
            n == a@.len(),
            n == b@.len(),
            0 <= i <= n,
            forall|j: int| 0 <= j < i ==> a@[j] == b@[j],
        decreases n - i,
    {
        if a.get_char(i) != b.get_char(i) {
            return false;
        }
        i = i + 1;
    }
    assert(a@ =~= b@);
    true
}

/// The index of the first field of a label, or the number of fields when no
/// field has it.
pub fn first_named(fields: &Vec<(String, TypeId)>, label: &str) -> (i: usize)
    ensures
        i <= fields@.len(),
        i < fields@.len() ==> fields@[i as int].0@ == label@,
        forall|j: int| 0 <= j < i ==> fields@[j].0@ != label@,
{
    let mut i: usize = 0;
    while i < fields.len()
        invariant
            0 <= i <= fields@.len(),
            forall|j: int| 0 <= j < i ==> fields@[j].0@ != label@,
        decreases fields@.len() - i,
    {
        if same_text(fields[i].0.as_str(), label) {
            return i;
        }
        i = i + 1;
    }
    i
}

/// A copy of some fields, known to hold what they hold.
pub fn copy_fields(fields: &Vec<(String, TypeId)>) -> (copy: Vec<(String, TypeId)>)
    ensures
        copy@ == fields@,
{
    let mut copy: Vec<(String, TypeId)> = Vec::new();
    let mut i: usize = 0;
    while i < fields.len()
        invariant
            0 <= i <= fields@.len(),
            copy@ == fields@.subrange(0, i as int),
        decreases fields@.len() - i,
    {
        copy.push((fields[i].0.clone(), fields[i].1));
        i = i + 1;
    }
    assert(fields@.subrange(0, fields@.len() as int) =~= fields@);
    copy
}

/// A copy of some strings, known to hold what they hold.
pub fn copy_strings(texts: &Vec<String>) -> (copy: Vec<String>)
    ensures
        copy@ == texts@,
{
    let mut copy: Vec<String> = Vec::new();
    let mut i: usize = 0;
    while i < texts.len()
        invariant
            0 <= i <= texts@.len(),
            copy@ == texts@.subrange(0, i as int),
        decreases texts@.len() - i,
    {
        copy.push(texts[i].clone());
        i = i + 1;
    }
    assert(texts@.subrange(0, texts@.len() as int) =~= texts@);
    copy
}

/// Looking a label up finds the first field of that name.
pub proof fn lemma_lookup_first(fields: Seq<(String, TypeId)>, label: Seq<char>, i: int)
    requires
        0 <= i < fields.len(),
        fields[i].0@ == label,
        forall|j: int| 0 <= j < i ==> fields[j].0@ != label,
    ensures
        lookup(fields, label) == Some(fields[i].1),
    decreases i,
{
    if i > 0 {
        lemma_lookup_first(fields.drop_first(), label, i - 1);
    }
}

/// Looking a label up that no field has finds nothing.
pub proof fn lemma_lookup_none(fields: Seq<(String, TypeId)>, label: Seq<char>)
    requires
        forall|j: int| 0 <= j < fields.len() ==> fields[j].0@ != label,
    ensures
        lookup(fields, label) is None,
    decreases fields.len(),
{
    if fields.len() > 0 {
        lemma_lookup_none(fields.drop_first(), label);
    }
}

/// What a lookup finds is one of the fields.
pub proof fn lemma_lookup_found(fields: Seq<(String, TypeId)>, label: Seq<char>)
    requires
        lookup(fields, label) is Some,
    ensures
        exists|j: int| 0 <= j < fields.len() && fields[j].0@ == label && fields[j].1 == lookup(fields, label)->0,
    decreases fields.len(),
{
    if fields[0].0@ == label {
        assert(fields[0].1 == lookup(fields, label)->0);
    } else {
        lemma_lookup_found(fields.drop_first(), label);
        let j = choose|j: int| 0 <= j < fields.drop_first().len() && fields.drop_first()[j].0@ == label && fields.drop_first()[j].1 == lookup(fields.drop_first(), label)->0;
        assert(fields[j + 1] == fields.drop_first()[j]);
    }
}

/// Adding a field at the end changes only what its own label finds, and only
/// when no field had that label before.
pub proof fn lemma_lookup_push(fields: Seq<(String, TypeId)>, entry: (String, TypeId), label: Seq<char>)
    ensures
        lookup(fields.push(entry), label) == (if lookup(fields, label) is Some {
            lookup(fields, label)
        } else if entry.0@ == label {
            Some(entry.1)
        } else {
            None
        }),
    decreases fields.len(),
{
    if fields.len() > 0 {
        assert(fields.push(entry).drop_first() =~= fields.drop_first().push(entry));
        assert(fields.push(entry)[0] == fields[0]);
        lemma_lookup_push(fields.drop_first(), entry, label);
    } else {
        assert(fields.push(entry)[0] == entry);
        assert(fields.push(entry).drop_first().len() == 0);
        assert(lookup(fields.push(entry).drop_first(), label) is None);
        assert(lookup(fields, label) is None);
    }
}

/// Replacing the first field of a label changes what that label finds, and
/// nothing else.
pub proof fn lemma_lookup_update(fields: Seq<(String, TypeId)>, i: int, entry: (String, TypeId), label: Seq<char>)
    requires
        0 <= i < fields.len(),
        fields[i].0@ == entry.0@,
        forall|j: int| 0 <= j < i ==> fields[j].0@ != entry.0@,
    ensures
        lookup(fields.update(i, entry), label) == (if entry.0@ == label {
            Some(entry.1)
        } else {
            lookup(fields, label)
        }),
    decreases i,
{
    if i > 0 {
        assert(fields.update(i, entry).drop_first() =~= fields.drop_first().update(i - 1, entry));
        lemma_lookup_update(fields.drop_first(), i - 1, entry, label);
    } else {
        assert(fields.update(i, entry).drop_first() =~= fields.drop_first());
    }
}

/// Every list begins with itself.
pub broadcast proof fn lemma_prefix_refl<T>(s: Seq<T>)
    ensures
        #[trigger] prefix(s, s),
{
    assert(s.subrange(0, s.len() as int) =~= s);
}

/// Whether the first `n` entries of `longer` are `shorter`.
pub open spec fn prefix<T>(shorter: Seq<T>, longer: Seq<T>) -> bool {
    shorter.len() <= longer.len() && longer.subrange(0, shorter.len() as int) == shorter
}

impl Types {
    /// Whether a type index names a type of this arena.
    pub open spec fn ty_ok(&self, t: TypeId) -> bool {
        t.0 < self.nodes@.len()
    }

    /// Whether an unknown index names an unknown of this arena.
    pub open spec fn var_ok(&self, v: VarId) -> bool {
        v.0 < self.vars@.len()
    }

    /// Whether a record index names a record of this arena.
    pub open spec fn rec_ok(&self, r: RecId) -> bool {
        r.0 < self.recs@.len()
    }

    /// Whether every index a type holds is in the arena.
    pub open spec fn type_ok(&self, ty: Type) -> bool {
        match ty {
            Type::Var(v) => self.var_ok(v),
            Type::Rec(r) => self.rec_ok(r),
            Type::Fun { arg, res } => self.ty_ok(arg) && self.ty_ok(res),
            Type::Opt(t) => self.ty_ok(t),
        }
    }

    /// Whether every index a list of types holds is in the arena.
    pub open spec fn all_ok(&self, ts: Seq<TypeId>) -> bool {
        forall|j: int| 0 <= j < ts.len() ==> self.ty_ok(#[trigger] ts[j])
    }

    /// Whether every index an unknown holds is in the arena.
    pub open spec fn unknown_ok(&self, u: Unknown) -> bool {
        &&& self.all_ok(u.lower@)
        &&& self.all_ok(u.upper@)
        &&& (u.knot matches Some(r) ==> self.rec_ok(r))
    }

    /// Whether every index a record holds is in the arena.
    pub open spec fn record_ok(&self, r: Record) -> bool {
        forall|j: int| 0 <= j < r.fields@.len() ==> self.ty_ok(#[trigger] r.fields@[j].1)
    }

    /// The arena is consistent: one name slot per type, and every index that
    /// anything holds names something of the arena.
    pub open spec fn wf(&self) -> bool {
        &&& self.aliases@.len() == self.nodes@.len()
        &&& forall|i: int| 0 <= i < self.nodes@.len() ==> self.type_ok(#[trigger] self.nodes@[i])
        &&& forall|i: int| 0 <= i < self.vars@.len() ==> self.unknown_ok(#[trigger] self.vars@[i])
        &&& forall|i: int| 0 <= i < self.recs@.len() ==> self.record_ok(#[trigger] self.recs@[i])
    }

    /// The type at an index.
    pub open spec fn spec_at(&self, t: TypeId) -> Type {
        self.nodes@[t.0 as int]
    }

    /// The level of an unknown.
    pub open spec fn spec_level(&self, v: VarId) -> Level {
        self.vars@[v.0 as int].level
    }

    /// The lower bounds of an unknown.
    pub open spec fn spec_lower(&self, v: VarId) -> Seq<TypeId> {
        self.vars@[v.0 as int].lower@
    }

    /// The upper bounds of an unknown.
    pub open spec fn spec_upper(&self, v: VarId) -> Seq<TypeId> {
        self.vars@[v.0 as int].upper@
    }

    /// The type of an attribute of a record.
    pub open spec fn spec_field(&self, r: RecId, label: Seq<char>) -> Option<TypeId> {
        lookup(self.recs@[r.0 as int].fields@, label)
    }

    /// `later` is this arena grown: everything here is still there with the same
    /// meaning and the same level, and every bound list only gained entries at
    /// its end.
    pub open spec fn grows_to(&self, later: &Types) -> bool {
        &&& prefix(self.nodes@, later.nodes@)
        &&& self.vars@.len() <= later.vars@.len()
        &&& self.recs@.len() <= later.recs@.len()
        &&& forall|i: int|
            0 <= i < self.vars@.len() ==> {
                &&& (#[trigger] later.vars@[i]).level == self.vars@[i].level
                &&& prefix(self.vars@[i].lower@, later.vars@[i].lower@)
                &&& prefix(self.vars@[i].upper@, later.vars@[i].upper@)
            }
    }

    /// `later` holds every record of this arena unchanged.
    pub open spec fn recs_kept(&self, later: &Types) -> bool {
        &&& self.recs@.len() <= later.recs@.len()
        &&& forall|k: int| 0 <= k < self.recs@.len() ==> #[trigger] later.recs@[k] == self.recs@[k]
    }

    /// Keeping records is transitive.
    pub broadcast proof fn lemma_recs_kept_trans(a: &Types, b: &Types, c: &Types)
        requires
            #[trigger] a.recs_kept(b),
            #[trigger] b.recs_kept(c),
        ensures
            a.recs_kept(c),
    {
    }

    /// `later` ties every unknown of this arena to the record it was tied to
    /// here, or to none when it was tied to none.
    pub open spec fn knots_kept(&self, later: &Types) -> bool {
        &&& self.vars@.len() <= later.vars@.len()
        &&& forall|k: int| 0 <= k < self.vars@.len() ==> (#[trigger] later.vars@[k]).knot == self.vars@[k].knot
    }

    /// Keeping knots is transitive.
    pub broadcast proof fn lemma_knots_kept_trans(a: &Types, b: &Types, c: &Types)
        requires
            #[trigger] a.knots_kept(b),
            #[trigger] b.knots_kept(c),
        ensures
            a.knots_kept(c),
    {
    }

    /// Growing is reflexive.
    pub proof fn lemma_grows_refl(&self)
        ensures
            self.grows_to(self),
    {
        assert(self.nodes@.subrange(0, self.nodes@.len() as int) =~= self.nodes@);
        assert forall|i: int| 0 <= i < self.vars@.len() implies {
            &&& (#[trigger] self.vars@[i]).level == self.vars@[i].level
            &&& prefix(self.vars@[i].lower@, self.vars@[i].lower@)
            &&& prefix(self.vars@[i].upper@, self.vars@[i].upper@)
        } by {
            assert(self.vars@[i].lower@.subrange(0, self.vars@[i].lower@.len() as int)
                =~= self.vars@[i].lower@);
            assert(self.vars@[i].upper@.subrange(0, self.vars@[i].upper@.len() as int)
                =~= self.vars@[i].upper@);
        }
    }

    /// Growing is transitive.
    pub broadcast proof fn lemma_grows_trans(a: &Types, b: &Types, c: &Types)
        requires
            #[trigger] a.grows_to(b),
            #[trigger] b.grows_to(c),
        ensures
            a.grows_to(c),
    {
        assert(c.nodes@.subrange(0, a.nodes@.len() as int) =~= a.nodes@) by {
            assert(c.nodes@.subrange(0, b.nodes@.len() as int) == b.nodes@);
            assert forall|k: int| 0 <= k < a.nodes@.len() implies c.nodes@[k] == a.nodes@[k] by {
                assert(c.nodes@.subrange(0, b.nodes@.len() as int)[k] == c.nodes@[k]);
                assert(b.nodes@.subrange(0, a.nodes@.len() as int)[k] == b.nodes@[k]);
            }
        }
        assert forall|i: int| 0 <= i < a.vars@.len() implies {
            &&& (#[trigger] c.vars@[i]).level == a.vars@[i].level
            &&& prefix(a.vars@[i].lower@, c.vars@[i].lower@)
            &&& prefix(a.vars@[i].upper@, c.vars@[i].upper@)
        } by {
            let (al, bl, cl) = (a.vars@[i].lower@, b.vars@[i].lower@, c.vars@[i].lower@);
            let (au, bu, cu) = (a.vars@[i].upper@, b.vars@[i].upper@, c.vars@[i].upper@);
            assert(b.vars@[i] == b.vars@[i]);
            assert(prefix(al, bl) && prefix(bl, cl));
            assert(cl.subrange(0, al.len() as int) =~= al) by {
                assert forall|k: int| 0 <= k < al.len() implies cl[k] == al[k] by {
                    assert(cl.subrange(0, bl.len() as int)[k] == cl[k]);
                    assert(bl.subrange(0, al.len() as int)[k] == bl[k]);
                }
            }
            assert(prefix(au, bu) && prefix(bu, cu));
            assert(cu.subrange(0, au.len() as int) =~= au) by {
                assert forall|k: int| 0 <= k < au.len() implies cu[k] == au[k] by {
                    assert(cu.subrange(0, bu.len() as int)[k] == cu[k]);
                    assert(bu.subrange(0, au.len() as int)[k] == bu[k]);
                }
            }
        }
    }

    /// Whatever names something of an arena still names it once the arena grew.
    pub proof fn lemma_grows_keeps(&self, later: &Types, t: TypeId)
        requires
            self.grows_to(later),
            self.ty_ok(t),
        ensures
            later.ty_ok(t),
            later.spec_at(t) == self.spec_at(t),
    {
        assert(later.nodes@.subrange(0, self.nodes@.len() as int)[t.0 as int] == later.nodes@[t.0 as int]);
    }

    /// An empty arena.
    pub fn new() -> (types: Types)
        ensures
            types.wf(),
            types.nodes@.len() == 0,
            types.vars@.len() == 0,
            types.recs@.len() == 0,
    {
        Types { nodes: Vec::new(), aliases: Vec::new(), vars: Vec::new(), recs: Vec::new() }
    }

    /// How many types there are.
    pub fn len(&self) -> (n: usize)
        ensures
            n == self.nodes@.len(),
    {
        self.nodes.len()
    }

    /// The type at an index.
    pub fn at(&self, t: TypeId) -> (ty: Type)
        requires
            self.ty_ok(t),
        ensures
            ty == self.spec_at(t),
    {
        self.nodes[t.0]
    }

    /// A new unknown at a level, with no bounds and no knot.
    pub fn var(&mut self, level: Level) -> (v: VarId)
        requires
            old(self).wf(),
        ensures
            final(self).wf(),
            old(self).grows_to(final(self)),
            old(self).knots_kept(final(self)),
            final(self).nodes@ == old(self).nodes@,
            final(self).aliases@ == old(self).aliases@,
            final(self).recs@ == old(self).recs@,
            v.0 == old(self).vars@.len(),
            final(self).vars@ == old(self).vars@.push(
                Unknown { level, lower: final(self).vars@[v.0 as int].lower, upper: final(self).vars@[v.0 as int].upper, knot: None },
            ),
            final(self).vars@[v.0 as int].lower@.len() == 0,
            final(self).vars@[v.0 as int].upper@.len() == 0,
    {
        let v = VarId(self.vars.len());
        let ghost before = *self;
        self.vars.push(Unknown { level, lower: Vec::new(), upper: Vec::new(), knot: None });
        proof {
            before.lemma_grows_refl();
            assert forall|i: int| 0 <= i < self.vars@.len() implies self.unknown_ok(#[trigger] self.vars@[i]) by {
                if i < before.vars@.len() {
                    assert(before.unknown_ok(before.vars@[i]));
                }
            }
            assert forall|i: int| 0 <= i < self.nodes@.len() implies self.type_ok(#[trigger] self.nodes@[i]) by {
                assert(before.type_ok(before.nodes@[i]));
            }
            assert forall|i: int| 0 <= i < self.recs@.len() implies self.record_ok(#[trigger] self.recs@[i]) by {
                assert(before.record_ok(before.recs@[i]));
            }
        }
        v
    }

    /// A new index for a type.
    pub fn node(&mut self, ty: Type) -> (t: TypeId)
        requires
            old(self).wf(),
            old(self).type_ok(ty),
        ensures
            final(self).wf(),
            old(self).grows_to(final(self)),
            old(self).knots_kept(final(self)),
            final(self).nodes@ == old(self).nodes@.push(ty),
            final(self).aliases@ == old(self).aliases@.push(None),
            final(self).vars@ == old(self).vars@,
            final(self).recs@ == old(self).recs@,
            t.0 == old(self).nodes@.len(),
    {
        let t = TypeId(self.nodes.len());
        let ghost before = *self;
        self.nodes.push(ty);
        self.aliases.push(None);
        proof {
            assert(self.nodes@.subrange(0, before.nodes@.len() as int) =~= before.nodes@);
            assert forall|i: int| 0 <= i < self.vars@.len() implies {
                &&& (#[trigger] self.vars@[i]).level == before.vars@[i].level
                &&& prefix(before.vars@[i].lower@, self.vars@[i].lower@)
                &&& prefix(before.vars@[i].upper@, self.vars@[i].upper@)
            } by {
                assert(self.vars@[i].lower@.subrange(0, self.vars@[i].lower@.len() as int) =~= self.vars@[i].lower@);
                assert(self.vars@[i].upper@.subrange(0, self.vars@[i].upper@.len() as int) =~= self.vars@[i].upper@);
            }
            assert forall|i: int| 0 <= i < self.vars@.len() implies self.unknown_ok(#[trigger] self.vars@[i]) by {
                assert(before.unknown_ok(before.vars@[i]));
            }
            assert forall|i: int| 0 <= i < self.nodes@.len() implies self.type_ok(#[trigger] self.nodes@[i]) by {
                if i < before.nodes@.len() {
                    assert(before.type_ok(before.nodes@[i]));
                }
            }
            assert forall|i: int| 0 <= i < self.recs@.len() implies self.record_ok(#[trigger] self.recs@[i]) by {
                assert(before.record_ok(before.recs@[i]));
            }
        }
        t
    }

    /// A new record with these voids, no fields yet, not defined anywhere and
    /// not marked.
    pub fn rec(&mut self, voids: Vec<String>) -> (r: RecId)
        requires
            old(self).wf(),
        ensures
            final(self).wf(),
            old(self).grows_to(final(self)),
            old(self).knots_kept(final(self)),
            final(self).nodes@ == old(self).nodes@,
            final(self).aliases@ == old(self).aliases@,
            final(self).vars@ == old(self).vars@,
            r.0 == old(self).recs@.len(),
            final(self).recs@.len() == old(self).recs@.len() + 1,
            forall|k: int| 0 <= k < old(self).recs@.len() ==> final(self).recs@[k] == old(self).recs@[k],
            final(self).recs@[r.0 as int].fields@.len() == 0,
            final(self).recs@[r.0 as int].voids@ == voids@,
            final(self).recs@[r.0 as int].defined is None,
            final(self).recs@[r.0 as int].site is None,
    {
        let r = RecId(self.recs.len());
        let ghost before = *self;
        self.recs.push(Record { fields: Vec::new(), voids, defined: None, site: None });
        proof {
            before.lemma_grows_refl();
            assert forall|k: int| 0 <= k < self.vars@.len() implies self.unknown_ok(#[trigger] self.vars@[k]) by {
                assert(before.unknown_ok(before.vars@[k]));
            }
            assert forall|k: int| 0 <= k < self.nodes@.len() implies self.type_ok(#[trigger] self.nodes@[k]) by {
                assert(before.type_ok(before.nodes@[k]));
            }
            assert forall|k: int| 0 <= k < self.recs@.len() implies self.record_ok(#[trigger] self.recs@[k]) by {
                if k < before.recs@.len() {
                    assert(before.record_ok(before.recs@[k]));
                }
            }
        }
        r
    }

    /// The attribute of a record: its first field of that name.
    pub fn field(&self, r: RecId, label: &str) -> (found: Option<TypeId>)
        requires
            self.wf(),
            self.rec_ok(r),
        ensures
            found == self.spec_field(r, label@),
            found matches Some(t) ==> self.ty_ok(t),
    {
        let fields = &self.recs[r.0].fields;
        let i = first_named(fields, label);
        if i < fields.len() {
            proof {
                lemma_lookup_first(fields@, label@, i as int);
                assert(self.record_ok(self.recs@[r.0 as int]));
            }
            Some(fields[i].1)
        } else {
            proof {
                lemma_lookup_none(fields@, label@);
            }
            None
        }
    }

    /// Set an attribute of a record, replacing the first field of that name if
    /// there is one.
    pub fn bind(&mut self, r: RecId, label: &str, t: TypeId)
        requires
            old(self).wf(),
            old(self).rec_ok(r),
            old(self).ty_ok(t),
        ensures
            final(self).wf(),
            old(self).grows_to(final(self)),
            old(self).knots_kept(final(self)),
            final(self).nodes@ == old(self).nodes@,
            final(self).aliases@ == old(self).aliases@,
            final(self).vars@ == old(self).vars@,
            final(self).recs@.len() == old(self).recs@.len(),
            forall|k: int| 0 <= k < old(self).recs@.len() && k != r.0 ==> final(self).recs@[k] == old(self).recs@[k],
            final(self).spec_field(r, label@) == Some(t),
            forall|l: Seq<char>| l != label@ ==> #[trigger] final(self).spec_field(r, l) == old(self).spec_field(r, l),
            final(self).recs@[r.0 as int].voids == old(self).recs@[r.0 as int].voids,
            final(self).recs@[r.0 as int].defined == old(self).recs@[r.0 as int].defined,
            final(self).recs@[r.0 as int].site == old(self).recs@[r.0 as int].site,
            forall|j: int|
                0 <= j < final(self).recs@[r.0 as int].fields@.len() ==> ((#[trigger] final(self).recs@[r.0 as int].fields@[j]).0@
                    == label@ && final(self).recs@[r.0 as int].fields@[j].1 == t) || old(self).recs@[r.0 as int].fields@.contains(
                    final(self).recs@[r.0 as int].fields@[j],
                ),
            old(self).recs@[r.0 as int].fields@.len() == 0 ==> final(self).recs@[r.0 as int].fields@.len() == 1
                && final(self).recs@[r.0 as int].fields@[0].0@ == label@ && final(self).recs@[r.0 as int].fields@[0].1 == t,
    {
        let ghost before = *self;
        let mut rec = Record { fields: Vec::new(), voids: Vec::new(), defined: None, site: None };
        self.recs.set_and_swap(r.0, &mut rec);
        let ghost fields0 = rec.fields@;
        let i = first_named(&rec.fields, label);
        let entry = (String::from_str(label), t);
        if i < rec.fields.len() {
            proof {
                assert forall|l: Seq<char>| true implies lookup(fields0.update(i as int, entry), l) == (if entry.0@ == l {
                    Some(entry.1)
                } else {
                    lookup(fields0, l)
                }) by {
                    lemma_lookup_update(fields0, i as int, entry, l);
                }
            }
            rec.fields.set(i, entry);
        } else {
            proof {
                lemma_lookup_none(fields0, label@);
                assert forall|l: Seq<char>| true implies lookup(fields0.push(entry), l) == (if lookup(fields0, l) is Some {
                    lookup(fields0, l)
                } else if entry.0@ == l {
                    Some(entry.1)
                } else {
                    None
                }) by {
                    lemma_lookup_push(fields0, entry, l);
                }
            }
            rec.fields.push(entry);
        }
        self.recs.set_and_swap(r.0, &mut rec);
        proof {
            assert(before.record_ok(before.recs@[r.0 as int]));
            assert(self.record_ok(self.recs@[r.0 as int]));
            Types::lemma_replace_rec(&before, self, r.0 as int);
        }
    }

    /// The voids of a record, in application order.
    pub fn voids(&self, r: RecId) -> (voids: &Vec<String>)
        requires
            self.rec_ok(r),
        ensures
            voids@ == self.recs@[r.0 as int].voids@,
    {
        &self.recs[r.0].voids
    }

    /// The fields of a record, in the order they were first bound.
    pub fn fields(&self, r: RecId) -> (fields: &Vec<(String, TypeId)>)
        requires
            self.rec_ok(r),
        ensures
            fields@ == self.recs@[r.0 as int].fields@,
    {
        &self.recs[r.0].fields
    }

    /// The level a record was defined at, when it is a formation.
    pub fn defined_at(&self, r: RecId) -> (level: Option<Level>)
        requires
            self.rec_ok(r),
        ensures
            level == self.recs@[r.0 as int].defined,
    {
        self.recs[r.0].defined
    }

    /// Where a requirement record was written, when it is one.
    pub fn site_of(&self, r: RecId) -> (site: Option<Site>)
        requires
            self.rec_ok(r),
        ensures
            site == self.recs@[r.0 as int].site,
    {
        match &self.recs[r.0].site {
            Some(site) => Some(site.duplicate()),
            None => None,
        }
    }

    /// Change what is recorded of a record besides its fields and voids: the
    /// level it was defined at and where it was written.
    pub fn restamp(&mut self, r: RecId, defined: Option<Level>, site: Option<Site>)
        requires
            old(self).wf(),
            old(self).rec_ok(r),
        ensures
            final(self).wf(),
            old(self).grows_to(final(self)),
            old(self).knots_kept(final(self)),
            final(self).nodes@ == old(self).nodes@,
            final(self).aliases@ == old(self).aliases@,
            final(self).vars@ == old(self).vars@,
            final(self).recs@.len() == old(self).recs@.len(),
            forall|k: int| 0 <= k < old(self).recs@.len() && k != r.0 ==> final(self).recs@[k] == old(self).recs@[k],
            final(self).recs@[r.0 as int].fields == old(self).recs@[r.0 as int].fields,
            final(self).recs@[r.0 as int].voids == old(self).recs@[r.0 as int].voids,
            final(self).recs@[r.0 as int].defined == defined,
            final(self).recs@[r.0 as int].site == site,
    {
        let ghost before = *self;
        let mut rec = Record { fields: Vec::new(), voids: Vec::new(), defined: None, site: None };
        self.recs.set_and_swap(r.0, &mut rec);
        rec.defined = defined;
        rec.site = site;
        self.recs.set_and_swap(r.0, &mut rec);
        proof {
            assert(before.record_ok(before.recs@[r.0 as int]));
            Types::lemma_replace_rec(&before, self, r.0 as int);
        }
    }

    /// Record the level a formation was defined at.
    pub fn define(&mut self, r: RecId, level: Level)
        requires
            old(self).wf(),
            old(self).rec_ok(r),
        ensures
            final(self).wf(),
            old(self).grows_to(final(self)),
            old(self).knots_kept(final(self)),
            final(self).nodes@ == old(self).nodes@,
            final(self).aliases@ == old(self).aliases@,
            final(self).vars@ == old(self).vars@,
            final(self).recs@.len() == old(self).recs@.len(),
            forall|k: int| 0 <= k < old(self).recs@.len() && k != r.0 ==> final(self).recs@[k] == old(self).recs@[k],
            final(self).recs@[r.0 as int].fields == old(self).recs@[r.0 as int].fields,
            final(self).recs@[r.0 as int].voids == old(self).recs@[r.0 as int].voids,
            final(self).recs@[r.0 as int].defined == Some(level),
            final(self).recs@[r.0 as int].site == old(self).recs@[r.0 as int].site,
    {
        let site = self.site_of(r);
        self.restamp(r, Some(level), site);
    }

    /// Record where a requirement was written.
    pub fn mark(&mut self, r: RecId, site: Site)
        requires
            old(self).wf(),
            old(self).rec_ok(r),
        ensures
            final(self).wf(),
            old(self).grows_to(final(self)),
            old(self).knots_kept(final(self)),
            final(self).nodes@ == old(self).nodes@,
            final(self).aliases@ == old(self).aliases@,
            final(self).vars@ == old(self).vars@,
            final(self).recs@.len() == old(self).recs@.len(),
            forall|k: int| 0 <= k < old(self).recs@.len() && k != r.0 ==> final(self).recs@[k] == old(self).recs@[k],
            final(self).recs@[r.0 as int].fields == old(self).recs@[r.0 as int].fields,
            final(self).recs@[r.0 as int].voids == old(self).recs@[r.0 as int].voids,
            final(self).recs@[r.0 as int].defined == old(self).recs@[r.0 as int].defined,
            final(self).recs@[r.0 as int].site == Some(site),
    {
        let defined = self.defined_at(r);
        self.restamp(r, defined, Some(site));
    }

    /// Give a type the name it prints by. A named type is shared rather than
    /// copied when a formation is instantiated.
    pub fn name(&mut self, t: TypeId, alias: &str)
        requires
            old(self).wf(),
            old(self).ty_ok(t),
        ensures
            final(self).wf(),
            old(self).grows_to(final(self)),
            old(self).knots_kept(final(self)),
            final(self).nodes@ == old(self).nodes@,
            final(self).vars@ == old(self).vars@,
            final(self).recs@ == old(self).recs@,
            final(self).aliases@.len() == old(self).aliases@.len(),
            final(self).aliases@[t.0 as int] matches Some(a) && a@ == alias@,
            forall|k: int| 0 <= k < old(self).aliases@.len() && k != t.0 ==> final(self).aliases@[k] == old(self).aliases@[k],
    {
        let ghost before = *self;
        self.aliases.set(t.0, Some(String::from_str(alias)));
        proof {
            before.lemma_grows_refl();
            assert forall|k: int| 0 <= k < self.vars@.len() implies self.unknown_ok(#[trigger] self.vars@[k]) by {
                assert(before.unknown_ok(before.vars@[k]));
            }
            assert forall|k: int| 0 <= k < self.nodes@.len() implies self.type_ok(#[trigger] self.nodes@[k]) by {
                assert(before.type_ok(before.nodes@[k]));
            }
            assert forall|k: int| 0 <= k < self.recs@.len() implies self.record_ok(#[trigger] self.recs@[k]) by {
                assert(before.record_ok(before.recs@[k]));
            }
        }
    }

    /// Whether a type has a name it prints by.
    pub fn is_named(&self, t: TypeId) -> (named: bool)
        requires
            self.wf(),
            self.ty_ok(t),
        ensures
            named == self.aliases@[t.0 as int] is Some,
    {
        self.aliases[t.0].is_some()
    }

    /// A function type.
    pub fn fun(&mut self, arg: TypeId, res: TypeId) -> (t: TypeId)
        requires
            old(self).wf(),
            old(self).ty_ok(arg),
            old(self).ty_ok(res),
        ensures
            final(self).wf(),
            old(self).grows_to(final(self)),
            old(self).knots_kept(final(self)),
            final(self).nodes@ == old(self).nodes@.push(Type::Fun { arg, res }),
            final(self).vars@ == old(self).vars@,
            final(self).recs@ == old(self).recs@,
            t.0 == old(self).nodes@.len(),
    {
        self.node(Type::Fun { arg, res })
    }

    /// A maybe-`⊥` type.
    pub fn opt(&mut self, inner: TypeId) -> (t: TypeId)
        requires
            old(self).wf(),
            old(self).ty_ok(inner),
        ensures
            final(self).wf(),
            old(self).grows_to(final(self)),
            old(self).knots_kept(final(self)),
            final(self).nodes@ == old(self).nodes@.push(Type::Opt(inner)),
            final(self).vars@ == old(self).vars@,
            final(self).recs@ == old(self).recs@,
            t.0 == old(self).nodes@.len(),
    {
        self.node(Type::Opt(inner))
    }

    /// The arena with one unknown replaced by another at the same level whose
    /// bounds extend the old ones is consistent and grown.
    pub proof fn lemma_replace_var(before: &Types, after: &Types, i: int)
        requires
            before.wf(),
            0 <= i < before.vars@.len(),
            after.nodes@ == before.nodes@,
            after.aliases@ == before.aliases@,
            after.recs@ == before.recs@,
            after.vars@.len() == before.vars@.len(),
            forall|k: int| 0 <= k < before.vars@.len() && k != i ==> after.vars@[k] == before.vars@[k],
            after.vars@[i].level == before.vars@[i].level,
            prefix(before.vars@[i].lower@, after.vars@[i].lower@),
            prefix(before.vars@[i].upper@, after.vars@[i].upper@),
            after.unknown_ok(after.vars@[i]),
        ensures
            after.wf(),
            before.grows_to(after),
    {
        assert(after.nodes@.subrange(0, before.nodes@.len() as int) =~= before.nodes@);
        assert forall|k: int| 0 <= k < before.vars@.len() implies {
            &&& (#[trigger] after.vars@[k]).level == before.vars@[k].level
            &&& prefix(before.vars@[k].lower@, after.vars@[k].lower@)
            &&& prefix(before.vars@[k].upper@, after.vars@[k].upper@)
        } by {
            if k != i {
                assert(after.vars@[k].lower@.subrange(0, after.vars@[k].lower@.len() as int) =~= after.vars@[k].lower@);
                assert(after.vars@[k].upper@.subrange(0, after.vars@[k].upper@.len() as int) =~= after.vars@[k].upper@);
            }
        }
        assert forall|k: int| 0 <= k < after.vars@.len() implies after.unknown_ok(#[trigger] after.vars@[k]) by {
            if k != i {
                assert(before.unknown_ok(before.vars@[k]));
            }
        }
        assert forall|k: int| 0 <= k < after.nodes@.len() implies after.type_ok(#[trigger] after.nodes@[k]) by {
            assert(before.type_ok(before.nodes@[k]));
        }
        assert forall|k: int| 0 <= k < after.recs@.len() implies after.record_ok(#[trigger] after.recs@[k]) by {
            assert(before.record_ok(before.recs@[k]));
        }
    }

    /// The arena with one record replaced by another whose indices are in the
    /// arena is consistent and grown.
    pub proof fn lemma_replace_rec(before: &Types, after: &Types, i: int)
        requires
            before.wf(),
            0 <= i < before.recs@.len(),
            after.nodes@ == before.nodes@,
            after.aliases@ == before.aliases@,
            after.vars@ == before.vars@,
            after.recs@.len() == before.recs@.len(),
            forall|k: int| 0 <= k < before.recs@.len() && k != i ==> after.recs@[k] == before.recs@[k],
            after.record_ok(after.recs@[i]),
        ensures
            after.wf(),
            before.grows_to(after),
    {
        before.lemma_grows_refl();
        assert forall|k: int| 0 <= k < after.vars@.len() implies after.unknown_ok(#[trigger] after.vars@[k]) by {
            assert(before.unknown_ok(before.vars@[k]));
        }
        assert forall|k: int| 0 <= k < after.nodes@.len() implies after.type_ok(#[trigger] after.nodes@[k]) by {
            assert(before.type_ok(before.nodes@[k]));
        }
        assert forall|k: int| 0 <= k < after.recs@.len() implies after.record_ok(#[trigger] after.recs@[k]) by {
            if k != i {
                assert(before.record_ok(before.recs@[k]));
            }
        }
    }

    /// The level of an unknown.
    pub fn level(&self, v: VarId) -> (level: Level)
        requires
            self.var_ok(v),
        ensures
            level == self.spec_level(v),
    {
        self.vars[v.0].level
    }

    /// What flows into an unknown.
    pub fn lower(&self, v: VarId) -> (bounds: &Vec<TypeId>)
        requires
            self.var_ok(v),
        ensures
            bounds@ == self.spec_lower(v),
    {
        &self.vars[v.0].lower
    }

    /// What an unknown flows out to.
    pub fn upper(&self, v: VarId) -> (bounds: &Vec<TypeId>)
        requires
            self.var_ok(v),
        ensures
            bounds@ == self.spec_upper(v),
    {
        &self.vars[v.0].upper
    }

    /// The record an unknown is the recursion knot of.
    pub fn knot(&self, v: VarId) -> (shape: Option<RecId>)
        requires
            self.var_ok(v),
        ensures
            shape == self.vars@[v.0 as int].knot,
    {
        self.vars[v.0].knot
    }

    /// Add a lower bound at the end of an unknown's.
    pub fn push_lower(&mut self, v: VarId, t: TypeId)
        requires
            old(self).wf(),
            old(self).var_ok(v),
            old(self).ty_ok(t),
        ensures
            final(self).wf(),
            old(self).grows_to(final(self)),
            old(self).knots_kept(final(self)),
            final(self).nodes@ == old(self).nodes@,
            final(self).recs@ == old(self).recs@,
            final(self).vars@.len() == old(self).vars@.len(),
            final(self).spec_lower(v) == old(self).spec_lower(v).push(t),
            final(self).spec_upper(v) == old(self).spec_upper(v),
            final(self).vars@[v.0 as int].knot == old(self).vars@[v.0 as int].knot,
            forall|k: int| 0 <= k < old(self).vars@.len() && k != v.0 ==> final(self).vars@[k] == old(self).vars@[k],
    {
        let ghost before = *self;
        let mut u = Unknown { level: Level(0), lower: Vec::new(), upper: Vec::new(), knot: None };
        self.vars.set_and_swap(v.0, &mut u);
        u.lower.push(t);
        self.vars.set_and_swap(v.0, &mut u);
        proof {
            let i = v.0 as int;
            assert(before.unknown_ok(before.vars@[i]));
            assert(self.vars@[i].lower@.subrange(0, before.vars@[i].lower@.len() as int) =~= before.vars@[i].lower@);
            assert(self.vars@[i].upper@.subrange(0, before.vars@[i].upper@.len() as int) =~= before.vars@[i].upper@);
            Types::lemma_replace_var(&before, self, i);
        }
    }

    /// Add an upper bound at the end of an unknown's.
    pub fn push_upper(&mut self, v: VarId, t: TypeId)
        requires
            old(self).wf(),
            old(self).var_ok(v),
            old(self).ty_ok(t),
        ensures
            final(self).wf(),
            old(self).grows_to(final(self)),
            old(self).knots_kept(final(self)),
            final(self).nodes@ == old(self).nodes@,
            final(self).recs@ == old(self).recs@,
            final(self).vars@.len() == old(self).vars@.len(),
            final(self).spec_upper(v) == old(self).spec_upper(v).push(t),
            final(self).spec_lower(v) == old(self).spec_lower(v),
            final(self).vars@[v.0 as int].knot == old(self).vars@[v.0 as int].knot,
            forall|k: int| 0 <= k < old(self).vars@.len() && k != v.0 ==> final(self).vars@[k] == old(self).vars@[k],
    {
        let ghost before = *self;
        let mut u = Unknown { level: Level(0), lower: Vec::new(), upper: Vec::new(), knot: None };
        self.vars.set_and_swap(v.0, &mut u);
        u.upper.push(t);
        self.vars.set_and_swap(v.0, &mut u);
        proof {
            let i = v.0 as int;
            assert(before.unknown_ok(before.vars@[i]));
            assert(self.vars@[i].lower@.subrange(0, before.vars@[i].lower@.len() as int) =~= before.vars@[i].lower@);
            assert(self.vars@[i].upper@.subrange(0, before.vars@[i].upper@.len() as int) =~= before.vars@[i].upper@);
            Types::lemma_replace_var(&before, self, i);
        }
    }

    /// Make an unknown the recursion knot of a record.
    pub fn tie(&mut self, v: VarId, shape: RecId)
        requires
            old(self).wf(),
            old(self).var_ok(v),
            old(self).rec_ok(shape),
        ensures
            final(self).wf(),
            old(self).grows_to(final(self)),
            final(self).nodes@ == old(self).nodes@,
            final(self).recs@ == old(self).recs@,
            final(self).vars@.len() == old(self).vars@.len(),
            final(self).vars@[v.0 as int].knot == Some(shape),
            final(self).spec_lower(v) == old(self).spec_lower(v),
            final(self).spec_upper(v) == old(self).spec_upper(v),
            forall|k: int| 0 <= k < old(self).vars@.len() && k != v.0 ==> final(self).vars@[k] == old(self).vars@[k],
    {
        let ghost before = *self;
        let mut u = Unknown { level: Level(0), lower: Vec::new(), upper: Vec::new(), knot: None };
        self.vars.set_and_swap(v.0, &mut u);
        u.knot = Some(shape);
        self.vars.set_and_swap(v.0, &mut u);
        proof {
            let i = v.0 as int;
            assert(before.unknown_ok(before.vars@[i]));
            assert(self.vars@[i].lower@.subrange(0, before.vars@[i].lower@.len() as int) =~= before.vars@[i].lower@);
            assert(self.vars@[i].upper@.subrange(0, before.vars@[i].upper@.len() as int) =~= before.vars@[i].upper@);
            Types::lemma_replace_var(&before, self, i);
        }
    }
}

} // verus!
