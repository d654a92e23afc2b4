//! Forma resolution through `@loc`.
//!
//! A return type such as `Φ.posix.return` is also a locator into the object
//! graph, so a non-primitive forma can be resolved to the shape of the object it
//! names instead of staying opaque. Resolution is memoized, cycle-guarded and
//! best-effort: what cannot be typed in isolation falls back to opaque rather
//! than failing.

use std::rc::Rc;

use vstd::prelude::*;

use crate::infer::Engine;
use crate::solver::{Clash, bound_below, lemma_settled_bound};
use crate::types::{Level, RecId, Type, TypeId, Types, prefix, same_text};
use crate::infer::{has_body, node_binds, spec_host};
use crate::solver::{DEPTH, level_of};
use crate::xmir::{Node, segments, size, split_dots};

verus! {

broadcast use {Types::lemma_grows_trans, Types::lemma_recs_kept_trans, Types::lemma_knots_kept_trans, crate::types::lemma_keeps_trans, crate::types::lemma_prefix_refl};

/// How many resolutions may be under way inside one another. A forma met
/// deeper than this stays opaque.
pub const NESTING: usize = 64;

/// Another handle on a shared node, through `Rc::clone`: the same node.
#[verifier::external_body]
fn share(node: &Rc<Node>) -> (copy: Rc<Node>)
    ensures
        copy == *node,
{
    Rc::clone(node)
}

/// What is known about locators: the top-level objects to resolve through, what
/// has already been resolved, and what is being resolved right now.
#[derive(Debug)]
pub struct Locs {
    /// The top-level objects, by locator; no locator twice.
    pub toplevel: Vec<(String, Rc<Node>)>,
    /// What each locator resolved to, once it has been; nothing when it could
    /// not be typed.
    pub resolved: Vec<(String, Option<TypeId>)>,
    /// The locators being resolved right now, innermost last, each with the
    /// unknown that stands for it meanwhile.
    pub underway: Vec<(String, TypeId)>,
}

/// Whether no locator is listed twice.
pub open spec fn distinct(entries: Seq<(String, Rc<Node>)>) -> bool {
    forall|i: int, j: int| 0 <= i < j < entries.len() ==> entries[i].0@ != entries[j].0@
}

/// The object a locator names among some entries.
pub open spec fn entry(entries: Seq<(String, Rc<Node>)>, loc: Seq<char>) -> Option<Node> {
    if exists|i: int| 0 <= i < entries.len() && entries[i].0@ == loc {
        let i = choose|i: int| 0 <= i < entries.len() && entries[i].0@ == loc;
        Some(*entries[i].1)
    } else {
        None
    }
}

/// In entries without repeats, a locator names the object it is listed with.
pub proof fn lemma_entry_at(entries: Seq<(String, Rc<Node>)>, i: int)
    requires
        distinct(entries),
        0 <= i < entries.len(),
    ensures
        entry(entries, entries[i].0@) == Some(*entries[i].1),
{
    let loc = entries[i].0@;
    let c = choose|c: int| 0 <= c < entries.len() && entries[c].0@ == loc;
    if c < i {
        assert(entries[c].0@ != entries[i].0@);
    } else if c > i {
        assert(entries[i].0@ != entries[c].0@);
    }
}

/// A locator listed nowhere names nothing.
pub proof fn lemma_entry_none(entries: Seq<(String, Rc<Node>)>, loc: Seq<char>)
    requires
        forall|c: int| 0 <= c < entries.len() ==> entries[c].0@ != loc,
    ensures
        entry(entries, loc) is None,
{
}

/// The object a locator names once some found objects were learned on top of
/// some entries: the last found for it, or else what the entries had.
pub open spec fn learned(entries: Seq<(String, Rc<Node>)>, found: Seq<(String, Node)>, loc: Seq<char>) -> Option<Node>
    decreases found.len(),
{
    if found.len() == 0 {
        entry(entries, loc)
    } else if found.last().0@ == loc {
        Some(found.last().1)
    } else {
        learned(entries, found.drop_last(), loc)
    }
}

/// The locators some found objects are listed under.
pub open spec fn found_locators(found: Seq<(String, Node)>) -> Set<Seq<char>> {
    found.map_values(|p: (String, Node)| p.0@).to_set()
}

/// The locators some entries are listed under.
pub open spec fn entry_locators(entries: Seq<(String, Rc<Node>)>) -> Seq<Seq<char>> {
    entries.map_values(|p: (String, Rc<Node>)| p.0@)
}

/// Learning from nothing, a locator names an object exactly when something
/// was found under it.
proof fn lemma_learned_some(found: Seq<(String, Node)>, loc: Seq<char>)
    ensures
        learned(Seq::empty(), found, loc) is Some <==> found_locators(found).contains(loc),
    decreases found.len(),
{
    if found.len() > 0 {
        lemma_learned_some(found.drop_last(), loc);
        let m = found.map_values(|p: (String, Node)| p.0@);
        assert(found.drop_last().map_values(|p: (String, Node)| p.0@) =~= m.drop_last());
        if m.to_set().contains(loc) && found.last().0@ != loc {
            let k = choose|k: int| 0 <= k < m.len() && m[k] == loc;
            assert(k < m.len() - 1);
            assert(m.drop_last()[k] == loc);
            assert(m.drop_last().to_set().contains(loc));
        }
        if m.drop_last().to_set().contains(loc) {
            let k = choose|k: int| 0 <= k < m.drop_last().len() && m.drop_last()[k] == loc;
            assert(m[k] == loc);
        }
        if found.last().0@ == loc {
            assert(m[m.len() - 1] == loc);
        }
    } else {
        assert(found_locators(found) =~= Set::<Seq<char>>::empty());
    }
}

/// Learning from nothing leaves one entry for each distinct locator found.
pub proof fn law_one_entry_per_locator(entries: Seq<(String, Rc<Node>)>, found: Seq<(String, Node)>)
    requires
        distinct(entries),
        forall|loc: Seq<char>| #[trigger] entry(entries, loc) == learned(Seq::empty(), found, loc),
    ensures
        entries.len() == found_locators(found).len(),
{
    let e = entry_locators(entries);
    assert(e.no_duplicates()) by {
        assert forall|i: int, j: int| 0 <= i < e.len() && 0 <= j < e.len() && i != j implies e[i] != e[j] by {
            if i < j {
                assert(entries[i].0@ != entries[j].0@);
            } else {
                assert(entries[j].0@ != entries[i].0@);
            }
        }
    }
    e.unique_seq_to_set();
    assert(e.to_set() =~= found_locators(found)) by {
        assert forall|loc: Seq<char>| e.to_set().contains(loc) <==> found_locators(found).contains(loc) by {
            lemma_learned_some(found, loc);
            if e.to_set().contains(loc) {
                let i = choose|i: int| 0 <= i < e.len() && e[i] == loc;
                assert(entries[i].0@ == loc);
                assert(entry(entries, loc) is Some);
            }
            if entry(entries, loc) is Some {
                let i = choose|i: int| 0 <= i < entries.len() && entries[i].0@ == loc;
                assert(e[i] == loc);
            }
        }
    }
}

/// The texts of some segments.
pub open spec fn segments_of(path: Seq<String>) -> Seq<Seq<char>> {
    path.map_values(|s: String| s@)
}

/// Where walking down from a type through the attributes a path names leads:
/// each segment is an attribute of the record behind where the walk stands.
pub open spec fn walk_to(types: &Types, from: TypeId, path: Seq<Seq<char>>) -> Option<TypeId>
    decreases path.len(),
{
    if path.len() == 0 {
        Some(from)
    } else {
        match walk_to(types, from, path.drop_last()) {
            Some(here) => match spec_host(types, here) {
                Some(s) => types.spec_field(s, path.last()),
                None => None,
            },
            None => None,
        }
    }
}

/// A walk that gets stuck on a path gets stuck on every path it begins.
pub proof fn lemma_walk_stuck(types: &Types, from: TypeId, stuck: Seq<Seq<char>>, path: Seq<Seq<char>>)
    requires
        stuck.len() <= path.len(),
        path.subrange(0, stuck.len() as int) == stuck,
        walk_to(types, from, stuck) is None,
    ensures
        walk_to(types, from, path) is None,
    decreases path.len(),
{
    if path.len() > stuck.len() {
        assert(path.drop_last().subrange(0, stuck.len() as int) =~= stuck);
        lemma_walk_stuck(types, from, stuck, path.drop_last());
    } else {
        assert(path =~= stuck);
    }
}

/// A walk down a path ends at the attribute the last segment names, and a walk
/// down no path stays where it began.
pub proof fn law_walk_ends_at_last_segment(types: &Types, from: TypeId, path: Seq<Seq<char>>, to: TypeId)
    requires
        walk_to(types, from, path) == Some(to),
    ensures
        path.len() == 0 ==> to == from,
        path.len() > 0 ==> exists|s: RecId| #[trigger] types.spec_field(s, path.last()) == Some(to),
{
}

/// Walking down a path is walking down its beginning and then down the rest,
/// from wherever the beginning led.
pub proof fn law_walk_composes(types: &Types, from: TypeId, first: Seq<Seq<char>>, rest: Seq<Seq<char>>)
    ensures
        walk_to(types, from, first + rest) == match walk_to(types, from, first) {
            Some(mid) => walk_to(types, mid, rest),
            None => None,
        },
    decreases rest.len(),
{
    if rest.len() == 0 {
        assert(first + rest =~= first);
    } else {
        assert((first + rest).drop_last() =~= first + rest.drop_last());
        assert((first + rest).last() == rest.last());
        law_walk_composes(types, from, first, rest.drop_last());
    }
}

/// Whether a locator names, as a top-level object, a formation with nothing in
/// it: such an object always types, so the locator resolves.
pub open spec fn names_empty_object(locs: Locs, loc: Seq<char>) -> bool {
    entry(locs.toplevel@, loc) matches Some(top) && (top is Obj || top is Lam) && node_binds(top).len() == 0 && !has_body(top)
}

/// Whether a locator surely resolves to nothing: it is not under way, and it
/// either resolved to nothing before or has not been tried and no prefix of
/// whole segments names a known object.
pub open spec fn resolves_to_nothing(locs: Locs, loc: Seq<char>) -> bool {
    &&& underway(locs.underway@, loc) is None
    &&& (resolved(locs.resolved@, loc) == Some(None::<TypeId>) || (resolved(locs.resolved@, loc) is None && forall|p: int|
        0 <= p <= loc.len() && #[trigger] cuts(loc, p) ==> entry(locs.toplevel@, loc.subrange(0, p)) is None))
}

/// Whether a position of a locator ends a prefix of whole segments: it is the
/// end, or a dot stands there.
pub open spec fn cuts(loc: Seq<char>, p: int) -> bool {
    p == loc.len() || (0 <= p < loc.len() && loc[p] == '.')
}

/// The segments below a cut.
pub open spec fn below(loc: Seq<char>, p: int) -> Seq<Seq<char>> {
    if p >= loc.len() {
        Seq::empty()
    } else {
        segments(loc.subrange(p + 1, loc.len() as int))
    }
}

/// Whether an object and a path lead to a locator: the object is known under
/// the longest prefix of whole segments of the locator that is known at all,
/// and the path is the segments below that prefix.
pub open spec fn reached_through(entries: Seq<(String, Rc<Node>)>, loc: Seq<char>, top: Node, path: Seq<Seq<char>>) -> bool {
    exists|p: int|
        #![trigger cuts(loc, p)]
        cuts(loc, p) && entry(entries, loc.subrange(0, p)) == Some(top) && path == below(loc, p) && (forall|q: int|
            p < q <= loc.len() && cuts(loc, q) ==> entry(entries, loc.subrange(0, q)) is None)
}

/// Of several objects learned under one locator, the last one found is the one
/// the locator names.
pub proof fn law_last_learned_wins(entries: Seq<(String, Rc<Node>)>, found: Seq<(String, Node)>, i: int)
    requires
        0 <= i < found.len(),
        forall|j: int| i < j < found.len() ==> found[j].0@ != found[i].0@,
    ensures
        learned(entries, found, found[i].0@) == Some(found[i].1),
    decreases found.len(),
{
    if i < found.len() - 1 {
        law_last_learned_wins(entries, found.drop_last(), i);
    }
}

/// A locator known as a top-level object is its own ancestor: it is reached
/// through the object known under it, with no path left to walk down.
pub proof fn law_known_locator_is_its_own_ancestor(
    entries: Seq<(String, Rc<Node>)>,
    loc: Seq<char>,
    top: Node,
    path: Seq<Seq<char>>,
)
    requires
        entry(entries, loc) is Some,
        reached_through(entries, loc, top, path),
    ensures
        entry(entries, loc) == Some(top),
        path.len() == 0,
{
    let p = choose|p: int|
        #![trigger cuts(loc, p)]
        cuts(loc, p) && entry(entries, loc.subrange(0, p)) == Some(top) && path == below(loc, p) && (forall|q: int|
            p < q <= loc.len() && cuts(loc, q) ==> entry(entries, loc.subrange(0, q)) is None);
    assert(loc.subrange(0, loc.len() as int) =~= loc);
    assert(cuts(loc, loc.len() as int));
    assert(p == loc.len());
}

/// The index of the entry of a locator, or the number of entries when there is
/// none.
fn position(entries: &Vec<(String, Rc<Node>)>, loc: &str) -> (i: usize)
    ensures
        i <= entries@.len(),
        i < entries@.len() ==> entries@[i as int].0@ == loc@,
        forall|j: int| 0 <= j < i ==> entries@[j].0@ != loc@,
{
    let mut i: usize = 0;
    while i < entries.len()
        invariant
            0 <= i <= entries@.len(),
            forall|j: int| 0 <= j < i ==> entries@[j].0@ != loc@,
        decreases entries@.len() - i,
    {
        if same_text(entries[i].0.as_str(), loc) {
            return i;
        }
        i = i + 1;
    }
    i
}

impl Locs {
    /// Nothing known.
    pub fn new() -> (locs: Locs)
        ensures
            locs.toplevel@.len() == 0,
            locs.resolved@.len() == 0,
            locs.underway@.len() == 0,
    {
        Locs { toplevel: Vec::new(), resolved: Vec::new(), underway: Vec::new() }
    }

    /// Whatever is known names something of the arena, nothing is listed
    /// twice, and resolutions are nested no deeper than [`NESTING`].
    pub open spec fn wf(&self, types: &Types) -> bool {
        &&& distinct(self.toplevel@)
        &&& forall|i: int|
            0 <= i < self.resolved@.len() ==> ((#[trigger] self.resolved@[i]).1 matches Some(t) ==> types.ty_ok(t))
        &&& forall|i: int| 0 <= i < self.underway@.len() ==> types.ty_ok((#[trigger] self.underway@[i]).1)
        &&& self.underway@.len() <= NESTING
    }

    /// Take in an index of top-level objects by locator. A locator already
    /// known is given the object newly found for it, and of two found for one
    /// locator the later wins.
    pub fn learn(&mut self, found: Vec<(String, Node)>)
        requires
            distinct(old(self).toplevel@),
        ensures
            distinct(final(self).toplevel@),
            final(self).resolved == old(self).resolved,
            final(self).underway == old(self).underway,
            forall|loc: Seq<char>| #[trigger] entry(final(self).toplevel@, loc) == learned(old(self).toplevel@, found@, loc),
            old(self).toplevel@.len() == 0 ==> final(self).toplevel@.len() == found_locators(found@).len(),
    {
        let ghost all = found@;
        let mut found = found;
        let ghost mut done: Seq<(String, Node)> = Seq::empty();
        let ghost before = self.toplevel@;
        proof {
            assert(all =~= done + found@);
        }
        while found.len() > 0
            invariant
                all == done + found@,
                distinct(self.toplevel@),
                self.resolved == old(self).resolved,
                self.underway == old(self).underway,
                before == old(self).toplevel@,
                forall|loc: Seq<char>| #[trigger] entry(self.toplevel@, loc) == learned(before, done, loc),
            decreases found@.len(),
        {
            let (key, node) = found.remove(0);
            let ghost prev = self.toplevel@;
            let i = position(&self.toplevel, key.as_str());
            let present = i < self.toplevel.len();
            proof {
                assert forall|loc: Seq<char>| true implies entry(prev, loc) == learned(before, done, loc) by {
                    assert(entry(self.toplevel@, loc) == learned(before, done, loc));
                }
            }
            let ghost added = (key, node);
            if present {
                let mut slot = (key, Rc::new(node));
                self.toplevel.set_and_swap(i, &mut slot);
                proof {
                    assert forall|a: int, b: int| 0 <= a < b < self.toplevel@.len() implies self.toplevel@[a].0@
                        != self.toplevel@[b].0@ by {
                        assert(prev[a].0@ != prev[b].0@);
                    }
                    assert forall|loc: Seq<char>| #[trigger] entry(self.toplevel@, loc) == learned(before, done.push(added), loc) by {
                        assert(done.push(added).drop_last() =~= done);
                        assert(entry(prev, loc) == learned(before, done, loc));
                        if loc == added.0@ {
                            lemma_entry_at(self.toplevel@, i as int);
                        } else if exists|c: int| 0 <= c < prev.len() && prev[c].0@ == loc {
                            let c = choose|c: int| 0 <= c < prev.len() && prev[c].0@ == loc;
                            assert(self.toplevel@[c] == prev[c]);
                            lemma_entry_at(self.toplevel@, c);
                            lemma_entry_at(prev, c);
                        } else {
                            assert forall|c: int| 0 <= c < self.toplevel@.len() implies self.toplevel@[c].0@ != loc by {
                                if c != i as int {
                                    assert(self.toplevel@[c] == prev[c]);
                                }
                            }
                            lemma_entry_none(self.toplevel@, loc);
                            lemma_entry_none(prev, loc);
                        }
                    }
                }
            } else {
                self.toplevel.push((key, Rc::new(node)));
                proof {
                    let last = prev.len() as int;
                    assert forall|a: int, b: int| 0 <= a < b < self.toplevel@.len() implies self.toplevel@[a].0@
                        != self.toplevel@[b].0@ by {
                        if b < prev.len() {
                            assert(prev[a].0@ != prev[b].0@);
                        }
                    }
                    assert forall|loc: Seq<char>| #[trigger] entry(self.toplevel@, loc) == learned(before, done.push(added), loc) by {
                        assert(done.push(added).drop_last() =~= done);
                        assert(entry(prev, loc) == learned(before, done, loc));
                        if loc == added.0@ {
                            lemma_entry_at(self.toplevel@, last);
                        } else if exists|c: int| 0 <= c < prev.len() && prev[c].0@ == loc {
                            let c = choose|c: int| 0 <= c < prev.len() && prev[c].0@ == loc;
                            assert(self.toplevel@[c] == prev[c]);
                            lemma_entry_at(self.toplevel@, c);
                            lemma_entry_at(prev, c);
                        } else {
                            assert forall|c: int| 0 <= c < self.toplevel@.len() implies self.toplevel@[c].0@ != loc by {
                                if c != last {
                                    assert(self.toplevel@[c] == prev[c]);
                                }
                            }
                            lemma_entry_none(self.toplevel@, loc);
                            lemma_entry_none(prev, loc);
                        }
                    }
                }
            }
            proof {
                done = done.push(added);
                assert(all =~= done + found@);
            }
        }
        proof {
            assert(done =~= all);
            if before.len() == 0 {
                assert(before =~= Seq::<(String, Rc<Node>)>::empty());
                law_one_entry_per_locator(self.toplevel@, all);
            }
        }
    }


    /// The top-level ancestor of a locator and the path down to it. A nested
    /// object is reached *through* its ancestor, because inferred there its
    /// parent chain resolves, which it cannot in isolation. The longest prefix
    /// of whole segments that is known wins.
    pub fn ancestor(&self, loc: &str) -> (found: Option<(Rc<Node>, Vec<String>)>)
        requires
            distinct(self.toplevel@),
        ensures
            found matches Some((top, path)) ==> reached_through(self.toplevel@, loc@, *top, path@.map_values(|s: String| s@)),
            found is None ==> forall|p: int| 0 <= p <= loc@.len() && #[trigger] cuts(loc@, p) ==> entry(self.toplevel@, loc@.subrange(0, p)) is None,
    {
        let n = loc.unicode_len();
        match self.try_cut(loc, n) {
            Some(found) => {
                proof {
                    assert(found.1@.map_values(|s: String| s@) =~= below(loc@, n as int));
                }
                return Some(found);
            },
            None => {},
        }
        let mut p: usize = n;
        while p > 0
            invariant
                n == loc@.len(),
                0 <= p <= n,
                distinct(self.toplevel@),
                forall|q: int| p <= q <= n && #[trigger] cuts(loc@, q) ==> entry(self.toplevel@, loc@.subrange(0, q)) is None,
            decreases p,
        {
            p = p - 1;
            match self.try_cut(loc, p) {
                Some(found) => {
                    proof {
                        assert(found.1@.map_values(|s: String| s@) =~= below(loc@, p as int));
                    }
                    return Some(found);
                },
                None => {},
            }
        }
        None
    }

    /// The known object at one position of a locator, when the position cuts
    /// it into whole segments and the prefix before it is known.
    fn try_cut(&self, loc: &str, p: usize) -> (found: Option<(Rc<Node>, Vec<String>)>)
        requires
            distinct(self.toplevel@),
            p <= loc@.len(),
        ensures
            found matches Some((top, path)) ==> cuts(loc@, p as int) && entry(self.toplevel@, loc@.subrange(0, p as int))
                == Some(*top) && path@.len() == below(loc@, p as int).len() && (forall|k: int|
                0 <= k < path@.len() ==> (#[trigger] path@[k])@ == below(loc@, p as int)[k]),
            found is None ==> (cuts(loc@, p as int) ==> entry(self.toplevel@, loc@.subrange(0, p as int)) is None),
    {
        let n = loc.unicode_len();
        let cut = p == n || loc.get_char(p) == '.';
        if !cut {
            return None;
        }
        let key = loc.substring_char(0, p);
        let i = position(&self.toplevel, key);
        if i < self.toplevel.len() {
            proof {
                lemma_entry_at(self.toplevel@, i as int);
            }
            let top = share(&self.toplevel[i].1);
            let path = if p < n {
                split_dots(loc.substring_char(p + 1, n))
            } else {
                Vec::new()
            };
            Some((top, path))
        } else {
            proof {
                lemma_entry_none(self.toplevel@, key@);
            }
            None
        }
    }

    /// How many locators are known.
    pub fn len(&self) -> (n: usize)
        ensures
            n == self.toplevel@.len(),
    {
        self.toplevel.len()
    }

    /// Whether nothing is known.
    pub fn is_empty(&self) -> (empty: bool)
        ensures
            empty == (self.toplevel@.len() == 0),
    {
        self.toplevel.len() == 0
    }
}

impl Engine {
    /// The shape a forma names, or nothing at all.
    ///
    /// Inferred once and remembered, then instantiated per use so a shared
    /// resolution neither costs a re-inference nor gets over-constrained by the
    /// first place that used it. A self-referential object ties the knot through
    /// a shared unknown. Best-effort throughout: anything that cannot be typed
    /// in isolation resolves to nothing, so resolution never turns a passing
    /// check into a failing one. Resolutions nested deeper than [`NESTING`]
    /// resolve to nothing too.
    pub fn resolve(&mut self, loc: &str) -> (found: Option<TypeId>)
        requires
            old(self).inv(),
        ensures
            final(self).inv(),
            old(self).keeps(final(self)),
            old(self).types.knots_kept(&final(self).types),
            old(self).types.recs_kept(&final(self).types),
            found matches Some(t) ==> final(self).types.ty_ok(t),
            underway(old(self).locs.underway@, loc@) matches Some(knot) ==> found == Some(knot) && *final(self)
                == *old(self),
            underway(old(self).locs.underway@, loc@) is None && resolved(old(self).locs.resolved@, loc@) is Some
                ==> final(self).locs == old(self).locs,
            underway(old(self).locs.underway@, loc@) is None && resolved(old(self).locs.resolved@, loc@) == Some(
                None::<TypeId>,
            ) ==> found is None && *final(self) == *old(self),
            underway(old(self).locs.underway@, loc@) is None ==> (resolved(old(self).locs.resolved@, loc@) matches Some(
                memo,
            ) ==> (found is Some <==> memo is Some)),
            underway(old(self).locs.underway@, loc@) is None && found is Some ==> resolved(
                final(self).locs.resolved@,
                loc@,
            ) matches Some(Some(_)),
            underway(old(self).locs.underway@, loc@) is None && resolved(old(self).locs.resolved@, loc@) is None
                && old(self).locs.underway@.len() >= NESTING ==> found is None && *final(self) == *old(self),
            underway(old(self).locs.underway@, loc@) is None && resolved(old(self).locs.resolved@, loc@) is None
                && (forall|p: int| 0 <= p <= loc@.len() && #[trigger] cuts(loc@, p) ==> entry(
                old(self).locs.toplevel@,
                loc@.subrange(0, p),
            ) is None) ==> found is None && *final(self) == *old(self),
            underway(old(self).locs.underway@, loc@) is None && resolved(old(self).locs.resolved@, loc@) is None
                && old(self).locs.underway@.len() < NESTING && names_empty_object(old(self).locs, loc@) ==> found is Some,
            underway(old(self).locs.underway@, loc@) is None && resolved(old(self).locs.resolved@, loc@) is None
                && old(self).locs.underway@.len() < NESTING && (exists|p: int|
                0 <= p <= loc@.len() && #[trigger] cuts(loc@, p) && entry(old(self).locs.toplevel@, loc@.subrange(0, p))
                    is Some) ==> resolved(final(self).locs.resolved@, loc@) is Some,
        decreases 2 * (NESTING - old(self).locs.underway@.len()), 0nat, 1int,
    {
        let ghost e0 = *self;
        proof {
            e0.lemma_keeps_refl();
        }
        if let Some(knot) = find_underway(&self.locs.underway, loc) {
            proof {
                lemma_underway_ok(self.locs.underway@, loc@, &self.types);
            }
            return Some(knot);
        }
        if find_resolved(&self.locs.resolved, loc).is_none() {
            if self.locs.underway.len() >= NESTING {
                return None;
            }
            let (top, path) = match self.locs.ancestor(loc) {
                Some(found) => found,
                None => {
                    proof {
                        assert(cuts(loc@, loc@.len() as int));
                        assert(loc@.subrange(0, loc@.len() as int) =~= loc@);
                    }
                    return None;
                },
            };
            let save = self.solver.jump(Level(0));
            let unknown = self.types.var(Level(1));
            let knot = self.types.node(Type::Var(unknown));
            let ghost e1 = *self;
            self.locs.underway.push((String::from_str(loc), knot));
            let ghost e2 = *self;
            proof {
                if names_empty_object(e0.locs, loc@) {
                    assert(cuts(loc@, loc@.len() as int));
                    assert(loc@.subrange(0, loc@.len() as int) =~= loc@);
                    let tn: Node = *top;
                    law_known_locator_is_its_own_ancestor(e0.locs.toplevel@, loc@, tn, path@.map_values(|s: String| s@));
                    assert(path@.len() == 0);
                    assert(e2.types.spec_at(knot) == Type::Var(unknown));
                }
            }
            let built = self.walk(&*top, &path, knot);
            let ghost e3 = *self;
            self.locs.underway.pop();
            self.solver.jump(save);
            let outcome = match built {
                Ok(ty) => Some(ty),
                Err(_) => None,
            };
            let ghost e4 = *self;
            self.locs.resolved.push((String::from_str(loc), outcome));
            proof {
                assert(self.locs.resolved@.last().0@ == loc@);
                assert(resolved(self.locs.resolved@, loc@) == Some(outcome));
                assert(self.locs.underway@ =~= e0.locs.underway@);
                assert(e2.keeps(&e3));
                assert(e4.locs.resolved@ == e3.locs.resolved@);
                assert(e2.locs.resolved@ == e0.locs.resolved@);
                assert(prefix(e0.locs.resolved@, self.locs.resolved@)) by {
                    let (a, b, c) = (e0.locs.resolved@, e4.locs.resolved@, self.locs.resolved@);
                    assert(c.subrange(0, a.len() as int) =~= a) by {
                        assert forall|k: int| 0 <= k < a.len() implies c[k] == a[k] by {
                            assert(b.subrange(0, a.len() as int)[k] == b[k]);
                        }
                    }
                }
                assert(e0.types.grows_to(&self.types));
                assert(e0.keeps(self));
            }
        }
        let found = match find_resolved(&self.locs.resolved, loc) {
            Some(found) => found,
            None => {
                return None;
            },
        };
        proof {
            lemma_resolved_ok(self.locs.resolved@, loc@, &self.types);
        }
        match found {
            Some(ty) => Some(self.solver.freshen(&mut self.types, Level(0), ty)),
            None => None,
        }
    }

    /// Infer the ancestor, then walk down to the object the locator names.
    fn walk(&mut self, top: &Node, path: &Vec<String>, knot: TypeId) -> (r: Result<TypeId, Clash>)
        requires
            old(self).inv(),
            old(self).types.ty_ok(knot),
        ensures
            final(self).inv(),
            old(self).keeps(final(self)),
            old(self).types.knots_kept(&final(self).types),
            old(self).types.recs_kept(&final(self).types),
            r matches Ok(t) ==> final(self).types.ty_ok(t),
            r matches Ok(t) ==> bound_below(final(self).types, t, knot),
            r matches Ok(t) ==> exists|mid: Types, a: TypeId|
                mid.grows_to(&final(self).types) && mid.recs_kept(&final(self).types) && #[trigger] walk_to(
                    &mid,
                    a,
                    segments_of(path@),
                ) == Some(t),
            path@.len() == 0 && (*top is Obj || *top is Lam) && node_binds(*top).len() == 0 && !has_body(*top) && (old(
                self).types.spec_at(knot) matches Type::Var(k) && old(self).types.spec_upper(k).len() == 0
                && old(self).types.spec_lower(k).len() == 0 && old(self).types.spec_level(k)
                == old(self).solver.level.deeper_spec()) ==> r is Ok,
        decreases 2 * (NESTING - old(self).locs.underway@.len()) + 1, size(*top), 4int,
    {
        let ghost e0 = *self;
        let ancestor = self.infer(top, &Vec::new())?;
        let ghost e1 = *self;
        proof {
            e0.types.lemma_grows_keeps(&e1.types, knot);
        }
        let ty = self.descend(ancestor, path)?;
        let ghost before = self.types;
        proof {
            if path@.len() == 0 && (*top is Obj || *top is Lam) && node_binds(*top).len() == 0 && !has_body(*top) && (
            e0.types.spec_at(knot) matches Type::Var(kv) && e0.types.spec_upper(kv).len() == 0
                && e0.types.spec_lower(kv).len() == 0 && e0.types.spec_level(kv) == e0.solver.level.deeper_spec()) {
                let kv = e0.types.spec_at(knot)->Var_0;
                let v = before.spec_at(ty)->Var_0;
                assert(e0.types.type_ok(e0.types.nodes@[knot.0 as int]));
                e0.types.lemma_grows_keeps(&before, knot);
                assert(before.vars@[kv.0 as int] == e0.types.vars@[kv.0 as int]);
                assert(level_of(before, knot, DEPTH as nat) == e0.solver.level.deeper_spec().0);
                assert(crate::solver::lands_below(before, before.spec_lower(v)[0], knot));
                assert(v != kv);
                assert(ty != knot);
                assert(crate::solver::lands_through(before, ty, knot));
            }
        }
        match self.solver.constrain(&mut self.types, ty, knot) {
            Ok(()) => {},
            Err(e) => {
                return Err(e);
            },
        }
        proof {
            lemma_settled_bound(before, self.types, ty, knot);
        }
        proof {
            assert(walk_to(&e1.types, ancestor, segments_of(path@)) == Some(ty));
            assert(e1.types.grows_to(&self.types));
        }
        Ok(ty)
    }

    /// Walk down from a type through the attributes a path names, one segment
    /// after another.
    fn descend(&mut self, from: TypeId, path: &Vec<String>) -> (r: Result<TypeId, Clash>)
        requires
            old(self).inv(),
            old(self).types.ty_ok(from),
        ensures
            *final(self) == *old(self),
            r matches Ok(t) ==> walk_to(&old(self).types, from, segments_of(path@)) == Some(t) && final(self).types.ty_ok(t),
            walk_to(&old(self).types, from, segments_of(path@)) is Some ==> r is Ok,
            r matches Err(c) ==> c is UnknownAttribute,
    {
        let ghost e0 = *self;
        let mut ty = from;
        let mut k: usize = 0;
        while k < path.len()
            invariant
                *self == e0,
                e0 == *old(self),
                self.inv(),
                self.types.ty_ok(ty),
                0 <= k <= path@.len(),
                walk_to(&e0.types, from, segments_of(path@).subrange(0, k as int)) == Some(ty),
            decreases path@.len() - k,
        {
            let ghost segs = segments_of(path@);
            assert(segs.subrange(0, k + 1).drop_last() =~= segs.subrange(0, k as int));
            assert(segs.subrange(0, k + 1).last() == path@[k as int]@);
            match self.project(ty, path[k].as_str()) {
                Ok(next) => {
                    ty = next;
                },
                Err(e) => {
                    proof {
                        assert(walk_to(&e0.types, from, segs.subrange(0, k + 1)) is None);
                        lemma_walk_stuck(&e0.types, from, segs.subrange(0, k + 1), segs);
                    }
                    return Err(e);
                },
            }
            k = k + 1;
        }
        proof {
            assert(segments_of(path@).subrange(0, path@.len() as int) =~= segments_of(path@));
        }
        Ok(ty)
    }
}

/// What stands for a locator under way is a type of the arena.
proof fn lemma_underway_ok(entries: Seq<(String, TypeId)>, loc: Seq<char>, types: &Types)
    requires
        forall|i: int| 0 <= i < entries.len() ==> types.ty_ok((#[trigger] entries[i]).1),
        underway(entries, loc) is Some,
    ensures
        types.ty_ok(underway(entries, loc)->0),
    decreases entries.len(),
{
    if entries.last().0@ != loc {
        lemma_underway_ok(entries.drop_last(), loc, types);
    } else {
        assert(types.ty_ok(entries[entries.len() - 1].1));
    }
}

/// What a locator resolved to is a type of the arena.
proof fn lemma_resolved_ok(entries: Seq<(String, Option<TypeId>)>, loc: Seq<char>, types: &Types)
    requires
        forall|i: int| 0 <= i < entries.len() ==> ((#[trigger] entries[i]).1 matches Some(t) ==> types.ty_ok(t)),
        resolved(entries, loc) is Some,
    ensures
        resolved(entries, loc)->0 matches Some(t) ==> types.ty_ok(t),
    decreases entries.len(),
{
    if entries.last().0@ != loc {
        lemma_resolved_ok(entries.drop_last(), loc, types);
    } else {
        assert(entries[entries.len() - 1] == entries.last());
    }
}

/// The unknown standing for a locator being resolved right now.
pub open spec fn underway(entries: Seq<(String, TypeId)>, loc: Seq<char>) -> Option<TypeId>
    decreases entries.len(),
{
    if entries.len() == 0 {
        None
    } else if entries.last().0@ == loc {
        Some(entries.last().1)
    } else {
        underway(entries.drop_last(), loc)
    }
}

/// What a locator resolved to, when it has been resolved.
pub open spec fn resolved(entries: Seq<(String, Option<TypeId>)>, loc: Seq<char>) -> Option<Option<TypeId>>
    decreases entries.len(),
{
    if entries.len() == 0 {
        None
    } else if entries.last().0@ == loc {
        Some(entries.last().1)
    } else {
        resolved(entries.drop_last(), loc)
    }
}

/// The unknown standing for a locator being resolved right now.
fn find_underway(entries: &Vec<(String, TypeId)>, loc: &str) -> (found: Option<TypeId>)
    ensures
        found == underway(entries@, loc@),
{
    let mut i = entries.len();
    assert(entries@.subrange(0, entries@.len() as int) =~= entries@);
    while i > 0
        invariant
            0 <= i <= entries@.len(),
            underway(entries@, loc@) == underway(entries@.subrange(0, i as int), loc@),
        decreases i,
    {
        assert(entries@.subrange(0, i as int).drop_last() =~= entries@.subrange(0, i - 1));
        if same_text(entries[i - 1].0.as_str(), loc) {
            return Some(entries[i - 1].1);
        }
        i = i - 1;
    }
    None
}

/// What a locator resolved to, when it has been resolved.
fn find_resolved(entries: &Vec<(String, Option<TypeId>)>, loc: &str) -> (found: Option<Option<TypeId>>)
    ensures
        found == resolved(entries@, loc@),
{
    let mut i = entries.len();
    assert(entries@.subrange(0, entries@.len() as int) =~= entries@);
    while i > 0
        invariant
            0 <= i <= entries@.len(),
            resolved(entries@, loc@) == resolved(entries@.subrange(0, i as int), loc@),
        decreases i,
    {
        assert(entries@.subrange(0, i as int).drop_last() =~= entries@.subrange(0, i - 1));
        if same_text(entries[i - 1].0.as_str(), loc) {
            return Some(entries[i - 1].1);
        }
        i = i - 1;
    }
    None
}

} // verus!
