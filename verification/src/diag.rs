//! Diagnostics.
//!
//! What a report needs besides the verdicts themselves: the tally a build
//! gates on, the directory the inputs share, which is what a consumer means by
//! the source of a report, and the unmodelled names in the order a reader
//! wants them.

use vstd::prelude::*;

use crate::solver::Clash;
use crate::types::prefix;

verus! {

/// The tally of a run: how many objects were checked, how many of them were
/// refused and how many only flagged, and how many inputs could not be read
/// and how many formas name nothing. Each count stops at the largest `usize`
/// rather than wrapping.
#[derive(Debug)]
pub struct Findings {
    /// The objects checked.
    pub objects: usize,
    /// The objects refused with a clash that stops a build.
    pub refused: usize,
    /// The objects flagged with a clash that does not stop a build.
    pub flagged: usize,
    /// The inputs that could not be read.
    pub unreadable: usize,
    /// The formas that name no object.
    pub broken: usize,
}

impl Findings {
    /// No object is both refused and flagged, so together they are at most the
    /// objects checked.
    pub open spec fn wf(&self) -> bool {
        self.refused + self.flagged <= self.objects
    }

    /// Nothing found yet.
    pub fn new() -> (findings: Findings)
        ensures
            findings.wf(),
            findings.objects == 0,
            findings.refused == 0,
            findings.flagged == 0,
            findings.unreadable == 0,
            findings.broken == 0,
    {
        Findings { objects: 0, refused: 0, flagged: 0, unreadable: 0, broken: 0 }
    }

    /// One more object typed.
    pub fn typed(&mut self)
        requires
            old(self).wf(),
        ensures
            final(self).wf(),
            final(self).objects == if old(self).objects < usize::MAX {
                old(self).objects + 1
            } else {
                old(self).objects as int
            },
            final(self).refused == old(self).refused,
            final(self).flagged == old(self).flagged,
            final(self).unreadable == old(self).unreadable,
            final(self).broken == old(self).broken,
    {
        if self.objects < usize::MAX {
            self.objects = self.objects + 1;
        }
    }

    /// One more object with a clash: refused when the clash stops a build,
    /// flagged when it does not.
    pub fn rejected(&mut self, clash: &Clash)
        requires
            old(self).wf(),
        ensures
            final(self).wf(),
            old(self).objects < usize::MAX ==> final(self).objects == old(self).objects + 1,
            old(self).objects < usize::MAX ==> final(self).refused == old(self).refused + if clash is Exhausted {
                0int
            } else {
                1int
            },
            old(self).objects < usize::MAX ==> final(self).flagged == old(self).flagged + if clash is Exhausted {
                1int
            } else {
                0int
            },
            old(self).objects == usize::MAX ==> *final(self) == *old(self),
            final(self).unreadable == old(self).unreadable,
            final(self).broken == old(self).broken,
    {
        if self.objects < usize::MAX {
            self.objects = self.objects + 1;
            if clash.gates() {
                self.refused = self.refused + 1;
            } else {
                self.flagged = self.flagged + 1;
            }
        }
    }

    /// One more input that could not be read.
    pub fn unreadable(&mut self)
        ensures
            final(self).unreadable == if old(self).unreadable < usize::MAX {
                old(self).unreadable + 1
            } else {
                old(self).unreadable as int
            },
            final(self).objects == old(self).objects,
            final(self).refused == old(self).refused,
            final(self).flagged == old(self).flagged,
            final(self).broken == old(self).broken,
    {
        self.unreadable = self.unreadable.saturating_add(1);
    }

    /// One more forma that names nothing.
    pub fn dangling(&mut self)
        ensures
            final(self).broken == if old(self).broken < usize::MAX {
                old(self).broken + 1
            } else {
                old(self).broken as int
            },
            final(self).objects == old(self).objects,
            final(self).refused == old(self).refused,
            final(self).flagged == old(self).flagged,
            final(self).unreadable == old(self).unreadable,
    {
        self.broken = self.broken.saturating_add(1);
    }

    /// The errors a build stops on: refused objects, unreadable inputs and
    /// broken formas.
    pub fn errors(&self) -> (n: usize)
        ensures
            n == if self.refused + self.unreadable + self.broken <= usize::MAX {
                self.refused + self.unreadable + self.broken
            } else {
                usize::MAX as int
            },
    {
        self.refused.saturating_add(self.unreadable).saturating_add(self.broken)
    }

    /// The objects that typed without any clash.
    pub fn clean(&self) -> (n: usize)
        requires
            self.wf(),
        ensures
            n == self.objects - self.refused - self.flagged,
    {
        self.objects - self.refused - self.flagged
    }

    /// Whether a build may go on: nothing it stops on was found.
    pub fn passed(&self) -> (ok: bool)
        ensures
            ok == (self.refused == 0 && self.unreadable == 0 && self.broken == 0),
    {
        self.refused == 0 && self.unreadable == 0 && self.broken == 0
    }
}

/// The longest prefix two paths share, each path a sequence of components.
pub open spec fn common_prefix(a: Seq<Seq<char>>, b: Seq<Seq<char>>) -> Seq<Seq<char>>
    decreases a.len(),
{
    if a.len() == 0 || b.len() == 0 || a[0] != b[0] {
        Seq::empty()
    } else {
        seq![a[0]] + common_prefix(a.drop_first(), b.drop_first())
    }
}

/// The components of a path, as plain values.
pub open spec fn components(path: Seq<String>) -> Seq<Seq<char>> {
    path.map_values(|c: String| c@)
}

/// The prefix all of some paths share: none of no paths, the one path of one,
/// and for more the prefix the first ones share, shortened against the last.
pub open spec fn spec_common(paths: Seq<Seq<Seq<char>>>) -> Seq<Seq<char>>
    decreases paths.len(),
{
    if paths.len() == 0 {
        Seq::empty()
    } else if paths.len() == 1 {
        paths[0]
    } else {
        common_prefix(spec_common(paths.drop_last()), paths.last())
    }
}

/// Where two paths part: the common prefix is the first `i` components when
/// they agree up to `i` and differ, or one ends, there.
proof fn lemma_common_prefix(a: Seq<Seq<char>>, b: Seq<Seq<char>>, i: int)
    requires
        0 <= i <= a.len(),
        i <= b.len(),
        forall|k: int| 0 <= k < i ==> a[k] == b[k],
        i == a.len() || i == b.len() || a[i] != b[i],
    ensures
        common_prefix(a, b) =~= a.subrange(0, i),
    decreases i,
{
    if i > 0 {
        lemma_common_prefix(a.drop_first(), b.drop_first(), i - 1);
        assert(seq![a[0]] + a.drop_first().subrange(0, i - 1) =~= a.subrange(0, i));
    }
}

/// The prefix two paths share begins both of them, and it is the longest that
/// does: past it one path ends or the two differ.
pub proof fn law_shared_prefix_is_longest(a: Seq<Seq<char>>, b: Seq<Seq<char>>)
    ensures
        prefix(common_prefix(a, b), a),
        prefix(common_prefix(a, b), b),
        ({
            let n = common_prefix(a, b).len() as int;
            n == a.len() || n == b.len() || a[n] != b[n]
        }),
    decreases a.len(),
{
    if a.len() > 0 && b.len() > 0 && a[0] == b[0] {
        law_shared_prefix_is_longest(a.drop_first(), b.drop_first());
        let rest = common_prefix(a.drop_first(), b.drop_first());
        assert(a.subrange(0, rest.len() as int + 1) =~= seq![a[0]] + a.drop_first().subrange(0, rest.len() as int));
        assert(b.subrange(0, rest.len() as int + 1) =~= seq![b[0]] + b.drop_first().subrange(0, rest.len() as int));
    } else {
        assert(a.subrange(0, 0) =~= Seq::<Seq<char>>::empty());
        assert(b.subrange(0, 0) =~= Seq::<Seq<char>>::empty());
    }
}

/// Which of two paths comes first makes no difference to what they share.
pub proof fn law_shared_prefix_symmetric(a: Seq<Seq<char>>, b: Seq<Seq<char>>)
    ensures
        common_prefix(a, b) == common_prefix(b, a),
    decreases a.len(),
{
    if a.len() > 0 && b.len() > 0 && a[0] == b[0] {
        law_shared_prefix_symmetric(a.drop_first(), b.drop_first());
    }
}

/// A path shares all of itself with itself.
pub proof fn law_shared_prefix_of_itself(a: Seq<Seq<char>>)
    ensures
        common_prefix(a, a) == a,
    decreases a.len(),
{
    if a.len() > 0 {
        law_shared_prefix_of_itself(a.drop_first());
        assert(seq![a[0]] + a.drop_first() =~= a);
    }
}

/// What begins a path that begins another begins that other too.
proof fn lemma_prefix_transitive(a: Seq<Seq<char>>, b: Seq<Seq<char>>, c: Seq<Seq<char>>)
    requires
        prefix(a, b),
        prefix(b, c),
    ensures
        prefix(a, c),
{
    assert(c.subrange(0, a.len() as int) =~= c.subrange(0, b.len() as int).subrange(0, a.len() as int));
}

/// The directory several directories share begins every one of them.
pub proof fn law_common_begins_every(paths: Seq<Seq<Seq<char>>>, i: int)
    requires
        0 <= i < paths.len(),
    ensures
        prefix(spec_common(paths), paths[i]),
    decreases paths.len(),
{
    if paths.len() == 1 {
        assert(paths[i].subrange(0, paths[i].len() as int) =~= paths[i]);
    } else {
        let first = spec_common(paths.drop_last());
        law_shared_prefix_is_longest(first, paths.last());
        if i < paths.len() - 1 {
            law_common_begins_every(paths.drop_last(), i);
            lemma_prefix_transitive(common_prefix(first, paths.last()), first, paths[i]);
        }
    }
}

/// The longest prefix two directories share.
pub fn shorten(known: &Vec<String>, other: &Vec<String>) -> (shared: Vec<String>)
    ensures
        components(shared@) == common_prefix(components(known@), components(other@)),
{
    let mut shared: Vec<String> = Vec::new();
    let mut i: usize = 0;
    while i < known.len() && i < other.len() && known[i] == other[i]
        invariant
            0 <= i <= known@.len(),
            i <= other@.len(),
            forall|k: int| 0 <= k < i ==> known@[k]@ == other@[k]@,
            shared@.len() == i,
            forall|k: int| 0 <= k < i ==> shared@[k]@ == known@[k]@,
        decreases known@.len() - i,
    {
        shared.push(known[i].clone());
        i = i + 1;
    }
    proof {
        assert(components(shared@) =~= components(known@).subrange(0, i as int));
        lemma_common_prefix(components(known@), components(other@), i as int);
    }
    shared
}

/// The directory all of some directories share, each a sequence of
/// components; none when there are no directories.
pub fn common(dirs: &Vec<Vec<String>>) -> (shared: Vec<String>)
    ensures
        components(shared@) == spec_common(dirs@.map_values(|d: Vec<String>| components(d@))),
{
    let ghost all = dirs@.map_values(|d: Vec<String>| components(d@));
    let mut shared: Vec<String> = Vec::new();
    let mut i: usize = 0;
    while i < dirs.len()
        invariant
            0 <= i <= dirs@.len(),
            all == dirs@.map_values(|d: Vec<String>| components(d@)),
            components(shared@) == spec_common(all.subrange(0, i as int)),
        decreases dirs@.len() - i,
    {
        let ghost before = all.subrange(0, i as int);
        let ghost after = all.subrange(0, i + 1);
        assert(after.drop_last() =~= before);
        if i == 0 {
            let mut first: Vec<String> = Vec::new();
            let mut k: usize = 0;
            while k < dirs[0].len()
                invariant
                    0 < dirs@.len(),
                    0 <= k <= dirs@[0]@.len(),
                    first@.len() == k,
                    forall|j: int| 0 <= j < k ==> first@[j]@ == dirs@[0]@[j]@,
                decreases dirs@[0]@.len() - k,
            {
                first.push(dirs[0][k].clone());
                k = k + 1;
            }
            assert(components(first@) =~= components(dirs@[0]@));
            shared = first;
        } else {
            shared = shorten(&shared, &dirs[i]);
        }
        i = i + 1;
    }
    assert(all.subrange(0, dirs@.len() as int) =~= all);
    shared
}

/// Whether one text sorts before another: by the first character where they
/// differ, a text before every longer text it begins.
pub open spec fn text_before(a: Seq<char>, b: Seq<char>) -> bool
    decreases a.len(),
{
    if a.len() == 0 {
        b.len() > 0
    } else if b.len() == 0 {
        false
    } else if a[0] != b[0] {
        (a[0] as u32) < (b[0] as u32)
    } else {
        text_before(a.drop_first(), b.drop_first())
    }
}

/// No text sorts before a text that sorts before it.
pub proof fn lemma_text_before_asymmetric(a: Seq<char>, b: Seq<char>)
    requires
        text_before(a, b),
    ensures
        !text_before(b, a),
    decreases a.len(),
{
    if a.len() > 0 && b.len() > 0 && a[0] == b[0] {
        lemma_text_before_asymmetric(a.drop_first(), b.drop_first());
    }
}

/// Sorting before is transitive.
pub proof fn lemma_text_before_transitive(a: Seq<char>, b: Seq<char>, c: Seq<char>)
    requires
        text_before(a, b),
        text_before(b, c),
    ensures
        text_before(a, c),
    decreases a.len(),
{
    if a.len() > 0 && b.len() > 0 && c.len() > 0 && a[0] == b[0] && b[0] == c[0] {
        lemma_text_before_transitive(a.drop_first(), b.drop_first(), c.drop_first());
    }
}

/// Whether one count comes before another in a ranking: more reaches first,
/// and among equally many the name that sorts first.
pub open spec fn ranks_before(x: (String, usize), y: (String, usize)) -> bool {
    x.1 > y.1 || (x.1 == y.1 && text_before(x.0@, y.0@))
}

/// Whether counts are in ranking order: nothing comes after what it ranks
/// before.
pub open spec fn ranked_order(counts: Seq<(String, usize)>) -> bool {
    forall|i: int, j: int| 0 <= i < j < counts.len() ==> !ranks_before(#[trigger] counts[j], #[trigger] counts[i])
}

/// Whether the first text sorts before the second.
fn before(a: &str, b: &str) -> (first: bool)
    ensures
        first == text_before(a@, b@),
{
    let n = a.unicode_len();
    let m = b.unicode_len();
    let mut i: usize = 0;
    assert(a@.skip(0) =~= a@ && b@.skip(0) =~= b@);
    while i < n && i < m && a.get_char(i) == b.get_char(i)
        invariant
            n == a@.len(),
            m == b@.len(),
            0 <= i <= n,
            i <= m,
            text_before(a@, b@) == text_before(a@.skip(i as int), b@.skip(i as int)),
        decreases n - i,
    {
        proof {
            assert(a@.skip(i as int).drop_first() =~= a@.skip(i + 1));
            assert(b@.skip(i as int).drop_first() =~= b@.skip(i + 1));
        }
        i = i + 1;
    }
    if i == n {
        i < m
    } else if i == m {
        false
    } else {
        (a.get_char(i) as u32) < (b.get_char(i) as u32)
    }
}

/// Whether one count ranks before another.
fn ranks(x: &(String, usize), y: &(String, usize)) -> (first: bool)
    ensures
        first == ranks_before(*x, *y),
{
    x.1 > y.1 || (x.1 == y.1 && before(x.0.as_str(), y.0.as_str()))
}

/// Which names hit the forgiving fallback, in ranking order: the most reached
/// first, and among equally many by name. The same entries, reordered.
pub fn ranked(counts: &Vec<(String, usize)>) -> (order: Vec<(String, usize)>)
    ensures
        order@.to_multiset() == counts@.to_multiset(),
        ranked_order(order@),
{
    broadcast use vstd::seq_lib::group_to_multiset_ensures;
    let mut order: Vec<(String, usize)> = Vec::new();
    let mut k: usize = 0;
    while k < counts.len()
        invariant
            0 <= k <= counts@.len(),
            order@.to_multiset() == counts@.subrange(0, k as int).to_multiset(),
            ranked_order(order@),
        decreases counts@.len() - k,
    {
        let item = (counts[k].0.clone(), counts[k].1);
        assert(item == counts@[k as int]);
        let mut p: usize = 0;
        while p < order.len() && !ranks(&item, &order[p])
            invariant
                0 <= p <= order@.len(),
                forall|i: int| 0 <= i < p ==> !ranks_before(item, #[trigger] order@[i]),
            decreases order@.len() - p,
        {
            p = p + 1;
        }
        let ghost prev = order@;
        order.insert(p, item);
        proof {
            assert forall|i: int, j: int| 0 <= i < j < order@.len() implies !ranks_before(
                #[trigger] order@[j],
                #[trigger] order@[i],
            ) by {
                if j == p {
                } else if i == p {
                    let jj = j - 1;
                    assert(order@[j] == prev[jj]);
                    if ranks_before(prev[jj], item) {
                        if prev[jj].1 == item.1 && prev[p as int].1 == item.1 {
                            lemma_text_before_transitive(prev[jj].0@, item.0@, prev[p as int].0@);
                        }
                        if jj == p {
                            if prev[jj].1 == item.1 {
                                lemma_text_before_asymmetric(item.0@, prev[jj].0@);
                            }
                        } else {
                            assert(!ranks_before(prev[jj], prev[p as int]));
                        }
                    }
                } else {
                    let ii = if i < p { i } else { i - 1 };
                    let jj = if j < p { j } else { j - 1 };
                    assert(order@[i] == prev[ii]);
                    assert(order@[j] == prev[jj]);
                }
            }
            assert(prev.insert(p as int, item) == order@);
            vstd::seq_lib::to_multiset_insert(prev, p as int, item);
            vstd::seq_lib::to_multiset_build(counts@.subrange(0, k as int), item);
            assert(counts@.subrange(0, k + 1) =~= counts@.subrange(0, k as int).push(item));
        }
        k = k + 1;
    }
    assert(counts@.subrange(0, counts@.len() as int) =~= counts@);
    order
}

} // verus!
