//! The reader for EO's `1-parse` XMIR.
//!
//! It understands the `<o>` vocabulary the parser emits: formations and their
//! attributes, voids, decoratees, dispatches, global references, application
//! arguments, and the type annotations an atom declares about itself.
//!
//! The parser emits φ-calculus normal form, in which a formation is an `<o>`
//! with no `base` and its children are its attributes; a void is
//! `base="∅"`; the decoratee is the child named `φ`; arguments carry
//! `as="αN"` and a dispatch `base=".m"` takes its one child without `as` as
//! the receiver; bases are scope-qualified as `Φ.x`, `ξ.x` or `ξ.ρ.x`; and a
//! literal is a primitive constructor applied to raw hex text.

use vstd::prelude::*;

use crate::types::{Site, Spot, copy_text, same_text};

verus! {

/// One node of the abstract syntax tree: the four moves, the literals, and the
/// two failure forms.
#[derive(Debug)]
pub enum Node {
    /// A name, looked up in scope and then among the built-ins.
    Name(String),
    /// A number literal.
    Num,
    /// A string literal.
    Str,
    /// Raw data.
    Bytes,
    /// A boolean literal.
    Bool,
    /// A tuple literal.
    Tuple,
    /// A formation with no voids: an object.
    Obj {
        /// What it is called, if anything.
        name: Option<String>,
        /// Its attributes, in the order they were written.
        binds: Vec<(String, Node)>,
    },
    /// A formation with voids: fill them, then behave as the body.
    Lam {
        /// What it is called, if anything.
        name: Option<String>,
        /// Its voids, in application order.
        params: Vec<String>,
        /// Its decoratee.
        body: Option<Box<Node>>,
        /// Its other named attributes, inferred so their bodies get checked.
        binds: Vec<(String, Node)>,
    },
    /// Fill the next void of something.
    Apply {
        /// What is being applied.
        fun: Box<Node>,
        /// What fills the void.
        arg: Box<Node>,
    },
    /// Require an attribute of something.
    Dispatch {
        /// The receiver.
        obj: Box<Node>,
        /// The attribute wanted.
        label: String,
        /// Where it was written.
        site: Site,
    },
    /// Optional chaining: dispatch on a receiver that may be `⊥`, propagating
    /// that possibility rather than failing.
    Fragile {
        /// The receiver.
        obj: Box<Node>,
        /// The attribute wanted.
        label: String,
        /// Where it was written.
        site: Site,
    },
    /// Mark a value as possibly `⊥`.
    Maybe(Box<Node>),
    /// Strip the `⊥` off a value, falling back to an alternative.
    Recovered {
        /// The value that may be `⊥`.
        value: Box<Node>,
        /// What to use instead.
        alt: Box<Node>,
    },
    /// A native atom typed purely by what it declares about itself.
    Atom {
        /// Its voids, in application order.
        voids: Vec<Void>,
        /// Its declared return type.
        ret: Option<String>,
    },
    /// A forma naming a non-primitive object by its `Φ`-rooted locator.
    Loc(String),
}


/// How many nodes a tree holds.
pub open spec fn size(node: Node) -> nat
    decreases node,
{
    match node {
        Node::Obj { binds, .. } => 1 + sizes(binds@),
        Node::Lam { body, binds, .. } => 1 + sizes(binds@) + match body {
            Some(b) => size(*b),
            None => 0,
        },
        Node::Apply { fun, arg } => 1 + size(*fun) + size(*arg),
        Node::Dispatch { obj, .. } => 1 + size(*obj),
        Node::Fragile { obj, .. } => 1 + size(*obj),
        Node::Maybe(inner) => 1 + size(*inner),
        Node::Recovered { value, alt } => 1 + size(*value) + size(*alt),
        _ => 1,
    }
}

/// How many nodes some attributes hold.
pub open spec fn sizes(binds: Seq<(String, Node)>) -> nat
    decreases binds,
{
    if binds.len() == 0 {
        0
    } else {
        sizes(binds.drop_last()) + size(binds.last().1)
    }
}

/// Each attribute holds no more nodes than all of them.
pub proof fn lemma_sizes(binds: Seq<(String, Node)>, i: int)
    requires
        0 <= i < binds.len(),
    ensures
        size(binds[i].1) <= sizes(binds),
    decreases binds.len(),
{
    if i < binds.len() - 1 {
        lemma_sizes(binds.drop_last(), i);
    }
}

/// A void of a declared atom, with whatever it says about itself.
#[derive(Clone, Debug)]
pub struct Void {
    /// The name of the void.
    pub label: String,
    /// What it declares.
    pub kind: Kind,
}

/// What a declared void says about itself.
#[derive(Clone, Debug)]
pub enum Kind {
    /// Nothing.
    Plain,
    /// Its own type.
    Own(String),
    /// It is a callback, over these argument types.
    Args(String),
}

/// Something went wrong before type checking could start.
#[derive(Debug)]
pub enum Trouble {
    /// The file could not be read.
    Unreadable(String),
    /// The file is not well-formed XML.
    Malformed(String),
}


/// The last segment of a scope-qualified base: everything after its last
/// dot, or all of it when it has none.
pub open spec fn spec_tail(base: Seq<char>) -> Seq<char>
    decreases base.len(),
{
    if base.len() == 0 {
        base
    } else if base.last() == '.' {
        Seq::empty()
    } else {
        spec_tail(base.drop_last()).push(base.last())
    }
}

/// What follows the last dot is the end of the text after it.
proof fn lemma_tail(base: Seq<char>, j: int)
    requires
        0 <= j <= base.len(),
        forall|k: int| j <= k < base.len() ==> base[k] != '.',
        j == 0 || base[j - 1] == '.',
    ensures
        spec_tail(base) =~= base.subrange(j, base.len() as int),
    decreases base.len(),
{
    if base.len() > j {
        lemma_tail(base.drop_last(), j);
        assert(base.drop_last().subrange(j, base.len() - 1).push(base.last()) =~= base.subrange(j, base.len() as int));
    } else if j > 0 {
        assert(base.last() == '.');
    }
}

/// The last segment of a base ends it, and a base without a dot is its own
/// last segment.
pub proof fn law_tail_is_suffix(base: Seq<char>)
    ensures
        spec_tail(base).len() <= base.len(),
        base.subrange(base.len() - spec_tail(base).len(), base.len() as int) == spec_tail(base),
        !base.contains('.') ==> spec_tail(base) == base,
    decreases base.len(),
{
    if base.len() > 0 {
        law_tail_is_suffix(base.drop_last());
        if base.last() != '.' {
            let t = spec_tail(base.drop_last());
            let n = base.len();
            assert(base.subrange(n - t.len() - 1, n as int) =~= base.drop_last().subrange(n - 1 - t.len(), n - 1).push(
                base.last(),
            ));
            if !base.contains('.') {
                assert(!base.drop_last().contains('.')) by {
                    if base.drop_last().contains('.') {
                        let k = choose|k: int| 0 <= k < base.drop_last().len() && base.drop_last()[k] == '.';
                        assert(base[k] == '.');
                    }
                }
                assert(base.drop_last().push(base.last()) =~= base);
            }
        } else {
            assert(base.subrange(base.len() as int, base.len() as int) =~= Seq::<char>::empty());
            assert(base[base.len() - 1] == '.');
        }
    }
}

/// The last segment of a base holds no dot, so taking the last segment of it
/// again changes nothing.
pub proof fn law_tail_is_final(base: Seq<char>)
    ensures
        !spec_tail(base).contains('.'),
        spec_tail(spec_tail(base)) == spec_tail(base),
    decreases base.len(),
{
    if base.len() > 0 && base.last() != '.' {
        law_tail_is_final(base.drop_last());
        let rest = spec_tail(base.drop_last());
        assert(rest.push(base.last()).drop_last() =~= rest);
        assert forall|k: int| 0 <= k < rest.len() + 1 implies rest.push(base.last())[k] != '.' by {
            if k < rest.len() {
                assert(rest[k] != '.') by {
                    if rest[k] == '.' {
                        assert(rest.contains('.'));
                    }
                }
            }
        }
    }
    lemma_tail_of_dotless(spec_tail(base));
}

/// A text without a dot is its own last segment.
proof fn lemma_tail_of_dotless(text: Seq<char>)
    requires
        !text.contains('.'),
    ensures
        spec_tail(text) == text,
    decreases text.len(),
{
    if text.len() > 0 {
        assert(text.last() == text[text.len() - 1]);
        assert(!text.drop_last().contains('.')) by {
            if text.drop_last().contains('.') {
                let k = choose|k: int| 0 <= k < text.drop_last().len() && text.drop_last()[k] == '.';
                assert(text[k] == '.');
            }
        }
        lemma_tail_of_dotless(text.drop_last());
        assert(text.drop_last().push(text.last()) =~= text);
    }
}

/// The last segment of a scope-qualified base: `Φ.bool` to `bool`, `ξ.ρ.if` to
/// `if`, `.eq` to `eq`.
pub fn tail(base: &str) -> (last: String)
    ensures
        last@ == spec_tail(base@),
{
    let n = base.unicode_len();
    let mut j = n;
    while j > 0 && base.get_char(j - 1) != '.'
        invariant
            0 <= j <= n,
            n == base@.len(),
            forall|k: int| j <= k < n ==> base@[k] != '.',
        decreases j,
    {
        j = j - 1;
    }
    proof {
        lemma_tail(base@, j as int);
    }
    String::from_str(base.substring_char(j, n))
}

/// A universally quantified variable: a single letter from `A` to `F`.
pub open spec fn is_generic(sig: Seq<char>) -> bool {
    sig.len() == 1 && 'A' <= sig[0] && sig[0] <= 'F'
}

/// Whether an annotation is a universally quantified variable rather than a
/// forma: a single letter from `A` to `F`.
pub fn generic(sig: &str) -> (quantified: bool)
    ensures
        quantified == is_generic(sig@),
{
    if sig.unicode_len() != 1 {
        return false;
    }
    let c = sig.get_char(0);
    'A' <= c && c <= 'F'
}

/// An annotation with the mark of a maybe-`⊥` value taken off its end.
pub open spec fn spec_core(claim: Seq<char>) -> Seq<char> {
    if claim.len() > 0 && claim.last() == '?' {
        claim.drop_last()
    } else {
        claim
    }
}

/// Whether a text begins with the root of the object graph, `Φ.`.
pub open spec fn from_root(text: Seq<char>) -> bool {
    text.len() >= 2 && text[0] == 'Φ' && text[1] == '.'
}

/// The object a single annotation claims, when it claims one at all.
pub open spec fn spec_rooted(claim: Seq<char>) -> Option<Seq<char>> {
    let core = spec_core(claim);
    if is_generic(core) || core == "⊥"@ || !from_root(core) {
        None
    } else {
        Some(core)
    }
}

/// The object a single annotation claims, when it claims one at all. A generic
/// letter names no object, nor does `⊥`, nor does anything that is not rooted
/// at `Φ`.
pub fn rooted(claim: &str) -> (object: Option<String>)
    ensures
        object is Some == spec_rooted(claim@) is Some,
        object matches Some(o) ==> Some(o@) == spec_rooted(claim@),
{
    let n = claim.unicode_len();
    let core = if n > 0 && claim.get_char(n - 1) == '?' {
        claim.substring_char(0, n - 1)
    } else {
        claim.substring_char(0, n)
    };
    proof {
        assert(claim@.subrange(0, n as int) =~= claim@);
        assert(claim@.subrange(0, n - 1) =~= claim@.drop_last());
    }
    let m = core.unicode_len();
    let starts = m >= 2 && core.get_char(0) == 'Φ' && core.get_char(1) == '.';
    if generic(core) || same_text(core, "⊥") || !starts {
        None
    } else {
        Some(String::from_str(core))
    }
}

/// The literal a primitive constructor stands for.
pub open spec fn spec_primitive(name: Seq<char>) -> Option<Node> {
    if name == "bytes"@ {
        Some(Node::Bytes)
    } else if name == "number"@ || name == "i64"@ || name == "i32"@ || name == "i16"@ || name == "float"@ {
        Some(Node::Num)
    } else if name == "string"@ {
        Some(Node::Str)
    } else if name == "bool"@ {
        Some(Node::Bool)
    } else if name == "tuple"@ {
        Some(Node::Tuple)
    } else {
        None
    }
}

/// The literal a primitive constructor stands for.
pub fn primitive(name: &str) -> (literal: Option<Node>)
    ensures
        literal == spec_primitive(name@),
{
    if same_text(name, "bytes") {
        Some(Node::Bytes)
    } else if same_text(name, "number") || same_text(name, "i64") || same_text(name, "i32")
        || same_text(name, "i16") || same_text(name, "float") {
        Some(Node::Num)
    } else if same_text(name, "string") {
        Some(Node::Str)
    } else if same_text(name, "bool") {
        Some(Node::Bool)
    } else if same_text(name, "tuple") {
        Some(Node::Tuple)
    } else {
        None
    }
}

/// Whether a node is what a declared result reads as: the literal of a
/// primitive, or else a reference to the object the forma names.
pub open spec fn forma_of(fqn: Seq<char>, node: Node) -> bool {
    match spec_primitive(spec_tail(fqn)) {
        Some(literal) => node == literal,
        None => node matches Node::Loc(loc) && loc@ == fqn,
    }
}

/// The declared result of a native atom: a primitive, or a reference to the
/// object the forma names.
pub fn forma(fqn: &str) -> (node: Node)
    ensures
        forma_of(fqn@, node),
{
    let last = tail(fqn);
    match primitive(last.as_str()) {
        Some(literal) => literal,
        None => Node::Loc(String::from_str(fqn)),
    }
}

/// The segments of a dotted path, in order: what lies between its dots.
pub open spec fn segments(path: Seq<char>) -> Seq<Seq<char>>
    decreases path.len(),
{
    if path.len() == 0 {
        seq![Seq::empty()]
    } else {
        let rest = segments(path.drop_last());
        if path.last() == '.' {
            rest.push(Seq::empty())
        } else {
            rest.update(rest.len() - 1, rest.last().push(path.last()))
        }
    }
}

/// A path always has at least one segment.
proof fn lemma_segments_len(path: Seq<char>)
    ensures
        segments(path).len() >= 1,
    decreases path.len(),
{
    if path.len() > 0 {
        lemma_segments_len(path.drop_last());
    }
}

/// The attribute a segment of a relative path dispatches: the decoratee `φ`
/// is dispatched as `@`.
pub open spec fn relabel(segment: Seq<char>) -> Seq<char> {
    if segment == "φ"@ {
        "@"@
    } else {
        segment
    }
}

/// Whether a node walks a relative path: a name for the first segment, then a
/// dispatch for each segment after it, all written at one site.
pub open spec fn walks(node: Node, segs: Seq<Seq<char>>, site: Site) -> bool
    decreases segs.len(),
{
    if segs.len() <= 1 {
        segs.len() == 1 && (node matches Node::Name(n) && n@ == segs[0])
    } else {
        node matches Node::Dispatch { obj, label, site: at } && label@ == relabel(segs.last()) && at == site
            && walks(*obj, segs.drop_last(), site)
    }
}

/// The segments of a dotted path, each as a string.
pub fn split_dots(path: &str) -> (segs: Vec<String>)
    ensures
        segs@.len() == segments(path@).len(),
        forall|i: int| 0 <= i < segs@.len() ==> (#[trigger] segs@[i])@ == segments(path@)[i],
{
    let n = path.unicode_len();
    let mut segs: Vec<String> = Vec::new();
    let mut start: usize = 0;
    let mut i: usize = 0;
    while i < n
        invariant
            n == path@.len(),
            0 <= start <= i <= n,
            segments(path@.subrange(0, i as int)).len() == segs@.len() + 1,
            forall|k: int| 0 <= k < segs@.len() ==> (#[trigger] segs@[k])@ == segments(path@.subrange(0, i as int))[k],
            segments(path@.subrange(0, i as int)).last() == path@.subrange(start as int, i as int),
        decreases n - i,
    {
        let ghost before = path@.subrange(0, i as int);
        let ghost after = path@.subrange(0, i + 1);
        assert(after.drop_last() =~= before);
        if path.get_char(i) == '.' {
            segs.push(String::from_str(path.substring_char(start, i)));
            start = i + 1;
            assert(path@.subrange(start as int, i + 1) =~= Seq::<char>::empty());
        } else {
            assert(path@.subrange(start as int, i + 1) =~= path@.subrange(start as int, i as int).push(path@[i as int]));
        }
        i = i + 1;
    }
    segs.push(String::from_str(path.substring_char(start, n)));
    assert(path@.subrange(0, n as int) =~= path@);
    segs
}

/// A self or parent relative path, dispatched segment by segment on `ξ`. `ρ` is
/// the parent link, so `ξ.ρ.ρ.x` walks up twice, and `φ` is the decoratee.
pub fn scope(base: &str, site: &Site) -> (node: Node)
    ensures
        walks(node, segments(base@), *site),
{
    let segs = split_dots(base);
    proof {
        lemma_segments_len(base@);
    }
    let mut node = Node::Name(segs[0].clone());
    let mut i: usize = 1;
    while i < segs.len()
        invariant
            1 <= i <= segs@.len(),
            segs@.len() == segments(base@).len(),
            forall|k: int| 0 <= k < segs@.len() ==> (#[trigger] segs@[k])@ == segments(base@)[k],
            walks(node, segments(base@).subrange(0, i as int), *site),
        decreases segs@.len() - i,
    {
        let label = if same_text(segs[i].as_str(), "φ") {
            String::from_str("@")
        } else {
            segs[i].clone()
        };
        let ghost prev = segments(base@).subrange(0, i as int);
        let ghost next = segments(base@).subrange(0, i + 1);
        assert(next.drop_last() =~= prev);
        node = Node::Dispatch { obj: Box::new(node), label, site: site.duplicate() };
        i = i + 1;
    }
    assert(segments(base@).subrange(0, segs@.len() as int) =~= segments(base@));
    node
}

/// The index of the first attribute of a name, or the number of attributes
/// when none has it.
fn first_bound(binds: &Vec<(String, Node)>, label: &str) -> (i: usize)
    ensures
        i <= binds@.len(),
        i < binds@.len() ==> binds@[i as int].0@ == label@,
        forall|j: int| 0 <= j < i ==> binds@[j].0@ != label@,
{
    let mut i: usize = 0;
    while i < binds.len()
        invariant
            0 <= i <= binds@.len(),
            forall|j: int| 0 <= j < i ==> binds@[j].0@ != label@,
        decreases binds@.len() - i,
    {
        if same_text(binds[i].0.as_str(), label) {
            return i;
        }
        i = i + 1;
    }
    i
}

/// Whether some attributes are others with one more set: the first bound
/// under its name gets the new node, or else it is added at the end.
pub open spec fn rebound(before: Seq<(String, Node)>, label: Seq<char>, node: Node, after: Seq<(String, Node)>) -> bool {
    if exists|i: int| 0 <= i < before.len() && before[i].0@ == label {
        let i = choose|i: int|
            0 <= i < before.len() && before[i].0@ == label && forall|j: int| 0 <= j < i ==> before[j].0@ != label;
        after == before.update(i, (before[i].0, node))
    } else {
        &&& after.len() == before.len() + 1
        &&& after.subrange(0, before.len() as int) == before
        &&& after.last().0@ == label
        &&& after.last().1 == node
    }
}

/// Set an attribute, replacing whatever was bound under that name before.
pub fn bind(binds: &mut Vec<(String, Node)>, label: &str, node: Node)
    ensures
        rebound(old(binds)@, label@, node, final(binds)@),
{
    let ghost before = binds@;
    let i = first_bound(binds, label);
    if i < binds.len() {
        let mut slot = (String::new(), Node::Bytes);
        binds.set_and_swap(i, &mut slot);
        let (key, _) = slot;
        let mut fresh = (key, node);
        binds.set_and_swap(i, &mut fresh);
        proof {
            assert(before[i as int].0@ == label@);
            let c = choose|c: int|
                0 <= c < before.len() && before[c].0@ == label@ && forall|j: int|
                    0 <= j < c ==> before[j].0@ != label@;
            assert(c == i as int) by {
                if c < i as int {
                } else if c > i as int {
                    assert(before[i as int].0@ == label@);
                }
            }
            assert(binds@ =~= before.update(i as int, (before[i as int].0, node)));
        }
    } else {
        proof {
            assert(i == before.len());
            assert(!exists|k: int| 0 <= k < before.len() && before[k].0@ == label@);
        }
        binds.push((String::from_str(label), node));
        proof {
            assert(binds@.subrange(0, before.len() as int) =~= before);
        }
    }
}


/// One node of a parsed XML document, held as plain values: the index of its
/// parent in document order, whether it is an element, its local tag name, its
/// attributes (whether the name carries a namespace, the local name, the
/// value), and the text of its first child when that child is text.
#[derive(Debug)]
pub struct XmlNode {
    /// The index of the parent, in document order; none for the root.
    pub parent: Option<usize>,
    /// Whether the node is an element.
    pub element: bool,
    /// The local name of the element's tag; empty for other nodes.
    pub tag: String,
    /// The attributes: whether the name is namespaced, the local name, the value.
    pub attrs: Vec<(bool, String, String)>,
    /// The text the node holds as its first child, if any.
    pub text: Option<String>,
}

/// An attribute as plain values.
pub open spec fn attr_view(a: (bool, String, String)) -> (bool, Seq<char>, Seq<char>) {
    (a.0, a.1@, a.2@)
}

/// An optional text as plain values.
pub open spec fn text_view(t: Option<String>) -> Option<Seq<char>> {
    match t {
        Some(t) => Some(t@),
        None => None,
    }
}

impl View for XmlNode {
    type V = (Option<usize>, bool, Seq<char>, Seq<(bool, Seq<char>, Seq<char>)>, Option<Seq<char>>);

    open spec fn view(&self) -> Self::V {
        (self.parent, self.element, self.tag@, self.attrs@.map_values(|a: (bool, String, String)| attr_view(a)), text_view(self.text))
    }
}

/// The nodes, in document order, that `roxmltree` reads out of a text, or
/// nothing when the text is not well-formed XML.
pub uninterp spec fn parsed_nodes(text: Seq<char>) -> Option<
    Seq<(Option<usize>, bool, Seq<char>, Seq<(bool, Seq<char>, Seq<char>)>, Option<Seq<char>>)>,
>;

/// The error `roxmltree` reports on a text that is not well-formed XML.
#[verifier::external_type_specification]
#[verifier::external_body]
pub struct ExXmlError(roxmltree::Error);

/// Parse a text as XML with `roxmltree::Document::parse`, handing back every
/// node of the document in document order (its descendants from the root), as
/// plain values. The contract names what comes back and claims nothing more
/// of it: not even that parents come before their children.
#[verifier::external_body]
fn parse_xml(text: &str) -> (nodes: Result<Vec<XmlNode>, roxmltree::Error>)
    ensures
        nodes is Ok == parsed_nodes(text@) is Some,
        nodes matches Ok(ns) ==> parsed_nodes(text@) == Some(ns@.map_values(|n: XmlNode| n@)),
{
    roxmltree::Document::parse(text).map(|document| document.descendants().map(|n| XmlNode {
        parent: n.parent().map(|p| p.id().get_usize()),
        element: n.is_element(),
        tag: n.tag_name().name().to_owned(),
        attrs: n.attributes().map(|a| (a.namespace().is_some(), a.name().to_owned(), a.value().to_owned())).collect(),
        text: n.text().map(str::to_owned),
    }).collect())
}

/// The message `roxmltree` gives for a parse error, through its `Display`.
#[verifier::external_body]
fn describe(failure: &roxmltree::Error) -> String {
    failure.to_string()
}

/// Whether a character is whitespace: it has the Unicode `White_Space`
/// property, as `char::is_whitespace` documents it. These are the tab, line
/// feed, vertical tab, form feed and carriage return, the space, the next line
/// mark, the no-break space, the Ogham space mark, the spaces from the en quad
/// to the hair space, the line and paragraph separators, the narrow no-break
/// space, the medium mathematical space and the ideographic space.
pub open spec fn whitespace(c: char) -> bool {
    ||| '\u{9}' <= c <= '\u{D}'
    ||| c == ' '
    ||| c == '\u{85}'
    ||| c == '\u{A0}'
    ||| c == '\u{1680}'
    ||| '\u{2000}' <= c <= '\u{200A}'
    ||| c == '\u{2028}'
    ||| c == '\u{2029}'
    ||| c == '\u{202F}'
    ||| c == '\u{205F}'
    ||| c == '\u{3000}'
}

/// Whether a character is whitespace.
fn is_space(c: char) -> (space: bool)
    ensures
        space == whitespace(c),
{
    ('\u{9}' <= c && c <= '\u{D}') || c == ' ' || c == '\u{85}' || c == '\u{A0}' || c == '\u{1680}' || ('\u{2000}'
        <= c && c <= '\u{200A}') || c == '\u{2028}' || c == '\u{2029}' || c == '\u{202F}' || c == '\u{205F}' || c
        == '\u{3000}'
}

/// Whether a text holds anything but whitespace.
pub open spec fn nonblank(text: Seq<char>) -> bool {
    exists|k: int| 0 <= k < text.len() && !whitespace(text[k])
}

/// Whether a text holds anything but whitespace.
fn has_content(text: &str) -> (content: bool)
    ensures
        content == nonblank(text@),
{
    let n = text.unicode_len();
    let mut i: usize = 0;
    while i < n
        invariant
            0 <= i <= n,
            n == text@.len(),
            forall|k: int| 0 <= k < i ==> whitespace(text@[k]),
        decreases n - i,
    {
        if !is_space(text.get_char(i)) {
            return true;
        }
        i = i + 1;
    }
    false
}

/// The value of the first unqualified attribute of a name.
pub open spec fn spec_attr(attrs: Seq<(bool, Seq<char>, Seq<char>)>, name: Seq<char>) -> Option<Seq<char>>
    decreases attrs.len(),
{
    if attrs.len() == 0 {
        None
    } else if !attrs[0].0 && attrs[0].1 == name {
        Some(attrs[0].2)
    } else {
        spec_attr(attrs.drop_first(), name)
    }
}

/// The value of a number in decimal, as `str::parse` reads an unsigned
/// integer: an optional `+`, then at least one digit and nothing else.
pub open spec fn decimal(text: Seq<char>) -> Option<nat> {
    if text.len() > 0 && text[0] == '+' {
        digits(text.drop_first())
    } else {
        digits(text)
    }
}

/// The value of a nonempty run of decimal digits.
pub open spec fn digits(text: Seq<char>) -> Option<nat>
    decreases text.len(),
{
    if text.len() == 0 || !('0' <= text.last() && text.last() <= '9') {
        None
    } else if text.len() == 1 {
        Some((text.last() as nat - '0' as nat) as nat)
    } else {
        match digits(text.drop_last()) {
            Some(v) => Some(v * 10 + (text.last() as nat - '0' as nat) as nat),
            None => None,
        }
    }
}

/// Read a number in decimal as `str::parse::<usize>` does: none when the text
/// is not a number or the number does not fit.
pub fn parse_usize(text: &str) -> (value: Option<usize>)
    ensures
        value matches Some(v) ==> decimal(text@) == Some(v as nat),
        value is None ==> decimal(text@) is None || decimal(text@).unwrap() > usize::MAX,
{
    let n = text.unicode_len();
    let start: usize = if n > 0 && text.get_char(0) == '+' { 1 } else { 0 };
    let ghost body = text@.subrange(start as int, n as int);
    proof {
        if start == 1 {
            assert(body =~= text@.drop_first());
        } else {
            assert(body =~= text@);
        }
        assert(decimal(text@) == digits(body));
    }
    if start >= n {
        return None;
    }
    let mut acc: usize = 0;
    let mut i: usize = start;
    while i < n
        invariant
            start < n,
            n == text@.len(),
            start <= i <= n,
            body == text@.subrange(start as int, n as int),
            decimal(text@) == digits(body),
            i > start ==> digits(text@.subrange(start as int, i as int)) == Some(acc as nat),
            i == start ==> acc == 0,
        decreases n - i,
    {
        let c = text.get_char(i);
        let ghost before = text@.subrange(start as int, i as int);
        let ghost after = text@.subrange(start as int, i + 1);
        assert(after.drop_last() =~= before);
        assert(after.last() == c);
        if !('0' <= c && c <= '9') {
            proof {
                lemma_digits_stop(body, (i - start) as int);
            }
            return None;
        }
        let d = (c as u32 - '0' as u32) as usize;
        assert(body.subrange(0, (i - start) + 1) =~= after);
        assert(digits(after) == Some(acc as nat * 10 + d as nat)) by {
            if i > start {
                assert(after.len() > 1);
            } else {
                assert(after.len() == 1);
            }
        }
        let grown = match acc.checked_mul(10) {
            Some(m) => m.checked_add(d),
            None => None,
        };
        match grown {
            Some(g) => {
                acc = g;
            },
            None => {
                proof {
                    lemma_digits_grow(body, (i - start) as int);
                }
                return None;
            },
        }
        i = i + 1;
    }
    assert(text@.subrange(start as int, n as int) == body);
    Some(acc)
}

/// A run with a non-digit in it has no value.
proof fn lemma_digits_stop(text: Seq<char>, k: int)
    requires
        0 <= k < text.len(),
        !('0' <= text[k] && text[k] <= '9'),
    ensures
        digits(text) is None,
    decreases text.len(),
{
    if k < text.len() - 1 {
        lemma_digits_stop(text.drop_last(), k);
    }
}

/// A value only grows as digits are read.
proof fn lemma_digits_grow(text: Seq<char>, k: int)
    requires
        0 <= k < text.len(),
        digits(text.subrange(0, k + 1)) is Some,
        digits(text.subrange(0, k + 1)).unwrap() > usize::MAX,
    ensures
        digits(text) is None || digits(text).unwrap() > usize::MAX,
    decreases text.len(),
{
    if k < text.len() - 1 {
        assert(text.drop_last().subrange(0, k + 1) =~= text.subrange(0, k + 1));
        lemma_digits_grow(text.drop_last(), k);
    } else {
        assert(text.subrange(0, k + 1) =~= text);
    }
}

/// A node of a parsed document as plain values: its parent, whether it is an
/// element, its tag, its attributes, and its text.
pub type NodeV = (Option<usize>, bool, Seq<char>, Seq<(bool, Seq<char>, Seq<char>)>, Option<Seq<char>>);

/// The children of a node among the nodes before a position: the later nodes
/// that name it as their parent, in document order.
pub open spec fn children_upto(doc: Seq<NodeV>, i: int, j: int) -> Seq<usize>
    decreases j,
{
    if j <= 1 {
        Seq::empty()
    } else {
        let before = children_upto(doc, i, j - 1);
        if i < j - 1 && doc[j - 1].0 == Some(i as usize) {
            before.push((j - 1) as usize)
        } else {
            before
        }
    }
}

/// The children of a node: the later nodes that name it as their parent, in
/// document order.
pub open spec fn children(doc: Seq<NodeV>, i: int) -> Seq<usize> {
    children_upto(doc, i, doc.len() as int)
}

/// Every child comes after its parent, within the document, and names it.
pub proof fn lemma_children_after(doc: Seq<NodeV>, i: int, j: int)
    requires
        j <= doc.len() <= usize::MAX,
    ensures
        forall|k: int|
            0 <= k < children_upto(doc, i, j).len() ==> i < #[trigger] children_upto(doc, i, j)[k] < j && doc[
                children_upto(doc, i, j)[k] as int].0 == Some(i as usize),
    decreases j,
{
    if j > 1 {
        lemma_children_after(doc, i, j - 1);
        let before = children_upto(doc, i, j - 1);
        assert forall|k: int| 0 <= k < children_upto(doc, i, j).len() implies i < #[trigger] children_upto(doc, i, j)[k]
            < j && doc[children_upto(doc, i, j)[k] as int].0 == Some(i as usize) by {
            if k < before.len() {
                assert(children_upto(doc, i, j)[k] == before[k]);
            }
        }
    }
}

/// The children of a node that are elements, in document order.
pub open spec fn elements_of(doc: Seq<NodeV>, i: int) -> Seq<usize> {
    children(doc, i).filter(|j: usize| doc[j as int].1)
}

/// The value of the first unqualified attribute of a name on a node.
pub open spec fn attr_of(doc: Seq<NodeV>, i: int, name: Seq<char>) -> Option<Seq<char>> {
    spec_attr(doc[i].3, name)
}

/// The receiver and the arguments of an application among some children: those
/// with an `as` are the arguments, in order, and the first without one is the
/// receiver.
pub open spec fn split_of(doc: Seq<NodeV>, cs: Seq<usize>) -> (Option<usize>, Seq<usize>)
    decreases cs.len(),
{
    if cs.len() == 0 {
        (None, Seq::empty())
    } else {
        let (r, a) = split_of(doc, cs.drop_last());
        if attr_of(doc, cs.last() as int, "as"@) is Some {
            (r, a.push(cs.last()))
        } else if r is Some {
            (r, a)
        } else {
            (Some(cs.last()), a)
        }
    }
}

/// The root element of a document: the first element child of its root.
pub open spec fn root_of(doc: Seq<NodeV>) -> Option<usize> {
    if doc.len() == 0 || elements_of(doc, 0).len() == 0 {
        None
    } else {
        Some(elements_of(doc, 0)[0])
    }
}

/// A decimal attribute as a `usize`, when it is one and fits.
pub open spec fn number_of(text: Option<Seq<char>>) -> Option<usize> {
    match text {
        Some(t) => match decimal(t) {
            Some(v) => if v <= usize::MAX {
                Some(v as usize)
            } else {
                None
            },
            None => None,
        },
        None => None,
    }
}

/// Where an element says it was written: its line, and its position on the
/// line or else the start of it; nothing without a readable line.
pub open spec fn spot_of(doc: Seq<NodeV>, i: int) -> Option<Spot> {
    match number_of(attr_of(doc, i, "line"@)) {
        Some(line) => Some(
            Spot {
                line,
                pos: match number_of(attr_of(doc, i, "pos"@)) {
                    Some(pos) => pos,
                    None => 0,
                },
            },
        ),
        None => None,
    }
}

/// Whether a site is the one an element says it was written at.
pub open spec fn sited(doc: Seq<NodeV>, i: int, site: Site) -> bool {
    site.at == spot_of(doc, i) && text_view(site.loc) == attr_of(doc, i, "loc"@)
}

/// Whether a child of a formation is a void.
pub open spec fn is_void(doc: Seq<NodeV>, c: int) -> bool {
    attr_of(doc, c, "base"@) == Some("∅"@)
}

/// The label a child is given: its name, or nothing.
pub open spec fn label_of(doc: Seq<NodeV>, c: int) -> Seq<char> {
    match attr_of(doc, c, "name"@) {
        Some(label) => label,
        None => Seq::empty(),
    }
}

/// The result the first child declaring one declares.
pub open spec fn first_atom(doc: Seq<NodeV>, cs: Seq<usize>) -> Option<Seq<char>>
    decreases cs.len(),
{
    if cs.len() == 0 {
        None
    } else {
        match attr_of(doc, cs[0] as int, "atom"@) {
            Some(ret) => Some(ret),
            None => first_atom(doc, cs.drop_first()),
        }
    }
}

/// Whether some child declares a type of its own.
pub open spec fn typed(doc: Seq<NodeV>, cs: Seq<usize>) -> bool {
    exists|k: int| 0 <= k < cs.len() && attr_of(doc, #[trigger] cs[k] as int, "type"@) is Some
}

/// Whether a void is what a child of an atom says about itself.
pub open spec fn describes(doc: Seq<NodeV>, c: int, void: Void) -> bool {
    &&& void.label@ == label_of(doc, c)
    &&& match attr_of(doc, c, "type"@) {
        Some(own) => void.kind matches Kind::Own(o) && o@ == own,
        None => match attr_of(doc, c, "args"@) {
            Some(args) => void.kind matches Kind::Args(a) && a@ == args,
            None => void.kind is Plain,
        },
    }
}

/// Whether some voids are those the void children of an atom declare, in order.
pub open spec fn voids_of(doc: Seq<NodeV>, cs: Seq<usize>, voids: Seq<Void>) -> bool {
    let vs = cs.filter(|c: usize| is_void(doc, c as int));
    voids.len() == vs.len() && forall|k: int| 0 <= k < voids.len() ==> describes(doc, vs[k] as int, #[trigger] voids[k])
}

/// The children of a formation that are its parameters: the voids that declare
/// no result.
pub open spec fn param_children(doc: Seq<NodeV>, cs: Seq<usize>) -> Seq<usize> {
    cs.filter(|c: usize| attr_of(doc, c as int, "atom"@) is None && is_void(doc, c as int))
}

/// Whether a child of a formation gives it its decoratee: it declares a result,
/// or it is the attribute named `φ`.
pub open spec fn decorates(doc: Seq<NodeV>, c: int) -> bool {
    attr_of(doc, c, "atom"@) is Some || (!is_void(doc, c) && attr_of(doc, c, "name"@) == Some("φ"@))
}

/// The last child of a formation that gives it its decoratee.
pub open spec fn body_child(doc: Seq<NodeV>, cs: Seq<usize>) -> Option<usize>
    decreases cs.len(),
{
    if cs.len() == 0 {
        None
    } else if decorates(doc, cs.last() as int) {
        Some(cs.last())
    } else {
        body_child(doc, cs.drop_last())
    }
}

/// Whether a child of a formation is one of its named attributes: it declares
/// no result, is no void, and has a name that is not `φ` and not marked with a
/// leading `+` or `-`.
pub open spec fn bindable(doc: Seq<NodeV>, c: int) -> bool {
    &&& attr_of(doc, c, "atom"@) is None
    &&& !is_void(doc, c)
    &&& attr_of(doc, c, "name"@) matches Some(l) && l != "φ"@ && !(l.len() > 0 && (l[0] == '+' || l[0] == '-'))
}

/// The names of some attributes, each once, in the order first written.
pub open spec fn first_labels(doc: Seq<NodeV>, es: Seq<usize>) -> Seq<Seq<char>>
    decreases es.len(),
{
    if es.len() == 0 {
        Seq::empty()
    } else {
        let prev = first_labels(doc, es.drop_last());
        let l = label_of(doc, es.last() as int);
        if prev.contains(l) {
            prev
        } else {
            prev.push(l)
        }
    }
}

/// The last of some attributes written under a name.
pub open spec fn last_labelled(doc: Seq<NodeV>, es: Seq<usize>, l: Seq<char>) -> Option<usize>
    decreases es.len(),
{
    if es.len() == 0 {
        None
    } else if label_of(doc, es.last() as int) == l {
        Some(es.last())
    } else {
        last_labelled(doc, es.drop_last(), l)
    }
}

/// Whether a node is what an element reads as.
pub open spec fn reads_as(doc: Seq<NodeV>, i: int, node: Node) -> bool
    decreases doc.len() - i, 2int, 0int,
{
    if !(0 <= i < doc.len()) {
        false
    } else {
        match attr_of(doc, i, "base"@) {
            None => if elements_of(doc, i).len() == 0 && (doc[i].4 matches Some(t) && nonblank(t)) {
                node is Bytes
            } else {
                forms(doc, i, node)
            },
            Some(base) => {
                let parts = split_of(doc, elements_of(doc, i));
                if parts.0 is None && spec_primitive(spec_tail(base)) is Some {
                    node == spec_primitive(spec_tail(base))->0
                } else {
                    applies(doc, i, base, parts.0, parts.1, node)
                }
            },
        }
    }
}

/// Whether a node is the head of an element with some arguments applied to it
/// in turn, the last outermost.
pub open spec fn applies(
    doc: Seq<NodeV>,
    i: int,
    base: Seq<char>,
    receiver: Option<usize>,
    args: Seq<usize>,
    node: Node,
) -> bool
    decreases doc.len() - i, 1int, args.len(),
{
    if args.len() == 0 {
        heads(doc, i, base, receiver, node)
    } else {
        node matches Node::Apply { fun, arg } && i < args.last() < doc.len() && reads_as(doc, args.last() as int, *arg)
            && applies(doc, i, base, receiver, args.drop_last(), *fun)
    }
}

/// Whether a node is what an element with a base reads as before any argument:
/// a dispatch for `.m` on the receiver, or on raw data when there is none; a
/// walk for a relative path; a name otherwise.
pub open spec fn heads(doc: Seq<NodeV>, i: int, base: Seq<char>, receiver: Option<usize>, node: Node) -> bool
    decreases doc.len() - i, 0int, 0int,
{
    let name = spec_tail(base);
    if base.len() > 0 && base[0] == '.' {
        node matches Node::Dispatch { obj, label, site } && label@ == relabel(name) && sited(doc, i, site) && match receiver {
            Some(r) => i < r < doc.len() && reads_as(doc, r as int, *obj),
            None => *obj is Bytes,
        }
    } else if base == "ξ"@ || (base.len() >= 2 && base[0] == 'ξ' && base[1] == '.') {
        exists|site: Site| #[trigger] sited(doc, i, site) && walks(node, segments(base), site)
    } else {
        node matches Node::Name(n) && n@ == name
    }
}

/// Whether a node is what the child giving a formation its decoratee reads as.
pub open spec fn body_reads(doc: Seq<NodeV>, i: int, c: int, node: Node) -> bool
    decreases doc.len() - i, 0int, 0int,
{
    match attr_of(doc, c, "atom"@) {
        Some(ret) => forma_of(ret, node),
        None => i < c < doc.len() && reads_as(doc, c, node),
    }
}

/// The names a formation binds: those of its named attributes, each once in
/// the order first written, and `@` after them when it has a decoratee and no
/// attribute named so.
pub open spec fn names_of(doc: Seq<NodeV>, es: Seq<usize>, decoratee: Option<usize>) -> Seq<Seq<char>> {
    let labels = first_labels(doc, es);
    if decoratee is Some && !labels.contains("@"@) {
        labels.push("@"@)
    } else {
        labels
    }
}

/// Whether a node is the right one for an attribute of a formation: its
/// decoratee for `@` when it has one, and otherwise what the last attribute
/// written under the name reads as.
pub open spec fn entry_ok(doc: Seq<NodeV>, i: int, es: Seq<usize>, decoratee: Option<usize>, label: Seq<char>, node: Node) -> bool
    decreases doc.len() - i, 0int, 1int,
{
    if decoratee is Some && label == "@"@ {
        body_reads(doc, i, decoratee->0 as int, node)
    } else {
        last_labelled(doc, es, label) matches Some(c) && i < c < doc.len() && reads_as(doc, c as int, node)
    }
}

/// Whether some attributes are those of a formation: one for each name among
/// its named attributes, in the order first written, each read from the last
/// written under that name; and, when it has a decoratee, `@` bound to it.
pub open spec fn bound(doc: Seq<NodeV>, i: int, es: Seq<usize>, binds: Seq<(String, Node)>, decoratee: Option<usize>) -> bool
    decreases doc.len() - i, 0int, 3 + binds.len(),
{
    let all = names_of(doc, es, decoratee);
    &&& binds.len() == all.len()
    &&& forall|k: int| 0 <= k < binds.len() ==> (#[trigger] binds[k]).0@ == all[k]
    &&& entries_ok(doc, i, es, decoratee, binds, binds.len() as int)
}

/// Whether the first attributes of a formation, up to a count, are each the
/// right one for its name.
pub open spec fn entries_ok(
    doc: Seq<NodeV>,
    i: int,
    es: Seq<usize>,
    decoratee: Option<usize>,
    binds: Seq<(String, Node)>,
    k: int,
) -> bool
    decreases doc.len() - i, 0int, 2 + k,
{
    if k <= 0 {
        true
    } else {
        entries_ok(doc, i, es, decoratee, binds, k - 1) && entry_ok(
            doc,
            i,
            es,
            decoratee,
            names_of(doc, es, decoratee)[k - 1],
            binds[k - 1].1,
        )
    }
}

/// The first attributes up to a count are each right exactly when every one of
/// them is.
proof fn lemma_entries_ok(
    doc: Seq<NodeV>,
    i: int,
    es: Seq<usize>,
    decoratee: Option<usize>,
    binds: Seq<(String, Node)>,
    k: int,
)
    requires
        0 <= k,
    ensures
        entries_ok(doc, i, es, decoratee, binds, k) <==> forall|j: int|
            0 <= j < k ==> #[trigger] entry_ok(doc, i, es, decoratee, names_of(doc, es, decoratee)[j], binds[j].1),
    decreases k,
{
    if k > 0 {
        lemma_entries_ok(doc, i, es, decoratee, binds, k - 1);
        let last = entry_ok(doc, i, es, decoratee, names_of(doc, es, decoratee)[k - 1], binds[k - 1].1);
        assert(entries_ok(doc, i, es, decoratee, binds, k) == (entries_ok(doc, i, es, decoratee, binds, k - 1) && last));
    }
}

/// Whether a node is what a formation reads as: an atom that declares its
/// whole type, when it declares a generic result or typed voids; else an object
/// when it has no parameters, and a function of its parameters when it has.
pub open spec fn forms(doc: Seq<NodeV>, i: int, node: Node) -> bool
    decreases doc.len() - i, 1int, 0int,
{
    let cs = elements_of(doc, i);
    let declared = first_atom(doc, cs);
    if declared is Some && (is_generic(declared->0) || typed(doc, cs)) {
        node matches Node::Atom { voids, ret } && text_view(ret) == declared && voids_of(doc, cs, voids@)
    } else {
        let pc = param_children(doc, cs);
        let es = cs.filter(|c: usize| bindable(doc, c as int));
        let bc = body_child(doc, cs);
        if pc.len() == 0 {
            node matches Node::Obj { name, binds } && text_view(name) == attr_of(doc, i, "name"@) && bound(
                doc,
                i,
                es,
                binds@,
                bc,
            )
        } else {
            node matches Node::Lam { name, params, body, binds } && text_view(name) == attr_of(doc, i, "name"@)
                && params@.len() == pc.len() && (forall|k: int|
                0 <= k < pc.len() ==> (#[trigger] params@[k])@ == label_of(doc, pc[k] as int)) && match bc {
                Some(d) => body matches Some(b) && body_reads(doc, i, d as int, *b),
                None => body is None,
            } && bound(doc, i, es, binds@, None)
        }
    }
}

/// The names of some attributes, each once, are each listed once.
proof fn lemma_first_labels_distinct(doc: Seq<NodeV>, es: Seq<usize>)
    ensures
        forall|a: int, b: int|
            0 <= a < b < first_labels(doc, es).len() ==> first_labels(doc, es)[a] != first_labels(doc, es)[b],
    decreases es.len(),
{
    if es.len() > 0 {
        lemma_first_labels_distinct(doc, es.drop_last());
        let prev = first_labels(doc, es.drop_last());
        let l = label_of(doc, es.last() as int);
        if !prev.contains(l) {
            assert forall|a: int, b: int| 0 <= a < b < prev.push(l).len() implies prev.push(l)[a] != prev.push(l)[b] by {
                if b == prev.len() {
                    assert(prev.push(l)[a] == prev[a]);
                    if prev[a] == l {
                        assert(prev.contains(l));
                    }
                }
            }
        }
    }
}

/// Binding one more named attribute keeps the attributes those of the
/// formation, with the new one read from the attribute just written.
proof fn lemma_bound_push(
    doc: Seq<NodeV>,
    i: int,
    es: Seq<usize>,
    prior: Seq<(String, Node)>,
    c: int,
    made: Node,
    after: Seq<(String, Node)>,
)
    requires
        bound(doc, i, es, prior, None),
        0 <= i < c < doc.len(),
        c <= usize::MAX,
        reads_as(doc, c, made),
        rebound(prior, label_of(doc, c), made, after),
    ensures
        bound(doc, i, es.push(c as usize), after, None),
{
    let l = label_of(doc, c);
    let labels = first_labels(doc, es);
    let more = es.push(c as usize);
    lemma_entries_ok(doc, i, es, None, prior, prior.len() as int);
    lemma_entries_ok(doc, i, more, None, after, after.len() as int);
    assert(more.drop_last() =~= es);
    assert(more.last() == c as usize);
    lemma_first_labels_distinct(doc, es);
    if exists|j: int| 0 <= j < prior.len() && prior[j].0@ == l {
        let j = choose|j: int|
            0 <= j < prior.len() && prior[j].0@ == l && forall|m: int| 0 <= m < j ==> prior[m].0@ != l;
        assert(labels[j] == l);
        assert(labels.contains(l));
        assert(first_labels(doc, more) == labels);
        assert(names_of(doc, more, None) == labels);
        assert(names_of(doc, es, None) == labels);
        assert forall|k: int| 0 <= k < after.len() implies (#[trigger] after[k]).0@ == labels[k] by {
            if k == j {
            } else {
                assert(after[k] == prior[k]);
            }
        }
        assert forall|k: int| 0 <= k < after.len() implies #[trigger] entry_ok(doc, i, more, None, names_of(doc, more, None)[k], after[k].1) by {
            if k == j {
            } else {
                assert(after[k] == prior[k]);
                assert(labels[k] != l);
                assert(entry_ok(doc, i, es, None, names_of(doc, es, None)[k], prior[k].1));
            }
        }
    } else {
        assert(!labels.contains(l)) by {
            if labels.contains(l) {
                let j = choose|j: int| 0 <= j < labels.len() && labels[j] == l;
                assert(prior[j].0@ == l);
            }
        }
        let all = labels.push(l);
        assert(first_labels(doc, more) == all);
        assert(names_of(doc, more, None) == all);
        assert(names_of(doc, es, None) == labels);
        assert forall|k: int| 0 <= k < after.len() implies (#[trigger] after[k]).0@ == all[k] by {
            if k < prior.len() {
                assert(after[k] == after.subrange(0, prior.len() as int)[k]);
            }
        }
        assert forall|k: int| 0 <= k < after.len() implies #[trigger] entry_ok(doc, i, more, None, names_of(doc, more, None)[k], after[k].1) by {
            if k < prior.len() {
                assert(after[k] == after.subrange(0, prior.len() as int)[k]);
                assert(labels[k] != l) by {
                    if labels[k] == l {
                        assert(labels.contains(l));
                    }
                }
                assert(entry_ok(doc, i, es, None, names_of(doc, es, None)[k], prior[k].1));
            }
        }
    }
}

/// Binding a decoratee under `@` makes the attributes those of a formation
/// with that decoratee.
proof fn lemma_bound_decorate(
    doc: Seq<NodeV>,
    i: int,
    es: Seq<usize>,
    prior: Seq<(String, Node)>,
    d: usize,
    made: Node,
    after: Seq<(String, Node)>,
)
    requires
        bound(doc, i, es, prior, None),
        body_reads(doc, i, d as int, made),
        rebound(prior, "@"@, made, after),
    ensures
        bound(doc, i, es, after, Some(d)),
{
    let labels = first_labels(doc, es);
    lemma_first_labels_distinct(doc, es);
    lemma_entries_ok(doc, i, es, None, prior, prior.len() as int);
    lemma_entries_ok(doc, i, es, Some(d), after, after.len() as int);
    if exists|j: int| 0 <= j < prior.len() && prior[j].0@ == "@"@ {
        let j = choose|j: int|
            0 <= j < prior.len() && prior[j].0@ == "@"@ && forall|m: int| 0 <= m < j ==> prior[m].0@ != "@"@;
        assert(labels[j] == "@"@);
        assert(labels.contains("@"@));
        assert(names_of(doc, es, Some(d)) == labels);
        assert(names_of(doc, es, None) == labels);
        assert forall|k: int| 0 <= k < after.len() implies (#[trigger] after[k]).0@ == labels[k] by {
            if k != j {
                assert(after[k] == prior[k]);
            }
        }
        assert forall|k: int| 0 <= k < after.len() implies #[trigger] entry_ok(doc, i, es, Some(d), names_of(doc, es, Some(d))[k], after[k].1) by {
            if k != j {
                assert(after[k] == prior[k]);
                assert(labels[k] != "@"@);
                assert(entry_ok(doc, i, es, None, names_of(doc, es, None)[k], prior[k].1));
            }
        }
    } else {
        assert(!labels.contains("@"@)) by {
            if labels.contains("@"@) {
                let j = choose|j: int| 0 <= j < labels.len() && labels[j] == "@"@;
                assert(prior[j].0@ == "@"@);
            }
        }
        let all = labels.push("@"@);
        assert(names_of(doc, es, Some(d)) == all);
        assert(names_of(doc, es, None) == labels);
        assert forall|k: int| 0 <= k < after.len() implies (#[trigger] after[k]).0@ == all[k] by {
            if k < prior.len() {
                assert(after[k] == after.subrange(0, prior.len() as int)[k]);
            }
        }
        assert forall|k: int| 0 <= k < after.len() implies #[trigger] entry_ok(doc, i, es, Some(d), names_of(doc, es, Some(d))[k], after[k].1) by {
            if k < prior.len() {
                assert(after[k] == after.subrange(0, prior.len() as int)[k]);
                assert(labels[k] != "@"@) by {
                    if labels[k] == "@"@ {
                        assert(labels.contains("@"@));
                    }
                }
                assert(entry_ok(doc, i, es, None, names_of(doc, es, None)[k], prior[k].1));
            }
        }
    }
}

/// The top-level objects of a document: the `<o>` children of its root
/// element, in document order.
pub open spec fn top_objects(doc: Seq<NodeV>) -> Seq<usize> {
    match root_of(doc) {
        Some(r) => children(doc, r as int).filter(|c: usize| doc[c as int].1 && doc[c as int].2 == "o"@),
        None => Seq::empty(),
    }
}

/// The top-level objects of a document that have a locator.
pub open spec fn top_located(doc: Seq<NodeV>) -> Seq<usize> {
    match root_of(doc) {
        Some(r) => children(doc, r as int).filter(
            |c: usize| doc[c as int].1 && doc[c as int].2 == "o"@ && attr_of(doc, c as int, "loc"@) is Some,
        ),
        None => Seq::empty(),
    }
}

/// Whether an entry is an object of a document with the name it was given.
pub open spec fn object_read(doc: Seq<NodeV>, c: int, entry: (Option<String>, Node)) -> bool {
    text_view(entry.0) == attr_of(doc, c, "name"@) && reads_as(doc, c, entry.1)
}

/// Whether an entry is an object of a document by its locator.
pub open spec fn locator_read(doc: Seq<NodeV>, c: int, entry: (String, Node)) -> bool {
    Some(entry.0@) == attr_of(doc, c, "loc"@) && reads_as(doc, c, entry.1)
}

/// Whether some entries are the top-level objects of a document, in order,
/// each with the name it was given.
pub open spec fn objects_read(doc: Seq<NodeV>, found: Seq<(Option<String>, Node)>) -> bool {
    found.len() == top_objects(doc).len() && forall|k: int|
        0 <= k < found.len() ==> object_read(doc, top_objects(doc)[k] as int, #[trigger] found[k])
}

/// Whether some entries are the top-level objects of a document that have a
/// locator, in order, each by its locator.
pub open spec fn located_read(doc: Seq<NodeV>, found: Seq<(String, Node)>) -> bool {
    found.len() == top_located(doc).len() && forall|k: int|
        0 <= k < found.len() ==> locator_read(doc, top_located(doc)[k] as int, #[trigger] found[k])
}

/// Whether some entries are the top-level objects with a locator of every text
/// that is XML, text after text; a text that is not is skipped.
pub open spec fn locators_read(texts: Seq<String>, found: Seq<(String, Node)>) -> bool
    decreases texts.len(),
{
    if texts.len() == 0 {
        found.len() == 0
    } else {
        match parsed_nodes(texts.last()@) {
            Some(doc) => {
                let m = top_located(doc).len();
                &&& m <= found.len()
                &&& locators_read(texts.drop_last(), found.subrange(0, found.len() - m))
                &&& located_read(doc, found.subrange(found.len() - m, found.len() as int))
            },
            None => locators_read(texts.drop_last(), found),
        }
    }
}

/// A parsed document, with the children of each node indexed.
#[derive(Debug)]
pub struct Tree {
    /// The nodes, in document order.
    pub nodes: Vec<XmlNode>,
    /// The children of each node, in document order.
    pub kids: Vec<Vec<usize>>,
}

impl Tree {
    /// The nodes as plain values.
    pub open spec fn doc(&self) -> Seq<NodeV> {
        self.nodes@.map_values(|n: XmlNode| n@)
    }

    /// The children of every node are indexed: the later nodes that name it as
    /// their parent.
    pub open spec fn wf(&self) -> bool {
        &&& self.kids@.len() == self.nodes@.len()
        &&& forall|i: int| 0 <= i < self.kids@.len() ==> (#[trigger] self.kids@[i])@ == children(self.doc(), i)
        &&& forall|i: int, k: int|
            0 <= i < self.kids@.len() && 0 <= k < self.kids@[i]@.len() ==> i < #[trigger] self.kids@[i]@[k]
                < self.nodes@.len()
    }

    /// Index the children of every node. A node whose parent does not come
    /// before it is the child of nothing.
    pub fn build(nodes: Vec<XmlNode>) -> (tree: Tree)
        ensures
            tree.wf(),
            tree.nodes@ == nodes@,
    {
        let ghost doc = nodes@.map_values(|n: XmlNode| n@);
        let n = nodes.len();
        let mut kids: Vec<Vec<usize>> = Vec::new();
        let mut i: usize = 0;
        while i < n
            invariant
                0 <= i <= n,
                kids@.len() == i,
                forall|a: int| 0 <= a < i ==> (#[trigger] kids@[a])@.len() == 0,
            decreases n - i,
        {
            kids.push(Vec::new());
            i = i + 1;
        }
        let mut j: usize = 1;
        while j < n
            invariant
                n == nodes@.len(),
                doc == nodes@.map_values(|n: XmlNode| n@),
                kids@.len() == n,
                1 <= j,
                n == 0 || j <= n,
                forall|a: int| 0 <= a < n ==> (#[trigger] kids@[a])@ == children_upto(doc, a, j as int),
            decreases n - j,
        {
            let ghost prev = kids@;
            match nodes[j].parent {
                Some(p) => {
                    if p < j {
                        let mut list: Vec<usize> = Vec::new();
                        kids.set_and_swap(p, &mut list);
                        list.push(j);
                        kids.set_and_swap(p, &mut list);
                    }
                },
                None => {},
            }
            proof {
                assert(doc[j as int].0 == nodes@[j as int].parent);
                assert forall|a: int| 0 <= a < n implies (#[trigger] kids@[a])@ == children_upto(doc, a, j + 1) by {
                    assert(prev[a]@ == children_upto(doc, a, j as int));
                }
            }
            j = j + 1;
        }
        let tree = Tree { nodes, kids };
        proof {
            assert forall|a: int| 0 <= a < tree.kids@.len() implies (#[trigger] tree.kids@[a])@ == children(tree.doc(), a) by {
                if n > 0 {
                    assert(j == n);
                }
            }
            assert forall|a: int, k: int|
                0 <= a < tree.kids@.len() && 0 <= k < tree.kids@[a]@.len() implies a < #[trigger] tree.kids@[a]@[k]
                    < tree.nodes@.len() by {
                lemma_children_after(tree.doc(), a, n as int);
            }
        }
        tree
    }

    /// The children of a node that are elements, in document order.
    pub fn elements(&self, i: usize) -> (found: Vec<usize>)
        requires
            self.wf(),
            i < self.nodes@.len(),
        ensures
            found@ == elements_of(self.doc(), i as int),
            forall|k: int| 0 <= k < found@.len() ==> i < #[trigger] found@[k] < self.nodes@.len(),
    {
        let ghost doc = self.doc();
        let ghost pred = |j: usize| doc[j as int].1;
        let kids = &self.kids[i];
        let mut found: Vec<usize> = Vec::new();
        let mut k: usize = 0;
        while k < kids.len()
            invariant
                self.wf(),
                doc == self.doc(),
                pred == (|j: usize| doc[j as int].1),
                i < self.nodes@.len(),
                kids@ == self.kids@[i as int]@,
                0 <= k <= kids@.len(),
                found@ == kids@.subrange(0, k as int).filter(pred),
                forall|m: int| 0 <= m < found@.len() ==> i < #[trigger] found@[m] < self.nodes@.len(),
            decreases kids@.len() - k,
        {
            let j = kids[k];
            assert(i < self.kids@[i as int]@[k as int] < self.nodes@.len());
            let ghost before = kids@.subrange(0, k as int);
            let ghost after = kids@.subrange(0, k + 1);
            assert(after.drop_last() =~= before);
            reveal_with_fuel(Seq::<_>::filter, 1);
            if self.nodes[j].element {
                found.push(j);
            }
            proof {
                assert(doc[j as int] == self.nodes@[j as int]@);
                assert(after.filter(pred) == (if pred(after.last()) {
                    before.filter(pred).push(after.last())
                } else {
                    before.filter(pred)
                }));
                assert(found@ =~= after.filter(pred));
            }
            k = k + 1;
        }
        assert(kids@.subrange(0, kids@.len() as int) =~= kids@);
        found
    }

    /// The value of the first unqualified attribute of a name.
    pub fn attribute(&self, i: usize, name: &str) -> (value: Option<String>)
        requires
            i < self.nodes@.len(),
        ensures
            text_view(value) == spec_attr(self.nodes@[i as int]@.3, name@),
            text_view(value) == attr_of(self.doc(), i as int, name@),
    {
        let attrs = &self.nodes[i].attrs;
        let ghost view = self.nodes@[i as int]@.3;
        assert(view == attrs@.map_values(|a: (bool, String, String)| attr_view(a)));
        let mut k: usize = 0;
        assert(view.subrange(0, view.len() as int) =~= view);
        while k < attrs.len()
            invariant
                0 <= k <= attrs@.len(),
                view == attrs@.map_values(|a: (bool, String, String)| attr_view(a)),
                i < self.nodes@.len(),
                view == self.nodes@[i as int]@.3,
                spec_attr(view, name@) == spec_attr(view.subrange(k as int, view.len() as int), name@),
            decreases attrs@.len() - k,
        {
            let ghost rest = view.subrange(k as int, view.len() as int);
            assert(rest.drop_first() =~= view.subrange(k + 1, view.len() as int));
            assert(rest[0] == attr_view(attrs@[k as int]));
            if !attrs[k].0 && same_text(attrs[k].1.as_str(), name) {
                let value = attrs[k].2.clone();
                assert(spec_attr(rest, name@) == Some(attrs@[k as int].2@));
                return Some(value);
            }
            k = k + 1;
        }
        None
    }

    /// Whether an element carries an unqualified attribute of a name.
    pub fn has(&self, i: usize, name: &str) -> (found: bool)
        requires
            i < self.nodes@.len(),
        ensures
            found == spec_attr(self.nodes@[i as int]@.3, name@) is Some,
            found == attr_of(self.doc(), i as int, name@) is Some,
    {
        self.attribute(i, name).is_some()
    }

    /// Whether a node is an `<o>` element.
    pub fn is_object(&self, i: usize) -> (object: bool)
        requires
            i < self.nodes@.len(),
        ensures
            object == (self.nodes@[i as int].element && self.nodes@[i as int].tag@ == "o"@),
            object == (self.doc()[i as int].1 && self.doc()[i as int].2 == "o"@),
    {
        self.nodes[i].element && same_text(self.nodes[i].tag.as_str(), "o")
    }

    /// The root element: the first element child of the document root.
    pub fn root_element(&self) -> (root: Option<usize>)
        requires
            self.wf(),
        ensures
            root == root_of(self.doc()),
            root matches Some(r) ==> 0 < r < self.nodes@.len(),
    {
        if self.nodes.len() == 0 {
            return None;
        }
        let found = self.elements(0);
        if found.len() == 0 {
            None
        } else {
            Some(found[0])
        }
    }

    /// The receiver and the arguments of an application, the latter in `α`
    /// order: among the element children, those with an `as` are arguments,
    /// and the first without one is the receiver.
    pub fn split(&self, i: usize) -> (parts: (Option<usize>, Vec<usize>))
        requires
            self.wf(),
            i < self.nodes@.len(),
        ensures
            (parts.0, parts.1@) == split_of(self.doc(), elements_of(self.doc(), i as int)),
            parts.0 matches Some(r) ==> i < r < self.nodes@.len(),
            forall|k: int| 0 <= k < parts.1@.len() ==> i < #[trigger] parts.1@[k] < self.nodes@.len(),
    {
        let children = self.elements(i);
        let mut receiver: Option<usize> = None;
        let mut args: Vec<usize> = Vec::new();
        let mut k: usize = 0;
        while k < children.len()
            invariant
                self.wf(),
                i < self.nodes@.len(),
                0 <= k <= children@.len(),
                forall|m: int| 0 <= m < children@.len() ==> i < #[trigger] children@[m] < self.nodes@.len(),
                receiver matches Some(r) ==> i < r < self.nodes@.len(),
                forall|m: int| 0 <= m < args@.len() ==> i < #[trigger] args@[m] < self.nodes@.len(),
                (receiver, args@) == split_of(self.doc(), children@.subrange(0, k as int)),
            decreases children@.len() - k,
        {
            let child = children[k];
            let ghost before = children@.subrange(0, k as int);
            let ghost after = children@.subrange(0, k + 1);
            assert(after.drop_last() =~= before);
            if self.has(child, "as") {
                args.push(child);
            } else if receiver.is_none() {
                receiver = Some(child);
            }
            k = k + 1;
        }
        assert(children@.subrange(0, children@.len() as int) =~= children@);
        (receiver, args)
    }

    /// One `<o>` element as a node of the tree.
    pub fn convert(&self, i: usize) -> (node: Node)
        requires
            self.wf(),
            i < self.nodes@.len(),
        ensures
            reads_as(self.doc(), i as int, node),
        decreases self.nodes@.len() - i, 1nat,
    {
        let ghost doc = self.doc();
        let base = match self.attribute(i, "base") {
            Some(base) => base,
            None => {
                let children = self.elements(i);
                if children.len() == 0 {
                    match &self.nodes[i].text {
                        Some(text) => {
                            if has_content(text.as_str()) {
                                return Node::Bytes;
                            }
                        },
                        None => {},
                    }
                }
                return self.formation(i);
            },
        };
        let name = tail(base.as_str());
        let (receiver, args) = self.split(i);
        if receiver.is_none() {
            match primitive(name.as_str()) {
                Some(literal) => {
                    return literal;
                },
                None => {},
            }
        }
        let here = self.site(i);
        let n = base.as_str().unicode_len();
        let dotted = n > 0 && base.as_str().get_char(0) == '.';
        let scoped = same_text(base.as_str(), "ξ") || (n >= 2 && base.as_str().get_char(0) == 'ξ'
            && base.as_str().get_char(1) == '.');
        let mut node = if dotted {
            let obj = match receiver {
                Some(r) => self.convert(r),
                None => Node::Bytes,
            };
            let label = if same_text(name.as_str(), "φ") {
                String::from_str("@")
            } else {
                name
            };
            proof {
                reveal_strlit("φ");
                reveal_strlit("@");
            }
            Node::Dispatch { obj: Box::new(obj), label, site: here }
        } else if scoped {
            let walked = scope(base.as_str(), &here);
            proof {
                reveal_strlit("ξ");
                assert(sited(doc, i as int, here));
            }
            walked
        } else {
            proof {
                reveal_strlit("ξ");
            }
            Node::Name(name)
        };
        proof {
            reveal_strlit("ξ");
            assert(heads(doc, i as int, base@, receiver, node));
            assert(args@.subrange(0, 0) =~= Seq::<usize>::empty());
            assert(applies(doc, i as int, base@, receiver, args@.subrange(0, 0), node));
        }
        let mut k: usize = 0;
        while k < args.len()
            invariant
                self.wf(),
                doc == self.doc(),
                i < self.nodes@.len(),
                0 <= k <= args@.len(),
                forall|m: int| 0 <= m < args@.len() ==> i < #[trigger] args@[m] < self.nodes@.len(),
                applies(doc, i as int, base@, receiver, args@.subrange(0, k as int), node),
            decreases args@.len() - k,
        {
            let arg = self.convert(args[k]);
            let ghost before = args@.subrange(0, k as int);
            let ghost after = args@.subrange(0, k + 1);
            assert(after.drop_last() =~= before);
            node = Node::Apply { fun: Box::new(node), arg: Box::new(arg) };
            k = k + 1;
        }
        assert(args@.subrange(0, args@.len() as int) =~= args@);
        node
    }

    /// The result the first child declaring one declares.
    fn declared_return(&self, children: &Vec<usize>) -> (ret: Option<String>)
        requires
            forall|m: int| 0 <= m < children@.len() ==> #[trigger] children@[m] < self.nodes@.len(),
        ensures
            text_view(ret) == first_atom(self.doc(), children@),
    {
        let mut k: usize = 0;
        assert(children@.skip(0) =~= children@);
        while k < children.len()
            invariant
                0 <= k <= children@.len(),
                forall|m: int| 0 <= m < children@.len() ==> #[trigger] children@[m] < self.nodes@.len(),
                first_atom(self.doc(), children@) == first_atom(self.doc(), children@.skip(k as int)),
            decreases children@.len() - k,
        {
            assert(children@.skip(k as int).drop_first() =~= children@.skip(k + 1));
            assert(children@.skip(k as int)[0] == children@[k as int]);
            match self.attribute(children[k], "atom") {
                Some(ret) => {
                    return Some(ret);
                },
                None => {},
            }
            k = k + 1;
        }
        None
    }

    /// Whether some child declares a type of its own.
    fn any_typed(&self, children: &Vec<usize>) -> (found: bool)
        requires
            forall|m: int| 0 <= m < children@.len() ==> #[trigger] children@[m] < self.nodes@.len(),
        ensures
            found == typed(self.doc(), children@),
    {
        let mut k: usize = 0;
        while k < children.len()
            invariant
                0 <= k <= children@.len(),
                forall|m: int| 0 <= m < children@.len() ==> #[trigger] children@[m] < self.nodes@.len(),
                forall|m: int| 0 <= m < k ==> attr_of(self.doc(), #[trigger] children@[m] as int, "type"@) is None,
            decreases children@.len() - k,
        {
            if self.has(children[k], "type") {
                return true;
            }
            k = k + 1;
        }
        false
    }

    /// What the void children of an atom declare about themselves, in order.
    fn atom_voids(&self, children: &Vec<usize>) -> (voids: Vec<Void>)
        requires
            forall|m: int| 0 <= m < children@.len() ==> #[trigger] children@[m] < self.nodes@.len(),
        ensures
            voids_of(self.doc(), children@, voids@),
    {
        let ghost doc = self.doc();
        let ghost pred = |c: usize| is_void(doc, c as int);
        let mut voids: Vec<Void> = Vec::new();
        let mut k: usize = 0;
        while k < children.len()
            invariant
                doc == self.doc(),
                pred == (|c: usize| is_void(doc, c as int)),
                0 <= k <= children@.len(),
                forall|m: int| 0 <= m < children@.len() ==> #[trigger] children@[m] < self.nodes@.len(),
                voids@.len() == children@.subrange(0, k as int).filter(pred).len(),
                forall|m: int|
                    0 <= m < voids@.len() ==> describes(doc, children@.subrange(0, k as int).filter(pred)[m] as int, #[trigger] voids@[m]),
            decreases children@.len() - k,
        {
            let child = children[k];
            let ghost before = children@.subrange(0, k as int);
            let ghost after = children@.subrange(0, k + 1);
            assert(after.drop_last() =~= before);
            reveal_with_fuel(Seq::<_>::filter, 1);
            let is_void = match self.attribute(child, "base") {
                Some(b) => same_text(b.as_str(), "∅"),
                None => false,
            };
            if is_void {
                let label = match self.attribute(child, "name") {
                    Some(label) => label,
                    None => String::new(),
                };
                let kind = match self.attribute(child, "type") {
                    Some(own) => Kind::Own(own),
                    None => match self.attribute(child, "args") {
                        Some(args) => Kind::Args(args),
                        None => Kind::Plain,
                    },
                };
                let ghost made = Void { label, kind };
                voids.push(Void { label, kind });
                proof {
                    assert(pred(child));
                    assert(after.filter(pred) == before.filter(pred).push(child));
                    assert(describes(doc, child as int, made));
                }
            } else {
                proof {
                    assert(!pred(child));
                    assert(after.filter(pred) == before.filter(pred));
                }
            }
            k = k + 1;
        }
        assert(children@.subrange(0, children@.len() as int) =~= children@);
        voids
    }

    /// A formation: either an atom that declares its whole type, or an object
    /// whose attributes get inferred.
    pub fn formation(&self, i: usize) -> (node: Node)
        requires
            self.wf(),
            i < self.nodes@.len(),
        ensures
            forms(self.doc(), i as int, node),
        decreases self.nodes@.len() - i, 0nat,
    {
        let ghost doc = self.doc();
        let children = self.elements(i);
        match self.declared_return(&children) {
            Some(ret) => {
                let typed = self.any_typed(&children);
                if generic(ret.as_str()) || typed {
                    let voids = self.atom_voids(&children);
                    return Node::Atom { voids, ret: Some(ret) };
                }
            },
            None => {},
        }
        let ghost bindable_pred = |c: usize| bindable(doc, c as int);
        let ghost param_pred = |c: usize| attr_of(doc, c as int, "atom"@) is None && is_void(doc, c as int);
        let mut params: Vec<String> = Vec::new();
        let mut binds: Vec<(String, Node)> = Vec::new();
        let mut body: Option<Node> = None;
        let mut k: usize = 0;
        proof {
            reveal_strlit("φ");
            reveal_strlit("∅");
        }
        while k < children.len()
            invariant
                self.wf(),
                doc == self.doc(),
                bindable_pred == (|c: usize| bindable(doc, c as int)),
                param_pred == (|c: usize| attr_of(doc, c as int, "atom"@) is None && is_void(doc, c as int)),
                i < self.nodes@.len(),
                0 <= k <= children@.len(),
                forall|m: int| 0 <= m < children@.len() ==> i < #[trigger] children@[m] < self.nodes@.len(),
                params@.len() == children@.subrange(0, k as int).filter(param_pred).len(),
                forall|m: int|
                    0 <= m < params@.len() ==> (#[trigger] params@[m])@ == label_of(
                        doc,
                        children@.subrange(0, k as int).filter(param_pred)[m] as int,
                    ),
                match body_child(doc, children@.subrange(0, k as int)) {
                    Some(d) => body matches Some(b) && body_reads(doc, i as int, d as int, b),
                    None => body is None,
                },
                bound(doc, i as int, children@.subrange(0, k as int).filter(bindable_pred), binds@, None),
            decreases children@.len() - k,
        {
            let child = children[k];
            let ghost before = children@.subrange(0, k as int);
            let ghost after = children@.subrange(0, k + 1);
            let ghost prior = binds@;
            assert(after.drop_last() =~= before);
            assert(after.last() == child);
            reveal_with_fuel(Seq::<_>::filter, 1);
            let label = self.attribute(child, "name");
            let is_void = match self.attribute(child, "base") {
                Some(b) => same_text(b.as_str(), "∅"),
                None => false,
            };
            match self.attribute(child, "atom") {
                Some(atom) => {
                    body = Some(forma(atom.as_str()));
                    proof {
                        assert(!param_pred(child) && !bindable_pred(child));
                        assert(after.filter(param_pred) == before.filter(param_pred));
                        assert(after.filter(bindable_pred) == before.filter(bindable_pred));
                    }
                },
                None => {
                    if is_void {
                        let ghost entry = label_of(doc, child as int);
                        params.push(
                            match label {
                                Some(label) => label,
                                None => String::new(),
                            },
                        );
                        proof {
                            assert(param_pred(child) && !bindable_pred(child));
                            assert(after.filter(param_pred) == before.filter(param_pred).push(child));
                            assert(after.filter(bindable_pred) == before.filter(bindable_pred));
                        }
                    } else {
                        proof {
                            assert(!param_pred(child));
                            assert(after.filter(param_pred) == before.filter(param_pred));
                        }
                        match label {
                            Some(label) => {
                                if same_text(label.as_str(), "φ") {
                                    body = Some(self.convert(child));
                                    proof {
                                        assert(!bindable_pred(child));
                                        assert(after.filter(bindable_pred) == before.filter(bindable_pred));
                                    }
                                } else {
                                    let n = label.as_str().unicode_len();
                                    let marked = n > 0 && (label.as_str().get_char(0) == '+'
                                        || label.as_str().get_char(0) == '-');
                                    if !marked {
                                        let converted = self.convert(child);
                                        let ghost made = converted;
                                        bind(&mut binds, label.as_str(), converted);
                                        proof {
                                            assert(bindable_pred(child));
                                            assert(after.filter(bindable_pred) == before.filter(bindable_pred).push(child));
                                            lemma_bound_push(doc, i as int, before.filter(bindable_pred), prior, child as int, made, binds@);
                                        }
                                    } else {
                                        proof {
                                            assert(!bindable_pred(child));
                                            assert(after.filter(bindable_pred) == before.filter(bindable_pred));
                                        }
                                    }
                                }
                            },
                            None => {
                                proof {
                                    assert(!bindable_pred(child));
                                    assert(after.filter(bindable_pred) == before.filter(bindable_pred));
                                }
                            },
                        }
                    }
                },
            }
            k = k + 1;
        }
        assert(children@.subrange(0, children@.len() as int) =~= children@);
        let name = self.attribute(i, "name");
        if params.len() == 0 {
            let ghost prior = binds@;
            match body {
                Some(body) => {
                    let ghost made = body;
                    bind(&mut binds, "@", body);
                    proof {
                        lemma_bound_decorate(doc, i as int, children@.filter(bindable_pred), prior, body_child(doc, children@)->0, made, binds@);
                    }
                },
                None => {},
            }
            Node::Obj { name, binds }
        } else {
            Node::Lam {
                name,
                params,
                body: match body {
                    Some(body) => Some(Box::new(body)),
                    None => None,
                },
                binds,
            }
        }
    }

    /// Every `<o>` child of the root element, with the name it was given.
    pub fn objects(&self) -> (found: Vec<(Option<String>, Node)>)
        requires
            self.wf(),
        ensures
            objects_read(self.doc(), found@),
    {
        let ghost doc = self.doc();
        let ghost pred = |c: usize| doc[c as int].1 && doc[c as int].2 == "o"@;
        let mut found: Vec<(Option<String>, Node)> = Vec::new();
        match self.root_element() {
            Some(root) => {
                let kids = &self.kids[root];
                let mut k: usize = 0;
                while k < kids.len()
                    invariant
                        self.wf(),
                        doc == self.doc(),
                        pred == (|c: usize| doc[c as int].1 && doc[c as int].2 == "o"@),
                        root < self.nodes@.len(),
                        kids@ == self.kids@[root as int]@,
                        0 <= k <= kids@.len(),
                        found@.len() == kids@.subrange(0, k as int).filter(pred).len(),
                        forall|m: int|
                            0 <= m < found@.len() ==> object_read(doc, kids@.subrange(0, k as int).filter(pred)[m] as int, #[trigger] found@[m]),
                    decreases kids@.len() - k,
                {
                    let child = kids[k];
                    assert(root < self.kids@[root as int]@[k as int] < self.nodes@.len());
                    let ghost before = kids@.subrange(0, k as int);
                    let ghost after = kids@.subrange(0, k + 1);
                    assert(after.drop_last() =~= before);
                    reveal_with_fuel(Seq::<_>::filter, 1);
                    if self.is_object(child) {
                        let entry = (self.attribute(child, "name"), self.convert(child));
                        let ghost made = entry;
                        found.push(entry);
                        proof {
                            assert(pred(child));
                            assert(after.filter(pred) == before.filter(pred).push(child));
                            assert(object_read(doc, child as int, made));
                        }
                    } else {
                        proof {
                            assert(after.filter(pred) == before.filter(pred));
                        }
                    }
                    k = k + 1;
                }
                assert(kids@.subrange(0, kids@.len() as int) =~= kids@);
            },
            None => {},
        }
        found
    }

    /// Every `<o>` child of the root element that has a locator, by locator.
    pub fn located(&self) -> (found: Vec<(String, Node)>)
        requires
            self.wf(),
        ensures
            located_read(self.doc(), found@),
    {
        let ghost doc = self.doc();
        let ghost pred = |c: usize| doc[c as int].1 && doc[c as int].2 == "o"@ && attr_of(doc, c as int, "loc"@) is Some;
        let mut found: Vec<(String, Node)> = Vec::new();
        match self.root_element() {
            Some(root) => {
                let kids = &self.kids[root];
                let mut k: usize = 0;
                while k < kids.len()
                    invariant
                        self.wf(),
                        doc == self.doc(),
                        pred == (|c: usize| doc[c as int].1 && doc[c as int].2 == "o"@ && attr_of(doc, c as int, "loc"@) is Some),
                        root < self.nodes@.len(),
                        kids@ == self.kids@[root as int]@,
                        0 <= k <= kids@.len(),
                        found@.len() == kids@.subrange(0, k as int).filter(pred).len(),
                        forall|m: int|
                            0 <= m < found@.len() ==> locator_read(doc, kids@.subrange(0, k as int).filter(pred)[m] as int, #[trigger] found@[m]),
                    decreases kids@.len() - k,
                {
                    let child = kids[k];
                    assert(root < self.kids@[root as int]@[k as int] < self.nodes@.len());
                    let ghost before = kids@.subrange(0, k as int);
                    let ghost after = kids@.subrange(0, k + 1);
                    assert(after.drop_last() =~= before);
                    reveal_with_fuel(Seq::<_>::filter, 1);
                    let mut pushed = false;
                    if self.is_object(child) {
                        match self.attribute(child, "loc") {
                            Some(loc) => {
                                let entry = (loc, self.convert(child));
                                let ghost made = entry;
                                found.push(entry);
                                pushed = true;
                                proof {
                                    assert(pred(child));
                                    assert(after.filter(pred) == before.filter(pred).push(child));
                                    assert(locator_read(doc, child as int, made));
                                }
                            },
                            None => {},
                        }
                    }
                    if !pushed {
                        proof {
                            assert(!pred(child));
                            assert(after.filter(pred) == before.filter(pred));
                        }
                    }
                    k = k + 1;
                }
                assert(kids@.subrange(0, kids@.len() as int) =~= kids@);
            },
            None => {},
        }
        found
    }

    /// Where an element says it was written.
    pub fn site(&self, i: usize) -> (site: Site)
        requires
            i < self.nodes@.len(),
        ensures
            sited(self.doc(), i as int, site),
    {
        let at = match self.attribute(i, "line") {
            Some(line) => match parse_usize(line.as_str()) {
                Some(line) => {
                    let pos = match self.attribute(i, "pos") {
                        Some(pos) => match parse_usize(pos.as_str()) {
                            Some(pos) => pos,
                            None => 0,
                        },
                        None => 0,
                    };
                    Some(Spot { line, pos })
                },
                None => None,
            },
            None => None,
        };
        Site { at, loc: self.attribute(i, "loc") }
    }
}


/// Read a text as XML and index it.
///
/// # Errors
///
/// [`Trouble::Malformed`] with the parser's message when the text is not
/// well-formed XML.
pub fn document(text: &str) -> (tree: Result<Tree, Trouble>)
    ensures
        tree is Ok == parsed_nodes(text@) is Some,
        tree matches Ok(t) ==> t.wf() && parsed_nodes(text@) == Some(t.doc()),
        tree matches Err(trouble) ==> trouble is Malformed,
{
    match parse_xml(text) {
        Ok(nodes) => Ok(Tree::build(nodes)),
        Err(failure) => Err(Trouble::Malformed(describe(&failure))),
    }
}

/// Every top-level object of one XMIR text, with the name it was given.
///
/// # Errors
///
/// [`Trouble::Malformed`] if the text is not well-formed XML.
pub fn load(text: &str) -> (objects: Result<Vec<(Option<String>, Node)>, Trouble>)
    ensures
        objects is Ok == parsed_nodes(text@) is Some,
        objects matches Ok(found) ==> objects_read(parsed_nodes(text@)->0, found@),
        objects matches Err(trouble) ==> trouble is Malformed,
{
    match document(text) {
        Ok(tree) => Ok(tree.objects()),
        Err(trouble) => Err(trouble),
    }
}

/// Index every top-level object of every text by its locator, so a forma —
/// which is itself a `Φ`-rooted locator — can be resolved to what it names.
///
/// A top-level object is indexed rather than every object, because its parent
/// chain is self-contained and so it can be typed alone. A text that is not
/// XML is skipped: a broken input should not stop the rest from being checked.
/// Where two objects share a locator, the later one is listed later.
pub fn locators(texts: &Vec<String>) -> (found: Vec<(String, Node)>)
    ensures
        locators_read(texts@, found@),
{
    let mut found: Vec<(String, Node)> = Vec::new();
    let mut i: usize = 0;
    while i < texts.len()
        invariant
            0 <= i <= texts@.len(),
            locators_read(texts@.subrange(0, i as int), found@),
        decreases texts@.len() - i,
    {
        let ghost before = texts@.subrange(0, i as int);
        let ghost after = texts@.subrange(0, i + 1);
        let ghost prior = found@;
        assert(after.drop_last() =~= before);
        assert(after.last() == texts@[i as int]);
        match document(texts[i].as_str()) {
            Ok(tree) => {
                let mut more = tree.located();
                let ghost added = more@;
                found.append(&mut more);
                proof {
                    assert(found@.subrange(0, found@.len() - added.len()) =~= prior);
                    assert(found@.subrange(found@.len() - added.len(), found@.len() as int) =~= added);
                }
            },
            Err(_) => {},
        }
        i = i + 1;
    }
    assert(texts@.subrange(0, texts@.len() as int) =~= texts@);
    found
}

/// A forma written somewhere, and where it was written. A forma is a locator
/// into the object graph, so it can be checked against the graph without
/// inferring anything.
#[derive(Clone, Debug)]
pub struct Forma {
    /// The object it claims exists.
    pub path: String,
    /// Where the claim was made.
    pub site: Site,
}

/// The objects some annotation words claim, in order: each word that names an
/// object at all.
pub open spec fn rooted_all(ws: Seq<Seq<char>>) -> Seq<Seq<char>>
    decreases ws.len(),
{
    if ws.len() == 0 {
        Seq::empty()
    } else {
        match spec_rooted(ws.last()) {
            Some(path) => rooted_all(ws.drop_last()).push(path),
            None => rooted_all(ws.drop_last()),
        }
    }
}

/// The objects one annotation of a node claims.
pub open spec fn claims_in(doc: Seq<NodeV>, c: int, annotation: Seq<char>) -> Seq<Seq<char>> {
    match attr_of(doc, c, annotation) {
        Some(text) => rooted_all(spec_words(text)),
        None => Seq::empty(),
    }
}

/// The objects a node claims through its `atom`, `type` and `args`
/// annotations, in that order.
pub open spec fn claims_of(doc: Seq<NodeV>, c: int) -> Seq<Seq<char>> {
    claims_in(doc, c, "atom"@) + claims_in(doc, c, "type"@) + claims_in(doc, c, "args"@)
}

/// Whether a node is an `<o>` element.
pub open spec fn is_o(doc: Seq<NodeV>, c: int) -> bool {
    doc[c].1 && doc[c].2 == "o"@
}

/// The locators the `<o>` elements before a position declare, in document
/// order.
pub open spec fn locs_upto(doc: Seq<NodeV>, j: int) -> Seq<Seq<char>>
    decreases j,
{
    if j <= 0 {
        Seq::empty()
    } else if is_o(doc, j - 1) && attr_of(doc, j - 1, "loc"@) is Some {
        locs_upto(doc, j - 1).push(attr_of(doc, j - 1, "loc"@)->0)
    } else {
        locs_upto(doc, j - 1)
    }
}

/// The objects the `<o>` elements before a position claim, in document order.
pub open spec fn claims_upto(doc: Seq<NodeV>, j: int) -> Seq<Seq<char>>
    decreases j,
{
    if j <= 0 {
        Seq::empty()
    } else if is_o(doc, j - 1) {
        claims_upto(doc, j - 1) + claims_of(doc, j - 1)
    } else {
        claims_upto(doc, j - 1)
    }
}

/// Every locator of every text that is XML, text after text.
pub open spec fn survey_known(texts: Seq<String>) -> Seq<Seq<char>>
    decreases texts.len(),
{
    if texts.len() == 0 {
        Seq::empty()
    } else {
        survey_known(texts.drop_last()) + match parsed_nodes(texts.last()@) {
            Some(doc) => locs_upto(doc, doc.len() as int),
            None => Seq::empty(),
        }
    }
}

/// Every object claimed in every text that is XML, text after text.
pub open spec fn survey_claims(texts: Seq<String>) -> Seq<Seq<char>>
    decreases texts.len(),
{
    if texts.len() == 0 {
        Seq::empty()
    } else {
        survey_claims(texts.drop_last()) + match parsed_nodes(texts.last()@) {
            Some(doc) => claims_upto(doc, doc.len() as int),
            None => Seq::empty(),
        }
    }
}

/// The document and the node that made each claim among the `<o>` elements of
/// a document before a position.
pub open spec fn claimants_upto(doc: Seq<NodeV>, j: int) -> Seq<(Seq<NodeV>, int)>
    decreases j,
{
    if j <= 0 {
        Seq::empty()
    } else if is_o(doc, j - 1) {
        claimants_upto(doc, j - 1) + Seq::new(claims_of(doc, j - 1).len(), |_k: int| (doc, j - 1))
    } else {
        claimants_upto(doc, j - 1)
    }
}

/// The document and the node that made each claim in every text that is XML,
/// text after text.
pub open spec fn survey_claimants(texts: Seq<String>) -> Seq<(Seq<NodeV>, int)>
    decreases texts.len(),
{
    if texts.len() == 0 {
        Seq::empty()
    } else {
        survey_claimants(texts.drop_last()) + match parsed_nodes(texts.last()@) {
            Some(doc) => claimants_upto(doc, doc.len() as int),
            None => Seq::empty(),
        }
    }
}

/// Whether each claim was made where its claimant says it was written.
pub open spec fn claims_placed(claimed: Seq<Forma>, claimants: Seq<(Seq<NodeV>, int)>) -> bool {
    &&& claimed.len() == claimants.len()
    &&& forall|k: int| 0 <= k < claimed.len() ==> sited(claimants[k].0, claimants[k].1, (#[trigger] claimed[k]).site)
}

/// The paths of some claims.
pub open spec fn paths(claimed: Seq<Forma>) -> Seq<Seq<char>> {
    claimed.map_values(|f: Forma| f.path@)
}

/// The texts of some strings.
pub open spec fn texts_of(known: Seq<String>) -> Seq<Seq<char>> {
    known.map_values(|s: String| s@)
}

/// Every locator that exists, and every forma that claims one.
///
/// This is all the dangling-forma lint needs, and it needs no inference at all:
/// a forma naming an object that is not there is a broken reference whatever
/// its type would have been.
#[derive(Debug)]
pub struct Survey {
    /// Every `@loc` in the input.
    pub known: Vec<String>,
    /// Every forma claimed by an `atom`, `type` or `args` annotation.
    pub claimed: Vec<Forma>,
}

/// Whether a locator is among the known ones.
pub open spec fn is_known(known: Seq<String>, path: Seq<char>) -> bool {
    exists|k: int| 0 <= k < known.len() && known[k]@ == path
}

impl Survey {
    /// Nothing known, nothing claimed.
    pub fn new() -> (survey: Survey)
        ensures
            survey.known@.len() == 0,
            survey.claimed@.len() == 0,
    {
        Survey { known: Vec::new(), claimed: Vec::new() }
    }

    /// The formas that name nothing, in the order they were claimed.
    pub fn dangling(&self) -> (broken: Vec<&Forma>)
        ensures
            broken@.len() <= self.claimed@.len(),
            forall|k: int| 0 <= k < broken@.len() ==> !is_known(self.known@, (#[trigger] broken@[k]).path@),
            broken@ == self.claimed@.filter(|f: Forma| !is_known(self.known@, f.path@)).map_values(|f: Forma| &f),
    {
        let mut broken: Vec<&Forma> = Vec::new();
        let mut i: usize = 0;
        while i < self.claimed.len()
            invariant
                0 <= i <= self.claimed@.len(),
                broken@ == self.claimed@.subrange(0, i as int).filter(|f: Forma| !is_known(self.known@, f.path@)).map_values(|f: Forma| &f),
            decreases self.claimed@.len() - i,
        {
            let forma = &self.claimed[i];
            let mut found = false;
            let mut k: usize = 0;
            while k < self.known.len()
                invariant
                    0 <= k <= self.known@.len(),
                    found == exists|m: int| 0 <= m < k && self.known@[m]@ == forma.path@,
                decreases self.known@.len() - k,
            {
                if same_text(self.known[k].as_str(), forma.path.as_str()) {
                    found = true;
                }
                k = k + 1;
            }
            let ghost before = self.claimed@.subrange(0, i as int);
            let ghost after = self.claimed@.subrange(0, i + 1);
            assert(after.drop_last() =~= before);
            reveal_with_fuel(Seq::<_>::filter, 1);
            if !found {
                broken.push(forma);
            }
            proof {
                let pred = |f: Forma| !is_known(self.known@, f.path@);
                assert(after.filter(pred) == (if pred(after.last()) {
                    before.filter(pred).push(after.last())
                } else {
                    before.filter(pred)
                }));
                assert(after.last() == *forma);
                assert(broken@ =~= after.filter(pred).map_values(|f: Forma| &f));
            }
            i = i + 1;
        }
        assert(self.claimed@.subrange(0, self.claimed@.len() as int) =~= self.claimed@);
        broken
    }
}

/// The whitespace-separated words of what is left of a text, given the word
/// under way when it was reached.
pub open spec fn words_from(text: Seq<char>, current: Seq<char>) -> Seq<Seq<char>>
    decreases text.len(),
{
    if text.len() == 0 {
        if current.len() > 0 {
            seq![current]
        } else {
            Seq::empty()
        }
    } else if whitespace(text[0]) {
        (if current.len() > 0 {
            seq![current]
        } else {
            Seq::empty()
        }) + words_from(text.drop_first(), Seq::empty())
    } else {
        words_from(text.drop_first(), current.push(text[0]))
    }
}

/// The whitespace-separated words of a text, in order; none of them empty.
pub open spec fn spec_words(text: Seq<char>) -> Seq<Seq<char>> {
    words_from(text, Seq::empty())
}

/// The whitespace-separated words of a text.
pub fn words(text: &str) -> (found: Vec<String>)
    ensures
        found@.map_values(|w: String| w@) == spec_words(text@),
{
    let n = text.unicode_len();
    let mut found: Vec<String> = Vec::new();
    let mut start: usize = 0;
    let mut i: usize = 0;
    proof {
        assert(text@.skip(0) =~= text@);
        assert(text@.subrange(0, 0) =~= Seq::<char>::empty());
    }
    while i < n
        invariant
            n == text@.len(),
            0 <= start <= i <= n,
            found@.map_values(|w: String| w@) + words_from(text@.skip(i as int), text@.subrange(start as int, i as int))
                == spec_words(text@),
        decreases n - i,
    {
        let ghost rest = text@.skip(i as int);
        let ghost current = text@.subrange(start as int, i as int);
        let ghost before = found@.map_values(|w: String| w@);
        assert(rest.drop_first() =~= text@.skip(i + 1));
        assert(rest[0] == text@[i as int]);
        if is_space(text.get_char(i)) {
            if start < i {
                found.push(String::from_str(text.substring_char(start, i)));
                assert(found@.map_values(|w: String| w@) =~= before.push(current));
                assert(before + (seq![current] + words_from(rest.drop_first(), Seq::empty())) =~= before.push(current) + words_from(rest.drop_first(), Seq::empty()));
            } else {
                assert(current.len() == 0);
                assert(Seq::<Seq<char>>::empty() + words_from(rest.drop_first(), Seq::empty()) =~= words_from(rest.drop_first(), Seq::empty()));
            }
            start = i + 1;
            assert(text@.subrange(start as int, i + 1) =~= Seq::<char>::empty());
        } else {
            assert(text@.subrange(start as int, i + 1) =~= current.push(text@[i as int]));
        }
        i = i + 1;
    }
    let ghost current = text@.subrange(start as int, n as int);
    let ghost before = found@.map_values(|w: String| w@);
    assert(text@.skip(n as int).len() == 0);
    if start < n {
        found.push(String::from_str(text.substring_char(start, n)));
        assert(found@.map_values(|w: String| w@) =~= before.push(current));
        assert(before + seq![current] =~= before.push(current));
    } else {
        assert(before + Seq::<Seq<char>>::empty() =~= before);
    }
    found
}

/// Note the objects one annotation of a node claims, each as written there.
fn claim(tree: &Tree, i: usize, annotation: &str, here: &Site, claimed: &mut Vec<Forma>)
    requires
        i < tree.nodes@.len(),
    ensures
        paths(final(claimed)@) == paths(old(claimed)@) + claims_in(tree.doc(), i as int, annotation@),
        final(claimed)@.subrange(0, old(claimed)@.len() as int) == old(claimed)@,
        forall|k: int| old(claimed)@.len() <= k < final(claimed)@.len() ==> (#[trigger] final(claimed)@[k]).site == *here,
{
    let ghost start = paths(claimed@);
    let ghost first = claimed@;
    match tree.attribute(i, annotation) {
        Some(text) => {
            let claims = words(text.as_str());
            let ghost ws = claims@.map_values(|w: String| w@);
            let mut c: usize = 0;
            proof {
                assert(ws.subrange(0, 0) =~= Seq::<Seq<char>>::empty());
                assert(paths(claimed@) =~= start + rooted_all(ws.subrange(0, 0)));
            }
            while c < claims.len()
                invariant
                    0 <= c <= claims@.len(),
                    ws == claims@.map_values(|w: String| w@),
                    paths(claimed@) == start + rooted_all(ws.subrange(0, c as int)),
                    first == old(claimed)@,
                    start == paths(first),
                    claimed@.len() >= first.len(),
                    claimed@.subrange(0, first.len() as int) == first,
                    forall|k: int| first.len() <= k < claimed@.len() ==> (#[trigger] claimed@[k]).site == *here,
                decreases claims@.len() - c,
            {
                let ghost before = ws.subrange(0, c as int);
                let ghost after = ws.subrange(0, c + 1);
                assert(after.drop_last() =~= before);
                assert(after.last() == claims@[c as int]@);
                let ghost prior = claimed@;
                match rooted(claims[c].as_str()) {
                    Some(path) => {
                        let ghost p = path@;
                        claimed.push(Forma { path, site: here.duplicate() });
                        proof {
                            assert(paths(claimed@) =~= paths(prior).push(p));
                            assert(claimed@.subrange(0, first.len() as int) =~= prior.subrange(0, first.len() as int));
                        }
                    },
                    None => {},
                }
                c = c + 1;
            }
            assert(ws.subrange(0, claims@.len() as int) =~= ws);
        },
        None => {
            assert(paths(claimed@) =~= start + Seq::<Seq<char>>::empty());
            assert(claimed@.subrange(0, first.len() as int) =~= first);
        },
    }
}

/// Walk every object of every text, noting what exists and what is claimed.
///
/// A text that is not XML is skipped, so one broken input does not stop the
/// rest from being surveyed.
pub fn survey(texts: &Vec<String>) -> (found: Survey)
    ensures
        texts_of(found.known@) == survey_known(texts@),
        paths(found.claimed@) == survey_claims(texts@),
        claims_placed(found.claimed@, survey_claimants(texts@)),
{
    let mut found = Survey::new();
    let mut t: usize = 0;
    proof {
        assert(texts@.subrange(0, 0) =~= Seq::<String>::empty());
        assert(texts_of(found.known@) =~= Seq::<Seq<char>>::empty());
        assert(paths(found.claimed@) =~= Seq::<Seq<char>>::empty());
    }
    while t < texts.len()
        invariant
            0 <= t <= texts@.len(),
            texts_of(found.known@) == survey_known(texts@.subrange(0, t as int)),
            paths(found.claimed@) == survey_claims(texts@.subrange(0, t as int)),
            claims_placed(found.claimed@, survey_claimants(texts@.subrange(0, t as int))),
        decreases texts@.len() - t,
    {
        let ghost before = texts@.subrange(0, t as int);
        let ghost after = texts@.subrange(0, t + 1);
        assert(after.drop_last() =~= before);
        assert(after.last() == texts@[t as int]);
        let ghost known0 = survey_known(before);
        let ghost claims0 = survey_claims(before);
        let ghost owners0 = survey_claimants(before);
        match document(texts[t].as_str()) {
            Ok(tree) => {
                let ghost doc = tree.doc();
                let mut i: usize = 0;
                proof {
                    assert(texts_of(found.known@) =~= known0 + locs_upto(doc, 0));
                    assert(paths(found.claimed@) =~= claims0 + claims_upto(doc, 0));
                    assert(owners0 + claimants_upto(doc, 0) =~= owners0);
                }
                while i < tree.nodes.len()
                    invariant
                        tree.wf(),
                        doc == tree.doc(),
                        0 <= i <= tree.nodes@.len(),
                        texts_of(found.known@) == known0 + locs_upto(doc, i as int),
                        paths(found.claimed@) == claims0 + claims_upto(doc, i as int),
                        claims_placed(found.claimed@, owners0 + claimants_upto(doc, i as int)),
                    decreases tree.nodes@.len() - i,
                {
                    if tree.is_object(i) {
                        let ghost k0 = found.known@;
                        match tree.attribute(i, "loc") {
                            Some(loc) => {
                                let ghost l = loc@;
                                found.known.push(loc);
                                proof {
                                    assert(texts_of(found.known@) =~= texts_of(k0).push(l));
                                }
                            },
                            None => {},
                        }
                        let here = tree.site(i);
                        let ghost c0 = paths(found.claimed@);
                        let ghost f0 = found.claimed@;
                        claim(&tree, i, "atom", &here, &mut found.claimed);
                        let ghost f1 = found.claimed@;
                        claim(&tree, i, "type", &here, &mut found.claimed);
                        let ghost f2 = found.claimed@;
                        claim(&tree, i, "args", &here, &mut found.claimed);
                        proof {
                            assert(paths(found.claimed@) =~= c0 + claims_of(doc, i as int));
                            let owners = owners0 + claimants_upto(doc, i as int);
                            let more = Seq::new(claims_of(doc, i as int).len(), |_k: int| (doc, i as int));
                            assert(owners0 + claimants_upto(doc, i + 1) =~= owners + more);
                            let fin = found.claimed@;
                            assert(fin.len() == f0.len() + claims_of(doc, i as int).len()) by {
                                assert(paths(fin).len() == fin.len());
                                assert(paths(f0).len() == f0.len());
                            }
                            assert(f0.len() == owners.len());
                            assert forall|k: int| 0 <= k < fin.len() implies sited(
                                (owners + more)[k].0,
                                (owners + more)[k].1,
                                (#[trigger] fin[k]).site,
                            ) by {
                                if k < f0.len() {
                                    assert(fin[k] == fin.subrange(0, f2.len() as int)[k]);
                                    assert(f2[k] == f2.subrange(0, f1.len() as int)[k]);
                                    assert(f1[k] == f1.subrange(0, f0.len() as int)[k]);
                                    assert(fin[k] == f0[k]);
                                } else if k < f1.len() {
                                    assert(fin[k] == fin.subrange(0, f2.len() as int)[k]);
                                    assert(f2[k] == f2.subrange(0, f1.len() as int)[k]);
                                    assert(fin[k].site == here);
                                } else if k < f2.len() {
                                    assert(fin[k] == fin.subrange(0, f2.len() as int)[k]);
                                    assert(fin[k].site == here);
                                } else {
                                    assert(fin[k].site == here);
                                }
                            }
                        }
                    } else {
                        proof {
                            assert(owners0 + claimants_upto(doc, i + 1) =~= owners0 + claimants_upto(doc, i as int));
                        }
                    }
                    i = i + 1;
                }
                proof {
                    assert(parsed_nodes(after.last()@) == Some(doc));
                }
            },
            Err(_) => {
                proof {
                    assert(texts_of(found.known@) =~= known0 + Seq::<Seq<char>>::empty());
                    assert(paths(found.claimed@) =~= claims0 + Seq::<Seq<char>>::empty());
                    assert(owners0 + Seq::<(Seq<NodeV>, int)>::empty() =~= owners0);
                }
            },
        }
        t = t + 1;
    }
    assert(texts@.subrange(0, texts@.len() as int) =~= texts@);
    found
}

impl Kind {
    /// A copy, known to be equal.
    pub fn duplicate(&self) -> (copy: Kind)
        ensures
            copy == *self,
    {
        match self {
            Kind::Plain => Kind::Plain,
            Kind::Own(own) => Kind::Own(own.clone()),
            Kind::Args(args) => Kind::Args(args.clone()),
        }
    }
}

impl Void {
    /// A copy, known to be equal.
    pub fn duplicate(&self) -> (copy: Void)
        ensures
            copy == *self,
    {
        Void { label: self.label.clone(), kind: self.kind.duplicate() }
    }
}

} // verus!
