//! The reader for XMIR: how elements become nodes of the tree.

use eoti::xmir::{self, Kind, Node, generic, tail};

fn only(xml: &str) -> Node {
    let mut objects = xmir::load(xml).expect("the fixture is not well-formed");
    assert!(!objects.is_empty(), "the fixture has no object");
    objects.remove(0).1
}

#[test]
fn takes_the_last_segment_of_a_qualified_base() {
    assert_eq!(
        tail("ξ.ρ.if"),
        "if",
        "a qualified base dont reduce to its last segment"
    );
}

#[test]
fn reads_a_dispatch_as_a_dispatch() {
    let node = only(r#"<p><o base=".plus" line="7" loc="Φ.k.φ"><o base="Φ.number"/></o></p>"#);
    assert!(
        matches!(node, Node::Dispatch { label, site, .. }
            if label == "plus"
                && site.at.map(|at| at.line) == Some(7)
                && site.loc.as_deref() == Some("Φ.k.φ")),
        "a dispatch dont read back with its attribute and where it was written"
    );
}

#[test]
fn reads_an_argument_as_an_application() {
    let node =
        only(r#"<p><o base=".plus"><o base="Φ.number"/><o base="Φ.number" as="α0"/></o></p>"#);
    assert!(
        matches!(node, Node::Apply { .. }),
        "an argument dont turn the dispatch into an application"
    );
}

#[test]
fn reads_a_void_as_a_parameter() {
    let node = only(r#"<p><o name="f"><o base="∅" name="x"/><o name="φ" base="ξ.x"/></o></p>"#);
    assert!(
        matches!(node, Node::Lam { ref params, .. } if params == &["x".to_owned()]),
        "a void dont become a parameter of the formation"
    );
}

#[test]
fn reads_a_formation_without_voids_as_an_object() {
    let node = only(r#"<p><o name="k"><o name="φ" base="Φ.number"/></o></p>"#);
    assert!(
        matches!(node, Node::Obj { ref binds, .. } if binds.iter().any(|(l, _)| l == "@")),
        "a formation without voids dont become an object with a decoratee"
    );
}

#[test]
fn reads_a_declared_atom_from_its_annotations() {
    let node = only(
        r#"<p><o name="r"><o base="∅" name="value" type="A?"/>
           <o base="∅" name="alternative" type="A"/><o name="λ" atom="A"/></o></p>"#,
    );
    assert!(
        matches!(node, Node::Atom { ref voids, ref ret }
            if ret.as_deref() == Some("A")
                && matches!(voids.first().map(|v| &v.kind), Some(Kind::Own(own)) if own == "A?")),
        "a declared atom dont read its return type and its typed voids"
    );
}

#[test]
fn skips_an_attribute_whose_name_marks_it_a_test() {
    let node = only(
        r#"<p><o name="k"><o name="+tests-thing" base="Φ.number"/>
           <o name="real" base="Φ.number"/></o></p>"#,
    );
    assert!(
        matches!(node, Node::Obj { ref binds, .. } if binds.len() == 1),
        "an attribute marked as a test dont get skipped"
    );
}

#[test]
fn reads_a_raw_data_leaf_as_bytes() {
    let node = only(r#"<p><o name="k">DE-AD-BE-EF</o></p>"#);
    assert!(
        matches!(node, Node::Bytes),
        "a leaf carrying only text dont read as raw data"
    );
}

#[test]
fn treats_a_single_letter_as_a_variable() {
    assert!(
        generic("C") && !generic("G"),
        "the letters that quantify dont stop at F"
    );
}

#[test]
fn takes_the_first_child_without_as_for_the_receiver() {
    let node = only(r#"<p><o base=".plus"><o base="Φ.number"/><o base="Φ.string"/></o></p>"#);
    assert!(
        matches!(node, Node::Dispatch { ref obj, ref label, .. } if label == "plus" && matches!(**obj, Node::Num)),
        "the receiver of a dispatch is not its first child: {node:?}"
    );
}

#[test]
fn splits_words_at_exactly_the_whitespace_std_knows() {
    for code in 0u32..0x3100 {
        let Some(c) = char::from_u32(code) else { continue };
        let text = format!("x{c}y");
        let expected: Vec<String> = text.split_whitespace().map(str::to_owned).collect();
        assert_eq!(
            xmir::words(&text),
            expected,
            "the character U+{code:04X} was read differently from char::is_whitespace"
        );
    }
}
