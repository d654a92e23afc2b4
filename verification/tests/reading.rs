//! Reading XMIR texts: locators, the survey behind the dangling-forma lint, and
//! the small text helpers the reader is built from.

use eoti::types::Site;
use eoti::xmir::{
    self, Kind, Node, Trouble, bind, forma, generic, locators, primitive, rooted, scope, split_dots,
    survey, tail, words,
};

fn texts(all: &[&str]) -> Vec<String> {
    all.iter().map(|text| (*text).to_owned()).collect()
}

#[test]
fn takes_the_last_segment_of_any_base() {
    assert_eq!(tail("Φ.bool"), "bool");
    assert_eq!(tail(".eq"), "eq");
    assert_eq!(tail("plain"), "plain");
    assert_eq!(tail("a."), "");
    assert_eq!(tail(""), "");
}

#[test]
fn the_last_segment_is_its_own_last_segment() {
    for base in ["Φ.org.eolang.number", "ξ.ρ.if", ".plus", "x", "a..b"] {
        let once = tail(base);
        assert_eq!(tail(&once), once, "taking the last segment twice changed {base}");
    }
}

#[test]
fn quantifies_only_over_single_capitals_a_to_f() {
    for letter in ["A", "B", "C", "D", "E", "F"] {
        assert!(generic(letter), "{letter} is a generic");
    }
    for other in ["G", "a", "AB", "", "Φ.A"] {
        assert!(!generic(other), "{other} is not a generic");
    }
}

#[test]
fn claims_only_objects_rooted_at_phi() {
    assert_eq!(rooted("Φ.posix.return"), Some("Φ.posix.return".to_owned()));
    assert_eq!(rooted("Φ.string?"), Some("Φ.string".to_owned()));
    assert_eq!(rooted("A?"), None);
    assert_eq!(rooted("⊥"), None);
    assert_eq!(rooted("Q.string"), None);
}

#[test]
fn reads_the_primitive_constructors_as_literals() {
    assert!(matches!(primitive("i64"), Some(Node::Num)));
    assert!(matches!(primitive("float"), Some(Node::Num)));
    assert!(matches!(primitive("string"), Some(Node::Str)));
    assert!(matches!(primitive("tuple"), Some(Node::Tuple)));
    assert!(primitive("posix").is_none());
}

#[test]
fn resolves_a_primitive_forma_to_its_literal_and_any_other_to_a_locator() {
    assert!(matches!(forma("Φ.number"), Node::Num));
    assert!(matches!(forma("Φ.posix.return"), Node::Loc(ref loc) if loc == "Φ.posix.return"));
}

#[test]
fn splits_a_path_at_every_dot() {
    assert_eq!(split_dots("ξ.ρ.x"), vec!["ξ", "ρ", "x"]);
    assert_eq!(split_dots("a..b"), vec!["a", "", "b"]);
    assert_eq!(split_dots(""), vec![""]);
}

#[test]
fn walks_a_relative_path_one_dispatch_per_segment() {
    let node = scope("ξ.ρ.φ", &Site::default());
    let Node::Dispatch { obj, label, .. } = node else {
        panic!("a relative path did not end in a dispatch");
    };
    assert_eq!(label, "@", "the decoratee is dispatched as @");
    let Node::Dispatch { obj, label, .. } = *obj else {
        panic!("the parent link was not dispatched");
    };
    assert_eq!(label, "ρ");
    assert!(matches!(*obj, Node::Name(ref name) if name == "ξ"));
}

#[test]
fn rebinding_a_name_replaces_it_in_place() {
    let mut binds = Vec::new();
    bind(&mut binds, "a", Node::Num);
    bind(&mut binds, "b", Node::Str);
    bind(&mut binds, "a", Node::Bool);
    assert_eq!(binds.len(), 2);
    assert_eq!(binds[0].0, "a");
    assert!(matches!(binds[0].1, Node::Bool));
    assert!(matches!(binds[1].1, Node::Str));
}

#[test]
fn splits_words_on_any_whitespace() {
    assert_eq!(words("Φ.a  Φ.b\tΦ.c\nΦ.d"), vec!["Φ.a", "Φ.b", "Φ.c", "Φ.d"]);
    assert_eq!(words("   "), Vec::<String>::new());
    assert_eq!(words(""), Vec::<String>::new());
}

#[test]
fn refuses_a_text_that_is_not_xml_with_the_parser_message() {
    match xmir::load("<p><o name=\"k\"></p>") {
        Err(Trouble::Malformed(message)) => assert!(!message.is_empty(), "the parser said nothing"),
        Err(Trouble::Unreadable(_)) => panic!("a text in hand cannot be unreadable"),
        Ok(_) => panic!("broken XML was read"),
    }
}

#[test]
fn reads_every_top_level_object_with_its_name() {
    let objects = xmir::load(r#"<p><o name="a" base="Φ.number"/>text<o base="Φ.string"/><x/></p>"#)
        .expect("the fixture is well-formed");
    assert_eq!(objects.len(), 2);
    assert_eq!(objects[0].0.as_deref(), Some("a"));
    assert!(matches!(objects[0].1, Node::Num));
    assert_eq!(objects[1].0, None);
    assert!(matches!(objects[1].1, Node::Str));
}

#[test]
fn reads_where_a_dispatch_was_written() {
    let objects =
        xmir::load(r#"<p><o base=".plus" line="+12" pos="3" loc="Φ.k"><o base="Φ.number"/></o></p>"#)
            .expect("the fixture is well-formed");
    let Node::Dispatch { ref site, ref obj, .. } = objects[0].1 else {
        panic!("a dispatch did not read as a dispatch");
    };
    let at = site.at.as_ref().expect("the line was not read");
    assert_eq!((at.line, at.pos), (12, 3));
    assert!(matches!(**obj, Node::Num));
}

#[test]
fn a_dispatch_without_receiver_is_on_raw_data() {
    let objects = xmir::load(r#"<p><o base=".eq" line="x"/></p>"#).expect("well-formed");
    let Node::Dispatch { ref obj, ref site, .. } = objects[0].1 else {
        panic!("a dispatch did not read as a dispatch");
    };
    assert!(matches!(**obj, Node::Bytes));
    assert!(site.at.is_none(), "a line that is no number placed the dispatch");
}

#[test]
fn reads_the_args_of_a_callback_void() {
    let objects = xmir::load(
        r#"<p><o name="read"><o base="∅" name="cant" args="Φ.string"/><o name="λ" atom="A"/></o></p>"#,
    )
    .expect("well-formed");
    assert!(matches!(objects[0].1, Node::Atom { ref voids, .. }
        if voids.len() == 1 && voids[0].label == "cant"
            && matches!(voids[0].kind, Kind::Args(ref args) if args == "Φ.string")));
}

#[test]
fn indexes_only_top_level_objects_with_a_locator() {
    let found = locators(&texts(&[
        r#"<p><o name="a" loc="Φ.a" base="Φ.number"/><o name="b" base="Φ.number"/></p>"#,
        "not xml at all <",
        r#"<p><o name="c" loc="Φ.c"><o name="d" loc="Φ.c.d" base="Φ.string"/></o></p>"#,
    ]));
    let locs: Vec<&str> = found.iter().map(|(loc, _)| loc.as_str()).collect();
    assert_eq!(locs, vec!["Φ.a", "Φ.c"]);
}

#[test]
fn surveys_every_locator_and_every_rooted_claim() {
    let found = survey(&texts(&[
        r#"<p><o name="x" loc="Φ.x"><o name="λ" loc="Φ.x.λ" atom="Φ.posix.return"/>
           <o base="∅" name="v" loc="Φ.x.v" type="A? Φ.string"/></o></p>"#,
        "<broken",
    ]));
    assert_eq!(found.known, vec!["Φ.x", "Φ.x.λ", "Φ.x.v"]);
    let claimed: Vec<&str> = found.claimed.iter().map(|forma| forma.path.as_str()).collect();
    assert_eq!(claimed, vec!["Φ.posix.return", "Φ.string"]);
}

#[test]
fn reports_exactly_the_formas_that_name_nothing() {
    let found = survey(&texts(&[
        r#"<p><o name="string" loc="Φ.string"/>
           <o name="f" loc="Φ.f"><o name="λ" atom="Φ.string Φ.gone Φ.f"/></o></p>"#,
    ]));
    let broken: Vec<&str> = found.dangling().iter().map(|forma| forma.path.as_str()).collect();
    assert_eq!(broken, vec!["Φ.gone"]);
}

#[test]
fn nothing_dangles_when_every_forma_names_an_object() {
    let found = survey(&texts(&[
        r#"<p><o name="a" loc="Φ.a"><o name="λ" atom="Φ.a"/></o></p>"#,
    ]));
    assert!(found.dangling().is_empty());
}

#[test]
fn an_attribute_written_twice_keeps_its_place_and_takes_the_last_value() {
    let objects = xmir::load(
        r#"<p><o name="k"><o name="a" base="Φ.number"/><o name="b" base="Φ.string"/>
           <o name="a" base="Φ.bool"/></o></p>"#,
    )
    .expect("well-formed");
    let Node::Obj { ref binds, .. } = objects[0].1 else {
        panic!("a formation without voids did not read as an object");
    };
    let labels: Vec<&str> = binds.iter().map(|(label, _)| label.as_str()).collect();
    assert_eq!(labels, vec!["a", "b"]);
    assert!(matches!(binds[0].1, Node::Bool));
}

#[test]
fn an_atom_that_declares_only_a_concrete_result_decorates_its_result() {
    let objects = xmir::load(r#"<p><o name="os"><o name="λ" atom="Φ.posix.return"/></o></p>"#)
        .expect("well-formed");
    let Node::Obj { ref binds, ref name } = objects[0].1 else {
        panic!("an atom with a concrete result did not read as an object");
    };
    assert_eq!(name.as_deref(), Some("os"));
    assert_eq!(binds.len(), 1);
    assert_eq!(binds[0].0, "@");
    assert!(matches!(binds[0].1, Node::Loc(ref loc) if loc == "Φ.posix.return"));
}

#[test]
fn a_formation_with_voids_keeps_its_decoratee_apart() {
    let objects = xmir::load(
        r#"<p><o name="f"><o base="∅" name="x"/><o base="∅" name="y"/>
           <o name="helper" base="Φ.number"/><o name="φ" base="ξ.x"/></o></p>"#,
    )
    .expect("well-formed");
    let Node::Lam { ref params, ref body, ref binds, .. } = objects[0].1 else {
        panic!("a formation with voids did not read as a function");
    };
    assert_eq!(params, &vec!["x".to_owned(), "y".to_owned()]);
    assert!(matches!(body.as_deref(), Some(Node::Dispatch { label, .. }) if label == "x"));
    assert_eq!(binds.len(), 1);
    assert_eq!(binds[0].0, "helper");
}

#[test]
fn a_relative_base_walks_from_self() {
    let objects = xmir::load(r#"<p><o base="ξ.ρ.size" loc="Φ.k.s"/></p>"#).expect("well-formed");
    let Node::Dispatch { ref obj, ref label, ref site } = objects[0].1 else {
        panic!("a relative base did not read as a walk");
    };
    assert_eq!(label, "size");
    assert_eq!(site.loc.as_deref(), Some("Φ.k.s"));
    assert!(matches!(**obj, Node::Dispatch { ref label, .. } if label == "ρ"));
}
