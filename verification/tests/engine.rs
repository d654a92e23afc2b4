//! The engine around the walker: forgiveness, locator resolution, and the
//! solver's first steps.

use eoti::infer::{Engine, Env};
use eoti::resolve::Locs;
use eoti::solver::{Clash, Solver};
use eoti::types::{Type, Types};
use eoti::xmir::{self, Node};

fn name(what: &str) -> Node {
    Node::Name(what.to_owned())
}

fn hits(engine: &Engine, what: &str) -> usize {
    engine
        .leniency
        .unmodelled
        .iter()
        .filter(|(name, _)| name == what)
        .map(|(_, count)| *count)
        .sum()
}

#[test]
fn a_strict_engine_refuses_a_name_that_is_nowhere() {
    let mut engine = Engine::strict();
    match engine.infer(&name("nowhere"), &Env::new()) {
        Err(Clash::Unbound { name }) => assert_eq!(name, "nowhere"),
        other => panic!("an unknown name was not refused: {other:?}"),
    }
}

#[test]
fn a_lenient_engine_takes_an_unknown_name_as_anything_and_counts_it() {
    let mut engine = Engine::lenient(false);
    assert!(engine.infer(&name("malloc"), &Env::new()).is_ok());
    assert!(engine.infer(&name("malloc"), &Env::new()).is_ok());
    assert!(engine.infer(&name("posix"), &Env::new()).is_ok());
    assert_eq!(hits(&engine, "malloc"), 2);
    assert_eq!(hits(&engine, "posix"), 1);
}

#[test]
fn a_built_in_name_is_known_and_not_counted() {
    let mut engine = Engine::lenient(false);
    for builtin in ["number", "string", "bool", "bytes", "stdout", "recovered", "dataized"] {
        assert!(engine.infer(&name(builtin), &Env::new()).is_ok(), "{builtin} is unknown");
    }
    assert!(engine.leniency.unmodelled.is_empty());
}

#[test]
fn a_name_in_scope_stands_for_what_the_scope_says() {
    let mut engine = Engine::strict();
    let number = engine.infer(&Node::Num, &Env::new()).expect("a number types");
    let env: Env = vec![("x".to_owned(), number)];
    assert_eq!(engine.infer(&name("x"), &env).expect("x is in scope"), number);
}

#[test]
fn marking_a_value_makes_it_maybe_bottom() {
    let mut engine = Engine::strict();
    let ty = engine
        .infer(&Node::Maybe(Box::new(Node::Num)), &Env::new())
        .expect("a maybe number types");
    assert!(matches!(engine.types.at(ty), Type::Opt(_)));
}

#[test]
fn only_running_out_of_budget_lets_a_build_through() {
    assert!(!Clash::Exhausted.gates());
    assert!(Clash::Unbound { name: "x".to_owned() }.gates());
}

#[test]
fn the_last_object_learned_for_a_locator_wins() {
    let mut locs = Locs::new();
    locs.learn(vec![
        ("Φ.a".to_owned(), Node::Num),
        ("Φ.b".to_owned(), Node::Str),
        ("Φ.a".to_owned(), Node::Bool),
    ]);
    assert_eq!(locs.len(), 2);
    assert!(!locs.is_empty());
    let (top, path) = locs.ancestor("Φ.a").expect("Φ.a is known");
    assert!(matches!(*top, Node::Bool));
    assert!(path.is_empty(), "a known locator is its own ancestor");
}

#[test]
fn a_nested_locator_goes_through_its_longest_known_ancestor() {
    let mut locs = Locs::new();
    locs.learn(vec![
        ("Φ.posix".to_owned(), Node::Num),
        ("Φ.posix.return".to_owned(), Node::Str),
    ]);
    let (top, path) = locs.ancestor("Φ.posix.return.code").expect("an ancestor is known");
    assert!(matches!(*top, Node::Str));
    assert_eq!(path, vec!["code"]);
    let (top, path) = locs.ancestor("Φ.posix.other.x").expect("an ancestor is known");
    assert!(matches!(*top, Node::Num));
    assert_eq!(path, vec!["other", "x"]);
    assert!(locs.ancestor("Φ.posixes").is_none(), "a prefix must end at a dot");
    assert!(Locs::new().is_empty());
}

#[test]
fn a_resolution_is_remembered() {
    let xml = r#"<p><o name="a" loc="Φ.a"><o name="size" base="Φ.number"/></o></p>"#;
    let mut engine = Engine::lenient(false);
    engine.locs.learn(xmir::locators(&vec![xml.to_owned()]));
    let first = engine.resolve("Φ.a.size");
    assert!(first.is_some(), "a known attribute did not resolve");
    let remembered = engine.locs.resolved.len();
    assert!(remembered >= 1);
    let second = engine.resolve("Φ.a.size");
    assert!(second.is_some());
    assert_eq!(engine.locs.resolved.len(), remembered, "a resolution was made twice");
}

#[test]
fn a_locator_with_no_known_ancestor_resolves_to_nothing() {
    let mut engine = Engine::lenient(false);
    assert!(engine.resolve("Φ.gone").is_none());
    assert!(engine.locs.resolved.is_empty());
}

#[test]
fn a_type_is_usable_as_itself() {
    let mut types = Types::new();
    let mut solver = Solver::new(false);
    let shape = types.rec(Vec::new());
    let ty = types.node(Type::Rec(shape));
    assert!(solver.constrain(&mut types, ty, ty).is_ok());
}

#[test]
fn a_maybe_bottom_value_is_refused_where_a_shape_is_wanted() {
    let mut types = Types::new();
    let mut solver = Solver::new(false);
    let shape = types.rec(Vec::new());
    let ty = types.node(Type::Rec(shape));
    let maybe = types.opt(ty);
    match solver.constrain(&mut types, maybe, ty) {
        Err(Clash::NotRecovered { value }) => assert_eq!(value, maybe),
        other => panic!("a maybe-bottom value was not refused: {other:?}"),
    }
}

#[test]
fn an_unknown_takes_what_it_must_be_usable_as_as_an_upper_bound() {
    let mut types = Types::new();
    let mut solver = Solver::new(false);
    let unknown = types.var(solver.level());
    let var = types.node(Type::Var(unknown));
    let shape = types.rec(Vec::new());
    let rec = types.node(Type::Rec(shape));
    assert!(solver.constrain(&mut types, var, rec).is_ok());
    assert!(types.upper(unknown).contains(&rec));
}

#[test]
fn a_record_with_every_required_attribute_is_usable_as_the_requirement() {
    let mut types = Types::new();
    let mut solver = Solver::new(false);
    let unknown = types_var(&mut types);
    let number = types.node(Type::Var(unknown));
    let have = types.rec(Vec::new());
    types.bind(have, "plus", number);
    types.bind(have, "minus", number);
    let want = types.rec(Vec::new());
    types.bind(want, "plus", number);
    let lhs = types.node(Type::Rec(have));
    let rhs = types.node(Type::Rec(want));
    assert!(solver.constrain(&mut types, lhs, rhs).is_ok());
}

#[test]
fn a_record_lacking_a_required_attribute_is_refused() {
    let mut types = Types::new();
    let mut solver = Solver::new(false);
    let unknown = types_var(&mut types);
    let number = types.node(Type::Var(unknown));
    let have = types.rec(Vec::new());
    types.bind(have, "length", number);
    let want = types.rec(Vec::new());
    types.bind(want, "plus", number);
    let lhs = types.node(Type::Rec(have));
    let rhs = types.node(Type::Rec(want));
    match solver.constrain(&mut types, lhs, rhs) {
        Err(Clash::UnknownAttribute { attribute, receiver, .. }) => {
            assert_eq!(attribute, "plus");
            assert_eq!(receiver, lhs);
        }
        other => panic!("a missing attribute was not refused: {other:?}"),
    }
}

#[test]
fn a_record_with_nothing_left_to_fill_cannot_be_applied() {
    let mut types = Types::new();
    let mut solver = Solver::new(false);
    let shape = types.rec(Vec::new());
    let lhs = types.node(Type::Rec(shape));
    let unknown = types_var(&mut types);
    let arg = types.node(Type::Var(unknown));
    let fun = types.fun(arg, arg);
    match solver.constrain(&mut types, lhs, fun) {
        Err(Clash::NotApplicable { receiver }) => assert_eq!(receiver, lhs),
        other => panic!("applying a closed record was not refused: {other:?}"),
    }
}

fn types_var(types: &mut Types) -> eoti::types::VarId {
    types.var(eoti::types::Level(0))
}

fn dispatch(obj: Node, label: &str) -> Node {
    Node::Dispatch {
        obj: Box::new(obj),
        label: label.to_owned(),
        site: eoti::types::Site::default(),
    }
}

fn apply(fun: Node, arg: Node) -> Node {
    Node::Apply {
        fun: Box::new(fun),
        arg: Box::new(arg),
    }
}

#[test]
fn adding_to_a_string_is_refused_for_want_of_plus() {
    let mut engine = Engine::strict();
    match engine.infer(&apply(dispatch(Node::Str, "plus"), Node::Num), &Env::new()) {
        Err(Clash::UnknownAttribute { attribute, .. }) => assert_eq!(attribute, "plus"),
        other => panic!("\"hi\".plus 1 was not refused: {other:?}"),
    }
}

#[test]
fn adding_to_a_number_types() {
    let mut engine = Engine::strict();
    assert!(engine
        .infer(&apply(dispatch(Node::Num, "plus"), Node::Num), &Env::new())
        .is_ok());
}

#[test]
fn optional_chaining_keeps_a_value_maybe_bottom() {
    let mut engine = Engine::strict();
    let node = Node::Fragile {
        obj: Box::new(Node::Maybe(Box::new(Node::Num))),
        label: "plus".to_owned(),
        site: eoti::types::Site::default(),
    };
    let ty = engine.infer(&node, &Env::new()).expect("?. on a maybe number types");
    assert!(matches!(engine.types.at(ty), Type::Opt(_)));
}

#[test]
fn a_formation_lives_one_level_in() {
    let mut engine = Engine::strict();
    let node = Node::Obj {
        name: Some("k".to_owned()),
        binds: vec![("@".to_owned(), Node::Num)],
    };
    let ty = engine.infer(&node, &Env::new()).expect("a plain object types");
    let Type::Var(unknown) = engine.types.at(ty) else {
        panic!("a formation did not type as its recursion unknown");
    };
    assert_eq!(engine.types.level(unknown).0, engine.solver.level().0 + 1);
}

#[test]
fn a_formation_is_a_record_of_its_voids_attributes_and_decoratee() {
    let mut engine = Engine::strict();
    let node = Node::Lam {
        name: Some("f".to_owned()),
        params: vec!["x".to_owned()],
        body: Some(Box::new(name("x"))),
        binds: vec![("h".to_owned(), Node::Num)],
    };
    let ty = engine.infer(&node, &Env::new()).expect("the formation types");
    let Type::Var(unknown) = engine.types.at(ty) else {
        panic!("a formation did not type as its recursion unknown");
    };
    let shape = engine.types.knot(unknown).expect("the unknown is tied to its record");
    assert_eq!(engine.types.voids(shape), &vec!["x".to_owned()]);
    for label in ["x", "h", "@"] {
        assert!(engine.types.field(shape, label).is_some(), "no attribute {label}");
    }
}

#[test]
fn an_atom_is_a_record_of_its_declared_voids_and_result() {
    let mut engine = Engine::strict();
    let node = Node::Atom {
        voids: vec![
            xmir::Void { label: "value".to_owned(), kind: xmir::Kind::Own("A?".to_owned()) },
            xmir::Void { label: "alternative".to_owned(), kind: xmir::Kind::Own("A".to_owned()) },
        ],
        ret: Some("A".to_owned()),
    };
    let ty = engine.infer(&node, &Env::new()).expect("an atom types");
    let Type::Rec(shape) = engine.types.at(ty) else {
        panic!("an atom did not type as a record");
    };
    assert_eq!(engine.types.voids(shape), &vec!["value".to_owned(), "alternative".to_owned()]);
    let value = engine.types.field(shape, "value").expect("value is an attribute");
    let alternative = engine.types.field(shape, "alternative").expect("alternative is an attribute");
    let result = engine.types.field(shape, "@").expect("the result is the decoratee");
    assert_eq!(engine.types.at(value), Type::Opt(alternative), "A? and A are not one A");
    assert_eq!(result, alternative, "the result A is not the A of the voids");
}

#[test]
fn a_plain_dispatch_on_a_name_bound_to_a_maybe_bottom_value_is_refused() {
    let mut engine = Engine::strict();
    let unknown = types_var(&mut engine.types);
    let inner = engine.types.node(Type::Var(unknown));
    let maybe = engine.types.opt(inner);
    let env: Env = vec![("x".to_owned(), maybe)];
    match engine.infer(&dispatch(name("x"), "plus"), &env) {
        Err(Clash::NotRecovered { value }) => assert_eq!(value, maybe),
        other => panic!("a plain dispatch on a maybe-bottom name was not refused: {other:?}"),
    }
}

#[test]
fn an_unbound_argument_refuses_the_whole_application() {
    let mut engine = Engine::strict();
    let node = apply(dispatch(Node::Num, "plus"), name("nowhere"));
    match engine.infer(&node, &Env::new()) {
        Err(Clash::Unbound { name }) => assert_eq!(name, "nowhere"),
        other => panic!("an unbound argument did not refuse the application: {other:?}"),
    }
}

#[test]
fn dispatching_what_a_known_record_lacks_is_refused() {
    let mut engine = Engine::strict();
    let unknown = types_var(&mut engine.types);
    let number = engine.types.node(Type::Var(unknown));
    let have = engine.types.rec(Vec::new());
    engine.types.bind(have, "length", number);
    let record = engine.types.node(Type::Rec(have));
    let env: Env = vec![("r".to_owned(), record)];
    assert!(
        engine.infer(&dispatch(name("r"), "plus"), &env).is_err(),
        "dispatching an attribute a record lacks was not refused"
    );
}

#[test]
fn applying_a_record_that_takes_nothing_is_refused() {
    let mut engine = Engine::strict();
    let shape = engine.types.rec(Vec::new());
    let record = engine.types.node(Type::Rec(shape));
    let env: Env = vec![("r".to_owned(), record)];
    match engine.infer(&apply(name("r"), Node::Num), &env) {
        Err(Clash::NotApplicable { receiver }) => assert_eq!(receiver, record),
        other => panic!("applying a closed record was not refused: {other:?}"),
    }
}

#[test]
fn a_function_wants_its_argument_the_other_way_round() {
    let mut types = Types::new();
    let mut solver = Solver::new(false);
    let unknown = types_var(&mut types);
    let number = types.node(Type::Var(unknown));
    let wide = types.rec(Vec::new());
    types.bind(wide, "length", number);
    types.bind(wide, "plus", number);
    let narrow = types.rec(Vec::new());
    types.bind(narrow, "length", number);
    let wide_ty = types.node(Type::Rec(wide));
    let narrow_ty = types.node(Type::Rec(narrow));
    let takes_wide = types.fun(wide_ty, number);
    let takes_narrow = types.fun(narrow_ty, number);
    assert!(
        solver.constrain(&mut types, takes_narrow, takes_wide).is_ok(),
        "a function taking less was not usable where one taking more is wanted"
    );
    let mut solver = Solver::new(false);
    assert!(
        solver.constrain(&mut types, takes_wide, takes_narrow).is_err(),
        "a function taking more was usable where one taking less is wanted"
    );
}

#[test]
fn a_value_is_usable_as_a_maybe_bottom_of_itself() {
    let mut types = Types::new();
    let mut solver = Solver::new(false);
    let shape = types.rec(Vec::new());
    let record = types.node(Type::Rec(shape));
    let maybe = types.opt(record);
    assert!(
        solver.constrain(&mut types, record, maybe).is_ok(),
        "a value was not usable as a maybe-bottom of itself"
    );
}

#[test]
fn a_strict_engine_refuses_an_unknown_locator_by_its_whole_name() {
    let mut engine = Engine::strict();
    match engine.infer(&Node::Loc("Φ.nosuch.thing".to_owned()), &Env::new()) {
        Err(Clash::Unbound { name }) => assert_eq!(name, "Φ.nosuch.thing"),
        other => panic!("an unknown locator was not refused by its whole name: {other:?}"),
    }
    assert!(
        engine.infer(&Node::Loc("Φ.number".to_owned()), &Env::new()).is_ok(),
        "a locator ending in a built-in was not known"
    );
}

#[test]
fn a_lenient_engine_counts_an_unknown_locator() {
    let mut engine = Engine::lenient(false);
    assert!(engine.infer(&Node::Loc("Φ.nosuch.thing".to_owned()), &Env::new()).is_ok());
    assert_eq!(hits(&engine, "Φ.nosuch.thing"), 1, "the unknown locator was not counted once");
}

#[test]
fn a_demand_on_an_unbounded_unknown_is_recorded() {
    let mut engine = Engine::strict();
    let unknown = types_var(&mut engine.types);
    let param = engine.types.node(Type::Var(unknown));
    let env: Env = vec![("a".to_owned(), param)];
    assert!(
        engine.infer(&dispatch(name("a"), "x"), &env).is_ok(),
        "a demand on a parameter was checked instead of recorded"
    );
    assert!(
        engine.infer(&apply(name("a"), name("a")), &env).is_ok(),
        "applying a parameter was checked instead of recorded"
    );
}

#[test]
fn learning_leaves_one_entry_per_locator() {
    let mut locs = Locs::new();
    locs.learn(vec![
        ("Φ.a".to_owned(), Node::Num),
        ("Φ.b".to_owned(), Node::Str),
        ("Φ.a".to_owned(), Node::Bool),
    ]);
    assert_eq!(locs.toplevel.len(), 2, "a locator found twice was listed twice");
}

#[test]
fn a_formation_that_only_demands_of_its_parameters_is_accepted() {
    let mut engine = Engine::strict();
    let node = Node::Lam {
        name: Some("main".to_owned()),
        params: vec!["a".to_owned(), "b".to_owned()],
        body: Some(Box::new(apply(name("a"), name("b")))),
        binds: Vec::new(),
    };
    assert!(engine.infer(&node, &Env::new()).is_ok(), "a formation applying one parameter to another was refused");
    let mut engine = Engine::strict();
    let node = Node::Lam {
        name: Some("main".to_owned()),
        params: vec!["a".to_owned()],
        body: Some(Box::new(dispatch(name("a"), "x"))),
        binds: Vec::new(),
    };
    assert!(engine.infer(&node, &Env::new()).is_ok(), "a demand on a parameter was not left open");
}

#[test]
fn an_object_with_nothing_in_it_is_accepted() {
    let mut engine = Engine::strict();
    let node = Node::Obj { name: Some("empty".to_owned()), binds: Vec::new() };
    assert!(engine.infer(&node, &Env::new()).is_ok(), "an empty object was refused");
}

#[test]
fn recovering_a_maybe_bottom_unknown_is_accepted_and_no_longer_maybe() {
    let mut engine = Engine::strict();
    let held = types_var(&mut engine.types);
    let inner = engine.types.node(Type::Var(held));
    let maybe = engine.types.opt(inner);
    let other = types_var(&mut engine.types);
    let alt = engine.types.node(Type::Var(other));
    let env: Env = vec![("x".to_owned(), maybe), ("y".to_owned(), alt)];
    let node = Node::Recovered {
        value: Box::new(name("x")),
        alt: Box::new(name("y")),
    };
    let ty = engine.infer(&node, &env).expect("recovering a maybe-bottom value was refused");
    assert!(
        !matches!(engine.types.at(ty), Type::Opt(_)),
        "the recovered value is still maybe-bottom"
    );
}

#[test]
fn optional_chaining_on_a_maybe_bottom_unknown_is_accepted_and_stays_maybe() {
    let mut engine = Engine::strict();
    let held = types_var(&mut engine.types);
    let inner = engine.types.node(Type::Var(held));
    let env: Env = vec![("x".to_owned(), inner)];
    let node = Node::Fragile {
        obj: Box::new(Node::Maybe(Box::new(name("x")))),
        label: "plus".to_owned(),
        site: eoti::types::Site::default(),
    };
    let ty = engine.infer(&node, &env).expect("optional chaining was refused");
    assert!(matches!(engine.types.at(ty), Type::Opt(_)), "the chain is no longer maybe-bottom");
}

#[test]
fn a_locator_naming_an_empty_object_resolves() {
    let mut engine = Engine::strict();
    engine.locs.learn(vec![(
        "Φ.box".to_owned(),
        Node::Obj { name: Some("box".to_owned()), binds: Vec::new() },
    )]);
    assert!(engine.resolve("Φ.box").is_some(), "a locator naming an empty object did not resolve");
    let mut engine = Engine::strict();
    engine.locs.learn(vec![(
        "Φ.box".to_owned(),
        Node::Obj { name: Some("box".to_owned()), binds: Vec::new() },
    )]);
    assert!(
        engine.infer(&Node::Loc("Φ.box".to_owned()), &Env::new()).is_ok(),
        "a forma naming an empty object was refused"
    );
}
