use poltree::ast::{
    ActionConstraint, BinaryOp, Context, EntityReference, EntityType, EntityUID, EntityUIDEntry,
    Expr, Literal, PartialValue, PrincipalOrResourceConstraint, Request, UnaryOp, Value, Var,
};
use poltree::entities::{Dereference, Entities, EntitiesError, Entity};
use poltree::keyed::{
    add_all, dup_all, has_key, retain_in, retain_not_in, Keyed, ListMap,
};
use poltree::poltree::constraints::{
    action_scope_constraints, collect_attr_constraints, principal_or_resource_scope_constraints,
};
use poltree::poltree::keys::{
    context_attr_key, is_context_attr, side_scoped_attr, split_side_scoped_attr,
    SCOPE_ACTION_ATTR, SCOPE_PRINCIPAL_ATTR, SCOPE_RESOURCE_ATTR,
};
use poltree::poltree::request_values::{
    request_context_literal, request_scope_literals, request_values_for_attr,
};
use poltree::poltree::scan::{
    candidates_from_sv_map, candidates_from_type_index, entities_with_uid, scan_entities,
};
use smol_str::SmolStr;

fn s(text: &str) -> SmolStr {
    SmolStr::from(text)
}

fn uid(ty: &str, eid: &str) -> EntityUID {
    EntityUID { ty: EntityType(s(ty)), eid: s(eid) }
}

fn text(value: &str) -> Literal {
    Literal::String(s(value))
}

fn known(value: Literal) -> PartialValue {
    PartialValue::Value(Value::Lit(value))
}

fn entity(ty: &str, eid: &str, attrs: Vec<(&str, PartialValue)>) -> Entity {
    let mut e = Entity::new(uid(ty, eid));
    for (name, value) in attrs {
        e.set_attr(s(name), value);
    }
    e
}

fn store(all: Vec<Entity>) -> Entities {
    let mut es = Entities::new(false);
    for e in all {
        assert!(es.add(e).is_ok());
    }
    es
}

fn people() -> Entities {
    store(vec![
        entity("User", "alice", vec![("dept", known(text("hr"))), ("age", known(Literal::Long(30)))]),
        entity("User", "bob", vec![("dept", known(text("it"))), ("age", known(Literal::Long(30)))]),
        entity(
            "Doc",
            "d1",
            vec![
                ("dept", known(text("hr"))),
                ("tags", PartialValue::Value(Value::SetOf(vec![]))),
                ("owner", PartialValue::Residual(Expr::Unknown(s("owner")))),
            ],
        ),
    ])
}

fn at(ty: &str, eid: &str) -> EntityUIDEntry {
    EntityUIDEntry::Known { euid: uid(ty, eid) }
}

fn request(context: Option<Context>) -> Request {
    Request {
        principal: at("User", "alice"),
        action: at("Action", "view"),
        resource: at("Doc", "d1"),
        context,
    }
}

fn attr(var: Var, name: &str) -> Expr {
    Expr::GetAttr { expr: Box::new(Expr::Var(var)), attr: s(name) }
}

fn binary(op: BinaryOp, left: Expr, right: Expr) -> Expr {
    Expr::BinaryApp { op, arg1: Box::new(left), arg2: Box::new(right) }
}

fn equals(left: Expr, right: Expr) -> Expr {
    binary(BinaryOp::Eq, left, right)
}

fn and(left: Expr, right: Expr) -> Expr {
    Expr::And { left: Box::new(left), right: Box::new(right) }
}

fn lit(value: Literal) -> Expr {
    Expr::Lit(value)
}

fn collected(expr: &Expr) -> (bool, Vec<(SmolStr, Literal)>) {
    let mut constraints = vec![];
    let captured = collect_attr_constraints(expr, &mut constraints);
    (captured, constraints)
}

#[test]
fn keys_of_attributes() {
    assert_eq!(side_scoped_attr(true, &s("clearance")), s("__principal_attr_clearance"));
    assert_eq!(side_scoped_attr(false, &s("clearance")), s("__resource_attr_clearance"));
    assert_eq!(context_attr_key(&s("clearance")), s("__context_clearance"));
    assert!(is_context_attr(&s("__context_")));
    assert!(!is_context_attr(&s("context_x")));
    assert!(!is_context_attr(&s("__context")));
}

#[test]
fn keys_split_into_side_and_name() {
    assert_eq!(split_side_scoped_attr("__principal_attr_dept"), Some((true, "dept")));
    assert_eq!(split_side_scoped_attr("__resource_attr_"), Some((false, "")));
    assert_eq!(split_side_scoped_attr("dept"), None);
    assert_eq!(split_side_scoped_attr("__context_dept"), None);
    assert_eq!(split_side_scoped_attr(SCOPE_PRINCIPAL_ATTR), None);
}

#[test]
fn keys_round_trip() {
    for name in ["", "dept", "__resource_attr_x", "__context_y", "naïve ✓"] {
        for is_principal in [true, false] {
            let key = side_scoped_attr(is_principal, &s(name));
            assert_eq!(split_side_scoped_attr(key.as_str()), Some((is_principal, name)));
            assert!(!is_context_attr(&key));
        }
    }
}

#[test]
fn lists_as_sets() {
    let ab = vec![s("a"), s("b"), s("a")];
    assert!(has_key(&ab, &s("b")));
    assert!(!has_key(&ab, &s("c")));
    assert_eq!(retain_in(&ab, &[s("a"), s("z")]), vec![s("a"), s("a")]);
    assert_eq!(retain_not_in(&ab, &[s("a")]), vec![s("b")]);
    assert_eq!(dup_all(&ab), ab);
    let mut acc = vec![s("b")];
    add_all(&mut acc, &ab);
    assert_eq!(acc, vec![s("b"), s("a")]);
}

#[test]
fn lists_as_maps() {
    let mut m: ListMap<(SmolStr, Literal), SmolStr> = ListMap::new();
    let k = (s("a"), Literal::Bool(true));
    assert!(m.get(&k).is_none());
    m.push(k.dup(), s("x"));
    m.push(k.dup(), s("x"));
    m.add(k.dup(), s("x"));
    m.add(k.dup(), s("y"));
    assert_eq!(m.get(&k), Some(&vec![s("x"), s("x"), s("y")]));
    assert!(m.get(&(s("a"), Literal::Bool(false))).is_none());
    m.put(k.dup(), vec![]);
    assert_eq!(m.get(&k), Some(&vec![]));
    m.put((s("b"), Literal::Long(-1)), vec![s("z")]);
    assert_eq!(m.entries.len(), 2);
}

#[test]
fn literals_are_compared_by_kind_and_value() {
    assert!(text("1").same(&text("1")));
    assert!(!text("1").same(&Literal::Long(1)));
    assert!(!Literal::Bool(true).same(&Literal::Long(1)));
    assert!(Literal::EntityUID(uid("A", "x")).same(&Literal::EntityUID(uid("A", "x"))));
    assert!(!Literal::EntityUID(uid("A", "x")).same(&Literal::EntityUID(uid("B", "x"))));
}

#[test]
fn store_rejects_duplicates() {
    let mut es = people();
    let err = es.add(Entity::new(uid("User", "alice")));
    assert_eq!(err, Err(EntitiesError::Duplicate { euid: uid("User", "alice") }));
    assert_eq!(es.entities.len(), 3);
}

#[test]
fn store_lookup() {
    let es = people();
    assert!(matches!(es.entity(&uid("User", "bob")), Dereference::Data(e) if e.uid.eid == "bob"));
    assert!(matches!(es.entity(&uid("User", "eve")), Dereference::NoSuchEntity));
    let partial = Entities::new(true);
    assert!(matches!(partial.entity(&uid("User", "eve")), Dereference::Residual));
}

#[test]
fn later_attribute_replaces_earlier() {
    let e = entity("User", "x", vec![("a", known(text("1"))), ("a", known(text("2")))]);
    assert_eq!(e.attrs.len(), 1);
    assert!(matches!(e.get(&s("a")), Some(PartialValue::Value(Value::Lit(Literal::String(v)))) if v == "2"));
    assert!(e.get(&s("b")).is_none());
}

#[test]
fn scan_lists_scalars_and_types() {
    let scan = scan_entities(&people());
    assert_eq!(scan.attr_values.get(&s("dept")), Some(&vec![text("hr"), text("it")]));
    assert_eq!(scan.attr_values.get(&s("age")), Some(&vec![Literal::Long(30)]));
    assert!(scan.attr_values.get(&s("tags")).is_none());
    assert!(scan.attr_values.get(&s("owner")).is_none());
    assert_eq!(
        scan.sv_map.get(&(s("dept"), text("hr"))),
        Some(&vec![uid("User", "alice"), uid("Doc", "d1")])
    );
    assert_eq!(
        scan.type_index.get(&EntityType(s("User"))),
        Some(&vec![uid("User", "alice"), uid("User", "bob")])
    );
}

#[test]
fn candidates() {
    let es = people();
    let scan = scan_entities(&es);
    assert_eq!(
        candidates_from_sv_map(&scan.sv_map, &s("age"), &Literal::Long(30)),
        vec![uid("User", "alice"), uid("User", "bob")]
    );
    assert_eq!(candidates_from_sv_map(&scan.sv_map, &s("age"), &text("30")), vec![]);
    assert_eq!(
        candidates_from_type_index(&scan.type_index, &EntityType(s("Doc"))),
        vec![uid("Doc", "d1")]
    );
    assert_eq!(candidates_from_type_index(&scan.type_index, &EntityType(s("Album"))), vec![]);
    assert_eq!(entities_with_uid(&es, &uid("Doc", "d1")), vec![uid("Doc", "d1")]);
    assert_eq!(entities_with_uid(&es, &uid("Doc", "d2")), vec![]);
}

#[test]
fn scope_values_of_request() {
    let r = request(None);
    assert_eq!(
        request_scope_literals(&r, &s(SCOPE_PRINCIPAL_ATTR)),
        vec![Literal::EntityUID(uid("User", "alice")), text("User")]
    );
    assert_eq!(
        request_scope_literals(&r, &s(SCOPE_RESOURCE_ATTR)),
        vec![Literal::EntityUID(uid("Doc", "d1")), text("Doc")]
    );
    assert_eq!(
        request_scope_literals(&r, &s(SCOPE_ACTION_ATTR)),
        vec![Literal::EntityUID(uid("Action", "view"))]
    );
    assert_eq!(request_scope_literals(&r, &s("dept")), vec![]);
}

#[test]
fn unknown_entities_give_no_values() {
    let unknown = || EntityUIDEntry::Unknown { ty: Some(EntityType(s("User"))) };
    let r = Request { principal: unknown(), action: unknown(), resource: unknown(), context: None };
    for key in [
        SCOPE_PRINCIPAL_ATTR,
        SCOPE_RESOURCE_ATTR,
        SCOPE_ACTION_ATTR,
        "__principal_attr_dept",
        "__context_dept",
    ] {
        assert_eq!(request_values_for_attr(&r, &people(), &s(key)), vec![]);
    }
}

#[test]
fn context_values_of_request() {
    let context = || {
        Context::Value(vec![
            (s("mfa"), Value::Lit(Literal::Bool(true))),
            (s("ips"), Value::SetOf(vec![])),
        ])
    };
    let r = request(Some(context()));
    assert_eq!(request_context_literal(&r, &s("__context_mfa")), Some(Literal::Bool(true)));
    assert_eq!(request_context_literal(&r, &s("__context_ips")), None);
    assert_eq!(request_context_literal(&r, &s("__context_none")), None);
    assert_eq!(request_context_literal(&r, &s("mfa")), None);
    assert_eq!(request_context_literal(&request(None), &s("__context_mfa")), None);
    let residual = request(Some(Context::RestrictedResidual(Expr::Unknown(s("c")))));
    assert_eq!(request_context_literal(&residual, &s("__context_mfa")), None);
    assert_eq!(
        request_values_for_attr(&r, &people(), &s("__context_mfa")),
        vec![Literal::Bool(true)]
    );
}

#[test]
fn attribute_values_of_request() {
    let es = people();
    let r = request(None);
    assert_eq!(request_values_for_attr(&r, &es, &s("__principal_attr_age")), vec![Literal::Long(30)]);
    assert_eq!(request_values_for_attr(&r, &es, &s("__resource_attr_dept")), vec![text("hr")]);
    assert_eq!(request_values_for_attr(&r, &es, &s("__resource_attr_age")), vec![]);
    assert_eq!(request_values_for_attr(&r, &es, &s("__resource_attr_tags")), vec![]);
    assert_eq!(request_values_for_attr(&r, &es, &s("__resource_attr_owner")), vec![]);
    assert_eq!(request_values_for_attr(&r, &es, &s("dept")), vec![]);
    assert_eq!(
        request_values_for_attr(&r, &Entities::new(false), &s("__principal_attr_age")),
        vec![]
    );
}

#[test]
fn scope_constraints_of_principal() {
    let es = people();
    let types = scan_entities(&es).type_index;
    let of = |c: PrincipalOrResourceConstraint| {
        let (cs, captured) =
            principal_or_resource_scope_constraints(&es, &types, SCOPE_PRINCIPAL_ATTR, &c);
        let cs: Vec<_> = cs.into_iter().map(|c| (c.attr, c.value, c.candidates)).collect();
        (cs, captured)
    };
    assert_eq!(of(PrincipalOrResourceConstraint::Any), (vec![], true));
    assert_eq!(
        of(PrincipalOrResourceConstraint::Eq(EntityReference::EUID(uid("User", "bob")))),
        (
            vec![(
                s(SCOPE_PRINCIPAL_ATTR),
                Literal::EntityUID(uid("User", "bob")),
                vec![uid("User", "bob")]
            )],
            true
        )
    );
    assert_eq!(
        of(PrincipalOrResourceConstraint::Is(EntityType(s("User")))),
        (
            vec![(
                s(SCOPE_PRINCIPAL_ATTR),
                text("User"),
                vec![uid("User", "alice"), uid("User", "bob")]
            )],
            true
        )
    );
    let slot = || EntityReference::Slot(poltree::ast::SlotId::Principal);
    let group = || EntityReference::EUID(uid("Group", "g"));
    for c in [
        PrincipalOrResourceConstraint::In(group()),
        PrincipalOrResourceConstraint::IsIn(EntityType(s("User")), group()),
        PrincipalOrResourceConstraint::Eq(slot()),
        PrincipalOrResourceConstraint::In(slot()),
        PrincipalOrResourceConstraint::IsIn(EntityType(s("User")), slot()),
    ] {
        assert_eq!(of(c), (vec![], false));
    }
}

#[test]
fn scope_constraints_of_action() {
    let es = people();
    let of = |c: ActionConstraint| {
        let (cs, captured) = action_scope_constraints(&es, &c);
        let cs: Vec<_> = cs.into_iter().map(|c| (c.attr, c.value, c.candidates)).collect();
        (cs, captured)
    };
    assert_eq!(of(ActionConstraint::Any), (vec![], true));
    assert_eq!(
        of(ActionConstraint::Eq(uid("Action", "view"))),
        (
            vec![(s(SCOPE_ACTION_ATTR), Literal::EntityUID(uid("Action", "view")), vec![])],
            true
        )
    );
    assert_eq!(of(ActionConstraint::In(vec![uid("Action", "view")])), (vec![], false));
    assert_eq!(of(ActionConstraint::ErrorConstraint), (vec![], false));
}

#[test]
fn equations_are_collected_in_either_order() {
    let e = and(
        equals(attr(Var::Principal, "dept"), lit(text("hr"))),
        and(
            equals(lit(Literal::Long(3)), attr(Var::Resource, "level")),
            equals(attr(Var::Context, "mfa"), lit(Literal::Bool(true))),
        ),
    );
    assert_eq!(
        collected(&e),
        (
            true,
            vec![
                (s("__principal_attr_dept"), text("hr")),
                (s("__resource_attr_level"), Literal::Long(3)),
                (s("__context_mfa"), Literal::Bool(true)),
            ]
        )
    );
}

#[test]
fn other_conditions_are_not_captured() {
    let eq = || equals(attr(Var::Principal, "dept"), lit(text("hr")));
    for e in [
        equals(attr(Var::Principal, "dept"), attr(Var::Resource, "dept")),
        equals(attr(Var::Action, "dept"), lit(text("hr"))),
        equals(lit(text("hr")), attr(Var::Action, "dept")),
        equals(lit(text("hr")), lit(text("hr"))),
        binary(BinaryOp::Less, attr(Var::Principal, "age"), lit(Literal::Long(3))),
        Expr::UnaryApp { op: UnaryOp::Not, arg: Box::new(eq()) },
        Expr::Or { left: Box::new(eq()), right: Box::new(eq()) },
        Expr::HasAttr { expr: Box::new(Expr::Var(Var::Principal)), attr: s("dept") },
        Expr::Lit(Literal::Bool(true)),
    ] {
        assert_eq!(collected(&e), (false, vec![]));
    }
}

#[test]
fn partly_captured_condition_keeps_its_equations() {
    let e = and(
        Expr::Lit(Literal::Bool(true)),
        equals(attr(Var::Principal, "dept"), lit(text("hr"))),
    );
    assert_eq!(collected(&e), (false, vec![(s("__principal_attr_dept"), text("hr"))]));
}
