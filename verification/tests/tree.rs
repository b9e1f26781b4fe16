use poltree::ast::{
    ActionConstraint, BinaryOp, Context, Effect, EntityReference, EntityType, EntityUID,
    EntityUIDEntry, Expr, Literal, PartialValue, Policy, PolicyID, PolicySet, PolicySetError,
    PrincipalOrResourceConstraint, Request, Template, Value, Var,
};
use poltree::authorizer::Decision;
use poltree::entities::{Dereference, Entities, Entity};
use poltree::keyed::ListMap;
use poltree::poltree::choice::{attr_value_counts, best_attribute};
use poltree::poltree::index::PolTreeIndex;
use poltree::poltree::residual::{
    build_residual_policy_set, build_residual_policy_set_from_ids, policy_is_fully_indexed,
    residual_policy_ids,
};
use poltree::poltree::tree::{PolTree, PolTreeNode};
use smol_str::SmolStr;
use std::sync::Arc;

fn s(text: &str) -> SmolStr {
    SmolStr::from(text)
}

fn uid(ty: &str, eid: &str) -> EntityUID {
    EntityUID { ty: EntityType(s(ty)), eid: s(eid) }
}

fn pid(id: &str) -> PolicyID {
    PolicyID(s(id))
}

fn text(value: &str) -> Literal {
    Literal::String(s(value))
}

fn entity(ty: &str, eid: &str, attrs: &[(&str, Literal)]) -> Entity {
    let mut e = Entity::new(uid(ty, eid));
    for (name, value) in attrs {
        e.set_attr(s(name), PartialValue::Value(Value::Lit(value.clone())));
    }
    e
}

fn store(all: Vec<Entity>) -> Arc<Entities> {
    let mut es = Entities::new(false);
    for e in all {
        assert!(es.add(e).is_ok());
    }
    Arc::new(es)
}

fn any() -> Template {
    Template {
        effect: Effect::Permit,
        principal_constraint: PrincipalOrResourceConstraint::Any,
        action_constraint: ActionConstraint::Any,
        resource_constraint: PrincipalOrResourceConstraint::Any,
        non_scope_constraints: None,
    }
}

fn is(ty: &str) -> PrincipalOrResourceConstraint {
    PrincipalOrResourceConstraint::Is(EntityType(s(ty)))
}

fn the(ty: &str, eid: &str) -> PrincipalOrResourceConstraint {
    PrincipalOrResourceConstraint::Eq(EntityReference::EUID(uid(ty, eid)))
}

fn equals(var: Var, name: &str, value: Literal) -> Expr {
    Expr::BinaryApp {
        op: BinaryOp::Eq,
        arg1: Box::new(Expr::GetAttr { expr: Box::new(Expr::Var(var)), attr: s(name) }),
        arg2: Box::new(Expr::Lit(value)),
    }
}

fn and(left: Expr, right: Expr) -> Expr {
    Expr::And { left: Box::new(left), right: Box::new(right) }
}

fn when(condition: Expr) -> Template {
    Template { non_scope_constraints: Some(condition), ..any() }
}

fn policies(all: Vec<(&str, Template)>) -> PolicySet {
    let mut set = PolicySet::new();
    for (id, template) in all {
        let policy = Policy { id: pid(id), template: Arc::new(template) };
        assert!(set.add(policy).is_ok());
    }
    set
}

fn request(principal: (&str, &str), action: &str, resource: (&str, &str)) -> Request {
    let at = |ty: &str, eid: &str| EntityUIDEntry::Known { euid: uid(ty, eid) };
    Request {
        principal: at(principal.0, principal.1),
        action: at("Action", action),
        resource: at(resource.0, resource.1),
        context: None,
    }
}

/// The entropy of the values, in bits, ordered as its bits are.
fn entropy(counts: &Vec<usize>, total: usize) -> u64 {
    if total == 0 {
        return 0;
    }
    let h: f64 = counts
        .iter()
        .filter(|n| **n > 0)
        .map(|n| {
            let p = *n as f64 / total as f64;
            -p * p.log2()
        })
        .sum();
    if h.is_finite() && h > 0.0 {
        h.to_bits()
    } else {
        0
    }
}

fn unranked(_: &Vec<usize>, _: usize) -> u64 {
    0
}

fn tree(set: &PolicySet, es: &Arc<Entities>) -> PolTree {
    PolTree::from_policy_set_and_entities(set, es.clone(), &entropy).0
}

fn decide(set: &PolicySet, es: &Arc<Entities>, r: &Request) -> (Decision, Vec<PolicyID>) {
    let (decision, diagnostics) = tree(set, es).evaluate_request(r, es);
    assert!(diagnostics.errors.is_empty());
    (decision, diagnostics.reason)
}

fn mentions(node: &PolTreeNode, id: &PolicyID) -> bool {
    node.pv.contains(id) || node.children.iter().any(|child| mentions(child, id))
}

fn staff() -> Arc<Entities> {
    store(vec![
        entity("User", "alice", &[("dept", text("hr")), ("level", Literal::Long(2))]),
        entity("User", "bob", &[("dept", text("it")), ("level", Literal::Long(2))]),
        entity("Doc", "d1", &[("dept", text("hr"))]),
        entity("Doc", "d2", &[("dept", text("it"))]),
    ])
}

#[test]
fn policy_set_rejects_duplicates() {
    let mut set = policies(vec![("p0", any())]);
    let again = Policy { id: pid("p0"), template: Arc::new(any()) };
    assert_eq!(set.add(again), Err(PolicySetError::Occupied { id: pid("p0") }));
    assert_eq!(set.policies().len(), 1);
}

#[test]
fn empty_policy_set_denies() {
    let es = staff();
    let set = policies(vec![]);
    let r = request(("User", "alice"), "view", ("Doc", "d1"));
    assert_eq!(decide(&set, &es, &r), (Decision::Deny, vec![]));
}

#[test]
fn unconditional_policy_allows_everyone() {
    let es = staff();
    let set = policies(vec![("all", any()), ("hr", when(equals(Var::Principal, "dept", text("hr"))))]);
    let eve = request(("User", "eve"), "view", ("Doc", "d9"));
    assert_eq!(decide(&set, &es, &eve), (Decision::Allow, vec![pid("all")]));
    let alice = request(("User", "alice"), "view", ("Doc", "d1"));
    assert_eq!(decide(&set, &es, &alice), (Decision::Allow, vec![pid("hr")]));
}

#[test]
fn scope_by_entity() {
    let es = staff();
    let set = policies(vec![(
        "p0",
        Template {
            principal_constraint: the("User", "alice"),
            action_constraint: ActionConstraint::Eq(uid("Action", "view")),
            resource_constraint: the("Doc", "d1"),
            ..any()
        },
    )]);
    let allowed = request(("User", "alice"), "view", ("Doc", "d1"));
    assert_eq!(decide(&set, &es, &allowed), (Decision::Allow, vec![pid("p0")]));
    for r in [
        request(("User", "bob"), "view", ("Doc", "d1")),
        request(("User", "alice"), "edit", ("Doc", "d1")),
        request(("User", "alice"), "view", ("Doc", "d2")),
        request(("Admin", "alice"), "view", ("Doc", "d1")),
    ] {
        assert_eq!(decide(&set, &es, &r), (Decision::Deny, vec![]));
    }
}

#[test]
fn scope_by_type() {
    let es = staff();
    let set = policies(vec![("p0", Template { principal_constraint: is("User"), ..any() })]);
    let bob = request(("User", "bob"), "view", ("Doc", "d1"));
    assert_eq!(decide(&set, &es, &bob).0, Decision::Allow);
    let stranger = request(("User", "eve"), "view", ("Doc", "d1"));
    assert_eq!(decide(&set, &es, &stranger).0, Decision::Allow);
    let robot = request(("Robot", "bob"), "view", ("Doc", "d1"));
    assert_eq!(decide(&set, &es, &robot).0, Decision::Deny);
}

#[test]
fn same_attribute_of_principal_and_resource() {
    let es = staff();
    let set = policies(vec![(
        "p0",
        when(and(
            equals(Var::Principal, "dept", text("hr")),
            equals(Var::Resource, "dept", text("it")),
        )),
    )]);
    let both = request(("User", "alice"), "view", ("Doc", "d2"));
    assert_eq!(decide(&set, &es, &both).0, Decision::Allow);
    let one = request(("User", "alice"), "view", ("Doc", "d1"));
    assert_eq!(decide(&set, &es, &one).0, Decision::Deny);
    let swapped = request(("User", "bob"), "view", ("Doc", "d1"));
    assert_eq!(decide(&set, &es, &swapped).0, Decision::Deny);
}

#[test]
fn context_condition() {
    let es = staff();
    let set = policies(vec![("p0", when(equals(Var::Context, "mfa", Literal::Bool(true))))]);
    let with = |value: bool| {
        let mut r = request(("User", "alice"), "view", ("Doc", "d1"));
        r.context = Some(Context::Value(vec![(s("mfa"), Value::Lit(Literal::Bool(value)))]));
        r
    };
    assert_eq!(decide(&set, &es, &with(true)).0, Decision::Allow);
    assert_eq!(decide(&set, &es, &with(false)).0, Decision::Deny);
    let without = request(("User", "alice"), "view", ("Doc", "d1"));
    assert_eq!(decide(&set, &es, &without).0, Decision::Deny);
}

#[test]
fn search_goes_back_to_wildcard() {
    let es = staff();
    let set = policies(vec![
        (
            "narrow",
            when(and(
                equals(Var::Principal, "dept", text("hr")),
                equals(Var::Resource, "dept", text("it")),
            )),
        ),
        ("level", when(equals(Var::Principal, "level", Literal::Long(2)))),
    ]);
    let r = request(("User", "alice"), "view", ("Doc", "d1"));
    assert_eq!(decide(&set, &es, &r), (Decision::Allow, vec![pid("level")]));
}

#[test]
fn decision_agrees_with_policies_on_all_requests() {
    let es = staff();
    let set = policies(vec![
        ("hr", when(equals(Var::Principal, "dept", text("hr")))),
        (
            "it-docs",
            Template {
                action_constraint: ActionConstraint::Eq(uid("Action", "view")),
                non_scope_constraints: Some(and(
                    equals(Var::Resource, "dept", text("it")),
                    equals(Var::Principal, "dept", text("it")),
                )),
                ..any()
            },
        ),
        ("docs", Template { resource_constraint: the("Doc", "d2"), principal_constraint: is("Bot"), ..any() }),
    ]);
    for p in [("User", "alice"), ("User", "bob"), ("Bot", "b"), ("User", "eve")] {
        for a in ["view", "edit"] {
            for d in ["d1", "d2", "d3"] {
                let expected = p.1 == "alice"
                    || (p.1 == "bob" && a == "view" && d == "d2")
                    || (p.0 == "Bot" && d == "d2");
                let (decision, reason) = decide(&set, &es, &request(p, a, ("Doc", d)));
                assert_eq!(decision == Decision::Allow, expected);
                assert_eq!(reason.is_empty(), !expected);
            }
        }
    }
}

#[test]
fn tree_does_not_depend_on_the_store_for_the_decision() {
    let set = policies(vec![("hr", when(equals(Var::Principal, "dept", text("hr"))))]);
    let built = tree(&set, &store(vec![]));
    let r = request(("User", "alice"), "view", ("Doc", "d1"));
    assert_eq!(built.evaluate_request(&r, &staff()).0, Decision::Allow);
    assert_eq!(built.evaluate_request(&r, &store(vec![])).0, Decision::Deny);
}

#[test]
fn string_star_is_a_value_like_others() {
    let es = store(vec![
        entity("User", "star", &[("x", text("*"))]),
        entity("User", "u", &[("x", text("no"))]),
    ]);
    let set = policies(vec![("p0", when(equals(Var::Principal, "x", text("*"))))]);
    let u = request(("User", "u"), "v", ("Doc", "d"));
    assert_eq!(decide(&set, &es, &u), (Decision::Deny, vec![]));
    let star = request(("User", "star"), "v", ("Doc", "d"));
    assert_eq!(decide(&set, &es, &star), (Decision::Allow, vec![pid("p0")]));
}

#[test]
fn string_star_beside_indifferent_policies() {
    let es = store(vec![
        entity("User", "star", &[("x", text("*")), ("y", text("1"))]),
        entity("User", "u", &[("x", text("no")), ("y", text("1"))]),
    ]);
    let set = policies(vec![
        ("star", when(equals(Var::Principal, "x", text("*")))),
        ("y", when(equals(Var::Principal, "y", text("2")))),
    ]);
    let (built, _) = PolTree::from_policy_set_and_entities(&set, es.clone(), &unranked);
    assert_eq!(built.root.split_attr, Some(s("__principal_attr_x")));
    let marks: Vec<_> = built
        .root
        .children
        .iter()
        .map(|c| (c.attr_val.clone().unwrap().1, c.wildcard, c.pv.clone()))
        .collect();
    assert_eq!(
        marks,
        vec![
            (text("*"), false, vec![pid("star")]),
            (text("*"), true, vec![pid("y")]),
        ]
    );
    let u = request(("User", "u"), "v", ("Doc", "d"));
    assert_eq!(built.evaluate_request(&u, &es).0, Decision::Deny);
    let star = request(("User", "star"), "v", ("Doc", "d"));
    assert_eq!(built.evaluate_request(&star, &es).1.reason, vec![pid("star")]);
}

#[test]
fn every_matching_edge_is_followed() {
    let es = store(vec![]);
    let set = policies(vec![
        ("policy0", Template {
            principal_constraint: the("User", "alice"),
            resource_constraint: the("Doc", "a"),
            ..any()
        }),
        ("policy1", Template {
            principal_constraint: is("User"),
            resource_constraint: the("Doc", "b"),
            ..any()
        }),
    ]);
    let b = request(("User", "alice"), "v", ("Doc", "b"));
    assert_eq!(decide(&set, &es, &b), (Decision::Allow, vec![pid("policy1")]));
    let a = request(("User", "alice"), "v", ("Doc", "a"));
    assert_eq!(decide(&set, &es, &a), (Decision::Allow, vec![pid("policy0")]));
    let c = request(("User", "alice"), "v", ("Doc", "c"));
    assert_eq!(decide(&set, &es, &c), (Decision::Deny, vec![]));
    let bob = request(("User", "bob"), "v", ("Doc", "a"));
    assert_eq!(decide(&set, &es, &bob), (Decision::Deny, vec![]));

    let index = PolTreeIndex::build_from_policy_set(&set, es.clone()).0;
    for attrs in [
        vec![s("__scope_principal"), s("__scope_resource")],
        vec![s("__scope_resource"), s("__scope_principal")],
    ] {
        let ids = vec![pid("policy0"), pid("policy1")];
        let built = PolTree::build_n_poltree(ids, attrs.clone(), vec![], &index, &unranked);
        assert_eq!(built.root.split_attr, Some(attrs[0].clone()));
        assert_eq!(built.evaluate_request(&b, &es).1.reason, vec![pid("policy1")]);
        assert_eq!(built.evaluate_request(&a, &es).1.reason, vec![pid("policy0")]);
        assert_eq!(built.evaluate_request(&c, &es).0, Decision::Deny);
    }
}

#[test]
fn copy_of_tree_decides_alike() {
    let es = staff();
    let set = policies(vec![
        ("hr", when(equals(Var::Principal, "dept", text("hr")))),
        ("view", Template {
            action_constraint: ActionConstraint::Eq(uid("Action", "view")),
            ..any()
        }),
    ]);
    let built = tree(&set, &es);
    let copy = built.clone();
    for p in ["alice", "bob"] {
        for a in ["view", "edit"] {
            let r = request(("User", p), a, ("Doc", "d1"));
            let (x, y) = (built.evaluate_request(&r, &es), copy.evaluate_request(&r, &es));
            assert_eq!((x.0, x.1.reason), (y.0, y.1.reason));
        }
    }
}

#[test]
fn residual_policies() {
    let es = staff();
    let attribute_to_attribute = Expr::BinaryApp {
        op: BinaryOp::Eq,
        arg1: Box::new(Expr::Var(Var::Principal)),
        arg2: Box::new(Expr::GetAttr { expr: Box::new(Expr::Var(Var::Resource)), attr: s("owner") }),
    };
    let set = policies(vec![
        ("ok", any()),
        ("forbid", Template { effect: Effect::Forbid, ..any() }),
        ("owner", when(attribute_to_attribute)),
        ("in", Template {
            resource_constraint: PrincipalOrResourceConstraint::In(EntityReference::EUID(uid("Folder", "f"))),
            ..any()
        }),
        ("actions", Template { action_constraint: ActionConstraint::In(vec![]), ..any() }),
        ("hr", when(equals(Var::Principal, "dept", text("hr")))),
    ]);
    let left_out = vec![pid("forbid"), pid("owner"), pid("in"), pid("actions")];
    assert_eq!(residual_policy_ids(&set, &es), left_out);
    let flags: Vec<bool> =
        set.policies().iter().map(|p| policy_is_fully_indexed(p, &es)).collect();
    assert_eq!(flags, vec![true, false, false, false, false, true]);

    let (built, listed) = PolTree::from_policy_set_and_entities(&set, es.clone(), &entropy);
    assert_eq!(listed, left_out);
    assert_eq!(built.root.pv, vec![pid("ok"), pid("hr")]);
    for id in &left_out {
        assert!(!mentions(&built.root, id));
    }

    let rest = build_residual_policy_set(&set, &es);
    let ids: Vec<PolicyID> = rest.policies().iter().map(|p| p.id().clone()).collect();
    assert_eq!(ids, left_out);
    assert_eq!(rest.policies()[0].effect(), Effect::Forbid);

    let some = build_residual_policy_set_from_ids(&set, &[pid("in"), pid("ok"), pid("none")]);
    let ids: Vec<PolicyID> = some.policies().iter().map(|p| p.id().clone()).collect();
    assert_eq!(ids, vec![pid("ok"), pid("in")]);
}

#[test]
fn index_of_policy_set() {
    let es = staff();
    let set = policies(vec![
        ("p0", Template {
            principal_constraint: is("User"),
            non_scope_constraints: Some(equals(Var::Principal, "dept", text("hr"))),
            ..any()
        }),
        ("p1", when(equals(Var::Context, "mfa", Literal::Bool(true)))),
        ("p2", any()),
        ("p3", Template { effect: Effect::Forbid, ..any() }),
    ]);
    let (index, left_out) = PolTreeIndex::build_from_policy_set(&set, es.clone());
    assert_eq!(left_out, vec![pid("p3")]);
    assert_eq!(index.get_pv(&s("__scope_principal"), &text("User")).to_vec(), vec![pid("p0")]);
    assert_eq!(index.get_pv(&s("__principal_attr_dept"), &text("hr")).to_vec(), vec![pid("p0")]);
    assert_eq!(index.get_pv(&s("__context_mfa"), &Literal::Bool(true)).to_vec(), vec![pid("p1")]);
    assert_eq!(index.get_pv(&s("dept"), &text("hr")).to_vec(), vec![]);
    assert_eq!(
        index.get_sv(&s("dept"), &text("hr")).to_vec(),
        vec![uid("User", "alice"), uid("Doc", "d1")]
    );
    assert_eq!(index.policy_entities_map.get(&pid("p0")), Some(&vec![uid("User", "alice")]));
    assert_eq!(index.policy_entities_map.get(&pid("p1")), None);
    assert_eq!(index.policy_entities_map.get(&pid("p2")), None);
    assert_eq!(index.attr_values.get(&s("__scope_principal")), Some(&vec![text("User")]));
    assert_eq!(index.attr_values.get(&s("level")), Some(&vec![Literal::Long(2)]));
    assert_eq!(
        index.values_for_attr_in_policies(&s("__principal_attr_dept"), &[pid("p0"), pid("p1")]),
        vec![text("hr")]
    );
    assert_eq!(index.values_for_attr_in_policies(&s("__principal_attr_dept"), &[pid("p1")]), vec![]);
    assert_eq!(index.get_sv_for_policies(&[pid("p1"), pid("p0"), pid("p0")]), vec![uid("User", "alice")]);
    assert!(matches!(index.get_entity(&uid("User", "bob")), Dereference::Data(_)));
    assert!(matches!(index.get_entity(&uid("User", "eve")), Dereference::NoSuchEntity));
}

#[test]
fn index_from_given_maps() {
    let es = staff();
    let mut pv_map = ListMap::new();
    pv_map.push((s("__principal_attr_dept"), text("legal")), pid("p0"));
    let mut cover = ListMap::new();
    cover.put(pid("p0"), vec![uid("User", "bob"), uid("User", "alice")]);
    cover.put(pid("p1"), vec![uid("User", "bob"), uid("Doc", "d1")]);
    let index = PolTreeIndex::build_from_entities(es, pv_map, cover);
    assert_eq!(index.attr_values.get(&s("__principal_attr_dept")), Some(&vec![text("legal")]));
    assert_eq!(index.attr_values.get(&s("dept")), Some(&vec![text("hr"), text("it")]));
    assert_eq!(
        index.get_sv_for_policies(&[pid("p0"), pid("p1")]),
        vec![uid("User", "bob"), uid("User", "alice"), uid("Doc", "d1")]
    );
}

#[test]
fn index_that_a_caller_made_up() {
    let mut sv_map = ListMap::new();
    sv_map.push((s("dept"), text("legal")), uid("User", "nobody"));
    let index = PolTreeIndex {
        entities: staff(),
        attr_values: ListMap::new(),
        pv_map: ListMap::new(),
        sv_map,
        policy_entities_map: ListMap::new(),
    };
    assert_eq!(index.get_sv(&s("dept"), &text("legal")).to_vec(), vec![uid("User", "nobody")]);
    assert_eq!(index.get_sv(&s("dept"), &text("hr")).to_vec(), vec![]);
    let built = PolTree::build_n_poltree(vec![pid("p0")], vec![s("a")], vec![], &index, &entropy);
    assert_eq!(built.root.eval, Some(Decision::Allow));
    assert!(!built.root.wildcard);
}

#[test]
fn counts_and_choice_of_key() {
    let es = store(vec![
        entity("User", "a", &[("__principal_attr_x", text("1")), ("__principal_attr_y", text("1"))]),
        entity("User", "b", &[("__principal_attr_x", text("1")), ("__principal_attr_y", text("2"))]),
        entity("User", "c", &[("__principal_attr_x", text("1")), ("__principal_attr_y", text("2"))]),
        entity("User", "d", &[("__principal_attr_x", text("2")), ("__principal_attr_y", text("1"))]),
    ]);
    let set = policies(vec![
        ("px", when(equals(Var::Principal, "x", text("1")))),
        ("py", when(equals(Var::Principal, "y", text("1")))),
    ]);
    let index = PolTreeIndex::build_from_policy_set(&set, es.clone()).0;
    let all: Vec<EntityUID> = es.entities.iter().map(|e| e.uid().clone()).collect();
    let x = s("__principal_attr_x");
    let y = s("__principal_attr_y");
    assert_eq!(attr_value_counts(&all, &index, &x), vec![3, 1]);
    assert_eq!(attr_value_counts(&all, &index, &y), vec![2, 2]);
    assert_eq!(attr_value_counts(&all[..2], &index, &y), vec![1, 1]);
    assert_eq!(attr_value_counts(&all, &index, &s("none")), vec![]);
    let ids = [pid("px"), pid("py")];
    let attrs = [x.clone(), y.clone()];
    assert_eq!(best_attribute(&ids, &all, &index, &attrs, &entropy), Some(y.clone()));
    assert_eq!(best_attribute(&ids[..1], &all, &index, &attrs, &entropy), Some(x.clone()));
    assert_eq!(best_attribute(&ids, &[], &index, &attrs, &entropy), None);
    assert_eq!(best_attribute(&ids, &all, &index, &attrs, &|_: &Vec<usize>, _: usize| 7), Some(y));
    assert_eq!(best_attribute(&[], &all, &index, &attrs, &entropy), None);
}

#[test]
fn shape_of_tree() {
    let es = store(vec![]);
    let set = policies(vec![
        ("a1", when(equals(Var::Principal, "a", text("1")))),
        ("a2", when(equals(Var::Principal, "a", text("2")))),
        ("any", any()),
    ]);
    let (built, _) = PolTree::from_policy_set_and_entities(&set, es, &unranked);
    let key = s("__principal_attr_a");
    assert_eq!(built.root.attr_val, None);
    assert_eq!(built.root.split_attr, Some(key.clone()));
    assert_eq!(built.root.eval, None);
    let edges: Vec<_> = built.root.children.iter().map(|c| c.attr_val.clone().unwrap()).collect();
    assert_eq!(
        edges,
        vec![(key.clone(), text("1")), (key.clone(), text("2")), (key, text("*"))]
    );
    let leaves: Vec<_> = built.root.children.iter().map(|c| (c.pv.clone(), c.eval)).collect();
    assert_eq!(
        leaves,
        vec![
            (vec![pid("a1")], Some(Decision::Allow)),
            (vec![pid("a2")], Some(Decision::Allow)),
            (vec![pid("any")], Some(Decision::Allow)),
        ]
    );
}

#[test]
fn keys_without_rank_are_split_in_order() {
    let es = store(vec![]);
    let set = policies(vec![(
        "p0",
        when(and(
            equals(Var::Resource, "b", text("1")),
            and(equals(Var::Principal, "z", text("1")), equals(Var::Principal, "é", text("1"))),
        )),
    )]);
    let (built, _) = PolTree::from_policy_set_and_entities(&set, es, &unranked);
    let mut order = vec![];
    let mut node = &built.root;
    while let Some(key) = &node.split_attr {
        order.push(key.clone());
        node = &node.children[0];
    }
    assert_eq!(
        order,
        vec![s("__principal_attr_z"), s("__principal_attr_é"), s("__resource_attr_b")]
    );
}

#[test]
fn entities_narrow_down_the_tree() {
    let es = staff();
    let set = policies(vec![
        ("hr", when(equals(Var::Principal, "dept", text("hr")))),
        ("users", Template { principal_constraint: is("User"), ..any() }),
    ]);
    let built = tree(&set, &es);
    assert_eq!(built.root.sv.len(), 4);
    for child in &built.root.children {
        let expected = if child.pv == vec![pid("hr")] {
            vec![uid("User", "alice"), uid("Doc", "d1")]
        } else {
            vec![uid("User", "alice"), uid("User", "bob")]
        };
        assert_eq!(child.sv, expected);
    }
}

#[test]
fn repeated_equation_is_one_policy() {
    let es = staff();
    let twice = and(
        equals(Var::Principal, "dept", text("hr")),
        equals(Var::Principal, "dept", text("hr")),
    );
    let set = policies(vec![("p0", when(twice))]);
    let r = request(("User", "alice"), "view", ("Doc", "d1"));
    assert_eq!(decide(&set, &es, &r), (Decision::Allow, vec![pid("p0")]));
}

#[test]
fn contradictory_equations_permit_nothing() {
    let es = store(vec![
        entity("User", "u", &[("x", Literal::Long(1))]),
        entity("User", "w", &[("x", Literal::Long(2))]),
    ]);
    let both = || {
        and(
            equals(Var::Principal, "x", Literal::Long(1)),
            equals(Var::Principal, "x", Literal::Long(2)),
        )
    };
    let set = policies(vec![("p0", when(both()))]);
    for user in ["u", "w", "none"] {
        let r = request(("User", user), "v", ("Doc", "d"));
        assert_eq!(decide(&set, &es, &r), (Decision::Deny, vec![]));
    }
    let beside = policies(vec![
        ("p0", when(both())),
        ("p1", when(equals(Var::Principal, "x", Literal::Long(1)))),
    ]);
    let u = request(("User", "u"), "v", ("Doc", "d"));
    assert_eq!(decide(&beside, &es, &u), (Decision::Allow, vec![pid("p1")]));
    let w = request(("User", "w"), "v", ("Doc", "d"));
    assert_eq!(decide(&beside, &es, &w), (Decision::Deny, vec![]));
}
