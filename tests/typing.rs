use peg_typing::ast::{CharacterInterval, Expression, ExpressionNode, Rule, RuleAttributes, RuleStyle, Span};
use peg_typing::grammar::{type_grammar, Grammar};
use peg_typing::state::{Typing, TypingError, UNIT_SLOT};
use peg_typing::types::{make_pty, ExpressionType, NamedExpressionType, PTy, TypeArena};

fn sp() -> Span {
    Span { lo: 0, hi: 0 }
}

fn ex(node: ExpressionNode, discarded: bool) -> Expression {
    Expression { span: sp(), node, discarded, ty: PTy { index: 0 } }
}

fn lit(s: &str) -> Expression {
    ex(ExpressionNode::StrLiteral(s.to_string()), false)
}

fn lit_dropped(s: &str) -> Expression {
    ex(ExpressionNode::StrLiteral(s.to_string()), true)
}

fn any() -> Expression {
    ex(ExpressionNode::AnySingleChar, false)
}

fn class() -> Expression {
    ex(ExpressionNode::CharacterClass(vec![CharacterInterval { lo: 'a', hi: 'z' }]), false)
}

fn nt(t: usize) -> Expression {
    ex(ExpressionNode::NonTerminalSymbol(t), false)
}

fn seq(v: Vec<Expression>) -> Expression {
    ex(ExpressionNode::Sequence(v), false)
}

fn choice(v: Vec<Expression>) -> Expression {
    ex(ExpressionNode::Choice(v), false)
}

fn opt(e: Expression) -> Expression {
    ex(ExpressionNode::Optional(Box::new(e)), false)
}

fn star(e: Expression) -> Expression {
    ex(ExpressionNode::ZeroOrMore(Box::new(e)), false)
}

fn plus(e: Expression) -> Expression {
    ex(ExpressionNode::OneOrMore(Box::new(e)), false)
}

fn not(e: Expression) -> Expression {
    ex(ExpressionNode::NotPredicate(Box::new(e)), false)
}

fn and(e: Expression) -> Expression {
    ex(ExpressionNode::AndPredicate(Box::new(e)), false)
}

fn rule_with(name: &str, def: Expression, style: RuleStyle, fields: Option<Vec<&str>>, labels: Option<Vec<&str>>) -> Rule {
    Rule {
        name: name.to_string(),
        span: Span { lo: name.len(), hi: name.len() + 1 },
        def: Box::new(def),
        attributes: RuleAttributes {
            style,
            field_names: fields.map(|v| v.iter().map(|s| s.to_string()).collect()),
            variant_names: labels.map(|v| v.iter().map(|s| s.to_string()).collect()),
        },
    }
}

fn rule(name: &str, def: Expression) -> Rule {
    rule_with(name, def, RuleStyle::New, None, None)
}

fn inline_rule(name: &str, def: Expression) -> Rule {
    rule_with(name, def, RuleStyle::Inline, None, None)
}

fn root_of(g: &Grammar, r: usize) -> &ExpressionType {
    &g.types.slots[g.rules[r].def.ty.index]
}

fn slot(g: &Grammar, h: PTy) -> &ExpressionType {
    &g.types.slots[h.index]
}

fn no_placeholder(g: &Grammar) -> bool {
    g.types.slots.iter().all(|t| !t.is_type_ph())
}

#[test]
fn is_unit_holds_exactly_for_unit_shapes() {
    let p = PTy { index: 0 };
    assert!(ExpressionType::Unit.is_unit());
    assert!(ExpressionType::UnitPropagate.is_unit());
    assert!(!ExpressionType::Character.is_unit());
    assert!(!ExpressionType::RuleTypePlaceholder(0).is_unit());
    assert!(!ExpressionType::RuleTypeName(0).is_unit());
    assert!(!ExpressionType::Vector(p).is_unit());
    assert!(!ExpressionType::Tuple(vec![]).is_unit());
    assert!(!ExpressionType::OptionalTy(p).is_unit());
    assert!(!ExpressionType::UnnamedSum(vec![p, p]).is_unit());
}

#[test]
fn placeholder_queries() {
    assert!(ExpressionType::RuleTypePlaceholder(3).is_type_ph());
    assert!(!ExpressionType::RuleTypeName(3).is_type_ph());
    assert!(!ExpressionType::Character.is_type_ph());
    assert_eq!(ExpressionType::RuleTypePlaceholder(7).ph_ident(), 7);
}

#[test]
fn propagate_is_transparent_for_unit_propagate() {
    let child = PTy { index: 4 };
    let wrapped = PTy { index: 9 };
    assert_eq!(ExpressionType::UnitPropagate.propagate(child, |_| wrapped), child);
    assert_eq!(ExpressionType::Character.propagate(child, |_| wrapped), wrapped);
    assert_eq!(ExpressionType::Unit.propagate(child, |_| wrapped), wrapped);
}

#[test]
fn make_pty_appends_fresh_slots() {
    let mut arena = TypeArena::new();
    let a = make_pty(&mut arena, ExpressionType::Character);
    let b = make_pty(&mut arena, ExpressionType::Vector(a));
    assert_eq!(a.index, 0);
    assert_eq!(b.index, 1);
    assert_eq!(arena.len(), 2);
    assert!(matches!(arena.slots[1], ExpressionType::Vector(PTy { index: 0 })));
}

#[test]
fn inline_style_is_reported() {
    assert!(inline_rule("a", any()).is_inline());
    assert!(!rule("a", any()).is_inline());
}

#[test]
fn terminals_are_characters_unless_discarded() {
    let (g, errs) = type_grammar(
        "g".to_string(),
        vec![rule("a", lit("x")), rule("b", any()), rule("c", class()), inline_rule("d", lit_dropped("x"))],
    );
    assert!(errs.is_empty());
    assert!(matches!(root_of(&g, 0), ExpressionType::Character));
    assert!(matches!(root_of(&g, 1), ExpressionType::Character));
    assert!(matches!(root_of(&g, 2), ExpressionType::Character));
    assert!(matches!(root_of(&g, 3), ExpressionType::Unit));
    assert_eq!(g.rules[3].def.ty.index, UNIT_SLOT);
}

#[test]
fn single_survivor_sequence_is_unwrapped() {
    // B = . ; A = "x" B, with the literal discarded: A is a character.
    let (g, errs) = type_grammar(
        "g".to_string(),
        vec![rule("B", any()), rule("A", seq(vec![lit_dropped("x"), nt(0)]))],
    );
    assert!(errs.is_empty());
    assert!(matches!(root_of(&g, 1), ExpressionType::Character));
    assert_eq!(g.rules[1].def.ty, g.rules[0].def.ty);
}

#[test]
fn sequence_of_several_values_is_a_tuple() {
    let (g, errs) = type_grammar("g".to_string(), vec![rule("A", seq(vec![lit("x"), lit_dropped(","), any()]))]);
    assert!(errs.is_empty());
    match root_of(&g, 0) {
        ExpressionType::Tuple(v) => {
            assert_eq!(v.len(), 2);
            assert!(matches!(slot(&g, v[0]), ExpressionType::Character));
            assert!(matches!(slot(&g, v[1]), ExpressionType::Character));
        },
        other => panic!("expected a tuple, got {:?}", other),
    }
    assert!(matches!(g.named_types[0], Some(NamedExpressionType::StructTuple(ref n, ref es)) if n == "A" && es.len() == 2));
}

#[test]
fn empty_sequence_is_unit() {
    let (g, _) = type_grammar("g".to_string(), vec![rule("A", seq(vec![]))]);
    assert!(matches!(root_of(&g, 0), ExpressionType::Unit));
    assert!(g.named_types[0].is_none());
}

#[test]
fn choice_of_identical_alternatives_collapses() {
    let (g, errs) = type_grammar("g".to_string(), vec![rule("A", choice(vec![lit("x"), lit("y")]))]);
    assert!(errs.is_empty());
    assert!(matches!(root_of(&g, 0), ExpressionType::Character));
    assert!(matches!(g.named_types[0], Some(NamedExpressionType::TypeAlias(ref n, _)) if n == "A"));
}

#[test]
fn choice_of_distinct_alternatives_is_a_sum() {
    let (g, errs) = type_grammar(
        "g".to_string(),
        vec![rule("A", choice(vec![lit("x"), star(any()), lit("y")]))],
    );
    assert!(errs.is_empty());
    match root_of(&g, 0) {
        ExpressionType::UnnamedSum(v) => {
            assert_eq!(v.len(), 2);
            assert!(matches!(slot(&g, v[0]), ExpressionType::Character));
            assert!(matches!(slot(&g, v[1]), ExpressionType::Vector(_)));
        },
        other => panic!("expected a sum, got {:?}", other),
    }
    match &g.named_types[0] {
        Some(NamedExpressionType::Sum(n, vs)) => {
            assert_eq!(n, "A");
            assert_eq!(vs.len(), 2);
            assert_eq!(vs[0].0, "Variant0");
            assert_eq!(vs[1].0, "Variant1");
        },
        other => panic!("expected a sum, got {:?}", other),
    }
}

#[test]
fn sum_variants_take_given_labels() {
    let (g, _) = type_grammar(
        "g".to_string(),
        vec![rule_with("A", choice(vec![any(), opt(any())]), RuleStyle::New, None, Some(vec!["One", "Maybe"]))],
    );
    match &g.named_types[0] {
        Some(NamedExpressionType::Sum(_, vs)) => {
            assert_eq!(vs[0].0, "One");
            assert_eq!(vs[1].0, "Maybe");
        },
        other => panic!("expected a sum, got {:?}", other),
    }
}

#[test]
fn tuple_with_field_names_is_a_struct() {
    let (g, _) = type_grammar(
        "g".to_string(),
        vec![rule_with("P", seq(vec![any(), any()]), RuleStyle::New, Some(vec!["x", "y"]), None)],
    );
    match &g.named_types[0] {
        Some(NamedExpressionType::Struct(n, fs)) => {
            assert_eq!(n, "P");
            assert_eq!(fs.len(), 2);
            assert_eq!(fs[0].0, "x");
            assert_eq!(fs[1].0, "y");
        },
        other => panic!("expected a struct, got {:?}", other),
    }
}

#[test]
fn repetition_and_option_wrap_their_child() {
    let (g, _) = type_grammar(
        "g".to_string(),
        vec![rule("A", star(any())), rule("B", plus(class())), rule("C", opt(any())), rule("D", star(lit_dropped("x")))],
    );
    assert!(matches!(root_of(&g, 0), ExpressionType::Vector(_)));
    assert!(matches!(root_of(&g, 1), ExpressionType::Vector(_)));
    assert!(matches!(root_of(&g, 2), ExpressionType::OptionalTy(_)));
    assert!(matches!(root_of(&g, 3), ExpressionType::Unit));
    assert!(matches!(g.named_types[0], Some(NamedExpressionType::TypeAlias(_, _))));
    assert!(g.named_types[3].is_none());
}

#[test]
fn lookahead_only_rule_is_unit_and_unregistered() {
    let (g, errs) = type_grammar(
        "g".to_string(),
        vec![rule("S", seq(vec![not(lit("a")), and(any()), lit_dropped("c")]))],
    );
    assert!(errs.is_empty());
    assert!(matches!(root_of(&g, 0), ExpressionType::Unit));
    assert!(g.named_types[0].is_none());
}

#[test]
fn inline_rules_are_never_registered() {
    let (g, _) = type_grammar(
        "g".to_string(),
        vec![inline_rule("I", seq(vec![any(), any()])), rule("A", seq(vec![nt(0), lit_dropped(";")]))],
    );
    assert!(g.named_types[0].is_none());
    assert!(matches!(root_of(&g, 0), ExpressionType::Tuple(_)));
    // The inline type is copied at the use site: a new slot with the same shape.
    assert_ne!(g.rules[1].def.ty, g.rules[0].def.ty);
    assert!(matches!(root_of(&g, 1), ExpressionType::Tuple(ref v) if v.len() == 2));
    assert!(matches!(g.named_types[1], Some(NamedExpressionType::StructTuple(_, _))));
}

#[test]
fn forward_references_resolve_to_type_names() {
    // A = B B ; B = . : acyclic, B is typed after A.
    let (g, errs) = type_grammar("g".to_string(), vec![rule("A", seq(vec![nt(1), nt(1)])), rule("B", any())]);
    assert!(errs.is_empty());
    assert!(no_placeholder(&g));
    match root_of(&g, 0) {
        ExpressionType::Tuple(v) => {
            assert!(matches!(slot(&g, v[0]), ExpressionType::RuleTypeName(1)));
            assert!(matches!(slot(&g, v[1]), ExpressionType::RuleTypeName(1)));
        },
        other => panic!("expected a tuple, got {:?}", other),
    }
}

#[test]
fn forward_reference_to_inline_rule_copies_its_type() {
    let (g, errs) = type_grammar("g".to_string(), vec![rule("A", opt(nt(1))), inline_rule("B", star(any()))]);
    assert!(errs.is_empty());
    assert!(no_placeholder(&g));
    match root_of(&g, 0) {
        ExpressionType::OptionalTy(c) => assert!(matches!(slot(&g, *c), ExpressionType::Vector(_))),
        other => panic!("expected an option, got {:?}", other),
    }
}

#[test]
fn forward_reference_to_unit_rule_becomes_unit() {
    let (g, errs) = type_grammar("g".to_string(), vec![rule("A", seq(vec![nt(1), any()])), rule("B", not(any()))]);
    assert!(errs.is_empty());
    match root_of(&g, 0) {
        ExpressionType::Tuple(v) => assert!(matches!(slot(&g, v[0]), ExpressionType::Unit)),
        other => panic!("expected a tuple, got {:?}", other),
    }
}

#[test]
fn mutually_recursive_rules_resolve() {
    // A = B "x" ; B = A? "y"
    let (g, errs) = type_grammar(
        "g".to_string(),
        vec![rule("A", seq(vec![nt(1), lit("x")])), rule("B", seq(vec![opt(nt(0)), lit("y")]))],
    );
    assert!(errs.is_empty());
    assert!(no_placeholder(&g));
    match root_of(&g, 0) {
        ExpressionType::Tuple(v) => {
            assert!(matches!(slot(&g, v[0]), ExpressionType::RuleTypeName(1)));
            assert!(matches!(slot(&g, v[1]), ExpressionType::Character));
        },
        other => panic!("expected a tuple, got {:?}", other),
    }
    match root_of(&g, 1) {
        ExpressionType::Tuple(v) => match slot(&g, v[0]) {
            // A was typed first: B holds A's public slot itself.
            ExpressionType::OptionalTy(c) => assert_eq!(*c, g.rules[0].def.ty),
            other => panic!("expected an option, got {:?}", other),
        },
        other => panic!("expected a tuple, got {:?}", other),
    }
}

#[test]
fn resolving_twice_changes_nothing() {
    let mut t = Typing::new(vec![false, false]);
    let a = t.infer_expr(0, seq(vec![nt(1), lit("x")]));
    t.roots.push(a.ty);
    let b = t.infer_expr(1, seq(vec![opt(nt(0)), lit("y")]));
    t.roots.push(b.ty);
    assert_eq!(t.deferred.len(), 1);
    let rounds = t.resolve();
    assert_eq!(rounds, 1);
    assert!(t.deferred.iter().all(|d| d.resolved));
    let before = format!("{:?}", t);
    assert_eq!(t.resolve(), 0);
    assert_eq!(format!("{:?}", t), before);
}

#[test]
fn chain_of_forward_references_resolves_within_rule_count() {
    // A = I ; I = J ; J = . with I and J inline: each waits for the next.
    let mut t = Typing::new(vec![false, true, true]);
    let a = t.infer_expr(0, nt(1));
    t.roots.push(a.ty);
    let i = t.infer_expr(1, nt(2));
    t.roots.push(i.ty);
    let j = t.infer_expr(2, any());
    t.roots.push(j.ty);
    let rounds = t.resolve();
    assert!(rounds <= 3);
    assert!(t.deferred.iter().all(|d| d.resolved));
    assert!(matches!(t.arena.slots[a.ty.index], ExpressionType::Character));
}

#[test]
fn degenerate_cycle_is_reported_per_rule() {
    // A = B ; B = A ; C = . : A and B never reach a type, C is unaffected.
    let (g, errs) = type_grammar("g".to_string(), vec![rule("A", nt(1)), rule("B", nt(0)), rule("C", any())]);
    assert_eq!(errs.len(), 2);
    assert!(errs.contains(&TypingError::UnresolvableCycle { rule: 0, span: g.rules[0].span }));
    assert!(errs.contains(&TypingError::UnresolvableCycle { rule: 1, span: g.rules[1].span }));
    assert!(g.named_types[0].is_none());
    assert!(g.named_types[1].is_none());
    assert!(matches!(g.named_types[2], Some(NamedExpressionType::TypeAlias(_, _))));
}

#[test]
fn self_recursive_inline_rule_is_a_cycle() {
    let (_, errs) = type_grammar("g".to_string(), vec![inline_rule("L", seq(vec![any(), opt(nt(0))]))]);
    assert_eq!(errs, vec![TypingError::UnresolvableCycle { rule: 0, span: Span { lo: 1, hi: 2 } }]);
}

#[test]
fn self_recursive_named_rule_refers_to_itself() {
    let (g, errs) = type_grammar("g".to_string(), vec![rule("L", seq(vec![any(), opt(nt(0))]))]);
    assert!(errs.is_empty());
    match root_of(&g, 0) {
        ExpressionType::Tuple(v) => match slot(&g, v[1]) {
            ExpressionType::OptionalTy(c) => assert!(matches!(slot(&g, *c), ExpressionType::RuleTypeName(0))),
            other => panic!("expected an option, got {:?}", other),
        },
        other => panic!("expected a tuple, got {:?}", other),
    }
}

#[test]
fn undefined_rule_is_reported() {
    let (g, errs) = type_grammar("g".to_string(), vec![rule("A", seq(vec![any(), nt(5)]))]);
    assert_eq!(errs, vec![TypingError::UndefinedRule { rule: 0, span: sp(), target: 5 }]);
    assert!(matches!(root_of(&g, 0), ExpressionType::Character));
}

#[test]
fn grammar_keeps_rule_order_and_names() {
    let (g, _) = type_grammar("calc".to_string(), vec![rule("x", any()), rule("y", any())]);
    assert_eq!(g.name, "calc");
    assert_eq!(g.rules.len(), 2);
    assert_eq!(g.rules[0].name, "x");
    assert_eq!(g.rules[1].name, "y");
    assert_eq!(g.named_types.len(), 2);
}

#[test]
fn choice_of_structurally_identical_tuples_collapses() {
    let (g, errs) = type_grammar(
        "g".to_string(),
        vec![rule("A", choice(vec![seq(vec![lit("x"), star(any())]), seq(vec![lit("a"), star(class())])]))],
    );
    assert!(errs.is_empty());
    match &g.rules[0].def.node {
        ExpressionNode::Choice(alts) => assert_eq!(g.rules[0].def.ty, alts[0].ty),
        _ => panic!("expected a choice"),
    }
    assert!(matches!(root_of(&g, 0), ExpressionType::Tuple(ref v) if v.len() == 2));
}

#[test]
fn choice_deduplicates_in_first_seen_order() {
    let (g, _) = type_grammar(
        "g".to_string(),
        vec![rule("A", choice(vec![star(any()), lit("x"), star(class()), opt(any()), lit("y")]))],
    );
    match root_of(&g, 0) {
        ExpressionType::UnnamedSum(v) => {
            assert_eq!(v.len(), 3);
            assert!(matches!(slot(&g, v[0]), ExpressionType::Vector(_)));
            assert!(matches!(slot(&g, v[1]), ExpressionType::Character));
            assert!(matches!(slot(&g, v[2]), ExpressionType::OptionalTy(_)));
        },
        other => panic!("expected a sum, got {:?}", other),
    }
}

#[test]
fn choice_of_differently_nested_tuples_is_a_sum() {
    let (g, _) = type_grammar(
        "g".to_string(),
        vec![rule("A", choice(vec![seq(vec![lit("x"), star(any())]), seq(vec![lit("a"), opt(any())])]))],
    );
    assert!(matches!(root_of(&g, 0), ExpressionType::UnnamedSum(ref v) if v.len() == 2));
}
