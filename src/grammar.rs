use vstd::prelude::*;
use vstd::string::StringExecFns;
use crate::ast::{mentions, silent, Rule, RuleAttributes, Span};
use crate::resolution::{all_resolved, lemma_named_rules_resolve, ranked};
use crate::inference::good_slot;
use crate::state::{is_ph, owned_slot, pending, tracked_slot, Deferred, Typing, TypingError};
use crate::types::{children, spec_is_unit, ExpressionType, Ident, NamedExpressionType, PTy, TypeArena};

verus! {

/// A typed grammar: its rules, with every expression's slot in `types`, and
/// the named type registered for each rule, by rule index.
#[derive(Debug)]
pub struct Grammar {
    pub name: String,
    pub rules: Vec<Rule>,
    pub named_types: Vec<Option<NamedExpressionType>>,
    pub types: TypeArena,
    /// Every placeholder slot made while typing, with whether it was resolved.
    pub deferred: Vec<Deferred>,
}

/// `errs` holds a cycle diagnostic for rule `r` at `span`.
pub open spec fn reported(errs: Seq<TypingError>, r: Ident, span: Span) -> bool {
    exists|i: int| 0 <= i < errs.len() && errs[i] == (TypingError::UnresolvableCycle { rule: r, span })
}

/// What the synthesizer registers for a non-inline rule whose public slot
/// `root` holds `t`: nothing for a unit type or an unresolved placeholder; a
/// struct when the rule names as many fields as the tuple has elements, else
/// a tuple struct; a sum over the alternatives of an untagged sum, labelled
/// by the rule's labels when there is one per alternative; an alias of the
/// slot otherwise.
pub open spec fn registers(
    t: ExpressionType,
    root: PTy,
    named: Option<NamedExpressionType>,
    attrs: RuleAttributes,
) -> bool {
    let cs = children(t);
    let fields = attrs.field_names;
    let labels = attrs.variant_names;
    if spec_is_unit(t) || t is RuleTypePlaceholder {
        named is None
    } else if t is Tuple {
        if fields is Some && fields->Some_0@.len() == cs.len() {
            named matches Some(NamedExpressionType::Struct(_, fs)) && fs@.len() == cs.len() && forall|i: int|
                0 <= i < cs.len() ==> (#[trigger] fs@[i]).1 == cs[i] && fs@[i].0 == fields->Some_0@[i]
        } else {
            named matches Some(NamedExpressionType::StructTuple(_, es)) && es@ == cs
        }
    } else if t is UnnamedSum {
        named matches Some(NamedExpressionType::Sum(_, vs)) && vs@.len() == cs.len() && forall|i: int|
            0 <= i < cs.len() ==> (#[trigger] vs@[i]).1 == cs[i] && if labels is Some && labels->Some_0@.len()
                == cs.len() {
                vs@[i].0 == labels->Some_0@[i]
            } else {
                vs@[i].0@ == variant_name(i as nat)
            }
    } else {
        named == Some(NamedExpressionType::TypeAlias(named_as(named->Some_0), root))
    }
}

/// The character of decimal digit `d`.
pub open spec fn digit_char(d: nat) -> char {
    if d == 0 { '0' } else if d == 1 { '1' } else if d == 2 { '2' } else if d == 3 { '3' } else if d == 4 {
        '4'
    } else if d == 5 { '5' } else if d == 6 { '6' } else if d == 7 { '7' } else if d == 8 { '8' } else { '9' }
}

/// The decimal digits of `i`, most significant first.
pub open spec fn decimal(i: nat) -> Seq<char>
    decreases i,
{
    if i < 10 {
        seq![digit_char(i)]
    } else {
        decimal(i / 10) + seq![digit_char(i % 10)]
    }
}

/// The name given to the unlabelled alternative `i` of a sum: `Variant`
/// followed by `i` in decimal.
pub open spec fn variant_name(i: nat) -> Seq<char> {
    seq!['V', 'a', 'r', 'i', 'a', 'n', 't'] + decimal(i)
}

fn digit_str(d: usize) -> (r: &'static str)
    requires
        d < 10,
    ensures
        r@ == seq![digit_char(d as nat)],
{
    proof {
        reveal_strlit("0");
        reveal_strlit("1");
        reveal_strlit("2");
        reveal_strlit("3");
        reveal_strlit("4");
        reveal_strlit("5");
        reveal_strlit("6");
        reveal_strlit("7");
        reveal_strlit("8");
        reveal_strlit("9");
    }
    if d == 0 {
        "0"
    } else if d == 1 {
        "1"
    } else if d == 2 {
        "2"
    } else if d == 3 {
        "3"
    } else if d == 4 {
        "4"
    } else if d == 5 {
        "5"
    } else if d == 6 {
        "6"
    } else if d == 7 {
        "7"
    } else if d == 8 {
        "8"
    } else {
        "9"
    }
}

/// `i` written in decimal.
fn decimal_string(i: usize) -> (r: String)
    ensures
        r@ == decimal(i as nat),
    decreases i,
{
    if i < 10 {
        String::from_str(digit_str(i))
    } else {
        let high = decimal_string(i / 10);
        high.concat(digit_str(i % 10))
    }
}

/// The name of unlabelled alternative `i`.
fn variant_label(i: usize) -> (r: String)
    ensures
        r@ == variant_name(i as nat),
{
    proof {
        reveal_strlit("Variant");
    }
    let digits = decimal_string(i);
    String::from_str("Variant").concat(digits.as_str())
}

/// The name that a named type is registered under.
pub open spec fn named_as(n: NamedExpressionType) -> String {
    match n {
        NamedExpressionType::Struct(s, _) => s,
        NamedExpressionType::StructTuple(s, _) => s,
        NamedExpressionType::Sum(s, _) => s,
        NamedExpressionType::TypeAlias(s, _) => s,
    }
}

/// The named type for `rule`, whose public slot is `root`: none for an
/// inline rule, else as `registers` says, under the rule's name.
pub fn synthesize_rule(types: &TypeArena, rule: &Rule, root: PTy) -> (n: Option<NamedExpressionType>)
    requires
        types.valid(root),
    ensures
        rule.spec_is_inline() ==> n is None,
        !rule.spec_is_inline() ==> registers(types@[root.index as int], root, n, rule.attributes),
        n is Some ==> named_as(n->Some_0) == rule.name,
{
    if rule.is_inline() {
        return None;
    }
    let t = types.get(root);
    let name = rule.name.clone();
    if t.is_unit() || t.is_type_ph() {
        return None;
    }
    match t {
        ExpressionType::Tuple(cs) => {
            match &rule.attributes.field_names {
                Some(fields) if fields.len() == cs.len() => {
                    let mut fs: Vec<(String, PTy)> = Vec::new();
                    let mut i: usize = 0;
                    while i < cs.len()
                        invariant
                            i <= cs@.len(),
                            fields@.len() == cs@.len(),
                            fs@.len() == i,
                            forall|j: int| 0 <= j < i ==> (#[trigger] fs@[j]).1 == cs@[j] && fs@[j].0 == fields@[j],
                        decreases cs@.len() - i,
                    {
                        fs.push((fields[i].clone(), cs[i]));
                        i = i + 1;
                    }
                    Some(NamedExpressionType::Struct(name, fs))
                },
                _ => Some(NamedExpressionType::StructTuple(name, cs)),
            }
        },
        ExpressionType::UnnamedSum(cs) => {
            let mut vs: Vec<(String, PTy)> = Vec::new();
            let mut i: usize = 0;
            while i < cs.len()
                invariant
                    i <= cs@.len(),
                    vs@.len() == i,
                    forall|j: int|
                        0 <= j < i ==> (#[trigger] vs@[j]).1 == cs@[j] && if rule.attributes.variant_names is Some
                            && rule.attributes.variant_names->Some_0@.len() == cs@.len() {
                            vs@[j].0 == rule.attributes.variant_names->Some_0@[j]
                        } else {
                            vs@[j].0@ == variant_name(j as nat)
                        },
                decreases cs@.len() - i,
            {
                let label = match &rule.attributes.variant_names {
                    Some(labels) if labels.len() == cs.len() => labels[i].clone(),
                    _ => variant_label(i),
                };
                vs.push((label, cs[i]));
                i = i + 1;
            }
            Some(NamedExpressionType::Sum(name, vs))
        },
        _ => Some(NamedExpressionType::TypeAlias(name, root)),
    }
}

/// No rule refers to itself, directly or through other rules: some rank
/// of the rules decreases along every reference.
pub open spec fn acyclic(rules: Seq<Rule>, rank: Seq<nat>) -> bool {
    &&& rank.len() == rules.len()
    &&& forall|r: int, t: Ident|
        0 <= r < rules.len() && t < rules.len() && #[trigger] mentions(*rules[r].def, t)
            ==> rank[t as int] < rank[r]
}

impl Typing {
    /// Records `h` as the public slot of the next rule.
    fn push_root(&mut self, h: PTy)
        requires
            old(self).inv(),
            old(self).roots@.len() < old(self).inline@.len(),
            good_slot(old(self), h, old(self).roots@.len() as Ident),
        ensures
            final(self).inv(),
            final(self).roots@ == old(self).roots@.push(h),
            final(self).arena@ == old(self).arena@,
            final(self).deferred@ == old(self).deferred@,
            final(self).inline@ == old(self).inline@,
            final(self).errors@ == old(self).errors@,
    {
        self.roots.push(h);
        proof {
            let n = self.roots@.len() - 1;
            assert forall|r: int|
                0 <= r < self.roots@.len() && is_ph(self.arena@[(#[trigger] self.roots@[r]).index as int])
                    implies owned_slot(self.deferred@, self.roots@[r], r as Ident) by {
                if r < n {
                    assert(self.roots@[r] == old(self).roots@[r]);
                }
            }
            assert forall|r: int| 0 <= r < self.roots@.len() implies (#[trigger] self.roots@[r]).index < self.arena@.len() by {
                if r < n {
                    assert(self.roots@[r] == old(self).roots@[r]);
                }
            }
        }
    }
}

/// The styles of the rules, in order.
fn styles(rules: &Vec<Rule>) -> (inline: Vec<bool>)
    ensures
        inline@.len() == rules@.len(),
        forall|r: int| 0 <= r < rules@.len() ==> inline@[r] == (#[trigger] rules@[r]).spec_is_inline(),
{
    let mut inline: Vec<bool> = Vec::new();
    let mut i: usize = 0;
    while i < rules.len()
        invariant
            i <= rules@.len(),
            inline@.len() == i,
            forall|r: int| 0 <= r < i ==> inline@[r] == (#[trigger] rules@[r]).spec_is_inline(),
        decreases rules@.len() - i,
    {
        inline.push(rules[i].is_inline());
        i = i + 1;
    }
    inline
}

/// Propagation over every rule, in order: each rule's tree is typed and its
/// root slot becomes the rule's public slot.
fn infer_rules(typing: &mut Typing, rules: Vec<Rule>) -> (out: Vec<Rule>)
    requires
        old(typing).inv(),
        old(typing).roots@.len() == 0,
        old(typing).deferred@.len() == 0,
        old(typing).errors@.len() == 0,
        old(typing).inline@.len() == rules@.len(),
    ensures
        final(typing).inv(),
        final(typing).inline@ == old(typing).inline@,
        final(typing).roots@.len() == rules@.len(),
        forall|i: int| 0 <= i < final(typing).errors@.len() ==> !((#[trigger] final(typing).errors@[i]) is UnresolvableCycle),
        out@.len() == rules@.len(),
        forall|r: int|
            0 <= r < rules@.len() ==> (#[trigger] out@[r]).name == rules@[r].name && out@[r].span
                == rules@[r].span && out@[r].attributes == rules@[r].attributes && out@[r].def.ty
                == final(typing).roots@[r],
        forall|r: int| 0 <= r < rules@.len() && silent(*rules@[r].def) ==> (#[trigger] final(typing).roots@[r]).index == crate::state::UNIT_SLOT,
        forall|i: int|
            0 <= i < final(typing).deferred@.len() ==> mentions(
                *rules@[(#[trigger] final(typing).deferred@[i]).owner as int].def,
                final(typing).deferred@[i].target,
            ),
{
    let ghost rules0 = rules;
    let ghost inl = typing.inline@;
    let mut rest = rules;
    let mut out: Vec<Rule> = Vec::new();
    while rest.len() > 0
        invariant
            typing.inv(),
            typing.inline@ == inl,
            typing.inline@.len() == rules0@.len(),
            typing.roots@.len() == out@.len(),
            forall|i: int| 0 <= i < typing.errors@.len() ==> !((#[trigger] typing.errors@[i]) is UnresolvableCycle),
            out@.len() + rest@.len() == rules0@.len(),
            rest@ == rules0@.subrange(out@.len() as int, rules0@.len() as int),
            forall|r: int|
                0 <= r < out@.len() ==> (#[trigger] out@[r]).name == rules0@[r].name && out@[r].span
                    == rules0@[r].span && out@[r].attributes == rules0@[r].attributes && out@[r].def.ty
                    == typing.roots@[r],
            forall|r: int| 0 <= r < out@.len() && silent(*rules0@[r].def) ==> (#[trigger] typing.roots@[r]).index == crate::state::UNIT_SLOT,
            forall|i: int|
                0 <= i < typing.deferred@.len() ==> mentions(
                    *rules0@[(#[trigger] typing.deferred@[i]).owner as int].def,
                    typing.deferred@[i].target,
                ) && typing.deferred@[i].owner < out@.len(),
        decreases rest@.len(),
    {
        let rule = rest.remove(0);
        let ghost k = out@.len() as int;
        assert(rule == rules0@[k]);
        let ghost s0 = *typing;
        let r: usize = out.len();
        let def = typing.infer_expr(r, *rule.def);
        let ghost s1 = *typing;
        typing.push_root(def.ty);
        proof {
            assert forall|i: int| 0 <= i < typing.errors@.len() implies !((#[trigger] typing.errors@[i]) is UnresolvableCycle) by {
                if i < s0.errors@.len() {
                    assert(typing.errors@[i] == s0.errors@[i]);
                } else {
                    assert(typing.errors@[i] == s1.errors@[i]);
                }
            }
            assert forall|i: int|
                0 <= i < typing.deferred@.len() implies mentions(
                    *rules0@[(#[trigger] typing.deferred@[i]).owner as int].def,
                    typing.deferred@[i].target,
                ) && typing.deferred@[i].owner < out@.len() + 1 by {
                if i < s0.deferred@.len() {
                    assert(typing.deferred@[i] == s0.deferred@[i]);
                } else {
                    assert(s1.deferred@[i].owner == r);
                }
            }
        }
        out.push(Rule { name: rule.name, span: rule.span, def: Box::new(def), attributes: rule.attributes });
        proof {
            assert(rest@ =~= rules0@.subrange(out@.len() as int, rules0@.len() as int));
            assert forall|r2: int|
                0 <= r2 < out@.len() implies (#[trigger] out@[r2]).name == rules0@[r2].name && out@[r2].span
                    == rules0@[r2].span && out@[r2].attributes == rules0@[r2].attributes && out@[r2].def.ty
                    == typing.roots@[r2] by {
                if r2 < k {
                    assert(s0.roots@[r2] == typing.roots@[r2]);
                }
            }
            assert forall|r2: int| 0 <= r2 < out@.len() && silent(*rules0@[r2].def) implies (#[trigger] typing.roots@[r2]).index == crate::state::UNIT_SLOT by {
                if r2 < k {
                    assert(s0.roots@[r2] == typing.roots@[r2]);
                }
            }
        }
    }
    out
}

/// Types a grammar: propagation over every rule, placeholder resolution,
/// a cycle diagnostic for each rule left with a placeholder, then named-type
/// synthesis. Returns the typed grammar and the diagnostics.
pub fn type_grammar(name: String, rules: Vec<Rule>) -> (res: (Grammar, Vec<TypingError>))
    ensures
        res.0.name == name,
        res.0.rules@.len() == rules@.len(),
        res.0.named_types@.len() == rules@.len(),
        forall|r: int|
            0 <= r < rules@.len() ==> {
                &&& (#[trigger] res.0.rules@[r]).name == rules@[r].name
                &&& res.0.rules@[r].span == rules@[r].span
                &&& res.0.rules@[r].attributes == rules@[r].attributes
                &&& res.0.types.valid(res.0.rules@[r].def.ty)
            },
        forall|r: int|
            0 <= r < rules@.len() && (#[trigger] rules@[r]).spec_is_inline() ==> res.0.named_types@[r] is None,
        forall|r: int|
            0 <= r < rules@.len() && silent(*(#[trigger] rules@[r]).def) ==> res.0.types@[res.0.rules@[r].def.ty.index as int]
                is Unit && res.0.named_types@[r] is None,
        forall|r: int|
            0 <= r < rules@.len() && !(#[trigger] rules@[r]).spec_is_inline() ==> registers(
                res.0.types@[res.0.rules@[r].def.ty.index as int],
                res.0.rules@[r].def.ty,
                res.0.named_types@[r],
                rules@[r].attributes,
            ),
        forall|r: int|
            0 <= r < rules@.len() && (#[trigger] res.0.named_types@[r]) is Some ==> named_as(
                res.0.named_types@[r]->Some_0,
            ) == rules@[r].name,
        forall|rank: Seq<nat>| #[trigger] acyclic(rules@, rank) ==> forall|k: int|
            0 <= k < res.0.types@.len() ==> !is_ph(#[trigger] res.0.types@[k]),
        forall|rank: Seq<nat>| #[trigger] acyclic(rules@, rank) ==> forall|i: int|
            0 <= i < res.1@.len() ==> !((#[trigger] res.1@[i]) is UnresolvableCycle),
        res.1@.len() == 0 ==> forall|k: int| 0 <= k < res.0.types@.len() ==> !is_ph(#[trigger] res.0.types@[k]),
        forall|q: Ident|
            q < rules@.len() ==> (pending(res.0.deferred@, q as int) <==> #[trigger] reported(res.1@, q, rules@[q as int].span)),
        forall|k: int| 0 <= k < res.0.types@.len() && is_ph(#[trigger] res.0.types@[k]) ==> tracked_slot(res.0.deferred@, k),
        (forall|q: int| 0 <= q < rules@.len() ==> !(#[trigger] rules@[q]).spec_is_inline()) && (forall|q: int|
            0 <= q < rules@.len() ==> !is_ph(#[trigger] res.0.types@[res.0.rules@[q].def.ty.index as int])) ==> res.1@
            .len() == res.1@.len() && (forall|k: int| 0 <= k < res.0.types@.len() ==> !is_ph(#[trigger] res.0.types@[k]))
            && forall|i: int| 0 <= i < res.1@.len() ==> !((#[trigger] res.1@[i]) is UnresolvableCycle),
{
    let inline = styles(&rules);
    let ghost inl = inline@;
    let n = rules.len();
    let mut typing = Typing::new(inline);
    let ghost rules0 = rules;
    let typed = infer_rules(&mut typing, rules);
    let ghost s1 = typing;
    proof {
        assert forall|rank: Seq<nat>| #[trigger] acyclic(rules0@, rank) implies ranked(typing.deferred@, rank) by {
            assert forall|i: int| 0 <= i < typing.deferred@.len() implies rank[(#[trigger] typing.deferred@[i]).target as int]
                < rank[typing.deferred@[i].owner as int] by {
                let e = typing.deferred@[i];
                assert(mentions(*rules0@[e.owner as int].def, e.target));
            }
        }
    }
    let _rounds = typing.resolve();
    let ghost s2 = typing;
    proof {
        if all_resolved(typing.deferred@) {
            assert(typing.placeholder_free());
        }
    }
    let mut r: usize = 0;
    while r < n
        invariant
            typing.inv(),
            typing.arena@ == s2.arena@,
            typing.roots@ == s2.roots@,
            typing.deferred@ == s2.deferred@,
            all_resolved(typing.deferred@) ==> typing.errors@ == s2.errors@,
            typing.errors@.len() >= s2.errors@.len(),
            (exists|q: int| 0 <= q < r && pending(typing.deferred@, q)) ==> typing.errors@.len() > 0,
            typing.inline@.len() == n,
            typing.roots@.len() == n,
            typed@.len() == n,
            r <= n,
            forall|i: int| 0 <= i < s2.errors@.len() ==> !((#[trigger] s2.errors@[i]) is UnresolvableCycle),
            forall|i: int|
                0 <= i < typing.errors@.len() && (#[trigger] typing.errors@[i]) is UnresolvableCycle ==> exists|q: Ident|
                    q < r && typing.errors@[i] == (TypingError::UnresolvableCycle { rule: q, span: typed@[q as int].span }),
            forall|i: int| 0 <= i < s2.errors@.len() ==> #[trigger] typing.errors@[i] == s2.errors@[i],
            forall|q: Ident| q < r ==> (pending(typing.deferred@, q as int) <==> #[trigger] reported(typing.errors@, q, typed@[q as int].span)),
        decreases n - r,
    {
        let ghost e0 = typing.errors@;
        if typing.has_pending(r) {
            typing.errors.push(TypingError::UnresolvableCycle { rule: r, span: typed[r].span });
            proof {
                let e1 = typing.errors@;
                assert(e1[e0.len() as int] == (TypingError::UnresolvableCycle { rule: r, span: typed@[r as int].span }));
                assert forall|q: Ident| q < r + 1 implies (pending(typing.deferred@, q as int) <==> #[trigger] reported(e1, q, typed@[q as int].span)) by {
                    if q < r {
                        if reported(e1, q, typed@[q as int].span) {
                            let i = choose|i: int| 0 <= i < e1.len() && e1[i] == (TypingError::UnresolvableCycle { rule: q, span: typed@[q as int].span });
                            assert(i < e0.len());
                            assert(e0[i] == e1[i]);
                        }
                        if reported(e0, q, typed@[q as int].span) {
                            let i = choose|i: int| 0 <= i < e0.len() && e0[i] == (TypingError::UnresolvableCycle { rule: q, span: typed@[q as int].span });
                            assert(e1[i] == e0[i]);
                        }
                    }
                }
                assert forall|i: int|
                    0 <= i < e1.len() && (#[trigger] e1[i]) is UnresolvableCycle implies exists|q: Ident|
                        q < r + 1 && e1[i] == (TypingError::UnresolvableCycle { rule: q, span: typed@[q as int].span }) by {
                    if i < e0.len() {
                        assert(e1[i] == e0[i]);
                    }
                }
            }
        } else {
            proof {
                if reported(e0, r, typed@[r as int].span) {
                    let i = choose|i: int| 0 <= i < e0.len() && e0[i] == (TypingError::UnresolvableCycle { rule: r, span: typed@[r as int].span });
                    assert(e0[i] is UnresolvableCycle);
                }
            }
        }
        r = r + 1;
    }
    proof {
        if !all_resolved(typing.deferred@) {
            let i = choose|i: int| 0 <= i < typing.deferred@.len() && !(#[trigger] typing.deferred@[i]).resolved;
            assert(pending(typing.deferred@, typing.deferred@[i].owner as int));
        } else {
            assert(typing.placeholder_free());
        }
    }
    let ghost s3 = typing;
    let mut named: Vec<Option<NamedExpressionType>> = Vec::new();
    let mut r: usize = 0;
    while r < n
        invariant
            typing.inv(),
            typing.arena@ == s2.arena@,
            typing.errors@ == s3.errors@,
            typing.deferred@ == s2.deferred@,
            typing.roots@.len() == n,
            typed@.len() == n,
            r <= n,
            named@.len() == r,
            forall|q: int| 0 <= q < n ==> (#[trigger] typed@[q]).def.ty == typing.roots@[q],
            forall|q: int| 0 <= q < r && (#[trigger] typed@[q]).spec_is_inline() ==> named@[q] is None,
            forall|q: int| 0 <= q < n && silent(*rules0@[q].def) ==> (#[trigger] typing.roots@[q]).index == crate::state::UNIT_SLOT,
            forall|q: int|
                0 <= q < r && !(#[trigger] typed@[q]).spec_is_inline() ==> registers(
                    typing.arena@[typed@[q].def.ty.index as int],
                    typed@[q].def.ty,
                    named@[q],
                    typed@[q].attributes,
                ),
            forall|q: int|
                0 <= q < r && (#[trigger] named@[q]) is Some ==> named_as(named@[q]->Some_0) == typed@[q].name,
        decreases n - r,
    {
        let root = typed[r].def.ty;
        named.push(synthesize_rule(&typing.arena, &typed[r], root));
        r = r + 1;
    }
    proof {
        assert forall|rank: Seq<nat>| #[trigger] acyclic(rules0@, rank) implies forall|k: int|
            0 <= k < s2.arena@.len() ==> !is_ph(#[trigger] s2.arena@[k]) by {
            assert(ranked(s1.deferred@, rank));
        }
        assert forall|rank: Seq<nat>| #[trigger] acyclic(rules0@, rank) implies forall|i: int|
            0 <= i < s3.errors@.len() ==> !((#[trigger] s3.errors@[i]) is UnresolvableCycle) by {
            assert(ranked(s1.deferred@, rank));
            assert(s2.errors@ == s1.errors@);
        }
        if s3.errors@.len() == 0 {
            assert(all_resolved(s3.deferred@));
        }
    }
    proof {
        assert forall|q: Ident| q < n implies (pending(typing.deferred@, q as int) <==> #[trigger] reported(
            typing.errors@,
            q,
            rules0@[q as int].span,
        )) by {
            assert(typed@[q as int].span == rules0@[q as int].span);
            assert(pending(s3.deferred@, q as int) <==> reported(s3.errors@, q, typed@[q as int].span));
        }
        if (forall|q: int| 0 <= q < rules0@.len() ==> !(#[trigger] rules0@[q]).spec_is_inline()) && (forall|q: int|
            0 <= q < rules0@.len() ==> !is_ph(#[trigger] typing.arena@[typed@[q].def.ty.index as int])) {
            assert forall|t: int| 0 <= t < s2.inline@.len() implies !(#[trigger] s2.inline@[t]) by {
                assert(inl[t] == rules0@[t].spec_is_inline());
            }
            assert forall|t: int| 0 <= t < s2.roots@.len() implies !is_ph(#[trigger] s2.slot(s2.roots@[t])) by {
                assert(typed@[t].def.ty == s2.roots@[t]);
                assert(!is_ph(typing.arena@[typed@[t].def.ty.index as int]));
            }
            lemma_named_rules_resolve(&s2);
        }
    }
    (Grammar { name, rules: typed, named_types: named, types: typing.arena, deferred: typing.deferred }, typing.errors)
}

} // verus!
