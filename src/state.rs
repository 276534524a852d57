use vstd::prelude::*;
use crate::ast::Span;
use crate::types::{rule_of, same_shape, spec_is_unit, ExpressionType, Ident, PTy, TypeArena};

verus! {

/// A placeholder slot created for a reference from rule `owner` to rule
/// `target` whose type was not final yet.
#[derive(Clone, Copy, Debug, PartialEq, Eq, Structural)]
pub struct Deferred {
    pub owner: Ident,
    pub target: Ident,
    pub slot: PTy,
    pub resolved: bool,
}

/// A diagnostic on the grammar.
#[derive(Clone, Copy, Debug, PartialEq, Eq, Structural)]
pub enum TypingError {
    /// Rule `rule` refers, at `span`, to `target`, which is not a rule.
    UndefinedRule { rule: Ident, span: Span, target: Ident },
    /// The type of rule `rule` depends on itself through references that
    /// never reach a final type.
    UnresolvableCycle { rule: Ident, span: Span },
    /// The type store has no room left for the node at `span` of `rule`.
    TypeStoreFull { rule: Ident, span: Span },
}

/// The slot shared by every node of unit type.
pub const UNIT_SLOT: usize = 0;

/// The working state of inference over a grammar.
#[derive(Debug)]
pub struct Typing {
    pub arena: TypeArena,
    /// Every placeholder slot ever created, with its resolution status.
    pub deferred: Vec<Deferred>,
    /// The style of each rule of the grammar.
    pub inline: Vec<bool>,
    /// The public slot of each rule typed so far, in rule order.
    pub roots: Vec<PTy>,
    pub errors: Vec<TypingError>,
}

pub open spec fn is_ph(t: ExpressionType) -> bool {
    t is RuleTypePlaceholder
}

/// Rule `r` still has an unresolved placeholder.
pub open spec fn pending(d: Seq<Deferred>, r: int) -> bool {
    exists|i: int| 0 <= i < d.len() && (#[trigger] d[i]).owner == r && !d[i].resolved
}

/// Slot `k` is the slot of an unresolved entry.
pub open spec fn tracked_slot(d: Seq<Deferred>, k: int) -> bool {
    exists|i: int| 0 <= i < d.len() && (#[trigger] d[i]).slot.index == k && !d[i].resolved
}

/// Slot `h` is the slot of an unresolved entry of rule `r`.
pub open spec fn owned_slot(d: Seq<Deferred>, h: PTy, r: Ident) -> bool {
    exists|i: int| 0 <= i < d.len() && (#[trigger] d[i]).slot == h && d[i].owner == r && !d[i].resolved
}

/// Slot `k` of `a` holds what resolving a placeholder for rule `t` gives:
/// for an inline rule, a copy of the rule's final public slot; for a named
/// rule whose type is unit, unit; for any other named rule, a reference to
/// its named type.
pub open spec fn resolved_as(a: Seq<ExpressionType>, roots: Seq<PTy>, inline: Seq<bool>, k: int, t: Ident) -> bool {
    if inline[t as int] {
        roots[t as int].index < a.len() && !is_ph(a[roots[t as int].index as int]) && same_shape(a[k], a[roots[t as int].index as int])
    } else {
        &&& roots[t as int].index < a.len()
        &&& !is_ph(a[roots[t as int].index as int])
        &&& a[k] == if spec_is_unit(a[roots[t as int].index as int]) {
            ExpressionType::Unit
        } else {
            ExpressionType::RuleTypeName(t)
        }
    }
}

/// `a2` is `a1` with some placeholders resolved: every other slot keeps its
/// content, and a rebound slot holds the resolution of its placeholder.
pub open spec fn settled(a1: Seq<ExpressionType>, a2: Seq<ExpressionType>, roots: Seq<PTy>, inline: Seq<bool>) -> bool {
    &&& a2.len() == a1.len()
    &&& forall|k: int|
        0 <= k < a1.len() ==> #[trigger] a2[k] == a1[k] || (is_ph(a1[k]) && resolved_as(a2, roots, inline, k, rule_of(a1[k])))
}

impl Typing {
    pub open spec fn slot(&self, h: PTy) -> ExpressionType {
        self.arena@[h.index as int]
    }

    /// The invariant of the working state.
    pub open spec fn inv(&self) -> bool {
        let a = self.arena@;
        let d = self.deferred@;
        &&& self.arena.wf()
        &&& a.len() >= 1
        &&& a[UNIT_SLOT as int] is Unit
        &&& forall|k: int| 0 <= k < a.len() ==> !((#[trigger] a[k]) is UnitPropagate)
        &&& self.roots@.len() <= self.inline@.len()
        &&& forall|r: int| 0 <= r < self.roots@.len() ==> (#[trigger] self.roots@[r]).index < a.len()
        &&& forall|i: int| 0 <= i < d.len() ==> {
            &&& (#[trigger] d[i]).slot.index < a.len()
            &&& d[i].owner < self.inline@.len()
            &&& d[i].target < self.inline@.len()
            &&& !d[i].resolved ==> a[d[i].slot.index as int] == ExpressionType::RuleTypePlaceholder(d[i].target)
        }
        &&& forall|i: int, j: int| 0 <= i < d.len() && 0 <= j < d.len() && i != j ==> (#[trigger] d[i]).slot != (#[trigger] d[j]).slot
        &&& forall|k: int| 0 <= k < a.len() && is_ph(#[trigger] a[k]) ==> tracked_slot(d, k)
        &&& forall|r: int| 0 <= r < self.roots@.len() && is_ph(a[(#[trigger] self.roots@[r]).index as int]) ==> owned_slot(d, self.roots@[r], r as Ident)
    }

    /// The arena holds no placeholder at all.
    pub open spec fn placeholder_free(&self) -> bool {
        forall|k: int| 0 <= k < self.arena@.len() ==> !is_ph(#[trigger] self.arena@[k])
    }
}

} // verus!
