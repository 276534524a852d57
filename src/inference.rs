use vstd::prelude::*;
use crate::ast::{all_silent, is_terminal, lemma_all_silent, mentioned, mentions, silent, node_kind, Expression, ExpressionNode, Span};
use crate::resolution::target_ready;
use crate::state::{is_ph, owned_slot, tracked_slot, Deferred, Typing, TypingError, UNIT_SLOT};
use crate::types::{children, children_below, lemma_struct_eq_stable, make_pty, same_shape, same_type, spec_is_unit, ExpressionType, Ident, PTy, TypeArena};

verus! {

broadcast use vstd::std_specs::vec::group_vec_axioms;

/// The slots among `hs` whose type is not unit, in order.
pub open spec fn survivors(a: Seq<ExpressionType>, hs: Seq<PTy>) -> Seq<PTy>
    decreases hs.len(),
{
    if hs.len() == 0 {
        hs
    } else if spec_is_unit(a[hs.last().index as int]) {
        survivors(a, hs.drop_last())
    } else {
        survivors(a, hs.drop_last()).push(hs.last())
    }
}

/// The type slots of a list of expressions.
pub open spec fn slots_of(v: Seq<Expression>) -> Seq<PTy> {
    v.map_values(|c: Expression| c.ty)
}

/// `s2` grew from `s1` while typing rule `r`: slots and entries were only
/// added, every new entry belongs to `r` and is unresolved.
pub open spec fn extends(s1: &Typing, s2: &Typing, r: Ident) -> bool {
    &&& s2.inline@ == s1.inline@
    &&& s2.roots@ == s1.roots@
    &&& s2.arena@.len() >= s1.arena@.len()
    &&& forall|k: int| 0 <= k < s1.arena@.len() ==> #[trigger] s2.arena@[k] == s1.arena@[k]
    &&& s2.deferred@.len() >= s1.deferred@.len()
    &&& forall|i: int| 0 <= i < s1.deferred@.len() ==> #[trigger] s2.deferred@[i] == s1.deferred@[i]
    &&& forall|i: int|
        s1.deferred@.len() <= i < s2.deferred@.len() ==> (#[trigger] s2.deferred@[i]).owner == r
            && !s2.deferred@[i].resolved
    &&& s2.errors@.len() >= s1.errors@.len()
    &&& forall|i: int| 0 <= i < s1.errors@.len() ==> #[trigger] s2.errors@[i] == s1.errors@[i]
    &&& forall|i: int| s1.errors@.len() <= i < s2.errors@.len() ==> !((#[trigger] s2.errors@[i]) is UnresolvableCycle)
}

proof fn lemma_extends_trans(s1: &Typing, s2: &Typing, s3: &Typing, r: Ident)
    requires
        extends(s1, s2, r),
        extends(s2, s3, r),
    ensures
        extends(s1, s3, r),
{
    assert forall|k: int| 0 <= k < s1.arena@.len() implies #[trigger] s3.arena@[k] == s1.arena@[k] by {
        assert(s2.arena@[k] == s1.arena@[k]);
    }
    assert forall|i: int| 0 <= i < s1.deferred@.len() implies #[trigger] s3.deferred@[i] == s1.deferred@[i] by {
        assert(s2.deferred@[i] == s1.deferred@[i]);
    }
    assert forall|i: int|
        s1.deferred@.len() <= i < s3.deferred@.len() implies (#[trigger] s3.deferred@[i]).owner == r
            && !s3.deferred@[i].resolved by {
        if i < s2.deferred@.len() {
            assert(s2.deferred@[i].owner == r);
        }
    }
    assert forall|i: int| 0 <= i < s1.errors@.len() implies #[trigger] s3.errors@[i] == s1.errors@[i] by {
        assert(s2.errors@[i] == s1.errors@[i]);
    }
    assert forall|i: int| s1.errors@.len() <= i < s3.errors@.len() implies !((#[trigger] s3.errors@[i]) is UnresolvableCycle) by {
        if i < s2.errors@.len() {
            assert(s3.errors@[i] == s2.errors@[i]);
        }
    }
}

proof fn lemma_survivors_stable(a1: Seq<ExpressionType>, a2: Seq<ExpressionType>, hs: Seq<PTy>)
    requires
        a2.len() >= a1.len(),
        forall|k: int| 0 <= k < a1.len() ==> #[trigger] a2[k] == a1[k],
        forall|j: int| 0 <= j < hs.len() ==> (#[trigger] hs[j]).index < a1.len(),
    ensures
        survivors(a2, hs) == survivors(a1, hs),
    decreases hs.len(),
{
    if hs.len() > 0 {
        assert(hs.last().index < a1.len());
        lemma_survivors_stable(a1, a2, hs.drop_last());
    }
}

proof fn lemma_survivors_all_unit(a: Seq<ExpressionType>, hs: Seq<PTy>)
    requires
        forall|j: int| 0 <= j < hs.len() ==> spec_is_unit(a[(#[trigger] hs[j]).index as int]),
    ensures
        survivors(a, hs).len() == 0,
    decreases hs.len(),
{
    if hs.len() > 0 {
        let hd = hs.drop_last();
        assert forall|j: int| 0 <= j < hd.len() implies spec_is_unit(a[(#[trigger] hd[j]).index as int]) by {
            assert(hd[j] == hs[j]);
        }
        assert(spec_is_unit(a[hs[hs.len() - 1].index as int]));
        lemma_survivors_all_unit(a, hd);
    }
}

proof fn lemma_survivors_facts(a: Seq<ExpressionType>, hs: Seq<PTy>, p: spec_fn(PTy) -> bool)
    requires
        forall|j: int| 0 <= j < hs.len() ==> p(#[trigger] hs[j]),
    ensures
        forall|j: int| 0 <= j < survivors(a, hs).len() ==> p(#[trigger] survivors(a, hs)[j]),
    decreases hs.len(),
{
    if hs.len() > 0 {
        let hd = hs.drop_last();
        assert forall|j: int| 0 <= j < hd.len() implies p(#[trigger] hd[j]) by {
            assert(hd[j] == hs[j]);
        }
        lemma_survivors_facts(a, hd, p);
        assert(p(hs[hs.len() - 1]));
        let sv = survivors(a, hs);
        let sd = survivors(a, hd);
        assert forall|j: int| 0 <= j < sv.len() implies p(#[trigger] sv[j]) by {
            if j < sd.len() {
                assert(sv[j] == sd[j]);
            }
        }
    }
}

/// Owning an unresolved slot survives growth of the entry list.
proof fn lemma_owned_grows(s1: &Typing, s2: &Typing, h: PTy, r: Ident)
    requires
        extends(s1, s2, r),
        owned_slot(s1.deferred@, h, r),
    ensures
        owned_slot(s2.deferred@, h, r),
{
    let j = choose|j: int| 0 <= j < s1.deferred@.len() && (#[trigger] s1.deferred@[j]).slot == h && s1.deferred@[j].owner == r && !s1.deferred@[j].resolved;
    assert(s2.deferred@[j] == s1.deferred@[j]);
}

/// Every slot of `hs` holds a type structurally identical to the first.
pub open spec fn all_same_type(a: Seq<ExpressionType>, hs: Seq<PTy>) -> bool {
    forall|j: int| 0 <= j < hs.len() ==> same_type(a, #[trigger] hs[j], hs[0])
}

/// `alts` is covered by `cs`: each slot of `cs` is one of `alts`, no two
/// slot of `cs` is structurally identical to an earlier one, and each slot of `alts` is
/// structurally identical to some slot of `cs`.
pub open spec fn covers(a: Seq<ExpressionType>, cs: Seq<PTy>, alts: Seq<PTy>) -> bool {
    &&& forall|k: int| 0 <= k < cs.len() ==> alts.contains(#[trigger] cs[k])
    &&& forall|k1: int, k2: int| 0 <= k1 < k2 < cs.len() ==> !same_type(a, #[trigger] cs[k2], #[trigger] cs[k1])
    &&& forall|j: int|
        0 <= j < alts.len() ==> exists|k: int| 0 <= k < cs.len() && same_type(a, #[trigger] alts[j], cs[k])
}

/// Slot `h` types a repetition (`vector`) or an option of the child typed
/// at slot `c`.
pub open spec fn wrapped(a: Seq<ExpressionType>, h: PTy, c: PTy, vector: bool) -> bool {
    &&& spec_is_unit(a[c.index as int]) ==> h.index == UNIT_SLOT
    &&& !spec_is_unit(a[c.index as int]) && a.len() < usize::MAX ==> a[h.index as int] == if vector {
        ExpressionType::Vector(c)
    } else {
        ExpressionType::OptionalTy(c)
    }
}

/// Slot `h` types a sequence whose children are typed at `hs`.
pub open spec fn sequenced(a: Seq<ExpressionType>, h: PTy, hs: Seq<PTy>) -> bool {
    let sv = survivors(a, hs);
    &&& sv.len() == 0 ==> h.index == UNIT_SLOT
    &&& sv.len() == 1 ==> h == sv[0]
    &&& sv.len() > 1 && a.len() < usize::MAX ==> a[h.index as int] is Tuple && children(a[h.index as int]) == sv
}

/// Slot `h` types a choice whose alternatives are typed at `hs`.
pub open spec fn chosen(a: Seq<ExpressionType>, h: PTy, hs: Seq<PTy>) -> bool {
    &&& hs.len() == 0 ==> h.index == UNIT_SLOT
    &&& hs.len() > 0 && all_same_type(a, hs) ==> h == hs[0]
    &&& hs.len() > 0 && !all_same_type(a, hs) && a.len() < usize::MAX ==> a[h.index as int] is UnnamedSum
        && covers(a, children(a[h.index as int]), hs)
}

/// Comparing slots among `hs` gives the same answer after growth.
proof fn lemma_types_stable(s1: &Typing, s2: &Typing, hs: Seq<PTy>, r: Ident)
    requires
        s1.inv(),
        extends(s1, s2, r),
        forall|j: int| 0 <= j < hs.len() ==> (#[trigger] hs[j]).index < s1.arena@.len(),
    ensures
        forall|x: PTy, y: PTy|
            hs.contains(x) && hs.contains(y) ==> #[trigger] same_type(s2.arena@, x, y) == same_type(s1.arena@, x, y),
{
    assert forall|x: PTy, y: PTy| hs.contains(x) && hs.contains(y) implies #[trigger] same_type(s2.arena@, x, y)
        == same_type(s1.arena@, x, y) by {
        lemma_struct_eq_stable(s1.arena@, s2.arena@, x, y, usize::MAX as nat);
    }
}

/// A typed slot of rule `r`: valid, and a placeholder only if `r` owns it.
pub open spec fn good_slot(s: &Typing, h: PTy, r: Ident) -> bool {
    &&& h.index < s.arena@.len()
    &&& is_ph(s.slot(h)) ==> owned_slot(s.deferred@, h, r)
}

proof fn lemma_good_grows(s1: &Typing, s2: &Typing, h: PTy, r: Ident)
    requires
        extends(s1, s2, r),
        good_slot(s1, h, r),
    ensures
        good_slot(s2, h, r),
{
    assert(s2.arena@[h.index as int] == s1.arena@[h.index as int]);
    if is_ph(s1.slot(h)) {
        lemma_owned_grows(s1, s2, h, r);
    }
}

impl Typing {
    /// A fresh state for a grammar whose rules have the given styles.
    pub fn new(inline: Vec<bool>) -> (s: Typing)
        ensures
            s.inv(),
            s.inline@ == inline@,
            s.roots@.len() == 0,
            s.deferred@.len() == 0,
            s.errors@.len() == 0,
            s.arena@ == seq![ExpressionType::Unit],
    {
        let mut arena = TypeArena::new();
        let _ = make_pty(&mut arena, ExpressionType::Unit);
        Typing { arena, deferred: Vec::new(), inline, roots: Vec::new(), errors: Vec::new() }
    }

    /// Pushes a fresh slot holding `t`; when the store is full, reports it
    /// and hands out the shared unit slot instead.
    fn new_slot(&mut self, t: ExpressionType, rule: Ident, span: Span) -> (h: PTy)
        requires
            old(self).inv(),
            children_below(t, old(self).arena@.len()),
            !is_ph(t),
            !(t is UnitPropagate),
        ensures
            final(self).inv(),
            extends(old(self), final(self), rule),
            final(self).deferred@ == old(self).deferred@,
            old(self).arena@.len() < usize::MAX ==> final(self).arena@ == old(self).arena@.push(t) && h.index == old(self).arena@.len(),
            old(self).arena@.len() >= usize::MAX ==> final(self).arena@ == old(self).arena@ && h.index == UNIT_SLOT,
    {
        if self.arena.len() == usize::MAX {
            self.errors.push(TypingError::TypeStoreFull { rule, span });
            return PTy { index: UNIT_SLOT };
        }
        let ghost s0 = *self;
        let h = make_pty(&mut self.arena, t);
        proof {
            let a = self.arena@;
            let d = self.deferred@;
            assert forall|k: int| 0 <= k < a.len() && is_ph(#[trigger] a[k]) implies tracked_slot(d, k) by {
                assert(k < s0.arena@.len());
                assert(a[k] == s0.arena@[k]);
            }
            assert forall|r: int|
                0 <= r < self.roots@.len() && is_ph(a[(#[trigger] self.roots@[r]).index as int])
                    implies owned_slot(d, self.roots@[r], r as Ident) by {
                assert(a[self.roots@[r].index as int] == s0.arena@[self.roots@[r].index as int]);
            }
            assert forall|i: int| 0 <= i < d.len() implies {
                &&& (#[trigger] d[i]).slot.index < a.len()
                &&& d[i].owner < self.inline@.len()
                &&& d[i].target < self.inline@.len()
                &&& !d[i].resolved ==> a[d[i].slot.index as int] == ExpressionType::RuleTypePlaceholder(d[i].target)
            } by {
                assert(s0.deferred@[i].slot.index < s0.arena@.len());
            }
        }
        h
    }

    /// Pushes a fresh placeholder slot for a reference from `rule` to
    /// `target`, and records it; when the store is full, reports it and hands
    /// out the shared unit slot instead.
    fn new_placeholder(&mut self, rule: Ident, target: Ident, span: Span) -> (h: PTy)
        requires
            old(self).inv(),
            rule < old(self).inline@.len(),
            target < old(self).inline@.len(),
        ensures
            final(self).inv(),
            extends(old(self), final(self), rule),
            forall|i: int|
                old(self).deferred@.len() <= i < final(self).deferred@.len() ==> (#[trigger] final(self).deferred@[i]).target
                    == target,
            h.index < final(self).arena@.len(),
            is_ph(final(self).slot(h)) ==> owned_slot(final(self).deferred@, h, rule),
            old(self).arena@.len() < usize::MAX ==> final(self).slot(h) == ExpressionType::RuleTypePlaceholder(target)
                && h.index == old(self).arena@.len() && final(self).errors@ == old(self).errors@,
    {
        if self.arena.len() == usize::MAX {
            self.errors.push(TypingError::TypeStoreFull { rule, span });
            return PTy { index: UNIT_SLOT };
        }
        let ghost s0 = *self;
        let h = make_pty(&mut self.arena, ExpressionType::RuleTypePlaceholder(target));
        self.deferred.push(Deferred { owner: rule, target, slot: h, resolved: false });
        proof {
            let a = self.arena@;
            let d = self.deferred@;
            let n = s0.deferred@.len() as int;
            assert(d[n].slot == h);
            assert forall|k: int| 0 <= k < a.len() && is_ph(#[trigger] a[k]) implies tracked_slot(d, k) by {
                if k < s0.arena@.len() {
                    assert(a[k] == s0.arena@[k]);
                    assert(tracked_slot(s0.deferred@, k));
                    let j = choose|j: int| 0 <= j < s0.deferred@.len() && (#[trigger] s0.deferred@[j]).slot.index == k && !s0.deferred@[j].resolved;
                    assert(d[j] == s0.deferred@[j]);
                } else {
                    assert(d[n].slot.index == k);
                }
            }
            assert forall|r: int|
                0 <= r < self.roots@.len() && is_ph(a[(#[trigger] self.roots@[r]).index as int])
                    implies owned_slot(d, self.roots@[r], r as Ident) by {
                assert(a[self.roots@[r].index as int] == s0.arena@[self.roots@[r].index as int]);
                assert(owned_slot(s0.deferred@, self.roots@[r], r as Ident));
                let j = choose|j: int| 0 <= j < s0.deferred@.len() && (#[trigger] s0.deferred@[j]).slot == self.roots@[r] && s0.deferred@[j].owner == r as Ident && !s0.deferred@[j].resolved;
                assert(d[j] == s0.deferred@[j]);
            }
            assert forall|i: int| 0 <= i < d.len() implies {
                &&& (#[trigger] d[i]).slot.index < a.len()
                &&& d[i].owner < self.inline@.len()
                &&& d[i].target < self.inline@.len()
                &&& !d[i].resolved ==> a[d[i].slot.index as int] == ExpressionType::RuleTypePlaceholder(d[i].target)
            } by {
                if i < n {
                    assert(d[i] == s0.deferred@[i]);
                    assert(s0.deferred@[i].slot.index < s0.arena@.len());
                }
            }
            assert forall|i: int, j: int| 0 <= i < d.len() && 0 <= j < d.len() && i != j implies (#[trigger] d[i]).slot != (#[trigger] d[j]).slot by {
                if i < n && j < n {
                    assert(s0.deferred@[i].slot != s0.deferred@[j].slot);
                } else if i < n {
                    assert(s0.deferred@[i].slot.index < s0.arena@.len());
                } else if j < n {
                    assert(s0.deferred@[j].slot.index < s0.arena@.len());
                }
            }
            assert(owned_slot(d, h, rule));
        }
        h
    }

    /// The type of a reference from rule `r` to rule `t`: the target's public
    /// slot itself when its type is final and the target is not inline, a
    /// copy of that type when the target is inline, and a fresh placeholder
    /// when the target's type is not final yet.
    fn infer_reference(&mut self, r: Ident, t: Ident, span: Span) -> (h: PTy)
        requires
            old(self).inv(),
            r == old(self).roots@.len(),
            r < old(self).inline@.len(),
        ensures
            final(self).inv(),
            extends(old(self), final(self), r),
            forall|i: int|
                old(self).deferred@.len() <= i < final(self).deferred@.len() ==> (#[trigger] final(self).deferred@[i]).target == t,
            good_slot(final(self), h, r),
            t >= old(self).inline@.len() ==> h.index == UNIT_SLOT && final(self).errors@ == old(self).errors@.push(
                TypingError::UndefinedRule { rule: r, span, target: t },
            ),
            t < old(self).roots@.len() && target_ready(old(self), t) && !old(self).inline@[t as int] ==> h
                == old(self).roots@[t as int],
            t < old(self).roots@.len() && target_ready(old(self), t) && old(self).inline@[t as int]
                && final(self).arena@.len() < usize::MAX ==> same_shape(final(self).slot(h), old(self).slot(old(self).roots@[t as int]))
                && h.index == old(self).arena@.len(),
            t < old(self).inline@.len() && !(t < old(self).roots@.len() && target_ready(old(self), t))
                && final(self).arena@.len() < usize::MAX ==> final(self).slot(h) == ExpressionType::RuleTypePlaceholder(t)
                && h.index == old(self).arena@.len() && final(self).errors@ == old(self).errors@,
    {
        if t >= self.inline.len() {
            self.errors.push(TypingError::UndefinedRule { rule: r, span, target: t });
            return PTy { index: UNIT_SLOT };
        }
        if t < self.roots.len() && self.is_target_ready(t) {
            let root = self.roots[t];
            if self.inline[t] {
                proof {
                    if is_ph(self.slot(root)) {
                        assert(owned_slot(self.deferred@, root, t));
                        let j = choose|j: int|
                            0 <= j < self.deferred@.len() && (#[trigger] self.deferred@[j]).slot == root
                                && self.deferred@[j].owner == t && !self.deferred@[j].resolved;
                        assert(crate::state::pending(self.deferred@, t as int));
                    }
                    assert(children_below(self.slot(root), self.arena@.len()));
                }
                let content = self.arena.get(root);
                let ghost s0 = *self;
                let h = self.new_slot(content, r, span);
                proof {
                    assert(self.arena@[UNIT_SLOT as int] is Unit);
                    if s0.arena@.len() < usize::MAX {
                        assert(self.slot(h) == content);
                    }
                    assert(!is_ph(s0.slot(root)));
                    assert(!is_ph(content));
                    if s0.arena@.len() >= usize::MAX {
                        assert(self.slot(h) is Unit);
                    }
                }
                h
            } else {
                assert(good_slot(self, root, r));
                root
            }
        } else {
            self.new_placeholder(r, t, span)
        }
    }

    /// The type of a sequence whose children are typed: the children of unit
    /// type drop out; none left gives unit, one left gives that child's slot
    /// itself, more give a tuple of their slots.
    fn sequence_type(&mut self, r: Ident, span: Span, out: &Vec<Expression>) -> (h: PTy)
        requires
            old(self).inv(),
            forall|j: int| 0 <= j < out@.len() ==> good_slot(old(self), (#[trigger] out@[j]).ty, r),
        ensures
            final(self).inv(),
            extends(old(self), final(self), r),
            final(self).deferred@ == old(self).deferred@,
            good_slot(final(self), h, r),
            ({
                let sv = survivors(old(self).arena@, slots_of(out@));
                &&& sv.len() == 0 ==> h.index == UNIT_SLOT
                &&& sv.len() == 1 ==> h == sv[0]
                &&& sv.len() > 1 && final(self).arena@.len() < usize::MAX ==> final(self).slot(h) is Tuple
                    && children(final(self).slot(h)) == sv
            }),
    {
        let ghost hs = slots_of(out@);
        let mut surv: Vec<PTy> = Vec::new();
        let mut i: usize = 0;
        while i < out.len()
            invariant
                self.inv(),
                i <= out@.len(),
                hs == slots_of(out@),
                forall|j: int| 0 <= j < out@.len() ==> good_slot(self, (#[trigger] out@[j]).ty, r),
                surv@ == survivors(self.arena@, hs.subrange(0, i as int)),
            decreases out@.len() - i,
        {
            let h = out[i].ty;
            assert(good_slot(self, out@[i as int].ty, r));
            let content = self.arena.get(h);
            let eff = content.propagate(h, |x: PTy| -> (y: PTy) ensures y == x { x });
            proof {
                assert(hs.subrange(0, i + 1).drop_last() =~= hs.subrange(0, i as int));
                assert(hs.subrange(0, i + 1).last() == h);
            }
            if !self.arena.is_unit_at(eff) {
                surv.push(eff);
            }
            i = i + 1;
        }
        proof {
            assert(hs.subrange(0, out@.len() as int) =~= hs);
            lemma_survivors_facts(self.arena@, hs, |x: PTy| good_slot(self, x, r));
        }
        let ghost sv = surv@;
        if surv.len() == 0 {
            PTy { index: UNIT_SLOT }
        } else if surv.len() == 1 {
            surv[0]
        } else {
            proof {
                assert forall|j: int| 0 <= j < sv.len() implies (#[trigger] sv[j]).index < self.arena@.len() by {
                    assert(good_slot(self, sv[j], r));
                }
            }
            let h = self.new_slot(ExpressionType::Tuple(surv), r, span);
            proof {
                if self.arena@.len() < usize::MAX {
                    assert(self.slot(h) == ExpressionType::Tuple(surv));
                }
            }
            h
        }
    }

    /// The type of a choice whose alternatives are typed: the slot of the
    /// first alternative when every alternative has its shape, else an
    /// untagged sum of the alternatives of distinct shape, in order of
    /// first appearance.
    #[verifier::rlimit(60)]
    fn choice_type(&mut self, r: Ident, span: Span, out: &Vec<Expression>) -> (h: PTy)
        requires
            old(self).inv(),
            forall|j: int| 0 <= j < out@.len() ==> good_slot(old(self), (#[trigger] out@[j]).ty, r),
        ensures
            final(self).inv(),
            extends(old(self), final(self), r),
            final(self).deferred@ == old(self).deferred@,
            good_slot(final(self), h, r),
            out@.len() == 0 ==> h.index == UNIT_SLOT,
            out@.len() > 0 && all_same_type(old(self).arena@, slots_of(out@)) ==> h == out@[0].ty,
            out@.len() > 0 && !all_same_type(old(self).arena@, slots_of(out@)) && final(self).arena@.len()
                < usize::MAX ==> final(self).slot(h) is UnnamedSum && covers(
                old(self).arena@,
                children(final(self).slot(h)),
                slots_of(out@),
            ),
    {
        if out.len() == 0 {
            return PTy { index: UNIT_SLOT };
        }
        let ghost hs = slots_of(out@);
        let mut distinct: Vec<PTy> = Vec::new();
        distinct.push(out[0].ty);
        let mut i: usize = 1;
        proof {
            assert(good_slot(self, out@[0].ty, r));
            assert(same_type(self.arena@, hs[0], distinct@[0]));
        }
        while i < out.len()
            invariant
                self.inv(),
                1 <= i <= out@.len(),
                hs == slots_of(out@),
                forall|j: int| 0 <= j < out@.len() ==> good_slot(self, (#[trigger] out@[j]).ty, r),
                distinct@.len() >= 1,
                distinct@[0] == hs[0],
                forall|k: int| 0 <= k < distinct@.len() ==> hs.contains(#[trigger] distinct@[k]),
                forall|j: int|
                    0 <= j < i ==> exists|k: int|
                        0 <= k < distinct@.len() && same_type(self.arena@, #[trigger] hs[j], distinct@[k]),
                distinct@.len() == 1 ==> forall|j: int| 0 <= j < i ==> same_type(self.arena@, #[trigger] hs[j], hs[0]),
                all_same_type(self.arena@, hs) ==> distinct@.len() == 1,
                forall|k1: int, k2: int| 0 <= k1 < k2 < distinct@.len() ==> !same_type(self.arena@, #[trigger] distinct@[k2], #[trigger] distinct@[k1]),
            decreases out@.len() - i,
        {
            let h = out[i].ty;
            assert(good_slot(self, out@[i as int].ty, r));
            let mut k: usize = 0;
            let mut found = false;
            while k < distinct.len() && !found
                invariant
                    self.inv(),
                    k <= distinct@.len(),
                    forall|k2: int| 0 <= k2 < distinct@.len() ==> hs.contains(#[trigger] distinct@[k2]),
                    forall|j: int| 0 <= j < out@.len() ==> good_slot(self, (#[trigger] out@[j]).ty, r),
                    hs == slots_of(out@),
                    found ==> k >= 1 && same_type(self.arena@, h, distinct@[k - 1]),
                    distinct@.len() >= 1,
                    distinct@[0] == hs[0],
                    h == hs[i as int],
                    i < hs.len(),
                    all_same_type(self.arena@, hs) && distinct@.len() == 1 && k >= 1 ==> found,
                    !found ==> forall|k2: int| 0 <= k2 < k ==> !same_type(self.arena@, h, #[trigger] distinct@[k2]),
                decreases distinct@.len() - k,
            {
                let d = distinct[k];
                proof {
                    let j = choose|j: int| 0 <= j < hs.len() && hs[j] == d;
                    assert(good_slot(self, out@[j].ty, r));
                }
                if self.arena.struct_eq_at(h, d, usize::MAX) {
                    found = true;
                }
                k = k + 1;
            }
            let ghost dist0 = distinct@;
            if !found {
                proof {
                    assert(hs.contains(h)) by {
                        assert(hs[i as int] == h);
                    }
                }
                distinct.push(h);
                proof {
                    assert(same_type(self.arena@, hs[i as int], distinct@[distinct@.len() - 1]));
                }
            }
            proof {
                assert forall|j: int|
                    0 <= j < i + 1 implies exists|k: int|
                        0 <= k < distinct@.len() && same_type(self.arena@, #[trigger] hs[j], distinct@[k]) by {
                    if j < i {
                        let k = choose|k: int| 0 <= k < dist0.len() && same_type(self.arena@, hs[j], dist0[k]);
                        assert(distinct@[k] == dist0[k]);
                    } else if found {
                        assert(same_type(self.arena@, hs[j], distinct@[k - 1]));
                    } else {
                        assert(same_type(self.arena@, hs[j], distinct@[distinct@.len() - 1]));
                    }
                }
                if all_same_type(self.arena@, hs) {
                    assert(same_type(self.arena@, hs[i as int], hs[0]));
                }
            }
            i = i + 1;
        }
        if distinct.len() == 1 {
            distinct[0]
        } else {
            let ghost dv = distinct@;
            proof {
                assert forall|k: int| 0 <= k < dv.len() implies (#[trigger] dv[k]).index < self.arena@.len() by {
                    let j = choose|j: int| 0 <= j < hs.len() && hs[j] == dv[k];
                    assert(good_slot(self, out@[j].ty, r));
                }
            }
            let h = self.new_slot(ExpressionType::UnnamedSum(distinct), r, span);
            proof {
                if self.arena@.len() < usize::MAX {
                    assert(self.slot(h) == ExpressionType::UnnamedSum(distinct));
                }
            }
            h
        }
    }

    /// Types each expression of `v`, in order, as part of rule `r`.
    fn infer_children(&mut self, r: Ident, v: Vec<Expression>) -> (out: Vec<Expression>)
        requires
            old(self).inv(),
            r == old(self).roots@.len(),
            r < old(self).inline@.len(),
        ensures
            final(self).inv(),
            extends(old(self), final(self), r),
            forall|i: int|
                old(self).deferred@.len() <= i < final(self).deferred@.len() ==> mentioned(
                    v@,
                    (#[trigger] final(self).deferred@[i]).target,
                ),
            out@.len() == v@.len(),
            forall|j: int| 0 <= j < out@.len() ==> good_slot(final(self), (#[trigger] out@[j]).ty, r),
            forall|j: int| 0 <= j < out@.len() && silent(v@[j]) ==> (#[trigger] out@[j]).ty.index == UNIT_SLOT,
        decreases v,
    {
        let ghost s0 = *self;
        let ghost v0 = v;
        assert(v0@ == v@);
        let mut rest = v;
        let mut out: Vec<Expression> = Vec::new();
        while rest.len() > 0
            invariant
                self.inv(),
                r == self.roots@.len(),
                r < self.inline@.len(),
                extends(&s0, self, r),
                v0 == v,
                out@.len() + rest@.len() == v0@.len(),
                rest@ == v0@.subrange(out@.len() as int, v0@.len() as int),
                forall|i: int|
                    s0.deferred@.len() <= i < self.deferred@.len() ==> mentioned(
                        v0@,
                        (#[trigger] self.deferred@[i]).target,
                    ),
                forall|j: int| 0 <= j < out@.len() ==> good_slot(self, (#[trigger] out@[j]).ty, r),
                forall|j: int| 0 <= j < out@.len() && silent(v0@[j]) ==> (#[trigger] out@[j]).ty.index == UNIT_SLOT,
            decreases rest@.len(),
        {
            let ghost k = out@.len() as int;
            let c = rest.remove(0);
            proof {
                assert(c == v0@[k]);
                assert(decreases_to!(v => v[k]));
                assert(decreases_to!(v => c));
            }
            let ghost s1 = *self;
            let c2 = self.infer_expr(r, c);
            proof {
                lemma_extends_trans(&s0, &s1, self, r);
                assert forall|j: int| 0 <= j < out@.len() implies good_slot(self, (#[trigger] out@[j]).ty, r) by {
                    lemma_good_grows(&s1, self, out@[j].ty, r);
                }
                assert forall|i: int|
                    s0.deferred@.len() <= i < self.deferred@.len() implies mentioned(
                        v0@,
                        (#[trigger] self.deferred@[i]).target,
                    ) by {
                    if i < s1.deferred@.len() {
                        assert(self.deferred@[i] == s1.deferred@[i]);
                    } else {
                        assert(mentions(v0@[k], self.deferred@[i].target));
                        crate::ast::lemma_mentioned_elem(v0@, k, self.deferred@[i].target);
                    }
                }
            }
            let ghost out0 = out@;
            out.push(c2);
            proof {
                assert(out@.drop_last() =~= out0);
                assert(rest@ =~= v0@.subrange(out@.len() as int, v0@.len() as int));
            }
        }
        out
    }

    /// Types expression `e` of rule `r`, children before parents, and
    /// returns it with its type slot set.
    #[verifier::rlimit(80)]
    #[verifier::spinoff_prover]
    pub fn infer_expr(&mut self, r: Ident, e: Expression) -> (res: Expression)
        requires
            old(self).inv(),
            r == old(self).roots@.len(),
            r < old(self).inline@.len(),
        ensures
            final(self).inv(),
            extends(old(self), final(self), r),
            forall|i: int|
                old(self).deferred@.len() <= i < final(self).deferred@.len() ==> mentions(
                    e,
                    (#[trigger] final(self).deferred@[i]).target,
                ),
            good_slot(final(self), res.ty, r),
            silent(e) ==> res.ty.index == UNIT_SLOT,
            res.span == e.span,
            res.discarded == e.discarded,
            node_kind(res.node) == node_kind(e.node),
            is_terminal(e.node) && e.discarded ==> res.ty.index == UNIT_SLOT,
            is_terminal(e.node) && !e.discarded && final(self).arena@.len() < usize::MAX ==> final(self).slot(
                res.ty,
            ) is Character,
            e.node is NotPredicate || e.node is AndPredicate ==> res.ty.index == UNIT_SLOT,
            e.node is NonTerminalSymbol ==> res.node == e.node,
            e.node is NonTerminalSymbol ==> ({
                let t = e.node->NonTerminalSymbol_0;
                &&& t >= old(self).inline@.len() ==> res.ty.index == UNIT_SLOT
                &&& t < old(self).roots@.len() && target_ready(old(self), t) && !old(self).inline@[t as int]
                    ==> res.ty == old(self).roots@[t as int]
                &&& t < old(self).roots@.len() && target_ready(old(self), t) && old(self).inline@[t as int]
                    && final(self).arena@.len() < usize::MAX ==> same_shape(
                    final(self).slot(res.ty),
                    old(self).slot(old(self).roots@[t as int]),
                ) && res.ty.index == old(self).arena@.len()
                &&& t < old(self).inline@.len() && !(t < old(self).roots@.len() && target_ready(old(self), t))
                    && final(self).arena@.len() < usize::MAX ==> final(self).slot(res.ty)
                    == ExpressionType::RuleTypePlaceholder(t) && res.ty.index == old(self).arena@.len()
                    && final(self).errors@ == old(self).errors@
            }),
            ({
                match res.node {
                    ExpressionNode::NotPredicate(c) => good_slot(final(self), c.ty, r),
                    ExpressionNode::AndPredicate(c) => good_slot(final(self), c.ty, r),
                    _ => true,
                }
            }),
            ({
                match res.node {
                    ExpressionNode::ZeroOrMore(c) => wrapped(final(self).arena@, res.ty, c.ty, true),
                    ExpressionNode::OneOrMore(c) => wrapped(final(self).arena@, res.ty, c.ty, true),
                    ExpressionNode::Optional(c) => wrapped(final(self).arena@, res.ty, c.ty, false),
                    ExpressionNode::Sequence(v) => sequenced(final(self).arena@, res.ty, slots_of(v@)),
                    ExpressionNode::Choice(v) => chosen(final(self).arena@, res.ty, slots_of(v@)),
                    _ => true,
                }
            }),
        decreases e,
    {
        let span = e.span;
        let discarded = e.discarded;
        let ghost s0 = *self;
        match e.node {
            ExpressionNode::StrLiteral(lit) => {
                let ty = self.terminal_type(r, span, discarded);
                let res = Expression { span, node: ExpressionNode::StrLiteral(lit), discarded, ty };
                res
            },
            ExpressionNode::AnySingleChar => {
                let ty = self.terminal_type(r, span, discarded);
                let res = Expression { span, node: ExpressionNode::AnySingleChar, discarded, ty };
                res
            },
            ExpressionNode::CharacterClass(cls) => {
                let ty = self.terminal_type(r, span, discarded);
                let res = Expression { span, node: ExpressionNode::CharacterClass(cls), discarded, ty };
                res
            },
            ExpressionNode::NonTerminalSymbol(t) => {
                let ty = self.infer_reference(r, t, span);
                proof {
                    assert forall|i: int| s0.deferred@.len() <= i < self.deferred@.len() implies mentions(e, (#[trigger] self.deferred@[i]).target) by {
                        
                    }
                }
                let res = Expression { span, node: ExpressionNode::NonTerminalSymbol(t), discarded, ty };
                res
            },
            ExpressionNode::Sequence(v) => {
                let out = self.infer_children(r, v);
                let ghost s1 = *self;
                let ty = self.sequence_type(r, span, &out);
                proof {
                    lemma_extends_trans(&s0, &s1, self, r);
                    lemma_survivors_stable(s1.arena@, self.arena@, slots_of(out@));
                    if all_silent(v@) {
                        assert forall|j: int| 0 <= j < slots_of(out@).len() implies spec_is_unit(
                            self.arena@[(#[trigger] slots_of(out@)[j]).index as int],
                        ) by {
                            lemma_all_silent(v@, j);
                            assert(out@[j].ty.index == UNIT_SLOT);
                        }
                        lemma_survivors_all_unit(self.arena@, slots_of(out@));
                    }
                }
                proof {
                    assert forall|i: int| s0.deferred@.len() <= i < self.deferred@.len() implies mentions(e, (#[trigger] self.deferred@[i]).target) by {
                        assert(self.deferred@[i] == s1.deferred@[i]);
                        assert(mentioned(v@, s1.deferred@[i].target));
                    }
                }
                Expression { span, node: ExpressionNode::Sequence(out), discarded, ty }
            },
            ExpressionNode::Choice(v) => {
                let out = self.infer_children(r, v);
                let ghost s1 = *self;
                let ty = self.choice_type(r, span, &out);
                proof {
                    lemma_extends_trans(&s0, &s1, self, r);
                    let hs = slots_of(out@);
                    lemma_types_stable(&s1, self, hs, r);
                    if all_silent(v@) && out@.len() > 0 {
                        assert forall|j: int| 0 <= j < hs.len() implies same_type(s1.arena@, #[trigger] hs[j], hs[0]) by {
                            lemma_all_silent(v@, j);
                            lemma_all_silent(v@, 0);
                        }
                        lemma_all_silent(v@, 0);
                    }
                    assert(all_same_type(self.arena@, hs) == all_same_type(s1.arena@, hs));
                    if out@.len() > 0 && !all_same_type(s1.arena@, hs) && self.arena@.len() < usize::MAX {
                        let cs = children(self.slot(ty));
                        assert forall|j: int| 0 <= j < hs.len() implies exists|k: int|
                            0 <= k < cs.len() && same_type(self.arena@, #[trigger] hs[j], cs[k]) by {
                            let k = choose|k: int| 0 <= k < cs.len() && same_type(s1.arena@, hs[j], cs[k]);
                            assert(hs.contains(cs[k]));
                        }
                    }
                }
                proof {
                    assert forall|i: int| s0.deferred@.len() <= i < self.deferred@.len() implies mentions(e, (#[trigger] self.deferred@[i]).target) by {
                        assert(self.deferred@[i] == s1.deferred@[i]);
                        assert(mentioned(v@, s1.deferred@[i].target));
                    }
                }
                Expression { span, node: ExpressionNode::Choice(out), discarded, ty }
            },
            ExpressionNode::ZeroOrMore(c) => {
                let c2 = self.infer_expr(r, *c);
                let ty = self.wrapper_type(r, span, c2.ty, true);
                Expression { span, node: ExpressionNode::ZeroOrMore(Box::new(c2)), discarded, ty }
            },
            ExpressionNode::OneOrMore(c) => {
                let c2 = self.infer_expr(r, *c);
                let ty = self.wrapper_type(r, span, c2.ty, true);
                Expression { span, node: ExpressionNode::OneOrMore(Box::new(c2)), discarded, ty }
            },
            ExpressionNode::Optional(c) => {
                let c2 = self.infer_expr(r, *c);
                let ty = self.wrapper_type(r, span, c2.ty, false);
                Expression { span, node: ExpressionNode::Optional(Box::new(c2)), discarded, ty }
            },
            ExpressionNode::NotPredicate(c) => {
                let c2 = self.infer_expr(r, *c);
                Expression {
                    span,
                    node: ExpressionNode::NotPredicate(Box::new(c2)),
                    discarded,
                    ty: PTy { index: UNIT_SLOT },
                }
            },
            ExpressionNode::AndPredicate(c) => {
                let c2 = self.infer_expr(r, *c);
                Expression {
                    span,
                    node: ExpressionNode::AndPredicate(Box::new(c2)),
                    discarded,
                    ty: PTy { index: UNIT_SLOT },
                }
            },
        }
    }

    /// A terminal's type: unit when its match is discarded, else a character.
    fn terminal_type(&mut self, r: Ident, span: Span, discarded: bool) -> (h: PTy)
        requires
            old(self).inv(),
        ensures
            final(self).inv(),
            extends(old(self), final(self), r),
            final(self).deferred@ == old(self).deferred@,
            good_slot(final(self), h, r),
            discarded ==> h.index == UNIT_SLOT,
            !discarded && final(self).arena@.len() < usize::MAX ==> final(self).slot(h) is Character,
    {
        if discarded {
            PTy { index: UNIT_SLOT }
        } else {
            let h = self.new_slot(ExpressionType::Character, r, span);
            proof {
                if self.arena@.len() < usize::MAX {
                    assert(self.slot(h) is Character);
                }
            }
            h
        }
    }

    /// The type of a repetition (`vector`) or an option of a child typed at
    /// slot `c`: unit when the child is unit, else the wrapped child slot.
    fn wrapper_type(&mut self, r: Ident, span: Span, c: PTy, vector: bool) -> (h: PTy)
        requires
            old(self).inv(),
            good_slot(old(self), c, r),
        ensures
            final(self).inv(),
            extends(old(self), final(self), r),
            final(self).deferred@ == old(self).deferred@,
            good_slot(final(self), h, r),
            wrapped(final(self).arena@, h, c, vector),
    {
        if self.arena.is_unit_at(c) {
            PTy { index: UNIT_SLOT }
        } else {
            let t = if vector {
                ExpressionType::Vector(c)
            } else {
                ExpressionType::OptionalTy(c)
            };
            let h = self.new_slot(t, r, span);
            proof {
                if self.arena@.len() < usize::MAX {
                    assert(self.slot(h) == t);
                }
            }
            h
        }
    }
}

} // verus!
