use vstd::prelude::*;
use crate::state::{is_ph, owned_slot, pending, resolved_as, settled, tracked_slot, Deferred, Typing};
use crate::types::{rule_of, ExpressionType, Ident};

verus! {

/// The type of rule `t` is final enough to stand in for a placeholder: for an
/// inline rule, it has no unresolved placeholder left; for any other rule,
/// its public slot is not itself a placeholder.
pub open spec fn target_ready(s: &Typing, t: Ident) -> bool {
    if s.inline@[t as int] {
        !pending(s.deferred@, t as int)
    } else {
        !is_ph(s.slot(s.roots@[t as int]))
    }
}

/// Every unresolved placeholder of rule `r` can be resolved.
pub open spec fn rule_ready(s: &Typing, r: int) -> bool {
    forall|i: int|
        0 <= i < s.deferred@.len() && (#[trigger] s.deferred@[i]).owner == r
            && !s.deferred@[i].resolved ==> target_ready(s, s.deferred@[i].target)
}

/// `s2` differs from `s1` only by placeholders that were resolved.
pub open spec fn progressed(s1: &Typing, s2: &Typing) -> bool {
    let d1 = s1.deferred@;
    let d2 = s2.deferred@;
    &&& s2.inline@ == s1.inline@
    &&& s2.roots@ == s1.roots@
    &&& s2.errors@ == s1.errors@
    &&& s2.arena@.len() == s1.arena@.len()
    &&& d2.len() == d1.len()
    &&& forall|i: int| 0 <= i < d1.len() ==> {
        &&& (#[trigger] d2[i]).owner == d1[i].owner
        &&& d2[i].target == d1[i].target
        &&& d2[i].slot == d1[i].slot
        &&& (d1[i].resolved ==> d2[i].resolved)
    }
    &&& forall|k: int| 0 <= k < s1.arena@.len() && !is_ph(s1.arena@[k]) ==> !is_ph(#[trigger] s2.arena@[k])
    &&& settled(s1.arena@, s2.arena@, s1.roots@, s1.inline@)
}

/// No pending rule can make progress: the state resolution ends in.
pub open spec fn stuck(s: &Typing) -> bool {
    forall|q: int| 0 <= q < s.inline@.len() && pending(s.deferred@, q) ==> !rule_ready(s, q)
}

/// Once resolution is stuck, a grammar whose rules are all named and whose
/// public slots are not placeholders has no placeholder left: references
/// between named rules, mutually recursive ones included, always resolve.
pub proof fn lemma_named_rules_resolve(s: &Typing)
    requires
        s.inv(),
        s.roots@.len() == s.inline@.len(),
        stuck(s),
        forall|t: int| 0 <= t < s.inline@.len() ==> !(#[trigger] s.inline@[t]),
        forall|t: int| 0 <= t < s.roots@.len() ==> !is_ph(#[trigger] s.slot(s.roots@[t])),
    ensures
        all_resolved(s.deferred@),
        s.placeholder_free(),
{
    assert forall|i: int| 0 <= i < s.deferred@.len() implies (#[trigger] s.deferred@[i]).resolved by {
        if !s.deferred@[i].resolved {
            let o = s.deferred@[i].owner as int;
            assert(s.deferred@[i].owner < s.inline@.len());
            assert(pending(s.deferred@, o));
            assert(!rule_ready(s, o));
            let j = choose|j: int|
                0 <= j < s.deferred@.len() && (#[trigger] s.deferred@[j]).owner == o && !s.deferred@[j].resolved
                    && !target_ready(s, s.deferred@[j].target);
            let t = s.deferred@[j].target as int;
            assert(s.deferred@[j].target < s.inline@.len());
            assert(!s.inline@[t]);
            assert(!is_ph(s.slot(s.roots@[t])));
        }
    }
    lemma_resolved_free(s);
}

/// Every placeholder points to a rule of lower rank than its owner: the
/// references that were deferred form no cycle.
pub open spec fn ranked(d: Seq<Deferred>, rank: Seq<nat>) -> bool {
    forall|i: int| 0 <= i < d.len() ==> rank[(#[trigger] d[i]).target as int] < rank[d[i].owner as int]
}

pub open spec fn all_resolved(d: Seq<Deferred>) -> bool {
    forall|i: int| 0 <= i < d.len() ==> (#[trigger] d[i]).resolved
}

/// The number of rules below `k` with an unresolved placeholder.
pub open spec fn count_pending(d: Seq<Deferred>, k: nat) -> nat
    decreases k,
{
    if k == 0 {
        0
    } else {
        count_pending(d, (k - 1) as nat) + if pending(d, k - 1) { 1nat } else { 0nat }
    }
}

proof fn lemma_count_mono(d1: Seq<Deferred>, d2: Seq<Deferred>, k: nat)
    requires
        forall|r: int| #[trigger] pending(d2, r) ==> pending(d1, r),
    ensures
        count_pending(d2, k) <= count_pending(d1, k),
        (exists|r: int| 0 <= r < k && pending(d1, r) && !pending(d2, r)) ==> count_pending(d2, k)
            < count_pending(d1, k),
    decreases k,
{
    if k > 0 {
        lemma_count_mono(d1, d2, (k - 1) as nat);
        if exists|r: int| 0 <= r < k && pending(d1, r) && !pending(d2, r) {
            let r = choose|r: int| 0 <= r < k && pending(d1, r) && !pending(d2, r);
            if r < k - 1 {
                assert(exists|r: int| 0 <= r < k - 1 && pending(d1, r) && !pending(d2, r));
            }
        }
    }
}

proof fn lemma_count_bound(d: Seq<Deferred>, k: nat)
    ensures
        count_pending(d, k) <= k,
        (exists|r: int| 0 <= r < k && pending(d, r)) ==> count_pending(d, k) >= 1,
    decreases k,
{
    if k > 0 {
        lemma_count_bound(d, (k - 1) as nat);
        if exists|r: int| 0 <= r < k && pending(d, r) {
            let r = choose|r: int| 0 <= r < k && pending(d, r);
            if r < k - 1 {
                assert(exists|r: int| 0 <= r < k - 1 && pending(d, r));
            }
        }
    }
}

proof fn lemma_progressed_pending(s1: &Typing, s2: &Typing)
    requires
        progressed(s1, s2),
    ensures
        forall|r: int| #[trigger] pending(s2.deferred@, r) ==> pending(s1.deferred@, r),
{
    assert forall|r: int| #[trigger] pending(s2.deferred@, r) implies pending(s1.deferred@, r) by {
        let i = choose|i: int|
            0 <= i < s2.deferred@.len() && (#[trigger] s2.deferred@[i]).owner == r
                && !s2.deferred@[i].resolved;
        assert(s1.deferred@[i].owner == r);
    }
}

proof fn lemma_progressed_trans(s1: &Typing, s2: &Typing, s3: &Typing)
    requires
        progressed(s1, s2),
        progressed(s2, s3),
    ensures
        progressed(s1, s3),
{
    assert forall|i: int| 0 <= i < s1.deferred@.len() implies {
        &&& (#[trigger] s3.deferred@[i]).owner == s1.deferred@[i].owner
        &&& s3.deferred@[i].target == s1.deferred@[i].target
        &&& s3.deferred@[i].slot == s1.deferred@[i].slot
        &&& (s1.deferred@[i].resolved ==> s3.deferred@[i].resolved)
    } by {
        assert(s2.deferred@[i].owner == s1.deferred@[i].owner);
    }
    assert forall|k: int| 0 <= k < s1.arena@.len() && !is_ph(s1.arena@[k]) implies !is_ph(
        #[trigger] s3.arena@[k],
    ) by {
        assert(!is_ph(s2.arena@[k]));
    }
    let a1 = s1.arena@;
    let a2 = s2.arena@;
    let a3 = s3.arena@;
    let roots = s1.roots@;
    let inline = s1.inline@;
    assert forall|k: int| 0 <= k < a1.len() implies #[trigger] a3[k] == a1[k] || (is_ph(a1[k]) && resolved_as(a3, roots, inline, k, rule_of(a1[k]))) by {
        assert(a3[k] == a2[k] || (is_ph(a2[k]) && resolved_as(a3, roots, inline, k, rule_of(a2[k]))));
        assert(a2[k] == a1[k] || (is_ph(a1[k]) && resolved_as(a2, roots, inline, k, rule_of(a1[k]))));
        if a3[k] == a2[k] && a2[k] != a1[k] {
            let t = rule_of(a1[k]);
            let h = roots[t as int].index as int;
            assert(a3[h] == a2[h] || is_ph(a2[h]));
        }
    }
}

proof fn lemma_ready_mono(s1: &Typing, s2: &Typing, r: int)
    requires
        s1.inv(),
        s1.roots@.len() == s1.inline@.len(),
        progressed(s1, s2),
        rule_ready(s1, r),
    ensures
        rule_ready(s2, r),
{
    lemma_progressed_pending(s1, s2);
    assert forall|i: int|
        0 <= i < s2.deferred@.len() && (#[trigger] s2.deferred@[i]).owner == r
            && !s2.deferred@[i].resolved implies target_ready(s2, s2.deferred@[i].target) by {
        assert(s1.deferred@[i].owner == r);
        let t = s1.deferred@[i].target;
        assert(target_ready(s1, t));
        if !s1.inline@[t as int] {
            assert(s1.roots@[t as int].index < s1.arena@.len());
        }
    }
}

/// With no unresolved placeholder left, the arena holds none.
proof fn lemma_resolved_free(s: &Typing)
    requires
        s.inv(),
        all_resolved(s.deferred@),
    ensures
        s.placeholder_free(),
{
    assert forall|k: int| 0 <= k < s.arena@.len() implies !is_ph(#[trigger] s.arena@[k]) by {
        if is_ph(s.arena@[k]) {
            assert(tracked_slot(s.deferred@, k));
        }
    }
}

/// In a state whose deferred references are ranked, some pending rule is
/// ready as soon as any rule is pending.
proof fn lemma_ready_exists(s: &Typing, rank: Seq<nat>, r: int)
    requires
        s.inv(),
        s.roots@.len() == s.inline@.len(),
        rank.len() == s.inline@.len(),
        ranked(s.deferred@, rank),
        0 <= r < s.inline@.len(),
        pending(s.deferred@, r),
    ensures
        exists|q: int| 0 <= q < s.inline@.len() && pending(s.deferred@, q) && rule_ready(s, q),
    decreases rank[r],
{
    if !rule_ready(s, r) {
        let d = s.deferred@;
        let i = choose|i: int|
            0 <= i < d.len() && (#[trigger] d[i]).owner == r && !d[i].resolved && !target_ready(
                s,
                d[i].target,
            );
        let t = d[i].target;
        assert(rank[t as int] < rank[r]);
        if !s.inline@[t as int] {
            assert(owned_slot(d, s.roots@[t as int], t));
            let j = choose|j: int|
                0 <= j < d.len() && (#[trigger] d[j]).slot == s.roots@[t as int] && d[j].owner == t
                    && !d[j].resolved;
            assert(pending(d, t as int));
        }
        lemma_ready_exists(s, rank, t as int);
    }
}

impl Typing {
    /// Whether rule `t` has an unresolved placeholder.
    pub fn has_pending(&self, t: Ident) -> (r: bool)
        ensures
            r == pending(self.deferred@, t as int),
    {
        let mut i: usize = 0;
        while i < self.deferred.len()
            invariant
                i <= self.deferred@.len(),
                forall|j: int| 0 <= j < i ==> !((#[trigger] self.deferred@[j]).owner == t && !self.deferred@[j].resolved),
            decreases self.deferred@.len() - i,
        {
            if self.deferred[i].owner == t && !self.deferred[i].resolved {
                return true;
            }
            i = i + 1;
        }
        false
    }

    pub(crate) fn is_target_ready(&self, t: Ident) -> (r: bool)
        requires
            self.inv(),
            t < self.roots@.len(),
        ensures
            r == target_ready(self, t),
    {
        if self.inline[t] {
            !self.has_pending(t)
        } else {
            !self.arena.is_ph_at(self.roots[t])
        }
    }

    fn is_rule_ready(&self, r: Ident) -> (b: bool)
        requires
            self.inv(),
            self.roots@.len() == self.inline@.len(),
        ensures
            b == rule_ready(self, r as int),
    {
        let mut i: usize = 0;
        while i < self.deferred.len()
            invariant
                self.inv(),
                self.roots@.len() == self.inline@.len(),
                i <= self.deferred@.len(),
                forall|j: int|
                    0 <= j < i && (#[trigger] self.deferred@[j]).owner == r && !self.deferred@[j].resolved
                        ==> target_ready(self, self.deferred@[j].target),
            decreases self.deferred@.len() - i,
        {
            let e = self.deferred[i];
            if e.owner == r && !e.resolved && !self.is_target_ready(e.target) {
                return false;
            }
            i = i + 1;
        }
        true
    }

    /// Rebinds the slot of unresolved entry `i` to the final type of its
    /// target: a reference to the target's named type, or a copy of the
    /// target's type when the target is inline.
    fn resolve_entry(&mut self, i: usize)
        requires
            old(self).inv(),
            old(self).roots@.len() == old(self).inline@.len(),
            i < old(self).deferred@.len(),
            !old(self).deferred@[i as int].resolved,
            target_ready(old(self), old(self).deferred@[i as int].target),
        ensures
            final(self).inv(),
            progressed(old(self), final(self)),
            final(self).deferred@ == old(self).deferred@.update(
                i as int,
                Deferred { resolved: true, ..old(self).deferred@[i as int] },
            ),
    {
        let e = self.deferred[i];
        let t = e.target;
        let root = self.roots[t];
        let content = if self.inline[t] {
            proof {
                if is_ph(self.slot(root)) {
                    assert(owned_slot(self.deferred@, root, t));
                    let j = choose|j: int|
                        0 <= j < self.deferred@.len() && (#[trigger] self.deferred@[j]).slot == root
                            && self.deferred@[j].owner == t && !self.deferred@[j].resolved;
                    assert(pending(self.deferred@, t as int));
                }
                assert(crate::types::children_below(self.slot(root), self.arena@.len()));
            }
            self.arena.get(root)
        } else if self.arena.is_unit_at(root) {
            ExpressionType::Unit
        } else {
            ExpressionType::RuleTypeName(t)
        };
        let ghost s0 = *self;
        self.arena.rebind(e.slot, content);
        self.deferred.set(i, Deferred { resolved: true, ..e });
        proof {
            let a = self.arena@;
            let d = self.deferred@;
            assert(!is_ph(content));
            assert forall|k: int| 0 <= k < a.len() && is_ph(#[trigger] a[k]) implies tracked_slot(d, k) by {
                assert(k != e.slot.index);
                assert(is_ph(s0.arena@[k]));
                assert(tracked_slot(s0.deferred@, k));
                let j = choose|j: int|
                    0 <= j < s0.deferred@.len() && (#[trigger] s0.deferred@[j]).slot.index == k
                        && !s0.deferred@[j].resolved;
                assert(s0.deferred@[j].slot.index == k);
                assert(j != i);
                assert(d[j] == s0.deferred@[j]);
            }
            assert forall|r: int|
                0 <= r < self.roots@.len() && is_ph(a[(#[trigger] self.roots@[r]).index as int])
                    implies owned_slot(d, self.roots@[r], r as Ident) by {
                let h = self.roots@[r];
                assert(h.index != e.slot.index);
                assert(is_ph(s0.arena@[h.index as int]));
                assert(owned_slot(s0.deferred@, h, r as Ident));
                let j = choose|j: int|
                    0 <= j < s0.deferred@.len() && (#[trigger] s0.deferred@[j]).slot == h
                        && s0.deferred@[j].owner == r as Ident && !s0.deferred@[j].resolved;
                assert(d[j] == s0.deferred@[j]);
            }
            assert forall|j: int| 0 <= j < d.len() implies {
                &&& (#[trigger] d[j]).slot.index < a.len()
                &&& d[j].owner < self.inline@.len()
                &&& d[j].target < self.inline@.len()
                &&& !d[j].resolved ==> a[d[j].slot.index as int] == ExpressionType::RuleTypePlaceholder(d[j].target)
            } by {
                if j != i {
                    assert(s0.deferred@[j].slot != e.slot);
                }
            }
            assert forall|i1: int, j1: int|
                0 <= i1 < d.len() && 0 <= j1 < d.len() && i1 != j1 implies (#[trigger] d[i1]).slot != (#[trigger] d[j1]).slot by {
                assert(s0.deferred@[i1].slot != s0.deferred@[j1].slot);
            }
            assert forall|k: int| 0 <= k < s0.arena@.len() && !is_ph(s0.arena@[k]) implies !is_ph(
                #[trigger] a[k],
            ) by {
                if k == e.slot.index {
                    assert(is_ph(s0.arena@[k]));
                }
            }
        }
    }

    /// Resolves every unresolved placeholder of rule `r`.
    fn resolve_rule(&mut self, r: Ident)
        requires
            old(self).inv(),
            old(self).roots@.len() == old(self).inline@.len(),
            rule_ready(old(self), r as int),
        ensures
            final(self).inv(),
            progressed(old(self), final(self)),
            !pending(final(self).deferred@, r as int),
            forall|i: int|
                0 <= i < old(self).deferred@.len() && (#[trigger] old(self).deferred@[i]).owner != r
                    ==> final(self).deferred@[i].resolved == old(self).deferred@[i].resolved,
    {
        let ghost s0 = *self;
        let mut i: usize = 0;
        while i < self.deferred.len()
            invariant
                self.inv(),
                self.roots@.len() == self.inline@.len(),
                progressed(&s0, self),
                rule_ready(self, r as int),
                i <= self.deferred@.len(),
                forall|j: int| 0 <= j < i && (#[trigger] self.deferred@[j]).owner == r ==> self.deferred@[j].resolved,
                forall|j: int|
                    0 <= j < s0.deferred@.len() && (#[trigger] s0.deferred@[j]).owner != r
                        ==> self.deferred@[j].resolved == s0.deferred@[j].resolved,
            decreases self.deferred@.len() - i,
        {
            let e = self.deferred[i];
            if e.owner == r && !e.resolved {
                let ghost s1 = *self;
                self.resolve_entry(i);
                proof {
                    lemma_progressed_trans(&s0, &s1, self);
                    lemma_ready_mono(&s1, self, r as int);
                    assert forall|j: int|
                        0 <= j < s0.deferred@.len() && (#[trigger] s0.deferred@[j]).owner != r
                            implies self.deferred@[j].resolved == s0.deferred@[j].resolved by {
                        assert(j != i);
                        assert(s1.deferred@[j].resolved == s0.deferred@[j].resolved);
                    }
                    assert forall|j: int| 0 <= j < i + 1 && (#[trigger] self.deferred@[j]).owner == r implies self.deferred@[j].resolved by {
                        if j != i {
                            assert(s1.deferred@[j].resolved);
                        }
                    }
                }
            }
            i = i + 1;
        }
    }

    /// One scan of the work-list: resolves each pending rule that is ready.
    fn resolve_pass(&mut self) -> (progress: bool)
        requires
            old(self).inv(),
            old(self).roots@.len() == old(self).inline@.len(),
        ensures
            final(self).inv(),
            progressed(old(self), final(self)),
            progress ==> count_pending(final(self).deferred@, final(self).inline@.len() as nat)
                < count_pending(old(self).deferred@, old(self).inline@.len() as nat),
            (exists|q: int|
                0 <= q < old(self).inline@.len() && pending(old(self).deferred@, q) && rule_ready(
                    old(self),
                    q,
                )) ==> progress,
            !progress ==> final(self).deferred@ == old(self).deferred@ && final(self).arena@ == old(self).arena@,
    {
        let ghost s0 = *self;
        let n = self.inline.len();
        let mut progress = false;
        let mut r: usize = 0;
        while r < n
            invariant
                self.inv(),
                self.roots@.len() == self.inline@.len(),
                n == self.inline@.len(),
                progressed(&s0, self),
                s0.inv(),
                s0.roots@.len() == s0.inline@.len(),
                !progress ==> self.deferred@ == s0.deferred@ && self.arena@ == s0.arena@,
                r <= n,
                progress ==> exists|q: int| 0 <= q < n && pending(s0.deferred@, q) && !pending(self.deferred@, q),
                !progress ==> forall|q: int|
                    0 <= q < r ==> !(pending(s0.deferred@, q) && rule_ready(&s0, q)),
            decreases n - r,
        {
            if self.has_pending(r) && self.is_rule_ready(r) {
                let ghost s1 = *self;
                self.resolve_rule(r);
                proof {
                    lemma_progressed_trans(&s0, &s1, self);
                    lemma_progressed_pending(&s0, &s1);
                }
                progress = true;
            } else {
                proof {
                    if !progress {
                        if pending(s0.deferred@, r as int) && rule_ready(&s0, r as int) {
                            lemma_ready_mono(&s0, self, r as int);
                            assert(pending(self.deferred@, r as int));
                        }
                    }
                }
            }
            r = r + 1;
        }
        proof {
            lemma_progressed_pending(&s0, self);
            lemma_count_mono(s0.deferred@, self.deferred@, n as nat);
        }
        progress
    }

    /// Resolves placeholders pass after pass until no rule is pending or a
    /// pass changes nothing; returns the number of passes. A rule left
    /// pending takes part in a cycle of references that never reaches a
    /// final type.
    pub fn resolve(&mut self) -> (rounds: usize)
        requires
            old(self).inv(),
            old(self).roots@.len() == old(self).inline@.len(),
        ensures
            final(self).inv(),
            progressed(old(self), final(self)),
            rounds <= old(self).inline@.len(),
            rounds <= count_pending(old(self).deferred@, old(self).inline@.len() as nat),
            all_resolved(old(self).deferred@) ==> rounds == 0 && final(self).arena@ == old(self).arena@
                && final(self).deferred@ == old(self).deferred@,
            all_resolved(final(self).deferred@) ==> final(self).placeholder_free(),
            stuck(final(self)),
            forall|rank: Seq<nat>|
                rank.len() == old(self).inline@.len() && #[trigger] ranked(old(self).deferred@, rank)
                    ==> all_resolved(final(self).deferred@),
    {
        let ghost s0 = *self;
        let n = self.inline.len();
        let mut rounds: usize = 0;
        proof {
            lemma_count_bound(self.deferred@, n as nat);
        }
        loop
            invariant_except_break
                rounds + count_pending(self.deferred@, n as nat) <= count_pending(s0.deferred@, n as nat),
            invariant
                self.inv(),
                self.roots@.len() == self.inline@.len(),
                n == self.inline@.len(),
                progressed(&s0, self),
                rounds <= count_pending(s0.deferred@, n as nat),
                count_pending(s0.deferred@, n as nat) <= n,
                rounds <= n,
                rounds == 0 ==> self.arena@ == s0.arena@ && self.deferred@ == s0.deferred@,
                all_resolved(s0.deferred@) ==> rounds == 0,
            ensures
                self.inv(),
                progressed(&s0, self),
                rounds <= count_pending(s0.deferred@, n as nat),
                count_pending(s0.deferred@, n as nat) <= n,
                rounds <= n,
                rounds == 0 ==> self.arena@ == s0.arena@ && self.deferred@ == s0.deferred@,
                all_resolved(s0.deferred@) ==> rounds == 0,
                stuck(self),
                forall|rank: Seq<nat>|
                    rank.len() == n && #[trigger] ranked(s0.deferred@, rank) ==> all_resolved(self.deferred@),
            decreases count_pending(self.deferred@, n as nat),
        {
            if self.first_unresolved() == self.deferred.len() {
                proof {
                    assert forall|q: int| 0 <= q < self.inline@.len() implies !pending(self.deferred@, q) by {
                        if pending(self.deferred@, q) {
                            let i = choose|i: int| 0 <= i < self.deferred@.len() && (#[trigger] self.deferred@[i]).owner == q && !self.deferred@[i].resolved;
                        }
                    }
                }
                break;
            }
            let ghost s1 = *self;
            proof {
                let i = choose|i: int| 0 <= i < self.deferred@.len() && !(#[trigger] self.deferred@[i]).resolved;
                assert(pending(self.deferred@, self.deferred@[i].owner as int));
                lemma_count_bound(self.deferred@, n as nat);
                assert(!all_resolved(s0.deferred@)) by {
                    assert(!s0.deferred@[i].resolved);
                }
            }
            let progress = self.resolve_pass();
            proof {
                lemma_progressed_trans(&s0, &s1, self);
                lemma_count_bound(self.deferred@, n as nat);
            }
            rounds = rounds + 1;
            if !progress {
                proof {
                    assert forall|q: int| 0 <= q < self.inline@.len() && pending(self.deferred@, q) implies !rule_ready(self, q) by {
                        assert(pending(s1.deferred@, q));
                        if rule_ready(self, q) {
                            assert forall|i: int|
                                0 <= i < s1.deferred@.len() && (#[trigger] s1.deferred@[i]).owner == q
                                    && !s1.deferred@[i].resolved implies target_ready(&s1, s1.deferred@[i].target) by {
                                assert(s1.deferred@[i] == self.deferred@[i]);
                                assert(target_ready(self, self.deferred@[i].target));
                            }
                            assert(pending(s1.deferred@, q) && rule_ready(&s1, q));
                        }
                    }
                    assert forall|rank: Seq<nat>|
                        rank.len() == n && #[trigger] ranked(s0.deferred@, rank) implies all_resolved(self.deferred@) by {
                        let i = choose|i: int| 0 <= i < s1.deferred@.len() && !(#[trigger] s1.deferred@[i]).resolved;
                        let o = s1.deferred@[i].owner;
                        assert(pending(s1.deferred@, o as int));
                        assert forall|j: int| 0 <= j < s1.deferred@.len() implies rank[(#[trigger] s1.deferred@[j]).target as int] < rank[s1.deferred@[j].owner as int] by {
                            assert(s0.deferred@[j].owner == s1.deferred@[j].owner);
                        }
                        lemma_ready_exists(&s1, rank, o as int);
                    }
                }
                break;
            }
        }
        proof {
            if all_resolved(self.deferred@) {
                lemma_resolved_free(self);
            }
        }
        rounds
    }

    /// The index of the first unresolved entry, or the number of entries.
    fn first_unresolved(&self) -> (r: usize)
        ensures
            r <= self.deferred@.len(),
            r < self.deferred@.len() ==> !self.deferred@[r as int].resolved,
            r == self.deferred@.len() <==> all_resolved(self.deferred@),
    {
        let mut i: usize = 0;
        while i < self.deferred.len()
            invariant
                i <= self.deferred@.len(),
                forall|j: int| 0 <= j < i ==> (#[trigger] self.deferred@[j]).resolved,
            decreases self.deferred@.len() - i,
        {
            if !self.deferred[i].resolved {
                return i;
            }
            i = i + 1;
        }
        i
    }
}

} // verus!
