use vstd::prelude::*;

verus! {

/// A rule identifier: the index of the rule in its grammar.
pub type Ident = usize;

/// A type slot: a handle to a mutable binding in a [`TypeArena`]. Copying a
/// handle aliases the slot, so a later rebind is seen by every holder.
#[derive(Clone, Copy, Debug, PartialEq, Eq, Structural)]
pub struct PTy {
    pub index: usize,
}

/// The shape of an inferred type. Children are slots of the same arena.
#[derive(Debug)]
pub enum ExpressionType {
    Character,
    Unit,
    UnitPropagate,
    RuleTypePlaceholder(Ident),
    RuleTypeName(Ident),
    Vector(PTy),
    Tuple(Vec<PTy>),
    OptionalTy(PTy),
    UnnamedSum(Vec<PTy>),
}

/// A named type registered for a non-inline rule.
#[derive(Debug)]
pub enum NamedExpressionType {
    Struct(String, Vec<(String, PTy)>),
    StructTuple(String, Vec<PTy>),
    Sum(String, Vec<(String, PTy)>),
    TypeAlias(String, PTy),
}

pub open spec fn spec_is_unit(t: ExpressionType) -> bool {
    t is Unit || t is UnitPropagate
}

/// Every slot that a type value points to.
pub open spec fn children(t: ExpressionType) -> Seq<PTy> {
    match t {
        ExpressionType::Vector(c) => seq![c],
        ExpressionType::OptionalTy(c) => seq![c],
        ExpressionType::Tuple(v) => v@,
        ExpressionType::UnnamedSum(v) => v@,
        _ => Seq::empty(),
    }
}

/// The variant of a type value, as a number.
pub open spec fn tag(t: ExpressionType) -> nat {
    match t {
        ExpressionType::Character => 0,
        ExpressionType::Unit => 1,
        ExpressionType::UnitPropagate => 2,
        ExpressionType::RuleTypePlaceholder(_) => 3,
        ExpressionType::RuleTypeName(_) => 4,
        ExpressionType::Vector(_) => 5,
        ExpressionType::Tuple(_) => 6,
        ExpressionType::OptionalTy(_) => 7,
        ExpressionType::UnnamedSum(_) => 8,
    }
}

/// The rule that a placeholder or a type name refers to.
pub open spec fn rule_of(t: ExpressionType) -> Ident {
    match t {
        ExpressionType::RuleTypePlaceholder(i) => i,
        ExpressionType::RuleTypeName(i) => i,
        _ => 0,
    }
}

/// Two type values with the same variant, rule and child slots.
pub open spec fn same_shape(a: ExpressionType, b: ExpressionType) -> bool {
    &&& tag(a) == tag(b)
    &&& rule_of(a) == rule_of(b)
    &&& children(a) == children(b)
}

/// Slots `x` and `y` of `a` hold structurally equal types, compared down to
/// depth `fuel`: the same slot, or the same variant and rule with children
/// that are equal in turn.
pub open spec fn struct_eq(a: Seq<ExpressionType>, x: PTy, y: PTy, fuel: nat) -> bool
    decreases fuel, 0nat,
{
    x == y || {
        &&& x.index < a.len()
        &&& y.index < a.len()
        &&& tag(a[x.index as int]) == tag(a[y.index as int])
        &&& rule_of(a[x.index as int]) == rule_of(a[y.index as int])
        &&& children(a[x.index as int]).len() == children(a[y.index as int]).len()
        &&& children(a[x.index as int]).len() == 0 || fuel > 0 && all_eq(
            a,
            children(a[x.index as int]),
            children(a[y.index as int]),
            (fuel - 1) as nat,
        )
    }
}

/// The slots of `xs` and `ys` are pairwise structurally equal.
pub open spec fn all_eq(a: Seq<ExpressionType>, xs: Seq<PTy>, ys: Seq<PTy>, fuel: nat) -> bool
    decreases fuel, xs.len(),
{
    xs.len() == 0 || struct_eq(a, xs.last(), ys.last(), fuel) && all_eq(a, xs.drop_last(), ys.drop_last(), fuel)
}

/// Slots `x` and `y` of `a` hold structurally identical types.
pub open spec fn same_type(a: Seq<ExpressionType>, x: PTy, y: PTy) -> bool {
    struct_eq(a, x, y, usize::MAX as nat)
}

/// Every slot of `a` points only to slots of `a`.
pub open spec fn closed(a: Seq<ExpressionType>) -> bool {
    forall|i: int| 0 <= i < a.len() ==> children_below(#[trigger] a[i], a.len())
}

/// Growing an arena leaves the comparison of its old slots unchanged.
pub proof fn lemma_struct_eq_stable(a1: Seq<ExpressionType>, a2: Seq<ExpressionType>, x: PTy, y: PTy, fuel: nat)
    requires
        closed(a1),
        a2.len() >= a1.len(),
        forall|k: int| 0 <= k < a1.len() ==> #[trigger] a2[k] == a1[k],
        x.index < a1.len(),
        y.index < a1.len(),
    ensures
        struct_eq(a2, x, y, fuel) == struct_eq(a1, x, y, fuel),
    decreases fuel, 0nat,
{
    let tx = a1[x.index as int];
    let ty = a1[y.index as int];
    assert(a2[x.index as int] == tx);
    assert(a2[y.index as int] == ty);
    if fuel > 0 && children(tx).len() == children(ty).len() {
        assert(children_below(tx, a1.len()));
        assert(children_below(ty, a1.len()));
        lemma_all_eq_stable(a1, a2, children(tx), children(ty), (fuel - 1) as nat);
    }
}

proof fn lemma_all_eq_stable(a1: Seq<ExpressionType>, a2: Seq<ExpressionType>, xs: Seq<PTy>, ys: Seq<PTy>, fuel: nat)
    requires
        closed(a1),
        a2.len() >= a1.len(),
        forall|k: int| 0 <= k < a1.len() ==> #[trigger] a2[k] == a1[k],
        xs.len() == ys.len(),
        forall|i: int| 0 <= i < xs.len() ==> (#[trigger] xs[i]).index < a1.len(),
        forall|i: int| 0 <= i < ys.len() ==> (#[trigger] ys[i]).index < a1.len(),
    ensures
        all_eq(a2, xs, ys, fuel) == all_eq(a1, xs, ys, fuel),
    decreases fuel, xs.len(),
{
    if xs.len() > 0 {
        assert(xs.last().index < a1.len());
        assert(ys.last().index < a1.len());
        lemma_struct_eq_stable(a1, a2, xs.last(), ys.last(), fuel);
        let xd = xs.drop_last();
        let yd = ys.drop_last();
        assert forall|i: int| 0 <= i < xd.len() implies (#[trigger] xd[i]).index < a1.len() by {
            assert(xd[i] == xs[i]);
        }
        assert forall|i: int| 0 <= i < yd.len() implies (#[trigger] yd[i]).index < a1.len() by {
            assert(yd[i] == ys[i]);
        }
        lemma_all_eq_stable(a1, a2, xd, yd, fuel);
    }
}

/// Pairwise equality of two lists implies it of every element.
proof fn lemma_all_eq_prefix(a: Seq<ExpressionType>, xs: Seq<PTy>, ys: Seq<PTy>, fuel: nat, i: int)
    requires
        xs.len() == ys.len(),
        0 <= i < xs.len(),
        all_eq(a, xs, ys, fuel),
    ensures
        struct_eq(a, xs[i], ys[i], fuel),
    decreases xs.len(),
{
    if i < xs.len() - 1 {
        lemma_all_eq_prefix(a, xs.drop_last(), ys.drop_last(), fuel, i);
    }
}

/// The children of `t` are slots of an arena with `n` slots.
pub open spec fn children_below(t: ExpressionType, n: nat) -> bool {
    forall|i: int| 0 <= i < children(t).len() ==> (#[trigger] children(t)[i]).index < n
}

fn copy_handles(v: &Vec<PTy>) -> (r: Vec<PTy>)
    ensures
        r@ == v@,
{
    let mut r: Vec<PTy> = Vec::new();
    let mut i: usize = 0;
    while i < v.len()
        invariant
            i <= v.len(),
            r@ == v@.subrange(0, i as int),
        decreases v.len() - i,
    {
        r.push(v[i]);
        i = i + 1;
        assert(r@ =~= v@.subrange(0, i as int));
    }
    assert(r@ =~= v@);
    r
}

impl ExpressionType {
    /// A copy of this type value that shares its child slots.
    pub fn copy(&self) -> (r: ExpressionType)
        ensures
            same_shape(r, *self),
            spec_is_unit(r) == spec_is_unit(*self),
            r is RuleTypePlaceholder == *self is RuleTypePlaceholder,
    {
        match self {
            ExpressionType::Character => ExpressionType::Character,
            ExpressionType::Unit => ExpressionType::Unit,
            ExpressionType::UnitPropagate => ExpressionType::UnitPropagate,
            ExpressionType::RuleTypePlaceholder(t) => ExpressionType::RuleTypePlaceholder(*t),
            ExpressionType::RuleTypeName(t) => ExpressionType::RuleTypeName(*t),
            ExpressionType::Vector(c) => ExpressionType::Vector(*c),
            ExpressionType::Tuple(v) => ExpressionType::Tuple(copy_handles(v)),
            ExpressionType::OptionalTy(c) => ExpressionType::OptionalTy(*c),
            ExpressionType::UnnamedSum(v) => ExpressionType::UnnamedSum(copy_handles(v)),
        }
    }

    /// The type as seen by a parent: a `UnitPropagate` node is transparent and
    /// hands its own slot through unchanged; any other node is given to `f`.
    pub fn propagate<F: Fn(PTy) -> PTy>(&self, self_rc: PTy, f: F) -> (r: PTy)
        requires
            !(*self is UnitPropagate) ==> f.requires((self_rc,)),
        ensures
            *self is UnitPropagate ==> r == self_rc,
            !(*self is UnitPropagate) ==> f.ensures((self_rc,), r),
    {
        match self {
            ExpressionType::UnitPropagate => self_rc,
            _ => f(self_rc),
        }
    }

    /// Whether the type produces no observable value.
    pub fn is_unit(&self) -> (r: bool)
        ensures
            r == spec_is_unit(*self),
    {
        match self {
            ExpressionType::UnitPropagate => true,
            ExpressionType::Unit => true,
            _ => false,
        }
    }

    /// Whether the type is a forward reference to a rule not yet typed.
    pub fn is_type_ph(&self) -> (r: bool)
        ensures
            r == (*self is RuleTypePlaceholder),
    {
        match self {
            ExpressionType::RuleTypePlaceholder(_) => true,
            _ => false,
        }
    }

    /// The rule that a placeholder stands for.
    pub fn ph_ident(&self) -> (r: Ident)
        requires
            *self is RuleTypePlaceholder,
        ensures
            *self == ExpressionType::RuleTypePlaceholder(r),
    {
        match self {
            ExpressionType::RuleTypePlaceholder(ident) => *ident,
            _ => 0,
        }
    }
}

impl ExpressionType {
    /// The variant, as a number.
    pub fn tag_of(&self) -> (r: u8)
        ensures
            r == tag(*self),
    {
        match self {
            ExpressionType::Character => 0,
            ExpressionType::Unit => 1,
            ExpressionType::UnitPropagate => 2,
            ExpressionType::RuleTypePlaceholder(_) => 3,
            ExpressionType::RuleTypeName(_) => 4,
            ExpressionType::Vector(_) => 5,
            ExpressionType::Tuple(_) => 6,
            ExpressionType::OptionalTy(_) => 7,
            ExpressionType::UnnamedSum(_) => 8,
        }
    }

    /// The rule that a placeholder or a type name refers to; 0 otherwise.
    pub fn rule_ident(&self) -> (r: Ident)
        ensures
            r == rule_of(*self),
    {
        match self {
            ExpressionType::RuleTypePlaceholder(i) => *i,
            ExpressionType::RuleTypeName(i) => *i,
            _ => 0,
        }
    }

    /// The slots this type value points to, in order.
    pub fn child_slots(&self) -> (r: Vec<PTy>)
        ensures
            r@ == children(*self),
    {
        match self {
            ExpressionType::Vector(c) => vec![*c],
            ExpressionType::OptionalTy(c) => vec![*c],
            ExpressionType::Tuple(v) => copy_handles(v),
            ExpressionType::UnnamedSum(v) => copy_handles(v),
            _ => Vec::new(),
        }
    }

}

/// `is_unit` holds of exactly the two unit shapes.
pub proof fn lemma_is_unit_exact(t: ExpressionType)
    ensures
        spec_is_unit(t) <==> (t == ExpressionType::Unit || t == ExpressionType::UnitPropagate),
{
}

/// The store of type slots. Every child handle of a slot names a slot of the
/// same store.
#[derive(Debug)]
pub struct TypeArena {
    pub slots: Vec<ExpressionType>,
}

impl TypeArena {

    pub open spec fn view(&self) -> Seq<ExpressionType> {
        self.slots@
    }

    pub open spec fn valid(&self, h: PTy) -> bool {
        h.index < self.slots@.len()
    }

    pub open spec fn wf(&self) -> bool {
        closed(self.slots@)
    }

    /// An empty store.
    pub fn new() -> (r: TypeArena)
        ensures
            r@ == Seq::<ExpressionType>::empty(),
            r.wf(),
    {
        TypeArena { slots: Vec::new() }
    }

    /// The number of slots.
    pub fn len(&self) -> (r: usize)
        ensures
            r == self@.len(),
    {
        self.slots.len()
    }

    /// The content bound to slot `h`, copied.
    pub fn get(&self, h: PTy) -> (r: ExpressionType)
        requires
            self.valid(h),
        ensures
            same_shape(r, self@[h.index as int]),
            spec_is_unit(r) == spec_is_unit(self@[h.index as int]),
            r is RuleTypePlaceholder == self@[h.index as int] is RuleTypePlaceholder,
    {
        self.slots[h.index].copy()
    }

    /// Whether slot `h` holds a unit type.
    pub fn is_unit_at(&self, h: PTy) -> (r: bool)
        requires
            self.valid(h),
        ensures
            r == spec_is_unit(self@[h.index as int]),
    {
        self.slots[h.index].is_unit()
    }

    /// Whether slot `h` holds a placeholder.
    pub fn is_ph_at(&self, h: PTy) -> (r: bool)
        requires
            self.valid(h),
        ensures
            r == (self@[h.index as int] is RuleTypePlaceholder),
    {
        self.slots[h.index].is_type_ph()
    }

    /// Whether slots `x` and `y` hold structurally equal types, compared
    /// down to depth `fuel`.
    pub fn struct_eq_at(&self, x: PTy, y: PTy, fuel: usize) -> (r: bool)
        requires
            self.wf(),
            self.valid(x),
            self.valid(y),
        ensures
            r == struct_eq(self@, x, y, fuel as nat),
        decreases fuel,
    {
        if x == y {
            return true;
        }
        let tx = &self.slots[x.index];
        let ty = &self.slots[y.index];
        if tx.tag_of() != ty.tag_of() || tx.rule_ident() != ty.rule_ident() {
            return false;
        }
        let cx = tx.child_slots();
        let cy = ty.child_slots();
        if cx.len() != cy.len() {
            return false;
        }
        if cx.len() == 0 {
            return true;
        }
        if fuel == 0 {
            return false;
        }
        proof {
            assert(children_below(*tx, self@.len()));
            assert(children_below(*ty, self@.len()));
        }
        let mut i: usize = 0;
        while i < cx.len()
            invariant
                self.wf(),
                fuel > 0,
                cx@ == children(self@[x.index as int]),
                cy@ == children(self@[y.index as int]),
                cx@.len() == cy@.len(),
                children_below(self@[x.index as int], self@.len()),
                children_below(self@[y.index as int], self@.len()),
                i <= cx@.len(),
                all_eq(self@, cx@.subrange(0, i as int), cy@.subrange(0, i as int), (fuel - 1) as nat),
            decreases cx@.len() - i,
        {
            proof {
                assert(cx@.subrange(0, i + 1).drop_last() =~= cx@.subrange(0, i as int));
                assert(cy@.subrange(0, i + 1).drop_last() =~= cy@.subrange(0, i as int));
            }
            if !self.struct_eq_at(cx[i], cy[i], fuel - 1) {
                proof {
                    if struct_eq(self@, x, y, fuel as nat) {
                        lemma_all_eq_prefix(self@, cx@, cy@, (fuel - 1) as nat, i as int);
                    }
                }
                return false;
            }
            i = i + 1;
        }
        proof {
            assert(cx@.subrange(0, cx@.len() as int) =~= cx@);
            assert(cy@.subrange(0, cy@.len() as int) =~= cy@);
        }
        true
    }

    /// Rebinds slot `h` in place: every alias of `h` sees the new content.
    pub fn rebind(&mut self, h: PTy, t: ExpressionType)
        requires
            old(self).wf(),
            old(self).valid(h),
            children_below(t, old(self)@.len()),
        ensures
            final(self)@ == old(self)@.update(h.index as int, t),
            final(self).wf(),
    {
        self.slots.set(h.index, t);
        assert forall|i: int| 0 <= i < self.slots@.len() implies children_below(
            #[trigger] self.slots@[i],
            self.slots@.len(),
        ) by {
            if i != h.index {
                assert(children_below(old(self).slots@[i], old(self).slots@.len()));
            }
        }
    }
}

/// A fresh slot bound to `expr`.
pub fn make_pty(arena: &mut TypeArena, expr: ExpressionType) -> (r: PTy)
    requires
        old(arena).wf(),
        children_below(expr, old(arena)@.len()),
        old(arena)@.len() < usize::MAX,
    ensures
        final(arena)@ == old(arena)@.push(expr),
        r.index == old(arena)@.len(),
        final(arena).wf(),
{
    let r = PTy { index: arena.slots.len() };
    arena.slots.push(expr);
    assert forall|i: int| 0 <= i < arena.slots@.len() implies children_below(
        #[trigger] arena.slots@[i],
        arena.slots@.len(),
    ) by {
        if i < old(arena).slots@.len() {
            assert(children_below(old(arena).slots@[i], old(arena).slots@.len()));
        }
    }
    r
}

} // verus!
