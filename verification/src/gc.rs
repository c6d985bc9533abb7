use vstd::prelude::*;

use crate::objects::object::{capped, lemma_capped_sum, value_refers_to, HeapObject};
use crate::objects::object_manager::ObjectManager;
use crate::table::Table;
use crate::value::{ObjRef, Value};

verus! {

// ---------------------------------------------------------------------------
// The object graph
// ---------------------------------------------------------------------------

/// Managed object `a` refers to managed object `b`.
pub open spec fn edge(m: ObjectManager, stack: Seq<Value>, a: ObjRef, b: ObjRef) -> bool {
    &&& m.managed().contains(a)
    &&& m.managed().contains(b)
    &&& m.slot(a) matches Some(o) && o.refers_to(stack, b)
}

/// Every managed object that a member of `s` refers to is in `s`.
pub open spec fn closed_under(m: ObjectManager, stack: Seq<Value>, s: Set<ObjRef>) -> bool {
    forall|a: ObjRef, b: ObjRef| #[trigger] s.contains(a) && #[trigger] edge(m, stack, a, b) ==> s.contains(b)
}

/// `s` contains all the roots.
pub open spec fn holds_roots(roots: Set<ObjRef>, s: Set<ObjRef>) -> bool {
    forall|r: ObjRef| #[trigger] roots.contains(r) ==> s.contains(r)
}

/// `h` is a managed object that every set holding the roots and closed under references
/// contains: it can be reached from the roots.
pub open spec fn reachable(m: ObjectManager, stack: Seq<Value>, roots: Set<ObjRef>, h: ObjRef) -> bool {
    &&& m.managed().contains(h)
    &&& forall|s: Set<ObjRef>|
        holds_roots(roots, s) && closed_under(m, stack, s) ==> #[trigger] s.contains(h)
}

/// Every object of `through` that a member of `s` refers to is in `s`.
pub open spec fn closed_into(
    m: ObjectManager,
    stack: Seq<Value>,
    s: Set<ObjRef>,
    through: Set<ObjRef>,
) -> bool {
    forall|a: ObjRef, b: ObjRef|
        #[trigger] s.contains(a) && #[trigger] edge(m, stack, a, b) && through.contains(b)
            ==> s.contains(b)
}

/// `h` is in every set that holds `seeds` and takes in the objects of `through` that its
/// members refer to: it can be reached from `seeds` by references through objects of
/// `through`.
pub open spec fn spreads_to(
    m: ObjectManager,
    stack: Seq<Value>,
    seeds: Set<ObjRef>,
    through: Set<ObjRef>,
    h: ObjRef,
) -> bool {
    forall|s: Set<ObjRef>|
        seeds.subset_of(s) && closed_into(m, stack, s, through) ==> #[trigger] s.contains(h)
}

/// When the seeds are the managed roots and the rest of the managed objects are those to go
/// through, spreading from the seeds reaches what the roots reach.
pub proof fn lemma_spread_from_roots(
    m: ObjectManager,
    stack: Seq<Value>,
    roots: Set<ObjRef>,
    seeds: Set<ObjRef>,
    through: Set<ObjRef>,
)
    requires
        forall|h: ObjRef| #[trigger] seeds.contains(h) == (roots.contains(h) && m.managed().contains(h)),
        forall|h: ObjRef| #[trigger] m.managed().contains(h) ==> seeds.contains(h) || through.contains(h),
    ensures
        forall|h: ObjRef| #[trigger] spreads_to(m, stack, seeds, through, h) == reachable(m, stack, roots, h),
{
    let reach = Set::new(|x: ObjRef| reachable(m, stack, roots, x));
    assert(seeds.subset_of(reach)) by {
        assert forall|x: ObjRef| seeds.contains(x) implies reach.contains(x) by {
            assert forall|s2: Set<ObjRef>| holds_roots(roots, s2) && closed_under(m, stack, s2) implies #[trigger] s2.contains(x) by {
                assert(roots.contains(x));
            }
        }
    }
    assert(closed_into(m, stack, reach, through)) by {
        assert forall|a: ObjRef, b: ObjRef|
            #[trigger] reach.contains(a) && #[trigger] edge(m, stack, a, b) && through.contains(b) implies reach.contains(b) by {
            assert forall|s2: Set<ObjRef>| holds_roots(roots, s2) && closed_under(m, stack, s2) implies #[trigger] s2.contains(b) by {
                assert(s2.contains(a));
            }
        }
    }
    assert forall|h: ObjRef| #[trigger] spreads_to(m, stack, seeds, through, h) == reachable(m, stack, roots, h) by {
        if spreads_to(m, stack, seeds, through, h) {
            assert(reach.contains(h));
        }
        if reachable(m, stack, roots, h) {
            assert forall|s: Set<ObjRef>| seeds.subset_of(s) && closed_into(m, stack, s, through) implies #[trigger] s.contains(h) by {
                let s2 = s.union(roots);
                assert(holds_roots(roots, s2));
                assert(closed_under(m, stack, s2)) by {
                    assert forall|a: ObjRef, b: ObjRef| #[trigger] s2.contains(a) && #[trigger] edge(m, stack, a, b) implies s2.contains(b) by {
                        if !s.contains(a) {
                            assert(roots.contains(a) && m.managed().contains(a));
                            assert(seeds.contains(a));
                        }
                        if !seeds.contains(b) {
                            assert(through.contains(b));
                        }
                    }
                }
                assert(s2.contains(h));
                if !s.contains(h) {
                    assert(seeds.contains(h));
                }
            }
        }
    }
}

/// The objects that the values refer to.
pub open spec fn value_refs(values: Seq<Value>) -> Set<ObjRef> {
    Set::new(|r: ObjRef| exists|i: int| 0 <= i < values.len() && value_refers_to(#[trigger] values[i], r))
}

/// The callee values at the frames' bases.
pub open spec fn frame_values(stack: Seq<Value>, frame_bases: Seq<usize>) -> Seq<Value> {
    Seq::new(frame_bases.len(), |j: int| stack[frame_bases[j] as int])
}

/// All the objects that the VM holds directly.
pub open spec fn root_set(
    stack: Seq<Value>,
    stack_top: int,
    globals: Table,
    intern_strings: Table,
    frame_bases: Seq<usize>,
    open_upvalues: Seq<ObjRef>,
) -> Set<ObjRef> {
    value_refs(stack.take(stack_top)).union(value_refs(globals.spec_values())).union(
        value_refs(intern_strings.spec_values()),
    ).union(value_refs(frame_values(stack, frame_bases))).union(open_upvalues.to_set())
}

/// The objects that one value refers to: the object it holds, if any.
pub proof fn lemma_value_refs_single(v: Value)
    ensures
        value_refs(seq![v]) == (match v {
            Value::Object(r) => Set::<ObjRef>::empty().insert(r),
            _ => Set::<ObjRef>::empty(),
        }),
{
    assert(seq![v][0] == v);
    assert(value_refs(seq![v]) =~= (match v {
        Value::Object(r) => Set::<ObjRef>::empty().insert(r),
        _ => Set::<ObjRef>::empty(),
    }));
}

proof fn lemma_value_refs_push(s: Seq<Value>, i: int)
    requires
        0 <= i < s.len(),
    ensures
        value_refs(s.take(i + 1)) == value_refs(s.take(i)).union(value_refs(seq![s[i]])),
{
    lemma_value_refs_single(s[i]);
    assert forall|r: ObjRef| #[trigger] value_refs(s.take(i + 1)).contains(r) == value_refs(s.take(i)).union(
        value_refs(seq![s[i]]),
    ).contains(r) by {
        if value_refs(s.take(i + 1)).contains(r) {
            let k = choose|k: int| 0 <= k < i + 1 && value_refers_to(#[trigger] s.take(i + 1)[k], r);
            if k < i {
                assert(s.take(i)[k] == s.take(i + 1)[k]);
            }
        }
        if value_refs(s.take(i)).contains(r) {
            let k = choose|k: int| 0 <= k < i && value_refers_to(#[trigger] s.take(i)[k], r);
            assert(s.take(i + 1)[k] == s.take(i)[k]);
        }
        if value_refs(seq![s[i]]).contains(r) {
            assert(s.take(i + 1)[i] == s[i]);
        }
    }
    assert(value_refs(s.take(i + 1)) =~= value_refs(s.take(i)).union(value_refs(seq![s[i]])));
}

proof fn lemma_to_set_push(s: Seq<ObjRef>, a: ObjRef)
    ensures
        s.push(a).to_set() == s.to_set().insert(a),
{
    assert forall|x: ObjRef| #[trigger] s.push(a).to_set().contains(x) == s.to_set().insert(a).contains(x) by {
        if s.push(a).to_set().contains(x) {
            let i = choose|i: int| 0 <= i < s.push(a).len() && s.push(a)[i] == x;
            if i < s.len() {
                assert(s[i] == x);
            }
        }
        if s.to_set().contains(x) {
            let i = choose|i: int| 0 <= i < s.len() && s[i] == x;
            assert(s.push(a)[i] == x);
        }
        if x == a {
            assert(s.push(a)[s.len() as int] == a);
        }
    }
    assert(s.push(a).to_set() =~= s.to_set().insert(a));
}

/// `n` entries, all `false`.
fn all_false(n: usize) -> (v: Vec<bool>)
    ensures
        v@.len() == n,
        forall|i: int| 0 <= i < n ==> !v@[i],
{
    let mut v: Vec<bool> = Vec::new();
    let mut i: usize = 0;
    while i < n
        invariant
            i <= n,
            v@.len() == i,
            forall|k: int| 0 <= k < i ==> !v@[k],
        decreases n - i,
    {
        v.push(false);
        i = i + 1;
    }
    v
}

/// Number of `false` entries.
pub open spec fn count_false(s: Seq<bool>) -> nat
    decreases s.len(),
{
    if s.len() == 0 {
        0
    } else {
        count_false(s.drop_last()) + (if s.last() {
            0nat
        } else {
            1nat
        })
    }
}

proof fn lemma_count_false_set(s: Seq<bool>, i: int)
    requires
        0 <= i < s.len(),
        !s[i],
    ensures
        count_false(s.update(i, true)) + 1 == count_false(s),
    decreases s.len(),
{
    let t = s.update(i, true);
    if i == s.len() - 1 {
        assert(t.drop_last() =~= s.drop_last());
    } else {
        assert(t.drop_last() =~= s.drop_last().update(i, true));
        lemma_count_false_set(s.drop_last(), i);
    }
}

/// Every managed root is reachable.
pub proof fn lemma_roots_reachable(m: ObjectManager, stack: Seq<Value>, roots: Set<ObjRef>, r: ObjRef)
    requires
        roots.contains(r),
        m.managed().contains(r),
    ensures
        reachable(m, stack, roots, r),
{
}

/// What a reachable object refers to is reachable too.
pub proof fn lemma_reachable_closed(
    m: ObjectManager,
    stack: Seq<Value>,
    roots: Set<ObjRef>,
    a: ObjRef,
    b: ObjRef,
)
    requires
        reachable(m, stack, roots, a),
        edge(m, stack, a, b),
    ensures
        reachable(m, stack, roots, b),
{
    assert forall|s: Set<ObjRef>| holds_roots(roots, s) && closed_under(m, stack, s) implies #[trigger] s.contains(b) by {
        assert(s.contains(a));
    }
}

/// More roots reach at least as much.
pub proof fn lemma_reachable_more_roots(
    m: ObjectManager,
    stack: Seq<Value>,
    roots: Set<ObjRef>,
    more: Set<ObjRef>,
    h: ObjRef,
)
    requires
        roots.subset_of(more),
        reachable(m, stack, roots, h),
    ensures
        reachable(m, stack, more, h),
{
    assert forall|s: Set<ObjRef>| holds_roots(more, s) && closed_under(m, stack, s) implies #[trigger] s.contains(h) by {
        assert(holds_roots(roots, s));
    }
}

/// Reachability depends on the managed objects and their slots alone.
pub proof fn lemma_reachable_same_heap(
    a: ObjectManager,
    b: ObjectManager,
    stack: Seq<Value>,
    roots: Set<ObjRef>,
    h: ObjRef,
)
    requires
        a.managed() == b.managed(),
        forall|q: ObjRef| #[trigger] a.slot(q) == b.slot(q),
    ensures
        reachable(a, stack, roots, h) == reachable(b, stack, roots, h),
{
    assert forall|x: ObjRef, y: ObjRef| edge(a, stack, x, y) == edge(b, stack, x, y) by {
        assert(a.slot(x) == b.slot(x));
    }
    assert forall|s: Set<ObjRef>| closed_under(a, stack, s) == closed_under(b, stack, s) by {
        if closed_under(a, stack, s) {
            assert forall|x: ObjRef, y: ObjRef| #[trigger] s.contains(x) && #[trigger] edge(b, stack, x, y) implies s.contains(y) by {
                assert(edge(a, stack, x, y));
            }
        }
        if closed_under(b, stack, s) {
            assert forall|x: ObjRef, y: ObjRef| #[trigger] s.contains(x) && #[trigger] edge(a, stack, x, y) implies s.contains(y) by {
                assert(edge(b, stack, x, y));
            }
        }
    }
}

// ---------------------------------------------------------------------------
// Statistics
// ---------------------------------------------------------------------------

/// Totals over the collection cycles (the bytes live right now are the VM's to track).
#[derive(Debug, Clone, Copy)]
pub struct GCStats {
    pub cycles: u64,
    pub total_freed_bytes: usize,
    pub last_freed_bytes: usize,
    pub last_before_bytes: usize,
    pub last_after_bytes: usize,
    pub last_next_trigger_bytes: usize,
}

impl Default for GCStats {
    fn default() -> (s: Self)
        ensures
            s.cycles == 0,
            s.total_freed_bytes == 0,
            s.last_freed_bytes == 0,
            s.last_before_bytes == 0,
            s.last_after_bytes == 0,
            s.last_next_trigger_bytes == 0,
    {
        GCStats {
            cycles: 0,
            total_freed_bytes: 0,
            last_freed_bytes: 0,
            last_before_bytes: 0,
            last_after_bytes: 0,
            last_next_trigger_bytes: 0,
        }
    }
}

impl GCStats {
    /// The statistics after one more cycle with the given figures.
    pub open spec fn after_cycle(self, before: usize, freed: usize, after: usize, next_trigger: usize) -> GCStats {
        GCStats {
            cycles: (self.cycles + 1) as u64,
            total_freed_bytes: (self.total_freed_bytes + freed) as usize,
            last_freed_bytes: freed,
            last_before_bytes: before,
            last_after_bytes: after,
            last_next_trigger_bytes: next_trigger,
        }
    }

    /// The statistics after the cycles `figures`, each giving the bytes before, freed, after
    /// and the next trigger, in order.
    pub open spec fn after_cycles(self, figures: Seq<(usize, usize, usize, usize)>) -> GCStats
        decreases figures.len(),
    {
        if figures.len() == 0 {
            self
        } else {
            let (before, freed, after, next) = figures.last();
            self.after_cycles(figures.drop_last()).after_cycle(before, freed, after, next)
        }
    }

    /// The total of the bytes freed in `figures`.
    pub open spec fn freed_total(figures: Seq<(usize, usize, usize, usize)>) -> int
        decreases figures.len(),
    {
        if figures.len() == 0 {
            0
        } else {
            Self::freed_total(figures.drop_last()) + figures.last().1
        }
    }

    /// Over any cycles that the counters can hold, the statistics count every cycle, add up
    /// every cycle's freed bytes and keep the last cycle's figures.
    pub proof fn lemma_after_cycles(self, figures: Seq<(usize, usize, usize, usize)>)
        requires
            self.cycles + figures.len() <= u64::MAX,
            self.total_freed_bytes + Self::freed_total(figures) <= usize::MAX,
        ensures
            self.after_cycles(figures).cycles == self.cycles + figures.len(),
            self.after_cycles(figures).total_freed_bytes == self.total_freed_bytes
                + Self::freed_total(figures),
            figures.len() > 0 ==> {
                let (before, freed, after, next) = figures.last();
                &&& self.after_cycles(figures).last_before_bytes == before
                &&& self.after_cycles(figures).last_freed_bytes == freed
                &&& self.after_cycles(figures).last_after_bytes == after
                &&& self.after_cycles(figures).last_next_trigger_bytes == next
            },
        decreases figures.len(),
    {
        if figures.len() > 0 {
            let rest = figures.drop_last();
            Self::lemma_freed_total_nonneg(rest);
            self.lemma_after_cycles(rest);
        }
    }

    proof fn lemma_freed_total_nonneg(figures: Seq<(usize, usize, usize, usize)>)
        ensures
            Self::freed_total(figures) >= 0,
        decreases figures.len(),
    {
        if figures.len() > 0 {
            Self::lemma_freed_total_nonneg(figures.drop_last());
        }
    }

    /// Counts a finished cycle with its figures.
    pub fn record(&mut self, before: usize, freed: usize, after: usize, next_trigger: usize)
        requires
            old(self).cycles < u64::MAX,
            old(self).total_freed_bytes + freed <= usize::MAX,
        ensures
            *final(self) == old(self).after_cycle(before, freed, after, next_trigger),
    {
        self.cycles += 1;
        self.total_freed_bytes += freed;
        self.last_freed_bytes = freed;
        self.last_before_bytes = before;
        self.last_after_bytes = after;
        self.last_next_trigger_bytes = next_trigger;
    }
}

// ---------------------------------------------------------------------------
// The collector
// ---------------------------------------------------------------------------

/// The bytes that sweeping the slots below `h` of `m` frees: the sizes of the objects there
/// that `gc` has white, their buffers having the capacities `caps`.
pub open spec fn freed_total(
    m: ObjectManager,
    gc: GarbageCollector,
    caps: Map<ObjRef, Seq<int>>,
    h: int,
) -> int
    decreases h,
{
    if h <= 0 {
        0
    } else {
        let x = (h - 1) as ObjRef;
        freed_total(m, gc, caps, h - 1) + if gc.is_white(x) && m.slot(x) is Some {
            m.slot(x)->Some_0.size_with(caps[x])
        } else {
            0
        }
    }
}

/// Capacities that agree below `h` give the same total.
proof fn lemma_freed_total_agree(
    m: ObjectManager,
    gc: GarbageCollector,
    c1: Map<ObjRef, Seq<int>>,
    c2: Map<ObjRef, Seq<int>>,
    h: int,
)
    requires
        forall|x: ObjRef| (x as int) < h ==> #[trigger] c1[x] == c2[x],
    ensures
        freed_total(m, gc, c1, h) == freed_total(m, gc, c2, h),
    decreases h,
{
    if h > 0 {
        lemma_freed_total_agree(m, gc, c1, c2, h - 1);
        let x = (h - 1) as ObjRef;
        assert(c1[x] == c2[x]);
    }
}

/// Slots from `a` to `b` that free nothing leave the total as it was.
proof fn lemma_freed_total_stable(
    m: ObjectManager,
    gc: GarbageCollector,
    caps: Map<ObjRef, Seq<int>>,
    a: int,
    b: int,
)
    requires
        0 <= a <= b,
        b <= usize::MAX + 1,
        forall|x: ObjRef|
            a <= (x as int) < b ==> !(gc.is_white(x) && #[trigger] m.slot(x) is Some),
    ensures
        freed_total(m, gc, caps, a) == freed_total(m, gc, caps, b),
    decreases b - a,
{
    if a < b {
        lemma_freed_total_stable(m, gc, caps, a, b - 1);
        let x = (b - 1) as ObjRef;
        assert(!(gc.is_white(x) && m.slot(x) is Some));
    }
}

/// A tri-color mark and sweep collector. White objects are not yet known to be reachable,
/// gray ones are reachable with references still to follow, black ones are done.
pub struct GarbageCollector {
    white_set: Vec<bool>,
    gray_set: Vec<ObjRef>,
    black_set: Vec<bool>,
    stats: GCStats,
    /// The objects that were managed when the collection began.
    universe: Ghost<Set<ObjRef>>,
    /// The objects marked as roots since the collection began.
    roots: Ghost<Set<ObjRef>>,
}

impl GarbageCollector {
    pub closed spec fn is_white(&self, h: ObjRef) -> bool {
        (h as int) < self.white_set@.len() && self.white_set@[h as int]
    }

    pub closed spec fn is_black(&self, h: ObjRef) -> bool {
        (h as int) < self.black_set@.len() && self.black_set@[h as int]
    }

    pub closed spec fn is_gray(&self, h: ObjRef) -> bool {
        self.gray_set@.contains(h)
    }

    pub closed spec fn gray_count(&self) -> nat {
        self.gray_set@.len()
    }

    pub closed spec fn spec_universe(&self) -> Set<ObjRef> {
        self.universe@
    }

    pub closed spec fn spec_roots(&self) -> Set<ObjRef> {
        self.roots@
    }

    pub closed spec fn spec_stats(&self) -> GCStats {
        self.stats
    }

    /// Every object of the collection is of exactly one color, and no root is white.
    pub closed spec fn inv(&self) -> bool {
        &&& forall|h: ObjRef|
            #[trigger] self.universe@.contains(h) ==> (h as int) < self.white_set@.len() && (h as int)
                < self.black_set@.len()
        &&& forall|h: ObjRef| #[trigger] self.is_white(h) ==> self.universe@.contains(h)
        &&& forall|h: ObjRef| #[trigger] self.is_black(h) ==> self.universe@.contains(h) && !self.is_white(h)
        &&& forall|j: int|
            0 <= j < self.gray_set@.len() ==> self.universe@.contains(#[trigger] self.gray_set@[j])
                && !self.is_white(self.gray_set@[j]) && !self.is_black(self.gray_set@[j])
        &&& forall|i: int, j: int|
            0 <= i < self.gray_set@.len() && 0 <= j < self.gray_set@.len() && i != j
                ==> self.gray_set@[i] != self.gray_set@[j]
        &&& forall|h: ObjRef|
            #[trigger] self.universe@.contains(h) ==> self.is_white(h) || self.is_black(h) || self.is_gray(h)
        &&& forall|r: ObjRef|
            #[trigger] self.roots@.contains(r) && self.universe@.contains(r) ==> !self.is_white(r)
    }

    /// No object is black yet and every gray object is a root: tracing has not begun.
    pub closed spec fn fresh(&self) -> bool {
        &&& forall|h: ObjRef| !#[trigger] self.is_black(h)
        &&& forall|j: int| 0 <= j < self.gray_set@.len() ==> self.roots@.contains(#[trigger] self.gray_set@[j])
    }

    /// What the invariant promises: every object of the collection has exactly one color,
    /// only objects of the collection have one, and no root of the collection is white.
    pub proof fn lemma_colors(&self)
        requires
            self.inv(),
        ensures
            forall|h: ObjRef| #[trigger]
                self.spec_universe().contains(h) ==> (self.is_white(h) || self.is_black(h)
                    || self.is_gray(h)),
            forall|h: ObjRef|
                !(#[trigger] self.is_white(h) && self.is_black(h)) && !(self.is_white(h)
                    && self.is_gray(h)) && !(self.is_black(h) && self.is_gray(h)),
            forall|h: ObjRef|
                (#[trigger] self.is_white(h) || self.is_black(h) || self.is_gray(h))
                    ==> self.spec_universe().contains(h),
            forall|r: ObjRef|
                #[trigger] self.spec_roots().contains(r) && self.spec_universe().contains(r)
                    ==> !self.is_white(r),
    {
        assert forall|h: ObjRef| !(#[trigger] self.is_white(h) && self.is_black(h)) && !(
        self.is_white(h) && self.is_gray(h)) && !(self.is_black(h) && self.is_gray(h)) by {
            if self.is_gray(h) {
                let j = self.gray_set@.index_of(h);
                assert(self.gray_set@[j] == h);
            }
        }
        assert forall|h: ObjRef| (#[trigger] self.is_white(h) || self.is_black(h) || self.is_gray(h))
            implies self.spec_universe().contains(h) by {
            if self.is_gray(h) {
                let j = self.gray_set@.index_of(h);
                assert(self.gray_set@[j] == h);
            }
        }
    }

    /// What a fresh collection promises: no object is black and every gray object is a root.
    pub proof fn lemma_fresh(&self)
        requires
            self.fresh(),
        ensures
            forall|h: ObjRef| !#[trigger] self.is_black(h),
            forall|h: ObjRef| #[trigger] self.is_gray(h) ==> self.spec_roots().contains(h),
    {
        assert forall|h: ObjRef| #[trigger] self.is_gray(h) implies self.spec_roots().contains(h) by {
            let j = self.gray_set@.index_of(h);
            assert(self.gray_set@[j] == h);
        }
    }

    pub fn new() -> (gc: Self)
        ensures
            gc.inv(),
            gc.fresh(),
            gc.spec_universe() == Set::<ObjRef>::empty(),
            gc.spec_roots() == Set::<ObjRef>::empty(),
            gc.spec_stats().cycles == 0,
            gc.spec_stats().total_freed_bytes == 0,
            gc.spec_stats().last_freed_bytes == 0,
            gc.spec_stats().last_before_bytes == 0,
            gc.spec_stats().last_after_bytes == 0,
            gc.spec_stats().last_next_trigger_bytes == 0,
            forall|h: ObjRef| !#[trigger] gc.is_white(h) && !gc.is_black(h) && !gc.is_gray(h),
    {
        let ghost e = Set::<ObjRef>::empty();
        Self {
            white_set: Vec::new(),
            gray_set: Vec::new(),
            black_set: Vec::new(),
            stats: GCStats::default(),
            universe: Ghost(e),
            roots: Ghost(e),
        }
    }

    /// Forgets every color and root.
    pub fn reset(&mut self)
        ensures
            final(self).inv(),
            final(self).fresh(),
            final(self).spec_universe() == Set::<ObjRef>::empty(),
            final(self).spec_roots() == Set::<ObjRef>::empty(),
            final(self).gray_count() == 0,
            forall|h: ObjRef| !final(self).is_white(h) && !final(self).is_black(h),
            final(self).spec_stats() == old(self).spec_stats(),
    {
        self.white_set.clear();
        self.gray_set.clear();
        self.black_set.clear();
        self.universe = Ghost(Set::empty());
        self.roots = Ghost(Set::empty());
    }

    /// Starts a collection: every managed object is white.
    pub fn prepare_collection(&mut self, object_manager: &ObjectManager)
        requires
            object_manager.wf(),
        ensures
            final(self).inv(),
            final(self).fresh(),
            final(self).spec_universe() == object_manager.managed(),
            final(self).spec_roots() == Set::<ObjRef>::empty(),
            final(self).gray_count() == 0,
            forall|h: ObjRef| #[trigger] final(self).is_white(h) == object_manager.managed().contains(h),
            final(self).spec_stats() == old(self).spec_stats(),
    {
        self.reset();
        let objs = object_manager.iter();
        let n = objs.len();
        let size = object_manager.slots();
        proof {
            assert forall|j: int| 0 <= j < objs@.len() implies (#[trigger] objs@[j] as int) < size by {
                object_manager.lemma_managed_in_heap(objs@[j]);
            }
        }
        let mut white: Vec<bool> = Vec::new();
        let mut black: Vec<bool> = Vec::new();
        let mut k: usize = 0;
        while k < size
            invariant
                k <= size,
                white@.len() == k,
                black@.len() == k,
                forall|q: int| 0 <= q < k ==> !white@[q] && !black@[q],
            decreases size - k,
        {
            white.push(false);
            black.push(false);
            k = k + 1;
        }
        let mut j: usize = 0;
        while j < n
            invariant
                objs@ == object_manager.spec_objects(),
                n == objs@.len(),
                j <= n,
                white@.len() == size,
                black@.len() == size,
                forall|k: int| 0 <= k < n ==> objs@[k] < size,
                forall|q: int| 0 <= q < size ==> !black@[q],
                forall|q: int| 0 <= q < size ==> (white@[q] <==> objs@.take(j as int).contains(q as ObjRef)),
            decreases n - j,
        {
            let ghost before = white@;
            white.set(objs[j], true);
            assert forall|q: int| 0 <= q < size implies (white@[q] <==> objs@.take(j + 1).contains(
                q as ObjRef,
            )) by {
                assert(objs@.take(j + 1)[j as int] == objs@[j as int]);
                if objs@.take(j as int).contains(q as ObjRef) {
                    let k = choose|k: int| 0 <= k < j && #[trigger] objs@.take(j as int)[k] == q as ObjRef;
                    assert(objs@.take(j + 1)[k] == q as ObjRef);
                }
                if objs@.take(j + 1).contains(q as ObjRef) {
                    let k = choose|k: int| 0 <= k < j + 1 && #[trigger] objs@.take(j + 1)[k] == q as ObjRef;
                    if k < j {
                        assert(objs@.take(j as int)[k] == q as ObjRef);
                    }
                }
            }
            j = j + 1;
        }
        assert(objs@.take(n as int) =~= objs@);
        self.white_set = white;
        self.black_set = black;
        self.universe = Ghost(object_manager.managed());
        assert forall|h: ObjRef| #[trigger] self.universe@.contains(h) implies (h as int) < self.white_set@.len()
            && (h as int) < self.black_set@.len() by {
            object_manager.lemma_managed_in_heap(h);
        }
        assert forall|h: ObjRef| #[trigger] self.is_white(h) == object_manager.managed().contains(h) by {
            if object_manager.managed().contains(h) {
                let k = choose|k: int| 0 <= k < objs@.len() && objs@[k] == h;
                assert(objs@[k] < size);
            }
        }
    }

    /// Colors, collection and roots are as in `other`.
    pub closed spec fn same_marks(&self, other: &Self) -> bool {
        &&& self.white_set == other.white_set
        &&& self.black_set == other.black_set
        &&& self.gray_set == other.gray_set
        &&& self.universe == other.universe
        &&& self.roots == other.roots
    }

    /// The gray objects.
    pub closed spec fn gray_objects(&self) -> Set<ObjRef> {
        Set::new(|h: ObjRef| self.is_gray(h))
    }

    /// The white objects.
    pub closed spec fn white_objects(&self) -> Set<ObjRef> {
        Set::new(|h: ObjRef| self.is_white(h))
    }

    /// No black object outside `kept` refers to a white object.
    spec fn tri_from(&self, m: ObjectManager, stack: Seq<Value>, kept: Set<ObjRef>) -> bool {
        forall|b: ObjRef, c: ObjRef|
            #[trigger] self.is_black(b) && #[trigger] edge(m, stack, b, c) && !kept.contains(b)
                ==> !self.is_white(c)
    }

    /// As `tri_from`, leaving `x` out too.
    spec fn tri_from_except(
        &self,
        m: ObjectManager,
        stack: Seq<Value>,
        kept: Set<ObjRef>,
        x: ObjRef,
    ) -> bool {
        forall|b: ObjRef, c: ObjRef|
            #[trigger] self.is_black(b) && #[trigger] edge(m, stack, b, c) && !kept.contains(b)
                && b != x ==> !self.is_white(c)
    }

    /// The marked objects outside `kept` are all in `s`.
    spec fn marked_beyond(&self, s: Set<ObjRef>, kept: Set<ObjRef>) -> bool {
        forall|h: ObjRef|
            #![trigger self.is_black(h)]
            #![trigger self.is_gray(h)]
            (self.is_black(h) || self.is_gray(h)) && !kept.contains(h) ==> s.contains(h)
    }

    /// Only objects that spread from `seeds` through `through` are marked, beyond `kept`.
    spec fn precise_from(
        &self,
        m: ObjectManager,
        stack: Seq<Value>,
        seeds: Set<ObjRef>,
        through: Set<ObjRef>,
        kept: Set<ObjRef>,
    ) -> bool {
        forall|s: Set<ObjRef>|
            seeds.subset_of(s) && closed_into(m, stack, s, through) ==> #[trigger] self.marked_beyond(
                s,
                kept,
            )
    }

    /// Turns `obj` gray if it is white.
    fn mark_reference(&mut self, obj: ObjRef)
        requires
            old(self).inv(),
        ensures
            final(self).inv(),
            final(self).universe == old(self).universe,
            final(self).roots == old(self).roots,
            final(self).stats == old(self).stats,
            final(self).black_set == old(self).black_set,
            forall|h: ObjRef| #[trigger] final(self).is_white(h) == (old(self).is_white(h) && h != obj),
            final(self).gray_set@ == (if old(self).is_white(obj) {
                old(self).gray_set@.push(obj)
            } else {
                old(self).gray_set@
            }),
    {
        if obj < self.black_set.len() && self.black_set[obj] {
            assert(self.is_black(obj));
            return ;
        }
        if obj < self.white_set.len() && self.white_set[obj] {
            let ghost before = *self;
            self.white_set.set(obj, false);
            self.gray_set.push(obj);
            assert forall|h: ObjRef| #[trigger] self.is_white(h) == (before.is_white(h) && h != obj) by {}
            assert forall|h: ObjRef| #[trigger] self.is_gray(h) == (before.is_gray(h) || h == obj) by {
                if self.is_gray(h) {
                    let j = choose|j: int| 0 <= j < self.gray_set@.len() && self.gray_set@[j] == h;
                    if j < before.gray_set@.len() {
                        assert(before.gray_set@[j] == h);
                    }
                }
                if before.is_gray(h) {
                    let j = choose|j: int| 0 <= j < before.gray_set@.len() && before.gray_set@[j] == h;
                    assert(self.gray_set@[j] == h);
                }
                if h == obj {
                    assert(self.gray_set@[self.gray_set@.len() - 1] == h);
                }
            }
            assert forall|i: int, j: int|
                0 <= i < self.gray_set@.len() && 0 <= j < self.gray_set@.len() && i
                    != j implies self.gray_set@[i] != self.gray_set@[j] by {
                let n = before.gray_set@.len();
                if i == n {
                    assert(!before.is_white(before.gray_set@[j]));
                } else if j == n {
                    assert(!before.is_white(before.gray_set@[i]));
                }
            }
            assert forall|j: int| 0 <= j < self.gray_set@.len() implies self.universe@.contains(
                #[trigger] self.gray_set@[j],
            ) && !self.is_white(self.gray_set@[j]) && !self.is_black(self.gray_set@[j]) by {
                let g = self.gray_set@[j];
                assert(self.is_white(g) == (before.is_white(g) && g != obj));
                assert(self.is_black(g) == before.is_black(g));
                if j < before.gray_set@.len() {
                    assert(before.gray_set@[j] == g);
                } else {
                    assert(g == obj);
                    assert(before.is_white(obj));
                    if before.is_black(obj) {
                        assert(!before.is_white(obj));
                    }
                }
            }
            assert forall|h: ObjRef| #[trigger] self.is_black(h) implies self.universe@.contains(h)
                && !self.is_white(h) by {
                assert(before.is_black(h));
                assert(self.is_white(h) == (before.is_white(h) && h != obj));
            }
            assert forall|h: ObjRef| #[trigger] self.universe@.contains(h) implies self.is_white(h)
                || self.is_black(h) || self.is_gray(h) by {
                assert(self.is_white(h) == (before.is_white(h) && h != obj));
                assert(self.is_gray(h) == (before.is_gray(h) || h == obj));
                assert(self.is_black(h) == before.is_black(h));
            }
            assert forall|r: ObjRef| #[trigger] self.roots@.contains(r) && self.universe@.contains(r)
                implies !self.is_white(r) by {
                assert(self.is_white(r) == (before.is_white(r) && r != obj));
            }
        }
    }

    /// Marks `obj` as a root: it turns gray if it is white.
    pub fn mark_object(&mut self, obj: ObjRef)
        requires
            old(self).inv(),
        ensures
            final(self).inv(),
            old(self).fresh() ==> final(self).fresh(),
            final(self).spec_universe() == old(self).spec_universe(),
            final(self).spec_roots() == old(self).spec_roots().insert(obj),
            final(self).spec_stats() == old(self).spec_stats(),
            final(self).gray_count() <= old(self).gray_count() + 1,
            forall|h: ObjRef| #[trigger] final(self).is_white(h) == (old(self).is_white(h) && h != obj),
            forall|h: ObjRef| #[trigger] final(self).is_black(h) == old(self).is_black(h),
            forall|h: ObjRef|
                #[trigger] final(self).is_gray(h) == (old(self).is_gray(h) || (h == obj
                    && old(self).is_white(obj))),
    {
        let ghost before = *self;
        self.mark_reference(obj);
        proof {
            assert forall|h: ObjRef| #[trigger] self.is_gray(h) == (before.is_gray(h) || (h == obj
                && before.is_white(obj))) by {
                if before.is_white(obj) {
                    assert(self.gray_set@ == before.gray_set@.push(obj));
                    if self.is_gray(h) {
                        let j = choose|j: int| 0 <= j < self.gray_set@.len() && self.gray_set@[j] == h;
                        if j < before.gray_set@.len() {
                            assert(before.gray_set@[j] == h);
                        }
                    }
                    if before.is_gray(h) {
                        let j = choose|j: int| 0 <= j < before.gray_set@.len() && before.gray_set@[j] == h;
                        assert(self.gray_set@[j] == h);
                    }
                    if h == obj {
                        assert(self.gray_set@[self.gray_set@.len() - 1] == h);
                    }
                } else {
                    assert(self.gray_set@ == before.gray_set@);
                }
            }
        }
        let ghost mid = *self;
        self.roots = Ghost(self.roots@.insert(obj));
        assert forall|h: ObjRef| #[trigger] self.universe@.contains(h) implies (h as int)
            < self.white_set@.len() && (h as int) < self.black_set@.len() by {
            assert(mid.universe@.contains(h));
        }
        assert forall|h: ObjRef| #[trigger] self.is_white(h) implies self.universe@.contains(h) by {
            assert(mid.is_white(h));
        }
        assert forall|h: ObjRef| #[trigger] self.is_black(h) implies self.universe@.contains(h)
            && !self.is_white(h) by {
            assert(mid.is_black(h));
        }
        assert forall|j: int| 0 <= j < self.gray_set@.len() implies self.universe@.contains(
            #[trigger] self.gray_set@[j],
        ) && !self.is_white(self.gray_set@[j]) && !self.is_black(self.gray_set@[j]) by {
            assert(mid.gray_set@[j] == self.gray_set@[j]);
        }
        assert forall|h: ObjRef| #[trigger] self.universe@.contains(h) implies self.is_white(h)
            || self.is_black(h) || self.is_gray(h) by {
            assert(mid.universe@.contains(h));
        }
        assert forall|j: int| 0 <= j < self.gray_set@.len() && before.fresh() implies self.roots@.contains(
            #[trigger] self.gray_set@[j],
        ) by {
            if j < before.gray_set@.len() {
                assert(before.gray_set@[j] == self.gray_set@[j]);
            }
        }
        assert forall|h: ObjRef| before.fresh() implies !#[trigger] self.is_black(h) by {
            assert(!before.is_black(h));
        }
        assert forall|r: ObjRef| #[trigger] self.roots@.contains(r) && self.universe@.contains(r)
            implies !self.is_white(r) by {
            assert(self.is_white(r) == (before.is_white(r) && r != obj));
        }
        assert forall|h: ObjRef| #[trigger] self.is_gray(h) == mid.is_gray(h) by {
            assert(self.gray_set == mid.gray_set);
        }
    }

    /// Marks the object of `value` as a root, if the value refers to one.
    pub fn mark_value(&mut self, value: &Value)
        requires
            old(self).inv(),
        ensures
            final(self).inv(),
            old(self).fresh() ==> final(self).fresh(),
            final(self).spec_universe() == old(self).spec_universe(),
            final(self).spec_roots() == old(self).spec_roots().union(value_refs(seq![*value])),
            final(self).spec_stats() == old(self).spec_stats(),
    {
        proof {
            lemma_value_refs_single(*value);
        }
        match value {
            Value::Object(r) => {
                self.mark_object(*r);
            },
            _ => {
                assert(self.roots@.union(Set::empty()) =~= self.roots@);
            },
        }
    }

    /// Marks as roots the objects of all the values.
    fn mark_values(&mut self, values: &[Value], upto: usize)
        requires
            old(self).inv(),
            upto <= values@.len(),
        ensures
            final(self).inv(),
            old(self).fresh() ==> final(self).fresh(),
            final(self).spec_universe() == old(self).spec_universe(),
            final(self).spec_roots() == old(self).spec_roots().union(value_refs(values@.take(upto as int))),
            final(self).spec_stats() == old(self).spec_stats(),
    {
        let ghost r0 = self.roots@;
        let ghost f0 = self.fresh();
        let mut i: usize = 0;
        assert(value_refs(values@.take(0)) =~= Set::empty());
        assert(r0.union(value_refs(values@.take(0))) =~= r0);
        while i < upto
            invariant
                self.inv(),
                f0 ==> self.fresh(),
                self.universe == old(self).universe,
                self.stats == old(self).stats,
                i <= upto <= values@.len(),
                self.roots@ == r0.union(value_refs(values@.take(i as int))),
            decreases upto - i,
        {
            self.mark_value(&values[i]);
            proof {
                lemma_value_refs_push(values@, i as int);
                assert(r0.union(value_refs(values@.take(i as int))).union(value_refs(seq![values@[i as int]]))
                    =~= r0.union(value_refs(values@.take(i + 1))));
            }
            i = i + 1;
        }
    }

    /// Marks the objects that the VM holds directly: the live part of the stack, the globals,
    /// the interned strings, the callee of each frame (at the frame's base) and the open
    /// upvalues.
    pub fn mark_roots(
        &mut self,
        stack: &[Value],
        stack_top: usize,
        globals: &Table,
        intern_strings: &Table,
        frame_bases: &[usize],
        open_upvalues: &[ObjRef],
    )
        requires
            old(self).inv(),
            stack_top <= stack@.len(),
            forall|j: int| 0 <= j < frame_bases@.len() ==> #[trigger] frame_bases@[j] < stack@.len(),
            globals.wf(),
            intern_strings.wf(),
        ensures
            final(self).inv(),
            old(self).fresh() ==> final(self).fresh(),
            final(self).spec_universe() == old(self).spec_universe(),
            final(self).spec_roots() == old(self).spec_roots().union(
                root_set(stack@, stack_top as int, *globals, *intern_strings, frame_bases@, open_upvalues@),
            ),
            final(self).spec_stats() == old(self).spec_stats(),
    {
        let ghost r0 = self.roots@;
        self.mark_values(stack, stack_top);
        let ghost r1 = self.roots@;
        let n = globals.len();
        let mut i: usize = 0;
        proof {
            globals.lemma_values();
            intern_strings.lemma_values();
            assert(value_refs(globals.spec_values().take(0)) =~= Set::empty());
            assert(r1.union(value_refs(globals.spec_values().take(0))) =~= r1);
        }
        while i < n
            invariant
                self.inv(),
                old(self).fresh() ==> self.fresh(),
                self.universe == old(self).universe,
                self.stats == old(self).stats,
                globals.wf(),
                n == globals.spec_values().len(),
                n == globals@.dom().len(),
                i <= n,
                self.roots@ == r1.union(value_refs(globals.spec_values().take(i as int))),
            decreases n - i,
        {
            let v = globals.value_at(i);
            self.mark_value(&v);
            proof {
                lemma_value_refs_push(globals.spec_values(), i as int);
                assert(r1.union(value_refs(globals.spec_values().take(i as int))).union(
                    value_refs(seq![v]),
                ) =~= r1.union(value_refs(globals.spec_values().take(i + 1))));
            }
            i = i + 1;
        }
        assert(globals.spec_values().take(n as int) =~= globals.spec_values());
        let ghost r2 = self.roots@;
        let n = intern_strings.len();
        let mut i: usize = 0;
        assert(value_refs(intern_strings.spec_values().take(0)) =~= Set::empty());
        assert(r2.union(value_refs(intern_strings.spec_values().take(0))) =~= r2);
        while i < n
            invariant
                self.inv(),
                old(self).fresh() ==> self.fresh(),
                self.universe == old(self).universe,
                self.stats == old(self).stats,
                intern_strings.wf(),
                n == intern_strings.spec_values().len(),
                n == intern_strings@.dom().len(),
                i <= n,
                self.roots@ == r2.union(value_refs(intern_strings.spec_values().take(i as int))),
            decreases n - i,
        {
            let v = intern_strings.value_at(i);
            self.mark_value(&v);
            proof {
                lemma_value_refs_push(intern_strings.spec_values(), i as int);
                assert(r2.union(value_refs(intern_strings.spec_values().take(i as int))).union(
                    value_refs(seq![v]),
                ) =~= r2.union(value_refs(intern_strings.spec_values().take(i + 1))));
            }
            i = i + 1;
        }
        assert(intern_strings.spec_values().take(n as int) =~= intern_strings.spec_values());
        let ghost r3 = self.roots@;
        let ghost fvals = frame_values(stack@, frame_bases@);
        let mut j: usize = 0;
        assert(value_refs(fvals.take(0)) =~= Set::empty());
        assert(r3.union(value_refs(fvals.take(0))) =~= r3);
        while j < frame_bases.len()
            invariant
                self.inv(),
                old(self).fresh() ==> self.fresh(),
                self.universe == old(self).universe,
                self.stats == old(self).stats,
                fvals == frame_values(stack@, frame_bases@),
                forall|k: int| 0 <= k < frame_bases@.len() ==> #[trigger] frame_bases@[k] < stack@.len(),
                j <= frame_bases@.len(),
                self.roots@ == r3.union(value_refs(fvals.take(j as int))),
            decreases frame_bases@.len() - j,
        {
            let base = frame_bases[j];
            let value = &stack[base];
            self.mark_value(value);
            proof {
                lemma_value_refs_push(fvals, j as int);
                assert(r3.union(value_refs(fvals.take(j as int))).union(value_refs(seq![*value]))
                    =~= r3.union(value_refs(fvals.take(j + 1))));
            }
            j = j + 1;
        }
        assert(fvals.take(frame_bases@.len() as int) =~= fvals);
        let ghost r4 = self.roots@;
        let mut k: usize = 0;
        assert(open_upvalues@.take(0).to_set() =~= Set::empty());
        assert(r4.union(open_upvalues@.take(0).to_set()) =~= r4);
        while k < open_upvalues.len()
            invariant
                self.inv(),
                old(self).fresh() ==> self.fresh(),
                self.universe == old(self).universe,
                self.stats == old(self).stats,
                k <= open_upvalues@.len(),
                self.roots@ == r4.union(open_upvalues@.take(k as int).to_set()),
            decreases open_upvalues@.len() - k,
        {
            self.mark_object(open_upvalues[k]);
            proof {
                assert(open_upvalues@.take(k + 1) =~= open_upvalues@.take(k as int).push(open_upvalues@[k as int]));
                lemma_to_set_push(open_upvalues@.take(k as int), open_upvalues@[k as int]);
                assert(r4.union(open_upvalues@.take(k as int).to_set()).insert(open_upvalues@[k as int])
                    =~= r4.union(open_upvalues@.take(k + 1).to_set()));
            }
            k = k + 1;
        }
        assert(open_upvalues@.take(open_upvalues@.len() as int) =~= open_upvalues@);
        assert(self.roots@ =~= r0.union(
            root_set(stack@, stack_top as int, *globals, *intern_strings, frame_bases@, open_upvalues@),
        ));
    }

    /// Records a finished cycle.
    pub fn record_cycle(&mut self, before: usize, freed: usize, after: usize, next_trigger: usize)
        requires
            old(self).spec_stats().cycles < u64::MAX,
            old(self).spec_stats().total_freed_bytes + freed <= usize::MAX,
        ensures
            final(self).spec_stats() == old(self).spec_stats().after_cycle(
                before,
                freed,
                after,
                next_trigger,
            ),
            final(self).same_marks(&*old(self)),
            old(self).inv() ==> final(self).inv(),
    {
        let ghost g0 = *self;
        self.stats.record(before, freed, after, next_trigger);
        proof {
            assert(self.white_set@ == g0.white_set@);
            assert(self.black_set@ == g0.black_set@);
            assert(self.gray_set@ == g0.gray_set@);
            assert(self.universe@ == g0.universe@);
            assert(self.roots@ == g0.roots@);
            assert forall|h: ObjRef| #[trigger] self.is_white(h) == g0.is_white(h) by {}
            assert forall|h: ObjRef| #[trigger] self.is_black(h) == g0.is_black(h) by {}
            assert forall|h: ObjRef| #[trigger] self.is_gray(h) == g0.is_gray(h) by {}
        }
    }

    /// The statistics so far.
    pub fn stats(&self) -> (s: &GCStats)
        ensures
            *s == self.spec_stats(),
    {
        &self.stats
    }

    /// The object of `v`, if any, is not white.
    spec fn value_marked(&self, v: Value) -> bool {
        match v {
            Value::Object(c) => !self.is_white(c),
            _ => true,
        }
    }

    /// Marks `c`, which the black object `parent` refers to.
    fn mark_child(
        &mut self,
        m: &ObjectManager,
        stack: &[Value],
        parent: ObjRef,
        c: ObjRef,
        Ghost(seeds): Ghost<Set<ObjRef>>,
        Ghost(through): Ghost<Set<ObjRef>>,
        Ghost(kept): Ghost<Set<ObjRef>>,
    )
        requires
            old(self).inv(),
            old(self).precise_from(*m, stack@, seeds, through, kept),
            m.managed() == old(self).universe@,
            old(self).is_black(parent),
            !kept.contains(parent),
            forall|h: ObjRef| #[trigger] old(self).is_white(h) ==> through.contains(h),
            m.slot(parent) matches Some(o) && o.refers_to(stack@, c),
        ensures
            final(self).inv(),
            final(self).precise_from(*m, stack@, seeds, through, kept),
            forall|h: ObjRef| #[trigger] final(self).is_gray(h) == (old(self).is_gray(h) || (old(
                self,
            ).is_white(h) && h == c)),
            final(self).universe == old(self).universe,
            final(self).roots == old(self).roots,
            final(self).stats == old(self).stats,
            final(self).black_set == old(self).black_set,
            forall|h: ObjRef| #[trigger] final(self).is_white(h) == (old(self).is_white(h) && h != c),
    {
        let ghost before = *self;
        self.mark_reference(c);
        assert forall|h: ObjRef| #[trigger] self.is_gray(h) == (before.is_gray(h) || (before.is_white(h)
            && h == c)) by {
            if self.is_gray(h) {
                let j = choose|j: int| 0 <= j < self.gray_set@.len() && self.gray_set@[j] == h;
                if j < before.gray_set@.len() {
                    assert(before.gray_set@[j] == h);
                }
            }
            if before.is_gray(h) {
                let j = choose|j: int| 0 <= j < before.gray_set@.len() && before.gray_set@[j] == h;
                assert(self.gray_set@[j] == h);
            }
            if before.is_white(h) && h == c {
                assert(self.gray_set@[self.gray_set@.len() - 1] == h);
            }
        }
        assert forall|s: Set<ObjRef>|
            seeds.subset_of(s) && closed_into(*m, stack@, s, through) implies #[trigger] self.marked_beyond(
            s,
            kept,
        ) by {
            assert(before.marked_beyond(s, kept));
            assert forall|h: ObjRef|
                #![trigger self.is_black(h)]
                #![trigger self.is_gray(h)]
                (self.is_black(h) || self.is_gray(h)) && !kept.contains(h) implies s.contains(h) by {
                assert(self.is_black(h) == before.is_black(h));
                if self.is_gray(h) && !before.is_gray(h) {
                    let j = choose|j: int| 0 <= j < self.gray_set@.len() && self.gray_set@[j] == h;
                    if j < before.gray_set@.len() {
                        assert(before.gray_set@[j] == h);
                    }
                    assert(h == c);
                    assert(before.is_white(c));
                    assert(through.contains(c));
                    assert(s.contains(parent));
                    assert(edge(*m, stack@, parent, c));
                }
            }
        }
    }

    /// Marks everything that the black object `obj` refers to.
    fn blacken_object(
        &mut self,
        m: &ObjectManager,
        stack: &[Value],
        obj: ObjRef,
        Ghost(seeds): Ghost<Set<ObjRef>>,
        Ghost(through): Ghost<Set<ObjRef>>,
        Ghost(kept): Ghost<Set<ObjRef>>,
    )
        requires
            old(self).inv(),
            old(self).precise_from(*m, stack@, seeds, through, kept),
            old(self).tri_from_except(*m, stack@, kept, obj),
            m.wf(),
            m.managed() == old(self).universe@,
            old(self).is_black(obj),
            !kept.contains(obj),
            forall|h: ObjRef| #[trigger] old(self).is_white(h) ==> through.contains(h),
        ensures
            final(self).inv(),
            final(self).precise_from(*m, stack@, seeds, through, kept),
            final(self).tri_from(*m, stack@, kept),
            forall|h: ObjRef| #[trigger] final(self).is_white(h) ==> old(self).is_white(h),
            forall|h: ObjRef| #[trigger] old(self).is_gray(h) ==> final(self).is_gray(h),
            forall|h: ObjRef|
                #[trigger] old(self).is_white(h) && !final(self).is_white(h) ==> final(self).is_gray(h),
            final(self).universe == old(self).universe,
            final(self).roots == old(self).roots,
            final(self).stats == old(self).stats,
            final(self).black_set == old(self).black_set,
    {
        let ghost before = *self;
        match m.get(obj) {
            Some(o) => {
                match o {
                    HeapObject::Closure(c) => {
                        self.mark_child(m, stack, obj, c.function, Ghost(seeds), Ghost(through), Ghost(kept));
                    },
                    HeapObject::Function(f) => {
                        let consts = f.chunk.iter_constants();
                        let mut i: usize = 0;
                        while i < consts.len()
                            invariant
                                self.inv(),
                                self.precise_from(*m, stack@, seeds, through, kept),
                                forall|h: ObjRef| #[trigger] before.is_gray(h) ==> self.is_gray(h),
                                forall|h: ObjRef|
                                    #[trigger] before.is_white(h) && !self.is_white(h) ==> self.is_gray(h),
                                !kept.contains(obj),
                                forall|h: ObjRef| #[trigger] before.is_white(h) ==> through.contains(h),
                                self.universe == before.universe,
                                self.roots == before.roots,
                                self.stats == before.stats,
                                self.black_set == before.black_set,
                                self.is_black(obj),
                                m.managed() == before.universe@,
                                m.slot(obj) == Some(*o),
                                *o == HeapObject::Function(*f),
                                consts@ == f.chunk.spec_constants(),
                                i <= consts@.len(),
                                forall|h: ObjRef| #[trigger] self.is_white(h) ==> before.is_white(h),
                                forall|k: int| 0 <= k < i ==> self.value_marked(#[trigger] consts@[k]),
                            decreases consts@.len() - i,
                        {
                            match consts[i] {
                                Value::Object(c) => {
                                    assert(value_refers_to(f.chunk.spec_constants()[i as int], c));
                                    self.mark_child(m, stack, obj, c, Ghost(seeds), Ghost(through), Ghost(kept));
                                },
                                _ => {},
                            }
                            i = i + 1;
                        }
                    },
                    HeapObject::Upvalue(u) => {
                        let v = u.value(stack);
                        match v {
                            Value::Object(c) => {
                                self.mark_child(m, stack, obj, c, Ghost(seeds), Ghost(through), Ghost(kept));
                            },
                            _ => {},
                        }
                    },
                    HeapObject::StructInstance(si) => {
                        self.mark_child(m, stack, obj, si.struct_type, Ghost(seeds), Ghost(through), Ghost(kept));
                        let mut i: usize = 0;
                        while i < si.fields.len()
                            invariant
                                self.inv(),
                                self.precise_from(*m, stack@, seeds, through, kept),
                                forall|h: ObjRef| #[trigger] before.is_gray(h) ==> self.is_gray(h),
                                forall|h: ObjRef|
                                    #[trigger] before.is_white(h) && !self.is_white(h) ==> self.is_gray(h),
                                !kept.contains(obj),
                                forall|h: ObjRef| #[trigger] before.is_white(h) ==> through.contains(h),
                                self.universe == before.universe,
                                self.roots == before.roots,
                                self.stats == before.stats,
                                self.black_set == before.black_set,
                                self.is_black(obj),
                                m.managed() == before.universe@,
                                m.slot(obj) == Some(*o),
                                *o == HeapObject::StructInstance(*si),
                                i <= si.fields@.len(),
                                !self.is_white(si.struct_type),
                                forall|h: ObjRef| #[trigger] self.is_white(h) ==> before.is_white(h),
                                forall|k: int| 0 <= k < i ==> self.value_marked(#[trigger] si.fields@[k]),
                            decreases si.fields@.len() - i,
                        {
                            match si.fields[i] {
                                Value::Object(c) => {
                                    assert(value_refers_to(si.fields@[i as int], c));
                                    self.mark_child(m, stack, obj, c, Ghost(seeds), Ghost(through), Ghost(kept));
                                },
                                _ => {},
                            }
                            i = i + 1;
                        }
                    },
                    _ => {},
                }
            },
            None => {},
        }
        assert forall|b: ObjRef, c: ObjRef|
            #[trigger] self.is_black(b) && #[trigger] edge(*m, stack@, b, c) && !kept.contains(b) implies !self.is_white(c) by {
            assert(self.is_black(b) == before.is_black(b));
            if b != obj {
                assert(!before.is_white(c));
            } else {
                match m.slot(obj) {
                    Some(HeapObject::Function(f)) => {
                        let k = choose|k: int|
                            0 <= k < f.chunk.spec_constants().len() && value_refers_to(
                                #[trigger] f.chunk.spec_constants()[k],
                                c,
                            );
                        assert(self.value_marked(f.chunk.spec_constants()[k]));
                    },
                    Some(HeapObject::StructInstance(si)) => {
                        if si.struct_type != c {
                            let k = choose|k: int|
                                0 <= k < si.fields@.len() && value_refers_to(#[trigger] si.fields@[k], c);
                            assert(self.value_marked(si.fields@[k]));
                        }
                    },
                    _ => {},
                }
            }
        }
    }

    /// Follows references from the gray objects until none is left gray. Afterwards the black
    /// objects are those that were black and those that the gray ones reach through white
    /// ones; the white ones are the rest. Started on a fresh collection, the black objects are
    /// exactly those reachable from the roots.
    pub fn trace_references(&mut self, m: &ObjectManager, stack: &[Value])
        requires
            old(self).inv(),
            m.wf(),
            m.managed() == old(self).spec_universe(),
        ensures
            final(self).inv(),
            final(self).gray_count() == 0,
            final(self).spec_universe() == old(self).spec_universe(),
            final(self).spec_roots() == old(self).spec_roots(),
            final(self).spec_stats() == old(self).spec_stats(),
            forall|h: ObjRef|
                #[trigger] final(self).is_black(h) == (old(self).is_black(h) || spreads_to(
                    *m,
                    stack@,
                    old(self).gray_objects(),
                    old(self).white_objects(),
                    h,
                )),
            forall|h: ObjRef|
                #[trigger] final(self).is_white(h) == (old(self).is_white(h) && !final(self).is_black(h)),
            old(self).fresh() ==> forall|h: ObjRef|
                #[trigger] final(self).is_black(h) == reachable(*m, stack@, final(self).spec_roots(), h),
            old(self).fresh() ==> forall|h: ObjRef|
                #[trigger] final(self).is_white(h) == (m.managed().contains(h) && !reachable(
                    *m,
                    stack@,
                    final(self).spec_roots(),
                    h,
                )),
    {
        let ghost start = *self;
        let ghost seeds = self.gray_objects();
        let ghost through = self.white_objects();
        let ghost kept = Set::new(|h: ObjRef| self.is_black(h));
        proof {
            self.lemma_colors();
            assert forall|s: Set<ObjRef>|
                seeds.subset_of(s) && closed_into(*m, stack@, s, through) implies #[trigger] self.marked_beyond(
                s,
                kept,
            ) by {}
        }
        let u0 = self.universe;
        let r0 = self.roots;
        let ghost s0 = self.stats;
        while self.gray_set.len() > 0
            invariant
                self.inv(),
                self.tri_from(*m, stack@, kept),
                self.precise_from(*m, stack@, seeds, through, kept),
                self.universe == u0,
                self.roots == r0,
                self.stats == s0,
                m.wf(),
                m.managed() == u0@,
                forall|h: ObjRef| #[trigger] self.is_white(h) ==> through.contains(h),
                forall|h: ObjRef|
                    #[trigger] through.contains(h) && !self.is_white(h) ==> self.is_black(h)
                        || self.is_gray(h),
                forall|h: ObjRef| #[trigger] kept.contains(h) ==> self.is_black(h),
                forall|h: ObjRef| #[trigger] seeds.contains(h) ==> self.is_black(h) || self.is_gray(h),
                forall|h: ObjRef| #[trigger] kept.contains(h) ==> !through.contains(h) && !seeds.contains(h),
                seeds == start.gray_objects(),
                through == start.white_objects(),
                kept == Set::new(|h: ObjRef| start.is_black(h)),
            decreases count_false(self.black_set@),
        {
            let ghost before = *self;
            let last = self.gray_set.len() - 1;
            let obj = self.gray_set[last];
            self.gray_set.pop();
            assert(before.is_gray(obj));
            assert(!before.is_black(obj));
            assert(!before.is_white(obj));
            proof {
                lemma_count_false_set(self.black_set@, obj as int);
            }
            self.black_set.set(obj, true);
            assert forall|h: ObjRef| #[trigger] self.is_gray(h) == (before.is_gray(h) && h != obj) by {
                if self.is_gray(h) {
                    let j = choose|j: int| 0 <= j < self.gray_set@.len() && self.gray_set@[j] == h;
                    assert(before.gray_set@[j] == h);
                    assert(before.gray_set@[j] != before.gray_set@[last as int]);
                }
                if before.is_gray(h) && h != obj {
                    let j = choose|j: int| 0 <= j < before.gray_set@.len() && before.gray_set@[j] == h;
                    assert(j != last);
                    assert(self.gray_set@[j] == h);
                }
            }
            assert forall|h: ObjRef| #[trigger] self.is_black(h) == (before.is_black(h) || h == obj) by {}
            assert forall|h: ObjRef| #[trigger] self.is_white(h) == before.is_white(h) by {}
            assert forall|j: int| 0 <= j < self.gray_set@.len() implies self.universe@.contains(
                #[trigger] self.gray_set@[j],
            ) && !self.is_white(self.gray_set@[j]) && !self.is_black(self.gray_set@[j]) by {
                assert(before.gray_set@[j] == self.gray_set@[j]);
                assert(before.gray_set@[j] != before.gray_set@[last as int]);
            }
            assert forall|h: ObjRef| #[trigger] self.universe@.contains(h) implies self.is_white(h)
                || self.is_black(h) || self.is_gray(h) by {
                assert(before.universe@.contains(h));
            }
            assert(!kept.contains(obj));
            assert forall|s: Set<ObjRef>|
                seeds.subset_of(s) && closed_into(*m, stack@, s, through) implies #[trigger] self.marked_beyond(
                s,
                kept,
            ) by {
                assert(before.marked_beyond(s, kept));
                assert forall|h: ObjRef|
                    #![trigger self.is_black(h)]
                    #![trigger self.is_gray(h)]
                    (self.is_black(h) || self.is_gray(h)) && !kept.contains(h) implies s.contains(h) by {
                    if h == obj {
                        assert(before.is_gray(obj));
                    } else {
                        assert(before.is_black(h) || before.is_gray(h));
                    }
                }
            }
            assert forall|b: ObjRef, c: ObjRef|
                #[trigger] self.is_black(b) && #[trigger] edge(*m, stack@, b, c) && !kept.contains(b)
                    && b != obj implies !self.is_white(c) by {
                assert(before.is_black(b));
            }
            let ghost pre_blacken = *self;
            self.blacken_object(m, stack, obj, Ghost(seeds), Ghost(through), Ghost(kept));
            proof {
                assert forall|h: ObjRef| #[trigger] seeds.contains(h) implies self.is_black(h)
                    || self.is_gray(h) by {
                    assert(before.is_black(h) || before.is_gray(h));
                    if before.is_gray(h) && h != obj {
                        assert(pre_blacken.is_gray(h));
                    }
                }
                assert forall|h: ObjRef| #[trigger] through.contains(h) && !self.is_white(h) implies self.is_black(h)
                    || self.is_gray(h) by {
                    if !pre_blacken.is_white(h) {
                        assert(before.is_black(h) || before.is_gray(h));
                        if before.is_gray(h) && h != obj {
                            assert(pre_blacken.is_gray(h));
                        }
                    }
                }
            }
        }
        proof {
            assert forall|h: ObjRef| !#[trigger] self.is_gray(h) by {
                if self.is_gray(h) {
                    let j = choose|j: int| 0 <= j < self.gray_set@.len() && self.gray_set@[j] == h;
                }
            }
            let done = Set::new(|x: ObjRef| self.is_black(x) && !kept.contains(x));
            assert(seeds.subset_of(done));
            assert(closed_into(*m, stack@, done, through)) by {
                assert forall|a: ObjRef, b: ObjRef|
                    #[trigger] done.contains(a) && #[trigger] edge(*m, stack@, a, b) && through.contains(b)
                        implies done.contains(b) by {
                    assert(!self.is_white(b));
                }
            }
            assert forall|h: ObjRef| #[trigger] self.is_black(h) == (start.is_black(h) || spreads_to(
                *m,
                stack@,
                start.gray_objects(),
                start.white_objects(),
                h,
            )) by {
                if spreads_to(*m, stack@, seeds, through, h) {
                    assert(done.contains(h));
                }
                if self.is_black(h) && !start.is_black(h) {
                    assert forall|s: Set<ObjRef>| seeds.subset_of(s) && closed_into(*m, stack@, s, through) implies #[trigger] s.contains(h) by {
                        assert(self.marked_beyond(s, kept));
                    }
                }
            }
            assert forall|h: ObjRef| #[trigger] self.is_white(h) == (start.is_white(h) && !self.is_black(h)) by {
                if start.is_white(h) && !self.is_black(h) {
                    assert(through.contains(h));
                }
            }
            if start.fresh() {
                start.lemma_fresh();
                start.lemma_colors();
                assert forall|h: ObjRef| #[trigger] seeds.contains(h) == (r0@.contains(h) && m.managed().contains(h)) by {
                    if r0@.contains(h) && m.managed().contains(h) {
                        assert(start.spec_universe().contains(h));
                    }
                }
                assert forall|h: ObjRef| #[trigger] m.managed().contains(h) implies seeds.contains(h) || through.contains(h) by {
                    assert(start.spec_universe().contains(h));
                }
                lemma_spread_from_roots(*m, stack@, r0@, seeds, through);
                assert forall|h: ObjRef| #[trigger] self.is_white(h) == (m.managed().contains(h) && !reachable(
                    *m,
                    stack@,
                    self.roots@,
                    h,
                )) by {
                    assert(self.is_black(h) == spreads_to(*m, stack@, seeds, through, h));
                    if m.managed().contains(h) && !reachable(*m, stack@, self.roots@, h) {
                        if seeds.contains(h) {
                            assert(spreads_to(*m, stack@, seeds, through, h));
                        }
                    }
                    if self.is_white(h) {
                        assert(through.contains(h));
                        assert(start.spec_universe().contains(h));
                    }
                }
            }
        }
    }

    /// Frees every white object: it leaves the registry and its slot is released. Gives the
    /// bytes freed. Afterwards nothing is white and the collection is what is left.
    pub fn sweep(&mut self, object_manager: &mut ObjectManager) -> (freed: usize)
        requires
            old(self).inv(),
            old(object_manager).wf(),
            old(self).spec_universe().subset_of(old(object_manager).managed()),
        ensures
            final(self).inv(),
            final(object_manager).wf(),
            final(object_manager).managed() == old(object_manager).managed().filter(
                |h: ObjRef| !old(self).is_white(h),
            ),
            final(self).spec_universe() == old(self).spec_universe().filter(
                |h: ObjRef| !old(self).is_white(h),
            ),
            old(object_manager).managed() == old(self).spec_universe() ==> final(self).spec_universe()
                == final(object_manager).managed(),
            final(object_manager).heap_len() == old(object_manager).heap_len(),
            forall|h: ObjRef| old(self).is_white(h) ==> #[trigger] final(object_manager).slot(h) is None,
            forall|h: ObjRef| !old(self).is_white(h) ==> #[trigger] final(object_manager).slot(h) == old(object_manager).slot(h),
            forall|h: ObjRef| !#[trigger] final(self).is_white(h),
            forall|h: ObjRef| #[trigger] final(self).is_black(h) == old(self).is_black(h),
            final(self).gray_count() == old(self).gray_count(),
            final(self).spec_roots() == old(self).spec_roots(),
            final(self).spec_stats() == old(self).spec_stats(),
            final(object_manager).spec_pending_bytes() == old(object_manager).spec_pending_bytes(),
            forall|h: ObjRef|
                old(self).is_white(h) && #[trigger] old(object_manager).slot(h) is Some ==> freed
                    >= old(object_manager).slot(h)->Some_0.least_size(),
            freed == 0 || exists|h: ObjRef|
                old(self).is_white(h) && #[trigger] old(object_manager).slot(h) is Some,
            exists|caps: Map<ObjRef, Seq<int>>|
                (forall|h: ObjRef|
                    old(self).is_white(h) && #[trigger] old(object_manager).slot(h) is Some
                        ==> old(object_manager).slot(h)->Some_0.fits(caps[h])) && freed == capped(
                    freed_total(
                        *old(object_manager),
                        *old(self),
                        caps,
                        old(object_manager).heap_len() as int,
                    ),
                ),
    {
        let ghost before = *self;
        let ghost m0 = *object_manager;
        let ghost mut caps: Map<ObjRef, Seq<int>> = Map::empty();
        let mut freed_bytes: usize = 0;
        let n = self.white_set.len();
        let mut h: usize = 0;
        while h < n
            invariant
                *self == before,
                n == self.white_set@.len(),
                h <= n,
                object_manager.wf(),
                object_manager.managed() == m0.managed().filter(
                    |x: ObjRef| !(before.is_white(x) && (x as int) < h),
                ),
                object_manager.heap_len() == m0.heap_len(),
                object_manager.spec_pending_bytes() == m0.spec_pending_bytes(),
                forall|x: ObjRef| before.is_white(x) && (x as int) < h ==> #[trigger] object_manager.slot(x) is None,
                forall|x: ObjRef|
                    !(before.is_white(x) && (x as int) < h) ==> #[trigger] object_manager.slot(x) == m0.slot(x),
                forall|x: ObjRef|
                    before.is_white(x) && (x as int) < h && #[trigger] m0.slot(x) is Some ==> freed_bytes
                        >= m0.slot(x)->Some_0.least_size(),
                freed_bytes == 0 || exists|x: ObjRef|
                    before.is_white(x) && #[trigger] m0.slot(x) is Some,
                forall|x: ObjRef| before.is_white(x) ==> (x as int) < n,
                forall|x: ObjRef|
                    before.is_white(x) && (x as int) < h && #[trigger] m0.slot(x) is Some
                        ==> m0.slot(x)->Some_0.fits(caps[x]),
                freed_total(m0, before, caps, h as int) >= 0,
                freed_bytes == capped(freed_total(m0, before, caps, h as int)),
            decreases n - h,
        {
            let ghost caps0 = caps;
            if self.white_set[h] {
                match object_manager.get(h) {
                    Some(o) => {
                        let size = o.deep_size();
                        proof {
                            let c = choose|c: Seq<int>| o.fits(c) && size == o.size_with(c);
                            caps = caps0.insert(h, c);
                            lemma_freed_total_agree(m0, before, caps0, caps, h as int);
                            lemma_capped_sum(freed_total(m0, before, caps0, h as int), size as int);
                        }
                        freed_bytes = freed_bytes.saturating_add(size);
                    },
                    None => {},
                }
                let ghost mid = *object_manager;
                object_manager.remove_object(h);
                object_manager.free_object(h);
                assert(object_manager.managed() =~= m0.managed().filter(
                    |x: ObjRef| !(before.is_white(x) && (x as int) < h + 1),
                ));
            } else {
                assert(object_manager.managed() =~= m0.managed().filter(
                    |x: ObjRef| !(before.is_white(x) && (x as int) < h + 1),
                ));
            }
            h = h + 1;
        }
        proof {
            m0.lemma_heap_len_bound();
            let len = m0.heap_len() as int;
            assert forall|x: ObjRef| n <= (x as int) < len implies !(before.is_white(x)
                && #[trigger] m0.slot(x) is Some) by {}
            assert forall|x: ObjRef| len <= (x as int) < n implies !(before.is_white(x)
                && #[trigger] m0.slot(x) is Some) by {
                if m0.slot(x) is Some {
                    m0.lemma_slot_in_heap(x);
                }
            }
            if n <= len {
                lemma_freed_total_stable(m0, before, caps, n as int, len);
            } else {
                lemma_freed_total_stable(m0, before, caps, len, n as int);
            }
        }
        self.white_set = all_false(n);
        assert(object_manager.managed() =~= m0.managed().filter(|x: ObjRef| !before.is_white(x)));
        self.universe = Ghost(before.universe@.filter(|x: ObjRef| !before.is_white(x)));
        proof {
            if m0.managed() == before.universe@ {
                assert(self.universe@ =~= object_manager.managed());
            }
        }
        assert forall|x: ObjRef| #[trigger] self.is_black(x) == before.is_black(x) by {}
        assert forall|x: ObjRef| !#[trigger] self.is_white(x) by {}
        assert forall|x: ObjRef| #[trigger] self.universe@.contains(x) implies (x as int)
            < self.white_set@.len() && (x as int) < self.black_set@.len() by {
            assert(before.universe@.contains(x));
        }
        assert forall|x: ObjRef| #[trigger] self.is_black(x) implies self.universe@.contains(x)
            && !self.is_white(x) by {
            assert(before.universe@.contains(x));
            assert(!before.is_white(x));
        }
        assert forall|j: int| 0 <= j < self.gray_set@.len() implies self.universe@.contains(
            #[trigger] self.gray_set@[j],
        ) && !self.is_white(self.gray_set@[j]) && !self.is_black(self.gray_set@[j]) by {
            assert(before.universe@.contains(self.gray_set@[j]));
            assert(!before.is_white(self.gray_set@[j]));
        }
        assert forall|x: ObjRef| #[trigger] self.universe@.contains(x) implies self.is_white(x)
            || self.is_black(x) || self.is_gray(x) by {
            assert(before.universe@.contains(x));
            assert(before.is_white(x) || before.is_black(x) || before.is_gray(x));
        }
        freed_bytes
    }
}

} // verus!
