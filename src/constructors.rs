use vstd::prelude::*;
use crate::layout::{FieldKind, StructLayout};

verus! {

/// A routine that must run once before the program's entry point.
#[derive(Debug, Clone, Copy, PartialEq, Eq, Structural)]
pub struct GlobalConstructor {
    /// Lower priorities run first.
    pub priority: u32,
    /// The routine to run, by its index among the module's functions.
    pub target: u32,
    /// The global that the routine initializes, if any.
    pub initialized_value: Option<u32>,
}

/// Whether the constructor registered at `a` runs before the one registered at `b`:
/// by priority, and by order of registration among equal priorities.
pub open spec fn runs_before(e: Seq<GlobalConstructor>, a: int, b: int) -> bool {
    e[a].priority < e[b].priority || (e[a].priority == e[b].priority && a < b)
}

/// `order` lists every registration index exactly once, in running order.
pub open spec fn is_run_order(e: Seq<GlobalConstructor>, order: Seq<usize>) -> bool {
    &&& order.len() == e.len()
    &&& forall|i: int| 0 <= i < order.len() ==> #[trigger] order[i] < e.len()
    &&& forall|m: usize| m < e.len() ==> #[trigger] order.contains(m)
    &&& forall|i: int, j: int|
        0 <= i < j < order.len() ==> runs_before(e, #[trigger] order[i] as int, #[trigger] order[j] as int)
}

proof fn lemma_first_difference(e: Seq<GlobalConstructor>, a: Seq<usize>, b: Seq<usize>, i: int)
    requires
        is_run_order(e, a),
        is_run_order(e, b),
        0 <= i < a.len(),
        forall|j: int| 0 <= j < i ==> a[j] == b[j],
    ensures
        a[i] == b[i],
{
    if a[i] != b[i] {
        let x = a[i];
        let y = b[i];
        if runs_before(e, x as int, y as int) {
            assert(b.contains(x));
            let p = choose|p: int| 0 <= p < b.len() && b[p] == x;
            if p < i {
                assert(a[p] == x);
                assert(runs_before(e, a[p] as int, a[i] as int));
            } else {
                assert(runs_before(e, b[i] as int, b[p] as int));
            }
        } else {
            assert(a.contains(y));
            let p = choose|p: int| 0 <= p < a.len() && a[p] == y;
            if p < i {
                assert(b[p] == y);
                assert(runs_before(e, b[p] as int, b[i] as int));
            } else {
                assert(runs_before(e, a[i] as int, a[p] as int));
            }
        }
    }
}

proof fn lemma_equal_prefix(e: Seq<GlobalConstructor>, a: Seq<usize>, b: Seq<usize>, n: int)
    requires
        is_run_order(e, a),
        is_run_order(e, b),
        0 <= n <= a.len(),
    ensures
        forall|j: int| 0 <= j < n ==> a[j] == b[j],
    decreases n,
{
    if n > 0 {
        lemma_equal_prefix(e, a, b, n - 1);
        lemma_first_difference(e, a, b, n - 1);
    }
}

/// The running order is determined by the registrations alone: two orders that both
/// follow the rule are the same, so registering in another order changes the result
/// only through the tie-break among equal priorities.
pub proof fn lemma_run_order_unique(e: Seq<GlobalConstructor>, a: Seq<usize>, b: Seq<usize>)
    requires
        is_run_order(e, a),
        is_run_order(e, b),
    ensures
        a == b,
{
    lemma_equal_prefix(e, a, b, a.len() as int);
    assert(a =~= b);
}

/// Along a running order, priorities never decrease.
pub proof fn lemma_priorities_ascend(e: Seq<GlobalConstructor>, order: Seq<usize>, i: int, j: int)
    requires
        is_run_order(e, order),
        0 <= i <= j < order.len(),
    ensures
        e[order[i] as int].priority <= e[order[j] as int].priority,
{
    if i < j {
        assert(runs_before(e, order[i] as int, order[j] as int));
    }
}

/// The constructors of one module, in the order they were registered.
pub struct ConstructorRegistry {
    pub entries: Vec<GlobalConstructor>,
}

impl ConstructorRegistry {
    pub fn new() -> (r: Self)
        ensures
            r.entries@.len() == 0,
    {
        ConstructorRegistry { entries: Vec::new() }
    }

    pub fn add_global_constructor(
        &mut self,
        priority: u32,
        target: u32,
        initialized_value: Option<u32>,
    )
        ensures
            final(self).entries@ == old(self).entries@.push(
                GlobalConstructor { priority, target, initialized_value },
            ),
    {
        self.entries.push(GlobalConstructor { priority, target, initialized_value });
    }

    /// The registration indices in the order the loader runs them: ascending priority,
    /// ties in order of registration.
    pub fn execution_order(&self) -> (r: Vec<usize>)
        ensures
            is_run_order(self.entries@, r@),
    {
        let ghost e = self.entries@;
        let n = self.entries.len();
        let mut order: Vec<usize> = Vec::new();
        let mut k: usize = 0;
        while k < n
            invariant
                e == self.entries@,
                n == e.len(),
                k <= n,
                order@.len() == k,
                forall|i: int| 0 <= i < order@.len() ==> #[trigger] order@[i] < k,
                forall|m: usize| m < k ==> #[trigger] order@.contains(m),
                forall|i: int, j: int|
                    0 <= i < j < order@.len() ==> runs_before(
                        e,
                        #[trigger] order@[i] as int,
                        #[trigger] order@[j] as int,
                    ),
            decreases n - k,
        {
            let p = self.entries[k].priority;
            let mut pos: usize = 0;
            while pos < order.len() && self.entries[order[pos]].priority <= p
                invariant
                    e == self.entries@,
                    n == e.len(),
                    k < n,
                    pos <= order@.len(),
                    p == e[k as int].priority,
                    forall|i: int| 0 <= i < order@.len() ==> #[trigger] order@[i] < k,
                    forall|q: int| 0 <= q < pos ==> e[#[trigger] order@[q] as int].priority <= p,
                decreases order@.len() - pos,
            {
                pos = pos + 1;
            }
            let ghost old_order = order@;
            proof {
                assert forall|q: int| pos <= q < old_order.len() implies e[#[trigger] old_order[q] as int].priority
                    > p by {
                    if q > pos {
                        assert(runs_before(e, old_order[pos as int] as int, old_order[q] as int));
                    }
                }
            }
            order.insert(pos, k);
            proof {
                let s = order@;
                assert forall|i: int| 0 <= i < s.len() implies #[trigger] s[i] < k + 1 by {
                    if i < pos {
                        assert(s[i] == old_order[i]);
                    } else if i > pos {
                        assert(s[i] == old_order[i - 1]);
                    }
                }
                assert forall|m: usize| m < k + 1 implies #[trigger] s.contains(m) by {
                    if m < k {
                        assert(old_order.contains(m));
                        let w = choose|w: int| 0 <= w < old_order.len() && old_order[w] == m;
                        if w < pos {
                            assert(s[w] == m);
                        } else {
                            assert(s[w + 1] == m);
                        }
                    } else {
                        assert(s[pos as int] == k);
                    }
                }
                assert forall|i: int, j: int| 0 <= i < j < s.len() implies runs_before(
                    e,
                    #[trigger] s[i] as int,
                    #[trigger] s[j] as int,
                ) by {
                    if j < pos {
                        assert(runs_before(e, old_order[i] as int, old_order[j] as int));
                    } else if j == pos {
                        assert(s[i] == old_order[i]);
                    } else if i == pos {
                        assert(s[j] == old_order[j - 1]);
                    } else if i < pos {
                        assert(runs_before(e, old_order[i] as int, old_order[j - 1] as int));
                    } else {
                        assert(runs_before(e, old_order[i - 1] as int, old_order[j - 1] as int));
                    }
                }
            }
            k = k + 1;
        }
        order
    }

    /// The constructors themselves, in running order.
    pub fn ordered(&self) -> (r: Vec<GlobalConstructor>)
        ensures
            exists|order: Seq<usize>|
                is_run_order(self.entries@, order) && r@ == order.map_values(
                    |i: usize| self.entries@[i as int],
                ),
    {
        let order = self.execution_order();
        let mut r: Vec<GlobalConstructor> = Vec::new();
        let mut i: usize = 0;
        while i < order.len()
            invariant
                is_run_order(self.entries@, order@),
                i <= order@.len(),
                r@ == order@.subrange(0, i as int).map_values(|x: usize| self.entries@[x as int]),
            decreases order@.len() - i,
        {
            r.push(self.entries[order[i]]);
            i = i + 1;
            assert(r@ =~= order@.subrange(0, i as int).map_values(
                |x: usize| self.entries@[x as int],
            ));
        }
        assert(order@.subrange(0, order@.len() as int) =~= order@);
        r
    }
}

/// The layout of one entry of the loader's constructor table: priority, routine, global.
pub fn global_constructor_layout() -> (r: StructLayout)
    ensures
        r.fields@ == seq![FieldKind::U32, FieldKind::Pointer, FieldKind::Pointer],
        r.wf(),
{
    let mut fields: Vec<FieldKind> = Vec::new();
    fields.push(FieldKind::U32);
    fields.push(FieldKind::Pointer);
    fields.push(FieldKind::Pointer);
    assert(fields@ =~= seq![FieldKind::U32, FieldKind::Pointer, FieldKind::Pointer]);
    StructLayout { name: "GlobalConstructor".to_string(), fields }
}

} // verus!
