//! The virtual machine: a capacity-checked operand stack of roots, the arena
//! of all allocated objects, and the mark-sweep collection cycle with its
//! adaptive threshold.

use vstd::prelude::*;

use crate::object::Object;
use crate::object::ObjectType;
use crate::object::wf_heap;
use crate::object::wf_slot;
use crate::object::all_unmarked;
use crate::object::is_live;
use crate::object::marked;
use crate::object::marks_closed;
use crate::object::closed_slot;
use crate::object::is_child;
use crate::object::same_object;
use crate::object::same_objects;
use crate::object::reaches;
use crate::object::reaches_unmarked;
use crate::object::live_count_from;
use crate::object::unmarked_live_count_from;
use crate::object::lemma_same_objects_wf;
use crate::object::lemma_same_objects_sym;
use crate::object::lemma_same_objects_trans;
use crate::object::lemma_same_objects_reaches;
use crate::object::lemma_reaches_child;
use crate::object::lemma_reaches_unmarked_implies_reaches;
use crate::object::lemma_closed_reaches_to_unmarked;
use crate::object::lemma_count_bounds;
use crate::object::lemma_unmarked_count_monotone;
use crate::object::lemma_count_decompose;
use crate::object::lemma_marked_count_positive;
use crate::object::lemma_live_count_push;
use crate::object::lemma_live_count_same;
use crate::object::lemma_live_count_eq_marked;
use crate::object::has_index;

verus! {


/// Object `j` is reachable from some root on the given stack.
pub open spec fn root_reachable(h: Seq<Option<Object>>, roots: Seq<usize>, j: int) -> bool {
    exists|k: int| 0 <= k < roots.len() && reaches(h, #[trigger] roots[k] as int, j)
}

/// Slot `j` after a sweep: whatever survives is unmarked and keeps the
/// payload it had before the cycle.
pub open spec fn swept_slot(h0: Seq<Option<Object>>, h: Seq<Option<Object>>, j: int) -> bool {
    h[j] matches Some(o) ==> {
        &&& !o.marked
        &&& h0[j] matches Some(o0) && o.value == o0.value
    }
}

/// The heap `h` is the heap `h0` after one full collection cycle with the
/// given roots: exactly the objects reachable from a root survive, unmarked
/// and with their payloads; everything else is reclaimed.
pub open spec fn collected(h0: Seq<Option<Object>>, roots: Seq<usize>, h: Seq<Option<Object>>) -> bool {
    &&& h.len() == h0.len()
    &&& forall|j: int| 0 <= j < h.len() ==> (is_live(h, j) <==> root_reachable(h0, roots, j))
    &&& forall|j: int| 0 <= j < h.len() ==> #[trigger] swept_slot(h0, h, j)
}

/// The adaptive-threshold trigger a push tests before storing its value.
pub open spec fn gc_due(num_objects: usize, max_objects: usize) -> bool {
    num_objects == max_objects
}

/// The threshold set at the end of a cycle that leaves `n` objects live:
/// twice the surviving count, saturating at the machine limit.
pub open spec fn next_threshold(n: int) -> int {
    if 2 * n <= usize::MAX {
        2 * n
    } else {
        usize::MAX as int
    }
}

/// A marked set that is exactly the root-reachable set is closed under
/// child hops.
proof fn lemma_reachable_marks_closed(
    h0: Seq<Option<Object>>,
    roots: Seq<usize>,
    h: Seq<Option<Object>>,
)
    requires
        wf_heap(h0),
        same_objects(h0, h),
        forall|j: int| 0 <= j < h.len() ==> (marked(h, j) <==> root_reachable(h0, roots, j)),
    ensures
        marks_closed(h),
{
    assert forall|j: int| 0 <= j < h.len() implies #[trigger] closed_slot(h, j) by {
        if marked(h, j) {
            let k = choose|k: int| 0 <= k < roots.len() && reaches(h0, roots[k] as int, j);
            assert(same_object(h0, h, j));
            assert(wf_slot(h0, j));
            match h[j] {
                Some(o) => match o.value {
                    ObjectType::Pair { head, tail } => {
                        assert(is_child(h0, j, head as int));
                        assert(is_child(h0, j, tail as int));
                        lemma_reaches_child(h0, roots[k] as int, j, head as int);
                        lemma_reaches_child(h0, roots[k] as int, j, tail as int);
                        assert(root_reachable(h0, roots, head as int));
                        assert(root_reachable(h0, roots, tail as int));
                    },
                    ObjectType::Int(_) => {},
                },
                None => {},
            }
        }
    }
}

/// No two live stack slots hold the same arena index.
pub open spec fn distinct_roots(roots: Seq<usize>) -> bool {
    forall|k1: int, k2: int| 0 <= k1 < k2 < roots.len() ==> roots[k1] != roots[k2]
}

/// Number of stack entries whose index is `i` or above.
spec fn roots_at_or_above(roots: Seq<usize>, i: int) -> int
    decreases roots.len(),
{
    if roots.len() == 0 {
        0
    } else {
        roots_at_or_above(roots.drop_last(), i) + (if roots.last() >= i {
            1int
        } else {
            0int
        })
    }
}

proof fn lemma_roots_all(roots: Seq<usize>)
    ensures
        roots_at_or_above(roots, 0) == roots.len(),
    decreases roots.len(),
{
    if roots.len() > 0 {
        lemma_roots_all(roots.drop_last());
    }
}

proof fn lemma_roots_none(roots: Seq<usize>, i: int)
    requires
        forall|k: int| 0 <= k < roots.len() ==> roots[k] < i,
    ensures
        roots_at_or_above(roots, i) == 0,
    decreases roots.len(),
{
    if roots.len() > 0 {
        assert forall|k: int| 0 <= k < roots.drop_last().len() implies roots.drop_last()[k]
            < i by {
            assert(roots.drop_last()[k] == roots[k]);
        }
        lemma_roots_none(roots.drop_last(), i);
    }
}

proof fn lemma_roots_step(roots: Seq<usize>, i: int)
    requires
        0 <= i,
        distinct_roots(roots),
    ensures
        roots_at_or_above(roots, i) == roots_at_or_above(roots, i + 1) + (if has_index(
            roots,
            i,
        ) {
            1int
        } else {
            0int
        }),
    decreases roots.len(),
{
    if roots.len() == 0 {
        assert(!has_index(roots, i));
    } else {
        let dl = roots.drop_last();
        let r = roots.last();
        assert forall|k1: int, k2: int| 0 <= k1 < k2 < dl.len() implies dl[k1] != dl[k2] by {
            assert(dl[k1] == roots[k1]);
            assert(dl[k2] == roots[k2]);
        }
        lemma_roots_step(dl, i);
        if r == i {
            assert(has_index(roots, i)) by {
                assert(roots[roots.len() - 1] == r);
            }
            if has_index(dl, i) {
                let k = choose|k: int| 0 <= k < dl.len() && dl[k] == i;
                assert(roots[k] == roots[roots.len() - 1]);
                assert(false);
            }
        } else {
            if has_index(dl, i) {
                let k = choose|k: int| 0 <= k < dl.len() && dl[k] == i;
                assert(roots[k] == i);
                assert(has_index(roots, i));
            }
            if has_index(roots, i) {
                let k = choose|k: int| 0 <= k < roots.len() && roots[k] == i;
                assert(k < roots.len() - 1);
                assert(dl[k] == i);
                assert(has_index(dl, i));
            }
        }
    }
}

proof fn lemma_live_eq_index_count(h: Seq<Option<Object>>, roots: Seq<usize>, i: int)
    requires
        0 <= i,
        distinct_roots(roots),
        forall|k: int| 0 <= k < roots.len() ==> (#[trigger] roots[k] as int) < h.len(),
        forall|j: int| 0 <= j < h.len() ==> (is_live(h, j) <==> has_index(roots, j)),
    ensures
        live_count_from(h, i) == roots_at_or_above(roots, i),
    decreases h.len() - i,
{
    if i >= h.len() {
        lemma_roots_none(roots, i);
    } else {
        lemma_live_eq_index_count(h, roots, i + 1);
        lemma_roots_step(roots, i);
    }
}

/// Count consistency for stack-only scenarios: after a cycle whose roots
/// are distinct scalars, exactly the rooted objects survive, so the number
/// of live arena slots equals the stack size.
pub proof fn lemma_collect_count_stack_only(
    h0: Seq<Option<Object>>,
    roots: Seq<usize>,
    h: Seq<Option<Object>>,
)
    requires
        wf_heap(h0),
        collected(h0, roots, h),
        forall|k: int| 0 <= k < roots.len() ==> is_live(h0, #[trigger] roots[k] as int),
        forall|k: int|
            0 <= k < roots.len() ==> (h0[#[trigger] roots[k] as int]->0.value is Int),
        distinct_roots(roots),
    ensures
        live_count_from(h, 0) == roots.len(),
{
    assert forall|j: int| 0 <= j < h.len() implies (is_live(h, j) <==> has_index(
        roots,
        j,
    )) by {
        if is_live(h, j) {
            let k = choose|k: int| 0 <= k < roots.len() && reaches(h0, roots[k] as int, j);
            assert(h0[roots[k] as int]->0.value is Int);
            assert(roots[k] == j);
            assert(has_index(roots, j));
        }
        if has_index(roots, j) {
            let k = choose|k: int| 0 <= k < roots.len() && roots[k] == j;
            assert(is_live(h0, roots[k] as int));
            assert(reaches(h0, roots[k] as int, j));
            assert(root_reachable(h0, roots, j));
        }
    }
    assert forall|k: int| 0 <= k < roots.len() implies (#[trigger] roots[k] as int)
        < h.len() by {
        assert(is_live(h0, roots[k] as int));
    }
    lemma_live_eq_index_count(h, roots, 0);
    lemma_roots_all(roots);
}

/// Threshold adaptation: a cycle that leaves `k` live objects sets the
/// threshold to `2 * k`, so a later push finds collection due exactly when
/// the object count has come back up to `2 * k`; after a cycle that drains
/// the heap (`k == 0`) the very next push finds collection due at once.
pub proof fn lemma_threshold_adaptation(k: usize)
    requires
        2 * k <= usize::MAX,
    ensures
        next_threshold(k as int) == 2 * k,
        forall|n: usize| #[trigger] gc_due(n, (2 * k) as usize) <==> n == 2 * k,
        k == 0 ==> gc_due(k, (2 * k) as usize),
{
}

/// Default capacity of the operand stack.
pub const STACK_MAX: usize = 256;

/// Collection threshold a fresh collector starts with.
pub const INITIAL_GC_THRESHOLD: usize = 10;

/// The two fatal conditions a caller can provoke: pushing onto a full stack
/// and popping from an empty one.
#[derive(Clone, Copy, PartialEq, Eq, Structural, Debug)]
pub enum VmError {
    StackOverflow,
    StackUnderflow,
}

/// A virtual machine instance: it owns its heap and roots exclusively.
pub struct VM {
    /// The arena of all allocated, not-yet-swept objects, in allocation
    /// order; a reclaimed slot stays `None` so that indices remain stable.
    pub heap: Vec<Option<Object>>,
    /// The operand stack: each entry is an arena index and a root.
    pub stack: Vec<usize>,
    /// Capacity of the operand stack.
    pub capacity: usize,
    /// Count of currently allocated, not-yet-swept objects.
    pub num_objects: usize,
    /// Adaptive threshold: a push finding this many objects collects first.
    pub max_objects: usize,
}

impl VM {
    /// Every stack entry points at a live arena slot.
    pub open spec fn roots_ok(self) -> bool {
        forall|k: int|
            0 <= k < self.stack@.len() ==> is_live(self.heap@, #[trigger] self.stack@[k] as int)
    }

    /// The invariant between operations: well-formed unmarked arena, valid
    /// roots within capacity, and an accurate object count.
    pub open spec fn wf(self) -> bool {
        &&& wf_heap(self.heap@)
        &&& all_unmarked(self.heap@)
        &&& self.roots_ok()
        &&& self.stack@.len() <= self.capacity
        &&& self.num_objects == crate::object::live_count_from(self.heap@, 0)
    }

    /// A collector with the given stack capacity and initial threshold,
    /// empty stack and empty heap.
    pub fn with_limits(capacity: usize, initial_threshold: usize) -> (vm: VM)
        ensures
            vm.wf(),
            vm.heap@.len() == 0,
            vm.stack@.len() == 0,
            vm.num_objects == 0,
            vm.max_objects == initial_threshold,
            vm.capacity == capacity,
    {
        VM {
            heap: Vec::new(),
            stack: Vec::new(),
            capacity,
            num_objects: 0,
            max_objects: initial_threshold,
        }
    }

    /// A collector with the default stack capacity and initial threshold.
    pub fn new() -> (vm: VM)
        ensures
            vm.wf(),
            vm.heap@.len() == 0,
            vm.stack@.len() == 0,
            vm.num_objects == 0,
            vm.max_objects == INITIAL_GC_THRESHOLD,
            vm.capacity == STACK_MAX,
    {
        VM::with_limits(STACK_MAX, INITIAL_GC_THRESHOLD)
    }

    /// The state in the middle of an allocation: the new object is linked
    /// into the arena but not yet counted, because counting happens at the
    /// push that roots it.
    pub open spec fn wf_pending(self) -> bool {
        &&& wf_heap(self.heap@)
        &&& all_unmarked(self.heap@)
        &&& self.roots_ok()
        &&& self.stack@.len() <= self.capacity
        &&& self.num_objects + 1 == live_count_from(self.heap@, 0)
    }

    /// Allocates an object holding `typ` and links it into the arena,
    /// returning its index. Deliberately does not update `num_objects`:
    /// counting happens at the push that roots the new object, which keeps
    /// the collection-trigger decision in one place.
    pub fn new_object(&mut self, typ: ObjectType) -> (r: usize)
        requires
            old(self).wf(),
            typ matches ObjectType::Pair { head, tail } ==> is_live(
                old(self).heap@,
                head as int,
            ) && is_live(old(self).heap@, tail as int),
        ensures
            r == old(self).heap@.len(),
            final(self).heap@ == old(self).heap@.push(
                Some(Object { marked: false, value: typ }),
            ),
            final(self).stack@ == old(self).stack@,
            final(self).capacity == old(self).capacity,
            final(self).num_objects == old(self).num_objects,
            final(self).max_objects == old(self).max_objects,
            final(self).wf_pending(),
    {
        let ghost h0 = self.heap@;
        let obj = Object::new(typ);
        let r = self.heap.len();
        self.heap.push(Some(obj));
        proof {
            lemma_live_count_push(h0, Some(obj), 0);
            assert forall|j: int| 0 <= j < self.heap@.len() implies #[trigger] wf_slot(
                self.heap@,
                j,
            ) by {
                if j < h0.len() {
                    assert(wf_slot(h0, j));
                    assert(self.heap@[j] == h0[j]);
                    match self.heap@[j] {
                        Some(o) => match o.value {
                            ObjectType::Pair { head, tail } => {
                                assert(self.heap@[head as int] == h0[head as int]);
                                assert(self.heap@[tail as int] == h0[tail as int]);
                            },
                            ObjectType::Int(_) => {},
                        },
                        None => {},
                    }
                } else {
                    match typ {
                        ObjectType::Pair { head, tail } => {
                            assert(self.heap@[head as int] == h0[head as int]);
                            assert(self.heap@[tail as int] == h0[tail as int]);
                        },
                        ObjectType::Int(_) => {},
                    }
                }
            }
            assert forall|j: int| 0 <= j < self.heap@.len() implies !#[trigger] marked(
                self.heap@,
                j,
            ) by {
                if j < h0.len() {
                    assert(!marked(h0, j));
                    assert(self.heap@[j] == h0[j]);
                }
            }
            assert forall|k: int| 0 <= k < self.stack@.len() implies is_live(
                self.heap@,
                #[trigger] self.stack@[k] as int,
            ) by {
                assert(is_live(h0, self.stack@[k] as int));
                assert(self.heap@[self.stack@[k] as int] == h0[self.stack@[k] as int]);
            }
        }
        r
    }

    /// Removes and returns the top of the operand stack; the object itself
    /// stays in the arena until a collection finds it unreachable. Fails
    /// with `StackUnderflow` on an empty stack, leaving the machine as it
    /// was: popping an empty stack is a caller bug.
    pub fn pop(&mut self) -> (r: Result<usize, VmError>)
        requires
            old(self).wf(),
        ensures
            final(self).wf(),
            final(self).heap@ == old(self).heap@,
            final(self).capacity == old(self).capacity,
            final(self).num_objects == old(self).num_objects,
            final(self).max_objects == old(self).max_objects,
            old(self).stack@.len() == 0 ==> r == Err::<usize, VmError>(VmError::StackUnderflow)
                && final(self).stack@ == old(self).stack@,
            old(self).stack@.len() > 0 ==> {
                &&& r == Ok::<usize, VmError>(old(self).stack@.last())
                &&& final(self).stack@ == old(self).stack@.drop_last()
                &&& is_live(final(self).heap@, old(self).stack@.last() as int)
            },
    {
        match self.stack.pop() {
            Some(idx) => Ok(idx),
            None => Err(VmError::StackUnderflow),
        }
    }

    /// The mark phase: marks every object reachable from any live stack
    /// slot. Marking is idempotent, so shared substructure is flagged once
    /// however many roots or parents point at it.
    pub fn mark_all(&mut self)
        requires
            wf_heap(old(self).heap@),
            all_unmarked(old(self).heap@),
            old(self).roots_ok(),
        ensures
            same_objects(old(self).heap@, final(self).heap@),
            forall|j: int|
                0 <= j < final(self).heap@.len() ==> (marked(final(self).heap@, j)
                    <==> root_reachable(old(self).heap@, old(self).stack@, j)),
            marks_closed(final(self).heap@),
            final(self).stack@ == old(self).stack@,
            final(self).capacity == old(self).capacity,
            final(self).num_objects == old(self).num_objects,
            final(self).max_objects == old(self).max_objects,
    {
        let ghost h0 = self.heap@;
        let ghost roots = self.stack@;
        let ghost num0 = self.num_objects;
        let ghost max0 = self.max_objects;
        let ghost cap0 = self.capacity;
        let n = self.stack.len();
        let mut k: usize = 0;
        while k < n
            invariant
                wf_heap(h0),
                self.num_objects == num0,
                self.max_objects == max0,
                self.capacity == cap0,
                n == self.stack@.len(),
                k <= n,
                self.stack@ == roots,
                forall|k2: int|
                    0 <= k2 < roots.len() ==> is_live(h0, #[trigger] roots[k2] as int),
                same_objects(h0, self.heap@),
                forall|j: int|
                    0 <= j < self.heap@.len() ==> (marked(self.heap@, j) <==> root_reachable(
                        h0,
                        roots.subrange(0, k as int),
                        j,
                    )),
            decreases n - k,
        {
            let ghost h_prev = self.heap@;
            let root = self.stack[k];
            proof {
                lemma_same_objects_wf(h0, h_prev);
                assert(same_object(h0, h_prev, root as int));
                lemma_reachable_marks_closed(h0, roots.subrange(0, k as int), h_prev);
            }
            Object::mark(&mut self.heap, root);
            proof {
                lemma_same_objects_trans(h0, h_prev, self.heap@);
                lemma_same_objects_sym(h0, h_prev);
                let taken = roots.subrange(0, k as int);
                let taken1 = roots.subrange(0, k as int + 1);
                assert(taken1.drop_last() == taken);
                assert(taken1.last() == root);
                assert forall|j: int| 0 <= j < self.heap@.len() implies (marked(self.heap@, j)
                    <==> root_reachable(h0, taken1, j)) by {
                    if marked(self.heap@, j) {
                        if marked(h_prev, j) {
                            let k2 = choose|k2: int|
                                0 <= k2 < taken.len() && reaches(h0, taken[k2] as int, j);
                            assert(taken1[k2] == taken[k2]);
                            assert(root_reachable(h0, taken1, j));
                        } else {
                            assert(reaches_unmarked(h_prev, root as int, j));
                            lemma_reaches_unmarked_implies_reaches(h_prev, root as int, j);
                            lemma_same_objects_reaches(h_prev, h0, root as int, j);
                            assert(taken1[k as int] == root);
                            assert(root_reachable(h0, taken1, j));
                        }
                    }
                    if root_reachable(h0, taken1, j) {
                        let k2 = choose|k2: int|
                            0 <= k2 < taken1.len() && reaches(h0, taken1[k2] as int, j);
                        if k2 < k as int {
                            assert(taken[k2] == taken1[k2]);
                            assert(root_reachable(h0, taken, j));
                            assert(marked(h_prev, j));
                        } else {
                            assert(taken1[k2] == root);
                            lemma_same_objects_reaches(h0, h_prev, root as int, j);
                            lemma_reachable_marks_closed(h0, taken, h_prev);
                            lemma_closed_reaches_to_unmarked(h_prev, root as int, j);
                        }
                        assert(marked(self.heap@, j));
                    }
                }
            }
            k = k + 1;
        }
        proof {
            assert(roots.subrange(0, roots.len() as int) == roots);
            lemma_reachable_marks_closed(h0, roots, self.heap@);
        }
    }

    /// The sweep phase: walks the whole arena, most recently allocated
    /// first; reclaims every unmarked object, decrementing the count for
    /// each, and clears the mark bit of every survivor for the next cycle.
    pub fn sweep(&mut self)
        requires
            wf_heap(old(self).heap@),
            marks_closed(old(self).heap@),
            unmarked_live_count_from(old(self).heap@, 0) <= old(self).num_objects,
        ensures
            final(self).heap@.len() == old(self).heap@.len(),
            forall|j: int|
                0 <= j < final(self).heap@.len() ==> (is_live(final(self).heap@, j) <==> marked(
                    old(self).heap@,
                    j,
                )),
            forall|j: int|
                0 <= j < final(self).heap@.len() ==> #[trigger] swept_slot(
                    old(self).heap@,
                    final(self).heap@,
                    j,
                ),
            final(self).num_objects == old(self).num_objects - unmarked_live_count_from(
                old(self).heap@,
                0,
            ),
            wf_heap(final(self).heap@),
            all_unmarked(final(self).heap@),
            final(self).stack@ == old(self).stack@,
            final(self).capacity == old(self).capacity,
            final(self).max_objects == old(self).max_objects,
    {
        let ghost h0 = self.heap@;
        let ghost num0 = self.num_objects;
        let ghost max0 = self.max_objects;
        let ghost cap0 = self.capacity;
        let ghost roots0 = self.stack@;
        let mut idx = self.heap.len();
        while idx > 0
            invariant
                wf_heap(h0),
                marks_closed(h0),
                unmarked_live_count_from(h0, 0) <= num0,
                self.num_objects == num0 - unmarked_live_count_from(h0, idx as int),
                self.max_objects == max0,
                self.capacity == cap0,
                self.stack@ == roots0,
                idx <= self.heap@.len(),
                self.heap@.len() == h0.len(),
                forall|j: int| 0 <= j < idx ==> self.heap@[j] == h0[j],
                forall|j: int|
                    idx <= j < h0.len() ==> (is_live(self.heap@, j) <==> marked(h0, j)),
                forall|j: int| idx <= j < h0.len() ==> #[trigger] swept_slot(h0, self.heap@, j),
            decreases idx,
        {
            idx = idx - 1;
            proof {
                lemma_unmarked_count_monotone(h0, 0, idx as int);
                lemma_count_bounds(h0, idx as int + 1);
                assert(unmarked_live_count_from(h0, idx as int) == (if h0[idx as int] is Some
                    && !marked(h0, idx as int) {
                    1int
                } else {
                    0int
                }) + unmarked_live_count_from(h0, idx as int + 1));
                lemma_unmarked_count_monotone(h0, 0, idx as int + 1);
            }
            let ghost h_prev = self.heap@;
            let slot = self.heap[idx];
            match slot {
                Some(o) => {
                    if o.marked {
                        self.heap.set(idx, Some(Object { marked: false, value: o.value }));
                    } else {
                        self.heap.set(idx, None);
                        self.num_objects = self.num_objects - 1;
                    }
                },
                None => {},
            }
            proof {
                assert forall|j: int| idx <= j < h0.len() implies #[trigger] swept_slot(
                    h0,
                    self.heap@,
                    j,
                ) by {
                    if j > idx {
                        assert(swept_slot(h0, h_prev, j));
                        assert(self.heap@[j] == h_prev[j]);
                    }
                }
            }
        }
        proof {
            assert forall|j: int| 0 <= j < self.heap@.len() implies #[trigger] wf_slot(
                self.heap@,
                j,
            ) by {
                assert(wf_slot(h0, j));
                assert(closed_slot(h0, j));
                match self.heap@[j] {
                    Some(o) => {
                        assert(swept_slot(h0, self.heap@, j));
                        assert(marked(h0, j));
                        match o.value {
                            ObjectType::Pair { head, tail } => {
                                assert(h0[j]->0.value == o.value);
                                assert(marked(h0, head as int));
                                assert(marked(h0, tail as int));
                            },
                            ObjectType::Int(_) => {},
                        }
                    },
                    None => {},
                }
            }
            assert forall|j: int| 0 <= j < self.heap@.len() implies !#[trigger] marked(
                self.heap@,
                j,
            ) by {
                assert(swept_slot(h0, self.heap@, j));
            }
        }
    }

    /// The machine is ready for a cycle: the ordinary state between
    /// operations, or the mid-push state in which one freshly rooted
    /// allocation has not been counted yet.
    pub open spec fn gc_ready(self) -> bool {
        &&& wf_heap(self.heap@)
        &&& all_unmarked(self.heap@)
        &&& self.roots_ok()
        &&& self.stack@.len() <= self.capacity
        &&& (self.num_objects == live_count_from(self.heap@, 0) || (self.num_objects + 1
            == live_count_from(self.heap@, 0) && self.stack@.len() > 0))
    }

    /// One full collection cycle: mark everything reachable from the stack,
    /// sweep everything else, then set the threshold to twice the surviving
    /// count (saturating at the machine limit), so the next cycle triggers
    /// only once the live set has doubled; a drained heap leaves it at zero.
    pub fn gc(&mut self)
        requires
            old(self).gc_ready(),
        ensures
            collected(old(self).heap@, old(self).stack@, final(self).heap@),
            final(self).stack@ == old(self).stack@,
            final(self).capacity == old(self).capacity,
            final(self).num_objects == old(self).num_objects - (live_count_from(
                old(self).heap@,
                0,
            ) - live_count_from(final(self).heap@, 0)),
            final(self).max_objects == next_threshold(final(self).num_objects as int),
            old(self).num_objects == live_count_from(old(self).heap@, 0)
                ==> final(self).num_objects == live_count_from(final(self).heap@, 0),
            wf_heap(final(self).heap@),
            all_unmarked(final(self).heap@),
            old(self).wf() ==> final(self).wf(),
            old(self).wf_pending() ==> final(self).wf_pending(),
    {
        let ghost h0 = self.heap@;
        let ghost roots = self.stack@;
        let ghost num0 = self.num_objects;
        self.mark_all();
        let ghost hm = self.heap@;
        proof {
            lemma_same_objects_wf(h0, hm);
            lemma_count_decompose(hm, 0);
            lemma_live_count_same(h0, hm, 0);
            lemma_count_bounds(hm, 0);
            if num0 + 1 == live_count_from(h0, 0) {
                let r = roots[0];
                assert(is_live(h0, r as int));
                assert(reaches(h0, r as int, r as int));
                assert(root_reachable(h0, roots, r as int));
                assert(marked(hm, r as int));
                lemma_marked_count_positive(hm, 0, r as int);
            }
        }
        self.sweep();
        proof {
            let hf = self.heap@;
            assert forall|j: int| 0 <= j < hf.len() implies #[trigger] swept_slot(
                h0,
                hf,
                j,
            ) by {
                assert(swept_slot(hm, hf, j));
                assert(same_object(h0, hm, j));
            }
            assert forall|j: int| 0 <= j < hf.len() implies (is_live(hf, j)
                <==> root_reachable(h0, roots, j)) by {
                assert(is_live(hf, j) <==> marked(hm, j));
            }
            lemma_live_count_eq_marked(hf, hm, 0);
            assert forall|k: int| 0 <= k < roots.len() implies is_live(
                hf,
                #[trigger] roots[k] as int,
            ) by {
                let r = roots[k];
                assert(is_live(h0, r as int));
                assert(reaches(h0, r as int, r as int));
                assert(root_reachable(h0, roots, r as int));
            }
        }
        self.max_objects = if self.num_objects <= usize::MAX / 2 {
            self.num_objects * 2
        } else {
            usize::MAX
        };
    }

    /// Roots a freshly allocated object on the stack and counts it into the
    /// object total, completing the allocation `new_object` began. If the
    /// count has reached the threshold, a full cycle runs first, with the
    /// incoming object already rooted so the cycle cannot reclaim it. Fails
    /// with `StackOverflow` on a full stack, leaving the machine as it was:
    /// an unbalanced caller is a bug, not a recoverable condition.
    pub fn push(&mut self, val: usize) -> (r: Result<(), VmError>)
        requires
            old(self).wf_pending(),
            is_live(old(self).heap@, val as int),
        ensures
            final(self).capacity == old(self).capacity,
            (r is Ok) <==> old(self).stack@.len() < old(self).capacity,
            r is Err ==> *final(self) == *old(self) && r == Err::<(), VmError>(
                VmError::StackOverflow,
            ),
            r is Ok ==> {
                &&& final(self).wf()
                &&& final(self).stack@ == old(self).stack@.push(val)
                &&& if gc_due(old(self).num_objects, old(self).max_objects) {
                    &&& collected(
                        old(self).heap@,
                        old(self).stack@.push(val),
                        final(self).heap@,
                    )
                    &&& final(self).max_objects == next_threshold(
                        final(self).num_objects as int - 1,
                    )
                } else {
                    &&& final(self).heap@ == old(self).heap@
                    &&& final(self).num_objects == old(self).num_objects + 1
                    &&& final(self).max_objects == old(self).max_objects
                }
            },
    {
        if self.stack.len() == self.capacity {
            return Err(VmError::StackOverflow);
        }
        let ghost roots0 = self.stack@;
        self.stack.push(val);
        proof {
            assert forall|k: int| 0 <= k < self.stack@.len() implies is_live(
                self.heap@,
                #[trigger] self.stack@[k] as int,
            ) by {
                if k < roots0.len() {
                    assert(self.stack@[k] == roots0[k]);
                    assert(is_live(self.heap@, roots0[k] as int));
                } else {
                    assert(self.stack@[k] == val);
                }
            }
        }
        if self.num_objects == self.max_objects {
            self.gc();
        }
        let bound = self.heap.len();
        proof {
            lemma_count_bounds(self.heap@, 0);
            assert(self.num_objects < bound);
        }
        self.num_objects = self.num_objects + 1;
        Ok(())
    }

    /// Allocates a scalar object holding `val` and pushes it: the only way
    /// a fresh leaf value enters the machine. Fails with `StackOverflow` on
    /// a full stack, allocating nothing and leaving the machine as it was.
    pub fn push_int(&mut self, val: i32) -> (r: Result<(), VmError>)
        requires
            old(self).wf(),
        ensures
            final(self).capacity == old(self).capacity,
            (r is Ok) <==> old(self).stack@.len() < old(self).capacity,
            r is Err ==> *final(self) == *old(self) && r == Err::<(), VmError>(
                VmError::StackOverflow,
            ),
            r is Ok ==> {
                let idx = old(self).heap@.len() as usize;
                let h1 = old(self).heap@.push(
                    Some(Object { marked: false, value: ObjectType::Int(val) }),
                );
                &&& final(self).wf()
                &&& final(self).stack@ == old(self).stack@.push(idx)
                &&& final(self).heap@.len() == old(self).heap@.len() + 1
                &&& is_live(final(self).heap@, idx as int)
                &&& final(self).heap@[idx as int]->0.value == ObjectType::Int(val)
                &&& if gc_due(old(self).num_objects, old(self).max_objects) {
                    &&& collected(h1, old(self).stack@.push(idx), final(self).heap@)
                    &&& final(self).max_objects == next_threshold(
                        final(self).num_objects as int - 1,
                    )
                } else {
                    &&& final(self).heap@ == h1
                    &&& final(self).num_objects == old(self).num_objects + 1
                    &&& final(self).max_objects == old(self).max_objects
                }
            },
    {
        if self.stack.len() == self.capacity {
            return Err(VmError::StackOverflow);
        }
        let ghost roots0 = self.stack@;
        let obj = self.new_object(ObjectType::Int(val));
        let ghost h1 = self.heap@;
        let r = self.push(obj);
        proof {
            if gc_due(old(self).num_objects, old(self).max_objects) {
                assert(reaches(h1, obj as int, obj as int));
                assert(roots0.push(obj)[roots0.len() as int] == obj);
                assert(root_reachable(h1, roots0.push(obj), obj as int));
                assert(is_live(self.heap@, obj as int));
                assert(swept_slot(h1, self.heap@, obj as int));
            }
        }
        r
    }

    /// Pops two operands and pushes a composite referencing them: the first
    /// pop (the old top of stack) becomes `tail`, the second `head`. The
    /// consumed operands stay reachable only through the new pair, no
    /// longer as roots. Fails with `StackUnderflow` when fewer than two
    /// operands are on the stack, leaving the machine as it was.
    pub fn push_pair(&mut self) -> (r: Result<(), VmError>)
        requires
            old(self).wf(),
        ensures
            final(self).capacity == old(self).capacity,
            (r is Ok) <==> old(self).stack@.len() >= 2,
            r is Err ==> *final(self) == *old(self) && r == Err::<(), VmError>(
                VmError::StackUnderflow,
            ),
            r is Ok ==> {
                let n = old(self).stack@.len() as int;
                let tail = old(self).stack@[n - 1];
                let head = old(self).stack@[n - 2];
                let idx = old(self).heap@.len() as usize;
                let h1 = old(self).heap@.push(
                    Some(Object { marked: false, value: ObjectType::Pair { head, tail } }),
                );
                let roots1 = old(self).stack@.subrange(0, n - 2).push(idx);
                &&& final(self).wf()
                &&& final(self).stack@ == roots1
                &&& final(self).heap@.len() == old(self).heap@.len() + 1
                &&& is_live(final(self).heap@, idx as int)
                &&& final(self).heap@[idx as int]->0.value == (ObjectType::Pair { head, tail })
                &&& if gc_due(old(self).num_objects, old(self).max_objects) {
                    &&& collected(h1, roots1, final(self).heap@)
                    &&& final(self).max_objects == next_threshold(
                        final(self).num_objects as int - 1,
                    )
                } else {
                    &&& final(self).heap@ == h1
                    &&& final(self).num_objects == old(self).num_objects + 1
                    &&& final(self).max_objects == old(self).max_objects
                }
            },
    {
        if self.stack.len() < 2 {
            return Err(VmError::StackUnderflow);
        }
        let ghost n = self.stack@.len() as int;
        let tail = match self.pop() {
            Ok(t) => t,
            Err(_) => unreached(),
        };
        let head = match self.pop() {
            Ok(h) => h,
            Err(_) => unreached(),
        };
        proof {
            assert(self.stack@ =~= old(self).stack@.subrange(0, n - 2));
        }
        let obj = self.new_object(ObjectType::Pair { head, tail });
        let ghost h1 = self.heap@;
        let ghost roots1 = self.stack@.push(obj);
        let r = self.push(obj);
        proof {
            if gc_due(old(self).num_objects, old(self).max_objects) {
                assert(reaches(h1, obj as int, obj as int));
                assert(roots1[roots1.len() - 1] == obj);
                assert(root_reachable(h1, roots1, obj as int));
                assert(is_live(self.heap@, obj as int));
                assert(swept_slot(h1, self.heap@, obj as int));
            }
        }
        r
    }

    /// Number of live operand-stack slots.
    pub fn stack_size(&self) -> (n: usize)
        ensures
            n == self.stack@.len(),
    {
        self.stack.len()
    }
}

} // verus!
