//! The heap object model: tagged objects held in an arena, program-level
//! reachability over their child links, and the recursive marking traversal
//! that the collector's mark phase performs.
//!
//! The arena is a sequence of optional objects. A slot holds `Some` object
//! from its allocation until the sweep that reclaims it; indices are stable,
//! so an index is a reference. A pair's children are always allocated before
//! the pair itself, which makes every child index strictly smaller than its
//! parent's and the object graph acyclic by construction.

use vstd::prelude::*;

verus! {

/// The tagged payload of a heap object: a scalar integer leaf, or a composite
/// pair whose two children are arena indices of earlier allocations.
#[derive(Clone, Copy, PartialEq, Eq, Structural, Debug)]
pub enum ObjectType {
    Int(i32),
    Pair { head: usize, tail: usize },
}

/// One heap object: a mark bit, set only while a collection cycle is in
/// progress, and the tagged value.
#[derive(Clone, Copy, PartialEq, Eq, Structural, Debug)]
pub struct Object {
    pub marked: bool,
    pub value: ObjectType,
}

/// Slot `j` of the arena holds a not-yet-reclaimed object.
pub open spec fn is_live(h: Seq<Option<Object>>, j: int) -> bool {
    0 <= j < h.len() && h[j] is Some
}

/// Slot `j` holds an object whose mark bit is set.
pub open spec fn marked(h: Seq<Option<Object>>, j: int) -> bool {
    &&& 0 <= j < h.len()
    &&& h[j] matches Some(o)
    &&& o.marked
}

/// `c` is the index of one of the two children of the pair in slot `j`.
pub open spec fn is_child(h: Seq<Option<Object>>, j: int, c: int) -> bool {
    h[j] matches Some(o) && o.value matches ObjectType::Pair { head, tail }
        && (c == head || c == tail)
}

/// A well-formed slot: if it holds a pair, both children sit at strictly
/// smaller indices and are themselves live.
pub open spec fn wf_slot(h: Seq<Option<Object>>, j: int) -> bool {
    h[j] matches Some(o) ==> (o.value matches ObjectType::Pair { head, tail } ==> {
        &&& head < j
        &&& tail < j
        &&& h[head as int] is Some
        &&& h[tail as int] is Some
    })
}

/// A well-formed arena: every slot is well-formed.
pub open spec fn wf_heap(h: Seq<Option<Object>>) -> bool {
    forall|j: int| 0 <= j < h.len() ==> #[trigger] wf_slot(h, j)
}

/// Object `j` is reachable from object `i` by zero or more child hops.
pub open spec fn reaches(h: Seq<Option<Object>>, i: int, j: int) -> bool
    decreases i when i >= 0
{
    &&& 0 <= i < h.len()
    &&& h[i] matches Some(o)
    &&& {
        ||| i == j
        ||| (o.value matches ObjectType::Pair { head, tail } && {
            ||| (head < i && reaches(h, head as int, j))
            ||| (tail < i && reaches(h, tail as int, j))
        })
    }
}

/// Object `j` is reachable from object `i` along a path on which every
/// object, `j` included, is still unmarked: exactly the objects that one
/// call of `mark` starting at `i` newly marks.
pub open spec fn reaches_unmarked(h: Seq<Option<Object>>, i: int, j: int) -> bool
    decreases i when i >= 0
{
    &&& 0 <= i < h.len()
    &&& h[i] matches Some(o)
    &&& !o.marked
    &&& {
        ||| i == j
        ||| (o.value matches ObjectType::Pair { head, tail } && {
            ||| (head < i && reaches_unmarked(h, head as int, j))
            ||| (tail < i && reaches_unmarked(h, tail as int, j))
        })
    }
}

/// No mark bit is set anywhere: the state between collection cycles.
pub open spec fn all_unmarked(h: Seq<Option<Object>>) -> bool {
    forall|j: int| 0 <= j < h.len() ==> !#[trigger] marked(h, j)
}

/// If the object in slot `j` is a marked pair, both its children are marked.
pub open spec fn closed_slot(h: Seq<Option<Object>>, j: int) -> bool {
    h[j] matches Some(o) ==> (o.marked ==> (o.value matches ObjectType::Pair {
        head,
        tail,
    } ==> marked(h, head as int) && marked(h, tail as int)))
}

/// The marked set is closed under child hops, as it is after a mark phase.
pub open spec fn marks_closed(h: Seq<Option<Object>>) -> bool {
    forall|j: int| 0 <= j < h.len() ==> #[trigger] closed_slot(h, j)
}

/// Slot `j` is live in `h1` exactly when it is live in `h2`, with the same
/// payload; only the mark bits may differ.
pub open spec fn same_object(
    h1: Seq<Option<Object>>,
    h2: Seq<Option<Object>>,
    j: int,
) -> bool {
    &&& (h1[j] is Some <==> h2[j] is Some)
    &&& (h1[j] matches Some(o1) ==> h2[j] matches Some(o2) && o1.value == o2.value)
}

/// `h2` is `h1` with at most the mark bits changed.
pub open spec fn same_objects(h1: Seq<Option<Object>>, h2: Seq<Option<Object>>) -> bool {
    &&& h1.len() == h2.len()
    &&& forall|j: int| 0 <= j < h1.len() ==> #[trigger] same_object(h1, h2, j)
}

/// Number of live slots at index `i` or above.
pub open spec fn live_count_from(h: Seq<Option<Object>>, i: int) -> int
    decreases h.len() - i,
{
    if i < 0 || i >= h.len() {
        0
    } else {
        (if h[i] is Some {
            1int
        } else {
            0int
        }) + live_count_from(h, i + 1)
    }
}

/// Number of marked slots at index `i` or above.
pub open spec fn marked_count_from(h: Seq<Option<Object>>, i: int) -> int
    decreases h.len() - i,
{
    if i < 0 || i >= h.len() {
        0
    } else {
        (if marked(h, i) {
            1int
        } else {
            0int
        }) + marked_count_from(h, i + 1)
    }
}

/// Number of live but unmarked slots at index `i` or above: what a sweep
/// starting there would reclaim.
pub open spec fn unmarked_live_count_from(h: Seq<Option<Object>>, i: int) -> int
    decreases h.len() - i,
{
    if i < 0 || i >= h.len() {
        0
    } else {
        (if h[i] is Some && !marked(h, i) {
            1int
        } else {
            0int
        }) + unmarked_live_count_from(h, i + 1)
    }
}

/// Changing mark bits alone never changes which slots are well-formed.
pub proof fn lemma_same_objects_wf(h1: Seq<Option<Object>>, h2: Seq<Option<Object>>)
    requires
        same_objects(h1, h2),
        wf_heap(h1),
    ensures
        wf_heap(h2),
{
    assert forall|j: int| 0 <= j < h2.len() implies #[trigger] wf_slot(h2, j) by {
        assert(same_object(h1, h2, j));
        assert(wf_slot(h1, j));
        match h2[j] {
            Some(o2) => match o2.value {
                ObjectType::Pair { head, tail } => {
                    assert(same_object(h1, h2, head as int));
                    assert(same_object(h1, h2, tail as int));
                },
                ObjectType::Int(_) => {},
            },
            None => {},
        }
    }
}

/// Differing only in mark bits is symmetric.
pub proof fn lemma_same_objects_sym(h1: Seq<Option<Object>>, h2: Seq<Option<Object>>)
    requires
        same_objects(h1, h2),
    ensures
        same_objects(h2, h1),
{
    assert forall|j: int| 0 <= j < h2.len() implies #[trigger] same_object(h2, h1, j) by {
        assert(same_object(h1, h2, j));
    }
}

/// Differing only in mark bits is transitive.
pub proof fn lemma_same_objects_trans(
    h1: Seq<Option<Object>>,
    h2: Seq<Option<Object>>,
    h3: Seq<Option<Object>>,
)
    requires
        same_objects(h1, h2),
        same_objects(h2, h3),
    ensures
        same_objects(h1, h3),
{
    assert forall|j: int| 0 <= j < h1.len() implies #[trigger] same_object(h1, h3, j) by {
        assert(same_object(h1, h2, j));
        assert(same_object(h2, h3, j));
    }
}

/// Changing mark bits alone never changes reachability.
pub proof fn lemma_same_objects_reaches(
    h1: Seq<Option<Object>>,
    h2: Seq<Option<Object>>,
    i: int,
    j: int,
)
    requires
        0 <= i,
        same_objects(h1, h2),
        reaches(h1, i, j),
    ensures
        reaches(h2, i, j),
    decreases i,
{
    assert(same_object(h1, h2, i));
    if i != j {
        let o1 = h1[i]->0;
        match o1.value {
            ObjectType::Pair { head, tail } => {
                if head < i && reaches(h1, head as int, j) {
                    lemma_same_objects_reaches(h1, h2, head as int, j);
                } else {
                    lemma_same_objects_reaches(h1, h2, tail as int, j);
                }
            },
            ObjectType::Int(_) => {},
        }
    }
}

/// Whatever reaches a pair also reaches each of the pair's children.
pub proof fn lemma_reaches_child(h: Seq<Option<Object>>, i: int, j: int, c: int)
    requires
        0 <= i,
        wf_heap(h),
        reaches(h, i, j),
        is_child(h, j, c),
    ensures
        reaches(h, i, c),
    decreases i,
{
    if i == j {
        assert(wf_slot(h, j));
        assert(reaches(h, c, c));
        assert(reaches(h, i, c));
    } else {
        let o = h[i]->0;
        match o.value {
            ObjectType::Pair { head, tail } => {
                if head < i && reaches(h, head as int, j) {
                    lemma_reaches_child(h, head as int, j, c);
                } else {
                    lemma_reaches_child(h, tail as int, j, c);
                }
            },
            ObjectType::Int(_) => {},
        }
    }
}

/// A child of an object reachable through unmarked objects is either already
/// marked or itself reachable through unmarked objects.
pub proof fn lemma_reaches_unmarked_child(h: Seq<Option<Object>>, root: int, i: int, c: int)
    requires
        0 <= root,
        wf_heap(h),
        reaches_unmarked(h, root, i),
        is_child(h, i, c),
    ensures
        marked(h, c) || reaches_unmarked(h, root, c),
    decreases root,
{
    if root == i {
        assert(wf_slot(h, i));
        if !marked(h, c) {
            assert(reaches_unmarked(h, c, c));
            assert(reaches_unmarked(h, root, c));
        }
    } else {
        let o = h[root]->0;
        match o.value {
            ObjectType::Pair { head, tail } => {
                if head < root && reaches_unmarked(h, head as int, i) {
                    lemma_reaches_unmarked_child(h, head as int, i, c);
                } else {
                    lemma_reaches_unmarked_child(h, tail as int, i, c);
                }
            },
            ObjectType::Int(_) => {},
        }
    }
}

/// A path through unmarked objects is in particular a path.
pub proof fn lemma_reaches_unmarked_implies_reaches(h: Seq<Option<Object>>, i: int, j: int)
    requires
        0 <= i,
        reaches_unmarked(h, i, j),
    ensures
        reaches(h, i, j),
    decreases i,
{
    if i != j {
        let o = h[i]->0;
        match o.value {
            ObjectType::Pair { head, tail } => {
                if head < i && reaches_unmarked(h, head as int, j) {
                    lemma_reaches_unmarked_implies_reaches(h, head as int, j);
                } else {
                    lemma_reaches_unmarked_implies_reaches(h, tail as int, j);
                }
            },
            ObjectType::Int(_) => {},
        }
    }
}

/// When the marked set is closed under children, everything reachable from a
/// marked object is marked.
pub proof fn lemma_closed_reaches(h: Seq<Option<Object>>, i: int, j: int)
    requires
        0 <= i,
        marks_closed(h),
        marked(h, i),
        reaches(h, i, j),
    ensures
        marked(h, j),
    decreases i,
{
    if i != j {
        assert(closed_slot(h, i));
        let o = h[i]->0;
        match o.value {
            ObjectType::Pair { head, tail } => {
                if head < i && reaches(h, head as int, j) {
                    lemma_closed_reaches(h, head as int, j);
                } else {
                    lemma_closed_reaches(h, tail as int, j);
                }
            },
            ObjectType::Int(_) => {},
        }
    }
}

/// When the marked set is closed under children, anything reachable from
/// `root` is already marked or is reached through unmarked objects only. So
/// for such heaps one `mark` call leaves exactly the old marks plus
/// everything reachable from `root`.
pub proof fn lemma_closed_reaches_to_unmarked(h: Seq<Option<Object>>, root: int, j: int)
    requires
        0 <= root,
        marks_closed(h),
        reaches(h, root, j),
    ensures
        marked(h, j) || reaches_unmarked(h, root, j),
    decreases root,
{
    if marked(h, root) {
        lemma_closed_reaches(h, root, j);
    } else {
        if root != j {
            let o = h[root]->0;
            match o.value {
                ObjectType::Pair { head, tail } => {
                    if head < root && reaches(h, head as int, j) {
                        lemma_closed_reaches_to_unmarked(h, head as int, j);
                    } else {
                        lemma_closed_reaches_to_unmarked(h, tail as int, j);
                    }
                },
                ObjectType::Int(_) => {},
            }
        }
    }
}

/// The counters are non-negative and bounded by the number of slots counted.
pub proof fn lemma_count_bounds(h: Seq<Option<Object>>, i: int)
    requires
        0 <= i <= h.len(),
    ensures
        0 <= live_count_from(h, i) <= h.len() - i,
        0 <= marked_count_from(h, i) <= h.len() - i,
        0 <= unmarked_live_count_from(h, i) <= h.len() - i,
    decreases h.len() - i,
{
    if i < h.len() {
        lemma_count_bounds(h, i + 1);
    }
}

/// Counting a suffix never counts more than counting from further left.
pub proof fn lemma_unmarked_count_monotone(h: Seq<Option<Object>>, i: int, j: int)
    requires
        0 <= i <= j,
    ensures
        unmarked_live_count_from(h, i) >= unmarked_live_count_from(h, j),
    decreases j - i,
{
    if i < j && i < h.len() {
        lemma_unmarked_count_monotone(h, i + 1, j);
    } else if i < j {
        if j >= h.len() {
        } else {
            lemma_unmarked_count_monotone(h, i + 1, j);
        }
    }
}

/// Every live slot is either marked or live-and-unmarked.
pub proof fn lemma_count_decompose(h: Seq<Option<Object>>, i: int)
    requires
        0 <= i,
    ensures
        live_count_from(h, i) == marked_count_from(h, i) + unmarked_live_count_from(h, i),
    decreases h.len() - i,
{
    if i < h.len() {
        lemma_count_decompose(h, i + 1);
    }
}

/// A marked slot makes the marked count positive.
pub proof fn lemma_marked_count_positive(h: Seq<Option<Object>>, i: int, r: int)
    requires
        0 <= i <= r < h.len(),
        marked(h, r),
    ensures
        marked_count_from(h, i) >= 1,
    decreases r - i,
{
    lemma_count_bounds(h, i + 1);
    if i < r {
        lemma_marked_count_positive(h, i + 1, r);
    }
}

/// Appending a slot adds one live slot when it is occupied.
pub proof fn lemma_live_count_push(h: Seq<Option<Object>>, x: Option<Object>, i: int)
    requires
        0 <= i <= h.len(),
    ensures
        live_count_from(h.push(x), i) == live_count_from(h, i) + (if x is Some {
            1int
        } else {
            0int
        }),
    decreases h.len() - i,
{
    if i < h.len() {
        assert(h.push(x)[i] == h[i]);
        lemma_live_count_push(h, x, i + 1);
    } else {
        assert(h.push(x)[i] == x);
        assert(live_count_from(h.push(x), i + 1) == 0);
    }
}

/// Setting the mark bit of one live, unmarked slot lowers the unmarked-live
/// count by one for every starting point at or before it.
pub proof fn lemma_unmarked_count_mark(
    h: Seq<Option<Object>>,
    h2: Seq<Option<Object>>,
    m: int,
    i: int,
)
    requires
        0 <= i <= h.len(),
        0 <= m < h.len(),
        h2.len() == h.len(),
        h[m] is Some,
        !marked(h, m),
        h2[m] is Some,
        marked(h2, m),
        forall|j: int| 0 <= j < h.len() && j != m ==> h2[j] == h[j],
    ensures
        unmarked_live_count_from(h2, i) == unmarked_live_count_from(h, i) - (if i <= m {
            1int
        } else {
            0int
        }),
    decreases h.len() - i,
{
    if i < h.len() {
        lemma_unmarked_count_mark(h, h2, m, i + 1);
    }
}

/// Heaps that differ only in mark bits have the same live count.
pub proof fn lemma_live_count_same(h1: Seq<Option<Object>>, h2: Seq<Option<Object>>, i: int)
    requires
        0 <= i,
        same_objects(h1, h2),
    ensures
        live_count_from(h1, i) == live_count_from(h2, i),
    decreases h1.len() - i,
{
    if i < h1.len() {
        assert(same_object(h1, h2, i));
        lemma_live_count_same(h1, h2, i + 1);
    }
}

/// When the live slots of one heap are exactly the marked slots of another,
/// the live count of the first is the marked count of the second.
pub proof fn lemma_live_count_eq_marked(
    hs: Seq<Option<Object>>,
    h: Seq<Option<Object>>,
    i: int,
)
    requires
        0 <= i,
        hs.len() == h.len(),
        forall|j: int| 0 <= j < h.len() ==> (hs[j] is Some <==> marked(h, j)),
    ensures
        live_count_from(hs, i) == marked_count_from(h, i),
    decreases h.len() - i,
{
    if i < h.len() {
        lemma_live_count_eq_marked(hs, h, i + 1);
    }
}

/// After a marking traversal whose newly marked objects all have their
/// children marked, everything reachable through unmarked objects from a
/// marked starting point is marked.
pub proof fn lemma_mark_complete(
    h0: Seq<Option<Object>>,
    h: Seq<Option<Object>>,
    i: int,
    j: int,
)
    requires
        0 <= i,
        wf_heap(h0),
        reaches_unmarked(h0, i, j),
        marked(h, i),
        forall|m: int, c: int|
            0 <= m < h0.len() && marked(h, m) && !marked(h0, m) && #[trigger] is_child(h0, m, c)
                ==> marked(h, c),
    ensures
        marked(h, j),
    decreases i,
{
    if i != j {
        let o = h0[i]->0;
        match o.value {
            ObjectType::Pair { head, tail } => {
                if head < i && reaches_unmarked(h0, head as int, j) {
                    assert(is_child(h0, i, head as int));
                    lemma_mark_complete(h0, h, head as int, j);
                } else {
                    assert(is_child(h0, i, tail as int));
                    lemma_mark_complete(h0, h, tail as int, j);
                }
            },
            ObjectType::Int(_) => {},
        }
    }
}

/// The heap `h` is the heap `h0` after one marking traversal from `root`:
/// payloads and liveness untouched, and marked exactly the objects that were
/// already marked plus those reachable from `root` through unmarked objects.
pub open spec fn mark_result(h0: Seq<Option<Object>>, root: int, h: Seq<Option<Object>>) -> bool {
    &&& same_objects(h0, h)
    &&& forall|j: int|
        0 <= j < h.len() ==> (marked(h, j) <==> marked(h0, j) || reaches_unmarked(h0, root, j))
}

/// Some entry of `p` is the index `c`.
pub open spec fn has_index(p: Seq<usize>, c: int) -> bool {
    exists|k: int| 0 <= k < p.len() && p[k] == c
}

proof fn lemma_has_index_drop_last(p: Seq<usize>, c: int)
    requires
        p.len() > 0,
        has_index(p, c),
        c != p[p.len() - 1],
    ensures
        has_index(p.subrange(0, p.len() - 1), c),
{
    let k = choose|k: int| 0 <= k < p.len() && p[k] == c;
    assert(p.subrange(0, p.len() - 1)[k] == c);
}

proof fn lemma_has_index_push(p: Seq<usize>, x: usize, c: int)
    requires
        has_index(p, c),
    ensures
        has_index(p.push(x), c),
{
    let k = choose|k: int| 0 <= k < p.len() && p[k] == c;
    assert(p.push(x)[k] == c);
}

/// Idempotent mark: one marking traversal from `root` leaves `root` marked,
/// so a second traversal from the same root is a no-op: it reproduces the
/// heap it was given, slot for slot.
pub proof fn lemma_mark_idempotent(
    h0: Seq<Option<Object>>,
    root: int,
    h1: Seq<Option<Object>>,
    h2: Seq<Option<Object>>,
)
    requires
        0 <= root < h0.len(),
        h0[root] is Some,
        mark_result(h0, root, h1),
        mark_result(h1, root, h2),
    ensures
        h2 =~= h1,
{
    assert(same_object(h0, h1, root));
    if !marked(h0, root) {
        assert(reaches_unmarked(h0, root, root));
    }
    assert(marked(h1, root));
    assert forall|j: int| 0 <= j < h2.len() implies h2[j] == h1[j] by {
        assert(same_object(h1, h2, j));
        assert(!reaches_unmarked(h1, root, j));
        match h1[j] {
            Some(o1) => {
                assert(marked(h1, j) <==> marked(h2, j));
                let o2 = h2[j]->0;
                assert(o2 == (Object { marked: o1.marked, value: o1.value }));
            },
            None => {},
        }
    }
}

impl Object {
    /// A fresh, unmarked object holding the given value. Registering it in a
    /// collector's arena is the allocator's job, not this constructor's.
    pub fn new(typ: ObjectType) -> (obj: Object)
        ensures
            obj == (Object { marked: false, value: typ }),
    {
        Object { marked: false, value: typ }
    }

    /// Idempotent reachability marking: marks `root` and everything reachable
    /// from it, stopping wherever a mark bit is already set. Payloads and
    /// liveness of slots are untouched; exactly the objects reachable from
    /// `root` through unmarked objects gain a mark. An explicit work list
    /// bounds the traversal's use of the host call stack, so arbitrarily
    /// deep nesting of composites is safe.
    pub fn mark(heap: &mut Vec<Option<Object>>, root: usize)
        requires
            wf_heap(old(heap)@),
            (root as int) < old(heap)@.len(),
            old(heap)@[root as int] is Some,
        ensures
            mark_result(old(heap)@, root as int, final(heap)@),
    {
        let ghost h0 = heap@;
        let mut pending: Vec<usize> = Vec::new();
        pending.push(root);
        proof {
            assert(pending@[0] == root);
        }
        while pending.len() != 0
            invariant
                wf_heap(h0),
                (root as int) < h0.len(),
                h0[root as int] is Some,
                heap@.len() == h0.len(),
                same_objects(h0, heap@),
                forall|j: int| marked(h0, j) ==> marked(heap@, j),
                forall|j: int|
                    0 <= j < h0.len() && marked(heap@, j) ==> marked(h0, j)
                        || reaches_unmarked(h0, root as int, j),
                forall|k: int|
                    0 <= k < pending@.len() ==> (#[trigger] pending@[k] as int) < h0.len()
                        && h0[pending@[k] as int] is Some
                        && (marked(h0, pending@[k] as int)
                            || reaches_unmarked(h0, root as int, pending@[k] as int)),
                forall|m: int, c: int|
                    0 <= m < h0.len() && marked(heap@, m) && !marked(h0, m)
                        && #[trigger] is_child(h0, m, c) ==> marked(heap@, c)
                        || has_index(pending@, c),
                marked(heap@, root as int) || has_index(pending@, root as int),
            decreases unmarked_live_count_from(heap@, 0), pending@.len(),
        {
            let ghost p_old = pending@;
            let ghost h_prev = heap@;
            let i = pending.pop().unwrap();
            proof {
                assert(p_old[p_old.len() - 1] == i);
                assert(same_object(h0, h_prev, i as int));
            }
            let o = heap[i].unwrap();
            if !o.marked {
                proof {
                    assert(!marked(h0, i as int));
                    assert(reaches_unmarked(h0, root as int, i as int));
                }
                heap.set(i, Some(Object { marked: true, value: o.value }));
                proof {
                    lemma_unmarked_count_mark(h_prev, heap@, i as int, 0);
                    lemma_count_bounds(heap@, 0);
                    assert forall|j: int| 0 <= j < h0.len() implies #[trigger] same_object(
                        h0,
                        heap@,
                        j,
                    ) by {
                        assert(same_object(h0, h_prev, j));
                    }
                }
                match o.value {
                    ObjectType::Pair { head, tail } => {
                        pending.push(head);
                        pending.push(tail);
                        proof {
                            assert(wf_slot(h0, i as int));
                            assert(is_child(h0, i as int, head as int));
                            assert(is_child(h0, i as int, tail as int));
                            lemma_reaches_unmarked_child(
                                h0,
                                root as int,
                                i as int,
                                head as int,
                            );
                            lemma_reaches_unmarked_child(
                                h0,
                                root as int,
                                i as int,
                                tail as int,
                            );
                            let base = p_old.subrange(0, p_old.len() - 1);
                            assert(pending@ == base.push(head).push(tail));
                            assert(has_index(pending@, head as int)) by {
                                assert(pending@[pending@.len() - 2] == head);
                            }
                            assert(has_index(pending@, tail as int)) by {
                                assert(pending@[pending@.len() - 1] == tail);
                            }
                            assert forall|m: int, c: int|
                                0 <= m < h0.len() && marked(heap@, m) && !marked(h0, m)
                                    && #[trigger] is_child(h0, m, c) implies marked(heap@, c)
                                || has_index(pending@, c) by {
                                if m == i as int {
                                    assert(c == head as int || c == tail as int);
                                } else {
                                    assert(marked(h_prev, m));
                                    if !marked(h_prev, c) && has_index(p_old, c) {
                                        if c == i as int {
                                            assert(marked(heap@, c));
                                        } else {
                                            lemma_has_index_drop_last(p_old, c);
                                            lemma_has_index_push(base, head, c);
                                            lemma_has_index_push(base.push(head), tail, c);
                                        }
                                    }
                                }
                            }
                            if !marked(heap@, root as int) && has_index(p_old, root as int)
                                && root != i {
                                lemma_has_index_drop_last(p_old, root as int);
                                lemma_has_index_push(base, head, root as int);
                                lemma_has_index_push(base.push(head), tail, root as int);
                            }
                        }
                    },
                    ObjectType::Int(_) => {
                        proof {
                            let base = p_old.subrange(0, p_old.len() - 1);
                            assert(pending@ == base);
                            assert forall|m: int, c: int|
                                0 <= m < h0.len() && marked(heap@, m) && !marked(h0, m)
                                    && #[trigger] is_child(h0, m, c) implies marked(heap@, c)
                                || has_index(pending@, c) by {
                                if m == i as int {
                                    assert(same_object(h0, h_prev, m));
                                    assert(!is_child(h0, m, c));
                                } else {
                                    assert(marked(h_prev, m));
                                    if !marked(h_prev, c) && has_index(p_old, c) {
                                        if c == i as int {
                                            assert(marked(heap@, c));
                                        } else {
                                            lemma_has_index_drop_last(p_old, c);
                                        }
                                    }
                                }
                            }
                            if !marked(heap@, root as int) && has_index(p_old, root as int)
                                && root != i {
                                lemma_has_index_drop_last(p_old, root as int);
                            }
                        }
                    },
                }
            } else {
                proof {
                    let base = p_old.subrange(0, p_old.len() - 1);
                    assert(pending@ == base);
                    assert(marked(heap@, i as int));
                    assert forall|m: int, c: int|
                        0 <= m < h0.len() && marked(heap@, m) && !marked(h0, m)
                            && #[trigger] is_child(h0, m, c) implies marked(heap@, c)
                        || has_index(pending@, c) by {
                        if !marked(heap@, c) && has_index(p_old, c) {
                            if c != i as int {
                                lemma_has_index_drop_last(p_old, c);
                            }
                        }
                    }
                    if !marked(heap@, root as int) && has_index(p_old, root as int) && root
                        != i {
                        lemma_has_index_drop_last(p_old, root as int);
                    }
                }
            }
        }
        proof {
            assert forall|j: int| 0 <= j < heap@.len() implies (marked(heap@, j) <==> marked(
                h0,
                j,
            ) || reaches_unmarked(h0, root as int, j)) by {
                if reaches_unmarked(h0, root as int, j) {
                    lemma_mark_complete(h0, heap@, root as int, j);
                }
            }
            assert(mark_result(h0, root as int, heap@));
        }
    }
}

} // verus!
