//! The binary max-heap and the facts proved about it.

use vstd::prelude::*;
use vstd::pervasive::VecAdditionalExecFns;

verus! {

broadcast use vstd::seq_lib::group_to_multiset_ensures;

/// Index of the parent of the node stored at index `i` (meaningful for `i >= 1`).
pub open spec fn parent_index(i: int) -> int {
    (i - 1) / 2
}

/// The max-heap ordering over the flat array representation: every element
/// with a parent is not greater than its parent.
pub open spec fn heap_ordered(s: Seq<i64>) -> bool {
    forall|i: int| 1 <= i < s.len() ==> s[parent_index(i)] >= #[trigger] s[i]
}

/// A sequence arranged in non-increasing order.
pub open spec fn sorted_desc(s: Seq<i64>) -> bool {
    forall|i: int, j: int| 0 <= i <= j < s.len() ==> #[trigger] s[i] >= #[trigger] s[j]
}

/// Max-heap ordering everywhere except that the element at index `j` is
/// allowed to exceed its parent.  This is the state of the storage while an
/// insertion sifts the new element up.
spec fn heap_ordered_except_up(s: Seq<i64>, j: int) -> bool {
    forall|i: int| 1 <= i < s.len() && i != j ==> s[parent_index(i)] >= #[trigger] s[i]
}

/// Max-heap ordering everywhere except that the children of index `j` are
/// allowed to exceed `j`.  This is the state of the storage while an
/// extraction sifts the new root down.
spec fn heap_ordered_except_down(s: Seq<i64>, j: int) -> bool {
    forall|i: int|
        1 <= i < s.len() && parent_index(i) != j ==> s[parent_index(i)] >= #[trigger] s[i]
}

/// While a sift moves an element through index `j`, the element above `j`
/// already dominates the children of `j`, so a swap at `j` keeps `j`'s
/// neighbourhood in order.
spec fn sift_bridge(s: Seq<i64>, j: int) -> bool {
    forall|i: int|
        1 <= i < s.len() && parent_index(i) == j && j >= 1 ==> s[parent_index(j)]
            >= #[trigger] s[i]
}

/// The value `x` occurs in the subtree rooted at index `i` of the flat array
/// representation.
pub open spec fn in_subtree(s: Seq<i64>, i: int, x: i64) -> bool
    decreases s.len() - i,
{
    0 <= i < s.len() && (s[i] == x || (2 * i + 1 < s.len() && in_subtree(s, 2 * i + 1, x)) || (2
        * i + 2 < s.len() && in_subtree(s, 2 * i + 2, x)))
}

/// In a heap-ordered array, a value found in a subtree never exceeds the
/// subtree's root.  This is what lets the search prune a whole subtree as
/// soon as the sought value exceeds its root.
proof fn lemma_subtree_le(s: Seq<i64>, i: int, x: i64)
    requires
        heap_ordered(s),
        in_subtree(s, i, x),
    ensures
        x <= s[i],
    decreases s.len() - i,
{
    if s[i] == x {
    } else if 2 * i + 1 < s.len() && in_subtree(s, 2 * i + 1, x) {
        lemma_subtree_le(s, 2 * i + 1, x);
        assert(parent_index(2 * i + 1) == i);
        assert(s[i] >= s[2 * i + 1]);
    } else {
        lemma_subtree_le(s, 2 * i + 2, x);
        assert(parent_index(2 * i + 2) == i);
        assert(s[i] >= s[2 * i + 2]);
    }
}

/// A value occurring in the subtree rooted at any index also occurs in the
/// subtree rooted at index 0, which spans the whole array.
proof fn lemma_up_to_root(s: Seq<i64>, j: int, x: i64)
    requires
        in_subtree(s, j, x),
    ensures
        in_subtree(s, 0, x),
    decreases j,
{
    if j > 0 {
        let p = parent_index(j);
        assert(j == 2 * p + 1 || j == 2 * p + 2);
        assert(in_subtree(s, p, x));
        lemma_up_to_root(s, p, x);
    }
}

/// Number of array slots in the subtree rooted at `i`.
spec fn subtree_size(len: int, i: int) -> nat
    decreases len - i,
{
    if 0 <= i < len {
        (1 + (if 2 * i + 1 < len {
            subtree_size(len, 2 * i + 1)
        } else {
            0
        }) + (if 2 * i + 2 < len {
            subtree_size(len, 2 * i + 2)
        } else {
            0
        })) as nat
    } else {
        0
    }
}

/// Combined size of the subtrees whose roots wait in the stack: the measure
/// that shrinks as the search trades a node for its children.
spec fn stack_weight(len: int, st: Seq<usize>) -> nat
    decreases st.len(),
{
    if st.len() == 0 {
        0
    } else {
        (subtree_size(len, st.last() as int) + stack_weight(len, st.drop_last())) as nat
    }
}

/// In a heap-ordered sequence the root dominates every element: walking from
/// any index up its chain of parents, values never decrease.
pub proof fn lemma_root_is_max(s: Seq<i64>, i: int)
    requires
        heap_ordered(s),
        0 <= i < s.len(),
    ensures
        s[0] >= s[i],
    decreases i,
{
    if i > 0 {
        assert(s[parent_index(i)] >= s[i]);
        lemma_root_is_max(s, parent_index(i));
    }
}

/// Extraction-order law: `pop` hands back the old root, which dominates
/// every element, and leaves the rest; so whatever a later `pop` returns
/// comes from that rest and cannot exceed it.  Repeated extraction therefore
/// yields a non-increasing sequence.
pub proof fn lemma_extraction_order(s1: Seq<i64>, s2: Seq<i64>)
    requires
        heap_ordered(s1),
        s1.len() > 0,
        s2.len() > 0,
        s2.to_multiset() == s1.to_multiset().remove(s1[0]),
    ensures
        s1[0] >= s2[0],
{
    broadcast use vstd::multiset::group_multiset_axioms;

    assert(s2.contains(s2[0]));
    assert(s2.to_multiset().count(s2[0]) > 0);
    assert(s1.to_multiset().count(s2[0]) > 0);
    assert(s1.contains(s2[0]));
    let k = choose|k: int| 0 <= k < s1.len() && s1[k] == s2[0];
    lemma_root_is_max(s1, k);
}

/// Idempotence of peeking: the result of `get_max` is a function of the
/// heap's contents alone, so without mutation in between, two peeks agree.
pub proof fn lemma_peek_deterministic(s: Seq<i64>, r1: Option<i64>, r2: Option<i64>)
    requires
        s.len() == 0 ==> r1 is None && r2 is None,
        s.len() > 0 ==> r1 == Some(s[0]) && r2 == Some(s[0]),
    ensures
        r1 == r2,
{
}

/// Swapping two elements of a sequence leaves its multiset of elements
/// unchanged.
proof fn lemma_swap_preserves_multiset(s: Seq<i64>, a: int, b: int)
    requires
        0 <= a < s.len(),
        0 <= b < s.len(),
    ensures
        s.update(a, s[b]).update(b, s[a]).to_multiset() == s.to_multiset(),
{
    broadcast use vstd::multiset::group_multiset_axioms;
    broadcast use vstd::multiset::group_multiset_properties;

    let ms = s.to_multiset();
    let s1 = s.update(a, s[b]);
    let s2 = s1.update(b, s[a]);
    assert(s.contains(s[a]));
    assert(s.contains(s[b]));
    assert(s1[b] == s[b]);
    assert(s1.to_multiset() == ms.insert(s[b]).remove(s[a]));
    assert(s2.to_multiset() == s1.to_multiset().insert(s[a]).remove(s[b]));
    assert forall|y: i64| s2.to_multiset().count(y) == ms.count(y) by {
        assert(ms.count(s[a]) > 0);
        assert(ms.count(s[b]) > 0);
    }
    assert(s2.to_multiset() =~= ms);
}

/// Exchange the elements at indices `a` and `b`.
fn swap_in(v: &mut Vec<i64>, a: usize, b: usize)
    requires
        a < old(v).len(),
        b < old(v).len(),
    ensures
        final(v)@ == old(v)@.update(a as int, old(v)@[b as int]).update(
            b as int,
            old(v)@[a as int],
        ),
        final(v)@.len() == old(v)@.len(),
        final(v)@.to_multiset() == old(v)@.to_multiset(),
{
    let x = v[a];
    let y = v[b];
    v.set(a, y);
    v.set(b, x);
    proof {
        lemma_swap_preserves_multiset(old(v)@, a as int, b as int);
    }
}

/// A binary max-heap of `i64` keys.
///
/// The heap is stored flat in a `Vec`, used as an implicit complete binary
/// tree via index arithmetic, with the maximum at index 0.
pub struct BinaryHeap {
    data: Vec<i64>,
}

impl View for BinaryHeap {
    type V = Seq<i64>;

    closed spec fn view(&self) -> Seq<i64> {
        self.data@
    }
}

impl BinaryHeap {
    /// The heap's internal invariant: its storage is in max-heap order.
    /// `new` establishes it and every operation preserves it.
    pub open spec fn well_formed(&self) -> bool {
        heap_ordered(self@)
    }

    /// Create a new empty heap.
    pub fn new() -> (r: BinaryHeap)
        ensures
            r@ == Seq::<i64>::empty(),
            r.well_formed(),
    {
        BinaryHeap { data: Vec::new() }
    }

    /// Number of elements currently in the heap.
    pub fn size(&self) -> (r: usize)
        ensures
            r == self@.len(),
    {
        self.data.len()
    }

    /// Insert an element: append it to the storage, then sift it up until it
    /// no longer exceeds its parent.
    pub fn insert(&mut self, x: i64)
        requires
            old(self).well_formed(),
        ensures
            final(self).well_formed(),
            final(self)@.len() == old(self)@.len() + 1,
            final(self)@.to_multiset() == old(self)@.to_multiset().insert(x),
    {
        let ghost orig = self@;
        self.data.push(x);
        let mut cur: usize = self.data.len() - 1;
        proof {
            assert forall|i: int|
                1 <= i < self@.len() && i != cur as int implies self@[parent_index(i)]
                >= #[trigger] self@[i] by {
                assert(self@[i] == orig[i]);
                assert(self@[parent_index(i)] == orig[parent_index(i)]);
            }
        }
        while cur > 0
            invariant_except_break
                heap_ordered_except_up(self@, cur as int),
                sift_bridge(self@, cur as int),
            invariant
                cur < self@.len(),
                self@.len() == orig.len() + 1,
                self@.to_multiset() == orig.to_multiset().insert(x),
            ensures
                heap_ordered(self@),
                self@.len() == orig.len() + 1,
                self@.to_multiset() == orig.to_multiset().insert(x),
            decreases cur,
        {
            let p: usize = (cur - 1) / 2;
            proof {
                assert(p as int == parent_index(cur as int));
            }
            if self.data[p] < self.data[cur] {
                let ghost s0 = self@;
                swap_in(&mut self.data, p, cur);
                proof {
                    let sn = self@;
                    assert forall|i: int|
                        1 <= i < sn.len() && i != p as int implies sn[parent_index(i)]
                        >= #[trigger] sn[i] by {
                        if i == cur as int {
                        } else if parent_index(i) == p as int {
                            assert(s0[parent_index(i)] >= s0[i]);
                        } else if parent_index(i) == cur as int {
                            assert(s0[parent_index(cur as int)] >= s0[i]);
                        } else {
                            assert(s0[parent_index(i)] >= s0[i]);
                        }
                    }
                    assert forall|i: int|
                        1 <= i < sn.len() && parent_index(i) == p as int && p as int
                            >= 1 implies sn[parent_index(p as int)] >= #[trigger] sn[i] by {
                        assert(s0[parent_index(p as int)] >= s0[p as int]);
                        if i != cur as int {
                            assert(s0[parent_index(i)] >= s0[i]);
                        }
                    }
                }
                cur = p;
            } else {
                proof {
                    assert forall|i: int| 1 <= i < self@.len() implies self@[parent_index(i)]
                        >= #[trigger] self@[i] by {}
                }
                break;
            }
        }
    }

    /// Remove and return the maximum element, or `None` if the heap is
    /// empty.  The root is swapped with the last element, the last slot is
    /// detached and returned, and the new root is sifted down, always
    /// trading places with its larger child (the left one when the children
    /// are equal) while a child exceeds it.
    #[verifier::rlimit(50)]
    pub fn pop(&mut self) -> (r: Option<i64>)
        requires
            old(self).well_formed(),
        ensures
            final(self).well_formed(),
            old(self)@.len() == 0 ==> r is None && final(self)@ == old(self)@,
            old(self)@.len() > 0 ==> {
                &&& r == Some(old(self)@[0])
                &&& final(self)@.len() == old(self)@.len() - 1
                &&& final(self)@.to_multiset() == old(self)@.to_multiset().remove(old(self)@[0])
                &&& forall|i: int| 0 <= i < old(self)@.len() ==> old(self)@[0] >= #[trigger] old(
                    self,
                )@[i]
            },
    {
        let n = self.data.len();
        if n == 0 {
            return None;
        }
        let ghost orig = self@;
        proof {
            assert forall|i: int| 0 <= i < orig.len() implies orig[0] >= #[trigger] orig[i] by {
                lemma_root_is_max(orig, i);
            }
        }
        swap_in(&mut self.data, 0, n - 1);
        let r = self.data.pop();
        let ghost sw = orig.update(0, orig[(n - 1) as int]).update((n - 1) as int, orig[0]);
        let ghost base = self@;
        proof {
            assert(base =~= sw.remove((n - 1) as int));
            assert(sw.remove((n - 1) as int).to_multiset() == sw.to_multiset().remove(
                sw[(n - 1) as int],
            ));
            assert(base.to_multiset() == orig.to_multiset().remove(orig[0]));
            assert forall|i: int|
                1 <= i < base.len() && parent_index(i) != 0 implies base[parent_index(i)]
                >= #[trigger] base[i] by {
                assert(base[i] == orig[i]);
                assert(base[parent_index(i)] == orig[parent_index(i)]);
            }
        }
        let m = self.data.len();
        let mut cur: usize = 0;
        while cur < m / 2
            invariant_except_break
                heap_ordered_except_down(self@, cur as int),
                sift_bridge(self@, cur as int),
            invariant
                cur <= m,
                m == self@.len(),
                m == 0 ==> cur == 0,
                m > 0 ==> cur < m,
                self@.to_multiset() == base.to_multiset(),
            ensures
                heap_ordered(self@),
                m == self@.len(),
                self@.to_multiset() == base.to_multiset(),
            decreases m - cur,
        {
            let left: usize = 2 * cur + 1;
            let right: usize = left + 1;
            let c: usize = if right < m && self.data[right] > self.data[left] {
                right
            } else {
                left
            };
            proof {
                assert(parent_index(c as int) == cur as int);
            }
            if self.data[c] > self.data[cur] {
                let ghost s0 = self@;
                swap_in(&mut self.data, cur, c);
                proof {
                    let sn = self@;
                    assert forall|i: int|
                        1 <= i < sn.len() && parent_index(i) != c as int implies sn[parent_index(
                        i,
                    )] >= #[trigger] sn[i] by {
                        if i == c as int {
                        } else if i == cur as int {
                            assert(s0[parent_index(cur as int)] >= s0[c as int]);
                        } else if parent_index(i) == cur as int {
                            assert(i == left as int || i == right as int);
                            assert(s0[c as int] >= s0[i]);
                        } else {
                            assert(s0[parent_index(i)] >= s0[i]);
                        }
                    }
                    assert forall|i: int|
                        1 <= i < sn.len() && parent_index(i) == c as int && c as int
                            >= 1 implies sn[parent_index(c as int)] >= #[trigger] sn[i] by {
                        assert(s0[c as int] >= s0[i]);
                    }
                }
                cur = c;
            } else {
                proof {
                    assert forall|i: int| 1 <= i < self@.len() implies self@[parent_index(i)]
                        >= #[trigger] self@[i] by {
                        if parent_index(i) == cur as int {
                            assert(i == left as int || i == right as int);
                        }
                    }
                }
                break;
            }
        }
        r
    }

    /// Return a copy of the maximum element without removing it, or `None`
    /// if the heap is empty.
    pub fn get_max(&self) -> (r: Option<i64>)
        requires
            self.well_formed(),
        ensures
            self@.len() == 0 ==> r is None,
            self@.len() > 0 ==> {
                &&& r == Some(self@[0])
                &&& forall|i: int| 0 <= i < self@.len() ==> self@[0] >= #[trigger] self@[i]
            },
    {
        if self.data.is_empty() {
            None
        } else {
            proof {
                assert forall|i: int| 0 <= i < self@.len() implies self@[0] >= #[trigger] self@[i] by {
                    lemma_root_is_max(self@, i);
                }
            }
            Some(self.data[0])
        }
    }

    /// Consume the heap and return all its elements, drained by repeated
    /// extraction of the maximum, hence in non-increasing order.
    pub fn to_vec(self) -> (r: Vec<i64>)
        requires
            self.well_formed(),
        ensures
            r@.len() == self@.len(),
            r@.to_multiset() == self@.to_multiset(),
            sorted_desc(r@),
    {
        broadcast use vstd::multiset::group_multiset_axioms;

        let ghost orig = self@;
        let mut h = self;
        let mut out: Vec<i64> = Vec::new();
        proof {
            assert(out@.to_multiset().add(h@.to_multiset()) =~= orig.to_multiset());
        }
        while 0 < h.size()
            invariant
                h.well_formed(),
                out@.len() + h@.len() == orig.len(),
                out@.to_multiset().add(h@.to_multiset()) == orig.to_multiset(),
                sorted_desc(out@),
                forall|i: int, j: int|
                    0 <= i < out@.len() && 0 <= j < h@.len() ==> #[trigger] out@[i]
                        >= #[trigger] h@[j],
            decreases h@.len(),
        {
            let ghost h0 = h@;
            let ghost out0 = out@;
            let x = h.pop().unwrap();
            out.push(x);
            proof {
                assert(h@.to_multiset() == h0.to_multiset().remove(h0[0]));
                assert(out@ == out0.push(x));
                assert(out@.to_multiset().add(h@.to_multiset()) =~= orig.to_multiset());
                assert forall|i: int, j: int|
                    0 <= i < out@.len() && 0 <= j < h@.len() implies #[trigger] out@[i]
                    >= #[trigger] h@[j] by {
                    let y = h@[j];
                    assert(h@.contains(y));
                    assert(h@.to_multiset().count(y) > 0);
                    assert(h0.to_multiset().count(y) > 0);
                    assert(h0.contains(y));
                    let k = choose|k: int| 0 <= k < h0.len() && h0[k] == y;
                    assert(h0[0] >= h0[k]);
                    if i < out0.len() {
                        assert(out0[i] >= h0[k]);
                    }
                }
                assert forall|i: int| 0 <= i < out0.len() implies #[trigger] out0[i] >= x by {
                    assert(out0[i] >= h0[0]);
                }
            }
        }
        proof {
            assert forall|y: i64| out@.to_multiset().count(y) == orig.to_multiset().count(
                y,
            ) by {
                assert(!h@.contains(y));
                assert(h@.to_multiset().count(y) == 0);
            }
            assert(out@.to_multiset() =~= orig.to_multiset());
        }
        out
    }

    /// Test whether `x` is present in the heap.
    ///
    /// The traversal starts at the root and keeps a stack of subtree roots
    /// still to visit.  A subtree is pruned whenever `x` exceeds its root:
    /// by the heap ordering nothing below can equal `x`.
    #[verifier::rlimit(50)]
    pub fn search(&self, x: &i64) -> (r: bool)
        requires
            self.well_formed(),
        ensures
            r == self@.contains(*x),
    {
        let n = self.data.len();
        if n == 0 {
            return false;
        }
        let mut stack: Vec<usize> = Vec::new();
        stack.push(0);
        proof {
            if self@.contains(*x) {
                let j = choose|j: int| 0 <= j < self@.len() && self@[j] == *x;
                assert(in_subtree(self@, j, *x));
                lemma_up_to_root(self@, j, *x);
                assert(stack@[0] == 0usize);
            }
        }
        while stack.len() > 0
            invariant
                self.well_formed(),
                n == self@.len(),
                forall|k: int| 0 <= k < stack@.len() ==> (#[trigger] stack@[k]) < n,
                self@.contains(*x) ==> exists|k: int|
                    0 <= k < stack@.len() && in_subtree(self@, #[trigger] stack@[k] as int, *x),
            decreases stack_weight(n as int, stack@),
        {
            let ghost st0 = stack@;
            let idx = stack.pop().unwrap();
            proof {
                assert(st0.last() == idx);
                assert(stack@ =~= st0.drop_last());
                assert(subtree_size(n as int, idx as int) >= 1);
                assert(stack_weight(n as int, st0) == subtree_size(n as int, idx as int)
                    + stack_weight(n as int, st0.drop_last()));
            }
            let v = self.data[idx];
            if *x > v {
                proof {
                    if self@.contains(*x) {
                        let k = choose|k: int|
                            0 <= k < st0.len() && in_subtree(self@, st0[k] as int, *x);
                        if k == st0.len() - 1 {
                            lemma_subtree_le(self@, idx as int, *x);
                            assert(false);
                        } else {
                            assert(in_subtree(self@, stack@[k] as int, *x));
                        }
                    }
                }
            } else if *x == v {
                proof {
                    assert(self@[idx as int] == *x);
                    assert(self@.contains(*x));
                }
                return true;
            } else {
                let ghost base = stack@.len() as int;
                if idx < n / 2 {
                    let left: usize = 2 * idx + 1;
                    stack.push(left);
                    let right: usize = left + 1;
                    if right < n {
                        stack.push(right);
                    }
                }
                proof {
                    let sn = stack@;
                    if self@.contains(*x) {
                        let k = choose|k: int|
                            0 <= k < st0.len() && in_subtree(self@, st0[k] as int, *x);
                        if k < st0.len() - 1 {
                            assert(sn[k] == st0[k]);
                            assert(in_subtree(self@, sn[k] as int, *x));
                        } else {
                            assert(in_subtree(self@, idx as int, *x));
                            assert(self@[idx as int] != *x);
                            if 2 * (idx as int) + 1 < n && in_subtree(
                                self@,
                                2 * (idx as int) + 1,
                                *x,
                            ) {
                                assert(idx < n / 2);
                                assert(sn[base] as int == 2 * (idx as int) + 1);
                                assert(in_subtree(self@, sn[base] as int, *x));
                            } else {
                                assert(2 * (idx as int) + 2 < n && in_subtree(
                                    self@,
                                    2 * (idx as int) + 2,
                                    *x,
                                ));
                                assert(idx < n / 2);
                                assert(sn[base + 1] as int == 2 * (idx as int) + 2);
                                assert(in_subtree(self@, sn[base + 1] as int, *x));
                            }
                        }
                    }
                    // the measure shrinks: the popped subtree outweighs its children
                    let li = 2 * (idx as int) + 1;
                    let ri = 2 * (idx as int) + 2;
                    let w0 = stack_weight(n as int, st0.drop_last());
                    if idx < n / 2 {
                        assert(li < n);
                        assert(subtree_size(n as int, idx as int) == 1 + subtree_size(
                            n as int,
                            li,
                        ) + (if ri < n {
                            subtree_size(n as int, ri)
                        } else {
                            0
                        }));
                        if ri < n {
                            assert(sn.drop_last() =~= st0.drop_last().push((2 * idx + 1) as usize));
                            assert(sn.drop_last().drop_last() =~= st0.drop_last());
                            assert(sn.last() as int == ri);
                            assert(sn.drop_last().last() as int == li);
                            assert(stack_weight(n as int, sn) == subtree_size(n as int, ri)
                                + stack_weight(n as int, sn.drop_last()));
                            assert(stack_weight(n as int, sn.drop_last()) == subtree_size(
                                n as int,
                                li,
                            ) + w0);
                        } else {
                            assert(sn.drop_last() =~= st0.drop_last());
                            assert(sn.last() as int == li);
                            assert(stack_weight(n as int, sn) == subtree_size(n as int, li) + w0);
                        }
                    } else {
                        assert(li >= n);
                        assert(sn =~= st0.drop_last());
                    }
                    assert(stack_weight(n as int, sn) < stack_weight(n as int, st0));
                }
            }
        }
        proof {
            assert(!self@.contains(*x));
        }
        false
    }

    /// The heap's storage, in array order (maximum first).
    pub fn as_slice(&self) -> (r: &[i64])
        ensures
            r@ == self@,
    {
        self.data.as_slice()
    }
}

impl Default for BinaryHeap {
    fn default() -> (r: Self)
        ensures
            r@ == Seq::<i64>::empty(),
            r.well_formed(),
    {
        BinaryHeap::new()
    }
}

/// Sort a vector of keys into non-increasing order by pushing every element
/// through a heap and then draining it.
pub fn sort(values: Vec<i64>) -> (r: Vec<i64>)
    ensures
        r@.len() == values@.len(),
        r@.to_multiset() == values@.to_multiset(),
        sorted_desc(r@),
{
    let mut h = BinaryHeap::new();
    let n = values.len();
    let mut i: usize = 0;
    proof {
        assert(values@.take(0) =~= Seq::<i64>::empty());
        assert(h@.to_multiset() =~= values@.take(0).to_multiset());
    }
    while i < n
        invariant
            i <= n,
            n == values@.len(),
            h.well_formed(),
            h@.len() == i,
            h@.to_multiset() == values@.take(i as int).to_multiset(),
        decreases n - i,
    {
        h.insert(values[i]);
        proof {
            assert(values@.take(i + 1) =~= values@.take(i as int).push(values@[i as int]));
        }
        i = i + 1;
    }
    proof {
        assert(values@.take(n as int) =~= values@);
    }
    h.to_vec()
}

} // verus!
