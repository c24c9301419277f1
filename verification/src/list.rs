//! A singly linked sequence stored as an arena of cells.
//!
//! `LinkedList<T>` supports tail append, lookup by index, and a stable merge
//! of two sorted lists. Cells live in a growable arena and link to their
//! successor by index, so the chain is a simple path: following `next` from
//! the start visits every cell exactly once and ends at the tail.

use vstd::prelude::*;
use vstd::std_specs::cmp::OrdSpec;

verus! {

/// `x` is less than or equal to `y` under the type's comparison, as vstd
/// models it: `cmp` does not place `x` after `y`.
pub open spec fn le_val<T: Ord>(x: T, y: T) -> bool {
    x.cmp_spec(&y) != core::cmp::Ordering::Greater
}

/// The comparison on `T` behaves as a total order: any two values are
/// comparable, and `le_val` is transitive.
pub open spec fn total_le<T: Ord>() -> bool {
    &&& forall|x: T, y: T| #[trigger] le_val(x, y) || #[trigger] le_val(y, x)
    &&& forall|x: T, y: T, z: T| le_val(x, y) && le_val(y, z) ==> le_val(x, z)
}

/// Cloning a value of `T` always yields that very value back. It holds of
/// every type whose `clone` is specified to return its argument, integers
/// and `String` among them.
pub open spec fn clone_duplicates<T: Clone>() -> bool {
    forall|x: T, y: T| #[trigger] cloned::<T>(x, y) ==> y == x
}

/// Each element is `le_val`-below every later one: non-decreasing order.
pub open spec fn sorted<T: Ord>(s: Seq<T>) -> bool {
    forall|i: int, j: int| 0 <= i < j < s.len() ==> #[trigger] le_val(s[i], s[j])
}

/// The stable merge of two sequences: repeatedly emit the smaller head, and
/// on a tie the head of `a`; once one side is exhausted, emit the rest of the
/// other side unchanged.
pub open spec fn merge_seqs<T: Ord>(a: Seq<T>, b: Seq<T>) -> Seq<T>
    decreases a.len() + b.len(),
{
    if a.len() == 0 {
        b
    } else if b.len() == 0 {
        a
    } else if le_val(a[0], b[0]) {
        seq![a[0]] + merge_seqs(a.drop_first(), b)
    } else {
        seq![b[0]] + merge_seqs(a, b.drop_first())
    }
}

/// Law: appending one value extends an element sequence by exactly one, the
/// new value stands at the old length, and every element that was
/// retrievable before keeps its value at its original index.
pub proof fn lemma_append_preserves_existing<T>(s: Seq<T>, x: T)
    ensures
        s.push(x).len() == s.len() + 1,
        forall|k: int| 0 <= k < s.len() ==> s.push(x)[k] == s[k],
        s.push(x)[s.len() as int] == x,
{
}

/// Law: a merged sequence has as many elements as its two inputs together.
pub proof fn lemma_merge_seqs_len<T: Ord>(a: Seq<T>, b: Seq<T>)
    ensures
        merge_seqs(a, b).len() == a.len() + b.len(),
    decreases a.len() + b.len(),
{
    if a.len() == 0 {
    } else if b.len() == 0 {
    } else if le_val(a[0], b[0]) {
        lemma_merge_seqs_len(a.drop_first(), b);
    } else {
        lemma_merge_seqs_len(a, b.drop_first());
    }
}

/// Law: merging interleaves and never invents, drops or changes elements:
/// the multiset of the output is the union, with multiplicity, of the
/// multisets of the two inputs.
pub proof fn lemma_merge_seqs_multiset<T: Ord>(a: Seq<T>, b: Seq<T>)
    ensures
        merge_seqs(a, b).to_multiset() == a.to_multiset().add(b.to_multiset()),
    decreases a.len() + b.len(),
{
    broadcast use vstd::multiset::group_multiset_axioms;

    if a.len() == 0 {
        assert(a + b =~= b);
        vstd::seq_lib::lemma_multiset_commutative(a, b);
    } else if b.len() == 0 {
        assert(a + b =~= a);
        vstd::seq_lib::lemma_multiset_commutative(a, b);
    } else if le_val(a[0], b[0]) {
        lemma_merge_seqs_multiset(a.drop_first(), b);
        vstd::seq_lib::lemma_multiset_commutative(seq![a[0]], merge_seqs(a.drop_first(), b));
        vstd::seq_lib::lemma_multiset_commutative(seq![a[0]], a.drop_first());
        assert(seq![a[0]] + a.drop_first() =~= a);
        assert(seq![a[0]].to_multiset().add(
            a.drop_first().to_multiset().add(b.to_multiset()),
        ) =~= seq![a[0]].to_multiset().add(a.drop_first().to_multiset()).add(b.to_multiset()));
    } else {
        lemma_merge_seqs_multiset(a, b.drop_first());
        vstd::seq_lib::lemma_multiset_commutative(seq![b[0]], merge_seqs(a, b.drop_first()));
        vstd::seq_lib::lemma_multiset_commutative(seq![b[0]], b.drop_first());
        assert(seq![b[0]] + b.drop_first() =~= b);
        assert(seq![b[0]].to_multiset().add(
            a.to_multiset().add(b.drop_first().to_multiset()),
        ) =~= a.to_multiset().add(seq![b[0]].to_multiset().add(b.drop_first().to_multiset())));
    }
}

/// Law: merging two non-decreasing sequences under a total order yields a
/// non-decreasing sequence.
pub proof fn lemma_merge_seqs_sorted<T: Ord>(a: Seq<T>, b: Seq<T>)
    requires
        total_le::<T>(),
        sorted(a),
        sorted(b),
    ensures
        sorted(merge_seqs(a, b)),
    decreases a.len() + b.len(),
{
    broadcast use vstd::multiset::group_multiset_axioms;
    broadcast use vstd::seq_lib::group_to_multiset_ensures;

    if a.len() == 0 {
    } else if b.len() == 0 {
    } else {
        let (head, ra, rb) = if le_val(a[0], b[0]) {
            (a[0], a.drop_first(), b)
        } else {
            (b[0], a, b.drop_first())
        };
        let rest = merge_seqs(ra, rb);
        assert(sorted(a.drop_first())) by {
            assert(forall|i: int, j: int| 0 <= i < j < a.drop_first().len() ==> le_val(
                a.drop_first()[i],
                a.drop_first()[j],
            )) by {
                assert(forall|i: int| 0 <= i < a.drop_first().len() ==> a.drop_first()[i] == a[i
                    + 1]);
            }
        }
        assert(sorted(b.drop_first())) by {
            assert(forall|i: int, j: int| 0 <= i < j < b.drop_first().len() ==> le_val(
                b.drop_first()[i],
                b.drop_first()[j],
            )) by {
                assert(forall|i: int| 0 <= i < b.drop_first().len() ==> b.drop_first()[i] == b[i
                    + 1]);
            }
        }
        lemma_merge_seqs_sorted(ra, rb);
        lemma_merge_seqs_multiset(ra, rb);
        // every element of the tail of the merge is bounded below by `head`
        assert forall|k: int| 0 <= k < rest.len() implies le_val(head, rest[k]) by {
            assert(rest.contains(rest[k]));
            assert(rest.to_multiset().count(rest[k]) > 0);
            assert(ra.to_multiset().count(rest[k]) > 0 || rb.to_multiset().count(rest[k]) > 0);
            if ra.to_multiset().count(rest[k]) > 0 {
                assert(ra.contains(rest[k]));
                let n = choose|n: int| 0 <= n < ra.len() && ra[n] == rest[k];
                if le_val(a[0], b[0]) {
                    assert(ra[n] == a[n + 1]);
                    assert(le_val(a[0], a[n + 1]));
                } else {
                    assert(!le_val(a[0], b[0]));
                    assert(le_val(b[0], a[0]));
                    if n > 0 {
                        assert(le_val(a[0], a[n]));
                    }
                    assert(le_val(b[0], a[n]));
                }
            } else {
                assert(rb.contains(rest[k]));
                let n = choose|n: int| 0 <= n < rb.len() && rb[n] == rest[k];
                if le_val(a[0], b[0]) {
                    if n > 0 {
                        assert(le_val(b[0], b[n]));
                    }
                    assert(le_val(a[0], b[n]));
                } else {
                    assert(rb[n] == b[n + 1]);
                    assert(le_val(b[0], b[n + 1]));
                }
            }
        }
        let m = merge_seqs(a, b);
        assert(m == seq![head] + rest);
        assert forall|i: int, j: int| 0 <= i < j < m.len() implies le_val(m[i], m[j]) by {
            assert(m[j] == rest[j - 1]);
            if i == 0 {
                assert(m[0] == head);
            } else {
                assert(m[i] == rest[i - 1]);
            }
        }
    }
}

/// Law: merging with an empty sequence returns the other sequence unchanged,
/// elementwise and in order.
pub proof fn lemma_merge_seqs_empty<T: Ord>(a: Seq<T>, b: Seq<T>)
    ensures
        merge_seqs(Seq::<T>::empty(), b) == b,
        merge_seqs(a, Seq::<T>::empty()) == a,
{
    if a.len() == 0 {
        assert(a =~= Seq::<T>::empty());
    }
}

/// Law of stability: when the two heads are tied (or the first is smaller),
/// merging the singleton sequences `[x]` and `[y]` emits `x`, the element
/// from the first input, before `y`.
pub proof fn lemma_merge_seqs_singletons<T: Ord>(x: T, y: T)
    requires
        le_val(x, y),
    ensures
        merge_seqs(seq![x], seq![y]) == seq![x, y],
{
    assert(seq![x].drop_first() =~= Seq::<T>::empty());
    assert(merge_seqs(Seq::<T>::empty(), seq![y]) == seq![y]);
    assert(seq![x] + seq![y] =~= seq![x, y]);
}

/// One cell of the chain: a value and the arena index of its successor,
/// or `None` for the last cell.
pub struct Node<T> {
    pub val: T,
    pub next: Option<usize>,
}

impl<T> Node<T> {
    /// A fresh cell holding `t`, with no successor yet.
    pub fn new(t: T) -> (r: Node<T>)
        ensures
            r.val == t,
            r.next is None,
    {
        Node { val: t, next: None }
    }
}

/// An append-only-at-tail, readable-by-index linked sequence.
///
/// The abstract value of a list is the sequence of its elements in
/// head-to-tail order, written `self@`.
pub struct LinkedList<T> {
    /// Number of elements in the chain.
    pub length: u32,
    pub nodes: Vec<Node<T>>,
    pub start: Option<usize>,
    pub end: Option<usize>,
}

impl<T> View for LinkedList<T> {
    type V = Seq<T>;

    open spec fn view(&self) -> Seq<T> {
        Seq::new(self.nodes@.len(), |i: int| self.nodes@[i].val)
    }
}

impl<T> LinkedList<T> {
    /// Structural well-formedness: `length` counts the cells, the start and
    /// end references are absent exactly when the chain is empty, each cell
    /// links to the cell appended right after it, and the end reference names
    /// the last reachable cell.
    pub open spec fn wf(&self) -> bool {
        &&& self.length == self.nodes@.len()
        &&& self.start == (if self.nodes@.len() == 0 {
            Option::<usize>::None
        } else {
            Option::<usize>::Some(0usize)
        })
        &&& self.end == (if self.nodes@.len() == 0 {
            Option::<usize>::None
        } else {
            Option::<usize>::Some((self.nodes@.len() - 1) as usize)
        })
        &&& forall|k: int|
            0 <= k < self.nodes@.len() ==> (#[trigger] self.nodes@[k].next) == (if k + 1
                < self.nodes@.len() {
                Option::<usize>::Some((k + 1) as usize)
            } else {
                Option::<usize>::None
            })
    }

    /// The empty sequence: no cells, no start, no end.
    pub fn new() -> (r: Self)
        ensures
            r.wf(),
            r@ == Seq::<T>::empty(),
            r.length == 0,
    {
        let r = LinkedList { length: 0, nodes: Vec::new(), start: None, end: None };
        proof {
            assert(r@ =~= Seq::<T>::empty());
        }
        r
    }

    /// Appends `obj` after the current tail (or makes it the single cell of a
    /// previously empty chain). Existing elements keep their indices.
    pub fn add(&mut self, obj: T)
        requires
            old(self).wf(),
            old(self)@.len() < u32::MAX,
        ensures
            final(self).wf(),
            final(self)@ == old(self)@.push(obj),
            final(self).length == old(self).length + 1,
    {
        let idx: usize = self.nodes.len();
        match self.end {
            None => {
                self.start = Some(idx);
            },
            Some(end_idx) => {
                self.nodes[end_idx].next = Some(idx);
            },
        }
        self.nodes.push(Node::new(obj));
        self.end = Some(idx);
        self.length = self.length + 1;
        proof {
            assert(self@ =~= old(self)@.push(obj));
        }
    }

    /// Consumes two individually sorted lists and produces a new list that
    /// holds every element of both, in non-decreasing order; when the two
    /// current elements are tied, the one from `list_a` is emitted first.
    /// The result is exactly the stable merge `merge_seqs` of the two inputs'
    /// element sequences, so its order is fixed even when an input was not
    /// sorted.
    pub fn merge(list_a: LinkedList<T>, list_b: LinkedList<T>) -> (r: Self) where T: Clone + Ord
        requires
            list_a.wf(),
            list_b.wf(),
            T::obeys_cmp_spec(),
            clone_duplicates::<T>(),
            list_a@.len() + list_b@.len() <= u32::MAX,
        ensures
            r.wf(),
            r@ == merge_seqs(list_a@, list_b@),
            r.length == list_a.length + list_b.length,
            r@.to_multiset() == list_a@.to_multiset().add(list_b@.to_multiset()),
            total_le::<T>() && sorted(list_a@) && sorted(list_b@) ==> sorted(r@),
    {
        let ghost av = list_a@;
        let ghost bv = list_b@;
        let mut merged_list = LinkedList::new();
        let mut current_a: Option<usize> = list_a.start;
        let mut current_b: Option<usize> = list_b.start;
        let ghost mut i: int = 0;
        let ghost mut j: int = 0;
        proof {
            assert(av.skip(0) =~= av);
            assert(bv.skip(0) =~= bv);
            assert(merged_list@ + merge_seqs(av, bv) =~= merge_seqs(av, bv));
        }
        // interleave until one input is exhausted
        while current_a.is_some() && current_b.is_some()
            invariant
                list_a.wf(),
                list_b.wf(),
                merged_list.wf(),
                T::obeys_cmp_spec(),
                clone_duplicates::<T>(),
                av == list_a@,
                bv == list_b@,
                av.len() + bv.len() <= u32::MAX,
                0 <= i <= av.len(),
                0 <= j <= bv.len(),
                merged_list@.len() == i + j,
                current_a == (if i < av.len() {
                    Option::<usize>::Some(i as usize)
                } else {
                    Option::<usize>::None
                }),
                current_b == (if j < bv.len() {
                    Option::<usize>::Some(j as usize)
                } else {
                    Option::<usize>::None
                }),
                merged_list@ + merge_seqs(av.skip(i), bv.skip(j)) == merge_seqs(av, bv),
            decreases av.len() - i + bv.len() - j,
        {
            let ai = current_a.unwrap();
            let bi = current_b.unwrap();
            let a_val = list_a.nodes[ai].val.clone();
            let b_val = list_b.nodes[bi].val.clone();
            let ghost m = merged_list@;
            proof {
                assert(cloned::<T>(list_a.nodes@[ai as int].val, a_val));
                assert(cloned::<T>(list_b.nodes@[bi as int].val, b_val));
                assert(a_val == av[i]);
                assert(b_val == bv[j]);
                assert(av.skip(i)[0] == av[i]);
                assert(bv.skip(j)[0] == bv[j]);
                assert(av.skip(i).drop_first() =~= av.skip(i + 1));
                assert(bv.skip(j).drop_first() =~= bv.skip(j + 1));
            }
            match a_val.cmp(&b_val) {
                core::cmp::Ordering::Greater => {
                    merged_list.add(b_val);
                    current_b = list_b.nodes[bi].next;
                    proof {
                        assert(!le_val(av[i], bv[j]));
                        assert(merge_seqs(av.skip(i), bv.skip(j)) == seq![bv[j]] + merge_seqs(
                            av.skip(i),
                            bv.skip(j + 1),
                        ));
                        assert(m.push(bv[j]) + merge_seqs(av.skip(i), bv.skip(j + 1)) =~= m + (
                        seq![bv[j]] + merge_seqs(av.skip(i), bv.skip(j + 1))));
                        j = j + 1;
                    }
                },
                _ => {
                    merged_list.add(a_val);
                    current_a = list_a.nodes[ai].next;
                    proof {
                        assert(le_val(av[i], bv[j]));
                        assert(merge_seqs(av.skip(i), bv.skip(j)) == seq![av[i]] + merge_seqs(
                            av.skip(i + 1),
                            bv.skip(j),
                        ));
                        assert(m.push(av[i]) + merge_seqs(av.skip(i + 1), bv.skip(j)) =~= m + (
                        seq![av[i]] + merge_seqs(av.skip(i + 1), bv.skip(j))));
                        i = i + 1;
                    }
                },
            }
        }
        // drain what is left of `list_a`
        while current_a.is_some()
            invariant
                list_a.wf(),
                merged_list.wf(),
                clone_duplicates::<T>(),
                av == list_a@,
                av.len() + bv.len() <= u32::MAX,
                0 <= i <= av.len(),
                0 <= j <= bv.len(),
                merged_list@.len() == i + j,
                current_a == (if i < av.len() {
                    Option::<usize>::Some(i as usize)
                } else {
                    Option::<usize>::None
                }),
                current_a is Some ==> j == bv.len(),
                merged_list@ + merge_seqs(av.skip(i), bv.skip(j)) == merge_seqs(av, bv),
            decreases av.len() - i,
        {
            let ai = current_a.unwrap();
            let ghost m = merged_list@;
            let a_val = list_a.nodes[ai].val.clone();
            proof {
                assert(cloned::<T>(list_a.nodes@[ai as int].val, a_val));
            }
            merged_list.add(a_val);
            current_a = list_a.nodes[ai].next;
            proof {
                assert(bv.skip(j).len() == 0);
                assert(av.skip(i)[0] == av[i]);
                assert(merge_seqs(av.skip(i), bv.skip(j)) == av.skip(i));
                assert(m.push(av[i]) + av.skip(i + 1) =~= m + av.skip(i));
                i = i + 1;
                assert(merge_seqs(av.skip(i), bv.skip(j)) == av.skip(i));
            }
        }
        // drain what is left of `list_b`
        while current_b.is_some()
            invariant
                list_b.wf(),
                merged_list.wf(),
                clone_duplicates::<T>(),
                bv == list_b@,
                av.len() + bv.len() <= u32::MAX,
                0 <= i <= av.len(),
                0 <= j <= bv.len(),
                merged_list@.len() == i + j,
                current_b == (if j < bv.len() {
                    Option::<usize>::Some(j as usize)
                } else {
                    Option::<usize>::None
                }),
                current_b is Some ==> i == av.len(),
                merged_list@ + merge_seqs(av.skip(i), bv.skip(j)) == merge_seqs(av, bv),
            decreases bv.len() - j,
        {
            let bi = current_b.unwrap();
            let ghost m = merged_list@;
            let b_val = list_b.nodes[bi].val.clone();
            proof {
                assert(cloned::<T>(list_b.nodes@[bi as int].val, b_val));
            }
            merged_list.add(b_val);
            current_b = list_b.nodes[bi].next;
            proof {
                assert(av.skip(i).len() == 0);
                assert(bv.skip(j)[0] == bv[j]);
                assert(merge_seqs(av.skip(i), bv.skip(j)) == bv.skip(j));
                assert(m.push(bv[j]) + bv.skip(j + 1) =~= m + bv.skip(j));
                j = j + 1;
                assert(merge_seqs(av.skip(i), bv.skip(j)) == bv.skip(j));
            }
        }
        proof {
            assert(av.skip(i) =~= Seq::<T>::empty());
            assert(bv.skip(j) =~= Seq::<T>::empty());
            assert(merged_list@ + Seq::<T>::empty() =~= merged_list@);
            lemma_merge_seqs_multiset(av, bv);
            if total_le::<T>() && sorted(av) && sorted(bv) {
                lemma_merge_seqs_sorted(av, bv);
            }
        }
        merged_list
    }

    /// A read-only reference to the element at zero-based `index`, or `None`
    /// when `index` is negative or at least the length.
    pub fn get(&self, index: i32) -> (r: Option<&T>)
        requires
            self.wf(),
        ensures
            (match r {
                Some(v) => 0 <= index < self@.len() && *v == self@[index as int],
                None => index < 0 || index >= self@.len(),
            }),
    {
        self.get_ith_node(self.start, index)
    }

    /// Walks the chain from `node` (the start of the list), decrementing a
    /// counter at each step, and returns the element where the counter
    /// reaches zero; `None` when the chain is exhausted first or the counter
    /// is negative.
    fn get_ith_node(&self, node: Option<usize>, index: i32) -> (r: Option<&T>)
        requires
            self.wf(),
            node == self.start,
        ensures
            (match r {
                Some(v) => 0 <= index < self@.len() && *v == self@[index as int],
                None => index < 0 || index >= self@.len(),
            }),
    {
        if index < 0 {
            return None;
        }
        let mut cur: Option<usize> = node;
        let mut i: i32 = index;
        while i > 0
            invariant
                self.wf(),
                0 <= i <= index,
                cur == (if index - i < self@.len() {
                    Option::<usize>::Some((index - i) as usize)
                } else {
                    Option::<usize>::None
                }),
            decreases i,
        {
            match cur {
                None => {
                    return None;
                },
                Some(k) => {
                    cur = self.nodes[k].next;
                    i = i - 1;
                },
            }
        }
        match cur {
            None => None,
            Some(k) => Some(&self.nodes[k].val),
        }
    }
}

impl<T> Default for LinkedList<T> {
    /// The empty sequence, as `new` builds it.
    fn default() -> (r: Self)
        ensures
            r.wf(),
            r@ == Seq::<T>::empty(),
            r.length == 0,
    {
        Self::new()
    }
}

} // verus!
