//! A doubly-linked ordering of numeric ids.
//!
//! This is the building block of the block and instruction layouts: each
//! element knows its predecessor and successor, and the list knows its first
//! and last element. The abstract view of the list is the sequence of ids in
//! order.

use vstd::prelude::*;

verus! {

/// The links of one element in an `IdOrder`.
#[derive(Clone, Copy)]
pub struct OrderNode {
    pub prev: Option<u32>,
    pub next: Option<u32>,
}

/// A doubly-linked ordering of distinct `u32` ids.
pub struct IdOrder {
    nodes: Vec<Option<OrderNode>>,
    first: Option<u32>,
    last: Option<u32>,
    order: Ghost<Seq<u32>>,
}

/// The links stored for `id` in a node table.
pub open spec fn node_in(nodes: Seq<Option<OrderNode>>, id: u32) -> Option<OrderNode> {
    if (id as int) < nodes.len() {
        nodes[id as int]
    } else {
        None
    }
}

/// The element before position `i` in `s`.
pub open spec fn prev_in(s: Seq<u32>, i: int) -> Option<u32> {
    if i == 0 { None } else { Some(s[i - 1]) }
}

/// The element after position `i` in `s`.
pub open spec fn next_in(s: Seq<u32>, i: int) -> Option<u32> {
    if i + 1 >= s.len() { None } else { Some(s[i + 1]) }
}

/// The first element of `s`.
pub open spec fn first_of(s: Seq<u32>) -> Option<u32> {
    if s.len() == 0 { None } else { Some(s[0]) }
}

/// The last element of `s`.
pub open spec fn last_of(s: Seq<u32>) -> Option<u32> {
    if s.len() == 0 { None } else { Some(s.last()) }
}

impl View for IdOrder {
    type V = Seq<u32>;

    closed spec fn view(&self) -> Seq<u32> {
        self.order@
    }
}

impl IdOrder {

    /// The internal links agree with the abstract order.
    pub closed spec fn wf(&self) -> bool {
        let s = self.order@;
        &&& s.no_duplicates()
        &&& forall|i: int|
            0 <= i < s.len() ==> #[trigger] node_in(self.nodes@, s[i]) == Some(
                OrderNode { prev: prev_in(s, i), next: next_in(s, i) },
            )
        &&& forall|id: u32| #[trigger] node_in(self.nodes@, id) is Some ==> s.contains(id)
        &&& self.first == first_of(s)
        &&& self.last == last_of(s)
    }

    /// No id appears twice in a well-formed ordering.
    pub proof fn lemma_distinct(&self)
        requires
            self.wf(),
        ensures
            self@.no_duplicates(),
    {
    }

    /// Create an empty ordering.
    pub fn new() -> (o: IdOrder)
        ensures
            o.wf(),
            o@ == Seq::<u32>::empty(),
    {
        IdOrder { nodes: Vec::new(), first: None, last: None, order: Ghost(Seq::empty()) }
    }

    /// Check whether `id` is part of the ordering.
    pub fn contains(&self, id: u32) -> (b: bool)
        requires
            self.wf(),
        ensures
            b == self@.contains(id),
    {
        let i = id as usize;
        if i < self.nodes.len() {
            let r = self.nodes[i].is_some();
            proof {
                assert(node_in(self.nodes@, id) == self.nodes@[i as int]);
                if r {
                    assert(node_in(self.nodes@, id) is Some);
                }
                if self@.contains(id) {
                    let k = choose|k: int| 0 <= k < self@.len() && self@[k] == id;
                    assert(node_in(self.nodes@, self@[k]) is Some);
                }
            }
            r
        } else {
            proof {
                if self@.contains(id) {
                    let k = choose|k: int| 0 <= k < self@.len() && self@[k] == id;
                    assert(node_in(self.nodes@, self@[k]) is Some);
                }
            }
            false
        }
    }

    /// The first id in the ordering.
    pub fn first(&self) -> (r: Option<u32>)
        requires
            self.wf(),
        ensures
            r == first_of(self@),
    {
        self.first
    }

    /// The last id in the ordering.
    pub fn last(&self) -> (r: Option<u32>)
        requires
            self.wf(),
        ensures
            r == last_of(self@),
    {
        self.last
    }

    proof fn lemma_node_at(&self, id: u32) -> (k: int)
        requires
            self.wf(),
            self@.contains(id),
        ensures
            0 <= k < self@.len(),
            self@[k] == id,
            node_in(self.nodes@, id) == Some(OrderNode { prev: prev_in(self@, k), next: next_in(self@, k) }),
    {
        let k = choose|k: int| 0 <= k < self@.len() && self@[k] == id;
        assert(node_in(self.nodes@, self@[k]) is Some);
        k
    }

    /// The id before `id` in the ordering.
    pub fn prev(&self, id: u32) -> (r: Option<u32>)
        requires
            self.wf(),
            self@.contains(id),
        ensures
            r == prev_in(self@, self@.index_of(id)),
    {
        proof {
            let k = self.lemma_node_at(id);
            lemma_no_dup_index(self@, k, self@.index_of(id));
        }
        self.nodes[id as usize].unwrap().prev
    }

    /// The id after `id` in the ordering.
    pub fn next(&self, id: u32) -> (r: Option<u32>)
        requires
            self.wf(),
            self@.contains(id),
        ensures
            r == next_in(self@, self@.index_of(id)),
    {
        proof {
            let k = self.lemma_node_at(id);
            lemma_no_dup_index(self@, k, self@.index_of(id));
        }
        self.nodes[id as usize].unwrap().next
    }

    /// All ids in order.
    pub fn to_vec(&self) -> (v: Vec<u32>)
        requires
            self.wf(),
        ensures
            v@ == self@,
    {
        let mut v: Vec<u32> = Vec::new();
        let mut cur = self.first;
        while cur.is_some()
            invariant
                self.wf(),
                v@.len() <= self@.len(),
                v@ == self@.subrange(0, v@.len() as int),
                cur == (if v@.len() < self@.len() { Some(self@[v@.len() as int]) } else { None::<u32> }),
            decreases self@.len() - v@.len(),
        {
            let id = cur.unwrap();
            proof {
                let k = v@.len() as int;
                assert(node_in(self.nodes@, self@[k]) is Some);
            }
            let node = self.nodes[id as usize].unwrap();
            v.push(id);
            cur = node.next;
            assert(v@ =~= self@.subrange(0, v@.len() as int));
        }
        assert(v@ =~= self@);
        v
    }

    /// Make sure the node table can hold `id`.
    fn reserve(&mut self, id: u32)
        requires
            old(self).wf(),
        ensures
            final(self).wf(),
            final(self)@ == old(self)@,
            (id as int) < final(self).nodes@.len(),
            forall|x: u32| #[trigger] node_in(final(self).nodes@, x) == node_in(old(self).nodes@, x),
    {
        while self.nodes.len() <= id as usize
            invariant
                self.wf(),
                self@ == old(self)@,
                forall|x: u32| #[trigger] node_in(self.nodes@, x) == node_in(old(self).nodes@, x),
            decreases (id as int) + 1 - self.nodes@.len(),
        {
            let ghost before = *self;
            self.nodes.push(None);
            assert forall|x: u32| #[trigger] node_in(self.nodes@, x) == node_in(before.nodes@, x) by {
                if (x as int) < before.nodes@.len() {
                    assert(self.nodes@[x as int] == before.nodes@[x as int]);
                }
            }
            assert(self.wf()) by {
                let s = self.order@;
                assert forall|i: int| 0 <= i < s.len() implies #[trigger] node_in(self.nodes@, s[i])
                    == Some(OrderNode { prev: prev_in(s, i), next: next_in(s, i) }) by {
                    assert(node_in(before.nodes@, s[i]) == node_in(self.nodes@, s[i]));
                }
                assert forall|x: u32| #[trigger] node_in(self.nodes@, x) is Some implies s.contains(x) by {
                    assert(node_in(before.nodes@, x) == node_in(self.nodes@, x));
                }
            }
        }
    }

    fn set_node(&mut self, id: u32, node: Option<OrderNode>)
        requires
            (id as int) < old(self).nodes@.len(),
        ensures
            final(self).nodes@ == old(self).nodes@.update(id as int, node),
            final(self).first == old(self).first,
            final(self).last == old(self).last,
            final(self).order == old(self).order,
            forall|x: u32| x != id ==> #[trigger] node_in(final(self).nodes@, x) == node_in(old(self).nodes@, x),
            node_in(final(self).nodes@, id) == node,
    {
        self.nodes.set(id as usize, node);
    }

    /// Add `id` at the end of the ordering.
    pub fn push_back(&mut self, id: u32)
        requires
            old(self).wf(),
            !old(self)@.contains(id),
        ensures
            final(self).wf(),
            final(self)@ == old(self)@.push(id),
    {
        self.reserve(id);
        let ghost s0 = self@;
        let last = self.last;
        self.set_node(id, Some(OrderNode { prev: last, next: None }));
        if let Some(p) = last {
            proof {
                assert(s0.contains(p));
            }
            let pn = self.nodes[p as usize].unwrap();
            proof {
                assert(node_in(self.nodes@, s0[s0.len() - 1]) is Some);
            }
            self.set_node(p, Some(OrderNode { prev: pn.prev, next: Some(id) }));
        }
        if self.first.is_none() {
            self.first = Some(id);
        }
        self.last = Some(id);
        self.order = Ghost(s0.push(id));
        proof {
            let s = self@;
            assert(s.no_duplicates()) by {
                assert forall|i: int, j: int| 0 <= i < s.len() && 0 <= j < s.len() && i != j implies s[i] != s[j] by {
                    if i < s0.len() && j < s0.len() {
                        assert(s[i] == s0[i] && s[j] == s0[j]);
                    } else if i < s0.len() {
                        assert(s0.contains(s[i]));
                    } else {
                        assert(s0.contains(s[j]));
                    }
                }
            }
            assert forall|i: int| 0 <= i < s.len() implies #[trigger] node_in(self.nodes@, s[i])
                == Some(OrderNode { prev: prev_in(s, i), next: next_in(s, i) }) by {
                if i < s0.len() {
                    assert(s[i] == s0[i]);
                    assert(s0.contains(s0[i]));
                    if i + 1 < s0.len() {
                        assert(s0[i] != s0[s0.len() - 1]);
                    }
                }
            }
            assert forall|x: u32| #[trigger] node_in(self.nodes@, x) is Some implies s.contains(x) by {
                if x != id {
                    if last is Some && x == last->0 {
                        assert(s[s0.len() - 1] == x);
                    } else {
                        assert(node_in(old(self).nodes@, x) is Some);
                        let k = choose|k: int| 0 <= k < s0.len() && s0[k] == x;
                        assert(s[k] == x);
                    }
                } else {
                    assert(s[s.len() - 1] == id);
                }
            }
        }
    }

    /// Add `id` at the beginning of the ordering.
    pub fn push_front(&mut self, id: u32)
        requires
            old(self).wf(),
            !old(self)@.contains(id),
        ensures
            final(self).wf(),
            final(self)@ == seq![id] + old(self)@,
    {
        self.reserve(id);
        let ghost s0 = self@;
        let first = self.first;
        self.set_node(id, Some(OrderNode { prev: None, next: first }));
        if let Some(n) = first {
            proof {
                assert(s0.contains(n));
                assert(node_in(self.nodes@, s0[0]) is Some);
            }
            let nn = self.nodes[n as usize].unwrap();
            self.set_node(n, Some(OrderNode { prev: Some(id), next: nn.next }));
        }
        if self.last.is_none() {
            self.last = Some(id);
        }
        self.first = Some(id);
        self.order = Ghost(seq![id] + s0);
        proof {
            let s = self@;
            assert forall|i: int| 1 <= i < s.len() implies s[i] == s0[i - 1] by {}
            assert(s.no_duplicates()) by {
                assert forall|i: int, j: int| 0 <= i < s.len() && 0 <= j < s.len() && i != j implies s[i] != s[j] by {
                    if i > 0 && j > 0 {
                        assert(s[i] == s0[i - 1] && s[j] == s0[j - 1]);
                    } else if i > 0 {
                        assert(s0.contains(s[i]));
                    } else {
                        assert(s0.contains(s[j]));
                    }
                }
            }
            assert forall|i: int| 0 <= i < s.len() implies #[trigger] node_in(self.nodes@, s[i])
                == Some(OrderNode { prev: prev_in(s, i), next: next_in(s, i) }) by {
                if i > 0 {
                    assert(s[i] == s0[i - 1]);
                    assert(s0.contains(s0[i - 1]));
                    if i > 1 {
                        assert(s0[i - 1] != s0[0]);
                    }
                }
            }
            assert forall|x: u32| #[trigger] node_in(self.nodes@, x) is Some implies s.contains(x) by {
                if x != id {
                    if first is Some && x == first->0 {
                        assert(s[1] == x);
                    } else {
                        assert(node_in(old(self).nodes@, x) is Some);
                        let k = choose|k: int| 0 <= k < s0.len() && s0[k] == x;
                        assert(s[k + 1] == x);
                    }
                } else {
                    assert(s[0] == id);
                }
            }
        }
    }

    /// Insert `id` right after `after`.
    pub fn insert_after(&mut self, id: u32, after: u32)
        requires
            old(self).wf(),
            !old(self)@.contains(id),
            old(self)@.contains(after),
        ensures
            final(self).wf(),
            final(self)@ == old(self)@.insert(old(self)@.index_of(after) + 1, id),
    {
        self.reserve(id);
        let ghost s0 = self@;
        let ghost k = self.lemma_node_at(after);
        proof {
            lemma_no_dup_index(s0, k, s0.index_of(after));
        }
        let an = self.nodes[after as usize].unwrap();
        self.set_node(id, Some(OrderNode { prev: Some(after), next: an.next }));
        if let Some(n) = an.next {
            proof {
                assert(node_in(self.nodes@, s0[k + 1]) == node_in(old(self).nodes@, s0[k + 1]));
                assert(s0.contains(s0[k + 1]));
            }
            let nn = self.nodes[n as usize].unwrap();
            self.set_node(n, Some(OrderNode { prev: Some(id), next: nn.next }));
        }
        self.set_node(after, Some(OrderNode { prev: an.prev, next: Some(id) }));
        if self.last == Some(after) {
            self.last = Some(id);
        }
        self.order = Ghost(s0.insert(k + 1, id));
        proof {
            let s = self@;
            assert(s.len() == s0.len() + 1);
            assert forall|i: int| 0 <= i <= k implies s[i] == s0[i] by {}
            assert forall|i: int| k + 1 < i < s.len() implies s[i] == s0[i - 1] by {}
            assert(s[k + 1] == id);
            assert(s.no_duplicates()) by {
                assert forall|i: int, j: int| 0 <= i < s.len() && 0 <= j < s.len() && i != j implies s[i] != s[j] by {
                    if i != k + 1 && j != k + 1 {
                        let i0 = if i <= k { i } else { i - 1 };
                        let j0 = if j <= k { j } else { j - 1 };
                        assert(s[i] == s0[i0] && s[j] == s0[j0]);
                    } else if i != k + 1 {
                        let i0 = if i <= k { i } else { i - 1 };
                        assert(s0.contains(s0[i0]));
                    } else {
                        let j0 = if j <= k { j } else { j - 1 };
                        assert(s0.contains(s0[j0]));
                    }
                }
            }
            assert forall|i: int| 0 <= i < s.len() implies #[trigger] node_in(self.nodes@, s[i])
                == Some(OrderNode { prev: prev_in(s, i), next: next_in(s, i) }) by {
                if i < k {
                    assert(s0.contains(s0[i]));
                    assert(s0[i] != s0[k]);
                    if k + 1 < s0.len() {
                        assert(s0[i] != s0[k + 1]);
                    }
                    assert(node_in(old(self).nodes@, s0[i]) is Some);
                } else if k + 2 < i {
                    assert(s0.contains(s0[i - 1]));
                    assert(s0[i - 1] != s0[k]);
                    assert(s0[i - 1] != s0[k + 1]);
                    assert(node_in(old(self).nodes@, s0[i - 1]) is Some);
                } else if i == k + 2 {
                    assert(s0[k + 1] != s0[k]);
                } else if i == k {
                    if k + 1 < s0.len() {
                        assert(s0[k] != s0[k + 1]);
                    }
                }
            }
            assert forall|x: u32| #[trigger] node_in(self.nodes@, x) is Some implies s.contains(x) by {
                if x == id {
                    assert(s[k + 1] == id);
                } else {
                    assert(node_in(old(self).nodes@, x) is Some);
                    let j = choose|j: int| 0 <= j < s0.len() && s0[j] == x;
                    if j <= k {
                        assert(s[j] == x);
                    } else {
                        assert(s[j + 1] == x);
                    }
                }
            }
            if k + 1 == s0.len() {
                assert(s.last() == id);
            } else {
                assert(s.last() == s0.last());
            }
        }
    }

    /// Insert `id` right before `before`.
    pub fn insert_before(&mut self, id: u32, before: u32)
        requires
            old(self).wf(),
            !old(self)@.contains(id),
            old(self)@.contains(before),
        ensures
            final(self).wf(),
            final(self)@ == old(self)@.insert(old(self)@.index_of(before), id),
    {
        self.reserve(id);
        let ghost s0 = self@;
        let ghost k = self.lemma_node_at(before);
        proof {
            lemma_no_dup_index(s0, k, s0.index_of(before));
        }
        let bn = self.nodes[before as usize].unwrap();
        self.set_node(id, Some(OrderNode { prev: bn.prev, next: Some(before) }));
        if let Some(p) = bn.prev {
            proof {
                assert(node_in(self.nodes@, s0[k - 1]) == node_in(old(self).nodes@, s0[k - 1]));
                assert(s0.contains(s0[k - 1]));
            }
            let pn = self.nodes[p as usize].unwrap();
            self.set_node(p, Some(OrderNode { prev: pn.prev, next: Some(id) }));
        }
        self.set_node(before, Some(OrderNode { prev: Some(id), next: bn.next }));
        if self.first == Some(before) {
            self.first = Some(id);
        }
        self.order = Ghost(s0.insert(k, id));
        proof {
            let s = self@;
            assert(s.len() == s0.len() + 1);
            assert forall|i: int| 0 <= i < k implies s[i] == s0[i] by {}
            assert forall|i: int| k < i < s.len() implies s[i] == s0[i - 1] by {}
            assert(s[k] == id);
            assert(s.no_duplicates()) by {
                assert forall|i: int, j: int| 0 <= i < s.len() && 0 <= j < s.len() && i != j implies s[i] != s[j] by {
                    if i != k && j != k {
                        let i0 = if i < k { i } else { i - 1 };
                        let j0 = if j < k { j } else { j - 1 };
                        assert(s[i] == s0[i0] && s[j] == s0[j0]);
                    } else if i != k {
                        let i0 = if i < k { i } else { i - 1 };
                        assert(s0.contains(s0[i0]));
                    } else {
                        let j0 = if j < k { j } else { j - 1 };
                        assert(s0.contains(s0[j0]));
                    }
                }
            }
            assert forall|i: int| 0 <= i < s.len() implies #[trigger] node_in(self.nodes@, s[i])
                == Some(OrderNode { prev: prev_in(s, i), next: next_in(s, i) }) by {
                if i < k - 1 {
                    assert(s0.contains(s0[i]));
                    assert(s0[i] != s0[k]);
                    assert(s0[i] != s0[k - 1]);
                    assert(node_in(old(self).nodes@, s0[i]) is Some);
                } else if k + 1 < i {
                    assert(s0.contains(s0[i - 1]));
                    assert(s0[i - 1] != s0[k]);
                    if k > 0 {
                        assert(s0[i - 1] != s0[k - 1]);
                    }
                    assert(node_in(old(self).nodes@, s0[i - 1]) is Some);
                } else if i == k - 1 {
                    assert(s0[k - 1] != s0[k]);
                } else if i == k + 1 {
                    if k > 0 {
                        assert(s0[k] != s0[k - 1]);
                    }
                }
            }
            assert forall|x: u32| #[trigger] node_in(self.nodes@, x) is Some implies s.contains(x) by {
                if x == id {
                    assert(s[k] == id);
                } else {
                    assert(node_in(old(self).nodes@, x) is Some);
                    let j = choose|j: int| 0 <= j < s0.len() && s0[j] == x;
                    if j < k {
                        assert(s[j] == x);
                    } else {
                        assert(s[j + 1] == x);
                    }
                }
            }
            if k == 0 {
                assert(s[0] == id);
            } else {
                assert(s[0] == s0[0]);
            }
            assert(s.last() == s0.last());
        }
    }

    /// Remove `id` from the ordering.
    pub fn remove(&mut self, id: u32)
        requires
            old(self).wf(),
            old(self)@.contains(id),
        ensures
            final(self).wf(),
            final(self)@ == old(self)@.remove(old(self)@.index_of(id)),
    {
        let ghost s0 = self@;
        let ghost k = self.lemma_node_at(id);
        proof {
            lemma_no_dup_index(s0, k, s0.index_of(id));
        }
        let node = self.nodes[id as usize].unwrap();
        self.set_node(id, None);
        if let Some(n) = node.next {
            proof {
                assert(s0.contains(s0[k + 1]));
                assert(node_in(self.nodes@, s0[k + 1]) == node_in(old(self).nodes@, s0[k + 1]));
            }
            let nn = self.nodes[n as usize].unwrap();
            self.set_node(n, Some(OrderNode { prev: node.prev, next: nn.next }));
        }
        if let Some(p) = node.prev {
            proof {
                assert(s0.contains(s0[k - 1]));
                assert(s0[k - 1] != s0[k]);
                if k + 1 < s0.len() {
                    assert(s0[k - 1] != s0[k + 1]);
                }
                assert(node_in(self.nodes@, s0[k - 1]) == node_in(old(self).nodes@, s0[k - 1]));
            }
            let pn = self.nodes[p as usize].unwrap();
            self.set_node(p, Some(OrderNode { prev: pn.prev, next: node.next }));
        }
        if self.first == Some(id) {
            self.first = node.next;
        }
        if self.last == Some(id) {
            self.last = node.prev;
        }
        self.order = Ghost(s0.remove(k));
        proof {
            let s = self@;
            assert(s.len() == s0.len() - 1);
            assert forall|i: int| 0 <= i < k implies s[i] == s0[i] by {}
            assert forall|i: int| k <= i < s.len() implies s[i] == s0[i + 1] by {}
            assert(s.no_duplicates()) by {
                assert forall|i: int, j: int| 0 <= i < s.len() && 0 <= j < s.len() && i != j implies s[i] != s[j] by {
                    let i0 = if i < k { i } else { i + 1 };
                    let j0 = if j < k { j } else { j + 1 };
                    assert(s[i] == s0[i0] && s[j] == s0[j0]);
                }
            }
            assert forall|i: int| 0 <= i < s.len() implies #[trigger] node_in(self.nodes@, s[i])
                == Some(OrderNode { prev: prev_in(s, i), next: next_in(s, i) }) by {
                let i0 = if i < k { i } else { i + 1 };
                assert(s[i] == s0[i0]);
                assert(s0.contains(s0[i0]));
                assert(s0[i0] != s0[k]);
                if i0 != k - 1 && i0 != k + 1 {
                    if k > 0 {
                        assert(s0[i0] != s0[k - 1]);
                    }
                    if k + 1 < s0.len() {
                        assert(s0[i0] != s0[k + 1]);
                    }
                    assert(node_in(old(self).nodes@, s0[i0]) is Some);
                } else if i0 == k - 1 {
                    if k + 1 < s0.len() {
                        assert(s0[k - 1] != s0[k + 1]);
                    }
                    assert(node_in(old(self).nodes@, s0[i0]) is Some);
                } else {
                    assert(node_in(old(self).nodes@, s0[i0]) is Some);
                }
            }
            assert forall|x: u32| #[trigger] node_in(self.nodes@, x) is Some implies s.contains(x) by {
                assert(x != id);
                assert(node_in(old(self).nodes@, x) is Some);
                let j = choose|j: int| 0 <= j < s0.len() && s0[j] == x;
                if j < k {
                    assert(s[j] == x);
                } else {
                    assert(j != k);
                    assert(s[j - 1] == x);
                }
            }
            if s.len() > 0 {
                if k == 0 {
                    assert(s[0] == s0[1]);
                } else {
                    assert(s[0] == s0[0]);
                }
                if k == s0.len() - 1 {
                    assert(s.last() == s0[k - 1]);
                } else {
                    assert(s.last() == s0.last());
                }
            }
        }
    }


    /// Exchange the positions of `a` and `b`.
    #[verifier::spinoff_prover]
    #[verifier::rlimit(40)]
    pub fn swap(&mut self, a: u32, b: u32)
        requires
            old(self).wf(),
            old(self)@.contains(a),
            old(self)@.contains(b),
        ensures
            final(self).wf(),
            final(self)@ == old(self)@.update(old(self)@.index_of(a), b).update(old(self)@.index_of(b), a),
    {
        let ghost s0 = self@;
        if a == b {
            assert(s0.update(s0.index_of(a), b).update(s0.index_of(b), a) =~= s0);
            return;
        }
        let ghost ka = self.lemma_node_at(a);
        let ghost kb = self.lemma_node_at(b);
        proof {
            lemma_no_dup_index(s0, ka, s0.index_of(a));
            lemma_no_dup_index(s0, kb, s0.index_of(b));
        }
        let ghost s = s0.update(ka, b).update(kb, a);
        let ghost n0 = self.nodes@;
        proof {
            assert forall|j: int| 0 <= j < s0.len() implies (#[trigger] s0[j] as int) < n0.len() by {
                assert(node_in(n0, s0[j]) is Some);
            }
        }
        let an = self.nodes[a as usize].unwrap();
        let bn = self.nodes[b as usize].unwrap();
        let mut a_next = an.next;
        let mut a_prev = an.prev;
        let mut b_next = bn.next;
        let mut b_prev = bn.prev;
        if a_next == Some(b) {
            a_next = Some(a);
        }
        if a_prev == Some(b) {
            a_prev = Some(a);
        }
        if b_next == Some(a) {
            b_next = Some(b);
        }
        if b_prev == Some(a) {
            b_prev = Some(b);
        }
        proof {
            // The adjusted links are exactly the neighbours in the new order.
            assert(a_prev == prev_in(s, ka));
            assert(a_next == next_in(s, ka));
            assert(b_prev == prev_in(s, kb));
            assert(b_next == next_in(s, kb));
        }
        self.set_node(a, Some(OrderNode { prev: b_prev, next: b_next }));
        assert(forall|x: u32| node_in(n0, x) is Some ==> #[trigger] node_in(self.nodes@, x) is Some);
        self.set_node(b, Some(OrderNode { prev: a_prev, next: a_next }));
        assert(forall|x: u32| node_in(n0, x) is Some ==> #[trigger] node_in(self.nodes@, x) is Some);
        if let Some(n) = a_next {
            proof { lemma_in_nodes(s0, n0, s, ka, kb, n); assert(node_in(n0, n) is Some); }
            let nn = self.nodes[n as usize].unwrap();
            self.set_node(n, Some(OrderNode { prev: Some(b), next: nn.next }));
        assert(forall|x: u32| node_in(n0, x) is Some ==> #[trigger] node_in(self.nodes@, x) is Some);
        }
        if let Some(p) = a_prev {
            proof { lemma_in_nodes(s0, n0, s, ka, kb, p); assert(node_in(n0, p) is Some); }
            let pn = self.nodes[p as usize].unwrap();
            self.set_node(p, Some(OrderNode { prev: pn.prev, next: Some(b) }));
        assert(forall|x: u32| node_in(n0, x) is Some ==> #[trigger] node_in(self.nodes@, x) is Some);
        }
        if let Some(n) = b_next {
            proof { lemma_in_nodes(s0, n0, s, ka, kb, n); assert(node_in(n0, n) is Some); }
            let nn = self.nodes[n as usize].unwrap();
            self.set_node(n, Some(OrderNode { prev: Some(a), next: nn.next }));
        assert(forall|x: u32| node_in(n0, x) is Some ==> #[trigger] node_in(self.nodes@, x) is Some);
        }
        if let Some(p) = b_prev {
            proof { lemma_in_nodes(s0, n0, s, ka, kb, p); assert(node_in(n0, p) is Some); }
            let pn = self.nodes[p as usize].unwrap();
            self.set_node(p, Some(OrderNode { prev: pn.prev, next: Some(a) }));
        assert(forall|x: u32| node_in(n0, x) is Some ==> #[trigger] node_in(self.nodes@, x) is Some);
        }
        if self.first == Some(a) {
            self.first = Some(b);
        } else if self.first == Some(b) {
            self.first = Some(a);
        }
        if self.last == Some(a) {
            self.last = Some(b);
        } else if self.last == Some(b) {
            self.last = Some(a);
        }
        self.order = Ghost(s);
        proof {
            assert(s.len() == s0.len());
            assert forall|i: int| 0 <= i < s.len() implies #[trigger] node_in(self.nodes@, s[i])
                == Some(OrderNode { prev: prev_in(s, i), next: next_in(s, i) }) by {
                if i != ka && i != kb {
                    assert(s[i] == s0[i]);
                    assert(node_in(n0, s0[i]) == Some(OrderNode { prev: prev_in(s0, i), next: next_in(s0, i) }));
                    assert(s0[i] != a && s0[i] != b);
                }
            }
            assert(s.no_duplicates()) by {
                assert forall|i: int, j: int| 0 <= i < s.len() && 0 <= j < s.len() && i != j implies s[i] != s[j] by {
                    let i0 = if i == ka { kb } else if i == kb { ka } else { i };
                    let j0 = if j == ka { kb } else if j == kb { ka } else { j };
                    assert(s[i] == s0[i0] && s[j] == s0[j0]);
                }
            }
            assert forall|x: u32| #[trigger] node_in(self.nodes@, x) is Some implies s.contains(x) by {
                if node_in(n0, x) is Some {
                    let j = choose|j: int| 0 <= j < s0.len() && s0[j] == x;
                    let j1 = if j == ka { kb } else if j == kb { ka } else { j };
                    assert(s[j1] == x);
                } else {
                    assert(x != a && x != b);
                }
            }
            if s.len() > 0 {
                if ka == 0 { assert(s[0] == b); } else if kb == 0 { assert(s[0] == a); } else { assert(s[0] == s0[0]); }
                let l = s.len() - 1;
                if ka == l { assert(s.last() == b); } else if kb == l { assert(s.last() == a); } else { assert(s.last() == s0.last()); }
            }
        }
    }
}

/// Every neighbour named in the swapped order has a slot in the node table.
proof fn lemma_in_nodes(s0: Seq<u32>, n0: Seq<Option<OrderNode>>, s: Seq<u32>, ka: int, kb: int, x: u32)
    requires
        0 <= ka < s0.len(),
        0 <= kb < s0.len(),
        s == s0.update(ka, s0[kb]).update(kb, s0[ka]),
        forall|j: int| 0 <= j < s0.len() ==> (#[trigger] s0[j] as int) < n0.len(),
        next_in(s, ka) == Some(x) || prev_in(s, ka) == Some(x) || next_in(s, kb) == Some(x) || prev_in(s, kb) == Some(x),
    ensures
        (x as int) < n0.len(),
{
    let j = if next_in(s, ka) == Some(x) { ka + 1 } else if prev_in(s, ka) == Some(x) { ka - 1 } else if next_in(s, kb) == Some(x) { kb + 1 } else { kb - 1 };
    assert(s[j] == x);
    let j0 = if j == ka { kb } else if j == kb { ka } else { j };
    assert(s0[j0] == x);
}

/// In a sequence without duplicates, an element sits at only one position.
pub proof fn lemma_no_dup_index(s: Seq<u32>, i: int, j: int)
    requires
        s.no_duplicates(),
        0 <= i < s.len(),
        0 <= j < s.len(),
        s[i] == s[j],
    ensures
        i == j,
{
}

} // verus!
