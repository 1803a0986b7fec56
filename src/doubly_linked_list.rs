//! A doubly-linked list whose nodes live in one growable arena.
//!
//! Links are arena indices: `next` is the forward link, `prev` the back-reference.
//! Popping a node moves the last arena slot into the freed one and relinks its
//! neighbours, so the arena always holds exactly the list's nodes.
use vstd::prelude::*;
use vstd::std_specs::cmp::PartialEqSpec;

verus! {

struct Node<T> {
    prev: Option<usize>,
    next: Option<usize>,
    data: T,
}

impl<T> Node<T> {
    fn new(data: T) -> (r: Self)
        ensures
            r.prev is None,
            r.next is None,
            r.data == data,
    {
        Node { prev: None, next: None, data }
    }
}

/// The links of `nodes` along the arena slots `s`, in list order, are consistent:
/// every slot is in range and appears once, the anchors are the two ends, and each
/// node's links name its neighbours in `s`.
spec fn chain_ok<T>(nodes: Seq<Node<T>>, head: Option<usize>, tail: Option<usize>, s: Seq<usize>) -> bool {
    &&& forall|i: int| 0 <= i < s.len() ==> #[trigger] s[i] < nodes.len()
    &&& forall|i: int, j: int| 0 <= i < s.len() && 0 <= j < s.len() && i != j ==> s[i] != s[j]
    &&& head == (if s.len() == 0 { None } else { Some(s[0]) })
    &&& tail == (if s.len() == 0 { None } else { Some(s.last()) })
    &&& forall|i: int| 0 <= i < s.len() ==> (#[trigger] nodes[s[i] as int]).prev == (if i == 0 { None } else { Some(s[i - 1]) })
    &&& forall|i: int| 0 <= i < s.len() ==> (#[trigger] nodes[s[i] as int]).next == (if i + 1 == s.len() { None } else { Some(s[i + 1]) })
}

/// Every arena slot below `n` is in `s`.
spec fn covers(s: Seq<usize>, n: nat) -> bool {
    forall|a: usize| a < n ==> #[trigger] s.contains(a)
}

/// A doubly-linked list with owned nodes.
///
/// Pushing and popping at either end take constant time.
pub struct DoublyLinkedList<T> {
    nodes: Vec<Node<T>>,
    head: Option<usize>,
    tail: Option<usize>,
    len: usize,
    spine: Ghost<Seq<usize>>,
}

impl<T> View for DoublyLinkedList<T> {
    type V = Seq<T>;

    /// The payloads, front to back.
    closed spec fn view(&self) -> Seq<T> {
        Seq::new(self.spine@.len(), |i: int| self.nodes@[self.spine@[i] as int].data)
    }
}

impl<T> DoublyLinkedList<T> {
    /// The list's internal invariant.
    pub closed spec fn wf(&self) -> bool {
        &&& chain_ok(self.nodes@, self.head, self.tail, self.spine@)
        &&& self.nodes@.len() == self.spine@.len()
        &&& self.len == self.spine@.len()
        &&& covers(self.spine@, self.spine@.len())
    }

    /// Creates an empty list.
    pub fn new() -> (r: Self)
        ensures
            r.wf(),
            r@ == Seq::<T>::empty(),
    {
        let r = DoublyLinkedList { nodes: Vec::new(), head: None, tail: None, len: 0, spine: Ghost(Seq::empty()) };
        assert(r@ =~= Seq::<T>::empty());
        r
    }

    /// Returns the number of elements.
    pub fn len(&self) -> (r: usize)
        requires
            self.wf(),
        ensures
            r == self@.len(),
    {
        self.len
    }

    /// Returns true if the list holds no element.
    pub fn is_empty(&self) -> (r: bool)
        requires
            self.wf(),
        ensures
            r == (self@.len() == 0),
    {
        self.len == 0
    }

    /// Adds an element at the back.
    pub fn push_back(&mut self, data: T)
        requires
            old(self).wf(),
            old(self)@.len() < usize::MAX,
        ensures
            final(self).wf(),
            final(self)@ == old(self)@.push(data),
    {
        let a = self.nodes.len();
        let ghost s = self.spine@;
        let mut node = Node::new(data);
        node.prev = self.tail;
        self.nodes.push(node);
        match self.tail {
            None => {
                self.head = Some(a);
            },
            Some(t) => {
                self.nodes[t].next = Some(a);
            },
        }
        self.tail = Some(a);
        self.len = self.len + 1;
        self.spine = Ghost(s.push(a));
        proof {
            let s2 = self.spine@;
            assert forall|i: int| 0 <= i < s2.len() implies (#[trigger] self.nodes@[s2[i] as int]).prev == (if i == 0 { None } else { Some(s2[i - 1]) }) by {
                if i < s.len() {
                    assert(s2[i] == s[i]);
                }
            }
            assert forall|i: int| 0 <= i < s2.len() implies (#[trigger] self.nodes@[s2[i] as int]).next == (if i + 1 == s2.len() { None } else { Some(s2[i + 1]) }) by {
                if i < s.len() {
                    assert(s2[i] == s[i]);
                }
            }
            assert forall|b: usize| b < s2.len() implies #[trigger] s2.contains(b) by {
                if b < s.len() {
                    assert(s.contains(b));
                    let k = choose|k: int| 0 <= k < s.len() && s[k] == b;
                    assert(s2[k] == b);
                } else {
                    assert(s2[s.len() as int] == b);
                }
            }
            assert(self@ =~= old(self)@.push(data));
        }
    }

    /// Adds an element at the front.
    pub fn push_front(&mut self, data: T)
        requires
            old(self).wf(),
            old(self)@.len() < usize::MAX,
        ensures
            final(self).wf(),
            final(self)@ == seq![data] + old(self)@,
    {
        let a = self.nodes.len();
        let ghost s = self.spine@;
        let mut node = Node::new(data);
        node.next = self.head;
        self.nodes.push(node);
        match self.head {
            None => {
                self.tail = Some(a);
            },
            Some(h) => {
                self.nodes[h].prev = Some(a);
            },
        }
        self.head = Some(a);
        self.len = self.len + 1;
        self.spine = Ghost(seq![a] + s);
        proof {
            let s2 = self.spine@;
            assert forall|i: int| 0 < i < s2.len() implies s2[i] == s[i - 1] by {}
            assert forall|i: int| 0 <= i < s2.len() implies (#[trigger] self.nodes@[s2[i] as int]).prev == (if i == 0 { None } else { Some(s2[i - 1]) }) by {
                if i > 0 {
                    assert(s2[i] == s[i - 1]);
                }
            }
            assert forall|i: int| 0 <= i < s2.len() implies (#[trigger] self.nodes@[s2[i] as int]).next == (if i + 1 == s2.len() { None } else { Some(s2[i + 1]) }) by {
                if i > 0 {
                    assert(s2[i] == s[i - 1]);
                }
            }
            assert forall|b: usize| b < s2.len() implies #[trigger] s2.contains(b) by {
                if b < s.len() {
                    assert(s.contains(b));
                    let k = choose|k: int| 0 <= k < s.len() && s[k] == b;
                    assert(s2[k + 1] == b);
                } else {
                    assert(s2[0] == b);
                }
            }
            assert(self@ =~= seq![data] + old(self)@);
        }
    }
}


/// A link renumbered by `n` slots.
spec fn shift(link: Option<usize>, n: usize) -> Option<usize> {
    match link {
        Some(a) => Some((a + n) as usize),
        None => None,
    }
}

/// The arena slot `last` renamed to `a`, every other slot kept.
spec fn rename(v: usize, last: usize, a: usize) -> usize {
    if v == last { a } else { v }
}

impl<T> DoublyLinkedList<T> {
    /// Takes the node in arena slot `a`, already unlinked from the chain `spine`,
    /// out of the arena. The node in the last slot moves into `a` and its
    /// neighbours (or the anchors) are pointed at its new slot.
    #[verifier::spinoff_prover]
    #[verifier::rlimit(40)]
    fn take_slot(&mut self, a: usize) -> (data: T)
        requires
            a < old(self).nodes@.len(),
            old(self).spine@.len() + 1 == old(self).nodes@.len(),
            chain_ok(old(self).nodes@, old(self).head, old(self).tail, old(self).spine@),
            !old(self).spine@.contains(a),
            forall|b: usize| b < old(self).nodes@.len() && b != a ==> #[trigger] old(self).spine@.contains(b),
        ensures
            data == old(self).nodes@[a as int].data,
            final(self).nodes@.len() == old(self).spine@.len(),
            final(self).spine@ == old(self).spine@.map_values(|v: usize| rename(v, (old(self).nodes@.len() - 1) as usize, a)),
            chain_ok(final(self).nodes@, final(self).head, final(self).tail, final(self).spine@),
            covers(final(self).spine@, final(self).spine@.len()),
            final(self)@ == old(self)@,
            final(self).len == old(self).len,
    {
        let ghost s = self.spine@;
        let ghost old_nodes = self.nodes@;
        let last = self.nodes.len() - 1;
        let removed = self.nodes.swap_remove(a);
        if a < last {
            let p = self.nodes[a].prev;
            let x = self.nodes[a].next;
            proof {
                assert(s.contains(last));
            }
            match p {
                Some(p) => {
                    self.nodes[p].next = Some(a);
                },
                None => {
                    self.head = Some(a);
                },
            }
            match x {
                Some(x) => {
                    self.nodes[x].prev = Some(a);
                },
                None => {
                    self.tail = Some(a);
                },
            }
        }
        self.spine = Ghost(s.map_values(|v: usize| rename(v, last, a)));
        proof {
            let s2 = self.spine@;
            let n2 = self.nodes@;
            assert forall|i: int| 0 <= i < s.len() implies s[i] != a && s[i] < old_nodes.len() by {}
            if a < last {
                let q = choose|q: int| 0 <= q < s.len() && s[q] == last;
                assert forall|i: int| 0 <= i < s2.len() && i != q implies s2[i] == s[i] && s[i] < last by {}
                assert(s2[q] == a);
                assert forall|i: int| 0 <= i < s2.len() implies (#[trigger] n2[s2[i] as int]).prev == (if i == 0 { None } else { Some(s2[i - 1]) }) by {
                    if i != q {
                        assert(old_nodes[s[i] as int] == old_nodes[s[i] as int]);
                        if i > 0 && i - 1 == q {
                        } else if i > 0 {
                            assert(s2[i - 1] == s[i - 1]);
                        }
                    } else {
                        if i > 0 {
                            assert(s2[i - 1] == s[i - 1]);
                        }
                    }
                }
                assert forall|i: int| 0 <= i < s2.len() implies (#[trigger] n2[s2[i] as int]).next == (if i + 1 == s2.len() { None } else { Some(s2[i + 1]) }) by {
                    if i != q {
                        if i + 1 < s2.len() && i + 1 != q {
                            assert(s2[i + 1] == s[i + 1]);
                        }
                    } else {
                        if i + 1 < s2.len() {
                            assert(s2[i + 1] == s[i + 1]);
                        }
                    }
                }
                assert forall|b: usize| b < s2.len() implies #[trigger] s2.contains(b) by {
                    if b == a {
                        assert(s2[q] == b);
                    } else {
                        assert(s.contains(b));
                        let k = choose|k: int| 0 <= k < s.len() && s[k] == b;
                        assert(s2[k] == b);
                    }
                }
                assert(self@ =~= old(self)@);
            } else {
                assert forall|i: int| 0 <= i < s2.len() implies s2[i] == s[i] by {}
                assert(s2 =~= s);
                assert forall|b: usize| b < s2.len() implies #[trigger] s2.contains(b) by {
                    assert(s.contains(b));
                }
                assert(self@ =~= old(self)@);
            }
        }
        removed.data
    }
}


impl<T> DoublyLinkedList<T> {
    /// Removes the first element and returns it, or `None` if the list is empty.
    pub fn pop_front(&mut self) -> (r: Option<T>)
        requires
            old(self).wf(),
        ensures
            final(self).wf(),
            old(self)@.len() == 0 ==> r is None && final(self)@ == old(self)@,
            old(self)@.len() > 0 ==> r == Some(old(self)@[0]) && final(self)@ == old(self)@.drop_first(),
    {
        match self.head {
            None => None,
            Some(h) => {
                let ghost s = self.spine@;
                let ghost v0 = self@;
                let nx = self.nodes[h].next;
                match nx {
                    Some(x) => {
                        self.nodes[x].prev = None;
                        self.head = Some(x);
                    },
                    None => {
                        self.head = None;
                        self.tail = None;
                    },
                }
                self.len = self.len - 1;
                self.spine = Ghost(s.drop_first());
                proof {
                    let s2 = self.spine@;
                    assert forall|i: int| 0 <= i < s2.len() implies s2[i] == s[i + 1] && s[i + 1] != h by {}
                    assert(!s2.contains(h));
                    assert forall|b: usize| b < self.nodes@.len() && b != h implies #[trigger] s2.contains(b) by {
                        assert(s.contains(b));
                        let k = choose|k: int| 0 <= k < s.len() && s[k] == b;
                        assert(s2[k - 1] == b);
                    }
                    assert forall|i: int| 0 <= i < s2.len() implies (#[trigger] self.nodes@[s2[i] as int]).prev == (if i == 0 { None } else { Some(s2[i - 1]) }) by {
                        assert(s2[i] == s[i + 1]);
                    }
                    assert forall|i: int| 0 <= i < s2.len() implies (#[trigger] self.nodes@[s2[i] as int]).next == (if i + 1 == s2.len() { None } else { Some(s2[i + 1]) }) by {
                        assert(s2[i] == s[i + 1]);
                    }
                    assert(self@ =~= v0.drop_first());
                }
                let data = self.take_slot(h);
                Some(data)
            },
        }
    }

    /// Removes the last element and returns it, or `None` if the list is empty.
    pub fn pop_back(&mut self) -> (r: Option<T>)
        requires
            old(self).wf(),
        ensures
            final(self).wf(),
            old(self)@.len() == 0 ==> r is None && final(self)@ == old(self)@,
            old(self)@.len() > 0 ==> r == Some(old(self)@.last()) && final(self)@ == old(self)@.drop_last(),
    {
        match self.tail {
            None => None,
            Some(t) => {
                let ghost s = self.spine@;
                let ghost v0 = self@;
                let pv = self.nodes[t].prev;
                match pv {
                    Some(p) => {
                        self.nodes[p].next = None;
                        self.tail = Some(p);
                    },
                    None => {
                        self.head = None;
                        self.tail = None;
                    },
                }
                self.len = self.len - 1;
                self.spine = Ghost(s.drop_last());
                proof {
                    let s2 = self.spine@;
                    assert forall|i: int| 0 <= i < s2.len() implies s2[i] == s[i] && s[i] != t by {}
                    assert(!s2.contains(t));
                    assert forall|b: usize| b < self.nodes@.len() && b != t implies #[trigger] s2.contains(b) by {
                        assert(s.contains(b));
                        let k = choose|k: int| 0 <= k < s.len() && s[k] == b;
                        assert(s2[k] == b);
                    }
                    assert forall|i: int| 0 <= i < s2.len() implies (#[trigger] self.nodes@[s2[i] as int]).prev == (if i == 0 { None } else { Some(s2[i - 1]) }) by {
                        assert(s2[i] == s[i]);
                    }
                    assert forall|i: int| 0 <= i < s2.len() implies (#[trigger] self.nodes@[s2[i] as int]).next == (if i + 1 == s2.len() { None } else { Some(s2[i + 1]) }) by {
                        assert(s2[i] == s[i]);
                    }
                    assert(self@ =~= v0.drop_last());
                }
                let data = self.take_slot(t);
                Some(data)
            },
        }
    }
}


impl<T> DoublyLinkedList<T> {
    /// Returns the front element, or `None` if the list is empty.
    pub fn front(&self) -> (r: Option<&T>)
        requires
            self.wf(),
        ensures
            r == (if self@.len() == 0 { None } else { Some(&self@[0]) }),
    {
        match self.head {
            None => None,
            Some(h) => Some(&self.nodes[h].data),
        }
    }

    /// Returns the back element, or `None` if the list is empty.
    pub fn back(&self) -> (r: Option<&T>)
        requires
            self.wf(),
        ensures
            r == (if self@.len() == 0 { None } else { Some(&self@.last()) }),
    {
        match self.tail {
            None => None,
            Some(t) => Some(&self.nodes[t].data),
        }
    }

    /// Returns exclusive access to the front element, or `None` if the list is empty.
    pub fn front_mut(&mut self) -> (r: Option<&mut T>)
        requires
            old(self).wf(),
        ensures
            old(self)@.len() == 0 ==> r is None && *final(self) == *old(self),
            old(self)@.len() > 0 ==> r is Some && *r->0 == old(self)@[0] && final(self).wf()
                && final(self)@ == old(self)@.update(0, *final(r->0)),
    {
        match self.head {
            None => None,
            Some(h) => Some(&mut self.nodes[h].data),
        }
    }

    /// Returns exclusive access to the back element, or `None` if the list is empty.
    pub fn back_mut(&mut self) -> (r: Option<&mut T>)
        requires
            old(self).wf(),
        ensures
            old(self)@.len() == 0 ==> r is None && *final(self) == *old(self),
            old(self)@.len() > 0 ==> r is Some && *r->0 == old(self)@.last() && final(self).wf()
                && final(self)@ == old(self)@.update(old(self)@.len() - 1, *final(r->0)),
    {
        match self.tail {
            None => None,
            Some(t) => Some(&mut self.nodes[t].data),
        }
    }

    /// Removes every element. The arena releases the nodes one after another,
    /// without recursion.
    pub fn clear(&mut self)
        requires
            old(self).wf(),
        ensures
            final(self).wf(),
            final(self)@ == Seq::<T>::empty(),
    {
        self.nodes.clear();
        self.head = None;
        self.tail = None;
        self.len = 0;
        self.spine = Ghost(Seq::empty());
        assert(self@ =~= Seq::<T>::empty());
    }

    /// Returns true if some element equals `data`; the scan follows the forward
    /// links from the front and stops at the first match.
    pub fn contains(&self, data: &T) -> (r: bool)
        where
            T: PartialEq<T>,
        requires
            self.wf(),
        ensures
            T::obeys_eq_spec() ==> r == (exists|i: int| 0 <= i < self@.len() && data.eq_spec(&self@[i])),
    {
        let mut it = self.head;
        let ghost mut i: int = 0;
        let ghost s = self.spine@;
        while it.is_some()
            invariant
                self.wf(),
                s == self.spine@,
                0 <= i <= s.len(),
                it == (if i < s.len() { Some(s[i]) } else { None::<usize> }),
                T::obeys_eq_spec() ==> forall|j: int| 0 <= j < i ==> !data.eq_spec(&self@[j]),
            decreases s.len() - i,
        {
            let a = it.unwrap();
            let node = &self.nodes[a];
            if *data == node.data {
                assert(self@[i] == node.data);
                return true;
            }
            it = node.next;
            proof {
                i = i + 1;
            }
        }
        false
    }
}


impl<T> DoublyLinkedList<T> {
    /// Moves every element of `other`, in order, to the back of this list and
    /// leaves `other` empty. The nodes of `other` join this list's arena with
    /// their links renumbered; then this list's tail and `other`'s head are
    /// linked to each other.
    #[verifier::spinoff_prover]
    #[verifier::rlimit(50)]
    pub fn append(&mut self, other: &mut DoublyLinkedList<T>)
        requires
            old(self).wf(),
            old(other).wf(),
            old(self)@.len() + old(other)@.len() <= usize::MAX,
        ensures
            final(self).wf(),
            final(other).wf(),
            final(self)@ == old(self)@ + old(other)@,
            final(other)@ == Seq::<T>::empty(),
    {
        let n = self.nodes.len();
        let m = other.nodes.len();
        let ghost s1 = self.spine@;
        let ghost s2 = other.spine@;
        let ghost nodes1 = self.nodes@;
        let ghost nodes2 = other.nodes@;
        proof {
            assert forall|i: int| 0 <= i < m implies ((#[trigger] nodes2[i]).prev is Some ==> nodes2[i].prev->0 < m)
                && (nodes2[i].next is Some ==> nodes2[i].next->0 < m) by {
                assert(s2.contains(i as usize));
                let w = choose|w: int| 0 <= w < s2.len() && s2[w] == i as usize;
                assert(nodes2[s2[w] as int] == nodes2[i]);
            }
        }
        let other_head = other.head;
        let other_tail = other.tail;
        let mut k: usize = 0;
        while k < m
            invariant
                chain_ok(nodes2, other_head, other_tail, s2),
                s2.len() == m,
                other.len == m,
                other.nodes@.len() == m,
                nodes2.len() == m,
                n + m <= usize::MAX,
                k <= m,
                forall|i: int| 0 <= i < k ==> (#[trigger] other.nodes@[i]).prev == shift(nodes2[i].prev, n)
                    && other.nodes@[i].next == shift(nodes2[i].next, n)
                    && other.nodes@[i].data == nodes2[i].data,
                forall|i: int| k <= i < m ==> #[trigger] other.nodes@[i] == nodes2[i],
                forall|i: int| 0 <= i < m && (#[trigger] nodes2[i]).prev is Some ==> nodes2[i].prev->0 < m,
                forall|i: int| 0 <= i < m && (#[trigger] nodes2[i]).next is Some ==> nodes2[i].next->0 < m,
            decreases m - k,
        {
            let p = other.nodes[k].prev;
            let x = other.nodes[k].next;
            other.nodes[k].prev = match p {
                Some(a) => Some(a + n),
                None => None,
            };
            other.nodes[k].next = match x {
                Some(a) => Some(a + n),
                None => None,
            };
            k = k + 1;
        }
        let ghost shifted = other.nodes@;
        self.nodes.append(&mut other.nodes);
        match other_head {
            None => {},
            Some(h) => {
                match self.tail {
                    Some(t) => {
                        self.nodes[t].next = Some(h + n);
                        self.nodes[h + n].prev = Some(t);
                    },
                    None => {
                        self.head = Some(h + n);
                    },
                }
                match other_tail {
                    Some(ot) => {
                        self.tail = Some(ot + n);
                    },
                    None => {},
                }
            },
        }
        self.len = self.len + other.len;
        other.head = None;
        other.tail = None;
        other.len = 0;
        other.spine = Ghost(Seq::empty());
        self.spine = Ghost(s1 + s2.map_values(|a: usize| (a + n) as usize));
        proof {
            let s = self.spine@;
            let ns = self.nodes@;
            let l1 = s1.len() as int;
            assert forall|j: int| 0 <= j < s2.len() implies s[l1 + j] == s2[j] + n && s2[j] < m by {}
            assert forall|i: int| 0 <= i < l1 implies s[i] == s1[i] && s1[i] < n by {}
            assert forall|i: int| 0 <= i < s.len() implies #[trigger] s[i] < ns.len() by {
                if i >= l1 {
                    assert(s[i] == s2[i - l1] + n);
                }
            }
            assert forall|i: int, j: int| 0 <= i < s.len() && 0 <= j < s.len() && i != j implies s[i] != s[j] by {
                if i >= l1 {
                    assert(s[i] == s2[i - l1] + n);
                }
                if j >= l1 {
                    assert(s[j] == s2[j - l1] + n);
                }
            }
            assert forall|i: int| 0 <= i < s.len() implies (#[trigger] ns[s[i] as int]).prev == (if i == 0 { None } else { Some(s[i - 1]) })
                && ns[s[i] as int].next == (if i + 1 == s.len() { None } else { Some(s[i + 1]) }) by {
                if i < l1 {
                    assert(ns[s1[i] as int].prev == nodes1[s1[i] as int].prev);
                    if i + 1 < l1 {
                        assert(s[i + 1] == s1[i + 1]);
                    } else if i + 1 < s.len() {
                        assert(s[i + 1] == s2[0] + n);
                    }
                    if i > 0 {
                        assert(s[i - 1] == s1[i - 1]);
                    }
                } else {
                    let j = i - l1;
                    assert(s[i] == s2[j] + n);
                    assert(ns[s2[j] + n] == shifted[s2[j] as int] || (j == 0 && l1 > 0));
                    if j > 0 {
                        assert(s[i - 1] == s2[j - 1] + n);
                    } else if l1 > 0 {
                        assert(s[i - 1] == s1[l1 - 1]);
                    }
                    if j + 1 < s2.len() {
                        assert(s[i + 1] == s2[j + 1] + n);
                    }
                }
            }
            assert forall|b: usize| b < s.len() implies #[trigger] s.contains(b) by {
                if b < n {
                    assert(s1.contains(b));
                    let w = choose|w: int| 0 <= w < s1.len() && s1[w] == b;
                    assert(s[w] == b);
                } else {
                    let b2 = (b - n) as usize;
                    assert(s2.contains(b2));
                    let w = choose|w: int| 0 <= w < s2.len() && s2[w] == b2;
                    assert(s[l1 + w] == b);
                }
            }
            assert(self@ =~= old(self)@ + old(other)@);
            assert(other@ =~= Seq::<T>::empty());
        }
    }

    /// Splits the list at `at`: this list keeps the elements before `at` and the
    /// returned list holds the rest, in order.
    pub fn split_off(&mut self, at: usize) -> (r: DoublyLinkedList<T>)
        requires
            old(self).wf(),
            at <= old(self)@.len(),
        ensures
            final(self).wf(),
            r.wf(),
            final(self)@ == old(self)@.subrange(0, at as int),
            r@ == old(self)@.subrange(at as int, old(self)@.len() as int),
    {
        let ghost orig = self@;
        let mut rest = DoublyLinkedList::new();
        assert(orig.len() == self.len);
        while self.len() > at
            invariant
                self.wf(),
                rest.wf(),
                at <= self@.len(),
                orig.len() <= usize::MAX,
                self@ + rest@ == orig,
            decreases self@.len(),
        {
            match self.pop_back() {
                Some(v) => {
                    assert(rest@.len() < orig.len());
                    rest.push_front(v);
                    assert(self@ + rest@ =~= orig);
                },
                None => {},
            }
        }
        assert(self@ =~= orig.subrange(0, at as int));
        assert(rest@ =~= orig.subrange(at as int, orig.len() as int));
        rest
    }
}


/// A forward walk over the elements of a [`DoublyLinkedList`], following the
/// forward links from the front. Created by [`DoublyLinkedList::iter`].
pub struct Iter<'a, T> {
    list: &'a DoublyLinkedList<T>,
    it: Option<usize>,
    pos: Ghost<int>,
}

impl<'a, T> Iter<'a, T> {
    /// The list being walked.
    pub closed spec fn items(&self) -> Seq<T> {
        self.list@
    }

    /// How many elements have been handed out so far.
    pub closed spec fn pos(&self) -> int {
        self.pos@
    }

    /// The walk's internal invariant: the cursor names the node at `pos`.
    pub closed spec fn wf(&self) -> bool {
        let s = self.list.spine@;
        &&& self.list.wf()
        &&& 0 <= self.pos@ <= s.len()
        &&& self.it == (if self.pos@ < s.len() { Some(s[self.pos@]) } else { None::<usize> })
    }

    /// Returns the next element, or `None` once every element has been handed out.
    pub fn next(&mut self) -> (r: Option<&'a T>)
        requires
            old(self).wf(),
        ensures
            final(self).wf(),
            final(self).items() == old(self).items(),
            old(self).pos() < old(self).items().len() ==> r == Some(&old(self).items()[old(self).pos()])
                && final(self).pos() == old(self).pos() + 1,
            old(self).pos() >= old(self).items().len() ==> r is None && final(self).pos() == old(self).pos(),
    {
        match self.it {
            None => None,
            Some(a) => {
                let list: &'a DoublyLinkedList<T> = self.list;
                let node = &list.nodes[a];
                self.it = node.next;
                self.pos = Ghost(self.pos@ + 1);
                Some(&node.data)
            },
        }
    }
}

impl<T> DoublyLinkedList<T> {
    /// Returns a walk over the elements, front to back.
    pub fn iter(&self) -> (r: Iter<'_, T>)
        requires
            self.wf(),
        ensures
            r.wf(),
            r.items() == self@,
            r.pos() == 0,
    {
        Iter { list: self, it: self.head, pos: Ghost(0) }
    }
}


/// A forward walk that gives exclusive access to one element at a time.
/// Created by [`DoublyLinkedList::iter_mut`].
pub struct IterMut<'a, T> {
    list: &'a mut DoublyLinkedList<T>,
    it: Option<usize>,
    pos: Ghost<int>,
}

impl<'a, T> IterMut<'a, T> {
    /// The elements of the list being walked, as they stand now.
    pub closed spec fn items(&self) -> Seq<T> {
        (*self.list)@
    }

    /// How many elements have been handed out so far.
    pub closed spec fn pos(&self) -> int {
        self.pos@
    }

    /// The walk's internal invariant: the cursor names the node at `pos`.
    pub closed spec fn wf(&self) -> bool {
        let s = self.list.spine@;
        &&& self.list.wf()
        &&& 0 <= self.pos@ <= s.len()
        &&& self.it == (if self.pos@ < s.len() { Some(s[self.pos@]) } else { None::<usize> })
    }

    /// Returns exclusive access to the next element, or `None` once every element
    /// has been handed out.
    pub fn next(&mut self) -> (r: Option<&mut T>)
        requires
            old(self).wf(),
        ensures
            old(self).pos() < old(self).items().len() ==> r is Some
                && *r->0 == old(self).items()[old(self).pos()]
                && final(self).wf()
                && final(self).pos() == old(self).pos() + 1
                && final(self).items() == old(self).items().update(old(self).pos(), *final(r->0)),
            old(self).pos() >= old(self).items().len() ==> r is None && *final(self) == *old(self),
    {
        match self.it {
            None => None,
            Some(a) => {
                self.it = self.list.nodes[a].next;
                self.pos = Ghost(self.pos@ + 1);
                Some(&mut self.list.nodes[a].data)
            },
        }
    }
}

impl<T> DoublyLinkedList<T> {
    /// Returns a walk over the elements, front to back, with exclusive access
    /// to each.
    pub fn iter_mut(&mut self) -> (r: IterMut<'_, T>)
        requires
            old(self).wf(),
        ensures
            r.wf(),
            r.items() == old(self)@,
            r.pos() == 0,
    {
        let h = self.head;
        IterMut { list: self, it: h, pos: Ghost(0) }
    }
}


/// Pushing three values at the front and then popping three from the front
/// returns them last-in first-out, and leaves the list as it was.
pub proof fn lemma_lifo_front<T>(s: Seq<T>, v1: T, v2: T, v3: T)
    ensures
        ({
            let l = seq![v3] + (seq![v2] + (seq![v1] + s));
            &&& l[0] == v3
            &&& l.drop_first()[0] == v2
            &&& l.drop_first().drop_first()[0] == v1
            &&& l.drop_first().drop_first().drop_first() == s
        }),
{
    let l = seq![v3] + (seq![v2] + (seq![v1] + s));
    assert(l.drop_first() =~= seq![v2] + (seq![v1] + s));
    assert(l.drop_first().drop_first() =~= seq![v1] + s);
    assert(l.drop_first().drop_first().drop_first() =~= s);
}

/// Pushing three values at the back and then popping three from the back
/// returns them last-in first-out, and leaves the list as it was.
pub proof fn lemma_lifo_back<T>(s: Seq<T>, v1: T, v2: T, v3: T)
    ensures
        ({
            let l = s.push(v1).push(v2).push(v3);
            &&& l.last() == v3
            &&& l.drop_last().last() == v2
            &&& l.drop_last().drop_last().last() == v1
            &&& l.drop_last().drop_last().drop_last() == s
        }),
{
    let l = s.push(v1).push(v2).push(v3);
    assert(l.drop_last() =~= s.push(v1).push(v2));
    assert(l.drop_last().drop_last() =~= s.push(v1));
    assert(l.drop_last().drop_last().drop_last() =~= s);
}

/// Pushing three values at the back of an empty list and popping from the
/// front returns them in insertion order.
pub proof fn lemma_fifo_back_front<T>(v1: T, v2: T, v3: T)
    ensures
        ({
            let l = Seq::<T>::empty().push(v1).push(v2).push(v3);
            &&& l[0] == v1
            &&& l.drop_first()[0] == v2
            &&& l.drop_first().drop_first()[0] == v3
            &&& l.drop_first().drop_first().drop_first().len() == 0
        }),
{
    let l = Seq::<T>::empty().push(v1).push(v2).push(v3);
    assert(l =~= seq![v1, v2, v3]);
    assert(l.drop_first() =~= seq![v2, v3]);
    assert(l.drop_first().drop_first() =~= seq![v3]);
}

/// Pushing three values at the front of an empty list and popping from the
/// back returns them in insertion order.
pub proof fn lemma_fifo_front_back<T>(v1: T, v2: T, v3: T)
    ensures
        ({
            let l = seq![v3] + (seq![v2] + (seq![v1] + Seq::<T>::empty()));
            &&& l.last() == v1
            &&& l.drop_last().last() == v2
            &&& l.drop_last().drop_last().last() == v3
            &&& l.drop_last().drop_last().drop_last().len() == 0
        }),
{
    let l = seq![v3] + (seq![v2] + (seq![v1] + Seq::<T>::empty()));
    assert(l =~= seq![v3, v2, v1]);
    assert(l.drop_last() =~= seq![v3, v2]);
    assert(l.drop_last().drop_last() =~= seq![v3]);
}

/// The contents after pushing each element of `b`, in order, at the back of `a`.
pub open spec fn push_back_all<T>(a: Seq<T>, b: Seq<T>) -> Seq<T>
    decreases b.len(),
{
    if b.len() == 0 {
        a
    } else {
        push_back_all(a.push(b[0]), b.drop_first())
    }
}

/// Appending `b` to `a` gives what pushing every element of `b`, in order, at
/// the back of `a` gives.
pub proof fn lemma_append_is_push_back_all<T>(a: Seq<T>, b: Seq<T>)
    ensures
        push_back_all(a, b) == a + b,
    decreases b.len(),
{
    if b.len() == 0 {
        assert(a + b =~= a);
    } else {
        lemma_append_is_push_back_all(a.push(b[0]), b.drop_first());
        assert(a.push(b[0]) + b.drop_first() =~= a + b);
    }
}

/// Splitting at any valid index and appending the returned suffix restores the
/// original contents and order.
pub proof fn lemma_split_then_append<T>(v: Seq<T>, at: int)
    requires
        0 <= at <= v.len(),
    ensures
        v.subrange(0, at) + v.subrange(at, v.len() as int) == v,
{
    assert(v.subrange(0, at) + v.subrange(at, v.len() as int) =~= v);
}

} // verus!
