//! A singly-linked chain of string elements.
//!
//! A chain is identified by ownership of its root [`Node`]; each node owns
//! the rest of the chain through its optional `child` link, so the chain is
//! non-empty by construction, acyclic and unshared. The chain supports
//! appending at the tail, inserting a value before or after the first node
//! holding a given anchor value, and forward read-only iteration.
//!
//! Contracts speak of a chain through its view: the sequence of the
//! elements' character sequences, in root-to-tail order.

use vstd::prelude::*;

verus! {

/// The index of the first occurrence of `a` in `s`, scanning from the
/// front; equals `s.len()` when `a` does not occur.
pub open spec fn first_match(s: Seq<Seq<char>>, a: Seq<char>) -> int
    decreases s.len(),
{
    if s.len() == 0 {
        0
    } else if s[0] == a {
        0
    } else {
        1 + first_match(s.drop_first(), a)
    }
}

/// `first_match(s, a)` is the index of the first occurrence of `a` in `s`:
/// it lies in `0 .. s.len()` exactly when `a` occurs in `s`, the element
/// there equals `a`, and no earlier element does.
pub proof fn lemma_first_match(s: Seq<Seq<char>>, a: Seq<char>)
    ensures
        0 <= first_match(s, a) <= s.len(),
        s.contains(a) <==> first_match(s, a) < s.len(),
        first_match(s, a) < s.len() ==> s[first_match(s, a)] == a,
        forall|j: int| 0 <= j < first_match(s, a) ==> s[j] != a,
    decreases s.len(),
{
    if s.len() == 0 {
        assert(!s.contains(a));
    } else if s[0] == a {
        assert(s.contains(a));
    } else {
        let t = s.drop_first();
        lemma_first_match(t, a);
        assert(forall|j: int| 0 <= j < t.len() ==> t[j] == s[j + 1]);
        if t.contains(a) {
            let i = choose|i: int| 0 <= i < t.len() && t[i] == a;
            assert(s[i + 1] == a);
            assert(s.contains(a));
        }
        if s.contains(a) {
            let i = choose|i: int| 0 <= i < s.len() && s[i] == a;
            assert(i != 0);
            assert(t[i - 1] == a);
            assert(t.contains(a));
        }
        assert forall|j: int| 0 <= j < first_match(s, a) implies s[j] != a by {
            if j > 0 {
                assert(s[j] == t[j - 1]);
            }
        };
    }
}

/// The chain view reached from `s` by appending the values of `vs`, one
/// after another: each step pushes one element at the tail, exactly as one
/// `append` call does by its contract.
pub open spec fn pushed_all(s: Seq<Seq<char>>, vs: Seq<Seq<char>>) -> Seq<Seq<char>>
    decreases vs.len(),
{
    if vs.len() == 0 {
        s
    } else {
        pushed_all(s.push(vs[0]), vs.drop_first())
    }
}

/// Appending the values of `vs` one after another onto a chain whose view
/// is `s` yields exactly the elements of `s` followed by the elements of
/// `vs`, in call order. In particular, a chain constructed with one value
/// and extended by a run of `append` calls holds exactly those values, in
/// the order they were given.
pub proof fn lemma_append_all(s: Seq<Seq<char>>, vs: Seq<Seq<char>>)
    ensures
        pushed_all(s, vs) == s + vs,
    decreases vs.len(),
{
    if vs.len() == 0 {
        assert(pushed_all(s, vs) =~= s + vs);
    } else {
        lemma_append_all(s.push(vs[0]), vs.drop_first());
        assert(s.push(vs[0]) + vs.drop_first() =~= s + vs);
    }
}

/// A successful insert-after yields the pre-insertion sequence with `x`
/// placed immediately after the first occurrence of `a`, and the length
/// grows by exactly one: writing `i` for the first index holding `a`,
/// the result keeps `s[0 .. i]` in place (so `a` is still at `i`, and no
/// earlier element equals `a`), holds `x` at `i + 1`, and shifts the rest
/// of `s` right by one.
pub proof fn lemma_insert_after_effect(s: Seq<Seq<char>>, a: Seq<char>, x: Seq<char>)
    requires
        s.contains(a),
    ensures
        ({
            let i = first_match(s, a);
            let t = s.insert(i + 1, x);
            &&& 0 <= i < s.len()
            &&& s[i] == a
            &&& forall|j: int| 0 <= j < i ==> s[j] != a
            &&& t.len() == s.len() + 1
            &&& forall|j: int| 0 <= j <= i ==> t[j] == s[j]
            &&& t[i + 1] == x
            &&& forall|j: int| i + 1 <= j < s.len() ==> t[j + 1] == s[j]
        }),
{
    lemma_first_match(s, a);
    let i = first_match(s, a);
    s.insert_ensures(i + 1, x);
}

/// A successful insert-before yields the pre-insertion sequence with `x`
/// placed immediately before the first occurrence of `a`, and the length
/// grows by exactly one: writing `i` for the first index holding `a`,
/// the result keeps `s[0 .. i]` in place, holds `x` at `i` followed by
/// `a` at `i + 1`, and shifts `s[i ..]` right by one.
pub proof fn lemma_insert_before_effect(s: Seq<Seq<char>>, a: Seq<char>, x: Seq<char>)
    requires
        s.contains(a),
    ensures
        ({
            let i = first_match(s, a);
            let t = s.insert(i, x);
            &&& 0 <= i < s.len()
            &&& s[i] == a
            &&& forall|j: int| 0 <= j < i ==> s[j] != a
            &&& t.len() == s.len() + 1
            &&& forall|j: int| 0 <= j < i ==> t[j] == s[j]
            &&& t[i] == x
            &&& t[i + 1] == a
            &&& forall|j: int| i <= j < s.len() ==> t[j + 1] == s[j]
        }),
{
    lemma_first_match(s, a);
    let i = first_match(s, a);
    s.insert_ensures(i, x);
}

/// When the head of `s` is not `a`, the search for `a` continues in the
/// tail: occurrence and first-occurrence index carry over, shifted by one.
proof fn lemma_search_step(s: Seq<Seq<char>>, a: Seq<char>)
    requires
        s.len() > 0,
        s[0] != a,
    ensures
        s.contains(a) <==> s.drop_first().contains(a),
        first_match(s, a) == 1 + first_match(s.drop_first(), a),
{
    let t = s.drop_first();
    assert(forall|j: int| 0 <= j < t.len() ==> t[j] == s[j + 1]);
    if t.contains(a) {
        let i = choose|i: int| 0 <= i < t.len() && t[i] == a;
        assert(s[i + 1] == a);
        assert(s.contains(a));
    }
    if s.contains(a) {
        let i = choose|i: int| 0 <= i < s.len() && s[i] == a;
        assert(i != 0);
        assert(t[i - 1] == a);
        assert(t.contains(a));
    }
}

/// Inserting into the tail of a non-empty sequence commutes with
/// prepending its head.
proof fn lemma_insert_cons(d: Seq<char>, t: Seq<Seq<char>>, i: int, x: Seq<char>)
    requires
        0 <= i <= t.len(),
    ensures
        (seq![d] + t).insert(i + 1, x) == seq![d] + t.insert(i, x),
{
    assert((seq![d] + t).insert(i + 1, x) =~= seq![d] + t.insert(i, x));
}

/// One element slot plus an optional ownership link to the next node.
pub struct Node {
    pub data: String,
    child: Option<Box<Node>>,
}

impl Node {
    /// The elements of the sub-chain hanging off an optional link,
    /// in root-to-tail order.
    pub closed spec fn optional_view(node_opt: Option<Box<Node>>) -> Seq<Seq<char>>
        decreases node_opt,
    {
        match node_opt {
            None => Seq::empty(),
            Some(node) => node.seq_view(),
        }
    }

    /// The elements of the chain rooted at this node, in root-to-tail order.
    pub closed spec fn seq_view(self) -> Seq<Seq<char>>
        decreases self,
    {
        seq![self.data@] + Node::optional_view(self.child)
    }

    /// Creates a single-node chain holding `data`, with no child.
    pub fn new(data: String) -> (n: Node)
        ensures
            n@ == seq![data@],
    {
        let n = Node { data, child: None };
        proof {
            assert(n@ =~= seq![data@]);
        }
        n
    }

    /// Appends `data` as the new tail; existing elements keep their order.
    pub fn append(&mut self, data: String)
        ensures
            final(self)@ == old(self)@.push(data@),
        decreases *old(self),
    {
        let child = self.child.take();
        match child {
            None => {
                self.child = Some(Box::new(Node::new(data)));
                proof {
                    assert(self@ =~= old(self)@.push(data@));
                }
            },
            Some(mut boxed) => {
                (&mut *boxed).append(data);
                self.child = Some(boxed);
                proof {
                    assert(self@ =~= old(self)@.push(data@));
                }
            },
        }
    }

    /// Produces a forward cursor positioned at this node, about to yield
    /// every element of the chain in root-to-tail order.
    pub fn iter<'a>(&'a self) -> (it: LinkedListIterator<'a>)
        ensures
            it@ == self@,
    {
        LinkedListIterator::new(self)
    }

    /// Splices a node holding `data` immediately after the first node whose
    /// element equals `find`; fails, leaving the chain unchanged, when no
    /// element equals `find`.
    pub fn insert_after(&mut self, find: &String, data: String) -> (r: Result<(), ()>)
        ensures
            r is Ok <==> old(self)@.contains(find@),
            old(self)@.contains(find@) ==> final(self)@ == old(self)@.insert(
                first_match(old(self)@, find@) + 1,
                data@,
            ),
            !old(self)@.contains(find@) ==> final(self)@ == old(self)@,
        decreases *old(self),
    {
        if self.data == *find {
            let old_child = self.child.take();
            self.child = Some(Box::new(Node { data, child: old_child }));
            proof {
                assert(old(self)@[0] == find@);
                assert(old(self)@.contains(find@));
                assert(first_match(old(self)@, find@) == 0);
                let inner = self.child->Some_0;
                assert(inner.seq_view() == seq![data@] + Node::optional_view(old(self).child));
                assert(self@ == seq![old(self).data@] + inner.seq_view());
                assert(self@ =~= old(self)@.insert(1, data@));
            }
            Ok(())
        } else {
            let child = self.child.take();
            match child {
                Some(mut boxed) => {
                    let r = (&mut *boxed).insert_after(find, data);
                    self.child = Some(boxed);
                    proof {
                        let s = old(self)@;
                        let t = Node::optional_view(old(self).child);
                        assert(s.drop_first() =~= t);
                        lemma_search_step(s, find@);
                        if t.contains(find@) {
                            lemma_first_match(t, find@);
                            lemma_insert_cons(
                                old(self).data@,
                                t,
                                first_match(t, find@) + 1,
                                data@,
                            );
                            assert(self@ =~= seq![old(self).data@] + t.insert(
                                first_match(t, find@) + 1,
                                data@,
                            ));
                        } else {
                            assert(self@ =~= s);
                        }
                    }
                    r
                },
                None => {
                    proof {
                        assert(old(self)@ =~= seq![old(self).data@]);
                        assert(!old(self)@.contains(find@));
                        assert(self@ =~= old(self)@);
                    }
                    Err(())
                },
            }
        }
    }

    /// Splices a node holding `data` immediately before the first node whose
    /// element equals `find`; fails, leaving the chain unchanged, when no
    /// element equals `find`. The anchor node's storage keeps its position:
    /// its element moves into a new successor node and its slot takes `data`.
    pub fn insert_before(&mut self, find: &String, data: String) -> (r: Result<(), ()>)
        ensures
            r is Ok <==> old(self)@.contains(find@),
            old(self)@.contains(find@) ==> final(self)@ == old(self)@.insert(
                first_match(old(self)@, find@),
                data@,
            ),
            !old(self)@.contains(find@) ==> final(self)@ == old(self)@,
        decreases *old(self),
    {
        if self.data == *find {
            let mut new_child = Node { data, child: self.child.take() };
            core::mem::swap(&mut self.data, &mut new_child.data);
            self.child = Some(Box::new(new_child));
            proof {
                assert(old(self)@[0] == find@);
                assert(old(self)@.contains(find@));
                assert(first_match(old(self)@, find@) == 0);
                let inner = self.child->Some_0;
                assert(inner.seq_view() == seq![old(self).data@] + Node::optional_view(
                    old(self).child,
                ));
                assert(self@ == seq![data@] + inner.seq_view());
                assert(self@ =~= old(self)@.insert(0, data@));
            }
            Ok(())
        } else {
            let child = self.child.take();
            match child {
                Some(mut boxed) => {
                    let r = (&mut *boxed).insert_before(find, data);
                    self.child = Some(boxed);
                    proof {
                        let s = old(self)@;
                        let t = Node::optional_view(old(self).child);
                        assert(s.drop_first() =~= t);
                        lemma_search_step(s, find@);
                        if t.contains(find@) {
                            lemma_first_match(t, find@);
                            lemma_insert_cons(old(self).data@, t, first_match(t, find@), data@);
                            assert(self@ =~= seq![old(self).data@] + t.insert(
                                first_match(t, find@),
                                data@,
                            ));
                        } else {
                            assert(self@ =~= s);
                        }
                    }
                    r
                },
                None => {
                    proof {
                        assert(old(self)@ =~= seq![old(self).data@]);
                        assert(!old(self)@.contains(find@));
                        assert(self@ =~= old(self)@);
                    }
                    Err(())
                },
            }
        }
    }
}

impl View for Node {
    type V = Seq<Seq<char>>;

    open spec fn view(&self) -> Seq<Seq<char>> {
        self.seq_view()
    }
}

/// A forward read-only cursor over a chain. It borrows the chain, so the
/// chain cannot be mutated while the cursor is alive. Its view is the
/// sequence of elements it has yet to yield; the cursor is exhausted
/// exactly when that sequence is empty.
pub struct LinkedListIterator<'a> {
    current_node: Option<&'a Node>,
}

impl<'a> LinkedListIterator<'a> {
    /// A cursor positioned at the root of the chain rooted at `node`:
    /// every element of that chain is still to be yielded.
    pub fn new(node: &'a Node) -> (it: Self)
        ensures
            it@ == node@,
    {
        LinkedListIterator { current_node: Some(node) }
    }

    /// Yields the next element, or `None` once the chain is exhausted.
    /// Exhaustion is terminal: further calls keep yielding `None`.
    pub fn next(&mut self) -> (r: Option<&'a String>)
        ensures
            old(self)@.len() == 0 ==> r is None && final(self)@ == old(self)@,
            old(self)@.len() > 0 ==> (r matches Some(d) && d@ == old(self)@[0] && final(self)@
                == old(self)@.drop_first()),
    {
        match self.current_node {
            Some(node) => {
                let data = &node.data;
                self.current_node = match &node.child {
                    Some(boxed) => Some(&**boxed),
                    None => None,
                };
                proof {
                    assert(self@ =~= old(self)@.drop_first());
                }
                Some(data)
            },
            None => None,
        }
    }
}

impl<'a> View for LinkedListIterator<'a> {
    type V = Seq<Seq<char>>;

    closed spec fn view(&self) -> Seq<Seq<char>> {
        match self.current_node {
            None => Seq::empty(),
            Some(node) => node.seq_view(),
        }
    }
}

} // verus!
