use vstd::prelude::*;
use crate::tree::{
    Entry, Node, Link, desc, asc, sorted_desc, ranks_before, entry_of, ident_of, find, right_spine, all_found,
    pending, stamps_below, leading_greater,
};
use crate::tree::{
    lemma_asc_reverse, lemma_leading_greater, lemma_split, lemma_parts, lemma_remove_sorted, lemma_find_child,
    lemma_spine, lemma_find_complete, lemma_find_in, lemma_pending_len, lemma_drop_first, lemma_drop_last,
};

verus! {

/// A rank at or past the number of items.
#[derive(Debug, Clone, Copy, PartialEq, Eq, Structural)]
pub struct IndexOutOfRange {
    pub index: usize,
    pub length: usize,
}

/// A double-ended priority queue kept in an explicit binary search tree.
///
/// Smaller keys go left; a key equal to or greater than a node's goes right,
/// so the rightmost node holds a greatest key and, among equal keys, the one
/// pushed last. Rank 0 is the greatest entry, rank `length - 1` the least.
/// The tree is not rebalanced.
///
/// Every push hands out a fresh stamp, and an entry is named by its key and
/// stamp. Nodes own their subtrees and keep no link to their parent: each
/// change walks down from the root with a cursor and rewrites the slot it came
/// through, and a walk refers to the nodes it has yet to visit by their names.
pub struct DoublePriorityQueue<T> {
    root: Link<T>,
    length: usize,
    next_stamp: u64,
}

impl<T> DoublePriorityQueue<T> {
    /// The entries, greatest first; among equal keys the one pushed last
    /// comes first.
    pub closed spec fn view(&self) -> Seq<Entry<T>> {
        desc(self.root)
    }

    /// The entries, least first, as an in-order walk of the tree meets them.
    pub closed spec fn in_order(&self) -> Seq<Entry<T>> {
        asc(self.root)
    }

    /// The stamp that the next pushed item receives.
    pub closed spec fn stamp_counter(&self) -> u64 {
        self.next_stamp
    }

    /// The tree is a search tree, the counter matches it, and every stamp in
    /// it was handed out before the next one.
    pub closed spec fn wf(&self) -> bool {
        &&& sorted_desc(desc(self.root))
        &&& self.length as int == desc(self.root).len()
        &&& stamps_below(desc(self.root), self.next_stamp)
    }

    /// Whether some entry has identity `id`: key `id.0` and stamp `id.1`.
    pub open spec fn holds(&self, id: (i64, u64)) -> bool {
        exists|i: int| 0 <= i < self.view().len() && self.view()[i].key == id.0 && #[trigger] self.view()[i].stamp == id.1
    }

    /// A search from the root finds an identity exactly when an entry has it.
    proof fn lemma_find_iff_holds(&self, id: (i64, u64))
        requires
            self.wf(),
        ensures
            find(self.root, id).is_some() == self.holds(id),
    {
        let d = desc(self.root);
        if find(self.root, id).is_some() {
            lemma_find_in(self.root, id);
            let i = choose|i: int| 0 <= i < d.len() && d[i] == entry_of(*find(self.root, id).unwrap());
            assert(d[i].key == id.0 && d[i].stamp == id.1);
            assert(self.view()[i].key == id.0 && self.view()[i].stamp == id.1);
        }
        if self.holds(id) {
            let i = choose|i: int| 0 <= i < d.len() && d[i].key == id.0 && #[trigger] d[i].stamp == id.1;
            lemma_find_complete(self.root, i);
            assert(ident_of(d[i]) == id);
        }
    }

    /// Whether one more item can be pushed without a counter overflowing.
    pub open spec fn has_room(&self) -> bool {
        self.view().len() < usize::MAX && self.stamp_counter() < u64::MAX
    }

    /// An empty queue.
    pub fn new() -> (q: Self)
        ensures
            q.wf(),
            q.view() == Seq::<Entry<T>>::empty(),
            q.stamp_counter() == 0,
    {
        DoublePriorityQueue { root: None, length: 0, next_stamp: 0 }
    }

    /// Whether `push` may be called.
    pub fn has_room_for_push(&self) -> (r: bool)
        requires
            self.wf(),
        ensures
            r == self.has_room(),
    {
        self.length < usize::MAX && self.next_stamp < u64::MAX
    }

    /// Pushes `item` under `key`. It goes after every entry with a greater
    /// key and before every entry with an equal or smaller one.
    pub fn push(&mut self, item: T, key: i64)
        requires
            old(self).wf(),
            old(self).has_room(),
        ensures
            final(self).wf(),
            final(self).stamp_counter() == old(self).stamp_counter() + 1,
            final(self).view().len() == old(self).view().len() + 1,
            final(self).view() == old(self).view().insert(
                leading_greater(old(self).view(), key) as int,
                Entry { key, stamp: old(self).stamp_counter(), item },
            ),
            final(self).view().to_multiset() == old(self).view().to_multiset().insert(
                Entry { key, stamp: old(self).stamp_counter(), item },
            ),
            forall|i: int|
                0 <= i < leading_greater(old(self).view(), key) ==> #[trigger] old(self).view()[i].key > key,
            forall|i: int|
                leading_greater(old(self).view(), key) <= i < old(self).view().len() ==> #[trigger] old(self).view()[i].key
                    <= key,
    {
        let stamp = self.next_stamp;
        let ghost e = Entry { key, stamp, item };
        let ghost old_desc = desc(self.root);
        let mut root = self.root.take();
        let ghost mut above: Seq<Entry<T>> = Seq::empty();
        let ghost mut below: Seq<Entry<T>> = Seq::empty();
        let mut cur = &mut root;
        while cur.is_some()
            invariant
                e == (Entry { key, stamp, item }),
                old_desc == above + desc(*cur) + below,
                desc(after_borrow(root)) == above + desc(*final(cur)) + below,
                sorted_desc(desc(*cur)),
                forall|i: int| 0 <= i < desc(*cur).len() ==> #[trigger] desc(*cur)[i].stamp < stamp,
                forall|i: int| 0 <= i < above.len() ==> #[trigger] above[i].key > key,
                forall|i: int| 0 <= i < below.len() ==> #[trigger] ranks_before(e, below[i]),
            decreases desc(*cur).len(),
        {
            let ghost here = *cur;
            let node = cur.as_mut().unwrap();
            proof {
                assert(here == Some(*node));
                lemma_split(*node);
                lemma_parts(*node);
            }
            if key < node.key {
                proof {
                    let r = desc(node.right);
                    above = above + r + seq![entry_of(**node)];
                }
                cur = &mut node.left;
            } else {
                proof {
                    let l = desc(node.left);
                    assert forall|i: int| 0 <= i < l.len() implies #[trigger] ranks_before(e, l[i]) by {
                        assert(ranks_before(entry_of(**node), l[i]));
                        let k = desc(node.right).len() + 1 + i;
                        assert(l[i] == desc(here)[k]);
                        assert(desc(here)[k].stamp < stamp);
                    }
                    let nb = seq![entry_of(**node)] + l + below;
                    assert forall|i: int| 0 <= i < nb.len() implies #[trigger] ranks_before(e, nb[i]) by {
                        if i == 0 {
                            let k = desc(node.right).len() as int;
                            assert(desc(here)[k] == entry_of(**node));
                            assert(desc(here)[k].stamp < stamp);
                        } else if i < 1 + l.len() {
                            assert(nb[i] == l[i - 1]);
                        } else {
                            assert(nb[i] == below[i - 1 - l.len()]);
                        }
                    }
                    below = nb;
                }
                cur = &mut node.right;
            }
        }
        *cur = Some(Box::new(Node { key, stamp, item, left: None, right: None }));
        self.root = root;
        self.length = self.length + 1;
        self.next_stamp = stamp + 1;
        proof {
            let s = desc(self.root);
            assert(desc(Some(Box::new(Node { key, stamp, item, left: None, right: None }))) =~= seq![e]);
            assert(s == above + seq![e] + below);
            assert(old_desc =~= above + below);
            assert(s =~= old_desc.insert(above.len() as int, e));
            let a = above.len() as int;
            assert forall|i: int, j: int| 0 <= i < j < s.len() implies #[trigger] ranks_before(s[i], s[j]) by {
                if j < a {
                    assert(ranks_before(old_desc[i], old_desc[j]));
                } else if i < a && j == a {
                    assert(s[i] == above[i]);
                } else if i < a {
                    assert(s[i] == old_desc[i] && s[j] == old_desc[j - 1]);
                    assert(ranks_before(old_desc[i], old_desc[j - 1]));
                } else if i == a {
                    assert(s[j] == below[j - a - 1]);
                } else {
                    assert(s[i] == old_desc[i - 1] && s[j] == old_desc[j - 1]);
                    assert(ranks_before(old_desc[i - 1], old_desc[j - 1]));
                }
            }
            assert forall|i: int| 0 <= i < s.len() implies #[trigger] s[i].stamp < self.next_stamp by {
                if i < a {
                    assert(s[i] == old_desc[i]);
                } else if i > a {
                    assert(s[i] == old_desc[i - 1]);
                }
            }
            assert forall|i: int| 0 <= i < a implies #[trigger] old_desc[i].key > key by {
                assert(old_desc[i] == above[i]);
            }
            assert forall|i: int| a <= i < old_desc.len() implies #[trigger] old_desc[i].key <= key by {
                assert(old_desc[i] == below[i - a]);
                assert(ranks_before(e, below[i - a]));
            }
            lemma_leading_greater(old_desc, key, a);
            vstd::seq_lib::to_multiset_insert(old_desc, a, e);
        }
    }

    /// The node with the greatest entry, if any.
    fn greatest_node(&self) -> (r: Option<&Box<Node<T>>>)
        ensures
            self.view().len() == 0 ==> r.is_none(),
            self.view().len() > 0 ==> r.is_some() && entry_of(**r.unwrap()) == self.view()[0],
            r.is_some() ==> r.unwrap().right.is_none(),
    {
        match &self.root {
            None => None,
            Some(root_node) => Some(Node::rightmost(root_node)),
        }
    }

    /// The node with the least entry, if any.
    fn least_node(&self) -> (r: Option<&Box<Node<T>>>)
        ensures
            self.view().len() == 0 ==> r.is_none(),
            self.view().len() > 0 ==> r.is_some() && entry_of(**r.unwrap()) == self.view().last(),
            r.is_some() ==> r.unwrap().left.is_none(),
    {
        match &self.root {
            None => None,
            Some(root_node) => Some(Node::leftmost(root_node)),
        }
    }

    /// The item of greatest priority, without removing it.
    pub fn peek_max(&self) -> (r: Option<&T>)
        ensures
            r == (if self.view().len() == 0 { None } else { Some(&self.view()[0].item) }),
    {
        match self.greatest_node() {
            None => None,
            Some(node) => Some(&node.item),
        }
    }

    /// The item of least priority, without removing it.
    pub fn peek_min(&self) -> (r: Option<&T>)
        ensures
            r == (if self.view().len() == 0 { None } else { Some(&self.view().last().item) }),
    {
        match self.least_node() {
            None => None,
            Some(node) => Some(&node.item),
        }
    }

    /// Removes and returns the item of greatest priority.
    #[verifier::spinoff_prover]
    pub fn pop_max(&mut self) -> (r: Option<T>)
        requires
            old(self).wf(),
        ensures
            final(self).wf(),
            final(self).stamp_counter() == old(self).stamp_counter(),
            old(self).view().len() == 0 ==> r.is_none() && final(self).view() == old(self).view(),
            old(self).view().len() > 0 ==> r == Some(old(self).view()[0].item)
                && final(self).view() == old(self).view().drop_first()
                && final(self).view().len() == old(self).view().len() - 1,
    {
        if self.root.is_none() {
            return None;
        }
        let ghost old_desc = desc(self.root);
        let mut root = self.root.take();
        let ghost mut below: Seq<Entry<T>> = Seq::empty();
        let mut cur = &mut root;
        loop
            invariant
                cur.is_some(),
                old_desc == desc(*cur) + below,
                desc(after_borrow(root)) == desc(*final(cur)) + below,
            ensures
                cur.is_some(),
                cur.unwrap().right.is_none(),
                old_desc == desc(*cur) + below,
                desc(after_borrow(root)) == desc(*final(cur)) + below,
            decreases desc(*cur).len(),
        {
            if cur.as_ref().unwrap().right.is_none() {
                break;
            }
            let node = cur.as_mut().unwrap();
            proof {
                lemma_parts(*node);
                let next_below = seq![entry_of(**node)] + desc(node.left) + below;
                assert(old_desc =~= desc(node.right) + next_below);
                below = next_below;
            }
            cur = &mut node.right;
        }
        let ghost here = *cur;
        let node = cur.take().unwrap();
        let n = *node;
        proof {
            lemma_parts(node);
        }
        *cur = n.left;
        self.root = root;
        self.length = self.length - 1;
        proof {
            assert(old_desc =~= seq![entry_of(n)] + (desc(n.left) + below));
            lemma_drop_first(old_desc, entry_of(n), desc(self.root), self.next_stamp);
        }
        Some(n.item)
    }

    /// Removes and returns the item of least priority.
    #[verifier::spinoff_prover]
    pub fn pop_min(&mut self) -> (r: Option<T>)
        requires
            old(self).wf(),
        ensures
            final(self).wf(),
            final(self).stamp_counter() == old(self).stamp_counter(),
            old(self).view().len() == 0 ==> r.is_none() && final(self).view() == old(self).view(),
            old(self).view().len() > 0 ==> r == Some(old(self).view().last().item)
                && final(self).view() == old(self).view().drop_last()
                && final(self).view().len() == old(self).view().len() - 1,
    {
        if self.root.is_none() {
            return None;
        }
        let ghost old_desc = desc(self.root);
        let mut root = self.root.take();
        let ghost mut above: Seq<Entry<T>> = Seq::empty();
        let mut cur = &mut root;
        loop
            invariant
                cur.is_some(),
                old_desc == above + desc(*cur),
                desc(after_borrow(root)) == above + desc(*final(cur)),
            ensures
                cur.is_some(),
                cur.unwrap().left.is_none(),
                old_desc == above + desc(*cur),
                desc(after_borrow(root)) == above + desc(*final(cur)),
            decreases desc(*cur).len(),
        {
            if cur.as_ref().unwrap().left.is_none() {
                break;
            }
            let node = cur.as_mut().unwrap();
            proof {
                lemma_parts(*node);
                above = above + desc(node.right) + seq![entry_of(**node)];
            }
            cur = &mut node.left;
        }
        let node = cur.take().unwrap();
        let n = *node;
        proof {
            lemma_parts(node);
        }
        *cur = n.right;
        self.root = root;
        self.length = self.length - 1;
        proof {
            assert(old_desc =~= (above + desc(n.right)) + seq![entry_of(n)]);
            lemma_drop_last(old_desc, desc(self.root), entry_of(n), self.next_stamp);
        }
        Some(n.item)
    }

    /// Whether some entry has key `key`.
    pub fn contains(&self, key: i64) -> (r: bool)
        requires
            self.wf(),
        ensures
            r == exists|i: int| 0 <= i < self.view().len() && #[trigger] self.view()[i].key == key,
    {
        let mut cur = &self.root;
        proof {
            assert(self.view() == desc(*cur));
        }
        loop
            invariant
                sorted_desc(desc(*cur)),
                (exists|i: int| 0 <= i < self.view().len() && #[trigger] self.view()[i].key == key)
                    == (exists|i: int| 0 <= i < desc(*cur).len() && #[trigger] desc(*cur)[i].key == key),
            decreases desc(*cur).len(),
        {
            match cur {
                None => {
                    return false;
                },
                Some(node) => {
                    proof {
                        lemma_parts(*node);
                        lemma_split(*node);
                    }
                    if key == node.key {
                        proof {
                            assert(desc(*cur)[desc(node.right).len() as int].key == key);
                        }
                        return true;
                    } else if key < node.key {
                        proof {
                            let l = desc(node.left);
                            let rr = desc(node.right);
                            if exists|i: int| 0 <= i < desc(*cur).len() && #[trigger] desc(*cur)[i].key == key {
                                let i = choose|i: int| 0 <= i < desc(*cur).len() && #[trigger] desc(*cur)[i].key == key;
                                if i < rr.len() {
                                    assert(ranks_before(rr[i], entry_of(**node)));
                                } else {
                                    assert(desc(*cur)[i] == l[i - rr.len() - 1]);
                                }
                            }
                            assert forall|i: int| 0 <= i < l.len() && #[trigger] l[i].key == key implies
                                desc(*cur)[rr.len() + 1 + i].key == key by {}
                        }
                        cur = &node.left;
                    } else {
                        proof {
                            let l = desc(node.left);
                            let rr = desc(node.right);
                            if exists|i: int| 0 <= i < desc(*cur).len() && #[trigger] desc(*cur)[i].key == key {
                                let i = choose|i: int| 0 <= i < desc(*cur).len() && #[trigger] desc(*cur)[i].key == key;
                                if i > rr.len() {
                                    assert(desc(*cur)[i] == l[i - rr.len() - 1]);
                                    assert(ranks_before(entry_of(**node), l[i - rr.len() - 1]));
                                } else {
                                    assert(desc(*cur)[i] == rr[i]);
                                }
                            }
                            assert forall|i: int| 0 <= i < rr.len() && #[trigger] rr[i].key == key implies
                                desc(*cur)[i].key == key by {}
                        }
                        cur = &node.right;
                    }
                },
            }
        }
    }

    /// How many items the queue holds.
    pub fn length(&self) -> (r: usize)
        requires
            self.wf(),
        ensures
            r == self.view().len(),
    {
        self.length
    }

    /// Whether the queue holds no item.
    pub fn is_empty(&self) -> (r: bool)
        ensures
            r == (self.view().len() == 0),
    {
        proof {
            if self.root.is_some() {
                lemma_parts(self.root.unwrap());
            }
        }
        self.root.is_none()
    }

    /// Removes every item.
    pub fn clear(&mut self)
        ensures
            final(self).wf(),
            final(self).view() == Seq::<Entry<T>>::empty(),
            final(self).view().len() == 0,
            final(self).stamp_counter() == old(self).stamp_counter(),
    {
        self.root = None;
        self.length = 0;
    }

    /// A fresh descending cursor over the queue as it stands.
    pub fn iterate(&self) -> (r: DescendingIter)
        requires
            self.wf(),
        ensures
            r.remaining(self) == self.view(),
            r.is_intact(self),
            r.pending_ids().len() <= self.view().len(),
    {
        let mut stack: Vec<(i64, u64)> = Vec::new();
        Node::push_right_spine(&mut stack, &self.root);
        proof {
            lemma_spine(self.root, Seq::empty(), self.root);
            assert(Seq::<(i64, u64)>::empty() + right_spine(self.root) =~= stack@);
            assert(desc(self.root) + Seq::<Entry<T>>::empty() =~= desc(self.root));
            lemma_pending_len(self.root, stack@);
        }
        DescendingIter { stack }
    }

    /// The node at `rank`: the two ends by their own walks, any other rank by
    /// walking the descending order from the top.
    fn node_at(&self, rank: usize) -> (r: Result<&Box<Node<T>>, IndexOutOfRange>)
        requires
            self.wf(),
        ensures
            rank < self.view().len() ==> r.is_ok() && entry_of(**r.unwrap()) == self.view()[rank as int],
            rank >= self.view().len() ==> r == Err::<&Box<Node<T>>, IndexOutOfRange>(
                IndexOutOfRange { index: rank, length: self.length },
            ),
    {
        let err = IndexOutOfRange { index: rank, length: self.length };
        if rank >= self.length {
            return Err(err);
        }
        if rank == 0 {
            return match self.greatest_node() {
                Some(node) => Ok(node),
                None => Err(err),
            };
        }
        if rank == self.length - 1 {
            return match self.least_node() {
                Some(node) => Ok(node),
                None => Err(err),
            };
        }
        let mut it = self.iterate();
        let mut i: usize = 0;
        while i < rank
            invariant
                self.wf(),
                i <= rank < self.view().len(),
                it.remaining(self) == self.view().skip(i as int),
                it.is_intact(self),
            decreases rank - i,
        {
            it.step_intact(self);
            i = i + 1;
            proof {
                assert(self.view().skip(i - 1).drop_first() =~= self.view().skip(i as int));
            }
        }
        match it.step_intact(self) {
            Some(node) => Ok(node),
            None => Err(err),
        }
    }

    /// The item at `rank`, 0 being the greatest.
    pub fn get_at(&self, rank: usize) -> (r: Result<&T, IndexOutOfRange>)
        requires
            self.wf(),
        ensures
            rank < self.view().len() ==> r == Ok::<&T, IndexOutOfRange>(&self.view()[rank as int].item),
            rank >= self.view().len() ==> r == Err::<&T, IndexOutOfRange>(
                IndexOutOfRange { index: rank, length: self.view().len() as usize },
            ),
    {
        match self.node_at(rank) {
            Ok(node) => Ok(&node.item),
            Err(e) => Err(e),
        }
    }

    /// Removes the item at `rank`, 0 being the greatest.
    pub fn remove_at(&mut self, rank: usize) -> (r: Result<(), IndexOutOfRange>)
        requires
            old(self).wf(),
        ensures
            final(self).wf(),
            final(self).stamp_counter() == old(self).stamp_counter(),
            rank < old(self).view().len() ==> r is Ok && final(self).view() == old(self).view().remove(rank as int)
                && final(self).view().len() == old(self).view().len() - 1,
            rank >= old(self).view().len() ==> r == Err::<(), IndexOutOfRange>(
                IndexOutOfRange { index: rank, length: old(self).view().len() as usize },
            ) && final(self).view() == old(self).view(),
    {
        let (key, stamp) = match self.node_at(rank) {
            Ok(node) => (node.key, node.stamp),
            Err(e) => {
                return Err(e);
            },
        };
        let ghost old_desc = desc(self.root);
        let mut root = self.root.take();
        let ghost mut above: Seq<Entry<T>> = Seq::empty();
        let ghost mut below: Seq<Entry<T>> = Seq::empty();
        let mut cur = &mut root;
        loop
            invariant
                sorted_desc(desc(*cur)),
                0 <= rank - above.len() < desc(*cur).len(),
                ident_of(desc(*cur)[rank - above.len()]) == (key, stamp),
                old_desc == above + desc(*cur) + below,
                desc(after_borrow(root)) == above + desc(*final(cur)) + below,
            ensures
                cur.is_some(),
                cur.unwrap().key == key && cur.unwrap().stamp == stamp,
                sorted_desc(desc(*cur)),
                0 <= rank - above.len() < desc(*cur).len(),
                ident_of(desc(*cur)[rank - above.len()]) == (key, stamp),
                old_desc == above + desc(*cur) + below,
                desc(after_borrow(root)) == above + desc(*final(cur)) + below,
            decreases desc(*cur).len(),
        {
            let ghost here = *cur;
            let ghost j = rank - above.len();
            proof {
                lemma_parts(here.unwrap());
                lemma_split(here.unwrap());
            }
            if cur.as_ref().unwrap().key == key && cur.as_ref().unwrap().stamp == stamp {
                break;
            }
            let node = cur.as_mut().unwrap();
            let ghost rl = desc(node.right).len() as int;
            proof {
                assert(desc(here)[rl] == entry_of(**node));
                if j < rl {
                    assert(ranks_before(desc(here)[j], desc(here)[rl]));
                } else if j > rl {
                    assert(ranks_before(desc(here)[rl], desc(here)[j]));
                }
            }
            if key > node.key || (key == node.key && stamp > node.stamp) {
                proof {
                    assert(desc(node.right)[j] == desc(here)[j]);
                    below = seq![entry_of(**node)] + desc(node.left) + below;
                }
                cur = &mut node.right;
            } else {
                proof {
                    assert(desc(node.left)[j - rl - 1] == desc(here)[j]);
                    above = above + desc(node.right) + seq![entry_of(**node)];
                }
                cur = &mut node.left;
            }
        }
        let ghost here = *cur;
        let node = cur.take().unwrap();
        let n = *node;
        proof {
            lemma_parts(node);
            lemma_split(node);
            let j = rank - above.len();
            let rl = desc(n.right).len() as int;
            assert(desc(here)[rl] == entry_of(n));
            if j < rl {
                assert(ranks_before(desc(here)[j], desc(here)[rl]));
            } else if j > rl {
                assert(ranks_before(desc(here)[rl], desc(here)[j]));
            }
        }
        *cur = Node::splice_children(n.left, n.right);
        self.root = root;
        self.length = self.length - 1;
        proof {
            assert(old_desc =~= above + desc(n.right) + seq![entry_of(n)] + desc(n.left) + below);
            assert(desc(self.root) =~= old_desc.remove(rank as int));
            lemma_remove_sorted(old_desc, rank as int, self.next_stamp);
        }
        Ok(())
    }
}

/// A descending walk over a queue that holds no borrow of it.
///
/// The walk keeps a stack of pending nodes, each named by its key and stamp
/// and found again by a search from the root. Every step first checks that
/// each pending node is still in the queue; if one has been removed, the walk
/// ends there, so a caller that mutates the queue while walking gets a prefix
/// of a descending order and never a stale one.
pub struct DescendingIter {
    stack: Vec<(i64, u64)>,
}

impl DescendingIter {
    /// What the walk will still yield over `q`, greatest first.
    pub closed spec fn remaining<T>(&self, q: &DoublePriorityQueue<T>) -> Seq<Entry<T>> {
        if all_found(q.root, self.stack@) {
            pending(q.root, self.stack@)
        } else {
            Seq::empty()
        }
    }

    /// The identities of the pending nodes, bottom of the stack first.
    pub closed spec fn pending_ids(&self) -> Seq<(i64, u64)> {
        self.stack@
    }

    /// Every pending node of the walk is still in `q`.
    pub closed spec fn is_intact<T>(&self, q: &DoublePriorityQueue<T>) -> bool {
        all_found(q.root, self.stack@)
    }

    /// The walk has ended and yields nothing more over any queue.
    pub closed spec fn is_finished(&self) -> bool {
        self.stack@.len() == 0
    }

    /// A finished walk has nothing left over any queue.
    pub proof fn lemma_finished<T>(&self, q: &DoublePriorityQueue<T>)
        requires
            self.is_finished(),
        ensures
            self.remaining(q) == Seq::<Entry<T>>::empty(),
    {
    }

    /// The entry to be yielded next is the node on top of the stack.
    pub proof fn lemma_top_is_next<T>(&self, q: &DoublePriorityQueue<T>)
        requires
            q.wf(),
            self.remaining(q).len() > 0,
        ensures
            self.pending_ids().len() > 0,
            (self.remaining(q)[0].key, self.remaining(q)[0].stamp) == self.pending_ids().last(),
    {
        lemma_find_in(q.root, self.stack@.last());
    }

    /// A walk whose next entry is removed from the queue has nothing left:
    /// its next step ends it.
    pub proof fn lemma_removing_next_ends_walk<T>(
        &self,
        q: &DoublePriorityQueue<T>,
        changed: &DoublePriorityQueue<T>,
        rank: int,
    )
        requires
            q.wf(),
            changed.wf(),
            self.remaining(q).len() > 0,
            0 <= rank < q.view().len(),
            q.view()[rank] == self.remaining(q)[0],
            changed.view() == q.view().remove(rank),
        ensures
            self.remaining(changed) == Seq::<Entry<T>>::empty(),
    {
        self.lemma_top_is_next(q);
        let id = self.stack@.last();
        let d = q.view();
        lemma_remove_sorted(desc(q.root), rank, q.next_stamp);
        if changed.holds(id) {
            let i = choose|i: int|
                0 <= i < changed.view().len() && changed.view()[i].key == id.0 && #[trigger] changed.view()[i].stamp == id.1;
            let j = if i < rank { i } else { i + 1 };
            assert(changed.view()[i] == d[j]);
            if j < rank {
                assert(ranks_before(d[j], d[rank]));
            } else {
                assert(ranks_before(d[rank], d[j]));
            }
        }
        changed.lemma_find_iff_holds(id);
        assert(find(changed.root, self.stack@[self.stack@.len() - 1]).is_none());
    }

    /// Steps a walk whose pending nodes are all in `q`, without checking
    /// them again, and returns the node it passes.
    fn step_intact<'a, T>(&mut self, q: &'a DoublePriorityQueue<T>) -> (r: Option<&'a Box<Node<T>>>)
        requires
            q.wf(),
            old(self).is_intact(q),
        ensures
            final(self).is_intact(q),
            old(self).remaining(q).len() == 0 ==> r.is_none() && final(self).is_finished(),
            old(self).remaining(q).len() > 0 ==> r.is_some()
                && entry_of(**r.unwrap()) == old(self).remaining(q)[0]
                && final(self).remaining(q) == old(self).remaining(q).drop_first(),
    {
        let ghost ids = self.stack@;
        let (key, stamp) = match self.stack.pop() {
            None => {
                proof {
                    assert(pending(q.root, ids) == Seq::<Entry<T>>::empty());
                }
                return None;
            },
            Some(id) => id,
        };
        proof {
            assert(ids.last() == (key, stamp));
            assert(find(q.root, ids[ids.len() - 1]).is_some());
        }
        match Node::find_node(&q.root, key, stamp) {
            None => {
                self.stack.clear();
                None
            },
            Some(node) => {
                proof {
                    lemma_find_in(q.root, (key, stamp));
                    assert(find(q.root, (node.key, node.stamp)) == Some(*node));
                    assert(ids.drop_last() == self.stack@);
                    lemma_find_child(q.root, *node);
                    lemma_spine(q.root, self.stack@, node.left);
                    assert(pending(q.root, ids) == seq![entry_of(**node)] + desc(node.left) + pending(q.root, self.stack@));
                    assert forall|k: int| 0 <= k < self.stack@.len() implies (#[trigger] find(q.root, self.stack@[k])).is_some() by {
                        assert(self.stack@[k] == ids[k]);
                    }
                    assert(pending(q.root, ids).drop_first() =~= desc(node.left) + pending(q.root, self.stack@));
                }
                Node::push_right_spine(&mut self.stack, &node.left);
                Some(node)
            },
        }
    }

    /// Steps the walk over `q` and returns the node it passes: first checks
    /// that every pending node is still in `q`, and ends the walk if not.
    fn advance_node<'a, T>(&mut self, q: &'a DoublePriorityQueue<T>) -> (r: Option<&'a Box<Node<T>>>)
        requires
            q.wf(),
        ensures
            final(self).is_intact(q),
            final(self).pending_ids().len() <= final(self).remaining(q).len(),
            old(self).remaining(q).len() == 0 ==> r.is_none() && final(self).is_finished(),
            old(self).remaining(q).len() > 0 ==> r.is_some()
                && entry_of(**r.unwrap()) == old(self).remaining(q)[0]
                && final(self).remaining(q) == old(self).remaining(q).drop_first(),
            r.is_some() ==> exists|i: int| 0 <= i < q.view().len() && q.view()[i] == entry_of(**r.unwrap()),
            (exists|k: int| 0 <= k < old(self).stack@.len() && !q.holds(#[trigger] old(self).stack@[k]))
                ==> r.is_none() && final(self).is_finished(),
    {
        proof {
            if exists|k: int| 0 <= k < self.stack@.len() && !q.holds(#[trigger] self.stack@[k]) {
                let k = choose|k: int| 0 <= k < self.stack@.len() && !q.holds(#[trigger] self.stack@[k]);
                q.lemma_find_iff_holds(self.stack@[k]);
            }
        }
        let ghost ids = self.stack@;
        let mut i: usize = 0;
        while i < self.stack.len()
            invariant
                self.stack@ == ids,
                ids == old(self).stack@,
                i <= ids.len(),
                forall|k: int| 0 <= k < i ==> (#[trigger] find(q.root, ids[k])).is_some(),
            decreases ids.len() - i,
        {
            let (key, stamp) = self.stack[i];
            if Node::find_node(&q.root, key, stamp).is_none() {
                proof {
                    assert(find(q.root, ids[i as int]).is_none());
                    assert(!all_found(q.root, ids));
                }
                self.stack.clear();
                proof {
                    lemma_pending_len(q.root, self.stack@);
                }
                return None;
            }
            i = i + 1;
        }
        let r = self.step_intact(q);
        proof {
            lemma_pending_len(q.root, self.stack@);
            if r.is_some() {
                let node = r.unwrap();
                lemma_find_in(q.root, ids.last());
                lemma_find_in(q.root, (node.key, node.stamp));
            }
        }
        r
    }

    /// Yields the next item of `q` in descending order, or `None` once the
    /// order is exhausted or a pending node has left the queue.
    pub fn next<'a, T>(&mut self, q: &'a DoublePriorityQueue<T>) -> (r: Option<&'a T>)
        requires
            q.wf(),
        ensures
            r == (if old(self).remaining(q).len() == 0 { None } else { Some(&old(self).remaining(q)[0].item) }),
            old(self).remaining(q).len() == 0 ==> final(self).is_finished(),
            old(self).remaining(q).len() > 0 ==> final(self).remaining(q) == old(self).remaining(q).drop_first(),
            final(self).is_intact(q),
            final(self).pending_ids().len() <= final(self).remaining(q).len(),
            r.is_some() ==> exists|i: int| 0 <= i < q.view().len() && &q.view()[i].item == r.unwrap(),
            (exists|k: int| 0 <= k < old(self).pending_ids().len() && !q.holds(#[trigger] old(self).pending_ids()[k]))
                ==> r.is_none() && final(self).is_finished(),
    {
        match self.advance_node(q) {
            None => None,
            Some(node) => Some(&node.item),
        }
    }
}

impl<T> DoublePriorityQueue<T> {
    /// Whatever was pushed, the in-order walk meets keys in non-decreasing
    /// order, and the descending order is exactly its reverse.
    pub proof fn lemma_in_order_ascending(&self)
        requires
            self.wf(),
        ensures
            self.view() == self.in_order().reverse(),
            forall|i: int, j: int|
                0 <= i < j < self.in_order().len() ==> #[trigger] self.in_order()[i].key <= #[trigger] self.in_order()[j].key,
    {
        lemma_asc_reverse(self.root);
        let a = asc(self.root);
        let d = desc(self.root);
        assert(a.reverse() =~= d);
        assert forall|i: int, j: int| 0 <= i < j < a.len() implies #[trigger] a[i].key <= #[trigger] a[j].key by {
            let n = d.len();
            assert(a[i] == d[n - 1 - i] && a[j] == d[n - 1 - j]);
            assert(ranks_before(d[n - 1 - j], d[n - 1 - i]));
        }
    }

    /// Entries come greatest key first and, among equal keys, the one pushed
    /// later (the greater stamp) first.
    pub proof fn lemma_view_order(&self)
        requires
            self.wf(),
        ensures
            forall|i: int, j: int|
                0 <= i < j < self.view().len() ==> (#[trigger] self.view()[i]).key > (#[trigger] self.view()[j]).key
                    || (self.view()[i].key == self.view()[j].key && self.view()[i].stamp > self.view()[j].stamp),
    {
        let d = desc(self.root);
        assert forall|i: int, j: int| 0 <= i < j < d.len() implies (#[trigger] d[i]).key > (#[trigger] d[j]).key
            || (d[i].key == d[j].key && d[i].stamp > d[j].stamp) by {
            assert(ranks_before(d[i], d[j]));
        }
    }

    /// Rank 0 holds a greatest key and the last rank a least one, so the
    /// two ends reached by rank are the ones reached by the extreme walks.
    pub proof fn lemma_rank_ends(&self)
        requires
            self.wf(),
            self.view().len() > 0,
        ensures
            forall|i: int| 0 <= i < self.view().len() ==> #[trigger] self.view()[i].key <= self.view()[0].key,
            forall|i: int| 0 <= i < self.view().len() ==> self.view().last().key <= #[trigger] self.view()[i].key,
    {
        let d = desc(self.root);
        assert forall|i: int| 0 <= i < d.len() implies #[trigger] d[i].key <= d[0].key by {
            if i > 0 {
                assert(ranks_before(d[0], d[i]));
            }
        }
        assert forall|i: int| 0 <= i < d.len() implies d.last().key <= #[trigger] d[i].key by {
            if i < d.len() - 1 {
                assert(ranks_before(d[i], d[d.len() - 1]));
            }
        }
    }

    /// Removing the entry that a rank names takes out exactly that entry:
    /// one fewer entry, and the same entries but for that one.
    pub proof fn lemma_remove_exactly(&self, rank: int)
        requires
            self.wf(),
            0 <= rank < self.view().len(),
        ensures
            self.view().remove(rank).len() == self.view().len() - 1,
            self.view().remove(rank).to_multiset() == self.view().to_multiset().remove(self.view()[rank]),
    {
        vstd::seq_lib::to_multiset_remove(self.view(), rank);
    }
}

} // verus!
