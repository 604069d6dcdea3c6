use vstd::prelude::*;

verus! {

/// What the queue holds, seen from outside: an item, the key it was
/// pushed under, and the stamp that orders it among items of equal key.
pub struct Entry<T> {
    pub key: i64,
    pub stamp: u64,
    pub item: T,
}

/// A vertex of the search tree. It owns its item and both subtrees.
pub struct Node<T> {
    pub key: i64,
    pub stamp: u64,
    pub item: T,
    pub left: Option<Box<Node<T>>>,
    pub right: Option<Box<Node<T>>>,
}

pub type Link<T> = Option<Box<Node<T>>>;

/// `a` comes before `b` in descending order: a greater key, or the same key
/// pushed later.
pub open spec fn ranks_before<T>(a: Entry<T>, b: Entry<T>) -> bool {
    a.key > b.key || (a.key == b.key && a.stamp > b.stamp)
}

pub open spec fn entry_of<T>(n: Node<T>) -> Entry<T> {
    Entry { key: n.key, stamp: n.stamp, item: n.item }
}

/// The entries of a subtree, greatest first: right subtree, node, left subtree.
pub open spec fn desc<T>(t: Link<T>) -> Seq<Entry<T>>
    decreases t,
{
    match t {
        None => Seq::empty(),
        Some(n) => desc(n.right) + seq![entry_of(*n)] + desc(n.left),
    }
}

/// The entries of a subtree, least first: left subtree, node, right subtree.
pub open spec fn asc<T>(t: Link<T>) -> Seq<Entry<T>>
    decreases t,
{
    match t {
        None => Seq::empty(),
        Some(n) => asc(n.left) + seq![entry_of(*n)] + asc(n.right),
    }
}

/// Each entry ranks strictly before every later one.
pub open spec fn sorted_desc<T>(s: Seq<Entry<T>>) -> bool {
    forall|i: int, j: int| 0 <= i < j < s.len() ==> #[trigger] ranks_before(s[i], s[j])
}

/// Where the entries of each part of a node stand in its descending sequence.
pub proof fn lemma_parts<T>(n: Box<Node<T>>)
    ensures
        desc(Some(n)) == desc(n.right) + seq![entry_of(*n)] + desc(n.left),
        desc(Some(n)).len() == desc(n.right).len() + 1 + desc(n.left).len(),
        desc(Some(n))[desc(n.right).len() as int] == entry_of(*n),
        forall|i: int| 0 <= i < desc(n.right).len() ==> desc(Some(n))[i] == #[trigger] desc(n.right)[i],
        forall|i: int|
            0 <= i < desc(n.left).len() ==> desc(Some(n))[desc(n.right).len() + 1 + i] == #[trigger] desc(n.left)[i],
{
}

/// A sorted tree splits into sorted subtrees around its root.
pub proof fn lemma_split<T>(n: Box<Node<T>>)
    requires
        sorted_desc(desc(Some(n))),
    ensures
        sorted_desc(desc(n.right)),
        sorted_desc(desc(n.left)),
        forall|i: int| 0 <= i < desc(n.right).len() ==> ranks_before(#[trigger] desc(n.right)[i], entry_of(*n)),
        forall|i: int| 0 <= i < desc(n.left).len() ==> ranks_before(entry_of(*n), #[trigger] desc(n.left)[i]),
{
    let s = desc(Some(n));
    let r = desc(n.right);
    let l = desc(n.left);
    assert(s == r + seq![entry_of(*n)] + l);
    let rl = r.len() as int;
    assert forall|i: int, j: int| 0 <= i < j < r.len() implies #[trigger] ranks_before(r[i], r[j]) by {
        assert(s[i] == r[i] && s[j] == r[j]);
        assert(ranks_before(s[i], s[j]));
    }
    assert forall|i: int, j: int| 0 <= i < j < l.len() implies #[trigger] ranks_before(l[i], l[j]) by {
        assert(s[rl + 1 + i] == l[i] && s[rl + 1 + j] == l[j]);
        assert(ranks_before(s[rl + 1 + i], s[rl + 1 + j]));
    }
    assert forall|i: int| 0 <= i < r.len() implies ranks_before(#[trigger] r[i], entry_of(*n)) by {
        assert(s[i] == r[i] && s[rl] == entry_of(*n));
        assert(ranks_before(s[i], s[rl]));
    }
    assert forall|i: int| 0 <= i < l.len() implies ranks_before(entry_of(*n), #[trigger] l[i]) by {
        assert(s[rl + 1 + i] == l[i] && s[rl] == entry_of(*n));
        assert(ranks_before(s[rl], s[rl + 1 + i]));
    }
}

/// The least-first order of a tree is its greatest-first order reversed.
pub proof fn lemma_asc_reverse<T>(t: Link<T>)
    ensures
        asc(t) == desc(t).reverse(),
    decreases t,
{
    match t {
        None => {
            assert(asc(t) =~= desc(t).reverse());
        },
        Some(n) => {
            lemma_asc_reverse(n.left);
            lemma_asc_reverse(n.right);
            lemma_parts(n);
            let d = desc(t);
            let a = asc(t);
            let l = desc(n.left);
            let r = desc(n.right);
            assert(a == l.reverse() + seq![entry_of(*n)] + r.reverse());
            assert(a.len() == d.len());
            assert forall|i: int| 0 <= i < a.len() implies a[i] == #[trigger] d.reverse()[i] by {
                let k = d.len() - 1 - i;
                if i < l.len() {
                    assert(a[i] == l.reverse()[i]);
                    assert(d[k] == l[l.len() - 1 - i]);
                } else if i == l.len() {
                    assert(d[k] == entry_of(*n));
                } else {
                    let m = i - l.len() - 1;
                    assert(a[i] == r.reverse()[m]);
                    assert(d[k] == r[r.len() - 1 - m]);
                }
            }
            assert(a =~= d.reverse());
        },
    }
}

/// How many entries at the front of `s` have a key greater than `key`.
pub open spec fn leading_greater<T>(s: Seq<Entry<T>>, key: i64) -> nat
    decreases s.len(),
{
    if s.len() == 0 {
        0
    } else if s[0].key > key {
        1 + leading_greater(s.drop_first(), key)
    } else {
        0
    }
}

/// Where the keys greater than `key` are exactly the first `p`, the leading
/// count is `p`.
pub proof fn lemma_leading_greater<T>(s: Seq<Entry<T>>, key: i64, p: int)
    requires
        0 <= p <= s.len(),
        forall|i: int| 0 <= i < p ==> #[trigger] s[i].key > key,
        forall|i: int| p <= i < s.len() ==> #[trigger] s[i].key <= key,
    ensures
        leading_greater(s, key) == p,
    decreases s.len(),
{
    if s.len() > 0 {
        let t = s.drop_first();
        if p > 0 {
            assert forall|i: int| 0 <= i < p - 1 implies #[trigger] t[i].key > key by {
                assert(t[i] == s[i + 1]);
            }
            assert forall|i: int| p - 1 <= i < t.len() implies #[trigger] t[i].key <= key by {
                assert(t[i] == s[i + 1]);
            }
            lemma_leading_greater(t, key, p - 1);
        } else {
            assert(s[0].key <= key);
        }
    }
}

/// Every stamp of the sequence is below `bound`.
pub open spec fn stamps_below<T>(s: Seq<Entry<T>>, bound: u64) -> bool {
    forall|i: int| 0 <= i < s.len() ==> #[trigger] s[i].stamp < bound
}

/// Removing one entry keeps a sequence sorted, keeps its stamps below a
/// bound, and shifts the later entries.
pub proof fn lemma_remove_sorted<T>(s: Seq<Entry<T>>, k: int, bound: u64)
    requires
        sorted_desc(s),
        stamps_below(s, bound),
        0 <= k < s.len(),
    ensures
        sorted_desc(s.remove(k)),
        stamps_below(s.remove(k), bound),
        forall|j: int| 0 <= j < k ==> #[trigger] s.remove(k)[j] == s[j],
        forall|j: int| k <= j < s.len() - 1 ==> #[trigger] s.remove(k)[j] == s[j + 1],
{
    let t = s.remove(k);
    assert forall|i: int, j: int| 0 <= i < j < t.len() implies #[trigger] ranks_before(t[i], t[j]) by {
        let a = if i < k { i } else { i + 1 };
        let b = if j < k { j } else { j + 1 };
        assert(t[i] == s[a] && t[j] == s[b]);
        assert(ranks_before(s[a], s[b]));
    }
    assert forall|i: int| 0 <= i < t.len() implies #[trigger] t[i].stamp < bound by {
        let a = if i < k { i } else { i + 1 };
        assert(t[i] == s[a]);
    }
}

/// The identity of an entry: its key and its stamp.
pub open spec fn ident_of<T>(e: Entry<T>) -> (i64, u64) {
    (e.key, e.stamp)
}

/// The subtree whose root has identity `id`, searched for as in an ordered
/// tree: greater identities to the right, smaller to the left.
pub open spec fn find<T>(t: Link<T>, id: (i64, u64)) -> Link<T>
    decreases t,
{
    match t {
        None => None,
        Some(n) => if id.0 == n.key && id.1 == n.stamp {
            Some(n)
        } else if id.0 > n.key || (id.0 == n.key && id.1 > n.stamp) {
            find(n.right, id)
        } else {
            find(n.left, id)
        },
    }
}

/// The identities met from the root of `t` down its right links.
pub open spec fn right_spine<T>(t: Link<T>) -> Seq<(i64, u64)>
    decreases t,
{
    match t {
        None => Seq::empty(),
        Some(n) => seq![(n.key, n.stamp)] + right_spine(n.right),
    }
}

/// Every identity of the stack names a node of `t`.
pub open spec fn all_found<T>(t: Link<T>, ids: Seq<(i64, u64)>) -> bool {
    forall|i: int| 0 <= i < ids.len() ==> (#[trigger] find(t, ids[i])).is_some()
}

/// What a stack of pending identities has yet to yield over `t`: for each
/// identity from the top down, its node and then that node's left subtree.
pub open spec fn pending<T>(t: Link<T>, ids: Seq<(i64, u64)>) -> Seq<Entry<T>>
    decreases ids.len(),
{
    if ids.len() == 0 {
        Seq::empty()
    } else {
        match find(t, ids.last()) {
            None => Seq::empty(),
            Some(n) => seq![entry_of(*n)] + desc(n.left) + pending(t, ids.drop_last()),
        }
    }
}

/// While every identity of a stack names a node, the stack is no longer
/// than what it has yet to yield: each identity yields at least its node.
pub proof fn lemma_pending_len<T>(t: Link<T>, ids: Seq<(i64, u64)>)
    requires
        all_found(t, ids),
    ensures
        ids.len() <= pending(t, ids).len(),
    decreases ids.len(),
{
    if ids.len() > 0 {
        let rest = ids.drop_last();
        assert(find(t, ids[ids.len() - 1]).is_some());
        assert forall|i: int| 0 <= i < rest.len() implies (#[trigger] find(t, rest[i])).is_some() by {
            assert(rest[i] == ids[i]);
        }
        lemma_pending_len(t, rest);
    }
}

/// A node that a search finds holds the identity searched for, and its
/// entry is one of the tree's.
pub proof fn lemma_find_in<T>(t: Link<T>, id: (i64, u64))
    requires
        find(t, id).is_some(),
    ensures
        ident_of(entry_of(*find(t, id).unwrap())) == id,
        exists|i: int| 0 <= i < desc(t).len() && desc(t)[i] == entry_of(*find(t, id).unwrap()),
    decreases t,
{
    let n = t.unwrap();
    lemma_parts(n);
    if id.0 == n.key && id.1 == n.stamp {
        assert(desc(t)[desc(n.right).len() as int] == entry_of(*n));
    } else if id.0 > n.key || (id.0 == n.key && id.1 > n.stamp) {
        lemma_find_in(n.right, id);
        let i = choose|i: int| 0 <= i < desc(n.right).len() && desc(n.right)[i] == entry_of(*find(t, id).unwrap());
        assert(desc(t)[i] == desc(n.right)[i]);
    } else {
        lemma_find_in(n.left, id);
        let i = choose|i: int| 0 <= i < desc(n.left).len() && desc(n.left)[i] == entry_of(*find(t, id).unwrap());
        assert(desc(t)[desc(n.right).len() + 1 + i] == desc(n.left)[i]);
    }
}

/// In a sorted tree a search for the identity of any of its entries finds
/// the node holding that entry.
pub proof fn lemma_find_complete<T>(t: Link<T>, i: int)
    requires
        sorted_desc(desc(t)),
        0 <= i < desc(t).len(),
    ensures
        find(t, ident_of(desc(t)[i])).is_some(),
    decreases t,
{
    let n = t.unwrap();
    lemma_parts(n);
    lemma_split(n);
    let d = desc(t);
    let rl = desc(n.right).len() as int;
    if i < rl {
        assert(d[i] == desc(n.right)[i]);
        assert(ranks_before(d[i], entry_of(*n)));
        lemma_find_complete(n.right, i);
    } else if i > rl {
        assert(d[i] == desc(n.left)[i - rl - 1]);
        assert(ranks_before(entry_of(*n), d[i]));
        lemma_find_complete(n.left, i - rl - 1);
    }
}

/// In a sorted tree, the children of a node that a search finds are found
/// by a search too.
pub proof fn lemma_find_child<T>(t: Link<T>, p: Box<Node<T>>)
    requires
        sorted_desc(desc(t)),
        find(t, (p.key, p.stamp)) == Some(p),
    ensures
        p.left.is_some() ==> find(t, (p.left.unwrap().key, p.left.unwrap().stamp)) == p.left,
        p.right.is_some() ==> find(t, (p.right.unwrap().key, p.right.unwrap().stamp)) == p.right,
    decreases t,
{
    let n = t.unwrap();
    lemma_parts(n);
    lemma_split(n);
    if p.key == n.key && p.stamp == n.stamp {
        assert(p == n);
        if let Some(c) = p.left {
            lemma_parts(c);
            assert(desc(n.left)[desc(c.right).len() as int] == entry_of(*c));
            assert(ranks_before(entry_of(*n), entry_of(*c)));
            assert(find(n.left, (c.key, c.stamp)) == Some(c));
            assert(find(t, (c.key, c.stamp)) == find(n.left, (c.key, c.stamp)));
        }
        if let Some(c) = p.right {
            lemma_parts(c);
            assert(desc(n.right)[desc(c.right).len() as int] == entry_of(*c));
            assert(ranks_before(entry_of(*c), entry_of(*n)));
            assert(find(n.right, (c.key, c.stamp)) == Some(c));
            assert(find(t, (c.key, c.stamp)) == find(n.right, (c.key, c.stamp)));
        }
    } else if p.key > n.key || (p.key == n.key && p.stamp > n.stamp) {
        lemma_find_child(n.right, p);
        if let Some(c) = p.left {
            let id = (c.key, c.stamp);
            lemma_find_in(n.right, id);
            let i = choose|i: int| 0 <= i < desc(n.right).len() && desc(n.right)[i] == entry_of(*find(n.right, id).unwrap());
            assert(ranks_before(desc(n.right)[i], entry_of(*n)));
            assert(find(t, id) == find(n.right, id));
        }
        if let Some(c) = p.right {
            let id = (c.key, c.stamp);
            lemma_find_in(n.right, id);
            let i = choose|i: int| 0 <= i < desc(n.right).len() && desc(n.right)[i] == entry_of(*find(n.right, id).unwrap());
            assert(ranks_before(desc(n.right)[i], entry_of(*n)));
            assert(find(t, id) == find(n.right, id));
        }
    } else {
        lemma_find_child(n.left, p);
        if let Some(c) = p.left {
            let id = (c.key, c.stamp);
            lemma_find_in(n.left, id);
            let i = choose|i: int| 0 <= i < desc(n.left).len() && desc(n.left)[i] == entry_of(*find(n.left, id).unwrap());
            assert(ranks_before(entry_of(*n), desc(n.left)[i]));
            assert(find(t, id) == find(n.left, id));
        }
        if let Some(c) = p.right {
            let id = (c.key, c.stamp);
            lemma_find_in(n.left, id);
            let i = choose|i: int| 0 <= i < desc(n.left).len() && desc(n.left)[i] == entry_of(*find(n.left, id).unwrap());
            assert(ranks_before(entry_of(*n), desc(n.left)[i]));
            assert(find(t, id) == find(n.left, id));
        }
    }
}

/// Pushing the right spine of a subtree that searches find puts the whole
/// subtree, greatest first, in front of what was pending.
pub proof fn lemma_spine<T>(t: Link<T>, ids: Seq<(i64, u64)>, sub: Link<T>)
    requires
        sorted_desc(desc(t)),
        sub.is_some() ==> find(t, (sub.unwrap().key, sub.unwrap().stamp)) == sub,
    ensures
        pending(t, ids + right_spine(sub)) == desc(sub) + pending(t, ids),
        all_found(t, ids + right_spine(sub)) == all_found(t, ids),
    decreases sub,
{
    match sub {
        None => {
            assert(ids + right_spine(sub) =~= ids);
        },
        Some(n) => {
            lemma_find_child(t, n);
            let ids2 = ids.push((n.key, n.stamp));
            lemma_spine(t, ids2, n.right);
            assert(ids + right_spine(sub) =~= ids2 + right_spine(n.right));
            assert(ids2.drop_last() =~= ids);
            assert(pending(t, ids2) == seq![entry_of(*n)] + desc(n.left) + pending(t, ids));
            assert(desc(sub) + pending(t, ids) =~= desc(n.right) + (seq![entry_of(*n)] + desc(n.left) + pending(t, ids)));
            assert(all_found(t, ids2) == all_found(t, ids)) by {
                if all_found(t, ids) {
                    assert forall|i: int| 0 <= i < ids2.len() implies (#[trigger] find(t, ids2[i])).is_some() by {
                        if i < ids.len() {
                            assert(ids2[i] == ids[i]);
                        }
                    }
                }
                if all_found(t, ids2) {
                    assert forall|i: int| 0 <= i < ids.len() implies (#[trigger] find(t, ids[i])).is_some() by {
                        assert(ids2[i] == ids[i]);
                    }
                }
            }
        },
    }
}

/// Dropping the first entry of a sorted sequence whose stamps are below a
/// bound leaves the rest, still sorted and below the bound.
pub proof fn lemma_drop_first<T>(s: Seq<Entry<T>>, e: Entry<T>, rest: Seq<Entry<T>>, bound: u64)
    requires
        s == seq![e] + rest,
        sorted_desc(s),
        stamps_below(s, bound),
    ensures
        rest == s.drop_first(),
        sorted_desc(rest),
        stamps_below(rest, bound),
{
    assert(s.drop_first() =~= s.remove(0));
    assert(rest =~= s.remove(0));
    lemma_remove_sorted(s, 0, bound);
}

/// Dropping the last entry of a sorted sequence whose stamps are below a
/// bound leaves the rest, still sorted and below the bound.
pub proof fn lemma_drop_last<T>(s: Seq<Entry<T>>, rest: Seq<Entry<T>>, e: Entry<T>, bound: u64)
    requires
        s == rest + seq![e],
        sorted_desc(s),
        stamps_below(s, bound),
    ensures
        rest == s.drop_last(),
        sorted_desc(rest),
        stamps_below(rest, bound),
{
    let k = s.len() - 1;
    assert(s.drop_last() =~= s.remove(k));
    assert(rest =~= s.remove(k));
    lemma_remove_sorted(s, k, bound);
}

impl<T> Node<T> {
    /// The node reached from `node` by right links alone: the greatest of
    /// its subtree.
    pub fn rightmost(node: &Box<Node<T>>) -> (r: &Box<Node<T>>)
        ensures
            desc(Some(*node)).len() > 0,
            entry_of(**r) == desc(Some(*node))[0],
            r.right.is_none(),
    {
        let mut cur = node;
        loop
            invariant
                desc(Some(*cur)).len() > 0,
                desc(Some(*cur))[0] == desc(Some(*node))[0],
            ensures
                desc(Some(*cur))[0] == desc(Some(*node))[0],
                cur.right.is_none(),
            decreases desc(Some(*cur)).len(),
        {
            proof {
                lemma_parts(*cur);
            }
            match &cur.right {
                None => {
                    break;
                },
                Some(next) => {
                    proof {
                        lemma_parts(*next);
                    }
                    cur = next;
                },
            }
        }
        proof {
            lemma_parts(*cur);
        }
        cur
    }

    /// The node reached from `node` by left links alone: the least of its
    /// subtree.
    pub fn leftmost(node: &Box<Node<T>>) -> (r: &Box<Node<T>>)
        ensures
            desc(Some(*node)).len() > 0,
            entry_of(**r) == desc(Some(*node)).last(),
            r.left.is_none(),
    {
        let mut cur = node;
        loop
            invariant
                desc(Some(*cur)).len() > 0,
                desc(Some(*cur)).last() == desc(Some(*node)).last(),
            ensures
                desc(Some(*cur)).last() == desc(Some(*node)).last(),
                cur.left.is_none(),
            decreases desc(Some(*cur)).len(),
        {
            proof {
                lemma_parts(*cur);
            }
            match &cur.left {
                None => {
                    break;
                },
                Some(next) => {
                    proof {
                        lemma_parts(*next);
                    }
                    cur = next;
                },
            }
        }
        proof {
            lemma_parts(*cur);
        }
        cur
    }

    /// The node of `t` with identity `(key, stamp)`, found by a search from
    /// its root.
    pub fn find_node<'a>(t: &'a Link<T>, key: i64, stamp: u64) -> (r: Option<&'a Box<Node<T>>>)
        ensures
            r.is_some() == find(*t, (key, stamp)).is_some(),
            r.is_some() ==> *r.unwrap() == find(*t, (key, stamp)).unwrap(),
    {
        let mut cur = t;
        loop
            invariant
                find(*cur, (key, stamp)) == find(*t, (key, stamp)),
            decreases desc(*cur).len(),
        {
            match cur {
                None => {
                    return None;
                },
                Some(node) => {
                    proof {
                        lemma_parts(*node);
                    }
                    if key == node.key && stamp == node.stamp {
                        return Some(node);
                    } else if key > node.key || (key == node.key && stamp > node.stamp) {
                        cur = &node.right;
                    } else {
                        cur = &node.left;
                    }
                },
            }
        }
    }

    /// Pushes the identities met from the root of `t` down its right links.
    pub fn push_right_spine(stack: &mut Vec<(i64, u64)>, t: &Link<T>)
        ensures
            final(stack)@ == old(stack)@ + right_spine(*t),
    {
        let mut cur = t;
        loop
            invariant
                stack@ + right_spine(*cur) == old(stack)@ + right_spine(*t),
            decreases desc(*cur).len(),
        {
            match cur {
                None => {
                    proof {
                        assert(stack@ + right_spine(*cur) =~= stack@);
                    }
                    return;
                },
                Some(node) => {
                    proof {
                        lemma_parts(*node);
                        assert(stack@.push((node.key, node.stamp)) + right_spine(node.right)
                            =~= stack@ + right_spine(*cur));
                    }
                    stack.push((node.key, node.stamp));
                    cur = &node.right;
                },
            }
        }
    }

    /// Joins what was below a removed node: with both subtrees present, the
    /// lower one hangs from the leftmost node of the higher one, whose left
    /// slot is empty, and the higher one takes the removed node's place.
    pub fn splice_children(low: Link<T>, high: Link<T>) -> (r: Link<T>)
        ensures
            desc(r) == desc(high) + desc(low),
    {
        if low.is_none() {
            proof {
                assert(desc(high) + desc(low) =~= desc(high));
            }
            return high;
        }
        if high.is_none() {
            proof {
                assert(desc(high) + desc(low) =~= desc(low));
            }
            return low;
        }
        let mut high = high;
        let ghost old_high = desc(high);
        let ghost mut above: Seq<Entry<T>> = Seq::empty();
        let mut cur = &mut high;
        while cur.is_some()
            invariant
                old_high == above + desc(*cur),
                desc(after_borrow(high)) == above + desc(*final(cur)),
            decreases desc(*cur).len(),
        {
            let node = cur.as_mut().unwrap();
            proof {
                lemma_parts(*node);
                above = above + desc(node.right) + seq![entry_of(**node)];
            }
            cur = &mut node.left;
        }
        *cur = low;
        proof {
            assert(old_high =~= above);
        }
        high
    }
}

} // verus!
