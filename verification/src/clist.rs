//! Circular doubly linked lists. The nodes live in one table and link to each other by
//! position; a list is known by its head, the position of its first node (none for an
//! empty list). Several lists can share a table.
use vstd::prelude::*;

verus! {

/// A list node: the positions of the next and previous nodes; none for a node that was
/// never linked.
#[derive(Clone, Copy, Debug, PartialEq, Eq, Default)]
pub struct CListNode {
    pub next: Option<usize>,
    pub prev: Option<usize>,
}

/// What a traversal callback asks for.
#[derive(Clone, Copy, Debug, PartialEq, Eq)]
pub enum CListTraverseStatus {
    Cont,
    Exit,
}

/// The node `x` linked to `next` and `prev`.
pub open spec fn link(next: usize, prev: usize) -> CListNode {
    CListNode { next: Some(next), prev: Some(prev) }
}

/// The nodes with the `next` link of node `at` set to `to`.
pub open spec fn set_next(nodes: Seq<CListNode>, at: usize, to: usize) -> Seq<CListNode> {
    nodes.update(at as int, CListNode { next: Some(to), ..nodes[at as int] })
}

/// The nodes with the `prev` link of node `at` set to `to`.
pub open spec fn set_prev(nodes: Seq<CListNode>, at: usize, to: usize) -> Seq<CListNode> {
    nodes.update(at as int, CListNode { prev: Some(to), ..nodes[at as int] })
}

/// The position after `k` in a ring of `n`.
pub open spec fn ring_next(k: int, n: int) -> int {
    if k + 1 == n { 0 } else { k + 1 }
}

/// The position before `k` in a ring of `n`.
pub open spec fn ring_prev(k: int, n: int) -> int {
    if k == 0 { n - 1 } else { k - 1 }
}

/// The nodes at positions `s`, in this order, form the circular list whose head is
/// `head`: each links to the next one and back to the previous one, the last to the
/// first.
pub open spec fn clist_wf(nodes: Seq<CListNode>, head: Option<usize>, s: Seq<usize>) -> bool {
    &&& s.no_duplicates()
    &&& forall|k: int| 0 <= k < s.len() ==> #[trigger] s[k] < nodes.len()
    &&& head == (if s.len() == 0 { None::<usize> } else { Some(s[0]) })
    &&& forall|k: int|
        0 <= k < s.len() ==> (#[trigger] nodes[s[k] as int]).next == Some(s[ring_next(k, s.len() as int)])
            && nodes[s[k] as int].prev == Some(s[ring_prev(k, s.len() as int)])
}

/// Links a node to itself alone.
pub fn cf_clist_init_node(nodes: &mut Vec<CListNode>, node: usize)
    requires
        node < old(nodes)@.len(),
    ensures
        final(nodes)@ == old(nodes)@.update(node as int, link(node, node)),
{
    nodes.set(node, CListNode { next: Some(node), prev: Some(node) });
}

/// The nodes after linking `node` in before `h`, the head, whose previous node is `t`:
/// the writes of an insertion at the front or the back.
pub open spec fn splice_before(nodes: Seq<CListNode>, node: usize, h: usize, t: usize) -> Seq<CListNode> {
    set_next(set_prev(nodes.update(node as int, link(h, t)), h, node), t, node)
}

/// The head's previous node, when the head is linked.
fn cf_clist_tail(nodes: &Vec<CListNode>, h: usize) -> (t: Option<usize>)
    requires
        h < nodes@.len(),
    ensures
        t == nodes@[h as int].prev,
{
    nodes[h].prev
}

/// The effect of inserting `node` at the front of the list at `head`.
pub open spec fn insert_front_spec(nodes: Seq<CListNode>, head: Option<usize>, node: usize) -> (Seq<CListNode>, Option<usize>) {
    match head {
        None => (nodes.update(node as int, link(node, node)), Some(node)),
        Some(h) => (splice_before(nodes, node, h, nodes[h as int].prev.unwrap()), Some(node)),
    }
}

/// The effect of inserting `node` at the back of the list at `head`.
pub open spec fn insert_back_spec(nodes: Seq<CListNode>, head: Option<usize>, node: usize) -> (Seq<CListNode>, Option<usize>) {
    match head {
        None => (nodes.update(node as int, link(node, node)), Some(node)),
        Some(h) => (splice_before(nodes, node, h, nodes[h as int].prev.unwrap()), Some(h)),
    }
}

/// The head, when there is one, and its previous node are in the table.
pub open spec fn head_linked(nodes: Seq<CListNode>, head: Option<usize>) -> bool {
    match head {
        None => true,
        Some(h) => h < nodes.len() && nodes[h as int].prev is Some && nodes[h as int].prev.unwrap()
            < nodes.len(),
    }
}

/// Writes `node` in before `h`, whose previous node is `t`.
fn cf_clist_splice_before(nodes: &mut Vec<CListNode>, node: usize, h: usize, t: usize)
    requires
        node < old(nodes)@.len(),
        h < old(nodes)@.len(),
        t < old(nodes)@.len(),
    ensures
        final(nodes)@ == splice_before(old(nodes)@, node, h, t),
{
    nodes.set(node, CListNode { next: Some(h), prev: Some(t) });
    let hn = nodes[h];
    nodes.set(h, CListNode { prev: Some(node), ..hn });
    let tn = nodes[t];
    nodes.set(t, CListNode { next: Some(node), ..tn });
}

/// Inserts `node` at the front of the list at `head`; it becomes the head.
pub fn cf_clist_insert_front(nodes: &mut Vec<CListNode>, head: &mut Option<usize>, node: usize)
    requires
        node < old(nodes)@.len(),
        head_linked(old(nodes)@, *old(head)),
    ensures
        (final(nodes)@, *final(head)) == insert_front_spec(old(nodes)@, *old(head), node),
{
    match *head {
        None => {
            cf_clist_init_node(nodes, node);
            *head = Some(node);
        },
        Some(h) => {
            let t = cf_clist_tail(nodes, h).unwrap();
            cf_clist_splice_before(nodes, node, h, t);
            *head = Some(node);
        },
    }
}

/// Inserts `node` at the back of the list at `head`.
pub fn cf_clist_insert_back(nodes: &mut Vec<CListNode>, head: &mut Option<usize>, node: usize)
    requires
        node < old(nodes)@.len(),
        head_linked(old(nodes)@, *old(head)),
    ensures
        (final(nodes)@, *final(head)) == insert_back_spec(old(nodes)@, *old(head), node),
{
    match *head {
        None => {
            cf_clist_init_node(nodes, node);
            *head = Some(node);
        },
        Some(h) => {
            let t = cf_clist_tail(nodes, h).unwrap();
            cf_clist_splice_before(nodes, node, h, t);
        },
    }
}


/// The node at `x` is in the table and links to nodes in the table.
pub open spec fn node_linked(nodes: Seq<CListNode>, x: usize) -> bool {
    &&& x < nodes.len()
    &&& nodes[x as int].next is Some
    &&& nodes[x as int].prev is Some
    &&& nodes[x as int].next.unwrap() < nodes.len()
    &&& nodes[x as int].prev.unwrap() < nodes.len()
}

/// The effect of unlinking `node` from the list at `head`: its neighbours link to each
/// other, and the head moves on when it was `node`; a node linked to itself leaves the
/// list empty. The node's own links stay as they were.
pub open spec fn remove_spec(nodes: Seq<CListNode>, head: Option<usize>, node: usize) -> (Seq<CListNode>, Option<usize>) {
    let n = nodes[node as int].next.unwrap();
    let p = nodes[node as int].prev.unwrap();
    if n == node {
        (nodes, None)
    } else {
        (set_next(set_prev(nodes, n, p), p, n), if head == Some(node) { Some(n) } else { head })
    }
}

/// The effect of taking the head off the list at `head`: the new table and head, and the
/// node taken, if any.
pub open spec fn pop_spec(nodes: Seq<CListNode>, head: Option<usize>) -> (Seq<CListNode>, Option<usize>, Option<usize>) {
    match head {
        None => (nodes, None, None),
        Some(h) => {
            let r = remove_spec(nodes, head, h);
            (r.0, r.1, Some(h))
        },
    }
}

/// Unlinks `node` from the list at `head` (see `remove_spec`).
pub fn cf_clist_remove(nodes: &mut Vec<CListNode>, head: &mut Option<usize>, node: usize)
    requires
        node_linked(old(nodes)@, node),
    ensures
        (final(nodes)@, *final(head)) == remove_spec(old(nodes)@, *old(head), node),
{
    let n = nodes[node].next.unwrap();
    let p = nodes[node].prev.unwrap();
    if n == node {
        *head = None;
    } else {
        let nn = nodes[n];
        nodes.set(n, CListNode { prev: Some(p), ..nn });
        let pn = nodes[p];
        nodes.set(p, CListNode { next: Some(n), ..pn });
        if *head == Some(node) {
            *head = Some(n);
        }
    }
}

/// Takes the head off the list at `head` and returns it; none for an empty list.
pub fn cf_clist_pop(nodes: &mut Vec<CListNode>, head: &mut Option<usize>) -> (r: Option<usize>)
    requires
        match *old(head) {
            None => true,
            Some(h) => node_linked(old(nodes)@, h),
        },
    ensures
        (final(nodes)@, *final(head), r) == pop_spec(old(nodes)@, *old(head)),
{
    match *head {
        None => None,
        Some(h) => {
            cf_clist_remove(nodes, head, h);
            Some(h)
        },
    }
}

/// The effect of linking `after` in right after `start`.
pub open spec fn insert_after_spec(nodes: Seq<CListNode>, start: usize, after: usize) -> Seq<CListNode> {
    let n = nodes[start as int].next.unwrap();
    set_prev(set_next(nodes.update(after as int, link(n, start)), start, after), n, after)
}

/// Links `after` in right after `start`.
pub fn cf_clist_insert_after(nodes: &mut Vec<CListNode>, head: &mut Option<usize>, start: usize, after: usize)
    requires
        node_linked(old(nodes)@, start),
        after < old(nodes)@.len(),
    ensures
        final(nodes)@ == insert_after_spec(old(nodes)@, start, after),
        *final(head) == *old(head),
{
    let n = nodes[start].next.unwrap();
    nodes.set(after, CListNode { next: Some(n), prev: Some(start) });
    let sn = nodes[start];
    nodes.set(start, CListNode { next: Some(after), ..sn });
    let nn = nodes[n];
    nodes.set(n, CListNode { prev: Some(after), ..nn });
}


/// A well-formed list's head is linked (the operations' precondition).
pub proof fn lemma_wf_head_linked(nodes: Seq<CListNode>, head: Option<usize>, s: Seq<usize>)
    requires
        clist_wf(nodes, head, s),
    ensures
        head_linked(nodes, head),
        forall|k: int| 0 <= k < s.len() ==> node_linked(nodes, #[trigger] s[k]),
{
    assert forall|k: int| 0 <= k < s.len() implies node_linked(nodes, #[trigger] s[k]) by {
        assert(nodes[s[k] as int].next == Some(s[ring_next(k, s.len() as int)]));
        assert(s[ring_next(k, s.len() as int)] < nodes.len());
        assert(s[ring_prev(k, s.len() as int)] < nodes.len());
    }
    if s.len() > 0 {
        assert(node_linked(nodes, s[0]));
    }
}

/// Two descriptions of the same list agree up to the shorter one's length.
proof fn lemma_clist_prefix_eq(nodes: Seq<CListNode>, head: Option<usize>, s1: Seq<usize>, s2: Seq<usize>, i: int)
    requires
        clist_wf(nodes, head, s1),
        clist_wf(nodes, head, s2),
        0 <= i < s1.len(),
        i < s2.len(),
    ensures
        s1[i] == s2[i],
    decreases i,
{
    if i > 0 {
        lemma_clist_prefix_eq(nodes, head, s1, s2, i - 1);
        assert(nodes[s1[i - 1] as int].next == Some(s1[ring_next(i - 1, s1.len() as int)]));
        assert(nodes[s2[i - 1] as int].next == Some(s2[ring_next(i - 1, s2.len() as int)]));
    }
}

/// A list is determined by the table and its head: two sequences that both describe it
/// are the same.
pub proof fn lemma_clist_unique(nodes: Seq<CListNode>, head: Option<usize>, s1: Seq<usize>, s2: Seq<usize>)
    requires
        clist_wf(nodes, head, s1),
        clist_wf(nodes, head, s2),
    ensures
        s1 == s2,
{
    if s1.len() > 0 && s2.len() > 0 {
        let n1 = s1.len() as int;
        let n2 = s2.len() as int;
        if n1 < n2 {
            lemma_clist_prefix_eq(nodes, head, s1, s2, n1 - 1);
            assert(nodes[s1[n1 - 1] as int].next == Some(s1[0]));
            assert(nodes[s2[n1 - 1] as int].next == Some(s2[ring_next(n1 - 1, n2)]));
            assert(s2[n1] == s2[0]);
        }
        if n2 < n1 {
            lemma_clist_prefix_eq(nodes, head, s1, s2, n2 - 1);
            assert(nodes[s2[n2 - 1] as int].next == Some(s2[0]));
            assert(nodes[s1[n2 - 1] as int].next == Some(s1[ring_next(n2 - 1, n1)]));
            assert(s1[n2] == s1[0]);
        }
        assert forall|i: int| 0 <= i < n1 implies s1[i] == s2[i] by {
            lemma_clist_prefix_eq(nodes, head, s1, s2, i);
        }
    }
    assert(s1 =~= s2);
}

/// The insertion law: inserting a node that is not in a list at its back makes it the
/// last node of the list; the nodes outside the list stay as they were.
pub proof fn law_clist_insert_back(nodes: Seq<CListNode>, head: Option<usize>, s: Seq<usize>, node: usize)
    requires
        clist_wf(nodes, head, s),
        node < nodes.len(),
        !s.contains(node),
    ensures
        clist_wf(insert_back_spec(nodes, head, node).0, insert_back_spec(nodes, head, node).1, s.push(node)),
        forall|x: int|
            0 <= x < nodes.len() && x != node && !s.contains(x as usize) ==> #[trigger] insert_back_spec(
                nodes,
                head,
                node,
            ).0[x] == nodes[x],
{
    let r = insert_back_spec(nodes, head, node);
    let s2 = s.push(node);
    let n = s.len() as int;
    if n == 0 {
        assert(s2 =~= seq![node]);
        assert(s2.no_duplicates());
    } else {
        let h = s[0];
        let t = s[n - 1];
        assert(nodes[h as int].prev == Some(s[ring_prev(0, n)]));
        let m = r.0;
        assert(s2.no_duplicates()) by {
            assert forall|a: int, b: int| 0 <= a < b < s2.len() implies s2[a] != s2[b] by {
                if b == n {
                    assert(s.contains(s[a]));
                }
            }
        }
        assert forall|k: int| 0 <= k < s2.len() implies #[trigger] s2[k] < m.len() by {}
        assert forall|k: int| 0 <= k < s2.len() implies (#[trigger] m[s2[k] as int]).next == Some(
            s2[ring_next(k, s2.len() as int)],
        ) && m[s2[k] as int].prev == Some(s2[ring_prev(k, s2.len() as int)]) by {
            if k == n {
            } else {
                assert(s2[k] == s[k]);
                assert(s[k] != node) by {
                    assert(s.contains(s[k]));
                }
                if k == 0 && n == 1 {
                } else if k == 0 {
                    assert(s[k] != t) by {
                        assert(s.no_duplicates());
                    }
                    assert(s2[ring_next(k, n + 1)] == s[ring_next(k, n)]);
                } else if k == n - 1 {
                    assert(s[k] != h);
                    assert(s2[ring_prev(k, n + 1)] == s[ring_prev(k, n)]);
                } else {
                    assert(s[k] != h && s[k] != t);
                    assert(s2[ring_next(k, n + 1)] == s[ring_next(k, n)]);
                    assert(s2[ring_prev(k, n + 1)] == s[ring_prev(k, n)]);
                }
            }
        }
        assert forall|x: int|
            0 <= x < nodes.len() && x != node && !s.contains(x as usize) implies #[trigger] m[x] == nodes[x] by {
            assert(s.contains(h));
            assert(s.contains(t));
        }
    }
}


/// Inserting a node that is not in a list at its front makes it the head, followed by
/// the list; the nodes outside the list stay as they were.
pub proof fn law_clist_insert_front(nodes: Seq<CListNode>, head: Option<usize>, s: Seq<usize>, node: usize)
    requires
        clist_wf(nodes, head, s),
        node < nodes.len(),
        !s.contains(node),
    ensures
        clist_wf(insert_front_spec(nodes, head, node).0, insert_front_spec(nodes, head, node).1, seq![node] + s),
        forall|x: int|
            0 <= x < nodes.len() && x != node && !s.contains(x as usize) ==> #[trigger] insert_front_spec(
                nodes,
                head,
                node,
            ).0[x] == nodes[x],
{
    let r = insert_front_spec(nodes, head, node);
    let s2 = seq![node] + s;
    let n = s.len() as int;
    if n == 0 {
        assert(s2 =~= seq![node]);
        assert(s2.no_duplicates());
    } else {
        let h = s[0];
        let t = s[n - 1];
        assert(nodes[h as int].prev == Some(s[ring_prev(0, n)]));
        let m = r.0;
        assert(s2.no_duplicates()) by {
            assert forall|a: int, b: int| 0 <= a < b < s2.len() implies s2[a] != s2[b] by {
                if a == 0 {
                    assert(s.contains(s[b - 1]));
                } else {
                    assert(s2[a] == s[a - 1] && s2[b] == s[b - 1]);
                }
            }
        }
        assert forall|k: int| 0 <= k < s2.len() implies #[trigger] s2[k] < m.len() by {
            if k > 0 {
                assert(s2[k] == s[k - 1]);
            }
        }
        assert forall|k: int| 0 <= k < s2.len() implies (#[trigger] m[s2[k] as int]).next == Some(
            s2[ring_next(k, s2.len() as int)],
        ) && m[s2[k] as int].prev == Some(s2[ring_prev(k, s2.len() as int)]) by {
            if k > 0 {
                let j = k - 1;
                assert(s2[k] == s[j]);
                assert(s[j] != node) by {
                    assert(s.contains(s[j]));
                }
                if n == 1 {
                } else if j == 0 {
                    assert(s[j] != t);
                    assert(s2[ring_next(k, n + 1)] == s[ring_next(j, n)]);
                } else if j == n - 1 {
                    assert(s[j] != h);
                    assert(s2[ring_prev(k, n + 1)] == s[ring_prev(j, n)]);
                } else {
                    assert(s[j] != h && s[j] != t);
                    assert(s2[ring_next(k, n + 1)] == s[ring_next(j, n)]);
                    assert(s2[ring_prev(k, n + 1)] == s[ring_prev(j, n)]);
                }
            }
        }
        assert forall|x: int|
            0 <= x < nodes.len() && x != node && !s.contains(x as usize) implies #[trigger] m[x] == nodes[x] by {
            assert(s.contains(h));
            assert(s.contains(t));
        }
    }
}

/// The removal law: unlinking the node at position `k` of a list leaves the list without
/// it (the head moving on when it was the head); the nodes outside the list, the removed
/// one included, stay as they were.
pub proof fn law_clist_remove(nodes: Seq<CListNode>, head: Option<usize>, s: Seq<usize>, k: int)
    requires
        clist_wf(nodes, head, s),
        0 <= k < s.len(),
    ensures
        clist_wf(remove_spec(nodes, head, s[k]).0, remove_spec(nodes, head, s[k]).1, s.remove(k)),
        forall|x: int|
            0 <= x < nodes.len() && (x == s[k] || !s.contains(x as usize)) ==> #[trigger] remove_spec(
                nodes,
                head,
                s[k],
            ).0[x] == nodes[x],
{
    let n = s.len() as int;
    let node = s[k];
    let r = remove_spec(nodes, head, node);
    let s2 = s.remove(k);
    let nx = s[ring_next(k, n)];
    let p = s[ring_prev(k, n)];
    assert(nodes[node as int].next == Some(nx));
    assert(nodes[node as int].prev == Some(p));
    if n == 1 {
        assert(s2 =~= Seq::<usize>::empty());
    } else {
        assert(nx != node);
        assert(p != node);
        let m = r.0;
        assert(s2.no_duplicates()) by {
            assert forall|a: int, b: int| 0 <= a < b < s2.len() implies s2[a] != s2[b] by {
                let oa = if a < k { a } else { a + 1 };
                let ob = if b < k { b } else { b + 1 };
                assert(s2[a] == s[oa] && s2[b] == s[ob]);
            }
        }
        assert forall|j: int| 0 <= j < s2.len() implies #[trigger] s2[j] < m.len() by {
            let o = if j < k { j } else { j + 1 };
            assert(s2[j] == s[o]);
        }
        assert forall|j: int| 0 <= j < s2.len() implies (#[trigger] m[s2[j] as int]).next == Some(
            s2[ring_next(j, s2.len() as int)],
        ) && m[s2[j] as int].prev == Some(s2[ring_prev(j, s2.len() as int)]) by {
            let o = if j < k { j } else { j + 1 };
            assert(s2[j] == s[o]);
            let jn = ring_next(j, n - 1);
            let jp = ring_prev(j, n - 1);
            let on = if jn < k { jn } else { jn + 1 };
            let op = if jp < k { jp } else { jp + 1 };
            assert(s2[jn] == s[on]);
            assert(s2[jp] == s[op]);
            if o == ring_next(k, n) && o == ring_prev(k, n) {
            } else if o == ring_next(k, n) {
                assert(s[o] != p);
                assert(nodes[s[o] as int].next == Some(s[ring_next(o, n)]));
            } else if o == ring_prev(k, n) {
                assert(s[o] != nx);
                assert(nodes[s[o] as int].prev == Some(s[ring_prev(o, n)]));
            } else {
                assert(s[o] != nx && s[o] != p);
                assert(nodes[s[o] as int].next == Some(s[ring_next(o, n)]));
                assert(nodes[s[o] as int].prev == Some(s[ring_prev(o, n)]));
            }
        }
        assert forall|x: int|
            0 <= x < nodes.len() && (x == s[k] || !s.contains(x as usize)) implies #[trigger] m[x] == nodes[x] by {
            assert(s.contains(nx));
            assert(s.contains(p));
        }
        if k == 0 {
            assert(s2[0] == s[1]);
        } else {
            assert(s2[0] == s[0]);
            assert(s[0] != node);
        }
    }
}

/// The pop law: popping a list takes off its head and returns it; the rest stays a list.
pub proof fn law_clist_pop(nodes: Seq<CListNode>, head: Option<usize>, s: Seq<usize>)
    requires
        clist_wf(nodes, head, s),
    ensures
        s.len() == 0 ==> pop_spec(nodes, head) == (nodes, None::<usize>, None::<usize>),
        s.len() > 0 ==> pop_spec(nodes, head).2 == Some(s[0]) && clist_wf(
            pop_spec(nodes, head).0,
            pop_spec(nodes, head).1,
            s.drop_first(),
        ),
{
    if s.len() > 0 {
        law_clist_remove(nodes, head, s, 0);
        assert(s.remove(0) =~= s.drop_first());
    }
}

/// The insert-after law: linking a node that is not in a list right after the node at
/// position `k` puts it at position `k + 1`; the head stays, and the nodes outside the
/// list stay as they were.
pub proof fn law_clist_insert_after(nodes: Seq<CListNode>, head: Option<usize>, s: Seq<usize>, k: int, after: usize)
    requires
        clist_wf(nodes, head, s),
        0 <= k < s.len(),
        after < nodes.len(),
        !s.contains(after),
    ensures
        clist_wf(insert_after_spec(nodes, s[k], after), head, s.insert(k + 1, after)),
        forall|x: int|
            0 <= x < nodes.len() && x != after && !s.contains(x as usize) ==> #[trigger] insert_after_spec(
                nodes,
                s[k],
                after,
            )[x] == nodes[x],
{
    let n = s.len() as int;
    let start = s[k];
    let nx = s[ring_next(k, n)];
    assert(nodes[start as int].next == Some(nx));
    let m = insert_after_spec(nodes, start, after);
    let s2 = s.insert(k + 1, after);
    assert(start != after && nx != after) by {
        assert(s.contains(start));
        assert(s.contains(nx));
    }
    assert(s2.no_duplicates()) by {
        assert forall|a: int, b: int| 0 <= a < b < s2.len() implies s2[a] != s2[b] by {
            let oa = if a <= k { a } else { a - 1 };
            let ob = if b <= k { b } else { b - 1 };
            if a == k + 1 {
                assert(s2[b] == s[ob]);
                assert(s.contains(s[ob]));
            } else if b == k + 1 {
                assert(s2[a] == s[oa]);
                assert(s.contains(s[oa]));
            } else {
                assert(s2[a] == s[oa] && s2[b] == s[ob]);
            }
        }
    }
    assert forall|j: int| 0 <= j < s2.len() implies #[trigger] s2[j] < m.len() by {
        if j != k + 1 {
            let o = if j <= k { j } else { j - 1 };
            assert(s2[j] == s[o]);
        }
    }
    assert forall|j: int| 0 <= j < s2.len() implies (#[trigger] m[s2[j] as int]).next == Some(
        s2[ring_next(j, s2.len() as int)],
    ) && m[s2[j] as int].prev == Some(s2[ring_prev(j, s2.len() as int)]) by {
        let jn = ring_next(j, n + 1);
        let jp = ring_prev(j, n + 1);
        if j == k + 1 {
            if k + 1 == n {
                assert(s2[0] == s[0]);
            } else {
                assert(s2[k + 2] == s[k + 1]);
            }
            assert(s2[k] == s[k]);
        } else {
            let o = if j <= k { j } else { j - 1 };
            assert(s2[j] == s[o]);
            let on = if jn <= k { jn } else { jn - 1 };
            let op = if jp <= k { jp } else { jp - 1 };
            if jn != k + 1 {
                assert(s2[jn] == s[on]);
            }
            if jp != k + 1 {
                assert(s2[jp] == s[op]);
            }
            assert(nodes[s[o] as int].next == Some(s[ring_next(o, n)]));
            assert(nodes[s[o] as int].prev == Some(s[ring_prev(o, n)]));
            if o == k && o == ring_next(k, n) {
            } else if o == k {
                assert(s[o] != nx);
            } else if o == ring_next(k, n) {
                assert(s[o] != start);
            } else {
                assert(s[o] != start && s[o] != nx);
            }
        }
    }
    assert forall|x: int|
        0 <= x < nodes.len() && x != after && !s.contains(x as usize) implies #[trigger] m[x] == nodes[x] by {
        assert(s.contains(start));
        assert(s.contains(nx));
    }
    if n > 0 {
        assert(s2[0] == s[0]);
    }
}


/// One call of a traversal callback: the table, node and context it got, and what it
/// returned.
pub struct TravCall<C> {
    pub nodes_in: Vec<CListNode>,
    pub node: usize,
    pub ctx_in: C,
    pub nodes_out: Vec<CListNode>,
    pub ctx_out: C,
    pub status: CListTraverseStatus,
}

/// The link a traversal follows from `n`: `next` forwards, `prev` backwards.
pub open spec fn walk_link(n: CListNode, forward: bool) -> Option<usize> {
    if forward { n.next } else { n.prev }
}

/// The link followed from node `x` of the table `v`, when `x` is in the table.
pub open spec fn link_at(v: Seq<CListNode>, x: usize, forward: bool) -> Option<usize> {
    if x < v.len() { walk_link(v[x as int], forward) } else { None }
}

/// The node that the call `c` hands on to (its link, read before the call).
pub open spec fn call_next<C>(c: TravCall<C>, forward: bool) -> Option<usize> {
    link_at(c.nodes_in@, c.node, forward)
}

/// The node at which the traversal stops, before call `i` of `calls`: `end` to start
/// with, moved on when the callback unlinks the node it was at.
pub open spec fn trace_end<C>(calls: Seq<TravCall<C>>, end0: usize, forward: bool, i: int) -> usize
    decreases i,
{
    if i <= 0 {
        end0
    } else {
        let prev_end = trace_end(calls, end0, forward, i - 1);
        let c = calls[i - 1];
        if prev_end == c.node && link_at(c.nodes_out@, c.node, forward) != call_next(c, forward) {
            call_next(c, forward).unwrap()
        } else {
            prev_end
        }
    }
}

/// The traversal goes on after call `i`: the callback asked to continue, the node it
/// was at linked on to a node in the table, and that node was not where it stops.
pub open spec fn trace_goes_on<C>(calls: Seq<TravCall<C>>, end0: usize, forward: bool, i: int) -> bool {
    let c = calls[i];
    &&& c.status == CListTraverseStatus::Cont
    &&& call_next(c, forward) is Some
    &&& call_next(c, forward).unwrap() < c.nodes_out@.len()
    &&& call_next(c, forward) != Some(trace_end(calls, end0, forward, i))
}

/// Call `i + 1` of `calls` follows on from call `i`: the traversal went on, and the call
/// got the table and context that call `i` returned, at the node that it linked on to.
pub open spec fn trace_link<C>(calls: Seq<TravCall<C>>, end0: usize, forward: bool, i: int) -> bool {
    &&& trace_goes_on(calls, end0, forward, i)
    &&& calls[i + 1].nodes_in == calls[i].nodes_out
    &&& calls[i + 1].ctx_in == calls[i].ctx_out
    &&& Some(calls[i + 1].node) == call_next(calls[i], forward)
}

/// `calls` are the callback calls of a traversal of the table `nodes` with context `ctx`
/// that begins at `first` and stops at `end0`: each call gets what the previous one
/// returned and the node it linked on to, each is a possible run of the callback, and
/// the traversal goes on exactly until the last call, or until it has made one call per
/// node of the table.
pub open spec fn trace_ok<C, F: Fn(Vec<CListNode>, usize, C) -> (Vec<CListNode>, C, CListTraverseStatus)>(
    func: F,
    nodes: Vec<CListNode>,
    ctx: C,
    first: usize,
    end0: usize,
    forward: bool,
    calls: Seq<TravCall<C>>,
) -> bool {
    &&& calls.len() > 0
    &&& calls[0].nodes_in == nodes
    &&& calls[0].ctx_in == ctx
    &&& calls[0].node == first
    &&& forall|i: int|
        0 <= i < calls.len() ==> call_ensures(
            func,
            ((#[trigger] calls[i]).nodes_in, calls[i].node, calls[i].ctx_in),
            (calls[i].nodes_out, calls[i].ctx_out, calls[i].status),
        )
    &&& forall|i: int| 0 <= i < calls.len() - 1 ==> #[trigger] trace_link(calls, end0, forward, i)
    &&& calls.len() <= nodes@.len()
    &&& (!trace_goes_on(calls, end0, forward, calls.len() - 1) || calls.len() == nodes@.len())
}

/// Walks the list from `first` (stopping before `end`) in the given direction, calling
/// `func` on each node, as `cf_clist_traverse` and `cf_clist_traverse_r` describe.
fn cf_clist_walk<C, F>(
    nodes: Vec<CListNode>,
    first: usize,
    end: usize,
    forward: bool,
    func: F,
    context: C,
) -> (r: (Vec<CListNode>, C))
    where
        F: Fn(Vec<CListNode>, usize, C) -> (Vec<CListNode>, C, CListTraverseStatus),
    requires
        first < nodes@.len(),
        forall|v: Vec<CListNode>, x: usize, c: C| x < v@.len() ==> call_requires(func, (v, x, c)),
    ensures
        exists|calls: Seq<TravCall<C>>|
            trace_ok(func, nodes, context, first, end, forward, calls) && r == (
                calls.last().nodes_out,
                calls.last().ctx_out,
            ),
{
    let ghost nodes0 = nodes;
    let ghost ctx0 = context;
    let ghost end0 = end;
    let mut nodes = nodes;
    let mut context = context;
    let mut node = first;
    let mut end = end;
    let ghost mut calls: Seq<TravCall<C>> = Seq::empty();
    let budget = nodes.len();
    let mut visits: usize = 0;
    loop
        invariant_except_break
            forall|v: Vec<CListNode>, x: usize, c: C| x < v@.len() ==> call_requires(func, (v, x, c)),
            node < nodes@.len(),
            budget == nodes0@.len(),
            visits == calls.len(),
            visits < budget,
            calls.len() == 0 ==> nodes == nodes0 && context == ctx0 && node == first,
            calls.len() > 0 ==> ({
                &&& calls[0].nodes_in == nodes0
                &&& calls[0].ctx_in == ctx0
                &&& calls[0].node == first
                &&& nodes == calls.last().nodes_out
                &&& context == calls.last().ctx_out
                &&& trace_goes_on(calls, end0, forward, calls.len() - 1)
                &&& Some(node) == call_next(calls.last(), forward)
            }),
            end == trace_end(calls, end0, forward, calls.len() as int),
            forall|i: int|
                0 <= i < calls.len() ==> call_ensures(
                    func,
                    ((#[trigger] calls[i]).nodes_in, calls[i].node, calls[i].ctx_in),
                    (calls[i].nodes_out, calls[i].ctx_out, calls[i].status),
                ),
            forall|i: int| 0 <= i < calls.len() - 1 ==> #[trigger] trace_link(calls, end0, forward, i),
        ensures
            trace_ok(func, nodes0, ctx0, first, end0, forward, calls),
            nodes == calls.last().nodes_out,
            context == calls.last().ctx_out,
        decreases budget - visits,
    {
        let node_next = if forward { nodes[node].next } else { nodes[node].prev };
        let last = node_next == Some(end);
        let ghost nodes_in = nodes;
        let ghost ctx_in = context;
        let ghost old_calls = calls;
        let ghost old_end = end;
        let (nodes_out, ctx_out, status) = func(nodes, node, context);
        let ghost call = TravCall {
            nodes_in,
            node,
            ctx_in,
            nodes_out,
            ctx_out,
            status,
        };
        nodes = nodes_out;
        context = ctx_out;
        proof {
            calls = calls.push(call);
            assert forall|i: int| 0 <= i <= old_calls.len() implies trace_end(calls, end0, forward, i)
                == trace_end(old_calls, end0, forward, i) by {
                lemma_trace_end_prefix(old_calls, call, end0, forward, i);
            }
            assert(call_next(call, forward) == node_next);
            assert forall|i: int| 0 <= i < calls.len() implies call_ensures(
                func,
                ((#[trigger] calls[i]).nodes_in, calls[i].node, calls[i].ctx_in),
                (calls[i].nodes_out, calls[i].ctx_out, calls[i].status),
            ) by {
                if i < old_calls.len() {
                    assert(calls[i] == old_calls[i]);
                }
            }
            assert forall|i: int| 0 <= i < calls.len() - 1 implies #[trigger] trace_link(calls, end0, forward, i) by {
                assert(calls[i] == old_calls[i]);
                assert(trace_end(calls, end0, forward, i) == trace_end(old_calls, end0, forward, i));
                if i + 1 < old_calls.len() {
                    assert(calls[i + 1] == old_calls[i + 1]);
                    assert(trace_link(old_calls, end0, forward, i));
                } else {
                    assert(i == old_calls.len() - 1);
                    assert(calls[i + 1] == call);
                    assert(old_calls.last() == old_calls[i]);
                }
            }
            assert(calls[0].nodes_in == nodes0 && calls[0].ctx_in == ctx0 && calls[0].node == first) by {
                if old_calls.len() > 0 {
                    assert(calls[0] == old_calls[0]);
                }
            }
        }
        assert(trace_end(calls, end0, forward, calls.len() - 1) == old_end);
        visits = visits + 1;
        if let CListTraverseStatus::Exit = status {
            break;
        }
        let after = if node < nodes.len() {
            if forward { nodes[node].next } else { nodes[node].prev }
        } else {
            None
        };
        assert(after == link_at(call.nodes_out@, call.node, forward));
        if end == node && after != node_next {
            match node_next {
                Some(x) => {
                    end = x;
                },
                None => {},
            }
        }
        match node_next {
            Some(x) => {
                if last || x >= nodes.len() || visits == budget {
                    assert(calls[calls.len() - 1] == call);
                    break;
                }
                node = x;
            },
            None => {
                break;
            },
        }
    }
    (nodes, context)
}

/// Extending a trace does not change where it stopped at earlier calls.
proof fn lemma_trace_end_prefix<C>(calls: Seq<TravCall<C>>, c: TravCall<C>, end0: usize, forward: bool, i: int)
    requires
        0 <= i <= calls.len(),
    ensures
        trace_end(calls.push(c), end0, forward, i) == trace_end(calls, end0, forward, i),
    decreases i,
{
    if i > 0 {
        lemma_trace_end_prefix(calls, c, end0, forward, i - 1);
        assert(calls.push(c)[i - 1] == calls[i - 1]);
    }
}



/// Calls `func` on each node of the list that starts at `start`, following `next` links,
/// until it asks to exit or the walk comes back round to its start. A callback that
/// unlinks the node it was given from the list is allowed for: when that node was the
/// start, the walk stops at the next node instead. The walk also stops at a link that
/// leads out of the table, and after one call per node of the table.
pub fn cf_clist_traverse<C, F>(nodes: Vec<CListNode>, start: Option<usize>, func: F, context: C) -> (r: (Vec<CListNode>, C))
    where
        F: Fn(Vec<CListNode>, usize, C) -> (Vec<CListNode>, C, CListTraverseStatus),
    requires
        start matches Some(x) ==> x < nodes@.len(),
        forall|v: Vec<CListNode>, x: usize, c: C| x < v@.len() ==> call_requires(func, (v, x, c)),
    ensures
        start is None ==> r == (nodes, context),
        start matches Some(x) ==> exists|calls: Seq<TravCall<C>>|
            trace_ok(func, nodes, context, x, x, true, calls) && r == (
                calls.last().nodes_out,
                calls.last().ctx_out,
            ),
{
    match start {
        None => (nodes, context),
        Some(x) => cf_clist_walk(nodes, x, x, true, func, context),
    }
}

/// Calls `func` on each node of the list that ends just before `end`, following `prev`
/// links from the node before `end`, as `cf_clist_traverse` does forwards. Nothing is
/// called when `end` has no previous node.
pub fn cf_clist_traverse_r<C, F>(nodes: Vec<CListNode>, end: Option<usize>, func: F, context: C) -> (r: (Vec<CListNode>, C))
    where
        F: Fn(Vec<CListNode>, usize, C) -> (Vec<CListNode>, C, CListTraverseStatus),
    requires
        end matches Some(e) ==> e < nodes@.len() && (nodes@[e as int].prev matches Some(p) ==> p
            < nodes@.len()),
        forall|v: Vec<CListNode>, x: usize, c: C| x < v@.len() ==> call_requires(func, (v, x, c)),
    ensures
        (end is None || nodes@[end.unwrap() as int].prev is None) ==> r == (nodes, context),
        end matches Some(e) ==> (nodes@[e as int].prev matches Some(p) ==> exists|calls: Seq<TravCall<C>>|
            trace_ok(func, nodes, context, p, p, false, calls) && r == (
                calls.last().nodes_out,
                calls.last().ctx_out,
            )),
{
    match end {
        None => (nodes, context),
        Some(e) => {
            match nodes[e].prev {
                None => (nodes, context),
                Some(p) => cf_clist_walk(nodes, p, p, false, func, context),
            }
        },
    }
}


/// A list is no longer than its table: its nodes sit at distinct positions.
pub proof fn lemma_list_len_bound(nodes: Seq<CListNode>, s: Seq<usize>)
    requires
        s.no_duplicates(),
        forall|k: int| 0 <= k < s.len() ==> #[trigger] s[k] < nodes.len(),
    ensures
        s.len() <= nodes.len(),
{
    let t = s.map_values(|x: usize| x as int);
    assert(t.no_duplicates()) by {
        assert forall|a: int, b: int| 0 <= a < b < t.len() implies t[a] != t[b] by {
            assert(s[a] != s[b]);
        }
    }
    t.unique_seq_to_set();
    vstd::set_lib::lemma_int_range(0, nodes.len() as int);
    assert(t.to_set().subset_of(vstd::set_lib::set_int_range(0, nodes.len() as int))) by {
        assert forall|x: int| t.to_set().contains(x) implies vstd::set_lib::set_int_range(
            0,
            nodes.len() as int,
        ).contains(x) by {
            let k = choose|k: int| 0 <= k < t.len() && t[k] == x;
            assert(s[k] < nodes.len());
        }
    }
    vstd::set_lib::lemma_len_subset(t.to_set(), vstd::set_lib::set_int_range(0, nodes.len() as int));
}

/// What the first calls of such a traversal see: the table unchanged, the list's nodes in
/// order, and the walk still set to stop at the head.
proof fn lemma_traverse_prefix<C, F: Fn(Vec<CListNode>, usize, C) -> (Vec<CListNode>, C, CListTraverseStatus)>(
    func: F,
    nodes: Vec<CListNode>,
    ctx: C,
    s: Seq<usize>,
    calls: Seq<TravCall<C>>,
    j: int,
)
    requires
        s.len() > 0,
        clist_wf(nodes@, Some(s[0]), s),
        trace_ok(func, nodes, ctx, s[0], s[0], true, calls),
        forall|i: int| 0 <= i < calls.len() ==> (#[trigger] calls[i]).nodes_out == calls[i].nodes_in,
        0 <= j < calls.len(),
    ensures
        j < s.len(),
        calls[j].nodes_in == nodes,
        calls[j].node == s[j],
        trace_end(calls, s[0], true, j) == s[0],
    decreases j,
{
    if j > 0 {
        lemma_traverse_prefix(func, nodes, ctx, s, calls, j - 1);
        let c = calls[j - 1];
        assert(trace_link(calls, s[0], true, j - 1));
        assert(nodes@[s[j - 1] as int].next == Some(s[ring_next(j - 1, s.len() as int)]));
        assert(call_next(c, true) == Some(s[ring_next(j - 1, s.len() as int)]));
        assert(j - 1 != s.len() - 1);
    }
}

/// The traversal law: a traversal of a well-formed list from its head, with a callback
/// that always continues and leaves the table as it is, calls it once on each node of
/// the list, in order.
pub proof fn law_clist_traverse_in_order<C, F: Fn(Vec<CListNode>, usize, C) -> (Vec<CListNode>, C, CListTraverseStatus)>(
    func: F,
    nodes: Vec<CListNode>,
    ctx: C,
    s: Seq<usize>,
    calls: Seq<TravCall<C>>,
)
    requires
        s.len() > 0,
        clist_wf(nodes@, Some(s[0]), s),
        trace_ok(func, nodes, ctx, s[0], s[0], true, calls),
        forall|i: int|
            0 <= i < calls.len() ==> (#[trigger] calls[i]).status == CListTraverseStatus::Cont
                && calls[i].nodes_out == calls[i].nodes_in,
    ensures
        calls.len() == s.len(),
        forall|i: int| 0 <= i < calls.len() ==> #[trigger] calls[i].node == s[i],
{
    let n = s.len() as int;
    lemma_list_len_bound(nodes@, s);
    let l = calls.len() as int;
    lemma_traverse_prefix(func, nodes, ctx, s, calls, l - 1);
    if l < n {
        let c = calls[l - 1];
        assert(nodes@[s[l - 1] as int].next == Some(s[ring_next(l - 1, n)]));
        assert(s[l] != s[0]);
        assert(trace_goes_on(calls, s[0], true, l - 1));
    }
    assert forall|i: int| 0 <= i < calls.len() implies #[trigger] calls[i].node == s[i] by {
        lemma_traverse_prefix(func, nodes, ctx, s, calls, i);
    }
}

/// What the first calls of a backward traversal of a list from its last node see: the
/// table unchanged, the list's nodes from the last one back, and the walk still set to
/// stop at the last node.
pub proof fn lemma_traverse_r_prefix<C, F: Fn(Vec<CListNode>, usize, C) -> (Vec<CListNode>, C, CListTraverseStatus)>(
    func: F,
    nodes: Vec<CListNode>,
    ctx: C,
    s: Seq<usize>,
    calls: Seq<TravCall<C>>,
    j: int,
)
    requires
        s.len() > 0,
        clist_wf(nodes@, Some(s[0]), s),
        trace_ok(func, nodes, ctx, s[s.len() - 1], s[s.len() - 1], false, calls),
        forall|i: int| 0 <= i < calls.len() ==> (#[trigger] calls[i]).nodes_out == calls[i].nodes_in,
        0 <= j < calls.len(),
    ensures
        j < s.len(),
        calls[j].nodes_in == nodes,
        calls[j].node == s[s.len() - 1 - j],
        trace_end(calls, s[s.len() - 1], false, j) == s[s.len() - 1],
    decreases j,
{
    let n = s.len() as int;
    if j > 0 {
        lemma_traverse_r_prefix(func, nodes, ctx, s, calls, j - 1);
        let c = calls[j - 1];
        assert(trace_link(calls, s[n - 1], false, j - 1));
        assert(nodes@[s[n - j] as int].prev == Some(s[ring_prev(n - j, n)]));
        assert(call_next(c, false) == Some(s[ring_prev(n - j, n)]));
        assert(n - j != 0);
    }
}

/// The backward traversal law: a traversal of a well-formed list from its last node back,
/// with a callback that leaves the table as it is, calls it on the list's nodes from the
/// last one back, stopping after the first node only when the callback did not ask to
/// exit before.
pub proof fn law_clist_traverse_r_in_order<C, F: Fn(Vec<CListNode>, usize, C) -> (Vec<CListNode>, C, CListTraverseStatus)>(
    func: F,
    nodes: Vec<CListNode>,
    ctx: C,
    s: Seq<usize>,
    calls: Seq<TravCall<C>>,
)
    requires
        s.len() > 0,
        clist_wf(nodes@, Some(s[0]), s),
        trace_ok(func, nodes, ctx, s[s.len() - 1], s[s.len() - 1], false, calls),
        forall|i: int| 0 <= i < calls.len() ==> (#[trigger] calls[i]).nodes_out == calls[i].nodes_in,
    ensures
        calls.len() <= s.len(),
        forall|i: int| 0 <= i < calls.len() ==> #[trigger] calls[i].node == s[s.len() - 1 - i],
        forall|i: int| 0 <= i < calls.len() - 1 ==> (#[trigger] calls[i]).status == CListTraverseStatus::Cont,
        calls.last().status == CListTraverseStatus::Cont ==> calls.len() == s.len(),
{
    let n = s.len() as int;
    lemma_list_len_bound(nodes@, s);
    let l = calls.len() as int;
    lemma_traverse_r_prefix(func, nodes, ctx, s, calls, l - 1);
    if calls.last().status == CListTraverseStatus::Cont && l < n {
        assert(nodes@[s[n - l] as int].prev == Some(s[ring_prev(n - l, n)]));
        assert(s[n - l - 1] != s[n - 1]);
        assert(trace_goes_on(calls, s[n - 1], false, l - 1));
    }
    assert forall|i: int| 0 <= i < calls.len() implies #[trigger] calls[i].node == s[s.len() - 1 - i] by {
        lemma_traverse_r_prefix(func, nodes, ctx, s, calls, i);
    }
    assert forall|i: int| 0 <= i < calls.len() - 1 implies (#[trigger] calls[i]).status == CListTraverseStatus::Cont by {
        assert(trace_link(calls, s[n - 1], false, i));
    }
}

/// A property of the table and context that every call of the callback keeps, holding
/// after call `i` of a traversal, holds at its end.
pub proof fn lemma_trace_keeps<C, F: Fn(Vec<CListNode>, usize, C) -> (Vec<CListNode>, C, CListTraverseStatus)>(
    func: F,
    nodes: Vec<CListNode>,
    ctx: C,
    first: usize,
    end0: usize,
    forward: bool,
    calls: Seq<TravCall<C>>,
    inv: spec_fn(Vec<CListNode>, C) -> bool,
    i: int,
)
    requires
        trace_ok(func, nodes, ctx, first, end0, forward, calls),
        0 <= i < calls.len(),
        inv(calls[i].nodes_out, calls[i].ctx_out),
        forall|v: Vec<CListNode>, x: usize, c: C, r: (Vec<CListNode>, C, CListTraverseStatus)|
            inv(v, c) && #[trigger] call_ensures(func, (v, x, c), r) ==> inv(r.0, r.1),
    ensures
        inv(calls.last().nodes_out, calls.last().ctx_out),
    decreases calls.len() - i,
{
    if i < calls.len() - 1 {
        assert(trace_link(calls, end0, forward, i));
        let c = calls[i + 1];
        assert(call_ensures(func, (c.nodes_in, c.node, c.ctx_in), (c.nodes_out, c.ctx_out, c.status)));
        lemma_trace_keeps(func, nodes, ctx, first, end0, forward, calls, inv, i + 1);
    }
}

/// A property of the table and context that holds before a traversal and that every
/// call of the callback keeps holds before each call and at the end.
pub proof fn lemma_trace_keeps_all<C, F: Fn(Vec<CListNode>, usize, C) -> (Vec<CListNode>, C, CListTraverseStatus)>(
    func: F,
    nodes: Vec<CListNode>,
    ctx: C,
    first: usize,
    end0: usize,
    forward: bool,
    calls: Seq<TravCall<C>>,
    inv: spec_fn(Vec<CListNode>, C) -> bool,
)
    requires
        trace_ok(func, nodes, ctx, first, end0, forward, calls),
        inv(nodes, ctx),
        forall|v: Vec<CListNode>, x: usize, c: C, r: (Vec<CListNode>, C, CListTraverseStatus)|
            inv(v, c) && #[trigger] call_ensures(func, (v, x, c), r) ==> inv(r.0, r.1),
    ensures
        inv(calls.last().nodes_out, calls.last().ctx_out),
        forall|i: int| 0 <= i < calls.len() ==> inv((#[trigger] calls[i]).nodes_in, calls[i].ctx_in),
{
    let c = calls[0];
    assert(call_ensures(func, (c.nodes_in, c.node, c.ctx_in), (c.nodes_out, c.ctx_out, c.status)));
    lemma_trace_keeps(func, nodes, ctx, first, end0, forward, calls, inv, 0);
    assert forall|i: int| 0 <= i < calls.len() implies inv((#[trigger] calls[i]).nodes_in, calls[i].ctx_in) by {
        lemma_trace_keeps_upto(func, nodes, ctx, first, end0, forward, calls, inv, i);
    }
}

/// The property of `lemma_trace_keeps_all` holds before call `i`.
proof fn lemma_trace_keeps_upto<C, F: Fn(Vec<CListNode>, usize, C) -> (Vec<CListNode>, C, CListTraverseStatus)>(
    func: F,
    nodes: Vec<CListNode>,
    ctx: C,
    first: usize,
    end0: usize,
    forward: bool,
    calls: Seq<TravCall<C>>,
    inv: spec_fn(Vec<CListNode>, C) -> bool,
    i: int,
)
    requires
        trace_ok(func, nodes, ctx, first, end0, forward, calls),
        inv(nodes, ctx),
        forall|v: Vec<CListNode>, x: usize, c: C, r: (Vec<CListNode>, C, CListTraverseStatus)|
            inv(v, c) && #[trigger] call_ensures(func, (v, x, c), r) ==> inv(r.0, r.1),
        0 <= i < calls.len(),
    ensures
        inv(calls[i].nodes_in, calls[i].ctx_in),
    decreases i,
{
    if i > 0 {
        lemma_trace_keeps_upto(func, nodes, ctx, first, end0, forward, calls, inv, i - 1);
        let c = calls[i - 1];
        assert(call_ensures(func, (c.nodes_in, c.node, c.ctx_in), (c.nodes_out, c.ctx_out, c.status)));
        assert(trace_link(calls, end0, forward, i - 1));
    }
}

/// The forward traversal law with exits: a traversal of a well-formed list from its head,
/// with a callback that leaves the table as it is, calls it on the list's nodes in order,
/// goes on past a call only when the callback asked to continue, and stops after the last
/// node only when it never asked to exit.
pub proof fn law_clist_traverse_in_order_until_exit<C, F: Fn(Vec<CListNode>, usize, C) -> (Vec<CListNode>, C, CListTraverseStatus)>(
    func: F,
    nodes: Vec<CListNode>,
    ctx: C,
    s: Seq<usize>,
    calls: Seq<TravCall<C>>,
)
    requires
        s.len() > 0,
        clist_wf(nodes@, Some(s[0]), s),
        trace_ok(func, nodes, ctx, s[0], s[0], true, calls),
        forall|i: int| 0 <= i < calls.len() ==> (#[trigger] calls[i]).nodes_out == calls[i].nodes_in,
    ensures
        calls.len() <= s.len(),
        forall|i: int| 0 <= i < calls.len() ==> #[trigger] calls[i].node == s[i],
        forall|i: int| 0 <= i < calls.len() - 1 ==> (#[trigger] calls[i]).status == CListTraverseStatus::Cont,
        calls.last().status == CListTraverseStatus::Cont ==> calls.len() == s.len(),
{
    let n = s.len() as int;
    lemma_list_len_bound(nodes@, s);
    let l = calls.len() as int;
    lemma_traverse_prefix(func, nodes, ctx, s, calls, l - 1);
    if calls.last().status == CListTraverseStatus::Cont && l < n {
        assert(nodes@[s[l - 1] as int].next == Some(s[ring_next(l - 1, n)]));
        assert(s[l] != s[0]);
        assert(trace_goes_on(calls, s[0], true, l - 1));
    }
    assert forall|i: int| 0 <= i < calls.len() implies #[trigger] calls[i].node == s[i] by {
        lemma_traverse_prefix(func, nodes, ctx, s, calls, i);
    }
    assert forall|i: int| 0 <= i < calls.len() - 1 implies (#[trigger] calls[i]).status == CListTraverseStatus::Cont by {
        assert(trace_link(calls, s[0], true, i));
    }
}

/// A callback that leaves the context as it is whenever it asks to continue leaves it as
/// it started up to each call of a traversal.
pub proof fn lemma_trace_ctx_stays<C, F: Fn(Vec<CListNode>, usize, C) -> (Vec<CListNode>, C, CListTraverseStatus)>(
    func: F,
    nodes: Vec<CListNode>,
    ctx: C,
    first: usize,
    end0: usize,
    forward: bool,
    calls: Seq<TravCall<C>>,
    j: int,
)
    requires
        trace_ok(func, nodes, ctx, first, end0, forward, calls),
        forall|i: int|
            0 <= i < calls.len() && (#[trigger] calls[i]).status == CListTraverseStatus::Cont ==> calls[i].ctx_out
                == calls[i].ctx_in,
        0 <= j < calls.len(),
    ensures
        calls[j].ctx_in == ctx,
    decreases j,
{
    if j > 0 {
        lemma_trace_ctx_stays(func, nodes, ctx, first, end0, forward, calls, j - 1);
        assert(trace_link(calls, end0, forward, j - 1));
    }
}

} // verus!
