use crate::memory::Memory;
use crate::model::{is_free, listed, lemma_list_unique, Chunk};
use crate::word::WORD_SIZE;
use vstd::prelude::*;

verus! {

/// A link of a doubly linked list: two words in memory, of which the first holds
/// the address of the next link (or zero) and the second the address of the word
/// that holds this link's address.
pub struct LlistNode;

/// Memory after a node has been put between `slot`, the word that is to hold the
/// node's address, and `next`, the node that `slot` held before (or zero).
pub open spec fn after_insert(m: Map<int, u64>, node: u64, slot: u64, next: u64) -> Map<int, u64> {
    let linked = m.insert(node as int, next).insert(node + 8, slot).insert(slot as int, node);
    if next == 0 {
        linked
    } else {
        linked.insert(next + 8, node)
    }
}

/// Memory after a node has been taken out of its list.
pub open spec fn after_remove(m: Map<int, u64>, node: u64) -> Map<int, u64> {
    let next: u64 = m[node as int];
    let slot: u64 = m[node + 8];
    if next == 0 {
        m.insert(slot as int, next)
    } else {
        m.insert(slot as int, next).insert(next + 8, slot)
    }
}

impl LlistNode {
    /// Puts `node` between the word `next_of_prev` and the node `next` (zero for none).
    pub fn insert<M: Memory>(memory: &mut M, node: u64, next_of_prev: u64, next: u64)
        requires
            old(memory).words().dom().contains(node as int),
            old(memory).words().dom().contains(node + 8),
            old(memory).words().dom().contains(next_of_prev as int),
            next != 0 ==> old(memory).words().dom().contains(next + 8),
            node + 8 <= u64::MAX,
            next + 8 <= u64::MAX,
        ensures
            final(memory).words() == after_insert(old(memory).words(), node, next_of_prev, next),
    {
        memory.write(node, next);
        memory.write(node + WORD_SIZE, next_of_prev);
        memory.write(next_of_prev, node);
        if next != 0 {
            memory.write(next + WORD_SIZE, node);
        }
    }

    /// Takes `node` out of its list.
    pub fn remove<M: Memory>(memory: &mut M, node: u64)
        requires
            old(memory).words().dom().contains(node as int),
            old(memory).words().dom().contains(node + 8),
            old(memory).words().dom().contains(old(memory).words()[node + 8] as int),
            old(memory).words()[node as int] != 0 ==> old(memory).words().dom().contains(
                old(memory).words()[node as int] + 8,
            ),
            node + 8 <= u64::MAX,
            old(memory).words()[node as int] + 8 <= u64::MAX,
        ensures
            final(memory).words() == after_remove(old(memory).words(), node),
    {
        let next: u64 = memory.read(node);
        let next_of_prev: u64 = memory.read(node + WORD_SIZE);
        memory.write(next_of_prev, next);
        if next != 0 {
            memory.write(next + WORD_SIZE, next_of_prev);
        }
    }
}

/// The address that the word before the node at position `j` of a list holds.
pub open spec fn entry(list: Seq<int>, j: int) -> int {
    if 0 <= j < list.len() {
        list[j]
    } else {
        0
    }
}

/// The address of the word that holds the address of the node at position `j` of
/// the list of bucket `g`: the bucket's own word, or the first of the node before.
pub open spec fn slot(llists: int, lists: Seq<Seq<int>>, g: int, j: int) -> int {
    if j == 0 {
        llists + 8 * g
    } else {
        lists[g][j - 1]
    }
}

/// The node at position `j` of the list of bucket `g` holds its neighbours.
pub open spec fn node_ok(m: Map<int, u64>, llists: int, lists: Seq<Seq<int>>, g: int, j: int) -> bool {
    &&& m[lists[g][j]] == entry(lists[g], j + 1)
    &&& m[lists[g][j] + 8] == slot(llists, lists, g, j)
}

/// The lists stand in memory: the words from `llists` on hold each bucket's first
/// node, and each node holds its neighbours.
pub open spec fn threaded(m: Map<int, u64>, llists: int, lists: Seq<Seq<int>>) -> bool {
    &&& forall|g: int|
        0 <= g < 128 ==> m[llists + 8 * g] == entry(#[trigger] lists[g], 0)
    &&& forall|g: int, j: int|
        0 <= g < 128 && 0 <= j < lists[g].len() ==> #[trigger] node_ok(m, llists, lists, g, j)
}

/// The nodes overlap neither one another nor the bucket words.
pub open spec fn nodes_apart(llists: int, chunks: Map<int, Chunk>) -> bool {
    &&& forall|b: int, c: int|
        #![trigger is_free(chunks, b), is_free(chunks, c)]
        is_free(chunks, b) && is_free(chunks, c) && b < c ==> b + 16 <= c
    &&& forall|b: int| #[trigger]
        is_free(chunks, b) ==> 0 < b && b % 8 == 0 && (b + 16 <= llists || llists + 1024 <= b)
}

/// Words that the lists do not stand in do not matter to them.
pub proof fn lemma_thread_frame(
    m: Map<int, u64>,
    m2: Map<int, u64>,
    llists: int,
    lists: Seq<Seq<int>>,
)
    requires
        threaded(m, llists, lists),
        lists.len() == 128,
        forall|a: int| llists <= a < llists + 1024 ==> #[trigger] m2[a] == m[a],
        forall|g: int, j: int|
            0 <= g < 128 && 0 <= j < lists[g].len() ==> m2[#[trigger] lists[g][j]] == m[lists[g][j]]
                && m2[lists[g][j] + 8] == m[lists[g][j] + 8],
    ensures
        threaded(m2, llists, lists),
{
    assert forall|g: int| 0 <= g < 128 implies m2[llists + 8 * g] == entry(
        #[trigger] lists[g],
        0,
    ) by {
        assert(m2[llists + 8 * g] == m[llists + 8 * g]);
    }
    assert forall|g: int, j: int| 0 <= g < 128 && 0 <= j < lists[g].len() implies #[trigger] node_ok(
        m2,
        llists,
        lists,
        g,
        j,
    ) by {
        assert(node_ok(m, llists, lists, g, j));
        assert(m2[lists[g][j]] == m[lists[g][j]]);
    }
}

/// Putting a node first in a list.
pub proof fn lemma_thread_insert(
    m: Map<int, u64>,
    llists: int,
    chunks: Map<int, Chunk>,
    lists: Seq<Seq<int>>,
    g: int,
    node: u64,
    slot0: u64,
    next: u64,
)
    requires
        threaded(m, llists, lists),
        listed(chunks, lists),
        nodes_apart(llists, chunks),
        0 <= g < 128,
        slot0 == llists + 8 * g,
        next == entry(lists[g], 0),
        node > 0,
        node % 8 == 0,
        llists % 8 == 0,
        node + 16 <= llists || llists + 1024 <= node,
        forall|b: int| #[trigger] is_free(chunks, b) ==> b + 16 <= node || node + 16 <= b,
    ensures
        threaded(
            after_insert(m, node, slot0, next),
            llists,
            lists.update(g, seq![node as int] + lists[g]),
        ),
{
    let m2 = after_insert(m, node, slot0, next);
    let lists2 = lists.update(g, seq![node as int] + lists[g]);
    let list2 = lists2[g];
    if lists[g].len() > 0 {
        assert(is_free(chunks, lists[g][0]));
    }
    assert forall|h: int| 0 <= h < 128 implies m2[llists + 8 * h] == entry(
        #[trigger] lists2[h],
        0,
    ) by {
        assert(m[llists + 8 * h] == entry(lists[h], 0));
    }
    assert forall|h: int, j: int| 0 <= h < 128 && 0 <= j < lists2[h].len() implies #[trigger] node_ok(
        m2,
        llists,
        lists2,
        h,
        j,
    ) by {
        if h == g && j == 0 {
            assert(lists2[h][j] == node);
            if lists[g].len() > 0 {
                assert(list2[1] == lists[g][0]);
            }
        } else {
            let i: int = if h == g {
                j - 1
            } else {
                j
            };
            let n: int = lists[h][i];
            assert(lists2[h][j] == n);
            assert(is_free(chunks, n));
            assert(node_ok(m, llists, lists, h, i));
            assert(m2[n] == m[n]);
            assert(m2[n + 8] == if next != 0 && n == next {
                node
            } else {
                m[n + 8]
            });
            assert(next != 0 && n == next ==> h == g && i == 0) by {
                if lists[g].len() > 0 && n == lists[g][0] {
                    lemma_list_unique(chunks, lists, h, i, g, 0);
                }
            }
            if h == g {
                assert(entry(list2, j + 1) == entry(lists[g], i + 1));
                if j > 1 {
                    assert(list2[j - 1] == lists[g][i - 1]);
                }
            }
        }
    }
}

/// Taking the node at position `k` out of a list.
pub proof fn lemma_thread_remove(
    m: Map<int, u64>,
    llists: int,
    chunks: Map<int, Chunk>,
    lists: Seq<Seq<int>>,
    g: int,
    k: int,
    node: u64,
)
    requires
        threaded(m, llists, lists),
        listed(chunks, lists),
        nodes_apart(llists, chunks),
        llists % 8 == 0,
        0 <= g < 128,
        0 <= k < lists[g].len(),
        node == lists[g][k],
    ensures
        threaded(after_remove(m, node), llists, lists.update(g, lists[g].remove(k))),
{
    let m2 = after_remove(m, node);
    let list = lists[g];
    let lists2 = lists.update(g, list.remove(k));
    let next: u64 = m[node as int];
    let slot0: u64 = m[node + 8];
    assert(is_free(chunks, list[k]));
    assert(node_ok(m, llists, lists, g, k));
    if k + 1 < list.len() {
        assert(is_free(chunks, list[k + 1]));
    }
    if k > 0 {
        assert(is_free(chunks, list[k - 1]));
    }
    assert forall|h: int| 0 <= h < 128 implies m2[llists + 8 * h] == entry(
        #[trigger] lists2[h],
        0,
    ) by {
        assert(m[llists + 8 * h] == entry(lists[h], 0));
        if h == g && k > 0 {
            assert(lists2[g][0] == list[0]);
        }
        if h == g && k == 0 && list.len() > 1 {
            assert(lists2[g][0] == list[1]);
        }
    }
    assert forall|h: int, j: int| 0 <= h < 128 && 0 <= j < lists2[h].len() implies #[trigger] node_ok(
        m2,
        llists,
        lists2,
        h,
        j,
    ) by {
        let i: int = if h == g && j >= k {
            j + 1
        } else {
            j
        };
        let n: int = lists[h][i];
        assert(lists2[h][j] == n);
        assert(is_free(chunks, n));
        assert(node_ok(m, llists, lists, h, i));
        assert(n != node) by {
            if n == node {
                lemma_list_unique(chunks, lists, h, i, g, k);
            }
        }
        assert(m2[n] == if n == slot0 {
            next
        } else {
            m[n]
        });
        assert(m2[n + 8] == if next != 0 && n == next {
            slot0
        } else {
            m[n + 8]
        });
        assert(n == slot0 ==> k > 0 && h == g && i == k - 1) by {
            if k > 0 && n == list[k - 1] {
                lemma_list_unique(chunks, lists, h, i, g, k - 1);
            }
        }
        assert(next != 0 && n == next ==> h == g && i == k + 1) by {
            if k + 1 < list.len() && n == list[k + 1] {
                lemma_list_unique(chunks, lists, h, i, g, k + 1);
            }
        }
        if h == g {
            let list2 = list.remove(k);
            assert(lists2[h] == list2);
            assert(entry(list2, j + 1) == entry(list, if j + 1 < k {
                j + 1
            } else {
                j + 2
            }));
            if j > 0 {
                assert(list2[j - 1] == list[if j - 1 < k {
                    j - 1
                } else {
                    j
                }]);
            }
        }
    }
}

} // verus!
