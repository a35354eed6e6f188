//! Free lists as the contracts see them: sequences of block addresses, linked
//! through the headers in the heap.

use vstd::prelude::*;
use crate::gc::heap::HeapView;

verus! {

/// The sum of the sizes of the blocks of `list`.
pub open spec fn list_bytes(h: HeapView, list: Seq<int>) -> int
    decreases list.len(),
{
    if list.len() == 0 {
        0
    } else {
        list_bytes(h, list.drop_last()) + h.size(list.last())
    }
}

/// What `head` and the links in the headers say is what `list` says: `head`
/// is the first block of `list`, and each block's link is the block behind it.
pub open spec fn linked(h: HeapView, head: Option<usize>, list: Seq<int>) -> bool {
    &&& head == if list.len() > 0 {
        Some(list[0] as usize)
    } else {
        None
    }
    &&& forall|i: int| 0 <= i < list.len() ==> #[trigger] link_ok(h, list, i)
}

/// The link of the `i`-th block of `list` is the block behind it, or none.
pub open spec fn link_ok(h: HeapView, list: Seq<int>, i: int) -> bool {
    h.next_free(list[i]) == if i + 1 < list.len() {
        list[i + 1]
    } else {
        0
    }
}

/// `list` is a free list of the heap: its blocks are free blocks of the heap,
/// each once, linked in this order from `head`.
pub open spec fn is_free_list(h: HeapView, head: Option<usize>, list: Seq<int>) -> bool {
    &&& list.no_duplicates()
    &&& forall|i: int| #![trigger list[i]] 0 <= i < list.len() ==> h.is_free(list[i])
    &&& linked(h, head, list)
}

/// The headers of the blocks of `list` are in `after` what they are in
/// `before`.
pub open spec fn same_headers(before: HeapView, after: HeapView, list: Seq<int>) -> bool {
    forall|i: int|
        #![trigger list[i]]
        0 <= i < list.len() ==> after.is_block(list[i]) && after.header(list[i]) == before.header(
            list[i],
        )
}

/// The sum of the sizes depends on the sizes only.
pub proof fn lemma_bytes_frame(before: HeapView, after: HeapView, list: Seq<int>)
    requires
        forall|i: int| 0 <= i < list.len() ==> #[trigger] after.size(list[i]) == before.size(list[i]),
    ensures
        list_bytes(after, list) == list_bytes(before, list),
    decreases list.len(),
{
    if list.len() > 0 {
        let front = list.drop_last();
        assert forall|i: int| 0 <= i < front.len() implies #[trigger] after.size(front[i])
            == before.size(front[i]) by {
            assert(front[i] == list[i]);
        }
        lemma_bytes_frame(before, after, front);
        assert(list.last() == list[list.len() - 1]);
    }
}

/// A block more in the list is its size more in the sum.
pub proof fn lemma_bytes_insert(h: HeapView, list: Seq<int>, i: int, b: int)
    requires
        0 <= i <= list.len(),
    ensures
        list_bytes(h, list.insert(i, b)) == list_bytes(h, list) + h.size(b),
    decreases list.len() - i,
{
    let longer = list.insert(i, b);
    if i == list.len() {
        assert(longer.drop_last() =~= list);
    } else {
        assert(longer.drop_last() =~= list.drop_last().insert(i, b));
        assert(longer.last() == list.last());
        lemma_bytes_insert_front(h, list.drop_last(), i, b);
    }
}

/// A block more in the list is its size more in the sum, by the length.
proof fn lemma_bytes_insert_front(h: HeapView, list: Seq<int>, i: int, b: int)
    requires
        0 <= i <= list.len(),
    ensures
        list_bytes(h, list.insert(i, b)) == list_bytes(h, list) + h.size(b),
    decreases list.len(),
{
    let longer = list.insert(i, b);
    if i == list.len() {
        assert(longer.drop_last() =~= list);
    } else {
        assert(longer.drop_last() =~= list.drop_last().insert(i, b));
        assert(longer.last() == list.last());
        lemma_bytes_insert_front(h, list.drop_last(), i, b);
    }
}

/// A block less in the list is its size less in the sum.
pub proof fn lemma_bytes_remove(h: HeapView, list: Seq<int>, i: int)
    requires
        0 <= i < list.len(),
    ensures
        list_bytes(h, list.remove(i)) == list_bytes(h, list) - h.size(list[i]),
{
    let shorter = list.remove(i);
    assert(shorter.insert(i, list[i]) =~= list);
    lemma_bytes_insert(h, shorter, i, list[i]);
}

/// Where one block of a list without repetition changes its size, the sum
/// changes by as much.
pub proof fn lemma_bytes_update(before: HeapView, after: HeapView, list: Seq<int>, i: int)
    requires
        0 <= i < list.len(),
        forall|k: int|
            0 <= k < list.len() && k != i ==> #[trigger] after.size(list[k]) == before.size(
                list[k],
            ),
    ensures
        list_bytes(after, list) == list_bytes(before, list) - before.size(list[i]) + after.size(
            list[i],
        ),
{
    let shorter = list.remove(i);
    lemma_bytes_remove(before, list, i);
    lemma_bytes_remove(after, list, i);
    assert forall|k: int| 0 <= k < shorter.len() implies #[trigger] after.size(shorter[k])
        == before.size(shorter[k]) by {
        if k < i {
            assert(shorter[k] == list[k]);
        } else {
            assert(shorter[k] == list[k + 1]);
        }
    }
    lemma_bytes_frame(before, after, shorter);
}

/// Equal headers have equal words.
pub proof fn lemma_header_parts(before: HeapView, after: HeapView, b: int)
    requires
        after.header(b) == before.header(b),
    ensures
        after.next_free(b) == before.next_free(b),
        after.size(b) == before.size(b),
        after.flags(b) == before.flags(b),
        after.thunk(b) == before.thunk(b),
{
}

/// A free list stays one where the headers of its blocks stay what they are.
pub proof fn lemma_free_list_frame(
    before: HeapView,
    after: HeapView,
    head: Option<usize>,
    list: Seq<int>,
)
    requires
        is_free_list(before, head, list),
        same_headers(before, after, list),
    ensures
        is_free_list(after, head, list),
        list_bytes(after, list) == list_bytes(before, list),
{
    assert forall|i: int| #![trigger list[i]] 0 <= i < list.len() implies after.is_free(list[i])
        && after.next_free(list[i]) == before.next_free(list[i]) && after.size(list[i])
        == before.size(list[i]) by {
        lemma_header_parts(before, after, list[i]);
    }
    assert forall|i: int| 0 <= i < list.len() implies #[trigger] link_ok(after, list, i) by {
        assert(link_ok(before, list, i));
        assert(after.next_free(list[i]) == before.next_free(list[i]));
    }
    lemma_bytes_frame(before, after, list);
}

/// The address behind the first `k` blocks of the heap.
pub open spec fn blocks_end(h: HeapView, k: int) -> int {
    if k < h.blocks.len() {
        h.blocks[k]
    } else {
        h.end()
    }
}

/// Different blocks that all stand below the end of the first `k` blocks take,
/// with their headers, no more bytes than those `k` blocks.
#[verifier::spinoff_prover]
proof fn lemma_bytes_below(h: HeapView, list: Seq<int>, k: int)
    requires
        h.wf(),
        list.no_duplicates(),
        0 <= k <= h.blocks.len(),
        forall|j: int|
            #![trigger list[j]]
            0 <= j < list.len() ==> h.is_block(list[j]) && list[j] < blocks_end(h, k),
    ensures
        list_bytes(h, list) + 32 * list.len() <= blocks_end(h, k) - h.region.base,
    decreases k,
{
    if k == 0 {
        if list.len() > 0 {
            assert(h.is_block(list[0]) && list[0] < blocks_end(h, 0));
            h.lemma_block(list[0]);
        }
    } else {
        let c = h.blocks[k - 1];
        assert(h.block_ok(k - 1));
        assert(h.is_block(c));
        assert(blocks_end(h, k) == h.next(c));
        assert(blocks_end(h, k - 1) == c);
        if list.contains(c) {
            let j = list.index_of(c);
            let shorter = list.remove(j);
            assert forall|i: int| #![trigger shorter[i]] 0 <= i < shorter.len() implies h.is_block(
                shorter[i],
            ) && shorter[i] < c by {
                let i0 = if i < j {
                    i
                } else {
                    i + 1
                };
                assert(shorter[i] == list[i0]);
                assert(h.is_block(list[i0]) && list[i0] < blocks_end(h, k));
                h.lemma_blocks_disjoint(list[i0], c);
                h.lemma_block(list[i0]);
            }
            assert(shorter.no_duplicates()) by {
                assert forall|x: int, y: int|
                    0 <= x < shorter.len() && 0 <= y < shorter.len() && x != y implies shorter[x]
                    != shorter[y] by {
                    let x0 = if x < j {
                        x
                    } else {
                        x + 1
                    };
                    let y0 = if y < j {
                        y
                    } else {
                        y + 1
                    };
                    assert(shorter[x] == list[x0]);
                    assert(shorter[y] == list[y0]);
                }
            }
            lemma_bytes_below(h, shorter, k - 1);
            lemma_bytes_remove(h, list, j);
        } else {
            assert forall|i: int| #![trigger list[i]] 0 <= i < list.len() implies h.is_block(
                list[i],
            ) && list[i] < c by {
                assert(h.is_block(list[i]) && list[i] < blocks_end(h, k));
                assert(list.contains(list[i]));
                h.lemma_blocks_disjoint(list[i], c);
                h.lemma_block(list[i]);
            }
            lemma_bytes_below(h, list, k - 1);
        }
    }
}

/// Different blocks of the heap take, with their headers, no more bytes than
/// the heap has.
pub proof fn lemma_bytes_bound(h: HeapView, list: Seq<int>)
    requires
        h.wf(),
        list.no_duplicates(),
        forall|j: int| #![trigger list[j]] 0 <= j < list.len() ==> h.is_block(list[j]),
    ensures
        list_bytes(h, list) + 32 * list.len() <= h.region.length,
{
    assert forall|j: int| #![trigger list[j]] 0 <= j < list.len() implies h.is_block(list[j])
        && list[j] < blocks_end(h, h.blocks.len() as int) by {
        assert(h.is_block(list[j]));
        h.lemma_block(list[j]);
    }
    lemma_bytes_below(h, list, h.blocks.len() as int);
}

/// The headers of the blocks of `list`, but for the one at `i`, are in `after`
/// what they are in `before`.
pub open spec fn same_headers_but(before: HeapView, after: HeapView, list: Seq<int>, i: int) -> bool {
    forall|k: int|
        #![trigger list[k]]
        0 <= k < list.len() && k != i ==> after.is_block(list[k]) && after.header(list[k])
            == before.header(list[k])
}

/// A block put at the head of a free list, with the head of before as its
/// link, makes a free list that is longer by that block.
#[verifier::spinoff_prover]
pub proof fn lemma_push_front(
    before: HeapView,
    after: HeapView,
    head: Option<usize>,
    list: Seq<int>,
    n: int,
)
    requires
        before.wf(),
        is_free_list(before, head, list),
        same_headers(before, after, list),
        !list.contains(n),
        0 < n <= usize::MAX,
        after.is_free(n),
        after.header(n).next_free == head,
    ensures
        is_free_list(after, Some(n as usize), list.insert(0, n)),
        list_bytes(after, list.insert(0, n)) == list_bytes(before, list) + after.size(n),
{
    let longer = list.insert(0, n);
    lemma_free_list_frame(before, after, head, list);
    lemma_bytes_insert(after, list, 0, n);
    assert(longer.no_duplicates()) by {
        assert forall|x: int, y: int|
            0 <= x < longer.len() && 0 <= y < longer.len() && x != y implies longer[x]
            != longer[y] by {
            if x > 0 && y > 0 {
                assert(longer[x] == list[x - 1] && longer[y] == list[y - 1]);
            } else if x > 0 {
                assert(longer[x] == list[x - 1]);
                assert(list.contains(list[x - 1]));
            } else {
                assert(longer[y] == list[y - 1]);
                assert(list.contains(list[y - 1]));
            }
        }
    }
    assert forall|i: int| #![trigger longer[i]] 0 <= i < longer.len() implies after.is_free(
        longer[i],
    ) by {
        if i > 0 {
            assert(longer[i] == list[i - 1]);
        }
    }
    assert forall|i: int| 0 <= i < longer.len() implies #[trigger] link_ok(after, longer, i) by {
        if i > 0 {
            assert(longer[i] == list[i - 1]);
            assert(link_ok(after, list, i - 1));
            if i + 1 < longer.len() {
                assert(longer[i + 1] == list[i]);
            }
        } else {
            if list.len() > 0 {
                assert(longer[1] == list[0]);
                assert(before.is_free(list[0]));
                before.lemma_block(list[0]);
            }
        }
    }
}

/// A block put behind the `i`-th block of a free list, with that block's
/// link of before as its own, makes a free list that is longer by that block.
#[verifier::spinoff_prover]
pub proof fn lemma_insert_after(
    before: HeapView,
    after: HeapView,
    head: Option<usize>,
    list: Seq<int>,
    i: int,
    n: int,
)
    requires
        is_free_list(before, head, list),
        0 <= i < list.len(),
        same_headers_but(before, after, list, i),
        !list.contains(n),
        after.is_free(list[i]),
        after.next_free(list[i]) == n,
        after.is_free(n),
        after.next_free(n) == before.next_free(list[i]),
    ensures
        is_free_list(after, head, list.insert(i + 1, n)),
        list_bytes(after, list.insert(i + 1, n)) == list_bytes(before, list) - before.size(list[i])
            + after.size(list[i]) + after.size(n),
{
    let longer = list.insert(i + 1, n);
    assert forall|k: int| 0 <= k < list.len() && k != i implies #[trigger] after.size(list[k])
        == before.size(list[k]) && after.next_free(list[k]) == before.next_free(list[k])
        && after.is_free(list[k]) by {
        assert(after.is_block(list[k]) && after.header(list[k]) == before.header(list[k]));
        lemma_header_parts(before, after, list[k]);
        assert(before.is_free(list[k]));
    }
    lemma_bytes_update(before, after, list, i);
    lemma_bytes_insert(after, list, i + 1, n);
    assert(longer.no_duplicates()) by {
        assert forall|x: int, y: int|
            0 <= x < longer.len() && 0 <= y < longer.len() && x != y implies longer[x]
            != longer[y] by {
            let x0 = if x <= i {
                x
            } else {
                x - 1
            };
            let y0 = if y <= i {
                y
            } else {
                y - 1
            };
            if x != i + 1 {
                assert(longer[x] == list[x0]);
                assert(list.contains(list[x0]));
            }
            if y != i + 1 {
                assert(longer[y] == list[y0]);
                assert(list.contains(list[y0]));
            }
        }
    }
    assert forall|k: int| #![trigger longer[k]] 0 <= k < longer.len() implies after.is_free(
        longer[k],
    ) by {
        if k <= i {
            assert(longer[k] == list[k]);
        } else if k > i + 1 {
            assert(longer[k] == list[k - 1]);
        }
    }
    assert forall|k: int| 0 <= k < longer.len() implies #[trigger] link_ok(after, longer, k) by {
        if k < i {
            assert(longer[k] == list[k]);
            assert(longer[k + 1] == list[k + 1]);
            assert(link_ok(before, list, k));
        } else if k == i {
            assert(longer[k] == list[i]);
            assert(longer[k + 1] == n);
        } else if k == i + 1 {
            assert(longer[k] == n);
            assert(link_ok(before, list, i));
            if k + 1 < longer.len() {
                assert(longer[k + 1] == list[i + 1]);
            }
        } else {
            assert(longer[k] == list[k - 1]);
            assert(link_ok(before, list, k - 1));
            if k + 1 < longer.len() {
                assert(longer[k + 1] == list[k]);
            }
        }
    }
    assert(longer[0] == list[0]);
}

/// The `i`-th block taken out of a free list, with its link handed to the
/// block before it, or to the head, leaves a free list that is shorter by
/// that block.
#[verifier::spinoff_prover]
pub proof fn lemma_remove(
    before: HeapView,
    after: HeapView,
    head: Option<usize>,
    then_head: Option<usize>,
    list: Seq<int>,
    i: int,
)
    requires
        before.wf(),
        is_free_list(before, head, list),
        0 <= i < list.len(),
        forall|k: int|
            #![trigger list[k]]
            0 <= k < list.len() && k != i && k != i - 1 ==> after.is_block(list[k]) && after.header(
                list[k],
            ) == before.header(list[k]),
        i > 0 ==> after.is_free(list[i - 1]) && after.size(list[i - 1]) == before.size(list[i - 1])
            && after.next_free(list[i - 1]) == before.next_free(list[i]),
        then_head == if i == 0 {
            before.header(list[0]).next_free
        } else {
            head
        },
    ensures
        is_free_list(after, then_head, list.remove(i)),
        list_bytes(after, list.remove(i)) == list_bytes(before, list) - before.size(list[i]),
{
    let shorter = list.remove(i);
    lemma_bytes_remove(before, list, i);
    assert forall|k: int| #![trigger shorter[k]] 0 <= k < shorter.len() implies after.is_free(
        shorter[k],
    ) && after.size(shorter[k]) == before.size(shorter[k]) by {
        let k0 = if k < i {
            k
        } else {
            k + 1
        };
        assert(shorter[k] == list[k0]);
        assert(before.is_free(list[k0]));
        if k0 != i - 1 {
            assert(after.is_block(list[k0]) && after.header(list[k0]) == before.header(list[k0]));
            lemma_header_parts(before, after, list[k0]);
        }
    }
    assert forall|k: int| 0 <= k < shorter.len() implies #[trigger] after.size(shorter[k])
        == before.size(shorter[k]) by {
        assert(after.is_free(shorter[k]) && after.size(shorter[k]) == before.size(shorter[k]));
    }
    lemma_bytes_frame(before, after, shorter);
    assert(shorter.no_duplicates()) by {
        assert forall|x: int, y: int|
            0 <= x < shorter.len() && 0 <= y < shorter.len() && x != y implies shorter[x]
            != shorter[y] by {
            let x0 = if x < i {
                x
            } else {
                x + 1
            };
            let y0 = if y < i {
                y
            } else {
                y + 1
            };
            assert(shorter[x] == list[x0]);
            assert(shorter[y] == list[y0]);
        }
    }
    assert forall|k: int| 0 <= k < shorter.len() implies #[trigger] link_ok(after, shorter, k) by {
        let k0 = if k < i {
            k
        } else {
            k + 1
        };
        assert(shorter[k] == list[k0]);
        if k + 1 < shorter.len() {
            assert(shorter[k + 1] == list[if k + 1 < i {
                k + 1
            } else {
                k + 2
            }]);
        }
        if k0 == i - 1 {
            assert(link_ok(before, list, i));
        } else {
            assert(after.is_block(list[k0]) && after.header(list[k0]) == before.header(list[k0]));
            lemma_header_parts(before, after, list[k0]);
            assert(link_ok(before, list, k0));
        }
    }
    if i == 0 {
        assert(link_ok(before, list, 0));
        if shorter.len() > 0 {
            assert(shorter[0] == list[1]);
            assert(before.is_free(list[1]));
            before.lemma_block(list[1]);
        }
    } else {
        assert(shorter[0] == list[0]);
    }
}

/// The blocks of a free list have at least sixteen bytes each.
pub proof fn lemma_bytes_positive(h: HeapView, list: Seq<int>)
    requires
        h.wf(),
        forall|j: int| #![trigger list[j]] 0 <= j < list.len() ==> h.is_block(list[j]),
    ensures
        list_bytes(h, list) >= 16 * list.len(),
    decreases list.len(),
{
    if list.len() > 0 {
        let front = list.drop_last();
        assert forall|j: int| #![trigger front[j]] 0 <= j < front.len() implies h.is_block(
            front[j],
        ) by {
            assert(front[j] == list[j]);
        }
        lemma_bytes_positive(h, front);
        assert(list.last() == list[list.len() - 1]);
        h.lemma_block(list.last());
    }
}

} // verus!
