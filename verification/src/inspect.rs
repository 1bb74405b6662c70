//! Rough sizes of tensors, for an overview of a container.

use crate::decoder::{count_elements, element_count};
use crate::types::{tensor_views, GGUFTensor, TensorView, TYPE_Q4_0, TYPE_Q5_1};
use vstd::prelude::*;

verus! {

/// Roughly how many bytes an element of a tensor takes in memory: 4 for a
/// raw float, 1 in a block of 4-bit levels, 2 in a block of 5-bit levels,
/// and 4 for any other type code.
pub open spec fn element_bytes(type_id: u32) -> nat {
    if type_id == TYPE_Q4_0 {
        1
    } else if type_id == TYPE_Q5_1 {
        2
    } else {
        4
    }
}

/// A size as a 64-bit number: sizes above `u64::MAX` count as `u64::MAX`.
pub open spec fn capped(size: nat) -> u64 {
    if size > u64::MAX {
        u64::MAX
    } else {
        size as u64
    }
}

/// Roughly how many bytes a tensor takes in memory.
pub open spec fn rough_size(tensor: TensorView) -> nat {
    element_count(tensor.dims) * element_bytes(tensor.type_id)
}

/// The rough sizes of tensors, added up.
pub open spec fn rough_total(tensors: Seq<TensorView>) -> nat
    decreases tensors.len(),
{
    if tensors.len() == 0 {
        0
    } else {
        rough_total(tensors.drop_last()) + rough_size(tensors.last())
    }
}

/// Roughly how many bytes an element of a tensor of this type takes in
/// memory.
pub fn per_element_bytes(type_id: u32) -> (bytes: u64)
    ensures
        bytes == element_bytes(type_id),
{
    if type_id == TYPE_Q4_0 {
        1
    } else if type_id == TYPE_Q5_1 {
        2
    } else {
        4
    }
}

/// Roughly how many bytes a tensor takes in memory: the number of its
/// elements times the rough size of one.
pub fn approx_bytes(tensor: &GGUFTensor) -> (bytes: u64)
    ensures
        bytes == capped(rough_size(tensor@)),
{
    let each = per_element_bytes(tensor.type_id);
    let ghost n = element_count(tensor.dims@);
    match count_elements(tensor.dims.as_slice()) {
        None => {
            assert(n * (each as nat) >= n) by (nonlinear_arith)
                requires
                    each >= 1,
            ;
            u64::MAX
        },
        Some(count) => match count.checked_mul(each) {
            None => u64::MAX,
            Some(bytes) => bytes,
        },
    }
}

/// Roughly how many bytes the tensors of a container take in memory.
pub fn total_approx_bytes(tensors: &[GGUFTensor]) -> (bytes: u64)
    ensures
        bytes == capped(rough_total(tensor_views(tensors@))),
{
    let ghost views = tensor_views(tensors@);
    let mut total: u64 = 0;
    let mut i: usize = 0;
    proof {
        assert(views.take(0) =~= Seq::<TensorView>::empty());
    }
    while i < tensors.len()
        invariant
            i <= tensors@.len(),
            views == tensor_views(tensors@),
            total == capped(rough_total(views.take(i as int))),
        decreases tensors@.len() - i,
    {
        proof {
            assert(views.take(i + 1).drop_last() =~= views.take(i as int));
            assert(views.take(i + 1).last() == tensors@[i as int]@);
        }
        total = total.saturating_add(approx_bytes(&tensors[i]));
        i += 1;
    }
    proof {
        assert(views.take(i as int) =~= views);
    }
    total
}

/// How many of `tensors` have the type code `type_id`.
pub open spec fn count_of(tensors: Seq<TensorView>, type_id: u32) -> nat
    decreases tensors.len(),
{
    if tensors.len() == 0 {
        0
    } else {
        count_of(tensors.drop_last(), type_id) + if tensors.last().type_id == type_id {
            1nat
        } else {
            0nat
        }
    }
}

/// The type codes of `tensors`, each once, in the order in which they
/// first occur.
pub open spec fn first_types(tensors: Seq<TensorView>) -> Seq<u32>
    decreases tensors.len(),
{
    if tensors.len() == 0 {
        Seq::empty()
    } else {
        let before = first_types(tensors.drop_last());
        if before.contains(tensors.last().type_id) {
            before
        } else {
            before.push(tensors.last().type_id)
        }
    }
}

/// No type code stands twice among the first types, and each is the type
/// code of a tensor.
proof fn lemma_first_types_distinct(tensors: Seq<TensorView>)
    ensures
        forall|a: int, b: int|
            0 <= a < b < first_types(tensors).len() ==> first_types(tensors)[a] != first_types(
                tensors,
            )[b],
    decreases tensors.len(),
{
    if tensors.len() > 0 {
        lemma_first_types_distinct(tensors.drop_last());
        let before = first_types(tensors.drop_last());
        if !before.contains(tensors.last().type_id) {
            assert forall|a: int, b: int|
                0 <= a < b < first_types(tensors).len() implies first_types(tensors)[a]
                != first_types(tensors)[b] by {
                if b == before.len() {
                    assert(before[a] == first_types(tensors)[a]);
                    assert(before.contains(before[a]));
                }
            }
        }
    }
}

/// No more tensors have a type code than there are tensors.
proof fn lemma_count_of_bound(tensors: Seq<TensorView>, type_id: u32)
    ensures
        count_of(tensors, type_id) <= tensors.len(),
    decreases tensors.len(),
{
    if tensors.len() > 0 {
        lemma_count_of_bound(tensors.drop_last(), type_id);
    }
}

/// Counts the tensors of each type code. The type codes come in the order
/// in which they first occur.
pub fn type_counts(tensors: &[GGUFTensor]) -> (counts: Vec<(u32, usize)>)
    ensures
        counts@.len() == first_types(tensor_views(tensors@)).len(),
        forall|k: int|
            0 <= k < counts@.len() ==> (#[trigger] counts@[k]).0 == first_types(
                tensor_views(tensors@),
            )[k] && counts@[k].1 == count_of(tensor_views(tensors@), counts@[k].0),
{
    let ghost views = tensor_views(tensors@);
    let mut counts: Vec<(u32, usize)> = Vec::new();
    let mut i: usize = 0;
    proof {
        assert(views.take(0) =~= Seq::<TensorView>::empty());
    }
    while i < tensors.len()
        invariant
            i <= tensors@.len(),
            views == tensor_views(tensors@),
            counts@.len() == first_types(views.take(i as int)).len(),
            forall|k: int|
                0 <= k < counts@.len() ==> (#[trigger] counts@[k]).0 == first_types(
                    views.take(i as int),
                )[k] && counts@[k].1 == count_of(views.take(i as int), counts@[k].0),
        decreases tensors@.len() - i,
    {
        let type_id = tensors[i].type_id;
        let ghost seen = views.take(i as int);
        let ghost next = views.take(i + 1);
        let ghost types = first_types(seen);
        let ghost before = counts@;
        proof {
            assert(next.drop_last() =~= seen);
            assert(next.last() == tensors@[i as int]@);
        }
        let mut at: usize = 0;
        while at < counts.len() && counts[at].0 != type_id
            invariant
                at <= counts@.len(),
                counts@ == before,
                types.len() == before.len(),
                forall|k: int| 0 <= k < before.len() ==> (#[trigger] before[k]).0 == types[k],
                forall|k: int| 0 <= k < at ==> types[k] != type_id,
            decreases counts@.len() - at,
        {
            at += 1;
        }
        if at < counts.len() {
            proof {
                assert(types[at as int] == type_id);
                assert(types.contains(type_id));
                lemma_count_of_bound(seen, type_id);
            }
            let count = counts[at].1;
            counts.set(at, (type_id, count + 1));
        } else {
            proof {
                if types.contains(type_id) {
                    let k = choose|k: int| 0 <= k < types.len() && types[k] == type_id;
                    assert(before[k].0 == types[k]);
                }
            }
            counts.push((type_id, 1));
            proof {
                lemma_count_none(seen, types, type_id);
            }
        }
        proof {
            lemma_first_types_distinct(seen);
            assert forall|k: int| 0 <= k < counts@.len() implies (#[trigger] counts@[k]).0
                == first_types(next)[k] && counts@[k].1 == count_of(next, counts@[k].0) by {
                if k < before.len() {
                    assert(before[k].0 == types[k]);
                    if k != at {
                        assert(types[k] != type_id);
                        assert(counts@[k] == before[k]);
                        assert(count_of(next, types[k]) == count_of(seen, types[k]));
                    }
                }
            }
        }
        i += 1;
    }
    proof {
        assert(views.take(i as int) =~= views);
    }
    counts
}

/// A type code that is not among the first types of tensors is the type
/// code of none of them.
proof fn lemma_count_none(tensors: Seq<TensorView>, types: Seq<u32>, type_id: u32)
    requires
        types == first_types(tensors),
        !types.contains(type_id),
    ensures
        count_of(tensors, type_id) == 0,
    decreases tensors.len(),
{
    if tensors.len() > 0 {
        let before = first_types(tensors.drop_last());
        let last = tensors.last().type_id;
        if before.contains(last) {
            if last == type_id {
                assert(types.contains(type_id));
            }
        } else {
            assert(types[before.len() as int] == last);
            assert(types.contains(last));
            assert forall|k: int| 0 <= k < before.len() implies before[k] != type_id by {
                assert(types[k] == before[k]);
            }
        }
        assert(!before.contains(type_id)) by {
            if before.contains(type_id) {
                let k = choose|k: int| 0 <= k < before.len() && before[k] == type_id;
                assert(types[k] == type_id);
            }
        }
        lemma_count_none(tensors.drop_last(), before, type_id);
    }
}

/// Whether the tensor at `a` ranks before the tensor at `b`: it is the
/// larger one, or as large and earlier in the directory.
pub open spec fn outranks(sizes: Seq<u64>, a: int, b: int) -> bool {
    sizes[a] > sizes[b] || (sizes[a] == sizes[b] && a < b)
}

/// The rough sizes of tensors, each as a 64-bit number.
pub open spec fn rough_sizes(tensors: Seq<TensorView>) -> Seq<u64> {
    Seq::new(tensors.len(), |i: int| capped(rough_size(tensors[i])))
}

/// Whether the place `j` is in the list `top`.
pub open spec fn listed(top: Seq<usize>, j: int) -> bool {
    exists|k: int| 0 <= k < top.len() && #[trigger] top[k] == j
}

/// Whether `top` holds the places of the largest of the tensors with the
/// sizes `sizes`, the largest first: each ranks before the next, and
/// before every tensor that is not among them; and there are `limit` of
/// them unless there are no more tensors.
pub open spec fn ranks_first(sizes: Seq<u64>, top: Seq<usize>, limit: nat) -> bool {
    &&& top.len() <= limit
    &&& forall|k: int| 0 <= k < top.len() ==> (#[trigger] top[k]) < sizes.len()
    &&& forall|k: int|
        0 <= k < top.len() - 1 ==> outranks(sizes, #[trigger] top[k] as int, top[k + 1] as int)
    &&& forall|j: int, k: int|
        0 <= j < sizes.len() && 0 <= k < top.len() && !listed(top, j)
            ==> #[trigger] outranks(sizes, top[k] as int, j)
    &&& top.len() == limit || forall|j: int| 0 <= j < sizes.len() ==> listed(top, j)
}

/// The places in the directory of the `limit` largest tensors, by their
/// rough sizes, the largest first; of tensors of one size the earlier
/// comes first.
pub fn largest_tensors(tensors: &[GGUFTensor], limit: usize) -> (top: Vec<usize>)
    ensures
        ranks_first(rough_sizes(tensor_views(tensors@)), top@, limit as nat),
{
    let n = tensors.len();
    let ghost wanted = rough_sizes(tensor_views(tensors@));
    let mut sizes: Vec<u64> = Vec::new();
    let mut i: usize = 0;
    while i < n
        invariant
            n == tensors@.len(),
            i <= n,
            wanted == rough_sizes(tensor_views(tensors@)),
            sizes@ == wanted.take(i as int),
        decreases n - i,
    {
        sizes.push(approx_bytes(&tensors[i]));
        assert(sizes@ =~= wanted.take(i + 1));
        i += 1;
    }
    assert(sizes@ =~= wanted);
    let mut top: Vec<usize> = Vec::new();
    let mut more = true;
    while more && top.len() < limit
        invariant
            n == sizes@.len(),
            top@.len() <= limit,
            forall|k: int| 0 <= k < top@.len() ==> (#[trigger] top@[k]) < n,
            forall|k: int|
                0 <= k < top@.len() - 1 ==> outranks(
                    sizes@,
                    #[trigger] top@[k] as int,
                    top@[k + 1] as int,
                ),
            forall|j: int|
                0 <= j < n && top@.len() > 0 && !listed(top@, j) ==> outranks(
                    sizes@,
                    top@.last() as int,
                    j,
                ),
            forall|j: int|
                0 <= j < n && top@.len() > 0 && outranks(sizes@, top@.last() as int, j)
                    ==> !listed(top@, j),
            !more ==> forall|j: int| 0 <= j < n ==> listed(top@, j),
        decreases
                if more {
                    1nat
                } else {
                    0nat
                },
                limit - top@.len(),
    {
        let ghost chosen = top@;
        let mut best: Option<usize> = None;
        let mut j: usize = 0;
        while j < n
            invariant
                n == sizes@.len(),
                j <= n,
                top@ == chosen,
                forall|k: int| 0 <= k < top@.len() ==> (#[trigger] top@[k]) < n,
                match best {
                    Some(b) => b < j && !listed(chosen, b as int) && forall|c: int|
                        0 <= c < j && c != b && !listed(chosen, c) ==> outranks(
                            sizes@,
                            b as int,
                            c,
                        ),
                    None => forall|c: int| 0 <= c < j ==> listed(chosen, c),
                },
                forall|c: int|
                    0 <= c < n && chosen.len() > 0 && !listed(chosen, c) ==> outranks(
                        sizes@,
                        chosen.last() as int,
                        c,
                    ),
                forall|c: int|
                    0 <= c < n && chosen.len() > 0 && outranks(sizes@, chosen.last() as int, c)
                        ==> !listed(chosen, c),
            decreases n - j,
        {
            let open = if top.len() == 0 {
                true
            } else {
                let last = top[top.len() - 1];
                sizes[last] > sizes[j] || (sizes[last] == sizes[j] && last < j)
            };
            proof {
                if !open {
                    assert(listed(chosen, j as int));
                }
                if chosen.len() == 0 {
                    assert(!listed(chosen, j as int));
                }
            }
            if open {
                match best {
                    None => {
                        best = Some(j);
                    },
                    Some(b) => {
                        if sizes[j] > sizes[b] {
                            best = Some(j);
                        }
                    },
                }
            }
            j += 1;
        }
        match best {
            None => {
                more = false;
            },
            Some(b) => {
                top.push(b);
                proof {
                    assert(top@.drop_last() =~= chosen);
                    assert forall|c: int| listed(top@, c) <==> listed(chosen, c) || c == b by {
                        if listed(chosen, c) {
                            let k = choose|k: int| 0 <= k < chosen.len() && chosen[k] == c;
                            assert(top@[k] == c);
                        }
                        if c == b {
                            assert(top@[top@.len() - 1] == b);
                        }
                        if listed(top@, c) {
                            let k = choose|k: int| 0 <= k < top@.len() && top@[k] == c;
                            if k < chosen.len() {
                                assert(chosen[k] == c);
                            }
                        }
                    }
                    assert forall|k: int| 0 <= k < top@.len() - 1 implies outranks(
                        sizes@,
                        #[trigger] top@[k] as int,
                        top@[k + 1] as int,
                    ) by {
                        if k < chosen.len() - 1 {
                            assert(top@[k] == chosen[k] && top@[k + 1] == chosen[k + 1]);
                        } else {
                            assert(top@[k] == chosen.last());
                        }
                    }
                    assert forall|c: int|
                        0 <= c < n && !listed(top@, c) implies outranks(sizes@, b as int, c) by {
                        assert(!listed(chosen, c) && c != b);
                    }
                    assert(top@.last() == b);
                    assert forall|c: int|
                        0 <= c < n && outranks(sizes@, b as int, c) implies !listed(top@, c) by {
                        if listed(chosen, c) && chosen.len() > 0 {
                            if c != chosen.last() {
                                lemma_above_last(sizes@, chosen, c);
                            }
                        }
                    }
                }
            },
        }
    }
    proof {
        lemma_ranking(sizes@, top@, limit as nat);
    }
    top
}

/// In a list where each ranks before the next, each ranks before the last.
proof fn lemma_above_last(sizes: Seq<u64>, top: Seq<usize>, c: int)
    requires
        top.len() > 0,
        forall|k: int| 0 <= k < top.len() ==> (#[trigger] top[k]) < sizes.len(),
        forall|k: int|
            0 <= k < top.len() - 1 ==> outranks(sizes, #[trigger] top[k] as int, top[k + 1] as int),
        listed(top, c),
        0 <= c < sizes.len(),
        c != top.last(),
    ensures
        outranks(sizes, c, top.last() as int),
    decreases top.len(),
{
    let k = choose|k: int| 0 <= k < top.len() && top[k] == c;
    if k < top.len() - 2 {
        let front = top.drop_last();
        assert forall|m: int| 0 <= m < front.len() - 1 implies outranks(
            sizes,
            #[trigger] front[m] as int,
            front[m + 1] as int,
        ) by {
            assert(front[m] == top[m] && front[m + 1] == top[m + 1]);
        }
        assert(front[k] == c);
        assert(listed(front, c));
        assert(outranks(sizes, top[top.len() - 2] as int, top[top.len() - 2 + 1] as int));
        if c != front.last() {
            lemma_above_last(sizes, front, c);
        }
    } else {
        assert(outranks(sizes, top[top.len() - 2] as int, top[top.len() - 2 + 1] as int));
    }
}

/// A list where each ranks before the next, and the last before every
/// tensor outside the list, ranks first.
proof fn lemma_ranking(sizes: Seq<u64>, top: Seq<usize>, limit: nat)
    requires
        top.len() <= limit,
        forall|k: int| 0 <= k < top.len() ==> (#[trigger] top[k]) < sizes.len(),
        forall|k: int|
            0 <= k < top.len() - 1 ==> outranks(sizes, #[trigger] top[k] as int, top[k + 1] as int),
        forall|j: int|
            0 <= j < sizes.len() && top.len() > 0 && !listed(top, j) ==> outranks(
                sizes,
                top.last() as int,
                j,
            ),
        top.len() == limit || forall|j: int| 0 <= j < sizes.len() ==> listed(top, j),
    ensures
        ranks_first(sizes, top, limit),
{
    assert forall|j: int, k: int|
        0 <= j < sizes.len() && 0 <= k < top.len() && !listed(
            top,
            j,
        ) implies #[trigger] outranks(sizes, top[k] as int, j) by {
        assert(listed(top, top[k] as int));
        if top[k] != top.last() {
            lemma_above_last(sizes, top, top[k] as int);
        }
    }
}

} // verus!
