use vstd::prelude::*;

verus! {

broadcast use vstd::seq_lib::group_to_multiset_ensures;

/// `same` is an `n` by `n` table: `same[i][j]` tells whether candidates `i` and `j`
/// have the same normal direction.
pub open spec fn is_square(same: Seq<Vec<bool>>, n: nat) -> bool {
    same.len() == n && forall|i: int| 0 <= i < n ==> (#[trigger] same[i])@.len() == n
}

/// Candidate `j` repeats the normal of some candidate before it.
pub open spec fn is_duplicate(same: Seq<Vec<bool>>, j: int) -> bool {
    exists|i: int| 0 <= i < j && (#[trigger] same[i])@[j]
}

/// One flag per candidate: set when the candidate is a duplicate.
pub open spec fn duplicates(same: Seq<Vec<bool>>) -> Seq<bool> {
    Seq::new(same.len(), |j: int| is_duplicate(same, j))
}

/// The list of candidates after the removal of index `j`, done by moving the last
/// candidate into its place.
pub open spec fn swap_removed<T>(s: Seq<T>, j: int) -> Seq<T> {
    s.update(j, s.last()).drop_last()
}

/// The list after every flagged index from the end down to `j` (included) was removed,
/// highest index first, each by moving the last candidate into its place.
pub open spec fn removed_from<T>(s: Seq<T>, flags: Seq<bool>, j: int) -> Seq<T>
    decreases s.len() - j,
{
    if j >= s.len() || j < 0 {
        s
    } else {
        let rest = removed_from(s, flags, j + 1);
        if flags[j] {
            swap_removed(rest, j)
        } else {
            rest
        }
    }
}

/// The candidates from index `j` on that are not flagged, in their order.
pub open spec fn unflagged_from<T>(s: Seq<T>, flags: Seq<bool>, j: int) -> Seq<T>
    decreases s.len() - j,
{
    if j >= s.len() || j < 0 {
        Seq::empty()
    } else if flags[j] {
        unflagged_from(s, flags, j + 1)
    } else {
        seq![s[j]] + unflagged_from(s, flags, j + 1)
    }
}

/// The candidates that survive when every duplicate is removed.
pub open spec fn deduplicated<T>(planes: Seq<T>, same: Seq<Vec<bool>>) -> Seq<T> {
    removed_from(planes, duplicates(same), 0)
}

/// Flags each candidate whose normal equals that of an earlier candidate.
pub fn duplicate_mask(same: &Vec<Vec<bool>>) -> (r: Vec<bool>)
    requires
        is_square(same@, same@.len()),
    ensures
        r@ == duplicates(same@),
{
    let n = same.len();
    let mut mask: Vec<bool> = Vec::new();
    while mask.len() < n
        invariant
            mask@.len() <= n,
            n == same@.len(),
            forall|j: int| 0 <= j < mask@.len() ==> !mask@[j],
        decreases n - mask@.len(),
    {
        mask.push(false);
    }
    let mut i: usize = 0;
    while i < n
        invariant
            is_square(same@, n as nat),
            n == same@.len(),
            i <= n,
            mask@.len() == n,
            forall|jj: int|
                0 <= jj < n ==> #[trigger] mask@[jj] == exists|ii: int|
                    0 <= ii < i && ii < jj && (#[trigger] same@[ii])@[jj],
        decreases n - i,
    {
        let row = &same[i];
        let mut j: usize = i + 1;
        while j < n
            invariant
                is_square(same@, n as nat),
                n == same@.len(),
                i < n,
                i + 1 <= j <= n,
                mask@.len() == n,
                row@ == same@[i as int]@,
                forall|jj: int|
                    0 <= jj < n ==> #[trigger] mask@[jj] == ((exists|ii: int|
                        0 <= ii < i && ii < jj && (#[trigger] same@[ii])@[jj]) || (i < jj < j
                        && same@[i as int]@[jj])),
            decreases n - j,
        {
            if row[j] {
                mask.set(j, true);
            }
            j = j + 1;
        }
        assert forall|jj: int| 0 <= jj < n implies #[trigger] mask@[jj] == exists|ii: int|
            0 <= ii < i + 1 && ii < jj && (#[trigger] same@[ii])@[jj] by {
            if i < jj && same@[i as int]@[jj] {
                assert(0 <= i < i + 1 && i < jj && same@[i as int]@[jj]);
            }
        }
        i = i + 1;
    }
    assert forall|jj: int| 0 <= jj < n implies mask@[jj] == #[trigger] is_duplicate(same@, jj) by {
        if is_duplicate(same@, jj) {
            let ii = choose|ii: int| 0 <= ii < jj && (#[trigger] same@[ii])@[jj];
            assert(0 <= ii < n && ii < jj && same@[ii]@[jj]);
        }
    }
    assert(mask@ =~= duplicates(same@));
    mask
}

/// Removing index `j` by moving the last candidate into its place keeps, from `j` on,
/// exactly what stood after `j`.
proof fn lemma_swap_removed_tail<T>(v: Seq<T>, j: int)
    requires
        0 <= j < v.len(),
    ensures
        swap_removed(v, j).subrange(j, v.len() - 1).to_multiset() == v.subrange(
            j + 1,
            v.len() as int,
        ).to_multiset(),
{
    let w = swap_removed(v, j);
    if j == v.len() - 1 {
        assert(w.subrange(j, v.len() - 1) =~= Seq::<T>::empty());
        assert(v.subrange(j + 1, v.len() as int) =~= Seq::<T>::empty());
    } else {
        let a = v.subrange(j + 1, v.len() - 1);
        assert(w.subrange(j, v.len() - 1) =~= seq![v.last()] + a);
        assert(v.subrange(j + 1, v.len() as int) =~= a + seq![v.last()]);
        vstd::seq_lib::lemma_multiset_commutative(seq![v.last()], a);
        vstd::seq_lib::lemma_multiset_commutative(a, seq![v.last()]);
    }
}

/// Removes every flagged index, highest first, each by moving the last element into
/// its place. What remains is the unflagged elements, in the order that this leaves.
pub fn remove_flagged<T>(items: &mut Vec<T>, flags: &Vec<bool>)
    requires
        flags@.len() == old(items)@.len(),
    ensures
        final(items)@ == removed_from(old(items)@, flags@, 0),
        final(items)@.to_multiset() == unflagged_from(old(items)@, flags@, 0).to_multiset(),
        final(items)@.len() == unflagged_from(old(items)@, flags@, 0).len(),
{
    let ghost s = items@;
    let mut j: usize = items.len();
    assert(items@.subrange(j as int, items@.len() as int) =~= Seq::<T>::empty());
    while j > 0
        invariant
            flags@.len() == s.len(),
            j <= s.len(),
            items@ == removed_from(s, flags@, j as int),
            j <= items@.len(),
            items@.subrange(0, j as int) == s.subrange(0, j as int),
            items@.subrange(j as int, items@.len() as int).to_multiset() == unflagged_from(
                s,
                flags@,
                j as int,
            ).to_multiset(),
        decreases j,
    {
        let ghost v = items@;
        let k = j - 1;
        assert(v[k as int] == s[k as int]) by {
            assert(v.subrange(0, j as int)[k as int] == s.subrange(0, j as int)[k as int]);
        }
        proof {
            let tail = v.subrange(j as int, v.len() as int);
            assert(v.subrange(k as int, v.len() as int) =~= seq![s[k as int]] + tail);
            vstd::seq_lib::lemma_multiset_commutative(seq![s[k as int]], tail);
            vstd::seq_lib::lemma_multiset_commutative(
                seq![s[k as int]],
                unflagged_from(s, flags@, j as int),
            );
        }
        if flags[k] {
            items.swap_remove(k);
            proof {
                lemma_swap_removed_tail(v, k as int);
                assert(items@.subrange(0, k as int) =~= s.subrange(0, k as int));
            }
        } else {
            assert(items@.subrange(0, k as int) =~= s.subrange(0, k as int));
        }
        j = k;
    }
    proof {
        assert(items@.subrange(0, items@.len() as int) =~= items@);
        items@.to_multiset_ensures();
        unflagged_from(s, flags@, 0).to_multiset_ensures();
    }
}

/// Keeps the first of each group of candidates that share a normal direction: every
/// candidate whose normal equals an earlier one's is removed.
pub fn dedup_planes<T>(planes: Vec<T>, same: &Vec<Vec<bool>>) -> (r: Vec<T>)
    requires
        is_square(same@, planes@.len()),
    ensures
        r@ == deduplicated(planes@, same@),
        r@.to_multiset() == unflagged_from(planes@, duplicates(same@), 0).to_multiset(),
        r@.len() <= planes@.len(),
{
    let mask = duplicate_mask(same);
    let mut kept = planes;
    remove_flagged(&mut kept, &mask);
    proof {
        lemma_unflagged_len(planes@, mask@, 0);
    }
    kept
}

/// What is unflagged from `j` on stands in the list.
pub proof fn lemma_unflagged_within<T>(s: Seq<T>, flags: Seq<bool>, j: int, x: T)
    requires
        0 <= j,
        unflagged_from(s, flags, j).contains(x),
    ensures
        s.contains(x),
    decreases s.len() - j,
{
    if j < s.len() {
        let rest = unflagged_from(s, flags, j + 1);
        if flags[j] {
            lemma_unflagged_within(s, flags, j + 1, x);
        } else {
            let i = choose|i: int| 0 <= i < (seq![s[j]] + rest).len() && (seq![s[j]] + rest)[i] == x;
            if i == 0 {
                assert(s[j] == x);
            } else {
                assert(rest[i - 1] == x);
                assert(rest.contains(x));
                lemma_unflagged_within(s, flags, j + 1, x);
            }
        }
    }
}

/// At most the elements from `j` on are unflagged.
proof fn lemma_unflagged_len<T>(s: Seq<T>, flags: Seq<bool>, j: int)
    requires
        0 <= j <= s.len(),
    ensures
        unflagged_from(s, flags, j).len() <= s.len() - j,
    decreases s.len() - j,
{
    if j < s.len() {
        lemma_unflagged_len(s, flags, j + 1);
    }
}

/// Of two candidates whose normals are the same, only the first survives.
pub proof fn lemma_pair_same_normal_keeps_first<T>(planes: Seq<T>, same: Seq<Vec<bool>>)
    requires
        planes.len() == 2,
        is_square(same, 2),
        same[0]@[1],
    ensures
        deduplicated(planes, same) == seq![planes[0]],
{
    let flags = duplicates(same);
    assert(!is_duplicate(same, 0));
    assert(is_duplicate(same, 1)) by {
        assert(0 <= 0 < 1 && same[0]@[1]);
    }
    assert(removed_from(planes, flags, 2) == planes);
    assert(removed_from(planes, flags, 1) == swap_removed(planes, 1));
    assert(removed_from(planes, flags, 0) == removed_from(planes, flags, 1));
    assert(swap_removed(planes, 1) =~= seq![planes[0]]);
}

/// Two candidates whose normals differ both survive, in their order.
pub proof fn lemma_pair_distinct_normals_keeps_both<T>(planes: Seq<T>, same: Seq<Vec<bool>>)
    requires
        planes.len() == 2,
        is_square(same, 2),
        !same[0]@[1],
    ensures
        deduplicated(planes, same) == planes,
{
    let flags = duplicates(same);
    assert(!is_duplicate(same, 0));
    assert(!is_duplicate(same, 1));
    assert(removed_from(planes, flags, 2) == planes);
    assert(removed_from(planes, flags, 1) == planes);
    assert(removed_from(planes, flags, 0) == planes);
}

/// The first candidate never repeats an earlier normal, so it always survives, in first
/// place.
pub proof fn lemma_first_candidate_survives<T>(planes: Seq<T>, same: Seq<Vec<bool>>)
    requires
        planes.len() > 0,
        is_square(same, planes.len()),
    ensures
        deduplicated(planes, same).len() > 0,
        deduplicated(planes, same)[0] == planes[0],
{
    let flags = duplicates(same);
    lemma_removed_keeps_prefix(planes, flags, 1);
    assert(!is_duplicate(same, 0));
    assert(removed_from(planes, flags, 0) == removed_from(planes, flags, 1));
    let r = removed_from(planes, flags, 1);
    assert(r.subrange(0, 1)[0] == planes.subrange(0, 1)[0]);
}

/// Removals from index `j` on leave the first `j` elements where they stood.
proof fn lemma_removed_keeps_prefix<T>(s: Seq<T>, flags: Seq<bool>, j: int)
    requires
        0 <= j <= s.len(),
    ensures
        removed_from(s, flags, j).len() >= j,
        removed_from(s, flags, j).subrange(0, j) == s.subrange(0, j),
    decreases s.len() - j,
{
    if j < s.len() {
        lemma_removed_keeps_prefix(s, flags, j + 1);
        let rest = removed_from(s, flags, j + 1);
        assert(rest.subrange(0, j) =~= rest.subrange(0, j + 1).subrange(0, j));
        assert(s.subrange(0, j) =~= s.subrange(0, j + 1).subrange(0, j));
        if flags[j] {
            assert(swap_removed(rest, j).subrange(0, j) =~= rest.subrange(0, j));
        }
    } else {
        assert(removed_from(s, flags, j) == s);
    }
}

} // verus!
