//! Ranking of scored items: the best `limit` items with a positive score.
use vstd::prelude::*;

verus! {

broadcast use vstd::seq_lib::lemma_seq_contains_after_push;

/// Item `i` ranks before item `j`: a higher score, or an equal score and an earlier position.
pub open spec fn ranks_before(keys: Seq<u32>, i: int, j: int) -> bool {
    keys[i] > keys[j] || (keys[i] == keys[j] && i < j)
}

pub open spec fn positive(keys: Seq<u32>, i: int) -> bool {
    0 <= i < keys.len() && keys[i] > 0
}

/// `r` lists, best first, the `limit` best positively scored items (all of them when
/// there are fewer).
pub open spec fn top_ranked_spec(keys: Seq<u32>, limit: nat, r: Seq<usize>) -> bool {
    &&& r.len() <= limit
    &&& r.len() < limit ==> forall|i: int| positive(keys, i) ==> r.contains(i as usize)
    &&& forall|k: int| 0 <= k < r.len() ==> positive(keys, #[trigger] r[k] as int)
    &&& forall|a: int, b: int|
        0 <= a < b < r.len() ==> ranks_before(keys, #[trigger] r[a] as int, #[trigger] r[b] as int)
    &&& forall|i: int, k: int|
        #![trigger positive(keys, i), r[k]]
        positive(keys, i) && !r.contains(i as usize) && 0 <= k < r.len() ==> ranks_before(
            keys,
            r[k] as int,
            i,
        )
}


pub open spec fn falses(t: Seq<bool>) -> nat
    decreases t.len(),
{
    if t.len() == 0 {
        0
    } else {
        falses(t.drop_last()) + if t.last() {
            0nat
        } else {
            1nat
        }
    }
}

proof fn lemma_falses_set(t: Seq<bool>, b: int)
    requires
        0 <= b < t.len(),
        !t[b],
    ensures
        falses(t.update(b, true)) + 1 == falses(t),
    decreases t.len(),
{
    if b < t.len() - 1 {
        lemma_falses_set(t.drop_last(), b);
        assert(t.update(b, true).drop_last() =~= t.drop_last().update(b, true));
    } else {
        assert(t.update(b, true).drop_last() =~= t.drop_last());
    }
}

/// The positions of the `limit` best positively scored items, best first; equal
/// scores keep their order.
pub fn top_ranked(keys: &Vec<u32>, limit: usize) -> (r: Vec<usize>)
    ensures
        top_ranked_spec(keys@, limit as nat, r@),
{
    let n = keys.len();
    let mut taken: Vec<bool> = Vec::new();
    let mut z: usize = 0;
    while z < n
        invariant
            z <= n,
            n == keys@.len(),
            taken@.len() == z,
            forall|j: int| 0 <= j < z ==> !taken@[j],
        decreases n - z,
    {
        taken.push(false);
        z = z + 1;
    }
    let mut r: Vec<usize> = Vec::new();
    while r.len() < limit
        invariant
            n == keys@.len(),
            taken@.len() == n,
            r@.len() <= limit,
            forall|j: int| 0 <= j < n ==> (taken@[j] <==> r@.contains(j as usize)),
            forall|k: int| 0 <= k < r@.len() ==> positive(keys@, #[trigger] r@[k] as int),
            forall|a: int, b: int|
                0 <= a < b < r@.len() ==> ranks_before(keys@, #[trigger] r@[a] as int, #[trigger] r@[b] as int),
            forall|i: int, k: int|
                #![trigger positive(keys@, i), r@[k]]
                positive(keys@, i) && !r@.contains(i as usize) && 0 <= k < r@.len() ==> ranks_before(
                    keys@,
                    r@[k] as int,
                    i,
                ),
        decreases falses(taken@),
    {
        // The best item not yet taken.
        let mut best: Option<usize> = None;
        let mut j: usize = 0;
        while j < n
            invariant
                j <= n,
                n == keys@.len(),
                taken@.len() == n,
                match best {
                    Some(b) => b < j && positive(keys@, b as int) && !taken@[b as int] && forall|i: int|
                        0 <= i < j && positive(keys@, i) && !taken@[i] && i != b ==> ranks_before(keys@, b as int, i),
                    None => forall|i: int| 0 <= i < j ==> !(positive(keys@, i) && !taken@[i]),
                },
            decreases n - j,
        {
            if keys[j] > 0 && !taken[j] {
                match best {
                    Some(b) => {
                        if keys[j] > keys[b] {
                            best = Some(j);
                        }
                    },
                    None => {
                        best = Some(j);
                    },
                }
            }
            j = j + 1;
        }
        match best {
            Some(b) => {
                assert(!r@.contains(b));
                let ghost before = r@;
                let ghost tk = taken@;
                r.push(b);
                taken.set(b, true);
                proof {
                    lemma_falses_set(tk, b as int);
                }
                assert forall|i: int, k: int|
                    #![trigger positive(keys@, i), r@[k]]
                    positive(keys@, i) && !r@.contains(i as usize) && 0 <= k < r@.len() implies ranks_before(
                        keys@,
                        r@[k] as int,
                        i,
                    ) by {
                    if k < before.len() {
                        assert(r@[k] == before[k]);
                        assert(!before.contains(i as usize));
                    } else {
                        assert(i != b);
                        assert(!tk[i]);
                    }
                }
                assert forall|a: int, c: int|
                    0 <= a < c < r@.len() implies ranks_before(keys@, #[trigger] r@[a] as int, #[trigger] r@[c] as int) by {
                    if c < before.len() {
                        assert(r@[a] == before[a] && r@[c] == before[c]);
                    } else {
                        assert(r@[a] == before[a]);
                        assert(positive(keys@, b as int));
                        assert(!before.contains(b));
                    }
                }
            },
            None => {
                assert forall|i: int| positive(keys@, i) implies r@.contains(i as usize) by {
                    assert(taken@[i]);
                }
                return r;
            },
        }
    }
    r
}

} // verus!
