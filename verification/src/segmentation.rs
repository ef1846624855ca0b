//! Graph side of hierarchical segmentation: maximal cliques and cluster merging.
use vstd::prelude::*;

verus! {

broadcast use vstd::seq_lib::lemma_seq_contains_after_push;

pub open spec fn adjacent(adj: Seq<Vec<bool>>, i: usize, j: usize) -> bool {
    adj[i as int]@[j as int]
}

/// A square adjacency matrix.
pub open spec fn square(adj: Seq<Vec<bool>>) -> bool {
    forall|i: int| 0 <= i < adj.len() ==> (#[trigger] adj[i])@.len() == adj.len()
}

/// No vertex is adjacent to itself.
pub open spec fn loop_free(adj: Seq<Vec<bool>>) -> bool {
    forall|i: usize| i < adj.len() ==> !#[trigger] adjacent(adj, i, i)
}

pub open spec fn symmetric(adj: Seq<Vec<bool>>) -> bool {
    forall|i: usize, j: usize|
        i < adj.len() && j < adj.len() ==> #[trigger] adjacent(adj, i, j) == adjacent(adj, j, i)
}

pub open spec fn vertices_below(s: Seq<usize>, n: nat) -> bool {
    forall|i: int| 0 <= i < s.len() ==> #[trigger] s[i] < n
}

/// `w` is outside `r` and adjacent from every vertex of `r`.
pub open spec fn in_common(adj: Seq<Vec<bool>>, r: Seq<usize>, w: usize) -> bool {
    &&& w < adj.len()
    &&& !r.contains(w)
    &&& forall|i: int| 0 <= i < r.len() ==> #[trigger] adjacent(adj, r[i], w)
}

/// The elements of `s` adjacent from `v`, in order.
fn neighbours_in(adj: &Vec<Vec<bool>>, s: &Vec<usize>, v: usize) -> (out: Vec<usize>)
    requires
        square(adj@),
        v < adj@.len(),
        vertices_below(s@, adj@.len()),
    ensures
        vertices_below(out@, adj@.len()),
        out@.len() <= s@.len(),
        forall|w: usize| out@.contains(w) <==> (s@.contains(w) && adjacent(adj@, v, w)),
        (exists|w: usize| s@.contains(w) && !adjacent(adj@, v, w)) ==> out@.len() < s@.len(),
        s@.no_duplicates() ==> out@.no_duplicates(),
{
    let mut out: Vec<usize> = Vec::new();
    let mut dropped = false;
    let mut i: usize = 0;
    let ghost row = adj@[v as int]@;
    assert(adj@[v as int]@.len() == adj@.len());
    while i < s.len()
        invariant
            square(adj@),
            v < adj@.len(),
            row == adj@[v as int]@,
            row.len() == adj@.len(),
            vertices_below(s@, adj@.len()),
            vertices_below(out@, adj@.len()),
            i <= s@.len(),
            out@.len() + (if dropped {
                1int
            } else {
                0int
            }) <= i,
            forall|w: usize|
                out@.contains(w) <==> (s@.take(i as int).contains(w) && adjacent(adj@, v, w)),
            dropped <== (exists|w: usize| s@.take(i as int).contains(w) && !adjacent(adj@, v, w)),
            s@.no_duplicates() ==> out@.no_duplicates(),
        decreases s.len() - i,
    {
        let w = s[i];
        assert(s@.take(i + 1 as int) =~= s@.take(i as int).push(w));
        if adj[v][w] {
            proof {
                if s@.no_duplicates() {
                    lemma_push_distinct(s@, i as int, out@);
                }
            }
            out.push(w);
        } else {
            dropped = true;
        }
        i = i + 1;
    }
    assert(s@.take(s@.len() as int) =~= s@);
    out
}


proof fn lemma_push_distinct(s: Seq<usize>, i: int, out: Seq<usize>)
    requires
        s.no_duplicates(),
        0 <= i < s.len(),
        out.no_duplicates(),
        forall|w: usize| out.contains(w) ==> s.take(i).contains(w),
    ensures
        out.push(s[i]).no_duplicates(),
{
    assert(!out.contains(s[i])) by {
        if out.contains(s[i]) {
            let j = choose|j: int| 0 <= j < i && s.take(i)[j] == s[i];
            assert(s[j] == s[i]);
        }
    }
    let o = out.push(s[i]);
    assert forall|a: int, b: int| 0 <= a < o.len() && 0 <= b < o.len() && a != b implies o[a] != o[b] by {
        if a < out.len() && b < out.len() {
        } else if a < out.len() {
            assert(out.contains(o[a]));
        } else {
            assert(out.contains(o[b]));
        }
    }
}

pub open spec fn set_of(s: Seq<usize>) -> Set<usize> {
    Set::new(|w: usize| s.contains(w))
}

pub open spec fn is_clique(adj: Seq<Vec<bool>>, c: Set<usize>) -> bool {
    &&& forall|a: usize| c.contains(a) ==> a < adj.len()
    &&& forall|a: usize, b: usize|
        c.contains(a) && c.contains(b) && a != b ==> #[trigger] adjacent(adj, a, b)
}

/// A clique that no further vertex can join.
pub open spec fn is_maximal_clique(adj: Seq<Vec<bool>>, c: Set<usize>) -> bool {
    &&& is_clique(adj, c)
    &&& forall|w: usize|
        w < adj.len() && !c.contains(w) ==> exists|a: usize|
            c.contains(a) && !#[trigger] adjacent(adj, a, w)
}

/// Number of elements of `s` adjacent from `u`.
pub open spec fn count_adjacent(adj: Seq<Vec<bool>>, s: Seq<usize>, u: usize) -> nat
    decreases s.len(),
{
    if s.len() == 0 {
        0
    } else {
        count_adjacent(adj, s.drop_last(), u) + if adjacent(adj, u, s.last()) {
            1nat
        } else {
            0nat
        }
    }
}

fn count_adjacent_exec(adj: &Vec<Vec<bool>>, s: &Vec<usize>, u: usize) -> (c: usize)
    requires
        square(adj@),
        u < adj@.len(),
        vertices_below(s@, adj@.len()),
    ensures
        c == count_adjacent(adj@, s@, u),
{
    let mut c: usize = 0;
    let mut i: usize = 0;
    assert(adj@[u as int]@.len() == adj@.len());
    while i < s.len()
        invariant
            square(adj@),
            u < adj@.len(),
            vertices_below(s@, adj@.len()),
            i <= s@.len(),
            c == count_adjacent(adj@, s@.take(i as int), u),
            c <= i,
        decreases s.len() - i,
    {
        assert(s@.take(i + 1 as int).drop_last() =~= s@.take(i as int));
        if adj[u][s[i]] {
            c = c + 1;
        }
        i = i + 1;
    }
    assert(s@.take(s@.len() as int) =~= s@);
    c
}

/// A pivot for the clique search: a vertex of `p` or `x` with the most neighbours in
/// `p` (the last such, scanning `p` then `x`).
fn choose_pivot(adj: &Vec<Vec<bool>>, p: &Vec<usize>, x: &Vec<usize>) -> (u: usize)
    requires
        square(adj@),
        vertices_below(p@, adj@.len()),
        vertices_below(x@, adj@.len()),
        p@.len() > 0,
    ensures
        p@.contains(u) || x@.contains(u),
        forall|w: usize|
            p@.contains(w) || x@.contains(w) ==> count_adjacent(adj@, p@, w) <= count_adjacent(
                adj@,
                p@,
                u,
            ),
{
    let mut best = p[0];
    let mut best_count = count_adjacent_exec(adj, p, best);
    assert(p@[0] == best);
    let mut i: usize = 1;
    while i < p.len()
        invariant
            square(adj@),
            vertices_below(p@, adj@.len()),
            1 <= i <= p@.len(),
            p@.contains(best),
            best < adj@.len(),
            best_count == count_adjacent(adj@, p@, best),
            forall|j: int| 0 <= j < i ==> count_adjacent(adj@, p@, #[trigger] p@[j]) <= best_count,
        decreases p.len() - i,
    {
        let c = count_adjacent_exec(adj, p, p[i]);
        if c >= best_count {
            best = p[i];
            best_count = c;
        }
        i = i + 1;
    }
    let mut j: usize = 0;
    while j < x.len()
        invariant
            square(adj@),
            vertices_below(p@, adj@.len()),
            vertices_below(x@, adj@.len()),
            j <= x@.len(),
            p@.contains(best) || x@.contains(best),
            best < adj@.len(),
            best_count == count_adjacent(adj@, p@, best),
            forall|k: int| 0 <= k < p@.len() ==> count_adjacent(adj@, p@, #[trigger] p@[k]) <= best_count,
            forall|k: int| 0 <= k < j ==> count_adjacent(adj@, p@, #[trigger] x@[k]) <= best_count,
        decreases x.len() - j,
    {
        let c = count_adjacent_exec(adj, p, x[j]);
        if c >= best_count {
            best = x[j];
            best_count = c;
        }
        j = j + 1;
    }
    best
}

/// The elements of `s` other than `v`, in order.
fn without(s: &Vec<usize>, v: usize) -> (out: Vec<usize>)
    ensures
        out@.len() <= s@.len(),
        forall|w: usize| out@.contains(w) <==> (s@.contains(w) && w != v),
        forall|n: nat| vertices_below(s@, n) ==> vertices_below(out@, n),
        s@.contains(v) ==> out@.len() < s@.len(),
        s@.no_duplicates() ==> out@.no_duplicates(),
{
    let mut out: Vec<usize> = Vec::new();
    let mut i: usize = 0;
    let mut dropped = false;
    while i < s.len()
        invariant
            i <= s@.len(),
            out@.len() + (if dropped {
                1int
            } else {
                0int
            }) <= i,
            dropped <== s@.take(i as int).contains(v),
            forall|w: usize| out@.contains(w) <==> (s@.take(i as int).contains(w) && w != v),
            forall|k: int| 0 <= k < out@.len() ==> exists|j: int| 0 <= j < i && s@[j] == #[trigger] out@[k],
            s@.no_duplicates() ==> out@.no_duplicates(),
        decreases s.len() - i,
    {
        assert(s@.take(i + 1 as int) =~= s@.take(i as int).push(s@[i as int]));
        if s[i] != v {
            proof {
                if s@.no_duplicates() {
                    lemma_push_distinct(s@, i as int, out@);
                }
            }
            out.push(s[i]);
        } else {
            dropped = true;
        }
        i = i + 1;
    }
    assert(s@.take(s@.len() as int) =~= s@);
    out
}


/// The elements of `s` not adjacent from `u`, in order.
fn non_neighbours_in(adj: &Vec<Vec<bool>>, s: &Vec<usize>, u: usize) -> (out: Vec<usize>)
    requires
        square(adj@),
        u < adj@.len(),
        vertices_below(s@, adj@.len()),
    ensures
        vertices_below(out@, adj@.len()),
        forall|w: usize| out@.contains(w) <==> (s@.contains(w) && !adjacent(adj@, u, w)),
        s@.no_duplicates() ==> out@.no_duplicates(),
{
    let mut out: Vec<usize> = Vec::new();
    let mut i: usize = 0;
    assert(adj@[u as int]@.len() == adj@.len());
    while i < s.len()
        invariant
            square(adj@),
            u < adj@.len(),
            vertices_below(s@, adj@.len()),
            vertices_below(out@, adj@.len()),
            i <= s@.len(),
            forall|w: usize|
                out@.contains(w) <==> (s@.take(i as int).contains(w) && !adjacent(adj@, u, w)),
            s@.no_duplicates() ==> out@.no_duplicates(),
        decreases s.len() - i,
    {
        let w = s[i];
        assert(s@.take(i + 1 as int) =~= s@.take(i as int).push(w));
        if !adj[u][w] {
            proof {
                if s@.no_duplicates() {
                    lemma_push_distinct(s@, i as int, out@);
                }
            }
            out.push(w);
        }
        i = i + 1;
    }
    assert(s@.take(s@.len() as int) =~= s@);
    out
}

/// `c` contains `r` and lies within `r` and `p`.
pub open spec fn between(r: Seq<usize>, c: Set<usize>, p: Seq<usize>) -> bool {
    &&& forall|w: usize| r.contains(w) ==> c.contains(w)
    &&& forall|w: usize| c.contains(w) ==> r.contains(w) || p.contains(w)
}

/// Search state of the clique enumeration: `p` and `x` split the common neighbours of `r`.
pub open spec fn search_state(
    adj: Seq<Vec<bool>>,
    r: Seq<usize>,
    p: Seq<usize>,
    x: Seq<usize>,
) -> bool {
    &&& vertices_below(r, adj.len())
    &&& r.no_duplicates()
    &&& vertices_below(p, adj.len())
    &&& p.no_duplicates()
    &&& vertices_below(x, adj.len())
    &&& forall|w: usize| (p.contains(w) || x.contains(w)) <==> in_common(adj, r, w)
    &&& forall|w: usize| !(p.contains(w) && x.contains(w))
    &&& symmetric(adj) ==> is_clique(adj, set_of(r))
}

/// The results appended after position `from` are maximal cliques between `r` and `r ∪ p`.
pub open spec fn reported_sound(
    adj: Seq<Vec<bool>>,
    res: Seq<Vec<usize>>,
    from: int,
    r: Seq<usize>,
    p: Seq<usize>,
) -> bool {
    forall|k: int|
        from <= k < res.len() ==> {
            &&& is_maximal_clique(adj, set_of(#[trigger] res[k]@))
            &&& between(r, set_of(res[k]@), p)
        }
}

/// From position `from` on, no two lists hold the same vertices.
pub open spec fn distinct_sets(res: Seq<Vec<usize>>, from: int) -> bool {
    forall|k1: int, k2: int|
        from <= k1 < k2 < res.len() ==> set_of(#[trigger] res[k1]@) != set_of(#[trigger] res[k2]@)
}

pub open spec fn reported(res: Seq<Vec<usize>>, from: int, c: Set<usize>) -> bool {
    exists|k: int| from <= k < res.len() && set_of(#[trigger] res[k]@) == c
}

/// From position `from` on, each list holds distinct vertices below `n`.
pub open spec fn vertex_lists(res: Seq<Vec<usize>>, from: int, n: nat) -> bool {
    forall|k: int| from <= k < res.len() ==> vertices_below(#[trigger] res[k]@, n) && res[k]@.no_duplicates()
}

/// Bron–Kerbosch with pivoting: report every maximal clique that extends `r` with
/// vertices of `p` and none of `x`.
fn bron_kerbosch_pivot(
    r: Vec<usize>,
    p: Vec<usize>,
    x: Vec<usize>,
    adj: &Vec<Vec<bool>>,
    results: &mut Vec<Vec<usize>>,
)
    requires
        square(adj@),
        loop_free(adj@),
        search_state(adj@, r@, p@, x@),
    ensures
        final(results)@.len() >= old(results)@.len(),
        forall|k: int| 0 <= k < old(results)@.len() ==> final(results)@[k] == old(results)@[k],
        vertex_lists(final(results)@, old(results)@.len() as int, adj@.len()),
        symmetric(adj@) ==> reported_sound(
            adj@,
            final(results)@,
            old(results)@.len() as int,
            r@,
            p@,
        ),
        symmetric(adj@) ==> forall|c: Set<usize>|
            is_maximal_clique(adj@, c) && between(r@, c, p@) ==> reported(
                final(results)@,
                old(results)@.len() as int,
                c,
            ),
        symmetric(adj@) ==> distinct_sets(final(results)@, old(results)@.len() as int),
    decreases p@.len(),
{
    let ghost n = adj@.len();
    if p.len() == 0 && x.len() == 0 {
        let ghost old_res = results@;
        results.push(r);
        proof {
            if symmetric(adj@) {
                let c = set_of(r@);
                assert forall|w: usize| w < n && !c.contains(w) implies exists|a: usize|
                    c.contains(a) && !#[trigger] adjacent(adj@, a, w) by {
                    assert(!p@.contains(w) && !x@.contains(w));
                    assert(!in_common(adj@, r@, w));
                    let i = choose|i: int| 0 <= i < r@.len() && !adjacent(adj@, r@[i], w);
                    assert(c.contains(r@[i]));
                }
                assert(results@[old_res.len() as int] == r);
                assert forall|c2: Set<usize>|
                    is_maximal_clique(adj@, c2) && between(r@, c2, p@) implies reported(
                    results@,
                    old_res.len() as int,
                    c2,
                ) by {
                    assert(set_of(r@) =~= c2);
                }
            }
        }
        return ;
    }
    if p.len() == 0 {
        proof {
            if symmetric(adj@) {
                assert forall|c: Set<usize>|
                    is_maximal_clique(adj@, c) && between(r@, c, p@) implies reported(
                    results@,
                    old(results)@.len() as int,
                    c,
                ) by {
                    let w = x@[0];
                    assert(x@.contains(w));
                    assert(in_common(adj@, r@, w));
                    assert(!c.contains(w));
                    let a = choose|a: usize| c.contains(a) && !adjacent(adj@, a, w);
                    assert(r@.contains(a));
                    let i = choose|i: int| 0 <= i < r@.len() && r@[i] == a;
                    assert(adjacent(adj@, r@[i], w));
                }
            }
        }
        return ;
    }
    let u = choose_pivot(adj, &p, &x);
    let cands = non_neighbours_in(adj, &p, u);
    let ghost p0 = p@;
    let ghost x0 = x@;
    let ghost start = results@.len() as int;
    let mut pp = p.clone();
    let mut xx = x.clone();
    assert(pp@ =~= p@);
    assert(xx@ =~= x@);
    let mut i: usize = 0;
    while i < cands.len()
        invariant
            square(adj@),
            loop_free(adj@),
            n == adj@.len(),
            search_state(adj@, r@, p0, x0),
            p@ == p0,
            x@ == x0,
            p0.contains(u) || x0.contains(u),
            vertices_below(pp@, n),
            vertices_below(xx@, n),
            i <= cands@.len(),
            pp@.len() <= p0.len(),
            i == 0 ==> pp@ == p0,
            i > 0 ==> pp@.len() < p0.len(),
            forall|w: usize| #[trigger] pp@.contains(w) <==> (p0.contains(w) && !cands@.take(i as int).contains(w)),
            forall|w: usize| #[trigger] xx@.contains(w) <==> (x0.contains(w) || cands@.take(i as int).contains(w)),
            forall|w: usize| cands@.contains(w) <==> (p0.contains(w) && !adjacent(adj@, u, w)),
            start == old(results)@.len(),
            results@.len() >= start,
            forall|k: int| 0 <= k < start ==> results@[k] == old(results)@[k],
            vertex_lists(results@, start, n),
            symmetric(adj@) ==> reported_sound(adj@, results@, start, r@, p0),
            symmetric(adj@) ==> forall|c: Set<usize>|
                is_maximal_clique(adj@, c) && between(r@, c, p0) && (exists|j: int|
                    0 <= j < i && c.contains(#[trigger] cands@[j])) ==> reported(results@, start, c),
            pp@.no_duplicates(),
            cands@.no_duplicates(),
            symmetric(adj@) ==> distinct_sets(results@, start),
            symmetric(adj@) ==> forall|k: int|
                start <= k < results@.len() ==> exists|j: int|
                    0 <= j < i && set_of(#[trigger] results@[k]@).contains(cands@[j]),
        decreases cands.len() - i,
    {
        let v = cands[i];
        assert(cands@.contains(v));
        assert(cands@.take(i + 1 as int) =~= cands@.take(i as int).push(v));
        assert(p0.contains(v));
        let mut rv = r.clone();
        rv.push(v);
        let pv = neighbours_in(adj, &pp, v);
        let xv = neighbours_in(adj, &xx, v);
        assert(!adjacent(adj@, v, v));
        proof {
            if i == 0 {
                assert(pp@.contains(v));
            }
            assert(pv@.len() < p0.len());
            assert forall|w: usize| (pv@.contains(w) || xv@.contains(w)) <==> in_common(adj@, rv@, w) by {
                if in_common(adj@, rv@, w) {
                    assert(adjacent(adj@, rv@[r@.len() as int], w));
                    assert forall|j: int| 0 <= j < r@.len() implies #[trigger] adjacent(adj@, r@[j], w) by {
                        assert(rv@[j] == r@[j]);
                    }
                    assert(in_common(adj@, r@, w));
                }
                if pv@.contains(w) || xv@.contains(w) {
                    assert(p0.contains(w) || x0.contains(w));
                    assert(in_common(adj@, r@, w));
                    assert(adjacent(adj@, v, w));
                    assert forall|j: int| 0 <= j < rv@.len() implies #[trigger] adjacent(adj@, rv@[j], w) by {
                        if j < r@.len() {
                            assert(rv@[j] == r@[j]);
                        }
                    }
                }
            }
            if symmetric(adj@) {
                assert(in_common(adj@, r@, v));
                assert forall|a: usize, b: usize|
                    set_of(rv@).contains(a) && set_of(rv@).contains(b) && a != b implies #[trigger] adjacent(adj@, a, b) by {
                    if a == v && b != v {
                        let j = choose|j: int| 0 <= j < r@.len() && r@[j] == b;
                        assert(adjacent(adj@, r@[j], v));
                    } else if b == v && a != v {
                        let j = choose|j: int| 0 <= j < r@.len() && r@[j] == a;
                        assert(adjacent(adj@, r@[j], v));
                    } else {
                        assert(set_of(r@).contains(a) && set_of(r@).contains(b));
                    }
                }
            }
        }
        assert(vertices_below(rv@, n));
        assert(forall|w: usize| !(pv@.contains(w) && xv@.contains(w)));
        assert(symmetric(adj@) ==> is_clique(adj@, set_of(rv@)));
        let ghost before = results@;
        bron_kerbosch_pivot(rv, pv, xv, adj, results);
        proof {
            if symmetric(adj@) {
                assert forall|k: int| start <= k < results@.len() implies {
                    &&& is_maximal_clique(adj@, set_of(#[trigger] results@[k]@))
                    &&& between(r@, set_of(results@[k]@), p0)
                } by {
                    if k < before.len() {
                        assert(results@[k] == before[k]);
                    } else {
                        assert(between(rv@, set_of(results@[k]@), pv@));
                    }
                }
                assert forall|c: Set<usize>|
                    is_maximal_clique(adj@, c) && between(r@, c, p0) && (exists|j: int|
                        0 <= j < i + 1 && c.contains(#[trigger] cands@[j])) implies reported(results@, start, c) by {
                    if exists|j: int| 0 <= j < i && c.contains(#[trigger] cands@[j]) {
                        assert(reported(before, start, c));
                        let k = choose|k: int| start <= k < before.len() && set_of(#[trigger] before[k]@) == c;
                        assert(results@[k] == before[k]);
                    } else {
                        assert(c.contains(v));
                        assert forall|w: usize| c.contains(w) implies rv@.contains(w) || pv@.contains(w) by {
                            if !rv@.contains(w) {
                                assert(!r@.contains(w));
                                assert(p0.contains(w));
                                assert(adjacent(adj@, v, w));
                                if cands@.take(i as int).contains(w) {
                                    let j = choose|j: int| 0 <= j < i && cands@.take(i as int)[j] == w;
                                    assert(cands@[j] == w);
                                }
                                assert(pp@.contains(w));
                            }
                        }
                        assert(between(rv@, c, pv@));
                        let k = choose|k: int| before.len() <= k < results@.len() && set_of(#[trigger] results@[k]@) == c;
                    }
                }
                assert(rv@[r@.len() as int] == v);
                assert forall|k: int| start <= k < results@.len() implies exists|j: int|
                    0 <= j < i + 1 && set_of(#[trigger] results@[k]@).contains(cands@[j]) by {
                    if k < before.len() {
                        assert(results@[k] == before[k]);
                    } else {
                        assert(between(rv@, set_of(results@[k]@), pv@));
                        assert(rv@.contains(v));
                        assert(set_of(results@[k]@).contains(cands@[i as int]));
                    }
                }
                assert forall|k1: int, k2: int| start <= k1 < k2 < results@.len() implies set_of(
                    #[trigger] results@[k1]@,
                ) != set_of(#[trigger] results@[k2]@) by {
                    if k2 < before.len() {
                        assert(results@[k1] == before[k1] && results@[k2] == before[k2]);
                    } else if k1 < before.len() {
                        assert(results@[k1] == before[k1]);
                        let j = choose|j: int| 0 <= j < i && set_of(before[k1]@).contains(cands@[j]);
                        let w = cands@[j];
                        assert(p0.contains(w));
                        assert(!r@.contains(w));
                        assert(w != v);
                        assert(cands@.take(i as int).contains(w)) by {
                            assert(cands@.take(i as int)[j] == w);
                        }
                        assert(!pp@.contains(w));
                        assert(!pv@.contains(w));
                        assert(!rv@.contains(w)) by {
                            if rv@.contains(w) {
                                let t = choose|t: int| 0 <= t < rv@.len() && rv@[t] == w;
                                if t < r@.len() {
                                    assert(r@[t] == w);
                                }
                            }
                        }
                        assert(between(rv@, set_of(results@[k2]@), pv@));
                        assert(!set_of(results@[k2]@).contains(w));
                    }
                }
            }
        }
        let ghost old_pp = pp@;
        let ghost old_xx = xx@;
        pp = without(&pp, v);
        xx.push(v);
        assert forall|w: usize| pp@.contains(w) <==> (p0.contains(w) && !cands@.take(i + 1 as int).contains(w)) by {
            assert(pp@.contains(w) <==> (old_pp.contains(w) && w != v));
            assert(old_pp.contains(w) <==> (p0.contains(w) && !cands@.take(i as int).contains(w)));
            assert(cands@.take(i + 1 as int).contains(w) <==> (cands@.take(i as int).contains(w) || w == v));
        }
        assert forall|w: usize| xx@.contains(w) <==> (x0.contains(w) || cands@.take(i + 1 as int).contains(w)) by {
            assert(cands@.take(i + 1 as int).contains(w) <==> (cands@.take(i as int).contains(w) || w == v));
            assert(xx@.contains(w) <==> (old_xx.contains(w) || w == v));
        }
        i = i + 1;
    }
    proof {
        if symmetric(adj@) {
            assert forall|c: Set<usize>|
                is_maximal_clique(adj@, c) && between(r@, c, p@) implies reported(results@, start, c) by {
                assert(in_common(adj@, r@, u));
                if forall|w: usize| c.contains(w) && !r@.contains(w) ==> adjacent(adj@, u, w) {
                    if c.contains(u) {
                        assert(adjacent(adj@, u, u));
                    } else {
                        let a = choose|a: usize| c.contains(a) && !adjacent(adj@, a, u);
                        if r@.contains(a) {
                            let j = choose|j: int| 0 <= j < r@.len() && r@[j] == a;
                            assert(adjacent(adj@, r@[j], u));
                        } else {
                            assert(adjacent(adj@, u, a));
                            assert(a < n);
                            assert(adjacent(adj@, a, u));
                        }
                    }
                }
                let w = choose|w: usize| c.contains(w) && !r@.contains(w) && !adjacent(adj@, u, w);
                assert(cands@.contains(w));
                let j = choose|j: int| 0 <= j < cands@.len() && cands@[j] == w;
                assert(c.contains(cands@[j]));
            }
        }
    }
}


/// All maximal cliques of the graph with adjacency matrix `adj`, each once, as a
/// list of distinct vertices.
pub fn find_maximal_cliques(adj: &Vec<Vec<bool>>) -> (cliques: Vec<Vec<usize>>)
    requires
        square(adj@),
        loop_free(adj@),
    ensures
        vertex_lists(cliques@, 0, adj@.len()),
        symmetric(adj@) ==> forall|k: int|
            0 <= k < cliques@.len() ==> is_maximal_clique(adj@, set_of(#[trigger] cliques@[k]@)),
        symmetric(adj@) ==> forall|c: Set<usize>|
            is_maximal_clique(adj@, c) ==> reported(cliques@, 0, c),
        symmetric(adj@) ==> distinct_sets(cliques@, 0),
{
    let n = adj.len();
    let mut p: Vec<usize> = Vec::new();
    let mut i: usize = 0;
    while i < n
        invariant
            i <= n,
            n == adj@.len(),
            p@.len() == i,
            forall|k: int| 0 <= k < i ==> p@[k] == k,
        decreases n - i,
    {
        p.push(i);
        i = i + 1;
    }
    let r: Vec<usize> = Vec::new();
    let x: Vec<usize> = Vec::new();
    let mut results: Vec<Vec<usize>> = Vec::new();
    proof {
        assert forall|w: usize| (p@.contains(w) || x@.contains(w)) <==> in_common(adj@, r@, w) by {
            if w < n {
                assert(p@[w as int] == w);
            }
        }
    }
    bron_kerbosch_pivot(r, p, x, adj, &mut results);
    proof {
        if symmetric(adj@) {
            assert forall|c: Set<usize>| is_maximal_clique(adj@, c) implies between(
                Seq::<usize>::empty(),
                c,
                p@,
            ) by {
                assert forall|w: usize| c.contains(w) implies p@.contains(w) by {
                    assert(p@[w as int] == w);
                }
            }
        }
    }
    results
}


pub open spec fn views(v: Seq<Vec<usize>>) -> Seq<Seq<usize>> {
    v.map_values(|c: Vec<usize>| c@)
}

/// Some clique holds both `a` and `b`.
pub open spec fn pair_in_clique(cliques: Seq<Seq<usize>>, a: usize, b: usize) -> bool {
    exists|k: int| 0 <= k < cliques.len() && #[trigger] cliques[k].contains(a) && cliques[k].contains(b)
}

/// `q` and `a` have an element in common.
pub open spec fn meets_spec(q: Seq<usize>, a: Seq<usize>) -> bool {
    exists|s: usize| a.contains(s) && q.contains(s)
}

/// Some clique meets both `a` and `b`.
pub open spec fn touches_both(cliques: Seq<Seq<usize>>, a: Seq<usize>, b: Seq<usize>) -> bool {
    exists|k: int| 0 <= k < cliques.len() && meets_spec(#[trigger] cliques[k], a) && meets_spec(cliques[k], b)
}

/// Segments `0..n` grouped into runs of neighbours that share a clique.
pub open spec fn clique_runs(n: int, cliques: Seq<Seq<usize>>) -> Seq<Seq<usize>>
    decreases n,
{
    if n <= 0 {
        seq![]
    } else {
        let cs = clique_runs(n - 1, cliques);
        if n >= 2 && pair_in_clique(cliques, (n - 2) as usize, (n - 1) as usize) {
            cs.update(cs.len() - 1, cs.last().push((n - 1) as usize))
        } else {
            cs.push(seq![(n - 1) as usize])
        }
    }
}

/// Left to right, each cluster joins the one before it (as merged so far) when a
/// clique meets both.
pub open spec fn merge_touching(cs: Seq<Seq<usize>>, cliques: Seq<Seq<usize>>) -> Seq<Seq<usize>>
    decreases cs.len(),
{
    if cs.len() == 0 {
        seq![]
    } else {
        let acc = merge_touching(cs.drop_last(), cliques);
        if acc.len() > 0 && touches_both(cliques, acc.last(), cs.last()) {
            acc.update(acc.len() - 1, acc.last() + cs.last())
        } else {
            acc.push(cs.last())
        }
    }
}

proof fn lemma_clique_runs_len(n: int, cliques: Seq<Seq<usize>>)
    ensures
        n >= 1 ==> clique_runs(n, cliques).len() >= 1,
        n <= 0 ==> clique_runs(n, cliques).len() == 0,
    decreases n,
{
    if n > 0 {
        lemma_clique_runs_len(n - 1, cliques);
    }
}

fn pair_in_clique_exec(cliques: &Vec<Vec<usize>>, a: usize, b: usize) -> (r: bool)
    ensures
        r == pair_in_clique(views(cliques@), a, b),
{
    let ghost cv = views(cliques@);
    let mut k: usize = 0;
    while k < cliques.len()
        invariant
            k <= cliques@.len(),
            cv == views(cliques@),
            forall|j: int| 0 <= j < k ==> !(cv[j].contains(a) && cv[j].contains(b)),
        decreases cliques.len() - k,
    {
        if contains_exec(&cliques[k], a) && contains_exec(&cliques[k], b) {
            assert(cv[k as int] == cliques@[k as int]@);
            return true;
        }
        assert(cv[k as int] == cliques@[k as int]@);
        k = k + 1;
    }
    false
}

fn contains_exec(v: &Vec<usize>, a: usize) -> (r: bool)
    ensures
        r == v@.contains(a),
{
    let mut i: usize = 0;
    while i < v.len()
        invariant
            i <= v@.len(),
            forall|j: int| 0 <= j < i ==> v@[j] != a,
        decreases v.len() - i,
    {
        if v[i] == a {
            assert(v@[i as int] == a);
            return true;
        }
        i = i + 1;
    }
    false
}

/// Whether `q` shares an element with `a`.
fn meets(q: &Vec<usize>, a: &Vec<usize>) -> (r: bool)
    ensures
        r == meets_spec(q@, a@),
{
    let mut i: usize = 0;
    while i < a.len()
        invariant
            i <= a@.len(),
            forall|j: int| 0 <= j < i ==> !q@.contains(#[trigger] a@[j]),
        decreases a.len() - i,
    {
        if contains_exec(q, a[i]) {
            assert(a@.contains(a@[i as int]));
            return true;
        }
        i = i + 1;
    }
    assert forall|s: usize| a@.contains(s) implies !q@.contains(s) by {
        let j = choose|j: int| 0 <= j < a@.len() && a@[j] == s;
    }
    false
}

fn touches_both_exec(cliques: &Vec<Vec<usize>>, a: &Vec<usize>, b: &Vec<usize>) -> (r: bool)
    ensures
        r == touches_both(views(cliques@), a@, b@),
{
    let ghost cv = views(cliques@);
    let mut k: usize = 0;
    while k < cliques.len()
        invariant
            k <= cliques@.len(),
            cv == views(cliques@),
            forall|j: int| 0 <= j < k ==> !(meets_spec(#[trigger] cv[j], a@) && meets_spec(cv[j], b@)),
        decreases cliques.len() - k,
    {
        assert(cv[k as int] == cliques@[k as int]@);
        if meets(&cliques[k], a) && meets(&cliques[k], b) {
            return true;
        }
        k = k + 1;
    }
    false
}

/// Steps one and two of the merge: runs of neighbouring segments that share a clique,
/// then adjacent runs joined while a clique meets both.
fn join_by_cliques(n: usize, cliques: &Vec<Vec<usize>>) -> (cs: Vec<Vec<usize>>)
    ensures
        views(cs@) == merge_touching(clique_runs(n as int, views(cliques@)), views(cliques@)),
{
    let ghost cv = views(cliques@);
    // Runs of neighbours.
    let mut runs: Vec<Vec<usize>> = Vec::new();
    let mut k: usize = 0;
    while k < n
        invariant
            k <= n,
            cv == views(cliques@),
            views(runs@) == clique_runs(k as int, cv),
        decreases n - k,
    {
        proof {
            lemma_clique_runs_len(k as int, cv);
        }
        if k >= 1 && pair_in_clique_exec(cliques, k - 1, k) {
            let mut last = runs.pop().unwrap();
            let ghost before = last@;
            last.push(k);
            runs.push(last);
            assert(views(runs@) =~= clique_runs(k as int, cv).update(
                clique_runs(k as int, cv).len() - 1,
                before.push(k),
            ));
        } else {
            let mut one: Vec<usize> = Vec::new();
            one.push(k);
            let ghost before = runs@;
            runs.push(one);
            assert(views(runs@) =~= views(before).push(seq![k]));
        }
        k = k + 1;
    }
    // Join adjacent runs met by a common clique.
    let ghost rv = views(runs@);
    let mut acc: Vec<Vec<usize>> = Vec::new();
    let mut j: usize = 0;
    while j < runs.len()
        invariant
            j <= runs@.len(),
            cv == views(cliques@),
            rv == views(runs@),
            views(acc@) == merge_touching(rv.take(j as int), cv),
        decreases runs.len() - j,
    {
        assert(rv.take(j + 1 as int).drop_last() =~= rv.take(j as int));
        assert(rv.take(j + 1 as int).last() == runs@[j as int]@);
        let d = runs[j].clone();
        assert(d@ =~= runs@[j as int]@);
        if acc.len() > 0 && touches_both_exec(cliques, &acc[acc.len() - 1], &d) {
            let mut last = acc.pop().unwrap();
            let ghost before = last@;
            let mut t: usize = 0;
            while t < d.len()
                invariant
                    t <= d@.len(),
                    last@ == before + d@.take(t as int),
                decreases d.len() - t,
            {
                assert(d@.take(t + 1 as int) =~= d@.take(t as int).push(d@[t as int]));
                last.push(d[t]);
                t = t + 1;
            }
            assert(d@.take(d@.len() as int) =~= d@);
            let ghost prev = acc@;
            acc.push(last);
            assert(views(acc@) =~= merge_touching(rv.take(j as int), cv).update(
                merge_touching(rv.take(j as int), cv).len() - 1,
                before + d@,
            ));
        } else {
            let ghost prev = acc@;
            acc.push(d);
            assert(views(acc@) =~= views(prev).push(rv[j as int]));
        }
        j = j + 1;
    }
    assert(rv.take(runs@.len() as int) =~= rv);
    acc
}


/// Scanning the members of `c` (in cluster `j`) with similarity keys `row`: the best key
/// so far and the cluster it was seen in; a key must beat the best strictly.
pub open spec fn scan_members(
    row: Seq<u32>,
    c: Seq<usize>,
    init: (u32, Option<int>),
    j: int,
) -> (u32, Option<int>)
    decreases c.len(),
{
    if c.len() == 0 {
        init
    } else {
        let b = scan_members(row, c.drop_last(), init, j);
        if row[c.last() as int] > b.0 {
            (row[c.last() as int], Some(j))
        } else {
            b
        }
    }
}

/// Scanning clusters `0..upto` other than `i`.
pub open spec fn scan_clusters(row: Seq<u32>, cl: Seq<Seq<usize>>, i: int, upto: int) -> (
    u32,
    Option<int>,
)
    decreases upto,
{
    if upto <= 0 {
        (0, None)
    } else {
        let b = scan_clusters(row, cl, i, upto - 1);
        if upto - 1 == i {
            b
        } else {
            scan_members(row, cl[upto - 1], b, upto - 1)
        }
    }
}

/// The cluster holding the segment most similar to the single segment of cluster `i`:
/// the first cluster (in order) where a strictly best positive key occurs.
pub open spec fn nearest_cluster(cl: Seq<Seq<usize>>, i: int, keys: Seq<Vec<u32>>) -> Option<int> {
    scan_clusters(keys[cl[i][0] as int]@, cl, i, cl.len() as int).1
}

/// `c` with `s` put before the first element not smaller than it.
pub open spec fn insert_sorted(c: Seq<usize>, s: usize) -> Seq<usize>
    decreases c.len(),
{
    if c.len() == 0 {
        seq![s]
    } else if s <= c[0] {
        seq![s] + c
    } else {
        seq![c[0]] + insert_sorted(c.drop_first(), s)
    }
}

/// From cluster `i` on, each single-segment cluster that has a nearest cluster is
/// dissolved into it.
pub open spec fn settle(cl: Seq<Seq<usize>>, i: int, keys: Seq<Vec<u32>>) -> Seq<Seq<usize>>
    decreases 2 * cl.len() - i,
{
    if i < 0 || i >= cl.len() {
        cl
    } else if cl[i].len() == 1 && nearest_cluster(cl, i, keys) is Some {
        let t = nearest_cluster(cl, i, keys)->0;
        let s = cl[i][0];
        let rest = cl.remove(i);
        let nt = if t > i {
            t - 1
        } else {
            t
        };
        if 0 <= nt < rest.len() {
            settle(rest.update(nt, insert_sorted(rest[nt], s)), i, keys)
        } else {
            settle(rest, i, keys)
        }
    } else {
        settle(cl, i + 1, keys)
    }
}

proof fn lemma_insert_sorted_at(c: Seq<usize>, s: usize, k: int)
    requires
        0 <= k <= c.len(),
        forall|j: int| 0 <= j < k ==> c[j] < s,
        k < c.len() ==> s <= c[k],
    ensures
        insert_sorted(c, s) == c.take(k) + seq![s] + c.skip(k),
    decreases k,
{
    if k == 0 {
        assert(c.take(0) + seq![s] + c.skip(0) =~= seq![s] + c);
        if c.len() == 0 {
            assert(seq![s] + c =~= seq![s]);
        }
    } else {
        lemma_insert_sorted_at(c.drop_first(), s, k - 1);
        assert(seq![c[0]] + (c.drop_first().take(k - 1) + seq![s] + c.drop_first().skip(k - 1))
            =~= c.take(k) + seq![s] + c.skip(k));
    }
}

fn insert_sorted_exec(c: &mut Vec<usize>, s: usize)
    ensures
        final(c)@ == insert_sorted(old(c)@, s),
{
    let mut k: usize = 0;
    while k < c.len() && c[k] < s
        invariant
            k <= c@.len(),
            c@ == old(c)@,
            forall|j: int| 0 <= j < k ==> c@[j] < s,
        decreases c.len() - k,
    {
        k = k + 1;
    }
    proof {
        lemma_insert_sorted_at(c@, s, k as int);
    }
    c.insert(k, s);
    assert(c@ =~= old(c)@.take(k as int) + seq![s] + old(c)@.skip(k as int));
}

pub open spec fn keys_ok(keys: Seq<Vec<u32>>, n: nat) -> bool {
    keys.len() == n && forall|i: int| 0 <= i < n ==> (#[trigger] keys[i])@.len() == n
}

pub open spec fn clusters_below(cl: Seq<Seq<usize>>, n: nat) -> bool {
    forall|j: int| 0 <= j < cl.len() ==> vertices_below(#[trigger] cl[j], n)
}

fn nearest_exec(cl: &Vec<Vec<usize>>, i: usize, keys: &Vec<Vec<u32>>, s: usize) -> (r: Option<usize>)
    requires
        i < cl@.len(),
        s < keys@.len(),
        keys_ok(keys@, keys@.len()),
        clusters_below(views(cl@), keys@.len()),
    ensures
        match r {
            Some(t) => scan_clusters(keys@[s as int]@, views(cl@), i as int, cl@.len() as int).1
                == Some(t as int) && t < cl@.len() && t != i,
            None => scan_clusters(keys@[s as int]@, views(cl@), i as int, cl@.len() as int).1
                is None,
        },
{
    let ghost cv = views(cl@);
    let ghost row = keys@[s as int]@;
    let mut best: u32 = 0;
    let mut best_idx: Option<usize> = None;
    let mut j: usize = 0;
    assert(keys@[s as int]@.len() == keys@.len());
    while j < cl.len()
        invariant
            j <= cl@.len(),
            i < cl@.len(),
            s < keys@.len(),
            keys_ok(keys@, keys@.len()),
            clusters_below(cv, keys@.len()),
            cv == views(cl@),
            row == keys@[s as int]@,
            row.len() == keys@.len(),
            scan_clusters(row, cv, i as int, j as int) == (best, match best_idx {
                Some(t) => Some(t as int),
                None => None,
            }),
            best_idx matches Some(t) ==> t < j && t != i,
        decreases cl.len() - j,
    {
        if j != i {
            let c = &cl[j];
            assert(cv[j as int] == c@);
            assert(vertices_below(c@, keys@.len()));
            let ghost init = (best, match best_idx {
                Some(t) => Some(t as int),
                None => None,
            });
            let mut m: usize = 0;
            while m < c.len()
                invariant
                    m <= c@.len(),
                    j < cl@.len(),
                    cv[j as int] == c@,
                    vertices_below(c@, keys@.len()),
                    row == keys@[s as int]@,
                    row.len() == keys@.len(),
                    s < keys@.len(),
                    scan_members(row, c@.take(m as int), init, j as int) == (best, match best_idx {
                        Some(t) => Some(t as int),
                        None => None,
                    }),
                    best_idx matches Some(t) ==> t <= j && t != i,
                    j != i,
                decreases c.len() - m,
            {
                assert(c@.take(m + 1 as int).drop_last() =~= c@.take(m as int));
                assert(c@.take(m + 1 as int).last() == c@[m as int]);
                let o = c[m];
                assert(o < keys@.len());
                let key = keys[s][o];
                if key > best {
                    best = key;
                    best_idx = Some(j);
                }
                m = m + 1;
            }
            assert(c@.take(c@.len() as int) =~= c@);
        }
        j = j + 1;
    }
    best_idx
}

proof fn lemma_views_remove(v: Seq<Vec<usize>>, i: int)
    requires
        0 <= i < v.len(),
    ensures
        views(v.remove(i)) == views(v).remove(i),
{
    assert(views(v.remove(i)) =~= views(v).remove(i));
}

/// Step three of the merge: every single-segment cluster moves into the cluster of
/// its most similar segment (keys order similarities; key 0 never wins).
fn settle_singletons(cl: Vec<Vec<usize>>, keys: &Vec<Vec<u32>>) -> (out: Vec<Vec<usize>>)
    requires
        keys_ok(keys@, keys@.len()),
        clusters_below(views(cl@), keys@.len()),
    ensures
        views(out@) == settle(views(cl@), 0, keys@),
{
    let ghost n = keys@.len();
    let ghost goal = settle(views(cl@), 0, keys@);
    let mut cl = cl;
    let mut i: usize = 0;
    while i < cl.len()
        invariant
            i <= cl@.len(),
            n == keys@.len(),
            keys_ok(keys@, n),
            clusters_below(views(cl@), n),
            settle(views(cl@), i as int, keys@) == goal,
        decreases 2 * cl@.len() - i,
    {
        let ghost cv = views(cl@);
        assert(cv[i as int] == cl@[i as int]@);
        if cl[i].len() == 1 {
            let s = cl[i][0];
            assert(vertices_below(cv[i as int], n));
            assert(s == cv[i as int][0]);
            match nearest_exec(&cl, i, keys, s) {
                Some(t) => {
                    let ghost old_cl = cl@;
                    let moved = cl.remove(i);
                    proof {
                        lemma_views_remove(old_cl, i as int);
                    }
                    let ghost rest = cv.remove(i as int);
                    assert(views(cl@) =~= rest);
                    let nt = if t > i {
                        t - 1
                    } else {
                        t
                    };
                    let mut target = cl[nt].clone();
                    assert(target@ =~= rest[nt as int]);
                    insert_sorted_exec(&mut target, s);
                    cl.set(nt, target);
                    assert(views(cl@) =~= rest.update(nt as int, insert_sorted(rest[nt as int], s)));
                    proof {
                        assert forall|j: int| 0 <= j < views(cl@).len() implies vertices_below(
                            #[trigger] views(cl@)[j],
                            n,
                        ) by {
                            if j == nt {
                                lemma_insert_sorted_below(rest[nt as int], s, n);
                            } else {
                                assert(views(cl@)[j] == rest[j]);
                                if j < i {
                                    assert(rest[j] == cv[j]);
                                } else {
                                    assert(rest[j] == cv[j + 1]);
                                }
                            }
                        }
                    }
                    continue ;
                },
                None => {},
            }
        }
        i = i + 1;
    }
    cl
}

proof fn lemma_insert_sorted_below(c: Seq<usize>, s: usize, n: nat)
    requires
        vertices_below(c, n),
        s < n,
    ensures
        vertices_below(insert_sorted(c, s), n),
    decreases c.len(),
{
    if c.len() > 0 && s > c[0] {
        lemma_insert_sorted_below(c.drop_first(), s, n);
        let r = insert_sorted(c.drop_first(), s);
        assert forall|k: int| 0 <= k < (seq![c[0]] + r).len() implies #[trigger] (seq![c[0]]
            + r)[k] < n by {
            if k > 0 {
                assert((seq![c[0]] + r)[k] == r[k - 1]);
            }
        }
    } else if c.len() > 0 {
        assert forall|k: int| 0 <= k < (seq![s] + c).len() implies #[trigger] (seq![s] + c)[k]
            < n by {
            if k > 0 {
                assert((seq![s] + c)[k] == c[k - 1]);
            }
        }
    }
}


proof fn lemma_clique_runs_below(n: int, cliques: Seq<Seq<usize>>)
    requires
        n <= usize::MAX,
    ensures
        clusters_below(clique_runs(n, cliques), if n < 0 {
            0
        } else {
            n as nat
        }),
    decreases n,
{
    if n > 0 {
        lemma_clique_runs_below(n - 1, cliques);
        lemma_clique_runs_len(n - 1, cliques);
        let cs = clique_runs(n - 1, cliques);
        let r = clique_runs(n, cliques);
        assert forall|j: int| 0 <= j < r.len() implies vertices_below(#[trigger] r[j], n as nat) by {
            assert forall|k: int| 0 <= k < r[j].len() implies #[trigger] r[j][k] < n by {
                if j < cs.len() && !(n >= 2 && pair_in_clique(cliques, (n - 2) as usize, (n - 1) as usize) && j == cs.len() - 1) {
                    assert(r[j] == cs[j]);
                    assert(vertices_below(cs[j], (n - 1) as nat));
                } else if j < cs.len() {
                    if k < cs[j].len() {
                        assert(vertices_below(cs[j], (n - 1) as nat));
                    }
                }
            }
        }
    }
}

proof fn lemma_merge_touching_below(cs: Seq<Seq<usize>>, cliques: Seq<Seq<usize>>, n: nat)
    requires
        clusters_below(cs, n),
    ensures
        clusters_below(merge_touching(cs, cliques), n),
    decreases cs.len(),
{
    if cs.len() > 0 {
        assert(clusters_below(cs.drop_last(), n)) by {
            assert forall|j: int| 0 <= j < cs.drop_last().len() implies vertices_below(
                #[trigger] cs.drop_last()[j],
                n,
            ) by {
                assert(cs.drop_last()[j] == cs[j]);
            }
        }
        lemma_merge_touching_below(cs.drop_last(), cliques, n);
        let acc = merge_touching(cs.drop_last(), cliques);
        let r = merge_touching(cs, cliques);
        assert(vertices_below(cs.last(), n));
        assert forall|j: int| 0 <= j < r.len() implies vertices_below(#[trigger] r[j], n) by {
            if j < acc.len() {
                assert(vertices_below(acc[j], n));
            }
            assert forall|k: int| 0 <= k < r[j].len() implies #[trigger] r[j][k] < n by {
                if j < acc.len() && k < acc[j].len() {
                    assert(vertices_below(acc[j], n));
                }
            }
        }
    }
}

/// The clustering of segments `0..n`: runs of neighbours sharing a clique, runs met
/// by a common clique joined, then single segments moved to their nearest cluster.
pub open spec fn clustered(n: int, cliques: Seq<Seq<usize>>, keys: Seq<Vec<u32>>) -> Seq<
    Seq<usize>,
> {
    if n <= 0 {
        seq![]
    } else if n == 1 {
        seq![seq![0]]
    } else {
        settle(merge_touching(clique_runs(n, cliques), cliques), 0, keys)
    }
}

/// Group segments `0..n` into clusters. `cliques` are the maximal cliques of the
/// similarity graph; `keys[s][o]` orders the similarity of segment `o` to segment `s`
/// (larger is more similar, 0 never counts as similar).
pub fn merge_segment_clusters(n: usize, cliques: &Vec<Vec<usize>>, keys: &Vec<Vec<u32>>) -> (clusters: Vec<Vec<usize>>)
    requires
        keys_ok(keys@, n as nat),
    ensures
        views(clusters@) == clustered(n as int, views(cliques@), keys@),
        proper_clusters(views(clusters@)),
        forall|v: usize| in_some(views(clusters@), v) <==> v < n,
        forall|k: int|
            1 <= k < n && pair_in_clique(views(cliques@), (k - 1) as usize, k as usize) ==> together(
                views(clusters@),
                (k - 1) as usize,
                #[trigger] (k as usize),
            ),
        forall|j: int|
            0 <= j < clusters@.len() && (#[trigger] clusters@[j])@.len() == 1 ==> isolated(
                keys@,
                clusters@[j]@[0],
                n as nat,
            ),
{
    proof {
        lemma_clusters_partition(n, views(cliques@), keys@);
        lemma_lone_segments_isolated(n, views(cliques@), keys@);
        assert forall|k: int|
            1 <= k < n && pair_in_clique(views(cliques@), (k - 1) as usize, k as usize) implies together(
                clustered(n as int, views(cliques@), keys@),
                (k - 1) as usize,
                #[trigger] (k as usize),
            ) by {
            lemma_clique_neighbours_together(n, views(cliques@), keys@, k);
        }
    }
    if n == 0 {
        let out: Vec<Vec<usize>> = Vec::new();
        assert(views(out@) =~= Seq::<Seq<usize>>::empty());
        return out;
    }
    if n == 1 {
        let mut one: Vec<usize> = Vec::new();
        one.push(0);
        let mut out: Vec<Vec<usize>> = Vec::new();
        out.push(one);
        assert(views(out@) =~= seq![seq![0usize]]);
        proof {
            lemma_views_lone(out@, keys@, n as nat);
        }
        return out;
    }
    let joined = join_by_cliques(n, cliques);
    proof {
        lemma_clique_runs_below(n as int, views(cliques@));
        lemma_merge_touching_below(clique_runs(n as int, views(cliques@)), views(cliques@), n as nat);
    }
    let out = settle_singletons(joined, keys);
    proof {
        lemma_views_lone(out@, keys@, n as nat);
    }
    out
}

proof fn lemma_views_lone(v: Seq<Vec<usize>>, keys: Seq<Vec<u32>>, n: nat)
    requires
        forall|j: int|
            0 <= j < views(v).len() && (#[trigger] views(v)[j]).len() == 1 ==> isolated(keys, views(v)[j][0], n),
    ensures
        forall|j: int| 0 <= j < v.len() && (#[trigger] v[j])@.len() == 1 ==> isolated(keys, v[j]@[0], n),
{
    assert forall|j: int| 0 <= j < v.len() && (#[trigger] v[j])@.len() == 1 implies isolated(keys, v[j]@[0], n) by {
        assert(views(v)[j] == v[j]@);
    }
}


pub open spec fn increasing(c: Seq<usize>) -> bool {
    forall|a: int, b: int| 0 <= a < b < c.len() ==> #[trigger] c[a] < #[trigger] c[b]
}

/// Some cluster holds `v`.
pub open spec fn in_some(cl: Seq<Seq<usize>>, v: usize) -> bool {
    exists|j: int| 0 <= j < cl.len() && #[trigger] cl[j].contains(v)
}

/// Clusters are non-empty, sorted, and no two share a segment.
pub open spec fn proper_clusters(cl: Seq<Seq<usize>>) -> bool {
    &&& forall|j: int| 0 <= j < cl.len() ==> (#[trigger] cl[j]).len() > 0 && increasing(cl[j])
    &&& forall|j1: int, j2: int, v: usize|
        0 <= j1 < cl.len() && 0 <= j2 < cl.len() && j1 != j2 && #[trigger] cl[j1].contains(v)
            ==> !#[trigger] cl[j2].contains(v)
}

/// Every segment of an earlier cluster comes before every segment of a later one.
pub open spec fn ordered_clusters(cl: Seq<Seq<usize>>) -> bool {
    forall|j1: int, j2: int, a: int, b: int|
        0 <= j1 < j2 < cl.len() && 0 <= a < cl[j1].len() && 0 <= b < cl[j2].len() ==> #[trigger] cl[j1][a]
            < #[trigger] cl[j2][b]
}

proof fn lemma_clique_runs_partition(n: int, cliques: Seq<Seq<usize>>)
    requires
        0 <= n <= usize::MAX,
    ensures
        proper_clusters(clique_runs(n, cliques)),
        ordered_clusters(clique_runs(n, cliques)),
        forall|v: usize| in_some(clique_runs(n, cliques), v) <==> v < n,
        n >= 1 ==> clique_runs(n, cliques).len() >= 1 && clique_runs(n, cliques).last().len() >= 1
            && clique_runs(n, cliques).last().last() == n - 1,
    decreases n,
{
    if n > 0 {
        lemma_clique_runs_partition(n - 1, cliques);
        lemma_clique_runs_len(n - 1, cliques);
        let cs = clique_runs(n - 1, cliques);
        let r = clique_runs(n, cliques);
        let k = (n - 1) as usize;
        lemma_clique_runs_below(n - 1, cliques);
        if n >= 2 && pair_in_clique(cliques, (n - 2) as usize, k) {
            let l = cs.last();
            let l2 = l.push(k);
            assert(r == cs.update(cs.len() - 1, l2));
            assert(vertices_below(l, (n - 1) as nat));
            assert forall|a: int, b: int| 0 <= a < b < l2.len() implies #[trigger] l2[a] < #[trigger] l2[b] by {
                if b < l.len() {
                    assert(increasing(l));
                } else {
                    assert(l[a] < n - 1);
                }
            }
            assert forall|j: int| 0 <= j < r.len() implies (#[trigger] r[j]).len() > 0 && increasing(r[j]) by {
                if j < cs.len() - 1 {
                    assert(r[j] == cs[j]);
                }
            }
            assert forall|j1: int, j2: int, v: usize|
                0 <= j1 < r.len() && 0 <= j2 < r.len() && j1 != j2 && #[trigger] r[j1].contains(v)
                    implies !#[trigger] r[j2].contains(v) by {
                if j1 < cs.len() - 1 && j2 < cs.len() - 1 {
                    assert(r[j1] == cs[j1] && r[j2] == cs[j2]);
                } else if j1 < cs.len() - 1 {
                    assert(r[j1] == cs[j1]);
                    assert(vertices_below(cs[j1], (n - 1) as nat));
                    if v != k {
                        assert(cs[j2].contains(v) == r[j2].contains(v));
                    }
                } else {
                    assert(r[j2] == cs[j2]);
                    assert(vertices_below(cs[j2], (n - 1) as nat));
                    if v != k {
                        assert(cs[j1].contains(v) == r[j1].contains(v));
                    }
                }
            }
            assert forall|j1: int, j2: int, a: int, b: int|
                0 <= j1 < j2 < r.len() && 0 <= a < r[j1].len() && 0 <= b < r[j2].len() implies #[trigger] r[j1][a]
                    < #[trigger] r[j2][b] by {
                assert(r[j1] == cs[j1]);
                if j2 < cs.len() - 1 {
                    assert(r[j2] == cs[j2]);
                } else if b < l.len() {
                    assert(r[j2][b] == cs[j2][b]);
                } else {
                    assert(vertices_below(cs[j1], (n - 1) as nat));
                }
            }
            assert forall|v: usize| in_some(r, v) <==> v < n by {
                if v < n - 1 {
                    assert(in_some(cs, v));
                    let j = choose|j: int| 0 <= j < cs.len() && #[trigger] cs[j].contains(v);
                    if j == cs.len() - 1 {
                        assert(r[j].contains(v));
                    } else {
                        assert(r[j] == cs[j]);
                    }
                } else if v == k {
                    assert(r[r.len() - 1].contains(v));
                }
                if in_some(r, v) {
                    let j = choose|j: int| 0 <= j < r.len() && #[trigger] r[j].contains(v);
                    if j < cs.len() - 1 {
                        assert(r[j] == cs[j]);
                        assert(in_some(cs, v));
                    } else if v != k {
                        assert(cs[j].contains(v));
                        assert(in_some(cs, v));
                    }
                }
            }
        } else {
            let one = seq![k];
            assert(r == cs.push(one));
            assert forall|j: int| 0 <= j < r.len() implies (#[trigger] r[j]).len() > 0 && increasing(r[j]) by {
                if j < cs.len() {
                    assert(r[j] == cs[j]);
                }
            }
            assert forall|j1: int, j2: int, v: usize|
                0 <= j1 < r.len() && 0 <= j2 < r.len() && j1 != j2 && #[trigger] r[j1].contains(v)
                    implies !#[trigger] r[j2].contains(v) by {
                if j1 < cs.len() && j2 < cs.len() {
                    assert(r[j1] == cs[j1] && r[j2] == cs[j2]);
                } else if j1 < cs.len() {
                    assert(r[j1] == cs[j1]);
                    assert(vertices_below(cs[j1], (n - 1) as nat));
                    let t = choose|t: int| 0 <= t < cs[j1].len() && cs[j1][t] == v;
                } else {
                    assert(r[j2] == cs[j2]);
                    assert(vertices_below(cs[j2], (n - 1) as nat));
                    assert(r[j1] == one);
                    assert(v == k);
                    if r[j2].contains(v) {
                        let t = choose|t: int| 0 <= t < cs[j2].len() && cs[j2][t] == v;
                    }
                }
            }
            assert forall|j1: int, j2: int, a: int, b: int|
                0 <= j1 < j2 < r.len() && 0 <= a < r[j1].len() && 0 <= b < r[j2].len() implies #[trigger] r[j1][a]
                    < #[trigger] r[j2][b] by {
                assert(r[j1] == cs[j1]);
                if j2 < cs.len() {
                    assert(r[j2] == cs[j2]);
                } else {
                    assert(vertices_below(cs[j1], (n - 1) as nat));
                }
            }
            assert forall|v: usize| in_some(r, v) <==> v < n by {
                if v < n - 1 {
                    assert(in_some(cs, v));
                    let j = choose|j: int| 0 <= j < cs.len() && #[trigger] cs[j].contains(v);
                    assert(r[j] == cs[j]);
                } else if v == k {
                    assert(r[r.len() - 1].contains(v));
                }
                if in_some(r, v) {
                    let j = choose|j: int| 0 <= j < r.len() && #[trigger] r[j].contains(v);
                    if j < cs.len() {
                        assert(r[j] == cs[j]);
                        assert(in_some(cs, v));
                    }
                }
            }
        }
    }
}


proof fn lemma_ordered_disjoint(cl: Seq<Seq<usize>>)
    requires
        ordered_clusters(cl),
    ensures
        forall|j1: int, j2: int, v: usize|
            0 <= j1 < cl.len() && 0 <= j2 < cl.len() && j1 != j2 && #[trigger] cl[j1].contains(v)
                ==> !#[trigger] cl[j2].contains(v),
{
    assert forall|j1: int, j2: int, v: usize|
        0 <= j1 < cl.len() && 0 <= j2 < cl.len() && j1 != j2 && #[trigger] cl[j1].contains(v)
            implies !#[trigger] cl[j2].contains(v) by {
        if cl[j2].contains(v) {
            let a = choose|a: int| 0 <= a < cl[j1].len() && cl[j1][a] == v;
            let b = choose|b: int| 0 <= b < cl[j2].len() && cl[j2][b] == v;
            if j1 < j2 {
                assert(cl[j1][a] < cl[j2][b]);
            } else {
                assert(cl[j2][b] < cl[j1][a]);
            }
        }
    }
}

proof fn lemma_in_some_at(cl: Seq<Seq<usize>>, j: int, a: int)
    requires
        0 <= j < cl.len(),
        0 <= a < cl[j].len(),
    ensures
        in_some(cl, cl[j][a]),
{
    assert(cl[j].contains(cl[j][a]));
}

proof fn lemma_merge_touching_partition(cs: Seq<Seq<usize>>, cliques: Seq<Seq<usize>>)
    requires
        proper_clusters(cs),
        ordered_clusters(cs),
    ensures
        proper_clusters(merge_touching(cs, cliques)),
        ordered_clusters(merge_touching(cs, cliques)),
        forall|v: usize| in_some(merge_touching(cs, cliques), v) <==> in_some(cs, v),
    decreases cs.len(),
{
    if cs.len() > 0 {
        let d = cs.drop_last();
        assert(proper_clusters(d)) by {
            assert forall|j: int| 0 <= j < d.len() implies (#[trigger] d[j]).len() > 0 && increasing(d[j]) by {
                assert(d[j] == cs[j]);
            }
            assert forall|j1: int, j2: int, v: usize|
                0 <= j1 < d.len() && 0 <= j2 < d.len() && j1 != j2 && #[trigger] d[j1].contains(v)
                    implies !#[trigger] d[j2].contains(v) by {
                assert(d[j1] == cs[j1] && d[j2] == cs[j2]);
            }
        }
        assert(ordered_clusters(d)) by {
            assert forall|j1: int, j2: int, a: int, b: int|
                0 <= j1 < j2 < d.len() && 0 <= a < d[j1].len() && 0 <= b < d[j2].len() implies #[trigger] d[j1][a]
                    < #[trigger] d[j2][b] by {
                assert(d[j1] == cs[j1] && d[j2] == cs[j2]);
            }
        }
        lemma_merge_touching_partition(d, cliques);
        let acc = merge_touching(d, cliques);
        let l = cs.last();
        let m = merge_touching(cs, cliques);
        let last = cs.len() - 1;
        assert(l.len() > 0 && increasing(l));
        assert forall|x: usize, b: int| in_some(acc, x) && 0 <= b < l.len() implies x < l[b] by {
            assert(in_some(d, x));
            let j = choose|j: int| 0 <= j < d.len() && #[trigger] d[j].contains(x);
            let a = choose|a: int| 0 <= a < d[j].len() && d[j][a] == x;
            assert(d[j] == cs[j]);
            assert(cs[j][a] < cs[last][b]);
        }
        assert forall|v: usize| in_some(cs, v) <==> (in_some(d, v) || l.contains(v)) by {
            if in_some(cs, v) {
                let j = choose|j: int| 0 <= j < cs.len() && #[trigger] cs[j].contains(v);
                if j < last {
                    assert(d[j] == cs[j]);
                }
            }
            if in_some(d, v) {
                let j = choose|j: int| 0 <= j < d.len() && #[trigger] d[j].contains(v);
                assert(d[j] == cs[j]);
            }
            if l.contains(v) {
                assert(cs[last].contains(v));
            }
        }
        if acc.len() > 0 && touches_both(cliques, acc.last(), l) {
            let t = acc.last();
            let u = t + l;
            let k = acc.len() - 1;
            assert(m == acc.update(k, u));
            assert(t.len() > 0 && increasing(t));
            assert forall|a: int, b: int| 0 <= a < b < u.len() implies #[trigger] u[a] < #[trigger] u[b] by {
                if b < t.len() {
                    assert(u[a] == t[a] && u[b] == t[b]);
                } else if a >= t.len() {
                    assert(u[a] == l[a - t.len()] && u[b] == l[b - t.len()]);
                } else {
                    assert(u[a] == t[a] && u[b] == l[b - t.len()]);
                    lemma_in_some_at(acc, k, a);
                }
            }
            assert forall|j1: int, j2: int, a: int, b: int|
                0 <= j1 < j2 < m.len() && 0 <= a < m[j1].len() && 0 <= b < m[j2].len() implies #[trigger] m[j1][a]
                    < #[trigger] m[j2][b] by {
                assert(m[j1] == acc[j1]);
                if j2 < k {
                    assert(m[j2] == acc[j2]);
                } else if b < t.len() {
                    assert(m[j2][b] == acc[j2][b]);
                } else {
                    assert(m[j2][b] == l[b - t.len()]);
                    lemma_in_some_at(acc, j1, a);
                }
            }
            assert forall|j: int| 0 <= j < m.len() implies (#[trigger] m[j]).len() > 0 && increasing(m[j]) by {
                if j < k {
                    assert(m[j] == acc[j]);
                }
            }
            lemma_ordered_disjoint(m);
            assert forall|v: usize| in_some(m, v) <==> in_some(cs, v) by {
                if in_some(m, v) {
                    let j = choose|j: int| 0 <= j < m.len() && #[trigger] m[j].contains(v);
                    if j < k {
                        assert(m[j] == acc[j]);
                        assert(in_some(acc, v));
                    } else {
                        let a = choose|a: int| 0 <= a < u.len() && u[a] == v;
                        if a < t.len() {
                            assert(t[a] == v);
                            lemma_in_some_at(acc, k, a);
                        } else {
                            assert(l[a - t.len()] == v);
                        }
                    }
                }
                if in_some(acc, v) {
                    let j = choose|j: int| 0 <= j < acc.len() && #[trigger] acc[j].contains(v);
                    if j < k {
                        assert(m[j] == acc[j]);
                    } else {
                        let a = choose|a: int| 0 <= a < t.len() && t[a] == v;
                        assert(u[a] == v);
                    }
                    assert(m[j].contains(v));
                }
                if l.contains(v) {
                    let b = choose|b: int| 0 <= b < l.len() && l[b] == v;
                    assert(u[b + t.len()] == v);
                    assert(m[k].contains(v));
                }
            }
        } else {
            assert(m == acc.push(l));
            let k = acc.len() as int;
            assert forall|j1: int, j2: int, a: int, b: int|
                0 <= j1 < j2 < m.len() && 0 <= a < m[j1].len() && 0 <= b < m[j2].len() implies #[trigger] m[j1][a]
                    < #[trigger] m[j2][b] by {
                assert(m[j1] == acc[j1]);
                if j2 < k {
                    assert(m[j2] == acc[j2]);
                } else {
                    lemma_in_some_at(acc, j1, a);
                }
            }
            assert forall|j: int| 0 <= j < m.len() implies (#[trigger] m[j]).len() > 0 && increasing(m[j]) by {
                if j < k {
                    assert(m[j] == acc[j]);
                }
            }
            lemma_ordered_disjoint(m);
            assert forall|v: usize| in_some(m, v) <==> in_some(cs, v) by {
                if in_some(m, v) {
                    let j = choose|j: int| 0 <= j < m.len() && #[trigger] m[j].contains(v);
                    if j < k {
                        assert(m[j] == acc[j]);
                        assert(in_some(acc, v));
                    }
                }
                if in_some(acc, v) {
                    let j = choose|j: int| 0 <= j < acc.len() && #[trigger] acc[j].contains(v);
                    assert(m[j] == acc[j]);
                }
                if l.contains(v) {
                    assert(m[k].contains(v));
                }
            }
        }
    }
}


proof fn lemma_scan_members_index(row: Seq<u32>, c: Seq<usize>, init: (u32, Option<int>), j: int)
    ensures
        scan_members(row, c, init, j).1 == init.1 || scan_members(row, c, init, j).1 == Some(j),
    decreases c.len(),
{
    if c.len() > 0 {
        lemma_scan_members_index(row, c.drop_last(), init, j);
    }
}

proof fn lemma_scan_clusters_index(row: Seq<u32>, cl: Seq<Seq<usize>>, i: int, upto: int)
    ensures
        scan_clusters(row, cl, i, upto).1 matches Some(t) ==> 0 <= t < upto && t != i,
    decreases upto,
{
    if upto > 0 {
        lemma_scan_clusters_index(row, cl, i, upto - 1);
        if upto - 1 != i {
            lemma_scan_members_index(row, cl[upto - 1], scan_clusters(row, cl, i, upto - 1), upto - 1);
        }
    }
}

proof fn lemma_insert_sorted_props(c: Seq<usize>, s: usize)
    requires
        increasing(c),
        !c.contains(s),
    ensures
        increasing(insert_sorted(c, s)),
        insert_sorted(c, s).len() == c.len() + 1,
        forall|x: usize| insert_sorted(c, s).contains(x) <==> (c.contains(x) || x == s),
    decreases c.len(),
{
    let r = insert_sorted(c, s);
    if c.len() == 0 {
        assert(r[0] == s);
    } else if s <= c[0] {
        assert(r == seq![s] + c);
        assert(s != c[0]);
        assert forall|a: int, b: int| 0 <= a < b < r.len() implies #[trigger] r[a] < #[trigger] r[b] by {
            assert(r[b] == c[b - 1]);
            if a > 0 {
                assert(r[a] == c[a - 1]);
            } else if b > 1 {
                assert(c[0] < c[b - 1]);
            }
        }
        assert forall|x: usize| r.contains(x) <==> (c.contains(x) || x == s) by {
            if r.contains(x) {
                let a = choose|a: int| 0 <= a < r.len() && r[a] == x;
                if a > 0 {
                    assert(c[a - 1] == x);
                }
            }
            if c.contains(x) {
                let a = choose|a: int| 0 <= a < c.len() && c[a] == x;
                assert(r[a + 1] == x);
            }
            if x == s {
                assert(r[0] == x);
            }
        }
    } else {
        let d = c.drop_first();
        assert(increasing(d)) by {
            assert forall|a: int, b: int| 0 <= a < b < d.len() implies #[trigger] d[a] < #[trigger] d[b] by {
                assert(d[a] == c[a + 1] && d[b] == c[b + 1]);
            }
        }
        assert(!d.contains(s)) by {
            if d.contains(s) {
                let a = choose|a: int| 0 <= a < d.len() && d[a] == s;
                assert(c[a + 1] == s);
            }
        }
        lemma_insert_sorted_props(d, s);
        let q = insert_sorted(d, s);
        assert(r == seq![c[0]] + q);
        assert forall|a: int, b: int| 0 <= a < b < r.len() implies #[trigger] r[a] < #[trigger] r[b] by {
            assert(r[b] == q[b - 1]);
            if a > 0 {
                assert(r[a] == q[a - 1]);
            } else {
                assert(q.contains(q[b - 1]));
                if q[b - 1] != s {
                    assert(d.contains(q[b - 1]));
                    let e = choose|e: int| 0 <= e < d.len() && d[e] == q[b - 1];
                    assert(d[e] == c[e + 1]);
                }
            }
        }
        assert forall|x: usize| r.contains(x) <==> (c.contains(x) || x == s) by {
            if r.contains(x) {
                let a = choose|a: int| 0 <= a < r.len() && r[a] == x;
                if a > 0 {
                    assert(q[a - 1] == x);
                    assert(q.contains(x));
                    if d.contains(x) {
                        let e = choose|e: int| 0 <= e < d.len() && d[e] == x;
                        assert(c[e + 1] == x);
                    }
                } else {
                    assert(c[0] == x);
                }
            }
            if c.contains(x) {
                let a = choose|a: int| 0 <= a < c.len() && c[a] == x;
                if a > 0 {
                    assert(d[a - 1] == x);
                    assert(d.contains(x));
                    let e = choose|e: int| 0 <= e < q.len() && q[e] == x;
                    assert(r[e + 1] == x);
                } else {
                    assert(r[0] == x);
                }
            }
            if x == s {
                assert(q.contains(s));
                let e = choose|e: int| 0 <= e < q.len() && q[e] == s;
                assert(r[e + 1] == x);
            }
        }
    }
}

/// One dissolving step of `settle` at cluster `i`.
pub open spec fn settle_step(cl: Seq<Seq<usize>>, i: int, keys: Seq<Vec<u32>>) -> Seq<Seq<usize>> {
    let t = nearest_cluster(cl, i, keys)->0;
    let s = cl[i][0];
    let rest = cl.remove(i);
    let nt = if t > i {
        t - 1
    } else {
        t
    };
    rest.update(nt, insert_sorted(rest[nt], s))
}

proof fn lemma_settle_step(cl: Seq<Seq<usize>>, i: int, keys: Seq<Vec<u32>>)
    requires
        proper_clusters(cl),
        0 <= i < cl.len(),
        cl[i].len() == 1,
        nearest_cluster(cl, i, keys) is Some,
    ensures
        settle(cl, i, keys) == settle(settle_step(cl, i, keys), i, keys),
        settle_step(cl, i, keys).len() == cl.len() - 1,
        proper_clusters(settle_step(cl, i, keys)),
        forall|v: usize| in_some(settle_step(cl, i, keys), v) <==> in_some(cl, v),
{
        let t = nearest_cluster(cl, i, keys)->0;
        lemma_scan_clusters_index(keys[cl[i][0] as int]@, cl, i, cl.len() as int);
        let s = cl[i][0];
        let rest = cl.remove(i);
        let nt = if t > i {
            t - 1
        } else {
            t
        };
        assert(0 <= nt < rest.len());
        assert(rest[nt] == cl[t]);
        assert(cl[i].contains(s));
        assert(!rest[nt].contains(s));
        lemma_insert_sorted_props(rest[nt], s);
        let ins = insert_sorted(rest[nt], s);
        let nw = rest.update(nt, ins);
        assert forall|j: int| 0 <= j < nw.len() implies (#[trigger] nw[j]).len() > 0 && increasing(nw[j]) by {
            if j != nt {
                if j < i {
                    assert(nw[j] == cl[j]);
                } else {
                    assert(nw[j] == cl[j + 1]);
                }
            }
        }
        assert forall|j1: int, j2: int, v: usize|
            0 <= j1 < nw.len() && 0 <= j2 < nw.len() && j1 != j2 && #[trigger] nw[j1].contains(v)
                implies !#[trigger] nw[j2].contains(v) by {
            let o1 = if j1 < i { j1 } else { j1 + 1 };
            let o2 = if j2 < i { j2 } else { j2 + 1 };
            assert(rest[j1] == cl[o1] && rest[j2] == cl[o2]);
            if nw[j2].contains(v) {
                if j1 == nt {
                    if v == s {
                        assert(cl[o2].contains(s));
                    } else {
                        assert(cl[o1].contains(v));
                        assert(cl[o2].contains(v));
                    }
                } else if j2 == nt {
                    if v == s {
                        assert(cl[o1].contains(s));
                    } else {
                        assert(cl[o2].contains(v));
                        assert(cl[o1].contains(v));
                    }
                } else {
                    assert(cl[o1].contains(v) && cl[o2].contains(v));
                }
            }
        }
        assert forall|v: usize| in_some(nw, v) <==> in_some(cl, v) by {
            if in_some(nw, v) {
                let j = choose|j: int| 0 <= j < nw.len() && #[trigger] nw[j].contains(v);
                let o = if j < i { j } else { j + 1 };
                assert(rest[j] == cl[o]);
                if j == nt && v == s {
                    assert(cl[i].contains(v));
                } else {
                    assert(cl[o].contains(v));
                }
            }
            if in_some(cl, v) {
                let j = choose|j: int| 0 <= j < cl.len() && #[trigger] cl[j].contains(v);
                if j == i {
                    assert(cl[i].len() == 1);
                    let a = choose|a: int| 0 <= a < cl[i].len() && cl[i][a] == v;
                    assert(v == s);
                    assert(nw[nt].contains(v));
                } else {
                    let r = if j < i { j } else { j - 1 };
                    assert(rest[r] == cl[j]);
                    assert(nw[r].contains(v));
                }
            }
        }
        assert(nw == settle_step(cl, i, keys));
}

proof fn lemma_settle_partition(cl: Seq<Seq<usize>>, i: int, keys: Seq<Vec<u32>>)
    requires
        proper_clusters(cl),
    ensures
        proper_clusters(settle(cl, i, keys)),
        forall|v: usize| in_some(settle(cl, i, keys), v) <==> in_some(cl, v),
    decreases 2 * cl.len() - i,
{
    if i < 0 || i >= cl.len() {
    } else if cl[i].len() == 1 && nearest_cluster(cl, i, keys) is Some {
        lemma_settle_step(cl, i, keys);
        lemma_settle_partition(settle_step(cl, i, keys), i, keys);
    } else {
        lemma_settle_partition(cl, i + 1, keys);
    }
}

/// Whatever the cliques and similarity keys, the clusters partition the segments
/// `0..n`: each cluster is non-empty and sorted, no segment is in two clusters, and
/// every segment below `n` (and none other) is in one.
pub proof fn lemma_clusters_partition(n: usize, cliques: Seq<Seq<usize>>, keys: Seq<Vec<u32>>)
    ensures
        proper_clusters(clustered(n as int, cliques, keys)),
        forall|v: usize| in_some(clustered(n as int, cliques, keys), v) <==> v < n,
{
    let r = clustered(n as int, cliques, keys);
    if n == 1 {
        assert(r == seq![seq![0usize]]);
        assert forall|v: usize| in_some(r, v) <==> v < n by {
            if in_some(r, v) {
                let j = choose|j: int| 0 <= j < r.len() && #[trigger] r[j].contains(v);
                let a = choose|a: int| 0 <= a < r[j].len() && r[j][a] == v;
            }
            if v < n {
                assert(r[0][0] == v);
                assert(r[0].contains(v));
            }
        }
    } else if n >= 2 {
        lemma_clique_runs_partition(n as int, cliques);
        let runs = clique_runs(n as int, cliques);
        lemma_merge_touching_partition(runs, cliques);
        let m = merge_touching(runs, cliques);
        lemma_settle_partition(m, 0, keys);
        assert(r == settle(m, 0, keys));
        assert forall|v: usize| in_some(r, v) <==> v < n by {
            assert(in_some(r, v) <==> in_some(m, v));
            assert(in_some(m, v) <==> in_some(runs, v));
        }
    }
}


/// Some cluster holds both `a` and `b`.
pub open spec fn together(cl: Seq<Seq<usize>>, a: usize, b: usize) -> bool {
    exists|j: int| 0 <= j < cl.len() && #[trigger] cl[j].contains(a) && cl[j].contains(b)
}

proof fn lemma_clique_runs_together(n: int, cliques: Seq<Seq<usize>>, k: int)
    requires
        0 <= n <= usize::MAX,
        1 <= k < n,
        pair_in_clique(cliques, (k - 1) as usize, k as usize),
    ensures
        together(clique_runs(n, cliques), (k - 1) as usize, k as usize),
    decreases n,
{
    let cs = clique_runs(n - 1, cliques);
    let r = clique_runs(n, cliques);
    lemma_clique_runs_len(n - 1, cliques);
    let a = (k - 1) as usize;
    let b = k as usize;
    if k < n - 1 {
        lemma_clique_runs_together(n - 1, cliques, k);
        let j = choose|j: int| 0 <= j < cs.len() && #[trigger] cs[j].contains(a) && cs[j].contains(b);
        if n >= 2 && pair_in_clique(cliques, (n - 2) as usize, (n - 1) as usize) && j == cs.len() - 1 {
            let l = cs.last().push((n - 1) as usize);
            assert(r[j] == l);
            let ia = choose|t: int| 0 <= t < cs[j].len() && cs[j][t] == a;
            let ib = choose|t: int| 0 <= t < cs[j].len() && cs[j][t] == b;
            assert(l[ia] == a && l[ib] == b);
            assert(r[j].contains(a) && r[j].contains(b));
        } else {
            assert(r[j] == cs[j]);
        }
    } else {
        lemma_clique_runs_partition(n - 1, cliques);
        let l = cs.last().push((n - 1) as usize);
        let j = cs.len() - 1;
        assert(r[j] == l);
        assert(l[l.len() - 2] == a);
        assert(l[l.len() - 1] == b);
        assert(r[j].contains(a) && r[j].contains(b));
    }
}

proof fn lemma_merge_touching_together(cs: Seq<Seq<usize>>, cliques: Seq<Seq<usize>>, a: usize, b: usize)
    requires
        together(cs, a, b),
    ensures
        together(merge_touching(cs, cliques), a, b),
    decreases cs.len(),
{
    let d = cs.drop_last();
    let acc = merge_touching(d, cliques);
    let l = cs.last();
    let m = merge_touching(cs, cliques);
    let j = choose|j: int| 0 <= j < cs.len() && #[trigger] cs[j].contains(a) && cs[j].contains(b);
    if j < cs.len() - 1 {
        assert(d[j] == cs[j]);
        assert(together(d, a, b));
        lemma_merge_touching_together(d, cliques, a, b);
        let t = choose|t: int| 0 <= t < acc.len() && #[trigger] acc[t].contains(a) && acc[t].contains(b);
        if acc.len() > 0 && touches_both(cliques, acc.last(), l) && t == acc.len() - 1 {
            let u = acc.last() + l;
            assert(m[t] == u);
            let ia = choose|x: int| 0 <= x < acc[t].len() && acc[t][x] == a;
            let ib = choose|x: int| 0 <= x < acc[t].len() && acc[t][x] == b;
            assert(u[ia] == a && u[ib] == b);
            assert(m[t].contains(a) && m[t].contains(b));
        } else {
            assert(m[t] == acc[t]);
        }
    } else {
        let ia = choose|x: int| 0 <= x < l.len() && l[x] == a;
        let ib = choose|x: int| 0 <= x < l.len() && l[x] == b;
        if acc.len() > 0 && touches_both(cliques, acc.last(), l) {
            let u = acc.last() + l;
            let t = acc.len() - 1;
            assert(m[t] == u);
            assert(u[ia + acc.last().len()] == a && u[ib + acc.last().len()] == b);
            assert(m[t].contains(a) && m[t].contains(b));
        } else {
            let t = acc.len() as int;
            assert(m[t] == l);
            assert(m[t].contains(a) && m[t].contains(b));
        }
    }
}

proof fn lemma_settle_together(cl: Seq<Seq<usize>>, i: int, keys: Seq<Vec<u32>>, a: usize, b: usize)
    requires
        proper_clusters(cl),
        together(cl, a, b),
        a != b,
    ensures
        together(settle(cl, i, keys), a, b),
    decreases 2 * cl.len() - i,
{
    if i < 0 || i >= cl.len() {
    } else if cl[i].len() == 1 && nearest_cluster(cl, i, keys) is Some {
        let t = nearest_cluster(cl, i, keys)->0;
        lemma_scan_clusters_index(keys[cl[i][0] as int]@, cl, i, cl.len() as int);
        let s = cl[i][0];
        let rest = cl.remove(i);
        let nt = if t > i {
            t - 1
        } else {
            t
        };
        assert(cl[i].contains(s));
        assert(rest[nt] == cl[t]);
        assert(!rest[nt].contains(s));
        lemma_insert_sorted_props(rest[nt], s);
        let nw = rest.update(nt, insert_sorted(rest[nt], s));
        let j = choose|j: int| 0 <= j < cl.len() && #[trigger] cl[j].contains(a) && cl[j].contains(b);
        assert(j != i) by {
            if j == i {
                let ia = choose|x: int| 0 <= x < cl[i].len() && cl[i][x] == a;
                let ib = choose|x: int| 0 <= x < cl[i].len() && cl[i][x] == b;
            }
        }
        let r = if j < i { j } else { j - 1 };
        assert(rest[r] == cl[j]);
        assert(nw[r].contains(a) && nw[r].contains(b));
        lemma_settle_step(cl, i, keys);
        assert(nw == settle_step(cl, i, keys));
        lemma_settle_together(nw, i, keys, a, b);
    } else {
        lemma_settle_together(cl, i + 1, keys, a, b);
    }
}

/// Segments next to each other that share a clique end up in the same cluster.
pub proof fn lemma_clique_neighbours_together(n: usize, cliques: Seq<Seq<usize>>, keys: Seq<Vec<u32>>, k: int)
    requires
        1 <= k < n,
        pair_in_clique(cliques, (k - 1) as usize, k as usize),
    ensures
        together(clustered(n as int, cliques, keys), (k - 1) as usize, k as usize),
{
    lemma_clique_runs_together(n as int, cliques, k);
    let runs = clique_runs(n as int, cliques);
    lemma_merge_touching_together(runs, cliques, (k - 1) as usize, k as usize);
    lemma_clique_runs_partition(n as int, cliques);
    lemma_merge_touching_partition(runs, cliques);
    lemma_settle_together(merge_touching(runs, cliques), 0, keys, (k - 1) as usize, k as usize);
}


/// No other segment below `n` counts as similar to segment `s`.
pub open spec fn isolated(keys: Seq<Vec<u32>>, s: usize, n: nat) -> bool {
    forall|o: int| 0 <= o < n && o != s ==> (#[trigger] keys[s as int]@[o]) == 0
}

proof fn lemma_scan_members_none(row: Seq<u32>, c: Seq<usize>, init: (u32, Option<int>), j: int)
    ensures
        init.1 is Some ==> scan_members(row, c, init, j).1 is Some,
        init.1 is None && init.0 == 0 ==> {
            &&& (scan_members(row, c, init, j).1 is None <==> forall|m: int|
                0 <= m < c.len() ==> row[#[trigger] c[m] as int] == 0)
            &&& (scan_members(row, c, init, j).1 is None ==> scan_members(row, c, init, j).0 == 0)
        },
    decreases c.len(),
{
    if c.len() > 0 {
        let d = c.drop_last();
        lemma_scan_members_none(row, d, init, j);
        if init.1 is None && init.0 == 0 {
            let b = scan_members(row, d, init, j);
            if b.1 is None {
                assert forall|m: int| 0 <= m < d.len() implies row[#[trigger] c[m] as int] == 0 by {
                    assert(c[m] == d[m]);
                    assert(row[d[m] as int] == 0);
                }
            }
            if forall|m: int| 0 <= m < c.len() ==> row[#[trigger] c[m] as int] == 0 {
                assert forall|m: int| 0 <= m < d.len() implies row[#[trigger] d[m] as int] == 0 by {
                    assert(c[m] == d[m]);
                }
                assert(row[c[c.len() - 1] as int] == 0);
            }
            if !(forall|m: int| 0 <= m < d.len() ==> row[#[trigger] d[m] as int] == 0) {
                let m = choose|m: int| 0 <= m < d.len() && row[#[trigger] d[m] as int] != 0;
                assert(c[m] == d[m]);
            }
        }
    }
}

proof fn lemma_scan_clusters_none(row: Seq<u32>, cl: Seq<Seq<usize>>, i: int, upto: int)
    requires
        upto <= cl.len(),
    ensures
        scan_clusters(row, cl, i, upto).1 is None <==> forall|j: int, m: int|
            0 <= j < upto && j != i && 0 <= m < cl[j].len() ==> row[#[trigger] cl[j][m] as int] == 0,
        scan_clusters(row, cl, i, upto).1 is None ==> scan_clusters(row, cl, i, upto).0 == 0,
    decreases upto,
{
    if upto > 0 {
        lemma_scan_clusters_none(row, cl, i, upto - 1);
        let b = scan_clusters(row, cl, i, upto - 1);
        let all_before = forall|j: int, m: int|
            0 <= j < upto - 1 && j != i && 0 <= m < cl[j].len() ==> row[#[trigger] cl[j][m] as int] == 0;
        if upto - 1 != i {
            lemma_scan_members_none(row, cl[upto - 1], b, upto - 1);
            let r = scan_clusters(row, cl, i, upto);
            if r.1 is None {
                assert(b.1 is None);
                assert forall|j: int, m: int|
                    0 <= j < upto && j != i && 0 <= m < cl[j].len() implies row[#[trigger] cl[j][m] as int] == 0 by {
                    if j == upto - 1 {
                        assert(row[cl[upto - 1][m] as int] == 0);
                    }
                }
            }
            if forall|j: int, m: int|
                0 <= j < upto && j != i && 0 <= m < cl[j].len() ==> row[#[trigger] cl[j][m] as int] == 0 {
                assert(b.1 is None);
                assert forall|m: int| 0 <= m < cl[upto - 1].len() implies row[#[trigger] cl[upto - 1][m] as int] == 0 by {
                    assert(row[cl[upto - 1][m] as int] == 0);
                }
            }
        } else {
            assert((forall|j: int, m: int|
                0 <= j < upto && j != i && 0 <= m < cl[j].len() ==> row[#[trigger] cl[j][m] as int] == 0)
                == all_before);
        }
    }
}

proof fn lemma_settle_isolated(cl: Seq<Seq<usize>>, i: int, keys: Seq<Vec<u32>>, n: nat)
    requires
        proper_clusters(cl),
        forall|v: usize| in_some(cl, v) <==> v < n,
        keys_ok(keys, n),
        n <= usize::MAX,
        0 <= i,
        forall|j: int| 0 <= j < i && j < cl.len() && (#[trigger] cl[j]).len() == 1 ==> isolated(keys, cl[j][0], n),
    ensures
        forall|j: int|
            0 <= j < settle(cl, i, keys).len() && (#[trigger] settle(cl, i, keys)[j]).len() == 1 ==> isolated(
                keys,
                settle(cl, i, keys)[j][0],
                n,
            ),
    decreases 2 * cl.len() - i,
{
    if i >= cl.len() {
        assert(settle(cl, i, keys) == cl);
    } else if cl[i].len() == 1 && nearest_cluster(cl, i, keys) is Some {
        lemma_settle_step(cl, i, keys);
        let nw = settle_step(cl, i, keys);
        let t = nearest_cluster(cl, i, keys)->0;
        lemma_scan_clusters_index(keys[cl[i][0] as int]@, cl, i, cl.len() as int);
        let nt = if t > i {
            t - 1
        } else {
            t
        };
        let rest = cl.remove(i);
        assert(rest[nt] == cl[t]);
        assert(cl[i].contains(cl[i][0]));
        assert(!rest[nt].contains(cl[i][0]));
        lemma_insert_sorted_props(rest[nt], cl[i][0]);
        assert forall|j: int| 0 <= j < i && j < nw.len() && (#[trigger] nw[j]).len() == 1 implies isolated(
            keys,
            nw[j][0],
            n,
        ) by {
            if j != nt {
                assert(nw[j] == cl[j]);
            } else {
                assert(nw[j].len() == rest[nt].len() + 1);
                assert(rest[nt].len() > 0);
            }
        }
        assert forall|v: usize| in_some(nw, v) <==> v < n by {
            assert(in_some(nw, v) <==> in_some(cl, v));
        }
        lemma_settle_isolated(nw, i, keys, n);
        assert(settle(cl, i, keys) == settle(nw, i, keys));
    } else {
        if cl[i].len() == 1 {
            let sg = cl[i][0];
            let row = keys[sg as int]@;
            assert(cl[i].contains(sg));
            assert(in_some(cl, sg));
            assert(sg < n);
            lemma_scan_clusters_none(row, cl, i, cl.len() as int);
            assert(nearest_cluster(cl, i, keys) is None);
            assert(scan_clusters(row, cl, i, cl.len() as int).1 is None);
            assert forall|o: int| 0 <= o < n && o != sg implies (#[trigger] keys[sg as int]@[o]) == 0 by {
                let ou = o as usize;
                assert(ou as int == o);
                assert(in_some(cl, ou));
                let j = choose|j: int| 0 <= j < cl.len() && #[trigger] cl[j].contains(ou);
                let m = choose|m: int| 0 <= m < cl[j].len() && cl[j][m] == ou;
                if j == i {
                    assert(cl[i][m] == sg);
                }
                assert(j != i);
                assert(0 <= m < cl[j].len());
                assert(row[cl[j][m] as int] == 0);
                assert(keys[sg as int]@[o] == row[cl[j][m] as int]);
            }
        }
        assert(settle(cl, i, keys) == settle(cl, i + 1, keys));
        lemma_settle_isolated(cl, i + 1, keys, n);
    }
}

/// A segment stays in a cluster of its own only when no other segment counts as
/// similar to it.
pub proof fn lemma_lone_segments_isolated(n: usize, cliques: Seq<Seq<usize>>, keys: Seq<Vec<u32>>)
    requires
        keys_ok(keys, n as nat),
    ensures
        forall|j: int|
            0 <= j < clustered(n as int, cliques, keys).len() && (#[trigger] clustered(n as int, cliques, keys)[j]).len() == 1
                ==> isolated(keys, clustered(n as int, cliques, keys)[j][0], n as nat),
{
    let r = clustered(n as int, cliques, keys);
    if n == 1 {
        assert(r == seq![seq![0usize]]);
    } else if n >= 2 {
        lemma_clique_runs_partition(n as int, cliques);
        let runs = clique_runs(n as int, cliques);
        lemma_merge_touching_partition(runs, cliques);
        let m = merge_touching(runs, cliques);
        assert forall|v: usize| in_some(m, v) <==> v < n by {
            assert(in_some(m, v) <==> in_some(runs, v));
        }
        lemma_settle_isolated(m, 0, keys, n as nat);
    }
}


/// A clique meets a cluster when it holds any one of the cluster's segments.
pub proof fn lemma_meets_any_member(q: Seq<usize>, a: Seq<usize>)
    ensures
        meets_spec(q, a) <==> exists|k: int| 0 <= k < a.len() && q.contains(#[trigger] a[k]),
{
    if meets_spec(q, a) {
        let s = choose|s: usize| a.contains(s) && q.contains(s);
        let k = choose|k: int| 0 <= k < a.len() && a[k] == s;
        assert(q.contains(a[k]));
    }
    if exists|k: int| 0 <= k < a.len() && q.contains(#[trigger] a[k]) {
        let k = choose|k: int| 0 <= k < a.len() && q.contains(#[trigger] a[k]);
        assert(a.contains(a[k]));
    }
}

proof fn lemma_merge_touching_last(cs: Seq<Seq<usize>>, cliques: Seq<Seq<usize>>, v: usize)
    requires
        cs.len() > 0,
        cs.last().contains(v),
    ensures
        merge_touching(cs, cliques).len() > 0,
        merge_touching(cs, cliques).last().contains(v),
{
    let acc = merge_touching(cs.drop_last(), cliques);
    let l = cs.last();
    let k = choose|k: int| 0 <= k < l.len() && l[k] == v;
    if acc.len() > 0 && touches_both(cliques, acc.last(), l) {
        let u = acc.last() + l;
        assert(u[acc.last().len() + k] == v);
        assert(merge_touching(cs, cliques).last() == u);
    }
}

proof fn lemma_merge_touching_prefix_together(
    cs: Seq<Seq<usize>>,
    cliques: Seq<Seq<usize>>,
    m: int,
    x: usize,
    y: usize,
)
    requires
        0 <= m <= cs.len(),
        together(merge_touching(cs.take(m), cliques), x, y),
    ensures
        together(merge_touching(cs, cliques), x, y),
    decreases cs.len() - m,
{
    if m == cs.len() {
        assert(cs.take(m) =~= cs);
    } else {
        let p = cs.take(m + 1);
        assert(p.drop_last() =~= cs.take(m));
        let acc = merge_touching(cs.take(m), cliques);
        let l = p.last();
        let r = merge_touching(p, cliques);
        let t = choose|t: int| 0 <= t < acc.len() && #[trigger] acc[t].contains(x) && acc[t].contains(y);
        if acc.len() > 0 && touches_both(cliques, acc.last(), l) && t == acc.len() - 1 {
            let u = acc.last() + l;
            assert(r[t] == u);
            let ix = choose|i: int| 0 <= i < acc[t].len() && acc[t][i] == x;
            let iy = choose|i: int| 0 <= i < acc[t].len() && acc[t][i] == y;
            assert(u[ix] == x && u[iy] == y);
            assert(r[t].contains(x) && r[t].contains(y));
        } else {
            assert(r[t] == acc[t]);
        }
        lemma_merge_touching_prefix_together(cs, cliques, m + 1, x, y);
    }
}

/// When a clique holds a segment of one run of neighbours and a segment of the next
/// run (any segments of them), the two segments end in the same cluster.
pub proof fn lemma_clique_joins_adjacent_runs(
    n: usize,
    cliques: Seq<Seq<usize>>,
    keys: Seq<Vec<u32>>,
    j: int,
    x: usize,
    y: usize,
    q: int,
)
    requires
        1 <= j < clique_runs(n as int, cliques).len(),
        clique_runs(n as int, cliques)[j - 1].contains(x),
        clique_runs(n as int, cliques)[j].contains(y),
        0 <= q < cliques.len(),
        cliques[q].contains(x),
        cliques[q].contains(y),
    ensures
        together(clustered(n as int, cliques, keys), x, y),
{
    let runs = clique_runs(n as int, cliques);
    if n < 2 {
        if n == 1 {
            assert(clique_runs(0, cliques).len() == 0);
        }
        assert(runs.len() <= 1);
    }
    lemma_clique_runs_partition(n as int, cliques);
    assert(x != y) by {
        if x == y {
            assert(runs[j - 1].contains(x) && runs[j].contains(x));
        }
    }
    let pre = runs.take(j);
    assert(pre.last() == runs[j - 1]);
    lemma_merge_touching_last(pre, cliques, x);
    let acc = merge_touching(pre, cliques);
    let p = runs.take(j + 1);
    assert(p.drop_last() =~= pre);
    assert(p.last() == runs[j]);
    assert(meets_spec(cliques[q], acc.last()));
    assert(meets_spec(cliques[q], runs[j]));
    assert(touches_both(cliques, acc.last(), runs[j]));
    let u = acc.last() + runs[j];
    let r = merge_touching(p, cliques);
    assert(r == acc.update(acc.len() - 1, u));
    let ix = choose|i: int| 0 <= i < acc.last().len() && acc.last()[i] == x;
    let iy = choose|i: int| 0 <= i < runs[j].len() && runs[j][i] == y;
    assert(u[ix] == x && u[acc.last().len() + iy] == y);
    assert(r[acc.len() - 1].contains(x) && r[acc.len() - 1].contains(y));
    lemma_merge_touching_prefix_together(runs, cliques, j + 1, x, y);
    lemma_merge_touching_partition(runs, cliques);
    lemma_settle_together(merge_touching(runs, cliques), 0, keys, x, y);
}


/// Neighbouring segments that share no clique start different runs in step one.
pub proof fn lemma_clique_runs_split(n: int, cliques: Seq<Seq<usize>>, k: int)
    requires
        0 <= n <= usize::MAX,
        1 <= k < n,
        !pair_in_clique(cliques, (k - 1) as usize, k as usize),
    ensures
        !together(clique_runs(n, cliques), (k - 1) as usize, k as usize),
    decreases n,
{
    let cs = clique_runs(n - 1, cliques);
    let r = clique_runs(n, cliques);
    let a = (k - 1) as usize;
    let b = k as usize;
    lemma_clique_runs_len(n - 1, cliques);
    lemma_clique_runs_below(n - 1, cliques);
    if together(r, a, b) {
        let j = choose|j: int| 0 <= j < r.len() && #[trigger] r[j].contains(a) && r[j].contains(b);
        if k < n - 1 {
            lemma_clique_runs_split(n - 1, cliques, k);
            if n >= 2 && pair_in_clique(cliques, (n - 2) as usize, (n - 1) as usize) && j == cs.len() - 1 {
                let l = cs.last();
                assert(r[j] == l.push((n - 1) as usize));
                let ia = choose|t: int| 0 <= t < r[j].len() && r[j][t] == a;
                let ib = choose|t: int| 0 <= t < r[j].len() && r[j][t] == b;
                assert(l[ia] == a && l[ib] == b);
                assert(cs[j].contains(a) && cs[j].contains(b));
            } else if j < cs.len() {
                assert(r[j] == cs[j]);
            } else {
                assert(r[j] == seq![(n - 1) as usize]);
                let ia = choose|t: int| 0 <= t < r[j].len() && r[j][t] == a;
            }
            assert(together(cs, a, b));
        } else {
            assert(r == cs.push(seq![b]));
            if j < cs.len() {
                assert(r[j] == cs[j]);
                assert(vertices_below(cs[j], (n - 1) as nat));
                let ib = choose|t: int| 0 <= t < cs[j].len() && cs[j][t] == b;
            } else {
                let ia = choose|t: int| 0 <= t < r[j].len() && r[j][t] == a;
                assert(r[j] == seq![b]);
            }
        }
    }
}

} // verus!
