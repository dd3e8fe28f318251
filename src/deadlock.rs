//! Deadlock detection over the resource tables of a process's threads.
use vstd::prelude::*;

verus! {

/// The rows of a table, as sequences.
pub open spec fn rows(v: Seq<Vec<usize>>) -> Seq<Seq<usize>> {
    v.map_values(|r: Vec<usize>| r@)
}

/// Units of resource `j` held by the threads marked in `mask`, among the
/// first `n` rows of `alloc`.
pub open spec fn held_by(alloc: Seq<Seq<usize>>, mask: Seq<bool>, j: int, n: int) -> int
    decreases n,
{
    if n <= 0 {
        0
    } else {
        held_by(alloc, mask, j, n - 1) + if mask[n - 1] { alloc[n - 1][j] as int } else { 0 }
    }
}

/// Whether the demand `need_row` is met by `avail` plus what the threads
/// marked in `mask` hold.
pub open spec fn covered(need_row: Seq<usize>, avail: Seq<usize>, alloc: Seq<Seq<usize>>, mask: Seq<bool>) -> bool {
    forall|j: int| 0 <= j < avail.len() ==> need_row[j] <= avail[j] + #[trigger] held_by(alloc, mask, j, alloc.len() as int)
}

/// The threads not marked in `m`.
pub open spec fn complement(m: Seq<bool>) -> Seq<bool> {
    Seq::new(m.len(), |i: int| !m[i])
}

/// A deadlocked set of threads: a non-empty set `s` in which every thread
/// needs more than is available even once every thread outside `s` has
/// finished and given back what it holds.
pub open spec fn deadlocked_set(avail: Seq<usize>, need: Seq<Seq<usize>>, alloc: Seq<Seq<usize>>, s: Seq<bool>) -> bool {
    &&& s.len() == need.len()
    &&& exists|i: int| 0 <= i < s.len() && #[trigger] s[i]
    &&& forall|i: int| 0 <= i < s.len() && #[trigger] s[i] ==> !covered(need[i], avail, alloc, complement(s))
}

/// Whether no set of threads is deadlocked.
pub open spec fn deadlock_free(avail: Seq<usize>, need: Seq<Seq<usize>>, alloc: Seq<Seq<usize>>) -> bool {
    !exists|s: Seq<bool>| deadlocked_set(avail, need, alloc, s)
}

/// Every one of `n` threads marked.
pub open spec fn all_marked(n: nat) -> Seq<bool> {
    Seq::new(n, |t: int| true)
}

/// Number of marks among the first `n` entries of `m`.
pub open spec fn marked(m: Seq<bool>, n: int) -> int
    decreases n,
{
    if n <= 0 {
        0
    } else {
        marked(m, n - 1) + if m[n - 1] { 1int } else { 0 }
    }
}

/// The threads marked in `f` whose rank is below `r`.
pub open spec fn before(f: Seq<bool>, rank: Seq<int>, r: int) -> Seq<bool> {
    Seq::new(f.len(), |t: int| f[t] && rank[t] < r)
}

proof fn lemma_held_mark(alloc: Seq<Seq<usize>>, mask: Seq<bool>, i: int, j: int, n: int)
    requires
        0 <= i < mask.len(),
        !mask[i],
        n <= mask.len(),
    ensures
        held_by(alloc, mask.update(i, true), j, n) == held_by(alloc, mask, j, n) + if i < n { alloc[i][j] as int } else { 0 },
    decreases n,
{
    if n > 0 {
        lemma_held_mark(alloc, mask, i, j, n - 1);
    }
}

proof fn lemma_held_mono(alloc: Seq<Seq<usize>>, m1: Seq<bool>, m2: Seq<bool>, j: int, n: int)
    requires
        n <= m1.len(),
        n <= m2.len(),
        forall|t: int| 0 <= t < n && #[trigger] m1[t] ==> m2[t],
    ensures
        held_by(alloc, m1, j, n) <= held_by(alloc, m2, j, n),
    decreases n,
{
    if n > 0 {
        lemma_held_mono(alloc, m1, m2, j, n - 1);
    }
}

proof fn lemma_marked_mark(m: Seq<bool>, i: int, n: int)
    requires
        0 <= i < m.len(),
        !m[i],
        n <= m.len(),
    ensures
        marked(m.update(i, true), n) == marked(m, n) + if i < n { 1int } else { 0 },
    decreases n,
{
    if n > 0 {
        lemma_marked_mark(m, i, n - 1);
    }
}

proof fn lemma_marked_bound(m: Seq<bool>, n: int)
    requires
        0 <= n <= m.len(),
    ensures
        0 <= marked(m, n) <= n,
        marked(m, n) == n ==> forall|t: int| 0 <= t < n ==> #[trigger] m[t],
    decreases n,
{
    if n > 0 {
        lemma_marked_bound(m, n - 1);
    }
}

/// Some marked thread of `s`, among the first `n`, has the least rank of them.
proof fn lemma_min_rank(s: Seq<bool>, rank: Seq<int>, n: int) -> (i: int)
    requires
        0 <= n <= s.len(),
        n <= rank.len(),
        exists|t: int| 0 <= t < n && #[trigger] s[t],
    ensures
        0 <= i < n,
        s[i],
        forall|t: int| 0 <= t < n && #[trigger] s[t] ==> rank[i] <= rank[t],
    decreases n,
{
    if exists|t: int| 0 <= t < n - 1 && #[trigger] s[t] {
        let k = lemma_min_rank(s, rank, n - 1);
        if s[n - 1] && rank[n - 1] < rank[k] {
            n - 1
        } else {
            k
        }
    } else {
        n - 1
    }
}

/// Whether the threads can all finish: repeatedly lets a thread whose needs
/// `need` are met by what is available finish and give back what it holds
/// (`allocation`), starting from `avail`. The result is whether no set of
/// threads is deadlocked.
pub fn detect_deadlock(avail: &Vec<usize>, need: &Vec<Vec<usize>>, allocation: &Vec<Vec<usize>>) -> (r: bool)
    requires
        need@.len() == allocation@.len(),
        forall|i: int| 0 <= i < need@.len() ==> #[trigger] need@[i]@.len() == avail@.len(),
        forall|i: int| 0 <= i < allocation@.len() ==> #[trigger] allocation@[i]@.len() == avail@.len(),
        forall|j: int| 0 <= j < avail@.len() ==> avail@[j] + #[trigger] held_by(
            rows(allocation@),
            all_marked(allocation@.len()),
            j,
            allocation@.len() as int,
        ) <= usize::MAX,
    ensures
        r == deadlock_free(avail@, rows(need@), rows(allocation@)),
{
    let n = need.len();
    let m = avail.len();
    let ghost nd = rows(need@);
    let ghost al = rows(allocation@);
    let ghost all = all_marked(n as nat);
    let mut work: Vec<usize> = Vec::new();
    let mut j: usize = 0;
    while j < m
        invariant
            j <= m,
            m == avail@.len(),
            work@ == avail@.take(j as int),
        decreases m - j,
    {
        work.push(avail[j]);
        j = j + 1;
    }
    let mut finish: Vec<bool> = Vec::new();
    let mut k: usize = 0;
    while k < n
        invariant
            k <= n,
            finish@ == Seq::new(k as nat, |t: int| false),
        decreases n - k,
    {
        finish.push(false);
        k = k + 1;
    }
    proof {
        assert(work@ =~= avail@);
        assert forall|jj: int| 0 <= jj < m implies held_by(al, finish@, jj, n as int) == 0 by {
            lemma_held_mono(al, finish@, Seq::new(n as nat, |t: int| false), jj, n as int);
            lemma_held_zero(al, finish@, jj, n as int);
        }
        lemma_marked_zero(finish@, n as int);
    }
    let ghost mut rank: Seq<int> = Seq::new(n as nat, |t: int| 0);
    let ghost mut c: int = 0;
    let mut progress = true;
    while progress
        invariant
            n == need@.len(),
            n == allocation@.len(),
            m == avail@.len(),
            nd == rows(need@),
            al == rows(allocation@),
            all == all_marked(n as nat),
            forall|i: int| 0 <= i < n ==> #[trigger] need@[i]@.len() == m,
            forall|i: int| 0 <= i < n ==> #[trigger] allocation@[i]@.len() == m,
            forall|jj: int| 0 <= jj < m ==> avail@[jj] + #[trigger] held_by(al, all, jj, n as int) <= usize::MAX,
            finish@.len() == n,
            rank.len() == n,
            work@.len() == m,
            forall|jj: int| 0 <= jj < m ==> #[trigger] work@[jj] == avail@[jj] + held_by(al, finish@, jj, n as int),
            forall|i: int| 0 <= i < n && #[trigger] finish@[i] ==> rank[i] < c
                && covered(nd[i], avail@, al, before(finish@, rank, rank[i])),
            0 <= marked(finish@, n as int) <= n,
            !progress ==> forall|i: int| 0 <= i < n && !#[trigger] finish@[i] ==> !covered(nd[i], avail@, al, finish@),
        decreases n - marked(finish@, n as int) + if progress { 1int } else { 0 },
    {
        progress = false;
        let ghost start_marked = marked(finish@, n as int);
        let mut i: usize = 0;
        while i < n
            invariant
                n == need@.len(),
                n == allocation@.len(),
                m == avail@.len(),
                nd == rows(need@),
                al == rows(allocation@),
                all == all_marked(n as nat),
                forall|ii: int| 0 <= ii < n ==> #[trigger] need@[ii]@.len() == m,
                forall|ii: int| 0 <= ii < n ==> #[trigger] allocation@[ii]@.len() == m,
                forall|jj: int| 0 <= jj < m ==> avail@[jj] + #[trigger] held_by(al, all, jj, n as int) <= usize::MAX,
                i <= n,
                finish@.len() == n,
                rank.len() == n,
                work@.len() == m,
                forall|jj: int| 0 <= jj < m ==> #[trigger] work@[jj] == avail@[jj] + held_by(al, finish@, jj, n as int),
                forall|ii: int| 0 <= ii < n && #[trigger] finish@[ii] ==> rank[ii] < c
                    && covered(nd[ii], avail@, al, before(finish@, rank, rank[ii])),
                0 <= marked(finish@, n as int) <= n,
                progress ==> marked(finish@, n as int) > start_marked,
                !progress ==> marked(finish@, n as int) == start_marked,
                !progress ==> forall|ii: int| 0 <= ii < i && !#[trigger] finish@[ii] ==> !covered(nd[ii], avail@, al, finish@),
            decreases n - i,
        {
            if !finish[i] {
                let mut ok = true;
                let mut jj: usize = 0;
                while jj < m
                    invariant
                        jj <= m,
                        m == avail@.len(),
                        i < n,
                        n == need@.len(),
                        nd == rows(need@),
                        need@[i as int]@.len() == m,
                        work@.len() == m,
                        ok == forall|q: int| 0 <= q < jj ==> nd[i as int][q] <= #[trigger] work@[q],
                    decreases m - jj,
                {
                    if need[i][jj] > work[jj] {
                        ok = false;
                    }
                    jj = jj + 1;
                }
                proof {
                    assert(nd[i as int] == need@[i as int]@);
                    assert(ok == covered(nd[i as int], avail@, al, finish@)) by {
                        if ok {
                            assert forall|q: int| 0 <= q < avail@.len() implies nd[i as int][q] <= avail@[q] + #[trigger] held_by(al, finish@, q, al.len() as int) by {
                                assert(nd[i as int][q] <= work@[q]);
                            }
                        } else {
                            let q = choose|q: int| 0 <= q < jj && !(nd[i as int][q] <= #[trigger] work@[q]);
                            assert(work@[q] == avail@[q] + held_by(al, finish@, q, al.len() as int));
                        }
                    }
                }
                if ok {
                    let ghost f0 = finish@;
                    let ghost w0 = work@;
                    let mut q: usize = 0;
                    while q < m
                        invariant
                            q <= m,
                            m == avail@.len(),
                            i < n,
                            n == allocation@.len(),
                            al == rows(allocation@),
                            allocation@[i as int]@.len() == m,
                            f0.len() == n,
                            !f0[i as int],
                            all == all_marked(n as nat),
                            forall|jj: int| 0 <= jj < m ==> avail@[jj] + #[trigger] held_by(al, all, jj, n as int) <= usize::MAX,
                            forall|jj: int| 0 <= jj < m ==> #[trigger] w0[jj] == avail@[jj] + held_by(al, f0, jj, n as int),
                            work@.len() == m,
                            forall|jj: int| 0 <= jj < q ==> #[trigger] work@[jj] == w0[jj] + al[i as int][jj],
                            forall|jj: int| q <= jj < m ==> #[trigger] work@[jj] == w0[jj],
                        decreases m - q,
                    {
                        proof {
                            lemma_held_mark(al, f0, i as int, q as int, n as int);
                            lemma_held_mono(al, f0.update(i as int, true), all, q as int, n as int);
                            assert(al[i as int] == allocation@[i as int]@);
                        }
                        let v = work[q] + allocation[i][q];
                        work.set(q, v);
                        q = q + 1;
                    }
                    finish.set(i, true);
                    proof {
                        let f1 = finish@;
                        assert(f1 == f0.update(i as int, true));
                        assert forall|jj: int| 0 <= jj < m implies #[trigger] work@[jj] == avail@[jj] + held_by(al, f1, jj, n as int) by {
                            lemma_held_mark(al, f0, i as int, jj, n as int);
                        }
                        lemma_marked_mark(f0, i as int, n as int);
                        lemma_marked_bound(f1, n as int);
                        let r0 = rank;
                        rank = rank.update(i as int, c);
                        assert(before(f1, rank, c) =~= f0) by {
                            assert forall|t: int| 0 <= t < n implies #[trigger] before(f1, rank, c)[t] == f0[t] by {
                                if t == i {
                                } else if f0[t] {
                                    assert(r0[t] < c);
                                }
                            }
                        }
                        assert forall|ii: int| 0 <= ii < n && #[trigger] f1[ii] implies rank[ii] < c + 1
                            && covered(nd[ii], avail@, al, before(f1, rank, rank[ii])) by {
                            if ii != i {
                                assert(f0[ii]);
                                assert(before(f1, rank, rank[ii]) =~= before(f0, r0, r0[ii]));
                            }
                        }
                        c = c + 1;
                    }
                    progress = true;
                }
            }
            i = i + 1;
        }
    }
    let mut all_done = true;
    let mut t: usize = 0;
    while t < n
        invariant
            t <= n,
            finish@.len() == n,
            all_done == forall|q: int| 0 <= q < t ==> #[trigger] finish@[q],
        decreases n - t,
    {
        if !finish[t] {
            all_done = false;
        }
        t = t + 1;
    }
    proof {
        if all_done {
            assert forall|s: Seq<bool>| !deadlocked_set(avail@, nd, al, s) by {
                if deadlocked_set(avail@, nd, al, s) {
                    let i = lemma_min_rank(s, rank, n as int);
                    let b = before(finish@, rank, rank[i]);
                    assert(finish@[i]);
                    assert(covered(nd[i], avail@, al, b));
                    assert forall|jj: int| 0 <= jj < avail@.len() implies nd[i][jj] <= avail@[jj] + #[trigger] held_by(al, complement(s), jj, al.len() as int) by {
                        assert forall|tt: int| 0 <= tt < n && #[trigger] b[tt] implies complement(s)[tt] by {
                            if s[tt] {
                                assert(rank[i] <= rank[tt]);
                            }
                        }
                        lemma_held_mono(al, b, complement(s), jj, n as int);
                        assert(held_by(al, b, jj, al.len() as int) <= held_by(al, complement(s), jj, al.len() as int));
                    }
                }
            }
        } else {
            let s = complement(finish@);
            let q = choose|q: int| 0 <= q < t && !#[trigger] finish@[q];
            assert(s[q]);
            assert(complement(s) =~= finish@);
            assert(deadlocked_set(avail@, nd, al, s));
        }
    }
    all_done
}

proof fn lemma_held_zero(alloc: Seq<Seq<usize>>, mask: Seq<bool>, j: int, n: int)
    requires
        n <= mask.len(),
        forall|t: int| 0 <= t < n ==> !#[trigger] mask[t],
    ensures
        held_by(alloc, mask, j, n) == 0,
    decreases n,
{
    if n > 0 {
        lemma_held_zero(alloc, mask, j, n - 1);
    }
}

proof fn lemma_marked_zero(m: Seq<bool>, n: int)
    requires
        n <= m.len(),
        forall|t: int| 0 <= t < n ==> !#[trigger] m[t],
    ensures
        marked(m, n) == 0,
    decreases n,
{
    if n > 0 {
        lemma_marked_zero(m, n - 1);
    }
}

} // verus!
