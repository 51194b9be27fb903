//! Fixed-size subsets of a pool of node indices, in lexicographic order of
//! their positions in the pool.
use vstd::prelude::*;

verus! {

/// The subsets of size `k` of `pool`, each listed in pool order: first those
/// that hold `pool[0]`, then those that do not.
pub open spec fn combos(pool: Seq<usize>, k: nat) -> Seq<Seq<usize>>
    decreases pool.len(),
{
    if k == 0 {
        seq![Seq::<usize>::empty()]
    } else if pool.len() == 0 {
        Seq::<Seq<usize>>::empty()
    } else {
        let tail = pool.drop_first();
        combos(tail, (k - 1) as nat).map_values(|s: Seq<usize>| seq![pool[0]] + s) + combos(tail, k)
    }
}

/// Every subset listed by `combos(pool, k)` has exactly `k` members, each of
/// them taken from `pool`.
pub proof fn lemma_combos_members(pool: Seq<usize>, k: nat, i: int)
    requires
        0 <= i < combos(pool, k).len(),
    ensures
        combos(pool, k)[i].len() == k,
        forall|j: int| 0 <= j < k ==> pool.contains(#[trigger] combos(pool, k)[i][j]),
    decreases pool.len(),
{
    if k == 0 {
    } else if pool.len() == 0 {
    } else {
        let tail = pool.drop_first();
        let with = combos(tail, (k - 1) as nat);
        let c = combos(pool, k)[i];
        if i < with.len() {
            lemma_combos_members(tail, (k - 1) as nat, i);
            assert(c == seq![pool[0]] + with[i]);
            assert forall|j: int| 0 <= j < k implies pool.contains(#[trigger] c[j]) by {
                if j == 0 {
                    assert(pool[0] == c[j]);
                } else {
                    assert(c[j] == with[i][j - 1]);
                    assert(tail.contains(with[i][j - 1]));
                    let t = choose|t: int| 0 <= t < tail.len() && tail[t] == with[i][j - 1];
                    assert(pool[t + 1] == c[j]);
                }
            }
        } else {
            lemma_combos_members(tail, k, i - with.len());
            assert(c == combos(tail, k)[i - with.len()]);
            assert forall|j: int| 0 <= j < k implies pool.contains(#[trigger] c[j]) by {
                assert(tail.contains(c[j]));
                let t = choose|t: int| 0 <= t < tail.len() && tail[t] == c[j];
                assert(pool[t + 1] == c[j]);
            }
        }
    }
}

/// The list is strictly increasing.
pub open spec fn increasing(s: Seq<usize>) -> bool {
    forall|i: int, j: int| 0 <= i < j < s.len() ==> s[i] < s[j]
}

/// The subsets drawn from a strictly increasing pool are strictly increasing.
pub proof fn lemma_combos_increasing(pool: Seq<usize>, k: nat, i: int)
    requires
        increasing(pool),
        0 <= i < combos(pool, k).len(),
    ensures
        increasing(combos(pool, k)[i]),
    decreases pool.len(),
{
    if k > 0 && pool.len() > 0 {
        let tail = pool.drop_first();
        let with = combos(tail, (k - 1) as nat);
        assert(increasing(tail));
        if i < with.len() {
            lemma_combos_increasing(tail, (k - 1) as nat, i);
            lemma_combos_members(tail, (k - 1) as nat, i);
            let c = combos(pool, k)[i];
            assert(c == seq![pool[0]] + with[i]);
            assert forall|a: int, b: int| 0 <= a < b < c.len() implies c[a] < c[b] by {
                if a == 0 {
                    assert(c[b] == with[i][b - 1]);
                    assert(tail.contains(with[i][b - 1]));
                    let t = choose|t: int| 0 <= t < tail.len() && tail[t] == with[i][b - 1];
                    assert(pool[t + 1] == c[b]);
                } else {
                    assert(c[a] == with[i][a - 1]);
                    assert(c[b] == with[i][b - 1]);
                }
            }
        } else {
            lemma_combos_increasing(tail, k, i - with.len());
        }
    }
}

/// A pool smaller than `k` has no subset of size `k`.
pub proof fn lemma_combos_too_few(pool: Seq<usize>, k: nat)
    requires
        pool.len() < k,
    ensures
        combos(pool, k).len() == 0,
    decreases pool.len(),
{
    if pool.len() > 0 {
        lemma_combos_too_few(pool.drop_first(), (k - 1) as nat);
        lemma_combos_too_few(pool.drop_first(), k);
    }
}

/// The exec view of a list of index lists.
pub open spec fn lists_view(v: Seq<Vec<usize>>) -> Seq<Seq<usize>> {
    v.map_values(|s: Vec<usize>| s@)
}

fn combinations_from(pool: &Vec<usize>, start: usize, k: usize) -> (r: Vec<Vec<usize>>)
    requires
        start <= pool.len(),
    ensures
        lists_view(r@) == combos(pool@.subrange(start as int, pool.len() as int), k as nat),
    decreases pool.len() - start,
{
    let ghost p = pool@.subrange(start as int, pool.len() as int);
    if k == 0 {
        let r = vec![Vec::new()];
        assert(lists_view(r@) =~= combos(p, k as nat));
        return r;
    }
    if start == pool.len() {
        let r: Vec<Vec<usize>> = Vec::new();
        assert(lists_view(r@) =~= combos(p, k as nat));
        return r;
    }
    let head = pool[start];
    let ghost tail = pool@.subrange(start as int + 1, pool.len() as int);
    assert(p.drop_first() =~= tail);
    let with = combinations_from(pool, start + 1, k - 1);
    let without = combinations_from(pool, start + 1, k);
    let ghost with_spec = combos(tail, (k - 1) as nat).map_values(|s: Seq<usize>| seq![p[0]] + s);
    let mut ret: Vec<Vec<usize>> = Vec::new();
    let mut i: usize = 0;
    while i < with.len()
        invariant
            0 <= i <= with.len(),
            lists_view(with@) == combos(tail, (k - 1) as nat),
            head == p[0],
            lists_view(ret@) =~= with_spec.subrange(0, i as int),
            with_spec.len() == with.len(),
            p.len() > 0,
            k > 0,
            with_spec == combos(tail, (k - 1) as nat).map_values(|s: Seq<usize>| seq![p[0]] + s),
        decreases with.len() - i,
    {
        let ghost before = ret@;
        let mut t: Vec<usize> = Vec::new();
        t.push(head);
        let mut j: usize = 0;
        while j < with[i].len()
            invariant
                0 <= i < with.len(),
                0 <= j <= with[i as int].len(),
                t@ =~= seq![head] + with[i as int]@.subrange(0, j as int),
            decreases with[i as int].len() - j,
        {
            t.push(with[i][j]);
            j += 1;
        }
        assert(with[i as int]@.subrange(0, j as int) =~= with[i as int]@);
        assert(lists_view(with@)[i as int] == with[i as int]@);
        assert(combos(tail, (k - 1) as nat)[i as int] == with[i as int]@);
        assert(with_spec[i as int] == seq![p[0]] + combos(tail, (k - 1) as nat)[i as int]);
        assert(t@ =~= with_spec[i as int]);
        ret.push(t);
        assert(ret@ == before.push(t));
        assert(lists_view(ret@) =~= lists_view(before).push(t@));
        i += 1;
    }
    let mut i: usize = 0;
    let ghost base = lists_view(ret@);
    while i < without.len()
        invariant
            0 <= i <= without.len(),
            lists_view(without@) == combos(tail, k as nat),
            base =~= with_spec,
            lists_view(ret@) =~= base + lists_view(without@).subrange(0, i as int),
        decreases without.len() - i,
    {
        let mut t: Vec<usize> = Vec::new();
        let mut j: usize = 0;
        while j < without[i].len()
            invariant
                0 <= i < without.len(),
                0 <= j <= without[i as int].len(),
                t@ =~= without[i as int]@.subrange(0, j as int),
            decreases without[i as int].len() - j,
        {
            t.push(without[i][j]);
            j += 1;
        }
        assert(without[i as int]@.subrange(0, j as int) =~= without[i as int]@);
        let ghost before = ret@;
        ret.push(t);
        assert(ret@ == before.push(t));
        assert(lists_view(ret@) =~= lists_view(before).push(t@));
        assert(lists_view(without@)[i as int] == t@);
        i += 1;
    }
    assert(lists_view(without@).subrange(0, without.len() as int) =~= lists_view(without@));
    assert(lists_view(ret@) =~= combos(p, k as nat));
    ret
}

/// All subsets of size `k` of `pool`, as `combos` lists them.
pub fn get_combinations(pool: &Vec<usize>, k: usize) -> (r: Vec<Vec<usize>>)
    ensures
        lists_view(r@) == combos(pool@, k as nat),
{
    let r = combinations_from(pool, 0, k);
    assert(pool@.subrange(0, pool.len() as int) =~= pool@);
    r
}

} // verus!
