use vstd::prelude::*;

verus! {

/// The sequence is strictly increasing: sorted, with every value once.
pub open spec fn sorted_unique(s: Seq<i64>) -> bool {
    forall|i: int, j: int| 0 <= i < j < s.len() ==> s[i] < s[j]
}

/// `r` lists the set `set` in increasing order, each value once.
pub open spec fn lists_sorted(r: Seq<i64>, set: Set<i64>) -> bool {
    sorted_unique(r) && r.to_set() == set
}

/// Inserts `x` into a strictly increasing vector, keeping it strictly increasing;
/// a value already present is not inserted again.
fn insert_sorted(v: &mut Vec<i64>, x: i64)
    requires
        sorted_unique(old(v)@),
    ensures
        sorted_unique(final(v)@),
        forall|y: i64| #[trigger] final(v)@.contains(y) <==> (old(v)@.contains(y) || y == x),
{
    let mut k: usize = 0;
    while k < v.len() && v[k] < x
        invariant
            k <= v.len(),
            v@ == old(v)@,
            forall|j: int| 0 <= j < k ==> v@[j] < x,
        decreases v.len() - k,
    {
        k = k + 1;
    }
    if k < v.len() && v[k] == x {
        assert(v@.contains(x));
        return ;
    }
    let ghost o = v@;
    assert(forall|j: int| k <= j < o.len() ==> o[j] > x) by {
        if k < o.len() {
            assert(o[k as int] > x);
            assert forall|j: int| k <= j < o.len() implies o[j] > x by {
                if j > k {
                    assert(o[k as int] < o[j]);
                }
            }
        }
    }
    v.insert(k, x);
    proof {
        let n = v@;
        o.insert_ensures(k as int, x);
        assert(n.len() == o.len() + 1);
        assert forall|i: int, j: int| 0 <= i < j < n.len() implies n[i] < n[j] by {
            let ni = if i < k {
                o[i]
            } else if i == k {
                x
            } else {
                o[i - 1]
            };
            let nj = if j < k {
                o[j]
            } else if j == k {
                x
            } else {
                o[j - 1]
            };
            assert(n[i] == ni);
            assert(n[j] == nj);
            if j < k {
                assert(o[i] < o[j]);
            } else if j == k {
            } else if i < k {
            } else if i == k {
            } else {
                assert(o[i - 1] < o[j - 1]);
            }
        }
        assert forall|y: i64| #[trigger] n.contains(y) <==> (o.contains(y) || y == x) by {
            if n.contains(y) {
                let i = choose|i: int| 0 <= i < n.len() && n[i] == y;
                if i < k {
                    assert(o[i] == y);
                } else if i > k {
                    assert(o[i - 1] == y);
                }
            }
            if o.contains(y) {
                let i = choose|i: int| 0 <= i < o.len() && o[i] == y;
                if i < k {
                    assert(n[i] == y);
                } else {
                    assert(n[i + 1] == y);
                }
            }
            if y == x {
                assert(n[k as int] == x);
            }
        }
    }
}

/// Binary search in a strictly increasing vector.
fn sorted_contains(s: &Vec<i64>, x: i64) -> (found: bool)
    requires
        sorted_unique(s@),
    ensures
        found == s@.contains(x),
{
    let mut lo: usize = 0;
    let mut hi: usize = s.len();
    while lo < hi
        invariant
            lo <= hi <= s.len(),
            sorted_unique(s@),
            forall|i: int| 0 <= i < lo ==> s@[i] < x,
            forall|i: int| hi <= i < s.len() ==> s@[i] > x,
        decreases hi - lo,
    {
        let mid = lo + (hi - lo) / 2;
        let m = s[mid];
        if m == x {
            assert(s@[mid as int] == x);
            return true;
        } else if m < x {
            assert forall|i: int| 0 <= i < mid + 1 implies s@[i] < x by {
                if i < mid {
                    assert(s@[i] < s@[mid as int]);
                }
            }
            lo = mid + 1;
        } else {
            assert forall|i: int| mid <= i < s.len() implies s@[i] > x by {
                if i > mid {
                    assert(s@[mid as int] < s@[i]);
                }
            }
            hi = mid;
        }
    }
    assert(!s@.contains(x)) by {
        if s@.contains(x) {
            let i = choose|i: int| 0 <= i < s@.len() && s@[i] == x;
            assert(s@[i] == x);
        }
    }
    false
}

/// The distinct values of an array, in increasing order (NumPy's `unique`).
pub fn unique_ufunc(arr: &Vec<i64>) -> (res: Vec<i64>)
    ensures
        lists_sorted(res@, arr@.to_set()),
{
    let mut res: Vec<i64> = Vec::new();
    for i in 0..arr.len()
        invariant
            sorted_unique(res@),
            forall|y: i64| #[trigger]
                res@.contains(y) <==> (exists|j: int| 0 <= j < i && arr@[j] == y),
    {
        insert_sorted(&mut res, arr[i]);
        assert forall|y: i64| #[trigger]
            res@.contains(y) <==> (exists|j: int| 0 <= j < i + 1 && arr@[j] == y) by {
            if y == arr@[i as int] {
                assert(arr@[i as int] == y);
            }
        }
    }
    assert(res@.to_set() =~= arr@.to_set()) by {
        assert forall|y: i64| res@.contains(y) <==> arr@.contains(y) by {
            if arr@.contains(y) {
                let j = choose|j: int| 0 <= j < arr@.len() && arr@[j] == y;
                assert(arr@[j] == y);
            }
        }
    }
    res
}

/// The values common to two arrays, in increasing order, each once
/// (NumPy's `intersect1d`).
pub fn intersect1d_ufunc(a: &Vec<i64>, b: &Vec<i64>) -> (res: Vec<i64>)
    ensures
        lists_sorted(res@, a@.to_set().intersect(b@.to_set())),
{
    let set_a = unique_ufunc(a);
    let mut res: Vec<i64> = Vec::new();
    for i in 0..b.len()
        invariant
            lists_sorted(set_a@, a@.to_set()),
            sorted_unique(res@),
            forall|y: i64| #[trigger]
                res@.contains(y) <==> (a@.contains(y) && exists|j: int| 0 <= j < i && b@[j] == y),
    {
        let item = b[i];
        let found = sorted_contains(&set_a, item);
        proof {
            assert(set_a@.to_set().contains(item) == set_a@.contains(item));
        }
        if found {
            insert_sorted(&mut res, item);
        }
        assert forall|y: i64| #[trigger]
            res@.contains(y) <==> (a@.contains(y) && exists|j: int| 0 <= j < i + 1 && b@[j] == y)
            by {
            if y == b@[i as int] {
                assert(b@[i as int] == y);
                assert(set_a@.to_set().contains(y) == set_a@.contains(y));
                assert(a@.to_set().contains(y) == a@.contains(y));
            }
        }
    }
    assert(res@.to_set() =~= a@.to_set().intersect(b@.to_set())) by {
        assert forall|y: i64| res@.contains(y) <==> (a@.contains(y) && b@.contains(y)) by {
            if b@.contains(y) {
                let j = choose|j: int| 0 <= j < b@.len() && b@[j] == y;
                assert(b@[j] == y);
            }
        }
    }
    res
}

/// Sorted distinct values of every row of a two-dimensional array.
pub fn unique_elements(rows: &Vec<Vec<i64>>) -> (res: Vec<i64>)
    ensures
        lists_sorted(res@, Set::new(|x: i64| exists|r: int| 0 <= r < rows@.len() && rows@[r]@.contains(x))),
{
    let mut res: Vec<i64> = Vec::new();
    for r in 0..rows.len()
        invariant
            sorted_unique(res@),
            forall|y: i64| #[trigger]
                res@.contains(y) <==> (exists|q: int| 0 <= q < r && rows@[q]@.contains(y)),
    {
        let row = &rows[r];
        for c in 0..row.len()
            invariant
                row@ == rows@[r as int]@,
                sorted_unique(res@),
                forall|y: i64| #[trigger]
                    res@.contains(y) <==> ((exists|q: int| 0 <= q < r && rows@[q]@.contains(y))
                        || (exists|j: int| 0 <= j < c && row@[j] == y)),
        {
            insert_sorted(&mut res, row[c]);
            assert forall|y: i64| #[trigger]
                res@.contains(y) <==> ((exists|q: int| 0 <= q < r && rows@[q]@.contains(y))
                    || (exists|j: int| 0 <= j < c + 1 && row@[j] == y)) by {
                if y == row@[c as int] {
                    assert(row@[c as int] == y);
                }
            }
        }
        assert forall|y: i64| #[trigger]
            res@.contains(y) <==> (exists|q: int| 0 <= q < r + 1 && rows@[q]@.contains(y)) by {
            if rows@[r as int]@.contains(y) {
                let j = choose|j: int| 0 <= j < row@.len() && row@[j] == y;
                assert(row@[j] == y);
            }
            if res@.contains(y) && !(exists|q: int| 0 <= q < r && rows@[q]@.contains(y)) {
                let j = choose|j: int| 0 <= j < row@.len() && row@[j] == y;
                assert(rows@[r as int]@.contains(y));
            }
        }
    }
    assert(res@.to_set() =~= Set::new(
        |x: i64| exists|r: int| 0 <= r < rows@.len() && rows@[r]@.contains(x),
    ));
    res
}

/// Sorted distinct values that occur in both arrays (set intersection).
pub fn array_intersection(a: &Vec<i64>, b: &Vec<i64>) -> (res: Vec<i64>)
    ensures
        lists_sorted(res@, a@.to_set().intersect(b@.to_set())),
{
    let set_a = unique_ufunc(a);
    let set_b = unique_ufunc(b);
    let mut res: Vec<i64> = Vec::new();
    for i in 0..set_a.len()
        invariant
            lists_sorted(set_a@, a@.to_set()),
            lists_sorted(set_b@, b@.to_set()),
            sorted_unique(res@),
            forall|y: i64| #[trigger]
                res@.contains(y) <==> (b@.contains(y) && exists|j: int|
                    0 <= j < i && set_a@[j] == y),
    {
        let x = set_a[i];
        let found = sorted_contains(&set_b, x);
        proof {
            assert(set_b@.to_set().contains(x) == set_b@.contains(x));
        }
        if found {
            insert_sorted(&mut res, x);
        }
        assert forall|y: i64| #[trigger]
            res@.contains(y) <==> (b@.contains(y) && exists|j: int| 0 <= j < i + 1 && set_a@[j] == y)
            by {
            if y == set_a@[i as int] {
                assert(set_a@[i as int] == y);
                assert(set_b@.to_set().contains(y) == set_b@.contains(y));
                assert(b@.to_set().contains(y) == b@.contains(y));
            }
        }
    }
    assert(res@.to_set() =~= a@.to_set().intersect(b@.to_set())) by {
        assert forall|y: i64| res@.contains(y) <==> (a@.contains(y) && b@.contains(y)) by {
            assert(set_a@.to_set().contains(y) == set_a@.contains(y));
            assert(a@.to_set().contains(y) == a@.contains(y));
            if set_a@.contains(y) {
                let j = choose|j: int| 0 <= j < set_a@.len() && set_a@[j] == y;
                assert(set_a@[j] == y);
            }
        }
    }
    res
}

/// Sorted distinct values that occur in either array (set union).
pub fn array_union(a: &Vec<i64>, b: &Vec<i64>) -> (res: Vec<i64>)
    ensures
        lists_sorted(res@, a@.to_set().union(b@.to_set())),
{
    let mut res = unique_ufunc(a);
    assert forall|y: i64| #[trigger] res@.contains(y) <==> a@.contains(y) by {
        assert(res@.to_set().contains(y) == res@.contains(y));
        assert(a@.to_set().contains(y) == a@.contains(y));
    }
    for i in 0..b.len()
        invariant
            sorted_unique(res@),
            forall|y: i64| #[trigger]
                res@.contains(y) <==> (a@.contains(y) || exists|j: int| 0 <= j < i && b@[j] == y),
    {
        insert_sorted(&mut res, b[i]);
        assert forall|y: i64| #[trigger]
            res@.contains(y) <==> (a@.contains(y) || exists|j: int| 0 <= j < i + 1 && b@[j] == y)
            by {
            if y == b@[i as int] {
                assert(b@[i as int] == y);
            }
        }
    }
    assert(res@.to_set() =~= a@.to_set().union(b@.to_set())) by {
        assert forall|y: i64| res@.contains(y) <==> (a@.contains(y) || b@.contains(y)) by {
            if b@.contains(y) {
                let j = choose|j: int| 0 <= j < b@.len() && b@[j] == y;
                assert(b@[j] == y);
            }
        }
    }
    res
}

/// Sorted distinct values of the first array that do not occur in the second
/// (set difference `a - b`).
pub fn array_difference(a: &Vec<i64>, b: &Vec<i64>) -> (res: Vec<i64>)
    ensures
        lists_sorted(res@, a@.to_set().difference(b@.to_set())),
{
    let set_a = unique_ufunc(a);
    let set_b = unique_ufunc(b);
    let mut res: Vec<i64> = Vec::new();
    for i in 0..set_a.len()
        invariant
            lists_sorted(set_a@, a@.to_set()),
            lists_sorted(set_b@, b@.to_set()),
            sorted_unique(res@),
            forall|y: i64| #[trigger]
                res@.contains(y) <==> (!b@.contains(y) && exists|j: int|
                    0 <= j < i && set_a@[j] == y),
    {
        let x = set_a[i];
        let found = sorted_contains(&set_b, x);
        proof {
            assert(set_b@.to_set().contains(x) == set_b@.contains(x));
        }
        if !found {
            insert_sorted(&mut res, x);
        }
        assert forall|y: i64| #[trigger]
            res@.contains(y) <==> (!b@.contains(y) && exists|j: int| 0 <= j < i + 1 && set_a@[j] == y)
            by {
            if y == set_a@[i as int] {
                assert(set_a@[i as int] == y);
                assert(set_b@.to_set().contains(y) == set_b@.contains(y));
                assert(b@.to_set().contains(y) == b@.contains(y));
            }
        }
    }
    assert(res@.to_set() =~= a@.to_set().difference(b@.to_set())) by {
        assert forall|y: i64| res@.contains(y) <==> (a@.contains(y) && !b@.contains(y)) by {
            assert(set_a@.to_set().contains(y) == set_a@.contains(y));
            assert(a@.to_set().contains(y) == a@.contains(y));
            if set_a@.contains(y) {
                let j = choose|j: int| 0 <= j < set_a@.len() && set_a@[j] == y;
                assert(set_a@[j] == y);
            }
        }
    }
    res
}

proof fn lemma_listing_len(r: Seq<i64>, set: Set<i64>)
    requires
        lists_sorted(r, set),
    ensures
        r.len() == set.len(),
        set.finite(),
{
    assert(r.no_duplicates()) by {
        assert forall|i: int, j: int| 0 <= i < r.len() && 0 <= j < r.len() && i != j implies r[i]
            != r[j] by {
            if i < j {
                assert(r[i] < r[j]);
            } else {
                assert(r[j] < r[i]);
            }
        }
    }
    r.unique_seq_to_set();
    vstd::seq_lib::seq_to_set_is_finite(r);
}

proof fn lemma_listings_agree_upto(r1: Seq<i64>, r2: Seq<i64>, set: Set<i64>, n: int)
    requires
        lists_sorted(r1, set),
        lists_sorted(r2, set),
        r1.len() == r2.len(),
        0 <= n <= r1.len(),
    ensures
        forall|k: int| 0 <= k < n ==> r1[k] == r2[k],
    decreases n,
{
    if n > 0 {
        let m = n - 1;
        lemma_listings_agree_upto(r1, r2, set, m);
        if r1[m] != r2[m] {
            if r1[m] < r2[m] {
                assert(r1.to_set().contains(r1[m]));
                assert(r2.to_set().contains(r1[m]));
                let j = choose|j: int| 0 <= j < r2.len() && r2[j] == r1[m];
                if j < m {
                    assert(r1[j] < r1[m]);
                } else if j > m {
                    assert(r2[m] < r2[j]);
                }
            } else {
                assert(r2.to_set().contains(r2[m]));
                assert(r1.to_set().contains(r2[m]));
                let j = choose|j: int| 0 <= j < r1.len() && r1[j] == r2[m];
                if j < m {
                    assert(r2[j] < r2[m]);
                } else if j > m {
                    assert(r1[m] < r1[j]);
                }
            }
        }
    }
}

/// Law: a set of integers has exactly one strictly increasing listing, so every
/// function here that returns "the sorted distinct values" of some set returns a
/// result fully determined by that set.
pub proof fn lemma_sorted_listing_unique(r1: Seq<i64>, r2: Seq<i64>, set: Set<i64>)
    requires
        lists_sorted(r1, set),
        lists_sorted(r2, set),
    ensures
        r1 == r2,
{
    lemma_listing_len(r1, set);
    lemma_listing_len(r2, set);
    lemma_listings_agree_upto(r1, r2, set, r1.len() as int);
    assert(r1 =~= r2);
}

/// Law: taking the distinct values twice changes nothing: if `once` lists the
/// values of `arr` and `twice` lists the values of `once`, they are equal.
pub proof fn lemma_unique_idempotent(arr: Seq<i64>, once: Seq<i64>, twice: Seq<i64>)
    requires
        lists_sorted(once, arr.to_set()),
        lists_sorted(twice, once.to_set()),
    ensures
        twice == once,
{
    lemma_sorted_listing_unique(twice, once, once.to_set());
}

/// Law: the two intersection routines (`intersect1d_ufunc` and
/// `array_intersection`) give the same array for the same inputs.
pub proof fn lemma_intersections_agree(a: Seq<i64>, b: Seq<i64>, r1: Seq<i64>, r2: Seq<i64>)
    requires
        lists_sorted(r1, a.to_set().intersect(b.to_set())),
        lists_sorted(r2, a.to_set().intersect(b.to_set())),
    ensures
        r1 == r2,
{
    lemma_sorted_listing_unique(r1, r2, a.to_set().intersect(b.to_set()));
}

/// Law (inclusion-exclusion): the union and the intersection of two arrays
/// together have as many values as the distinct values of each array.
pub proof fn lemma_union_intersection_lengths(
    a: Seq<i64>,
    b: Seq<i64>,
    uni: Seq<i64>,
    inter: Seq<i64>,
    ua: Seq<i64>,
    ub: Seq<i64>,
)
    requires
        lists_sorted(uni, a.to_set().union(b.to_set())),
        lists_sorted(inter, a.to_set().intersect(b.to_set())),
        lists_sorted(ua, a.to_set()),
        lists_sorted(ub, b.to_set()),
    ensures
        uni.len() + inter.len() == ua.len() + ub.len(),
{
    lemma_listing_len(uni, a.to_set().union(b.to_set()));
    lemma_listing_len(inter, a.to_set().intersect(b.to_set()));
    lemma_listing_len(ua, a.to_set());
    lemma_listing_len(ub, b.to_set());
    vstd::set_lib::lemma_set_intersect_union_lens(a.to_set(), b.to_set());
}

/// Law: the difference `a - b` and the intersection together have as many values
/// as the distinct values of `a`.
pub proof fn lemma_difference_intersection_lengths(
    a: Seq<i64>,
    b: Seq<i64>,
    diff: Seq<i64>,
    inter: Seq<i64>,
    ua: Seq<i64>,
)
    requires
        lists_sorted(diff, a.to_set().difference(b.to_set())),
        lists_sorted(inter, a.to_set().intersect(b.to_set())),
        lists_sorted(ua, a.to_set()),
    ensures
        diff.len() + inter.len() == ua.len(),
{
    lemma_listing_len(diff, a.to_set().difference(b.to_set()));
    lemma_listing_len(inter, a.to_set().intersect(b.to_set()));
    lemma_listing_len(ua, a.to_set());
    vstd::seq_lib::seq_to_set_is_finite(b);
    vstd::set_lib::lemma_set_difference_len(a.to_set(), b.to_set());
}

} // verus!
