//! Stable ordering by integer keys, and the offsets of the groups that it
//! forms.

use vstd::prelude::*;

verus! {

/// Index `a` comes before index `b`: its key is smaller, or the keys are
/// equal and `a` is the smaller index.
pub open spec fn key_before(keys: Seq<u128>, a: int, b: int) -> bool {
    keys[a] < keys[b] || (keys[a] == keys[b] && a < b)
}

/// The entries of `order` are indices below `hi`, each coming before the
/// next.
pub open spec fn ordered(keys: Seq<u128>, order: Seq<usize>) -> bool {
    &&& forall|i: int| 0 <= i < order.len() ==> (#[trigger] order[i]) < keys.len()
    &&& forall|i: int, j: int|
        0 <= i < j < order.len() ==> key_before(keys, order[i] as int, order[j] as int)
}

/// `order` holds every index from `lo` up to `hi` and nothing else.
pub open spec fn covers(order: Seq<usize>, lo: int, hi: int) -> bool {
    &&& order.len() == hi - lo
    &&& forall|i: int| 0 <= i < order.len() ==> lo <= (#[trigger] order[i]) < hi
    &&& forall|x: usize| lo <= x < hi ==> #[trigger] order.contains(x)
}

/// `order` is the stable sorting permutation of `keys`: it lists every
/// index once, by increasing key, and indices of equal keys in increasing
/// order.
pub open spec fn is_stable_order(keys: Seq<u128>, order: Seq<usize>) -> bool {
    covers(order, 0, keys.len() as int) && ordered(keys, order)
}

/// The sequence `s` rearranged by `order`.
pub open spec fn permuted<T>(s: Seq<T>, order: Seq<usize>) -> Seq<T> {
    Seq::new(order.len(), |i: int| s[order[i] as int])
}

/// Merges two stable orders of adjacent index ranges.
fn merge(keys: &Vec<u128>, a: &Vec<usize>, b: &Vec<usize>, Ghost(lo): Ghost<int>, Ghost(
    mid,
): Ghost<int>, Ghost(hi): Ghost<int>) -> (out: Vec<usize>)
    requires
        0 <= lo <= mid <= hi <= keys@.len(),
        covers(a@, lo, mid),
        covers(b@, mid, hi),
        ordered(keys@, a@),
        ordered(keys@, b@),
    ensures
        covers(out@, lo, hi),
        ordered(keys@, out@),
{
    let mut out: Vec<usize> = Vec::new();
    let mut i: usize = 0;
    let mut j: usize = 0;
    let ghost mut place_a: Seq<int> = Seq::empty();
    let ghost mut place_b: Seq<int> = Seq::empty();
    while i < a.len() || j < b.len()
        invariant
            0 <= lo <= mid <= hi <= keys@.len(),
            covers(a@, lo, mid),
            covers(b@, mid, hi),
            ordered(keys@, a@),
            ordered(keys@, b@),
            i <= a@.len(),
            j <= b@.len(),
            out@.len() == i + j,
            ordered(keys@, out@),
            forall|s: int| 0 <= s < out@.len() ==> lo <= (#[trigger] out@[s]) < hi,
            forall|s: int|
                0 <= s < out@.len() && i < a@.len() ==> key_before(
                    keys@,
                    (#[trigger] out@[s]) as int,
                    a@[i as int] as int,
                ),
            forall|s: int|
                0 <= s < out@.len() && j < b@.len() ==> key_before(
                    keys@,
                    (#[trigger] out@[s]) as int,
                    b@[j as int] as int,
                ),
            place_a.len() == i,
            place_b.len() == j,
            forall|k: int|
                0 <= k < i ==> 0 <= (#[trigger] place_a[k]) < out@.len() && out@[place_a[k]]
                    == a@[k],
            forall|k: int|
                0 <= k < j ==> 0 <= (#[trigger] place_b[k]) < out@.len() && out@[place_b[k]]
                    == b@[k],
        decreases a@.len() - i + b@.len() - j,
    {
        let take_a: bool = if j >= b.len() {
            true
        } else if i >= a.len() {
            false
        } else {
            keys[a[i]] <= keys[b[j]]
        };
        let ghost before = out@;
        if take_a {
            let x: usize = a[i];
            proof {
                if i + 1 < a@.len() {
                    assert(key_before(keys@, a@[i as int] as int, a@[i + 1] as int));
                }
                if j < b@.len() {
                    assert(a@[i as int] < mid <= b@[j as int]);
                }
                place_a = place_a.push(out@.len() as int);
            }
            out.push(x);
            i += 1;
        } else {
            let x: usize = b[j];
            proof {
                if j + 1 < b@.len() {
                    assert(key_before(keys@, b@[j as int] as int, b@[j + 1] as int));
                }
                place_b = place_b.push(out@.len() as int);
            }
            out.push(x);
            j += 1;
        }
        proof {
            assert forall|s: int, t: int| 0 <= s < t < out@.len() implies key_before(
                keys@,
                out@[s] as int,
                out@[t] as int,
            ) by {
                if t < before.len() {
                    assert(key_before(keys@, before[s] as int, before[t] as int));
                } else {
                    assert(out@[s] == before[s]);
                }
            }
        }
    }
    proof {
        assert forall|x: usize| lo <= x < hi implies #[trigger] out@.contains(x) by {
            if x < mid {
                assert(a@.contains(x));
                let k = choose|k: int| 0 <= k < a@.len() && a@[k] == x;
                assert(out@[place_a[k]] == x);
            } else {
                assert(b@.contains(x));
                let k = choose|k: int| 0 <= k < b@.len() && b@[k] == x;
                assert(out@[place_b[k]] == x);
            }
        }
    }
    out
}

/// The stable order of the indices from `lo` up to `hi`.
fn order_range(keys: &Vec<u128>, lo: usize, hi: usize) -> (out: Vec<usize>)
    requires
        lo <= hi <= keys@.len(),
    ensures
        covers(out@, lo as int, hi as int),
        ordered(keys@, out@),
    decreases hi - lo,
{
    if hi - lo <= 1 {
        let mut out: Vec<usize> = Vec::new();
        if hi - lo == 1 {
            out.push(lo);
            assert(out@[0] == lo);
        }
        return out;
    }
    let mid: usize = lo + (hi - lo) / 2;
    let a = order_range(keys, lo, mid);
    let b = order_range(keys, mid, hi);
    merge(keys, &a, &b, Ghost(lo as int), Ghost(mid as int), Ghost(hi as int))
}

/// The permutation that sorts `keys`, keeping equal keys in their order.
pub fn stable_order(keys: &Vec<u128>) -> (order: Vec<usize>)
    ensures
        is_stable_order(keys@, order@),
{
    order_range(keys, 0, keys.len())
}

/// The items rearranged by `order`.
pub fn apply_order<T: Copy>(items: &Vec<T>, order: &Vec<usize>) -> (out: Vec<T>)
    requires
        forall|i: int| 0 <= i < order@.len() ==> (#[trigger] order@[i]) < items@.len(),
    ensures
        out@ == permuted(items@, order@),
{
    let mut out: Vec<T> = Vec::new();
    let mut i: usize = 0;
    while i < order.len()
        invariant
            i <= order@.len(),
            out@.len() == i,
            forall|i: int| 0 <= i < order@.len() ==> (#[trigger] order@[i]) < items@.len(),
            forall|k: int| 0 <= k < i ==> out@[k] == items@[order@[k] as int],
        decreases order@.len() - i,
    {
        out.push(items[order[i]]);
        i += 1;
    }
    assert(out@ =~= permuted(items@, order@));
    out
}

/// `offsets[c]` is the number of keys below `c`, for every `c` up to
/// `buckets`: the keys below `c` are exactly those before position
/// `offsets[c]`.
pub open spec fn is_offsets(keys: Seq<usize>, buckets: int, offsets: Seq<usize>) -> bool {
    &&& offsets.len() == buckets + 1
    &&& forall|c: int|
        0 <= c <= buckets ==> {
            &&& (#[trigger] offsets[c]) <= keys.len()
            &&& forall|j: int| 0 <= j < offsets[c] ==> keys[j] < c
            &&& forall|j: int| offsets[c] <= j < keys.len() ==> keys[j] >= c
        }
}

/// The keys never decrease and stay below `buckets`.
pub open spec fn grouped(keys: Seq<usize>, buckets: int) -> bool {
    &&& forall|i: int| 0 <= i < keys.len() ==> (#[trigger] keys[i]) < buckets
    &&& forall|i: int, j: int| 0 <= i <= j < keys.len() ==> keys[i] <= keys[j]
}

/// Offsets start at zero, never decrease, end at the number of keys, and
/// the group of key `k` holds exactly the positions of the keys equal to `k`.
pub proof fn lemma_offsets(keys: Seq<usize>, buckets: int, offsets: Seq<usize>)
    requires
        is_offsets(keys, buckets, offsets),
        forall|i: int| 0 <= i < keys.len() ==> (#[trigger] keys[i]) < buckets,
        0 <= buckets,
    ensures
        offsets[0] == 0,
        offsets[buckets] == keys.len(),
        forall|c: int, d: int| 0 <= c <= d <= buckets ==> offsets[c] <= offsets[d],
        forall|i: int|
            0 <= i < keys.len() ==> offsets[(#[trigger] keys[i]) as int] <= i < offsets[keys[i]
                + 1],
        forall|c: int, i: int|
            0 <= c < buckets && (#[trigger] offsets[c]) <= i < offsets[c + 1] ==> (
            #[trigger] keys[i]) == c,
{
    if offsets[0] > 0 {
        assert(keys[0] < 0);
    }
    if offsets[buckets] < keys.len() {
        assert(keys[offsets[buckets] as int] >= buckets);
    }
    assert forall|c: int, d: int| 0 <= c <= d <= buckets implies offsets[c] <= offsets[d] by {
        if offsets[c] > offsets[d] {
            let j = offsets[d] as int;
            assert(keys[j] < c);
            assert(keys[j] >= d);
        }
    }
    assert forall|i: int| 0 <= i < keys.len() implies offsets[(#[trigger] keys[i]) as int] <= i
        < offsets[keys[i] + 1] by {
        let k = keys[i] as int;
        if i < offsets[k] {
            assert(keys[i] < k);
        }
        if i >= offsets[k + 1] {
            assert(keys[i] >= k + 1);
        }
    }
    assert forall|c: int, i: int|
        0 <= c < buckets && (#[trigger] offsets[c]) <= i < offsets[c + 1] implies (
    #[trigger] keys[i]) == c by {
        assert(offsets[c + 1] <= keys.len());
        assert(keys[i] >= c);
        assert(keys[i] < c + 1);
    }
}

/// The keys have one array of offsets only.
pub proof fn lemma_offsets_are_unique(
    keys: Seq<usize>,
    buckets: int,
    first: Seq<usize>,
    second: Seq<usize>,
)
    requires
        is_offsets(keys, buckets, first),
        is_offsets(keys, buckets, second),
    ensures
        first == second,
{
    assert forall|c: int| 0 <= c <= buckets implies first[c] == second[c] by {
        if first[c] < second[c] {
            let j = first[c] as int;
            assert(keys[j] < c);
            assert(keys[j] >= c);
        }
        if second[c] < first[c] {
            let j = second[c] as int;
            assert(keys[j] < c);
            assert(keys[j] >= c);
        }
    }
    assert(first =~= second);
}

/// Numbers of which none is less than the one before it never decrease.
pub proof fn lemma_steps_up(s: Seq<usize>, i: int, j: int)
    requires
        forall|k: int| 0 <= k && k + 1 < s.len() ==> (#[trigger] s[k]) <= s[k + 1],
        0 <= i <= j < s.len(),
    ensures
        s[i] <= s[j],
    decreases j - i,
{
    if i < j {
        lemma_steps_up(s, i, j - 1);
        assert(s[j - 1] <= s[j - 1 + 1]);
    }
}

/// Whether none of the numbers is less than the one before it.
pub fn never_decreases(s: &Vec<usize>) -> (r: bool)
    ensures
        r == forall|i: int, j: int| 0 <= i <= j < s@.len() ==> s@[i] <= s@[j],
{
    let n: usize = s.len();
    if n == 0 {
        return true;
    }
    let mut k: usize = 1;
    while k < n
        invariant
            n == s@.len(),
            1 <= k <= n,
            forall|m: int| 0 <= m < k - 1 ==> (#[trigger] s@[m]) <= s@[m + 1],
        decreases n - k,
    {
        if s[k - 1] > s[k] {
            return false;
        }
        k += 1;
    }
    proof {
        assert forall|i: int, j: int| 0 <= i <= j < s@.len() implies s@[i] <= s@[j] by {
            lemma_steps_up(s@, i, j);
        }
    }
    true
}

/// The offsets of the groups of non-decreasing keys: walks the keys once
/// and, whenever the key grows, notes the position for every group that
/// starts there.
pub fn group_offsets(keys: &Vec<usize>, buckets: usize) -> (offsets: Vec<usize>)
    requires
        grouped(keys@, buckets as int),
        buckets < usize::MAX,
    ensures
        is_offsets(keys@, buckets as int, offsets@),
{
    let mut offsets: Vec<usize> = Vec::new();
    let mut c: usize = 0;
    let mut i: usize = 0;
    let n: usize = keys.len();
    while c <= buckets
        invariant
            grouped(keys@, buckets as int),
            buckets < usize::MAX,
            n == keys@.len(),
            c <= buckets + 1,
            i <= n,
            offsets@.len() == c,
            forall|j: int| 0 <= j < i ==> keys@[j] < c,
            forall|d: int|
                0 <= d < c ==> {
                    &&& (#[trigger] offsets@[d]) <= i
                    &&& forall|j: int| 0 <= j < offsets@[d] ==> keys@[j] < d
                    &&& forall|j: int| offsets@[d] <= j < n ==> keys@[j] >= d
                },
        decreases buckets + 1 - c,
    {
        while i < n && keys[i] < c
            invariant
                grouped(keys@, buckets as int),
                n == keys@.len(),
                i <= n,
                forall|j: int| 0 <= j < i ==> keys@[j] < c,
            decreases n - i,
        {
            i += 1;
        }
        proof {
            assert forall|j: int| i <= j < n implies keys@[j] >= c by {
                assert(keys@[i as int] <= keys@[j]);
            }
        }
        offsets.push(i);
        c += 1;
    }
    offsets
}

} // verus!
