//! Combinations of a list, in the order the list gives them.
use vstd::prelude::*;

verus! {

/// Each vector seen as its sequence of elements.
pub open spec fn views(v: Seq<Vec<i8>>) -> Seq<Seq<i8>> {
    v.map_values(|x: Vec<i8>| x@)
}

/// The combinations of `k` elements of `arr` whose first element is taken at
/// an index in `lo..hi` and the others after it, grouped by that index in
/// increasing order; each combination lists its elements in the order of `arr`.
pub open spec fn combos_range(arr: Seq<i8>, k: int, lo: int, hi: int) -> Seq<Seq<i8>>
    decreases k, hi - lo,
{
    if k <= 0 || hi <= lo {
        seq![]
    } else {
        combos_range(arr, k, lo, hi - 1) + (if k == 1 {
            seq![seq![]]
        } else {
            combos_range(arr, k - 1, hi, arr.len() - k + 2)
        }).map_values(|c: Seq<i8>| seq![arr[hi - 1]] + c)
    }
}

/// All combinations of `k` elements of `arr` taken at indices from `start`
/// on, in lexicographic order of their indices.
pub open spec fn combos(arr: Seq<i8>, k: int, start: int) -> Seq<Seq<i8>> {
    if k <= 0 {
        seq![seq![]]
    } else {
        combos_range(arr, k, start, arr.len() - k + 1)
    }
}

/// The combinations of `leng` elements of `arr` from index `startPosition`
/// on, in lexicographic order of their indices.
pub fn getCombinations(arr: Vec<i8>, leng: i8, startPosition: i8) -> (r: Vec<Vec<i8>>)
    requires
        arr.len() <= 127,
        0 <= leng,
        0 <= startPosition,
    ensures
        views(r@) == combos(arr@, leng as int, startPosition as int),
{
    let mut result: Vec<i8> = Vec::new();
    let mut n: i8 = 0;
    while n < leng
        invariant
            0 <= n <= leng,
            result@.len() == n,
        decreases leng - n,
    {
        result.push(0);
        n += 1;
    }
    assert(result@.subrange(0, result@.len() - leng) =~= Seq::<i8>::empty());
    let r = combinations(&arr, leng, startPosition, &mut result);
    let ghost cs = combos(arr@, leng as int, startPosition as int);
    assert forall|t: int| 0 <= t < cs.len() implies Seq::<i8>::empty() + cs[t] == cs[t] by {
        assert(Seq::<i8>::empty() + cs[t] =~= cs[t]);
    }
    assert(cs.map_values(|c: Seq<i8>| Seq::<i8>::empty() + c) =~= cs);
    r
}

/// Each combination of `leng` elements of `arr` from `startPosition` on,
/// written into the last `leng` places of `result` after the places before
/// them, which stay as they are.
fn combinations(arr: &Vec<i8>, leng: i8, startPosition: i8, result: &mut Vec<i8>) -> (r: Vec<Vec<i8>>)
    requires
        arr.len() <= 127,
        0 <= leng,
        0 <= startPosition,
        leng <= old(result)@.len(),
    ensures
        final(result)@.len() == old(result)@.len(),
        final(result)@.subrange(0, old(result)@.len() - leng) == old(result)@.subrange(0, old(result)@.len() - leng),
        views(r@) == combos(arr@, leng as int, startPosition as int).map_values(
            |c: Seq<i8>| old(result)@.subrange(0, old(result)@.len() - leng) + c,
        ),
    decreases leng,
{
    let ghost prefix = result@.subrange(0, result@.len() - leng);
    let mut finalResult: Vec<Vec<i8>> = Vec::new();
    if leng == 0 {
        finalResult.push(result.clone());
        proof {
            assert(result@ =~= prefix + Seq::<i8>::empty());
            assert(views(finalResult@) =~= combos(arr@, leng as int, startPosition as int).map_values(
                |c: Seq<i8>| prefix + c,
            ));
        }
        return finalResult;
    }
    let hi: i64 = arr.len() as i64 - leng as i64 + 1;
    let mut i: i64 = startPosition as i64;
    let resleng = result.len();
    if i >= hi {
        assert(views(finalResult@) =~= combos(arr@, leng as int, startPosition as int).map_values(
            |c: Seq<i8>| prefix + c,
        ));
        return finalResult;
    }
    while i < hi
        invariant
            arr.len() <= 127,
            0 <= startPosition,
            1 <= leng <= resleng,
            resleng == result@.len(),
            hi == arr.len() - leng + 1,
            startPosition <= i <= hi,
            result@.subrange(0, resleng - leng) == prefix,
            views(finalResult@) == combos_range(arr@, leng as int, startPosition as int, i as int).map_values(
                |c: Seq<i8>| prefix + c,
            ),
        decreases hi - i,
    {
        result.set(resleng - leng as usize, arr[i as usize]);
        let ghost inner = result@.subrange(0, resleng - leng + 1);
        assert(inner =~= prefix + seq![arr@[i as int]]);
        assert(result@.subrange(0, resleng - leng) =~= prefix);
        let mut part = combinations(arr, leng - 1, (i + 1) as i8, result);
        let ghost block = (if leng == 1 {
            seq![seq![]]
        } else {
            combos_range(arr@, leng - 1, i + 1, arr@.len() - leng + 2)
        });
        assert(combos(arr@, leng - 1, i + 1) == block);
        assert(views(part@) == block.map_values(|c: Seq<i8>| inner + c));
        let ghost partv = views(part@);
        assert forall|t: int| 0 <= t < block.len() implies inner + block[t] == prefix + (seq![arr@[i as int]] + block[t]) by {
            assert(inner + block[t] =~= prefix + (seq![arr@[i as int]] + block[t]));
        }
        assert(partv =~= block.map_values(|c: Seq<i8>| seq![arr@[i as int]] + c).map_values(|c: Seq<i8>| prefix + c));
        let ghost before = finalResult@;
        let ghost part_before = part@;
        finalResult.append(&mut part);
        proof {
            assert(result@.subrange(0, resleng - leng) =~= result@.subrange(0, resleng - leng + 1).subrange(0, resleng - leng));
            assert(finalResult@ == before + part_before);
            assert(views(finalResult@) =~= views(before) + partv);
            let old_range = combos_range(arr@, leng as int, startPosition as int, i as int);
            let added = block.map_values(|c: Seq<i8>| seq![arr@[i as int]] + c);
            let whole = combos_range(arr@, leng as int, startPosition as int, i + 1);
            assert(whole == old_range + added);
            assert(whole.map_values(|c: Seq<i8>| prefix + c) =~= old_range.map_values(|c: Seq<i8>| prefix + c)
                + added.map_values(|c: Seq<i8>| prefix + c));
        }
        i += 1;
    }
    finalResult
}

/// The elements are in strictly increasing order.
pub open spec fn increasing(s: Seq<i8>) -> bool {
    forall|i: int, j: int| 0 <= i < j < s.len() ==> s[i] < s[j]
}

proof fn lemma_contains_concat(a: Seq<Seq<i8>>, b: Seq<Seq<i8>>, x: Seq<i8>)
    ensures
        (a + b).contains(x) <==> a.contains(x) || b.contains(x),
{
    if a.contains(x) {
        let i = choose|i: int| 0 <= i < a.len() && a[i] == x;
        assert((a + b)[i] == x);
    }
    if b.contains(x) {
        let i = choose|i: int| 0 <= i < b.len() && b[i] == x;
        assert((a + b)[a.len() + i] == x);
    }
    if (a + b).contains(x) {
        let i = choose|i: int| 0 <= i < (a + b).len() && (a + b)[i] == x;
        if i < a.len() {
            assert(a[i] == x);
        } else {
            assert(b[i - a.len()] == x);
        }
    }
}

/// Every combination of `k` elements from index `lo` on is increasing, has
/// `k` elements, and takes them from `arr` at indices from `lo` on.
proof fn lemma_range_members(arr: Seq<i8>, k: int, lo: int, hi: int)
    requires
        increasing(arr),
        0 <= lo,
        hi <= arr.len() - k + 1,
        k >= 1,
    ensures
        forall|c: Seq<i8>| #[trigger] combos_range(arr, k, lo, hi).contains(c) ==> c.len() == k && increasing(c)
            && forall|t: int| 0 <= t < c.len() ==> exists|j: int| lo <= j < arr.len() && arr[j] == #[trigger] c[t],
    decreases k, hi - lo,
{
    if hi > lo {
        lemma_range_members(arr, k, lo, hi - 1);
        let i = hi - 1;
        let inner = if k == 1 {
            seq![seq![]]
        } else {
            combos_range(arr, k - 1, hi, arr.len() - k + 2)
        };
        if k > 1 {
            lemma_range_members(arr, k - 1, hi, arr.len() - k + 2);
        }
        let block = inner.map_values(|c: Seq<i8>| seq![arr[i]] + c);
        assert forall|c: Seq<i8>| #[trigger] combos_range(arr, k, lo, hi).contains(c) implies c.len() == k && increasing(c)
            && forall|t: int| 0 <= t < c.len() ==> exists|j: int| lo <= j < arr.len() && arr[j] == #[trigger] c[t] by {
            lemma_contains_concat(combos_range(arr, k, lo, hi - 1), block, c);
            if block.contains(c) {
                let w = choose|w: int| 0 <= w < block.len() && block[w] == c;
                let c2 = inner[w];
                assert(inner.contains(c2));
                assert(c == seq![arr[i]] + c2);
                assert forall|t: int| 0 <= t < c.len() implies exists|j: int| lo <= j < arr.len() && arr[j] == #[trigger] c[t] by {
                    if t == 0 {
                        assert(arr[i] == c[t]);
                    } else {
                        assert(c[t] == c2[t - 1]);
                    }
                }
                assert forall|a: int, b: int| 0 <= a < b < c.len() implies c[a] < c[b] by {
                    assert(c[b] == c2[b - 1]);
                    if a > 0 {
                        assert(c[a] == c2[a - 1]);
                    } else {
                        let j = choose|j: int| hi <= j < arr.len() && arr[j] == #[trigger] c2[b - 1];
                    }
                }
            }
        }
    }
}

/// The combinations of two elements are increasing pairs of elements of `arr`.
pub proof fn lemma_pair_members(arr: Seq<i8>)
    requires
        increasing(arr),
    ensures
        forall|c: Seq<i8>| #[trigger] combos(arr, 2, 0).contains(c) ==> c.len() == 2 && c[0] < c[1]
            && arr.contains(c[0]) && arr.contains(c[1]),
{
    lemma_range_members(arr, 2, 0, arr.len() - 1);
    assert forall|c: Seq<i8>| #[trigger] combos(arr, 2, 0).contains(c) implies c.len() == 2 && c[0] < c[1]
        && arr.contains(c[0]) && arr.contains(c[1]) by {
        let j0 = choose|j: int| 0 <= j < arr.len() && arr[j] == #[trigger] c[0];
        let j1 = choose|j: int| 0 <= j < arr.len() && arr[j] == #[trigger] c[1];
    }
}

/// The combinations of three elements are increasing triples of elements of `arr`.
pub proof fn lemma_triple_members(arr: Seq<i8>)
    requires
        increasing(arr),
    ensures
        forall|c: Seq<i8>| #[trigger] combos(arr, 3, 0).contains(c) ==> c.len() == 3 && c[0] < c[1] && c[1] < c[2]
            && arr.contains(c[0]) && arr.contains(c[1]) && arr.contains(c[2]),
{
    lemma_range_members(arr, 3, 0, arr.len() - 2);
    assert forall|c: Seq<i8>| #[trigger] combos(arr, 3, 0).contains(c) implies c.len() == 3 && c[0] < c[1] && c[1] < c[2]
        && arr.contains(c[0]) && arr.contains(c[1]) && arr.contains(c[2]) by {
        let j0 = choose|j: int| 0 <= j < arr.len() && arr[j] == #[trigger] c[0];
        let j1 = choose|j: int| 0 <= j < arr.len() && arr[j] == #[trigger] c[1];
        let j2 = choose|j: int| 0 <= j < arr.len() && arr[j] == #[trigger] c[2];
    }
}

proof fn lemma_singles_contain(arr: Seq<i8>, lo: int, hi: int, j: int)
    requires
        0 <= lo <= j < hi <= arr.len(),
    ensures
        combos_range(arr, 1, lo, hi).contains(seq![arr[j]]),
    decreases hi - lo,
{
    let block = seq![seq![]].map_values(|c: Seq<i8>| seq![arr[hi - 1]] + c);
    assert(block[0] =~= seq![arr[hi - 1]]);
    lemma_contains_concat(combos_range(arr, 1, lo, hi - 1), block, seq![arr[j]]);
    if j < hi - 1 {
        lemma_singles_contain(arr, lo, hi - 1, j);
    } else {
        assert(block.contains(seq![arr[j]]));
    }
}

proof fn lemma_pairs_contain(arr: Seq<i8>, lo: int, hi: int, i: int, j: int)
    requires
        0 <= lo <= i < hi <= arr.len() - 1,
        i < j < arr.len(),
    ensures
        combos_range(arr, 2, lo, hi).contains(seq![arr[i], arr[j]]),
    decreases hi - lo,
{
    let inner = combos_range(arr, 1, hi, arr.len() as int);
    let block = inner.map_values(|c: Seq<i8>| seq![arr[hi - 1]] + c);
    lemma_contains_concat(combos_range(arr, 2, lo, hi - 1), block, seq![arr[i], arr[j]]);
    if i < hi - 1 {
        lemma_pairs_contain(arr, lo, hi - 1, i, j);
    } else {
        lemma_singles_contain(arr, hi, arr.len() as int, j);
        let w = choose|w: int| 0 <= w < inner.len() && inner[w] == seq![arr[j]];
        assert(block[w] =~= seq![arr[i], arr[j]]);
    }
}

proof fn lemma_triples_contain(arr: Seq<i8>, lo: int, hi: int, i: int, j: int, l: int)
    requires
        0 <= lo <= i < hi <= arr.len() - 2,
        i < j < l < arr.len(),
    ensures
        combos_range(arr, 3, lo, hi).contains(seq![arr[i], arr[j], arr[l]]),
    decreases hi - lo,
{
    let inner = combos_range(arr, 2, hi, arr.len() - 1);
    let block = inner.map_values(|c: Seq<i8>| seq![arr[hi - 1]] + c);
    lemma_contains_concat(combos_range(arr, 3, lo, hi - 1), block, seq![arr[i], arr[j], arr[l]]);
    if i < hi - 1 {
        lemma_triples_contain(arr, lo, hi - 1, i, j, l);
    } else {
        lemma_pairs_contain(arr, hi, arr.len() - 1, j, l);
        let w = choose|w: int| 0 <= w < inner.len() && inner[w] == seq![arr[j], arr[l]];
        assert(block[w] =~= seq![arr[i], arr[j], arr[l]]);
    }
}

/// Every two elements of `arr`, in their order there, form one of its pairs.
pub proof fn lemma_pair_complete(arr: Seq<i8>, i: int, j: int)
    requires
        0 <= i < j < arr.len(),
    ensures
        combos(arr, 2, 0).contains(seq![arr[i], arr[j]]),
{
    lemma_pairs_contain(arr, 0, arr.len() - 1, i, j);
}

/// Every three elements of `arr`, in their order there, form one of its triples.
pub proof fn lemma_triple_complete(arr: Seq<i8>, i: int, j: int, l: int)
    requires
        0 <= i < j < l < arr.len(),
    ensures
        combos(arr, 3, 0).contains(seq![arr[i], arr[j], arr[l]]),
{
    lemma_triples_contain(arr, 0, arr.len() - 2, i, j, l);
}

} // verus!
