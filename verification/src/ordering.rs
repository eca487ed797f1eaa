//! Sorting by byte strings, with equal keys left in the order they came in.

use vstd::prelude::*;

verus! {

/// Whether one byte string stands before another in a dictionary.
pub open spec fn lex_lt(a: Seq<u8>, b: Seq<u8>) -> bool
    decreases a.len(),
{
    if b.len() == 0 {
        false
    } else if a.len() == 0 {
        true
    } else if a[0] != b[0] {
        a[0] < b[0]
    } else {
        lex_lt(a.skip(1), b.skip(1))
    }
}

/// Whether item `i` comes before item `j`: by key, and among equal keys by
/// position.
pub open spec fn before(keys: Seq<Seq<u8>>, i: int, j: int) -> bool {
    lex_lt(keys[i], keys[j]) || (keys[i] == keys[j] && i < j)
}

/// Whether `order` lists the positions of all keys in the order of a stable
/// sort.
pub open spec fn is_order(keys: Seq<Seq<u8>>, order: Seq<usize>) -> bool {
    &&& order.len() == keys.len()
    &&& forall|i: int| 0 <= i < order.len() ==> (#[trigger] order[i]) < keys.len()
    &&& forall|i: int, j: int|
        0 <= i < j < order.len() ==> before(keys, #[trigger] order[i] as int, #[trigger] order[j] as int)
}

pub proof fn lemma_lex_irreflexive(a: Seq<u8>)
    ensures
        !lex_lt(a, a),
    decreases a.len(),
{
    if a.len() > 0 {
        lemma_lex_irreflexive(a.skip(1));
    }
}

/// One byte string stands before another where it is a beginning of it, or
/// where it has the smaller byte at the first place at which they differ.
pub proof fn law_first_difference_decides(
    common: Seq<u8>,
    a: u8,
    left: Seq<u8>,
    b: u8,
    right: Seq<u8>,
)
    ensures
        lex_lt(common, common + seq![b] + right),
        !lex_lt(common + seq![b] + right, common),
        !lex_lt(common, common),
        a != b ==> (lex_lt(common + seq![a] + left, common + seq![b] + right) <==> a < b),
    decreases common.len(),
{
    let x = common + seq![a] + left;
    let y = common + seq![b] + right;
    lemma_lex_irreflexive(common);
    if common.len() > 0 {
        let rest = common.skip(1);
        law_first_difference_decides(rest, a, left, b, right);
        assert(x.skip(1) =~= rest + seq![a] + left);
        assert(y.skip(1) =~= rest + seq![b] + right);
    }
}

pub proof fn lemma_lex_transitive(a: Seq<u8>, b: Seq<u8>, c: Seq<u8>)
    requires
        lex_lt(a, b),
        lex_lt(b, c),
    ensures
        lex_lt(a, c),
    decreases a.len(),
{
    if a.len() > 0 && a[0] == b[0] && b[0] == c[0] {
        lemma_lex_transitive(a.skip(1), b.skip(1), c.skip(1));
    }
}

pub proof fn lemma_lex_total(a: Seq<u8>, b: Seq<u8>)
    ensures
        lex_lt(a, b) || lex_lt(b, a) || a == b,
    decreases a.len(),
{
    if a.len() > 0 && b.len() > 0 && a[0] == b[0] {
        lemma_lex_total(a.skip(1), b.skip(1));
        if a.skip(1) == b.skip(1) {
            assert forall|i: int| 0 <= i < a.len() implies i < b.len() && a[i] == b[i] by {
                assert(a.skip(1).len() == b.skip(1).len());
                if i > 0 {
                    assert(a.skip(1)[i - 1] == b.skip(1)[i - 1]);
                }
            }
            assert(a.skip(1).len() == b.skip(1).len());
            assert(a =~= b);
        }
    } else if a.len() == 0 && b.len() == 0 {
        assert(a =~= b);
    }
}

pub proof fn lemma_before_transitive(keys: Seq<Seq<u8>>, i: int, j: int, k: int)
    requires
        before(keys, i, j),
        before(keys, j, k),
    ensures
        before(keys, i, k),
{
    if lex_lt(keys[i], keys[j]) && lex_lt(keys[j], keys[k]) {
        lemma_lex_transitive(keys[i], keys[j], keys[k]);
    }
}

pub proof fn lemma_before_total(keys: Seq<Seq<u8>>, i: int, j: int)
    ensures
        i != j ==> before(keys, i, j) || before(keys, j, i),
        !before(keys, i, i),
        before(keys, i, j) ==> !before(keys, j, i),
{
    lemma_lex_total(keys[i], keys[j]);
    lemma_lex_irreflexive(keys[i]);
    if lex_lt(keys[i], keys[j]) && lex_lt(keys[j], keys[i]) {
        lemma_lex_transitive(keys[i], keys[j], keys[i]);
    }
    lemma_lex_irreflexive(keys[j]);
}

/// Every position stands somewhere in an order.
pub proof fn lemma_order_covers(keys: Seq<Seq<u8>>, order: Seq<usize>, k: int)
    requires
        is_order(keys, order),
        0 <= k < keys.len(),
    ensures
        exists|i: int| 0 <= i < order.len() && #[trigger] order[i] == k,
{
    let places = order.map_values(|x: usize| x as int);
    assert(places.no_duplicates()) by {
        assert forall|i: int, j: int|
            0 <= i < places.len() && 0 <= j < places.len() && i != j implies places[i]
            != places[j] by {
            if i < j {
                assert(before(keys, order[i] as int, order[j] as int));
                lemma_before_total(keys, order[i] as int, order[i] as int);
            } else {
                assert(before(keys, order[j] as int, order[i] as int));
                lemma_before_total(keys, order[j] as int, order[j] as int);
            }
        }
    }
    places.unique_seq_to_set();
    let all = vstd::set_lib::set_int_range(0, keys.len() as int);
    vstd::set_lib::lemma_int_range(0, keys.len() as int);
    assert(places.to_set().subset_of(all)) by {
        assert forall|x: int| places.to_set().contains(x) implies all.contains(x) by {
            let i = choose|i: int| 0 <= i < places.len() && places[i] == x;
            assert(order[i] < keys.len());
        }
    }
    vstd::set_lib::lemma_subset_equality(places.to_set(), all);
    assert(places.to_set().contains(k));
    let i = choose|i: int| 0 <= i < places.len() && places[i] == k;
    assert(order[i] == k);
}

/// There is one order of a stable sort.
pub proof fn law_order_is_unique(keys: Seq<Seq<u8>>, a: Seq<usize>, b: Seq<usize>)
    requires
        is_order(keys, a),
        is_order(keys, b),
    ensures
        a == b,
{
    lemma_order_prefix(keys, a, b, keys.len() as int);
    assert(a.take(keys.len() as int) =~= a);
    assert(b.take(keys.len() as int) =~= b);
}

proof fn lemma_order_prefix(keys: Seq<Seq<u8>>, a: Seq<usize>, b: Seq<usize>, n: int)
    requires
        is_order(keys, a),
        is_order(keys, b),
        0 <= n <= keys.len(),
    ensures
        a.take(n) == b.take(n),
    decreases n,
{
    if n > 0 {
        let k = n - 1;
        lemma_order_prefix(keys, a, b, k);
        lemma_order_covers(keys, b, a[k] as int);
        lemma_order_covers(keys, a, b[k] as int);
        let m = choose|m: int| 0 <= m < b.len() && #[trigger] b[m] == a[k];
        let l = choose|l: int| 0 <= l < a.len() && #[trigger] a[l] == b[k];
        if a[k] != b[k] {
            if m < k {
                assert(a.take(k)[m] == b.take(k)[m]);
                assert(before(keys, a[m] as int, a[k] as int));
                lemma_before_total(keys, a[k] as int, a[k] as int);
            }
            if l < k {
                assert(a.take(k)[l] == b.take(k)[l]);
                assert(before(keys, b[l] as int, b[k] as int));
                lemma_before_total(keys, b[k] as int, b[k] as int);
            }
            assert(before(keys, b[k] as int, b[m] as int));
            assert(before(keys, a[k] as int, a[l] as int));
            lemma_before_total(keys, a[k] as int, b[k] as int);
        }
        assert(a.take(n) =~= a.take(k).push(a[k]));
        assert(b.take(n) =~= b.take(k).push(b[k]));
    } else {
        assert(a.take(n) =~= b.take(n));
    }
}

/// Whether one byte string stands before another.
pub fn lex_less(a: &[u8], b: &[u8]) -> (less: bool)
    ensures
        less == lex_lt(a@, b@),
{
    let mut i: usize = 0;
    assert(a@.skip(0) =~= a@);
    assert(b@.skip(0) =~= b@);
    while i < a.len() && i < b.len()
        invariant
            i <= a@.len(),
            i <= b@.len(),
            lex_lt(a@, b@) == lex_lt(a@.skip(i as int), b@.skip(i as int)),
        decreases a@.len() - i,
    {
        if a[i] != b[i] {
            return a[i] < b[i];
        }
        proof {
            assert(a@.skip(i as int).skip(1) =~= a@.skip(i + 1));
            assert(b@.skip(i as int).skip(1) =~= b@.skip(i + 1));
        }
        i += 1;
    }
    i < b.len()
}

pub open spec fn views(keys: Seq<Vec<u8>>) -> Seq<Seq<u8>> {
    keys.map_values(|key: Vec<u8>| key@)
}

spec fn run_of(keys: Seq<Seq<u8>>, run: Seq<usize>, lo: int, hi: int) -> bool {
    &&& run.len() == hi - lo
    &&& forall|i: int| 0 <= i < run.len() ==> lo <= (#[trigger] run[i]) < hi
    &&& forall|i: int, j: int|
        0 <= i < j < run.len() ==> before(keys, #[trigger] run[i] as int, #[trigger] run[j] as int)
}

/// The order of a stable sort of some keys.
pub fn stable_order(keys: &Vec<Vec<u8>>) -> (order: Vec<usize>)
    ensures
        is_order(views(keys@), order@),
{
    sort_range(keys, 0, keys.len())
}

fn sort_range(keys: &Vec<Vec<u8>>, lo: usize, hi: usize) -> (run: Vec<usize>)
    requires
        lo <= hi <= keys@.len(),
    ensures
        run_of(views(keys@), run@, lo as int, hi as int),
    decreases hi - lo,
{
    let mut run: Vec<usize> = Vec::new();
    if hi - lo == 0 {
        return run;
    }
    if hi - lo == 1 {
        run.push(lo);
        return run;
    }
    let mid: usize = lo + (hi - lo) / 2;
    let left = sort_range(keys, lo, mid);
    let right = sort_range(keys, mid, hi);
    let ghost models = views(keys@);
    let mut i: usize = 0;
    let mut j: usize = 0;
    while i < left.len() || j < right.len()
        invariant
            lo <= mid <= hi <= keys@.len(),
            models == views(keys@),
            run_of(models, left@, lo as int, mid as int),
            run_of(models, right@, mid as int, hi as int),
            i <= left@.len(),
            j <= right@.len(),
            run@.len() == i + j,
            forall|k: int| 0 <= k < run@.len() ==> lo <= (#[trigger] run@[k]) < hi,
            forall|k: int, l: int|
                0 <= k < l < run@.len() ==> before(
                    models,
                    #[trigger] run@[k] as int,
                    #[trigger] run@[l] as int,
                ),
            forall|k: int, l: int|
                0 <= k < run@.len() && i <= l < left@.len() ==> before(
                    models,
                    #[trigger] run@[k] as int,
                    #[trigger] left@[l] as int,
                ),
            forall|k: int, l: int|
                0 <= k < run@.len() && j <= l < right@.len() ==> before(
                    models,
                    #[trigger] run@[k] as int,
                    #[trigger] right@[l] as int,
                ),
        decreases left@.len() + right@.len() - i - j,
    {
        let from_left = if i >= left.len() {
            false
        } else if j >= right.len() {
            true
        } else {
            !lex_less(keys[right[j]].as_slice(), keys[left[i]].as_slice())
        };
        if from_left {
            proof {
                assert(models[left@[i as int] as int] == keys@[left@[i as int] as int]@);
                if j < right@.len() {
                    assert(models[right@[j as int] as int] == keys@[right@[j as int] as int]@);
                    lemma_lex_total(
                        models[left@[i as int] as int],
                        models[right@[j as int] as int],
                    );
                    assert(before(models, left@[i as int] as int, right@[j as int] as int));
                }
                assert forall|l: int| j <= l < right@.len() implies before(
                    models,
                    left@[i as int] as int,
                    #[trigger] right@[l] as int,
                ) by {
                    if l > j {
                        lemma_before_transitive(
                            models,
                            left@[i as int] as int,
                            right@[j as int] as int,
                            right@[l] as int,
                        );
                    }
                }
            }
            run.push(left[i]);
            i += 1;
        } else {
            proof {
                if i < left@.len() {
                    assert(models[left@[i as int] as int] == keys@[left@[i as int] as int]@);
                    assert(models[right@[j as int] as int] == keys@[right@[j as int] as int]@);
                    assert(before(models, right@[j as int] as int, left@[i as int] as int));
                }
                assert forall|l: int| i <= l < left@.len() implies before(
                    models,
                    right@[j as int] as int,
                    #[trigger] left@[l] as int,
                ) by {
                    if l > i {
                        lemma_before_transitive(
                            models,
                            right@[j as int] as int,
                            left@[i as int] as int,
                            left@[l] as int,
                        );
                    }
                }
            }
            run.push(right[j]);
            j += 1;
        }
    }
    run
}

} // verus!
