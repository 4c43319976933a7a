//! Sets of node identifiers, kept as strictly sorted vectors.
//!
//! Subset construction compares sets of nondeterministic states for
//! equality; keeping every such set sorted and duplicate-free makes the
//! vector a canonical form, so two vectors hold the same set exactly when
//! they are equal element for element.

use vstd::prelude::*;
use vstd::arithmetic::power2::pow2;
use vstd::arithmetic::power2::lemma_pow2_pos;
use vstd::arithmetic::power2::lemma_pow2_strictly_increases;
use vstd::arithmetic::power2::lemma_pow2_unfold;
use vstd::set_lib::lemma_int_range;
use vstd::set_lib::lemma_len_subset;
use vstd::set_lib::set_int_range;

verus! {

/// The elements are strictly increasing, hence pairwise distinct.
pub open spec fn sorted_strict(s: Seq<usize>) -> bool {
    forall|i: int, j: int| 0 <= i < j < s.len() ==> s[i] < s[j]
}

/// No element occurs twice.
pub open spec fn no_dup_chars(s: Seq<char>) -> bool {
    forall|i: int, j: int| 0 <= i < j < s.len() ==> s[i] != s[j]
}

/// Whether `v` holds `x`.
pub fn ss_contains(v: &Vec<usize>, x: usize) -> (r: bool)
    ensures
        r == v@.contains(x),
{
    let mut i: usize = 0;
    while i < v.len()
        invariant
            i <= v.len(),
            forall|k: int| 0 <= k < i ==> v@[k] != x,
        decreases v.len() - i,
    {
        if v[i] == x {
            return true;
        }
        i = i + 1;
    }
    false
}

/// Inserts `x` into the sorted vector `v`, keeping it sorted; a no-op when
/// `x` is already present.
pub fn ss_insert(v: &mut Vec<usize>, x: usize)
    requires
        sorted_strict(old(v)@),
    ensures
        sorted_strict(final(v)@),
        forall|y: usize| final(v)@.contains(y) == (old(v)@.contains(y) || y == x),
        old(v)@.contains(x) ==> final(v)@ == old(v)@,
        !old(v)@.contains(x) ==> final(v)@.len() == old(v)@.len() + 1,
{
    let mut i: usize = 0;
    while i < v.len() && v[i] < x
        invariant
            i <= v.len(),
            sorted_strict(v@),
            v@ == old(v)@,
            forall|k: int| 0 <= k < i ==> v@[k] < x,
        decreases v.len() - i,
    {
        i = i + 1;
    }
    if i < v.len() && v[i] == x {
        proof {
            assert(v@.contains(x)) by {
                assert(v@[i as int] == x);
            }
        }
        return ;
    }
    proof {
        assert(!old(v)@.contains(x)) by {
            if old(v)@.contains(x) {
                let k = choose|k: int| 0 <= k < old(v)@.len() && old(v)@[k] == x;
                if k < i {
                } else {
                    assert(v@[i as int] <= v@[k]);
                }
            }
        }
    }
    let ghost pre = v@;
    v.insert(i, x);
    proof {
        assert(v@ == pre.insert(i as int, x));
        assert forall|y: usize| v@.contains(y) == (pre.contains(y) || y == x) by {
            if pre.contains(y) {
                let k = choose|k: int| 0 <= k < pre.len() && pre[k] == y;
                if k < i {
                    assert(v@[k] == y);
                } else {
                    assert(v@[k + 1] == y);
                }
            }
            if y == x {
                assert(v@[i as int] == y);
            }
            if v@.contains(y) {
                let k = choose|k: int| 0 <= k < v@.len() && v@[k] == y;
                if k < i {
                    assert(pre[k] == y);
                } else if k == i {
                } else {
                    assert(pre[k - 1] == y);
                }
            }
        }
    }
}

/// Whether two vectors are equal element for element; on sorted vectors
/// this decides set equality.
pub fn ss_eq(a: &Vec<usize>, b: &Vec<usize>) -> (r: bool)
    ensures
        r == (a@ == b@),
{
    if a.len() != b.len() {
        return false;
    }
    let mut i: usize = 0;
    while i < a.len()
        invariant
            i <= a.len(),
            a@.len() == b@.len(),
            forall|k: int| 0 <= k < i ==> a@[k] == b@[k],
        decreases a.len() - i,
    {
        if a[i] != b[i] {
            proof {
                assert(a@[i as int] != b@[i as int]);
            }
            return false;
        }
        i = i + 1;
    }
    proof {
        assert(a@ =~= b@);
    }
    true
}

/// Whether `v` holds the character `c`.
pub fn cs_contains(v: &Vec<char>, c: char) -> (r: bool)
    ensures
        r == v@.contains(c),
{
    let mut i: usize = 0;
    while i < v.len()
        invariant
            i <= v.len(),
            forall|k: int| 0 <= k < i ==> v@[k] != c,
        decreases v.len() - i,
    {
        if v[i] == c {
            return true;
        }
        i = i + 1;
    }
    false
}

/// Appends `c` unless it is already present, keeping the vector
/// duplicate-free and the existing elements in place.
pub fn cs_insert(v: &mut Vec<char>, c: char)
    requires
        no_dup_chars(old(v)@),
    ensures
        no_dup_chars(final(v)@),
        forall|d: char| final(v)@.contains(d) == (old(v)@.contains(d) || d == c),
        old(v)@.is_prefix_of(final(v)@),
        final(v)@.len() <= old(v)@.len() + 1,
{
    let mut i: usize = 0;
    let mut found = false;
    while i < v.len()
        invariant
            i <= v.len(),
            found == exists|k: int| 0 <= k < i && v@[k] == c,
        decreases v.len() - i,
    {
        if v[i] == c {
            found = true;
        }
        i = i + 1;
    }
    if !found {
        let ghost pre = v@;
        v.push(c);
        proof {
            assert forall|d: char| v@.contains(d) == (pre.contains(d) || d == c) by {
                if pre.contains(d) {
                    let k = choose|k: int| 0 <= k < pre.len() && pre[k] == d;
                    assert(v@[k] == d);
                }
                if d == c {
                    assert(v@[v@.len() - 1] == d);
                }
                if v@.contains(d) {
                    let k = choose|k: int| 0 <= k < v@.len() && v@[k] == d;
                    if k < v@.len() - 1 {
                        assert(pre[k] == d);
                    }
                }
            }
        }
    } else {
        proof {
            assert(v@.contains(c));
        }
    }
}

/// A copy of `v`.
pub fn ss_clone(v: &Vec<usize>) -> (r: Vec<usize>)
    ensures
        r@ == v@,
{
    let mut r: Vec<usize> = Vec::new();
    let mut i: usize = 0;
    while i < v.len()
        invariant
            i <= v@.len(),
            r@ == v@.take(i as int),
        decreases v.len() - i,
    {
        r.push(v[i]);
        i = i + 1;
        proof {
            assert(r@ =~= v@.take(i as int));
        }
    }
    proof {
        assert(r@ =~= v@);
    }
    r
}

/// An elementwise bound follows from a membership bound, and back.
pub proof fn lemma_insert_keeps_bound(pre: Seq<usize>, post: Seq<usize>, x: usize, n: usize)
    requires
        forall|k: int| 0 <= k < pre.len() ==> pre[k] < n,
        x < n,
        forall|y: usize| post.contains(y) == (pre.contains(y) || y == x),
    ensures
        forall|k: int| 0 <= k < post.len() ==> post[k] < n,
{
    assert forall|k: int| 0 <= k < post.len() implies post[k] < n by {
        let y = post[k];
        assert(post.contains(y));
        if pre.contains(y) {
            let k2 = choose|k2: int| 0 <= k2 < pre.len() && pre[k2] == y;
            assert(pre[k2] < n);
        }
    }
}

/// Every element of a strictly sorted vector is at least as large as its
/// index.
proof fn lemma_sorted_index_bound(s: Seq<usize>, i: int)
    requires
        sorted_strict(s),
        0 <= i < s.len(),
    ensures
        s[i] >= i,
    decreases i,
{
    if i > 0 {
        lemma_sorted_index_bound(s, i - 1);
        assert(s[i - 1] < s[i]);
    }
}

/// A strictly sorted vector whose elements all lie below `n` has at most
/// `n` elements.
pub proof fn lemma_sorted_len_bound(s: Seq<usize>, n: usize)
    requires
        sorted_strict(s),
        forall|i: int| 0 <= i < s.len() ==> s[i] < n,
    ensures
        s.len() <= n,
{
    if s.len() > 0 {
        lemma_sorted_index_bound(s, s.len() - 1);
    }
}

/// A numeric code for a sorted set of identifiers: the sum of one
/// distinct power of two per element.  Distinct sorted sets get distinct
/// codes, which bounds how many such sets below a limit can exist.
pub open spec fn set_code(s: Seq<usize>) -> int
    decreases s.len(),
{
    if s.len() == 0 {
        0
    } else {
        set_code(s.drop_last()) + pow2(s.last() as nat)
    }
}

/// The code is never negative.
proof fn lemma_code_nonneg(s: Seq<usize>)
    ensures
        set_code(s) >= 0,
    decreases s.len(),
{
    if s.len() > 0 {
        lemma_code_nonneg(s.drop_last());
        lemma_pow2_pos(s.last() as nat);
    }
}

/// One power of two is at most another with a larger exponent.
proof fn lemma_pow2_le(e1: nat, e2: nat)
    requires
        e1 <= e2,
    ensures
        pow2(e1) <= pow2(e2),
{
    if e1 < e2 {
        lemma_pow2_strictly_increases(e1, e2);
    }
}

/// The code of a sorted vector with elements below `m` lies below 2^m.
proof fn lemma_code_bound(s: Seq<usize>, m: nat)
    requires
        sorted_strict(s),
        forall|i: int| 0 <= i < s.len() ==> s[i] < m,
    ensures
        0 <= set_code(s) < pow2(m),
    decreases s.len(),
{
    lemma_code_nonneg(s);
    if s.len() == 0 {
        lemma_pow2_pos(m);
    } else {
        let l = s.last() as nat;
        let d = s.drop_last();
        assert(sorted_strict(d));
        assert forall|i: int| 0 <= i < d.len() implies d[i] < l by {
            assert(d[i] == s[i]);
            assert(s[i] < s.last());
        }
        lemma_code_bound(d, l);
        lemma_pow2_unfold((l + 1) as nat);
        lemma_pow2_le((l + 1) as nat, m);
    }
}

/// Distinct sorted vectors have distinct codes.
proof fn lemma_code_injective(a: Seq<usize>, b: Seq<usize>)
    requires
        sorted_strict(a),
        sorted_strict(b),
        a != b,
    ensures
        set_code(a) != set_code(b),
    decreases a.len() + b.len(),
{
    if a.len() == 0 || b.len() == 0 {
        assert(a.len() != b.len()) by {
            if a.len() == 0 && b.len() == 0 {
                assert(a =~= b);
            }
        }
        lemma_code_nonneg(b.drop_last());
        lemma_pow2_pos(b.last() as nat);
        lemma_code_nonneg(a.drop_last());
        lemma_pow2_pos(a.last() as nat);
        if a.len() == 0 {
            assert(set_code(b) == set_code(b.drop_last()) + pow2(b.last() as nat));
            assert(set_code(a) == 0);
        } else {
            assert(set_code(a) == set_code(a.drop_last()) + pow2(a.last() as nat));
            assert(set_code(b) == 0);
        }
    } else if a.last() == b.last() {
        assert(a.drop_last() != b.drop_last()) by {
            if a.drop_last() == b.drop_last() {
                assert(a =~= a.drop_last().push(a.last()));
                assert(b =~= b.drop_last().push(b.last()));
            }
        }
        assert(sorted_strict(a.drop_last())) by {
            assert(forall|i: int| 0 <= i < a.len() - 1 ==> a.drop_last()[i] == a[i]);
        }
        assert(sorted_strict(b.drop_last())) by {
            assert(forall|i: int| 0 <= i < b.len() - 1 ==> b.drop_last()[i] == b[i]);
        }
        lemma_code_injective(a.drop_last(), b.drop_last());
        assert(set_code(a) == set_code(a.drop_last()) + pow2(a.last() as nat));
        assert(set_code(b) == set_code(b.drop_last()) + pow2(b.last() as nat));
    } else if a.last() > b.last() {
        lemma_code_larger_last(a, b);
    } else {
        lemma_code_larger_last(b, a);
    }
}

/// A sorted vector whose last element tops the other's has the larger
/// code.
proof fn lemma_code_larger_last(a: Seq<usize>, b: Seq<usize>)
    requires
        sorted_strict(a),
        sorted_strict(b),
        a.len() > 0,
        b.len() > 0,
        a.last() > b.last(),
    ensures
        set_code(a) > set_code(b),
{
    let lb = (b.last() + 1) as nat;
    assert forall|i: int| 0 <= i < b.len() implies b[i] < lb by {
        if i < b.len() - 1 {
            assert(b[i] < b.last());
        }
    }
    lemma_code_bound(b, lb);
    lemma_pow2_le(lb, a.last() as nat);
    lemma_code_nonneg(a.drop_last());
}

/// There are at most 2^n distinct sorted vectors over identifiers below
/// `n`: the pigeonhole bound that terminates subset construction.
pub proof fn lemma_distinct_sets_bound(sets: Seq<Seq<usize>>, n: nat)
    requires
        forall|k: int| 0 <= k < sets.len() ==> sorted_strict(#[trigger] sets[k]),
        forall|k: int, i: int|
            0 <= k < sets.len() && 0 <= i < sets[k].len() ==> (#[trigger] sets[k][i]) < n,
        forall|k1: int, k2: int|
            0 <= k1 < k2 < sets.len() ==> (#[trigger] sets[k1]) != (#[trigger] sets[k2]),
    ensures
        sets.len() <= pow2(n),
{
    let codes = sets.map_values(|s: Seq<usize>| set_code(s));
    assert(codes.len() == sets.len());
    assert(codes.no_duplicates()) by {
        assert forall|k1: int, k2: int|
            0 <= k1 < codes.len() && 0 <= k2 < codes.len() && k1 != k2 implies codes[k1]
            != codes[k2] by {
            if k1 < k2 {
                lemma_code_injective(sets[k1], sets[k2]);
            } else {
                lemma_code_injective(sets[k2], sets[k1]);
            }
        }
    }
    codes.unique_seq_to_set();
    let range = set_int_range(0, pow2(n) as int);
    lemma_int_range(0, pow2(n) as int);
    assert(codes.to_set().subset_of(range)) by {
        assert forall|x: int| codes.to_set().contains(x) implies range.contains(x) by {
            let k = choose|k: int| 0 <= k < codes.len() && codes[k] == x;
            lemma_code_bound(sets[k], n);
        }
    }
    lemma_len_subset(codes.to_set(), range);
}

/// Two strictly sorted vectors holding the same elements are equal: the
/// sorted form is canonical.
pub proof fn lemma_sorted_canonical(a: Seq<usize>, b: Seq<usize>)
    requires
        sorted_strict(a),
        sorted_strict(b),
        forall|x: usize| a.contains(x) == b.contains(x),
    ensures
        a == b,
    decreases a.len(),
{
    if a.len() == 0 {
        if b.len() > 0 {
            assert(b.contains(b[0]));
        }
        assert(a =~= b);
    } else {
        assert(a.contains(a[0]));
        assert(b.contains(a[0]));
        let i = choose|i: int| 0 <= i < b.len() && b[i] == a[0];
        assert(b[0] <= b[i]) by {
            if i > 0 {
                assert(b[0] < b[i]);
            }
        }
        assert(b.contains(b[0]));
        assert(a.contains(b[0]));
        let j = choose|j: int| 0 <= j < a.len() && a[j] == b[0];
        assert(a[0] <= a[j]) by {
            if j > 0 {
                assert(a[0] < a[j]);
            }
        }
        assert(a[0] == b[0]);
        let at = a.drop_first();
        let bt = b.drop_first();
        assert forall|x: usize| at.contains(x) == bt.contains(x) by {
            lemma_tail_membership(a, x);
            lemma_tail_membership(b, x);
        }
        lemma_sorted_canonical(at, bt);
        assert(a =~= b) by {
            assert(forall|k: int| 1 <= k < a.len() ==> a[k] == at[k - 1] && b[k] == bt[k - 1]);
        }
    }
}

/// In a strictly sorted vector, the tail holds exactly the elements larger
/// than the head.
proof fn lemma_tail_membership(s: Seq<usize>, x: usize)
    requires
        sorted_strict(s),
        s.len() > 0,
    ensures
        s.drop_first().contains(x) == (s.contains(x) && x != s[0]),
{
    let t = s.drop_first();
    if t.contains(x) {
        let k = choose|k: int| 0 <= k < t.len() && t[k] == x;
        assert(s[k + 1] == x);
        assert(s[0] < s[k + 1]);
    }
    if s.contains(x) && x != s[0] {
        let k = choose|k: int| 0 <= k < s.len() && s[k] == x;
        assert(k != 0);
        assert(t[k - 1] == x);
    }
}

} // verus!
