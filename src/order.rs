use vstd::prelude::*;
use vstd::set_lib::{lemma_int_range, lemma_len_subset, lemma_subset_equality, set_int_range};

verus! {

/// Alphabetical order on identifiers, character by character.
pub open spec fn id_lt(a: Seq<char>, b: Seq<char>) -> bool
    decreases a.len(),
{
    if a.len() == 0 {
        b.len() > 0
    } else if b.len() == 0 {
        false
    } else if a[0] != b[0] {
        (a[0] as int) < (b[0] as int)
    } else {
        id_lt(a.drop_first(), b.drop_first())
    }
}

/// No identifier precedes itself.
pub proof fn lemma_id_lt_irreflexive(a: Seq<char>)
    ensures
        !id_lt(a, a),
    decreases a.len(),
{
    if a.len() > 0 {
        lemma_id_lt_irreflexive(a.drop_first());
    }
}

/// The alphabetical order is transitive.
pub proof fn lemma_id_lt_transitive(a: Seq<char>, b: Seq<char>, c: Seq<char>)
    requires
        id_lt(a, b),
        id_lt(b, c),
    ensures
        id_lt(a, c),
    decreases a.len(),
{
    if a.len() > 0 && b.len() > 0 && c.len() > 0 && a[0] == b[0] && b[0] == c[0] {
        lemma_id_lt_transitive(a.drop_first(), b.drop_first(), c.drop_first());
    }
}

/// Two distinct identifiers are ordered one way or the other.
pub proof fn lemma_id_lt_total(a: Seq<char>, b: Seq<char>)
    ensures
        a == b || id_lt(a, b) || id_lt(b, a),
    decreases a.len(),
{
    if a.len() > 0 && b.len() > 0 {
        if a[0] == b[0] {
            lemma_id_lt_total(a.drop_first(), b.drop_first());
            if a.drop_first() == b.drop_first() {
                assert(a =~= seq![a[0]] + a.drop_first());
                assert(b =~= seq![b[0]] + b.drop_first());
            }
        } else {
            assert((a[0] as int) != (b[0] as int));
        }
    } else if a.len() == 0 && b.len() == 0 {
        assert(a =~= b);
    }
}

/// Compares two identifiers alphabetically.
pub fn id_less(a: &str, b: &str) -> (r: bool)
    ensures
        r == id_lt(a@, b@),
{
    let na = a.unicode_len();
    let nb = b.unicode_len();
    let mut i: usize = 0;
    assert(a@.skip(0) =~= a@);
    assert(b@.skip(0) =~= b@);
    loop
        invariant
            na == a@.len(),
            nb == b@.len(),
            i <= na,
            i <= nb,
            id_lt(a@, b@) == id_lt(a@.skip(i as int), b@.skip(i as int)),
        decreases na - i,
    {
        if i == na {
            return i < nb;
        }
        if i == nb {
            return false;
        }
        let ca = a.get_char(i);
        let cb = b.get_char(i);
        if ca != cb {
            return (ca as u32) < (cb as u32);
        }
        assert(a@.skip(i as int).drop_first() =~= a@.skip(i + 1));
        assert(b@.skip(i as int).drop_first() =~= b@.skip(i + 1));
        i = i + 1;
    }
}

/// `v` stands at one of the first `k` places of `o`.
pub open spec fn placed_before(o: Seq<usize>, k: int, v: int) -> bool {
    exists|j: int| 0 <= j < k && #[trigger] o[j] as int == v
}

/// `o` lists `n` distinct indices below `n`.
pub open spec fn is_permutation(n: int, o: Seq<usize>) -> bool {
    &&& o.len() == n
    &&& forall|j: int| 0 <= j < o.len() ==> (#[trigger] o[j] as int) < n
    &&& forall|i: int, j: int| 0 <= i < j < o.len() ==> o[i] != o[j]
}

/// Distinct indices below `n` that miss none of them.
pub proof fn lemma_permutation_covers(n: int, o: Seq<usize>)
    requires
        is_permutation(n, o),
    ensures
        forall|v: int| 0 <= v < n ==> placed_before(o, n, v),
{
    let t = o.map_values(|x: usize| x as int);
    assert(t.no_duplicates()) by {
        assert forall|i: int, j: int| 0 <= i < t.len() && 0 <= j < t.len() && i != j implies t[i]
            != t[j] by {
            if i < j {
                assert(o[i] != o[j]);
            } else {
                assert(o[j] != o[i]);
            }
        }
    }
    t.unique_seq_to_set();
    lemma_int_range(0, n);
    assert(t.to_set().subset_of(set_int_range(0, n))) by {
        assert forall|x: int| t.to_set().contains(x) implies set_int_range(0, n).contains(x) by {
            assert(t.contains(x));
            let j = choose|j: int| 0 <= j < t.len() && t[j] == x;
            assert(o[j] as int == x);
        }
    }
    lemma_subset_equality(t.to_set(), set_int_range(0, n));
    assert forall|v: int| 0 <= v < n implies placed_before(o, n, v) by {
        assert(set_int_range(0, n).contains(v));
        assert(t.to_set().contains(v));
        assert(t.contains(v));
        let j = choose|j: int| 0 <= j < t.len() && t[j] == v;
        assert(o[j] as int == v);
    }
}

/// Fewer than `n` distinct indices below `n` miss one of them.
pub proof fn lemma_short_misses(n: int, o: Seq<usize>)
    requires
        o.len() < n,
        forall|j: int| 0 <= j < o.len() ==> (#[trigger] o[j] as int) < n,
        forall|i: int, j: int| 0 <= i < j < o.len() ==> o[i] != o[j],
    ensures
        exists|v: int| 0 <= v < n && !placed_before(o, o.len() as int, v),
{
    let t = o.map_values(|x: usize| x as int);
    if forall|v: int| 0 <= v < n ==> placed_before(o, o.len() as int, v) {
        assert(t.no_duplicates()) by {
            assert forall|i: int, j: int|
                0 <= i < t.len() && 0 <= j < t.len() && i != j implies t[i] != t[j] by {
                if i < j {
                    assert(o[i] != o[j]);
                } else {
                    assert(o[j] != o[i]);
                }
            }
        }
        t.unique_seq_to_set();
        lemma_int_range(0, n);
        assert(set_int_range(0, n).subset_of(t.to_set())) by {
            assert forall|x: int| set_int_range(0, n).contains(x) implies t.to_set().contains(x) by {
                assert(placed_before(o, o.len() as int, x));
                let j = choose|j: int| 0 <= j < o.len() && o[j] as int == x;
                assert(t[j] == x);
            }
        }
        lemma_len_subset(set_int_range(0, n), t.to_set());
    }
}

} // verus!
