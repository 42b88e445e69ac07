//! Scope sets for hygiene: finite sets of scope ids kept as strictly
//! ascending vectors.

use vstd::prelude::*;
use vstd::std_specs::iter::IteratorSpec;

use crate::search::{binary_search, strictly_ascending};

verus! {

broadcast use vstd::std_specs::vec::axiom_spec_into_iter;

/// Scope id.
pub type ScopeId = u32;

/// A set of scope ids, stored in ascending order without repetition.
#[derive(Debug, Clone, PartialEq, Eq, Hash)]
pub struct ScopeSet(Vec<ScopeId>);

impl View for ScopeSet {
    type V = Seq<ScopeId>;

    closed spec fn view(&self) -> Seq<ScopeId> {
        self.0@
    }
}

impl Default for ScopeSet {
    fn default() -> (s: Self)
        ensures
            s.wf(),
            s@ == Seq::<ScopeId>::empty(),
    {
        ScopeSet::new()
    }
}

/// Two strictly ascending sequences with the same elements are equal: a scope
/// set is determined by the ids it holds.
pub proof fn lemma_ascending_determined_by_elements(a: Seq<u32>, b: Seq<u32>)
    requires
        strictly_ascending(a),
        strictly_ascending(b),
        a.to_set() == b.to_set(),
    ensures
        a == b,
    decreases a.len(),
{
    if a.len() == 0 {
        if b.len() > 0 {
            assert(b.to_set().contains(b[0]));
        }
        assert(a =~= b);
    } else {
        assert(a.to_set().contains(a[0]));
        assert(b.len() > 0);
        assert(b.to_set().contains(b[0]));
        assert(b.contains(a[0]));
        assert(a.contains(b[0]));
        let ja = choose|j: int| 0 <= j < b.len() && b[j] == a[0];
        let jb = choose|j: int| 0 <= j < a.len() && a[j] == b[0];
        assert(a[0] == b[0]) by {
            if a[0] < b[0] {
                assert(b[ja] >= b[0]);
            } else if b[0] < a[0] {
                assert(a[jb] >= a[0]);
            }
        }
        let a1 = a.drop_first();
        let b1 = b.drop_first();
        assert(a1.to_set() =~= b1.to_set()) by {
            assert forall|x: u32| a1.to_set().contains(x) implies b1.to_set().contains(x) by {
                let k = choose|k: int| 0 <= k < a1.len() && a1[k] == x;
                assert(a.to_set().contains(x)) by {
                    assert(a[k + 1] == x);
                }
                let m = choose|m: int| 0 <= m < b.len() && b[m] == x;
                assert(m != 0);
                assert(b1[m - 1] == x);
            }
            assert forall|x: u32| b1.to_set().contains(x) implies a1.to_set().contains(x) by {
                let k = choose|k: int| 0 <= k < b1.len() && b1[k] == x;
                assert(b.to_set().contains(x)) by {
                    assert(b[k + 1] == x);
                }
                let m = choose|m: int| 0 <= m < a.len() && a[m] == x;
                assert(m != 0);
                assert(a1[m - 1] == x);
            }
        }
        lemma_ascending_determined_by_elements(a1, b1);
        assert(a =~= b) by {
            assert forall|i: int| 0 <= i < a.len() implies a[i] == b[i] by {
                if i > 0 {
                    assert(a1[i - 1] == b1[i - 1]);
                }
            }
        }
    }
}

proof fn lemma_take_succ_contains(s: Seq<u32>, n: int, x: u32)
    requires
        0 <= n < s.len(),
    ensures
        s.take(n + 1).contains(x) <==> s.take(n).contains(x) || x == s[n],
{
    assert(s.take(n + 1) =~= s.take(n).push(s[n]));
    lemma_push_contains(s.take(n), s[n], x);
}

proof fn lemma_push_contains(s: Seq<u32>, v: u32, x: u32)
    ensures
        s.push(v).contains(x) <==> s.contains(x) || x == v,
{
    if s.push(v).contains(x) {
        let k = choose|k: int| 0 <= k < s.push(v).len() && s.push(v)[k] == x;
        if k < s.len() {
            assert(s[k] == x);
        }
    }
    if s.contains(x) {
        let k = choose|k: int| 0 <= k < s.len() && s[k] == x;
        assert(s.push(v)[k] == x);
    }
    if x == v {
        assert(s.push(v)[s.len() as int] == x);
    }
}

impl ScopeSet {
    /// The ids are strictly ascending (sorted, no repetition).
    pub open spec fn wf(&self) -> bool {
        strictly_ascending(self@)
    }

    /// The ids held, as a mathematical set.
    pub open spec fn set(&self) -> Set<ScopeId> {
        self@.to_set()
    }

    pub fn new() -> (s: Self)
        ensures
            s.wf(),
            s@ == Seq::<ScopeId>::empty(),
    {
        ScopeSet(Vec::new())
    }

    /// The set of the given ids, sorted and without repetition.
    pub fn from_iter_scopes(scopes: &[ScopeId]) -> (s: Self)
        ensures
            s.wf(),
            s.set() == scopes@.to_set(),
    {
        let mut s = ScopeSet::new();
        let mut i: usize = 0;
        assert(s.set() =~= scopes@.take(0).to_set());
        while i < scopes.len()
            invariant
                i <= scopes@.len(),
                s.wf(),
                s.set() == scopes@.take(i as int).to_set(),
            decreases scopes.len() - i,
        {
            s.add(scopes[i]);
            assert(scopes@.take(i + 1).to_set() =~= scopes@.take(i as int).to_set().insert(
                scopes@[i as int],
            )) by {
                assert(scopes@.take(i + 1) =~= scopes@.take(i as int).push(scopes@[i as int]));
                scopes@.take(i as int).lemma_push_to_set_commute(scopes@[i as int]);
            }
            i = i + 1;
        }
        assert(scopes@.take(scopes@.len() as int) =~= scopes@);
        s
    }

    /// Inserts `scope` at its place in the order, unless it is already held.
    pub fn add(&mut self, scope: ScopeId)
        requires
            old(self).wf(),
        ensures
            final(self).wf(),
            final(self).set() == old(self).set().insert(scope),
    {
        match binary_search(&self.0, scope) {
            Ok(_) => {
                assert(self.set() =~= old(self).set().insert(scope));
            },
            Err(pos) => {
                let ghost before = self.0@;
                self.0.insert(pos, scope);
                proof {
                    let after = self.0@;
                    assert(after =~= before.insert(pos as int, scope));
                    assert forall|i: int, j: int| 0 <= i < j < after.len() implies after[i]
                        < after[j] by {
                        if i < pos && j < pos {
                        } else if i < pos && j == pos {
                        } else if i < pos {
                            assert(after[j] == before[j - 1]);
                        } else if i == pos {
                            assert(after[j] == before[j - 1]);
                        } else {
                            assert(after[i] == before[i - 1]);
                            assert(after[j] == before[j - 1]);
                        }
                    }
                    before.insert_ensures(pos as int, scope);
                    assert forall|x: u32| #[trigger] after.contains(x) <==> before.contains(x) || x
                        == scope by {
                        if after.contains(x) {
                            let k = choose|k: int| 0 <= k < after.len() && after[k] == x;
                            if k < pos {
                                assert(before[k] == x);
                            } else if k > pos {
                                assert(before[k - 1] == x);
                            }
                        }
                        if before.contains(x) {
                            let k = choose|k: int| 0 <= k < before.len() && before[k] == x;
                            if k < pos {
                                assert(after[k] == x);
                            } else {
                                assert(after[k + 1] == x);
                            }
                        }
                        if x == scope {
                            assert(after[pos as int] == x);
                        }
                    }
                    assert(self.set() =~= old(self).set().insert(scope));
                }
            },
        }
    }

    /// Removes `scope` if it is held.
    pub fn remove(&mut self, scope: ScopeId)
        requires
            old(self).wf(),
        ensures
            final(self).wf(),
            final(self).set() == old(self).set().remove(scope),
    {
        match binary_search(&self.0, scope) {
            Ok(pos) => {
                let ghost before = self.0@;
                self.0.remove(pos);
                proof {
                    let after = self.0@;
                    assert(after =~= before.remove(pos as int));
                    assert forall|i: int, j: int| 0 <= i < j < after.len() implies after[i]
                        < after[j] by {
                        if j < pos {
                        } else if i < pos {
                            assert(after[j] == before[j + 1]);
                        } else {
                            assert(after[i] == before[i + 1]);
                            assert(after[j] == before[j + 1]);
                        }
                    }
                    assert forall|x: u32| #[trigger] after.contains(x) <==> before.contains(x) && x
                        != scope by {
                        if after.contains(x) {
                            let k = choose|k: int| 0 <= k < after.len() && after[k] == x;
                            if k < pos {
                                assert(before[k] == x);
                            } else {
                                assert(before[k + 1] == x);
                            }
                        }
                        if before.contains(x) && x != scope {
                            let k = choose|k: int| 0 <= k < before.len() && before[k] == x;
                            if k < pos {
                                assert(after[k] == x);
                            } else {
                                assert(k != pos);
                                assert(after[k - 1] == x);
                            }
                        }
                    }
                    assert(self.set() =~= old(self).set().remove(scope));
                }
            },
            Err(_) => {
                assert(self.set() =~= old(self).set().remove(scope));
            },
        }
    }

    pub fn contains(&self, scope: ScopeId) -> (b: bool)
        requires
            self.wf(),
        ensures
            b == self.set().contains(scope),
    {
        match binary_search(&self.0, scope) {
            Ok(_) => true,
            Err(_) => false,
        }
    }

    /// The union of two sets, by a merge of the two ascending vectors.
    pub fn union(&self, other: &ScopeSet) -> (s: ScopeSet)
        requires
            self.wf(),
            other.wf(),
        ensures
            s.wf(),
            s.set() == self.set().union(other.set()),
    {
        let a = &self.0;
        let b = &other.0;
        let mut out: Vec<ScopeId> = Vec::new();
        let mut i: usize = 0;
        let mut j: usize = 0;
        while i < a.len() || j < b.len()
            invariant
                strictly_ascending(a@),
                strictly_ascending(b@),
                strictly_ascending(out@),
                i <= a@.len(),
                j <= b@.len(),
                forall|k: int|
                    0 <= k < out@.len() ==> (i < a@.len() ==> #[trigger] out@[k] < a@[i as int])
                        && (j < b@.len() ==> out@[k] < b@[j as int]),
                forall|x: u32|
                    #[trigger] out@.contains(x) <==> a@.take(i as int).contains(x) || b@.take(
                        j as int,
                    ).contains(x),
            decreases a@.len() + b@.len() - i - j,
        {
            let ghost prev_out = out@;
            let ghost pi = i as int;
            let ghost pj = j as int;
            if j >= b.len() || (i < a.len() && a[i] < b[j]) {
                out.push(a[i]);
                i = i + 1;
            } else if i >= a.len() || b[j] < a[i] {
                out.push(b[j]);
                j = j + 1;
            } else {
                out.push(a[i]);
                i = i + 1;
                j = j + 1;
            }
            proof {
                assert forall|x: u32| #[trigger] out@.contains(x) <==> a@.take(i as int).contains(x)
                    || b@.take(j as int).contains(x) by {
                    lemma_push_contains(prev_out, out@.last(), x);
                    assert(out@ =~= prev_out.push(out@.last()));
                    if i > pi {
                        lemma_take_succ_contains(a@, pi, x);
                    } else {
                        assert(a@.take(i as int) == a@.take(pi));
                    }
                    if j > pj {
                        lemma_take_succ_contains(b@, pj, x);
                    } else {
                        assert(b@.take(j as int) == b@.take(pj));
                    }
                }
            }
        }
        assert(a@.take(a@.len() as int) =~= a@);
        assert(b@.take(b@.len() as int) =~= b@);
        let s = ScopeSet(out);
        assert(s.set() =~= self.set().union(other.set()));
        s
    }

    /// Whether every id of `self` is held by `other`.
    pub fn is_subset_of(&self, other: &ScopeSet) -> (b: bool)
        requires
            self.wf(),
            other.wf(),
        ensures
            b == self.set().subset_of(other.set()),
    {
        let mut i: usize = 0;
        while i < self.0.len()
            invariant
                other.wf(),
                i <= self@.len(),
                forall|k: int| 0 <= k < i ==> other.set().contains(#[trigger] self@[k]),
            decreases self@.len() - i,
        {
            if !other.contains(self.0[i]) {
                assert(self.set().contains(self@[i as int]));
                return false;
            }
            i = i + 1;
        }
        assert(self.set().subset_of(other.set()));
        true
    }

    /// The number of ids held.
    pub fn len(&self) -> (n: usize)
        ensures
            n == self@.len(),
    {
        self.0.len()
    }

    pub fn is_empty(&self) -> (b: bool)
        ensures
            b == (self@.len() == 0),
    {
        self.0.len() == 0
    }

    /// The ids in ascending order.
    pub fn iter(&self) -> (it: std::vec::IntoIter<ScopeId>)
        ensures
            it.remaining() == self@,
    {
        let v = self.0.clone();
        assert(v@ =~= self.0@);
        v.into_iter()
    }
}

/// The number of ids a scope set stores is the size of the set it holds.
pub proof fn lemma_len_is_cardinality(s: ScopeSet)
    requires
        s.wf(),
    ensures
        s@.len() == s.set().len(),
{
    assert(s@.no_duplicates()) by {
        assert forall|i: int, j: int|
            0 <= i < s@.len() && 0 <= j < s@.len() && i != j implies s@[i] != s@[j] by {
            if i < j {
                assert(s@[i] < s@[j]);
            } else {
                assert(s@[j] < s@[i]);
            }
        }
    }
    s@.unique_seq_to_set();
}

/// Union does not depend on the order of its operands.
pub proof fn lemma_union_commutative(a: ScopeSet, b: ScopeSet, ab: ScopeSet, ba: ScopeSet)
    requires
        a.wf(),
        b.wf(),
        ab.wf(),
        ba.wf(),
        ab.set() == a.set().union(b.set()),
        ba.set() == b.set().union(a.set()),
    ensures
        ab@ == ba@,
{
    assert(ab.set() =~= ba.set());
    lemma_ascending_determined_by_elements(ab@, ba@);
}

/// Both operands are subsets of their union.
pub proof fn lemma_union_contains_operands(a: ScopeSet, b: ScopeSet, ab: ScopeSet)
    requires
        ab.set() == a.set().union(b.set()),
    ensures
        a.set().subset_of(ab.set()),
        b.set().subset_of(ab.set()),
{
}

/// The union of two scope sets with no id in common holds every id of both:
/// its size is the sum of their sizes (two scope sets never collapse into
/// one).
pub proof fn lemma_union_disjoint_len(a: ScopeSet, b: ScopeSet, ab: ScopeSet)
    requires
        a.wf(),
        b.wf(),
        ab.wf(),
        ab.set() == a.set().union(b.set()),
        a.set().disjoint(b.set()),
    ensures
        ab@.len() == a@.len() + b@.len(),
{
    lemma_len_is_cardinality(a);
    lemma_len_is_cardinality(b);
    lemma_len_is_cardinality(ab);
    vstd::seq_lib::seq_to_set_is_finite(a@);
    vstd::seq_lib::seq_to_set_is_finite(b@);
    vstd::set_lib::lemma_set_disjoint_lens(a.set(), b.set());
    assert(a.set() + b.set() == a.set().union(b.set()));
}

/// Adding an id that is already there changes nothing.
pub proof fn lemma_add_idempotent(s: ScopeSet, once: ScopeSet, twice: ScopeSet, x: ScopeId)
    requires
        once.wf(),
        twice.wf(),
        once.set() == s.set().insert(x),
        twice.set() == once.set().insert(x),
    ensures
        twice@ == once@,
{
    assert(twice.set() =~= once.set());
    lemma_ascending_determined_by_elements(twice@, once@);
}

/// Removing an id undoes adding it, when it was not there before.
pub proof fn lemma_remove_undoes_add(s: ScopeSet, added: ScopeSet, removed: ScopeSet, x: ScopeId)
    requires
        s.wf(),
        removed.wf(),
        !s.set().contains(x),
        added.set() == s.set().insert(x),
        removed.set() == added.set().remove(x),
    ensures
        removed@ == s@,
{
    assert(removed.set() =~= s.set());
    lemma_ascending_determined_by_elements(removed@, s@);
}

} // verus!
