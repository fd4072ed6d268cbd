//! Index paths: the position of a node in the tree of a walk.

use vstd::prelude::*;

verus! {

/// `im::Vector`, the persistent vector that backs an index path.
#[verifier::external_type_specification]
#[verifier::external_body]
#[verifier::reject_recursive_types(A)]
pub struct ExVector<A>(im::Vector<A>);

/// The indices that an `im::Vector<usize>` holds, front to back.
pub uninterp spec fn vector_indices(v: im::Vector<usize>) -> Seq<usize>;

/// Lexicographic order on sequences of indices: `a` comes before `b` when `a`
/// is a proper prefix of `b`, or when the two first differ at a place where
/// `a` holds the smaller index.
pub open spec fn lex_less(a: Seq<usize>, b: Seq<usize>) -> bool {
    exists|k: int| lex_less_at(a, b, k)
}

/// `a` and `b` agree on their first `k` indices and `a` is smaller at `k`.
pub open spec fn lex_less_at(a: Seq<usize>, b: Seq<usize>, k: int) -> bool {
    &&& 0 <= k <= a.len()
    &&& k < b.len()
    &&& a.subrange(0, k) == b.subrange(0, k)
    &&& (k < a.len() ==> a[k] < b[k])
}

/// `im::Vector::from(Vec)`: collects the items of `items` in order.
#[verifier::external_body]
fn vector_from_vec(items: Vec<usize>) -> (v: im::Vector<usize>)
    ensures
        vector_indices(v) == items@,
{
    im::Vector::from(items)
}

/// `im::Vector::clone`: the copy holds the same indices.
#[verifier::external_body]
fn vector_clone(v: &im::Vector<usize>) -> (copy: im::Vector<usize>)
    ensures
        vector_indices(copy) == vector_indices(*v),
{
    v.clone()
}

/// `im::Vector::push_back`: appends one index at the back.
#[verifier::external_body]
fn vector_push_back(v: &mut im::Vector<usize>, index: usize)
    ensures
        vector_indices(*final(v)) == vector_indices(*old(v)).push(index),
{
    v.push_back(index)
}

/// `im::Vector::pop_back`: removes the last index and returns it, or returns
/// `None` and changes nothing when there is none.
#[verifier::external_body]
fn vector_pop_back(v: &mut im::Vector<usize>) -> (last: Option<usize>)
    ensures
        vector_indices(*old(v)).len() == 0 ==> last.is_none() && vector_indices(*final(v))
            == vector_indices(*old(v)),
        vector_indices(*old(v)).len() > 0 ==> last == Some(vector_indices(*old(v)).last())
            && vector_indices(*final(v)) == vector_indices(*old(v)).drop_last(),
{
    v.pop_back()
}

/// `im::Vector::back_mut`: a mutable reference to the last index, through
/// which that index alone can change; `None` when the vector is empty.
#[verifier::external_body]
fn vector_back_mut(v: &mut im::Vector<usize>) -> (last: Option<&mut usize>)
    ensures
        vector_indices(*old(v)).len() == 0 ==> last.is_none() && vector_indices(*final(v))
            == vector_indices(*old(v)),
        vector_indices(*old(v)).len() > 0 ==> last.is_some() && *last.unwrap() == vector_indices(
            *old(v),
        ).last() && vector_indices(*final(v)) == vector_indices(*old(v)).drop_last().push(
            *final(last.unwrap()),
        ),
{
    v.back_mut()
}

/// `im::Vector::len`: the number of indices held.
#[verifier::external_body]
fn vector_len(v: &im::Vector<usize>) -> (n: usize)
    ensures
        n == vector_indices(*v).len(),
{
    v.len()
}

/// `im::Vector::is_empty`: whether no index is held.
#[verifier::external_body]
fn vector_is_empty(v: &im::Vector<usize>) -> (empty: bool)
    ensures
        empty == (vector_indices(*v).len() == 0),
{
    v.is_empty()
}

/// `==` on `im::Vector<usize>`: equal lengths and equal indices throughout.
#[verifier::external_body]
fn vector_equal(a: &im::Vector<usize>, b: &im::Vector<usize>) -> (same: bool)
    ensures
        same == (vector_indices(*a) == vector_indices(*b)),
{
    a == b
}

/// `<` on `im::Vector<usize>`: the lexicographic order of the two iterations.
#[verifier::external_body]
fn vector_less(a: &im::Vector<usize>, b: &im::Vector<usize>) -> (less: bool)
    ensures
        less == lex_less(vector_indices(*a), vector_indices(*b)),
{
    a < b
}

/// No index path comes before itself.
pub proof fn lemma_lex_less_irreflexive(a: Seq<usize>)
    ensures
        !lex_less(a, a),
{
    assert forall|k: int| !lex_less_at(a, a, k) by {}
}

/// If `a` comes before `b` and `b` before `c`, then `a` comes before `c`.
pub proof fn lemma_lex_less_transitive(a: Seq<usize>, b: Seq<usize>, c: Seq<usize>)
    requires
        lex_less(a, b),
        lex_less(b, c),
    ensures
        lex_less(a, c),
{
    let k1 = choose|k: int| lex_less_at(a, b, k);
    let k2 = choose|k: int| lex_less_at(b, c, k);
    let k = if k1 <= k2 {
        k1
    } else {
        k2
    };
    assert forall|j: int| 0 <= j < k implies a[j] == c[j] by {
        assert(a.subrange(0, k1)[j] == a[j]);
        assert(b.subrange(0, k1)[j] == b[j]);
        assert(b.subrange(0, k2)[j] == b[j]);
        assert(c.subrange(0, k2)[j] == c[j]);
    }
    assert(a.subrange(0, k) =~= c.subrange(0, k));
    if k < a.len() {
        if k1 < k2 {
            assert(b.subrange(0, k2)[k] == b[k]);
            assert(c.subrange(0, k2)[k] == c[k]);
        } else if k2 < k1 {
            assert(a.subrange(0, k1)[k] == a[k]);
            assert(b.subrange(0, k1)[k] == b[k]);
        }
    }
    assert(lex_less_at(a, c, k));
}

/// Where two index paths agree on their first `k` indices, they are equal or
/// one of them comes before the other.
proof fn lemma_lex_less_total_from(a: Seq<usize>, b: Seq<usize>, k: int)
    requires
        0 <= k <= a.len(),
        k <= b.len(),
        a.subrange(0, k) == b.subrange(0, k),
    ensures
        a == b || lex_less(a, b) || lex_less(b, a),
    decreases a.len() - k,
{
    if k == a.len() {
        if k == b.len() {
            assert(a.subrange(0, k) =~= a);
            assert(b.subrange(0, k) =~= b);
        } else {
            assert(lex_less_at(a, b, k));
        }
    } else if k == b.len() {
        assert(lex_less_at(b, a, k));
    } else if a[k] < b[k] {
        assert(lex_less_at(a, b, k));
    } else if b[k] < a[k] {
        assert(lex_less_at(b, a, k));
    } else {
        assert forall|j: int| 0 <= j < k + 1 implies a[j] == b[j] by {
            if j < k {
                assert(a.subrange(0, k)[j] == a[j]);
                assert(b.subrange(0, k)[j] == b[j]);
            }
        }
        assert(a.subrange(0, k + 1) =~= b.subrange(0, k + 1));
        lemma_lex_less_total_from(a, b, k + 1);
    }
}

/// Any two index paths are equal, or one of them comes before the other.
pub proof fn lemma_lex_less_total(a: Seq<usize>, b: Seq<usize>)
    ensures
        a == b || lex_less(a, b) || lex_less(b, a),
{
    assert(a.subrange(0, 0) =~= b.subrange(0, 0));
    lemma_lex_less_total_from(a, b, 0);
}

/// Of two index paths at most one comes before the other.
pub proof fn lemma_lex_less_asymmetric(a: Seq<usize>, b: Seq<usize>)
    requires
        lex_less(a, b),
    ensures
        !lex_less(b, a),
{
    if lex_less(b, a) {
        lemma_lex_less_transitive(a, b, a);
        lemma_lex_less_irreflexive(a);
    }
}

/// A node comes before everything below it.
pub proof fn lemma_ancestor_first(path: Seq<usize>, below: Seq<usize>)
    requires
        below.len() > 0,
    ensures
        lex_less(path, path + below),
{
    assert(path.subrange(0, path.len() as int) =~= (path + below).subrange(
        0,
        path.len() as int,
    ));
    assert(lex_less_at(path, path + below, path.len() as int));
}

/// Everything at or below an earlier sibling comes before everything at or
/// below a later sibling.
pub proof fn lemma_siblings_in_order(
    parent: Seq<usize>,
    i: usize,
    below_i: Seq<usize>,
    j: usize,
    below_j: Seq<usize>,
)
    requires
        i < j,
    ensures
        lex_less(parent.push(i) + below_i, parent.push(j) + below_j),
{
    let a = parent.push(i) + below_i;
    let b = parent.push(j) + below_j;
    let k = parent.len() as int;
    assert(a.subrange(0, k) =~= b.subrange(0, k));
    assert(a[k] == i);
    assert(b[k] == j);
    assert(lex_less_at(a, b, k));
}

/// The position of a node in the tree of a walk: the sibling index at every
/// level from the root down.
pub struct IndexPath {
    pub indices: im::Vector<usize>,
}

impl View for IndexPath {
    type V = Seq<usize>;

    open spec fn view(&self) -> Seq<usize> {
        vector_indices(self.indices)
    }
}

impl IndexPath {
    /// The index path that holds `indices`.
    pub fn new(indices: Vec<usize>) -> (path: IndexPath)
        ensures
            path@ == indices@,
    {
        IndexPath { indices: vector_from_vec(indices) }
    }

    /// The path of the child at `index` below this node; `self` is unchanged.
    pub fn adding(&self, index: usize) -> (child: IndexPath)
        ensures
            child@ == self@.push(index),
    {
        let mut indices = vector_clone(&self.indices);
        vector_push_back(&mut indices, index);
        IndexPath { indices }
    }

    /// Descends to the child at `index`.
    pub fn push(&mut self, index: usize)
        ensures
            final(self)@ == old(self)@.push(index),
    {
        vector_push_back(&mut self.indices, index);
    }

    /// Moves to the next sibling.
    pub fn increment_last(&mut self)
        requires
            old(self)@.len() > 0,
            old(self)@.last() < usize::MAX,
        ensures
            final(self)@ == old(self)@.drop_last().push((old(self)@.last() + 1) as usize),
    {
        match vector_back_mut(&mut self.indices) {
            Some(last) => {
                *last = *last + 1;
            },
            None => {},
        }
    }

    /// Ascends to the parent, returning the index that was left, if any.
    pub fn pop(&mut self) -> (last: Option<usize>)
        ensures
            old(self)@.len() == 0 ==> last.is_none() && final(self)@ == old(self)@,
            old(self)@.len() > 0 ==> last == Some(old(self)@.last()) && final(self)@ == old(
                self,
            )@.drop_last(),
    {
        vector_pop_back(&mut self.indices)
    }

    /// The number of levels.
    pub fn len(&self) -> (n: usize)
        ensures
            n == self@.len(),
    {
        vector_len(&self.indices)
    }

    /// Whether the path has no level at all.
    pub fn is_empty(&self) -> (empty: bool)
        ensures
            empty == (self@.len() == 0),
    {
        vector_is_empty(&self.indices)
    }

    /// Whether this path comes strictly before `other` in lexicographic order.
    pub fn precedes(&self, other: &IndexPath) -> (less: bool)
        ensures
            less == lex_less(self@, other@),
    {
        vector_less(&self.indices, &other.indices)
    }
}

impl Clone for IndexPath {
    fn clone(&self) -> (copy: IndexPath)
        ensures
            copy@ == self@,
    {
        IndexPath { indices: vector_clone(&self.indices) }
    }
}

impl PartialEq for IndexPath {
    fn eq(&self, other: &IndexPath) -> (same: bool) {
        vector_equal(&self.indices, &other.indices)
    }
}

impl vstd::std_specs::cmp::PartialEqSpecImpl for IndexPath {
    open spec fn obeys_eq_spec() -> bool {
        true
    }

    open spec fn eq_spec(&self, other: &IndexPath) -> bool {
        self@ == other@
    }
}

} // verus!
