//! Names and paths as byte strings.
//!
//! A file name or a path is the sequence of bytes that the operating system
//! gave; nothing here assumes an encoding.

use vstd::prelude::*;

verus! {

/// The byte that separates the components of a path.
pub const SEPARATOR: u8 = 47u8;

/// The byte a hidden name starts with.
pub const DOT: u8 = 46u8;

/// Lexicographic order on byte strings: `a` comes before `b` when `a` is a
/// proper prefix of `b`, or when the two first differ at a place where `a`
/// holds the smaller byte.
pub open spec fn bytes_before(a: Seq<u8>, b: Seq<u8>) -> bool {
    exists|k: int| bytes_before_at(a, b, k)
}

/// `a` and `b` agree on their first `k` bytes and `a` is smaller at `k`.
pub open spec fn bytes_before_at(a: Seq<u8>, b: Seq<u8>, k: int) -> bool {
    &&& 0 <= k <= a.len()
    &&& k < b.len()
    &&& a.subrange(0, k) == b.subrange(0, k)
    &&& (k < a.len() ==> a[k] < b[k])
}

/// Whether a name is hidden: it starts with a dot.
pub open spec fn spec_is_hidden(name: Seq<u8>) -> bool {
    name.len() > 0 && name[0] == DOT
}

/// The path of `name` inside the directory `parent`: a name that starts at
/// the root stands alone, an empty parent adds nothing, and otherwise the
/// two are joined by exactly one separator.
pub open spec fn spec_join(parent: Seq<u8>, name: Seq<u8>) -> Seq<u8> {
    if name.len() > 0 && name[0] == SEPARATOR {
        name
    } else if parent.len() == 0 {
        name
    } else if parent.last() == SEPARATOR {
        parent + name
    } else {
        parent + seq![SEPARATOR] + name
    }
}

/// A copy of `bytes`.
pub fn clone_bytes(bytes: &Vec<u8>) -> (copy: Vec<u8>)
    ensures
        copy@ == bytes@,
{
    let mut copy: Vec<u8> = Vec::with_capacity(bytes.len());
    let mut i: usize = 0;
    while i < bytes.len()
        invariant
            i <= bytes.len(),
            copy@ == bytes@.subrange(0, i as int),
        decreases bytes.len() - i,
    {
        copy.push(bytes[i]);
        i = i + 1;
        assert(copy@ == bytes@.subrange(0, i as int)) by {
            assert(copy@ =~= bytes@.subrange(0, i as int));
        }
    }
    assert(bytes@.subrange(0, bytes.len() as int) =~= bytes@);
    copy
}

/// Appends `tail` to `head`.
pub fn append_bytes(head: &mut Vec<u8>, tail: &[u8])
    ensures
        final(head)@ == old(head)@ + tail@,
{
    let mut i: usize = 0;
    while i < tail.len()
        invariant
            i <= tail.len(),
            head@ == old(head)@ + tail@.subrange(0, i as int),
        decreases tail.len() - i,
    {
        head.push(tail[i]);
        i = i + 1;
        assert(head@ =~= old(head)@ + tail@.subrange(0, i as int));
    }
    assert(tail@.subrange(0, tail.len() as int) =~= tail@);
}

/// Whether two byte strings are the same.
pub fn bytes_equal(a: &Vec<u8>, b: &Vec<u8>) -> (same: bool)
    ensures
        same == (a@ == b@),
{
    if a.len() != b.len() {
        return false;
    }
    let mut i: usize = 0;
    while i < a.len()
        invariant
            i <= a.len(),
            a.len() == b.len(),
            forall|j: int| 0 <= j < i ==> a@[j] == b@[j],
        decreases a.len() - i,
    {
        if a[i] != b[i] {
            return false;
        }
        i = i + 1;
    }
    assert(a@ =~= b@);
    true
}

/// Whether `a` comes strictly before `b` in lexicographic order.
pub fn bytes_less(a: &Vec<u8>, b: &Vec<u8>) -> (less: bool)
    ensures
        less == bytes_before(a@, b@),
{
    let mut i: usize = 0;
    while i < a.len() && i < b.len()
        invariant
            i <= a.len(),
            i <= b.len(),
            forall|j: int| 0 <= j < i ==> a@[j] == b@[j],
        decreases a.len() - i,
    {
        if a[i] != b[i] {
            let less = a[i] < b[i];
            proof {
                assert(a@.subrange(0, i as int) =~= b@.subrange(0, i as int));
                lemma_first_difference(a@, b@, i as int);
            }
            return less;
        }
        i = i + 1;
    }
    proof {
        assert(a@.subrange(0, i as int) =~= b@.subrange(0, i as int));
        lemma_first_difference(a@, b@, i as int);
    }
    i < b.len()
}

/// Where two byte strings agree up to `k` and then differ or one of them
/// ends, the order between them is decided at `k`.
pub proof fn lemma_first_difference(a: Seq<u8>, b: Seq<u8>, k: int)
    requires
        0 <= k <= a.len(),
        k <= b.len(),
        a.subrange(0, k) == b.subrange(0, k),
        k == a.len() || k == b.len() || a[k] != b[k],
    ensures
        bytes_before(a, b) == (k < b.len() && (k < a.len() ==> a[k] < b[k])),
{
    if k < b.len() && (k < a.len() ==> a[k] < b[k]) {
        assert(bytes_before_at(a, b, k));
    } else {
        assert forall|j: int| !bytes_before_at(a, b, j) by {
            if bytes_before_at(a, b, j) {
                if j < k {
                    assert(a.subrange(0, k)[j] == a[j]);
                    assert(b.subrange(0, k)[j] == b[j]);
                } else if j > k {
                    assert(a.subrange(0, j)[k] == a[k]);
                    assert(b.subrange(0, j)[k] == b[k]);
                }
            }
        }
    }
}

/// Whether `name` is hidden.
pub fn is_hidden(name: &Vec<u8>) -> (hidden: bool)
    ensures
        hidden == spec_is_hidden(name@),
{
    name.len() > 0 && name[0] == DOT
}

/// The path of `name` inside the directory `parent`.
pub fn join_path(parent: &Vec<u8>, name: &Vec<u8>) -> (path: Vec<u8>)
    ensures
        path@ == spec_join(parent@, name@),
{
    if name.len() > 0 && name[0] == SEPARATOR {
        return clone_bytes(name);
    }
    let mut path = clone_bytes(parent);
    if parent.len() > 0 && parent[parent.len() - 1] != SEPARATOR {
        path.push(SEPARATOR);
    }
    append_bytes(&mut path, name.as_slice());
    assert(path@ =~= spec_join(parent@, name@));
    path
}


/// No byte string comes before itself.
pub proof fn lemma_bytes_before_irreflexive(a: Seq<u8>)
    ensures
        !bytes_before(a, a),
{
    assert forall|k: int| !bytes_before_at(a, a, k) by {}
}

/// If `a` comes before `b` and `b` before `c`, then `a` comes before `c`.
pub proof fn lemma_bytes_before_transitive(a: Seq<u8>, b: Seq<u8>, c: Seq<u8>)
    requires
        bytes_before(a, b),
        bytes_before(b, c),
    ensures
        bytes_before(a, c),
{
    let k1 = choose|k: int| bytes_before_at(a, b, k);
    let k2 = choose|k: int| bytes_before_at(b, c, k);
    let k = if k1 <= k2 {
        k1
    } else {
        k2
    };
    assert forall|j: int| 0 <= j < k implies a[j] == c[j] by {
        assert(a.subrange(0, k1)[j] == a[j]);
        assert(b.subrange(0, k1)[j] == b[j]);
        assert(b.subrange(0, k2)[j] == b[j]);
        assert(c.subrange(0, k2)[j] == c[j]);
    }
    assert(a.subrange(0, k) =~= c.subrange(0, k));
    if k < a.len() {
        if k1 < k2 {
            assert(b.subrange(0, k2)[k] == b[k]);
            assert(c.subrange(0, k2)[k] == c[k]);
        } else if k2 < k1 {
            assert(a.subrange(0, k1)[k] == a[k]);
            assert(b.subrange(0, k1)[k] == b[k]);
        }
    }
    assert(bytes_before_at(a, c, k));
}

/// Where two byte strings agree on their first `k` bytes, they are equal or
/// one of them comes before the other.
proof fn lemma_bytes_before_total_from(a: Seq<u8>, b: Seq<u8>, k: int)
    requires
        0 <= k <= a.len(),
        k <= b.len(),
        a.subrange(0, k) == b.subrange(0, k),
    ensures
        a == b || bytes_before(a, b) || bytes_before(b, a),
    decreases a.len() - k,
{
    if k == a.len() || k == b.len() || a[k] != b[k] {
        lemma_first_difference(a, b, k);
        assert(b.subrange(0, k) == a.subrange(0, k));
        lemma_first_difference(b, a, k);
        if k == a.len() && k == b.len() {
            assert(a.subrange(0, k) =~= a);
            assert(b.subrange(0, k) =~= b);
        }
    } else {
        assert forall|j: int| 0 <= j < k + 1 implies a[j] == b[j] by {
            if j < k {
                assert(a.subrange(0, k)[j] == a[j]);
                assert(b.subrange(0, k)[j] == b[j]);
            }
        }
        assert(a.subrange(0, k + 1) =~= b.subrange(0, k + 1));
        lemma_bytes_before_total_from(a, b, k + 1);
    }
}

/// Any two byte strings are equal, or one of them comes before the other.
pub proof fn lemma_bytes_before_total(a: Seq<u8>, b: Seq<u8>)
    ensures
        a == b || bytes_before(a, b) || bytes_before(b, a),
{
    assert(a.subrange(0, 0) =~= b.subrange(0, 0));
    lemma_bytes_before_total_from(a, b, 0);
}

} // verus!
