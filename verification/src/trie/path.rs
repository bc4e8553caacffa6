//! Runs of bits: keys, and the parts of keys that edges stand for.

use vstd::prelude::*;

verus! {

/// The bits that lead from one node to another.
#[derive(Debug, PartialEq, Eq, PartialOrd, Ord, Hash)]
pub struct Path(pub Vec<bool>);

impl View for Path {
    type V = Seq<bool>;

    open spec fn view(&self) -> Seq<bool> {
        self.0@
    }
}

impl Clone for Path {
    fn clone(&self) -> (r: Path)
        ensures
            r@ == self@,
    {
        Path(slice_of(&self.0, 0, self.0.len()))
    }
}

/// The length of the longest common prefix of `a` and `b`.
pub open spec fn common_len(a: Seq<bool>, b: Seq<bool>) -> nat
    decreases a.len(),
{
    if a.len() == 0 || b.len() == 0 || a[0] != b[0] {
        0
    } else {
        1 + common_len(a.skip(1), b.skip(1))
    }
}

/// Up to their common length two runs agree, and after it they do not.
pub proof fn lemma_common_len(a: Seq<bool>, b: Seq<bool>)
    ensures
        common_len(a, b) <= a.len(),
        common_len(a, b) <= b.len(),
        a.take(common_len(a, b) as int) == b.take(common_len(a, b) as int),
        common_len(a, b) < a.len() && common_len(a, b) < b.len() ==> a[common_len(a, b) as int]
            != b[common_len(a, b) as int],
    decreases a.len(),
{
    if a.len() == 0 || b.len() == 0 || a[0] != b[0] {
    } else {
        lemma_common_len(a.skip(1), b.skip(1));
        let c = common_len(a.skip(1), b.skip(1));
        assert(a.take(c as int + 1) =~= seq![a[0]] + a.skip(1).take(c as int));
        assert(b.take(c as int + 1) =~= seq![b[0]] + b.skip(1).take(c as int));
    }
}

/// Two runs that agree on `n` bits and differ on the next, or end there, have the common length
/// `n`.
pub proof fn lemma_common_len_unique(a: Seq<bool>, b: Seq<bool>, n: nat)
    requires
        n <= a.len(),
        n <= b.len(),
        a.take(n as int) == b.take(n as int),
        n < a.len() && n < b.len() ==> a[n as int] != b[n as int],
    ensures
        common_len(a, b) == n,
{
    lemma_common_len(a, b);
    let c = common_len(a, b);
    if c < n {
        assert(a[c as int] == a.take(n as int)[c as int]);
        assert(b[c as int] == b.take(n as int)[c as int]);
    } else if n < c {
        assert(a[n as int] == a.take(c as int)[n as int]);
        assert(b[n as int] == b.take(c as int)[n as int]);
    }
}

/// `path` is a prefix of `key` exactly if the whole of it is common to both.
pub proof fn lemma_prefix_common(path: Seq<bool>, key: Seq<bool>)
    ensures
        common_len(path, key) == path.len() <==> path.is_prefix_of(key),
{
    lemma_common_len(path, key);
    if common_len(path, key) == path.len() {
        assert(path.take(path.len() as int) =~= path);
        assert(path =~= key.take(path.len() as int));
    }
    if path.is_prefix_of(key) {
        assert(path.take(path.len() as int) =~= key.take(path.len() as int));
        lemma_common_len_unique(path, key, path.len());
    }
}

/// The number that a run of bits spells, most significant bit first.
pub open spec fn bits_value(bits: Seq<bool>) -> nat
    decreases bits.len(),
{
    if bits.len() == 0 {
        0
    } else {
        2 * bits_value(bits.drop_last()) + if bits.last() {
            1nat
        } else {
            0nat
        }
    }
}

/// Copies the bits from position `from` up to position `to`.
pub fn slice_of(bits: &[bool], from: usize, to: usize) -> (r: Vec<bool>)
    requires
        from <= to <= bits@.len(),
    ensures
        r@ == bits@.subrange(from as int, to as int),
{
    let mut r: Vec<bool> = Vec::new();
    let mut i: usize = from;
    while i < to
        invariant
            from <= i <= to <= bits@.len(),
            r@ == bits@.subrange(from as int, i as int),
        decreases to - i,
    {
        r.push(bits[i]);
        i += 1;
    }
    r
}

/// The number of bits at the start of `path` that are also those of `key` from position `depth`
/// on.
pub fn common_path(path: &[bool], key: &[bool], depth: usize) -> (r: usize)
    requires
        depth <= key@.len(),
    ensures
        r == common_len(path@, key@.skip(depth as int)),
{
    let mut n: usize = 0;
    let ghost rest = key@.skip(depth as int);
    while n < path.len() && n < key.len() - depth && path[n] == key[depth + n]
        invariant
            n <= path@.len(),
            n <= key@.len() - depth,
            depth <= key@.len(),
            rest == key@.skip(depth as int),
            path@.take(n as int) == rest.take(n as int),
        decreases path@.len() - n,
    {
        assert(path@.take(n + 1) =~= path@.take(n as int).push(path@[n as int]));
        assert(rest.take(n + 1) =~= rest.take(n as int).push(rest[n as int]));
        n += 1;
    }
    proof {
        lemma_common_len_unique(path@, rest, n as nat);
    }
    n
}

} // verus!
