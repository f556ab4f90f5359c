//! A library of indexed sources, searched in an order that rotates on every lookup.
use vstd::prelude::*;

use crate::hashed::{opt_view, HashedData};

verus! {

/// One left rotation: the front element moves to the back.
pub open spec fn rotate<A>(s: Seq<A>) -> Seq<A> {
    if s.len() == 0 {
        s
    } else {
        s.subrange(1, s.len() as int).push(s[0])
    }
}

/// `n` left rotations.
pub open spec fn rotate_n<A>(s: Seq<A>, n: nat) -> Seq<A>
    decreases n,
{
    if n == 0 {
        s
    } else {
        rotate(rotate_n(s, (n - 1) as nat))
    }
}

/// The block of the first collection, in the given order, that has `key`.
pub open spec fn search<T: Copy>(cols: Seq<HashedData<T>>, key: Seq<char>) -> Option<Seq<T>>
    decreases cols.len(),
{
    if cols.len() == 0 {
        None
    } else {
        match cols[0].lookup(key) {
            Some(b) => Some(b),
            None => search(cols.drop_first(), key),
        }
    }
}

/// After `m` rotations, position `j` holds the element that stood `m` places further on.
pub proof fn lemma_rotate_n_index<A>(s: Seq<A>, m: nat)
    ensures
        rotate_n(s, m).len() == s.len(),
        forall|j: int| 0 <= j < s.len() ==> #[trigger] rotate_n(s, m)[j] == s[(j + m) % (s.len() as int)],
    decreases m,
{
    let n = s.len() as int;
    if m > 0 {
        lemma_rotate_n_index(s, (m - 1) as nat);
        let t = rotate_n(s, (m - 1) as nat);
        if n > 0 {
            assert forall|j: int| 0 <= j < n implies #[trigger] rotate_n(s, m)[j] == s[(j + m) % n] by {
                let k = if j + 1 < n { j + 1 } else { 0 };
                assert(rotate(t)[j] == t[k]);
                vstd::arithmetic::div_mod::lemma_add_mod_noop(j + 1, (m - 1) as int, n);
                vstd::arithmetic::div_mod::lemma_mod_self_0(n);
                vstd::arithmetic::div_mod::lemma_small_mod(k as nat, n as nat);
                if j + 1 == n {
                    assert((j + 1) % n == 0);
                }
                assert((j + 1) % n == k);
                vstd::arithmetic::div_mod::lemma_add_mod_noop(k, (m - 1) as int, n);
                assert(t[k] == s[(k + (m - 1)) % n]);
            }
        }
    } else {
        assert forall|j: int| 0 <= j < n implies #[trigger] rotate_n(s, m)[j] == s[(j + m) % n] by {
            vstd::arithmetic::div_mod::lemma_small_mod(j as nat, n as nat);
        }
    }
}

/// Round-robin fairness: when every collection has `key`, lookup number `k + 1`
/// (counting from the library's current order) returns the block of the collection
/// `k + 1` places further on, so `n` consecutive lookups take their result from each
/// of the `n` collections once.
pub proof fn lemma_rotation_fairness<T: Copy>(cols: Seq<HashedData<T>>, key: Seq<char>, k: nat)
    requires
        cols.len() > 0,
        forall|i: int| 0 <= i < cols.len() ==> (#[trigger] cols[i]).lookup(key) is Some,
    ensures
        search(rotate_n(cols, k + 1), key) == cols[((k + 1) % cols.len()) as int].lookup(key),
{
    lemma_rotate_n_index(cols, k + 1);
    let t = rotate_n(cols, k + 1);
    assert(t[0] == cols[(0 + (k + 1) as int) % (cols.len() as int)]);
    vstd::arithmetic::div_mod::lemma_mod_bound((k + 1) as int, cols.len() as int);
}

/// One of the next `cols.len()` lookups of `key` (lookup `k + 1`) returns the block of
/// collection `c`.
pub open spec fn returned_in_cycle<T: Copy>(cols: Seq<HashedData<T>>, key: Seq<char>, c: int) -> bool {
    exists|k: int|
        0 <= k < cols.len() && (k + 1) % (cols.len() as int) == c && #[trigger] search(
            rotate_n(cols, (k + 1) as nat),
            key,
        ) == cols[c].lookup(key)
}

/// A full cycle: when every one of the `n` collections has `key`, the next `n`
/// lookups take their result from every collection, each collection's block being
/// returned by exactly one of them.
pub proof fn lemma_rotation_cycle<T: Copy>(cols: Seq<HashedData<T>>, key: Seq<char>)
    requires
        cols.len() > 0,
        forall|i: int| 0 <= i < cols.len() ==> (#[trigger] cols[i]).lookup(key) is Some,
    ensures
        forall|c: int| 0 <= c < cols.len() ==> #[trigger] returned_in_cycle(cols, key, c),
        forall|k1: int, k2: int|
            0 <= k1 < cols.len() && 0 <= k2 < cols.len() && k1 != k2 ==> #[trigger] ((k1 + 1) % (cols.len() as int))
                != #[trigger] ((k2 + 1) % (cols.len() as int)),
{
    let n = cols.len() as int;
    vstd::arithmetic::div_mod::lemma_mod_self_0(n);
    assert forall|c: int| 0 <= c < n implies #[trigger] returned_in_cycle(cols, key, c) by {
        let k: int = if c == 0 { n - 1 } else { c - 1 };
        lemma_rotation_fairness(cols, key, k as nat);
        if c > 0 {
            vstd::arithmetic::div_mod::lemma_small_mod(c as nat, n as nat);
        }
        assert((k + 1) % n == c);
        assert(search(rotate_n(cols, (k + 1) as nat), key) == cols[c].lookup(key));
    }
    assert forall|k1: int, k2: int| 0 <= k1 < n && 0 <= k2 < n && k1 != k2 implies #[trigger] ((k1 + 1) % n)
        != #[trigger] ((k2 + 1) % n) by {
        let a: int = if k1 + 1 == n { 0 } else { k1 + 1 };
        let b: int = if k2 + 1 == n { 0 } else { k2 + 1 };
        if k1 + 1 < n {
            vstd::arithmetic::div_mod::lemma_small_mod((k1 + 1) as nat, n as nat);
        }
        if k2 + 1 < n {
            vstd::arithmetic::div_mod::lemma_small_mod((k2 + 1) as nat, n as nat);
        }
        assert((k1 + 1) % n == a);
        assert((k2 + 1) % n == b);
    }
}

/// Indexed sources, kept in the order in which the next lookup will search them.
pub struct Brain<T> {
    collections: Vec<HashedData<T>>,
}

impl<T: Copy> Brain<T> {
    /// The collections, in current search order.
    pub closed spec fn collections(&self) -> Seq<HashedData<T>> {
        self.collections@
    }

    /// Every collection is a well-formed index.
    pub open spec fn wf(&self) -> bool {
        forall|i: int| 0 <= i < self.collections().len() ==> (#[trigger] self.collections()[i]).wf()
    }

    /// A library with no collections.
    pub fn new() -> (r: Self)
        ensures
            r.wf(),
            r.collections() == Seq::<HashedData<T>>::empty(),
    {
        let r = Brain { collections: Vec::new() };
        assert(r.collections() =~= Seq::<HashedData<T>>::empty());
        r
    }

    /// Adds a collection at the end of the current search order.
    pub fn add_collection(&mut self, data: HashedData<T>)
        requires
            old(self).wf(),
            data.wf(),
        ensures
            final(self).wf(),
            final(self).collections() == old(self).collections().push(data),
    {
        self.collections.push(data);
    }

    /// Rotates the search order by one (also when there is nothing to search), then
    /// returns the block stored for `key` by the first collection in the new order
    /// that has it.
    pub fn get_block(&mut self, key: String) -> (r: Option<Vec<T>>)
        requires
            old(self).wf(),
        ensures
            final(self).wf(),
            final(self).collections() == rotate(old(self).collections()),
            opt_view(r) == search(rotate(old(self).collections()), key@),
    {
        let ghost before = self.collections@;
        if self.collections.len() > 0 {
            let first = self.collections.remove(0);
            self.collections.push(first);
            assert(self.collections@ =~= rotate(before));
        }
        assert(self.collections@ == rotate(before));
        assert forall|i: int| 0 <= i < self.collections().len() implies (#[trigger] self.collections()[i]).wf() by {
            if i < before.len() - 1 {
                assert(self.collections()[i] == before[i + 1]);
            } else {
                assert(self.collections()[i] == before[0]);
            }
        }
        let ghost cols = self.collections@;
        assert(cols.subrange(0, cols.len() as int) =~= cols);
        let mut i: usize = 0;
        while i < self.collections.len()
            invariant
                i <= self.collections.len(),
                cols == self.collections@,
                cols == rotate(before),
                before == old(self).collections@,
                self.wf(),
                search(cols, key@) == search(cols.subrange(i as int, cols.len() as int), key@),
            decreases self.collections.len() - i,
        {
            let ghost rest = cols.subrange(i as int, cols.len() as int);
            assert(rest[0] == cols[i as int]);
            assert(self.collections()[i as int].wf());
            if let Some(b) = self.collections[i].get_block(&key) {
                return Some(b);
            }
            assert(rest.drop_first() =~= cols.subrange(i + 1, cols.len() as int));
            i = i + 1;
        }
        None
    }
}

} // verus!
