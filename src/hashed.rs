//! Padding, block segmentation and the key-to-block index.
use vstd::prelude::*;

use crate::quantize::{derive_key, in_alphabet_prefix, key_spec, lemma_key_in_prefix};

verus! {

/// Length of a sample sequence of length `n` after padding to blocks of `b`:
/// the next multiple of `b`, and one whole block for an empty sequence.
pub open spec fn pad_len(n: nat, b: nat) -> nat
    recommends
        b > 0,
{
    if n == 0 {
        b
    } else {
        b * ((n + b - 1) as nat / b)
    }
}

/// The padded sequence: `s` followed by copies of its last sample, or by `zero`
/// when `s` is empty, up to `pad_len`.
pub open spec fn pad_spec<T>(s: Seq<T>, b: nat, zero: T) -> Seq<T> {
    let fill = if s.len() == 0 { zero } else { s.last() };
    s + Seq::new((pad_len(s.len(), b) - s.len()) as nat, |i: int| fill)
}

/// Block `i` of a padded sequence.
pub open spec fn block_at<T>(s: Seq<T>, b: nat, i: int) -> Seq<T> {
    s.subrange(i * b, (i + 1) * b)
}

/// Every block of a padded sequence has the block length.
proof fn lemma_block_len<T>(s: Seq<T>, b: nat, i: int)
    requires
        b > 0,
        s.len() % b == 0,
        0 <= i < s.len() / b,
    ensures
        block_at(s, b, i).len() == b,
{
    vstd::arithmetic::div_mod::lemma_fundamental_div_mod(s.len() as int, b as int);
    vstd::arithmetic::mul::lemma_mul_inequality(i + 1, (s.len() / b) as int, b as int);
    vstd::arithmetic::mul::lemma_mul_is_distributive_add_other_way(b as int, i, 1);
    assert(i * b >= 0) by (nonlinear_arith) requires i >= 0, b > 0;
}

pub(crate) proof fn lemma_pad_len(n: nat, b: nat)
    requires
        b > 0,
    ensures
        pad_len(n, b) % b == 0,
        pad_len(n, b) >= n,
        pad_len(n, b) > 0,
        pad_len(n, b) <= n + b,
{
    if n > 0 {
        let q = (n + b - 1) as nat / b;
        let r = (n + b - 1) as nat % b;
        vstd::arithmetic::div_mod::lemma_fundamental_div_mod((n + b - 1) as int, b as int);
        vstd::arithmetic::div_mod::lemma_mod_multiples_basic(q as int, b as int);
        assert(b * q == q * b) by (nonlinear_arith);
        assert(b * q >= n);
    } else {
        vstd::arithmetic::div_mod::lemma_mod_self_0(b as int);
    }
}

/// Pads `data` up to a whole number of blocks of `block_size` samples, repeating the
/// last sample (or `zero` for empty input). Nothing is ever cut off.
pub fn pad<T: Copy>(data: &Vec<T>, block_size: usize, zero: T) -> (r: Vec<T>)
    requires
        block_size > 0,
        data.len() + block_size <= usize::MAX,
    ensures
        r@ == pad_spec(data@, block_size as nat, zero),
        r@.len() == pad_len(data@.len(), block_size as nat),
        r@.len() % (block_size as nat) == 0,
        r@.len() >= data@.len(),
        data@.len() == 0 ==> r@ == Seq::new(block_size as nat, |i: int| zero),
{
    proof {
        lemma_pad_len(data@.len(), block_size as nat);
    }
    let n = data.len();
    let target: usize = if n == 0 {
        block_size
    } else {
        block_size * ((n + block_size - 1) / block_size)
    };
    let fill = if n == 0 { zero } else { data[n - 1] };
    let mut out: Vec<T> = Vec::new();
    let mut i: usize = 0;
    while i < n
        invariant
            i <= n,
            n == data.len(),
            out@ =~= data@.subrange(0, i as int),
        decreases n - i,
    {
        out.push(data[i]);
        i = i + 1;
    }
    while out.len() < target
        invariant
            n <= out.len() <= target,
            target == pad_len(n as nat, block_size as nat),
            out@ =~= data@ + Seq::new((out.len() - n) as nat, |j: int| fill),
        decreases target - out.len(),
    {
        out.push(fill);
    }
    assert(out@ =~= pad_spec(data@, block_size as nat, zero));
    proof {
        if n == 0 {
            assert(out@ =~= Seq::new(block_size as nat, |j: int| zero));
        }
    }
    out
}

/// Cuts a padded sequence into its consecutive blocks of `block_size` samples.
pub fn split_blocks<T: Copy>(padded: &Vec<T>, block_size: usize) -> (r: Vec<Vec<T>>)
    requires
        block_size > 0,
        padded.len() % block_size == 0,
    ensures
        r.len() == padded@.len() / (block_size as nat),
        forall|i: int| 0 <= i < r.len() ==> #[trigger] r[i]@ == block_at(padded@, block_size as nat, i),
{
    let num_blocks = padded.len() / block_size;
    let mut blocks: Vec<Vec<T>> = Vec::new();
    let mut bi: usize = 0;
    while bi < num_blocks
        invariant
            bi <= num_blocks,
            num_blocks == padded@.len() / (block_size as nat),
            padded.len() % block_size == 0,
            block_size > 0,
            blocks.len() == bi,
            forall|i: int| 0 <= i < bi ==> #[trigger] blocks[i]@ == block_at(padded@, block_size as nat, i),
        decreases num_blocks - bi,
    {
        proof {
            vstd::arithmetic::div_mod::lemma_fundamental_div_mod(padded.len() as int, block_size as int);
            vstd::arithmetic::mul::lemma_mul_inequality(bi as int + 1, num_blocks as int, block_size as int);
            vstd::arithmetic::mul::lemma_mul_is_distributive_add_other_way(block_size as int, bi as int, 1);
        }
        let start = bi * block_size;
        let mut block: Vec<T> = Vec::new();
        let mut j: usize = 0;
        while j < block_size
            invariant
                j <= block_size,
                start == bi * block_size,
                start + block_size <= padded.len(),
                block@ =~= padded@.subrange(start as int, start + j),
            decreases block_size - j,
        {
            block.push(padded[start + j]);
            j = j + 1;
        }
        blocks.push(block);
        bi = bi + 1;
    }
    blocks
}

/// The entries of an index built from `data`: block `i` of the padded samples under
/// the key of its bucket levels `levels[i]`.
pub open spec fn keyed_blocks<T>(
    data: Seq<T>,
    block_size: nat,
    key_size: nat,
    num_buckets: nat,
    zero: T,
    levels: Seq<Seq<usize>>,
) -> Seq<EntryView<T>> {
    Seq::new(
        levels.len(),
        |i: int|
            (
                key_spec(levels[i], block_size, key_size, num_buckets),
                block_at(pad_spec(data, block_size, zero), block_size, i),
            ),
    )
}

/// The number of blocks in `n` samples once padded to blocks of `b`.
pub open spec fn num_blocks(n: nat, b: nat) -> nat {
    pad_len(n, b) / b
}

/// A recorded (key, block) entry, as plain sequences.
pub type EntryView<T> = (Seq<char>, Seq<T>);

/// The plain-sequence view of a list of (key, block) entries.
pub open spec fn entries_view<T>(v: Seq<(String, Vec<T>)>) -> Seq<EntryView<T>> {
    Seq::new(v.len(), |i: int| (v[i].0@, v[i].1@))
}

/// The block of the earliest entry recorded under `key`, if any.
pub open spec fn first_block<T>(s: Seq<EntryView<T>>, key: Seq<char>) -> Option<Seq<T>>
    decreases s.len(),
{
    if s.len() == 0 {
        None
    } else {
        match first_block(s.drop_last(), key) {
            Some(b) => Some(b),
            None => if s.last().0 == key {
                Some(s.last().1)
            } else {
                None
            },
        }
    }
}

/// The plain-sequence view of an optional block.
pub open spec fn opt_view<T>(o: Option<Vec<T>>) -> Option<Seq<T>> {
    match o {
        Some(b) => Some(b@),
        None => None,
    }
}

/// No key is recorded twice.
pub open spec fn keys_distinct<T>(s: Seq<EntryView<T>>) -> bool {
    forall|i: int, j: int| 0 <= i < j < s.len() ==> #[trigger] s[i].0 != #[trigger] s[j].0
}

/// A key has no block exactly when no entry carries it.
pub proof fn lemma_first_block_none<T>(s: Seq<EntryView<T>>, key: Seq<char>)
    ensures
        first_block(s, key) is None <==> forall|i: int| 0 <= i < s.len() ==> #[trigger] s[i].0 != key,
    decreases s.len(),
{
    if s.len() > 0 {
        let d = s.drop_last();
        lemma_first_block_none(d, key);
        assert(forall|i: int| 0 <= i < d.len() ==> #[trigger] d[i] == s[i]);
        if first_block(s, key) is None {
            assert forall|i: int| 0 <= i < s.len() implies #[trigger] s[i].0 != key by {
                if i < d.len() {
                    assert(d[i] == s[i]);
                }
            }
        } else if first_block(d, key) is Some {
            let i = choose|i: int| 0 <= i < d.len() && #[trigger] d[i].0 == key;
            assert(s[i].0 == key);
        } else {
            assert(s[s.len() - 1].0 == key);
        }
    }
}

/// Entries added after the first one with `key` do not change its block.
pub proof fn lemma_first_block_prefix<T>(s: Seq<EntryView<T>>, n: int, key: Seq<char>)
    requires
        0 <= n <= s.len(),
        first_block(s.subrange(0, n), key) is Some,
    ensures
        first_block(s, key) == first_block(s.subrange(0, n), key),
    decreases s.len(),
{
    if n < s.len() {
        assert(s.drop_last().subrange(0, n) =~= s.subrange(0, n));
        lemma_first_block_prefix(s.drop_last(), n, key);
    } else {
        assert(s.subrange(0, n) =~= s);
    }
}

/// First wins: of all entries with the same key, the earliest one's block is the
/// one found, whatever later entries with that key hold.
pub proof fn lemma_first_wins<T>(s: Seq<EntryView<T>>, i: int, key: Seq<char>)
    requires
        0 <= i < s.len(),
        s[i].0 == key,
        forall|m: int| 0 <= m < i ==> #[trigger] s[m].0 != key,
    ensures
        first_block(s, key) == Some(s[i].1),
{
    let p = s.subrange(0, i + 1);
    assert(p.drop_last() =~= s.subrange(0, i));
    lemma_first_block_none(s.subrange(0, i), key);
    lemma_first_block_prefix(s, i + 1, key);
}

/// The blocks of a sample source, each under its key: every entry in source order,
/// and for each key the block of its first entry.
pub struct HashedData<T> {
    block_size: usize,
    key_len: usize,
    data: Vec<T>,
    hashed_data: Vec<(String, Vec<T>)>,
    ordered_data: Vec<(String, Vec<T>)>,
}

/// Copies a block sample by sample.
fn copy_block<T: Copy>(b: &Vec<T>) -> (r: Vec<T>)
    ensures
        r@ == b@,
{
    let mut r: Vec<T> = Vec::new();
    let mut i: usize = 0;
    while i < b.len()
        invariant
            i <= b.len(),
            r@ =~= b@.subrange(0, i as int),
        decreases b.len() - i,
    {
        r.push(b[i]);
        i = i + 1;
    }
    assert(b@.subrange(0, b.len() as int) =~= b@);
    r
}

/// Position of the first entry of `v` with `key`.
fn find_key<T>(v: &Vec<(String, Vec<T>)>, key: &String) -> (r: Option<usize>)
    ensures
        match r {
            Some(i) => i < v.len() && v@[i as int].0@ == key@ && first_block(entries_view(v@), key@)
                == Some(v@[i as int].1@),
            None => first_block(entries_view(v@), key@) is None,
        },
{
    let ghost s = entries_view(v@);
    let mut i: usize = 0;
    while i < v.len()
        invariant
            i <= v.len(),
            s == entries_view(v@),
            forall|m: int| 0 <= m < i ==> #[trigger] s[m].0 != key@,
        decreases v.len() - i,
    {
        if v[i].0 == *key {
            proof {
                lemma_first_wins(s, i as int, key@);
            }
            return Some(i);
        }
        i = i + 1;
    }
    proof {
        lemma_first_block_none(s, key@);
    }
    None
}

impl<T: Copy> HashedData<T> {
    /// Every entry in source order.
    pub closed spec fn ordered(&self) -> Seq<EntryView<T>> {
        entries_view(self.ordered_data@)
    }

    /// The deduplicated key-to-block mapping, one entry per key.
    pub closed spec fn mapping(&self) -> Seq<EntryView<T>> {
        entries_view(self.hashed_data@)
    }

    /// The samples the index was built from, before padding.
    pub closed spec fn source(&self) -> Seq<T> {
        self.data@
    }

    /// The block length the index was built with.
    pub closed spec fn block_size_spec(&self) -> nat {
        self.block_size as nat
    }

    /// The key length the index was built with.
    pub closed spec fn key_len_spec(&self) -> nat {
        self.key_len as nat
    }

    /// The block stored for `key`: that of its first entry.
    pub open spec fn lookup(&self, key: Seq<char>) -> Option<Seq<T>> {
        first_block(self.ordered(), key)
    }

    /// The mapping holds each key once, with the block of its first entry in order.
    pub closed spec fn wf(&self) -> bool {
        &&& keys_distinct(self.mapping())
        &&& forall|k: Seq<char>| #[trigger] first_block(self.mapping(), k) == first_block(self.ordered(), k)
    }

    /// An index with no entries yet, for a source of `data` cut in blocks of
    /// `block_size` under keys of `key_len` characters.
    pub fn new(block_size: usize, key_len: usize, data: &Vec<T>) -> (r: Self)
        ensures
            r.wf(),
            r.ordered() == Seq::<EntryView<T>>::empty(),
            r.source() == data@,
            r.block_size_spec() == block_size,
            r.key_len_spec() == key_len,
    {
        let r = HashedData {
            block_size,
            key_len,
            data: copy_block(data),
            hashed_data: Vec::new(),
            ordered_data: Vec::new(),
        };
        assert(r.ordered() =~= Seq::<EntryView<T>>::empty());
        assert(r.mapping() =~= Seq::<EntryView<T>>::empty());
        r
    }

    /// Records `block` under `key`: always at the end of the ordered entries, and in
    /// the mapping only if the key is new there.
    pub fn insert(&mut self, key: String, block: Vec<T>)
        requires
            old(self).wf(),
        ensures
            final(self).wf(),
            final(self).ordered() == old(self).ordered().push((key@, block@)),
            final(self).source() == old(self).source(),
            final(self).block_size_spec() == old(self).block_size_spec(),
            final(self).key_len_spec() == old(self).key_len_spec(),
    {
        let ghost old_ord = self.ordered();
        let ghost old_map = self.mapping();
        let ghost kv = key@;
        let ghost bv = block@;
        let found = find_key(&self.hashed_data, &key);
        if found.is_none() {
            let k2 = key.clone();
            let b2 = copy_block(&block);
            self.hashed_data.push((k2, b2));
            assert(self.mapping() =~= old_map.push((kv, bv)));
            proof {
                lemma_first_block_none(old_map, kv);
                assert(old_map.push((kv, bv)).drop_last() =~= old_map);
            }
        } else {
            assert(self.mapping() == old_map);
        }
        self.ordered_data.push((key, block));
        assert(self.ordered() =~= old_ord.push((kv, bv)));
        proof {
            assert(old_ord.push((kv, bv)).drop_last() =~= old_ord);
            assert forall|k: Seq<char>| #[trigger] first_block(self.mapping(), k) == first_block(self.ordered(), k) by {
                if found.is_none() {
                    assert(old_map.push((kv, bv)).drop_last() =~= old_map);
                    assert(first_block(old_map, k) == first_block(old_ord, k));
                } else {
                    assert(first_block(old_map, k) == first_block(old_ord, k));
                    assert(first_block(old_map, kv) is Some);
                }
            }
        }
    }

    /// The block recorded first under `key`, if any entry has that key.
    pub fn get_block(&self, key: &String) -> (r: Option<Vec<T>>)
        requires
            self.wf(),
        ensures
            opt_view(r) == self.lookup(key@),
    {
        match find_key(&self.hashed_data, key) {
            Some(i) => {
                assert(first_block(self.mapping(), key@) == first_block(self.ordered(), key@));
                Some(copy_block(&self.hashed_data[i].1))
            },
            None => {
                assert(first_block(self.mapping(), key@) == first_block(self.ordered(), key@));
                None
            },
        }
    }

    /// Indexes `data`: pads it to whole blocks of `block_size` (see `pad`), cuts it into
    /// blocks, and records each block in order under the key of its bucket levels
    /// (`levels[i]`: one raw level per key segment of block `i`, see `derive_key`).
    /// Empty input becomes one block of `zero` samples.
    pub fn hash(
        block_size: usize,
        key_size: usize,
        num_buckets: usize,
        data: &Vec<T>,
        zero: T,
        levels: &Vec<Vec<usize>>,
    ) -> (h: Self)
        requires
            block_size > 0,
            data.len() + block_size <= usize::MAX,
            levels.len() == num_blocks(data.len() as nat, block_size as nat),
            forall|i: int| 0 <= i < levels.len() ==> (#[trigger] levels[i]).len() == key_size,
        ensures
            h.wf(),
            h.ordered() == keyed_blocks(
                data@,
                block_size as nat,
                key_size as nat,
                num_buckets as nat,
                zero,
                levels@.map_values(|l: Vec<usize>| l@),
            ),
            h.source() == data@,
            h.block_size_spec() == block_size,
            h.key_len_spec() == key_size,
            forall|i: int|
                0 <= i < h.ordered().len() ==> {
                    &&& (#[trigger] h.ordered()[i]).1.len() == block_size
                    &&& h.ordered()[i].0.len() == key_size
                    &&& in_alphabet_prefix(h.ordered()[i].0, num_buckets as nat)
                },
            data.len() == 0 ==> h.ordered() == seq![
                (
                    key_spec(levels[0]@, block_size as nat, key_size as nat, num_buckets as nat),
                    Seq::new(block_size as nat, |i: int| zero),
                ),
            ],
    {
        let padded = pad(data, block_size, zero);
        let blocks = split_blocks(&padded, block_size);
        let ghost lv = levels@.map_values(|l: Vec<usize>| l@);
        let ghost want = keyed_blocks(data@, block_size as nat, key_size as nat, num_buckets as nat, zero, lv);
        let mut h = Self::new(block_size, key_size, data);
        let mut i: usize = 0;
        while i < blocks.len()
            invariant
                i <= blocks.len(),
                blocks.len() == levels.len(),
                padded@ == pad_spec(data@, block_size as nat, zero),
                forall|j: int| 0 <= j < blocks.len() ==> #[trigger] blocks[j]@ == block_at(padded@, block_size as nat, j),
                forall|j: int| 0 <= j < levels.len() ==> (#[trigger] levels[j]).len() == key_size,
                lv == levels@.map_values(|l: Vec<usize>| l@),
                want == keyed_blocks(data@, block_size as nat, key_size as nat, num_buckets as nat, zero, lv),
                h.wf(),
                h.ordered() =~= want.subrange(0, i as int),
                h.source() == data@,
                h.block_size_spec() == block_size,
                h.key_len_spec() == key_size,
            decreases blocks.len() - i,
        {
            let key = derive_key(&levels[i], block_size, key_size, num_buckets);
            let block = copy_block(&blocks[i]);
            h.insert(key, block);
            i = i + 1;
            assert(h.ordered() =~= want.subrange(0, i as int));
        }
        assert(want.subrange(0, i as int) =~= want);
        proof {
            lemma_pad_len(data@.len(), block_size as nat);
            assert forall|i: int| 0 <= i < want.len() implies {
                &&& (#[trigger] want[i]).1.len() == block_size
                &&& want[i].0.len() == key_size
                &&& in_alphabet_prefix(want[i].0, num_buckets as nat)
            } by {
                lemma_block_len(padded@, block_size as nat, i);
                lemma_key_in_prefix(lv[i], block_size as nat, key_size as nat, num_buckets as nat);
            }
            if data.len() == 0 {
                vstd::arithmetic::div_mod::lemma_div_by_self(block_size as int);
                assert(block_at(padded@, block_size as nat, 0) =~= padded@);
                assert(want =~= seq![
                    (
                        key_spec(levels[0]@, block_size as nat, key_size as nat, num_buckets as nat),
                        Seq::new(block_size as nat, |i: int| zero),
                    ),
                ]);
            }
        }
        h
    }

    /// A copy of every recorded entry, duplicates included, in source order.
    pub fn get_ordered_data(&self) -> (r: Vec<(String, Vec<T>)>)
        ensures
            entries_view(r@) == self.ordered(),
    {
        let mut r: Vec<(String, Vec<T>)> = Vec::new();
        let mut i: usize = 0;
        while i < self.ordered_data.len()
            invariant
                i <= self.ordered_data.len(),
                r.len() == i,
                entries_view(r@) =~= entries_view(self.ordered_data@).subrange(0, i as int),
            decreases self.ordered_data.len() - i,
        {
            let ghost prev = r@;
            let k = self.ordered_data[i].0.clone();
            let b = copy_block(&self.ordered_data[i].1);
            r.push((k, b));
            assert(r@ == prev.push((k, b)));
            assert(entries_view(r@)[i as int] == entries_view(self.ordered_data@)[i as int]);
            assert(forall|j: int| 0 <= j < i ==> #[trigger] entries_view(r@)[j] == entries_view(prev)[j]);
            i = i + 1;
            assert(entries_view(r@) =~= entries_view(self.ordered_data@).subrange(0, i as int));
        }
        assert(entries_view(self.ordered_data@).subrange(0, i as int) =~= self.ordered());
        r
    }
}

} // verus!
