//! Turning per-segment bucket levels of a block into a key string.
use vstd::prelude::*;

verus! {

/// Number of distinct symbols a key character can take.
pub const ALPHABET_LEN: usize = 25;

/// The ordered key alphabet: the lower-case letters without 'd'.
pub open spec fn alphabet() -> Seq<char> {
    seq![
        'a', 'b', 'c', 'e', 'f', 'g', 'h', 'i', 'j', 'k', 'l', 'm', 'n', 'o', 'p', 'q', 'r',
        's', 't', 'u', 'v', 'w', 'x', 'y', 'z',
    ]
}

/// How many symbols of the alphabet a key may use: `num_buckets` held to `1..=25`.
pub open spec fn bucket_count(num_buckets: nat) -> nat {
    if num_buckets < 1 {
        1
    } else if num_buckets > ALPHABET_LEN {
        ALPHABET_LEN as nat
    } else {
        num_buckets
    }
}

/// Length of one key segment inside a block; zero when the key is longer than the block.
pub open spec fn segment_len_spec(block_size: nat, key_size: nat) -> nat {
    if key_size == 0 {
        0
    } else {
        block_size / key_size
    }
}

/// The bucket that a raw level lands in: the level clamped to the last bucket,
/// and bucket 0 throughout when segments are empty.
pub open spec fn clamp_bucket(raw: nat, block_size: nat, key_size: nat, num_buckets: nat) -> nat {
    if segment_len_spec(block_size, key_size) == 0 {
        0
    } else if raw >= bucket_count(num_buckets) {
        (bucket_count(num_buckets) - 1) as nat
    } else {
        raw
    }
}

/// The key of a block whose segments reached the raw bucket levels `raw`.
pub open spec fn key_spec(raw: Seq<usize>, block_size: nat, key_size: nat, num_buckets: nat) -> Seq<char> {
    Seq::new(
        raw.len(),
        |i: int| alphabet()[clamp_bucket(raw[i] as nat, block_size, key_size, num_buckets) as int],
    )
}

/// Whether every character of `key` is one of the first `bucket_count(num_buckets)` symbols.
pub open spec fn in_alphabet_prefix(key: Seq<char>, num_buckets: nat) -> bool {
    forall|i: int|
        0 <= i < key.len() ==> exists|j: int|
            0 <= j < bucket_count(num_buckets) && #[trigger] key[i] == alphabet()[j]
}

/// The number of alphabet symbols in use for `num_buckets`.
pub fn bucket_count_of(num_buckets: usize) -> (r: usize)
    ensures
        r == bucket_count(num_buckets as nat),
        1 <= r <= ALPHABET_LEN,
{
    if num_buckets < 1 {
        1
    } else if num_buckets > ALPHABET_LEN {
        ALPHABET_LEN
    } else {
        num_buckets
    }
}

/// Samples per key segment of a block (`block_size / key_size`, zero for an empty key).
pub fn segment_len(block_size: usize, key_size: usize) -> (r: usize)
    ensures
        r == segment_len_spec(block_size as nat, key_size as nat),
{
    if key_size == 0 {
        0
    } else {
        block_size / key_size
    }
}

/// The alphabet symbol for bucket `idx`.
pub fn bucket_char(idx: usize) -> (c: char)
    requires
        idx < ALPHABET_LEN,
    ensures
        c == alphabet()[idx as int],
{
    let chars: Vec<char> = vec![
        'a', 'b', 'c', 'e', 'f', 'g', 'h', 'i', 'j', 'k', 'l', 'm', 'n', 'o', 'p', 'q', 'r',
        's', 't', 'u', 'v', 'w', 'x', 'y', 'z',
    ];
    assert(chars@ =~= alphabet());
    chars[idx]
}

/// Relies on `String::push`: the character is appended at the end.
#[verifier::external_body]
fn push_char(s: &mut String, c: char)
    ensures
        final(s)@ == old(s)@.push(c),
{
    s.push(c)
}

/// Builds the key of a block from the raw bucket level of each of its `key_size`
/// segments (the segment mean of normalised samples times the bucket count, rounded
/// down). Each level is clamped to the last bucket; when the key is longer than the
/// block every segment is empty and every character is the first symbol.
pub fn derive_key(raw: &Vec<usize>, block_size: usize, key_size: usize, num_buckets: usize) -> (key: String)
    requires
        raw.len() == key_size,
    ensures
        key@ == key_spec(raw@, block_size as nat, key_size as nat, num_buckets as nat),
        key@.len() == key_size,
        in_alphabet_prefix(key@, num_buckets as nat),
{
    let n = bucket_count_of(num_buckets);
    let seg = segment_len(block_size, key_size);
    let mut key = String::new();
    let mut k: usize = 0;
    while k < key_size
        invariant
            raw.len() == key_size,
            k <= key_size,
            n == bucket_count(num_buckets as nat),
            seg == segment_len_spec(block_size as nat, key_size as nat),
            key@ =~= key_spec(raw@.subrange(0, k as int), block_size as nat, key_size as nat, num_buckets as nat),
        decreases key_size - k,
    {
        let idx: usize = if seg == 0 {
            0
        } else if raw[k] >= n {
            n - 1
        } else {
            raw[k]
        };
        let c = bucket_char(idx);
        push_char(&mut key, c);
        k = k + 1;
        assert(key@ =~= key_spec(raw@.subrange(0, k as int), block_size as nat, key_size as nat, num_buckets as nat));
    }
    assert(raw@.subrange(0, key_size as int) =~= raw@);
    proof {
        lemma_key_in_prefix(raw@, block_size as nat, key_size as nat, num_buckets as nat);
    }
    key
}

/// Every key is made of symbols from the alphabet prefix in use.
pub proof fn lemma_key_in_prefix(raw: Seq<usize>, block_size: nat, key_size: nat, num_buckets: nat)
    ensures
        key_spec(raw, block_size, key_size, num_buckets).len() == raw.len(),
        in_alphabet_prefix(key_spec(raw, block_size, key_size, num_buckets), num_buckets),
{
    let key = key_spec(raw, block_size, key_size, num_buckets);
    assert forall|i: int| 0 <= i < key.len() implies exists|j: int|
        0 <= j < bucket_count(num_buckets) && #[trigger] key[i] == alphabet()[j] by {
        let j = clamp_bucket(raw[i] as nat, block_size, key_size, num_buckets) as int;
        assert(key[i] == alphabet()[j]);
    }
}

/// A key depends on nothing but its inputs: the same levels and sizes give the same key.
pub proof fn lemma_key_deterministic(
    raw1: Seq<usize>,
    raw2: Seq<usize>,
    block_size: nat,
    key_size: nat,
    num_buckets: nat,
)
    requires
        raw1 == raw2,
    ensures
        key_spec(raw1, block_size, key_size, num_buckets) == key_spec(raw2, block_size, key_size, num_buckets),
{
}

} // verus!
