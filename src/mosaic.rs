//! The mosaic pass: every target block, in order, is looked up in the library and
//! replaced by what was found, by the target block itself, or by silence.
use vstd::prelude::*;

use crate::brain::{rotate_n, search, Brain};
use crate::hashed::{block_at, entries_view, keyed_blocks, num_blocks, opt_view, pad_len, pad_spec, EntryView};

verus! {

/// The samples emitted for one target block. With a match: the blend (`blended`) when
/// the target is in use, else the library's block itself. Without one: the target
/// block itself when the target is in use, else silence (`zero`) of the same length.
pub open spec fn emitted<T>(
    target: Seq<T>,
    found: Option<Seq<T>>,
    blended: Option<Seq<T>>,
    use_target: bool,
    zero: T,
) -> Seq<T> {
    match found {
        Some(b) => if use_target {
            blended->Some_0
        } else {
            b
        },
        None => if use_target {
            target
        } else {
            Seq::new(target.len(), |i: int| zero)
        },
    }
}

/// The blocks joined end to end, in order.
pub open spec fn concat<T>(blocks: Seq<Seq<T>>) -> Seq<T>
    decreases blocks.len(),
{
    if blocks.len() == 0 {
        Seq::empty()
    } else {
        concat(blocks.drop_last()) + blocks.last()
    }
}

/// The blocks emitted for `entries` given what was found and blended for each.
pub open spec fn emitted_blocks<T>(
    entries: Seq<EntryView<T>>,
    found: Seq<Option<Seq<T>>>,
    blended: Seq<Option<Seq<T>>>,
    use_target: bool,
    zero: T,
) -> Seq<Seq<T>> {
    Seq::new(entries.len(), |i: int| emitted(entries[i].1, found[i], blended[i], use_target, zero))
}

/// The target blocks of `entries`, in order.
pub open spec fn target_blocks<T>(entries: Seq<EntryView<T>>) -> Seq<Seq<T>> {
    Seq::new(entries.len(), |i: int| entries[i].1)
}

/// Whether the found and blended blocks fit the entries: one of each per entry, every
/// found block as long as its target block, and a blend of that length for every
/// match when the target is in use.
pub open spec fn choices_fit<T>(
    entries: Seq<EntryView<T>>,
    found: Seq<Option<Seq<T>>>,
    blended: Seq<Option<Seq<T>>>,
    use_target: bool,
) -> bool {
    &&& found.len() == entries.len()
    &&& blended.len() == entries.len()
    &&& forall|i: int|
        0 <= i < entries.len() && (#[trigger] found[i]) is Some ==> {
            &&& found[i]->Some_0.len() == entries[i].1.len()
            &&& use_target ==> blended[i] is Some && blended[i]->Some_0.len() == entries[i].1.len()
        }
}

/// Joined blocks that all have length `b` lay out block `j` at `j * b .. (j + 1) * b`.
pub proof fn lemma_concat_uniform<T>(blocks: Seq<Seq<T>>, b: nat)
    requires
        forall|i: int| 0 <= i < blocks.len() ==> (#[trigger] blocks[i]).len() == b,
    ensures
        concat(blocks).len() == blocks.len() * b,
        forall|j: int|
            0 <= j < blocks.len() ==> #[trigger] concat(blocks).subrange(j * b, (j + 1) * b) == blocks[j],
    decreases blocks.len(),
{
    if blocks.len() > 0 {
        let n = blocks.len() as int;
        let d = blocks.drop_last();
        lemma_concat_uniform(d, b);
        vstd::arithmetic::mul::lemma_mul_is_distributive_add_other_way(b as int, n - 1, 1);
        let c = concat(blocks);
        assert(c == concat(d) + blocks.last());
        assert forall|j: int| 0 <= j < n implies #[trigger] c.subrange(j * b, (j + 1) * b) == blocks[j] by {
            vstd::arithmetic::mul::lemma_mul_is_distributive_add_other_way(b as int, j, 1);
            if j < n - 1 {
                vstd::arithmetic::mul::lemma_mul_inequality(j + 1, n - 1, b as int);
                assert(d[j] == blocks[j]);
                assert(c.subrange(j * b, (j + 1) * b) =~= concat(d).subrange(j * b, (j + 1) * b));
            } else {
                assert(c.subrange(j * b, (j + 1) * b) =~= blocks.last());
            }
        }
    }
}

/// The first `m` blocks of `s`, joined, are the first `m * b` samples of `s`.
proof fn lemma_blocks_prefix<T>(s: Seq<T>, b: nat, m: nat)
    requires
        b > 0,
        m * b <= s.len(),
    ensures
        concat(Seq::new(m, |i: int| block_at(s, b, i))) == s.subrange(0, (m * b) as int),
    decreases m,
{
    if m == 0 {
        assert(m * b == 0) by (nonlinear_arith) requires m == 0;
        assert(s.subrange(0, 0) =~= Seq::<T>::empty());
    } else {
        let m1 = (m - 1) as nat;
        assert(m * b == m1 * b + b) by (nonlinear_arith)
            requires
                m == m1 + 1,
        ;
        assert((m1 + 1) * b == m * b);
        lemma_blocks_prefix(s, b, m1);
        let x = Seq::new(m, |i: int| block_at(s, b, i));
        assert(x.drop_last() =~= Seq::new(m1, |i: int| block_at(s, b, i)));
        assert(x.last() == block_at(s, b, m1 as int));
        assert(concat(x) == concat(x.drop_last()) + x.last());
        assert(s.subrange(0, (m1 * b) as int) + block_at(s, b, m1 as int) =~= s.subrange(0, (m * b) as int));
    }
}

/// An index covers its input: its blocks, joined in order, are the input padded to
/// whole blocks, a multiple of the block length and never shorter than the input.
pub proof fn lemma_index_covers_padding<T>(
    data: Seq<T>,
    block_size: nat,
    key_size: nat,
    num_buckets: nat,
    zero: T,
    levels: Seq<Seq<usize>>,
)
    requires
        block_size > 0,
        levels.len() == num_blocks(data.len(), block_size),
    ensures
        concat(target_blocks(keyed_blocks(data, block_size, key_size, num_buckets, zero, levels))) == pad_spec(
            data,
            block_size,
            zero,
        ),
        pad_spec(data, block_size, zero).len() % block_size == 0,
        pad_spec(data, block_size, zero).len() >= data.len(),
{
    let p = pad_spec(data, block_size, zero);
    let n = num_blocks(data.len(), block_size);
    crate::hashed::lemma_pad_len(data.len(), block_size);
    assert(p.len() == pad_len(data.len(), block_size));
    vstd::arithmetic::div_mod::lemma_fundamental_div_mod(p.len() as int, block_size as int);
    assert(n * block_size == p.len()) by (nonlinear_arith)
        requires
            p.len() == block_size * (p.len() / block_size) + p.len() % block_size,
            p.len() % block_size == 0,
            n == p.len() / block_size,
    ;
    lemma_blocks_prefix(p, block_size, n);
    assert(target_blocks(keyed_blocks(data, block_size, key_size, num_buckets, zero, levels)) =~= Seq::new(
        n,
        |i: int| block_at(p, block_size, i),
    ));
    assert(p.subrange(0, (n * block_size) as int) =~= p);
}

/// Indexing has no hidden state: the same samples, sizes and levels give the same
/// entries, and so the same lookups.
pub proof fn lemma_index_deterministic<T>(
    data1: Seq<T>,
    data2: Seq<T>,
    block_size: nat,
    key_size: nat,
    num_buckets: nat,
    zero: T,
    levels1: Seq<Seq<usize>>,
    levels2: Seq<Seq<usize>>,
)
    requires
        data1 == data2,
        levels1 == levels2,
    ensures
        keyed_blocks(data1, block_size, key_size, num_buckets, zero, levels1) == keyed_blocks(
            data2,
            block_size,
            key_size,
            num_buckets,
            zero,
            levels2,
        ),
        forall|k: Seq<char>|
            #[trigger] crate::hashed::first_block(keyed_blocks(data1, block_size, key_size, num_buckets, zero, levels1), k)
                == crate::hashed::first_block(keyed_blocks(data2, block_size, key_size, num_buckets, zero, levels2), k),
{
}

/// Joined sequences of pairwise equal lengths have equal lengths.
proof fn lemma_concat_same_len<T>(a: Seq<Seq<T>>, c: Seq<Seq<T>>)
    requires
        a.len() == c.len(),
        forall|i: int| 0 <= i < a.len() ==> (#[trigger] a[i]).len() == c[i].len(),
    ensures
        concat(a).len() == concat(c).len(),
    decreases a.len(),
{
    if a.len() > 0 {
        lemma_concat_same_len(a.drop_last(), c.drop_last());
    }
}

/// Output layout: when every target block has `b` samples, the output of a pass has
/// `b` samples per entry, and at `j * b .. (j + 1) * b` holds what is emitted for entry
/// `j`: in particular the target block or `b` silent samples where nothing matched.
pub proof fn lemma_output_layout<T>(
    entries: Seq<EntryView<T>>,
    found: Seq<Option<Seq<T>>>,
    blended: Seq<Option<Seq<T>>>,
    use_target: bool,
    zero: T,
    b: nat,
)
    requires
        choices_fit(entries, found, blended, use_target),
        forall|i: int| 0 <= i < entries.len() ==> (#[trigger] entries[i]).1.len() == b,
    ensures
        concat(emitted_blocks(entries, found, blended, use_target, zero)).len() == entries.len() * b,
        forall|j: int|
            0 <= j < entries.len() ==> #[trigger] concat(emitted_blocks(entries, found, blended, use_target, zero)).subrange(
                j * b,
                (j + 1) * b,
            ) == emitted(entries[j].1, found[j], blended[j], use_target, zero),
        forall|j: int|
            0 <= j < entries.len() && #[trigger] found[j] is None ==> concat(
                emitted_blocks(entries, found, blended, use_target, zero),
            ).subrange(j * b, (j + 1) * b) == if use_target {
                entries[j].1
            } else {
                Seq::new(b, |i: int| zero)
            },
{
    let e = emitted_blocks(entries, found, blended, use_target, zero);
    assert forall|i: int| 0 <= i < e.len() implies (#[trigger] e[i]).len() == b by {
        assert(entries[i].1.len() == b);
        if found[i] is Some {
        }
    }
    lemma_concat_uniform(e, b);
    assert forall|j: int| 0 <= j < entries.len() && #[trigger] found[j] is None implies concat(e).subrange(
        j * b,
        (j + 1) * b,
    ) == if use_target {
        entries[j].1
    } else {
        Seq::new(b, |i: int| zero)
    } by {
        assert(e[j] == emitted(entries[j].1, found[j], blended[j], use_target, zero));
        assert(entries[j].1.len() == b);
        if !use_target {
            assert(e[j] =~= Seq::new(b, |i: int| zero));
        }
    }
}

/// Looks up the key of every entry in the library, in order, one lookup per entry.
/// Lookup `i` searches the collections after `i + 1` rotations.
pub fn find_matches<T: Copy>(entries: &Vec<(String, Vec<T>)>, brain: &mut Brain<T>) -> (r: Vec<Option<Vec<T>>>)
    requires
        old(brain).wf(),
    ensures
        final(brain).wf(),
        final(brain).collections() == rotate_n(old(brain).collections(), entries.len() as nat),
        r.len() == entries.len(),
        forall|i: int|
            0 <= i < r.len() ==> opt_view(#[trigger] r[i]) == search(
                rotate_n(old(brain).collections(), (i + 1) as nat),
                entries[i].0@,
            ),
{
    let ghost start = brain.collections();
    let mut r: Vec<Option<Vec<T>>> = Vec::new();
    let mut i: usize = 0;
    while i < entries.len()
        invariant
            i <= entries.len(),
            r.len() == i,
            brain.wf(),
            start == old(brain).collections(),
            brain.collections() == rotate_n(start, i as nat),
            forall|j: int|
                0 <= j < i ==> opt_view(#[trigger] r[j]) == search(rotate_n(start, (j + 1) as nat), entries[j].0@),
        decreases entries.len() - i,
    {
        let key = entries[i].0.clone();
        let found = brain.get_block(key);
        r.push(found);
        i = i + 1;
    }
    r
}

/// Joins, in order, the samples emitted for each entry (see `emitted`): `found[i]` is
/// the library's block for entry `i` (`None` where nothing matched), and `blended[i]`
/// its blend with the target block, used in place of the match when the target is in
/// use. The output is as long as the target blocks together.
pub fn assemble<T: Copy>(
    entries: &Vec<(String, Vec<T>)>,
    found: &Vec<Option<Vec<T>>>,
    blended: &Vec<Option<Vec<T>>>,
    use_target: bool,
    zero: T,
) -> (r: Vec<T>)
    requires
        choices_fit(
            entries_view(entries@),
            found@.map_values(|c: Option<Vec<T>>| opt_view(c)),
            blended@.map_values(|c: Option<Vec<T>>| opt_view(c)),
            use_target,
        ),
    ensures
        r@ == concat(
            emitted_blocks(
                entries_view(entries@),
                found@.map_values(|c: Option<Vec<T>>| opt_view(c)),
                blended@.map_values(|c: Option<Vec<T>>| opt_view(c)),
                use_target,
                zero,
            ),
        ),
        r@.len() == concat(target_blocks(entries_view(entries@))).len(),
{
    let ghost ev = entries_view(entries@);
    let ghost fv = found@.map_values(|c: Option<Vec<T>>| opt_view(c));
    let ghost bv = blended@.map_values(|c: Option<Vec<T>>| opt_view(c));
    let ghost want = emitted_blocks(ev, fv, bv, use_target, zero);
    let mut out: Vec<T> = Vec::new();
    let mut i: usize = 0;
    while i < entries.len()
        invariant
            i <= entries.len(),
            ev == entries_view(entries@),
            fv == found@.map_values(|c: Option<Vec<T>>| opt_view(c)),
            bv == blended@.map_values(|c: Option<Vec<T>>| opt_view(c)),
            choices_fit(ev, fv, bv, use_target),
            want == emitted_blocks(ev, fv, bv, use_target, zero),
            out@ == concat(want.subrange(0, i as int)),
        decreases entries.len() - i,
    {
        let ghost base = out@;
        let target = &entries[i].1;
        let ghost piece = want[i as int];
        assert(fv[i as int] == opt_view(found@[i as int]));
        assert(bv[i as int] == opt_view(blended@[i as int]));
        let src: &Vec<T> = match &found[i] {
            Some(b) => {
                if use_target {
                    match &blended[i] {
                        Some(m) => m,
                        None => target,
                    }
                } else {
                    b
                }
            },
            None => target,
        };
        if found[i].is_none() && !use_target {
            let mut j: usize = 0;
            while j < target.len()
                invariant
                    j <= target.len(),
                    out@ =~= base + piece.subrange(0, j as int),
                    piece == Seq::new(target@.len(), |k: int| zero),
                decreases target.len() - j,
            {
                out.push(zero);
                j = j + 1;
            }
            assert(piece.subrange(0, target.len() as int) =~= piece);
        } else {
            assert(piece == src@);
            let mut j: usize = 0;
            while j < src.len()
                invariant
                    j <= src.len(),
                    out@ =~= base + src@.subrange(0, j as int),
                decreases src.len() - j,
            {
                out.push(src[j]);
                j = j + 1;
            }
            assert(src@.subrange(0, src.len() as int) =~= piece);
        }
        assert(want.subrange(0, i + 1).drop_last() =~= want.subrange(0, i as int));
        i = i + 1;
    }
    assert(want.subrange(0, i as int) =~= want);
    proof {
        let tb = target_blocks(ev);
        assert forall|k: int| 0 <= k < want.len() implies (#[trigger] want[k]).len() == tb[k].len() by {
            if fv[k] is Some {
            }
        }
        lemma_concat_same_len(want, tb);
    }
    out
}

} // verus!
