use audio_mosaic::brain::Brain;
use audio_mosaic::hashed::{pad, split_blocks, HashedData};
use audio_mosaic::mosaic::{assemble, find_matches};
use audio_mosaic::quantize::{bucket_count_of, derive_key, segment_len};

fn index_of(key: &str, blocks: Vec<Vec<f32>>) -> HashedData<f32> {
    let mut h = HashedData::new(blocks[0].len(), key.len(), &Vec::new());
    for b in blocks {
        h.insert(String::from(key), b);
    }
    h
}

#[test]
fn pad_repeats_last_sample() {
    let r = pad(&vec![1.0f32, 2.0, 3.0], 4, 0.0);
    assert_eq!(r, vec![1.0, 2.0, 3.0, 3.0]);
    assert_eq!(r.len() % 4, 0);
}

#[test]
fn pad_keeps_whole_blocks() {
    let r = pad(&vec![1.0f32, 2.0, 3.0, 4.0], 2, 0.0);
    assert_eq!(r, vec![1.0, 2.0, 3.0, 4.0]);
}

#[test]
fn pad_empty_is_one_silent_block() {
    let r = pad(&Vec::<f32>::new(), 3, 0.0);
    assert_eq!(r, vec![0.0, 0.0, 0.0]);
}

#[test]
fn pad_never_truncates() {
    let data: Vec<f32> = (0..7).map(|i| i as f32).collect();
    let r = pad(&data, 5, 0.0);
    assert_eq!(r.len(), 10);
    assert_eq!(&r[..7], &data[..]);
    assert_eq!(&r[7..], &[6.0, 6.0, 6.0]);
}

#[test]
fn split_blocks_in_order() {
    let r = split_blocks(&vec![1.0f32, 2.0, 3.0, 4.0, 5.0, 6.0], 2);
    assert_eq!(r, vec![vec![1.0, 2.0], vec![3.0, 4.0], vec![5.0, 6.0]]);
}

#[test]
fn derive_key_maps_levels_to_symbols() {
    assert_eq!(derive_key(&vec![0, 1, 2, 3], 8, 4, 4), "abce");
}

#[test]
fn derive_key_clamps_to_last_bucket() {
    assert_eq!(derive_key(&vec![4, 9, 0], 6, 3, 4), "eea");
}

#[test]
fn derive_key_bucket_count_bounds() {
    assert_eq!(derive_key(&vec![3, 0], 4, 2, 0), "aa");
    assert_eq!(derive_key(&vec![24, 30, 3], 3, 3, 100), "zze");
    assert_eq!(bucket_count_of(0), 1);
    assert_eq!(bucket_count_of(40), 25);
    assert_eq!(bucket_count_of(7), 7);
}

#[test]
fn derive_key_degenerate_segments() {
    assert_eq!(segment_len(2, 4), 0);
    assert_eq!(derive_key(&vec![1, 2, 3, 1], 2, 4, 4), "aaaa");
}

#[test]
fn derive_key_length_and_alphabet() {
    let levels: Vec<usize> = (0..16).collect();
    let key = derive_key(&levels, 64, 16, 4);
    assert_eq!(key.chars().count(), 16);
    assert!(key.chars().all(|c| "abce".contains(c)));
    assert!(!key.contains('d'));
}

#[test]
fn derive_key_same_input_same_key() {
    let levels = vec![2, 0, 1, 3];
    assert_eq!(derive_key(&levels, 8, 4, 4), derive_key(&levels, 8, 4, 4));
}

#[test]
fn hash_empty_input_is_one_silent_block() {
    let h = HashedData::<f32>::hash(4, 2, 4, &Vec::new(), 0.0, &vec![vec![0, 1]]);
    assert_eq!(h.get_ordered_data(), vec![(String::from("ab"), vec![0.0, 0.0, 0.0, 0.0])]);
    assert_eq!(h.get_block(&String::from("ab")), Some(vec![0.0, 0.0, 0.0, 0.0]));
}

#[test]
fn hash_first_block_wins() {
    let data = vec![1.0f32, 2.0, 3.0, 4.0, 5.0, 6.0];
    let levels = vec![vec![1, 2], vec![3, 0], vec![1, 2]];
    let h = HashedData::hash(2, 2, 4, &data, 0.0, &levels);
    assert_eq!(h.get_block(&String::from("bc")), Some(vec![1.0, 2.0]));
    assert_eq!(h.get_block(&String::from("ea")), Some(vec![3.0, 4.0]));
    assert_eq!(h.get_block(&String::from("zz")), None);
    let ordered = h.get_ordered_data();
    assert_eq!(
        ordered,
        vec![
            (String::from("bc"), vec![1.0, 2.0]),
            (String::from("ea"), vec![3.0, 4.0]),
            (String::from("bc"), vec![5.0, 6.0]),
        ]
    );
}

#[test]
fn hash_pads_last_block() {
    let data = vec![1.0f32, 2.0, 3.0];
    let h = HashedData::hash(2, 1, 4, &data, 0.0, &vec![vec![0], vec![1]]);
    assert_eq!(h.get_block(&String::from("b")), Some(vec![3.0, 3.0]));
}

#[test]
fn brain_rotates_before_each_lookup() {
    let mut brain = Brain::new();
    brain.add_collection(index_of("x", vec![vec![1.0f32]]));
    brain.add_collection(index_of("x", vec![vec![2.0f32]]));
    brain.add_collection(index_of("x", vec![vec![3.0f32]]));
    assert_eq!(brain.get_block(String::from("x")), Some(vec![2.0]));
    assert_eq!(brain.get_block(String::from("x")), Some(vec![3.0]));
    assert_eq!(brain.get_block(String::from("x")), Some(vec![1.0]));
    assert_eq!(brain.get_block(String::from("x")), Some(vec![2.0]));
}

#[test]
fn brain_searches_past_collections_without_key() {
    let mut brain = Brain::new();
    brain.add_collection(index_of("x", vec![vec![1.0f32]]));
    brain.add_collection(index_of("y", vec![vec![2.0f32]]));
    assert_eq!(brain.get_block(String::from("x")), Some(vec![1.0]));
    assert_eq!(brain.get_block(String::from("y")), Some(vec![2.0]));
    assert_eq!(brain.get_block(String::from("z")), None);
}

#[test]
fn empty_brain_finds_nothing() {
    let mut brain: Brain<f32> = Brain::new();
    assert_eq!(brain.get_block(String::from("x")), None);
}

#[test]
fn no_match_emits_silence_or_target() {
    let entries = vec![(String::from("ab"), vec![1.0f32, 2.0]), (String::from("ba"), vec![3.0, 4.0])];
    let found = vec![None, Some(vec![7.0, 8.0])];
    let blended = vec![None, Some(vec![5.0, 6.0])];
    assert_eq!(assemble(&entries, &found, &blended, false, 0.0), vec![0.0, 0.0, 7.0, 8.0]);
    assert_eq!(assemble(&entries, &found, &blended, true, 0.0), vec![1.0, 2.0, 5.0, 6.0]);
}

#[test]
fn find_matches_one_lookup_per_entry() {
    let mut brain = Brain::new();
    brain.add_collection(index_of("x", vec![vec![1.0f32]]));
    brain.add_collection(index_of("x", vec![vec![2.0f32]]));
    let entries = vec![
        (String::from("x"), vec![0.0f32]),
        (String::from("q"), vec![0.0]),
        (String::from("x"), vec![0.0]),
    ];
    let r = find_matches(&entries, &mut brain);
    assert_eq!(r, vec![Some(vec![2.0]), None, Some(vec![2.0])]);
}

#[test]
fn end_to_end_mix_half() {
    let target = vec![1.0f32, 2.0, 3.0, 4.0, 5.0, 6.0, 7.0, 8.0];
    // Levels of [1,2,3,4]: normalised over [0,4], segment means 0.375 and 0.875,
    // times 4 buckets: 1 and 3. Of [5,6,7,8]: over [0,8], means 0.6875 and 0.9375.
    let levels = vec![vec![1, 3], vec![2, 3]];
    let h = HashedData::hash(4, 2, 4, &target, 0.0, &levels);
    let entries = h.get_ordered_data();
    assert_eq!(entries[0].0, "be");
    let mut brain = Brain::new();
    brain.add_collection(index_of("be", vec![vec![9.0f32, 9.0, 9.0, 9.0]]));
    let found = find_matches(&entries, &mut brain);
    let mix = 0.5f32;
    let blended: Vec<Option<Vec<f32>>> = found
        .iter()
        .zip(entries.iter())
        .map(|(f, (_, t))| {
            f.as_ref().map(|b| b.iter().zip(t.iter()).map(|(v, x)| v * (1.0 - mix) + x * mix).collect())
        })
        .collect();
    let out = assemble(&entries, &found, &blended, true, 0.0);
    assert_eq!(out.len(), 8);
    assert_eq!(&out[..4], &[5.0, 5.5, 6.0, 6.5]);
    assert_eq!(&out[4..], &[5.0, 6.0, 7.0, 8.0]);
}

#[test]
fn unmatched_brain_block_is_used_raw_without_target() {
    let entries = vec![(String::from("ab"), vec![1.0f32, 2.0])];
    let found = vec![Some(vec![7.0, 8.0])];
    let blended = vec![Some(vec![4.0, 5.0])];
    assert_eq!(assemble(&entries, &found, &blended, false, 0.0), vec![7.0, 8.0]);
}
