use extsort::check::{check, check_blocks};
use extsort::error::SortError;
use extsort::generate::generate;
use extsort::sort::{plan_runs, run_offset, sort, sort_blocks, split};
use extsort::BLOCK_SIZE;
use rand::rngs::SmallRng;
use rand::SeedableRng;

fn block(fill: u8) -> Vec<u8> {
    vec![fill; BLOCK_SIZE]
}

fn random_bytes(seed: u64, len: usize) -> Vec<u8> {
    generate(&mut SmallRng::seed_from_u64(seed), len)
}

fn join(blocks: &[Vec<u8>]) -> Vec<u8> {
    let mut all = Vec::new();
    for b in blocks {
        all.extend_from_slice(b);
    }
    all
}

fn sorted_by_std(bytes: &[u8], bs: usize) -> Vec<u8> {
    let mut blocks: Vec<&[u8]> = bytes.chunks(bs).collect();
    blocks.sort();
    blocks.concat()
}

fn is_monotone(bytes: &[u8], bs: usize) -> bool {
    let blocks: Vec<&[u8]> = bytes.chunks(bs).collect();
    blocks.windows(2).all(|w| w[0] <= w[1])
}

#[test]
fn two_run_toy() {
    let input = b"dcbahgfebadcfeHg".to_vec();
    let sorted = sort_blocks(&input, 4, 8).unwrap();
    assert_eq!(sorted.output, b"badcdcbafeHghgfe".to_vec());
    assert_eq!(sorted.runs, vec![b"dcbahgfe".to_vec(), b"badcfeHg".to_vec()]);
}

#[test]
fn already_sorted_is_unchanged() {
    let input = join(&[block(0x41), block(0x41), block(0x41), block(0x41)]);
    assert_eq!(input.len(), 16 * 1024);
    let sorted = sort(&input, 8192).unwrap();
    assert_eq!(sorted.output, input);
}

#[test]
fn reverse_sorted_is_reversed() {
    let mut blocks = Vec::new();
    for k in 0..8u8 {
        blocks.push(block(7 - k));
    }
    let input = join(&blocks);
    let sorted = sort(&input, 2 * BLOCK_SIZE).unwrap();
    assert_eq!(sorted.output.len(), 8 * BLOCK_SIZE);
    for k in 0..8usize {
        assert_eq!(&sorted.output[k * BLOCK_SIZE..(k + 1) * BLOCK_SIZE], &block(k as u8)[..]);
    }
}

#[test]
fn duplicates_come_out_adjacent() {
    let input = join(&[block(9), block(3), block(9), block(1)]);
    let sorted = sort(&input, 2 * BLOCK_SIZE).unwrap();
    assert_eq!(sorted.output, join(&[block(1), block(3), block(9), block(9)]));
    assert_eq!(sorted_by_std(&sorted.output, BLOCK_SIZE), sorted_by_std(&input, BLOCK_SIZE));
}

#[test]
fn multi_run_random_blocks() {
    let input = random_bytes(11, 32768);
    let sorted = sort(&input, 8192).unwrap();
    assert_eq!(sorted.output.len(), 32768);
    assert!(is_monotone(&sorted.output, BLOCK_SIZE));
    assert_eq!(sorted.output, sorted_by_std(&input, BLOCK_SIZE));
    assert_eq!(sorted.runs.len(), 4);
    for (i, run) in sorted.runs.iter().enumerate() {
        assert_eq!(run.len(), 8192);
        assert!(is_monotone(run, BLOCK_SIZE));
        assert_eq!(*run, sorted_by_std(&input[i * 8192..(i + 1) * 8192], BLOCK_SIZE));
    }
}

#[test]
fn sorting_twice_changes_nothing() {
    let input = random_bytes(12, 8 * BLOCK_SIZE);
    let first = sort(&input, 2 * BLOCK_SIZE).unwrap();
    let second = sort(&first.output, 2 * BLOCK_SIZE).unwrap();
    assert_eq!(second.output, first.output);
}

#[test]
fn sorting_twice_with_other_run_size_changes_nothing() {
    let input = b"zzzzaaaammmmbbbbyyyycccc".to_vec();
    let first = sort_blocks(&input, 4, 8).unwrap();
    let second = sort_blocks(&first.output, 4, 12).unwrap();
    assert_eq!(first.output, b"aaaabbbbccccmmmmyyyyzzzz".to_vec());
    assert_eq!(second.output, first.output);
}

#[test]
fn output_is_a_permutation_of_the_blocks() {
    let input = b"ccccaaaaccccbbbbaaaadddd".to_vec();
    let sorted = sort_blocks(&input, 4, 12).unwrap();
    assert_eq!(sorted.output, b"aaaaaaaabbbbccccccccdddd".to_vec());
    assert_eq!(sorted.runs, vec![b"aaaacccccccc".to_vec(), b"aaaabbbbdddd".to_vec()]);
}

#[test]
fn bytes_are_compared_unsigned() {
    let input = vec![0x80, 0x00, 0x7f, 0xff, 0xff, 0x00, 0x00, 0xff];
    let sorted = sort_blocks(&input, 2, 4).unwrap();
    assert_eq!(sorted.output, vec![0x00, 0xff, 0x7f, 0xff, 0x80, 0x00, 0xff, 0x00]);
}

#[test]
fn leftmost_byte_is_most_significant() {
    let input = vec![1, 9, 2, 0, 1, 8, 0, 9];
    let sorted = sort_blocks(&input, 2, 8).unwrap();
    assert_eq!(sorted.output, vec![0, 9, 1, 8, 1, 9, 2, 0]);
}

#[test]
fn single_run_holds_the_whole_source() {
    let input = b"ddddccccbbbbaaaa".to_vec();
    let sorted = sort_blocks(&input, 4, 16).unwrap();
    assert_eq!(sorted.output, b"aaaabbbbccccdddd".to_vec());
    assert_eq!(sorted.runs, vec![b"aaaabbbbccccdddd".to_vec()]);
}

#[test]
fn runs_of_one_block_are_merged() {
    let input = b"ddddccccbbbbaaaa".to_vec();
    let sorted = sort_blocks(&input, 4, 4).unwrap();
    assert_eq!(sorted.output, b"aaaabbbbccccdddd".to_vec());
    assert_eq!(
        sorted.runs,
        vec![b"dddd".to_vec(), b"cccc".to_vec(), b"bbbb".to_vec(), b"aaaa".to_vec()]
    );
}

#[test]
fn check_accepts_what_sort_leaves() {
    let input = random_bytes(13, 6 * BLOCK_SIZE);
    let sorted = sort(&input, 3 * BLOCK_SIZE).unwrap();
    assert_eq!(check(&sorted.runs, &sorted.output), Ok(()));
    let toy = sort_blocks(b"dcbahgfebadcfeHg", 4, 8).unwrap();
    assert_eq!(check_blocks(&toy.runs, &toy.output, 4), Ok(()));
}

#[test]
fn unaligned_source_is_refused() {
    let input = vec![0u8; BLOCK_SIZE + 1];
    assert_eq!(sort(&input, BLOCK_SIZE), Err(SortError::NotBlockAligned));
    assert_eq!(sort_blocks(b"abcde", 4, 4), Err(SortError::NotBlockAligned));
}

#[test]
fn zero_run_size_is_refused() {
    let input = block(1);
    assert_eq!(sort(&input, 0), Err(SortError::BadRunSize));
}

#[test]
fn run_size_off_the_block_grid_is_refused() {
    let input = join(&[block(1), block(2)]);
    assert_eq!(sort(&input, BLOCK_SIZE + 1), Err(SortError::BadRunSize));
    assert_eq!(sort_blocks(b"aaaabbbbcccc", 4, 6), Err(SortError::BadRunSize));
}

#[test]
fn too_small_is_refused() {
    let input = block(1);
    assert_eq!(sort(&input, 8192), Err(SortError::TooSmall));
}

#[test]
fn empty_source_is_too_small() {
    assert_eq!(sort(&[], BLOCK_SIZE), Err(SortError::TooSmall));
}

#[test]
fn residual_bytes_are_refused() {
    let input = join(&[block(3), block(2), block(1)]);
    assert_eq!(sort(&input, 2 * BLOCK_SIZE), Err(SortError::ResidualBytes));
}

#[test]
fn alignment_is_checked_first() {
    assert_eq!(sort_blocks(b"abcde", 4, 0), Err(SortError::NotBlockAligned));
    assert_eq!(sort_blocks(b"abcde", 4, 8), Err(SortError::NotBlockAligned));
}

#[test]
fn size_is_checked_before_the_run_grid() {
    assert_eq!(sort_blocks(b"abcd", 4, 6), Err(SortError::TooSmall));
    assert_eq!(sort_blocks(b"abcdabcd", 4, 6), Err(SortError::BadRunSize));
    assert_eq!(sort_blocks(b"abcd", 4, 0), Err(SortError::BadRunSize));
}

#[test]
fn sort_errors_have_words() {
    assert_eq!(SortError::NotBlockAligned.message(), "The source is not block-aligned");
    assert_eq!(
        SortError::BadRunSize.message(),
        "The run size is not a positive multiple of the block size"
    );
    assert_eq!(SortError::TooSmall.message(), "The source is smaller than one run");
    assert_eq!(SortError::ResidualBytes.message(), "The source is not a whole number of runs");
    assert_eq!(SortError::Corruption { run: 12 }.message(), "Run 12 is cut short");
    assert_eq!(SortError::NoPermit.message(), "The split concurrency must be one at least");
}

#[test]
fn plan_counts_the_runs() {
    assert_eq!(plan_runs(32768, 4096, 8192), Ok(4));
    assert_eq!(plan_runs(4096, 4096, 4096), Ok(1));
    assert_eq!(plan_runs(0, 4096, 4096), Err(SortError::TooSmall));
    assert_eq!(plan_runs(4097, 4096, 4096), Err(SortError::NotBlockAligned));
    assert_eq!(plan_runs(8192, 4096, 100), Err(SortError::BadRunSize));
    assert_eq!(plan_runs(12288, 4096, 8192), Err(SortError::ResidualBytes));
}

#[test]
fn run_offsets_are_multiples_of_the_run_size() {
    assert_eq!(run_offset(0, 8192), Some(0));
    assert_eq!(run_offset(3, 8192), Some(24576));
    assert_eq!(run_offset(usize::MAX, 2), None);
}

#[test]
fn split_sorts_each_stretch() {
    let runs = split(b"ddddaaaaccccbbbb", 4, 8).unwrap();
    assert_eq!(runs, vec![b"aaaadddd".to_vec(), b"bbbbcccc".to_vec()]);
    assert_eq!(split(b"ddddaaaacccc", 4, 8), Err(SortError::ResidualBytes));
}
