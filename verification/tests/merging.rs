use extsort::block::{block_le, block_ref, bytes_le, store_block};
use extsort::error::SortError;
use extsort::heap::BlockHeap;
use extsort::kway::merge_runs;
use extsort::merge::Merger;
use extsort::run::{sort_run, sorted_order};

#[test]
fn bytes_order_is_lexicographic() {
    assert!(bytes_le(b"abc", b"abd"));
    assert!(!bytes_le(b"abd", b"abc"));
    assert!(bytes_le(b"abc", b"abc"));
    assert!(bytes_le(b"ab", b"abc"));
    assert!(!bytes_le(b"abc", b"ab"));
    assert!(bytes_le(b"", b""));
    assert!(bytes_le(b"", b"a"));
    assert!(bytes_le(&[0x7f], &[0x80]));
    assert!(!bytes_le(&[0xff, 0x00], &[0x00, 0xff]));
}

#[test]
fn blocks_are_found_by_number() {
    let buf = b"aaaabbbbcccc";
    assert_eq!(block_ref(buf, 4, 0), b"aaaa");
    assert_eq!(block_ref(buf, 4, 2), b"cccc");
    assert!(block_le(buf, 4, 0, 1));
    assert!(!block_le(buf, 4, 2, 1));
    assert!(block_le(buf, 4, 1, 1));
}

#[test]
fn store_block_overwrites_one_block() {
    let mut buf = b"aaaabbbbcccc".to_vec();
    store_block(&mut buf, 4, 1, b"xyzw");
    assert_eq!(buf, b"aaaaxyzwcccc".to_vec());
}

#[test]
fn heap_pops_smallest_first() {
    let buf = b"ddddbbbbeeeeaaaacccc".to_vec();
    let mut heap = BlockHeap::new();
    assert!(heap.is_empty());
    for id in 0..5 {
        heap.push(&buf, 4, id);
    }
    assert_eq!(heap.len(), 5);
    let mut order = Vec::new();
    while let Some(id) = heap.pop(&buf, 4) {
        order.push(id);
    }
    assert_eq!(order, vec![3, 1, 4, 0, 2]);
    assert!(heap.is_empty());
    assert_eq!(heap.pop(&buf, 4), None);
}

#[test]
fn heap_keeps_equal_blocks() {
    let buf = b"bbbbaaaabbbbaaaa".to_vec();
    let mut heap = BlockHeap::new();
    for id in 0..4 {
        heap.push(&buf, 4, id);
    }
    let mut popped = Vec::new();
    while let Some(id) = heap.pop(&buf, 4) {
        popped.push(block_ref(&buf, 4, id).to_vec());
    }
    assert_eq!(
        popped,
        vec![b"aaaa".to_vec(), b"aaaa".to_vec(), b"bbbb".to_vec(), b"bbbb".to_vec()]
    );
}

#[test]
fn sorted_order_names_the_blocks_smallest_first() {
    assert_eq!(sorted_order(b"ddddbbbbeeeeaaaacccc", 4), vec![3, 1, 4, 0, 2]);
    assert_eq!(sorted_order(b"", 4), Vec::<usize>::new());
    assert_eq!(sorted_order(b"zzzz", 4), vec![0]);
}

#[test]
fn sorted_order_leaves_out_a_cut_block() {
    assert_eq!(sorted_order(b"bbbbaaaacc", 4), vec![1, 0]);
    assert_eq!(sorted_order(b"abc", 4), Vec::<usize>::new());
}

#[test]
fn sorted_order_names_each_of_equal_blocks() {
    let buf = b"bbbbaaaabbbbaaaa";
    let order = sorted_order(buf, 4);
    let mut numbers = order.clone();
    numbers.sort();
    assert_eq!(numbers, vec![0, 1, 2, 3]);
    let mut written = Vec::new();
    for id in order {
        written.extend_from_slice(block_ref(buf, 4, id));
    }
    assert_eq!(written, b"aaaaaaaabbbbbbbb".to_vec());
    assert_eq!(written, sort_run(buf, 4));
}

#[test]
fn sort_run_sorts_the_blocks() {
    assert_eq!(sort_run(b"ccccaaaabbbbaaaa", 4), b"aaaaaaaabbbbcccc".to_vec());
    assert_eq!(sort_run(b"", 4), Vec::<u8>::new());
    assert_eq!(sort_run(b"zzzz", 4), b"zzzz".to_vec());
}

#[test]
fn sort_run_leaves_out_a_cut_block() {
    assert_eq!(sort_run(b"bbbbaaaacc", 4), b"aaaabbbb".to_vec());
}

fn drive(runs: &[&[u8]], bs: usize) -> Result<Vec<u8>, SortError> {
    let mut merger = Merger::new(runs.len(), bs);
    let mut at = vec![0usize; runs.len()];
    let mut out = Vec::new();
    while let Some(run) = merger.awaiting() {
        let end = (at[run] + bs).min(runs[run].len());
        let data = &runs[run][at[run]..end];
        at[run] = end;
        if let Some(block) = merger.feed(data)? {
            out.extend_from_slice(&block);
        }
    }
    Ok(out)
}

#[test]
fn merger_asks_for_every_run_first() {
    let mut merger = Merger::new(3, 2);
    assert_eq!(merger.awaiting(), Some(0));
    assert_eq!(merger.feed(b"cc"), Ok(None));
    assert_eq!(merger.awaiting(), Some(1));
    assert_eq!(merger.feed(b"aa"), Ok(None));
    assert_eq!(merger.awaiting(), Some(2));
    assert_eq!(merger.feed(b"bb"), Ok(Some(b"aa".to_vec())));
    assert_eq!(merger.awaiting(), Some(1));
    assert_eq!(merger.feed(b"dd"), Ok(Some(b"bb".to_vec())));
    assert_eq!(merger.awaiting(), Some(2));
    assert_eq!(merger.feed(b""), Ok(Some(b"cc".to_vec())));
    assert_eq!(merger.awaiting(), Some(0));
    assert_eq!(merger.feed(b""), Ok(Some(b"dd".to_vec())));
    assert_eq!(merger.awaiting(), Some(1));
    assert_eq!(merger.feed(b""), Ok(None));
    assert_eq!(merger.awaiting(), None);
    assert_eq!(merger.feed(b"zz"), Ok(None));
    assert_eq!(merger.awaiting(), None);
}

#[test]
fn merger_keeps_one_block_for_each_run() {
    let mut merger = Merger::new(3, 4096);
    assert_eq!(merger.head_bytes(), 3 * 4096);
    assert_eq!(merger.feed(&[7u8; 4096]), Ok(None));
    assert_eq!(merger.head_bytes(), 3 * 4096);
    assert_eq!(Merger::new(0, 4096).head_bytes(), 0);
}

#[test]
fn merger_without_runs_is_done() {
    let mut merger = Merger::new(0, 4);
    assert_eq!(merger.awaiting(), None);
    assert_eq!(merger.feed(b"aaaa"), Ok(None));
}

#[test]
fn merger_drops_a_run_that_is_empty_from_the_start() {
    assert_eq!(drive(&[b"", b"bbbbcccc", b""], 4), Ok(b"bbbbcccc".to_vec()));
    assert_eq!(drive(&[b"", b""], 4), Ok(Vec::new()));
}

#[test]
fn merger_reports_a_short_read() {
    let mut merger = Merger::new(2, 4);
    assert_eq!(merger.feed(b"aaaa"), Ok(None));
    assert_eq!(merger.feed(b"bb"), Err(SortError::Corruption { run: 1 }));
    assert_eq!(merger.awaiting(), None);
}

#[test]
fn merger_reports_a_long_read() {
    let mut merger = Merger::new(1, 4);
    assert_eq!(merger.feed(b"aaaaa"), Err(SortError::Corruption { run: 0 }));
}

#[test]
fn merger_merges_sorted_runs() {
    let runs: [&[u8]; 3] = [b"aaaaddddgggg", b"bbbbeeee", b"ccccffffhhhhiiii"];
    assert_eq!(drive(&runs, 4), Ok(b"aaaabbbbccccddddeeeeffffgggghhhhiiii".to_vec()));
}

#[test]
fn merge_runs_merges_in_memory() {
    let runs = vec![b"aaaadddd".to_vec(), b"bbbbcccc".to_vec(), b"aaaaeeee".to_vec()];
    assert_eq!(merge_runs(&runs, 4), Ok(b"aaaaaaaabbbbccccddddeeee".to_vec()));
    assert_eq!(merge_runs(&Vec::new(), 4), Ok(Vec::new()));
}

#[test]
fn merge_runs_keeps_every_block_of_unsorted_runs() {
    let runs = vec![b"ddddaaaa".to_vec(), b"cccc".to_vec()];
    let merged = merge_runs(&runs, 4).unwrap();
    let mut blocks: Vec<&[u8]> = merged.chunks(4).collect();
    blocks.sort();
    assert_eq!(blocks.concat(), b"aaaaccccdddd".to_vec());
}

#[test]
fn merge_runs_reports_a_cut_run() {
    let runs = vec![b"aaaadddd".to_vec(), b"bbbbcc".to_vec()];
    assert_eq!(merge_runs(&runs, 4), Err(SortError::Corruption { run: 1 }));
}
