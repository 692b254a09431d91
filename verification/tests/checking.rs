use extsort::check::{check, check_blocks, check_file, BlockChecker, CheckError, CheckFailure};
use extsort::BLOCK_SIZE;

#[test]
fn checker_rejects_an_inversion() {
    let mut file = vec![0xffu8; BLOCK_SIZE];
    file.extend_from_slice(&vec![0x00u8; BLOCK_SIZE]);
    assert_eq!(file.len(), 8192);
    assert_eq!(
        check(&Vec::new(), &file),
        Err(CheckFailure::File { error: CheckError::Inversion { block: 0 } })
    );
}

#[test]
fn check_errors_have_words() {
    assert_eq!(CheckError::NoBlock.message(), "The file holds no whole block");
    assert_eq!(
        CheckError::Inversion { block: 0 }.message(),
        "Block 0 is less than the previous one"
    );
    assert_eq!(
        CheckError::Inversion { block: 1048575 }.message(),
        "Block 1048575 is less than the previous one"
    );
}

#[test]
fn checker_accepts_equal_blocks() {
    assert_eq!(check_file(b"aaaaaaaaaaaa", 4), Ok(()));
}

#[test]
fn checker_accepts_one_block() {
    assert_eq!(check_file(b"zzzz", 4), Ok(()));
}

#[test]
fn checker_refuses_a_file_without_a_block() {
    assert_eq!(check_file(b"", 4), Err(CheckError::NoBlock));
    assert_eq!(check_file(b"abc", 4), Err(CheckError::NoBlock));
}

#[test]
fn checker_ignores_bytes_behind_the_last_block() {
    assert_eq!(check_file(b"aaaabbbba", 4), Ok(()));
    assert_eq!(check_file(b"bbbbaaaab", 4), Err(CheckError::Inversion { block: 0 }));
}

#[test]
fn checker_names_the_first_inversion() {
    assert_eq!(check_file(b"aaaabbbbccccbbbbaaaa", 4), Err(CheckError::Inversion { block: 2 }));
}

#[test]
fn checker_rejects_a_single_inversion_at_the_end() {
    assert_eq!(check_file(b"aaaabbbbccccddddcccd", 4), Err(CheckError::Inversion { block: 3 }));
}

#[test]
fn checker_compares_unsigned() {
    assert_eq!(check_file(&[0x7f, 0x80], 1), Ok(()));
    assert_eq!(check_file(&[0x80, 0x7f], 1), Err(CheckError::Inversion { block: 0 }));
}

#[test]
fn runs_are_checked_before_the_file() {
    let runs = vec![b"aaaabbbb".to_vec(), b"bbbbaaaa".to_vec(), b"".to_vec()];
    assert_eq!(
        check_blocks(&runs, b"ddddcccc", 4),
        Err(CheckFailure::Run { index: 1, error: CheckError::Inversion { block: 0 } })
    );
}

#[test]
fn an_empty_run_is_refused() {
    let runs = vec![b"aaaabbbb".to_vec(), b"".to_vec()];
    assert_eq!(
        check_blocks(&runs, b"aaaa", 4),
        Err(CheckFailure::Run { index: 1, error: CheckError::NoBlock })
    );
}

#[test]
fn file_is_checked_after_the_runs() {
    let runs = vec![b"aaaabbbb".to_vec()];
    assert_eq!(check_blocks(&runs, b"aaaabbbb", 4), Ok(()));
    assert_eq!(
        check_blocks(&runs, b"bbbbaaaa", 4),
        Err(CheckFailure::File { error: CheckError::Inversion { block: 0 } })
    );
    assert_eq!(check_blocks(&runs, b"", 4), Err(CheckFailure::File { error: CheckError::NoBlock }));
}

#[test]
fn block_checker_takes_blocks_one_by_one() {
    let mut checker = BlockChecker::new();
    assert_eq!(checker.finish(), Err(CheckError::NoBlock));
    assert_eq!(checker.feed(b"bbbb"), Ok(false));
    assert_eq!(checker.finish(), Ok(()));
    assert_eq!(checker.feed(b"bbbb"), Ok(true));
    assert_eq!(checker.feed(b"cccc"), Ok(false));
    assert_eq!(checker.feed(b"aaaa"), Err(CheckError::Inversion { block: 2 }));
    assert_eq!(checker.feed(b"cccd"), Ok(false));
    assert_eq!(checker.feed(b"cccd"), Ok(true));
    assert_eq!(checker.feed(b"cccc"), Err(CheckError::Inversion { block: 4 }));
}
