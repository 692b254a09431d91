use extsort::cli::check::CheckArgs;
use extsort::cli::gen::GenArgs;
use extsort::cli::sort::SortArgs;
use extsort::cli::{Cli, Commands, DEFAULT_BYTES};
use extsort::generate::{append_chunk, generate, generate_data, Chunks, GenError};
use extsort::path::run_file_name;
use extsort::permit::PermitPool;
use extsort::error::SortError;
use extsort::{BLOCK_SIZE, ONE_GIB};
use rand::rngs::SmallRng;
use rand::SeedableRng;

fn is_alphanumeric(bytes: &[u8]) -> bool {
    bytes.iter().all(|b| b.is_ascii_alphanumeric())
}

#[test]
fn constants_have_their_values() {
    assert_eq!(BLOCK_SIZE, 4096);
    assert_eq!(ONE_GIB, 1073741824);
    assert_eq!(DEFAULT_BYTES, 2 * ONE_GIB);
}

#[test]
fn generate_makes_letters_and_digits() {
    let mut rng = SmallRng::seed_from_u64(1);
    let chunk = generate(&mut rng, 1000);
    assert_eq!(chunk.len(), 1000);
    assert!(is_alphanumeric(&chunk));
    assert_eq!(generate(&mut rng, 0), Vec::<u8>::new());
}

#[test]
fn generate_draws_on_from_the_generator() {
    let mut rng = SmallRng::seed_from_u64(2);
    let first = generate(&mut rng, 64);
    let second = generate(&mut rng, 64);
    assert_ne!(first, second);
    let mut again = SmallRng::seed_from_u64(2);
    assert_eq!(generate(&mut again, 64), first);
}

#[test]
fn generate_takes_a_generator_seeded_by_the_system() {
    let mut rng = SmallRng::from_entropy();
    let chunk = generate(&mut rng, 4096);
    assert_eq!(chunk.len(), 4096);
    assert!(is_alphanumeric(&chunk));
}

#[test]
fn generate_data_has_the_size_asked_for() {
    let mut rng = SmallRng::seed_from_u64(3);
    let data = generate_data(&mut rng, 10000, 4096, 3).unwrap();
    assert_eq!(data.len(), 10000);
    assert!(is_alphanumeric(&data));
    assert_eq!(generate_data(&mut rng, 0, 4096, 1), Ok(Vec::new()));
}

#[test]
fn generate_data_needs_a_block_of_memory() {
    let mut rng = SmallRng::seed_from_u64(4);
    assert_eq!(generate_data(&mut rng, 10, 4095, 1), Err(GenError::MaxMemTooSmall));
    assert_eq!(generate_data(&mut rng, 10, 0, 0), Err(GenError::MaxMemTooSmall));
    assert_eq!(generate_data(&mut rng, 0, 4095, 1), Err(GenError::MaxMemTooSmall));
}

#[test]
fn generate_data_needs_a_share_for_each_worker() {
    let mut rng = SmallRng::seed_from_u64(5);
    assert_eq!(generate_data(&mut rng, 10, 4096, 0), Err(GenError::NoShare));
    assert_eq!(generate_data(&mut rng, 10, 4096, 4097), Err(GenError::NoShare));
    assert_eq!(generate_data(&mut rng, 10, 4096, 4096).map(|d| d.len()), Ok(10));
}

#[test]
fn nothing_to_make_needs_no_share() {
    let mut rng = SmallRng::seed_from_u64(6);
    assert_eq!(generate_data(&mut rng, 0, 4096, 5000), Ok(Vec::new()));
    assert_eq!(generate_data(&mut rng, 0, 4096, 0), Ok(Vec::new()));
    let mut chunks = Chunks::new(0, 4096, 5000).unwrap();
    assert_eq!(chunks.next_len(), None);
    let mut chunks = Chunks::new(0, 4096, 0).unwrap();
    assert_eq!(chunks.next_len(), None);
}

#[test]
fn generation_errors_have_words() {
    assert_eq!(GenError::MaxMemTooSmall.message(), "Max allowed memory must not be less than 4096B");
    assert_eq!(GenError::NoShare.message(), "Max allowed memory must leave a byte for each worker");
}

#[test]
fn chunks_are_a_share_each_and_the_rest() {
    let mut chunks = Chunks::new(10000, 8192, 2).unwrap();
    assert_eq!(chunks.next_len(), Some(4096));
    assert_eq!(chunks.next_len(), Some(4096));
    assert_eq!(chunks.next_len(), Some(1808));
    assert_eq!(chunks.next_len(), None);
    assert_eq!(chunks.next_len(), None);
}

#[test]
fn chunks_of_nothing_are_none() {
    let mut chunks = Chunks::new(0, 8192, 2).unwrap();
    assert_eq!(chunks.next_len(), None);
}

#[test]
fn chunks_refuse_what_generate_data_refuses() {
    assert!(matches!(Chunks::new(1, 100, 1), Err(GenError::MaxMemTooSmall)));
    assert!(matches!(Chunks::new(1, 5000, 5001), Err(GenError::NoShare)));
}

#[test]
fn append_chunk_puts_the_chunk_behind() {
    let mut data = b"abc".to_vec();
    append_chunk(&mut data, b"de");
    assert_eq!(data, b"abcde".to_vec());
}

#[test]
fn pool_grants_up_to_its_capacity() {
    let mut pool = PermitPool::new(2);
    assert_eq!(pool.capacity(), 2);
    assert_eq!(pool.held(), 0);
    assert!(pool.try_take());
    assert!(pool.try_take());
    assert!(!pool.try_take());
    assert_eq!(pool.held(), 2);
    assert!(pool.put());
    assert_eq!(pool.held(), 1);
    assert!(pool.try_take());
    assert!(!pool.try_take());
    assert!(pool.put());
    assert!(pool.put());
    assert!(!pool.put());
    assert_eq!(pool.held(), 0);
}

#[test]
fn pool_without_permits_grants_none() {
    let mut pool = PermitPool::new(0);
    assert!(!pool.try_take());
    assert!(!pool.put());
}

#[test]
fn pool_bounds_the_buffers_in_flight() {
    let run_bytes = 8192usize;
    let mut pool = PermitPool::new(3);
    let mut buffers = 0usize;
    for step in 0..40 {
        if step % 3 != 2 {
            if pool.try_take() {
                buffers += 1;
            }
        } else if pool.put() {
            buffers -= 1;
        }
        assert_eq!(buffers, pool.held());
        assert!(buffers * run_bytes <= 3 * run_bytes);
    }
}

#[test]
fn run_files_are_named_by_number() {
    assert_eq!(run_file_name("./int", 0), "./int/0.txt");
    assert_eq!(run_file_name("./int", 7), "./int/7.txt");
    assert_eq!(run_file_name("/tmp/runs", 10), "/tmp/runs/10.txt");
    assert_eq!(run_file_name("d", 1234567890), "d/1234567890.txt");
    assert_eq!(run_file_name("", 405), "/405.txt");
}

#[test]
fn sort_args_have_defaults() {
    let args = SortArgs::new(String::from("data.bin"));
    assert_eq!(args.file, "data.bin");
    assert_eq!(args.int_file_size, 2147483648);
    assert_eq!(args.int_file_dir, "./int");
    assert_eq!(args.split_concurrency, 2);
    assert_eq!(args.permits(), Ok(2));
}

#[test]
fn concurrency_below_one_is_refused() {
    let mut args = SortArgs::new(String::from("data.bin"));
    args.split_concurrency = -3;
    assert_eq!(args.permits(), Err(SortError::NoPermit));
    args.split_concurrency = 0;
    assert_eq!(args.permits(), Err(SortError::NoPermit));
    args.split_concurrency = 1;
    assert_eq!(args.permits(), Ok(1));
    args.split_concurrency = 16;
    assert_eq!(args.permits(), Ok(16));
}

#[test]
fn gen_args_have_defaults() {
    let args = GenArgs::new(String::from("data.bin"), 4096);
    assert_eq!(args.file, "data.bin");
    assert_eq!(args.size, 4096);
    assert_eq!(args.max_mem, 2147483648);
}

#[test]
fn check_args_have_defaults() {
    let mut args = CheckArgs::new(String::from("data.bin"));
    assert_eq!(args.file, "data.bin");
    assert_eq!(args.int_file_dir, "./int");
    assert!(args.checks_runs());
    args.int_file_dir = String::new();
    assert!(!args.checks_runs());
}

#[test]
fn commands_hold_their_arguments() {
    let cli = Cli { command: Commands::Check(CheckArgs::new(String::from("f"))) };
    assert_eq!(cli, Cli { command: Commands::Check(CheckArgs::new(String::from("f"))) });
    assert_ne!(cli, Cli { command: Commands::Gen(GenArgs::new(String::from("f"), 1)) });
}
