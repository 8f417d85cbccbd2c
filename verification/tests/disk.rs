use puzzles::disk::{Block, BlockKind, FileSystem};

#[test]
fn small_disk_compacts_block_by_block() {
    let mut fs = FileSystem::try_from("12345").unwrap();
    assert_eq!(fs.to_string(), "0..111....22222");
    assert!(fs.holds_file());
    fs.compress1();
    assert_eq!(fs.to_string(), "022111222");
}

#[test]
fn sample_disk_block_by_block() {
    let mut fs = FileSystem::try_from("2333133121414131402").unwrap();
    assert_eq!(fs.to_string(), "00...111...2...333.44.5555.6666.777.888899");
    fs.compress1();
    assert_eq!(fs.to_string(), "0099811188827773336446555566");
    assert_eq!(fs.csum(), Some(1928));
}

#[test]
fn sample_disk_file_by_file() {
    let mut fs = FileSystem::try_from("2333133121414131402").unwrap();
    fs.compress2();
    assert_eq!(fs.to_string(), "00992111777.44.333....5555.6666.....8888..");
    assert_eq!(fs.csum(), Some(2858));
    assert!(fs.compress_once2().is_err());
}

#[test]
fn one_move_at_a_time() {
    let mut fs = FileSystem::try_from("12345").unwrap();
    assert!(fs.compress_once1().is_ok());
    assert_eq!(fs.to_string(), "022111....222");
    let mut fs = FileSystem::try_from("133").unwrap();
    assert!(fs.compress_once2().is_ok());
    assert_eq!(fs.to_string(), "0111...");
    assert!(fs.compress_once2().is_err());
    let mut full = FileSystem::try_from("3").unwrap();
    assert!(full.compress_once1().is_err());
    assert_eq!(full.to_string(), "000");
}

#[test]
fn one_whole_file_at_a_time() {
    let mut fs = FileSystem::try_from("2333133121414131402").unwrap();
    assert!(fs.compress_once2().is_ok());
    assert_eq!(fs.to_string(), "0099.111...2...333.44.5555.6666.777.8888..");
}

#[test]
fn files_of_no_size_come_to_rest() {
    let mut fs = FileSystem::try_from("000000").unwrap();
    fs.compress2();
    assert!(fs.compress_once2().is_err());
    assert_eq!(fs.to_string(), "");
    let mut fs = FileSystem::try_from("10203").unwrap();
    fs.compress2();
    assert_eq!(fs.to_string(), "011222");
    assert_eq!(fs.csum(), Some(1 * (1 + 2) + 2 * (3 + 4 + 5)));
}

#[test]
fn maps_and_blocks() {
    let fs = FileSystem::try_from("123").unwrap();
    assert_eq!(
        fs.0,
        vec![
            Block { kind: BlockKind::Id(0), size: 1 },
            Block { kind: BlockKind::Free, size: 2 },
            Block { kind: BlockKind::Id(1), size: 3 },
        ]
    );
    assert!(FileSystem::try_from("12a").is_err());
    assert!(!FileSystem::try_from("").unwrap().holds_file());
    assert_eq!(FileSystem(vec![Block { kind: BlockKind::Id(12), size: 2 }]).to_string(), "1212");
}

#[test]
fn checksum_counts_positions() {
    let fs = FileSystem(vec![
        Block { kind: BlockKind::Free, size: 2 },
        Block { kind: BlockKind::Id(3), size: 2 },
        Block { kind: BlockKind::Id(0), size: 5 },
    ]);
    assert_eq!(fs.csum(), Some(15));
}
