use cowblock::mount::{block_count, check_file, lookup, node_kind, readlink, FsError, NodeKind, FILE_INO, ROOT_INO};

#[test]
fn lookup_finds_only_the_file() {
    assert_eq!(lookup(ROOT_INO, b"disk.img", b"disk.img"), Ok(FILE_INO));
    assert_eq!(lookup(ROOT_INO, b"other", b"disk.img"), Err(FsError::NotFound));
    assert_eq!(lookup(FILE_INO, b"disk.img", b"disk.img"), Err(FsError::NotFound));
}

#[test]
fn inodes_and_links() {
    assert_eq!(node_kind(1), Ok(NodeKind::Directory));
    assert_eq!(node_kind(2), Ok(NodeKind::RegularFile));
    assert_eq!(node_kind(3), Err(FsError::NotFound));
    assert_eq!(readlink(1), FsError::InvalidArgument);
    assert_eq!(readlink(2), FsError::InvalidArgument);
    assert_eq!(readlink(9), FsError::NotFound);
    assert_eq!(check_file(2), Ok(()));
    assert_eq!(check_file(1), Err(FsError::NotFound));
}

#[test]
fn block_counts_round_up() {
    assert_eq!(block_count(0), 0);
    assert_eq!(block_count(1), 1);
    assert_eq!(block_count(512), 1);
    assert_eq!(block_count(513), 2);
}
