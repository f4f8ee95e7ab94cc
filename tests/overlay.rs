use cowblock::engine::{Action, Event, FileId, SetupOp};
use cowblock::layout::OverlayError;
use cowblock::memory::MemOverlay;

fn mem(base: &[u8]) -> MemOverlay {
    MemOverlay::new(10, base.to_vec(), Vec::new(), Vec::new()).unwrap()
}

#[test]
fn partial_single_block_read() {
    let m = mem(b"ABCDEFGHIJKLMNOPQRSTUVWXYZ0123456789!!!!");
    assert_eq!(m.read(4, 4), b"EFGH".to_vec());
}

#[test]
fn read_spanning_base_and_extra() {
    let m = mem(b"abcdefghijklmnopqrstuvwxyz");
    assert_eq!(m.extra(), &b"uvwxyz".to_vec());
    assert_eq!(m.file_size(), 26);
    assert_eq!(m.read(0, 26), b"abcdefghijklmnopqrstuvwxyz".to_vec());
    assert_eq!(m.read(24, 4), b"yz".to_vec());
    assert_eq!(m.read(30, 4), Vec::<u8>::new());
}

#[test]
fn partial_write_reads_base_block() {
    let mut m = mem(b"AAAAAAAAAABBBBBBBBBB");
    assert_eq!(m.write(4, b"xx".to_vec()), 2);
    assert_eq!(m.read(0, 20), b"AAAAxxAAAABBBBBBBBBB".to_vec());
    let mut diff = vec![0, 0, 0, 1, 0, 0, 0, 0];
    diff.extend_from_slice(b"AAAAxxAAAA");
    assert_eq!(m.diff(), &diff);
}

#[test]
fn write_past_end_fills_gap_with_zeros() {
    let mut m = mem(b"AAAAAAAAAA");
    m.write(15, b"Z".to_vec());
    assert_eq!(m.file_size(), 16);
    assert_eq!(m.read(0, 16), b"AAAAAAAAAA\0\0\0\0\0Z".to_vec());
    assert_eq!(m.extra(), &b"\0\0\0\0\0Z".to_vec());
}

#[test]
fn tail_write_goes_to_extra_at_once() {
    let mut m = mem(b"AAAAAAAAAA");
    m.write(10, b"0123456789abcdef".to_vec());
    assert_eq!(m.file_size(), 26);
    assert_eq!(m.read(10, 16), b"0123456789abcdef".to_vec());
    assert_eq!(m.extra(), &b"0123456789abcdef".to_vec());
}

#[test]
fn tail_write_is_one_action() {
    let m = mem(b"AAAAAAAAAA");
    let mut op = m.overlay().write(10, b"0123456789abcdef".to_vec());
    let act = op.resume(Event::Written);
    match act {
        Action::Write { file: FileId::Extra, at: 0, data } => assert_eq!(data, b"0123456789abcdef".to_vec()),
        other => panic!("unexpected action {:?}", other),
    }
    assert!(matches!(op.resume(Event::Written), Action::Finished));
    let mut overlay = m.overlay();
    overlay.finish_write(&op);
    assert_eq!(overlay.file_size, 26);
}

#[test]
fn overwrite_of_overwritten_block_reuses_slot() {
    let mut m = mem(b"AAAAAAAAAABBBBBBBBBB");
    m.write(4, b"xx".to_vec());
    let len = m.diff().len();
    m.write(5, b"YY".to_vec());
    assert_eq!(m.diff().len(), len);
    assert_eq!(m.read(0, 10), b"AAAAxYYAAA".to_vec());
}

#[test]
fn full_block_write_and_write_spanning_blocks() {
    let mut m = mem(b"AAAAAAAAAABBBBBBBBBBCCCCC");
    m.write(8, b"0123456789ABCDEFGHIJ".to_vec());
    assert_eq!(m.file_size(), 28);
    assert_eq!(m.read(0, 28), b"AAAAAAAA0123456789ABCDEFGHIJ".to_vec());
    assert_eq!(m.diff().len(), 8 + 20);
}

#[test]
fn last_writer_wins() {
    let mut m = mem(b"AAAAAAAAAABBBBBBBBBB");
    m.write(2, b"1111".to_vec());
    m.write(4, b"22".to_vec());
    m.write(18, b"3333".to_vec());
    m.write(25, b"4".to_vec());
    assert_eq!(m.read(0, 100), b"AA1122AAAABBBBBBBB3333\0\0\x004".to_vec());
}

#[test]
fn round_trip() {
    let mut m = mem(b"AAAAAAAAAABBBBBBBBBBCCC");
    m.write(7, b"hello, world".to_vec());
    assert_eq!(m.read(7, 12), b"hello, world".to_vec());
}

#[test]
fn writing_twice_equals_once() {
    let mut once = mem(b"AAAAAAAAAABBBBBBBBBB");
    once.write(3, b"xyzxyzxyz".to_vec());
    let mut twice = mem(b"AAAAAAAAAABBBBBBBBBB");
    twice.write(3, b"xyzxyzxyz".to_vec());
    twice.write(3, b"xyzxyzxyz".to_vec());
    assert_eq!(once.read(0, 20), twice.read(0, 20));
    assert_eq!(once.diff(), twice.diff());
}

#[test]
fn base_is_never_written() {
    let base = b"AAAAAAAAAABBBBBBBBBBCCC".to_vec();
    let mut m = mem(&base);
    m.write(0, b"zzzzzzzzzzzzzzzzzzzzzzzzzzzz".to_vec());
    m.write(40, b"q".to_vec());
    assert_eq!(m.base(), &base);
}

#[test]
fn reused_sidecars_keep_their_contents() {
    let mut m = mem(b"AAAAAAAAAABBBBBBBBBBCCC");
    m.write(12, b"xy".to_vec());
    let diff = m.diff().clone();
    let extra = m.extra().clone();
    let again = MemOverlay::new(10, b"AAAAAAAAAABBBBBBBBBBCCC".to_vec(), diff, extra).unwrap();
    assert_eq!(again.read(0, 23), b"AAAAAAAAAABBxyBBBBBBCCC".to_vec());
}

#[test]
fn short_diff_is_corrupted() {
    let r = MemOverlay::new(10, b"AAAAAAAAAABBBBBBBBBB".to_vec(), vec![0, 0, 0], Vec::new());
    assert!(matches!(r, Err(OverlayError::CorruptedDiff)));
}

#[test]
fn empty_base_has_no_index() {
    let m = MemOverlay::new(10, Vec::new(), Vec::new(), Vec::new()).unwrap();
    assert_eq!(m.file_size(), 0);
    assert!(m.diff().is_empty());
}

#[test]
fn setup_refuses_huge_base() {
    let (mut op, act) = SetupOp::new(4);
    assert!(matches!(act, Action::Length { file: FileId::Base }));
    let act = op.resume(Event::Length(u64::MAX));
    assert!(matches!(act, Action::Failed(OverlayError::TooLarge)));
    assert!(op.overlay().is_none());
}

#[test]
fn read_fails_on_short_bytes() {
    let m = mem(b"AAAAAAAAAABBBBBBBBBB");
    let mut op = m.overlay().read(0, 5);
    let act = op.resume(Event::Written);
    assert!(matches!(act, Action::Read { file: FileId::Diff, at: 0, len: 4 }));
    let act = op.resume(Event::Bytes(vec![0, 0, 0, 0]));
    assert!(matches!(act, Action::Read { file: FileId::Base, at: 0, len: 5 }));
    let act = op.resume(Event::Bytes(vec![1, 2]));
    assert!(matches!(act, Action::Failed(OverlayError::ShortRead)));
}
