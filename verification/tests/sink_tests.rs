use node_log::sink::{rotation_ops, write_line, FileSet, RotateOp, Sink};

fn bytes(n: usize, b: u8) -> Vec<u8> {
    let mut v = Vec::new();
    for _ in 0..n {
        v.push(b);
    }
    v
}

fn with_newline(line: &[u8]) -> Vec<u8> {
    let mut v = line.to_vec();
    v.push(10);
    v
}

#[test]
fn open_seeds_size_and_clamps_max_files() {
    let s = Sink::open(17, 100, 0);
    assert_eq!(s.current_size, 17);
    assert_eq!(s.max_bytes, 100);
    assert_eq!(s.max_files, 1);
    let s2 = Sink::open(0, 100, 4);
    assert_eq!(s2.max_files, 4);
}

#[test]
fn within_budget_no_rotation() {
    // cumulative bytes stay at the ceiling exactly: still no rotation
    let mut sink = Sink::open(0, 10, 3);
    let mut files = FileSet::new(3);
    let a = bytes(4, b'a'); // 5 bytes with newline
    let b = bytes(4, b'b'); // 5 more: exactly 10
    assert!(!write_line(&mut sink, &mut files, &a));
    assert!(!write_line(&mut sink, &mut files, &b));
    assert_eq!(sink.current_size, 10);
    let mut expected = with_newline(&a);
    expected.extend_from_slice(&with_newline(&b));
    assert_eq!(files.active, expected);
    assert_eq!(files.rotated, vec![None, None, None]);
}

#[test]
fn rotation_scenario_three_sixty_byte_lines() {
    // ceiling 100, two rotated files, three lines of 60 bytes
    let mut sink = Sink::open(0, 100, 2);
    let mut files = FileSet::new(2);
    let l1 = bytes(60, b'1');
    let l2 = bytes(60, b'2');
    let l3 = bytes(60, b'3');

    // line 1: no rotation, size 61 of 100
    assert!(!write_line(&mut sink, &mut files, &l1));
    assert_eq!(sink.current_size, 61);
    assert_eq!(files.active, with_newline(&l1));

    // line 2: rotates first; prior content moves to .1
    assert!(write_line(&mut sink, &mut files, &l2));
    assert_eq!(sink.current_size, 61);
    assert_eq!(files.active, with_newline(&l2));
    assert_eq!(files.rotated[0], Some(with_newline(&l1)));
    assert_eq!(files.rotated[1], None);

    // line 3: rotates again; .1 moves to .2, prior active becomes .1
    assert!(write_line(&mut sink, &mut files, &l3));
    assert_eq!(files.active, with_newline(&l3));
    assert_eq!(files.rotated[0], Some(with_newline(&l2)));
    assert_eq!(files.rotated[1], Some(with_newline(&l1)));
}

#[test]
fn retention_drops_content_older_than_max_files() {
    // every write rotates; after 3 rotations with max_files = 2 the content
    // archived first (the empty initial active file) is gone
    let mut sink = Sink::open(0, 1, 2);
    let mut files = FileSet::new(2);
    let a = bytes(1, b'a');
    let b = bytes(1, b'b');
    let c = bytes(1, b'c');
    assert!(write_line(&mut sink, &mut files, &a));
    assert_eq!(files.rotated[0], Some(Vec::new()));
    assert!(write_line(&mut sink, &mut files, &b));
    assert!(write_line(&mut sink, &mut files, &c));
    assert_eq!(files.active, with_newline(&c));
    assert_eq!(files.rotated[0], Some(with_newline(&b)));
    assert_eq!(files.rotated[1], Some(with_newline(&a)));
}

#[test]
fn oversized_line_rotates_once_and_still_lands() {
    let mut sink = Sink::open(5, 10, 2);
    let mut files = FileSet::new(2);
    let big = bytes(20, b'x');
    assert!(write_line(&mut sink, &mut files, &big));
    assert_eq!(sink.current_size, 21);
    assert_eq!(files.active, with_newline(&big));
}

#[test]
fn rotation_ops_order_highest_shift_first() {
    let ops = rotation_ops(3);
    assert_eq!(
        ops,
        vec![
            RotateOp::RemoveOldest,
            RotateOp::Shift { from: 2, to: 3 },
            RotateOp::Shift { from: 1, to: 2 },
            RotateOp::ArchiveActive,
            RotateOp::StartFresh,
        ]
    );
    let ops1 = rotation_ops(1);
    assert_eq!(
        ops1,
        vec![RotateOp::RemoveOldest, RotateOp::ArchiveActive, RotateOp::StartFresh]
    );
}

#[test]
fn line_count_matches_number_of_writes() {
    let mut sink = Sink::open(0, 1000, 2);
    let mut files = FileSet::new(2);
    for i in 0..9usize {
        let line = bytes(i + 1, b'0' + i as u8);
        write_line(&mut sink, &mut files, &line);
    }
    let newlines = files.active.iter().filter(|b| **b == 10).count();
    assert_eq!(newlines, 9);
}

#[test]
fn no_line_lost_while_retention_holds() {
    // six writes, two rotations, three slots: every line is still present,
    // whole, across the active and rotated files
    let mut sink = Sink::open(0, 10, 3);
    let mut files = FileSet::new(3);
    for i in 0..6u8 {
        let line = bytes(4, b'a' + i);
        write_line(&mut sink, &mut files, &line);
    }
    let mut newlines = files.active.iter().filter(|b| **b == 10).count();
    for slot in &files.rotated {
        if let Some(content) = slot {
            newlines += content.iter().filter(|b| **b == 10).count();
        }
    }
    assert_eq!(newlines, 6);
    assert_eq!(files.rotated[2], None);
}

#[test]
fn rotate_with_gap_in_rotated_files() {
    // .1 absent but .2 present: the shift skips the absent source and the
    // present file still moves up and out
    let mut files = FileSet::new(2);
    files.rotated[1] = Some(b"old".to_vec());
    files.active = b"act".to_vec();
    let mut sink = Sink::open(3, 2, 2);
    let line = bytes(1, b'z');
    assert!(write_line(&mut sink, &mut files, &line));
    assert_eq!(files.rotated[0], Some(b"act".to_vec()));
    assert_eq!(files.rotated[1], None);
}
