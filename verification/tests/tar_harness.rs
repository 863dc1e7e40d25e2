use remote_worker::queue::ExitKind;
use remote_worker::signals::{first_byte_harness, signals_set};
use remote_worker::harness::{fold_body, mark_entries, run_from_input, EntryRead, FOLD_OFFSET, MAX_INPUT};

fn hit(signals: &[u8]) -> Vec<usize> {
    (0..signals.len()).filter(|&i| signals[i] == 1).collect()
}

fn archive(files: &[(&str, &[u8])]) -> Vec<u8> {
    let mut builder = tar::Builder::new(Vec::new());
    for (name, body) in files {
        let mut header = tar::Header::new_gnu();
        header.set_size(body.len() as u64);
        header.set_mode(0o644);
        header.set_cksum();
        builder.append_data(&mut header, name, *body).unwrap();
    }
    builder.into_inner().unwrap()
}

#[test]
fn fold_values() {
    assert_eq!(fold_body(&[]), FOLD_OFFSET);
    assert_eq!(fold_body(b"a"), 0xaf63dc4c8601ec8c);
    assert_eq!(fold_body(b"foobar"), 0x85944171f73967e8);
}

#[test]
fn archive_with_entries_reaches_the_body_points() {
    let data = archive(&[("a.txt", b"hello"), ("b.txt", b"")]);
    let mut signals = vec![0u8; 16];
    run_from_input(&data, &mut signals);
    assert_eq!(hit(&signals), vec![0, 2, 4, 5, 7, 8, 9]);
}

#[test]
fn empty_and_garbage_inputs_have_no_entries() {
    let mut signals = vec![0u8; 16];
    run_from_input(&[], &mut signals);
    assert_eq!(hit(&signals), vec![0, 2, 9]);

    let mut signals = vec![0u8; 16];
    run_from_input(&[0x41u8; 600], &mut signals);
    assert_eq!(hit(&signals), vec![0, 2, 9]);
}

#[test]
fn oversized_input_is_cut() {
    let mut data = archive(&[("big", &vec![7u8; 1000])]);
    data.resize(MAX_INPUT + 10, 0);
    let mut signals = vec![0u8; 16];
    run_from_input(&data, &mut signals);
    assert_eq!(hit(&signals), vec![0, 1, 2, 4, 5, 7, 8, 9]);

    let mut small = vec![5u8; 2];
    run_from_input(&data, &mut small);
    assert_eq!(small, vec![1, 1]);
}

#[test]
fn broker_harness_marks_first_byte_a() {
    let mut signals = vec![0u8; 16];
    assert_eq!(first_byte_harness(b"abc", &mut signals), ExitKind::Normal);
    assert_eq!(hit(&signals), vec![0, 1]);
    let mut signals = vec![0u8; 16];
    assert_eq!(first_byte_harness(b"", &mut signals), ExitKind::Normal);
    assert_eq!(hit(&signals), vec![0]);
    let mut signals = vec![0u8; 2];
    signals_set(&mut signals, 5);
    assert_eq!(signals, vec![0, 0]);
    signals_set(&mut signals, 1);
    assert_eq!(signals, vec![0, 1]);
}

#[test]
fn entry_lists_mark_their_points() {
    let mut signals = vec![0u8; 16];
    mark_entries(&[EntryRead::Failed], &mut signals);
    assert!(hit(&signals).is_empty());
    let mut signals = vec![0u8; 16];
    mark_entries(&[EntryRead::Unreadable], &mut signals);
    assert_eq!(hit(&signals), vec![4, 5, 6]);
    let mut signals = vec![0u8; 16];
    mark_entries(&[EntryRead::Body(vec![1, 2]), EntryRead::Failed], &mut signals);
    assert_eq!(hit(&signals), vec![4, 5, 7, 8]);
}
