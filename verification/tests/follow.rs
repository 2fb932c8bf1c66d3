use tail::follow::EventKind::SizeChanged;
use tail::follow::ModificationType::{Added, NoChange, Removed};
use tail::follow::{
    follow, follow_and_read, transition, Action, EventKind, ModificationType, StatefulFile,
};

fn owned(lines: &[&[u8]]) -> Vec<Vec<u8>> {
    lines.iter().map(|line| line.to_vec()).collect()
}

#[test]
fn new_file_starts_at_offset_zero() {
    let file = StatefulFile::new(100, String::from("log"));
    assert_eq!(file.seek_to_cursor(), 0);
    assert_eq!(file.old_size(), 100);
    assert_eq!(file.file_name(), "log");
}

#[test]
fn modification_type_compares_two_sizes() {
    let file = StatefulFile::new(100, String::from("log"));
    assert_eq!(file.modification_type(101), ModificationType::Added);
    assert_eq!(file.modification_type(99), ModificationType::Removed);
    assert_eq!(file.modification_type(0), ModificationType::Removed);
    assert_eq!(file.modification_type(100), ModificationType::NoChange);
    assert_eq!(file.modification_type(u64::MAX), ModificationType::Added);
}

#[test]
fn update_metadata_moves_the_snapshot() {
    let mut file = StatefulFile::new(100, String::from("log"));
    file.update_metadata(40);
    assert_eq!(file.old_size(), 40);
    assert_eq!(file.modification_type(100), ModificationType::Added);
    assert_eq!(file.seek_to_cursor(), 0);
}

#[test]
fn cursor_is_kept_and_reset() {
    let mut file = StatefulFile::new(100, String::from("log"));
    file.update_cursor(100);
    assert_eq!(file.seek_to_cursor(), 100);
    file.reset_cursor();
    assert_eq!(file.seek_to_cursor(), 0);
    assert_eq!(file.old_size(), 100);
}

#[test]
fn transition_table() {
    for previous in [Added, Removed, NoChange] {
        assert_eq!(transition(previous, Added, SizeChanged), Action::KeepCursor);
        assert_eq!(transition(previous, Removed, SizeChanged), Action::ResetCursor);
    }
    assert_eq!(transition(Removed, NoChange, SizeChanged), Action::ResetCursor);
    assert_eq!(transition(Added, NoChange, SizeChanged), Action::KeepCursor);
    assert_eq!(transition(NoChange, NoChange, SizeChanged), Action::KeepCursor);
}

#[test]
fn transition_by_event_kind() {
    for previous in [Added, Removed, NoChange] {
        for observed in [Added, Removed, NoChange] {
            assert_eq!(transition(previous, observed, EventKind::Other), Action::Ignore);
            assert_eq!(
                transition(previous, observed, EventKind::WriteCompleted),
                transition(previous, observed, EventKind::SizeChanged)
            );
        }
    }
}

#[test]
fn truncation_then_append() {
    // Size 100 seen and read to the end.
    let mut file = StatefulFile::new(100, String::from("log"));
    file.update_cursor(100);
    // Truncated to nothing.
    assert_eq!(file.modification_type(0), ModificationType::Removed);
    assert_eq!(follow(&mut file, EventKind::SizeChanged, 0), Some(0));
    assert_eq!(file.old_size(), 0);
    file.update_cursor(0);
    // Twenty bytes appended, ending one line.
    let content = b"nineteen bytes here\n";
    assert_eq!(content.len(), 20);
    assert_eq!(file.modification_type(20), ModificationType::Added);
    let lines = follow_and_read(&mut file, EventKind::SizeChanged, content);
    assert_eq!(lines, owned(&[b"nineteen bytes here\n"]));
    assert_eq!(file.seek_to_cursor(), 20);
    assert_eq!(file.old_size(), 20);
}

#[test]
fn truncation_and_append_seen_at_once() {
    let mut file = StatefulFile::new(100, String::from("log"));
    file.update_cursor(100);
    let content = b"nineteen bytes here\n";
    let lines = follow_and_read(&mut file, EventKind::SizeChanged, content);
    assert_eq!(lines, owned(&[b"nineteen bytes here\n"]));
    assert_eq!(file.seek_to_cursor(), 20);
}

#[test]
fn growth_is_read_from_the_cursor() {
    let mut content = vec![b'x'; 49];
    content.push(b'\n');
    let mut file = StatefulFile::new(50, String::from("log"));
    file.update_cursor(50);
    content.extend_from_slice(b"a new line of thirty bytes...\n");
    assert_eq!(content.len(), 80);
    assert_eq!(file.modification_type(80), ModificationType::Added);
    assert_eq!(follow(&mut file, EventKind::SizeChanged, 80), Some(50));
    let mut again = StatefulFile::new(50, String::from("log"));
    again.update_cursor(50);
    let lines = follow_and_read(&mut again, EventKind::SizeChanged, &content);
    assert_eq!(lines, owned(&[b"a new line of thirty bytes...\n"]));
    assert_eq!(again.seek_to_cursor(), 80);
    assert_eq!(again.old_size(), 80);
}

#[test]
fn several_new_lines_come_out_in_order() {
    let mut file = StatefulFile::new(4, String::from("log"));
    file.update_cursor(4);
    let lines = follow_and_read(&mut file, EventKind::SizeChanged, b"old\none\ntwo\nthree\n");
    assert_eq!(lines, owned(&[b"one\n", b"two\n", b"three\n"]));
    assert_eq!(file.seek_to_cursor(), 18);
}

#[test]
fn open_line_waits_for_its_delimiter() {
    let mut file = StatefulFile::new(4, String::from("log"));
    file.update_cursor(4);
    // "three" is not ended yet: it is not shown, and the cursor stays
    // before it.
    let lines = follow_and_read(&mut file, EventKind::SizeChanged, b"old\none\ntwo\nthree");
    assert_eq!(lines, owned(&[b"one\n", b"two\n"]));
    assert_eq!(file.seek_to_cursor(), 12);
    assert_eq!(file.old_size(), 17);
    // More of the line, still open.
    let lines = follow_and_read(&mut file, EventKind::SizeChanged, b"old\none\ntwo\nthree and");
    assert_eq!(lines, Vec::<Vec<u8>>::new());
    assert_eq!(file.seek_to_cursor(), 12);
    // The writer ends the line: it comes out in one piece.
    let lines =
        follow_and_read(&mut file, EventKind::SizeChanged, b"old\none\ntwo\nthree and more\nx");
    assert_eq!(lines, owned(&[b"three and more\n"]));
    assert_eq!(file.seek_to_cursor(), 27);
}

#[test]
fn take_lines_moves_the_cursor_behind_the_last_delimiter() {
    let mut file = StatefulFile::new(100, String::from("log"));
    file.update_cursor(100);
    assert_eq!(file.take_lines(b"ab\ncd"), owned(&[b"ab\n"]));
    assert_eq!(file.seek_to_cursor(), 103);
    assert_eq!(file.take_lines(b"cd"), Vec::<Vec<u8>>::new());
    assert_eq!(file.seek_to_cursor(), 103);
    assert_eq!(file.take_lines(b""), Vec::<Vec<u8>>::new());
    assert_eq!(file.seek_to_cursor(), 103);
    assert_eq!(file.take_lines(b"cd\n\n"), owned(&[b"cd\n", b"\n"]));
    assert_eq!(file.seek_to_cursor(), 107);
    assert_eq!(file.old_size(), 100);
}

#[test]
fn unchanged_size_after_shrinking_resets_the_cursor() {
    let mut file = StatefulFile::new(100, String::from("log"));
    file.update_cursor(100);
    assert_eq!(follow(&mut file, EventKind::SizeChanged, 30), Some(0));
    // The read ended at 30; the cursor is put behind the end by hand to show
    // that the next step does not trust it.
    file.update_cursor(70);
    assert_eq!(follow(&mut file, EventKind::SizeChanged, 30), Some(0));
    // The step before saw no change, so this one keeps the cursor.
    file.update_cursor(30);
    assert_eq!(follow(&mut file, EventKind::SizeChanged, 30), Some(30));
}

#[test]
fn unchanged_size_keeps_the_cursor() {
    let mut file = StatefulFile::new(100, String::from("log"));
    file.update_cursor(100);
    assert_eq!(follow(&mut file, EventKind::SizeChanged, 100), Some(100));
    assert_eq!(file.old_size(), 100);
    let content = vec![b'q'; 100];
    let lines = follow_and_read(&mut file, EventKind::SizeChanged, &content);
    assert_eq!(lines, Vec::<Vec<u8>>::new());
    assert_eq!(file.seek_to_cursor(), 100);
}

#[test]
fn other_events_change_nothing() {
    let mut file = StatefulFile::new(100, String::from("log"));
    file.update_cursor(60);
    assert_eq!(follow(&mut file, EventKind::Other, 10), None);
    assert_eq!(file.old_size(), 100);
    assert_eq!(file.seek_to_cursor(), 60);
    let lines = follow_and_read(&mut file, EventKind::Other, b"abc\n");
    assert_eq!(lines, Vec::<Vec<u8>>::new());
    assert_eq!(file.old_size(), 100);
    assert_eq!(file.seek_to_cursor(), 60);
}

#[test]
fn write_completed_is_followed_too() {
    let mut file = StatefulFile::new(2, String::from("log"));
    file.update_cursor(2);
    let lines = follow_and_read(&mut file, EventKind::WriteCompleted, b"a\nb\n");
    assert_eq!(lines, owned(&[b"b\n"]));
}

#[test]
fn cursor_behind_the_end_reads_nothing() {
    // The file grew from 10 to 20, but the cursor was left at 50.
    let mut file = StatefulFile::new(10, String::from("log"));
    file.update_cursor(50);
    let content = vec![b'\n'; 20];
    let lines = follow_and_read(&mut file, EventKind::SizeChanged, &content);
    assert_eq!(lines, Vec::<Vec<u8>>::new());
    assert_eq!(file.seek_to_cursor(), 50);
    assert_eq!(file.old_size(), 20);
}

#[test]
fn two_files_do_not_share_a_cursor() {
    let mut first = StatefulFile::new(10, String::from("first"));
    let mut second = StatefulFile::new(10, String::from("second"));
    first.update_cursor(10);
    second.update_cursor(10);
    assert_eq!(follow(&mut first, EventKind::SizeChanged, 3), Some(0));
    assert_eq!(second.seek_to_cursor(), 10);
    assert_eq!(follow(&mut second, EventKind::SizeChanged, 12), Some(10));
}
