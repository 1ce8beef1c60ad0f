use komp::chord::Chord;
use komp::key::Key;
use komp::tracker::chord_update;
use komp::tracker::process_midi;
use komp::tracker::Playing;

fn playing_from(pairs: &[(u8, u8)]) -> Playing {
    let mut playing = Playing::new();
    for &(channel, note) in pairs {
        playing.insert(channel, note);
    }
    playing
}

#[test]
fn test_note_on() {
    let data = vec![0x93, 0x3c, 0x40];
    let mut playing = Playing::new();
    process_midi(&data, &mut playing);
    assert_eq!(playing.to_vec(), vec![(0x03, 0x3c)]);
}

#[test]
fn test_note_off() {
    let data = vec![0x83, 0x3c, 0x40];
    let mut playing = playing_from(&[(0x03, 0x3c), (0x03, 0x40), (0x04, 0x3c)]);
    process_midi(&data, &mut playing);
    assert_eq!(playing.to_vec(), vec![(0x03, 0x40), (0x04, 0x3c)]);
}

#[test]
fn test_note_on_velocity_0() {
    let data = vec![0x93, 0x3c, 0x00];
    let mut playing = playing_from(&[(0x03, 0x3c), (0x03, 0x40), (0x04, 0x3c)]);
    process_midi(&data, &mut playing);
    assert_eq!(playing.to_vec(), vec![(0x03, 0x40), (0x04, 0x3c)]);
}

#[test]
fn note_off_for_absent_pair_changes_nothing() {
    let before = vec![(0x01, 0x30), (0x02, 0x45)];
    let mut playing = playing_from(&before);
    process_midi(&vec![0x83, 0x3c, 0x40], &mut playing);
    assert_eq!(playing.to_vec(), before);
}

#[test]
fn active_sense_changes_nothing() {
    let before = vec![(0x00, 0x3c)];
    let mut playing = playing_from(&before);
    process_midi(&vec![0xfe], &mut playing);
    assert_eq!(playing.to_vec(), before);
}

#[test]
fn controller_and_short_packets_change_nothing() {
    let before = vec![(0x00, 0x3c)];
    let mut playing = playing_from(&before);
    process_midi(&vec![0xb0, 0x07, 0x64], &mut playing);
    process_midi(&vec![0x93, 0x3c], &mut playing);
    assert_eq!(playing.to_vec(), before);
}

#[test]
fn note_on_then_note_off_round_trip() {
    // a single key pressed and released: the held set returns to
    // empty, and the chord cell is written only while keys are down
    let mut playing = Playing::new();
    let was_empty = Playing::new();

    process_midi(&vec![0x93, 0x3c, 0x40], &mut playing);
    assert_eq!(playing.to_vec(), vec![(0x03, 0x3c)]);
    let first = chord_update(&was_empty, &playing);
    assert_eq!(first, Some(Some(Chord::NoChord(Key(0)))));

    let was_holding = playing_from(&[(0x03, 0x3c)]);
    process_midi(&vec![0x83, 0x3c, 0x40], &mut playing);
    assert_eq!(playing.len(), 0);
    let second = chord_update(&was_holding, &playing);
    assert_eq!(second, None);
}

#[test]
fn chord_update_publishes_detected_chord() {
    let was = Playing::new();
    let now = playing_from(&[(0, 60), (0, 64), (0, 67)]);
    assert_eq!(chord_update(&was, &now), Some(Some(Chord::Major(Key(0)))));
}

#[test]
fn chord_update_skips_unchanged_sets() {
    let held = playing_from(&[(0, 60), (0, 64), (0, 67)]);
    let same = playing_from(&[(0, 60), (0, 64), (0, 67)]);
    assert_eq!(chord_update(&held, &same), None);
}
