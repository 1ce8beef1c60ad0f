use komp::chord::chord_template;
use komp::chord::detect_chord;
use komp::chord::generate_templates;
use komp::chord::Chord;
use komp::key::Key;
use komp::key::NOTE_ASHARP3;
use komp::key::NOTE_C3;
use komp::key::NOTE_C4;
use komp::key::NOTE_D4;
use komp::key::NOTE_DSHARP4;
use komp::key::NOTE_E3;
use komp::key::NOTE_F3;
use komp::key::NOTE_A3;
use komp::key::NOTE_G3;
use komp::key::OCTAVE_STEPS;

#[test]
fn detect_multi_octave_chord() {
    let chord1 = vec![NOTE_C3, NOTE_E3, NOTE_G3, NOTE_ASHARP3, NOTE_D4];
    assert_eq!(detect_chord(&chord1), vec![Chord::Major7_9(Key(0))]);
}

#[test]
fn detect_chord_with_duplicated_notes() {
    // the root note C is duplicated one octave higher
    let chord1 = vec![NOTE_C3, NOTE_E3, NOTE_G3, NOTE_ASHARP3, NOTE_C4];
    assert_eq!(detect_chord(&chord1), vec![Chord::Major7(Key(0))]);
}

#[test]
fn detect_single_key() {
    let chord1 = vec![NOTE_C4];
    assert_eq!(detect_chord(&chord1), vec![Chord::NoChord(Key(0))]);
}

#[test]
fn chord_templates() {
    let f_major = vec![NOTE_F3, NOTE_A3, NOTE_C4];
    assert_eq!(
        generate_templates(&f_major, true),
        vec![
            (Key(5), vec![0, 4, 7]),
            (Key(9), vec![0, 3, 8]),
            (Key(0), vec![0, 5, 9]),
        ]
    );
}

#[test]
fn chord_normalization() {
    let chord = vec![114, 118, 121, 124]; // 114 = FSHARP
    assert_eq!(chord_template(chord), (Key(6), vec![0, 4, 7, 10]));
}

#[test]
fn test_extract_chord_notes() {
    assert_eq!(
        Chord::Major7(Key(5)).notes(3, 0),
        vec![
            5 + 0 + 4 * OCTAVE_STEPS,
            5 + 4 + 4 * OCTAVE_STEPS,
            5 + 7 + 4 * OCTAVE_STEPS,
            5 + 10 + 4 * OCTAVE_STEPS,
        ]
    );
}

#[test]
fn test_extract_chord_notes_first_inversion() {
    assert_eq!(
        Chord::Major7(Key(5)).notes(3, 1),
        vec![
            5 + 4 + 4 * OCTAVE_STEPS,
            5 + 7 + 4 * OCTAVE_STEPS,
            5 + 10 + 4 * OCTAVE_STEPS,
            5 + 0 + 5 * OCTAVE_STEPS,
        ]
    );
}

#[test]
fn test_extract_chord_notes_second_inversion() {
    assert_eq!(
        Chord::Major7(Key(5)).notes(3, 2),
        vec![
            5 + 7 + 4 * OCTAVE_STEPS,
            5 + 10 + 4 * OCTAVE_STEPS,
            5 + 0 + 5 * OCTAVE_STEPS,
            5 + 4 + 5 * OCTAVE_STEPS,
        ]
    );
}

#[test]
fn test_extract_chord_notes_third_inversion() {
    assert_eq!(
        Chord::Major7(Key(5)).notes(3, 3),
        vec![
            5 + 10 + 4 * OCTAVE_STEPS,
            5 + 0 + 5 * OCTAVE_STEPS,
            5 + 4 + 5 * OCTAVE_STEPS,
            5 + 7 + 5 * OCTAVE_STEPS,
        ]
    );
}

#[test]
fn test_detect_chord() {
    let chord = vec![NOTE_G3, NOTE_ASHARP3, NOTE_C4, NOTE_DSHARP4];
    assert_eq!(detect_chord(&chord), vec![Chord::Minor7(Key(0))]);
}

#[test]
fn test_chord_key() {
    assert_eq!(Chord::Minor7(Key(0)).key(), &Key(0));
}

#[test]
fn recognize_c_major() {
    // held notes C4, E4, G4 read as C major
    assert_eq!(detect_chord(&vec![60, 64, 67])[0], Chord::Major(Key(0)));
}

#[test]
fn recognize_first_inversion() {
    // held notes E4, G4, C5: the first inversion of C major
    assert_eq!(detect_chord(&vec![64, 67, 72])[0], Chord::Major(Key(0)));
}

#[test]
fn roundtrip_major_all_roots() {
    for r in 0..12u8 {
        let chord = Chord::Major(Key(r));
        assert_eq!(detect_chord(&chord.notes(4, 0)), vec![chord]);
    }
}

#[test]
fn roundtrip_minor7_all_roots() {
    for r in 0..12u8 {
        let chord = Chord::Minor7(Key(r));
        assert_eq!(detect_chord(&chord.notes(4, 0)), vec![chord]);
    }
}

#[test]
fn minor7_first_inversion_reads_major6() {
    let chord = Chord::Minor7(Key(0));
    assert_eq!(detect_chord(&chord.notes(4, 1)), vec![Chord::Major6(Key(3))]);
}

#[test]
fn sus2_first_inversion_reads_sus4() {
    let chord = Chord::Sus2(Key(0));
    assert_eq!(detect_chord(&chord.notes(4, 1)), vec![Chord::Sus4(Key(7))]);
}

#[test]
fn dim7_first_inversion_keeps_quality() {
    let chord = Chord::Dim7(Key(0));
    assert_eq!(detect_chord(&chord.notes(4, 1)), vec![Chord::Dim7(Key(3))]);
}

#[test]
fn major7b5_first_inversion_disambiguates() {
    // the two enharmonically equal flat-five readings collapse to one
    let chord = Chord::Major7b5(Key(0));
    assert_eq!(detect_chord(&chord.notes(4, 1)), vec![Chord::Major7b5(Key(0))]);
}

#[test]
fn key_addition_wraps_the_octave() {
    assert_eq!(Key(9).add(Key(5)), Key(2));
    assert_eq!(Key(0).add(Key(7)), Key(7));
}
