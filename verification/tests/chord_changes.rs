use komp::detect::interpret;
use komp::detect::interpret_dsl;
use komp::detect::part_to_timed_midi_events;
use komp::detect::parts_to_timed_midi_events;
use komp::detect::split_parts;
use komp::detect::step_to_timed_midi_events;
use komp::detect::steps;
use komp::key::NOTE_C4;
use komp::key::NOTE_D4;
use komp::key::NOTE_E4;
use komp::key::NOTE_EFLAT4;
use komp::key::NOTE_G4;
use komp::pattern::TimeCode;
use komp::play::Event;
use komp::play::TimedEvent;

#[test]
fn test_chord_change_dsl_split() {
    let changes = [
        // C, no changes
        ("C E G", vec![vec!["C"], vec!["E"], vec!["G"]]),
        // C7 to C
        (
            "C E G [Bb -] ",
            vec![vec!["C"], vec!["E"], vec!["G"], vec!["Bb", "-"]],
        ),
        // C to Cm
        (
            "  C  [ E   Eb ]   G  ",
            vec![vec!["C"], vec!["E", "Eb"], vec!["G"]],
        ),
        // C to C7
        (
            "C E G [- Bb]",
            vec![vec!["C"], vec!["E"], vec!["G"], vec!["-", "Bb"]],
        ),
        // C to C
        ("[C C] E G", vec![vec!["C", "C"], vec!["E"], vec!["G"]]),
        // C7 to nothing, but keep C7
        (
            "[C -] [E -] [G -] [Bb -]",
            vec![
                vec!["C", "-"],
                vec!["E", "-"],
                vec!["G", "-"],
                vec!["Bb", "-"],
            ],
        ),
        // C to Em to G
        (
            "[C - -] [E _ -] [G _ _] [- B _] [- - D]",
            vec![
                vec!["C", "-", "-"],
                vec!["E", "_", "-"],
                vec!["G", "_", "_"],
                vec!["-", "B", "_"],
                vec!["-", "-", "D"],
            ],
        ),
        // C to F
        (
            "C [E F] [G A]",
            vec![vec!["C"], vec!["E", "F"], vec!["G", "A"]],
        ),
        // C to F
        (
            "[C C] [E F] [G A]",
            vec![vec!["C", "C"], vec!["E", "F"], vec!["G", "A"]],
        ),
        // C to F
        (
            "[C - C] [E - F] [G - A]",
            vec![
                vec!["C", "-", "C"],
                vec!["E", "-", "F"],
                vec!["G", "-", "A"],
            ],
        ),
        // C to F
        (
            "[C F] [E A] [G C']",
            vec![vec!["C", "F"], vec!["E", "A"], vec!["G", "C'"]],
        ),
    ];

    for (chord_change, components) in changes.iter() {
        assert!(
            split_parts(*chord_change).eq(components),
            "{}",
            *chord_change
        );
    }
}

#[test]
fn test_chord_change_dsl_steps() {
    let changes = [
        ("C", 1),
        ("C  -", 2),
        ("C D ", 2),
        (" C - D ", 3),
        ("  C   D   E  ", 3),
    ];

    for (change, len) in changes.iter() {
        assert_eq!(steps(*change).len(), *len as usize, "{}", *change);
    }
}

#[test]
fn simple_note_names() {
    let cases: [(&str, u8); 17] = [
        ("C", 60),
        ("C#", 61),
        ("Db", 61),
        ("D", 62),
        ("D#", 63),
        ("Eb", 63),
        ("E", 64),
        ("F", 65),
        ("F#", 66),
        ("Gb", 66),
        ("G", 67),
        ("G#", 68),
        ("Ab", 68),
        ("A", 69),
        ("A#", 70),
        ("Bb", 70),
        ("B", 71),
    ];
    for (name, note) in cases.iter() {
        assert_eq!(interpret(steps(*name)), vec![(Some(*note), 1)], "{}", *name);
    }
}

#[test]
fn c_len3() {
    assert_eq!(interpret(steps("C _ _")), vec![(Some(NOTE_C4), 3)]);
}

#[test]
fn c_silence_len2_c() {
    assert_eq!(
        interpret(steps("C - _ C")),
        vec![(Some(NOTE_C4), 1), (None, 2), (Some(NOTE_C4), 1)]
    );
}

#[test]
fn c_d_e() {
    assert_eq!(
        interpret(steps("C D E")),
        vec![(Some(NOTE_C4), 1), (Some(NOTE_D4), 1), (Some(NOTE_E4), 1)]
    );
}

#[test]
fn c_to_cm_len2() {
    let interpreted_parts = interpret_dsl("C [E Eb] G");
    let il = vec![
        vec![(Some(NOTE_C4), 2)],
        vec![(Some(NOTE_E4), 1), (Some(NOTE_EFLAT4), 1)],
        vec![(Some(NOTE_G4), 2)],
    ];
    assert!(interpreted_parts.eq(&il));
}

#[test]
fn c_to_cm_len3_variant2() {
    let interpreted_parts = interpret_dsl("C [E _ Eb] [G _]");
    let il = vec![
        vec![(Some(NOTE_C4), 3)],
        vec![(Some(NOTE_E4), 2), (Some(NOTE_EFLAT4), 1)],
        vec![(Some(NOTE_G4), 3)],
    ];
    assert!(interpreted_parts.eq(&il));
}

#[test]
fn test_silent_step_to_timed_midi_events() {
    let ticks_per_quarter = 96;
    let offset = TimeCode::new(1, 0, 0);
    let expected_end_part = TimeCode::new(4, 0, 0);
    let (data, end_part) = step_to_timed_midi_events((None, 3), offset, ticks_per_quarter);

    assert_eq!(end_part, expected_end_part);
    assert_eq!(data.len(), 0);
}

#[test]
fn test_note_step_to_timed_midi_events() {
    let ticks_per_quarter = 96;
    let offset = TimeCode::new(1, 0, 0);
    let expected_end_note = TimeCode::new(3, 3, 0);
    let expected_end_part = TimeCode::new(4, 0, 0);
    let (data, end_part) =
        step_to_timed_midi_events((Some(NOTE_C4), 3), offset, ticks_per_quarter);

    assert_eq!(end_part, expected_end_part);
    assert_eq!(
        data,
        vec![
            TimedEvent {
                timing: offset.ticks(ticks_per_quarter),
                event: Event::NoteOn {
                    channel: 0,
                    note: NOTE_C4,
                    velocity: 100,
                }
            },
            TimedEvent {
                timing: expected_end_note.ticks(ticks_per_quarter),
                event: Event::NoteOff {
                    channel: 0,
                    note: 60,
                    velocity: 64
                }
            }
        ]
    );
}

#[test]
fn test_part_to_timed_midi_events() {
    let ticks_per_quarter = 96;
    let offset = TimeCode::new(1, 0, 0);
    let parts = vec![(Some(NOTE_E4), 1), (None, 1), (Some(NOTE_EFLAT4), 1)];
    let events = part_to_timed_midi_events(&parts, offset, ticks_per_quarter);

    assert_eq!(events.len(), 4);
}

#[test]
fn test_parts_to_timed_midi_events() {
    let ticks_per_quarter = 96;
    let offset = TimeCode::new(1, 0, 0);
    let parts = vec![
        vec![(Some(NOTE_C4), 2)],
        vec![(Some(NOTE_E4), 1), (Some(NOTE_EFLAT4), 1)],
        vec![(Some(NOTE_G4), 2)],
    ];

    let events = parts_to_timed_midi_events(&parts, offset, ticks_per_quarter);

    assert_eq!(events.len(), 8);
}

#[test]
fn interpreted_parts_span_the_same_beats() {
    // every voice of a change stretches to the longest span
    let parts = interpret_dsl("[C - -] [E _ -] [G _ _] [- B _] [- - D]");
    for part in parts.iter() {
        let total: u32 = part.iter().map(|step| step.1 as u32).sum();
        assert_eq!(total, 3);
    }
}
