use std::collections::HashSet;

use komp::chord::Chord;
use komp::key::Key;
use komp::key::NOTE_A3;
use komp::key::NOTE_C3;
use komp::key::NOTE_C4;
use komp::key::NOTE_E3;
use komp::key::NOTE_F3;
use komp::key::NOTE_G3;
use komp::pattern::create_bar;
use komp::pattern::create_bars;
use komp::play::midi_encode_event;
use komp::play::mute_playing;
use komp::play::schedule_timeslice;
use komp::play::ticks_to_time;
use komp::play::Event;
use komp::play::PacketBuffer;
use komp::play::Scheduler;
use komp::play::TimedEvent;
use komp::play::NS_PER_MS;
use komp::play::NS_PER_US;
use komp::tracker::extract_playing_notes;
use komp::tracker::process_midi;
use komp::tracker::Playing;

fn playing_from(pairs: &[(u8, u8)]) -> Playing {
    let mut playing = Playing::new();
    for &(channel, note) in pairs {
        playing.insert(channel, note);
    }
    playing
}

#[test]
fn test_mute_playing() {
    let mut playing = playing_from(&[(1, NOTE_C3), (2, NOTE_G3)]);

    let packet_buf = mute_playing(&playing);

    for packet in packet_buf.packets.iter() {
        extract_playing_notes(&packet.data, &mut playing, false);
    }
    assert_eq!(playing.len(), 0);
}

#[test]
fn test_midi_encoding_note_on() {
    let channel = 0xc;
    let note = NOTE_E3;
    let velocity = 81;

    let event = Event::NoteOn {
        channel,
        note,
        velocity,
    };

    let data = midi_encode_event(&event, Key(0));

    assert_eq!(data, [0x9c, NOTE_E3, velocity]);
}

#[test]
fn test_midi_encoding_note_off() {
    let channel = 0xc;
    let note = NOTE_E3;
    let velocity = 81;

    let event = Event::NoteOff {
        channel,
        note,
        velocity,
    };

    let data = midi_encode_event(&event, Key(0));

    assert_eq!(data, [0x8c, NOTE_E3, velocity]);
}

fn create_scheduler_for_c_f_with_slice_length(slice_length: u64) -> Scheduler {
    let pattern_start = 200_000_000_000_000;
    let ticks_per_quarter = 96;
    let us_per_quarter = 500_000;
    let progression = [Chord::Major(Key(0)), Chord::Major(Key(5))];
    let timed_events = create_bars(ticks_per_quarter, &progression);
    // two bars at this tempo is exactly 4 seconds
    let pattern_length = 4_000 * NS_PER_MS;
    let scheduling_deadline_margin = 50 * NS_PER_MS;

    Scheduler::new(
        pattern_start,
        slice_length,
        scheduling_deadline_margin,
        timed_events,
        pattern_length,
        us_per_quarter,
        ticks_per_quarter,
    )
}

fn create_scheduler() -> Scheduler {
    let slice_length = 200 * NS_PER_MS;
    create_scheduler_for_c_f_with_slice_length(slice_length)
}

#[test]
fn test_note_accumulation() {
    let pattern_length = 4_000 * NS_PER_MS;
    let mut scheduler = create_scheduler_for_c_f_with_slice_length(pattern_length - NS_PER_MS);
    let initial_start = scheduler.pattern_start();
    let now = initial_start;
    let mut playing = Playing::new();
    let played = playing_from(&[
        (0, NOTE_C3),
        (0, NOTE_E3),
        (0, NOTE_G3),
        (0, NOTE_F3),
        (0, NOTE_A3),
        (0, NOTE_C4),
    ]);
    let mut slice_start = now;

    let (_, packet_buf) = scheduler.schedule_slice(now, &mut slice_start, Key(0));
    for packet in packet_buf.packets.iter() {
        extract_playing_notes(&packet.data, &mut playing, true);
    }
    assert_eq!(playing.to_vec(), played.to_vec());
}

#[test]
fn test_scheduler_multiple_loops() {
    let mut scheduler = create_scheduler();
    let initial_start = scheduler.pattern_start();
    let mut now = scheduler.pattern_start();
    let mut slice_start = 0;

    while slice_start + scheduler.slice_length()
        <= initial_start + 160 * scheduler.pattern_length()
    {
        let (sleep_time, _) = scheduler.schedule_slice(now, &mut slice_start, Key(0));

        // use wrapping add to simulate adding a negative number
        now = now.wrapping_add(sleep_time as u64);
    }
    assert!(initial_start < scheduler.pattern_start());
    assert_eq!(slice_start, scheduler.pattern_start());
}

#[test]
fn test_scheduler() {
    let mut scheduler = create_scheduler();
    let initial_start = scheduler.pattern_start();
    let mut now = initial_start;
    let mut playing = Playing::new();
    let mut played: HashSet<Vec<(u8, u8)>> = HashSet::new();
    let wake_up_jitter = [-10_000_123i64, 20_123_234, -30_000_123, 10_456_234, 70_000_001];
    let mut slices = 0;
    let mut slice_start = now;

    while slice_start + scheduler.slice_length() <= initial_start + 2 * scheduler.pattern_length()
    {
        let (sleep_time, packet_buf) = scheduler.schedule_slice(now, &mut slice_start, Key(0));
        for packet in packet_buf.packets.iter() {
            process_midi(&packet.data, &mut playing);
            played.insert(playing.to_vec());
        }
        // use wrapping add to simulate adding a negative number
        now = now.wrapping_add((sleep_time + wake_up_jitter[slices % wake_up_jitter.len()]) as u64);
        slices += 1;
    }

    assert!(slice_start == initial_start + 2 * scheduler.pattern_length());
    assert_eq!(slice_start, scheduler.pattern_start());
    assert_eq!(playing.len(), 0);

    let f_major = vec![(0, NOTE_F3), (0, NOTE_A3), (0, NOTE_C4)];
    let c_major = vec![(0, NOTE_C3), (0, NOTE_E3), (0, NOTE_G3)];
    assert!(played.contains(&vec![]));
    assert!(played.contains(&c_major));
    assert!(played.contains(&f_major));
}

#[test]
fn test_continual_scheduling() {
    let pattern_start = 200_000_000_000_000;
    let ticks_per_quarter = 96;
    let us_per_quarter = 500_000;
    let progression = [Chord::Major(Key(0)), Chord::Major(Key(5))];
    let timed_events = create_bars(ticks_per_quarter, &progression);
    let slice_length = 200 * NS_PER_MS;
    // two bars at this tempo is exactly 4 seconds
    let pattern_length = 4_000 * NS_PER_MS;
    let scheduling_deadline_margin = 50 * NS_PER_MS;

    let mut slice_start = pattern_start;
    let mut now = pattern_start;
    let mut playing = Playing::new();
    let mut played: HashSet<Vec<(u8, u8)>> = HashSet::new();
    let wake_up_jitter = [-10_000_123i64, 20_123_234, -30_000_123, 10_456_234, 70_000_001];
    let mut slices = 0;
    while slice_start + slice_length <= pattern_start + 2 * pattern_length {
        let packet_buf = schedule_timeslice(
            pattern_start,
            slice_start,
            slice_length,
            &timed_events,
            pattern_length,
            Key(0),
            us_per_quarter,
            ticks_per_quarter,
        );

        for packet in packet_buf.packets.iter() {
            process_midi(&packet.data, &mut playing);
            played.insert(playing.to_vec());
        }

        slice_start += slice_length;
        let slice_end_time = slice_start;
        // sleep until slice_end_time - scheduling_deadline_margin
        let sleep_time = (slice_end_time - scheduling_deadline_margin) - now;
        // use wrapping add to simulate adding a negative number
        now += sleep_time.wrapping_add(wake_up_jitter[slices % wake_up_jitter.len()] as u64);
        slices += 1;
    }

    assert!(slice_start == pattern_start + 2 * pattern_length);
    assert_eq!(playing.len(), 0);

    let f_major = vec![(0, NOTE_F3), (0, NOTE_A3), (0, NOTE_C4)];
    let c_major = vec![(0, NOTE_C3), (0, NOTE_E3), (0, NOTE_G3)];
    assert!(played.contains(&vec![]));
    assert!(played.contains(&c_major));
    assert!(played.contains(&f_major));
}

fn extract_timings(packet_buf: &PacketBuffer) -> Vec<u64> {
    let mut timings = vec![];
    for packet in packet_buf.packets.iter() {
        timings.push(packet.timestamp);
    }

    timings.sort();
    timings.dedup();
    timings
}

fn package_pattern_timeslice(pattern_start: u64, now: u64) -> PacketBuffer {
    let ticks_per_quarter = 96;
    let us_per_quarter = 500_000;
    let progression = [Chord::Major(Key(0)), Chord::Major(Key(5))];
    let timed_events = create_bars(ticks_per_quarter, &progression);
    let two_hundred_and_fifty_ms = 250 * NS_PER_MS;
    // two bars at this tempo is exactly 4 seconds
    let pattern_length = 4_000 * NS_PER_MS;
    schedule_timeslice(
        pattern_start,
        now,
        two_hundred_and_fifty_ms,
        &timed_events,
        pattern_length,
        Key(0),
        us_per_quarter,
        ticks_per_quarter,
    )
}

fn verify_playing(packet_buf: &PacketBuffer, mut playing: Playing, afterwards: Playing) {
    for packet in packet_buf.packets.iter() {
        process_midi(&packet.data, &mut playing);
    }
    assert_eq!(playing.to_vec(), afterwards.to_vec());
}

#[test]
fn test_partial_scheduling_events() {
    let pattern_start = 200_000_000_000_000;
    // just before the last note-offs in the first bar (C key)
    // this slice extends over to the first note-ons of the second bar (F key)
    let now = pattern_start + 1_800 * NS_PER_MS;
    let packet_buf = package_pattern_timeslice(pattern_start, now);

    // pretend that a C Major chord is playing in octave 3
    // afterwards the currently playing notes should be a F Major chord
    let playing = playing_from(&[(0, NOTE_C3), (0, NOTE_E3), (0, NOTE_G3)]);
    let afterwards = playing_from(&[(0, NOTE_F3), (0, NOTE_A3), (0, NOTE_C4)]);

    verify_playing(&packet_buf, playing, afterwards);
}

#[test]
fn test_partial_scheduling_timing() {
    let pattern_start = 200_000_000_000_000;
    // just before the last note-offs in the first bar (C key)
    // this slice extends over to the first note-ons of the second bar (F key)
    let now = pattern_start + 1_800 * NS_PER_MS;
    let packet_buf = package_pattern_timeslice(pattern_start, now);
    let timings = extract_timings(&packet_buf);

    let note_offs = pattern_start + 1_875 * NS_PER_MS;
    assert_eq!(timings[0], note_offs);
    let note_ons = pattern_start + 2_000 * NS_PER_MS;
    assert_eq!(timings[1], note_ons);
}

#[test]
fn test_partial_scheduling_events_with_loop() {
    let pattern_start = 200_000_000_000_000;
    // just before the last note-offs in the second bar (F key)
    // this slice extends over to the first note-ons of the repeated first bar (C key)
    let now = pattern_start + 3_800 * NS_PER_MS;
    let packet_buf = package_pattern_timeslice(pattern_start, now);

    // pretend that a F Major chord is playing in octave 3
    // afterwards the currently playing notes should be a C Major chord
    let playing = playing_from(&[(0, NOTE_F3), (0, NOTE_A3), (0, NOTE_C4)]);
    let afterwards = playing_from(&[(0, NOTE_C3), (0, NOTE_E3), (0, NOTE_G3)]);

    verify_playing(&packet_buf, playing, afterwards);
}

#[test]
fn test_partial_scheduling_timing_with_loop() {
    let pattern_start = 200_000_000_000_000;
    // just before the last note-offs in the second bar (F key)
    // this slice extends over to the first note-ons of the repeated first bar (C key)
    let now = pattern_start + 3_800 * NS_PER_MS;
    let packet_buf = package_pattern_timeslice(pattern_start, now);
    let timings = extract_timings(&packet_buf);

    let note_offs = pattern_start + 3_875 * NS_PER_MS;
    assert_eq!(timings[0], note_offs);
    let note_ons = pattern_start + 4_000 * NS_PER_MS;
    assert_eq!(timings[1], note_ons);
}

fn schedule_bar(
    offset: u64,
    timed_events: Vec<TimedEvent>,
    key: Key,
    us_per_quarter: u32,
    ticks_per_quarter: u32,
) -> PacketBuffer {
    let one_bar = us_per_quarter as u64 * 4 * NS_PER_US;
    schedule_timeslice(
        offset,
        offset,
        one_bar,
        &timed_events,
        one_bar,
        key,
        us_per_quarter,
        ticks_per_quarter,
    )
}

fn create_packets(ticks_per_quarter: u32, us_per_quarter: u32) -> (u64, PacketBuffer) {
    let timed_events = create_bar(ticks_per_quarter, Chord::Major(Key(0)));
    let timestamp = 200_000_000_000_000;
    let packet_buf = schedule_bar(
        timestamp,
        timed_events,
        Key(0),
        us_per_quarter,
        ticks_per_quarter,
    );

    (timestamp, packet_buf)
}

fn assert_timings(packet_buf: PacketBuffer, timestamp: u64, us_per_quarter: u32) {
    assert_ne!(packet_buf.len(), 0);

    let timings = extract_timings(&packet_buf);

    // even timings are note ons, odds are note offs
    assert_eq!(timings[0] - timestamp, 0 as u64);
    assert_eq!(timings[2] - timestamp, 1 * us_per_quarter as u64 * NS_PER_US);
    assert_eq!(timings[4] - timestamp, 2 * us_per_quarter as u64 * NS_PER_US);
    assert_eq!(timings[6] - timestamp, 3 * us_per_quarter as u64 * NS_PER_US);
}

#[test]
fn test_chord_part_scheduled_timing_lores() {
    let ticks_per_quarter = 16;
    let us_per_quarter = 500_000;
    let (timestamp, packet_buf) = create_packets(ticks_per_quarter, us_per_quarter);

    assert_timings(packet_buf, timestamp, us_per_quarter)
}

#[test]
fn test_chord_part_scheduled_timing_lores_slow() {
    let ticks_per_quarter = 16;
    let us_per_quarter = 500_000_000;
    let (timestamp, packet_buf) = create_packets(ticks_per_quarter, us_per_quarter);

    assert_timings(packet_buf, timestamp, us_per_quarter)
}

#[test]
fn test_chord_part_scheduled_timing_hires() {
    let ticks_per_quarter = 96_000;
    let us_per_quarter = 500_000;
    let (timestamp, packet_buf) = create_packets(ticks_per_quarter, us_per_quarter);

    assert_timings(packet_buf, timestamp, us_per_quarter)
}

#[test]
fn test_chord_part_scheduled_timing_hires_fast() {
    let ticks_per_quarter = 96_000;
    let us_per_quarter = 5_000;
    let (timestamp, packet_buf) = create_packets(ticks_per_quarter, us_per_quarter);

    assert_timings(packet_buf, timestamp, us_per_quarter)
}

#[test]
fn scheduler_first_slice() {
    // one bar of C-major quarter notes at 120 BPM: the first 200 ms
    // slice carries exactly the three opening note-ons, and the
    // caller may sleep for the slice minus the 50 ms margin
    let ticks_per_quarter = 96;
    let us_per_quarter = 500_000;
    let pattern_start = 200_000_000_000_000;
    let timed_events = create_bar(ticks_per_quarter, Chord::Major(Key(0)));
    let pattern_length = 2_000 * NS_PER_MS;
    let slice_length = 200 * NS_PER_MS;
    let margin = 50 * NS_PER_MS;
    let mut scheduler = Scheduler::new(
        pattern_start,
        slice_length,
        margin,
        timed_events,
        pattern_length,
        us_per_quarter,
        ticks_per_quarter,
    );

    let mut slice_start = pattern_start;
    let (sleep_time, packet_buf) = scheduler.schedule_slice(pattern_start, &mut slice_start, Key(0));

    assert_eq!(sleep_time, 150 * NS_PER_MS as i64);
    assert_eq!(packet_buf.len(), 3);
    let expected = [NOTE_C3, NOTE_E3, NOTE_G3];
    for (packet, note) in packet_buf.packets.iter().zip(expected.iter()) {
        assert_eq!(packet.timestamp, pattern_start);
        assert_eq!(packet.data, [0x90, *note, 120]);
    }
}

#[test]
fn scheduler_wrap_advances_pattern_start() {
    // a slice that crosses the pattern end gathers the closing
    // note-offs and the re-homed opening note-ons, and the pattern
    // origin advances by one loop
    let mut scheduler = create_scheduler_for_c_f_with_slice_length(250 * NS_PER_MS);
    let initial_start = scheduler.pattern_start();
    let mut slice_start = initial_start + 3_800 * NS_PER_MS;
    let now = slice_start;

    let (_, packet_buf) = scheduler.schedule_slice(now, &mut slice_start, Key(0));

    let timings = extract_timings(&packet_buf);
    assert_eq!(timings[0], initial_start + 3_875 * NS_PER_MS);
    assert_eq!(timings[1], initial_start + 4_000 * NS_PER_MS);
    assert_eq!(
        scheduler.pattern_start(),
        initial_start + scheduler.pattern_length()
    );
}

#[test]
fn one_loop_emits_each_event_exactly_once() {
    // ten 200 ms slices tile one 2-second bar: the 24 events of the
    // bar (four hits of three note-ons and three note-offs) come out
    // exactly once each
    let ticks_per_quarter = 96;
    let us_per_quarter = 500_000;
    let pattern_start = 200_000_000_000_000;
    let timed_events = create_bar(ticks_per_quarter, Chord::Major(Key(0)));
    assert_eq!(timed_events.len(), 24);
    let pattern_length = 2_000 * NS_PER_MS;
    let mut scheduler = Scheduler::new(
        pattern_start,
        200 * NS_PER_MS,
        50 * NS_PER_MS,
        timed_events,
        pattern_length,
        us_per_quarter,
        ticks_per_quarter,
    );

    let mut slice_start = pattern_start;
    let mut emitted = 0;
    for turn in 0..10 {
        let now = pattern_start + turn * 200 * NS_PER_MS;
        let (_, packet_buf) = scheduler.schedule_slice(now, &mut slice_start, Key(0));
        emitted += packet_buf.len();
    }
    assert_eq!(emitted, 24);
    assert_eq!(scheduler.pattern_start(), pattern_start + pattern_length);
}

#[test]
fn ticks_to_time_follows_the_tempo() {
    // 96 ticks at 500 000 us per quarter and 96 ticks per quarter is
    // exactly one half second past the offset
    assert_eq!(ticks_to_time(1_000, 96, 500_000, 96), 1_000 + 500 * NS_PER_MS);
    assert_eq!(ticks_to_time(0, 48, 500_000, 96), 250 * NS_PER_MS);
}

#[test]
fn mute_playing_sends_silencing_bytes() {
    let playing = playing_from(&[(1, NOTE_C3), (2, NOTE_G3)]);
    let packet_buf = mute_playing(&playing);
    assert_eq!(packet_buf.len(), 2);
    assert_eq!(packet_buf.packets[0].timestamp, 0);
    assert_eq!(packet_buf.packets[0].data, [0x91, NOTE_C3, 0]);
    assert_eq!(packet_buf.packets[1].data, [0x92, NOTE_G3, 0]);
}
