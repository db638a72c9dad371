use iuretranscribe::diarize::{assign, Turn};
use iuretranscribe::subtitles::Segment;

fn seg(a: i64, b: i64) -> Segment {
    Segment { start_ms: a, end_ms: b, text: "x".into(), speaker: None }
}

#[test]
fn assign_by_overlap_and_order() {
    let turns = [
        Turn { start_ms: 0, end_ms: 4000, speaker: 3 },
        Turn { start_ms: 4000, end_ms: 9000, speaker: 0 },
        Turn { start_ms: 9500, end_ms: 12000, speaker: 3 },
    ];
    let mut segs = vec![seg(0, 3000), seg(3000, 8000), seg(9000, 9400), seg(9600, 11000)];
    assert_eq!(assign(&mut segs, &turns), 2);
    let names: Vec<_> = segs.iter().map(|s| s.speaker.clone().unwrap()).collect();
    assert_eq!(names, ["Hablante 1", "Hablante 2", "Hablante 2", "Hablante 1"]);
}

#[test]
fn no_turns_leave_speakers_untouched() {
    let mut segs = vec![seg(0, 10), Segment { start_ms: 5, end_ms: 9, text: "y".into(), speaker: Some("Eduardo".into()) }];
    assert_eq!(assign(&mut segs, &[]), 0);
    assert_eq!(segs[0].speaker, None);
    assert_eq!(segs[1].speaker.as_deref(), Some("Eduardo"));
}

#[test]
fn ties_go_to_the_first_turn() {
    let turns = [
        Turn { start_ms: 0, end_ms: 10, speaker: 7 },
        Turn { start_ms: 10, end_ms: 20, speaker: 8 },
    ];
    // Overlaps 5 and 5: the first turn wins; a segment between turns takes the nearest.
    let mut segs = vec![seg(5, 15), seg(30, 40)];
    assert_eq!(assign(&mut segs, &turns), 2);
    assert_eq!(segs[0].speaker.as_deref(), Some("Hablante 1"));
    assert_eq!(segs[1].speaker.as_deref(), Some("Hablante 2"));
    assert_eq!(segs[1].text, "x");
    assert_eq!(segs[1].start_ms, 30);
}

#[test]
fn sidecar_lines_are_split() {
    let f = iuretranscribe::diarize::sidecar_fields("3.372 49.087 0\n17.058 17.632 1\n\n");
    let s = |a: &str, b: &str, c: &str| Ok((a.to_string(), b.to_string(), c.to_string()));
    assert_eq!(f, vec![s("3.372", "49.087", "0"), s("17.058", "17.632", "1")]);
    assert_eq!(iuretranscribe::diarize::sidecar_fields("basura"), vec![Err("salida inesperada: basura".to_string())]);
    assert_eq!(iuretranscribe::diarize::sidecar_fields("1 2\r\n  \n4 5 6 7"), vec![Err("salida inesperada: 1 2".to_string()), s("4", "5", "6")]);
    assert!(iuretranscribe::diarize::sidecar_fields("").is_empty());
}
