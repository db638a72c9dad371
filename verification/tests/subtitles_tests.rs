use iuretranscribe::subtitles;
use iuretranscribe::subtitles::{to_plain, to_srt, to_txt, to_vtt, ts, Segment};

fn s(a: i64, b: i64, text: &str, speaker: Option<&str>) -> Segment {
    Segment { start_ms: a, end_ms: b, text: text.into(), speaker: speaker.map(String::from) }
}

#[test]
fn timestamps() {
    assert_eq!(ts(0, ','), "00:00:00,000");
    assert_eq!(ts(3_723_004, '.'), "01:02:03.004");
    assert_eq!(ts(-5, ','), "00:00:00,000");
    assert_eq!(ts(360_000_000, ','), "100:00:00,000");
}

#[test]
fn lines_with_and_without_speaker() {
    assert_eq!(subtitles::line(&s(0, 1, "  hola ", Some(" Ana "))), "Ana: hola");
    assert_eq!(subtitles::line(&s(0, 1, " hola", Some("   "))), "hola");
    assert_eq!(subtitles::line(&s(0, 1, "hola ", None)), "hola");
}

#[test]
fn formats() {
    let segs = vec![s(0, 1500, "Hola", None), s(1500, 3000, " ", Some("Ana")), s(61_000, 62_500, "adiós", None)];
    assert_eq!(
        to_srt(&segs),
        "1\n00:00:00,000 --> 00:00:01,500\nHola\n\n2\n00:00:01,500 --> 00:00:03,000\nAna: \n\n3\n00:01:01,000 --> 00:01:02,500\nadiós\n\n"
    );
    assert_eq!(
        to_vtt(&segs[..1]),
        "WEBVTT\n\n00:00:00.000 --> 00:00:01.500\nHola\n\n"
    );
    assert_eq!(to_txt(&segs), "Hola\nAna: \nadiós\n");
    assert_eq!(to_plain(&segs), "Hola Ana:  adiós");
    assert_eq!(to_plain(&[s(0, 1, " ", None), s(1, 2, "a", None)]), "a");
    assert_eq!(to_vtt(&[]), "WEBVTT\n\n");
    assert_eq!(to_srt(&[]), "");
}

#[test]
fn text_of_joined_runs() {
    let a = vec![s(0, 1, "uno", None), s(1, 2, "dos", Some("Ana"))];
    let b = vec![s(2, 3, "tres", None)];
    let mut ab = a.clone();
    ab.extend(b.clone());
    assert_eq!(to_txt(&ab), format!("{}{}", to_txt(&a), to_txt(&b)));
    let cues = |v: &[Segment]| to_vtt(v)["WEBVTT\n\n".len()..].to_string();
    assert_eq!(cues(&ab), format!("{}{}", cues(&a), cues(&b)));
}

#[test]
fn plain_text_is_one_line() {
    let segs = vec![s(0, 1, " uno\ndos\r\n", Some("A\nB")), s(1, 2, "tres\rcuatro", None)];
    let p = to_plain(&segs);
    assert_eq!(p, "A B: uno dos tres cuatro");
    assert!(!p.contains('\n') && !p.contains('\r'));
}
