use iuretranscribe::subtitles::Segment;
use iuretranscribe::vocab::{Correction, Corrector};

fn corr(wrong: &str, right: &str) -> Correction {
    Correction { wrong: wrong.into(), right: right.into() }
}

#[test]
fn replaces_variants_as_whole_words() {
    let c = Corrector::new(&[corr("Yaguno", "Llaguno"), corr("Euro efficient, Ureficient", "Iurefficient")]);
    assert_eq!(c.apply("Soy Eduardo yaguno, de Euro-efficient."), "Soy Eduardo Llaguno, de Iurefficient.");
    assert_eq!(c.apply("UREFICIENT y ureficient"), "Iurefficient y Iurefficient");
    assert_eq!(c.apply("euro  efficient"), "Iurefficient");
    // Words that only contain the variant are left alone.
    assert_eq!(c.apply("Yagunos"), "Yagunos");
    assert_eq!(c.apply("Neuro efficient"), "Neuro efficient");
}

#[test]
fn longest_variant_wins_and_is_idempotent() {
    let c = Corrector::new(&[corr("Iure, Iure eficient", "Iurefficient")]);
    assert_eq!(c.apply("Iure eficient"), "Iurefficient");
    assert_eq!(c.apply(&c.apply("Iure eficient")), "Iurefficient");
}

#[test]
fn no_corrections_leave_text_unchanged() {
    let c = Corrector::new(&[]);
    assert_eq!(c.apply("Hola, mundo"), "Hola, mundo");
    let d = Corrector::default();
    assert_eq!(d.apply("  x  "), "  x  ");
}

#[test]
fn blank_terms_and_self_variants_are_ignored() {
    // A correction without a term, and a variant equal to the term (ASCII case aside).
    let c = Corrector::new(&[corr("foo", "   "), corr("iurefficient, ,  ", "Iurefficient")]);
    assert_eq!(c.apply("foo IUREFFICIENT"), "foo IUREFFICIENT");
}

#[test]
fn variant_spaces_accept_hyphens_and_runs() {
    let c = Corrector::new(&[corr("a   b", "X")]);
    assert_eq!(c.apply("a - b, a-b, ab, a b"), "X, X, ab, X");
}

#[test]
fn apply_segments_keeps_times_and_speakers() {
    let c = Corrector::new(&[corr("Yaguno", "Llaguno")]);
    let mut segs = vec![
        Segment { start_ms: 10, end_ms: 20, text: "yaguno dijo".into(), speaker: Some("Ana".into()) },
        Segment { start_ms: 30, end_ms: 40, text: "nada".into(), speaker: None },
    ];
    c.apply_segments(&mut segs);
    assert_eq!(segs[0].text, "Llaguno dijo");
    assert_eq!(segs[0].start_ms, 10);
    assert_eq!(segs[0].speaker.as_deref(), Some("Ana"));
    assert_eq!(segs[1].text, "nada");
    assert_eq!(segs[1].end_ms, 40);
}

#[test]
fn prompt_merges_vocabulary_and_corrections() {
    let corrections = vec![corr("Yaguno", "Llaguno"), corr("Ureficient", "Iurefficient")];
    assert_eq!(iuretranscribe::vocab::initial_prompt("Eduardo Llaguno", &corrections).as_deref(), Some("Eduardo Llaguno. Iurefficient."));
    assert_eq!(iuretranscribe::vocab::initial_prompt("", &[]), None);
}

#[test]
fn prompt_from_corrections_alone_and_trimmed_vocabulary() {
    let corrections = vec![corr("Yaguno", "Llaguno")];
    assert_eq!(iuretranscribe::vocab::initial_prompt("   ", &corrections).as_deref(), Some("Llaguno."));
    assert_eq!(iuretranscribe::vocab::initial_prompt("  Ana  ", &[]).as_deref(), Some("Ana"));
}
