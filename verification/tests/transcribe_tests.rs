use iuretranscribe::transcribe::{clean_repetitions, collect_segments, is_non_speech_marker, wrong_script, RawSegment};

#[test]
fn wrong_script_detects_noise() {
    assert!(wrong_script("es", "оном"));
    assert!(!wrong_script("es", "Sí, ya se ve. ¿Qué tal?"));
    assert!(!wrong_script("ru", "оном"));
    assert!(!wrong_script("auto", "оном"));
}

#[test]
fn repetitions_are_trimmed() {
    assert_eq!(clean_repetitions("Hola, ¿cómo estás?").as_deref(), Some("Hola, ¿cómo estás?"));
    assert_eq!(clean_repetitions("No, no, no, eso no.").as_deref(), Some("No, no, no, eso no."));
    assert_eq!(clean_repetitions("Sí, sí, sí, sí, sí, sí, sí, sí, sí, sí,"), None);
    assert_eq!(clean_repetitions("no no no no no no no no"), None);
    assert_eq!(
        clean_repetitions("Entonces lo revisamos mañana y sí, sí, sí, sí, sí, sí, sí, sí,").as_deref(),
        Some("Entonces lo revisamos mañana y sí, sí, sí…")
    );
    assert_eq!(
        clean_repetitions("Le digo que no sé, no sé, no sé, no sé, no sé qué pasó con el contrato").as_deref(),
        Some("Le digo que no sé, no sé qué pasó con el contrato")
    );
}

#[test]
fn text_without_loops_is_returned_verbatim() {
    // Nothing removed: the original spacing survives.
    assert_eq!(clean_repetitions("  uno   dos  ").as_deref(), Some("  uno   dos  "));
    assert_eq!(clean_repetitions("").as_deref(), Some(""));
}

#[test]
fn short_loops_inside_longer_text_keep_words() {
    // Four "a" in a row become three; the text has enough other words.
    assert_eq!(
        clean_repetitions("uno dos tres cuatro cinco a a a a").as_deref(),
        Some("uno dos tres cuatro cinco a a a")
    );
}

#[test]
fn non_speech_markers() {
    assert!(is_non_speech_marker(" [MÚSICA] "));
    assert!(is_non_speech_marker("(Aplausos)"));
    assert!(is_non_speech_marker("♪ la la"));
    assert!(!is_non_speech_marker("Hola [x]"));
    assert!(!is_non_speech_marker("["));
    assert!(!is_non_speech_marker("   "));
}

fn opts(language: &str, threads: u32, prompt: Option<&str>) -> iuretranscribe::transcribe::Options {
    iuretranscribe::transcribe::Options {
        job_id: "j".into(),
        input: "a.wav".into(),
        model_path: "m.bin".into(),
        language: language.into(),
        translate: false,
        use_gpu: false,
        threads,
        beam_size: 5,
        initial_prompt: prompt.map(|p| p.to_string()),
    }
}

#[test]
fn decode_plans() {
    let p = iuretranscribe::transcribe::decode_plan(&opts("auto", 0, Some("  ")), false, 12);
    assert_eq!(p.beam_size, 5);
    assert_eq!(p.threads, 8);
    assert_eq!(p.language, None);
    assert_eq!(p.initial_prompt, None);
    assert!(p.emit_events && !p.live_mode);
    let p = iuretranscribe::transcribe::decode_plan(&opts("es", 0, Some("Iurefficient.")), true, 4);
    assert_eq!(p.beam_size, 1);
    assert_eq!(p.threads, 4);
    assert_eq!(p.language.as_deref(), Some("es"));
    assert_eq!(p.initial_prompt.as_deref(), Some("Iurefficient."));
    assert!(!p.emit_events && p.live_mode);
    let p = iuretranscribe::transcribe::decode_plan(&opts("", 3, None), false, 16);
    assert_eq!(p.threads, 3);
    assert_eq!(p.language, None);
    assert!(iuretranscribe::transcribe::enough_audio(8000));
    assert!(!iuretranscribe::transcribe::enough_audio(7999));
}

#[test]
fn segments_are_collected() {
    let raw = vec![
        RawSegment { start_cs: 0, end_cs: 150, text: Some("  Hola a todos. ".into()), no_speech: false },
        RawSegment { start_cs: 150, end_cs: 200, text: Some("   ".into()), no_speech: false },
        RawSegment { start_cs: 200, end_cs: 300, text: None, no_speech: false },
        RawSegment { start_cs: 300, end_cs: 400, text: Some("[Música]".into()), no_speech: false },
        RawSegment { start_cs: 400, end_cs: 500, text: Some("Sí, sí, sí, sí, sí, sí, sí, sí, sí, sí,".into()), no_speech: false },
        RawSegment { start_cs: 500, end_cs: 600, text: Some("Bien.".into()), no_speech: true },
    ];
    let all = collect_segments(&raw, false, "es");
    let texts: Vec<_> = all.iter().map(|s| s.text.as_str()).collect();
    assert_eq!(texts, vec!["Hola a todos.", "[Música]", "Bien."]);
    assert_eq!((all[0].start_ms, all[0].end_ms), (0, 1500));
    assert!(all.iter().all(|s| s.speaker.is_none()));
    let live = collect_segments(&raw, true, "es");
    let texts: Vec<_> = live.iter().map(|s| s.text.as_str()).collect();
    assert_eq!(texts, vec!["Hola a todos."]);
}

#[test]
fn decoded_checks_and_reported_segments() {
    assert_eq!(iuretranscribe::transcribe::decoded_check(true, 100_000), Err("Cancelado".to_string()));
    assert_eq!(
        iuretranscribe::transcribe::decoded_check(false, 7_999),
        Err("El archivo no contiene audio suficiente para transcribir".to_string())
    );
    assert_eq!(iuretranscribe::transcribe::decoded_check(false, 8_000), Ok(()));
    let s = iuretranscribe::transcribe::reported_segment(12, 345, "  hola  ");
    assert_eq!((s.start_ms, s.end_ms, s.text.as_str()), (120, 3450, "hola"));
    assert!(s.speaker.is_none());
}

#[test]
fn only_a_loop_gives_none() {
    assert_eq!(clean_repetitions("no no no no no"), None);
    assert_eq!(clean_repetitions("Sí, sí, sí, sí,"), None);
    assert_eq!(clean_repetitions("no sé no sé no sé"), None);
    assert_eq!(clean_repetitions("ya sí sí sí sí sí sí sí sí").as_deref(), Some("ya sí sí sí"));
    assert_eq!(clean_repetitions("no, no, no").as_deref(), Some("no, no, no"));
    assert_eq!(clean_repetitions("no sé no sé").as_deref(), Some("no sé no sé"));
}
