use iuretranscribe::outputs::{document_extension, document_parts, output_formats, recordings_dir, resolve_output_dir, safe_base_name, update_target, user_message};

#[test]
fn update_targets() {
    assert_eq!(update_target("linux", "x86_64", "CPU"), "linux-x86_64");
    assert_eq!(update_target("macos", "aarch64", "CPU"), "darwin-aarch64");
    assert_eq!(update_target("windows", "x86_64", "CUDA"), "windows-x86_64-cuda");
    assert_eq!(update_target("linux", "x86_64", "Vulkan"), "linux-x86_64-vulkan");
}

#[test]
fn output_dirs() {
    assert_eq!(resolve_output_dir("custom", Some("/out"), Some("/audio")), "/out");
    assert_eq!(resolve_output_dir("custom", Some("   "), Some("/audio")), "/audio");
    assert_eq!(resolve_output_dir("same", Some("/out"), Some("/audio")), "/audio");
    assert_eq!(resolve_output_dir("same", None, None), ".");
}

#[test]
fn formats_keep_known_ones_in_order() {
    let f = |v: &[&str]| output_formats(&v.iter().map(|s| s.to_string()).collect::<Vec<_>>());
    assert_eq!(f(&[]), vec!["srt"]);
    assert_eq!(f(&["json", "pdf", "srt", "txt", "vtt"]), vec!["json", "srt", "txt", "vtt"]);
    assert!(f(&["docx"]).is_empty());
}

#[test]
fn documents() {
    assert_eq!(document_parts("summary").unwrap(), ("Resume la siguiente transcripción:".to_string(), "_resumen.md".to_string()));
    assert_eq!(document_parts("minutes").unwrap().1, "_minuta.md");
    assert_eq!(document_parts("otro").unwrap_err(), "Tipo de documento desconocido: otro");
}

#[test]
fn user_messages() {
    assert_eq!(user_message("Resume:", None, "hola"), "Resume:\n\nhola");
    assert_eq!(user_message("Resume:", Some("  "), "hola"), "Resume:\n\nhola");
    assert_eq!(
        user_message("Resume:", Some(" Ana y Luis "), "hola"),
        "Resume:\n\nDatos proporcionados por el usuario sobre la reunión (úsalos y dales prioridad sobre lo que se infiera del audio):\nAna y Luis\n\nTranscripción:\n\nhola"
    );
}

#[test]
fn names_and_extensions() {
    assert_eq!(safe_base_name("a/b:c*d?.e"), "a_b_c_d_.e");
    assert_eq!(safe_base_name("Reunión 1"), "Reunión 1");
    assert_eq!(document_extension(Some("DOCX"), Some("text/plain")), "docx");
    assert_eq!(document_extension(None, Some("text/plain")), "txt");
    assert_eq!(document_extension(None, Some("application/vnd.openxmlformats-officedocument.wordprocessingml.document")), "docx");
    assert_eq!(document_extension(None, Some("application/pdf")), "pdf");
    assert_eq!(document_extension(None, Some("image/png")), "md");
    assert_eq!(document_extension(None, None), "md");
    assert_eq!(recordings_dir(Some("  /rec  "), "/home/x"), "/rec");
    assert_eq!(recordings_dir(Some(""), "/home/x"), "/home/x");
    assert_eq!(recordings_dir(None, "/home/x"), "/home/x");
}

#[test]
fn media_and_document_requests() {
    assert!(iuretranscribe::outputs::is_supported_media("/a/reunión.MP3"));
    assert!(iuretranscribe::outputs::is_supported_media("clip.webm"));
    assert!(!iuretranscribe::outputs::is_supported_media("notas.txt"));
    assert!(!iuretranscribe::outputs::is_supported_media("sin_extension"));
    assert_eq!(iuretranscribe::outputs::document_request("minutes", "hola").unwrap().1, "_minuta.md");
    assert_eq!(iuretranscribe::outputs::document_request("minutes", "  "), Err("La transcripción está vacía.".to_string()));
    assert_eq!(iuretranscribe::outputs::document_request("x", "  "), Err("Tipo de documento desconocido: x".to_string()));
}
