use iuretranscribe::models::{file_name, is_known, list, model_path, model_url, resolve, Downloads};

#[test]
fn names_and_urls() {
    assert_eq!(file_name("base"), "ggml-base.bin");
    assert_eq!(model_url("tiny"), "https://huggingface.co/ggerganov/whisper.cpp/resolve/main/ggml-tiny.bin");
    assert!(is_known("large-v3-turbo-q5_0"));
    assert!(!is_known("large"));
    assert!(model_path("/m", "base").ends_with("ggml-base.bin"));
}

#[test]
fn resolve_prefers_download_then_bundle() {
    let d = model_path("/m", "base");
    let b = model_path("/b", "base");
    assert_eq!(resolve("/m", Some("/b"), "base", &[b.clone(), d.clone()]), Some(d.clone()));
    assert_eq!(resolve("/m", Some("/b"), "base", &[b.clone()]), Some(b.clone()));
    assert_eq!(resolve("/m", None, "base", &[b.clone()]), None);
    assert_eq!(resolve("/m", Some("/b"), "base", &[]), None);
}

#[test]
fn downloads_state_machine() {
    let mut d = Downloads::new();
    assert!(d.start("base"));
    assert!(!d.start("base"));
    assert!(d.is_active("base"));
    assert!(!d.is_cancelled("base"));
    assert!(d.cancel("base"));
    assert!(d.is_cancelled("base"));
    assert!(!d.cancel("tiny"));
    d.finish("base");
    assert!(!d.is_active("base"));
    assert!(d.start("base"));
    assert!(!d.is_cancelled("base"));
}

#[test]
fn listing() {
    let mut d = Downloads::new();
    d.start("small");
    let b = model_path("/b", "base");
    let l = list("/m", Some("/b"), &d, &[b.clone()]);
    assert_eq!(l.len(), 10);
    let base = l.iter().find(|m| m.id == "base").unwrap();
    assert!(base.bundled && base.downloaded);
    assert_eq!(base.path, b);
    assert_eq!(base.size_mb, 148);
    let small = l.iter().find(|m| m.id == "small").unwrap();
    assert!(small.downloading && !small.downloaded && !small.bundled);
    assert_eq!(small.path, model_path("/m", "small"));
    assert_eq!(l[0].id, "large-v3-turbo");
    assert!(l[0].recommended);
}

#[test]
fn download_registration() {
    let mut d = Downloads::new();
    assert_eq!(iuretranscribe::models::begin_download(&mut d, "large"), Err("Modelo desconocido: large".to_string()));
    assert!(!d.is_active("large"));
    assert_eq!(iuretranscribe::models::begin_download(&mut d, "tiny"), Ok(()));
    assert!(d.is_active("tiny"));
    assert_eq!(iuretranscribe::models::begin_download(&mut d, "tiny"), Err("Ese modelo ya se está descargando".to_string()));
    // A download that starts and finishes leaves nothing behind.
    d.finish("tiny");
    assert!(!d.is_active("tiny"));
    assert_eq!(iuretranscribe::models::part_file_name("tiny"), "ggml-tiny.bin.part");
}

#[test]
fn transfer_decisions() {
    let m = |s: &str| s.to_string();
    assert_eq!(iuretranscribe::models::range_header(0), None);
    assert_eq!(iuretranscribe::models::range_header(1024), Some(m("bytes=1024-")));
    let t = iuretranscribe::models::transfer_start(206, 100, Some(900)).unwrap();
    assert!(t.resuming);
    assert_eq!((t.downloaded, t.total), (100, Some(1000)));
    let t = iuretranscribe::models::transfer_start(200, 100, Some(900)).unwrap();
    assert!(!t.resuming);
    assert_eq!((t.downloaded, t.total), (0, Some(900)));
    let t = iuretranscribe::models::transfer_start(206, 0, None).unwrap();
    assert!(!t.resuming && t.total.is_none());
    assert_eq!(iuretranscribe::models::transfer_start(404, 0, None).unwrap_err(), "Hugging Face respondió 404 Not Found");
    assert_eq!(iuretranscribe::models::transfer_chunk(true, Ok(5), 10), Err(m("cancelled")));
    assert_eq!(iuretranscribe::models::transfer_chunk(false, Ok(5), 10), Ok(15));
    assert_eq!(iuretranscribe::models::transfer_chunk(false, Err(m("reset")), 10), Err(m("Error de red durante la descarga: reset")));
    assert_eq!(iuretranscribe::models::transfer_end(10, Some(10)), Ok(()));
    assert_eq!(iuretranscribe::models::transfer_end(10, None), Ok(()));
    assert_eq!(
        iuretranscribe::models::transfer_end(7, Some(10)),
        Err(m("Descarga incompleta (7 de 10 bytes). Vuelve a intentarlo para reanudar."))
    );
    let (ev, r) = iuretranscribe::models::download_outcome("tiny", &Ok(()));
    assert_eq!((ev.id.as_str(), ev.downloaded, ev.total, ev.status.as_str(), ev.message), ("tiny", 0, None, "done", None));
    assert_eq!(r, Ok(()));
    let (ev, r) = iuretranscribe::models::download_outcome("tiny", &Err(m("cancelled")));
    assert_eq!((ev.status.as_str(), ev.message), ("cancelled", None));
    assert_eq!(r, Err(m("Descarga cancelada")));
    let (ev, r) = iuretranscribe::models::download_outcome("tiny", &Err(m("x")));
    assert_eq!((ev.status.as_str(), ev.message), ("error", Some(m("x"))));
    assert_eq!(r, Err(m("x")));
}

#[test]
fn models_for_jobs() {
    let d = model_path("/m", "base");
    assert_eq!(iuretranscribe::models::model_for_job("/m", None, "base", &[d.clone()]), Ok(d));
    assert_eq!(iuretranscribe::models::model_for_job("/m", None, "enorme", &[]), Err("Modelo desconocido: enorme".to_string()));
    assert_eq!(
        iuretranscribe::models::model_for_job("/m", Some("/b"), "small", &[]),
        Err("El modelo «small» no está descargado. Descárgalo en la sección Modelos.".to_string())
    );
}
