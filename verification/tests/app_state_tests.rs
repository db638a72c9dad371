use iuretranscribe::gpu::{cached_probe, cpu_variant_name, gpu_decision, notice_for, probe_verdict, RELEASES_URL};
use iuretranscribe::llm::{chat_reply, check_api_key, truncate, MISSING_KEY};
use iuretranscribe::recorder::{list_devices, recording_file_name, start_check, stop_check, system_capture_failed, StartOptions};
use iuretranscribe::settings::{default_minutes_prompt, default_summary_prompt, effective_prompt, migrate_prompt, migrate_ui_language, parse_legacy_config, LEGACY_SUMMARY_PROMPT};

#[test]
fn gpu_variants_and_notices() {
    assert_eq!(cpu_variant_name("linux", "x86_64"), "linux-x64");
    assert_eq!(cpu_variant_name("macos", "aarch64"), "macos-arm64");
    assert_eq!(cpu_variant_name("linux", "riscv64"), "linux-riscv64");
    let n = notice_for("cpu", "linux-x64").unwrap();
    assert_eq!(n.level, "cpu");
    assert_eq!(n.url, RELEASES_URL);
    assert_eq!(
        n.message,
        "Esta computadora no puede usar la aceleración CPU. IureTranscribe seguirá funcionando con el procesador; para esta máquina conviene instalar la versión «linux-x64» (sin GPU), más ligera."
    );
    let n = notice_for("none", "linux-x64").unwrap();
    assert_eq!(n.level, "none");
    assert!(n.message.ends_with("desde https://github.com/ellaguno/iuretranscribe/releases/latest."));
    assert!(notice_for("gpu", "linux-x64").is_none());
}

#[test]
fn gpu_probe_decisions() {
    assert_eq!(probe_verdict(true, false), "gpu");
    assert_eq!(probe_verdict(false, true), "cpu");
    assert_eq!(probe_verdict(false, false), "none");
    assert_eq!(cached_probe("1.2.0", "1.2.0", "gpu").as_deref(), Some("gpu"));
    assert_eq!(cached_probe("1.2.0", "1.1.0", "gpu"), None);
    assert_eq!(cached_probe("1.2.0", "1.2.0", ""), None);
    assert_eq!(gpu_decision("gpu", "linux-x64", true), Ok(true));
    assert_eq!(gpu_decision("", "linux-x64", false), Ok(false));
    assert_eq!(gpu_decision("cpu", "linux-x64", true), Ok(false));
    assert!(gpu_decision("none", "linux-x64", true).unwrap_err().starts_with("Esta versión de IureTranscribe (CPU)"));
}

#[test]
fn llm_helpers() {
    assert_eq!(truncate("hola", 4), "hola");
    assert_eq!(truncate("mañana", 3), "mañ…");
    assert_eq!(truncate("", 0), "");
    assert_eq!(check_api_key("  sk-1 "), Ok("sk-1".to_string()));
    assert_eq!(check_api_key("   "), Err(MISSING_KEY.to_string()));
    assert_eq!(chat_reply(true, Some("cuota"), None), Err("OpenRouter: cuota".to_string()));
    assert_eq!(chat_reply(true, None, Some("x".into())), Err("OpenRouter: error desconocido".to_string()));
    assert_eq!(chat_reply(false, None, Some("# Minuta".into())), Ok("# Minuta".to_string()));
    assert_eq!(chat_reply(false, None, Some("  ".into())), Err("OpenRouter no devolvió contenido.".to_string()));
    assert_eq!(chat_reply(false, None, None), Err("OpenRouter no devolvió contenido.".to_string()));
}

#[test]
fn recorder_checks() {
    let d = list_devices(true);
    assert_eq!(d.inputs.len(), 1);
    assert_eq!(d.inputs[0].id, "default");
    assert_eq!(d.system_capture, "native");
    assert_eq!(list_devices(false).system_capture, "unavailable");
    let none = StartOptions { capture_mic: false, mic_device: None, capture_system: false, output_dir: "/tmp".into() };
    let mic = StartOptions { capture_mic: true, mic_device: None, capture_system: false, output_dir: "/tmp".into() };
    assert_eq!(start_check(false, &none), Err("Selecciona al menos una fuente: micrófono o audio del sistema".to_string()));
    assert_eq!(start_check(true, &mic), Err("Ya hay una grabación en curso".to_string()));
    assert_eq!(start_check(false, &mic), Ok(()));
    assert_eq!(recording_file_name("2024-05-01 10-00-00"), "Grabación 2024-05-01 10-00-00.wav");
    assert_eq!(system_capture_failed(true, "sin monitor"), Ok("Sólo se graba el micrófono: sin monitor".to_string()));
    assert_eq!(system_capture_failed(false, "sin monitor"), Err("sin monitor".to_string()));
    assert_eq!(stop_check(7999, "x"), Err("La grabación no captó audio. x".to_string()));
    assert_eq!(stop_check(8000, "x"), Ok(8000));
}

#[test]
fn settings_prompts() {
    assert!(default_summary_prompt(true).starts_with("Eres un asistente"));
    assert!(default_minutes_prompt(false).starts_with("You are an assistant"));
    assert_eq!(effective_prompt("  Mi minuta  ", "def"), "Mi minuta");
    assert_eq!(effective_prompt(" ", "def"), "def");
    assert_eq!(migrate_prompt(LEGACY_SUMMARY_PROMPT, LEGACY_SUMMARY_PROMPT), "");
    assert_eq!(migrate_prompt("  ", LEGACY_SUMMARY_PROMPT), "");
    assert_eq!(migrate_prompt("Mi minuta", LEGACY_SUMMARY_PROMPT), "Mi minuta");
    assert_eq!(migrate_ui_language(""), "auto");
    assert_eq!(migrate_ui_language("es"), "es");
}

#[test]
fn legacy_config_lines() {
    let txt = "# comentario\nexport OPENROUTER_API_KEY=\"sk-or-1\"\nOPENROUTER_MODEL='openai/gpt-4o'\nOTRA=1\n";
    assert_eq!(parse_legacy_config(txt), Some(("sk-or-1".to_string(), Some("openai/gpt-4o".to_string()))));
    assert_eq!(parse_legacy_config("OPENROUTER_MODEL=x\n"), None);
    assert_eq!(parse_legacy_config("OPENROUTER_API_KEY=k"), Some(("k".to_string(), None)));
    assert_eq!(parse_legacy_config("#OPENROUTER_API_KEY=k\nOPENROUTER_API_KEY=\"\""), None);
}

#[test]
fn mixer_steps() {
    let s = iuretranscribe::recorder::mix_step(true, true, 100, 40);
    assert_eq!((s.mixed, s.flush_mic, s.flush_sys), (40, false, false));
    let s = iuretranscribe::recorder::mix_step(true, true, 40_000, 0);
    assert_eq!((s.mixed, s.flush_mic, s.flush_sys), (0, true, false));
    let s = iuretranscribe::recorder::mix_step(true, true, 0, 32_000);
    assert_eq!((s.mixed, s.flush_mic, s.flush_sys), (0, false, false));
    let s = iuretranscribe::recorder::mix_step(true, true, 5, 32_006);
    assert_eq!((s.mixed, s.flush_mic, s.flush_sys), (5, false, true));
    let s = iuretranscribe::recorder::mix_step(false, true, 3, 4);
    assert_eq!((s.mixed, s.flush_mic, s.flush_sys), (0, true, true));
    assert_eq!(iuretranscribe::recorder::final_drain(3, 9), 9);
    assert_eq!(iuretranscribe::recorder::capture_failure(0, "x"), "Falló la captura de micrófono: x");
    assert_eq!(iuretranscribe::recorder::capture_failure(1, "y"), "Falló la captura de audio del sistema: y");
}

#[test]
fn probe_requests_and_replies() {
    let a = |v: &[&str]| v.iter().map(|s| s.to_string()).collect::<Vec<_>>();
    assert_eq!(iuretranscribe::gpu::probe_request(&a(&["app", "--gpu-probe", "/m.bin", "cpu"])), Some(("/m.bin".to_string(), false)));
    assert_eq!(iuretranscribe::gpu::probe_request(&a(&["app", "--gpu-probe", "/m.bin", "gpu"])), Some(("/m.bin".to_string(), true)));
    assert_eq!(iuretranscribe::gpu::probe_request(&a(&["app", "--gpu-probe", "/m.bin"])), Some(("/m.bin".to_string(), true)));
    assert_eq!(iuretranscribe::gpu::probe_request(&a(&["app", "--gpu-probe"])), None);
    assert_eq!(iuretranscribe::gpu::probe_request(&a(&["app"])), None);
    let body = "x".repeat(301);
    assert_eq!(iuretranscribe::llm::unreadable_reply(502, &body), format!("OpenRouter respondió 502 Bad Gateway: {}…", "x".repeat(300)));
}

#[test]
fn capture_programs_and_imported_keys() {
    let (p, a) = iuretranscribe::recorder::capture_command(1, true, true).unwrap();
    assert_eq!(p, "pw-record");
    assert_eq!(a, vec!["--format=f32", "--rate=16000", "--channels=1", "--latency=50ms", "-P", "{ stream.capture.sink=true }", "-"]);
    let (p, a) = iuretranscribe::recorder::capture_command(0, false, true).unwrap();
    assert_eq!(p, "parec");
    assert_eq!(a.last(), Some(&"--device=@DEFAULT_SOURCE@"));
    assert!(iuretranscribe::recorder::capture_command(0, false, false).is_none());
    let imp = iuretranscribe::settings::imported_openrouter;
    let s = |x: &str| x.to_string();
    assert_eq!(imp("k", "m", Some((s("lk"), Some(s("lm"))))), (s("k"), s("m")));
    assert_eq!(imp("", "m", Some((s("lk"), Some(s("lm"))))), (s("lk"), s("lm")));
    assert_eq!(imp("", "m", Some((s("lk"), None))), (s("lk"), s("m")));
    assert_eq!(imp("", "m", None), (s(""), s("m")));
}

#[test]
fn live_plans() {
    let s = |x: &str| x.to_string();
    let names = Some((s("Eduardo"), s("Interlocutor")));
    let p = iuretranscribe::recorder::live_plan(false, Some(s("/m.bin")), true, names.clone());
    assert!(p.model_path.is_none() && p.speakers.is_none() && p.note.is_none());
    let p = iuretranscribe::recorder::live_plan(true, None, true, names.clone());
    assert!(p.model_path.is_none() && p.speakers.is_none());
    assert_eq!(p.note.as_deref(), Some("Transcripción en vivo desactivada: el modelo seleccionado no está descargado."));
    let p = iuretranscribe::recorder::live_plan(true, Some(s("/m.bin")), true, names.clone());
    assert_eq!(p.model_path.as_deref(), Some("/m.bin"));
    assert_eq!(p.speakers, names);
    assert!(p.note.is_none());
    let p = iuretranscribe::recorder::live_plan(true, Some(s("/m.bin")), false, names);
    assert!(p.speakers.is_none());
}
