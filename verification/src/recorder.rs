//! Recording decisions: the devices offered, when a recording may start, the
//! capture program of each source, what happens when the system audio cannot
//! be captured, the mixer's steps, and whether a finished recording captured
//! anything.

use vstd::prelude::*;
use crate::text::{chars_of, push_all, string_from_chars};

verus! {

/// Sample rate of recordings and of the transcription engine (Hz).
pub const TARGET_RATE: u32 = 16_000;

/// An input device.
#[derive(Debug, Clone)]
pub struct AudioDevice {
    pub id: String,
    pub name: String,
    pub is_default: bool,
}

/// The devices offered for recording.
#[derive(Debug, Clone)]
pub struct DeviceList {
    pub inputs: Vec<AudioDevice>,
    /// "native" | "virtual" | "unavailable"
    pub system_capture: &'static str,
    pub note: String,
    pub backend: &'static str,
}

/// What a recording captures and where it is saved.
#[derive(Debug, Clone)]
pub struct StartOptions {
    pub capture_mic: bool,
    pub mic_device: Option<String>,
    pub capture_system: bool,
    pub output_dir: String,
}

pub const NOTE_AVAILABLE: &'static str = "El micrófono y la salida se eligen en la configuración de sonido del sistema. El audio del sistema se toma del monitor de la salida predeterminada.";
pub const NOTE_UNAVAILABLE: &'static str = "Se requiere PipeWire (pw-record) o PulseAudio (parec) para grabar.";

/// The devices on Linux: the system's default microphone, and the system
/// audio through the monitor of the default output when `pw-record` or
/// `parec` is `available`.
pub fn list_devices(available: bool) -> (r: DeviceList)
    ensures
        r.inputs@.len() == 1,
        r.inputs@[0].id@ == "default"@,
        r.inputs@[0].name@ == "Micrófono predeterminado del sistema"@,
        r.inputs@[0].is_default,
        r.system_capture@ == (if available { "native"@ } else { "unavailable"@ }),
        r.note@ == (if available { NOTE_AVAILABLE@ } else { NOTE_UNAVAILABLE@ }),
        r.backend@ == "PipeWire/PulseAudio"@,
{
    let mut inputs: Vec<AudioDevice> = Vec::new();
    inputs.push(AudioDevice {
        id: string_from_chars(&chars_of("default")),
        name: string_from_chars(&chars_of("Micrófono predeterminado del sistema")),
        is_default: true,
    });
    DeviceList {
        inputs,
        system_capture: if available { "native" } else { "unavailable" },
        note: if available { string_from_chars(&chars_of(NOTE_AVAILABLE)) } else { string_from_chars(&chars_of(NOTE_UNAVAILABLE)) },
        backend: "PipeWire/PulseAudio",
    }
}

pub const ALREADY_RECORDING: &'static str = "Ya hay una grabación en curso";
pub const NO_SOURCE: &'static str = "Selecciona al menos una fuente: micrófono o audio del sistema";

/// Whether a recording may start: not while another runs, and only with at
/// least one source.
pub fn start_check(recording: bool, opts: &StartOptions) -> (r: Result<(), String>)
    ensures
        match r {
            Ok(()) => !recording && (opts.capture_mic || opts.capture_system),
            Err(e) => if recording { e@ == ALREADY_RECORDING@ } else { !(opts.capture_mic || opts.capture_system) && e@ == NO_SOURCE@ },
        },
{
    if recording {
        return Err(string_from_chars(&chars_of(ALREADY_RECORDING)));
    }
    if !opts.capture_mic && !opts.capture_system {
        return Err(string_from_chars(&chars_of(NO_SOURCE)));
    }
    Ok(())
}

/// `Grabación <stamp>.wav`, `stamp` being the local time as `%Y-%m-%d %H-%M-%S`.
pub fn recording_file_name(stamp: &str) -> (r: String)
    ensures
        r@ == "Grabación "@ + stamp@ + ".wav"@,
{
    let mut v = chars_of("Grabación ");
    push_all(&mut v, &chars_of(stamp));
    push_all(&mut v, &chars_of(".wav"));
    string_from_chars(&v)
}

/// When the system audio cannot be captured: with the microphone the
/// recording goes on and the warning is kept (`Ok`); without it the
/// recording fails with the capture's error (`Err`).
pub fn system_capture_failed(capture_mic: bool, error: &str) -> (r: Result<String, String>)
    ensures
        match r {
            Ok(w) => capture_mic && w@ == "Sólo se graba el micrófono: "@ + error@,
            Err(e) => !capture_mic && e@ == error@,
        },
{
    if !capture_mic {
        return Err(string_from_chars(&chars_of(error)));
    }
    let mut v = chars_of("Sólo se graba el micrófono: ");
    push_all(&mut v, &chars_of(error));
    Ok(string_from_chars(&v))
}

/// A finished recording is kept only with at least half a second of audio;
/// otherwise the error mentions the last capture problem.
pub fn stop_check(samples: u64, detail: &str) -> (r: Result<u64, String>)
    ensures
        match r {
            Ok(n) => samples >= (TARGET_RATE / 2) as u64 && n == samples,
            Err(e) => samples < (TARGET_RATE / 2) as u64 && e@ == "La grabación no captó audio. "@ + detail@,
        },
{
    if samples < (TARGET_RATE / 2) as u64 {
        let mut v = chars_of("La grabación no captó audio. ");
        push_all(&mut v, &chars_of(detail));
        return Err(string_from_chars(&v));
    }
    Ok(samples)
}

/// Index of the microphone among the sources.
pub const MIC: usize = 0;
/// Index of the system audio among the sources.
pub const SYS: usize = 1;

/// Samples that one source may run ahead of a silent other one (two
/// seconds) before it is written on its own.
pub const STALL_LIMIT: usize = 32_000;

/// What the mixer writes after receiving: `mixed` samples summed from both
/// queues, then each flagged queue written out whole.
#[derive(Debug, Clone, Copy)]
pub struct MixStep {
    pub mixed: usize,
    pub flush_mic: bool,
    pub flush_sys: bool,
}

/// The mixer's step for the queued samples of each source: while both are
/// alive it mixes as many as both have, and a source more than
/// `STALL_LIMIT` samples ahead of an empty other one is written alone; when
/// one has stopped, everything queued is written as it is.
pub fn mix_step(alive_mic: bool, alive_sys: bool, queued_mic: usize, queued_sys: usize) -> (r: MixStep)
    ensures
        alive_mic && alive_sys ==> {
            let n = if queued_mic <= queued_sys { queued_mic } else { queued_sys };
            &&& r.mixed == n
            &&& r.flush_mic == (queued_sys - n == 0 && queued_mic - n > STALL_LIMIT)
            &&& r.flush_sys == (queued_mic - n == 0 && queued_sys - n > STALL_LIMIT)
        },
        !(alive_mic && alive_sys) ==> r.mixed == 0 && r.flush_mic && r.flush_sys,
{
    if alive_mic && alive_sys {
        let n = if queued_mic <= queued_sys { queued_mic } else { queued_sys };
        let rest_mic = queued_mic - n;
        let rest_sys = queued_sys - n;
        let flush_mic = rest_sys == 0 && rest_mic > STALL_LIMIT;
        // After writing the microphone alone its queue is empty.
        let rest_mic_after = if flush_mic { 0 } else { rest_mic };
        let flush_sys = rest_mic_after == 0 && rest_sys > STALL_LIMIT;
        MixStep { mixed: n, flush_mic, flush_sys }
    } else {
        MixStep { mixed: 0, flush_mic: true, flush_sys: true }
    }
}

/// How many samples the mixer writes when it stops: the longer queue, the
/// shorter one mixed with silence.
pub fn final_drain(queued_mic: usize, queued_sys: usize) -> (r: usize)
    ensures
        r == (if queued_mic >= queued_sys { queued_mic } else { queued_sys }),
{
    if queued_mic >= queued_sys { queued_mic } else { queued_sys }
}

/// The message for a source whose capture failed.
pub fn capture_failure(source: usize, error: &str) -> (r: String)
    ensures
        r@ == "Falló la captura de "@ + (if source == MIC { "micrófono"@ } else { "audio del sistema"@ }) + ": "@ + error@,
{
    let mut v = chars_of("Falló la captura de ");
    if source == MIC {
        push_all(&mut v, &chars_of("micrófono"));
    } else {
        push_all(&mut v, &chars_of("audio del sistema"));
    }
    push_all(&mut v, &chars_of(": "));
    push_all(&mut v, &chars_of(error));
    string_from_chars(&v)
}

/// What stopping says when nothing is recording.
pub const NOT_RECORDING: &'static str = "No hay ninguna grabación en curso";

/// The capture program for a source and its arguments: PipeWire's
/// `pw-record` when it exists (the system audio from the default sink's
/// monitor), else PulseAudio's `parec`; `None` without either.
pub open spec fn capture_command_of(source: usize, pw_record: bool, parec: bool) -> Option<(Seq<char>, Seq<Seq<char>>)> {
    if pw_record {
        let base = seq!["--format=f32"@, "--rate=16000"@, "--channels=1"@, "--latency=50ms"@];
        let args = if source == SYS { base + seq!["-P"@, "{ stream.capture.sink=true }"@] } else { base };
        Some(("pw-record"@, args.push("-"@)))
    } else if parec {
        Some(("parec"@, seq!["--raw"@, "--format=float32le"@, "--rate=16000"@, "--channels=1"@,
            if source == SYS { "--device=@DEFAULT_MONITOR@"@ } else { "--device=@DEFAULT_SOURCE@"@ }]))
    } else {
        None
    }
}

/// The capture program for a source (see `capture_command_of`); `pw_record`
/// and `parec` tell which programs exist.
pub fn capture_command(source: usize, pw_record: bool, parec: bool) -> (r: Option<(&'static str, Vec<&'static str>)>)
    ensures
        match r {
            Some((prog, args)) => capture_command_of(source, pw_record, parec)
                == Some((prog@, args@.map_values(|a: &'static str| a@))),
            None => capture_command_of(source, pw_record, parec) is None,
        },
{
    if pw_record {
        let mut args: Vec<&'static str> = Vec::new();
        args.push("--format=f32");
        args.push("--rate=16000");
        args.push("--channels=1");
        args.push("--latency=50ms");
        if source == SYS {
            args.push("-P");
            args.push("{ stream.capture.sink=true }");
        }
        args.push("-");
        proof {
            let base = seq!["--format=f32"@, "--rate=16000"@, "--channels=1"@, "--latency=50ms"@];
            let want = (if source == SYS { base + seq!["-P"@, "{ stream.capture.sink=true }"@] } else { base }).push("-"@);
            assert(args@.map_values(|a: &'static str| a@) =~= want);
        }
        Some(("pw-record", args))
    } else if parec {
        let mut args: Vec<&'static str> = Vec::new();
        args.push("--raw");
        args.push("--format=float32le");
        args.push("--rate=16000");
        args.push("--channels=1");
        args.push(if source == SYS { "--device=@DEFAULT_MONITOR@" } else { "--device=@DEFAULT_SOURCE@" });
        proof {
            let want = seq!["--raw"@, "--format=float32le"@, "--rate=16000"@, "--channels=1"@,
                if source == SYS { "--device=@DEFAULT_MONITOR@"@ } else { "--device=@DEFAULT_SOURCE@"@ }];
            assert(args@.map_values(|a: &'static str| a@) =~= want);
        }
        Some(("parec", args))
    } else {
        None
    }
}

/// What is said when live transcription is asked for but the model is not
/// there.
pub const LIVE_WITHOUT_MODEL: &'static str = "Transcripción en vivo desactivada: el modelo seleccionado no está descargado.";

/// How a recording's live transcription is set up.
#[derive(Debug, Clone)]
pub struct LivePlan {
    /// The model to transcribe with while recording; `None` = no live
    /// transcription.
    pub model_path: Option<String>,
    /// The names given to the microphone and the system audio when each
    /// source is transcribed apart.
    pub speakers: Option<(String, String)>,
    /// Why there is no live transcription although it was asked for.
    pub note: Option<String>,
}

/// The live transcription of a recording: only when the setting asks for
/// it and the selected model resolves (`model_path`), else the note that the
/// model is missing; the sources' names only when speakers are split.
pub fn live_plan(live_transcription: bool, model_path: Option<String>, speaker_split: bool, speakers: Option<(String, String)>) -> (r: LivePlan)
    ensures
        !live_transcription ==> r.model_path is None && r.speakers is None && r.note is None,
        live_transcription && model_path is None ==> r.model_path is None && r.speakers is None
            && r.note is Some && r.note->Some_0@ == LIVE_WITHOUT_MODEL@,
        live_transcription && model_path is Some ==> r.model_path == model_path && r.note is None
            && r.speakers == (if speaker_split { speakers } else { None::<(String, String)> }),
{
    if !live_transcription {
        return LivePlan { model_path: None, speakers: None, note: None };
    }
    match model_path {
        Some(p) => LivePlan {
            model_path: Some(p),
            speakers: if speaker_split { speakers } else { None },
            note: None,
        },
        None => LivePlan { model_path: None, speakers: None, note: Some(string_from_chars(&chars_of(LIVE_WITHOUT_MODEL))) },
    }
}

} // verus!
