//! GPU probe decisions for the CUDA/Vulkan variants: what was learnt from the
//! child processes, what the interface is told, and whether the GPU may be
//! asked for.

use vstd::prelude::*;
use crate::text::{chars_eq, chars_of, push_all, string_from_chars};
use crate::transcribe::{backend, backend_name};

verus! {

/// Where the installers of every variant are published.
pub const RELEASES_URL: &'static str = "https://github.com/ellaguno/iuretranscribe/releases/latest";

/// What the interface is told when the GPU cannot be used.
#[derive(Debug, Clone)]
pub struct GpuNotice {
    /// "cpu" = keeps working without GPU; "none" = this variant does not work here.
    pub level: String,
    pub message: String,
    pub url: String,
}

/// The name of the installer without GPU for a platform, as it appears in
/// the release: `<os>-<arch>` with `x86_64` shown as `x64` and `aarch64` as
/// `arm64`.
pub open spec fn variant_of(os: Seq<char>, arch: Seq<char>) -> Seq<char> {
    let a = if arch == "x86_64"@ { "x64"@ } else if arch == "aarch64"@ { "arm64"@ } else { arch };
    os + "-"@ + a
}

/// Name of the installer without GPU for the platform `os`/`arch`
/// (`std::env::consts::OS` and `ARCH`).
pub fn cpu_variant_name(os: &str, arch: &str) -> (r: String)
    ensures
        r@ == variant_of(os@, arch@),
{
    let a = chars_of(arch);
    let shown = if chars_eq(&a, &chars_of("x86_64")) {
        chars_of("x64")
    } else if chars_eq(&a, &chars_of("aarch64")) {
        chars_of("arm64")
    } else {
        a
    };
    let mut v = chars_of(os);
    push_all(&mut v, &chars_of("-"));
    push_all(&mut v, &shown);
    string_from_chars(&v)
}

/// The notice for a probe result: `cpu` (works only on the processor),
/// `none` (does not start at all); no notice for anything else.
pub open spec fn notice_text(result: Seq<char>, variant: Seq<char>) -> Option<(Seq<char>, Seq<char>)> {
    if result == "cpu"@ {
        Some(("cpu"@, "Esta computadora no puede usar la aceleración "@ + backend()
            + ". IureTranscribe seguirá funcionando con el procesador; para esta máquina conviene instalar la versión «"@
            + variant + "» (sin GPU), más ligera."@))
    } else if result == "none"@ {
        Some(("none"@, "Esta versión de IureTranscribe ("@ + backend()
            + ") no funciona en esta computadora: el motor no arranca ni con GPU ni con procesador. Instala la versión «"@
            + variant + "» (sin GPU) desde "@ + RELEASES_URL@ + "."@))
    } else {
        None
    }
}

/// The notice to show for a probe result; `variant` is the name of the
/// installer without GPU for this machine.
pub fn notice_for(result: &str, variant: &str) -> (r: Option<GpuNotice>)
    ensures
        match r {
            Some(n) => notice_text(result@, variant@) == Some((n.level@, n.message@)) && n.url@ == RELEASES_URL@,
            None => notice_text(result@, variant@) is None,
        },
{
    let res = chars_of(result);
    let url = string_from_chars(&chars_of(RELEASES_URL));
    if chars_eq(&res, &chars_of("cpu")) {
        let mut m = chars_of("Esta computadora no puede usar la aceleración ");
        push_all(&mut m, &chars_of(backend_name()));
        push_all(&mut m, &chars_of(". IureTranscribe seguirá funcionando con el procesador; para esta máquina conviene instalar la versión «"));
        push_all(&mut m, &chars_of(variant));
        push_all(&mut m, &chars_of("» (sin GPU), más ligera."));
        Some(GpuNotice { level: string_from_chars(&chars_of("cpu")), message: string_from_chars(&m), url })
    } else if chars_eq(&res, &chars_of("none")) {
        let mut m = chars_of("Esta versión de IureTranscribe (");
        push_all(&mut m, &chars_of(backend_name()));
        push_all(&mut m, &chars_of(") no funciona en esta computadora: el motor no arranca ni con GPU ni con procesador. Instala la versión «"));
        push_all(&mut m, &chars_of(variant));
        push_all(&mut m, &chars_of("» (sin GPU) desde "));
        push_all(&mut m, &chars_of(RELEASES_URL));
        push_all(&mut m, &chars_of("."));
        Some(GpuNotice { level: string_from_chars(&chars_of("none")), message: string_from_chars(&m), url })
    } else {
        None
    }
}

/// The probe result saved with the settings, if it was made by this version
/// of the app.
pub fn cached_probe(version: &str, probe_version: &str, probe_result: &str) -> (r: Option<String>)
    ensures
        match r {
            Some(s) => probe_version@ == version@ && probe_result@.len() > 0 && s@ == probe_result@,
            None => !(probe_version@ == version@ && probe_result@.len() > 0),
        },
{
    let pr = chars_of(probe_result);
    if chars_eq(&chars_of(probe_version), &chars_of(version)) && pr.len() > 0 {
        Some(string_from_chars(&pr))
    } else {
        None
    }
}

/// The result of the probes: `gpu` if the GPU child finished well, else
/// `cpu` if the processor-only child did, else `none`.
pub fn probe_verdict(gpu_ok: bool, cpu_ok: bool) -> (r: &'static str)
    ensures
        r@ == (if gpu_ok { "gpu"@ } else if cpu_ok { "cpu"@ } else { "none"@ }),
{
    if gpu_ok {
        "gpu"
    } else if cpu_ok {
        "cpu"
    } else {
        "none"
    }
}

/// Whether the GPU may be asked for, given the probe result: the wish as is
/// without a notice, no GPU when only the processor works, and the notice's
/// message as an error when nothing works.
pub fn gpu_decision(result: &str, variant: &str, wanted: bool) -> (r: Result<bool, String>)
    ensures
        match notice_text(result@, variant@) {
            None => r == Ok::<bool, String>(wanted),
            Some((level, message)) => if result@ == "none"@ {
                r is Err && r->Err_0@ == message
            } else {
                r == Ok::<bool, String>(false)
            },
        },
{
    match notice_for(result, variant) {
        Some(n) => {
            if chars_eq(&chars_of(result), &chars_of("none")) {
                Err(n.message)
            } else {
                Ok(false)
            }
        },
        None => Ok(wanted),
    }
}

/// Whether this run is a GPU probe (`<exe> --gpu-probe <model> gpu|cpu`):
/// the model and whether the GPU is tried (anything but `cpu` asks for it);
/// `None` when it is not a probe or the model is missing.
pub fn probe_request(args: &[String]) -> (r: Option<(String, bool)>)
    ensures
        match r {
            Some((m, gpu)) => args@.len() >= 3 && args@[1]@ == "--gpu-probe"@ && m@ == args@[2]@
                && gpu == !(args@.len() >= 4 && args@[3]@ == "cpu"@),
            None => !(args@.len() >= 3 && args@[1]@ == "--gpu-probe"@),
        },
{
    if args.len() < 2 || !chars_eq(&chars_of(args[1].as_str()), &chars_of("--gpu-probe")) {
        return None;
    }
    if args.len() < 3 {
        return None;
    }
    let gpu = !(args.len() >= 4 && chars_eq(&chars_of(args[3].as_str()), &chars_of("cpu")));
    Some((string_from_chars(&chars_of(args[2].as_str())), gpu))
}

} // verus!
