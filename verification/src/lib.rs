use vstd::prelude::*;

pub mod text;
pub mod rules;
pub mod audio;
pub mod decode;
pub mod sse;
pub mod checkin;
pub mod settings;
pub mod report;
pub mod interview_bank;
pub mod interview;
pub mod session;
pub mod downloader;
pub mod export;
pub mod secrets;
pub mod paniclog;
pub mod history;
pub mod growth;
pub mod json;

verus! {

/// Where the current session's audio comes from: `mic`, or `file` with the
/// file's name.
#[derive(Debug, Clone)]
pub struct SessionMeta {
    pub source: String,
    pub file_name: Option<String>,
}

impl Default for SessionMeta {
    fn default() -> (r: Self)
        ensures
            r.source@ == "mic"@,
            r.file_name is None,
    {
        SessionMeta { source: crate::text::lit("mic"), file_name: None }
    }
}

#[verifier::external_type_specification]
#[verifier::external_body]
#[verifier::reject_recursive_types(T)]
pub struct ExSender<T>(std::sync::mpsc::Sender<T>);

/// The stop signal of a running session, tagged with the session's
/// generation.
pub struct StopSignal {
    pub generation: u64,
    pub tx: std::sync::mpsc::Sender<()>,
}

/// Cleanup when a session thread exits: the stop slot is emptied only when
/// it still holds this generation's signal, so an old session never clears
/// the signal of a newer one. Returns whether the slot was this session's.
pub fn session_exit_cleanup(slot: &mut Option<StopSignal>, generation: u64) -> (r: bool)
    ensures
        r == (*old(slot) matches Some(s) && s.generation == generation),
        r ==> *final(slot) is None,
        !r ==> *final(slot) == *old(slot),
{
    let ours = match slot {
        Some(s) => s.generation == generation,
        None => false,
    };
    if ours {
        *slot = None;
    }
    ours
}

/// Why a session cannot start: one is running already (checked first), or
/// the recognition models are not in place.
pub fn launch_check(running: bool, models_found: bool) -> (r: Result<(), String>)
    ensures
        running ==> (r matches Err(e) && e@ == "会话已在进行中"@),
        !running && !models_found ==> (r matches Err(e) && e@
            == "识别模型未就绪：请完成首启引导中的模型下载，或重新启动应用后再试"@),
        !running && models_found ==> r is Ok,
{
    if running {
        Err(crate::text::lit("会话已在进行中"))
    } else if !models_found {
        Err(crate::text::lit("识别模型未就绪：请完成首启引导中的模型下载，或重新启动应用后再试"))
    } else {
        Ok(())
    }
}

/// Claims the stop slot for a new session: refused while a session holds
/// it; otherwise the generation counter moves on and the slot holds the new
/// session's signal, tagged with that generation.
pub fn claim_stop_slot(slot: &mut Option<StopSignal>, counter: &mut u64, tx: std::sync::mpsc::Sender<()>) -> (r: Result<
    u64,
    String,
>)
    requires
        *old(counter) < u64::MAX,
    ensures
        *old(slot) is Some ==> (r matches Err(e) && e@ == "会话已在进行中"@) && *final(slot) == *old(slot) && *final(counter)
            == *old(counter),
        *old(slot) is None ==> (r matches Ok(g) && g == *old(counter) + 1) && *final(counter) == *old(counter) + 1 && (
        *final(slot) matches Some(s) && s.generation == *old(counter) + 1),
{
    if slot.is_some() {
        return Err(crate::text::lit("会话已在进行中"));
    }
    let g = *counter + 1;
    *counter = g;
    *slot = Some(StopSignal { generation: g, tx });
    Ok(g)
}

} // verus!
