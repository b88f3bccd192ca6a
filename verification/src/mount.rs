//! The temporary volume mount manager's decision layer: matching a
//! reported device path against the target, normalizing a volume's
//! identity for querying, naming a collision-free mount directory, and the
//! phase machine that guarantees a mounted volume is released on every
//! path while the access's own outcome is the one reported.

use vstd::prelude::*;
use vstd::string::StrSliceExecFns;
use vstd::string::StringExecFns;
use crate::BootError;
use crate::text::{
    dec_digits, starts_with_spec, str_eq, str_starts_with, trim_end_artifacts,
    trim_end_artifacts_spec, u64_to_dec,
};

verus! {

/// A volume temporarily exposed at a fresh mount point.
pub struct TempMount {
    /// The raw device path being exposed.
    pub device: String,
    /// The filesystem path the volume is bound to.
    pub mount_point: String,
}

impl TempMount {
    /// Pair a device with the mount point exposing it.
    pub fn new(device: String, mount_point: String) -> (r: TempMount)
        ensures
            r.device@ == device@,
            r.mount_point@ == mount_point@,
    {
        TempMount { device, mount_point }
    }
}

/// Does a reported device path, cleaned of trailing control and whitespace
/// artifacts, equal the target raw path exactly?
pub open spec fn volume_path_matches(reported: Seq<char>, target: Seq<char>) -> bool {
    trim_end_artifacts_spec(reported) == target
}

/// Decide whether a volume's reported device path backs the target.
pub fn volume_device_matches(reported: &str, target: &str) -> (r: bool)
    ensures
        r == volume_path_matches(reported@, target@),
{
    let cleaned = trim_end_artifacts(reported);
    str_eq(cleaned, target)
}

/// The namespace prefix a volume identity carries before its bare name.
pub open spec fn volume_ns_prefix() -> Seq<char> {
    "\\\\?\\"@
}

/// `s` without its trailing backslashes.
pub open spec fn trim_end_backslashes_spec(s: Seq<char>) -> Seq<char>
    decreases s.len(),
{
    if s.len() > 0 && s.last() == '\\' {
        trim_end_backslashes_spec(s.drop_last())
    } else {
        s
    }
}

/// A backslash-free boundary pins down the backslash trim.
proof fn lemma_trim_end_backslashes_at(s: Seq<char>, b: int)
    requires
        0 <= b <= s.len(),
        forall|k: int| b <= k < s.len() ==> s[k] == '\\',
        b > 0 ==> s[b - 1] != '\\',
    ensures
        trim_end_backslashes_spec(s) =~= s.subrange(0, b),
    decreases s.len() - b,
{
    if b == s.len() {
        if s.len() > 0 && s.last() == '\\' {
            assert(false);
        }
        assert(s.subrange(0, b) =~= s);
    } else {
        let t = s.drop_last();
        assert(s.last() == '\\');
        lemma_trim_end_backslashes_at(t, b);
        assert(t.subrange(0, b) =~= s.subrange(0, b));
    }
}

/// The form of a volume identity fit for a device query: trailing
/// backslashes removed, and the namespace prefix stripped when present.
pub open spec fn volume_query_spec(guid_path: Seq<char>) -> Seq<char> {
    let t = trim_end_backslashes_spec(guid_path);
    if starts_with_spec(t, volume_ns_prefix()) {
        t.skip(volume_ns_prefix().len() as int)
    } else {
        t
    }
}

/// Normalize a volume identity for querying its backing device.
pub fn volume_guid_for_query(guid_path: &str) -> (r: String)
    ensures
        r@ == volume_query_spec(guid_path@),
{
    let n: usize = guid_path.unicode_len();
    let mut b: usize = n;
    while b > 0 && guid_path.get_char(b - 1) == '\\'
        invariant
            0 <= b <= n,
            n == guid_path@.len(),
            forall|k: int| b <= k < n ==> guid_path@[k] == '\\',
        decreases b,
    {
        b = b - 1;
    }
    proof {
        lemma_trim_end_backslashes_at(guid_path@, b as int);
    }
    let t = guid_path.substring_char(0, b);
    let prefix = "\\\\?\\";
    if str_starts_with(t, prefix) {
        let pn: usize = prefix.unicode_len();
        let stripped = t.substring_char(pn, b);
        proof {
            assert(stripped@ =~= t@.skip(volume_ns_prefix().len() as int));
        }
        stripped.to_owned()
    } else {
        t.to_owned()
    }
}

/// The leaf name of a fresh mount directory, derived from the process and
/// the moment, so two runs never collide.
pub open spec fn mount_dir_name_spec(pid: u64, millis: u64) -> Seq<char> {
    "grub_mgr_mount_"@ + dec_digits(pid as nat) + "_"@ + dec_digits(millis as nat) + "\\"@
}

/// Build the fresh mount directory's leaf name.
pub fn mount_dir_name(pid: u64, millis: u64) -> (r: String)
    ensures
        r@ == mount_dir_name_spec(pid, millis),
{
    let mut out = String::new();
    out.append("grub_mgr_mount_");
    let p = u64_to_dec(pid);
    out.append(p.as_str());
    out.append("_");
    let m = u64_to_dec(millis);
    out.append(m.as_str());
    out.append("\\");
    proof {
        assert(out@ =~= mount_dir_name_spec(pid, millis));
    }
    out
}

/// The phases of one scoped file access through a temporary mount.
#[derive(Clone, Copy, Debug)]
pub enum MountPhase {
    /// No volume is mounted yet.
    Unmounted,
    /// The volume is mounted; the access may run.
    Mounted,
    /// The access finished; the mount must still be released.
    AccessDone { outcome: Result<(), BootError> },
    /// The mount's release was attempted; the access's outcome stands.
    Finished { outcome: Result<(), BootError> },
}

/// What the runner reports back after performing an action.
#[derive(Clone, Copy, Debug, PartialEq, Eq, Structural)]
pub enum MountEvent {
    /// The volume was bound to its mount point.
    MountOk,
    /// Binding failed, with the error to report.
    MountFailed(BootError),
    /// The file access succeeded.
    AccessOk,
    /// The file access failed, with the error to report.
    AccessFailed(BootError),
    /// The mount point was released.
    UnmountOk,
    /// Releasing failed; this is logged, never reported as the outcome.
    UnmountFailed,
}

/// The action the runner must perform next in a phase.
#[derive(Clone, Copy, Debug, PartialEq, Eq, Structural)]
pub enum MountAction {
    /// Resolve the volume and bind it to a fresh mount point.
    DoMount,
    /// Perform the file access through the mount point.
    DoAccess,
    /// Release the mount point.
    DoUnmount,
    /// Hand the recorded outcome to the caller.
    Report,
}

/// The next action each phase demands: a mounted volume is always either
/// accessed next or, once the access is done, released next — there is no
/// phase that skips the release.
pub open spec fn next_action_spec(phase: MountPhase) -> MountAction {
    match phase {
        MountPhase::Unmounted => MountAction::DoMount,
        MountPhase::Mounted => MountAction::DoAccess,
        MountPhase::AccessDone { .. } => MountAction::DoUnmount,
        MountPhase::Finished { .. } => MountAction::Report,
    }
}

/// The phase after an event.  A failed mount finishes at once with its
/// error; the access's outcome, good or bad, is carried into the release
/// phase; the release's own success or failure never changes the outcome.
/// An event that does not belong to the phase changes nothing.
pub open spec fn mount_step_spec(phase: MountPhase, event: MountEvent) -> MountPhase {
    match (phase, event) {
        (MountPhase::Unmounted, MountEvent::MountOk) => MountPhase::Mounted,
        (MountPhase::Unmounted, MountEvent::MountFailed(e)) => MountPhase::Finished {
            outcome: Err(e),
        },
        (MountPhase::Mounted, MountEvent::AccessOk) => MountPhase::AccessDone { outcome: Ok(()) },
        (MountPhase::Mounted, MountEvent::AccessFailed(e)) => MountPhase::AccessDone {
            outcome: Err(e),
        },
        (MountPhase::AccessDone { outcome }, MountEvent::UnmountOk) => MountPhase::Finished {
            outcome,
        },
        (MountPhase::AccessDone { outcome }, MountEvent::UnmountFailed) => MountPhase::Finished {
            outcome,
        },
        _ => phase,
    }
}

/// The next action to perform in a phase.
pub fn next_action(phase: &MountPhase) -> (r: MountAction)
    ensures
        r == next_action_spec(*phase),
{
    match phase {
        MountPhase::Unmounted => MountAction::DoMount,
        MountPhase::Mounted => MountAction::DoAccess,
        MountPhase::AccessDone { .. } => MountAction::DoUnmount,
        MountPhase::Finished { .. } => MountAction::Report,
    }
}

/// Advance the mount flow by one event.
pub fn mount_step(phase: MountPhase, event: MountEvent) -> (r: MountPhase)
    ensures
        r == mount_step_spec(phase, event),
{
    match (phase, event) {
        (MountPhase::Unmounted, MountEvent::MountOk) => MountPhase::Mounted,
        (MountPhase::Unmounted, MountEvent::MountFailed(e)) => MountPhase::Finished {
            outcome: Err(e),
        },
        (MountPhase::Mounted, MountEvent::AccessOk) => MountPhase::AccessDone { outcome: Ok(()) },
        (MountPhase::Mounted, MountEvent::AccessFailed(e)) => MountPhase::AccessDone {
            outcome: Err(e),
        },
        (MountPhase::AccessDone { outcome }, MountEvent::UnmountOk) => MountPhase::Finished {
            outcome,
        },
        (MountPhase::AccessDone { outcome }, MountEvent::UnmountFailed) => MountPhase::Finished {
            outcome,
        },
        (p, _) => p,
    }
}

/// Law: after a successful mount, a failed access still demands a release,
/// and whether the release succeeds or fails, the reported outcome is the
/// access's own error.
pub proof fn lemma_release_attempted_and_error_kept(e: BootError, unmount_ev: MountEvent)
    requires
        unmount_ev is UnmountOk || unmount_ev is UnmountFailed,
    ensures
        ({
            let after_access = mount_step_spec(MountPhase::Mounted, MountEvent::AccessFailed(e));
            next_action_spec(after_access) is DoUnmount && mount_step_spec(after_access, unmount_ev)
                == (MountPhase::Finished { outcome: Err::<(), BootError>(e) })
        }),
{
}

/// The phase after a whole event trace, starting unmounted.
pub open spec fn mount_run(events: Seq<MountEvent>) -> MountPhase
    decreases events.len(),
{
    if events.len() == 0 {
        MountPhase::Unmounted
    } else {
        mount_step_spec(mount_run(events.drop_last()), events.last())
    }
}

/// A trace that opens with a successful mount never stands unmounted again.
proof fn lemma_mounted_stays_entered(events: Seq<MountEvent>)
    requires
        events.len() >= 1,
        events[0] is MountOk,
    ensures
        !(mount_run(events) is Unmounted),
    decreases events.len(),
{
    if events.len() == 1 {
    } else {
        lemma_mounted_stays_entered(events.drop_last());
    }
}

/// Law: a trace that opens with a successful mount and ends finished has
/// passed through the release phase — the mount was not abandoned.
pub proof fn lemma_finished_trace_released(events: Seq<MountEvent>)
    requires
        events.len() >= 1,
        events[0] is MountOk,
        mount_run(events) is Finished,
    ensures
        exists|i: int|
            0 <= i <= events.len() && mount_run(#[trigger] events.take(i)) is AccessDone,
    decreases events.len(),
{
    if events.len() == 1 {
        assert(mount_run(events) is Mounted);
    } else {
        assert(events.drop_last()[0] is MountOk);
        lemma_mounted_stays_entered(events.drop_last());
        let prev = mount_run(events.drop_last());
        if prev is AccessDone {
            assert(events.take(events.len() - 1) =~= events.drop_last());
            assert(mount_run(events.take(events.len() - 1)) is AccessDone);
        } else if prev is Finished {
            lemma_finished_trace_released(events.drop_last());
            let i = choose|i: int|
                0 <= i <= events.drop_last().len() && mount_run(
                    #[trigger] events.drop_last().take(i),
                ) is AccessDone;
            assert(events.take(i) =~= events.drop_last().take(i));
            assert(mount_run(events.take(i)) is AccessDone);
        } else {
            assert(!(mount_run(events) is Finished));
        }
    }
}

} // verus!
