//! The toolchain acquisition lifecycle: probe the cache, download when
//! absent, verify the checksum, and only then unpack. The decisions live
//! here as a state machine; a runner performs the file and process work
//! and feeds the outcomes back as events.

use vstd::prelude::*;

verus! {

/// Why an acquisition stopped.
#[derive(Clone, Copy, PartialEq, Eq, Structural, Debug)]
pub enum AcquireError {
    /// The fetch tool exited non-zero.
    FetchFailed,
    /// The payload's digest does not equal the declared value.
    ChecksumMismatch,
    /// The archive file could not be opened or read for hashing: a hard
    /// error, never treated as a cache miss.
    ArchiveUnreadable,
    /// The extraction tool exited non-zero.
    UnpackFailed,
    /// The runner reported an event the current state cannot accept.
    OutOfOrder,
}

/// Where an acquisition stands.
#[derive(Clone, Copy, PartialEq, Eq, Structural, Debug)]
pub enum AcquireState {
    /// Nothing has happened yet.
    Start,
    /// The runner is checking whether the archive file already exists.
    AwaitCacheProbe,
    /// The runner is downloading the archive.
    AwaitDownload,
    /// The runner is hashing the archive file.
    AwaitChecksum,
    /// The runner is extracting the archive.
    AwaitUnpack,
    /// The archive is verified and unpacked.
    Done,
    /// The acquisition stopped.
    Failed(AcquireError),
}

/// What the runner reports back.
#[derive(Clone, Copy, PartialEq, Eq, Structural, Debug)]
pub enum AcquireEvent {
    /// The acquisition is requested.
    Begin,
    /// Whether the archive file already exists at its cache path.
    CacheProbed(bool),
    /// Whether the fetch tool succeeded.
    Downloaded(bool),
    /// Whether the file's digest equals the declared value.
    Checksummed(bool),
    /// The archive file could not be opened or read for hashing.
    ChecksumUnreadable,
    /// Whether the extraction tool succeeded.
    Unpacked(bool),
}

/// What the runner must do next.
#[derive(Clone, Copy, PartialEq, Eq, Structural, Debug)]
pub enum AcquireAction {
    /// Check whether the archive file exists.
    ProbeCache,
    /// Fetch the archive into the cache directory.
    Download,
    /// Hash the archive file and compare with the declared digest.
    Checksum,
    /// Extract the archive into its cache directory.
    Unpack,
    /// The toolchain is ready.
    Succeed,
    /// Stop with the given error.
    Fail(AcquireError),
}

/// The transition table: cache hit goes straight to the checksum, a miss
/// downloads first; only a matching checksum is unpacked, and a mismatch
/// stops hard rather than re-downloading.
pub open spec fn spec_step(s: AcquireState, e: AcquireEvent) -> (AcquireState, AcquireAction) {
    match (s, e) {
        (AcquireState::Start, AcquireEvent::Begin) => (
            AcquireState::AwaitCacheProbe,
            AcquireAction::ProbeCache,
        ),
        (AcquireState::AwaitCacheProbe, AcquireEvent::CacheProbed(true)) => (
            AcquireState::AwaitChecksum,
            AcquireAction::Checksum,
        ),
        (AcquireState::AwaitCacheProbe, AcquireEvent::CacheProbed(false)) => (
            AcquireState::AwaitDownload,
            AcquireAction::Download,
        ),
        (AcquireState::AwaitDownload, AcquireEvent::Downloaded(true)) => (
            AcquireState::AwaitChecksum,
            AcquireAction::Checksum,
        ),
        (AcquireState::AwaitDownload, AcquireEvent::Downloaded(false)) => (
            AcquireState::Failed(AcquireError::FetchFailed),
            AcquireAction::Fail(AcquireError::FetchFailed),
        ),
        (AcquireState::AwaitChecksum, AcquireEvent::Checksummed(true)) => (
            AcquireState::AwaitUnpack,
            AcquireAction::Unpack,
        ),
        (AcquireState::AwaitChecksum, AcquireEvent::Checksummed(false)) => (
            AcquireState::Failed(AcquireError::ChecksumMismatch),
            AcquireAction::Fail(AcquireError::ChecksumMismatch),
        ),
        (AcquireState::AwaitChecksum, AcquireEvent::ChecksumUnreadable) => (
            AcquireState::Failed(AcquireError::ArchiveUnreadable),
            AcquireAction::Fail(AcquireError::ArchiveUnreadable),
        ),
        (AcquireState::AwaitUnpack, AcquireEvent::Unpacked(true)) => (
            AcquireState::Done,
            AcquireAction::Succeed,
        ),
        (AcquireState::AwaitUnpack, AcquireEvent::Unpacked(false)) => (
            AcquireState::Failed(AcquireError::UnpackFailed),
            AcquireAction::Fail(AcquireError::UnpackFailed),
        ),
        (AcquireState::Done, _) => (AcquireState::Done, AcquireAction::Succeed),
        (AcquireState::Failed(err), _) => (AcquireState::Failed(err), AcquireAction::Fail(err)),
        (_, _) => (
            AcquireState::Failed(AcquireError::OutOfOrder),
            AcquireAction::Fail(AcquireError::OutOfOrder),
        ),
    }
}

/// One step of the acquisition: the next state, and what the runner must
/// do.
pub fn step(s: AcquireState, e: AcquireEvent) -> (r: (AcquireState, AcquireAction))
    ensures
        r == spec_step(s, e),
{
    match (s, e) {
        (AcquireState::Start, AcquireEvent::Begin) => (
            AcquireState::AwaitCacheProbe,
            AcquireAction::ProbeCache,
        ),
        (AcquireState::AwaitCacheProbe, AcquireEvent::CacheProbed(true)) => (
            AcquireState::AwaitChecksum,
            AcquireAction::Checksum,
        ),
        (AcquireState::AwaitCacheProbe, AcquireEvent::CacheProbed(false)) => (
            AcquireState::AwaitDownload,
            AcquireAction::Download,
        ),
        (AcquireState::AwaitDownload, AcquireEvent::Downloaded(true)) => (
            AcquireState::AwaitChecksum,
            AcquireAction::Checksum,
        ),
        (AcquireState::AwaitDownload, AcquireEvent::Downloaded(false)) => (
            AcquireState::Failed(AcquireError::FetchFailed),
            AcquireAction::Fail(AcquireError::FetchFailed),
        ),
        (AcquireState::AwaitChecksum, AcquireEvent::Checksummed(true)) => (
            AcquireState::AwaitUnpack,
            AcquireAction::Unpack,
        ),
        (AcquireState::AwaitChecksum, AcquireEvent::Checksummed(false)) => (
            AcquireState::Failed(AcquireError::ChecksumMismatch),
            AcquireAction::Fail(AcquireError::ChecksumMismatch),
        ),
        (AcquireState::AwaitChecksum, AcquireEvent::ChecksumUnreadable) => (
            AcquireState::Failed(AcquireError::ArchiveUnreadable),
            AcquireAction::Fail(AcquireError::ArchiveUnreadable),
        ),
        (AcquireState::AwaitUnpack, AcquireEvent::Unpacked(true)) => (
            AcquireState::Done,
            AcquireAction::Succeed,
        ),
        (AcquireState::AwaitUnpack, AcquireEvent::Unpacked(false)) => (
            AcquireState::Failed(AcquireError::UnpackFailed),
            AcquireAction::Fail(AcquireError::UnpackFailed),
        ),
        (AcquireState::Done, _) => (AcquireState::Done, AcquireAction::Succeed),
        (AcquireState::Failed(err), _) => (AcquireState::Failed(err), AcquireAction::Fail(err)),
        (_, _) => (
            AcquireState::Failed(AcquireError::OutOfOrder),
            AcquireAction::Fail(AcquireError::OutOfOrder),
        ),
    }
}

/// The actions a run of the state machine asks for, one per event.
pub open spec fn run_actions(s: AcquireState, events: Seq<AcquireEvent>) -> Seq<AcquireAction>
    decreases events.len(),
{
    if events.len() == 0 {
        Seq::empty()
    } else {
        seq![spec_step(s, events[0]).1] + run_actions(spec_step(s, events[0]).0, events.drop_first())
    }
}

/// A run asks for exactly one action per event.
pub proof fn lemma_run_len(s: AcquireState, events: Seq<AcquireEvent>)
    ensures
        run_actions(s, events).len() == events.len(),
    decreases events.len(),
{
    if events.len() > 0 {
        lemma_run_len(spec_step(s, events[0]).0, events.drop_first());
    }
}

/// An archive already present in the cache is never downloaded: a run in
/// which no cache probe ever reports the file absent asks for no download
/// at all, from any state.
pub proof fn lemma_cache_hit_skips_download(s: AcquireState, events: Seq<AcquireEvent>)
    requires
        !events.contains(AcquireEvent::CacheProbed(false)),
    ensures
        !run_actions(s, events).contains(AcquireAction::Download),
    decreases events.len(),
{
    if events.len() > 0 {
        assert(events[0] != AcquireEvent::CacheProbed(false));
        assert(spec_step(s, events[0]).1 != AcquireAction::Download);
        assert forall|e: AcquireEvent| events.drop_first().contains(e) implies events.contains(
            e,
        ) by {
            let i = choose|i: int|
                0 <= i < events.drop_first().len() && events.drop_first()[i] == e;
            assert(events[i + 1] == e);
        }
        lemma_cache_hit_skips_download(spec_step(s, events[0]).0, events.drop_first());
        lemma_run_len(s, events);
        lemma_run_len(spec_step(s, events[0]).0, events.drop_first());
        let acts = run_actions(s, events);
        assert forall|i: int|
            0 <= i < acts.len() implies acts[i] != AcquireAction::Download by {
            if i > 0 {
                assert(run_actions(spec_step(s, events[0]).0, events.drop_first())[i - 1]
                    == acts[i]);
            }
        }
        if run_actions(s, events).contains(AcquireAction::Download) {
            let i = choose|i: int| 0 <= i < acts.len() && acts[i] == AcquireAction::Download;
            assert(acts[i] != AcquireAction::Download);
        }
    }
}

/// The checksum gate: a run in which no checksum ever succeeds asks for no
/// unpack, from any state — a mismatched archive is never extracted.
pub proof fn lemma_no_checksum_no_unpack(s: AcquireState, events: Seq<AcquireEvent>)
    requires
        !events.contains(AcquireEvent::Checksummed(true)),
    ensures
        !run_actions(s, events).contains(AcquireAction::Unpack),
    decreases events.len(),
{
    if events.len() > 0 {
        assert(events[0] != AcquireEvent::Checksummed(true));
        assert(spec_step(s, events[0]).1 != AcquireAction::Unpack);
        assert forall|e: AcquireEvent| events.drop_first().contains(e) implies events.contains(
            e,
        ) by {
            let i = choose|i: int|
                0 <= i < events.drop_first().len() && events.drop_first()[i] == e;
            assert(events[i + 1] == e);
        }
        lemma_no_checksum_no_unpack(spec_step(s, events[0]).0, events.drop_first());
        lemma_run_len(s, events);
        lemma_run_len(spec_step(s, events[0]).0, events.drop_first());
        let acts = run_actions(s, events);
        assert forall|i: int| 0 <= i < acts.len() implies acts[i] != AcquireAction::Unpack by {
            if i > 0 {
                assert(run_actions(spec_step(s, events[0]).0, events.drop_first())[i - 1]
                    == acts[i]);
            }
        }
        if run_actions(s, events).contains(AcquireAction::Unpack) {
            let i = choose|i: int| 0 <= i < acts.len() && acts[i] == AcquireAction::Unpack;
            assert(acts[i] != AcquireAction::Unpack);
        }
    }
}

/// An unreadable archive stops the acquisition at once as its own hard
/// error, distinct from a checksum mismatch.
pub proof fn lemma_unreadable_stops()
    ensures
        spec_step(AcquireState::AwaitChecksum, AcquireEvent::ChecksumUnreadable) == (
            AcquireState::Failed(AcquireError::ArchiveUnreadable),
            AcquireAction::Fail(AcquireError::ArchiveUnreadable),
        ),
{
}

/// A checksum mismatch stops the acquisition at once, and a stopped
/// acquisition only ever reports its error again: nothing follows the
/// gate.
pub proof fn lemma_mismatch_stops(events: Seq<AcquireEvent>)
    ensures
        spec_step(AcquireState::AwaitChecksum, AcquireEvent::Checksummed(false)) == (
            AcquireState::Failed(AcquireError::ChecksumMismatch),
            AcquireAction::Fail(AcquireError::ChecksumMismatch),
        ),
        forall|i: int|
            0 <= i < events.len()
                ==> #[trigger] run_actions(
                AcquireState::Failed(AcquireError::ChecksumMismatch),
                events,
            )[i] == AcquireAction::Fail(AcquireError::ChecksumMismatch),
    decreases events.len(),
{
    if events.len() > 0 {
        lemma_mismatch_stops(events.drop_first());
        lemma_run_len(AcquireState::Failed(AcquireError::ChecksumMismatch), events);
        lemma_run_len(AcquireState::Failed(AcquireError::ChecksumMismatch), events.drop_first());
        let acts = run_actions(AcquireState::Failed(AcquireError::ChecksumMismatch), events);
        assert(acts == seq![
            spec_step(AcquireState::Failed(AcquireError::ChecksumMismatch), events[0]).1,
        ] + run_actions(AcquireState::Failed(AcquireError::ChecksumMismatch), events.drop_first()));
        assert forall|i: int|
            0 <= i < events.len() implies #[trigger] acts[i] == AcquireAction::Fail(
            AcquireError::ChecksumMismatch,
        ) by {
            if i > 0 {
                assert(run_actions(
                    AcquireState::Failed(AcquireError::ChecksumMismatch),
                    events.drop_first(),
                )[i - 1] == acts[i]);
            }
        }
    }
}

} // verus!
