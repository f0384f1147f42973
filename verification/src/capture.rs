//! One turn of the capture loop: what a frame, or a failure of the frame
//! source, does to the table, and what the loop has to do next.

use vstd::prelude::*;
use crate::data::{recorded, update_db, Stats};
use crate::frame::{classify, proc_packet, ClassifyError};

verus! {

/// What the frame source gave.
pub enum CaptureEvent<'a> {
    /// A captured frame.
    Frame(&'a [u8]),
    /// An error instead of a frame.
    SourceError,
}

/// What the capture loop does after an event.
#[derive(Clone, Copy, Debug, PartialEq, Eq, Structural)]
pub enum CaptureAction {
    /// The observation is recorded: persist the table, then take the next
    /// frame.
    Persist,
    /// The frame is dropped: report the reason, then take the next frame.
    Drop(ClassifyError),
    /// The source failed: report it, then take the next frame. A failing
    /// source never ends the capture, however often it fails.
    Retry,
    /// A total of the observed pair would no longer fit: nothing is
    /// recorded and the process is to end.
    Halt,
}

/// The action that follows a captured frame on `table`.
pub open spec fn action_for(table: &Stats, frame: Seq<u8>) -> CaptureAction {
    match classify(frame) {
        Err(reason) => CaptureAction::Drop(reason),
        Ok((key, length)) => if table.has_room(key, length) {
            CaptureAction::Persist
        } else {
            CaptureAction::Halt
        },
    }
}

/// Handles one event of the frame source. A frame is classified and, where
/// it is an IPv4 or IPv6 packet, recorded. The table changes in the case of
/// [`CaptureAction::Persist`] only, and then by exactly one observation.
pub fn capture_step(db: &mut Stats, event: CaptureEvent) -> (action: CaptureAction)
    ensures
        match event {
            CaptureEvent::SourceError => action == CaptureAction::Retry && final(db).entries()
                == old(db).entries(),
            CaptureEvent::Frame(frame) => {
                &&& action == action_for(old(db), frame@)
                &&& match classify(frame@) {
                    Ok((key, length)) => if old(db).has_room(key, length) {
                        final(db).entries() == recorded(old(db).entries(), key, length)
                    } else {
                        final(db).entries() == old(db).entries()
                    },
                    Err(_) => final(db).entries() == old(db).entries(),
                }
            },
        },
{
    match event {
        CaptureEvent::SourceError => CaptureAction::Retry,
        CaptureEvent::Frame(frame) => match proc_packet(frame) {
            Err(reason) => CaptureAction::Drop(reason),
            Ok((key, length)) => {
                if db.can_record(&key, length) {
                    update_db(db, (key, length));
                    CaptureAction::Persist
                } else {
                    CaptureAction::Halt
                }
            },
        },
    }
}

} // verus!
