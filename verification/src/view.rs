//! Control messages from the timeline editor, applied to the data model.

use vstd::prelude::*;

use crate::clip_database::ClipId;
use crate::track::{track_after_move, Track};
use crate::timeline::Timeline;

verus! {

/// An edit targeting one track.
#[derive(Debug, Clone, Copy, PartialEq, Eq, Structural)]
pub enum TrackMessage {
    /// Drag the earliest placement of a clip by a sample delta.
    MoveClip { clip_id: ClipId, delta_samples: i32 },
}

/// An edit targeting one track of a timeline.
#[derive(Debug, Clone, Copy, PartialEq, Eq, Structural)]
pub enum TimelineMessage {
    Track(usize, TrackMessage),
}

/// Apply one track edit.
pub fn track_update(track: &mut Track, message: TrackMessage)
    ensures
        match message {
            TrackMessage::MoveClip { clip_id, delta_samples } => final(track)@ == track_after_move(
                old(track)@,
                clip_id,
                delta_samples as int,
            ),
        },
{
    match message {
        TrackMessage::MoveClip { clip_id, delta_samples } => {
            track.move_clip(clip_id, delta_samples);
        },
    }
}

/// Apply one timeline edit to the addressed track.
pub fn timeline_update(timeline: &mut Timeline, message: TimelineMessage)
    requires
        match message {
            TimelineMessage::Track(track_number, _) => track_number < old(timeline)@.len(),
        },
    ensures
        match message {
            TimelineMessage::Track(
                track_number,
                TrackMessage::MoveClip { clip_id, delta_samples },
            ) => final(timeline)@ == old(timeline)@.update(
                track_number as int,
                track_after_move(old(timeline)@[track_number as int], clip_id, delta_samples as int),
            ),
        },
{
    match message {
        TimelineMessage::Track(track_number, track_message) => {
            track_update(&mut timeline.tracks[track_number], track_message);
            proof {
                match track_message {
                    TrackMessage::MoveClip { clip_id, delta_samples } => {
                        assert(timeline@ =~= old(timeline)@.update(
                            track_number as int,
                            track_after_move(
                                old(timeline)@[track_number as int],
                                clip_id,
                                delta_samples as int,
                            ),
                        ));
                    },
                }
            }
        },
    }
}

} // verus!
