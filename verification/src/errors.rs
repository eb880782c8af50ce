//! Error types of the catalog and of the playback layer around it.

use vstd::prelude::*;
use vstd::string::*;

verus! {

/// The column whose uniqueness constraint an insert would have violated.
#[derive(Clone, Copy, Debug, PartialEq, Eq, Structural)]
pub enum UniqueConstraintColumn {
    Name,
    AudioFile,
}

/// Failure modes of the record store. Lookups and deletions report absence
/// through their return value, not through an error, so the only failure an
/// in-memory store can surface is a duplicate value in a unique column.
#[derive(Clone, Copy, Debug, PartialEq, Eq, Structural)]
pub enum AudioTableError {
    /// Inserting the record would duplicate the value of a unique column.
    UniqueConstraintViolation { column: UniqueConstraintColumn },
}

/// Errors of the voice-playback layer.
#[derive(Debug)]
pub enum AudioError {
    /// No audio track of the requested name is known.
    AudioTrackNotFound { track: String },
    /// The bot is not connected to a voice channel.
    NotInVoiceChannel,
}

impl AudioError {
    /// A human-readable description of the error.
    pub fn message(&self) -> (r: String)
        ensures
            (match self {
                AudioError::AudioTrackNotFound { track } => r@ == "Audio Track not found - "@
                    + track@,
                AudioError::NotInVoiceChannel => r@ == "Bot not in voice channel."@,
            }),
    {
        match self {
            AudioError::AudioTrackNotFound { track } => String::from_str(
                "Audio Track not found - ",
            ).concat(track.as_str()),
            AudioError::NotInVoiceChannel => String::from_str("Bot not in voice channel."),
        }
    }
}

} // verus!
