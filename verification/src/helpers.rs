//! Helpers of the command layer around the catalog: playback-button labels
//! and custom ids, and the pure checks of the audio-download flow.

use vstd::prelude::*;
use vstd::string::*;

use crate::strutil::{i64_dec, i64_literal_val, i64_to_string, is_i64_literal, parse_i64, str_eq};

verus! {

/// The longest label a playback button may carry.
pub const BTN_LABEL_MAX_LEN: usize = 80;

/// The label shown on a button for a track: the text itself when it fits,
/// otherwise its first characters with a three-dot ellipsis, within the
/// length cap.
pub open spec fn button_label_spec(s: Seq<char>) -> Seq<char> {
    if s.len() <= BTN_LABEL_MAX_LEN {
        s
    } else {
        s.subrange(0, BTN_LABEL_MAX_LEN - 3).push('.').push('.').push('.')
    }
}

/// Truncate a label to fit on a playback button.
pub fn truncate_button_label(label: &str) -> (r: String)
    ensures
        r@ == button_label_spec(label@),
{
    let n: usize = label.unicode_len();
    if n <= BTN_LABEL_MAX_LEN {
        String::from_str(label)
    } else {
        let mut out = String::from_str(label.substring_char(0, BTN_LABEL_MAX_LEN - 3));
        out.push('.');
        out.push('.');
        out.push('.');
        out
    }
}

/// Button labelling offered directly on string types.
pub trait ButtonLabel {
    /// The view of the text being labelled.
    spec fn label_view(&self) -> Seq<char>;

    /// The text truncated to fit on a playback button.
    fn to_button_label(&self) -> (r: String)
        ensures
            r@ == button_label_spec(self.label_view()),
    ;
}

impl ButtonLabel for String {
    open spec fn label_view(&self) -> Seq<char> {
        self@
    }

    fn to_button_label(&self) -> (r: String) {
        truncate_button_label(self.as_str())
    }
}

impl ButtonLabel for &str {
    open spec fn label_view(&self) -> Seq<char> {
        self@
    }

    fn to_button_label(&self) -> (r: String) {
        truncate_button_label(self)
    }
}

/// The action encoded in a button's custom id.
#[derive(Debug)]
pub enum ButtonCustomId {
    /// Play the track with this record id.
    PlayAudio(i64),
    /// Any custom id that does not encode a known action.
    Unknown(String),
}

/// The first position at or after `from` where the separator `::` occurs.
pub open spec fn sep_index_from(s: Seq<char>, from: int) -> Option<int>
    decreases s.len() - from,
{
    if from < 0 || from + 2 > s.len() {
        None
    } else if s[from] == ':' && s[from + 1] == ':' {
        Some(from)
    } else {
        sep_index_from(s, from + 1)
    }
}

/// Whether the custom id starts with the `play::` prefix.
pub open spec fn is_play_prefix(s: Seq<char>) -> bool {
    s.len() >= 6 && s[0] == 'p' && s[1] == 'l' && s[2] == 'a' && s[3] == 'y' && s[4] == ':'
        && s[5] == ':'
}

/// The word `play` with no separator after it: the one custom id the parser
/// does not accept.
pub open spec fn is_bare_play(s: Seq<char>) -> bool {
    s.len() == 4 && s[0] == 'p' && s[1] == 'l' && s[2] == 'a' && s[3] == 'y'
}

/// The id segment of a `play::` custom id: the text between the prefix and
/// the next separator, or the rest of the text when no separator follows.
pub open spec fn play_id_segment(s: Seq<char>) -> Seq<char> {
    match sep_index_from(s, 6) {
        Some(j) => s.subrange(6, j),
        None => s.subrange(6, s.len() as int),
    }
}

impl ButtonCustomId {
    /// Parse a custom id: `play::<id>` becomes `PlayAudio` with the id read
    /// as a decimal 64-bit value (an unreadable id is an error); any other
    /// text is carried through unchanged as `Unknown`.
    pub fn try_from(value: String) -> (r: Result<ButtonCustomId, String>)
        requires
            !is_bare_play(value@),
        ensures
            is_play_prefix(value@) ==> (match r {
                Ok(ButtonCustomId::PlayAudio(v)) => is_i64_literal(play_id_segment(value@))
                    && v as int == i64_literal_val(play_id_segment(value@)),
                Ok(_) => false,
                Err(e) => !is_i64_literal(play_id_segment(value@)) && e@
                    == "invalid play button custom id"@,
            }),
            !is_play_prefix(value@) ==> (match r {
                Ok(ButtonCustomId::Unknown(u)) => u@ == value@,
                _ => false,
            }),
    {
        let n: usize = value.as_str().unicode_len();
        let has_prefix: bool = n >= 6 && value.as_str().get_char(0) == 'p' && value.as_str().get_char(
            1,
        ) == 'l' && value.as_str().get_char(2) == 'a' && value.as_str().get_char(3) == 'y'
            && value.as_str().get_char(4) == ':' && value.as_str().get_char(5) == ':';
        if !has_prefix {
            return Ok(ButtonCustomId::Unknown(value));
        }
        let mut j: usize = 6;
        let mut end: usize = n;
        let mut found: bool = false;
        while j < n - 1 && !found
            invariant
                n == value@.len(),
                6 <= n,
                6 <= j <= n,
                !found ==> sep_index_from(value@, 6) == sep_index_from(value@, j as int),
                !found ==> end == n,
                found ==> sep_index_from(value@, 6) == Some(end as int),
                found ==> 6 <= end <= n,
            decreases n - j + (if found {
                0int
            } else {
                1int
            }),
        {
            if value.as_str().get_char(j) == ':' && value.as_str().get_char(j + 1) == ':' {
                end = j;
                found = true;
            } else {
                j += 1;
            }
        }
        proof {
            if !found {
                assert(sep_index_from(value@, j as int) is None);
            }
            match sep_index_from(value@, 6) {
                Some(e) => {
                    assert(play_id_segment(value@) == value@.subrange(6, e));
                },
                None => {
                    assert(play_id_segment(value@) == value@.subrange(6, n as int));
                },
            }
        }
        let segment = value.as_str().substring_char(6, end);
        match parse_i64(segment) {
            Some(v) => Ok(ButtonCustomId::PlayAudio(v)),
            None => Err(String::from_str("invalid play button custom id")),
        }
    }

    /// Render the custom id in its string form.
    pub fn to_custom_id(&self) -> (r: String)
        ensures
            (match self {
                ButtonCustomId::PlayAudio(v) => r@ == "play::"@ + i64_dec(*v as int),
                ButtonCustomId::Unknown(s) => r@ == s@,
            }),
    {
        match self {
            ButtonCustomId::PlayAudio(v) => {
                let num = i64_to_string(*v);
                String::from_str("play::").concat(num.as_str())
            },
            ButtonCustomId::Unknown(s) => s.clone(),
        }
    }
}

/// Relies on `uuid::Uuid::new_v4` and `fmt::Hyphenated::encode_lower`: a
/// random version-4 UUID rendered in the 36-character lower-case hyphenated
/// form. The value is random, so nothing beyond its shape is promised.
#[verifier::external_body]
pub fn uuid_v4_str() -> (r: String)
    ensures
        r@.len() == 36,
{
    let id = uuid::Uuid::new_v4();
    let mut buf = uuid::Uuid::encode_buffer();
    id.hyphenated().encode_lower(&mut buf).to_string()
}

/// Whether a download's content type announces MPEG audio.
pub fn is_mpeg_audio_content_type(content_type: &str) -> (r: bool)
    ensures
        r == (content_type@ == "audio/mpeg"@ || content_type@ == "audio/mpeg3"@ || content_type@
            == "x-mpeg-3"@),
{
    str_eq(content_type, "audio/mpeg") || str_eq(content_type, "audio/mpeg3") || str_eq(
        content_type,
        "x-mpeg-3",
    )
}

/// A fresh `.mp3` file name for a downloaded track: a random UUID followed
/// by the extension.
pub fn temp_audio_file_name() -> (r: String)
    ensures
        r@.len() == 40,
        r@.subrange(36, 40) == ".mp3"@,
{
    let mut out = uuid_v4_str();
    out.push('.');
    out.push('m');
    out.push('p');
    out.push('3');
    proof {
        reveal_strlit(".mp3");
        assert(out@.subrange(36, 40) =~= ".mp3"@);
    }
    out
}

} // verus!
