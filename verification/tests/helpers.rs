use audio_catalog::errors::AudioError;
use audio_catalog::helpers::{
    is_mpeg_audio_content_type, temp_audio_file_name, truncate_button_label, uuid_v4_str,
    ButtonCustomId,
};

#[test]
fn short_labels_are_unchanged() {
    assert_eq!(truncate_button_label("play me"), "play me");
    assert_eq!(truncate_button_label(""), "");
    let exactly_80 = "x".repeat(80);
    assert_eq!(truncate_button_label(&exactly_80), exactly_80);
}

#[test]
fn long_labels_are_truncated_with_ellipsis() {
    let long = "y".repeat(100);
    let label = truncate_button_label(&long);
    assert_eq!(label.chars().count(), 80);
    let expected = format!("{}...", "y".repeat(77));
    assert_eq!(label, expected);
}

#[test]
fn play_custom_id_round_trips() {
    let id = ButtonCustomId::PlayAudio(1234);
    let s = id.to_custom_id();
    assert_eq!(s, "play::1234");
    match ButtonCustomId::try_from(s).unwrap() {
        ButtonCustomId::PlayAudio(v) => assert_eq!(v, 1234),
        other => panic!("expected PlayAudio, got {:?}", other),
    }
}

#[test]
fn negative_play_id_round_trips() {
    let id = ButtonCustomId::PlayAudio(-7);
    let s = id.to_custom_id();
    assert_eq!(s, "play::-7");
    match ButtonCustomId::try_from(s).unwrap() {
        ButtonCustomId::PlayAudio(v) => assert_eq!(v, -7),
        other => panic!("expected PlayAudio, got {:?}", other),
    }
}

#[test]
fn unknown_custom_id_is_carried_through() {
    match ButtonCustomId::try_from("volume::3".to_string()).unwrap() {
        ButtonCustomId::Unknown(s) => assert_eq!(s, "volume::3"),
        other => panic!("expected Unknown, got {:?}", other),
    }
}

#[test]
fn unreadable_play_id_is_an_error() {
    assert!(ButtonCustomId::try_from("play::abc".to_string()).is_err());
    assert!(ButtonCustomId::try_from("play::".to_string()).is_err());
    assert!(ButtonCustomId::try_from("play::99999999999999999999".to_string()).is_err());
}

#[test]
fn play_id_stops_at_next_separator() {
    match ButtonCustomId::try_from("play::12::extra".to_string()).unwrap() {
        ButtonCustomId::PlayAudio(v) => assert_eq!(v, 12),
        other => panic!("expected PlayAudio, got {:?}", other),
    }
}

#[test]
fn uuid_file_names_have_the_right_shape() {
    let a = uuid_v4_str();
    let b = uuid_v4_str();
    assert_eq!(a.chars().count(), 36);
    assert_eq!(b.chars().count(), 36);
    assert_ne!(a, b);

    let name = temp_audio_file_name();
    assert_eq!(name.chars().count(), 40);
    assert!(name.ends_with(".mp3"));
}

#[test]
fn mpeg_content_types_are_recognized() {
    assert!(is_mpeg_audio_content_type("audio/mpeg"));
    assert!(is_mpeg_audio_content_type("audio/mpeg3"));
    assert!(is_mpeg_audio_content_type("x-mpeg-3"));
    assert!(!is_mpeg_audio_content_type("text/html"));
    assert!(!is_mpeg_audio_content_type("audio/ogg"));
}

#[test]
fn audio_error_messages() {
    let err = AudioError::AudioTrackNotFound {
        track: "horn".to_string(),
    };
    assert_eq!(err.message(), "Audio Track not found - horn");
    assert_eq!(
        AudioError::NotInVoiceChannel.message(),
        "Bot not in voice channel."
    );
}
