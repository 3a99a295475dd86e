use base64::Engine;
use genhat::audio::{audio_data_url, audio_mime, speech_request, transcription_request, TaskType};
use genhat::document::caption_of;
use genhat::text::trim_str;
use genhat::xml_events::str_contains;

#[test]
fn mime_types_by_extension() {
    assert_eq!(audio_mime(Some("wav")), "audio/wav");
    assert_eq!(audio_mime(Some("MP3")), "audio/mpeg");
    assert_eq!(audio_mime(Some("Opus")), "audio/ogg");
    assert_eq!(audio_mime(Some("ogg")), "audio/ogg");
    assert_eq!(audio_mime(Some("flac")), "audio/flac");
    assert_eq!(audio_mime(Some("m4a")), "audio/aac");
    assert_eq!(audio_mime(Some("AAC")), "audio/aac");
    assert_eq!(audio_mime(Some("txt")), "audio/wav");
    assert_eq!(audio_mime(None), "audio/wav");
}

#[test]
fn data_urls_are_base64() {
    assert_eq!(audio_data_url(Some("mp3"), b"hello"), "data:audio/mpeg;base64,aGVsbG8=");
    assert_eq!(audio_data_url(None, b""), "data:audio/wav;base64,");
    assert_eq!(audio_data_url(Some("wav"), &[0xff, 0xfe, 0x00]), "data:audio/wav;base64,//4A");
    assert_eq!(audio_data_url(Some("ogg"), b"ab"), "data:audio/ogg;base64,YWI=");
}

#[test]
fn speech_requests_carry_voice_and_speed() {
    let r = speech_request("Hi".into(), Some("Leo".into()), Some("1.5".into()));
    assert_eq!(r.task_type, TaskType::Tts);
    assert_eq!(r.input, "Hi");
    assert_eq!(r.extra, vec![("voice".to_string(), "Leo".to_string()), ("speed".to_string(), "1.5".to_string())]);
    assert_eq!(r.request_id.len(), 36);
    assert_eq!(r.request_id.chars().nth(8), Some('-'));
    assert_eq!(r.request_id.chars().nth(14), Some('4'));
    assert!(matches!(r.request_id.chars().nth(19), Some('8' | '9' | 'a' | 'b')));
    let plain = speech_request("x".into(), None, None);
    assert!(plain.extra.is_empty());
    let t = transcription_request("/a.wav".into());
    assert_eq!(t.task_type, TaskType::Transcribe);
    assert_eq!(t.input, "/a.wav");
    assert_ne!(t.request_id, plain.request_id);
}

#[test]
fn text_helpers() {
    assert_eq!(trim_str("\u{3000} x y \n"), "x y");
    assert_eq!(caption_of(&"z".repeat(500)).chars().count(), 400);
    assert!(str_contains("http://schemas.openxmlformats.org/drawingml/2006/main", "drawingml"));
    assert!(!str_contains("draw", "drawingml"));
}

#[test]
fn audio_urls_decode_to_the_file_bytes() {
    for data in [&b""[..], b"a", b"ab", b"abc", b"hello world!", &[0u8, 255, 128, 7, 64][..]] {
        let url = audio_data_url(Some("mp3"), data);
        let (head, payload) = url.split_once(";base64,").unwrap();
        assert_eq!(head, "data:audio/mpeg");
        assert_eq!(base64::engine::general_purpose::STANDARD.decode(payload).unwrap(), data);
    }
}
