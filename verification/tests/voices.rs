use glyphfall::keyed::TextMap;
use glyphfall::voices::Voices;

fn korean() -> Voices {
    let mut files = TextMap::new();
    files.insert("ㄱ".to_string(), "giyeok.ogg".to_string());
    files.insert("ㅏ".to_string(), "a.ogg".to_string());
    let mut voices = Voices::new();
    voices.add_language("ko".to_string(), files);
    voices
}

#[test]
fn a_sign_without_recording_is_not_offered() {
    let voices = korean();

    assert!(voices.knows("ko", "ㄱ"));
    assert!(!voices.knows("ko", "ㅇ"));
    assert!(!voices.knows("ja", "ㄱ"));
}

#[test]
fn the_last_request_of_a_frame_wins() {
    let mut voices = korean();
    voices.request("ko", "ㄱ");
    voices.request("ko", "ㅏ");

    assert_eq!(voices.take_request(), Some(("ko".to_string(), "a.ogg".to_string())));
}

#[test]
fn a_request_for_a_silent_sign_changes_nothing() {
    let mut voices = korean();
    voices.request("ko", "ㄱ");
    voices.request("ko", "ㅇ");

    assert_eq!(voices.take_request(), Some(("ko".to_string(), "giyeok.ogg".to_string())));
}

#[test]
fn a_request_is_served_once() {
    let mut voices = korean();
    voices.request("ko", "ㄱ");
    voices.take_request();

    assert_eq!(voices.take_request(), None);
}

#[test]
fn a_script_given_again_keeps_its_later_index() {
    let mut voices = korean();
    voices.add_language("ko".to_string(), TextMap::new());

    assert!(!voices.knows("ko", "ㄱ"));
}
