use voyna_i_mir::mp3s::{join_path, voice_model_paths};

#[test]
fn voice_model_paths_denis_and_irina_differ() {
    let home = "/home/test";
    let denis = voice_model_paths(home, "denis").unwrap();
    let irina = voice_model_paths(home, "irina").unwrap();
    assert_ne!(denis, irina);
}

#[test]
fn voice_model_paths_rejects_unknown_voice() {
    assert!(voice_model_paths("/home/test", "amy").is_err());
}

#[test]
fn voice_model_paths_give_model_and_config_under_home() {
    let (model, config) = voice_model_paths("/home/test", "denis").unwrap();
    assert_eq!(
        model,
        "/home/test/.local/share/piper-voices/ru/ru_RU/denis/medium/ru_RU-denis-medium.onnx"
    );
    assert_eq!(
        config,
        "/home/test/.local/share/piper-voices/ru/ru_RU/denis/medium/ru_RU-denis-medium.onnx.json"
    );
    let (model, _) = voice_model_paths("/home/test/", "irina").unwrap();
    assert_eq!(
        model,
        "/home/test/.local/share/piper-voices/ru/ru_RU/irina/medium/ru_RU-irina-medium.onnx"
    );
}

#[test]
fn voice_model_paths_unknown_voice_message() {
    assert_eq!(
        voice_model_paths("/home/test", "amy"),
        Err("unknown voice: amy".to_string())
    );
    assert_eq!(
        voice_model_paths("/home/test", "Denis"),
        Err("unknown voice: Denis".to_string())
    );
}

#[test]
fn join_path_matches_std_path_join() {
    for (base, rel) in [("/home/test", "a/b"), ("/home/test/", "a"), ("", "a/b"), ("x", "y")] {
        let expected = std::path::Path::new(base).join(rel);
        assert_eq!(join_path(base, rel), expected.to_str().unwrap());
    }
}
