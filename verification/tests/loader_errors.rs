use nucleon::loader::LoaderError;

#[test]
fn refusals_state_found_and_supported() {
    let msg = LoaderError::UnsupportedVersion { found: 4 }.to_string();
    assert!(msg.contains('4') && msg.contains("supports 3"), "{msg}");

    let msg = LoaderError::UnsupportedArchitecture {
        found: "llama".into(),
    }
    .to_string();
    assert!(msg.contains("llama") && msg.contains("qwen3"), "{msg}");

    let msg = LoaderError::UnsupportedTensorType {
        name: "blk.0.ffn_up.weight".into(),
        type_id: 12,
    }
    .to_string();
    assert!(msg.contains("12") && msg.contains("Q8_0"), "{msg}");
}

#[test]
fn big_endian_version_gets_named() {
    let msg = LoaderError::UnsupportedVersion { found: 50_331_648 }.to_string();
    assert!(msg.contains("big-endian"), "{msg}");
}

#[test]
fn wrong_shape_shows_both_shapes() {
    let msg = LoaderError::WrongShape {
        name: "token_embd.weight".into(),
        want: vec![10, 8],
        found: vec![8, 10],
    }
    .to_string();
    assert!(msg.contains("[10, 8]") && msg.contains("[8, 10]"), "{msg}");
}

#[test]
fn every_message_is_exact() {
    assert_eq!(
        LoaderError::NotGguf { found: *b"GGUX" }.to_string(),
        "not a GGUF file (first bytes [71, 71, 85, 88], expected \"GGUF\")"
    );
    assert_eq!(
        LoaderError::UnsupportedVersion { found: 4 }.to_string(),
        "GGUF version 4; nucleon supports 3"
    );
    assert_eq!(
        LoaderError::UnknownMetaType { key: "k".into(), type_id: 13 }.to_string(),
        "metadata key \"k\" has unknown value type id 13 (spec defines 0..=12)"
    );
    assert_eq!(
        LoaderError::MissingKey { key: "general.architecture" }.to_string(),
        "missing metadata key \"general.architecture\""
    );
    assert_eq!(
        LoaderError::WrongType { key: "k".into(), want: "u32", found: "string" }.to_string(),
        "metadata key \"k\" has type string, expected u32"
    );
    assert_eq!(
        LoaderError::MissingTensor { name: "output_norm.weight".into() }.to_string(),
        "missing tensor \"output_norm.weight\""
    );
    assert_eq!(
        LoaderError::UnexpectedTensor { name: "mystery".into() }.to_string(),
        "unexpected tensor \"mystery\" (not part of the qwen3 family)"
    );
    assert_eq!(
        LoaderError::Truncated { reading: "the version field", at: 4 }.to_string(),
        "file ends inside the version field (at byte 4)"
    );
    assert_eq!(
        LoaderError::Structure { reason: "why".into() }.to_string(),
        "malformed file: why"
    );
    assert_eq!(
        LoaderError::Template { reason: "why".into() }.to_string(),
        "chat template does not parse: why"
    );
}

#[test]
fn io_refusal_carries_the_os_text() {
    let e = std::io::Error::new(std::io::ErrorKind::NotFound, "no such file");
    let msg = LoaderError::Io(e).to_string();
    assert_eq!(msg, "io error: no such file");
}
