use asset_decoders::paths::extract_open_file_arg;
use asset_decoders::paths::is_supported_open_model;
use asset_decoders::paths::is_yft;
use asset_decoders::paths::normalize_open_file_arg;

#[test]
fn yft_extension_matches_in_any_case() {
    assert!(is_yft("model.yft"));
    assert!(is_yft("model.YFT"));
    assert!(is_yft("C:\\cars\\adder.Yft"));
    assert!(is_yft("/mnt/assets/adder.yft"));
}

#[test]
fn yft_extension_must_be_the_last_component_suffix() {
    assert!(!is_yft("model.yft.bak"));
    assert!(!is_yft("model.txt"));
    assert!(!is_yft("model"));
    assert!(!is_yft(".yft"));
    assert!(!is_yft("dir.yft/file"));
    assert!(!is_yft(""));
}

#[test]
fn supported_model_extensions() {
    assert!(is_supported_open_model("a.yft"));
    assert!(is_supported_open_model("a.YDD"));
    assert!(is_supported_open_model("b/c.dff"));
    assert!(is_supported_open_model("mesh.CLMesh"));
    assert!(!is_supported_open_model("a.obj"));
    assert!(!is_supported_open_model("a"));
}

#[test]
fn normalize_trims_whitespace_and_quotes() {
    assert_eq!(
        normalize_open_file_arg("  \"C:\\cars\\adder.yft\"  ", true),
        Some("C:\\cars\\adder.yft".to_string())
    );
    assert_eq!(normalize_open_file_arg("   ", false), None);
    assert_eq!(normalize_open_file_arg("\"\"", false), None);
    assert_eq!(normalize_open_file_arg("plain.dff", false), Some("plain.dff".to_string()));
}

#[test]
fn normalize_unwraps_file_uris() {
    assert_eq!(
        normalize_open_file_arg("file:///home/u/my%20car.yft", false),
        Some("/home/u/my car.yft".to_string())
    );
    assert_eq!(
        normalize_open_file_arg("file:///C:/cars/my%20car.yft", true),
        Some("C:\\cars\\my car.yft".to_string())
    );
    assert_eq!(
        normalize_open_file_arg("file:///C:/cars/plain.yft", false),
        Some("/C:/cars/plain.yft".to_string())
    );
}

#[test]
fn extract_takes_the_first_supported_argument() {
    let args = vec![
        "app.exe".to_string(),
        "--flag".to_string(),
        "notes.txt".to_string(),
        "  \"b.dff\"  ".to_string(),
        "c.yft".to_string(),
    ];
    assert_eq!(extract_open_file_arg(&args, false), Some("b.dff".to_string()));
}

#[test]
fn extract_skips_the_program_name() {
    let args = vec!["launcher.yft".to_string()];
    assert_eq!(extract_open_file_arg(&args, false), None);
    let empty: Vec<String> = Vec::new();
    assert_eq!(extract_open_file_arg(&empty, false), None);
}
