use j2a::path_check::{check_json_path, error_message, PathCheckError};

#[test]
fn invalid_path() {
    let r = check_json_path("test/file/doesnt/exist");
    assert!(matches!(r, Err(PathCheckError::NoExtension)));
    assert_eq!(
        error_message(&PathCheckError::NoExtension),
        "Error: Unable to read file extension."
    );
}

#[test]
fn file_without_json_extension() {
    let r = check_json_path("test/file/doesnt/exist.txt");
    assert!(matches!(r, Err(PathCheckError::WrongExtension)));
    assert_eq!(
        error_message(&PathCheckError::WrongExtension),
        "Error: Expected path to JSON file."
    );
}

#[test]
fn json_path_is_accepted() {
    assert!(check_json_path("./tests/files/valid.json").is_ok());
    assert!(check_json_path("valid.json").is_ok());
    assert!(check_json_path("a.b.json").is_ok());
}

#[test]
fn hidden_file_has_no_extension() {
    assert!(matches!(check_json_path(".json"), Err(PathCheckError::NoExtension)));
    assert!(matches!(check_json_path("dir/.json"), Err(PathCheckError::NoExtension)));
}

#[test]
fn trailing_dot_is_an_empty_extension() {
    assert!(matches!(check_json_path("file."), Err(PathCheckError::WrongExtension)));
}

#[test]
fn uppercase_extension_is_rejected() {
    assert!(matches!(check_json_path("file.JSON"), Err(PathCheckError::WrongExtension)));
}
