use container_ci::paths::{get_config_dir, get_data_dir, get_key_path, join, KeyPair};
use std::path::PathBuf;

/// The key path, by the path functions of the standard library.
fn expected_key(home: &str, extension: Option<&str>) -> PathBuf {
    let mut path = PathBuf::from(home);
    path.push(".ssh");
    path.push("id_ed25519");
    if let Some(text) = extension {
        path.set_extension(text);
    }
    path
}

#[test]
fn directories_are_named() {
    assert_eq!(get_config_dir("web"), "configs/web");
    assert_eq!(get_data_dir("web"), "./data/web");
}

#[test]
fn key_paths_are_those_of_the_standard_library() {
    for home in ["/home/ci", "/home/ci/", "/", "", "home", "//"] {
        for extension in [None, Some("pub"), Some(""), Some("a.b"), Some("\u{e9}")] {
            let path = get_key_path(home, extension);
            assert_eq!(path, expected_key(home, extension).to_str().unwrap());
            let relative = get_key_path("", extension);
            assert_eq!(PathBuf::from(home).join(relative).to_str().unwrap(), path);
        }
    }
    assert_eq!(get_key_path("/home/ci", None), "/home/ci/.ssh/id_ed25519");
    assert_eq!(get_key_path("/home/ci", Some("pub")), "/home/ci/.ssh/id_ed25519.pub");
}

#[test]
fn joined_paths_are_those_of_the_standard_library() {
    let paths = ["", "/", "a", "a/", "/a", "a/b", "./a", "\u{e9}"];
    for path in paths {
        for part in paths {
            let expected = PathBuf::from(path).join(part);
            assert_eq!(join(path, part), expected.to_str().unwrap());
        }
    }
}

#[test]
fn the_public_key_lies_beside_the_private_one() {
    let pair = KeyPair::in_home("/root");
    assert_eq!(pair.public, "/root/.ssh/id_ed25519.pub");
    assert_eq!(pair.private, "/root/.ssh/id_ed25519");
}
