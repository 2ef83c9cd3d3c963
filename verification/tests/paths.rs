use std::path::Path;

use fs_tracker::git_adapter::receipt_place;
use fs_tracker::paths::{body, file_name, parent};

/// Every text of up to seven of these bytes.
fn texts() -> Vec<String> {
    let mut all = vec![String::new()];
    let mut from = 0;
    for _ in 0..7 {
        let until = all.len();
        for index in from..until {
            for byte in ["/", ".", "a", "b"] {
                all.push(format!("{}{byte}", all[index]));
            }
        }
        from = until;
    }
    all
}

#[test]
fn a_parent_keeps_the_bytes_of_the_path() {
    assert_eq!(parent(b"a//b/c"), Some(b"a//b".to_vec()));
    assert_eq!(parent(b"a//b"), Some(b"a".to_vec()));
    assert_eq!(parent(b"/a/./b//"), Some(b"/a".to_vec()));
    assert_eq!(parent(b"//a"), Some(b"/".to_vec()));
    assert_eq!(parent(b"./a"), Some(b".".to_vec()));
    assert_eq!(parent(b"."), Some(b"".to_vec()));
    assert_eq!(parent(b"a/../.."), Some(b"a/..".to_vec()));
    assert_eq!(parent(b"/"), None);
    assert_eq!(parent(b""), None);
}

#[test]
fn paths_are_taken_apart_as_std_does() {
    for text in texts() {
        let path = Path::new(&text);
        let expected = path.parent().map(|found| found.to_str().unwrap().as_bytes().to_vec());
        assert_eq!(parent(text.as_bytes()), expected, "{text}");
        let expected = path.file_name().map(|found| found.to_str().unwrap().as_bytes().to_vec());
        assert_eq!(file_name(text.as_bytes()), expected, "{text}");
    }
}

#[test]
fn a_body_ends_with_the_last_component() {
    assert_eq!(body(b"a//b/./"), b"a//b".to_vec());
    assert_eq!(body(b"/./"), b"/".to_vec());
    assert_eq!(body(b"./."), b".".to_vec());
    assert_eq!(body(b""), b"".to_vec());
}

#[test]
fn a_temporary_receipt_keeps_the_bytes_before_its_name() {
    for text in ["a//c.json", "/r/./c", "c.a.b", "x/c.json//", "/.hidden", "..", "a/.."] {
        let place = receipt_place(text.as_bytes(), Vec::new()).unwrap();
        let expected = Path::new(text).with_extension("tmp");
        assert_eq!(place.temporary, expected.to_str().unwrap().as_bytes().to_vec(), "{text}");
    }
}
