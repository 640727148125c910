use std::path::{Path, MAIN_SEPARATOR};

use pre_commit::paths::{join_path, Platform};

fn platform() -> Platform {
    if MAIN_SEPARATOR == '\\' {
        Platform::Windows
    } else {
        Platform::Unix
    }
}

#[test]
fn paths_are_joined_as_paths_are() {
    let bases = [
        "", "/", "/a", "/a/", "a", "a/b", "a//", "ä", ".", "C:", "C:\\", "C:\\a", "c:a", "1:",
        "\\", "a\\", "\\\\s\\t", "\\\\s\\t\\a", "\\\\s", "//s/t/a", "///t",
        "\\\\.\\", "\\\\.\\d\\a", "\\\\?\\C:", "\\\\?\\C:\\", "\\\\?\\C:\\a\\b\\", "\\\\?\\C:/a/b",
        "\\\\?\\UNC\\s\\t", "\\\\?\\UNC\\s\\t\\a", "\\\\?\\UNC\\s", "\\\\?\\n\\a", "\\\\?\\",
    ];
    let components = [
        "", "b", "b/c", "/", "/b", "b/", "..", "ü/", "D:", "D:b", "D:\\b", "\\b", "b\\c",
        "\\\\u\\v\\b", "\\\\u", "\\\\\\v", ".", "./b/.", "../../b", "b/../..", "\\\\.\\",
        "\\\\?\\D:\\b\\..",
    ];
    for base in bases {
        for component in components {
            let joined = Path::new(base).join(component);
            assert_eq!(join_path(platform(), base, component), joined.to_str().unwrap());
        }
    }
}

#[test]
fn only_a_slash_separates_on_unix() {
    assert_eq!(join_path(Platform::Unix, "/a", "b"), "/a/b");
    assert_eq!(join_path(Platform::Unix, "/a/", "b"), "/a/b");
    assert_eq!(join_path(Platform::Unix, "a\\", "b"), "a\\/b");
    assert_eq!(join_path(Platform::Unix, "/a", "\\b"), "/a/\\b");
    assert_eq!(join_path(Platform::Unix, "/a", "C:\\b"), "/a/C:\\b");
    assert_eq!(join_path(Platform::Unix, "/a", "/b"), "/b");
    assert_eq!(join_path(Platform::Unix, "", "b"), "b");
}

#[test]
fn both_slashes_separate_on_windows() {
    assert_eq!(join_path(Platform::Windows, "C:\\a", "b"), "C:\\a\\b");
    assert_eq!(join_path(Platform::Windows, "C:\\a\\", "b"), "C:\\a\\b");
    assert_eq!(join_path(Platform::Windows, "C:/a/", "b"), "C:/a/b");
    assert_eq!(join_path(Platform::Windows, "", "b"), "b");
}

#[test]
fn a_drive_and_a_share_are_kept_on_windows() {
    assert_eq!(join_path(Platform::Windows, "C:\\a", "\\b"), "C:\\b");
    assert_eq!(join_path(Platform::Windows, "C:\\a", "/b"), "C:/b");
    assert_eq!(join_path(Platform::Windows, "\\\\s\\t\\a", "\\b"), "\\\\s\\t\\b");
    assert_eq!(join_path(Platform::Windows, "\\a", "\\b"), "\\b");
    assert_eq!(join_path(Platform::Windows, "\\\\s", "\\b"), "\\b");
}

#[test]
fn a_path_with_a_prefix_stands_for_itself_on_windows() {
    assert_eq!(join_path(Platform::Windows, "C:\\a", "D:\\b"), "D:\\b");
    assert_eq!(join_path(Platform::Windows, "C:\\a", "D:b"), "D:b");
    assert_eq!(join_path(Platform::Windows, "C:\\a", "\\\\s\\t\\b"), "\\\\s\\t\\b");
}

#[test]
fn nothing_separates_a_mere_drive_from_a_name_on_windows() {
    assert_eq!(join_path(Platform::Windows, "C:", "b"), "C:b");
    assert_eq!(join_path(Platform::Windows, "1:", "b"), "1:\\b");
    assert_eq!(join_path(Platform::Windows, "\\\\s\\t", "b"), "\\\\s\\t\\b");
}

#[test]
fn a_device_is_a_prefix_on_windows() {
    assert_eq!(join_path(Platform::Windows, "C:\\a", "\\\\.\\"), "\\\\.\\");
    assert_eq!(join_path(Platform::Windows, "C:\\a", "\\\\.\\COM1"), "\\\\.\\COM1");
    assert_eq!(join_path(Platform::Windows, "\\\\.\\d\\a", "\\b"), "\\\\.\\d\\b");
}

#[test]
fn a_verbatim_base_is_normalized() {
    let cases = [
        ("\\\\?\\C:\\s", "..", "\\\\?\\C:\\"),
        ("\\\\?\\C:\\s", ".", "\\\\?\\C:\\s"),
        ("\\\\?\\C:\\s", "b", "\\\\?\\C:\\s\\b"),
        ("\\\\?\\C:\\s\\", "b", "\\\\?\\C:\\s\\b"),
        ("\\\\?\\C:\\bar", "../foo", "\\\\?\\C:\\foo"),
        ("\\\\?\\C:\\bar", "../../foo", "\\\\?\\C:\\foo"),
        ("\\\\?\\C:\\", "../foo", "\\\\?\\C:\\foo"),
        ("\\\\?\\A:\\x\\y", "/foo", "\\\\?\\A:\\foo"),
        ("\\\\?\\A:\\x\\y", "\\", "\\\\?\\A:\\"),
        ("\\\\?\\A:", "..\\foo\\.", "\\\\?\\A:\\foo"),
        ("\\\\?\\A:", ".", "\\\\?\\A:"),
        ("\\\\?\\A:\\x\\y", ".\\foo\\.", "\\\\?\\A:\\x\\y\\foo"),
        ("\\\\?\\A:\\x\\y", "", "\\\\?\\A:\\x\\y\\"),
        ("\\\\?\\C:\\a\\.\\..\\b", "c", "\\\\?\\C:\\b\\c"),
    ];
    for (base, component, joined) in cases {
        assert_eq!(join_path(Platform::Windows, base, component), joined);
    }
}

#[test]
fn only_a_backslash_separates_names_behind_a_verbatim_prefix() {
    assert_eq!(join_path(Platform::Windows, "\\\\?\\C:/a/b", "c"), "\\\\?\\C:\\a/b\\c");
    assert_eq!(join_path(Platform::Windows, "\\\\?\\C:\\a/b", ".."), "\\\\?\\C:\\");
    assert_eq!(join_path(Platform::Windows, "//?/C:/a", ".."), "//?/C:/a\\..");
}

#[test]
fn a_verbatim_prefix_stays_whole() {
    let share = "\\\\?\\UNC\\server\\share";
    assert_eq!(join_path(Platform::Windows, share, ".."), share);
    assert_eq!(join_path(Platform::Windows, share, "\\b"), "\\\\?\\UNC\\server\\share\\b");
    let below = "\\\\?\\UNC\\server\\share\\a";
    assert_eq!(join_path(Platform::Windows, below, "../b"), "\\\\?\\UNC\\server\\share\\b");
    assert_eq!(join_path(Platform::Windows, "\\\\?\\name\\a", "/b"), "\\\\?\\name\\b");
    assert_eq!(join_path(Platform::Windows, "C:\\a", "\\\\?\\D:\\b\\.."), "\\\\?\\D:\\b\\..");
}

#[test]
fn a_verbatim_path_is_a_path_like_others_on_unix() {
    assert_eq!(join_path(Platform::Unix, "\\\\?\\C:\\s", ".."), "\\\\?\\C:\\s/..");
}
