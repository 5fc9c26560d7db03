use didyoumean::clipboard::holder_is_done;
use didyoumean::clipboard::needs_holder;
use didyoumean::clipboard::same_text;

#[test]
fn unix_desktops_need_a_holder() {
    for platform in ["linux", "freebsd", "netbsd", "dragonfly", "mac osx", "openbsd", "solaris"] {
        assert!(needs_holder(platform));
    }
}

#[test]
fn other_systems_need_no_holder() {
    for platform in ["windows", "macos", "ios", "android", "", "Linux", "linux ", "linu"] {
        assert!(!needs_holder(platform));
    }
}

#[test]
fn the_holder_waits_while_the_copy_is_there() {
    assert!(!holder_is_done("test", "test"));
    assert!(!holder_is_done("", ""));
}

#[test]
fn the_holder_ends_when_the_clipboard_changes() {
    assert!(holder_is_done("test", "not test"));
    assert!(holder_is_done("test", ""));
    assert!(holder_is_done("test", "tes"));
    assert!(holder_is_done("test", "tesu"));
}

#[test]
fn same_text_compares_whole_strings() {
    assert!(same_text("", ""));
    assert!(same_text("naïve", "naïve"));
    assert!(!same_text("naïve", "naive"));
    assert!(!same_text("a", "ab"));
    assert!(!same_text("ab", "a"));
    assert!(!same_text("ab", "ba"));
}
