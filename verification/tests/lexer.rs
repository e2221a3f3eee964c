use matchit::find_wildcard;
use matchit::pattern::{check_tail, common_len, ends_with, same_bytes, seek, starts_with, Mark};
use matchit::InsertError;

#[test]
fn no_wildcard() {
    assert_eq!(find_wildcard(b"/static/path"), (None, false));
    assert_eq!(find_wildcard(b""), (None, false));
}

#[test]
fn param_up_to_the_slash() {
    assert_eq!(find_wildcard(b"/users/:id/posts"), (Some((&b":id"[..], 7)), true));
    assert_eq!(find_wildcard(b"/users/:id"), (Some((&b":id"[..], 7)), true));
    assert_eq!(find_wildcard(b":id"), (Some((&b":id"[..], 0)), true));
}

#[test]
fn catch_all_token() {
    assert_eq!(find_wildcard(b"/src/*filepath"), (Some((&b"*filepath"[..], 5)), true));
}

#[test]
fn second_wildcard_in_a_name() {
    assert_eq!(find_wildcard(b"/a/:x:y/b"), (Some((&b":x:y"[..], 3)), false));
    assert_eq!(find_wildcard(b"/a/:x*y"), (Some((&b":x*y"[..], 3)), false));
    assert_eq!(find_wildcard(b"/a/:x/:y"), (Some((&b":x"[..], 3)), true));
}

#[test]
fn name_may_be_empty() {
    assert_eq!(find_wildcard(b"/a/:"), (Some((&b":"[..], 3)), true));
    assert_eq!(find_wildcard(b"/a/*/b"), (Some((&b"*"[..], 3)), true));
}

#[test]
fn seek_finds_the_first() {
    assert_eq!(seek(b"/a/b", 0, Mark::Slash), 0);
    assert_eq!(seek(b"/a/b", 1, Mark::Slash), 2);
    assert_eq!(seek(b"/a/b", 3, Mark::Slash), 4);
    assert_eq!(seek(b"abc", 0, Mark::Byte(b'c')), 2);
    assert_eq!(seek(b"abc", 0, Mark::Byte(b'd')), 3);
    assert_eq!(seek(b"a*b:c", 0, Mark::Wild), 1);
    assert_eq!(seek(b"a*b:c", 2, Mark::Wild), 3);
}

#[test]
fn byte_comparisons() {
    assert!(starts_with(b"/users", b"/us"));
    assert!(starts_with(b"/users", b""));
    assert!(!starts_with(b"/us", b"/users"));
    assert!(!starts_with(b"/users", b"/uz"));
    assert!(ends_with(b"/users", b"ers"));
    assert!(!ends_with(b"/users", b"/user"));
    assert!(same_bytes(b"abc", b"abc"));
    assert!(!same_bytes(b"abc", b"abd"));
    assert!(!same_bytes(b"abc", b"ab"));
    assert_eq!(common_len(b"/search", 0, b"/support"), 2);
    assert_eq!(common_len(b"xx/search", 2, b"/search/more"), 7);
    assert_eq!(common_len(b"abc", 3, b"abc"), 0);
}

#[test]
fn tail_checks() {
    assert_eq!(check_tail(b"/a/:x/b/*rest", 0), None);
    assert_eq!(check_tail(b"/a/:x:y", 0), Some(InsertError::TooManyParams));
    assert_eq!(check_tail(b"/a/:", 0), Some(InsertError::UnnamedParam));
    assert_eq!(check_tail(b"/a/*p/b", 0), Some(InsertError::InvalidCatchAll));
    assert_eq!(check_tail(b"/a*p", 0), Some(InsertError::InvalidCatchAll));
    assert_eq!(check_tail(b"/a*p", 2), Some(InsertError::InvalidCatchAll));
    assert_eq!(check_tail(b"a/*p", 0), Some(InsertError::InvalidCatchAll));
    assert_eq!(check_tail(b"a/*p", 1), None);
    assert_eq!(check_tail(b"/a/:x:y", 5), None);
    assert_eq!(check_tail(b"/a/:x/:", 5), Some(InsertError::UnnamedParam));
    assert_eq!(check_tail(b"/a/b", 4), None);
}
