use slugmin::slugify;
use slugmin::slugify_normal;

#[test]
fn strict_basic() {
    assert_eq!(slugify("My Test String!!!1!1"), "my-test-string-1-1");
}

#[test]
fn strict_whitespace_runs() {
    assert_eq!(slugify("test\nit   now!"), "test-it-now");
}

#[test]
fn strict_leading_separators() {
    assert_eq!(slugify("  --test_-_cool"), "test-cool");
}

#[test]
fn strict_transliterates() {
    assert_eq!(slugify("Æúű--cool?"), "aeuu-cool");
}

#[test]
fn strict_ampersand() {
    assert_eq!(slugify("You & Me"), "you-me");
}

#[test]
fn strict_email() {
    assert_eq!(slugify("user@example.com"), "user-example-com");
}

#[test]
fn strict_empty() {
    assert_eq!(slugify(""), "");
}

#[test]
fn strict_only_separators() {
    assert_eq!(slugify("!!! --- ???"), "");
}

#[test]
fn strict_single_unicode_char() {
    // would fail if transliteration handed the character back unchanged
    assert_eq!(slugify("Æ"), "ae");
}

#[test]
fn strict_idempotent_example() {
    let once = slugify("My Test String!!!1!1");
    assert_eq!(slugify(&once), once);
}

#[test]
fn strict_case_insensitive_example() {
    assert_eq!(slugify("mY tEST sTRING!!!1!1"), slugify("My Test String!!!1!1"));
}

#[test]
fn strict_no_double_dash_example() {
    let out = slugify("a!!b??c");
    assert_eq!(out, "a-b-c");
    assert!(!out.contains("--"));
}

#[test]
fn lenient_basic() {
    assert_eq!(slugify_normal("My Test String!!!1!1", false), "my test string-1-1");
}

#[test]
fn lenient_whitespace_runs() {
    assert_eq!(slugify_normal("test\nit   now!", false), "test-it now");
}

#[test]
fn lenient_keeps_underscores() {
    assert_eq!(slugify_normal("  --test_-_cool", false), "test_-_cool");
}

#[test]
fn lenient_transliterates() {
    assert_eq!(slugify_normal("Æúű--cool?", false), "aeuu-cool");
}

#[test]
fn lenient_ampersand() {
    assert_eq!(slugify_normal("You & Me", false), "you - me");
}

#[test]
fn lenient_email() {
    assert_eq!(slugify_normal("      user@example.com", false), "user-example.com");
}

#[test]
fn lenient_preserve_case_trims_tail() {
    assert_eq!(slugify_normal("RWR - - - - - - -", true), "RWR");
}

#[test]
fn lenient_leading_dot_stays() {
    assert_eq!(slugify_normal(".Pliczek", true), ".Pliczek");
}

#[test]
fn lenient_space_before_dot() {
    assert_eq!(slugify_normal("roman .txt", true), "roman .txt");
}

#[test]
fn lenient_dot_before_space() {
    assert_eq!(slugify_normal("roman. txt", true), "roman. txt");
}

#[test]
fn lenient_double_space_after_dot() {
    assert_eq!(slugify_normal("roman.  txt", true), "roman. txt");
}

#[test]
fn lenient_lowercases_without_preserve() {
    assert_eq!(slugify_normal("ABC DEF", false), "abc def");
}

#[test]
fn lenient_empty() {
    assert_eq!(slugify_normal("", true), "");
}

#[test]
fn lenient_trailing_underscore_stays() {
    assert_eq!(slugify_normal("abc_", false), "abc_");
}

#[test]
fn lenient_trailing_dot_stays() {
    assert_eq!(slugify_normal("abc.", true), "abc.");
}

#[test]
fn lenient_collapses_dots() {
    assert_eq!(slugify_normal("a...b", true), "a.b");
}

#[test]
fn lenient_mixed_whitespace_class_collapses() {
    // the first byte of a whitespace run is kept, the rest of the run is
    // suppressed whichever of the two characters it holds
    assert_eq!(slugify_normal("a _ _b", false), "a b");
    assert_eq!(slugify_normal("a_ b", false), "a_b");
}
