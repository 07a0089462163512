use savesearch::ascii::{eq_fold, split_at_byte, split_words, to_lower, trimmed_len};
use savesearch::category;
use savesearch::category::{classify, ext_lower, Category};
use savesearch::pattern::{
    all_terms_match, compile_query, contains_ci, glob_at, term_matches, wildcard_contains_ci,
};

#[test]
fn substring_folds_the_name() {
    assert!(contains_ci(b"Hello World", b"lo wo"));
    assert!(contains_ci(b"Hello", b""));
    assert!(!contains_ci(b"Hello", b"LO"));
    assert!(!contains_ci(b"ab", b"abc"));
    assert!(contains_ci(b"aab", b"ab"));
}

#[test]
fn globs() {
    assert!(glob_at(b"report.txt", b"rep*txt"));
    assert!(glob_at(b"report.txt", b"rep"));
    assert!(!glob_at(b"report.txt", b"ort"));
    assert!(wildcard_contains_ci(b"report.txt", b"o?t"));
    assert!(wildcard_contains_ci(b"REPORT.TXT", b"*.txt"));
    assert!(!wildcard_contains_ci(b"report", b"?report"));
    assert!(wildcard_contains_ci(b"", b"*"));
    assert!(!wildcard_contains_ci(b"", b"?"));
    assert!(wildcard_contains_ci(b"aXbXc", b"a*b*c"));
    assert!(!wildcard_contains_ci(b"aXbX", b"a*b*c"));
    assert!(wildcard_contains_ci(b"aab", b"a*ab"));
}

#[test]
fn outer_stars_are_free() {
    for name in [&b"report.txt"[..], &b"x"[..], &b""[..]] {
        for p in [&b"re?"[..], &b"t*t"[..], &b"z?"[..]] {
            let mut q = vec![b'*'];
            q.extend_from_slice(p);
            q.push(b'*');
            assert_eq!(wildcard_contains_ci(name, p), wildcard_contains_ci(name, &q));
        }
    }
}

#[test]
fn a_plain_glob_is_a_substring() {
    for name in [&b"Report"[..], &b"por"[..], &b""[..]] {
        assert_eq!(wildcard_contains_ci(name, b"por"), contains_ci(name, b"por"));
    }
}

#[test]
fn queries_are_split_and_lowered() {
    let t = compile_query("  Foo\tB?R\nbaz* ");
    assert_eq!(t.len(), 3);
    assert_eq!(t[0].lower, b"foo");
    assert!(!t[0].has_wild);
    assert_eq!(t[1].lower, b"b?r");
    assert!(t[1].has_wild);
    assert_eq!(t[2].lower, b"baz*");
    assert!(t[2].has_wild);
    assert!(compile_query(" \t").is_empty());
    assert!(term_matches(b"xFOOx", &t[0]));
    assert!(all_terms_match(b"foo bar BAZ", &t));
    assert!(!all_terms_match(b"foo bar", &t));
    assert!(all_terms_match(b"anything", &[]));
}

#[test]
fn bytes() {
    assert_eq!(to_lower(b'A'), b'a');
    assert_eq!(to_lower(b'['), b'[');
    assert!(eq_fold(b"AbC", b"aBc"));
    assert!(!eq_fold(b"ab", b"abc"));
    assert_eq!(split_words(b" a  bc "), vec![b"a".to_vec(), b"bc".to_vec()]);
    assert_eq!(split_at_byte(b"a\\\\b", b'\\'), vec![b"a".to_vec(), vec![], b"b".to_vec()]);
    assert_eq!(split_at_byte(b"", b'\\'), vec![Vec::<u8>::new()]);
    assert_eq!(trimmed_len(b"ab\\\\", b'\\'), 2);
    assert_eq!(trimmed_len(b"\\", b'\\'), 0);
}

#[test]
fn categories_by_extension() {
    assert_eq!(classify(b"a.TXT", false), Category::Document);
    assert_eq!(classify(b"a.png", false), Category::Image);
    assert_eq!(classify(b"a.mp4", false), Category::Video);
    assert_eq!(classify(b"a.mp3", false), Category::Audio);
    assert_eq!(classify(b"a.exe", false), Category::Other);
    assert_eq!(classify(b"noext", false), Category::Other);
    assert_eq!(classify(b"a.png", true), Category::Folder);
    assert_eq!(ext_lower(b"archive.tar.GZ"), b"gz".to_vec());
    assert_eq!(ext_lower(b"noext"), Vec::<u8>::new());
}

#[test]
fn filters_by_category() {
    assert!(category::matches(Category::All, b"x", true));
    assert!(category::matches(Category::Folder, b"x", true));
    assert!(!category::matches(Category::Folder, b"x", false));
    assert!(!category::matches(Category::Document, b"x.txt", true));
    assert!(category::matches(Category::Document, b"x.txt", false));
    assert!(category::matches(Category::Other, b"x", false));
    assert!(!category::matches(Category::Other, b"x", true));
}

#[test]
fn question_mark_is_one_character() {
    assert!(wildcard_contains_ci("a文b".as_bytes(), b"a?b"));
    assert!(!wildcard_contains_ci("a文b".as_bytes(), b"a??b"));
    assert!(wildcard_contains_ci("aéb".as_bytes(), b"a?b"));
    assert!(wildcard_contains_ci("a😀b".as_bytes(), b"a?b"));
    assert!(wildcard_contains_ci("文b".as_bytes(), b"?b"));
    assert!(!wildcard_contains_ci("文b".as_bytes(), b"??b"));
    assert!(wildcard_contains_ci("x文a件b".as_bytes(), "文*?b".as_bytes()));
    assert!(glob_at("文".as_bytes(), b"?"));
    assert!(!glob_at("文".as_bytes(), b"??"));
}
