//! Cross-checks the classifier against the regular-expression form of the
//! same suffix rule: strip a match of `-[a-z\d]{16}$` from the stem.

use artifact_pruner::classify::classify;
use regex::Regex;

#[test]
fn classifier_agrees_with_the_suffix_regex() {
    let re = Regex::new("-[a-z\\d]{16}$").unwrap();
    let stems = [
        "libfoo-0123456789abcdef",
        "libfoo-0123456789ABCDEF",
        "libfoo-0123456789abcde",
        "libfoo-00123456789abcdef",
        "libfoo0123456789abcdef",
        "-0123456789abcdef",
        "0123456789abcdef",
        "a-zzzzzzzzzzzzzzzz",
        "a-z_zzzzzzzzzzzzzz",
        "nested-name-0123456789abcdef",
        "",
        "x",
    ];
    for stem in stems {
        let expected = if re.is_match(stem) {
            Some(format!("{}.rlib", re.replace(stem, "")))
        } else {
            None
        };
        assert_eq!(classify(stem, "rlib"), expected, "stem {:?}", stem);
    }
}
