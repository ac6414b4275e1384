use test_analytics::testrun::{check_testsuites_name, Framework, Outcome, Testrun};
use test_analytics::validated_string::ValidatedString;

fn vs(s: &str) -> ValidatedString {
    ValidatedString::from_string(s.to_string()).unwrap()
}

fn blank() -> Testrun {
    Testrun {
        classname: ValidatedString::default(),
        name: ValidatedString::default(),
        duration: None,
        outcome: Outcome::Pass,
        testsuite: ValidatedString::default(),
        failure_message: None,
        filename: None,
        build_url: None,
        computed_name: ValidatedString::default(),
    }
}

#[test]
fn test_detect_framework_testsuites_name_no_match() {
    let f = check_testsuites_name("whatever");
    assert_eq!(f, None)
}

#[test]
fn test_detect_framework_testsuites_name_match() {
    let f = check_testsuites_name("jest tests");
    assert_eq!(f, Some(Framework::Jest))
}

#[test]
fn test_detect_framework_testsuite_name() {
    let t = Testrun { testsuite: vs("pytest"), ..blank() };
    assert_eq!(t.framework(), Some(Framework::Pytest))
}

#[test]
fn test_detect_framework_filenames() {
    let t = Testrun { filename: Some(vs(".py")), ..blank() };
    assert_eq!(t.framework(), Some(Framework::Pytest))
}

#[test]
fn test_detect_framework_example_classname() {
    let t = Testrun { classname: vs(".py"), ..blank() };
    assert_eq!(t.framework(), Some(Framework::Pytest))
}

#[test]
fn test_detect_framework_example_name() {
    let t = Testrun { name: vs(".py"), ..blank() };
    assert_eq!(t.framework(), Some(Framework::Pytest))
}

#[test]
fn test_detect_framework_failure_messages() {
    let t = Testrun { failure_message: Some(".py".to_string()), ..blank() };
    assert_eq!(t.framework(), Some(Framework::Pytest))
}

#[test]
fn test_detect_build_url() {
    let t = Testrun {
        failure_message: Some(".py".to_string()),
        build_url: Some("https://example.com/build_url".to_string()),
        ..blank()
    };
    assert_eq!(t.framework(), Some(Framework::Pytest))
}

#[test]
fn framework_needs_a_word_boundary() {
    assert_eq!(check_testsuites_name("PyTest suite"), Some(Framework::Pytest));
    assert_eq!(check_testsuites_name("pytests"), None);
    assert_eq!(check_testsuites_name("my-vitest"), Some(Framework::Vitest));
    assert_eq!(check_testsuites_name("phpunit"), Some(Framework::PHPUnit));
    let t = Testrun { filename: Some(vs("tests/test_a.php")), ..blank() };
    assert_eq!(t.framework(), Some(Framework::PHPUnit));
    assert_eq!(blank().framework(), None);
}

#[test]
fn word_matching_on_characters() {
    use_matches_word();
}

fn use_matches_word() {
    let s: Vec<char> = "a pytestx pytest".chars().collect();
    let sub: Vec<char> = "pytest".chars().collect();
    assert!(test_analytics::testrun::matches_word(&s, &sub) == false);
    let s2: Vec<char> = "run pytest.".chars().collect();
    assert!(test_analytics::testrun::matches_word(&s2, &sub));
    let empty: Vec<char> = Vec::new();
    assert!(!test_analytics::testrun::matches_word(&empty, &sub));
}
