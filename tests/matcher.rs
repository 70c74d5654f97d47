use pkgdu::matcher::{glob_matches, NamePattern};

fn glob(p: &str, s: &str) -> bool {
    glob_matches(&p.chars().collect(), &s.chars().collect())
}

#[test]
fn glob_table() {
    assert!(glob("", ""));
    assert!(!glob("", "a"));
    assert!(glob("*", ""));
    assert!(glob("*", "anything"));
    assert!(glob("a*c", "abc"));
    assert!(glob("a*c", "ac"));
    assert!(!glob("a*c", "acb"));
    assert!(glob("?b?", "abc"));
    assert!(!glob("?b?", "ab"));
    assert!(glob("**x", "yx"));
    assert!(glob("é?", "éa"));
    assert!(!glob("abc", "ab"));
}

#[test]
fn compiled_patterns() {
    let g = NamePattern::compile(&"py*".to_string(), false).ok().unwrap();
    assert!(g.is_match(&"python".to_string()));
    assert!(!g.is_match(&"cpython".to_string()));
    let r = NamePattern::compile(&"py".to_string(), true).ok().unwrap();
    assert!(r.is_match(&"cpython".to_string()));
    assert!(NamePattern::compile(&"py(".to_string(), true).is_err());
    assert!(NamePattern::compile(&"py(".to_string(), false).is_ok());
}

