use distribd::types::RepositoryName;

#[test]
fn from_str() {
    let name: RepositoryName = "a/b/c".parse().unwrap();
    assert_eq!(name.name, "a/b/c");
}

#[test]
fn to_str() {
    let name: RepositoryName = "a/b/c".parse().unwrap();
    assert_eq!(name.to_string(), "a/b/c");
}

#[test]
fn from_json() {
    let data = r#"
    "a/b/c"
    "#;
    let parsed: String = serde_json::from_str(data).unwrap();
    let parsed: RepositoryName = parsed.parse().unwrap();
    let name: RepositoryName = "a/b/c".parse().unwrap();
    assert_eq!(parsed, name);
}

#[test]
fn to_json() {
    let data = r#""a/b/c""#;
    let name: RepositoryName = "a/b/c".parse().unwrap();
    let serialized = serde_json::to_string(&name.to_string()).unwrap();

    assert_eq!(data, serialized);
}

#[test]
fn equality() {
    let name1: RepositoryName = "a/b/c".parse().unwrap();
    let name2: RepositoryName = "c/b/a".parse().unwrap();

    assert_eq!(name1, name1.clone());
    assert_ne!(name1, name2);
}
