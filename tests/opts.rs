use function_runner::opts::{Opts, OptsError};

#[test]
fn schema_path_missing_is_an_error() {
    let o = Opts { schema_path: None, query_path: Some("q.graphql".to_string()) };
    let r = o.read_schema_to_string(|p: String| Ok(p));
    assert!(matches!(r, Err(OptsError::SchemaPathMissing)));
}

#[test]
fn query_path_missing_is_an_error() {
    let o = Opts { schema_path: Some("s.graphql".to_string()), query_path: None };
    let r = o.read_query_to_string(|p: String| Ok(p));
    assert!(matches!(r, Err(OptsError::QueryPathMissing)));
}

#[test]
fn paths_are_handed_to_the_reader() {
    let o = Opts {
        schema_path: Some("s.graphql".to_string()),
        query_path: Some("q.graphql".to_string()),
    };
    let s = o.read_schema_to_string(|p: String| Ok(format!("read {}", p)));
    let q = o.read_query_to_string(|p: String| Ok(format!("read {}", p)));
    assert_eq!(s.ok(), Some("read s.graphql".to_string()));
    assert_eq!(q.ok(), Some("read q.graphql".to_string()));
}

#[test]
fn reader_failure_is_reported() {
    let o = Opts { schema_path: Some("s.graphql".to_string()), query_path: None };
    let r = o.read_schema_to_string(|p: String| Err(format!("no such file {}", p)));
    match r {
        Err(OptsError::Unreadable(m)) => assert_eq!(m, "no such file s.graphql"),
        _ => panic!("expected a read error"),
    }
}
