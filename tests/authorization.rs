use xcosm::{AuthError, Authorized, XcosmError};

fn names(xs: &[&str]) -> Vec<String> {
    xs.iter().map(|x| x.to_string()).collect()
}

fn many() -> Authorized {
    Authorized::new(&names(&["A", "B", "C"]))
}

fn denied(r: Result<(), XcosmError>) -> bool {
    matches!(r, Err(XcosmError::Auth(AuthError::Unauthorized {})))
}

#[test]
fn quorum_any_succeeds_on_one_match() {
    assert!(many().authorize_any(&names(&["D", "B"])).is_ok());
    assert!(denied(many().authorize_any(&names(&["D", "E"]))));
}

#[test]
fn quorum_all_fails_on_one_mismatch() {
    assert!(denied(many().authorize_all(&names(&["A", "D"]))));
    assert!(many().authorize_all(&names(&["A", "C"])).is_ok());
}

#[test]
fn quorum_at_least_counts_matches() {
    assert!(many().authorize_at_least(&names(&["A", "B", "D"]), 2).is_ok());
    assert!(denied(many().authorize_at_least(&names(&["A", "D"]), 2)));
}

#[test]
fn single_policy_is_exact_equality() {
    let one = Authorized::new(&names(&["A"]));
    assert_eq!(one, Authorized::One("A".to_string()));
    assert!(one.authorize(&"A".to_string()).is_ok());
    assert!(denied(one.authorize(&"B".to_string())));
    assert!(denied(one.authorize_all(&names(&["A", "B"]))));
    assert!(denied(one.authorize_at_least(&names(&["A"]), 2)));
    assert!(one.authorize_at_least(&names(&["A", "A"]), 2).is_ok());
}

#[test]
fn nobody_and_anybody_policies() {
    let nobody = Authorized::new(&[]);
    assert_eq!(nobody, Authorized::default());
    assert!(denied(nobody.authorize(&"A".to_string())));
    assert!(denied(nobody.authorize_any(&names(&["A"]))));
    assert!(denied(nobody.authorize_all(&names(&[]))));
    assert!(denied(nobody.authorize_at_least(&names(&[]), 0)));
    let any = Authorized::Any;
    assert!(any.authorize(&"Z".to_string()).is_ok());
    assert!(any.authorize_any(&names(&[])).is_ok());
    assert!(any.authorize_all(&names(&["X", "Y"])).is_ok());
    assert!(any.authorize_at_least(&names(&[]), 5).is_ok());
}

#[test]
fn policy_lists_its_principals() {
    assert_eq!(many().into_vec(), names(&["A", "B", "C"]));
    assert_eq!(Authorized::Any.into_vec(), Vec::<String>::new());
}
