use garuda::auth::{presented_key, require_key, ApiKeys, UNAUTHORIZED_MESSAGE};

fn keys(list: &[&str]) -> ApiKeys {
    ApiKeys::new(list.iter().map(|k| (*k).to_owned()).collect())
}

/// Whether a request goes through: `header` is `authorization` or `x-api-key`.
fn allowed(keys: &ApiKeys, path: &str, header: Option<(&str, &str)>) -> bool {
    let (bearer, x) = match header {
        Some(("authorization", v)) => (Some(v), None),
        Some((_, v)) => (None, Some(v)),
        None => (None, None),
    };
    require_key(keys, path, presented_key(bearer, x, None).as_deref())
}

#[test]
fn disabled_when_no_keys_are_configured() {
    let k = keys(&[]);
    assert!(!k.is_enabled());
    assert!(allowed(&k, "/v1/models", None));
}

#[test]
fn health_and_root_are_always_exempt() {
    let k = keys(&["secret"]);
    assert!(k.is_enabled());
    assert!(allowed(&k, "/health", None));
    assert!(allowed(&k, "/", None));
    assert!(!allowed(&k, "/healthy", None));
}

#[test]
fn a_protected_route_rejects_a_missing_or_wrong_key() {
    let k = keys(&["secret"]);
    assert!(!allowed(&k, "/v1/models", None));
    assert!(!allowed(
        &k,
        "/v1/models",
        Some(("authorization", "Bearer wrong"))
    ));
    assert_eq!(UNAUTHORIZED_MESSAGE, "invalid or missing API key");
}

#[test]
fn bearer_and_x_api_key_both_work() {
    let k = keys(&["secret"]);
    assert!(allowed(
        &k,
        "/v1/models",
        Some(("authorization", "Bearer secret"))
    ));
    assert!(allowed(&k, "/v1/models", Some(("x-api-key", "secret"))));
}

#[test]
fn any_configured_key_is_accepted() {
    let k = keys(&["one", "two"]);
    assert!(allowed(&k, "/v1/models", Some(("x-api-key", "two"))));
}

#[test]
fn an_empty_bearer_token_is_rejected_not_matched_against_an_empty_key() {
    let k = keys(&[""]);
    assert!(!allowed(
        &k,
        "/v1/models",
        Some(("authorization", "Bearer "))
    ));
}

#[test]
fn a_key_is_compared_whole() {
    let k = keys(&["secret", "schlüssel"]);
    for (shown, ok) in [
        ("secret", true),
        ("secre", false),
        ("secrets", false),
        ("Secret", false),
        ("schlüssel", true),
        ("schlussel", false),
        ("", false),
    ] {
        assert_eq!(k.accepts(shown), ok, "{shown}");
    }
}

#[test]
fn the_bearer_scheme_comes_before_the_others() {
    let shown = |a, x, w| presented_key(a, x, w);
    assert_eq!(
        shown(Some("Bearer a"), Some("b"), None).as_deref(),
        Some("a")
    );
    assert_eq!(
        shown(Some("Basic a"), Some("b"), None).as_deref(),
        Some("b")
    );
    assert_eq!(
        shown(Some("bearer a"), None, None),
        None,
        "the scheme is spelt as it is"
    );
    assert_eq!(
        shown(Some("Bearer "), Some("b"), None),
        None,
        "an empty bearer key is no reason to look further"
    );
}

#[test]
fn a_websocket_may_present_its_key_as_a_subprotocol() {
    let offered = |list| presented_key(None, None, Some(list));
    assert_eq!(
        offered("chat, garuda.api-key.secret").as_deref(),
        Some("secret")
    );
    assert_eq!(
        offered("garuda.api-key.one,garuda.api-key.two").as_deref(),
        Some("one")
    );
    assert_eq!(offered("chat"), None);
    assert_eq!(offered("garuda.api-key."), None);
    assert_eq!(
        presented_key(None, Some("x"), Some("garuda.api-key.y")).as_deref(),
        Some("x")
    );
}
