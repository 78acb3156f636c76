use ktra_login::flow::{endpoint_api, resolve_registry, LoginError};

#[test]
fn no_registry_anywhere_is_a_configuration_error() {
    let r = resolve_registry(None, None);
    assert_eq!(r, Err(LoginError::NoDefaultRegistry));
}

#[test]
fn explicit_registry_overrides_default() {
    let r = resolve_registry(Some(b"foo".to_vec()), Some(b"bar".to_vec()));
    assert_eq!(r, Ok(b"foo".to_vec()));
}

#[test]
fn default_registry_used_when_none_explicit() {
    let r = resolve_registry(None, Some(b"bar".to_vec()));
    assert_eq!(r, Ok(b"bar".to_vec()));
}

#[test]
fn missing_api_url_is_an_invalid_registry() {
    assert_eq!(endpoint_api(None), Err(LoginError::InvalidRegistry));
}

#[test]
fn configured_api_url_is_used() {
    let r = endpoint_api(Some(b"https://crates.example".to_vec()));
    assert_eq!(r, Ok(b"https://crates.example".to_vec()));
}
