use entrouter_line::admin::{authorize, UNAUTHORIZED};

#[test]
fn no_token_allows_everything() {
    assert_eq!(authorize(&None, None), Ok(()));
    assert_eq!(authorize(&None, Some("junk")), Ok(()));
}

#[test]
fn bearer_token_must_match() {
    let token = Some("s3cret".to_string());
    assert_eq!(authorize(&token, Some("Bearer s3cret")), Ok(()));
    assert_eq!(authorize(&token, Some("Bearer wrong")), Err(UNAUTHORIZED));
    assert_eq!(authorize(&token, Some("bearer s3cret")), Err(401));
    assert_eq!(authorize(&token, Some("s3cret")), Err(401));
    assert_eq!(authorize(&token, None), Err(401));
    assert_eq!(authorize(&token, Some("Bearer s3cret ")), Err(401));
}
