use base64::Engine;
use sha2::Digest;
use timeblock_calendar::auth::{
    exchange_token, start_oauth, token_result, AuthError, OAuthProvider, TokenResponse,
};

struct FakeProvider;

impl OAuthProvider for FakeProvider {
    fn exchange_code(&self, code: &str, _code_verifier: &str) -> Result<TokenResponse, String> {
        if code == "valid-code" {
            Ok(TokenResponse {
                access_token: "access".to_string(),
                refresh_token: "refresh".to_string(),
                expires_in: 3600,
            })
        } else {
            Err("invalid_code".to_string())
        }
    }
}

#[test]
fn start_oauth_generates_pkce_verifier_with_valid_length() {
    let start = start_oauth("client-id", "http://localhost/callback", &["calendar"])
        .expect("start oauth should succeed");

    assert!((43..=128).contains(&start.code_verifier.len()));
}

#[test]
fn start_oauth_generates_sha256_base64url_challenge() {
    let start = start_oauth("client-id", "http://localhost/callback", &["calendar"])
        .expect("start oauth should succeed");

    assert!(!start.code_challenge.contains('+'));
    assert!(!start.code_challenge.contains('/'));
    assert!(!start.code_challenge.contains('='));
}

#[test]
fn exchange_token_succeeds_with_valid_code() {
    let provider = FakeProvider;

    let token =
        exchange_token(&provider, "valid-code", "verifier").expect("exchange should succeed");

    assert_eq!(token.access_token, "access");
}

#[test]
fn exchange_token_fails_with_invalid_code() {
    let provider = FakeProvider;

    let result = exchange_token(&provider, "invalid", "verifier");

    assert!(result.is_err());
}

#[test]
fn start_oauth_rejects_blank_client_id() {
    let result = start_oauth("  ", "http://localhost/callback", &["calendar"]);

    assert_eq!(result, Err(AuthError::EmptyClientId));
}

#[test]
fn start_oauth_rejects_blank_redirect_uri() {
    let result = start_oauth("client-id", "\t", &["calendar"]);

    assert_eq!(result, Err(AuthError::EmptyRedirectUri));
}

#[test]
fn start_oauth_builds_url_with_joined_scopes() {
    let start = start_oauth("cid", "http://localhost/cb", &["a", "b", "c"])
        .expect("start oauth should succeed");

    let expected = format!(
        "https://accounts.google.com/o/oauth2/v2/auth?response_type=code&client_id=cid&redirect_uri=http://localhost/cb&scope=a b c&code_challenge={}&code_challenge_method=S256&access_type=offline&prompt=consent",
        start.code_challenge
    );
    assert_eq!(start.auth_url, expected);
}

#[test]
fn start_oauth_verifier_is_96_hex_digits_and_challenge_differs() {
    let start = start_oauth("cid", "http://localhost/cb", &[]).expect("start oauth should succeed");

    assert_eq!(start.code_verifier.len(), 96);
    assert!(start
        .code_verifier
        .chars()
        .all(|c| c.is_ascii_digit() || ('a'..='f').contains(&c)));
    assert_eq!(start.code_challenge.len(), 43);
    assert_ne!(start.code_challenge, start.code_verifier);
    assert!(start.auth_url.contains("&scope=&code_challenge="));
}

#[test]
fn start_oauth_verifiers_are_fresh() {
    let a = start_oauth("cid", "http://localhost/cb", &["x"]).expect("first");
    let b = start_oauth("cid", "http://localhost/cb", &["x"]).expect("second");

    assert_ne!(a.code_verifier, b.code_verifier);
}

#[test]
fn exchange_token_rejects_blank_code_and_verifier() {
    let provider = FakeProvider;

    assert_eq!(
        exchange_token(&provider, " ", "verifier"),
        Err(AuthError::EmptyCode)
    );
    assert_eq!(
        exchange_token(&provider, "valid-code", ""),
        Err(AuthError::EmptyCodeVerifier)
    );
    assert_eq!(
        exchange_token(&provider, "invalid", "verifier"),
        Err(AuthError::Provider("invalid_code".to_string()))
    );
}

#[test]
fn auth_error_messages() {
    assert_eq!(AuthError::EmptyClientId.message(), "client_id must not be empty");
    assert_eq!(
        AuthError::EmptyCode.message(),
        "authorization code must not be empty"
    );
}

#[test]
fn start_oauth_challenge_is_sha256_of_verifier_in_url_safe_base64() {
    let start = start_oauth("cid", "http://localhost/cb", &["x"]).expect("start oauth should succeed");

    let digest = sha2::Sha256::digest(start.code_verifier.as_bytes());
    let expected = base64::engine::general_purpose::URL_SAFE_NO_PAD.encode(digest);
    assert_eq!(start.code_challenge, expected);
}

struct RecordingProvider {
    seen: std::cell::RefCell<Vec<(String, String)>>,
}

impl OAuthProvider for RecordingProvider {
    fn exchange_code(&self, code: &str, code_verifier: &str) -> Result<TokenResponse, String> {
        self.seen.borrow_mut().push((code.to_string(), code_verifier.to_string()));
        if code == "bad" {
            return Err("denied: bad".to_string());
        }
        Ok(TokenResponse {
            access_token: format!("access-{code}"),
            refresh_token: format!("refresh-{code_verifier}"),
            expires_in: 1234,
        })
    }
}

#[test]
fn exchange_token_hands_code_and_verifier_over_and_keeps_the_answer() {
    let provider = RecordingProvider { seen: std::cell::RefCell::new(Vec::new()) };

    let token = exchange_token(&provider, "c-1", "v-1").expect("accepted");
    assert_eq!(
        token,
        TokenResponse {
            access_token: "access-c-1".to_string(),
            refresh_token: "refresh-v-1".to_string(),
            expires_in: 1234,
        }
    );
    assert_eq!(
        exchange_token(&provider, "bad", "v-2"),
        Err(AuthError::Provider("denied: bad".to_string()))
    );
    assert_eq!(exchange_token(&provider, " ", "v-3"), Err(AuthError::EmptyCode));
    assert_eq!(
        provider.seen.borrow().clone(),
        vec![
            ("c-1".to_string(), "v-1".to_string()),
            ("bad".to_string(), "v-2".to_string()),
        ]
    );
}

#[test]
fn token_result_keeps_tokens_and_wraps_refusals() {
    let t = TokenResponse {
        access_token: "a".to_string(),
        refresh_token: "r".to_string(),
        expires_in: 5,
    };
    assert_eq!(token_result(Ok(t.clone())), Ok(t));
    assert_eq!(token_result(Err("no".to_string())), Err(AuthError::Provider("no".to_string())));
}
