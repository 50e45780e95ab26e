//! The start of a calendar login with OAuth 2.0 and PKCE, and the exchange
//! of the authorisation code for tokens.
use vstd::prelude::*;
use vstd::string::StringExecFns;
use vstd::string::StrSliceExecFns;

use crate::models::is_lower_hex;
use crate::text::{is_blank, is_blank_str};

verus! {

/// What a login starts with: the address to send the user to, and the PKCE
/// verifier and challenge.
#[derive(Debug, Clone, PartialEq, Eq)]
pub struct OAuthStart {
    pub auth_url: String,
    pub code_verifier: String,
    pub code_challenge: String,
}

/// The tokens that an authorisation code is exchanged for.
#[derive(Debug, Clone, PartialEq, Eq)]
pub struct TokenResponse {
    pub access_token: String,
    pub refresh_token: String,
    pub expires_in: i64,
}

/// The service that exchanges an authorisation code for tokens.
pub trait OAuthProvider {
    /// `answer` is a reply that the provider may give when asked to exchange
    /// `code` with `code_verifier`. A provider that says nothing of its
    /// replies may give any.
    open spec fn exchange_answer(
        &self,
        code: Seq<char>,
        code_verifier: Seq<char>,
        answer: Result<TokenResponse, String>,
    ) -> bool {
        true
    }

    /// The tokens for `code`, or the reason for refusing it.
    fn exchange_code(&self, code: &str, code_verifier: &str) -> (r: Result<TokenResponse, String>)
        ensures
            self.exchange_answer(code@, code_verifier@, r),
    ;
}

/// Why a login step was refused.
#[derive(Debug, Clone, PartialEq, Eq)]
pub enum AuthError {
    EmptyClientId,
    EmptyRedirectUri,
    EmptyCode,
    EmptyCodeVerifier,
    /// The provider refused the exchange, for the reason given.
    Provider(String),
}

impl AuthError {
    pub open spec fn spec_message(&self) -> Seq<char> {
        match self {
            AuthError::EmptyClientId => "client_id must not be empty"@,
            AuthError::EmptyRedirectUri => "redirect_uri must not be empty"@,
            AuthError::EmptyCode => "authorization code must not be empty"@,
            AuthError::EmptyCodeVerifier => "code verifier must not be empty"@,
            AuthError::Provider(reason) => reason@,
        }
    }

    /// The human-readable message of this error.
    pub fn message(&self) -> (m: String)
        ensures
            m@ == self.spec_message(),
    {
        match self {
            AuthError::EmptyClientId => String::from_str("client_id must not be empty"),
            AuthError::EmptyRedirectUri => String::from_str("redirect_uri must not be empty"),
            AuthError::EmptyCode => String::from_str("authorization code must not be empty"),
            AuthError::EmptyCodeVerifier => String::from_str("code verifier must not be empty"),
            AuthError::Provider(reason) => reason.clone(),
        }
    }
}

/// A character of the URL-safe base64 alphabet.
pub open spec fn is_url_safe_base64(c: char) -> bool {
    ('A' <= c <= 'Z') || ('a' <= c <= 'z') || ('0' <= c <= '9') || c == '-' || c == '_'
}

/// What `Sha256::digest` of the `sha2` crate makes of the bytes.
pub uninterp spec fn spec_sha256(data: Seq<u8>) -> Seq<u8>;

/// The character of the URL-safe base64 alphabet for a six-bit value:
/// `A`-`Z`, `a`-`z`, `0`-`9`, then `-` and `_`.
pub open spec fn base64_url_char(v: int) -> char {
    if v < 26 {
        (65 + v) as char
    } else if v < 52 {
        (97 + (v - 26)) as char
    } else if v < 62 {
        (48 + (v - 52)) as char
    } else if v == 62 {
        '-'
    } else {
        '_'
    }
}

/// The bytes in URL-safe base64 without padding: each group of three bytes
/// as four characters of six bits each, a last group of two bytes as three
/// characters and of one byte as two (the missing low bits zero).
pub open spec fn base64_url_no_pad_of(data: Seq<u8>) -> Seq<char>
    decreases data.len(),
{
    if data.len() >= 3 {
        let n = data[0] * 65536 + data[1] * 256 + data[2];
        seq![
            base64_url_char(n / 262144),
            base64_url_char((n / 4096) % 64),
            base64_url_char((n / 64) % 64),
            base64_url_char(n % 64),
        ] + base64_url_no_pad_of(data.skip(3))
    } else if data.len() == 2 {
        let n = data[0] * 256 + data[1];
        seq![
            base64_url_char(n / 1024),
            base64_url_char((n / 16) % 64),
            base64_url_char((n % 16) * 4),
        ]
    } else if data.len() == 1 {
        seq![base64_url_char((data[0] as int) / 4), base64_url_char(((data[0] as int) % 4) * 16)]
    } else {
        Seq::empty()
    }
}

proof fn lemma_base64_char(v: int)
    requires
        0 <= v < 64,
    ensures
        is_url_safe_base64(base64_url_char(v)),
{
}

/// The encoding holds four characters per three bytes, two or three for a
/// last partial group, all of the URL-safe alphabet.
proof fn lemma_base64_shape(data: Seq<u8>)
    ensures
        base64_url_no_pad_of(data).len() == (4 * data.len() + 2) / 3,
        forall|i: int|
            0 <= i < base64_url_no_pad_of(data).len() ==> is_url_safe_base64(
                #[trigger] base64_url_no_pad_of(data)[i],
            ),
    decreases data.len(),
{
    let e = base64_url_no_pad_of(data);
    if data.len() >= 3 {
        let n = data[0] * 65536 + data[1] * 256 + data[2];
        let a: int = data[0] as int;
        let b: int = data[1] as int;
        let c: int = data[2] as int;
        assert(0 <= n < 16777216) by (nonlinear_arith)
            requires
                n == a * 65536 + b * 256 + c,
                0 <= a < 256,
                0 <= b < 256,
                0 <= c < 256,
        ;
        assert(0 <= n / 262144 < 64) by (nonlinear_arith)
            requires
                0 <= n < 16777216,
        ;
        lemma_base64_char(n / 262144);
        lemma_base64_char((n / 4096) % 64);
        lemma_base64_char((n / 64) % 64);
        lemma_base64_char(n % 64);
        lemma_base64_shape(data.skip(3));
        let head = seq![
            base64_url_char(n / 262144),
            base64_url_char((n / 4096) % 64),
            base64_url_char((n / 64) % 64),
            base64_url_char(n % 64),
        ];
        let tail = base64_url_no_pad_of(data.skip(3));
        assert(e == head + tail);
        assert forall|i: int| 0 <= i < e.len() implies is_url_safe_base64(#[trigger] e[i]) by {
            if i >= 4 {
                assert(e[i] == tail[i - 4]);
            }
        }
    } else if data.len() == 2 {
        let n = data[0] * 256 + data[1];
        let a: int = data[0] as int;
        let b: int = data[1] as int;
        assert(0 <= n < 65536) by (nonlinear_arith)
            requires
                n == a * 256 + b,
                0 <= a < 256,
                0 <= b < 256,
        ;
        assert(0 <= n / 1024 < 64) by (nonlinear_arith)
            requires
                0 <= n < 65536,
        ;
        lemma_base64_char(n / 1024);
        lemma_base64_char((n / 16) % 64);
        lemma_base64_char((n % 16) * 4);
    } else if data.len() == 1 {
        let a: int = data[0] as int;
        assert(0 <= a / 4 < 64);
        lemma_base64_char(a / 4);
        lemma_base64_char((a % 4) * 16);
    }
}

/// The SHA-256 digest of the bytes.
///
/// Calls `sha2::Sha256::digest`. The contract names the digest and states
/// its length, 32 bytes, as the crate's output type fixes it.
#[verifier::external_body]
fn sha256_digest(data: &[u8]) -> (r: Vec<u8>)
    ensures
        r@ == spec_sha256(data@),
        r@.len() == 32,
{
    <sha2::Sha256 as sha2::Digest>::digest(data).to_vec()
}

/// The bytes in URL-safe base64 without padding.
///
/// Calls `Engine::encode` on `base64::engine::general_purpose::URL_SAFE_NO_PAD`,
/// which encodes as RFC 4648 base64 with the URL-safe alphabet and writes no
/// padding; the contract states that encoding. The crate panics when the
/// length overflows, which the bound on the input rules out.
#[verifier::external_body]
fn base64_url_no_pad(data: &[u8]) -> (r: String)
    requires
        data@.len() <= usize::MAX / 2,
    ensures
        r@ == base64_url_no_pad_of(data@),
{
    base64::Engine::encode(&base64::engine::general_purpose::URL_SAFE_NO_PAD, data)
}

/// A fresh random identifier in the compact form.
///
/// Calls `uuid::Uuid::new_v4` and formats it with `simple().to_string()`,
/// which the crate's source writes as 32 lower-case hexadecimal digits. Which
/// identifier comes back is chance.
#[verifier::external_body]
fn new_simple_id() -> (id: String)
    ensures
        id@.len() == 32,
        forall|i: int| 0 <= i < 32 ==> is_lower_hex(#[trigger] id@[i]),
{
    uuid::Uuid::new_v4().simple().to_string()
}

/// The texts joined with single spaces.
pub open spec fn joined_with_spaces(parts: Seq<Seq<char>>) -> Seq<char>
    decreases parts.len(),
{
    if parts.len() == 0 {
        Seq::empty()
    } else if parts.len() == 1 {
        parts[0]
    } else {
        joined_with_spaces(parts.drop_last()) + " "@ + parts.last()
    }
}

/// The authorisation address for the given parameters.
pub open spec fn auth_url_text(
    client_id: Seq<char>,
    redirect_uri: Seq<char>,
    scope: Seq<char>,
    challenge: Seq<char>,
) -> Seq<char> {
    "https://accounts.google.com/o/oauth2/v2/auth?response_type=code&client_id="@ + client_id
        + "&redirect_uri="@ + redirect_uri + "&scope="@ + scope + "&code_challenge="@ + challenge
        + "&code_challenge_method=S256&access_type=offline&prompt=consent"@
}

/// The PKCE challenge of a verifier: its SHA-256 digest in URL-safe base64.
pub open spec fn challenge_of(verifier: Seq<char>) -> Seq<char> {
    base64_url_no_pad_of(spec_sha256(vstd::utf8::encode_utf8(verifier)))
}

/// A valid PKCE code verifier: 96 lower-case hexadecimal digits.
pub open spec fn is_code_verifier(v: Seq<char>) -> bool {
    &&& v.len() == 96
    &&& forall|i: int| 0 <= i < v.len() ==> is_lower_hex(#[trigger] v[i])
}

/// A fresh code verifier: three random identifiers in compact form, joined,
/// cut to 96 characters.
fn generate_code_verifier() -> (v: String)
    ensures
        is_code_verifier(v@),
{
    let a = new_simple_id();
    let b = new_simple_id();
    let c = new_simple_id();
    let raw = a.concat(b.as_str()).concat(c.as_str());
    assert(raw@ =~= a@ + b@ + c@);
    assert forall|i: int| 0 <= i < raw@.len() implies is_lower_hex(#[trigger] raw@[i]) by {
        if i < 32 {
            assert(raw@[i] == a@[i]);
        } else if i < 64 {
            assert(raw@[i] == b@[i - 32]);
        } else {
            assert(raw@[i] == c@[i - 64]);
        }
    }
    let cut = raw.as_str().substring_char(0, 96);
    String::from_str(cut)
}

/// The PKCE challenge of the verifier.
fn code_challenge(verifier: &str) -> (c: String)
    ensures
        c@ == challenge_of(verifier@),
        c@.len() == 43,
        forall|i: int| 0 <= i < c@.len() ==> is_url_safe_base64(#[trigger] c@[i]),
{
    let digest = sha256_digest(verifier.as_bytes());
    proof {
        lemma_base64_shape(digest@);
    }
    base64_url_no_pad(digest.as_slice())
}

/// The scopes joined with single spaces.
fn join_scopes(scopes: &[&str]) -> (s: String)
    ensures
        s@ == joined_with_spaces(scopes@.map_values(|x: &str| x@)),
{
    let ghost parts = scopes@.map_values(|x: &str| x@);
    let mut out = String::new();
    let n = scopes.len();
    let mut i: usize = 0;
    while i < n
        invariant
            n == scopes@.len(),
            i <= n,
            parts == scopes@.map_values(|x: &str| x@),
            out@ == joined_with_spaces(parts.take(i as int)),
        decreases n - i,
    {
        proof {
            assert(parts.take(i + 1).drop_last() =~= parts.take(i as int));
            assert(parts.take(i + 1).last() == scopes@[i as int]@);
        }
        if i > 0 {
            out.append(" ");
        } else {
            assert(parts.take(1) =~= seq![scopes@[0]@]);
        }
        out.append(scopes[i]);
        proof {
            if i == 0 {
                assert(out@ =~= scopes@[0]@);
            }
        }
        i = i + 1;
    }
    proof {
        assert(parts.take(n as int) =~= parts);
    }
    out
}

/// Starts a login: refuses a blank client id, then a blank redirect address;
/// otherwise makes a fresh PKCE verifier, its challenge, and the address of
/// the authorisation page with the client id, redirect address, scopes
/// (joined with spaces) and challenge.
pub fn start_oauth(client_id: &str, redirect_uri: &str, scopes: &[&str]) -> (r: Result<
    OAuthStart,
    AuthError,
>)
    ensures
        is_blank(client_id@) ==> r == Err::<OAuthStart, AuthError>(AuthError::EmptyClientId),
        !is_blank(client_id@) && is_blank(redirect_uri@) ==> r == Err::<OAuthStart, AuthError>(
            AuthError::EmptyRedirectUri,
        ),
        !is_blank(client_id@) && !is_blank(redirect_uri@) ==> (r matches Ok(o) && is_code_verifier(
            o.code_verifier@,
        ) && o.code_challenge@ == challenge_of(o.code_verifier@) && o.code_challenge@.len() == 43
            && (forall|i: int|
            0 <= i < o.code_challenge@.len() ==> is_url_safe_base64(#[trigger] o.code_challenge@[i]))
            && o.auth_url@ == auth_url_text(
            client_id@,
            redirect_uri@,
            joined_with_spaces(scopes@.map_values(|x: &str| x@)),
            o.code_challenge@,
        )),
{
    if is_blank_str(client_id) {
        return Err(AuthError::EmptyClientId);
    }
    if is_blank_str(redirect_uri) {
        return Err(AuthError::EmptyRedirectUri);
    }
    let code_verifier = generate_code_verifier();
    let code_challenge = code_challenge(code_verifier.as_str());
    let scope = join_scopes(scopes);
    let auth_url = String::from_str(
        "https://accounts.google.com/o/oauth2/v2/auth?response_type=code&client_id=",
    ).concat(client_id).concat("&redirect_uri=").concat(redirect_uri).concat("&scope=").concat(
        scope.as_str(),
    ).concat("&code_challenge=").concat(code_challenge.as_str()).concat(
        "&code_challenge_method=S256&access_type=offline&prompt=consent",
    );
    Ok(OAuthStart { auth_url, code_verifier, code_challenge })
}

/// What an exchange gives for the provider's answer: its tokens as they
/// are, or its refusal as `Provider` with the same reason.
pub open spec fn token_outcome(answer: Result<TokenResponse, String>) -> Result<
    TokenResponse,
    AuthError,
> {
    match answer {
        Ok(t) => Ok(t),
        Err(reason) => Err(AuthError::Provider(reason)),
    }
}

/// What an exchange gives for the provider's answer: its tokens as they
/// are, or its refusal as `Provider` with the same reason.
pub fn token_result(answer: Result<TokenResponse, String>) -> (r: Result<TokenResponse, AuthError>)
    ensures
        r == token_outcome(answer),
{
    match answer {
        Ok(token) => Ok(token),
        Err(reason) => Err(AuthError::Provider(reason)),
    }
}

/// Exchanges an authorisation code: refuses a blank code, then a blank
/// verifier; otherwise hands the code and the verifier, as
/// they are, to the provider, and gives back its answer: its tokens as they
/// are, or its refusal as `Provider`.
pub fn exchange_token<P: OAuthProvider + ?Sized>(provider: &P, code: &str, code_verifier: &str) -> (r: Result<
    TokenResponse,
    AuthError,
>)
    ensures
        is_blank(code@) ==> r == Err::<TokenResponse, AuthError>(AuthError::EmptyCode),
        !is_blank(code@) && is_blank(code_verifier@) ==> r == Err::<TokenResponse, AuthError>(
            AuthError::EmptyCodeVerifier,
        ),
        !is_blank(code@) && !is_blank(code_verifier@) ==> exists|
            answer: Result<TokenResponse, String>,
        |
            #[trigger] provider.exchange_answer(code@, code_verifier@, answer) && r
                == token_outcome(answer),
{
    if is_blank_str(code) {
        return Err(AuthError::EmptyCode);
    }
    if is_blank_str(code_verifier) {
        return Err(AuthError::EmptyCodeVerifier);
    }
    let answer = provider.exchange_code(code, code_verifier);
    token_result(answer)
}

} // verus!
