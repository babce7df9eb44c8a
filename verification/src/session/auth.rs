//! Authentication for CONNECT-IP requests.
//!
//! Modes: none (default), Bearer token, HTTP Basic, and mTLS. Credential
//! comparisons are constant-time. mTLS certificate *validation* happens in
//! the TLS handshake; here it is reduced to "a verified client certificate is
//! present".

use http::{HeaderMap, HeaderValue};
use vstd::prelude::*;
use vstd::utf8::{decode_utf8, valid_utf8};

use crate::crypto::{sha256, sha256_of};
use crate::error::ProxyError;
use crate::text::{
    base64_decode, base64_standard, bytes_view, chars_of, find, find_char, hex, hex_of,
    lemma_utf8_injective, lowered, same_ignoring_case, sub_chars, text_of, trim, trimmed,
    utf8_text,
};

verus! {

/// The header map of the `http` crate.
#[verifier::external_type_specification]
#[verifier::external_body]
#[verifier::reject_recursive_types(T)]
pub struct ExHeaderMap<T>(HeaderMap<T>);

/// A header value of the `http` crate.
#[verifier::external_type_specification]
#[verifier::external_body]
pub struct ExHeaderValue(HeaderValue);

/// What a header map holds: the first value of each name, names in lower
/// case.
pub uninterp spec fn headers_of(h: HeaderMap<HeaderValue>) -> Map<Seq<char>, Seq<u8>>;

/// The value of a header, whose name is in any case.
pub open spec fn header_value(headers: Map<Seq<char>, Seq<u8>>, name: Seq<char>) -> Option<
    Seq<u8>,
> {
    if headers.dom().contains(lowered(name)) {
        Some(headers[lowered(name)])
    } else {
        None
    }
}

/// `HeaderMap::get`: the bytes of the first value of a name, whose case does
/// not matter.
#[verifier::external_body]
fn header_get(h: &HeaderMap<HeaderValue>, name: &str) -> (r: Option<Vec<u8>>)
    ensures
        bytes_view(r) == header_value(headers_of(*h), name@),
{
    h.get(name).map(|v| v.as_bytes().to_vec())
}

/// A byte that a textual header value may hold: visible ASCII, space or tab.
pub open spec fn is_header_text(b: u8) -> bool {
    32 <= b < 127 || b == 9
}

/// The characters of ASCII bytes.
pub open spec fn ascii_text(bytes: Seq<u8>) -> Seq<char> {
    bytes.map_values(|b: u8| b as char)
}

/// A header value as text, if it is text.
pub open spec fn header_text(h: HeaderMap<HeaderValue>, name: Seq<char>) -> Option<Seq<char>> {
    match header_value(headers_of(h), name) {
        Some(bytes) => if forall|i: int| 0 <= i < bytes.len() ==> is_header_text(
            #[trigger] bytes[i],
        ) {
            Some(ascii_text(bytes))
        } else {
            None
        },
        None => None,
    }
}

/// The view of optional characters.
pub open spec fn chars_view(v: Option<Vec<char>>) -> Option<Seq<char>> {
    match v {
        Some(v) => Some(v@),
        None => None,
    }
}

/// A header value as text, if the header is there and its value is text.
pub fn get_header_text(h: &HeaderMap<HeaderValue>, name: &str) -> (r: Option<Vec<char>>)
    ensures
        chars_view(r) == header_text(*h, name@),
{
    let bytes = match header_get(h, name) {
        Some(bytes) => bytes,
        None => {
            return None;
        },
    };
    let mut out: Vec<char> = Vec::new();
    let mut i: usize = 0;
    while i < bytes.len()
        invariant
            i <= bytes@.len(),
            header_value(headers_of(*h), name@) == Some(bytes@),
            out@ == ascii_text(bytes@.take(i as int)),
            forall|j: int| 0 <= j < i ==> is_header_text(#[trigger] bytes@[j]),
        decreases bytes@.len() - i,
    {
        let b: u8 = bytes[i];
        if !((32 <= b && b < 127) || b == 9) {
            proof {
                assert(!is_header_text(bytes@[i as int]));
            }
            return None;
        }
        out.push(b as char);
        i = i + 1;
        proof {
            assert(out@ =~= ascii_text(bytes@.take(i as int)));
        }
    }
    proof {
        assert(bytes@.take(bytes@.len() as int) =~= bytes@);
    }
    Some(out)
}

/// How clients must authenticate.
#[derive(Debug, Clone, Copy, PartialEq, Eq, Structural)]
pub enum AuthMode {
    /// No authentication (development only).
    NoAuth,
    /// `Authorization: Bearer <token>` checked against a token list.
    Bearer,
    /// `Authorization: Basic <base64>` checked against user:pass pairs.
    Basic,
    /// A client certificate verified against --client-ca at the TLS layer.
    Mtls,
}

/// Who a session authenticated as.
#[derive(Debug, Clone)]
pub struct AuthContext {
    /// The mechanism that admitted the session ("none", "bearer", ...).
    pub method: &'static str,
    /// Basic username, or the client certificate's SHA-256 fingerprint.
    pub principal: Option<String>,
}

/// Server-side authenticator, built once from the configuration.
#[derive(Debug)]
pub struct Authenticator {
    mode: AuthMode,
    bearer_tokens: Vec<String>,
    /// (user, password) pairs.
    basic_credentials: Vec<(String, String)>,
}

/// The value of `Authorization: <scheme> <value>`.
pub open spec fn credential(header: Option<Seq<char>>, scheme: Seq<char>) -> Option<Seq<char>> {
    match header {
        None => None,
        Some(value) => {
            let k = find(value, ' ') as int;
            if k < value.len() && lowered(value.take(k)) == lowered(scheme) {
                Some(trimmed(value.skip(k + 1)))
            } else {
                None
            }
        },
    }
}

/// The result admits the client under a method, as a principal.
pub open spec fn admits(
    r: Result<AuthContext, ProxyError>,
    method: Seq<char>,
    principal: Option<Seq<char>>,
) -> bool {
    r matches Ok(c) && c.method@ == method && match c.principal {
        Some(p) => principal == Some(p@),
        None => principal is None,
    }
}

/// The result refuses the client for a reason.
pub open spec fn refuses(r: Result<AuthContext, ProxyError>, reason: Seq<char>) -> bool {
    r matches Err(ProxyError::AuthFailed(t)) && t@ == reason
}

fn refuse(reason: &str) -> (r: Result<AuthContext, ProxyError>)
    ensures
        refuses(r, reason@),
{
    Err(ProxyError::AuthFailed(String::from_str(reason)))
}

/// The user and password that decoded Basic credentials name.
pub open spec fn user_and_password(decoded: Option<Seq<u8>>) -> Option<(Seq<char>, Seq<char>)> {
    match decoded {
        None => None,
        Some(bytes) => if !valid_utf8(bytes) {
            None
        } else {
            let text = decode_utf8(bytes);
            let k = find(text, ':') as int;
            if k < text.len() {
                Some((text.take(k), text.skip(k + 1)))
            } else {
                None
            }
        },
    }
}

impl Default for Authenticator {
    fn default() -> (a: Self)
        ensures
            a.spec_mode() == AuthMode::NoAuth,
            a.tokens() == Seq::<String>::empty(),
            a.credentials() == Seq::<(String, String)>::empty(),
    {
        Authenticator {
            mode: AuthMode::NoAuth,
            bearer_tokens: Vec::new(),
            basic_credentials: Vec::new(),
        }
    }
}

impl Authenticator {
    pub closed spec fn spec_mode(self) -> AuthMode {
        self.mode
    }

    pub closed spec fn tokens(self) -> Seq<String> {
        self.bearer_tokens@
    }

    pub closed spec fn credentials(self) -> Seq<(String, String)> {
        self.basic_credentials@
    }

    /// The token is one of the accepted ones.
    pub open spec fn knows_token(self, token: Seq<char>) -> bool {
        exists|i: int| 0 <= i < self.tokens().len() && (#[trigger] self.tokens()[i])@ == token
    }

    /// The pair is one of the accepted ones.
    pub open spec fn knows_user(self, user: Seq<char>, password: Seq<char>) -> bool {
        exists|i: int|
            0 <= i < self.credentials().len() && (#[trigger] self.credentials()[i]).0@ == user
                && self.credentials()[i].1@ == password
    }

    pub fn new(
        mode: AuthMode,
        bearer_tokens: Vec<String>,
        basic_credentials: Vec<(String, String)>,
    ) -> (a: Self)
        ensures
            a.spec_mode() == mode,
            a.tokens() == bearer_tokens@,
            a.credentials() == basic_credentials@,
    {
        Authenticator { mode, bearer_tokens, basic_credentials }
    }

    /// Authenticate one request. `client_cert` is the TLS-verified peer
    /// certificate (DER), when the connection presented one.
    pub fn authenticate(
        &self,
        headers: &HeaderMap<HeaderValue>,
        client_cert: Option<&[u8]>,
    ) -> (r: Result<AuthContext, ProxyError>)
        ensures
            self.outcome(
                header_text(*headers, "authorization"@),
                match client_cert {
                    Some(cert) => Some(cert@),
                    None => None,
                },
                r,
            ),
    {
        match self.mode {
            AuthMode::NoAuth => Ok(AuthContext { method: "none", principal: None }),
            AuthMode::Bearer => match authorization_value(headers, "Bearer") {
                None => refuse("missing bearer token"),
                Some(presented) => self.check_bearer(presented.as_str()),
            },
            AuthMode::Basic => match authorization_value(headers, "Basic") {
                None => refuse("missing basic credentials"),
                Some(presented) => self.check_basic(base64_decode(presented.as_str())),
            },
            AuthMode::Mtls => match client_cert {
                None => refuse("client certificate required"),
                Some(cert) => Ok(
                    AuthContext { method: "mtls", principal: Some(cert_fingerprint(cert)) },
                ),
            },
        }
    }

    fn check_bearer(&self, presented: &str) -> (r: Result<AuthContext, ProxyError>)
        ensures
            if self.knows_token(presented@) {
                admits(r, "bearer"@, None)
            } else {
                refuses(r, "invalid bearer token"@)
            },
    {
        // Compare against every token so timing does not reveal which (if
        // any) prefix-matched.
        let mut ok = false;
        let mut i: usize = 0;
        while i < self.bearer_tokens.len()
            invariant
                i <= self.bearer_tokens@.len(),
                ok == exists|j: int|
                    0 <= j < i && (#[trigger] self.bearer_tokens@[j])@ == presented@,
            decreases self.bearer_tokens@.len() - i,
        {
            let token = &self.bearer_tokens[i];
            let hit = constant_time_eq(token.as_str().as_bytes(), presented.as_bytes());
            proof {
                lemma_utf8_injective(token@, presented@);
                assert(hit == (self.bearer_tokens@[i as int]@ == presented@));
            }
            ok = ok || hit;
            i = i + 1;
        }
        proof {
            if ok {
                let j = choose|j: int|
                    0 <= j < i && (#[trigger] self.bearer_tokens@[j])@ == presented@;
                assert(self.tokens()[j]@ == presented@);
            }
        }
        if ok {
            Ok(AuthContext { method: "bearer", principal: None })
        } else {
            refuse("invalid bearer token")
        }
    }

    /// What a request with this authorization header and client certificate is
    /// answered.
    pub open spec fn outcome(
        self,
        header: Option<Seq<char>>,
        cert: Option<Seq<u8>>,
        r: Result<AuthContext, ProxyError>,
    ) -> bool {
        match self.spec_mode() {
            AuthMode::NoAuth => admits(r, "none"@, None),
            AuthMode::Bearer => match credential(header, "Bearer"@) {
                None => refuses(r, "missing bearer token"@),
                Some(token) => if self.knows_token(token) {
                    admits(r, "bearer"@, None)
                } else {
                    refuses(r, "invalid bearer token"@)
                },
            },
            AuthMode::Basic => match credential(header, "Basic"@) {
                None => refuses(r, "missing basic credentials"@),
                Some(encoded) => self.basic_outcome(base64_standard(encoded), r),
            },
            AuthMode::Mtls => match cert {
                None => refuses(r, "client certificate required"@),
                Some(cert) => admits(r, "mtls"@, Some(hex_of(sha256_of(cert)))),
            },
        }
    }

    /// What decoded Basic credentials lead to.
    pub open spec fn basic_outcome(
        self,
        decoded: Option<Seq<u8>>,
        r: Result<AuthContext, ProxyError>,
    ) -> bool {
        match user_and_password(decoded) {
            None => refuses(r, "malformed basic credentials"@),
            Some((user, password)) => if self.knows_user(user, password) {
                admits(r, "basic"@, Some(user))
            } else {
                refuses(r, "invalid basic credentials"@)
            },
        }
    }

    /// Check decoded Basic credentials; `None` is a value that is no base64.
    pub fn check_basic(&self, decoded: Option<Vec<u8>>) -> (r: Result<AuthContext, ProxyError>)
        ensures
            self.basic_outcome(bytes_view(decoded), r),
    {
        let text = match decoded {
            None => {
                return refuse("malformed basic credentials");
            },
            Some(bytes) => match utf8_text(bytes) {
                None => {
                    return refuse("malformed basic credentials");
                },
                Some(text) => chars_of(text.as_str()),
            },
        };
        let k = find_char(text.as_slice(), ':');
        if k >= text.len() {
            return refuse("malformed basic credentials");
        }
        let user_chars = sub_chars(text.as_slice(), 0, k);
        let user = text_of(user_chars.as_slice());
        let pass_chars = sub_chars(text.as_slice(), k + 1, text.len());
        let pass = text_of(pass_chars.as_slice());
        proof {
            assert(user@ =~= text@.take(k as int));
            assert(pass@ =~= text@.skip(k + 1));
        }
        let mut ok = false;
        let mut matched_user: Option<String> = None;
        let mut i: usize = 0;
        while i < self.basic_credentials.len()
            invariant
                i <= self.basic_credentials@.len(),
                ok == exists|j: int|
                    0 <= j < i && (#[trigger] self.basic_credentials@[j]).0@ == user@
                        && self.basic_credentials@[j].1@ == pass@,
                ok ==> (matched_user matches Some(m) && m@ == user@),
            decreases self.basic_credentials@.len() - i,
        {
            let entry = &self.basic_credentials[i];
            let user_hit = constant_time_eq(entry.0.as_str().as_bytes(), user.as_str().as_bytes());
            let pass_hit = constant_time_eq(entry.1.as_str().as_bytes(), pass.as_str().as_bytes());
            let hit = user_hit && pass_hit;
            proof {
                lemma_utf8_injective(entry.0@, user@);
                lemma_utf8_injective(entry.1@, pass@);
                assert(hit == (self.basic_credentials@[i as int].0@ == user@
                    && self.basic_credentials@[i as int].1@ == pass@));
            }
            if hit {
                matched_user = Some(entry.0.clone());
            }
            ok = ok || hit;
            i = i + 1;
        }
        proof {
            if ok {
                let j = choose|j: int|
                    0 <= j < i && (#[trigger] self.basic_credentials@[j]).0@ == user@
                        && self.basic_credentials@[j].1@ == pass@;
                assert(self.credentials()[j].0@ == user@);
            }
        }
        if ok {
            Ok(AuthContext { method: "basic", principal: matched_user })
        } else {
            refuse("invalid basic credentials")
        }
    }
}

/// The view of an optional string.
pub open spec fn text_view(v: Option<String>) -> Option<Seq<char>> {
    match v {
        Some(v) => Some(v@),
        None => None,
    }
}

/// Extract the value of `Authorization: <scheme> <value>`.
fn authorization_value(headers: &HeaderMap<HeaderValue>, scheme: &str) -> (r: Option<String>)
    ensures
        text_view(r) == credential(header_text(*headers, "authorization"@), scheme@),
{
    let value = match get_header_text(headers, "authorization") {
        Some(value) => value,
        None => {
            return None;
        },
    };
    let k = find_char(value.as_slice(), ' ');
    if k >= value.len() {
        return None;
    }
    let s = sub_chars(value.as_slice(), 0, k);
    let want = chars_of(scheme);
    proof {
        assert(s@ =~= value@.take(k as int));
    }
    if same_ignoring_case(s.as_slice(), want.as_slice()) {
        let rest = sub_chars(value.as_slice(), k + 1, value.len());
        proof {
            assert(rest@ =~= value@.skip(k + 1));
        }
        let t = trim(rest.as_slice());
        Some(text_of(t.as_slice()))
    } else {
        None
    }
}

/// SHA-256 fingerprint of a DER certificate, colon-less lowercase hex.
pub fn cert_fingerprint(cert: &[u8]) -> (s: String)
    ensures
        s@ == hex_of(sha256_of(cert@)),
{
    let digest = sha256(cert);
    hex(digest.as_slice())
}

/// Constant-time byte comparison. Length mismatch returns early: lengths
/// are not secret here, contents are.
pub fn constant_time_eq(a: &[u8], b: &[u8]) -> (v: bool)
    ensures
        v == (a@ == b@),
{
    if a.len() != b.len() {
        return false;
    }
    let mut diff: u8 = 0;
    let mut i: usize = 0;
    proof {
        assert(a@.take(0) =~= b@.take(0));
    }
    while i < a.len()
        invariant
            i <= a@.len(),
            a@.len() == b@.len(),
            (diff == 0) == (a@.take(i as int) == b@.take(i as int)),
        decreases a@.len() - i,
    {
        let x: u8 = a[i];
        let y: u8 = b[i];
        let d: u8 = diff | (x ^ y);
        assert((d == 0) == (diff == 0 && x == y)) by (bit_vector)
            requires
                d == diff | (x ^ y),
        ;
        diff = d;
        proof {
            let p = a@.take(i as int);
            let q = b@.take(i as int);
            assert(a@.take(i + 1) =~= p.push(x));
            assert(b@.take(i + 1) =~= q.push(y));
            assert(p.push(x).drop_last() =~= p);
            assert(q.push(y).drop_last() =~= q);
            assert(p.push(x).last() == x && q.push(y).last() == y);
        }
        i = i + 1;
    }
    proof {
        assert(a@.take(a@.len() as int) =~= a@);
        assert(b@.take(b@.len() as int) =~= b@);
    }
    diff == 0
}

/// A header value that is the scheme, in any case, and after the first space
/// the credential, is read so, without the white space around the credential;
/// one of another scheme, or with no space, holds none.
pub proof fn lemma_credential(word: Seq<char>, rest: Seq<char>, scheme: Seq<char>)
    requires
        forall|i: int| 0 <= i < word.len() ==> word[i] != ' ',
    ensures
        lowered(word) == lowered(scheme) ==> credential(Some(word + seq![' '] + rest), scheme)
            == Some(trimmed(rest)),
        lowered(word) != lowered(scheme) ==> credential(Some(word + seq![' '] + rest), scheme)
            is None,
        credential(Some(word), scheme) is None,
        credential(None, scheme) is None,
{
    let value = word + seq![' '] + rest;
    crate::text::lemma_find_unique(value, ' ', word.len() as int);
    assert(value.take(word.len() as int) =~= word);
    assert(value.skip(word.len() + 1int) =~= rest);
    crate::text::lemma_find_unique(word, ' ', word.len() as int);
}

/// Basic credentials are the user, a colon and the password, which may itself
/// hold colons.
pub proof fn lemma_user_and_password(user: Seq<char>, password: Seq<char>)
    requires
        forall|i: int| 0 <= i < user.len() ==> user[i] != ':',
    ensures
        user_and_password(Some(vstd::utf8::encode_utf8(user + seq![':'] + password))) == Some(
            (user, password),
        ),
        user_and_password(Some(vstd::utf8::encode_utf8(user))) is None,
        user_and_password(None) is None,
{
    let text = user + seq![':'] + password;
    vstd::utf8::encode_utf8_decode_utf8(text);
    vstd::utf8::encode_utf8_decode_utf8(user);
    vstd::utf8::encode_utf8_valid_utf8(text);
    vstd::utf8::encode_utf8_valid_utf8(user);
    crate::text::lemma_find_unique(text, ':', user.len() as int);
    assert(text.take(user.len() as int) =~= user);
    assert(text.skip(user.len() + 1int) =~= password);
    crate::text::lemma_find_unique(user, ':', user.len() as int);
}

/// Basic credentials are admitted exactly if the pair of user and password is
/// one of those configured, and then for that user; all others are refused.
pub proof fn lemma_basic_admits(
    a: Authenticator,
    user: Seq<char>,
    password: Seq<char>,
    r: Result<AuthContext, ProxyError>,
)
    requires
        forall|i: int| 0 <= i < user.len() ==> user[i] != ':',
        a.basic_outcome(Some(vstd::utf8::encode_utf8(user + seq![':'] + password)), r),
    ensures
        r is Ok <==> exists|i: int|
            0 <= i < a.credentials().len() && (#[trigger] a.credentials()[i]).0@ == user
                && a.credentials()[i].1@ == password,
        r matches Ok(c) ==> c.principal matches Some(p) && p@ == user && c.method@ == "basic"@,
        r matches Err(e) ==> e is AuthFailed,
{
    lemma_user_and_password(user, password);
}

/// A bearer token is known exactly if it is one of those configured, and it is
/// compared whole.
pub proof fn lemma_known_token(a: Authenticator, token: Seq<char>)
    ensures
        a.knows_token(token) <==> exists|i: int|
            0 <= i < a.tokens().len() && (#[trigger] a.tokens()[i])@ == token,
{
}

/// The text of a header is its bytes one by one, and there is one exactly if
/// the header is there and every byte of it is a tab or a printable ASCII
/// character.
pub proof fn lemma_header_text(h: HeaderMap<HeaderValue>, name: Seq<char>, i: int)
    ensures
        header_text(h, name) is Some <==> headers_of(h).dom().contains(lowered(name)) && forall|
            j: int,
        |
            0 <= j < headers_of(h)[lowered(name)].len() ==> {
                let b = #[trigger] headers_of(h)[lowered(name)][j];
                b == 9 || 32 <= b <= 126
            },
        header_text(h, name) matches Some(text) ==> text.len() == headers_of(h)[lowered(name)].len()
            && (0 <= i < text.len() ==> text[i] as int == headers_of(h)[lowered(name)][i]),
{
    let b = headers_of(h)[lowered(name)];
    if headers_of(h).dom().contains(lowered(name)) {
        if header_text(h, name) is Some {
            assert forall|j: int| 0 <= j < b.len() implies {
                let c = #[trigger] b[j];
                c == 9 || 32 <= c <= 126
            } by {
                assert(is_header_text(b[j]));
            }
        }
    }
}

/// Who is admitted: without authentication everyone; with tokens exactly who
/// sends `Bearer` and a known token; with certificates exactly who shows one,
/// by its fingerprint. Who is not is told so.
pub proof fn lemma_admission(
    a: Authenticator,
    header: Option<Seq<char>>,
    cert: Option<Seq<u8>>,
    r: Result<AuthContext, ProxyError>,
)
    requires
        a.outcome(header, cert, r),
    ensures
        r matches Err(e) ==> e is AuthFailed,
        a.spec_mode() == AuthMode::NoAuth ==> (r matches Ok(c) && c.principal is None),
        a.spec_mode() == AuthMode::Bearer ==> (r is Ok <==> (credential(header, "Bearer"@) matches
            Some(token) && exists|i: int|
            0 <= i < a.tokens().len() && (#[trigger] a.tokens()[i])@ == token)),
        a.spec_mode() == AuthMode::Bearer ==> (r matches Ok(c) ==> c.principal is None),
        a.spec_mode() == AuthMode::Basic ==> (r is Ok <==> (credential(header, "Basic"@) matches
            Some(encoded) && (user_and_password(base64_standard(encoded)) matches Some(pair)
            && exists|i: int|
            0 <= i < a.credentials().len() && (#[trigger] a.credentials()[i]).0@ == pair.0
                && a.credentials()[i].1@ == pair.1))),
        a.spec_mode() == AuthMode::Basic ==> (r matches Ok(c) ==> (c.principal matches Some(p)
            && (user_and_password(base64_standard(credential(header, "Basic"@)->0)) matches Some(
            pair,
        ) && p@ == pair.0))),
        a.spec_mode() == AuthMode::Mtls ==> (r is Ok <==> cert is Some),
        a.spec_mode() == AuthMode::Mtls ==> (r matches Ok(c) ==> (c.principal matches Some(p)
            && p@ == hex_of(sha256_of(cert->0)))),
{
}

} // verus!
