//! The administrator's credentials, the tokens that a login hands out, and
//! the reading of an `Authorization` header.

use crate::search::has_prefix;
use crate::text::{chars_of, find_char, find_from};
use base64::Engine;
use dashmap::DashSet;
use rand::Rng;
use vstd::prelude::*;

verus! {

/// The tokens that a token set holds.
pub uninterp spec fn token_set(s: DashSet<String>) -> Set<Seq<char>>;

/// The bytes that a text in base64 stands for, with the standard alphabet
/// and padding; none where the text is not base64.
pub uninterp spec fn base64_decoded(text: Seq<char>) -> Option<Seq<u8>>;

/// `DashSet::new`: a set that holds nothing.
#[verifier::external_body]
fn tokens_new() -> (s: DashSet<String>)
    ensures
        token_set(s) == Set::<Seq<char>>::empty(),
{
    DashSet::new()
}

/// `DashSet::insert`: the set holds the token afterwards, and all that it
/// held before.
#[verifier::external_body]
fn tokens_insert(s: &mut DashSet<String>, token: String)
    ensures
        token_set(*final(s)) == token_set(*old(s)).insert(token@),
{
    s.insert(token);
}

/// `DashSet::contains`: whether the set holds the token.
#[verifier::external_body]
fn tokens_contains(s: &DashSet<String>, token: &str) -> (held: bool)
    ensures
        held == token_set(*s).contains(token@),
{
    s.contains(token)
}

/// `DashSet::clear`: the set holds nothing afterwards.
#[verifier::external_body]
fn tokens_clear(s: &mut DashSet<String>)
    ensures
        token_set(*final(s)) == Set::<Seq<char>>::empty(),
{
    s.clear();
}

/// `Engine::decode` of `base64::engine::general_purpose::STANDARD`: the
/// bytes that the text stands for, or nothing where it is not base64.
#[verifier::external_body]
fn decode_base64(text: &str) -> (bytes: Option<Vec<u8>>)
    ensures
        bytes matches Some(b) ==> base64_decoded(text@) == Some(b@),
        bytes is None ==> base64_decoded(text@) is None,
{
    match base64::engine::general_purpose::STANDARD.decode(text) {
        Ok(bytes) => Some(bytes),
        Err(_) => None,
    }
}

/// `String::from_utf8`: the text that the bytes encode in UTF-8, or
/// nothing where they encode none.
#[verifier::external_body]
fn text_of_bytes(bytes: Vec<u8>) -> (text: Option<String>)
    ensures
        text is Some == vstd::utf8::valid_utf8(bytes@),
        text matches Some(t) ==> t@ == vstd::utf8::decode_utf8(bytes@),
{
    match String::from_utf8(bytes) {
        Ok(text) => Some(text),
        Err(_) => None,
    }
}

/// Whether a character is an ASCII letter or digit.
pub open spec fn is_alphanumeric(c: char) -> bool {
    ('a' <= c <= 'z') || ('A' <= c <= 'Z') || ('0' <= c <= '9')
}

/// `Rng::sample_iter` with `rand::distributions::Alphanumeric` on the
/// thread's generator: a text of `n` characters, each an ASCII letter or
/// digit. Which ones is left to chance.
#[verifier::external_body]
fn random_text(n: usize) -> (text: String)
    ensures
        text@.len() == n,
        forall|i: int| 0 <= i < text@.len() ==> is_alphanumeric(#[trigger] text@[i]),
{
    rand::thread_rng().sample_iter(&rand::distributions::Alphanumeric).take(n).map(char::from).collect()
}

/// A user name and a password.
#[derive(Debug)]
pub struct Credentials {
    pub username: String,
    pub password: String,
}

impl Clone for Credentials {
    fn clone(&self) -> (copy: Self)
        ensures
            copy.username@ == self.username@,
            copy.password@ == self.password@,
    {
        Credentials { username: self.username.clone(), password: self.password.clone() }
    }
}

/// Proof that a request came with valid credentials or a valid token.
#[derive(Debug, Clone, Copy, PartialEq, Eq, Structural)]
pub struct Authenticated;

/// The credentials in force and the tokens handed out since they last
/// changed.
pub struct AuthState {
    credentials: Credentials,
    tokens: DashSet<String>,
}

/// Whether a text of the form `user:password`, split at its first colon,
/// names these credentials.
pub open spec fn pair_matches(pair: Seq<char>, username: Seq<char>, password: Seq<char>) -> bool {
    let at = find_from(pair, ':', 0);
    0 <= at < pair.len() && pair.take(at) == username && pair.skip(at + 1) == password
}

/// Whether the payload of a `Basic` header names these credentials: it is
/// base64 for the UTF-8 of `user:password`.
pub open spec fn basic_accepted(payload: Seq<char>, username: Seq<char>, password: Seq<char>) -> bool {
    match base64_decoded(payload) {
        Some(bytes) => vstd::utf8::valid_utf8(bytes) && pair_matches(
            vstd::utf8::decode_utf8(bytes),
            username,
            password,
        ),
        None => false,
    }
}

/// Whether an `Authorization` header is accepted: `Bearer ` followed by a
/// token that was handed out, or `Basic ` followed by the credentials in
/// force.
pub open spec fn header_accepted(
    header: Seq<char>,
    tokens: Set<Seq<char>>,
    username: Seq<char>,
    password: Seq<char>,
) -> bool {
    ||| ("Bearer "@.is_prefix_of(header) && tokens.contains(header.skip(7)))
    ||| ("Basic "@.is_prefix_of(header) && basic_accepted(header.skip(6), username, password))
}

impl AuthState {
    /// The user name in force.
    pub closed spec fn username(&self) -> Seq<char> {
        self.credentials.username@
    }

    /// The password in force.
    pub closed spec fn password(&self) -> Seq<char> {
        self.credentials.password@
    }

    /// The tokens that are valid.
    pub closed spec fn tokens(&self) -> Set<Seq<char>> {
        token_set(self.tokens)
    }

    /// These credentials in force, and no token handed out.
    pub fn new(creds: Credentials) -> (state: AuthState)
        ensures
            state.username() == creds.username@,
            state.password() == creds.password@,
            state.tokens() == Set::<Seq<char>>::empty(),
    {
        AuthState { credentials: creds, tokens: tokens_new() }
    }

    /// A new token of 48 letters and digits, valid from now on.
    pub fn issue_token(&mut self) -> (token: String)
        ensures
            token@.len() == 48,
            forall|i: int| 0 <= i < 48 ==> is_alphanumeric(#[trigger] token@[i]),
            final(self).tokens() == old(self).tokens().insert(token@),
            final(self).username() == old(self).username(),
            final(self).password() == old(self).password(),
    {
        let token = random_text(48);
        tokens_insert(&mut self.tokens, token.clone());
        token
    }

    /// Replaces the credentials by a user name of 16 and a password of 24
    /// letters and digits, and withdraws every token.
    pub fn rotate(&mut self) -> (fresh: Credentials)
        ensures
            fresh.username@.len() == 16,
            fresh.password@.len() == 24,
            final(self).username() == fresh.username@,
            final(self).password() == fresh.password@,
            final(self).tokens() == Set::<Seq<char>>::empty(),
    {
        let fresh = Credentials { username: random_text(16), password: random_text(24) };
        self.credentials = fresh.clone();
        tokens_clear(&mut self.tokens);
        fresh
    }

    /// Whether these are the credentials in force.
    pub fn validate_basic(&self, username: &str, password: &str) -> (valid: bool)
        ensures
            valid == (username@ == self.username() && password@ == self.password()),
    {
        self.credentials.username == username.to_owned() && self.credentials.password
            == password.to_owned()
    }

    /// Whether the token was handed out and not withdrawn since.
    pub fn validate_token(&self, token: &str) -> (valid: bool)
        ensures
            valid == self.tokens().contains(token@),
    {
        tokens_contains(&self.tokens, token)
    }

    /// Sets the password and withdraws every token. Writing the change to
    /// the configuration file is the caller's part.
    pub fn change_password(&mut self, new_password: String) -> (done: bool)
        ensures
            done,
            final(self).username() == old(self).username(),
            final(self).password() == new_password@,
            final(self).tokens() == Set::<Seq<char>>::empty(),
    {
        self.credentials.password = new_password;
        tokens_clear(&mut self.tokens);
        true
    }

    /// Sets the credentials to `admin` and `password` and withdraws every
    /// token. Writing the change to the configuration file is the caller's
    /// part.
    pub fn reset_to_defaults(&mut self) -> (done: bool)
        ensures
            done,
            final(self).username() == "admin"@,
            final(self).password() == "password"@,
            final(self).tokens() == Set::<Seq<char>>::empty(),
    {
        self.credentials = Credentials {
            username: "admin".to_owned(),
            password: "password".to_owned(),
        };
        tokens_clear(&mut self.tokens);
        true
    }

    /// A copy of the credentials in force.
    pub fn credentials(&self) -> (creds: Credentials)
        ensures
            creds.username@ == self.username(),
            creds.password@ == self.password(),
    {
        self.credentials.clone()
    }

    /// A login: a new token for the credentials in force, nothing for any
    /// others.
    pub fn login(&mut self, username: &str, password: &str) -> (token: Option<String>)
        ensures
            token is Some == (username@ == old(self).username() && password@ == old(
                self,
            ).password()),
            final(self).username() == old(self).username(),
            final(self).password() == old(self).password(),
            final(self).tokens() == (match token {
                Some(t) => old(self).tokens().insert(t@),
                None => old(self).tokens(),
            }),
    {
        if self.validate_basic(username, password) {
            Some(self.issue_token())
        } else {
            None
        }
    }

    fn basic_valid(&self, payload: &str) -> (valid: bool)
        ensures
            valid == basic_accepted(payload@, self.username(), self.password()),
    {
        match decode_base64(payload) {
            Some(bytes) => {
                match text_of_bytes(bytes) {
                    Some(pair) => {
                        let chars = chars_of(pair.as_str());
                        let n = chars.len();
                        assert(chars@.subrange(0, n as int) =~= pair@);
                        let at = find_char(&chars, ':', 0, n);
                        if at < n {
                            let user = pair.as_str().substring_char(0, at);
                            let pass = pair.as_str().substring_char(at + 1, n);
                            assert(pair@.subrange(0, at as int) =~= pair@.take(at as int));
                            assert(pair@.subrange(at + 1, n as int) =~= pair@.skip(at + 1));
                            self.validate_basic(user, pass)
                        } else {
                            false
                        }
                    },
                    None => false,
                }
            },
            None => false,
        }
    }
}

impl Authenticated {
    /// Reads the `Authorization` header of a request, if it has one that is
    /// text: the request is authenticated where the header is accepted.
    pub fn from_header(header: Option<&str>, auth: &AuthState) -> (proof_of: Option<Authenticated>)
        ensures
            proof_of is Some == (header matches Some(h) && header_accepted(
                h@,
                auth.tokens(),
                auth.username(),
                auth.password(),
            )),
    {
        match header {
            Some(h) => {
                let n = h.unicode_len();
                let bearer = chars_of("Bearer ");
                let basic = chars_of("Basic ");
                proof {
                    reveal_strlit("Bearer ");
                    reveal_strlit("Basic ");
                }
                if has_prefix(h, &bearer) {
                    let token = h.substring_char(7, n);
                    assert(h@.subrange(7, n as int) =~= h@.skip(7));
                    assert(!"Basic "@.is_prefix_of(h@)) by {
                        assert(h@.subrange(0, 6)[1] == "Bearer "@[1]);
                    }
                    if auth.validate_token(token) {
                        return Some(Authenticated);
                    }
                    return None;
                }
                if has_prefix(h, &basic) {
                    let payload = h.substring_char(6, n);
                    assert(h@.subrange(6, n as int) =~= h@.skip(6));
                    if auth.basic_valid(payload) {
                        return Some(Authenticated);
                    }
                }
                None
            },
            None => None,
        }
    }
}

} // verus!
