//! Decisions of the login flow: registry resolution, the bytes put on the
//! wire, and what a parsed server reply means for the caller.

use vstd::prelude::*;

verus! {

use crate::response::{
    append_bytes,
    join_details,
    spec_join,
    KtraResponse,
    ResponseModel,
    BACKSLASH,
    COLON,
    LBRACE,
    QUOTE,
    RBRACE,
    SPACE,
};

/// The ways the login flow can end short of storing a token.
///
/// Every variant is terminal: nothing is retried, and no durable state is
/// left behind, since the credential write is the flow's last step.
#[derive(Debug, Clone, PartialEq, Eq)]
pub enum LoginError {
    /// No registry was named on the command line and the workspace
    /// configuration names no default registry.
    NoDefaultRegistry,
    /// The registry's remote configuration carries no API base URL.
    InvalidRegistry,
    /// The response body matches neither recognized JSON shape.
    Protocol,
    /// The server reported one or more errors; the field holds their
    /// `detail` messages joined with `", "`.
    Remote(Vec<u8>),
}

/// Pick the registry a login targets: an explicitly named registry wins
/// over the workspace's configured default, and with neither the flow
/// fails before anything else happens.
pub fn resolve_registry(explicit: Option<Vec<u8>>, default_registry: Option<Vec<u8>>) -> (r:
    Result<Vec<u8>, LoginError>)
    ensures
        explicit matches Some(e) ==> (r matches Ok(name) && name@ == e@),
        default_registry matches Some(d) ==> (explicit is None ==> (r matches Ok(name) && name@
            == d@)),
        explicit is None && default_registry is None ==> r == Err::<Vec<u8>, LoginError>(
            LoginError::NoDefaultRegistry,
        ),
{
    match explicit {
        Some(name) => Ok(name),
        None => match default_registry {
            Some(name) => Ok(name),
            None => Err(LoginError::NoDefaultRegistry),
        },
    }
}

/// Extract the API base URL from a registry's remote configuration; a
/// registry whose configuration carries none cannot be logged into.
pub fn endpoint_api(api: Option<Vec<u8>>) -> (r: Result<Vec<u8>, LoginError>)
    ensures
        api matches Some(a) ==> (r matches Ok(base) && base@ == a@),
        api is None ==> r == Err::<Vec<u8>, LoginError>(LoginError::InvalidRegistry),
{
    match api {
        Some(base) => Ok(base),
        None => Err(LoginError::InvalidRegistry),
    }
}

/// The lower-case hex digit for a value below 16.
pub open spec fn spec_hex_lower(v: u8) -> u8 {
    if v < 10 {
        (48 + v) as u8
    } else {
        (87 + v) as u8
    }
}

fn hex_lower(v: u8) -> (r: u8)
    requires
        v < 16,
    ensures
        r == spec_hex_lower(v),
{
    if v < 10 {
        48 + v
    } else {
        87 + v
    }
}

/// The upper-case hex digit for a value below 16.
pub open spec fn spec_hex_upper(v: u8) -> u8 {
    if v < 10 {
        (48 + v) as u8
    } else {
        (55 + v) as u8
    }
}

fn hex_upper(v: u8) -> (r: u8)
    requires
        v < 16,
    ensures
        r == spec_hex_upper(v),
{
    if v < 10 {
        48 + v
    } else {
        55 + v
    }
}

/// One byte of the password as it stands inside the JSON string: the quote
/// and the backslash get a backslash, the control bytes with named escapes
/// use them, any other control byte becomes `\u00XX`, and everything else
/// stands for itself.
pub open spec fn json_escape_byte(b: u8) -> Seq<u8> {
    if b == QUOTE {
        seq![BACKSLASH, QUOTE]
    } else if b == BACKSLASH {
        seq![BACKSLASH, BACKSLASH]
    } else if b == 8 {
        seq![BACKSLASH, 98u8]
    } else if b == 12 {
        seq![BACKSLASH, 102u8]
    } else if b == 10 {
        seq![BACKSLASH, 110u8]
    } else if b == 13 {
        seq![BACKSLASH, 114u8]
    } else if b == 9 {
        seq![BACKSLASH, 116u8]
    } else if b < 32 {
        seq![BACKSLASH, 117u8, 48u8, 48u8, spec_hex_lower(b / 16), spec_hex_lower(b % 16)]
    } else {
        seq![b]
    }
}

/// A byte string escaped per JSON string rules, byte for byte.
pub open spec fn spec_json_escape(s: Seq<u8>) -> Seq<u8>
    decreases s.len(),
{
    if s.len() == 0 {
        Seq::empty()
    } else {
        json_escape_byte(s[0]) + spec_json_escape(s.drop_first())
    }
}

proof fn lemma_json_escape_push(s: Seq<u8>, b: u8)
    ensures
        spec_json_escape(s.push(b)) == spec_json_escape(s) + json_escape_byte(b),
    decreases s.len(),
{
    let p = s.push(b);
    if s.len() == 0 {
        assert(p[0] == b);
        assert(p.drop_first() =~= Seq::<u8>::empty());
        assert(spec_json_escape(p.drop_first()) == Seq::<u8>::empty());
        assert(spec_json_escape(p) == json_escape_byte(b) + Seq::<u8>::empty());
        assert(json_escape_byte(b) + Seq::<u8>::empty() =~= json_escape_byte(b));
        assert(spec_json_escape(s) + json_escape_byte(b) =~= json_escape_byte(b));
    } else {
        assert(p[0] == s[0]);
        assert(p.drop_first() =~= s.drop_first().push(b));
        lemma_json_escape_push(s.drop_first(), b);
        assert(json_escape_byte(s[0]) + (spec_json_escape(s.drop_first()) + json_escape_byte(b))
            =~= (json_escape_byte(s[0]) + spec_json_escape(s.drop_first())) + json_escape_byte(
            b,
        ));
    }
}

fn push_escaped(r: &mut Vec<u8>, b: u8)
    ensures
        final(r)@ == old(r)@ + json_escape_byte(b),
{
    if b == QUOTE {
        r.push(BACKSLASH);
        r.push(QUOTE);
    } else if b == BACKSLASH {
        r.push(BACKSLASH);
        r.push(BACKSLASH);
    } else if b == 8 {
        r.push(BACKSLASH);
        r.push(98);
    } else if b == 12 {
        r.push(BACKSLASH);
        r.push(102);
    } else if b == 10 {
        r.push(BACKSLASH);
        r.push(110);
    } else if b == 13 {
        r.push(BACKSLASH);
        r.push(114);
    } else if b == 9 {
        r.push(BACKSLASH);
        r.push(116);
    } else if b < 32 {
        r.push(BACKSLASH);
        r.push(117);
        r.push(48);
        r.push(48);
        r.push(hex_lower(b / 16));
        r.push(hex_lower(b % 16));
    } else {
        r.push(b);
    }
    proof {
        assert(r@ =~= old(r)@ + json_escape_byte(b));
    }
}

fn append_json_escaped(r: &mut Vec<u8>, src: &Vec<u8>)
    ensures
        final(r)@ == old(r)@ + spec_json_escape(src@),
{
    proof {
        assert(src@.take(0) =~= Seq::<u8>::empty());
        assert(r@ + spec_json_escape(src@.take(0)) =~= r@);
    }
    let mut k: usize = 0;
    while k < src.len()
        invariant
            k <= src@.len(),
            r@ == old(r)@ + spec_json_escape(src@.take(k as int)),
        decreases src@.len() - k,
    {
        let b = src[k];
        proof {
            lemma_json_escape_push(src@.take(k as int), b);
            assert(src@.take(k as int + 1) =~= src@.take(k as int).push(b));
        }
        push_escaped(r, b);
        proof {
            assert(r@ =~= old(r)@ + spec_json_escape(src@.take(k as int + 1)));
        }
        k += 1;
    }
    proof {
        assert(src@.take(src@.len() as int) =~= src@);
    }
}

/// The bytes a URL path segment may hold as they are: the unreserved set
/// of letters, digits, `-`, `.`, `_` and `~`.
pub open spec fn is_url_safe(b: u8) -> bool {
    (48 <= b && b <= 57) || (65 <= b && b <= 90) || (97 <= b && b <= 122) || b == 45 || b == 46
        || b == 95 || b == 126
}

/// One byte of the username as it stands in the URL: safe bytes stand for
/// themselves, everything else is percent-encoded as `%XX`.
pub open spec fn percent_byte(b: u8) -> Seq<u8> {
    if is_url_safe(b) {
        seq![b]
    } else {
        seq![37u8, spec_hex_upper(b / 16), spec_hex_upper(b % 16)]
    }
}

/// A byte string percent-encoded for use as a URL path segment.
pub open spec fn spec_percent_encode(s: Seq<u8>) -> Seq<u8>
    decreases s.len(),
{
    if s.len() == 0 {
        Seq::empty()
    } else {
        percent_byte(s[0]) + spec_percent_encode(s.drop_first())
    }
}

proof fn lemma_percent_encode_push(s: Seq<u8>, b: u8)
    ensures
        spec_percent_encode(s.push(b)) == spec_percent_encode(s) + percent_byte(b),
    decreases s.len(),
{
    let p = s.push(b);
    if s.len() == 0 {
        assert(p[0] == b);
        assert(p.drop_first() =~= Seq::<u8>::empty());
        assert(spec_percent_encode(p.drop_first()) == Seq::<u8>::empty());
        assert(spec_percent_encode(p) == percent_byte(b) + Seq::<u8>::empty());
        assert(percent_byte(b) + Seq::<u8>::empty() =~= percent_byte(b));
        assert(spec_percent_encode(s) + percent_byte(b) =~= percent_byte(b));
    } else {
        assert(p[0] == s[0]);
        assert(p.drop_first() =~= s.drop_first().push(b));
        lemma_percent_encode_push(s.drop_first(), b);
        assert(percent_byte(s[0]) + (spec_percent_encode(s.drop_first()) + percent_byte(b)) =~= (
        percent_byte(s[0]) + spec_percent_encode(s.drop_first())) + percent_byte(b));
    }
}

fn append_percent_encoded(r: &mut Vec<u8>, src: &Vec<u8>)
    ensures
        final(r)@ == old(r)@ + spec_percent_encode(src@),
{
    proof {
        assert(src@.take(0) =~= Seq::<u8>::empty());
        assert(r@ + spec_percent_encode(src@.take(0)) =~= r@);
    }
    let mut k: usize = 0;
    while k < src.len()
        invariant
            k <= src@.len(),
            r@ == old(r)@ + spec_percent_encode(src@.take(k as int)),
        decreases src@.len() - k,
    {
        let b = src[k];
        proof {
            lemma_percent_encode_push(src@.take(k as int), b);
            assert(src@.take(k as int + 1) =~= src@.take(k as int).push(b));
        }
        if b == 45 || b == 46 || b == 95 || b == 126 || (48 <= b && b <= 57) || (65 <= b && b
            <= 90) || (97 <= b && b <= 122) {
            r.push(b);
        } else {
            r.push(37);
            r.push(hex_upper(b / 16));
            r.push(hex_upper(b % 16));
        }
        proof {
            assert(r@ =~= old(r)@ + spec_percent_encode(src@.take(k as int + 1)));
        }
        k += 1;
    }
    proof {
        assert(src@.take(src@.len() as int) =~= src@);
    }
}

/// The bytes `{"password": "` that open a non-dry-run request body.
pub open spec fn body_prefix() -> Seq<u8> {
    seq![
        LBRACE,
        QUOTE,
        112u8,
        97u8,
        115u8,
        115u8,
        119u8,
        111u8,
        114u8,
        100u8,
        QUOTE,
        COLON,
        SPACE,
        QUOTE,
    ]
}

/// The exact request body of a login: `{}` in a dry run (so the server
/// validates the account without minting a token), else a JSON object whose
/// one field holds the password, escaped per JSON string rules and nothing
/// more.
pub open spec fn spec_login_body(password: Seq<u8>, dry_run: bool) -> Seq<u8> {
    if dry_run {
        seq![LBRACE, RBRACE]
    } else {
        body_prefix() + spec_json_escape(password) + seq![QUOTE, RBRACE]
    }
}

/// Build the bytes sent as the login request's body.
pub fn request_body(password: &Vec<u8>, dry_run: bool) -> (r: Vec<u8>)
    ensures
        r@ == spec_login_body(password@, dry_run),
{
    let mut r: Vec<u8> = Vec::new();
    if dry_run {
        r.push(LBRACE);
        r.push(RBRACE);
        proof {
            assert(r@ =~= seq![LBRACE, RBRACE]);
        }
    } else {
        r.push(LBRACE);
        r.push(QUOTE);
        r.push(112);
        r.push(97);
        r.push(115);
        r.push(115);
        r.push(119);
        r.push(111);
        r.push(114);
        r.push(100);
        r.push(QUOTE);
        r.push(COLON);
        r.push(SPACE);
        r.push(QUOTE);
        proof {
            assert(r@ =~= body_prefix());
        }
        append_json_escaped(&mut r, password);
        r.push(QUOTE);
        r.push(RBRACE);
        proof {
            assert(r@ =~= body_prefix() + spec_json_escape(password@) + seq![QUOTE, RBRACE]);
        }
    }
    r
}

/// The fixed path between the API base URL and the username.
pub open spec fn login_path() -> Seq<u8> {
    seq![
        47u8,
        107u8,
        116u8,
        114u8,
        97u8,
        47u8,
        97u8,
        112u8,
        105u8,
        47u8,
        118u8,
        49u8,
        47u8,
        108u8,
        111u8,
        103u8,
        105u8,
        110u8,
        47u8,
    ]
}

/// The login endpoint for a user: `<api>/ktra/api/v1/login/<username>`,
/// with the username percent-encoded as a path segment.
pub open spec fn spec_login_url(api: Seq<u8>, username: Seq<u8>) -> Seq<u8> {
    api + login_path() + spec_percent_encode(username)
}

/// Build the URL the login request is posted to.
pub fn build_login_url(api: &Vec<u8>, username: &Vec<u8>) -> (r: Vec<u8>)
    ensures
        r@ == spec_login_url(api@, username@),
{
    let mut r: Vec<u8> = Vec::new();
    append_bytes(&mut r, api);
    proof {
        assert(r@ =~= api@);
    }
    r.push(47);
    r.push(107);
    r.push(116);
    r.push(114);
    r.push(97);
    r.push(47);
    r.push(97);
    r.push(112);
    r.push(105);
    r.push(47);
    r.push(118);
    r.push(49);
    r.push(47);
    r.push(108);
    r.push(111);
    r.push(103);
    r.push(105);
    r.push(110);
    r.push(47);
    proof {
        assert(r@ =~= api@ + login_path());
    }
    append_percent_encoded(&mut r, username);
    proof {
        assert(r@ =~= spec_login_url(api@, username@));
    }
    r
}

/// Decide what a parsed reply means for the flow.
///
/// An `errors` reply always fails with the joined detail messages, dry run
/// or not: dry-run mode suppresses only persistence, never an error path.
/// A `token` reply succeeds; the token is handed back for storage exactly
/// when the run is not a dry run, so a dry run never persists anything.
pub fn handle_response(resp: KtraResponse, dry_run: bool) -> (r: Result<
    Option<Vec<u8>>,
    LoginError,
>)
    ensures
        resp@ matches ResponseModel::Token(t) ==> (if dry_run {
            r == Ok::<Option<Vec<u8>>, LoginError>(None)
        } else {
            r matches Ok(stored) && (stored matches Some(tok) && tok@ == t)
        }),
        resp@ matches ResponseModel::Errors(details) ==> (r matches Err(e) && (
        e matches LoginError::Remote(m) && m@ == spec_join(details))),
        dry_run ==> (r matches Ok(stored) ==> stored is None),
{
    match resp {
        KtraResponse::Errors(es) => {
            let msg = join_details(&es);
            Err(LoginError::Remote(msg))
        },
        KtraResponse::Token(tok) => {
            if dry_run {
                Ok(None)
            } else {
                Ok(Some(tok))
            }
        },
    }
}

} // verus!
