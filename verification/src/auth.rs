//! The OAuth token: where it is read from, and which source wins.

use crate::text::{from_chars, to_chars, trim, trim_chars};
use vstd::prelude::*;

verus! {

// ---------------------------------------------------------------------------
// What a JSON text holds
// ---------------------------------------------------------------------------

/// The strings that a JSON value holds, each under its path: the names of
/// the members of objects that lead to it, outermost first. A value that
/// is itself a string holds it under the empty path. A string inside an
/// array has no path, and a value that is no string holds nothing under
/// the empty path. So `{"a": {"b": "x"}, "c": ["y"]}` holds `x` under the
/// path `a`, `b`, and nothing else.
pub uninterp spec fn json_strings(value: serde_json::Value) -> Map<Seq<Seq<char>>, Seq<char>>;

/// The strings of the JSON value that `text` reads as, each under its
/// path, where `text` reads as one JSON value; nothing where it does not.
/// This is what `serde_json::from_str` makes of the text.
pub uninterp spec fn parsed_strings(text: Seq<char>) -> Option<Map<Seq<Seq<char>>, Seq<char>>>;

/// Whether `text` reads as one JSON value.
pub open spec fn is_json(text: Seq<char>) -> bool {
    parsed_strings(text) is Some
}

/// The path of the access token in the credentials: the member
/// `accessToken` of the member `claudeAiOauth`.
pub open spec fn token_path() -> Seq<Seq<char>> {
    seq!["claudeAiOauth"@, "accessToken"@]
}

/// The access token in the credentials that the keychain holds: the
/// string at `claudeAiOauth.accessToken` of the JSON text. Text that is no
/// JSON holds none, and so does JSON without a string at that place.
pub fn access_token_in(raw: &str) -> (token: Option<String>)
    ensures
        match token {
            Some(t) => spec_access_token(raw@) == Some(t@),
            None => spec_access_token(raw@) is None,
        },
{
    match parse_json(raw) {
        Some(value) => {
            let outer = json_member(&value, "claudeAiOauth");
            let inner = json_member(outer, "accessToken");
            proof {
                let rest = seq!["accessToken"@] + Seq::<Seq<char>>::empty();
                assert(rest =~= seq!["accessToken"@]);
                assert(seq!["claudeAiOauth"@] + rest =~= token_path());
            }
            json_string(inner)
        },
        None => None,
    }
}

/// The access token in credentials `raw`: the string under
/// `claudeAiOauth.accessToken` of the JSON value that `raw` reads as.
/// There is none where `raw` is no JSON, or holds no string there.
pub open spec fn spec_access_token(raw: Seq<char>) -> Option<Seq<char>> {
    match parsed_strings(raw) {
        Some(all) => if all.dom().contains(token_path()) {
            Some(all[token_path()])
        } else {
            None
        },
        None => None,
    }
}

/// Of the strings `all`, those under the member `name`, each under the
/// rest of its path.
pub open spec fn strings_under(all: Map<Seq<Seq<char>>, Seq<char>>, name: Seq<char>) -> Map<
    Seq<Seq<char>>,
    Seq<char>,
> {
    Map::new(
        |path: Seq<Seq<char>>| all.dom().contains(seq![name] + path),
        |path: Seq<Seq<char>>| all[seq![name] + path],
    )
}

/// `serde_json::from_str` for a `serde_json::Value`: whether it succeeds,
/// and which strings the value holds under which paths, depends on the
/// text alone.
#[verifier::external_body]
fn parse_json(text: &str) -> (r: Option<serde_json::Value>)
    ensures
        match r {
            Some(value) => parsed_strings(text@) == Some(json_strings(value)),
            None => parsed_strings(text@) is None,
        },
{
    serde_json::from_str::<serde_json::Value>(text).ok()
}

/// Indexing of a `serde_json::Value` by a string: the member of that name
/// of an object, and the null value where the value is no object or has
/// no such member. So the result holds the strings that the value holds
/// under that name, and no others.
#[verifier::external_body]
fn json_member<'a>(value: &'a serde_json::Value, name: &str) -> (member: &'a serde_json::Value)
    ensures
        json_strings(*member) == strings_under(json_strings(*value), name@),
{
    &value[name]
}

/// `serde_json::Value::as_str`, with the string copied: the string that
/// the value is, if it is one; that is the string under the empty path.
#[verifier::external_body]
fn json_string(value: &serde_json::Value) -> (text: Option<String>)
    ensures
        match text {
            Some(s) => json_strings(*value).dom().contains(Seq::empty()) && json_strings(
                *value,
            )[Seq::empty()] == s@,
            None => !json_strings(*value).dom().contains(Seq::empty()),
        },
{
    value.as_str().map(str::to_owned)
}

/// The credentials as they are, where they are JSON.
pub fn read_full_credentials(raw: String) -> (r: Option<String>)
    ensures
        r == if is_json(raw@) {
            Some(raw)
        } else {
            None::<String>
        },
{
    if parse_json(raw.as_str()).is_some() {
        Some(raw)
    } else {
        None
    }
}

/// What the keychain has answered: the trimmed output of a call that
/// succeeded, unless that is empty.
pub fn keychain_answer(succeeded: bool, output: &str) -> (raw: Option<String>)
    ensures
        match raw {
            Some(text) => succeeded && text@ == trim(output@) && text@.len() > 0,
            None => !succeeded || trim(output@).len() == 0,
        },
{
    if !succeeded {
        return None;
    }
    let trimmed = trim_chars(&to_chars(output));
    if trimmed.len() == 0 {
        None
    } else {
        Some(from_chars(&trimmed))
    }
}

/// The token to use: the one from the keychain, else the one from the
/// environment unless that is empty.
pub fn choose_token(keychain: Option<String>, environment: Option<String>) -> (token: Option<
    String,
>)
    ensures
        token == match keychain {
            Some(k) => Some(k),
            None => match environment {
                Some(e) => if e@.len() > 0 {
                    Some(e)
                } else {
                    None
                },
                None => None,
            },
        },
{
    match keychain {
        Some(k) => Some(k),
        None => match environment {
            Some(e) => if e.as_str().is_empty() {
                None
            } else {
                Some(e)
            },
            None => None,
        },
    }
}

/// The token to use, given what the keychain has answered and what the
/// environment holds: the access token in the credentials of the
/// keychain, else the token of the environment unless that is empty.
pub open spec fn spec_oauth_token(
    keychain_raw: Option<Seq<char>>,
    environment: Option<Seq<char>>,
) -> Option<Seq<char>> {
    let from_keychain = match keychain_raw {
        Some(raw) => spec_access_token(raw),
        None => None,
    };
    match (from_keychain, environment) {
        (Some(k), _) => Some(k),
        (None, Some(e)) => if e.len() > 0 {
            Some(e)
        } else {
            None
        },
        (None, None) => None,
    }
}

/// Reads the OAuth token from what the keychain has answered, if it has,
/// and else from the environment.
pub fn read_oauth_token(keychain_raw: Option<&str>, environment: Option<String>) -> (token: Option<
    String,
>)
    ensures
        match token {
            Some(t) => spec_oauth_token(
                match keychain_raw {
                    Some(raw) => Some(raw@),
                    None => None,
                },
                match environment {
                    Some(e) => Some(e@),
                    None => None,
                },
            ) == Some(t@),
            None => spec_oauth_token(
                match keychain_raw {
                    Some(raw) => Some(raw@),
                    None => None,
                },
                match environment {
                    Some(e) => Some(e@),
                    None => None,
                },
            ) is None,
        },
        keychain_raw is None ==> token == match environment {
            Some(e) => if e@.len() > 0 {
                Some(e)
            } else {
                None
            },
            None => None,
        },
{
    let from_keychain = match keychain_raw {
        Some(raw) => access_token_in(raw),
        None => None,
    };
    choose_token(from_keychain, environment)
}

} // verus!
