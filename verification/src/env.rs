//! The settings that the bot needs from the environment file, and reading
//! that file's entries into the variables.
use vstd::prelude::*;

verus! {

/// The variable that holds the token for the chat service.
pub const AUTH_TOKEN_VAR: &'static str = "DISCORD_AUTH_TOKEN";

/// Why that variable is needed.
pub const AUTH_TOKEN_REASON: &'static str = "Connecting to discord";

/// The value of the last entry named `key`, if any: what a map filled
/// entry by entry holds for it.
pub open spec fn lookup(vars: Seq<(Seq<char>, Seq<char>)>, key: Seq<char>) -> Option<Seq<char>>
    decreases vars.len(),
{
    if vars.len() == 0 {
        None
    } else if vars.last().0 == key {
        Some(vars.last().1)
    } else {
        lookup(vars.drop_last(), key)
    }
}

/// The names and values of a list of variables, as plain values.
pub open spec fn vars_view(vars: Seq<(String, String)>) -> Seq<(Seq<char>, Seq<char>)> {
    vars.map_values(|e: (String, String)| (e.0@, e.1@))
}

/// The message for a required variable that is missing.
pub open spec fn missing_message(var: Seq<char>, reason: Seq<char>) -> Seq<char> {
    "Missing environment variable '"@ + var + "'; Reason needed: "@ + reason
}

/// The token for the chat service, or the message that says it is missing.
pub fn required_auth_token(vars: &Vec<(String, String)>) -> (r: Result<String, String>)
    ensures
        match lookup(vars_view(vars@), AUTH_TOKEN_VAR@) {
            Some(v) => r matches Ok(t) && t@ == v,
            None => r matches Err(m) && m@ == missing_message(AUTH_TOKEN_VAR@, AUTH_TOKEN_REASON@),
        },
{
    let key = String::from_str(AUTH_TOKEN_VAR);
    let mut i = vars.len();
    assert(vars_view(vars@).take(i as int) =~= vars_view(vars@));
    while i > 0
        invariant
            i <= vars.len(),
            key@ == AUTH_TOKEN_VAR@,
            lookup(vars_view(vars@), key@) == lookup(vars_view(vars@).take(i as int), key@),
        decreases i,
    {
        let ghost t = vars_view(vars@).take(i as int);
        assert(t.drop_last() =~= vars_view(vars@).take(i - 1));
        assert(t.last() == (vars@[i - 1].0@, vars@[i - 1].1@));
        if vars[i - 1].0 == key {
            return Ok(vars[i - 1].1.clone());
        }
        i = i - 1;
    }
    let mut m = String::from_str("Missing environment variable '");
    m.append(AUTH_TOKEN_VAR);
    m.append("'; Reason needed: ");
    m.append(AUTH_TOKEN_REASON);
    Err(m)
}

/// `lookup` over two lists one after the other: the second list's entry
/// when it has one, else the first list's.
pub proof fn lemma_lookup_concat(a: Seq<(Seq<char>, Seq<char>)>, b: Seq<(Seq<char>, Seq<char>)>, key: Seq<char>)
    ensures
        lookup(a + b, key) == match lookup(b, key) {
            Some(v) => Some(v),
            None => lookup(a, key),
        },
    decreases b.len(),
{
    if b.len() == 0 {
        assert(a + b =~= a);
    } else {
        assert((a + b).drop_last() =~= a + b.drop_last());
        assert((a + b).last() == b.last());
        lemma_lookup_concat(a, b.drop_last(), key);
    }
}

/// The entries that `dotenvy::Iter` reads from the text of a `.env` file, in
/// order, up to the first one it cannot read, and that one's error as its
/// `Display` writes it. What is read depends on the process environment too
/// (`${VAR}` is replaced by the variable's value), so nothing is stated of
/// the result.
#[verifier::external_body]
fn parse_env_text(text: &str) -> (r: (Vec<(String, String)>, Option<String>)) {
    let mut entries = Vec::new();
    for entry in dotenvy::Iter::new(text.as_bytes()) {
        match entry {
            Ok(e) => entries.push(e),
            Err(e) => return (entries, Some(e.to_string())),
        }
    }
    (entries, None)
}

/// Adds the entries to the variables, in order: a later entry for a name
/// overrides what came before.
pub fn add_env_entries(vars: &mut Vec<(String, String)>, entries: Vec<(String, String)>)
    ensures
        final(vars)@ == old(vars)@ + entries@,
        forall|k: Seq<char>|
            #[trigger] lookup(vars_view(final(vars)@), k) == match lookup(vars_view(entries@), k) {
                Some(v) => Some(v),
                None => lookup(vars_view(old(vars)@), k),
            },
{
    let ghost start = vars@;
    let ghost all = entries@;
    let mut entries = entries;
    vars.append(&mut entries);
    proof {
        assert(vars_view(start + all) =~= vars_view(start) + vars_view(all));
        assert forall|k: Seq<char>| #[trigger] lookup(vars_view(vars@), k) == match lookup(vars_view(all), k) {
            Some(v) => Some(v),
            None => lookup(vars_view(start), k),
        } by {
            lemma_lookup_concat(vars_view(start), vars_view(all), k);
        }
    }
}

/// Adds the entries read from a `.env` file to the variables, in order, and
/// fails with the error that stopped the reading, if any: the entries
/// before it stay added.
pub fn apply_env_entries(vars: &mut Vec<(String, String)>, read: (Vec<(String, String)>, Option<String>)) -> (r: Result<(), String>)
    ensures
        final(vars)@ == old(vars)@ + read.0@,
        forall|k: Seq<char>|
            #[trigger] lookup(vars_view(final(vars)@), k) == match lookup(vars_view(read.0@), k) {
                Some(v) => Some(v),
                None => lookup(vars_view(old(vars)@), k),
            },
        r == match read.1 {
            Some(e) => Err::<(), String>(e),
            None => Ok::<(), String>(()),
        },
{
    let (entries, error) = read;
    add_env_entries(vars, entries);
    match error {
        Some(e) => Err(e),
        None => Ok(()),
    }
}

/// Reads the entries of a `.env` file's text into the variables, in order
/// (see [`apply_env_entries`]). Which entries are read rests on `dotenvy`
/// and on the process environment, so only this is stated: the variables
/// keep what they held and gain the entries read after it.
pub fn load(vars: &mut Vec<(String, String)>, text: &str) -> (r: Result<(), String>)
    ensures
        exists|read: Seq<(String, String)>| final(vars)@ == old(vars)@ + read,
{
    let read = parse_env_text(text);
    apply_env_entries(vars, read)
}

} // verus!
