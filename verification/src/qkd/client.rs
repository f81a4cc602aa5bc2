//! What becomes of the answers of a key management entity, and of a key store that is
//! found when a daemon starts.
use crate::qkd::config::QkdEnvironment;
#[allow(unused_imports)]
use crate::qkd::keys;
use crate::qkd::keys::{decode_single_key, KeyResponse, QkdKeyMaterial};
use crate::qkd::store::SystemErrorKind;
use vstd::prelude::*;

verus! {

/// What a key management entity is asked for.
#[derive(Clone, Copy)]
pub enum KmeQuery<'a> {
    /// A new key.
    Encryption,
    /// The key that a peer took.
    Decryption(&'a str),
}

/// Why no answer came.
pub enum KmeFault {
    Request(String),
    Rejected(String),
    Json(String),
}

/// The operation that is asked for.
pub open spec fn operation(query: KmeQuery<'_>) -> Seq<char> {
    match query {
        KmeQuery::Encryption => "enc_keys"@,
        KmeQuery::Decryption(_) => "dec_keys"@,
    }
}

/// The key that must come; any where none is asked for by name.
pub open spec fn asked_for(query: KmeQuery<'_>) -> Option<Seq<char>> {
    match query {
        KmeQuery::Encryption => None,
        KmeQuery::Decryption(id) => Some(id@),
    }
}

/// What is said where no answer came.
pub open spec fn fault_text(operation: Seq<char>, fault: KmeFault) -> Seq<char> {
    match fault {
        KmeFault::Request(e) => "QKD "@ + operation + " request failed: "@ + e@,
        KmeFault::Rejected(e) => "QKD "@ + operation + " rejected: "@ + e@,
        KmeFault::Json(e) => "invalid QKD "@ + operation + " JSON: "@ + e@,
    }
}

fn told(head: &str, operation: &str, middle: &str, error: &str) -> (r: String)
    ensures
        r@ == head@ + operation@ + middle@ + error@,
{
    let mut s = head.to_owned();
    s.append(operation);
    s.append(middle);
    s.append(error);
    s
}

/// The key that a key management entity answers with.
pub fn key_from_kme(query: KmeQuery<'_>, reply: &Result<KeyResponse, KmeFault>) -> (r: Result<
    QkdKeyMaterial,
    String,
>)
    ensures
        keys::key_result(r) == (match *reply {
            Ok(response) => keys::response_key(response.keys@, asked_for(query)),
            Err(fault) => Err(fault_text(operation(query), fault)),
        }),
{
    let operation = match query {
        KmeQuery::Encryption => "enc_keys",
        KmeQuery::Decryption(_) => "dec_keys",
    };
    match reply {
        Ok(response) => {
            let expected = match query {
                KmeQuery::Encryption => None,
                KmeQuery::Decryption(id) => Some(id),
            };
            decode_single_key(response, expected)
        },
        Err(KmeFault::Request(e)) => Err(
            told("QKD ", operation, " request failed: ", e.as_str()),
        ),
        Err(KmeFault::Rejected(e)) => Err(told("QKD ", operation, " rejected: ", e.as_str())),
        Err(KmeFault::Json(e)) => Err(told("invalid QKD ", operation, " JSON: ", e.as_str())),
    }
}

/// Whether the access is configured by variables: where any of those that name it is
/// set. Else an installed profile is looked for.
pub fn uses_variables(env: &QkdEnvironment) -> (r: bool)
    ensures
        r == (env@.kme_base_url is Some || env@.local_sae_id is Some || env@.ca_certificate is Some
            || env@.client_certificate is Some || env@.client_private_key is Some),
{
    env.kme_base_url.is_some() || env.local_sae_id.is_some() || env.ca_certificate.is_some()
        || env.client_certificate.is_some() || env.client_private_key.is_some()
}

/// What is done about the key store when a daemon starts.
#[derive(Clone, Copy, Debug, PartialEq, Eq, Structural)]
pub enum StoreStep {
    /// Empty the one that is there.
    Reset,
    Create,
    /// Remove the one that is there and cannot be used, and create one.
    Replace,
}

/// What is done about the key store when a daemon starts, given what came of opening it.
pub fn store_step(opened: Result<(), SystemErrorKind>) -> (r: StoreStep)
    ensures
        r == (match opened {
            Ok(_) => StoreStep::Reset,
            Err(SystemErrorKind::NotFound) => StoreStep::Create,
            Err(_) => StoreStep::Replace,
        }),
{
    match opened {
        Ok(_) => StoreStep::Reset,
        Err(SystemErrorKind::NotFound) => StoreStep::Create,
        Err(_) => StoreStep::Replace,
    }
}

impl StoreStep {
    /// What is said where a step failed.
    pub open spec fn fault(self) -> Seq<char> {
        match self {
            StoreStep::Reset => "reset QKD key store: "@,
            StoreStep::Create => "create QKD key store: "@,
            StoreStep::Replace => "replace invalid QKD key store: "@,
        }
    }

    /// What is said where a step failed with an error.
    pub fn error(self, error: &str) -> (r: String)
        ensures
            r@ == self.fault() + error@,
    {
        let mut s = match self {
            StoreStep::Reset => "reset QKD key store: ".to_owned(),
            StoreStep::Create => "create QKD key store: ".to_owned(),
            StoreStep::Replace => "replace invalid QKD key store: ".to_owned(),
        };
        s.append(error);
        s
    }
}

/// A key that was asked for by its name is the key that comes, or none comes. Keys to
/// encrypt with and keys to decrypt with are asked for by operations of their own.
pub proof fn law_asked_key_comes(id: &str, answer: Seq<keys::KeyRecord>)
    ensures
        keys::response_key(answer, asked_for(KmeQuery::Decryption(id))) matches Ok(k) ==> k.key_id
            == id@,
        operation(KmeQuery::Decryption(id)) == seq!['d', 'e', 'c', '_', 'k', 'e', 'y', 's'],
        operation(KmeQuery::Encryption) == seq!['e', 'n', 'c', '_', 'k', 'e', 'y', 's'],
        asked_for(KmeQuery::Encryption) is None,
{
    reveal_strlit("dec_keys");
    reveal_strlit("enc_keys");
    assert("dec_keys"@ =~= seq!['d', 'e', 'c', '_', 'k', 'e', 'y', 's']);
    assert("enc_keys"@ =~= seq!['e', 'n', 'c', '_', 'k', 'e', 'y', 's']);
    keys::law_answered_key_exactly(answer, Some(id@));
}

} // verus!
