//! Where the keys come from: the key management entity, and how it is reached.
#[allow(unused_imports)]
use crate::qkd::keys;
use crate::qkd::keys::{validate_identifier, MAX_KEY_ID_LEN, MAX_SAE_ID_LEN};
use crate::duration::Duration;
#[allow(unused_imports)]
use crate::text;
use crate::text::{
    chars_of, find_first, parse_unsigned, push_decimal, text_equal, text_of, trim_text,
};
use vstd::prelude::*;
#[allow(unused_imports)]
use vstd::utf8::*;

verus! {

/// A URL in its normal form, and its scheme.
pub struct UrlParts {
    pub url: String,
    pub scheme: String,
}

/// What a URL holds.
#[verifier::ext_equal]
pub struct UrlView {
    pub url: Seq<char>,
    pub scheme: Seq<char>,
}

/// What the result of reading a URL says.
pub open spec fn url_result(r: Result<UrlParts, String>) -> Result<UrlView, Seq<char>> {
    match r {
        Ok(u) => Ok(UrlView { url: u.url@, scheme: u.scheme@ }),
        Err(e) => Err(e@),
    }
}

/// The URL that a text spells, or what is wrong with it.
pub uninterp spec fn url_of(s: Seq<char>) -> Result<UrlView, Seq<char>>;

/// `reqwest::Url::parse`: the URL that `s` spells, in its normal form and with its
/// scheme, or the message of its error.
#[verifier::external_body]
fn parse_url(s: &str) -> (r: Result<UrlParts, String>)
    ensures
        url_result(r) == url_of(s@),
{
    let url = reqwest::Url::parse(s).map_err(|e| e.to_string())?;
    Ok(UrlParts { url: url.as_str().to_owned(), scheme: url.scheme().to_owned() })
}

/// How many bytes a text takes.
pub open spec fn byte_len(s: Seq<char>) -> nat {
    encode_utf8(s).len()
}

/// Whether the positions in a URL can be counted in 32 bits once it is `more` bytes
/// longer.
pub open spec fn has_room(url: Result<UrlView, Seq<char>>, more: nat) -> bool {
    url matches Ok(u) ==> byte_len(u.url) + more <= u32::MAX
}

/// The most bytes by which one more segment lengthens a URL: three for each byte that is
/// escaped, and the slashes around it.
pub open spec fn segment_room(segment: Seq<char>) -> nat {
    3 * byte_len(segment) + 2
}

/// The most bytes by which one more pair lengthens a URL: three for each byte that is
/// escaped, and the signs around it.
pub open spec fn pair_room(name: Seq<char>, value: Seq<char>) -> nat {
    3 * (byte_len(name) + byte_len(value)) + 3
}

/// A URL without the last segment of its path, where that is empty.
pub uninterp spec fn url_trimmed(url: Seq<char>) -> Option<Seq<char>>;

/// `reqwest::Url::path_segments_mut` and `pop_if_empty`: a URL without the last segment
/// of its path, where that is empty and not the only one. Nothing where `url` is none, or
/// cannot have such a path. A URL whose positions take more than 32 bits is left out:
/// there the call panics.
#[verifier::external_body]
fn drop_empty_segment(url: &str) -> (r: Option<String>)
    requires
        has_room(url_of(url@), 0),
    ensures
        match r {
            Some(u) => url_trimmed(url@) == Some(u@),
            None => url_trimmed(url@) is None,
        },
{
    let mut url = reqwest::Url::parse(url).ok()?;
    url.path_segments_mut().ok()?.pop_if_empty();
    Some(url.to_string())
}

/// A URL with one more segment in its path.
pub uninterp spec fn url_with_segment(url: Seq<char>, segment: Seq<char>) -> Option<Seq<char>>;

/// `reqwest::Url::path_segments_mut` and `push`: a URL with one segment put behind its
/// path. Nothing where `url` is none, or cannot have such a path. A URL whose positions
/// come to take more than 32 bits is left out: there the call panics.
#[verifier::external_body]
fn push_segment(url: &str, segment: &str) -> (r: Option<String>)
    requires
        has_room(url_of(url@), segment_room(segment@)),
    ensures
        match r {
            Some(u) => url_with_segment(url@, segment@) == Some(u@),
            None => url_with_segment(url@, segment@) is None,
        },
{
    let mut url = reqwest::Url::parse(url).ok()?;
    url.path_segments_mut().ok()?.push(segment);
    Some(url.to_string())
}

/// A URL with one more pair in its query.
pub uninterp spec fn url_with_pair(url: Seq<char>, name: Seq<char>, value: Seq<char>) -> Option<
    Seq<char>,
>;

/// `reqwest::Url::query_pairs_mut`: a URL with one pair put behind its query.
/// Nothing where `url` is none. A URL whose positions come to take more than 32 bits is
/// left out: there the call panics.
#[verifier::external_body]
fn push_pair(url: &str, name: &str, value: &str) -> (r: Option<String>)
    requires
        has_room(url_of(url@), pair_room(name@, value@)),
    ensures
        match r {
            Some(u) => url_with_pair(url@, name@, value@) == Some(u@),
            None => url_with_pair(url@, name@, value@) is None,
        },
{
    let mut url = reqwest::Url::parse(url).ok()?;
    url.query_pairs_mut().append_pair(name, value);
    Some(url.to_string())
}

/// The directory that holds a file or directory.
pub uninterp spec fn path_parent(p: Seq<char>) -> Option<Seq<char>>;

/// `std::path::Path::parent`: the directory that holds `p`, where there is one.
#[verifier::external_body]
fn parent_of(p: &str) -> (r: Option<String>)
    ensures
        match r {
            Some(q) => path_parent(p@) == Some(q@),
            None => path_parent(p@) is None,
        },
{
    std::path::Path::new(p).parent().map(|q| q.to_string_lossy().into_owned())
}

/// A path below a directory.
pub uninterp spec fn path_join(dir: Seq<char>, file: Seq<char>) -> Seq<char>;

/// `std::path::Path::join`: the path of `file` below `dir`.
#[verifier::external_body]
fn join_path(dir: &str, file: &str) -> (r: String)
    ensures
        r@ == path_join(dir@, file@),
{
    std::path::Path::new(dir).join(file).to_string_lossy().into_owned()
}

/// Whether two paths have the same components.
pub uninterp spec fn same_path(a: Seq<char>, b: Seq<char>) -> bool;

/// `PartialEq` of `std::path::Path`: whether two paths have the same components.
#[verifier::external_body]
fn paths_equal(a: &str, b: &str) -> (r: bool)
    ensures
        r == same_path(a@, b@),
{
    std::path::Path::new(a) == std::path::Path::new(b)
}

/// An optional text, as a value.
pub open spec fn opt_text(s: Option<String>) -> Option<Seq<char>> {
    match s {
        Some(t) => Some(t@),
        None => None,
    }
}

/// How the key management entity is reached.
pub struct QkdConfig {
    pub kme_base_url: String,
    pub local_sae_id: String,
    pub ca_certificate: Option<String>,
    pub client_certificate: Option<String>,
    pub client_private_key: Option<String>,
    pub request_timeout: Duration,
    pub allow_insecure_http: bool,
}

/// What a configuration holds.
#[verifier::ext_equal]
pub struct ConfigView {
    pub kme_base_url: Seq<char>,
    pub local_sae_id: Seq<char>,
    pub ca_certificate: Option<Seq<char>>,
    pub client_certificate: Option<Seq<char>>,
    pub client_private_key: Option<Seq<char>>,
    pub request_timeout: Duration,
    pub allow_insecure_http: bool,
}

impl View for QkdConfig {
    type V = ConfigView;

    open spec fn view(&self) -> ConfigView {
        ConfigView {
            kme_base_url: self.kme_base_url@,
            local_sae_id: self.local_sae_id@,
            ca_certificate: opt_text(self.ca_certificate),
            client_certificate: opt_text(self.client_certificate),
            client_private_key: opt_text(self.client_private_key),
            request_timeout: self.request_timeout,
            allow_insecure_http: self.allow_insecure_http,
        }
    }
}

/// What the result of a configuration says.
pub open spec fn config_result(r: Result<QkdConfig, String>) -> Result<ConfigView, Seq<char>> {
    match r {
        Ok(c) => Ok(c@),
        Err(e) => Err(e@),
    }
}

/// The values of the variables that configure the access, where they are set.
pub struct QkdEnvironment {
    pub kme_base_url: Option<String>,
    pub local_sae_id: Option<String>,
    pub ca_certificate: Option<String>,
    pub client_certificate: Option<String>,
    pub client_private_key: Option<String>,
    pub allow_insecure_http: Option<String>,
    pub request_timeout_ms: Option<String>,
}

/// What a set of variables holds.
#[verifier::ext_equal]
pub struct EnvironmentView {
    pub kme_base_url: Option<Seq<char>>,
    pub local_sae_id: Option<Seq<char>>,
    pub ca_certificate: Option<Seq<char>>,
    pub client_certificate: Option<Seq<char>>,
    pub client_private_key: Option<Seq<char>>,
    pub allow_insecure_http: Option<Seq<char>>,
    pub request_timeout_ms: Option<Seq<char>>,
}

impl View for QkdEnvironment {
    type V = EnvironmentView;

    open spec fn view(&self) -> EnvironmentView {
        EnvironmentView {
            kme_base_url: opt_text(self.kme_base_url),
            local_sae_id: opt_text(self.local_sae_id),
            ca_certificate: opt_text(self.ca_certificate),
            client_certificate: opt_text(self.client_certificate),
            client_private_key: opt_text(self.client_private_key),
            allow_insecure_http: opt_text(self.allow_insecure_http),
            request_timeout_ms: opt_text(self.request_timeout_ms),
        }
    }
}

/// The value of a variable without the white space around it, where anything is left.
pub open spec fn setting(value: Option<Seq<char>>) -> Option<Seq<char>> {
    match value {
        Some(v) => if text::trimmed(v).len() == 0 {
            None
        } else {
            Some(text::trimmed(v))
        },
        None => None,
    }
}

/// The value of a variable, where anything is in it.
pub fn optional_path(value: &Option<String>) -> (r: Option<String>)
    ensures
        opt_text(r) == setting(opt_text(*value)),
{
    match value {
        Some(v) => {
            let t = trim_text(v.as_str());
            if t.as_str().is_empty() {
                None
            } else {
                Some(t)
            }
        },
        None => None,
    }
}

/// The value of a variable that has to be set.
pub fn required_env(name: &str, value: &Option<String>) -> (r: Result<String, String>)
    ensures
        match r {
            Ok(v) => setting(opt_text(*value)) == Some(v@),
            Err(e) => setting(opt_text(*value)) is None && e@ == name@ + " is required in QKD mode"@,
        },
{
    match optional_path(value) {
        Some(v) => Ok(v),
        None => {
            let mut e = name.to_owned();
            e.append(" is required in QKD mode");
            Err(e)
        },
    }
}

/// A character in lower case, where it is an ASCII letter.
pub open spec fn lower(c: char) -> char {
    if 'A' <= c <= 'Z' {
        (c as u8 + 32) as char
    } else {
        c
    }
}

/// A text in lower case, as far as its letters are ASCII.
pub open spec fn lowered(s: Seq<char>) -> Seq<char> {
    Seq::new(s.len(), |i: int| lower(s[i]))
}

/// Whether the value of a variable says yes; `default` where it is not set.
pub open spec fn says_yes(value: Option<Seq<char>>, default: bool) -> bool {
    match value {
        Some(v) => {
            let t = lowered(text::trimmed(v));
            t == "1"@ || t == "true"@ || t == "yes"@ || t == "on"@
        },
        None => default,
    }
}

/// A text in lower case, as far as its letters are ASCII.
pub(crate) fn lower_text(s: &str) -> (r: String)
    ensures
        r@ == lowered(s@),
{
    let chars = chars_of(s);
    let mut out = String::new();
    let mut i: usize = 0;
    while i < chars.len()
        invariant
            i <= chars@.len(),
            chars@ == s@,
            out@ == lowered(s@).subrange(0, i as int),
        decreases chars.len() - i,
    {
        let c: char = chars[i];
        let d: char = if c >= 'A' && c <= 'Z' {
            (c as u8 + 32) as char
        } else {
            c
        };
        text::push_char(&mut out, d);
        proof {
            assert(out@ =~= lowered(s@).subrange(0, i + 1));
        }
        i += 1;
    }
    proof {
        assert(out@ =~= lowered(s@));
    }
    out
}

/// Whether the value of a variable says yes.
pub fn env_bool(value: &Option<String>, default: bool) -> (r: bool)
    ensures
        r == says_yes(opt_text(*value), default),
{
    match value {
        Some(v) => {
            let t = lower_text(trim_text(v.as_str()).as_str());
            text_equal(t.as_str(), "1") || text_equal(t.as_str(), "true") || text_equal(
                t.as_str(),
                "yes",
            ) || text_equal(t.as_str(), "on")
        },
        None => default,
    }
}

/// A number between bounds.
pub open spec fn clamped(n: int, low: int, high: int) -> int {
    if n < low {
        low
    } else if n > high {
        high
    } else {
        n
    }
}

/// The number that the value of a variable spells, or `default`, between bounds.
pub open spec fn number_setting(
    value: Option<Seq<char>>,
    max: nat,
    default: int,
    low: int,
    high: int,
) -> int {
    clamped(
        match value {
            Some(v) => match text::unsigned_value(v, max) {
                Some(n) => n as int,
                None => default,
            },
            None => default,
        },
        low,
        high,
    )
}

/// The number that the value of a variable spells, or `default`, between bounds.
fn bounded_number(value: &Option<String>, max: u64, default: u64, low: u64, high: u64) -> (r: u64)
    requires
        low <= high,
    ensures
        r == number_setting(
            opt_text(*value),
            max as nat,
            default as int,
            low as int,
            high as int,
        ),
        low <= r <= high,
{
    let n: u64 = match value {
        Some(v) => match parse_unsigned(v.as_str(), max) {
            Some(n) => n,
            None => default,
        },
        None => default,
    };
    if n < low {
        low
    } else if n > high {
        high
    } else {
        n
    }
}

/// How long a request may take, in milliseconds.
pub open spec fn timeout_millis(value: Option<Seq<char>>) -> int {
    number_setting(value, u64::MAX as nat, 3000, 100, 60_000)
}

/// A span of milliseconds.
pub open spec fn millis(n: int) -> Duration {
    Duration { secs: (n / 1000) as u64, nanos: (n % 1000 * 1_000_000) as u32 }
}

/// How long a request may take: three seconds, or what the variable says, but
/// between a tenth of a second and a minute.
pub fn qkd_request_timeout(value: &Option<String>) -> (r: Duration)
    ensures
        r == millis(timeout_millis(opt_text(*value))),
{
    Duration::from_millis(bounded_number(value, u64::MAX, 3000, 100, 60_000))
}

/// How many requests may be under way: four, or what the variable says, but between
/// one and thirty-two.
pub fn qkd_max_in_flight(value: &Option<String>) -> (r: usize)
    ensures
        r == number_setting(opt_text(*value), usize::MAX as nat, 4, 1, 32),
{
    bounded_number(value, usize::MAX as u64, 4, 1, 32) as usize
}

/// Tests whether the entity can be reached safely: over HTTPS with certificates, or,
/// where that is allowed, over HTTP.
pub open spec fn endpoint_fault(
    scheme: Seq<char>,
    ca: bool,
    certificate: bool,
    key: bool,
    allow_insecure_http: bool,
) -> Option<Seq<char>> {
    if scheme == "https"@ {
        if ca && certificate && key {
            None
        } else {
            Some("QKD HTTPS requires a CA certificate and a client certificate/private key"@)
        }
    } else if scheme == "http"@ {
        if allow_insecure_http {
            None
        } else {
            Some("unencrypted QKD KME access is disabled; HTTP is only allowed for local tests"@)
        }
    } else {
        Some("unsupported QKD KME URL scheme: "@ + scheme)
    }
}

/// Tests whether the entity can be reached safely.
pub fn check_endpoint(
    scheme: &str,
    ca: bool,
    certificate: bool,
    key: bool,
    allow_insecure_http: bool,
) -> (r: Result<(), String>)
    ensures
        match r {
            Ok(()) => endpoint_fault(scheme@, ca, certificate, key, allow_insecure_http) is None,
            Err(e) => endpoint_fault(scheme@, ca, certificate, key, allow_insecure_http) == Some(
                e@,
            ),
        },
{
    if text_equal(scheme, "https") {
        if !ca || !certificate || !key {
            return Err(
                "QKD HTTPS requires a CA certificate and a client certificate/private key".to_owned(),
            );
        }
        Ok(())
    } else if text_equal(scheme, "http") {
        if allow_insecure_http {
            Ok(())
        } else {
            Err(
                "unencrypted QKD KME access is disabled; HTTP is only allowed for local tests".to_owned(),
            )
        }
    } else {
        let mut e = "unsupported QKD KME URL scheme: ".to_owned();
        e.append(scheme);
        Err(e)
    }
}

/// What is wrong with a configuration, once its address is read.
pub open spec fn config_fault(config: ConfigView, url: Result<UrlView, Seq<char>>) -> Option<
    Seq<char>,
> {
    match url {
        Err(e) => Some("invalid AXON_QKD_KME_BASE_URL: "@ + e),
        Ok(u) => endpoint_fault(
            u.scheme,
            config.ca_certificate is Some,
            config.client_certificate is Some,
            config.client_private_key is Some,
            config.allow_insecure_http,
        ),
    }
}

/// Tests whether a client can be made of a configuration, once its address is read.
pub fn check_parts(config: &QkdConfig, url: Result<UrlParts, String>) -> (r: Result<(), String>)
    ensures
        match r {
            Ok(()) => config_fault(config@, url_result(url)) is None,
            Err(e) => config_fault(config@, url_result(url)) == Some(e@),
        },
{
    match url {
        Err(e) => {
            let mut s = "invalid AXON_QKD_KME_BASE_URL: ".to_owned();
            s.append(e.as_str());
            Err(s)
        },
        Ok(u) => check_endpoint(
            u.scheme.as_str(),
            config.ca_certificate.is_some(),
            config.client_certificate.is_some(),
            config.client_private_key.is_some(),
            config.allow_insecure_http,
        ),
    }
}

/// Tests whether a client can be made of a configuration: whether the entity at its
/// address can be reached safely.
pub fn check_config(config: &QkdConfig) -> (r: Result<(), String>)
    ensures
        match r {
            Ok(()) => config_fault(config@, url_of(config@.kme_base_url)) is None,
            Err(e) => config_fault(config@, url_of(config@.kme_base_url)) == Some(e@),
        },
{
    check_parts(config, parse_url(config.kme_base_url.as_str()))
}

/// Whether a client shows a certificate: it needs the certificate and its key, or
/// neither.
pub fn shows_identity(certificate: bool, key: bool) -> (r: Result<bool, String>)
    ensures
        match r {
            Ok(b) => certificate == key && b == certificate,
            Err(e) => certificate != key && e@
                == "both QKD client certificate and private key are required"@,
        },
{
    if certificate != key {
        Err("both QKD client certificate and private key are required".to_owned())
    } else {
        Ok(certificate)
    }
}

/// A certificate and its key in one text, each starting on a line of its own.
pub open spec fn identity_bytes(certificate: Seq<u8>, key: Seq<u8>) -> Seq<u8> {
    if certificate.len() > 0 && certificate.last() == 10 {
        certificate + key
    } else {
        certificate.push(10) + key
    }
}

/// A certificate and its key in one text.
pub fn identity_pem(certificate: Vec<u8>, key: &[u8]) -> (r: Vec<u8>)
    ensures
        r@ == identity_bytes(certificate@, key@),
{
    let mut out = certificate;
    if out.len() == 0 || out[out.len() - 1] != 10 {
        out.push(10);
    }
    crate::bytes::append_slice(&mut out, key);
    out
}

/// A URL with one more segment in its path, where its positions can still be counted.
pub open spec fn segment_added(url: Seq<char>, segment: Seq<char>) -> Option<Seq<char>> {
    if has_room(url_of(url), segment_room(segment)) {
        url_with_segment(url, segment)
    } else {
        None
    }
}

/// A URL with two more segments in its path, the first in place of an empty last one,
/// where its positions can still be counted.
pub open spec fn url_beneath(base: Seq<char>, first: Seq<char>, second: Seq<char>) -> Option<
    Seq<char>,
> {
    if !has_room(url_of(base), 0) {
        None
    } else {
        match url_trimmed(base) {
            None => None,
            Some(u) => match segment_added(u, first) {
                None => None,
                Some(v) => segment_added(v, second),
            },
        }
    }
}

/// The URL of an operation on a peer's keys, or what is wrong.
pub open spec fn operation_address(base: Seq<char>, peer: Seq<char>, operation: Seq<char>) -> Result<
    Seq<char>,
    Seq<char>,
> {
    match keys::identifier_fault("peer SAE ID"@, peer, MAX_SAE_ID_LEN as nat) {
        Some(e) => Err(e),
        None => match url_beneath(base, peer, operation) {
            Some(u) => Ok(u),
            None => Err("AXON_QKD_KME_BASE_URL cannot be used as a path base"@),
        },
    }
}

/// A URL with one more pair in its query, where its positions can still be counted.
pub open spec fn pair_added(url: Seq<char>, name: Seq<char>, value: Seq<char>) -> Option<
    Seq<char>,
> {
    if has_room(url_of(url), pair_room(name, value)) {
        url_with_pair(url, name, value)
    } else {
        None
    }
}

/// A URL with a pair in its query, or what is wrong.
pub open spec fn with_pair(
    url: Result<Seq<char>, Seq<char>>,
    name: Seq<char>,
    value: Seq<char>,
) -> Result<Seq<char>, Seq<char>> {
    match url {
        Err(e) => Err(e),
        Ok(u) => match pair_added(u, name, value) {
            Some(v) => Ok(v),
            None => Err("AXON_QKD_KME_BASE_URL cannot be used as a path base"@),
        },
    }
}

/// The URL that delivers a new key for a peer: one key of 256 bits.
pub open spec fn enc_address(base: Seq<char>, peer: Seq<char>) -> Result<Seq<char>, Seq<char>> {
    with_pair(
        with_pair(operation_address(base, peer, "enc_keys"@), "number"@, "1"@),
        "size"@,
        "256"@,
    )
}

/// The URL that delivers the key that a peer has taken.
pub open spec fn dec_address(base: Seq<char>, peer: Seq<char>, key_id: Seq<char>) -> Result<
    Seq<char>,
    Seq<char>,
> {
    match keys::identifier_fault("QKD key_ID"@, key_id, MAX_KEY_ID_LEN as nat) {
        Some(e) => Err(e),
        None => with_pair(operation_address(base, peer, "dec_keys"@), "key_ID"@, key_id),
    }
}

/// What a result in words says.
pub open spec fn text_result(r: Result<String, String>) -> Result<Seq<char>, Seq<char>> {
    match r {
        Ok(s) => Ok(s@),
        Err(e) => Err(e@),
    }
}

/// Whether the positions in a URL can be counted in 32 bits once it is `more` bytes
/// longer.
fn url_has_room(url: &str, more: u128) -> (r: bool)
    requires
        more <= 0x1_0000_0000_0000_0000_0000,
    ensures
        r == has_room(url_of(url@), more as nat),
{
    match parse_url(url) {
        Ok(u) => u.url.as_str().as_bytes().len() as u128 + more <= u32::MAX as u128,
        Err(_) => true,
    }
}

/// A URL with one more segment in its path.
fn add_segment(url: &str, segment: &str) -> (r: Option<String>)
    ensures
        match r {
            Some(u) => segment_added(url@, segment@) == Some(u@),
            None => segment_added(url@, segment@) is None,
        },
{
    if url_has_room(url, segment.as_bytes().len() as u128 * 3 + 2) {
        push_segment(url, segment)
    } else {
        None
    }
}

/// A URL with two more segments in its path, the first in place of an empty last one.
fn add_segments(base: &str, first: &str, second: &str) -> (r: Option<String>)
    ensures
        match r {
            Some(u) => url_beneath(base@, first@, second@) == Some(u@),
            None => url_beneath(base@, first@, second@) is None,
        },
{
    if !url_has_room(base, 0) {
        return None;
    }
    match drop_empty_segment(base) {
        None => None,
        Some(u) => match add_segment(u.as_str(), first) {
            None => None,
            Some(v) => add_segment(v.as_str(), second),
        },
    }
}

/// The URL of an operation on a peer's keys.
pub fn operation_url(base: &str, peer_sae_id: &str, operation: &str) -> (r: Result<String, String>)
    ensures
        text_result(r) == operation_address(base@, peer_sae_id@, operation@),
{
    validate_identifier("peer SAE ID", peer_sae_id, MAX_SAE_ID_LEN)?;
    match add_segments(base, peer_sae_id, operation) {
        Some(u) => Ok(u),
        None => Err("AXON_QKD_KME_BASE_URL cannot be used as a path base".to_owned()),
    }
}

/// A URL with a pair in its query.
fn add_pair(url: &str, name: &str, value: &str) -> (r: Result<String, String>)
    ensures
        text_result(r) == with_pair(Ok(url@), name@, value@),
{
    let more: u128 = (name.as_bytes().len() as u128 + value.as_bytes().len() as u128) * 3 + 3;
    if !url_has_room(url, more) {
        return Err("AXON_QKD_KME_BASE_URL cannot be used as a path base".to_owned());
    }
    match push_pair(url, name, value) {
        Some(u) => Ok(u),
        None => Err("AXON_QKD_KME_BASE_URL cannot be used as a path base".to_owned()),
    }
}

/// The URL that delivers a new key for a peer.
pub fn encryption_key_url(base: &str, peer_sae_id: &str) -> (r: Result<String, String>)
    ensures
        text_result(r) == enc_address(base@, peer_sae_id@),
{
    let url = operation_url(base, peer_sae_id, "enc_keys")?;
    let url = add_pair(url.as_str(), "number", "1")?;
    add_pair(url.as_str(), "size", "256")
}

/// The URL that delivers the key that a peer has taken.
pub fn decryption_key_url(base: &str, peer_sae_id: &str, key_id: &str) -> (r: Result<
    String,
    String,
>)
    ensures
        text_result(r) == dec_address(base@, peer_sae_id@, key_id@),
{
    validate_identifier("QKD key_ID", key_id, MAX_KEY_ID_LEN)?;
    let url = operation_url(base, peer_sae_id, "dec_keys")?;
    add_pair(url.as_str(), "key_ID", key_id)
}

/// The configuration that the variables spell, once the URL is read, or what is wrong
/// with them.
pub open spec fn explicit_config(
    env: EnvironmentView,
    url: Result<UrlView, Seq<char>>,
) -> Result<ConfigView, Seq<char>> {
    match url {
        Err(e) => Err("invalid AXON_QKD_KME_BASE_URL: "@ + e),
        Ok(u) => match setting(env.local_sae_id) {
            None => Err("AXON_QKD_LOCAL_SAE_ID"@ + " is required in QKD mode"@),
            Some(id) => match keys::identifier_fault(
                "AXON_QKD_LOCAL_SAE_ID"@,
                id,
                MAX_SAE_ID_LEN as nat,
            ) {
                Some(e) => Err(e),
                None => {
                    let insecure = says_yes(env.allow_insecure_http, false);
                    let ca = setting(env.ca_certificate);
                    let certificate = setting(env.client_certificate);
                    let key = setting(env.client_private_key);
                    if u.scheme != "https"@ && !insecure {
                        Err(
                            "AXON_QKD_KME_BASE_URL must use https (set AXON_QKD_ALLOW_INSECURE_HTTP=1 only for local tests)"@,
                        )
                    } else if u.scheme == "https"@ && (ca is None || certificate is None
                        || key is None) {
                        Err(
                            "QKD HTTPS requires AXON_QKD_CA_CERT, AXON_QKD_CLIENT_CERT, and AXON_QKD_CLIENT_KEY"@,
                        )
                    } else {
                        Ok(
                            ConfigView {
                                kme_base_url: u.url,
                                local_sae_id: id,
                                ca_certificate: ca,
                                client_certificate: certificate,
                                client_private_key: key,
                                request_timeout: millis(timeout_millis(env.request_timeout_ms)),
                                allow_insecure_http: insecure,
                            },
                        )
                    }
                },
            },
        },
    }
}

/// The configuration that the variables spell, or what is wrong with them.
pub open spec fn env_config(env: EnvironmentView) -> Result<ConfigView, Seq<char>> {
    match setting(env.kme_base_url) {
        None => Err("AXON_QKD_KME_BASE_URL"@ + " is required in QKD mode"@),
        Some(base) => explicit_config(env, url_of(base)),
    }
}

/// What an installed profile says: an account and which of its two hosts this is.
#[derive(Debug, PartialEq, Eq)]
pub struct BetaProfile {
    pub account_id: String,
    pub role: u8,
}

/// What a profile holds.
#[verifier::ext_equal]
pub struct ProfileView {
    pub account_id: Seq<char>,
    pub role: u8,
}

impl View for BetaProfile {
    type V = ProfileView;

    open spec fn view(&self) -> ProfileView {
        ProfileView { account_id: self.account_id@, role: self.role }
    }
}

/// The fields of a profile that were read so far.
#[verifier::ext_equal]
pub struct FieldsView {
    pub account_id: Option<Seq<char>>,
    pub role: Option<u8>,
}

/// Takes one line of a profile, without the white space around it, into account.
pub open spec fn take_line(line: Seq<char>, f: FieldsView) -> Result<FieldsView, Seq<char>> {
    if line.len() == 0 || line[0] == '#' {
        Ok(f)
    } else {
        match text::first_index(line, '=') {
            None => Err("invalid beta QKD profile line: "@ + line),
            Some(i) => {
                let name = text::trimmed(line.subrange(0, i));
                let value = text::trimmed(line.subrange(i + 1, line.len() as int));
                if name == "account_id"@ {
                    Ok(FieldsView { account_id: Some(value), ..f })
                } else if name == "role"@ {
                    match text::unsigned_value(value, 255) {
                        Some(n) => Ok(FieldsView { role: Some(n as u8), ..f }),
                        None => Err("beta QKD profile role must be 1 or 2"@),
                    }
                } else {
                    Err("unknown beta QKD profile field: "@ + name)
                }
            },
        }
    }
}

/// Takes the lines of a text into account, from the first on.
pub open spec fn take_lines(s: Seq<char>, f: FieldsView) -> Result<FieldsView, Seq<char>>
    decreases s.len(),
{
    match text::first_index(s, '\n') {
        None => take_line(text::trimmed(s), f),
        Some(i) => if 0 <= i < s.len() {
            match take_line(text::trimmed(s.subrange(0, i)), f) {
                Err(e) => Err(e),
                Ok(g) => take_lines(s.subrange(i + 1, s.len() as int), g),
            }
        } else {
            Ok(f)
        },
    }
}

/// The profile that a text spells, or what is wrong with it.
pub open spec fn profile_of(s: Seq<char>) -> Result<ProfileView, Seq<char>> {
    match take_lines(s, FieldsView { account_id: None, role: None }) {
        Err(e) => Err(e),
        Ok(f) => match f.account_id {
            None => Err("beta QKD profile requires account_id"@),
            Some(account_id) => if account_id.len() == 0 || !text::all_digits(account_id) {
                Err("beta QKD profile account_id must contain only digits"@)
            } else {
                match f.role {
                    None => Err("beta QKD profile requires role"@),
                    Some(role) => if role == 1 || role == 2 {
                        Ok(ProfileView { account_id, role })
                    } else {
                        Err("beta QKD profile role must be 1 or 2"@)
                    },
                }
            },
        },
    }
}

/// The fields of a profile that were read so far.
struct Fields {
    account_id: Option<String>,
    role: Option<u8>,
}

impl Fields {
    closed spec fn fields(self) -> FieldsView {
        FieldsView { account_id: opt_text(self.account_id), role: self.role }
    }
}

/// Takes one line of a profile into account.
fn read_line(line: &str, f: &mut Fields) -> (r: Result<(), String>)
    ensures
        match r {
            Ok(()) => take_line(text::trimmed(line@), old(f).fields()) == Ok::<_, Seq<char>>(
                final(f).fields(),
            ),
            Err(e) => take_line(text::trimmed(line@), old(f).fields()) == Err::<FieldsView, _>(e@),
        },
{
    let line = trim_text(line);
    let chars = chars_of(line.as_str());
    if chars.len() == 0 || chars[0] == '#' {
        return Ok(());
    }
    match find_first(&chars, '=') {
        None => {
            let mut e = "invalid beta QKD profile line: ".to_owned();
            e.append(line.as_str());
            Err(e)
        },
        Some(i) => {
            let name = trim_text(text_of(&chars, 0, i).as_str());
            let value = trim_text(text_of(&chars, i + 1, chars.len()).as_str());
            if text_equal(name.as_str(), "account_id") {
                f.account_id = Some(value);
                Ok(())
            } else if text_equal(name.as_str(), "role") {
                match parse_unsigned(value.as_str(), 255) {
                    Some(n) => {
                        f.role = Some(n as u8);
                        Ok(())
                    },
                    None => Err("beta QKD profile role must be 1 or 2".to_owned()),
                }
            } else {
                let mut e = "unknown beta QKD profile field: ".to_owned();
                e.append(name.as_str());
                Err(e)
            }
        },
    }
}

/// Whether every character is a decimal digit.
fn digits_only(s: &str) -> (r: bool)
    ensures
        r == text::all_digits(s@),
{
    let chars = chars_of(s);
    let mut i: usize = 0;
    while i < chars.len()
        invariant
            i <= chars@.len(),
            chars@ == s@,
            forall|k: int| 0 <= k < i ==> '0' <= #[trigger] s@[k] <= '9',
        decreases chars.len() - i,
    {
        if !(chars[i] >= '0' && chars[i] <= '9') {
            proof {
                assert(!('0' <= s@[i as int] <= '9'));
            }
            return false;
        }
        i += 1;
    }
    true
}

impl BetaProfile {
    /// The profile that a text spells.
    pub fn parse(contents: &str) -> (r: Result<BetaProfile, String>)
        ensures
            match r {
                Ok(p) => profile_of(contents@) == Ok::<_, Seq<char>>(p@),
                Err(e) => profile_of(contents@) == Err::<ProfileView, _>(e@),
            },
    {
        let chars = chars_of(contents);
        let n: usize = chars.len();
        let mut f = Fields { account_id: None, role: None };
        let ghost none = FieldsView { account_id: None, role: None };
        let mut at: usize = 0;
        proof {
            assert(chars@.subrange(0, n as int) =~= chars@);
            assert(f.fields() == none);
        }
        loop
            invariant
                at <= n == chars@.len(),
                chars@ == contents@,
                take_lines(contents@, none) == take_lines(
                    chars@.subrange(at as int, n as int),
                    f.fields(),
                ),
                none == (FieldsView { account_id: None, role: None }),
            ensures
                take_lines(contents@, none) == Ok::<_, Seq<char>>(f.fields()),
            decreases n - at,
        {
            let ghost rest = chars@.subrange(at as int, n as int);
            let tail = text_of(&chars, at, n);
            let tail_chars = chars_of(tail.as_str());
            match find_first(&tail_chars, '\n') {
                None => {
                    read_line(tail.as_str(), &mut f)?;
                    break;
                },
                Some(i) => {
                    proof {
                        assert(rest.subrange(i + 1, rest.len() as int) =~= chars@.subrange(
                            at + i + 1,
                            n as int,
                        ));
                    }
                    read_line(text_of(&tail_chars, 0, i).as_str(), &mut f)?;
                    at = at + i + 1;
                },
            }
        }
        let account_id = match f.account_id {
            Some(a) => a,
            None => {
                return Err("beta QKD profile requires account_id".to_owned());
            },
        };
        if account_id.as_str().is_empty() || !digits_only(account_id.as_str()) {
            return Err("beta QKD profile account_id must contain only digits".to_owned());
        }
        let role: u8 = match f.role {
            Some(r) => r,
            None => {
                return Err("beta QKD profile requires role".to_owned());
            },
        };
        if role != 1 && role != 2 {
            return Err("beta QKD profile role must be 1 or 2".to_owned());
        }
        Ok(BetaProfile { account_id, role })
    }
}

/// The identifier of the entity of a host.
pub open spec fn profile_sae(p: ProfileView) -> Seq<char> {
    "sae-"@ + text::decimal(p.role as nat)
}

/// The address of the key management entity of a host.
pub open spec fn profile_address(p: ProfileView) -> Seq<char> {
    "https://kme-"@ + text::decimal(p.role as nat) + ".acct-"@ + p.account_id
        + ".etsi-qkd-api.qukaydee.com/api/v1/keys"@
}

/// The files of a profile: the certificate of the server's authority, the certificate
/// and the private key of the entity.
pub open spec fn profile_files(dir: Seq<char>, p: ProfileView) -> Seq<Seq<char>> {
    seq![
        path_join(dir, "account-"@ + p.account_id + "-server-ca-qukaydee-com.crt"@),
        path_join(dir, profile_sae(p) + ".crt"@),
        path_join(dir, profile_sae(p) + ".key"@),
    ]
}

/// The complaint that a file of a profile is missing.
pub open spec fn missing_file(label: Seq<char>, path: Seq<char>) -> Seq<char> {
    "beta QKD profile "@ + label + " is missing: "@ + path
}

/// The configuration of a profile, once its address is read, or what is wrong.
/// `present` says which of its files are there.
pub open spec fn profile_config(
    dir: Seq<char>,
    p: ProfileView,
    url: Result<UrlView, Seq<char>>,
    present: Seq<bool>,
    timeout: Option<Seq<char>>,
) -> Result<ConfigView, Seq<char>> {
    let files = profile_files(dir, p);
    match url {
        Err(e) => Err("invalid beta QKD profile URL: "@ + e),
        Ok(u) => if !present[0] {
            Err(missing_file("server CA certificate"@, files[0]))
        } else if !present[1] {
            Err(missing_file("SAE certificate"@, files[1]))
        } else if !present[2] {
            Err(missing_file("SAE private key"@, files[2]))
        } else {
            Ok(
                ConfigView {
                    kme_base_url: u.url,
                    local_sae_id: profile_sae(p),
                    ca_certificate: Some(files[0]),
                    client_certificate: Some(files[1]),
                    client_private_key: Some(files[2]),
                    request_timeout: millis(timeout_millis(timeout)),
                    allow_insecure_http: false,
                },
            )
        },
    }
}

/// The paths of the three files of a profile.
pub struct ProfileFiles {
    pub ca_certificate: String,
    pub client_certificate: String,
    pub client_private_key: String,
}

/// What the paths of a profile's files are.
pub open spec fn files_view(f: ProfileFiles) -> Seq<Seq<char>> {
    seq![f.ca_certificate@, f.client_certificate@, f.client_private_key@]
}

/// The complaint that a file of a profile is missing.
fn file_missing(label: &str, path: &str) -> (r: String)
    ensures
        r@ == missing_file(label@, path@),
{
    let mut e = "beta QKD profile ".to_owned();
    e.append(label);
    e.append(" is missing: ");
    e.append(path);
    e
}

impl BetaProfile {
    /// The identifier of the entity of this host.
    pub fn sae_id(&self) -> (r: String)
        ensures
            r@ == profile_sae(self@),
    {
        let mut s = "sae-".to_owned();
        push_decimal(&mut s, self.role as u64);
        s
    }

    /// The address of the key management entity of this host.
    pub fn address(&self) -> (r: String)
        ensures
            r@ == profile_address(self@),
    {
        let mut s = "https://kme-".to_owned();
        push_decimal(&mut s, self.role as u64);
        s.append(".acct-");
        s.append(self.account_id.as_str());
        s.append(".etsi-qkd-api.qukaydee.com/api/v1/keys");
        s
    }

    /// The paths of the files of the profile.
    pub fn files(&self, dir: &str) -> (r: ProfileFiles)
        ensures
            files_view(r) == profile_files(dir@, self@),
    {
        let mut ca = "account-".to_owned();
        ca.append(self.account_id.as_str());
        ca.append("-server-ca-qukaydee-com.crt");
        let mut certificate = self.sae_id();
        certificate.append(".crt");
        let mut key = self.sae_id();
        key.append(".key");
        ProfileFiles {
            ca_certificate: join_path(dir, ca.as_str()),
            client_certificate: join_path(dir, certificate.as_str()),
            client_private_key: join_path(dir, key.as_str()),
        }
    }
}

impl QkdConfig {
    /// The configuration that the variables spell, once the URL is read.
    pub fn from_parts(env: &QkdEnvironment, url: Result<UrlParts, String>) -> (r: Result<
        QkdConfig,
        String,
    >)
        ensures
            config_result(r) == explicit_config(env@, url_result(url)),
    {
        let u = match url {
            Ok(u) => u,
            Err(e) => {
                let mut m = "invalid AXON_QKD_KME_BASE_URL: ".to_owned();
                m.append(e.as_str());
                return Err(m);
            },
        };
        let local_sae_id = required_env("AXON_QKD_LOCAL_SAE_ID", &env.local_sae_id)?;
        validate_identifier("AXON_QKD_LOCAL_SAE_ID", local_sae_id.as_str(), MAX_SAE_ID_LEN)?;
        let allow_insecure_http = env_bool(&env.allow_insecure_http, false);
        let https = text_equal(u.scheme.as_str(), "https");
        if !https && !allow_insecure_http {
            return Err(
                "AXON_QKD_KME_BASE_URL must use https (set AXON_QKD_ALLOW_INSECURE_HTTP=1 only for local tests)".to_owned(),
            );
        }
        let ca_certificate = optional_path(&env.ca_certificate);
        let client_certificate = optional_path(&env.client_certificate);
        let client_private_key = optional_path(&env.client_private_key);
        if https && (ca_certificate.is_none() || client_certificate.is_none()
            || client_private_key.is_none()) {
            return Err(
                "QKD HTTPS requires AXON_QKD_CA_CERT, AXON_QKD_CLIENT_CERT, and AXON_QKD_CLIENT_KEY".to_owned(),
            );
        }
        Ok(
            QkdConfig {
                kme_base_url: u.url,
                local_sae_id,
                ca_certificate,
                client_certificate,
                client_private_key,
                request_timeout: qkd_request_timeout(&env.request_timeout_ms),
                allow_insecure_http,
            },
        )
    }

    /// The configuration that the variables spell.
    pub fn from_explicit_env(env: &QkdEnvironment) -> (r: Result<QkdConfig, String>)
        ensures
            config_result(r) == env_config(env@),
    {
        let base = required_env("AXON_QKD_KME_BASE_URL", &env.kme_base_url)?;
        Self::from_parts(env, parse_url(base.as_str()))
    }

    /// The configuration of a profile, once its address is read. `present` says which
    /// of its three files are there.
    pub fn from_profile(
        dir: &str,
        profile: &BetaProfile,
        url: Result<UrlParts, String>,
        present: &[bool; 3],
        timeout: &Option<String>,
    ) -> (r: Result<QkdConfig, String>)
        ensures
            config_result(r) == profile_config(
                dir@,
                profile@,
                url_result(url),
                present@,
                opt_text(*timeout),
            ),
    {
        let u = match url {
            Ok(u) => u,
            Err(e) => {
                let mut m = "invalid beta QKD profile URL: ".to_owned();
                m.append(e.as_str());
                return Err(m);
            },
        };
        let files = profile.files(dir);
        proof {
            let v = files_view(files);
            assert(v[0] == files.ca_certificate@);
            assert(v[1] == files.client_certificate@);
            assert(v[2] == files.client_private_key@);
        }
        if !present[0] {
            return Err(file_missing("server CA certificate", files.ca_certificate.as_str()));
        }
        if !present[1] {
            return Err(file_missing("SAE certificate", files.client_certificate.as_str()));
        }
        if !present[2] {
            return Err(file_missing("SAE private key", files.client_private_key.as_str()));
        }
        Ok(
            QkdConfig {
                kme_base_url: u.url,
                local_sae_id: profile.sae_id(),
                ca_certificate: Some(files.ca_certificate),
                client_certificate: Some(files.client_certificate),
                client_private_key: Some(files.client_private_key),
                request_timeout: qkd_request_timeout(timeout),
                allow_insecure_http: false,
            },
        )
    }

    /// The configuration of the profile in a directory, whose text is `contents`.
    pub fn from_beta_profile_dir(
        dir: &str,
        contents: &str,
        present: &[bool; 3],
        timeout: &Option<String>,
    ) -> (r: Result<QkdConfig, String>)
        ensures
            config_result(r) == (match profile_of(contents@) {
                Err(e) => Err(e),
                Ok(p) => profile_config(
                    dir@,
                    p,
                    url_of(profile_address(p)),
                    present@,
                    opt_text(*timeout),
                ),
            }),
    {
        let profile = BetaProfile::parse(contents)?;
        let url = parse_url(profile.address().as_str());
        Self::from_profile(dir, &profile, url, present, timeout)
    }
}

/// The profile directory of the installation that a program belongs to.
pub open spec fn installed_profile(executable: Seq<char>) -> Option<Seq<char>> {
    match path_parent(executable) {
        None => None,
        Some(dir) => match path_parent(dir) {
            None => None,
            Some(prefix) => Some(path_join(prefix, "share/rmw_axon/qkd"@)),
        },
    }
}

/// The profile directory of the installation that a program belongs to.
pub fn installed_profile_dir(executable: &str) -> (r: Option<String>)
    ensures
        opt_text(r) == installed_profile(executable@),
{
    let dir = parent_of(executable)?;
    let prefix = parent_of(dir.as_str())?;
    Some(join_path(prefix.as_str(), "share/rmw_axon/qkd"))
}

/// Whether a directory is in a list.
pub open spec fn listed(dirs: Seq<Seq<char>>, dir: Seq<char>) -> bool {
    exists|i: int| 0 <= i < dirs.len() && same_path(#[trigger] dirs[i], dir)
}

/// The list with a directory at its end, unless it is in it.
pub open spec fn with_dir(dirs: Seq<Seq<char>>, dir: Seq<char>) -> Seq<Seq<char>> {
    if listed(dirs, dir) {
        dirs
    } else {
        dirs.push(dir)
    }
}

/// The list with the profile directories below some prefixes.
pub open spec fn with_prefixes(dirs: Seq<Seq<char>>, prefixes: Seq<Seq<char>>) -> Seq<Seq<char>>
    decreases prefixes.len(),
{
    if prefixes.len() == 0 {
        dirs
    } else {
        with_dir(
            with_prefixes(dirs, prefixes.drop_last()),
            path_join(prefixes.last(), "share/rmw_axon/qkd"@),
        )
    }
}

/// The list with the profile directory of a program's installation.
pub open spec fn with_installed(dirs: Seq<Seq<char>>, program: Option<Seq<char>>) -> Seq<Seq<char>> {
    match program {
        None => dirs,
        Some(p) => match installed_profile(p) {
            None => dirs,
            Some(dir) => with_dir(dirs, dir),
        },
    }
}

/// Adds a directory to a list, unless it is in it.
pub fn push_unique_profile_dir(profile_dirs: &mut Vec<String>, profile_dir: String)
    ensures
        text::texts(final(profile_dirs)@) == with_dir(text::texts(old(profile_dirs)@), profile_dir@),
{
    let mut i: usize = 0;
    while i < profile_dirs.len()
        invariant
            i <= profile_dirs@.len(),
            *profile_dirs == *old(profile_dirs),
            forall|k: int|
                0 <= k < i ==> !same_path(#[trigger] text::texts(profile_dirs@)[k], profile_dir@),
        decreases profile_dirs.len() - i,
    {
        proof {
            assert(text::texts(profile_dirs@)[i as int] == profile_dirs@[i as int]@);
        }
        if paths_equal(profile_dirs[i].as_str(), profile_dir.as_str()) {
            return ;
        }
        i += 1;
    }
    let ghost had = text::texts(profile_dirs@);
    let ghost added = profile_dir@;
    profile_dirs.push(profile_dir);
    proof {
        assert(text::texts(profile_dirs@) =~= had.push(added));
    }
}

/// Adds the profile directories below some prefixes.
fn push_prefixes(dirs: &mut Vec<String>, prefixes: &Vec<String>)
    ensures
        text::texts(final(dirs)@) == with_prefixes(text::texts(old(dirs)@), text::texts(prefixes@)),
{
    let ghost all = text::texts(prefixes@);
    let mut i: usize = 0;
    proof {
        assert(all.subrange(0, 0) =~= Seq::empty());
    }
    while i < prefixes.len()
        invariant
            i <= prefixes@.len(),
            all == text::texts(prefixes@),
            text::texts(dirs@) == with_prefixes(text::texts(old(dirs)@), all.subrange(0, i as int)),
        decreases prefixes.len() - i,
    {
        proof {
            assert(all.subrange(0, i + 1).drop_last() =~= all.subrange(0, i as int));
        }
        push_unique_profile_dir(dirs, join_path(prefixes[i].as_str(), "share/rmw_axon/qkd"));
        i += 1;
    }
    proof {
        assert(all.subrange(0, i as int) =~= all);
    }
}

/// Adds the profile directory of a program's installation.
fn push_installed(dirs: &mut Vec<String>, program: &Option<String>)
    ensures
        text::texts(final(dirs)@) == with_installed(text::texts(old(dirs)@), opt_text(*program)),
{
    if let Some(p) = program {
        if let Some(dir) = installed_profile_dir(p.as_str()) {
            push_unique_profile_dir(dirs, dir);
        }
    }
}

/// Where a profile may be: what the environment says of it.
pub struct ProfileSearch {
    /// The directory that the variable for it names.
    pub profile_dir: Option<String>,
    pub home: Option<String>,
    /// The path of the daemon that the variable for it names.
    pub daemon_path: Option<String>,
    /// The prefixes of the two overlays, the one after the other.
    pub ament_prefixes: Vec<String>,
    pub colcon_prefixes: Vec<String>,
    /// The path of this program.
    pub executable: Option<String>,
}

/// The directories in which a profile is looked for, in their order.
pub open spec fn search_dirs(p: ProfileSearch) -> Seq<Seq<char>> {
    match setting(opt_text(p.profile_dir)) {
        Some(dir) => seq![dir],
        None => {
            let d0 = match opt_text(p.home) {
                Some(home) => with_dir(Seq::empty(), path_join(home, ".config/axon/qkd"@)),
                None => Seq::empty(),
            };
            let d1 = with_installed(d0, setting(opt_text(p.daemon_path)));
            let d2 = with_prefixes(d1, text::texts(p.ament_prefixes@));
            let d3 = with_prefixes(d2, text::texts(p.colcon_prefixes@));
            with_installed(d3, opt_text(p.executable))
        },
    }
}

/// The directories in which a profile is looked for.
pub fn beta_profile_dirs(search: &ProfileSearch) -> (r: Vec<String>)
    ensures
        text::texts(r@) == search_dirs(*search),
{
    let mut dirs: Vec<String> = Vec::new();
    proof {
        assert(text::texts(dirs@) =~= Seq::empty());
    }
    if let Some(dir) = optional_path(&search.profile_dir) {
        let ghost d = dir@;
        dirs.push(dir);
        proof {
            assert(text::texts(dirs@) =~= seq![d]);
        }
        return dirs;
    }
    if let Some(home) = &search.home {
        push_unique_profile_dir(&mut dirs, join_path(home.as_str(), ".config/axon/qkd"));
    }
    let daemon = optional_path(&search.daemon_path);
    push_installed(&mut dirs, &daemon);
    push_prefixes(&mut dirs, &search.ament_prefixes);
    push_prefixes(&mut dirs, &search.colcon_prefixes);
    push_installed(&mut dirs, &search.executable);
    dirs
}

/// Texts with a comma and a space between them.
pub open spec fn comma_list(s: Seq<Seq<char>>) -> Seq<char>
    decreases s.len(),
{
    if s.len() == 0 {
        Seq::empty()
    } else if s.len() == 1 {
        s[0]
    } else {
        comma_list(s.drop_last()) + ", "@ + s.last()
    }
}

/// The first directory that holds a profile.
pub open spec fn first_present(present: Seq<bool>, from: int) -> Option<int>
    decreases present.len() - from,
{
    if from < 0 || from >= present.len() {
        None
    } else if present[from] {
        Some(from)
    } else {
        first_present(present, from + 1)
    }
}

/// The first of the directories that holds a profile; `present` says which do.
pub fn choose_profile_dir(dirs: &Vec<String>, present: &[bool]) -> (r: Result<usize, String>)
    requires
        dirs@.len() == present@.len(),
    ensures
        match r {
            Ok(i) => first_present(present@, 0) == Some(i as int),
            Err(e) => first_present(present@, 0) is None && e@
                == "QKD configuration is missing: set the AXON_QKD_* variables or install a beta profile (searched: "@
                + comma_list(text::texts(dirs@)) + ")"@,
        },
{
    let mut i: usize = 0;
    while i < present.len()
        invariant
            i <= present@.len(),
            first_present(present@, 0) == first_present(present@, i as int),
        decreases present.len() - i,
    {
        if present[i] {
            return Ok(i);
        }
        i += 1;
    }
    let mut searched = String::new();
    let ghost all = text::texts(dirs@);
    let mut k: usize = 0;
    proof {
        assert(all.subrange(0, 0) =~= Seq::empty());
    }
    while k < dirs.len()
        invariant
            k <= dirs@.len(),
            all == text::texts(dirs@),
            searched@ == comma_list(all.subrange(0, k as int)),
        decreases dirs.len() - k,
    {
        proof {
            assert(all.subrange(0, k + 1).drop_last() =~= all.subrange(0, k as int));
        }
        if k > 0 {
            searched.append(", ");
        }
        searched.append(dirs[k].as_str());
        k += 1;
        proof {
            assert(searched@ =~= comma_list(all.subrange(0, k as int)));
        }
    }
    proof {
        assert(all.subrange(0, k as int) =~= all);
    }
    let mut e = "QKD configuration is missing: set the AXON_QKD_* variables or install a beta profile (searched: ".to_owned();
    e.append(searched.as_str());
    e.append(")");
    Err(e)
}

/// A variable counts as set exactly if anything but white space is in it, and its value
/// then neither starts nor ends with white space.
pub proof fn law_set_exactly(v: Seq<char>)
    ensures
        setting(None) is None,
        setting(Some(v)) is None <==> forall|i: int| 0 <= i < v.len() ==> text::is_white(#[trigger] v[i]),
        setting(Some(v)) matches Some(t) ==> t.len() > 0 && t == text::trimmed(v) && !text::is_white(
            t[0],
        ) && !text::is_white(t.last()),
{
    text::law_trimmed_exactly(v);
    let t = text::trimmed(v);
    let (a, b) = choose|a: int, b: int|
        0 <= a <= b <= v.len() && t == #[trigger] v.subrange(a, b) && (forall|i: int|
            0 <= i < a ==> text::is_white(#[trigger] v[i])) && (forall|i: int|
            b <= i < v.len() ==> text::is_white(#[trigger] v[i]));
    if t.len() > 0 {
        assert(t[0] == v[a]);
        assert(!text::is_white(v[a]));
    } else {
        assert(a == b);
    }
}

/// In lower case a text keeps its length and all but the 26 capitals of ASCII, each of
/// which becomes the small letter 32 places on. Doing it again changes nothing.
pub proof fn law_lower_case(s: Seq<char>)
    ensures
        lowered(s).len() == s.len(),
        lowered(lowered(s)) == lowered(s),
        forall|i: int|
            #![trigger lowered(s)[i]]
            0 <= i < s.len() ==> if 65 <= s[i] as u32 <= 90 {
                lowered(s)[i] as u32 == s[i] as u32 + 32
            } else {
                lowered(s)[i] == s[i]
            },
{
    assert(lowered(lowered(s)) =~= lowered(s));
}

/// A variable that is set says yes exactly by `1`, `true`, `yes` or `on`, with white space
/// around it and in capitals or not; one that is not set says what is said by default.
pub proof fn law_yes_exactly(v: Seq<char>, default: bool)
    ensures
        says_yes(None, default) == default,
        says_yes(Some(v), default) <==> ({
            let t = lowered(text::trimmed(v));
            t == seq!['1'] || t == seq!['t', 'r', 'u', 'e'] || t == seq!['y', 'e', 's'] || t
                == seq!['o', 'n']
        }),
        says_yes(Some(v), default) == says_yes(Some(v), !default),
{
    reveal_strlit("1");
    reveal_strlit("true");
    reveal_strlit("yes");
    reveal_strlit("on");
    assert("1"@ =~= seq!['1']);
    assert("true"@ =~= seq!['t', 'r', 'u', 'e']);
    assert("yes"@ =~= seq!['y', 'e', 's']);
    assert("on"@ =~= seq!['o', 'n']);
}

/// A number that is set is taken where it lies between the bounds, else the bound that it
/// passes; one that cannot be read counts as not set. A greater number never gives a
/// lesser one.
pub proof fn law_number_between_bounds(
    v: Option<Seq<char>>,
    w: Option<Seq<char>>,
    max: nat,
    default: int,
    low: int,
    high: int,
)
    requires
        low <= default <= high,
    ensures
        low <= number_setting(v, max, default, low, high) <= high,
        v is None ==> number_setting(v, max, default, low, high) == default,
        v matches Some(s) ==> (text::unsigned_value(s, max) is None ==> number_setting(
            v,
            max,
            default,
            low,
            high,
        ) == default),
        v matches Some(s) ==> (text::unsigned_value(s, max) matches Some(n) ==> (low <= n <= high
            ==> number_setting(v, max, default, low, high) == n) && (n < low ==> number_setting(
            v,
            max,
            default,
            low,
            high,
        ) == low) && (n > high ==> number_setting(v, max, default, low, high) == high)),
        (v matches Some(s) && text::unsigned_value(s, max) is Some) && (w matches Some(t)
            && text::unsigned_value(t, max) is Some) && text::unsigned_value(v->0, max)->0
            <= text::unsigned_value(w->0, max)->0 ==> number_setting(v, max, default, low, high)
            <= number_setting(w, max, default, low, high),
{
}

/// A request may take three seconds where nothing is set, and between a tenth of a second
/// and a minute whatever is set: what is set in milliseconds where that lies between.
pub proof fn law_request_time(v: Option<Seq<char>>)
    ensures
        v is None ==> millis(timeout_millis(v)).total() == 3_000_000_000,
        100_000_000 <= millis(timeout_millis(v)).total() <= 60_000_000_000,
        millis(timeout_millis(v)).wf(),
        v matches Some(s) ==> (text::unsigned_value(s, 0xffff_ffff_ffff_ffff) matches Some(n) ==> (
        100 <= n <= 60_000 ==> millis(timeout_millis(v)).total() == n * 1_000_000)),
        v matches Some(s) ==> (text::unsigned_value(s, 0xffff_ffff_ffff_ffff) is None ==> millis(
            timeout_millis(v),
        ).total() == 3_000_000_000),
{
}

/// A key management entity is reached exactly over HTTPS with all three of the authority's
/// certificate, an own certificate and its key, or over HTTP where that is allowed.
pub proof fn law_reached_exactly(
    scheme: Seq<char>,
    ca: bool,
    certificate: bool,
    key: bool,
    allow_insecure_http: bool,
)
    ensures
        endpoint_fault(scheme, ca, certificate, key, allow_insecure_http) is None <==> (scheme
            == seq!['h', 't', 't', 'p', 's'] && ca && certificate && key) || (scheme == seq![
            'h',
            't',
            't',
            'p',
        ] && allow_insecure_http),
{
    reveal_strlit("https");
    reveal_strlit("http");
    assert("https"@ =~= seq!['h', 't', 't', 'p', 's']);
    assert("http"@ =~= seq!['h', 't', 't', 'p']);
    assert("https"@.len() == 5 && "http"@.len() == 4);
}

/// A certificate and its key stand one behind the other, parted by the end of a line: one
/// is put in exactly where the certificate does not bring it.
pub proof fn law_identity_parts(certificate: Seq<u8>, key: Seq<u8>)
    ensures
        ({
            let b = identity_bytes(certificate, key);
            let at = b.len() - key.len();
            &&& at >= 1
            &&& b[at - 1] == 10
            &&& b.subrange(at, b.len() as int) == key
            &&& certificate.is_prefix_of(b)
            &&& certificate.len() <= at <= certificate.len() + 1
            &&& certificate.len() > 0 && certificate.last() == 10 ==> at == certificate.len()
        }),
{
    let b = identity_bytes(certificate, key);
    let at = b.len() - key.len();
    assert(b.subrange(at, b.len() as int) =~= key);
    assert(b.subrange(0, certificate.len() as int) =~= certificate);
}

/// A configuration made of variables holds what they say: the address as it was read, the
/// entity's identifier, each certificate and key under its own name, and the time limit.
/// Over anything but HTTPS it is made only where that is allowed, and over HTTPS only with
/// all certificates.
pub proof fn law_configuration_of_variables(env: EnvironmentView, url: Result<UrlView, Seq<char>>)
    ensures
        explicit_config(env, url) matches Ok(c) ==> {
            &&& url matches Ok(u) && c.kme_base_url == u.url
            &&& Some(c.local_sae_id) == setting(env.local_sae_id)
            &&& keys::identifier_ok(c.local_sae_id, 128)
            &&& c.ca_certificate == setting(env.ca_certificate)
            &&& c.client_certificate == setting(env.client_certificate)
            &&& c.client_private_key == setting(env.client_private_key)
            &&& c.allow_insecure_http == says_yes(env.allow_insecure_http, false)
            &&& c.request_timeout == millis(timeout_millis(env.request_timeout_ms))
            &&& url->Ok_0.scheme == seq!['h', 't', 't', 'p', 's'] ==> c.ca_certificate is Some
                && c.client_certificate is Some && c.client_private_key is Some
            &&& url->Ok_0.scheme != seq!['h', 't', 't', 'p', 's'] ==> c.allow_insecure_http
        },
        explicit_config(env, url) is Ok <==> (url matches Ok(u) && (setting(
            env.local_sae_id,
        ) matches Some(id) && keys::identifier_ok(id, 128)) && if u.scheme == seq![
            'h',
            't',
            't',
            'p',
            's',
        ] {
            setting(env.ca_certificate) is Some && setting(env.client_certificate) is Some
                && setting(env.client_private_key) is Some
        } else {
            says_yes(env.allow_insecure_http, false)
        }),
{
    reveal_strlit("https");
    assert("https"@ =~= seq!['h', 't', 't', 'p', 's']);
    if let Some(id) = setting(env.local_sae_id) {
        keys::law_identifier_is_accepted_exactly("AXON_QKD_LOCAL_SAE_ID"@, id, 128);
    }
}

/// Without an address there is no configuration, and with one it is that address that is
/// read.
pub proof fn law_configuration_needs_an_address(env: EnvironmentView)
    ensures
        env_config(env) matches Ok(c) ==> (setting(env.kme_base_url) matches Some(base) && (url_of(
            base,
        ) matches Ok(u) && c.kme_base_url == u.url)),
{
}

/// A line of a profile sets the field that stands in front of its first equals sign to
/// what stands behind it, both without white space around them, and leaves the other
/// field. Empty lines and those that start with a number sign set nothing, and a line
/// with any other name is refused.
pub proof fn law_profile_line(name: Seq<char>, value: Seq<char>, f: FieldsView)
    requires
        !name.contains('='),
        name.len() > 0 ==> name[0] != '#',
    ensures
        ({
            let line = name.push('=') + value;
            let n = text::trimmed(name);
            let v = text::trimmed(value);
            &&& n == "account_id"@ ==> take_line(line, f) == Ok::<_, Seq<char>>(
                FieldsView { account_id: Some(v), role: f.role },
            )
            &&& n == "role"@ ==> match text::unsigned_value(v, 255) {
                Some(r) => take_line(line, f) == Ok::<_, Seq<char>>(
                    FieldsView { account_id: f.account_id, role: Some(r as u8) },
                ),
                None => take_line(line, f) is Err,
            }
            &&& n != "account_id"@ && n != "role"@ ==> take_line(line, f) is Err
        }),
{
    let line = name.push('=') + value;
    reveal_strlit("account_id");
    reveal_strlit("role");
    assert("account_id"@.len() == 10 && "role"@.len() == 4);
    text::law_places_of_a_character(line, '=');
    assert(line[name.len() as int] == '=');
    assert(line.contains('='));
    let i = text::first_index(line, '=')->0;
    if i < name.len() {
        assert(name[i] == '=');
    }
    assert(i == name.len());
    assert(line.subrange(0, i) =~= name);
    assert(line.subrange(i + 1, line.len() as int) =~= value);
    assert(line[0] == if name.len() > 0 { name[0] } else { '=' });
}

/// Lines of a profile that set nothing: empty ones and those that start with a number
/// sign. Any other without an equals sign is refused.
pub proof fn law_profile_comment(line: Seq<char>, f: FieldsView)
    ensures
        line.len() == 0 || line[0] == '#' ==> take_line(line, f) == Ok::<_, Seq<char>>(f),
        line.len() > 0 && line[0] != '#' && !line.contains('=') ==> take_line(line, f) is Err,
{
    text::law_places_of_a_character(line, '=');
}

/// Lines are taken one after the other from the first on, and the first that is wrong
/// decides.
pub proof fn law_profile_lines_in_order(line: Seq<char>, rest: Seq<char>, f: FieldsView)
    requires
        !line.contains('\n'),
    ensures
        take_lines(line, f) == take_line(text::trimmed(line), f),
        take_lines(line.push('\n') + rest, f) == match take_line(text::trimmed(line), f) {
            Err(e) => Err(e),
            Ok(g) => take_lines(rest, g),
        },
{
    let s = line.push('\n') + rest;
    text::law_places_of_a_character(line, '\n');
    text::law_places_of_a_character(s, '\n');
    assert(s[line.len() as int] == '\n');
    assert(s.contains('\n'));
    let i = text::first_index(s, '\n')->0;
    if i < line.len() {
        assert(line[i] == '\n');
    }
    assert(i == line.len());
    assert(s.subrange(0, i) =~= line);
    assert(s.subrange(i + 1, s.len() as int) =~= rest);
}

/// A profile that is read names an account in digits and the first or the second host.
pub proof fn law_profile_is_sound(s: Seq<char>)
    ensures
        profile_of(s) matches Ok(p) ==> (p.role == 1 || p.role == 2) && p.account_id.len() > 0 && (
        forall|i: int|
            0 <= i < p.account_id.len() ==> '0' <= #[trigger] p.account_id[i] <= '9'),
        profile_of(s) matches Ok(p) ==> take_lines(
            s,
            FieldsView { account_id: None, role: None },
        ) == Ok::<_, Seq<char>>(
            FieldsView { account_id: Some(p.account_id), role: Some(p.role) },
        ),
{
}

/// The entity of a host is told by the host's number, and the two hosts of an account have
/// different entities and addresses.
pub proof fn law_hosts_differ(p: ProfileView, q: ProfileView)
    requires
        p.role < 10,
        q.role < 10,
        p.role != q.role,
        p.account_id == q.account_id,
    ensures
        profile_sae(p) == seq!['s', 'a', 'e', '-', ('0' as u8 + p.role) as u8 as char],
        profile_sae(p) != profile_sae(q),
        profile_address(p) != profile_address(q),
{
    reveal_strlit("sae-");
    reveal_strlit("https://kme-");
    assert(text::decimal(p.role as nat) =~= seq![('0' as u8 + p.role) as u8 as char]);
    assert(text::decimal(q.role as nat) =~= seq![('0' as u8 + q.role) as u8 as char]);
    assert(profile_sae(p) =~= seq!['s', 'a', 'e', '-', ('0' as u8 + p.role) as u8 as char]);
    assert(profile_sae(p)[4] != profile_sae(q)[4]);
    assert("https://kme-"@.len() == 12);
    assert(profile_address(p)[12] == ('0' as u8 + p.role) as u8 as char);
    assert(profile_address(q)[12] == ('0' as u8 + q.role) as u8 as char);
}

/// A configuration is made of a profile exactly if its address can be read and its three
/// files are there. It is then for the profile's entity at that address, never without
/// encryption, with each file in its own place.
pub proof fn law_configuration_of_a_profile(
    dir: Seq<char>,
    p: ProfileView,
    url: Result<UrlView, Seq<char>>,
    present: Seq<bool>,
    timeout: Option<Seq<char>>,
)
    requires
        present.len() == 3,
    ensures
        profile_config(dir, p, url, present, timeout) is Ok <==> url is Ok && present[0]
            && present[1] && present[2],
        profile_config(dir, p, url, present, timeout) matches Ok(c) ==> {
            &&& c.kme_base_url == url->Ok_0.url
            &&& c.local_sae_id == profile_sae(p)
            &&& c.ca_certificate == Some(
                path_join(dir, "account-"@ + p.account_id + "-server-ca-qukaydee-com.crt"@),
            )
            &&& c.client_certificate == Some(path_join(dir, profile_sae(p) + ".crt"@))
            &&& c.client_private_key == Some(path_join(dir, profile_sae(p) + ".key"@))
            &&& c.request_timeout == millis(timeout_millis(timeout))
            &&& !c.allow_insecure_http
        },
{
}

/// A directory is added behind those that are listed, which keep their places, unless one
/// of them is the same.
pub proof fn law_directory_is_added_once(dirs: Seq<Seq<char>>, dir: Seq<char>)
    ensures
        dirs.is_prefix_of(with_dir(dirs, dir)),
        (exists|i: int| 0 <= i < dirs.len() && same_path(#[trigger] dirs[i], dir)) ==> with_dir(
            dirs,
            dir,
        ) == dirs,
        !(exists|i: int| 0 <= i < dirs.len() && same_path(#[trigger] dirs[i], dir)) ==> with_dir(
            dirs,
            dir,
        ).len() == dirs.len() + 1 && with_dir(dirs, dir).last() == dir,
{
    assert(with_dir(dirs, dir).subrange(0, dirs.len() as int) =~= dirs);
}

/// The directories below some prefixes are added in the order of the prefixes, behind
/// those that are listed, and nothing else is.
pub proof fn law_prefixes_in_order(
    dirs: Seq<Seq<char>>,
    a: Seq<Seq<char>>,
    b: Seq<Seq<char>>,
)
    ensures
        with_prefixes(dirs, a + b) == with_prefixes(with_prefixes(dirs, a), b),
        a.len() == 1 ==> with_prefixes(dirs, a) == with_dir(
            dirs,
            path_join(a[0], "share/rmw_axon/qkd"@),
        ),
        dirs.is_prefix_of(with_prefixes(dirs, b)),
    decreases b.len(),
{
    if a.len() == 1 {
        assert(a.drop_last().len() == 0);
        assert(with_prefixes(dirs, a.drop_last()) == dirs);
    }
    if b.len() == 0 {
        assert(a + b =~= a);
        assert(dirs.subrange(0, dirs.len() as int) =~= dirs);
    } else {
        law_prefixes_in_order(dirs, a, b.drop_last());
        assert((a + b).drop_last() =~= a + b.drop_last());
        let before = with_prefixes(dirs, b.drop_last());
        law_directory_is_added_once(before, path_join(b.last(), "share/rmw_axon/qkd"@));
        assert(with_prefixes(dirs, b).subrange(0, dirs.len() as int) =~= dirs);
    }
}

/// A directory that is set is the only one that is searched. Else the home directory's
/// comes before all others.
pub proof fn law_set_directory_is_the_only_one(p: ProfileSearch)
    ensures
        setting(opt_text(p.profile_dir)) matches Some(dir) ==> search_dirs(p) == seq![dir],
        setting(opt_text(p.profile_dir)) is None ==> (opt_text(p.home) matches Some(home)
            ==> search_dirs(p).len() > 0 && search_dirs(p)[0] == path_join(
            home,
            ".config/axon/qkd"@,
        )),
{
    if setting(opt_text(p.profile_dir)) is None && opt_text(p.home) is Some {
        let home = opt_text(p.home)->0;
        let d0 = with_dir(Seq::empty(), path_join(home, ".config/axon/qkd"@));
        let d1 = with_installed(d0, setting(opt_text(p.daemon_path)));
        let d2 = with_prefixes(d1, text::texts(p.ament_prefixes@));
        let d3 = with_prefixes(d2, text::texts(p.colcon_prefixes@));
        assert(d0[0] == path_join(home, ".config/axon/qkd"@));
        law_prefixes_in_order(d1, Seq::empty(), text::texts(p.ament_prefixes@));
        law_prefixes_in_order(d2, Seq::empty(), text::texts(p.colcon_prefixes@));
        assert(d1[0] == d0[0]);
        assert(d2.subrange(0, d1.len() as int)[0] == d2[0]);
        assert(d3.subrange(0, d2.len() as int)[0] == d3[0]);
    }
}

/// The directory that is chosen is the first that holds a profile, and none is chosen
/// exactly if none does.
pub proof fn law_first_profile_is_chosen(present: Seq<bool>, from: int)
    requires
        0 <= from,
    ensures
        match first_present(present, from) {
            Some(i) => from <= i < present.len() && present[i] && forall|k: int|
                from <= k < i ==> !#[trigger] present[k],
            None => forall|k: int| from <= k < present.len() ==> !#[trigger] present[k],
        },
    decreases present.len() - from,
{
    if from < present.len() {
        law_first_profile_is_chosen(present, from + 1);
    }
}

/// Texts in a list stand in their order with a comma and a blank between each two.
pub proof fn law_listed_with_commas(s: Seq<Seq<char>>, t: Seq<char>)
    ensures
        comma_list(seq![t]) == t,
        s.len() > 0 ==> comma_list(s.push(t)) == comma_list(s) + seq![',', ' '] + t,
{
    reveal_strlit(", ");
    assert(", "@ =~= seq![',', ' ']);
    assert(s.push(t).drop_last() =~= s);
}

/// The address of an operation is the base with two more segments, first the peer's
/// identifier and then the operation, and only for a peer that can be named.
pub proof fn law_operation_address(base: Seq<char>, peer: Seq<char>, operation: Seq<char>)
    ensures
        operation_address(base, peer, operation) matches Ok(u) ==> keys::identifier_ok(peer, 128) && (
        url_trimmed(base) matches Some(t) && (url_with_segment(t, peer) matches Some(v)
            && url_with_segment(v, operation) == Some(u))),
        !keys::identifier_ok(peer, 128) ==> operation_address(base, peer, operation) is Err,
{
    keys::law_identifier_is_accepted_exactly("peer SAE ID"@, peer, 128);
}

/// A new key is asked for as one key of 256 bits, and a key that a peer has taken by its
/// own identifier, which must be one that can be named.
pub proof fn law_key_addresses(base: Seq<char>, peer: Seq<char>, key_id: Seq<char>)
    ensures
        enc_address(base, peer) matches Ok(u) ==> (operation_address(
            base,
            peer,
            "enc_keys"@,
        ) matches Ok(a) && (url_with_pair(a, "number"@, seq!['1']) matches Some(b)
            && url_with_pair(b, "size"@, seq!['2', '5', '6']) == Some(u))),
        dec_address(base, peer, key_id) matches Ok(u) ==> keys::identifier_ok(key_id, 192) && (
        operation_address(base, peer, "dec_keys"@) matches Ok(a) && url_with_pair(
            a,
            "key_ID"@,
            key_id,
        ) == Some(u)),
        !keys::identifier_ok(key_id, 192) ==> dec_address(base, peer, key_id) is Err,
        !keys::identifier_ok(peer, 128) ==> enc_address(base, peer) is Err && dec_address(
            base,
            peer,
            key_id,
        ) is Err,
{
    reveal_strlit("1");
    reveal_strlit("256");
    assert("1"@ =~= seq!['1']);
    assert("256"@ =~= seq!['2', '5', '6']);
    keys::law_identifier_is_accepted_exactly("peer SAE ID"@, peer, 128);
    keys::law_identifier_is_accepted_exactly("QKD key_ID"@, key_id, 192);
}

/// The profile of an installation lies below the directory that holds the one of its
/// program.
pub proof fn law_installed_profile(executable: Seq<char>)
    ensures
        installed_profile(executable) is Some <==> (path_parent(executable) matches Some(dir)
            && path_parent(dir) is Some),
        installed_profile(executable) matches Some(p) ==> p == path_join(
            path_parent(path_parent(executable)->0)->0,
            "share/rmw_axon/qkd"@,
        ),
{
}

} // verus!
