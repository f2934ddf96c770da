//! Tracing set-up decisions: the log format in force, whether spans are
//! exported over OTLP and under which service name, and the W3C
//! `traceparent` minted for requests that arrive without one.
use vstd::prelude::*;
use rand::Rng;
use crate::text::{chars_of, string_of, chars_eq, extend_chars, to_lower_vec, lower_seq};
use crate::config::LogFormat;
use crate::ws::{hex_digits, push_hex, random_u128};

verus! {

/// The format in force: the `RUUTER_LOG_FORMAT` override (`json`,
/// `text`, `pretty`, any case) when it names one, else the configured
/// one.
pub open spec fn spec_resolve_format(config_format: LogFormat, env: Option<Seq<char>>) -> LogFormat {
    match env {
        Some(v) => if lower_seq(v) == "json"@ { LogFormat::Json }
            else if lower_seq(v) == "text"@ { LogFormat::Text }
            else if lower_seq(v) == "pretty"@ { LogFormat::Pretty }
            else { config_format },
        None => config_format,
    }
}

pub fn resolve_format(config_format: LogFormat, env: &Option<String>) -> (r: LogFormat)
    ensures
        r == spec_resolve_format(config_format, match env { Some(s) => Some(s@), None => None }),
{
    match env {
        Some(v) => {
            let l = to_lower_vec(chars_of(v.as_str()).as_slice());
            if chars_eq(l.as_slice(), chars_of("json").as_slice()) { LogFormat::Json }
            else if chars_eq(l.as_slice(), chars_of("text").as_slice()) { LogFormat::Text }
            else if chars_eq(l.as_slice(), chars_of("pretty").as_slice()) { LogFormat::Pretty }
            else { config_format }
        },
        None => config_format,
    }
}

/// The OTLP endpoint: the variable's value unless empty.
pub fn otlp_endpoint(env: Option<String>) -> (r: Option<String>)
    ensures
        match env {
            Some(s) => if s@.len() > 0 { r matches Some(t) && t@ == s@ } else { r is None },
            None => r is None,
        },
{
    match env {
        Some(s) => if s.as_str().unicode_len() > 0 { Some(s) } else { None },
        None => None,
    }
}

/// The service name spans carry: `OTEL_SERVICE_NAME`, else
/// `ruuter-on-rust`.
pub fn service_name(env: Option<String>) -> (r: String)
    ensures
        match env {
            Some(s) => r@ == s@,
            None => r@ == "ruuter-on-rust"@,
        },
{
    match env {
        Some(s) => s,
        None => "ruuter-on-rust".to_string(),
    }
}

/// `00-<trace id: 32 hex>-<span id: 16 hex>-01`.
pub open spec fn traceparent_of(trace: nat, span: nat) -> Seq<char> {
    "00-"@ + hex_digits(trace, 32) + "-"@ + hex_digits(span, 16) + "-01"@
}

pub fn traceparent_text(trace: u128, span: u64) -> (r: String)
    ensures
        r@ == traceparent_of(trace as nat, span as nat),
{
    let mut out = chars_of("00-");
    push_hex(&mut out, trace, 32);
    extend_chars(&mut out, chars_of("-").as_slice());
    push_hex(&mut out, span as u128, 16);
    extend_chars(&mut out, chars_of("-01").as_slice());
    string_of(out.as_slice())
}

/// A uniformly random 64-bit number (`rand::thread_rng().gen()`).
/// Nothing is claimed of the value.
#[verifier::external_body]
fn random_u64() -> (r: u64) {
    rand::thread_rng().gen::<u64>()
}

/// A fresh `traceparent` with random trace and span ids, sampled.
pub fn generate_traceparent() -> (r: String)
    ensures
        exists|t: u128, s: u64| r@ == traceparent_of(t as nat, s as nat),
{
    let t = random_u128();
    let s = random_u64();
    traceparent_text(t, s)
}

} // verus!
