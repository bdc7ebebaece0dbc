use vstd::prelude::*;
use vstd::string::*;
use crate::json::hex_digit;
use crate::text::push_char;

verus! {

/// The SHA-256 digest of the UTF-8 encoding of a text.
pub uninterp spec fn sha256_of(s: Seq<char>) -> Seq<u8>;

/// Relies on `sha2::Sha256::digest`: the 32-byte SHA-256 digest of the text's bytes.
#[verifier::external_body]
fn sha256_digest(s: &str) -> (r: Vec<u8>)
    ensures
        r@ == sha256_of(s@),
        r@.len() == 32,
{
    <sha2::Sha256 as sha2::Digest>::digest(s.as_bytes()).to_vec()
}

/// Two lower-case hexadecimal digits per byte, in order.
pub open spec fn hex_text(b: Seq<u8>) -> Seq<char>
    decreases b.len(),
{
    if b.len() == 0 {
        Seq::empty()
    } else {
        hex_text(b.drop_last()) + seq![
            hex_digit(b.last() as int / 16),
            hex_digit(b.last() as int % 16),
        ]
    }
}

pub open spec fn or_unknown(field: Option<Seq<char>>) -> Seq<char> {
    match field {
        Some(s) => s,
        None => "unknown"@,
    }
}

pub open spec fn opt_view(field: Option<&str>) -> Option<Seq<char>> {
    match field {
        Some(s) => Some(s@),
        None => None,
    }
}

/// What a fingerprint is made from: the remote address, the user agent and
/// the edge tag, each `unknown` where absent, and the server's secret,
/// joined by `:`.
pub open spec fn material_text(
    remote: Option<Seq<char>>,
    agent: Option<Seq<char>>,
    edge_tag: Option<Seq<char>>,
    secret: Seq<char>,
) -> Seq<char> {
    or_unknown(remote) + ":"@ + or_unknown(agent) + ":"@ + or_unknown(edge_tag) + ":"@ + secret
}

/// The fingerprint of a connection: the hexadecimal SHA-256 digest of its material.
pub open spec fn fingerprint_text(
    remote: Option<Seq<char>>,
    agent: Option<Seq<char>>,
    edge_tag: Option<Seq<char>>,
    secret: Seq<char>,
) -> Seq<char> {
    hex_text(sha256_of(material_text(remote, agent, edge_tag, secret)))
}

fn push_field(out: &mut String, field: Option<&str>)
    ensures
        final(out)@ == old(out)@ + or_unknown(opt_view(field)),
{
    match field {
        Some(s) => out.append(s),
        None => out.append("unknown"),
    }
}

/// The text that a connection's fingerprint digests.
pub fn fingerprint_material(
    remote: Option<&str>,
    agent: Option<&str>,
    edge_tag: Option<&str>,
    secret: &str,
) -> (r: String)
    ensures
        r@ == material_text(opt_view(remote), opt_view(agent), opt_view(edge_tag), secret@),
{
    let mut out = String::new();
    push_field(&mut out, remote);
    out.append(":");
    push_field(&mut out, agent);
    out.append(":");
    push_field(&mut out, edge_tag);
    out.append(":");
    out.append(secret);
    proof {
        assert(out@ =~= material_text(
            opt_view(remote),
            opt_view(agent),
            opt_view(edge_tag),
            secret@,
        ));
    }
    out
}

/// A digest written as lower-case hexadecimal.
pub fn digest_hex(digest: &[u8]) -> (r: String)
    ensures
        r@ == hex_text(digest@),
        r@.len() == 2 * digest@.len(),
{
    let mut out = String::new();
    let mut i: usize = 0;
    while i < digest.len()
        invariant
            i <= digest@.len(),
            out@ == hex_text(digest@.take(i as int)),
            out@.len() == 2 * i,
        decreases digest@.len() - i,
    {
        proof {
            assert(digest@.take(i + 1).drop_last() == digest@.take(i as int));
        }
        let b = digest[i];
        push_char(&mut out, hex_digit_char(b / 16));
        push_char(&mut out, hex_digit_char(b % 16));
        i = i + 1;
    }
    proof {
        assert(digest@.take(digest@.len() as int) == digest@);
    }
    out
}

fn hex_digit_char(d: u8) -> (c: char)
    requires
        d < 16,
    ensures
        c == hex_digit(d as int),
{
    if d < 10 {
        (d + 48) as char
    } else {
        (d + 87) as char
    }
}

/// The stable identity of a connecting device: the same metadata and secret
/// always give the same 64 hexadecimal digits.
pub fn generate_unique_id(
    remote: Option<&str>,
    agent: Option<&str>,
    edge_tag: Option<&str>,
    secret: &str,
) -> (r: String)
    ensures
        r@ == fingerprint_text(opt_view(remote), opt_view(agent), opt_view(edge_tag), secret@),
        r@.len() == 64,
{
    let material = fingerprint_material(remote, agent, edge_tag, secret);
    let digest = sha256_digest(material.as_str());
    digest_hex(digest.as_slice())
}

} // verus!
