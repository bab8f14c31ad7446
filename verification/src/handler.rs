//! The SDK entry point: configuration, path parsing, and the handler that
//! opens writers and readers for a storage URL.
//!
//! The object store behind a URL is the caller's concern; the handler parses
//! the URL's bucket and prefix and hands out the verified writer.

use vstd::prelude::*;
use vstd::string::{StringExecFns, StrSliceExecFns};
use crate::errors::{CustomError, ErrorKind};
use crate::writer::StackWriter;

verus! {

/// S3 credentials and endpoint, as plain strings.
#[derive(Debug)]
pub struct S3 {
    /// Region name.
    pub region: String,
    /// Access key identifier.
    pub aws_access_key_id: String,
    /// Secret access key.
    pub aws_secret_access_key: String,
    /// Endpoint URL.
    pub endpoint: String,
}

/// One length-prefixed byte string of the settings wire form: an 8-byte
/// little-endian length, then that many bytes. Returns the bytes and the
/// position after them.
pub open spec fn spec_take_bstr(b: Seq<u8>, pos: int) -> Option<(Seq<u8>, int)> {
    if pos < 0 || pos + 8 > b.len() {
        None
    } else {
        let n = vstd::bytes::spec_u64_from_le_bytes(b.subrange(pos, pos + 8)) as int;
        if pos + 8 + n > b.len() {
            None
        } else {
            Some((b.subrange(pos + 8, pos + 8 + n), pos + 8 + n))
        }
    }
}

/// What the settings wire form holds: four length-prefixed strings — region,
/// access key identifier, secret access key, endpoint — with any trailing
/// bytes ignored.
pub open spec fn spec_parse_s3_config(b: Seq<u8>) -> Option<(Seq<u8>, Seq<u8>, Seq<u8>, Seq<u8>)> {
    match spec_take_bstr(b, 0) {
        None => None,
        Some((region, p1)) => match spec_take_bstr(b, p1) {
            None => None,
            Some((key_id, p2)) => match spec_take_bstr(b, p2) {
                None => None,
                Some((secret, p3)) => match spec_take_bstr(b, p3) {
                    None => None,
                    Some((endpoint, _)) => Some((region, key_id, secret, endpoint)),
                },
            },
        },
    }
}

/// Read one length-prefixed byte string at `pos`.
fn take_bstr(b: &[u8], pos: usize) -> (r: Option<(Vec<u8>, usize)>)
    requires
        pos <= b@.len(),
    ensures
        match r {
            Some(t) => spec_take_bstr(b@, pos as int) == Some((t.0@, t.1 as int)) && pos < t.1
                <= b@.len(),
            None => spec_take_bstr(b@, pos as int) is None,
        },
{
    if b.len() - pos < 8 {
        return None;
    }
    let n = vstd::bytes::u64_from_le_bytes(vstd::slice::slice_subrange(b, pos, pos + 8));
    if n > (b.len() - pos - 8) as u64 {
        return None;
    }
    let body = vstd::slice::slice_to_vec(
        vstd::slice::slice_subrange(b, pos + 8, pos + 8 + n as usize),
    );
    Some((body, pos + 8 + n as usize))
}

impl S3 {
    /// Decode settings from their wire form: four length-prefixed UTF-8
    /// strings in field order, trailing bytes ignored. A malformed length or
    /// a string that is not UTF-8 is `InvalidArgument`.
    pub fn new_from_bytes(input: &[u8]) -> (r: Result<Self, ErrorKind>)
        ensures
            match r {
                Ok(s3) => {
                    &&& spec_parse_s3_config(input@) matches Some(t)
                    &&& vstd::utf8::valid_utf8(t.0) && s3.region@ == vstd::utf8::decode_utf8(t.0)
                    &&& vstd::utf8::valid_utf8(t.1) && s3.aws_access_key_id@
                        == vstd::utf8::decode_utf8(t.1)
                    &&& vstd::utf8::valid_utf8(t.2) && s3.aws_secret_access_key@
                        == vstd::utf8::decode_utf8(t.2)
                    &&& vstd::utf8::valid_utf8(t.3) && s3.endpoint@ == vstd::utf8::decode_utf8(
                        t.3,
                    )
                },
                Err(e) => e is InvalidArgument && (spec_parse_s3_config(input@) is None || (
                spec_parse_s3_config(input@) matches Some(t) && !(vstd::utf8::valid_utf8(t.0)
                    && vstd::utf8::valid_utf8(t.1) && vstd::utf8::valid_utf8(t.2)
                    && vstd::utf8::valid_utf8(t.3)))),
            },
    {
        let (region_b, p1) = match take_bstr(input, 0) {
            Some(t) => t,
            None => {
                return Err(s3_config_error());
            },
        };
        let (key_b, p2) = match take_bstr(input, p1) {
            Some(t) => t,
            None => {
                return Err(s3_config_error());
            },
        };
        let (secret_b, p3) = match take_bstr(input, p2) {
            Some(t) => t,
            None => {
                return Err(s3_config_error());
            },
        };
        let (endpoint_b, _) = match take_bstr(input, p3) {
            Some(t) => t,
            None => {
                return Err(s3_config_error());
            },
        };
        let region = match crate::outside::bytes_to_string(region_b) {
            Some(s) => s,
            None => {
                return Err(s3_config_error());
            },
        };
        let aws_access_key_id = match crate::outside::bytes_to_string(key_b) {
            Some(s) => s,
            None => {
                return Err(s3_config_error());
            },
        };
        let aws_secret_access_key = match crate::outside::bytes_to_string(secret_b) {
            Some(s) => s,
            None => {
                return Err(s3_config_error());
            },
        };
        let endpoint = match crate::outside::bytes_to_string(endpoint_b) {
            Some(s) => s,
            None => {
                return Err(s3_config_error());
            },
        };
        Ok(S3 { region, aws_access_key_id, aws_secret_access_key, endpoint })
    }
}

fn s3_config_error() -> (r: ErrorKind)
    ensures
        r is InvalidArgument,
{
    ErrorKind::InvalidArgument(CustomError::new(String::from_str(
        "settings bytes do not decode",
    )))
}

/// The caller-supplied configuration: the allocation service address and the
/// object-store credentials.
#[derive(Debug)]
pub struct Config {
    /// URL of the allocation service.
    pub controller: String,
    /// Object-store settings.
    pub s3: S3,
}

/// First index at or after `i` holding `/`, or the length.
pub open spec fn spec_first_slash(chars: Seq<char>, i: int) -> int
    decreases chars.len() - i,
    when 0 <= i <= chars.len()
{
    if i >= chars.len() {
        i
    } else if chars[i] == '/' {
        i
    } else {
        spec_first_slash(chars, i + 1)
    }
}

/// What an `s3://{bucket}/{prefix}` URL parses to: the bucket is the
/// nonempty run up to the first slash after the scheme, the prefix all that
/// follows that slash.
pub open spec fn spec_parse_s3_url(chars: Seq<char>) -> Option<(Seq<char>, Seq<char>)> {
    if chars.len() >= 5 && chars.subrange(0, 5) == seq!['s', '3', ':', '/', '/'] {
        let k = spec_first_slash(chars, 5);
        if k == 5 || k >= chars.len() {
            None
        } else {
            Some((chars.subrange(5, k), chars.subrange(k + 1, chars.len() as int)))
        }
    } else {
        None
    }
}

/// Bounds of `spec_first_slash`: the least slash position at or after `i`.
pub proof fn lemma_first_slash(chars: Seq<char>, i: int)
    requires
        0 <= i <= chars.len(),
    ensures
        i <= spec_first_slash(chars, i) <= chars.len(),
        forall|j: int| i <= j < spec_first_slash(chars, i) ==> chars[j] != '/',
        spec_first_slash(chars, i) < chars.len() ==> chars[spec_first_slash(chars, i)] == '/',
    decreases chars.len() - i,
{
    if i < chars.len() && chars[i] != '/' {
        lemma_first_slash(chars, i + 1);
    }
}

/// Split an `s3://{bucket}/{prefix}` URL into bucket and prefix. Returns
/// `InvalidArgument` exactly where the URL does not have that shape.
#[verifier::loop_isolation(false)]
pub fn parse_s3_url(path: &str) -> (r: Result<(String, String), ErrorKind>)
    ensures
        match r {
            Ok(t) => spec_parse_s3_url(path@) == Some((t.0@, t.1@)),
            Err(e) => spec_parse_s3_url(path@) is None && e is InvalidArgument,
        },
{
    let n = path.unicode_len();
    if n < 5 {
        return Err(s3_url_error());
    }
    proof {
        lemma_first_slash(path@, 5);
    }
    if !(path.get_char(0) == 's' && path.get_char(1) == '3' && path.get_char(2) == ':'
        && path.get_char(3) == '/' && path.get_char(4) == '/') {
        proof {
            assert(path@.subrange(0, 5) != seq!['s', '3', ':', '/', '/']) by {
                if path@.subrange(0, 5) == seq!['s', '3', ':', '/', '/'] {
                    assert(path@.subrange(0, 5)[0] == 's' && path@.subrange(0, 5)[1] == '3'
                        && path@.subrange(0, 5)[2] == ':' && path@.subrange(0, 5)[3] == '/'
                        && path@.subrange(0, 5)[4] == '/');
                }
            }
        }
        return Err(s3_url_error());
    }
    proof {
        assert(path@.subrange(0, 5) =~= seq!['s', '3', ':', '/', '/']);
    }
    let mut k: usize = 5;
    while k < n && path.get_char(k) != '/'
        invariant
            5 <= k <= n,
            n == path@.len(),
            forall|j: int| 5 <= j < k ==> path@[j] != '/',
        decreases n - k,
    {
        k = k + 1;
    }
    proof {
        if k < n {
            lemma_first_slash_exact(path@, 5, k as int);
        } else {
            let f = spec_first_slash(path@, 5);
            if f < n {
                assert(path@[f] == '/');
            }
        }
    }
    if k == 5 || k >= n {
        return Err(s3_url_error());
    }
    let bucket = path.substring_char(5, k).to_owned();
    let prefix = path.substring_char(k + 1, n).to_owned();
    Ok((bucket, prefix))
}

/// A slash preceded only by non-slashes is what `spec_first_slash` finds.
proof fn lemma_first_slash_exact(chars: Seq<char>, i: int, k: int)
    requires
        0 <= i <= k < chars.len(),
        forall|j: int| i <= j < k ==> chars[j] != '/',
        chars[k] == '/',
    ensures
        spec_first_slash(chars, i) == k,
    decreases k - i,
{
    if i < k {
        lemma_first_slash_exact(chars, i + 1, k);
    }
}

fn s3_url_error() -> (r: ErrorKind)
    ensures
        r is InvalidArgument,
{
    ErrorKind::InvalidArgument(CustomError::new(String::from_str("invalid s3 url")))
}

/// What a `file://{path}` URL parses to: the part after the scheme.
pub open spec fn spec_parse_file_url(chars: Seq<char>) -> Option<Seq<char>> {
    if chars.len() >= 7 && chars.subrange(0, 7) == seq!['f', 'i', 'l', 'e', ':', '/', '/'] {
        Some(chars.subrange(7, chars.len() as int))
    } else {
        None
    }
}

/// Split a `file://{path}` URL into its path part.
pub fn parse_file_url(path: &str) -> (r: Option<String>)
    ensures
        match r {
            Some(p) => spec_parse_file_url(path@) == Some(p@),
            None => spec_parse_file_url(path@) is None,
        },
{
    let n = path.unicode_len();
    if n < 7 {
        return None;
    }
    if !(path.get_char(0) == 'f' && path.get_char(1) == 'i' && path.get_char(2) == 'l'
        && path.get_char(3) == 'e' && path.get_char(4) == ':' && path.get_char(5) == '/'
        && path.get_char(6) == '/') {
        proof {
            assert(path@.subrange(0, 7) != seq!['f', 'i', 'l', 'e', ':', '/', '/']) by {
                if path@.subrange(0, 7) == seq!['f', 'i', 'l', 'e', ':', '/', '/'] {
                    assert(path@.subrange(0, 7)[0] == 'f' && path@.subrange(0, 7)[1] == 'i'
                        && path@.subrange(0, 7)[2] == 'l' && path@.subrange(0, 7)[3] == 'e'
                        && path@.subrange(0, 7)[4] == ':' && path@.subrange(0, 7)[5] == '/'
                        && path@.subrange(0, 7)[6] == '/');
                }
            }
        }
        return None;
    }
    proof {
        assert(path@.subrange(0, 7) =~= seq!['f', 'i', 'l', 'e', ':', '/', '/']);
    }
    Some(path.substring_char(7, n).to_owned())
}

/// The SDK entry point. The caller supplies the object store matching a
/// URL's scheme; the handler supplies the verified writer over its prefix.
pub struct BytestackHandler {
    /// The caller-supplied configuration.
    pub cfg: Config,
}

impl BytestackHandler {
    /// A handler over the given configuration.
    pub fn new(cfg: Config) -> (r: Self)
        ensures
            r.cfg == cfg,
    {
        BytestackHandler { cfg }
    }

    /// Open a writer for an `s3://{bucket}/{prefix}` URL: the writer's file
    /// paths live under the URL's prefix.
    pub fn open_writer(&self, path: &str) -> (r: Result<StackWriter, ErrorKind>)
        ensures
            match r {
                Ok(w) => spec_parse_s3_url(path@) matches Some(t) && w.prefix@ == t.1 && w.inner
                    is None && w.wf(),
                Err(e) => spec_parse_s3_url(path@) is None && e is InvalidArgument,
            },
    {
        let (_, prefix) = parse_s3_url(path)?;
        Ok(StackWriter::new(prefix))
    }
}

} // verus!
