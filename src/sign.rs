//! The string to sign for a request and the `Authorization` value computed
//! from it.

use vstd::prelude::*;
use vstd::utf8::encode_utf8;
use reqwest::header::{HeaderMap, HeaderValue};
use crypto::hmac::Hmac;
use crypto::mac::Mac;
use crypto::sha1::Sha1;
use crate::canonical::{
    canonical_headers, header_block, is_oss_name, lemma_block_ignores_name_order,
    lemma_of_name_front, lemma_of_name_oss_only, lemma_other_header_leaves_block, of_name, oss_only, texts,
    HeaderText,
};
use crate::profile::Profile;

verus! {

#[verifier::external_type_specification]
#[verifier::external_body]
#[verifier::reject_recursive_types(T)]
pub struct ExHeaderMap<T>(HeaderMap<T>);

#[verifier::external_type_specification]
#[verifier::external_body]
pub struct ExHeaderValue(HeaderValue);

/// The pairs of a header map as text, in the map's iteration order.
pub uninterp spec fn header_texts(h: HeaderMap) -> Seq<(Seq<char>, Seq<char>)>;

/// The HMAC-SHA1 code of a message under a key.
pub uninterp spec fn hmac_sha1_of(key: Seq<u8>, message: Seq<u8>) -> Seq<u8>;

/// The value of the first header named `name`, or empty where none is.
pub open spec fn first_value(s: Seq<HeaderText>, name: Seq<char>) -> Seq<char>
    decreases s.len(),
{
    if s.len() == 0 {
        Seq::empty()
    } else if s[0].0 == name {
        s[0].1
    } else {
        first_value(s.drop_first(), name)
    }
}

/// The names that `header_value` looks up: lower-case letters, digits and
/// dashes, a subset of the names a map can hold.
pub open spec fn is_lower_token(n: Seq<char>) -> bool {
    &&& n.len() > 0
    &&& forall|i: int|
        0 <= i < n.len() ==> ('a' <= #[trigger] n[i] <= 'z') || ('0' <= n[i] <= '9') || n[i] == '-'
}

pub open spec fn date_name() -> Seq<char> {
    seq!['d', 'a', 't', 'e']
}

pub open spec fn content_type_name() -> Seq<char> {
    seq!['c', 'o', 'n', 't', 'e', 'n', 't', '-', 't', 'y', 'p', 'e']
}

pub open spec fn content_md5_name() -> Seq<char> {
    seq!['c', 'o', 'n', 't', 'e', 'n', 't', '-', 'm', 'd', '5']
}

/// The character that stands for a six-bit value in standard base64.
pub open spec fn base64_digit(v: int) -> char {
    if v < 26 {
        (v + 65) as char
    } else if v < 52 {
        (v - 26 + 97) as char
    } else if v < 62 {
        (v - 52 + 48) as char
    } else if v == 62 {
        '+'
    } else {
        '/'
    }
}

/// Standard base64 with `=` padding: four characters for each group of three
/// bytes, the last group padded.
pub open spec fn base64_std(b: Seq<u8>) -> Seq<char>
    decreases b.len(),
{
    let x = if b.len() > 0 { b[0] as int } else { 0 };
    let y = if b.len() > 1 { b[1] as int } else { 0 };
    let z = if b.len() > 2 { b[2] as int } else { 0 };
    if b.len() == 0 {
        Seq::empty()
    } else if b.len() == 1 {
        seq![base64_digit(x / 4), base64_digit((x % 4) * 16), '=', '=']
    } else if b.len() == 2 {
        seq![base64_digit(x / 4), base64_digit((x % 4) * 16 + y / 16), base64_digit((y % 16) * 4), '=']
    } else {
        seq![
            base64_digit(x / 4),
            base64_digit((x % 4) * 16 + y / 16),
            base64_digit((y % 16) * 4 + z / 64),
            base64_digit(z % 64),
        ] + base64_std(b.subrange(3, b.len() as int))
    }
}

/// `/bucket/object`, as given, without escaping.
pub open spec fn resource_of(bucket: Seq<char>, object: Seq<char>) -> Seq<char> {
    seq!['/'] + bucket + seq!['/'] + object
}

/// The five parts of the string to sign, one per line, the header block
/// ending its own lines.
pub open spec fn string_to_sign_of(
    verb: Seq<char>,
    content_md5: Seq<char>,
    content_type: Seq<char>,
    date: Seq<char>,
    block: Seq<char>,
    resource: Seq<char>,
) -> Seq<char> {
    verb + seq!['\n'] + content_md5 + seq!['\n'] + content_type + seq!['\n'] + date + seq!['\n'] + block
        + resource
}

/// The string to sign for a request with these headers.
pub open spec fn canonical_request(
    verb: Seq<char>,
    bucket: Seq<char>,
    object: Seq<char>,
    hs: Seq<HeaderText>,
) -> Seq<char> {
    string_to_sign_of(
        verb,
        first_value(hs, content_md5_name()),
        first_value(hs, content_type_name()),
        first_value(hs, date_name()),
        header_block(hs),
        resource_of(bucket, object),
    )
}

/// `OSS <access key id>:<base64 of the digest>`.
pub open spec fn authorization(access_key_id: Seq<char>, digest: Seq<u8>) -> Seq<char> {
    seq!['O', 'S', 'S', ' '] + access_key_id + seq![':'] + base64_std(digest)
}

/// The `Authorization` value for a request signed with a key pair.
pub open spec fn signature_of(
    access_key_id: Seq<char>,
    access_key_secret: Seq<char>,
    verb: Seq<char>,
    bucket: Seq<char>,
    object: Seq<char>,
    hs: Seq<HeaderText>,
) -> Seq<char> {
    authorization(
        access_key_id,
        hmac_sha1_of(
            encode_utf8(access_key_secret),
            encode_utf8(canonical_request(verb, bucket, object, hs)),
        ),
    )
}

/// Relies on `HeaderMap::iter` of http (re-exported by reqwest): each pair
/// once per value, in the map's order, with `HeaderName::as_str` for the name
/// and `HeaderValue::to_str` for the value, a value that is not visible ASCII
/// read as empty.
#[verifier::external_body]
fn header_pairs(h: &HeaderMap) -> (r: Vec<(String, String)>)
    ensures
        texts(r@) == header_texts(*h),
{
    h.iter().map(|(k, v)| (k.as_str().to_string(), v.to_str().unwrap_or("").to_string())).collect()
}

/// Relies on `HeaderMap::get` of http: for a lower-case name it returns the
/// first value of the pairs of that name, which `iter` yields first among
/// them, and nothing where there is none. The value is read as in
/// `header_pairs`.
#[verifier::external_body]
fn header_value(h: &HeaderMap, name: &str) -> (r: Option<String>)
    requires
        is_lower_token(name@),
    ensures
        r is None <==> forall|j: int|
            0 <= j < header_texts(*h).len() ==> (#[trigger] header_texts(*h)[j]).0 != name@,
        r matches Some(v) ==> v@ == first_value(header_texts(*h), name@),
{
    h.get(name).map(|v| v.to_str().unwrap_or("").to_string())
}

/// The value of the first header named `name`, empty where there is none.
fn value_or_empty(h: &HeaderMap, name: &str) -> (r: String)
    requires
        is_lower_token(name@),
    ensures
        r@ == first_value(header_texts(*h), name@),
{
    match header_value(h, name) {
        Some(v) => v,
        None => {
            proof {
                lemma_missing_header_is_empty(header_texts(*h), name@);
            }
            String::new()
        },
    }
}

/// Relies on rust-crypto's `Hmac` over `Sha1`: the 20-byte HMAC-SHA1 code of
/// `message` under `key`.
#[verifier::external_body]
fn hmac_sha1(key: &[u8], message: &[u8]) -> (r: Vec<u8>)
    ensures
        r@ == hmac_sha1_of(key@, message@),
        r@.len() == 20,
{
    let mut mac = Hmac::new(Sha1::new(), key);
    mac.input(message);
    mac.result().code().to_vec()
}

/// Relies on `base64::encode`: standard alphabet, padded with `=`. It panics
/// only where the encoded length overflows `usize`.
#[verifier::external_body]
fn encode_base64(b: &[u8]) -> (r: String)
    requires
        b@.len() <= usize::MAX / 4,
    ensures
        r@ == base64_std(b@),
{
    base64::encode(b)
}

/// Base64 gives four characters for each started group of three bytes.
pub proof fn lemma_base64_len(b: Seq<u8>)
    ensures
        base64_std(b).len() == (b.len() + 2) / 3 * 4,
    decreases b.len(),
{
    if b.len() > 2 {
        lemma_base64_len(b.subrange(3, b.len() as int));
    }
}

/// `/bucket/object`, without escaping.
pub fn resource_path(bucket: &str, object: &str) -> (r: String)
    ensures
        r@ == resource_of(bucket@, object@),
{
    let mut r = String::new();
    r.append("/");
    r.append(bucket);
    r.append("/");
    r.append(object);
    proof {
        reveal_strlit("/");
    }
    assert("/"@ =~= seq!['/']);
    assert(r@ =~= resource_of(bucket@, object@));
    r
}

/// The string to sign from its five parts.
pub fn string_to_sign(
    verb: &str,
    content_md5: &str,
    content_type: &str,
    date: &str,
    header_block: &str,
    resource: &str,
) -> (r: String)
    ensures
        r@ == string_to_sign_of(verb@, content_md5@, content_type@, date@, header_block@, resource@),
{
    let mut r = String::from_str(verb);
    r.append("\n");
    r.append(content_md5);
    r.append("\n");
    r.append(content_type);
    r.append("\n");
    r.append(date);
    r.append("\n");
    r.append(header_block);
    r.append(resource);
    proof {
        reveal_strlit("\n");
    }
    assert("\n"@ =~= seq!['\n']);
    assert(r@ =~= string_to_sign_of(verb@, content_md5@, content_type@, date@, header_block@, resource@));
    r
}

/// `OSS <access key id>:<digest in base64>`.
pub fn authorization_value(access_key_id: &str, digest: &[u8]) -> (r: String)
    requires
        digest@.len() <= usize::MAX / 4,
    ensures
        r@ == authorization(access_key_id@, digest@),
{
    let encoded = encode_base64(digest);
    let mut r = String::new();
    r.append("OSS ");
    r.append(access_key_id);
    r.append(":");
    r.append(encoded.as_str());
    proof {
        reveal_strlit("OSS ");
        reveal_strlit(":");
    }
    assert("OSS "@ =~= seq!['O', 'S', 'S', ' ']);
    assert(":"@ =~= seq![':']);
    assert(r@ =~= authorization(access_key_id@, digest@));
    r
}

/// The string to sign for a request with these headers.
pub fn canonical_string(verb: &str, bucket: &str, object: &str, headers: &HeaderMap) -> (r: String)
    ensures
        r@ == canonical_request(verb@, bucket@, object@, header_texts(*headers)),
{
    proof {
        reveal_strlit("date");
        reveal_strlit("content-type");
        reveal_strlit("content-md5");
    }
    assert("date"@ =~= date_name());
    assert("content-type"@ =~= content_type_name());
    assert("content-md5"@ =~= content_md5_name());
    assert(is_lower_token(date_name()));
    assert(is_lower_token(content_type_name()));
    assert(is_lower_token(content_md5_name()));
    let date = value_or_empty(headers, "date");
    let content_type = value_or_empty(headers, "content-type");
    let content_md5 = value_or_empty(headers, "content-md5");
    let pairs = header_pairs(headers);
    let block = canonical_headers(&pairs);
    let resource = resource_path(bucket, object);
    string_to_sign(
        verb,
        content_md5.as_str(),
        content_type.as_str(),
        date.as_str(),
        block.as_str(),
        resource.as_str(),
    )
}

/// The `Authorization` value of a request: the string to sign, HMAC-SHA1
/// under the profile's secret, in base64 after the access key id.
pub fn oss_sign_header(profile: &Profile, verb: &str, bucket: &str, object: &str, headers: &HeaderMap) -> (r: String)
    ensures
        r@ == signature_of(
            profile.spec_access_key_id(),
            profile.spec_access_key_secret(),
            verb@,
            bucket@,
            object@,
            header_texts(*headers),
        ),
        r@.len() == profile.spec_access_key_id().len() + 33,
{
    let message = canonical_string(verb, bucket, object, headers);
    let digest = hmac_sha1(profile.access_key_secret().as_bytes(), message.as_str().as_bytes());
    proof {
        lemma_base64_len(digest@);
    }
    authorization_value(profile.access_key_id(), digest.as_slice())
}

/// Signing is a function of its inputs: the same key pair, verb, bucket,
/// object and headers give the same `Authorization` value every time.
pub proof fn lemma_signing_is_deterministic(
    p: Profile,
    q: Profile,
    verb: Seq<char>,
    bucket: Seq<char>,
    object: Seq<char>,
    h: HeaderMap,
    g: HeaderMap,
)
    requires
        p == q,
        h == g,
    ensures
        signature_of(p.spec_access_key_id(), p.spec_access_key_secret(), verb, bucket, object, header_texts(h))
            == signature_of(q.spec_access_key_id(), q.spec_access_key_secret(), verb, bucket, object, header_texts(g)),
{
}

/// A header that is absent gives an empty value.
pub proof fn lemma_missing_header_is_empty(hs: Seq<HeaderText>, name: Seq<char>)
    requires
        forall|j: int| 0 <= j < hs.len() ==> (#[trigger] hs[j]).0 != name,
    ensures
        first_value(hs, name) == Seq::<char>::empty(),
    decreases hs.len(),
{
    if hs.len() > 0 {
        let d = hs.drop_first();
        assert forall|j: int| 0 <= j < d.len() implies (#[trigger] d[j]).0 != name by {
            assert(d[j] == hs[j + 1]);
        }
        lemma_missing_header_is_empty(d, name);
    }
}

/// A header added after the others does not change the value found for
/// another name.
proof fn lemma_first_value_after_push(hs: Seq<HeaderText>, e: HeaderText, name: Seq<char>)
    requires
        e.0 != name,
    ensures
        first_value(hs.push(e), name) == first_value(hs, name),
    decreases hs.len(),
{
    if hs.len() > 0 {
        assert(hs.push(e)[0] == hs[0]);
        assert(hs.push(e).drop_first() =~= hs.drop_first().push(e));
        lemma_first_value_after_push(hs.drop_first(), e, name);
    } else {
        assert(hs.push(e)[0] == e);
        assert(hs.push(e).drop_first() =~= Seq::<HeaderText>::empty());
        assert(first_value(Seq::<HeaderText>::empty(), name) == Seq::<char>::empty());
    }
}

/// A header whose name holds no `x-oss-` and is none of `date`,
/// `content-type` and `content-md5` does not change the signature.
pub proof fn lemma_other_header_leaves_signature(
    access_key_id: Seq<char>,
    access_key_secret: Seq<char>,
    verb: Seq<char>,
    bucket: Seq<char>,
    object: Seq<char>,
    hs: Seq<HeaderText>,
    e: HeaderText,
)
    requires
        !is_oss_name(e.0),
        e.0 != date_name(),
        e.0 != content_type_name(),
        e.0 != content_md5_name(),
    ensures
        signature_of(access_key_id, access_key_secret, verb, bucket, object, hs.push(e))
            == signature_of(access_key_id, access_key_secret, verb, bucket, object, hs),
{
    lemma_other_header_leaves_block(hs, e);
    lemma_first_value_after_push(hs, e, date_name());
    lemma_first_value_after_push(hs, e, content_type_name());
    lemma_first_value_after_push(hs, e, content_md5_name());
}

/// The value found for a name is the value of the first header of that name.
proof fn lemma_first_value_of_name(hs: Seq<HeaderText>, name: Seq<char>)
    ensures
        first_value(hs, name) == (if of_name(hs, name).len() > 0 {
            of_name(hs, name)[0].1
        } else {
            Seq::<char>::empty()
        }),
    decreases hs.len(),
{
    if hs.len() > 0 {
        lemma_of_name_front(hs, name);
        lemma_first_value_of_name(hs.drop_first(), name);
    }
}

/// The signature does not depend on the order in which headers of different
/// names come: two header lists that hold, for every name, the same headers
/// of that name in the same order sign alike.
pub proof fn lemma_signature_ignores_name_order(
    access_key_id: Seq<char>,
    access_key_secret: Seq<char>,
    verb: Seq<char>,
    bucket: Seq<char>,
    object: Seq<char>,
    a: Seq<HeaderText>,
    b: Seq<HeaderText>,
)
    requires
        forall|n: Seq<char>| #[trigger] of_name(a, n) == of_name(b, n),
    ensures
        signature_of(access_key_id, access_key_secret, verb, bucket, object, a)
            == signature_of(access_key_id, access_key_secret, verb, bucket, object, b),
{
    assert forall|n: Seq<char>| #[trigger] of_name(oss_only(a), n) == of_name(oss_only(b), n) by {
        lemma_of_name_oss_only(a, n);
        lemma_of_name_oss_only(b, n);
        assert(of_name(a, n) == of_name(b, n));
    }
    lemma_block_ignores_name_order(a, b);
    assert(of_name(a, date_name()) == of_name(b, date_name()));
    assert(of_name(a, content_type_name()) == of_name(b, content_type_name()));
    assert(of_name(a, content_md5_name()) == of_name(b, content_md5_name()));
    lemma_first_value_of_name(a, date_name());
    lemma_first_value_of_name(b, date_name());
    lemma_first_value_of_name(a, content_type_name());
    lemma_first_value_of_name(b, content_type_name());
    lemma_first_value_of_name(a, content_md5_name());
    lemma_first_value_of_name(b, content_md5_name());
}

} // verus!
