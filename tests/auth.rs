use oss_auth::canonical::{canonical_headers, is_oss_header_name, name_le_exec, sort_headers};
use oss_auth::profile::{config_path, default_profile, Config, Profile, ProfileError};
use oss_auth::sign::{
    authorization_value, canonical_string, oss_sign_header, resource_path, string_to_sign,
};
use reqwest::header::{HeaderMap, HeaderName, HeaderValue};

fn profile(id: &str, secret: &str) -> Profile {
    Profile::new(
        "default".to_string(),
        id.to_string(),
        secret.to_string(),
        "cn-hangzhou".to_string(),
    )
}

fn pair(name: &str, value: &str) -> (String, String) {
    (name.to_string(), value.to_string())
}

#[test]
fn test_static_profile() {
    let config = Config::new("default".to_string(), vec![profile("AKID", "SECRET")]);
    let active = default_profile(&config).unwrap();
    println!("{:#?}", active)
}

#[test]
fn test_sign() {
    let headers = HeaderMap::new();
    let signature = oss_sign_header(&profile("AKID", "SECRET"), "GET", "bucket-1", "", &headers);
    println!("{}", signature);
}

#[test]
fn sign_end_to_end_empty_headers() {
    let headers = HeaderMap::new();
    let signature = oss_sign_header(&profile("AKID", "SECRET"), "GET", "bucket-1", "", &headers);
    assert_eq!(signature, "OSS AKID:GNR4UY6jODXgL53Mx4a7AmQhaHE=");
}

#[test]
fn sign_is_deterministic() {
    let mut headers = HeaderMap::new();
    headers.insert("x-oss-meta-a", HeaderValue::from_static("1"));
    headers.insert("date", HeaderValue::from_static("Thu, 17 Nov 2005 18:49:58 GMT"));
    let p = profile("AKID", "SECRET");
    let first = oss_sign_header(&p, "PUT", "bucket-1", "obj", &headers);
    let second = oss_sign_header(&p, "PUT", "bucket-1", "obj", &headers);
    assert_eq!(first, second);
}

#[test]
fn sign_full_request() {
    let mut headers = HeaderMap::new();
    headers.insert(HeaderName::from_bytes(b"Content-MD5").unwrap(), HeaderValue::from_static("md5sum"));
    headers.insert("content-type", HeaderValue::from_static("text/plain"));
    headers.insert(HeaderName::from_bytes(b"Date").unwrap(), HeaderValue::from_static("Thu, 17 Nov 2005 18:49:58 GMT"));
    headers.insert("x-oss-meta-b", HeaderValue::from_static("2"));
    headers.insert("x-oss-meta-a", HeaderValue::from_static("1"));
    headers.insert("host", HeaderValue::from_static("example.com"));
    let expected = "PUT\nmd5sum\ntext/plain\nThu, 17 Nov 2005 18:49:58 GMT\nx-oss-meta-a:1\nx-oss-meta-b:2\n/bucket-1/obj";
    assert_eq!(canonical_string("PUT", "bucket-1", "obj", &headers), expected);
    let signature = oss_sign_header(&profile("AKID", "SECRET"), "PUT", "bucket-1", "obj", &headers);
    assert_eq!(signature, "OSS AKID:aS26h8k7bGQAtaXYUfhTYuzNXiM=");
}

#[test]
fn other_headers_do_not_change_signature() {
    let p = profile("AKID", "SECRET");
    let mut plain = HeaderMap::new();
    plain.insert("x-oss-meta-a", HeaderValue::from_static("1"));
    let mut more = plain.clone();
    more.insert("host", HeaderValue::from_static("example.com"));
    more.insert("x-custom", HeaderValue::from_static("v"));
    let canonical = canonical_string("GET", "bucket-1", "o", &more);
    assert!(!canonical.contains("host"));
    assert!(!canonical.contains("x-custom"));
    assert_eq!(
        oss_sign_header(&p, "GET", "bucket-1", "o", &plain),
        oss_sign_header(&p, "GET", "bucket-1", "o", &more)
    );
}

#[test]
fn oss_headers_sorted_by_name() {
    let mut headers = HeaderMap::new();
    headers.insert("x-oss-meta-b", HeaderValue::from_static("2"));
    headers.insert("x-oss-meta-a", HeaderValue::from_static("1"));
    assert_eq!(
        canonical_string("GET", "bucket-1", "", &headers),
        "GET\n\n\n\nx-oss-meta-a:1\nx-oss-meta-b:2\n/bucket-1/"
    );
    let block = canonical_headers(&vec![pair("x-oss-meta-b", "2"), pair("x-oss-meta-a", "1")]);
    assert_eq!(block, "x-oss-meta-a:1\nx-oss-meta-b:2\n");
}

#[test]
fn repeated_header_keeps_value_order() {
    let mut headers = HeaderMap::new();
    headers.append("x-oss-meta-z", HeaderValue::from_static("3"));
    headers.append("x-oss-meta-a", HeaderValue::from_static("1"));
    headers.append("x-oss-meta-a", HeaderValue::from_static("0"));
    assert_eq!(
        canonical_string("GET", "b", "o", &headers),
        "GET\n\n\n\nx-oss-meta-a:1\nx-oss-meta-a:0\nx-oss-meta-z:3\n/b/o"
    );
}

#[test]
fn sort_headers_is_stable() {
    let sorted = sort_headers(&vec![
        pair("x-oss-b", "1"),
        pair("x-oss-a", "2"),
        pair("x-oss-b", "0"),
        pair("x-oss-a", "1"),
    ]);
    assert_eq!(
        sorted,
        vec![pair("x-oss-a", "2"), pair("x-oss-a", "1"), pair("x-oss-b", "1"), pair("x-oss-b", "0")]
    );
}

#[test]
fn value_not_visible_ascii_reads_empty() {
    let mut headers = HeaderMap::new();
    headers.insert("x-oss-meta-x", HeaderValue::from_bytes(b"\xff").unwrap());
    assert_eq!(canonical_string("GET", "b", "", &headers), "GET\n\n\n\nx-oss-meta-x:\n/b/");
}

#[test]
fn missing_headers_give_empty_lines() {
    let headers = HeaderMap::new();
    assert_eq!(canonical_string("GET", "bucket-1", "", &headers), "GET\n\n\n\n/bucket-1/");
    let mut dated = HeaderMap::new();
    dated.insert(HeaderName::from_static("date"), HeaderValue::from_static("D"));
    assert_eq!(canonical_string("GET", "bucket-1", "", &dated), "GET\n\n\nD\n/bucket-1/");
}

#[test]
fn resource_path_joins_bucket_and_object() {
    assert_eq!(resource_path("bucket-1", ""), "/bucket-1/");
    assert_eq!(resource_path("bucket-1", "dir/file.txt"), "/bucket-1/dir/file.txt");
}

#[test]
fn string_to_sign_layout() {
    assert_eq!(
        string_to_sign("GET", "m", "t", "d", "x-oss-a:1\n", "/b/o"),
        "GET\nm\nt\nd\nx-oss-a:1\n/b/o"
    );
}

#[test]
fn authorization_value_encodes_digest() {
    let digest: Vec<u8> = (0u8..20).collect();
    assert_eq!(authorization_value("AKID", &digest), "OSS AKID:AAECAwQFBgcICQoLDA0ODxAREhM=");
    assert_eq!(authorization_value("K", &[77u8]), "OSS K:TQ==");
    assert_eq!(authorization_value("K", &[]), "OSS K:");
}

#[test]
fn oss_name_detection() {
    assert!(is_oss_header_name("x-oss-meta-a"));
    assert!(is_oss_header_name("my-x-oss-thing"));
    assert!(!is_oss_header_name("x-oss"));
    assert!(!is_oss_header_name("content-type"));
    assert!(!is_oss_header_name(""));
}

#[test]
fn name_order_is_lexicographic() {
    assert!(name_le_exec("x-oss-a", "x-oss-b"));
    assert!(!name_le_exec("x-oss-b", "x-oss-a"));
    assert!(name_le_exec("x-oss", "x-oss-a"));
    assert!(!name_le_exec("x-oss-a", "x-oss"));
    assert!(name_le_exec("same", "same"));
}

#[test]
fn empty_profile_list_fails() {
    let config = Config::new("default".to_string(), vec![]);
    assert_eq!(default_profile(&config).unwrap_err(), ProfileError::NoProfile);
}

#[test]
fn first_profile_is_active() {
    let config = Config::new(
        "second".to_string(),
        vec![profile("ID1", "S1"), Profile::new("second".to_string(), "ID2".to_string(), "S2".to_string(), "r".to_string())],
    );
    let active = default_profile(&config).unwrap();
    assert_eq!(active.access_key_id(), "ID1");
    assert_eq!(active.access_key_secret(), "S1");
    assert_eq!(active.name(), "default");
    assert_eq!(active.region_id(), "cn-hangzhou");
    assert_eq!(config.current(), "second");
    assert_eq!(config.profiles().len(), 2);
}

#[test]
fn config_path_below_home() {
    assert_eq!(config_path("/home/u"), "/home/u/.aliyun/config.json");
}

#[test]
fn header_insertion_order_does_not_change_signature() {
    let p = profile("AKID", "SECRET");
    let mut first = HeaderMap::new();
    first.insert("x-oss-meta-b", HeaderValue::from_static("2"));
    first.insert("x-oss-meta-a", HeaderValue::from_static("1"));
    let mut second = HeaderMap::new();
    second.insert("x-oss-meta-a", HeaderValue::from_static("1"));
    second.insert("x-oss-meta-b", HeaderValue::from_static("2"));
    assert_eq!(
        oss_sign_header(&p, "GET", "bucket-1", "", &first),
        oss_sign_header(&p, "GET", "bucket-1", "", &second)
    );
}

#[test]
fn signature_shape() {
    let signature = oss_sign_header(&profile("AKID", "SECRET"), "GET", "bucket-1", "", &HeaderMap::new());
    assert_eq!(signature.len(), 37);
    assert!(signature.starts_with("OSS AKID:"));
    let encoded = &signature[9..];
    assert_eq!(encoded.len(), 28);
    assert!(encoded.ends_with('='));
    assert!(!encoded[..27].contains('='));
    assert!(encoded[..27].chars().all(|c| c.is_ascii_alphanumeric() || c == '+' || c == '/'));
}

#[test]
fn absent_lookup_headers_are_empty() {
    let mut headers = HeaderMap::new();
    headers.insert("x-oss-meta-a", HeaderValue::from_static("1"));
    headers.insert("host", HeaderValue::from_static("example.com"));
    assert_eq!(
        canonical_string("GET", "b", "o", &headers),
        "GET\n\n\n\nx-oss-meta-a:1\n/b/o"
    );
}
