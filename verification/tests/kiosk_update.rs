use bifrost_api::kiosk_update::ApkAcc;
use sha2::Digest;
use bifrost_api::kiosk_update::{
    cache_is_current, find_asset_url, load_source, parse_gradle_version, resolve_release,
    valid_repo, validate_source, ReleaseAsset, ReleaseError, RemoteRelease, SourceError,
    UpdateManifest, DEFAULT_ASSET, DEFAULT_REPO,
};

#[test]
fn parses_version_from_gradle() {
    let src = r#"
        android {
            defaultConfig {
                applicationId = "live.theundead.bifrost.kiosk"
                versionCode = 7
                versionName = "0.1.6"
            }
        }
        "#;
    assert_eq!(parse_gradle_version(src), Some((7, "0.1.6".to_string())));
}

#[test]
fn valid_repo_requires_owner_slash_name() {
    assert!(valid_repo("others-git/bifrost-kiosk"));
    assert!(!valid_repo("nobody"));
    assert!(!valid_repo("a/b/c"));
    assert!(!valid_repo("/bifrost-kiosk"));
    assert!(!valid_repo("owner/ name"));
    assert!(!valid_repo(""));
}

#[test]
fn version_parse_needs_both_fields() {
    assert_eq!(parse_gradle_version("versionCode = 3"), None);
    assert_eq!(parse_gradle_version("nothing here"), None);
}

#[test]
fn version_parse_takes_the_first_line_of_each_field() {
    let src = "versionName = \"2.0\"\nversionCode = 12\nversionCode = 99\n";
    assert_eq!(parse_gradle_version(src), Some((12, "2.0".to_string())));
    assert_eq!(parse_gradle_version("versionCode = x\nversionName = \"1\""), None);
}

fn assets() -> Vec<ReleaseAsset> {
    vec![
        ReleaseAsset {
            name: "app-release-slim.apk".to_string(),
            browser_download_url: "http://x/slim".to_string(),
        },
        ReleaseAsset {
            name: "app-release.apk".to_string(),
            browser_download_url: "http://x/full".to_string(),
        },
    ]
}

#[test]
fn release_resolves_the_named_asset_and_gradle_version() {
    let gradle = "versionCode = 7\nversionName = \"0.1.6\"\n";
    let rel = resolve_release("v0.1.6".to_string(), &assets(), "app-release.apk", gradle);
    assert_eq!(
        rel,
        Ok(RemoteRelease {
            tag: "v0.1.6".to_string(),
            apk_url: "http://x/full".to_string(),
            version_code: 7,
            version_name: "0.1.6".to_string(),
        })
    );
    assert_eq!(
        find_asset_url(&assets(), "app-release-slim.apk"),
        Some("http://x/slim".to_string())
    );
}

#[test]
fn release_errors_when_the_asset_or_version_is_missing() {
    let gradle = "versionCode = 7\nversionName = \"0.1.6\"\n";
    assert_eq!(
        resolve_release("v0.1.6".to_string(), &vec![], "app-release.apk", gradle),
        Err(ReleaseError::MissingAsset)
    );
    assert_eq!(
        resolve_release("v0.1.6".to_string(), &assets(), "app-release.apk", "no version"),
        Err(ReleaseError::NoVersion)
    );
}

#[test]
fn source_is_trimmed_and_checked() {
    let c = validate_source(" o/r ", " app.apk ").ok().unwrap();
    assert_eq!(c.repo, "o/r");
    assert_eq!(c.asset, "app.apk");
    assert_eq!(validate_source("nobody", "app.apk").err(), Some(SourceError::BadRepo));
    assert_eq!(validate_source("o/r", "  ").err(), Some(SourceError::BadAsset));
    assert_eq!(validate_source("o/r", "dir/app.apk").err(), Some(SourceError::BadAsset));
}

#[test]
fn stored_source_falls_back_to_the_defaults() {
    assert_eq!(load_source(None), (DEFAULT_REPO.to_string(), DEFAULT_ASSET.to_string()));
    assert_eq!(
        load_source(Some((Some(" me/app ".to_string()), Some("  ".to_string())))),
        ("me/app".to_string(), DEFAULT_ASSET.to_string())
    );
}

#[test]
fn cache_is_current_only_with_the_apk_and_a_new_enough_code() {
    let m = UpdateManifest {
        version_code: 7,
        version_name: "0.1.6".to_string(),
        size: 123,
        sha256: "abc".to_string(),
    };
    assert!(cache_is_current(Some(&m), true, 7));
    assert!(cache_is_current(Some(&m), true, 6));
    assert!(!cache_is_current(Some(&m), true, 8));
    assert!(!cache_is_current(Some(&m), false, 7));
    assert!(!cache_is_current(None, true, 0));
}

#[test]
fn apk_manifest_hashes_the_streamed_bytes() {
    let body = b"FAKEAPKBYTES".to_vec();
    let remote = RemoteRelease {
        tag: "v0.1.6".into(),
        apk_url: "https://example.invalid/full".into(),
        version_code: 7,
        version_name: "0.1.6".into(),
    };
    let mut acc = ApkAcc::new();
    acc.feed(&body[..4]);
    acc.feed(&body[4..]);
    acc.feed(&[]);
    let manifest = acc.manifest(&remote);
    assert_eq!(manifest.version_code, 7);
    assert_eq!(manifest.version_name, "0.1.6");
    assert_eq!(manifest.size, body.len() as i64);
    assert_eq!(manifest.sha256, hex::encode(sha2::Sha256::digest(&body)));
    assert_eq!(manifest.sha256.len(), 64);
}
