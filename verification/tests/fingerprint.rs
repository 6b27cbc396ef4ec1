use kiro_gateway::Fingerprint;

#[test]
fn test_fingerprint_deterministic() {
    let fp1 = Fingerprint::generate_from_seed("test_seed");
    let fp2 = Fingerprint::generate_from_seed("test_seed");

    assert_eq!(fp1.sdk_version, fp2.sdk_version);
    assert_eq!(fp1.os_type, fp2.os_type);
    assert_eq!(fp1.kiro_version, fp2.kiro_version);
    assert_eq!(fp1.machine_id, fp2.machine_id);
}

#[test]
fn test_fingerprint_different_seeds() {
    let fp1 = Fingerprint::generate_from_seed("seed1");
    let fp2 = Fingerprint::generate_from_seed("seed2");

    assert_ne!(fp1.machine_id, fp2.machine_id);
}

#[test]
fn test_user_agent_format() {
    let fp = Fingerprint::generate_from_seed("test");
    let ua = fp.user_agent();

    assert!(ua.contains("aws-sdk-js/"));
    assert!(ua.contains("KiroIDE-"));
    assert!(ua.contains("lang/js"));
    assert!(ua.contains("md/nodejs#"));
}

#[test]
fn test_x_amz_user_agent_format() {
    let fp = Fingerprint::generate_from_seed("test");
    let amz_ua = fp.x_amz_user_agent();

    assert!(amz_ua.contains("aws-sdk-js/"));
    assert!(amz_ua.contains("KiroIDE-"));
}

#[test]
fn test_machine_id_length() {
    let fp = Fingerprint::generate_from_seed("test");
    assert_eq!(fp.machine_id.len(), 64);
}

#[test]
fn test_hardware_concurrency_range() {
    for i in 0..100 {
        let fp = Fingerprint::generate_from_seed(&format!("test_{}", i));
        assert!(fp.hardware_concurrency >= 4);
        assert!(fp.hardware_concurrency <= 32);
    }
}

#[test]
fn test_timezone_offset_range() {
    for i in 0..100 {
        let fp = Fingerprint::generate_from_seed(&format!("test_{}", i));
        assert!(fp.timezone_offset >= -720);
        assert!(fp.timezone_offset <= 720);
    }
}

#[test]
fn test_os_version_matches_type() {
    let fp = Fingerprint {
        sdk_version: "1.0.27".to_string(),
        os_type: "darwin".to_string(),
        os_version: "24.6.0".to_string(),
        node_version: "22.21.1".to_string(),
        kiro_version: "0.8.0".to_string(),
        kiro_hash: "test".to_string(),
        accept_language: "en-US".to_string(),
        screen_resolution: "1920x1080".to_string(),
        color_depth: 24,
        hardware_concurrency: 8,
        timezone_offset: -480,
        machine_id: "a".repeat(64),
    };

    let os_str = fp.os_string();
    assert!(os_str.starts_with("darwin#"));
}

#[test]
fn test_fingerprint_known_seed_values() {
    // every field of the fingerprint for a fixed seed, pinned down: the
    // digest of "test" selects these table entries, and the two derived
    // ids are real SHA-256 digests of the composite strings
    let fp = Fingerprint::generate_from_seed("test");
    assert_eq!(fp.sdk_version, "1.0.27");
    assert_eq!(fp.kiro_version, "0.5.0");
    assert_eq!(fp.node_version, "18.20.4");
    assert_eq!(fp.os_type, "darwin");
    assert_eq!(fp.os_version, "24.1.0");
    assert_eq!(fp.accept_language, "de-DE,de;q=0.9,en;q=0.8");
    assert_eq!(fp.screen_resolution, "2560x1600");
    assert_eq!(fp.color_depth, 32);
    assert_eq!(fp.hardware_concurrency, 13);
    assert_eq!(fp.timezone_offset, 18);
    assert_eq!(
        fp.kiro_hash,
        "1eccb1808e77487b53f3c06355c018eb5bab08790cc4d73e0451708b1e99eac7"
    );
    assert_eq!(
        fp.machine_id,
        "4c6313328db4026de70699d6eb5712371cc0d690e3c35eec5760e9bade0edb9b"
    );
}

#[test]
fn test_user_agent_exact_template() {
    let fp = Fingerprint::generate_from_seed("test");
    let expected = format!(
        "aws-sdk-js/{} ua/2.1 os/{}#{} lang/js md/nodejs#{} api/codewhispererstreaming#{} m/E KiroIDE-{}-{}",
        fp.sdk_version,
        fp.os_type,
        fp.os_version,
        fp.node_version,
        fp.sdk_version,
        fp.kiro_version,
        fp.machine_id
    );
    assert_eq!(fp.user_agent(), expected);
    let expected_amz = format!(
        "aws-sdk-js/{} KiroIDE-{}-{}",
        fp.sdk_version, fp.kiro_version, fp.machine_id
    );
    assert_eq!(fp.x_amz_user_agent(), expected_amz);
    assert_eq!(fp.os_string(), format!("{}#{}", fp.os_type, fp.os_version));
}

#[test]
fn test_generate_random_is_well_formed() {
    let fp = Fingerprint::generate_random();
    assert!(fp.hardware_concurrency >= 4 && fp.hardware_concurrency <= 32);
    assert!(fp.timezone_offset >= -720 && fp.timezone_offset <= 720);
    assert_eq!(fp.machine_id.len(), 64);
    assert!(fp.machine_id.chars().all(|c| c.is_ascii_hexdigit()));
}
