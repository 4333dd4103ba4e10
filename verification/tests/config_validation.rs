//! Tests for configuration assembly, its startup checks, and the
//! command-line argument validators.

use parseable_staging::config::{Config, ConfigError, Server, StorageConfig, LOCAL_SYNC_INTERVAL};
use parseable_staging::validation::{file_path, socket_addr};

fn server(staging: &str) -> Server {
    Server {
        tls_cert_path: None,
        tls_key_path: None,
        address: "0.0.0.0:8000".to_string(),
        local_staging_path: staging.to_string(),
        upload_interval: 60,
        username: "admin".to_string(),
        password: "admin".to_string(),
        check_update: true,
    }
}

#[test]
fn assemble_rejects_staging_as_storage_root() {
    let s = server("/data/dir");
    let storage = StorageConfig::Drive { root: "/data/dir".to_string() };
    let r = Config::assemble(s, storage);
    assert!(matches!(r, Err(ConfigError::StagingIsStorageRoot)));
}

#[test]
fn assemble_accepts_distinct_paths_and_names_backend() {
    let s = server("/staging");
    let storage = StorageConfig::Drive { root: "/store".to_string() };
    let c = Config::assemble(s, storage).unwrap();
    assert_eq!(c.storage_name, "drive");
    assert_eq!(c.staging_dir(), "/staging");

    let s3 = Config::assemble(
        server("/staging"),
        StorageConfig::S3 {
            endpoint: "http://localhost:9000".to_string(),
            bucket: "logs".to_string(),
        },
    )
    .unwrap();
    assert_eq!(s3.storage_name, "s3");
    // S3 storage never clashes with the staging path.
    match s3.storage() {
        StorageConfig::S3 { bucket, .. } => assert_eq!(bucket, "logs"),
        _ => panic!("expected the s3 backend back"),
    }
}

#[test]
fn validate_accepts_the_minimum_interval() {
    let c = Config::assemble(
        server("/staging"),
        StorageConfig::Drive { root: "/store".to_string() },
    )
    .unwrap();
    assert_eq!(c.parseable.upload_interval, LOCAL_SYNC_INTERVAL);
    c.validate();
}

#[test]
fn default_credentials_are_recognized() {
    let c = Config::assemble(
        server("/staging"),
        StorageConfig::Drive { root: "/store".to_string() },
    )
    .unwrap();
    assert!(c.is_default_creds());

    let mut s = server("/staging");
    s.password = "hunter2".to_string();
    let c2 = Config::assemble(s, StorageConfig::Drive { root: "/store".to_string() }).unwrap();
    assert!(!c2.is_default_creds());
}

#[test]
fn scheme_follows_tls_configuration() {
    let mut s = server("/staging");
    assert_eq!(s.get_scheme(), "http");
    s.tls_cert_path = Some("/certs/cert.pem".to_string());
    assert_eq!(s.get_scheme(), "http");
    s.tls_key_path = Some("/certs/key.pem".to_string());
    assert_eq!(s.get_scheme(), "https");
}

#[test]
fn stream_data_path_joins_staging_and_stream() {
    let s = server("/staging");
    assert_eq!(s.local_stream_data_path("orders"), "/staging/orders");
}

#[test]
fn file_path_rejects_only_the_empty_string() {
    assert_eq!(file_path(""), Err("empty path".to_string()));
    assert_eq!(file_path("/tmp/cert.pem"), Ok("/tmp/cert.pem".to_string()));
}

#[test]
fn socket_addr_accepts_host_and_port() {
    assert_eq!(socket_addr("0.0.0.0:8000"), Ok("0.0.0.0:8000".to_string()));
    assert_eq!(socket_addr("localhost:80"), Ok("localhost:80".to_string()));
    assert_eq!(socket_addr("[::1]:8080"), Ok("[::1]:8080".to_string()));
    assert_eq!(socket_addr("example.com:65535"), Ok("example.com:65535".to_string()));
}

#[test]
fn socket_addr_rejects_malformed_addresses() {
    let err = Err("Socket Address for server is invalid".to_string());
    assert_eq!(socket_addr(""), err);
    assert_eq!(socket_addr("no-port"), err);
    assert_eq!(socket_addr(":8000"), err);
    assert_eq!(socket_addr("host:"), err);
    assert_eq!(socket_addr("host:12x"), err);
    assert_eq!(socket_addr("host:65536"), err);
    assert_eq!(socket_addr("host:999999999"), err);
}
