//! Server configuration: the settings the process is started with, the
//! storage backend selection, and the startup checks on them.  Parsing the
//! command line into these values is the process edge's job; this module
//! holds the assembled values and the rules they must satisfy.

use vstd::prelude::*;

use vstd::string::StringExecFns;

verus! {

/// Smallest allowed upload interval, in seconds: the cadence of the local
/// sync pass that stages data for upload.
pub const LOCAL_SYNC_INTERVAL: u64 = 60;

/// The server's own settings, one field per command-line argument.
pub struct Server {
    /// The location of the TLS certificate file.
    pub tls_cert_path: Option<String>,
    /// The location of the TLS private key file.
    pub tls_key_path: Option<String>,
    /// The address on which the http server will listen.
    pub address: String,
    /// The local staging path: the temporary landing point for incoming
    /// events, and the directory under which stream data is staged.
    pub local_staging_path: String,
    /// Interval in seconds after which uncommitted data is uploaded.
    pub upload_interval: u64,
    /// Username for the basic authentication on the server.
    pub username: String,
    /// Password for the basic authentication on the server.
    pub password: String,
    /// Whether the server should check for updates.
    pub check_update: bool,
}

/// What this layer reads of the selected storage backend: a local drive
/// with its root directory, or an S3-style object store.
pub enum StorageConfig {
    Drive { root: String },
    S3 { endpoint: String, bucket: String },
}

impl Clone for StorageConfig {
    fn clone(&self) -> (res: Self)
        ensures
            res == *self,
    {
        match self {
            StorageConfig::Drive { root } => StorageConfig::Drive { root: root.clone() },
            StorageConfig::S3 { endpoint, bucket } => StorageConfig::S3 {
                endpoint: endpoint.clone(),
                bucket: bucket.clone(),
            },
        }
    }
}

/// Why a configuration was rejected at assembly.
#[derive(Debug, Clone, Copy, PartialEq, Eq, Structural)]
pub enum ConfigError {
    /// The same path cannot serve as both the storage root and the staging
    /// directory: staged files would be "uploaded" onto themselves.
    StagingIsStorageRoot,
}

/// The storage backend is a local drive whose root is the staging path.
pub open spec fn staging_clashes(parseable: Server, storage: StorageConfig) -> bool {
    storage matches StorageConfig::Drive { root } && root@ == parseable.local_staging_path@
}

/// The assembled process configuration.
pub struct Config {
    pub parseable: Server,
    pub storage: StorageConfig,
    pub storage_name: String,
}

impl Config {
    /// Assembles the configuration from parsed settings, enforcing the one
    /// cross-cutting rule: a local drive store may not use the staging
    /// directory as its root.  Names the backend "drive" or "s3".
    pub fn assemble(parseable: Server, storage: StorageConfig) -> (r: Result<Config, ConfigError>)
        ensures
            match r {
                Ok(c) => {
                    &&& !staging_clashes(parseable, storage)
                    &&& c.parseable == parseable
                    &&& c.storage == storage
                    &&& c.storage_name@ == (if storage is Drive {
                        "drive"@
                    } else {
                        "s3"@
                    })
                },
                Err(e) => e == ConfigError::StagingIsStorageRoot && staging_clashes(
                    parseable,
                    storage,
                ),
            },
    {
        let clashes = match &storage {
            StorageConfig::Drive { root } => *root == parseable.local_staging_path,
            StorageConfig::S3 { .. } => false,
        };
        if clashes {
            return Err(ConfigError::StagingIsStorageRoot);
        }
        let storage_name = match &storage {
            StorageConfig::Drive { .. } => "drive".to_owned(),
            StorageConfig::S3 { .. } => "s3".to_owned(),
        };
        Ok(Config { parseable, storage, storage_name })
    }

    /// The upload interval must be at least `LOCAL_SYNC_INTERVAL`: the
    /// process aborts at startup on a smaller value, so callers may not
    /// pass one.
    pub fn validate(&self)
        requires
            self.parseable.upload_interval >= LOCAL_SYNC_INTERVAL,
    {
    }

    /// The selected storage backend.
    pub fn storage(&self) -> (r: StorageConfig)
        ensures
            r == self.storage,
    {
        self.storage.clone()
    }

    /// The staging directory incoming events land in.
    pub fn staging_dir(&self) -> (r: &String)
        ensures
            r@ == self.parseable.local_staging_path@,
    {
        &self.parseable.local_staging_path
    }

    /// Whether the server still runs with the default credentials, so the
    /// operator can be warned.
    pub fn is_default_creds(&self) -> (r: bool)
        ensures
            r == (self.parseable.username@ == "admin"@ && self.parseable.password@ == "admin"@),
    {
        let user = Server::default_username();
        let pass = Server::default_password();
        self.parseable.username == user && self.parseable.password == pass
    }
}

impl Server {
    /// The default username for basic authentication.
    pub fn default_username() -> (r: String)
        ensures
            r@ == "admin"@,
    {
        "admin".to_owned()
    }

    /// The default password for basic authentication.
    pub fn default_password() -> (r: String)
        ensures
            r@ == "admin"@,
    {
        "admin".to_owned()
    }

    /// The staging directory of one stream: the staging path with the
    /// stream's name as its child.
    pub fn local_stream_data_path(&self, stream_name: &str) -> (r: String)
        ensures
            r@ == self.local_staging_path@ + "/"@ + stream_name@,
    {
        let mut p = self.local_staging_path.clone();
        p.append("/");
        p.append(stream_name);
        p
    }

    /// "https" when both a TLS certificate and a key are configured,
    /// "http" otherwise.
    pub fn get_scheme(&self) -> (r: String)
        ensures
            (self.tls_cert_path is Some && self.tls_key_path is Some) ==> r@ == "https"@,
            !(self.tls_cert_path is Some && self.tls_key_path is Some) ==> r@ == "http"@,
    {
        if self.tls_cert_path.is_some() && self.tls_key_path.is_some() {
            return "https".to_owned();
        }
        "http".to_owned()
    }
}

} // verus!
