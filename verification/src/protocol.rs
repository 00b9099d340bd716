//! The messages exchanged between the command-line client and the daemon.
use vstd::prelude::*;
use vstd::string::StrSliceExecFns;

verus! {

/// Commands sent from the CLI to the daemon over the IPC channel.
#[derive(Debug, Clone)]
#[allow(inconsistent_fields)]
pub enum Command {
    /// Store a plaintext secret under `key`. The daemon encrypts it internally.
    Store { key: String, secret: String },
    /// Retrieve the secret stored under `key`. Returns `NoSecret` if none is stored.
    Get { key: String },
    /// Query daemon status (which secrets are held, timeout info).
    Status,
    /// Clear the secret under `key`, or every secret when `key` is `None`.
    Purge { key: Option<String> },
}

/// Responses sent from the daemon back to the CLI.
#[derive(Debug, Clone)]
pub enum Response {
    /// The command succeeded.
    Done,
    /// The decrypted secret as plaintext.
    Secret(String),
    /// Current daemon status.
    Status(DaemonStatus),
    /// No secret is currently stored.
    NoSecret,
    /// An error occurred.
    Error(String),
}

/// Operational state of the daemon, reported via `Command::Status`.
#[derive(Debug, Clone)]
pub struct DaemonStatus {
    /// True if at least one secret is stored.
    pub has_secret: bool,
    /// Number of secrets currently held.
    pub count: usize,
    /// The keys of the stored secrets, sorted.
    pub keys: Vec<String>,
    /// Elapsed seconds since the most recently accessed secret (0 if none).
    pub last_accessed_secs_ago: u64,
    pub timeout_secs: u64,
}

impl DaemonStatus {
    /// The status of a daemon that holds no secret.
    pub fn no_secret(timeout_secs: u64) -> (s: Self)
        ensures
            !s.has_secret,
            s.count == 0,
            s.keys@.len() == 0,
            s.last_accessed_secs_ago == 0,
            s.timeout_secs == timeout_secs,
    {
        Self {
            has_secret: false,
            count: 0,
            keys: Vec::new(),
            last_accessed_secs_ago: 0,
            timeout_secs,
        }
    }
}

/// `s` with leading and trailing Unicode white space removed, as `str::trim`
/// gives it.
pub uninterp spec fn trimmed_line(s: Seq<char>) -> Seq<char>;

/// Calls `str::trim`.
#[verifier::external_body]
fn trim_line(s: &str) -> (r: &str)
    ensures
        r@ == trimmed_line(s@),
{
    s.trim()
}

/// The request carried by one line received from a client: the line without
/// surrounding white space, or `None` for a blank line, which is skipped.
pub fn request_text(line: &str) -> (r: Option<String>)
    ensures
        r is None <==> trimmed_line(line@).len() == 0,
        r matches Some(t) ==> t@ == trimmed_line(line@),
{
    let t = trim_line(line);
    if t.is_empty() {
        None
    } else {
        Some(t.to_owned())
    }
}

} // verus!
