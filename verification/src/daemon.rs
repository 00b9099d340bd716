//! The daemon's state and its answer to each command.
//!
//! Secrets are stored sealed under a key generated at startup, each with the
//! time it was last stored or read; a secret idle for longer than the timeout
//! is purged. Time is read from a monotonic clock started with the state, in
//! nanoseconds; every operation that reads the clock has a twin that takes the
//! reading as an argument and whose contract is exact.
use crate::crypto::{
    crypto_error_text, decrypt, decrypt_spec, encrypt, sealable_len, sealed_blob, CryptoError, KEY_SIZE,
    MAX_PLAINTEXT_LEN,
};
use crate::password::PasswordReader;
use crate::protocol::{Command, DaemonStatus, Response};
use crate::laws::{lemma_status_reports_most_recent_access, lemma_sweep_by_timeout_secs};
use crate::table::{
    elapsed_nanos, expired_count, fresh_entries, least_elapsed, names_sorted,
    seq_to_map, wipe_bytes, EntryView, NamedEntry, SecretEntry, SecretTable,
};
use std::time::Instant;
use vstd::prelude::*;
use vstd::string::StringExecFns;
use vstd::utf8::{decode_utf8, encode_utf8, valid_utf8};

verus! {

#[verifier::external_type_specification]
#[verifier::external_body]
pub struct ExInstant(std::time::Instant);

/// Calls `Instant::now`.
#[verifier::external_body]
fn clock_start() -> Instant {
    Instant::now()
}

/// Calls `Instant::elapsed` on `start` and gives the `Duration` in whole
/// nanoseconds (`Duration::as_nanos`). The reading depends on time: nothing is
/// stated of it.
#[verifier::external_body]
fn clock_nanos(start: &Instant) -> u128 {
    start.elapsed().as_nanos()
}

/// What `String::from_utf8_lossy` makes of `bytes`.
pub uninterp spec fn utf8_lossy(bytes: Seq<u8>) -> Seq<char>;

/// Calls `String::from_utf8` on a copy of `bytes`: per its documentation it
/// succeeds exactly on valid UTF-8, with the string that the bytes encode.
#[verifier::external_body]
fn string_from_utf8(bytes: &[u8]) -> (r: Option<String>)
    ensures
        r is Some <==> valid_utf8(bytes@),
        r matches Some(s) ==> s@ == decode_utf8(bytes@),
{
    String::from_utf8(bytes.to_vec()).ok()
}

/// Calls `String::from_utf8_lossy` and takes the result as an owned string.
#[verifier::external_body]
fn string_from_utf8_lossy(bytes: &[u8]) -> (r: String)
    ensures
        r@ == utf8_lossy(bytes@),
{
    String::from_utf8_lossy(bytes).into_owned()
}

/// The text that decrypted bytes are shown as: the string they encode, or a
/// lossy rendering when they are not valid UTF-8.
pub open spec fn text_of_bytes(b: Seq<u8>) -> Seq<char> {
    if valid_utf8(b) {
        decode_utf8(b)
    } else {
        utf8_lossy(b)
    }
}

fn bytes_to_text(bytes: &[u8]) -> (r: String)
    ensures
        r@ == text_of_bytes(bytes@),
{
    match string_from_utf8(bytes) {
        Some(s) => s,
        None => string_from_utf8_lossy(bytes),
    }
}

/// The daemon's state, mathematically.
#[verifier::ext_equal]
pub struct DaemonView {
    /// The encryption key.
    pub key: Seq<u8>,
    /// The stored secrets, sorted by name.
    pub entries: Seq<NamedEntry>,
    /// How long a secret may live without being accessed, in seconds.
    pub timeout_secs: u64,
}

impl DaemonView {
    /// The stored secrets by name.
    pub open spec fn secrets(self) -> Map<Seq<char>, EntryView> {
        seq_to_map(self.entries)
    }

    /// The idle timeout in nanoseconds.
    pub open spec fn timeout_nanos(self) -> u128 {
        (self.timeout_secs * 1_000_000_000) as u128
    }
}

/// Whole seconds in `n` nanoseconds, as a `u64` (saturating).
pub open spec fn secs_of_nanos(n: u128) -> u64 {
    if n / 1_000_000_000 > u64::MAX as u128 {
        u64::MAX
    } else {
        (n / 1_000_000_000) as u64
    }
}

/// Seconds since the most recently accessed secret was accessed (0 if none).
pub open spec fn secs_since_access(entries: Seq<NamedEntry>, now: u128) -> u64 {
    match least_elapsed(entries, now) {
        None => 0,
        Some(m) => secs_of_nanos(m),
    }
}

/// `st` reports the state `v` at time `now`.
pub open spec fn status_matches(v: DaemonView, now: u128, st: DaemonStatus) -> bool {
    &&& st.has_secret == (v.entries.len() > 0)
    &&& st.count == v.entries.len()
    &&& st.keys@.len() == v.entries.len()
    &&& forall|i: int| 0 <= i < st.keys@.len() ==> #[trigger] st.keys@[i]@ == v.entries[i].0
    &&& st.last_accessed_secs_ago == secs_since_access(v.entries, now)
    &&& st.timeout_secs == v.timeout_secs
}

/// No stored secret was last accessed later than time `t`.
pub open spec fn accessed_no_later(v: DaemonView, t: u128) -> bool {
    forall|k: Seq<char>| #[trigger] v.secrets().dom().contains(k) ==> v.secrets()[k].last_accessed <= t
}

/// The later of two clock readings.
pub open spec fn later_of(a: u128, b: u128) -> u128 {
    if a >= b {
        a
    } else {
        b
    }
}

/// The key and timeout stay, and the secrets stay sorted.
pub open spec fn same_config(pre: DaemonView, post: DaemonView) -> bool {
    &&& post.key == pre.key
    &&& post.timeout_secs == pre.timeout_secs
    &&& names_sorted(post.entries)
}

/// Storing `secret` under `key` at time `now`: the key maps to a fresh sealing
/// of the secret's UTF-8 bytes, every other key is untouched.
pub open spec fn store_step(
    pre: DaemonView,
    post: DaemonView,
    key: Seq<char>,
    secret: Seq<char>,
    now: u128,
) -> bool {
    &&& same_config(pre, post)
    &&& post.secrets().dom() == pre.secrets().dom().insert(key)
    &&& post.secrets().remove(key) == pre.secrets().remove(key)
    &&& post.secrets()[key].last_accessed == now
    &&& sealed_blob(pre.key, encode_utf8(secret), post.secrets()[key].blob)
}

/// The error text for a failed decryption.
pub open spec fn decrypt_failure_text(e: CryptoError) -> Seq<char> {
    "decryption failed: "@ + crypto_error_text(e)
}

/// Reading the secret under `key` at time `now`, answering `r`.
pub open spec fn get_step(pre: DaemonView, post: DaemonView, key: Seq<char>, now: u128, r: Response) -> bool {
    if !pre.secrets().dom().contains(key) {
        post == pre && r is NoSecret
    } else {
        let e = pre.secrets()[key];
        &&& match decrypt_spec(pre.key, e.blob) {
            Ok(p) => {
                &&& same_config(pre, post)
                &&& post.secrets() == pre.secrets().insert(
                    key,
                    EntryView { blob: e.blob, last_accessed: now },
                )
                &&& r matches Response::Secret(t) && t@ == text_of_bytes(p)
            },
            Err(err) => post == pre && (r matches Response::Error(m) && m@ == decrypt_failure_text(err)),
        }
        &&& forall|p: Seq<u8>|
            p.len() <= MAX_PLAINTEXT_LEN && #[trigger] sealed_blob(pre.key, p, e.blob) ==> (r matches Response::Secret(t) && t@ == text_of_bytes(p))
    }
}

/// Purging the secret under `key`.
pub open spec fn purge_one_step(pre: DaemonView, post: DaemonView, key: Seq<char>, r: Response) -> bool {
    if pre.secrets().dom().contains(key) {
        &&& same_config(pre, post)
        &&& post.secrets() == pre.secrets().remove(key)
        &&& r is Done
    } else {
        post == pre && r is NoSecret
    }
}

/// Purging every secret.
pub open spec fn purge_all_step(pre: DaemonView, post: DaemonView, r: Response) -> bool {
    &&& same_config(pre, post)
    &&& post.entries.len() == 0
    &&& r is Done
}

/// Reporting the status at time `now`.
pub open spec fn status_step(pre: DaemonView, post: DaemonView, now: u128, r: Response) -> bool {
    post == pre && (r matches Response::Status(st) && status_matches(pre, now, st))
}

/// What answering `cmd` at time `now` does: from state `pre` to state `post`,
/// answering `r`.
pub open spec fn command_step(pre: DaemonView, post: DaemonView, cmd: Command, now: u128, r: Response) -> bool {
    match cmd {
        Command::Store { key, secret } => store_step(pre, post, key@, secret@, now) && r is Done,
        Command::Get { key } => get_step(pre, post, key@, now, r),
        Command::Status => status_step(pre, post, now, r),
        Command::Purge { key } => match key {
            Some(k) => purge_one_step(pre, post, k@, r),
            None => purge_all_step(pre, post, r),
        },
    }
}

/// A command the daemon can carry out: a secret to store must fit what
/// AES-GCM encrypts.
pub open spec fn command_allowed(cmd: Command) -> bool {
    cmd matches Command::Store { secret, .. } ==> sealable_len(encode_utf8(secret@).len() as int)
}

/// All mutable daemon state.
pub struct DaemonState {
    /// The AES-256 encryption key, generated at startup.
    key: [u8; 32],
    /// The stored secrets, keyed by name.
    secrets: SecretTable,
    /// How long a secret may live without being accessed, in seconds.
    timeout_secs: u64,
    /// The instant the daemon's clock counts from.
    started: Instant,
    /// The latest clock reading the state has been brought to.
    latest: u128,
}

impl View for DaemonState {
    type V = DaemonView;

    closed spec fn view(&self) -> DaemonView {
        DaemonView { key: self.key@, entries: self.secrets@, timeout_secs: self.timeout_secs }
    }
}

impl DaemonState {
    /// The latest clock reading the state has been brought to: every stored
    /// secret was last accessed no later than it, and the daemon's clock never
    /// reads earlier.
    pub closed spec fn latest_reading(&self) -> u128 {
        self.latest
    }

    /// The stored secrets are sorted by name, and none was accessed after the
    /// latest clock reading.
    pub open spec fn wf(&self) -> bool {
        &&& names_sorted(self@.entries)
        &&& self@.key.len() == KEY_SIZE
        &&& accessed_no_later(self@, self.latest_reading())
    }

    /// A state with the given key and idle timeout and no secret.
    pub fn new(key: [u8; 32], timeout_secs: u64) -> (s: Self)
        ensures
            s.wf(),
            s@.key == key@,
            s@.entries == Seq::<NamedEntry>::empty(),
            s@.timeout_secs == timeout_secs,
            s.latest_reading() == 0,
    {
        let s = DaemonState {
            key,
            secrets: SecretTable::new(),
            timeout_secs,
            started: clock_start(),
            latest: 0,
        };
        assert(s@.secrets() =~= Map::<Seq<char>, EntryView>::empty());
        s
    }

    /// The daemon's clock: nanoseconds since the state was made. The clock is
    /// monotonic, so it never reads earlier than the latest reading the state
    /// has been brought to.
    pub fn now(&self) -> (t: u128)
        ensures
            t >= self.latest_reading(),
    {
        let reading = clock_nanos(&self.started);
        if reading >= self.latest {
            reading
        } else {
            self.latest
        }
    }

    /// The status at time `now`.
    pub fn status_at(&self, now: u128) -> (st: DaemonStatus)
        requires
            self.wf(),
        ensures
            status_matches(self@, now, st),
            forall|k: Seq<char>|
                #[trigger] self@.secrets().dom().contains(k) ==> st.last_accessed_secs_ago
                    <= secs_of_nanos(elapsed_nanos(now, self@.secrets()[k].last_accessed)),
            self@.secrets().dom().len() > 0 ==> exists|k: Seq<char>|
                #[trigger] self@.secrets().dom().contains(k) && st.last_accessed_secs_ago
                    == secs_of_nanos(elapsed_nanos(now, self@.secrets()[k].last_accessed)),
    {
        let keys = self.secrets.names();
        let count = self.secrets.len();
        let last_accessed_secs_ago: u64 = match self.secrets.least_elapsed(now) {
            None => 0,
            Some(m) => {
                let secs: u128 = m / 1_000_000_000;
                if secs > u64::MAX as u128 {
                    u64::MAX
                } else {
                    secs as u64
                }
            },
        };
        let st = DaemonStatus {
            has_secret: count > 0,
            count,
            keys,
            last_accessed_secs_ago,
            timeout_secs: self.timeout_secs,
        };
        proof {
            lemma_status_reports_most_recent_access(self@, now, st);
        }
        st
    }

    /// The status now.
    pub fn status(&self) -> (st: DaemonStatus)
        requires
            self.wf(),
        ensures
            exists|t: u128| t >= self.latest_reading() && #[trigger] status_matches(self@, t, st),
    {
        let now = self.now();
        self.status_at(now)
    }

    /// Remove and zeroize every secret that has outlived the idle timeout at
    /// time `now`. Returns the number of secrets purged.
    pub fn purge_expired_at(&mut self, now: u128) -> (n: usize)
        requires
            old(self).wf(),
        ensures
            final(self).wf(),
            final(self)@.key == old(self)@.key,
            final(self)@.timeout_secs == old(self)@.timeout_secs,
            final(self)@.entries == fresh_entries(old(self)@.entries, now, old(self)@.timeout_nanos()),
            n == expired_count(old(self)@.entries, now, old(self)@.timeout_nanos()),
            final(self).latest_reading() == later_of(old(self).latest_reading(), now),
            forall|k: Seq<char>|
                #[trigger] final(self)@.secrets().dom().contains(k) <==> (old(self)@.secrets().dom().contains(k)
                    && elapsed_nanos(now, old(self)@.secrets()[k].last_accessed) <= old(self)@.timeout_secs
                    * 1_000_000_000),
            forall|k: Seq<char>|
                #[trigger] final(self)@.secrets().dom().contains(k) ==> final(self)@.secrets()[k]
                    == old(self)@.secrets()[k],
    {
        let ghost pre = self@;
        let ghost pre_latest = self.latest;
        let timeout_nanos: u128 = self.timeout_secs as u128 * 1_000_000_000;
        let n = self.secrets.remove_expired(now, timeout_nanos);
        if now > self.latest {
            self.latest = now;
        }
        proof {
            assert(timeout_nanos == pre.timeout_nanos());
            assert(self@.entries == fresh_entries(pre.entries, now, pre.timeout_nanos()));
            lemma_sweep_by_timeout_secs(pre, now);
            assert(accessed_no_later(pre, pre_latest));
            assert forall|k: Seq<char>| #[trigger] self@.secrets().dom().contains(k) implies self@.secrets()[k].last_accessed
                <= self.latest by {
                assert(pre.secrets().dom().contains(k));
            }
        }
        n
    }

    /// Remove and zeroize every secret that has outlived the idle timeout.
    /// Returns the number of secrets purged.
    pub fn purge_expired(&mut self) -> (n: usize)
        requires
            old(self).wf(),
        ensures
            final(self).wf(),
            final(self)@.key == old(self)@.key,
            final(self)@.timeout_secs == old(self)@.timeout_secs,
            exists|t: u128|
                {
                    &&& final(self)@.entries == #[trigger] fresh_entries(
                        old(self)@.entries,
                        t,
                        old(self)@.timeout_nanos(),
                    )
                    &&& n == expired_count(old(self)@.entries, t, old(self)@.timeout_nanos())
                    &&& t >= old(self).latest_reading()
                    &&& final(self).latest_reading() == t
                    &&& forall|k: Seq<char>|
                        #[trigger] final(self)@.secrets().dom().contains(k) <==> (old(
                            self,
                        )@.secrets().dom().contains(k) && elapsed_nanos(
                            t,
                            old(self)@.secrets()[k].last_accessed,
                        ) <= old(self)@.timeout_secs * 1_000_000_000)
                },
    {
        let now = self.now();
        self.purge_expired_at(now)
    }

    /// Remove and zeroize every stored secret.
    pub fn purge_all(&mut self)
        requires
            old(self).wf(),
        ensures
            final(self).wf(),
            final(self)@.key == old(self)@.key,
            final(self)@.timeout_secs == old(self)@.timeout_secs,
            final(self)@.entries == Seq::<NamedEntry>::empty(),
            final(self).latest_reading() == old(self).latest_reading(),
    {
        self.secrets.wipe_all();
        assert(self@.secrets() =~= Map::<Seq<char>, EntryView>::empty());
    }
}

/// Answer `cmd` as at time `now`.
pub fn handle_command_at(state: &mut DaemonState, cmd: Command, now: u128) -> (r: Response)
    requires
        old(state).wf(),
        command_allowed(cmd),
    ensures
        final(state).wf(),
        command_step(old(state)@, final(state)@, cmd, now, r),
        final(state).latest_reading() == later_of(old(state).latest_reading(), now),
{
    let ghost pre = state@;
    let ghost pre_latest = state.latest;
    let r = match cmd {
        Command::Store { key, secret } => {
            let blob = encrypt(&state.key, secret.as_str().as_bytes());
            let ghost k = key@;
            let ghost before = state@;
            state.secrets.insert(key, SecretEntry { blob, last_accessed: now });
            proof {
                assert(state@.secrets() == before.secrets().insert(
                    k,
                    EntryView { blob: blob@, last_accessed: now },
                ));
                assert(state@.secrets().remove(k) =~= before.secrets().remove(k));
                assert(state@.secrets().dom() =~= before.secrets().dom().insert(k));
            }
            Response::Done
        },
        Command::Get { key } => {
            let daemon_key = state.key;
            let outcome = match state.secrets.get(key.as_str()) {
                None => None,
                Some(entry) => Some(decrypt(&daemon_key, entry.blob.as_slice())),
            };
            match outcome {
                None => Response::NoSecret,
                Some(Ok(plaintext)) => {
                    state.secrets.touch(key.as_str(), now);
                    Response::Secret(bytes_to_text(plaintext.as_slice()))
                },
                Some(Err(e)) => {
                    let mut message = String::from_str("decryption failed: ");
                    message.append(e.message());
                    Response::Error(message)
                },
            }
        },
        Command::Status => Response::Status(state.status_at(now)),
        Command::Purge { key } => match key {
            Some(k) => match state.secrets.remove(k.as_str()) {
                Some(mut entry) => {
                    wipe_bytes(&mut entry.blob);
                    Response::Done
                },
                None => Response::NoSecret,
            },
            None => {
                state.purge_all();
                Response::Done
            },
        },
    };
    if now > state.latest {
        state.latest = now;
    }
    proof {
        assert forall|k: Seq<char>| #[trigger] state@.secrets().dom().contains(k) implies state@.secrets()[k].last_accessed
            <= state.latest by {
            if pre.secrets().dom().contains(k) && state@.secrets()[k] == pre.secrets()[k] {
            } else {
            }
        }
    }
    r
}

/// Handle a single command, reading the daemon's clock for the time.
///
/// The daemon is detached and has no terminal, so it never prompts: the
/// reader is not used, and the absence of a secret is reported instead.
pub fn handle_command(state: &mut DaemonState, cmd: Command, _reader: &dyn PasswordReader) -> (r: Response)
    requires
        old(state).wf(),
        command_allowed(cmd),
    ensures
        final(state).wf(),
        exists|t: u128|
            t >= old(state).latest_reading() && final(state).latest_reading() == t
                && #[trigger] command_step(old(state)@, final(state)@, cmd, t, r),
{
    let now = state.now();
    handle_command_at(state, cmd, now)
}

} // verus!
