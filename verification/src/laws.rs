//! Properties of the store that span several commands.
use crate::crypto::{sealed_blob, MAX_PLAINTEXT_LEN};
use crate::daemon::{
    command_allowed, command_step, get_step, purge_all_step, purge_one_step, secs_of_nanos,
    status_matches, store_step, text_of_bytes, DaemonView,
};
use crate::key_order::name_lt;
use crate::protocol::{Command, Response};
use crate::table::{
    elapsed_nanos, expired_count, fresh_entries, index_of_name, is_expired,
    lemma_least_elapsed_is_min, lemma_map_at, lemma_names_are_domain, names_of, names_sorted,
    seq_to_map, NamedEntry,
};
use vstd::arithmetic::div_mod::lemma_div_is_ordered;
use vstd::prelude::*;
use vstd::utf8::{encode_utf8, encode_utf8_decode_utf8, encode_utf8_valid_utf8};

verus! {

/// Two answers carry the same outcome: the same secret, the same error text,
/// or both report that nothing is stored.
pub open spec fn same_answer(a: Response, b: Response) -> bool {
    match (a, b) {
        (Response::Secret(x), Response::Secret(y)) => x@ == y@,
        (Response::Error(x), Response::Error(y)) => x@ == y@,
        (Response::NoSecret, Response::NoSecret) => true,
        _ => false,
    }
}

/// Reading a key right after storing a secret under it gives back that
/// secret, whatever nonce the store drew and whenever each step happened.
pub proof fn lemma_get_returns_stored_secret(
    s0: DaemonView,
    s1: DaemonView,
    s2: DaemonView,
    key: Seq<char>,
    secret: Seq<char>,
    t1: u128,
    t2: u128,
    r: Response,
)
    requires
        encode_utf8(secret).len() <= MAX_PLAINTEXT_LEN,
        store_step(s0, s1, key, secret, t1),
        get_step(s1, s2, key, t2, r),
    ensures
        r matches Response::Secret(t) && t@ == secret,
{
    let p = encode_utf8(secret);
    let e = s1.secrets()[key];
    assert(s1.secrets().dom().contains(key));
    assert(sealed_blob(s1.key, p, e.blob));
    encode_utf8_valid_utf8(secret);
    encode_utf8_decode_utf8(secret);
    assert(text_of_bytes(p) == secret);
}

/// A secret survives being read: reading the same key twice in a row gives
/// the same answer both times.
pub proof fn lemma_repeated_get(
    s0: DaemonView,
    s1: DaemonView,
    s2: DaemonView,
    key: Seq<char>,
    t1: u128,
    t2: u128,
    r1: Response,
    r2: Response,
)
    requires
        get_step(s0, s1, key, t1, r1),
        get_step(s1, s2, key, t2, r2),
    ensures
        same_answer(r1, r2),
{
    if s0.secrets().dom().contains(key) {
        assert(s1.secrets().dom().contains(key));
        assert(s1.secrets()[key].blob == s0.secrets()[key].blob);
    }
}

/// Storing under one key, or purging one key, leaves every other key as it
/// was.
pub proof fn lemma_other_keys_untouched(
    s0: DaemonView,
    s1: DaemonView,
    key: Seq<char>,
    other: Seq<char>,
    secret: Seq<char>,
    t: u128,
    r: Response,
)
    requires
        other != key,
        store_step(s0, s1, key, secret, t) || purge_one_step(s0, s1, key, r),
    ensures
        s1.secrets().dom().contains(other) == s0.secrets().dom().contains(other),
        s0.secrets().dom().contains(other) ==> s1.secrets()[other] == s0.secrets()[other],
{
    if store_step(s0, s1, key, secret, t) {
        assert(s1.secrets().remove(key).dom().contains(other) == s1.secrets().dom().contains(other));
        assert(s0.secrets().remove(key).dom().contains(other) == s0.secrets().dom().contains(other));
        if s0.secrets().dom().contains(other) {
            assert(s1.secrets().remove(key)[other] == s1.secrets()[other]);
            assert(s0.secrets().remove(key)[other] == s0.secrets()[other]);
        }
    }
}

/// After a key is purged, reading it finds nothing.
pub proof fn lemma_get_after_purge(
    s0: DaemonView,
    s1: DaemonView,
    s2: DaemonView,
    key: Seq<char>,
    t: u128,
    r1: Response,
    r2: Response,
)
    requires
        purge_one_step(s0, s1, key, r1),
        get_step(s1, s2, key, t, r2),
    ensures
        r2 is NoSecret,
        s2 == s1,
{
}

/// The status lists the stored keys strictly sorted, each once, exactly the
/// keys that are stored; the count is their number.
pub proof fn lemma_status_lists_keys(v: DaemonView, now: u128, st: crate::protocol::DaemonStatus)
    requires
        names_sorted(v.entries),
        status_matches(v, now, st),
    ensures
        forall|i: int, j: int|
            0 <= i < j < st.keys@.len() ==> name_lt(#[trigger] st.keys@[i]@, #[trigger] st.keys@[j]@),
        forall|k: Seq<char>|
            v.secrets().dom().contains(k) <==> exists|i: int| 0 <= i < st.keys@.len() && #[trigger] st.keys@[i]@ == k,
        st.count == v.secrets().dom().len(),
        st.has_secret <==> !v.secrets().dom().is_empty(),
{
    lemma_names_are_domain(v.entries);
    let n = names_of(v.entries);
    assert forall|k: Seq<char>|
        v.secrets().dom().contains(k) <==> exists|i: int| 0 <= i < st.keys@.len() && #[trigger] st.keys@[i]@ == k by {
        if v.secrets().dom().contains(k) {
            assert(n.to_set().contains(k));
            let i = choose|i: int| 0 <= i < n.len() && n[i] == k;
            assert(st.keys@[i]@ == k);
        }
        if exists|i: int| 0 <= i < st.keys@.len() && #[trigger] st.keys@[i]@ == k {
            let i = choose|i: int| 0 <= i < st.keys@.len() && #[trigger] st.keys@[i]@ == k;
            assert(n[i] == k);
            assert(n.to_set().contains(k));
        }
    }
    if v.entries.len() > 0 {
        assert(v.secrets().dom().contains(v.entries[0].0)) by {
            lemma_map_at(v.entries, 0);
        }
    }
}

/// Purging every secret leaves a status that reports none.
pub proof fn lemma_status_after_purge_all(
    s0: DaemonView,
    s1: DaemonView,
    r: Response,
    now: u128,
    st: crate::protocol::DaemonStatus,
)
    requires
        purge_all_step(s0, s1, r),
        status_matches(s1, now, st),
    ensures
        !st.has_secret,
        st.count == 0,
        st.keys@.len() == 0,
        st.last_accessed_secs_ago == 0,
{
}

/// An entry is kept by the expiry sweep exactly when it has not expired.
pub proof fn lemma_fresh_membership(s: Seq<NamedEntry>, now: u128, timeout_nanos: u128)
    ensures
        forall|x: NamedEntry|
            #[trigger] fresh_entries(s, now, timeout_nanos).contains(x) <==> (s.contains(x) && !is_expired(
                x.1,
                now,
                timeout_nanos,
            )),
        expired_count(s, now, timeout_nanos) + fresh_entries(s, now, timeout_nanos).len() == s.len(),
    decreases s.len(),
{
    if s.len() > 0 {
        lemma_fresh_membership(s.drop_last(), now, timeout_nanos);
        assert forall|x: NamedEntry| s.contains(x) <==> (s.drop_last().contains(x) || x == s.last()) by {
            if s.contains(x) {
                let i = choose|i: int| 0 <= i < s.len() && s[i] == x;
                if i < s.len() - 1 {
                    assert(s.drop_last()[i] == x);
                }
            }
            if s.drop_last().contains(x) {
                let i = choose|i: int| 0 <= i < s.drop_last().len() && s.drop_last()[i] == x;
                assert(s[i] == x);
            }
            if x == s.last() {
                assert(s[s.len() - 1] == x);
            }
        }
        let rest = fresh_entries(s.drop_last(), now, timeout_nanos);
        assert forall|x: NamedEntry| rest.push(s.last()).contains(x) <==> (rest.contains(x) || x == s.last()) by {
            if rest.push(s.last()).contains(x) {
                let i = choose|i: int| 0 <= i < rest.len() + 1 && rest.push(s.last())[i] == x;
                if i < rest.len() {
                    assert(rest[i] == x);
                }
            }
            if rest.contains(x) {
                let i = choose|i: int| 0 <= i < rest.len() && rest[i] == x;
                assert(rest.push(s.last())[i] == x);
            }
            if x == s.last() {
                assert(rest.push(s.last())[rest.len() as int] == x);
            }
        }
        assert forall|x: NamedEntry|
            #[trigger] fresh_entries(s, now, timeout_nanos).contains(x) <==> (s.contains(x) && !is_expired(
                x.1,
                now,
                timeout_nanos,
            )) by {
            assert(rest.contains(x) <==> (s.drop_last().contains(x) && !is_expired(x.1, now, timeout_nanos)));
        }
    }
}

/// The expiry sweep keeps the entries sorted.
pub proof fn lemma_fresh_sorted(s: Seq<NamedEntry>, now: u128, timeout_nanos: u128)
    requires
        names_sorted(s),
    ensures
        names_sorted(fresh_entries(s, now, timeout_nanos)),
    decreases s.len(),
{
    if s.len() > 0 {
        let d = s.drop_last();
        assert(names_sorted(d));
        lemma_fresh_sorted(d, now, timeout_nanos);
        lemma_fresh_membership(d, now, timeout_nanos);
        let rest = fresh_entries(d, now, timeout_nanos);
        if !is_expired(s.last().1, now, timeout_nanos) {
            let t = rest.push(s.last());
            assert forall|i: int, j: int| #![trigger t[i], t[j]] 0 <= i < j < t.len() implies name_lt(
                t[i].0,
                t[j].0,
            ) by {
                if j == rest.len() {
                    assert(rest.contains(rest[i]));
                    assert(d.contains(rest[i]));
                    let k = choose|k: int| 0 <= k < d.len() && d[k] == rest[i];
                    assert(s[k] == rest[i]);
                    assert(name_lt(s[k].0, s[s.len() - 1].0));
                }
            }
        }
    }
}

/// Purging expired secrets removes exactly the secrets idle for longer than
/// the timeout, keeps every other secret as it was, and counts what it removed.
pub proof fn lemma_purge_expired_exact(s: Seq<NamedEntry>, now: u128, timeout_nanos: u128)
    requires
        names_sorted(s),
    ensures
        forall|k: Seq<char>|
            #[trigger] seq_to_map(fresh_entries(s, now, timeout_nanos)).dom().contains(k) <==> (
            seq_to_map(s).dom().contains(k) && !is_expired(seq_to_map(s)[k], now, timeout_nanos)),
        forall|k: Seq<char>|
            #[trigger] seq_to_map(fresh_entries(s, now, timeout_nanos)).dom().contains(k) ==> seq_to_map(
                fresh_entries(s, now, timeout_nanos),
            )[k] == seq_to_map(s)[k],
        expired_count(s, now, timeout_nanos) == seq_to_map(s).dom().len() - seq_to_map(
            fresh_entries(s, now, timeout_nanos),
        ).dom().len(),
{
    let f = fresh_entries(s, now, timeout_nanos);
    lemma_fresh_membership(s, now, timeout_nanos);
    lemma_fresh_sorted(s, now, timeout_nanos);
    lemma_names_are_domain(s);
    lemma_names_are_domain(f);
    assert forall|k: Seq<char>| #[trigger] seq_to_map(f).dom().contains(k) implies seq_to_map(s).dom().contains(k)
        && !is_expired(seq_to_map(s)[k], now, timeout_nanos) && seq_to_map(f)[k] == seq_to_map(s)[k] by {
        let j = choose|j: int| 0 <= j < f.len() && #[trigger] f[j].0 == k;
        lemma_map_at(f, j);
        assert(f.contains(f[j]));
        let i = choose|i: int| 0 <= i < s.len() && s[i] == f[j];
        lemma_map_at(s, i);
    }
    assert forall|k: Seq<char>|
        seq_to_map(s).dom().contains(k) && !is_expired(seq_to_map(s)[k], now, timeout_nanos) implies #[trigger] seq_to_map(
        f,
    ).dom().contains(k) by {
        let i = choose|i: int| 0 <= i < s.len() && #[trigger] s[i].0 == k;
        lemma_map_at(s, i);
        assert(s.contains(s[i]));
        assert(f.contains(s[i]));
        let j = choose|j: int| 0 <= j < f.len() && f[j] == s[i];
        lemma_map_at(f, j);
    }
}

/// A sweep at time `now` keeps exactly the secrets that have been idle for at
/// most the timeout, `timeout_secs` whole seconds, and keeps each as it was.
pub proof fn lemma_sweep_by_timeout_secs(pre: DaemonView, now: u128)
    requires
        names_sorted(pre.entries),
    ensures
        forall|k: Seq<char>|
            #[trigger] seq_to_map(fresh_entries(pre.entries, now, pre.timeout_nanos())).dom().contains(k)
                <==> (pre.secrets().dom().contains(k) && elapsed_nanos(now, pre.secrets()[k].last_accessed)
                <= pre.timeout_secs * 1_000_000_000),
        forall|k: Seq<char>|
            #[trigger] seq_to_map(fresh_entries(pre.entries, now, pre.timeout_nanos())).dom().contains(k)
                ==> seq_to_map(fresh_entries(pre.entries, now, pre.timeout_nanos()))[k] == pre.secrets()[k],
{
    assert(pre.timeout_nanos() == pre.timeout_secs * 1_000_000_000);
    lemma_purge_expired_exact(pre.entries, now, pre.timeout_nanos());
}

/// A secret stored at clock reading `t1` is removed by a later sweep at
/// reading `t2` exactly when more than the timeout has passed between the two
/// readings; otherwise it is kept as stored.
pub proof fn lemma_store_then_sweep(
    s0: DaemonView,
    s1: DaemonView,
    s2: DaemonView,
    key: Seq<char>,
    secret: Seq<char>,
    t1: u128,
    t2: u128,
)
    requires
        store_step(s0, s1, key, secret, t1),
        t1 <= t2,
        s2.entries == fresh_entries(s1.entries, t2, s1.timeout_nanos()),
    ensures
        s2.secrets().dom().contains(key) <==> t2 - t1 <= s1.timeout_secs * 1_000_000_000,
        s2.secrets().dom().contains(key) ==> s2.secrets()[key] == s1.secrets()[key],
{
    lemma_sweep_by_timeout_secs(s1, t2);
    assert(s1.secrets().dom().contains(key));
    assert(s2.secrets().dom().contains(key) == seq_to_map(
        fresh_entries(s1.entries, t2, s1.timeout_nanos()),
    ).dom().contains(key));
}

/// Reading a secret at clock reading `t1` restarts its idle time: a later
/// sweep at reading `t2` removes it exactly when more than the timeout has
/// passed since `t1`.
pub proof fn lemma_get_then_sweep(
    s0: DaemonView,
    s1: DaemonView,
    s2: DaemonView,
    key: Seq<char>,
    t1: u128,
    t2: u128,
    r: Response,
)
    requires
        get_step(s0, s1, key, t1, r),
        r is Secret,
        t1 <= t2,
        s2.entries == fresh_entries(s1.entries, t2, s1.timeout_nanos()),
    ensures
        s1.secrets().dom().contains(key),
        s1.secrets()[key].last_accessed == t1,
        s2.secrets().dom().contains(key) <==> t2 - t1 <= s1.timeout_secs * 1_000_000_000,
{
    assert(s0.secrets().dom().contains(key));
    assert(s1.secrets().dom().contains(key));
    lemma_sweep_by_timeout_secs(s1, t2);
    assert(s2.secrets().dom().contains(key) == seq_to_map(
        fresh_entries(s1.entries, t2, s1.timeout_nanos()),
    ).dom().contains(key));
}

/// The seconds since the most recent access that a status reports are at most
/// the seconds elapsed since any stored secret was accessed, and equal those
/// of some stored secret (zero when none is stored).
pub proof fn lemma_status_reports_most_recent_access(
    v: DaemonView,
    now: u128,
    st: crate::protocol::DaemonStatus,
)
    requires
        names_sorted(v.entries),
        status_matches(v, now, st),
    ensures
        forall|k: Seq<char>|
            #[trigger] v.secrets().dom().contains(k) ==> st.last_accessed_secs_ago <= secs_of_nanos(
                elapsed_nanos(now, v.secrets()[k].last_accessed),
            ),
        v.secrets().dom().len() > 0 ==> exists|k: Seq<char>|
            #[trigger] v.secrets().dom().contains(k) && st.last_accessed_secs_ago == secs_of_nanos(
                elapsed_nanos(now, v.secrets()[k].last_accessed),
            ),
        v.secrets().dom().len() == 0 ==> st.last_accessed_secs_ago == 0,
{
    lemma_least_elapsed_is_min(v.entries, now);
    lemma_names_are_domain(v.entries);
    assert forall|k: Seq<char>| #[trigger] v.secrets().dom().contains(k) implies st.last_accessed_secs_ago
        <= secs_of_nanos(elapsed_nanos(now, v.secrets()[k].last_accessed)) by {
        let i = index_of_name(v.entries, k);
        lemma_map_at(v.entries, i);
        let m = crate::table::least_elapsed(v.entries, now)->0;
        let e = elapsed_nanos(now, v.entries[i].1.last_accessed);
        assert(m <= e);
        lemma_div_is_ordered(m as int, e as int, 1_000_000_000);
    }
    if v.entries.len() > 0 {
        let m = crate::table::least_elapsed(v.entries, now)->0;
        let i = choose|i: int|
            0 <= i < v.entries.len() && m == elapsed_nanos(now, #[trigger] v.entries[i].1.last_accessed);
        lemma_map_at(v.entries, i);
        assert(v.secrets().dom().contains(v.entries[i].0));
    }
}

/// A second sweep at the same moment removes nothing.
pub proof fn lemma_purge_expired_idempotent(s: Seq<NamedEntry>, now: u128, timeout_nanos: u128)
    ensures
        fresh_entries(fresh_entries(s, now, timeout_nanos), now, timeout_nanos) == fresh_entries(
            s,
            now,
            timeout_nanos,
        ),
        expired_count(fresh_entries(s, now, timeout_nanos), now, timeout_nanos) == 0,
    decreases s.len(),
{
    if s.len() > 0 {
        lemma_purge_expired_idempotent(s.drop_last(), now, timeout_nanos);
        let rest = fresh_entries(s.drop_last(), now, timeout_nanos);
        if !is_expired(s.last().1, now, timeout_nanos) {
            assert(rest.push(s.last()).drop_last() =~= rest);
        }
    }
}

/// Every stored blob is the sealing, under the daemon's key, of some
/// plaintext: nothing is ever held in the clear, and everything held can be
/// decrypted.
pub open spec fn all_sealed(v: DaemonView) -> bool {
    forall|k: Seq<char>| #[trigger] v.secrets().dom().contains(k) ==> exists|p: Seq<u8>|
        p.len() <= MAX_PLAINTEXT_LEN && #[trigger] sealed_blob(v.key, p, v.secrets()[k].blob)
}

/// A fresh daemon holds nothing, so holds nothing unsealed.
pub proof fn lemma_empty_all_sealed(v: DaemonView)
    requires
        v.entries.len() == 0,
    ensures
        all_sealed(v),
{
    assert forall|k: Seq<char>| !#[trigger] v.secrets().dom().contains(k) by {
        if v.secrets().dom().contains(k) {
            let i = choose|i: int| 0 <= i < v.entries.len() && #[trigger] v.entries[i].0 == k;
        }
    }
}

/// Every command keeps every stored blob a sealing under the daemon's key.
pub proof fn lemma_commands_keep_secrets_sealed(
    pre: DaemonView,
    post: DaemonView,
    cmd: Command,
    now: u128,
    r: Response,
)
    requires
        all_sealed(pre),
        command_allowed(cmd),
        command_step(pre, post, cmd, now, r),
    ensures
        all_sealed(post),
{
    assert forall|k: Seq<char>| #[trigger] post.secrets().dom().contains(k) implies exists|p: Seq<u8>|
        p.len() <= MAX_PLAINTEXT_LEN && #[trigger] sealed_blob(post.key, p, post.secrets()[k].blob) by {
        match cmd {
            Command::Store { key, secret } => {
                if k == key@ {
                    assert(sealed_blob(post.key, encode_utf8(secret@), post.secrets()[k].blob));
                } else {
                    assert(post.secrets().remove(key@).dom().contains(k));
                    assert(pre.secrets().dom().contains(k));
                    assert(post.secrets()[k] == post.secrets().remove(key@)[k]);
                    assert(pre.secrets()[k] == pre.secrets().remove(key@)[k]);
                    let p = choose|p: Seq<u8>|
                        p.len() <= MAX_PLAINTEXT_LEN && #[trigger] sealed_blob(pre.key, p, pre.secrets()[k].blob);
                    assert(sealed_blob(post.key, p, post.secrets()[k].blob));
                }
            },
            Command::Get { key } => {
                assert(pre.secrets().dom().contains(k));
                assert(post.secrets()[k].blob == pre.secrets()[k].blob);
                let p = choose|p: Seq<u8>|
                    p.len() <= MAX_PLAINTEXT_LEN && #[trigger] sealed_blob(pre.key, p, pre.secrets()[k].blob);
                assert(sealed_blob(post.key, p, post.secrets()[k].blob));
            },
            Command::Status => {},
            Command::Purge { key } => {
                match key {
                    Some(name) => {
                        assert(pre.secrets().dom().contains(k));
                        assert(post.secrets()[k] == pre.secrets()[k]);
                        let p = choose|p: Seq<u8>|
                            p.len() <= MAX_PLAINTEXT_LEN && #[trigger] sealed_blob(pre.key, p, pre.secrets()[k].blob);
                        assert(sealed_blob(post.key, p, post.secrets()[k].blob));
                    },
                    None => {
                        lemma_empty_all_sealed(post);
                    },
                }
            },
        }
    }
}

/// Purging expired secrets keeps every remaining blob a sealing.
pub proof fn lemma_purge_expired_keeps_secrets_sealed(pre: DaemonView, post: DaemonView, now: u128)
    requires
        all_sealed(pre),
        names_sorted(pre.entries),
        post.key == pre.key,
        post.entries == fresh_entries(pre.entries, now, pre.timeout_nanos()),
    ensures
        all_sealed(post),
{
    lemma_purge_expired_exact(pre.entries, now, pre.timeout_nanos());
    assert forall|k: Seq<char>| #[trigger] post.secrets().dom().contains(k) implies exists|p: Seq<u8>|
        p.len() <= MAX_PLAINTEXT_LEN && #[trigger] sealed_blob(post.key, p, post.secrets()[k].blob) by {
        assert(pre.secrets().dom().contains(k));
        let p = choose|p: Seq<u8>|
            p.len() <= MAX_PLAINTEXT_LEN && #[trigger] sealed_blob(pre.key, p, pre.secrets()[k].blob);
        assert(sealed_blob(post.key, p, post.secrets()[k].blob));
    }
}

/// While every blob is a sealing, reading a stored key always yields a
/// secret, never a decryption error.
pub proof fn lemma_stored_secret_readable(
    pre: DaemonView,
    post: DaemonView,
    key: Seq<char>,
    now: u128,
    r: Response,
)
    requires
        all_sealed(pre),
        pre.secrets().dom().contains(key),
        get_step(pre, post, key, now, r),
    ensures
        r is Secret,
{
    let p = choose|p: Seq<u8>|
        p.len() <= MAX_PLAINTEXT_LEN && #[trigger] sealed_blob(pre.key, p, pre.secrets()[key].blob);
}

/// A secret stored or read at time `t` is not purged by a sweep at a time
/// `now` no later than the timeout after `t`.
pub proof fn lemma_recent_survives(
    s: Seq<NamedEntry>,
    now: u128,
    timeout_nanos: u128,
    k: Seq<char>,
)
    requires
        names_sorted(s),
        seq_to_map(s).dom().contains(k),
        now <= seq_to_map(s)[k].last_accessed + timeout_nanos,
    ensures
        seq_to_map(fresh_entries(s, now, timeout_nanos)).dom().contains(k),
        seq_to_map(fresh_entries(s, now, timeout_nanos))[k] == seq_to_map(s)[k],
{
    lemma_purge_expired_exact(s, now, timeout_nanos);
    assert(!is_expired(seq_to_map(s)[k], now, timeout_nanos));
    assert(seq_to_map(fresh_entries(s, now, timeout_nanos)).dom().contains(k));
}

} // verus!
