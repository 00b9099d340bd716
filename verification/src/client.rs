//! The command-line client's decisions: how a secret read from a pipe or a
//! command is cleaned up, and what each daemon answer leads to.
use crate::protocol::{DaemonStatus, Response};
use vstd::prelude::*;
use vstd::string::{StrSliceExecFns, StringExecFns};

verus! {

/// `s` without the run of `c` that ends it.
pub open spec fn strip_trailing(s: Seq<char>, c: char) -> Seq<char>
    decreases s.len(),
{
    if s.len() > 0 && s.last() == c {
        strip_trailing(s.drop_last(), c)
    } else {
        s
    }
}

/// A secret as read: trailing newlines removed, then trailing carriage returns.
pub open spec fn trimmed_secret(s: Seq<char>) -> Seq<char> {
    strip_trailing(strip_trailing(s, '\n'), '\r')
}

/// Where the run of `c` ending `s.take(end)` begins.
fn trailing_run_start(s: &str, end: usize, c: char) -> (j: usize)
    requires
        end <= s@.len(),
    ensures
        j <= end,
        s@.subrange(0, j as int) == strip_trailing(s@.subrange(0, end as int), c),
{
    let mut j = end;
    while j > 0 && s.get_char(j - 1) == c
        invariant
            j <= end,
            end <= s@.len(),
            strip_trailing(s@.subrange(0, end as int), c) == strip_trailing(s@.subrange(0, j as int), c),
        decreases j,
    {
        assert(s@.subrange(0, j as int).drop_last() =~= s@.subrange(0, j - 1));
        j = j - 1;
    }
    j
}

/// Trim the trailing newline(s) and then carriage return(s) that a pipe or a
/// command's output may end with.
pub fn trim_secret(s: &str) -> (r: String)
    ensures
        r@ == trimmed_secret(s@),
{
    let n = s.unicode_len();
    assert(s@.subrange(0, n as int) =~= s@);
    let a = trailing_run_start(s, n, '\n');
    let b = trailing_run_start(s, a, '\r');
    s.substring_char(0, b).to_owned()
}

/// `s` without the run of carriage returns and newlines that ends it.
pub open spec fn strip_line_ending(s: Seq<char>) -> Seq<char>
    decreases s.len(),
{
    if s.len() > 0 && (s.last() == '\r' || s.last() == '\n') {
        strip_line_ending(s.drop_last())
    } else {
        s
    }
}

/// A line read from a terminal or a pipe without its line ending (any mix of
/// carriage returns and newlines at its end).
pub fn trim_line_ending(s: &str) -> (r: String)
    ensures
        r@ == strip_line_ending(s@),
{
    let n = s.unicode_len();
    let mut j = n;
    assert(s@.subrange(0, n as int) =~= s@);
    while j > 0 && (s.get_char(j - 1) == '\r' || s.get_char(j - 1) == '\n')
        invariant
            j <= n,
            n == s@.len(),
            strip_line_ending(s@) == strip_line_ending(s@.subrange(0, j as int)),
        decreases j,
    {
        assert(s@.subrange(0, j as int).drop_last() =~= s@.subrange(0, j - 1));
        j = j - 1;
    }
    s.substring_char(0, j).to_owned()
}

/// Whole decimal digits of `n`, most significant first.
pub open spec fn decimal(n: nat) -> Seq<char>
    decreases n,
{
    if n < 10 {
        seq![digit_char(n)]
    } else {
        decimal(n / 10).push(digit_char(n % 10))
    }
}

/// The ASCII digit for `d < 10`.
pub open spec fn digit_char(d: nat) -> char {
    (48 + d) as char
}

/// Calls `u64`'s `to_string` (its `Display`): the number in decimal, with no
/// sign, padding or separators.
#[verifier::external_body]
fn decimal_text(n: u64) -> (r: String)
    ensures
        r@ == decimal(n as nat),
{
    n.to_string()
}

/// `items` joined with `sep` between consecutive items.
pub open spec fn joined(items: Seq<Seq<char>>, sep: Seq<char>) -> Seq<char>
    decreases items.len(),
{
    if items.len() == 0 {
        seq![]
    } else if items.len() == 1 {
        items[0]
    } else {
        joined(items.drop_last(), sep) + sep + items.last()
    }
}

/// The views of a list of strings.
pub open spec fn string_views(v: Seq<String>) -> Seq<Seq<char>> {
    Seq::new(v.len(), |i: int| v[i]@)
}

fn join_strings(items: &Vec<String>, sep: &str) -> (r: String)
    ensures
        r@ == joined(string_views(items@), sep@),
{
    let mut r = String::new();
    let mut i: usize = 0;
    while i < items.len()
        invariant
            i <= items@.len(),
            r@ == joined(string_views(items@).take(i as int), sep@),
        decreases items@.len() - i,
    {
        let ghost views = string_views(items@);
        assert(views.take(i + 1).drop_last() =~= views.take(i as int));
        if i > 0 {
            r.append(sep);
        } else {
            assert(views.take(1) =~= seq![views[0]]);
        }
        r.append(items[i].as_str());
        i = i + 1;
    }
    assert(string_views(items@).take(i as int) =~= string_views(items@));
    r
}

/// The text of a flag.
pub open spec fn bool_text(b: bool) -> Seq<char> {
    if b {
        "true"@
    } else {
        "false"@
    }
}

/// The lines by which the client reports a daemon's status.
pub open spec fn status_lines(st: DaemonStatus) -> Seq<Seq<char>> {
    seq![
        "has_secret: "@ + bool_text(st.has_secret),
        "count: "@ + decimal(st.count as nat),
        "keys: "@ + joined(string_views(st.keys@), ", "@),
        "last_accessed_secs_ago: "@ + decimal(st.last_accessed_secs_ago as nat),
        "timeout_secs: "@ + decimal(st.timeout_secs as nat),
    ]
}

/// The lines by which the client reports a daemon's status, one field each.
pub fn status_report(st: &DaemonStatus) -> (lines: Vec<String>)
    ensures
        string_views(lines@) == status_lines(*st),
{
    let mut has = String::from_str("has_secret: ");
    if st.has_secret {
        has.append("true");
    } else {
        has.append("false");
    }
    let mut count = String::from_str("count: ");
    let count_text = decimal_text(st.count as u64);
    count.append(count_text.as_str());
    let mut keys = String::from_str("keys: ");
    let keys_text = join_strings(&st.keys, ", ");
    keys.append(keys_text.as_str());
    let mut ago = String::from_str("last_accessed_secs_ago: ");
    let ago_text = decimal_text(st.last_accessed_secs_ago);
    ago.append(ago_text.as_str());
    let mut timeout = String::from_str("timeout_secs: ");
    let timeout_text = decimal_text(st.timeout_secs);
    timeout.append(timeout_text.as_str());
    let mut lines: Vec<String> = Vec::new();
    lines.push(has);
    lines.push(count);
    lines.push(keys);
    lines.push(ago);
    lines.push(timeout);
    assert(string_views(lines@) =~= status_lines(*st));
    lines
}

/// What the client does with the daemon's answer to a store, a purge or a
/// status request.
#[derive(Debug)]
pub enum ReplyAction {
    /// The request succeeded: report success.
    Done,
    /// Report the status lines.
    Report(Vec<String>),
    /// Fail with this message.
    Fail(String),
    /// An answer the request does not call for: fail, showing it.
    Unexpected(Response),
}

/// What the client does with the daemon's answer to a read.
#[derive(Debug)]
pub enum GetAction {
    /// Print the secret.
    Print(String),
    /// Nothing is stored: obtain the secret (from the source command or a
    /// prompt), store it, and print it.
    Acquire,
    /// Fail with this message.
    Fail(String),
    /// An answer a read does not call for: fail, showing it.
    Unexpected(Response),
}

/// The daemon's answer to storing a secret.
pub fn store_reply(resp: Response) -> (a: ReplyAction)
    ensures
        match resp {
            Response::Done => a is Done,
            Response::Error(m) => a matches ReplyAction::Fail(x) && x@ == m@,
            _ => a matches ReplyAction::Unexpected(r) && r == resp,
        },
{
    match resp {
        Response::Done => ReplyAction::Done,
        Response::Error(m) => ReplyAction::Fail(m),
        other => ReplyAction::Unexpected(other),
    }
}

/// The daemon's answer to reading a secret. A stored secret is printed as it
/// is, so a source command given for the key is never run.
pub fn get_reply(resp: Response) -> (a: GetAction)
    ensures
        match resp {
            Response::Secret(s) => a matches GetAction::Print(x) && x@ == s@,
            Response::NoSecret => a is Acquire,
            Response::Error(m) => a matches GetAction::Fail(x) && x@ == m@,
            _ => a matches GetAction::Unexpected(r) && r == resp,
        },
{
    match resp {
        Response::Secret(s) => GetAction::Print(s),
        Response::NoSecret => GetAction::Acquire,
        Response::Error(m) => GetAction::Fail(m),
        other => GetAction::Unexpected(other),
    }
}

/// The message for a purge that found nothing.
pub open spec fn nothing_to_purge_text(key: Option<Seq<char>>) -> Seq<char> {
    match key {
        Some(k) => "no secret stored for '"@ + k + "'"@,
        None => "no secret stored"@,
    }
}

/// The daemon's answer to purging `key` (every secret when `None`).
pub fn purge_reply(resp: Response, key: Option<String>) -> (a: ReplyAction)
    ensures
        match resp {
            Response::Done => a is Done,
            Response::NoSecret => a matches ReplyAction::Fail(x) && x@ == nothing_to_purge_text(
                match key {
                    Some(k) => Some(k@),
                    None => None,
                },
            ),
            Response::Error(m) => a matches ReplyAction::Fail(x) && x@ == m@,
            _ => a matches ReplyAction::Unexpected(r) && r == resp,
        },
{
    match resp {
        Response::Done => ReplyAction::Done,
        Response::NoSecret => match key {
            Some(k) => {
                let mut m = String::from_str("no secret stored for '");
                m.append(k.as_str());
                m.append("'");
                ReplyAction::Fail(m)
            },
            None => ReplyAction::Fail(String::from_str("no secret stored")),
        },
        Response::Error(m) => ReplyAction::Fail(m),
        other => ReplyAction::Unexpected(other),
    }
}

/// The daemon's answer to a status request.
pub fn status_reply(resp: Response) -> (a: ReplyAction)
    ensures
        match resp {
            Response::Status(st) => a matches ReplyAction::Report(lines) && string_views(lines@)
                == status_lines(st),
            Response::Error(m) => a matches ReplyAction::Fail(x) && x@ == m@,
            _ => a matches ReplyAction::Unexpected(r) && r == resp,
        },
{
    match resp {
        Response::Status(st) => ReplyAction::Report(status_report(&st)),
        Response::Error(m) => ReplyAction::Fail(m),
        other => ReplyAction::Unexpected(other),
    }
}

/// The prompt shown when nothing is stored under `key` and no source is given.
pub fn secret_prompt(key: &str) -> (p: String)
    ensures
        p@ == "No secret stored for '"@ + key@ + "'. Enter secret: "@,
{
    let mut p = String::from_str("No secret stored for '");
    p.append(key);
    p.append("'. Enter secret: ");
    p
}

} // verus!
