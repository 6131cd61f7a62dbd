//! Other hosts' sessions, in the same list.
//!
//! A pane holding `ssh <host> -t tmux …` is a window onto a whole other tmux
//! server, and the agents running in it are invisible to everything else here:
//! they are not this server's panes and not this box's processes. But that host
//! has a taimux of its own, and its list is a complete answer about it.
//!
//! **The rule that makes this safe is: federate, never reach in.** Each host is
//! asked about ITSELF, so the hook state, the screen reading, the versions and the
//! transcripts all stay on the side that can see them, and a list is local-only
//! because it is the wire format. That one rule is what makes a cycle between two
//! boxes ssh'd into each other structurally impossible.
//!
//! **Hosts are DISCOVERED, not configured**: whatever the local panes are already
//! ssh'd into is the list.
//!
//! Nothing on the refresh path waits on the network except a host with NOTHING
//! cached. Everything else is served as it stands and refreshed behind the picker.
use vstd::prelude::*;

use crate::index;
use crate::panes;
use crate::paths;
use crate::proc;
use crate::proc::Foreground;
use crate::text;
use crate::text::{
    chars_of, dec, dec_int, drop_empty, lines, parse_i64, same, split, split_once,
    starts_with, tail_after, trim,
};

verus! {

/// Rebuilding PATH on the far side, because `taimux` is NOT on a non-interactive
/// ssh's PATH on a stock install. It also covers a host that has taimux only as a
/// tmux plugin, and it exits 127 when there is none, which is how "no taimux over
/// there" is told apart from "unreachable".
pub const REMOTE_TAIMUX: &'static str = "PATH=\"$HOME/.local/bin:$HOME/bin:$PATH\"; for d in \"$HOME\"/.tmux/plugins/taimux*/ \"$HOME\"/.config/tmux/plugins/taimux*/; do [ -x \"$d/taimux\" ] && PATH=\"$PATH:${d%/}\"; done; command -v taimux >/dev/null 2>&1 || exit 127; exec taimux";

/// The subcommand that another host's index is asked for with. Nothing but the
/// spelling ties it to the command that answers.
pub const INDEX_DUMP_CMD: &'static str = "index-dump";

/// The preamble, for a caller that needs to build its own remote command.
pub fn remote_taimux() -> (r: &'static str)
    ensures
        r@ == REMOTE_TAIMUX@,
{
    REMOTE_TAIMUX
}

pub open spec fn ssh_line(host: Seq<char>, remote: Seq<char>, connect: u64) -> Seq<Seq<char>> {
    seq![
        "-n"@,
        "-o"@,
        "BatchMode=yes"@,
        "-o"@,
        "ConnectTimeout="@ + text::decimal(connect as nat),
        "--"@,
        host,
        remote,
    ]
}

/// Has a child that was started at that moment had its time, in milliseconds? It may
/// take so many seconds and no longer: the limit is the only way out of a popup whose
/// helper does not answer.
pub fn overdue(started: u64, now: u64, secs: u64) -> (r: bool)
    ensures
        r == (now - started >= secs * 1000),
{
    now >= started && (now - started) as u128 >= secs as u128 * 1000
}

/// The arguments of one ssh: batch-mode, with a limit on connecting, and never
/// reading stdin, because it runs behind a picker that owns the terminal.
pub fn ssh_args(host: &str, remote: &str, connect: u64) -> (r: Vec<String>)
    ensures
        text::texts(r@) == ssh_line(host@, remote@, connect),
{
    let mut v: Vec<String> = Vec::new();
    v.push("-n".to_owned());
    v.push("-o".to_owned());
    v.push("BatchMode=yes".to_owned());
    v.push("-o".to_owned());
    let mut t = "ConnectTimeout=".to_owned();
    let n = dec(connect);
    t.append(&n);
    v.push(t);
    v.push("--".to_owned());
    v.push(host.to_owned());
    v.push(remote.to_owned());
    assert(text::texts(v@) =~= ssh_line(host@, remote@, connect));
    v
}

pub open spec fn why(status: i32) -> Seq<char> {
    if status == 127 {
        "no taimux on that host"@
    } else if status == 124 || status == 137 {
        "timed out"@
    } else if status == 255 {
        "unreachable"@
    } else {
        "ssh failed"@
    }
}

/// Why an ssh failed, in the words the row will carry.
pub fn ssh_why(status: i32) -> (r: &'static str)
    ensures
        r@ == why(status),
{
    if status == 127 {
        "no taimux on that host"
    } else if status == 124 || status == 137 {
        "timed out"
    } else if status == 255 {
        "unreachable"
    } else {
        "ssh failed"
    }
}

// ---------------------------------------------------------------------------
// Which host a pane is a window onto
// ---------------------------------------------------------------------------
/// The options that take a separate value, so that the value is not read as a
/// host.
pub const TAKES_VALUE: &'static str = "BbcDEeFIiJLlmOopQRSWw";

/// Is the word an option whose value is the word behind it?
pub open spec fn takes_value(w: Seq<char>) -> bool {
    w.len() == 2 && w[0] == '-' && TAKES_VALUE@.contains(w[1])
}

/// The place of the word that runs ssh, from `i` on. It is looked for as a WORD
/// rather than at the front: a script named ssh runs as `bash /path/to/ssh host …`.
pub open spec fn ssh_word(w: Seq<Seq<char>>, i: int) -> Option<int>
    decreases w.len() - i,
{
    if i < 0 || i >= w.len() {
        None
    } else if text::after_last(w[i], '/') == "ssh"@ {
        Some(i)
    } else {
        ssh_word(w, i + 1)
    }
}

/// The place of the host: the first word from `i` on that is neither an option nor
/// the value of one.
pub open spec fn host_word(w: Seq<Seq<char>>, i: int) -> Option<int>
    decreases w.len() - i,
{
    if i < 0 || i >= w.len() {
        None
    } else if takes_value(w[i]) {
        if i + 1 < w.len() {
            host_word(w, i + 2)
        } else {
            None
        }
    } else if "-"@.is_prefix_of(w[i]) {
        host_word(w, i + 1)
    } else {
        Some(i)
    }
}

/// Can the text be a host? Anything unexpected is dropped rather than escaped: the
/// name becomes a cache filename and an ssh argument, and there is no such thing as
/// a hostname needing a quote.
pub open spec fn plain_host(h: Seq<char>) -> bool {
    &&& h.len() > 0
    &&& forall|i: int| 0 <= i < h.len() ==> host_char(#[trigger] h[i])
}

pub open spec fn host_char(c: char) -> bool {
    text::is_alnum(c) || c == '.' || c == '_' || c == '@' || c == '-'
}

/// The host that an argv is a window onto: the one ssh connects to, where `tmux`
/// is what runs over there.
pub open spec fn host_in(argv: Seq<char>) -> Option<Seq<char>> {
    let w = text::nonempty(text::fields(argv, ' '));
    match ssh_word(w, 0) {
        None => None,
        Some(s) => match host_word(w, s + 1) {
            None => None,
            Some(h) => if w.skip(h + 1).contains("tmux"@) && plain_host(w[h]) {
                Some(w[h])
            } else {
                None
            },
        },
    }
}

proof fn lemma_ssh_word(w: Seq<Seq<char>>, i: int)
    requires
        0 <= i,
    ensures
        match ssh_word(w, i) {
            Some(k) => i <= k < w.len(),
            None => true,
        },
    decreases w.len() - i,
{
    if i < w.len() && text::after_last(w[i], '/') != "ssh"@ {
        lemma_ssh_word(w, i + 1);
    }
}

fn find_ssh(w: &Vec<String>) -> (r: Option<usize>)
    ensures
        match r {
            Some(i) => ssh_word(text::texts(w@), 0) == Some(i as int) && i < w.len(),
            None => ssh_word(text::texts(w@), 0) is None,
        },
{
    let ghost all = text::texts(w@);
    let mut i: usize = 0;
    while i < w.len()
        invariant
            i <= w@.len(),
            all == text::texts(w@),
            ssh_word(all, i as int) == ssh_word(all, 0),
        decreases w@.len() - i,
    {
        assert(all[i as int] == w@[i as int]@);
        let base = tail_after(&w[i], '/');
        if same(&base, "ssh") {
            return Some(i);
        }
        i = i + 1;
    }
    None
}

fn has_value(w: &str) -> (r: bool)
    ensures
        r == takes_value(w@),
{
    let v = chars_of(w);
    v.len() == 2 && v[0] == '-' && text::contains_char(TAKES_VALUE, v[1])
}

fn find_host(w: &Vec<String>, from: usize) -> (r: Option<usize>)
    requires
        from <= w.len(),
    ensures
        match r {
            Some(i) => host_word(text::texts(w@), from as int) == Some(i as int) && i < w.len(),
            None => host_word(text::texts(w@), from as int) is None,
        },
{
    let ghost all = text::texts(w@);
    let n: usize = w.len();
    let mut i: usize = from;
    while i < n
        invariant
            i <= n == w@.len(),
            all == text::texts(w@),
            host_word(all, i as int) == host_word(all, from as int),
        decreases n - i,
    {
        assert(all[i as int] == w@[i as int]@);
        if has_value(&w[i]) {
            if n - i <= 1 {
                return None;
            }
            i = i + 2;
        } else if starts_with(&w[i], "-") {
            i = i + 1;
        } else {
            return Some(i);
        }
    }
    None
}

fn is_plain_host(h: &str) -> (r: bool)
    ensures
        r == plain_host(h@),
{
    let v = chars_of(h);
    let mut i: usize = 0;
    while i < v.len()
        invariant
            i <= v@.len(),
            v@ == h@,
            forall|k: int| 0 <= k < i ==> host_char(#[trigger] h@[k]),
        decreases v@.len() - i,
    {
        let c = v[i];
        if !(text::alnum(c) || c == '.' || c == '_' || c == '@' || c == '-') {
            assert(!host_char(h@[i as int]));
            return false;
        }
        i = i + 1;
    }
    v.len() > 0
}

/// The host an `ssh … tmux …` argv connects to, or None.
///
/// Finds the ssh word, then takes the first bare word after it as the host,
/// skipping options and the values of the ones that take a separate argument.
/// `tmux` has to appear AFTER that: it is what separates a pane holding a nested
/// SERVER from one merely running a remote command, and from a plain remote login
/// shell, neither of which has anything to federate.
pub fn ssh_host(argv: &str) -> (r: Option<String>)
    ensures
        text::opt_string(r) == host_in(argv@),
{
    let all = split(argv, ' ');
    let w = drop_empty(&all);
    let ghost ws = text::texts(w@);
    assert(ws.len() == w@.len());
    match find_ssh(&w) {
        None => None,
        Some(s) => match find_host(&w, s + 1) {
            None => None,
            Some(h) => {
                assert(ws[h as int] == w@[h as int]@);
                let ghost tail = ws.skip(h + 1);
                let mut i: usize = h + 1;
                let mut tmux = false;
                while i < w.len()
                    invariant
                        h < i <= w@.len(),
                        ws == text::texts(w@),
                        tail == ws.skip(h + 1),
                        tmux == exists|k: int|
                            0 <= k < i - h - 1 && #[trigger] tail[k] == "tmux"@,
                    decreases w@.len() - i,
                {
                    assert(tail[i - h - 1] == w@[i as int]@);
                    if same(&w[i], "tmux") {
                        tmux = true;
                    }
                    i = i + 1;
                }
                assert(tmux == tail.contains("tmux"@));
                if tmux && is_plain_host(&w[h]) {
                    Some(w[h].clone())
                } else {
                    None
                }
            },
        },
    }
}

/// A host and the local pane it is reached through.
pub open spec fn pairs_view(v: Seq<(String, String)>) -> Seq<(Seq<char>, Seq<char>)> {
    v.map_values(|p: (String, String)| (p.0@, p.1@))
}

/// The first host among the processes in front of a tty, from `i` on. A tty can
/// carry more than one, so every one of them is tried.
pub open spec fn host_on(fg: Seq<proc::ForegroundView>, tty: Seq<char>, i: int) -> Option<Seq<char>>
    decreases fg.len() - i,
{
    if i < 0 || i >= fg.len() {
        None
    } else if fg[i].tty == tty && host_in(fg[i].argv) is Some {
        host_in(fg[i].argv)
    } else {
        host_on(fg, tty, i + 1)
    }
}

/// The hosts that panes are windows onto, each with its pane.
pub open spec fn windows(
    ps: Seq<(Seq<char>, Seq<char>)>,
    fg: Seq<proc::ForegroundView>,
) -> Seq<(Seq<char>, Seq<char>)>
    decreases ps.len(),
{
    if ps.len() == 0 {
        Seq::empty()
    } else {
        let rest = windows(ps.drop_last(), fg);
        match host_on(fg, panes::device(ps.last().1), 0) {
            Some(h) => rest.push((h, ps.last().0)),
            None => rest,
        }
    }
}

fn find_window(fg: &[Foreground], tty: &str) -> (r: Option<String>)
    ensures
        text::opt_string(r) == host_on(proc::foreground_view(fg@), tty@, 0),
{
    let ghost all = proc::foreground_view(fg@);
    let mut i: usize = 0;
    while i < fg.len()
        invariant
            i <= fg@.len(),
            all == proc::foreground_view(fg@),
            host_on(all, tty@, i as int) == host_on(all, tty@, 0),
        decreases fg@.len() - i,
    {
        assert(all[i as int] == fg@[i as int]@);
        if same(&fg[i].tty, tty) {
            if let Some(h) = ssh_host(&fg[i].argv) {
                return Some(h);
            }
        }
        i = i + 1;
    }
    None
}

/// host and the local pane it is reached through, for every ssh pane. `panes` is
/// pane id and tty for every pane of the server.
pub fn ssh_tmux_panes(panes: &[(String, String)], fg: &[Foreground]) -> (r: Vec<(String, String)>)
    ensures
        pairs_view(r@) == windows(pairs_view(panes@), proc::foreground_view(fg@)),
{
    let ghost all = pairs_view(panes@);
    let ghost front = proc::foreground_view(fg@);
    let mut out: Vec<(String, String)> = Vec::new();
    let mut i: usize = 0;
    assert(pairs_view(out@) =~= windows(all.take(0), front));
    while i < panes.len()
        invariant
            i <= panes@.len(),
            all == pairs_view(panes@),
            front == proc::foreground_view(fg@),
            pairs_view(out@) == windows(all.take(i as int), front),
        decreases panes@.len() - i,
    {
        assert(all.take(i + 1).drop_last() =~= all.take(i as int));
        assert(all.take(i + 1).last() == (panes@[i as int].0@, panes@[i as int].1@));
        let tty = panes::device_name(&panes[i].1);
        if let Some(h) = find_window(fg, &tty) {
            let ghost before = pairs_view(out@);
            let id = panes[i].0.clone();
            let ghost hv = h@;
            out.push((h, id));
            assert(pairs_view(out@) =~= before.push((hv, id@)));
        }
        i = i + 1;
    }
    assert(all.take(all.len() as int) =~= all);
    out
}

// ---------------------------------------------------------------------------
// What is cached
// ---------------------------------------------------------------------------
/// Where what other hosts said is kept, inside the runtime directory.
pub fn cache_dir(runtime: &str) -> (r: String)
    ensures
        r@ == paths::joined(runtime@, "remote"@),
{
    paths::join(runtime, "remote")
}

/// The file that holds the host list of the tmux server at `tmux`, which is what
/// `$TMUX` holds: the server's socket, and behind a comma what is no part of it.
pub open spec fn hosts_name(tmux: Seq<char>) -> Seq<char> {
    let sock = text::fields(tmux, ',')[0];
    if sock.len() == 0 {
        ".hosts"@
    } else {
        ".hosts."@ + text::turned(sock, '/', '%')
    }
}

/// The host-list cache, keyed by tmux SERVER, because that is what it is a property
/// of: the list comes off that server's panes.
pub fn hosts_file(dir: &str, tmux: &str) -> (r: String)
    ensures
        r@ == paths::joined(dir@, hosts_name(tmux@)),
{
    let parts = split(tmux, ',');
    assert(text::texts(parts@)[0] == parts@[0]@);
    if parts[0].as_str().is_empty() {
        return paths::join(dir, ".hosts");
    }
    let mut name = ".hosts.".to_owned();
    let t = text::turn(&parts[0], '/', '%');
    name.append(&t);
    paths::join(dir, &name)
}

/// A cached file's header: a status, when it was written, and perhaps a reason.
pub struct HeaderView {
    pub status: Seq<char>,
    pub stamp: i64,
    pub reason: Seq<char>,
}

pub open spec fn header_line(line: Seq<char>) -> HeaderView {
    match text::cut(line, ' ') {
        None => HeaderView { status: line, stamp: 0, reason: Seq::empty() },
        Some((status, rest)) => {
            let (stamp, reason) = match text::cut(rest, ' ') {
                None => (rest, Seq::<char>::empty()),
                Some((a, b)) => (a, b),
            };
            HeaderView {
                status,
                stamp: match text::integer_i64(stamp) {
                    Some(n) => n,
                    None => 0,
                },
                reason,
            }
        },
    }
}

pub open spec fn header_of(file: Seq<char>) -> Option<HeaderView> {
    let ls = text::lines_of(file);
    if ls.len() == 0 {
        None
    } else {
        Some(header_line(ls[0]))
    }
}

pub open spec fn header_in(file: Option<Seq<char>>) -> Option<HeaderView> {
    match file {
        Some(t) => header_of(t),
        None => None,
    }
}

/// A cached file's header: `<status> <epoch> [reason]`.
///
/// One line, so a reader learns both what happened and how old it is from ONE read.
pub fn header(file: &str) -> (r: Option<(String, i64, String)>)
    ensures
        match r {
            Some((status, stamp, reason)) => header_of(file@) == Some(
                HeaderView { status: status@, stamp, reason: reason@ },
            ),
            None => header_of(file@) is None,
        },
{
    let ls = lines(file);
    assert(text::texts(ls@).len() == ls@.len());
    if ls.len() == 0 {
        return None;
    }
    assert(text::texts(ls@)[0] == ls@[0]@);
    let none = String::new();
    assert(none@ =~= Seq::<char>::empty());
    match split_once(&ls[0], ' ') {
        None => Some((ls[0].clone(), 0, none)),
        Some((status, rest)) => {
            let (stamp, reason) = match split_once(&rest, ' ') {
                None => (rest, none),
                Some((a, b)) => (a, b),
            };
            let n: i64 = match parse_i64(&stamp) {
                Some(n) => n,
                None => 0,
            };
            Some((status, n, reason))
        },
    }
}

fn header_maybe(file: Option<&str>) -> (r: Option<(String, i64, String)>)
    ensures
        match r {
            Some((status, stamp, reason)) => header_in(text::opt(file)) == Some(
                HeaderView { status: status@, stamp, reason: reason@ },
            ),
            None => header_in(text::opt(file)) is None,
        },
{
    match file {
        Some(t) => header(t),
        None => None,
    }
}

// ---------------------------------------------------------------------------
// The hosts
// ---------------------------------------------------------------------------
/// Does one text stand before another, character by character?
pub open spec fn before(a: Seq<char>, b: Seq<char>) -> bool
    decreases b.len(),
{
    if b.len() == 0 {
        false
    } else if a.len() == 0 {
        true
    } else if a[0] != b[0] {
        a[0] < b[0]
    } else {
        before(a.skip(1), b.skip(1))
    }
}

proof fn lemma_before_total(a: Seq<char>, b: Seq<char>)
    ensures
        before(a, b) || before(b, a) || a == b,
        !(before(a, b) && before(b, a)),
    decreases b.len(),
{
    if a.len() == 0 && b.len() == 0 {
        assert(a =~= b);
    } else if a.len() > 0 && b.len() > 0 && a[0] == b[0] {
        lemma_before_total(a.skip(1), b.skip(1));
        if a.skip(1) == b.skip(1) {
            assert(a =~= seq![a[0]] + a.skip(1));
            assert(b =~= seq![b[0]] + b.skip(1));
        }
    }
}

proof fn lemma_before_transitive(a: Seq<char>, b: Seq<char>, c: Seq<char>)
    requires
        before(a, b),
        before(b, c),
    ensures
        before(a, c),
    decreases c.len(),
{
    if a.len() > 0 && b.len() > 0 && c.len() > 0 && a[0] == b[0] && b[0] == c[0] {
        lemma_before_transitive(a.skip(1), b.skip(1), c.skip(1));
    }
}

fn is_before(a: &str, b: &str) -> (r: bool)
    ensures
        r == before(a@, b@),
{
    let v = chars_of(a);
    let w = chars_of(b);
    let mut i: usize = 0;
    assert(v@.skip(0) =~= v@ && w@.skip(0) =~= w@);
    loop
        invariant
            i <= v@.len(),
            i <= w@.len(),
            v@ == a@,
            w@ == b@,
            before(v@.skip(i as int), w@.skip(i as int)) == before(a@, b@),
        decreases w@.len() - i,
    {
        if i >= w.len() {
            return false;
        }
        if i >= v.len() {
            return true;
        }
        assert(v@.skip(i as int)[0] == v@[i as int] && w@.skip(i as int)[0] == w@[i as int]);
        if v[i] != w[i] {
            return v[i] < w[i];
        }
        assert(v@.skip(i as int).skip(1) =~= v@.skip(i + 1));
        assert(w@.skip(i as int).skip(1) =~= w@.skip(i + 1));
        i = i + 1;
    }
}

/// Is each of the texts before all that follow it?
pub open spec fn rising(v: Seq<Seq<char>>) -> bool {
    forall|i: int, j: int| 0 <= i < j < v.len() ==> before(#[trigger] v[i], #[trigger] v[j])
}

fn put(v: &mut Vec<String>, h: &str)
    requires
        rising(text::texts(old(v)@)),
    ensures
        rising(text::texts(final(v)@)),
        forall|x: Seq<char>|
            text::texts(final(v)@).contains(x) <==> text::texts(old(v)@).contains(x) || x == h@,
{
    let ghost was = text::texts(v@);
    let mut k: usize = 0;
    while k < v.len() && is_before(&v[k], h)
        invariant
            k <= v@.len(),
            was == text::texts(v@),
            rising(was),
            forall|i: int| 0 <= i < k ==> before(#[trigger] was[i], h@),
        decreases v@.len() - k,
    {
        assert(was[k as int] == v@[k as int]@);
        k = k + 1;
    }
    if k < v.len() {
        assert(was[k as int] == v@[k as int]@);
        if same(&v[k], h) {
            assert(was[k as int] == h@);
            return;
        }
        proof {
            lemma_before_total(was[k as int], h@);
        }
    }
    let t = h.to_owned();
    v.insert(k, t);
    let ghost now = text::texts(v@);
    assert(now =~= was.insert(k as int, h@));
    assert forall|i: int, j: int| 0 <= i < j < now.len() implies before(
        #[trigger] now[i],
        #[trigger] now[j],
    ) by {
        if j < k {
            assert(now[i] == was[i] && now[j] == was[j]);
        } else if j == k {
            assert(now[i] == was[i] && now[j] == h@);
        } else if i == k {
            assert(now[j] == was[j - 1]);
            if j - 1 > k {
                assert(before(was[k as int], was[j - 1]));
                lemma_before_transitive(h@, was[k as int], was[j - 1]);
            }
        } else if i < k {
            assert(now[i] == was[i] && now[j] == was[j - 1]);
        } else {
            assert(now[i] == was[i - 1] && now[j] == was[j - 1]);
        }
    }
    assert forall|x: Seq<char>| now.contains(x) <==> was.contains(x) || x == h@ by {
        if was.contains(x) {
            let i = choose|i: int| 0 <= i < was.len() && was[i] == x;
            if i < k {
                assert(now[i] == x);
            } else {
                assert(now[i + 1] == x);
            }
        }
        if x == h@ {
            assert(now[k as int] == x);
        }
        if now.contains(x) {
            let i = choose|i: int| 0 <= i < now.len() && now[i] == x;
            if i < k {
                assert(was[i] == x);
            } else if i > k {
                assert(was[i - 1] == x);
            }
        }
    }
}

/// Is it the name of a host that some pane is a window onto?
pub open spec fn names_host(found: Seq<(Seq<char>, Seq<char>)>, h: Seq<char>) -> bool {
    exists|i: int| 0 <= i < found.len() && (#[trigger] found[i]).0 == h
}

/// The hosts that were found, each once and in order.
pub fn hosts_of(found: &Vec<(String, String)>) -> (r: Vec<String>)
    ensures
        rising(text::texts(r@)),
        forall|h: Seq<char>|
            text::texts(r@).contains(h) <==> names_host(pairs_view(found@), h),
{
    let ghost all = pairs_view(found@);
    let mut out: Vec<String> = Vec::new();
    let mut i: usize = 0;
    while i < found.len()
        invariant
            i <= found@.len(),
            all == pairs_view(found@),
            rising(text::texts(out@)),
            forall|h: Seq<char>|
                text::texts(out@).contains(h) <==> exists|k: int|
                    0 <= k < i && (#[trigger] all[k]).0 == h,
        decreases found@.len() - i,
    {
        assert(all[i as int].0 == found@[i as int].0@);
        let ghost had = text::texts(out@);
        put(&mut out, &found[i].0);
        assert forall|h: Seq<char>|
            text::texts(out@).contains(h) <==> exists|k: int|
                0 <= k < i + 1 && (#[trigger] all[k]).0 == h by {
            if had.contains(h) {
                let k = choose|k: int| 0 <= k < i && (#[trigger] all[k]).0 == h;
                assert(all[k].0 == h);
            }
            if exists|k: int| 0 <= k < i + 1 && (#[trigger] all[k]).0 == h {
                let k = choose|k: int| 0 <= k < i + 1 && (#[trigger] all[k]).0 == h;
                if k < i {
                    assert(all[k].0 == h);
                    assert(had.contains(h));
                }
            }
        }
        i = i + 1;
    }
    assert forall|h: Seq<char>|
        text::texts(out@).contains(h) <==> names_host(all, h) by {
        if names_host(all, h) {
            let k = choose|k: int| 0 <= k < all.len() && (#[trigger] all[k]).0 == h;
            assert(all[k].0 == h);
        }
    }
    out
}

pub open spec fn hosts_text(hosts: Seq<Seq<char>>, now: i64) -> Seq<char> {
    "hosts "@ + text::decimal_int(now as int) + "\n"@ + text::joined(hosts, "\n"@) + "\n"@
}

/// The host list as it is cached. The header line is unconditional, so the file is
/// never empty and the write is never mistaken for a failure.
pub fn hosts_body(hosts: &Vec<String>, now: i64) -> (r: String)
    ensures
        r@ == hosts_text(text::texts(hosts@), now),
{
    let mut t = "hosts ".to_owned();
    let n = dec_int(now);
    t.append(&n);
    t.append("\n");
    let all = text::join(hosts, "\n");
    t.append(&all);
    t.append("\n");
    t
}

pub open spec fn cached_hosts(file: Option<Seq<char>>, now: int, ttl: int) -> Option<
    Seq<Seq<char>>,
> {
    match header_in(file) {
        Some(h) => if h.status == "hosts"@ && now - h.stamp < ttl {
            Some(text::nonempty(text::lines_of(file->0).skip(1)))
        } else {
            None
        },
        None => None,
    }
}

/// The hosts as they are cached, where the list is not too old.
///
/// Discovery is a full process scan and it answers the same thing tick after tick,
/// since panes do not open and close on the timescale a picker refreshes on.
pub fn hosts_cached(file: Option<&str>, now: i64, ttl: i64) -> (r: Option<Vec<String>>)
    ensures
        match r {
            Some(v) => cached_hosts(text::opt(file), now as int, ttl as int) == Some(
                text::texts(v@),
            ),
            None => cached_hosts(text::opt(file), now as int, ttl as int) is None,
        },
{
    match file {
        None => None,
        Some(t) => match header(t) {
            None => None,
            Some((status, stamp, _)) => {
                if !same(&status, "hosts") || (now as i128) - (stamp as i128) >= ttl as i128 {
                    return None;
                }
                let mut ls = lines(t);
                let ghost all = text::texts(ls@);
                assert(all.len() == ls@.len());
                let first = ls.remove(0);
                assert(text::texts(ls@) =~= all.skip(1));
                Some(drop_empty(&ls))
            },
        },
    }
}

// ---------------------------------------------------------------------------
// What a host said
// ---------------------------------------------------------------------------
pub open spec fn reply_text(status: i32, out: Seq<char>, now: i64) -> Seq<char> {
    if status == 0 {
        "ok "@ + text::decimal_int(now as int) + "\n"@ + out
    } else {
        "err "@ + text::decimal_int(now as int) + " "@ + why(status) + "\n"@
    }
}

/// What is written down of a host's reply. A host that answered with status 0 is a
/// participant from then on.
pub fn reply(status: i32, out: &str, now: i64) -> (r: String)
    ensures
        r@ == reply_text(status, out@, now),
{
    let n = dec_int(now);
    if status == 0 {
        let mut t = "ok ".to_owned();
        t.append(&n);
        t.append("\n");
        t.append(out);
        t
    } else {
        let mut t = "err ".to_owned();
        t.append(&n);
        t.append(" ");
        t.append(ssh_why(status));
        t.append("\n");
        t
    }
}

/// Is a line of a reply one of the list's rows?
pub open spec fn is_row(line: Seq<char>) -> bool {
    text::fields(line, '\t').len() == 8
}

/// The rows among the lines, each with the host before its pane id.
pub open spec fn host_rows(host: Seq<char>, ls: Seq<Seq<char>>) -> Seq<char>
    decreases ls.len(),
{
    if ls.len() == 0 {
        Seq::empty()
    } else {
        let rest = host_rows(host, ls.drop_last());
        if ls.last().len() > 0 && is_row(ls.last()) {
            rest + (host + ":"@ + ls.last() + "\n"@)
        } else {
            rest
        }
    }
}

/// How many of the lines are something else.
pub open spec fn other_rows(ls: Seq<Seq<char>>) -> nat
    decreases ls.len(),
{
    if ls.len() == 0 {
        0
    } else {
        other_rows(ls.drop_last()) + (if ls.last().len() > 0 && !is_row(ls.last()) {
            1nat
        } else {
            0
        })
    }
}

/// The row of a host that has something to say about itself.
pub open spec fn note_row(host: Seq<char>, note: Seq<char>) -> Seq<char> {
    host + ":!\t"@ + host + "\t-\t-\t\tunknown\t-\t"@ + note + "\n"@
}

pub open spec fn rendered(host: Seq<char>, file: Option<Seq<char>>, seen: bool) -> Seq<char> {
    match header_in(file) {
        None => Seq::empty(),
        Some(h) => if h.status == "ok"@ {
            let ls = text::lines_of(file->0).skip(1);
            let bad = other_rows(ls);
            if bad > 0 {
                host_rows(host, ls) + note_row(
                    host,
                    "its taimux answers in another format ("@ + text::decimal(bad)
                        + " row(s) dropped)"@,
                )
            } else {
                host_rows(host, ls)
            }
        } else if seen {
            note_row(
                host,
                if h.reason.len() == 0 {
                    "unreachable"@
                } else {
                    h.reason
                },
            )
        } else {
            Seq::empty()
        },
    }
}

fn note_line(host: &str, note: &str) -> (r: String)
    ensures
        r@ == note_row(host@, note@),
{
    let mut t = host.to_owned();
    t.append(":!\t");
    t.append(host);
    t.append("\t-\t-\t\tunknown\t-\t");
    t.append(note);
    t.append("\n");
    t
}

fn render_rows(host: &str, file: &str) -> (r: String)
    ensures
        text::lines_of(file@).len() > 0 ==> ({
            let ls = text::lines_of(file@).skip(1);
            let bad = other_rows(ls);
            r@ == (if bad > 0 {
                host_rows(host@, ls) + note_row(
                    host@,
                    "its taimux answers in another format ("@ + text::decimal(bad)
                        + " row(s) dropped)"@,
                )
            } else {
                host_rows(host@, ls)
            })
        }),
{
    let lv = lines(file);
    let ghost all = text::texts(lv@);
    assert(all.len() == lv@.len());
    let mut s = String::new();
    if lv.len() == 0 {
        return s;
    }
    let ghost ls = all.skip(1);
    let mut bad: usize = 0;
    let mut i: usize = 1;
    assert(s@ =~= host_rows(host@, ls.take(0)));
    while i < lv.len()
        invariant
            1 <= i <= lv@.len(),
            lv.len() <= usize::MAX,
            all == text::texts(lv@),
            ls == all.skip(1),
            bad < i,
            bad == other_rows(ls.take(i - 1)),
            s@ == host_rows(host@, ls.take(i - 1)),
        decreases lv@.len() - i,
    {
        assert(ls.take(i as int).drop_last() =~= ls.take(i - 1));
        assert(ls.take(i as int).last() == lv@[i as int]@);
        let l = &lv[i];
        if !l.as_str().is_empty() {
            let f = split(l, '\t');
            assert(text::texts(f@).len() == f@.len());
            if f.len() == 8 {
                let mut t = host.to_owned();
                t.append(":");
                t.append(l);
                t.append("\n");
                s.append(&t);
            } else {
                bad = bad + 1;
            }
        }
        i = i + 1;
    }
    assert(ls.take(ls.len() as int) =~= ls);
    if bad > 0 {
        let mut note = "its taimux answers in another format (".to_owned();
        let n = dec(bad as u64);
        note.append(&n);
        note.append(" row(s) dropped)");
        let row = note_line(host, &note);
        s.append(&row);
    }
    s
}

/// One host's cached reply, turned into rows. `file` is what is cached for it and
/// `seen` whether it ever answered.
///
/// A row's pane id becomes `<host>:<pane>`. A reply in another format is said so on
/// one row rather than dropped silently; a host that has answered before and then
/// goes quiet keeps ONE row saying so, and one that never answered gets none.
pub fn render(host: &str, file: Option<&str>, seen: bool) -> (r: String)
    ensures
        r@ == rendered(host@, text::opt(file), seen),
{
    let none = String::new();
    assert(none@ =~= Seq::<char>::empty());
    match file {
        None => none,
        Some(t) => match header(t) {
            None => none,
            Some((status, _, reason)) => {
                if same(&status, "ok") {
                    render_rows(host, t)
                } else if seen {
                    if reason.as_str().is_empty() {
                        note_line(host, "unreachable")
                    } else {
                        note_line(host, &reason)
                    }
                } else {
                    none
                }
            },
        },
    }
}

/// A host, what is cached for it, and whether it ever answered.
pub struct Cached {
    pub host: String,
    pub file: Option<String>,
    pub seen: bool,
}

pub struct CachedView {
    pub host: Seq<char>,
    pub file: Option<Seq<char>>,
    pub seen: bool,
}

impl View for Cached {
    type V = CachedView;

    open spec fn view(&self) -> CachedView {
        CachedView { host: self.host@, file: text::opt_string(self.file), seen: self.seen }
    }
}

pub open spec fn cached_view(v: Seq<Cached>) -> Seq<CachedView> {
    v.map_values(|c: Cached| c@)
}

pub open spec fn all_rendered(v: Seq<CachedView>) -> Seq<char>
    decreases v.len(),
{
    if v.len() == 0 {
        Seq::empty()
    } else {
        all_rendered(v.drop_last()) + rendered(v.last().host, v.last().file, v.last().seen)
    }
}

fn file_of(c: &Cached) -> (r: Option<&str>)
    ensures
        text::opt(r) == c@.file,
{
    match &c.file {
        Some(t) => Some(t.as_str()),
        None => None,
    }
}

/// Every host's rows, in order.
pub fn rows(hosts: &Vec<Cached>) -> (r: String)
    ensures
        r@ == all_rendered(cached_view(hosts@)),
{
    let ghost all = cached_view(hosts@);
    let mut out = String::new();
    let mut i: usize = 0;
    assert(out@ =~= all_rendered(all.take(0)));
    while i < hosts.len()
        invariant
            i <= hosts@.len(),
            all == cached_view(hosts@),
            out@ == all_rendered(all.take(i as int)),
        decreases hosts@.len() - i,
    {
        assert(all.take(i + 1).drop_last() =~= all.take(i as int));
        assert(all.take(i + 1).last() == hosts@[i as int]@);
        let t = render(&hosts[i].host, file_of(&hosts[i]), hosts[i].seen);
        out.append(&t);
        i = i + 1;
    }
    assert(all.take(all.len() as int) =~= all);
    out
}

/// The whole list: this server's agent panes plus every discovered host's.
pub fn all_panes(local: &str, rows: &str) -> (r: String)
    ensures
        r@ == local@ + rows@,
{
    let mut t = local.to_owned();
    t.append(rows);
    t
}

/// How urgently a host needs asking.
#[derive(Clone, Copy, Debug, PartialEq, Eq, Structural)]
pub enum Need {
    /// It has never answered, so serving it from cache would mean serving nothing.
    Cold,
    /// What it said is ageing.
    Stale,
    /// What it said is good enough.
    Fresh,
}

pub open spec fn need(file: Option<Seq<char>>, now: int, ttl: int, fail_ttl: int) -> Need {
    match header_in(file) {
        None => Need::Cold,
        Some(h) => if h.status == "ok"@ {
            if now - h.stamp >= ttl {
                Need::Stale
            } else {
                Need::Fresh
            }
        } else if h.status == "err"@ {
            if now - h.stamp >= fail_ttl {
                Need::Stale
            } else {
                Need::Fresh
            }
        } else {
            Need::Cold
        },
    }
}

/// The hosts that need what is asked for.
pub open spec fn needing(
    v: Seq<CachedView>,
    now: int,
    ttl: int,
    fail_ttl: int,
    what: Need,
) -> Seq<Seq<char>>
    decreases v.len(),
{
    if v.len() == 0 {
        Seq::empty()
    } else {
        let rest = needing(v.drop_last(), now, ttl, fail_ttl, what);
        if need(v.last().file, now, ttl, fail_ttl) == what {
            rest.push(v.last().host)
        } else {
            rest
        }
    }
}

fn need_of(file: Option<&str>, now: i64, ttl: i64, fail_ttl: i64) -> (r: Need)
    ensures
        r == need(text::opt(file), now as int, ttl as int, fail_ttl as int),
{
    proof {
        reveal_strlit("ok");
        reveal_strlit("err");
    }
    match header_maybe(file) {
        None => Need::Cold,
        Some((status, stamp, _)) => {
            let age: i128 = (now as i128) - (stamp as i128);
            if same(&status, "ok") {
                if age >= ttl as i128 {
                    Need::Stale
                } else {
                    Need::Fresh
                }
            } else if same(&status, "err") {
                if age >= fail_ttl as i128 {
                    Need::Stale
                } else {
                    Need::Fresh
                }
            } else {
                Need::Cold
            }
        },
    }
}

/// Which hosts need asking, and how urgently: the cold ones and the stale ones.
///
/// The two limits are deliberately far apart: an answer is worth three seconds, a
/// FAILURE sixty, because a sleeping host must not be asked on every tick while a
/// live one must not go stale. A file with no header at all, or a header this does
/// not recognise, is COLD rather than stale.
pub fn classify(hosts: &Vec<Cached>, now: i64, ttl: i64, fail_ttl: i64) -> (r: (
    Vec<String>,
    Vec<String>,
))
    ensures
        text::texts(r.0@) == needing(
            cached_view(hosts@),
            now as int,
            ttl as int,
            fail_ttl as int,
            Need::Cold,
        ),
        text::texts(r.1@) == needing(
            cached_view(hosts@),
            now as int,
            ttl as int,
            fail_ttl as int,
            Need::Stale,
        ),
{
    let ghost all = cached_view(hosts@);
    let ghost n = now as int;
    let ghost a = ttl as int;
    let ghost b = fail_ttl as int;
    let mut cold: Vec<String> = Vec::new();
    let mut stale: Vec<String> = Vec::new();
    let mut i: usize = 0;
    assert(text::texts(cold@) =~= needing(all.take(0), n, a, b, Need::Cold));
    assert(text::texts(stale@) =~= needing(all.take(0), n, a, b, Need::Stale));
    while i < hosts.len()
        invariant
            i <= hosts@.len(),
            all == cached_view(hosts@),
            n == now,
            a == ttl,
            b == fail_ttl,
            text::texts(cold@) == needing(all.take(i as int), n, a, b, Need::Cold),
            text::texts(stale@) == needing(all.take(i as int), n, a, b, Need::Stale),
        decreases hosts@.len() - i,
    {
        assert(all.take(i + 1).drop_last() =~= all.take(i as int));
        assert(all.take(i + 1).last() == hosts@[i as int]@);
        let name = hosts[i].host.clone();
        match need_of(file_of(&hosts[i]), now, ttl, fail_ttl) {
            Need::Cold => {
                proof {
                    text::lemma_texts_push(cold@, name);
                }
                cold.push(name);
            },
            Need::Stale => {
                proof {
                    text::lemma_texts_push(stale@, name);
                }
                stale.push(name);
            },
            Need::Fresh => {},
        }
        i = i + 1;
    }
    assert(all.take(all.len() as int) =~= all);
    (cold, stale)
}

// ---------------------------------------------------------------------------
// Where the picker was opened from
// ---------------------------------------------------------------------------
/// The first host whose window is the pane, from `i` on.
pub open spec fn host_behind(
    found: Seq<(Seq<char>, Seq<char>)>,
    pane: Seq<char>,
    i: int,
) -> Option<Seq<char>>
    decreases found.len() - i,
{
    if i < 0 || i >= found.len() {
        None
    } else if found[i].1 == pane {
        Some(found[i].0)
    } else {
        host_behind(found, pane, i + 1)
    }
}

/// The host to ask about the cursor. Only a pane whose foreground is ssh can be a
/// window onto another server.
pub open spec fn asked(
    pane: Seq<char>,
    found: Seq<(Seq<char>, Seq<char>)>,
    pane_cmd: Seq<char>,
    enabled: bool,
) -> Option<Seq<char>> {
    if "%"@.is_prefix_of(pane) && enabled && pane_cmd == "ssh"@ {
        host_behind(found, pane, 0)
    } else {
        None
    }
}

/// The host to ask about the cursor, where the pane the picker was opened from is a
/// window onto one.
pub fn cur_host(pane: &str, found: &[(String, String)], pane_cmd: &str, enabled: bool) -> (r: Option<
    String,
>)
    ensures
        text::opt_string(r) == asked(pane@, pairs_view(found@), pane_cmd@, enabled),
{
    if !starts_with(pane, "%") || !enabled || !same(pane_cmd, "ssh") {
        return None;
    }
    let ghost all = pairs_view(found@);
    let mut i: usize = 0;
    while i < found.len()
        invariant
            i <= found@.len(),
            all == pairs_view(found@),
            asked(pane@, all, pane_cmd@, enabled) == host_behind(all, pane@, 0),
            host_behind(all, pane@, i as int) == host_behind(all, pane@, 0),
        decreases found@.len() - i,
    {
        assert(all[i as int] == (found@[i as int].0@, found@[i as int].1@));
        if same(&found[i].1, pane) {
            return Some(found[i].0.clone());
        }
        i = i + 1;
    }
    None
}

/// Is a host already known to be down? It is then not asked again: the list has
/// just waited on that same host.
pub open spec fn down(cached: Option<Seq<char>>) -> bool {
    match header_in(cached) {
        Some(h) => h.status == "err"@,
        None => false,
    }
}

pub fn is_down(cached: Option<&str>) -> (r: bool)
    ensures
        r == down(text::opt(cached)),
{
    match header_maybe(cached) {
        Some((status, _, _)) => same(&status, "err"),
        None => false,
    }
}

/// Where the cursor is: over there, if the host that was asked named a pane.
pub open spec fn placed(
    pane: Seq<char>,
    host: Option<Seq<char>>,
    cached: Option<Seq<char>>,
    status: i32,
    out: Seq<char>,
) -> Seq<char> {
    match host {
        None => pane,
        Some(h) => if !down(cached) && status == 0 && "%"@.is_prefix_of(text::trimmed(out)) {
            h + ":"@ + text::trimmed(out)
        } else {
            pane
        },
    }
}

/// The pane the picker was opened from, resolved through an ssh window.
///
/// If that pane is a window onto another host, the row you are on is over THERE,
/// not the ssh pane you are looking through. `cached` is what is cached for the
/// host that `cur_host` names, and `status` and `out` what it answered when it was
/// asked for its own pane.
pub fn resolve_cur(
    pane: &str,
    found: &[(String, String)],
    pane_cmd: &str,
    enabled: bool,
    cached: Option<&str>,
    status: i32,
    out: &str,
) -> (r: String)
    ensures
        r@ == placed(
            pane@,
            asked(pane@, pairs_view(found@), pane_cmd@, enabled),
            text::opt(cached),
            status,
            out@,
        ),
{
    match cur_host(pane, found, pane_cmd, enabled) {
        None => pane.to_owned(),
        Some(h) => {
            let id = trim(out);
            if !is_down(cached) && status == 0 && starts_with(&id, "%") {
                let mut t = h;
                t.append(":");
                t.append(&id);
                t
            } else {
                pane.to_owned()
            }
        },
    }
}

// ---------------------------------------------------------------------------
// Another host's index
// ---------------------------------------------------------------------------
/// Is it the id of a pane of this server: a percent sign and digits?
pub open spec fn local_id(s: Seq<char>) -> bool {
    s.len() > 0 && s[0] == '%' && text::all_digits(s.skip(1))
}

fn is_local_id(s: &str) -> (r: bool)
    ensures
        r == local_id(s@),
{
    let v = chars_of(s);
    if v.len() == 0 || v[0] != '%' {
        return false;
    }
    let mut i: usize = 1;
    while i < v.len()
        invariant
            1 <= i <= v@.len(),
            v@ == s@,
            forall|k: int| 0 <= k < i - 1 ==> text::is_digit(#[trigger] s@.skip(1)[k]),
        decreases v@.len() - i,
    {
        assert(s@.skip(1)[i - 1] == v@[i as int]);
        if !text::digit(v[i]) {
            return false;
        }
        i = i + 1;
    }
    true
}

/// What one index file contributes for another host to read. Only a LOCAL pane's
/// does: a host must never answer with another host's rows.
pub open spec fn dumped(file: Seq<char>) -> Seq<char> {
    let ls = text::lines_of(file);
    let f = text::fields(ls[0], ' ');
    if ls.len() > 0 && f.len() >= 4 && f[0] == "idx"@ && local_id(f[3]) {
        f[3] + "\t"@ + (if ls.len() > 1 {
            ls[1]
        } else {
            Seq::empty()
        }) + "\n"@
    } else {
        Seq::empty()
    }
}

pub open spec fn all_dumped(files: Seq<Seq<char>>) -> Seq<char>
    decreases files.len(),
{
    if files.len() == 0 {
        Seq::empty()
    } else {
        all_dumped(files.drop_last()) + dumped(files.last())
    }
}

fn dump_one(file: &str) -> (r: String)
    ensures
        r@ == dumped(file@),
{
    let none = String::new();
    assert(none@ =~= Seq::<char>::empty());
    let ls = lines(file);
    let ghost all = text::texts(ls@);
    assert(all.len() == ls@.len());
    if ls.len() == 0 {
        return none;
    }
    assert(all[0] == ls@[0]@);
    assert(ls@.len() > 1 ==> all[1] == ls@[1]@);
    let f = split(&ls[0], ' ');
    let ghost fs = text::texts(f@);
    assert(fs.len() == f@.len());
    if f.len() < 4 {
        return none;
    }
    assert(fs[0] == f@[0]@ && fs[3] == f@[3]@);
    if !same(&f[0], "idx") || !is_local_id(&f[3]) {
        return none;
    }
    let mut t = f[3].clone();
    t.append("\t");
    if ls.len() > 1 {
        t.append(&ls[1]);
    } else {
        t.append(&none);
    }
    t.append("\n");
    t
}

/// This host's index, for another host to read: `<pane> \t <blob>` per line.
pub fn index_dump(files: &Vec<String>) -> (r: String)
    ensures
        r@ == all_dumped(text::texts(files@)),
{
    let ghost all = text::texts(files@);
    let mut out = String::new();
    let mut i: usize = 0;
    assert(out@ =~= all_dumped(all.take(0)));
    while i < files.len()
        invariant
            i <= files@.len(),
            all == text::texts(files@),
            out@ == all_dumped(all.take(i as int)),
        decreases files@.len() - i,
    {
        assert(all.take(i + 1).drop_last() =~= all.take(i as int));
        assert(all.take(i + 1).last() == files@[i as int]@);
        let t = dump_one(&files[i]);
        out.append(&t);
        i = i + 1;
    }
    assert(all.take(all.len() as int) =~= all);
    out
}

/// What is to be written of one line that a host answered with: under which id, and
/// the file.
pub open spec fn entry_of(host: Seq<char>, now: i64, line: Seq<char>) -> Option<
    (Seq<char>, Seq<char>),
> {
    match text::cut(line, '\t') {
        None => None,
        Some((pane, blob)) => if local_id(pane) {
            let id = host + ":"@ + pane;
            Some(
                (
                    index::flat_key(id),
                    "idx 0 "@ + text::decimal_int(now as int) + " "@ + id + " -\n"@ + blob + "\n"@,
                ),
            )
        } else {
            None
        },
    }
}

pub open spec fn entries_of(host: Seq<char>, now: i64, ls: Seq<Seq<char>>) -> Seq<
    (Seq<char>, Seq<char>),
>
    decreases ls.len(),
{
    if ls.len() == 0 {
        Seq::empty()
    } else {
        let rest = entries_of(host, now, ls.drop_last());
        match entry_of(host, now, ls.last()) {
            Some(e) => rest.push(e),
            None => rest,
        }
    }
}

/// One host's index as it answered, as files to be written, each named after its
/// composite id.
///
/// A host whose taimux knows no such command answers with an error and nothing
/// here, so nothing is written and its rows go on matching what they show.
pub fn index_fetch(host: &str, status: i32, out: &str, now: i64) -> (r: Vec<(String, String)>)
    ensures
        status != 0 ==> r@.len() == 0,
        status == 0 ==> pairs_view(r@) == entries_of(host@, now, text::lines_of(out@)),
{
    let mut v: Vec<(String, String)> = Vec::new();
    if status != 0 {
        return v;
    }
    let ls = lines(out);
    let ghost all = text::texts(ls@);
    let mut i: usize = 0;
    assert(pairs_view(v@) =~= entries_of(host@, now, all.take(0)));
    while i < ls.len()
        invariant
            i <= ls@.len(),
            all == text::texts(ls@),
            pairs_view(v@) == entries_of(host@, now, all.take(i as int)),
        decreases ls@.len() - i,
    {
        assert(all.take(i + 1).drop_last() =~= all.take(i as int));
        assert(all.take(i + 1).last() == ls@[i as int]@);
        if let Some((pane, blob)) = split_once(&ls[i], '\t') {
            if is_local_id(&pane) {
                let mut id = host.to_owned();
                id.append(":");
                id.append(&pane);
                let mut body = "idx 0 ".to_owned();
                let n = dec_int(now);
                body.append(&n);
                body.append(" ");
                body.append(&id);
                body.append(" -\n");
                body.append(&blob);
                body.append("\n");
                let ghost before = pairs_view(v@);
                let name = index::key_for(&id);
                let ghost e = (name@, body@);
                v.push((name, body));
                assert(pairs_view(v@) =~= before.push(e));
            }
        }
        i = i + 1;
    }
    assert(all.take(all.len() as int) =~= all);
    v
}

/// Is a host's index due again? `stamp` is when it was last asked for.
///
/// A minute rather than the three seconds a LIST is worth: what was said in a
/// session does not go stale on the timescale a pane's state does.
pub fn index_due(stamp: Option<&str>, now: i64, ttl: i64) -> (r: bool)
    ensures
        r == (now - (match text::opt(stamp) {
            Some(s) => match text::integer_i64(text::trimmed(s)) {
                Some(n) => n as int,
                None => 0,
            },
            None => 0,
        }) >= ttl),
{
    let last: i64 = match stamp {
        Some(s) => {
            let t = trim(s);
            match parse_i64(&t) {
                Some(n) => n,
                None => 0,
            }
        },
        None => 0,
    };
    (now as i128) - (last as i128) >= ttl as i128
}

// ---------------------------------------------------------------------------
// Composite ids
// ---------------------------------------------------------------------------
pub open spec fn host_part(id: Seq<char>) -> Option<Seq<char>> {
    if id.len() == 0 || id[0] == '%' {
        None
    } else {
        match text::cut(id, ':') {
            Some((h, _)) => Some(h),
            None => None,
        }
    }
}

pub open spec fn local_part(id: Seq<char>) -> Seq<char> {
    if id.len() == 0 || id[0] == '%' {
        id
    } else {
        match text::cut(id, ':') {
            Some((_, p)) => p,
            None => id,
        }
    }
}

fn opens_local(id: &str) -> (r: bool)
    ensures
        r == (id@.len() == 0 || id@[0] == '%'),
{
    let v = chars_of(id);
    v.len() == 0 || v[0] == '%'
}

/// A row's pane id is either a local `%17` or a remote `<host>:%6`.
pub fn pane_host(id: &str) -> (r: Option<String>)
    ensures
        text::opt_string(r) == host_part(id@),
{
    if opens_local(id) {
        return None;
    }
    match split_once(id, ':') {
        Some((h, _)) => Some(h),
        None => None,
    }
}

pub fn pane_local(id: &str) -> (r: String)
    ensures
        r@ == local_part(id@),
{
    if opens_local(id) {
        return id.to_owned();
    }
    match split_once(id, ':') {
        Some((_, p)) => p,
        None => id.to_owned(),
    }
}

// ---------------------------------------------------------------------------
// Going there
// ---------------------------------------------------------------------------
pub open spec fn drive(lid: Seq<char>, zoom: bool) -> Seq<char> {
    let go = "tmux select-window -t "@ + lid + " \\; select-pane -t "@ + lid
        + " \\; switch-client -t "@ + lid;
    if zoom {
        go + "\n[ \"$(tmux display-message -p -t "@ + lid
            + " '#{window_zoomed_flag}')\" = 1 ] || tmux resize-pane -Z -t "@ + lid
    } else {
        go
    }
}

/// What has to be run on another host to bring its client to a pane, or why it is
/// not. `local_pane` is the pane here that is a window onto it.
///
/// A zoom TOGGLES, so it is asked about first, exactly as the local path does.
pub fn switch_remote(host: &str, lid: &str, local_pane: &str, zoom: bool) -> (r: Result<
    String,
    String,
>)
    ensures
        match r {
            Ok(cmd) => "%"@.is_prefix_of(lid@) && local_pane@.len() > 0 && cmd@ == drive(lid@, zoom),
            Err(e) => if "%"@.is_prefix_of(lid@) {
                local_pane@.len() == 0 && e@ == "nothing is ssh'd into "@ + host@ + " any more"@
            } else {
                e@ == "not a pane id"@
            },
        },
{
    if !starts_with(lid, "%") {
        return Err("not a pane id".to_owned());
    }
    if local_pane.is_empty() {
        let mut e = "nothing is ssh'd into ".to_owned();
        e.append(host);
        e.append(" any more");
        return Err(e);
    }
    let mut t = "tmux select-window -t ".to_owned();
    t.append(lid);
    t.append(" \\; select-pane -t ");
    t.append(lid);
    t.append(" \\; switch-client -t ");
    t.append(lid);
    if zoom {
        t.append("\n[ \"$(tmux display-message -p -t ");
        t.append(lid);
        t.append(" '#{window_zoomed_flag}')\" = 1 ] || tmux resize-pane -Z -t ");
        t.append(lid);
    }
    Ok(t)
}

/// What came of it: `status` is what the other host answered, and `reached` whether
/// the local client got to its pane.
///
/// A host that has gone quiet since the list was built still gets you taken to its
/// pane: that is where the dead connection is. Only the remote half is lost, and
/// not silently.
pub fn switched(host: &str, local_pane: &str, status: i32, reached: bool) -> (r: Result<
    (),
    String,
>)
    ensures
        match r {
            Ok(()) => reached && status == 0,
            Err(e) => if reached {
                status != 0 && e@ == host@ + " did not answer, going to its pane anyway"@
            } else {
                e@ == "could not reach "@ + local_pane@
            },
        },
{
    if !reached {
        let mut e = "could not reach ".to_owned();
        e.append(local_pane);
        return Err(e);
    }
    if status != 0 {
        let mut e = host.to_owned();
        e.append(" did not answer, going to its pane anyway");
        return Err(e);
    }
    Ok(())
}

pub open spec fn ttys_of(ls: Seq<Seq<char>>) -> Seq<(Seq<char>, Seq<char>)>
    decreases ls.len(),
{
    if ls.len() == 0 {
        Seq::empty()
    } else {
        let rest = ttys_of(ls.drop_last());
        match text::cut(ls.last(), '\t') {
            Some(p) => rest.push(p),
            None => rest,
        }
    }
}

/// pane id and tty for every pane on this server, from the lines that tmux lists
/// them in.
pub fn tmux_pane_ttys(listed: &str) -> (r: Vec<(String, String)>)
    ensures
        pairs_view(r@) == ttys_of(text::lines_of(listed@)),
{
    let ls = lines(listed);
    let ghost all = text::texts(ls@);
    let mut v: Vec<(String, String)> = Vec::new();
    let mut i: usize = 0;
    assert(pairs_view(v@) =~= ttys_of(all.take(0)));
    while i < ls.len()
        invariant
            i <= ls@.len(),
            all == text::texts(ls@),
            pairs_view(v@) == ttys_of(all.take(i as int)),
        decreases ls@.len() - i,
    {
        assert(all.take(i + 1).drop_last() =~= all.take(i as int));
        assert(all.take(i + 1).last() == ls@[i as int]@);
        if let Some((a, b)) = split_once(&ls[i], '\t') {
            let ghost before = pairs_view(v@);
            let ghost p = (a@, b@);
            v.push((a, b));
            assert(pairs_view(v@) =~= before.push(p));
        }
        i = i + 1;
    }
    assert(all.take(all.len() as int) =~= all);
    v
}

// ---------------------------------------------------------------------------
// Laws
// ---------------------------------------------------------------------------
/// A host that a pane is a window onto is a plain word: it can stand in a filename
/// and in an argument as it is.
pub proof fn lemma_a_host_is_plain(argv: Seq<char>)
    ensures
        match host_in(argv) {
            Some(h) => plain_host(h) && text::free_of(h, '/') && text::free_of(h, ':')
                && text::free_of(h, '%'),
            None => true,
        },
{
    match host_in(argv) {
        Some(h) => {
            assert forall|i: int| 0 <= i < h.len() implies h[i] != '/' && h[i] != ':' && h[i]
                != '%' by {
                assert(host_char(h[i]));
            }
        },
        None => {},
    }
}

/// A composite id gives back the host and the pane it was made of.
pub proof fn lemma_a_composite_id_comes_apart(host: Seq<char>, pane: Seq<char>)
    requires
        plain_host(host),
    ensures
        host_part(host + ":"@ + pane) == Some(host),
        local_part(host + ":"@ + pane) == pane,
{
    reveal_strlit(":");
    assert(":"@ =~= seq![':']);
    let id = host + seq![':'] + pane;
    let n = host.len() as int;
    assert(id[0] == host[0] && host_char(host[0]));
    assert forall|k: int| 0 <= k < n implies id[k] != ':' by {
        assert(id[k] == host[k] && host_char(host[k]));
    }
    assert(id[n] == ':');
    lemma_find_colon(id, 0, n);
    assert(id.take(n) =~= host);
    assert(id.skip(n + 1) =~= pane);
    assert(id.subrange(0, n) =~= host);
    assert(id.subrange(n + 1, id.len() as int) =~= pane);
}

proof fn lemma_find_colon(s: Seq<char>, i: int, n: int)
    requires
        0 <= i <= n < s.len(),
        s[n] == ':',
        forall|k: int| i <= k < n ==> s[k] != ':',
    ensures
        text::find_char(s, ':', i) == Some(n),
    decreases n - i,
{
    if i < n {
        lemma_find_colon(s, i + 1, n);
    }
}

/// What a host's reply is written down as is read back with its status and its
/// time, and an answer is served until it is as old as the limit.
pub proof fn lemma_a_reply_is_read_back(status: i32, out: Seq<char>, now: i64)
    ensures
        match header_of(reply_text(status, out, now)) {
            Some(h) => h.stamp == now && h.status == (if status == 0 {
                "ok"@
            } else {
                "err"@
            }) && (status != 0 ==> h.reason == why(status)),
            None => false,
        },
{
    let n = text::decimal_int(now as int);
    text::lemma_decimal_is_read_back(now as int);
    reveal_strlit("\n");
    reveal_strlit(" ");
    reveal_strlit("ok ");
    reveal_strlit("ok");
    reveal_strlit("err ");
    reveal_strlit("err");
    reveal_strlit("no taimux on that host");
    reveal_strlit("timed out");
    reveal_strlit("unreachable");
    reveal_strlit("ssh failed");
    assert("\n"@ =~= seq!['\n']);
    assert(" "@ =~= seq![' ']);
    assert("ok "@ =~= "ok"@ + seq![' ']);
    assert("err "@ =~= "err"@ + seq![' ']);
    assert forall|i: int| 0 <= i < n.len() implies n[i] != ' ' && n[i] != '\n' && n[i] != '\r' by {
        assert(text::is_digit(n[i]) || n[i] == '-');
    }
    if status == 0 {
        let l = "ok"@ + seq![' '] + n;
        assert(reply_text(status, out, now) =~= l + seq!['\n'] + out);
        assert forall|i: int| 0 <= i < l.len() implies l[i] != '\n' && l[i] != '\r' by {
            if i >= 3 {
                assert(l[i] == n[i - 3]);
            }
        }
        text::lemma_first_line(l, out);
        lemma_cut_at_space("ok"@, n);
        lemma_no_space(n, 0);
    } else {
        let w = why(status);
        let rest = n + seq![' '] + w;
        let l = "err"@ + seq![' '] + rest;
        assert(reply_text(status, out, now) =~= l + seq!['\n'] + Seq::empty());
        assert forall|i: int| 0 <= i < l.len() implies l[i] != '\n' && l[i] != '\r' by {
            let k = n.len() as int;
            if i >= 4 && i < 4 + k {
                assert(l[i] == n[i - 4]);
            } else if i > 4 + k {
                assert(l[i] == w[i - 5 - k]);
            }
        }
        text::lemma_first_line(l, Seq::empty());
        lemma_cut_at_space("err"@, rest);
        lemma_cut_at_space(n, w);
    }
}

/// What a host dumps of a pane, one line of it, is kept here as a file that is read
/// back as what was said under the pane's composite id.
pub proof fn lemma_a_dump_is_read_back(host: Seq<char>, pane: Seq<char>, blob: Seq<char>, now: i64)
    requires
        plain_host(host),
        local_id(pane),
        text::free_of(blob, '\n'),
        blob.len() > 0 ==> blob.last() != '\r',
    ensures
        match entry_of(host, now, pane + "\t"@ + blob) {
            Some((name, file)) => {
                &&& name == index::flat_key(host + ":"@ + pane)
                &&& index::entry(file) == Some((host + ":"@ + pane, blob))
            },
            None => false,
        },
{
    let id = host + ":"@ + pane;
    let n = text::decimal_int(now as int);
    text::lemma_decimal_is_read_back(now as int);
    reveal_strlit("\t");
    reveal_strlit("\n");
    reveal_strlit(" ");
    reveal_strlit(":");
    reveal_strlit("-");
    reveal_strlit("0");
    reveal_strlit("idx");
    reveal_strlit("idx 0 ");
    reveal_strlit(" -\n");
    let line = pane + "\t"@ + blob;
    assert(line =~= pane + seq!['\t'] + blob);
    assert forall|k: int| 0 <= k < pane.len() implies pane[k] != '\t' && pane[k] != ' ' && pane[k]
        != '\n' && pane[k] != '\r' by {
        if k > 0 {
            assert(pane.skip(1)[k - 1] == pane[k]);
        }
    }
    text::lemma_find_char(line, '\t', 0);
    assert(line[pane.len() as int] == '\t');
    assert forall|k: int| 0 <= k < pane.len() implies line[k] != '\t' by {
        assert(line[k] == pane[k]);
    }
    assert(text::find_char(line, '\t', 0) == Some(pane.len() as int));
    assert(line.take(pane.len() as int) =~= pane);
    assert(line.skip(pane.len() as int + 1) =~= blob);
    assert forall|k: int| 0 <= k < n.len() implies n[k] != ' ' && n[k] != '\n' && n[k] != '\r' by {
        assert(text::is_digit(n[k]) || n[k] == '-');
    }
    assert forall|k: int| 0 <= k < id.len() implies id[k] != ' ' && id[k] != '\n' && id[k] != '\r' by {
        if k < host.len() {
            assert(host_char(host[k]));
        } else if k > host.len() {
            assert(id[k] == pane[k - host.len() - 1]);
        }
    }
    let r3 = id + seq![' '] + "-"@;
    let r2 = n + seq![' '] + r3;
    let r1 = "0"@ + seq![' '] + r2;
    let l = "idx"@ + seq![' '] + r1;
    text::lemma_first_field("idx"@, ' ', r1);
    text::lemma_first_field("0"@, ' ', r2);
    text::lemma_first_field(n, ' ', r3);
    text::lemma_first_field(id, ' ', "-"@);
    text::lemma_one_field("-"@, ' ');
    let file = "idx 0 "@ + n + " "@ + id + " -\n"@ + blob + "\n"@;
    assert(file =~= l + seq!['\n'] + (blob + seq!['\n'] + Seq::<char>::empty()));
    assert forall|k: int| 0 <= k < l.len() implies l[k] != '\n' by {
        if 6 <= k < 6 + n.len() {
            assert(l[k] == n[k - 6]);
        } else if 7 + n.len() <= k < 7 + n.len() + id.len() {
            assert(l[k] == id[k - 7 - n.len()]);
        }
    }
    assert(l.last() == '-');
    text::lemma_first_line(l, blob + seq!['\n'] + Seq::<char>::empty());
    text::lemma_first_line(blob, Seq::empty());
    let head = text::fields(l, ' ');
    assert(head =~= seq!["idx"@, "0"@, n, id, "-"@]);
}

proof fn lemma_no_space(s: Seq<char>, i: int)
    requires
        0 <= i,
        text::free_of(s, ' '),
    ensures
        text::find_char(s, ' ', i) is None,
    decreases s.len() - i,
{
    if i < s.len() {
        lemma_no_space(s, i + 1);
    }
}

proof fn lemma_cut_at_space(a: Seq<char>, b: Seq<char>)
    requires
        text::free_of(a, ' '),
    ensures
        text::cut(a + seq![' '] + b, ' ') == Some((a, b)),
{
    let s = a + seq![' '] + b;
    let n = a.len() as int;
    assert forall|k: int| 0 <= k < n implies s[k] != ' ' by {
        assert(s[k] == a[k]);
    }
    lemma_find_space(s, 0, n);
    assert(s.take(n) =~= a);
    assert(s.skip(n + 1) =~= b);
    assert(s.subrange(0, n) =~= a);
    assert(s.subrange(n + 1, s.len() as int) =~= b);
}

proof fn lemma_find_space(s: Seq<char>, i: int, n: int)
    requires
        0 <= i <= n < s.len(),
        s[n] == ' ',
        forall|k: int| i <= k < n ==> s[k] != ' ',
    ensures
        text::find_char(s, ' ', i) == Some(n),
    decreases n - i,
{
    if i < n {
        lemma_find_space(s, i + 1, n);
    }
}

/// A host is asked without a prompt and without standing input, within the given seconds,
/// and is never taken for an option: it stands behind the end of the options, and what it
/// is to run stands behind it, as one argument.
pub proof fn lemma_a_host_is_asked_as_a_host(host: Seq<char>, remote: Seq<char>, connect: u64)
    ensures
        ({
            let a = ssh_line(host, remote, connect);
            &&& a.last() == remote
            &&& a[a.len() - 2] == host
            &&& a[a.len() - 3] == "--"@
            &&& exists|i: int| 0 <= i < a.len() - 3 && #[trigger] a[i] == "-n"@
            &&& exists|i: int|
                0 < i < a.len() - 3 && #[trigger] a[i] == "BatchMode=yes"@ && a[i - 1] == "-o"@
            &&& exists|i: int|
                0 < i < a.len() - 3 && #[trigger] a[i] == "ConnectTimeout="@ + text::decimal(
                    connect as nat,
                ) && a[i - 1] == "-o"@
        }),
{
    let a = ssh_line(host, remote, connect);
    assert(a[0] == "-n"@);
    assert(a[2] == "BatchMode=yes"@ && a[1] == "-o"@);
    assert(a[4] == "ConnectTimeout="@ + text::decimal(connect as nat) && a[3] == "-o"@);
}

/// What a failure is called: a host without the program, one that did not answer in time
/// (whether it was told to stop or killed), one that cannot be reached, or anything else.
pub proof fn lemma_failures_are_told_apart(status: i32)
    ensures
        status == 127 ==> why(status) == "no taimux on that host"@,
        status == 124 || status == 137 ==> why(status) == "timed out"@,
        status == 255 ==> why(status) == "unreachable"@,
        status != 127 && status != 124 && status != 137 && status != 255 ==> why(status)
            == "ssh failed"@,
{
}

/// A pane is a window onto a host where what runs in it is ssh with tmux on the other
/// side: the host is the first word behind ssh that is no option and no option's value.
pub proof fn lemma_the_host_is_the_first_word_behind_ssh(argv: Seq<char>, host: Seq<char>)
    requires
        ({
            let w = text::nonempty(text::fields(argv, ' '));
            &&& w.len() >= 2
            &&& w[0] == "ssh"@
            &&& w[1] == host
        }),
        plain_host(host),
        host[0] != '-',
    ensures
        host_in(argv) == (if text::nonempty(text::fields(argv, ' ')).skip(2).contains("tmux"@) {
            Some(host)
        } else {
            None
        }),
{
    let w = text::nonempty(text::fields(argv, ' '));
    lemma_a_bare_program("ssh"@);
    reveal_strlit("-");
    assert(!"-"@.is_prefix_of(host)) by {
        if "-"@.is_prefix_of(host) {
            assert(host[0] == "-"@[0]);
        }
    }
    assert(ssh_word(w, 0) == Some(0int));
    assert(host_word(w, 1) == Some(1int));
}

proof fn lemma_a_bare_program(s: Seq<char>)
    requires
        s == "ssh"@,
    ensures
        text::after_last(s, '/') == s,
{
    reveal_strlit("ssh");
    assert(text::free_of(s, '/'));
    text::lemma_rfind_char(s, '/', s.len() as int);
}

/// An option that takes a value hides its value, and any other option hides itself alone.
pub proof fn lemma_options_are_passed(w: Seq<Seq<char>>, i: int)
    requires
        0 <= i,
        i + 1 < w.len(),
        w[i].len() > 0,
        w[i][0] == '-',
    ensures
        w[i].len() == 2 && "BbcDEeFIiJLlmOopQRSWw"@.contains(w[i][1]) ==> host_word(w, i)
            == host_word(w, i + 2),
        !(w[i].len() == 2 && "BbcDEeFIiJLlmOopQRSWw"@.contains(w[i][1])) ==> host_word(w, i)
            == host_word(w, i + 1),
{
    reveal_strlit("-");
    assert("-"@.is_prefix_of(w[i])) by {
        assert(w[i].subrange(0, 1) =~= "-"@);
    }
}

/// Each row that a host answers is shown under the host's name, whole, and a line that is
/// no row is not.
pub proof fn lemma_every_row_of_a_host_is_shown(host: Seq<char>, ls: Seq<Seq<char>>, i: int)
    requires
        0 <= i < ls.len(),
        text::fields(ls[i], '\t').len() == 8,
        ls[i].len() > 0,
    ensures
        text::has(host_rows(host, ls), host + ":"@ + ls[i] + "\n"@),
    decreases ls.len(),
{
    let l = host + ":"@ + ls[i] + "\n"@;
    let rest = host_rows(host, ls.drop_last());
    if i == ls.len() - 1 {
        assert(host_rows(host, ls) =~= rest + l + Seq::<char>::empty());
        text::lemma_has_middle(rest, l, Seq::empty());
    } else {
        lemma_every_row_of_a_host_is_shown(host, ls.drop_last(), i);
        assert(ls.drop_last()[i] == ls[i]);
        let k = choose|k: int| text::occurs_at(rest, l, k);
        assert(host_rows(host, ls).subrange(k, k + l.len()) =~= rest.subrange(k, k + l.len()));
        assert(text::occurs_at(host_rows(host, ls), l, k));
    }
}

/// A host whose last answer was a failure keeps one row that says why, where it was
/// reached before, and none where it never was; a host that was never asked has none.
pub proof fn lemma_a_failed_host_says_why(host: Seq<char>, status: i32, out: Seq<char>, now: i64)
    requires
        status != 0,
    ensures
        rendered(host, Some(reply_text(status, out, now)), true) == host + ":!\t"@ + host
            + "\t-\t-\t\tunknown\t-\t"@ + why(status) + "\n"@,
        rendered(host, Some(reply_text(status, out, now)), false).len() == 0,
        rendered(host, None, true).len() == 0,
{
    lemma_a_reply_is_read_back(status, out, now);
    reveal_strlit("ok");
    reveal_strlit("err");
    assert("ok"@.len() == 2 && "err"@.len() == 3);
    reveal_strlit("no taimux on that host");
    reveal_strlit("timed out");
    reveal_strlit("unreachable");
    reveal_strlit("ssh failed");
    assert(why(status).len() > 0);
}

/// An answer is fresh until it is as old as its limit, an answer and a failure each by its
/// own; then it is stale. A host that was never asked is cold.
pub proof fn lemma_an_answer_goes_stale(
    status: i32,
    out: Seq<char>,
    at: i64,
    now: int,
    ttl: int,
    fail_ttl: int,
)
    ensures
        need(Some(reply_text(status, out, at)), now, ttl, fail_ttl) == (if now - at >= (if status
            == 0 {
            ttl
        } else {
            fail_ttl
        }) {
            Need::Stale
        } else {
            Need::Fresh
        }),
        need(None, now, ttl, fail_ttl) == Need::Cold,
        down(Some(reply_text(status, out, at))) == (status != 0),
        !down(None),
{
    lemma_a_reply_is_read_back(status, out, at);
    reveal_strlit("ok");
    reveal_strlit("err");
    assert("ok"@.len() == 2 && "err"@.len() == 3);
}

/// A host is asked again exactly where its answer is in need of it.
pub proof fn lemma_every_host_in_need_is_asked(
    v: Seq<CachedView>,
    now: int,
    ttl: int,
    fail_ttl: int,
    what: Need,
    host: Seq<char>,
)
    ensures
        needing(v, now, ttl, fail_ttl, what).contains(host) <==> exists|i: int|
            0 <= i < v.len() && (#[trigger] v[i]).host == host && need(
                v[i].file,
                now,
                ttl,
                fail_ttl,
            ) == what,
    decreases v.len(),
{
    let all = needing(v, now, ttl, fail_ttl, what);
    if v.len() > 0 {
        let front = v.drop_last();
        lemma_every_host_in_need_is_asked(front, now, ttl, fail_ttl, what, host);
        let rest = needing(front, now, ttl, fail_ttl, what);
        if rest.contains(host) {
            let k = choose|k: int| 0 <= k < rest.len() && rest[k] == host;
            assert(all[k] == host);
            let i = choose|i: int|
                0 <= i < front.len() && (#[trigger] front[i]).host == host && need(
                    front[i].file,
                    now,
                    ttl,
                    fail_ttl,
                ) == what;
            assert(v[i] == front[i]);
        } else {
            if all.contains(host) {
                let k = choose|k: int| 0 <= k < all.len() && all[k] == host;
                if k < rest.len() {
                    assert(rest[k] == host);
                }
                assert(v[v.len() - 1].host == host);
            }
            if exists|i: int|
                0 <= i < v.len() && (#[trigger] v[i]).host == host && need(
                    v[i].file,
                    now,
                    ttl,
                    fail_ttl,
                ) == what {
                let i = choose|i: int|
                    0 <= i < v.len() && (#[trigger] v[i]).host == host && need(
                        v[i].file,
                        now,
                        ttl,
                        fail_ttl,
                    ) == what;
                if i < front.len() {
                    assert(front[i] == v[i]);
                } else {
                    assert(all.last() == host);
                }
            }
        }
    }
}

/// The list starts on the pane that a window onto a host shows, if that host says which
/// one it is: under the host's name, and else on the window itself.
pub proof fn lemma_a_window_is_seen_through(
    pane: Seq<char>,
    host: Seq<char>,
    cached: Option<Seq<char>>,
    status: i32,
    out: Seq<char>,
    there: Seq<char>,
)
    requires
        text::trimmed(out) == there,
    ensures
        placed(pane, None, cached, status, out) == pane,
        cached is None && status == 0 && there.len() > 0 && there[0] == '%' ==> placed(
            pane,
            Some(host),
            cached,
            status,
            out,
        ) == host + ":"@ + there,
        status != 0 || there.len() == 0 || there[0] != '%' ==> placed(
            pane,
            Some(host),
            cached,
            status,
            out,
        ) == pane,
{
    reveal_strlit("%");
    if there.len() > 0 && there[0] == '%' {
        assert(there.subrange(0, 1) =~= "%"@);
        assert("%"@.is_prefix_of(there));
    } else if "%"@.is_prefix_of(there) {
        assert(there[0] == "%"@[0]);
    }
}

/// A pane is asked about only where it is one of this server's, runs ssh, and hosts are
/// looked into at all; then the host is the one its window was found on.
pub proof fn lemma_only_a_window_is_asked_about(
    pane: Seq<char>,
    found: Seq<(Seq<char>, Seq<char>)>,
    pane_cmd: Seq<char>,
    enabled: bool,
    i: int,
)
    ensures
        asked(pane, found, pane_cmd, enabled) is Some ==> enabled && pane_cmd == "ssh"@ && pane.len()
            > 0 && pane[0] == '%',
        0 <= i < found.len() && found[i].1 == pane && (forall|j: int|
            0 <= j < i ==> (#[trigger] found[j]).1 != pane) && enabled && pane_cmd == "ssh"@
            && pane.len() > 0 && pane[0] == '%' ==> asked(pane, found, pane_cmd, enabled) == Some(
            found[i].0,
        ),
{
    reveal_strlit("%");
    if "%"@.is_prefix_of(pane) {
        assert(pane[0] == "%"@[0]);
    }
    if pane.len() > 0 && pane[0] == '%' {
        assert(pane.subrange(0, 1) =~= "%"@);
    }
    if 0 <= i < found.len() && found[i].1 == pane && (forall|j: int|
        0 <= j < i ==> (#[trigger] found[j]).1 != pane) {
        lemma_host_behind(found, pane, 0, i);
    }
}

proof fn lemma_host_behind(found: Seq<(Seq<char>, Seq<char>)>, pane: Seq<char>, from: int, i: int)
    requires
        0 <= from <= i < found.len(),
        found[i].1 == pane,
        forall|j: int| from <= j < i ==> (#[trigger] found[j]).1 != pane,
    ensures
        host_behind(found, pane, from) == Some(found[i].0),
    decreases i - from,
{
    if from < i {
        assert(found[from].1 != pane);
        lemma_host_behind(found, pane, from + 1, i);
    }
}

/// A switch on another host selects the pane's window, then the pane, then moves the
/// client there, and with a zoom zooms the pane where its window is not zoomed already.
pub proof fn lemma_a_remote_switch_selects_the_pane(lid: Seq<char>, zoom: bool)
    ensures
        ({
            let go = "tmux select-window -t "@ + lid + " \\; select-pane -t "@ + lid
                + " \\; switch-client -t "@ + lid;
            &&& go.is_prefix_of(drive(lid, zoom))
            &&& !zoom ==> drive(lid, zoom) == go
            &&& zoom ==> (" = 1 ] || tmux resize-pane -Z -t "@ + lid).is_suffix_of(
                drive(lid, zoom),
            )
        }),
{
    let go = "tmux select-window -t "@ + lid + " \\; select-pane -t "@ + lid
        + " \\; switch-client -t "@ + lid;
    let d = drive(lid, zoom);
    assert(d.subrange(0, go.len() as int) =~= go);
    if zoom {
        let tail = " = 1 ] || tmux resize-pane -Z -t "@ + lid;
        reveal_strlit(" = 1 ] || tmux resize-pane -Z -t ");
        reveal_strlit(" '#{window_zoomed_flag}')\" = 1 ] || tmux resize-pane -Z -t ");
        let long = " '#{window_zoomed_flag}')\" = 1 ] || tmux resize-pane -Z -t "@;
        let short = " = 1 ] || tmux resize-pane -Z -t "@;
        assert(long.subrange(long.len() - short.len(), long.len() as int) =~= short);
        assert(d.subrange(d.len() - tail.len(), d.len() as int) =~= tail) by {
            let head = go + "\n[ \"$(tmux display-message -p -t "@ + lid;
            assert(d =~= head + long + lid);
            assert forall|k: int| 0 <= k < tail.len() implies d[d.len() - tail.len() + k]
                == tail[k] by {
                if k < short.len() {
                    assert(long[long.len() - short.len() + k] == long.subrange(
                        long.len() - short.len(),
                        long.len() as int,
                    )[k]);
                }
            }
        }
    }
}

/// A pane is a window onto a host exactly where what runs in front on its terminal says so,
/// and then onto that host.
pub proof fn lemma_a_window_is_found_by_its_terminal(
    ps: Seq<(Seq<char>, Seq<char>)>,
    fg: Seq<proc::ForegroundView>,
    host: Seq<char>,
    pane: Seq<char>,
)
    ensures
        windows(ps, fg).contains((host, pane)) <==> exists|i: int|
            0 <= i < ps.len() && (#[trigger] ps[i]).0 == pane && host_on(
                fg,
                panes::device(ps[i].1),
                0,
            ) == Some(host),
    decreases ps.len(),
{
    let all = windows(ps, fg);
    let want = (host, pane);
    if ps.len() > 0 {
        let front = ps.drop_last();
        let rest = windows(front, fg);
        lemma_a_window_is_found_by_its_terminal(front, fg, host, pane);
        if rest.contains(want) {
            let k = choose|k: int| 0 <= k < rest.len() && rest[k] == want;
            assert(all[k] == want);
            let i = choose|i: int|
                0 <= i < front.len() && (#[trigger] front[i]).0 == pane && host_on(
                    fg,
                    panes::device(front[i].1),
                    0,
                ) == Some(host);
            assert(ps[i] == front[i]);
        } else {
            if all.contains(want) {
                let k = choose|k: int| 0 <= k < all.len() && all[k] == want;
                if k < rest.len() {
                    assert(rest[k] == want);
                }
                assert(ps[ps.len() - 1].0 == pane);
            }
            if exists|i: int|
                0 <= i < ps.len() && (#[trigger] ps[i]).0 == pane && host_on(
                    fg,
                    panes::device(ps[i].1),
                    0,
                ) == Some(host) {
                let i = choose|i: int|
                    0 <= i < ps.len() && (#[trigger] ps[i]).0 == pane && host_on(
                        fg,
                        panes::device(ps[i].1),
                        0,
                    ) == Some(host);
                if i < front.len() {
                    assert(front[i] == ps[i]);
                } else {
                    assert(all.last() == want);
                }
            }
        }
    }
}

/// The host on a terminal is the one that the first process there that is ssh onto tmux
/// names.
pub proof fn lemma_the_host_on_a_terminal(
    fg: Seq<proc::ForegroundView>,
    tty: Seq<char>,
    from: int,
    i: int,
    host: Seq<char>,
)
    requires
        0 <= from <= i < fg.len(),
        fg[i].tty == tty,
        host_in(fg[i].argv) == Some(host),
        forall|j: int|
            from <= j < i ==> (#[trigger] fg[j]).tty != tty || host_in(fg[j].argv) is None,
    ensures
        host_on(fg, tty, from) == Some(host),
    decreases i - from,
{
    if from < i {
        assert(fg[from].tty != tty || host_in(fg[from].argv) is None);
        lemma_the_host_on_a_terminal(fg, tty, from + 1, i, host);
    }
}

/// The rows of every host are shown, one host behind the other.
pub proof fn lemma_every_host_is_shown(v: Seq<CachedView>, i: int)
    requires
        0 <= i < v.len(),
    ensures
        text::has(all_rendered(v), rendered(v[i].host, v[i].file, v[i].seen)),
    decreases v.len(),
{
    let want = rendered(v[i].host, v[i].file, v[i].seen);
    let front = v.drop_last();
    let before = all_rendered(front);
    if i == v.len() - 1 {
        assert(all_rendered(v) =~= before + want + Seq::<char>::empty());
        text::lemma_has_middle(before, want, Seq::empty());
    } else {
        assert(front[i] == v[i]);
        lemma_every_host_is_shown(front, i);
        let k = choose|k: int| text::occurs_at(before, want, k);
        assert(all_rendered(v).subrange(k, k + want.len()) =~= before.subrange(k, k + want.len()));
        assert(text::occurs_at(all_rendered(v), want, k));
    }
}

/// The hosts that were written down are read back while they are fresh, and not after.
pub proof fn lemma_the_hosts_are_read_back(hosts: Seq<Seq<char>>, at: i64, now: int, ttl: int)
    requires
        hosts.len() > 0,
        forall|i: int| 0 <= i < hosts.len() ==> plain_host(#[trigger] hosts[i]),
    ensures
        cached_hosts(Some(hosts_text(hosts, at)), now, ttl) == (if now - at < ttl {
            Some(hosts)
        } else {
            None
        }),
        cached_hosts(None, now, ttl) is None,
{
    let n = text::decimal_int(at as int);
    text::lemma_decimal_is_read_back(at as int);
    reveal_strlit("\n");
    reveal_strlit("hosts ");
    reveal_strlit("hosts");
    let nl = "\n"@;
    assert(nl =~= seq!['\n']);
    assert("hosts "@ =~= "hosts"@ + seq![' ']);
    assert forall|i: int| 0 <= i < n.len() implies n[i] != ' ' && n[i] != '\n' && n[i] != '\r' by {
        assert(text::is_digit(n[i]) || n[i] == '-');
    }
    let l = "hosts"@ + seq![' '] + n;
    let body = text::joined(hosts, nl) + nl;
    assert(hosts_text(hosts, at) =~= l + seq!['\n'] + body);
    assert forall|i: int| 0 <= i < l.len() implies l[i] != '\n' && l[i] != '\r' by {
        if i < 5 {
            assert(l[i] == "hosts"@[i]);
        } else if i > 5 {
            assert(l[i] == n[i - 6]);
        }
    }
    text::lemma_first_line(l, body);
    lemma_joined_is_lines(hosts);
    assert(text::line_like(hosts)) by {
        assert forall|j: int| 0 <= j < hosts.len() implies text::free_of(#[trigger] hosts[j], '\n')
            && text::free_of(hosts[j], '\r') by {
            let h = hosts[j];
            assert(plain_host(h));
            assert forall|i: int| 0 <= i < h.len() implies h[i] != '\n' && h[i] != '\r' by {
                assert(host_char(h[i]));
            }
        }
    }
    text::lemma_lines_are_read_back(hosts);
    let ls = text::lines_of(hosts_text(hosts, at));
    assert(ls =~= seq![l] + hosts);
    assert(ls[0] == l);
    assert(ls.skip(1) =~= hosts);
    text::lemma_a_cut_is_at_the_first("hosts"@, ' ', n);
    text::lemma_a_cut_is_at_the_first(n, ' ', Seq::empty());
    assert forall|i: int| 0 <= i < hosts.len() implies (#[trigger] hosts[i]).len() > 0 by {
        assert(plain_host(hosts[i]));
    }
    text::lemma_only_the_empty_go(hosts, l);
}

proof fn lemma_joined_is_lines(v: Seq<Seq<char>>)
    requires
        v.len() > 0,
    ensures
        text::joined(v, "\n"@) + "\n"@ == text::as_lines(v),
    decreases v.len(),
{
    let front = v.drop_last();
    if v.len() == 1 {
        assert(text::as_lines(front) =~= Seq::<char>::empty());
        assert(text::as_lines(v) =~= v[0] + "\n"@);
    } else {
        lemma_joined_is_lines(front);
    }
}

/// What is dumped of a pane is its id and what was said in it, on one line, and nothing of
/// a pane of another host.
pub proof fn lemma_a_dump_names_its_pane(file: Seq<char>, pane: Seq<char>)
    requires
        text::lines_of(file).len() >= 2,
        text::fields(text::lines_of(file)[0], ' ').len() >= 4,
        text::fields(text::lines_of(file)[0], ' ')[0] == "idx"@,
        text::fields(text::lines_of(file)[0], ' ')[3] == pane,
    ensures
        local_id(pane) ==> dumped(file) == pane + "\t"@ + text::lines_of(file)[1] + "\n"@,
        !local_id(pane) ==> dumped(file).len() == 0,
{
}

} // verus!
