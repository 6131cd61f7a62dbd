//! Putting taimux on PATH and binding the key.
//!
//! This is the part that writes to a real configuration file, so the rules it
//! follows are about not making a mess of somebody's tmux config:
//!
//! - **Idempotent by the command string.** A past install's block is stripped
//!   from every file it could have touched before a new one is written, or a
//!   reinstall registers the binding twice and the popup opens twice.
//! - **Oh My Tmux gets `.tmux.conf.local`**, never `.tmux.conf`. That file is
//!   both configuration AND a shell script, so appending raw config to the wrong
//!   one breaks every reload.
//! - **Inside the "user customizations" section** where there is one.
//! - **A plugin-manager checkout is left alone entirely.** There the plugin entry
//!   point binds the keys on every launch and reload, so writing to the config
//!   would be a second, stale copy of the same binding.
//! - **The bindings call the bare launcher name**, never the checkout path, so
//!   moving the checkout does not break them.
use vstd::prelude::*;

use crate::paths;
use crate::text;
use crate::text::{contains, dec, ends_with, lines, same, split, starts_with};

verus! {

// ---------------------------------------------------------------------------
// The popup
// ---------------------------------------------------------------------------
/// tmux's `#{<:}` is a string compare, so the numeric width test is done in the
/// shell, evaluated against the triggering client's width at key-press time.
pub const POPUP_COND: &'static str = "[ \"#{client_width}\" -lt 100 ]";

pub open spec fn geometry(client_width: int) -> (u16, u16) {
    if client_width < 100 {
        (100u16, 90u16)
    } else {
        (80u16, 80u16)
    }
}

/// How much of the client a popup takes, in percent of its width and its height:
/// near-full on a small screen (a phone over ssh), 80% on a roomy terminal.
///
/// One rule, two callers: the binding opens the popup with it at key-press time,
/// and the picker reopens itself with it when the terminal has grown since.
pub fn popup_geometry(client_width: usize) -> (r: (u16, u16))
    ensures
        r == geometry(client_width as int),
{
    if client_width < 100 {
        (100, 90)
    } else {
        (80, 80)
    }
}

pub open spec fn popup(launcher: Seq<char>, small: bool) -> Seq<char> {
    let (w, h) = geometry(
        if small {
            80
        } else {
            100
        },
    );
    "display-popup -E -e TAIMUX_POPUP=1 -w "@ + text::decimal(w as nat) + "% -h "@ + text::decimal(
        h as nat,
    ) + "% \""@ + launcher + " pick #{pane_id}\""@
}

/// The tmux command that opens the picker.
///
/// `#{pane_id}` in there is inert on purpose: `display-popup` expands no format in
/// the command it runs, so bare like this the shell drops it as a comment and the
/// picker asks tmux which pane it was opened from. `-e TAIMUX_POPUP=1` is how the
/// picker knows it is IN a popup rather than inline in a pane.
pub fn popup_cmd(launcher: &str, small: bool) -> (r: String)
    ensures
        r@ == popup(launcher@, small),
{
    let (w, h) = popup_geometry(
        if small {
            80
        } else {
            100
        },
    );
    let mut t = "display-popup -E -e TAIMUX_POPUP=1 -w ".to_owned();
    let a = dec(w as u64);
    t.append(&a);
    t.append("% -h ");
    let b = dec(h as u64);
    t.append(&b);
    t.append("% \"");
    t.append(launcher);
    t.append(" pick #{pane_id}\"");
    t
}

// ---------------------------------------------------------------------------
// The keys
// ---------------------------------------------------------------------------
/// A tmux user option, or a default when it is not SET at all: `shown` is the
/// option as tmux shows it and `value` what it holds.
///
/// Set-but-empty and unset are different answers: an empty key means "do not bind
/// that one", which is why whether the option exists is asked before its value.
pub fn tmux_opt(shown: Option<&str>, value: Option<&str>, default: &str) -> (r: String)
    ensures
        r@ == (match shown {
            Some(s) => if text::is_blank(s@) {
                default@
            } else {
                match value {
                    Some(v) => v@,
                    None => Seq::empty(),
                }
            },
            None => default@,
        }),
{
    match shown {
        Some(s) => {
            if text::blank(s) {
                return default.to_owned();
            }
            match value {
                Some(v) => v.to_owned(),
                None => {
                    let none = String::new();
                    assert(none@ =~= Seq::<char>::empty());
                    none
                },
            }
        },
        None => default.to_owned(),
    }
}

/// How two keys read in a sentence.
pub open spec fn said(key: Seq<char>, root: Seq<char>) -> Seq<char> {
    if key.len() == 0 {
        root
    } else if root.len() == 0 {
        "prefix + "@ + key
    } else {
        "prefix + "@ + key + " and "@ + root
    }
}

/// How the two keys read in a sentence.
pub fn describe(key: &str, root: &str) -> (r: String)
    ensures
        r@ == said(key@, root@),
{
    if key.is_empty() {
        return root.to_owned();
    }
    let mut t = "prefix + ".to_owned();
    t.append(key);
    if !root.is_empty() {
        t.append(" and ");
        t.append(root);
    }
    t
}

pub open spec fn bind_line(launcher: Seq<char>, key: Seq<char>, root: bool) -> Seq<Seq<char>> {
    let head = if root {
        seq!["bind-key"@, "-n"@, key]
    } else {
        seq!["bind-key"@, key]
    };
    head + seq!["if-shell"@, POPUP_COND@, popup(launcher, true), popup(launcher, false)]
}

/// The tmux arguments that bind a key in the running server: behind the prefix, or
/// without it where `root`.
pub fn bind_args(launcher: &str, key: &str, root: bool) -> (r: Vec<String>)
    ensures
        text::texts(r@) == bind_line(launcher@, key@, root),
{
    let mut v: Vec<String> = Vec::new();
    v.push("bind-key".to_owned());
    if root {
        v.push("-n".to_owned());
    }
    v.push(key.to_owned());
    v.push("if-shell".to_owned());
    v.push(POPUP_COND.to_owned());
    v.push(popup_cmd(launcher, true));
    v.push(popup_cmd(launcher, false));
    assert(text::texts(v@) =~= bind_line(launcher@, key@, root));
    v
}

/// What got bound, in a sentence: a key counts where it is set and tmux took it.
pub fn bind_live(key: &str, key_bound: bool, root: &str, root_bound: bool) -> (r: String)
    ensures
        r@ == said(
            if key_bound {
                key@
            } else {
                Seq::empty()
            },
            if root_bound {
                root@
            } else {
                Seq::empty()
            },
        ),
{
    proof {
        reveal_strlit("");
        assert(""@ =~= Seq::<char>::empty());
    }
    let k: &str = if key_bound {
        key
    } else {
        ""
    };
    let t: &str = if root_bound {
        root
    } else {
        ""
    };
    describe(k, t)
}

// ---------------------------------------------------------------------------
// Where the configuration is
// ---------------------------------------------------------------------------
/// Do the first `n` names of one list stand at the front of the other?
pub open spec fn opens_with(a: Seq<Seq<char>>, b: Seq<Seq<char>>) -> bool {
    b.is_prefix_of(a)
}

fn first_parts(a: &Vec<String>, b: &Vec<String>) -> (r: bool)
    ensures
        r == opens_with(text::texts(a@), text::texts(b@)),
{
    let ghost av = text::texts(a@);
    let ghost bv = text::texts(b@);
    assert(av.len() == a@.len() && bv.len() == b@.len());
    if b.len() > a.len() {
        return false;
    }
    let mut i: usize = 0;
    while i < b.len()
        invariant
            i <= b@.len() <= a@.len(),
            av == text::texts(a@),
            bv == text::texts(b@),
            forall|k: int| 0 <= k < i ==> #[trigger] av[k] == bv[k],
        decreases b@.len() - i,
    {
        assert(av[i as int] == a@[i as int]@ && bv[i as int] == b@[i as int]@);
        if !same(&a[i], &b[i]) {
            assert(av.subrange(0, bv.len() as int)[i as int] != bv[i as int]);
            return false;
        }
        i = i + 1;
    }
    assert(av.subrange(0, bv.len() as int) =~= bv);
    true
}

/// A text without the slashes it ends in.
pub open spec fn unslashed(s: Seq<char>) -> Seq<char>
    decreases s.len(),
{
    if s.len() > 0 && s.last() == '/' {
        unslashed(s.drop_last())
    } else {
        s
    }
}

fn unslash(s: &str) -> (r: String)
    ensures
        r@ == unslashed(s@),
{
    let v = text::chars_of(s);
    let mut n: usize = v.len();
    assert(v@.take(n as int) =~= v@);
    while n > 0 && v[n - 1] == '/'
        invariant
            n <= v@.len(),
            unslashed(v@.take(n as int)) == unslashed(v@),
        decreases n,
    {
        assert(v@.take(n as int).last() == v@[n - 1]);
        assert(v@.take(n as int).drop_last() =~= v@.take(n - 1));
        n = n - 1;
    }
    assert(n > 0 ==> v@.take(n as int).last() == v@[n - 1]);
    assert(v@.subrange(0, n as int) =~= v@.take(n as int));
    text::slice(&v, 0, n)
}

/// Is the directory two above the program the one that a plugin manager keeps its
/// checkouts in?
pub open spec fn checked_out_in(exe: Seq<char>, dir: Seq<char>) -> bool {
    let (rooted, names) = paths::components(exe);
    let (r, n) = paths::components(unslashed(dir));
    dir.len() > 0 && names.len() >= 2 && rooted == r && names.take(names.len() - 2) == n
}

fn kept_in(exe: &str, dir: &str) -> (r: bool)
    ensures
        r == checked_out_in(exe@, dir@),
{
    if dir.is_empty() {
        return false;
    }
    let (rooted, names) = paths::parts(exe);
    let bare = unslash(dir);
    let (at_root, n) = paths::parts(&bare);
    let ghost ns = text::texts(names@);
    let ghost ds = text::texts(n@);
    assert(ns.len() == names@.len() && ds.len() == n@.len());
    if names.len() < 2 || rooted != at_root || n.len() != names.len() - 2 {
        return false;
    }
    let same_names = first_parts(&names, &n);
    assert(ns.subrange(0, ds.len() as int) =~= ns.take(ns.len() - 2));
    same_names
}

/// Is this checkout owned by a plugin manager? `manager` is where the manager says
/// it keeps its plugins, and `config` the user's configuration directory.
///
/// If it is, the plugin entry point binds the keys on every launch and reload, so
/// an install must not also write them to a config file.
pub fn plugin_checkout(exe: &str, manager: &str, home: &str, config: Option<&str>) -> (r: bool)
    ensures
        r == (checked_out_in(exe@, manager@) || checked_out_in(exe@, home@ + "/.tmux/plugins"@)
            || checked_out_in(
            exe@,
            (match config {
                Some(c) => c@,
                None => home@ + "/.config"@,
            }) + "/tmux/plugins"@,
        )),
{
    let mut own = home.to_owned();
    own.append("/.tmux/plugins");
    let mut xdg = match config {
        Some(c) => c.to_owned(),
        None => {
            let mut c = home.to_owned();
            c.append("/.config");
            c
        },
    };
    xdg.append("/tmux/plugins");
    kept_in(exe, manager) || kept_in(exe, &own) || kept_in(exe, &xdg)
}

pub open spec fn oh_my_tmux(resolved: Seq<char>, home: Seq<char>, conf: Option<Seq<char>>) -> bool {
    let (r, names) = paths::components(resolved);
    let (h, base) = paths::components(home + "/.tmux/"@);
    (r == h && opens_with(names, base)) || match conf {
        Some(t) => text::has(t, "_apply_configuration"@),
        None => false,
    }
}

/// Is this an Oh My Tmux configuration? `conf` is what the file holds.
///
/// Two tells: the resolved path living under `~/.tmux/`, or the
/// `_apply_configuration` function that makes that file a shell script as well as
/// a config.
pub fn is_oh_my_tmux(resolved: &str, home: &str, conf: Option<&str>) -> (r: bool)
    ensures
        r == oh_my_tmux(resolved@, home@, text::opt(conf)),
{
    let mut dir = home.to_owned();
    dir.append("/.tmux/");
    let (a, names) = paths::parts(resolved);
    let (b, base) = paths::parts(&dir);
    if a == b && first_parts(&names, &base) {
        return true;
    }
    match conf {
        Some(t) => contains(t, "_apply_configuration"),
        None => false,
    }
}

/// Which file to write to.
///
/// `.tmux.conf.local` whenever it exists OR the config is Oh My Tmux, because that
/// is the file Oh My Tmux reserves for exactly this and the only one it is safe to
/// append to.
pub fn choose_conf(
    resolved: &str,
    local: &str,
    local_exists: bool,
    home: &str,
    conf: Option<&str>,
) -> (r: String)
    ensures
        r@ == (if local_exists || oh_my_tmux(resolved@, home@, text::opt(conf)) {
            local@
        } else {
            resolved@
        }),
{
    if local_exists || is_oh_my_tmux(resolved, home, conf) {
        local.to_owned()
    } else {
        resolved.to_owned()
    }
}

/// Is a link that goes by one of the tool's former names really one of its own?
/// Judged by what the link POINTS AT, never by the name alone.
pub fn is_old_link(agent: &str, target: &str) -> (r: bool)
    ensures
        r == (text::has(target@, agent@ + "-tmux-locator"@) || "/muxhop"@.is_suffix_of(target@)
            || "/taimux"@.is_suffix_of(target@)),
{
    let mut first = agent.to_owned();
    first.append("-tmux-locator");
    contains(target, &first) || ends_with(target, "/muxhop") || ends_with(target, "/taimux")
}

/// Where a program may be: each directory that is listed, with the name in it.
pub open spec fn places(path: Seq<char>, name: Seq<char>) -> Seq<Seq<char>> {
    text::nonempty(text::fields(path, ':')).map_values(|d: Seq<char>| paths::joined(d, name))
}

/// Where a program may be, in the order it is looked for.
pub fn candidates(path: &str, name: &str) -> (r: Vec<String>)
    ensures
        text::texts(r@) == places(path@, name@),
{
    let all = split(path, ':');
    let dirs = text::drop_empty(&all);
    let ghost ds = text::texts(dirs@);
    let mut out: Vec<String> = Vec::new();
    let mut i: usize = 0;
    while i < dirs.len()
        invariant
            i <= dirs@.len(),
            ds == text::texts(dirs@),
            out@.len() == i,
            forall|k: int| 0 <= k < i ==> (#[trigger] out@[k])@ == paths::joined(ds[k], name@),
        decreases dirs@.len() - i,
    {
        assert(ds[i as int] == dirs@[i as int]@);
        let p = paths::join(&dirs[i], name);
        out.push(p);
        i = i + 1;
    }
    assert(text::texts(out@) =~= places(path@, name@));
    out
}

// ---------------------------------------------------------------------------
// The block
// ---------------------------------------------------------------------------
/// Is a line one that an install wrote, under any of the tool's names?
pub open spec fn ours(agent: Seq<char>, l: Seq<char>) -> bool {
    ||| text::has(l, agent + "-tmux-locator pick"@)
    ||| text::has(l, "muxhop pick"@)
    ||| text::has(l, "taimux pick"@)
    ||| ("# "@ + agent + "-tmux-locator"@).is_prefix_of(l)
    ||| ("#"@ + agent + "-tmux-locator"@).is_prefix_of(l)
    ||| "# muxhop"@.is_prefix_of(l)
    ||| "#muxhop"@.is_prefix_of(l)
    ||| "# taimux"@.is_prefix_of(l)
    ||| "#taimux"@.is_prefix_of(l)
}

/// The lines that are not.
pub open spec fn others(agent: Seq<char>, ls: Seq<Seq<char>>) -> Seq<Seq<char>>
    decreases ls.len(),
{
    if ls.len() == 0 {
        Seq::empty()
    } else if ours(agent, ls.last()) {
        others(agent, ls.drop_last())
    } else {
        others(agent, ls.drop_last()).push(ls.last())
    }
}

/// The lines that are.
pub open spec fn own_lines(agent: Seq<char>, ls: Seq<Seq<char>>) -> Seq<Seq<char>>
    decreases ls.len(),
{
    if ls.len() == 0 {
        Seq::empty()
    } else if ours(agent, ls.last()) {
        own_lines(agent, ls.drop_last()).push(ls.last())
    } else {
        own_lines(agent, ls.drop_last())
    }
}

pub open spec fn stripped(agent: Seq<char>, conf: Seq<char>) -> Option<Seq<char>> {
    let ls = text::lines_of(conf);
    if own_lines(agent, ls).len() == 0 {
        None
    } else {
        Some(text::as_lines(others(agent, ls)))
    }
}

fn is_ours(agent: &str, l: &str) -> (r: bool)
    ensures
        r == ours(agent@, l@),
{
    let mut picks = agent.to_owned();
    picks.append("-tmux-locator pick");
    let mut spaced = "# ".to_owned();
    spaced.append(agent);
    spaced.append("-tmux-locator");
    let mut bare = "#".to_owned();
    bare.append(agent);
    bare.append("-tmux-locator");
    contains(l, &picks) || contains(l, "muxhop pick") || contains(l, "taimux pick") || starts_with(
        l,
        &spaced,
    ) || starts_with(l, &bare) || starts_with(l, "# muxhop") || starts_with(l, "#muxhop")
        || starts_with(l, "# taimux") || starts_with(l, "#taimux")
}

/// Remove any block a past install added, under any of this tool's names.
///
/// A file with nothing of ours in it is left completely untouched, mtime included:
/// a reinstall must not look like an edit to something watching the file.
pub fn strip_block(agent: &str, conf: &str) -> (r: Option<String>)
    ensures
        text::opt_string(r) == stripped(agent@, conf@),
{
    let ls = lines(conf);
    let ghost all = text::texts(ls@);
    let mut out: Vec<String> = Vec::new();
    let mut found = false;
    let mut i: usize = 0;
    assert(text::texts(out@) =~= others(agent@, all.take(0)));
    while i < ls.len()
        invariant
            i <= ls@.len(),
            all == text::texts(ls@),
            text::texts(out@) == others(agent@, all.take(i as int)),
            found == (own_lines(agent@, all.take(i as int)).len() > 0),
        decreases ls@.len() - i,
    {
        assert(all.take(i + 1).drop_last() =~= all.take(i as int));
        assert(all.take(i + 1).last() == ls@[i as int]@);
        if is_ours(agent, &ls[i]) {
            found = true;
        } else {
            let t = ls[i].clone();
            proof {
                text::lemma_texts_push(out@, t);
            }
            out.push(t);
        }
        i = i + 1;
    }
    assert(all.take(all.len() as int) =~= all);
    if found {
        Some(text::end_lines(&out))
    } else {
        None
    }
}

/// The place of the first heading of the user's own section, from `i` on.
pub open spec fn heading(ls: Seq<Seq<char>>, i: int) -> Option<int>
    decreases ls.len() - i,
{
    if i < 0 || i >= ls.len() {
        None
    } else if text::has(ls[i], "-- user customizations"@) {
        Some(i)
    } else {
        heading(ls, i + 1)
    }
}

/// The configuration with a block in it: behind the heading, or at the end.
pub open spec fn inserted(conf: Seq<char>, block: Seq<char>) -> Seq<char> {
    let ls = text::lines_of(conf);
    match heading(ls, 0) {
        Some(h) => text::as_lines(ls.take(h + 1)) + block + text::as_lines(ls.skip(h + 1)),
        None => text::as_lines(ls) + block,
    }
}

proof fn lemma_heading(ls: Seq<Seq<char>>, i: int)
    requires
        0 <= i,
    ensures
        match heading(ls, i) {
            Some(h) => i <= h < ls.len(),
            None => true,
        },
    decreases ls.len() - i,
{
    if i < ls.len() && !text::has(ls[i], "-- user customizations"@) {
        lemma_heading(ls, i + 1);
    }
}

/// Insert the block, under the "user customizations" heading where there is one.
///
/// In Oh My Tmux that heading sits inside a heredoc, which is what makes the
/// insertion safe from the shell pass that file gets put through. Appended at the
/// end otherwise.
pub fn insert_block(conf: &str, block: &str) -> (r: String)
    ensures
        r@ == inserted(conf@, block@),
{
    let ls = lines(conf);
    let ghost all = text::texts(ls@);
    let mut out = String::new();
    let mut done = false;
    let mut at: usize = 0;
    let mut i: usize = 0;
    assert(out@ =~= text::as_lines(all.take(0)));
    while i < ls.len()
        invariant
            i <= ls@.len(),
            all == text::texts(ls@),
            !done ==> out@ == text::as_lines(all.take(i as int)) && heading(all, i as int)
                == heading(all, 0),
            done ==> at < i && heading(all, 0) == Some(at as int) && out@ == text::as_lines(
                all.take(at + 1),
            ) + block@ + text::as_lines(all.subrange(at + 1, i as int)),
        decreases ls@.len() - i,
    {
        assert(all[i as int] == ls@[i as int]@);
        assert(all.take(i + 1).drop_last() =~= all.take(i as int));
        assert(all.take(i + 1).last() == ls@[i as int]@);
        let ghost before = out@;
        out.append(&ls[i]);
        out.append("\n");
        if !done {
            if contains(&ls[i], "-- user customizations") {
                at = i;
                done = true;
                out.append(block);
                assert(all.subrange(at + 1, i + 1) =~= Seq::<Seq<char>>::empty());
                assert(out@ + Seq::<char>::empty() =~= out@);
            }
        } else {
            let ghost was = all.subrange(at + 1, i as int);
            let ghost now = all.subrange(at + 1, i + 1);
            assert(now.drop_last() =~= was);
            assert(now.last() == ls@[i as int]@);
            assert(text::as_lines(all.take(at + 1)) + block@ + text::as_lines(now) =~= before
                + ls@[i as int]@ + "\n"@);
        }
        i = i + 1;
    }
    if done {
        assert(all.subrange(at + 1, all.len() as int) =~= all.skip(at + 1));
    } else {
        assert(all.take(all.len() as int) =~= all);
        out.append(block);
    }
    out
}

/// The lines of the block: an empty one, a marker saying what it is, then one bind
/// per key.
pub open spec fn block_lines(
    launcher: Seq<char>,
    key: Seq<char>,
    root: Seq<char>,
    desc: Seq<char>,
) -> Seq<Seq<char>> {
    let small = popup(launcher, true);
    let large = popup(launcher, false);
    let head = seq![
        Seq::<char>::empty(),
        "# taimux - jump between agent sessions - "@ + (if desc.len() == 0 {
            "unbound"@
        } else {
            desc
        }) + " (adaptive popup width)"@,
    ];
    let one = if key.len() == 0 {
        head
    } else {
        head.push(bound("bind-key "@, key, small, large))
    };
    if root.len() == 0 {
        one
    } else {
        one.push(bound("bind-key -n "@, root, small, large))
    }
}

pub open spec fn bound(
    how: Seq<char>,
    key: Seq<char>,
    small: Seq<char>,
    large: Seq<char>,
) -> Seq<char> {
    how + key + " if-shell '"@ + POPUP_COND@ + "' '"@ + small + "' '"@ + large + "'"@
}

fn bind_text(how: &str, key: &str, small: &str, large: &str) -> (r: String)
    ensures
        r@ == bound(how@, key@, small@, large@),
{
    let mut t = how.to_owned();
    t.append(key);
    t.append(" if-shell '");
    t.append(POPUP_COND);
    t.append("' '");
    t.append(small);
    t.append("' '");
    t.append(large);
    t.append("'");
    t
}

/// The block itself: a marker line saying what it is, then one bind per key.
pub fn block_for(launcher: &str, key: &str, root: &str, desc: &str) -> (r: String)
    ensures
        r@ == text::as_lines(block_lines(launcher@, key@, root@, desc@)),
{
    let small = popup_cmd(launcher, true);
    let large = popup_cmd(launcher, false);
    let mut v: Vec<String> = Vec::new();
    let none = String::new();
    assert(none@ =~= Seq::<char>::empty());
    v.push(none);
    let mut mark = "# taimux - jump between agent sessions - ".to_owned();
    if desc.is_empty() {
        mark.append("unbound");
    } else {
        mark.append(desc);
    }
    mark.append(" (adaptive popup width)");
    v.push(mark);
    if !key.is_empty() {
        v.push(bind_text("bind-key ", key, &small, &large));
    }
    if !root.is_empty() {
        v.push(bind_text("bind-key -n ", root, &small, &large));
    }
    assert(text::texts(v@) =~= block_lines(launcher@, key@, root@, desc@));
    text::end_lines(&v)
}

pub open spec fn config_with(
    agent: Seq<char>,
    conf: Seq<char>,
    key: Seq<char>,
    root: Seq<char>,
) -> Seq<char> {
    inserted(
        match stripped(agent, conf) {
            Some(t) => t,
            None => conf,
        },
        text::as_lines(block_lines("taimux"@, key, root, said(key, root))),
    )
}

/// The configuration an install leaves behind: whatever a past one added is taken
/// out, and the block for these keys goes in.
pub fn new_config(agent: &str, conf: &str, key: &str, root: &str) -> (r: String)
    ensures
        r@ == config_with(agent@, conf@, key@, root@),
{
    let desc = describe(key, root);
    let block = block_for("taimux", key, root, &desc);
    match strip_block(agent, conf) {
        Some(t) => insert_block(&t, &block),
        None => insert_block(conf, &block),
    }
}

/// What an install says when it is done.
pub fn done_message(desc: &str) -> (r: String)
    ensures
        r@ == (if desc@.len() == 0 {
            "\nDone. Both key options are set to empty, so no key is bound; run: taimux"@
        } else {
            "\nDone. Press "@ + desc@ + ", or run: taimux"@
        }),
{
    if desc.is_empty() {
        "\nDone. Both key options are set to empty, so no key is bound; run: taimux".to_owned()
    } else {
        let mut t = "\nDone. Press ".to_owned();
        t.append(desc);
        t.append(", or run: taimux");
        t
    }
}

// ---------------------------------------------------------------------------
// Laws
// ---------------------------------------------------------------------------
proof fn lemma_own_lines_join(agent: Seq<char>, a: Seq<Seq<char>>, b: Seq<Seq<char>>)
    ensures
        own_lines(agent, a + b) == own_lines(agent, a) + own_lines(agent, b),
    decreases b.len(),
{
    if b.len() == 0 {
        assert(a + b =~= a);
        assert(own_lines(agent, a) + own_lines(agent, b) =~= own_lines(agent, a));
    } else {
        lemma_own_lines_join(agent, a, b.drop_last());
        assert((a + b).drop_last() =~= a + b.drop_last());
        assert((a + b).last() == b.last());
        assert(own_lines(agent, a) + own_lines(agent, b.drop_last()).push(b.last()) =~= (own_lines(
            agent,
            a,
        ) + own_lines(agent, b.drop_last())).push(b.last()));
    }
}

proof fn lemma_others_own_nothing(agent: Seq<char>, ls: Seq<Seq<char>>)
    ensures
        own_lines(agent, others(agent, ls)).len() == 0,
    decreases ls.len(),
{
    if ls.len() > 0 {
        lemma_others_own_nothing(agent, ls.drop_last());
        if !ours(agent, ls.last()) {
            let o = others(agent, ls);
            assert(o.drop_last() =~= others(agent, ls.drop_last()));
        }
    }
}

proof fn lemma_others_line_like(agent: Seq<char>, ls: Seq<Seq<char>>)
    requires
        text::line_like(ls),
    ensures
        text::line_like(others(agent, ls)),
    decreases ls.len(),
{
    if ls.len() > 0 {
        let front = ls.drop_last();
        assert forall|j: int| 0 <= j < front.len() implies text::free_of(#[trigger] front[j], '\n')
            && text::free_of(front[j], '\r') by {
            assert(front[j] == ls[j]);
        }
        lemma_others_line_like(agent, front);
        assert(text::free_of(ls[ls.len() - 1], '\n') && text::free_of(ls[ls.len() - 1], '\r'));
        let o = others(agent, front);
        let all = others(agent, ls);
        assert forall|j: int| 0 <= j < all.len() implies text::free_of(#[trigger] all[j], '\n')
            && text::free_of(all[j], '\r') by {
            if j < o.len() {
                assert(all[j] == o[j]);
            }
        }
    }
}

proof fn lemma_line_like_join(a: Seq<Seq<char>>, b: Seq<Seq<char>>)
    requires
        text::line_like(a),
        text::line_like(b),
    ensures
        text::line_like(a + b),
{
    let c = a + b;
    assert forall|j: int| 0 <= j < c.len() implies text::free_of(#[trigger] c[j], '\n')
        && text::free_of(c[j], '\r') by {
        if j < a.len() {
            assert(c[j] == a[j]);
        } else {
            assert(c[j] == b[j - a.len()]);
        }
    }
}

/// The lines that stand before a block that is inserted, and those behind it.
pub open spec fn around(conf: Seq<char>) -> (Seq<Seq<char>>, Seq<Seq<char>>) {
    let ls = text::lines_of(conf);
    match heading(ls, 0) {
        Some(h) => (ls.take(h + 1), ls.skip(h + 1)),
        None => (ls, Seq::empty()),
    }
}

/// An insertion puts the lines of the block in one place among the others.
proof fn lemma_inserted_lines(conf: Seq<char>, block: Seq<Seq<char>>)
    requires
        text::free_of(conf, '\r'),
        text::line_like(block),
    ensures
        ({
            let (a, b) = around(conf);
            &&& a + b == text::lines_of(conf)
            &&& inserted(conf, text::as_lines(block)) == text::as_lines(a + block + b)
            &&& text::lines_of(inserted(conf, text::as_lines(block))) == a + block + b
        }),
{
    let ls = text::lines_of(conf);
    text::lemma_lines_are_line_like(conf);
    lemma_heading(ls, 0);
    let (a, b) = around(conf);
    assert(a + b =~= ls);
    assert forall|j: int| 0 <= j < a.len() implies text::free_of(#[trigger] a[j], '\n')
        && text::free_of(a[j], '\r') by {
        assert(a[j] == ls[j]);
    }
    assert forall|j: int| 0 <= j < b.len() implies text::free_of(#[trigger] b[j], '\n')
        && text::free_of(b[j], '\r') by {
        assert(b[j] == ls[a.len() + j]);
    }
    text::lemma_as_lines_join(a, block);
    text::lemma_as_lines_join(a + block, b);
    assert(text::as_lines(b).len() == 0 || b.len() > 0);
    if b.len() == 0 {
        assert(text::as_lines(a) + text::as_lines(block) + text::as_lines(b) =~= text::as_lines(a)
            + text::as_lines(block));
    }
    lemma_line_like_join(a, block);
    lemma_line_like_join(a + block, b);
    text::lemma_lines_are_read_back(a + block + b);
}

/// Is there no line break in it?
pub open spec fn unbroken(s: Seq<char>) -> bool {
    text::free_of(s, '\n') && text::free_of(s, '\r')
}

proof fn lemma_unbroken_together(a: Seq<char>, b: Seq<char>)
    requires
        unbroken(a),
        unbroken(b),
    ensures
        unbroken(a + b),
{
    text::lemma_free_together(a, b, '\n');
    text::lemma_free_together(a, b, '\r');
}

proof fn lemma_decimal_is_unbroken(n: nat)
    ensures
        unbroken(text::decimal(n)),
{
    text::lemma_decimal(n);
    let d = text::decimal(n);
    assert forall|i: int| 0 <= i < d.len() implies d[i] != '\n' && d[i] != '\r' by {
        assert(text::is_digit(d[i]));
    }
}

proof fn lemma_popup_is_unbroken(small: bool)
    ensures
        unbroken(popup("taimux"@, small)),
{
    let (w, h) = geometry(
        if small {
            80
        } else {
            100
        },
    );
    let a = "display-popup -E -e TAIMUX_POPUP=1 -w "@;
    let b = a + text::decimal(w as nat);
    let c = b + "% -h "@;
    let d = c + text::decimal(h as nat);
    let e = d + "% \""@;
    let f = e + "taimux"@;
    reveal_strlit("display-popup -E -e TAIMUX_POPUP=1 -w ");
    reveal_strlit("% -h ");
    reveal_strlit("% \"");
    reveal_strlit("taimux");
    reveal_strlit(" pick #{pane_id}\"");
    assert(unbroken(a));
    assert(unbroken(" pick #{pane_id}\""@));
    lemma_decimal_is_unbroken(w as nat);
    lemma_decimal_is_unbroken(h as nat);
    lemma_unbroken_together(a, text::decimal(w as nat));
    lemma_unbroken_together(b, "% -h "@);
    lemma_unbroken_together(c, text::decimal(h as nat));
    lemma_unbroken_together(d, "% \""@);
    lemma_unbroken_together(e, "taimux"@);
    lemma_unbroken_together(f, " pick #{pane_id}\""@);
}

proof fn lemma_bound_is_unbroken(how: Seq<char>, key: Seq<char>)
    requires
        unbroken(how),
        unbroken(key),
    ensures
        unbroken(bound(how, key, popup("taimux"@, true), popup("taimux"@, false))),
{
    let small = popup("taimux"@, true);
    let large = popup("taimux"@, false);
    lemma_popup_is_unbroken(true);
    lemma_popup_is_unbroken(false);
    reveal_strlit(" if-shell '");
    reveal_strlit("[ \"#{client_width}\" -lt 100 ]");
    reveal_strlit("' '");
    reveal_strlit("'");
    assert(unbroken(POPUP_COND@));
    let a = how + key;
    let b = a + " if-shell '"@;
    let c = b + POPUP_COND@;
    let d = c + "' '"@;
    let e = d + small;
    let f = e + "' '"@;
    let g = f + large;
    lemma_unbroken_together(how, key);
    lemma_unbroken_together(a, " if-shell '"@);
    lemma_unbroken_together(b, POPUP_COND@);
    lemma_unbroken_together(c, "' '"@);
    lemma_unbroken_together(d, small);
    lemma_unbroken_together(e, "' '"@);
    lemma_unbroken_together(f, large);
    lemma_unbroken_together(g, "'"@);
}

/// Each line of a block is one line, where the keys and what is said of them are.
proof fn lemma_block_is_lines(key: Seq<char>, root: Seq<char>, desc: Seq<char>)
    requires
        unbroken(key),
        unbroken(root),
        unbroken(desc),
    ensures
        text::line_like(block_lines("taimux"@, key, root, desc)),
{
    let block = block_lines("taimux"@, key, root, desc);
    let open = "# taimux - jump between agent sessions - "@;
    let what = if desc.len() == 0 {
        "unbound"@
    } else {
        desc
    };
    reveal_strlit("# taimux - jump between agent sessions - ");
    reveal_strlit("unbound");
    reveal_strlit(" (adaptive popup width)");
    reveal_strlit("bind-key ");
    reveal_strlit("bind-key -n ");
    assert(unbroken(open));
    assert(unbroken(" (adaptive popup width)"@));
    assert(unbroken("bind-key "@) && unbroken("bind-key -n "@));
    lemma_unbroken_together(open, what);
    lemma_unbroken_together(open + what, " (adaptive popup width)"@);
    lemma_bound_is_unbroken("bind-key "@, key);
    lemma_bound_is_unbroken("bind-key -n "@, root);
    assert forall|j: int| 0 <= j < block.len() implies text::free_of(#[trigger] block[j], '\n')
        && text::free_of(block[j], '\r') by {
        assert(unbroken(block[j]));
    }
}

proof fn lemma_said_is_unbroken(key: Seq<char>, root: Seq<char>)
    requires
        unbroken(key),
        unbroken(root),
    ensures
        unbroken(said(key, root)),
{
    reveal_strlit("prefix + ");
    reveal_strlit(" and ");
    lemma_unbroken_together("prefix + "@, key);
    lemma_unbroken_together("prefix + "@ + key, " and "@);
    lemma_unbroken_together("prefix + "@ + key + " and "@, root);
}

/// However often it is installed, a key is bound once: the lines of ours in the
/// configuration that an install leaves behind are those of its own block, whatever
/// stood there before.
pub proof fn lemma_a_reinstall_binds_once(
    agent: Seq<char>,
    conf: Seq<char>,
    key: Seq<char>,
    root: Seq<char>,
)
    requires
        text::free_of(conf, '\r'),
        unbroken(key),
        unbroken(root),
    ensures
        own_lines(agent, text::lines_of(config_with(agent, conf, key, root))) == own_lines(
            agent,
            block_lines("taimux"@, key, root, said(key, root)),
        ),
{
    let block = block_lines("taimux"@, key, root, said(key, root));
    let ls = text::lines_of(conf);
    lemma_said_is_unbroken(key, root);
    lemma_block_is_lines(key, root, said(key, root));
    text::lemma_lines_are_line_like(conf);
    let base = match stripped(agent, conf) {
        Some(t) => t,
        None => conf,
    };
    if stripped(agent, conf) is Some {
        lemma_others_line_like(agent, ls);
        text::lemma_lines_are_read_back(others(agent, ls));
        lemma_others_own_nothing(agent, ls);
        lemma_as_lines_free(others(agent, ls));
    }
    assert(own_lines(agent, text::lines_of(base)).len() == 0);
    lemma_inserted_lines(base, block);
    let (a, b) = around(base);
    lemma_own_lines_join(agent, a, b);
    lemma_own_lines_join(agent, a, block);
    lemma_own_lines_join(agent, a + block, b);
    assert(own_lines(agent, a).len() == 0 && own_lines(agent, b).len() == 0);
    assert(own_lines(agent, a + block + b) =~= own_lines(agent, block));
}

proof fn lemma_others_join(agent: Seq<char>, a: Seq<Seq<char>>, b: Seq<Seq<char>>)
    ensures
        others(agent, a + b) == others(agent, a) + others(agent, b),
    decreases b.len(),
{
    if b.len() == 0 {
        assert(a + b =~= a);
        assert(others(agent, a) + others(agent, b) =~= others(agent, a));
    } else {
        lemma_others_join(agent, a, b.drop_last());
        assert((a + b).drop_last() =~= a + b.drop_last());
        assert((a + b).last() == b.last());
        assert(others(agent, a) + others(agent, b.drop_last()).push(b.last()) =~= (others(agent, a)
            + others(agent, b.drop_last())).push(b.last()));
    }
}

proof fn lemma_nothing_of_ours(agent: Seq<char>, ls: Seq<Seq<char>>)
    requires
        own_lines(agent, ls).len() == 0,
    ensures
        others(agent, ls) == ls,
    decreases ls.len(),
{
    if ls.len() > 0 {
        lemma_nothing_of_ours(agent, ls.drop_last());
        assert(ls.drop_last().push(ls.last()) =~= ls);
    }
}

proof fn lemma_all_ours(agent: Seq<char>, ls: Seq<Seq<char>>)
    requires
        forall|i: int| 0 <= i < ls.len() ==> ours(agent, #[trigger] ls[i]),
    ensures
        others(agent, ls).len() == 0,
        own_lines(agent, ls) == ls,
    decreases ls.len(),
{
    if ls.len() > 0 {
        assert(ours(agent, ls[ls.len() - 1]));
        lemma_all_ours(agent, ls.drop_last());
        assert(ls.drop_last().push(ls.last()) =~= ls);
    }
}

proof fn lemma_an_empty_line_is_not_ours(agent: Seq<char>)
    ensures
        !ours(agent, Seq::empty()),
{
    reveal_strlit("-tmux-locator pick");
    reveal_strlit("muxhop pick");
    reveal_strlit("taimux pick");
    reveal_strlit("# ");
    reveal_strlit("#");
    reveal_strlit("-tmux-locator");
    reveal_strlit("# muxhop");
    reveal_strlit("#muxhop");
    reveal_strlit("# taimux");
    reveal_strlit("#taimux");
    assert("muxhop pick"@.len() == 11 && "taimux pick"@.len() == 11);
    assert((agent + "-tmux-locator pick"@).len() >= 18);
    assert(("# "@ + agent + "-tmux-locator"@).len() >= 15);
    assert(("#"@ + agent + "-tmux-locator"@).len() >= 14);
    assert("# muxhop"@.len() == 8 && "#muxhop"@.len() == 7);
    assert("# taimux"@.len() == 8 && "#taimux"@.len() == 7);
}

/// What an install inserted is gone again once it is stripped, but for the empty line
/// it opens with: every other line is still there, in order, and nothing is left that
/// a second pass would strip.
pub proof fn lemma_a_strip_undoes_an_insertion(
    agent: Seq<char>,
    conf: Seq<char>,
    key: Seq<char>,
    root: Seq<char>,
    desc: Seq<char>,
)
    requires
        stripped(agent, conf) is None,
        text::free_of(conf, '\r'),
        unbroken(key),
        unbroken(root),
        unbroken(desc),
    ensures
        stripped(
            agent,
            inserted(conf, text::as_lines(block_lines("taimux"@, key, root, desc))),
        ) == Some(inserted(conf, "\n"@)),
        text::lines_of(inserted(conf, "\n"@)) == around(conf).0 + seq![Seq::<char>::empty()]
            + around(conf).1,
        around(conf).0 + around(conf).1 == text::lines_of(conf),
        stripped(agent, inserted(conf, "\n"@)) is None,
{
    let block = block_lines("taimux"@, key, root, desc);
    let gap = seq![Seq::<char>::empty()];
    let (a, b) = around(conf);
    lemma_block_is_lines(key, root, desc);
    lemma_inserted_lines(conf, block);
    assert(text::line_like(gap));
    lemma_inserted_lines(conf, gap);
    assert(gap.drop_last() =~= Seq::<Seq<char>>::empty());
    assert(text::as_lines(gap.drop_last()).len() == 0);
    assert(text::as_lines(gap) =~= "\n"@);
    lemma_an_empty_line_is_not_ours(agent);
    assert(others(agent, gap.drop_last()).push(gap.last()) =~= gap);
    // The block is its empty line, and then lines that are all recognised.
    let marks = block.skip(1);
    assert(block[0] =~= Seq::<char>::empty());
    assert(block =~= gap + marks);
    assert forall|i: int| 0 <= i < marks.len() implies ours(agent, #[trigger] marks[i]) by {
        lemma_a_block_is_recognised(agent, key, root, desc, i + 1);
        assert(marks[i] == block[i + 1]);
    }
    lemma_all_ours(agent, marks);
    lemma_others_join(agent, gap, marks);
    assert(others(agent, block) =~= gap);
    // What stood there before is kept as it is.
    lemma_own_lines_join(agent, a, b);
    lemma_nothing_of_ours(agent, a);
    lemma_nothing_of_ours(agent, b);
    lemma_others_join(agent, a, block);
    lemma_others_join(agent, a + block, b);
    assert(others(agent, a + block + b) =~= a + gap + b);
    lemma_own_lines_join(agent, gap, marks);
    lemma_own_lines_join(agent, a, block);
    lemma_own_lines_join(agent, a + block, b);
    assert(marks.len() > 0);
    lemma_own_lines_join(agent, a, gap);
    lemma_own_lines_join(agent, a + gap, b);
    assert(own_lines(agent, gap.drop_last()).len() == 0);
}

proof fn lemma_as_lines_free(v: Seq<Seq<char>>)
    requires
        text::all_free_of(v, '\r'),
    ensures
        text::free_of(text::as_lines(v), '\r'),
    decreases v.len(),
{
    if v.len() > 0 {
        let front = v.drop_last();
        assert forall|j: int| 0 <= j < front.len() implies text::free_of(
            #[trigger] front[j],
            '\r',
        ) by {
            assert(front[j] == v[j]);
        }
        lemma_as_lines_free(front);
        reveal_strlit("\n");
        assert(text::free_of(v[v.len() - 1], '\r'));
        let s = text::as_lines(v);
        let n = text::as_lines(front).len() as int;
        assert forall|i: int| 0 <= i < s.len() implies s[i] != '\r' by {
            if i < n {
                assert(s[i] == text::as_lines(front)[i]);
            } else if i < n + v.last().len() {
                assert(s[i] == v.last()[i - n]);
            } else {
                assert(s[i] == '\n');
            }
        }
    }
}

/// Every line of a block but the empty one is recognised as ours, so the next
/// install takes all of them out.
pub proof fn lemma_a_block_is_recognised(
    agent: Seq<char>,
    key: Seq<char>,
    root: Seq<char>,
    desc: Seq<char>,
    i: int,
)
    requires
        1 <= i < block_lines("taimux"@, key, root, desc).len(),
    ensures
        ours(agent, block_lines("taimux"@, key, root, desc)[i]),
{
    let l = block_lines("taimux"@, key, root, desc)[i];
    if i == 1 {
        reveal_strlit("# taimux - jump between agent sessions - ");
        reveal_strlit("# taimux");
        assert(l.take(8) =~= "# taimux"@);
        assert("# taimux"@.is_prefix_of(l));
    } else {
        let small = popup("taimux"@, true);
        let large = popup("taimux"@, false);
        if l == bound("bind-key "@, key, small, large) {
            lemma_bound_is_ours("bind-key "@, key);
        } else {
            assert(l == bound("bind-key -n "@, root, small, large));
            lemma_bound_is_ours("bind-key -n "@, root);
        }
    }
}

proof fn lemma_bound_is_ours(how: Seq<char>, key: Seq<char>)
    ensures
        text::has(bound(how, key, popup("taimux"@, true), popup("taimux"@, false)), "taimux pick"@),
{
    let (w, h) = geometry(80);
    let pre = "display-popup -E -e TAIMUX_POPUP=1 -w "@ + text::decimal(w as nat) + "% -h "@
        + text::decimal(h as nat) + "% \""@;
    reveal_strlit("taimux");
    reveal_strlit(" pick #{pane_id}\"");
    reveal_strlit("taimux pick");
    reveal_strlit(" #{pane_id}\"");
    let small = popup("taimux"@, true);
    let large = popup("taimux"@, false);
    assert(small =~= pre + "taimux pick"@ + " #{pane_id}\""@);
    let head = how + key + " if-shell '"@ + POPUP_COND@ + "' '"@;
    let tail = " #{pane_id}\""@ + "' '"@ + large + "'"@;
    assert(bound(how, key, small, large) =~= (head + pre) + "taimux pick"@ + tail);
    text::lemma_has_middle(head + pre, "taimux pick"@, tail);
}

/// The popup fills a narrow window and leaves a margin in a wide one, and either way runs
/// the picker on the pane it was opened from.
pub proof fn lemma_the_popup_fits_the_window(launcher: Seq<char>)
    ensures
        popup(launcher, true) == "display-popup -E -e TAIMUX_POPUP=1 -w 100% -h 90% \""@ + launcher
            + " pick #{pane_id}\""@,
        popup(launcher, false) == "display-popup -E -e TAIMUX_POPUP=1 -w 80% -h 80% \""@ + launcher
            + " pick #{pane_id}\""@,
{
    reveal_with_fuel(text::decimal, 4);
    reveal_strlit("display-popup -E -e TAIMUX_POPUP=1 -w ");
    reveal_strlit("% -h ");
    reveal_strlit("% \"");
    reveal_strlit("display-popup -E -e TAIMUX_POPUP=1 -w 100% -h 90% \"");
    reveal_strlit("display-popup -E -e TAIMUX_POPUP=1 -w 80% -h 80% \"");
    assert(text::decimal(100) =~= seq!['1', '0', '0']);
    assert(text::decimal(90) =~= seq!['9', '0']);
    assert(text::decimal(80) =~= seq!['8', '0']);
    assert("display-popup -E -e TAIMUX_POPUP=1 -w "@ + text::decimal(100) + "% -h "@
        + text::decimal(90) + "% \""@
        =~= "display-popup -E -e TAIMUX_POPUP=1 -w 100% -h 90% \""@);
    assert("display-popup -E -e TAIMUX_POPUP=1 -w "@ + text::decimal(80) + "% -h "@ + text::decimal(
        80,
    ) + "% \""@ =~= "display-popup -E -e TAIMUX_POPUP=1 -w 80% -h 80% \""@);
}

/// A window is narrow under a hundred columns, for the popup as for the key that opens it.
pub proof fn lemma_a_window_is_narrow_under_a_hundred(width: int)
    ensures
        geometry(width) == (if width < 100 {
            (100u16, 90u16)
        } else {
            (80u16, 80u16)
        }),
{
}

/// A key is bound to the popup of the window it is pressed in: behind the prefix, or
/// without it where it is a root key. The narrow popup comes first, as the condition asks
/// whether the window is.
pub proof fn lemma_a_key_opens_the_popup(launcher: Seq<char>, key: Seq<char>, root: bool)
    ensures
        ({
            let a = bind_line(launcher, key, root);
            let n = a.len() as int;
            &&& a[0] == "bind-key"@
            &&& root ==> n == 7 && a[1] == "-n"@ && a[2] == key
            &&& !root ==> n == 6 && a[1] == key
            &&& a[n - 4] == "if-shell"@
            &&& a[n - 2] == popup(launcher, true)
            &&& a[n - 1] == popup(launcher, false)
        }),
{
}

/// What is written to a configuration binds each key that was given, and no other, under a
/// comment that says which.
pub proof fn lemma_a_block_binds_what_was_given(
    launcher: Seq<char>,
    key: Seq<char>,
    root: Seq<char>,
    desc: Seq<char>,
)
    ensures
        ({
            let b = block_lines(launcher, key, root, desc);
            let tail = " if-shell '"@ + POPUP_COND@ + "' '"@ + popup(launcher, true) + "' '"@
                + popup(launcher, false) + "'"@;
            &&& b.len() == 2 + (if key.len() > 0 {
                1int
            } else {
                0
            }) + (if root.len() > 0 {
                1int
            } else {
                0
            })
            &&& b[0].len() == 0
            &&& "# taimux"@.is_prefix_of(b[1])
            &&& desc.len() > 0 ==> text::has(b[1], desc)
            &&& key.len() > 0 ==> b[2] == "bind-key "@ + key + tail
            &&& root.len() > 0 ==> b.last() == "bind-key -n "@ + root + tail
        }),
{
    let b = block_lines(launcher, key, root, desc);
    let open = "# taimux - jump between agent sessions - "@;
    reveal_strlit("# taimux - jump between agent sessions - ");
    reveal_strlit("# taimux");
    assert(b[1].subrange(0, "# taimux"@.len() as int) =~= "# taimux"@);
    if desc.len() > 0 {
        text::lemma_has_middle(open, desc, " (adaptive popup width)"@);
        assert(b[1] =~= open + desc + " (adaptive popup width)"@);
    }
    let small = popup(launcher, true);
    let large = popup(launcher, false);
    let tail = " if-shell '"@ + POPUP_COND@ + "' '"@ + small + "' '"@ + large + "'"@;
    assert(bound("bind-key "@, key, small, large) =~= "bind-key "@ + key + tail);
    assert(bound("bind-key -n "@, root, small, large) =~= "bind-key -n "@ + root + tail);
}

/// What a person is told of a binding is the key behind the prefix, the root key, or both.
pub proof fn lemma_what_is_said_of_a_binding(key: Seq<char>, root: Seq<char>)
    requires
        key.len() > 0,
        root.len() > 0,
    ensures
        said(key, root) == "prefix + "@ + key + " and "@ + root,
        said(key, Seq::empty()) == "prefix + "@ + key,
        said(Seq::empty(), root) == root,
{
}

/// A line of a configuration is kept by a strip exactly where it is not this program's.
pub proof fn lemma_a_strip_keeps_every_other_line(agent: Seq<char>, ls: Seq<Seq<char>>, l: Seq<char>)
    ensures
        others(agent, ls).contains(l) <==> ls.contains(l) && !ours(agent, l),
    decreases ls.len(),
{
    let kept = others(agent, ls);
    if ls.len() > 0 {
        let front = ls.drop_last();
        let rest = others(agent, front);
        lemma_a_strip_keeps_every_other_line(agent, front, l);
        if kept.contains(l) {
            let k = choose|k: int| 0 <= k < kept.len() && kept[k] == l;
            if k < rest.len() {
                assert(rest[k] == l);
                let i = choose|i: int| 0 <= i < front.len() && front[i] == l;
                assert(ls[i] == l);
            } else {
                assert(ls[ls.len() - 1] == l);
            }
        }
        if ls.contains(l) && !ours(agent, l) {
            let i = choose|i: int| 0 <= i < ls.len() && ls[i] == l;
            if i < front.len() {
                assert(front[i] == l);
                let k = choose|k: int| 0 <= k < rest.len() && rest[k] == l;
                assert(kept[k] == l);
            } else {
                assert(kept.last() == l);
            }
        }
    }
}

/// A configuration is Oh My Tmux's where it lies below that directory of the home or calls
/// its function, and no other is.
pub proof fn lemma_when_a_configuration_is_oh_my_tmux(
    resolved: Seq<char>,
    home: Seq<char>,
    conf: Option<Seq<char>>,
)
    ensures
        conf is Some && text::has(conf->0, "_apply_configuration"@) ==> oh_my_tmux(
            resolved,
            home,
            conf,
        ),
        ({
            let (rooted, names) = paths::components(resolved);
            let (base_rooted, base) = paths::components(home + "/.tmux/"@);
            &&& rooted == base_rooted && base.is_prefix_of(names) ==> oh_my_tmux(
                resolved,
                home,
                conf,
            )
            &&& !base.is_prefix_of(names) && (conf is None || !text::has(
                conf->0,
                "_apply_configuration"@,
            )) ==> !oh_my_tmux(resolved, home, conf)
        }),
{
}

} // verus!
