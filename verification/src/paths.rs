//! Where this tool puts things at runtime, and how a path is put together and taken
//! apart.
use vstd::prelude::*;

use crate::text;
use crate::text::chars_of;

verus! {

/// One path inside another: an absolute one stands for itself, and a separator
/// goes between the two where the first does not end in one.
pub open spec fn joined(base: Seq<char>, name: Seq<char>) -> Seq<char> {
    if (name.len() > 0 && name[0] == '/') || base.len() == 0 {
        name
    } else if base.last() == '/' {
        base + name
    } else {
        base + "/"@ + name
    }
}

pub fn join(base: &str, name: &str) -> (r: String)
    ensures
        r@ == joined(base@, name@),
{
    let b = chars_of(base);
    let n = chars_of(name);
    if (n.len() > 0 && n[0] == '/') || b.len() == 0 {
        return name.to_owned();
    }
    let mut out = base.to_owned();
    if b[b.len() - 1] != '/' {
        out.append("/");
    }
    out.append(name);
    out
}

/// The base of the runtime directory: the session's own, then the temporary one,
/// then `/tmp`.
pub open spec fn runtime_base(xdg: Option<Seq<char>>, tmpdir: Option<Seq<char>>) -> Seq<char> {
    match xdg {
        Some(d) => d,
        None => match tmpdir {
            Some(d) => d,
            None => "/tmp"@,
        },
    }
}

pub open spec fn runtime(xdg: Option<Seq<char>>, tmpdir: Option<Seq<char>>) -> Seq<char> {
    joined(runtime_base(xdg, tmpdir), "taimux"@)
}

/// The per-user runtime directory for this tool, from the values of
/// `XDG_RUNTIME_DIR` and `TMPDIR`.
///
/// `XDG_RUNTIME_DIR` first, which on a normal login is a tmpfs the session owns
/// and the system clears on logout: exactly right for hook state and a socket.
/// `TMPDIR` then `/tmp` are the fallbacks for a context that has no session, such
/// as a cron job or a container.
pub fn runtime_dir(xdg: Option<&str>, tmpdir: Option<&str>) -> (r: String)
    ensures
        r@ == runtime(text::opt(xdg), text::opt(tmpdir)),
{
    let base: &str = match xdg {
        Some(d) => d,
        None => match tmpdir {
            Some(d) => d,
            None => "/tmp",
        },
    };
    join(base, "taimux")
}

/// The daemon's socket: `TAIMUX_SOCKET` where that is set, and one in the runtime
/// directory otherwise.
pub fn socket_path(socket: Option<&str>, xdg: Option<&str>, tmpdir: Option<&str>) -> (r: String)
    ensures
        r@ == match socket {
            Some(s) => s@,
            None => joined(runtime(text::opt(xdg), text::opt(tmpdir)), "sock"@),
        },
{
    match socket {
        Some(s) => s.to_owned(),
        None => {
            let dir = runtime_dir(xdg, tmpdir);
            join(&dir, "sock")
        },
    }
}

/// The components of a path: whether it begins at the root, and the names. A
/// component that names the directory itself counts only where it opens the path.
pub open spec fn components(path: Seq<char>) -> (bool, Seq<Seq<char>>) {
    let rooted = path.len() > 0 && path[0] == '/';
    (rooted, kept_parts(text::fields(path, '/'), rooted))
}

pub open spec fn kept_parts(f: Seq<Seq<char>>, rooted: bool) -> Seq<Seq<char>>
    decreases f.len(),
{
    if f.len() == 0 {
        Seq::empty()
    } else {
        let rest = kept_parts(f.drop_last(), rooted);
        let p = f.last();
        if p.len() == 0 || (p == "."@ && (rooted || f.len() > 1)) {
            rest
        } else {
            rest.push(p)
        }
    }
}

/// The components of a path.
pub fn parts(path: &str) -> (r: (bool, Vec<String>))
    ensures
        (r.0, text::texts(r.1@)) == components(path@),
{
    let rooted = text::starts_with(path, "/");
    proof {
        reveal_strlit("/");
        if rooted {
            assert(path@[0] == "/"@[0]);
        } else if path@.len() > 0 && path@[0] == '/' {
            assert(path@.take(1) =~= "/"@);
            assert("/"@.is_prefix_of(path@));
        }
    }
    let f = text::split(path, '/');
    let ghost all = text::texts(f@);
    let mut out: Vec<String> = Vec::new();
    let mut i: usize = 0;
    assert(text::texts(out@) =~= kept_parts(all.take(0), rooted));
    while i < f.len()
        invariant
            i <= f@.len(),
            all == text::texts(f@),
            text::texts(out@) == kept_parts(all.take(i as int), rooted),
        decreases f@.len() - i,
    {
        assert(all.take(i + 1).drop_last() =~= all.take(i as int));
        assert(all.take(i + 1).last() == f@[i as int]@);
        let skip = f[i].as_str().is_empty() || (text::same(&f[i], ".") && (rooted || i > 0));
        if !skip {
            let t = f[i].clone();
            proof {
                text::lemma_texts_push(out@, t);
            }
            out.push(t);
        }
        i = i + 1;
    }
    assert(all.take(all.len() as int) =~= all);
    (rooted, out)
}

/// The component that stands `up` places before the last, if the path is so deep and
/// it is a name rather than a step up or the directory itself.
pub open spec fn component_above(path: Seq<char>, up: int) -> Seq<char> {
    let names = components(path).1;
    if names.len() > up && names[names.len() - 1 - up] != "."@ && names[names.len() - 1 - up]
        != ".."@ {
        names[names.len() - 1 - up]
    } else {
        Seq::empty()
    }
}

pub fn above(path: &str, up: usize) -> (r: String)
    ensures
        r@ == component_above(path@, up as int),
{
    let (_, names) = parts(path);
    let ghost ns = text::texts(names@);
    let n: usize = names.len();
    assert(ns.len() == n);
    let none = String::new();
    assert(none@ =~= Seq::<char>::empty());
    if n > up {
        assert(ns[n - 1 - up] == names@[n - 1 - up]@);
        let name = names[n - 1 - up].clone();
        if text::same(&name, ".") || text::same(&name, "..") {
            none
        } else {
            name
        }
    } else {
        none
    }
}

/// The name of the file a path leads to: its last component, whatever slashes follow
/// it. A path that ends in a step up names none.
pub open spec fn name_of(path: Seq<char>) -> Seq<char> {
    component_above(path, 0)
}

/// The name of the file a path leads to, or nothing.
pub fn file_name(path: &str) -> (r: String)
    ensures
        r@ == name_of(path@),
{
    above(path, 0)
}

/// A file's name without its extension. A name that only begins with a dot has none.
pub open spec fn stem(path: Seq<char>) -> Seq<char> {
    let name = name_of(path);
    match text::rfind_char(name, '.', name.len() as int) {
        Some(i) => if i == 0 {
            name
        } else {
            name.take(i)
        },
        None => name,
    }
}

/// A file's name without its extension.
pub fn file_stem(path: &str) -> (r: String)
    ensures
        r@ == stem(path@),
{
    let name = file_name(path);
    let v = chars_of(&name);
    match text::rfind_char_at(&v, '.', v.len()) {
        Some(i) => if i == 0 {
            name
        } else {
            let t = text::slice(&v, 0, i);
            assert(t@ =~= name@.take(i as int));
            t
        },
        None => name,
    }
}

/// Does a file's name have that extension? A name that only begins with a dot has
/// none.
pub open spec fn ends_in(path: Seq<char>, ext: Seq<char>) -> bool {
    let name = name_of(path);
    match text::rfind_char(name, '.', name.len() as int) {
        Some(i) => i > 0 && name.skip(i + 1) == ext,
        None => false,
    }
}

pub fn has_extension(path: &str, ext: &str) -> (r: bool)
    ensures
        r == ends_in(path@, ext@),
{
    let name = file_name(path);
    let v = chars_of(&name);
    let n: usize = v.len();
    match text::rfind_char_at(&v, '.', n) {
        Some(i) => {
            let t = text::slice(&v, i + 1, n);
            assert(t@ =~= name@.skip(i + 1));
            i > 0 && text::same(&t, ext)
        },
        None => false,
    }
}

/// A name is put below a directory behind one slash, and a path from the root stands for
/// itself.
pub proof fn lemma_a_name_below_a_directory(base: Seq<char>, name: Seq<char>)
    requires
        base.len() > 0,
        name.len() > 0,
        name[0] != '/',
    ensures
        base.last() != '/' ==> joined(base, name) == base + "/"@ + name,
        base.last() == '/' ==> joined(base, name) == base + name,
        joined(base, "/"@ + name) == "/"@ + name,
{
    reveal_strlit("/");
    assert(("/"@ + name)[0] == '/');
}

/// What is kept while the machine runs is kept in the directory for that, and else in the
/// one for what is temporary.
pub proof fn lemma_where_what_passes_is_kept(xdg: Seq<char>, tmp: Seq<char>)
    requires
        xdg.len() > 0,
        xdg.last() != '/',
        tmp.len() > 0,
        tmp.last() != '/',
    ensures
        runtime(Some(xdg), Some(tmp)) == xdg + "/taimux"@,
        runtime(None, Some(tmp)) == tmp + "/taimux"@,
        runtime(None, None) == "/tmp/taimux"@,
{
    reveal_strlit("/");
    reveal_strlit("taimux");
    reveal_strlit("/taimux");
    reveal_strlit("/tmp");
    reveal_strlit("/tmp/taimux");
    assert("taimux"@[0] == 't');
    assert("/tmp"@.last() == 'p');
    assert("/"@ + "taimux"@ =~= "/taimux"@);
    assert(xdg + "/"@ + "taimux"@ =~= xdg + "/taimux"@);
    assert(tmp + "/"@ + "taimux"@ =~= tmp + "/taimux"@);
    assert("/tmp"@ + "/"@ + "taimux"@ =~= "/tmp/taimux"@);
}

/// A file below a directory is called by its own name, ends in what stands behind its last
/// dot, and is called without it by what stands before.
pub proof fn lemma_a_file_is_called_by_its_name(dir: Seq<char>, stem_: Seq<char>, ext: Seq<char>)
    requires
        stem_.len() > 0,
        text::free_of(stem_, '/'),
        text::free_of(ext, '/'),
        text::free_of(ext, '.'),
        ext.len() > 0,
    ensures
        ({
            let path = dir + "/"@ + stem_ + "."@ + ext;
            &&& name_of(path) == stem_ + "."@ + ext
            &&& stem(path) == stem_
            &&& ends_in(path, ext)
        }),
{
    reveal_strlit("/");
    reveal_strlit(".");
    reveal_strlit("..");
    let name = stem_ + "."@ + ext;
    let path = dir + "/"@ + stem_ + "."@ + ext;
    assert("/"@ =~= seq!['/']);
    assert(path =~= dir + seq!['/'] + name);
    assert forall|i: int| 0 <= i < name.len() implies name[i] != '/' by {
        if i < stem_.len() {
            assert(name[i] == stem_[i]);
        } else if i > stem_.len() {
            assert(name[i] == ext[i - stem_.len() - 1]);
        }
    }
    text::lemma_fields_join(dir, '/', name);
    text::lemma_one_field(name, '/');
    text::lemma_some_field(dir, '/');
    let f = text::fields(path, '/');
    assert(f == text::fields(dir, '/') + seq![name]);
    assert(f.last() == name);
    assert(name.len() >= 3);
    let rooted = path.len() > 0 && path[0] == '/';
    assert(kept_parts(f, rooted).last() == name);
    assert(name.len() != 2 && name.len() != 1);
    text::lemma_rfind_char(name, '.', name.len() as int);
    let i = text::rfind_char(name, '.', name.len() as int)->0;
    let n = stem_.len() as int;
    assert(name[n] == '.');
    if i > n {
        assert(name[i] == ext[i - n - 1]);
    }
    assert(name.skip(n + 1) =~= ext);
    assert(name.take(n) =~= stem_);
}

} // verus!
