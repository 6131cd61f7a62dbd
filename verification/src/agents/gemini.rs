//! Gemini CLI: one JSONL chat log per session, under
//! `~/.gemini/tmp/<project>/chats/session-*.jsonl`.
//!
//! Two things here are Gemini's own and neither is optional:
//!
//! - **The project directory is named by a hash.** `<project>` is either a friendly
//!   label or the SHA-256 of the absolute working directory, depending on which
//!   version wrote it. The directory is resolved through `~/.gemini/projects.json`,
//!   which maps the path to its friendly name, under both spellings.
//! - **A rewind deletes turns that are still in the file.** A `$rewindTo` record
//!   drops its target message *and* everything after it.
use vstd::prelude::*;

use super::{past_in, tail_of, title_from_prompt, File, Meta, Past, Turn};
use crate::agents;
use crate::order;
use crate::paths;
use crate::paths::{above, has_extension, join};
use crate::sha256;
use crate::text;
use crate::text::{
    blank, chars_of, find_at, find_char_at, rfind_char_at, same, skip_space, slice, starts_with,
    words,
};
use crate::tmux;
use crate::tmux::shell_quote;
use crate::transcript;

verus! {

pub open spec fn gemini_in(home: Seq<char>) -> Seq<char> {
    paths::joined(home, ".gemini"@)
}

/// Where this agent keeps everything.
pub fn gemini_dir(home: &str) -> (r: String)
    ensures
        r@ == gemini_in(home@),
{
    join(home, ".gemini")
}

/// The directory whose subdirectories are the projects.
pub fn tmp_dir(home: &str) -> (r: String)
    ensures
        r@ == paths::joined(gemini_in(home@), "tmp"@),
{
    let base = gemini_dir(home);
    join(&base, "tmp")
}

/// Is it a chat log, by its name?
pub open spec fn chat(path: Seq<char>) -> bool {
    &&& "session-"@.is_prefix_of(paths::name_of(path))
    &&& paths::ends_in(path, "jsonl"@) || paths::ends_in(path, "json"@)
}

pub open spec fn chats(files: Seq<agents::FileView>) -> Seq<agents::PastView>
    decreases files.len(),
{
    if files.len() == 0 {
        Seq::empty()
    } else if chat(files.last().path) {
        chats(files.drop_last()).push(agents::in_file("gemini"@, files.last()))
    } else {
        chats(files.drop_last())
    }
}

/// Every chat log among the files of the projects' `chats` directories.
pub fn discover(files: &Vec<File>) -> (r: Vec<Past>)
    ensures
        agents::pasts_view(r@) == chats(agents::files_view(files@)),
{
    let ghost fs = agents::files_view(files@);
    let mut out: Vec<Past> = Vec::new();
    let mut i: usize = 0;
    assert(agents::pasts_view(out@) =~= chats(fs.take(0)));
    while i < files.len()
        invariant
            i <= files@.len(),
            fs == agents::files_view(files@),
            agents::pasts_view(out@) == chats(fs.take(i as int)),
        decreases files@.len() - i,
    {
        assert(fs.take(i + 1).drop_last() =~= fs.take(i as int));
        assert(fs.take(i + 1).last() == files@[i as int]@);
        let name = paths::file_name(&files[i].path);
        if starts_with(&name, "session-") && (has_extension(&files[i].path, "jsonl")
            || has_extension(&files[i].path, "json")) {
            let p = past_in("gemini", &files[i]);
            let ghost was = agents::pasts_view(out@);
            let ghost pv = p@;
            out.push(p);
            assert(agents::pasts_view(out@) =~= was.push(pv));
        }
        i = i + 1;
    }
    assert(fs.take(fs.len() as int) =~= fs);
    out
}

// ---------------------------------------------------------------------------
// The projects
// ---------------------------------------------------------------------------
/// The next double-quoted string in a text from a place on: where it begins and
/// where it ends.
pub open spec fn quoted_at(s: Seq<char>, from: int) -> Option<(int, int)> {
    match text::find_char(s, '"', from) {
        None => None,
        Some(a) => match text::find_char(s, '"', a + 1) {
            None => None,
            Some(b) => Some((a + 1, b)),
        },
    }
}

fn next_quoted(v: &Vec<char>, from: usize) -> (r: Option<(usize, usize)>)
    requires
        from <= v@.len(),
    ensures
        match r {
            Some((a, b)) => quoted_at(v@, from as int) == Some((a as int, b as int)) && from < a
                <= b < v@.len(),
            None => quoted_at(v@, from as int) is None,
        },
{
    assert(v@.len() == v.len());
    match find_char_at(v, '"', from) {
        None => None,
        Some(a) => match find_char_at(v, '"', a + 1) {
            None => None,
            Some(b) => Some((a + 1, b)),
        },
    }
}

/// The names of the directories under `tmp`, each with the path it stands for: the
/// path's hash, and its label where it has one. A later one counts for more.
pub open spec fn names_from(s: Seq<char>, from: int) -> Seq<(Seq<char>, Seq<char>)>
    decreases s.len() - from,
{
    match quoted_at(s, from) {
        None => Seq::empty(),
        Some((a, b)) => if from < 0 {
            Seq::empty()
        } else {
            proof {
                lemma_quoted_at(s, from);
            }
            let path = s.subrange(a, b);
            let hash = (sha256::digest(vstd::utf8::encode_utf8(path)), path);
            match quoted_at(s, b + 1) {
                None => seq![hash],
                Some((c, d)) => {
                    proof {
                        lemma_quoted_at(s, b + 1);
                    }
                    let label = s.subrange(c, d);
                    (if label.len() > 0 {
                        seq![hash, (label, path)]
                    } else {
                        seq![hash]
                    }) + names_from(s, d + 1)
                },
            }
        },
    }
}

pub proof fn lemma_quoted_at(s: Seq<char>, from: int)
    requires
        0 <= from,
    ensures
        match quoted_at(s, from) {
            Some((a, b)) => from < a <= b < s.len(),
            None => true,
        },
{
    text::lemma_find_char(s, '"', from);
    match text::find_char(s, '"', from) {
        Some(a) => text::lemma_find_char(s, '"', a + 1),
        None => {},
    }
}

/// The projects a `projects.json` names: one flat object under `"projects"`, each
/// path with its label.
pub open spec fn names_in(projects: Seq<char>) -> Seq<(Seq<char>, Seq<char>)> {
    match text::find(projects, "\"projects\""@) {
        Some(at) => names_from(projects, at + 10),
        None => Seq::empty(),
    }
}

/// A directory's name under `tmp`, and the path it stands for.
pub struct Project {
    pub name: String,
    pub path: String,
}

pub open spec fn projects_view(v: Seq<Project>) -> Seq<(Seq<char>, Seq<char>)> {
    v.map_values(|p: Project| (p.name@, p.path@))
}

proof fn lemma_projects_push(v: Seq<Project>, p: Project)
    ensures
        projects_view(v.push(p)) == projects_view(v).push((p.name@, p.path@)),
{
    assert(projects_view(v.push(p)) =~= projects_view(v).push((p.name@, p.path@)));
}

/// The directory names that a `projects.json` accounts for.
///
/// Both spellings are in it because `tmp/` uses either. It is read as pairs of
/// quoted strings: keys are absolute paths and labels are plain words, so there is
/// no escape to handle.
pub fn project_map(projects: &str) -> (r: Vec<Project>)
    ensures
        projects_view(r@) == names_in(projects@),
{
    let v = chars_of(projects);
    let key = chars_of("\"projects\"");
    let mut out: Vec<Project> = Vec::new();
    proof {
        reveal_strlit("\"projects\"");
    }
    let mut from: usize = match find_at(&v, &key, 0) {
        None => {
            assert(projects_view(out@) =~= Seq::empty());
            return out;
        },
        Some(at) => at + key.len(),
    };
    let ghost all = names_from(v@, from as int);
    assert(projects_view(out@) + names_from(v@, from as int) =~= all);
    loop
        invariant
            from <= v.len(),
            projects_view(out@) + names_from(v@, from as int) == all,
            v@ == projects@,
            all == names_in(projects@),
        decreases v@.len() - from,
    {
        match next_quoted(&v, from) {
            None => {
                assert(projects_view(out@) + names_from(v@, from as int) =~= projects_view(out@));
                return out;
            },
            Some((a, b)) => {
                let path = slice(&v, a, b);
                let hash = sha256::hex(path.as_str().as_bytes());
                let ghost was = projects_view(out@);
                let ghost named = (hash@, path@);
                let p = Project { name: hash, path: path.clone() };
                proof {
                    lemma_projects_push(out@, p);
                }
                out.push(p);
                match next_quoted(&v, b + 1) {
                    None => {
                        assert(was.push(named) =~= was + seq![named]);
                        return out;
                    },
                    Some((c, d)) => {
                        let label = slice(&v, c, d);
                        let ghost tail = names_from(v@, d + 1);
                        if !label.as_str().is_empty() {
                            let ghost second = (label@, path@);
                            let p = Project { name: label, path };
                            proof {
                                lemma_projects_push(out@, p);
                            }
                            out.push(p);
                            assert(was.push(named).push(second) + tail =~= was + (seq![
                                named,
                                second,
                            ] + tail));
                        } else {
                            assert(was.push(named) + tail =~= was + (seq![named] + tail));
                        }
                        from = d + 1;
                    },
                }
            },
        }
    }
}

/// The path a directory name stands for, as the last to be named so is, or nothing.
pub open spec fn path_of(ps: Seq<(Seq<char>, Seq<char>)>, name: Seq<char>) -> Seq<char>
    decreases ps.len(),
{
    if ps.len() == 0 {
        Seq::empty()
    } else if ps.last().0 == name {
        ps.last().1
    } else {
        path_of(ps.drop_last(), name)
    }
}

fn look_up(projects: &Vec<Project>, name: &str) -> (r: String)
    ensures
        r@ == path_of(projects_view(projects@), name@),
{
    let ghost ps = projects_view(projects@);
    let mut n: usize = projects.len();
    assert(ps.take(n as int) =~= ps);
    while n > 0
        invariant
            n <= projects@.len(),
            ps == projects_view(projects@),
            path_of(ps.take(n as int), name@) == path_of(ps, name@),
        decreases n,
    {
        assert(ps.take(n as int).drop_last() =~= ps.take(n - 1));
        assert(ps.take(n as int).last() == ps[n - 1]);
        if same(&projects[n - 1].name, name) {
            return projects[n - 1].path.clone();
        }
        n = n - 1;
    }
    let none = String::new();
    assert(none@ =~= Seq::<char>::empty());
    none
}

// ---------------------------------------------------------------------------
// The fields of a chat log
// ---------------------------------------------------------------------------
/// The string value that follows a key from a place on, if it is one: where it
/// begins.
pub open spec fn value_at(s: Seq<char>, from: int) -> Option<Seq<char>> {
    let a = text::trimmed_start(s.skip(from));
    if a.len() > 0 && a[0] == ':' {
        let b = text::trimmed_start(a.skip(1));
        if b.len() > 0 && b[0] == '"' {
            Some(transcript::cleaned(transcript::body(b.skip(1))))
        } else {
            None
        }
    } else {
        None
    }
}

/// Every key with a string value, from a place on: where the key stands, and the
/// value.
pub open spec fn fields_from(s: Seq<char>, needle: Seq<char>, from: int) -> Seq<(int, Seq<char>)>
    decreases s.len() - from + 1,
{
    match text::find_from(s, needle, from) {
        None => Seq::empty(),
        Some(i) => if from < 0 || needle.len() == 0 {
            Seq::empty()
        } else {
            proof {
                text::lemma_find_from(s, needle, from);
            }
            (match value_at(s, i + needle.len()) {
                Some(v) => seq![(i, v)],
                None => Seq::empty(),
            }) + fields_from(s, needle, i + needle.len())
        },
    }
}

pub open spec fn string_fields_of(s: Seq<char>, key: Seq<char>) -> Seq<(int, Seq<char>)> {
    fields_from(s, "\""@ + key + "\""@, 0)
}

/// A string field: where its key stands, and its value.
pub struct Field {
    pub at: usize,
    pub value: String,
}

pub open spec fn fields_view(v: Seq<Field>) -> Seq<(int, Seq<char>)> {
    v.map_values(|f: Field| (f.at as int, f.value@))
}

fn value_in(v: &Vec<char>, from: usize) -> (r: Option<String>)
    requires
        from <= v@.len(),
    ensures
        text::opt_string(r) == value_at(v@, from as int),
{
    let n: usize = v.len();
    let a: usize = skip_space(v, from);
    assert(a < n ==> v@.skip(a as int)[0] == v@[a as int]);
    if a < n && v[a] == ':' {
        assert(v@.skip(a as int).skip(1) =~= v@.skip(a + 1));
        let b: usize = skip_space(v, a + 1);
        assert(b < n ==> v@.skip(b as int)[0] == v@[b as int]);
        if b < n && v[b] == '"' {
            assert(v@.skip(b as int).skip(1) =~= v@.skip(b + 1));
            let rest = slice(v, b + 1, n);
            assert(rest@ =~= v@.skip(b + 1));
            let body = transcript::json_body(&rest);
            return Some(transcript::clean(&body));
        }
    }
    None
}

/// Every `"key" : "value"` in the text, in order, tolerating whitespace the way JSON
/// allows it.
///
/// A quote inside a value is escaped, so it cannot end it early.
pub fn string_fields(s: &Vec<char>, key: &str) -> (r: Vec<Field>)
    ensures
        fields_view(r@) == string_fields_of(s@, key@),
        forall|i: int| 0 <= i < r@.len() ==> (#[trigger] r@[i]).at <= s@.len(),
{
    let mut k = "\"".to_owned();
    k.append(key);
    k.append("\"");
    proof {
        reveal_strlit("\"");
    }
    let needle = chars_of(&k);
    let mut out: Vec<Field> = Vec::new();
    let mut from: usize = 0;
    let ghost all = string_fields_of(s@, key@);
    assert(fields_view(out@) + fields_from(s@, needle@, 0) =~= all);
    loop
        invariant
            from <= s@.len(),
            needle@.len() > 0,
            all == string_fields_of(s@, key@),
            fields_view(out@) + fields_from(s@, needle@, from as int) == all,
            forall|i: int| 0 <= i < out@.len() ==> (#[trigger] out@[i]).at <= s@.len(),
        decreases s@.len() - from,
    {
        proof {
            text::lemma_find_from(s@, needle@, from as int);
        }
        match find_at(s, &needle, from) {
            None => {
                assert(fields_view(out@) + fields_from(s@, needle@, from as int) =~= fields_view(
                    out@,
                ));
                return out;
            },
            Some(i) => {
                let next: usize = i + needle.len();
                let ghost was = fields_view(out@);
                let ghost tail = fields_from(s@, needle@, next as int);
                match value_in(s, next) {
                    Some(value) => {
                        let ghost vv = value@;
                        out.push(Field { at: i, value });
                        assert(fields_view(out@) =~= was.push((i as int, vv)));
                        assert(was.push((i as int, vv)) + tail =~= was + (seq![(i as int, vv)]
                            + tail));
                    },
                    None => {
                        assert(was + tail =~= was + (Seq::<(int, Seq<char>)>::empty() + tail));
                    },
                }
                from = next;
            },
        }
    }
}

// ---------------------------------------------------------------------------
// The turns
// ---------------------------------------------------------------------------
/// Whose turn a message is, or neither.
pub open spec fn role(chunk: Seq<char>) -> Option<bool> {
    let f = string_fields_of(chunk, "type"@);
    if f.len() == 0 {
        None
    } else if f[0].1 == "user"@ {
        Some(true)
    } else if f[0].1 == "gemini"@ {
        Some(false)
    } else {
        None
    }
}

fn role_of(chunk: &Vec<char>) -> (r: Option<bool>)
    ensures
        r == role(chunk@),
{
    let f = string_fields(chunk, "type");
    let ghost fs = string_fields_of(chunk@, "type"@);
    assert(fs.len() == f@.len());
    if f.len() == 0 {
        return None;
    }
    assert(fs[0].1 == f@[0].value@);
    if same(&f[0].value, "user") {
        Some(true)
    } else if same(&f[0].value, "gemini") {
        Some(false)
    } else {
        None
    }
}

/// The values of the fields that are not blank.
pub open spec fn filled(f: Seq<(int, Seq<char>)>) -> Seq<Seq<char>>
    decreases f.len(),
{
    if f.len() == 0 {
        Seq::empty()
    } else if text::is_blank(f.last().1) {
        filled(f.drop_last())
    } else {
        filled(f.drop_last()).push(f.last().1)
    }
}

fn filled_values(f: &Vec<Field>) -> (r: Vec<String>)
    ensures
        text::texts(r@) == filled(fields_view(f@)),
{
    let ghost fs = fields_view(f@);
    let mut out: Vec<String> = Vec::new();
    let mut i: usize = 0;
    assert(text::texts(out@) =~= filled(fs.take(0)));
    while i < f.len()
        invariant
            i <= f@.len(),
            fs == fields_view(f@),
            text::texts(out@) == filled(fs.take(i as int)),
        decreases f@.len() - i,
    {
        assert(fs.take(i + 1).drop_last() =~= fs.take(i as int));
        assert(fs.take(i + 1).last() == fs[i as int]);
        if !blank(&f[i].value) {
            let t = f[i].value.clone();
            proof {
                text::lemma_texts_push(out@, t);
            }
            out.push(t);
        }
        i = i + 1;
    }
    assert(fs.take(fs.len() as int) =~= fs);
    out
}

/// The parts of a message: the texts of its parts, or its plain contents where it
/// has none.
pub open spec fn parts(chunk: Seq<char>) -> Seq<Seq<char>> {
    let t = string_fields_of(chunk, "text"@);
    if t.len() > 0 {
        filled(t)
    } else {
        filled(string_fields_of(chunk, "content"@))
    }
}

/// A text without one of the blocks the harness writes.
pub open spec fn without(s: Seq<char>, tag: Seq<char>) -> Seq<char> {
    transcript::without_blocks(s, "<"@ + tag + ">"@, "</"@ + tag + ">"@)
}

/// A text without any of the blocks the harness writes into a turn.
pub open spec fn without_injected(s: Seq<char>) -> Seq<char> {
    without(
        without(without(without(s, "session_context"@), "project_context"@), "loaded_context"@),
        "tool_output_masked"@,
    )
}

/// One message's prose: the text of its parts, or a plain string content, in single
/// spaced words.
pub open spec fn prose(chunk: Seq<char>) -> Seq<char> {
    text::joined(text::words_of(without_injected(text::joined(parts(chunk), " "@))), " "@)
}

fn rid_of(s: &str, tag: &str) -> (r: String)
    ensures
        r@ == without(s@, tag@),
{
    let mut open = "<".to_owned();
    open.append(tag);
    open.append(">");
    let mut close = "</".to_owned();
    close.append(tag);
    close.append(">");
    proof {
        reveal_strlit("</");
    }
    transcript::untag(s, &open, &close)
}

/// One message's prose.
///
/// The blocks the harness writes into a turn are left out. The first of them carries
/// the whole workspace directory listing at the top of every session: indexing it
/// would put every project's file names in every conversation that ever touched that
/// project, and would make the opening prompt useless as a title.
fn prose_of(chunk: &Vec<char>) -> (r: String)
    ensures
        r@ == prose(chunk@),
{
    let texts = string_fields(chunk, "text");
    assert(string_fields_of(chunk@, "text"@).len() == texts@.len());
    let values = if texts.len() > 0 {
        filled_values(&texts)
    } else {
        let contents = string_fields(chunk, "content");
        filled_values(&contents)
    };
    let all = text::join(&values, " ");
    let a = rid_of(&all, "session_context");
    let b = rid_of(&a, "project_context");
    let c = rid_of(&b, "loaded_context");
    let d = rid_of(&c, "tool_output_masked");
    let w = words(&d);
    text::join(&w, " ")
}

/// A place where a message begins, or where a rewind stands.
#[verifier::ext_equal]
pub struct MarkView {
    pub at: int,
    pub id: Seq<char>,
    pub rewind: bool,
}

pub open spec fn marks_of(f: Seq<(int, Seq<char>)>, rewind: bool) -> Seq<MarkView> {
    f.map_values(|x: (int, Seq<char>)| MarkView { at: x.0, id: x.1, rewind })
}

/// The places where a message begins or a rewind stands, in the order of the text.
pub open spec fn marks(s: Seq<char>) -> Seq<MarkView> {
    let all = marks_of(string_fields_of(s, "id"@), false) + marks_of(
        string_fields_of(s, "$rewindTo"@),
        true,
    );
    let by = order::ordered(all.map_values(|m: MarkView| m.at));
    Seq::new(all.len(), |i: int| all[by[i]])
}

/// The turns so far, each with the id of its message.
#[verifier::ext_equal]
pub struct Told {
    pub turns: Seq<agents::TurnView>,
    pub ids: Seq<Seq<char>>,
}

/// Where an id first stands, from a place on.
pub open spec fn place_of(ids: Seq<Seq<char>>, id: Seq<char>, i: int) -> Option<int>
    decreases ids.len() - i,
{
    if i >= ids.len() {
        None
    } else if ids[i] == id {
        Some(i)
    } else {
        place_of(ids, id, i + 1)
    }
}

/// What the text up to the next mark adds. A rewind drops its target message AND
/// everything after it.
pub open spec fn told_next(s: Seq<char>, t: Told, m: MarkView, end: int) -> Told {
    if m.rewind {
        match place_of(t.ids, m.id, 0) {
            Some(n) => Told { turns: t.turns.take(n), ids: t.ids.take(n) },
            None => t,
        }
    } else {
        let chunk = s.subrange(m.at, end);
        match role(chunk) {
            Some(you) => if prose(chunk).len() > 0 {
                Told {
                    turns: t.turns.push(agents::TurnView { you, text: prose(chunk) }),
                    ids: t.ids.push(m.id),
                }
            } else {
                t
            },
            None => t,
        }
    }
}

pub open spec fn told(s: Seq<char>, ms: Seq<MarkView>, n: int) -> Told
    decreases n,
{
    if n <= 0 || n > ms.len() {
        Told { turns: Seq::empty(), ids: Seq::empty() }
    } else {
        told_next(
            s,
            told(s, ms, n - 1),
            ms[n - 1],
            if n < ms.len() {
                ms[n].at
            } else {
                s.len() as int
            },
        )
    }
}

/// Every turn in a chat log, oldest first, rewinds applied.
pub open spec fn turns_in(s: Seq<char>) -> Seq<agents::TurnView> {
    told(s, marks(s), marks(s).len() as int).turns
}

struct Mark {
    at: usize,
    id: String,
    rewind: bool,
}

impl View for Mark {
    type V = MarkView;

    closed spec fn view(&self) -> MarkView {
        MarkView { at: self.at as int, id: self.id@, rewind: self.rewind }
    }
}

spec fn marks_view(v: Seq<Mark>) -> Seq<MarkView> {
    v.map_values(|m: Mark| m@)
}

fn add_marks(out: &mut Vec<Mark>, f: &Vec<Field>, rewind: bool, n: usize)
    requires
        forall|i: int| 0 <= i < f@.len() ==> (#[trigger] f@[i]).at <= n,
        forall|i: int| 0 <= i < old(out)@.len() ==> (#[trigger] old(out)@[i]).at <= n,
    ensures
        marks_view(final(out)@) == marks_view(old(out)@) + marks_of(fields_view(f@), rewind),
        forall|i: int| 0 <= i < final(out)@.len() ==> (#[trigger] final(out)@[i]).at <= n,
{
    let ghost was = marks_view(out@);
    let ghost fs = marks_of(fields_view(f@), rewind);
    let mut i: usize = 0;
    assert(marks_view(out@) =~= was + fs.take(0));
    while i < f.len()
        invariant
            i <= f@.len(),
            fs == marks_of(fields_view(f@), rewind),
            marks_view(out@) == was + fs.take(i as int),
            forall|k: int| 0 <= k < f@.len() ==> (#[trigger] f@[k]).at <= n,
            forall|k: int| 0 <= k < out@.len() ==> (#[trigger] out@[k]).at <= n,
        decreases f@.len() - i,
    {
        let m = Mark { at: f[i].at, id: f[i].value.clone(), rewind };
        assert(fields_view(f@)[i as int] == (f@[i as int].at as int, f@[i as int].value@));
        assert(fs[i as int] == m@);
        let ghost before = marks_view(out@);
        let ghost mv = m@;
        out.push(m);
        assert(marks_view(out@) =~= before.push(mv));
        assert(before.push(mv) =~= was + fs.take(i + 1));
        i = i + 1;
    }
    assert(fs.take(fs.len() as int) =~= fs);
}

fn marks_in(s: &Vec<char>) -> (r: Vec<Mark>)
    ensures
        marks_view(r@) == marks(s@),
        forall|i: int| 0 <= i < r@.len() ==> (#[trigger] r@[i]).at <= s@.len(),
        forall|i: int, j: int| 0 <= i < j < r@.len() ==> r@[i].at <= r@[j].at,
{
    let n: usize = s.len();
    let ids = string_fields(s, "id");
    let rewinds = string_fields(s, "$rewindTo");
    let mut all: Vec<Mark> = Vec::new();
    add_marks(&mut all, &ids, false, n);
    add_marks(&mut all, &rewinds, true, n);
    let ghost av = marks_view(all@);
    assert(av =~= marks_of(string_fields_of(s@, "id"@), false) + marks_of(
        string_fields_of(s@, "$rewindTo"@),
        true,
    ));
    let mut keys: Vec<i128> = Vec::new();
    let mut i: usize = 0;
    while i < all.len()
        invariant
            i <= all@.len(),
            keys@.len() == i,
            forall|k: int| 0 <= k < i ==> #[trigger] keys@[k] == all@[k].at,
        decreases all@.len() - i,
    {
        keys.push(all[i].at as i128);
        i = i + 1;
    }
    let ghost ks = av.map_values(|m: MarkView| m.at);
    assert(order::ints(keys@) =~= ks);
    let by = order::order(&keys);
    let ghost place = order::places(by@);
    let mut out: Vec<Mark> = Vec::new();
    let mut k: usize = 0;
    while k < by.len()
        invariant
            k <= by@.len(),
            av == marks_view(all@),
            place == order::places(by@),
            ks == av.map_values(|m: MarkView| m.at),
            order::is_order(ks, place),
            out@.len() == k,
            n == s@.len(),
            forall|j: int| 0 <= j < all@.len() ==> (#[trigger] all@[j]).at <= n,
            forall|j: int| 0 <= j < k ==> (#[trigger] out@[j])@ == av[place[j]],
            forall|j: int| 0 <= j < k ==> (#[trigger] out@[j]).at <= n,
        decreases by@.len() - k,
    {
        assert(place[k as int] == by@[k as int]);
        let m = &all[by[k]];
        assert(av[by@[k as int] as int] == m@);
        out.push(Mark { at: m.at, id: m.id.clone(), rewind: m.rewind });
        k = k + 1;
    }
    assert(marks_view(out@) =~= marks(s@));
    assert forall|i: int, j: int| 0 <= i < j < out@.len() implies out@[i].at <= out@[j].at by {
        assert(order::before(ks, place[i], place[j]));
        assert(out@[i]@ == av[place[i]] && out@[j]@ == av[place[j]]);
    }
    out
}

fn find_id(ids: &Vec<String>, id: &str) -> (r: Option<usize>)
    ensures
        match r {
            Some(n) => place_of(text::texts(ids@), id@, 0) == Some(n as int) && n < ids@.len(),
            None => place_of(text::texts(ids@), id@, 0) is None,
        },
{
    let ghost all = text::texts(ids@);
    let mut i: usize = 0;
    while i < ids.len()
        invariant
            i <= ids@.len(),
            all == text::texts(ids@),
            place_of(all, id@, i as int) == place_of(all, id@, 0),
        decreases ids@.len() - i,
    {
        assert(all[i as int] == ids@[i as int]@);
        if same(&ids[i], id) {
            return Some(i);
        }
        i = i + 1;
    }
    None
}

/// Every turn in a chat log, oldest first, rewinds applied.
///
/// **Layout-agnostic, and it has to be**: the current layout is a JSON object per
/// line, the legacy one a single pretty-printed object holding a `messages` array.
/// So neither is parsed as lines. The text is cut at each message's own `id` (and at
/// each `$rewindTo`, which has none), and each piece is read for a role and whatever
/// prose follows it.
pub fn scan_turns(log: &str) -> (r: Vec<Turn>)
    ensures
        agents::turns_view(r@) == turns_in(log@),
{
    let s = chars_of(log);
    let marks = marks_in(&s);
    let ghost ms = marks_view(marks@);
    let n: usize = s.len();
    let mut turns: Vec<Turn> = Vec::new();
    let mut ids: Vec<String> = Vec::new();
    let mut i: usize = 0;
    let ghost none = told(s@, ms, 0);
    assert(agents::turns_view(turns@) =~= none.turns);
    assert(text::texts(ids@) =~= none.ids);
    while i < marks.len()
        invariant
            i <= marks@.len(),
            n == s@.len(),
            ms == marks_view(marks@),
            agents::turns_view(turns@) == told(s@, ms, i as int).turns,
            text::texts(ids@) == told(s@, ms, i as int).ids,
            ids@.len() == turns@.len(),
            forall|k: int| 0 <= k < marks@.len() ==> (#[trigger] marks@[k]).at <= n,
            forall|k: int, j: int|
                0 <= k < j < marks@.len() ==> marks@[k].at <= marks@[j].at,
        decreases marks@.len() - i,
    {
        let ghost was = told(s@, ms, i as int);
        let m = &marks[i];
        assert(ms[i as int] == m@);
        let end: usize = if i + 1 < marks.len() {
            assert(ms[i + 1] == marks@[i + 1]@);
            marks[i + 1].at
        } else {
            n
        };
        assert(told(s@, ms, i + 1) == told_next(s@, was, m@, end as int));
        if m.rewind {
            match find_id(&ids, &m.id) {
                Some(k) => {
                    turns.truncate(k);
                    ids.truncate(k);
                    assert(agents::turns_view(turns@) =~= was.turns.take(k as int));
                    assert(text::texts(ids@) =~= was.ids.take(k as int));
                },
                None => {},
            }
        } else {
            let piece = slice(&s, m.at, end);
            let chunk = chars_of(&piece);
            match role_of(&chunk) {
                Some(you) => {
                    let t = prose_of(&chunk);
                    if !t.as_str().is_empty() {
                        let id = m.id.clone();
                        let ghost tv = agents::TurnView { you, text: t@ };
                        proof {
                            text::lemma_texts_push(ids@, id);
                        }
                        ids.push(id);
                        turns.push(Turn { you, text: t });
                        assert(agents::turns_view(turns@) =~= was.turns.push(tv));
                    }
                },
                None => {},
            }
        }
        i = i + 1;
    }
    turns
}

// ---------------------------------------------------------------------------
// A whole conversation
// ---------------------------------------------------------------------------
/// The first of a chat log's fields by that name.
pub open spec fn first_field(s: Seq<char>, key: Seq<char>) -> Option<Seq<char>> {
    let f = string_fields_of(s, key);
    if f.len() == 0 {
        None
    } else {
        Some(f[0].1)
    }
}

fn first_of(s: &Vec<char>, key: &str) -> (r: Option<String>)
    ensures
        text::opt_string(r) == first_field(s@, key@),
{
    let f = string_fields(s, key);
    let ghost fs = string_fields_of(s@, key@);
    assert(fs.len() == f@.len());
    if f.len() == 0 {
        None
    } else {
        assert(fs[0].1 == f@[0].value@);
        Some(f[0].value.clone())
    }
}

/// The directory from the header's hash, and by the name of the project's own
/// directory failing that.
pub open spec fn ran_in(
    key: Seq<char>,
    log: Seq<char>,
    projects: Seq<(Seq<char>, Seq<char>)>,
) -> Seq<char> {
    let by_hash = match first_field(log, "projectHash"@) {
        Some(h) => path_of(projects, h),
        None => Seq::empty(),
    };
    if by_hash.len() > 0 {
        by_hash
    } else {
        let dir = paths::component_above(key, 2);
        if dir.len() > 0 {
            path_of(projects, dir)
        } else {
            Seq::empty()
        }
    }
}

/// The first thing you asked, as a title.
pub open spec fn opening(turns: Seq<agents::TurnView>, i: int) -> Seq<char>
    decreases turns.len() - i,
{
    if i >= turns.len() {
        Seq::empty()
    } else if turns[i].you {
        agents::prompt_title(turns[i].text)
    } else {
        opening(turns, i + 1)
    }
}

/// What a row says of a chat log, if it can be read.
pub open spec fn meta_of(
    key: Seq<char>,
    log: Option<Seq<char>>,
    projects: Seq<(Seq<char>, Seq<char>)>,
) -> agents::MetaView {
    match log {
        None => agents::no_meta(),
        Some(s) => {
            let title = opening(turns_in(s), 0);
            agents::MetaView {
                cwd: ran_in(key, s, projects),
                version: Seq::empty(),
                title,
                src: agents::source(title, "p"@),
            }
        },
    }
}

fn cwd_of(key: &str, log: &str, projects: &Vec<Project>) -> (r: String)
    ensures
        r@ == ran_in(key@, log@, projects_view(projects@)),
{
    let s = chars_of(log);
    if let Some(h) = first_of(&s, "projectHash") {
        let p = look_up(projects, &h);
        if !p.as_str().is_empty() {
            return p;
        }
    }
    let dir = above(key, 2);
    if dir.as_str().is_empty() {
        let none = String::new();
        assert(none@ =~= Seq::<char>::empty());
        none
    } else {
        look_up(projects, &dir)
    }
}

/// The directory from the header's hash, and the first thing you asked as the title:
/// Gemini records no title of its own, so the opening prompt is the only thing that
/// identifies a session.
pub fn meta(key: &str, log: Option<&str>, projects: &Vec<Project>) -> (r: Meta)
    ensures
        r@ == meta_of(key@, text::opt(log), projects_view(projects@)),
{
    let s: &str = match log {
        None => {
            return Meta::default();
        },
        Some(s) => s,
    };
    let cwd = cwd_of(key, s, projects);
    let turns = scan_turns(s);
    let ghost ts = agents::turns_view(turns@);
    let mut title = String::new();
    let mut found = false;
    let mut i: usize = 0;
    assert(title@ =~= Seq::<char>::empty());
    while i < turns.len() && !found
        invariant
            i <= turns@.len(),
            ts == agents::turns_view(turns@),
            if found {
                title@ == opening(ts, 0)
            } else {
                title@.len() == 0 && opening(ts, i as int) == opening(ts, 0)
            },
        decreases
            turns@.len() - i,
            (if found {
                0int
            } else {
                1int
            }),
    {
        assert(ts[i as int] == turns@[i as int]@);
        if turns[i].you {
            title = title_from_prompt(&turns[i].text);
            found = true;
        } else {
            i = i + 1;
        }
    }
    assert(title@ =~= opening(ts, 0));
    let src: &'static str = if title.as_str().is_empty() {
        ""
    } else {
        "p"
    };
    let version = String::new();
    assert(version@ =~= Seq::<char>::empty());
    Meta { cwd, version, title, src }
}

/// The texts of the turns, each with a space behind it.
pub open spec fn turns_prose(ts: Seq<agents::TurnView>) -> Seq<char>
    decreases ts.len(),
{
    if ts.len() == 0 {
        Seq::empty()
    } else {
        turns_prose(ts.drop_last()) + ts.last().text + " "@
    }
}

/// Every piece of conversation text in a chat log, as one line.
pub fn extract(log: &str) -> (r: String)
    ensures
        r@ == turns_prose(turns_in(log@)),
{
    let turns = scan_turns(log);
    let ghost ts = agents::turns_view(turns@);
    let mut out = String::new();
    let mut i: usize = 0;
    assert(out@ =~= turns_prose(ts.take(0)));
    while i < turns.len()
        invariant
            i <= turns@.len(),
            ts == agents::turns_view(turns@),
            out@ == turns_prose(ts.take(i as int)),
        decreases turns@.len() - i,
    {
        assert(ts.take(i + 1).drop_last() =~= ts.take(i as int));
        assert(ts.take(i + 1).last() == turns@[i as int]@);
        out.append(&turns[i].text);
        out.append(" ");
        i = i + 1;
    }
    assert(ts.take(ts.len() as int) =~= ts);
    out
}

/// The last turns, oldest first.
///
/// The log is read whole: a legacy chat has no line structure to tail at all, and a
/// rewind is only meaningful against the turns before it.
pub fn turns(log: &str, want: usize) -> (r: Vec<Turn>)
    ensures
        agents::turns_view(r@) == agents::last_of(turns_in(log@), want as nat),
{
    tail_of(scan_turns(log), want)
}

/// The last piece of a text behind its last dash, if it has one.
pub open spec fn behind_dash(s: Seq<char>) -> Seq<char> {
    match text::rfind_char(s, '-', s.len() as int) {
        Some(i) => s.skip(i + 1),
        None => Seq::empty(),
    }
}

/// The id a chat log names itself by, and the tail of its filename failing that.
pub open spec fn session(key: Seq<char>, log: Option<Seq<char>>) -> Seq<char> {
    let named = behind_dash(paths::stem(key));
    match log {
        Some(s) => match first_field(s, "sessionId"@) {
            Some(id) => if id.len() > 0 {
                id
            } else {
                named
            },
            None => named,
        },
        None => named,
    }
}

/// The session id a chat log names itself by.
///
/// The filename carries only its first eight characters, which Gemini's own lookup
/// accepts but which can collide, so the header is read and the filename is the
/// fallback.
pub fn session_id(key: &str, log: Option<&str>) -> (r: String)
    ensures
        r@ == session(key@, text::opt(log)),
{
    if let Some(s) = log {
        let v = chars_of(s);
        if let Some(id) = first_of(&v, "sessionId") {
            if !id.as_str().is_empty() {
                return id;
            }
        }
    }
    let stem = paths::file_stem(key);
    let v = chars_of(&stem);
    let n: usize = v.len();
    match rfind_char_at(&v, '-', n) {
        Some(i) => {
            assert(v@.subrange(i + 1, n as int) =~= stem@.skip(i + 1));
            slice(&v, i + 1, n)
        },
        None => {
            let none = String::new();
            assert(none@ =~= Seq::<char>::empty());
            none
        },
    }
}

pub open spec fn resumed(key: Seq<char>, log: Option<Seq<char>>) -> Result<Seq<char>, Seq<char>> {
    let id = session(key, log);
    if id.len() == 0 {
        Err("that chat log carries no session id to resume by"@)
    } else {
        Ok("command gemini --resume "@ + tmux::quoted(id))
    }
}

/// `gemini --resume <session id>`.
///
/// Sessions are scoped per project over there, and this opens in the directory the
/// session ran in, so the two agree.
pub fn resume(key: &str, log: Option<&str>) -> (r: Result<String, String>)
    ensures
        tmux::result_texts(r) == resumed(key@, text::opt(log)),
{
    let id = session_id(key, log);
    if id.as_str().is_empty() {
        return Err("that chat log carries no session id to resume by".to_owned());
    }
    let mut s = "command gemini --resume ".to_owned();
    let q = shell_quote(&id);
    s.append(&q);
    Ok(s)
}

// ---------------------------------------------------------------------------
// Laws
// ---------------------------------------------------------------------------
/// A rewind drops its target AND everything after it, and keeps all before.
pub proof fn lemma_a_rewind_drops_the_run_it_points_at(
    s: Seq<char>,
    t: Told,
    m: MarkView,
    end: int,
    n: int,
)
    requires
        m.rewind,
        t.turns.len() == t.ids.len(),
        place_of(t.ids, m.id, 0) == Some(n),
    ensures
        told_next(s, t, m, end).turns == t.turns.take(n),
        !told_next(s, t, m, end).ids.contains(m.id),
{
    lemma_place_of(t.ids, m.id, 0);
}

proof fn lemma_place_of(ids: Seq<Seq<char>>, id: Seq<char>, i: int)
    requires
        0 <= i,
    ensures
        match place_of(ids, id, i) {
            Some(n) => i <= n < ids.len() && ids[n] == id && forall|k: int|
                i <= k < n ==> ids[k] != id,
            None => true,
        },
    decreases ids.len() - i,
{
    if i < ids.len() && ids[i] != id {
        lemma_place_of(ids, id, i + 1);
    }
}

/// A chat is resumed by the session its log names, and where the log names none, by what
/// stands behind the last dash of the file's name.
pub proof fn lemma_a_chat_is_resumed_by_its_session(key: Seq<char>, log: Seq<char>, id: Seq<char>)
    requires
        id.len() > 0,
    ensures
        first_field(log, "sessionId"@) == Some(id) ==> resumed(key, Some(log)) == Ok::<
            Seq<char>,
            Seq<char>,
        >("command gemini --resume "@ + tmux::quoted(id)),
        first_field(log, "sessionId"@) is None && behind_dash(paths::stem(key)) == id ==> resumed(
            key,
            Some(log),
        ) == Ok::<Seq<char>, Seq<char>>("command gemini --resume "@ + tmux::quoted(id)),
        behind_dash(paths::stem(key)) == id ==> resumed(key, None) == Ok::<Seq<char>, Seq<char>>(
            "command gemini --resume "@ + tmux::quoted(id),
        ),
{
}

/// A log of a session is a chat, and each chat is a conversation under its file.
pub proof fn lemma_a_chat_is_listed(files: Seq<agents::FileView>, i: int) -> (k: int)
    requires
        0 <= i < files.len(),
        "session-"@.is_prefix_of(paths::name_of(files[i].path)),
        paths::ends_in(files[i].path, "jsonl"@) || paths::ends_in(files[i].path, "json"@),
    ensures
        0 <= k < chats(files).len(),
        chats(files)[k].agent == "gemini"@,
        chats(files)[k].key == files[i].path,
        chats(files)[k].mtime == files[i].mtime,
    decreases files.len(),
{
    let front = files.drop_last();
    if i == files.len() - 1 {
        chats(front).len() as int
    } else {
        assert(front[i] == files[i]);
        lemma_a_chat_is_listed(front, i)
    }
}

/// Where a chat was held is the project its log names by a hash, and else the one that its
/// directory is called after.
pub proof fn lemma_where_a_chat_was_held(
    key: Seq<char>,
    log: Seq<char>,
    projects: Seq<(Seq<char>, Seq<char>)>,
    h: Seq<char>,
)
    ensures
        first_field(log, "projectHash"@) == Some(h) && path_of(projects, h).len() > 0 ==> meta_of(
            key,
            Some(log),
            projects,
        ).cwd == path_of(projects, h),
        first_field(log, "projectHash"@) is None && paths::component_above(key, 2) == h && h.len()
            > 0 ==> meta_of(key, Some(log), projects).cwd == path_of(projects, h),
{
}

/// The last project of a name is the one it stands for.
pub proof fn lemma_the_last_project_of_a_name(
    ps: Seq<(Seq<char>, Seq<char>)>,
    name: Seq<char>,
    i: int,
)
    requires
        0 <= i < ps.len(),
        ps[i].0 == name,
        forall|j: int| i < j < ps.len() ==> (#[trigger] ps[j]).0 != name,
    ensures
        path_of(ps, name) == ps[i].1,
    decreases ps.len(),
{
    if i < ps.len() - 1 {
        assert(ps[ps.len() - 1].0 != name);
        let front = ps.drop_last();
        assert forall|j: int| i < j < front.len() implies (#[trigger] front[j]).0 != name by {
            assert(front[j] == ps[j]);
        }
        lemma_the_last_project_of_a_name(front, name, i);
    }
}

/// A chat is called by the first thing that was asked in it.
pub proof fn lemma_a_chat_is_called_by_its_first_question(
    turns: Seq<agents::TurnView>,
    from: int,
    i: int,
)
    requires
        0 <= from <= i < turns.len(),
        turns[i].you,
        forall|j: int| from <= j < i ==> !(#[trigger] turns[j]).you,
    ensures
        opening(turns, from) == agents::prompt_title(turns[i].text),
    decreases i - from,
{
    if from < i {
        assert(!turns[from].you);
        lemma_a_chat_is_called_by_its_first_question(turns, from + 1, i);
    }
}

/// What is indexed of a chat holds everything that was said in it.
pub proof fn lemma_the_prose_of_a_chat_holds_every_turn(ts: Seq<agents::TurnView>, i: int)
    requires
        0 <= i < ts.len(),
    ensures
        text::has(turns_prose(ts), ts[i].text + " "@),
    decreases ts.len(),
{
    let front = ts.drop_last();
    let before = turns_prose(front);
    let want = ts[i].text + " "@;
    if i == ts.len() - 1 {
        assert(turns_prose(ts) =~= before + want + Seq::<char>::empty());
        text::lemma_has_middle(before, want, Seq::empty());
    } else {
        assert(front[i] == ts[i]);
        lemma_the_prose_of_a_chat_holds_every_turn(front, i);
        let k = choose|k: int| text::occurs_at(before, want, k);
        assert(turns_prose(ts).subrange(k, k + want.len()) =~= before.subrange(k, k + want.len()));
        assert(text::occurs_at(turns_prose(ts), want, k));
    }
}

/// A chunk of a chat is the user's or the agent's by the first type it names, and of no one
/// by any other.
pub proof fn lemma_a_chunk_is_of_its_type(chunk: Seq<char>)
    ensures
        first_field(chunk, "type"@) == Some("user"@) ==> role(chunk) == Some(true),
        first_field(chunk, "type"@) == Some("gemini"@) ==> role(chunk) == Some(false),
        first_field(chunk, "type"@) != Some("user"@) && first_field(chunk, "type"@) != Some(
            "gemini"@,
        ) ==> role(chunk) is None,
{
    reveal_strlit("user");
    reveal_strlit("gemini");
    assert("user"@.len() == 4 && "gemini"@.len() == 6);
}

/// A field is read with what stands between the quotes behind its colon.
pub proof fn lemma_a_field_is_read_behind_its_key(key: Seq<char>, v: Seq<char>, rest: Seq<char>)
    requires
        text::free_of(v, '"'),
        text::free_of(v, '\\'),
    ensures
        first_field("\""@ + key + "\""@ + ":\""@ + v + "\""@ + rest, key) == Some(text::trimmed(v)),
{
    reveal_strlit("\"");
    reveal_strlit(":\"");
    let q = "\""@ + key + "\""@;
    let tail = v + seq!['"'] + rest;
    let s = "\""@ + key + "\""@ + ":\""@ + v + "\""@ + rest;
    assert("\""@ =~= seq!['"']);
    assert(":\""@ =~= seq![':', '"']);
    let after = seq![':', '"'] + tail;
    assert(s =~= q + after);
    assert(s.subrange(0, q.len() as int) =~= q);
    assert(text::occurs_at(s, q, 0));
    assert(text::find_from(s, q, 0) == Some(0int));
    assert(s.skip(q.len() as int) =~= after);
    assert(after[0] == ':');
    assert(text::trimmed_start(after) == after);
    let b = seq!['"'] + tail;
    assert(after.skip(1) =~= b);
    assert(b[0] == '"');
    assert(text::trimmed_start(b) == b);
    assert(b.skip(1) =~= tail);
    lemma_body_is_up_to_its_quote(v, rest, 0);
    assert(transcript::body(tail) =~= v);
    transcript::lemma_plain_words_are_kept(v, 0);
    assert(v.skip(0) =~= v);
    let f = string_fields_of(s, key);
    assert(f[0].1 == text::trimmed(v));
}

proof fn lemma_body_is_up_to_its_quote(v: Seq<char>, rest: Seq<char>, i: int)
    requires
        0 <= i <= v.len(),
        text::free_of(v, '"'),
        text::free_of(v, '\\'),
    ensures
        transcript::body_end(v + seq!['"'] + rest, i) == v.len(),
    decreases v.len() - i,
{
    let s = v + seq!['"'] + rest;
    if i < v.len() {
        assert(s[i] == v[i]);
        lemma_body_is_up_to_its_quote(v, rest, i + 1);
    } else {
        assert(s[i] == '"');
    }
}

} // verus!
