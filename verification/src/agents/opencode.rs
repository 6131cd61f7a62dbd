//! OpenCode: every conversation in one SQLite database, at
//! `~/.local/share/opencode/opencode.db`.
//!
//! The only agent here with no files to walk, which changes three things:
//!
//! - **The key is a session id**, not a path, and that id is what
//!   `opencode --session` takes.
//! - **There is no transcript to point a handoff at.**
//! - **Nothing is incremental.** A conversation's fingerprint is its
//!   `time_updated`, so a session that has said something since the last pass is
//!   re-read whole and one that has not is not read at all.
//!
//! The program puts the questions; these are their texts, and what the answers mean.
use vstd::prelude::*;

use super::{enough, title_from_prompt, Meta, Past, Prose, Turn};
use crate::agents;
use crate::json;
use crate::paths;
use crate::paths::join;
use crate::sqlite::Cell;
use crate::text;
use crate::text::{contains, contains_char, same, trim, turn};
use crate::tmux;
use crate::tmux::shell_quote;
use crate::transcript;

verus! {

/// Where the database is.
pub fn db_path(home: &str) -> (r: String)
    ensures
        r@ == paths::joined(home@, ".local/share/opencode/opencode.db"@),
{
    join(home, ".local/share/opencode/opencode.db")
}

/// Can the id stand in a `WHERE` clause?
pub open spec fn quotable(id: Seq<char>) -> bool {
    &&& id.len() > 0
    &&& vstd::utf8::encode_utf8(id).len() <= 128
    &&& !id.contains('\'')
    &&& !id.contains('"')
    &&& !id.contains('\0')
    &&& !id.contains('\n')
}

/// A string safe to paste into a `WHERE` clause.
///
/// These ids come off rows this same database handed back, so this is a belt rather
/// than a defence. An id carrying a quote is refused outright rather than escaped
/// cleverly.
pub fn quote(id: &str) -> (r: Option<String>)
    ensures
        text::opt_string(r) == (if quotable(id@) {
            Some("'"@ + id@ + "'"@)
        } else {
            None
        }),
{
    if id.is_empty() || id.as_bytes().len() > 128 || contains_char(id, '\'') || contains_char(
        id,
        '"',
    ) || contains_char(id, '\0') || contains_char(id, '\n') {
        return None;
    }
    let mut s = "'".to_owned();
    s.append(id);
    s.append("'");
    Some(s)
}

// ---------------------------------------------------------------------------
// The questions
// ---------------------------------------------------------------------------
/// Every top-level conversation, with when it last said anything AND everything a
/// row says about it.
///
/// Archived ones and children (a sub-agent's session carries a `parent_id`) are left
/// out, which is the same pair of conditions OpenCode's own picker uses.
pub const SESSIONS: &'static str = "SELECT id, time_updated, title, directory FROM session WHERE time_archived IS NULL AND parent_id IS NULL";

pub open spec fn asking(before: Seq<char>, id: Seq<char>, after: Seq<char>) -> Option<Seq<char>> {
    if quotable(id) {
        Some(before + ("'"@ + id + "'"@) + after)
    } else {
        None
    }
}

fn ask(before: &str, id: &str, after: &str) -> (r: Option<String>)
    ensures
        text::opt_string(r) == asking(before@, id@, after@),
{
    match quote(id) {
        None => None,
        Some(q) => {
            let mut s = before.to_owned();
            s.append(&q);
            s.append(after);
            Some(s)
        },
    }
}

/// When a conversation last said anything.
pub fn stamp_query(key: &str) -> (r: Option<String>)
    ensures
        text::opt_string(r) == asking(
            "SELECT time_updated FROM session WHERE id = "@,
            key@,
            " LIMIT 1"@,
        ),
{
    ask("SELECT time_updated FROM session WHERE id = ", key, " LIMIT 1")
}

/// What a row says about a conversation.
pub fn meta_query(key: &str) -> (r: Option<String>)
    ensures
        text::opt_string(r) == asking(
            "SELECT title, directory FROM session WHERE id = "@,
            key@,
            " LIMIT 1"@,
        ),
{
    ask("SELECT title, directory FROM session WHERE id = ", key, " LIMIT 1")
}

/// Everything in a conversation, in order.
pub fn prose_query(key: &str) -> (r: Option<String>)
    ensures
        text::opt_string(r) == asking(
            "SELECT p.data FROM message m JOIN part p ON p.message_id = m.id WHERE m.session_id = "@,
            key@,
            " ORDER BY m.time_created ASC, p.time_created ASC"@,
        ),
{
    ask(
        "SELECT p.data FROM message m JOIN part p ON p.message_id = m.id WHERE m.session_id = ",
        key,
        " ORDER BY m.time_created ASC, p.time_created ASC",
    )
}

/// The messages of a conversation, newest first.
pub fn messages_query(key: &str) -> (r: Option<String>)
    ensures
        text::opt_string(r) == asking(
            "SELECT m.id, m.data FROM message m WHERE m.session_id = "@,
            key@,
            " ORDER BY m.time_created DESC"@,
        ),
{
    ask(
        "SELECT m.id, m.data FROM message m WHERE m.session_id = ",
        key,
        " ORDER BY m.time_created DESC",
    )
}

/// The parts of a message, in order.
pub fn parts_query(message: &str) -> (r: Option<String>)
    ensures
        text::opt_string(r) == asking(
            "SELECT data FROM part WHERE message_id = "@,
            message@,
            " ORDER BY time_created ASC"@,
        ),
{
    ask("SELECT data FROM part WHERE message_id = ", message, " ORDER BY time_created ASC")
}

// ---------------------------------------------------------------------------
// The answers
// ---------------------------------------------------------------------------
/// A row's two descriptive columns.
pub open spec fn columns_meta(title: Seq<char>, directory: Seq<char>) -> agents::MetaView {
    let t = agents::prompt_title(title);
    agents::MetaView {
        cwd: text::turned(directory, '\t', ' '),
        version: Seq::empty(),
        title: t,
        src: agents::source(t, "t"@),
    }
}

/// A row's two descriptive columns. OpenCode records a real title of its own.
pub fn meta_from(title: &str, directory: &str) -> (r: Meta)
    ensures
        r@ == columns_meta(title@, directory@),
{
    let t = title_from_prompt(title);
    let src: &'static str = if t.as_str().is_empty() {
        ""
    } else {
        "t"
    };
    let version = String::new();
    assert(version@ =~= Seq::<char>::empty());
    Meta { cwd: turn(directory, '\t', ' '), version, title: t, src }
}

/// Milliseconds as whole seconds, towards the epoch.
pub open spec fn seconds(ms: i64) -> int {
    if ms >= 0 {
        ms as int / 1000
    } else {
        -(-(ms as int) / 1000)
    }
}

fn in_seconds(ms: i64) -> (r: i64)
    ensures
        r == seconds(ms),
{
    if ms >= 0 {
        ms / 1000
    } else {
        let wide: i128 = -(ms as i128);
        let s: i128 = wide / 1000;
        (-s) as i64
    }
}

/// The conversations that the rows of a query name.
pub open spec fn listed(rows: Seq<Vec<Cell>>) -> Seq<agents::PastView>
    decreases rows.len(),
{
    if rows.len() == 0 {
        Seq::empty()
    } else {
        let rest = listed(rows.drop_last());
        let r = rows.last()@;
        if r.len() < 4 || r[0].as_text().len() == 0 {
            rest
        } else {
            rest.push(
                agents::PastView {
                    agent: "opencode"@,
                    key: r[0].as_text(),
                    mtime: seconds(r[1].as_int()) as i64,
                    meta: Some(columns_meta(r[2].as_text(), r[3].as_text())),
                },
            )
        }
    }
}

/// Every top-level conversation, from the answer to the question for them.
pub fn discover(rows: &Vec<Vec<Cell>>) -> (r: Vec<Past>)
    ensures
        agents::pasts_view(r@) == listed(rows@),
{
    let mut out: Vec<Past> = Vec::new();
    let mut i: usize = 0;
    assert(agents::pasts_view(out@) =~= listed(rows@.take(0)));
    while i < rows.len()
        invariant
            i <= rows@.len(),
            agents::pasts_view(out@) == listed(rows@.take(i as int)),
        decreases rows@.len() - i,
    {
        assert(rows@.take(i + 1).drop_last() =~= rows@.take(i as int));
        let r = &rows[i];
        if r.len() >= 4 {
            let id = r[0].text();
            if !id.as_str().is_empty() {
                let p = Past {
                    agent: "opencode".to_owned(),
                    key: id,
                    mtime: in_seconds(r[1].integer()),
                    meta: Some(meta_from(&r[2].text(), &r[3].text())),
                };
                let ghost was = agents::pasts_view(out@);
                let ghost pv = p@;
                out.push(p);
                assert(agents::pasts_view(out@) =~= was.push(pv));
            }
        }
        i = i + 1;
    }
    assert(rows@.take(rows@.len() as int) =~= rows@);
    out
}

/// A number that is not negative.
pub open spec fn at_least_none(n: i64) -> u64 {
    if n < 0 {
        0
    } else {
        n as u64
    }
}

/// When a conversation last said anything, in milliseconds, which is what stands in
/// for a byte count here.
pub fn fingerprint(stamp: &Cell) -> (r: u64)
    ensures
        r == at_least_none(stamp.as_int()),
{
    let n: i64 = stamp.integer();
    if n < 0 {
        0
    } else {
        n as u64
    }
}

/// What a row says, from the first row of the answer, if there is one.
pub open spec fn meta_of(row: Option<(Seq<char>, Seq<char>)>) -> agents::MetaView {
    match row {
        Some((title, directory)) => columns_meta(title, directory),
        None => agents::no_meta(),
    }
}

pub open spec fn row_view(row: Option<(Cell, Cell)>) -> Option<(Seq<char>, Seq<char>)> {
    match row {
        Some((a, b)) => Some((a.as_text(), b.as_text())),
        None => None,
    }
}

pub fn meta(row: &Option<(Cell, Cell)>) -> (r: Meta)
    ensures
        r@ == meta_of(row_view(*row)),
{
    match row {
        Some((title, directory)) => meta_from(&title.text(), &directory.text()),
        None => Meta::default(),
    }
}

/// The text of one `part` row, which stores its payload as JSON.
pub open spec fn part(data: Seq<char>) -> Option<Seq<char>> {
    if text::has(data, "\"type\":\"text\""@) {
        match transcript::body_after(data, "\"text\":\""@) {
            Some(b) => if transcript::cleaned(b).len() > 0 {
                Some(transcript::cleaned(b))
            } else {
                None
            },
            None => None,
        }
    } else {
        None
    }
}

/// The text of one `part` row. A tool call's arguments and its output are most of
/// the bytes and none of the prose.
pub fn part_text(data: &str) -> (r: Option<String>)
    ensures
        text::opt_string(r) == part(data@),
{
    if !contains(data, "\"type\":\"text\"") {
        return None;
    }
    match transcript::after_key(data, "\"text\":\"") {
        None => None,
        Some(b) => {
            let t = transcript::clean(&b);
            if t.as_str().is_empty() {
                None
            } else {
                Some(t)
            }
        },
    }
}

pub open spec fn cell_texts(v: Seq<Cell>) -> Seq<Seq<char>> {
    v.map_values(|c: Cell| c.as_text())
}

/// The texts of the parts, each with a space behind it.
pub open spec fn parts_prose(parts: Seq<Seq<char>>) -> Seq<char>
    decreases parts.len(),
{
    if parts.len() == 0 {
        Seq::empty()
    } else {
        match part(parts.last()) {
            Some(t) => parts_prose(parts.drop_last()) + t + " "@,
            None => parts_prose(parts.drop_last()),
        }
    }
}

/// All the prose of a conversation, under the time that it last said anything.
pub open spec fn whole_prose(stamp: i64, parts: Seq<Seq<char>>) -> agents::ProseView {
    agents::ProseView {
        fingerprint: at_least_none(stamp),
        text: parts_prose(parts),
        whole: true,
    }
}

/// A conversation's prose, whole: `stamp` is when it last said anything, and `parts`
/// is everything in it.
pub fn prose(stamp: i64, parts: &Vec<Cell>) -> (r: Prose)
    ensures
        r@ == whole_prose(stamp, cell_texts(parts@)),
{
    let ghost ps = cell_texts(parts@);
    let mut out = String::new();
    let mut i: usize = 0;
    assert(out@ =~= parts_prose(ps.take(0)));
    while i < parts.len()
        invariant
            i <= parts@.len(),
            ps == cell_texts(parts@),
            out@ == parts_prose(ps.take(i as int)),
        decreases parts@.len() - i,
    {
        assert(ps.take(i + 1).drop_last() =~= ps.take(i as int));
        assert(ps.take(i + 1).last() == parts@[i as int].as_text());
        let data = parts[i].text();
        if let Some(t) = part_text(&data) {
            out.append(&t);
            out.append(" ");
        }
        i = i + 1;
    }
    assert(ps.take(ps.len() as int) =~= ps);
    let fingerprint: u64 = if stamp < 0 {
        0
    } else {
        stamp as u64
    };
    Prose { fingerprint, text: out, whole: true }
}

/// Whether a message is yours, theirs, or neither.
pub open spec fn role(data: Seq<char>) -> Option<bool> {
    let r = json::or_empty(json::first_value(data, "role"@));
    if r == "user"@ {
        Some(true)
    } else if r == "assistant"@ {
        Some(false)
    } else {
        None
    }
}

pub fn role_of(data: &str) -> (r: Option<bool>)
    ensures
        r == role(data@),
{
    let r = json::field(data, "role");
    if same(&r, "user") {
        Some(true)
    } else if same(&r, "assistant") {
        proof {
            reveal_strlit("user");
            reveal_strlit("assistant");
        }
        Some(false)
    } else {
        None
    }
}

/// One message, and the parts it is made of, if they could be had.
pub struct Message {
    pub id: String,
    pub data: String,
    pub parts: Option<Vec<String>>,
}

#[verifier::ext_equal]
pub struct MessageView {
    pub id: Seq<char>,
    pub data: Seq<char>,
    pub parts: Option<Seq<Seq<char>>>,
}

impl View for Message {
    type V = MessageView;

    open spec fn view(&self) -> MessageView {
        MessageView {
            id: self.id@,
            data: self.data@,
            parts: match self.parts {
                Some(p) => Some(text::texts(p@)),
                None => None,
            },
        }
    }
}

pub open spec fn messages_view(v: Seq<Message>) -> Seq<MessageView> {
    v.map_values(|m: Message| m@)
}

/// The texts of those parts that have one.
pub open spec fn part_texts(parts: Seq<Seq<char>>) -> Seq<Seq<char>>
    decreases parts.len(),
{
    if parts.len() == 0 {
        Seq::empty()
    } else {
        match part(parts.last()) {
            Some(t) => part_texts(parts.drop_last()).push(t),
            None => part_texts(parts.drop_last()),
        }
    }
}

/// The turn that a message is, if it says anything.
pub open spec fn turn_of(m: MessageView) -> Option<agents::TurnView> {
    match (role(m.data), m.parts) {
        (Some(you), Some(parts)) => {
            let t = text::trimmed(text::joined(part_texts(parts), " "@));
            if quotable(m.id) && t.len() > 0 {
                Some(agents::TurnView { you, text: t })
            } else {
                None
            }
        },
        _ => None,
    }
}

fn turn_in(m: &Message) -> (r: Option<Turn>)
    ensures
        agents::opt_turn(r) == turn_of(m@),
{
    let you = match role_of(&m.data) {
        Some(you) => you,
        None => {
            return None;
        },
    };
    if quote(&m.id).is_none() {
        return None;
    }
    let parts = match &m.parts {
        Some(parts) => parts,
        None => {
            return None;
        },
    };
    let ghost ps = text::texts(parts@);
    let mut said: Vec<String> = Vec::new();
    let mut i: usize = 0;
    assert(text::texts(said@) =~= part_texts(ps.take(0)));
    while i < parts.len()
        invariant
            i <= parts@.len(),
            ps == text::texts(parts@),
            text::texts(said@) == part_texts(ps.take(i as int)),
        decreases parts@.len() - i,
    {
        assert(ps.take(i + 1).drop_last() =~= ps.take(i as int));
        assert(ps.take(i + 1).last() == parts@[i as int]@);
        if let Some(t) = part_text(&parts[i]) {
            proof {
                text::lemma_texts_push(said@, t);
            }
            said.push(t);
        }
        i = i + 1;
    }
    assert(ps.take(ps.len() as int) =~= ps);
    let all = text::join(&said, " ");
    let t = trim(&all);
    if t.as_str().is_empty() {
        None
    } else {
        Some(Turn { you, text: t })
    }
}

/// The turns of the messages from `i` on, behind those already read, until there are
/// enough.
pub open spec fn turns_from(
    ms: Seq<MessageView>,
    i: int,
    want: nat,
    out: Seq<agents::TurnView>,
) -> Seq<agents::TurnView>
    decreases ms.len() - i,
{
    if i >= ms.len() || agents::satisfied(out, want) {
        out
    } else {
        match turn_of(ms[i]) {
            Some(t) => turns_from(ms, i + 1, want, out.push(t)),
            None => turns_from(ms, i + 1, want, out),
        }
    }
}

/// The last `want` turns, oldest first, of the messages, which are newest first.
///
/// Which messages carry text is only knowable from their parts, and a session can
/// end in a long run of tool-only ones, so it is not the messages that are counted.
pub fn turns(messages: &Vec<Message>, want: usize) -> (r: Vec<Turn>)
    ensures
        agents::turns_view(r@) == turns_from(
            messages_view(messages@),
            0,
            want as nat,
            Seq::empty(),
        ).reverse(),
{
    let ghost ms = messages_view(messages@);
    let ghost all = turns_from(ms, 0, want as nat, Seq::empty());
    let mut out: Vec<Turn> = Vec::new();
    let mut i: usize = 0;
    assert(agents::turns_view(out@) =~= Seq::empty());
    while i < messages.len() && !enough(&out, want)
        invariant
            i <= messages@.len(),
            ms == messages_view(messages@),
            turns_from(ms, i as int, want as nat, agents::turns_view(out@)) == all,
        decreases messages@.len() - i,
    {
        assert(ms[i as int] == messages@[i as int]@);
        if let Some(t) = turn_in(&messages[i]) {
            let ghost was = agents::turns_view(out@);
            let ghost tv = t@;
            out.push(t);
            assert(agents::turns_view(out@) =~= was.push(tv));
        }
        i = i + 1;
    }
    assert(agents::turns_view(out@) == all);
    agents::reversed(out)
}

/// `opencode --session <id>`, which its `--help` advertises as "session id to
/// continue".
pub fn resume(key: &str) -> (r: String)
    ensures
        r@ == "command opencode --session "@ + tmux::quoted(key@),
{
    let mut s = "command opencode --session ".to_owned();
    let q = shell_quote(key);
    s.append(&q);
    s
}

/// A row of the sessions' table that has an id is a conversation: under that id, when it
/// was last held in whole seconds, and with its title and its directory.
pub proof fn lemma_a_row_is_a_conversation(rows: Seq<Vec<Cell>>, i: int) -> (k: int)
    requires
        0 <= i < rows.len(),
        rows[i]@.len() >= 4,
        rows[i]@[0].as_text().len() > 0,
        rows[i]@[1].as_int() >= 0,
    ensures
        0 <= k < listed(rows).len(),
        listed(rows)[k].agent == "opencode"@,
        listed(rows)[k].key == rows[i]@[0].as_text(),
        listed(rows)[k].mtime == rows[i]@[1].as_int() as int / 1000,
        listed(rows)[k].meta is Some,
        (listed(rows)[k].meta->0).title == agents::prompt_title(rows[i]@[2].as_text()),
        (listed(rows)[k].meta->0).cwd == text::turned(rows[i]@[3].as_text(), '\t', ' '),
    decreases rows.len(),
{
    let front = rows.drop_last();
    if i == rows.len() - 1 {
        listed(front).len() as int
    } else {
        assert(front[i] == rows[i]);
        lemma_a_row_is_a_conversation(front, i)
    }
}

/// A message is the user's or the agent's by its role, and of no one by any other; what it
/// says is the text of its parts.
pub proof fn lemma_a_message_is_of_its_role(m: MessageView)
    ensures
        match turn_of(m) {
            Some(t) => {
                &&& t.you <==> json::first_value(m.data, "role"@) == Some("user"@)
                &&& !t.you <==> json::first_value(m.data, "role"@) == Some("assistant"@)
                &&& m.parts is Some
                &&& t.text == text::trimmed(text::joined(part_texts(m.parts->0), " "@))
                &&& t.text.len() > 0
            },
            None => true,
        },
{
    reveal_strlit("user");
    reveal_strlit("assistant");
    assert("user"@.len() == 4 && "assistant"@.len() == 9);
}

/// An id goes into a question to the store between quotes, and one that could end them
/// goes into none.
pub proof fn lemma_an_id_is_asked_for_between_quotes(
    before: Seq<char>,
    id: Seq<char>,
    after: Seq<char>,
)
    ensures
        id.contains('\'') || id.contains('\n') || id.len() == 0 ==> asking(before, id, after) is None,
        quotable(id) ==> asking(before, id, after) == Some(before + "'"@ + id + "'"@ + after),
{
    assert(before + ("'"@ + id + "'"@) + after =~= before + "'"@ + id + "'"@ + after);
}

/// What is indexed of a conversation holds the text of every part of it.
pub proof fn lemma_the_prose_holds_every_part(parts: Seq<Seq<char>>, i: int, t: Seq<char>)
    requires
        0 <= i < parts.len(),
        part(parts[i]) == Some(t),
    ensures
        text::has(parts_prose(parts), t + " "@),
    decreases parts.len(),
{
    let front = parts.drop_last();
    let before = parts_prose(front);
    let want = t + " "@;
    if i == parts.len() - 1 {
        assert(parts_prose(parts) =~= before + want + Seq::<char>::empty());
        text::lemma_has_middle(before, want, Seq::empty());
    } else {
        assert(front[i] == parts[i]);
        lemma_the_prose_holds_every_part(front, i, t);
        let k = choose|k: int| text::occurs_at(before, want, k);
        assert(parts_prose(parts).subrange(k, k + want.len()) =~= before.subrange(
            k,
            k + want.len(),
        ));
        assert(text::occurs_at(parts_prose(parts), want, k));
    }
}

} // verus!
