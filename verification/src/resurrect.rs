//! Teaching tmux-resurrect which conversation each pane was on.
//!
//! tmux-resurrect saves a pane's command line and restores it verbatim, which for
//! an agent's pane means a NEW session in the right directory: the conversation is
//! lost. This rewrites the save file so each pane comes back on the conversation
//! it was actually having.
//!
//! Every rule here exists because the failure mode is losing a saved layout, and
//! that is not recoverable:
//!
//! - **The join is of one moment.** The save file names a pane by
//!   session/window/pane INDEX, the records name it by pane ID, and only tmux
//!   joins the two, so both are read while the panes are still live.
//! - **Only field 11 is ever touched**, so the line count cannot drop, and a
//!   rewrite that lost lines is refused rather than written.
//! - **A pane with nothing to replay still comes back with its agent**, in the
//!   right directory. An empty pane where a session used to be is silent; a prompt
//!   there says come and look at this one.
use vstd::prelude::*;

use crate::conv;
use crate::hook;
use crate::text;
use crate::text::{dec, join, lines, same, split, starts_with, strip_prefix, words};

verus! {

/// A pane, as the save file names it: session, window index, pane index.
pub type Key = (String, String, String);

pub type KeyView = (Seq<char>, Seq<char>, Seq<char>);

pub open spec fn key_view(k: Key) -> KeyView {
    (k.0@, k.1@, k.2@)
}

// ---------------------------------------------------------------------------
// A command for each pane
// ---------------------------------------------------------------------------
/// What a list of entries says, the later ones over the earlier.
pub open spec fn entries_map(e: Seq<(Key, String)>) -> Map<KeyView, Seq<char>>
    decreases e.len(),
{
    if e.len() == 0 {
        Map::empty()
    } else {
        entries_map(e.drop_last()).insert(key_view(e.last().0), e.last().1@)
    }
}

/// The command each pane is to come back with.
#[derive(Clone, Debug, Default)]
pub struct Commands {
    pub entries: Vec<(Key, String)>,
}

impl View for Commands {
    type V = Map<KeyView, Seq<char>>;

    open spec fn view(&self) -> Map<KeyView, Seq<char>> {
        entries_map(self.entries@)
    }
}

fn same_key(a: &Key, b: &Key) -> (r: bool)
    ensures
        r == (key_view(*a) == key_view(*b)),
{
    same(&a.0, &b.0) && same(&a.1, &b.1) && same(&a.2, &b.2)
}

impl Commands {
    pub fn new() -> (r: Commands)
        ensures
            r@ == Map::<KeyView, Seq<char>>::empty(),
    {
        Commands { entries: Vec::new() }
    }

    pub fn insert(&mut self, key: Key, command: String)
        ensures
            final(self)@ == old(self)@.insert(key_view(key), command@),
    {
        let ghost before = self.entries@;
        self.entries.push((key, command));
        assert(self.entries@.drop_last() =~= before);
    }

    pub fn get(&self, key: &Key) -> (r: Option<String>)
        ensures
            match r {
                Some(c) => self@.dom().contains(key_view(*key)) && self@[key_view(*key)] == c@,
                None => !self@.dom().contains(key_view(*key)),
            },
    {
        let ghost k = key_view(*key);
        let mut i: usize = self.entries.len();
        assert(self.entries@.take(i as int) =~= self.entries@);
        while i > 0
            invariant
                i <= self.entries@.len(),
                k == key_view(*key),
                entries_map(self.entries@.take(i as int)).dom().contains(k)
                    == self@.dom().contains(k),
                self@.dom().contains(k) ==> entries_map(self.entries@.take(i as int))[k]
                    == self@[k],
            decreases i,
        {
            assert(self.entries@.take(i as int).drop_last() =~= self.entries@.take(i - 1));
            if same_key(&self.entries[i - 1].0, key) {
                return Some(self.entries[i - 1].1.clone());
            }
            i = i - 1;
        }
        None
    }

    pub fn is_empty(&self) -> (r: bool)
        ensures
            r == (self.entries@.len() == 0),
    {
        self.entries.len() == 0
    }
}

// ---------------------------------------------------------------------------
// A fresh session, from what was saved
// ---------------------------------------------------------------------------
/// The saved command of a pane, among the lines from `i` on: the field with the
/// marker that opens it, of the first line that is about the pane.
pub open spec fn saved_field(ls: Seq<Seq<char>>, key: KeyView, i: int) -> Option<Seq<char>>
    decreases ls.len() - i,
{
    if i < 0 || i >= ls.len() {
        None
    } else {
        let f = text::fields(ls[i], '\t');
        if "pane\t"@.is_prefix_of(ls[i]) && f.len() >= 11 && (f[1], f[2], f[5]) == key {
            Some(f[10])
        } else {
            saved_field(ls, key, i + 1)
        }
    }
}

/// The words from `i` on that claim no conversation.
pub open spec fn unclaimed(w: Seq<Seq<char>>, i: int) -> Seq<Seq<char>>
    decreases w.len() - i,
{
    if i < 0 || i >= w.len() {
        Seq::empty()
    } else if conv::bare_claim(w[i]) {
        unclaimed(w, i + 1)
    } else if conv::value_claim(w[i]) {
        if conv::value_at(w, i) is Some {
            unclaimed(w, i + 2)
        } else {
            unclaimed(w, i + 1)
        }
    } else {
        seq![w[i]] + unclaimed(w, i + 1)
    }
}

/// Words, each with a space before it.
pub open spec fn spaced(w: Seq<Seq<char>>) -> Seq<char>
    decreases w.len(),
{
    if w.len() == 0 {
        Seq::empty()
    } else {
        spaced(w.drop_last()) + " "@ + w.last()
    }
}

/// What a saved command is started with. The program is one word or two: a save
/// file that has been rewritten once opens with `command`.
pub open spec fn arguments(field: Seq<char>) -> Seq<Seq<char>> {
    let cmd = match text::without_prefix(field, ":"@) {
        Some(c) => c,
        None => field,
    };
    let w = text::words_of(cmd);
    unclaimed(
        w,
        if w.len() > 1 && w[0] == "command"@ {
            2
        } else {
            1
        },
    )
}

/// The command of a pane, stripped back to a fresh session.
pub open spec fn fresh(agent: Seq<char>, key: KeyView, save: Seq<char>) -> Seq<char> {
    match saved_field(text::lines_of(save), key, 0) {
        Some(f) => "command "@ + agent + spaced(arguments(f)),
        None => "command "@ + agent,
    }
}

fn find_saved(key: &Key, save: &str) -> (r: Option<String>)
    ensures
        text::opt_string(r) == saved_field(text::lines_of(save@), key_view(*key), 0),
{
    let ls = lines(save);
    let ghost all = text::texts(ls@);
    let ghost k = key_view(*key);
    let mut i: usize = 0;
    while i < ls.len()
        invariant
            i <= ls@.len(),
            all == text::texts(ls@),
            all == text::lines_of(save@),
            k == key_view(*key),
            saved_field(all, k, i as int) == saved_field(all, k, 0),
        decreases ls@.len() - i,
    {
        assert(all[i as int] == ls@[i as int]@);
        if starts_with(&ls[i], "pane\t") {
            let f = split(&ls[i], '\t');
            let ghost fs = text::texts(f@);
            assert(fs.len() == f@.len());
            if f.len() >= 11 {
                assert(fs[1] == f@[1]@ && fs[2] == f@[2]@ && fs[5] == f@[5]@ && fs[10]
                    == f@[10]@);
                if same(&f[1], &key.0) && same(&f[2], &key.1) && same(&f[5], &key.2) {
                    return Some(f[10].clone());
                }
            }
        }
        i = i + 1;
    }
    None
}

fn is_bare_claim(w: &str) -> (r: bool)
    ensures
        r == conv::bare_claim(w@),
{
    same(w, "-c") || same(w, "--continue") || same(w, "--fork-session")
}

fn is_value_claim(w: &str) -> (r: bool)
    ensures
        r == conv::value_claim(w@),
{
    same(w, "--session-id") || same(w, "-r") || same(w, "--resume")
}

fn drop_claims(w: &Vec<String>, from: usize) -> (r: Vec<String>)
    ensures
        text::texts(r@) == unclaimed(text::texts(w@), from as int),
{
    let ghost all = text::texts(w@);
    let ghost whole = unclaimed(all, from as int);
    let mut out: Vec<String> = Vec::new();
    let n: usize = w.len();
    let mut i: usize = from;
    assert(text::texts(out@) + whole =~= whole);
    while i < n
        invariant
            n == w@.len(),
            all == text::texts(w@),
            whole == text::texts(out@) + unclaimed(all, i as int),
        decreases n - i,
    {
        assert(all[i as int] == w@[i as int]@);
        if is_bare_claim(&w[i]) {
            i = i + 1;
        } else if is_value_claim(&w[i]) {
            assert(i + 1 < n ==> all[i + 1] == w@[i + 1]@);
            if i + 1 < n && !starts_with(&w[i + 1], "-") {
                i = i + 2;
            } else {
                i = i + 1;
            }
        } else {
            let t = w[i].clone();
            let ghost before = text::texts(out@);
            proof {
                text::lemma_texts_push(out@, t);
            }
            out.push(t);
            assert(before + (seq![t@] + unclaimed(all, i + 1)) =~= before.push(t@) + unclaimed(
                all,
                i + 1,
            ));
            i = i + 1;
        }
    }
    assert(text::texts(out@) + Seq::<Seq<char>>::empty() =~= text::texts(out@));
    out
}

/// The command a save file holds for one pane, stripped back to a FRESH session:
/// everything it was launched with except the flags that claim a conversation.
///
/// This is the fallback for a pane that read as the agent's but had no live
/// session process under it, so there is nothing to resume.
pub fn fresh_from_saved(agent: &str, key: &Key, save: &str) -> (r: String)
    ensures
        r@ == fresh(agent@, key_view(*key), save@),
{
    let mut out = "command ".to_owned();
    out.append(agent);
    if let Some(field) = find_saved(key, save) {
        let cmd = match strip_prefix(&field, ":") {
            Some(c) => c,
            None => field,
        };
        let w = words(&cmd);
        let ghost ws = text::texts(w@);
        assert(ws.len() == w@.len());
        assert(w@.len() > 0 ==> ws[0] == w@[0]@);
        let from: usize = if w.len() > 1 && same(&w[0], "command") {
            2
        } else {
            1
        };
        let args = drop_claims(&w, from);
        let ghost all = text::texts(args@);
        let mut tail = String::new();
        let mut i: usize = 0;
        assert(tail@ =~= spaced(all.take(0)));
        while i < args.len()
            invariant
                i <= args@.len(),
                all == text::texts(args@),
                tail@ == spaced(all.take(i as int)),
            decreases args@.len() - i,
        {
            assert(all.take(i + 1).drop_last() =~= all.take(i as int));
            assert(all.take(i + 1).last() == args@[i as int]@);
            tail.append(" ");
            tail.append(&args[i]);
            i = i + 1;
        }
        assert(all.take(all.len() as int) =~= all);
        out.append(&tail);
    }
    out
}

// ---------------------------------------------------------------------------
// The rewrite
// ---------------------------------------------------------------------------
/// A line of the save file with its command replaced, where it is a mapped pane's.
/// Behind the tag the fields are the session, the window and, fifth, the pane; the
/// command is the tenth.
pub open spec fn new_line(map: Map<KeyView, Seq<char>>, line: Seq<char>) -> Seq<char> {
    match text::without_prefix(line, "pane\t"@) {
        Some(rest) => {
            let f = text::fields(rest, '\t');
            if f.len() >= 10 && map.dom().contains((f[0], f[1], f[4])) {
                "pane\t"@ + text::joined(
                    f.update(9, ":"@ + map[(f[0], f[1], f[4])]),
                    "\t"@,
                )
            } else {
                line
            }
        },
        None => line,
    }
}

pub open spec fn new_lines(map: Map<KeyView, Seq<char>>, ls: Seq<Seq<char>>) -> Seq<Seq<char>> {
    ls.map_values(|l: Seq<char>| new_line(map, l))
}

fn line_anew(map: &Commands, line: &str) -> (r: String)
    ensures
        r@ == new_line(map@, line@),
{
    match strip_prefix(line, "pane\t") {
        None => line.to_owned(),
        Some(rest) => {
            let mut f = split(&rest, '\t');
            let ghost fs = text::texts(f@);
            assert(fs.len() == f@.len());
            if f.len() < 10 {
                return line.to_owned();
            }
            assert(fs[0] == f@[0]@ && fs[1] == f@[1]@ && fs[4] == f@[4]@);
            let key = (f[0].clone(), f[1].clone(), f[4].clone());
            match map.get(&key) {
                None => line.to_owned(),
                Some(cmd) => {
                    let mut c = ":".to_owned();
                    c.append(&cmd);
                    let ghost cv = c@;
                    f.set(9, c);
                    assert(text::texts(f@) =~= fs.update(9, cv));
                    let body = join(&f, "\t");
                    let mut out = "pane\t".to_owned();
                    out.append(&body);
                    out
                },
            }
        },
    }
}

/// The save file with each mapped pane's command replaced.
///
/// Field 11 and nothing else.
pub fn rewrite(map: &Commands, save: &str) -> (r: String)
    ensures
        r@ == text::as_lines(new_lines(map@, text::lines_of(save@))),
{
    let ls = lines(save);
    let ghost all = text::texts(ls@);
    let ghost anew = new_lines(map@, all);
    let mut out = String::new();
    let mut i: usize = 0;
    assert(out@ =~= text::as_lines(anew.take(0)));
    while i < ls.len()
        invariant
            i <= ls@.len(),
            all == text::texts(ls@),
            anew == new_lines(map@, all),
            out@ == text::as_lines(anew.take(i as int)),
        decreases ls@.len() - i,
    {
        assert(all[i as int] == ls@[i as int]@);
        assert(anew.take(i + 1).drop_last() =~= anew.take(i as int));
        assert(anew.take(i + 1).last() == new_line(map@, all[i as int]));
        let t = line_anew(map, &ls[i]);
        out.append(&t);
        out.append("\n");
        i = i + 1;
    }
    assert(anew.take(anew.len() as int) =~= anew);
    out
}

/// A rewrite that lost lines is refused: losing the saved layout is not
/// recoverable.
pub fn check_lines(body: &str, original: &str) -> (r: Result<(), String>)
    ensures
        match r {
            Ok(()) => text::lines_of(body@).len() >= text::lines_of(original@).len(),
            Err(e) => text::lines_of(body@).len() < text::lines_of(original@).len() && e@
                == "rewrite dropped lines, kept the original"@,
        },
{
    let a = lines(body);
    let b = lines(original);
    assert(text::texts(a@).len() == a@.len() && text::texts(b@).len() == b@.len());
    if a.len() < b.len() {
        Err("rewrite dropped lines, kept the original".to_owned())
    } else {
        Ok(())
    }
}

// ---------------------------------------------------------------------------
// The decision
// ---------------------------------------------------------------------------
pub struct Outcome {
    pub resumed: usize,
    pub fresh: usize,
    pub lost: usize,
    pub notes: Vec<String>,
    pub map: Commands,
}

#[verifier::ext_equal]
pub struct OutcomeView {
    pub resumed: nat,
    pub fresh: nat,
    pub lost: nat,
    pub notes: Seq<Seq<char>>,
    pub map: Map<KeyView, Seq<char>>,
}

impl View for Outcome {
    type V = OutcomeView;

    open spec fn view(&self) -> OutcomeView {
        OutcomeView {
            resumed: self.resumed as nat,
            fresh: self.fresh as nat,
            lost: self.lost as nat,
            notes: text::texts(self.notes@),
            map: self.map@,
        }
    }
}

impl Outcome {
    pub fn total(&self) -> (r: usize)
        requires
            self.resumed + self.fresh + self.lost <= usize::MAX,
        ensures
            r == self.resumed + self.fresh + self.lost,
    {
        self.resumed + self.fresh + self.lost
    }

    pub fn summary(&self, agent: &str) -> (r: String)
        requires
            self.resumed + self.fresh + self.lost <= usize::MAX,
        ensures
            r@ == text::decimal((self.resumed + self.fresh + self.lost) as nat) + " "@ + agent@
                + " pane(s): "@ + text::decimal(self.resumed as nat) + " resumed, "@
                + text::decimal(self.fresh as nat) + " fresh, "@ + text::decimal(self.lost as nat)
                + " left alone"@,
    {
        let mut t = dec(self.total() as u64);
        t.append(" ");
        t.append(agent);
        t.append(" pane(s): ");
        let a = dec(self.resumed as u64);
        t.append(&a);
        t.append(" resumed, ");
        let b = dec(self.fresh as u64);
        t.append(&b);
        t.append(" fresh, ");
        let c = dec(self.lost as u64);
        t.append(&c);
        t.append(" left alone");
        t
    }
}

/// How tmux names a pane by index, among the first `n` lines: the last that is
/// about it.
pub open spec fn index_of(ls: Seq<Seq<char>>, pane: Seq<char>, n: int) -> Option<KeyView>
    decreases n,
{
    if n <= 0 || n > ls.len() {
        None
    } else {
        let f = text::fields(ls[n - 1], '\t');
        if f.len() >= 4 && f[0] == pane {
            Some((f[1], f[2], f[3]))
        } else {
            index_of(ls, pane, n - 1)
        }
    }
}

/// The outcome once one record has been taken into it.
pub open spec fn with_record(
    agent: Seq<char>,
    panes: Seq<Seq<char>>,
    save: Seq<char>,
    o: OutcomeView,
    line: Seq<char>,
) -> OutcomeView {
    let f = text::fields(line, '\t');
    let tgt = hook::field_or_empty(f, 1);
    let why = hook::field_or_empty(f, 4);
    let cmd = hook::field_or_empty(f, 5);
    if f[0].len() == 0 {
        o
    } else {
        match index_of(panes, f[0], panes.len() as int) {
            None => OutcomeView {
                lost: o.lost + 1,
                notes: o.notes.push(
                    tgt + ": pane "@ + f[0] + " vanished between the two reads"@,
                ),
                ..o
            },
            Some(key) => if cmd.len() == 0 {
                OutcomeView {
                    fresh: o.fresh + 1,
                    notes: o.notes.push(
                        tgt + ": fresh session, "@ + (if why.len() == 0 {
                            "no live session process"@
                        } else {
                            why
                        }) + ", DIG"@,
                    ),
                    map: o.map.insert(key, fresh(agent, key, save)),
                    ..o
                }
            } else if hook::field_or_empty(f, 3) == "resume"@ {
                OutcomeView { resumed: o.resumed + 1, map: o.map.insert(key, cmd), ..o }
            } else {
                OutcomeView {
                    fresh: o.fresh + 1,
                    notes: o.notes.push(tgt + ": fresh session, "@ + why),
                    map: o.map.insert(key, cmd),
                    ..o
                }
            },
        }
    }
}

pub open spec fn no_outcome() -> OutcomeView {
    OutcomeView { resumed: 0, fresh: 0, lost: 0, notes: Seq::empty(), map: Map::empty() }
}

pub open spec fn outcome_of(
    agent: Seq<char>,
    panes: Seq<Seq<char>>,
    save: Seq<char>,
    records: Seq<Seq<char>>,
) -> OutcomeView
    decreases records.len(),
{
    if records.len() == 0 {
        no_outcome()
    } else {
        with_record(
            agent,
            panes,
            save,
            outcome_of(agent, panes, save, records.drop_last()),
            records.last(),
        )
    }
}

fn find_index(ls: &Vec<String>, pane: &str) -> (r: Option<Key>)
    ensures
        match r {
            Some(k) => index_of(text::texts(ls@), pane@, ls@.len() as int) == Some(key_view(k)),
            None => index_of(text::texts(ls@), pane@, ls@.len() as int) is None,
        },
{
    let ghost all = text::texts(ls@);
    let total: usize = ls.len();
    let mut n: usize = total;
    while n > 0
        invariant
            n <= total == ls@.len(),
            all == text::texts(ls@),
            index_of(all, pane@, n as int) == index_of(all, pane@, total as int),
        decreases n,
    {
        assert(all[n - 1] == ls@[n - 1]@);
        let f = split(&ls[n - 1], '\t');
        let ghost fs = text::texts(f@);
        assert(fs.len() == f@.len());
        if f.len() >= 4 {
            assert(fs[0] == f@[0]@ && fs[1] == f@[1]@ && fs[2] == f@[2]@ && fs[3] == f@[3]@);
            if same(&f[0], pane) {
                return Some((f[1].clone(), f[2].clone(), f[3].clone()));
            }
        }
        n = n - 1;
    }
    None
}

fn field_at(f: &Vec<String>, i: usize) -> (r: String)
    ensures
        r@ == hook::field_or_empty(text::texts(f@), i as int),
{
    if i < f.len() {
        assert(text::texts(f@)[i as int] == f@[i as int]@);
        f[i].clone()
    } else {
        let none = String::new();
        assert(none@ =~= Seq::<char>::empty());
        none
    }
}

fn take_record(agent: &str, panes: &Vec<String>, save: &str, o: &mut Outcome, line: &str)
    requires
        old(o).resumed < usize::MAX,
        old(o).fresh < usize::MAX,
        old(o).lost < usize::MAX,
    ensures
        final(o)@ == with_record(agent@, text::texts(panes@), save@, old(o)@, line@),
        final(o).resumed <= old(o).resumed + 1,
        final(o).fresh <= old(o).fresh + 1,
        final(o).lost <= old(o).lost + 1,
{
    let f = split(line, '\t');
    assert(text::texts(f@)[0] == f@[0]@);
    assert(text::texts(panes@).len() == panes@.len());
    let ghost notes = o.notes@;
    if f[0].as_str().is_empty() {
        return;
    }
    let tgt = field_at(&f, 1);
    let status = field_at(&f, 3);
    let why = field_at(&f, 4);
    let cmd = field_at(&f, 5);
    match find_index(panes, &f[0]) {
        None => {
            o.lost = o.lost + 1;
            let mut t = tgt;
            t.append(": pane ");
            t.append(&f[0]);
            t.append(" vanished between the two reads");
            proof {
                text::lemma_texts_push(notes, t);
            }
            o.notes.push(t);
        },
        Some(key) => {
            if cmd.as_str().is_empty() {
                o.fresh = o.fresh + 1;
                let mut t = tgt;
                t.append(": fresh session, ");
                if why.as_str().is_empty() {
                    t.append("no live session process");
                } else {
                    t.append(&why);
                }
                t.append(", DIG");
                proof {
                    text::lemma_texts_push(notes, t);
                }
                o.notes.push(t);
                let c = fresh_from_saved(agent, &key, save);
                o.map.insert(key, c);
            } else if same(&status, "resume") {
                o.resumed = o.resumed + 1;
                o.map.insert(key, cmd);
            } else {
                o.fresh = o.fresh + 1;
                let mut t = tgt;
                t.append(": fresh session, ");
                t.append(&why);
                proof {
                    text::lemma_texts_push(notes, t);
                }
                o.notes.push(t);
                o.map.insert(key, cmd);
            }
        },
    }
}

/// Work out what each pane should come back as.
///
/// `panes` is one line per live pane, with its id, session name, window index and
/// pane index; `records` is one line per pane of the agent, as `conv::print_cmds`
/// makes them. Both are read while the panes are live, which is what makes the join
/// of one moment.
pub fn decide(agent: &str, panes: &str, records: &str, save: &str) -> (r: Outcome)
    ensures
        r@ == outcome_of(agent@, text::lines_of(panes@), save@, text::lines_of(records@)),
{
    let ps = lines(panes);
    let rs = lines(records);
    let ghost all = text::texts(rs@);
    let ghost by_id = text::texts(ps@);
    let mut o = Outcome {
        resumed: 0,
        fresh: 0,
        lost: 0,
        notes: Vec::new(),
        map: Commands::new(),
    };
    let mut i: usize = 0;
    assert(text::texts(o.notes@) =~= Seq::empty());
    assert(o@ =~= outcome_of(agent@, by_id, save@, all.take(0)));
    while i < rs.len()
        invariant
            i <= rs@.len(),
            rs.len() <= usize::MAX,
            all == text::texts(rs@),
            by_id == text::texts(ps@),
            o@ == outcome_of(agent@, by_id, save@, all.take(i as int)),
            o.resumed <= i,
            o.fresh <= i,
            o.lost <= i,
        decreases rs@.len() - i,
    {
        assert(all.take(i + 1).drop_last() =~= all.take(i as int));
        assert(all.take(i + 1).last() == rs@[i as int]@);
        take_record(agent, &ps, save, &mut o, &rs[i]);
        i = i + 1;
    }
    assert(all.take(all.len() as int) =~= all);
    o
}

// ---------------------------------------------------------------------------
// Laws
// ---------------------------------------------------------------------------
/// A rewrite loses no line, so what it makes is never refused.
pub proof fn lemma_a_rewrite_loses_no_line(map: Map<KeyView, Seq<char>>, save: Seq<char>)
    ensures
        text::lines_of(text::as_lines(new_lines(map, text::lines_of(save)))).len()
            >= text::lines_of(save).len(),
{
    text::lemma_as_lines_count(new_lines(map, text::lines_of(save)));
}

/// Only the command of a pane's line changes: the line keeps as many fields as it
/// had, and every other one of them as it was.
pub proof fn lemma_only_the_command_changes(map: Map<KeyView, Seq<char>>, rest: Seq<char>)
    requires
        forall|k: KeyView| map.dom().contains(k) ==> text::free_of(#[trigger] map[k], '\t'),
    ensures
        ({
            let f = text::fields(rest, '\t');
            match text::without_prefix(new_line(map, "pane\t"@ + rest), "pane\t"@) {
                Some(after) => {
                    let g = text::fields(after, '\t');
                    &&& g.len() == f.len()
                    &&& forall|i: int| 0 <= i < f.len() && i != 9 ==> #[trigger] g[i] == f[i]
                    &&& f.len() >= 10 && map.dom().contains((f[0], f[1], f[4])) ==> g[9] == ":"@
                        + map[(f[0], f[1], f[4])]
                },
                None => false,
            }
        }),
{
    let tag = "pane\t"@;
    let line = tag + rest;
    let f = text::fields(rest, '\t');
    text::lemma_some_field(rest, '\t');
    text::lemma_fields_are_free(rest, '\t');
    reveal_strlit("\t");
    reveal_strlit(":");
    assert("\t"@ =~= seq!['\t']);
    assert(tag.is_prefix_of(line));
    assert(line.skip(tag.len() as int) =~= rest);
    if f.len() >= 10 && map.dom().contains((f[0], f[1], f[4])) {
        let cmd = map[(f[0], f[1], f[4])];
        let g = f.update(9, ":"@ + cmd);
        assert forall|j: int| 0 <= j < g.len() implies text::free_of(#[trigger] g[j], '\t') by {
            if j == 9 {
                assert forall|i: int| 0 <= i < g[9].len() implies g[9][i] != '\t' by {
                    if i > 0 {
                        assert(g[9][i] == cmd[i - 1]);
                    }
                }
            } else {
                assert(g[j] == f[j]);
            }
        }
        text::lemma_joined_fields(g, '\t');
        let body = text::joined(g, seq!['\t']);
        let made = tag + body;
        assert(tag.is_prefix_of(made));
        assert(made.skip(tag.len() as int) =~= body);
    }
}

/// A line that is no mapped pane's is left as it was.
pub proof fn lemma_an_unmapped_line_is_untouched(map: Map<KeyView, Seq<char>>, line: Seq<char>)
    requires
        match text::without_prefix(line, "pane\t"@) {
            Some(rest) => {
                let f = text::fields(rest, '\t');
                f.len() < 10 || !map.dom().contains((f[0], f[1], f[4]))
            },
            None => true,
        },
    ensures
        new_line(map, line) == line,
{
}

/// How many records name a pane.
pub open spec fn named(records: Seq<Seq<char>>) -> nat
    decreases records.len(),
{
    if records.len() == 0 {
        0
    } else {
        named(records.drop_last()) + (if text::fields(records.last(), '\t')[0].len() > 0 {
            1nat
        } else {
            0
        })
    }
}

/// Every record that names a pane is counted once: as resumed, as fresh or as left
/// alone.
pub proof fn lemma_every_record_is_counted(
    agent: Seq<char>,
    panes: Seq<Seq<char>>,
    save: Seq<char>,
    records: Seq<Seq<char>>,
)
    ensures
        ({
            let o = outcome_of(agent, panes, save, records);
            o.resumed + o.fresh + o.lost == named(records)
        }),
    decreases records.len(),
{
    if records.len() > 0 {
        lemma_every_record_is_counted(agent, panes, save, records.drop_last());
    }
}

/// A fresh session claims no conversation.
pub proof fn lemma_a_fresh_session_claims_nothing(w: Seq<Seq<char>>, i: int)
    requires
        0 <= i,
    ensures
        forall|k: int|
            0 <= k < unclaimed(w, i).len() ==> !conv::bare_claim(#[trigger] unclaimed(w, i)[k])
                && !conv::value_claim(unclaimed(w, i)[k]),
    decreases w.len() - i,
{
    if i < w.len() {
        lemma_a_fresh_session_claims_nothing(w, i + 1);
        if i + 1 < w.len() {
            lemma_a_fresh_session_claims_nothing(w, i + 2);
        }
        let all = unclaimed(w, i);
        assert forall|k: int| 0 <= k < all.len() implies !conv::bare_claim(#[trigger] all[k])
            && !conv::value_claim(all[k]) by {
            if conv::bare_claim(w[i]) {
                assert(all[k] == unclaimed(w, i + 1)[k]);
            } else if conv::value_claim(w[i]) {
                if conv::value_at(w, i) is Some {
                    assert(all[k] == unclaimed(w, i + 2)[k]);
                } else {
                    assert(all[k] == unclaimed(w, i + 1)[k]);
                }
            } else if k > 0 {
                assert(all[k] == unclaimed(w, i + 1)[k - 1]);
            }
        }
    }
}

/// A pane is known by the last line that names it.
pub proof fn lemma_the_last_line_of_a_pane_counts(ls: Seq<Seq<char>>, pane: Seq<char>, n: int, j: int)
    requires
        0 <= j < n <= ls.len(),
        text::fields(ls[j], '\t').len() >= 4,
        text::fields(ls[j], '\t')[0] == pane,
        forall|k: int|
            j < k < n ==> !(text::fields(#[trigger] ls[k], '\t').len() >= 4 && text::fields(
                ls[k],
                '\t',
            )[0] == pane),
    ensures
        ({
            let f = text::fields(ls[j], '\t');
            index_of(ls, pane, n) == Some((f[1], f[2], f[3]))
        }),
    decreases n,
{
    if j < n - 1 {
        let last = ls[n - 1];
        assert(!(text::fields(last, '\t').len() >= 4 && text::fields(last, '\t')[0] == pane));
        lemma_the_last_line_of_a_pane_counts(ls, pane, n - 1, j);
    }
}

/// A record of a pane that is still there gives the pane its command: as it stands where
/// it has one, whether it resumes or not, and a fresh one where it has none. What resumes
/// is counted apart and needs no note; what does not is counted as fresh and noted. A
/// record of a pane that is gone gives no command to any.
pub proof fn lemma_a_record_gives_its_pane_the_command(
    agent: Seq<char>,
    panes: Seq<Seq<char>>,
    save: Seq<char>,
    o: OutcomeView,
    line: Seq<char>,
)
    requires
        text::fields(line, '\t').len() >= 6,
        text::fields(line, '\t')[0].len() > 0,
    ensures
        ({
            let f = text::fields(line, '\t');
            let next = with_record(agent, panes, save, o, line);
            match index_of(panes, f[0], panes.len() as int) {
                Some(key) => {
                    &&& f[5].len() > 0 ==> next.map == o.map.insert(key, f[5])
                    &&& f[5].len() == 0 ==> next.map == o.map.insert(key, next.map[key]) && (
                    "command "@ + agent).is_prefix_of(next.map[key])
                    &&& next.lost == o.lost
                    &&& f[5].len() > 0 && f[3] == "resume"@ ==> next.resumed == o.resumed + 1
                        && next.fresh == o.fresh && next.notes == o.notes
                    &&& f[5].len() > 0 && f[3] != "resume"@ ==> next.resumed == o.resumed
                        && next.fresh == o.fresh + 1 && next.notes == o.notes.push(
                        f[1] + ": fresh session, "@ + f[4],
                    )
                    &&& f[5].len() == 0 ==> next.resumed == o.resumed && next.fresh == o.fresh + 1
                        && next.notes.len() == o.notes.len() + 1
                },
                None => {
                    &&& next.map == o.map
                    &&& next.lost == o.lost + 1
                    &&& next.resumed == o.resumed
                    &&& next.fresh == o.fresh
                    &&& next.notes == o.notes.push(
                        f[1] + ": pane "@ + f[0] + " vanished between the two reads"@,
                    )
                },
            }
        }),
{
    let f = text::fields(line, '\t');
    match index_of(panes, f[0], panes.len() as int) {
        Some(key) => {
            let c = fresh(agent, key, save);
            let head = "command "@ + agent;
            assert(c.subrange(0, head.len() as int) =~= head);
        },
        None => {},
    }
}

/// Arguments that claim no conversation are all kept, in order.
pub proof fn lemma_other_arguments_are_kept(w: Seq<Seq<char>>, i: int)
    requires
        0 <= i <= w.len(),
        forall|k: int|
            i <= k < w.len() ==> #[trigger] w[k] != "--resume"@ && w[k] != "-r"@ && w[k]
                != "--session-id"@ && w[k] != "-c"@ && w[k] != "--continue"@ && w[k]
                != "--fork-session"@,
    ensures
        unclaimed(w, i) == w.skip(i),
    decreases w.len() - i,
{
    if i < w.len() {
        lemma_other_arguments_are_kept(w, i + 1);
        assert(!conv::bare_claim(w[i]) && !conv::value_claim(w[i]));
        assert(seq![w[i]] + w.skip(i + 1) =~= w.skip(i));
    } else {
        assert(w.skip(i) =~= Seq::<Seq<char>>::empty());
    }
}

} // verus!
