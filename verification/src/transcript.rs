//! Reading the words out of a transcript, without a JSON parser.
//!
//! A transcript is one JSON record a line, and what is wanted of one is a string
//! that stands behind a known key. So the key is looked for, the string is read up
//! to the quote that really ends it, and its escapes are undone far enough to be
//! read by a person.
use vstd::prelude::*;

use crate::text;
use crate::text::{chars_of, contains, find_at, slice, trim};

verus! {

/// Where a string's body ends: at the first quote no backslash stands before.
pub open spec fn body_end(s: Seq<char>, i: int) -> int
    decreases s.len() - i + 1,
{
    if i >= s.len() {
        s.len() as int
    } else if s[i] == '"' {
        i
    } else if s[i] == '\\' {
        body_end(s, i + 2)
    } else {
        body_end(s, i + 1)
    }
}

/// The body of a string whose opening quote has just been passed: up to the quote
/// that ends it, or all there is where none does.
pub open spec fn body(s: Seq<char>) -> Seq<char> {
    s.take(body_end(s, 0))
}

/// What an escape stands for. A line break and a tab read as a space; an escape
/// that is not one of these stays as it is written.
pub open spec fn escape(c: char) -> Seq<char> {
    if c == 'n' || c == 'r' || c == 't' {
        seq![' ']
    } else if c == '"' || c == '\\' || c == '/' {
        seq![c]
    } else {
        seq!['\\', c]
    }
}

pub open spec fn unescaped(s: Seq<char>, i: int) -> Seq<char>
    decreases s.len() - i + 1,
{
    if i < 0 || i >= s.len() {
        Seq::empty()
    } else if s[i] == '\\' && i + 1 < s.len() {
        escape(s[i + 1]) + unescaped(s, i + 2)
    } else {
        seq![s[i]] + unescaped(s, i + 1)
    }
}

/// A string's body as a person would read it.
pub open spec fn cleaned(s: Seq<char>) -> Seq<char> {
    text::trimmed(unescaped(s, 0))
}

/// The body behind the first place a key stands.
pub open spec fn body_after(line: Seq<char>, key: Seq<char>) -> Option<Seq<char>> {
    match text::find(line, key) {
        Some(i) => Some(body(line.skip(i + key.len()))),
        None => None,
    }
}

/// Every body that stands behind the key from a place on, each cleaned and with a
/// space behind it.
pub open spec fn grabbed(line: Seq<char>, key: Seq<char>, from: int) -> Seq<char>
    decreases line.len() - from + 1,
{
    match text::find_from(line, key, from) {
        Some(i) => if from < 0 || key.len() == 0 {
            Seq::empty()
        } else {
            proof {
                text::lemma_find_from(line, key, from);
                lemma_body_end(line.skip(i + key.len()), 0);
            }
            let at = i + key.len();
            let b = body(line.skip(at));
            cleaned(b) + " "@ + grabbed(line, key, at + b.len())
        },
        None => Seq::empty(),
    }
}

/// A text with every marked block taken out, a space in its place. A block that
/// does not end takes the rest with it.
pub open spec fn without_blocks(s: Seq<char>, open: Seq<char>, close: Seq<char>) -> Seq<char>
    decreases s.len(),
{
    match text::find(s, open) {
        None => s,
        Some(a) => match text::find_from(s, close, a) {
            None => s.take(a),
            Some(b) => if close.len() < 2 {
                s
            } else {
                proof {
                    text::lemma_find_from(s, open, 0);
                    text::lemma_find_from(s, close, a);
                    reveal_strlit(" ");
                }
                without_blocks(s.take(a) + " "@ + s.skip(b + close.len()), open, close)
            },
        },
    }
}

pub proof fn lemma_body_end(s: Seq<char>, i: int)
    requires
        0 <= i,
    ensures
        0 <= body_end(s, i) <= s.len(),
        i <= s.len() ==> i <= body_end(s, i),
    decreases s.len() - i + 1,
{
    if i < s.len() && s[i] != '"' {
        if s[i] == '\\' {
            lemma_body_end(s, i + 2);
        } else {
            lemma_body_end(s, i + 1);
        }
    }
}

fn body_at(v: &Vec<char>, from: usize) -> (r: usize)
    requires
        from <= v@.len(),
    ensures
        from <= r <= v@.len(),
        v@.subrange(from as int, r as int) == body(v@.skip(from as int)),
{
    let ghost s = v@.skip(from as int);
    let mut i: usize = from;
    while i < v.len() && v[i] != '"'
        invariant
            from <= i <= v@.len(),
            s == v@.skip(from as int),
            body_end(s, i - from) == body_end(s, 0),
        decreases v@.len() - i,
    {
        assert(s[i - from] == v@[i as int]);
        if v[i] == '\\' && i + 1 < v.len() {
            i = i + 2;
        } else {
            assert(v@[i as int] == '\\' ==> body_end(s, i - from + 2) == s.len());
            i = i + 1;
        }
    }
    assert(i < v@.len() ==> s[i - from] == v@[i as int]);
    assert(v@.subrange(from as int, i as int) =~= s.take(i - from));
    i
}

/// The body of a JSON string whose opening quote has been passed.
///
/// A quote inside it is escaped, so it cannot end it early.
pub fn json_body(s: &str) -> (r: String)
    ensures
        r@ == body(s@),
{
    let v = chars_of(s);
    assert(v@.skip(0) =~= v@);
    let n: usize = body_at(&v, 0);
    slice(&v, 0, n)
}

/// A body as a person would read it: its escapes undone, line breaks and tabs as
/// spaces, and nothing but words at either end.
pub fn clean(s: &str) -> (r: String)
    ensures
        r@ == cleaned(s@),
{
    let v = chars_of(s);
    let mut out = String::new();
    let mut i: usize = 0;
    assert(out@ + unescaped(s@, 0) =~= unescaped(s@, 0));
    while i < v.len()
        invariant
            v@ == s@,
            i <= v@.len(),
            out@ + unescaped(s@, i as int) == unescaped(s@, 0),
        decreases v@.len() - i,
    {
        let ghost was = out@;
        let ghost rest = unescaped(s@, i as int);
        if v[i] == '\\' && i + 1 < v.len() {
            let c = v[i + 1];
            if c == 'n' || c == 'r' || c == 't' {
                out.push(' ');
                assert(out@ =~= was + escape(c));
            } else if c == '"' || c == '\\' || c == '/' {
                out.push(c);
                assert(out@ =~= was + escape(c));
            } else {
                out.push('\\');
                out.push(c);
                assert(out@ =~= was + escape(c));
            }
            assert(was + rest =~= out@ + unescaped(s@, i + 2));
            i = i + 2;
        } else {
            out.push(v[i]);
            assert(was + rest =~= out@ + unescaped(s@, i + 1));
            i = i + 1;
        }
    }
    assert(out@ + unescaped(s@, i as int) =~= out@);
    trim(&out)
}

/// The body behind the first place a key stands, if it stands there.
pub fn after_key(line: &str, key: &str) -> (r: Option<String>)
    ensures
        text::opt_string(r) == body_after(line@, key@),
{
    let v = chars_of(line);
    let k = chars_of(key);
    match find_at(&v, &k, 0) {
        None => None,
        Some(i) => {
            let at: usize = i + k.len();
            let end: usize = body_at(&v, at);
            Some(slice(&v, at, end))
        },
    }
}

/// Everything that stands behind a key, wherever it stands, cleaned and put on the
/// end of `out` with a space behind each.
pub fn grab(line: &str, key: &str, out: &mut String)
    requires
        key@.len() > 0,
    ensures
        final(out)@ == old(out)@ + grabbed(line@, key@, 0),
{
    let v = chars_of(line);
    let k = chars_of(key);
    let mut from: usize = 0;
    let ghost was = out@;
    loop
        invariant
            v@ == line@,
            k@ == key@,
            key@.len() > 0,
            from <= v@.len(),
            out@ + grabbed(line@, key@, from as int) == was + grabbed(line@, key@, 0),
        ensures
            out@ == was + grabbed(line@, key@, 0),
        decreases v@.len() - from,
    {
        proof {
            text::lemma_find_from(v@, k@, from as int);
        }
        match find_at(&v, &k, from) {
            None => {
                assert(out@ + grabbed(line@, key@, from as int) =~= out@);
                break;
            },
            Some(i) => {
                let at: usize = i + k.len();
                let end: usize = body_at(&v, at);
                let raw = slice(&v, at, end);
                let t = clean(&raw);
                let ghost before = out@;
                out.append(&t);
                out.append(" ");
                assert(before + grabbed(line@, key@, from as int) =~= out@ + grabbed(
                    line@,
                    key@,
                    end as int,
                ));
                from = end;
            },
        }
    }
}

/// A text with every block between two markers taken out, a space in its place. A
/// block that is never closed takes the rest with it.
pub fn untag(s: &str, open: &str, close: &str) -> (r: String)
    requires
        close@.len() >= 2,
    ensures
        r@ == without_blocks(s@, open@, close@),
{
    let o = chars_of(open);
    let c = chars_of(close);
    let mut out = s.to_owned();
    loop
        invariant
            o@ == open@,
            c@ == close@,
            close@.len() >= 2,
            without_blocks(out@, open@, close@) == without_blocks(s@, open@, close@),
        decreases out@.len(),
    {
        let v = chars_of(&out);
        let n: usize = v.len();
        proof {
            text::lemma_find_from(out@, open@, 0);
            reveal_strlit(" ");
        }
        match find_at(&v, &o, 0) {
            None => {
                return out;
            },
            Some(a) => {
                proof {
                    text::lemma_find_from(out@, close@, a as int);
                }
                let mut next = slice(&v, 0, a);
                assert(next@ =~= out@.take(a as int));
                match find_at(&v, &c, a) {
                    None => {
                        return next;
                    },
                    Some(b) => {
                        let rest = slice(&v, b + c.len(), n);
                        assert(rest@ =~= out@.skip(b + close@.len()));
                        next.append(" ");
                        next.append(&rest);
                        out = next;
                    },
                }
            },
        }
    }
}

// ---------------------------------------------------------------------------
// A record of the agent that can be put back on its conversation
// ---------------------------------------------------------------------------
/// A record nobody said: what a tool handed back, and what the harness writes into
/// a conversation for the model's sake.
pub open spec fn noise(line: Seq<char>) -> bool {
    ||| text::has(line, "<system-reminder>"@)
    ||| text::has(line, "\"type\":\"tool_result\""@)
    ||| text::has(line, "\"isMeta\":true"@)
}

pub fn is_noise(line: &str) -> (r: bool)
    ensures
        r == noise(line@),
{
    contains(line, "<system-reminder>") || contains(line, "\"type\":\"tool_result\"") || contains(
        line,
        "\"isMeta\":true",
    )
}

/// The first text of a record: that of its first part, or its content where that is
/// a plain string.
pub open spec fn first_said(line: Seq<char>) -> Option<Seq<char>> {
    match body_after(line, "\"text\":\""@) {
        Some(b) => Some(b),
        None => body_after(line, "\"content\":\""@),
    }
}

pub fn first_text(line: &str) -> (r: Option<String>)
    ensures
        text::opt_string(r) == first_said(line@),
{
    match after_key(line, "\"text\":\"") {
        Some(b) => Some(b),
        None => after_key(line, "\"content\":\""),
    }
}

/// Whose record it is, and what was said: yours, the agent's, or neither.
pub open spec fn said(line: Seq<char>) -> Option<(bool, Seq<char>)> {
    if noise(line) {
        None
    } else if text::has(line, "\"type\":\"assistant\""@) {
        spoken(false, first_said(line))
    } else if text::has(line, "\"role\":\"user\""@) {
        spoken(true, first_said(line))
    } else {
        None
    }
}

pub open spec fn spoken(you: bool, b: Option<Seq<char>>) -> Option<(bool, Seq<char>)> {
    match b {
        Some(b) => if cleaned(b).len() > 0 {
            Some((you, cleaned(b)))
        } else {
            None
        },
        None => None,
    }
}

pub open spec fn said_view(r: Option<(bool, String)>) -> Option<(bool, Seq<char>)> {
    match r {
        Some((you, t)) => Some((you, t@)),
        None => None,
    }
}

/// Whose record a line is, and what was said in it.
pub fn said_in(line: &str) -> (r: Option<(bool, String)>)
    ensures
        said_view(r) == said(line@),
{
    if is_noise(line) {
        return None;
    }
    let you = if contains(line, "\"type\":\"assistant\"") {
        false
    } else if contains(line, "\"role\":\"user\"") {
        true
    } else {
        return None;
    };
    match first_text(line) {
        None => None,
        Some(b) => {
            let t = clean(&b);
            if t.as_str().is_empty() {
                None
            } else {
                Some((you, t))
            }
        },
    }
}

/// What both sides said, each with a space behind it.
pub open spec fn all_said(ls: Seq<Seq<char>>) -> Seq<char>
    decreases ls.len(),
{
    if ls.len() == 0 {
        Seq::empty()
    } else {
        match said(ls.last()) {
            Some((_, t)) => all_said(ls.drop_last()) + t + " "@,
            None => all_said(ls.drop_last()),
        }
    }
}

/// The searchable prose of a transcript: both sides, and nothing a tool wrote.
pub fn extract(transcript: &str) -> (r: String)
    ensures
        r@ == all_said(text::lines_of(transcript@)),
{
    let ls = text::lines(transcript);
    let ghost all = text::texts(ls@);
    let mut out = String::new();
    let mut i: usize = 0;
    assert(out@ =~= all_said(all.take(0)));
    while i < ls.len()
        invariant
            i <= ls@.len(),
            all == text::texts(ls@),
            out@ == all_said(all.take(i as int)),
        decreases ls@.len() - i,
    {
        assert(all.take(i + 1).drop_last() =~= all.take(i as int));
        assert(all.take(i + 1).last() == ls@[i as int]@);
        if let Some((_, t)) = said_in(&ls[i]) {
            out.append(&t);
            out.append(" ");
        }
        i = i + 1;
    }
    assert(all.take(all.len() as int) =~= all);
    out
}

// ---------------------------------------------------------------------------
// Laws
// ---------------------------------------------------------------------------
/// A text that has been rid of its blocks opens none any more.
pub proof fn lemma_no_block_is_left(s: Seq<char>, open: Seq<char>, close: Seq<char>)
    requires
        open.len() > 0,
        close.len() >= 2,
    ensures
        !text::has(without_blocks(s, open, close), open),
    decreases s.len(),
{
    text::lemma_find_from(s, open, 0);
    match text::find(s, open) {
        None => {},
        Some(a) => {
            text::lemma_find_from(s, close, a);
            match text::find_from(s, close, a) {
                None => {
                    assert forall|j: int| !text::occurs_at(s.take(a), open, j) by {
                        if text::occurs_at(s.take(a), open, j) {
                            assert(s.take(a).subrange(j, j + open.len()) =~= s.subrange(
                                j,
                                j + open.len(),
                            ));
                            assert(text::occurs_at(s, open, j));
                        }
                    }
                },
                Some(b) => {
                    reveal_strlit(" ");
                    lemma_no_block_is_left(
                        s.take(a) + " "@ + s.skip(b + close.len()),
                        open,
                        close,
                    );
                },
            }
        },
    }
}

/// A body holds no quote that nothing escapes: behind it the string is over.
pub proof fn lemma_a_body_ends_at_its_quote(s: Seq<char>)
    ensures
        body(s).len() < s.len() ==> s[body(s).len() as int] == '"',
{
    lemma_body_end(s, 0);
    lemma_body_stops(s, 0);
}

proof fn lemma_body_stops(s: Seq<char>, i: int)
    requires
        0 <= i,
    ensures
        body_end(s, i) < s.len() ==> s[body_end(s, i)] == '"',
    decreases s.len() - i + 1,
{
    if i < s.len() && s[i] != '"' {
        if s[i] == '\\' {
            lemma_body_stops(s, i + 2);
        } else {
            lemma_body_stops(s, i + 1);
        }
    }
}

/// What holds no escape is said as it stands.
pub proof fn lemma_plain_words_are_kept(s: Seq<char>, i: int)
    requires
        0 <= i <= s.len(),
        text::free_of(s, '\\'),
    ensures
        unescaped(s, i) == s.skip(i),
    decreases s.len() - i,
{
    if i < s.len() {
        lemma_plain_words_are_kept(s, i + 1);
        assert(seq![s[i]] + s.skip(i + 1) =~= s.skip(i));
    } else {
        assert(s.skip(i) =~= Seq::<char>::empty());
    }
}

/// A break or a tab that was escaped is read as a space, an escaped quote, backslash or
/// slash as itself, and any other escape is left as it stands.
pub proof fn lemma_what_an_escape_stands_for(s: Seq<char>, i: int)
    requires
        0 <= i,
        i + 1 < s.len(),
        s[i] == '\\',
    ensures
        s[i + 1] == 'n' || s[i + 1] == 'r' || s[i + 1] == 't' ==> unescaped(s, i) == seq![' ']
            + unescaped(s, i + 2),
        s[i + 1] == '"' || s[i + 1] == '\\' || s[i + 1] == '/' ==> unescaped(s, i) == seq![s[i + 1]]
            + unescaped(s, i + 2),
        s[i + 1] == 'u' ==> unescaped(s, i) == seq!['\\', 'u'] + unescaped(s, i + 2),
{
}

/// A line of the assistant is the agent's, a line of the user is the user's, what either
/// says is the text on it, and a line that only carries a result or a reminder says
/// nothing.
pub proof fn lemma_whose_line_it_is(
    before: Seq<char>,
    words: Seq<char>,
    rest: Seq<char>,
    line: Seq<char>,
)
    requires
        line == before + "\"text\":\""@ + words + "\""@ + rest,
        text::find(line, "\"text\":\""@) == Some(before.len() as int),
        text::free_of(words, '\\'),
        text::free_of(words, '"'),
        text::trimmed(words).len() > 0,
    ensures
        ({
            let silent = text::has(line, "<system-reminder>"@) || text::has(
                line,
                "\"type\":\"tool_result\""@,
            ) || text::has(line, "\"isMeta\":true"@);
            let answer = text::has(line, "\"type\":\"assistant\""@);
            let asked = text::has(line, "\"role\":\"user\""@);
            &&& silent ==> said(line) is None
            &&& !silent && answer ==> said(line) == Some((false, text::trimmed(words)))
            &&& !silent && !answer && asked ==> said(line) == Some((true, text::trimmed(words)))
            &&& !silent && !answer && !asked ==> said(line) is None
        }),
{
    let key = "\"text\":\""@;
    reveal_strlit("\"");
    assert("\""@ =~= seq!['"']);
    let tail = words + seq!['"'] + rest;
    assert(line.skip(before.len() as int + key.len()) =~= tail);
    lemma_an_unescaped_body(words, rest, 0);
    assert(body(tail) =~= words);
    lemma_plain_words_are_kept(words, 0);
    assert(words.skip(0) =~= words);
}

proof fn lemma_an_unescaped_body(words: Seq<char>, rest: Seq<char>, i: int)
    requires
        0 <= i <= words.len(),
        text::free_of(words, '\\'),
        text::free_of(words, '"'),
    ensures
        body_end(words + seq!['"'] + rest, i) == words.len(),
    decreases words.len() - i,
{
    let s = words + seq!['"'] + rest;
    if i < words.len() {
        assert(s[i] == words[i]);
        lemma_an_unescaped_body(words, rest, i + 1);
    } else {
        assert(s[i] == '"');
    }
}

} // verus!
