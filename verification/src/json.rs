//! Pulling one string field out of a JSON line, without a JSON parser.
//!
//! Everything read this way is one line of a transcript or one hook payload, and
//! the wanted fields are flat strings.
//!
//! **The two behaviours below are deliberately two.** They differ, and the
//! difference is load-bearing on real data.
use vstd::prelude::*;

use crate::text;
use crate::text::{chars_of, find_at, find_char_at, skip_space, slice};

verus! {

/// The key as it stands in the text: in its quotes.
pub open spec fn quoted(key: Seq<char>) -> Seq<char> {
    "\""@ + key + "\""@
}

/// What follows a colon, with the space on either side of it gone.
pub open spec fn after_colon(rest: Seq<char>) -> Option<Seq<char>> {
    let a = text::trimmed_start(rest);
    if a.len() > 0 && a[0] == ':' {
        Some(text::trimmed_start(a.skip(1)))
    } else {
        None
    }
}

/// The string value that follows a key: a colon, a quote, and everything up to
/// the next quote.
pub open spec fn string_value(rest: Seq<char>) -> Option<Seq<char>> {
    match after_colon(rest) {
        Some(b) => if b.len() > 0 && b[0] == '"' {
            match text::find_char(b.skip(1), '"', 0) {
                Some(end) => Some(b.skip(1).take(end)),
                None => None,
            }
        } else {
            None
        },
        None => None,
    }
}

/// Whether the array that follows a key holds anything: a colon, a bracket, and
/// something other than the closing one.
pub open spec fn array_value(rest: Seq<char>) -> Option<bool> {
    match after_colon(rest) {
        Some(b) => if b.len() > 0 && b[0] == '[' {
            let c = text::trimmed_start(b.skip(1));
            Some(!(c.len() > 0 && c[0] == ']'))
        } else {
            None
        },
        None => None,
    }
}

/// The value at the FIRST place the key stands, if that is a string value.
pub open spec fn first_value(s: Seq<char>, key: Seq<char>) -> Option<Seq<char>> {
    match text::find(s, quoted(key)) {
        Some(i) => string_value(s.skip(i + quoted(key).len())),
        None => None,
    }
}

/// The string value at the first place, at or after `from`, where the key has
/// one.
pub open spec fn scan_from(s: Seq<char>, needle: Seq<char>, from: int) -> Option<Seq<char>>
    decreases s.len() - from + 1,
{
    match text::find_from(s, needle, from) {
        Some(i) => if from < 0 || needle.len() == 0 {
            None
        } else {
            proof {
                text::lemma_find_from(s, needle, from);
            }
            match string_value(s.skip(i + needle.len())) {
                Some(v) => Some(v),
                None => scan_from(s, needle, i + needle.len()),
            }
        },
        None => None,
    }
}

/// Whether the array at the first place, at or after `from`, where the key has
/// one holds anything.
pub open spec fn array_from(s: Seq<char>, needle: Seq<char>, from: int) -> Option<bool>
    decreases s.len() - from + 1,
{
    match text::find_from(s, needle, from) {
        Some(i) => if from < 0 || needle.len() == 0 {
            None
        } else {
            proof {
                text::lemma_find_from(s, needle, from);
            }
            match array_value(s.skip(i + needle.len())) {
                Some(v) => Some(v),
                None => array_from(s, needle, i + needle.len()),
            }
        },
        None => None,
    }
}

/// A text, or the empty one where there is none.
pub open spec fn or_empty(o: Option<Seq<char>>) -> Seq<char> {
    match o {
        Some(s) => s,
        None => Seq::empty(),
    }
}

fn quote(key: &str) -> (r: Vec<char>)
    ensures
        r@ == quoted(key@),
        r@.len() > 0,
{
    let mut t = "\"".to_owned();
    t.append(key);
    t.append("\"");
    proof {
        reveal_strlit("\"");
    }
    chars_of(&t)
}

fn colon_at(v: &Vec<char>, from: usize) -> (r: Option<usize>)
    requires
        from <= v@.len(),
    ensures
        match r {
            Some(i) => i <= v@.len() && after_colon(v@.skip(from as int)) == Some(v@.skip(i as int)),
            None => after_colon(v@.skip(from as int)) is None,
        },
{
    let a: usize = skip_space(v, from);
    if a < v.len() && v[a] == ':' {
        assert(v@.skip(a as int)[0] == v@[a as int]);
        assert(v@.skip(a as int).skip(1) =~= v@.skip(a + 1));
        Some(skip_space(v, a + 1))
    } else {
        assert(a < v@.len() ==> v@.skip(a as int)[0] == v@[a as int]);
        None
    }
}

fn string_at(v: &Vec<char>, from: usize) -> (r: Option<String>)
    requires
        from <= v@.len(),
    ensures
        text::opt_string(r) == string_value(v@.skip(from as int)),
{
    match colon_at(v, from) {
        None => None,
        Some(b) => {
            if b < v.len() && v[b] == '"' {
                assert(v@.skip(b as int)[0] == v@[b as int]);
                assert(v@.skip(b as int).skip(1) =~= v@.skip(b + 1));
                proof {
                    text::lemma_find_char_skip(v@, '"', b + 1, 0);
                }
                match find_char_at(v, '"', b + 1) {
                    Some(e) => {
                        assert(v@.skip(b + 1).take(e - (b + 1)) =~= v@.subrange(b + 1, e as int));
                        Some(slice(v, b + 1, e))
                    },
                    None => None,
                }
            } else {
                assert(b < v@.len() ==> v@.skip(b as int)[0] == v@[b as int]);
                None
            }
        },
    }
}

fn array_at(v: &Vec<char>, from: usize) -> (r: Option<bool>)
    requires
        from <= v@.len(),
    ensures
        r == array_value(v@.skip(from as int)),
{
    match colon_at(v, from) {
        None => None,
        Some(b) => {
            if b < v.len() && v[b] == '[' {
                assert(v@.skip(b as int)[0] == v@[b as int]);
                assert(v@.skip(b as int).skip(1) =~= v@.skip(b + 1));
                let c: usize = skip_space(v, b + 1);
                assert(c < v@.len() ==> v@.skip(c as int)[0] == v@[c as int]);
                Some(!(c < v.len() && v[c] == ']'))
            } else {
                assert(b < v@.len() ==> v@.skip(b as int)[0] == v@[b as int]);
                None
            }
        },
    }
}

/// The first `"key": "value"` in the text, or None.
///
/// Gives up as soon as the first occurrence of the key is not followed by a
/// string value. That is the right call for the shapes it reads, where the key
/// appears once and a miss means the field is genuinely not there.
pub fn first(line: &str, key: &str) -> (r: Option<String>)
    ensures
        text::opt_string(r) == first_value(line@, key@),
{
    let v = chars_of(line);
    let needle = quote(key);
    match find_at(&v, &needle, 0) {
        Some(i) => string_at(&v, i + needle.len()),
        None => None,
    }
}

/// The first `"key": "value"` in the text, **still looking** past a match that
/// is not one.
///
/// The difference from `first` matters on hook payloads, where the key can
/// legitimately appear earlier inside somebody else's string value.
pub fn scan(line: &str, key: &str) -> (r: Option<String>)
    ensures
        text::opt_string(r) == scan_from(line@, quoted(key@), 0),
{
    let v = chars_of(line);
    let needle = quote(key);
    let mut from: usize = 0;
    loop
        invariant
            v@ == line@,
            needle@ == quoted(key@),
            needle@.len() > 0,
            from <= v@.len(),
            scan_from(line@, quoted(key@), from as int) == scan_from(line@, quoted(key@), 0),
        decreases v@.len() - from,
    {
        proof {
            text::lemma_find_from(v@, needle@, from as int);
        }
        match find_at(&v, &needle, from) {
            None => {
                return None;
            },
            Some(i) => {
                let after: usize = i + needle.len();
                let value = string_at(&v, after);
                if value.is_some() {
                    return value;
                }
                from = after;
            },
        }
    }
}

/// Whether `"key": [ ... ]` holds anything, looking past decoys the way `scan`
/// does. `None` when the key is not there as an array at all.
///
/// All a hook needs to know about `Stop`'s `background_tasks`: an empty list
/// means the session is done, anything in it means work is still in flight that
/// will wake the session again. What the entries say is not read.
pub fn array_has_items(line: &str, key: &str) -> (r: Option<bool>)
    ensures
        r == array_from(line@, quoted(key@), 0),
{
    let v = chars_of(line);
    let needle = quote(key);
    let mut from: usize = 0;
    loop
        invariant
            v@ == line@,
            needle@ == quoted(key@),
            needle@.len() > 0,
            from <= v@.len(),
            array_from(line@, quoted(key@), from as int) == array_from(line@, quoted(key@), 0),
        decreases v@.len() - from,
    {
        proof {
            text::lemma_find_from(v@, needle@, from as int);
        }
        match find_at(&v, &needle, from) {
            None => {
                return None;
            },
            Some(i) => {
                let after: usize = i + needle.len();
                let value = array_at(&v, after);
                if value.is_some() {
                    return value;
                }
                from = after;
            },
        }
    }
}

/// `first`, with an absent field as the empty string: an absent field and an
/// empty one mean the same thing to every transcript reader.
pub fn field(line: &str, key: &str) -> (r: String)
    ensures
        r@ == or_empty(first_value(line@, key@)),
{
    match first(line, key) {
        Some(s) => s,
        None => {
            let none = String::new();
            assert(none@ =~= Seq::<char>::empty());
            none
        },
    }
}

/// Where `first` has an answer, `scan` has the same one. Only where `first` gives
/// up can the two differ.
pub proof fn lemma_scan_keeps_what_first_finds(line: Seq<char>, key: Seq<char>)
    ensures
        first_value(line, key) is Some ==> scan_from(line, quoted(key), 0) == first_value(
            line,
            key,
        ),
{
    reveal_strlit("\"");
}

/// The value of a key is what stands between the quotes behind its colon, with or without
/// spaces about it, where the key first stands.
pub proof fn lemma_a_value_stands_behind_its_key(
    before: Seq<char>,
    key: Seq<char>,
    value: Seq<char>,
    rest: Seq<char>,
)
    requires
        text::free_of(value, '"'),
        !text::has(before + quoted(key).drop_last(), quoted(key)),
    ensures
        first_value(before + quoted(key) + ":\""@ + value + "\""@ + rest, key) == Some(value),
        first_value(before + quoted(key) + ": \""@ + value + "\""@ + rest, key) == Some(value),
{
    let q = quoted(key);
    reveal_strlit("\"");
    reveal_strlit(":\"");
    reveal_strlit(": \"");
    let tail = value + seq!['"'] + rest;
    let one = seq![':', '"'] + tail;
    let two = seq![':', ' ', '"'] + tail;
    assert(":\""@ =~= seq![':', '"']);
    assert(": \""@ =~= seq![':', ' ', '"']);
    assert("\""@ =~= seq!['"']);
    assert(before + q + ":\""@ + value + "\""@ + rest =~= before + q + one);
    assert(before + q + ": \""@ + value + "\""@ + rest =~= before + q + two);
    lemma_the_first_key(before, q, one);
    lemma_the_first_key(before, q, two);
    assert(one[0] == ':' && two[0] == ':');
    assert(text::trimmed_start(one) == one);
    assert(text::trimmed_start(two) == two);
    let quote = seq!['"'] + tail;
    assert(one.skip(1) =~= quote);
    assert(two.skip(1) =~= seq![' '] + quote);
    assert(quote[0] == '"');
    assert(text::trimmed_start(quote) == quote);
    assert((seq![' '] + quote)[0] == ' ');
    assert((seq![' '] + quote).skip(1) =~= quote);
    assert(text::trimmed_start(seq![' '] + quote) == quote);
    assert(quote.skip(1) =~= tail);
    let n = value.len() as int;
    text::lemma_find_char(tail, '"', 0);
    let end = text::find_char(tail, '"', 0)->0;
    assert(tail[n] == '"');
    if end < n {
        assert(tail[end] == value[end]);
    }
    assert(tail.take(n) =~= value);
}

proof fn lemma_the_first_key(before: Seq<char>, q: Seq<char>, rest: Seq<char>)
    requires
        q.len() > 0,
        !text::has(before + q.drop_last(), q),
    ensures
        text::find(before + q + rest, q) == Some(before.len() as int),
        (before + q + rest).skip(before.len() as int + q.len()) == rest,
{
    let s = before + q + rest;
    let n = before.len() as int;
    assert(s.subrange(n, n + q.len()) =~= q);
    assert(text::occurs_at(s, q, n));
    text::lemma_find_from(s, q, 0);
    let at = text::find_from(s, q, 0)->0;
    if at < n {
        let short = before + q.drop_last();
        assert(short.subrange(at, at + q.len()) =~= s.subrange(at, at + q.len()));
        assert(text::occurs_at(short, q, at));
    }
    assert(s.skip(n + q.len()) =~= rest);
}

/// Whether a list behind a key holds anything is told by what stands behind its bracket.
pub proof fn lemma_a_list_is_empty_or_not(rest: Seq<char>)
    requires
        rest.len() > 0,
        rest[0] != ']',
        !text::is_space(rest[0]),
    ensures
        array_value(":["@ + rest) == Some(true),
        array_value(":[]"@) == Some(false),
        array_value(": []"@) == Some(false),
{
    reveal_strlit(":[");
    reveal_strlit(":[]");
    reveal_strlit(": []");
    let a = ":["@ + rest;
    assert(a[0] == ':');
    assert(text::trimmed_start(a) == a);
    let b = seq!['['] + rest;
    assert(a.skip(1) =~= b);
    assert(b[0] == '[');
    assert(text::trimmed_start(b) == b);
    assert(b.skip(1) =~= rest);
    assert(text::trimmed_start(rest) == rest);
    let c = ":[]"@;
    let d = seq!['[', ']'];
    assert(text::trimmed_start(c) == c);
    assert(c.skip(1) =~= d);
    assert(text::trimmed_start(d) == d);
    assert(d.skip(1) =~= seq![']']);
    assert(text::trimmed_start(seq![']']) == seq![']']);
    let e = ": []"@;
    let f = seq![' ', '[', ']'];
    assert(text::trimmed_start(e) == e);
    assert(e.skip(1) =~= f);
    assert(f.skip(1) =~= d);
    assert(text::trimmed_start(f) == d);
}

} // verus!
