//! What another tool's SQLite store answers with.
//!
//! Two agents keep their conversations in a database rather than in files. The
//! store itself is opened by the program, read-only and through a symlink, so
//! that nothing lands beside the original; this is what comes back.
use vstd::prelude::*;

use crate::text;
use crate::text::{alnum, chars_of, dec_int, parse_i64};

verus! {

/// One column of one row, in the three shapes these stores actually use.
#[derive(Debug, Clone, PartialEq)]
pub enum Cell {
    Text(String),
    Int(i64),
    Null,
}

impl Cell {
    pub open spec fn as_text(self) -> Seq<char> {
        match self {
            Cell::Text(s) => s@,
            Cell::Int(i) => text::decimal_int(i as int),
            Cell::Null => Seq::empty(),
        }
    }

    pub open spec fn as_int(self) -> i64 {
        match self {
            Cell::Text(s) => match text::integer_i64(s@) {
                Some(n) => n,
                None => 0,
            },
            Cell::Int(i) => i,
            Cell::Null => 0,
        }
    }

    /// The value as text. A number reads as its digits, so a caller that only
    /// wants a string never has to know which of the two it got.
    pub fn text(&self) -> (r: String)
        ensures
            r@ == self.as_text(),
    {
        match self {
            Cell::Text(s) => s.clone(),
            Cell::Int(i) => dec_int(*i),
            Cell::Null => String::new(),
        }
    }

    /// The value as a number, or 0. Text that looks like a number parses, since
    /// these stores are not always consistent about which they used.
    pub fn integer(&self) -> (r: i64)
        ensures
            r == self.as_int(),
    {
        match self {
            Cell::Text(s) => match parse_i64(s) {
                Some(n) => n,
                None => 0,
            },
            Cell::Int(i) => *i,
            Cell::Null => 0,
        }
    }
}

/// Whether this build can read a SQLite store at all.
pub fn available() -> (r: bool)
    ensures
        r,
{
    true
}

/// A path with everything awkward in it flattened to an underscore.
pub open spec fn flattened(path: Seq<char>) -> Seq<char> {
    path.map_values(
        |c: char|
            if text::is_alnum(c) {
                c
            } else {
                '_'
            },
    )
}

/// The name of the link a store is reached through: one store, one link.
pub fn link_name(path: &str) -> (r: String)
    ensures
        r@ == flattened(path@),
{
    let v = chars_of(path);
    let mut out = String::new();
    let mut i: usize = 0;
    assert(out@ =~= flattened(path@).take(0));
    while i < v.len()
        invariant
            i <= v@.len(),
            v@ == path@,
            out@ == flattened(path@).take(i as int),
        decreases v@.len() - i,
    {
        let c = if alnum(v[i]) {
            v[i]
        } else {
            '_'
        };
        out.push(c);
        assert(flattened(path@).take(i + 1) =~= flattened(path@).take(i as int).push(c));
        i = i + 1;
    }
    assert(flattened(path@).take(path@.len() as int) =~= flattened(path@));
    out
}

/// A flattened path is as long as the path, keeps its letters and digits where they were,
/// and holds nothing else but underscores.
pub proof fn lemma_a_flattened_path_keeps_its_letters(path: Seq<char>, i: int)
    requires
        0 <= i < path.len(),
    ensures
        flattened(path).len() == path.len(),
        text::is_alnum(path[i]) ==> flattened(path)[i] == path[i],
        !text::is_alnum(path[i]) ==> flattened(path)[i] == '_',
{
}

} // verus!
