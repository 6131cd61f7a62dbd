//! Keeping the log files this tool appends to bounded.
use vstd::prelude::*;

use crate::text;
use crate::text::lines;

verus! {

/// What a log becomes once it holds more than `over` lines: its last `keep`.
pub open spec fn kept_log(log: Seq<char>, over: nat, keep: nat) -> Option<Seq<char>> {
    let ls = text::lines_of(log);
    if ls.len() <= over {
        None
    } else {
        Some(text::joined(ls.skip(ls.len() - keep), "\n"@) + "\n"@)
    }
}

/// Keep the log bounded: it is appended to on every save, forever. Nothing where
/// it is short enough to be left alone.
pub fn trim_log(log: &str, over: usize, keep: usize) -> (r: Option<String>)
    requires
        text::lines_of(log@).len() > over ==> keep <= text::lines_of(log@).len(),
    ensures
        text::opt_string(r) == kept_log(log@, over as nat, keep as nat),
{
    let ls = lines(log);
    let n: usize = ls.len();
    assert(text::texts(ls@).len() == n);
    if n <= over {
        return None;
    }
    let mut tail: Vec<String> = Vec::new();
    let mut i: usize = n - keep;
    let ghost from = i as int;
    assert(text::texts(tail@) =~= text::texts(ls@).subrange(from, from));
    while i < n
        invariant
            0 <= from <= i <= n == ls@.len(),
            text::texts(tail@) == text::texts(ls@).subrange(from, i as int),
        decreases n - i,
    {
        let t = ls[i].clone();
        proof {
            text::lemma_texts_push(tail@, t);
            assert(text::texts(ls@).subrange(from, i + 1) =~= text::texts(ls@).subrange(
                from,
                i as int,
            ).push(ls@[i as int]@));
        }
        tail.push(t);
        i = i + 1;
    }
    assert(text::texts(ls@).subrange(from, n as int) =~= text::texts(ls@).skip(from));
    let mut out = text::join(&tail, "\n");
    out.append("\n");
    Some(out)
}

/// A log that has grown past its bound is cut to its last lines, each as it was, and a
/// shorter one is left alone.
pub proof fn lemma_a_log_keeps_its_last_lines(log: Seq<char>, over: nat, keep: nat)
    requires
        keep <= over,
    ensures
        text::lines_of(log).len() <= over ==> kept_log(log, over, keep) is None,
        text::lines_of(log).len() > over ==> kept_log(log, over, keep) == Some(
            text::joined(
                text::lines_of(log).skip(text::lines_of(log).len() - keep),
                "\n"@,
            ) + "\n"@,
        ),
{
}

} // verus!
