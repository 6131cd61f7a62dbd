//! What a refresh spent its time on, counted where it is spent.
//!
//! A slow refresh leaves no trace of its own, so the three things that fork (a
//! capture, a version probe, an ssh) are counted and timed.
use vstd::prelude::*;

use crate::text;
use crate::text::dec;

verus! {

/// How often something ran, and for how many microseconds in all.
#[derive(Clone, Copy, Debug, Default, PartialEq, Eq)]
pub struct Counter {
    pub count: u64,
    pub micros: u64,
}

/// What one refresh has spent so far.
#[derive(Clone, Copy, Debug, Default, PartialEq, Eq)]
pub struct Spent {
    pub captures: Counter,
    pub probes: Counter,
    pub ssh: Counter,
}

impl Counter {
    pub open spec fn more(self, micros: u64) -> Counter {
        Counter {
            count: ((self.count + 1) % 0x1_0000_0000_0000_0000) as u64,
            micros: ((self.micros + micros) % 0x1_0000_0000_0000_0000) as u64,
        }
    }
}

fn counted(c: Counter, micros: u64) -> (r: Counter)
    ensures
        r == c.more(micros),
{
    Counter { count: c.count.wrapping_add(1), micros: c.micros.wrapping_add(micros) }
}

/// A fresh measurement: a reset clears the clock as well as the counts.
pub fn reset() -> (r: Spent)
    ensures
        r.captures == (Counter { count: 0, micros: 0 }),
        r.probes == (Counter { count: 0, micros: 0 }),
        r.ssh == (Counter { count: 0, micros: 0 }),
{
    Spent {
        captures: Counter { count: 0, micros: 0 },
        probes: Counter { count: 0, micros: 0 },
        ssh: Counter { count: 0, micros: 0 },
    }
}

/// One screen capture, which took so long.
pub fn capture(spent: &mut Spent, micros: u64)
    ensures
        *final(spent) == (Spent { captures: old(spent).captures.more(micros), ..*old(spent) }),
{
    spent.captures = counted(spent.captures, micros);
}

/// One version probe, which took so long.
pub fn probe(spent: &mut Spent, micros: u64)
    ensures
        *final(spent) == (Spent { probes: old(spent).probes.more(micros), ..*old(spent) }),
{
    spent.probes = counted(spent.probes, micros);
}

/// One ssh call, which took so long.
pub fn ssh(spent: &mut Spent, micros: u64)
    ensures
        *final(spent) == (Spent { ssh: old(spent).ssh.more(micros), ..*old(spent) }),
{
    spent.ssh = counted(spent.ssh, micros);
}

/// One part of a report: how often, of what, in how many seconds. A part that
/// never ran says nothing.
pub open spec fn part(count: u64, label: Seq<char>, secs: Seq<char>) -> Seq<char> {
    if count == 0 {
        Seq::empty()
    } else {
        text::decimal(count as nat) + " "@ + label + " in "@ + secs + "s"@
    }
}

fn one_part(count: u64, label: &str, secs: &str) -> (r: String)
    ensures
        r@ == part(count, label@, secs@),
{
    if count == 0 {
        return String::new();
    }
    let mut t = dec(count);
    t.append(" ");
    t.append(label);
    t.append(" in ");
    t.append(secs);
    t.append("s");
    t
}

/// What has been counted, as one line, quietest parts omitted: a report is read
/// when something took too long, so a zero says nothing. The seconds arrive
/// written out.
pub fn report(spent: &Spent, capture_secs: &str, probe_secs: &str, ssh_secs: &str) -> (r: String)
    ensures
        r@ == text::joined(
            text::nonempty(
                seq![
                    part(spent.captures.count, "captures"@, capture_secs@),
                    part(spent.probes.count, "version probes"@, probe_secs@),
                    part(spent.ssh.count, "ssh calls"@, ssh_secs@),
                ],
            ),
            ", "@,
        ),
{
    let mut parts: Vec<String> = Vec::new();
    parts.push(one_part(spent.captures.count, "captures", capture_secs));
    parts.push(one_part(spent.probes.count, "version probes", probe_secs));
    parts.push(one_part(spent.ssh.count, "ssh calls", ssh_secs));
    assert(text::texts(parts@) =~= seq![
        part(spent.captures.count, "captures"@, capture_secs@),
        part(spent.probes.count, "version probes"@, probe_secs@),
        part(spent.ssh.count, "ssh calls"@, ssh_secs@),
    ]);
    let kept = text::drop_empty(&parts);
    text::join(&kept, ", ")
}

} // verus!
