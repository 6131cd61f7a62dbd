//! The pane scan: which processes stand in front of a terminal, read from what
//! `/proc` says of them.
use vstd::prelude::*;

use crate::order;
use crate::text;
use crate::text::{chars_of, dec_int, drop_empty, join, parse_i32, parse_i64, rfind_char_at, slice,
    split, turn, words};

verus! {

/// One process that owns its terminal: it is in the foreground process group of
/// some tty, which is what makes it "the thing in front" of a tmux pane.
#[derive(Debug, Clone, PartialEq)]
pub struct Foreground {
    pub tty: String,
    pub pid: i32,
    pub argv: String,
}

#[verifier::ext_equal]
pub struct ForegroundView {
    pub tty: Seq<char>,
    pub pid: i32,
    pub argv: Seq<char>,
}

impl View for Foreground {
    type V = ForegroundView;

    open spec fn view(&self) -> ForegroundView {
        ForegroundView { tty: self.tty@, pid: self.pid, argv: self.argv@ }
    }
}

pub open spec fn foreground_view(v: Seq<Foreground>) -> Seq<ForegroundView> {
    v.map_values(|p: Foreground| p@)
}

// ---------------------------------------------------------------------------
// The terminal
// ---------------------------------------------------------------------------
/// The major device number in an encoded one: bits 8 to 19.
pub open spec fn major_of(n: i64) -> i64 {
    (n >> 8) & 0xfff
}

/// The minor device number in an encoded one: its low byte is bits 0 to 7 and the
/// rest stands at bit 20 and above.
pub open spec fn minor_of(n: i64) -> i64 {
    (n & 0xff) | ((n >> 12) & 0xfff00)
}

/// A device number as the kernel encodes it.
pub open spec fn encoded(major: i64, minor: i64) -> i64 {
    (minor & 0xff) | (major << 8) | ((minor & !0xff) << 12)
}

pub open spec fn tty_of(n: i64) -> Option<Seq<char>> {
    if n != 0 && major_of(n) == 136 {
        Some("pts/"@ + text::decimal_int(minor_of(n) as int))
    } else {
        None
    }
}

/// `pts/N` for a tty, or None for anything that is not a pseudo-terminal.
///
/// `tty_nr` in `/proc/<pid>/stat` is encoded, not a device number you can print:
/// the minor is SPLIT, its low byte at bits 0-7 and the rest at bits 20+, with the
/// major wedged between them at bits 8-19. Assuming the minor is contiguous gives
/// the wrong tty for any pts above 255. Only major 136 (UNIX98 pts) matters here,
/// since a tmux pane is always a pts, and 0 means the process has no controlling
/// terminal at all.
pub fn tty_name(tty_nr: i64) -> (r: Option<String>)
    ensures
        text::opt_string(r) == tty_of(tty_nr),
{
    if tty_nr == 0 {
        return None;
    }
    let major: i64 = (tty_nr >> 8) & 0xfff;
    let minor: i64 = (tty_nr & 0xff) | ((tty_nr >> 12) & 0xfff00);
    if major == 136 {
        let mut t = "pts/".to_owned();
        let n = dec_int(minor);
        t.append(&n);
        Some(t)
    } else {
        None
    }
}

/// Every pseudo-terminal is named by its own number, those above 255 included.
pub proof fn lemma_a_pts_is_named_by_its_number(minor: i64)
    requires
        0 <= minor < 0x100000,
    ensures
        tty_of(encoded(136, minor)) == Some("pts/"@ + text::decimal_int(minor as int)),
{
    let n = encoded(136, minor);
    assert(n != 0 && ((n >> 8) & 0xfff) == 136 && ((n & 0xff) | ((n >> 12) & 0xfff00)) == minor)
        by (bit_vector)
        requires
            0 <= minor < 0x100000,
            n == (minor & 0xff) | (136i64 << 8) | ((minor & !0xff) << 12),
    ;
}

// ---------------------------------------------------------------------------
// The stat line
// ---------------------------------------------------------------------------
/// The fields of a stat line behind the executable's name, which stands in
/// parentheses and may hold both spaces and parentheses: so they begin behind the
/// LAST one.
pub open spec fn stat_fields(stat: Seq<char>) -> Option<Seq<Seq<char>>> {
    match text::rfind_char(stat, ')', stat.len() as int) {
        Some(i) => Some(text::words_of(stat.skip(i + 1))),
        None => None,
    }
}

fn fields_behind_name(stat: &str) -> (r: Option<Vec<String>>)
    ensures
        match r {
            Some(f) => stat_fields(stat@) == Some(text::texts(f@)),
            None => stat_fields(stat@) is None,
        },
{
    let v = chars_of(stat);
    let n: usize = v.len();
    proof {
        text::lemma_rfind_char(v@, ')', n as int);
    }
    match rfind_char_at(&v, ')', n) {
        Some(i) => {
            let rest = slice(&v, i + 1, n);
            assert(rest@ =~= stat@.skip(i + 1));
            Some(words(&rest))
        },
        None => None,
    }
}

/// Process group, terminal and the terminal's foreground group.
pub open spec fn stat_of(stat: Seq<char>) -> Option<(i64, i64, i64)> {
    match stat_fields(stat) {
        Some(f) => if f.len() >= 6 {
            match (
                text::integer_i64(f[2]),
                text::integer_i64(f[4]),
                text::integer_i64(f[5]),
            ) {
                (Some(pgrp), Some(tty), Some(tpgid)) => Some((pgrp, tty, tpgid)),
                _ => None,
            }
        } else {
            None
        },
        None => None,
    }
}

/// The fields of `/proc/<pid>/stat` this needs: (pgrp, tty_nr, tpgid).
///
/// What follows the name starts at the state, so they sit at offsets 2, 4 and 5.
pub fn parse_stat(stat: &str) -> (r: Option<(i64, i64, i64)>)
    ensures
        r == stat_of(stat@),
{
    match fields_behind_name(stat) {
        Some(f) => {
            let ghost fs = text::texts(f@);
            assert(fs.len() == f@.len());
            if f.len() < 6 {
                return None;
            }
            assert(fs[2] == f@[2]@ && fs[4] == f@[4]@ && fs[5] == f@[5]@);
            match (parse_i64(&f[2]), parse_i64(&f[4]), parse_i64(&f[5])) {
                (Some(pgrp), Some(tty), Some(tpgid)) => Some((pgrp, tty, tpgid)),
                _ => None,
            }
        },
        None => None,
    }
}

// ---------------------------------------------------------------------------
// The arguments
// ---------------------------------------------------------------------------
pub open spec fn argv_line(raw: Seq<char>) -> Option<Seq<char>> {
    let parts = text::nonempty(text::fields(text::turned(raw, '\t', ' '), '\0'));
    if parts.len() == 0 {
        None
    } else {
        Some(text::joined(parts, " "@))
    }
}

/// argv as one space-joined line, tabs flattened so it survives a TSV row. `raw`
/// is the arguments as the kernel keeps them, each ended by a NUL.
pub fn read_argv(raw: &str) -> (r: Option<String>)
    ensures
        text::opt_string(r) == argv_line(raw@),
{
    let flat = turn(raw, '\t', ' ');
    let all = split(&flat, '\0');
    let parts = drop_empty(&all);
    assert(text::texts(parts@).len() == parts@.len());
    if parts.len() == 0 {
        None
    } else {
        Some(join(&parts, " "))
    }
}

// ---------------------------------------------------------------------------
// The scan
// ---------------------------------------------------------------------------
/// A process as `/proc` lists it.
pub struct Scanned {
    pub pid: i32,
    pub stat: String,
    /// Its arguments as the kernel keeps them, each ended by a NUL.
    pub cmdline: String,
}

pub struct ScannedView {
    pub pid: i32,
    pub stat: Seq<char>,
    pub cmdline: Seq<char>,
}

impl View for Scanned {
    type V = ScannedView;

    open spec fn view(&self) -> ScannedView {
        ScannedView { pid: self.pid, stat: self.stat@, cmdline: self.cmdline@ }
    }
}

pub open spec fn scanned_view(v: Seq<Scanned>) -> Seq<ScannedView> {
    v.map_values(|p: Scanned| p@)
}

/// The pseudo-terminal whose foreground group the process is in.
pub open spec fn front_of(stat: Seq<char>) -> Option<Seq<char>> {
    match stat_of(stat) {
        Some((pgrp, tty, tpgid)) => if pgrp == tpgid {
            tty_of(tty)
        } else {
            None
        },
        None => None,
    }
}

/// The pseudo-terminal whose foreground group the process with this stat line is
/// in, if it is in any.
pub fn front_tty(stat: &str) -> (r: Option<String>)
    ensures
        text::opt_string(r) == front_of(stat@),
{
    match parse_stat(stat) {
        Some((pgrp, tty, tpgid)) => {
            if pgrp == tpgid {
                tty_name(tty)
            } else {
                None
            }
        },
        None => None,
    }
}

/// The processes in front of some terminal, in the order they were listed.
pub open spec fn fronts(ps: Seq<ScannedView>) -> Seq<ForegroundView>
    decreases ps.len(),
{
    if ps.len() == 0 {
        Seq::empty()
    } else {
        let rest = fronts(ps.drop_last());
        let p = ps.last();
        match (front_of(p.stat), argv_line(p.cmdline)) {
            (Some(tty), Some(argv)) => rest.push(ForegroundView { tty, pid: p.pid, argv }),
            _ => rest,
        }
    }
}

/// Every process in the foreground group of a pts.
///
/// The whole group is kept rather than just its leader: a resident launcher (npx,
/// npm, uv) can lead the group while the agent runs as its child, so keying off
/// the leader alone would miss the agent entirely.
pub fn foreground_map(processes: &Vec<Scanned>) -> (r: Vec<Foreground>)
    ensures
        foreground_view(r@) == fronts(scanned_view(processes@)),
{
    let ghost all = scanned_view(processes@);
    let mut out: Vec<Foreground> = Vec::new();
    let mut i: usize = 0;
    assert(foreground_view(out@) =~= fronts(all.take(0)));
    while i < processes.len()
        invariant
            i <= processes@.len(),
            all == scanned_view(processes@),
            foreground_view(out@) == fronts(all.take(i as int)),
        decreases processes@.len() - i,
    {
        let p = &processes[i];
        assert(all.take(i + 1).drop_last() =~= all.take(i as int));
        assert(all.take(i + 1).last() == p@);
        if let Some(tty) = front_tty(&p.stat) {
            if let Some(argv) = read_argv(&p.cmdline) {
                let f = Foreground { tty, pid: p.pid, argv };
                let ghost before = foreground_view(out@);
                out.push(f);
                assert(foreground_view(out@) =~= before.push(f@));
            }
        }
        i = i + 1;
    }
    assert(all.take(all.len() as int) =~= all);
    out
}

/// The parent a stat line names.
pub open spec fn parent_in(stat: Seq<char>) -> Option<i32> {
    match stat_fields(stat) {
        Some(f) => if f.len() >= 2 {
            text::integer_i32(f[1])
        } else {
            None
        },
        None => None,
    }
}

/// The processes whose parent it is, in the order they were listed.
pub open spec fn children_in(ps: Seq<ScannedView>, parent: i32) -> Seq<i32>
    decreases ps.len(),
{
    if ps.len() == 0 {
        Seq::empty()
    } else {
        let rest = children_in(ps.drop_last(), parent);
        if parent_in(ps.last().stat) == Some(parent) {
            rest.push(ps.last().pid)
        } else {
            rest
        }
    }
}

fn parent_of(stat: &str) -> (r: Option<i32>)
    ensures
        r == parent_in(stat@),
{
    match fields_behind_name(stat) {
        Some(f) => {
            let ghost fs = text::texts(f@);
            assert(fs.len() == f@.len());
            if f.len() < 2 {
                return None;
            }
            assert(fs[1] == f@[1]@);
            parse_i32(&f[1])
        },
        None => None,
    }
}

/// The direct children of a pid, lowest first. Nothing is a child of a pid that is
/// not positive.
pub fn children_of(parent: i32, processes: &Vec<Scanned>) -> (r: Vec<i32>)
    ensures
        parent <= 0 ==> r@.len() == 0,
        parent > 0 ==> r@ == order::ascending(children_in(scanned_view(processes@), parent)),
{
    let mut out: Vec<i32> = Vec::new();
    if parent <= 0 {
        return out;
    }
    let ghost all = scanned_view(processes@);
    let mut i: usize = 0;
    assert(out@ =~= children_in(all.take(0), parent));
    while i < processes.len()
        invariant
            i <= processes@.len(),
            all == scanned_view(processes@),
            out@ == children_in(all.take(i as int), parent),
        decreases processes@.len() - i,
    {
        let p = &processes[i];
        assert(all.take(i + 1).drop_last() =~= all.take(i as int));
        assert(all.take(i + 1).last() == p@);
        let of = parent_of(&p.stat);
        if let Some(n) = of {
            if n == parent {
                out.push(p.pid);
            }
        }
        i = i + 1;
    }
    assert(all.take(all.len() as int) =~= all);
    order::sort(&out)
}

/// What the kernel says of a process is read behind the last bracket of its name, which
/// may itself hold brackets and spaces: its parent, its group, its terminal and the group
/// in front there.
pub proof fn lemma_a_name_with_brackets_is_passed(head: Seq<char>, rest: Seq<char>)
    requires
        text::free_of(rest, ')'),
        text::words_of(rest).len() >= 6,
    ensures
        ({
            let stat = head + seq![')'] + rest;
            let w = text::words_of(rest);
            &&& parent_in(stat) == text::integer_i32(w[1])
            &&& match (
                text::integer_i64(w[2]),
                text::integer_i64(w[4]),
                text::integer_i64(w[5]),
            ) {
                (Some(group), Some(tty), Some(front)) => stat_of(stat) == Some((group, tty, front)),
                _ => stat_of(stat) is None,
            }
        }),
{
    let stat = head + seq![')'] + rest;
    let n = head.len() as int;
    text::lemma_rfind_char(stat, ')', stat.len() as int);
    let i = text::rfind_char(stat, ')', stat.len() as int)->0;
    assert(stat[n] == ')');
    if i > n {
        assert(stat[i] == rest[i - n - 1]);
    }
    assert(i == n);
    assert(stat.skip(n + 1) =~= rest);
}

/// A process is listed exactly where its group is in front on a terminal of a pane and it
/// has arguments, and then with that terminal and those.
pub proof fn lemma_only_the_front_is_listed(
    ps: Seq<ScannedView>,
    tty: Seq<char>,
    pid: i32,
    argv: Seq<char>,
)
    ensures
        fronts(ps).contains(ForegroundView { tty, pid, argv }) <==> exists|i: int|
            0 <= i < ps.len() && (#[trigger] ps[i]).pid == pid && argv_line(ps[i].cmdline) == Some(
                argv,
            ) && (match stat_of(ps[i].stat) {
                Some((group, term, front)) => group == front && tty_of(term) == Some(tty),
                None => false,
            }),
    decreases ps.len(),
{
    let all = fronts(ps);
    let want = ForegroundView { tty, pid, argv };
    if ps.len() > 0 {
        let before = ps.drop_last();
        let rest = fronts(before);
        lemma_only_the_front_is_listed(before, tty, pid, argv);
        if rest.contains(want) {
            let k = choose|k: int| 0 <= k < rest.len() && rest[k] == want;
            assert(all[k] == want);
            let i = choose|i: int|
                0 <= i < before.len() && (#[trigger] before[i]).pid == pid && argv_line(
                    before[i].cmdline,
                ) == Some(argv) && (match stat_of(before[i].stat) {
                    Some((group, term, front)) => group == front && tty_of(term) == Some(tty),
                    None => false,
                });
            assert(ps[i] == before[i]);
        } else {
            if all.contains(want) {
                let k = choose|k: int| 0 <= k < all.len() && all[k] == want;
                if k < rest.len() {
                    assert(rest[k] == want);
                }
                assert(ps[ps.len() - 1].pid == pid);
            }
            if exists|i: int|
                0 <= i < ps.len() && (#[trigger] ps[i]).pid == pid && argv_line(ps[i].cmdline)
                    == Some(argv) && (match stat_of(ps[i].stat) {
                    Some((group, term, front)) => group == front && tty_of(term) == Some(tty),
                    None => false,
                }) {
                let i = choose|i: int|
                    0 <= i < ps.len() && (#[trigger] ps[i]).pid == pid && argv_line(ps[i].cmdline)
                        == Some(argv) && (match stat_of(ps[i].stat) {
                        Some((group, term, front)) => group == front && tty_of(term) == Some(tty),
                        None => false,
                    });
                if i < before.len() {
                    assert(before[i] == ps[i]);
                } else {
                    assert(all.last() == want);
                }
            }
        }
    }
}

/// The children of a process are those that the kernel says it is the parent of.
pub proof fn lemma_the_children_are_those_of_the_parent(
    ps: Seq<ScannedView>,
    parent: i32,
    pid: i32,
)
    ensures
        children_in(ps, parent).contains(pid) <==> exists|i: int|
            0 <= i < ps.len() && (#[trigger] ps[i]).pid == pid && parent_in(ps[i].stat) == Some(
                parent,
            ),
    decreases ps.len(),
{
    let all = children_in(ps, parent);
    if ps.len() > 0 {
        let before = ps.drop_last();
        let rest = children_in(before, parent);
        lemma_the_children_are_those_of_the_parent(before, parent, pid);
        if rest.contains(pid) {
            let k = choose|k: int| 0 <= k < rest.len() && rest[k] == pid;
            assert(all[k] == pid);
            let i = choose|i: int|
                0 <= i < before.len() && (#[trigger] before[i]).pid == pid && parent_in(
                    before[i].stat,
                ) == Some(parent);
            assert(ps[i] == before[i]);
        } else {
            if all.contains(pid) {
                let k = choose|k: int| 0 <= k < all.len() && all[k] == pid;
                if k < rest.len() {
                    assert(rest[k] == pid);
                }
                assert(ps[ps.len() - 1].pid == pid);
            }
            if exists|i: int|
                0 <= i < ps.len() && (#[trigger] ps[i]).pid == pid && parent_in(ps[i].stat) == Some(
                    parent,
                ) {
                let i = choose|i: int|
                    0 <= i < ps.len() && (#[trigger] ps[i]).pid == pid && parent_in(ps[i].stat)
                        == Some(parent);
                if i < before.len() {
                    assert(before[i] == ps[i]);
                } else {
                    assert(all.last() == pid);
                }
            }
        }
    }
}

} // verus!
