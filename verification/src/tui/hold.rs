//! The rows of panes whose restart is in flight.
//!
//! A restart is detached and takes seconds: it asks the session to exit, waits, and
//! starts a new one. For that whole window the pane has no agent in its foreground
//! group, so the scan does not see it and its row would VANISH from under the
//! cursor. So the row is held: put back where it was, with the marker column saying
//! what is happening, until the session comes back or the hold runs out.
use vstd::prelude::*;

use crate::order;
use crate::text;
use crate::text::{listed, lines, same, split};

verus! {

/// How long a restarting row is held, in milliseconds.
///
/// A restart waits up to 12 seconds for a session to exit and then polls up to 20
/// for it to come back, so anything shorter drops the row exactly when its owner is
/// watching. The hold is a backstop: a row stops being held the moment the pane is
/// scanned again.
pub const RESTART_HOLD: u64 = 40_000;

/// A pane with a restart in flight: when it was fired, the row the pane had at the
/// time, and where that row stood in the list.
#[derive(Debug, PartialEq, Eq)]
pub struct Held {
    pub id: String,
    pub at: u64,
    pub line: String,
    pub place: usize,
    /// Whether the pane has been observed GONE yet, which is what makes "it is in
    /// the scan again" mean the session came back rather than the restart not having
    /// happened yet.
    pub gone: bool,
}

#[verifier::ext_equal]
pub struct HeldView {
    pub id: Seq<char>,
    pub at: int,
    pub line: Seq<char>,
    pub place: int,
    pub gone: bool,
}

impl View for Held {
    type V = HeldView;

    open spec fn view(&self) -> HeldView {
        HeldView {
            id: self.id@,
            at: self.at as int,
            line: self.line@,
            place: self.place as int,
            gone: self.gone,
        }
    }
}

pub open spec fn held_view(v: Seq<Held>) -> Seq<HeldView> {
    v.map_values(|h: Held| h@)
}

/// The pane a line of the scan is about.
pub open spec fn pane_of(line: Seq<char>) -> Seq<char> {
    text::fields(line, '\t')[0]
}

/// The panes that are in the scan.
pub open spec fn panes_in(ls: Seq<Seq<char>>) -> Seq<Seq<char>> {
    ls.map_values(|l: Seq<char>| pane_of(l))
}

/// Where the first row of a pane stands, from a place on.
pub open spec fn row_at(ls: Seq<Seq<char>>, id: Seq<char>, i: int) -> Option<int>
    decreases ls.len() - i,
{
    if i >= ls.len() {
        None
    } else if pane_of(ls[i]) == id {
        Some(i)
    } else {
        row_at(ls, id, i + 1)
    }
}

/// All that are held but for one pane.
pub open spec fn without(hs: Seq<HeldView>, id: Seq<char>) -> Seq<HeldView>
    decreases hs.len(),
{
    if hs.len() == 0 {
        Seq::empty()
    } else if hs.last().id == id {
        without(hs.drop_last(), id)
    } else {
        without(hs.drop_last(), id).push(hs.last())
    }
}

/// What is held once a pane's row is too, if it has one.
pub open spec fn holding(hs: Seq<HeldView>, tsv: Seq<char>, id: Seq<char>, now: int) -> Seq<
    HeldView,
> {
    let ls = text::lines_of(tsv);
    match row_at(ls, id, 0) {
        Some(i) => without(hs, id).push(
            HeldView { id, at: now, line: ls[i], place: i, gone: false },
        ),
        None => hs,
    }
}

fn pane_on(line: &str) -> (r: String)
    ensures
        r@ == pane_of(line@),
{
    let f = split(line, '\t');
    proof {
        text::lemma_some_field(line@, '\t');
    }
    assert(text::texts(f@)[0] == f@[0]@);
    f[0].clone()
}

fn drop_held(held: &mut Vec<Held>, id: &str)
    ensures
        held_view(final(held)@) == without(held_view(old(held)@), id@),
{
    let ghost all = held_view(held@);
    let mut i: usize = 0;
    let ghost mut k: int = 0;
    assert(held_view(held@) =~= without(all.take(0), id@) + all.skip(0));
    while i < held.len()
        invariant
            0 <= k <= all.len(),
            i <= held@.len(),
            held@.len() - i == all.len() - k,
            i == without(all.take(k), id@).len(),
            held_view(held@) == without(all.take(k), id@) + all.skip(k),
        decreases held@.len() - i,
    {
        assert(all.take(k + 1).drop_last() =~= all.take(k));
        assert(all.take(k + 1).last() == all[k]);
        assert(held_view(held@)[i as int] == held@[i as int]@);
        assert(all.skip(k)[0] == all[k]);
        assert(all[k] == held@[i as int]@);
        let ghost before = held_view(held@);
        let ghost done = without(all.take(k), id@);
        if same(&held[i].id, id) {
            held.remove(i);
            assert(held_view(held@) =~= before.remove(i as int));
            assert(before.remove(i as int) =~= done + all.skip(k + 1));
        } else {
            i = i + 1;
            assert(before =~= done.push(all[k]) + all.skip(k + 1));
        }
        proof {
            k = k + 1;
        }
    }
    assert(all.take(k) =~= all);
    assert(held_view(held@) =~= without(all, id@));
}

/// Start holding a pane's row, before the restart takes its session away: afterwards
/// the row to remember may already be gone.
pub fn hold(held: &mut Vec<Held>, tsv: &str, id: &str, now: u64)
    ensures
        held_view(final(held)@) == holding(held_view(old(held)@), tsv@, id@, now as int),
{
    let ls = lines(tsv);
    let ghost all = text::texts(ls@);
    let mut i: usize = 0;
    assert(all.len() == ls@.len());
    while i < ls.len()
        invariant
            i <= ls@.len(),
            all == text::texts(ls@),
            all == text::lines_of(tsv@),
            row_at(all, id@, i as int) == row_at(all, id@, 0),
            held@ == old(held)@,
        decreases ls@.len() - i,
    {
        assert(all[i as int] == ls@[i as int]@);
        let p = pane_on(&ls[i]);
        if same(&p, id) {
            drop_held(held, id);
            let h = Held {
                id: id.to_owned(),
                at: now,
                line: ls[i].clone(),
                place: i,
                gone: false,
            };
            let ghost was = held_view(held@);
            let ghost hv = h@;
            held.push(h);
            assert(held_view(held@) =~= was.push(hv));
            return;
        }
        i = i + 1;
    }
}

/// What one held row becomes when a scan has come back: nothing once the hold has
/// run out, or once the pane is there again after it was seen to leave.
///
/// Being in the scan only means "the session came back" if it was ever seen to LEAVE.
/// Before that it means the restart has simply not taken effect yet.
pub open spec fn after_scan(h: HeldView, present: Seq<Seq<char>>, now: int) -> Option<HeldView> {
    if now - h.at >= RESTART_HOLD {
        None
    } else if present.contains(h.id) {
        if h.gone {
            None
        } else {
            Some(h)
        }
    } else {
        Some(HeldView { gone: true, ..h })
    }
}

pub open spec fn still_held(hs: Seq<HeldView>, present: Seq<Seq<char>>, now: int) -> Seq<HeldView>
    decreases hs.len(),
{
    if hs.len() == 0 {
        Seq::empty()
    } else {
        match after_scan(hs.last(), present, now) {
            Some(h) => still_held(hs.drop_last(), present, now).push(h),
            None => still_held(hs.drop_last(), present, now),
        }
    }
}

/// Those of the held rows that the scan does not have.
pub open spec fn missing(hs: Seq<HeldView>, present: Seq<Seq<char>>) -> Seq<HeldView>
    decreases hs.len(),
{
    if hs.len() == 0 {
        Seq::empty()
    } else if present.contains(hs.last().id) {
        missing(hs.drop_last(), present)
    } else {
        missing(hs.drop_last(), present).push(hs.last())
    }
}

/// The rows in the order of their places, so that each place still means what it
/// meant when the row was taken out.
pub open spec fn by_place(hs: Seq<HeldView>) -> Seq<HeldView> {
    let at = order::ordered(hs.map_values(|h: HeldView| h.place));
    Seq::new(hs.len(), |i: int| hs[at[i]])
}

pub open spec fn least(a: int, b: int) -> int {
    if a < b {
        a
    } else {
        b
    }
}

/// The lines with the held rows put back where they were.
pub open spec fn put_back(ls: Seq<Seq<char>>, hs: Seq<HeldView>) -> Seq<Seq<char>>
    decreases hs.len(),
{
    if hs.len() == 0 {
        ls
    } else {
        let r = put_back(ls, hs.drop_last());
        r.insert(least(hs.last().place, r.len() as int), hs.last().line)
    }
}

/// The scan with the held rows in it.
pub open spec fn held_in(tsv: Seq<char>, hs: Seq<HeldView>) -> Seq<char> {
    let ls = text::lines_of(tsv);
    if hs.len() == 0 {
        tsv
    } else {
        text::joined(put_back(ls, by_place(missing(hs, panes_in(ls)))), "\n"@) + "\n"@
    }
}

fn panes_of(ls: &Vec<String>) -> (r: Vec<String>)
    ensures
        text::texts(r@) == panes_in(text::texts(ls@)),
{
    let ghost all = text::texts(ls@);
    let mut out: Vec<String> = Vec::new();
    let mut i: usize = 0;
    while i < ls.len()
        invariant
            i <= ls@.len(),
            all == text::texts(ls@),
            out@.len() == i,
            forall|k: int| 0 <= k < i ==> (#[trigger] out@[k])@ == panes_in(all)[k],
        decreases ls@.len() - i,
    {
        assert(all[i as int] == ls@[i as int]@);
        out.push(pane_on(&ls[i]));
        i = i + 1;
    }
    assert(text::texts(out@) =~= panes_in(all));
    out
}

fn scanned(held: &Vec<Held>, present: &Vec<String>, now: u64) -> (r: Vec<Held>)
    ensures
        held_view(r@) == still_held(held_view(held@), text::texts(present@), now as int),
{
    let ghost all = held_view(held@);
    let ghost here = text::texts(present@);
    let mut out: Vec<Held> = Vec::new();
    let mut i: usize = 0;
    assert(held_view(out@) =~= still_held(all.take(0), here, now as int));
    while i < held.len()
        invariant
            i <= held@.len(),
            all == held_view(held@),
            here == text::texts(present@),
            held_view(out@) == still_held(all.take(i as int), here, now as int),
        decreases held@.len() - i,
    {
        assert(all.take(i + 1).drop_last() =~= all.take(i as int));
        assert(all.take(i + 1).last() == held@[i as int]@);
        let h = &held[i];
        let over = now >= h.at && now - h.at >= RESTART_HOLD;
        let there = listed(present, &h.id);
        if !over && !(there && h.gone) {
            let next = Held {
                id: h.id.clone(),
                at: h.at,
                line: h.line.clone(),
                place: h.place,
                gone: h.gone || !there,
            };
            assert(after_scan(h@, here, now as int) == Some(next@));
            let ghost was = held_view(out@);
            let ghost nv = next@;
            out.push(next);
            assert(held_view(out@) =~= was.push(nv));
        }
        i = i + 1;
    }
    assert(all.take(all.len() as int) =~= all);
    out
}

fn missing_in(held: &Vec<Held>, present: &Vec<String>) -> (r: Vec<Held>)
    ensures
        held_view(r@) == missing(held_view(held@), text::texts(present@)),
{
    let ghost all = held_view(held@);
    let ghost here = text::texts(present@);
    let mut out: Vec<Held> = Vec::new();
    let mut i: usize = 0;
    assert(held_view(out@) =~= missing(all.take(0), here));
    while i < held.len()
        invariant
            i <= held@.len(),
            all == held_view(held@),
            here == text::texts(present@),
            held_view(out@) == missing(all.take(i as int), here),
        decreases held@.len() - i,
    {
        assert(all.take(i + 1).drop_last() =~= all.take(i as int));
        assert(all.take(i + 1).last() == held@[i as int]@);
        let h = &held[i];
        if !listed(present, &h.id) {
            let next = Held {
                id: h.id.clone(),
                at: h.at,
                line: h.line.clone(),
                place: h.place,
                gone: h.gone,
            };
            let ghost was = held_view(out@);
            let ghost nv = next@;
            out.push(next);
            assert(held_view(out@) =~= was.push(nv));
        }
        i = i + 1;
    }
    assert(all.take(all.len() as int) =~= all);
    out
}

fn put_lines_back(ls: &mut Vec<String>, out: &Vec<Held>)
    ensures
        text::texts(final(ls)@) == put_back(text::texts(old(ls)@), by_place(held_view(out@))),
{
    let ghost first = text::texts(ls@);
    let ghost hs = held_view(out@);
    let mut keys: Vec<i128> = Vec::new();
    let mut i: usize = 0;
    while i < out.len()
        invariant
            i <= out@.len(),
            keys@.len() == i,
            forall|k: int| 0 <= k < i ==> #[trigger] keys@[k] == out@[k].place,
        decreases out@.len() - i,
    {
        keys.push(out[i].place as i128);
        i = i + 1;
    }
    let ghost ks = hs.map_values(|h: HeldView| h.place);
    assert(order::ints(keys@) =~= ks);
    let by = order::order(&keys);
    let ghost place = order::places(by@);
    let ghost sorted = by_place(hs);
    let mut k: usize = 0;
    assert(sorted.take(0).len() == 0);
    while k < by.len()
        invariant
            k <= by@.len(),
            hs == held_view(out@),
            ks == hs.map_values(|h: HeldView| h.place),
            place == order::places(by@),
            order::is_order(ks, place),
            sorted == by_place(hs),
            place == order::ordered(ks),
            text::texts(ls@) == put_back(first, sorted.take(k as int)),
        decreases by@.len() - k,
    {
        assert(place[k as int] == by@[k as int]);
        let h = &out[by[k]];
        assert(hs[by@[k as int] as int] == h@);
        assert(sorted.take(k + 1).drop_last() =~= sorted.take(k as int));
        assert(sorted.take(k + 1).last() == h@);
        let n: usize = ls.len();
        let at: usize = if h.place < n {
            h.place
        } else {
            n
        };
        let ghost was = text::texts(ls@);
        assert(was.len() == n);
        let line = h.line.clone();
        let ghost lv = line@;
        ls.insert(at, line);
        assert(text::texts(ls@) =~= was.insert(at as int, lv));
        k = k + 1;
    }
    assert(sorted.take(sorted.len() as int) =~= sorted);
}

/// Put back the rows of panes whose restart is still in flight, in a scan that has
/// just come back.
///
/// Put back at the place each one had rather than at the end, because the list is
/// otherwise unchanged. Only the ones actually MISSING are put back: one still held
/// because its pane has not gone yet is already in the list.
pub fn hold_restarting(held: &mut Vec<Held>, tsv: &str, now: u64) -> (r: String)
    ensures
        held_view(final(held)@) == still_held(
            held_view(old(held)@),
            panes_in(text::lines_of(tsv@)),
            now as int,
        ),
        r@ == held_in(tsv@, held_view(final(held)@)),
{
    let mut ls = lines(tsv);
    let present = panes_of(&ls);
    let next = scanned(held, &present, now);
    *held = next;
    assert(held_view(held@).len() == held@.len());
    if held.len() == 0 {
        return tsv.to_owned();
    }
    let out = missing_in(held, &present);
    put_lines_back(&mut ls, &out);
    let mut s = text::join(&ls, "\n");
    s.append("\n");
    s
}

// ---------------------------------------------------------------------------
// Laws
// ---------------------------------------------------------------------------
/// No row is held for ever: none is once the hold has run out.
pub proof fn lemma_a_hold_runs_out(hs: Seq<HeldView>, present: Seq<Seq<char>>, now: int, i: int)
    requires
        0 <= i < still_held(hs, present, now).len(),
    ensures
        now - still_held(hs, present, now)[i].at < RESTART_HOLD,
    decreases hs.len(),
{
    let rest = still_held(hs.drop_last(), present, now);
    if i < rest.len() {
        lemma_a_hold_runs_out(hs.drop_last(), present, now, i);
    }
}

/// A pane that has not been seen to leave is still held, however often it is scanned.
pub proof fn lemma_a_pane_that_never_left_stays_held(
    h: HeldView,
    present: Seq<Seq<char>>,
    now: int,
)
    requires
        now - h.at < RESTART_HOLD,
        !h.gone,
    ensures
        after_scan(h, present, now) is Some,
{
}

/// A pane that left and is back is held no longer.
pub proof fn lemma_a_pane_that_came_back_is_let_go(
    h: HeldView,
    gone: Seq<Seq<char>>,
    back: Seq<Seq<char>>,
    then: int,
    now: int,
)
    requires
        !gone.contains(h.id),
        back.contains(h.id),
        then - h.at < RESTART_HOLD,
    ensures
        after_scan(h, gone, then) is Some,
        after_scan(after_scan(h, gone, then)->0, back, now) is None,
{
}

/// A row the scan has is never put back beside itself.
pub proof fn lemma_no_row_is_shown_twice(hs: Seq<HeldView>, present: Seq<Seq<char>>, i: int)
    requires
        0 <= i < missing(hs, present).len(),
    ensures
        !present.contains(missing(hs, present)[i].id),
    decreases hs.len(),
{
    let rest = missing(hs.drop_last(), present);
    if i < rest.len() {
        lemma_no_row_is_shown_twice(hs.drop_last(), present, i);
    }
}

/// Putting rows back loses none of the lines that were there, and shows every row
/// that is put back.
pub proof fn lemma_no_line_is_lost(ls: Seq<Seq<char>>, hs: Seq<HeldView>, line: Seq<char>)
    requires
        forall|i: int| 0 <= i < hs.len() ==> 0 <= (#[trigger] hs[i]).place,
        ls.contains(line) || exists|i: int| 0 <= i < hs.len() && (#[trigger] hs[i]).line == line,
    ensures
        put_back(ls, hs).contains(line),
        put_back(ls, hs).len() == ls.len() + hs.len(),
    decreases hs.len(),
{
    lemma_put_back_len(ls, hs);
    if hs.len() > 0 {
        let r = put_back(ls, hs.drop_last());
        let at = least(hs.last().place, r.len() as int);
        let all = r.insert(at, hs.last().line);
        lemma_put_back_len(ls, hs.drop_last());
        assert(hs[hs.len() - 1] == hs.last());
        if hs.last().line == line {
            assert(all[at] == line);
        } else {
            if !ls.contains(line) {
                let i = choose|i: int| 0 <= i < hs.len() && (#[trigger] hs[i]).line == line;
                assert(hs.drop_last()[i].line == line);
            }
            assert forall|i: int| 0 <= i < hs.drop_last().len() implies 0 <= (
            #[trigger] hs.drop_last()[i]).place by {
                assert(hs[i] == hs.drop_last()[i]);
            }
            lemma_no_line_is_lost(ls, hs.drop_last(), line);
            let k = choose|k: int| 0 <= k < r.len() && r[k] == line;
            if k < at {
                assert(all[k] == line);
            } else {
                assert(all[k + 1] == line);
            }
        }
    }
}

proof fn lemma_put_back_len(ls: Seq<Seq<char>>, hs: Seq<HeldView>)
    requires
        forall|i: int| 0 <= i < hs.len() ==> 0 <= (#[trigger] hs[i]).place,
    ensures
        put_back(ls, hs).len() == ls.len() + hs.len(),
    decreases hs.len(),
{
    if hs.len() > 0 {
        assert forall|i: int| 0 <= i < hs.drop_last().len() implies 0 <= (
        #[trigger] hs.drop_last()[i]).place by {
            assert(hs[i] == hs.drop_last()[i]);
        }
        lemma_put_back_len(ls, hs.drop_last());
        assert(hs[hs.len() - 1] == hs.last());
    }
}

/// A session that is away while it restarts stays where it was: its line stands in the list
/// at the place it had, and the lines about it keep their order.
pub proof fn lemma_a_held_row_stays_where_it_was(ls: Seq<Seq<char>>, h: HeldView)
    requires
        0 <= h.place <= ls.len(),
    ensures
        ({
            let shown = put_back(ls, seq![h]);
            &&& shown.len() == ls.len() + 1
            &&& shown[h.place] == h.line
            &&& shown.take(h.place) == ls.take(h.place)
            &&& shown.skip(h.place + 1) == ls.skip(h.place)
        }),
{
    let one = seq![h];
    assert(one.drop_last() =~= Seq::<HeldView>::empty());
    assert(put_back(ls, one.drop_last()) == ls);
    let shown = put_back(ls, one);
    assert(shown.take(h.place) =~= ls.take(h.place));
    assert(shown.skip(h.place + 1) =~= ls.skip(h.place));
}

/// A restart holds the row of its pane as it stands in the list, from that moment on, and
/// holds it once.
pub proof fn lemma_a_restart_holds_its_row(
    hs: Seq<HeldView>,
    tsv: Seq<char>,
    id: Seq<char>,
    now: int,
    i: int,
)
    requires
        0 <= i < text::lines_of(tsv).len(),
        pane_of(text::lines_of(tsv)[i]) == id,
        forall|j: int| 0 <= j < i ==> pane_of(#[trigger] text::lines_of(tsv)[j]) != id,
    ensures
        ({
            let held = holding(hs, tsv, id, now);
            &&& held.last() == (HeldView {
                id,
                at: now,
                line: text::lines_of(tsv)[i],
                place: i,
                gone: false,
            })
            &&& forall|k: int| 0 <= k < held.len() - 1 ==> (#[trigger] held[k]).id != id
        }),
{
    let ls = text::lines_of(tsv);
    lemma_row_at(ls, id, 0, i);
    lemma_without(hs, id);
    let held = holding(hs, tsv, id, now);
    assert forall|k: int| 0 <= k < held.len() - 1 implies (#[trigger] held[k]).id != id by {
        assert(held[k] == without(hs, id)[k]);
    }
}

proof fn lemma_row_at(ls: Seq<Seq<char>>, id: Seq<char>, from: int, i: int)
    requires
        0 <= from <= i < ls.len(),
        pane_of(ls[i]) == id,
        forall|j: int| from <= j < i ==> pane_of(#[trigger] ls[j]) != id,
    ensures
        row_at(ls, id, from) == Some(i),
    decreases i - from,
{
    if from < i {
        assert(pane_of(ls[from]) != id);
        lemma_row_at(ls, id, from + 1, i);
    }
}

proof fn lemma_without(hs: Seq<HeldView>, id: Seq<char>)
    ensures
        forall|k: int| 0 <= k < without(hs, id).len() ==> (#[trigger] without(hs, id)[k]).id != id,
    decreases hs.len(),
{
    if hs.len() > 0 {
        lemma_without(hs.drop_last(), id);
        let rest = without(hs.drop_last(), id);
        let all = without(hs, id);
        assert forall|k: int| 0 <= k < all.len() implies (#[trigger] all[k]).id != id by {
            if k < rest.len() {
                assert(all[k] == rest[k]);
            }
        }
    }
}

} // verus!
