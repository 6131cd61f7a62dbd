//! The rows that a query keeps, and their order.
use fuzzy_matcher::skim::SkimMatcherV2;
use fuzzy_matcher::FuzzyMatcher;
use vstd::prelude::*;

use crate::order;
use crate::rows;
use crate::rows::Row;
use crate::text;
use crate::text::{contains, words};

verus! {

/// The longest text that can be matched. The matcher sums up scores as `i32`, and each
/// letter adds at most 32: on a longer text those sums could overflow.
pub const MATCHED: usize = 0x3ff_ffff;

/// Is none of the rows too long to be matched?
pub open spec fn matchable(list: Seq<rows::RowView>) -> bool {
    forall|i: int|
        0 <= i < list.len() ==> rows::plain_cells((#[trigger] list[i]).cells).len() <= MATCHED
}

/// Is none of the rows too long to be matched?
pub fn all_matchable(list: &Vec<Row>) -> (r: bool)
    ensures
        r == matchable(rows::rows_view(list@)),
{
    let ghost all = rows::rows_view(list@);
    let mut i: usize = 0;
    while i < list.len()
        invariant
            i <= list@.len(),
            all == rows::rows_view(list@),
            forall|k: int|
                0 <= k < i ==> rows::plain_cells((#[trigger] all[k]).cells).len() <= MATCHED,
        decreases list@.len() - i,
    {
        let hay = list[i].plain();
        assert(all[i as int] == list@[i as int]@);
        if hay.unicode_len() > MATCHED {
            return false;
        }
        i = i + 1;
    }
    true
}

/// Are two characters the same, whatever the case of an ASCII letter?
pub open spec fn alike(a: char, b: char) -> bool {
    small_letter(a) == small_letter(b)
}

pub open spec fn small_letter(c: char) -> int {
    if 'A' <= c <= 'Z' {
        c as int + 32
    } else {
        c as int
    }
}

/// Do the letters of a word stand in a text, in order but perhaps scattered?
pub open spec fn scattered(hay: Seq<char>, word: Seq<char>) -> bool
    decreases hay.len(),
{
    if word.len() == 0 {
        true
    } else if hay.len() == 0 {
        false
    } else if alike(hay[0], word[0]) {
        scattered(hay.skip(1), word.skip(1))
    } else {
        scattered(hay.skip(1), word)
    }
}

/// What a fresh `SkimMatcherV2` that ignores case scores a word in a text.
pub uninterp spec fn score(hay: Seq<char>, word: Seq<char>) -> Option<i64>;

/// `SkimMatcherV2::fuzzy_match`, by a matcher of its own that ignores case: a score
/// where the letters of the word stand in the text in order, and none otherwise.
/// The score is an `i32` that was widened, and depends on the two texts alone,
/// since a matcher that has matched nothing yet carries nothing over. How high it
/// is, is not stated. Texts so long that its sums could overflow are left out; a
/// word may be of any length, since one that is longer than the text is not in it.
#[verifier::external_body]
fn fuzzy_match(hay: &str, word: &str) -> (r: Option<i64>)
    requires
        hay@.len() <= MATCHED,
    ensures
        r == score(hay@, word@),
        r is Some <==> scattered(hay@, word@),
        r is Some ==> i32::MIN <= r->0 <= i32::MAX,
{
    SkimMatcherV2::default().ignore_case().fuzzy_match(hay, word)
}

/// The scores of the words, added up; none where one of them is not in the text.
pub open spec fn total_score(hay: Seq<char>, terms: Seq<Seq<char>>) -> Option<int>
    decreases terms.len(),
{
    if terms.len() == 0 {
        Some(0)
    } else {
        match (total_score(hay, terms.drop_last()), score(hay, terms.last())) {
            (Some(a), Some(b)) => Some(a + b),
            _ => None,
        }
    }
}

/// Do the letters of every word stand in the text in order, if only scattered?
pub open spec fn has_letters(hay: Seq<char>, terms: Seq<Seq<char>>) -> bool {
    forall|i: int| 0 <= i < terms.len() ==> scattered(hay, #[trigger] terms[i])
}

fn score_all(hay: &str, terms: &Vec<String>) -> (r: Option<i128>)
    requires
        hay@.len() <= MATCHED,
    ensures
        match r {
            Some(s) => total_score(hay@, text::texts(terms@)) == Some(s as int),
            None => total_score(hay@, text::texts(terms@)) is None,
        },
        r is Some ==> r->0 > i128::MIN,
        r is Some <==> has_letters(hay@, text::texts(terms@)),
{
    let ghost ts = text::texts(terms@);
    let mut total: i128 = 0;
    let mut i: usize = 0;
    assert(ts.take(0).len() == 0);
    while i < terms.len()
        invariant
            i <= terms@.len(),
            hay@.len() <= MATCHED,
            ts == text::texts(terms@),
            total_score(hay@, ts.take(i as int)) == Some(total as int),
            forall|k: int| 0 <= k < i ==> scattered(hay@, #[trigger] ts[k]),
            -0x8000_0000 * i <= total <= 0x8000_0000 * i,
            i <= 0xffff_ffff_ffff_ffff,
        decreases terms@.len() - i,
    {
        assert(ts.take(i + 1).drop_last() =~= ts.take(i as int));
        assert(ts.take(i + 1).last() == terms@[i as int]@);
        assert(ts[i as int] == terms@[i as int]@);
        match fuzzy_match(hay, &terms[i]) {
            Some(s) => {
                total = total + s as i128;
            },
            None => {
                proof {
                    lemma_no_score(hay@, ts, i + 1);
                }
                return None;
            },
        }
        i = i + 1;
    }
    assert(ts.take(ts.len() as int) =~= ts);
    Some(total)
}

proof fn lemma_no_score(hay: Seq<char>, terms: Seq<Seq<char>>, n: int)
    requires
        0 <= n <= terms.len(),
        total_score(hay, terms.take(n)) is None,
    ensures
        total_score(hay, terms) is None,
    decreases terms.len() - n,
{
    if n < terms.len() {
        assert(terms.take(n + 1).drop_last() =~= terms.take(n));
        lemma_no_score(hay, terms, n + 1);
    } else {
        assert(terms.take(n) =~= terms);
    }
}

/// Does the text hold every word as typed, whatever the case?
pub open spec fn says_all(hay: Seq<char>, terms: Seq<Seq<char>>) -> bool {
    forall|i: int|
        0 <= i < terms.len() ==> text::has(
            text::lowercase(hay),
            text::lowercase(#[trigger] terms[i]),
        )
}

fn says(hay: &str, terms: &Vec<String>) -> (r: bool)
    ensures
        r == says_all(hay@, text::texts(terms@)),
{
    let ghost ts = text::texts(terms@);
    let low = text::to_lowercase(hay);
    let mut i: usize = 0;
    while i < terms.len()
        invariant
            i <= terms@.len(),
            ts == text::texts(terms@),
            low@ == text::lowercase(hay@),
            forall|k: int|
                0 <= k < i ==> text::has(low@, text::lowercase(#[trigger] ts[k])),
        decreases terms@.len() - i,
    {
        assert(ts[i as int] == terms@[i as int]@);
        let t = text::to_lowercase(&terms[i]);
        if !contains(&low, &t) {
            return false;
        }
        i = i + 1;
    }
    true
}

/// The places, among the first `n`, of the rows that have a score.
pub open spec fn scored(scores: Seq<Option<int>>, n: int) -> Seq<int>
    decreases n,
{
    if n <= 0 || n > scores.len() {
        Seq::empty()
    } else if scores[n - 1] is Some {
        scored(scores, n - 1).push(n - 1)
    } else {
        scored(scores, n - 1)
    }
}

/// What the kept rows are ordered by: the loose ones last where it goes by date,
/// and the highest score first otherwise.
pub open spec fn keys(
    scores: Seq<Option<int>>,
    loose: Seq<bool>,
    by_date: bool,
    kept: Seq<int>,
) -> Seq<int> {
    kept.map_values(
        |i: int|
            if by_date {
                if loose[i] {
                    1int
                } else {
                    0int
                }
            } else {
                -(scores[i]->0)
            },
    )
}

/// The rows that have a score, in order; those that tie keep the list's own.
pub open spec fn arranged(scores: Seq<Option<int>>, loose: Seq<bool>, by_date: bool) -> Seq<int> {
    let kept = scored(scores, scores.len() as int);
    let at = order::ordered(keys(scores, loose, by_date, kept));
    Seq::new(kept.len(), |k: int| kept[at[k]])
}

pub open spec fn opt_ints(v: Seq<Option<i128>>) -> Seq<Option<int>> {
    v.map_values(
        |s: Option<i128>|
            match s {
                Some(n) => Some(n as int),
                None => None,
            },
    )
}

proof fn lemma_scored(scores: Seq<Option<int>>, n: int)
    requires
        0 <= n <= scores.len(),
    ensures
        scored(scores, n).len() <= n,
        forall|k: int|
            0 <= k < scored(scores, n).len() ==> 0 <= #[trigger] scored(scores, n)[k] < n
                && scores[scored(scores, n)[k]] is Some,
    decreases n,
{
    if n > 0 {
        lemma_scored(scores, n - 1);
        let rest = scored(scores, n - 1);
        let all = scored(scores, n);
        assert forall|k: int| 0 <= k < all.len() implies 0 <= #[trigger] all[k] < n
            && scores[all[k]] is Some by {
            if k < rest.len() {
                assert(all[k] == rest[k]);
            }
        }
    }
}

/// The rows that have a score, best first, or with `by_date` in the order the list
/// has, those first that are not loose.
///
/// `loose` says of each row whether it only has the letters of some word scattered.
pub fn arrange(scores: &Vec<Option<i128>>, loose: &Vec<bool>, by_date: bool) -> (r: Vec<usize>)
    requires
        loose@.len() == scores@.len(),
        forall|i: int|
            0 <= i < scores@.len() ==> (#[trigger] scores@[i] is Some ==> scores@[i]->0
                > i128::MIN),
    ensures
        order::places(r@) == arranged(opt_ints(scores@), loose@, by_date),
        forall|k: int| 0 <= k < r@.len() ==> #[trigger] r@[k] < scores@.len(),
{
    let ghost ss = opt_ints(scores@);
    let mut kept: Vec<usize> = Vec::new();
    let mut ks: Vec<i128> = Vec::new();
    let mut i: usize = 0;
    assert(order::places(kept@) =~= scored(ss, 0));
    while i < scores.len()
        invariant
            i <= scores@.len(),
            ss == opt_ints(scores@),
            loose@.len() == scores@.len(),
            forall|i: int|
                0 <= i < scores@.len() ==> (#[trigger] scores@[i] is Some ==> scores@[i]->0
                    > i128::MIN),
            order::places(kept@) == scored(ss, i as int),
            forall|k: int| 0 <= k < kept@.len() ==> #[trigger] kept@[k] < i,
            ks@.len() == kept@.len(),
            forall|k: int|
                0 <= k < ks@.len() ==> #[trigger] ks@[k] == keys(
                    ss,
                    loose@,
                    by_date,
                    order::places(kept@),
                )[k],
        decreases scores@.len() - i,
    {
        if let Some(s) = scores[i] {
            assert(ss[i as int] == Some(s as int));
            assert(scores@[i as int] == Some(s));
            let key: i128 = if by_date {
                if loose[i] {
                    1
                } else {
                    0
                }
            } else {
                -s
            };
            let ghost before = order::places(kept@);
            kept.push(i);
            ks.push(key);
            assert(order::places(kept@) =~= before.push(i as int));
            assert forall|k: int| 0 <= k < ks@.len() implies #[trigger] ks@[k] == keys(
                ss,
                loose@,
                by_date,
                order::places(kept@),
            )[k] by {
                if k < before.len() {
                    assert(order::places(kept@)[k] == before[k]);
                    assert(keys(ss, loose@, by_date, order::places(kept@))[k] == keys(
                        ss,
                        loose@,
                        by_date,
                        before,
                    )[k]);
                }
            }
        } else {
            assert(ss[i as int] is None);
        }
        i = i + 1;
    }
    let ghost all = order::places(kept@);
    let ghost by = keys(ss, loose@, by_date, all);
    assert(order::ints(ks@) =~= by);
    let at = order::order(&ks);
    let ghost place = order::places(at@);
    let mut out: Vec<usize> = Vec::new();
    let mut k: usize = 0;
    while k < at.len()
        invariant
            k <= at@.len(),
            all == order::places(kept@),
            by.len() == kept@.len(),
            place == order::places(at@),
            order::is_order(by, place),
            out@.len() == k,
            forall|j: int| 0 <= j < k ==> #[trigger] out@[j] == all[place[j]],
            forall|j: int| 0 <= j < kept@.len() ==> #[trigger] kept@[j] < scores@.len(),
            forall|j: int| 0 <= j < k ==> #[trigger] out@[j] < scores@.len(),
        decreases at@.len() - k,
    {
        assert(place[k as int] == at@[k as int]);
        assert(all[at@[k as int] as int] == kept@[at@[k as int] as int]);
        out.push(kept[at[k]]);
        k = k + 1;
    }
    assert(order::places(out@) =~= arranged(ss, loose@, by_date));
    out
}

/// The scores of the rows.
pub open spec fn row_scores(list: Seq<rows::RowView>, terms: Seq<Seq<char>>) -> Seq<Option<int>> {
    list.map_values(|r: rows::RowView| total_score(rows::plain_cells(r.cells), terms))
}

/// Which rows only have the letters of some word scattered.
pub open spec fn row_loose(list: Seq<rows::RowView>, terms: Seq<Seq<char>>) -> Seq<bool> {
    list.map_values(|r: rows::RowView| !says_all(rows::plain_cells(r.cells), terms))
}

/// The rows that a query keeps, in order: all of them, where it has no words.
pub open spec fn filtered(list: Seq<rows::RowView>, query: Seq<char>, by_date: bool) -> Seq<int> {
    let terms = text::words_of(query);
    if terms.len() == 0 {
        Seq::new(list.len(), |i: int| i)
    } else {
        arranged(row_scores(list, terms), row_loose(list, terms), by_date)
    }
}

/// The rows the query keeps: best match first, or `by_date` in the order the list
/// already has, which on the past list is newest first.
///
/// Words are ANDed and their scores summed. With no query the list keeps its own
/// order, and so do ties. By date, the rows holding every word as typed come first,
/// newest first, and the loose matches follow, newest first too. The rows are the
/// same either way; only their order changes.
pub fn filter(list: &Vec<Row>, query: &str, by_date: bool) -> (r: Vec<usize>)
    requires
        text::words_of(query@).len() == 0 || matchable(rows::rows_view(list@)),
    ensures
        order::places(r@) == filtered(rows::rows_view(list@), query@, by_date),
        forall|i: int|
            #![trigger order::places(r@).contains(i)]
            0 <= i < list@.len() ==> (order::places(r@).contains(i) <==> has_letters(
                rows::plain_cells(list@[i]@.cells),
                text::words_of(query@),
            )),
        forall|k: int| 0 <= k < r@.len() ==> #[trigger] r@[k] < list@.len(),
{
    let terms = words(query);
    let ghost ts = text::texts(terms@);
    let ghost rs = rows::rows_view(list@);
    assert(ts.len() == terms@.len());
    if terms.len() == 0 {
        let mut out: Vec<usize> = Vec::new();
        let mut i: usize = 0;
        while i < list.len()
            invariant
                i <= list@.len(),
                out@.len() == i,
                forall|k: int| 0 <= k < i ==> #[trigger] out@[k] == k,
            decreases list@.len() - i,
        {
            out.push(i);
            i = i + 1;
        }
        assert(order::places(out@) =~= filtered(rs, query@, by_date));
        assert forall|i: int| 0 <= i < list@.len() implies order::places(out@).contains(i) by {
            assert(order::places(out@)[i] == i);
        }
        return out;
    }
    let mut scores: Vec<Option<i128>> = Vec::new();
    let mut loose: Vec<bool> = Vec::new();
    let mut i: usize = 0;
    while i < list.len()
        invariant
            i <= list@.len(),
            ts == text::texts(terms@),
            rs == rows::rows_view(list@),
            matchable(rs),
            forall|k: int|
                0 <= k < i ==> (#[trigger] scores@[k] is Some <==> has_letters(
                    rows::plain_cells(list@[k]@.cells),
                    ts,
                )),
            scores@.len() == i,
            loose@.len() == i,
            forall|k: int|
                0 <= k < i ==> opt_ints(scores@)[k] == #[trigger] row_scores(rs, ts)[k],
            forall|k: int| 0 <= k < i ==> #[trigger] loose@[k] == row_loose(rs, ts)[k],
            forall|k: int|
                0 <= k < i ==> (#[trigger] scores@[k] is Some ==> scores@[k]->0 > i128::MIN),
        decreases list@.len() - i,
    {
        let hay = list[i].plain();
        assert(rs[i as int] == list@[i as int]@);
        let s = score_all(&hay, &terms);
        let l = !says(&hay, &terms);
        let ghost before = scores@;
        scores.push(s);
        loose.push(l);
        assert(opt_ints(scores@) =~= opt_ints(before).push(total_score(hay@, ts)));
        i = i + 1;
    }
    assert(opt_ints(scores@) =~= row_scores(rs, ts));
    assert(loose@ =~= row_loose(rs, ts));
    proof {
        assert forall|i: int| 0 <= i < list@.len() implies (arranged(
            opt_ints(scores@),
            loose@,
            by_date,
        ).contains(i) <==> has_letters(rows::plain_cells(list@[i]@.cells), ts)) by {
            lemma_kept(opt_ints(scores@), loose@, by_date, i);
            assert(opt_ints(scores@)[i] is Some <==> scores@[i] is Some);
        }
    }
    arrange(&scores, &loose, by_date)
}

/// The rows are the same either way; only their order changes: best first or by
/// date, a row is kept where it has a score.
pub proof fn lemma_the_same_rows_either_way(scores: Seq<Option<int>>, loose: Seq<bool>, row: int)
    ensures
        arranged(scores, loose, true).contains(row) <==> 0 <= row < scores.len()
            && scores[row] is Some,
        arranged(scores, loose, false).contains(row) <==> 0 <= row < scores.len()
            && scores[row] is Some,
{
    lemma_kept(scores, loose, true, row);
    lemma_kept(scores, loose, false, row);
}

proof fn lemma_kept(scores: Seq<Option<int>>, loose: Seq<bool>, by_date: bool, row: int)
    ensures
        arranged(scores, loose, by_date).contains(row) <==> 0 <= row < scores.len()
            && scores[row] is Some,
{
    let n = scores.len() as int;
    let kept = scored(scores, n);
    let ks = keys(scores, loose, by_date, kept);
    let at = order::ordered(ks);
    let all = arranged(scores, loose, by_date);
    lemma_scored(scores, n);
    lemma_scored_all(scores, n, row);
    order::lemma_ordered(ks);
    if all.contains(row) {
        let k = choose|k: int| 0 <= k < all.len() && all[k] == row;
        assert(0 <= at[k] < kept.len());
    }
    if kept.contains(row) {
        let j = choose|j: int| 0 <= j < kept.len() && kept[j] == row;
        assert(at.contains(j));
        let k = choose|k: int| 0 <= k < at.len() && at[k] == j;
        assert(all[k] == row);
    }
}

proof fn lemma_scored_all(scores: Seq<Option<int>>, n: int, row: int)
    requires
        0 <= n <= scores.len(),
    ensures
        scored(scores, n).contains(row) <==> 0 <= row < n && scores[row] is Some,
    decreases n,
{
    if n > 0 {
        lemma_scored_all(scores, n - 1, row);
        let rest = scored(scores, n - 1);
        if rest.contains(row) && scores[n - 1] is Some {
            let k = choose|k: int| 0 <= k < rest.len() && rest[k] == row;
            assert(scored(scores, n)[k] == row);
        }
        if scored(scores, n).contains(row) && row != n - 1 {
            let k = choose|k: int| 0 <= k < scored(scores, n).len() && scored(scores, n)[k] == row;
            assert(rest[k] == row);
        }
        if row == n - 1 && scores[n - 1] is Some {
            assert(scored(scores, n)[rest.len() as int] == row);
        }
    }
}

/// By date, the rows that hold every word as typed come before every loose one, and
/// each lot keeps the list's own order.
pub proof fn lemma_by_date_the_tight_come_first(
    scores: Seq<Option<int>>,
    loose: Seq<bool>,
    i: int,
    j: int,
)
    requires
        0 <= i < j < arranged(scores, loose, true).len(),
    ensures
        ({
            let a = arranged(scores, loose, true)[i];
            let b = arranged(scores, loose, true)[j];
            loose[a] ==> loose[b] && a < b
        }),
        ({
            let a = arranged(scores, loose, true)[i];
            let b = arranged(scores, loose, true)[j];
            loose[a] == loose[b] ==> a < b
        }),
{
    let n = scores.len() as int;
    let kept = scored(scores, n);
    let ks = keys(scores, loose, true, kept);
    let at = order::ordered(ks);
    order::lemma_ordered(ks);
    assert(order::before(ks, at[i], at[j]));
    lemma_scored_ascending(scores, n);
    assert(0 <= at[i] < kept.len() && 0 <= at[j] < kept.len());
    assert(ks[at[i]] == (if loose[kept[at[i]]] { 1int } else { 0int }));
    assert(ks[at[j]] == (if loose[kept[at[j]]] { 1int } else { 0int }));
}

/// Best first, no row stands above one with a higher score, and ties keep the
/// list's own order.
pub proof fn lemma_the_best_come_first(
    scores: Seq<Option<int>>,
    loose: Seq<bool>,
    i: int,
    j: int,
)
    requires
        0 <= i < j < arranged(scores, loose, false).len(),
    ensures
        ({
            let a = arranged(scores, loose, false)[i];
            let b = arranged(scores, loose, false)[j];
            scores[a]->0 > scores[b]->0 || (scores[a]->0 == scores[b]->0 && a < b)
        }),
{
    let n = scores.len() as int;
    let kept = scored(scores, n);
    let ks = keys(scores, loose, false, kept);
    let at = order::ordered(ks);
    order::lemma_ordered(ks);
    assert(order::before(ks, at[i], at[j]));
    lemma_scored_ascending(scores, n);
    assert(0 <= at[i] < kept.len() && 0 <= at[j] < kept.len());
    assert(ks[at[i]] == -(scores[kept[at[i]]]->0));
    assert(ks[at[j]] == -(scores[kept[at[j]]]->0));
}

proof fn lemma_scored_ascending(scores: Seq<Option<int>>, n: int)
    requires
        0 <= n <= scores.len(),
    ensures
        forall|i: int, j: int|
            0 <= i < j < scored(scores, n).len() ==> scored(scores, n)[i] < scored(scores, n)[j],
    decreases n,
{
    if n > 0 {
        lemma_scored_ascending(scores, n - 1);
        lemma_scored(scores, n - 1);
        let rest = scored(scores, n - 1);
        let all = scored(scores, n);
        assert forall|i: int, j: int| 0 <= i < j < all.len() implies all[i] < all[j] by {
            assert(all[i] == rest[i]);
            if j < rest.len() {
                assert(all[j] == rest[j]);
            }
        }
    }
}

/// Without a query every row is shown, in the order of the list; with one, exactly the rows
/// that have a score for every word of it.
pub proof fn lemma_what_a_query_keeps(
    list: Seq<rows::RowView>,
    query: Seq<char>,
    by_date: bool,
    row: int,
)
    ensures
        text::words_of(query).len() == 0 ==> filtered(list, query, by_date).len() == list.len() && (0
            <= row < list.len() ==> filtered(list, query, by_date)[row] == row),
        text::words_of(query).len() > 0 ==> (filtered(list, query, by_date).contains(row) <==> 0
            <= row < list.len() && total_score(
            rows::plain_cells(list[row].cells),
            text::words_of(query),
        ) is Some),
{
    let terms = text::words_of(query);
    lemma_the_same_rows_either_way(row_scores(list, terms), row_loose(list, terms), row);
}

/// A row is kept only where every word of the query has a score on it.
pub proof fn lemma_every_word_has_to_score(hay: Seq<char>, terms: Seq<Seq<char>>, i: int)
    requires
        0 <= i < terms.len(),
        total_score(hay, terms) is Some,
    ensures
        score(hay, terms[i]) is Some,
    decreases terms.len(),
{
    if i < terms.len() - 1 {
        lemma_every_word_has_to_score(hay, terms.drop_last(), i);
        assert(terms.drop_last()[i] == terms[i]);
    }
}

} // verus!
