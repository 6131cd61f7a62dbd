//! Reading the search index and the sessions cache.
//!
//! Two formats, each one line a record and easy to read:
//!
//! ```text
//! index/<pane id with everything awkward flattened>
//!   idx <fingerprint of what has been indexed> <epoch> <pane id> <key>
//!   <the blob, one line, no tabs>
//!
//! sessions
//!   sess <epoch> 2
//!   <mtime> <pane|-> <agent> <key> <cwd> <version> <title> <t|p>
//! ```
//!
//! One index file per PANE, not per transcript: the pane is what the list is keyed
//! by, and a pane moving onto a new conversation is then just a header naming a
//! transcript that is no longer this pane's.
//!
//! The `2` on the sessions header is a format version, and the only thing that reads
//! it is the check that refuses an older file.
use vstd::prelude::*;

use crate::paths;
use crate::paths::join;
use crate::table;
use crate::table::Table;
use crate::text;
use crate::text::{alnum, chars_of, contains, dec_int, lines, same, slice, split, words};

verus! {

/// Enough context to read a hit as a phrase, and no more: a snippet has to fit on a
/// row behind a label and a summary.
pub const ROW_CTX: usize = 20;

/// The preview is where the wide version of the same thing lives.
pub const PREVIEW_CTX: usize = 46;

pub fn index_dir(runtime: &str) -> (r: String)
    ensures
        r@ == paths::joined(runtime@, "index"@),
{
    join(runtime, "index")
}

pub fn sessions_file(runtime: &str) -> (r: String)
    ensures
        r@ == paths::joined(runtime@, "sessions"@),
{
    join(runtime, "sessions")
}

/// A pane id with everything awkward flattened out.
pub open spec fn flat_key(pane: Seq<char>) -> Seq<char> {
    pane.map_values(
        |c: char|
            if text::is_alnum(c) {
                c
            } else {
                '_'
            },
    )
}

/// An index file's name: the pane id with everything awkward flattened out, so a
/// remote id (`ha:%6`) is a legal filename. The id itself is carried IN the file.
pub fn key_for(pane: &str) -> (r: String)
    ensures
        r@ == flat_key(pane@),
{
    let v = chars_of(pane);
    let mut out = String::new();
    let mut i: usize = 0;
    assert(out@ =~= flat_key(pane@).take(0));
    while i < v.len()
        invariant
            i <= v@.len(),
            v@ == pane@,
            out@ == flat_key(pane@).take(i as int),
        decreases v@.len() - i,
    {
        let c = if alnum(v[i]) {
            v[i]
        } else {
            '_'
        };
        out.push(c);
        assert(flat_key(pane@).take(i + 1) =~= flat_key(pane@).take(i as int).push(c));
        i = i + 1;
    }
    assert(flat_key(pane@).take(pane@.len() as int) =~= flat_key(pane@));
    out
}

// ---------------------------------------------------------------------------
// A query
// ---------------------------------------------------------------------------
/// The query split the way the picker splits it, with smart case: a query that is
/// all lower case matches case-insensitively, one carrying a capital is taken
/// literally.
pub struct Query {
    pub terms: Vec<String>,
    pub fold: bool,
}

#[verifier::ext_equal]
pub struct QueryView {
    pub terms: Seq<Seq<char>>,
    pub fold: bool,
}

impl View for Query {
    type V = QueryView;

    open spec fn view(&self) -> QueryView {
        QueryView { terms: text::texts(self.terms@), fold: self.fold }
    }
}

pub open spec fn query_of(q: Seq<char>) -> QueryView {
    QueryView { terms: text::words_of(q), fold: q == text::lowercase(q) }
}

/// What a line is searched as.
pub open spec fn searched(q: QueryView, line: Seq<char>) -> Seq<char> {
    if q.fold {
        text::lowercase(line)
    } else {
        line
    }
}

/// A text in small letters where the case is ignored, and as it stands otherwise.
pub open spec fn cased(fold: bool, line: Seq<char>) -> Seq<char> {
    if fold {
        text::small_letters(line)
    } else {
        line
    }
}

impl Query {
    /// Of a query in ASCII, the case is ignored exactly where it has no capital.
    pub fn new(q: &str) -> (r: Query)
        ensures
            r@ == query_of(q@),
            text::ascii(q@) ==> (r.fold <==> forall|i: int|
                0 <= i < q@.len() ==> !text::is_capital(#[trigger] q@[i])),
    {
        let low = text::to_lowercase(q);
        proof {
            text::lemma_small_letters(q@);
        }
        Query { terms: words(q), fold: same(q, &low) }
    }

    pub fn haystack(&self, line: &str) -> (r: String)
        ensures
            r@ == searched(self@, line@),
            text::ascii(line@) ==> r@ == cased(self.fold, line@),
    {
        if self.fold {
            text::to_lowercase(line)
        } else {
            line.to_owned()
        }
    }
}

// ---------------------------------------------------------------------------
// One index file
// ---------------------------------------------------------------------------
/// The pane an index file is about, and its blob.
pub open spec fn entry(file: Seq<char>) -> Option<(Seq<char>, Seq<char>)> {
    let ls = text::lines_of(file);
    if ls.len() == 0 {
        None
    } else {
        let head = text::fields(ls[0], ' ');
        if head.len() < 4 || head[0] != "idx"@ {
            None
        } else {
            Some(
                (
                    head[3],
                    if ls.len() > 1 {
                        ls[1]
                    } else {
                        Seq::empty()
                    },
                ),
            )
        }
    }
}

/// One index file, split into the pane it is about and its blob.
///
/// Anything that is not a well-formed header is a file being rewritten under us or
/// left by an older version, and it is skipped rather than guessed at.
pub fn read_entry(file: &str) -> (r: Option<(String, String)>)
    ensures
        match r {
            Some((pane, blob)) => entry(file@) == Some((pane@, blob@)),
            None => entry(file@) is None,
        },
{
    let ls = lines(file);
    let ghost all = text::texts(ls@);
    assert(all.len() == ls@.len());
    if ls.len() == 0 {
        return None;
    }
    assert(all[0] == ls@[0]@);
    let head = split(&ls[0], ' ');
    let ghost hs = text::texts(head@);
    assert(hs.len() == head@.len());
    if head.len() < 4 {
        return None;
    }
    assert(hs[0] == head@[0]@ && hs[3] == head@[3]@);
    if !same(&head[0], "idx") {
        return None;
    }
    let blob = if ls.len() > 1 {
        assert(all[1] == ls@[1]@);
        ls[1].clone()
    } else {
        let none = String::new();
        assert(none@ =~= Seq::<char>::empty());
        none
    };
    Some((head[3].clone(), blob))
}

// ---------------------------------------------------------------------------
// Context round a hit
// ---------------------------------------------------------------------------
/// The lesser of two places.
pub open spec fn least(a: int, b: int) -> int {
    if a < b {
        a
    } else {
        b
    }
}

/// Where the context before a hit begins, in a text of `n` characters. Folding the
/// case can change how many characters a text has, so a hit may stand past its end.
pub open spec fn context_start(at: int, ctx: int, n: int) -> int {
    least(
        if at > ctx {
            at - ctx
        } else {
            0
        },
        n,
    )
}

/// Where the context after a hit ends.
pub open spec fn context_end(at: int, len: int, ctx: int, n: int) -> int {
    least(at + len + ctx, n)
}

/// One window of context round a hit, each end marked that was cut.
pub open spec fn window_of(blob: Seq<char>, at: int, len: int, ctx: int) -> Seq<char> {
    let s = context_start(at, ctx, blob.len() as int);
    let e = context_end(at, len, ctx, blob.len() as int);
    (if s > 0 {
        "…"@
    } else {
        Seq::empty()
    }) + blob.subrange(s, e) + (if e < blob.len() {
        "…"@
    } else {
        Seq::empty()
    })
}

fn window_start(at: usize, ctx: usize, n: usize) -> (r: usize)
    ensures
        r == context_start(at as int, ctx as int, n as int),
{
    let s: usize = if at > ctx {
        at - ctx
    } else {
        0
    };
    if s < n {
        s
    } else {
        n
    }
}

fn window_end(at: usize, len: usize, ctx: usize, n: usize) -> (r: usize)
    ensures
        r == context_end(at as int, len as int, ctx as int, n as int),
{
    let e: u128 = at as u128 + len as u128 + ctx as u128;
    if e < n as u128 {
        e as usize
    } else {
        n
    }
}

/// Take one window of context around a hit, marking each end that was cut.
///
/// Character-wise: a snippet cut mid-character is not text any more.
pub fn window(blob: &str, at: usize, len: usize, ctx: usize) -> (r: String)
    ensures
        r@ == window_of(blob@, at as int, len as int, ctx as int),
{
    let v = chars_of(blob);
    let n: usize = v.len();
    let s: usize = window_start(at, ctx, n);
    let e: usize = window_end(at, len, ctx, n);
    let mut out = String::new();
    if s > 0 {
        out.append("…");
    }
    let mid = slice(&v, s, e);
    out.append(&mid);
    if e < n {
        out.append("…");
    }
    assert(out@ =~= window_of(blob@, at as int, len as int, ctx as int));
    out
}

/// Where a term is in the text, as a CHARACTER offset, and how long it is.
pub fn find_at(hay: &str, term: &str) -> (r: Option<(usize, usize)>)
    ensures
        match r {
            Some((at, len)) => text::find(hay@, term@) == Some(at as int) && len == term@.len(),
            None => text::find(hay@, term@) is None,
        },
{
    let v = chars_of(hay);
    let t = chars_of(term);
    match text::find_at(&v, &t, 0) {
        Some(at) => Some((at, t.len())),
        None => None,
    }
}

/// The windows round the first place each term stands, if they all do.
pub open spec fn windows_of(blob: Seq<char>, hay: Seq<char>, terms: Seq<Seq<char>>) -> Option<
    Seq<Seq<char>>,
>
    decreases terms.len(),
{
    if terms.len() == 0 {
        Some(Seq::empty())
    } else {
        match (windows_of(blob, hay, terms.drop_last()), text::find(hay, terms.last())) {
            (Some(w), Some(at)) => Some(
                w.push(window_of(blob, at, terms.last().len() as int, ROW_CTX as int)),
            ),
            _ => None,
        }
    }
}

/// Why a row is in the list. Every term has to be in the blob.
pub open spec fn snippet(blob: Seq<char>, q: QueryView) -> Option<Seq<char>> {
    match windows_of(blob, searched(q, blob), q.terms) {
        Some(w) => if w.len() > 0 {
            Some(text::joined(w, " · "@))
        } else {
            None
        },
        None => None,
    }
}

proof fn lemma_no_windows(blob: Seq<char>, hay: Seq<char>, terms: Seq<Seq<char>>, n: int)
    requires
        0 <= n <= terms.len(),
        windows_of(blob, hay, terms.take(n)) is None,
    ensures
        windows_of(blob, hay, terms) is None,
    decreases terms.len() - n,
{
    if n < terms.len() {
        assert(terms.take(n + 1).drop_last() =~= terms.take(n));
        lemma_no_windows(blob, hay, terms, n + 1);
    } else {
        assert(terms.take(n) =~= terms);
    }
}

/// What an index file says of its pane, if it can be read.
pub open spec fn blob_of(file: Option<Seq<char>>) -> Option<Seq<char>> {
    match file {
        Some(f) => match entry(f) {
            Some((_, blob)) => Some(blob),
            None => None,
        },
        None => None,
    }
}

/// Is a text searched by its letters, if it is ASCII?
pub open spec fn searched_by_letters(q: QueryView, blob: Seq<char>) -> bool {
    text::ascii(blob) ==> searched(q, blob) == cased(q.fold, blob)
}

/// Is what an index file says searched by its letters?
pub open spec fn file_searched_by_letters(q: QueryView, file: Seq<char>) -> bool {
    match blob_of(Some(file)) {
        Some(blob) => searched_by_letters(q, blob),
        None => true,
    }
}

fn snippet_of(blob: &str, q: &Query) -> (r: Option<String>)
    ensures
        text::opt_string(r) == snippet(blob@, q@),
        searched_by_letters(q@, blob@),
{
    let hay = q.haystack(blob);
    let ghost ts = text::texts(q.terms@);
    let mut parts: Vec<String> = Vec::new();
    let mut i: usize = 0;
    assert(text::texts(parts@) =~= Seq::empty());
    assert(ts.take(0).len() == 0);
    while i < q.terms.len()
        invariant
            i <= q.terms@.len(),
            ts == text::texts(q.terms@),
            hay@ == searched(q@, blob@),
            searched_by_letters(q@, blob@),
            windows_of(blob@, hay@, ts.take(i as int)) == Some(text::texts(parts@)),
            parts@.len() == i,
        decreases q.terms@.len() - i,
    {
        assert(ts.take(i + 1).drop_last() =~= ts.take(i as int));
        assert(ts.take(i + 1).last() == q.terms@[i as int]@);
        match find_at(&hay, &q.terms[i]) {
            Some((at, len)) => {
                let w = window(blob, at, len, ROW_CTX);
                proof {
                    text::lemma_texts_push(parts@, w);
                }
                parts.push(w);
            },
            None => {
                proof {
                    lemma_no_windows(blob@, hay@, ts, i + 1);
                }
                return None;
            },
        }
        i = i + 1;
    }
    assert(ts.take(ts.len() as int) =~= ts);
    if parts.len() == 0 {
        None
    } else {
        Some(text::join(&parts, " · "))
    }
}

/// The snippets of the index files, each under the pane it is about.
pub open spec fn snippets_of(files: Seq<Seq<char>>, q: QueryView) -> Map<Seq<char>, Seq<char>>
    decreases files.len(),
{
    if files.len() == 0 {
        Map::empty()
    } else {
        let rest = snippets_of(files.drop_last(), q);
        match entry(files.last()) {
            Some((pane, blob)) => match snippet(blob, q) {
                Some(s) => rest.insert(pane, s),
                None => rest,
            },
            None => rest,
        }
    }
}

/// Pane id to the snippet that says why that row is in the list, from the contents
/// of the index files.
///
/// Every term has to be in the blob, the same rule the row is kept by. A row whose
/// session merely mentions one of them is not a hit. What was said in ASCII is
/// searched letter by letter, whatever the case where the case is ignored.
pub fn snippets(q: &Query, files: &Vec<String>) -> (r: Table)
    ensures
        r@ == snippets_of(text::texts(files@), q@),
        forall|i: int|
            0 <= i < files@.len() ==> file_searched_by_letters(q@, (#[trigger] files@[i])@),
{
    let ghost fs = text::texts(files@);
    let mut out = Table::new();
    let mut i: usize = 0;
    assert(out@ =~= snippets_of(fs.take(0), q@));
    while i < files.len()
        invariant
            i <= files@.len(),
            fs == text::texts(files@),
            out@ == snippets_of(fs.take(i as int), q@),
            forall|k: int|
                0 <= k < i ==> file_searched_by_letters(q@, (#[trigger] files@[k])@),
        decreases files@.len() - i,
    {
        assert(fs.take(i + 1).drop_last() =~= fs.take(i as int));
        assert(fs.take(i + 1).last() == files@[i as int]@);
        if let Some((pane, blob)) = read_entry(&files[i]) {
            if let Some(s) = snippet_of(&blob, q) {
                out.insert(pane, s);
            }
        }
        i = i + 1;
    }
    assert(fs.take(fs.len() as int) =~= fs);
    out
}

/// One place a term lands, split so the caller can pick the term out however it
/// draws.
#[derive(Debug, PartialEq, Eq)]
pub struct Hit {
    pub before: String,
    pub term: String,
    pub after: String,
    /// Whether text was cut off that side, i.e. whether an ellipsis belongs there.
    pub cut_left: bool,
    pub cut_right: bool,
}

#[verifier::ext_equal]
pub struct HitView {
    pub before: Seq<char>,
    pub term: Seq<char>,
    pub after: Seq<char>,
    pub cut_left: bool,
    pub cut_right: bool,
}

impl View for Hit {
    type V = HitView;

    open spec fn view(&self) -> HitView {
        HitView {
            before: self.before@,
            term: self.term@,
            after: self.after@,
            cut_left: self.cut_left,
            cut_right: self.cut_right,
        }
    }
}

pub open spec fn hits_view(v: Seq<Hit>) -> Seq<HitView> {
    v.map_values(|h: Hit| h@)
}

/// The hit at a place, with the context of the preview.
pub open spec fn hit_at(blob: Seq<char>, at: int, len: int) -> HitView {
    let n = blob.len() as int;
    let s = context_start(at, PREVIEW_CTX as int, n);
    let e = context_end(at, len, PREVIEW_CTX as int, n);
    HitView {
        before: blob.subrange(s, least(at, n)),
        term: blob.subrange(least(at, n), least(at + len, n)),
        after: blob.subrange(least(at + len, e), e),
        cut_left: s > 0,
        cut_right: e < n,
    }
}

fn hit(v: &Vec<char>, at: usize, len: usize) -> (r: Hit)
    ensures
        r@ == hit_at(v@, at as int, len as int),
{
    let n: usize = v.len();
    let s: usize = window_start(at, PREVIEW_CTX, n);
    let e: usize = window_end(at, len, PREVIEW_CTX, n);
    let a: usize = if at < n {
        at
    } else {
        n
    };
    let b: usize = window_end(at, len, 0, n);
    let c: usize = window_end(at, len, 0, e);
    Hit {
        before: slice(v, s, a),
        term: slice(v, a, b),
        after: slice(v, c, e),
        cut_left: s > 0,
        cut_right: e < n,
    }
}

/// The hits of a term from a place on, at most so many.
pub open spec fn hits_from(
    blob: Seq<char>,
    hay: Seq<char>,
    term: Seq<char>,
    from: int,
    want: nat,
) -> Seq<HitView>
    decreases want,
{
    if want == 0 {
        Seq::empty()
    } else {
        match text::find_from(hay, term, from) {
            Some(i) => seq![hit_at(blob, i, term.len() as int)] + hits_from(
                blob,
                hay,
                term,
                i + term.len(),
                (want - 1) as nat,
            ),
            None => Seq::empty(),
        }
    }
}

pub open spec fn all_stand(hay: Seq<char>, terms: Seq<Seq<char>>) -> bool {
    forall|i: int| 0 <= i < terms.len() ==> text::has(hay, #[trigger] terms[i])
}

/// The hits to show for an index file, if it can be read.
pub open spec fn hits_in(file: Option<Seq<char>>, q: QueryView, want: nat) -> Seq<HitView> {
    match file {
        None => Seq::empty(),
        Some(f) => match entry(f) {
            None => Seq::empty(),
            Some((_, blob)) => {
                let hay = searched(q, blob);
                if q.terms.len() == 0 || !all_stand(hay, q.terms) || q.terms[0].len() == 0 {
                    Seq::empty()
                } else {
                    hits_from(blob, hay, q.terms[0], 0, want)
                }
            },
        },
    }
}

fn every_term_stands(hay: &str, q: &Query) -> (r: bool)
    ensures
        r == all_stand(hay@, q@.terms),
{
    let ghost ts = text::texts(q.terms@);
    let mut i: usize = 0;
    while i < q.terms.len()
        invariant
            i <= q.terms@.len(),
            ts == text::texts(q.terms@),
            forall|k: int| 0 <= k < i ==> text::has(hay@, #[trigger] ts[k]),
        decreases q.terms@.len() - i,
    {
        assert(ts[i as int] == q.terms@[i as int]@);
        if !contains(hay, &q.terms[i]) {
            return false;
        }
        i = i + 1;
    }
    true
}

proof fn lemma_hits_are_shown(file: Option<Seq<char>>, q: QueryView, want: nat, blob: Seq<char>)
    requires
        blob_of(file) == Some(blob),
        want > 0,
        q.terms.len() > 0,
        q.terms[0].len() > 0,
    ensures
        hits_in(file, q, want).len() > 0 <==> all_stand(searched(q, blob), q.terms),
{
    text::lemma_find_is_has(searched(q, blob), q.terms[0]);
}

/// The wide version, for the preview: several windows of context rather than one.
/// `file` is what the pane's index file holds.
///
/// Context is around the FIRST term, which is the one the eye is looking for, but
/// every term still has to be in the blob: the same rule the row was kept by.
/// In what was said in ASCII, there is a hit exactly where every term stands in it,
/// whatever the case where the case is ignored.
pub fn preview_hits(file: Option<&str>, q: &Query, want: usize) -> (r: Vec<Hit>)
    ensures
        hits_view(r@) == hits_in(text::opt(file), q@, want as nat),
        forall|blob: Seq<char>|
            blob_of(text::opt(file)) == Some(blob) && #[trigger] text::ascii(blob) && want > 0
                && q@.terms.len() > 0 && q@.terms[0].len() > 0 ==> (r@.len() > 0 <==> all_stand(
                cased(q.fold, blob),
                q@.terms,
            )),
{
    let r = find_hits(file, q, want);
    proof {
        assert(hits_view(r@).len() == r@.len());
        if let Some(blob) = blob_of(text::opt(file)) {
            if want > 0 && q@.terms.len() > 0 && q@.terms[0].len() > 0 {
                lemma_hits_are_shown(text::opt(file), q@, want as nat, blob);
            }
        }
    }
    r
}

fn find_hits(file: Option<&str>, q: &Query, want: usize) -> (r: Vec<Hit>)
    ensures
        hits_view(r@) == hits_in(text::opt(file), q@, want as nat),
        match blob_of(text::opt(file)) {
            Some(blob) => searched_by_letters(q@, blob),
            None => true,
        },
{
    let mut out: Vec<Hit> = Vec::new();
    assert(hits_view(out@) =~= Seq::empty());
    let blob = match file {
        None => {
            return out;
        },
        Some(f) => match read_entry(f) {
            None => {
                return out;
            },
            Some((_, blob)) => blob,
        },
    };
    let hay = q.haystack(&blob);
    assert(q@.terms.len() == q.terms@.len());
    if q.terms.len() == 0 || !every_term_stands(&hay, q) {
        return out;
    }
    assert(q@.terms[0] == q.terms@[0]@);
    let term = chars_of(&q.terms[0]);
    if term.len() == 0 {
        return out;
    }
    let v = chars_of(&blob);
    let h = chars_of(&hay);
    let mut from: usize = 0;
    let mut left: usize = want;
    let ghost all = hits_from(blob@, hay@, term@, 0, want as nat);
    assert(hits_view(out@) + all =~= all);
    while left > 0
        invariant
            from <= h@.len(),
            v@ == blob@,
            h@ == hay@,
            blob_of(text::opt(file)) == Some(blob@),
            searched_by_letters(q@, blob@),
            hits_view(out@) + hits_from(blob@, hay@, term@, from as int, left as nat) == all,
            all == hits_in(text::opt(file), q@, want as nat),
        decreases left,
    {
        match text::find_at(&h, &term, from) {
            None => {
                assert(hits_view(out@) + hits_from(
                    blob@,
                    hay@,
                    term@,
                    from as int,
                    left as nat,
                ) =~= hits_view(out@));
                return out;
            },
            Some(i) => {
                let x = hit(&v, i, term.len());
                let ghost was = hits_view(out@);
                let ghost xv = x@;
                let ghost rest = hits_from(
                    blob@,
                    hay@,
                    term@,
                    i + term@.len(),
                    (left - 1) as nat,
                );
                out.push(x);
                assert(hits_view(out@) =~= was.push(xv));
                assert(was + (seq![xv] + rest) =~= was.push(xv) + rest);
                from = i + term.len();
                left = left - 1;
            },
        }
    }
    assert(hits_view(out@) + Seq::<HitView>::empty() =~= hits_view(out@));
    out
}

/// A mark, where something was cut.
pub open spec fn cut_mark(cut: bool) -> Seq<char> {
    if cut {
        "…"@
    } else {
        ""@
    }
}

pub open spec fn one_string(h: HitView) -> Seq<char> {
    cut_mark(h.cut_left) + h.before + h.term + h.after + cut_mark(h.cut_right)
}

fn mark(cut: bool) -> (r: &'static str)
    ensures
        r@ == cut_mark(cut),
{
    if cut {
        "…"
    } else {
        ""
    }
}

/// The same hits as one string each, for a caller that does its own styling.
pub fn preview_match(file: Option<&str>, q: &Query, want: usize) -> (r: Vec<String>)
    ensures
        text::texts(r@) == hits_in(text::opt(file), q@, want as nat).map_values(
            |h: HitView| one_string(h),
        ),
{
    let hits = preview_hits(file, q, want);
    let ghost hs = hits_in(text::opt(file), q@, want as nat);
    let mut out: Vec<String> = Vec::new();
    let mut i: usize = 0;
    while i < hits.len()
        invariant
            i <= hits@.len(),
            hs == hits_view(hits@),
            out@.len() == i,
            forall|k: int| 0 <= k < i ==> (#[trigger] out@[k])@ == one_string(hs[k]),
        decreases hits@.len() - i,
    {
        let h = &hits[i];
        assert(hs[i as int] == h@);
        let mut s = mark(h.cut_left).to_owned();
        s.append(&h.before);
        s.append(&h.term);
        s.append(&h.after);
        s.append(mark(h.cut_right));
        out.push(s);
        i = i + 1;
    }
    assert(text::texts(out@) =~= hs.map_values(|h: HitView| one_string(h)));
    out
}

// ---------------------------------------------------------------------------
// The sessions cache
// ---------------------------------------------------------------------------
/// One row of the sessions cache.
#[derive(Debug, PartialEq, Eq)]
pub struct Session {
    pub mtime: i64,
    /// `-` when no pane is on this conversation. Only ever a pane id for the one
    /// agent that publishes which conversation a pane is on.
    pub pane: String,
    /// Which tool wrote it.
    pub agent: String,
    /// What that tool calls it: a transcript path, or a session id for a store that
    /// keeps its conversations in a database.
    pub key: String,
    pub cwd: String,
    pub version: String,
    pub title: String,
    /// `t` for a title the session recorded, `p` for a prompt standing in for one.
    pub src: String,
}

#[verifier::ext_equal]
pub struct SessionView {
    pub mtime: i64,
    pub pane: Seq<char>,
    pub agent: Seq<char>,
    pub key: Seq<char>,
    pub cwd: Seq<char>,
    pub version: Seq<char>,
    pub title: Seq<char>,
    pub src: Seq<char>,
}

impl View for Session {
    type V = SessionView;

    open spec fn view(&self) -> SessionView {
        SessionView {
            mtime: self.mtime,
            pane: self.pane@,
            agent: self.agent@,
            key: self.key@,
            cwd: self.cwd@,
            version: self.version@,
            title: self.title@,
            src: self.src@,
        }
    }
}

pub open spec fn sessions_view(v: Seq<Session>) -> Seq<SessionView> {
    v.map_values(|s: Session| s@)
}

pub open spec fn header_line(now: int) -> Seq<char> {
    "sess "@ + text::decimal_int(now) + " 2\n"@
}

/// The header a sessions cache opens with.
pub fn header(now: i64) -> (r: String)
    ensures
        r@ == header_line(now as int),
{
    let mut s = "sess ".to_owned();
    let n = dec_int(now);
    s.append(&n);
    s.append(" 2\n");
    s
}

pub open spec fn session_on(line: Seq<char>) -> Option<SessionView> {
    let f = text::fields(line, '\t');
    if f.len() < 8 {
        None
    } else {
        Some(
            SessionView {
                mtime: match text::integer_i64(f[0]) {
                    Some(n) => n,
                    None => 0,
                },
                pane: f[1],
                agent: f[2],
                key: f[3],
                cwd: f[4],
                version: f[5],
                title: f[6],
                src: f[7],
            },
        )
    }
}

pub open spec fn sessions_on(ls: Seq<Seq<char>>) -> Seq<SessionView>
    decreases ls.len(),
{
    if ls.len() == 0 {
        Seq::empty()
    } else {
        match session_on(ls.last()) {
            Some(s) => sessions_on(ls.drop_last()).push(s),
            None => sessions_on(ls.drop_last()),
        }
    }
}

/// Is it a header of the format that is read here?
pub open spec fn readable(header: Seq<char>) -> bool {
    let f = text::fields(header, ' ');
    f.len() > 2 && f[2] == "2"@
}

/// The rows of a sessions cache.
pub open spec fn sessions_in(file: Seq<char>) -> Seq<SessionView> {
    let ls = text::lines_of(file);
    if ls.len() == 0 || !readable(ls[0]) {
        Seq::empty()
    } else {
        sessions_on(ls.skip(1))
    }
}

fn session_from(line: &str) -> (r: Option<Session>)
    ensures
        match r {
            Some(s) => session_on(line@) == Some(s@),
            None => session_on(line@) is None,
        },
{
    let f = split(line, '\t');
    let ghost fs = text::fields(line@, '\t');
    assert(fs.len() == f@.len());
    if f.len() < 8 {
        return None;
    }
    assert(forall|i: int| 0 <= i < 8 ==> #[trigger] fs[i] == f@[i]@);
    let mtime: i64 = match text::parse_i64(&f[0]) {
        Some(n) => n,
        None => 0,
    };
    Some(
        Session {
            mtime,
            pane: f[1].clone(),
            agent: f[2].clone(),
            key: f[3].clone(),
            cwd: f[4].clone(),
            version: f[5].clone(),
            title: f[6].clone(),
            src: f[7].clone(),
        },
    )
}

/// The rows of the sessions cache.
///
/// A cache written by another version is skipped rather than misread: its fields are
/// in different places, and this one is rewritten within a pass.
pub fn sessions(file: &str) -> (r: Vec<Session>)
    ensures
        sessions_view(r@) == sessions_in(file@),
{
    let ls = lines(file);
    let ghost all = text::texts(ls@);
    let mut out: Vec<Session> = Vec::new();
    assert(all.len() == ls@.len());
    assert(sessions_view(out@) =~= Seq::empty());
    if ls.len() == 0 {
        return out;
    }
    assert(all[0] == ls@[0]@);
    let head = split(&ls[0], ' ');
    assert(text::texts(head@).len() == head@.len());
    if head.len() <= 2 {
        return out;
    }
    assert(text::texts(head@)[2] == head@[2]@);
    if !same(&head[2], "2") {
        return out;
    }
    let ghost rest = all.skip(1);
    let mut i: usize = 1;
    assert(sessions_view(out@) =~= sessions_on(rest.take(0)));
    while i < ls.len()
        invariant
            1 <= i <= ls@.len(),
            all == text::texts(ls@),
            rest == all.skip(1),
            sessions_view(out@) == sessions_on(rest.take(i - 1)),
        decreases ls@.len() - i,
    {
        assert(rest.take(i as int).drop_last() =~= rest.take(i - 1));
        assert(rest.take(i as int).last() == ls@[i as int]@);
        if let Some(s) = session_from(&ls[i]) {
            let ghost was = sessions_view(out@);
            let ghost sv = s@;
            out.push(s);
            assert(sessions_view(out@) =~= was.push(sv));
        }
        i = i + 1;
    }
    assert(rest.take(rest.len() as int) =~= rest);
    out
}

// ---------------------------------------------------------------------------
// The past list
// ---------------------------------------------------------------------------
pub open spec fn past(agent: Seq<char>, key: Seq<char>) -> Seq<char> {
    "dead:"@ + agent + ":"@ + key
}

/// The picker's id for a past conversation: `dead:<agent>:<key>`.
///
/// A past session has no pane, so the row needs a name of its own, and that name has
/// to carry the agent as well as the key: the key alone says which conversation but
/// not which tool knows how to open it.
pub fn past_id(agent: &str, key: &str) -> (r: String)
    ensures
        r@ == past(agent@, key@),
{
    let mut s = "dead:".to_owned();
    s.append(agent);
    s.append(":");
    s.append(key);
    s
}

pub open spec fn past_parts(id: Seq<char>) -> Option<(Seq<char>, Seq<char>)> {
    match text::without_prefix(id, "dead:"@) {
        None => None,
        Some(rest) => match text::cut(rest, ':') {
            None => None,
            Some((agent, key)) => if agent.len() > 0 && key.len() > 0 {
                Some((agent, key))
            } else {
                None
            },
        },
    }
}

/// The agent and key back out of a row id, or None where it is not one.
///
/// The key can itself contain colons (a path can), so this splits ONCE.
pub fn split_past_id(id: &str) -> (r: Option<(String, String)>)
    ensures
        match r {
            Some((agent, key)) => past_parts(id@) == Some((agent@, key@)),
            None => past_parts(id@) is None,
        },
{
    match text::strip_prefix(id, "dead:") {
        None => None,
        Some(rest) => match text::split_once(&rest, ':') {
            None => None,
            Some((agent, key)) => {
                if !agent.as_str().is_empty() && !key.as_str().is_empty() {
                    Some((agent, key))
                } else {
                    None
                }
            },
        },
    }
}

pub open spec fn age_of(then: int, now: int) -> Seq<char> {
    let d = now - then;
    if d < 0 {
        "now"@
    } else if d < 3600 {
        text::decimal((d / 60) as nat) + "m"@
    } else if d < 172800 {
        text::decimal((d / 3600) as nat) + "h"@
    } else {
        text::decimal((d / 86400) as nat) + "d"@
    }
}

/// How long ago, in one column's worth: minutes under the hour, hours under two
/// days, days after that. A rounded age is what you actually remember a session by.
pub fn age(then: i64, now: i64) -> (r: String)
    ensures
        r@ == age_of(then as int, now as int),
{
    let d: i128 = now as i128 - then as i128;
    if d < 0 {
        return "now".to_owned();
    }
    let n: u64 = d as u64;
    if n < 3600 {
        let mut s = text::dec(n / 60);
        s.append("m");
        s
    } else if n < 172800 {
        let mut s = text::dec(n / 3600);
        s.append("h");
        s
    } else {
        let mut s = text::dec(n / 86400);
        s.append("d");
        s
    }
}

/// A past conversation as a row of the list, in the fields a pane's row has.
pub open spec fn dead_row(e: SessionView, now: int) -> Seq<char> {
    past(e.agent, e.key) + "\t"@ + age_of(e.mtime as int, now) + "\t"@ + (if e.cwd.len() == 0 {
        "?"@
    } else {
        e.cwd
    }) + "\t"@ + e.agent + "\t"@ + e.version + "\tdead\t-\t"@ + (if e.title.len() == 0 {
        "(no title)"@
    } else {
        e.title
    })
}

/// The rows of those conversations that no pane is on.
pub open spec fn ended(es: Seq<SessionView>, now: int) -> Seq<Seq<char>>
    decreases es.len(),
{
    if es.len() == 0 {
        Seq::empty()
    } else if es.last().pane != "-"@ {
        ended(es.drop_last(), now)
    } else {
        ended(es.drop_last(), now).push(dead_row(es.last(), now))
    }
}

pub open spec fn dead_list(file: Option<Seq<char>>, now: int) -> Seq<char> {
    match file {
        None => "dead:!\t-\t-\t-\t\tdead\t-\tstill reading your conversations…\n"@,
        Some(f) => text::as_lines(ended(sessions_in(f), now)),
    }
}

fn dead_line(e: &Session, now: i64) -> (r: String)
    ensures
        r@ == dead_row(e@, now as int),
{
    let mut s = past_id(&e.agent, &e.key);
    s.append("\t");
    let a = age(e.mtime, now);
    s.append(&a);
    s.append("\t");
    if e.cwd.as_str().is_empty() {
        s.append("?");
    } else {
        s.append(&e.cwd);
    }
    s.append("\t");
    s.append(&e.agent);
    s.append("\t");
    s.append(&e.version);
    s.append("\tdead\t-\t");
    if e.title.as_str().is_empty() {
        s.append("(no title)");
    } else {
        s.append(&e.title);
    }
    s
}

/// The past-sessions list, in the same eight fields a pane row has so the layout does
/// not have to know the difference. `file` is what the sessions cache holds, if there
/// is one: before the first one is written the list says so.
///
/// **A session that is open in a pane is left out**, where that can be told, since it
/// is right there in every other list.
pub fn dead_rows(file: Option<&str>, now: i64) -> (r: String)
    ensures
        r@ == dead_list(text::opt(file), now as int),
{
    let f: &str = match file {
        None => {
            return "dead:!\t-\t-\t-\t\tdead\t-\tstill reading your conversations…\n".to_owned();
        },
        Some(f) => f,
    };
    let es = sessions(f);
    let ghost all = sessions_view(es@);
    let mut rows: Vec<String> = Vec::new();
    let mut i: usize = 0;
    assert(text::texts(rows@) =~= ended(all.take(0), now as int));
    while i < es.len()
        invariant
            i <= es@.len(),
            all == sessions_view(es@),
            text::texts(rows@) == ended(all.take(i as int), now as int),
        decreases es@.len() - i,
    {
        assert(all.take(i + 1).drop_last() =~= all.take(i as int));
        assert(all.take(i + 1).last() == es@[i as int]@);
        if same(&es[i].pane, "-") {
            let row = dead_line(&es[i], now);
            proof {
                text::lemma_texts_push(rows@, row);
            }
            rows.push(row);
        }
        i = i + 1;
    }
    assert(all.take(all.len() as int) =~= all);
    text::end_lines(&rows)
}

/// The titles that live panes may borrow.
pub open spec fn titles_of(es: Seq<SessionView>) -> Map<Seq<char>, Seq<char>>
    decreases es.len(),
{
    if es.len() == 0 {
        Map::empty()
    } else {
        let rest = titles_of(es.drop_last());
        let e = es.last();
        if e.pane != "-"@ && e.title.len() > 0 && e.src == "t"@ {
            rest.insert(e.pane, e.title)
        } else {
            rest
        }
    }
}

/// Pane id to the title its conversation recorded, for a live pane that publishes
/// none of its own.
///
/// Only a REAL title (`t`), never a last prompt.
pub fn pane_titles(file: &str) -> (r: Table)
    ensures
        r@ == titles_of(sessions_in(file@)),
{
    let es = sessions(file);
    let ghost all = sessions_view(es@);
    let mut out = Table::new();
    let mut i: usize = 0;
    assert(out@ =~= titles_of(all.take(0)));
    while i < es.len()
        invariant
            i <= es@.len(),
            all == sessions_view(es@),
            out@ == titles_of(all.take(i as int)),
        decreases es@.len() - i,
    {
        assert(all.take(i + 1).drop_last() =~= all.take(i as int));
        assert(all.take(i + 1).last() == es@[i as int]@);
        let e = &es[i];
        if !same(&e.pane, "-") && !e.title.as_str().is_empty() && same(&e.src, "t") {
            out.insert(e.pane.clone(), e.title.clone());
        }
        i = i + 1;
    }
    assert(all.take(all.len() as int) =~= all);
    out
}

// ---------------------------------------------------------------------------
// Laws
// ---------------------------------------------------------------------------
proof fn lemma_windows_stand(blob: Seq<char>, hay: Seq<char>, terms: Seq<Seq<char>>)
    ensures
        windows_of(blob, hay, terms) is Some <==> all_stand(hay, terms),
        windows_of(blob, hay, terms) matches Some(w) ==> w.len() == terms.len(),
    decreases terms.len(),
{
    if terms.len() > 0 {
        let front = terms.drop_last();
        lemma_windows_stand(blob, hay, front);
        text::lemma_find_is_has(hay, terms.last());
        if all_stand(hay, front) && text::has(hay, terms.last()) {
            assert forall|i: int| 0 <= i < terms.len() implies text::has(hay, #[trigger] terms[i]) by {
                if i < front.len() {
                    assert(front[i] == terms[i]);
                }
            }
        }
        if all_stand(hay, terms) {
            assert forall|i: int| 0 <= i < front.len() implies text::has(hay, #[trigger] front[i]) by {
                assert(front[i] == terms[i]);
            }
            assert(text::has(hay, terms[terms.len() - 1]));
        }
    }
}

/// Does an index file say of this pane every term of the query?
pub open spec fn says_all_of(file: Seq<char>, pane: Seq<char>, q: QueryView) -> bool {
    match entry(file) {
        Some((p, blob)) => p == pane && q.terms.len() > 0 && all_stand(searched(q, blob), q.terms),
        None => false,
    }
}

/// A pane is found exactly where one of its index files says every term of the query:
/// a session that merely mentions one of them is no hit.
pub proof fn lemma_a_hit_says_every_term(files: Seq<Seq<char>>, pane: Seq<char>, q: QueryView)
    ensures
        snippets_of(files, q).dom().contains(pane) <==> exists|i: int|
            0 <= i < files.len() && says_all_of(#[trigger] files[i], pane, q),
    decreases files.len(),
{
    if files.len() > 0 {
        let front = files.drop_last();
        let last = files[files.len() - 1];
        lemma_a_hit_says_every_term(front, pane, q);
        if let Some((_, blob)) = entry(last) {
            lemma_windows_stand(blob, searched(q, blob), q.terms);
        }
        if exists|i: int| 0 <= i < front.len() && says_all_of(#[trigger] front[i], pane, q) {
            let i = choose|i: int| 0 <= i < front.len() && says_all_of(#[trigger] front[i], pane, q);
            assert(says_all_of(files[i], pane, q));
        }
        if exists|i: int| 0 <= i < files.len() && says_all_of(#[trigger] files[i], pane, q) {
            let i = choose|i: int| 0 <= i < files.len() && says_all_of(#[trigger] files[i], pane, q);
            if i < front.len() {
                assert(says_all_of(front[i], pane, q));
            }
        }
    }
}

/// A past row's id comes apart into the agent and the key it was made of, colons in
/// the key and all.
pub proof fn lemma_a_past_id_comes_apart(agent: Seq<char>, key: Seq<char>)
    requires
        agent.len() > 0,
        key.len() > 0,
        text::free_of(agent, ':'),
    ensures
        past_parts(past(agent, key)) == Some((agent, key)),
{
    let id = past(agent, key);
    let rest = agent + ":"@ + key;
    reveal_strlit("dead:");
    reveal_strlit(":");
    assert(id =~= "dead:"@ + rest);
    assert("dead:"@.is_prefix_of(id));
    assert(id.skip(5) =~= rest);
    text::lemma_find_char(rest, ':', 0);
    let i = text::find_char(rest, ':', 0);
    assert(rest[agent.len() as int] == ':');
    assert(forall|k: int| 0 <= k < agent.len() ==> rest[k] == agent[k]);
    assert(i == Some(agent.len() as int));
    assert(rest.take(agent.len() as int) =~= agent);
    assert(rest.skip(agent.len() as int + 1) =~= key);
}

/// A live pane's id is never taken for a past conversation.
pub proof fn lemma_a_pane_is_no_past_row(id: Seq<char>)
    requires
        id.len() > 0,
        id[0] == '%',
    ensures
        past_parts(id) is None,
{
    reveal_strlit("dead:");
    if "dead:"@.is_prefix_of(id) {
        assert(id[0] == "dead:"@[0]);
    }
}

/// A session that a pane is on is not in the past list: what is listed are rows of
/// sessions that none is on.
pub proof fn lemma_an_open_session_is_not_past(es: Seq<SessionView>, now: int, i: int)
    requires
        0 <= i < ended(es, now).len(),
    ensures
        exists|k: int|
            0 <= k < es.len() && (#[trigger] es[k]).pane == "-"@ && ended(es, now)[i] == dead_row(
                es[k],
                now,
            ),
    decreases es.len(),
{
    let last = es.len() - 1;
    let rest = ended(es.drop_last(), now);
    if es.last().pane != "-"@ || i < rest.len() {
        lemma_an_open_session_is_not_past(es.drop_last(), now, i);
        let k = choose|k: int|
            0 <= k < es.drop_last().len() && (#[trigger] es.drop_last()[k]).pane == "-"@
                && ended(es.drop_last(), now)[i] == dead_row(es.drop_last()[k], now);
        assert(es[k] == es.drop_last()[k]);
        assert(es[k].pane == "-"@ && ended(es, now)[i] == dead_row(es[k], now));
    } else {
        assert(es[last].pane == "-"@ && ended(es, now)[i] == dead_row(es[last], now));
    }
}

/// A cache that opens with this header is read, and any rows that follow are its
/// rows.
pub proof fn lemma_a_cache_is_read_under_its_header(now: int, body: Seq<char>)
    requires
        i64::MIN <= now <= i64::MAX,
    ensures
        sessions_in(header_line(now) + body) == sessions_on(text::lines_of(body)),
{
    let n = text::decimal_int(now);
    let head = "sess "@ + n + " 2"@;
    reveal_strlit("sess ");
    reveal_strlit("sess");
    reveal_strlit(" 2\n");
    reveal_strlit(" 2");
    reveal_strlit("2");
    lemma_number_is_plain(now);
    assert(header_line(now) + body =~= head + seq!['\n'] + body);
    assert(text::free_of(head, '\n'));
    assert(head.len() > 0 && head.last() == '2');
    text::lemma_first_line(head, body);
    let ls = text::lines_of(header_line(now) + body);
    assert(ls == seq![text::chomped(head)] + text::lines_of(body));
    assert(text::chomped(head) == head);
    assert(ls.skip(1) =~= text::lines_of(body));
    assert(head =~= "sess"@ + seq![' '] + (n + seq![' '] + "2"@));
    text::lemma_first_field("sess"@, ' ', n + seq![' '] + "2"@);
    text::lemma_first_field(n, ' ', "2"@);
    text::lemma_one_field("2"@, ' ');
    assert(text::fields(head, ' ') =~= seq!["sess"@, n, "2"@]);
}

/// A number in a text is digits and perhaps a sign: no space and no line feed.
proof fn lemma_number_is_plain(n: int)
    ensures
        text::free_of(text::decimal_int(n), ' '),
        text::free_of(text::decimal_int(n), '\n'),
{
    reveal_strlit("-");
    text::lemma_decimal(n as nat);
    text::lemma_decimal((-n) as nat);
}

/// A past conversation is listed in eight fields: its id, how long ago, where it was held,
/// its agent, its version, that it has ended, no mode, and its title.
pub proof fn lemma_the_fields_of_a_past_row(e: SessionView, now: int)
    requires
        text::free_of(e.agent, '\t'),
        text::free_of(e.key, '\t'),
        text::free_of(e.cwd, '\t'),
        text::free_of(e.version, '\t'),
        text::free_of(e.title, '\t'),
    ensures
        text::fields(dead_row(e, now), '\t') == seq![
            "dead:"@ + e.agent + ":"@ + e.key,
            age_of(e.mtime as int, now),
            if e.cwd.len() == 0 {
                "?"@
            } else {
                e.cwd
            },
            e.agent,
            e.version,
            "dead"@,
            "-"@,
            if e.title.len() == 0 {
                "(no title)"@
            } else {
                e.title
            },
        ],
{
    let id = "dead:"@ + e.agent + ":"@ + e.key;
    let age = age_of(e.mtime as int, now);
    let cwd = if e.cwd.len() == 0 {
        "?"@
    } else {
        e.cwd
    };
    let title = if e.title.len() == 0 {
        "(no title)"@
    } else {
        e.title
    };
    reveal_strlit("\t");
    reveal_strlit("dead:");
    reveal_strlit(":");
    reveal_strlit("?");
    reveal_strlit("-");
    reveal_strlit("dead");
    reveal_strlit("\tdead\t-\t");
    reveal_strlit("(no title)");
    assert("\t"@ =~= seq!['\t']);
    assert("\tdead\t-\t"@ =~= seq!['\t'] + "dead"@ + seq!['\t'] + "-"@ + seq!['\t']);
    lemma_an_age_is_one_word(e.mtime as int, now);
    assert(text::free_of(id, '\t')) by {
        assert forall|i: int| 0 <= i < id.len() implies id[i] != '\t' by {
            let a = "dead:"@.len() as int;
            let b = a + e.agent.len();
            if i < a {
                assert(id[i] == "dead:"@[i]);
            } else if i < b {
                assert(id[i] == e.agent[i - a]);
            } else if i > b {
                assert(id[i] == e.key[i - b - 1]);
            }
        }
    }
    let h = "-"@ + seq!['\t'] + title;
    let g = "dead"@ + seq!['\t'] + h;
    let f = e.version + seq!['\t'] + g;
    let d = e.agent + seq!['\t'] + f;
    let c = cwd + seq!['\t'] + d;
    let b = age + seq!['\t'] + c;
    assert(dead_row(e, now) =~= id + seq!['\t'] + b);
    text::lemma_first_field(id, '\t', b);
    text::lemma_first_field(age, '\t', c);
    text::lemma_first_field(cwd, '\t', d);
    text::lemma_first_field(e.agent, '\t', f);
    text::lemma_first_field(e.version, '\t', g);
    text::lemma_first_field("dead"@, '\t', h);
    text::lemma_first_field("-"@, '\t', title);
    text::lemma_one_field(title, '\t');
    assert(text::fields(dead_row(e, now), '\t') =~= seq![
        id,
        age,
        cwd,
        e.agent,
        e.version,
        "dead"@,
        "-"@,
        title,
    ]);
}

proof fn lemma_an_age_is_one_word(then: int, now: int)
    ensures
        text::free_of(age_of(then, now), '\t'),
{
    let d = now - then;
    reveal_strlit("now");
    reveal_strlit("m");
    reveal_strlit("h");
    reveal_strlit("d");
    if d >= 0 {
        let n = if d < 3600 {
            (d / 60) as nat
        } else if d < 172800 {
            (d / 3600) as nat
        } else {
            (d / 86400) as nat
        };
        let s = text::decimal(n);
        text::lemma_decimal(n);
        assert forall|i: int| 0 <= i < s.len() implies s[i] != '\t' by {
            assert(text::is_digit(s[i]));
        }
    }
}

/// How long ago is told in whole minutes under an hour, in whole hours under two days, and
/// in whole days from then on; what lies ahead is now.
pub proof fn lemma_an_age_is_told_in_whole_units(then: int, now: int, n: nat)
    ensures
        now < then ==> age_of(then, now) == "now"@,
        now - then < 3600 && n * 60 <= now - then < (n + 1) * 60 ==> age_of(then, now)
            == text::decimal(n) + "m"@,
        3600 <= now - then < 172800 && n * 3600 <= now - then < (n + 1) * 3600 ==> age_of(then, now)
            == text::decimal(n) + "h"@,
        172800 <= now - then && n * 86400 <= now - then < (n + 1) * 86400 ==> age_of(then, now)
            == text::decimal(n) + "d"@,
{
}

/// Every conversation that no pane is on is in the list, and the list holds no other row.
pub proof fn lemma_every_ended_session_is_listed(es: Seq<SessionView>, now: int, row: Seq<char>)
    ensures
        ended(es, now).contains(row) <==> exists|i: int|
            0 <= i < es.len() && (#[trigger] es[i]).pane == "-"@ && dead_row(es[i], now) == row,
    decreases es.len(),
{
    let all = ended(es, now);
    if es.len() > 0 {
        let front = es.drop_last();
        lemma_every_ended_session_is_listed(front, now, row);
        let rest = ended(front, now);
        if rest.contains(row) {
            let k = choose|k: int| 0 <= k < rest.len() && rest[k] == row;
            assert(all[k] == row);
            let i = choose|i: int|
                0 <= i < front.len() && (#[trigger] front[i]).pane == "-"@ && dead_row(
                    front[i],
                    now,
                ) == row;
            assert(es[i] == front[i]);
        } else {
            if all.contains(row) {
                let k = choose|k: int| 0 <= k < all.len() && all[k] == row;
                if k < rest.len() {
                    assert(rest[k] == row);
                }
                assert(es[es.len() - 1].pane == "-"@);
            }
            if exists|i: int|
                0 <= i < es.len() && (#[trigger] es[i]).pane == "-"@ && dead_row(es[i], now)
                    == row {
                let i = choose|i: int|
                    0 <= i < es.len() && (#[trigger] es[i]).pane == "-"@ && dead_row(es[i], now)
                        == row;
                if i < front.len() {
                    assert(front[i] == es[i]);
                } else {
                    assert(all.last() == row);
                }
            }
        }
    }
}

/// A snippet is given exactly where every term stands in what was said, and there is one;
/// it holds what stands where each of them was first found.
pub proof fn lemma_a_snippet_shows_every_term(blob: Seq<char>, q: QueryView, i: int)
    requires
        searched(q, blob).len() == blob.len(),
    ensures
        snippet(blob, q) is Some <==> q.terms.len() > 0 && all_stand(searched(q, blob), q.terms),
        0 <= i < q.terms.len() && snippet(blob, q) is Some ==> ({
            let at = text::find(searched(q, blob), q.terms[i]);
            at is Some && text::has(
                snippet(blob, q)->0,
                blob.subrange(at->0, at->0 + q.terms[i].len()),
            )
        }),
{
    let hay = searched(q, blob);
    lemma_windows(blob, hay, q.terms);
    if 0 <= i < q.terms.len() && snippet(blob, q) is Some {
        let w = windows_of(blob, hay, q.terms)->0;
        let t = q.terms[i];
        lemma_one_window(blob, hay, q.terms, i);
        let at = text::find(hay, t)->0;
        text::lemma_find_from(hay, t, 0);
        let (a, b) = lemma_window_holds(blob, at, t.len() as int);
        let part = blob.subrange(at, at + t.len());
        let (c, d) = lemma_joined_holds(w, " · "@, i);
        let s = text::joined(w, " · "@);
        assert(s =~= (c + a) + part + (b + d));
        text::lemma_has_middle(c + a, part, b + d);
    }
}

proof fn lemma_windows(blob: Seq<char>, hay: Seq<char>, terms: Seq<Seq<char>>)
    ensures
        windows_of(blob, hay, terms) is Some <==> all_stand(hay, terms),
        windows_of(blob, hay, terms) is Some ==> windows_of(blob, hay, terms)->0.len()
            == terms.len(),
    decreases terms.len(),
{
    if terms.len() > 0 {
        let front = terms.drop_last();
        lemma_windows(blob, hay, front);
        text::lemma_find_is_has(hay, terms.last());
        if all_stand(hay, terms) {
            assert forall|i: int| 0 <= i < front.len() implies text::has(hay, #[trigger] front[i]) by {
                assert(front[i] == terms[i]);
            }
            assert(text::has(hay, terms[terms.len() - 1]));
        } else if windows_of(blob, hay, terms) is Some {
            let i = choose|i: int| 0 <= i < terms.len() && !text::has(hay, #[trigger] terms[i]);
            if i < front.len() {
                assert(front[i] == terms[i]);
            }
        }
    }
}

proof fn lemma_one_window(blob: Seq<char>, hay: Seq<char>, terms: Seq<Seq<char>>, i: int)
    requires
        0 <= i < terms.len(),
        windows_of(blob, hay, terms) is Some,
    ensures
        i < windows_of(blob, hay, terms)->0.len(),
        text::find(hay, terms[i]) is Some,
        windows_of(blob, hay, terms)->0[i] == window_of(
            blob,
            text::find(hay, terms[i])->0,
            terms[i].len() as int,
            20,
        ),
    decreases terms.len(),
{
    lemma_windows(blob, hay, terms);
    lemma_windows(blob, hay, terms.drop_last());
    if i < terms.len() - 1 {
        lemma_one_window(blob, hay, terms.drop_last(), i);
    }
}

proof fn lemma_window_holds(blob: Seq<char>, at: int, len: int) -> (r: (Seq<char>, Seq<char>))
    requires
        0 <= at,
        0 <= len,
        at + len <= blob.len(),
    ensures
        window_of(blob, at, len, 20) == r.0 + blob.subrange(at, at + len) + r.1,
{
    let n = blob.len() as int;
    let s = context_start(at, 20, n);
    let e = context_end(at, len, 20, n);
    let a = (if s > 0 {
        "…"@
    } else {
        Seq::empty()
    }) + blob.subrange(s, at);
    let b = blob.subrange(at + len, e) + (if e < blob.len() {
        "…"@
    } else {
        Seq::empty()
    });
    assert(blob.subrange(s, e) =~= blob.subrange(s, at) + blob.subrange(at, at + len)
        + blob.subrange(at + len, e));
    assert(window_of(blob, at, len, 20) =~= a + blob.subrange(at, at + len) + b);
    (a, b)
}

proof fn lemma_joined_holds(v: Seq<Seq<char>>, sep: Seq<char>, i: int) -> (r: (
    Seq<char>,
    Seq<char>,
))
    requires
        0 <= i < v.len(),
    ensures
        text::joined(v, sep) == r.0 + v[i] + r.1,
    decreases v.len(),
{
    let none = Seq::<char>::empty();
    if v.len() == 1 {
        assert(text::joined(v, sep) =~= none + v[0] + none);
        (none, none)
    } else if i == v.len() - 1 {
        let a = text::joined(v.drop_last(), sep) + sep;
        assert(text::joined(v, sep) =~= a + v[i] + none);
        (a, none)
    } else {
        let (a, b) = lemma_joined_holds(v.drop_last(), sep, i);
        assert(text::joined(v, sep) =~= a + v[i] + (b + sep + v.last()));
        (a, b + sep + v.last())
    }
}

/// A hit is what was said around it, unbroken: what stands where the term was found, with
/// as much as forty-six characters on either side, and a mark where more was said there.
pub proof fn lemma_a_hit_is_what_was_said_around_it(blob: Seq<char>, at: int, len: int)
    requires
        0 <= at,
        0 <= len,
        at + len <= blob.len(),
    ensures
        ({
            let h = hit_at(blob, at, len);
            let from = if at > 46 {
                at - 46
            } else {
                0
            };
            let to = if at + len + 46 < blob.len() {
                at + len + 46
            } else {
                blob.len() as int
            };
            &&& h.term == blob.subrange(at, at + len)
            &&& h.before == blob.subrange(from, at)
            &&& h.after == blob.subrange(at + len, to)
            &&& h.cut_left == (at > 46)
            &&& h.cut_right == (at + len + 46 < blob.len())
            &&& text::has(one_string(h), blob.subrange(from, to))
        }),
{
    let h = hit_at(blob, at, len);
    let from = if at > 46 {
        at - 46
    } else {
        0
    };
    let to = if at + len + 46 < blob.len() {
        at + len + 46
    } else {
        blob.len() as int
    };
    let whole = blob.subrange(from, to);
    assert(whole =~= h.before + h.term + h.after);
    assert(one_string(h) =~= cut_mark(h.cut_left) + whole + cut_mark(h.cut_right));
    text::lemma_has_middle(cut_mark(h.cut_left), whole, cut_mark(h.cut_right));
}

/// The title of a pane is the one its conversation recorded as its title; the last entry
/// of the pane that has one stands.
pub proof fn lemma_a_pane_has_its_recorded_title(es: Seq<SessionView>, i: int)
    requires
        0 <= i < es.len(),
        es[i].pane != "-"@,
        es[i].title.len() > 0,
        es[i].src == "t"@,
        forall|j: int| i < j < es.len() ==> (#[trigger] es[j]).pane != es[i].pane,
    ensures
        titles_of(es).dom().contains(es[i].pane),
        titles_of(es)[es[i].pane] == es[i].title,
    decreases es.len(),
{
    if i < es.len() - 1 {
        let front = es.drop_last();
        assert(front[i] == es[i]);
        assert forall|j: int| i < j < front.len() implies (#[trigger] front[j]).pane
            != front[i].pane by {
            assert(front[j] == es[j]);
        }
        lemma_a_pane_has_its_recorded_title(front, i);
        assert(es[es.len() - 1].pane != es[i].pane);
    }
}

/// The list of past conversations is the rows of those that have ended, a line each; until
/// it has been built, it is one row that says so.
pub proof fn lemma_the_past_list_is_its_rows(file: Seq<char>, now: int, i: int)
    ensures
        dead_list(Some(file), now) == text::as_lines(ended(sessions_in(file), now)),
        text::fields(dead_list(None, now), '\t')[0] == "dead:!"@,
        0 <= i < sessions_in(file).len() && sessions_in(file)[i].pane == "-"@ ==> ended(
            sessions_in(file),
            now,
        ).contains(dead_row(sessions_in(file)[i], now)),
{
    reveal_strlit("dead:!");
    reveal_strlit("dead:!\t-\t-\t-\t\tdead\t-\tstill reading your conversations…\n");
    let s = "dead:!\t-\t-\t-\t\tdead\t-\tstill reading your conversations…\n"@;
    let rest = s.skip(7);
    assert(s =~= "dead:!"@ + seq!['\t'] + rest);
    text::lemma_first_field("dead:!"@, '\t', rest);
    if 0 <= i < sessions_in(file).len() {
        lemma_every_ended_session_is_listed(
            sessions_in(file),
            now,
            dead_row(sessions_in(file)[i], now),
        );
    }
}

/// The hits in what was said are where the first term stands, from the start and in order,
/// no more of them than are wanted, and none where another term does not stand.
pub proof fn lemma_the_first_hit_is_the_first_place(
    file: Seq<char>,
    pane: Seq<char>,
    blob: Seq<char>,
    q: QueryView,
    want: nat,
    at: int,
)
    requires
        entry(file) == Some((pane, blob)),
        q.terms.len() > 0,
        q.terms[0].len() > 0,
        want > 0,
    ensures
        all_stand(searched(q, blob), q.terms) && text::find(searched(q, blob), q.terms[0]) == Some(
            at,
        ) ==> hits_in(Some(file), q, want).len() > 0 && hits_in(Some(file), q, want)[0] == hit_at(
            blob,
            at,
            q.terms[0].len() as int,
        ),
        !all_stand(searched(q, blob), q.terms) ==> hits_in(Some(file), q, want).len() == 0,
        hits_in(Some(file), q, want).len() <= want,
        hits_in(None, q, want).len() == 0,
{
    lemma_no_more_than_wanted(blob, searched(q, blob), q.terms[0], 0, want);
}

proof fn lemma_no_more_than_wanted(
    blob: Seq<char>,
    hay: Seq<char>,
    term: Seq<char>,
    from: int,
    want: nat,
)
    ensures
        hits_from(blob, hay, term, from, want).len() <= want,
    decreases want,
{
    if want > 0 {
        match text::find_from(hay, term, from) {
            Some(i) => lemma_no_more_than_wanted(
                blob,
                hay,
                term,
                i + term.len(),
                (want - 1) as nat,
            ),
            None => {},
        }
    }
}

/// A query is its words, and case counts in it exactly where it holds a capital.
pub proof fn lemma_case_counts_where_it_is_typed(q: Seq<char>, line: Seq<char>)
    ensures
        query_of(q).terms == text::words_of(q),
        q == text::lowercase(q) ==> searched(query_of(q), line) == text::lowercase(line),
        q != text::lowercase(q) ==> searched(query_of(q), line) == line,
{
}

} // verus!
