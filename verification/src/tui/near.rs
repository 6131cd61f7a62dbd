//! Which row to open on when the pane the picker was opened from is not an agent
//! session, and so is not in the list at all.
//!
//! The question is "which of these sessions is the one I am working on", and the
//! best evidence for that is the DIRECTORY. A shell in `~/projects/web` and an
//! agent in `~/projects/web` are the same piece of work; one in
//! `~/projects/web/docs` very nearly is; one in `~/notes` is not. So the working
//! directory is the primary key and the tmux list only breaks its ties. Ties in
//! BOTH keep the list's own order.
use vstd::prelude::*;

use crate::rows;
use crate::rows::Row;
use crate::text;
use crate::text::{drop_empty, parse_u64, same, split, split_once};

verus! {

/// Path components, ignoring the empties a leading, doubled or trailing slash
/// leaves.
pub open spec fn comps(p: Seq<char>) -> Seq<Seq<char>> {
    text::nonempty(text::fields(p, '/'))
}

/// How many components two paths share from the root.
pub open spec fn shared(a: Seq<Seq<char>>, b: Seq<Seq<char>>, i: int) -> nat
    decreases a.len() - i,
{
    if i < 0 || i >= a.len() || i >= b.len() || a[i] != b[i] {
        0
    } else {
        1 + shared(a, b, i + 1)
    }
}

/// How near two directories are: how much of the path they share from the root,
/// then how many steps apart they are through the deepest directory they have in
/// common. Nothing in common says nothing about which is nearer.
pub open spec fn directory_near(cur: Seq<char>, row: Seq<char>) -> (int, int) {
    let a = comps(cur);
    let b = comps(row);
    let s = shared(a, b, 0) as int;
    if s == 0 {
        (0, 0)
    } else {
        (s, (a.len() - s) + (b.len() - s))
    }
}

/// `session:window.pane`, split into the three things it names.
pub open spec fn parts_of(t: Seq<char>) -> Option<(Seq<char>, u64, u64)> {
    match text::cut(t, ':') {
        None => None,
        Some((sess, rest)) => match text::cut(rest, '.') {
            None => None,
            Some((win, pane)) => match (text::natural_u64(win), text::natural_u64(pane)) {
                (Some(w), Some(p)) => Some((sess, w, p)),
                _ => None,
            },
        },
    }
}

pub open spec fn apart(a: u64, b: u64) -> int {
    if a >= b {
        a - b
    } else {
        b - a
    }
}

/// How near a row's pane is to the pane the picker was opened from, in the list
/// tmux itself keeps: the same session first, nearest window and then nearest pane
/// inside it, then anything else on this server, then another host.
pub open spec fn pane_near(cur: Seq<char>, row: rows::RowView) -> (int, int, int) {
    if row.host.len() > 0 {
        (2, 0, 0)
    } else {
        match (parts_of(cur), parts_of(row.target)) {
            (Some((s, w, p)), Some((rs, rw, rp))) => if s == rs {
                (0, apart(w, rw), apart(p, rp))
            } else {
                (1, 0, 0)
            },
            _ => (1, 0, 0),
        }
    }
}

/// What decides between two rows, the smaller first.
pub struct Rank {
    pub shared: int,
    pub steps: int,
    pub server: int,
    pub window: int,
    pub pane: int,
}

pub open spec fn rank(cwd: Seq<char>, target: Seq<char>, row: rows::RowView) -> Rank {
    let (s, a) = directory_near(cwd, row.cwd);
    let (x, y, z) = pane_near(target, row);
    Rank { shared: s, steps: a, server: x, window: y, pane: z }
}

/// Is the one strictly nearer than the other?
pub open spec fn nearer(a: Rank, b: Rank) -> bool {
    if a.shared != b.shared {
        a.shared > b.shared
    } else if a.steps != b.steps {
        a.steps < b.steps
    } else if a.server != b.server {
        a.server < b.server
    } else if a.window != b.window {
        a.window < b.window
    } else {
        a.pane < b.pane
    }
}

/// Is it the first of the rows that no row is nearer than?
pub open spec fn is_nearest(rows: Seq<rows::RowView>, cwd: Seq<char>, target: Seq<char>, i: int) -> bool {
    &&& 0 <= i < rows.len()
    &&& forall|j: int|
        0 <= j < rows.len() ==> !nearer(
            rank(cwd, target, #[trigger] rows[j]),
            rank(cwd, target, rows[i]),
        )
    &&& forall|j: int|
        0 <= j < i ==> nearer(rank(cwd, target, rows[i]), rank(cwd, target, #[trigger] rows[j]))
}

fn components(p: &str) -> (r: Vec<String>)
    ensures
        text::texts(r@) == comps(p@),
{
    let all = split(p, '/');
    drop_empty(&all)
}

proof fn lemma_shared(a: Seq<Seq<char>>, b: Seq<Seq<char>>, i: int, n: int)
    requires
        0 <= i <= n <= a.len(),
        n <= b.len(),
        forall|k: int| i <= k < n ==> a[k] == b[k],
        n < a.len() && n < b.len() ==> a[n] != b[n],
    ensures
        shared(a, b, i) == n - i,
    decreases n - i,
{
    if i < n {
        lemma_shared(a, b, i + 1, n);
    }
}

pub fn cwd_near(cur: &str, row: &str) -> (r: (usize, u128))
    ensures
        (r.0 as int, r.1 as int) == directory_near(cur@, row@),
{
    let a = components(cur);
    let b = components(row);
    let ghost av = text::texts(a@);
    let ghost bv = text::texts(b@);
    assert(av.len() == a@.len() && bv.len() == b@.len());
    let mut n: usize = 0;
    while n < a.len() && n < b.len() && same(&a[n], &b[n])
        invariant
            n <= a@.len(),
            n <= b@.len(),
            av == text::texts(a@),
            bv == text::texts(b@),
            forall|k: int| 0 <= k < n ==> #[trigger] av[k] == bv[k],
        decreases a@.len() - n,
    {
        assert(av[n as int] == a@[n as int]@ && bv[n as int] == b@[n as int]@);
        n = n + 1;
    }
    proof {
        if n < a@.len() && n < b@.len() {
            assert(av[n as int] == a@[n as int]@ && bv[n as int] == b@[n as int]@);
        }
        lemma_shared(av, bv, 0, n as int);
    }
    if n == 0 {
        return (0, 0);
    }
    let x: u128 = (a.len() - n) as u128;
    let y: u128 = (b.len() - n) as u128;
    (n, x + y)
}

/// `session:window.pane`, split into the three things it names, or `None` for
/// anything that is not one.
pub fn target_parts(t: &str) -> (r: Option<(String, u64, u64)>)
    ensures
        match r {
            Some((s, w, p)) => parts_of(t@) == Some((s@, w, p)),
            None => parts_of(t@) is None,
        },
{
    match split_once(t, ':') {
        None => None,
        Some((sess, rest)) => match split_once(&rest, '.') {
            None => None,
            Some((win, pane)) => match (parse_u64(&win), parse_u64(&pane)) {
                (Some(w), Some(p)) => Some((sess, w, p)),
                _ => None,
            },
        },
    }
}

fn diff(a: u64, b: u64) -> (r: u64)
    ensures
        r == apart(a, b),
{
    if a >= b {
        a - b
    } else {
        b - a
    }
}

pub fn tmux_near(cur: &str, row: &Row) -> (r: (u8, u64, u64))
    ensures
        (r.0 as int, r.1 as int, r.2 as int) == pane_near(cur@, row@),
{
    if !row.host.as_str().is_empty() {
        return (2, 0, 0);
    }
    match (target_parts(cur), target_parts(&row.target)) {
        (Some((s, w, p)), Some((rs, rw, rp))) => {
            if same(&s, &rs) {
                (0, diff(w, rw), diff(p, rp))
            } else {
                (1, 0, 0)
            }
        },
        _ => (1, 0, 0),
    }
}

struct Ranked {
    shared: usize,
    steps: u128,
    server: u8,
    window: u64,
    pane: u64,
}

impl Ranked {
    spec fn means(self) -> Rank {
        Rank {
            shared: self.shared as int,
            steps: self.steps as int,
            server: self.server as int,
            window: self.window as int,
            pane: self.pane as int,
        }
    }
}

fn rank_of(cwd: &str, target: &str, row: &Row) -> (r: Ranked)
    ensures
        r.means() == rank(cwd@, target@, row@),
{
    let (shared, steps) = cwd_near(cwd, &row.cwd);
    let (server, window, pane) = tmux_near(target, row);
    Ranked { shared, steps, server, window, pane }
}

fn is_nearer(a: &Ranked, b: &Ranked) -> (r: bool)
    ensures
        r == nearer(a.means(), b.means()),
{
    if a.shared != b.shared {
        a.shared > b.shared
    } else if a.steps != b.steps {
        a.steps < b.steps
    } else if a.server != b.server {
        a.server < b.server
    } else if a.window != b.window {
        a.window < b.window
    } else {
        a.pane < b.pane
    }
}

/// The row nearest to a directory and a pane, or none of no rows. `view` picks the
/// rows out of the list, in order.
pub fn nearest(list: &Vec<Row>, view: &Vec<usize>, cwd: &str, target: &str) -> (r: Option<usize>)
    requires
        forall|i: int| 0 <= i < view@.len() ==> #[trigger] view@[i] < list@.len(),
    ensures
        match r {
            Some(i) => is_nearest(seen(rows::rows_view(list@), view@), cwd@, target@, i as int),
            None => view@.len() == 0,
        },
{
    let ghost rs = seen(rows::rows_view(list@), view@);
    if view.len() == 0 {
        return None;
    }
    let mut best: usize = 0;
    let mut top = rank_of(cwd, target, &list[view[0]]);
    assert(rs[0] == list@[view@[0] as int]@);
    let mut i: usize = 1;
    while i < view.len()
        invariant
            1 <= i <= view@.len(),
            best < i,
            rs == seen(rows::rows_view(list@), view@),
            forall|k: int| 0 <= k < view@.len() ==> #[trigger] view@[k] < list@.len(),
            top.means() == rank(cwd@, target@, rs[best as int]),
            forall|j: int|
                0 <= j < i ==> !nearer(
                    rank(cwd@, target@, #[trigger] rs[j]),
                    rank(cwd@, target@, rs[best as int]),
                ),
            forall|j: int|
                0 <= j < best ==> nearer(
                    rank(cwd@, target@, rs[best as int]),
                    rank(cwd@, target@, #[trigger] rs[j]),
                ),
        decreases view@.len() - i,
    {
        assert(rs[i as int] == list@[view@[i as int] as int]@);
        let here = rank_of(cwd, target, &list[view[i]]);
        if is_nearer(&here, &top) {
            best = i;
            top = here;
        }
        i = i + 1;
    }
    Some(best)
}

/// The rows that a view picks out of a list.
pub open spec fn seen(rows: Seq<rows::RowView>, view: Seq<usize>) -> Seq<rows::RowView> {
    view.map_values(|i: usize| rows[i as int])
}

/// The directory outranks the list: of two rows, one that shares more of the path
/// is nearer whatever panes they are in.
pub proof fn lemma_the_directory_outranks_the_list(
    cwd: Seq<char>,
    target: Seq<char>,
    a: rows::RowView,
    b: rows::RowView,
)
    requires
        directory_near(cwd, a.cwd).0 > directory_near(cwd, b.cwd).0,
    ensures
        nearer(rank(cwd, target, a), rank(cwd, target, b)),
{
}

/// The directory itself is nearer than any other directory.
pub proof fn lemma_the_directory_itself_is_nearest(
    cwd: Seq<char>,
    target: Seq<char>,
    a: rows::RowView,
    b: rows::RowView,
)
    requires
        comps(cwd).len() > 0,
        comps(a.cwd) == comps(cwd),
        comps(b.cwd) != comps(cwd),
    ensures
        nearer(rank(cwd, target, a), rank(cwd, target, b)),
{
    let x = comps(cwd);
    let y = comps(b.cwd);
    lemma_shared(x, x, 0, x.len() as int);
    lemma_shared_bound(x, y, 0);
    if shared(x, y, 0) == x.len() {
        if y.len() == x.len() {
            assert forall|k: int| 0 <= k < x.len() implies x[k] == y[k] by {
                lemma_shared_prefix(x, y, 0, k);
            }
            assert(x =~= y);
        }
    }
}

proof fn lemma_shared_bound(a: Seq<Seq<char>>, b: Seq<Seq<char>>, i: int)
    requires
        0 <= i,
    ensures
        shared(a, b, i) + i <= a.len() || shared(a, b, i) == 0,
        shared(a, b, i) + i <= b.len() || shared(a, b, i) == 0,
    decreases a.len() - i,
{
    if i < a.len() && i < b.len() && a[i] == b[i] {
        lemma_shared_bound(a, b, i + 1);
    }
}

proof fn lemma_shared_prefix(a: Seq<Seq<char>>, b: Seq<Seq<char>>, i: int, k: int)
    requires
        0 <= i <= k < i + shared(a, b, i),
    ensures
        k < a.len(),
        k < b.len(),
        a[k] == b[k],
    decreases a.len() - i,
{
    if k > i {
        lemma_shared_prefix(a, b, i + 1, k);
    }
}

/// Between rows of one directory the list decides: a pane of the same session comes before
/// one of another, and that before one of another host; in the same session the window
/// that is fewer steps away comes first, and in the same window the pane that is.
pub proof fn lemma_the_list_decides_within_a_directory(
    cwd: Seq<char>,
    target: Seq<char>,
    a: rows::RowView,
    b: rows::RowView,
    s: Seq<char>,
    w: u64,
    p: u64,
)
    requires
        a.cwd == b.cwd,
        parts_of(target) == Some((s, w, p)),
    ensures
        a.host.len() == 0 && b.host.len() > 0 ==> nearer(
            rank(cwd, target, a),
            rank(cwd, target, b),
        ),
        a.host.len() == 0 && b.host.len() == 0 && (match (parts_of(a.target), parts_of(b.target)) {
            (Some((sa, wa, pa)), Some((sb, wb, pb))) => {
                ||| sa == s && sb != s
                ||| sa == s && sb == s && apart(w, wa) < apart(w, wb)
                ||| sa == s && sb == s && wa == wb && apart(p, pa) < apart(p, pb)
            },
            _ => false,
        }) ==> nearer(rank(cwd, target, a), rank(cwd, target, b)),
{
}

/// How far two numbers are apart does not depend on which comes first.
pub proof fn lemma_apart_either_way(a: u64, b: u64)
    ensures
        apart(a, b) == apart(b, a),
        apart(a, a) == 0,
        a <= b ==> a + apart(a, b) == b,
{
}

/// The directory that shares more of the way down is nearer, whatever else is said of the
/// rows.
pub proof fn lemma_the_longer_way_shared_is_nearer(
    cwd: Seq<char>,
    target: Seq<char>,
    a: rows::RowView,
    b: rows::RowView,
)
    ensures
        shared(comps(cwd), comps(a.cwd), 0) > shared(comps(cwd), comps(b.cwd), 0) ==> nearer(
            rank(cwd, target, a),
            rank(cwd, target, b),
        ),
        shared(comps(cwd), comps(a.cwd), 0) == shared(comps(cwd), comps(b.cwd), 0) && shared(
            comps(cwd),
            comps(a.cwd),
            0,
        ) > 0 && comps(a.cwd).len() < comps(b.cwd).len() ==> nearer(
            rank(cwd, target, a),
            rank(cwd, target, b),
        ),
{
}

/// What two ways share is as far as they are the same: their components are equal up to
/// there and no further.
pub proof fn lemma_what_two_ways_share(a: Seq<Seq<char>>, b: Seq<Seq<char>>, i: int)
    requires
        0 <= i,
    ensures
        ({
            let n = shared(a, b, i);
            &&& i + n <= a.len() && i + n <= b.len() || n == 0
            &&& forall|k: int| i <= k < i + n ==> #[trigger] a[k] == b[k]
            &&& i + n < a.len() && i + n < b.len() ==> a[i + n] != b[i + n]
        }),
    decreases a.len() - i,
{
    if i < a.len() && i < b.len() && a[i] == b[i] {
        lemma_what_two_ways_share(a, b, i + 1);
        let n = shared(a, b, i);
        let rest = shared(a, b, i + 1);
        assert(n == 1 + rest);
        assert(i + n == (i + 1) + rest);
        assert forall|k: int| i <= k < i + n implies #[trigger] a[k] == b[k] by {
            if k > i {
                assert(i + 1 <= k < i + 1 + rest);
            }
        }
    }
}

} // verus!
