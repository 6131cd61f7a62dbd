//! A machine as it answered, question by question.
use super::Env;
use crate::text;
use crate::text::same;
use vstd::prelude::*;

verus! {

/// What was read of one pane. `found` is the conversation of the session `pid`
/// in it, asked for under the directory `cwd` and the title `title`.
#[derive(Debug)]
pub struct PaneAnswer {
    pub pane: String,
    pub pid: i32,
    pub screen: String,
    pub hook: Option<String>,
    pub cwd: String,
    pub title: String,
    pub found: Result<String, String>,
}

/// What was read of one process.
#[derive(Debug)]
pub struct ProcessAnswer {
    pub pid: i32,
    pub version: Option<String>,
    pub cwd: Option<String>,
    pub argv: Vec<String>,
}

/// What was read of one transcript.
#[derive(Debug)]
pub struct TranscriptAnswer {
    pub path: String,
    pub text: String,
}

/// Everything that was read, at the time `now`. Of two answers to one question
/// the first holds, and what was never asked is answered as of nothing there.
#[derive(Debug)]
pub struct Answers {
    pub panes: Vec<PaneAnswer>,
    pub processes: Vec<ProcessAnswer>,
    pub transcripts: Vec<TranscriptAnswer>,
    pub now: i64,
}

/// The first pane of that id among the first `n`.
pub open spec fn pane_at(v: Seq<PaneAnswer>, pane: Seq<char>, n: int) -> Option<int>
    decreases n,
{
    if n <= 0 || n > v.len() {
        None
    } else {
        match pane_at(v, pane, n - 1) {
            Some(i) => Some(i),
            None => if v[n - 1].pane@ == pane {
                Some(n - 1)
            } else {
                None
            },
        }
    }
}

/// The first process of that id among the first `n`.
pub open spec fn process_at(v: Seq<ProcessAnswer>, pid: i32, n: int) -> Option<int>
    decreases n,
{
    if n <= 0 || n > v.len() {
        None
    } else {
        match process_at(v, pid, n - 1) {
            Some(i) => Some(i),
            None => if v[n - 1].pid == pid {
                Some(n - 1)
            } else {
                None
            },
        }
    }
}

/// The first transcript of that path among the first `n`.
pub open spec fn transcript_at(v: Seq<TranscriptAnswer>, path: Seq<char>, n: int) -> Option<int>
    decreases n,
{
    if n <= 0 || n > v.len() {
        None
    } else {
        match transcript_at(v, path, n - 1) {
            Some(i) => Some(i),
            None => if v[n - 1].path@ == path {
                Some(n - 1)
            } else {
                None
            },
        }
    }
}

/// Was the conversation asked for in just these words?
pub open spec fn asked(
    p: PaneAnswer,
    pane: Seq<char>,
    cwd: Seq<char>,
    title: Seq<char>,
    pid: i32,
) -> bool {
    p.pane@ == pane && p.cwd@ == cwd && p.title@ == title && p.pid == pid
}

/// The first answer to that very question among the first `n`.
pub open spec fn asked_at(
    v: Seq<PaneAnswer>,
    pane: Seq<char>,
    cwd: Seq<char>,
    title: Seq<char>,
    pid: i32,
    n: int,
) -> Option<int>
    decreases n,
{
    if n <= 0 || n > v.len() {
        None
    } else {
        match asked_at(v, pane, cwd, title, pid, n - 1) {
            Some(i) => Some(i),
            None => if asked(v[n - 1], pane, cwd, title, pid) {
                Some(n - 1)
            } else {
                None
            },
        }
    }
}

fn find_pane(v: &Vec<PaneAnswer>, pane: &str) -> (r: Option<usize>)
    ensures
        match r {
            Some(i) => pane_at(v@, pane@, v@.len() as int) == Some(i as int) && i < v@.len(),
            None => pane_at(v@, pane@, v@.len() as int) is None,
        },
{
    let mut found: Option<usize> = None;
    let mut i: usize = 0;
    while i < v.len()
        invariant
            i <= v.len(),
            match found {
                Some(k) => pane_at(v@, pane@, i as int) == Some(k as int) && k < v@.len(),
                None => pane_at(v@, pane@, i as int) is None,
            },
        decreases v.len() - i,
    {
        if found.is_none() && same(&v[i].pane, pane) {
            found = Some(i);
        }
        i = i + 1;
    }
    found
}

fn find_process(v: &Vec<ProcessAnswer>, pid: i32) -> (r: Option<usize>)
    ensures
        match r {
            Some(i) => process_at(v@, pid, v@.len() as int) == Some(i as int) && i < v@.len(),
            None => process_at(v@, pid, v@.len() as int) is None,
        },
{
    let mut found: Option<usize> = None;
    let mut i: usize = 0;
    while i < v.len()
        invariant
            i <= v.len(),
            match found {
                Some(k) => process_at(v@, pid, i as int) == Some(k as int) && k < v@.len(),
                None => process_at(v@, pid, i as int) is None,
            },
        decreases v.len() - i,
    {
        if found.is_none() && v[i].pid == pid {
            found = Some(i);
        }
        i = i + 1;
    }
    found
}

impl Env for Answers {
    open spec fn screen(&self, pane: Seq<char>) -> Seq<char> {
        match pane_at(self.panes@, pane, self.panes@.len() as int) {
            Some(i) => self.panes@[i].screen@,
            None => Seq::empty(),
        }
    }

    open spec fn hooked(&self, pane: Seq<char>, pid: i32) -> Option<Seq<char>> {
        match pane_at(self.panes@, pane, self.panes@.len() as int) {
            Some(i) => if self.panes@[i].pid == pid {
                text::opt_string(self.panes@[i].hook)
            } else {
                None
            },
            None => None,
        }
    }

    open spec fn version(&self, pid: i32) -> Option<Seq<char>> {
        match process_at(self.processes@, pid, self.processes@.len() as int) {
            Some(i) => text::opt_string(self.processes@[i].version),
            None => None,
        }
    }

    open spec fn directory(&self, pid: i32) -> Option<Seq<char>> {
        match process_at(self.processes@, pid, self.processes@.len() as int) {
            Some(i) => text::opt_string(self.processes@[i].cwd),
            None => None,
        }
    }

    open spec fn arguments(&self, pid: i32) -> Seq<Seq<char>> {
        match process_at(self.processes@, pid, self.processes@.len() as int) {
            Some(i) => text::texts(self.processes@[i].argv@),
            None => Seq::empty(),
        }
    }

    open spec fn conversation(
        &self,
        pane: Seq<char>,
        cwd: Seq<char>,
        title: Seq<char>,
        pid: i32,
    ) -> Result<Seq<char>, Seq<char>> {
        match asked_at(self.panes@, pane, cwd, title, pid, self.panes@.len() as int) {
            Some(i) => super::found_view(self.panes@[i].found),
            None => Err(Seq::empty()),
        }
    }

    open spec fn transcript(&self, path: Seq<char>) -> Option<Seq<char>> {
        match transcript_at(self.transcripts@, path, self.transcripts@.len() as int) {
            Some(i) => Some(self.transcripts@[i].text@),
            None => None,
        }
    }

    open spec fn clock(&self) -> i64 {
        self.now
    }

    fn capture(&self, pane: &str) -> (r: String) {
        match find_pane(&self.panes, pane) {
            Some(i) => self.panes[i].screen.clone(),
            None => {
                let none = String::new();
                assert(none@ =~= Seq::<char>::empty());
                none
            },
        }
    }

    fn hook_state(&self, pane: &str, pid: i32) -> (r: Option<String>) {
        match find_pane(&self.panes, pane) {
            Some(i) => {
                if self.panes[i].pid != pid {
                    return None;
                }
                match &self.panes[i].hook {
                    Some(h) => Some(h.clone()),
                    None => None,
                }
            },
            None => None,
        }
    }

    fn version_of_pid(&self, pid: i32) -> (r: Option<String>) {
        match find_process(&self.processes, pid) {
            Some(i) => match &self.processes[i].version {
                Some(v) => Some(v.clone()),
                None => None,
            },
            None => None,
        }
    }

    fn cwd_of(&self, pid: i32) -> (r: Option<String>) {
        match find_process(&self.processes, pid) {
            Some(i) => match &self.processes[i].cwd {
                Some(c) => Some(c.clone()),
                None => None,
            },
            None => None,
        }
    }

    fn argv_of(&self, pid: i32) -> (r: Vec<String>) {
        match find_process(&self.processes, pid) {
            Some(i) => text::copy_of(&self.processes[i].argv),
            None => {
                let none: Vec<String> = Vec::new();
                assert(text::texts(none@) =~= Seq::<Seq<char>>::empty());
                none
            },
        }
    }

    fn resolve(&self, pane: &str, cwd: &str, title: &str, pid: i32) -> (r: Result<String, String>) {
        let mut found: Option<usize> = None;
        let mut i: usize = 0;
        while i < self.panes.len()
            invariant
                i <= self.panes.len(),
                match found {
                    Some(k) => asked_at(self.panes@, pane@, cwd@, title@, pid, i as int) == Some(
                        k as int,
                    ) && k < self.panes@.len(),
                    None => asked_at(self.panes@, pane@, cwd@, title@, pid, i as int) is None,
                },
            decreases self.panes.len() - i,
        {
            let p = &self.panes[i];
            if found.is_none() && same(&p.pane, pane) && same(&p.cwd, cwd) && same(&p.title, title)
                && p.pid == pid {
                found = Some(i);
            }
            i = i + 1;
        }
        match found {
            Some(k) => match &self.panes[k].found {
                Ok(t) => Ok(t.clone()),
                Err(why) => Err(why.clone()),
            },
            None => {
                let none = String::new();
                assert(none@ =~= Seq::<char>::empty());
                Err(none)
            },
        }
    }

    fn read_transcript(&self, path: &str) -> (r: Option<String>) {
        let mut found: Option<usize> = None;
        let mut i: usize = 0;
        while i < self.transcripts.len()
            invariant
                i <= self.transcripts.len(),
                match found {
                    Some(k) => transcript_at(self.transcripts@, path@, i as int) == Some(k as int)
                        && k < self.transcripts@.len(),
                    None => transcript_at(self.transcripts@, path@, i as int) is None,
                },
            decreases self.transcripts.len() - i,
        {
            if found.is_none() && same(&self.transcripts[i].path, path) {
                found = Some(i);
            }
            i = i + 1;
        }
        match found {
            Some(k) => Some(self.transcripts[k].text.clone()),
            None => None,
        }
    }

    fn now(&self) -> (r: i64) {
        self.now
    }
}

/// What was answered of a pane, of a process and of a transcript is what is told of it: the
/// first answer that there is of it.
pub proof fn lemma_an_answer_is_told(a: &Answers, i: int, j: int, k: int)
    ensures
        0 <= i < a.panes@.len() && (forall|m: int|
            0 <= m < i ==> (#[trigger] a.panes@[m]).pane@ != a.panes@[i].pane@) ==> a.screen(
            a.panes@[i].pane@,
        ) == a.panes@[i].screen@ && a.hooked(a.panes@[i].pane@, a.panes@[i].pid)
            == text::opt_string(a.panes@[i].hook),
        0 <= j < a.processes@.len() && (forall|m: int|
            0 <= m < j ==> (#[trigger] a.processes@[m]).pid != a.processes@[j].pid) ==> a.version(
            a.processes@[j].pid,
        ) == text::opt_string(a.processes@[j].version) && a.directory(a.processes@[j].pid)
            == text::opt_string(a.processes@[j].cwd) && a.arguments(a.processes@[j].pid)
            == text::texts(a.processes@[j].argv@),
        0 <= k < a.transcripts@.len() && (forall|m: int|
            0 <= m < k ==> (#[trigger] a.transcripts@[m]).path@ != a.transcripts@[k].path@)
            ==> a.transcript(a.transcripts@[k].path@) == Some(a.transcripts@[k].text@),
        a.clock() == a.now,
{
    let ps = a.panes@;
    let qs = a.processes@;
    let ts = a.transcripts@;
    if 0 <= i < ps.len() && (forall|m: int|
        0 <= m < i ==> (#[trigger] ps[m]).pane@ != ps[i].pane@) {
        lemma_pane_at(ps, i, ps.len() as int);
    }
    if 0 <= j < qs.len() && (forall|m: int| 0 <= m < j ==> (#[trigger] qs[m]).pid != qs[j].pid) {
        lemma_process_at(qs, j, qs.len() as int);
    }
    if 0 <= k < ts.len() && (forall|m: int|
        0 <= m < k ==> (#[trigger] ts[m]).path@ != ts[k].path@) {
        lemma_transcript_at(ts, k, ts.len() as int);
    }
}

proof fn lemma_pane_at(v: Seq<PaneAnswer>, i: int, n: int)
    requires
        0 <= i < v.len(),
        0 <= n <= v.len(),
        forall|m: int| 0 <= m < i ==> (#[trigger] v[m]).pane@ != v[i].pane@,
    ensures
        n <= i ==> pane_at(v, v[i].pane@, n) is None,
        n > i ==> pane_at(v, v[i].pane@, n) == Some(i),
    decreases n,
{
    if n > 0 {
        lemma_pane_at(v, i, n - 1);
        assert(n - 1 < i ==> v[n - 1].pane@ != v[i].pane@);
    }
}

proof fn lemma_process_at(v: Seq<ProcessAnswer>, i: int, n: int)
    requires
        0 <= i < v.len(),
        0 <= n <= v.len(),
        forall|m: int| 0 <= m < i ==> (#[trigger] v[m]).pid != v[i].pid,
    ensures
        n <= i ==> process_at(v, v[i].pid, n) is None,
        n > i ==> process_at(v, v[i].pid, n) == Some(i),
    decreases n,
{
    if n > 0 {
        lemma_process_at(v, i, n - 1);
        assert(n - 1 < i ==> v[n - 1].pid != v[i].pid);
    }
}

proof fn lemma_transcript_at(v: Seq<TranscriptAnswer>, i: int, n: int)
    requires
        0 <= i < v.len(),
        0 <= n <= v.len(),
        forall|m: int| 0 <= m < i ==> (#[trigger] v[m]).path@ != v[i].path@,
    ensures
        n <= i ==> transcript_at(v, v[i].path@, n) is None,
        n > i ==> transcript_at(v, v[i].path@, n) == Some(i),
    decreases n,
{
    if n > 0 {
        lemma_transcript_at(v, i, n - 1);
        assert(n - 1 < i ==> v[n - 1].path@ != v[i].path@);
    }
}

} // verus!
