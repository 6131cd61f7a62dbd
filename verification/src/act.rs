//! The two keys that act rather than navigate: ctrl-x on a row, f8 on the list.
//!
//! Both own the whole screen for as long as they are up, because the picker has
//! just handed it over, and both END in a detached restart.
//!
//! The shape of each is the same and it is deliberate: **say what will happen, ask,
//! and never offer something that would be refused anyway.** A restart that
//! declines is not a failure to explain away, it is the guard working.
//!
//! What is here is what each of them decides and says; whoever holds the terminal
//! runs the plan, reads the key and starts the restart.
use vstd::prelude::*;

use crate::remote;
use crate::restart;
use crate::text;
use crate::text::{contains, dec, lines, same, split_either, starts_with, trim_start};

verus! {

// ---------------------------------------------------------------------------
// Reading a plan
// ---------------------------------------------------------------------------
/// The pane lines of a plan, from `i` on, where `on` says whether the list of panes
/// has begun: a heading begins it and another ends it.
pub open spec fn pane_lines(ls: Seq<Seq<char>>, i: int, on: bool) -> Seq<Seq<char>>
    decreases ls.len() - i,
{
    if i < 0 || i >= ls.len() {
        Seq::empty()
    } else if "to restart ("@.is_prefix_of(ls[i]) {
        pane_lines(ls, i + 1, true)
    } else {
        let still = on && !"skipped ("@.is_prefix_of(ls[i]);
        let rest = pane_lines(ls, i + 1, still);
        if still && "  %"@.is_prefix_of(ls[i]) {
            seq![ls[i]] + rest
        } else {
            rest
        }
    }
}

/// The pane lines of a plan, without its detail lines or its skip list.
///
/// The detail lines are indented further and the skip list sits past its own
/// heading, so this goes by the two headings rather than by a guess at indentation.
pub fn plan_panes(plan: &str) -> (r: Vec<String>)
    ensures
        text::texts(r@) == pane_lines(text::lines_of(plan@), 0, false),
{
    let ls = lines(plan);
    let ghost all = text::texts(ls@);
    let ghost whole = pane_lines(all, 0, false);
    let mut out: Vec<String> = Vec::new();
    let mut on = false;
    let mut i: usize = 0;
    assert(text::texts(out@) + whole =~= whole);
    while i < ls.len()
        invariant
            i <= ls@.len(),
            all == text::texts(ls@),
            whole == text::texts(out@) + pane_lines(all, i as int, on),
        decreases ls@.len() - i,
    {
        assert(all[i as int] == ls@[i as int]@);
        if starts_with(&ls[i], "to restart (") {
            on = true;
        } else {
            if starts_with(&ls[i], "skipped (") {
                on = false;
            }
            if on && starts_with(&ls[i], "  %") {
                let t = ls[i].clone();
                let ghost before = text::texts(out@);
                proof {
                    text::lemma_texts_push(out@, t);
                }
                out.push(t);
                let ghost rest = pane_lines(all, i + 1, on);
                assert(before + (seq![t@] + rest) =~= before.push(t@) + rest);
            }
        }
        i = i + 1;
    }
    assert(text::texts(out@) + Seq::<Seq<char>>::empty() =~= text::texts(out@));
    out
}

/// The count in the brackets of the first line from `i` on that opens with the
/// heading.
pub open spec fn counted(ls: Seq<Seq<char>>, heading: Seq<char>, i: int) -> Option<u64>
    decreases ls.len() - i,
{
    if i < 0 || i >= ls.len() {
        None
    } else if heading.is_prefix_of(ls[i]) {
        let parts = text::split_on(ls[i], '(', ')');
        if parts.len() >= 2 {
            text::natural_u64(parts[1])
        } else {
            None
        }
    } else {
        counted(ls, heading, i + 1)
    }
}

/// The count that stands in a heading of the plan.
pub fn count_in(plan: &str, heading: &str) -> (r: Option<u64>)
    ensures
        r == counted(text::lines_of(plan@), heading@, 0),
{
    let ls = lines(plan);
    let ghost all = text::texts(ls@);
    let mut i: usize = 0;
    while i < ls.len()
        invariant
            i <= ls@.len(),
            all == text::texts(ls@),
            all == text::lines_of(plan@),
            counted(all, heading@, i as int) == counted(all, heading@, 0),
        decreases ls@.len() - i,
    {
        assert(all[i as int] == ls@[i as int]@);
        if starts_with(&ls[i], heading) {
            let parts = split_either(&ls[i], '(', ')');
            assert(text::texts(parts@).len() == parts@.len());
            if parts.len() < 2 {
                return None;
            }
            assert(text::texts(parts@)[1] == parts@[1]@);
            return text::parse_u64(&parts[1]);
        }
        i = i + 1;
    }
    None
}

/// The first line from `i` on that is about the pane.
pub open spec fn about(ls: Seq<Seq<char>>, pane: Seq<char>, i: int) -> Option<Seq<char>>
    decreases ls.len() - i,
{
    if i < 0 || i >= ls.len() {
        None
    } else if text::has(ls[i], "  "@ + pane + " "@) {
        Some(text::trimmed_start(ls[i]))
    } else {
        about(ls, pane, i + 1)
    }
}

/// The one line of a plan that is about this pane.
pub fn why_for(plan: &str, pane: &str) -> (r: Option<String>)
    ensures
        text::opt_string(r) == about(text::lines_of(plan@), pane@, 0),
{
    let mut needle = "  ".to_owned();
    needle.append(pane);
    needle.append(" ");
    let ls = lines(plan);
    let ghost all = text::texts(ls@);
    let mut i: usize = 0;
    while i < ls.len()
        invariant
            i <= ls@.len(),
            all == text::texts(ls@),
            all == text::lines_of(plan@),
            needle@ == "  "@ + pane@ + " "@,
            about(all, pane@, i as int) == about(all, pane@, 0),
        decreases ls@.len() - i,
    {
        assert(all[i as int] == ls@[i as int]@);
        if contains(&ls[i], &needle) {
            return Some(trim_start(&ls[i]));
        }
        i = i + 1;
    }
    None
}

/// Does the plan have something to restart?
pub open spec fn would_restart(plan: Seq<char>) -> bool {
    text::has(plan, "\nto restart ("@) || "to restart ("@.is_prefix_of(plan)
}

fn restarts(plan: &str) -> (r: bool)
    ensures
        r == would_restart(plan@),
{
    contains(plan, "\nto restart (") || starts_with(plan, "to restart (")
}

// ---------------------------------------------------------------------------
// The restart itself
// ---------------------------------------------------------------------------
pub open spec fn restart_line(pane: Seq<char>, force: bool) -> Seq<Seq<char>> {
    let a = seq!["restart"@, "-y"@];
    let b = if "%"@.is_prefix_of(pane) {
        a + seq!["--pane"@, pane]
    } else {
        a
    };
    if force {
        b.push("--include-busy"@)
    } else {
        b
    }
}

/// The arguments of a detached restart: of one pane, or of every outdated one where
/// it is no pane id.
pub fn restart_args(pane: &str, force: bool) -> (r: Vec<String>)
    ensures
        text::texts(r@) == restart_line(pane@, force),
{
    let mut v: Vec<String> = Vec::new();
    v.push("restart".to_owned());
    v.push("-y".to_owned());
    if starts_with(pane, "%") {
        v.push("--pane".to_owned());
        v.push(pane.to_owned());
    }
    if force {
        v.push("--include-busy".to_owned());
    }
    assert(text::texts(v@) =~= restart_line(pane@, force));
    v
}

/// What the log says a detached restart is of.
pub fn restart_subject(pane: &str) -> (r: String)
    ensures
        r@ == (if pane@.len() == 0 {
            "all outdated panes"@
        } else {
            pane@
        }),
{
    if pane.is_empty() {
        "all outdated panes".to_owned()
    } else {
        pane.to_owned()
    }
}

/// What was pressed, where a key could be read at all. A key that cannot be waited
/// for is not a key that was pressed.
#[derive(Clone, Copy, Debug, PartialEq, Eq, Structural)]
pub enum Pressed {
    Key(char),
    Unreadable,
}

pub open spec fn agreed(p: Pressed) -> bool {
    match p {
        Pressed::Key(c) => {
            let a = text::trimmed(seq![c]);
            a.len() == 0 || a == "y"@ || a == "Y"@ || a == "yes"@ || a == "YES"@ || a == "Yes"@
        },
        Pressed::Unreadable => false,
    }
}

/// Was the question answered with yes? An unreadable terminal declines, which is the
/// safe default.
pub fn agrees(p: Pressed) -> (r: bool)
    ensures
        r == agreed(p),
{
    match p {
        Pressed::Key(c) => {
            let mut s = String::new();
            s.push(c);
            assert(s@ =~= seq![c]);
            restart::confirm_yes(&s)
        },
        Pressed::Unreadable => false,
    }
}

// ---------------------------------------------------------------------------
// ctrl-x
// ---------------------------------------------------------------------------
pub const ENDED: &'static str = "\x1b[1mtaimux: that session has already ended\x1b[0m\n\n  There is nothing running to restart. Press Enter on it instead:\n  it opens again in a new window, in its own directory.\n\n";

pub const NOTHING_TO_DO: &'static str = "  Nothing to do: it is already on the installed version, or it is\n  not a ";

pub const FORCE: &'static str = "\n  Forcing accepts losing an in-flight turn. A pane holding a\n  permission dialog is still refused, so nothing gets answered for you.\n\n\x1b[1mForce the restart?\x1b[0m [Y/n] ";

/// What ctrl-x on a row begins with.
#[derive(Clone, Debug, PartialEq, Eq)]
pub enum Opening {
    /// Say this, wait for a key, and do nothing.
    Say(String),
    /// Do nothing at all: it is not a pane.
    Nothing,
    /// Ask for a plan of the pane.
    Plan,
}

#[verifier::ext_equal]
pub enum OpeningView {
    Say(Seq<char>),
    Nothing,
    Plan,
}

impl View for Opening {
    type V = OpeningView;

    open spec fn view(&self) -> OpeningView {
        match self {
            Opening::Say(s) => OpeningView::Say(s@),
            Opening::Nothing => OpeningView::Nothing,
            Opening::Plan => OpeningView::Plan,
        }
    }
}

pub open spec fn elsewhere(host: Seq<char>, local: Seq<char>) -> Seq<char> {
    "\x1b[1mtaimux: "@ + local + " is on "@ + host
        + "\x1b[0m\n\n  Restarting is local-only. From that host, or from here:\n\n    ssh "@ + host
        + " taimux restart --pane "@ + local + "\n\n"@
}

/// An ended conversation has nothing to restart: there is no process behind it and
/// no pane to type into. Another host's session is restarted where it is, so the
/// key says so and hands over the line that would do it.
pub open spec fn opened(pane: Seq<char>) -> OpeningView {
    if "dead:"@.is_prefix_of(pane) {
        OpeningView::Say(ENDED@)
    } else if remote::host_part(pane) is Some {
        OpeningView::Say(elsewhere(remote::host_part(pane)->0, remote::local_part(pane)))
    } else if "%"@.is_prefix_of(pane) {
        OpeningView::Plan
    } else {
        OpeningView::Nothing
    }
}

/// ctrl-x on a row: what there is to be done about it before anything is asked.
pub fn restart_one(pane: &str) -> (r: Opening)
    ensures
        r@ == opened(pane@),
{
    if starts_with(pane, "dead:") {
        return Opening::Say(ENDED.to_owned());
    }
    if let Some(host) = remote::pane_host(pane) {
        let local = remote::pane_local(pane);
        let mut t = "\x1b[1mtaimux: ".to_owned();
        t.append(&local);
        t.append(" is on ");
        t.append(&host);
        t.append(
            "\x1b[0m\n\n  Restarting is local-only. From that host, or from here:\n\n    ssh ",
        );
        t.append(&host);
        t.append(" taimux restart --pane ");
        t.append(&local);
        t.append("\n\n");
        return Opening::Say(t);
    }
    if starts_with(pane, "%") {
        Opening::Plan
    } else {
        Opening::Nothing
    }
}

/// What the pane's own plan leads to.
#[derive(Clone, Debug, PartialEq, Eq)]
pub enum Planned {
    /// Start the restart.
    Fire,
    /// Say this, wait for a key, and do nothing.
    Say(String),
    /// Say this, and see whether forcing would help.
    Refused(String),
}

#[verifier::ext_equal]
pub enum PlannedView {
    Fire,
    Say(Seq<char>),
    Refused(Seq<char>),
}

impl View for Planned {
    type V = PlannedView;

    open spec fn view(&self) -> PlannedView {
        match self {
            Planned::Fire => PlannedView::Fire,
            Planned::Say(s) => PlannedView::Say(s@),
            Planned::Refused(s) => PlannedView::Refused(s@),
        }
    }
}

pub open spec fn unclean(pane: Seq<char>) -> Seq<char> {
    "\x1b[1mtaimux: "@ + pane + " will not restart cleanly\x1b[0m\n\n"@
}

pub open spec fn led_to(agent: Seq<char>, pane: Seq<char>, plan: Seq<char>) -> PlannedView {
    if would_restart(plan) {
        PlannedView::Fire
    } else {
        match about(text::lines_of(plan), pane, 0) {
            None => PlannedView::Say(unclean(pane) + NOTHING_TO_DO@ + agent + " pane.\n\n"@),
            Some(why) => PlannedView::Refused(unclean(pane) + "  "@ + why + "\n"@),
        }
    }
}

/// What the pane's own plan leads to: a restart where it has one, and otherwise the
/// reason it gives.
pub fn after_plan(agent: &str, pane: &str, plan: &str) -> (r: Planned)
    ensures
        r@ == led_to(agent@, pane@, plan@),
{
    if restarts(plan) {
        return Planned::Fire;
    }
    let mut t = "\x1b[1mtaimux: ".to_owned();
    t.append(pane);
    t.append(" will not restart cleanly\x1b[0m\n\n");
    match why_for(plan, pane) {
        None => {
            t.append(NOTHING_TO_DO);
            t.append(agent);
            t.append(" pane.\n\n");
            Planned::Say(t)
        },
        Some(why) => {
            t.append("  ");
            t.append(&why);
            t.append("\n");
            Planned::Refused(t)
        },
    }
}

/// What the plan with force leads to.
#[derive(Clone, Debug, PartialEq, Eq)]
pub enum Forced {
    /// Say this, wait for a key, and do nothing: forcing would be refused anyway.
    Say(String),
    /// Ask this, and force it where the answer is yes.
    Offer(String),
}

#[verifier::ext_equal]
pub enum ForcedView {
    Say(Seq<char>),
    Offer(Seq<char>),
}

impl View for Forced {
    type V = ForcedView;

    open spec fn view(&self) -> ForcedView {
        match self {
            Forced::Say(s) => ForcedView::Say(s@),
            Forced::Offer(s) => ForcedView::Offer(s@),
        }
    }
}

pub open spec fn force_leads_to(pane: Seq<char>, forced: Seq<char>) -> ForcedView {
    if would_restart(forced) {
        ForcedView::Offer(FORCE@)
    } else {
        ForcedView::Say(
            "\n  Forcing would not help:\n  "@ + (match about(text::lines_of(forced), pane, 0) {
                Some(why) => why,
                None => "same refusal"@,
            }) + "\n\n"@,
        )
    }
}

/// Whether a force is offered. Never one that would be refused anyway: an unresolved
/// conversation, this very pane, and a transcript already claimed by another pane
/// are all untouched by forcing.
pub fn after_forced(pane: &str, forced: &str) -> (r: Forced)
    ensures
        r@ == force_leads_to(pane@, forced@),
{
    if restarts(forced) {
        return Forced::Offer(FORCE.to_owned());
    }
    let mut t = "\n  Forcing would not help:\n  ".to_owned();
    match why_for(forced, pane) {
        Some(why) => t.append(&why),
        None => t.append("same refusal"),
    }
    t.append("\n\n");
    Forced::Say(t)
}

/// What is said once the question was answered; `log` is where the restart writes.
pub fn answered(p: Pressed, log: &str) -> (r: String)
    ensures
        r@ == (match p {
            Pressed::Unreadable =>
                "\r\n  (no readable terminal to answer on, so nothing was restarted)\n\n  Left alone.\n"@,
            Pressed::Key(_) => if agreed(p) {
                "\n\n  Forced, detached. Watch the version, or read\n  "@ + log@ + "\n"@
            } else {
                "\n\n  Left alone.\n"@
            },
        }),
{
    match p {
        Pressed::Unreadable =>
            "\r\n  (no readable terminal to answer on, so nothing was restarted)\n\n  Left alone.\n".to_owned(),
        Pressed::Key(_) => {
            if agrees(p) {
                let mut t = "\n\n  Forced, detached. Watch the version, or read\n  ".to_owned();
                t.append(log);
                t.append("\n");
                t
            } else {
                "\n\n  Left alone.\n".to_owned()
            }
        },
    }
}

// ---------------------------------------------------------------------------
// f8
// ---------------------------------------------------------------------------
pub const SWEEP: &'static str = "\x1b[1mtaimux: restart every outdated session\x1b[0m\n\n";

pub const NOTHING_OUTDATED: &'static str = "Nothing to restart. Either every session is already on the\ninstalled version, or the ones behind it are busy.\n";

/// What f8 leads to.
#[derive(Clone, Debug, PartialEq, Eq)]
pub enum Sweep {
    /// Say this, wait for a key, and do nothing.
    Say(String),
    /// Ask this, and restart that many where the answer is yes.
    Ask(String, u64),
}

#[verifier::ext_equal]
pub enum SweepView {
    Say(Seq<char>),
    Ask(Seq<char>, u64),
}

impl View for Sweep {
    type V = SweepView;

    open spec fn view(&self) -> SweepView {
        match self {
            Sweep::Say(s) => SweepView::Say(s@),
            Sweep::Ask(s, n) => SweepView::Ask(s@, *n),
        }
    }
}

pub open spec fn sweep_of(plan: Seq<char>) -> SweepView {
    let ls = text::lines_of(plan);
    let skipped = counted(ls, "skipped ("@, 0);
    match counted(ls, "to restart ("@, 0) {
        Some(n) => if n >= 1 {
            let a = SWEEP@ + text::as_lines(pane_lines(ls, 0, false));
            let b = match skipped {
                Some(k) => a + "\n  "@ + text::decimal(k as nat)
                    + " left alone (working, waiting, or unidentified).\n"@,
                None => a,
            };
            SweepView::Ask(
                b + "\n\x1b[1mRestart "@ + text::decimal(n as nat) + " session(s)?\x1b[0m [Y/n] "@,
                n,
            )
        } else {
            nothing_outdated(skipped)
        },
        None => nothing_outdated(skipped),
    }
}

pub open spec fn nothing_outdated(skipped: Option<u64>) -> SweepView {
    let a = SWEEP@ + NOTHING_OUTDATED@;
    SweepView::Say(
        match skipped {
            Some(k) => a + "\n  "@ + text::decimal(k as nat) + " left alone.\n"@ + "\n"@,
            None => a + "\n"@,
        },
    )
}

/// f8: restart every outdated session, after showing the plan and asking.
///
/// A plan with nothing in it must not be read as having something: that is the
/// difference between firing a restart and explaining a refusal.
pub fn sweep(plan: &str) -> (r: Sweep)
    ensures
        r@ == sweep_of(plan@),
{
    let skipped = count_in(plan, "skipped (");
    let n: u64 = match count_in(plan, "to restart (") {
        Some(n) => n,
        None => 0,
    };
    let mut t = SWEEP.to_owned();
    if n == 0 {
        t.append(NOTHING_OUTDATED);
        if let Some(k) = skipped {
            t.append("\n  ");
            let d = dec(k);
            t.append(&d);
            t.append(" left alone.\n");
        }
        t.append("\n");
        return Sweep::Say(t);
    }
    let ps = plan_panes(plan);
    let body = text::end_lines(&ps);
    t.append(&body);
    if let Some(k) = skipped {
        t.append("\n  ");
        let d = dec(k);
        t.append(&d);
        t.append(" left alone (working, waiting, or unidentified).\n");
    }
    t.append("\n\x1b[1mRestart ");
    let d = dec(n);
    t.append(&d);
    t.append(" session(s)?\x1b[0m [Y/n] ");
    Sweep::Ask(t, n)
}

/// What is said once the sweep was answered; `log` is where the restart writes.
pub fn swept(p: Pressed, log: &str) -> (r: String)
    ensures
        r@ == (match p {
            Pressed::Unreadable =>
                "\r\n  (no readable terminal to answer on, so nothing was restarted)\n\nNothing restarted.\n"@,
            Pressed::Key(_) => if agreed(p) {
                "\n\nStarted, detached. Watch the version column, or read\n"@ + log@ + "\n"@
            } else {
                "\n\nNothing restarted.\n"@
            },
        }),
{
    match p {
        Pressed::Unreadable =>
            "\r\n  (no readable terminal to answer on, so nothing was restarted)\n\nNothing restarted.\n".to_owned(),
        Pressed::Key(_) => {
            if agrees(p) {
                let mut t = "\n\nStarted, detached. Watch the version column, or read\n".to_owned();
                t.append(log);
                t.append("\n");
                t
            } else {
                "\n\nNothing restarted.\n".to_owned()
            }
        },
    }
}

// ---------------------------------------------------------------------------
// Laws
// ---------------------------------------------------------------------------
/// Only a pane of this server is ever acted on.
pub proof fn lemma_only_a_local_pane_is_planned(pane: Seq<char>)
    ensures
        opened(pane) is Plan ==> "%"@.is_prefix_of(pane) && remote::host_part(pane) is None,
        opened(pane) is Plan <== "%"@.is_prefix_of(pane),
{
    reveal_strlit("%");
    reveal_strlit("dead:");
    if "%"@.is_prefix_of(pane) {
        assert(pane[0] == "%"@[0]);
        if "dead:"@.is_prefix_of(pane) {
            assert(pane[0] == "dead:"@[0]);
        }
    }
}

/// Forcing is offered only where the plan with force would restart something, and
/// only a readable yes agrees to it.
pub proof fn lemma_nothing_is_offered_that_would_be_refused(
    pane: Seq<char>,
    forced: Seq<char>,
    p: Pressed,
)
    ensures
        force_leads_to(pane, forced) is Offer <==> would_restart(forced),
        agreed(p) ==> p is Key,
{
}

/// A restart is asked for without a question, of the pane alone where it is one of this
/// server's, and of a busy one only where it is forced.
pub proof fn lemma_a_restart_names_its_pane(pane: Seq<char>, force: bool)
    ensures
        ({
            let a = restart_line(pane, force);
            let own = pane.len() > 0 && pane[0] == '%';
            &&& a[0] == "restart"@ && a[1] == "-y"@
            &&& own ==> a[2] == "--pane"@ && a[3] == pane
            &&& force ==> a.last() == "--include-busy"@
            &&& a.len() == 2 + (if own {
                2int
            } else {
                0
            }) + (if force {
                1int
            } else {
                0
            })
        }),
{
    reveal_strlit("%");
    if pane.len() > 0 && pane[0] == '%' {
        assert(pane.subrange(0, 1) =~= "%"@);
        assert("%"@.is_prefix_of(pane));
    } else if "%"@.is_prefix_of(pane) {
        assert(pane[0] == "%"@[0]);
    }
}

/// A key agrees where it is a letter for yes or blank, which is what a return is, and no
/// other key does.
pub proof fn lemma_only_yes_agrees(c: char)
    ensures
        agreed(Pressed::Key(c)) <==> c == 'y' || c == 'Y' || text::is_space(c),
        !agreed(Pressed::Unreadable),
{
    let k = seq![c];
    let t = text::trimmed(k);
    reveal_strlit("y");
    reveal_strlit("Y");
    reveal_strlit("yes");
    reveal_strlit("YES");
    reveal_strlit("Yes");
    assert("yes"@.len() == 3 && "YES"@.len() == 3 && "Yes"@.len() == 3);
    reveal_with_fuel(text::trimmed_start, 2);
    reveal_with_fuel(text::trimmed_end, 2);
    if text::is_space(c) {
        assert(t.len() == 0);
    } else {
        assert(t =~= k);
        assert(k == "y"@ <==> c == 'y') by {
            if c == 'y' {
                assert(k =~= "y"@);
            } else {
                assert(k[0] != "y"@[0]);
            }
        }
        assert(k == "Y"@ <==> c == 'Y') by {
            if c == 'Y' {
                assert(k =~= "Y"@);
            } else {
                assert(k[0] != "Y"@[0]);
            }
        }
    }
}

/// The report that a plan is shown as is read back as what it is: where it restarts
/// anything, the restart goes ahead, with and without force.
pub proof fn lemma_a_plan_that_restarts_is_read_as_one(
    agent: Seq<char>,
    newver: Seq<char>,
    launcher: Seq<char>,
    go: Seq<crate::restart::PlannedView>,
    skipped: Seq<Seq<char>>,
    unresolved: bool,
    pane: Seq<char>,
)
    requires
        go.len() > 0,
    ensures
        ({
            let plan = crate::restart::rendered(agent, newver, launcher, go, skipped, unresolved);
            &&& led_to(agent, pane, plan) is Fire
            &&& force_leads_to(pane, plan) is Offer
        }),
{
    let plan = crate::restart::rendered(agent, newver, launcher, go, skipped, unresolved);
    crate::restart::lemma_the_report_opens_with_the_version(
        agent,
        newver,
        launcher,
        go,
        skipped,
        unresolved,
    );
    let head = agent + ": "@ + newver + " installed at "@ + launcher;
    let first = head + "\n\n"@ + ("to restart ("@ + text::decimal(go.len()) + "):\n"@);
    let mark = "\nto restart ("@;
    reveal_strlit("\n\n");
    reveal_strlit("to restart (");
    reveal_strlit("\nto restart (");
    let i = head.len() as int + 1;
    assert(first.subrange(i, i + mark.len()) =~= mark);
    assert(first == plan.subrange(0, first.len() as int));
    assert(plan.subrange(i, i + mark.len()) =~= first.subrange(i, i + mark.len()));
    assert(text::occurs_at(plan, mark, i));
}

/// A plan that restarts nothing is answered with what it says of the pane: the first line
/// that names it.
pub proof fn lemma_a_refusal_quotes_the_plan(
    agent: Seq<char>,
    pane: Seq<char>,
    plan: Seq<char>,
    i: int,
)
    requires
        !would_restart(plan),
        0 <= i < text::lines_of(plan).len(),
        text::has(text::lines_of(plan)[i], "  "@ + pane + " "@),
        forall|j: int|
            0 <= j < i ==> !text::has(#[trigger] text::lines_of(plan)[j], "  "@ + pane + " "@),
    ensures
        led_to(agent, pane, plan) == PlannedView::Refused(
            "\x1b[1mtaimux: "@ + pane + " will not restart cleanly\x1b[0m\n\n"@ + "  "@
                + text::trimmed_start(text::lines_of(plan)[i]) + "\n"@,
        ),
        force_leads_to(pane, plan) == ForcedView::Say(
            "\n  Forcing would not help:\n  "@ + text::trimmed_start(text::lines_of(plan)[i])
                + "\n\n"@,
        ),
{
    lemma_about(text::lines_of(plan), pane, 0, i);
}

proof fn lemma_about(ls: Seq<Seq<char>>, pane: Seq<char>, from: int, i: int)
    requires
        0 <= from <= i < ls.len(),
        text::has(ls[i], "  "@ + pane + " "@),
        forall|j: int| from <= j < i ==> !text::has(#[trigger] ls[j], "  "@ + pane + " "@),
    ensures
        about(ls, pane, from) == Some(text::trimmed_start(ls[i])),
    decreases i - from,
{
    if from < i {
        assert(!text::has(ls[from], "  "@ + pane + " "@));
        lemma_about(ls, pane, from + 1, i);
    }
}

/// A sweep asks before it restarts, and asks with the number that its plan gives; it asks
/// nothing where the plan gives none.
pub proof fn lemma_a_sweep_asks_with_its_number(plan: Seq<char>, i: int, n: u64, tail: Seq<char>)
    requires
        ({
            let ls = text::lines_of(plan);
            &&& 0 <= i < ls.len()
            &&& ls[i] == "to restart ("@ + text::decimal(n as nat) + ")"@ + tail
            &&& forall|j: int| 0 <= j < i ==> !"to restart ("@.is_prefix_of(#[trigger] ls[j])
        }),
    ensures
        n >= 1 ==> match sweep_of(plan) {
            SweepView::Ask(s, m) => m == n && ("\n\x1b[1mRestart "@ + text::decimal(n as nat)
                + " session(s)?\x1b[0m [Y/n] "@).is_suffix_of(s),
            SweepView::Say(_) => false,
        },
        n == 0 ==> sweep_of(plan) is Say,
{
    let ls = text::lines_of(plan);
    let heading = "to restart ("@;
    let d = text::decimal(n as nat);
    lemma_counted(ls, heading, 0, i);
    let l = ls[i];
    assert(l.subrange(0, heading.len() as int) =~= heading);
    reveal_strlit("to restart (");
    reveal_strlit(")");
    let head = "to restart "@;
    reveal_strlit("to restart ");
    text::lemma_decimal(n as nat);
    assert(l =~= head + seq!['('] + (d + seq![')'] + tail));
    lemma_bracketed(head, d, tail);
    lemma_natural_is_read_back(n);
    if n >= 1 {
        let s = sweep_of(plan)->Ask_0;
        let t = "\n\x1b[1mRestart "@ + d + " session(s)?\x1b[0m [Y/n] "@;
        assert(s.subrange(s.len() - t.len(), s.len() as int) =~= t);
    }
}

proof fn lemma_natural_is_read_back(n: u64)
    ensures
        text::natural_u64(text::decimal(n as nat)) == Some(n),
{
    text::lemma_decimal(n as nat);
}

proof fn lemma_bracketed(head: Seq<char>, d: Seq<char>, tail: Seq<char>)
    requires
        text::free_of(head, '('),
        text::free_of(head, ')'),
        text::free_of(d, '('),
        text::free_of(d, ')'),
    ensures
        ({
            let p = text::split_on(head + seq!['('] + (d + seq![')'] + tail), '(', ')');
            p.len() >= 2 && p[1] == d
        }),
{
    let s = head + seq!['('] + (d + seq![')'] + tail);
    let a = head.len() as int;
    let b = a + 1 + d.len();
    assert forall|k: int| 0 <= k < a implies s[k] != '(' && s[k] != ')' by {
        assert(s[k] == head[k]);
    }
    assert forall|k: int| a < k < b implies s[k] != '(' && s[k] != ')' by {
        assert(s[k] == d[k - a - 1]);
    }
    assert(s[a] == '(' && s[b] == ')');
    lemma_piece_ends(s, 0, 0, a);
    lemma_piece_ends(s, a + 1, a + 1, b);
    assert(s.subrange(a + 1, b) =~= d);
}

proof fn lemma_piece_ends(s: Seq<char>, start: int, i: int, at: int)
    requires
        0 <= start <= i <= at < s.len(),
        s[at] == '(' || s[at] == ')',
        forall|k: int| i <= k < at ==> s[k] != '(' && s[k] != ')',
    ensures
        text::split_from(s, '(', ')', start, i) == seq![s.subrange(start, at)] + text::split_from(
            s,
            '(',
            ')',
            at + 1,
            at + 1,
        ),
    decreases at - i,
{
    if i < at {
        assert(s[i] != '(' && s[i] != ')');
        lemma_piece_ends(s, start, i + 1, at);
    }
}

proof fn lemma_counted(ls: Seq<Seq<char>>, heading: Seq<char>, from: int, i: int)
    requires
        0 <= from <= i < ls.len(),
        forall|j: int| from <= j < i ==> !heading.is_prefix_of(#[trigger] ls[j]),
    ensures
        counted(ls, heading, from) == counted(ls, heading, i),
    decreases i - from,
{
    if from < i {
        assert(!heading.is_prefix_of(ls[from]));
        lemma_counted(ls, heading, from + 1, i);
    }
}

/// A past row is said to have ended, a row of another host is answered with how to restart
/// it there, and a pane of this server is planned.
pub proof fn lemma_what_a_row_opens(host: Seq<char>, pane: Seq<char>)
    requires
        remote::plain_host(host),
    ensures
        ({
            let said = opened(host + ":"@ + pane);
            host != "dead"@ ==> match said {
                OpeningView::Say(s) => text::has(
                    s,
                    "    ssh "@ + host + " taimux restart --pane "@ + pane + "\n\n"@,
                ),
                _ => false,
            }
        }),
        pane.len() > 0 && pane[0] == '%' ==> opened(pane) is Plan,
        opened("dead:"@ + pane) == OpeningView::Say(ENDED@),
{
    assert(("dead:"@ + pane).subrange(0, "dead:"@.len() as int) =~= "dead:"@);
    reveal_strlit("%");
    reveal_strlit("dead:");
    reveal_strlit("dead");
    reveal_strlit(":");
    if pane.len() > 0 && pane[0] == '%' {
        assert(pane.subrange(0, 1) =~= "%"@);
        if "dead:"@.is_prefix_of(pane) {
            assert(pane[0] == "dead:"@[0]);
        }
    }
    let id = host + ":"@ + pane;
    remote::lemma_a_composite_id_comes_apart(host, pane);
    if host != "dead"@ {
        if "dead:"@.is_prefix_of(id) {
            assert(id.subrange(0, 5) =~= "dead:"@);
            assert(id[0] == 'd' && id[1] == 'e' && id[2] == 'a' && id[3] == 'd' && id[4] == ':')
                by {
                assert(id[0] == id.subrange(0, 5)[0]);
                assert(id[1] == id.subrange(0, 5)[1]);
                assert(id[2] == id.subrange(0, 5)[2]);
                assert(id[3] == id.subrange(0, 5)[3]);
                assert(id[4] == id.subrange(0, 5)[4]);
            }
            if host.len() > 4 {
                assert(host[4] == id[4]);
                assert(remote::host_char(host[4]));
            } else if host.len() < 4 {
                assert(id[host.len() as int] == ':');
            } else {
                assert(host =~= "dead"@);
            }
        }
        let s = elsewhere(host, pane);
        let line = "    ssh "@ + host + " taimux restart --pane "@ + pane + "\n\n"@;
        reveal_strlit("    ssh ");
        reveal_strlit(
            "\x1b[0m\n\n  Restarting is local-only. From that host, or from here:\n\n    ssh ",
        );
        let long = "\x1b[0m\n\n  Restarting is local-only. From that host, or from here:\n\n    ssh "@;
        let front = long.take(long.len() - 8);
        assert("    ssh "@.len() == 8);
        assert(long =~= front + "    ssh "@);
        let head = "\x1b[1mtaimux: "@ + pane + " is on "@ + host + front;
        assert(s =~= head + line + Seq::<char>::empty());
        text::lemma_has_middle(head, line, Seq::empty());
    }
}

} // verus!
