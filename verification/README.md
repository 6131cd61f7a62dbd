# taimux

Find the agent session you want among all your tmux panes, jump to it, open a past one
again, restart one that runs outdated code, or hand its work to another agent.

`src/` is the verified library. It decides; it never reads or writes anything. What a
function returns is stated in its contract over sequences of characters, and Verus
proves that its body does so. What holds across functions stands as a public
`lemma_…` beside them.

| module | what it decides |
|---|---|
| `text`, `order`, `table`, `json`, `paths`, `env` | the vocabulary the rest is stated in |
| `proc`, `panes`, `state`, `hook`, `turn` | which panes run an agent, and what each is doing |
| `conv`, `transcript`, `agents` | which conversation a pane is in, and reading one |
| `index`, `rows`, `ansi`, `tui` | the lists: searching, laying out, the picker's keys |
| `restart`, `act`, `resurrect`, `install`, `remote`, `handoff`, `tmux` | what is done to a session, here or on another host |
| `sha256`, `sqlite`, `stat`, `log` | small parts of the above |

Five functions of std and of other crates are taken on trust, each with its contract
and a comment that says what is claimed of it: `str::to_lowercase`,
`char::is_alphanumeric` and `String::push` in `text`, the width of a text in `rows`
and the fuzzy matcher in `tui::filter`.

`app/` is the machine around it: the terminal, tmux, the file system, ssh, the clock.
It hands the library plain values and does what it is told. The agent to look for is
named by `TAIMUX_AGENT`, and its other names are made from that one.

`tests/` runs the library on concrete values.
