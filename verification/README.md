# git_stack

Record-keeping for stacked and pooled git branches, verified with
[Verus](https://github.com/verus-lang/verus).

- A **stack** is a chain of branches, each based on the one below, rooted on a
  trunk. Each branch maps to one pull request whose base is the branch below.
- A **pool** is a flat set of independent branches, each with a base of its own.

State lives outside the repository, in one directory per repository, so every
worktree and every clone of the same GitHub repository sees the same stacks and
pools.

## Layout

- `src/` is the library: every decision and computation of the `stack` and
  `pool` commands, with contracts that Verus proves.
  - `domain/`: the records, their lookups, and the errors.
  - `store`: the identity of a repository and the layout of its state.
  - `git/`, `github/`: what the `git` and `gh` binaries are asked, how their
    answers are read, the ports that operations take, and in-memory fakes.
  - `ops/`: one module per command; pool commands are under `ops/pool/`.
  - `cli/`: what can be asked on the command line, and how a run ends.
  - `clock`, `paths`, `seqs`, `style`, `text`: helpers.
- `app/` is the program around it: argument parsing, running `git` and `gh`,
  files, the lock, the branch picker, printing.
- `tests/` exercises the library.

## How contracts are phrased

Every record has a view (`StackFile@` is a `StackFileView`, and so on), and
contracts speak of views.

Operations that talk to git or GitHub take a port (`GitOps`, `GitHub`). A port
has a `history`: what was asked, with the replies. An operation's contract says
that what it added to the history is a conversation of the right form, and what
the records and the result are, given the replies. `RecordedGit` and
`RecordedGitHub` make a port out of anything that answers the calls: the program
hands them the two binaries, and nothing is assumed of what these answer.

Proof functions named `law_…` state what holds across operations: that every
branch is tracked once, that a refresh keeps what the user has seen, that every
form of a GitHub URL leads to the same entry, that a cascade leaves branches on
their parents, and so on.

## What is taken on trust

The wrappers around `time` (reading and writing RFC 3339), `sha2`, `hex` and
`char::to_uppercase`, and the specification of `String::push`. Each says above
it what it claims.
