//! `pool rebase`: rebase every active branch of a pool onto the live head of
//! its own base. Local base refs are never moved: the remote-tracking ref is
//! what counts, and the local one only where there is none.

use vstd::prelude::*;

use crate::domain::error::{Fault, StackError};
use crate::domain::pool::{
    branch_views, Pool, PoolBranch, PoolBranchView, PoolFile, PoolFileView, PoolView,
};
use crate::git::output::{remote_ref, remote_ref_of};
use crate::git::{GitEvent, GitOps};
use crate::ops::rebase::{push_replays, replays_text};
use crate::seqs;
use crate::style;
use crate::text;

verus! {

#[derive(Debug)]
pub struct RebaseArgs {
    pub pool: Option<String>,
    pub remote: String,
    pub no_refresh: bool,
    pub cont: bool,
    pub abort: bool,
}

/// The branches that GitHub says will conflict.
pub open spec fn conflicting() -> spec_fn(PoolBranchView) -> bool {
    |b: PoolBranchView| !b.is_merged() && (b.pull_request matches Some(p) && p.mergeable == Some(
        false,
    ))
}

/// The lines that warn of branches that will conflict; none where there are
/// none.
pub open spec fn preflight_text(branches: Seq<PoolBranchView>, on: bool) -> Seq<Seq<char>> {
    let list = branches.filter(conflicting());
    if list.len() == 0 {
        Seq::empty()
    } else {
        seq![
            style::warn_of("⚠"@, on) + " "@ + text::decimal(list.len())
                + " branch(es) marked as conflicting on GitHub — expect rebase conflicts:"@,
        ] + list.map_values(|b: PoolBranchView| "    "@ + b.branch)
    }
}

/// The lines that warn of branches that will conflict.
pub fn preflight(pool: &Pool, on: bool) -> (r: Vec<String>)
    ensures
        text::views(r@) == preflight_text(pool@.branches, on),
{
    let ghost all = pool@.branches;
    let ghost f = |b: PoolBranchView| "    "@ + b.branch;
    let mut lines: Vec<String> = Vec::new();
    let mut i: usize = 0;
    assert(text::views(lines@) =~= all.take(0).filter(conflicting()).map_values(f)) by {
        reveal(Seq::filter);
    }
    while i < pool.branches.len()
        invariant
            i <= pool.branches.len(),
            all == branch_views(pool.branches@),
            f == (|b: PoolBranchView| "    "@ + b.branch),
            text::views(lines@) == all.take(i as int).filter(conflicting()).map_values(f),
        decreases pool.branches.len() - i,
    {
        proof {
            seqs::lemma_filter_step(all, i as int, conflicting());
        }
        let ghost before = text::views(lines@);
        let ghost kept = all.take(i as int).filter(conflicting());
        let b = &pool.branches[i];
        assert(all[i as int] == b@);
        let conflicts = match &b.pull_request {
            Some(p) => match p.mergeable {
                Some(m) => !m && !p.merged,
                None => false,
            },
            None => false,
        };
        if conflicts {
            let line = text::cat("    ", b.branch.as_str());
            let ghost model = line@;
            lines.push(line);
            assert(text::views(lines@) =~= before.push(model));
            assert(kept.push(all[i as int]).map_values(f) =~= kept.map_values(f).push(model));
        }
        i = i + 1;
    }
    assert(all.take(pool.branches.len() as int) =~= all);
    assert(text::views(lines@).len() == all.filter(conflicting()).len());
    if lines.len() == 0 {
        assert(text::views(lines@) =~= preflight_text(all, on));
        return lines;
    }
    let n: usize = lines.len();
    let mut s = text::cat3(
        style::warn("⚠", on).as_str(),
        " ",
        text::to_decimal(n as u64).as_str(),
    );
    s.append(" branch(es) marked as conflicting on GitHub — expect rebase conflicts:");
    let mut out: Vec<String> = Vec::new();
    out.push(s);
    let ghost head = out@;
    let ghost tail = lines@;
    out.append(&mut lines);
    assert(text::views(out@) =~= text::views(head) + text::views(tail));
    assert(text::views(out@) =~= preflight_text(all, on));
    out
}

/// What came of one branch.
#[derive(Debug)]
pub enum BranchOutcome {
    /// The branch is merged and stays as it is.
    Merged,
    /// Its base is neither on the remote nor here.
    NoBase { base: String },
    /// Its base has not moved.
    UpToDate,
    /// It was rebased.
    Rebased { base: String, new_base: String, rerere_replays: usize },
}

#[verifier::ext_equal]
pub enum OutcomeView {
    Merged,
    NoBase { base: Seq<char> },
    UpToDate,
    Rebased { base: Seq<char>, new_base: Seq<char>, rerere_replays: usize },
}

impl View for BranchOutcome {
    type V = OutcomeView;

    open spec fn view(&self) -> OutcomeView {
        match *self {
            BranchOutcome::Merged => OutcomeView::Merged,
            BranchOutcome::NoBase { base } => OutcomeView::NoBase { base: base@ },
            BranchOutcome::UpToDate => OutcomeView::UpToDate,
            BranchOutcome::Rebased { base, new_base, rerere_replays } => OutcomeView::Rebased {
                base: base@,
                new_base: new_base@,
                rerere_replays,
            },
        }
    }
}

/// What was asked of git for one branch: where its base is, and then, where
/// the base has moved, to rebase, and for the new head.
pub struct RebaseTalk {
    pub lookups: Seq<GitEvent>,
    pub moves: Seq<GitEvent>,
}

/// The commit that a lookup found.
pub open spec fn found(e: GitEvent) -> Option<Seq<char>> {
    match e {
        GitEvent::RevParse { reply: Ok(s), .. } => Some(s@),
        _ => None,
    }
}

impl RebaseTalk {
    pub open spec fn events(self) -> Seq<GitEvent> {
        self.lookups + self.moves
    }

    /// Whether the base was looked up as it should be: on the remote, then
    /// here. A merged branch is not looked at.
    pub open spec fn looks_up(
        self,
        b: PoolBranchView,
        base: Seq<char>,
        remote: Seq<char>,
    ) -> bool {
        if b.is_merged() {
            self.lookups.len() == 0
        } else {
            &&& self.lookups.len() > 0
            &&& self.lookups[0] matches GitEvent::RevParse { rev, .. } && rev == remote_ref_of(
                remote,
                base,
            )
            &&& if found(self.lookups[0]) is Some {
                self.lookups.len() == 1
            } else {
                self.lookups.len() == 2 && (self.lookups[1] matches GitEvent::RevParse {
                    rev,
                    ..
                } && rev == base)
            }
        }
    }

    /// Where the base is now.
    pub open spec fn new_base(self) -> Option<Seq<char>> {
        if self.lookups.len() == 0 {
            None
        } else {
            found(self.lookups.last())
        }
    }

    /// Whether the branch has to move.
    pub open spec fn moved(self, b: PoolBranchView) -> bool {
        self.new_base() matches Some(n) && n != b.base
    }

    pub open spec fn complete(
        self,
        b: PoolBranchView,
        base: Seq<char>,
        remote: Seq<char>,
    ) -> bool {
        &&& self.looks_up(b, base, remote)
        &&& if self.moved(b) {
            &&& self.moves.len() > 0
            &&& self.moves[0] matches GitEvent::RebaseOnto { new_base, old_base, branch, reply }
            &&& new_base == self.new_base()->0
            &&& old_base == b.base
            &&& branch == b.branch
            &&& match reply {
                Err(_) => self.moves.len() == 1,
                Ok(_) => self.moves.len() == 2 && (self.moves[1] matches GitEvent::RevParse {
                    rev,
                    ..
                } && rev == b.branch),
            }
        } else {
            self.moves.len() == 0
        }
    }

    pub open spec fn failed(self, b: PoolBranchView) -> Option<Fault> {
        if self.moved(b) {
            match self.moves[0] {
                GitEvent::RebaseOnto { reply: Err(e), .. } => Some(e@),
                _ => match self.moves[1] {
                    GitEvent::RevParse { reply: Err(e), .. } => Some(e@),
                    _ => None,
                },
            }
        } else {
            None
        }
    }

    pub open spec fn outcome(self, b: PoolBranchView, base: Seq<char>) -> OutcomeView {
        if b.is_merged() {
            OutcomeView::Merged
        } else {
            match self.new_base() {
                None => OutcomeView::NoBase { base },
                Some(n) => if n == b.base {
                    OutcomeView::UpToDate
                } else {
                    OutcomeView::Rebased {
                        base,
                        new_base: n,
                        rerere_replays: match self.moves[0] {
                            GitEvent::RebaseOnto { reply: Ok(o), .. } => o.rerere_replays,
                            _ => 0,
                        },
                    }
                },
            }
        }
    }

    /// The branch afterwards: one that was rebased records its new base and
    /// head.
    pub open spec fn result(self, b: PoolBranchView) -> PoolBranchView {
        if self.moved(b) && self.failed(b) is None {
            PoolBranchView {
                base: self.new_base()->0,
                head: found(self.moves[1]),
                ..b
            }
        } else {
            b
        }
    }
}

/// The file with one branch of one pool replaced.
pub open spec fn with_branch_at(
    file: PoolFileView,
    pool: int,
    i: int,
    b: PoolBranchView,
) -> PoolFileView {
    PoolFileView {
        pools: file.pools.update(
            pool,
            PoolView {
                branches: file.pools[pool].branches.update(i, b),
                ..file.pools[pool]
            },
        ),
        ..file
    }
}

/// Whether `talk` rebases one branch of a pool, turns one file into another
/// and returns `r`.
pub open spec fn rebases(
    talk: RebaseTalk,
    before: PoolFileView,
    pool: int,
    i: int,
    remote: Seq<char>,
    after: PoolFileView,
    r: Result<BranchOutcome, StackError>,
) -> bool {
    let b = before.pools[pool].branches[i];
    let base = b.effective_base(before.pools[pool].trunk.branch);
    &&& talk.complete(b, base, remote)
    &&& after == with_branch_at(before, pool, i, talk.result(b))
    &&& match talk.failed(b) {
        Some(f) => r matches Err(e) && e@ == f,
        None => r matches Ok(o) && o@ == talk.outcome(b, base),
    }
}

fn rebase_one<G: GitOps>(git: &mut G, b: &mut PoolBranch, base: &str, remote: &str) -> (r: (
    Result<BranchOutcome, StackError>,
    Ghost<RebaseTalk>,
))
    ensures
        final(git).history() == old(git).history() + r.1@.events(),
        r.1@.complete(old(b)@, base@, remote@),
        final(b)@ == r.1@.result(old(b)@),
        match r.1@.failed(old(b)@) {
            Some(f) => r.0 matches Err(e) && e@ == f,
            None => r.0 matches Ok(o) && o@ == r.1@.outcome(old(b)@, base@),
        },
{
    let ghost before = b@;
    let ghost nothing: Seq<GitEvent> = Seq::empty();
    let ghost mut lookups: Seq<GitEvent> = Seq::empty();
    if b.is_merged() {
        let ghost talk = RebaseTalk { lookups, moves: nothing };
        assert(git.history() =~= old(git).history() + talk.events());
        return (Ok(BranchOutcome::Merged), Ghost(talk));
    }
    let tracking = remote_ref(remote, base);
    let reply = git.rev_parse(tracking.as_str());
    proof {
        lookups = lookups.push(GitEvent::RevParse { rev: tracking@, reply });
    }
    let new_base = match reply {
        Ok(s) => s,
        Err(_) => {
            let reply = git.rev_parse(base);
            proof {
                lookups = lookups.push(GitEvent::RevParse { rev: base@, reply });
            }
            match reply {
                Ok(s) => s,
                Err(_) => {
                    let ghost talk = RebaseTalk { lookups, moves: nothing };
                    assert(git.history() =~= old(git).history() + talk.events());
                    return (Ok(BranchOutcome::NoBase { base: base.to_string() }), Ghost(talk));
                },
            }
        },
    };
    assert(git.history() =~= old(git).history() + lookups);
    if b.base == new_base {
        let ghost talk = RebaseTalk { lookups, moves: nothing };
        assert(git.history() =~= old(git).history() + talk.events());
        return (Ok(BranchOutcome::UpToDate), Ghost(talk));
    }
    let reply = git.rebase_onto(new_base.as_str(), b.base.as_str(), b.branch.as_str());
    let ghost mut moves = nothing.push(
        GitEvent::RebaseOnto {
            new_base: new_base@,
            old_base: b.base@,
            branch: b.branch@,
            reply,
        },
    );
    assert(git.history() =~= old(git).history() + lookups + moves);
    let replays = match reply {
        Err(e) => {
            let ghost talk = RebaseTalk { lookups, moves };
            assert(git.history() =~= old(git).history() + talk.events());
            return (Err(e), Ghost(talk));
        },
        Ok(o) => o.rerere_replays,
    };
    let reply = git.rev_parse(b.branch.as_str());
    proof {
        moves = moves.push(GitEvent::RevParse { rev: b.branch@, reply });
    }
    let ghost talk = RebaseTalk { lookups, moves };
    assert(git.history() =~= old(git).history() + talk.events());
    match reply {
        Err(e) => (Err(e), Ghost(talk)),
        Ok(head) => {
            b.base = new_base.clone();
            b.head = Some(head);
            (
                Ok(
                    BranchOutcome::Rebased {
                        base: base.to_string(),
                        new_base,
                        rerere_replays: replays,
                    },
                ),
                Ghost(talk),
            )
        },
    }
}

/// Rebase the branch at `i` of a pool onto its base. What was done for earlier
/// branches stays recorded where this one fails, so that a rerun goes on from
/// there.
pub fn rebase_branch<G: GitOps>(
    git: &mut G,
    file: &mut PoolFile,
    pool_index: usize,
    i: usize,
    remote: &str,
) -> (r: Result<BranchOutcome, StackError>)
    requires
        pool_index < old(file).pools@.len(),
        i < old(file).pools@[pool_index as int].branches@.len(),
    ensures
        exists|talk: RebaseTalk|
            #[trigger] rebases(
                talk,
                old(file)@,
                pool_index as int,
                i as int,
                remote@,
                final(file)@,
                r,
            ) && final(git).history() == old(git).history() + talk.events(),
        final(file).pools@.len() == old(file).pools@.len(),
        final(file).pools@[pool_index as int].branches@.len() == old(
            file,
        ).pools@[pool_index as int].branches@.len(),
{
    let ghost before = file@;
    let ghost list = file.pools@[pool_index as int].branches@;
    assert(before.pools[pool_index as int] == file.pools@[pool_index as int]@);
    assert(branch_views(list)[i as int] == list[i as int]@);
    let base = {
        let pool = &file.pools[pool_index];
        pool.branches[i].effective_base_branch(pool).to_string()
    };
    let (outcome, Ghost(talk)) = rebase_one(
        git,
        &mut file.pools[pool_index].branches[i],
        base.as_str(),
        remote,
    );
    proof {
        let after = file.pools@[pool_index as int].branches@;
        assert(branch_views(after) =~= branch_views(list).update(
            i as int,
            talk.result(list[i as int]@),
        ));
        assert(file@.pools =~= with_branch_at(
            before,
            pool_index as int,
            i as int,
            talk.result(list[i as int]@),
        ).pools);
        assert(rebases(
            talk,
            before,
            pool_index as int,
            i as int,
            remote@,
            file@,
            outcome,
        ));
    }
    outcome
}

/// A branch that was just rebased needs no rebase while its base stays where
/// it is.
pub proof fn law_rebased_is_up_to_date(
    first: RebaseTalk,
    again: RebaseTalk,
    b: PoolBranchView,
    base: Seq<char>,
    remote: Seq<char>,
)
    requires
        first.complete(b, base, remote),
        first.failed(b) is None,
        first.outcome(b, base) is Rebased,
        again.complete(first.result(b), base, remote),
        again.new_base() == first.new_base(),
    ensures
        again.outcome(first.result(b), base) == OutcomeView::UpToDate,
        again.result(first.result(b)) == first.result(b),
        again.moves.len() == 0,
{
}

/// A merged branch is left alone, and git is not asked about it.
pub proof fn law_merged_is_left_alone(
    talk: RebaseTalk,
    b: PoolBranchView,
    base: Seq<char>,
    remote: Seq<char>,
)
    requires
        b.is_merged(),
        talk.complete(b, base, remote),
    ensures
        talk.events().len() == 0,
        talk.result(b) == b,
{
}

/// What is reported of one branch: nothing where it stayed as it was.
pub open spec fn outcome_text(branch: Seq<char>, remote: Seq<char>, o: OutcomeView) -> Seq<
    Seq<char>,
> {
    match o {
        OutcomeView::NoBase { base } => seq![
            "ℹ skipping "@ + branch + ": base ref `"@ + base + "` not found (locally or on "@
                + remote + ")"@,
        ],
        OutcomeView::Rebased { base, new_base, rerere_replays } => seq![
            "✓ rebased "@ + branch + " onto "@ + base + " ("@ + text::start_of(new_base, 7) + ")"@,
        ] + replays_text(rerere_replays),
        _ => Seq::empty(),
    }
}

/// What to report of one branch.
pub fn outcome_lines(branch: &str, remote: &str, o: &BranchOutcome) -> (r: Vec<String>)
    ensures
        text::views(r@) == outcome_text(branch@, remote@, o@),
{
    let mut out: Vec<String> = Vec::new();
    match o {
        BranchOutcome::NoBase { base } => {
            let mut line = text::cat3("ℹ skipping ", branch, ": base ref `");
            line.append(base.as_str());
            line.append("` not found (locally or on ");
            line.append(remote);
            line.append(")");
            let ghost model = line@;
            out.push(line);
            assert(text::views(out@) =~= seq![model]);
        },
        BranchOutcome::Rebased { base, new_base, rerere_replays } => {
            let mut line = text::cat3("✓ rebased ", branch, " onto ");
            line.append(base.as_str());
            line.append(" (");
            line.append(text::shorten(new_base.as_str(), 7).as_str());
            line.append(")");
            let ghost model = line@;
            out.push(line);
            assert(text::views(out@) =~= seq![model]);
            push_replays(*rerere_replays, &mut out);
        },
        _ => {
            assert(text::views(out@) =~= Seq::<Seq<char>>::empty());
        },
    }
    out
}

/// A pass over the branches of a pool.
#[derive(Debug, Clone, Copy, PartialEq, Eq, Structural)]
pub struct Pass {
    pub pool_index: usize,
    /// The branch that comes next.
    pub next: usize,
    /// Whether a branch was rebased so far.
    pub moved: bool,
}

/// What one step of a pass came to.
#[derive(Debug)]
pub enum PassStep {
    /// Every branch was looked at: tell the user this.
    Finished(String),
    /// A branch stayed where it is: tell the user this.
    Left(Vec<String>),
    /// A branch was rebased and recorded: save, and tell the user this.
    Rebased(Vec<String>),
}

/// How a pass is summed up.
pub open spec fn summary(label: Seq<char>, moved: bool) -> Seq<char> {
    "✓ pool "@ + label + if moved {
        " rebased"@
    } else {
        " already up to date"@
    }
}

/// Whether `talk` takes a pass one branch further.
pub open spec fn passes(
    talk: RebaseTalk,
    before: Pass,
    file: PoolFileView,
    remote: Seq<char>,
    after: Pass,
    saved: PoolFileView,
    r: Result<PassStep, StackError>,
) -> bool {
    let pool = file.pools[before.pool_index as int];
    let b = pool.branches[before.next as int];
    let base = b.effective_base(pool.trunk.branch);
    let outcome = talk.outcome(b, base);
    &&& talk.complete(b, base, remote)
    &&& saved == with_branch_at(
        file,
        before.pool_index as int,
        before.next as int,
        talk.result(b),
    )
    &&& match talk.failed(b) {
        Some(f) => after == before && (r matches Err(e) && e@ == f),
        None => {
            &&& after.pool_index == before.pool_index
            &&& after.next == before.next + 1
            &&& after.moved == (before.moved || outcome is Rebased)
            &&& if outcome is Rebased {
                r matches Ok(PassStep::Rebased(lines)) && text::views(lines@) == outcome_text(
                    b.branch,
                    remote,
                    outcome,
                )
            } else {
                r matches Ok(PassStep::Left(lines)) && text::views(lines@) == outcome_text(
                    b.branch,
                    remote,
                    outcome,
                )
            }
        },
    }
}

impl Pass {
    /// A pass over the pool at `pool_index`, from its first branch on.
    pub fn start(pool_index: usize) -> (r: Self)
        ensures
            r == (Pass { pool_index, next: 0, moved: false }),
    {
        Pass { pool_index, next: 0, moved: false }
    }

    /// Rebase the next branch onto its base.
    pub fn advance<G: GitOps>(&mut self, git: &mut G, file: &mut PoolFile, remote: &str) -> (r:
        Result<PassStep, StackError>)
        requires
            old(self).pool_index < old(file).pools@.len(),
        ensures
            final(self).pool_index == old(self).pool_index,
            final(file).pools@.len() == old(file).pools@.len(),
            if old(self).next >= old(file)@.pools[old(self).pool_index as int].branches.len() {
                &&& r matches Ok(PassStep::Finished(line))
                &&& line@ == summary(
                    old(file)@.pools[old(self).pool_index as int].label(),
                    old(self).moved,
                )
                &&& *final(self) == *old(self)
                &&& final(file)@ == old(file)@
                &&& final(git).history() == old(git).history()
            } else {
                exists|talk: RebaseTalk|
                    #[trigger] passes(
                        talk,
                        *old(self),
                        old(file)@,
                        remote@,
                        *final(self),
                        final(file)@,
                        r,
                    ) && final(git).history() == old(git).history() + talk.events()
            },
    {
        let ghost before = *self;
        let ghost start = file@;
        let ghost asked = git.history();
        let p: usize = self.pool_index;
        let i: usize = self.next;
        assert(start.pools[p as int] == file.pools@[p as int]@);
        if i >= file.pools[p].branches.len() {
            let line = text::cat3(
                "✓ pool ",
                file.pools[p].display_label(),
                if self.moved {
                    " rebased"
                } else {
                    " already up to date"
                },
            );
            return Ok(PassStep::Finished(line));
        }
        assert(start.pools[p as int].branches[i as int]
            == file.pools@[p as int].branches@[i as int]@);
        let name = file.pools[p].branches[i].branch.clone();
        let outcome = rebase_branch(git, file, p, i, remote);
        let ghost talk = choose|talk: RebaseTalk|
            #[trigger] rebases(talk, start, p as int, i as int, remote@, file@, outcome)
                && git.history() == asked + talk.events();
        assert(rebases(talk, start, p as int, i as int, remote@, file@, outcome));
        match outcome {
            Err(e) => {
                assert(passes(talk, before, start, remote@, *self, file@, Err(e)));
                Err(e)
            },
            Ok(o) => {
                let lines = outcome_lines(name.as_str(), remote, &o);
                self.next = i + 1;
                match o {
                    BranchOutcome::Rebased { .. } => {
                        self.moved = true;
                        let r = PassStep::Rebased(lines);
                        assert(passes(talk, before, start, remote@, *self, file@, Ok(r)));
                        Ok(r)
                    },
                    _ => {
                        let r = PassStep::Left(lines);
                        assert(passes(talk, before, start, remote@, *self, file@, Ok(r)));
                        Ok(r)
                    },
                }
            },
        }
    }
}

/// The commit that git gave for a name, where it gave one.
pub open spec fn gives(e: GitEvent, name: Seq<char>, sha: Seq<char>) -> bool {
    e matches GitEvent::RevParse { rev, reply: Ok(s) } && rev == name && s@ == sha
}

/// Whether `onto` is where git says that the base of a branch is: what the
/// remote has counts, and the local one only where the remote has none. The base
/// is the branch's own, or the pool's trunk where it names none.
pub open spec fn live_base(
    events: Seq<GitEvent>,
    b: PoolBranchView,
    trunk: Seq<char>,
    remote: Seq<char>,
    onto: Seq<char>,
) -> bool {
    let name = if b.base_branch.len() > 0 {
        b.base_branch
    } else {
        trunk
    };
    let tracking = "refs/remotes/"@ + remote + "/"@ + name;
    &&& events.len() > 0
    &&& events[0] matches GitEvent::RevParse { rev, reply } && rev == tracking && match reply {
        Ok(s) => s@ == onto,
        Err(_) => events.len() > 1 && gives(events[1], name, onto),
    }
}

/// A branch that was rebased was put onto the commit that git gave for its own
/// base, replayed from the base recorded before; that commit is recorded, with
/// the head that git gave afterwards. Nothing else changes, and in every other
/// case nothing does. A branch stays where it is only where it is merged, its
/// base is not known, or its base has not moved.
pub proof fn law_rebase_goes_onto_base(
    talk: RebaseTalk,
    before: PoolFileView,
    pool: int,
    i: int,
    remote: Seq<char>,
    after: PoolFileView,
    r: Result<BranchOutcome, StackError>,
)
    requires
        rebases(talk, before, pool, i, remote, after, r),
        0 <= pool < before.pools.len(),
        0 <= i < before.pools[pool].branches.len(),
    ensures
        ({
            let was = before.pools[pool].branches[i];
            let is = after.pools[pool].branches[i];
            let trunk = before.pools[pool].trunk.branch;
            let merged = was.pull_request matches Some(p) && p.merged;
            let e = talk.events();
            let n = e.len() as int;
            &&& r matches Ok(BranchOutcome::Rebased { new_base, base, rerere_replays }) ==> {
                &&& !merged
                &&& live_base(e, was, trunk, remote, new_base@)
                &&& n >= 3
                &&& e[n - 2] matches GitEvent::RebaseOnto {
                    new_base: onto,
                    old_base,
                    branch,
                    reply: Ok(o),
                } && onto == new_base@ && old_base == was.base && branch == was.branch
                    && o.rerere_replays == rerere_replays
                &&& e[n - 1] matches GitEvent::RevParse { rev, reply: Ok(head) } && rev
                    == was.branch && is.head == Some(head@)
                &&& is.base == new_base@ && is.base != was.base
                &&& is.branch == was.branch && is.base_branch == was.base_branch
                    && is.pull_request == was.pull_request
                &&& base@ == (if was.base_branch.len() > 0 {
                    was.base_branch
                } else {
                    trunk
                })
            }
            &&& !(r matches Ok(BranchOutcome::Rebased { .. })) ==> after == before
            &&& r matches Ok(BranchOutcome::Merged) ==> merged && n == 0
            &&& r matches Ok(BranchOutcome::UpToDate) ==> !merged && live_base(
                e,
                was,
                trunk,
                remote,
                was.base,
            )
            &&& r matches Ok(BranchOutcome::NoBase { .. }) ==> !merged && n == 2 && (
            e[0] matches GitEvent::RevParse { reply: Err(_), .. }) && (
            e[1] matches GitEvent::RevParse { reply: Err(_), .. })
            &&& r matches Err(f) ==> n > 0 && match e[n - 1] {
                GitEvent::RebaseOnto { reply: Err(g), .. } => f@ == g@,
                GitEvent::RevParse { reply: Err(g), .. } => f@ == g@,
                _ => false,
            }
            &&& forall|p: int, j: int|
                #![trigger after.pools[p].branches[j]]
                0 <= p < before.pools.len() && 0 <= j < before.pools[p].branches.len() && (p != pool
                    || j != i) ==> after.pools[p].branches[j] == before.pools[p].branches[j]
        }),
{
    let was = before.pools[pool].branches[i];
    let e = talk.events();
    let n = e.len() as int;
    assert forall|k: int| 0 <= k < talk.lookups.len() implies e[k] == #[trigger] talk.lookups[k] by {
    }
    assert forall|k: int| 0 <= k < talk.moves.len() implies e[talk.lookups.len() + k]
        == #[trigger] talk.moves[k] by {}
    if talk.lookups.len() > 0 {
        assert(e[0] == talk.lookups[0]);
    }
    if talk.lookups.len() > 1 {
        assert(e[1] == talk.lookups[1]);
    }
    if talk.moves.len() > 0 {
        assert(e[talk.lookups.len() as int] == talk.moves[0]);
    }
    if talk.moves.len() > 1 {
        assert(e[(talk.lookups.len() + 1) as int] == talk.moves[1]);
    }
    if talk.result(was) == was {
        assert(after.pools[pool].branches =~= before.pools[pool].branches);
        assert(after.pools =~= before.pools);
    }
}

/// A step of a pass is about the next branch alone. A branch is told as rebased
/// where git was asked to put it onto the commit that it gave for its base, from
/// the base recorded before, and is recorded there; then the pass has moved
/// something. Where git fails, the pass stays at the branch.
pub proof fn law_pass_goes_onto_base(
    talk: RebaseTalk,
    before: Pass,
    file: PoolFileView,
    remote: Seq<char>,
    after: Pass,
    saved: PoolFileView,
    r: Result<PassStep, StackError>,
)
    requires
        passes(talk, before, file, remote, after, saved, r),
        before.pool_index < file.pools.len(),
        before.next < file.pools[before.pool_index as int].branches.len(),
    ensures
        ({
            let pool = file.pools[before.pool_index as int];
            let was = pool.branches[before.next as int];
            let is = saved.pools[before.pool_index as int].branches[before.next as int];
            let e = talk.events();
            let n = e.len() as int;
            &&& r matches Ok(PassStep::Rebased(_)) ==> {
                &&& n >= 3
                &&& live_base(e, was, pool.trunk.branch, remote, is.base)
                &&& e[n - 2] matches GitEvent::RebaseOnto { new_base, old_base, branch, .. }
                    && new_base == is.base && old_base == was.base && branch == was.branch
                &&& e[n - 1] matches GitEvent::RevParse { rev, reply: Ok(head) } && rev
                    == was.branch && is.head == Some(head@)
                &&& after.moved && after.next == before.next + 1
            }
            &&& r matches Ok(PassStep::Left(_)) ==> saved == file && after.moved == before.moved
                && after.next == before.next + 1
            &&& r is Err ==> saved == file && after == before
            &&& !(r matches Ok(PassStep::Finished(_)))
            &&& after.pool_index == before.pool_index
        }),
{
    let pool = file.pools[before.pool_index as int];
    let was = pool.branches[before.next as int];
    let e = talk.events();
    assert forall|k: int| 0 <= k < talk.lookups.len() implies e[k] == #[trigger] talk.lookups[k] by {
    }
    if talk.lookups.len() > 0 {
        assert(e[0] == talk.lookups[0]);
    }
    if talk.lookups.len() > 1 {
        assert(e[1] == talk.lookups[1]);
    }
    if talk.moves.len() > 0 {
        assert(e[talk.lookups.len() as int] == talk.moves[0]);
    }
    if talk.moves.len() > 1 {
        assert(e[(talk.lookups.len() + 1) as int] == talk.moves[1]);
    }
    if talk.result(was) == was {
        assert(saved.pools[before.pool_index as int].branches =~= pool.branches);
        assert(saved.pools =~= file.pools);
    }
}

/// The warning before a rebase names exactly the branches that are not merged and
/// that GitHub says conflict, and is empty where there is none.
pub proof fn law_preflight_names_conflicts(branches: Seq<PoolBranchView>, on: bool, i: int)
    requires
        0 <= i < branches.len(),
    ensures
        ({
            let lines = preflight_text(branches, on);
            let warned = branches[i].pull_request matches Some(p) && !p.merged && p.mergeable
                == Some(false);
            &&& warned ==> lines.len() > 1 && lines.contains("    "@ + branches[i].branch)
            &&& lines.len() > 0 ==> exists|j: int|
                0 <= j < branches.len() && ((
                #[trigger] branches[j]).pull_request matches Some(p) && !p.merged && p.mergeable
                    == Some(false))
            &&& forall|k: int|
                1 <= k < lines.len() ==> exists|j: int|
                    0 <= j < branches.len() && #[trigger] lines[k] == "    "@ + (
                    #[trigger] branches[j]).branch && (
                    branches[j].pull_request matches Some(p) && !p.merged && p.mergeable == Some(
                        false,
                    ))
        }),
{
    let list = branches.filter(conflicting());
    let lines = preflight_text(branches, on);
    let places = seqs::lemma_filter_places(branches, conflicting());
    if branches[i].pull_request matches Some(p) && !p.merged && p.mergeable == Some(false) {
        assert(conflicting()(branches[i]));
        let k = choose|k: int| 0 <= k < places.len() && places[k] == i;
        assert(lines[k + 1] == "    "@ + branches[i].branch);
    }
    if lines.len() > 0 {
        assert(conflicting()(branches[places[0]]));
    }
    assert forall|k: int| 1 <= k < lines.len() implies exists|j: int|
        0 <= j < branches.len() && #[trigger] lines[k] == "    "@ + (#[trigger] branches[j]).branch
            && (branches[j].pull_request matches Some(p) && !p.merged && p.mergeable == Some(
            false,
        )) by {
        let j = places[k - 1];
        assert(conflicting()(branches[j]));
        assert(lines[k] == "    "@ + list[k - 1].branch);
        assert(lines[k] == "    "@ + branches[j].branch);
    }
}

/// A branch that was rebased is told with its base and the commit that it sits on
/// now; one whose base was not found is told with that base. The others are
/// passed over in silence.
pub proof fn law_outcome_is_told(branch: Seq<char>, remote: Seq<char>, o: OutcomeView)
    ensures
        ({
            let lines = outcome_text(branch, remote, o);
            &&& o matches OutcomeView::Rebased { base, new_base, .. } ==> lines.len() > 0
                && lines[0] == "✓ rebased "@ + branch + " onto "@ + base + " ("@ + text::start_of(
                new_base,
                7,
            ) + ")"@
            &&& o matches OutcomeView::Rebased { rerere_replays, .. } ==> (lines.len() == 2
                <==> rerere_replays > 0)
            &&& o matches OutcomeView::NoBase { base } ==> lines.len() == 1 && text::has_part(
                lines[0],
                base,
            ) && text::has_part(lines[0], branch) && text::has_part(lines[0], remote)
            &&& !(o is Rebased) && !(o is NoBase) ==> lines.len() == 0
        }),
{
    if let OutcomeView::NoBase { base } = o {
        text::lemma_part_whole(branch);
        text::lemma_part_whole(base);
        text::lemma_part_whole(remote);
        let a = "ℹ skipping "@;
        let b = a + branch + ": base ref `"@;
        let c = b + base + "` not found (locally or on "@;
        text::lemma_part_within(a, branch, ": base ref `"@, branch);
        text::lemma_part_left(b, base, branch);
        text::lemma_part_left(b + base, "` not found (locally or on "@, branch);
        text::lemma_part_left(c, remote, branch);
        text::lemma_part_left(c + remote, ")"@, branch);
        text::lemma_part_within(b, base, "` not found (locally or on "@, base);
        text::lemma_part_left(c, remote, base);
        text::lemma_part_left(c + remote, ")"@, base);
        text::lemma_part_within(c, remote, ")"@, remote);
    }
}

/// A pass remembers whether any branch has moved so far, and goes on to the next
/// branch unless git failed; then it stays where it is.
pub proof fn law_pass_remembers_moves(
    talk: RebaseTalk,
    before: Pass,
    file: PoolFileView,
    remote: Seq<char>,
    after: Pass,
    saved: PoolFileView,
    r: Result<PassStep, StackError>,
)
    requires
        passes(talk, before, file, remote, after, saved, r),
        before.pool_index < file.pools.len(),
        before.next < file.pools[before.pool_index as int].branches.len(),
    ensures
        after.pool_index == before.pool_index,
        r is Ok ==> after.next == before.next + 1,
        r is Err ==> after.next == before.next && after.moved == before.moved && saved == file,
        ({
            let p = before.pool_index as int;
            let i = before.next as int;
            let moved = saved.pools[p].branches[i].base != file.pools[p].branches[i].base;
            r matches Ok(step) ==> (after.moved <==> before.moved || moved) && (step is Rebased
                <==> moved)
        }),
{
    let p = before.pool_index as int;
    let i = before.next as int;
    assert(saved.pools[p].branches[i] == talk.result(file.pools[p].branches[i]));
    if r is Err {
        assert(saved.pools[p].branches =~= file.pools[p].branches);
        assert(saved.pools =~= file.pools);
    }
}

/// A pass is summed up with the name of the pool and whether anything moved.
pub proof fn law_summary_tells_moves(label: Seq<char>)
    ensures
        text::has_part(summary(label, true), label),
        text::has_part(summary(label, true), "rebased"@),
        text::has_part(summary(label, false), label),
        text::has_part(summary(label, false), "already up to date"@),
{
    reveal_strlit(" rebased");
    reveal_strlit("rebased");
    reveal_strlit(" already up to date");
    reveal_strlit("already up to date");
    text::lemma_part_whole(label);
    text::lemma_part_whole("rebased"@);
    text::lemma_part_whole("already up to date"@);
    let head = "✓ pool "@ + label;
    text::lemma_part_right("✓ pool "@, label, label);
    text::lemma_part_left(head, " rebased"@, label);
    text::lemma_part_left(head, " already up to date"@, label);
    text::lemma_part_right(seq![' '], "rebased"@, "rebased"@);
    assert(seq![' '] + "rebased"@ =~= " rebased"@);
    text::lemma_part_right(head, " rebased"@, "rebased"@);
    text::lemma_part_right(seq![' '], "already up to date"@, "already up to date"@);
    assert(seq![' '] + "already up to date"@ =~= " already up to date"@);
    text::lemma_part_right(head, " already up to date"@, "already up to date"@);
}

} // verus!
