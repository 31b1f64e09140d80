//! Reconciliation engine: compares freshly fetched tags against the record
//! of last-seen tags, decides which workflow dispatches are due, and keeps
//! the record equal to the latest successful observations.

use vstd::prelude::*;
use crate::config::{Config, ConfigView, ResolveError, Trigger, TriggerView, spec_resolve};
use crate::record::{Record, lookup, upsert, lemma_lookup_upsert};
use crate::str_eq;

verus! {

/// What one repository's observation calls for in a cycle.
pub enum Outcome {
    /// The fetch failed or returned no tag: nothing is recorded, nothing dispatched.
    FetchFailed,
    /// The tag equals the recorded one: the steady state, no dispatch.
    Unchanged,
    /// The tag changed and a dispatch-ready rule resolved: dispatch it.
    Dispatch(Trigger),
    /// The tag changed but no rule names this repository: a configuration gap.
    NoTrigger,
    /// The tag changed but no token is available for the matching rule.
    MissingToken,
    /// The tag changed but the rule lacks a workflow id or workflow repo.
    MissingWorkflow,
}

/// Mathematical image of an `Outcome`.
pub enum OutcomeView {
    FetchFailed,
    Unchanged,
    Dispatch(TriggerView),
    NoTrigger,
    MissingToken,
    MissingWorkflow,
}

impl View for Outcome {
    type V = OutcomeView;

    open spec fn view(&self) -> OutcomeView {
        match self {
            Outcome::FetchFailed => OutcomeView::FetchFailed,
            Outcome::Unchanged => OutcomeView::Unchanged,
            Outcome::Dispatch(t) => OutcomeView::Dispatch(t@),
            Outcome::NoTrigger => OutcomeView::NoTrigger,
            Outcome::MissingToken => OutcomeView::MissingToken,
            Outcome::MissingWorkflow => OutcomeView::MissingWorkflow,
        }
    }
}

/// The decision for one repository, as a function of the configuration, the
/// state it is compared against, and the freshly fetched tag: an empty tag
/// is a failed fetch; an unchanged tag is the steady state; a changed tag
/// dispatches exactly when a rule resolves and names a workflow.
pub open spec fn spec_outcome(
    cfg: ConfigView,
    state: Seq<(Seq<char>, Seq<char>)>,
    repo: Seq<char>,
    tag: Seq<char>,
) -> OutcomeView {
    if tag.len() == 0 {
        OutcomeView::FetchFailed
    } else if tag == lookup(state, repo) {
        OutcomeView::Unchanged
    } else {
        match spec_resolve(cfg, repo) {
            Err(ResolveError::NotFound) => OutcomeView::NoTrigger,
            Err(ResolveError::MissingToken) => OutcomeView::MissingToken,
            Ok(t) => {
                if t.workflow_id.len() == 0 || t.workflow_repo.len() == 0 {
                    OutcomeView::MissingWorkflow
                } else {
                    OutcomeView::Dispatch(t)
                }
            },
        }
    }
}

/// Processes one repository of a cycle: decides the outcome against the
/// current record and, for every successful fetch, upserts the fresh tag —
/// whether or not the tag changed, and whether or not a dispatch is due.
pub fn observe_repo(config: &Config, records: &mut Record, repo: &str, tag: &str) -> (o: Outcome)
    ensures
        o@ == spec_outcome(config@, old(records)@, repo@, tag@),
        final(records)@ == if tag@.len() == 0 {
            old(records)@
        } else {
            upsert(old(records)@, repo@, tag@)
        },
{
    if tag.is_empty() {
        return Outcome::FetchFailed;
    }
    let last = records.get(repo);
    let outcome = if str_eq(tag, last.as_str()) {
        Outcome::Unchanged
    } else {
        match config.get_trigger_by_target_repo(repo) {
            Err(ResolveError::NotFound) => Outcome::NoTrigger,
            Err(ResolveError::MissingToken) => Outcome::MissingToken,
            Ok(t) => {
                if t.workflow_id.as_str().is_empty() || t.workflow_repo.as_str().is_empty() {
                    Outcome::MissingWorkflow
                } else {
                    Outcome::Dispatch(t)
                }
            },
        }
    };
    records.set_tag(repo, tag);
    outcome
}

/// View of a vector of strings.
pub open spec fn strs_view(s: Seq<String>) -> Seq<Seq<char>> {
    s.map_values(|x: String| x@)
}

/// View of a vector of triggers.
pub open spec fn triggers_view(s: Seq<Trigger>) -> Seq<TriggerView> {
    s.map_values(|t: Trigger| t@)
}

/// The record contents after the first `n` repositories of a cycle: every
/// successfully fetched tag upserted, in order.
pub open spec fn cycle_state(
    state: Seq<(Seq<char>, Seq<char>)>,
    repos: Seq<Seq<char>>,
    tags: Seq<Seq<char>>,
    n: int,
) -> Seq<(Seq<char>, Seq<char>)>
    decreases n,
{
    if n <= 0 {
        state
    } else {
        let prev = cycle_state(state, repos, tags, n - 1);
        if tags[n - 1].len() == 0 {
            prev
        } else {
            upsert(prev, repos[n - 1], tags[n - 1])
        }
    }
}

/// The outcome of the repository at position `i` of a cycle, compared
/// against the record as the cycle has built it so far.
pub open spec fn cycle_outcome_at(
    cfg: ConfigView,
    state: Seq<(Seq<char>, Seq<char>)>,
    repos: Seq<Seq<char>>,
    tags: Seq<Seq<char>>,
    i: int,
) -> OutcomeView {
    spec_outcome(cfg, cycle_state(state, repos, tags, i), repos[i], tags[i])
}

/// The dispatches due from the first `n` repositories of a cycle, in order.
pub open spec fn cycle_dispatches(
    cfg: ConfigView,
    state: Seq<(Seq<char>, Seq<char>)>,
    repos: Seq<Seq<char>>,
    tags: Seq<Seq<char>>,
    n: int,
) -> Seq<TriggerView>
    decreases n,
{
    if n <= 0 {
        Seq::empty()
    } else {
        let prev = cycle_dispatches(cfg, state, repos, tags, n - 1);
        match cycle_outcome_at(cfg, state, repos, tags, n - 1) {
            OutcomeView::Dispatch(t) => prev.push(t),
            _ => prev,
        }
    }
}

/// One full reconciliation cycle over pre-fetched tags: `tags[i]` is what
/// the fetch returned for `repos[i]` (empty for a failed fetch). Updates
/// the record to reflect every successful observation and returns, in
/// order, the dispatches due. The caller performs the dispatches and
/// commits the record; dispatch failures change neither.
pub fn run_cycle(
    config: &Config,
    records: &mut Record,
    repos: &Vec<String>,
    tags: &Vec<String>,
) -> (dispatches: Vec<Trigger>)
    requires
        repos@.len() == tags@.len(),
    ensures
        final(records)@ == cycle_state(
            old(records)@,
            strs_view(repos@),
            strs_view(tags@),
            repos@.len() as int,
        ),
        triggers_view(dispatches@) == cycle_dispatches(
            config@,
            old(records)@,
            strs_view(repos@),
            strs_view(tags@),
            repos@.len() as int,
        ),
{
    let ghost state0 = records@;
    let ghost rs = strs_view(repos@);
    let ghost ts = strs_view(tags@);
    let mut dispatches: Vec<Trigger> = Vec::new();
    let n = repos.len();
    let mut i: usize = 0;
    while i < n
        invariant
            i <= n,
            n == repos@.len(),
            repos@.len() == tags@.len(),
            rs == strs_view(repos@),
            ts == strs_view(tags@),
            records@ == cycle_state(state0, rs, ts, i as int),
            triggers_view(dispatches@) == cycle_dispatches(config@, state0, rs, ts, i as int),
        decreases n - i,
    {
        let o = observe_repo(config, records, repos[i].as_str(), tags[i].as_str());
        proof {
            assert(rs[i as int] == repos@[i as int]@);
            assert(ts[i as int] == tags@[i as int]@);
            assert(o@ == cycle_outcome_at(config@, state0, rs, ts, i as int));
        }
        match o {
            Outcome::Dispatch(t) => {
                dispatches.push(t);
                proof {
                    assert(triggers_view(dispatches@)
                        =~~= cycle_dispatches(config@, state0, rs, ts, i as int + 1));
                }
            },
            _ => {},
        }
        i += 1;
    }
    dispatches
}

/// For each position of a cycle, the tag of the last successful fetch of
/// this repository among the first `n` positions, if there was one.
pub open spec fn last_fetch(
    repos: Seq<Seq<char>>,
    tags: Seq<Seq<char>>,
    repo: Seq<char>,
    n: int,
) -> Option<Seq<char>>
    decreases n,
{
    if n <= 0 {
        None
    } else if repos[n - 1] == repo && tags[n - 1].len() > 0 {
        Some(tags[n - 1])
    } else {
        last_fetch(repos, tags, repo, n - 1)
    }
}

/// Law: after a cycle the record reflects the last fetch. A repository
/// fetched successfully reads as the tag its last successful fetch
/// returned; one never fetched successfully keeps its prior value.
pub proof fn lemma_state_reflects_last_fetch(
    state: Seq<(Seq<char>, Seq<char>)>,
    repos: Seq<Seq<char>>,
    tags: Seq<Seq<char>>,
    repo: Seq<char>,
    n: int,
)
    ensures
        lookup(cycle_state(state, repos, tags, n), repo) == match last_fetch(repos, tags, repo, n) {
            Some(t) => t,
            None => lookup(state, repo),
        },
    decreases n,
{
    if n > 0 {
        lemma_state_reflects_last_fetch(state, repos, tags, repo, n - 1);
        if tags[n - 1].len() > 0 {
            lemma_lookup_upsert(cycle_state(state, repos, tags, n - 1), repos[n - 1], tags[n - 1], repo);
        }
    }
}

/// The value of a last successful fetch is the tag of some successful
/// fetch, and no later position fetches this repository successfully.
proof fn lemma_last_fetch_some(
    repos: Seq<Seq<char>>,
    tags: Seq<Seq<char>>,
    repo: Seq<char>,
    n: int,
)
    requires
        last_fetch(repos, tags, repo, n) is Some,
    ensures
        exists|k: int|
            0 <= k < n && repos[k] == repo && tags[k].len() > 0
                && tags[k] == last_fetch(repos, tags, repo, n).unwrap()
                && (forall|l: int| k < l < n && repos[l] == repo ==> tags[l].len() == 0),
    decreases n,
{
    if repos[n - 1] == repo && tags[n - 1].len() > 0 {
        let k = n - 1;
        assert(0 <= k < n && repos[k] == repo && tags[k].len() > 0
            && tags[k] == last_fetch(repos, tags, repo, n).unwrap()
            && (forall|l: int| k < l < n && repos[l] == repo ==> tags[l].len() == 0));
    } else {
        lemma_last_fetch_some(repos, tags, repo, n - 1);
        let k = choose|k: int|
            0 <= k < n - 1 && repos[k] == repo && tags[k].len() > 0
                && tags[k] == last_fetch(repos, tags, repo, n - 1).unwrap()
                && (forall|l: int| k < l < n - 1 && repos[l] == repo ==> tags[l].len() == 0);
        assert(0 <= k < n && repos[k] == repo && tags[k].len() > 0
            && tags[k] == last_fetch(repos, tags, repo, n).unwrap()
            && (forall|l: int| k < l < n && repos[l] == repo ==> tags[l].len() == 0));
    }
}

/// With no last successful fetch recorded, no position fetched this
/// repository successfully.
proof fn lemma_last_fetch_none(
    repos: Seq<Seq<char>>,
    tags: Seq<Seq<char>>,
    repo: Seq<char>,
    n: int,
)
    requires
        last_fetch(repos, tags, repo, n) is None,
    ensures
        forall|k: int| 0 <= k < n && repos[k] == repo ==> tags[k].len() == 0,
    decreases n,
{
    if n > 0 {
        lemma_last_fetch_none(repos, tags, repo, n - 1);
    }
}

/// Law: idempotence of unchanged tags. When a cycle's last successful
/// fetch of a repository returned `t`, and in the next cycle every fetch
/// of that repository returns `t` again, the next cycle's outcome for it
/// is the steady state — in particular, no dispatch.
pub proof fn lemma_unchanged_tag_no_dispatch(
    cfg: ConfigView,
    state0: Seq<(Seq<char>, Seq<char>)>,
    repos1: Seq<Seq<char>>,
    tags1: Seq<Seq<char>>,
    repos2: Seq<Seq<char>>,
    tags2: Seq<Seq<char>>,
    repo: Seq<char>,
    t: Seq<char>,
    j: int,
)
    requires
        t.len() > 0,
        last_fetch(repos1, tags1, repo, repos1.len() as int) == Some(t),
        0 <= j < repos2.len(),
        repos2[j] == repo,
        tags2[j] == t,
        forall|k: int| 0 <= k < j && repos2[k] == repo && tags2[k].len() > 0 ==> tags2[k] == t,
    ensures
        cycle_outcome_at(
            cfg,
            cycle_state(state0, repos1, tags1, repos1.len() as int),
            repos2,
            tags2,
            j,
        ) == OutcomeView::Unchanged,
{
    let state1 = cycle_state(state0, repos1, tags1, repos1.len() as int);
    lemma_state_reflects_last_fetch(state0, repos1, tags1, repo, repos1.len() as int);
    assert(lookup(state1, repo) == t);
    lemma_state_reflects_last_fetch(state1, repos2, tags2, repo, j);
    match last_fetch(repos2, tags2, repo, j) {
        Some(x) => {
            lemma_last_fetch_some(repos2, tags2, repo, j);
            assert(x == t);
        },
        None => {},
    }
    assert(lookup(cycle_state(state1, repos2, tags2, j), repo) == t);
}

/// Law: at most one dispatch per repository and change. Once a cycle has
/// dispatched for a repository, no later position naming the same
/// repository — however many rules name it — dispatches again, as long as
/// the fetches that succeed keep returning the same tag: the later
/// position either sees its fetch fail or sees the already-recorded tag.
pub proof fn lemma_at_most_one_dispatch(
    cfg: ConfigView,
    state: Seq<(Seq<char>, Seq<char>)>,
    repos: Seq<Seq<char>>,
    tags: Seq<Seq<char>>,
    i: int,
    j: int,
)
    requires
        0 <= i < j < repos.len(),
        repos.len() == tags.len(),
        repos[j] == repos[i],
        forall|k: int|
            i <= k <= j && repos[k] == repos[i] && tags[k].len() > 0 ==> tags[k] == tags[i],
        cycle_outcome_at(cfg, state, repos, tags, i) is Dispatch,
    ensures
        !(cycle_outcome_at(cfg, state, repos, tags, j) is Dispatch),
{
    let repo = repos[i];
    let t = tags[i];
    assert(t.len() > 0);
    if tags[j].len() > 0 {
        assert(tags[j] == t);
        lemma_state_reflects_last_fetch(state, repos, tags, repo, j);
        match last_fetch(repos, tags, repo, j) {
            Some(x) => {
                lemma_last_fetch_some(repos, tags, repo, j);
                let k = choose|k: int|
                    0 <= k < j && repos[k] == repo && tags[k].len() > 0
                        && tags[k] == last_fetch(repos, tags, repo, j).unwrap()
                        && (forall|l: int| k < l < j && repos[l] == repo ==> tags[l].len() == 0);
                if k < i {
                    assert(repos[i] == repo && tags[i].len() > 0);
                    assert(false);
                }
                assert(x == t);
            },
            None => {
                lemma_last_fetch_none(repos, tags, repo, j);
                assert(tags[i].len() == 0);
                assert(false);
            },
        }
        assert(lookup(cycle_state(state, repos, tags, j), repo) == t);
        assert(cycle_outcome_at(cfg, state, repos, tags, j) == OutcomeView::Unchanged);
    } else {
        assert(cycle_outcome_at(cfg, state, repos, tags, j) == OutcomeView::FetchFailed);
    }
}

} // verus!
