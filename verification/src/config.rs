//! Configuration model: trigger rules, global defaults, and trigger
//! resolution (lookup by target repository plus token substitution).

use vstd::prelude::*;
use crate::str_eq;

verus! {

/// One configured watch: a target repository and the workflow to start when
/// its latest release tag changes.
#[derive(Debug)]
pub struct Trigger {
    pub target_repo: String,
    pub workflow_repo: String,
    pub workflow_id: String,
    pub workflow_ref: String,
    pub token: Option<String>,
    pub inputs: Option<String>,
}

/// Mathematical image of a `Trigger`: each text field as a character sequence.
pub struct TriggerView {
    pub target_repo: Seq<char>,
    pub workflow_repo: Seq<char>,
    pub workflow_id: Seq<char>,
    pub workflow_ref: Seq<char>,
    pub token: Option<Seq<char>>,
    pub inputs: Option<Seq<char>>,
}

/// View of an optional string.
pub open spec fn opt_view(o: Option<String>) -> Option<Seq<char>> {
    match o {
        Some(s) => Some(s@),
        None => None,
    }
}

impl View for Trigger {
    type V = TriggerView;

    open spec fn view(&self) -> TriggerView {
        TriggerView {
            target_repo: self.target_repo@,
            workflow_repo: self.workflow_repo@,
            workflow_id: self.workflow_id@,
            workflow_ref: self.workflow_ref@,
            token: opt_view(self.token),
            inputs: opt_view(self.inputs),
        }
    }
}

impl Clone for Trigger {
    fn clone(&self) -> (r: Self)
        ensures
            r@ == self@,
    {
        Trigger {
            target_repo: self.target_repo.clone(),
            workflow_repo: self.workflow_repo.clone(),
            workflow_id: self.workflow_id.clone(),
            workflow_ref: self.workflow_ref.clone(),
            token: match &self.token {
                Some(t) => Some(t.clone()),
                None => None,
            },
            inputs: match &self.inputs {
                Some(t) => Some(t.clone()),
                None => None,
            },
        }
    }
}

/// Static configuration: the polling interval in seconds, an optional global
/// default token, and the ordered list of trigger rules.
pub struct Config {
    pub interval: u64,
    pub token: Option<String>,
    pub triggers: Vec<Trigger>,
}

/// Mathematical image of a `Config`.
pub struct ConfigView {
    pub interval: u64,
    pub token: Option<Seq<char>>,
    pub triggers: Seq<TriggerView>,
}

impl View for Config {
    type V = ConfigView;

    open spec fn view(&self) -> ConfigView {
        ConfigView {
            interval: self.interval,
            token: opt_view(self.token),
            triggers: self.triggers@.map_values(|t: Trigger| t@),
        }
    }
}

/// The polling interval used when the configuration names none: one hour.
pub fn default_interval() -> (r: u64)
    ensures
        r == 3600,
{
    3600
}

/// The workflow ref used when a trigger rule names none.
pub fn default_ref() -> (r: String)
    ensures
        r@ == "main"@,
{
    "main".to_owned()
}

/// Why a target repository could not be resolved to a dispatch-ready rule.
#[derive(Clone, Copy, PartialEq, Eq, Structural, Debug)]
pub enum ResolveError {
    /// No trigger rule names this target repository.
    NotFound,
    /// A rule was found, but neither it nor the global default supplies a token.
    MissingToken,
}

/// The first trigger rule whose target repository matches, if any.
pub open spec fn find_trigger(triggers: Seq<TriggerView>, target: Seq<char>) -> Option<TriggerView>
    decreases triggers.len(),
{
    if triggers.len() == 0 {
        None
    } else if triggers[0].target_repo == target {
        Some(triggers[0])
    } else {
        find_trigger(triggers.drop_first(), target)
    }
}

/// Token precedence: the rule's own token is kept; only when the rule has
/// none is the global default substituted.
pub open spec fn resolve_token(
    rule_token: Option<Seq<char>>,
    default_token: Option<Seq<char>>,
) -> Option<Seq<char>> {
    if rule_token is Some {
        rule_token
    } else {
        default_token
    }
}

/// The given rule with its token replaced.
pub open spec fn with_token(t: TriggerView, tok: Seq<char>) -> TriggerView {
    TriggerView {
        target_repo: t.target_repo,
        workflow_repo: t.workflow_repo,
        workflow_id: t.workflow_id,
        workflow_ref: t.workflow_ref,
        token: Some(tok),
        inputs: t.inputs,
    }
}

/// Resolution: first rule matching the target repository, with the token
/// substitution applied; fails when no rule matches or no token is available.
pub open spec fn spec_resolve(cfg: ConfigView, target: Seq<char>) -> Result<TriggerView, ResolveError> {
    match find_trigger(cfg.triggers, target) {
        None => Err(ResolveError::NotFound),
        Some(t) => match resolve_token(t.token, cfg.token) {
            Some(tok) => Ok(with_token(t, tok)),
            None => Err(ResolveError::MissingToken),
        },
    }
}

/// A first match at index `i` fixes the result of `find_trigger`.
proof fn lemma_find_trigger_first(triggers: Seq<TriggerView>, target: Seq<char>, i: int)
    requires
        0 <= i < triggers.len(),
        triggers[i].target_repo == target,
        forall|j: int| 0 <= j < i ==> triggers[j].target_repo != target,
    ensures
        find_trigger(triggers, target) == Some(triggers[i]),
    decreases i,
{
    if i > 0 {
        lemma_find_trigger_first(triggers.drop_first(), target, i - 1);
    }
}

/// With no match anywhere, `find_trigger` finds nothing.
proof fn lemma_find_trigger_none(triggers: Seq<TriggerView>, target: Seq<char>)
    requires
        forall|j: int| 0 <= j < triggers.len() ==> triggers[j].target_repo != target,
    ensures
        find_trigger(triggers, target) is None,
    decreases triggers.len(),
{
    if triggers.len() > 0 {
        lemma_find_trigger_none(triggers.drop_first(), target);
    }
}

/// Law: token precedence. A rule's own token always wins; the global
/// default fills in only when the rule has none; and with neither present,
/// resolution fails with the missing-token error.
pub proof fn lemma_token_precedence(cfg: ConfigView, target: Seq<char>)
    requires
        find_trigger(cfg.triggers, target) is Some,
    ensures
        ({
            let t = find_trigger(cfg.triggers, target).unwrap();
            &&& t.token is Some ==> spec_resolve(cfg, target)
                == Ok::<TriggerView, ResolveError>(with_token(t, t.token.unwrap()))
            &&& t.token is None && cfg.token is Some ==> spec_resolve(cfg, target)
                == Ok::<TriggerView, ResolveError>(with_token(t, cfg.token.unwrap()))
            &&& t.token is None && cfg.token is None ==> spec_resolve(cfg, target)
                == Err::<TriggerView, ResolveError>(ResolveError::MissingToken)
        }),
{
}

impl Config {
    /// Looks up the first trigger rule for a target repository and applies
    /// the token substitution; reports exactly why resolution failed.
    pub fn get_trigger_by_target_repo(&self, target_repo: &str) -> (r: Result<Trigger, ResolveError>)
        ensures
            match r {
                Ok(t) => spec_resolve(self@, target_repo@) == Ok::<TriggerView, ResolveError>(t@),
                Err(e) => spec_resolve(self@, target_repo@) == Err::<TriggerView, ResolveError>(e),
            },
    {
        let n = self.triggers.len();
        let mut i: usize = 0;
        while i < n
            invariant
                i <= n,
                n == self.triggers@.len(),
                forall|j: int| 0 <= j < i ==> #[trigger] self@.triggers[j].target_repo != target_repo@,
            decreases n - i,
        {
            if str_eq(self.triggers[i].target_repo.as_str(), target_repo) {
                proof {
                    lemma_find_trigger_first(self@.triggers, target_repo@, i as int);
                }
                let t = &self.triggers[i];
                let token: Option<String> = match &t.token {
                    Some(tok) => Some(tok.clone()),
                    None => match &self.token {
                        Some(tok) => Some(tok.clone()),
                        None => {
                            return Err(ResolveError::MissingToken);
                        },
                    },
                };
                let resolved = Trigger {
                    target_repo: t.target_repo.clone(),
                    workflow_repo: t.workflow_repo.clone(),
                    workflow_id: t.workflow_id.clone(),
                    workflow_ref: t.workflow_ref.clone(),
                    token,
                    inputs: match &t.inputs {
                        Some(s) => Some(s.clone()),
                        None => None,
                    },
                };
                return Ok(resolved);
            }
            i += 1;
        }
        proof {
            lemma_find_trigger_none(self@.triggers, target_repo@);
        }
        Err(ResolveError::NotFound)
    }
}

} // verus!
