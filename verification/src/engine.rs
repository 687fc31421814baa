//! The rules engine: which rule runs first, which runs next, and what a run
//! of rules against a set of facts decides.
//!
//! Of several enabled rules with one id, the one with the greatest order
//! counts (the last one listed, among equal orders). Where several rules share
//! the least order that is eligible to run next, the one listed first runs.
use vstd::prelude::*;
use crate::eval::{eval, eval_spec};
use crate::json::{Json, JsonValue};
use crate::rules::{Action, Fault, Rule, RuleType, RulesError};

verus! {

/// The verdict of a run.
#[derive(Debug, Clone, Copy, PartialEq, Eq, Structural)]
pub enum Status {
    NoMatch,
    Scorecard,
    Approved,
    Rejected,
    Review,
}

/// The text of a status, as the result reports it.
pub open spec fn status_text(s: Status) -> Seq<char> {
    match s {
        Status::NoMatch => "NO_MATCH"@,
        Status::Scorecard => "SCORECARD"@,
        Status::Approved => "APPROVED"@,
        Status::Rejected => "REJECTED"@,
        Status::Review => "REVIEW"@,
    }
}

/// The status that a matching rule with this action sets, if any.
pub open spec fn action_status(a: Action) -> Option<Status> {
    match a {
        Action::Approve => Some(Status::Approved),
        Action::Reject => Some(Status::Rejected),
        Action::Review => Some(Status::Review),
        Action::Continue => None,
    }
}

/// What a run reports.
#[derive(Debug)]
pub struct EngineResult {
    pub status: String,
    pub fired_rules: Vec<String>,
    pub messages: Vec<String>,
    pub total_score: i64,
    pub context: Vec<(String, JsonValue)>,
}

pub open spec fn opt_text(o: Option<String>) -> Option<Seq<char>> {
    match o {
        Some(s) => Some(s@),
        None => None,
    }
}

pub open spec fn texts(v: Seq<String>) -> Seq<Seq<char>> {
    v.map_values(|s: String| s@)
}

// ---------------------------------------------------------------------------
// The rule table
// ---------------------------------------------------------------------------

/// What decides which rule runs: its id, its order and whether it is enabled.
pub trait Ranked {
    spec fn rank_id(&self) -> Seq<char>;

    spec fn rank_order(&self) -> i64;

    spec fn rank_enabled(&self) -> bool;

    fn id_ref(&self) -> (r: &String)
        ensures
            r@ == self.rank_id(),
    ;

    fn order_of(&self) -> (r: i64)
        ensures
            r == self.rank_order(),
    ;

    fn enabled_of(&self) -> (r: bool)
        ensures
            r == self.rank_enabled(),
    ;
}

impl Ranked for Rule {
    open spec fn rank_id(&self) -> Seq<char> {
        self.id@
    }

    open spec fn rank_order(&self) -> i64 {
        self.order
    }

    open spec fn rank_enabled(&self) -> bool {
        self.enabled
    }

    fn id_ref(&self) -> (r: &String) {
        &self.id
    }

    fn order_of(&self) -> (r: i64) {
        self.order
    }

    fn enabled_of(&self) -> (r: bool) {
        self.enabled
    }
}

/// Rule `i` is enabled and no other enabled rule with its id overrides it.
pub open spec fn is_winner<R: Ranked>(rules: Seq<R>, i: int) -> bool {
    &&& 0 <= i < rules.len()
    &&& rules[i].rank_enabled()
    &&& forall|j: int|
        0 <= j < rules.len() && j != i && #[trigger] rules[j].rank_enabled() && rules[j].rank_id()
            == rules[i].rank_id() ==> rules[j].rank_order() < rules[i].rank_order() || (
        rules[j].rank_order() == rules[i].rank_order() && j < i)
}

/// The rule that runs under an id.
pub open spec fn rule_with_id<R: Ranked>(rules: Seq<R>, id: Seq<char>) -> Option<int> {
    if exists|i: int| is_winner(rules, i) && #[trigger] rules[i].rank_id() == id {
        Some(choose|i: int| is_winner(rules, i) && #[trigger] rules[i].rank_id() == id)
    } else {
        None
    }
}

/// Rule `i` may run after a rule of order `bound` (any rule, with no bound).
pub open spec fn eligible<R: Ranked>(rules: Seq<R>, bound: Option<i64>, i: int) -> bool {
    is_winner(rules, i) && match bound {
        Some(b) => rules[i].rank_order() > b,
        None => true,
    }
}

/// Rule `i` is the first listed of the eligible rules with the least order.
pub open spec fn is_next<R: Ranked>(rules: Seq<R>, bound: Option<i64>, i: int) -> bool {
    &&& eligible(rules, bound, i)
    &&& forall|j: int| #[trigger] eligible(rules, bound, j) ==> rules[i].rank_order()
        <= rules[j].rank_order()
    &&& forall|j: int| 0 <= j < i && #[trigger] eligible(rules, bound, j) ==> rules[i].rank_order()
        < rules[j].rank_order()
}

/// The rule that runs after a rule of order `bound` when nothing names the
/// next one: the eligible rule of least order.
pub open spec fn next_index<R: Ranked>(rules: Seq<R>, bound: Option<i64>) -> Option<int> {
    if exists|i: int| is_next(rules, bound, i) {
        Some(choose|i: int| is_next(rules, bound, i))
    } else {
        None
    }
}

pub open spec fn next_id<R: Ranked>(rules: Seq<R>, bound: Option<i64>) -> Option<Seq<char>> {
    match next_index(rules, bound) {
        Some(i) => Some(rules[i].rank_id()),
        None => None,
    }
}

/// Where a run goes after rule `i` matched.
pub open spec fn next_on_true_spec(rules: Seq<Rule>, i: int) -> Option<Seq<char>> {
    let r = rules[i];
    if r.rule_type == RuleType::DecisionTree && r.next_true is Some {
        opt_text(r.next_true)
    } else if r.next_rule is Some {
        opt_text(r.next_rule)
    } else {
        next_id(rules, Some(r.order))
    }
}

/// Where a run goes after rule `i` did not match.
pub open spec fn next_on_false_spec(rules: Seq<Rule>, i: int) -> Option<Seq<char>> {
    let r = rules[i];
    if r.rule_type == RuleType::DecisionTree && r.next_false is Some {
        opt_text(r.next_false)
    } else {
        next_id(rules, Some(r.order))
    }
}

/// The fact under a key (the first entry with that key), or null.
pub open spec fn fact_value(facts: Seq<(String, JsonValue)>, key: Seq<char>) -> Json
    decreases facts.len(),
{
    if facts.len() == 0 {
        Json::Null
    } else if facts[0].0@ == key {
        facts[0].1@
    } else {
        fact_value(facts.drop_first(), key)
    }
}

// ---------------------------------------------------------------------------
// Runs
// ---------------------------------------------------------------------------

/// The state of a run between two rules.
pub struct RunState {
    pub current: Option<Seq<char>>,
    pub fired: Seq<Seq<char>>,
    pub messages: Seq<Seq<char>>,
    pub total_score: int,
    pub status: Status,
}

/// Where a run stands after some steps.
pub enum Progress {
    Running(RunState),
    Done(RunState),
    Failed(Fault),
    /// The total score left the range of `i64`; no result can be reported.
    Overflow,
}

pub open spec fn initial_state(rules: Seq<Rule>, start: Option<Seq<char>>) -> RunState {
    RunState {
        current: match start {
            Some(s) => Some(s),
            None => next_id(rules, None),
        },
        fired: Seq::empty(),
        messages: Seq::empty(),
        total_score: 0,
        status: Status::NoMatch,
    }
}

/// The state after rule `i` matched.
pub open spec fn fire(rules: Seq<Rule>, i: int, s: RunState) -> Progress {
    let r = rules[i];
    let scorecard = r.rule_type == RuleType::Scorecard;
    let total = if scorecard {
        s.total_score + r.score
    } else {
        s.total_score
    };
    let status = match action_status(r.action) {
        Some(st) => st,
        None => if scorecard {
            Status::Scorecard
        } else {
            s.status
        },
    };
    if total < i64::MIN || total > i64::MAX {
        Progress::Overflow
    } else {
        Progress::Running(
            RunState {
                current: next_on_true_spec(rules, i),
                fired: s.fired.push(r.id@),
                messages: match r.message {
                    Some(m) => s.messages.push(m@),
                    None => s.messages,
                },
                total_score: total,
                status,
            },
        )
    }
}

/// One step of a run: the current rule is looked up and its condition tested.
pub open spec fn step(rules: Seq<Rule>, facts: Seq<(String, JsonValue)>, s: RunState) -> Progress {
    match s.current {
        None => Progress::Done(s),
        Some(id) => match rule_with_id(rules, id) {
            None => Progress::Failed(Fault::UnknownRuleId(id)),
            Some(i) => match eval_spec(fact_value(facts, rules[i].field@), rules[i].op, rules[i].value@) {
                Err(f) => Progress::Failed(f),
                Ok(true) => fire(rules, i, s),
                Ok(false) => Progress::Running(
                    RunState { current: next_on_false_spec(rules, i), ..s },
                ),
            },
        },
    }
}

/// Where a run stands after `n` steps.
pub open spec fn run(
    rules: Seq<Rule>,
    facts: Seq<(String, JsonValue)>,
    start: Option<Seq<char>>,
    n: nat,
) -> Progress
    decreases n,
{
    if n == 0 {
        Progress::Running(initial_state(rules, start))
    } else {
        match run(rules, facts, start, (n - 1) as nat) {
            Progress::Running(s) => step(rules, facts, s),
            p => p,
        }
    }
}

pub open spec fn ended(p: Progress) -> bool {
    p is Done || p is Failed
}

/// The run ends, with a result or an error, after finitely many steps
/// (it neither cycles forever nor overflows the score).
pub open spec fn finishes(
    rules: Seq<Rule>,
    facts: Seq<(String, JsonValue)>,
    start: Option<Seq<char>>,
) -> bool {
    exists|n: nat| ended(#[trigger] run(rules, facts, start, n))
}

/// How the run ends.
pub open spec fn outcome(
    rules: Seq<Rule>,
    facts: Seq<(String, JsonValue)>,
    start: Option<Seq<char>>,
) -> Progress {
    run(rules, facts, start, choose|n: nat| ended(#[trigger] run(rules, facts, start, n)))
}

/// The result reports the state `s` over the facts `facts`.
pub open spec fn reports(res: EngineResult, s: RunState, facts: Vec<(String, JsonValue)>) -> bool {
    &&& res.status@ == status_text(s.status)
    &&& texts(res.fired_rules@) == s.fired
    &&& texts(res.messages@) == s.messages
    &&& res.total_score == s.total_score
    &&& res.context == facts
}

pub proof fn lemma_run_stays(
    rules: Seq<Rule>,
    facts: Seq<(String, JsonValue)>,
    start: Option<Seq<char>>,
    a: nat,
    b: nat,
)
    requires
        a <= b,
        !(run(rules, facts, start, a) is Running),
    ensures
        run(rules, facts, start, b) == run(rules, facts, start, a),
    decreases b,
{
    if a < b {
        lemma_run_stays(rules, facts, start, a, (b - 1) as nat);
    }
}

proof fn lemma_running_before_end(
    rules: Seq<Rule>,
    facts: Seq<(String, JsonValue)>,
    start: Option<Seq<char>>,
    k: nat,
    n: nat,
)
    requires
        run(rules, facts, start, k) is Running,
        ended(run(rules, facts, start, n)),
    ensures
        k < n,
{
    if n <= k {
        lemma_run_stays(rules, facts, start, n, k);
    }
}

pub proof fn lemma_winner_unique<R: Ranked>(rules: Seq<R>, i: int, k: int)
    requires
        is_winner(rules, i),
        is_winner(rules, k),
        rules[i].rank_id() == rules[k].rank_id(),
    ensures
        i == k,
{
    if i != k {
        assert(rules[k].rank_enabled());
        assert(rules[i].rank_enabled());
    }
}

pub proof fn lemma_next_unique<R: Ranked>(rules: Seq<R>, bound: Option<i64>, i: int, k: int)
    requires
        is_next(rules, bound, i),
        is_next(rules, bound, k),
    ensures
        i == k,
{
    assert(eligible(rules, bound, i));
    assert(eligible(rules, bound, k));
}

// ---------------------------------------------------------------------------
// Executable functions
// ---------------------------------------------------------------------------

impl Status {
    /// The text of the status.
    pub fn text(&self) -> (r: String)
        ensures
            r@ == status_text(*self),
    {
        match self {
            Status::NoMatch => "NO_MATCH".to_owned(),
            Status::Scorecard => "SCORECARD".to_owned(),
            Status::Approved => "APPROVED".to_owned(),
            Status::Rejected => "REJECTED".to_owned(),
            Status::Review => "REVIEW".to_owned(),
        }
    }
}

/// Which rules count: `r@[i]` holds exactly when rule `i` is an enabled rule
/// that no other enabled rule with its id overrides.
pub fn winner_flags<R: Ranked>(rules: &Vec<R>) -> (r: Vec<bool>)
    ensures
        r@.len() == rules@.len(),
        forall|i: int| 0 <= i < rules@.len() ==> r@[i] == is_winner(rules@, i),
{
    let n = rules.len();
    let mut out: Vec<bool> = Vec::new();
    let mut i: usize = 0;
    while i < n
        invariant
            n == rules@.len(),
            i <= n,
            out@.len() == i,
            forall|k: int| 0 <= k < i ==> out@[k] == is_winner(rules@, k),
        decreases n - i,
    {
        let mut wins = rules[i].enabled_of();
        if wins {
            let mut j: usize = 0;
            while j < n
                invariant
                    n == rules@.len(),
                    i < n,
                    j <= n,
                    rules@[i as int].rank_enabled(),
                    wins ==> forall|m: int|
                        0 <= m < j && m != i && #[trigger] rules@[m].rank_enabled()
                            && rules@[m].rank_id() == rules@[i as int].rank_id() ==> rules@[m].rank_order()
                            < rules@[i as int].rank_order() || (rules@[m].rank_order()
                            == rules@[i as int].rank_order() && m < i),
                    !wins ==> !is_winner(rules@, i as int),
                decreases n - j,
            {
                if wins && j != i && rules[j].enabled_of() && *rules[j].id_ref() == *rules[i].id_ref() {
                    let oj = rules[j].order_of();
                    let oi = rules[i].order_of();
                    if !(oj < oi || (oj == oi && j < i)) {
                        wins = false;
                    }
                }
                j = j + 1;
            }
        }
        out.push(wins);
        i = i + 1;
    }
    out
}

/// The index of the rule that runs under `id`.
pub fn find_rule<R: Ranked>(rules: &Vec<R>, winners: &Vec<bool>, id: &String) -> (r: Option<usize>)
    requires
        winners@.len() == rules@.len(),
        forall|i: int| 0 <= i < rules@.len() ==> winners@[i] == is_winner(rules@, i),
    ensures
        match r {
            Some(i) => rule_with_id(rules@, id@) == Some(i as int),
            None => rule_with_id(rules@, id@) is None,
        },
{
    let mut i: usize = 0;
    while i < rules.len()
        invariant
            i <= rules@.len(),
            winners@.len() == rules@.len(),
            forall|k: int| 0 <= k < rules@.len() ==> winners@[k] == is_winner(rules@, k),
            forall|k: int| 0 <= k < i ==> !(is_winner(rules@, k) && #[trigger] rules@[k].rank_id() == id@),
        decreases rules.len() - i,
    {
        if winners[i] && *rules[i].id_ref() == *id {
            proof {
                let c = choose|k: int| is_winner(rules@, k) && #[trigger] rules@[k].rank_id() == id@;
                lemma_winner_unique(rules@, c, i as int);
            }
            return Some(i);
        }
        i = i + 1;
    }
    assert(!exists|k: int| is_winner(rules@, k) && #[trigger] rules@[k].rank_id() == id@);
    None
}

/// The index of the rule that runs after a rule of order `bound` when nothing
/// names the next one; with no bound, the rule that runs first.
pub fn next_by_order<R: Ranked>(rules: &Vec<R>, winners: &Vec<bool>, bound: Option<i64>) -> (r: Option<usize>)
    requires
        winners@.len() == rules@.len(),
        forall|i: int| 0 <= i < rules@.len() ==> winners@[i] == is_winner(rules@, i),
    ensures
        match r {
            Some(i) => next_index(rules@, bound) == Some(i as int),
            None => next_index(rules@, bound) is None,
        },
        r matches Some(i) ==> is_next(rules@, bound, i as int),
        r is None <==> forall|j: int| !eligible(rules@, bound, j),
{
    let mut best: Option<usize> = None;
    let mut i: usize = 0;
    while i < rules.len()
        invariant
            i <= rules@.len(),
            winners@.len() == rules@.len(),
            forall|k: int| 0 <= k < rules@.len() ==> winners@[k] == is_winner(rules@, k),
            match best {
                Some(b) => {
                    &&& b < i
                    &&& eligible(rules@, bound, b as int)
                    &&& forall|j: int|
                        0 <= j < i && #[trigger] eligible(rules@, bound, j) ==> rules@[b as int].rank_order()
                            <= rules@[j].rank_order()
                    &&& forall|j: int|
                        0 <= j < b && #[trigger] eligible(rules@, bound, j) ==> rules@[b as int].rank_order()
                            < rules@[j].rank_order()
                },
                None => forall|j: int| 0 <= j < i ==> !#[trigger] eligible(rules@, bound, j),
            },
        decreases rules.len() - i,
    {
        let oi = rules[i].order_of();
        let ok = winners[i] && match bound {
            Some(b) => oi > b,
            None => true,
        };
        if ok {
            match best {
                None => {
                    best = Some(i);
                },
                Some(b) => {
                    if oi < rules[b].order_of() {
                        best = Some(i);
                    }
                },
            }
        }
        i = i + 1;
    }
    match best {
        Some(b) => {
            assert forall|j: int| #[trigger] eligible(rules@, bound, j) implies rules@[b as int].rank_order()
                <= rules@[j].rank_order() by {
                assert(0 <= j < rules@.len());
            }
            assert(is_next(rules@, bound, b as int));
            proof {
                let c = choose|k: int| is_next(rules@, bound, k);
                lemma_next_unique(rules@, bound, c, b as int);
            }
        },
        None => {
            assert forall|j: int| !eligible(rules@, bound, j) by {
                if eligible(rules@, bound, j) {
                    assert(0 <= j < rules@.len());
                }
            }
            assert(!exists|k: int| is_next(rules@, bound, k));
        },
    }
    best
}

/// The id of the rule with index `i`, if any.
pub fn id_at<R: Ranked>(rules: &Vec<R>, i: Option<usize>) -> (r: Option<String>)
    requires
        i matches Some(k) ==> k < rules@.len(),
    ensures
        opt_text(r) == (match i {
            Some(k) => Some(rules@[k as int].rank_id()),
            None => None,
        }),
{
    match i {
        Some(k) => Some(rules[k].id_ref().clone()),
        None => None,
    }
}

pub fn copy_opt(o: &Option<String>) -> (r: Option<String>)
    ensures
        opt_text(r) == opt_text(*o),
{
    match o {
        Some(s) => Some(s.clone()),
        None => None,
    }
}

/// Where a run goes after rule `i` matched.
pub fn next_on_true(rules: &Vec<Rule>, winners: &Vec<bool>, i: usize) -> (r: Option<String>)
    requires
        i < rules@.len(),
        winners@.len() == rules@.len(),
        forall|k: int| 0 <= k < rules@.len() ==> winners@[k] == is_winner(rules@, k),
    ensures
        opt_text(r) == next_on_true_spec(rules@, i as int),
{
    let rule = &rules[i];
    if rule.rule_type == RuleType::DecisionTree && rule.next_true.is_some() {
        copy_opt(&rule.next_true)
    } else if rule.next_rule.is_some() {
        copy_opt(&rule.next_rule)
    } else {
        let k = next_by_order(rules, winners, Some(rule.order));
        id_at(rules, k)
    }
}

/// Where a run goes after rule `i` did not match.
pub fn next_on_false(rules: &Vec<Rule>, winners: &Vec<bool>, i: usize) -> (r: Option<String>)
    requires
        i < rules@.len(),
        winners@.len() == rules@.len(),
        forall|k: int| 0 <= k < rules@.len() ==> winners@[k] == is_winner(rules@, k),
    ensures
        opt_text(r) == next_on_false_spec(rules@, i as int),
{
    let rule = &rules[i];
    if rule.rule_type == RuleType::DecisionTree && rule.next_false.is_some() {
        copy_opt(&rule.next_false)
    } else {
        let k = next_by_order(rules, winners, Some(rule.order));
        id_at(rules, k)
    }
}

/// The fact under `key`, or `null` where there is none.
pub fn fact_for<'a>(
    facts: &'a Vec<(String, JsonValue)>,
    key: &String,
    null: &'a JsonValue,
) -> (r: &'a JsonValue)
    requires
        null@ == Json::Null,
    ensures
        r@ == fact_value(facts@, key@),
{
    let mut i: usize = 0;
    assert(facts@.subrange(0, facts@.len() as int) =~= facts@);
    while i < facts.len()
        invariant
            i <= facts@.len(),
            fact_value(facts@, key@) == fact_value(facts@.subrange(i as int, facts@.len() as int), key@),
        decreases facts.len() - i,
    {
        let ghost rest = facts@.subrange(i as int, facts@.len() as int);
        if facts[i].0 == *key {
            assert(rest[0] == facts@[i as int]);
            return &facts[i].1;
        }
        assert(rest.drop_first() =~= facts@.subrange(i + 1, facts@.len() as int));
        i = i + 1;
    }
    null
}

/// Runs the rules against the facts, from `start_rule` or else from the
/// enabled rule of least order, until no rule is left to run.
pub fn execute_rules(
    rules: Vec<Rule>,
    facts: Vec<(String, JsonValue)>,
    start_rule: Option<String>,
) -> (r: Result<EngineResult, RulesError>)
    requires
        next_index(rules@, None) is Some ==> finishes(rules@, facts@, opt_text(start_rule)),
    ensures
        next_index(rules@, None) is None ==> (r matches Err(e) && e@ == Fault::NoEnabledRules),
        next_index(rules@, None) is Some ==> match outcome(rules@, facts@, opt_text(start_rule)) {
            Progress::Done(s) => r matches Ok(res) && reports(res, s, facts),
            Progress::Failed(f) => r matches Err(e) && e@ == f,
            _ => false,
        },
{
    let winners = winner_flags(&rules);
    let first = next_by_order(&rules, &winners, None);
    if first.is_none() {
        return Err(RulesError::NoEnabledRules);
    }
    let ghost start = opt_text(start_rule);
    let mut current: Option<String> = match start_rule {
        Some(s) => Some(s),
        None => id_at(&rules, first),
    };
    let mut fired: Vec<String> = Vec::new();
    let mut messages: Vec<String> = Vec::new();
    let mut total: i64 = 0;
    let mut status = Status::NoMatch;
    let null = JsonValue::Null;
    let ghost n: nat = choose|n: nat| ended(#[trigger] run(rules@, facts@, start, n));
    let ghost mut k: nat = 0;
    proof {
        assert(texts(fired@) =~= Seq::<Seq<char>>::empty());
        assert(texts(messages@) =~= Seq::<Seq<char>>::empty());
        assert(run(rules@, facts@, start, 0) == Progress::Running(initial_state(rules@, start)));
    }
    loop
        invariant
            winners@.len() == rules@.len(),
            forall|i: int| 0 <= i < rules@.len() ==> winners@[i] == is_winner(rules@, i),
            null@ == Json::Null,
            next_index(rules@, None) is Some,
            start == opt_text(start_rule),
            n == choose|n: nat| ended(#[trigger] run(rules@, facts@, start, n)),
            ended(run(rules@, facts@, start, n)),
            run(rules@, facts@, start, k) == Progress::Running(
                RunState {
                    current: opt_text(current),
                    fired: texts(fired@),
                    messages: texts(messages@),
                    total_score: total as int,
                    status,
                },
            ),
        decreases n - k,
    {
        let ghost s = RunState {
            current: opt_text(current),
            fired: texts(fired@),
            messages: texts(messages@),
            total_score: total as int,
            status,
        };
        proof {
            lemma_running_before_end(rules@, facts@, start, k, n);
            assert(run(rules@, facts@, start, (k + 1) as nat) == step(rules@, facts@, s));
        }
        if current.is_none() {
            proof {
                lemma_run_stays(rules@, facts@, start, (k + 1) as nat, n);
            }
            let text = status.text();
            return Ok(
                EngineResult {
                    status: text,
                    fired_rules: fired,
                    messages,
                    total_score: total,
                    context: facts,
                },
            );
        }
        let id: String = current.unwrap();
        let i = match find_rule(&rules, &winners, &id) {
            Some(i) => i,
            None => {
                proof {
                    lemma_run_stays(rules@, facts@, start, (k + 1) as nat, n);
                }
                return Err(RulesError::UnknownRuleId(id));
            },
        };
        let rule = &rules[i];
        let candidate = fact_for(&facts, &rule.field, &null);
        let matched = match eval(candidate, rule.op, &rule.value) {
            Ok(b) => b,
            Err(e) => {
                proof {
                    lemma_run_stays(rules@, facts@, start, (k + 1) as nat, n);
                }
                return Err(e);
            },
        };
        if matched {
            let ghost next = fire(rules@, i as int, s);
            assert(run(rules@, facts@, start, (k + 1) as nat) == next);
            fired.push(rule.id.clone());
            match &rule.message {
                Some(m) => {
                    messages.push(m.clone());
                },
                None => {},
            }
            if rule.rule_type == RuleType::Scorecard {
                proof {
                    if total + rule.score < i64::MIN || total + rule.score > i64::MAX {
                        lemma_run_stays(rules@, facts@, start, (k + 1) as nat, n);
                    }
                }
                total = total + rule.score;
                status = Status::Scorecard;
            }
            match rule.action {
                Action::Approve => {
                    status = Status::Approved;
                },
                Action::Reject => {
                    status = Status::Rejected;
                },
                Action::Review => {
                    status = Status::Review;
                },
                Action::Continue => {},
            }
            current = next_on_true(&rules, &winners, i);
            proof {
                assert(texts(fired@) =~= s.fired.push(rules@[i as int].id@));
                assert(texts(messages@) =~= match rules@[i as int].message {
                    Some(m) => s.messages.push(m@),
                    None => s.messages,
                });
            }
        } else {
            current = next_on_false(&rules, &winners, i);
        }
        proof {
            k = k + 1;
        }
    }
}

} // verus!
