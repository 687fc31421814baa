//! What holds of every finished run of the engine: scores, messages and
//! status agree with the rules that fired, only enabled rules fire, and
//! (with distinct ids and orders) neither the order in which rules are
//! listed nor the disabled rules change a run.
use vstd::prelude::*;
use crate::engine::{
    status_text, reports, EngineResult, texts,
    Progress, Ranked, RunState, Status, action_status, eligible, ended, fire, finishes,
    initial_state, is_next, is_winner, lemma_run_stays, next_id, next_index, next_on_false_spec,
    next_on_true_spec, outcome, rule_with_id, run, step, fact_value,
};
use crate::eval::eval_spec;
use crate::json::JsonValue;
use crate::rules::{Fault, Rule, RuleType};

verus! {

/// The points that the scorecard rules among `fired` add up to.
pub open spec fn fired_score(rules: Seq<Rule>, fired: Seq<Seq<char>>) -> int
    decreases fired.len(),
{
    if fired.len() == 0 {
        0
    } else {
        fired_score(rules, fired.drop_last()) + match rule_with_id(rules, fired.last()) {
            Some(i) => if rules[i].rule_type == RuleType::Scorecard {
                rules[i].score as int
            } else {
                0
            },
            None => 0,
        }
    }
}

/// The messages of the rules among `fired`, in the order they fired.
pub open spec fn fired_messages(rules: Seq<Rule>, fired: Seq<Seq<char>>) -> Seq<Seq<char>>
    decreases fired.len(),
{
    if fired.len() == 0 {
        Seq::empty()
    } else {
        let rest = fired_messages(rules, fired.drop_last());
        match rule_with_id(rules, fired.last()) {
            Some(i) => match rules[i].message {
                Some(m) => rest.push(m@),
                None => rest,
            },
            None => rest,
        }
    }
}

/// The status after the rules `fired` fired, in order: a deciding action
/// sets its status, a scorecard rule without one sets `SCORECARD`, and any
/// other rule leaves the status as it was.
pub open spec fn fired_status(rules: Seq<Rule>, fired: Seq<Seq<char>>) -> Status
    decreases fired.len(),
{
    if fired.len() == 0 {
        Status::NoMatch
    } else {
        let before = fired_status(rules, fired.drop_last());
        match rule_with_id(rules, fired.last()) {
            Some(i) => match action_status(rules[i].action) {
                Some(st) => st,
                None => if rules[i].rule_type == RuleType::Scorecard {
                    Status::Scorecard
                } else {
                    before
                },
            },
            None => before,
        }
    }
}

/// What every state of a run keeps.
pub open spec fn consistent(rules: Seq<Rule>, s: RunState) -> bool {
    &&& s.total_score == fired_score(rules, s.fired)
    &&& s.messages == fired_messages(rules, s.fired)
    &&& forall|j: int| 0 <= j < s.fired.len() ==> (#[trigger] rule_with_id(rules, s.fired[j])) is Some
    &&& s.status == fired_status(rules, s.fired)
}

proof fn lemma_step_consistent(rules: Seq<Rule>, facts: Seq<(String, JsonValue)>, s: RunState)
    requires
        consistent(rules, s),
    ensures
        step(rules, facts, s) matches Progress::Running(t) ==> consistent(rules, t),
        step(rules, facts, s) matches Progress::Done(t) ==> consistent(rules, t),
{
    if let Some(id) = s.current {
        if let Some(i) = rule_with_id(rules, id) {
            let c = choose|k: int| is_winner(rules, k) && #[trigger] rules[k].rank_id() == id;
            assert(rules[i].id@ == id);
            if let Progress::Running(t) = fire(rules, i, s) {
                assert(t.fired.drop_last() =~= s.fired);
                assert(t.fired.last() == id);
                assert forall|j: int| 0 <= j < t.fired.len() implies (#[trigger] rule_with_id(
                    rules,
                    t.fired[j],
                )) is Some by {
                    if j < s.fired.len() {
                        assert(t.fired[j] == s.fired[j]);
                    }
                }
            }
        }
    }
}

proof fn lemma_run_consistent(
    rules: Seq<Rule>,
    facts: Seq<(String, JsonValue)>,
    start: Option<Seq<char>>,
    n: nat,
)
    ensures
        run(rules, facts, start, n) matches Progress::Running(s) ==> consistent(rules, s),
        run(rules, facts, start, n) matches Progress::Done(s) ==> consistent(rules, s),
    decreases n,
{
    if n == 0 {
        let s = initial_state(rules, start);
        assert(consistent(rules, s));
    } else {
        lemma_run_consistent(rules, facts, start, (n - 1) as nat);
        if let Progress::Running(s) = run(rules, facts, start, (n - 1) as nat) {
            lemma_step_consistent(rules, facts, s);
        }
    }
}

proof fn lemma_outcome_consistent(
    rules: Seq<Rule>,
    facts: Seq<(String, JsonValue)>,
    start: Option<Seq<char>>,
)
    requires
        finishes(rules, facts, start),
    ensures
        outcome(rules, facts, start) matches Progress::Done(s) ==> consistent(rules, s),
{
    let n = choose|n: nat| ended(#[trigger] run(rules, facts, start, n));
    lemma_run_consistent(rules, facts, start, n);
}

/// The total score of a finished run is the sum of the scores of the
/// scorecard rules that fired.
pub proof fn law_total_score_sums_fired_scorecards(
    rules: Seq<Rule>,
    facts: Seq<(String, JsonValue)>,
    start: Option<Seq<char>>,
)
    requires
        finishes(rules, facts, start),
    ensures
        outcome(rules, facts, start) matches Progress::Done(s) ==> s.total_score == fired_score(
            rules,
            s.fired,
        ),
{
    lemma_outcome_consistent(rules, facts, start);
}

/// The messages of a finished run are those of the rules that fired, in
/// the order they fired.
pub proof fn law_messages_are_those_of_fired_rules(
    rules: Seq<Rule>,
    facts: Seq<(String, JsonValue)>,
    start: Option<Seq<char>>,
)
    requires
        finishes(rules, facts, start),
    ensures
        outcome(rules, facts, start) matches Progress::Done(s) ==> s.messages == fired_messages(
            rules,
            s.fired,
        ),
{
    lemma_outcome_consistent(rules, facts, start);
}

/// Only enabled rules fire: every fired id names an enabled rule, the one
/// that counts under that id.
pub proof fn law_only_enabled_rules_fire(
    rules: Seq<Rule>,
    facts: Seq<(String, JsonValue)>,
    start: Option<Seq<char>>,
)
    requires
        finishes(rules, facts, start),
    ensures
        outcome(rules, facts, start) matches Progress::Done(s) ==> forall|j: int|
            0 <= j < s.fired.len() ==> ((#[trigger] rule_with_id(rules, s.fired[j])) matches Some(i)
                && rules[i].enabled && rules[i].id@ == s.fired[j]),
{
    lemma_outcome_consistent(rules, facts, start);
    if let Progress::Done(s) = outcome(rules, facts, start) {
        assert forall|j: int| 0 <= j < s.fired.len() implies (#[trigger] rule_with_id(
            rules,
            s.fired[j],
        )) matches Some(i) && rules[i].enabled && rules[i].id@ == s.fired[j] by {
            let id = s.fired[j];
            assert(rule_with_id(rules, id) is Some);
            let c = choose|k: int| is_winner(rules, k) && #[trigger] rules[k].rank_id() == id;
            assert(rule_with_id(rules, id) == Some(c));
        }
    }
}

/// The status of a finished run follows from the rules that fired: the
/// status of the last deciding action, unless a scorecard rule fired after
/// it, and no match where nothing decided.
pub proof fn law_status_follows_fired_rules(
    rules: Seq<Rule>,
    facts: Seq<(String, JsonValue)>,
    start: Option<Seq<char>>,
)
    requires
        finishes(rules, facts, start),
    ensures
        outcome(rules, facts, start) matches Progress::Done(s) ==> s.status == fired_status(
            rules,
            s.fired,
        ),
{
    lemma_outcome_consistent(rules, facts, start);
}

/// A finished run in which no rule fired reports no match.
pub proof fn law_no_firing_means_no_match(
    rules: Seq<Rule>,
    facts: Seq<(String, JsonValue)>,
    start: Option<Seq<char>>,
)
    requires
        finishes(rules, facts, start),
    ensures
        outcome(rules, facts, start) matches Progress::Done(s) ==> (s.fired.len() == 0 ==> s.status
            == Status::NoMatch),
{
    lemma_outcome_consistent(rules, facts, start);
}

/// Without a start rule, a run begins at the enabled rule of least order
/// (of the rules that count, the first listed among equal orders).
pub proof fn law_run_starts_at_least_order(rules: Seq<Rule>)
    requires
        next_index(rules, None) is Some,
    ensures
        initial_state(rules, None).current matches Some(id) && rule_with_id(rules, id) matches Some(
            i,
        ) && rules[i].enabled && forall|j: int|
            #![trigger rules[j]]
            is_winner(rules, j) ==> rules[i].order <= rules[j].order,
{
    let i = choose|i: int| is_next(rules, None, i);
    assert(is_next(rules, None, i));
    let id = rules[i].id@;
    let c = choose|k: int| is_winner(rules, k) && #[trigger] rules[k].rank_id() == id;
    assert(is_winner(rules, i) && rules[i].rank_id() == id);
    crate::engine::lemma_winner_unique(rules, c, i);
    assert forall|j: int| #![trigger rules[j]] is_winner(rules, j) implies rules[i].order
        <= rules[j].order by {
        assert(crate::engine::eligible(rules, None, j));
    }
}


// ---------------------------------------------------------------------------
// The list of rules as a table
// ---------------------------------------------------------------------------

/// The enabled rules of a list, as a set: what a run can see of the list.
pub open spec fn enabled_table(rules: Seq<Rule>) -> Set<Rule> {
    Set::new(|r: Rule| r.enabled && exists|i: int| 0 <= i < rules.len() && #[trigger] rules[i] == r)
}

/// No two different rules of the table share an id or an order.
pub open spec fn keys_distinct(table: Set<Rule>) -> bool {
    forall|a: Rule, b: Rule|
        #[trigger] table.contains(a) && #[trigger] table.contains(b) && (a.id@ == b.id@ || a.order
            == b.order) ==> a == b
}

/// A step of a run goes on past a rule of order `o` exactly to rules above `bound`.
pub open spec fn above(bound: Option<i64>, o: i64) -> bool {
    match bound {
        Some(b) => o > b,
        None => true,
    }
}

proof fn lemma_last_with_id(rules: Seq<Rule>, id: Seq<char>, k: int, n: int) -> (m: int)
    requires
        0 <= k <= n < rules.len(),
        rules[k].enabled,
        rules[k].id@ == id,
    ensures
        k <= m <= n,
        rules[m].enabled,
        rules[m].id@ == id,
        forall|j: int| m < j <= n ==> !((#[trigger] rules[j]).enabled && rules[j].id@ == id),
    decreases n - k,
{
    if rules[n].enabled && rules[n].id@ == id {
        n
    } else {
        lemma_last_with_id(rules, id, k, n - 1)
    }
}

/// Under distinct keys, the rule that runs under an id is the rule of the
/// table with that id, and there is one exactly when the table has one.
proof fn lemma_rule_with_id_in_table(rules: Seq<Rule>, id: Seq<char>)
    requires
        keys_distinct(enabled_table(rules)),
    ensures
        rule_with_id(rules, id) matches Some(i) ==> 0 <= i < rules.len() && enabled_table(
            rules,
        ).contains(rules[i]) && rules[i].id@ == id,
        rule_with_id(rules, id) is None ==> forall|r: Rule|
            #[trigger] enabled_table(rules).contains(r) ==> r.id@ != id,
{
    let t = enabled_table(rules);
    if let Some(i) = rule_with_id(rules, id) {
        let c = choose|i: int| is_winner(rules, i) && #[trigger] rules[i].rank_id() == id;
        assert(is_winner(rules, c) && rules[c].rank_id() == id);
        assert(t.contains(rules[i]));
    } else {
        assert forall|r: Rule| #[trigger] t.contains(r) implies r.id@ != id by {
            if r.id@ == id {
                let k = choose|k: int| 0 <= k < rules.len() && #[trigger] rules[k] == r;
                let m = lemma_last_with_id(rules, id, k, rules.len() - 1);
                assert(t.contains(rules[m]));
                assert forall|j: int|
                    0 <= j < rules.len() && j != m && #[trigger] rules[j].rank_enabled()
                        && rules[j].rank_id() == rules[m].rank_id() implies rules[j].rank_order()
                    < rules[m].rank_order() || (rules[j].rank_order() == rules[m].rank_order() && j
                    < m) by {
                    assert(t.contains(rules[j]));
                    assert(rules[j] == rules[m]);
                }
                assert(is_winner(rules, m) && rules[m].rank_id() == id);
            }
        }
    }
}

/// The first listed of the eligible rules of least order among the first `n`.
proof fn lemma_first_by_order(rules: Seq<Rule>, bound: Option<i64>, n: int) -> (best: Option<int>)
    requires
        0 <= n <= rules.len(),
    ensures
        match best {
            Some(b) => {
                &&& 0 <= b < n
                &&& eligible(rules, bound, b)
                &&& forall|j: int|
                    0 <= j < n && #[trigger] eligible(rules, bound, j) ==> rules[b].order
                        <= rules[j].order
                &&& forall|j: int|
                    0 <= j < b && #[trigger] eligible(rules, bound, j) ==> rules[b].order
                        < rules[j].order
            },
            None => forall|j: int| 0 <= j < n ==> !#[trigger] eligible(rules, bound, j),
        },
    decreases n,
{
    if n == 0 {
        None
    } else {
        let i = n - 1;
        let prev = lemma_first_by_order(rules, bound, i);
        if eligible(rules, bound, i) {
            match prev {
                None => Some(i),
                Some(b) => if rules[i].order < rules[b].order {
                    Some(i)
                } else {
                    Some(b)
                },
            }
        } else {
            prev
        }
    }
}

/// Under distinct keys, the rule that runs after a rule of order `bound`
/// (when nothing names the next one) is the table's rule of least order
/// above `bound`, and there is one exactly when the table has a rule above it.
proof fn lemma_next_id_in_table(rules: Seq<Rule>, bound: Option<i64>)
    requires
        keys_distinct(enabled_table(rules)),
    ensures
        next_id(rules, bound) is None <==> forall|r: Rule|
            #[trigger] enabled_table(rules).contains(r) ==> !above(bound, r.order),
        next_id(rules, bound) matches Some(id) ==> exists|x: Rule|
            #[trigger] enabled_table(rules).contains(x) && x.id@ == id && above(bound, x.order)
                && forall|y: Rule|
                #[trigger] enabled_table(rules).contains(y) && above(bound, y.order) ==> x.order
                    <= y.order,
{
    let t = enabled_table(rules);
    if let Some(c) = next_index(rules, bound) {
        assert(is_next(rules, bound, c));
        assert(eligible(rules, bound, c));
        let x = rules[c];
        assert(t.contains(x));
        assert forall|y: Rule| #[trigger] t.contains(y) && above(bound, y.order) implies x.order
            <= y.order by {
            lemma_rule_with_id_in_table(rules, y.id@);
            let m = rule_with_id(rules, y.id@)->0;
            assert(rule_with_id(rules, y.id@) is Some);
            assert(rules[m] == y);
            let w = choose|i: int| is_winner(rules, i) && #[trigger] rules[i].rank_id() == y.id@;
            assert(is_winner(rules, w) && rules[w].rank_id() == y.id@);
            assert(eligible(rules, bound, m));
        }
        assert(t.contains(x) && x.id@ == rules[c].id@ && above(bound, x.order));
    } else {
        assert forall|r: Rule| #[trigger] t.contains(r) implies !above(bound, r.order) by {
            if above(bound, r.order) {
                lemma_rule_with_id_in_table(rules, r.id@);
                let m = rule_with_id(rules, r.id@)->0;
                let w = choose|i: int| is_winner(rules, i) && #[trigger] rules[i].rank_id() == r.id@;
                assert(is_winner(rules, w) && rules[w].rank_id() == r.id@);
                assert(rules[m] == r);
                assert(eligible(rules, bound, m));
                let b = lemma_first_by_order(rules, bound, rules.len() as int);
                assert(b is Some);
                assert forall|j: int| #[trigger] eligible(rules, bound, j) implies rules[b->0].order
                    <= rules[j].order by {
                    assert(0 <= j < rules.len());
                }
                assert(is_next(rules, bound, b->0));
            }
        }
    }
}

proof fn lemma_same_next_id(rules: Seq<Rule>, rules2: Seq<Rule>, bound: Option<i64>)
    requires
        enabled_table(rules) == enabled_table(rules2),
        keys_distinct(enabled_table(rules)),
    ensures
        next_id(rules, bound) == next_id(rules2, bound),
{
    let t = enabled_table(rules);
    lemma_next_id_in_table(rules, bound);
    lemma_next_id_in_table(rules2, bound);
    if let Some(id) = next_id(rules, bound) {
        let x = choose|x: Rule|
            #[trigger] t.contains(x) && x.id@ == id && above(bound, x.order) && forall|y: Rule|
                #[trigger] t.contains(y) && above(bound, y.order) ==> x.order <= y.order;
        assert(next_id(rules2, bound) is Some);
        let id2 = next_id(rules2, bound)->0;
        let x2 = choose|x: Rule|
            #[trigger] t.contains(x) && x.id@ == id2 && above(bound, x.order) && forall|y: Rule|
                #[trigger] t.contains(y) && above(bound, y.order) ==> x.order <= y.order;
        assert(x.order <= x2.order);
        assert(x2.order <= x.order);
        assert(x == x2);
    } else {
        assert forall|r: Rule| #[trigger] t.contains(r) implies !above(bound, r.order) by {}
    }
}

proof fn lemma_same_step(
    rules: Seq<Rule>,
    rules2: Seq<Rule>,
    facts: Seq<(String, JsonValue)>,
    s: RunState,
)
    requires
        enabled_table(rules) == enabled_table(rules2),
        keys_distinct(enabled_table(rules)),
    ensures
        step(rules, facts, s) == step(rules2, facts, s),
{
    let t = enabled_table(rules);
    if let Some(id) = s.current {
        lemma_rule_with_id_in_table(rules, id);
        lemma_rule_with_id_in_table(rules2, id);
        match (rule_with_id(rules, id), rule_with_id(rules2, id)) {
            (Some(i), Some(j)) => {
                assert(t.contains(rules[i]) && t.contains(rules2[j]));
                assert(rules[i] == rules2[j]);
                lemma_same_next_id(rules, rules2, Some(rules[i].order));
                assert(next_on_true_spec(rules, i) == next_on_true_spec(rules2, j));
                assert(next_on_false_spec(rules, i) == next_on_false_spec(rules2, j));
                assert(fire(rules, i, s) == fire(rules2, j, s));
            },
            (Some(i), None) => {
                assert(t.contains(rules[i]));
            },
            (None, Some(j)) => {
                assert(t.contains(rules2[j]));
            },
            (None, None) => {},
        }
    }
}

proof fn lemma_same_run(
    rules: Seq<Rule>,
    rules2: Seq<Rule>,
    facts: Seq<(String, JsonValue)>,
    start: Option<Seq<char>>,
    n: nat,
)
    requires
        enabled_table(rules) == enabled_table(rules2),
        keys_distinct(enabled_table(rules)),
    ensures
        run(rules, facts, start, n) == run(rules2, facts, start, n),
    decreases n,
{
    if n == 0 {
        lemma_same_next_id(rules, rules2, None);
    } else {
        lemma_same_run(rules, rules2, facts, start, (n - 1) as nat);
        if let Progress::Running(s) = run(rules, facts, start, (n - 1) as nat) {
            lemma_same_step(rules, rules2, facts, s);
        }
    }
}

/// Where no two enabled rules share an id or an order, the result of a run
/// does not depend on the order in which the rules are listed, nor on the
/// disabled rules: two lists with the same enabled rules run alike, step by
/// step, and end alike.
pub proof fn law_list_order_and_disabled_rules_do_not_matter(
    rules: Seq<Rule>,
    rules2: Seq<Rule>,
    facts: Seq<(String, JsonValue)>,
    start: Option<Seq<char>>,
)
    requires
        enabled_table(rules) == enabled_table(rules2),
        keys_distinct(enabled_table(rules)),
    ensures
        next_index(rules, None) is Some <==> next_index(rules2, None) is Some,
        forall|n: nat| run(rules, facts, start, n) == #[trigger] run(rules2, facts, start, n),
        finishes(rules, facts, start) <==> finishes(rules2, facts, start),
        finishes(rules, facts, start) ==> outcome(rules, facts, start) == outcome(
            rules2,
            facts,
            start,
        ),
{
    lemma_same_next_id(rules, rules2, None);
    assert forall|n: nat| run(rules, facts, start, n) == #[trigger] run(rules2, facts, start, n) by {
        lemma_same_run(rules, rules2, facts, start, n);
    }
    if finishes(rules, facts, start) {
        let n1 = choose|n: nat| ended(#[trigger] run(rules, facts, start, n));
        assert(ended(run(rules2, facts, start, n1)));
        let n2 = choose|n: nat| ended(#[trigger] run(rules2, facts, start, n));
        assert(ended(run(rules, facts, start, n2)));
        if n1 <= n2 {
            lemma_run_stays(rules, facts, start, n1, n2);
        } else {
            lemma_run_stays(rules, facts, start, n2, n1);
        }
    }
    if finishes(rules2, facts, start) {
        let n2 = choose|n: nat| ended(#[trigger] run(rules2, facts, start, n));
        assert(ended(run(rules, facts, start, n2)));
    }
}


// ---------------------------------------------------------------------------
// Routing, and which rules fire
// ---------------------------------------------------------------------------

/// How one step of a run ends it: with no current rule the run is done, as
/// it stands; an id that names no enabled rule fails the run with that id;
/// a condition that cannot be evaluated fails it with the evaluation's error.
pub proof fn law_step_ends(rules: Seq<Rule>, facts: Seq<(String, JsonValue)>, s: RunState)
    ensures
        s.current is None ==> step(rules, facts, s) == Progress::Done(s),
        s.current is Some && rule_with_id(rules, s.current->0) is None ==> step(rules, facts, s)
            == Progress::Failed(Fault::UnknownRuleId(s.current->0)),
        s.current is Some && rule_with_id(rules, s.current->0) is Some && eval_spec(
            fact_value(facts, rules[rule_with_id(rules, s.current->0)->0].field@),
            rules[rule_with_id(rules, s.current->0)->0].op,
            rules[rule_with_id(rules, s.current->0)->0].value@,
        ) is Err ==> step(rules, facts, s) == Progress::Failed(
            eval_spec(
                fact_value(facts, rules[rule_with_id(rules, s.current->0)->0].field@),
                rules[rule_with_id(rules, s.current->0)->0].op,
                rules[rule_with_id(rules, s.current->0)->0].value@,
            )->Err_0,
        ),
{
}

/// Where a run goes after testing its current rule `i` against the fact it
/// names (null where there is none).
///
/// On no match, it goes to the decision tree's false branch where the rule
/// is a decision tree that has one, and otherwise to the enabled rule of
/// least order above the rule's order: a rule's `next_rule` is followed only
/// after a match. Nothing else changes.
///
/// On a match, the rule fires: its id is added to the fired rules, and the
/// run goes to the decision tree's true branch where there is one, else to
/// the rule's `next_rule` where there is one, else on by order. Only a
/// scorecard rule can make the score overflow.
pub proof fn law_routing(rules: Seq<Rule>, facts: Seq<(String, JsonValue)>, s: RunState, i: int)
    requires
        s.current is Some,
        rule_with_id(rules, s.current->0) == Some(i),
        i64::MIN <= s.total_score <= i64::MAX,
    ensures
        eval_spec(fact_value(facts, rules[i].field@), rules[i].op, rules[i].value@) == Ok::<
            bool,
            Fault,
        >(false) ==> step(rules, facts, s) == Progress::Running(
            RunState {
                current: if rules[i].rule_type == RuleType::DecisionTree && rules[i].next_false is Some {
                    Some(rules[i].next_false->0@)
                } else {
                    next_id(rules, Some(rules[i].order))
                },
                ..s
            },
        ),
        eval_spec(fact_value(facts, rules[i].field@), rules[i].op, rules[i].value@) == Ok::<
            bool,
            Fault,
        >(true) ==> (step(rules, facts, s) is Overflow && rules[i].rule_type == RuleType::Scorecard) || (
        step(rules, facts, s) matches Progress::Running(t) && t.fired == s.fired.push(s.current->0)
            && t.current == (if rules[i].rule_type == RuleType::DecisionTree
            && rules[i].next_true is Some {
            Some(rules[i].next_true->0@)
        } else if rules[i].next_rule is Some {
            Some(rules[i].next_rule->0@)
        } else {
            next_id(rules, Some(rules[i].order))
        })),
{
    let id = s.current->0;
    let c = choose|k: int| is_winner(rules, k) && #[trigger] rules[k].rank_id() == id;
    assert(is_winner(rules, c) && rules[c].rank_id() == id);
    assert(rules[i].id@ == id);
}

/// What every state of a run keeps about the rules that fired: each names
/// an enabled rule whose condition held on the facts.
pub open spec fn fired_matched(rules: Seq<Rule>, facts: Seq<(String, JsonValue)>, fired: Seq<Seq<char>>) -> bool {
    forall|j: int|
        0 <= j < fired.len() ==> ((#[trigger] rule_with_id(rules, fired[j])) matches Some(k)
            && eval_spec(fact_value(facts, rules[k].field@), rules[k].op, rules[k].value@) == Ok::<
            bool,
            Fault,
        >(true))
}

proof fn lemma_run_fired_matched(
    rules: Seq<Rule>,
    facts: Seq<(String, JsonValue)>,
    start: Option<Seq<char>>,
    n: nat,
)
    ensures
        run(rules, facts, start, n) matches Progress::Running(s) ==> fired_matched(rules, facts, s.fired),
        run(rules, facts, start, n) matches Progress::Done(s) ==> fired_matched(rules, facts, s.fired),
    decreases n,
{
    if n > 0 {
        lemma_run_fired_matched(rules, facts, start, (n - 1) as nat);
        if let Progress::Running(s) = run(rules, facts, start, (n - 1) as nat) {
            if let Some(id) = s.current {
                if let Some(i) = rule_with_id(rules, id) {
                    if eval_spec(fact_value(facts, rules[i].field@), rules[i].op, rules[i].value@)
                        == Ok::<bool, Fault>(true) && fire(rules, i, s) is Running {
                        let t = fire(rules, i, s)->Running_0;
                        assert forall|j: int| 0 <= j < t.fired.len() implies ((#[trigger] rule_with_id(
                            rules,
                            t.fired[j],
                        )) matches Some(k) && eval_spec(
                            fact_value(facts, rules[k].field@),
                            rules[k].op,
                            rules[k].value@,
                        ) == Ok::<bool, Fault>(true)) by {
                            if j < s.fired.len() {
                                assert(t.fired[j] == s.fired[j]);
                            } else {
                                assert(t.fired[j] == id);
                            }
                        }
                    }
                }
            }
        }
    }
}

/// A rule fires only where its condition holds: every rule that a finished
/// run reports as fired is an enabled rule whose condition held on the
/// facts.
pub proof fn law_fired_rules_matched(
    rules: Seq<Rule>,
    facts: Seq<(String, JsonValue)>,
    start: Option<Seq<char>>,
)
    requires
        finishes(rules, facts, start),
    ensures
        outcome(rules, facts, start) matches Progress::Done(s) ==> fired_matched(rules, facts, s.fired),
{
    let n = choose|n: nat| ended(#[trigger] run(rules, facts, start, n));
    lemma_run_fired_matched(rules, facts, start, n);
}


proof fn lemma_best_with_id(rules: Seq<Rule>, id: Seq<char>, n: int) -> (best: Option<int>)
    requires
        0 <= n <= rules.len(),
    ensures
        match best {
            Some(b) => 0 <= b < n && rules[b].enabled && rules[b].id@ == id && forall|j: int|
                0 <= j < n && j != b && (#[trigger] rules[j]).enabled && rules[j].id@ == id
                    ==> rules[j].order < rules[b].order || (rules[j].order == rules[b].order && j < b),
            None => forall|j: int| 0 <= j < n ==> !((#[trigger] rules[j]).enabled && rules[j].id@ == id),
        },
    decreases n,
{
    if n == 0 {
        None
    } else {
        let i = n - 1;
        let prev = lemma_best_with_id(rules, id, i);
        if rules[i].enabled && rules[i].id@ == id {
            match prev {
                None => Some(i),
                Some(b) => if rules[i].order >= rules[b].order {
                    Some(i)
                } else {
                    Some(b)
                },
            }
        } else {
            prev
        }
    }
}

/// The rule that runs under an id: of the enabled rules with that id, the
/// one of greatest order, and of those the last listed; disabled rules never
/// run, and an id runs a rule exactly when some enabled rule has it.
pub proof fn law_rule_under_an_id(rules: Seq<Rule>, id: Seq<char>)
    ensures
        rule_with_id(rules, id) matches Some(i) ==> 0 <= i < rules.len() && rules[i].enabled
            && rules[i].id@ == id && forall|j: int|
            0 <= j < rules.len() && j != i && (#[trigger] rules[j]).enabled && rules[j].id@ == id
                ==> rules[j].order < rules[i].order || (rules[j].order == rules[i].order && j < i),
        rule_with_id(rules, id) is None <==> forall|j: int|
            0 <= j < rules.len() ==> !((#[trigger] rules[j]).enabled && rules[j].id@ == id),
{
    if let Some(i) = rule_with_id(rules, id) {
        let c = choose|k: int| is_winner(rules, k) && #[trigger] rules[k].rank_id() == id;
        assert(is_winner(rules, c) && rules[c].rank_id() == id);
        assert forall|j: int|
            0 <= j < rules.len() && j != i && (#[trigger] rules[j]).enabled && rules[j].id@ == id
                implies rules[j].order < rules[i].order || (rules[j].order == rules[i].order && j < i) by {
            assert(rules[j].rank_enabled());
        }
    } else {
        let b = lemma_best_with_id(rules, id, rules.len() as int);
        if let Some(b) = b {
            assert forall|j: int|
                0 <= j < rules.len() && j != b && #[trigger] rules[j].rank_enabled() && rules[j].rank_id()
                    == rules[b].rank_id() implies rules[j].rank_order() < rules[b].rank_order() || (
            rules[j].rank_order() == rules[b].rank_order() && j < b) by {
                assert(rules[j].enabled && rules[j].id@ == id);
            }
            assert(is_winner(rules, b) && rules[b].rank_id() == id);
        }
    }
}

/// Where no rule names the next one, a run goes on to the rule of least
/// order above the bound among the rules that run under their ids (of
/// several with that order, the first listed); there is none exactly when
/// no such rule has a greater order.
pub proof fn law_next_is_least_order_above(rules: Seq<Rule>, bound: Option<i64>)
    ensures
        next_index(rules, bound) matches Some(i) ==> is_winner(rules, i) && above(bound, rules[i].order)
            && forall|j: int|
            #[trigger] is_winner(rules, j) && above(bound, rules[j].order) ==> rules[i].order
                < rules[j].order || (rules[i].order == rules[j].order && i <= j),
        next_index(rules, bound) is None <==> forall|j: int|
            #[trigger] is_winner(rules, j) ==> !above(bound, rules[j].order),
{
    if let Some(i) = next_index(rules, bound) {
        assert(is_next(rules, bound, i));
        assert forall|j: int| #[trigger] is_winner(rules, j) && above(bound, rules[j].order) implies rules[i].order
            < rules[j].order || (rules[i].order == rules[j].order && i <= j) by {
            assert(eligible(rules, bound, j));
            if j < i {
                assert(0 <= j < i && eligible(rules, bound, j));
            }
        }
        assert(eligible(rules, bound, i));
    } else {
        assert forall|j: int| #[trigger] is_winner(rules, j) implies !above(bound, rules[j].order) by {
            if above(bound, rules[j].order) {
                assert(eligible(rules, bound, j));
                let b = lemma_first_by_order(rules, bound, rules.len() as int);
                assert(b is Some);
                assert forall|k: int| #[trigger] eligible(rules, bound, k) implies rules[b->0].order
                    <= rules[k].order by {
                    assert(0 <= k < rules.len());
                }
                assert(is_next(rules, bound, b->0));
            }
        }
    }
}


/// A rule reads the fact under its field: the value of the first entry with
/// that key.
pub proof fn law_fact_lookup(facts: Seq<(String, JsonValue)>, key: Seq<char>, k: int)
    requires
        0 <= k < facts.len(),
        facts[k].0@ == key,
        forall|m: int| 0 <= m < k ==> (#[trigger] facts[m]).0@ != key,
    ensures
        fact_value(facts, key) == facts[k].1@,
    decreases k,
{
    if k > 0 {
        let rest = facts.drop_first();
        assert(facts[0].0@ != key);
        assert forall|m: int| 0 <= m < k - 1 implies (#[trigger] rest[m]).0@ != key by {
            assert(rest[m] == facts[m + 1]);
        }
        assert(rest[k - 1] == facts[k]);
        law_fact_lookup(rest, key, k - 1);
    }
}

/// A fact that no entry gives reads as `null`.
pub proof fn law_missing_fact_is_null(facts: Seq<(String, JsonValue)>, key: Seq<char>)
    requires
        forall|m: int| 0 <= m < facts.len() ==> (#[trigger] facts[m]).0@ != key,
    ensures
        fact_value(facts, key) == crate::json::Json::Null,
    decreases facts.len(),
{
    if facts.len() > 0 {
        let rest = facts.drop_first();
        assert(facts[0].0@ != key);
        assert forall|m: int| 0 <= m < rest.len() implies (#[trigger] rest[m]).0@ != key by {
            assert(rest[m] == facts[m + 1]);
        }
        law_missing_fact_is_null(rest, key);
    }
}

/// A run begins at the start rule where one is given, and otherwise at the
/// rule that `next_index` finds with no bound; it begins with nothing fired,
/// no messages, a score of 0 and the status `NO_MATCH`.
pub proof fn law_initial_state(rules: Seq<Rule>, start: Option<Seq<char>>)
    ensures
        start is Some ==> initial_state(rules, start).current == start,
        start is None ==> initial_state(rules, start).current == (match next_index(rules, None) {
            Some(i) => Some(rules[i].id@),
            None => None,
        }),
        initial_state(rules, start).fired.len() == 0,
        initial_state(rules, start).messages.len() == 0,
        initial_state(rules, start).total_score == 0,
        status_text(initial_state(rules, start).status) == "NO_MATCH"@,
{
}

/// The texts of the statuses, as a result reports them.
pub proof fn law_status_texts()
    ensures
        status_text(Status::NoMatch) == "NO_MATCH"@,
        status_text(Status::Scorecard) == "SCORECARD"@,
        status_text(Status::Approved) == "APPROVED"@,
        status_text(Status::Rejected) == "REJECTED"@,
        status_text(Status::Review) == "REVIEW"@,
{
}


/// A result reports a finished state exactly: the text of its status, the
/// ids of the fired rules and the messages in order, its total score, and
/// the facts as they were given.
pub proof fn law_result_reports(res: EngineResult, s: RunState, facts: Vec<(String, JsonValue)>)
    requires
        reports(res, s, facts),
    ensures
        res.status@ == status_text(s.status),
        res.fired_rules@.len() == s.fired.len(),
        forall|i: int| 0 <= i < s.fired.len() ==> (#[trigger] res.fired_rules@[i])@ == s.fired[i],
        res.messages@.len() == s.messages.len(),
        forall|i: int| 0 <= i < s.messages.len() ==> (#[trigger] res.messages@[i])@ == s.messages[i],
        res.total_score == s.total_score,
        res.context@ == facts@,
{
    assert forall|i: int| 0 <= i < s.fired.len() implies (#[trigger] res.fired_rules@[i])@ == s.fired[i] by {
        assert(texts(res.fired_rules@)[i] == res.fired_rules@[i]@);
    }
    assert forall|i: int| 0 <= i < s.messages.len() implies (#[trigger] res.messages@[i])@ == s.messages[i] by {
        assert(texts(res.messages@)[i] == res.messages@[i]@);
    }
}

} // verus!
