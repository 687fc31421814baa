//! Whether a run of the engine ends: a run either ends within one step more
//! than there are rules, or cycles forever.
use vstd::prelude::*;
use vstd::set_lib::{lemma_int_range, lemma_len_subset, set_int_range};
use crate::engine::{
    Progress, Ranked, RunState, eligible, ended, fact_for, fact_value, find_rule, finishes, fire,
    id_at, initial_state, is_next, is_winner, lemma_winner_unique, next_id, next_by_order, next_on_false, next_on_false_spec,
    next_on_true, next_on_true_spec, opt_text, rule_with_id, run, step, winner_flags,
};
use crate::eval::{eval, eval_spec};
use crate::json::{Json, JsonValue};
use crate::lite::{
    LiteProgress, LiteRule, eval_named, eval_named_spec, lite_finishes, lite_initial,
    lite_run, lite_step,
};
use crate::rules::{Rule, RuleType};
use crate::text::{chars_of, lower, lower_chars, spells};

verus! {

// ---------------------------------------------------------------------------
// Where a run goes does not depend on what it has gathered
// ---------------------------------------------------------------------------

/// Where a run goes from the rule named `c`: `None` where the step ends the
/// run (no rule left, an unknown id, or an error), else the next rule's id.
pub open spec fn follows(
    rules: Seq<Rule>,
    facts: Seq<(String, JsonValue)>,
    c: Option<Seq<char>>,
) -> Option<Option<Seq<char>>> {
    match c {
        None => None,
        Some(id) => match rule_with_id(rules, id) {
            None => None,
            Some(i) => match eval_spec(fact_value(facts, rules[i].field@), rules[i].op, rules[i].value@) {
                Err(_) => None,
                Ok(true) => Some(next_on_true_spec(rules, i)),
                Ok(false) => Some(next_on_false_spec(rules, i)),
            },
        },
    }
}

/// The rules a run visits, by the id of the current rule, without the
/// scores, messages and status it gathers; `None` once the run has ended.
pub open spec fn path(
    rules: Seq<Rule>,
    facts: Seq<(String, JsonValue)>,
    start: Option<Seq<char>>,
    n: nat,
) -> Option<Option<Seq<char>>>
    decreases n,
{
    if n == 0 {
        Some(initial_state(rules, start).current)
    } else {
        match path(rules, facts, start, (n - 1) as nat) {
            Some(c) => follows(rules, facts, c),
            None => None,
        }
    }
}

proof fn lemma_step_follows(rules: Seq<Rule>, facts: Seq<(String, JsonValue)>, s: RunState)
    ensures
        ended(step(rules, facts, s)) <==> follows(rules, facts, s.current) is None,
        step(rules, facts, s) matches Progress::Running(t) ==> follows(rules, facts, s.current)
            == Some(t.current),
{
}

proof fn lemma_path_of_run(
    rules: Seq<Rule>,
    facts: Seq<(String, JsonValue)>,
    start: Option<Seq<char>>,
    n: nat,
)
    ensures
        run(rules, facts, start, n) matches Progress::Running(s) ==> path(rules, facts, start, n)
            == Some(s.current),
        ended(run(rules, facts, start, n)) ==> path(rules, facts, start, n) is None,
    decreases n,
{
    if n > 0 {
        lemma_path_of_run(rules, facts, start, (n - 1) as nat);
        match run(rules, facts, start, (n - 1) as nat) {
            Progress::Running(s) => {
                lemma_step_follows(rules, facts, s);
            },
            _ => {},
        }
    }
}

proof fn lemma_path_shift(
    rules: Seq<Rule>,
    facts: Seq<(String, JsonValue)>,
    start: Option<Seq<char>>,
    a: nat,
    b: nat,
    t: nat,
)
    requires
        path(rules, facts, start, a) == path(rules, facts, start, b),
    ensures
        path(rules, facts, start, a + t) == path(rules, facts, start, b + t),
    decreases t,
{
    if t > 0 {
        lemma_path_shift(rules, facts, start, a, b, (t - 1) as nat);
        assert((a + t - 1) as nat == a + (t - 1) as nat);
        assert((b + t - 1) as nat == b + (t - 1) as nat);
    }
}

proof fn lemma_path_never_stops(
    rules: Seq<Rule>,
    facts: Seq<(String, JsonValue)>,
    start: Option<Seq<char>>,
    a: nat,
    b: nat,
    m: nat,
)
    requires
        a < b,
        path(rules, facts, start, a) == path(rules, facts, start, b),
        forall|j: nat| j <= b ==> (#[trigger] path(rules, facts, start, j)) is Some,
    ensures
        path(rules, facts, start, m) is Some,
    decreases m,
{
    if m > b {
        let p = (b - a) as nat;
        lemma_path_shift(rules, facts, start, a, b, (m - b) as nat);
        assert(a + (m - b) as nat == (m - p) as nat);
        lemma_path_never_stops(rules, facts, start, a, b, (m - p) as nat);
    }
}

proof fn lemma_run_stays_law(
    rules: Seq<Rule>,
    facts: Seq<(String, JsonValue)>,
    start: Option<Seq<char>>,
    a: nat,
    b: nat,
)
    requires
        a <= b,
        !(run(rules, facts, start, a) is Running),
    ensures
        run(rules, facts, start, b) == run(rules, facts, start, a),
    decreases b,
{
    if a < b {
        lemma_run_stays_law(rules, facts, start, a, (b - 1) as nat);
    }
}

/// A sequence of more than `n` numbers below `n` repeats one of them.
proof fn lemma_pigeonhole(s: Seq<int>, n: int)
    requires
        0 <= n < s.len(),
        forall|i: int| 0 <= i < s.len() ==> 0 <= #[trigger] s[i] < n,
    ensures
        exists|a: int, b: int| 0 <= a < b < s.len() && s[a] == s[b],
{
    if s.no_duplicates() {
        s.unique_seq_to_set();
        lemma_int_range(0, n);
        assert(s.to_set().subset_of(set_int_range(0, n)));
        lemma_len_subset(s.to_set(), set_int_range(0, n));
    } else {
        let (i, j) = choose|i: int, j: int|
            0 <= i < s.len() && 0 <= j < s.len() && i != j && s[i] == s[j];
        if i < j {
            assert(0 <= i < j < s.len() && s[i] == s[j]);
        } else {
            assert(0 <= j < i < s.len() && s[j] == s[i]);
        }
    }
}

/// A run that is still going after one step more than there are rules has
/// entered a cycle of rules and never ends.
pub proof fn law_long_run_never_ends(
    rules: Seq<Rule>,
    facts: Seq<(String, JsonValue)>,
    start: Option<Seq<char>>,
    m: nat,
)
    requires
        run(rules, facts, start, rules.len() + 1) is Running,
    ensures
        !ended(run(rules, facts, start, m)),
{
    let n = rules.len();
    assert forall|j: nat| j <= n + 1 implies #[trigger] run(rules, facts, start, j) is Running by {
        if !(run(rules, facts, start, j) is Running) {
            lemma_run_stays_law(rules, facts, start, j, n + 1);
        }
    }
    // The index of the rule that runs at each of the first n + 1 steps.
    let idx = Seq::new(
        n + 1,
        |j: int| rule_with_id(rules, run(rules, facts, start, j as nat)->Running_0.current->0)->0,
    );
    assert forall|j: int| 0 <= j < idx.len() implies 0 <= #[trigger] idx[j] < n && (run(
        rules,
        facts,
        start,
        j as nat,
    )->Running_0.current is Some) && is_winner(rules, idx[j]) && rules[idx[j]].id@ == run(
        rules,
        facts,
        start,
        j as nat,
    )->Running_0.current->0 by {
        let s = run(rules, facts, start, j as nat)->Running_0;
        assert(run(rules, facts, start, (j + 1) as nat) == step(rules, facts, s));
        assert(run(rules, facts, start, (j + 1) as nat) is Running);
        let id = s.current->0;
        let i = choose|i: int| is_winner(rules, i) && #[trigger] rules[i].rank_id() == id;
        assert(rule_with_id(rules, id) == Some(i));
    }
    lemma_pigeonhole(idx, n as int);
    let (a, b) = choose|a: int, b: int| 0 <= a < b < idx.len() && idx[a] == idx[b];
    assert(idx[a] == idx[b]);
    lemma_path_of_run(rules, facts, start, a as nat);
    lemma_path_of_run(rules, facts, start, b as nat);
    assert forall|j: nat| j <= b implies (#[trigger] path(rules, facts, start, j)) is Some by {
        lemma_path_of_run(rules, facts, start, j);
    }
    lemma_path_never_stops(rules, facts, start, a as nat, b as nat, m);
    lemma_path_of_run(rules, facts, start, m);
}

/// A run ends at all exactly when it ends within one step more than there
/// are rules.
pub proof fn law_finishes_within_bound(
    rules: Seq<Rule>,
    facts: Seq<(String, JsonValue)>,
    start: Option<Seq<char>>,
)
    ensures
        finishes(rules, facts, start) <==> ended(run(rules, facts, start, rules.len() + 1)),
{
    let b = rules.len() + 1;
    if finishes(rules, facts, start) {
        let n = choose|n: nat| ended(#[trigger] run(rules, facts, start, n));
        if n <= b {
            lemma_run_stays_law(rules, facts, start, n, b);
        } else {
            if run(rules, facts, start, b) is Running {
                law_long_run_never_ends(rules, facts, start, n);
            } else {
                lemma_run_stays_law(rules, facts, start, b, n);
            }
        }
    }
    if ended(run(rules, facts, start, b)) {
        assert(ended(run(rules, facts, start, b)));
    }
}

/// No rule names the rule that runs after it: every run goes on by order.
pub open spec fn without_jumps(rules: Seq<Rule>) -> bool {
    forall|i: int|
        0 <= i < rules.len() ==> (#[trigger] rules[i]).next_rule is None && rules[i].next_true is None
            && rules[i].next_false is None
}

/// A link of rule `i` points forward: where it names a rule that counts,
/// that rule has a greater order.
pub open spec fn link_forward(rules: Seq<Rule>, i: int, link: Option<String>) -> bool {
    match link {
        Some(n) => match rule_with_id(rules, n@) {
            Some(k) => rules[k].order > rules[i].order,
            None => true,
        },
        None => true,
    }
}

/// Every link of every rule that counts points forward.
pub open spec fn links_forward(rules: Seq<Rule>) -> bool {
    forall|i: int|
        #[trigger] is_winner(rules, i) ==> link_forward(rules, i, rules[i].next_rule)
            && link_forward(rules, i, rules[i].next_true) && link_forward(rules, i, rules[i].next_false)
}

/// The index of the rule that runs at step `j` of a run.
pub open spec fn visited(
    rules: Seq<Rule>,
    facts: Seq<(String, JsonValue)>,
    start: Option<Seq<char>>,
    j: nat,
) -> int {
    rule_with_id(rules, run(rules, facts, start, j)->Running_0.current->0)->0
}

proof fn lemma_visited(
    rules: Seq<Rule>,
    facts: Seq<(String, JsonValue)>,
    start: Option<Seq<char>>,
    j: nat,
)
    requires
        run(rules, facts, start, j + 1) is Running,
    ensures
        run(rules, facts, start, j) is Running,
        run(rules, facts, start, j)->Running_0.current is Some,
        0 <= visited(rules, facts, start, j) < rules.len(),
        is_winner(rules, visited(rules, facts, start, j)),
        rules[visited(rules, facts, start, j)].id@ == run(
            rules,
            facts,
            start,
            j,
        )->Running_0.current->0,
{
    if !(run(rules, facts, start, j) is Running) {
        lemma_run_stays_law(rules, facts, start, j, j + 1);
    }
    let s = run(rules, facts, start, j)->Running_0;
    assert(run(rules, facts, start, j + 1) == step(rules, facts, s));
    let id = s.current->0;
    let i = choose|i: int| is_winner(rules, i) && #[trigger] rules[i].rank_id() == id;
    assert(rule_with_id(rules, id) == Some(i));
}

proof fn lemma_order_rises(
    rules: Seq<Rule>,
    facts: Seq<(String, JsonValue)>,
    start: Option<Seq<char>>,
    j: nat,
)
    requires
        links_forward(rules),
        run(rules, facts, start, j + 2) is Running,
    ensures
        rules[visited(rules, facts, start, j)].order < rules[visited(
            rules,
            facts,
            start,
            j + 1,
        )].order,
{
    lemma_visited(rules, facts, start, j + 1);
    lemma_visited(rules, facts, start, j);
    let s = run(rules, facts, start, j)->Running_0;
    let i = visited(rules, facts, start, j);
    let v = visited(rules, facts, start, j + 1);
    assert(run(rules, facts, start, j + 1) == step(rules, facts, s));
    let t = run(rules, facts, start, j + 1)->Running_0;
    assert(is_winner(rules, i));
    let r = rules[i];
    let link: Option<String> = if t.current == next_id(rules, Some(r.order)) {
        None
    } else if r.rule_type == RuleType::DecisionTree && r.next_true is Some && t.current
        == opt_text(r.next_true) {
        r.next_true
    } else if r.next_rule is Some && t.current == opt_text(r.next_rule) {
        r.next_rule
    } else {
        r.next_false
    };
    if link is Some {
        let n = link->0;
        assert(t.current == Some(n@));
        let c = choose|c: int| is_winner(rules, c) && #[trigger] rules[c].rank_id() == n@;
        assert(is_winner(rules, v) && rules[v].rank_id() == n@);
        lemma_winner_unique(rules, c, v);
        assert(link_forward(rules, i, link));
    } else {
        let k = choose|k: int| is_next(rules, Some(rules[i].order), k);
        assert(is_next(rules, Some(rules[i].order), k));
        assert(eligible(rules, Some(rules[i].order), k));
        lemma_winner_unique(rules, k, v);
    }
}

proof fn lemma_orders_rise(
    rules: Seq<Rule>,
    facts: Seq<(String, JsonValue)>,
    start: Option<Seq<char>>,
    a: nat,
    b: nat,
)
    requires
        links_forward(rules),
        a < b,
        run(rules, facts, start, b + 1) is Running,
    ensures
        rules[visited(rules, facts, start, a)].order < rules[visited(rules, facts, start, b)].order,
    decreases b,
{
    assert(((b - 1) as nat) + 2 == b + 1);
    lemma_order_rises(rules, facts, start, (b - 1) as nat);
    if a < b - 1 {
        if !(run(rules, facts, start, b) is Running) {
            lemma_run_stays_law(rules, facts, start, b, b + 1);
        }
        lemma_orders_rise(rules, facts, start, a, (b - 1) as nat);
    }
}

/// Where every link points to a rule of greater order, rules run in
/// ascending order, each at most once, so a run stops within one step more
/// than there are rules: it ends, or its score overflows.
pub proof fn law_runs_with_forward_links_stop(
    rules: Seq<Rule>,
    facts: Seq<(String, JsonValue)>,
    start: Option<Seq<char>>,
)
    requires
        links_forward(rules),
    ensures
        !(run(rules, facts, start, rules.len() + 1) is Running),
{
    let n = rules.len();
    if run(rules, facts, start, n + 1) is Running {
        let idx = Seq::new(n + 1, |j: int| visited(rules, facts, start, j as nat));
        assert forall|j: int| 0 <= j < idx.len() implies 0 <= #[trigger] idx[j] < n by {
            if !(run(rules, facts, start, (j + 1) as nat) is Running) {
                lemma_run_stays_law(rules, facts, start, (j + 1) as nat, n + 1);
            }
            lemma_visited(rules, facts, start, j as nat);
        }
        lemma_pigeonhole(idx, n as int);
        let (a, b) = choose|a: int, b: int| 0 <= a < b < idx.len() && idx[a] == idx[b];
        if !(run(rules, facts, start, (b + 1) as nat) is Running) {
            lemma_run_stays_law(rules, facts, start, (b + 1) as nat, n + 1);
        }
        lemma_orders_rise(rules, facts, start, a as nat, b as nat);
        assert(idx[a] == visited(rules, facts, start, a as nat));
        assert(idx[b] == visited(rules, facts, start, b as nat));
    }
}

/// Where no rule names the rule after it, rules run in ascending order, each
/// at most once, so a run stops within one step more than there are rules:
/// it ends, or its score overflows.
pub proof fn law_runs_without_jumps_stop(
    rules: Seq<Rule>,
    facts: Seq<(String, JsonValue)>,
    start: Option<Seq<char>>,
)
    requires
        without_jumps(rules),
    ensures
        !(run(rules, facts, start, rules.len() + 1) is Running),
{
    assert forall|i: int| #[trigger] is_winner(rules, i) implies link_forward(
        rules,
        i,
        rules[i].next_rule,
    ) && link_forward(rules, i, rules[i].next_true) && link_forward(
        rules,
        i,
        rules[i].next_false,
    ) by {
        assert(0 <= i < rules.len());
        assert(rules[i].next_rule is None);
    }
    law_runs_with_forward_links_stop(rules, facts, start);
}

/// Whether the run of `rules` over `facts` from `start_rule` ends, with a
/// result or an error; `execute_rules` asks this of its input.
pub fn run_finishes(
    rules: &Vec<Rule>,
    facts: &Vec<(String, JsonValue)>,
    start_rule: &Option<String>,
) -> (r: bool)
    ensures
        r == finishes(rules@, facts@, opt_text(*start_rule)),
{
    let ghost start = opt_text(*start_rule);
    proof {
        law_finishes_within_bound(rules@, facts@, start);
    }
    let winners = winner_flags(rules);
    let first = next_by_order(rules, &winners, None);
    let mut current: Option<String> = match start_rule {
        Some(s) => Some(s.clone()),
        None => id_at(rules, first),
    };
    let mut total: i64 = 0;
    let null = JsonValue::Null;
    let ghost mut gs = initial_state(rules@, start);
    let mut k: u128 = 0;
    loop
        invariant
            winners@.len() == rules@.len(),
            forall|i: int| 0 <= i < rules@.len() ==> winners@[i] == is_winner(rules@, i),
            null@ == Json::Null,
            start == opt_text(*start_rule),
            finishes(rules@, facts@, start) <==> ended(run(rules@, facts@, start, rules@.len() + 1)),
            k <= rules@.len() + 1,
            run(rules@, facts@, start, k as nat) == Progress::Running(gs),
            gs.current == opt_text(current),
            gs.total_score == total as int,
        decreases rules@.len() + 1 - k,
    {
        if k > rules.len() as u128 {
            return false;
        }
        proof {
            assert(run(rules@, facts@, start, (k + 1) as nat) == step(rules@, facts@, gs));
        }
        if current.is_none() {
            assert(ended(run(rules@, facts@, start, (k + 1) as nat)));
            return true;
        }
        let id: String = current.unwrap();
        let i = match find_rule(rules, &winners, &id) {
            Some(i) => i,
            None => {
                assert(ended(run(rules@, facts@, start, (k + 1) as nat)));
                return true;
            },
        };
        let rule = &rules[i];
        let candidate = fact_for(facts, &rule.field, &null);
        let matched = match eval(candidate, rule.op, &rule.value) {
            Ok(b) => b,
            Err(_) => {
                assert(ended(run(rules@, facts@, start, (k + 1) as nat)));
                return true;
            },
        };
        if matched {
            if rule.rule_type == RuleType::Scorecard {
                match total.checked_add(rule.score) {
                    Some(t) => {
                        total = t;
                    },
                    None => {
                        proof {
                            assert(run(rules@, facts@, start, (k + 1) as nat) is Overflow);
                            lemma_run_stays_law(
                                rules@,
                                facts@,
                                start,
                                (k + 1) as nat,
                                (rules@.len() + 1) as nat,
                            );
                        }
                        return false;
                    },
                }
            }
            proof {
                gs = fire(rules@, i as int, gs)->Running_0;
            }
            current = next_on_true(rules, &winners, i);
        } else {
            proof {
                gs = RunState { current: next_on_false_spec(rules@, i as int), ..gs };
            }
            current = next_on_false(rules, &winners, i);
        }
        k = k + 1;
    }
}

// ---------------------------------------------------------------------------
// The embeddable engine
// ---------------------------------------------------------------------------

/// Where a run of the embeddable engine goes from the rule named `c`.
pub open spec fn lite_follows(
    rules: Seq<LiteRule>,
    facts: Seq<(String, JsonValue)>,
    c: Option<Seq<char>>,
) -> Option<Option<Seq<char>>> {
    match c {
        None => None,
        Some(id) => match rule_with_id(rules, id) {
            None => None,
            Some(i) => match eval_named_spec(fact_value(facts, rules[i].field@), rules[i].op@, rules[i].value@) {
                Err(_) => None,
                Ok(true) => if lower(rules[i].action@) != "continue"@ {
                    None
                } else {
                    Some(
                        match rules[i].next_rule {
                            Some(n) => Some(n@),
                            None => crate::engine::next_id(rules, Some(rules[i].order)),
                        },
                    )
                },
                Ok(false) => Some(crate::engine::next_id(rules, Some(rules[i].order))),
            },
        },
    }
}

pub open spec fn lite_path(rules: Seq<LiteRule>, facts: Seq<(String, JsonValue)>, n: nat) -> Option<
    Option<Seq<char>>,
>
    decreases n,
{
    if n == 0 {
        Some(lite_initial(rules).current)
    } else {
        match lite_path(rules, facts, (n - 1) as nat) {
            Some(c) => lite_follows(rules, facts, c),
            None => None,
        }
    }
}

proof fn lemma_lite_path_of_run(rules: Seq<LiteRule>, facts: Seq<(String, JsonValue)>, n: nat)
    ensures
        lite_run(rules, facts, n) matches LiteProgress::Running(s) ==> lite_path(rules, facts, n)
            == Some(s.current),
        !(lite_run(rules, facts, n) is Running) ==> lite_path(rules, facts, n) is None,
    decreases n,
{
    if n > 0 {
        lemma_lite_path_of_run(rules, facts, (n - 1) as nat);
    }
}

proof fn lemma_lite_path_shift(
    rules: Seq<LiteRule>,
    facts: Seq<(String, JsonValue)>,
    a: nat,
    b: nat,
    t: nat,
)
    requires
        lite_path(rules, facts, a) == lite_path(rules, facts, b),
    ensures
        lite_path(rules, facts, a + t) == lite_path(rules, facts, b + t),
    decreases t,
{
    if t > 0 {
        lemma_lite_path_shift(rules, facts, a, b, (t - 1) as nat);
        assert((a + t - 1) as nat == a + (t - 1) as nat);
        assert((b + t - 1) as nat == b + (t - 1) as nat);
    }
}

proof fn lemma_lite_path_never_stops(
    rules: Seq<LiteRule>,
    facts: Seq<(String, JsonValue)>,
    a: nat,
    b: nat,
    m: nat,
)
    requires
        a < b,
        lite_path(rules, facts, a) == lite_path(rules, facts, b),
        forall|j: nat| j <= b ==> (#[trigger] lite_path(rules, facts, j)) is Some,
    ensures
        lite_path(rules, facts, m) is Some,
    decreases m,
{
    if m > b {
        let p = (b - a) as nat;
        lemma_lite_path_shift(rules, facts, a, b, (m - b) as nat);
        assert(a + (m - b) as nat == (m - p) as nat);
        lemma_lite_path_never_stops(rules, facts, a, b, (m - p) as nat);
    }
}

proof fn lemma_lite_stays_law(rules: Seq<LiteRule>, facts: Seq<(String, JsonValue)>, a: nat, b: nat)
    requires
        a <= b,
        !(lite_run(rules, facts, a) is Running),
    ensures
        lite_run(rules, facts, b) == lite_run(rules, facts, a),
    decreases b,
{
    if a < b {
        lemma_lite_stays_law(rules, facts, a, (b - 1) as nat);
    }
}

/// A run of the embeddable engine that is still going after one step more
/// than there are rules never ends.
pub proof fn law_lite_long_run_never_ends(
    rules: Seq<LiteRule>,
    facts: Seq<(String, JsonValue)>,
    m: nat,
)
    requires
        lite_run(rules, facts, rules.len() + 1) is Running,
    ensures
        lite_run(rules, facts, m) is Running,
{
    let n = rules.len();
    assert forall|j: nat| j <= n + 1 implies #[trigger] lite_run(rules, facts, j) is Running by {
        if !(lite_run(rules, facts, j) is Running) {
            lemma_lite_stays_law(rules, facts, j, n + 1);
        }
    }
    let idx = Seq::new(
        n + 1,
        |j: int| rule_with_id(rules, lite_run(rules, facts, j as nat)->Running_0.current->0)->0,
    );
    assert forall|j: int| 0 <= j < idx.len() implies 0 <= #[trigger] idx[j] < n && (lite_run(
        rules,
        facts,
        j as nat,
    )->Running_0.current is Some) && is_winner(rules, idx[j]) && rules[idx[j]].id@ == lite_run(
        rules,
        facts,
        j as nat,
    )->Running_0.current->0 by {
        let s = lite_run(rules, facts, j as nat)->Running_0;
        assert(lite_run(rules, facts, (j + 1) as nat) == lite_step(rules, facts, s));
        assert(lite_run(rules, facts, (j + 1) as nat) is Running);
        let id = s.current->0;
        let i = choose|i: int| is_winner(rules, i) && #[trigger] rules[i].rank_id() == id;
        assert(rule_with_id(rules, id) == Some(i));
    }
    lemma_pigeonhole(idx, n as int);
    let (a, b) = choose|a: int, b: int| 0 <= a < b < idx.len() && idx[a] == idx[b];
    lemma_lite_path_of_run(rules, facts, a as nat);
    lemma_lite_path_of_run(rules, facts, b as nat);
    assert forall|j: nat| j <= b implies (#[trigger] lite_path(rules, facts, j)) is Some by {
        lemma_lite_path_of_run(rules, facts, j);
    }
    lemma_lite_path_never_stops(rules, facts, a as nat, b as nat, m);
    lemma_lite_path_of_run(rules, facts, m);
}

/// A run of the embeddable engine ends at all exactly when it ends within
/// one step more than there are rules.
pub proof fn law_lite_finishes_within_bound(rules: Seq<LiteRule>, facts: Seq<(String, JsonValue)>)
    ensures
        lite_finishes(rules, facts) <==> !(lite_run(rules, facts, rules.len() + 1) is Running),
{
    let b = rules.len() + 1;
    if lite_finishes(rules, facts) {
        let n = choose|n: nat| !(#[trigger] lite_run(rules, facts, n) is Running);
        if n <= b {
            lemma_lite_stays_law(rules, facts, n, b);
        } else if lite_run(rules, facts, b) is Running {
            law_lite_long_run_never_ends(rules, facts, n);
        }
    }
    if !(lite_run(rules, facts, b) is Running) {
        assert(!(lite_run(rules, facts, b) is Running));
    }
}

/// Whether a run of the embeddable engine ends; `run_rules` asks this of
/// its input.
pub fn lite_run_finishes(rules: &Vec<LiteRule>, facts: &Vec<(String, JsonValue)>) -> (r: bool)
    ensures
        r == lite_finishes(rules@, facts@),
{
    proof {
        law_lite_finishes_within_bound(rules@, facts@);
    }
    let winners = winner_flags(rules);
    let first = next_by_order(rules, &winners, None);
    let mut current: Option<String> = id_at(rules, first);
    let null = JsonValue::Null;
    let ghost mut gs = lite_initial(rules@);
    let mut k: u128 = 0;
    loop
        invariant
            winners@.len() == rules@.len(),
            forall|i: int| 0 <= i < rules@.len() ==> winners@[i] == is_winner(rules@, i),
            null@ == Json::Null,
            lite_finishes(rules@, facts@) <==> !(lite_run(rules@, facts@, rules@.len() + 1) is Running),
            k <= rules@.len() + 1,
            lite_run(rules@, facts@, k as nat) == LiteProgress::Running(gs),
            gs.current == opt_text(current),
        decreases rules@.len() + 1 - k,
    {
        if k > rules.len() as u128 {
            return false;
        }
        proof {
            assert(lite_run(rules@, facts@, (k + 1) as nat) == lite_step(rules@, facts@, gs));
        }
        if current.is_none() {
            assert(!(lite_run(rules@, facts@, (k + 1) as nat) is Running));
            return true;
        }
        let id: String = current.unwrap();
        let i = match find_rule(rules, &winners, &id) {
            Some(i) => i,
            None => {
                assert(!(lite_run(rules@, facts@, (k + 1) as nat) is Running));
                return true;
            },
        };
        let rule = &rules[i];
        let candidate = fact_for(facts, &rule.field, &null);
        let matched = match eval_named(candidate, rule.op.as_str(), &rule.value) {
            Ok(b) => b,
            Err(_) => {
                assert(!(lite_run(rules@, facts@, (k + 1) as nat) is Running));
                return true;
            },
        };
        if matched {
            let action = lower_chars(&chars_of(rule.action.as_str()));
            if !spells(&action, "continue") {
                assert(!(lite_run(rules@, facts@, (k + 1) as nat) is Running));
                return true;
            }
            proof {
                gs = lite_step(rules@, facts@, gs)->Running_0;
            }
            current = match &rule.next_rule {
                Some(nr) => Some(nr.clone()),
                None => {
                    let nx = next_by_order(rules, &winners, Some(rule.order));
                    id_at(rules, nx)
                },
            };
        } else {
            proof {
                gs = lite_step(rules@, facts@, gs)->Running_0;
            }
            let nx = next_by_order(rules, &winners, Some(rule.order));
            current = id_at(rules, nx);
        }
        k = k + 1;
    }
}

} // verus!
