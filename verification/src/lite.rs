//! The embeddable engine: rules name their operator and action as free text,
//! the first matching rule whose action is not `continue` decides the status,
//! and the run stops there.
use vstd::prelude::*;
use crate::engine::{
    Ranked, fact_value, find_rule, id_at, next_by_order, next_id, next_index, opt_text, texts,
    winner_flags, is_winner,
};
use crate::eval::{eval, eval_spec};
use crate::json::{Json, JsonValue};
use crate::rules::{Fault, Operator, RulesError, operator_of, parse_operator, viewed};
use crate::text::{chars_of, lower, lower_chars, spells, string_from_chars, upper, upper_chars};

verus! {

/// A rule of the embeddable engine.
#[derive(Debug)]
pub struct LiteRule {
    pub id: String,
    /// Enabled unless this says `false`.
    pub enabled: Option<bool>,
    pub order: i64,
    pub field: String,
    pub op: String,
    pub value: JsonValue,
    pub action: String,
    pub message: Option<String>,
    pub next_rule: Option<String>,
}

impl Ranked for LiteRule {
    open spec fn rank_id(&self) -> Seq<char> {
        self.id@
    }

    open spec fn rank_order(&self) -> i64 {
        self.order
    }

    open spec fn rank_enabled(&self) -> bool {
        match self.enabled {
            Some(b) => b,
            None => true,
        }
    }

    fn id_ref(&self) -> (r: &String) {
        &self.id
    }

    fn order_of(&self) -> (r: i64) {
        self.order
    }

    fn enabled_of(&self) -> (r: bool) {
        match self.enabled {
            Some(b) => b,
            None => true,
        }
    }
}

/// What a run of the embeddable engine reports.
#[derive(Debug)]
pub struct LiteResult {
    pub status: String,
    pub fired_rules: Vec<String>,
    pub messages: Vec<String>,
    pub context: Vec<(String, JsonValue)>,
}

/// The outcome of testing `left op right` with the operator named as text;
/// `in` is not among the names this engine knows.
pub open spec fn eval_named_spec(left: Json, op: Seq<char>, right: Json) -> Result<bool, Fault> {
    match operator_of(op) {
        Ok(o) => if o == Operator::In {
            Err(Fault::UnsupportedOperator(op))
        } else {
            eval_spec(left, o, right)
        },
        Err(f) => Err(f),
    }
}

pub struct LiteState {
    pub current: Option<Seq<char>>,
    pub fired: Seq<Seq<char>>,
    pub messages: Seq<Seq<char>>,
    pub status: Seq<char>,
}

pub enum LiteProgress {
    Running(LiteState),
    Done(LiteState),
    Failed(Fault),
}

pub open spec fn lite_initial(rules: Seq<LiteRule>) -> LiteState {
    LiteState {
        current: next_id(rules, None),
        fired: Seq::empty(),
        messages: Seq::empty(),
        status: "NO_MATCH"@,
    }
}

/// One step: the current rule is looked up and its condition tested; a
/// matching rule whose action is not `continue` ends the run with that
/// action, upper-cased, as the status.
pub open spec fn lite_step(rules: Seq<LiteRule>, facts: Seq<(String, JsonValue)>, s: LiteState) -> LiteProgress {
    match s.current {
        None => LiteProgress::Done(s),
        Some(id) => match rule_with_id_lite(rules, id) {
            None => LiteProgress::Failed(Fault::UnknownRuleId(id)),
            Some(i) => {
                let r = rules[i];
                match eval_named_spec(fact_value(facts, r.field@), r.op@, r.value@) {
                    Err(f) => LiteProgress::Failed(f),
                    Ok(true) => {
                        let fired = s.fired.push(r.id@);
                        let messages = match r.message {
                            Some(m) => s.messages.push(m@),
                            None => s.messages,
                        };
                        let action = lower(r.action@);
                        if action != "continue"@ {
                            LiteProgress::Done(
                                LiteState { current: None, fired, messages, status: upper(action) },
                            )
                        } else {
                            LiteProgress::Running(
                                LiteState {
                                    current: match r.next_rule {
                                        Some(n) => Some(n@),
                                        None => next_id(rules, Some(r.order)),
                                    },
                                    fired,
                                    messages,
                                    status: s.status,
                                },
                            )
                        }
                    },
                    Ok(false) => LiteProgress::Running(
                        LiteState { current: next_id(rules, Some(r.order)), ..s },
                    ),
                }
            },
        },
    }
}

pub open spec fn rule_with_id_lite(rules: Seq<LiteRule>, id: Seq<char>) -> Option<int> {
    crate::engine::rule_with_id(rules, id)
}

pub open spec fn lite_run(rules: Seq<LiteRule>, facts: Seq<(String, JsonValue)>, n: nat) -> LiteProgress
    decreases n,
{
    if n == 0 {
        LiteProgress::Running(lite_initial(rules))
    } else {
        match lite_run(rules, facts, (n - 1) as nat) {
            LiteProgress::Running(s) => lite_step(rules, facts, s),
            p => p,
        }
    }
}

/// The run ends after finitely many steps.
pub open spec fn lite_finishes(rules: Seq<LiteRule>, facts: Seq<(String, JsonValue)>) -> bool {
    exists|n: nat| !(#[trigger] lite_run(rules, facts, n) is Running)
}

pub open spec fn lite_outcome(rules: Seq<LiteRule>, facts: Seq<(String, JsonValue)>) -> LiteProgress {
    lite_run(rules, facts, choose|n: nat| !(#[trigger] lite_run(rules, facts, n) is Running))
}

proof fn lemma_lite_stays(rules: Seq<LiteRule>, facts: Seq<(String, JsonValue)>, a: nat, b: nat)
    requires
        a <= b,
        !(lite_run(rules, facts, a) is Running),
    ensures
        lite_run(rules, facts, b) == lite_run(rules, facts, a),
    decreases b,
{
    if a < b {
        lemma_lite_stays(rules, facts, a, (b - 1) as nat);
    }
}

proof fn lemma_lite_running_before_end(
    rules: Seq<LiteRule>,
    facts: Seq<(String, JsonValue)>,
    k: nat,
    n: nat,
)
    requires
        lite_run(rules, facts, k) is Running,
        !(lite_run(rules, facts, n) is Running),
    ensures
        k < n,
{
    if n <= k {
        lemma_lite_stays(rules, facts, n, k);
    }
}

/// The rule that runs under `id` has the action `continue` (in any case).
pub open spec fn continues(rules: Seq<LiteRule>, id: Seq<char>) -> bool {
    match rule_with_id_lite(rules, id) {
        Some(i) => lower(rules[i].action@) == "continue"@,
        None => false,
    }
}

pub open spec fn all_continue(rules: Seq<LiteRule>, fired: Seq<Seq<char>>) -> bool {
    forall|j: int| 0 <= j < fired.len() ==> continues(rules, #[trigger] fired[j])
}

/// How a finished run of the embeddable engine ends: either no rule with a
/// deciding action fired and the status is `NO_MATCH`, or the last rule that
/// fired is the only one with a deciding action, and its action, upper-cased,
/// is the status.
pub open spec fn lite_decided(rules: Seq<LiteRule>, s: LiteState) -> bool {
    ||| s.status == "NO_MATCH"@ && all_continue(rules, s.fired)
    ||| s.fired.len() > 0 && all_continue(rules, s.fired.drop_last()) && (rule_with_id_lite(
        rules,
        s.fired.last(),
    ) matches Some(i) && lower(rules[i].action@) != "continue"@ && s.status == upper(
        lower(rules[i].action@),
    ))
}

proof fn lemma_lite_run_decided(rules: Seq<LiteRule>, facts: Seq<(String, JsonValue)>, n: nat)
    ensures
        lite_run(rules, facts, n) matches LiteProgress::Running(s) ==> s.status == "NO_MATCH"@
            && all_continue(rules, s.fired),
        lite_run(rules, facts, n) matches LiteProgress::Done(s) ==> lite_decided(rules, s),
    decreases n,
{
    if n > 0 {
        lemma_lite_run_decided(rules, facts, (n - 1) as nat);
        if let LiteProgress::Running(s) = lite_run(rules, facts, (n - 1) as nat) {
            if let Some(id) = s.current {
                if let Some(i) = rule_with_id_lite(rules, id) {
                    let c = choose|k: int| is_winner(rules, k) && #[trigger] rules[k].rank_id() == id;
                    assert(rules[i].id@ == id);
                    let fired = s.fired.push(id);
                    assert(fired.drop_last() =~= s.fired);
                    assert forall|j: int| 0 <= j < s.fired.len() implies continues(
                        rules,
                        #[trigger] fired[j],
                    ) by {
                        assert(fired[j] == s.fired[j]);
                    }
                }
            }
        }
    }
}

/// A finished run of the embeddable engine stops at the first matching rule
/// whose action is not `continue`, and reports that action, upper-cased; a
/// run in which no such rule matched reports `NO_MATCH`.
pub proof fn law_lite_stops_at_first_decision(rules: Seq<LiteRule>, facts: Seq<(String, JsonValue)>)
    requires
        lite_finishes(rules, facts),
    ensures
        lite_outcome(rules, facts) matches LiteProgress::Done(s) ==> lite_decided(rules, s),
{
    let n = choose|n: nat| !(#[trigger] lite_run(rules, facts, n) is Running);
    lemma_lite_run_decided(rules, facts, n);
}

/// Tests `left op right`, the operator named as text.
pub fn eval_named(left: &JsonValue, op: &str, right: &JsonValue) -> (r: Result<bool, RulesError>)
    ensures
        viewed(r) == eval_named_spec(left@, op@, right@),
{
    match parse_operator(op) {
        Ok(o) => if o == Operator::In {
            Err(RulesError::UnsupportedOperator(op.to_owned()))
        } else {
            eval(left, o, right)
        },
        Err(e) => Err(e),
    }
}

/// Runs the rules against the facts, from the enabled rule of least order.
pub fn run_rules(rules: Vec<LiteRule>, facts: Vec<(String, JsonValue)>) -> (r: Result<LiteResult, RulesError>)
    requires
        next_index(rules@, None) is Some ==> lite_finishes(rules@, facts@),
    ensures
        next_index(rules@, None) is None ==> (r matches Err(e) && e@ == Fault::NoEnabledRules),
        next_index(rules@, None) is Some ==> match lite_outcome(rules@, facts@) {
            LiteProgress::Done(s) => r matches Ok(res) && {
                &&& res.status@ == s.status
                &&& texts(res.fired_rules@) == s.fired
                &&& texts(res.messages@) == s.messages
                &&& res.context == facts
            },
            LiteProgress::Failed(f) => r matches Err(e) && e@ == f,
            _ => false,
        },
{
    let winners = winner_flags(&rules);
    let first = next_by_order(&rules, &winners, None);
    if first.is_none() {
        return Err(RulesError::NoEnabledRules);
    }
    let mut current: Option<String> = id_at(&rules, first);
    let mut fired: Vec<String> = Vec::new();
    let mut messages: Vec<String> = Vec::new();
    let status = "NO_MATCH".to_owned();
    let null = JsonValue::Null;
    let ghost n: nat = choose|n: nat| !(#[trigger] lite_run(rules@, facts@, n) is Running);
    let ghost mut k: nat = 0;
    proof {
        assert(texts(fired@) =~= Seq::<Seq<char>>::empty());
        assert(texts(messages@) =~= Seq::<Seq<char>>::empty());
    }
    loop
        invariant
            winners@.len() == rules@.len(),
            forall|i: int| 0 <= i < rules@.len() ==> winners@[i] == is_winner(rules@, i),
            null@ == Json::Null,
            next_index(rules@, None) is Some,
            n == choose|n: nat| !(#[trigger] lite_run(rules@, facts@, n) is Running),
            !(lite_run(rules@, facts@, n) is Running),
            lite_run(rules@, facts@, k) == LiteProgress::Running(
                LiteState {
                    current: opt_text(current),
                    fired: texts(fired@),
                    messages: texts(messages@),
                    status: status@,
                },
            ),
        decreases n - k,
    {
        let ghost s = LiteState {
            current: opt_text(current),
            fired: texts(fired@),
            messages: texts(messages@),
            status: status@,
        };
        proof {
            lemma_lite_running_before_end(rules@, facts@, k, n);
            assert(lite_run(rules@, facts@, (k + 1) as nat) == lite_step(rules@, facts@, s));
        }
        if current.is_none() {
            proof {
                lemma_lite_stays(rules@, facts@, (k + 1) as nat, n);
            }
            return Ok(LiteResult { status, fired_rules: fired, messages, context: facts });
        }
        let id: String = current.unwrap();
        let i = match find_rule(&rules, &winners, &id) {
            Some(i) => i,
            None => {
                proof {
                    lemma_lite_stays(rules@, facts@, (k + 1) as nat, n);
                }
                return Err(RulesError::UnknownRuleId(id));
            },
        };
        let rule = &rules[i];
        let candidate = crate::engine::fact_for(&facts, &rule.field, &null);
        let matched = match eval_named(candidate, rule.op.as_str(), &rule.value) {
            Ok(b) => b,
            Err(e) => {
                proof {
                    lemma_lite_stays(rules@, facts@, (k + 1) as nat, n);
                }
                return Err(e);
            },
        };
        if matched {
            let ghost fired_before = texts(fired@);
            let ghost messages_before = texts(messages@);
            fired.push(rule.id.clone());
            match &rule.message {
                Some(m) => {
                    messages.push(m.clone());
                },
                None => {},
            }
            proof {
                assert(texts(fired@) =~= fired_before.push(rules@[i as int].id@));
                assert(texts(messages@) =~= match rules@[i as int].message {
                    Some(m) => messages_before.push(m@),
                    None => messages_before,
                });
            }
            let action = lower_chars(&chars_of(rule.action.as_str()));
            if !spells(&action, "continue") {
                let text = string_from_chars(&upper_chars(&action));
                proof {
                    lemma_lite_stays(rules@, facts@, (k + 1) as nat, n);
                }
                return Ok(LiteResult { status: text, fired_rules: fired, messages, context: facts });
            }
            current = match &rule.next_rule {
                Some(nr) => Some(nr.clone()),
                None => {
                    let nx = next_by_order(&rules, &winners, Some(rule.order));
                    id_at(&rules, nx)
                },
            };
        } else {
            let nx = next_by_order(&rules, &winners, Some(rule.order));
            current = id_at(&rules, nx);
        }
        proof {
            k = k + 1;
        }
    }
}


/// The messages of the rules among `fired`, in the order they fired.
pub open spec fn lite_fired_messages(rules: Seq<LiteRule>, fired: Seq<Seq<char>>) -> Seq<Seq<char>>
    decreases fired.len(),
{
    if fired.len() == 0 {
        Seq::empty()
    } else {
        let rest = lite_fired_messages(rules, fired.drop_last());
        match rule_with_id_lite(rules, fired.last()) {
            Some(i) => match rules[i].message {
                Some(m) => rest.push(m@),
                None => rest,
            },
            None => rest,
        }
    }
}

/// Every rule among `fired` names a rule that counts and whose condition
/// held on the facts.
pub open spec fn lite_fired_matched(
    rules: Seq<LiteRule>,
    facts: Seq<(String, JsonValue)>,
    fired: Seq<Seq<char>>,
) -> bool {
    forall|j: int|
        0 <= j < fired.len() ==> ((#[trigger] rule_with_id_lite(rules, fired[j])) matches Some(k)
            && eval_named_spec(fact_value(facts, rules[k].field@), rules[k].op@, rules[k].value@)
            == Ok::<bool, Fault>(true))
}

proof fn lemma_lite_run_gathers(rules: Seq<LiteRule>, facts: Seq<(String, JsonValue)>, n: nat)
    ensures
        lite_run(rules, facts, n) matches LiteProgress::Running(s) ==> s.messages
            == lite_fired_messages(rules, s.fired) && lite_fired_matched(rules, facts, s.fired),
        lite_run(rules, facts, n) matches LiteProgress::Done(s) ==> s.messages == lite_fired_messages(
            rules,
            s.fired,
        ) && lite_fired_matched(rules, facts, s.fired),
    decreases n,
{
    if n > 0 {
        lemma_lite_run_gathers(rules, facts, (n - 1) as nat);
        if let LiteProgress::Running(s) = lite_run(rules, facts, (n - 1) as nat) {
            if let Some(id) = s.current {
                if let Some(i) = rule_with_id_lite(rules, id) {
                    let c = choose|k: int| is_winner(rules, k) && #[trigger] rules[k].rank_id() == id;
                    assert(rules[i].id@ == id);
                    let fired = s.fired.push(id);
                    assert(fired.drop_last() =~= s.fired);
                    if eval_named_spec(fact_value(facts, rules[i].field@), rules[i].op@, rules[i].value@)
                        == Ok::<bool, Fault>(true) {
                        assert forall|j: int| 0 <= j < fired.len() implies ((#[trigger] rule_with_id_lite(
                            rules,
                            fired[j],
                        )) matches Some(k) && eval_named_spec(
                            fact_value(facts, rules[k].field@),
                            rules[k].op@,
                            rules[k].value@,
                        ) == Ok::<bool, Fault>(true)) by {
                            if j < s.fired.len() {
                                assert(fired[j] == s.fired[j]);
                            }
                        }
                    }
                }
            }
        }
    }
}

/// The messages of a finished run of the embeddable engine are those of the
/// rules that fired, in the order they fired; a rule that did not match adds
/// none.
pub proof fn law_lite_messages_are_those_of_fired_rules(
    rules: Seq<LiteRule>,
    facts: Seq<(String, JsonValue)>,
)
    requires
        lite_finishes(rules, facts),
    ensures
        lite_outcome(rules, facts) matches LiteProgress::Done(s) ==> s.messages == lite_fired_messages(
            rules,
            s.fired,
        ),
{
    let n = choose|n: nat| !(#[trigger] lite_run(rules, facts, n) is Running);
    lemma_lite_run_gathers(rules, facts, n);
}

/// A rule of the embeddable engine fires only where its condition holds.
pub proof fn law_lite_fired_rules_matched(rules: Seq<LiteRule>, facts: Seq<(String, JsonValue)>)
    requires
        lite_finishes(rules, facts),
    ensures
        lite_outcome(rules, facts) matches LiteProgress::Done(s) ==> lite_fired_matched(
            rules,
            facts,
            s.fired,
        ),
{
    let n = choose|n: nat| !(#[trigger] lite_run(rules, facts, n) is Running);
    lemma_lite_run_gathers(rules, facts, n);
}

/// Where a run of the embeddable engine goes after testing its current rule
/// `i`: on no match, on by order, with nothing else changed (a rule's
/// `next_rule` is followed only after a match); on a match with the action
/// `continue`, the rule fires and the run goes to its `next_rule` where it
/// has one, else on by order.
pub proof fn law_lite_routing(rules: Seq<LiteRule>, facts: Seq<(String, JsonValue)>, s: LiteState, i: int)
    requires
        s.current is Some,
        rule_with_id_lite(rules, s.current->0) == Some(i),
    ensures
        eval_named_spec(fact_value(facts, rules[i].field@), rules[i].op@, rules[i].value@) == Ok::<
            bool,
            Fault,
        >(false) ==> lite_step(rules, facts, s) == LiteProgress::Running(
            LiteState { current: next_id(rules, Some(rules[i].order)), ..s },
        ),
        eval_named_spec(fact_value(facts, rules[i].field@), rules[i].op@, rules[i].value@) == Ok::<
            bool,
            Fault,
        >(true) && lower(rules[i].action@) == "continue"@ ==> (lite_step(rules, facts, s)
            matches LiteProgress::Running(t) && t.fired == s.fired.push(s.current->0) && t.status
            == s.status && t.current == (if rules[i].next_rule is Some {
            Some(rules[i].next_rule->0@)
        } else {
            next_id(rules, Some(rules[i].order))
        })),
{
    let id = s.current->0;
    let c = choose|k: int| is_winner(rules, k) && #[trigger] rules[k].rank_id() == id;
    assert(is_winner(rules, c) && rules[c].rank_id() == id);
    assert(rules[i].id@ == id);
}


/// The embeddable engine reads operator names as the main engine does, but
/// knows no `in`: that name, like any unknown one, is an unsupported
/// operator; every other operator evaluates as in the main engine.
pub proof fn law_lite_operators(left: Json, op: Seq<char>, right: Json)
    ensures
        operator_of(op) == Ok::<Operator, Fault>(Operator::In) ==> eval_named_spec(left, op, right)
            == Err::<bool, Fault>(Fault::UnsupportedOperator(op)),
        operator_of(op) is Err ==> eval_named_spec(left, op, right) == Err::<bool, Fault>(
            Fault::UnsupportedOperator(op),
        ),
        operator_of(op) is Ok && operator_of(op)->Ok_0 != Operator::In ==> eval_named_spec(left, op, right)
            == eval_spec(left, operator_of(op)->Ok_0, right),
{
}

} // verus!
