use rules_cli::engine::execute_rules;
use rules_cli::json::JsonValue;
use rules_cli::rules::{Action, Operator, Rule, RuleType};

fn facts(entries: Vec<(&str, JsonValue)>) -> Vec<(String, JsonValue)> {
    entries.into_iter().map(|(k, v)| (k.to_string(), v)).collect()
}

fn num(v: i128) -> JsonValue {
    JsonValue::Int(v)
}

fn float(f: f64) -> JsonValue {
    JsonValue::Float(f.to_bits())
}

fn text(s: &str) -> JsonValue {
    JsonValue::Str { text: s.to_string(), number: s.parse::<f64>().ok().map(|f| f.to_bits()) }
}

#[test]
fn supports_if_then_and_decision_table_flow() {
    let rules = vec![
        Rule {
            id: "income_high".into(),
            enabled: true,
            order: 10,
            rule_type: RuleType::DecisionTable,
            field: "annual_income".into(),
            op: Operator::Gt,
            value: num(100000),
            action: Action::Continue,
            score: 0,
            message: Some("income ok".into()),
            next_rule: Some("credit_good".into()),
            next_true: None,
            next_false: None,
        },
        Rule {
            id: "credit_good".into(),
            enabled: true,
            order: 20,
            rule_type: RuleType::IfThen,
            field: "credit_score".into(),
            op: Operator::Gte,
            value: num(700),
            action: Action::Approve,
            score: 0,
            message: Some("credit ok".into()),
            next_rule: None,
            next_true: None,
            next_false: None,
        },
    ];

    let result = execute_rules(
        rules,
        facts(vec![("annual_income", num(120000)), ("credit_score", num(730))]),
        None,
    )
    .expect("execution should pass");

    assert_eq!(result.status, "APPROVED");
    assert_eq!(result.fired_rules, vec!["income_high", "credit_good"]);
}

#[test]
fn supports_decision_tree_branching() {
    let rules = vec![
        Rule {
            id: "root".into(),
            enabled: true,
            order: 10,
            rule_type: RuleType::DecisionTree,
            field: "credit_score".into(),
            op: Operator::Gte,
            value: num(700),
            action: Action::Continue,
            score: 0,
            message: None,
            next_rule: None,
            next_true: Some("approve".into()),
            next_false: Some("reject".into()),
        },
        Rule {
            id: "approve".into(),
            enabled: true,
            order: 20,
            rule_type: RuleType::Flow,
            field: "credit_score".into(),
            op: Operator::Gte,
            value: num(700),
            action: Action::Approve,
            score: 0,
            message: None,
            next_rule: None,
            next_true: None,
            next_false: None,
        },
        Rule {
            id: "reject".into(),
            enabled: true,
            order: 30,
            rule_type: RuleType::Flow,
            field: "credit_score".into(),
            op: Operator::Lt,
            value: num(700),
            action: Action::Reject,
            score: 0,
            message: None,
            next_rule: None,
            next_true: None,
            next_false: None,
        },
    ];

    let result = execute_rules(rules, facts(vec![("credit_score", num(640))]), None)
        .expect("execution should pass");
    assert_eq!(result.status, "REJECTED");
    assert_eq!(result.fired_rules, vec!["reject"]);
}

#[test]
fn supports_scorecard_rules() {
    let rules = vec![
        Rule {
            id: "stable_income".into(),
            enabled: true,
            order: 10,
            rule_type: RuleType::Scorecard,
            field: "years_employed".into(),
            op: Operator::Gte,
            value: num(3),
            action: Action::Continue,
            score: 30,
            message: None,
            next_rule: None,
            next_true: None,
            next_false: None,
        },
        Rule {
            id: "low_dti".into(),
            enabled: true,
            order: 20,
            rule_type: RuleType::Scorecard,
            field: "dti".into(),
            op: Operator::Lt,
            value: float(0.4),
            action: Action::Continue,
            score: 40,
            message: None,
            next_rule: None,
            next_true: None,
            next_false: None,
        },
    ];

    let result = execute_rules(
        rules,
        facts(vec![("years_employed", num(5)), ("dti", float(0.32))]),
        None,
    )
    .expect("execution should pass");

    assert_eq!(result.total_score, 70);
    assert_eq!(result.status, "SCORECARD");
}

#[test]
fn supports_constraint_rules() {
    let rules = vec![Rule {
        id: "max_amount".into(),
        enabled: true,
        order: 10,
        rule_type: RuleType::Constraint,
        field: "requested_amount".into(),
        op: Operator::Gt,
        value: num(500000),
        action: Action::Reject,
        score: 0,
        message: Some("Amount exceeds policy limit".into()),
        next_rule: None,
        next_true: None,
        next_false: None,
    }];

    let result = execute_rules(rules, facts(vec![("requested_amount", num(600000))]), None)
        .expect("execution should pass");

    assert_eq!(result.status, "REJECTED");
    assert_eq!(result.fired_rules, vec!["max_amount"]);
}

#[test]
fn supports_validation_rules() {
    let rules = vec![Rule {
        id: "email_required".into(),
        enabled: true,
        order: 10,
        rule_type: RuleType::Validation,
        field: "email".into(),
        op: Operator::Eq,
        value: JsonValue::Null,
        action: Action::Reject,
        score: 0,
        message: Some("Email is required".into()),
        next_rule: None,
        next_true: None,
        next_false: None,
    }];

    let result = execute_rules(rules, facts(vec![("email", JsonValue::Null)]), None)
        .expect("execution should pass");

    assert_eq!(result.status, "REJECTED");
    assert_eq!(result.messages, vec!["Email is required"]);
}

#[test]
fn supports_eca_rules() {
    let rules = vec![Rule {
        id: "on_submit".into(),
        enabled: true,
        order: 10,
        rule_type: RuleType::Eca,
        field: "_event".into(),
        op: Operator::Eq,
        value: text("application_submitted"),
        action: Action::Review,
        score: 0,
        message: Some("Submitted event captured".into()),
        next_rule: None,
        next_true: None,
        next_false: None,
    }];

    let result = execute_rules(
        rules,
        facts(vec![("_event", text("application_submitted"))]),
        None,
    )
    .expect("execution should pass");

    assert_eq!(result.status, "REVIEW");
    assert_eq!(result.fired_rules, vec!["on_submit"]);
}

#[test]
fn supports_flow_rules() {
    let rules = vec![
        Rule {
            id: "route_high".into(),
            enabled: true,
            order: 10,
            rule_type: RuleType::Flow,
            field: "requested_amount".into(),
            op: Operator::Gt,
            value: num(250000),
            action: Action::Continue,
            score: 0,
            message: None,
            next_rule: Some("manual_review".into()),
            next_true: None,
            next_false: None,
        },
        Rule {
            id: "manual_review".into(),
            enabled: true,
            order: 20,
            rule_type: RuleType::Flow,
            field: "requested_amount".into(),
            op: Operator::Gt,
            value: num(250000),
            action: Action::Review,
            score: 0,
            message: Some("Routed to manual review".into()),
            next_rule: None,
            next_true: None,
            next_false: None,
        },
    ];

    let result = execute_rules(rules, facts(vec![("requested_amount", num(300000))]), None)
        .expect("execution should pass");

    assert_eq!(result.status, "REVIEW");
    assert_eq!(result.fired_rules, vec!["route_high", "manual_review"]);
}
