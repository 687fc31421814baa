use rules_cli::engine::{execute_rules, Status};
use rules_cli::eval::{duplicate, eval, json_equal};
use rules_cli::json::{f64_order_of, int_key_of, F64Order, JsonValue};
use rules_cli::lite::{eval_named, run_rules, LiteRule};
use rules_cli::loading::{
    facts_from_json, format_for_extension, rules_format, rules_from_json_rows, RuleRow, RulesFormat,
};
use rules_cli::rules::{
    parse_action, parse_operator, parse_rule_type, Action, Operator, Rule, RuleType, RulesError,
};
use rules_cli::sheet::{
    cell_is_empty, cell_to_string, parse_bool, parse_i64, parse_value, rules_from_sheet, Cell,
};
use rules_cli::termination::{lite_run_finishes, run_finishes};
use rules_cli::text::{chars_of, normalize, parse_i64_chars};

fn num(v: i128) -> JsonValue {
    JsonValue::Int(v)
}

fn float(f: f64) -> JsonValue {
    JsonValue::Float(f.to_bits())
}

fn text(s: &str) -> JsonValue {
    JsonValue::Str { text: s.to_string(), number: s.parse::<f64>().ok().map(|f| f.to_bits()) }
}

fn rule(id: &str, order: i64, field: &str, op: Operator, value: JsonValue, action: Action) -> Rule {
    Rule {
        id: id.to_string(),
        enabled: true,
        order,
        rule_type: RuleType::IfThen,
        field: field.to_string(),
        op,
        value,
        action,
        score: 0,
        message: None,
        next_rule: None,
        next_true: None,
        next_false: None,
    }
}

fn facts(entries: Vec<(&str, JsonValue)>) -> Vec<(String, JsonValue)> {
    entries.into_iter().map(|(k, v)| (k.to_string(), v)).collect()
}

fn key(f: f64) -> i64 {
    match f64_order_of(f.to_bits()) {
        F64Order::Key(k) => k,
        F64Order::Nan => panic!("NaN has no key"),
    }
}

// --- names -----------------------------------------------------------------

#[test]
fn operator_names_are_trimmed_and_case_insensitive() {
    assert_eq!(parse_operator("  GTE\t").unwrap(), Operator::Gte);
    assert_eq!(parse_operator(">=").unwrap(), Operator::Gte);
    assert_eq!(parse_operator("StartsWith").unwrap(), Operator::StartsWith);
    assert_eq!(parse_operator("in").unwrap(), Operator::In);
    match parse_operator(" between ") {
        Err(RulesError::UnsupportedOperator(s)) => assert_eq!(s, " between "),
        other => panic!("unexpected {other:?}"),
    }
}

#[test]
fn rule_type_and_action_names() {
    assert_eq!(parse_rule_type("table").unwrap(), RuleType::DecisionTable);
    assert_eq!(parse_rule_type(" Event_Condition_Action ").unwrap(), RuleType::Eca);
    assert_eq!(parse_rule_type("production").unwrap(), RuleType::IfThen);
    assert!(matches!(parse_rule_type("graph"), Err(RulesError::UnsupportedRuleType(_))));
    assert_eq!(parse_action("REVIEW").unwrap(), Action::Review);
    assert!(matches!(parse_action("stop"), Err(RulesError::UnsupportedAction(_))));
}

#[test]
fn normalize_trims_unicode_whitespace_and_lowers_ascii() {
    let n: String = normalize("\u{3000} ÄbC \n").into_iter().collect();
    assert_eq!(n, "Äbc");
}

// --- numbers ---------------------------------------------------------------

#[test]
fn integer_keys_match_their_doubles() {
    for v in [0i128, 1, -1, 7, 100000, 4503599627370496, 9007199254740993, -9007199254740993] {
        assert_eq!(int_key_of(v), key(v as f64), "value {v}");
    }
    assert_eq!(int_key_of(u64::MAX as i128), key(u64::MAX as f64));
    assert_eq!(int_key_of(i64::MIN as i128), key(i64::MIN as f64));
    assert_eq!(int_key_of(1), 0x3ff0_0000_0000_0000);
}

#[test]
fn float_keys_order_like_doubles() {
    assert_eq!(key(-0.0), key(0.0));
    assert!(key(-1.5) < key(-0.5));
    assert!(key(0.32) < key(0.4));
    assert!(key(f64::INFINITY) > key(1e308));
    assert_eq!(f64_order_of(f64::NAN.to_bits()), F64Order::Nan);
}

#[test]
fn numeric_operators_compare_ints_floats_and_numeric_strings() {
    assert!(eval(&num(5), Operator::Gt, &float(4.5)).unwrap());
    assert!(eval(&text("700"), Operator::Gte, &num(700)).unwrap());
    assert!(eval(&float(0.32), Operator::Lt, &float(0.4)).unwrap());
    assert!(!eval(&text("NaN"), Operator::Lte, &num(1)).unwrap());
    assert!(!eval(&text("NaN"), Operator::Gt, &num(1)).unwrap());
    match eval(&text("abc"), Operator::Gt, &num(1)) {
        Err(RulesError::NotNumeric(JsonValue::Str { text, .. })) => assert_eq!(text, "abc"),
        other => panic!("unexpected {other:?}"),
    }
    assert!(matches!(
        eval(&num(1), Operator::Lt, &JsonValue::Null),
        Err(RulesError::NotNumeric(JsonValue::Null))
    ));
}

#[test]
fn equality_follows_json_equality() {
    assert!(!eval(&num(1), Operator::Eq, &float(1.0)).unwrap());
    assert!(eval(&float(-0.0), Operator::Eq, &float(0.0)).unwrap());
    assert!(eval(&text("a"), Operator::Ne, &text("b")).unwrap());
    let a = JsonValue::Array(vec![num(1), text("x")]);
    let b = JsonValue::Array(vec![num(1), text("x")]);
    assert!(json_equal(&a, &b));
    let o1 = JsonValue::Object(vec![("k".to_string(), num(1))]);
    let o2 = JsonValue::Object(vec![("k".to_string(), num(2))]);
    assert!(!json_equal(&o1, &o2));
    assert!(json_equal(&duplicate(&o1), &o1));
}

#[test]
fn text_operators_and_membership() {
    assert!(eval(&text("mortgage loan"), Operator::Contains, &text("gage")).unwrap());
    assert!(eval(&text("mortgage"), Operator::StartsWith, &text("mort")).unwrap());
    assert!(eval(&text("mortgage"), Operator::EndsWith, &text("")).unwrap());
    assert!(!eval(&text("mort"), Operator::EndsWith, &text("mortgage")).unwrap());
    assert!(matches!(eval(&num(3), Operator::Contains, &text("3")), Err(RulesError::NotText(_))));
    let list = JsonValue::Array(vec![text("a"), num(2)]);
    assert!(eval(&num(2), Operator::In, &list).unwrap());
    assert!(!eval(&text("b"), Operator::In, &list).unwrap());
    assert!(matches!(eval(&num(2), Operator::In, &num(2)), Err(RulesError::InExpectsArray)));
}

// --- engine ----------------------------------------------------------------

#[test]
fn no_match_when_nothing_fires() {
    let rules = vec![rule("r", 1, "x", Operator::Eq, num(1), Action::Approve)];
    let result = execute_rules(rules, facts(vec![("x", num(2))]), None).unwrap();
    assert_eq!(result.status, "NO_MATCH");
    assert!(result.fired_rules.is_empty());
    assert_eq!(result.context.len(), 1);
}

#[test]
fn missing_fact_reads_as_null() {
    let rules = vec![rule("r", 1, "email", Operator::Eq, JsonValue::Null, Action::Reject)];
    let result = execute_rules(rules, facts(vec![]), None).unwrap();
    assert_eq!(result.status, "REJECTED");
}

#[test]
fn disabled_rules_never_fire_and_no_enabled_rules_fails() {
    let mut r = rule("r", 1, "x", Operator::Eq, num(1), Action::Approve);
    r.enabled = false;
    assert!(matches!(
        execute_rules(vec![r], facts(vec![("x", num(1))]), None),
        Err(RulesError::NoEnabledRules)
    ));
    let mut off = rule("off", 1, "x", Operator::Eq, num(1), Action::Reject);
    off.enabled = false;
    let on = rule("on", 2, "x", Operator::Eq, num(1), Action::Approve);
    let result = execute_rules(vec![off, on], facts(vec![("x", num(1))]), None).unwrap();
    assert_eq!(result.fired_rules, vec!["on"]);
    assert_eq!(result.status, "APPROVED");
}

#[test]
fn later_duplicate_with_greater_order_wins() {
    let a = rule("dup", 5, "x", Operator::Eq, num(1), Action::Approve);
    let b = rule("dup", 10, "x", Operator::Eq, num(1), Action::Reject);
    let result = execute_rules(vec![a, b], facts(vec![("x", num(1))]), None).unwrap();
    assert_eq!(result.status, "REJECTED");
}

#[test]
fn unknown_start_rule_is_an_error() {
    let rules = vec![rule("r", 1, "x", Operator::Eq, num(1), Action::Approve)];
    match execute_rules(rules, facts(vec![]), Some("nope".to_string())) {
        Err(RulesError::UnknownRuleId(id)) => assert_eq!(id, "nope"),
        other => panic!("unexpected {other:?}"),
    }
}

#[test]
fn start_rule_skips_earlier_rules() {
    let rules = vec![
        rule("first", 1, "x", Operator::Eq, num(1), Action::Reject),
        rule("second", 2, "x", Operator::Eq, num(1), Action::Approve),
    ];
    let result = execute_rules(rules, facts(vec![("x", num(1))]), Some("second".into())).unwrap();
    assert_eq!(result.fired_rules, vec!["second"]);
    assert_eq!(result.status, "APPROVED");
}

#[test]
fn non_continue_action_keeps_running_while_rules_remain() {
    let rules = vec![
        rule("a", 1, "x", Operator::Eq, num(1), Action::Approve),
        rule("b", 2, "x", Operator::Eq, num(1), Action::Review),
    ];
    let result = execute_rules(rules, facts(vec![("x", num(1))]), None).unwrap();
    assert_eq!(result.fired_rules, vec!["a", "b"]);
    assert_eq!(result.status, "REVIEW");
}

#[test]
fn total_score_sums_fired_scorecards_and_messages_follow() {
    let mut a = rule("a", 1, "x", Operator::Gte, num(0), Action::Continue);
    a.rule_type = RuleType::Scorecard;
    a.score = 15;
    a.message = Some("first".into());
    let mut b = rule("b", 2, "x", Operator::Lt, num(0), Action::Continue);
    b.rule_type = RuleType::Scorecard;
    b.score = 100;
    let mut c = rule("c", 3, "x", Operator::Gte, num(0), Action::Continue);
    c.rule_type = RuleType::Scorecard;
    c.score = -5;
    c.message = Some("third".into());
    let result = execute_rules(vec![a, b, c], facts(vec![("x", num(3))]), None).unwrap();
    assert_eq!(result.total_score, 10);
    assert_eq!(result.fired_rules, vec!["a", "c"]);
    assert_eq!(result.messages, vec!["first", "third"]);
    assert_eq!(result.status, "SCORECARD");
}

#[test]
fn status_follows_the_last_deciding_rule_or_a_later_scorecard() {
    let a = rule("a", 1, "x", Operator::Eq, num(1), Action::Reject);
    let b = rule("b", 2, "x", Operator::Eq, num(1), Action::Continue);
    let result = execute_rules(vec![a, b], facts(vec![("x", num(1))]), None).unwrap();
    assert_eq!(result.fired_rules, vec!["a", "b"]);
    assert_eq!(result.status, "REJECTED");

    let a = rule("a", 1, "x", Operator::Eq, num(1), Action::Approve);
    let mut b = rule("b", 2, "x", Operator::Eq, num(1), Action::Continue);
    b.rule_type = RuleType::Scorecard;
    b.score = 7;
    let result = execute_rules(vec![a, b], facts(vec![("x", num(1))]), None).unwrap();
    assert_eq!(result.status, "SCORECARD");
    assert_eq!(result.total_score, 7);

    let mut a = rule("a", 1, "x", Operator::Eq, num(1), Action::Review);
    a.rule_type = RuleType::Scorecard;
    a.score = 3;
    let result = execute_rules(vec![a], facts(vec![("x", num(1))]), None).unwrap();
    assert_eq!(result.status, "REVIEW");
    assert_eq!(result.total_score, 3);
}

#[test]
fn evaluation_errors_stop_the_run() {
    let rules = vec![rule("r", 1, "x", Operator::Gt, num(1), Action::Approve)];
    assert!(matches!(
        execute_rules(rules, facts(vec![("x", text("many"))]), None),
        Err(RulesError::NotNumeric(_))
    ));
}

#[test]
fn cycles_and_overflows_are_detected_before_running() {
    let mut a = rule("a", 1, "x", Operator::Eq, num(1), Action::Continue);
    a.next_rule = Some("a".into());
    let rules = vec![a];
    let fs = facts(vec![("x", num(1))]);
    assert!(!run_finishes(&rules, &fs, &None));

    let mut s1 = rule("s1", 1, "x", Operator::Eq, num(1), Action::Continue);
    s1.rule_type = RuleType::Scorecard;
    s1.score = i64::MAX;
    let mut s2 = rule("s2", 2, "x", Operator::Eq, num(1), Action::Continue);
    s2.rule_type = RuleType::Scorecard;
    s2.score = 1;
    assert!(!run_finishes(&vec![s1, s2], &fs, &None));

    let ok = vec![rule("a", 1, "x", Operator::Eq, num(1), Action::Approve)];
    assert!(run_finishes(&ok, &fs, &None));
    assert!(run_finishes(&ok, &fs, &Some("missing".into())));
}

#[test]
fn rules_without_jumps_run_in_ascending_order_once_each() {
    let rules = vec![
        rule("c", 30, "x", Operator::Gte, num(0), Action::Continue),
        rule("a", 10, "x", Operator::Gte, num(0), Action::Continue),
        rule("b", 20, "x", Operator::Lt, num(0), Action::Continue),
        rule("d", 40, "x", Operator::Gte, num(0), Action::Continue),
    ];
    let fs = facts(vec![("x", num(1))]);
    assert!(run_finishes(&rules, &fs, &None));
    assert!(run_finishes(&rules, &fs, &Some("b".into())));
    let result = execute_rules(rules, fs, None).unwrap();
    assert_eq!(result.fired_rules, vec!["a", "c", "d"]);
    assert_eq!(result.status, "NO_MATCH");
}

#[test]
fn forward_links_finish() {
    let mut a = rule("a", 10, "x", Operator::Gte, num(0), Action::Continue);
    a.next_rule = Some("c".into());
    let b = rule("b", 20, "x", Operator::Gte, num(0), Action::Continue);
    let mut c = rule("c", 30, "x", Operator::Gte, num(0), Action::Continue);
    c.next_rule = Some("d".into());
    let d = rule("d", 40, "x", Operator::Gte, num(0), Action::Approve);
    let fs = facts(vec![("x", num(1))]);
    let rules = vec![a, b, c, d];
    assert!(run_finishes(&rules, &fs, &None));
    let result = execute_rules(rules, fs, None).unwrap();
    assert_eq!(result.fired_rules, vec!["a", "c", "d"]);
    assert_eq!(result.status, "APPROVED");
}

#[test]
fn list_order_and_disabled_rules_do_not_change_the_result() {
    let make = || {
        let mut a = rule("a", 10, "x", Operator::Gt, num(0), Action::Continue);
        a.rule_type = RuleType::Scorecard;
        a.score = 5;
        a.message = Some("a".into());
        let mut b = rule("b", 20, "x", Operator::Lt, num(0), Action::Reject);
        b.message = Some("b".into());
        let mut c = rule("c", 30, "x", Operator::Gt, num(0), Action::Review);
        c.message = Some("c".into());
        let mut off = rule("off", 5, "x", Operator::Gt, num(0), Action::Approve);
        off.enabled = false;
        (a, b, c, off)
    };
    let (a, b, c, off) = make();
    let first = execute_rules(vec![a, b, c, off], facts(vec![("x", num(1))]), None).unwrap();
    let (a, b, c, _) = make();
    let second = execute_rules(vec![c, a, b], facts(vec![("x", num(1))]), None).unwrap();
    assert_eq!(first.status, second.status);
    assert_eq!(first.fired_rules, second.fired_rules);
    assert_eq!(first.messages, second.messages);
    assert_eq!(first.total_score, second.total_score);
    assert_eq!(second.fired_rules, vec!["a", "c"]);
    assert_eq!(second.status, "REVIEW");
    assert_eq!(second.total_score, 5);
}

#[test]
fn decision_tree_follows_branches() {
    let mut root = rule("root", 1, "x", Operator::Gt, num(10), Action::Continue);
    root.rule_type = RuleType::DecisionTree;
    root.next_true = Some("big".into());
    root.next_false = Some("small".into());
    let small = rule("small", 3, "x", Operator::Lte, num(10), Action::Reject);
    let big = rule("big", 2, "x", Operator::Gt, num(10), Action::Approve);
    let result = execute_rules(vec![root, small, big], facts(vec![("x", num(11))]), None).unwrap();
    assert_eq!(result.fired_rules, vec!["root", "big"]);
    assert_eq!(result.status, "APPROVED");
}

#[test]
fn status_texts() {
    assert_eq!(Status::NoMatch.text(), "NO_MATCH");
    assert_eq!(Status::Scorecard.text(), "SCORECARD");
    assert_eq!(Status::Review.text(), "REVIEW");
}

// --- worksheets ------------------------------------------------------------

fn t(s: &str) -> Cell {
    Cell::Text(s.to_string())
}

fn header() -> Vec<Cell> {
    ["ID", "enabled", "order", "rule_type", "field", "op", "value", "action", "score", "message"]
        .iter()
        .map(|s| t(s))
        .collect()
}

#[test]
fn cells_read_as_text_flags_and_integers() {
    assert_eq!(cell_to_string(&Cell::Int(-42)), "-42");
    assert_eq!(cell_to_string(&Cell::Bool(true)), "true");
    assert_eq!(cell_to_string(&Cell::Empty), "");
    assert!(cell_is_empty(&t(" \t ")));
    assert!(!cell_is_empty(&t(" x ")));
    assert!(parse_bool(&t(" Yes ")).unwrap());
    assert!(!parse_bool(&t("0")).unwrap());
    assert!(matches!(parse_bool(&t("maybe")), Err(RulesError::InvalidBoolean(_))));
    assert_eq!(parse_i64(&t(" +17 ")).unwrap(), 17);
    assert_eq!(parse_i64(&Cell::Int(i64::MIN)).unwrap(), i64::MIN);
    assert!(matches!(parse_i64(&t("9223372036854775808")), Err(RulesError::InvalidInteger(_))));
    assert!(matches!(parse_i64(&t("-")), Err(RulesError::InvalidInteger(_))));
}

#[test]
fn integer_parsing_follows_std() {
    for s in ["0", "-0", "+5", "007", "-9223372036854775808", "9223372036854775807"] {
        assert_eq!(parse_i64_chars(&chars_of(s)), s.parse::<i64>().ok(), "{s}");
    }
    for s in ["", "+", "1_000", "12a", "9223372036854775808", " 1"] {
        assert_eq!(parse_i64_chars(&chars_of(s)), None, "{s}");
    }
}

#[test]
fn sheet_rows_become_rules() {
    let rows = vec![
        header(),
        vec![t(" r1 "), t("TRUE"), Cell::Int(10), t(""), t("amount"), t(" GT "), t("100"), t("approve"), t(" 0 "), t(" ok ")],
        vec![t(""), Cell::Empty, t("  ")],
        vec![t("r2"), t("no"), t("20"), t("scorecard"), t("score"), t("lt"), t("5"), t("continue"), Cell::Int(3)],
    ];
    let rules = rules_from_sheet(&rows).unwrap();
    assert_eq!(rules.len(), 2);
    assert_eq!(rules[0].id, "r1");
    assert_eq!(rules[0].order, 10);
    assert_eq!(rules[0].rule_type, RuleType::IfThen);
    assert_eq!(rules[0].op, Operator::Gt);
    assert_eq!(rules[0].value_text, "100");
    assert_eq!(rules[0].score, 0);
    assert_eq!(rules[0].message.as_deref(), Some("ok"));
    assert!(!rules[1].enabled);
    assert_eq!(rules[1].rule_type, RuleType::Scorecard);
    assert_eq!(rules[1].score, 3);
    assert_eq!(rules[1].message, None);
}

#[test]
fn blank_score_cell_reads_as_zero() {
    let rows = vec![
        header(),
        vec![t("r1"), t("true"), t("1"), t(""), t("f"), t("eq"), t("1"), t("approve"), t("")],
        vec![t("r2"), t("true"), t("2"), t(""), t("f"), t("eq"), t("1"), t("approve"), Cell::Empty],
        vec![t("r3"), t("true"), t("3"), t(""), t("f"), t("eq"), t("1"), t("approve"), t(" 4 ")],
    ];
    let rules = rules_from_sheet(&rows).unwrap();
    assert_eq!(rules.len(), 3);
    assert_eq!(rules[0].score, 0);
    assert_eq!(rules[1].score, 0);
    assert_eq!(rules[2].score, 4);
    let bad = vec![
        header(),
        vec![t("r1"), t("true"), t("1"), t(""), t("f"), t("eq"), t("1"), t("approve"), t("x")],
    ];
    assert!(matches!(rules_from_sheet(&bad), Err(RulesError::InvalidInteger(_))));
}

#[test]
fn sheet_errors() {
    assert!(matches!(rules_from_sheet(&vec![]), Err(RulesError::NoHeaderRow)));
    let no_op: Vec<Cell> = ["id", "enabled", "order", "field", "value", "action"].iter().map(|s| t(s)).collect();
    match rules_from_sheet(&vec![no_op]) {
        Err(RulesError::MissingColumn(c)) => assert_eq!(c, "op"),
        other => panic!("unexpected {other:?}"),
    }
    assert!(matches!(rules_from_sheet(&vec![header()]), Err(RulesError::NoRulesLoaded)));
    let short = vec![header(), vec![t("r1"), t("true"), t("1"), t(""), t("f")]];
    match rules_from_sheet(&short) {
        Err(RulesError::MissingValue(c)) => assert_eq!(c, "op"),
        other => panic!("unexpected {other:?}"),
    }
    let bad_type = vec![
        header(),
        vec![t("r1"), t("true"), t("1"), t("graph"), t("f"), t("eq"), t("1"), t("approve")],
    ];
    assert!(matches!(rules_from_sheet(&bad_type), Err(RulesError::UnsupportedRuleType(_))));
}

#[test]
fn cell_values_read_as_json_numbers_flags_or_text() {
    assert!(matches!(parse_value("", None, None), JsonValue::Null));
    assert!(matches!(parse_value("[1]", Some(JsonValue::Array(vec![num(1)])), None), JsonValue::Array(_)));
    assert!(matches!(parse_value("+5", None, Some(5.0f64.to_bits())), JsonValue::Int(5)));
    match parse_value(".5", None, Some(0.5f64.to_bits())) {
        JsonValue::Float(b) => assert_eq!(f64::from_bits(b), 0.5),
        other => panic!("unexpected {other:?}"),
    }
    match parse_value("inf", None, Some(f64::INFINITY.to_bits())) {
        JsonValue::Str { text, number } => {
            assert_eq!(text, "inf");
            assert_eq!(number, Some(f64::INFINITY.to_bits()));
        }
        other => panic!("unexpected {other:?}"),
    }
    assert!(matches!(parse_value("hello", None, None), JsonValue::Str { .. }));
}

// --- JSON documents --------------------------------------------------------

fn row(id: &str, op: &str, action: &str, rule_type: Option<&str>) -> RuleRow {
    RuleRow {
        id: id.to_string(),
        enabled: None,
        order: 1,
        rule_type: rule_type.map(|s| s.to_string()),
        field: "f".to_string(),
        op: op.to_string(),
        value: num(1),
        action: action.to_string(),
        score: None,
        message: None,
        next_rule: None,
        next_true: None,
        next_false: None,
    }
}

#[test]
fn json_rows_take_defaults() {
    let rules = rules_from_json_rows(vec![row("a", "eq", "approve", None)]).unwrap();
    assert!(rules[0].enabled);
    assert_eq!(rules[0].rule_type, RuleType::IfThen);
    assert_eq!(rules[0].score, 0);
}

#[test]
fn first_bad_json_row_decides_the_error() {
    let rows = vec![
        row("a", "eq", "approve", None),
        row("b", "near", "approve", None),
        row("c", "eq", "explode", None),
    ];
    match rules_from_json_rows(rows) {
        Err(RulesError::UnsupportedOperator(op)) => assert_eq!(op, "near"),
        other => panic!("unexpected {other:?}"),
    }
    match rules_from_json_rows(vec![row("a", "near", "approve", Some("graph"))]) {
        Err(RulesError::UnsupportedRuleType(t)) => assert_eq!(t, "graph"),
        other => panic!("unexpected {other:?}"),
    }
}

#[test]
fn facts_must_be_an_object() {
    assert!(matches!(facts_from_json(JsonValue::Array(vec![])), Err(RulesError::FactsNotObject)));
    let fs = facts_from_json(JsonValue::Object(vec![("a".into(), num(1))])).unwrap();
    assert_eq!(fs.len(), 1);
}

#[test]
fn rules_format_by_extension() {
    assert_eq!(rules_format("dir/Rules.XLSX").unwrap(), RulesFormat::Excel);
    assert_eq!(rules_format("rules.xls").unwrap(), RulesFormat::Excel);
    assert_eq!(rules_format("rules.JSON").unwrap(), RulesFormat::Json);
    match rules_format("rules.csv") {
        Err(RulesError::UnsupportedFormat(e)) => assert_eq!(e, "csv"),
        other => panic!("unexpected {other:?}"),
    }
    match rules_format("rules") {
        Err(RulesError::UnsupportedFormat(e)) => assert_eq!(e, ""),
        other => panic!("unexpected {other:?}"),
    }
}

#[test]
fn format_follows_the_extension_text() {
    assert_eq!(format_for_extension(Some("XlSm")).unwrap(), RulesFormat::Excel);
    assert_eq!(format_for_extension(Some("json")).unwrap(), RulesFormat::Json);
    match format_for_extension(Some("TXT")) {
        Err(RulesError::UnsupportedFormat(e)) => assert_eq!(e, "txt"),
        other => panic!("unexpected {other:?}"),
    }
    assert!(matches!(format_for_extension(None), Err(RulesError::UnsupportedFormat(_))));
}

// --- embeddable engine -----------------------------------------------------

fn lite(id: &str, order: i64, op: &str, value: JsonValue, action: &str) -> LiteRule {
    LiteRule {
        id: id.to_string(),
        enabled: None,
        order,
        field: "x".to_string(),
        op: op.to_string(),
        value,
        action: action.to_string(),
        message: Some(format!("{id} fired")),
        next_rule: None,
    }
}

#[test]
fn lite_engine_stops_at_first_decision() {
    let rules = vec![
        lite("a", 1, "gte", num(1), "Continue"),
        lite("b", 2, "==", num(5), "approve"),
        lite("c", 3, "eq", num(5), "reject"),
    ];
    let fs = facts(vec![("x", num(5))]);
    assert!(lite_run_finishes(&rules, &fs));
    let result = run_rules(rules, fs).unwrap();
    assert_eq!(result.status, "APPROVE");
    assert_eq!(result.fired_rules, vec!["a", "b"]);
    assert_eq!(result.messages, vec!["a fired", "b fired"]);
}

#[test]
fn lite_engine_rejects_in_and_empty_rule_sets() {
    assert!(matches!(
        eval_named(&num(1), "in", &JsonValue::Array(vec![num(1)])),
        Err(RulesError::UnsupportedOperator(_))
    ));
    let mut off = lite("a", 1, "eq", num(1), "approve");
    off.enabled = Some(false);
    assert!(matches!(run_rules(vec![off], facts(vec![])), Err(RulesError::NoEnabledRules)));
    let none = run_rules(vec![lite("a", 1, "eq", num(2), "approve")], facts(vec![("x", num(1))]))
        .unwrap();
    assert_eq!(none.status, "NO_MATCH");
}

#[test]
fn lite_engine_detects_cycles() {
    let mut a = lite("a", 1, "eq", num(1), "continue");
    a.next_rule = Some("a".into());
    assert!(!lite_run_finishes(&vec![a], &facts(vec![("x", num(1))])));
}
