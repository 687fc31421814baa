//! Rules, their kinds, operators and actions, the errors of the engine, and
//! the parsing of kind, operator and action names.
use vstd::prelude::*;
use crate::json::{Json, JsonValue};
use crate::text::{
    all_whitespace, lemma_normalized_ignores_case_and_padding, lower, normalize, normalized, spells,
};

verus! {

/// The rule models of the README.
#[derive(Debug, Clone, Copy, PartialEq, Eq, Structural)]
pub enum RuleType {
    DecisionTable,
    DecisionTree,
    IfThen,
    Scorecard,
    Constraint,
    Validation,
    Eca,
    Flow,
}

/// How a rule compares the fact it names with its value.
#[derive(Debug, Clone, Copy, PartialEq, Eq, Structural)]
pub enum Operator {
    Eq,
    Ne,
    Gt,
    Gte,
    Lt,
    Lte,
    Contains,
    StartsWith,
    EndsWith,
    In,
}

/// What a rule does when it matches.
#[derive(Debug, Clone, Copy, PartialEq, Eq, Structural)]
pub enum Action {
    Approve,
    Reject,
    Review,
    Continue,
}

/// One rule of a rule set.
#[derive(Debug)]
pub struct Rule {
    pub id: String,
    pub enabled: bool,
    /// Execution priority: lower runs first.
    pub order: i64,
    pub rule_type: RuleType,
    /// The key of the fact that the rule reads.
    pub field: String,
    pub op: Operator,
    pub value: JsonValue,
    pub action: Action,
    /// Points a scorecard rule adds when it matches.
    pub score: i64,
    pub message: Option<String>,
    /// Explicit jump after a match.
    pub next_rule: Option<String>,
    /// Decision-tree branch taken on a match.
    pub next_true: Option<String>,
    /// Decision-tree branch taken on no match.
    pub next_false: Option<String>,
}

/// Everything that can go wrong while loading or running rules.
#[derive(Debug)]
pub enum RulesError {
    UnsupportedRuleType(String),
    UnsupportedOperator(String),
    UnsupportedAction(String),
    /// A numeric operator met a value that has no numeric reading.
    NotNumeric(JsonValue),
    /// A text operator met a value that is not a string.
    NotText(JsonValue),
    /// `in` met a right side that is not an array.
    InExpectsArray,
    UnknownRuleId(String),
    NoEnabledRules,
    InvalidBoolean(String),
    InvalidInteger(String),
    MissingColumn(String),
    MissingValue(String),
    NoHeaderRow,
    NoRulesLoaded,
    FactsNotObject,
    UnsupportedFormat(String),
}

/// The mathematical form of a [`RulesError`].
pub enum Fault {
    UnsupportedRuleType(Seq<char>),
    UnsupportedOperator(Seq<char>),
    UnsupportedAction(Seq<char>),
    NotNumeric(Json),
    NotText(Json),
    InExpectsArray,
    UnknownRuleId(Seq<char>),
    NoEnabledRules,
    InvalidBoolean(Seq<char>),
    InvalidInteger(Seq<char>),
    MissingColumn(Seq<char>),
    MissingValue(Seq<char>),
    NoHeaderRow,
    NoRulesLoaded,
    FactsNotObject,
    UnsupportedFormat(Seq<char>),
}

impl View for RulesError {
    type V = Fault;

    open spec fn view(&self) -> Fault {
        match self {
            RulesError::UnsupportedRuleType(s) => Fault::UnsupportedRuleType(s@),
            RulesError::UnsupportedOperator(s) => Fault::UnsupportedOperator(s@),
            RulesError::UnsupportedAction(s) => Fault::UnsupportedAction(s@),
            RulesError::NotNumeric(v) => Fault::NotNumeric(v@),
            RulesError::NotText(v) => Fault::NotText(v@),
            RulesError::InExpectsArray => Fault::InExpectsArray,
            RulesError::UnknownRuleId(s) => Fault::UnknownRuleId(s@),
            RulesError::NoEnabledRules => Fault::NoEnabledRules,
            RulesError::InvalidBoolean(s) => Fault::InvalidBoolean(s@),
            RulesError::InvalidInteger(s) => Fault::InvalidInteger(s@),
            RulesError::MissingColumn(s) => Fault::MissingColumn(s@),
            RulesError::MissingValue(s) => Fault::MissingValue(s@),
            RulesError::NoHeaderRow => Fault::NoHeaderRow,
            RulesError::NoRulesLoaded => Fault::NoRulesLoaded,
            RulesError::FactsNotObject => Fault::FactsNotObject,
            RulesError::UnsupportedFormat(s) => Fault::UnsupportedFormat(s@),
        }
    }
}

/// A result with its error taken by its view.
pub open spec fn viewed<T>(r: Result<T, RulesError>) -> Result<T, Fault> {
    match r {
        Ok(t) => Ok(t),
        Err(e) => Err(e@),
    }
}

// ---------------------------------------------------------------------------
// Names
// ---------------------------------------------------------------------------

/// The rule type a normalized name stands for.
pub open spec fn rule_type_named(n: Seq<char>) -> Option<RuleType> {
    if n == "decision_table"@ || n == "decisiontable"@ || n == "table"@ {
        Some(RuleType::DecisionTable)
    } else if n == "decision_tree"@ || n == "decisiontree"@ || n == "tree"@ {
        Some(RuleType::DecisionTree)
    } else if n == "if_then"@ || n == "ifthen"@ || n == "production"@ {
        Some(RuleType::IfThen)
    } else if n == "scorecard"@ {
        Some(RuleType::Scorecard)
    } else if n == "constraint"@ {
        Some(RuleType::Constraint)
    } else if n == "validation"@ {
        Some(RuleType::Validation)
    } else if n == "eca"@ || n == "event_condition_action"@ {
        Some(RuleType::Eca)
    } else if n == "flow"@ {
        Some(RuleType::Flow)
    } else {
        None
    }
}

/// The operator a normalized name stands for.
pub open spec fn operator_named(n: Seq<char>) -> Option<Operator> {
    if n == "eq"@ || n == "="@ || n == "=="@ {
        Some(Operator::Eq)
    } else if n == "ne"@ || n == "!="@ {
        Some(Operator::Ne)
    } else if n == "gt"@ || n == ">"@ {
        Some(Operator::Gt)
    } else if n == "gte"@ || n == ">="@ {
        Some(Operator::Gte)
    } else if n == "lt"@ || n == "<"@ {
        Some(Operator::Lt)
    } else if n == "lte"@ || n == "<="@ {
        Some(Operator::Lte)
    } else if n == "contains"@ {
        Some(Operator::Contains)
    } else if n == "starts_with"@ || n == "startswith"@ {
        Some(Operator::StartsWith)
    } else if n == "ends_with"@ || n == "endswith"@ {
        Some(Operator::EndsWith)
    } else if n == "in"@ {
        Some(Operator::In)
    } else {
        None
    }
}

/// The action a normalized name stands for.
pub open spec fn action_named(n: Seq<char>) -> Option<Action> {
    if n == "approve"@ {
        Some(Action::Approve)
    } else if n == "reject"@ {
        Some(Action::Reject)
    } else if n == "review"@ {
        Some(Action::Review)
    } else if n == "continue"@ {
        Some(Action::Continue)
    } else {
        None
    }
}

/// The result of reading `s` as a rule type: names are matched trimmed and
/// without regard to ASCII case.
pub open spec fn rule_type_of(s: Seq<char>) -> Result<RuleType, Fault> {
    match rule_type_named(normalized(s)) {
        Some(t) => Ok(t),
        None => Err(Fault::UnsupportedRuleType(s)),
    }
}

pub open spec fn operator_of(s: Seq<char>) -> Result<Operator, Fault> {
    match operator_named(normalized(s)) {
        Some(o) => Ok(o),
        None => Err(Fault::UnsupportedOperator(s)),
    }
}

pub open spec fn action_of(s: Seq<char>) -> Result<Action, Fault> {
    match action_named(normalized(s)) {
        Some(a) => Ok(a),
        None => Err(Fault::UnsupportedAction(s)),
    }
}

/// Names of rule types, operators and actions are read without regard to
/// ASCII letter case or to whitespace around them: a name that differs from
/// another only in these is read as that one is.
pub proof fn law_names_ignore_case_and_padding(
    s: Seq<char>,
    t: Seq<char>,
    pre: Seq<char>,
    post: Seq<char>,
)
    requires
        lower(t) == lower(s),
        all_whitespace(pre),
        all_whitespace(post),
    ensures
        rule_type_of(pre + t + post) is Ok <==> rule_type_of(s) is Ok,
        rule_type_of(s) is Ok ==> rule_type_of(pre + t + post) == rule_type_of(s),
        operator_of(pre + t + post) is Ok <==> operator_of(s) is Ok,
        operator_of(s) is Ok ==> operator_of(pre + t + post) == operator_of(s),
        action_of(pre + t + post) is Ok <==> action_of(s) is Ok,
        action_of(s) is Ok ==> action_of(pre + t + post) == action_of(s),
{
    lemma_normalized_ignores_case_and_padding(s, t, pre, post);
}

/// The operators are named as documented, and by nothing else: each name
/// (trimmed, in any ASCII case) reads as its operator, each operator is read
/// only from its names, and any other text is an unsupported operator.
pub proof fn law_operator_names(s: Seq<char>)
    ensures
        (normalized(s) == "eq"@ || normalized(s) == "="@ || normalized(s) == "=="@) <==> operator_of(s) == Ok::<Operator, Fault>(Operator::Eq),
        (normalized(s) == "ne"@ || normalized(s) == "!="@) <==> operator_of(s) == Ok::<Operator, Fault>(Operator::Ne),
        (normalized(s) == "gt"@ || normalized(s) == ">"@) <==> operator_of(s) == Ok::<Operator, Fault>(Operator::Gt),
        (normalized(s) == "gte"@ || normalized(s) == ">="@) <==> operator_of(s) == Ok::<Operator, Fault>(Operator::Gte),
        (normalized(s) == "lt"@ || normalized(s) == "<"@) <==> operator_of(s) == Ok::<Operator, Fault>(Operator::Lt),
        (normalized(s) == "lte"@ || normalized(s) == "<="@) <==> operator_of(s) == Ok::<Operator, Fault>(Operator::Lte),
        (normalized(s) == "contains"@) <==> operator_of(s) == Ok::<Operator, Fault>(Operator::Contains),
        (normalized(s) == "starts_with"@ || normalized(s) == "startswith"@) <==> operator_of(s) == Ok::<Operator, Fault>(Operator::StartsWith),
        (normalized(s) == "ends_with"@ || normalized(s) == "endswith"@) <==> operator_of(s) == Ok::<Operator, Fault>(Operator::EndsWith),
        (normalized(s) == "in"@) <==> operator_of(s) == Ok::<Operator, Fault>(Operator::In),
        operator_of(s) is Err ==> operator_of(s) == Err::<Operator, Fault>(Fault::UnsupportedOperator(s)),
{
    reveal_strlit("eq");
    reveal_strlit("=");
    reveal_strlit("==");
    reveal_strlit("ne");
    reveal_strlit("!=");
    reveal_strlit("gt");
    reveal_strlit(">");
    reveal_strlit("gte");
    reveal_strlit(">=");
    reveal_strlit("lt");
    reveal_strlit("<");
    reveal_strlit("lte");
    reveal_strlit("<=");
    reveal_strlit("contains");
    reveal_strlit("starts_with");
    reveal_strlit("startswith");
    reveal_strlit("ends_with");
    reveal_strlit("endswith");
    reveal_strlit("in");
    assert("eq"@.len() == 2);
    assert("="@.len() == 1);
    assert("=="@.len() == 2);
    assert("ne"@.len() == 2);
    assert("!="@.len() == 2);
    assert("gt"@.len() == 2);
    assert(">"@.len() == 1);
    assert("gte"@.len() == 3);
    assert(">="@.len() == 2);
    assert("lt"@.len() == 2);
    assert("<"@.len() == 1);
    assert("lte"@.len() == 3);
    assert("<="@.len() == 2);
    assert("contains"@.len() == 8);
    assert("starts_with"@.len() == 11);
    assert("startswith"@.len() == 10);
    assert("ends_with"@.len() == 9);
    assert("endswith"@.len() == 8);
    assert("in"@.len() == 2);
    assert("eq"@[0] == 'e');
    assert("ne"@[0] == 'n');
    assert("gt"@[0] == 'g');
    assert("lt"@[0] == 'l');
    assert("in"@[0] == 'i');
    assert("="@[0] == '=');
    assert(">"@[0] == '>');
    assert("=="@[0] == '=');
    assert(">="@[0] == '>');
    assert("!="@[0] == '!');
    assert("<="@[0] == '<');
    assert("gte"@[0] == 'g');
    assert("lte"@[0] == 'l');
    assert("<"@[0] == '<');
    assert("contains"@[0] == 'c');
    assert("endswith"@[0] == 'e');
}

/// The rule types are named as documented, and by nothing else.
pub proof fn law_rule_type_names(s: Seq<char>)
    ensures
        (normalized(s) == "decision_table"@ || normalized(s) == "decisiontable"@ || normalized(s) == "table"@) <==> rule_type_of(s) == Ok::<RuleType, Fault>(RuleType::DecisionTable),
        (normalized(s) == "decision_tree"@ || normalized(s) == "decisiontree"@ || normalized(s) == "tree"@) <==> rule_type_of(s) == Ok::<RuleType, Fault>(RuleType::DecisionTree),
        (normalized(s) == "if_then"@ || normalized(s) == "ifthen"@ || normalized(s) == "production"@) <==> rule_type_of(s) == Ok::<RuleType, Fault>(RuleType::IfThen),
        (normalized(s) == "scorecard"@) <==> rule_type_of(s) == Ok::<RuleType, Fault>(RuleType::Scorecard),
        (normalized(s) == "constraint"@) <==> rule_type_of(s) == Ok::<RuleType, Fault>(RuleType::Constraint),
        (normalized(s) == "validation"@) <==> rule_type_of(s) == Ok::<RuleType, Fault>(RuleType::Validation),
        (normalized(s) == "eca"@ || normalized(s) == "event_condition_action"@) <==> rule_type_of(s) == Ok::<RuleType, Fault>(RuleType::Eca),
        (normalized(s) == "flow"@) <==> rule_type_of(s) == Ok::<RuleType, Fault>(RuleType::Flow),
        rule_type_of(s) is Err ==> rule_type_of(s) == Err::<RuleType, Fault>(Fault::UnsupportedRuleType(s)),
{
    reveal_strlit("decision_table");
    reveal_strlit("decisiontable");
    reveal_strlit("table");
    reveal_strlit("decision_tree");
    reveal_strlit("decisiontree");
    reveal_strlit("tree");
    reveal_strlit("if_then");
    reveal_strlit("ifthen");
    reveal_strlit("production");
    reveal_strlit("scorecard");
    reveal_strlit("constraint");
    reveal_strlit("validation");
    reveal_strlit("eca");
    reveal_strlit("event_condition_action");
    reveal_strlit("flow");
    assert("decision_table"@.len() == 14);
    assert("decisiontable"@.len() == 13);
    assert("table"@.len() == 5);
    assert("decision_tree"@.len() == 13);
    assert("decisiontree"@.len() == 12);
    assert("tree"@.len() == 4);
    assert("if_then"@.len() == 7);
    assert("ifthen"@.len() == 6);
    assert("production"@.len() == 10);
    assert("scorecard"@.len() == 9);
    assert("constraint"@.len() == 10);
    assert("validation"@.len() == 10);
    assert("eca"@.len() == 3);
    assert("event_condition_action"@.len() == 22);
    assert("flow"@.len() == 4);
    assert("decision_tree"@[8] == '_');
    assert("decisiontable"@[8] == 't');
    assert("production"@[0] == 'p');
    assert("validation"@[0] == 'v');
    assert("constraint"@[0] == 'c');
    assert("flow"@[0] == 'f');
    assert("tree"@[0] == 't');
}

/// The actions are named as documented, and by nothing else.
pub proof fn law_action_names(s: Seq<char>)
    ensures
        (normalized(s) == "approve"@) <==> action_of(s) == Ok::<Action, Fault>(Action::Approve),
        (normalized(s) == "reject"@) <==> action_of(s) == Ok::<Action, Fault>(Action::Reject),
        (normalized(s) == "review"@) <==> action_of(s) == Ok::<Action, Fault>(Action::Review),
        (normalized(s) == "continue"@) <==> action_of(s) == Ok::<Action, Fault>(Action::Continue),
        action_of(s) is Err ==> action_of(s) == Err::<Action, Fault>(Fault::UnsupportedAction(s)),
{
    reveal_strlit("approve");
    reveal_strlit("reject");
    reveal_strlit("review");
    reveal_strlit("continue");
    assert("approve"@.len() == 7);
    assert("reject"@.len() == 6);
    assert("review"@.len() == 6);
    assert("continue"@.len() == 8);
    assert("reject"@[2] == 'j');
    assert("review"@[2] == 'v');
}

/// Reads a rule type name.
pub fn parse_rule_type(rule_type: &str) -> (r: Result<RuleType, RulesError>)
    ensures
        viewed(r) == rule_type_of(rule_type@),
{
    let n = normalize(rule_type);
    if spells(&n, "decision_table") || spells(&n, "decisiontable") || spells(&n, "table") {
        Ok(RuleType::DecisionTable)
    } else if spells(&n, "decision_tree") || spells(&n, "decisiontree") || spells(&n, "tree") {
        Ok(RuleType::DecisionTree)
    } else if spells(&n, "if_then") || spells(&n, "ifthen") || spells(&n, "production") {
        Ok(RuleType::IfThen)
    } else if spells(&n, "scorecard") {
        Ok(RuleType::Scorecard)
    } else if spells(&n, "constraint") {
        Ok(RuleType::Constraint)
    } else if spells(&n, "validation") {
        Ok(RuleType::Validation)
    } else if spells(&n, "eca") || spells(&n, "event_condition_action") {
        Ok(RuleType::Eca)
    } else if spells(&n, "flow") {
        Ok(RuleType::Flow)
    } else {
        Err(RulesError::UnsupportedRuleType(rule_type.to_owned()))
    }
}

/// Reads an operator name.
pub fn parse_operator(op: &str) -> (r: Result<Operator, RulesError>)
    ensures
        viewed(r) == operator_of(op@),
{
    let n = normalize(op);
    if spells(&n, "eq") || spells(&n, "=") || spells(&n, "==") {
        Ok(Operator::Eq)
    } else if spells(&n, "ne") || spells(&n, "!=") {
        Ok(Operator::Ne)
    } else if spells(&n, "gt") || spells(&n, ">") {
        Ok(Operator::Gt)
    } else if spells(&n, "gte") || spells(&n, ">=") {
        Ok(Operator::Gte)
    } else if spells(&n, "lt") || spells(&n, "<") {
        Ok(Operator::Lt)
    } else if spells(&n, "lte") || spells(&n, "<=") {
        Ok(Operator::Lte)
    } else if spells(&n, "contains") {
        Ok(Operator::Contains)
    } else if spells(&n, "starts_with") || spells(&n, "startswith") {
        Ok(Operator::StartsWith)
    } else if spells(&n, "ends_with") || spells(&n, "endswith") {
        Ok(Operator::EndsWith)
    } else if spells(&n, "in") {
        Ok(Operator::In)
    } else {
        Err(RulesError::UnsupportedOperator(op.to_owned()))
    }
}

/// Reads an action name.
pub fn parse_action(action: &str) -> (r: Result<Action, RulesError>)
    ensures
        viewed(r) == action_of(action@),
{
    let n = normalize(action);
    if spells(&n, "approve") {
        Ok(Action::Approve)
    } else if spells(&n, "reject") {
        Ok(Action::Reject)
    } else if spells(&n, "review") {
        Ok(Action::Review)
    } else if spells(&n, "continue") {
        Ok(Action::Continue)
    } else {
        Err(RulesError::UnsupportedAction(action.to_owned()))
    }
}

} // verus!
