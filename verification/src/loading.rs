//! Rules and facts as they arrive from JSON documents, and the choice of
//! loader by a file's extension.
use vstd::prelude::*;
use crate::json::{Json, JsonValue};
use crate::rules::{
    Action, Fault, Operator, Rule, RuleType, RulesError, action_of, operator_of, parse_action,
    parse_operator, parse_rule_type, rule_type_of, viewed,
};
use crate::text::{chars_of, lower, lower_chars, spells, string_from_chars};

verus! {

/// One rule as a JSON rules document writes it.
#[derive(Debug)]
pub struct RuleRow {
    pub id: String,
    pub enabled: Option<bool>,
    pub order: i64,
    pub rule_type: Option<String>,
    pub field: String,
    pub op: String,
    pub value: JsonValue,
    pub action: String,
    pub score: Option<i64>,
    pub message: Option<String>,
    pub next_rule: Option<String>,
    pub next_true: Option<String>,
    pub next_false: Option<String>,
}

/// The kind, operator and action that a JSON rule names, or the first name
/// that is not known: the kind (`if_then` where none is given), then the
/// operator, then the action.
pub open spec fn row_names(row: RuleRow) -> Result<(RuleType, Operator, Action), Fault> {
    let type_text = match row.rule_type {
        Some(t) => t@,
        None => "if_then"@,
    };
    match rule_type_of(type_text) {
        Err(e) => Err(e),
        Ok(t) => match operator_of(row.op@) {
            Err(e) => Err(e),
            Ok(o) => match action_of(row.action@) {
                Err(e) => Err(e),
                Ok(a) => Ok((t, o, a)),
            },
        },
    }
}

/// `rule` is the rule that `row` describes, with the names read as `names`.
pub open spec fn rule_of_row(rule: Rule, row: RuleRow, names: (RuleType, Operator, Action)) -> bool {
    &&& rule.id == row.id
    &&& rule.enabled == match row.enabled {
        Some(b) => b,
        None => true,
    }
    &&& rule.order == row.order
    &&& rule.rule_type == names.0
    &&& rule.field == row.field
    &&& rule.op == names.1
    &&& rule.value == row.value
    &&& rule.action == names.2
    &&& rule.score == match row.score {
        Some(s) => s,
        None => 0,
    }
    &&& rule.message == row.message
    &&& rule.next_rule == row.next_rule
    &&& rule.next_true == row.next_true
    &&& rule.next_false == row.next_false
}

/// Turns one JSON rule into a rule.
pub fn rule_from_json_row(row: RuleRow) -> (r: Result<Rule, RulesError>)
    ensures
        match row_names(row) {
            Ok(names) => r matches Ok(rule) && rule_of_row(rule, row, names),
            Err(f) => r matches Err(e) && e@ == f,
        },
{
    let rule_type = match &row.rule_type {
        Some(t) => parse_rule_type(t.as_str()),
        None => parse_rule_type("if_then"),
    };
    let rule_type = match rule_type {
        Ok(t) => t,
        Err(e) => return Err(e),
    };
    let op = match parse_operator(row.op.as_str()) {
        Ok(o) => o,
        Err(e) => return Err(e),
    };
    let action = match parse_action(row.action.as_str()) {
        Ok(a) => a,
        Err(e) => return Err(e),
    };
    let enabled = match row.enabled {
        Some(b) => b,
        None => true,
    };
    let score = match row.score {
        Some(s) => s,
        None => 0,
    };
    Ok(
        Rule {
            id: row.id,
            enabled,
            order: row.order,
            rule_type,
            field: row.field,
            op,
            value: row.value,
            action,
            score,
            message: row.message,
            next_rule: row.next_rule,
            next_true: row.next_true,
            next_false: row.next_false,
        },
    )
}

/// Turns the rules of a JSON rules document into rules; the first row with
/// an unknown name decides the error.
pub fn rules_from_json_rows(rows: Vec<RuleRow>) -> (r: Result<Vec<Rule>, RulesError>)
    ensures
        match r {
            Ok(rules) => {
                &&& rules@.len() == rows@.len()
                &&& forall|i: int|
                    0 <= i < rows@.len() ==> ((#[trigger] row_names(rows@[i])) matches Ok(names)
                        && rule_of_row(rules@[i], rows@[i], names))
            },
            Err(e) => exists|i: int|
                0 <= i < rows@.len() && (forall|j: int| 0 <= j < i ==> #[trigger] row_names(rows@[j]) is Ok)
                    && row_names(rows@[i]) == Err::<(RuleType, Operator, Action), Fault>(e@),
        },
{
    let ghost all = rows@;
    let mut out: Vec<Rule> = Vec::new();
    for row in it: rows.into_iter()
        invariant
            it.seq() == all,
            out@.len() == it.index(),
            forall|i: int|
                0 <= i < it.index() ==> ((#[trigger] row_names(all[i])) matches Ok(names)
                    && rule_of_row(out@[i], all[i], names)),
    {
        let ghost k = it.index();
        let ghost this = row;
        match rule_from_json_row(row) {
            Ok(rule) => {
                out.push(rule);
            },
            Err(e) => {
                proof {
                    assert(all[k] == this);
                    assert forall|j: int| 0 <= j < k implies #[trigger] row_names(all[j]) is Ok by {}
                }
                return Err(e);
            },
        }
    }
    Ok(out)
}

/// The facts of a facts document: the entries of its top-level object.
pub fn facts_from_json(value: JsonValue) -> (r: Result<Vec<(String, JsonValue)>, RulesError>)
    ensures
        match value {
            JsonValue::Object(es) => r == Ok::<Vec<(String, JsonValue)>, RulesError>(es),
            _ => r matches Err(e) && e@ == Fault::FactsNotObject,
        },
{
    match value {
        JsonValue::Object(es) => Ok(es),
        _ => Err(RulesError::FactsNotObject),
    }
}

/// How a rules file is read.
#[derive(Debug, Clone, Copy, PartialEq, Eq, Structural)]
pub enum RulesFormat {
    Excel,
    Json,
}

/// The extension of the file that a path names, as `Path::extension` gives it.
pub uninterp spec fn path_extension(path: Seq<char>) -> Option<Seq<char>>;

/// `std::path::Path::extension`, as text. The result is a function of the
/// path alone; what it is, is left to the name `path_extension`.
#[verifier::external_body]
fn extension_of(path: &str) -> (r: Option<String>)
    ensures
        match r {
            Some(e) => path_extension(path@) == Some(e@),
            None => path_extension(path@) is None,
        },
{
    std::path::Path::new(path).extension().and_then(|e| e.to_str()).map(|e| e.to_string())
}

/// The format that a lower-cased extension selects.
pub open spec fn format_of_extension(ext: Seq<char>) -> Result<RulesFormat, Fault> {
    if ext == "xlsx"@ || ext == "xlsm"@ || ext == "xls"@ {
        Ok(RulesFormat::Excel)
    } else if ext == "json"@ {
        Ok(RulesFormat::Json)
    } else {
        Err(Fault::UnsupportedFormat(ext))
    }
}

/// The extension text, or nothing where there is none.
pub open spec fn extension_text(ext: Option<Seq<char>>) -> Seq<char> {
    match ext {
        Some(e) => e,
        None => Seq::empty(),
    }
}

/// How to read a rules file with the extension `ext`, without regard to
/// ASCII case; a file without an extension has an unsupported format.
pub fn format_for_extension(ext: Option<&str>) -> (r: Result<RulesFormat, RulesError>)
    ensures
        viewed(r) == format_of_extension(
            lower(
                match ext {
                    Some(e) => e@,
                    None => Seq::empty(),
                },
            ),
        ),
{
    let chars: Vec<char> = match ext {
        Some(e) => chars_of(e),
        None => Vec::new(),
    };
    let l = lower_chars(&chars);
    if spells(&l, "xlsx") || spells(&l, "xlsm") || spells(&l, "xls") {
        Ok(RulesFormat::Excel)
    } else if spells(&l, "json") {
        Ok(RulesFormat::Json)
    } else {
        Err(RulesError::UnsupportedFormat(string_from_chars(&l)))
    }
}

/// How to read the rules file at `path`, by its extension, without regard
/// to ASCII case.
pub fn rules_format(path: &str) -> (r: Result<RulesFormat, RulesError>)
    ensures
        viewed(r) == format_of_extension(lower(extension_text(path_extension(path@)))),
{
    match extension_of(path) {
        Some(e) => format_for_extension(Some(e.as_str())),
        None => format_for_extension(None),
    }
}


/// A JSON rule takes defaults for what it leaves out: enabled, a score of
/// 0, and the kind `if_then`; everything it gives is kept as given, its
/// names read as names are.
pub proof fn law_json_rule_defaults(rule: Rule, row: RuleRow, names: (RuleType, Operator, Action))
    requires
        row_names(row) == Ok::<(RuleType, Operator, Action), Fault>(names),
        rule_of_row(rule, row, names),
    ensures
        row.enabled is None ==> rule.enabled,
        row.enabled matches Some(b) ==> rule.enabled == b,
        row.score is None ==> rule.score == 0,
        row.score matches Some(v) ==> rule.score == v,
        row.rule_type is None ==> rule.rule_type == RuleType::IfThen,
        row.rule_type matches Some(t) ==> rule_type_of(t@) == Ok::<RuleType, Fault>(rule.rule_type),
        operator_of(row.op@) == Ok::<Operator, Fault>(rule.op),
        action_of(row.action@) == Ok::<Action, Fault>(rule.action),
        rule.id == row.id && rule.field == row.field && rule.order == row.order && rule.value == row.value,
        rule.message == row.message && rule.next_rule == row.next_rule && rule.next_true == row.next_true
            && rule.next_false == row.next_false,
{
    crate::rules::law_rule_type_names("if_then"@);
    reveal_strlit("if_then");
    crate::text::law_lower_maps_capitals("if_then"@);
    assert(crate::text::trim("if_then"@) == "if_then"@) by {
        assert("if_then"@.len() == 7);
        assert("if_then"@[0] == 'i');
        assert("if_then"@[6] == 'n');
    }
    assert(lower("if_then"@) =~= "if_then"@);
}

/// The rules format by extension, without regard to ASCII case: `xlsx`,
/// `xlsm` and `xls` are workbooks, `json` is a JSON rules document, and any
/// other extension (or none) is unsupported, reported lower-cased.
pub proof fn law_format_extensions(ext: Seq<char>)
    ensures
        (lower(ext) == "xlsx"@ || lower(ext) == "xlsm"@ || lower(ext) == "xls"@) <==> format_of_extension(
            lower(ext),
        ) == Ok::<RulesFormat, Fault>(RulesFormat::Excel),
        lower(ext) == "json"@ <==> format_of_extension(lower(ext)) == Ok::<RulesFormat, Fault>(
            RulesFormat::Json,
        ),
        format_of_extension(lower(ext)) is Err ==> format_of_extension(lower(ext)) == Err::<
            RulesFormat,
            Fault,
        >(Fault::UnsupportedFormat(lower(ext))),
{
    reveal_strlit("xlsx");
    reveal_strlit("xlsm");
    reveal_strlit("xls");
    reveal_strlit("json");
    assert("xlsx"@.len() == 4);
    assert("xlsm"@.len() == 4);
    assert("json"@.len() == 4);
    assert("xls"@.len() == 3);
    assert("xlsx"@[3] == 'x');
    assert("xlsm"@[3] == 'm');
    assert("json"@[0] == 'j');
    assert("xlsx"@[0] == 'x');
    assert("xlsm"@[0] == 'x');
}

} // verus!
