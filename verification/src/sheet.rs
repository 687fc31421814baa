//! Rules written as rows of a worksheet: the first row names the columns,
//! every further row that is not blank is one rule.
use vstd::prelude::*;
use crate::json::{Json, JsonValue};
use crate::rules::{
    Action, Fault, Operator, Rule, RuleType, RulesError, action_of, operator_of, parse_action,
    parse_operator, parse_rule_type, rule_type_of, viewed,
};
use crate::text::{
    all_digits, decimal_digits, is_whitespace, lemma_decimal_digits_read_back,
    law_integer_text_reads_back, trim_end, trim_start, chars_of, int_text, int_to_text, lower, lower_chars, parse_i64_chars, parse_i64_spec, spells,
    string_from_chars, trim, trim_chars,
};

verus! {

/// A worksheet cell, by what the rules read of it. Numbers with a fraction,
/// dates, durations and error cells arrive as the text that they display.
#[derive(Debug)]
pub enum Cell {
    Empty,
    Text(String),
    Int(i64),
    Bool(bool),
}

/// The text of a cell.
pub open spec fn cell_text_spec(c: Cell) -> Seq<char> {
    match c {
        Cell::Empty => Seq::empty(),
        Cell::Text(s) => s@,
        Cell::Int(i) => int_text(i as int),
        Cell::Bool(b) => if b {
            "true"@
        } else {
            "false"@
        },
    }
}

/// A cell that holds nothing but whitespace.
pub open spec fn cell_blank(c: Cell) -> bool {
    c is Empty || trim(cell_text_spec(c)).len() == 0
}

pub open spec fn row_blank(row: Seq<Cell>) -> bool {
    forall|i: int| 0 <= i < row.len() ==> cell_blank(#[trigger] row[i])
}

/// How a cell reads as a flag.
pub open spec fn bool_of_cell(c: Cell) -> Result<bool, Fault> {
    let l = lower(trim(cell_text_spec(c)));
    if l == "true"@ || l == "1"@ || l == "yes"@ || l == "y"@ {
        Ok(true)
    } else if l == "false"@ || l == "0"@ || l == "no"@ || l == "n"@ {
        Ok(false)
    } else {
        Err(Fault::InvalidBoolean(cell_text_spec(c)))
    }
}

/// How a cell reads as an integer.
pub open spec fn int_of_cell(c: Cell) -> Result<i64, Fault> {
    match parse_i64_spec(trim(cell_text_spec(c))) {
        Some(i) => Ok(i),
        None => Err(Fault::InvalidInteger(cell_text_spec(c))),
    }
}

/// The column a header row gives a name: the last header cell whose
/// lower-cased text is the name.
pub open spec fn column_of(header: Seq<Cell>, name: Seq<char>) -> Option<int>
    decreases header.len(),
{
    if header.len() == 0 {
        None
    } else if lower(cell_text_spec(header.last())) == name {
        Some(header.len() - 1)
    } else {
        column_of(header.drop_last(), name)
    }
}

/// The cell of a required column in a row.
pub open spec fn required_cell(header: Seq<Cell>, row: Seq<Cell>, name: Seq<char>) -> Result<
    Cell,
    Fault,
> {
    match column_of(header, name) {
        None => Err(Fault::MissingColumn(name)),
        Some(c) => if c < row.len() {
            Ok(row[c])
        } else {
            Err(Fault::MissingValue(name))
        },
    }
}

/// The trimmed text of an optional column in a row, where it is not empty.
pub open spec fn optional_text(header: Seq<Cell>, row: Seq<Cell>, name: Seq<char>) -> Option<
    Seq<char>,
> {
    match column_of(header, name) {
        Some(c) => if c < row.len() && trim(cell_text_spec(row[c])).len() > 0 {
            Some(trim(cell_text_spec(row[c])))
        } else {
            None
        },
        None => None,
    }
}

/// The score of a row: the integer in its score column, or 0 where the
/// sheet has no score column, or the row's score cell is missing or blank
/// (the score is optional).
pub open spec fn score_of_row(header: Seq<Cell>, row: Seq<Cell>) -> Result<i64, Fault> {
    match column_of(header, "score"@) {
        Some(c) => if c < row.len() && trim(cell_text_spec(row[c])).len() > 0 {
            int_of_cell(row[c])
        } else {
            Ok(0)
        },
        None => Ok(0),
    }
}

/// A rule as one worksheet row gives it; its value is still text.
pub struct SheetRecord {
    pub id: Seq<char>,
    pub enabled: bool,
    pub order: i64,
    pub rule_type: RuleType,
    pub field: Seq<char>,
    pub op: Operator,
    pub value_text: Seq<char>,
    pub action: Action,
    pub score: i64,
    pub message: Option<Seq<char>>,
    pub next_rule: Option<Seq<char>>,
    pub next_true: Option<Seq<char>>,
    pub next_false: Option<Seq<char>>,
}

/// What one non-blank row reads as.
#[verifier::opaque]
pub open spec fn row_record(header: Seq<Cell>, row: Seq<Cell>) -> Result<SheetRecord, Fault> {
    match required_cell(header, row, "id"@) {
        Err(e) => Err(e),
        Ok(id_cell) => match required_cell(header, row, "enabled"@) {
            Err(e) => Err(e),
            Ok(enabled_cell) => match bool_of_cell(enabled_cell) {
                Err(e) => Err(e),
                Ok(enabled) => match required_cell(header, row, "order"@) {
                    Err(e) => Err(e),
                    Ok(order_cell) => match int_of_cell(order_cell) {
                        Err(e) => Err(e),
                        Ok(order) => match required_cell(header, row, "field"@) {
                            Err(e) => Err(e),
                            Ok(field_cell) => match required_cell(header, row, "op"@) {
                                Err(e) => Err(e),
                                Ok(op_cell) => match operator_of(trim(cell_text_spec(op_cell))) {
                                    Err(e) => Err(e),
                                    Ok(op) => match required_cell(header, row, "value"@) {
                                        Err(e) => Err(e),
                                        Ok(value_cell) => match required_cell(
                                            header,
                                            row,
                                            "action"@,
                                        ) {
                                            Err(e) => Err(e),
                                            Ok(action_cell) => match action_of(
                                                trim(cell_text_spec(action_cell)),
                                            ) {
                                                Err(e) => Err(e),
                                                Ok(action) => match score_of_row(header, row) {
                                                    Err(e) => Err(e),
                                                    Ok(score) => {
                                                        let type_text = match optional_text(
                                                            header,
                                                            row,
                                                            "rule_type"@,
                                                        ) {
                                                            Some(t) => t,
                                                            None => "if_then"@,
                                                        };
                                                        match rule_type_of(type_text) {
                                                            Err(e) => Err(e),
                                                            Ok(rule_type) => Ok(
                                                                SheetRecord {
                                                                    id: trim(cell_text_spec(id_cell)),
                                                                    enabled,
                                                                    order,
                                                                    rule_type,
                                                                    field: trim(
                                                                        cell_text_spec(field_cell),
                                                                    ),
                                                                    op,
                                                                    value_text: trim(
                                                                        cell_text_spec(value_cell),
                                                                    ),
                                                                    action,
                                                                    score,
                                                                    message: optional_text(
                                                                        header,
                                                                        row,
                                                                        "message"@,
                                                                    ),
                                                                    next_rule: optional_text(
                                                                        header,
                                                                        row,
                                                                        "next_rule"@,
                                                                    ),
                                                                    next_true: optional_text(
                                                                        header,
                                                                        row,
                                                                        "next_true"@,
                                                                    ),
                                                                    next_false: optional_text(
                                                                        header,
                                                                        row,
                                                                        "next_false"@,
                                                                    ),
                                                                },
                                                            ),
                                                        }
                                                    },
                                                },
                                            },
                                        },
                                    },
                                },
                            },
                        },
                    },
                },
            },
        },
    }
}

/// The columns every rule sheet must have, in the order they are checked.
pub open spec fn required_columns() -> Seq<Seq<char>> {
    seq!["id"@, "enabled"@, "order"@, "field"@, "op"@, "value"@, "action"@]
}

/// The first required column that the header lacks.
pub open spec fn missing_column(header: Seq<Cell>) -> Option<Seq<char>> {
    if exists|k: int| 0 <= k < 7 && column_of(header, #[trigger] required_columns()[k]) is None {
        let k = choose|k: int|
            0 <= k < 7 && column_of(header, #[trigger] required_columns()[k]) is None && forall|
                m: int,
            |
                0 <= m < k ==> column_of(header, #[trigger] required_columns()[m]) is Some;
        Some(required_columns()[k])
    } else {
        None
    }
}

/// The records of the rows after the header, skipping blank rows; the first
/// failing row decides the error.
pub open spec fn records_of_rows(header: Seq<Cell>, rows: Seq<Seq<Cell>>) -> Result<
    Seq<SheetRecord>,
    Fault,
>
    decreases rows.len(),
{
    if rows.len() == 0 {
        Ok(Seq::empty())
    } else {
        match records_of_rows(header, rows.drop_last()) {
            Err(e) => Err(e),
            Ok(acc) => if row_blank(rows.last()) {
                Ok(acc)
            } else {
                match row_record(header, rows.last()) {
                    Err(e) => Err(e),
                    Ok(r) => Ok(acc.push(r)),
                }
            },
        }
    }
}

/// What a whole sheet reads as.
pub open spec fn sheet_records(rows: Seq<Seq<Cell>>) -> Result<Seq<SheetRecord>, Fault> {
    if rows.len() == 0 {
        Err(Fault::NoHeaderRow)
    } else {
        match missing_column(rows[0]) {
            Some(name) => Err(Fault::MissingColumn(name)),
            None => match records_of_rows(rows[0], rows.drop_first()) {
                Err(e) => Err(e),
                Ok(rs) => if rs.len() == 0 {
                    Err(Fault::NoRulesLoaded)
                } else {
                    Ok(rs)
                },
            },
        }
    }
}

/// The value a cell's trimmed text stands for. `json` is what `serde_json`
/// reads the text as, `float_bits` the bits of what `str::parse::<f64>`
/// reads it as: JSON first, then an integer, then a finite float, then a
/// flag, and otherwise the text itself.
pub open spec fn value_from_text(raw: Seq<char>, json: Option<Json>, float_bits: Option<u64>) -> Json {
    if raw.len() == 0 {
        Json::Null
    } else if json is Some {
        json->0
    } else if parse_i64_spec(raw) is Some {
        Json::Int(parse_i64_spec(raw)->0 as int)
    } else if float_bits is Some && (float_bits->0 >> 52u64) & 0x7ffu64 != 0x7ffu64 {
        Json::Float(float_bits->0)
    } else if raw == "true"@ {
        Json::Bool(true)
    } else if raw == "false"@ {
        Json::Bool(false)
    } else {
        Json::Str(raw, float_bits)
    }
}

/// An integer cell reads back as its integer, in the order and score
/// columns alike.
pub proof fn law_integer_cell_reads_back(v: i64)
    ensures
        int_of_cell(Cell::Int(v)) == Ok::<i64, Fault>(v),
{
    let s = int_text(v as int);
    let d = if v < 0 {
        decimal_digits((-v) as nat)
    } else {
        decimal_digits(v as nat)
    };
    lemma_decimal_digits_read_back(if v < 0 {
        (-v) as nat
    } else {
        v as nat
    });
    assert(all_digits(d));
    assert(s.len() >= 1);
    assert(!is_whitespace(s[0])) by {
        if v < 0 {
            assert(s[0] == '-');
        } else {
            assert(s[0] == d[0]);
        }
    }
    assert(!is_whitespace(s.last())) by {
        assert(s.last() == d.last());
        assert(d.last() == d[d.len() - 1]);
    }
    assert(trim_start(s) == s);
    assert(trim_end(s) == s);
    law_integer_text_reads_back(v);
}


/// The column that a header names `name` is the last header cell whose
/// lower-cased text is `name`; there is none where no header cell has it.
pub proof fn law_column_is_last_matching_header(header: Seq<Cell>, name: Seq<char>)
    ensures
        column_of(header, name) matches Some(c) ==> 0 <= c < header.len() && lower(
            cell_text_spec(header[c]),
        ) == name && forall|j: int| c < j < header.len() ==> lower(cell_text_spec(#[trigger] header[j])) != name,
        column_of(header, name) is None ==> forall|j: int|
            0 <= j < header.len() ==> lower(cell_text_spec(#[trigger] header[j])) != name,
    decreases header.len(),
{
    if header.len() > 0 {
        law_column_is_last_matching_header(header.drop_last(), name);
        assert forall|j: int| 0 <= j < header.len() - 1 implies header.drop_last()[j] == #[trigger] header[j] by {}
    }
}

/// A row that loads gives each field of its rule from the column of the
/// same name: id, field and value are the trimmed text of their cells; the
/// flag, order, operator and action are what those trimmed texts read as;
/// the rule type is read from its column where that cell is not blank, and
/// is `if_then` otherwise; the score is the integer in a non-blank score
/// cell, and 0 otherwise; message and links are the trimmed text of their
/// columns where it is not empty, and nothing otherwise.
#[verifier::rlimit(50)]
pub proof fn law_record_reads_its_columns(header: Seq<Cell>, row: Seq<Cell>)
    ensures
        row_record(header, row) is Ok ==> column_of(header, "id"@) is Some && column_of(header, "id"@)->0 < row.len(),
        row_record(header, row) is Ok ==> column_of(header, "enabled"@) is Some && column_of(header, "enabled"@)->0 < row.len(),
        row_record(header, row) is Ok ==> column_of(header, "order"@) is Some && column_of(header, "order"@)->0 < row.len(),
        row_record(header, row) is Ok ==> column_of(header, "field"@) is Some && column_of(header, "field"@)->0 < row.len(),
        row_record(header, row) is Ok ==> column_of(header, "op"@) is Some && column_of(header, "op"@)->0 < row.len(),
        row_record(header, row) is Ok ==> column_of(header, "value"@) is Some && column_of(header, "value"@)->0 < row.len(),
        row_record(header, row) is Ok ==> column_of(header, "action"@) is Some && column_of(header, "action"@)->0 < row.len(),
        row_record(header, row) is Ok ==> row_record(header, row)->Ok_0.id == trim(cell_text_spec(row[column_of(header, "id"@)->0])),
        row_record(header, row) is Ok ==> row_record(header, row)->Ok_0.field == trim(cell_text_spec(row[column_of(header, "field"@)->0])),
        row_record(header, row) is Ok ==> row_record(header, row)->Ok_0.value_text == trim(cell_text_spec(row[column_of(header, "value"@)->0])),
        row_record(header, row) is Ok ==> (row_record(header, row)->Ok_0.enabled <==> (lower(trim(cell_text_spec(row[column_of(header, "enabled"@)->0]))) == "true"@ || lower(trim(cell_text_spec(row[column_of(header, "enabled"@)->0]))) == "1"@ || lower(trim(cell_text_spec(row[column_of(header, "enabled"@)->0]))) == "yes"@ || lower(trim(cell_text_spec(row[column_of(header, "enabled"@)->0]))) == "y"@)),
        row_record(header, row) is Ok ==> (!row_record(header, row)->Ok_0.enabled ==> (lower(trim(cell_text_spec(row[column_of(header, "enabled"@)->0]))) == "false"@ || lower(trim(cell_text_spec(row[column_of(header, "enabled"@)->0]))) == "0"@ || lower(trim(cell_text_spec(row[column_of(header, "enabled"@)->0]))) == "no"@ || lower(trim(cell_text_spec(row[column_of(header, "enabled"@)->0]))) == "n"@)),
        row_record(header, row) is Ok ==> parse_i64_spec(trim(cell_text_spec(row[column_of(header, "order"@)->0]))) == Some(row_record(header, row)->Ok_0.order),
        row_record(header, row) is Ok ==> operator_of(trim(cell_text_spec(row[column_of(header, "op"@)->0]))) == Ok::<Operator, Fault>(row_record(header, row)->Ok_0.op),
        row_record(header, row) is Ok ==> action_of(trim(cell_text_spec(row[column_of(header, "action"@)->0]))) == Ok::<Action, Fault>(row_record(header, row)->Ok_0.action),
        row_record(header, row) is Ok ==> rule_type_of(if (column_of(header, "rule_type"@) is Some && column_of(header, "rule_type"@)->0 < row.len() && trim(cell_text_spec(row[column_of(header, "rule_type"@)->0])).len() > 0) { trim(cell_text_spec(row[column_of(header, "rule_type"@)->0])) } else { "if_then"@ }) == Ok::<RuleType, Fault>(row_record(header, row)->Ok_0.rule_type),
        row_record(header, row) is Ok ==> (if (column_of(header, "score"@) is Some && column_of(header, "score"@)->0 < row.len() && trim(cell_text_spec(row[column_of(header, "score"@)->0])).len() > 0) { parse_i64_spec(trim(cell_text_spec(row[column_of(header, "score"@)->0]))) == Some(row_record(header, row)->Ok_0.score) } else { row_record(header, row)->Ok_0.score == 0 }),
        row_record(header, row) is Ok ==> row_record(header, row)->Ok_0.message == (if (column_of(header, "message"@) is Some && column_of(header, "message"@)->0 < row.len() && trim(cell_text_spec(row[column_of(header, "message"@)->0])).len() > 0) { Some(trim(cell_text_spec(row[column_of(header, "message"@)->0]))) } else { None }),
        row_record(header, row) is Ok ==> row_record(header, row)->Ok_0.next_rule == (if (column_of(header, "next_rule"@) is Some && column_of(header, "next_rule"@)->0 < row.len() && trim(cell_text_spec(row[column_of(header, "next_rule"@)->0])).len() > 0) { Some(trim(cell_text_spec(row[column_of(header, "next_rule"@)->0]))) } else { None }),
        row_record(header, row) is Ok ==> row_record(header, row)->Ok_0.next_true == (if (column_of(header, "next_true"@) is Some && column_of(header, "next_true"@)->0 < row.len() && trim(cell_text_spec(row[column_of(header, "next_true"@)->0])).len() > 0) { Some(trim(cell_text_spec(row[column_of(header, "next_true"@)->0]))) } else { None }),
        row_record(header, row) is Ok ==> row_record(header, row)->Ok_0.next_false == (if (column_of(header, "next_false"@) is Some && column_of(header, "next_false"@)->0 < row.len() && trim(cell_text_spec(row[column_of(header, "next_false"@)->0])).len() > 0) { Some(trim(cell_text_spec(row[column_of(header, "next_false"@)->0]))) } else { None }),
{
    reveal(row_record);
}


/// The text of a cell: nothing for an empty cell, the text of a text cell,
/// `true` or `false` for a flag, and an integer read back exactly.
pub proof fn law_cell_texts(t: String, b: bool, v: i64)
    ensures
        cell_text_spec(Cell::Empty).len() == 0,
        cell_text_spec(Cell::Text(t)) == t@,
        cell_text_spec(Cell::Bool(b)) == (if b { "true"@ } else { "false"@ }),
        parse_i64_spec(cell_text_spec(Cell::Int(v))) == Some(v),
        cell_blank(Cell::Empty),
{
    law_integer_text_reads_back(v);
}

/// A cell reads as a flag exactly when its trimmed, lower-cased text is one
/// of `true`, `1`, `yes`, `y` (true) or `false`, `0`, `no`, `n` (false);
/// any other text is an invalid flag, reported with the cell's text.
pub proof fn law_flag_cells(c: Cell)
    ensures
        ({
            let l = lower(trim(cell_text_spec(c)));
            &&& (bool_of_cell(c) == Ok::<bool, Fault>(true) <==> (l == "true"@ || l == "1"@ || l == "yes"@
                || l == "y"@))
            &&& (bool_of_cell(c) == Ok::<bool, Fault>(false) <==> (l == "false"@ || l == "0"@ || l == "no"@
                || l == "n"@))
            &&& (bool_of_cell(c) is Err ==> bool_of_cell(c) == Err::<bool, Fault>(
                Fault::InvalidBoolean(cell_text_spec(c)),
            ))
        }),
{
    reveal_strlit("true");
    reveal_strlit("1");
    reveal_strlit("yes");
    reveal_strlit("y");
    reveal_strlit("false");
    reveal_strlit("0");
    reveal_strlit("no");
    reveal_strlit("n");
    assert("true"@.len() == 4);
    assert("false"@.len() == 5);
    assert("yes"@.len() == 3);
    assert("1"@.len() == 1);
    assert("y"@.len() == 1);
    assert("0"@.len() == 1);
    assert("n"@.len() == 1);
    assert("no"@.len() == 2);
    assert("1"@[0] == '1');
    assert("y"@[0] == 'y');
    assert("0"@[0] == '0');
    assert("n"@[0] == 'n');
}

/// A cell reads as an integer exactly when its trimmed text does; otherwise
/// it is an invalid integer, reported with the cell's text.
pub proof fn law_integer_cells(c: Cell)
    ensures
        parse_i64_spec(trim(cell_text_spec(c))) matches Some(i) ==> int_of_cell(c) == Ok::<i64, Fault>(i),
        parse_i64_spec(trim(cell_text_spec(c))) is None ==> int_of_cell(c) == Err::<i64, Fault>(
            Fault::InvalidInteger(cell_text_spec(c)),
        ),
{
}

/// The value a value cell's trimmed text stands for: `null` for no text;
/// else what `serde_json` reads it as, where it reads; else the integer it
/// denotes; else a finite double it reads as; else a flag for exactly
/// `true` or `false`; else the text itself, as a string.
pub proof fn law_cell_values(raw: Seq<char>, json: Option<Json>, bits: Option<u64>)
    ensures
        raw.len() == 0 ==> value_from_text(raw, json, bits) == Json::Null,
        raw.len() > 0 && json is Some ==> value_from_text(raw, json, bits) == json->0,
        raw.len() > 0 && json is None && parse_i64_spec(raw) is Some ==> value_from_text(raw, json, bits)
            == Json::Int(parse_i64_spec(raw)->0 as int),
        raw.len() > 0 && json is None && parse_i64_spec(raw) is None && bits is Some && !(
        (bits->0 >> 52u64) & 0x7ffu64 == 0x7ffu64) ==> value_from_text(raw, json, bits) == Json::Float(
            bits->0,
        ),
        raw.len() > 0 && json is None && parse_i64_spec(raw) is None && (bits is None || (bits->0
            >> 52u64) & 0x7ffu64 == 0x7ffu64) ==> value_from_text(raw, json, bits) == (if raw
            == "true"@ {
            Json::Bool(true)
        } else if raw == "false"@ {
            Json::Bool(false)
        } else {
            Json::Str(raw, bits)
        }),
{
}


/// How the rows after the header load: every non-blank row of a sheet that
/// loads reads as a record, each record is read from a non-blank row, in
/// the order of the rows, and blank rows give none; where the sheet does
/// not load, the first non-blank row that fails decides the error.
pub proof fn law_rows_load_in_order(header: Seq<Cell>, rows: Seq<Seq<Cell>>)
    ensures
        records_of_rows(header, rows) matches Ok(rs) ==> forall|k: int|
            0 <= k < rows.len() && !row_blank(#[trigger] rows[k]) ==> row_record(header, rows[k]) is Ok,
        records_of_rows(header, rows) matches Ok(rs) ==> rs.len() <= rows.len() && forall|j: int|
            #![trigger rs[j]]
            0 <= j < rs.len() ==> exists|k: int|
                0 <= k < rows.len() && !row_blank(#[trigger] rows[k]) && row_record(header, rows[k])
                    == Ok::<SheetRecord, Fault>(rs[j]),
        records_of_rows(header, rows) is Ok && (forall|k: int|
            0 <= k < rows.len() ==> row_blank(#[trigger] rows[k])) ==> records_of_rows(header, rows)->Ok_0.len() == 0,
        records_of_rows(header, rows) is Ok && records_of_rows(header, rows)->Ok_0.len() > 0 ==> (exists|k: int|
            0 <= k < rows.len() && !row_blank(#[trigger] rows[k]) && row_record(header, rows[k])
                == Ok::<SheetRecord, Fault>(records_of_rows(header, rows)->Ok_0.last()) && forall|m: int|
                k < m < rows.len() ==> row_blank(#[trigger] rows[m])),
        records_of_rows(header, rows) matches Err(e) ==> exists|k: int|
            0 <= k < rows.len() && !row_blank(#[trigger] rows[k]) && row_record(header, rows[k])
                == Err::<SheetRecord, Fault>(e) && forall|m: int|
                0 <= m < k && !row_blank(#[trigger] rows[m]) ==> row_record(header, rows[m]) is Ok,
    decreases rows.len(),
{
    if rows.len() > 0 {
        let init = rows.drop_last();
        law_rows_load_in_order(header, init);
        assert forall|m: int| 0 <= m < init.len() implies #[trigger] init[m] == rows[m] by {}
        let last = rows.len() - 1;
        assert(rows[last] == rows.last());
        match records_of_rows(header, init) {
            Err(e) => {
                let k = choose|k: int|
                    0 <= k < init.len() && !row_blank(#[trigger] init[k]) && row_record(header, init[k])
                        == Err::<SheetRecord, Fault>(e) && forall|m: int|
                        0 <= m < k && !row_blank(#[trigger] init[m]) ==> row_record(header, init[m]) is Ok;
                assert(init[k] == rows[k]);
                assert forall|m: int| 0 <= m < k && !row_blank(#[trigger] rows[m]) implies row_record(
                    header,
                    rows[m],
                ) is Ok by {
                    assert(init[m] == rows[m]);
                }
            },
            Ok(acc) => {
                if row_blank(rows.last()) {
                    if let Ok(rs) = records_of_rows(header, rows) {
                        assert(rs == acc);
                        assert forall|k: int| 0 <= k < rows.len() && !row_blank(#[trigger] rows[k]) implies row_record(header, rows[k]) is Ok by {
                            assert(init[k] == rows[k]);
                        }
                        assert forall|j: int| #![trigger rs[j]] 0 <= j < rs.len() implies exists|k: int|
                            0 <= k < rows.len() && !row_blank(#[trigger] rows[k]) && row_record(header, rows[k])
                                == Ok::<SheetRecord, Fault>(rs[j]) by {
                            let k = choose|k: int|
                                0 <= k < init.len() && !row_blank(#[trigger] init[k]) && row_record(header, init[k])
                                    == Ok::<SheetRecord, Fault>(acc[j]);
                            assert(init[k] == rows[k]);
                        }
                        if rs.len() > 0 {
                            let k = choose|k: int|
                                0 <= k < init.len() && !row_blank(#[trigger] init[k]) && row_record(header, init[k])
                                    == Ok::<SheetRecord, Fault>(acc.last()) && forall|m: int|
                                    k < m < init.len() ==> row_blank(#[trigger] init[m]);
                            assert(init[k] == rows[k]);
                            assert forall|m: int| k < m < rows.len() implies row_blank(#[trigger] rows[m]) by {
                                if m < init.len() {
                                    assert(init[m] == rows[m]);
                                }
                            }
                        }
                        if forall|k: int| 0 <= k < rows.len() ==> row_blank(#[trigger] rows[k]) {
                            assert forall|k: int| 0 <= k < init.len() implies row_blank(#[trigger] init[k]) by {
                                assert(init[k] == rows[k]);
                                assert(row_blank(rows[k]));
                            }
                        }
                    }
                } else {
                    match row_record(header, rows.last()) {
                        Err(e) => {
                            assert forall|m: int| 0 <= m < last && !row_blank(#[trigger] rows[m]) implies row_record(
                                header,
                                rows[m],
                            ) is Ok by {
                                assert(init[m] == rows[m]);
                            }
                            assert(!row_blank(rows[last]));
                        },
                        Ok(r) => {
                            let rs = acc.push(r);
                            assert forall|k: int| 0 <= k < rows.len() && !row_blank(#[trigger] rows[k]) implies row_record(header, rows[k]) is Ok by {
                                if k < last {
                                    assert(init[k] == rows[k]);
                                }
                            }
                            assert forall|j: int| #![trigger rs[j]] 0 <= j < rs.len() implies exists|k: int|
                                0 <= k < rows.len() && !row_blank(#[trigger] rows[k]) && row_record(header, rows[k])
                                    == Ok::<SheetRecord, Fault>(rs[j]) by {
                                if j < acc.len() {
                                    let k = choose|k: int|
                                        0 <= k < init.len() && !row_blank(#[trigger] init[k]) && row_record(header, init[k])
                                            == Ok::<SheetRecord, Fault>(acc[j]);
                                    assert(init[k] == rows[k]);
                                } else {
                                    assert(!row_blank(rows[last]));
                                }
                            }
                            assert(!row_blank(rows[last]));
                            assert(rs.last() == r);
                        },
                    }
                }
            },
        }
    }
}

/// What a whole sheet loads as: with no rows, no header row is an error;
/// a header that lacks a required column fails with the first one missing,
/// in the order id, enabled, order, field, op, value, action; a sheet with
/// no rule row fails as loading no rules; a sheet that loads gives at least
/// one rule.
pub proof fn law_sheet_loading(rows: Seq<Seq<Cell>>)
    ensures
        rows.len() == 0 ==> sheet_records(rows) == Err::<Seq<SheetRecord>, Fault>(Fault::NoHeaderRow),
        rows.len() > 0 && column_of(rows[0], "id"@) is None ==> sheet_records(rows) == Err::<
            Seq<SheetRecord>,
            Fault,
        >(Fault::MissingColumn("id"@)),
        rows.len() > 0 && column_of(rows[0], "id"@) is Some && column_of(rows[0], "enabled"@) is None
            ==> sheet_records(rows) == Err::<Seq<SheetRecord>, Fault>(Fault::MissingColumn("enabled"@)),
        sheet_records(rows) matches Ok(rs) ==> rs.len() > 0,
        rows.len() > 0 && missing_column(rows[0]) is None && (forall|k: int|
            1 <= k < rows.len() ==> row_blank(#[trigger] rows[k])) ==> sheet_records(rows) == Err::<
            Seq<SheetRecord>,
            Fault,
        >(Fault::NoRulesLoaded),
{
    if rows.len() > 0 {
        let h = rows[0];
        if column_of(h, "id"@) is None {
            assert(column_of(h, required_columns()[0]) is None);
            let k = choose|k: int|
                0 <= k < 7 && column_of(h, #[trigger] required_columns()[k]) is None && forall|m: int|
                    0 <= m < k ==> column_of(h, #[trigger] required_columns()[m]) is Some;
            if k > 0 {
                assert(column_of(h, required_columns()[0]) is Some);
            }
        } else if column_of(h, "enabled"@) is None {
            assert(column_of(h, required_columns()[1]) is None);
            assert(column_of(h, required_columns()[0]) is Some);
            assert(0 <= 1 < 7 && column_of(h, required_columns()[1]) is None && forall|m: int|
                0 <= m < 1 ==> column_of(h, #[trigger] required_columns()[m]) is Some);
            let k = choose|k: int|
                0 <= k < 7 && column_of(h, #[trigger] required_columns()[k]) is None && forall|m: int|
                    0 <= m < k ==> column_of(h, #[trigger] required_columns()[m]) is Some;
            if k > 1 {
                assert(column_of(h, required_columns()[1]) is Some);
            } else if k < 1 {
                assert(column_of(h, required_columns()[0]) is None);
            }
        }
        let rest = rows.drop_first();
        law_rows_load_in_order(h, rest);
        if forall|k: int| 1 <= k < rows.len() ==> row_blank(#[trigger] rows[k]) {
            assert forall|k: int| 0 <= k < rest.len() implies row_blank(#[trigger] rest[k]) by {
                assert(rest[k] == rows[k + 1]);
            }
        }
    }
}

// ---------------------------------------------------------------------------
// Executable functions
// ---------------------------------------------------------------------------

/// A rule as one worksheet row gives it; its value is still text.
#[derive(Debug)]
pub struct SheetRule {
    pub id: String,
    pub enabled: bool,
    pub order: i64,
    pub rule_type: RuleType,
    pub field: String,
    pub op: Operator,
    pub value_text: String,
    pub action: Action,
    pub score: i64,
    pub message: Option<String>,
    pub next_rule: Option<String>,
    pub next_true: Option<String>,
    pub next_false: Option<String>,
}

pub open spec fn opt_chars(o: Option<String>) -> Option<Seq<char>> {
    match o {
        Some(s) => Some(s@),
        None => None,
    }
}

impl View for SheetRule {
    type V = SheetRecord;

    open spec fn view(&self) -> SheetRecord {
        SheetRecord {
            id: self.id@,
            enabled: self.enabled,
            order: self.order,
            rule_type: self.rule_type,
            field: self.field@,
            op: self.op,
            value_text: self.value_text@,
            action: self.action,
            score: self.score,
            message: opt_chars(self.message),
            next_rule: opt_chars(self.next_rule),
            next_true: opt_chars(self.next_true),
            next_false: opt_chars(self.next_false),
        }
    }
}

impl SheetRule {
    /// The rule, with the value that its text stands for.
    pub fn into_rule(self, value: JsonValue) -> (r: Rule)
        ensures
            r.id == self.id,
            r.enabled == self.enabled,
            r.order == self.order,
            r.rule_type == self.rule_type,
            r.field == self.field,
            r.op == self.op,
            r.value == value,
            r.action == self.action,
            r.score == self.score,
            r.message == self.message,
            r.next_rule == self.next_rule,
            r.next_true == self.next_true,
            r.next_false == self.next_false,
    {
        Rule {
            id: self.id,
            enabled: self.enabled,
            order: self.order,
            rule_type: self.rule_type,
            field: self.field,
            op: self.op,
            value,
            action: self.action,
            score: self.score,
            message: self.message,
            next_rule: self.next_rule,
            next_true: self.next_true,
            next_false: self.next_false,
        }
    }
}

/// The characters of a cell's text.
pub fn cell_chars(cell: &Cell) -> (r: Vec<char>)
    ensures
        r@ == cell_text_spec(*cell),
{
    match cell {
        Cell::Empty => Vec::new(),
        Cell::Text(s) => chars_of(s.as_str()),
        Cell::Int(i) => int_to_text(*i),
        Cell::Bool(b) => if *b {
            chars_of("true")
        } else {
            chars_of("false")
        },
    }
}

/// The text of a cell.
pub fn cell_to_string(cell: &Cell) -> (r: String)
    ensures
        r@ == cell_text_spec(*cell),
{
    let cs = cell_chars(cell);
    string_from_chars(&cs)
}

/// Whether a cell holds nothing but whitespace.
pub fn cell_is_empty(cell: &Cell) -> (r: bool)
    ensures
        r == cell_blank(*cell),
{
    match cell {
        Cell::Empty => true,
        _ => {
            let cs = cell_chars(cell);
            let t = trim_chars(&cs);
            t.len() == 0
        },
    }
}

/// Reads a cell as a flag.
pub fn parse_bool(cell: &Cell) -> (r: Result<bool, RulesError>)
    ensures
        viewed(r) == bool_of_cell(*cell),
{
    let cs = cell_chars(cell);
    let t = trim_chars(&cs);
    let l = lower_chars(&t);
    if spells(&l, "true") || spells(&l, "1") || spells(&l, "yes") || spells(&l, "y") {
        Ok(true)
    } else if spells(&l, "false") || spells(&l, "0") || spells(&l, "no") || spells(&l, "n") {
        Ok(false)
    } else {
        Err(RulesError::InvalidBoolean(string_from_chars(&cs)))
    }
}

/// Reads a cell as an integer.
pub fn parse_i64(cell: &Cell) -> (r: Result<i64, RulesError>)
    ensures
        viewed(r) == int_of_cell(*cell),
{
    let cs = cell_chars(cell);
    let t = trim_chars(&cs);
    match parse_i64_chars(&t) {
        Some(i) => Ok(i),
        None => Err(RulesError::InvalidInteger(string_from_chars(&cs))),
    }
}

/// The column that the header names `name`.
pub fn column_index(header: &Vec<Cell>, name: &str) -> (r: Option<usize>)
    ensures
        match r {
            Some(c) => column_of(header@, name@) == Some(c as int),
            None => column_of(header@, name@) is None,
        },
{
    let n = chars_of(name);
    let mut found: Option<usize> = None;
    let mut i: usize = 0;
    while i < header.len()
        invariant
            i <= header@.len(),
            n@ == name@,
            match found {
                Some(c) => column_of(header@.take(i as int), name@) == Some(c as int),
                None => column_of(header@.take(i as int), name@) is None,
            },
        decreases header.len() - i,
    {
        let cs = cell_chars(&header[i]);
        let l = lower_chars(&cs);
        proof {
            assert(header@.take(i + 1).drop_last() =~= header@.take(i as int));
            assert(header@.take(i + 1).last() == header@[i as int]);
        }
        if same_chars_vec(&l, &n) {
            found = Some(i);
        }
        i = i + 1;
    }
    assert(header@.take(header@.len() as int) =~= header@);
    found
}

fn same_chars_vec(a: &Vec<char>, b: &Vec<char>) -> (r: bool)
    ensures
        r == (a@ == b@),
{
    crate::text::same_chars(a, b)
}

/// The cell of a required column in a row.
fn required(header: &Vec<Cell>, row: &Vec<Cell>, name: &str) -> (r: Result<usize, RulesError>)
    ensures
        match r {
            Ok(c) => c < row@.len() && required_cell(header@, row@, name@) == Ok::<Cell, Fault>(
                row@[c as int],
            ),
            Err(e) => required_cell(header@, row@, name@) == Err::<Cell, Fault>(e@),
        },
{
    match column_index(header, name) {
        None => Err(RulesError::MissingColumn(name.to_owned())),
        Some(c) => if c < row.len() {
            Ok(c)
        } else {
            Err(RulesError::MissingValue(name.to_owned()))
        },
    }
}

/// The trimmed text of an optional column in a row, where it is not empty.
fn optional(header: &Vec<Cell>, row: &Vec<Cell>, name: &str) -> (r: Option<String>)
    ensures
        opt_chars(r) == optional_text(header@, row@, name@),
{
    match column_index(header, name) {
        Some(c) => if c < row.len() {
            let cs = cell_chars(&row[c]);
            let t = trim_chars(&cs);
            if t.len() > 0 {
                Some(string_from_chars(&t))
            } else {
                None
            }
        } else {
            None
        },
        None => None,
    }
}

/// Reads one non-blank row.
pub fn rule_from_row(header: &Vec<Cell>, row: &Vec<Cell>) -> (r: Result<SheetRule, RulesError>)
    ensures
        match r {
            Ok(s) => row_record(header@, row@) == Ok::<SheetRecord, Fault>(s@),
            Err(e) => row_record(header@, row@) == Err::<SheetRecord, Fault>(e@),
        },
{
    proof {
        reveal(row_record);
    }
    let id_col = match required(header, row, "id") {
        Ok(c) => c,
        Err(e) => return Err(e),
    };
    let enabled_col = match required(header, row, "enabled") {
        Ok(c) => c,
        Err(e) => return Err(e),
    };
    let enabled = match parse_bool(&row[enabled_col]) {
        Ok(b) => b,
        Err(e) => return Err(e),
    };
    let order_col = match required(header, row, "order") {
        Ok(c) => c,
        Err(e) => return Err(e),
    };
    let order = match parse_i64(&row[order_col]) {
        Ok(i) => i,
        Err(e) => return Err(e),
    };
    let field_col = match required(header, row, "field") {
        Ok(c) => c,
        Err(e) => return Err(e),
    };
    let op_col = match required(header, row, "op") {
        Ok(c) => c,
        Err(e) => return Err(e),
    };
    let op_text = string_from_chars(&trim_chars(&cell_chars(&row[op_col])));
    let op = match parse_operator(op_text.as_str()) {
        Ok(o) => o,
        Err(e) => return Err(e),
    };
    let value_col = match required(header, row, "value") {
        Ok(c) => c,
        Err(e) => return Err(e),
    };
    let action_col = match required(header, row, "action") {
        Ok(c) => c,
        Err(e) => return Err(e),
    };
    let action_text = string_from_chars(&trim_chars(&cell_chars(&row[action_col])));
    let action = match parse_action(action_text.as_str()) {
        Ok(a) => a,
        Err(e) => return Err(e),
    };
    let score = match column_index(header, "score") {
        Some(c) => if c < row.len() && trim_chars(&cell_chars(&row[c])).len() > 0 {
            match parse_i64(&row[c]) {
                Ok(i) => i,
                Err(e) => return Err(e),
            }
        } else {
            0
        },
        None => 0,
    };
    let type_text = match optional(header, row, "rule_type") {
        Some(t) => t,
        None => "if_then".to_owned(),
    };
    let rule_type = match parse_rule_type(type_text.as_str()) {
        Ok(t) => t,
        Err(e) => return Err(e),
    };
    let id = string_from_chars(&trim_chars(&cell_chars(&row[id_col])));
    let field = string_from_chars(&trim_chars(&cell_chars(&row[field_col])));
    let value_text = string_from_chars(&trim_chars(&cell_chars(&row[value_col])));
    let message = optional(header, row, "message");
    let next_rule = optional(header, row, "next_rule");
    let next_true = optional(header, row, "next_true");
    let next_false = optional(header, row, "next_false");
    Ok(
        SheetRule {
            id,
            enabled,
            order,
            rule_type,
            field,
            op,
            value_text,
            action,
            score,
            message,
            next_rule,
            next_true,
            next_false,
        },
    )
}

/// Whether every cell of a row is blank.
pub fn row_is_blank(row: &Vec<Cell>) -> (r: bool)
    ensures
        r == row_blank(row@),
{
    let mut i: usize = 0;
    while i < row.len()
        invariant
            i <= row@.len(),
            forall|k: int| 0 <= k < i ==> cell_blank(#[trigger] row@[k]),
        decreases row.len() - i,
    {
        if !cell_is_empty(&row[i]) {
            return false;
        }
        i = i + 1;
    }
    true
}

proof fn lemma_records_error_stays(header: Seq<Cell>, rows: Seq<Seq<Cell>>, j: int)
    requires
        0 <= j <= rows.len(),
        records_of_rows(header, rows.take(j)) is Err,
    ensures
        records_of_rows(header, rows) == records_of_rows(header, rows.take(j)),
    decreases rows.len(),
{
    if j == rows.len() {
        assert(rows.take(j) =~= rows);
    } else {
        assert(rows.drop_last().take(j) =~= rows.take(j));
        lemma_records_error_stays(header, rows.drop_last(), j);
    }
}

/// Reads the rules of a worksheet, given its rows: the first row names the columns, every further row that is not
/// blank is one rule.
pub fn rules_from_sheet(rows: &Vec<Vec<Cell>>) -> (r: Result<Vec<SheetRule>, RulesError>)
    ensures
        match r {
            Ok(rs) => sheet_records(rows@.map_values(|row: Vec<Cell>| row@)) == Ok::<
                Seq<SheetRecord>,
                Fault,
            >(rs@.map_values(|s: SheetRule| s@)),
            Err(e) => sheet_records(rows@.map_values(|row: Vec<Cell>| row@)) == Err::<
                Seq<SheetRecord>,
                Fault,
            >(e@),
        },
{
    let ghost cells = rows@.map_values(|row: Vec<Cell>| row@);
    if rows.len() == 0 {
        return Err(RulesError::NoHeaderRow);
    }
    let header = &rows[0];
    assert(cells[0] == header@);
    let names = ["id", "enabled", "order", "field", "op", "value", "action"];
    let mut k: usize = 0;
    while k < 7
        invariant
            k <= 7,
            rows@.len() > 0,
            cells.len() == rows@.len(),
            cells == rows@.map_values(|row: Vec<Cell>| row@),
            cells[0] == header@,
            forall|m: int| 0 <= m < 7 ==> (#[trigger] names@[m])@ == required_columns()[m],
            forall|m: int| 0 <= m < k ==> column_of(header@, #[trigger] required_columns()[m]) is Some,
        decreases 7 - k,
    {
        if column_index(header, names[k]).is_none() {
            proof {
                let kk = k as int;
                assert(names@[kk]@ == required_columns()[kk]);
                assert(column_of(header@, required_columns()[kk]) is None);
                assert(0 <= kk < 7 && column_of(header@, required_columns()[kk]) is None && forall|
                    m: int,
                |
                    0 <= m < kk ==> column_of(header@, #[trigger] required_columns()[m]) is Some);
                let c = choose|c: int|
                    0 <= c < 7 && column_of(header@, #[trigger] required_columns()[c]) is None
                        && forall|m: int|
                        0 <= m < c ==> column_of(header@, #[trigger] required_columns()[m]) is Some;
                if c < kk {
                    assert(column_of(header@, required_columns()[c]) is Some);
                } else if c > kk {
                    assert(column_of(header@, required_columns()[kk]) is Some);
                }
                assert(missing_column(header@) == Some(required_columns()[kk]));
            }
            return Err(RulesError::MissingColumn(names[k].to_owned()));
        }
        k = k + 1;
    }
    assert(missing_column(header@) is None);
    let mut out: Vec<SheetRule> = Vec::new();
    let mut i: usize = 1;
    assert(cells.drop_first().take(0) =~= Seq::<Seq<Cell>>::empty());
    assert(out@.map_values(|s: SheetRule| s@) =~= Seq::<SheetRecord>::empty());
    while i < rows.len()
        invariant
            1 <= i <= rows@.len(),
            cells == rows@.map_values(|row: Vec<Cell>| row@),
            cells.len() == rows@.len(),
            missing_column(header@) is None,
            cells[0] == header@,
            records_of_rows(header@, cells.drop_first().take(i - 1)) == Ok::<Seq<SheetRecord>, Fault>(
                out@.map_values(|s: SheetRule| s@),
            ),
        decreases rows.len() - i,
    {
        let row = &rows[i];
        proof {
            let pre = cells.drop_first().take(i - 1);
            let now = cells.drop_first().take(i as int);
            assert(now.drop_last() =~= pre);
            assert(now.last() == row@);
        }
        if !row_is_blank(row) {
            match rule_from_row(header, row) {
                Ok(rule) => {
                    let ghost before = out@.map_values(|s: SheetRule| s@);
                    let ghost rv = rule@;
                    out.push(rule);
                    assert(out@.map_values(|s: SheetRule| s@) =~= before.push(rv));
                },
                Err(e) => {
                    proof {
                        lemma_records_error_stays(header@, cells.drop_first(), i as int);
                        assert(cells.drop_first().take(rows@.len() - 1) =~= cells.drop_first());
                    }
                    return Err(e);
                },
            }
        }
        i = i + 1;
    }
    assert(cells.drop_first().take(rows@.len() - 1) =~= cells.drop_first());
    if out.len() == 0 {
        return Err(RulesError::NoRulesLoaded);
    }
    Ok(out)
}

/// A value from the trimmed text of a value cell, given what
/// `serde_json` and `str::parse::<f64>` read that text as.
pub fn parse_value(raw: &str, json: Option<JsonValue>, float_bits: Option<u64>) -> (r: JsonValue)
    ensures
        r@ == value_from_text(
            raw@,
            match json {
                Some(v) => Some(v@),
                None => None,
            },
            float_bits,
        ),
{
    let cs = chars_of(raw);
    if cs.len() == 0 {
        return JsonValue::Null;
    }
    match json {
        Some(v) => return v,
        None => {},
    }
    match parse_i64_chars(&cs) {
        Some(i) => return JsonValue::Int(i as i128),
        None => {},
    }
    match float_bits {
        Some(b) => if (b >> 52u64) & 0x7ffu64 != 0x7ffu64 {
            return JsonValue::Float(b);
        },
        None => {},
    }
    if spells(&cs, "true") {
        JsonValue::Bool(true)
    } else if spells(&cs, "false") {
        JsonValue::Bool(false)
    } else {
        JsonValue::Str { text: raw.to_owned(), number: float_bits }
    }
}

} // verus!
