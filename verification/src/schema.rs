//! The schema of the model that exercises every kind of form field.

use vstd::prelude::*;

verus! {

/// The SQL type of a column, or the timestamp that the ORM keeps for it.
#[derive(Clone, Copy, Debug, PartialEq, Eq, Structural)]
pub enum ColumnKind {
    String,
    Text,
    Integer,
    BigInteger,
    Boolean,
    Json,
    DateTime,
    Uuid,
    /// Set to the current time when the row is created.
    AutoNow,
    /// Set to the current time whenever the row is saved.
    AutoNowUpdate,
}

/// A column: its name, its kind and whether it may be null.
pub struct ColumnDef {
    pub name: String,
    pub kind: ColumnKind,
    pub nullable: bool,
}

/// The primary key: its column and whether it is a UUID.
pub struct PrimaryKeyDef {
    pub name: String,
    pub uuid: bool,
}

/// A model: its name, its table, its primary key and its other columns in order.
pub struct ModelSchemaDef {
    pub model: String,
    pub table: String,
    pub primary_key: PrimaryKeyDef,
    pub columns: Vec<ColumnDef>,
}

/// The view of a column.
pub open spec fn column_view(c: ColumnDef) -> (Seq<char>, ColumnKind, bool) {
    (c.name@, c.kind, c.nullable)
}

/// The columns of the all-fields test model.
pub open spec fn all_fields_columns() -> Seq<(Seq<char>, ColumnKind, bool)> {
    seq![
        ("f_text"@, ColumnKind::String, true),
        ("f_email"@, ColumnKind::String, true),
        ("f_url"@, ColumnKind::String, true),
        ("f_password"@, ColumnKind::String, true),
        ("f_textarea"@, ColumnKind::Text, true),
        ("f_richtext"@, ColumnKind::Text, true),
        ("f_integer"@, ColumnKind::Integer, true),
        ("f_float"@, ColumnKind::String, true),
        ("f_decimal"@, ColumnKind::String, true),
        ("f_percent"@, ColumnKind::Integer, true),
        ("f_range"@, ColumnKind::Integer, true),
        ("f_checkbox"@, ColumnKind::Boolean, true),
        ("f_radio_single"@, ColumnKind::Boolean, true),
        ("f_select"@, ColumnKind::String, true),
        ("f_select_multiple"@, ColumnKind::Json, true),
        ("f_radio_group"@, ColumnKind::String, true),
        ("f_checkbox_group"@, ColumnKind::Json, true),
        ("f_date"@, ColumnKind::DateTime, true),
        ("f_time"@, ColumnKind::String, true),
        ("f_datetime"@, ColumnKind::DateTime, true),
        ("f_duration"@, ColumnKind::BigInteger, true),
        ("f_file_image"@, ColumnKind::Json, true),
        ("f_file_document"@, ColumnKind::Json, true),
        ("f_file_any"@, ColumnKind::Json, true),
        ("f_color"@, ColumnKind::String, true),
        ("f_slug"@, ColumnKind::String, true),
        ("f_uuid"@, ColumnKind::Uuid, true),
        ("f_json"@, ColumnKind::Json, true),
        ("f_ip"@, ColumnKind::String, true),
        ("created_at"@, ColumnKind::AutoNow, false),
        ("updated_at"@, ColumnKind::AutoNowUpdate, false)
    ]
}

/// The schema of the model `TestAllFields`, table `test_all_fields`: a UUID
/// key `id`, one nullable column per kind of form field (floats, decimals,
/// times and IP addresses kept as strings), and the creation and update
/// timestamps.
pub fn test_all_fields_schema() -> (r: ModelSchemaDef)
    ensures
        r.model@ == "TestAllFields"@,
        r.table@ == "test_all_fields"@,
        r.primary_key.name@ == "id"@,
        r.primary_key.uuid,
        r.columns@.map_values(|c: ColumnDef| column_view(c)) == all_fields_columns(),
{
    let mut cols: Vec<ColumnDef> = Vec::new();
    cols.push(ColumnDef { name: "f_text".to_owned(), kind: ColumnKind::String, nullable: true });
    cols.push(ColumnDef { name: "f_email".to_owned(), kind: ColumnKind::String, nullable: true });
    cols.push(ColumnDef { name: "f_url".to_owned(), kind: ColumnKind::String, nullable: true });
    cols.push(ColumnDef { name: "f_password".to_owned(), kind: ColumnKind::String, nullable: true });
    cols.push(ColumnDef { name: "f_textarea".to_owned(), kind: ColumnKind::Text, nullable: true });
    cols.push(ColumnDef { name: "f_richtext".to_owned(), kind: ColumnKind::Text, nullable: true });
    cols.push(ColumnDef { name: "f_integer".to_owned(), kind: ColumnKind::Integer, nullable: true });
    cols.push(ColumnDef { name: "f_float".to_owned(), kind: ColumnKind::String, nullable: true });
    cols.push(ColumnDef { name: "f_decimal".to_owned(), kind: ColumnKind::String, nullable: true });
    cols.push(ColumnDef { name: "f_percent".to_owned(), kind: ColumnKind::Integer, nullable: true });
    cols.push(ColumnDef { name: "f_range".to_owned(), kind: ColumnKind::Integer, nullable: true });
    cols.push(ColumnDef { name: "f_checkbox".to_owned(), kind: ColumnKind::Boolean, nullable: true });
    cols.push(ColumnDef { name: "f_radio_single".to_owned(), kind: ColumnKind::Boolean, nullable: true });
    cols.push(ColumnDef { name: "f_select".to_owned(), kind: ColumnKind::String, nullable: true });
    cols.push(ColumnDef { name: "f_select_multiple".to_owned(), kind: ColumnKind::Json, nullable: true });
    cols.push(ColumnDef { name: "f_radio_group".to_owned(), kind: ColumnKind::String, nullable: true });
    cols.push(ColumnDef { name: "f_checkbox_group".to_owned(), kind: ColumnKind::Json, nullable: true });
    cols.push(ColumnDef { name: "f_date".to_owned(), kind: ColumnKind::DateTime, nullable: true });
    cols.push(ColumnDef { name: "f_time".to_owned(), kind: ColumnKind::String, nullable: true });
    cols.push(ColumnDef { name: "f_datetime".to_owned(), kind: ColumnKind::DateTime, nullable: true });
    cols.push(ColumnDef { name: "f_duration".to_owned(), kind: ColumnKind::BigInteger, nullable: true });
    cols.push(ColumnDef { name: "f_file_image".to_owned(), kind: ColumnKind::Json, nullable: true });
    cols.push(ColumnDef { name: "f_file_document".to_owned(), kind: ColumnKind::Json, nullable: true });
    cols.push(ColumnDef { name: "f_file_any".to_owned(), kind: ColumnKind::Json, nullable: true });
    cols.push(ColumnDef { name: "f_color".to_owned(), kind: ColumnKind::String, nullable: true });
    cols.push(ColumnDef { name: "f_slug".to_owned(), kind: ColumnKind::String, nullable: true });
    cols.push(ColumnDef { name: "f_uuid".to_owned(), kind: ColumnKind::Uuid, nullable: true });
    cols.push(ColumnDef { name: "f_json".to_owned(), kind: ColumnKind::Json, nullable: true });
    cols.push(ColumnDef { name: "f_ip".to_owned(), kind: ColumnKind::String, nullable: true });
    cols.push(ColumnDef { name: "created_at".to_owned(), kind: ColumnKind::AutoNow, nullable: false });
    cols.push(ColumnDef { name: "updated_at".to_owned(), kind: ColumnKind::AutoNowUpdate, nullable: false });
    assert(cols@.map_values(|c: ColumnDef| column_view(c)) =~= all_fields_columns());
    ModelSchemaDef {
        model: "TestAllFields".to_owned(),
        table: "test_all_fields".to_owned(),
        primary_key: PrimaryKeyDef { name: "id".to_owned(), uuid: true },
        columns: cols,
    }
}

} // verus!
