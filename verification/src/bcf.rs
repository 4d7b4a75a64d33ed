//! The data model of a control file: which entry types and fields a
//! bibliography may use, and what each field holds.

use vstd::prelude::*;
use vstd::hash_set::StringHashSet;

verus! {

/// A control file.
#[derive(Debug, PartialEq)]
pub struct Controlfile {
    pub datamodel: Datamodel,
}

/// The data model that a control file declares.
#[derive(Debug, PartialEq)]
pub struct Datamodel {
    pub constants: ConstantDefinitions,
    pub entrytypes: EntrytypeDefinitions,
    pub fields: FieldDefinitions,
    pub entryfields: Vec<EntrytypesAndFields>,
    pub multiscriptfields: Fields,
    pub constraints: Vec<ConstraintSet>,
}

/// The names among the first `upto` entry types.
pub open spec fn entrytype_names(types: Seq<EntrytypeDefinition>, upto: int) -> Set<Seq<char>> {
    Set::new(|name: Seq<char>| exists|i: int| 0 <= i < upto && #[trigger] types[i].name@ == name)
}

/// The names among the first `upto` fields.
pub open spec fn field_names(fields: Seq<FieldDefinition>, upto: int) -> Set<Seq<char>> {
    Set::new(|name: Seq<char>| exists|i: int| 0 <= i < upto && #[trigger] fields[i].name@ == name)
}

impl Datamodel {
    /// The names of the entry types that the model declares, each once.
    pub fn valid_entrytypes(&self) -> (types: StringHashSet)
        ensures
            types@ == entrytype_names(
                self.entrytypes.entrytype@,
                self.entrytypes.entrytype@.len() as int,
            ),
    {
        let mut types = StringHashSet::new();
        let definitions = &self.entrytypes.entrytype;
        let mut i: usize = 0;
        while i < definitions.len()
            invariant
                0 <= i <= definitions@.len(),
                types@ =~= entrytype_names(definitions@, i as int),
            decreases definitions@.len() - i,
        {
            let _ = types.insert(definitions[i].name.clone());
            i = i + 1;
        }
        types
    }

    /// The names of the fields that the model declares, each once.
    pub fn valid_fields(&self) -> (types: StringHashSet)
        ensures
            types@ == field_names(self.fields.field@, self.fields.field@.len() as int),
    {
        let mut types = StringHashSet::new();
        let definitions = &self.fields.field;
        let mut i: usize = 0;
        while i < definitions.len()
            invariant
                0 <= i <= definitions@.len(),
                types@ =~= field_names(definitions@, i as int),
            decreases definitions@.len() - i,
        {
            let _ = types.insert(definitions[i].name.clone());
            i = i + 1;
        }
        types
    }
}

/// The constants of a data model.
#[derive(Debug, PartialEq)]
pub struct ConstantDefinitions {
    pub constant: Vec<Constant>,
}

/// A named constant with its type and value.
#[derive(Debug, PartialEq)]
pub struct Constant {
    pub name: String,
    pub kind: String,
    pub value: String,
}

/// The entry types of a data model.
#[derive(Debug, PartialEq)]
pub struct EntrytypeDefinitions {
    pub entrytype: Vec<EntrytypeDefinition>,
}

/// An entry type.
#[derive(Debug, PartialEq)]
pub struct EntrytypeDefinition {
    pub name: String,
    pub skip_output: bool,
}

/// The fields of a data model.
#[derive(Debug, PartialEq)]
pub struct FieldDefinitions {
    pub field: Vec<FieldDefinition>,
}

/// A field: its name, whether it holds one value or a list, and what kind of
/// data it holds.
#[derive(Debug, PartialEq)]
pub struct FieldDefinition {
    pub name: String,
    pub fieldtype: FieldType,
    pub datatype: DataType,
    pub format: String,
    pub skip_output: bool,
    pub nullok: bool,
    pub label: bool,
}

/// Whether a field holds one value or a list of values.
#[derive(Debug, PartialEq)]
pub enum FieldType {
    Field,
    List,
}

/// The kind of data that a field holds.
#[derive(Debug, PartialEq)]
pub enum DataType {
    Name,
    Literal,
    Integer,
    Key,
    Entrykey,
    Date,
    Datepart,
    Verbatim,
    Uri,
    Keyword,
    Option,
    Range,
    Code,
}

/// Entry types together with the fields that they may have.
#[derive(Debug, PartialEq)]
pub struct EntrytypesAndFields {
    pub entrytype: Vec<String>,
    pub field: Vec<String>,
}

/// A list of field names.
#[derive(Debug, PartialEq)]
pub struct Fields {
    pub field: Vec<String>,
}

impl Default for Fields {
    fn default() -> (r: Self)
        ensures
            r.field@.len() == 0,
    {
        Self { field: Vec::new() }
    }
}

/// Constraints on the entries of some types.
#[derive(Debug, PartialEq)]
pub struct ConstraintSet {
    pub entrytype: Vec<String>,
    pub constraint: Vec<Constraint>,
}

/// One constraint on the fields of an entry.
#[derive(Debug, PartialEq)]
pub struct Constraint {
    pub kind: ConstraintType,
    pub datatype: String,
    pub pattern: String,
    pub field: Vec<String>,
    pub fieldor: Fields,
}

/// Whether a constraint demands fields or restricts their data.
#[derive(Debug, PartialEq)]
pub enum ConstraintType {
    Mandatory,
    Data,
}

} // verus!
