use biblatex::bcf::{
    ConstantDefinitions, DataType, Datamodel, EntrytypeDefinition, EntrytypeDefinitions,
    FieldDefinition, FieldDefinitions, FieldType, Fields,
};

fn entrytype(name: &str) -> EntrytypeDefinition {
    EntrytypeDefinition { name: String::from(name), skip_output: false }
}

fn field(name: &str, fieldtype: FieldType, datatype: DataType) -> FieldDefinition {
    FieldDefinition {
        name: String::from(name),
        fieldtype,
        datatype,
        format: String::new(),
        skip_output: false,
        nullok: false,
        label: false,
    }
}

fn model(entrytypes: Vec<EntrytypeDefinition>, fields: Vec<FieldDefinition>) -> Datamodel {
    Datamodel {
        constants: ConstantDefinitions { constant: vec![] },
        entrytypes: EntrytypeDefinitions { entrytype: entrytypes },
        fields: FieldDefinitions { field: fields },
        entryfields: vec![],
        multiscriptfields: Fields::default(),
        constraints: vec![],
    }
}

#[test]
fn entrytypes_are_collected() {
    let data = model(vec![entrytype("article"), entrytype("book"), entrytype("misc")], vec![]);
    let types = data.valid_entrytypes();
    assert_eq!(types.len(), 3);
    assert!(types.contains("article"));
    assert!(types.contains("book"));
    assert!(types.contains("misc"));
    assert!(!types.contains("Article"));
    assert!(data.valid_fields().is_empty());
}

#[test]
fn entrytype_named_twice_counts_once() {
    let data = model(vec![entrytype("article"), entrytype("book"), entrytype("article")], vec![]);
    let types = data.valid_entrytypes();
    assert_eq!(types.len(), 2);
    assert!(types.contains("article"));
    assert!(types.contains("book"));
}

#[test]
fn fields_are_collected() {
    let data = model(
        vec![entrytype("article")],
        vec![
            field("title", FieldType::Field, DataType::Literal),
            field("author", FieldType::List, DataType::Name),
            field("year", FieldType::Field, DataType::Datepart),
            field("title", FieldType::Field, DataType::Literal),
        ],
    );
    let fields = data.valid_fields();
    assert_eq!(fields.len(), 3);
    assert!(fields.contains("title"));
    assert!(fields.contains("author"));
    assert!(fields.contains("year"));
    assert!(!fields.contains("article"));
    assert_eq!(data.valid_entrytypes().len(), 1);
}

#[test]
fn empty_model_declares_nothing() {
    let data = model(vec![], vec![]);
    assert!(data.valid_entrytypes().is_empty());
    assert!(data.valid_fields().is_empty());
    assert_eq!(Fields::default(), Fields { field: vec![] });
}
