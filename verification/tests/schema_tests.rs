use meilidb::document::{Document, Field, FieldValue, TextValue};
use meilidb::number::Number;
use meilidb::schema::{SchemaBuilder, SchemaError, SchemaProps, SerializerError};
use meilidb::siphash::hash;
use meilidb::types::{DocumentId, SchemaAttr};
use meilidb::word::Order;

fn props(stored: bool, indexed: bool, ranked: bool) -> SchemaProps {
    SchemaProps { stored, indexed, ranked }
}

fn field(name: &str, value: FieldValue) -> Field {
    Field { name: name.to_string(), value }
}

#[test]
fn attributes_are_numbered_in_declaration_order() {
    let mut builder = SchemaBuilder::with_identifier("id");
    assert_eq!(builder.new_attribute("id", props(true, false, false)), SchemaAttr(0));
    assert_eq!(builder.new_attribute("title", props(true, true, false)), SchemaAttr(1));
    assert_eq!(builder.new_attribute("views", props(false, false, true)), SchemaAttr(2));
    let schema = builder.build().unwrap();
    assert_eq!(schema.len(), 3);
    assert_eq!(schema.attribute("title"), Some(SchemaAttr(1)));
    assert_eq!(schema.attribute("views"), Some(SchemaAttr::new(2)));
    assert_eq!(schema.attribute("nope"), None);
    assert_eq!(schema.attribute_name(SchemaAttr(2)), "views");
    assert_eq!(schema.props(SchemaAttr(1)), props(true, true, false));
    assert_eq!(schema.identifier(), SchemaAttr(0));
    let copy = schema.duplicate();
    assert_eq!(copy.len(), 3);
    assert_eq!(copy.attribute_name(SchemaAttr(1)), "title");
}

#[test]
fn duplicate_attribute_is_refused() {
    let mut builder = SchemaBuilder::with_identifier("id");
    builder.new_attribute("id", props(true, false, false));
    builder.new_attribute("title", props(true, true, false));
    builder.new_attribute("title", props(false, true, false));
    assert_eq!(builder.build().err(), Some(SchemaError::DuplicateAttribute));
}

#[test]
fn missing_identifier_is_refused() {
    let mut builder = SchemaBuilder::with_identifier("id");
    builder.new_attribute("title", props(true, true, false));
    assert_eq!(builder.build().err(), Some(SchemaError::NoIdentifier));
    assert_eq!(SchemaBuilder::with_identifier("id").build().err(), Some(SchemaError::NoIdentifier));
}

#[test]
fn identifier_that_is_not_stored_is_refused() {
    let mut builder = SchemaBuilder::with_identifier("id");
    builder.new_attribute("id", props(false, true, false));
    assert_eq!(builder.build().err(), Some(SchemaError::IdentifierNotStored));
}

#[test]
fn document_id_is_the_hash_of_the_identifier_text() {
    let mut builder = SchemaBuilder::with_identifier("id");
    builder.new_attribute("id", props(true, false, false));
    builder.new_attribute("title", props(true, true, false));
    let schema = builder.build().unwrap();
    let a = Document(vec![field("title", FieldValue::text("x")), field("id", FieldValue::text("1"))]);
    let b = Document(vec![field("id", FieldValue::text("1")), field("title", FieldValue::text("y"))]);
    let c = Document(vec![field("id", FieldValue::Integer(1))]);
    let d = Document(vec![field("id", FieldValue::text("2"))]);
    assert_eq!(schema.document_id(&a), Ok(DocumentId(0xa0bead804318e255)));
    assert_eq!(schema.document_id(&a), schema.document_id(&b));
    assert_eq!(schema.document_id(&a), schema.document_id(&c));
    assert_eq!(schema.document_id(&d), Ok(DocumentId(hash(b"2"))));
    assert_ne!(schema.document_id(&a), schema.document_id(&d));
    let t = Document(vec![field("id", FieldValue::Boolean(true))]);
    assert_eq!(schema.document_id(&t), Ok(DocumentId(hash(b"true"))));
    let n = Document(vec![field("id", FieldValue::Integer(-42))]);
    assert_eq!(schema.document_id(&n), Ok(DocumentId(hash(b"-42"))));
}

#[test]
fn document_without_identifier_is_refused() {
    let mut builder = SchemaBuilder::with_identifier("id");
    builder.new_attribute("id", props(true, false, false));
    let schema = builder.build().unwrap();
    let missing = Document(vec![field("title", FieldValue::text("x"))]);
    assert_eq!(schema.document_id(&missing), Err(SerializerError::MissingIdentifier));
    let composite = Document(vec![field("id", FieldValue::Composite)]);
    assert_eq!(schema.document_id(&composite), Err(SerializerError::UnsupportedType));
}

#[test]
fn text_form_of_scalars() {
    assert_eq!(FieldValue::text("héllo").text_form(), Some("héllo".to_string()));
    assert_eq!(FieldValue::Integer(0).text_form(), Some("0".to_string()));
    assert_eq!(FieldValue::Integer(-1200).text_form(), Some("-1200".to_string()));
    assert_eq!(FieldValue::Boolean(true).text_form(), Some("true".to_string()));
    assert_eq!(FieldValue::Boolean(false).text_form(), Some("false".to_string()));
    assert_eq!(FieldValue::Composite.text_form(), None);
    let real = FieldValue::Text(TextValue { text: "1.5".to_string(), float_bits: Some(1.5f64.to_bits()) });
    assert_eq!(real.text_form(), Some("1.5".to_string()));
}

#[test]
fn first_field_of_a_name_is_found() {
    let doc = Document(vec![
        field("a", FieldValue::text("1")),
        field("b", FieldValue::text("2")),
        field("a", FieldValue::text("3")),
    ]);
    assert_eq!(doc.field("a"), Some(0));
    assert_eq!(doc.field("b"), Some(1));
    assert_eq!(doc.field("c"), None);
}

#[test]
fn numbers_parse_as_integers_first() {
    assert_eq!(Number::parse("42", None), Some(Number::Integer(42)));
    assert_eq!(Number::parse("-7", Some((-7.0f64).to_bits())), Some(Number::Integer(-7)));
    let bits = 2.5f64.to_bits();
    assert_eq!(Number::parse("2.5", Some(bits)), Some(Number::Float(bits)));
    assert_eq!(Number::parse("2.5", None), None);
    assert_eq!(Number::parse("abc", None), None);
    assert_eq!(Number::parse("inf", Some(f64::INFINITY.to_bits())), None);
    assert_eq!(Number::parse("NaN", Some(f64::NAN.to_bits())), None);
    assert_eq!(Number::from_float_bits(f64::NEG_INFINITY.to_bits()), None);
    assert_eq!(Number::from_float_bits(0.0f64.to_bits()), Some(Number::Float(0)));
    assert!(Number::Integer(3).is_integer());
    assert!(!Number::Float(0).is_integer());
}

#[test]
fn numbers_are_totally_ordered() {
    let float = |x: f64| Number::Float(x.to_bits());
    assert_eq!(Number::Integer(-3).order(&Number::Integer(2)), Order::Less);
    assert_eq!(Number::Integer(2).order(&Number::Integer(2)), Order::Equal);
    assert_eq!(Number::Integer(5).order(&Number::Integer(2)), Order::Greater);
    assert_eq!(float(-1.5).order(&float(-1.0)), Order::Less);
    assert_eq!(float(-1.0).order(&float(0.0)), Order::Less);
    assert_eq!(float(-0.0).order(&float(0.0)), Order::Less);
    assert_eq!(float(0.5).order(&float(10.0)), Order::Less);
    assert_eq!(float(10.0).order(&float(0.5)), Order::Greater);
    assert_eq!(float(3.25).order(&float(3.25)), Order::Equal);
    assert_eq!(Number::Integer(i64::MAX).order(&float(-1e300)), Order::Less);
    assert_eq!(float(-1e300).order(&Number::Integer(i64::MAX)), Order::Greater);
}
