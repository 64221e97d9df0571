use meilidb::config::Config;
use meilidb::database::Database;
use meilidb::document::{Document, Field, FieldValue};
use meilidb::query::{search, Match, Query, QueryError, QueryResult};
use meilidb::schema::{Schema, SchemaBuilder, SchemaProps};
use meilidb::tokenizer::StopWords;

fn props(stored: bool, indexed: bool, ranked: bool) -> SchemaProps {
    SchemaProps { stored, indexed, ranked }
}

fn schema_id_title() -> Schema {
    let mut builder = SchemaBuilder::with_identifier("id");
    builder.new_attribute("id", props(true, false, false));
    builder.new_attribute("title", props(true, true, false));
    builder.build().unwrap()
}

fn document(fields: &[(&str, &str)]) -> Document {
    Document(
        fields
            .iter()
            .map(|(name, value)| Field { name: name.to_string(), value: FieldValue::text(value) })
            .collect(),
    )
}

fn query(text: &str) -> Query {
    Query {
        query: text.to_string(),
        offset: None,
        length: None,
        cropped_fields: None,
        attributes_to_retrieve: None,
        restrict_searchable_attributes: None,
    }
}

fn database_with(schema: Schema, config: Config, documents: &[Document]) -> Database {
    let mut db = Database::new();
    db.create_index("default", schema).unwrap();
    assert!(db.update_config("default", config));
    let stop_words = db.get_config("default").unwrap().stop_words();
    let mut update = db.start_update("default").unwrap();
    for document in documents {
        update.update_document(document, &stop_words).unwrap();
    }
    db.commit_update("default", update.build()).unwrap();
    db
}

fn hit<'a>(result: &'a QueryResult, name: &str) -> Option<&'a str> {
    result.hits.iter().find(|h| h.name == name).map(|h| h.value.as_str())
}

fn place(attribute: &str, start: u16, length: u16) -> Match {
    Match { attribute: attribute.to_string(), start, length }
}

#[test]
fn quick_matches_one_document_at_its_place() {
    let mut config = Config::new();
    config.stop_words = Some(vec!["the".to_string()]);
    let db = database_with(
        schema_id_title(),
        config,
        &[document(&[("id", "1"), ("title", "The quick brown fox")])],
    );
    let results = search("default".to_string(), query("quick"), &db).unwrap();
    assert_eq!(results.len(), 1);
    assert_eq!(hit(&results[0], "title"), Some("The quick brown fox"));
    assert_eq!(hit(&results[0], "id"), Some("1"));
    assert_eq!(results[0].matches, vec![place("title", 4, 5)]);
}

#[test]
fn shorter_document_with_lower_identifier_ranks_first() {
    let db = database_with(
        schema_id_title(),
        Config::new(),
        &[
            document(&[("id", "1"), ("title", "hello world")]),
            document(&[("id", "2"), ("title", "hello")]),
        ],
    );
    let results = search("default".to_string(), query("hello"), &db).unwrap();
    assert_eq!(results.len(), 2);
    assert_eq!(hit(&results[0], "id"), Some("2"));
    assert_eq!(hit(&results[1], "id"), Some("1"));
}

#[test]
fn document_added_then_removed_in_one_batch_is_not_found() {
    let mut db = Database::new();
    db.create_index("default", schema_id_title()).unwrap();
    let stop_words = StopWords::new();
    let mut update = db.start_update("default").unwrap();
    let doc = document(&[("id", "1"), ("title", "anything in doc 1")]);
    update.update_document(&doc, &stop_words).unwrap();
    update.remove_document(&doc).unwrap();
    db.commit_update("default", update.build()).unwrap();
    let results = search("default".to_string(), query("anything"), &db).unwrap();
    assert_eq!(results.len(), 0);
}

#[test]
fn one_typo_is_tolerated_for_a_word_of_four_letters() {
    let db = database_with(
        schema_id_title(),
        Config::new(),
        &[document(&[("id", "1"), ("title", "café au lait")])],
    );
    let results = search("default".to_string(), query("cafe"), &db).unwrap();
    assert_eq!(results.len(), 1);
    assert_eq!(results[0].matches, vec![place("title", 0, 4)]);
}

#[test]
fn custom_descending_rule_ranks_higher_value_first() {
    let mut builder = SchemaBuilder::with_identifier("id");
    builder.new_attribute("id", props(true, false, false));
    builder.new_attribute("title", props(true, true, false));
    builder.new_attribute("views", props(true, false, true));
    let schema = builder.build().unwrap();
    let mut config = Config::new();
    config.ranking_order = Some(vec!["views:dsc".to_string()]);
    let db = database_with(
        schema,
        config,
        &[
            document(&[("id", "a"), ("title", "alpha"), ("views", "10")]),
            document(&[("id", "b"), ("title", "alpha beta"), ("views", "5")]),
        ],
    );
    let results = search("default".to_string(), query("alpha"), &db).unwrap();
    assert_eq!(results.len(), 2);
    assert_eq!(hit(&results[0], "views"), Some("10"));
    assert_eq!(hit(&results[1], "views"), Some("5"));
}

#[test]
fn last_query_word_matches_as_a_prefix() {
    let db = database_with(
        schema_id_title(),
        Config::new(),
        &[document(&[("id", "1"), ("title", "brown fox")])],
    );
    let results = search("default".to_string(), query("brown fo"), &db).unwrap();
    assert_eq!(results.len(), 1);
    assert_eq!(results[0].matches, vec![place("title", 0, 5), place("title", 6, 3)]);
}

#[test]
fn unknown_index_is_an_error() {
    let db = Database::new();
    assert_eq!(search("nope".to_string(), query("x"), &db), Err(QueryError::UnknownIndex));
}

#[test]
fn length_over_the_limit_is_an_error() {
    let db = database_with(schema_id_title(), Config::new(), &[]);
    let mut q = query("x");
    q.length = Some(501);
    assert_eq!(search("default".to_string(), q, &db), Err(QueryError::InvalidLimit));
}

#[test]
fn empty_query_finds_nothing() {
    let db = database_with(
        schema_id_title(),
        Config::new(),
        &[document(&[("id", "1"), ("title", "hello")])],
    );
    assert_eq!(search("default".to_string(), query("  ,, "), &db).unwrap().len(), 0);
}
