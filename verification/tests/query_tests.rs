use meilidb::config::{Config, RankingOrdering, RankingRule};
use meilidb::criterion::Criterion;
use meilidb::database::{Database, DatabaseError};
use meilidb::document::{Document, Field, FieldValue};
use meilidb::matching::{group, restrict, RawMatch};
use meilidb::cancel::{checkpoint, checkpoint_of};
use meilidb::query::{
    find_matches, search, search_in, search_in_until, search_until, take_page, CroppedField,
    Match, Query, QueryError, QueryResult,
};
use std::sync::atomic::AtomicBool;
use meilidb::schema::{Schema, SchemaBuilder, SchemaProps};
use meilidb::tokenizer::StopWords;
use meilidb::types::DocIndex;
use meilidb::update::RawUpdateBuilder;
use meilidb::types::{DocumentId, SchemaAttr};

fn props(stored: bool, indexed: bool, ranked: bool) -> SchemaProps {
    SchemaProps { stored, indexed, ranked }
}

fn schema() -> Schema {
    let mut builder = SchemaBuilder::with_identifier("id");
    builder.new_attribute("id", props(true, false, false));
    builder.new_attribute("title", props(true, true, false));
    builder.new_attribute("body", props(true, true, false));
    builder.new_attribute("kind", props(true, false, false));
    builder.new_attribute("views", props(false, false, true));
    builder.build().unwrap()
}

fn document(fields: &[(&str, &str)]) -> Document {
    Document(
        fields
            .iter()
            .map(|(name, value)| Field { name: name.to_string(), value: FieldValue::text(value) })
            .collect(),
    )
}

fn query(text: &str) -> Query {
    Query {
        query: text.to_string(),
        offset: None,
        length: None,
        cropped_fields: None,
        attributes_to_retrieve: None,
        restrict_searchable_attributes: None,
    }
}

fn database(config: Config, documents: &[Document]) -> Database {
    let mut db = Database::new();
    db.create_index("default", schema()).unwrap();
    db.update_config("default", config);
    let stop_words = db.get_config("default").unwrap().stop_words();
    let mut update = db.start_update("default").unwrap();
    for document in documents {
        update.update_document(document, &stop_words).unwrap();
    }
    db.commit_update("default", update.build()).unwrap();
    db
}

fn value<'a>(result: &'a QueryResult, name: &str) -> Option<&'a str> {
    result.hits.iter().find(|h| h.name == name).map(|h| h.value.as_str())
}

fn found_ids(results: &[QueryResult]) -> Vec<String> {
    results.iter().map(|r| value(r, "id").unwrap().to_string()).collect()
}

fn place(attribute: &str, start: u16, length: u16) -> Match {
    Match { attribute: attribute.to_string(), start, length }
}

fn library() -> Database {
    database(
        Config::new(),
        &[
            document(&[("id", "1"), ("title", "red fox"), ("body", "a red fox jumps"), ("kind", "x")]),
            document(&[("id", "2"), ("title", "red hen"), ("body", "the hen is red"), ("kind", "y")]),
            document(&[("id", "3"), ("title", "blue fox"), ("body", "red is not blue"), ("kind", "x")]),
            document(&[("id", "4"), ("title", "green owl"), ("body", "owls are red eyed"), ("kind", "z")]),
            document(&[("id", "5"), ("title", "Red Red wine"), ("body", "wine"), ("kind", "y")]),
        ],
    )
}

#[test]
fn a_page_of_a_longer_search_is_the_search_of_that_page() {
    let db = library();
    let mut whole = query("red");
    whole.length = Some(5);
    let all = search("default".to_string(), whole, &db).unwrap();
    assert_eq!(all.len(), 5);
    for offset in 0..6 {
        for length in 0..4 {
            let mut first = query("red");
            first.offset = Some(0);
            first.length = Some(offset + length);
            let mut part = query("red");
            part.offset = Some(offset);
            part.length = Some(length);
            let first = search("default".to_string(), first, &db).unwrap();
            let part = search("default".to_string(), part, &db).unwrap();
            let from = offset.min(first.len());
            assert_eq!(&first[from..], &part[..]);
            let to = (offset + length).min(all.len());
            assert_eq!(&all[offset.min(all.len())..to], &part[..]);
        }
    }
}

#[test]
fn default_length_is_twenty() {
    let documents: Vec<Document> = (0..30)
        .map(|i| document(&[("id", &i.to_string()), ("title", "same word")]))
        .collect();
    let db = database(Config::new(), &documents);
    assert_eq!(search("default".to_string(), query("word"), &db).unwrap().len(), 20);
    let mut q = query("word");
    q.offset = Some(25);
    assert_eq!(search("default".to_string(), q, &db).unwrap().len(), 5);
    let mut q = query("word");
    q.length = Some(500);
    assert_eq!(search("default".to_string(), q, &db).unwrap().len(), 30);
    let mut q = query("word");
    q.offset = Some(usize::MAX);
    assert_eq!(search("default".to_string(), q, &db).unwrap().len(), 0);
}

#[test]
fn searching_twice_gives_the_same_answer() {
    let db = library();
    let a = search("default".to_string(), query("red fox"), &db).unwrap();
    let b = search("default".to_string(), query("red fox"), &db).unwrap();
    assert_eq!(a, b);
    assert_eq!(found_ids(&a)[0], "1");
}

#[test]
fn matches_are_within_the_typo_schedule() {
    let db = database(
        Config::new(),
        &[
            document(&[("id", "1"), ("title", "cat")]),
            document(&[("id", "2"), ("title", "cart")]),
            document(&[("id", "3"), ("title", "house")]),
            document(&[("id", "4"), ("title", "mouse")]),
            document(&[("id", "5"), ("title", "blouses")]),
            document(&[("id", "6"), ("title", "elephants")]),
            document(&[("id", "7"), ("title", "elephant")]),
            document(&[("id", "8"), ("title", "elegant")]),
        ],
    );
    let view = db.view_of("default").unwrap();
    let distances = |text: &str| -> Vec<u8> {
        let mut q = query(text);
        // an earlier query word is no prefix match
        q.query.push_str(" zzzzzzzzzzzzzzzz");
        find_matches(view, &q).iter().map(|r| r.found.distance).collect()
    };
    // under four bytes: no typo
    assert_eq!(distances("cat"), vec![0]);
    assert_eq!(distances("car"), Vec::<u8>::new());
    // under nine bytes: one typo
    let mut d = distances("house");
    d.sort();
    assert_eq!(d, vec![0, 1]);
    // nine bytes and more: two typos
    let mut d = distances("elephants");
    d.sort();
    assert_eq!(d, vec![0, 1]);
    let mut d = distances("elephantz");
    d.sort();
    assert_eq!(d, vec![1, 1]);
    let mut d = distances("elephanzz");
    d.sort();
    assert_eq!(d, vec![2, 2]);
    assert_eq!(distances("elegant"), vec![0]);
}

#[test]
fn only_the_last_query_word_matches_as_a_prefix() {
    let db = database(Config::new(), &[document(&[("id", "1"), ("title", "brown fox")])]);
    let view = db.view_of("default").unwrap();
    let raw = find_matches(view, &query("br fo"));
    assert_eq!(raw.len(), 1);
    assert_eq!(raw[0].found.query_index, 1);
    assert_eq!(raw[0].found.distance, 0);
    assert!(!raw[0].found.is_exact);
    let raw = find_matches(view, &query("brown fox"));
    assert_eq!(raw.len(), 2);
    assert!(raw.iter().all(|r| r.found.is_exact && r.found.distance == 0));
    // longer words that the last word begins, beyond its typos
    let db = database(Config::new(), &[document(&[("id", "1"), ("title", "elephantine")])]);
    let raw = find_matches(db.view_of("default").unwrap(), &query("eleph"));
    assert_eq!(raw.len(), 1);
    assert_eq!((raw[0].found.distance, raw[0].found.is_exact), (0, false));
    // and within its typos: as a prefix it is no typo
    let db = database(
        Config::new(),
        &[document(&[("id", "1"), ("title", "hello")]), document(&[("id", "2"), ("title", "help")])],
    );
    let view = db.view_of("default").unwrap();
    let mut found: Vec<(u8, bool, u16)> = find_matches(view, &query("hell"))
        .iter()
        .map(|r| (r.found.distance, r.found.is_exact, r.found.char_length))
        .collect();
    found.sort();
    assert_eq!(found, vec![(0, false, 5), (1, false, 4)]);
    let found: Vec<(u8, bool)> = find_matches(view, &query("hell you"))
        .iter()
        .map(|r| (r.found.distance, r.found.is_exact))
        .collect();
    assert_eq!(found, vec![(1, false), (1, false)]);
    let found: Vec<(u8, bool)> = find_matches(view, &query("hello"))
        .iter()
        .map(|r| (r.found.distance, r.found.is_exact))
        .collect();
    assert_eq!(found, vec![(0, true)]);
}

#[test]
fn stop_words_are_dropped_from_queries_too() {
    let mut config = Config::new();
    config.stop_words = Some(vec!["the".to_string(), "a".to_string()]);
    let db = database(config, &[document(&[("id", "1"), ("title", "the fox and a hen")])]);
    assert_eq!(search("default".to_string(), query("the"), &db).unwrap().len(), 0);
    let results = search("default".to_string(), query("the hen"), &db).unwrap();
    assert_eq!(results.len(), 1);
    // `the` and `a` take no ordinal: `hen` starts at scalar fourteen
    assert_eq!(results[0].matches, vec![place("title", 14, 3)]);
    let raw = find_matches(db.view_of("default").unwrap(), &query("The HEN"));
    assert_eq!(raw.len(), 1);
    assert_eq!(raw[0].found.query_index, 0);
    assert_eq!(raw[0].found.word_index, 2);
}

#[test]
fn searchable_attributes_can_be_restricted() {
    let db = library();
    let mut q = query("red");
    q.restrict_searchable_attributes = Some(vec!["title".to_string(), "nope".to_string()]);
    let mut ids = found_ids(&search("default".to_string(), q, &db).unwrap());
    ids.sort();
    assert_eq!(ids, vec!["1", "2", "5"]);
    let mut q = query("red");
    q.restrict_searchable_attributes = Some(vec!["nope".to_string()]);
    assert_eq!(search("default".to_string(), q, &db).unwrap().len(), 0);
    let raw = vec![
        RawMatch { document: DocumentId(1), found: meilidb::criterion::Match {
            query_index: 0, distance: 0, attribute: 1, word_index: 0, is_exact: true, char_index: 0, char_length: 3 } },
        RawMatch { document: DocumentId(1), found: meilidb::criterion::Match {
            query_index: 0, distance: 0, attribute: 2, word_index: 0, is_exact: true, char_index: 0, char_length: 3 } },
    ];
    assert_eq!(restrict(&raw, &vec![2]), vec![raw[1]]);
    assert_eq!(restrict(&raw, &vec![]), vec![]);
}

#[test]
fn retrieved_attributes_can_be_restricted() {
    let db = library();
    let mut q = query("jumps");
    q.attributes_to_retrieve = Some(vec!["id".to_string(), "title".to_string()]);
    let results = search("default".to_string(), q, &db).unwrap();
    assert_eq!(results.len(), 1);
    assert_eq!(results[0].hits.len(), 2);
    assert_eq!(value(&results[0], "title"), Some("red fox"));
    assert_eq!(value(&results[0], "body"), None);
    assert_eq!(results[0].matches, vec![]);
    let results = search("default".to_string(), query("jumps"), &db).unwrap();
    assert_eq!(results[0].hits.len(), 4);
    assert_eq!(results[0].matches, vec![place("body", 10, 5)]);
}

#[test]
fn hits_come_in_the_order_of_the_schema() {
    let db = library();
    let results = search("default".to_string(), query("owl"), &db).unwrap();
    let names: Vec<&str> = results[0].hits.iter().map(|h| h.name.as_str()).collect();
    assert_eq!(names, vec!["id", "title", "body", "kind"]);
}

#[test]
fn distinct_field_keeps_the_best_document_of_each_value() {
    let mut config = Config::new();
    config.distinct_field = Some("kind".to_string());
    let db = database(
        config,
        &[
            document(&[("id", "1"), ("title", "red fox"), ("kind", "x")]),
            document(&[("id", "2"), ("title", "red hen"), ("kind", "y")]),
            document(&[("id", "3"), ("title", "red owl"), ("kind", "x")]),
            document(&[("id", "4"), ("title", "red cat")]),
            document(&[("id", "5"), ("title", "red dog")]),
            document(&[("id", "6"), ("title", "red bat"), ("kind", "y")]),
        ],
    );
    let all = search("default".to_string(), query("red"), &db).unwrap();
    assert_eq!(all.len(), 4);
    let kinds: Vec<Option<&str>> = all.iter().map(|r| value(r, "kind")).collect();
    assert_eq!(kinds.iter().filter(|k| **k == Some("x")).count(), 1);
    assert_eq!(kinds.iter().filter(|k| **k == Some("y")).count(), 1);
    assert_eq!(kinds.iter().filter(|k| k.is_none()).count(), 2);
    // the window counts the documents that are kept
    let mut q = query("red");
    q.offset = Some(1);
    q.length = Some(2);
    let part = search("default".to_string(), q, &db).unwrap();
    assert_eq!(&all[1..3], &part[..]);
    // without distinct field every document is kept
    let view = db.view_of("default").unwrap();
    let ranked = group(&find_matches(view, &query("red")));
    assert_eq!(take_page(view, &ranked, 0, 10).len(), 4);
    assert_eq!(take_page(view, &ranked, 3, 10).len(), 1);
    assert_eq!(take_page(view, &ranked, 0, 0).len(), 0);
}

#[test]
fn custom_rules_rank_by_a_ranked_attribute() {
    let documents = [
        document(&[("id", "a"), ("title", "red"), ("views", "7")]),
        document(&[("id", "b"), ("title", "red"), ("views", "9")]),
        document(&[("id", "c"), ("title", "red")]),
        document(&[("id", "d"), ("title", "red"), ("views", "-2")]),
    ];
    let mut config = Config::new();
    config.ranking_order = Some(vec!["nonsense".to_string(), "views".to_string()]);
    config.ranking_rules =
        Some(vec![RankingRule { name: "views".to_string(), ordering: RankingOrdering::Asc }]);
    let db = database(config, &documents);
    let asc = found_ids(&search("default".to_string(), query("red"), &db).unwrap());
    assert_eq!(asc, vec!["d", "a", "b", "c"]);
    let mut config = Config::new();
    config.ranking_order = Some(vec!["views:dsc".to_string()]);
    let db = database(config, &documents);
    let dsc = found_ids(&search("default".to_string(), query("red"), &db).unwrap());
    assert_eq!(dsc, vec!["b", "a", "d", "c"]);
    let view = db.view_of("default").unwrap();
    assert_eq!(
        view.config().pipeline(view.schema()),
        vec![
            Criterion::SortByAttr { attribute: SchemaAttr(4), ascending: false },
            Criterion::DocumentId
        ]
    );
}

#[test]
fn fields_are_cropped_around_their_first_match() {
    let db = database(
        Config::new(),
        &[document(&[("id", "1"), ("title", "t"), ("body", "one two three four five six seven fox nine ten fox")])],
    );
    let mut q = query("fox");
    q.cropped_fields = Some(vec![CroppedField { name: "body".to_string(), length: 6 }]);
    let results = search("default".to_string(), q, &db).unwrap();
    assert_eq!(results.len(), 1);
    // the first match starts at scalar 34; the text kept starts six scalars before it
    assert_eq!(value(&results[0], "body"), Some("seven fox ni"));
    assert_eq!(results[0].matches, vec![place("body", 6, 3)]);
    let mut q = query("fox");
    q.cropped_fields = Some(vec![
        CroppedField { name: "nope".to_string(), length: 6 },
        CroppedField { name: "body".to_string(), length: usize::MAX },
    ]);
    let results = search("default".to_string(), q, &db).unwrap();
    assert_eq!(value(&results[0], "body"), Some("one two three four five six seven fox nine ten fox"));
    assert_eq!(results[0].matches, vec![place("body", 34, 3), place("body", 47, 3)]);
}

#[test]
fn search_in_a_view_answers_as_search_does() {
    let db = library();
    let view = db.view_of("default").unwrap();
    assert_eq!(
        search_in(view, &query("fox")).unwrap(),
        search("default".to_string(), query("fox"), &db).unwrap()
    );
}

#[test]
fn indexes_are_created_listed_and_deleted() {
    let mut db = Database::new();
    assert_eq!(db.create_index("a", schema()), Ok(()));
    assert_eq!(db.create_index("b", schema()), Ok(()));
    assert_eq!(db.create_index("a", schema()), Err(DatabaseError::IndexAlreadyExists));
    assert_eq!(db.list_indexes(), vec!["a".to_string(), "b".to_string()]);
    assert!(db.view_of("b").is_some());
    assert!(db.view_of("c").is_none());
    assert!(db.start_update("c").is_none());
    assert!(db.get_config("c").is_none());
    assert!(!db.update_config("c", Config::new()));
    assert!(db.delete_index("a"));
    assert!(!db.delete_index("a"));
    assert_eq!(db.list_indexes(), vec!["b".to_string()]);
    let view = db.view_of("b").unwrap();
    assert_eq!(view.index().len(), 0);
    assert_eq!(view.raw_field_by_document_id("title", DocumentId(1)), None);
    assert_eq!(view.ranked_map().entries().len(), 0);
}

#[test]
fn a_cancelled_query_answers_so() {
    let db = database(
        Config::new(),
        &[document(&[("id", "1"), ("title", "red fox")]), document(&[("id", "2"), ("title", "red hen")])],
    );
    let view = db.view_of("default").unwrap();
    let free = AtomicBool::new(false);
    let cancelled = AtomicBool::new(true);
    assert_eq!(search_in_until(view, &query("red"), &free), search_in(view, &query("red")));
    assert_eq!(search_in_until(view, &query("red"), &free).unwrap().len(), 2);
    assert_eq!(search_in_until(view, &query("red"), &cancelled), Err(QueryError::Cancelled));
    assert_eq!(
        search_until("default".to_string(), query("red"), &db, &cancelled),
        Err(QueryError::Cancelled)
    );
    assert_eq!(
        search_until("default".to_string(), query("red"), &db, &free),
        search("default".to_string(), query("red"), &db)
    );
    // a limit that is refused and an index that is unknown are told first
    let mut long = query("red");
    long.length = Some(501);
    assert_eq!(search_in_until(view, &long, &cancelled), Err(QueryError::InvalidLimit));
    assert_eq!(
        search_until("other".to_string(), query("red"), &db, &cancelled),
        Err(QueryError::UnknownIndex)
    );
    assert_eq!(checkpoint_of(true), Err(QueryError::Cancelled));
    assert_eq!(checkpoint_of(false), Ok(()));
    assert_eq!(checkpoint(&cancelled), Err(QueryError::Cancelled));
    assert_eq!(checkpoint(&free), Ok(()));
}

#[test]
fn a_document_that_gives_no_hit_takes_no_place_of_a_page() {
    let mut db = database(
        Config::new(),
        &[
            document(&[("id", "1"), ("title", "red fox")]),
            document(&[("id", "2"), ("title", "red hen")]),
            document(&[("id", "3"), ("title", "red owl")]),
        ],
    );
    // a document that is added and removed in one batch keeps its postings
    // and has no stored value
    let stop_words = StopWords::new();
    let mut update = db.start_update("default").unwrap();
    let gone = document(&[("id", "4"), ("title", "red ant")]);
    update.update_document(&gone, &stop_words).unwrap();
    update.remove_document(&gone).unwrap();
    db.commit_update("default", update.build()).unwrap();
    // documents with a stored value that is no text, before and after the others
    for id in [0u64, u64::MAX] {
        let mut builder = RawUpdateBuilder::new();
        {
            let mut update = builder.document_update(DocumentId(id)).unwrap();
            update.insert_attribute_value(SchemaAttr(1), &[0xff, 0xfe]).unwrap();
            update
                .insert_doc_index(
                    "red".chars().collect(),
                    DocIndex {
                        document_id: DocumentId(id),
                        attribute: 1,
                        word_index: 0,
                        char_index: 0,
                        char_length: 3,
                    },
                )
                .unwrap();
        }
        db.commit_update("default", builder.build()).unwrap();
    }
    let view = db.view_of("default").unwrap();
    assert_eq!(group(&find_matches(view, &query("red"))).len(), 6);
    let page = |offset: usize, length: usize| -> Vec<QueryResult> {
        let mut q = query("red");
        q.offset = Some(offset);
        q.length = Some(length);
        search("default".to_string(), q, &db).unwrap()
    };
    let all = page(0, 20);
    assert_eq!(all.len(), 3);
    for offset in 0..5usize {
        for length in 0..5usize {
            let whole = page(0, offset + length);
            let from = offset.min(whole.len());
            let to = (offset + length).min(whole.len());
            assert_eq!(page(offset, length), whole[from..to].to_vec());
            let from = offset.min(all.len());
            let to = (offset + length).min(all.len());
            assert_eq!(page(offset, length), all[from..to].to_vec());
        }
    }
    // no name occurs twice among the attributes of a hit
    for hit in &all {
        for (i, a) in hit.hits.iter().enumerate() {
            assert!(hit.hits[..i].iter().all(|b| b.name != a.name));
        }
    }
}
