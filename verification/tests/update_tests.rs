use meilidb::database::Database;
use meilidb::document::{Document, Documents, DocumentsUpdate, Field, FieldValue, TextValue};
use meilidb::document_key::{DocumentKey, DocumentKeyAttr};
use meilidb::number::Number;
use meilidb::ranked_map::{DocumentSet, RankedEntry, RankedMap, RankedMapError};
use meilidb::schema::{Schema, SchemaBuilder, SchemaProps, SerializerError};
use meilidb::state::IndexState;
use meilidb::store::DocumentStore;
use meilidb::tokenizer::StopWords;
use meilidb::types::{DocIndex, DocumentId, SchemaAttr};
use meilidb::update::{
    BatchOp, DocumentUpdate, RawUpdateBuilder, Update, WriteBatch, WriteIndexEvent,
    WriteRankedMapEvent,
};
use meilidb::doc_ids::DocIds;

fn chars(s: &str) -> Vec<char> {
    s.chars().collect()
}

fn props(stored: bool, indexed: bool, ranked: bool) -> SchemaProps {
    SchemaProps { stored, indexed, ranked }
}

fn schema() -> Schema {
    let mut builder = SchemaBuilder::with_identifier("id");
    builder.new_attribute("id", props(true, false, false));
    builder.new_attribute("title", props(true, true, false));
    builder.new_attribute("views", props(false, false, true));
    builder.build().unwrap()
}

fn document(fields: &[(&str, &str)]) -> Document {
    Document(
        fields
            .iter()
            .map(|(name, value)| Field { name: name.to_string(), value: FieldValue::text(value) })
            .collect(),
    )
}

fn key(document: u64, attribute: u16) -> DocumentKeyAttr {
    DocumentKeyAttr::new(DocumentId(document), SchemaAttr(attribute))
}

fn posting(document: u64, word_index: u16, char_index: u16, char_length: u16) -> DocIndex {
    DocIndex { document_id: DocumentId(document), attribute: 1, word_index, char_index, char_length }
}

#[test]
fn document_keys_are_prefix_then_big_endian() {
    let id = DocumentId(0x0102030405060708);
    assert_eq!(DocumentKey::new(id).to_bytes(), b"doc-\x01\x02\x03\x04\x05\x06\x07\x08".to_vec());
    assert_eq!(DocumentKey::new(id).document_id(), id);
    let attr = DocumentKey::new(id).with_attribute(SchemaAttr(0x0a0b));
    assert_eq!(attr.to_bytes(), b"doc-\x01\x02\x03\x04\x05\x06\x07\x08-\x0a\x0b".to_vec());
    assert_eq!(DocumentKey::new(id).with_attribute_min(), key(0x0102030405060708, 0));
    assert_eq!(DocumentKey::new(id).with_attribute_max(), key(0x0102030405060708, 0xffff));
    assert_eq!(attr.document_id(), id);
    assert_eq!(attr.attribute(), SchemaAttr(0x0a0b));
}

#[test]
fn document_keys_read_back_from_their_bytes() {
    for (document, attribute) in [(0u64, 0u16), (1, 2), (u64::MAX, u16::MAX), (0xdeadbeef, 513)] {
        let k = key(document, attribute);
        assert_eq!(DocumentKeyAttr::from_bytes(&k.to_bytes()), Some(k));
    }
    assert_eq!(DocumentKeyAttr::from_bytes(b"doc-"), None);
    assert_eq!(DocumentKeyAttr::from_bytes(b"dox-\x01\x02\x03\x04\x05\x06\x07\x08-\x0a\x0b"), None);
    assert_eq!(DocumentKeyAttr::from_bytes(b"doc-\x01\x02\x03\x04\x05\x06\x07\x08+\x0a\x0b"), None);
    assert_eq!(DocumentKeyAttr::from_bytes(b"doc-\x01\x02\x03\x04\x05\x06\x07\x08-\x0a\x0b\x00"), None);
}

#[test]
fn key_bytes_sort_as_the_keys_do() {
    let keys = [key(1, 0), key(1, 1), key(1, 0xffff), key(2, 0), key(256, 0), key(u64::MAX, 3)];
    for pair in keys.windows(2) {
        assert!(pair[0].to_bytes() < pair[1].to_bytes());
    }
}

#[test]
fn ranked_map_holds_the_last_value_of_a_key() {
    let mut map = RankedMap::new();
    assert_eq!(map.get(DocumentId(1), SchemaAttr(2)), None);
    map.insert(DocumentId(1), SchemaAttr(2), Number::Integer(10));
    map.insert(DocumentId(1), SchemaAttr(3), Number::Integer(11));
    map.insert(DocumentId(1), SchemaAttr(2), Number::Integer(12));
    assert_eq!(map.get(DocumentId(1), SchemaAttr(2)), Some(Number::Integer(12)));
    assert_eq!(map.get(DocumentId(1), SchemaAttr(3)), Some(Number::Integer(11)));
    assert_eq!(map.get(DocumentId(2), SchemaAttr(2)), None);
    assert_eq!(map.keys().len(), 2);
}

#[test]
fn ranked_map_lists_its_entries_in_key_order() {
    let mut map = RankedMap::new();
    map.insert(DocumentId(7), SchemaAttr(1), Number::Integer(1));
    map.insert(DocumentId(2), SchemaAttr(9), Number::Integer(2));
    map.insert(DocumentId(2), SchemaAttr(3), Number::Integer(3));
    let entry = |d: u64, a: u16, n: i64| RankedEntry {
        document: DocumentId(d),
        attribute: SchemaAttr(a),
        number: Number::Integer(n),
    };
    assert_eq!(map.entries(), vec![entry(2, 3, 3), entry(2, 9, 2), entry(7, 1, 1)]);
    let copy = RankedMap::from_entries(&map.entries());
    assert_eq!(copy.entries(), map.entries());
}

#[test]
fn ranked_map_removes_documents_and_takes_updates() {
    let mut map = RankedMap::new();
    map.insert(DocumentId(1), SchemaAttr(0), Number::Integer(1));
    map.insert(DocumentId(2), SchemaAttr(0), Number::Integer(2));
    map.insert(DocumentId(3), SchemaAttr(0), Number::Integer(3));
    map.remove_documents(&DocIds::new(&vec![DocumentId(2), DocumentId(9)]));
    assert_eq!(map.get(DocumentId(2), SchemaAttr(0)), None);
    assert_eq!(map.get(DocumentId(1), SchemaAttr(0)), Some(Number::Integer(1)));
    let mut other = RankedMap::new();
    other.insert(DocumentId(3), SchemaAttr(0), Number::Integer(30));
    other.insert(DocumentId(4), SchemaAttr(1), Number::Integer(40));
    map.update_with(&other);
    assert_eq!(map.get(DocumentId(3), SchemaAttr(0)), Some(Number::Integer(30)));
    assert_eq!(map.get(DocumentId(4), SchemaAttr(1)), Some(Number::Integer(40)));
    assert_eq!(map.get(DocumentId(1), SchemaAttr(0)), Some(Number::Integer(1)));
    assert_eq!(map.entries().len(), 3);
}

#[test]
fn document_set_gives_its_documents_in_ascending_order() {
    let mut set = DocumentSet::new();
    set.insert(DocumentId(9));
    set.insert(DocumentId(3));
    set.insert(DocumentId(9));
    set.insert(DocumentId(5));
    assert_eq!(set.to_doc_ids().to_vec(), vec![DocumentId(3), DocumentId(5), DocumentId(9)]);
}

#[test]
fn store_keeps_the_last_write_and_deletes_ranges() {
    let mut store = DocumentStore::new();
    store.put(key(1, 0), b"a".to_vec());
    store.put(key(1, 1), b"b".to_vec());
    store.put(key(2, 0), b"c".to_vec());
    store.put(key(1, 1), b"d".to_vec());
    assert_eq!(store.get(key(1, 1)), Some(&b"d".to_vec()));
    assert_eq!(store.get(key(1, 2)), None);
    store.delete_range(key(1, 0), key(1, 0xffff));
    assert_eq!(store.get(key(1, 0)), None);
    assert_eq!(store.get(key(1, 1)), None);
    assert_eq!(store.get(key(2, 0)), Some(&b"c".to_vec()));
    // a range holds both its ends
    store.put(key(1, 0xffff), b"e".to_vec());
    store.put(key(1, 3), b"f".to_vec());
    store.delete_range(key(1, 0), key(1, 0xffff));
    assert_eq!(store.get(key(1, 0xffff)), None);
    assert_eq!(store.get(key(1, 3)), None);
    assert_eq!(store.get(key(2, 0)), Some(&b"c".to_vec()));
    store.delete_range(key(2, 0), key(2, 0));
    assert_eq!(store.get(key(2, 0)), None);
}

#[test]
fn a_new_document_update_stages_the_range_delete() {
    let mut builder = RawUpdateBuilder::new();
    {
        let update = DocumentUpdate::new(DocumentId(9), &mut builder).unwrap();
        assert_eq!(update.document_id, DocumentId(9));
    }
    {
        let mut update = DocumentUpdate::new(DocumentId(4), &mut builder).unwrap();
        update.remove().unwrap();
    }
    let ops = builder.build().into_ops();
    // the two deletions, and the four operations that close a batch; only
    // the document that was removed counts as touched
    assert_eq!(ops.len(), 6);
    assert!(matches!(&ops[0], BatchOp::DeleteRange(s, e) if *s == key(9, 0) && *e == key(9, 0xffff)));
    assert!(matches!(&ops[1], BatchOp::DeleteRange(s, e) if *s == key(4, 0) && *e == key(4, 0xffff)));
    assert!(matches!(&ops[2], BatchOp::MergeIndex(WriteIndexEvent::RemovedDocuments(ids))
        if ids.to_vec() == vec![DocumentId(4)]));
    assert!(matches!(&ops[4], BatchOp::MergeRankedMap(WriteRankedMapEvent::RemovedDocuments(ids))
        if ids.to_vec() == vec![DocumentId(4)]));
}

#[test]
fn reindexing_deletes_the_last_attribute_too() {
    let mut state = IndexState::new();
    let mut seed = WriteBatch::new();
    seed.push(BatchOp::Put(key(5, 0xffff), b"last".to_vec()));
    seed.push(BatchOp::Put(key(5, 0), b"first".to_vec()));
    seed.push(BatchOp::Put(key(6, 0), b"other".to_vec()));
    state.apply(seed);
    let mut builder = RawUpdateBuilder::new();
    {
        let mut update = builder.document_update(DocumentId(5)).unwrap();
        update.insert_attribute_value(SchemaAttr(1), b"new").unwrap();
    }
    state.apply(builder.build());
    assert_eq!(state.documents().get(key(5, 0xffff)), None);
    assert_eq!(state.documents().get(key(5, 0)), None);
    assert_eq!(state.documents().get(key(5, 1)), Some(&b"new".to_vec()));
    assert_eq!(state.documents().get(key(6, 0)), Some(&b"other".to_vec()));
}

fn described(op: &BatchOp) -> String {
    match op {
        BatchOp::Put(key, value) => format!("put {:?} {:?}", key.to_bytes(), value),
        BatchOp::DeleteRange(start, end) => {
            format!("delete {:?} {:?}", start.to_bytes(), end.to_bytes())
        },
        BatchOp::MergeIndex(WriteIndexEvent::RemovedDocuments(ids)) => {
            format!("index without {:?}", ids.to_vec())
        },
        BatchOp::MergeIndex(WriteIndexEvent::UpdatedDocuments(index)) => {
            let words: Vec<(Vec<char>, Vec<DocIndex>)> =
                (0..index.len()).map(|i| (index.word(i).clone(), index.postings(i).clone())).collect();
            format!("index with {:?}", words)
        },
        BatchOp::MergeRankedMap(WriteRankedMapEvent::RemovedDocuments(ids)) => {
            format!("ranked without {:?}", ids.to_vec())
        },
        BatchOp::MergeRankedMap(WriteRankedMapEvent::UpdatedDocuments(map)) => {
            format!("ranked with {:?}", map.entries())
        },
    }
}

#[test]
fn a_refused_document_leaves_the_update_as_it_was() {
    let stop_words = StopWords::new();
    let ops_of = |documents: &[Document]| -> Vec<String> {
        let mut update = Update::new(schema());
        for document in documents {
            let _ = update.update_document(document, &stop_words);
        }
        update.build().into_ops().iter().map(described).collect()
    };
    let good = document(&[("id", "2"), ("title", "red fox"), ("views", "5")]);
    // the title is stored and indexed before the ranked value is refused
    let float = Document(vec![
        Field { name: "id".to_string(), value: FieldValue::text("3") },
        Field { name: "title".to_string(), value: FieldValue::text("blue hen") },
        Field {
            name: "views".to_string(),
            value: FieldValue::Text(TextValue { text: "2.5".to_string(), float_bits: Some(2.5f64.to_bits()) }),
        },
    ]);
    let nested = Document(vec![
        Field { name: "id".to_string(), value: FieldValue::text("1") },
        Field { name: "title".to_string(), value: FieldValue::text("grey owl") },
        Field { name: "title".to_string(), value: FieldValue::Composite },
    ]);
    let alone = ops_of(&[good.clone()]);
    assert_eq!(alone.len(), 7);
    assert_eq!(ops_of(&[good.clone(), float.clone()]), alone);
    assert_eq!(ops_of(&[good.clone(), nested.clone()]), alone);
    assert_eq!(ops_of(&[good.clone(), document(&[("title", "no id")])]), alone);
    assert_eq!(ops_of(&[nested, float.clone(), good.clone()]).len(), 7);
    // alone, the document with the float is taken
    assert_eq!(ops_of(&[float]).len(), 7);
}

#[test]
fn ranked_kinds_hold_from_one_update_to_the_next() {
    let stop_words = StopWords::new();
    let float = |id: &str| Document(vec![
        Field { name: "id".to_string(), value: FieldValue::text(id) },
        Field {
            name: "views".to_string(),
            value: FieldValue::Text(TextValue { text: "2.5".to_string(), float_bits: Some(2.5f64.to_bits()) }),
        },
    ]);
    let mut db = Database::new();
    db.create_index("default", schema()).unwrap();
    let mut update = db.start_update("default").unwrap();
    update.update_document(&document(&[("id", "1"), ("views", "5")]), &stop_words).unwrap();
    db.commit_update("default", update.build()).unwrap();

    let mut update = db.start_update("default").unwrap();
    assert_eq!(update.update_document(&float("2"), &stop_words), Err(SerializerError::RankedTypeMismatch));
    assert!(update.update_document(&document(&[("id", "3"), ("views", "7")]), &stop_words).is_ok());
    db.commit_update("default", update.build()).unwrap();
    let ranked = db.view_of("default").unwrap().ranked_map();
    assert_eq!(ranked.entries().len(), 2);

    // an update that starts from nothing knows no kind
    let mut update = Update::new(schema());
    assert!(update.update_document(&float("2"), &stop_words).is_ok());
    // one that starts from the ranked map knows those of the map
    let mut update = Update::starting_from(schema(), ranked);
    assert_eq!(update.update_document(&float("2"), &stop_words), Err(SerializerError::RankedTypeMismatch));
    let mut builder = RawUpdateBuilder::with_kinds(vec![(2, false)]);
    let mut update = builder.document_update(DocumentId(1)).unwrap();
    assert_eq!(
        update.register_ranked_attribute(SchemaAttr(2), Number::Integer(3)),
        Err(SerializerError::RankedTypeMismatch)
    );
    assert_eq!(update.register_ranked_attribute(SchemaAttr(2), Number::Float(1.5f64.to_bits())), Ok(()));

    // the request that the database carries out itself is held to them too
    let request = DocumentsUpdate { insert: Some(Documents(vec![float("4")])), delete: None };
    assert_eq!(db.update_documents("default", &request), Ok((1, 0)));
    assert_eq!(db.view_of("default").unwrap().ranked_map().entries().len(), 2);
}

#[test]
fn opening_a_document_stages_the_deletion_of_its_keys() {
    let mut builder = RawUpdateBuilder::new();
    {
        let mut update = builder.document_update(DocumentId(7)).unwrap();
        assert_eq!(update.document_id, DocumentId(7));
        update.insert_attribute_value(SchemaAttr(1), b"hello").unwrap();
        update.insert_doc_index(chars("hello"), posting(7, 0, 0, 5)).unwrap();
        update.register_ranked_attribute(SchemaAttr(2), Number::Integer(3)).unwrap();
        update.remove().unwrap();
    }
    let ops = builder.build().into_ops();
    assert_eq!(ops.len(), 6);
    assert!(matches!(&ops[0], BatchOp::DeleteRange(s, e) if *s == key(7, 0) && *e == key(7, 0xffff)));
    assert!(matches!(&ops[1], BatchOp::Put(k, v) if *k == key(7, 1) && v == &b"hello".to_vec()));
    assert!(matches!(&ops[2], BatchOp::MergeIndex(WriteIndexEvent::RemovedDocuments(ids))
        if ids.to_vec() == vec![DocumentId(7)]));
    assert!(matches!(&ops[3], BatchOp::MergeIndex(WriteIndexEvent::UpdatedDocuments(index))
        if index.lookup(&chars("hello")) == Some(&vec![posting(7, 0, 0, 5)])));
    assert!(matches!(&ops[4], BatchOp::MergeRankedMap(WriteRankedMapEvent::RemovedDocuments(ids))
        if ids.to_vec() == vec![DocumentId(7)]));
    assert!(matches!(&ops[5], BatchOp::MergeRankedMap(WriteRankedMapEvent::UpdatedDocuments(map))
        if map.get(DocumentId(7), SchemaAttr(2)) == Some(Number::Integer(3))));
}

#[test]
fn words_are_flushed_in_dictionary_order_with_sorted_postings() {
    let mut builder = RawUpdateBuilder::new();
    {
        let mut update = builder.document_update(DocumentId(1)).unwrap();
        update.insert_doc_index(chars("zebra"), posting(1, 2, 12, 5)).unwrap();
        update.insert_doc_index(chars("apple"), posting(1, 1, 6, 5)).unwrap();
        update.insert_doc_index(chars("apple"), posting(1, 0, 0, 5)).unwrap();
        update.insert_doc_index(chars("apple"), posting(1, 1, 6, 5)).unwrap();
        // a word that is empty or too long is not taken
        update.insert_doc_index(chars(""), posting(1, 3, 0, 0)).unwrap();
        update.insert_doc_index(std::iter::repeat('x').take(65).collect(), posting(1, 4, 0, 65)).unwrap();
    }
    let ops = builder.build().into_ops();
    match &ops[2] {
        BatchOp::MergeIndex(WriteIndexEvent::UpdatedDocuments(index)) => {
            assert_eq!(index.len(), 2);
            assert_eq!(index.word(0), &chars("apple"));
            assert_eq!(index.postings(0), &vec![posting(1, 0, 0, 5), posting(1, 1, 6, 5)]);
            assert_eq!(index.word(1), &chars("zebra"));
        },
        _ => panic!("the third operation merges the postings"),
    }
}

#[test]
fn ranked_values_of_one_attribute_must_be_of_one_kind() {
    let mut builder = RawUpdateBuilder::new();
    let mut update = builder.document_update(DocumentId(1)).unwrap();
    assert_eq!(update.register_ranked_attribute(SchemaAttr(2), Number::Integer(3)), Ok(()));
    assert_eq!(
        update.register_ranked_attribute(SchemaAttr(2), Number::Float(1.5f64.to_bits())),
        Err(SerializerError::RankedTypeMismatch)
    );
    assert_eq!(
        update.register_ranked_attribute(SchemaAttr(3), Number::Float(1.5f64.to_bits())),
        Ok(())
    );
    assert_eq!(update.register_ranked_attribute(SchemaAttr(2), Number::Integer(4)), Ok(()));
}

#[test]
fn update_stores_indexes_and_ranks_as_the_schema_says() {
    let mut update = Update::new(schema());
    let doc = Document(vec![
        Field { name: "title".to_string(), value: FieldValue::text("Hello World") },
        Field { name: "unknown".to_string(), value: FieldValue::Composite },
        Field { name: "id".to_string(), value: FieldValue::Integer(12) },
        Field { name: "views".to_string(), value: FieldValue::text("31") },
    ]);
    let id = update.update_document(&doc, &StopWords::new()).unwrap();
    assert_eq!(id, DocumentId(meilidb::siphash::hash(b"12")));
    let ops = update.build().into_ops();
    assert_eq!(ops.len(), 7);
    assert!(matches!(&ops[0], BatchOp::DeleteRange(s, _) if s.document == id));
    assert!(matches!(&ops[1], BatchOp::Put(k, v)
        if k.attribute == SchemaAttr(1) && v == &b"Hello World".to_vec()));
    assert!(matches!(&ops[2], BatchOp::Put(k, v) if k.attribute == SchemaAttr(0) && v == &b"12".to_vec()));
    match &ops[4] {
        BatchOp::MergeIndex(WriteIndexEvent::UpdatedDocuments(index)) => {
            assert_eq!(index.len(), 2);
            assert_eq!(
                index.lookup(&chars("hello")),
                Some(&vec![DocIndex {
                    document_id: id,
                    attribute: 1,
                    word_index: 0,
                    char_index: 0,
                    char_length: 5
                }])
            );
            assert_eq!(
                index.lookup(&chars("world")),
                Some(&vec![DocIndex {
                    document_id: id,
                    attribute: 1,
                    word_index: 1,
                    char_index: 6,
                    char_length: 5
                }])
            );
        },
        _ => panic!("the fifth operation merges the postings"),
    }
    assert!(matches!(&ops[6], BatchOp::MergeRankedMap(WriteRankedMapEvent::UpdatedDocuments(map))
        if map.get(id, SchemaAttr(2)) == Some(Number::Integer(31))));
}

#[test]
fn documents_that_are_refused() {
    let mut update = Update::new(schema());
    let stop_words = StopWords::new();
    assert_eq!(
        update.update_document(&document(&[("title", "no id")]), &stop_words),
        Err(SerializerError::MissingIdentifier)
    );
    let nested = Document(vec![
        Field { name: "id".to_string(), value: FieldValue::text("1") },
        Field { name: "title".to_string(), value: FieldValue::Composite },
    ]);
    assert_eq!(update.update_document(&nested, &stop_words), Err(SerializerError::UnsupportedType));
    assert_eq!(update.update_document(&document(&[("id", "2"), ("views", "5")]), &stop_words).is_ok(), true);
    let float = Document(vec![
        Field { name: "id".to_string(), value: FieldValue::text("3") },
        Field {
            name: "views".to_string(),
            value: FieldValue::Text(TextValue { text: "2.5".to_string(), float_bits: Some(2.5f64.to_bits()) }),
        },
    ]);
    assert_eq!(update.update_document(&float, &stop_words), Err(SerializerError::RankedTypeMismatch));
    // a ranked value that is no number is passed over
    assert!(update.update_document(&document(&[("id", "4"), ("views", "many")]), &stop_words).is_ok());
    assert_eq!(
        update.remove_document(&document(&[("title", "no id")])),
        Err(SerializerError::MissingIdentifier)
    );
}

#[test]
fn batches_apply_in_the_order_of_their_operations() {
    let mut state = IndexState::new();
    let mut update = Update::new(schema());
    let stop_words = StopWords::new();
    let a = update.update_document(&document(&[("id", "a"), ("title", "red fox"), ("views", "3")]), &stop_words).unwrap();
    let b = update.update_document(&document(&[("id", "b"), ("title", "red hen")]), &stop_words).unwrap();
    state.apply(update.build());
    assert_eq!(state.index().len(), 3);
    assert_eq!(state.index().lookup(&chars("red")).map(|p| p.len()), Some(2));
    assert_eq!(state.ranked_map().get(a, SchemaAttr(2)), Some(Number::Integer(3)));
    assert_eq!(state.documents().get(DocumentKeyAttr::new(b, SchemaAttr(1))), Some(&b"red hen".to_vec()));

    // re-indexing a document replaces what the index held of it
    let mut update = Update::new(schema());
    update.update_document(&document(&[("id", "a"), ("title", "blue fox")]), &stop_words).unwrap();
    state.apply(update.build());
    assert_eq!(state.index().lookup(&chars("red")).map(|p| p.len()), Some(1));
    assert_eq!(state.index().lookup(&chars("blue")).map(|p| p.len()), Some(1));
    assert_eq!(state.index().lookup(&chars("fox")).map(|p| p.len()), Some(1));
    assert_eq!(state.ranked_map().get(a, SchemaAttr(2)), None);
    assert_eq!(state.documents().get(DocumentKeyAttr::new(a, SchemaAttr(1))), Some(&b"blue fox".to_vec()));
}

#[test]
fn committing_a_batch_twice_changes_nothing() {
    let build = || {
        let mut update = Update::new(schema());
        let stop_words = StopWords::new();
        update.update_document(&document(&[("id", "a"), ("title", "red fox"), ("views", "3")]), &stop_words).unwrap();
        update.update_document(&document(&[("id", "b"), ("title", "red hen"), ("views", "4")]), &stop_words).unwrap();
        update.build()
    };
    let mut once = IndexState::new();
    let mut seed = Update::new(schema());
    seed.update_document(&document(&[("id", "z"), ("title", "old red owl"), ("views", "1")]), &StopWords::new()).unwrap();
    once.apply(seed.build());
    once.apply(build());
    let words: Vec<(Vec<char>, Vec<DocIndex>)> =
        (0..once.index().len()).map(|i| (once.index().word(i).clone(), once.index().postings(i).clone())).collect();
    let ranked = once.ranked_map().entries();
    once.apply(build());
    let again: Vec<(Vec<char>, Vec<DocIndex>)> =
        (0..once.index().len()).map(|i| (once.index().word(i).clone(), once.index().postings(i).clone())).collect();
    assert_eq!(words, again);
    assert_eq!(ranked, once.ranked_map().entries());
    assert_eq!(ranked.len(), 3);
}

#[test]
fn a_removed_document_leaves_no_posting() {
    let mut state = IndexState::new();
    let stop_words = StopWords::new();
    let doc = document(&[("id", "a"), ("title", "red fox"), ("views", "3")]);
    let mut update = Update::new(schema());
    let id = update.update_document(&doc, &stop_words).unwrap();
    update.update_document(&document(&[("id", "b"), ("title", "red hen")]), &stop_words).unwrap();
    state.apply(update.build());
    let mut update = Update::new(schema());
    assert_eq!(update.remove_document(&doc), Ok(id));
    state.apply(update.build());
    for i in 0..state.index().len() {
        assert!(state.index().postings(i).iter().all(|p| p.document_id != id));
    }
    assert_eq!(state.index().lookup(&chars("fox")), None);
    assert_eq!(state.ranked_map().get(id, SchemaAttr(2)), None);
    assert_eq!(state.documents().get(DocumentKeyAttr::new(id, SchemaAttr(0))), None);
}

#[test]
fn write_batch_keeps_its_operations_in_order() {
    let mut batch = WriteBatch::new();
    assert_eq!(batch.len(), 0);
    batch.push(BatchOp::Put(key(1, 0), b"x".to_vec()));
    batch.push(BatchOp::DeleteRange(key(1, 0), key(1, 9)));
    assert_eq!(batch.len(), 2);
    assert!(matches!(batch.get(0), BatchOp::Put(..)));
    assert!(matches!(batch.get(1), BatchOp::DeleteRange(..)));
}

#[test]
fn database_updates_documents_in_one_batch() {
    let mut db = Database::new();
    db.create_index("books", schema()).unwrap();
    let request = DocumentsUpdate {
        insert: Some(Documents(vec![
            document(&[("id", "a"), ("title", "red fox")]),
            document(&[("title", "no id")]),
            document(&[("id", "b"), ("title", "red hen")]),
        ])),
        delete: Some(Documents(vec![document(&[("id", "b")]), document(&[("x", "y")])])),
    };
    assert_eq!(db.update_documents("books", &request), Ok((1, 1)));
    assert_eq!(
        db.update_documents("nope", &request),
        Err(meilidb::database::DatabaseError::UnknownIndex)
    );
    let view = db.view_of("books").unwrap();
    assert_eq!(view.index().lookup(&chars("fox")).map(|p| p.len()), Some(1));
}

#[test]
fn a_ranked_map_is_read_back_from_its_bytes() {
    let mut map = RankedMap::new();
    map.insert(DocumentId(7), SchemaAttr(1), Number::Integer(-3));
    map.insert(DocumentId(2), SchemaAttr(9), Number::Float(2.5f64.to_bits()));
    map.insert(DocumentId(2), SchemaAttr(3), Number::Integer(i64::MAX));
    let bytes = map.write_to_bin().unwrap();
    let read = RankedMap::read_from_bin(&bytes).unwrap();
    assert_eq!(read.entries(), map.entries());
    assert_eq!(
        map.to_parts(),
        (vec![(2, 3, i64::MAX), (7, 1, -3)], vec![(2, 9, 2.5f64.to_bits())])
    );
    let empty = RankedMap::new().write_to_bin().unwrap();
    assert_eq!(RankedMap::read_from_bin(&empty).unwrap().entries().len(), 0);
    assert_eq!(RankedMap::read_from_bin(&bytes[..bytes.len() - 1]).err(), Some(RankedMapError::Bincode));
    assert_eq!(RankedMap::read_from_bin(&[]).err(), Some(RankedMapError::Bincode));
}

#[test]
fn a_ranked_map_is_written_as_two_lists_least_significant_byte_first() {
    let mut map = RankedMap::new();
    map.insert(DocumentId(0x0102), SchemaAttr(0x0304), Number::Integer(-2));
    map.insert(DocumentId(5), SchemaAttr(6), Number::Float(1.0f64.to_bits()));
    let bytes = map.write_to_bin().unwrap();
    let mut expected: Vec<u8> = Vec::new();
    expected.extend_from_slice(&[1, 0, 0, 0, 0, 0, 0, 0]);
    expected.extend_from_slice(&[0x02, 0x01, 0, 0, 0, 0, 0, 0]);
    expected.extend_from_slice(&[0x04, 0x03]);
    expected.extend_from_slice(&[0xfe, 0xff, 0xff, 0xff, 0xff, 0xff, 0xff, 0xff]);
    expected.extend_from_slice(&[1, 0, 0, 0, 0, 0, 0, 0]);
    expected.extend_from_slice(&[5, 0, 0, 0, 0, 0, 0, 0]);
    expected.extend_from_slice(&[6, 0]);
    expected.extend_from_slice(&[0, 0, 0, 0, 0, 0, 0xf0, 0x3f]);
    assert_eq!(bytes, expected);
    assert_eq!(RankedMap::new().write_to_bin().unwrap(), vec![0u8; 16]);
    // bytes that follow the two lists are left unread
    let mut longer = bytes.clone();
    longer.extend_from_slice(&[9, 9, 9]);
    assert_eq!(RankedMap::read_from_bin(&longer).unwrap().entries(), map.entries());
    // a list that is longer than the bytes is refused
    let mut short = vec![0u8; 16];
    short[8] = 1;
    assert_eq!(RankedMap::read_from_bin(&short).err(), Some(RankedMapError::Bincode));
    // a float that is not finite is refused
    let mut infinite = expected.clone();
    let n = infinite.len();
    infinite[n - 8..].copy_from_slice(&f64::INFINITY.to_bits().to_le_bytes());
    assert_eq!(RankedMap::read_from_bin(&infinite).err(), Some(RankedMapError::NotFinite));
}

#[test]
fn a_ranked_map_takes_no_float_that_is_not_finite() {
    let map = RankedMap::from_parts(&vec![(1, 0, 5), (1, 1, 6)], &vec![(1, 1, 0.5f64.to_bits())]).unwrap();
    assert_eq!(map.get(DocumentId(1), SchemaAttr(0)), Some(Number::Integer(5)));
    assert_eq!(map.get(DocumentId(1), SchemaAttr(1)), Some(Number::Float(0.5f64.to_bits())));
    assert_eq!(
        RankedMap::from_parts(&vec![], &vec![(1, 1, f64::NAN.to_bits())]).err(),
        Some(RankedMapError::NotFinite)
    );
    assert_eq!(
        RankedMap::from_parts(&vec![], &vec![(1, 1, f64::INFINITY.to_bits())]).err(),
        Some(RankedMapError::NotFinite)
    );
}

#[test]
fn a_commit_leaves_the_stored_values_of_other_documents_alone() {
    let stop_words = StopWords::new();
    let mut state = IndexState::new();
    let mut update = Update::new(schema());
    let a = update.update_document(&document(&[("id", "a"), ("title", "red fox")]), &stop_words).unwrap();
    let b = update.update_document(&document(&[("id", "b"), ("title", "red hen")]), &stop_words).unwrap();
    state.apply(update.build());
    let mut update = Update::new(schema());
    update.update_document(&document(&[("id", "a"), ("title", "blue fox")]), &stop_words).unwrap();
    let c = update.update_document(&document(&[("id", "c"), ("title", "grey owl")]), &stop_words).unwrap();
    update.remove_document(&document(&[("id", "c")])).unwrap();
    state.apply(update.build());
    assert_eq!(state.documents().get(DocumentKeyAttr::new(b, SchemaAttr(0))), Some(&b"b".to_vec()));
    assert_eq!(state.documents().get(DocumentKeyAttr::new(b, SchemaAttr(1))), Some(&b"red hen".to_vec()));
    assert_eq!(state.documents().get(DocumentKeyAttr::new(a, SchemaAttr(1))), Some(&b"blue fox".to_vec()));
    assert_eq!(state.documents().get(DocumentKeyAttr::new(c, SchemaAttr(0))), None);
    assert_eq!(state.documents().get(DocumentKeyAttr::new(c, SchemaAttr(1))), None);
}

#[test]
fn of_the_fields_of_one_name_the_last_value_stays() {
    let stop_words = StopWords::new();
    let mut state = IndexState::new();
    let mut update = Update::new(schema());
    let id = update
        .update_document(
            &document(&[("id", "a"), ("title", "red fox"), ("views", "3"), ("title", "blue hen"), ("views", "4")]),
            &stop_words,
        )
        .unwrap();
    state.apply(update.build());
    assert_eq!(state.documents().get(DocumentKeyAttr::new(id, SchemaAttr(1))), Some(&b"blue hen".to_vec()));
    assert_eq!(state.ranked_map().get(id, SchemaAttr(2)), Some(Number::Integer(4)));
    assert_eq!(state.index().lookup(&chars("red")).map(|p| p.len()), Some(1));
    assert_eq!(state.index().lookup(&chars("blue")).map(|p| p.len()), Some(1));
}
