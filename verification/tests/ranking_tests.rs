use meilidb::criterion::{criterion_score, matches_score, Criterion, DocumentMatch, Match};
use meilidb::number::Number;
use meilidb::rank::rank_documents;
use meilidb::ranked_map::RankedMap;
use meilidb::types::{DocumentId, SchemaAttr};

fn found(query_index: u32, distance: u8, attribute: u16, word_index: u16, is_exact: bool) -> Match {
    Match {
        query_index,
        distance,
        attribute,
        word_index,
        is_exact,
        char_index: word_index * 4,
        char_length: 3,
    }
}

fn doc(id: u64, matches: Vec<Match>) -> DocumentMatch {
    DocumentMatch { id: DocumentId(id), matches }
}

fn ids(documents: &[DocumentMatch]) -> Vec<u64> {
    documents.iter().map(|d| d.id.0).collect()
}

#[test]
fn sum_of_typos_takes_the_least_distance_of_each_query_word() {
    let ms = vec![
        found(0, 1, 0, 0, false),
        found(0, 0, 0, 3, true),
        found(1, 2, 0, 1, false),
        found(1, 2, 1, 1, false),
    ];
    assert_eq!(matches_score(Criterion::SumOfTypos, &ms), 2);
    assert_eq!(matches_score(Criterion::SumOfTypos, &vec![]), 0);
    assert_eq!(matches_score(Criterion::SumOfTypos, &vec![found(3, 2, 0, 0, false)]), 2);
}

#[test]
fn number_of_words_counts_the_query_words_matched() {
    let ms = vec![found(0, 0, 0, 0, true), found(2, 0, 0, 1, true), found(0, 1, 0, 2, false)];
    assert_eq!(matches_score(Criterion::NumberOfWords, &ms), -2);
    assert_eq!(matches_score(Criterion::NumberOfWords, &vec![]), 0);
}

#[test]
fn words_proximity_squares_the_least_gap() {
    // adjacent words: gap one
    let near = vec![found(0, 0, 0, 0, true), found(1, 0, 0, 1, true)];
    assert_eq!(matches_score(Criterion::WordsProximity, &near), 1);
    // the least gap of the occurrences counts: gaps three and one
    let some = vec![found(0, 0, 0, 0, true), found(1, 0, 0, 3, true), found(1, 0, 0, 1, true)];
    assert_eq!(matches_score(Criterion::WordsProximity, &some), 1);
    // gap five
    let far = vec![found(0, 0, 0, 7, true), found(1, 0, 0, 2, true)];
    assert_eq!(matches_score(Criterion::WordsProximity, &far), 25);
    // a gap of eight or more counts as eight
    let wide = vec![found(0, 0, 0, 0, true), found(1, 0, 0, 30, true)];
    assert_eq!(matches_score(Criterion::WordsProximity, &wide), 64);
    // different attributes
    let apart = vec![found(0, 0, 0, 0, true), found(1, 0, 1, 1, true)];
    assert_eq!(matches_score(Criterion::WordsProximity, &apart), 64);
    // three query words: two pairs
    let three = vec![found(0, 0, 0, 0, true), found(1, 0, 0, 2, true), found(2, 0, 0, 3, true)];
    assert_eq!(matches_score(Criterion::WordsProximity, &three), 4 + 1);
    // query words that do not follow each other make no pair
    let skipped = vec![found(0, 0, 0, 0, true), found(2, 0, 0, 1, true)];
    assert_eq!(matches_score(Criterion::WordsProximity, &skipped), 0);
    assert_eq!(matches_score(Criterion::WordsProximity, &vec![found(0, 0, 0, 0, true)]), 0);
}

#[test]
fn sums_of_attributes_and_positions() {
    let ms = vec![found(0, 0, 2, 5, true), found(1, 0, 3, 7, true), found(1, 1, 0, 1, false)];
    assert_eq!(matches_score(Criterion::SumOfWordsAttribute, &ms), 5);
    assert_eq!(matches_score(Criterion::SumOfWordsPosition, &ms), 13);
}

#[test]
fn exact_counts_exact_matches_at_the_start() {
    let ms = vec![
        found(0, 0, 0, 0, true),
        found(1, 0, 1, 0, true),
        found(1, 0, 1, 2, true),
        found(2, 0, 2, 0, false),
    ];
    assert_eq!(matches_score(Criterion::Exact, &ms), -2);
}

#[test]
fn sort_by_attribute_reads_the_ranked_map() {
    let mut ranked = RankedMap::new();
    ranked.insert(DocumentId(1), SchemaAttr(4), Number::Integer(10));
    let asc = Criterion::SortByAttr { attribute: SchemaAttr(4), ascending: true };
    let dsc = Criterion::SortByAttr { attribute: SchemaAttr(4), ascending: false };
    assert_eq!(criterion_score(asc, &doc(1, vec![]), &ranked), 10);
    assert_eq!(criterion_score(dsc, &doc(1, vec![]), &ranked), -10);
    assert_eq!(criterion_score(asc, &doc(2, vec![]), &ranked), 1i128 << 67);
    assert_eq!(criterion_score(dsc, &doc(2, vec![]), &ranked), 1i128 << 67);
    assert_eq!(criterion_score(Criterion::DocumentId, &doc(77, vec![]), &ranked), 77);
    assert_eq!(
        criterion_score(Criterion::SumOfTypos, &doc(1, vec![found(0, 2, 0, 0, false)]), &ranked),
        2
    );
}

#[test]
fn documents_are_ranked_by_the_first_criterion_that_tells_them_apart() {
    let documents = vec![
        doc(4, vec![found(0, 1, 0, 0, false)]),
        doc(3, vec![found(0, 0, 0, 0, true)]),
        doc(2, vec![found(0, 0, 0, 0, true), found(1, 0, 0, 1, true)]),
        doc(1, vec![found(0, 0, 0, 0, true)]),
    ];
    let ranked_map = RankedMap::new();
    let pipeline = vec![Criterion::SumOfTypos, Criterion::NumberOfWords, Criterion::DocumentId];
    assert_eq!(ids(&rank_documents(&documents, &pipeline, &ranked_map)), vec![2, 1, 3, 4]);
    let pipeline = vec![Criterion::NumberOfWords];
    assert_eq!(ids(&rank_documents(&documents, &pipeline, &ranked_map)), vec![2, 1, 3, 4]);
    assert_eq!(ids(&rank_documents(&documents, &vec![], &ranked_map)), vec![1, 2, 3, 4]);
    assert_eq!(ids(&rank_documents(&vec![], &pipeline, &ranked_map)), Vec::<u64>::new());
    let sorted = rank_documents(&documents, &vec![], &ranked_map);
    assert_eq!(sorted[1].matches, documents[2].matches);
}

#[test]
fn documents_without_ranked_value_come_last() {
    let documents = vec![doc(1, vec![]), doc(2, vec![]), doc(3, vec![]), doc(4, vec![])];
    let mut ranked_map = RankedMap::new();
    ranked_map.insert(DocumentId(2), SchemaAttr(0), Number::Integer(5));
    ranked_map.insert(DocumentId(3), SchemaAttr(0), Number::Integer(-5));
    ranked_map.insert(DocumentId(4), SchemaAttr(0), Number::Float(0.5f64.to_bits()));
    let asc = vec![Criterion::SortByAttr { attribute: SchemaAttr(0), ascending: true }];
    assert_eq!(ids(&rank_documents(&documents, &asc, &ranked_map)), vec![3, 2, 4, 1]);
    let dsc = vec![Criterion::SortByAttr { attribute: SchemaAttr(0), ascending: false }];
    assert_eq!(ids(&rank_documents(&documents, &dsc, &ranked_map)), vec![4, 2, 3, 1]);
}

#[test]
fn ranking_many_documents_is_a_sorted_rearrangement() {
    let mut documents = Vec::new();
    let mut seed: u64 = 12345;
    for _ in 0..500 {
        seed = seed.wrapping_mul(6364136223846793005).wrapping_add(1442695040888963407);
        let id = seed >> 20;
        let distance = (seed % 3) as u8;
        documents.push(doc(id, vec![found(0, distance, (seed % 5) as u16, (seed % 7) as u16, distance == 0)]));
    }
    let pipeline = vec![Criterion::SumOfTypos, Criterion::SumOfWordsAttribute];
    let ranked_map = RankedMap::new();
    let sorted = rank_documents(&documents, &pipeline, &ranked_map);
    assert_eq!(sorted.len(), documents.len());
    let key = |d: &DocumentMatch| (d.matches[0].distance, d.matches[0].attribute, d.id.0);
    for pair in sorted.windows(2) {
        assert!(key(&pair[0]) <= key(&pair[1]));
    }
    let mut a = ids(&documents);
    let mut b = ids(&sorted);
    a.sort();
    b.sort();
    assert_eq!(a, b);
}
