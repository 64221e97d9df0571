use meilidb::doc_ids::DocIds;
use meilidb::index::{Found, Index, IndexBuilder, IndexError};
use meilidb::sorted::{position, sort_dedup, union, Keyed};
use meilidb::types::{DocIndex, DocumentId};

fn chars(s: &str) -> Vec<char> {
    s.chars().collect()
}

fn posting(document: u64, attribute: u16, word_index: u16) -> DocIndex {
    DocIndex {
        document_id: DocumentId(document),
        attribute,
        word_index,
        char_index: word_index * 6,
        char_length: 5,
    }
}

fn index_of(entries: &[(&str, Vec<DocIndex>)]) -> Index {
    let mut builder = IndexBuilder::new();
    for (word, postings) in entries {
        builder.insert(chars(word), postings).unwrap();
    }
    builder.build()
}

fn ids(values: &[u64]) -> DocIds {
    DocIds::new(&values.iter().map(|v| DocumentId(*v)).collect())
}

#[test]
fn sort_dedup_orders_and_drops_repetitions() {
    let v = vec![DocumentId(5), DocumentId(1), DocumentId(5), DocumentId(3), DocumentId(1)];
    assert_eq!(sort_dedup(&v), vec![DocumentId(1), DocumentId(3), DocumentId(5)]);
    assert_eq!(sort_dedup(&Vec::<DocumentId>::new()), vec![]);
}

#[test]
fn union_merges_two_ascending_sequences() {
    let a = vec![DocumentId(1), DocumentId(3), DocumentId(5)];
    let b = vec![DocumentId(2), DocumentId(3), DocumentId(6)];
    assert_eq!(
        union(&a, &b),
        vec![DocumentId(1), DocumentId(2), DocumentId(3), DocumentId(5), DocumentId(6)]
    );
}

#[test]
fn position_finds_by_key() {
    let a = vec![DocumentId(1), DocumentId(3), DocumentId(5)];
    assert_eq!(position(&a, 3), Some(1));
    assert_eq!(position(&a, 4), None);
    assert_eq!(position(&a, 5), Some(2));
}

#[test]
fn posting_key_orders_field_by_field() {
    let a = posting(1, 2, 3);
    let b = posting(1, 2, 4);
    let c = posting(1, 3, 0);
    let d = posting(2, 0, 0);
    assert!(a.key_of() < b.key_of());
    assert!(b.key_of() < c.key_of());
    assert!(c.key_of() < d.key_of());
    assert_eq!(a.key_of(), (1u128 << 64) + (2u128 << 48) + (3u128 << 32) + (18u128 << 16) + 5);
}

#[test]
fn doc_ids_is_an_ascending_set() {
    let set = ids(&[9, 2, 9, 4]);
    assert_eq!(set.len(), 3);
    assert_eq!(set.to_vec(), vec![DocumentId(2), DocumentId(4), DocumentId(9)]);
    assert!(set.contains(DocumentId(4)));
    assert!(!set.contains(DocumentId(5)));
    assert_eq!(set.get(0), DocumentId(2));
}

#[test]
fn builder_refuses_words_out_of_order() {
    let mut builder = IndexBuilder::new();
    assert_eq!(builder.insert(chars("beta"), &vec![posting(1, 0, 0)]), Ok(()));
    assert_eq!(
        builder.insert(chars("alpha"), &vec![posting(1, 0, 1)]),
        Err(IndexError::OutOfOrder)
    );
    assert_eq!(
        builder.insert(chars("beta"), &vec![posting(1, 0, 1)]),
        Err(IndexError::OutOfOrder)
    );
    assert_eq!(builder.build().len(), 1);
}

#[test]
fn builder_refuses_invalid_words_and_empty_postings() {
    let mut builder = IndexBuilder::new();
    assert_eq!(builder.insert(chars(""), &vec![posting(1, 0, 0)]), Err(IndexError::InvalidWord));
    let long: String = std::iter::repeat('a').take(65).collect();
    assert_eq!(
        builder.insert(chars(&long), &vec![posting(1, 0, 0)]),
        Err(IndexError::InvalidWord)
    );
    let limit: String = std::iter::repeat('a').take(64).collect();
    assert_eq!(builder.insert(chars(&limit), &vec![]), Err(IndexError::NoPostings));
    assert_eq!(builder.insert(chars(&limit), &vec![posting(1, 0, 0)]), Ok(()));
    // sixteen scalars of four bytes each are at the limit, seventeen over it
    let wide: String = std::iter::repeat('\u{1F600}').take(17).collect();
    assert_eq!(
        builder.insert(chars(&wide), &vec![posting(1, 0, 0)]),
        Err(IndexError::InvalidWord)
    );
}

#[test]
fn builder_sorts_and_deduplicates_postings() {
    let index = index_of(&[(
        "fox",
        vec![posting(2, 0, 1), posting(1, 0, 3), posting(2, 0, 1), posting(1, 0, 0)],
    )]);
    assert_eq!(
        index.lookup(&chars("fox")),
        Some(&vec![posting(1, 0, 0), posting(1, 0, 3), posting(2, 0, 1)])
    );
}

#[test]
fn lookup_finds_exact_words_only() {
    let index = index_of(&[
        ("brown", vec![posting(1, 0, 1)]),
        ("fox", vec![posting(1, 0, 2)]),
        ("quick", vec![posting(1, 0, 0)]),
    ]);
    assert_eq!(index.lookup(&chars("fox")), Some(&vec![posting(1, 0, 2)]));
    assert_eq!(index.lookup(&chars("fo")), None);
    assert_eq!(index.lookup(&chars("zebra")), None);
    assert_eq!(index.lookup(&chars("")), None);
    assert_eq!(index.word(0), &chars("brown"));
    assert_eq!(index.postings(2), &vec![posting(1, 0, 0)]);
}

#[test]
fn prefix_lookup_lists_words_in_ascending_order() {
    let index = index_of(&[
        ("bar", vec![posting(1, 0, 0)]),
        ("foo", vec![posting(1, 0, 1)]),
        ("fox", vec![posting(1, 0, 2)]),
        ("zap", vec![posting(1, 0, 3)]),
    ]);
    assert_eq!(index.prefix_lookup(&chars("fo")), vec![1, 2]);
    assert_eq!(index.prefix_lookup(&chars("")), vec![0, 1, 2, 3]);
    assert_eq!(index.prefix_lookup(&chars("fox")), vec![2]);
    assert_eq!(index.prefix_lookup(&chars("foxy")), Vec::<usize>::new());
}

#[test]
fn dfa_lookup_gives_words_within_the_distance() {
    let index = index_of(&[
        ("cafe", vec![posting(1, 0, 0)]),
        ("café", vec![posting(2, 0, 0)]),
        ("cart", vec![posting(3, 0, 0)]),
        ("dog", vec![posting(4, 0, 0)]),
    ]);
    assert_eq!(index.dfa_lookup(&chars("cafe"), 0), vec![Found { entry: 0, distance: 0 }]);
    assert_eq!(
        index.dfa_lookup(&chars("cafe"), 1),
        vec![Found { entry: 0, distance: 0 }, Found { entry: 1, distance: 1 }]
    );
    assert_eq!(
        index.dfa_lookup(&chars("cafe"), 2),
        vec![
            Found { entry: 0, distance: 0 },
            Found { entry: 1, distance: 1 },
            Found { entry: 2, distance: 2 }
        ]
    );
}

#[test]
fn merge_unites_dictionaries_and_postings() {
    let a = index_of(&[
        ("brown", vec![posting(1, 0, 1)]),
        ("fox", vec![posting(1, 0, 2), posting(3, 0, 0)]),
    ]);
    let b = index_of(&[
        ("fox", vec![posting(2, 0, 0), posting(3, 0, 0)]),
        ("quick", vec![posting(2, 0, 1)]),
    ]);
    let merged = a.merge(&b);
    assert_eq!(merged.len(), 3);
    assert_eq!(merged.lookup(&chars("brown")), Some(&vec![posting(1, 0, 1)]));
    assert_eq!(
        merged.lookup(&chars("fox")),
        Some(&vec![posting(1, 0, 2), posting(2, 0, 0), posting(3, 0, 0)])
    );
    assert_eq!(merged.lookup(&chars("quick")), Some(&vec![posting(2, 0, 1)]));
    let again = merged.merge(&b);
    assert_eq!(again.len(), 3);
    assert_eq!(again.lookup(&chars("fox")), merged.lookup(&chars("fox")));
}

#[test]
fn merge_with_empty_index_changes_nothing() {
    let a = index_of(&[("fox", vec![posting(1, 0, 2)])]);
    let merged = a.merge(&Index::new());
    assert_eq!(merged.len(), 1);
    assert_eq!(merged.lookup(&chars("fox")), Some(&vec![posting(1, 0, 2)]));
    let merged = Index::new().merge(&a);
    assert_eq!(merged.lookup(&chars("fox")), Some(&vec![posting(1, 0, 2)]));
}

#[test]
fn removing_documents_drops_their_postings_and_empty_words() {
    let index = index_of(&[
        ("brown", vec![posting(1, 0, 1)]),
        ("fox", vec![posting(1, 0, 2), posting(2, 0, 0)]),
        ("quick", vec![posting(2, 0, 1)]),
    ]);
    let left = index.remove_documents(&ids(&[1]));
    assert_eq!(left.len(), 2);
    assert_eq!(left.lookup(&chars("brown")), None);
    assert_eq!(left.lookup(&chars("fox")), Some(&vec![posting(2, 0, 0)]));
    assert_eq!(left.lookup(&chars("quick")), Some(&vec![posting(2, 0, 1)]));
    let none = index.remove_documents(&ids(&[1, 2]));
    assert_eq!(none.len(), 0);
    let all = index.remove_documents(&ids(&[]));
    assert_eq!(all.len(), 3);
}

#[test]
fn every_word_of_an_index_has_ascending_postings() {
    let a = index_of(&[("fox", vec![posting(5, 0, 2), posting(3, 0, 0)])]);
    let b = index_of(&[("fox", vec![posting(4, 1, 0)]), ("owl", vec![posting(4, 0, 0)])]);
    let merged = a.merge(&b).remove_documents(&ids(&[3]));
    for i in 0..merged.len() {
        let postings = merged.postings(i);
        assert!(!postings.is_empty());
        for pair in postings.windows(2) {
            assert!(pair[0].key_of() < pair[1].key_of());
        }
        if i > 0 {
            assert!(merged.word(i - 1) < merged.word(i));
        }
    }
}

#[test]
fn index_bytes_have_the_version_first_and_the_postings_last() {
    let index = index_of(&[("é", vec![posting(1, 2, 3)])]);
    let bytes = index.to_bytes();
    let mut expected: Vec<u8> = vec![1];
    expected.extend_from_slice(&1u64.to_be_bytes());
    expected.extend_from_slice(&2u64.to_be_bytes());
    expected.extend_from_slice("é".as_bytes());
    expected.extend_from_slice(&1u64.to_be_bytes());
    expected.extend_from_slice(&16u64.to_be_bytes());
    expected.extend_from_slice(&1u64.to_be_bytes());
    expected.extend_from_slice(&2u16.to_be_bytes());
    expected.extend_from_slice(&3u16.to_be_bytes());
    expected.extend_from_slice(&18u16.to_be_bytes());
    expected.extend_from_slice(&5u16.to_be_bytes());
    assert_eq!(bytes, expected);
    assert_eq!(Index::new().to_bytes(), {
        let mut empty: Vec<u8> = vec![1];
        empty.extend_from_slice(&0u64.to_be_bytes());
        empty.extend_from_slice(&0u64.to_be_bytes());
        empty
    });
}

#[test]
fn an_index_is_read_back_from_its_bytes() {
    let index = index_of(&[
        ("brown", vec![posting(1, 0, 1)]),
        ("café", vec![posting(7, 3, 2), posting(u64::MAX, u16::MAX, 9)]),
        ("fox", vec![posting(1, 0, 2), posting(2, 0, 0), posting(3, 1, 1)]),
    ]);
    let read = Index::from_bytes(&index.to_bytes()).unwrap();
    assert_eq!(read.len(), 3);
    for i in 0..3 {
        assert_eq!(read.word(i), index.word(i));
        assert_eq!(read.postings(i), index.postings(i));
    }
    assert_eq!(Index::from_bytes(&Index::new().to_bytes()).unwrap().len(), 0);
}

#[test]
fn bytes_that_are_no_index_are_refused() {
    let index = index_of(&[
        ("brown", vec![posting(1, 0, 1)]),
        ("fox", vec![posting(1, 0, 2), posting(2, 0, 0)]),
    ]);
    let bytes = index.to_bytes();
    let refused = |bytes: &[u8]| Index::from_bytes(bytes).err() == Some(IndexError::Corruption);
    assert!(refused(&[]));
    assert!(refused(&[1]));
    // another version
    let mut other = bytes.clone();
    other[0] = 2;
    assert!(refused(&other));
    // a byte too few, a byte too many
    assert!(refused(&bytes[..bytes.len() - 1]));
    let mut longer = bytes.clone();
    longer.push(0);
    assert!(refused(&longer));
    // more words announced than written
    let mut more = bytes.clone();
    more[8] = 3;
    assert!(refused(&more));
    // words out of order
    let swapped = {
        let a = index_of(&[("fox", vec![posting(1, 0, 2)])]).to_bytes();
        let b = index_of(&[("brown", vec![posting(1, 0, 1)])]).to_bytes();
        let mut bytes: Vec<u8> = vec![1];
        bytes.extend_from_slice(&2u64.to_be_bytes());
        bytes.extend_from_slice(&a[9..a.len() - 24]);
        bytes.extend_from_slice(&b[9..b.len() - 24]);
        bytes.extend_from_slice(&32u64.to_be_bytes());
        bytes.extend_from_slice(&a[a.len() - 16..]);
        bytes.extend_from_slice(&b[b.len() - 16..]);
        bytes
    };
    assert!(refused(&swapped));
    // postings out of order
    let mut unsorted = bytes.clone();
    let n = unsorted.len();
    let (first, second) = (unsorted[n - 32..n - 16].to_vec(), unsorted[n - 16..].to_vec());
    unsorted[n - 32..n - 16].copy_from_slice(&second);
    unsorted[n - 16..].copy_from_slice(&first);
    assert!(refused(&unsorted));
    // a word that is no UTF-8
    let mut invalid = bytes.clone();
    invalid[17] = 0xff;
    assert!(refused(&invalid));
    // a word without postings
    let mut empty: Vec<u8> = vec![1];
    empty.extend_from_slice(&1u64.to_be_bytes());
    empty.extend_from_slice(&1u64.to_be_bytes());
    empty.push(b'a');
    empty.extend_from_slice(&0u64.to_be_bytes());
    empty.extend_from_slice(&0u64.to_be_bytes());
    assert!(refused(&empty));
}
