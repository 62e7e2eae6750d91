use index_bloom::{Error, ErrorRate, FilterRecord, Index, IndexRecord};

fn rate(num: u64, den: u64) -> ErrorRate {
    ErrorRate::new(num, den).unwrap()
}

#[test]
fn simple_content() {
    let mut index = Index::new(rate(1, 100));
    let content = "word1 word2\nword3\n\nword4";
    index.ingest("simple_content.txt".to_string(), content).expect("Unable to ingest data");
    assert!(index.search("word1").is_ok());
    assert_eq!(vec!["simple_content.txt"], index.search("word1").unwrap().unwrap());
    assert_eq!(vec!["simple_content.txt"], index.search("word2").unwrap().unwrap());
    assert_eq!(vec!["simple_content.txt"], index.search("word3").unwrap().unwrap());
    assert_eq!(vec!["simple_content.txt"], index.search("word4").unwrap().unwrap());
    assert_eq!(None, index.search("").unwrap());
}

#[test]
fn index_several_matches() {
    let mut index = Index::new(rate(1, 100));
    index.ingest("file1.txt".to_string(), "word1 word2\nword3").expect("Unable to ingest data");
    index.ingest("file2.txt".to_string(), "word1 word3").expect("Unable to ingest data");
    assert_eq!(vec!["file1.txt"], index.search("word2").unwrap().unwrap());
    let expected = vec!["file1.txt", "file2.txt"];
    assert_eq!(expected, index.search("word1").unwrap().unwrap());
    assert_eq!(expected, index.search("word3").unwrap().unwrap());
}

#[test]
fn ingesting_twice_replace() {
    let mut index = Index::new(rate(1, 100));
    index.ingest("file1.txt".to_string(), "word1").expect("Unable to ingest data");
    assert_eq!(vec!["file1.txt"], index.search("word1").unwrap().unwrap());
    assert_eq!(None, index.search("word2").unwrap());
    index.ingest("file1.txt".to_string(), "word2").expect("Unable to ingest data");
    assert_eq!(None, index.search("word1").unwrap());
    assert_eq!(vec!["file1.txt"], index.search("word2").unwrap().unwrap());
}

#[test]
fn index_multi_keywords_search() {
    let mut index = Index::new(rate(1, 100));
    index.ingest("file1.txt".to_string(), "word1 word2\nword3").expect("Unable to ingest data");
    assert_eq!(vec!["file1.txt"], index.search("word1 word2").unwrap().unwrap());
}

#[test]
fn index_clean_keywords_before_search() {
    let mut index = Index::new(rate(1, 100));
    index.ingest("file1.txt".to_string(), "word1 word2\nword3").expect("Unable to ingest data");
    assert_eq!(vec!["file1.txt"], index.search("(word1) Word2, word3?").unwrap().unwrap());
}

#[test]
fn round_trip_through_dump_and_restore() {
    let mut index = Index::new(rate(1, 100));
    index.ingest("a".to_string(), "word1 word2").unwrap();
    assert_eq!(vec!["a"], index.search("word1").unwrap().unwrap());
    assert_eq!(None, index.search("missing").unwrap());
    let dumped = index.dump();
    let restored = Index::restore(dumped).unwrap();
    assert_eq!(vec!["a"], restored.search("word1").unwrap().unwrap());
    let first = index.dump();
    let second = restored.dump();
    assert_eq!((first.error_rate_num, first.error_rate_den), (second.error_rate_num, second.error_rate_den));
    assert_eq!(first.filters.len(), second.filters.len());
    for (x, y) in first.filters.iter().zip(second.filters.iter()) {
        assert_eq!(x.name, y.name);
        assert_eq!(x.key_size, y.key_size);
        assert_eq!(x.bitfield, y.bitfield);
        assert_eq!(x.bitfield_size, y.bitfield_size);
    }
}

#[test]
fn replacement_discards_old_vocabulary() {
    let mut index = Index::new(rate(1, 100));
    index.ingest("a".to_string(), "word1").unwrap();
    index.ingest("a".to_string(), "word2").unwrap();
    assert_eq!(None, index.search("word1").unwrap());
    assert_eq!(vec!["a"], index.search("word2").unwrap().unwrap());
    assert_eq!(1, index.dump().filters.len());
}

#[test]
fn multi_term_and() {
    let mut index = Index::new(rate(1, 100));
    index.ingest("b".to_string(), "word1 word3").unwrap();
    index.ingest("a".to_string(), "word1 word2").unwrap();
    assert_eq!(vec!["a"], index.search("word1 word2").unwrap().unwrap());
    assert_eq!(vec!["a", "b"], index.search("word1").unwrap().unwrap());
}

#[test]
fn results_come_in_byte_order() {
    let mut index = Index::new(rate(1, 1000));
    for name in ["zeta", "Alpha", "alpha", "\u{e9}t\u{e9}", "al", "beta"] {
        index.ingest(name.to_string(), "shared").unwrap();
    }
    let expected = vec!["Alpha", "al", "alpha", "beta", "zeta", "\u{e9}t\u{e9}"];
    assert_eq!(expected, index.search("shared").unwrap().unwrap());
    let names: Vec<String> = index.dump().filters.into_iter().map(|f| f.name).collect();
    assert_eq!(expected, names);
}

#[test]
fn content_without_tokens_is_refused() {
    let mut index = Index::new(rate(1, 100));
    index.ingest("a".to_string(), "word1").unwrap();
    assert_eq!(Err(Error::InvalidCapacity), index.ingest("a".to_string(), "  ?! \n"));
    assert_eq!(Err(Error::InvalidCapacity), index.ingest("b".to_string(), ""));
    assert_eq!(vec!["a"], index.search("word1").unwrap().unwrap());
    assert_eq!(1, index.dump().filters.len());
}

#[test]
fn search_on_an_empty_index_finds_nothing() {
    let index = Index::new(rate(1, 100));
    assert_eq!(None, index.search("word1").unwrap());
    assert_eq!(None, index.search("").unwrap());
}

#[test]
fn restore_refuses_malformed_records() {
    let record = |num: u64, den: u64, key_size: u32, bitfield: Vec<u8>, bitfield_size: usize| IndexRecord {
        error_rate_num: num,
        error_rate_den: den,
        filters: vec![FilterRecord { name: "file1.txt".to_string(), key_size, bitfield, bitfield_size }],
    };
    assert_eq!(Some(Error::MalformedState), Index::restore(record(1, 1, 4, vec![0; 6], 48)).err());
    assert_eq!(Some(Error::MalformedState), Index::restore(record(1, 10, 0, vec![0; 6], 48)).err());
    assert_eq!(Some(Error::MalformedState), Index::restore(record(1, 10, 4, vec![0; 5], 48)).err());
    assert_eq!(Some(Error::MalformedState), Index::restore(record(1, 10, 4, vec![], 0)).err());
    assert!(Index::restore(record(1, 10, 4, vec![8, 130, 65, 18, 131, 164], 48)).is_ok());
}

#[test]
fn restore_keeps_the_last_record_of_a_name() {
    let filter = |bits: u8| FilterRecord {
        name: "doc".to_string(),
        key_size: 1,
        bitfield: vec![bits],
        bitfield_size: 8,
    };
    let index = Index::restore(IndexRecord { error_rate_num: 1, error_rate_den: 10, filters: vec![filter(0), filter(255)] })
        .unwrap();
    let dumped = index.dump();
    assert_eq!(1, dumped.filters.len());
    assert_eq!(vec![255], dumped.filters[0].bitfield);
    assert_eq!(vec!["doc"], index.search("anything").unwrap().unwrap());
}

#[test]
fn error_messages() {
    assert_eq!("Error while hashing word", Error::HashWord.message());
    assert_eq!("Invalid Bloom filter capacity", Error::InvalidCapacity.message());
    assert_eq!("Malformed persisted index", Error::MalformedState.message());
}

#[test]
fn restore_from_str() {
    let record = IndexRecord {
        error_rate_num: 1,
        error_rate_den: 10,
        filters: vec![FilterRecord {
            name: "file1.txt".to_string(),
            key_size: 4,
            bitfield: vec![8, 130, 65, 18, 131, 164],
            bitfield_size: 48,
        }],
    };
    let index = Index::restore(record).unwrap();
    assert_eq!(vec!["file1.txt"], index.search("word1 word2 word3").unwrap().unwrap());
}
