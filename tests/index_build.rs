use edgesearch::bitmap::Bitmap;
use edgesearch::frames::{read_chunks, write_chunks};
use edgesearch::index::TermIndex;
use edgesearch::pipeline::{build_index, index_corpus, pack_documents, pack_terms, MIN_TERMS};
use edgesearch::reader::{read_document_terms, read_documents, BuildError};
use edgesearch::text::number;

fn index_of(stream: &[u8]) -> TermIndex {
    let pairs = read_document_terms(stream).unwrap();
    TermIndex::from_pairs(&pairs).unwrap()
}

fn members(b: &Bitmap, upto: u32) -> Vec<u32> {
    (0..upto).filter(|d| b.contains(*d)).collect()
}

#[test]
fn two_documents_scenario() {
    let pairs = read_document_terms(b"a\0b\0\0b\0\0").unwrap();
    assert_eq!(pairs, vec![(0, b"a".to_vec()), (0, b"b".to_vec()), (1, b"b".to_vec())]);
    let idx = TermIndex::from_pairs(&pairs).unwrap();
    assert_eq!(idx.document_count(), 2);
    assert_eq!(idx.terms(), &vec![b"a".to_vec(), b"b".to_vec()]);
    assert_eq!(members(idx.postings(0), 10), vec![0]);
    assert_eq!(members(idx.postings(1), 10), vec![0, 1]);
    assert_eq!(idx.frequencies(), &vec![1, 2]);
}

#[test]
fn frequency_counts_occurrences() {
    let idx = index_of(b"x\0x\0\0x\0");
    assert_eq!(idx.terms(), &vec![b"x".to_vec()]);
    assert_eq!(idx.frequencies()[0], 3);
    assert_eq!(idx.postings(0).cardinality(), 2);
}

#[test]
fn empty_documents_are_counted() {
    let idx = index_of(b"a\0\0\0\0b\0");
    assert_eq!(idx.document_count(), 4);
    assert_eq!(members(idx.postings(1), 10), vec![3]);
}

#[test]
fn empty_stream_has_no_documents() {
    let idx = index_of(b"");
    assert_eq!(idx.document_count(), 0);
    assert_eq!(idx.term_count(), 0);
}

#[test]
fn unterminated_term_is_a_format_error() {
    assert_eq!(read_document_terms(b"a\0bc"), Err(BuildError::FormatError));
}

#[test]
fn decreasing_document_ids_are_a_format_error() {
    let pairs = vec![(1usize, b"a".to_vec()), (0usize, b"b".to_vec())];
    assert!(matches!(TermIndex::from_pairs(&pairs), Err(BuildError::FormatError)));
}

#[test]
fn document_id_past_u32_is_capacity_exceeded() {
    let pairs = vec![(0usize, b"a".to_vec()), (1usize << 32, b"b".to_vec())];
    assert!(matches!(TermIndex::from_pairs(&pairs), Err(BuildError::CapacityExceeded)));
}

#[test]
fn documents_reader_splits_values() {
    assert_eq!(
        read_documents(b"one\0\0three\0").unwrap(),
        vec![b"one".to_vec(), b"".to_vec(), b"three".to_vec()]
    );
    assert_eq!(read_documents(b"one\0two"), Err(BuildError::FormatError));
}

#[test]
fn term_ids_are_assigned_in_first_seen_order_and_repeat() {
    let stream = b"zeta\0alpha\0\0alpha\0mid\0\0zeta\0";
    let first = index_of(stream);
    let second = index_of(stream);
    assert_eq!(first.terms(), &vec![b"zeta".to_vec(), b"alpha".to_vec(), b"mid".to_vec()]);
    assert_eq!(first.terms(), second.terms());
    let mut a = first;
    let mut b = second;
    assert_eq!(a.serialize_postings(), b.serialize_postings());
}

#[test]
fn bitmap_round_trip_keeps_members() {
    let mut b = Bitmap::create();
    for d in [0u32, 1, 2, 3, 70000, 70001, u32::MAX] {
        b.add(d);
    }
    b.add(3);
    b.run_optimize();
    let bytes = b.serialize();
    assert_eq!(bytes.len(), b.get_serialized_size_in_bytes());
    let c = Bitmap::deserialize(&bytes).unwrap();
    assert_eq!(c.cardinality(), 7);
    for d in [0u32, 1, 2, 3, 70000, 70001, u32::MAX] {
        assert!(c.contains(d));
    }
    assert!(!c.contains(4));
    assert!(!c.contains(u32::MAX - 1));
}

#[test]
fn empty_bitmap_round_trip() {
    let b = Bitmap::create();
    let c = Bitmap::deserialize(&b.serialize()).unwrap();
    assert_eq!(c.cardinality(), 0);
}

#[test]
fn frames_round_trip() {
    let chunks = vec![b"abc".to_vec(), vec![], vec![7u8; 300]];
    let data = write_chunks(&chunks);
    assert_eq!(&data[0..4], &[0, 0, 0, 3]);
    assert_eq!(&data[7..11], &[0, 0, 0, 0]);
    assert_eq!(&data[11..15], &[0, 0, 1, 44]);
    assert_eq!(read_chunks(&data).unwrap(), chunks);
    assert_eq!(read_chunks(&data[..data.len() - 1]), Err(BuildError::FormatError));
    assert_eq!(read_chunks(&data[..2]), Err(BuildError::FormatError));
}

#[test]
fn numbers_are_grouped_by_thousands() {
    assert_eq!(number(0), "0");
    assert_eq!(number(999), "999");
    assert_eq!(number(1000), "1,000");
    assert_eq!(number(1234567), "1,234,567");
    assert_eq!(number(u64::MAX), "18,446,744,073,709,551,615");
}

fn corpus(distinct: usize) -> Vec<u8> {
    let mut s = Vec::new();
    for d in 0..distinct {
        s.extend_from_slice(format!("t{}", d).as_bytes());
        s.push(0);
        s.extend_from_slice(b"common\0");
        if d % 3 == 0 {
            s.extend_from_slice(b"third\0");
        }
        s.push(0);
    }
    s
}

fn documents(count: usize) -> Vec<u8> {
    let mut s = Vec::new();
    for d in 0..count {
        s.extend_from_slice(format!("document {}", d).as_bytes());
        s.push(0);
    }
    s
}

#[test]
fn small_corpus_is_rejected() {
    let r = build_index(&corpus(10), &documents(10), 1 << 20, 1 << 16);
    assert!(matches!(r, Err(BuildError::CorpusTooSmall)));
}

#[test]
fn build_partitions_every_term_once() {
    let terms = corpus(MIN_TERMS);
    let docs = documents(MIN_TERMS);
    let out = build_index(&terms, &docs, 4096, 200).ok().unwrap();
    assert_eq!(out.document_count, MIN_TERMS as u64);
    assert!(out.popular_lookup.len() <= 200);
    // The two most frequent terms come first.
    let lookup = String::from_utf8(out.popular_lookup.clone()).unwrap();
    assert!(lookup.starts_with("[{.strval = {.val = \"common\", .len = 6}},0,0,"));
    assert!(lookup.contains("\"third\""));
    assert!(!out.normal_chunks.is_empty());
    for c in out.normal_chunks.iter().chain(out.documents_chunks.iter()) {
        assert!(c.len() <= 4096);
    }
    assert_eq!(out.terms.len(), MIN_TERMS + 2);
    assert_eq!(out.terms[1], b"common".to_vec());
    assert_eq!(out.frequencies[1], MIN_TERMS);
    assert_eq!(out.postings.len(), MIN_TERMS + 2);
    let common = Bitmap::deserialize(&out.postings[1]).unwrap();
    assert_eq!(common.cardinality(), MIN_TERMS as u64);
    let p = &out.partition;
    assert_eq!(p.order[0], 1);
    let mut all: Vec<usize> = p.order[..p.popular_count].to_vec();
    all.extend(p.normal.iter());
    all.sort();
    assert_eq!(all, (0..MIN_TERMS + 2).collect::<Vec<usize>>());
    let again = build_index(&terms, &docs, 4096, 200).ok().unwrap();
    assert_eq!(again.partition.order, out.partition.order);
    assert_eq!(again.postings, out.postings);
    assert_eq!(again.normal_lookup, out.normal_lookup);
    assert_eq!(again.normal_chunks, out.normal_chunks);
    assert_eq!(again.popular_chunks, out.popular_chunks);
    assert_eq!(again.documents_chunks, out.documents_chunks);
}

#[test]
fn build_with_unterminated_documents_fails() {
    let r = build_index(&corpus(MIN_TERMS), b"doc", 4096, 200);
    assert!(matches!(r, Err(BuildError::FormatError)));
}

#[test]
fn index_corpus_reports_each_failure() {
    assert!(matches!(index_corpus(b"a\0b"), Err(BuildError::FormatError)));
    assert!(matches!(index_corpus(&corpus(5)), Err(BuildError::CorpusTooSmall)));
    let idx = index_corpus(&corpus(MIN_TERMS)).ok().unwrap();
    assert_eq!(idx.term_count(), MIN_TERMS + 2);
    assert_eq!(idx.document_count(), MIN_TERMS as u64);
}

#[test]
fn pack_documents_keys_by_id() {
    assert!(matches!(pack_documents(b"x\0y", 100), Err(BuildError::FormatError)));
    assert!(matches!(pack_documents(b"x\0", 1usize << 31), Err(BuildError::CapacityExceeded)));
    let b = pack_documents(b"aa\0bb\0cc\0", 44).ok().unwrap();
    // Each entry costs 4 + 12 + 2 bytes, so two fit in 44.
    assert_eq!(b.chunk_count(), 2);
    let (lookup, chunks) = b.serialise();
    assert_eq!(chunks[0].len(), 36);
    assert_eq!(&chunks[1][0..4], &[2, 0, 0, 0]);
    assert_eq!(
        String::from_utf8(lookup).unwrap(),
        "{.id = 0, .mid_pos = 18, .first_key = {.intval = 0}},{.id = 1, .mid_pos = 0, .first_key = {.intval = 2}},"
    );
}

#[test]
fn pack_terms_splits_and_orders() {
    let pairs = read_document_terms(b"b\0a\0c\0\0b\0a\0\0b\0").unwrap();
    let mut idx = TermIndex::from_pairs(&pairs).unwrap();
    // Room for the entry of "b" alone.
    let tc = pack_terms(&mut idx, 1000, 45).ok().unwrap();
    assert_eq!(tc.partition.order, vec![0, 1, 2]);
    assert_eq!(tc.partition.popular_count, 1);
    assert_eq!(tc.partition.normal, vec![1, 2]);
    assert_eq!(tc.normal.chunk_count(), 1);
    assert!(String::from_utf8(tc.popular.get_raw_lookup().to_vec()).unwrap().starts_with("[{.strval = {.val = \"b\""));
    assert_eq!(idx.terms(), &vec![b"b".to_vec(), b"a".to_vec(), b"c".to_vec()]);
}

#[test]
fn pack_terms_rejects_long_terms() {
    let long = vec![b'x'; 256];
    let pairs = vec![(0usize, long)];
    let mut idx = TermIndex::from_pairs(&pairs).unwrap();
    assert!(matches!(pack_terms(&mut idx, 1000, 1000), Err(BuildError::CapacityExceeded)));
}
