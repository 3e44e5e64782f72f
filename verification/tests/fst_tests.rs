use term_merge::fst_stream::FstKeyStream;
use term_merge::merge::TermIterator;

fn dict(words: &[&str]) -> fst::Map<Vec<u8>> {
    let pairs: Vec<(&str, u64)> = words.iter().map(|w| (*w, 0u64)).collect();
    fst::Map::from_iter(pairs).unwrap()
}

#[test]
fn test_fst_backed_merge() {
    let m0 = dict(&["a", "b", "d", "f"]);
    let m1 = dict(&["a", "b", "c", "d", "f"]);
    let m2 = dict(&["e", "f"]);
    let streams = vec![
        FstKeyStream::from_keys(m0.keys()),
        FstKeyStream::from_keys(m1.keys()),
        FstKeyStream::from_keys(m2.keys()),
    ];
    let mut term_it = TermIterator::new(streams);
    let mut out: Vec<(Vec<u8>, Vec<usize>)> = Vec::new();
    while term_it.advance() {
        out.push((
            term_it.current_term().value().to_vec(),
            term_it.current_segment_ords().clone(),
        ));
    }
    assert_eq!(
        out,
        vec![
            (b"a".to_vec(), vec![0, 1]),
            (b"b".to_vec(), vec![0, 1]),
            (b"c".to_vec(), vec![1]),
            (b"d".to_vec(), vec![0, 1]),
            (b"e".to_vec(), vec![2]),
            (b"f".to_vec(), vec![0, 1, 2]),
        ]
    );
    assert!(!term_it.advance());
}

#[test]
fn test_fst_stream_yields_keys_in_order() {
    let m = dict(&["kiwi", "lime", "pear"]);
    let streams = vec![FstKeyStream::from_keys(m.keys())];
    let mut term_it = TermIterator::new(streams);
    let mut seen: Vec<Vec<u8>> = Vec::new();
    while term_it.advance() {
        assert_eq!(term_it.current_segment_ords().as_slice(), &[0]);
        seen.push(term_it.current_term().value().to_vec());
    }
    assert_eq!(seen, vec![b"kiwi".to_vec(), b"lime".to_vec(), b"pear".to_vec()]);
}
