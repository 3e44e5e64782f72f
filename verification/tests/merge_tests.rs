use term_merge::merge::TermIterator;
use term_merge::stream::VecKeyStream;
use term_merge::term::Term;

fn keys(words: &[&str]) -> Vec<Vec<u8>> {
    words.iter().map(|w| w.as_bytes().to_vec()).collect()
}

fn collect_all(it: &mut TermIterator<VecKeyStream>) -> Vec<(Vec<u8>, Vec<usize>)> {
    let mut out = Vec::new();
    while it.advance() {
        out.push((
            it.current_term().value().to_vec(),
            it.current_segment_ords().clone(),
        ));
    }
    out
}

#[test]
fn test_term_iterator() {
    let streams = vec![
        VecKeyStream::new(keys(&["a", "b", "d", "f"])),
        VecKeyStream::new(keys(&["a", "b", "c", "d", "f"])),
        VecKeyStream::new(keys(&["e", "f"])),
    ];
    let mut term_it = TermIterator::new(streams);
    {
        assert!(term_it.advance());
        let term = term_it.current_term();
        assert_eq!(term.value(), "a".as_bytes());
        let expected_segments = [0, 1];
        assert_eq!(term_it.current_segment_ords().as_slice(), &expected_segments);
    }
    {
        assert!(term_it.advance());
        let term = term_it.current_term();
        assert_eq!(term.value(), "b".as_bytes());
        let expected_segments = [0, 1];
        assert_eq!(term_it.current_segment_ords().as_slice(), &expected_segments);
    }
    {
        assert!(term_it.advance());
        let term = term_it.current_term();
        assert_eq!(term.value(), "c".as_bytes());
        let expected_segments = [1];
        assert_eq!(term_it.current_segment_ords().as_slice(), &expected_segments);
    }
    {
        assert!(term_it.advance());
        let term = term_it.current_term();
        assert_eq!(term.value(), "d".as_bytes());
        let expected_segments = [0, 1];
        assert_eq!(term_it.current_segment_ords().as_slice(), &expected_segments);
    }
    {
        assert!(term_it.advance());
        let term = term_it.current_term();
        assert_eq!(term.value(), "e".as_bytes());
        let expected_segments = [2];
        assert_eq!(term_it.current_segment_ords().as_slice(), &expected_segments);
    }
    {
        assert!(term_it.advance());
        let term = term_it.current_term();
        assert_eq!(term.value(), "f".as_bytes());
        let expected_segments = [0, 1, 2];
        assert_eq!(term_it.current_segment_ords().as_slice(), &expected_segments);
    }
    assert!(!term_it.advance());
}

#[test]
fn test_single_segment_others_empty() {
    let streams = vec![
        VecKeyStream::new(keys(&["x"])),
        VecKeyStream::new(keys(&[])),
        VecKeyStream::new(keys(&[])),
    ];
    let mut term_it = TermIterator::new(streams);
    assert!(term_it.advance());
    assert_eq!(term_it.current_term().value(), "x".as_bytes());
    assert_eq!(term_it.current_segment_ords().as_slice(), &[0]);
    assert!(!term_it.advance());
}

#[test]
fn test_zero_streams() {
    let mut term_it = TermIterator::<VecKeyStream>::new(Vec::new());
    assert!(!term_it.advance());
    assert!(!term_it.advance());
}

#[test]
fn test_all_streams_empty() {
    let streams = vec![
        VecKeyStream::new(keys(&[])),
        VecKeyStream::new(keys(&[])),
    ];
    let mut term_it = TermIterator::new(streams);
    assert!(!term_it.advance());
    assert!(!term_it.advance());
}

#[test]
fn test_exhaustion_is_idempotent() {
    let streams = vec![VecKeyStream::new(keys(&["q"]))];
    let mut term_it = TermIterator::new(streams);
    assert!(term_it.advance());
    assert!(!term_it.advance());
    assert!(!term_it.advance());
    assert!(!term_it.advance());
}

#[test]
fn test_term_in_every_stream() {
    let streams = vec![
        VecKeyStream::new(keys(&["m"])),
        VecKeyStream::new(keys(&["m"])),
        VecKeyStream::new(keys(&["m"])),
        VecKeyStream::new(keys(&["m"])),
    ];
    let mut term_it = TermIterator::new(streams);
    assert!(term_it.advance());
    assert_eq!(term_it.current_term().value(), "m".as_bytes());
    assert_eq!(term_it.current_segment_ords().as_slice(), &[0, 1, 2, 3]);
    assert!(!term_it.advance());
}

#[test]
fn test_streams_of_unequal_length() {
    let streams = vec![
        VecKeyStream::new(keys(&["b", "c", "d", "e"])),
        VecKeyStream::new(keys(&["a"])),
    ];
    let mut term_it = TermIterator::new(streams);
    let all = collect_all(&mut term_it);
    assert_eq!(
        all,
        vec![
            (b"a".to_vec(), vec![1]),
            (b"b".to_vec(), vec![0]),
            (b"c".to_vec(), vec![0]),
            (b"d".to_vec(), vec![0]),
            (b"e".to_vec(), vec![0]),
        ]
    );
}

#[test]
fn test_sorted_and_deduplicated_output() {
    let streams = vec![
        VecKeyStream::new(keys(&["ant", "bee", "cow"])),
        VecKeyStream::new(keys(&["bee", "cow", "yak"])),
        VecKeyStream::new(keys(&["ant", "yak"])),
    ];
    let mut term_it = TermIterator::new(streams);
    let all = collect_all(&mut term_it);
    let terms: Vec<Vec<u8>> = all.iter().map(|p| p.0.clone()).collect();
    for w in terms.windows(2) {
        assert!(w[0] < w[1]);
    }
    assert_eq!(
        all,
        vec![
            (b"ant".to_vec(), vec![0, 2]),
            (b"bee".to_vec(), vec![0, 1]),
            (b"cow".to_vec(), vec![0, 1]),
            (b"yak".to_vec(), vec![1, 2]),
        ]
    );
}

#[test]
fn test_term_byte_order() {
    let a = Term::from_bytes(b"ab".to_vec());
    let b = Term::from_bytes(b"b".to_vec());
    let empty = Term::empty();
    let prefix = Term::from_bytes(b"a".to_vec());
    assert!(a.lt(&b));
    assert!(!b.lt(&a));
    assert!(empty.lt(&a));
    assert!(!a.lt(&empty));
    assert!(prefix.lt(&a));
    assert!(!a.lt(&prefix));
    assert!(!a.lt(&a));
    assert!(a.same_bytes(&a));
    assert!(!a.same_bytes(&b));
    assert_eq!(a.value(), b"ab");
}
