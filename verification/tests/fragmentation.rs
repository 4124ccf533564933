use web_client::fragmentation::{defragment_bytes, fragment_bytes, sort_fragments};
use web_client::wire::{Fragment, FRAGMENT_DSIZE};

#[test]
fn fragmenting_nothing_gives_no_fragment() {
    assert!(fragment_bytes(&Vec::new()).is_empty());
}

#[test]
fn fragments_are_numbered_and_padded() {
    let bytes: Vec<u8> = (0..300u32).map(|i| (i % 251) as u8 + 1).collect();
    let frags = fragment_bytes(&bytes);
    assert_eq!(frags.len(), 3);
    for (i, f) in frags.iter().enumerate() {
        assert_eq!(f.fragment_index, i as u64);
        assert_eq!(f.total_n_fragments, 3);
    }
    assert_eq!(frags[0].length, 128);
    assert_eq!(frags[1].length, 128);
    assert_eq!(frags[2].length, 44);
    assert_eq!(frags[2].data[43], bytes[299]);
    assert_eq!(frags[2].data[44], 0);
    assert_eq!(frags[1].data[0], bytes[128]);
}

#[test]
fn exact_multiple_has_no_short_fragment() {
    let bytes = vec![7u8; 2 * FRAGMENT_DSIZE];
    let frags = fragment_bytes(&bytes);
    assert_eq!(frags.len(), 2);
    assert_eq!(frags[1].length, 128);
}

#[test]
fn defragment_gives_back_the_padded_message() {
    let bytes: Vec<u8> = "hello, drones".bytes().collect();
    let frags = fragment_bytes(&bytes);
    let joined = defragment_bytes(&frags);
    assert_eq!(joined.len(), 128);
    assert_eq!(&joined[..bytes.len()], &bytes[..]);
    assert!(joined[bytes.len()..].iter().all(|b| *b == 0));
}

#[test]
fn sorting_orders_by_index() {
    let bytes: Vec<u8> = (0..400u32).map(|i| (i % 200) as u8).collect();
    let frags = fragment_bytes(&bytes);
    let mut shuffled: Vec<Fragment> = vec![frags[2], frags[0], frags[3], frags[1]];
    sort_fragments(&mut shuffled);
    let indices: Vec<u64> = shuffled.iter().map(|f| f.fragment_index).collect();
    assert_eq!(indices, vec![0, 1, 2, 3]);
    assert_eq!(defragment_bytes(&shuffled), defragment_bytes(&frags));
}
