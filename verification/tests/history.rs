use plato_music_sync::history::History;

#[test]
fn history_drops_oldest_when_full() {
    let mut h = History::new(3);
    for i in 0..5u32 {
        h.push(i);
    }
    assert_eq!(h.as_slice(), &[2, 3, 4]);
    assert_eq!(h.len(), 3);
    assert_eq!(h.capacity(), 3);
    h.clear();
    assert_eq!(h.len(), 0);
    h.push(9);
    assert_eq!(h.as_slice(), &[9]);
}
