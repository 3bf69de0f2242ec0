use plato_music_sync::room_map::RoomMap;

#[test]
fn room_map_insert_get_remove() {
    let mut m: RoomMap<u32> = RoomMap::new();
    m.insert("engine", 1);
    m.insert("bilge", 2);
    m.insert("engine", 3);
    assert_eq!(m.len(), 2);
    assert_eq!(m.get("engine"), Some(&3));
    assert_eq!(m.get("bridge"), None);
    assert!(m.contains_key("bilge"));
    assert_eq!(m.remove("bilge"), Some(2));
    assert_eq!(m.remove("bilge"), None);
    assert_eq!(m.len(), 1);
    assert_eq!(m.name_at(0), "engine");
    assert_eq!(*m.value_at(0), 3);
}
