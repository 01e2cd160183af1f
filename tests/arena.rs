use dungeon::genarena::GenArena;

#[test]
fn test_insert() {
    let mut arena = GenArena::new();
    let key1 = arena.push("1".to_string());
    assert_eq!("1", arena.get(key1).unwrap());
    let key2 = arena.push("2".into());
    assert_eq!("2", arena.get(key2).unwrap());
    assert_eq!("1", arena.get(key1).unwrap());
}

#[test]
fn test_remove() {
    let mut arena = GenArena::new();
    let key1 = arena.push("1".to_string());
    let key2 = arena.push("2".into());
    arena.remove(key1);
    let _key3 = arena.push("1".into());
    assert_eq!(None, arena.get(key1));
    assert_eq!("2", arena.get(key2).unwrap());
    assert_eq!(2, arena.len()); // slot got reused
    let key4 = arena.push("3".into());
    assert_eq!("3", arena.get(key4).unwrap());
    assert_eq!(3, arena.len());
}

#[test]
fn test_iter() {
    let mut arena = GenArena::new();
    let _key1 = arena.push(1_u32);
    let key2 = arena.push(2);
    let _key3 = arena.push(3);
    arena.remove(key2);
    assert_eq!(&[1, 3], arena.iter().into_iter().cloned().collect::<Vec<_>>().as_slice());
}

#[test]
fn arena_remove_twice_and_get_mut() {
    let mut arena = GenArena::new();
    let k = arena.push(10_i32);
    let k2 = arena.push(20);
    *arena.get_mut(k2).unwrap() += 1;
    assert_eq!(Some(&21), arena.get(k2));
    arena.remove(k);
    arena.remove(k);
    assert_eq!(None, arena.get(k));
    assert!(arena.get_mut(k).is_none());
    let keys = arena.iter_keys();
    assert_eq!(keys.len(), 1);
    assert_eq!(*keys[0].1, 21);
    let k3 = arena.push(30);
    assert_eq!(Some(&30), arena.get(k3));
    assert_eq!(None, arena.get(k));
}
