use interval_map::IntervalMap;

#[test]
fn it_works() {
    let mut test_map: IntervalMap<i32, char> = IntervalMap::new('a');
    assert_eq!(*test_map.get(&10), 'a');

    test_map.insert(10, 20, 'b');
    assert_eq!(*test_map.get(&11), 'b');
    assert_eq!(*test_map.get(&20), 'a');

    test_map.insert(25, 30, 'c');
    assert_eq!(*test_map.get(&10), 'b');
    assert_eq!(*test_map.get(&20), 'a');
    assert_eq!(*test_map.get(&26), 'c');
    assert_eq!(*test_map.get(&30), 'a');
}

#[test]
fn overlapping() {
    let mut test_map: IntervalMap<i32, char> = IntervalMap::new('a');
    test_map.insert(10, 20, 'b');
    test_map.insert(15, 25, 'c');

    assert_eq!(*test_map.get(&12), 'b');
    assert_eq!(*test_map.get(&15), 'c');
    assert_eq!(*test_map.get(&20), 'c');
    assert_eq!(*test_map.get(&25), 'a');
}

#[test]
fn intertwined() {
    let mut test_map: IntervalMap<i32, char> = IntervalMap::new('a');
    test_map.insert(10, 20, 'b');
    test_map.insert(20, 30, 'c');

    assert_eq!(*test_map.get(&10), 'b');
    assert_eq!(*test_map.get(&20), 'c');
    assert_eq!(*test_map.get(&25), 'c');
    assert_eq!(*test_map.get(&30), 'a');
}

#[test]
fn multiple_overlapping() {
    let mut test_map: IntervalMap<i32, char> = IntervalMap::new('a');
    test_map.insert(20, 25, 'b');
    test_map.insert(10, 25, 'c');
    test_map.insert(22, 50, 'c');
    assert_eq!(*test_map.get(&5), 'a');
    assert_eq!(*test_map.get(&10), 'c');
    assert_eq!(*test_map.get(&20), 'c');
    assert_eq!(*test_map.get(&51), 'a');
}
