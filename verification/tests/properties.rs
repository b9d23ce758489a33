use interval_map::IntervalMap;

#[test]
fn default_covers_every_key() {
    let m: IntervalMap<i32, char> = IntervalMap::new('a');
    assert_eq!(*m.get(&i32::MIN), 'a');
    assert_eq!(*m.get(&-1000), 'a');
    assert_eq!(*m.get(&0), 'a');
    assert_eq!(*m.get(&1000), 'a');
    assert_eq!(*m.get(&i32::MAX), 'a');
}

#[test]
fn range_assignment_covers_whole_range() {
    let mut m: IntervalMap<i32, char> = IntervalMap::new('a');
    m.insert(10, 20, 'b');
    for q in 10..20 {
        assert_eq!(*m.get(&q), 'b');
    }
    assert_eq!(*m.get(&9), 'a');
    assert_eq!(*m.get(&20), 'a');
}

#[test]
fn upper_bound_is_excluded() {
    let mut m: IntervalMap<i32, char> = IntervalMap::new('a');
    m.insert(0, 10, 'b');
    // the value covering the upper bound before the insert survives it
    assert_eq!(*m.get(&10), 'a');
    m.insert(5, 10, 'c');
    assert_eq!(*m.get(&10), 'a');
    assert_eq!(*m.get(&9), 'c');
}

#[test]
fn empty_range_changes_nothing() {
    let mut m: IntervalMap<i32, char> = IntervalMap::new('a');
    m.insert(10, 20, 'b');
    m.insert(15, 15, 'z');
    m.insert(0, 0, 'z');
    m.insert(25, 25, 'z');
    assert_eq!(*m.get(&9), 'a');
    assert_eq!(*m.get(&15), 'b');
    assert_eq!(*m.get(&0), 'a');
    assert_eq!(*m.get(&25), 'a');
}

#[test]
fn reversed_range_changes_nothing() {
    let mut m: IntervalMap<i32, char> = IntervalMap::new('a');
    m.insert(10, 20, 'b');
    m.insert(30, 25, 'z');
    m.insert(12, 5, 'z');
    for q in [-5, 5, 10, 12, 19, 20, 25, 26, 30, 31] {
        let expected = if (10..20).contains(&q) { 'b' } else { 'a' };
        assert_eq!(*m.get(&q), expected);
    }
}

#[test]
fn inserting_twice_equals_inserting_once() {
    let mut once: IntervalMap<i32, char> = IntervalMap::new('a');
    once.insert(10, 20, 'b');
    let mut twice: IntervalMap<i32, char> = IntervalMap::new('a');
    twice.insert(10, 20, 'b');
    twice.insert(10, 20, 'b');
    for q in -5..35 {
        assert_eq!(*once.get(&q), *twice.get(&q));
    }
}

#[test]
fn later_insert_overrides_earlier() {
    let mut m: IntervalMap<i32, char> = IntervalMap::new('a');
    m.insert(10, 30, 'b');
    m.insert(15, 20, 'c');
    for q in -5..40 {
        let expected = if (15..20).contains(&q) {
            'c'
        } else if (10..30).contains(&q) {
            'b'
        } else {
            'a'
        };
        assert_eq!(*m.get(&q), expected);
    }
}

#[test]
fn insert_at_domain_minimum_rewrites_default() {
    let mut m: IntervalMap<i32, char> = IntervalMap::new('a');
    m.insert(i32::MIN, 0, 'z');
    assert_eq!(*m.get(&i32::MIN), 'z');
    assert_eq!(*m.get(&-1), 'z');
    assert_eq!(*m.get(&0), 'a');
    assert_eq!(*m.get(&i32::MAX), 'a');
}

#[test]
fn inserting_the_default_value_changes_nothing() {
    let mut m: IntervalMap<i32, char> = IntervalMap::new('a');
    m.insert(10, 20, 'a');
    assert_eq!(*m.get(&9), 'a');
    assert_eq!(*m.get(&15), 'a');
    assert_eq!(*m.get(&20), 'a');
}

#[test]
fn adjacent_ranges_with_equal_values_join_seamlessly() {
    let mut m: IntervalMap<i32, char> = IntervalMap::new('a');
    m.insert(0, 10, 'b');
    m.insert(10, 20, 'b');
    for q in 0..20 {
        assert_eq!(*m.get(&q), 'b');
    }
    assert_eq!(*m.get(&20), 'a');
    assert_eq!(*m.get(&-1), 'a');
}

#[test]
fn integer_values_work_too() {
    let mut m: IntervalMap<i32, i32> = IntervalMap::new(0);
    m.insert(-10, 10, 7);
    m.insert(0, 5, -3);
    assert_eq!(*m.get(&-11), 0);
    assert_eq!(*m.get(&-10), 7);
    assert_eq!(*m.get(&-1), 7);
    assert_eq!(*m.get(&0), -3);
    assert_eq!(*m.get(&4), -3);
    assert_eq!(*m.get(&5), 7);
    assert_eq!(*m.get(&9), 7);
    assert_eq!(*m.get(&10), 0);
}

#[test]
fn range_covering_whole_domain() {
    let mut m: IntervalMap<i32, char> = IntervalMap::new('a');
    m.insert(i32::MIN, i32::MAX, 'b');
    assert_eq!(*m.get(&i32::MIN), 'b');
    assert_eq!(*m.get(&0), 'b');
    assert_eq!(*m.get(&(i32::MAX - 1)), 'b');
    // the upper bound itself is excluded, so the default survives there
    assert_eq!(*m.get(&i32::MAX), 'a');
}
