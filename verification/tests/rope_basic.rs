use rope::Rope;

#[test]
fn empty() {
    let mut rope: Rope<String> = Rope::new();

    assert!(rope.is_empty());
    assert_eq!(rope.first(), None);
    assert_eq!(rope.last(), None);
    assert_eq!(rope.pop_back(), None);
    assert_eq!(rope.pop_front(), None);
    assert_eq!(rope.offset_len(), 0);
}

#[test]
fn push_back() {
    let mut rope: Rope<String> = Rope::new();
    for i in 0..400 {
        rope.push_back(i.to_string());
    }

    let elems: Vec<u32> = rope.iter().iter().map(|x| x.parse().unwrap()).collect();
    assert_eq!(elems, (0..400).collect::<Vec<u32>>());
}

#[test]
fn push_front() {
    let mut rope: Rope<String> = Rope::new();
    for i in 0..400 {
        rope.push_front(i.to_string());
    }

    let elems: Vec<u32> = rope.iter().iter().map(|x| x.parse().unwrap()).collect();
    assert_eq!(elems, (0..400).rev().collect::<Vec<u32>>());
}

#[test]
fn pop_front() {
    let mut rope: Rope<String> = Rope::new();
    for i in 0..400 {
        rope.push_back(i.to_string());
    }

    for i in 0..400 {
        let s = rope.pop_front().unwrap();
        assert_eq!(s.parse::<u32>().unwrap(), i);
    }

    assert!(rope.is_empty());
}

#[test]
fn pop_back() {
    let mut rope: Rope<String> = Rope::new();
    for i in 0..400 {
        rope.push_front(i.to_string());
    }

    for i in 0..400 {
        let s = rope.pop_back().unwrap();
        assert_eq!(s.parse::<u32>().unwrap(), i);
    }

    assert!(rope.is_empty());
}

#[test]
fn first_last() {
    let mut rope: Rope<String> = Rope::new();
    for i in 0..200 {
        rope.push_back(i.to_string());
    }
    assert_eq!(rope.first().map(String::as_str), Some("0"));
    assert_eq!(rope.last().map(String::as_str), Some("199"));
}

#[test]
fn offset_len_accounting() {
    // the total offset always equals the sum over the current elements,
    // through insertions, removals and updates
    let mut rope: Rope<String> = Rope::new();
    let mut expected: i64 = 0;
    for i in 0..50 {
        let s = i.to_string();
        expected += s.chars().count() as i64;
        rope.push_back(s);
        assert_eq!(rope.offset_len(), expected);
    }
    for _ in 0..20 {
        let s = rope.pop_front().unwrap();
        expected -= s.chars().count() as i64;
        assert_eq!(rope.offset_len(), expected);
    }
    let c = rope.begin();
    let old = rope.set_at(c, "tenthousand".to_string());
    expected = expected - old.chars().count() as i64 + 11;
    assert_eq!(rope.offset_len(), expected);
}

#[test]
fn removal_inverse() {
    // inserting then removing at the same position returns the element and
    // restores the offset total and the order
    let before: Vec<String> = (0..30).map(|i| i.to_string()).collect();
    for probe in [0i64, 3, 9, 29] {
        let mut rope: Rope<String> = Rope::from_vec(before.clone());
        let len0 = rope.offset_len();
        let c = rope.inclusive_lower_bound(probe).unwrap().0;
        rope.insert("xyz".to_string(), c);
        assert_eq!(rope.offset_len(), len0 + 3);
        let c2 = rope.inclusive_lower_bound(probe).unwrap().0;
        let back = rope.remove_at(c2);
        assert_eq!(back, "xyz");
        assert_eq!(rope.offset_len(), len0);
        let after: Vec<String> = rope.iter().iter().map(|s| s.to_string()).collect();
        assert_eq!(after, before);
    }
}

#[test]
fn round_trip_lengths() {
    // lengths around the node capacity force every splitting shape
    for n in [0usize, 1, 8, 15, 16, 17, 300] {
        let list: Vec<String> = (0..n).map(|i| i.to_string()).collect();
        let rope: Rope<String> = Rope::from_vec(list.clone());
        let out: Vec<String> = rope.iter().iter().map(|s| s.to_string()).collect();
        assert_eq!(out, list);
    }
}
