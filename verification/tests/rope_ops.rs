use rope::search::One;
use rope::Rope;

#[test]
fn inclusive_lower_bound() {
    let strs: Vec<String> = (0..200).map(|s| s.to_string()).collect();

    let rope: Rope<String> = Rope::from_vec(strs.clone());

    assert_eq!(rope.inclusive_lower_bound(-1), None);

    let mut i = 0;
    for s in strs.iter() {
        let expected_offset = i;

        let (cursor, offset) = rope.inclusive_lower_bound(i).unwrap();
        assert_eq!(rope.get_at(cursor), s);
        assert_eq!(offset, expected_offset);

        i += s.len() as i64 - 1;

        let (cursor, offset) = rope.inclusive_lower_bound(i).unwrap();
        assert_eq!(rope.get_at(cursor), s);
        assert_eq!(offset, expected_offset);

        i += 1;
    }

    assert_eq!(
        rope.inclusive_lower_bound(i),
        Some((rope.end(), rope.offset_len()))
    );
}

#[test]
fn inclusive_upper_bound() {
    let strs: Vec<String> = (0..200).map(|s| s.to_string()).collect();

    let rope: Rope<String> = Rope::from_vec(strs.clone());

    assert_eq!(rope.inclusive_upper_bound(0), None);

    let mut i = 0;
    for s in strs.iter() {
        let expected_offset = i;

        i += 1;

        let (cursor, offset) = rope.inclusive_upper_bound(i).unwrap();
        assert_eq!(rope.get_at(cursor), s);
        assert_eq!(offset, expected_offset);

        i += s.len() as i64 - 1;

        let (cursor, offset) = rope.inclusive_upper_bound(i).unwrap();
        assert_eq!(rope.get_at(cursor), s);
        assert_eq!(offset, expected_offset);
    }

    i += 1;
    assert_eq!(
        rope.inclusive_lower_bound(i),
        Some((rope.end(), rope.offset_len()))
    );
}

#[test]
fn search_brute_force() {
    // every integer probe in -1..=total+1, cross-checked against a linear
    // reference table of element boundaries
    let strs: Vec<String> = (0..60).map(|s| s.to_string()).collect();
    let rope: Rope<String> = Rope::from_vec(strs.clone());
    let total = rope.offset_len();

    let mut boundaries: Vec<i64> = vec![0];
    for s in strs.iter() {
        let last = *boundaries.last().unwrap();
        boundaries.push(last + s.len() as i64);
    }

    for probe in -1..=total + 1 {
        // first element whose right boundary passes the probe
        let expected_lower = boundaries[1..].iter().position(|&b| b > probe);
        match rope.inclusive_lower_bound(probe) {
            None => assert!(probe < 0),
            Some((cursor, offset)) => match expected_lower {
                Some(j) => {
                    assert_eq!(rope.get_at(cursor), &strs[j]);
                    assert_eq!(offset, boundaries[j]);
                }
                None => {
                    assert_eq!(offset, total);
                }
            },
        }

        // first element whose right boundary reaches the probe
        let expected_upper = boundaries[1..].iter().position(|&b| b >= probe);
        match rope.inclusive_upper_bound(probe) {
            None => assert!(probe <= 0),
            Some((cursor, offset)) => match expected_upper {
                Some(j) => {
                    assert_eq!(rope.get_at(cursor), &strs[j]);
                    assert_eq!(offset, boundaries[j]);
                }
                None => {
                    assert_eq!(offset, total);
                }
            },
        }
    }
}

#[test]
fn find_one_selects_elements_only() {
    let strs: Vec<String> = (0..20).map(|s| s.to_string()).collect();
    let rope: Rope<String> = Rope::from_vec(strs.clone());
    let total = rope.offset_len();

    assert_eq!(rope.find_one(One::FirstAfter(-1)), None);
    assert_eq!(rope.find_one(One::FirstAfter(total)), None);
    let (c, o) = rope.find_one(One::FirstAfter(0)).unwrap();
    assert_eq!(rope.get_at(c), "0");
    assert_eq!(o, 0);

    assert_eq!(rope.find_one(One::LastBefore(0)), None);
    assert_eq!(rope.find_one(One::LastBefore(total + 1)), None);
    let (c, o) = rope.find_one(One::LastBefore(total)).unwrap();
    assert_eq!(rope.get_at(c), "19");
    assert_eq!(o, total - 2);
}
