use rope::iter::Edge;
use rope::{Rope, ORDER};

#[test]
fn iter() {
    let mut rope: Rope<String> = Rope::new();
    for i in 0..200 {
        rope.push_back(i.to_string());
    }

    let elems: Vec<u32> = rope.iter().iter().map(|x| x.parse().unwrap()).collect();
    assert_eq!(elems, (0..200).collect::<Vec<u32>>());

    let elems: Vec<u32> = rope.iter().iter().rev().map(|x| x.parse().unwrap()).collect();
    assert_eq!(elems, (0..200).rev().collect::<Vec<u32>>());
}

#[test]
fn range() {
    let count: usize = ORDER * 4 + 7;

    let list: Vec<String> = (0..count).map(|x| x.to_string()).collect();

    let rope: Rope<String> = Rope::from_vec(list.clone());

    let len = rope.offset_len() as usize;
    // Create a table of the correct endpoint positions
    // for character indices `-1..=len + 1`
    let mut floor_idx = vec![0; len + 3];
    let mut ceil_idx = vec![0; len + 3];
    let mut off = 0;
    for (i, s) in list.iter().enumerate() {
        for x in floor_idx[1..][off..off + s.len()].iter_mut() {
            *x = i;
        }
        ceil_idx[1..][off] = i;
        for x in ceil_idx[1..][off + 1..off + s.len()].iter_mut() {
            *x = i + 1;
        }
        off += s.len();
    }
    // i = `-1`
    floor_idx[0] = 0;
    ceil_idx[0] = 0;
    // i = `len`
    floor_idx[len + 1] = count;
    ceil_idx[len + 1] = count;
    // i = `len + 1`
    floor_idx[len + 2] = count;
    ceil_idx[len + 2] = count;

    // Positions of elements
    let mut off = 0;
    let mut off_table = vec![0i64];
    for s in list.iter() {
        off += s.len();
        off_table.push(off as i64);
    }

    // Try every possible range in a certain range
    for start in -1..=len as i64 + 1 {
        for end in -1..=len as i64 + 1 {
            for ty in 0..4 {
                let (start_edge, start_expected_i) = if (ty & 1) != 0 {
                    (Edge::Floor(start), floor_idx[(start + 1) as usize])
                } else {
                    (Edge::Ceil(start), ceil_idx[(start + 1) as usize])
                };
                let (end_edge, end_expected_i) = if (ty & 1) != 0 {
                    (Edge::Floor(end), floor_idx[(end + 1) as usize])
                } else {
                    (Edge::Ceil(end), ceil_idx[(end + 1) as usize])
                };

                // If `end` < `start`, clamp `end`
                let end_expected_i = std::cmp::max(start_expected_i, end_expected_i);

                let expected_list: &[String] = if start_expected_i >= end_expected_i {
                    &[]
                } else {
                    &list[start_expected_i..end_expected_i]
                };

                let (elems, offset_range) = rope.range(start_edge, end_edge);
                let expected_elems: Vec<&String> = expected_list.iter().collect();
                assert_eq!(elems, expected_elems);

                let expected_offset_range = (
                    off_table[start_expected_i],
                    off_table[end_expected_i],
                );
                assert_eq!(offset_range, expected_offset_range);

                let (elems, _) = rope.range(start_edge, end_edge);
                let rev_elems: Vec<&String> = elems.into_iter().rev().collect();
                let expected_rev: Vec<&String> = expected_list.iter().rev().collect();
                assert_eq!(rev_elems, expected_rev);
            }
        }
    }
}
