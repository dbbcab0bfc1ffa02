use wavepop::chunker::{add_patterns, chunk, discover_patterns, normalize, patternize};
use wavepop::error::Error;
use wavepop::pattern_map::PatternMap;

#[test]
fn normalize_empty_to_empty() {
    let empty: Vec<usize> = vec![];
    assert_eq!(normalize(&empty).unwrap(), vec![]);
}

#[test]
fn normalize_single_value_to_zero() {
    let v: Vec<usize> = vec![42];
    assert_eq!(normalize(&v).unwrap(), vec![0]);
}

#[test]
fn normalize_varying_values() {
    let v: Vec<usize> = vec![42, 3, 2, 42, 2];
    let e: Vec<u8> = vec![0, 1, 2, 0, 2];
    assert_eq!(normalize(&v).unwrap(), e);
}

#[test]
fn normalize_errors_if_too_many_unique_values() {
    let num = 257;
    let mut v: Vec<usize> = vec![0; num];
    for i in 0..num {
        v[i] = i;
    }
    assert_eq!(normalize(&v), Err(Error::AlphabetOverflow));
}

#[test]
fn normalize_accepts_256_unique_values() {
    let num = 256;
    let mut v: Vec<usize> = vec![0; num];
    for i in 0..num {
        v[i] = i;
    }
    let codes = normalize(&v).unwrap();
    assert_eq!(codes.len(), num);
    assert_eq!(codes[0], 0);
    assert_eq!(codes[255], 255);
}

#[test]
fn normalize_is_deterministic() {
    let v: Vec<usize> = vec![7, 7, 1, 900, 1, 7];
    let first = normalize(&v).unwrap();
    let second = normalize(&v).unwrap();
    assert_eq!(first, second);
}

#[test]
fn normalize_codes_below_distinct_count() {
    let v: Vec<usize> = vec![9, 8, 7, 9, 8, 8];
    let codes = normalize(&v).unwrap();
    assert_eq!(codes.len(), v.len());
    for &c in codes.iter() {
        assert!((c as usize) < 3);
    }
}

#[test]
fn add_patterns_adds_two_items() {
    let indices = vec![1, 0];
    let lcp = vec![0, 3];
    let mut map = PatternMap::new(lcp.len());
    add_patterns(&mut map, &indices, &lcp);
    assert_eq!(map.pattern_length_at(0).unwrap(), 3);
    assert_eq!(map.patterns_at(0).unwrap(), &vec![0]);
    assert_eq!(map.patterns_at(1).unwrap(), &vec![0]);
}

#[test]
fn add_patterns_for_decreasing_lengths() {
    let indices = vec![2, 1, 0];
    let lcp = vec![0, 3, 2];
    let mut map = PatternMap::new(lcp.len());
    add_patterns(&mut map, &indices, &lcp);

    let expected_lengths: Vec<u32> = vec![3, 2];
    for (i, &x) in expected_lengths.iter().enumerate() {
        assert_eq!(map.pattern_length_at(i as u32).unwrap(), x);
    }
    let expected_patterns: Vec<Vec<u32>> = vec![vec![1], vec![0, 1], vec![0, 1]];
    for (i, x) in expected_patterns.iter().enumerate() {
        assert_eq!(map.patterns_at(i).unwrap(), x);
    }
}

#[test]
fn add_patterns_for_increasing_lengths() {
    let indices = vec![0, 1, 2];
    let lcp = vec![0, 2, 3];
    let mut map = PatternMap::new(lcp.len());
    add_patterns(&mut map, &indices, &lcp);

    let expected_lengths: Vec<u32> = vec![2, 3];
    for (i, &x) in expected_lengths.iter().enumerate() {
        assert_eq!(map.pattern_length_at(i as u32).unwrap(), x);
    }
    let expected_patterns: Vec<Vec<u32>> = vec![vec![0], vec![0, 1], vec![0, 1]];
    for (i, x) in expected_patterns.iter().enumerate() {
        assert_eq!(map.patterns_at(i).unwrap(), x);
    }
}

#[test]
fn add_patterns_for_same_lengths() {
    let indices = vec![0, 1, 2];
    let lcp = vec![0, 2, 2];
    let mut map = PatternMap::new(lcp.len());
    add_patterns(&mut map, &indices, &lcp);

    assert_eq!(map.pattern_length_at(0).unwrap(), 2);
    for i in 0..lcp.len() {
        assert_eq!(map.patterns_at(i).unwrap(), &vec![0]);
    }
}

#[test]
fn add_patterns_for_varying_lengths() {
    let indices = vec![0, 1, 2, 3, 4];
    let lcp = vec![0, 2, 3, 4, 2];
    let mut map = PatternMap::new(lcp.len());
    add_patterns(&mut map, &indices, &lcp);

    let expected_lengths: Vec<u32> = vec![2, 3, 4];
    for (i, &x) in expected_lengths.iter().enumerate() {
        assert_eq!(map.pattern_length_at(i as u32).unwrap(), x);
    }
    let expected_patterns: Vec<Vec<u32>> =
        vec![vec![0], vec![0, 1], vec![0, 1, 2], vec![0, 1, 2], vec![0]];
    for (i, x) in expected_patterns.iter().enumerate() {
        assert_eq!(map.patterns_at(i).unwrap(), x);
    }
}

#[test]
fn add_patterns_test_skip() {
    let indices = vec![0, 1, 2, 3, 4, 5];
    let lcp = vec![0, 3, 2, 3, 4, 2];
    let mut map = PatternMap::new(lcp.len());
    add_patterns(&mut map, &indices, &lcp);

    let expected_lengths: Vec<u32> = vec![3, 2, 3, 4];
    for (i, &x) in expected_lengths.iter().enumerate() {
        assert_eq!(map.pattern_length_at(i as u32).unwrap(), x);
    }

    let expected_patterns: Vec<Vec<u32>> = vec![
        vec![0, 1],
        vec![0, 1],
        vec![1, 2],
        vec![1, 2, 3],
        vec![1, 2, 3],
        vec![1],
    ];
    for (i, x) in expected_patterns.iter().enumerate() {
        assert_eq!(map.patterns_at(i).unwrap(), x);
    }
}

#[test]
fn patternize_one_item_produces_no_patterns() {
    let indices = vec![0];
    let lcp = vec![0];
    let map = patternize(&indices, &lcp);
    assert_eq!(map.patterns_at(0).unwrap().len(), 0);
}

#[test]
fn patternize_multiple_segments() {
    let indices = vec![0, 1, 2, 3];
    let lcp = vec![0, 3, 0, 3];
    let map = patternize(&indices, &lcp);

    let expected_lengths = vec![3, 3];
    for (i, &x) in expected_lengths.iter().enumerate() {
        assert_eq!(map.pattern_length_at(i as u32).unwrap(), x);
    }
}

#[test]
fn discover_patterns_on_empty_sequence() {
    let empty: Vec<usize> = vec![];
    let codes = normalize(&empty).unwrap();
    assert_eq!(codes.len(), 0);
    let map = discover_patterns(&codes).unwrap();
    assert_eq!(map.num_patterns(), 0);
    assert_eq!(map.num_indices(), 0);
}

#[test]
fn discover_patterns_on_single_element() {
    let codes = normalize(&vec![31]).unwrap();
    let map = discover_patterns(&codes).unwrap();
    assert_eq!(map.num_patterns(), 0);
    assert_eq!(map.patterns_at(0).unwrap(), &Vec::<u32>::new());
}

#[test]
fn discover_patterns_twice_gives_same_map() {
    let codes: Vec<u8> = vec![0, 1, 2, 0, 1, 2, 0, 1];
    let first = discover_patterns(&codes).unwrap();
    let second = discover_patterns(&codes).unwrap();
    assert_eq!(first.num_patterns(), second.num_patterns());
    assert_eq!(first.num_indices(), second.num_indices());
    for i in 0..first.num_patterns() {
        assert_eq!(
            first.pattern_length_at(i as u32).unwrap(),
            second.pattern_length_at(i as u32).unwrap()
        );
    }
    for i in 0..first.num_indices() {
        assert_eq!(first.patterns_at(i).unwrap(), second.patterns_at(i).unwrap());
    }
}

#[test]
fn chunk_finds_repeated_run() {
    let data: Vec<usize> = vec![10, 20, 30, 10, 20, 30];
    let map = chunk(&data).unwrap();
    assert_eq!(map.num_indices(), 6);
    assert_eq!(map.num_patterns(), 2);
    assert_eq!(map.pattern_length_at(0).unwrap(), 3);
    assert_eq!(map.pattern_length_at(1).unwrap(), 2);
    assert_eq!(map.patterns_at(0).unwrap(), &vec![0]);
    assert_eq!(map.patterns_at(1).unwrap(), &vec![1]);
    assert_eq!(map.patterns_at(2).unwrap(), &Vec::<u32>::new());
    assert_eq!(map.patterns_at(3).unwrap(), &vec![0]);
    assert_eq!(map.patterns_at(4).unwrap(), &vec![1]);
    assert_eq!(map.patterns_at(5).unwrap(), &Vec::<u32>::new());
}

#[test]
fn chunk_records_no_short_patterns() {
    let data: Vec<usize> = vec![5, 6, 5, 6, 5, 6, 9, 5, 6];
    let map = chunk(&data).unwrap();
    assert!(map.num_patterns() > 0);
    for i in 0..map.num_patterns() {
        assert!(map.pattern_length_at(i as u32).unwrap() >= 2);
    }
}

#[test]
fn chunk_errors_on_overflowing_alphabet() {
    let num = 257;
    let mut v: Vec<usize> = vec![0; num];
    for i in 0..num {
        v[i] = i * 2;
    }
    assert!(matches!(chunk(&v), Err(Error::AlphabetOverflow)));
}

#[test]
fn chunk_reports_unsupported_alphabet() {
    // 129 distinct values: code 128 is not valid UTF-8 on its own, so the
    // suffix/LCP provider cannot take the normalized sequence.
    let num = 129;
    let mut v: Vec<usize> = vec![0; num];
    for i in 0..num {
        v[i] = i;
    }
    assert!(matches!(chunk(&v), Err(Error::UnsupportedAlphabet)));
}

#[test]
fn pattern_map_rejects_bad_lookups() {
    let map = PatternMap::new(1);
    assert_eq!(map.pattern_length_at(0), Err(Error::InvalidPatternId));
    assert_eq!(map.patterns_at(5), Err(Error::InvalidPosition));
    assert_eq!(map.num_patterns(), 0);
    assert_eq!(map.num_indices(), 1);
}

#[test]
fn add_patterns_for_three_equal_lengths() {
    let indices = vec![0, 1, 2, 3];
    let lcp = vec![0, 2, 2, 2];
    let mut map = PatternMap::new(lcp.len());
    add_patterns(&mut map, &indices, &lcp);

    assert_eq!(map.num_patterns(), 1);
    assert_eq!(map.pattern_length_at(0).unwrap(), 2);
    for i in 0..lcp.len() {
        assert_eq!(map.patterns_at(i).unwrap(), &vec![0]);
    }
}

#[test]
fn add_patterns_for_two_equal_runs() {
    let indices = vec![0, 1, 2, 3, 4, 5];
    let lcp = vec![0, 3, 3, 2, 3, 3];
    let mut map = PatternMap::new(lcp.len());
    add_patterns(&mut map, &indices, &lcp);

    let expected_lengths: Vec<u32> = vec![3, 2, 3];
    assert_eq!(map.num_patterns(), expected_lengths.len());
    for (i, &x) in expected_lengths.iter().enumerate() {
        assert_eq!(map.pattern_length_at(i as u32).unwrap(), x);
    }
    let expected_patterns: Vec<Vec<u32>> = vec![
        vec![0, 1],
        vec![0, 1],
        vec![0, 1],
        vec![1, 2],
        vec![1, 2],
        vec![1, 2],
    ];
    for (i, x) in expected_patterns.iter().enumerate() {
        assert_eq!(map.patterns_at(i).unwrap(), x);
    }
}
