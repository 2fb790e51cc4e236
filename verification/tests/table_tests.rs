use bigbrain::implicant::{Implicant, Output};
use bigbrain::table::{Error, Table};

fn table(n: usize, outputs: Vec<Output>) -> Table {
    match Table::new(n, outputs) {
        Ok(t) => t,
        Err(_) => panic!("table construction failed"),
    }
}

#[test]
fn new_accepts_exact_length() {
    let t = table(2, vec![Output::One, Output::Zero, Output::DontCare, Output::One]);
    assert_eq!(t.n, 2);
    assert_eq!(t.outputs.len(), 4);
}

#[test]
fn new_rejects_wrong_length() {
    let r = Table::new(2, vec![Output::Zero, Output::Zero, Output::Zero]);
    assert!(matches!(r, Err(Error::MalformedTable)));
    let r = Table::new(3, vec![Output::One; 4]);
    assert!(matches!(r, Err(Error::MalformedTable)));
}

#[test]
fn is_minterm_in_range() {
    let t = table(2, vec![Output::One, Output::Zero, Output::DontCare, Output::One]);
    assert_eq!(t.is_minterm(0), Ok(true));
    assert_eq!(t.is_minterm(1), Ok(false));
    assert_eq!(t.is_minterm(2), Ok(false));
    assert_eq!(t.is_minterm(3), Ok(true));
}

#[test]
fn is_minterm_out_of_range() {
    let t = table(2, vec![Output::One, Output::Zero, Output::DontCare, Output::One]);
    assert_eq!(t.is_minterm(4), Err(Error::OutOfBounds));
    assert_eq!(t.is_minterm(100), Err(Error::OutOfBounds));
}

#[test]
fn minterms_sorted_and_exact() {
    let t = table(2, vec![Output::One, Output::Zero, Output::DontCare, Output::One]);
    assert_eq!(t.minterms(), vec![0, 3]);
    let empty = table(2, vec![Output::Zero; 4]);
    assert_eq!(empty.minterms(), Vec::<usize>::new());
}

#[test]
fn from_table_idx_expands_bits() {
    let imp = Implicant::from_table_idx(3, 5, true);
    assert_eq!(imp.values, vec![Output::One, Output::Zero, Output::One]);
    assert_eq!(imp.constituents, vec![5]);
    assert_eq!(imp.text(), "101");
    assert_eq!(imp.constituent_count(), 1);
}

#[test]
fn from_table_idx_dont_care_has_no_constituents() {
    let imp = Implicant::from_table_idx(3, 2, false);
    assert_eq!(imp.values, vec![Output::Zero, Output::One, Output::Zero]);
    assert_eq!(imp.constituent_count(), 0);
    assert_eq!(imp.text(), "010");
}

#[test]
fn output_chars() {
    assert_eq!(Output::Zero.as_char(), '0');
    assert_eq!(Output::One.as_char(), '1');
    assert_eq!(Output::DontCare.as_char(), '-');
}

#[test]
fn text_renders_most_significant_first() {
    let imp = Implicant {
        values: vec![Output::One, Output::Zero, Output::DontCare],
        constituents: vec![],
    };
    assert_eq!(imp.text(), "-01");
}

#[test]
fn try_merge_complementary_pair() {
    let a = Implicant::from_table_idx(3, 0, true);
    let b = Implicant::from_table_idx(3, 1, true);
    let m = a.try_merge(&b).expect("merge must succeed");
    assert_eq!(m.values, vec![Output::DontCare, Output::Zero, Output::Zero]);
    assert_eq!(m.text(), "00-");
    let mut cs = m.constituents.clone();
    cs.sort();
    assert_eq!(cs, vec![0, 1]);
}

#[test]
fn try_merge_unions_constituents() {
    let a = Implicant { values: vec![Output::Zero, Output::One], constituents: vec![2] };
    let b = Implicant { values: vec![Output::One, Output::One], constituents: vec![3] };
    let m = a.try_merge(&b).expect("merge must succeed");
    assert_eq!(m.text(), "1-");
    let mut cs = m.constituents.clone();
    cs.sort();
    assert_eq!(cs, vec![2, 3]);
}

#[test]
fn try_merge_fails_on_two_differences() {
    let a = Implicant::from_table_idx(3, 0, true);
    let b = Implicant::from_table_idx(3, 3, true);
    assert!(a.try_merge(&b).is_none());
}

#[test]
fn try_merge_fails_on_dont_care_difference() {
    let a = Implicant {
        values: vec![Output::DontCare, Output::Zero, Output::Zero],
        constituents: vec![],
    };
    let b = Implicant::from_table_idx(3, 0, true);
    assert!(a.try_merge(&b).is_none());
    assert!(b.try_merge(&a).is_none());
}

#[test]
fn try_merge_fails_on_equal_vectors() {
    let a = Implicant::from_table_idx(3, 6, true);
    let b = Implicant::from_table_idx(3, 6, false);
    assert!(a.try_merge(&b).is_none());
    assert!(a.try_merge(&a).is_none());
}

#[test]
fn try_merge_with_aligned_dont_cares() {
    let a = Implicant {
        values: vec![Output::DontCare, Output::Zero, Output::Zero],
        constituents: vec![0, 1],
    };
    let b = Implicant {
        values: vec![Output::DontCare, Output::One, Output::Zero],
        constituents: vec![2, 3],
    };
    let m = a.try_merge(&b).expect("merge must succeed");
    assert_eq!(m.text(), "0--");
    let mut cs = m.constituents.clone();
    cs.sort();
    assert_eq!(cs, vec![0, 1, 2, 3]);
}

#[test]
fn prime_implicants_are_pairwise_unmergeable() {
    let t = table(
        3,
        vec![
            Output::One,
            Output::One,
            Output::One,
            Output::Zero,
            Output::Zero,
            Output::One,
            Output::One,
            Output::One,
        ],
    );
    let primes = t.prime_implicants();
    assert_eq!(primes.len(), 6);
    for (i, a) in primes.iter().enumerate() {
        for (j, b) in primes.iter().enumerate() {
            assert!(a.try_merge(b).is_none());
            if i != j {
                assert!(a.values != b.values);
            }
        }
    }
}

#[test]
fn prime_implicants_cover_all_minterms() {
    let t = table(
        3,
        vec![
            Output::One,
            Output::One,
            Output::One,
            Output::Zero,
            Output::Zero,
            Output::One,
            Output::One,
            Output::One,
        ],
    );
    let primes = t.prime_implicants();
    for m in t.minterms() {
        assert!(primes.iter().any(|p| p.constituents.contains(&m)));
    }
    for p in &primes {
        for c in &p.constituents {
            assert_eq!(t.is_minterm(*c), Ok(true));
        }
    }
}

#[test]
fn prime_implicants_merge_transitively() {
    // one forced-1 row, every other row free: everything merges into the
    // single all-free implicant
    let mut outputs = vec![Output::DontCare; 16];
    outputs[0] = Output::One;
    let t = table(4, outputs);
    let primes = t.prime_implicants();
    assert_eq!(primes.len(), 1);
    assert_eq!(primes[0].text(), "----");
    assert_eq!(primes[0].constituents, vec![0]);
}

#[test]
fn implicant_identity_is_by_values_alone() {
    let a = Implicant { values: vec![Output::One, Output::DontCare], constituents: vec![1, 3] };
    let b = Implicant { values: vec![Output::One, Output::DontCare], constituents: vec![3] };
    let c = Implicant { values: vec![Output::Zero, Output::DontCare], constituents: vec![1, 3] };
    assert!(a == b);
    assert!(a != c);
}
