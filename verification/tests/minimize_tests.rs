use bigbrain::cover::Strategy;
use bigbrain::implicant::{Implicant, Output};
use bigbrain::table::Table;

fn table(n: usize, outputs: Vec<Output>) -> Table {
    match Table::new(n, outputs) {
        Ok(t) => t,
        Err(_) => panic!("table construction failed"),
    }
}

fn three_var_table() -> Table {
    // indices 0, 1, 2, 5, 6, 7 are forced-1
    table(
        3,
        vec![
            Output::One,
            Output::One,
            Output::One,
            Output::Zero,
            Output::Zero,
            Output::One,
            Output::One,
            Output::One,
        ],
    )
}

fn a_segment_table() -> Table {
    table(
        4,
        vec![
            Output::One,
            Output::Zero,
            Output::One,
            Output::One,
            Output::Zero,
            Output::One,
            Output::One,
            Output::One,
            Output::One,
            Output::One,
            Output::DontCare,
            Output::DontCare,
            Output::DontCare,
            Output::DontCare,
            Output::DontCare,
            Output::DontCare,
        ],
    )
}

/// The union of the selection's constituent sets, intersected with the
/// minterm set, must equal the minterm set exactly.
fn assert_sound_cover(t: &Table, sel: &[Implicant]) {
    let minterms = t.minterms();
    for m in &minterms {
        assert!(
            sel.iter().any(|p| p.constituents.contains(m)),
            "minterm {} left uncovered",
            m
        );
    }
    for p in sel {
        assert_eq!(p.values.len(), t.n);
        for c in &p.constituents {
            assert_eq!(t.is_minterm(*c), Ok(true));
        }
    }
}

#[test]
fn exact_cover_three_var_table() {
    let t = three_var_table();
    let sel = t.minimize().expect("solver must succeed");
    assert_sound_cover(&t, &sel);
    // the minimum cover of {0,1,2,5,6,7} by the six two-element prime
    // implicants has exactly three members
    assert_eq!(sel.len(), 3);
    for imp in &sel {
        assert_eq!(imp.text().len(), 3);
    }
}

#[test]
fn greedy_cover_three_var_table() {
    let t = three_var_table();
    let sel = t.minimize_greedy();
    assert_sound_cover(&t, &sel);
    assert_eq!(sel.len(), 3);
}

#[test]
fn greedy_never_fewer_than_exact() {
    let t = three_var_table();
    let exact = t.minimize().expect("solver must succeed");
    let greedy = t.minimize_greedy();
    assert!(greedy.len() >= exact.len());

    let t2 = a_segment_table();
    let exact2 = t2.minimize().expect("solver must succeed");
    let greedy2 = t2.minimize_greedy();
    assert!(greedy2.len() >= exact2.len());
}

#[test]
fn all_zero_table_minimizes_to_nothing() {
    let t = table(3, vec![Output::Zero; 8]);
    assert_eq!(t.minimize().expect("solver must succeed").len(), 0);
    assert_eq!(t.minimize_greedy().len(), 0);
}

#[test]
fn all_dont_care_table_minimizes_to_nothing() {
    let t = table(2, vec![Output::DontCare; 4]);
    assert_eq!(t.minimize().expect("solver must succeed").len(), 0);
    assert_eq!(t.minimize_greedy().len(), 0);
}

#[test]
fn all_one_table_minimizes_to_single_free_implicant() {
    let t = table(2, vec![Output::One; 4]);
    let sel = t.minimize().expect("solver must succeed");
    assert_eq!(sel.len(), 1);
    assert_eq!(sel[0].text(), "--");
    let mut cs = sel[0].constituents.clone();
    cs.sort();
    assert_eq!(cs, vec![0, 1, 2, 3]);
    let greedy = t.minimize_greedy();
    assert_eq!(greedy.len(), 1);
    assert_eq!(greedy[0].text(), "--");
}

#[test]
fn single_minterm_rest_free_collapses_fully() {
    let mut outputs = vec![Output::DontCare; 16];
    outputs[0] = Output::One;
    let t = table(4, outputs);
    let sel = t.minimize().expect("solver must succeed");
    assert_eq!(sel.len(), 1);
    assert_eq!(sel[0].text(), "----");
    let greedy = t.minimize_greedy();
    assert_eq!(greedy.len(), 1);
    assert_eq!(greedy[0].text(), "----");
}

#[test]
fn a_segment_cover_is_sound_and_minimal() {
    let t = a_segment_table();
    let sel = t.minimize().expect("solver must succeed");
    assert_sound_cover(&t, &sel);
    let greedy = t.minimize_greedy();
    assert_sound_cover(&t, &greedy);
    assert!(sel.len() <= greedy.len());
}

#[test]
fn strategies_behind_one_interface() {
    let t = three_var_table();
    let exact = t.minimize_with(Strategy::Exact).expect("solver must succeed");
    assert_sound_cover(&t, &exact);
    let greedy = t.minimize_with(Strategy::Greedy).expect("greedy cannot fail");
    assert_sound_cover(&t, &greedy);
    assert!(greedy.len() >= exact.len());
}

#[test]
fn fallback_returns_a_cover() {
    let t = a_segment_table();
    let sel = t.minimize_or_greedy();
    assert_sound_cover(&t, &sel);
}

#[test]
fn selected_implicants_are_drawn_from_the_primes() {
    let t = three_var_table();
    let primes: Vec<String> = t.prime_implicants().iter().map(|p| p.text()).collect();
    for imp in t.minimize().expect("solver must succeed") {
        assert!(primes.contains(&imp.text()));
    }
}

#[test]
fn exact_selection_is_duplicate_free_and_unmergeable() {
    let t = a_segment_table();
    let sel = t.minimize().expect("solver must succeed");
    for (i, a) in sel.iter().enumerate() {
        for (j, b) in sel.iter().enumerate() {
            assert!(a.try_merge(b).is_none());
            if i != j {
                assert!(a.values != b.values);
            }
        }
    }
}

#[test]
fn greedy_selection_is_duplicate_free_and_unmergeable() {
    let t = a_segment_table();
    let sel = t.minimize_greedy();
    for (i, a) in sel.iter().enumerate() {
        for (j, b) in sel.iter().enumerate() {
            assert!(a.try_merge(b).is_none());
            if i != j {
                assert!(a.values != b.values);
            }
        }
    }
}
