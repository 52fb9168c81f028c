use rand::Rng;
use wicker::error::PickerError;
use wicker::table::{AliasTable, Pairing};
use wicker::weight::ONE;
use wicker::{validate, WeightedPicker};

fn table_for(weights: &[f64]) -> Result<AliasTable, PickerError> {
    let len = weights.len() as f64;
    let total: f64 = weights.iter().sum();
    let average = len.recip();
    let scaled = weights
        .iter()
        .map(|weight| (*weight / total * len).to_bits())
        .collect();
    let mut pairing = Pairing::start(scaled, average.to_bits())?;
    while let Some((less, more)) = pairing.pending() {
        let held_less = f64::from_bits(pairing.scaled()[less]);
        let held_more = f64::from_bits(pairing.scaled()[more]);
        let prob = held_less * len;
        let rest = held_more + held_less - average;
        pairing.settle(prob.to_bits(), rest.to_bits())?;
    }
    Ok(pairing.finish())
}

/// The table over `prob` in which every column that hands over hands over to
/// the last one, which always keeps its own entry.
fn leaning(prob: &[f64]) -> AliasTable {
    let one = 1.0f64.to_bits();
    let mut scaled = vec![0; prob.len()];
    scaled.push(one);
    let mut pairing = Pairing::start(scaled, one).unwrap();
    for column in (0..prob.len()).rev() {
        assert_eq!(pairing.pending(), Some((column, prob.len())));
        pairing.settle(prob[column].to_bits(), one).unwrap();
    }
    pairing.finish()
}

fn bits<T>(entries: Vec<(T, f64)>) -> Vec<(T, u64)> {
    entries
        .into_iter()
        .map(|(item, weight)| (item, weight.to_bits()))
        .collect()
}

fn build<T>(entries: Vec<(T, f64)>) -> Result<WeightedPicker<T>, PickerError> {
    let weights: Vec<f64> = entries.iter().map(|(_, weight)| *weight).collect();
    let table = table_for(&weights)?;
    WeightedPicker::new(bits(entries), table)
}

fn uniform(columns: usize) -> AliasTable {
    Pairing::start(vec![1.0f64.to_bits(); columns], 1.0f64.to_bits())
        .unwrap()
        .finish()
}

#[test]
fn pick() {
    let picker = build(vec![
        ("common", 10.0),
        ("uncommon", 5.0),
        ("rare", 2.0),
        ("legendary", 1.0),
        ("mythic", 0.1),
    ])
    .unwrap();

    let mut rng = rand::thread_rng();
    for _ in 0..10 {
        let column = rng.gen_range(0..picker.len());
        let coin: f64 = rng.gen();
        println!("- {}", picker.get(column, coin.to_bits()));
    }
}

#[test]
fn new_rejects_no_entries() {
    let none: Vec<(&str, u64)> = Vec::new();
    assert_eq!(
        WeightedPicker::new(none, uniform(0)).err(),
        Some(PickerError::InvalidInput)
    );
    let none: Vec<(&str, u64)> = Vec::new();
    assert_eq!(
        WeightedPicker::new(none, uniform(3)).err(),
        Some(PickerError::InvalidInput)
    );
    let none: Vec<(u8, u64)> = Vec::new();
    assert_eq!(
        WeightedPicker::pick(none, uniform(0), 0, 0).err(),
        Some(PickerError::InvalidInput)
    );
}

#[test]
fn new_rejects_a_table_of_another_size() {
    let entries = bits(vec![("a", 1.0), ("b", 2.0)]);
    assert_eq!(
        WeightedPicker::new(entries, uniform(3)).err(),
        Some(PickerError::InvalidInput)
    );
    let entries = bits(vec![("a", 1.0), ("b", 2.0)]);
    assert_eq!(
        WeightedPicker::new(entries, uniform(1)).err(),
        Some(PickerError::InvalidInput)
    );
    // the size is looked at before the weights
    let entries = bits(vec![("a", f64::NAN), ("b", 2.0)]);
    assert_eq!(
        WeightedPicker::new(entries, uniform(0)).err(),
        Some(PickerError::InvalidInput)
    );
}

#[test]
fn new_rejects_unusable_weights() {
    for bad in [
        -1.0,
        -5e-324,
        f64::INFINITY,
        f64::NEG_INFINITY,
        f64::NAN,
        -f64::NAN,
    ] {
        let entries = bits(vec![("a", 1.0), ("b", bad), ("c", 2.0)]);
        assert_eq!(
            WeightedPicker::new(entries, uniform(3)).err(),
            Some(PickerError::InvalidWeight),
            "{bad:?}"
        );
        let entries = bits(vec![("a", 1.0), ("b", bad), ("c", 2.0)]);
        assert_eq!(validate(&entries), Err(PickerError::InvalidWeight));
    }
}

#[test]
fn new_rejects_a_total_of_zero() {
    let entries = bits(vec![("a", 0.0), ("b", -0.0), ("c", 0.0)]);
    assert_eq!(
        WeightedPicker::new(entries, uniform(3)).err(),
        Some(PickerError::InvalidWeight)
    );
    let entries = bits(vec![("a", 0.0)]);
    assert_eq!(validate(&entries), Err(PickerError::InvalidWeight));
}

#[test]
fn validate_accepts_what_new_accepts() {
    let none: Vec<(u8, u64)> = Vec::new();
    assert_eq!(validate(&none), Err(PickerError::InvalidInput));
    assert_eq!(validate(&bits(vec![(1u8, 0.0), (2u8, 5e-324)])), Ok(()));
    assert_eq!(validate(&bits(vec![(1u8, f64::MAX)])), Ok(()));
    assert_eq!(validate(&bits(vec![(1u8, -0.0), (2u8, 3.0)])), Ok(()));
    assert!(WeightedPicker::new(bits(vec![(1u8, -0.0), (2u8, 3.0)]), uniform(2)).is_ok());
}

#[test]
fn a_single_entry_always_comes_out() {
    for weight in [0.3, 1.0, 1e300, 5e-324] {
        let table = table_for(&[weight]).unwrap();
        assert_eq!(table.probabilities(), &vec![1.0f64.to_bits()]);
        assert_eq!(table.aliases(), &vec![0]);
        let picker = WeightedPicker::new(bits(vec![("only", weight)]), table).unwrap();
        assert_eq!(picker.len(), 1);
        assert_eq!(picker.get_idx(0, 0), 0);
        assert_eq!(picker.get_idx(0, 0.9999999999999999f64.to_bits()), 0);
        assert_eq!(*picker.get(0, 0.5f64.to_bits()), "only");
    }
}

#[test]
fn get_idx_keeps_the_column_below_its_probability() {
    // column 0 always hands over to column 2, and column 1 once in four times
    let table = leaning(&[0.0, 0.75]);
    assert_eq!(table.probabilities(), &vec![0, 0.75f64.to_bits(), ONE]);
    assert_eq!(table.aliases(), &vec![2, 2, 0]);
    let picker =
        WeightedPicker::new(bits(vec![("a", 1.0), ("c", 2.0), ("b", 5.0)]), table).unwrap();

    assert_eq!(picker.get_idx(1, 0.0f64.to_bits()), 1);
    assert_eq!(picker.get_idx(1, 0.5f64.to_bits()), 1);
    assert_eq!(picker.get_idx(1, 0.7499999999999999f64.to_bits()), 1);
    assert_eq!(picker.get_idx(1, 0.75f64.to_bits()), 2);
    assert_eq!(picker.get_idx(1, 0.9f64.to_bits()), 2);

    assert_eq!(picker.get_idx(0, 0.0f64.to_bits()), 2);
    assert_eq!(picker.get_idx(0, (-0.0f64).to_bits()), 2);
    assert_eq!(picker.get_idx(0, 0.3f64.to_bits()), 2);

    assert_eq!(picker.get_idx(2, 0.0f64.to_bits()), 2);
    assert_eq!(picker.get_idx(2, 0.9999999999999999f64.to_bits()), 2);
    // a coin of one is outside the draws, and not below a probability of one
    assert_eq!(picker.get_idx(2, 1.0f64.to_bits()), 0);
    // a coin that is no number is below nothing
    assert_eq!(picker.get_idx(1, f64::NAN.to_bits()), 2);

    assert_eq!(*picker.get(1, 0.5f64.to_bits()), "c");
    assert_eq!(*picker.get(1, 0.8f64.to_bits()), "b");
    assert_eq!(*picker.get(0, 0.5f64.to_bits()), "b");
}

#[test]
fn get_idx_stays_within_the_entries() {
    let picker = build(vec![
        ("common", 10.0),
        ("uncommon", 5.0),
        ("rare", 2.0),
        ("legendary", 1.0),
        ("mythic", 0.1),
    ])
    .unwrap();
    let mut rng = rand::thread_rng();
    for _ in 0..10_000 {
        let column = rng.gen_range(0..picker.len());
        let coin: f64 = rng.gen();
        let idx = picker.get_idx(column, coin.to_bits());
        assert!(idx < picker.len());
        assert_eq!(
            picker.get(column, coin.to_bits()),
            picker.get_by_idx(idx).unwrap()
        );
    }
}

#[test]
fn len_counts_the_entries() {
    assert_eq!(build(vec![((), 1.0)]).unwrap().len(), 1);
    assert_eq!(
        build(vec![((), 1.0), ((), 0.0), ((), 2.0)]).unwrap().len(),
        3
    );
}

#[test]
fn get_by_idx_is_bounds_checked() {
    let picker = build(vec![("a", 1.0), ("b", 5.0), ("c", 2.0)]).unwrap();
    assert_eq!(picker.get_by_idx(0), Some(&"a"));
    assert_eq!(picker.get_by_idx(1), Some(&"b"));
    assert_eq!(picker.get_by_idx(2), Some(&"c"));
    assert_eq!(picker.get_by_idx(3), None);
    assert_eq!(picker.get_by_idx(usize::MAX), None);
}

#[test]
fn get_mut_by_idx_changes_the_entry_only() {
    let mut picker = build(vec![
        (String::from("a"), 1.0),
        (String::from("b"), 5.0),
        (String::from("c"), 2.0),
    ])
    .unwrap();
    assert!(picker.get_mut_by_idx(3).is_none());
    picker.get_mut_by_idx(1).unwrap().push_str("ee");
    *picker.get_mut_by_idx(2).unwrap() = String::from("sea");
    assert_eq!(picker.len(), 3);
    assert_eq!(picker.get_by_idx(0).unwrap(), "a");
    assert_eq!(picker.get_by_idx(1).unwrap(), "bee");
    assert_eq!(picker.get_by_idx(2).unwrap(), "sea");
    // the weights are what they were: the order by weight has not changed
    let mut iter = picker.iter();
    assert_eq!(iter.next().unwrap(), "a");
    assert_eq!(iter.next().unwrap(), "sea");
    assert_eq!(iter.next().unwrap(), "bee");
}

#[test]
fn pick_hands_out_the_entry_drawn() {
    let entries = || bits(vec![("a", 1.0), ("c", 2.0), ("b", 5.0)]);
    let table = || leaning(&[0.0, 0.75]);
    assert_eq!(
        WeightedPicker::pick(entries(), table(), 1, 0.5f64.to_bits()),
        Ok("c")
    );
    assert_eq!(
        WeightedPicker::pick(entries(), table(), 1, 0.75f64.to_bits()),
        Ok("b")
    );
    assert_eq!(
        WeightedPicker::pick(entries(), table(), 0, 0.0f64.to_bits()),
        Ok("b")
    );
    assert_eq!(
        WeightedPicker::pick(entries(), table(), 2, 0.25f64.to_bits()),
        Ok("b")
    );
    assert_eq!(
        WeightedPicker::pick(entries(), uniform(3), 0, 0.25f64.to_bits()),
        Ok("a")
    );
    assert_eq!(
        WeightedPicker::pick(entries(), uniform(2), 0, 0.25f64.to_bits()),
        Err(PickerError::InvalidInput)
    );
    assert_eq!(
        WeightedPicker::pick(bits(vec![("a", -1.0)]), uniform(1), 0, 0),
        Err(PickerError::InvalidWeight)
    );
}

#[test]
fn clone_keeps_weights_and_table() {
    let picker = build(vec![("a", 1.0), ("b", 5.0), ("c", 2.0)]).unwrap();
    let copy = picker.clone();
    assert_eq!(copy.len(), 3);
    for column in 0..3 {
        for coin in [0.0f64, 0.3, 0.6, 0.9] {
            assert_eq!(
                copy.get_idx(column, coin.to_bits()),
                picker.get_idx(column, coin.to_bits())
            );
        }
    }
    let mut iter = copy.iter();
    assert_eq!(iter.next().copied(), Some("a"));
    assert_eq!(iter.next().copied(), Some("c"));
    assert_eq!(iter.next().copied(), Some("b"));
}

#[test]
fn draws_follow_the_table() {
    // the table of the weights 0, 1 and 3: in units of their mean the columns
    // hold 0, 0.75 and 2.25, and the last fills up the other two
    let picker = WeightedPicker::new(
        bits(vec![("a", 0.0), ("c", 1.0), ("b", 3.0)]),
        leaning(&[0.0, 0.75]),
    )
    .unwrap();
    let mut rng = rand::thread_rng();
    let mut seen = [0u32; 3];
    let draws = 60_000;
    for _ in 0..draws {
        let column = rng.gen_range(0..picker.len());
        let coin: f64 = rng.gen();
        seen[picker.get_idx(column, coin.to_bits())] += 1;
    }
    assert_eq!(seen[0], 0);
    let share_c = f64::from(seen[1]) / f64::from(draws);
    let share_b = f64::from(seen[2]) / f64::from(draws);
    assert!((share_b - 0.75).abs() < 0.02, "{share_b}");
    assert!((share_c - 0.25).abs() < 0.02, "{share_c}");
}

#[test]
fn a_table_has_a_column_for_every_entry() {
    let mut rng = rand::thread_rng();
    for len in 1..40usize {
        let weights: Vec<f64> = (0..len).map(|_| rng.gen_range(0.0..100.0) + 1e-9).collect();
        let table = table_for(&weights).unwrap();
        assert_eq!(table.len(), len);
        assert_eq!(table.probabilities().len(), len);
        assert_eq!(table.aliases().len(), len);
        assert!(table.aliases().iter().all(|alias| *alias < len));
        assert!(table
            .probabilities()
            .iter()
            .all(|prob| (0.0..=1.0).contains(&f64::from_bits(*prob))));
        let entries = weights.iter().map(|weight| ((), weight.to_bits())).collect();
        let picker = WeightedPicker::new(entries, table).unwrap();
        assert_eq!(picker.len(), len);
        for column in 0..len {
            let coin: f64 = rng.gen();
            assert!(picker.get_idx(column, coin.to_bits()) < len);
        }
    }
}
