use wicker::error::PickerError;
use wicker::table::Pairing;
use wicker::WeightedPicker;

fn build<T>(entries: Vec<(T, f64)>) -> Result<WeightedPicker<T>, PickerError> {
    let len = entries.len() as f64;
    let total: f64 = entries.iter().map(|(_, weight)| *weight).sum();
    let average = len.recip();
    let scaled = entries
        .iter()
        .map(|(_, weight)| (*weight / total * len).to_bits())
        .collect();
    let mut pairing = Pairing::start(scaled, average.to_bits())?;
    while let Some((less, more)) = pairing.pending() {
        let held_less = f64::from_bits(pairing.scaled()[less]);
        let held_more = f64::from_bits(pairing.scaled()[more]);
        let prob = held_less * len;
        let rest = held_more + held_less - average;
        pairing.settle(prob.to_bits(), rest.to_bits())?;
    }
    let items = entries
        .into_iter()
        .map(|(item, weight)| (item, weight.to_bits()))
        .collect();
    WeightedPicker::new(items, pairing.finish())
}

fn words() -> WeightedPicker<&'static str> {
    build(vec![
        ("hello", 0.3),
        ("wicker", 10.0),
        ("this", 3.0),
        ("world", 1.0),
        ("is", 5.0),
    ])
    .unwrap()
}

#[test]
fn double_ended() {
    let picker = build(vec![
        ("hello", 0.3),
        ("wicker", 10.0),
        ("this", 3.0),
        ("world", 1.0),
        ("is", 5.0),
    ])
    .unwrap();
    println!("{:?}", &picker);
    let mut iter = picker.iter();
    assert_eq!(iter.next_back().copied(), Some("wicker"));
    assert_eq!(iter.next_back().copied(), Some("is"));
    assert_eq!(iter.next_back().copied(), Some("this"));
    assert_eq!(iter.next_back().copied(), Some("world"));
    assert_eq!(iter.next_back().copied(), Some("hello"));
    assert_eq!(iter.next_back().copied(), None);
}

#[test]
fn both_ends() {
    let picker = build(vec![
        ("hello", 0.3),
        ("wicker", 10.0),
        ("this", 3.0),
        ("world", 1.0),
        ("is", 5.0),
    ])
    .unwrap();
    let mut iter = picker.iter();
    assert_eq!(iter.next_back().copied(), Some("wicker"));
    assert_eq!(iter.next().copied(), Some("hello"));
    assert_eq!(iter.next().copied(), Some("world"));
    assert_eq!(iter.next_back().copied(), Some("is"));
    assert_eq!(iter.next_back().copied(), Some("this"));
    assert_eq!(iter.next().copied(), None);
    assert_eq!(iter.next_back().copied(), None);
}

#[test]
fn exact_size() {
    let picker = build(vec![
        ("hello", 0.3),
        ("wicker", 10.0),
        ("this", 3.0),
        ("world", 1.0),
        ("is", 5.0),
    ])
    .unwrap();
    let mut iter = picker.iter();
    for idx in 0..=picker.len() {
        let expect = picker.len() - idx;
        assert_eq!(expect, iter.len());
        // get a mix of front and back
        if idx % 2 == 0 {
            iter.next();
        } else {
            iter.next_back();
        }
    }
}

#[test]
fn forward_is_ascending() {
    let picker = words();
    let mut iter = picker.iter();
    let mut seen = Vec::new();
    while let Some(word) = iter.next() {
        seen.push(*word);
    }
    assert_eq!(seen, vec!["hello", "world", "this", "is", "wicker"]);
    assert_eq!(iter.next(), None);
    assert_eq!(iter.next_back(), None);
    assert_eq!(iter.len(), 0);
}

#[test]
fn backward_is_descending() {
    let picker = words();
    let mut iter = picker.iter();
    let mut seen = Vec::new();
    while let Some(word) = iter.next_back() {
        seen.push(*word);
    }
    assert_eq!(seen, vec!["wicker", "is", "this", "world", "hello"]);
    assert_eq!(iter.len(), 0);
    assert_eq!(iter.next_back(), None);
}

#[test]
fn every_interleaving_yields_each_entry_once() {
    let picker = words();
    let n = picker.len();
    for mask in 0u32..(1 << n) {
        let mut iter = picker.iter();
        let mut front = Vec::new();
        let mut back = Vec::new();
        for call in 0..n {
            assert_eq!(iter.len(), n - call);
            if mask & (1 << call) != 0 {
                front.push(*iter.next().unwrap());
            } else {
                back.push(*iter.next_back().unwrap());
            }
        }
        assert_eq!(iter.len(), 0);
        assert_eq!(iter.next_back(), None);
        back.reverse();
        front.extend(back);
        assert_eq!(front, vec!["hello", "world", "this", "is", "wicker"]);
    }
}

#[test]
fn length_counts_down_from_either_end() {
    let picker = words();
    let mut iter = picker.iter();
    assert_eq!(iter.len(), 5);
    assert_eq!(iter.size_hint(), (5, Some(5)));
    iter.next();
    assert_eq!(iter.len(), 4);
    iter.next_back();
    assert_eq!(iter.len(), 3);
    iter.next_back();
    iter.next();
    assert_eq!(iter.size_hint(), (1, Some(1)));
    assert_eq!(iter.next().copied(), Some("this"));
    assert_eq!(iter.size_hint(), (0, Some(0)));
    assert_eq!(iter.next(), None);
    assert_eq!(iter.next_back(), None);
    assert_eq!(iter.len(), 0);
}

#[test]
fn front_after_the_back_took_everything() {
    let picker = build(vec![("only", 2.5)]).unwrap();
    let mut iter = picker.iter();
    assert_eq!(iter.len(), 1);
    assert_eq!(iter.next_back().copied(), Some("only"));
    assert_eq!(iter.len(), 0);
    assert_eq!(iter.next_back(), None);
    // the front has not passed the back, so it still yields
    assert_eq!(iter.next().copied(), Some("only"));
    assert_eq!(iter.next(), None);
    assert_eq!(iter.len(), 0);
}

#[test]
fn equal_weights_are_all_yielded() {
    let picker = build(vec![(1u8, 2.0), (2u8, 2.0), (3u8, 1.0), (4u8, 2.0)]).unwrap();
    let mut iter = picker.iter();
    assert_eq!(iter.next().copied(), Some(3));
    let mut rest = vec![
        *iter.next().unwrap(),
        *iter.next().unwrap(),
        *iter.next().unwrap(),
    ];
    rest.sort();
    assert_eq!(rest, vec![1, 2, 4]);
    assert_eq!(iter.next(), None);
}

#[test]
fn zero_weights_sort_by_sign() {
    let picker = build(vec![("plus", 0.0), ("one", 1.0), ("minus", -0.0)]).unwrap();
    let mut iter = picker.iter();
    assert_eq!(iter.next().copied(), Some("minus"));
    assert_eq!(iter.next().copied(), Some("plus"));
    assert_eq!(iter.next().copied(), Some("one"));
}
