use wordle::Difference;
use wordle::Word;

#[test]
fn compute_difference() {
    assert_eq!(
        Difference::from(
            &Word::from_str("aaaaa").unwrap(),
            &Word::from_str("aaaab").unwrap()
        ),
        Difference { m: 0x0f }
    );
    assert_eq!(
        Difference::from(
            &Word::from_str("aaaaa").unwrap(),
            &Word::from_str("bbbbb").unwrap()
        ),
        Difference { m: 0x0 }
    );
    assert_eq!(
        Difference::from(
            &Word::from_str("aaaaa").unwrap(),
            &Word::from_str("aaaaa").unwrap()
        ),
        Difference { m: 0x1f }
    );
}

#[test]
fn difference_counts() {
    let d = Difference::from(
        &Word::from_str("aaaaa").unwrap(),
        &Word::from_str("aaaab").unwrap(),
    );
    assert_eq!(d.number_same(), 4);
    assert_eq!(d.number_different(), 1);
    assert!(d.at(0));
    assert!(!d.at(4));
}
