use wordle::Char;
use wordle::CharSet;

#[test]
fn test_charset_len() {
    let mut s = CharSet::empty();
    for i in 0..26 {
        assert_eq!(s.len(), i);
        s.insert(Char::from_u8(i as u8));
        assert_eq!(s.len(), i + 1);
    }
}

#[test]
fn charset_insert_remove_contains() {
    let mut s = CharSet::empty();
    let a = Char::from_char('a');
    let z = Char::from_char('z');
    assert!(!s.contains(a));
    assert!(s.insert(a));
    assert!(!s.insert(a));
    assert!(s.contains(a));
    assert!(!s.contains(z));
    assert!(s.insert(z));
    assert_eq!(s.len(), 2);
    assert!(s.remove(a));
    assert!(!s.remove(a));
    assert!(!s.contains(a));
    assert_eq!(s.len(), 1);
    s.clear();
    assert_eq!(s.len(), 0);
}

#[test]
fn charset_with_all_and_iter() {
    let s = CharSet::with_all();
    assert_eq!(s.len(), 26);
    let letters = s.iter();
    assert_eq!(letters.len(), 26);
    assert_eq!(letters[0].char(), 'a');
    assert_eq!(letters[25].char(), 'z');
}
