use mark_rs::error::Error;
use mark_rs::style::color::Color;
use mark_rs::style::Style;
use mark_rs::terminal::table::StyleTable;

#[test]
fn interning_twice_shares_the_key() {
    let mut t = StyleTable::new();
    let s = Style::builder().bold().fg(Color::RED);
    let k1 = t.intern(s.clone());
    let k2 = t.intern(s);
    assert_eq!(k1, k2);
    assert_eq!(t.refs(k1), 2);
    assert_eq!(t.release(k1), Ok(()));
    assert!(t.contains(k1));
    assert_eq!(t.release(k1), Ok(()));
    assert!(!t.contains(k1));
    assert_eq!(t.refs(k1), 0);
}

#[test]
fn distinct_styles_get_distinct_keys_and_free_slots_are_reused() {
    let mut t = StyleTable::new();
    let a = t.intern(Style::builder().bold());
    let b = t.intern(Style::builder().italic());
    assert_ne!(a, b);
    assert_eq!(t.release(a), Ok(()));
    let c = t.intern(Style::builder().underline());
    assert_eq!(c, a);
    assert!(*t.resolve(c).unwrap() == Style::builder().underline());
    assert!(*t.resolve(b).unwrap() == Style::builder().italic());
}

#[test]
fn unknown_keys_are_reported() {
    let mut t = StyleTable::new();
    assert_eq!(t.release(0), Err(Error::UnknownKey));
    assert!(t.resolve(3).is_err());
    let k = t.intern(Style::builder());
    assert_eq!(t.release(k), Ok(()));
    assert_eq!(t.release(k), Err(Error::UnknownKey));
}
