use event_system::keyed::{KeyedVec, U64Map};
use event_system::EventHandler;
use event_system::util::{is_mut, Changed, Consumable, Var};

#[test]
fn consumable_gives_its_value_once() {
    let mut c = Consumable::new(String::from("payload"));
    assert!(!c.is_consumed());
    assert_eq!(c.state_label(), "Unconsumed");
    assert_eq!(c.consume(), Some(String::from("payload")));
    assert!(c.is_consumed());
    assert_eq!(c.state_label(), "Consumed");
    assert_eq!(c.consume(), None);
    assert_eq!(c.consume(), None);
}

#[test]
fn var_reports_only_the_first_change() {
    let mut v = Var::new("ctx", 1u32);
    assert_eq!(*v.val(), 1);
    assert_eq!(*v.ctx(), "ctx");
    let (notify, val) = v.val_mut();
    assert!(notify);
    *val = 2;
    let (notify, val) = v.val_mut();
    assert!(!notify);
    *val += 1;
    assert_eq!(*v.val(), 3);
    v.on_changed(&Changed::default());
    let (notify, _) = v.val_mut();
    assert!(notify);
    assert_eq!(*v.val(), 3);
}

#[test]
fn is_mut_reads_the_keyword() {
    assert!(is_mut("mut"));
    assert!(!is_mut("ref"));
    assert!(is_mut("mutable"));
    assert!(!is_mut("reference"));
}

#[test]
fn keyed_vec_is_a_map() {
    let a = EventHandler::new(1, 10);
    let b = EventHandler::new(2, 10);
    let mut t: KeyedVec<EventHandler, &str> = KeyedVec::new();
    assert_eq!(t.len(), 0);
    assert_eq!(t.insert(a, "a"), None);
    assert_eq!(t.insert(b, "b"), None);
    assert_eq!(t.insert(a, "A"), Some("a"));
    assert_eq!(t.len(), 2);
    assert_eq!(t.get(&a), Some(&"A"));
    assert!(t.contains_key(&b));
    let keys = t.keys();
    assert_eq!(keys.len(), 2);
    assert!(keys.contains(&a) && keys.contains(&b));
    assert_eq!(t.remove(&a), Some("A"));
    assert_eq!(t.remove(&a), None);
    assert_eq!(t.get(&a), None);
    assert_eq!(t.len(), 1);
}

#[test]
fn u64_map_is_a_map() {
    let mut t: U64Map<&str> = U64Map::new();
    assert_eq!(t.len(), 0);
    assert_eq!(t.insert(5, "five"), None);
    assert_eq!(t.insert(7, "seven"), None);
    assert_eq!(t.insert(5, "FIVE"), Some("five"));
    assert_eq!(t.len(), 2);
    assert_eq!(t.get(&5), Some(&"FIVE"));
    assert!(t.contains_key(&7));
    let mut keys = t.keys();
    keys.sort();
    assert_eq!(keys, vec![5, 7]);
    assert_eq!(t.remove(&5), Some("FIVE"));
    assert_eq!(t.remove(&5), None);
    assert_eq!(t.len(), 1);
}
