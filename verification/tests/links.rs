use aries::gemtext::Link;
use aries::links::LinkTable;

fn link(label: &str, target: &str) -> Link {
    Link { alt: None, link: target.to_string(), f_char: label.to_string(), is_relative: true }
}

#[test]
fn get_after_insert() {
    let mut t = LinkTable::new();
    assert!(t.get(&"ab".to_string()).is_none());
    t.insert(link("ab", "one"));
    t.insert(link("ac", "two"));
    assert_eq!(t.get(&"ab".to_string()).unwrap().link, "one");
    t.insert(link("ab", "three"));
    assert_eq!(t.get(&"ab".to_string()).unwrap().link, "three");
    assert_eq!(t.get(&"ac".to_string()).unwrap().link, "two");
    t.clear();
    assert!(t.get(&"ac".to_string()).is_none());
}
