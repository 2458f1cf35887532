use minesweeper::names::{Generator, Name};
use minesweeper::player_list::PlayerList;

#[test]
fn players_get_sequential_ids_and_palette_colors() {
    let mut list = PlayerList::new(vec![], vec![]);
    list.construct_player(&String::from("10.0.0.1"), 1);
    list.construct_player(&String::from("10.0.0.2"), 2);
    list.construct_player(&String::from("10.0.0.1"), 3);
    let p1 = list.get_player(&String::from("10.0.0.1")).unwrap();
    let p2 = list.get_player(&String::from("10.0.0.2")).unwrap();
    assert_eq!(p1.id(), 1);
    assert_eq!(p2.id(), 2);
    assert_eq!(p1.color(), minesweeper::player_list::palette_color(1));
    assert_eq!(list.players().len(), 2);
}

#[test]
fn empty_word_lists_fall_back_to_the_address() {
    let mut list = PlayerList::new(vec![], vec![]);
    list.construct_player(&String::from("10.9.8.7"), 1);
    let p = list.get_player(&String::from("10.9.8.7")).unwrap();
    assert_eq!(p.name(), "10.9.8.7");
}

#[test]
fn keep_addr_alive_returns_id_or_nothing() {
    let mut list = PlayerList::new(vec![], vec![]);
    list.construct_player(&String::from("a"), 5);
    assert_eq!(list.keep_addr_alive(&String::from("a"), 6), Some(1));
    assert_eq!(list.keep_addr_alive(&String::from("b"), 7), None);
}

#[test]
fn capacity_eviction_recycles_the_stalest_identity() {
    let mut list = PlayerList::new(vec![], vec![]);
    for k in 0..255u32 {
        let addr = format!("10.0.{}.{}", k / 256, k % 256);
        list.construct_player(&addr, 100 + k as u64);
    }
    assert_eq!(list.players().len(), 255);
    // make the 17th entry the stalest
    assert!(list.keep_addr_alive(&String::from("10.0.0.17"), 50).is_some());
    list.construct_player(&String::from("10.0.9.9"), 9999);
    assert_eq!(list.players().len(), 255);
    assert!(list.get_player(&String::from("10.0.0.17")).is_none());
    let newcomer = list.get_player(&String::from("10.0.9.9")).unwrap();
    assert_eq!(newcomer.id(), 18);
}

#[test]
fn generator_joins_adjective_and_noun() {
    let mut g = Generator::new(
        vec![String::from("quick")],
        vec![String::from("fox")],
        Name::Plain,
    );
    assert_eq!(g.next(), Some(String::from("quick-fox")));
}

#[test]
fn numbered_names_append_four_digits() {
    let mut g = Generator::new(
        vec![String::from("quick")],
        vec![String::from("fox")],
        Name::Numbered,
    );
    let name = g.next().unwrap();
    assert_eq!(name.len(), "quick-fox-0000".len());
    assert!(name.starts_with("quick-fox-"));
    let digits = &name["quick-fox-".len()..];
    assert!(digits.chars().all(|c| c.is_ascii_digit()));
    assert!(digits.parse::<u32>().unwrap() >= 1);
}

#[test]
fn generator_with_empty_list_yields_nothing() {
    let mut g = Generator::new(vec![], vec![String::from("fox")], Name::Plain);
    assert_eq!(g.next(), None);
}
