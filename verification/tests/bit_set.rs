use poke_mcts::perf::bit_set::{PokemonVolatileStatus, VolatileStatusBitSet};

fn status(index: u8) -> PokemonVolatileStatus {
    PokemonVolatileStatus { index }
}

#[test]
fn statuses_come_and_go() {
    let mut s = VolatileStatusBitSet::new();
    assert!(s.is_empty());
    assert!(s == VolatileStatusBitSet::default());
    s.insert(status(0));
    s.insert(status(127));
    s.insert(status(127));
    assert!(!s.is_empty());
    assert!(s.contains(&status(0)));
    assert!(!s.contains(&status(1)));
    assert!(s.contains(&status(127)));
    assert!(s.remove(&status(127)));
    assert!(!s.remove(&status(127)));
    assert!(!s.contains(&status(127)));
    assert!(s.contains(&status(0)));
    s.clear();
    assert!(s.is_empty());
}

#[test]
fn listing_is_in_ascending_order() {
    let s = VolatileStatusBitSet::from_iter(vec![status(90), status(3), status(64), status(3)]);
    assert_eq!(s.iter(), vec![status(3), status(64), status(90)]);
    assert_eq!(VolatileStatusBitSet::new().iter(), vec![]);
}

#[test]
fn collecting_a_listing_gives_the_set_back() {
    let s = VolatileStatusBitSet::from_iter((0..128).filter(|i| i % 7 == 2).map(status).collect());
    assert!(VolatileStatusBitSet::from_iter(s.iter()) == s);
    assert!(s.clone() == s);
    assert!(s != VolatileStatusBitSet::new());
}

#[test]
fn retain_asks_for_each_status_once() {
    let mut s = VolatileStatusBitSet::from_iter(vec![status(1), status(2), status(40), status(127)]);
    let mut asked: Vec<u8> = vec![];
    s.retain(|vs| {
        asked.push(vs.index);
        vs.index % 2 == 1
    });
    assert_eq!(asked, vec![1, 2, 40, 127]);
    assert_eq!(s.iter(), vec![status(1), status(127)]);
    s.retain(|_| false);
    assert!(s.is_empty());
}
