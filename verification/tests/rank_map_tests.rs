use poker_rust::CardVector;
use poker_rust::Rank;
use poker_rust::RankMap;

#[test]
fn test_rank_map() {
    let cards = CardVector::parse("Ac Ad As Qc Tc Jc");
    let rank_map = RankMap::new(&cards.0);

    assert_eq!(rank_map.get(Rank::Ace).unwrap().len(), 3);
    assert_eq!(rank_map.get(Rank::Queen).unwrap().len(), 1);
    assert_eq!(rank_map.get(Rank::Jack).unwrap().len(), 1);
    assert_eq!(rank_map.get(Rank::Ten).unwrap().len(), 1);
}

#[test]
fn test_rank_map_take_set() {
    let cards = CardVector::parse("Ac Ad As Qc Tc Jc");
    let rank_map = RankMap::new(&cards.0);

    let trips = rank_map.take_set(3).unwrap();
    assert_eq!(trips.len(), 3);
    assert_eq!(trips[0].rank, Rank::Ace);

    assert!(rank_map.take_set(4).is_none());
}

#[test]
fn test_rank_map_remove() {
    let cards = CardVector::parse("Ac Ad As Qc Tc Jc");
    let rank_map = RankMap::new(&cards.0);

    let aces = CardVector::parse("Ac Ad");
    let smaller = rank_map.remove(&aces.0);
    assert_eq!(smaller.get(Rank::Ace).unwrap().len(), 1);
    assert!(smaller.get(Rank::King).is_none());
}
