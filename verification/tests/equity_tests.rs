use poker_rust::CardVector;
use poker_rust::HandRankCount;
use poker_rust::WinLoseSplit;
use poker_rust::deal;
use poker_rust::find_winners;
use poker_rust::hold_em_odds;
use poker_rust::make_deck;

#[test]
fn test_hold_em_odds_totals() {
    let pockets = vec![CardVector::parse("Ac Kc").0, CardVector::parse("8s 8d").0];
    let board = CardVector::parse("7c 5c 4s").0;
    let mut counts = vec![HandRankCount::new(), HandRankCount::new()];

    let results = hold_em_odds(&pockets, &board, &mut counts);
    assert_eq!(results.len(), 2);

    // 2 pockets and 3 board cards leave 45 of 52, completed two at a
    // time: 45 * 44 / 2 rounds.
    let rounds: i32 = 990;
    for r in &results {
        assert_eq!(r.wins + r.losses + r.splits, rounds);
        assert_eq!(r.total(), rounds);
        assert!(r.wins >= 0 && r.losses >= 0 && r.splits >= 0);
    }
    assert_eq!(results[0].total(), results[1].total());

    // every round is either won outright by one of the two players or
    // split between them
    assert_eq!(results[0].wins + results[1].wins + results[0].splits, rounds);

    // one player's win is the other's loss, and splits match
    assert_eq!(results[0].wins, results[1].losses);
    assert_eq!(results[1].wins, results[0].losses);
    assert_eq!(results[0].splits, results[1].splits);

    // each histogram records one category per round
    for c in &counts {
        let total: usize = c.0.iter().sum();
        assert_eq!(total, rounds as usize);
    }
}

#[test]
fn test_find_winners_single_round() {
    let pockets = vec![CardVector::parse("Ac Ad").0, CardVector::parse("7h 2d").0];
    let board = CardVector::parse("As Kd 9c 5h 3s").0;
    let mut counts = vec![HandRankCount::new(), HandRankCount::new()];

    let winners = find_winners(&pockets, &board, &mut counts);
    assert_eq!(winners, vec![0]);
}

#[test]
fn test_find_winners_split() {
    let pockets = vec![CardVector::parse("2c 3d").0, CardVector::parse("2d 3c").0];
    let board = CardVector::parse("As Ks Qs Js Ts").0;
    let mut counts = vec![HandRankCount::new(), HandRankCount::new()];

    let winners = find_winners(&pockets, &board, &mut counts);
    assert_eq!(winners, vec![0, 1]);
}

#[test]
fn test_deal_structure() {
    let mut deck = make_deck();
    let result = deal(&mut deck, 4);

    assert_eq!(result.pockets.len(), 4);
    for pocket in &result.pockets {
        assert_eq!(pocket.len(), 2);
    }
    assert_eq!(result.board.len(), 5);
    assert_eq!(result.burns.len(), 3);
    assert_eq!(deck.len(), 52 - 8 - 8);

    assert_eq!(result.evals.len(), 4);
    for pair in result.evals.windows(2) {
        assert!(pair[0].hand.score >= pair[1].hand.score);
    }
}

#[test]
fn test_win_lose_split_new_and_total() {
    let w = WinLoseSplit::new();
    assert_eq!(w.wins, 0);
    assert_eq!(w.losses, 0);
    assert_eq!(w.splits, 0);
    assert_eq!(w.total(), 0);

    let w2 = WinLoseSplit { wins: 3, losses: 4, splits: 5 };
    assert_eq!(w2.total(), 12);
}

#[test]
fn test_hand_rank_count_inc() {
    let mut c = HandRankCount::new();
    assert_eq!(c.0.len(), 9);
    c.inc(poker_rust::HandRank::Flush);
    c.inc(poker_rust::HandRank::Flush);
    c.inc(poker_rust::HandRank::HighCard);
    assert_eq!(c.0[5], 2);
    assert_eq!(c.0[0], 1);
}
