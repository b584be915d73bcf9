use pollrush::backend::{airdrop_pps, Backend, CREATE_REWARD, VOTE_REWARD};
use pollrush::ledger::{Ledger, LedgerError};
use pollrush::polls::{Poll, PollError, PollOrder, PollService, RewardInfo};
use pollrush::principal::Principal;

fn who(tag: u8) -> Principal {
    Principal::from_bytes(vec![tag; 29]).unwrap()
}

fn strings(items: &[&str]) -> Vec<String> {
    items.iter().map(|s| s.to_string()).collect()
}

const NOW: u64 = 1_000_000;

#[test]
fn create_and_vote() {
    let mut b = Backend::new(who(9));
    let a = who(1);
    let voter = who(2);
    let r = b.create_poll(&a, "T".to_string(), String::new(), strings(&["x", "y", "z"]), Some(NOW + 10_000_000_000), NOW);
    assert_eq!(r, Ok((1, Ok(()))));
    assert_eq!(b.ledger.balance_of(&a), 10_000_000_000);
    assert_eq!(b.vote(&voter, 1, 2, NOW + 1), Ok(Ok(())));
    let votes = b.service.get_votes(1);
    assert_eq!(votes.len(), 1);
    assert!(votes[0].voter.same(&voter));
    assert_eq!(votes[0].option_index, 2);
    assert_eq!(b.ledger.balance_of(&voter), 1_000_000_000);
    assert_eq!(CREATE_REWARD, 10_000_000_000);
    assert_eq!(VOTE_REWARD, 1_000_000_000);
}

#[test]
fn duplicate_vote() {
    let mut b = Backend::new(who(9));
    let a = who(1);
    let voter = who(2);
    b.create_poll(&a, "T".to_string(), String::new(), strings(&["x", "y", "z"]), Some(NOW + 10_000_000_000), NOW).unwrap();
    b.vote(&voter, 1, 2, NOW).unwrap();
    assert_eq!(b.vote(&voter, 1, 0, NOW), Err(PollError::AlreadyVoted));
    assert_eq!(b.ledger.balance_of(&voter), 1_000_000_000);
    assert_eq!(b.service.tally(1), vec![0, 0, 1]);
    assert_eq!(b.service.get_votes(1).len(), 1);
}

#[test]
fn deadline_passed() {
    let mut b = Backend::new(who(9));
    let a = who(1);
    b.create_poll(&a, "T".to_string(), String::new(), strings(&["x", "y"]), Some(NOW + 5), NOW).unwrap();
    assert_eq!(b.vote(&who(2), 1, 0, NOW + 6), Err(PollError::DeadlinePassed));
    assert_eq!(b.vote(&who(3), 1, 1, NOW + 6), Err(PollError::DeadlinePassed));
}

#[test]
fn deadline_boundary() {
    let mut s = PollService::new();
    let a = who(1);
    s.create_poll(&a, "T".to_string(), String::new(), strings(&["x", "y"]), Some(NOW + 5), NOW).unwrap();
    assert_eq!(s.vote(&who(2), 1, 0, NOW + 5), Ok(()));
    assert_eq!(s.vote(&who(3), 1, 0, NOW + 6), Err(PollError::DeadlinePassed));
}

#[test]
fn invalid_option() {
    let mut s = PollService::new();
    s.create_poll(&who(1), "T".to_string(), String::new(), strings(&["x", "y", "z"]), None, NOW).unwrap();
    assert_eq!(s.vote(&who(2), 1, 3, NOW), Err(PollError::InvalidOption));
    assert_eq!(s.vote(&who(2), 2, 0, NOW), Err(PollError::PollNotFound));
    assert_eq!(s.vote(&who(2), 0, 0, NOW), Err(PollError::PollNotFound));
}

#[test]
fn option_count_bounds() {
    let mut s = PollService::new();
    let a = who(1);
    let one = strings(&["x"]);
    let many: Vec<String> = (0..21).map(|i| format!("o{}", i)).collect();
    let twenty: Vec<String> = (0..20).map(|i| format!("o{}", i)).collect();
    assert_eq!(s.create_poll(&a, "T".to_string(), String::new(), one, None, NOW), Err(PollError::InvalidOption));
    assert_eq!(s.create_poll(&a, "T".to_string(), String::new(), many, None, NOW), Err(PollError::InvalidOption));
    assert_eq!(s.create_poll(&a, "T".to_string(), String::new(), strings(&["x", "y"]), None, NOW), Ok(1));
    assert_eq!(s.create_poll(&a, "T".to_string(), String::new(), twenty, None, NOW), Ok(2));
}

#[test]
fn create_validation() {
    let mut s = PollService::new();
    let a = who(1);
    assert_eq!(s.create_poll(&a, String::new(), String::new(), strings(&["x", "y"]), None, NOW), Err(PollError::ValidationError));
    assert_eq!(s.create_poll(&a, "T".to_string(), String::new(), strings(&["x", ""]), None, NOW), Err(PollError::ValidationError));
    assert_eq!(s.create_poll(&a, "T".to_string(), String::new(), strings(&["x", "y"]), Some(NOW), NOW), Err(PollError::ValidationError));
    assert_eq!(s.poll_count(), 0);
}

#[test]
fn identical_polls_get_distinct_ids() {
    let mut s = PollService::new();
    let a = who(1);
    let first = s.create_poll(&a, "T".to_string(), "d".to_string(), strings(&["x", "y"]), None, NOW).unwrap();
    let second = s.create_poll(&a, "T".to_string(), "d".to_string(), strings(&["x", "y"]), None, NOW).unwrap();
    assert_eq!((first, second), (1, 2));
    let p = s.get_poll(2).unwrap();
    assert_eq!(p.id, 2);
    assert_eq!(p.title, "T");
    assert_eq!(p.options, strings(&["x", "y"]));
    assert!(p.is_active);
    assert!(s.get_poll(3).is_none());
}

#[test]
fn my_polls_and_attendance() {
    let mut s = PollService::new();
    let a = who(1);
    let c = who(3);
    s.create_poll(&a, "A1".to_string(), String::new(), strings(&["x", "y"]), None, NOW).unwrap();
    s.create_poll(&c, "C1".to_string(), String::new(), strings(&["x", "y"]), None, NOW).unwrap();
    s.create_poll(&a, "A2".to_string(), String::new(), strings(&["x", "y"]), None, NOW).unwrap();
    s.vote(&c, 3, 1, NOW).unwrap();
    let mine = s.get_my_polls(&a);
    assert_eq!(mine.iter().map(|p| p.id).collect::<Vec<u64>>(), vec![1, 3]);
    let attended = s.get_my_attendance(&c);
    assert_eq!(attended.iter().map(|p| p.id).collect::<Vec<u64>>(), vec![3]);
    assert!(s.get_my_attendance(&a).is_empty());
    assert!(s.has_voted(3, &c));
}

#[test]
fn ledger_transfer() {
    let minter = who(9);
    let a = who(1);
    let bob = who(2);
    let mut l = Ledger::new(minter.copy());
    assert_eq!(l.mint(&minter, &a, 1_000, NOW), Ok(()));
    assert_eq!(l.transfer(&a, &bob, 400, NOW), Ok(()));
    assert_eq!(l.balance_of(&a), 600);
    assert_eq!(l.balance_of(&bob), 400);
    assert_eq!(l.get_token_info().total_supply, 1_000);
    assert_eq!(l.transfer(&a, &bob, 700, NOW), Err(LedgerError::InsufficientBalance));
    assert_eq!(l.balance_of(&a), 600);
}

#[test]
fn approve_and_transfer_from() {
    let minter = who(9);
    let a = who(1);
    let c = who(3);
    let d = who(4);
    let mut l = Ledger::new(minter.copy());
    l.mint(&minter, &a, 600, NOW).unwrap();
    l.approve(&a, &c, 300, NOW);
    assert_eq!(l.transfer_from(&c, &a, &d, 200, NOW), Ok(()));
    assert_eq!(l.balance_of(&a), 400);
    assert_eq!(l.balance_of(&d), 200);
    assert_eq!(l.allowance_of(&a, &c), Some(100));
    assert_eq!(l.transfer_from(&c, &a, &d, 200, NOW), Err(LedgerError::InsufficientAllowance));
    assert_eq!(l.transfer_from(&d, &a, &c, 1, NOW), Err(LedgerError::NoAllowance));
    l.approve(&a, &d, 1_000, NOW);
    assert_eq!(l.transfer_from(&d, &a, &c, 500, NOW), Err(LedgerError::InsufficientBalance));
}

#[test]
fn self_transfer_is_noop() {
    let minter = who(9);
    let a = who(1);
    let mut l = Ledger::new(minter.copy());
    l.mint(&minter, &a, 50, NOW).unwrap();
    assert_eq!(l.transfer(&a, &a, 50, NOW), Ok(()));
    assert_eq!(l.balance_of(&a), 50);
    assert_eq!(l.get_token_info().total_supply, 50);
}

#[test]
fn mint_rules() {
    let minter = who(9);
    let a = who(1);
    let mut l = Ledger::new(minter.copy());
    assert_eq!(l.mint(&a, &a, 5, NOW), Err(LedgerError::Unauthorized));
    assert_eq!(l.mint(&minter, &a, u64::MAX, NOW), Ok(()));
    assert_eq!(l.mint(&minter, &who(2), 1, NOW), Err(LedgerError::Overflow));
    assert_eq!(airdrop_pps(&mut l, &a, &a, 1, NOW), Err(LedgerError::Unauthorized));
    let info = l.get_token_info();
    assert_eq!(info.name, "Predi Poll Shares");
    assert_eq!(info.symbol, "PPs");
    assert_eq!(info.decimals, 8);
    assert_eq!(info.total_supply, u64::MAX);
}

#[test]
fn supply_matches_balances() {
    let minter = who(9);
    let mut l = Ledger::new(minter.copy());
    l.mint(&minter, &who(1), 70, NOW).unwrap();
    l.mint(&minter, &who(2), 30, NOW).unwrap();
    l.transfer(&who(1), &who(3), 20, NOW).unwrap();
    let sum = l.balance_of(&who(1)) + l.balance_of(&who(2)) + l.balance_of(&who(3));
    assert_eq!(sum, 100);
    assert_eq!(l.get_token_info().total_supply, 100);
}

#[test]
fn principals() {
    assert!(Principal::anonymous().is_anonymous());
    assert!(!who(1).is_anonymous());
    assert!(Principal::from_bytes(vec![0; 30]).is_none());
    assert!(who(1).same(&who(1)));
    assert!(!who(1).same(&who(2)));
}

#[test]
fn reward_total() {
    let r = RewardInfo { token_type: "PPs".to_string(), reward_amount: 7, reward_count: 3 };
    assert_eq!(r.total_reward(), Some(21));
    let big = RewardInfo { token_type: "PPs".to_string(), reward_amount: u64::MAX, reward_count: 2 };
    assert_eq!(big.total_reward(), None);
}

#[test]
fn polls_ranked_by_time_and_popularity() {
    let mut s = PollService::new();
    let a = who(1);
    s.create_poll(&a, "old".to_string(), String::new(), strings(&["x", "y"]), None, 10).unwrap();
    s.create_poll(&a, "new".to_string(), String::new(), strings(&["x", "y"]), None, 30).unwrap();
    s.create_poll(&a, "mid".to_string(), String::new(), strings(&["x", "y"]), None, 20).unwrap();
    s.vote(&who(2), 3, 0, 40).unwrap();
    s.vote(&who(3), 3, 1, 40).unwrap();
    s.vote(&who(2), 1, 1, 40).unwrap();
    let ids = |v: Vec<Poll>| v.iter().map(|p| p.id).collect::<Vec<u64>>();
    assert_eq!(ids(s.get_polls(PollOrder::Insertion)), vec![1, 2, 3]);
    assert_eq!(ids(s.get_polls(PollOrder::Time)), vec![2, 3, 1]);
    assert_eq!(ids(s.get_polls(PollOrder::Popularity)), vec![3, 1, 2]);
    assert_eq!(s.popularity(3), 2);
    assert_eq!(s.tally(3), vec![1, 1]);
    assert!(s.tally(4).is_empty());
}

#[test]
fn snapshot_and_restore() {
    let mut b = Backend::new(who(9));
    b.create_poll(&who(1), "T".to_string(), String::new(), strings(&["x", "y"]), None, NOW).unwrap();
    b.vote(&who(2), 1, 1, NOW).unwrap();
    let Backend { service, ledger, service_id: _ } = b;
    let (polls, votes) = service.into_parts();
    let restored = PollService::restore(polls, votes).unwrap();
    assert!(restored.has_voted(1, &who(2)));
    assert_eq!(restored.get_poll(1).unwrap().title, "T");
    let (info, owners, accounts, minter) = ledger.into_parts();
    let l = Ledger::restore(info, owners, accounts, minter).unwrap();
    assert_eq!(l.balance_of(&who(1)), CREATE_REWARD);
    assert_eq!(l.balance_of(&who(2)), VOTE_REWARD);
}

#[test]
fn restore_rejects_inconsistent_parts() {
    let mut s = PollService::new();
    s.create_poll(&who(1), "T".to_string(), String::new(), strings(&["x", "y"]), None, NOW).unwrap();
    s.vote(&who(2), 1, 1, NOW).unwrap();
    let (polls, mut votes) = s.into_parts();
    let again = votes[0].copy();
    votes.push(again);
    assert!(PollService::restore(polls, votes).is_none());
    let minter = who(9);
    let mut l = Ledger::new(minter.copy());
    l.mint(&minter, &who(1), 5, NOW).unwrap();
    let (mut info, owners, accounts, minter) = l.into_parts();
    info.total_supply = 6;
    assert!(Ledger::restore(info, owners, accounts, minter).is_none());
}

#[test]
fn assemble_checks_minter() {
    let service_id = who(9);
    let ledger = Ledger::new(service_id.copy());
    assert!(ledger.is_minter(&service_id));
    assert!(!ledger.is_minter(&who(1)));
    assert!(Backend::assemble(PollService::new(), ledger, who(8)).is_none());
    let ledger = Ledger::new(service_id.copy());
    let mut b = Backend::assemble(PollService::new(), ledger, service_id).unwrap();
    assert_eq!(b.vote(&who(1), 1, 0, NOW), Err(PollError::PollNotFound));
    assert_eq!(b.ledger.balance_of(&who(1)), 0);
}

#[test]
fn vote_key_layout() {
    let voter = Principal::from_bytes(vec![7, 8, 9]).unwrap();
    let key = pollrush::index::vote_key(0x0102_0304_0506_0708, &voter);
    assert_eq!(key, vec![1, 2, 3, 4, 5, 6, 7, 8, 7, 8, 9]);
    let mut ix = pollrush::index::VoteIndex::new();
    assert!(!ix.contains(&key));
    ix.insert(key.clone(), 1, 5);
    assert!(ix.contains(&key));
    assert!(!ix.contains(&pollrush::index::vote_key(1, &voter)));
}

#[test]
fn votes_listed_by_voter_bytes() {
    let mut s = PollService::new();
    s.create_poll(&who(1), "T".to_string(), String::new(), strings(&["x", "y"]), None, NOW).unwrap();
    s.create_poll(&who(1), "U".to_string(), String::new(), strings(&["x", "y"]), None, NOW).unwrap();
    let two = Principal::from_bytes(vec![2]).unwrap();
    let one = Principal::from_bytes(vec![1]).unwrap();
    let one_long = Principal::from_bytes(vec![1, 0]).unwrap();
    s.vote(&two, 1, 0, NOW).unwrap();
    s.vote(&one, 2, 1, NOW).unwrap();
    s.vote(&one_long, 1, 1, NOW).unwrap();
    s.vote(&one, 1, 1, NOW).unwrap();
    let votes = s.get_votes(1);
    let voters: Vec<Vec<u8>> = votes.iter().map(|v| v.voter.bytes.clone()).collect();
    assert_eq!(voters, vec![vec![1], vec![1, 0], vec![2]]);
    assert!(votes.iter().all(|v| v.poll_id == 1));
    assert!(one.less_than(&one_long));
    assert!(one_long.less_than(&two));
    assert!(!two.less_than(&one));
    assert!(!one.less_than(&one));
}

#[test]
fn ledger_restore_rejects_other_token_data() {
    let minter = who(9);
    let l = Ledger::new(minter.copy());
    let (mut info, owners, accounts, minter) = l.into_parts();
    info.decimals = 6;
    assert!(Ledger::restore(info, owners, accounts, minter).is_none());
}
