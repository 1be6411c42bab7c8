use multi_stream_synchronizer::{Config, InputMessage, State};

const X: u64 = 10;
const Y: u64 = 20;
const Z: u64 = 30;

fn msg(t: u64) -> InputMessage {
    InputMessage { timestamp: t }
}

fn state(keys: &[u64], window: u64, buf_size: usize) -> State<InputMessage> {
    let cfg = Config {
        window_size: window,
        start_time: None,
        buf_size,
    };
    let (s, _rx) = State::new(&keys.to_vec(), cfg).unwrap();
    s
}

#[test]
fn reductions_skip_empty_buffers() {
    let mut s = state(&[X, Y, Z], 5, 4);
    assert_eq!(s.inf_timestamp(), None);
    assert_eq!(s.sup_timestamp(), None);
    assert_eq!(s.min_timestamp(), None);
    assert!(s.push(X, msg(10)).is_ok());
    assert!(s.push(X, msg(20)).is_ok());
    assert!(s.push(Y, msg(15)).is_ok());
    assert_eq!(s.inf_timestamp(), Some(15));
    assert_eq!(s.sup_timestamp(), Some(15));
    assert_eq!(s.min_timestamp(), Some(10));
    assert!(s.push(Z, msg(30)).is_ok());
    assert_eq!(s.inf_timestamp(), Some(30));
    assert_eq!(s.sup_timestamp(), Some(15));
}

#[test]
fn readiness_predicates() {
    let mut s = state(&[X, Y], 5, 3);
    assert!(s.is_empty());
    assert!(!s.is_ready());
    assert!(!s.is_full());
    assert!(s.push(X, msg(1)).is_ok());
    assert!(!s.is_empty());
    assert!(s.push(X, msg(2)).is_ok());
    assert!(s.push(Y, msg(1)).is_ok());
    assert!(!s.is_ready());
    assert!(s.push(Y, msg(2)).is_ok());
    assert!(s.is_ready());
    assert!(!s.is_full());
    assert!(s.push(X, msg(3)).is_ok());
    assert!(s.push(Y, msg(3)).is_ok());
    assert!(s.is_full());
}

#[test]
fn push_rules() {
    let mut s = state(&[X, Y], 5, 3);
    assert!(s.push_at(X, 100, msg(0)).is_ok());
    assert_eq!(s.push_at(X, 100, msg(7)).unwrap_err(), msg(7));
    assert_eq!(s.push_at(Z, 500, msg(8)).unwrap_err(), msg(8));
    assert!(s.push_at(Y, 50, msg(0)).is_ok());
    assert_eq!(s.buffer(0).unwrap().len(), 1);
    assert_eq!(s.buffer(1).unwrap().len(), 1);
}

#[test]
fn drop_min_pops_every_smallest_front() {
    let mut s = state(&[X, Y, Z], 5, 3);
    assert!(!s.drop_min());
    assert!(s.push(X, msg(10)).is_ok());
    assert!(s.push(Y, msg(10)).is_ok());
    assert!(s.push(Y, msg(11)).is_ok());
    assert!(s.push(Z, msg(12)).is_ok());
    assert!(s.drop_min());
    assert_eq!(s.buffer(0).unwrap().len(), 0);
    assert_eq!(s.buffer(1).unwrap().front_ts(), Some(11));
    assert_eq!(s.buffer(2).unwrap().front_ts(), Some(12));
    assert!(s.drop_min());
    assert_eq!(s.buffer(1).unwrap().len(), 0);
    assert_eq!(s.buffer(2).unwrap().len(), 1);
}

#[test]
fn try_match_picks_closest_and_commits() {
    let mut s = state(&[X, Y], 100, 8);
    for t in [1000, 1050, 2000] {
        assert!(s.push(X, msg(t)).is_ok());
    }
    for t in [1100, 2100] {
        assert!(s.push(Y, msg(t)).is_ok());
    }
    let g = s.try_match().unwrap();
    assert_eq!(g, vec![(X, msg(1050)), (Y, msg(1100))]);
    assert_eq!(s.commit_ts(), Some(1050));
    assert_eq!(s.buffer(0).unwrap().front_ts(), Some(2000));
    assert_eq!(s.buffer(1).unwrap().front_ts(), Some(2100));
    assert_eq!(s.buffer(0).unwrap().len(), 1);
    // Nothing at or before the commit timestamp gets in.
    assert!(s.push(Y, msg(1050)).is_err());
}

#[test]
fn try_match_waits_for_lookahead() {
    let mut s = state(&[X, Y], 100, 8);
    for t in [1000, 1090] {
        assert!(s.push(X, msg(t)).is_ok());
    }
    for t in [1010, 1150] {
        assert!(s.push(Y, msg(t)).is_ok());
    }
    // inf = 1010, sup = 1090: 1010 + 100 > 1090.
    assert!(s.try_match().is_none());
    assert_eq!(s.buffer(0).unwrap().len(), 2);
    assert_eq!(s.buffer(1).unwrap().len(), 2);
    assert_eq!(s.commit_ts(), None);
    // Once input has ended the wait is dropped.
    let g = s.try_match_final().unwrap();
    assert_eq!(g, vec![(X, msg(1000)), (Y, msg(1010))]);
    assert_eq!(s.commit_ts(), Some(1000));
}

#[test]
fn try_match_abandons_group_when_a_key_has_nothing_in_window() {
    let mut s = state(&[X, Y], 100, 8);
    for t in [1000, 3000] {
        assert!(s.push(X, msg(t)).is_ok());
    }
    for t in [1500, 3100] {
        assert!(s.push(Y, msg(t)).is_ok());
    }
    // inf = 1500, window [1400, 1600]: X@1000 is obsolete and X@3000 is past
    // the window, so no group forms; Y is not reached.
    assert!(s.try_match().is_none());
    assert_eq!(s.buffer(0).unwrap().front_ts(), Some(3000));
    assert_eq!(s.buffer(0).unwrap().len(), 1);
    assert_eq!(s.buffer(1).unwrap().front_ts(), Some(1500));
    assert_eq!(s.buffer(1).unwrap().len(), 2);
    assert_eq!(s.commit_ts(), None);
}

#[test]
fn try_match_saturates_window_at_zero() {
    let mut s = state(&[X, Y], 100, 8);
    for t in [0, 500] {
        assert!(s.push(X, msg(t)).is_ok());
    }
    for t in [50, 400] {
        assert!(s.push(Y, msg(t)).is_ok());
    }
    let g = s.try_match().unwrap();
    assert_eq!(g, vec![(X, msg(0)), (Y, msg(50))]);
    assert_eq!(s.commit_ts(), Some(0));
}

#[test]
fn feedback_lists_unsaturated_keys() {
    let mut s = state(&[X, Y, Z], 5, 2);
    assert!(s.push(Y, msg(1)).is_ok());
    assert!(s.push(Y, msg(2)).is_ok());
    let fb = s.feedback();
    assert_eq!(fb.accepted_keys, vec![X, Z]);
    assert_eq!(fb.commit_timestamp, None);
    assert!(fb.accepted_max_timestamp.is_none());
    assert!(s.feedback_active());
    // The receiver was dropped by `state`: the send fails and the sink goes.
    assert!(!s.update_feedback());
    assert!(!s.feedback_active());
    assert!(!s.update_feedback());
    assert!(!s.feedback_active());
}

#[test]
fn delivered_feedback_keeps_the_sink() {
    let cfg = Config {
        window_size: 5,
        start_time: Some(3),
        buf_size: 2,
    };
    let (mut s, rx) = State::<InputMessage>::new(&vec![X, Y], cfg).unwrap();
    assert_eq!(rx.borrow().accepted_keys, vec![X, Y]);
    assert_eq!(rx.borrow().commit_timestamp, Some(3));
    assert!(s.push(X, msg(4)).is_ok());
    assert!(s.push(X, msg(5)).is_ok());
    assert!(s.update_feedback());
    assert!(s.feedback_active());
    assert_eq!(rx.borrow().accepted_keys, vec![Y]);
    s.settle_send(true);
    assert!(s.feedback_active());
    s.settle_send(false);
    assert!(!s.feedback_active());
    assert!(!s.update_feedback());
    assert_eq!(rx.borrow().accepted_keys, vec![Y]);
    assert_eq!(s.buffer(0).unwrap().len(), 2);
}
