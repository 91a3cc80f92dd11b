use bookfeed::book::Orderbook;
use bookfeed::pipeline::{parse_message, ConnState, Resequencer, Sequencer};

fn snapshot_with_timestamp(ts: u64) -> Vec<u8> {
    format!(
        r#"{{"market":"m","asset_id":"a","timestamp":"{}","bids":[{{"price":"0.33","size":"1.0"}}],"asks":[],"hash":"h"}}"#,
        ts
    )
    .into_bytes()
}

fn book_with_timestamp(ts: u64) -> Orderbook {
    parse_message(&snapshot_with_timestamp(ts)).unwrap()
}

fn emitted_seqs(emitted: &[(u64, Option<Orderbook>)]) -> Vec<u64> {
    emitted.iter().map(|e| e.0).collect()
}

#[test]
fn sequencer_subscribe_frame_shape() {
    let mut seq = Sequencer::new();
    assert_eq!(seq.state, ConnState::Connecting);
    let frame = seq.subscribe_frame(&vec![b"123".to_vec(), b"456".to_vec()]);
    assert_eq!(
        String::from_utf8(frame).unwrap(),
        r#"{"type": "market", "assets_ids": ["123","456"]}"#
    );
    assert_eq!(seq.state, ConnState::Subscribed);
}

#[test]
fn sequencer_subscribe_frame_single_asset() {
    let mut seq = Sequencer::new();
    let frame = seq.subscribe_frame(&vec![b"777".to_vec()]);
    assert_eq!(
        String::from_utf8(frame).unwrap(),
        r#"{"type": "market", "assets_ids": ["777"]}"#
    );
}

#[test]
fn sequencer_drops_standalone_book_events() {
    let mut seq = Sequencer::new();
    seq.subscribe_frame(&vec![b"1".to_vec()]);
    let r = seq.on_text_frame(br#"{"event_type":"book","bids":[]}"#);
    assert!(r.is_none());
    assert_eq!(seq.next_seq, 0);
}

#[test]
fn sequencer_numbers_kept_frames_consecutively() {
    let mut seq = Sequencer::new();
    seq.subscribe_frame(&vec![b"1".to_vec()]);
    let a = seq.on_text_frame(br#"[{"event_type":"book","x":"y"}]"#).unwrap();
    assert_eq!(a.0, 0);
    assert_eq!(a.1, br#"{"event_type":"book","x":"y"}"#.to_vec());
    let b = seq
        .on_text_frame(br#"{"event_type":"last_trade_price"}"#)
        .unwrap();
    assert_eq!(b.0, 1);
    // a dropped frame in between consumes no number
    assert!(seq.on_text_frame(br#"{"event_type":"book"}"#).is_none());
    let c = seq.on_text_frame(br#"{"event_type":"price_change"}"#).unwrap();
    assert_eq!(c.0, 2);
    assert_eq!(seq.state, ConnState::Streaming);
}

#[test]
fn unexpected_frames_are_ignored() {
    let mut seq = Sequencer::new();
    seq.subscribe_frame(&vec![b"1".to_vec()]);
    seq.on_other_frame();
    assert_eq!(seq.state, ConnState::Subscribed);
    assert_eq!(seq.next_seq, 0);
}

#[test]
fn sequencer_close_is_terminal_state() {
    let mut seq = Sequencer::new();
    seq.on_close();
    assert_eq!(seq.state, ConnState::Closed);
}

#[test]
fn resequencer_emits_in_order_for_every_permutation_of_four() {
    // all 24 arrival orders of completions {0,1,2,3}
    let mut perms: Vec<Vec<u64>> = Vec::new();
    let mut items: Vec<u64> = vec![0, 1, 2, 3];
    permute(&mut items, 0, &mut perms);
    assert_eq!(perms.len(), 24);
    for perm in perms {
        let mut rs = Resequencer::new();
        let mut released: Vec<u64> = Vec::new();
        for &s in &perm {
            let emitted = rs.complete(s, Some(book_with_timestamp(s)));
            for (seq_no, payload) in emitted {
                assert_eq!(payload.as_ref().unwrap().timestamp, seq_no);
                released.push(seq_no);
            }
        }
        assert_eq!(released, vec![0, 1, 2, 3], "arrival order {:?}", perm);
        assert_eq!(rs.next_expected(), 4);
        assert_eq!(rs.pending_count(), 0);
    }
}

fn permute(items: &mut Vec<u64>, k: usize, out: &mut Vec<Vec<u64>>) {
    if k == items.len() {
        out.push(items.clone());
        return;
    }
    for i in k..items.len() {
        items.swap(k, i);
        permute(items, k + 1, out);
        items.swap(k, i);
    }
}

#[test]
fn failed_parse_advances_past_its_slot() {
    let mut rs = Resequencer::new();
    assert_eq!(emitted_seqs(&rs.complete(0, Some(book_with_timestamp(0)))), vec![0]);
    // sequence number 2 failed to parse: completed with no payload
    assert!(rs.complete(2, None).is_empty());
    assert_eq!(emitted_seqs(&rs.complete(1, Some(book_with_timestamp(1)))), vec![1, 2]);
    // no deadlock: 3 is released as soon as it arrives
    let last = rs.complete(3, Some(book_with_timestamp(3)));
    assert_eq!(emitted_seqs(&last), vec![3]);
    assert_eq!(rs.next_expected(), 4);
}

#[test]
fn failed_slot_is_released_without_payload() {
    let mut rs = Resequencer::new();
    let emitted = rs.complete(0, None);
    assert_eq!(emitted.len(), 1);
    assert_eq!(emitted[0].0, 0);
    assert!(emitted[0].1.is_none());
}

#[test]
fn duplicate_completion_is_ignored() {
    let mut rs = Resequencer::new();
    rs.complete(1, Some(book_with_timestamp(1)));
    assert!(rs.is_pending(1));
    // a second completion of a pending number changes nothing
    assert!(rs.complete(1, Some(book_with_timestamp(99))).is_empty());
    let emitted = rs.complete(0, Some(book_with_timestamp(0)));
    assert_eq!(emitted_seqs(&emitted), vec![0, 1]);
    assert_eq!(emitted[1].1.as_ref().unwrap().timestamp, 1);
}

#[test]
fn stale_completion_is_ignored() {
    let mut rs = Resequencer::new();
    rs.complete(0, Some(book_with_timestamp(0)));
    assert_eq!(rs.next_expected(), 1);
    // 0 was already released; completing it again must not re-release it
    assert!(rs.complete(0, Some(book_with_timestamp(42))).is_empty());
    assert_eq!(rs.next_expected(), 1);
    assert_eq!(rs.pending_count(), 0);
}

#[test]
fn buffer_never_retains_released_numbers() {
    let mut rs = Resequencer::new();
    rs.complete(1, Some(book_with_timestamp(1)));
    rs.complete(0, Some(book_with_timestamp(0)));
    assert!(!rs.is_pending(0));
    assert!(!rs.is_pending(1));
    rs.complete(3, Some(book_with_timestamp(3)));
    assert!(rs.is_pending(3));
    assert_eq!(rs.pending_count(), 1);
}

#[test]
fn parse_message_gives_book_or_nothing() {
    assert!(parse_message(&snapshot_with_timestamp(7)).is_some());
    assert!(parse_message(b"broken").is_none());
}
