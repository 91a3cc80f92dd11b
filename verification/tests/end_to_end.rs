use bookfeed::book::Orderbook;
use bookfeed::pipeline::{parse_message, Resequencer, Sequencer};

const COUNT: u64 = 1000;

fn synthetic_snapshot(i: u64) -> Vec<u8> {
    // price and size vary with i so every snapshot is distinct
    let price_cents = 10 + (i % 80);
    let size_tenths = 1 + (i % 500);
    format!(
        r#"[{{"market":"mkt","asset_id":"asset-{}","timestamp":"{}","bids":[{{"price":"0.{:02}","size":"{}.{}"}}],"asks":[{{"price":"0.95","size":"2.0"}}],"hash":"h{}"}}]"#,
        i % 3,
        1_000_000 + i,
        price_cents,
        size_tenths / 10,
        size_tenths % 10,
        i
    )
    .into_bytes()
}

/// Deterministic shuffle driven by a small linear congruential generator.
fn seeded_shuffle<T>(items: &mut Vec<T>, seed: u64) {
    let mut state = seed;
    let n = items.len();
    for i in (1..n).rev() {
        state = state
            .wrapping_mul(6364136223846793005)
            .wrapping_add(1442695040888963407);
        let j = (state >> 33) as usize % (i + 1);
        items.swap(i, j);
    }
}

#[test]
fn thousand_snapshots_resequenced_and_applied() {
    // the receive loop numbers the frames in submission order
    let mut seq = Sequencer::new();
    seq.subscribe_frame(&vec![b"asset".to_vec()]);
    let mut tasks: Vec<(u64, Vec<u8>)> = Vec::new();
    for i in 0..COUNT {
        let raw = synthetic_snapshot(i);
        let (seq_no, payload) = seq.on_text_frame(&raw).expect("snapshot frames are kept");
        assert_eq!(seq_no, i);
        tasks.push((seq_no, payload));
    }

    // workers finish in an arbitrary order
    seeded_shuffle(&mut tasks, 0x5eed_cafe);

    // the reordering stage releases strictly in submission order
    let mut rs = Resequencer::new();
    let mut book = Orderbook::default();
    let mut released: Vec<u64> = Vec::new();
    for (seq_no, payload) in tasks {
        let parsed = parse_message(&payload).expect("synthetic snapshots parse");
        for (out_seq, out_payload) in rs.complete(seq_no, Some(parsed)) {
            released.push(out_seq);
            book.apply_snapshot(out_payload.expect("no parse failures in this run"));
        }
    }

    let expected: Vec<u64> = (0..COUNT).collect();
    assert_eq!(released, expected);
    assert_eq!(rs.next_expected(), COUNT);
    assert_eq!(rs.pending_count(), 0);

    // the final book is exactly the last submitted snapshot
    let last_raw = synthetic_snapshot(COUNT - 1);
    let last = parse_message(bookfeed::classify::strip_array_wrapper(&last_raw)).unwrap();
    assert_eq!(book.market, last.market);
    assert_eq!(book.asset_id, last.asset_id);
    assert_eq!(book.timestamp, last.timestamp);
    assert_eq!(book.bids, last.bids);
    assert_eq!(book.asks, last.asks);
}
