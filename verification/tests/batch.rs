use transformer_cpu::request::{
    count_decoding, decoding_first, has_layers, measure, positions,
};
use transformer_cpu::{Prompt, Request};

fn decode(id: u32, pos: u32) -> Request<u32> {
    Request {
        prompt: Prompt::Decode(7),
        cache: vec![id],
        pos,
    }
}

fn prefill(id: u32, pos: u32, tokens: &[u32]) -> Request<u32> {
    Request {
        prompt: Prompt::Prefill(tokens.to_vec()),
        cache: vec![id],
        pos,
    }
}

fn ids(requests: &Vec<Request<u32>>) -> Vec<u32> {
    requests.iter().map(|r| r.cache[0]).collect()
}

#[test]
fn outermost_pair_changes_places() {
    let mut batch = vec![prefill(0, 0, &[1, 2]), decode(1, 4), decode(2, 5)];
    assert_eq!(decoding_first(&mut batch), 2);
    assert_eq!(ids(&batch), vec![2, 1, 0]);
}

#[test]
fn pairs_change_places_inwards() {
    let mut batch = vec![
        prefill(0, 0, &[1]),
        decode(1, 1),
        prefill(2, 0, &[1]),
        prefill(3, 0, &[1]),
        decode(4, 1),
        decode(5, 1),
    ];
    assert_eq!(decoding_first(&mut batch), 3);
    assert_eq!(ids(&batch), vec![5, 1, 4, 3, 2, 0]);
}

#[test]
fn ordered_batch_stays() {
    let mut batch = vec![decode(0, 1), decode(1, 2), prefill(2, 0, &[1]), prefill(3, 0, &[])];
    assert_eq!(decoding_first(&mut batch), 2);
    assert_eq!(ids(&batch), vec![0, 1, 2, 3]);
}

#[test]
fn single_requests() {
    let mut batch = vec![decode(0, 0)];
    assert_eq!(decoding_first(&mut batch), 1);
    let mut batch = vec![prefill(0, 0, &[1, 2, 3])];
    assert_eq!(decoding_first(&mut batch), 0);
}

#[test]
fn uniform_batches_stay() {
    let mut batch = vec![decode(0, 0), decode(1, 0), decode(2, 0)];
    assert_eq!(decoding_first(&mut batch), 3);
    assert_eq!(ids(&batch), vec![0, 1, 2]);
    let mut batch = vec![prefill(0, 0, &[1]), prefill(1, 0, &[1])];
    assert_eq!(decoding_first(&mut batch), 0);
    assert_eq!(ids(&batch), vec![0, 1]);
}

#[test]
fn two_requests_in_the_wrong_order() {
    let mut batch = vec![prefill(0, 0, &[1]), decode(1, 0)];
    assert_eq!(decoding_first(&mut batch), 1);
    assert_eq!(ids(&batch), vec![1, 0]);
}

#[test]
fn lengths_of_requests() {
    assert_eq!(decode(0, 5).seq_len(), 1);
    assert_eq!(decode(0, 5).att_len(), 6);
    assert_eq!(prefill(0, 3, &[1, 2, 3, 4]).seq_len(), 4);
    assert_eq!(prefill(0, 3, &[1, 2, 3, 4]).att_len(), 7);
}

#[test]
fn measures_a_batch() {
    let batch = vec![decode(0, 9), prefill(1, 2, &[1, 2, 3]), prefill(2, 0, &[])];
    let e = measure(&batch).unwrap();
    assert_eq!(e.num_tokens, 4);
    assert_eq!(e.max_seq_len, 3);
    assert_eq!(e.max_att_len, 10);
    assert_eq!(count_decoding(&batch), 1);
}

#[test]
fn measures_an_empty_batch() {
    let batch: Vec<Request<u32>> = vec![];
    let e = measure(&batch).unwrap();
    assert_eq!((e.num_tokens, e.max_seq_len, e.max_att_len), (0, 0, 0));
    assert_eq!(count_decoding(&batch), 0);
}

#[test]
fn order_keeps_the_measure() {
    let a = vec![decode(0, 9), prefill(1, 2, &[1, 2, 3])];
    let b = vec![prefill(1, 2, &[1, 2, 3]), decode(0, 9)];
    let (a, b) = (measure(&a).unwrap(), measure(&b).unwrap());
    assert_eq!(a.num_tokens, b.num_tokens);
    assert_eq!(a.max_seq_len, b.max_seq_len);
    assert_eq!(a.max_att_len, b.max_att_len);
}

#[test]
fn too_long_a_text_has_no_measure() {
    assert!(measure(&vec![decode(0, u32::MAX)]).is_none());
    assert!(measure(&vec![decode(0, u32::MAX - 1)]).is_some());
    assert!(measure(&vec![prefill(0, u32::MAX - 1, &[1, 2])]).is_none());
}

#[test]
fn places_follow_the_requests() {
    let batch = vec![decode(0, 9), prefill(1, 2, &[1, 2, 3]), prefill(2, 5, &[])];
    assert_eq!(positions(&batch), vec![9, 2, 3, 4]);
}

#[test]
fn caches_for_every_layer() {
    let mut batch = vec![decode(0, 1), decode(1, 1)];
    assert!(has_layers(&batch, 0));
    assert!(has_layers(&batch, 1));
    assert!(!has_layers(&batch, 2));
    batch[0].cache.push(7);
    assert!(!has_layers(&batch, 2));
    batch[1].cache.push(7);
    assert!(has_layers(&batch, 2));
}

#[test]
fn length_of_a_request_that_ends_too_late() {
    assert_eq!(decode(0, u32::MAX).seq_len(), 1);
    assert_eq!(prefill(0, u32::MAX, &[1, 2]).seq_len(), 2);
}

#[test]
fn caches_neither_order_nor_place() {
    let mut a = vec![prefill(0, 3, &[1, 2]), decode(1, 4), decode(2, 5)];
    let mut b = vec![prefill(7, 3, &[1, 2]), decode(8, 4), decode(9, 5)];
    assert_eq!(decoding_first(&mut a), decoding_first(&mut b));
    assert_eq!(ids(&a), vec![2, 1, 0]);
    assert_eq!(ids(&b), vec![9, 8, 7]);
    assert_eq!(positions(&a), positions(&b));
}
