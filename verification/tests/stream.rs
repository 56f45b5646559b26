use vocal_sieve::channels::to_mono;
use vocal_sieve::output::{Backlog, OutputQueue};

#[test]
fn first_channel_is_kept() {
    assert_eq!(to_mono(&[1, 2, 3, 4, 5, 6], 2), vec![1, 3, 5]);
    assert_eq!(to_mono(&[1, 2, 3, 4, 5, 6, 7], 3), vec![1, 4, 7]);
    assert_eq!(to_mono(&[1, 2, 3], 5), vec![1]);
    assert_eq!(to_mono(&[1.5f32, -2.5], 1), vec![1.5, -2.5]);
    assert_eq!(to_mono(&[1, 2], 0), vec![1, 2]);
    assert_eq!(to_mono::<u8>(&[], 2), Vec::<u8>::new());
}

#[test]
fn queue_plays_in_order_on_all_channels() {
    let mut queue = OutputQueue::<f32>::new(48000);
    queue.push_chunk(&vec![0.1, 0.2]);
    queue.push_chunk(&vec![0.3]);
    let mut data = [9.0f32; 4];
    queue.fill(&mut data, 2, 0.0);
    assert_eq!(data, [0.1, 0.1, 0.2, 0.2]);
    let mut data = [9.0f32; 4];
    queue.fill(&mut data, 2, 0.0);
    assert_eq!(data, [0.3, 0.3, 0.0, 0.0]);
}

#[test]
fn incomplete_frame_uses_up_a_sample() {
    let mut queue = OutputQueue::<i32>::new(1000);
    queue.push_chunk(&vec![1, 2, 3]);
    let mut data = [0; 3];
    queue.fill(&mut data, 2, -1);
    assert_eq!(data, [1, 1, 2]);
    let mut data = [0; 2];
    queue.fill(&mut data, 2, -1);
    assert_eq!(data, [3, 3]);
}

#[test]
fn queue_keeps_the_newest_tenth_of_a_second() {
    let mut queue = OutputQueue::<i32>::new(40);
    queue.push_chunk(&vec![1, 2, 3, 4, 5, 6]);
    queue.trim();
    let mut data = [0; 5];
    queue.fill(&mut data, 1, -1);
    assert_eq!(data, [3, 4, 5, 6, -1]);
}

#[test]
fn queue_serves_a_request() {
    let mut queue = OutputQueue::<i32>::new(30);
    queue.push_chunk(&vec![1]);
    let mut data = [0; 2];
    queue.serve(&vec![vec![2, 3], vec![], vec![4]], &mut data, 1, -1);
    assert_eq!(data, [2, 3]);
    let mut data = [0; 2];
    queue.serve(&vec![], &mut data, 1, -1);
    assert_eq!(data, [4, -1]);
}

#[test]
fn what_is_played_is_read_back() {
    let mut queue = OutputQueue::<i32>::new(48000);
    queue.push_chunk(&vec![7, 8, 9]);
    let mut data = [0; 9];
    queue.fill(&mut data, 3, -1);
    assert_eq!(to_mono(&data, 3), vec![7, 8, 9]);
}

#[test]
fn a_tenth_of_a_second_is_the_same_on_any_number_of_channels() {
    let mut queue = OutputQueue::<i32>::new(40);
    let mut data = [0; 12];
    queue.serve(&vec![vec![1, 2, 3, 4, 5, 6]], &mut data, 2, -1);
    assert_eq!(data, [3, 3, 4, 4, 5, 5, 6, 6, -1, -1, -1, -1]);
}

#[test]
fn backlog_hands_over_chunks_in_order() {
    let mut backlog = Backlog::<i32>::new();
    assert_eq!(backlog.take_all(), Vec::<Vec<i32>>::new());
    backlog.send(vec![1, 2]);
    backlog.send(vec![3]);
    assert_eq!(backlog.take_all(), vec![vec![1, 2], vec![3]]);
    assert_eq!(backlog.take_all(), Vec::<Vec<i32>>::new());
}

#[test]
fn backlog_drops_the_oldest_chunk() {
    let mut backlog = Backlog::<i32>::new();
    for i in 0..10 {
        backlog.send(vec![i]);
    }
    let kept: Vec<Vec<i32>> = (2..10).map(|i| vec![i]).collect();
    assert_eq!(backlog.take_all(), kept);
}
