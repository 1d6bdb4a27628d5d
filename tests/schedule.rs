use hibp_ranges::schedule::{Reorder, Window};

#[test]
fn ordered_output_follows_enumeration_order() {
    let completion = [3u64, 1, 4, 0, 2, 6, 5];
    let mut buffer: Reorder<&str> = Reorder::new(7);
    let mut out = Vec::new();
    for &i in &completion {
        buffer.insert(i, "body");
        while let Some((j, _)) = buffer.pop_ready() {
            out.push(j);
        }
    }
    assert_eq!(out, vec![0, 1, 2, 3, 4, 5, 6]);
    assert_eq!(buffer.next_index_value(), 7);
}

#[test]
fn ordered_output_holds_results_until_predecessors_complete() {
    let mut buffer: Reorder<u32> = Reorder::new(3);
    buffer.insert(1, 11);
    buffer.insert(2, 22);
    assert!(buffer.pop_ready().is_none());
    buffer.insert(0, 0);
    assert_eq!(buffer.pop_ready(), Some((0, 0)));
    assert_eq!(buffer.pop_ready(), Some((1, 11)));
    assert_eq!(buffer.pop_ready(), Some((2, 22)));
    assert_eq!(buffer.pop_ready(), None);
}

#[test]
fn unordered_launch_never_waits_for_a_straggler() {
    let mut window = Window::new(10, 3);
    assert_eq!(window.launch(), Some(0));
    assert_eq!(window.launch(), Some(1));
    assert_eq!(window.launch(), Some(2));
    assert_eq!(window.launch(), None);
    // shard 1 completes first while shard 0 is still out
    window.finish();
    assert_eq!(window.launch(), Some(3));
    assert_eq!(window.outstanding_count(), 3);
}

#[test]
fn window_is_done_after_every_shard() {
    let mut window = Window::new(2, 5);
    assert!(!window.is_done());
    assert_eq!(window.launch(), Some(0));
    assert_eq!(window.launch(), Some(1));
    assert_eq!(window.launch(), None);
    window.finish();
    window.finish();
    assert!(window.is_done());
}

#[test]
fn complete_hands_on_every_result_in_line() {
    let mut buffer: Reorder<char> = Reorder::new(5);
    assert!(buffer.complete(2, 'c').is_empty());
    assert!(buffer.holds_index(2));
    assert!(buffer.complete(1, 'b').is_empty());
    assert_eq!(buffer.complete(0, 'a'), vec![(0, 'a'), (1, 'b'), (2, 'c')]);
    assert!(!buffer.holds_index(2));
    assert!(buffer.complete(4, 'e').is_empty());
    assert_eq!(buffer.complete(3, 'd'), vec![(3, 'd'), (4, 'e')]);
    assert_eq!(buffer.next_index_value(), 5);
    assert_eq!(buffer.bound_value(), 5);
}
