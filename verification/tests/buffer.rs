use lazy_permutations::lazy_buffer::LazyBuffer;

#[test]
fn a_new_buffer_holds_nothing() {
    let buffer = LazyBuffer::new(vec![1, 2, 3].into_iter());
    assert_eq!(buffer.len(), 0);
    assert_eq!(buffer.size_hint(), (3, Some(3)));
}

#[test]
fn items_come_one_at_a_time() {
    let mut buffer = LazyBuffer::new(vec!['a', 'b'].into_iter());
    assert!(buffer.get_next());
    assert_eq!(buffer.len(), 1);
    assert_eq!(*buffer.get(0), 'a');
    assert!(buffer.get_next());
    assert_eq!(buffer.len(), 2);
    assert_eq!(*buffer.get(0), 'a');
    assert_eq!(*buffer.get(1), 'b');
    assert!(!buffer.get_next());
    assert_eq!(buffer.len(), 2);
    assert!(!buffer.get_next());
    assert_eq!(buffer.len(), 2);
}

#[test]
fn a_source_is_not_asked_again_after_its_end() {
    // Hands out 1, reports its end, and would hand out 2 if asked again.
    struct Restarting {
        calls: usize,
    }
    impl Iterator for Restarting {
        type Item = usize;
        fn next(&mut self) -> Option<usize> {
            self.calls += 1;
            if self.calls == 2 {
                None
            } else {
                Some(self.calls)
            }
        }
    }
    let mut buffer = LazyBuffer::new(Restarting { calls: 0 });
    assert!(buffer.get_next());
    assert!(!buffer.get_next());
    assert!(!buffer.get_next());
    assert_eq!(buffer.len(), 1);
    assert_eq!(buffer.size_hint(), (1, Some(1)));
}

#[test]
fn prefill_stops_at_the_length_asked_for() {
    let mut buffer = LazyBuffer::new(0..10);
    buffer.prefill(4);
    assert_eq!(buffer.len(), 4);
    assert_eq!(*buffer.get(3), 3);
    buffer.prefill(2);
    assert_eq!(buffer.len(), 4);
    buffer.prefill(4);
    assert_eq!(buffer.len(), 4);
    buffer.prefill(0);
    assert_eq!(buffer.len(), 4);
    assert_eq!(buffer.size_hint(), (10, Some(10)));
}

#[test]
fn prefill_stops_at_the_end_of_the_source() {
    let mut buffer = LazyBuffer::new(0..3);
    buffer.prefill(5);
    assert_eq!(buffer.len(), 3);
    assert!(!buffer.get_next());
    assert_eq!(buffer.size_hint(), (3, Some(3)));
}

#[test]
fn count_includes_what_is_held() {
    let mut buffer = LazyBuffer::new(0..7);
    assert_eq!(buffer.clone().count(), Some(7));
    buffer.prefill(3);
    assert_eq!(buffer.clone().count(), Some(7));
    buffer.prefill(9);
    assert_eq!(buffer.count(), Some(7));
}

#[test]
fn count_of_nothing() {
    let buffer = LazyBuffer::new(Vec::<u8>::new().into_iter());
    assert_eq!(buffer.count(), Some(0));
}

#[test]
fn size_hint_adds_what_is_held() {
    let mut buffer = LazyBuffer::new((0..6).filter(|x| x % 2 == 0));
    assert_eq!(buffer.size_hint(), (0, Some(6)));
    assert!(buffer.get_next());
    assert_eq!(buffer.size_hint(), (1, Some(6)));
    assert!(buffer.get_next());
    assert_eq!(buffer.size_hint(), (2, Some(5)));
    let mut endless = LazyBuffer::new(0u32..);
    assert!(endless.get_next());
    assert_eq!(endless.size_hint().0, usize::MAX);
}

#[test]
fn a_cloned_buffer_holds_the_same_items() {
    let mut buffer = LazyBuffer::new(vec![5, 6, 7].into_iter());
    buffer.prefill(2);
    let mut copy = buffer.clone();
    assert_eq!(copy.len(), 2);
    assert_eq!(*copy.get(0), 5);
    assert_eq!(*copy.get(1), 6);
    assert!(copy.get_next());
    assert_eq!(*copy.get(2), 7);
    assert_eq!(buffer.len(), 2);
}
