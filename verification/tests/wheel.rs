use wheelbuf::{Storage, WheelBuf, WheelBufDrain};

fn read_all<C: Storage<char>>(wheel: &WheelBuf<C, char>) -> String {
    let mut s = String::new();
    let mut iter = wheel.iter();
    while let Some(c) = iter.next() {
        s.push(*c);
    }
    s
}

fn drain_all(mut drain: WheelBufDrain<'_, char>) -> String {
    let mut s = String::new();
    while let Some(c) = drain.next() {
        s.push(*c);
    }
    s
}

fn push_text<C: Storage<char>>(wheel: &mut WheelBuf<C, char>, text: &str) {
    for c in text.chars() {
        wheel.push(c);
    }
}

#[test]
fn basics() {
    let mut buf = ['x'; 8];
    let mut wheel = WheelBuf::new(&mut buf);

    wheel.push('H');
    wheel.push('e');
    wheel.push('l');
    assert_eq!(wheel.len(), 3);
    assert_eq!(*wheel.iter().next().unwrap(), 'H');

    wheel.push('l');
    wheel.push('o');
    wheel.push(' ');
    wheel.push('W');
    wheel.push('o');
    wheel.push('r');
    wheel.push('l');
    wheel.push('d');
    assert_eq!(wheel.len(), 8);

    let s: String = read_all(&wheel);
    assert_eq!(s.as_str(), "lo World");
}

#[test]
fn clonable() {
    let mut buf = vec![vec!['x']; 8];
    let mut wheel = WheelBuf::new(&mut buf);

    wheel.push(vec!['H']);
    wheel.push(vec!['e']);
    wheel.push(vec!['l']);
    assert_eq!(wheel.len(), 3);
    assert_eq!(wheel.iter().next().unwrap()[0], 'H');

    wheel.push(vec!['l']);
    wheel.push(vec!['o']);
    wheel.push(vec![' ']);
    wheel.push(vec!['W']);
    wheel.push(vec!['o']);
    wheel.push(vec!['r']);
    wheel.push(vec!['l']);
    wheel.push(vec!['d']);
    assert_eq!(wheel.len(), 8);

    let mut iter = wheel.iter();
    assert_eq!(iter.next().unwrap()[0], 'l');
    assert_eq!(iter.next().unwrap()[0], 'o');
    assert_eq!(iter.next().unwrap()[0], ' ');
    assert_eq!(iter.next().unwrap()[0], 'W');
    assert_eq!(iter.next().unwrap()[0], 'o');
    assert_eq!(iter.next().unwrap()[0], 'r');
    assert_eq!(iter.next().unwrap()[0], 'l');
    assert_eq!(iter.next().unwrap()[0], 'd');
}

#[test]
fn drain() {
    let mut buf = ['x'; 8];
    let mut wheel = WheelBuf::new(&mut buf);

    wheel.push('H');
    wheel.push('e');
    wheel.push('l');
    wheel.push('l');
    wheel.push('o');
    wheel.push(' ');
    wheel.push('W');
    wheel.push('o');
    wheel.push('r');
    wheel.push('l');
    wheel.push('d');
    assert_eq!(wheel.len(), 8);
    {
        let mut drain = wheel.drain();
        assert_eq!(*drain.next().unwrap(), 'l');
        assert_eq!(*drain.next().unwrap(), 'o');
    }

    assert_eq!(wheel.len(), 6);
    assert_eq!(wheel.head(), 3);
    assert_eq!(wheel.tail(), 5);
    let s: String = drain_all(wheel.drain());
    assert_eq!(s.as_str(), " World");

    assert_eq!(wheel.len(), 0);
    assert_eq!(wheel.head(), 0);
    assert_eq!(wheel.tail(), 0);
}

#[test]
fn nth() {
    let mut buf = ['x'; 8];
    let mut wheel = WheelBuf::new(&mut buf);

    wheel.push('H');
    wheel.push('e');
    wheel.push('l');

    assert_eq!(*wheel.iter().nth(0).unwrap(), 'H');
    assert_eq!(*wheel.iter().nth(1).unwrap(), 'e');
    assert_eq!(*wheel.iter().nth(2).unwrap(), 'l');
    assert!(wheel.iter().nth(3).is_none());
}

#[test]
fn write() {
    let mut buf = ['x'; 8];
    let mut wheel = WheelBuf::new(&mut buf);

    wheel.write_str(&format!("Hello, World! {}", 123)).unwrap();
    let s: String = read_all(&wheel);
    assert_eq!(s.as_str(), "rld! 123");
}

#[test]
fn using_vec() {
    let mut buf = vec!['x', 'x', 'x', 'x', 'x', 'x', 'x', 'x'];
    let mut wheel = WheelBuf::new(&mut buf);

    wheel.push('H');
    wheel.push('e');
    wheel.push('l');
    assert_eq!(wheel.len(), 3);
    assert_eq!(*wheel.iter().next().unwrap(), 'H');

    wheel.push('l');
    wheel.push('o');
    wheel.push(' ');
    wheel.push('W');
    wheel.push('o');
    wheel.push('r');
    wheel.push('l');
    wheel.push('d');
    assert_eq!(wheel.len(), 8);

    let s: String = read_all(&wheel);
    assert_eq!(s.as_str(), "lo World");
}

#[test]
fn new_buffer_is_empty_at_the_origin() {
    let mut buf = ['x'; 8];
    let wheel = WheelBuf::new(&mut buf);
    assert_eq!(wheel.capacity(), 8);
    assert_eq!(wheel.len(), 0);
    assert_eq!(wheel.head(), 0);
    assert_eq!(wheel.tail(), 0);
    assert!(wheel.is_consistent());
    assert!(wheel.iter().next().is_none());
    assert_eq!(read_all(&wheel), "");
}

#[test]
fn buffer_without_slots_is_accepted() {
    let buf: [char; 0] = [];
    let mut wheel = WheelBuf::new(buf);
    assert_eq!(wheel.capacity(), 0);
    assert_eq!(wheel.len(), 0);
    assert!(wheel.is_consistent());
    assert!(wheel.iter().next().is_none());
    assert!(wheel.iter().nth(4).is_none());
    assert!(wheel.drain().next().is_none());
    assert!(wheel.write_str("").is_ok());
    assert_eq!(wheel.len(), 0);
}

#[test]
fn pushes_within_capacity_read_in_push_order() {
    let mut buf = ['x'; 8];
    let mut wheel = WheelBuf::new(&mut buf);
    let text = "abcdefgh";
    let mut pushed = 0;
    for c in text.chars() {
        wheel.push(c);
        pushed += 1;
        assert_eq!(wheel.len(), pushed);
        assert_eq!(wheel.head(), pushed % 8);
        assert_eq!(wheel.tail(), 0);
        assert_eq!(read_all(&wheel), &text[..pushed]);
    }
    assert!(wheel.is_consistent());
}

#[test]
fn pushes_beyond_capacity_keep_the_newest() {
    let mut buf = ['x'; 4];
    let mut wheel = WheelBuf::new(&mut buf);
    let text = "0123456789";
    let mut pushed = 0;
    for c in text.chars() {
        wheel.push(c);
        pushed += 1;
        let kept = if pushed < 4 { pushed } else { 4 };
        assert_eq!(wheel.len(), kept);
        assert_eq!(read_all(&wheel), &text[pushed - kept..pushed]);
    }
    assert_eq!(wheel.len(), 4);
    assert_eq!(wheel.head(), 2);
    assert_eq!(wheel.tail(), 2);
    assert_eq!(read_all(&wheel), "6789");
}

#[test]
fn first_push_moves_only_the_head() {
    let mut buf = [0u32; 3];
    let mut wheel = WheelBuf::new(&mut buf);
    wheel.push(7);
    assert_eq!(wheel.len(), 1);
    assert_eq!(wheel.head(), 1);
    assert_eq!(wheel.tail(), 0);
    assert_eq!(*wheel.iter().next().unwrap(), 7);
}

#[test]
fn push_into_full_buffer_moves_head_and_tail() {
    let mut buf = [0u32; 3];
    let mut wheel = WheelBuf::new(&mut buf);
    wheel.push(1);
    wheel.push(2);
    wheel.push(3);
    assert_eq!((wheel.len(), wheel.head(), wheel.tail()), (3, 0, 0));
    wheel.push(4);
    assert_eq!((wheel.len(), wheel.head(), wheel.tail()), (3, 1, 1));
    wheel.push(5);
    assert_eq!((wheel.len(), wheel.head(), wheel.tail()), (3, 2, 2));
    wheel.push(6);
    assert_eq!((wheel.len(), wheel.head(), wheel.tail()), (3, 0, 0));
    let mut iter = wheel.iter();
    assert_eq!(iter.next(), Some(&4));
    assert_eq!(iter.next(), Some(&5));
    assert_eq!(iter.next(), Some(&6));
    assert_eq!(iter.next(), None);
    assert_eq!(iter.next(), None);
}

#[test]
fn push_writes_the_slot_at_head() {
    let mut buf = [0u32; 3];
    {
        let mut wheel = WheelBuf::new(&mut buf);
        wheel.push(1);
        wheel.push(2);
        wheel.push(3);
        wheel.push(4);
    }
    assert_eq!(buf, [4, 2, 3]);
}

#[test]
fn single_slot_buffer_keeps_the_last_item() {
    let mut wheel = WheelBuf::new(['x'; 1]);
    wheel.push('a');
    assert_eq!(read_all(&wheel), "a");
    wheel.push('b');
    wheel.push('c');
    assert_eq!((wheel.len(), wheel.head(), wheel.tail()), (1, 0, 0));
    assert_eq!(read_all(&wheel), "c");
    assert_eq!(drain_all(wheel.drain()), "c");
    assert_eq!(wheel.len(), 0);
}

#[test]
fn readers_do_not_disturb_the_buffer() {
    let mut buf = ['x'; 4];
    let mut wheel = WheelBuf::new(&mut buf);
    push_text(&mut wheel, "abcdef");
    let mut first = wheel.iter();
    let mut second = wheel.iter();
    assert_eq!(first.next(), Some(&'c'));
    assert_eq!(first.next(), Some(&'d'));
    assert_eq!(second.next(), Some(&'c'));
    assert_eq!(first.next(), Some(&'e'));
    assert_eq!(second.next(), Some(&'d'));
    assert_eq!((wheel.len(), wheel.head(), wheel.tail()), (4, 2, 2));
    assert_eq!(read_all(&wheel), "cdef");
    assert_eq!(read_all(&wheel), "cdef");
}

#[test]
fn drain_to_exhaustion_yields_what_a_reader_yields() {
    let mut buf = ['x'; 5];
    let mut wheel = WheelBuf::new(&mut buf);
    push_text(&mut wheel, "abcdefgh");
    let read = read_all(&wheel);
    assert_eq!(read, "defgh");
    let drained = drain_all(wheel.drain());
    assert_eq!(drained, read);
    assert_eq!((wheel.len(), wheel.head(), wheel.tail()), (0, 0, 0));
    assert_eq!(read_all(&wheel), "");
    assert!(wheel.is_consistent());
}

#[test]
fn drain_stopped_at_the_last_item_leaves_the_indices_in_place() {
    let mut buf = ['x'; 4];
    let mut wheel = WheelBuf::new(&mut buf);
    push_text(&mut wheel, "ab");
    {
        let mut drain = wheel.drain();
        assert_eq!(drain.next(), Some(&'a'));
        assert_eq!(drain.next(), Some(&'b'));
    }
    assert_eq!((wheel.len(), wheel.head(), wheel.tail()), (0, 2, 2));
    assert!(wheel.is_consistent());
    {
        let mut drain = wheel.drain();
        assert_eq!(drain.next(), None);
        assert_eq!(drain.next(), None);
    }
    assert_eq!((wheel.len(), wheel.head(), wheel.tail()), (0, 0, 0));
}

#[test]
fn partial_drain_leaves_the_rest_in_order() {
    let mut buf = ['x'; 8];
    let mut wheel = WheelBuf::new(&mut buf);
    push_text(&mut wheel, "Hello World");
    {
        let mut drain = wheel.drain();
        assert_eq!(drain.next(), Some(&'l'));
        assert_eq!(drain.next(), Some(&'o'));
        assert_eq!(drain.next(), Some(&' '));
    }
    assert_eq!(wheel.len(), 5);
    assert_eq!(read_all(&wheel), "World");
    wheel.push('!');
    assert_eq!(read_all(&wheel), "World!");
    assert_eq!(drain_all(wheel.drain()), "World!");
    assert_eq!(wheel.len(), 0);
}

#[test]
fn drain_leaves_the_slots_as_they_were() {
    let mut buf = [0u8; 3];
    {
        let mut wheel = WheelBuf::new(&mut buf);
        wheel.push(1);
        wheel.push(2);
        let mut drain = wheel.drain();
        assert_eq!(drain.next(), Some(&1));
        assert_eq!(drain.next(), Some(&2));
        assert_eq!(drain.next(), None);
    }
    assert_eq!(buf, [1, 2, 0]);
}

#[test]
fn push_after_drain_starts_at_the_origin() {
    let mut buf = ['x'; 3];
    let mut wheel = WheelBuf::new(&mut buf);
    push_text(&mut wheel, "abcd");
    assert_eq!(drain_all(wheel.drain()), "bcd");
    wheel.push('e');
    assert_eq!((wheel.len(), wheel.head(), wheel.tail()), (1, 1, 0));
    assert_eq!(read_all(&wheel), "e");
}

#[test]
fn nth_agrees_with_repeated_next() {
    let mut buf = [0usize; 5];
    let mut wheel = WheelBuf::new(&mut buf);
    for i in 0..8 {
        wheel.push(i);
    }
    for start in 0..7 {
        for n in 0..8 {
            let mut skipping = wheel.iter();
            let mut stepping = wheel.iter();
            for _ in 0..start {
                skipping.next();
                stepping.next();
            }
            let mut last = None;
            for _ in 0..n + 1 {
                last = stepping.next();
            }
            assert_eq!(skipping.nth(n), last);
            assert_eq!(skipping.next(), stepping.next());
        }
    }
}

#[test]
fn nth_wraps_round_the_slots() {
    let mut buf = [0usize; 4];
    let mut wheel = WheelBuf::new(&mut buf);
    for i in 10..16 {
        wheel.push(i);
    }
    assert_eq!((wheel.head(), wheel.tail()), (2, 2));
    let mut iter = wheel.iter();
    assert_eq!(iter.nth(2), Some(&14));
    assert_eq!(iter.nth(0), Some(&15));
    assert_eq!(iter.nth(0), None);
    assert_eq!(wheel.iter().nth(3), Some(&15));
    assert_eq!(wheel.iter().nth(4), None);
    assert_eq!(wheel.iter().nth(usize::MAX), None);
}

#[test]
fn nth_past_the_end_ends_the_read() {
    let mut buf = [0usize; 4];
    let mut wheel = WheelBuf::new(&mut buf);
    wheel.push(1);
    wheel.push(2);
    wheel.push(3);
    let mut iter = wheel.iter();
    assert_eq!(iter.next(), Some(&1));
    assert_eq!(iter.nth(2), None);
    assert_eq!(iter.next(), None);
    assert_eq!(iter.nth(0), None);
}

#[test]
fn write_str_pushes_each_character() {
    let mut wheel = WheelBuf::new(vec!['x'; 6]);
    assert!(wheel.write_str("ab").is_ok());
    assert_eq!(wheel.len(), 2);
    assert_eq!(read_all(&wheel), "ab");
    assert!(wheel.write_str("").is_ok());
    assert_eq!(read_all(&wheel), "ab");
    assert!(wheel.write_str("cd\u{e9}\u{4e16}\u{1f600}!").is_ok());
    assert_eq!(wheel.len(), 6);
    assert_eq!(read_all(&wheel), "cd\u{e9}\u{4e16}\u{1f600}!");
    assert_eq!((wheel.head(), wheel.tail()), (2, 2));
}

#[test]
fn stores_may_be_owned_or_borrowed() {
    let mut owned_array = WheelBuf::new([0u8; 2]);
    owned_array.push(1);
    owned_array.push(2);
    owned_array.push(3);
    assert_eq!(owned_array.iter().next(), Some(&2));

    let mut owned_vec = WheelBuf::new(vec![0u8; 2]);
    owned_vec.push(1);
    owned_vec.push(2);
    owned_vec.push(3);
    assert_eq!(owned_vec.iter().nth(1), Some(&3));

    let mut slots = [0u8; 5];
    let mut on_slice = WheelBuf::new(&mut slots[1..3]);
    assert_eq!(on_slice.capacity(), 2);
    on_slice.push(1);
    on_slice.push(2);
    on_slice.push(3);
    assert_eq!(on_slice.drain().next(), Some(&2));
    assert_eq!(slots, [0, 3, 2, 0, 0]);
}

#[test]
fn storage_views_agree() {
    let mut v = vec![1u8, 2, 3];
    assert_eq!(Storage::as_slice(&v), &[1, 2, 3]);
    Storage::as_mut_slice(&mut v)[1] = 9;
    assert_eq!(v, vec![1, 9, 3]);
    let mut a = [4u8, 5];
    Storage::as_mut_slice(&mut a)[0] = 7;
    assert_eq!(Storage::as_slice(&a), &[7, 5]);
    let mut r = &mut a;
    Storage::as_mut_slice(&mut r)[1] = 8;
    assert_eq!(Storage::as_slice(&r), &[7, 8]);
}

#[test]
fn indices_written_by_hand_are_found_out() {
    let mut buf = ['x'; 4];
    let mut wheel = WheelBuf::new(&mut buf);
    push_text(&mut wheel, "abc");
    assert!(wheel.is_consistent());
    {
        let drain = wheel.drain();
        *drain.len = 9;
    }
    assert!(!wheel.is_consistent());
    {
        let drain = wheel.drain();
        *drain.len = 2;
        *drain.head = 1;
    }
    assert!(!wheel.is_consistent());
    {
        let drain = wheel.drain();
        *drain.head = 2;
    }
    assert!(wheel.is_consistent());
    assert_eq!(read_all(&wheel), "ab");
}
