use comal::proto_driver::channels::{Channels, Lookup, DEFAULT_CHAN_SIZE};
use comal::templates::ramulator_context::order_read_requests;

#[test]
fn channels_pair_up_ends_by_id() {
    let mut ch: Channels<&str, &str> = Channels::new();
    assert!(matches!(ch.get_sender(0, || ("s0", "r0")), Lookup::Void));
    // asking for a sender first makes the channel and parks its receiver
    assert!(matches!(ch.get_sender(5, || ("snd5", "rcv5")), Lookup::Fresh("snd5")));
    // asking for a receiver first makes the channel and parks its sender
    assert!(matches!(ch.get_receiver(6, || ("snd6", "rcv6")), Lookup::Fresh("rcv6")));
    assert!(matches!(ch.get_sender(6, || ("x", "y")), Lookup::Found("snd6")));
    assert!(matches!(ch.get_receiver(5, || ("x", "y")), Lookup::Found("rcv5")));
    assert_eq!(ch.dangling_sender(), None);
    ch.set_receiver(9, "rcv9");
    ch.set_receiver(7, "rcv7");
    let mut rest = ch.iter_remainders();
    rest.sort();
    assert_eq!(rest, vec!["rcv7", "rcv9"]);
    assert_eq!(DEFAULT_CHAN_SIZE, 8192);
}

#[test]
fn channels_dangling_sender() {
    let mut ch: Channels<u8, u8> = Channels::new();
    ch.set_receiver(3, 1);
    assert!(matches!(ch.get_receiver(3, || (0, 0)), Lookup::Found(1)));
    assert!(matches!(ch.get_receiver(8, || (4, 5)), Lookup::Fresh(5)));
    ch.set_receiver(10, 5);
    assert_eq!(ch.dangling_sender(), Some(8));
    assert!(matches!(ch.get_sender(8, || (0, 0)), Lookup::Found(4)));
    assert_eq!(ch.dangling_sender(), None);
    assert_eq!(ch.iter_remainders(), vec![5]);
}

#[test]
fn reads_are_taken_earliest_first() {
    let times = vec![vec![5u64, 9], vec![3, 20], vec![5]];
    assert_eq!(order_read_requests(&times, 10), vec![1, 0, 2, 0]);
    assert_eq!(order_read_requests(&times, 2), Vec::<usize>::new());
}
