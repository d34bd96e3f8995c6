use comal::templates::memory_logger::{access_log_lines, AccessBundle, AccessType};
use comal::templates::ramulator::access::{Access, AccessLike, MemoryData, SimpleRead, SimpleWrite};
use comal::templates::ramulator::address::ByteAddress;
use comal::templates::ramulator::hbm_context::{
    dequeue_responses,    HBMChannelContext, HBMConfig, HBMContext, ParAddrs, Request, RequestEnum, Response,
};
use comal::templates::ramulator::request_manager::RequestManager;
use comal::templates::ramulator_context::{
    collect_writes, continue_running, cycles_to_run, enqueue_payload, expected_cycles, get_crd_addr, get_seg_addr, get_val_addr,
    Enqueued, Memory, Payload, WriteHead,
};

fn config(channels: usize) -> HBMConfig {
    HBMConfig {
        addr_offset: 64,
        channel_num: channels,
        per_channel_latency: 4,
        per_channel_init_interval: 2,
        per_channel_outstanding: 1,
        per_channel_start_up_time: 10,
    }
}

#[test]
fn hbm_cycle_routes_and_spreads_requests() {
    let mut hbm = HBMContext::new(config(4));
    assert_eq!(hbm.add_reader(), 0);
    assert_eq!(hbm.add_reader(), 1);
    assert_eq!(hbm.add_writer(), 0);
    let responses = vec![Response::new(false, 0x40, 1), Response::new(true, 0x80, 0)];
    let reads = vec![Some(ParAddrs::new(vec![0, 64])), None];
    let writes = vec![Some(ParAddrs::new(vec![128]))];
    let cycle = hbm.cycle(&responses, &reads, &writes);
    assert_eq!(cycle.deliveries, vec![(false, 1, 0x40), (true, 0, 0x80)]);
    // request i goes to (previous channel + i) mod 4, starting from offset 0
    assert_eq!(
        cycle.dispatches,
        vec![
            (0, Request::new(false, 0, 0)),
            (1, Request::new(false, 64, 0)),
            (3, Request::new(true, 128, 0)),
        ]
    );
    // the next cycle starts after (last channel + count) mod 4
    assert_eq!(hbm.offset, (3 + 3) % 4);
}

#[test]
fn hbm_request_phase_ends_when_all_closed() {
    let hbm = HBMContext::new(config(2));
    assert!(hbm.request_incoming(&vec![false], &vec![true]));
    assert!(hbm.request_incoming(&vec![], &vec![false, true]));
    assert!(!hbm.request_incoming(&vec![], &vec![true, true]));
    assert!(hbm.channels_running(&vec![true, false]));
    assert!(!hbm.channels_running(&vec![true, true]));
}

#[test]
fn hbm_channel_answers_after_start_up_and_latency() {
    let ch = HBMChannelContext::new(4, 2, 1, 10);
    let req = Request::new(false, 0x100, 3);
    assert_eq!(ch.serve(5, RequestEnum::Request(req)), Some((19, Response::new(false, 0x100, 3), 7)));
    assert_eq!(ch.serve(7, RequestEnum::Done), None);
    assert_eq!(RequestEnum::default(), RequestEnum::Done);
}

#[test]
fn request_manager_serves_each_address_in_order() {
    let mut rm = RequestManager::new();
    assert!(rm.is_empty());
    rm.add_request(SimpleRead::new(ByteAddress(64), 0));
    rm.add_request(SimpleRead::new(ByteAddress(128), 1));
    rm.add_request(SimpleRead::new(ByteAddress(64), 2));
    assert!(!rm.is_empty());
    assert_eq!(rm.register_recv(ByteAddress(64)).bundle_index, 0);
    assert_eq!(rm.register_recv(ByteAddress(64)).bundle_index, 2);
    assert_eq!(rm.register_recv(ByteAddress(128)).bundle_index, 1);
    assert!(rm.is_empty());
}

#[test]
fn memory_lays_out_arrays_one_after_another() {
    let mut mem = Memory::new();
    mem.add_seg_crd_pair(7, vec![0, 2], vec![5, 9]);
    assert_eq!(mem.get_base_addr(7), 0);
    assert_eq!(mem.get_seg_crd_pair(7).crd_base, 8);
    assert_eq!(mem.get_seg_addr(7, 1), 4);
    assert_eq!(mem.get_crd_addr(7, 1), 12);
    assert_eq!(mem.read(12), Some(MemoryData::U32(9)));
    assert_eq!(mem.read(4), Some(MemoryData::U32(2)));
    assert_eq!(mem.set_next_addr(), 16);
    mem.add_value_array(8, vec![1.5f32.to_bits(), 2.5f32.to_bits()]);
    assert_eq!(mem.get_value_base(8), 16);
    assert_eq!(mem.read(get_val_addr(16, 1)), Some(MemoryData::F32Bits(2.5f32.to_bits())));
    // the first level is untouched
    assert_eq!(mem.read(0), Some(MemoryData::U32(0)));
    assert_eq!(mem.read(24), None);
    assert_eq!(get_seg_addr(100, 3), 112);
    assert_eq!(get_crd_addr(100, 1, 2), 112);
}

#[test]
fn memory_allocate_values_records_payload() {
    let mut mem = Memory::new();
    mem.allocate_values(1, vec![3u32]);
    assert_eq!(mem.get_value_base(1), 0);
    mem.allocate_seg_crd_pair(2, vec![0, 1], vec![4]);
    let p = mem.get_seg_crd_pair(2);
    assert_eq!((p.seg_base, p.crd_base, p.seg_size), (4, 12, 2));
    let _ = Payload::Value(0);
}

#[test]
fn memory_model_runs_while_anything_is_pending() {
    assert!(continue_running(true, &vec![true], &vec![true]));
    assert!(continue_running(false, &vec![false], &vec![true]));
    assert!(continue_running(false, &vec![], &vec![false]));
    assert!(!continue_running(false, &vec![], &vec![true, true]));
    assert_eq!(expected_cycles(10, 3, 2), 15);
    assert_eq!(expected_cycles(u64::MAX, u64::MAX, 1), (u64::MAX as u128) * (u64::MAX as u128));
    assert_eq!(cycles_to_run(4, 15), 11);
    assert_eq!(cycles_to_run(15, 4), 0);
}

#[test]
fn writes_issue_when_address_and_data_have_arrived() {
    let chunk = MemoryData::U32(7);
    let heads = vec![
        Some(WriteHead { addr_time: 3, addr: 64, data_time: 5, data: chunk }),
        None,
        Some(WriteHead { addr_time: 6, addr: 128, data_time: 1, data: chunk }),
        Some(WriteHead { addr_time: 2, addr: 192, data_time: 2, data: MemoryData::F32Bits(9) }),
    ];
    let writes = collect_writes(&heads, 5);
    assert_eq!(
        writes,
        vec![
            Access::SimpleWrite(SimpleWrite::new(ByteAddress(64), chunk, 0)),
            Access::SimpleWrite(SimpleWrite::new(ByteAddress(192), MemoryData::F32Bits(9), 3)),
        ]
    );
    assert!(writes.iter().all(|w| w.is_write()));
}

#[test]
fn taken_reads_wait_and_taken_writes_are_acknowledged() {
    let mut manager = RequestManager::new();
    let read = SimpleRead::new(ByteAddress(64), 2);
    assert_eq!(enqueue_payload(Access::SimpleRead(read), false, &mut manager), Enqueued::Refused);
    assert!(manager.is_empty());
    assert_eq!(enqueue_payload(Access::SimpleRead(read), true, &mut manager), Enqueued::ReadQueued);
    assert!(!manager.is_empty());
    let write = SimpleWrite::new(ByteAddress(64), MemoryData::default(), 1);
    assert_eq!(enqueue_payload(Access::SimpleWrite(write), true, &mut manager), Enqueued::WriteAcked(1));
    assert_eq!(manager.register_recv(ByteAddress(64)), read);
    assert!(manager.is_empty());
}

#[test]
fn default_chunk_is_half_precision_zeros() {
    let chunk = MemoryData::default();
    assert_eq!(chunk, MemoryData::F16([0u16; 32]));
    assert_eq!(chunk.dam_size(), 64);
}

#[test]
fn only_arrived_responses_are_dequeued() {
    let a = Response::new(false, 64, 0);
    let b = Response::new(true, 128, 1);
    let c = Response::new(false, 192, 2);
    let heads = vec![Some((4, a)), None, Some((9, b)), Some((7, c))];
    assert_eq!(dequeue_responses(&heads, 7), vec![a, c]);
    assert_eq!(dequeue_responses(&heads, 3), vec![]);
}

#[test]
fn access_log_lines_match_the_log_format() {
    let bundles = vec![
        AccessBundle { access_type: AccessType::Read, addr: 42 },
        AccessBundle { access_type: AccessType::Write, addr: 0x1234_5678_9 },
        AccessBundle { access_type: AccessType::Read, addr: 0 },
        AccessBundle { access_type: AccessType::Write, addr: u64::MAX },
    ];
    let lines = access_log_lines(&bundles);
    assert_eq!(lines, vec!["LD 0x0000002a", "ST 0x123456789", "LD 0x00000000", "ST 0xffffffffffffffff"]);
    for (b, l) in bundles.iter().zip(lines.iter()) {
        let kind = match b.access_type {
            AccessType::Read => "LD",
            AccessType::Write => "ST",
        };
        assert_eq!(*l, format!("{} 0x{:08x}", kind, b.addr));
    }
}

#[test]
fn request_manager_empty_when_balanced() {
    let mut m = RequestManager::new();
    m.add_request(SimpleRead::new(ByteAddress(64), 0));
    assert!(!m.is_empty());
    m.add_request(SimpleRead::new(ByteAddress(64), 1));
    m.add_request(SimpleRead::new(ByteAddress(128), 2));
    m.register_recv(ByteAddress(64));
    assert!(!m.is_empty());
    m.register_recv(ByteAddress(128));
    assert!(!m.is_empty());
    m.register_recv(ByteAddress(64));
    assert!(m.is_empty());
}
