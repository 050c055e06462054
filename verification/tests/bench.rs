use core_latency::args::{
    affinity_warning, error_line, fmt_num_cores, CliArgs, DEFAULT_NUM_ADDRESSES,
    DEFAULT_NUM_ITERATIONS_PER_SAMPLE, DEFAULT_NUM_SAMPLES,
};
use core_latency::bench::{Bench, BenchKind};
use core_latency::double::{Double, Op};
use core_latency::exchange::{
    can_count_moves, moves, with_warmup, Act, Course, Flags, Player, Side, Timer,
};
use core_latency::messages::{Receiver, Role, Script, Task};
use core_latency::numa::Placed;
use core_latency::stats::SampleAgg;
use core_latency::timing::{lag, look, message_latency, non_zero, one_way_latency, stamp};
use std::sync::atomic::{AtomicU64, Ordering};

fn arith(op: Op, xs: &[Double]) -> Double {
    let v: Vec<f64> = xs.iter().map(|x| f64::from_bits(x.bits)).collect();
    let r = match op {
        Op::Mean => ndarray::arr1(&v).mean().unwrap(),
        Op::StdDev => ndarray::arr1(&v).std(1.0),
        Op::Sum => v[0] + v[1],
        Op::Product => v[0] * v[1],
        Op::Quotient => v[0] / v[1],
        Op::Root => v[0].sqrt(),
        Op::Count(n) => n as f64,
    };
    Double { bits: r.to_bits() }
}

fn args() -> CliArgs {
    CliArgs {
        num_iterations: DEFAULT_NUM_ITERATIONS_PER_SAMPLE,
        num_samples: DEFAULT_NUM_SAMPLES,
        num_addresses: DEFAULT_NUM_ADDRESSES,
        sample_agg: SampleAgg::Median,
        csv: false,
        csv_output_prefix: "report".to_string(),
        bench: vec![1],
        cores: vec![],
        numa: vec![],
    }
}

#[test]
fn settings_shown() {
    assert_eq!(
        args().settings(),
        "Num iterations per samples: 1000\nNum samples: 300\nSample aggregation: median\n"
    );
    let other = CliArgs { num_iterations: 5, num_samples: 0, sample_agg: SampleAgg::Mean, ..args() };
    assert_eq!(
        other.settings(),
        "Num iterations per samples: 5\nNum samples: 0\nSample aggregation: mean\n"
    );
    assert_eq!(fmt_num_cores(16), "Num cores: 16\n");
    assert_eq!(error_line("no"), "ERROR: no\n");
}

#[test]
fn an_address_is_needed() {
    assert_eq!(args().check(), Ok(()));
    let none = CliArgs { num_addresses: 0, ..args() };
    assert_eq!(none.check().unwrap_err(), "--num-addresses must be at least 1");
}

#[test]
fn warning_in_red() {
    assert_eq!(
        affinity_warning(),
        "\u{1b}[1;31mWARN macOS may ignore thread-CPU affinity (we can't select a CPU to run on). Results may be inaccurate\u{1b}[0m\n"
    );
}

#[test]
fn benchmarks_by_number() {
    assert_eq!(BenchKind::from_number(0), None);
    assert_eq!(BenchKind::from_number(1), Some(BenchKind::Cas));
    assert_eq!(BenchKind::from_number(2), Some(BenchKind::ReadWrite));
    assert_eq!(BenchKind::from_number(3), Some(BenchKind::MsgPassing));
    assert_eq!(BenchKind::from_number(4), None);
}

#[test]
fn benchmarks_are_named() {
    assert_eq!(BenchKind::Cas.name(), "cas");
    assert_eq!(BenchKind::ReadWrite.name(), "read_write");
    assert_eq!(BenchKind::MsgPassing.name(), "msg_passing");
    assert_eq!(BenchKind::Cas.title(), "\n1) CAS latency on a single shared cache line\n\n");
    assert_eq!(
        BenchKind::ReadWrite.title(),
        "\n2) Single-writer single-reader latency on two shared cache lines\n\n"
    );
    assert_eq!(
        BenchKind::MsgPassing.title(),
        "\n3) Message passing. One writer and one reader on many cache line\n\n"
    );
}

#[test]
fn lines_of_a_buffer() {
    assert_eq!(BenchKind::Cas.cache_lines(7, 1000), 7);
    assert_eq!(BenchKind::ReadWrite.cache_lines(7, 1000), 2);
    assert_eq!(BenchKind::MsgPassing.cache_lines(7, 1000), 1000);
    assert_eq!(BenchKind::Cas.flags(), Some(Flags::Shared));
    assert_eq!(BenchKind::ReadWrite.flags(), Some(Flags::Owned));
    assert_eq!(BenchKind::MsgPassing.flags(), None);
}

#[test]
fn ignored_addresses() {
    assert_eq!(BenchKind::Cas.ignored_warning(7), None);
    assert_eq!(BenchKind::ReadWrite.ignored_warning(1), None);
    assert_eq!(
        BenchKind::ReadWrite.ignored_warning(7).unwrap(),
        "    WARN: num_addresses=7 ignored for read_write (only supports 1)\n"
    );
    assert_eq!(
        BenchKind::MsgPassing.ignored_warning(0).unwrap(),
        "    WARN: num_addresses=0 ignored for msg_passing (only supports 1)\n"
    );
}

#[test]
fn benchmark_with_its_buffers() {
    let attempts = [
        Ok(Placed { node: 0, spanned: false }),
        Ok(Placed { node: -1, spanned: true }),
    ];
    let cas = Bench::new(BenchKind::Cas, 7, &attempts).unwrap();
    assert!(cas.is_symmetric());
    assert_eq!((cas.num_addresses(), cas.num_domains()), (7, 2));
    assert_eq!(cas.mem_numa_nodes(), vec![0, -1]);
    assert_eq!(cas.mem_numa_spanned(), vec![false, true]);
    let rw = Bench::new(BenchKind::ReadWrite, 7, &attempts).unwrap();
    assert!(rw.is_symmetric());
    assert_eq!(rw.num_addresses(), 1);
    let msg = Bench::new(BenchKind::MsgPassing, 7, &[]).unwrap();
    assert!(!msg.is_symmetric());
    assert_eq!((msg.num_addresses(), msg.num_domains()), (1, 0));
}

#[test]
fn benchmark_without_a_buffer() {
    let attempts = [
        Ok(Placed { node: 0, spanned: false }),
        Err("first".to_string()),
        Err("second".to_string()),
    ];
    let error = |kind: BenchKind| Bench::new(kind, 1, &attempts).unwrap_err();
    assert_eq!(error(BenchKind::Cas), "cas: NUMA buffer allocation failed: first");
    assert_eq!(error(BenchKind::ReadWrite), "read_write: NUMA buffer allocation failed: first");
    assert_eq!(error(BenchKind::MsgPassing), "msg_passing: NUMA buffer allocation failed: first");
}

#[test]
fn counts() {
    assert_eq!(with_warmup(300), 301);
    assert_eq!(moves(1000, 301), 301000);
    assert!(can_count_moves(65535, 65537));
    assert!(!can_count_moves(65536, 65536));
}

#[test]
fn sides_take_turns() {
    for flags in [Flags::Shared, Flags::Owned] {
        let mut lines = [false, false];
        let mut players = [Player::new(flags, Side::Pong), Player::new(flags, Side::Ping)];
        for n in 0..20 {
            let can: Vec<bool> =
                players.iter().map(|p| lines[p.watches()] == p.waits_for()).collect();
            assert_eq!(can, vec![n % 2 == 0, n % 2 == 1]);
            let p = &mut players[n % 2];
            lines[p.marks()] = p.writes();
            p.advance();
        }
        assert_eq!(lines, [false, false]);
    }
}

#[test]
fn shared_flag_is_exchanged() {
    let mut ping = Player::new(Flags::Shared, Side::Ping);
    let pong = Player::new(Flags::Shared, Side::Pong);
    assert_eq!((ping.watches(), ping.marks(), ping.waits_for(), ping.writes()), (0, 0, true, false));
    assert_eq!((pong.watches(), pong.marks(), pong.waits_for(), pong.writes()), (0, 0, false, true));
    ping.advance();
    assert_eq!(ping, Player::new(Flags::Shared, Side::Ping));
}

#[test]
fn owned_flags_alternate() {
    let mut ping = Player::new(Flags::Owned, Side::Ping);
    let mut pong = Player::new(Flags::Owned, Side::Pong);
    assert_eq!((ping.watches(), ping.marks(), ping.waits_for(), ping.writes()), (1, 0, true, true));
    assert_eq!((pong.watches(), pong.marks(), pong.waits_for(), pong.writes()), (0, 1, false, true));
    ping.advance();
    pong.advance();
    assert_eq!((ping.waits_for(), ping.writes()), (false, false));
    assert_eq!((pong.waits_for(), pong.writes()), (true, false));
}

#[test]
fn latency_of_one_way() {
    let latency = |nanos: u64, trips: u32| {
        f64::from_bits(one_way_latency(&arith, nanos, trips).bits)
    };
    assert_eq!(latency(90000, 1000), 45.0);
    assert_eq!(latency(1, 1), 0.5);
    assert!(latency(0, 0).is_nan());
}

#[test]
fn latency_of_a_message() {
    let latency = |nanos: u64, overhead: u64, n: u32| {
        f64::from_bits(message_latency(&arith, nanos, overhead, n).bits)
    };
    assert_eq!(latency(5000, 1000, 100), 40.0);
    assert_eq!(latency(900, 1000, 100), 0.0);
}

#[test]
fn stamps_are_never_zero() {
    assert_eq!(stamp(150, 100), 50);
    assert_eq!(stamp(100, 100), 1);
    assert_eq!(stamp(90, 100), 1);
}

#[test]
fn lag_is_the_time_between() {
    assert_eq!(lag(180, 100, stamp(150, 100)), 30);
    assert_eq!(lag(150, 100, stamp(150, 100)), 0);
    // A clock that runs behind gives no time, not a negative one.
    assert_eq!(lag(140, 100, stamp(150, 100)), 0);
    assert_eq!(lag(90, 100, 5), 0);
}

#[test]
fn messages_found() {
    let slot = AtomicU64::new(0);
    assert_eq!(look(&slot, Ordering::Relaxed), None);
    slot.store(7, Ordering::Relaxed);
    assert_eq!(look(&slot, Ordering::Acquire), Some(7));
    // A message stays until the sender empties the slot.
    assert_eq!(look(&slot, Ordering::SeqCst), Some(7));
    assert_eq!(non_zero(0), None);
    assert_eq!(non_zero(u64::MAX), Some(u64::MAX));
}

#[test]
fn every_stamp_is_found() {
    let slot = AtomicU64::new(0);
    for now in [90, 100, 101, 5000] {
        slot.store(stamp(now, 100), Ordering::Relaxed);
        assert_eq!(look(&slot, Ordering::Relaxed), Some(stamp(now, 100)));
    }
}

fn tasks(role: Role, slots: usize, samples: u32) -> Vec<Task> {
    let mut script = Script::new(role, slots, samples);
    let mut all = vec![script.task()];
    while script.task() != Task::Stop {
        script.advance();
        all.push(script.task());
    }
    all
}

#[test]
fn receiver_takes_every_message() {
    let sample = [Task::Meet, Task::Take(0), Task::Take(1), Task::Meet, Task::Record];
    let mut expected = vec![Task::Meet];
    expected.extend(sample);
    expected.extend(sample);
    expected.push(Task::Stop);
    assert_eq!(tasks(Role::Receiver, 2, 2), expected);
    assert_eq!(tasks(Role::Receiver, 2, 0), vec![Task::Meet, Task::Stop]);
}

#[test]
fn sender_empties_every_slot() {
    let sample = [
        Task::Meet,
        Task::Send(0),
        Task::Send(1),
        Task::Meet,
        Task::Empty(0),
        Task::Empty(1),
    ];
    let mut expected = vec![Task::Meet];
    expected.extend(sample);
    expected.extend(sample);
    expected.push(Task::Stop);
    assert_eq!(tasks(Role::Sender, 2, 2), expected);
    assert_eq!(tasks(Role::Sender, 0, 1), vec![Task::Meet, Task::Meet, Task::Meet, Task::Stop]);
}

#[test]
fn messages_belong_to_their_sample() {
    for sender_first in [true, false] {
        let mut slots: Vec<Option<u32>> = vec![None; 3];
        let mut receiver = Script::new(Role::Receiver, 3, 4);
        let mut sender = Script::new(Role::Sender, 3, 4);
        let mut taken = 0;
        while receiver.task() != Task::Stop || sender.task() != Task::Stop {
            if receiver.task() == Task::Meet && sender.task() == Task::Meet {
                receiver.advance();
                sender.advance();
                continue;
            }
            let can_receive = match receiver.task() {
                Task::Take(i) => slots[i].is_some(),
                Task::Record => true,
                _ => false,
            };
            let can_send = matches!(sender.task(), Task::Send(_) | Task::Empty(_));
            assert!(can_receive || can_send);
            if can_send && (sender_first || !can_receive) {
                match sender.task() {
                    Task::Send(i) => {
                        assert_eq!(slots[i], None);
                        slots[i] = Some(sender.sample);
                    }
                    Task::Empty(i) => slots[i] = None,
                    _ => unreachable!(),
                }
                sender.advance();
            } else {
                if let Task::Take(i) = receiver.task() {
                    assert_eq!(slots[i], Some(receiver.sample));
                    taken += 1;
                }
                receiver.advance();
            }
        }
        assert_eq!(taken, 12);
        assert_eq!(slots, vec![None; 3]);
    }
}

fn acts(side: Side, num_round_trips: u32, num_samples: u32) -> Vec<Act> {
    let mut course = Course::new(side, num_round_trips, num_samples);
    let mut all = vec![course.act()];
    while course.act() != Act::Stop {
        course.advance();
        all.push(course.act());
    }
    all
}

#[test]
fn ping_times_every_sample() {
    let sample = [Act::Start, Act::Move(7), Act::Record];
    let mut expected = vec![Act::Meet];
    expected.extend(sample);
    expected.extend(sample);
    expected.push(Act::Stop);
    assert_eq!(acts(Side::Ping, 7, 2), expected);
    assert_eq!(acts(Side::Ping, 7, 0), vec![Act::Meet, Act::Stop]);
}

#[test]
fn sides_make_the_same_moves() {
    assert_eq!(acts(Side::Pong, 7, 2), vec![Act::Meet, Act::Move(14), Act::Stop]);
    for (trips, samples) in [(7, 2), (1, 5), (0, 3), (9, 0)] {
        let made = |side: Side| -> u32 {
            acts(side, trips, samples)
                .into_iter()
                .map(|act| match act {
                    Act::Move(n) => n,
                    _ => 0,
                })
                .sum()
        };
        assert_eq!(made(Side::Ping), trips * samples);
        assert_eq!(made(Side::Pong), trips * samples);
    }
}

#[test]
fn timer_keeps_a_latency_per_sample() {
    let mut timer = Timer::new(10, 3);
    let mut nanos = 0;
    while timer.act() != Act::Stop {
        if timer.act() == Act::Record {
            nanos += 100;
            timer.record(&arith, nanos);
        } else {
            timer.advance();
        }
    }
    let latencies: Vec<f64> =
        timer.into_latencies().into_iter().map(|x| f64::from_bits(x.bits)).collect();
    assert_eq!(latencies, vec![5.0, 10.0, 15.0]);
}

#[test]
fn receiver_records_a_latency_per_sample() {
    let mut receiver = Receiver::new(2, 3);
    let mut lag = 0;
    loop {
        match receiver.task() {
            Task::Meet => receiver.met(),
            Task::Take(_) => {
                lag += 10;
                assert!(receiver.has_room(u64::MAX - receiver.total));
                assert_eq!(receiver.has_room(u64::MAX), receiver.total == 0);
                receiver.take(lag);
            }
            Task::Record => receiver.record(&arith, receiver.total, 10, 2),
            _ => break,
        }
    }
    assert_eq!(receiver.total, 0);
    let latencies: Vec<f64> =
        receiver.into_latencies().into_iter().map(|x| f64::from_bits(x.bits)).collect();
    // Totals 10 + 20, 30 + 40, 50 + 60, without 10, by 2.
    assert_eq!(latencies, vec![10.0, 30.0, 50.0]);
}

#[test]
fn run_measures_every_address() {
    let bench = Bench::new(BenchKind::Cas, 3, &[]).unwrap();
    let mut run = bench.run(2);
    let mut addresses = Vec::new();
    while let Some(address) = run.address() {
        addresses.push(address);
        run.keep(vec![Double { bits: address as u64 }; 2]);
    }
    assert_eq!(addresses, vec![0, 1, 2]);
    let durations = run.into_durations();
    assert_eq!(durations.len(), 3);
    assert_eq!(durations[2], vec![Double { bits: 2 }; 2]);
    let one = Bench::new(BenchKind::MsgPassing, 3, &[]).unwrap();
    assert_eq!(one.run(2).num_addresses, 1);
}

#[test]
fn latencies_are_finite() {
    for nanos in [0, 1, 1000, u64::MAX] {
        for n in [1, 2, 1000, u32::MAX] {
            let a = f64::from_bits(one_way_latency(&arith, nanos, n).bits);
            let b = f64::from_bits(message_latency(&arith, nanos, 500, n).bits);
            assert!(a.is_finite() && a >= 0.0 && b.is_finite() && b >= 0.0);
        }
    }
}
