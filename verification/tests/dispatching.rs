//! The dispatcher: its plan of launches, its state machine, and its runs
//! against a synthetic device.

use mandelbrot::dispatch::{
    simulate, BindOutcome, DispatchState, Dispatcher, Launch, SyntheticDevice,
};
use mandelbrot::grid::coordinate;
use mandelbrot::kernel::{mandelbro_impl, mandelbrot};
use mandelbrot::params::{max_concurrent_work_items, ConfigError, RunParameters};
use mandelbrot::raster::naive;

fn ceil_div(a: usize, b: usize) -> usize {
    (a + b - 1) / b
}

#[test]
fn index_mapping_round_trips() {
    for (h, w) in [(1u32, 1u32), (3, 5), (5, 3), (7, 7), (2, 64)] {
        for idx in 0..h * w {
            let (row, col) = coordinate(idx, w);
            assert_eq!((row, col), (idx / w, idx % w));
            assert!(row < h && col < w);
            assert_eq!(row * w + col, idx);
        }
        for row in 0..h {
            for col in 0..w {
                assert_eq!(coordinate(row * w + col, w), (row, col));
            }
        }
    }
    assert_eq!(coordinate(23, 7), (3, 2));
}

#[test]
fn kernel_finds_its_pixel_from_offset_and_item() {
    let (h, w, max) = (6u32, 9u32, 40u32);
    for offset in [0u32, 4, 9, 17, 50] {
        for item in 0..4u32 {
            let mut y = 0xaau8;
            mandelbrot(&mut y, offset, item, h, w, max);
            let idx = offset + item;
            assert_eq!(y, mandelbro_impl(idx / w, idx % w, h, w, max));
        }
    }
}

#[test]
fn chunk_is_the_lesser_of_capacity_and_total() {
    let plan = Dispatcher::new(10, 4);
    assert_eq!(plan.pending(plan.start()), Some(Launch { offset: 0, end: 4 }));
    let plan = Dispatcher::new(10, 10);
    assert_eq!(plan.pending(plan.start()), Some(Launch { offset: 0, end: 10 }));
    let plan = Dispatcher::new(10, 1000);
    assert_eq!(plan.pending(plan.start()), Some(Launch { offset: 0, end: 10 }));
    let plan = Dispatcher::new(1, 1);
    assert_eq!(plan.pending(plan.start()), Some(Launch { offset: 0, end: 1 }));
}

#[test]
fn state_machine_walks_the_launches() {
    let plan = Dispatcher::new(10, 4);
    let s0 = plan.start();
    assert_eq!(s0, DispatchState::Dispatching { offset: 0 });
    let s1 = plan.step(s0, BindOutcome::Bound);
    assert_eq!(s1, DispatchState::Dispatching { offset: 4 });
    assert_eq!(plan.pending(s1), Some(Launch { offset: 4, end: 8 }));
    let s2 = plan.step(s1, BindOutcome::Bound);
    assert_eq!(s2, DispatchState::Dispatching { offset: 8 });
    // the last launch is shorter
    assert_eq!(plan.pending(s2), Some(Launch { offset: 8, end: 10 }));
    let s3 = plan.step(s2, BindOutcome::Bound);
    assert_eq!(s3, DispatchState::Completed);
    assert_eq!(plan.pending(s3), None);
    assert_eq!(plan.step(s3, BindOutcome::Bound), DispatchState::Completed);
    assert_eq!(plan.step(s3, BindOutcome::Refused), DispatchState::Completed);
}

#[test]
fn state_machine_stops_at_a_refusal() {
    let plan = Dispatcher::new(10, 4);
    let s1 = plan.step(plan.start(), BindOutcome::Bound);
    let s2 = plan.step(s1, BindOutcome::Refused);
    assert_eq!(s2, DispatchState::AbandonedShort { offset: 4 });
    assert_eq!(plan.pending(s2), None);
    assert_eq!(plan.step(s2, BindOutcome::Bound), s2);
    assert_eq!(plan.step(s2, BindOutcome::Refused), s2);
    let refused_at_once = plan.step(plan.start(), BindOutcome::Refused);
    assert_eq!(refused_at_once, DispatchState::AbandonedShort { offset: 0 });
}

#[test]
fn state_machine_with_an_exact_division() {
    let plan = Dispatcher::new(12, 4);
    let mut state = plan.start();
    let mut seen = Vec::new();
    while let Some(launch) = plan.pending(state) {
        seen.push(launch);
        state = plan.step(state, BindOutcome::Bound);
    }
    assert_eq!(
        seen,
        vec![
            Launch { offset: 0, end: 4 },
            Launch { offset: 4, end: 8 },
            Launch { offset: 8, end: 12 }
        ]
    );
    assert_eq!(state, DispatchState::Completed);
}

#[test]
fn chunks_cover_every_work_item_once() {
    let (h, w, max) = (5u32, 7u32, 10u32);
    let total = (h * w) as usize;
    let expected = naive(h, w, max);
    for k in 1..total + 5 {
        let device = SyntheticDevice { max_concurrent_work_items: k, bind_limit: usize::MAX };
        let run = simulate(&device, h, w, max);
        let chunk = k.min(total);
        assert_eq!(run.launches.len(), ceil_div(total, chunk), "capacity {k}");
        let mut covered = vec![0u32; total];
        let mut next = 0usize;
        for launch in &run.launches {
            // in the order of the offsets, each beginning where the last ended
            assert_eq!(launch.offset, next);
            assert!(launch.offset < launch.end && launch.end <= total);
            assert!(launch.end - launch.offset <= chunk);
            for i in launch.offset..launch.end {
                covered[i] += 1;
            }
            next = launch.end;
        }
        assert_eq!(next, total);
        assert!(covered.iter().all(|&n| n == 1));
        assert_eq!(run.output, expected, "capacity {k}");
        assert_eq!(run.state, DispatchState::Completed);
    }
}

#[test]
fn three_chunks_of_four_and_one_of_two() {
    let device = SyntheticDevice { max_concurrent_work_items: 4, bind_limit: 100 };
    let run = simulate(&device, 2, 7, 10);
    assert_eq!(
        run.launches,
        vec![
            Launch { offset: 0, end: 4 },
            Launch { offset: 4, end: 8 },
            Launch { offset: 8, end: 12 },
            Launch { offset: 12, end: 14 }
        ]
    );
    assert_eq!(run.output, naive(2, 7, 10));
}

#[test]
fn refusal_leaves_the_tail_at_zero() {
    let (h, w, max) = (6u32, 8u32, 10u32);
    let total = (h * w) as usize;
    let expected = naive(h, w, max);
    // the image has pixels other than zero towards its end
    assert!(expected[40..].iter().any(|&g| g != 0));
    for k in [1usize, 2, 3, 4, 6, 8, 12, 16, 24] {
        let mut offset_fail = 0;
        while offset_fail < total {
            let device = SyntheticDevice { max_concurrent_work_items: k, bind_limit: offset_fail };
            let run = simulate(&device, h, w, max);
            assert_eq!(run.output.len(), total);
            assert_eq!(&run.output[..offset_fail], &expected[..offset_fail]);
            assert!(run.output[offset_fail..].iter().all(|&g| g == 0));
            assert_eq!(run.launches.len(), offset_fail / k);
            assert_eq!(run.state, DispatchState::AbandonedShort { offset: offset_fail });
            offset_fail += k;
        }
    }
}

#[test]
fn refusal_inside_a_launch_takes_effect_at_the_next_launch() {
    let (h, w, max) = (10u32, 2u32, 10u32);
    let expected = naive(h, w, max);
    // launches begin at 0, 8 and 16; the one at 8 begins below the limit 9
    let device = SyntheticDevice { max_concurrent_work_items: 8, bind_limit: 9 };
    let run = simulate(&device, h, w, max);
    assert_eq!(run.launches, vec![Launch { offset: 0, end: 8 }, Launch { offset: 8, end: 16 }]);
    assert_eq!(&run.output[..16], &expected[..16]);
    assert_eq!(&run.output[16..], &[0u8, 0, 0, 0]);
    assert_ne!(&expected[16..], &[0u8, 0, 0, 0]);
    assert_eq!(run.state, DispatchState::AbandonedShort { offset: 16 });
    // a limit inside the last launch refuses nothing
    let device = SyntheticDevice { max_concurrent_work_items: 8, bind_limit: 17 };
    let run = simulate(&device, h, w, max);
    assert_eq!(run.output, expected);
    assert_eq!(run.state, DispatchState::Completed);
}

#[test]
fn device_that_binds_nothing_leaves_all_zeros() {
    let device = SyntheticDevice { max_concurrent_work_items: 3, bind_limit: 0 };
    let run = simulate(&device, 3, 4, 10);
    assert_eq!(run.output, vec![0u8; 12]);
    assert!(run.launches.is_empty());
    assert_eq!(run.state, DispatchState::AbandonedShort { offset: 0 });
}

#[test]
fn one_launch_where_the_device_takes_everything() {
    let device = SyntheticDevice { max_concurrent_work_items: 1 << 20, bind_limit: 1 };
    let run = simulate(&device, 4, 4, 10);
    assert_eq!(run.launches, vec![Launch { offset: 0, end: 16 }]);
    assert_eq!(run.output, naive(4, 4, 10));
    assert_eq!(run.state, DispatchState::Completed);
}

#[test]
fn parameters_with_a_zero_are_turned_down() {
    assert_eq!(RunParameters::new(0, 5, 5), Err(ConfigError::ZeroHeight));
    assert_eq!(RunParameters::new(0, 0, 0), Err(ConfigError::ZeroHeight));
    assert_eq!(RunParameters::new(5, 0, 5), Err(ConfigError::ZeroWidth));
    assert_eq!(RunParameters::new(5, 0, 0), Err(ConfigError::ZeroWidth));
    assert_eq!(RunParameters::new(5, 5, 0), Err(ConfigError::ZeroIterations));
}

#[test]
fn parameters_keep_what_they_were_given() {
    let p = RunParameters::new(8_000, 14_000, 1000).unwrap();
    assert_eq!(p.height(), 8_000);
    assert_eq!(p.width(), 14_000);
    assert_eq!(p.max_iterations(), 1000);
    assert_eq!(p.work_items(), Some(112_000_000));
    let p = RunParameters::new(1, 1, 1).unwrap();
    assert_eq!(p.work_items(), Some(1));
}

#[test]
fn work_items_beyond_32_bits_are_not_for_a_device() {
    let p = RunParameters::new(65_536, 65_536, 1).unwrap();
    assert_eq!(p.work_items(), None);
    let p = RunParameters::new(65_535, 65_537, 1).unwrap();
    assert_eq!(p.work_items(), Some(4_294_967_295));
    let p = RunParameters::new(u32::MAX, u32::MAX, 1).unwrap();
    assert_eq!(p.work_items(), None);
}

#[test]
fn capacity_is_groups_times_threads() {
    assert_eq!(max_concurrent_work_items(65_535, 256), 16_776_960);
    assert_eq!(max_concurrent_work_items(0, 256), 0);
    assert_eq!(max_concurrent_work_items(1, 1), 1);
    let all = max_concurrent_work_items(u32::MAX, u32::MAX);
    assert_eq!(all as u128, (u32::MAX as u128 * u32::MAX as u128).min(usize::MAX as u128));
}
