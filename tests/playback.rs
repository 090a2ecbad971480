use gif_wallpaper::diff::{DirtyRegion, Frame};
use gif_wallpaper::playback::{
    assign_slots, Animation, DisplayRect, Emission, PlaybackStack, ScheduleError, Scheduler, ScreenSlot, StackError,
};
use gif_wallpaper::Rect;

fn frame(delay: u32, regions: usize) -> Frame {
    let mut out = Vec::new();
    for i in 0..regions {
        out.push(DirtyRegion { rect: Rect { x: i as u32, y: 0, width: 1, height: 1 }, pitch: 4, pixels: vec![0, 0, 0, 255] });
    }
    Frame { delay, regions: out }
}

fn animation(delays: &[u32]) -> Animation {
    Animation { width: 2, height: 2, frames: delays.iter().map(|d| frame(*d, 1)).collect() }
}

fn display(i: i32) -> DisplayRect {
    DisplayRect { x: 100 * i, y: 0, width: 100, height: 50 }
}

fn displays(n: i32) -> Vec<DisplayRect> {
    (0..n).map(display).collect()
}

#[test]
fn scenario_c_combined_cycle() {
    let mut s = Scheduler::new(vec![animation(&[15, 15]), animation(&[25, 25])], &displays(2)).unwrap();
    assert_eq!(s.max_tick, 80);
    assert_eq!((s.stacks[0].index, s.stacks[1].index), (0, 0));
    for _ in 0..80 {
        s.tick();
    }
    assert_eq!(s.tick, 0);
    assert_eq!((s.stacks[0].index, s.stacks[1].index), (0, 0));
}

#[test]
fn max_tick_is_the_sum_of_all_delays() {
    let s = Scheduler::new(vec![animation(&[10, 20]), animation(&[50])], &displays(2)).unwrap();
    assert_eq!(s.max_tick, 80);
    assert_eq!(s.stacks[0].total_time(), 30);
    assert_eq!(s.stacks[1].total_time(), 50);
}

#[test]
fn scenario_d_zero_delay_is_rejected() {
    let r = Scheduler::new(vec![animation(&[5, 5]), animation(&[3, 0, 4])], &displays(2));
    assert!(matches!(r, Err(ScheduleError::ZeroDelay { animation: 1, frame: 1 })));
}

#[test]
fn first_problem_is_reported() {
    let r = Scheduler::new(vec![animation(&[5]), animation(&[]), animation(&[0])], &displays(1));
    assert!(matches!(r, Err(ScheduleError::EmptyAnimation { animation: 1 })));
    let r = Scheduler::new(Vec::new(), &displays(1));
    assert!(matches!(r, Err(ScheduleError::NoAnimations)));
    let r = Scheduler::new(vec![animation(&[u32::MAX]), animation(&[1])], &displays(1));
    assert!(matches!(r, Err(ScheduleError::TooLong)));
}

#[test]
fn scenario_e_slot_assignment() {
    for (n, m) in [(3usize, 2usize), (2, 3), (4, 1), (5, 5), (1, 4), (0, 2)] {
        let slots = assign_slots(&displays(n as i32), m);
        assert_eq!(slots.len(), n);
        for (i, slot) in slots.iter().enumerate() {
            assert_eq!(*slot, ScreenSlot { rect: display(i as i32), animation: i % m });
        }
    }
    let slots = assign_slots(&displays(3), 2);
    assert_eq!(slots[2].animation, 0);
}

#[test]
fn scheduler_pairs_displays_with_animations() {
    let s = Scheduler::new(vec![animation(&[1]), animation(&[2])], &displays(3)).unwrap();
    let assigned: Vec<usize> = s.slots.iter().map(|slot| slot.animation).collect();
    assert_eq!(assigned, vec![0, 1, 0]);
    assert_eq!(s.slots[2].rect, display(2));
}

#[test]
fn tick_fires_on_multiples_of_the_current_delay() {
    let anim = Animation { width: 2, height: 2, frames: vec![frame(2, 1), frame(3, 0)] };
    let mut s = Scheduler::new(vec![anim], &displays(1)).unwrap();
    assert_eq!(s.max_tick, 5);
    // tick 0: 0 % 2 == 0, fires frame 0
    assert_eq!(s.tick(), vec![Emission { slot: 0, animation: 0, frame: 0, changed: true }]);
    // tick 1: delay 3, 1 % 3 != 0
    assert!(s.tick().is_empty());
    // tick 2: 2 % 3 != 0
    assert!(s.tick().is_empty());
    // tick 3: fires frame 1, which has no region
    assert_eq!(s.tick(), vec![Emission { slot: 0, animation: 0, frame: 1, changed: false }]);
    // tick 4: back on frame 0, 4 % 2 == 0
    assert_eq!(s.tick(), vec![Emission { slot: 0, animation: 0, frame: 0, changed: true }]);
    assert_eq!(s.tick, 0);
}

#[test]
fn shared_stack_moves_once_per_firing_slot() {
    let mut s = Scheduler::new(vec![animation(&[1, 1, 1])], &displays(2)).unwrap();
    let e = s.tick();
    assert_eq!(
        e,
        vec![
            Emission { slot: 0, animation: 0, frame: 0, changed: true },
            Emission { slot: 1, animation: 0, frame: 1, changed: true },
        ]
    );
    assert_eq!(s.stacks[0].index, 2);
}

#[test]
fn stack_rotates_and_peeks() {
    let mut st = PlaybackStack::new(animation(&[4, 6, 8])).unwrap();
    assert_eq!(st.count, 3);
    assert_eq!(st.index, 0);
    assert_eq!(st.peek().delay, 4);
    assert_eq!(st.next().delay, 4);
    assert_eq!(st.index, 1);
    assert_eq!(st.peek().delay, 6);
    assert_eq!(st.next().delay, 6);
    assert_eq!(st.next().delay, 8);
    assert_eq!(st.index, 0);
    assert_eq!(st.total_time(), 18);
}

#[test]
fn stack_rejects_unplayable_frames() {
    assert!(matches!(PlaybackStack::new(animation(&[])), Err(StackError::Empty)));
    assert!(matches!(PlaybackStack::new(animation(&[1, 0, 0])), Err(StackError::ZeroDelay { frame: 1 })));
    assert!(matches!(PlaybackStack::new(animation(&[u32::MAX, 1])), Err(StackError::TooLong)));
    assert!(PlaybackStack::new(animation(&[u32::MAX])).is_ok());
}

#[test]
fn cycle_need_not_realign_play_heads() {
    let mut s = Scheduler::new(vec![animation(&[10, 20]), animation(&[50])], &displays(2)).unwrap();
    for _ in 0..80 {
        s.tick();
    }
    assert_eq!(s.tick, 0);
    assert_eq!((s.stacks[0].index, s.stacks[1].index), (1, 0));
}
