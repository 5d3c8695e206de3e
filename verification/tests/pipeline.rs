use tracear_core::pipeline::{DetectSchedule, DetectScheduler, MarkerStatus, LOST_AGE_COLD};
use tracear_core::tracker::TrackMode;

fn scheduler(n: usize) -> DetectScheduler {
    let mut s = DetectScheduler::new();
    for i in 0..n {
        assert_eq!(s.add_marker(), i);
    }
    s
}

#[test]
fn default_schedule_values() {
    let d = DetectSchedule::default();
    assert_eq!(d.max_per_frame, 2);
    assert_eq!(d.priority_frames, 30);
    assert_eq!(d.cold_scan_interval, 10);
    assert_eq!(d.max_tracked, usize::MAX);
    assert_eq!(LOST_AGE_COLD, u32::MAX);
}

#[test]
fn idle_budget_is_capped_and_rotation_covers_all_markers() {
    let sched = DetectSchedule::default();
    let mut s = scheduler(10);
    let kept = vec![false; 10];
    let mut seen: Vec<usize> = Vec::new();
    for f in 0..5 {
        let a = s.plan(&sched, &kept);
        assert_eq!(a.len(), 2, "frame {f}");
        seen.extend(a);
    }
    assert_eq!(seen, (0..10).collect::<Vec<_>>());
    // the sixth frame starts the rotation over
    assert_eq!(s.plan(&sched, &kept), vec![0, 1]);
}

#[test]
fn cold_scans_back_off_while_one_marker_is_followed() {
    let sched = DetectSchedule::default();
    let mut s = scheduler(10);
    let mut kept = vec![false; 10];
    // frame 0: idle, so it scans; marker 0 is then acquired
    assert_eq!(s.plan(&sched, &kept), vec![0, 1]);
    s.mark_detected(0);
    kept[0] = true;
    let mut scan_frames = 0;
    for _ in 1..=20 {
        let a = s.plan(&sched, &kept);
        assert!(!a.contains(&0));
        if !a.is_empty() {
            scan_frames += 1;
            assert_eq!(a.len(), 2);
        }
    }
    // cadence 10: frames 10 and 20 scan
    assert_eq!(scan_frames, 2);
}

#[test]
fn recently_lost_marker_gets_priority_every_frame() {
    let sched = DetectSchedule::default();
    let mut s = scheduler(10);
    let mut kept = vec![false; 10];
    s.plan(&sched, &kept);
    s.mark_detected(3);
    kept[3] = true;
    for _ in 0..3 {
        s.plan(&sched, &kept);
    }
    kept[3] = false;
    for f in 0..5 {
        let a = s.plan(&sched, &kept);
        assert!(a.contains(&3), "frame {f} after loss: {a:?}");
        assert_eq!(a[0], 3);
        assert!(a.len() <= 2);
    }
}

#[test]
fn priority_window_expires() {
    let sched = DetectSchedule { max_per_frame: 1, priority_frames: 2, cold_scan_interval: 10, max_tracked: 8 };
    let mut s = scheduler(3);
    s.mark_detected(2);
    let kept = vec![false; 3];
    // ages of marker 2 after each frame: 1, 2 (priority), 3 (cold)
    assert_eq!(s.plan(&sched, &kept), vec![2]);
    assert_eq!(s.plan(&sched, &kept), vec![2]);
    assert_eq!(s.plan(&sched, &kept), vec![0]);
}

#[test]
fn full_slots_stop_detection() {
    let sched = DetectSchedule { max_per_frame: 2, priority_frames: 30, cold_scan_interval: 10, max_tracked: 1 };
    let mut s = scheduler(2);
    // nothing followed: one free slot, so one attempt
    assert_eq!(s.plan(&sched, &[false, false]), vec![0]);
    s.mark_detected(0);
    for _ in 0..10 {
        assert!(s.plan(&sched, &[true, false]).is_empty());
    }
    // the followed marker is lost: the slot is free again
    let a = s.plan(&sched, &[false, false]);
    assert_eq!(a.len(), 1);
}

#[test]
fn small_sessions_scan_every_frame() {
    let sched = DetectSchedule::default();
    let mut s = scheduler(3);
    s.mark_detected(0);
    // two lost markers fit the budget of two: every frame scans both
    for _ in 0..5 {
        let mut a = s.plan(&sched, &[true, false, false]);
        a.sort();
        assert_eq!(a, vec![1, 2]);
    }
}

#[test]
fn zero_interval_acts_as_one() {
    let sched = DetectSchedule { max_per_frame: 1, priority_frames: 0, cold_scan_interval: 0, max_tracked: 10 };
    let mut s = scheduler(4);
    s.mark_detected(0);
    for _ in 0..3 {
        assert_eq!(s.plan(&sched, &[true, false, false, false]).len(), 1);
    }
}

#[test]
fn reset_makes_every_marker_cold_again() {
    let sched = DetectSchedule::default();
    let mut s = scheduler(4);
    s.plan(&sched, &[false; 4]);
    s.mark_detected(3);
    s.reset();
    assert_eq!(s.marker_count(), 4);
    // rotation restarts at 0 and marker 3 has no priority left
    assert_eq!(s.plan(&sched, &[false; 4]), vec![0, 1]);
}

#[test]
fn marker_status_values() {
    assert_ne!(MarkerStatus::NotFound, MarkerStatus::Detected);
    assert_ne!(MarkerStatus::Detected, MarkerStatus::Tracking);
}

#[test]
fn recovery_is_tried_once() {
    assert_eq!(TrackMode::Normal.fallback(), Some(TrackMode::Recovery));
    assert_eq!(TrackMode::Recovery.fallback(), None);
}

#[test]
fn reset_scheduler_runs_like_a_new_one() {
    let sched = DetectSchedule { max_per_frame: 2, priority_frames: 3, cold_scan_interval: 2, max_tracked: usize::MAX };
    let mut a = scheduler(5);
    for _ in 0..4 {
        let p = a.plan(&sched, &[true, false, false, true, false]);
        for i in p {
            a.mark_detected(i);
        }
    }
    a.reset();
    let mut b = scheduler(5);
    let frames = [
        [false, false, false, false, false],
        [true, false, false, false, false],
        [true, false, true, false, false],
        [false, false, true, false, false],
        [false, false, false, false, false],
    ];
    for (k, kept) in frames.iter().enumerate() {
        let pa = a.plan(&sched, kept);
        let pb = b.plan(&sched, kept);
        assert_eq!(pa, pb, "frame {k}");
        if let Some(&i) = pa.first() {
            a.mark_detected(i);
            b.mark_detected(i);
        }
    }
}

#[test]
fn exclusive_session_stays_within_the_cap() {
    let sched = DetectSchedule { max_per_frame: 3, priority_frames: 30, cold_scan_interval: 1, max_tracked: 1 };
    let mut s = scheduler(4);
    // nothing followed: one free slot, so one attempt
    let p = s.plan(&sched, &[false; 4]);
    assert_eq!(p, vec![0]);
    s.mark_detected(0);
    // marker 0 followed: the slot is full, nothing is attempted
    assert!(s.plan(&sched, &[true, false, false, false]).is_empty());
    // marker 0 lost: it comes first again, within the single slot
    assert_eq!(s.plan(&sched, &[false; 4]), vec![0]);
}
