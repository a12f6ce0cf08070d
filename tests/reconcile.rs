use amc::monitor::{CrtcWrite, Monitor, MonitorConfig, MonitorCrtcConfig, Rotation};
use amc::setup::{apply_best_setup_for_mons, MonitorSetup, ScreenSize, SetupPlan};

fn monitor(id: u32, output: u32, crtc: u32, w: u16, h: u16) -> Monitor {
    Monitor {
        id,
        name: format!("OUT-{}", output),
        crtc_config: None,
        output,
        mode_best: 100 + output,
        crtc_slot: crtc,
        w,
        h,
        w_mm: w as u32 / 4,
        h_mm: h as u32 / 4,
    }
}

fn conf(id: u32, x: i16, y: i16, rot: Rotation) -> MonitorConfig {
    MonitorConfig { id, x, y, rot }
}

/// The snapshot the next pass reads once the plan's writes are made.
fn after(mons: &[Monitor], plan: &SetupPlan) -> Vec<Monitor> {
    mons.iter()
        .map(|m| {
            let mut m = m.clone();
            if let Some(w) = plan.writes.iter().rev().find(|w| w.output == m.output) {
                m.crtc_config = Some(MonitorCrtcConfig { x: w.x, y: w.y, rot: w.rot });
            }
            m
        })
        .collect()
}

fn two_monitors() -> Vec<Monitor> {
    vec![monitor(0xAABB, 1, 11, 1920, 1080), monitor(0xCCDD, 2, 12, 2560, 1440)]
}

#[test]
fn no_setup_mirrors_every_monitor() {
    let mons = two_monitors();
    let plan = apply_best_setup_for_mons(&mons, &vec![]);
    assert_eq!(
        plan.writes,
        vec![
            CrtcWrite { crtc: 11, x: 0, y: 0, mode: 101, rot: Rotation::Rotate0, output: 1 },
            CrtcWrite { crtc: 12, x: 0, y: 0, mode: 102, rot: Rotation::Rotate0, output: 2 },
        ]
    );
    assert_eq!(plan.screen_size, Some(ScreenSize { width: 2560, height: 1440, mm_width: 640, mm_height: 360 }));
}

#[test]
fn fallback_takes_largest_width_and_height_separately() {
    let mons = vec![monitor(1, 1, 11, 1000, 2000), monitor(2, 2, 12, 3000, 500)];
    let unmatched = MonitorSetup { configs: vec![conf(3, 0, 0, Rotation::Rotate0)] };
    let plan = apply_best_setup_for_mons(&mons, &vec![unmatched]);
    assert!(plan.writes.iter().all(|w| w.x == 0 && w.y == 0 && w.rot == Rotation::Rotate0));
    assert_eq!(plan.writes.len(), 2);
    assert_eq!(plan.screen_size, Some(ScreenSize { width: 3000, height: 2000, mm_width: 750, mm_height: 500 }));
}

#[test]
fn rotated_monitor_swaps_its_footprint() {
    let mons = two_monitors();
    let setup = MonitorSetup {
        configs: vec![conf(0xAABB, 0, 0, Rotation::Rotate0), conf(0xCCDD, 1920, 0, Rotation::Rotate90)],
    };
    let plan = apply_best_setup_for_mons(&mons, &vec![setup]);
    assert_eq!(plan.writes.len(), 2);
    assert_eq!(plan.writes[1], CrtcWrite { crtc: 12, x: 1920, y: 0, mode: 102, rot: Rotation::Rotate90, output: 2 });
    let size = plan.screen_size.unwrap();
    assert_eq!((size.width, size.height), (3360, 2560));
    // physical sizes add up under a setup
    assert_eq!((size.mm_width, size.mm_height), (480 + 640, 270 + 360));
}

#[test]
fn second_pass_writes_nothing() {
    let mons = two_monitors();
    let setups = vec![MonitorSetup {
        configs: vec![conf(0xAABB, 0, 0, Rotation::Rotate0), conf(0xCCDD, 1920, 0, Rotation::Rotate270)],
    }];
    let first = apply_best_setup_for_mons(&mons, &setups);
    assert_eq!(first.writes.len(), 2);
    let second = apply_best_setup_for_mons(&after(&mons, &first), &setups);
    assert!(second.writes.is_empty());
    assert_eq!(second.screen_size, None);
}

#[test]
fn second_mirrored_pass_writes_nothing() {
    let mons = two_monitors();
    let first = apply_best_setup_for_mons(&mons, &vec![]);
    let second = apply_best_setup_for_mons(&after(&mons, &first), &vec![]);
    assert!(second.writes.is_empty());
    assert_eq!(second.screen_size, None);
}

#[test]
fn setup_naming_a_subset_of_monitors_matches() {
    let mut mons = two_monitors();
    mons.push(monitor(0xEEFF, 3, 13, 800, 600));
    let setups = vec![
        MonitorSetup { configs: vec![conf(0xAABB, 0, 0, Rotation::Rotate0), conf(0x1234, 0, 0, Rotation::Rotate0)] },
        MonitorSetup { configs: vec![conf(0xCCDD, 5, 6, Rotation::Rotate180)] },
        MonitorSetup { configs: vec![conf(0xAABB, 7, 7, Rotation::Rotate0)] },
    ];
    let plan = apply_best_setup_for_mons(&mons, &setups);
    assert_eq!(plan.writes, vec![CrtcWrite { crtc: 12, x: 5, y: 6, mode: 102, rot: Rotation::Rotate180, output: 2 }]);
    assert_eq!(plan.screen_size, Some(ScreenSize { width: 2565, height: 1446, mm_width: 640, mm_height: 360 }));
}

#[test]
fn empty_setup_never_matches() {
    let mons = two_monitors();
    let plan = apply_best_setup_for_mons(&mons, &vec![MonitorSetup { configs: vec![] }]);
    assert_eq!(plan.writes.len(), 2);
    assert!(plan.writes.iter().all(|w| w.x == 0 && w.y == 0));
}

#[test]
fn unchanged_monitor_is_not_written_but_counts_in_the_size() {
    let mut mons = two_monitors();
    mons[0].crtc_config = Some(MonitorCrtcConfig { x: 0, y: 0, rot: Rotation::Rotate0 });
    let plan = apply_best_setup_for_mons(&mons, &vec![]);
    assert_eq!(plan.writes.len(), 1);
    assert_eq!(plan.writes[0].output, 2);
    assert_eq!(plan.screen_size.unwrap().width, 2560);
}

#[test]
fn apply_config_is_a_no_op_when_in_place() {
    let mut m = monitor(1, 1, 11, 1920, 1080);
    m.crtc_config = Some(MonitorCrtcConfig { x: 5, y: 6, rot: Rotation::Rotate90 });
    assert_eq!(m.apply_config(&conf(1, 5, 6, Rotation::Rotate90)), None);
    assert_eq!(
        m.apply_config(&conf(1, 5, 6, Rotation::Rotate180)),
        Some(CrtcWrite { crtc: 11, x: 5, y: 6, mode: 101, rot: Rotation::Rotate180, output: 1 })
    );
}

#[test]
fn unconfigured_monitor_is_always_written() {
    let m = monitor(1, 1, 11, 1920, 1080);
    assert_eq!(
        m.apply_config(&conf(1, 0, 0, Rotation::Rotate0)),
        Some(CrtcWrite { crtc: 11, x: 0, y: 0, mode: 101, rot: Rotation::Rotate0, output: 1 })
    );
}

#[test]
fn screen_size_saturates_at_protocol_limits() {
    let mut mons = vec![monitor(1, 1, 11, 60000, 60000)];
    mons[0].w_mm = u32::MAX;
    mons[0].h_mm = 1;
    let setup = MonitorSetup { configs: vec![conf(1, 30000, 0, Rotation::Rotate0), conf(1, 30000, 0, Rotation::Rotate0)] };
    let plan = apply_best_setup_for_mons(&mons, &vec![setup]);
    assert_eq!(plan.screen_size, Some(ScreenSize { width: 65535, height: 60000, mm_width: u32::MAX, mm_height: 2 }));
}
