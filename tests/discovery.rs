use amc::discovery::{free_crtcs, EdidProperty, OutputProbe};
use amc::error::DiscoveryError;
use amc::identity::make_id_from_edid;
use amc::monitor::{Monitor, MonitorCrtcConfig, Rotation};
use amc::output::{Connection, ModeInfo, RandrOutputInfo, RootScreen};

const SCREEN: RootScreen = RootScreen { height_px: 1080, height_mm: 300 };

fn modes() -> Vec<ModeInfo> {
    vec![ModeInfo { id: 1, width: 1920, height: 1080 }, ModeInfo { id: 2, width: 2560, height: 1440 }]
}

fn info(xres: u32, connection: Connection, crtc: Option<u32>) -> RandrOutputInfo {
    RandrOutputInfo {
        xres,
        name: format!("OUT-{}", xres),
        connection,
        crtc,
        mm_width: 530,
        mm_height: 300,
        modes: vec![1],
        num_preferred: 1,
    }
}

fn probe(xres: u32, connection: Connection, crtc: Option<u32>, edid_byte: u8) -> OutputProbe {
    OutputProbe {
        info: info(xres, connection, crtc),
        edid: Some(EdidProperty { is_integer: true, format: 8, data: vec![edid_byte] }),
        crtc_state: crtc.map(|_| MonitorCrtcConfig { x: 10, y: 20, rot: Rotation::Rotate90 }),
    }
}

fn slots(mons: &[Monitor]) -> Vec<u32> {
    mons.iter().map(|m| m.crtc_slot).collect()
}

#[test]
fn dangling_crtcs_are_those_of_unplugged_outputs() {
    let outs = vec![
        info(1, Connection::Connected, Some(5)),
        info(2, Connection::Disconnected, Some(2)),
        info(3, Connection::Unknown, Some(7)),
        info(4, Connection::Disconnected, None),
    ];
    assert_eq!(RandrOutputInfo::dangling_crtcs(&outs), vec![2, 7]);
}

#[test]
fn free_pool_excludes_held_crtcs_in_order() {
    let probes = vec![probe(1, Connection::Connected, Some(3), 1), probe(2, Connection::Disconnected, Some(1), 2)];
    assert_eq!(free_crtcs(&vec![1, 2, 3, 4], &probes), vec![2, 4]);
}

#[test]
fn monitors_follow_output_order_and_skip_disconnected() {
    let probes = vec![
        probe(10, Connection::Connected, None, 1),
        probe(11, Connection::Disconnected, None, 2),
        probe(12, Connection::Connected, Some(3), 3),
    ];
    let mons = Monitor::get_all_connected(&SCREEN, &vec![1, 2, 3], &modes(), &probes).unwrap();
    assert_eq!(mons.len(), 2);
    assert_eq!(mons[0].output, 10);
    assert_eq!(mons[0].id, make_id_from_edid(&[1]));
    assert_eq!(mons[0].name, "OUT-10");
    assert_eq!(mons[0].crtc_config, None);
    assert_eq!((mons[0].mode_best, mons[0].w, mons[0].h), (1, 1920, 1080));
    assert_eq!((mons[0].w_mm, mons[0].h_mm), (530, 300));
    assert_eq!(mons[1].output, 12);
    assert_eq!(mons[1].crtc_config, Some(MonitorCrtcConfig { x: 10, y: 20, rot: Rotation::Rotate90 }));
    assert_eq!(slots(&mons), vec![1, 3]);
}

#[test]
fn new_outputs_take_distinct_free_crtcs() {
    let probes = vec![
        probe(10, Connection::Connected, None, 1),
        probe(11, Connection::Connected, Some(1), 2),
        probe(12, Connection::Connected, None, 3),
    ];
    let mons = Monitor::get_all_connected(&SCREEN, &vec![1, 2, 3], &modes(), &probes).unwrap();
    assert_eq!(slots(&mons), vec![2, 1, 3]);
}

#[test]
fn running_out_of_crtcs_is_an_error() {
    let probes = vec![
        probe(10, Connection::Connected, None, 1),
        probe(11, Connection::Connected, Some(1), 2),
        probe(12, Connection::Connected, None, 3),
    ];
    let r = Monitor::get_all_connected(&SCREEN, &vec![1, 2], &modes(), &probes);
    assert_eq!(r.err(), Some(DiscoveryError::NoFreeCrtc));
}

#[test]
fn exactly_enough_crtcs_is_no_error() {
    let probes = vec![probe(10, Connection::Connected, None, 1), probe(12, Connection::Connected, None, 3)];
    let r = Monitor::get_all_connected(&SCREEN, &vec![8, 9], &modes(), &probes);
    assert_eq!(slots(&r.unwrap()), vec![8, 9]);
}

#[test]
fn cleared_crtc_goes_to_a_newly_plugged_output() {
    // before clearing: the unplugged output still holds CRTC 2
    let before = vec![info(20, Connection::Disconnected, Some(2)), info(21, Connection::Connected, None)];
    assert_eq!(RandrOutputInfo::dangling_crtcs(&before), vec![2]);
    // read again after clearing: CRTC 2 is free and goes to the new output
    let probes = vec![probe(20, Connection::Disconnected, None, 1), probe(21, Connection::Connected, None, 2)];
    let mons = Monitor::get_all_connected(&SCREEN, &vec![2], &modes(), &probes).unwrap();
    assert_eq!(slots(&mons), vec![2]);
}

#[test]
fn first_failing_output_decides_the_error() {
    let mut bad = probe(10, Connection::Connected, None, 1);
    bad.edid = None;
    let probes = vec![probe(9, Connection::Disconnected, None, 0), bad, probe(12, Connection::Connected, None, 0)];
    let r = Monitor::get_all_connected(&SCREEN, &vec![], &modes(), &probes);
    assert_eq!(r.err(), Some(DiscoveryError::MissingEdid));
}

#[test]
fn reserved_identity_aborts_discovery() {
    let probes = vec![probe(10, Connection::Connected, Some(1), 0)];
    let r = Monitor::get_all_connected(&SCREEN, &vec![1], &modes(), &probes);
    assert_eq!(r.err(), Some(DiscoveryError::ReservedIdentity));
}

#[test]
fn output_without_usable_mode_aborts_discovery() {
    let mut p = probe(10, Connection::Connected, Some(1), 4);
    p.info.modes = vec![77];
    let r = Monitor::get_all_connected(&SCREEN, &vec![1], &modes(), &vec![p]);
    assert_eq!(r.err(), Some(DiscoveryError::NoUsableMode));
}
