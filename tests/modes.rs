use amc::error::DiscoveryError;
use amc::output::{find_mode_info, Connection, ModeInfo, RandrOutputInfo, RootScreen};

fn output(modes: Vec<u32>, num_preferred: u16, mm_height: u32) -> RandrOutputInfo {
    RandrOutputInfo {
        xres: 70,
        name: String::from("DP-1"),
        connection: Connection::Connected,
        crtc: None,
        mm_width: 600,
        mm_height,
        modes,
        num_preferred,
    }
}

fn mode(id: u32, width: u16, height: u16) -> ModeInfo {
    ModeInfo { id, width, height }
}

const SCREEN: RootScreen = RootScreen { height_px: 1080, height_mm: 300 };

#[test]
fn preferred_mode_beats_a_closer_one() {
    // mode 2 matches the screen's density exactly, mode 1 is preferred
    let modes = vec![mode(1, 640, 480), mode(2, 1920, 1080)];
    let out = output(vec![1, 2], 1, 300);
    assert_eq!(out.get_best_mode(&SCREEN, &modes), Ok((1, 640, 480)));
}

#[test]
fn closest_density_wins_without_preference() {
    // screen: 1000*1080/300 = 3600; mode 1: 1000*480/300 = 1600; mode 2: 3600
    let modes = vec![mode(1, 640, 480), mode(2, 1920, 1080), mode(3, 3840, 2160)];
    let out = output(vec![1, 2, 3], 0, 300);
    assert_eq!(out.get_best_mode(&SCREEN, &modes), Ok((2, 1920, 1080)));
}

#[test]
fn height_difference_when_size_unknown() {
    // |1080 - 1200| = 120 beats |1080 - 720| = 360
    let modes = vec![mode(1, 1280, 720), mode(2, 1920, 1200)];
    let out = output(vec![1, 2], 0, 0);
    assert_eq!(out.get_best_mode(&SCREEN, &modes), Ok((2, 1920, 1200)));
}

#[test]
fn ties_keep_the_first_mode() {
    let modes = vec![mode(1, 1280, 1000), mode(2, 1920, 1160)];
    let out = output(vec![1, 2], 0, 0);
    assert_eq!(out.get_best_mode(&SCREEN, &modes), Ok((1, 1280, 1000)));
}

#[test]
fn undescribed_modes_are_skipped() {
    let modes = vec![mode(2, 800, 600)];
    let out = output(vec![9, 2], 2, 300);
    assert_eq!(out.get_best_mode(&SCREEN, &modes), Ok((2, 800, 600)));
}

#[test]
fn no_usable_mode_is_an_error() {
    let modes = vec![mode(2, 800, 600)];
    assert_eq!(output(vec![], 0, 300).get_best_mode(&SCREEN, &modes), Err(DiscoveryError::NoUsableMode));
    assert_eq!(output(vec![5, 6], 1, 300).get_best_mode(&SCREEN, &modes), Err(DiscoveryError::NoUsableMode));
}

#[test]
fn mode_lookup_finds_first_entry() {
    let modes = vec![mode(4, 1, 1), mode(7, 2, 2), mode(7, 3, 3)];
    assert_eq!(find_mode_info(&modes, 7), Some(1));
    assert_eq!(find_mode_info(&modes, 8), None);
}
