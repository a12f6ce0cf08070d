use amc::config::{parse_setup_from_conf_str, ConfigError, ConfigErrorKind};
use amc::monitor::{MonitorConfig, Rotation};

fn err(line: usize, kind: ConfigErrorKind) -> Result<Vec<MonitorConfig>, ConfigError> {
    Err(ConfigError { line, kind })
}

fn parse(text: &str) -> Result<Vec<MonitorConfig>, ConfigError> {
    parse_setup_from_conf_str(text).map(|s| s.configs)
}

#[test]
fn reads_one_line_per_monitor() {
    let text = "# desk\naabb = 0x0, 0\n\n  CCDD = 1920 x 0 , 90\r\n";
    assert_eq!(
        parse(text),
        Ok(vec![
            MonitorConfig { id: 0xAABB, x: 0, y: 0, rot: Rotation::Rotate0 },
            MonitorConfig { id: 0xCCDD, x: 1920, y: 0, rot: Rotation::Rotate90 },
        ])
    );
}

#[test]
fn empty_text_declares_nothing() {
    assert_eq!(parse(""), Ok(vec![]));
    assert_eq!(parse("\n\n# only a comment\n"), Ok(vec![]));
}

#[test]
fn all_rotations_and_plus_signs() {
    assert_eq!(
        parse("+1=+2x+3,+180\n2=0x0,270"),
        Ok(vec![
            MonitorConfig { id: 1, x: 2, y: 3, rot: Rotation::Rotate180 },
            MonitorConfig { id: 2, x: 0, y: 0, rot: Rotation::Rotate270 },
        ])
    );
}

#[test]
fn large_coordinates_wrap_to_signed() {
    assert_eq!(parse("1=65535x32768,0"), Ok(vec![MonitorConfig { id: 1, x: -1, y: -32768, rot: Rotation::Rotate0 }]));
}

#[test]
fn line_without_equals_is_invalid() {
    assert_eq!(parse("\naabb 0x0,0"), err(1, ConfigErrorKind::InvalidConfig));
    assert_eq!(parse("=0x0,0"), err(0, ConfigErrorKind::InvalidConfig));
    assert_eq!(parse("aabb="), err(0, ConfigErrorKind::InvalidConfig));
}

#[test]
fn bad_identity_is_reported() {
    assert_eq!(parse("0xaabb=0x0,0"), err(0, ConfigErrorKind::InvalidMonitorId));
    assert_eq!(parse("1ffffffff=0x0,0"), err(0, ConfigErrorKind::InvalidMonitorId));
    assert_eq!(parse("-1=0x0,0"), err(0, ConfigErrorKind::InvalidMonitorId));
}

#[test]
fn missing_comma_is_invalid() {
    assert_eq!(parse("1=0x0"), err(0, ConfigErrorKind::InvalidConfig));
}

#[test]
fn missing_position_or_rotation() {
    assert_eq!(parse("1=,90"), err(0, ConfigErrorKind::MissingPosition));
    assert_eq!(parse("1=0x0,"), err(0, ConfigErrorKind::MissingRotation));
}

#[test]
fn bad_rotation_is_reported() {
    assert_eq!(parse("1=0x0,45"), err(0, ConfigErrorKind::InvalidRotation));
    assert_eq!(parse("1=0x0,abc"), err(0, ConfigErrorKind::InvalidRotation));
    assert_eq!(parse("1=0x0,90,1"), err(0, ConfigErrorKind::InvalidRotation));
}

#[test]
fn bad_position_is_reported() {
    assert_eq!(parse("1=0,90"), err(0, ConfigErrorKind::InvalidConfig));
    assert_eq!(parse("1=x5,90"), err(0, ConfigErrorKind::InvalidPosition));
    assert_eq!(parse("1=70000x5,90"), err(0, ConfigErrorKind::InvalidPosition));
}

#[test]
fn first_faulty_line_is_reported() {
    assert_eq!(parse("1=0x0,0\n2=0x0,7\n3=bad"), err(1, ConfigErrorKind::InvalidRotation));
}
