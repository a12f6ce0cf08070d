use vstd::prelude::*;

verus! {

/// Rotation of a CRTC. Reflections are not modelled.
#[derive(Debug, Clone, Copy, PartialEq, Eq, Structural)]
pub enum Rotation {
    Rotate0,
    Rotate90,
    Rotate180,
    Rotate270,
}

impl Rotation {
    /// Whether the rotation exchanges the visual width and height.
    pub open spec fn is_quarter_turn(self) -> bool {
        self == Rotation::Rotate90 || self == Rotation::Rotate270
    }
}

/// Position and rotation of a CRTC.
#[derive(Debug, Clone, Copy, PartialEq, Eq, Structural)]
pub struct MonitorCrtcConfig {
    pub x: i16,
    pub y: i16,
    pub rot: Rotation,
}

/// A connected monitor, as one discovery pass found it.
#[derive(Debug, Clone)]
pub struct Monitor {
    /// Identity derived from the EDID block; never zero.
    pub id: u32,
    pub name: String,
    /// The CRTC's current configuration; `None` when the output had no CRTC.
    pub crtc_config: Option<MonitorCrtcConfig>,
    pub output: u32,
    pub mode_best: u32,
    pub crtc_slot: u32,
    pub w: u16,
    pub h: u16,
    pub w_mm: u32,
    pub h_mm: u32,
}

/// Where a declared layout puts one monitor.
#[derive(Debug, Clone, Copy, PartialEq, Eq, Structural)]
pub struct MonitorConfig {
    pub id: u32,
    pub x: i16,
    pub y: i16,
    pub rot: Rotation,
}

/// A request to set a CRTC's configuration, driving one output.
#[derive(Debug, Clone, Copy, PartialEq, Eq, Structural)]
pub struct CrtcWrite {
    pub crtc: u32,
    pub x: i16,
    pub y: i16,
    pub mode: u32,
    pub rot: Rotation,
    pub output: u32,
}

impl MonitorConfig {
    pub open spec fn placement(self) -> MonitorCrtcConfig {
        MonitorCrtcConfig { x: self.x, y: self.y, rot: self.rot }
    }
}

impl Monitor {
    /// The write that puts this monitor where `conf` says, or `None` when
    /// it already stands there.
    pub open spec fn write_for(self, conf: MonitorConfig) -> Option<CrtcWrite> {
        if self.crtc_config == Some(conf.placement()) {
            None
        } else {
            Some(
                CrtcWrite {
                    crtc: self.crtc_slot,
                    x: conf.x,
                    y: conf.y,
                    mode: self.mode_best,
                    rot: conf.rot,
                    output: self.output,
                },
            )
        }
    }

    /// Decides whether `conf` changes this monitor's CRTC, and if so, with
    /// which request. The mode chosen at discovery is kept.
    pub fn apply_config(&self, conf: &MonitorConfig) -> (r: Option<CrtcWrite>)
        ensures
            r == self.write_for(*conf),
    {
        let configure = match &self.crtc_config {
            Some(cur) => conf.x != cur.x || conf.y != cur.y || conf.rot != cur.rot,
            None => true,
        };
        if !configure {
            return None;
        }
        Some(
            CrtcWrite {
                crtc: self.crtc_slot,
                x: conf.x,
                y: conf.y,
                mode: self.mode_best,
                rot: conf.rot,
                output: self.output,
            },
        )
    }
}

} // verus!
