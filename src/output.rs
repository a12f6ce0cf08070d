use vstd::prelude::*;
use crate::error::DiscoveryError;

verus! {

/// Connection state of an output, as the server reports it.
#[derive(Debug, Clone, Copy, PartialEq, Eq, Structural)]
pub enum Connection {
    Connected,
    Disconnected,
    Unknown,
}

/// A mode of the screen resources: its handle and its size in pixels.
#[derive(Debug, Clone, Copy, PartialEq, Eq, Structural)]
pub struct ModeInfo {
    pub id: u32,
    pub width: u16,
    pub height: u16,
}

/// The root screen's current height, in pixels and in millimetres.
#[derive(Debug, Clone, Copy, PartialEq, Eq, Structural)]
pub struct RootScreen {
    pub height_px: u16,
    pub height_mm: u16,
}

/// What the server reports of one output.
#[derive(Debug, Clone)]
pub struct RandrOutputInfo {
    pub xres: u32,
    pub name: String,
    pub connection: Connection,
    /// The CRTC driving this output, if any.
    pub crtc: Option<u32>,
    pub mm_width: u32,
    pub mm_height: u32,
    /// Handles of the output's modes; the first `num_preferred` are preferred.
    pub modes: Vec<u32>,
    pub num_preferred: u16,
}

/// `k` is the first index of `modes` whose handle is `id`.
pub open spec fn is_first_mode_index(modes: Seq<ModeInfo>, id: u32, k: int) -> bool {
    &&& 0 <= k < modes.len()
    &&& modes[k].id == id
    &&& forall|j: int| 0 <= j < k ==> modes[j].id != id
}

pub open spec fn describes_mode(modes: Seq<ModeInfo>, id: u32) -> bool {
    exists|k: int| 0 <= k < modes.len() && modes[k].id == id
}

/// The description of mode `id` in `modes`: the first entry with that handle.
pub open spec fn mode_info_of(modes: Seq<ModeInfo>, id: u32) -> ModeInfo {
    modes[choose|k: int| is_first_mode_index(modes, id, k)]
}

pub open spec fn abs_diff(a: int, b: int) -> int {
    if a >= b { a - b } else { b - a }
}

/// Pixels per thousand millimetres of the root screen.
pub open spec fn screen_density(screen: RootScreen) -> int {
    1000 * screen.height_px / screen.height_mm as int
}

impl RandrOutputInfo {
    pub open spec fn is_connected(&self) -> bool {
        self.connection == Connection::Connected
    }

    /// Position `i` of the output's mode list names a mode that the screen
    /// resources describe.
    pub open spec fn is_candidate(&self, modes: Seq<ModeInfo>, i: int) -> bool {
        0 <= i < self.modes@.len() && describes_mode(modes, self.modes@[i])
    }

    /// How far a mode of height `height` at position `i` is from what the
    /// output wants: zero for a preferred mode, else the difference of pixel
    /// densities, or of heights where the output's size is unknown.
    pub open spec fn mode_distance(&self, screen: RootScreen, i: int, height: u16) -> int {
        if i < self.num_preferred {
            0
        } else if self.mm_height > 0 {
            abs_diff(screen_density(screen), 1000 * height / self.mm_height as int)
        } else {
            abs_diff(screen.height_px as int, height as int)
        }
    }

    pub open spec fn candidate_distance(&self, screen: RootScreen, modes: Seq<ModeInfo>, i: int) -> int {
        self.mode_distance(screen, i, mode_info_of(modes, self.modes@[i]).height)
    }

    /// Position `i` holds the mode to choose: the smallest distance among
    /// candidates, and the first of those that share it.
    pub open spec fn is_best_mode(&self, screen: RootScreen, modes: Seq<ModeInfo>, i: int) -> bool {
        &&& self.is_candidate(modes, i)
        &&& forall|j: int| #[trigger] self.is_candidate(modes, j) ==> {
            &&& self.candidate_distance(screen, modes, i) <= self.candidate_distance(screen, modes, j)
            &&& (j < i ==> self.candidate_distance(screen, modes, i) < self.candidate_distance(screen, modes, j))
        }
    }

    /// Picks the mode to drive this output with: its handle, width and height.
    pub fn get_best_mode(&self, screen: &RootScreen, modes: &Vec<ModeInfo>) -> (r: Result<(u32, u16, u16), DiscoveryError>)
        requires
            screen.height_mm > 0,
        ensures
            r is Ok <==> exists|i: int| self.is_candidate(modes@, i),
            r matches Err(e) ==> e == DiscoveryError::NoUsableMode,
            r matches Ok((m, w, h)) ==> exists|i: int| {
                &&& self.is_best_mode(*screen, modes@, i)
                &&& m == self.modes@[i]
                &&& w == mode_info_of(modes@, m).width
                &&& h == mode_info_of(modes@, m).height
            },
    {
        let mut best: Option<(usize, usize)> = None;
        let mut best_dist: i64 = 0;
        let mut i: usize = 0;
        while i < self.modes.len()
            invariant
                i <= self.modes@.len(),
                screen.height_mm > 0,
                match best {
                    None => forall|j: int| 0 <= j < i ==> !self.is_candidate(modes@, j),
                    Some((b, k)) => {
                        &&& b < i
                        &&& is_first_mode_index(modes@, self.modes@[b as int], k as int)
                        &&& self.is_candidate(modes@, b as int)
                        &&& best_dist == self.candidate_distance(*screen, modes@, b as int)
                        &&& forall|j: int| 0 <= j < i && #[trigger] self.is_candidate(modes@, j) ==> {
                            &&& best_dist <= self.candidate_distance(*screen, modes@, j)
                            &&& (j < b ==> best_dist < self.candidate_distance(*screen, modes@, j))
                        }
                    },
                },
            decreases self.modes@.len() - i,
        {
            let found = find_mode_info(modes, self.modes[i]);
            if let Some(k) = found {
                let info = modes[k];
                let dist = self.distance(screen, i, info.height);
                assert(mode_info_of(modes@, self.modes@[i as int]) == info);
                let better = match best {
                    None => true,
                    Some(_) => dist < best_dist,
                };
                if better {
                    best = Some((i, k));
                    best_dist = dist;
                }
            }
            i = i + 1;
        }
        match best {
            None => Err(DiscoveryError::NoUsableMode),
            Some((b, k)) => {
                let info = modes[k];
                assert(self.is_best_mode(*screen, modes@, b as int));
                Ok((self.modes[b], info.width, info.height))
            },
        }
    }

    /// The distance of `mode_distance`, computed.
    fn distance(&self, screen: &RootScreen, i: usize, height: u16) -> (r: i64)
        requires
            screen.height_mm > 0,
        ensures
            r == self.mode_distance(*screen, i as int, height),
    {
        let d: i64 = if i < self.num_preferred as usize {
            0
        } else if self.mm_height > 0 {
            (1000 * (screen.height_px as i64)) / (screen.height_mm as i64)
                - (1000 * (height as i64)) / (self.mm_height as i64)
        } else {
            (screen.height_px as i64) - (height as i64)
        };
        if d < 0 {
            -d
        } else {
            d
        }
    }
}

/// The index of the first description of mode `id`, if there is one.
pub fn find_mode_info(modes: &Vec<ModeInfo>, id: u32) -> (r: Option<usize>)
    ensures
        r matches Some(k) ==> is_first_mode_index(modes@, id, k as int),
        r is None ==> !describes_mode(modes@, id),
{
    let mut k: usize = 0;
    while k < modes.len()
        invariant
            k <= modes@.len(),
            forall|j: int| 0 <= j < k ==> modes@[j].id != id,
        decreases modes@.len() - k,
    {
        if modes[k].id == id {
            return Some(k);
        }
        k = k + 1;
    }
    None
}

/// Of an output with a preferred mode that the screen resources describe,
/// a preferred mode is chosen, whatever the distances of the others.
pub proof fn preferred_mode_wins(
    out: RandrOutputInfo,
    screen: RootScreen,
    modes: Seq<ModeInfo>,
    chosen: int,
    preferred: int,
)
    requires
        out.is_best_mode(screen, modes, chosen),
        out.is_candidate(modes, preferred),
        preferred < out.num_preferred,
    ensures
        chosen < out.num_preferred,
{
    assert(out.candidate_distance(screen, modes, preferred) == 0);
}

} // verus!
