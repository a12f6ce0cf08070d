use vstd::prelude::*;
use crate::monitor::{CrtcWrite, Monitor, MonitorConfig, MonitorCrtcConfig, Rotation};

verus! {

/// A declared layout: where each of its monitors goes.
#[derive(Debug, Clone)]
pub struct MonitorSetup {
    pub configs: Vec<MonitorConfig>,
}

/// The virtual screen's size in pixels and in millimetres.
#[derive(Debug, Clone, Copy, PartialEq, Eq, Structural)]
pub struct ScreenSize {
    pub width: u16,
    pub height: u16,
    pub mm_width: u32,
    pub mm_height: u32,
}

/// The requests one reconciliation pass makes, in order: the CRTC writes,
/// then the screen size, which is only sent when some CRTC changed.
#[derive(Debug, Clone)]
pub struct SetupPlan {
    pub writes: Vec<CrtcWrite>,
    pub screen_size: Option<ScreenSize>,
}

pub open spec fn has_monitor(mons: Seq<Monitor>, id: u32) -> bool {
    exists|k: int| 0 <= k < mons.len() && mons[k].id == id
}

/// `k` is the first monitor of `mons` with identity `id`.
pub open spec fn is_first_monitor(mons: Seq<Monitor>, id: u32, k: int) -> bool {
    &&& 0 <= k < mons.len()
    &&& mons[k].id == id
    &&& forall|j: int| 0 <= j < k ==> mons[j].id != id
}

pub open spec fn first_monitor(mons: Seq<Monitor>, id: u32) -> int {
    choose|k: int| is_first_monitor(mons, id, k)
}

/// Every monitor that the setup names is connected. A setup may leave
/// connected monitors out; an empty setup matches nothing.
pub open spec fn setup_matches(mons: Seq<Monitor>, configs: Seq<MonitorConfig>) -> bool {
    &&& configs.len() > 0
    &&& forall|n: int| 0 <= n < configs.len() ==> has_monitor(mons, #[trigger] configs[n].id)
}

pub open spec fn is_chosen_setup(mons: Seq<Monitor>, setups: Seq<MonitorSetup>, i: int) -> bool {
    &&& 0 <= i < setups.len()
    &&& setup_matches(mons, setups[i].configs@)
    &&& forall|j: int| 0 <= j < i ==> !setup_matches(mons, #[trigger] setups[j].configs@)
}

/// The first setup that matches, if any.
pub open spec fn chosen_setup(mons: Seq<Monitor>, setups: Seq<MonitorSetup>) -> Option<int> {
    if exists|i: int| is_chosen_setup(mons, setups, i) {
        Some(choose|i: int| is_chosen_setup(mons, setups, i))
    } else {
        None
    }
}

/// Where the mirrored layout puts a monitor: at the origin, unrotated.
pub open spec fn mirrored(m: Monitor) -> MonitorConfig {
    MonitorConfig { id: m.id, x: 0, y: 0, rot: Rotation::Rotate0 }
}

/// Which monitor (by position) gets which placement: the chosen setup's
/// entries, each for the first monitor with its identity; with no setup
/// chosen, every monitor mirrored.
pub open spec fn targets(mons: Seq<Monitor>, setups: Seq<MonitorSetup>) -> Seq<(int, MonitorConfig)> {
    match chosen_setup(mons, setups) {
        Some(i) => setups[i].configs@.map_values(|c: MonitorConfig| (first_monitor(mons, c.id), c)),
        None => Seq::new(mons.len(), |k: int| (k, mirrored(mons[k]))),
    }
}

pub open spec fn writes_for(mons: Seq<Monitor>, ts: Seq<(int, MonitorConfig)>) -> Seq<CrtcWrite> {
    ts.filter_map(|t: (int, MonitorConfig)| mons[t.0].write_for(t.1))
}

/// The CRTC writes of a pass, in order.
pub open spec fn planned_writes(mons: Seq<Monitor>, setups: Seq<MonitorSetup>) -> Seq<CrtcWrite> {
    writes_for(mons, targets(mons, setups))
}

/// A position as the protocol's unsigned 16-bit screen fields read it.
pub open spec fn offset_of(x: i16) -> int {
    if x >= 0 { x as int } else { x + 65536 }
}

/// How far right and down a monitor placed by `c` reaches; a quarter turn
/// exchanges its width and height.
pub open spec fn reach_x(m: Monitor, c: MonitorConfig) -> int {
    offset_of(c.x) + if c.rot.is_quarter_turn() { m.h as int } else { m.w as int }
}

pub open spec fn reach_y(m: Monitor, c: MonitorConfig) -> int {
    offset_of(c.y) + if c.rot.is_quarter_turn() { m.w as int } else { m.h as int }
}

pub open spec fn max_of(s: Seq<int>) -> int
    decreases s.len(),
{
    if s.len() == 0 {
        0
    } else {
        let m = max_of(s.drop_last());
        if s.last() > m { s.last() } else { m }
    }
}

pub open spec fn sum_of(s: Seq<int>) -> int
    decreases s.len(),
{
    if s.len() == 0 {
        0
    } else {
        sum_of(s.drop_last()) + s.last()
    }
}

pub open spec fn clamp_u16(v: int) -> u16 {
    if v > u16::MAX { u16::MAX } else { v as u16 }
}

pub open spec fn clamp_u32(v: int) -> u32 {
    if v > u32::MAX { u32::MAX } else { v as u32 }
}

/// The screen that holds every placed monitor: the bounding box of their
/// footprints. Physical sizes add up under a setup, and are the largest
/// of the monitors' when mirrored. Each is capped at its field's maximum.
pub open spec fn planned_screen(mons: Seq<Monitor>, setups: Seq<MonitorSetup>) -> ScreenSize {
    let ts = targets(mons, setups);
    let mm_w = ts.map_values(|t: (int, MonitorConfig)| mons[t.0].w_mm as int);
    let mm_h = ts.map_values(|t: (int, MonitorConfig)| mons[t.0].h_mm as int);
    ScreenSize {
        width: clamp_u16(max_of(ts.map_values(|t: (int, MonitorConfig)| reach_x(mons[t.0], t.1)))),
        height: clamp_u16(max_of(ts.map_values(|t: (int, MonitorConfig)| reach_y(mons[t.0], t.1)))),
        mm_width: clamp_u32(if chosen_setup(mons, setups) is Some { sum_of(mm_w) } else { max_of(mm_w) }),
        mm_height: clamp_u32(if chosen_setup(mons, setups) is Some { sum_of(mm_h) } else { max_of(mm_h) }),
    }
}

/// The index of the first monitor with identity `id`, if one is connected.
pub fn find_monitor(mons: &Vec<Monitor>, id: u32) -> (r: Option<usize>)
    ensures
        r matches Some(k) ==> is_first_monitor(mons@, id, k as int),
        r is None ==> !has_monitor(mons@, id),
{
    let mut k: usize = 0;
    while k < mons.len()
        invariant
            k <= mons@.len(),
            forall|j: int| 0 <= j < k ==> mons@[j].id != id,
        decreases mons@.len() - k,
    {
        if mons[k].id == id {
            return Some(k);
        }
        k = k + 1;
    }
    None
}

impl MonitorSetup {
    /// Whether every monitor this setup names is connected.
    pub fn matches(&self, mons: &Vec<Monitor>) -> (r: bool)
        ensures
            r == setup_matches(mons@, self.configs@),
    {
        if self.configs.len() == 0 {
            return false;
        }
        let mut n: usize = 0;
        while n < self.configs.len()
            invariant
                n <= self.configs@.len(),
                forall|j: int| 0 <= j < n ==> has_monitor(mons@, #[trigger] self.configs@[j].id),
            decreases self.configs@.len() - n,
        {
            if find_monitor(mons, self.configs[n].id).is_none() {
                return false;
            }
            n = n + 1;
        }
        true
    }
}

/// The position of the first setup that matches, if any.
pub fn choose_setup(mons: &Vec<Monitor>, setups: &Vec<MonitorSetup>) -> (r: Option<usize>)
    ensures
        match r {
            Some(i) => chosen_setup(mons@, setups@) == Some(i as int),
            None => chosen_setup(mons@, setups@) is None,
        },
{
    let mut i: usize = 0;
    while i < setups.len()
        invariant
            i <= setups@.len(),
            forall|j: int| 0 <= j < i ==> !setup_matches(mons@, #[trigger] setups@[j].configs@),
        decreases setups@.len() - i,
    {
        if setups[i].matches(mons) {
            assert(is_chosen_setup(mons@, setups@, i as int));
            let ghost c = choose|c: int| is_chosen_setup(mons@, setups@, c);
            assert(c == i) by {
                if c < i {
                    assert(!setup_matches(mons@, setups@[c].configs@));
                } else if c > i {
                    assert(!setup_matches(mons@, setups@[i as int].configs@));
                }
            }
            return Some(i);
        }
        i = i + 1;
    }
    None
}

pub open spec fn targets_view(ts: Seq<(usize, MonitorConfig)>) -> Seq<(int, MonitorConfig)> {
    ts.map_values(|t: (usize, MonitorConfig)| (t.0 as int, t.1))
}

/// The placements of a pass, as `targets` gives them.
fn plan_targets(mons: &Vec<Monitor>, setups: &Vec<MonitorSetup>) -> (r: Vec<(usize, MonitorConfig)>)
    ensures
        targets_view(r@) == targets(mons@, setups@),
        forall|n: int| 0 <= n < r@.len() ==> (#[trigger] r@[n]).0 < mons@.len(),
{
    let mut r: Vec<(usize, MonitorConfig)> = Vec::new();
    match choose_setup(mons, setups) {
        Some(i) => {
            let configs = &setups[i].configs;
            let ghost want = targets(mons@, setups@);
            let mut n: usize = 0;
            while n < configs.len()
                invariant
                    n <= configs@.len(),
                    i < setups@.len(),
                    configs@ == setups@[i as int].configs@,
                    setup_matches(mons@, configs@),
                    want == configs@.map_values(|c: MonitorConfig| (first_monitor(mons@, c.id), c)),
                    r@.len() == n,
                    targets_view(r@) =~= want.take(n as int),
                    forall|m: int| 0 <= m < r@.len() ==> (#[trigger] r@[m]).0 < mons@.len(),
                decreases configs@.len() - n,
            {
                let c = configs[n];
                assert(has_monitor(mons@, configs@[n as int].id));
                match find_monitor(mons, c.id) {
                    Some(k) => {
                        assert(first_monitor(mons@, c.id) == k as int) by {
                            let f = first_monitor(mons@, c.id);
                            assert(is_first_monitor(mons@, c.id, f));
                            if f < k {
                                assert(mons@[f].id != c.id);
                            } else if f > k {
                                assert(mons@[k as int].id != c.id);
                            }
                        }
                        r.push((k, c));
                        assert(r@[n as int] == (k, c));
                        assert(targets_view(r@)[n as int] == want[n as int]);
                        assert(targets_view(r@) =~= want.take(n + 1));
                    },
                    None => {
                        assert(false);
                    },
                }
                n = n + 1;
            }
            assert(want.take(n as int) =~= want);
        },
        None => {
            let mut k: usize = 0;
            while k < mons.len()
                invariant
                    k <= mons@.len(),
                    chosen_setup(mons@, setups@) is None,
                    r@.len() == k,
                    targets_view(r@) =~= Seq::new(k as nat, |j: int| (j, mirrored(mons@[j]))),
                    forall|m: int| 0 <= m < r@.len() ==> (#[trigger] r@[m]).0 < mons@.len(),
                decreases mons@.len() - k,
            {
                let ghost before = targets_view(r@);
                r.push((k, MonitorConfig { id: mons[k].id, x: 0, y: 0, rot: Rotation::Rotate0 }));
                assert(targets_view(r@)[k as int] == (k as int, mirrored(mons@[k as int])));
                assert forall|j: int| 0 <= j <= k implies targets_view(r@)[j] == (j, mirrored(mons@[j])) by {
                    if j < k {
                        assert(targets_view(r@)[j] == before[j]);
                    }
                }
                assert(targets_view(r@) =~= Seq::new((k + 1) as nat, |j: int| (j, mirrored(mons@[j]))));
                k = k + 1;
            }
        },
    }
    r
}

/// Decides the requests of one reconciliation pass: the first declared
/// setup whose monitors are all connected is applied, or else every
/// monitor is mirrored at the origin. Only placements that differ from a
/// CRTC's current one are written, and the screen size is sent only when
/// something was written, so a pass over an unchanged layout sends nothing.
#[verifier::rlimit(40)]
pub fn apply_best_setup_for_mons(mons: &Vec<Monitor>, setups: &Vec<MonitorSetup>) -> (r: SetupPlan)
    ensures
        r.writes@ == planned_writes(mons@, setups@),
        r.screen_size == if r.writes@.len() > 0 {
            Some(planned_screen(mons@, setups@))
        } else {
            None::<ScreenSize>
        },
{
    let ts = plan_targets(mons, setups);
    let summed = choose_setup(mons, setups).is_some();
    let ghost tv = targets(mons@, setups@);
    let ghost rx = tv.map_values(|t: (int, MonitorConfig)| reach_x(mons@[t.0], t.1));
    let ghost ry = tv.map_values(|t: (int, MonitorConfig)| reach_y(mons@[t.0], t.1));
    let ghost mw = tv.map_values(|t: (int, MonitorConfig)| mons@[t.0].w_mm as int);
    let ghost mh = tv.map_values(|t: (int, MonitorConfig)| mons@[t.0].h_mm as int);
    let mut writes: Vec<CrtcWrite> = Vec::new();
    let mut width: u32 = 0;
    let mut height: u32 = 0;
    let mut mm_width: u32 = 0;
    let mut mm_height: u32 = 0;
    let mut n: usize = 0;
    while n < ts.len()
        invariant
            n <= ts@.len(),
            tv == targets_view(ts@),
            tv.len() == ts@.len(),
            forall|m: int| 0 <= m < ts@.len() ==> (#[trigger] ts@[m]).0 < mons@.len(),
            summed == chosen_setup(mons@, setups@) is Some,
            rx == tv.map_values(|t: (int, MonitorConfig)| reach_x(mons@[t.0], t.1)),
            ry == tv.map_values(|t: (int, MonitorConfig)| reach_y(mons@[t.0], t.1)),
            mw == tv.map_values(|t: (int, MonitorConfig)| mons@[t.0].w_mm as int),
            mh == tv.map_values(|t: (int, MonitorConfig)| mons@[t.0].h_mm as int),
            writes@ == writes_for(mons@, tv.take(n as int)),
            width == max_of(rx.take(n as int)),
            height == max_of(ry.take(n as int)),
            sum_of(mw.take(n as int)) >= 0,
            sum_of(mh.take(n as int)) >= 0,
            summed ==> mm_width == clamp_u32(sum_of(mw.take(n as int))),
            summed ==> mm_height == clamp_u32(sum_of(mh.take(n as int))),
            !summed ==> mm_width == max_of(mw.take(n as int)),
            !summed ==> mm_height == max_of(mh.take(n as int)),
        decreases ts@.len() - n,
    {
        let (k, c) = ts[n];
        let mon = &mons[k];
        proof {
            assert(tv[n as int] == (k as int, c));
            assert(tv.take(n + 1).drop_last() =~= tv.take(n as int));
            assert(rx.take(n + 1).drop_last() =~= rx.take(n as int));
            assert(ry.take(n + 1).drop_last() =~= ry.take(n as int));
            assert(mw.take(n + 1).drop_last() =~= mw.take(n as int));
            assert(mh.take(n + 1).drop_last() =~= mh.take(n as int));
        }
        match mon.apply_config(&c) {
            Some(w) => {
                writes.push(w);
                assert(writes@ =~= writes_for(mons@, tv.take(n as int)) + seq![w]);
            },
            None => {},
        }
        let quarter = c.rot == Rotation::Rotate90 || c.rot == Rotation::Rotate270;
        let (span_x, span_y) = if quarter {
            (mon.h, mon.w)
        } else {
            (mon.w, mon.h)
        };
        let reach_x_n = offset(c.x) + span_x as u32;
        let reach_y_n = offset(c.y) + span_y as u32;
        if reach_x_n > width {
            width = reach_x_n;
        }
        if reach_y_n > height {
            height = reach_y_n;
        }
        if summed {
            mm_width = if mm_width > u32::MAX - mon.w_mm { u32::MAX } else { mm_width + mon.w_mm };
            mm_height = if mm_height > u32::MAX - mon.h_mm { u32::MAX } else { mm_height + mon.h_mm };
        } else {
            if mon.w_mm > mm_width {
                mm_width = mon.w_mm;
            }
            if mon.h_mm > mm_height {
                mm_height = mon.h_mm;
            }
        }
        n = n + 1;
    }
    proof {
        assert(tv.take(n as int) =~= tv);
        assert(rx.take(n as int) =~= rx);
        assert(ry.take(n as int) =~= ry);
        assert(mw.take(n as int) =~= mw);
        assert(mh.take(n as int) =~= mh);
    }
    let screen_size = if writes.len() > 0 {
        Some(
            ScreenSize {
                width: if width > 65535 { 65535 } else { width as u16 },
                height: if height > 65535 { 65535 } else { height as u16 },
                mm_width,
                mm_height,
            },
        )
    } else {
        None
    };
    SetupPlan { writes, screen_size }
}

/// A position read as the protocol's unsigned 16-bit field.
fn offset(x: i16) -> (r: u32)
    ensures
        r == offset_of(x),
        r <= u16::MAX,
{
    if x >= 0 {
        x as u32
    } else {
        (x as i32 + 65536) as u32
    }
}

/// The last of `writes` that drives `output`, if any.
pub open spec fn last_write_to(writes: Seq<CrtcWrite>, output: u32) -> Option<CrtcWrite>
    decreases writes.len(),
{
    if writes.len() == 0 {
        None
    } else if writes.last().output == output {
        Some(writes.last())
    } else {
        last_write_to(writes.drop_last(), output)
    }
}

/// The monitors as the next discovery pass finds them once `writes` are
/// made: each output's CRTC stands where the last write to it put it.
pub open spec fn after_writes(mons: Seq<Monitor>, writes: Seq<CrtcWrite>) -> Seq<Monitor> {
    mons.map_values(
        |m: Monitor|
            match last_write_to(writes, m.output) {
                Some(w) => Monitor { crtc_config: Some(MonitorCrtcConfig { x: w.x, y: w.y, rot: w.rot }), ..m },
                None => m,
            },
    )
}

/// No two monitors of a snapshot share an output.
pub open spec fn outputs_distinct(mons: Seq<Monitor>) -> bool {
    forall|a: int, b: int| 0 <= a < mons.len() && 0 <= b < mons.len() && a != b ==> mons[a].output != mons[b].output
}

/// A setup that names a monitor twice puts it in one place both times.
pub open spec fn setup_consistent(configs: Seq<MonitorConfig>) -> bool {
    forall|a: int, b: int|
        0 <= a < configs.len() && 0 <= b < configs.len() && configs[a].id == configs[b].id ==> configs[a].placement()
            == configs[b].placement()
}

proof fn lemma_first_monitor(mons: Seq<Monitor>, id: u32)
    requires
        has_monitor(mons, id),
    ensures
        is_first_monitor(mons, id, first_monitor(mons, id)),
{
    let k = choose|k: int| 0 <= k < mons.len() && mons[k].id == id;
    lemma_first_below(mons, id, k);
}

proof fn lemma_first_below(mons: Seq<Monitor>, id: u32, k: int)
    requires
        0 <= k < mons.len(),
        mons[k].id == id,
    ensures
        exists|f: int| is_first_monitor(mons, id, f),
    decreases k,
{
    if exists|j: int| 0 <= j < k && mons[j].id == id {
        let j = choose|j: int| 0 <= j < k && mons[j].id == id;
        lemma_first_below(mons, id, j);
    } else {
        assert(is_first_monitor(mons, id, k));
    }
}

proof fn lemma_writes_for_contains(mons: Seq<Monitor>, ts: Seq<(int, MonitorConfig)>, w: CrtcWrite)
    requires
        forall|n: int| 0 <= n < ts.len() ==> 0 <= (#[trigger] ts[n]).0 < mons.len(),
    ensures
        writes_for(mons, ts).contains(w) <==> exists|a: int|
            0 <= a < ts.len() && mons[ts[a].0].write_for(ts[a].1) == Some(w),
    decreases ts.len(),
{
    if ts.len() > 0 {
        let rest = ts.drop_last();
        let last = ts.len() - 1;
        assert(ts.last() == ts[last]);
        assert forall|n: int| 0 <= n < rest.len() implies 0 <= (#[trigger] rest[n]).0 < mons.len() by {
            assert(rest[n] == ts[n]);
        }
        lemma_writes_for_contains(mons, rest, w);
        let prev = writes_for(mons, rest);
        let cur = writes_for(mons, ts);
        let tail = mons[ts[last].0].write_for(ts[last].1);
        if tail is Some {
            assert(cur =~= prev.push(tail->Some_0));
        } else {
            assert(cur =~= prev);
        }
        if exists|a: int| 0 <= a < ts.len() && mons[ts[a].0].write_for(ts[a].1) == Some(w) {
            let a = choose|a: int| 0 <= a < ts.len() && mons[ts[a].0].write_for(ts[a].1) == Some(w);
            if a < last {
                assert(rest[a] == ts[a]);
                let i = choose|i: int| 0 <= i < prev.len() && prev[i] == w;
                assert(cur[i] == w);
            } else {
                assert(cur[cur.len() - 1] == w);
            }
        }
        if cur.contains(w) {
            let i = choose|i: int| 0 <= i < cur.len() && cur[i] == w;
            if i < prev.len() {
                assert(prev[i] == w);
                assert(prev.contains(w));
                let a = choose|a: int| 0 <= a < rest.len() && mons[rest[a].0].write_for(rest[a].1) == Some(w);
                assert(ts[a] == rest[a]);
            }
        }
    }
}

proof fn lemma_last_write_to(writes: Seq<CrtcWrite>, output: u32)
    ensures
        match last_write_to(writes, output) {
            Some(w) => writes.contains(w) && w.output == output,
            None => forall|i: int| 0 <= i < writes.len() ==> writes[i].output != output,
        },
    decreases writes.len(),
{
    if writes.len() > 0 {
        lemma_last_write_to(writes.drop_last(), output);
        if writes.last().output != output {
            if let Some(w) = last_write_to(writes.drop_last(), output) {
                let i = choose|i: int| 0 <= i < writes.drop_last().len() && writes.drop_last()[i] == w;
                assert(writes[i] == w);
            } else {
                assert forall|i: int| 0 <= i < writes.len() implies writes[i].output != output by {
                    if i < writes.len() - 1 {
                        assert(writes[i] == writes.drop_last()[i]);
                    }
                }
            }
        } else {
            assert(writes[writes.len() - 1] == writes.last());
        }
    }
}

proof fn lemma_no_writes(mons: Seq<Monitor>, ts: Seq<(int, MonitorConfig)>)
    requires
        forall|n: int| 0 <= n < ts.len() ==> mons[(#[trigger] ts[n]).0].write_for(ts[n].1) is None,
    ensures
        writes_for(mons, ts).len() == 0,
    decreases ts.len(),
{
    if ts.len() > 0 {
        let rest = ts.drop_last();
        assert forall|n: int| 0 <= n < rest.len() implies mons[(#[trigger] rest[n]).0].write_for(rest[n].1) is None by {
            assert(rest[n] == ts[n]);
        }
        lemma_no_writes(mons, rest);
        assert(ts.last() == ts[ts.len() - 1]);
    }
}

/// Placing monitors by `ts` a second time, after the first time's writes,
/// writes nothing, where no monitor is given two different placements.
proof fn lemma_placement_settles(mons: Seq<Monitor>, ts: Seq<(int, MonitorConfig)>)
    requires
        outputs_distinct(mons),
        forall|n: int| 0 <= n < ts.len() ==> 0 <= (#[trigger] ts[n]).0 < mons.len(),
        forall|a: int, b: int|
            0 <= a < ts.len() && 0 <= b < ts.len() && (#[trigger] ts[a]).0 == (#[trigger] ts[b]).0 ==> ts[a].1.placement()
                == ts[b].1.placement(),
    ensures
        writes_for(after_writes(mons, writes_for(mons, ts)), ts).len() == 0,
{
    let ws = writes_for(mons, ts);
    let after = after_writes(mons, ws);
    assert forall|n: int| 0 <= n < ts.len() implies after[(#[trigger] ts[n]).0].write_for(ts[n].1) is None by {
        let k = ts[n].0;
        let c = ts[n].1;
        let m = mons[k];
        lemma_last_write_to(ws, m.output);
        match last_write_to(ws, m.output) {
            Some(w) => {
                lemma_writes_for_contains(mons, ts, w);
                let a = choose|a: int| 0 <= a < ts.len() && mons[ts[a].0].write_for(ts[a].1) == Some(w);
                assert(ts[a].0 == k);
                assert(ts[a].1.placement() == c.placement());
            },
            None => {
                if let Some(w0) = m.write_for(c) {
                    lemma_writes_for_contains(mons, ts, w0);
                    assert(ws.contains(w0));
                }
            },
        }
    }
    lemma_no_writes(after, ts);
}

/// Running reconciliation again on the snapshot that its own writes leave
/// behind writes nothing, and so sends no screen size either. It holds of
/// every snapshot whose monitors have distinct outputs, and every layout
/// library whose setups never place one monitor in two ways.
pub proof fn reconciliation_is_idempotent(mons: Seq<Monitor>, setups: Seq<MonitorSetup>)
    requires
        outputs_distinct(mons),
        forall|i: int| 0 <= i < setups.len() ==> setup_consistent(#[trigger] setups[i].configs@),
    ensures
        planned_writes(after_writes(mons, planned_writes(mons, setups)), setups).len() == 0,
{
    let ws = planned_writes(mons, setups);
    let after = after_writes(mons, ws);
    let ts = targets(mons, setups);
    assert forall|k: int| 0 <= k < mons.len() implies (#[trigger] after[k]).id == mons[k].id by {}
    assert forall|id: u32| has_monitor(after, id) == has_monitor(mons, id) by {
        if has_monitor(after, id) {
            let k = choose|k: int| 0 <= k < after.len() && after[k].id == id;
            assert(mons[k].id == id);
        }
        if has_monitor(mons, id) {
            let k = choose|k: int| 0 <= k < mons.len() && mons[k].id == id;
            assert(after[k].id == id);
        }
    }
    assert forall|i: int| 0 <= i < setups.len() implies setup_matches(after, #[trigger] setups[i].configs@) == setup_matches(
        mons,
        setups[i].configs@,
    ) by {}
    assert forall|i: int| is_chosen_setup(after, setups, i) == is_chosen_setup(mons, setups, i) by {}
    match chosen_setup(mons, setups) {
        Some(i) => {
            assert(is_chosen_setup(mons, setups, i));
            assert(chosen_setup(after, setups) == Some(i)) by {
                let c = choose|c: int| is_chosen_setup(after, setups, c);
                assert(is_chosen_setup(after, setups, c));
                if c < i {
                    assert(!setup_matches(mons, setups[c].configs@));
                } else if c > i {
                    assert(!setup_matches(mons, setups[i].configs@));
                }
            }
            let configs = setups[i].configs@;
            assert forall|n: int| 0 <= n < configs.len() implies first_monitor(after, #[trigger] configs[n].id)
                == first_monitor(mons, configs[n].id) by {
                let id = configs[n].id;
                assert(has_monitor(mons, id));
                lemma_first_monitor(mons, id);
                lemma_first_monitor(after, id);
                let f1 = first_monitor(mons, id);
                let f2 = first_monitor(after, id);
                if f1 < f2 {
                    assert(after[f1].id == id);
                } else if f2 < f1 {
                    assert(mons[f2].id == id);
                }
            }
            assert(targets(after, setups) =~= ts);
            assert forall|n: int| 0 <= n < ts.len() implies 0 <= (#[trigger] ts[n]).0 < mons.len() by {
                assert(has_monitor(mons, configs[n].id));
                lemma_first_monitor(mons, configs[n].id);
            }
            assert forall|a: int, b: int|
                0 <= a < ts.len() && 0 <= b < ts.len() && (#[trigger] ts[a]).0 == (#[trigger] ts[b]).0 implies ts[a].1.placement()
                    == ts[b].1.placement() by {
                assert(has_monitor(mons, configs[a].id));
                assert(has_monitor(mons, configs[b].id));
                lemma_first_monitor(mons, configs[a].id);
                lemma_first_monitor(mons, configs[b].id);
                assert(setup_consistent(setups[i].configs@));
            }
        },
        None => {
            assert(chosen_setup(after, setups) is None);
            assert(targets(after, setups) =~= ts);
        },
    }
    lemma_placement_settles(mons, ts);
}

/// Matching asks only that the setup's monitors be connected: a setup
/// whose identities are all connected is chosen, however many other
/// monitors are, unless an earlier setup matches; a setup naming an
/// identity that is not connected is never chosen.
pub proof fn setup_matching_is_containment(mons: Seq<Monitor>, setups: Seq<MonitorSetup>, i: int)
    requires
        0 <= i < setups.len(),
    ensures
        ({
            &&& setups[i].configs@.len() > 0
            &&& forall|n: int| 0 <= n < setups[i].configs@.len() ==> exists|k: int|
                0 <= k < mons.len() && mons[k].id == #[trigger] setups[i].configs@[n].id
            &&& forall|j: int| 0 <= j < i ==> !setup_matches(mons, #[trigger] setups[j].configs@)
        }) ==> chosen_setup(mons, setups) == Some(i),
        (exists|n: int| 0 <= n < setups[i].configs@.len() && !has_monitor(mons, #[trigger] setups[i].configs@[n].id))
            ==> chosen_setup(mons, setups) != Some(i),
{
    if exists|n: int| 0 <= n < setups[i].configs@.len() && !has_monitor(mons, #[trigger] setups[i].configs@[n].id) {
        if chosen_setup(mons, setups) == Some(i) {
            assert(is_chosen_setup(mons, setups, i));
        }
    }
    if setup_matches(mons, setups[i].configs@) && forall|j: int| 0 <= j < i ==> !setup_matches(mons, #[trigger] setups[j].configs@) {
        assert(is_chosen_setup(mons, setups, i));
        let c = choose|c: int| is_chosen_setup(mons, setups, c);
        if c < i {
            assert(!setup_matches(mons, setups[c].configs@));
        } else if c > i {
            assert(!setup_matches(mons, setups[i].configs@));
        }
    }
}

} // verus!
