use vstd::prelude::*;
use crate::error::DiscoveryError;
use crate::identity::{edid_hash, make_id_from_edid};
use crate::monitor::{Monitor, MonitorCrtcConfig};
use crate::output::{mode_info_of, Connection, ModeInfo, RandrOutputInfo, RootScreen};

verus! {

/// The EDID property of an output: its type and format as reported, and
/// its bytes.
#[derive(Debug, Clone)]
pub struct EdidProperty {
    /// The property's type is the INTEGER atom.
    pub is_integer: bool,
    pub format: u8,
    pub data: Vec<u8>,
}

/// Everything one discovery pass reads about one output.
#[derive(Debug, Clone)]
pub struct OutputProbe {
    pub info: RandrOutputInfo,
    /// The output's EDID property, if it has one.
    pub edid: Option<EdidProperty>,
    /// Position and rotation of the output's CRTC, where it has one.
    pub crtc_state: Option<MonitorCrtcConfig>,
}

/// The identity that an EDID property resolves to, or why it resolves to none.
pub open spec fn edid_identity(edid: Option<EdidProperty>) -> Result<u32, DiscoveryError> {
    match edid {
        None => Err(DiscoveryError::MissingEdid),
        Some(e) => if !e.is_integer || e.format != 8 {
            Err(DiscoveryError::MalformedEdid)
        } else if edid_hash(e.data@) == 0 {
            Err(DiscoveryError::ReservedIdentity)
        } else {
            Ok(edid_hash(e.data@))
        },
    }
}

/// Resolves a monitor's identity from its EDID property.
pub fn resolve_monitor_id(edid: &Option<EdidProperty>) -> (r: Result<u32, DiscoveryError>)
    ensures
        r == edid_identity(*edid),
{
    match edid {
        None => Err(DiscoveryError::MissingEdid),
        Some(e) => {
            if !e.is_integer || e.format != 8 {
                return Err(DiscoveryError::MalformedEdid);
            }
            let id = make_id_from_edid(e.data.as_slice());
            if id == 0 {
                Err(DiscoveryError::ReservedIdentity)
            } else {
                Ok(id)
            }
        },
    }
}

/// The CRTCs to clear: those still held by outputs that are not connected,
/// in the order of the outputs.
pub open spec fn dangling_crtcs_of(outs: Seq<RandrOutputInfo>) -> Seq<u32> {
    outs.filter_map(|o: RandrOutputInfo| if o.is_connected() { None } else { o.crtc })
}

impl RandrOutputInfo {
    /// The CRTCs that outputs no longer connected still hold. Each must be
    /// cleared, and the outputs read again, before CRTCs are allocated.
    pub fn dangling_crtcs(outs: &Vec<RandrOutputInfo>) -> (r: Vec<u32>)
        ensures
            r@ == dangling_crtcs_of(outs@),
    {
        let mut r: Vec<u32> = Vec::new();
        let mut i: usize = 0;
        while i < outs.len()
            invariant
                i <= outs@.len(),
                r@ == dangling_crtcs_of(outs@.take(i as int)),
            decreases outs@.len() - i,
        {
            assert(outs@.take(i + 1).drop_last() =~= outs@.take(i as int));
            if outs[i].connection != Connection::Connected {
                if let Some(c) = outs[i].crtc {
                    r.push(c);
                }
            }
            i = i + 1;
        }
        assert(outs@.take(i as int) =~= outs@);
        r
    }
}

/// What the server reports of the outputs once the dangling CRTCs are
/// cleared: no output that is not connected holds a CRTC.
pub open spec fn released(outs: Seq<RandrOutputInfo>) -> Seq<RandrOutputInfo> {
    outs.map_values(
        |o: RandrOutputInfo|
            if o.is_connected() {
                o
            } else {
                RandrOutputInfo { crtc: None, ..o }
            },
    )
}

pub open spec fn holds_crtc(probes: Seq<OutputProbe>, c: u32) -> bool {
    exists|i: int| 0 <= i < probes.len() && probes[i].info.crtc == Some(c)
}

/// The CRTCs that no output holds, in the screen's order.
pub open spec fn free_pool(crtcs: Seq<u32>, probes: Seq<OutputProbe>) -> Seq<u32> {
    crtcs.filter(|c: u32| !holds_crtc(probes, c))
}

/// The CRTCs of `crtcs` that no output holds, in order.
pub fn free_crtcs(crtcs: &Vec<u32>, probes: &Vec<OutputProbe>) -> (r: Vec<u32>)
    ensures
        r@ == free_pool(crtcs@, probes@),
{
    let mut r: Vec<u32> = Vec::new();
    let mut i: usize = 0;
    while i < crtcs.len()
        invariant
            i <= crtcs@.len(),
            r@ == free_pool(crtcs@.take(i as int), probes@),
        decreases crtcs@.len() - i,
    {
        assert(crtcs@.take(i + 1).drop_last() =~= crtcs@.take(i as int));
        let c = crtcs[i];
        let held = crtc_is_held(probes, c);
        proof {
            reveal(Seq::filter);
        }
        if !held {
            r.push(c);
        }
        i = i + 1;
    }
    assert(crtcs@.take(i as int) =~= crtcs@);
    r
}

fn crtc_is_held(probes: &Vec<OutputProbe>, c: u32) -> (r: bool)
    ensures
        r == holds_crtc(probes@, c),
{
    let mut i: usize = 0;
    while i < probes.len()
        invariant
            i <= probes@.len(),
            forall|j: int| 0 <= j < i ==> probes@[j].info.crtc != Some(c),
        decreases probes@.len() - i,
    {
        if let Some(h) = probes[i].info.crtc {
            if h == c {
                return true;
            }
        }
        i = i + 1;
    }
    false
}

pub open spec fn needs_crtc(p: OutputProbe) -> bool {
    p.info.is_connected() && p.info.crtc is None
}

/// How many outputs of `probes` are connected and hold no CRTC.
pub open spec fn count_needing(probes: Seq<OutputProbe>) -> nat
    decreases probes.len(),
{
    if probes.len() == 0 {
        0
    } else {
        count_needing(probes.drop_last()) + if needs_crtc(probes.last()) { 1nat } else { 0nat }
    }
}

/// How many outputs of `probes` are connected.
pub open spec fn count_connected(probes: Seq<OutputProbe>) -> nat
    decreases probes.len(),
{
    if probes.len() == 0 {
        0
    } else {
        count_connected(probes.drop_last()) + if probes.last().info.is_connected() { 1nat } else { 0nat }
    }
}

/// Why a connected output yields no monitor, leaving CRTCs aside.
pub open spec fn probe_failure(p: OutputProbe, modes: Seq<ModeInfo>) -> Option<DiscoveryError> {
    match edid_identity(p.edid) {
        Err(e) => Some(e),
        Ok(_) => if exists|i: int| p.info.is_candidate(modes, i) {
            None
        } else {
            Some(DiscoveryError::NoUsableMode)
        },
    }
}

/// Output `j` stops the pass: it is connected, and its identity or mode
/// cannot be resolved, or it needs a CRTC once the free ones are used up.
pub open spec fn fails_at(crtcs: Seq<u32>, modes: Seq<ModeInfo>, probes: Seq<OutputProbe>, j: int) -> bool {
    &&& probes[j].info.is_connected()
    &&& (probe_failure(probes[j], modes) is Some || (needs_crtc(probes[j]) && count_needing(
        probes.take(j),
    ) >= free_pool(crtcs, probes).len()))
}

pub open spec fn failure_kind(p: OutputProbe, modes: Seq<ModeInfo>) -> DiscoveryError {
    match probe_failure(p, modes) {
        Some(e) => e,
        None => DiscoveryError::NoFreeCrtc,
    }
}

/// The CRTC that output `j` is driven by: its own, or else the next free one.
pub open spec fn assigned_crtc(crtcs: Seq<u32>, probes: Seq<OutputProbe>, j: int) -> u32 {
    match probes[j].info.crtc {
        Some(c) => c,
        None => free_pool(crtcs, probes)[count_needing(probes.take(j)) as int],
    }
}

/// `mon` is what output `p` yields when driven by CRTC `crtc`.
pub open spec fn describes(mon: Monitor, p: OutputProbe, screen: RootScreen, modes: Seq<ModeInfo>, crtc: u32) -> bool {
    &&& edid_identity(p.edid) == Ok::<u32, DiscoveryError>(mon.id)
    &&& mon.name@ == p.info.name@
    &&& mon.output == p.info.xres
    &&& mon.crtc_slot == crtc
    &&& mon.crtc_config == if p.info.crtc is Some { p.crtc_state } else { None }
    &&& exists|i: int| {
        &&& p.info.is_best_mode(screen, modes, i)
        &&& mon.mode_best == p.info.modes@[i]
        &&& mon.w == mode_info_of(modes, mon.mode_best).width
        &&& mon.h == mode_info_of(modes, mon.mode_best).height
    }
    &&& mon.w_mm == p.info.mm_width
    &&& mon.h_mm == p.info.mm_height
}

/// An earlier connected output comes before a later position in the
/// monitor list.
proof fn lemma_count_connected_grows(s: Seq<OutputProbe>, j: int, i: int)
    requires
        0 <= j < i <= s.len(),
        s[j].info.is_connected(),
    ensures
        count_connected(s.take(j)) < count_connected(s.take(i)),
    decreases i - j,
{
    assert(s.take(i).drop_last() =~= s.take(i - 1));
    if i > j + 1 {
        lemma_count_connected_grows(s, j, i - 1);
    }
}

/// An earlier output that needs a CRTC takes an earlier free one.
proof fn lemma_count_needing_grows(s: Seq<OutputProbe>, j: int, i: int)
    requires
        0 <= j < i <= s.len(),
        needs_crtc(s[j]),
    ensures
        count_needing(s.take(j)) < count_needing(s.take(i)),
    decreases i - j,
{
    assert(s.take(i).drop_last() =~= s.take(i - 1));
    if i > j + 1 {
        lemma_count_needing_grows(s, j, i - 1);
    }
}

/// Counting over a longer prefix never gives less.
proof fn lemma_count_needing_monotone(s: Seq<OutputProbe>, j: int, i: int)
    requires
        0 <= j <= i <= s.len(),
    ensures
        count_needing(s.take(j)) <= count_needing(s.take(i)),
    decreases i - j,
{
    if i > j {
        assert(s.take(i).drop_last() =~= s.take(i - 1));
        lemma_count_needing_monotone(s, j, i - 1);
    }
}

impl Monitor {
    /// Builds the monitor of one connected output, or says why it cannot.
    fn build(
        screen: &RootScreen,
        p: &OutputProbe,
        free_crtc: Option<u32>,
        modes: &Vec<ModeInfo>,
    ) -> (r: Result<Monitor, DiscoveryError>)
        requires
            screen.height_mm > 0,
        ensures
            match r {
                Ok(mon) => {
                    &&& probe_failure(*p, modes@) is None
                    &&& (p.info.crtc is None ==> free_crtc is Some)
                    &&& describes(mon, *p, *screen, modes@, match p.info.crtc {
                        Some(c) => c,
                        None => free_crtc->Some_0,
                    })
                },
                Err(e) => {
                    &&& probe_failure(*p, modes@) is Some || (p.info.crtc is None && free_crtc is None)
                    &&& e == failure_kind(*p, modes@)
                },
            },
    {
        let id = match resolve_monitor_id(&p.edid) {
            Ok(id) => id,
            Err(e) => return Err(e),
        };
        let (best_mode, width, height) = match p.info.get_best_mode(screen, modes) {
            Ok(b) => b,
            Err(e) => return Err(e),
        };
        let (crtc_slot, crtc_config) = match p.info.crtc {
            Some(c) => (c, p.crtc_state),
            None => match free_crtc {
                Some(c) => (c, None),
                None => return Err(DiscoveryError::NoFreeCrtc),
            },
        };
        Ok(
            Monitor {
                id,
                name: p.info.name.clone(),
                crtc_config,
                output: p.info.xres,
                mode_best: best_mode,
                crtc_slot,
                w: width,
                h: height,
                w_mm: p.info.mm_width,
                h_mm: p.info.mm_height,
            },
        )
    }

    /// Builds the monitors of all connected outputs, in the order of the
    /// outputs. An output that needs a CRTC takes the first free one left.
    /// The first output that cannot be resolved aborts the pass.
    #[verifier::rlimit(30)]
    pub fn get_all_connected(
        screen: &RootScreen,
        crtcs: &Vec<u32>,
        modes: &Vec<ModeInfo>,
        probes: &Vec<OutputProbe>,
    ) -> (r: Result<Vec<Monitor>, DiscoveryError>)
        requires
            screen.height_mm > 0,
        ensures
            r is Ok <==> forall|j: int| 0 <= j < probes@.len() ==> !fails_at(crtcs@, modes@, probes@, j),
            r matches Err(e) ==> exists|j: int| {
                &&& 0 <= j < probes@.len()
                &&& fails_at(crtcs@, modes@, probes@, j)
                &&& e == failure_kind(probes@[j], modes@)
                &&& forall|k: int| 0 <= k < j ==> !fails_at(crtcs@, modes@, probes@, k)
            },
            r matches Ok(mons) ==> {
                &&& mons@.len() == count_connected(probes@)
                &&& forall|j: int| 0 <= j < probes@.len() && (#[trigger] probes@[j]).info.is_connected() ==>
                    describes(
                        mons@[count_connected(probes@.take(j)) as int],
                        probes@[j],
                        *screen,
                        modes@,
                        assigned_crtc(crtcs@, probes@, j),
                    )
            },
    {
        let free = free_crtcs(crtcs, probes);
        let mut next_free: usize = 0;
        let mut mons: Vec<Monitor> = Vec::new();
        let mut i: usize = 0;
        while i < probes.len()
            invariant
                i <= probes@.len(),
                screen.height_mm > 0,
                free@ == free_pool(crtcs@, probes@),
                next_free == count_needing(probes@.take(i as int)),
                next_free <= free@.len(),
                mons@.len() == count_connected(probes@.take(i as int)),
                forall|k: int| 0 <= k < i ==> !fails_at(crtcs@, modes@, probes@, k),
                forall|j: int| 0 <= j < i && (#[trigger] probes@[j]).info.is_connected() ==>
                    describes(
                        mons@[count_connected(probes@.take(j)) as int],
                        probes@[j],
                        *screen,
                        modes@,
                        assigned_crtc(crtcs@, probes@, j),
                    ),
            decreases probes@.len() - i,
        {
            assert(probes@.take(i + 1).drop_last() =~= probes@.take(i as int));
            let p = &probes[i];
            if p.info.connection == Connection::Connected {
                let free_crtc = if next_free < free.len() {
                    Some(free[next_free])
                } else {
                    None
                };
                match Monitor::build(screen, p, free_crtc, modes) {
                    Ok(mon) => {
                        let ghost old_mons = mons@;
                        if p.info.crtc.is_none() {
                            next_free = next_free + 1;
                        }
                        mons.push(mon);
                        proof {
                            assert(mons@[count_connected(probes@.take(i as int)) as int] == mon);
                            assert forall|j: int|
                                0 <= j < i && (#[trigger] probes@[j]).info.is_connected() implies mons@[count_connected(
                                probes@.take(j),
                            ) as int] == old_mons[count_connected(probes@.take(j)) as int] by {
                                lemma_count_connected_grows(probes@, j, i as int);
                            }
                        }
                    },
                    Err(e) => {
                        assert(fails_at(crtcs@, modes@, probes@, i as int));
                        return Err(e);
                    },
                }
            }
            i = i + 1;
        }
        assert(probes@.take(i as int) =~= probes@);
        Ok(mons)
    }
}

/// Keeping some CRTCs of a list without repeats gives a list without
/// repeats, each of whose CRTCs is in the first.
proof fn lemma_free_pool_distinct(crtcs: Seq<u32>, probes: Seq<OutputProbe>)
    requires
        crtcs.no_duplicates(),
    ensures
        free_pool(crtcs, probes).no_duplicates(),
        forall|k: int| 0 <= k < free_pool(crtcs, probes).len() ==> crtcs.contains(#[trigger] free_pool(crtcs, probes)[k]),
    decreases crtcs.len(),
{
    reveal(Seq::filter);
    if crtcs.len() > 0 {
        let rest = crtcs.drop_last();
        assert(rest.no_duplicates());
        lemma_free_pool_distinct(rest, probes);
        let sub = free_pool(rest, probes);
        assert forall|k: int| 0 <= k < sub.len() implies crtcs.contains(#[trigger] sub[k]) by {
            let m = choose|m: int| 0 <= m < rest.len() && rest[m] == sub[k];
            assert(crtcs[m] == sub[k]);
        }
        assert forall|k: int| 0 <= k < sub.len() implies #[trigger] sub[k] != crtcs.last() by {
            let m = choose|m: int| 0 <= m < rest.len() && rest[m] == sub[k];
            assert(crtcs[m] == rest[m]);
        }
        assert(crtcs[crtcs.len() - 1] == crtcs.last());
    }
}

/// Within one successful discovery pass, a CRTC handed to an output that
/// had none is held by no output, and by no other output of the pass.
pub proof fn allocation_never_shares_crtc(
    crtcs: Seq<u32>,
    modes: Seq<ModeInfo>,
    probes: Seq<OutputProbe>,
    j1: int,
    j2: int,
)
    requires
        crtcs.no_duplicates(),
        forall|k: int| 0 <= k < probes.len() ==> !fails_at(crtcs, modes, probes, k),
        0 <= j1 < probes.len(),
        0 <= j2 < probes.len(),
        j1 != j2,
        needs_crtc(probes[j1]),
        probes[j2].info.is_connected(),
    ensures
        !holds_crtc(probes, assigned_crtc(crtcs, probes, j1)),
        assigned_crtc(crtcs, probes, j1) != assigned_crtc(crtcs, probes, j2),
{
    broadcast use vstd::seq_lib::group_filter_ensures;
    let free = free_pool(crtcs, probes);
    let pred = |c: u32| !holds_crtc(probes, c);
    assert(!fails_at(crtcs, modes, probes, j1));
    let k1 = count_needing(probes.take(j1)) as int;
    assert(pred(crtcs.filter(pred)[k1]));
    if needs_crtc(probes[j2]) {
        assert(!fails_at(crtcs, modes, probes, j2));
        if j1 < j2 {
            lemma_count_needing_grows(probes, j1, j2);
        } else {
            lemma_count_needing_grows(probes, j2, j1);
        }
        lemma_free_pool_distinct(crtcs, probes);
    } else {
        assert(probes[j2].info.crtc == Some(assigned_crtc(crtcs, probes, j2)));
    }
}

/// With every connected output resolvable, a pass fails for want of CRTCs
/// exactly when more connected outputs lack a CRTC than there are free ones.
pub proof fn allocation_fails_iff_pool_short(crtcs: Seq<u32>, modes: Seq<ModeInfo>, probes: Seq<OutputProbe>)
    requires
        forall|k: int| 0 <= k < probes.len() && probes[k].info.is_connected() ==> probe_failure(
            #[trigger] probes[k],
            modes,
        ) is None,
    ensures
        (exists|j: int| 0 <= j < probes.len() && fails_at(crtcs, modes, probes, j)) <==> count_needing(probes)
            > free_pool(crtcs, probes).len(),
{
    let f = free_pool(crtcs, probes).len();
    assert(probes.take(probes.len() as int) =~= probes);
    if exists|j: int| 0 <= j < probes.len() && fails_at(crtcs, modes, probes, j) {
        let j = choose|j: int| 0 <= j < probes.len() && fails_at(crtcs, modes, probes, j);
        lemma_count_needing_grows(probes, j, probes.len() as int);
    }
    if count_needing(probes) > f {
        lemma_first_short_output(crtcs, modes, probes, probes.len() as int);
    }
}

proof fn lemma_first_short_output(crtcs: Seq<u32>, modes: Seq<ModeInfo>, probes: Seq<OutputProbe>, n: int)
    requires
        0 <= n <= probes.len(),
        count_needing(probes.take(n)) > free_pool(crtcs, probes).len(),
        forall|k: int| 0 <= k < probes.len() && probes[k].info.is_connected() ==> probe_failure(
            #[trigger] probes[k],
            modes,
        ) is None,
    ensures
        exists|j: int| 0 <= j < n && fails_at(crtcs, modes, probes, j),
    decreases n,
{
    assert(probes.take(n).drop_last() =~= probes.take(n - 1));
    if count_needing(probes.take(n - 1)) > free_pool(crtcs, probes).len() {
        lemma_first_short_output(crtcs, modes, probes, n - 1);
    } else {
        assert(fails_at(crtcs, modes, probes, n - 1));
    }
}

/// Once the dangling CRTCs are cleared, a CRTC that only outputs no longer
/// connected held is free again.
pub proof fn cleared_crtc_is_free(crtcs: Seq<u32>, outs: Seq<RandrOutputInfo>, probes: Seq<OutputProbe>, c: u32)
    requires
        crtcs.contains(c),
        dangling_crtcs_of(outs).contains(c),
        forall|i: int| 0 <= i < outs.len() && (#[trigger] outs[i]).is_connected() ==> outs[i].crtc != Some(c),
        probes.len() == outs.len(),
        forall|i: int| 0 <= i < probes.len() ==> #[trigger] probes[i].info == released(outs)[i],
    ensures
        free_pool(crtcs, probes).contains(c),
{
    broadcast use vstd::seq_lib::group_filter_ensures;
    assert forall|i: int| 0 <= i < probes.len() implies #[trigger] probes[i].info.crtc != Some(c) by {
        assert(probes[i].info == released(outs)[i]);
    }
    let k = choose|k: int| 0 <= k < crtcs.len() && crtcs[k] == c;
    assert(crtcs.filter(|c: u32| !holds_crtc(probes, c)).contains(crtcs[k]));
}

} // verus!
