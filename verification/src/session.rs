//! The session model behind the desktop shell: settings, connection phase,
//! status and the running tally of what the battle loop did.

use vstd::prelude::*;
use std::collections::VecDeque;
use crate::events::EventKind;
use crate::text::str_eq;

verus! {

/// User settings; older files lacking a field take its default.
#[derive(Debug, Clone)]
pub struct Settings {
    pub entry: String,
    pub preferred_device: Option<String>,
    pub auto_start: bool,
    pub frame_interval_ms: u64,
    pub show_misses: bool,
    pub overlay_hits: bool,
    pub record_frames: bool,
    pub theme_mode: String,
}

impl Default for Settings {
    /// Conservative defaults: start from `Main`, never start a battle on
    /// opening, follow the system theme, record nothing.
    fn default() -> (s: Settings)
        ensures
            s.entry@ == "Main"@,
            s.preferred_device is None,
            !s.auto_start,
            s.frame_interval_ms == 1000,
            !s.show_misses,
            !s.overlay_hits,
            !s.record_frames,
            s.theme_mode@ == "system"@,
    {
        Settings {
            entry: "Main".to_string(),
            preferred_device: None,
            auto_start: false,
            frame_interval_ms: 1000,
            show_misses: false,
            overlay_hits: false,
            record_frames: false,
            theme_mode: "system".to_string(),
        }
    }
}

/// Where the connection stands.
#[derive(PartialEq, Eq, Structural, Clone, Copy, Debug)]
pub enum Phase {
    Idle,
    Connecting,
    Ready,
    Running,
    Error,
}

impl Phase {
    /// The lower-case name the UI receives.
    pub fn name(&self) -> (s: &'static str)
        ensures
            *self == Phase::Idle ==> s@ == "idle"@,
            *self == Phase::Connecting ==> s@ == "connecting"@,
            *self == Phase::Ready ==> s@ == "ready"@,
            *self == Phase::Running ==> s@ == "running"@,
            *self == Phase::Error ==> s@ == "error"@,
    {
        match self {
            Phase::Idle => "idle",
            Phase::Connecting => "connecting",
            Phase::Ready => "ready",
            Phase::Running => "running",
            Phase::Error => "error",
        }
    }
}

/// Where the connection stands, and the line the UI shows beside it.
pub struct Connection {
    phase: Phase,
    detail: String,
}

impl Connection {
    pub closed spec fn phase_of(&self) -> Phase {
        self.phase
    }

    pub closed spec fn detail_of(&self) -> Seq<char> {
        self.detail@
    }

    /// Nothing connected yet.
    pub fn new() -> (c: Connection)
        ensures
            c.phase_of() == Phase::Idle,
            c.detail_of() == Seq::<char>::empty(),
    {
        Connection { phase: Phase::Idle, detail: String::new() }
    }

    /// A connection attempt begins; nothing to report yet.
    pub fn connecting(&mut self)
        ensures
            final(self).phase_of() == Phase::Connecting,
            final(self).detail_of() == Seq::<char>::empty(),
    {
        self.phase = Phase::Connecting;
        self.detail = String::new();
    }

    /// The device answered: ready, labelled with the device.
    pub fn connected(&mut self, label: String)
        ensures
            final(self).phase_of() == Phase::Ready,
            final(self).detail_of() == label@,
    {
        self.phase = Phase::Ready;
        self.detail = label;
    }

    /// The attempt failed; the error is what the UI shows.
    pub fn failed(&mut self, error: String)
        ensures
            final(self).phase_of() == Phase::Error,
            final(self).detail_of() == error@,
    {
        self.phase = Phase::Error;
        self.detail = error;
    }

    /// The connect command's decision once the attempt is over: connected,
    /// the device's label is shown and the task starts now exactly when
    /// `auto_start` is on; failed, the error is shown and nothing starts.
    pub fn connect_step(&mut self, outcome: Result<String, String>, auto_start: bool) -> (start_now: bool)
        ensures
            match outcome {
                Ok(label) => final(self).phase_of() == Phase::Ready && final(self).detail_of() == label@
                    && start_now == auto_start,
                Err(error) => final(self).phase_of() == Phase::Error && final(self).detail_of() == error@
                    && !start_now,
            },
    {
        match outcome {
            Ok(label) => {
                self.connected(label);
                auto_start
            },
            Err(error) => {
                self.failed(error);
                false
            },
        }
    }

    /// A battle task started.
    pub fn running(&mut self)
        ensures
            final(self).phase_of() == Phase::Running,
            final(self).detail_of() == old(self).detail_of(),
    {
        self.phase = Phase::Running;
    }

    /// Starting right after connecting failed: the device is still
    /// connected, and the reason joins the label for a manual retry.
    pub fn auto_start_failed(&mut self, error: &str)
        ensures
            final(self).phase_of() == old(self).phase_of(),
            final(self).detail_of() == old(self).detail_of() + "（自动开始失败: "@ + error@ + "）"@,
    {
        let label = self.detail.clone();
        self.detail = label.concat("（自动开始失败: ").concat(error).concat("）");
    }

    /// The task was stopped: back to ready, the label kept.
    pub fn stopped(&mut self)
        ensures
            final(self).phase_of() == Phase::Ready,
            final(self).detail_of() == old(self).detail_of(),
    {
        self.phase = Phase::Ready;
    }

    /// The device was let go.
    pub fn disconnected(&mut self)
        ensures
            final(self).phase_of() == Phase::Idle,
            final(self).detail_of() == Seq::<char>::empty(),
    {
        self.phase = Phase::Idle;
        self.detail = String::new();
    }

    pub fn phase(&self) -> (p: Phase)
        ensures
            p == self.phase_of(),
    {
        self.phase
    }

    pub fn detail(&self) -> (d: String)
        ensures
            d@ == self.detail_of(),
    {
        self.detail.clone()
    }
}

/// What the UI shows about the session.
#[derive(Debug, Clone)]
pub struct Status {
    pub phase: Phase,
    pub detail: String,
    pub battles: usize,
    pub uptime_ms: u64,
    pub current_node: String,
}

/// One entry of the device selector.
#[derive(Debug, Clone)]
pub struct DeviceItem {
    pub label: String,
    pub address: String,
}

impl DeviceItem {
    /// The selector shows `label · address`.
    pub fn new(label: &str, address: String) -> (d: DeviceItem)
        ensures
            d.label@ == label@ + " · "@ + address@,
            d.address@ == address@,
    {
        let shown = label.to_string().concat(" · ").concat(address.as_str());
        DeviceItem { label: shown, address }
    }
}

/// A captured frame, ready for an `<img>`.
#[derive(Debug, Clone)]
pub struct Frame {
    pub data_url: String,
    pub width: u32,
    pub height: u32,
}

impl Frame {
    /// A PNG frame from its base64 text.
    pub fn png(base64: &str, width: u32, height: u32) -> (f: Frame)
        ensures
            f.data_url@ == "data:image/png;base64,"@ + base64@,
            f.width == width,
            f.height == height,
    {
        Frame { data_url: "data:image/png;base64,".to_string().concat(base64), width, height }
    }
}

/// Where the app keeps its own files.
#[derive(Debug, Clone)]
pub struct Paths {
    pub log_dir: String,
}

/// Timeline entries kept for the UI.
pub const TIMELINE_CAP: usize = 300;

/// The running tally of a session: battles started, the last recognition
/// with an id, and the most recent events.
pub struct Tally<T> {
    battles: usize,
    last_reco: i64,
    recent: VecDeque<T>,
}

/// An action of the `AttackStart` node starts a battle.
pub open spec fn starts_battle(kind: EventKind, node: Seq<char>) -> bool {
    kind == EventKind::Action && node == "AttackStart"@
}

/// A tally's state (battles, last recognition id, recent events) after one
/// more event.
pub open spec fn observed<T>(st: (nat, i64, Seq<T>), kind: EventKind, node: Seq<char>, reco_id: i64, event: T) -> (
    nat,
    i64,
    Seq<T>,
) {
    let grown = st.2.push(event);
    (
        st.0 + if starts_battle(kind, node) {
            1nat
        } else {
            0nat
        },
        if kind == EventKind::Recognition && reco_id > 0 {
            reco_id
        } else {
            st.1
        },
        if grown.len() > TIMELINE_CAP {
            grown.drop_first()
        } else {
            grown
        },
    )
}

/// A tally's state after the events, in order.
pub open spec fn observed_all<T>(st: (nat, i64, Seq<T>), evs: Seq<(EventKind, Seq<char>, i64, T)>) -> (
    nat,
    i64,
    Seq<T>,
)
    decreases evs.len(),
{
    if evs.len() == 0 {
        st
    } else {
        let e = evs.last();
        observed(observed_all(st, evs.drop_last()), e.0, e.1, e.2, e.3)
    }
}

/// Only an action of the `AttackStart` node starts a battle: any other
/// node (such as `AttackLoop`, run on every loop) and any recognition leave
/// the battle count alone.
pub proof fn lemma_battles_start_only_at_attack_start<T>(
    st: (nat, i64, Seq<T>),
    kind: EventKind,
    node: Seq<char>,
    reco_id: i64,
    event: T,
)
    ensures
        observed(st, kind, node, reco_id, event).0 == st.0 + 1 <==> (kind == EventKind::Action && node
            == "AttackStart"@),
        observed(st, kind, node, reco_id, event).0 == st.0 <==> !(kind == EventKind::Action && node
            == "AttackStart"@),
{
}

impl<T> Tally<T> {
    pub closed spec fn battle_count(&self) -> nat {
        self.battles as nat
    }

    pub closed spec fn last_recognition(&self) -> i64 {
        self.last_reco
    }

    pub closed spec fn recent_view(&self) -> Seq<T> {
        self.recent@
    }

    pub open spec fn well_formed(&self) -> bool {
        self.recent_view().len() <= TIMELINE_CAP
    }

    pub fn new() -> (t: Tally<T>)
        ensures
            t.well_formed(),
            t.battle_count() == 0,
            t.last_recognition() == 0,
            t.recent_view() == Seq::<T>::empty(),
    {
        Tally { battles: 0, last_reco: 0, recent: VecDeque::new() }
    }

    /// A new run starts with an empty timeline.
    pub fn clear_recent(&mut self)
        ensures
            final(self).well_formed(),
            final(self).recent_view() == Seq::<T>::empty(),
            final(self).battle_count() == old(self).battle_count(),
            final(self).last_recognition() == old(self).last_recognition(),
    {
        self.recent.clear();
    }

    /// Account for one event: count a battle start, remember a recognition's
    /// id, and keep the event among the most recent ones.
    pub fn observe(&mut self, kind: EventKind, node: &str, reco_id: i64, event: T)
        requires
            old(self).well_formed(),
            old(self).battle_count() < usize::MAX,
        ensures
            final(self).well_formed(),
            final(self).battle_count() == old(self).battle_count() + if starts_battle(kind, node@) {
                1int
            } else {
                0int
            },
            final(self).battle_count() == old(self).battle_count() + 1 <==> (kind == EventKind::Action
                && node@ == "AttackStart"@),
            final(self).battle_count() == old(self).battle_count() <==> !(kind == EventKind::Action
                && node@ == "AttackStart"@),
            final(self).last_recognition() == if kind == EventKind::Recognition && reco_id > 0 {
                reco_id
            } else {
                old(self).last_recognition()
            },
            ({
                let grown = old(self).recent_view().push(event);
                final(self).recent_view() == if grown.len() > TIMELINE_CAP {
                    grown.drop_first()
                } else {
                    grown
                }
            }),
    {
        proof {
            reveal_strlit("AttackStart");
        }
        if kind == EventKind::Action && str_eq(node, "AttackStart") {
            self.battles = self.battles + 1;
        }
        if kind == EventKind::Recognition && reco_id > 0 {
            self.last_reco = reco_id;
        }
        self.recent.push_back(event);
        if self.recent.len() > TIMELINE_CAP {
            self.recent.pop_front();
        }
    }

    pub open spec fn state(&self) -> (nat, i64, Seq<T>) {
        (self.battle_count(), self.last_recognition(), self.recent_view())
    }

    /// Account for a batch of events (kind, node, recognition id, event), in
    /// order.
    pub fn observe_all(&mut self, events: Vec<(EventKind, String, i64, T)>)
        requires
            old(self).well_formed(),
            old(self).battle_count() + events@.len() <= usize::MAX,
        ensures
            final(self).well_formed(),
            final(self).state() == observed_all(
                old(self).state(),
                events@.map_values(|e: (EventKind, String, i64, T)| (e.0, e.1@, e.2, e.3)),
            ),
    {
        let ghost all = events@.map_values(|e: (EventKind, String, i64, T)| (e.0, e.1@, e.2, e.3));
        let ghost n = all.len();
        let ghost st0 = self.state();
        let mut rest = events;
        let mut i: usize = 0;
        proof {
            assert(all.subrange(0, 0) =~= Seq::<(EventKind, Seq<char>, i64, T)>::empty());
            assert(rest@.map_values(|e: (EventKind, String, i64, T)| (e.0, e.1@, e.2, e.3)) =~= all.subrange(0, n as int));
        }
        while rest.len() > 0
            invariant
                self.well_formed(),
                0 <= i <= n,
                all.len() == n,
                rest@.len() == n - i,
                rest@.map_values(|e: (EventKind, String, i64, T)| (e.0, e.1@, e.2, e.3)) == all.subrange(i as int, n as int),
                self.state() == observed_all(st0, all.subrange(0, i as int)),
                self.battle_count() <= st0.0 + i,
                st0.0 + n <= usize::MAX,
            decreases rest@.len(),
        {
            let ghost rv = rest@;
            let e = rest.remove(0);
            proof {
                assert(rv.map_values(|e: (EventKind, String, i64, T)| (e.0, e.1@, e.2, e.3))[0] == all[i as int]);
                assert(rest@ =~= rv.remove(0));
                let f = |e: (EventKind, String, i64, T)| (e.0, e.1@, e.2, e.3);
                assert forall|k: int| 0 <= k < rest@.len() implies #[trigger] rest@.map_values(f)[k] == all.subrange(
                    i + 1,
                    n as int,
                )[k] by {
                    assert(rest@[k] == rv[k + 1]);
                    assert(rv.map_values(f)[k + 1] == all.subrange(i as int, n as int)[k + 1]);
                }
                assert(rest@.map_values(f) =~= all.subrange(i + 1, n as int));
                assert(all.subrange(0, i + 1).drop_last() =~= all.subrange(0, i as int));
                assert(all.subrange(0, i + 1).last() == all[i as int]);
            }
            let (kind, node, reco_id, event) = e;
            self.observe(kind, node.as_str(), reco_id, event);
            i = i + 1;
        }
        proof {
            assert(all.subrange(0, n as int) =~= all);
        }
    }

    pub fn battles(&self) -> (n: usize)
        ensures
            n == self.battle_count(),
    {
        self.battles
    }

    pub fn last_reco(&self) -> (id: i64)
        ensures
            id == self.last_recognition(),
    {
        self.last_reco
    }

    /// The newest event, if any.
    pub fn latest(&self) -> (e: Option<&T>)
        ensures
            self.recent_view().len() == 0 ==> e is None,
            self.recent_view().len() > 0 ==> e == Some(&self.recent_view().last()),
    {
        let n = self.recent.len();
        if n == 0 {
            None
        } else {
            Some(&self.recent[n - 1])
        }
    }
}

} // verus!
