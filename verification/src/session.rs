//! The session reconciler. On every polling tick the host enumerates
//! devices and hands the list in; the session replaces its list when the
//! sequence differs by value, resets an out-of-range selection, and
//! invalidates the last-processed marker so that resolution re-runs
//! exactly when the list or the selection changed, and never otherwise.

use vstd::prelude::*;

use crate::config::{spec_resolve, ConfigEntryView, ConfigTable};
use crate::normalize::{norm_tokens, normalize};
use crate::tokens::{bytes_eq, copy_bytes, seqs_of, spec_tokens};

verus! {

/// The out-of-range marker meaning "no selection processed yet".
pub open spec fn sentinel() -> nat {
    usize::MAX as nat
}

/// The resolution applied for the currently selected device: the label
/// of the matched entry (or empty), the raw argument text applied (or
/// empty), and the normalized argument tokens (absent when none
/// survive).
pub struct ResolvedSelection {
    pub device_type: Vec<u8>,
    pub applied_config: Vec<u8>,
    pub args: Option<Vec<Vec<u8>>>,
}

pub ghost struct ResolvedView {
    pub device_type: Seq<u8>,
    pub applied_config: Seq<u8>,
    pub args: Option<Seq<Seq<u8>>>,
}

impl View for ResolvedSelection {
    type V = ResolvedView;

    open spec fn view(&self) -> ResolvedView {
        ResolvedView {
            device_type: self.device_type@,
            applied_config: self.applied_config@,
            args: match self.args {
                Some(v) => Some(seqs_of(v@)),
                None => None,
            },
        }
    }
}

/// The empty resolution, before any device was processed.
pub open spec fn spec_no_resolution() -> ResolvedView {
    ResolvedView {
        device_type: Seq::empty(),
        applied_config: Seq::empty(),
        args: None,
    }
}

/// The argument tokens normalization leaves of `raw`, absent when none
/// survive.
pub open spec fn spec_norm_args(raw: Seq<u8>) -> Option<Seq<Seq<u8>>> {
    let ns = norm_tokens(spec_tokens(raw));
    if ns.len() == 0 {
        None
    } else {
        Some(ns)
    }
}

/// The resolution a device type yields against a table: the matched
/// entry's label and raw arguments with their normalized tokens, or the
/// empty resolution when neither the type nor the sentinel key matches.
pub open spec fn spec_resolution(es: Seq<ConfigEntryView>, device_type: Seq<u8>) -> ResolvedView {
    match spec_resolve(es, device_type) {
        Some(e) => ResolvedView {
            device_type: e.label,
            applied_config: e.raw_args,
            args: spec_norm_args(e.raw_args),
        },
        None => spec_no_resolution(),
    }
}

pub ghost struct SessionView {
    pub devices: Seq<Seq<u8>>,
    pub selected: nat,
    pub last_processed: nat,
    pub resolved: ResolvedView,
}

/// A selection in range whenever any device is attached.
pub open spec fn session_wf(s: SessionView) -> bool {
    s.devices.len() > 0 ==> s.selected < s.devices.len()
}

/// The state at startup: no devices, nothing processed.
pub open spec fn spec_initial() -> SessionView {
    SessionView {
        devices: Seq::empty(),
        selected: 0,
        last_processed: sentinel(),
        resolved: spec_no_resolution(),
    }
}

/// Tick step one: replace the device list when the enumerated sequence
/// differs by value, resetting an out-of-range selection to zero and
/// invalidating the last-processed marker; an identical sequence leaves
/// the state untouched.
pub open spec fn spec_apply_enumeration(s: SessionView, devs: Seq<Seq<u8>>) -> SessionView {
    if devs == s.devices {
        s
    } else {
        SessionView {
            devices: devs,
            selected: if s.selected < devs.len() {
                s.selected
            } else {
                0
            },
            last_processed: sentinel(),
            resolved: s.resolved,
        }
    }
}

/// Tick step two's guard: resolution work is due exactly when a device
/// is attached and the selection is not the one last processed.
pub open spec fn spec_needs_resolution(s: SessionView) -> bool {
    s.devices.len() > 0 && s.selected != s.last_processed
}

/// Tick step two: record the selection as processed and store the
/// resolution of the queried device type; a no-op without devices.
pub open spec fn spec_apply_resolution(
    s: SessionView,
    es: Seq<ConfigEntryView>,
    device_type: Seq<u8>,
) -> SessionView {
    if s.devices.len() == 0 {
        s
    } else {
        SessionView {
            devices: s.devices,
            selected: s.selected,
            last_processed: s.selected,
            resolved: spec_resolution(es, device_type),
        }
    }
}

/// The session owned by the tick handler: the current device list, the
/// selected index, the last-processed marker and the applied resolution.
pub struct SessionState {
    pub devices: Vec<Vec<u8>>,
    pub selected: usize,
    pub last_processed: usize,
    pub resolved: ResolvedSelection,
}

impl View for SessionState {
    type V = SessionView;

    open spec fn view(&self) -> SessionView {
        SessionView {
            devices: seqs_of(self.devices@),
            selected: self.selected as nat,
            last_processed: self.last_processed as nat,
            resolved: self.resolved@,
        }
    }
}

/// Value equality of two device lists.
fn lists_equal(a: &Vec<Vec<u8>>, b: &Vec<Vec<u8>>) -> (r: bool)
    ensures
        r == (seqs_of(a@) == seqs_of(b@)),
{
    if a.len() != b.len() {
        proof {
            assert(seqs_of(a@).len() != seqs_of(b@).len());
        }
        return false;
    }
    let mut i: usize = 0;
    while i < a.len()
        invariant
            i <= a.len(),
            a.len() == b.len(),
            forall|k: int| 0 <= k < i ==> seqs_of(a@)[k] == seqs_of(b@)[k],
        decreases a.len() - i,
    {
        if !bytes_eq(a[i].as_slice(), b[i].as_slice()) {
            proof {
                assert(seqs_of(a@)[i as int] == a@[i as int]@);
                assert(seqs_of(b@)[i as int] == b@[i as int]@);
            }
            return false;
        }
        i = i + 1;
    }
    proof {
        assert(seqs_of(a@) =~= seqs_of(b@));
    }
    true
}

impl SessionState {
    pub fn new() -> (r: Self)
        ensures
            r@ == spec_initial(),
            session_wf(r@),
    {
        let r = SessionState {
            devices: Vec::new(),
            selected: 0,
            last_processed: usize::MAX,
            resolved: ResolvedSelection {
                device_type: Vec::new(),
                applied_config: Vec::new(),
                args: None,
            },
        };
        proof {
            assert(seqs_of(r.devices@) =~= Seq::<Seq<u8>>::empty());
            assert(r.resolved.device_type@ =~= Seq::<u8>::empty());
            assert(r.resolved.applied_config@ =~= Seq::<u8>::empty());
        }
        r
    }

    /// A user-driven selection change. The last-processed marker is left
    /// alone: the next tick sees the difference and re-resolves.
    pub fn select(&mut self, index: usize)
        requires
            index < old(self)@.devices.len(),
        ensures
            final(self)@ == (SessionView {
                selected: index as nat,
                ..old(self)@
            }),
            session_wf(final(self)@),
    {
        self.selected = index;
    }

    /// Tick step one, on the freshly enumerated device list.
    pub fn apply_enumeration(&mut self, new_devices: Vec<Vec<u8>>) -> (changed: bool)
        requires
            session_wf(old(self)@),
        ensures
            final(self)@ == spec_apply_enumeration(old(self)@, seqs_of(new_devices@)),
            changed == (seqs_of(new_devices@) != old(self)@.devices),
            session_wf(final(self)@),
    {
        if lists_equal(&self.devices, &new_devices) {
            false
        } else {
            self.devices = new_devices;
            if self.selected >= self.devices.len() {
                self.selected = 0;
            }
            self.last_processed = usize::MAX;
            true
        }
    }

    /// Tick step two's guard.
    pub fn needs_resolution(&self) -> (r: bool)
        ensures
            r == spec_needs_resolution(self@),
    {
        self.devices.len() > 0 && self.selected != self.last_processed
    }

    /// The identity of the selected device, if any is attached.
    pub fn selected_identity(&self) -> (r: Option<&Vec<u8>>)
        requires
            session_wf(self@),
        ensures
            match r {
                Option::None => self@.devices.len() == 0,
                Option::Some(v) => self@.devices.len() > 0 && v@ == self@.devices[
                    self@.selected as int
                ],
            },
    {
        if self.devices.len() == 0 {
            None
        } else {
            Some(&self.devices[self.selected])
        }
    }

    /// Tick step two, on the device type the host queried for the
    /// selected device and the loaded configuration table.
    pub fn apply_resolution(&mut self, device_type: &[u8], table: &ConfigTable)
        ensures
            final(self)@ == spec_apply_resolution(old(self)@, table@, device_type@),
            session_wf(old(self)@) ==> session_wf(final(self)@),
    {
        if self.devices.len() == 0 {
            return;
        }
        let resolved = match table.resolve(device_type) {
            Some(e) => {
                let label = copy_bytes(e.label.as_slice());
                let raw = copy_bytes(e.raw_args.as_slice());
                let args = normalize(raw.as_slice());
                ResolvedSelection { device_type: label, applied_config: raw, args }
            },
            None => {
                let r = ResolvedSelection {
                    device_type: Vec::new(),
                    applied_config: Vec::new(),
                    args: None,
                };
                proof {
                    assert(r.device_type@ =~= Seq::<u8>::empty());
                    assert(r.applied_config@ =~= Seq::<u8>::empty());
                }
                r
            },
        };
        self.resolved = resolved;
        self.last_processed = self.selected;
    }
}

/// If enumeration returns an identical sequence on the tick after a full
/// reconciliation, the second tick changes nothing and owes no
/// resolution call.
pub proof fn lemma_identical_enumeration_no_rework(
    s0: SessionView,
    devs: Seq<Seq<u8>>,
    es: Seq<ConfigEntryView>,
    dt: Seq<u8>,
)
    ensures
        ({
            let s1 = spec_apply_enumeration(s0, devs);
            let s2 = if spec_needs_resolution(s1) {
                spec_apply_resolution(s1, es, dt)
            } else {
                s1
            };
            let s3 = spec_apply_enumeration(s2, devs);
            &&& s3 == s2
            &&& !spec_needs_resolution(s3)
        }),
{
}

/// When enumeration shrinks the list below the selected index, the
/// selection resets to zero, exactly one resolution is due, and
/// performing it leaves none due.
pub proof fn lemma_shrunken_list_resolves_once(
    s0: SessionView,
    devs: Seq<Seq<u8>>,
    es: Seq<ConfigEntryView>,
    dt: Seq<u8>,
)
    requires
        devs != s0.devices,
        devs.len() > 0,
        s0.selected >= devs.len(),
    ensures
        ({
            let s1 = spec_apply_enumeration(s0, devs);
            let s2 = spec_apply_resolution(s1, es, dt);
            &&& s1.selected == 0
            &&& spec_needs_resolution(s1)
            &&& !spec_needs_resolution(s2)
            &&& s2.resolved == spec_resolution(es, dt)
        }),
{
    assert(usize::MAX as nat > 0);
}

/// The very first tick resolves as soon as any device is attached.
pub proof fn lemma_first_tick_resolves(devs: Seq<Seq<u8>>)
    requires
        devs.len() > 0,
    ensures
        spec_needs_resolution(spec_apply_enumeration(spec_initial(), devs)),
{
    assert(devs != spec_initial().devices);
    assert(usize::MAX as nat > 0);
}

} // verus!
