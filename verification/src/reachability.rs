//! Reachability tracking and scene activation decisions.
//!
//! A tracker keeps, per device, the last reachability value the bridge
//! reported and the time of its last flip. Each poll cycle feeds it a
//! device snapshot; the decision functions here then say which scenes are
//! freshly eligible, which schedule wins right now, and which groups
//! should be shut off. The functions only decide; no call to the bridge is
//! made here.

use crate::schedule::{linearize_schedules, spec_linearize};
use crate::time_range_parser::{
    first_active, spec_matches, spec_ranges, TimeRange, TimeRangeParser,
};
use vstd::prelude::*;
use vstd::string::StrSliceExecFns;

verus! {

pub use crate::schedule::ScheduledScene;

/// One device as the bridge last reported it.
pub struct LightSnapshot {
    pub id: String,
    pub name: String,
    pub reachable: bool,
    pub on: bool,
}

/// One scene as the bridge reports it: the group of devices it controls
/// and the label that may carry a time window.
pub struct SceneSnapshot {
    pub id: String,
    pub name: String,
    pub lights: Option<Vec<String>>,
}

/// The last known reachability of one device, and when it flipped. The
/// timestamp is unset for a device seen for the first time, and is
/// cleared again once a scene controlling the device has triggered.
#[derive(PartialEq, Eq, Structural, Clone, Copy, Debug)]
pub struct StateChange {
    pub timestamp: Option<u64>,
    pub reachable: bool,
}

/// The reachability tracker: last known state per device id.
pub struct LightStates {
    entries: Vec<(String, StateChange)>,
}

/// The entries as a map, latest entry winning.
spec fn map_of(entries: Seq<(String, StateChange)>) -> Map<Seq<char>, StateChange>
    decreases entries.len(),
{
    if entries.len() == 0 {
        Map::empty()
    } else {
        map_of(entries.drop_last()).insert(entries.last().0@, entries.last().1)
    }
}

impl LightStates {
    /// The tracker as a map from device id to its last known state.
    pub closed spec fn as_map(&self) -> Map<Seq<char>, StateChange> {
        map_of(self.entries@)
    }

    /// Each device id is recorded once.
    pub closed spec fn wf(&self) -> bool {
        forall|i: int, j: int|
            0 <= i < j < self.entries@.len() ==> (#[trigger] self.entries@[i]).0@
                != (#[trigger] self.entries@[j]).0@
    }

    pub fn new() -> (r: LightStates)
        ensures
            r.wf(),
            r.as_map() == Map::<Seq<char>, StateChange>::empty(),
    {
        LightStates { entries: Vec::new() }
    }

    pub fn is_empty(&self) -> (r: bool)
        ensures
            r == (self.as_map().dom() == Set::<Seq<char>>::empty()),
    {
        proof {
            if self.entries@.len() > 0 {
                assert(self.as_map().dom().contains(self.entries@.last().0@));
                assert(self.as_map().dom() != Set::<Seq<char>>::empty());
            } else {
                assert(self.as_map().dom() =~= Set::<Seq<char>>::empty());
            }
        }
        self.entries.len() == 0
    }

    /// The recorded state of the device with this id, if any.
    pub fn get(&self, id: &str) -> (r: Option<StateChange>)
        requires
            self.wf(),
        ensures
            match r {
                Some(st) => self.as_map().contains_key(id@) && st == self.as_map()[id@],
                None => !self.as_map().contains_key(id@),
            },
    {
        let n = self.entries.len();
        let mut k: usize = 0;
        while k < n
            invariant
                k <= n,
                n == self.entries@.len(),
                self.wf(),
                forall|j: int| 0 <= j < k ==> (#[trigger] self.entries@[j]).0@ != id@,
            decreases n - k,
        {
            if str_eq(self.entries[k].0.as_str(), id) {
                proof {
                    lemma_map_of_entry(self.entries@, k as int);
                }
                return Some(self.entries[k].1);
            }
            k = k + 1;
        }
        proof {
            lemma_map_of_no_key(self.entries@, id@);
        }
        None
    }

    /// Records the state of a device, replacing what was known of it.
    pub fn set_state(&mut self, id: &str, st: StateChange)
        requires
            old(self).wf(),
        ensures
            final (self).wf(),
            final (self).as_map() == old(self).as_map().insert(id@, st),
    {
        let n = self.entries.len();
        let mut k: usize = 0;
        while k < n
            invariant
                k <= n,
                n == self.entries@.len(),
                self.wf(),
                self.entries@ == old(self).entries@,
                forall|j: int| 0 <= j < k ==> (#[trigger] self.entries@[j]).0@ != id@,
            decreases n - k,
        {
            if str_eq(self.entries[k].0.as_str(), id) {
                let ghost prev = self.entries@;
                let fresh = id.to_owned();
                self.entries.remove(k);
                self.entries.insert(k, (fresh, st));
                proof {
                    assert(self.entries@ =~= prev.update(k as int, (fresh, st)));
                    lemma_map_of_update(prev, k as int, (fresh, st));
                    assert forall|i: int, j: int|
                        0 <= i < j < self.entries@.len() implies (#[trigger] self.entries@[i]).0@
                        != (#[trigger] self.entries@[j]).0@ by {
                        assert(prev[i].0@ != prev[j].0@);
                    }
                }
                return ;
            }
            k = k + 1;
        }
        let ghost prev = self.entries@;
        let fresh = id.to_owned();
        self.entries.push((fresh, st));
        proof {
            assert(self.entries@.drop_last() =~= prev);
            assert forall|i: int, j: int|
                0 <= i < j < self.entries@.len() implies (#[trigger] self.entries@[i]).0@
                != (#[trigger] self.entries@[j]).0@ by {
                if j < prev.len() {
                    assert(prev[i].0@ != prev[j].0@);
                }
            }
        }
    }
}

/// A name that marks its device as always on and never physically
/// switched: it ends in `"(att)"`, for attached.
pub open spec fn is_attached_name(name: Seq<char>) -> bool {
    name.len() >= 5 && name.subrange(name.len() - 5, name.len() as int) == seq![
        '(',
        'a',
        't',
        't',
        ')',
    ]
}

/// Whether a device is marked in its display name as always on, so that
/// reachability-based triggering ignores it.
pub fn is_attached_light(light: &LightSnapshot) -> (r: bool)
    ensures
        r == is_attached_name(light.name@),
{
    let name = light.name.as_str();
    let n: usize = name.unicode_len();
    if n < 5 {
        return false;
    }
    let r = name.get_char(n - 5) == '(' && name.get_char(n - 4) == 'a' && name.get_char(n - 3)
        == 't' && name.get_char(n - 2) == 't' && name.get_char(n - 1) == ')';
    proof {
        if r {
            assert(light.name@.subrange(n - 5, n as int) =~= seq!['(', 'a', 't', 't', ')']);
        } else {
            assert(light.name@.subrange(n - 5, n as int) != seq!['(', 'a', 't', 't', ')']);
        }
    }
    r
}

/// Whether some string in `v` holds the characters `id`.
pub open spec fn seq_contains_str(v: Seq<String>, id: Seq<char>) -> bool {
    exists|k: int| 0 <= k < v.len() && (#[trigger] v[k])@ == id
}

/// Whether `v` holds a string equal to `id`.
pub fn contains_str(v: &Vec<String>, id: &str) -> (r: bool)
    ensures
        r == seq_contains_str(v@, id@),
{
    let n = v.len();
    let mut k: usize = 0;
    while k < n
        invariant
            k <= n,
            n == v@.len(),
            forall|j: int| 0 <= j < k ==> (#[trigger] v@[j])@ != id@,
        decreases n - k,
    {
        if str_eq(v[k].as_str(), id) {
            return true;
        }
        k = k + 1;
    }
    false
}

/// A device the tracker should record anew: not marked as attached, and
/// either never seen before or flipped since its last record.
pub open spec fn spec_is_changed(m: Map<Seq<char>, StateChange>, light: LightSnapshot) -> bool {
    !is_attached_name(light.name@) && (!m.contains_key(light.id@) || m[light.id@].reachable
        != light.reachable)
}

/// A recorded state that can still trigger a scene: the device is
/// reachable and flipped within the trailing window before `now`,
/// measured from the flip itself.
pub open spec fn eligible(st: StateChange, now: u64, window: u64) -> bool {
    st.reachable && match st.timestamp {
        Some(t) => t <= now && now - t < window,
        None => false,
    }
}

/// A device that can still trigger a scene, by what the tracker holds.
pub open spec fn triggered(
    m: Map<Seq<char>, StateChange>,
    id: Seq<char>,
    now: u64,
    window: u64,
) -> bool {
    m.contains_key(id) && eligible(m[id], now, window)
}

/// The tracker after a first-ever snapshot: every listed device is
/// recorded with its reachability and no flip time.
pub open spec fn record_bootstrap(
    m: Map<Seq<char>, StateChange>,
    all: Seq<LightSnapshot>,
    idxs: Seq<usize>,
) -> Map<Seq<char>, StateChange>
    decreases idxs.len(),
{
    if idxs.len() == 0 {
        m
    } else {
        let light = all[idxs[0] as int];
        record_bootstrap(
            m.insert(
                light.id@,
                StateChange { timestamp: None, reachable: light.reachable },
            ),
            all,
            idxs.skip(1),
        )
    }
}

/// The tracker after recording flips at time `now` for every listed
/// device.
pub open spec fn record_flips_map(
    m: Map<Seq<char>, StateChange>,
    all: Seq<LightSnapshot>,
    idxs: Seq<usize>,
    now: u64,
) -> Map<Seq<char>, StateChange>
    decreases idxs.len(),
{
    if idxs.len() == 0 {
        m
    } else {
        let light = all[idxs[0] as int];
        record_flips_map(
            m.insert(
                light.id@,
                StateChange { timestamp: Some(now), reachable: light.reachable },
            ),
            all,
            idxs.skip(1),
            now,
        )
    }
}

/// The tracker after a scene triggered: each of the scene's devices is
/// set back to reachable with no flip time, so the same flip cannot
/// trigger again.
pub open spec fn clear_ids(m: Map<Seq<char>, StateChange>, ids: Seq<String>) -> Map<
    Seq<char>,
    StateChange,
>
    decreases ids.len(),
{
    if ids.len() == 0 {
        m
    } else {
        clear_ids(
            m.insert(ids[0]@, StateChange { timestamp: None, reachable: true }),
            ids.skip(1),
        )
    }
}

impl LightStates {
    /// The devices whose reachability the tracker must record anew:
    /// indices into the snapshot, in order, of every device that is not
    /// attached and whose reachability is new or flipped.
    pub fn changed_lights(&self, all: &Vec<LightSnapshot>) -> (r: Vec<usize>)
        requires
            self.wf(),
        ensures
            forall|a: int, b: int| 0 <= a < b < r@.len() ==> r@[a] < r@[b],
            forall|a: int|
                0 <= a < r@.len() ==> (#[trigger] r@[a]) < all@.len() && spec_is_changed(
                    self.as_map(),
                    all@[r@[a] as int],
                ),
            forall|x: int|
                0 <= x < all@.len() && spec_is_changed(self.as_map(), all@[x]) ==> r@.contains(
                    x as usize,
                ),
    {
        let n = all.len();
        let mut r: Vec<usize> = Vec::new();
        let mut i: usize = 0;
        while i < n
            invariant
                i <= n,
                n == all@.len(),
                self.wf(),
                forall|a: int, b: int| 0 <= a < b < r@.len() ==> r@[a] < r@[b],
                forall|a: int|
                    0 <= a < r@.len() ==> (#[trigger] r@[a]) < i && spec_is_changed(
                        self.as_map(),
                        all@[r@[a] as int],
                    ),
                forall|x: int|
                    0 <= x < i && spec_is_changed(self.as_map(), all@[x]) ==> r@.contains(
                        x as usize,
                    ),
            decreases n - i,
        {
            let light = &all[i];
            if !is_attached_light(light) {
                let changed = match self.get(light.id.as_str()) {
                    Some(st) => st.reachable != light.reachable,
                    None => true,
                };
                if changed {
                    let ghost prev = r@;
                    r.push(i);
                    proof {
                        assert forall|x: int|
                            0 <= x < i + 1 && spec_is_changed(
                                self.as_map(),
                                all@[x],
                            ) implies r@.contains(x as usize) by {
                            if x < i {
                                let a = choose|a: int|
                                    0 <= a < prev.len() && prev[a] == x as usize;
                                assert(r@[a] == x as usize);
                            } else {
                                assert(r@[r@.len() - 1] == x as usize);
                            }
                        }
                    }
                }
            }
            i = i + 1;
        }
        r
    }

    /// Records a first-ever snapshot: every changed device is stored with
    /// its reachability and no flip time, so nothing triggers from the
    /// bootstrap alone.
    pub fn initialize(&mut self, all: &Vec<LightSnapshot>, changed: &Vec<usize>)
        requires
            old(self).wf(),
            forall|a: int| 0 <= a < changed@.len() ==> (#[trigger] changed@[a]) < all@.len(),
        ensures
            final (self).wf(),
            final (self).as_map() == record_bootstrap(old(self).as_map(), all@, changed@),
    {
        let n = changed.len();
        let mut i: usize = 0;
        proof {
            assert(changed@.skip(0) =~= changed@);
        }
        while i < n
            invariant
                i <= n,
                n == changed@.len(),
                self.wf(),
                forall|a: int| 0 <= a < changed@.len() ==> (#[trigger] changed@[a]) < all@.len(),
                record_bootstrap(self.as_map(), all@, changed@.skip(i as int))
                    == record_bootstrap(old(self).as_map(), all@, changed@),
            decreases n - i,
        {
            proof {
                assert(changed@.skip(i as int)[0] == changed@[i as int]);
                assert(changed@.skip(i as int).skip(1) =~= changed@.skip(i + 1));
            }
            let idx = changed[i];
            let light = &all[idx];
            self.set_state(
                light.id.as_str(),
                StateChange { timestamp: None, reachable: light.reachable },
            );
            i = i + 1;
        }
        proof {
            assert(changed@.skip(n as int) =~= Seq::<usize>::empty());
        }
    }

    /// Records the flips of the changed devices at time `now`.
    pub fn record_flips(&mut self, all: &Vec<LightSnapshot>, changed: &Vec<usize>, now: u64)
        requires
            old(self).wf(),
            forall|a: int| 0 <= a < changed@.len() ==> (#[trigger] changed@[a]) < all@.len(),
        ensures
            final (self).wf(),
            final (self).as_map() == record_flips_map(old(self).as_map(), all@, changed@, now),
    {
        let n = changed.len();
        let mut i: usize = 0;
        proof {
            assert(changed@.skip(0) =~= changed@);
        }
        while i < n
            invariant
                i <= n,
                n == changed@.len(),
                self.wf(),
                forall|a: int| 0 <= a < changed@.len() ==> (#[trigger] changed@[a]) < all@.len(),
                record_flips_map(self.as_map(), all@, changed@.skip(i as int), now)
                    == record_flips_map(old(self).as_map(), all@, changed@, now),
            decreases n - i,
        {
            proof {
                assert(changed@.skip(i as int)[0] == changed@[i as int]);
                assert(changed@.skip(i as int).skip(1) =~= changed@.skip(i + 1));
            }
            let idx = changed[i];
            let light = &all[idx];
            self.set_state(
                light.id.as_str(),
                StateChange { timestamp: Some(now), reachable: light.reachable },
            );
            i = i + 1;
        }
        proof {
            assert(changed@.skip(n as int) =~= Seq::<usize>::empty());
        }
    }

    /// Clears the flip time of each of a scene's devices once the scene
    /// has triggered, so the same flips cannot trigger it or another
    /// scene again.
    pub fn clear_scene_timestamps(&mut self, scene_lights: &Vec<String>)
        requires
            old(self).wf(),
        ensures
            final (self).wf(),
            final (self).as_map() == clear_ids(old(self).as_map(), scene_lights@),
    {
        let n = scene_lights.len();
        let mut i: usize = 0;
        proof {
            assert(scene_lights@.skip(0) =~= scene_lights@);
        }
        while i < n
            invariant
                i <= n,
                n == scene_lights@.len(),
                self.wf(),
                clear_ids(self.as_map(), scene_lights@.skip(i as int)) == clear_ids(
                    old(self).as_map(),
                    scene_lights@,
                ),
            decreases n - i,
        {
            proof {
                assert(scene_lights@.skip(i as int)[0] == scene_lights@[i as int]);
                assert(scene_lights@.skip(i as int).skip(1) =~= scene_lights@.skip(i + 1));
            }
            self.set_state(
                scene_lights[i].as_str(),
                StateChange { timestamp: None, reachable: true },
            );
            i = i + 1;
        }
        proof {
            assert(scene_lights@.skip(n as int) =~= Seq::<String>::empty());
        }
    }

    /// The ids of the devices whose last flip can still trigger a scene
    /// at time `now`.
    pub fn trigger_lights(&self, now: u64, window: u64) -> (r: Vec<String>)
        requires
            self.wf(),
        ensures
            forall|k: int|
                0 <= k < r@.len() ==> triggered(self.as_map(), (#[trigger] r@[k])@, now, window),
            forall|id: Seq<char>|
                triggered(self.as_map(), id, now, window) ==> seq_contains_str(r@, id),
    {
        let n = self.entries.len();
        let mut r: Vec<String> = Vec::new();
        let mut k: usize = 0;
        while k < n
            invariant
                k <= n,
                n == self.entries@.len(),
                self.wf(),
                forall|j: int|
                    0 <= j < r@.len() ==> triggered(
                        self.as_map(),
                        (#[trigger] r@[j])@,
                        now,
                        window,
                    ),
                forall|j: int|
                    0 <= j < k && eligible((#[trigger] self.entries@[j]).1, now, window)
                        ==> seq_contains_str(r@, self.entries@[j].0@),
            decreases n - k,
        {
            let st = self.entries[k].1;
            let ok = st.reachable && match st.timestamp {
                Some(t) => t <= now && now - t < window,
                None => false,
            };
            if ok {
                let ghost prev = r@;
                proof {
                    lemma_map_of_entry(self.entries@, k as int);
                }
                r.push(self.entries[k].0.clone());
                proof {
                    assert(r@[r@.len() - 1]@ == self.entries@[k as int].0@);
                    assert forall|j: int|
                        0 <= j < k + 1 && eligible(
                            (#[trigger] self.entries@[j]).1,
                            now,
                            window,
                        ) implies seq_contains_str(r@, self.entries@[j].0@) by {
                        if j < k {
                            let w = choose|w: int|
                                0 <= w < prev.len() && (#[trigger] prev[w])@
                                    == self.entries@[j].0@;
                            assert(r@[w]@ == self.entries@[j].0@);
                        } else {
                            assert(r@[r@.len() - 1]@ == self.entries@[j].0@);
                        }
                    }
                }
            }
            k = k + 1;
        }
        proof {
            assert forall|id: Seq<char>|
                triggered(self.as_map(), id, now, window) implies seq_contains_str(r@, id) by {
                lemma_map_of_key_entry(self.entries@, id);
                let j = choose|j: int|
                    0 <= j < self.entries@.len() && (#[trigger] self.entries@[j]).0@ == id;
                lemma_map_of_entry(self.entries@, j);
            }
        }
        r
    }
}

/// A scene is freshly eligible when every device it controls is either
/// marked as attached or flipped to reachable within the window.
pub open spec fn spec_scene_eligible(
    lights: Seq<String>,
    ignored: Seq<String>,
    triggers: Seq<String>,
) -> bool {
    forall|k: int|
        0 <= k < lights.len() ==> seq_contains_str(ignored, (#[trigger] lights[k])@)
            || seq_contains_str(triggers, lights[k]@)
}

/// Whether every device of a scene is attached or among the devices
/// whose flip can still trigger.
pub fn scene_should_trigger(
    scene_lights: &Vec<String>,
    ignored: &Vec<String>,
    triggers: &Vec<String>,
) -> (r: bool)
    ensures
        r == spec_scene_eligible(scene_lights@, ignored@, triggers@),
{
    let n = scene_lights.len();
    let mut k: usize = 0;
    while k < n
        invariant
            k <= n,
            n == scene_lights@.len(),
            forall|j: int|
                0 <= j < k ==> seq_contains_str(ignored@, (#[trigger] scene_lights@[j])@)
                    || seq_contains_str(triggers@, scene_lights@[j]@),
        decreases n - k,
    {
        let id = &scene_lights[k];
        if !contains_str(ignored, id.as_str()) && !contains_str(triggers, id.as_str()) {
            return false;
        }
        k = k + 1;
    }
    true
}

/// The names' ids of the devices marked as attached, in snapshot order.
pub open spec fn attached_ids(lights: Seq<LightSnapshot>) -> Seq<Seq<char>>
    decreases lights.len(),
{
    if lights.len() == 0 {
        Seq::empty()
    } else {
        let rest = attached_ids(lights.drop_last());
        if is_attached_name(lights.last().name@) {
            rest.push(lights.last().id@)
        } else {
            rest
        }
    }
}

/// The ids of every device marked in its name as attached / always on.
pub fn ignored_light_ids(all: &Vec<LightSnapshot>) -> (r: Vec<String>)
    ensures
        r@.map_values(|s: String| s@) == attached_ids(all@),
{
    let n = all.len();
    let mut r: Vec<String> = Vec::new();
    let mut i: usize = 0;
    proof {
        assert(r@.map_values(|s: String| s@) =~= attached_ids(all@.take(0)));
    }
    while i < n
        invariant
            i <= n,
            n == all@.len(),
            r@.map_values(|s: String| s@) == attached_ids(all@.take(i as int)),
        decreases n - i,
    {
        proof {
            assert(all@.take(i + 1).drop_last() =~= all@.take(i as int));
            assert(all@.take(i + 1).last() == all@[i as int]);
        }
        if is_attached_light(&all[i]) {
            let ghost prev = r@;
            r.push(all[i].id.clone());
            proof {
                assert(r@.map_values(|s: String| s@) =~= prev.map_values(|s: String| s@).push(
                    all@[i as int].id@,
                ));
            }
        }
        i = i + 1;
    }
    proof {
        assert(all@.take(n as int) =~= all@);
    }
    r
}

/// The first device in the snapshot that carries this id.
pub open spec fn find_light(lights: Seq<LightSnapshot>, id: Seq<char>) -> Option<LightSnapshot>
    decreases lights.len(),
{
    if lights.len() == 0 {
        None
    } else if lights[0].id@ == id {
        Some(lights[0])
    } else {
        find_light(lights.skip(1), id)
    }
}

/// Whether the device with this id was last reported on; a device absent
/// from the snapshot counts as off.
pub open spec fn light_on(lights: Seq<LightSnapshot>, id: Seq<char>) -> bool {
    match find_light(lights, id) {
        Some(l) => l.on,
        None => false,
    }
}

proof fn lemma_find_light_at(lights: Seq<LightSnapshot>, i: int)
    requires
        0 <= i < lights.len(),
        forall|j: int| 0 <= j < i ==> (#[trigger] lights[j]).id@ != lights[i].id@,
    ensures
        find_light(lights, lights[i].id@) == Some(lights[i]),
    decreases i,
{
    if i > 0 {
        assert(forall|j: int|
            0 <= j < i - 1 ==> (#[trigger] lights.skip(1)[j]) == lights[j + 1]);
        lemma_find_light_at(lights.skip(1), i - 1);
    }
}

proof fn lemma_find_light_none(lights: Seq<LightSnapshot>, id: Seq<char>)
    requires
        forall|j: int| 0 <= j < lights.len() ==> (#[trigger] lights[j]).id@ != id,
    ensures
        find_light(lights, id) == None::<LightSnapshot>,
    decreases lights.len(),
{
    if lights.len() > 0 {
        assert(forall|j: int|
            0 <= j < lights.len() - 1 ==> (#[trigger] lights.skip(1)[j]) == lights[j + 1]);
        lemma_find_light_none(lights.skip(1), id);
    }
}

/// Whether the first device carrying this id was last reported on.
fn light_is_on(all: &Vec<LightSnapshot>, id: &str) -> (r: bool)
    ensures
        r == light_on(all@, id@),
{
    let n = all.len();
    let mut i: usize = 0;
    while i < n
        invariant
            i <= n,
            n == all@.len(),
            forall|j: int| 0 <= j < i ==> (#[trigger] all@[j]).id@ != id@,
        decreases n - i,
    {
        if str_eq(all[i].id.as_str(), id) {
            proof {
                lemma_find_light_at(all@, i as int);
            }
            return all[i].on;
        }
        i = i + 1;
    }
    proof {
        lemma_find_light_none(all@, id@);
    }
    false
}

/// A whole group should be shut off when some of its devices is still
/// reported on, yet every device not marked as attached is unreachable:
/// then a physical switch has cut power to everything, and the attached
/// devices are commanded off with the rest.
pub open spec fn spec_group_off(
    group_lights: Seq<String>,
    all: Seq<LightSnapshot>,
    m: Map<Seq<char>, StateChange>,
    ignored: Seq<String>,
) -> bool {
    &&& exists|k: int| 0 <= k < group_lights.len() && light_on(all, (#[trigger] group_lights[k])@)
    &&& forall|k: int|
        0 <= k < group_lights.len() ==> seq_contains_str(ignored, (#[trigger] group_lights[k])@)
            || (m.contains_key(group_lights[k]@) && !m[group_lights[k]@].reachable)
}

/// Decides whether a group must be commanded off as a whole.
pub fn group_should_turn_off(
    group_lights: &Vec<String>,
    all: &Vec<LightSnapshot>,
    states: &LightStates,
    ignored: &Vec<String>,
) -> (r: bool)
    requires
        states.wf(),
    ensures
        r == spec_group_off(group_lights@, all@, states.as_map(), ignored@),
{
    let n = group_lights.len();
    let mut some_on: bool = false;
    let mut k: usize = 0;
    while k < n
        invariant
            k <= n,
            n == group_lights@.len(),
            some_on == exists|j: int|
                0 <= j < k && light_on(all@, (#[trigger] group_lights@[j])@),
        decreases n - k,
    {
        if !some_on && light_is_on(all, group_lights[k].as_str()) {
            some_on = true;
        }
        k = k + 1;
    }
    if !some_on {
        return false;
    }
    let mut k: usize = 0;
    while k < n
        invariant
            k <= n,
            n == group_lights@.len(),
            states.wf(),
            forall|j: int|
                0 <= j < k ==> seq_contains_str(ignored@, (#[trigger] group_lights@[j])@) || (
                states.as_map().contains_key(group_lights@[j]@)
                    && !states.as_map()[group_lights@[j]@].reachable),
        decreases n - k,
    {
        let id = &group_lights[k];
        if !contains_str(ignored, id.as_str()) {
            let off = match states.get(id.as_str()) {
                Some(st) => !st.reachable,
                None => false,
            };
            if !off {
                return false;
            }
        }
        k = k + 1;
    }
    true
}

/// The ids a scene controls, as sequences of characters.
pub open spec fn ids_view(ls: Seq<String>) -> Seq<Seq<char>> {
    ls.map_values(|s: String| s@)
}

pub open spec fn light_set_v(ids: Seq<Seq<char>>) -> Set<Seq<char>> {
    Set::new(|id: Seq<char>| exists|k: int| 0 <= k < ids.len() && ids[k] == id)
}

/// The set of device ids a scene controls: the canonical key that tells
/// whether two scenes address the same physical target.
pub open spec fn light_set(ls: Seq<String>) -> Set<Seq<char>> {
    light_set_v(ids_view(ls))
}

/// The first accumulated entry addressing the same device set.
pub open spec fn find_same_target(
    acc: Seq<(Seq<Seq<char>>, ScheduledScene)>,
    key: Set<Seq<char>>,
) -> Option<int>
    decreases acc.len(),
{
    if acc.len() == 0 {
        None
    } else if light_set_v(acc[0].0) == key {
        Some(0)
    } else {
        match find_same_target(acc.skip(1), key) {
            None => None,
            Some(i) => Some(i + 1),
        }
    }
}

proof fn lemma_find_same_target_at(
    acc: Seq<(Seq<Seq<char>>, ScheduledScene)>,
    key: Set<Seq<char>>,
    k: int,
)
    requires
        0 <= k < acc.len(),
        light_set_v(acc[k].0) == key,
        forall|j: int| 0 <= j < k ==> light_set_v((#[trigger] acc[j]).0) != key,
    ensures
        find_same_target(acc, key) == Some(k),
    decreases k,
{
    if k > 0 {
        assert(forall|j: int| 0 <= j < k - 1 ==> (#[trigger] acc.skip(1)[j]) == acc[j + 1]);
        lemma_find_same_target_at(acc.skip(1), key, k - 1);
    }
}

proof fn lemma_find_same_target_none(
    acc: Seq<(Seq<Seq<char>>, ScheduledScene)>,
    key: Set<Seq<char>>,
)
    requires
        forall|j: int| 0 <= j < acc.len() ==> light_set_v((#[trigger] acc[j]).0) != key,
    ensures
        find_same_target(acc, key) == None::<int>,
    decreases acc.len(),
{
    if acc.len() > 0 {
        assert(forall|j: int|
            0 <= j < acc.len() - 1 ==> (#[trigger] acc.skip(1)[j]) == acc[j + 1]);
        lemma_find_same_target_none(acc.skip(1), key);
    }
}

/// One scene considered: it contributes an entry when one of its ranges
/// covers `now` and it lists its devices. Of two scenes addressing the
/// same device set, the one whose window starts later wins.
pub open spec fn sched_step(
    vars: Seq<(Seq<char>, u32)>,
    now: u32,
    acc: Seq<(Seq<Seq<char>>, ScheduledScene)>,
    scene: SceneSnapshot,
) -> Seq<(Seq<Seq<char>>, ScheduledScene)> {
    match first_active(spec_ranges(vars, scene.name@), now) {
        None => acc,
        Some(range) => match scene.lights {
            None => acc,
            Some(ls) => {
                let entry = ScheduledScene {
                    scene_id: scene.id,
                    start: range.0,
                    end: range.1,
                };
                match find_same_target(acc, light_set(ls@)) {
                    None => acc.push((ids_view(ls@), entry)),
                    Some(k) => if acc[k].1.start > range.0 {
                        acc
                    } else {
                        acc.update(k, (ids_view(ls@), entry))
                    },
                }
            },
        },
    }
}

pub open spec fn sched_fold(
    vars: Seq<(Seq<char>, u32)>,
    now: u32,
    acc: Seq<(Seq<Seq<char>>, ScheduledScene)>,
    scenes: Seq<SceneSnapshot>,
) -> Seq<(Seq<Seq<char>>, ScheduledScene)>
    decreases scenes.len(),
{
    if scenes.len() == 0 {
        acc
    } else {
        sched_fold(vars, now, sched_step(vars, now, acc, scenes[0]), scenes.skip(1))
    }
}

/// The scheduled scenes active at minute-of-day `now`: at most one per
/// distinct set of controlled devices, each with the window that made it
/// win.
pub open spec fn spec_scheduled_scenes(
    vars: Seq<(Seq<char>, u32)>,
    scenes: Seq<SceneSnapshot>,
    now: u32,
) -> Seq<ScheduledScene> {
    sched_fold(vars, now, Seq::empty(), scenes).map_values(
        |p: (Seq<Seq<char>>, ScheduledScene)| p.1,
    )
}

/// A copy of a list of ids.
fn clone_strings(v: &Vec<String>) -> (r: Vec<String>)
    ensures
        r@ == v@,
{
    let n = v.len();
    let mut r: Vec<String> = Vec::new();
    let mut i: usize = 0;
    while i < n
        invariant
            i <= n,
            n == v@.len(),
            r@ == v@.take(i as int),
        decreases n - i,
    {
        r.push(v[i].clone());
        proof {
            assert(v@.take(i + 1) =~= v@.take(i as int).push(v@[i as int]));
        }
        i = i + 1;
    }
    proof {
        assert(v@.take(n as int) =~= v@);
    }
    r
}

/// A device set holds exactly the ids the list names.
proof fn lemma_light_set_members(ls: Seq<String>)
    ensures
        forall|id: Seq<char>| light_set(ls).contains(id) <==> seq_contains_str(ls, id),
{
    assert forall|id: Seq<char>| light_set(ls).contains(id) <==> seq_contains_str(ls, id) by {
        if seq_contains_str(ls, id) {
            let k = choose|k: int| 0 <= k < ls.len() && (#[trigger] ls[k])@ == id;
            assert(ids_view(ls)[k] == id);
        }
        if light_set(ls).contains(id) {
            let k = choose|k: int| 0 <= k < ids_view(ls).len() && ids_view(ls)[k] == id;
            assert(ls[k]@ == id);
        }
    }
}

/// Whether two lists of device ids name the same set of devices.
fn same_light_set(a: &Vec<String>, b: &Vec<String>) -> (r: bool)
    ensures
        r == (light_set(a@) == light_set(b@)),
{
    let mut i: usize = 0;
    while i < a.len()
        invariant
            i <= a@.len(),
            forall|j: int| 0 <= j < i ==> seq_contains_str(b@, (#[trigger] a@[j])@),
        decreases a@.len() - i,
    {
        if !contains_str(b, a[i].as_str()) {
            proof {
                lemma_light_set_members(a@);
                lemma_light_set_members(b@);
                assert(seq_contains_str(a@, a@[i as int]@));
                assert(light_set(a@).contains(a@[i as int]@));
                assert(!light_set(b@).contains(a@[i as int]@));
            }
            return false;
        }
        i = i + 1;
    }
    let mut i: usize = 0;
    while i < b.len()
        invariant
            i <= b@.len(),
            forall|j: int| 0 <= j < a@.len() ==> seq_contains_str(b@, (#[trigger] a@[j])@),
            forall|j: int| 0 <= j < i ==> seq_contains_str(a@, (#[trigger] b@[j])@),
        decreases b@.len() - i,
    {
        if !contains_str(a, b[i].as_str()) {
            proof {
                lemma_light_set_members(a@);
                lemma_light_set_members(b@);
                assert(seq_contains_str(b@, b@[i as int]@));
                assert(light_set(b@).contains(b@[i as int]@));
                assert(!light_set(a@).contains(b@[i as int]@));
            }
            return false;
        }
        i = i + 1;
    }
    proof {
        lemma_light_set_members(a@);
        lemma_light_set_members(b@);
        assert forall|id: Seq<char>| light_set(a@).contains(id) implies light_set(b@).contains(
            id,
        ) by {
            let k = choose|k: int| 0 <= k < a@.len() && (#[trigger] a@[k])@ == id;
            assert(seq_contains_str(b@, a@[k]@));
        }
        assert forall|id: Seq<char>| light_set(b@).contains(id) implies light_set(a@).contains(
            id,
        ) by {
            let k = choose|k: int| 0 <= k < b@.len() && (#[trigger] b@[k])@ == id;
            assert(seq_contains_str(a@, b@[k]@));
        }
        assert(light_set(a@) =~= light_set(b@));
    }
    true
}

/// The first of the ranges that covers `now`, as the parser reads them.
fn first_matching_range(
    parser: &TimeRangeParser,
    ranges: &Vec<TimeRange>,
    now: u32,
) -> (r: Option<TimeRange>)
    ensures
        r == first_active(ranges@, now),
{
    let n = ranges.len();
    let mut j: usize = 0;
    proof {
        assert(ranges@.skip(0) =~= ranges@);
    }
    while j < n
        invariant
            j <= n,
            n == ranges@.len(),
            first_active(ranges@.skip(j as int), now) == first_active(ranges@, now),
        decreases n - j,
    {
        proof {
            assert(ranges@.skip(j as int)[0] == ranges@[j as int]);
            assert(ranges@.skip(j as int).skip(1) =~= ranges@.skip(j + 1));
        }
        if parser.matches_time_range(&ranges[j], now) {
            return Some(ranges[j]);
        }
        j = j + 1;
    }
    proof {
        assert(ranges@.skip(n as int) =~= Seq::<TimeRange>::empty());
    }
    None
}

/// The entries of the accumulator as they figure in contracts: each
/// holds the views of the ids it is keyed by.
pub open spec fn acc_view(acc: Seq<(Vec<String>, ScheduledScene)>) -> Seq<
    (Seq<Seq<char>>, ScheduledScene),
> {
    acc.map_values(|p: (Vec<String>, ScheduledScene)| (ids_view(p.0@), p.1))
}

/// The accumulated entry addressing the same device set, if any.
fn find_same_target_index(
    acc: &Vec<(Vec<String>, ScheduledScene)>,
    ls: &Vec<String>,
) -> (r: Option<usize>)
    ensures
        match r {
            None => find_same_target(acc_view(acc@), light_set(ls@)) == None::<int>,
            Some(k) => k < acc@.len() && find_same_target(acc_view(acc@), light_set(ls@))
                == Some(k as int),
        },
{
    let n = acc.len();
    let mut k: usize = 0;
    while k < n
        invariant
            k <= n,
            n == acc@.len(),
            forall|j: int| 0 <= j < k ==> light_set((#[trigger] acc@[j]).0@) != light_set(ls@),
        decreases n - k,
    {
        if same_light_set(&acc[k].0, ls) {
            proof {
                assert(acc_view(acc@)[k as int].0 == ids_view(acc@[k as int].0@));
                assert forall|j: int| 0 <= j < k implies light_set_v(
                    (#[trigger] acc_view(acc@)[j]).0,
                ) != light_set(ls@) by {
                    assert(acc_view(acc@)[j].0 == ids_view(acc@[j].0@));
                }
                lemma_find_same_target_at(acc_view(acc@), light_set(ls@), k as int);
            }
            return Some(k);
        }
        k = k + 1;
    }
    proof {
        assert forall|j: int| 0 <= j < acc_view(acc@).len() implies light_set_v(
            (#[trigger] acc_view(acc@)[j]).0,
        ) != light_set(ls@) by {
            assert(acc_view(acc@)[j].0 == ids_view(acc@[j].0@));
        }
        lemma_find_same_target_none(acc_view(acc@), light_set(ls@));
    }
    None
}

/// The scenes scheduled for minute-of-day `now`: every scene whose label
/// names a range covering `now`, with at most one winner per distinct
/// set of controlled devices — the one whose window starts latest, later
/// scenes winning ties.
pub fn get_scheduled_scenes(
    parser: &TimeRangeParser,
    scenes: &Vec<SceneSnapshot>,
    now: u32,
) -> (r: Vec<ScheduledScene>)
    ensures
        r@ == spec_scheduled_scenes(parser.vars(), scenes@, now),
{
    let ghost vars = parser.vars();
    let n = scenes.len();
    let mut acc: Vec<(Vec<String>, ScheduledScene)> = Vec::new();
    let mut i: usize = 0;
    proof {
        assert(scenes@.skip(0) =~= scenes@);
        assert(acc_view(acc@) =~= Seq::<(Seq<Seq<char>>, ScheduledScene)>::empty());
    }
    while i < n
        invariant
            i <= n,
            n == scenes@.len(),
            vars == parser.vars(),
            sched_fold(vars, now, acc_view(acc@), scenes@.skip(i as int)) == sched_fold(
                vars,
                now,
                Seq::empty(),
                scenes@,
            ),
        decreases n - i,
    {
        let ghost stepped = sched_step(vars, now, acc_view(acc@), scenes@[i as int]);
        proof {
            assert(scenes@.skip(i as int)[0] == scenes@[i as int]);
            assert(scenes@.skip(i as int).skip(1) =~= scenes@.skip(i + 1));
        }
        let scene = &scenes[i];
        let ranges = parser.extract_time_ranges(scene.name.as_str());
        match first_matching_range(parser, &ranges, now) {
            None => {},
            Some(range) => {
                match &scene.lights {
                    None => {},
                    Some(ls) => {
                        let entry = ScheduledScene {
                            scene_id: scene.id.clone(),
                            start: range.0,
                            end: range.1,
                        };
                        match find_same_target_index(&acc, ls) {
                            None => {
                                let ghost prev = acc@;
                                acc.push((clone_strings(ls), entry));
                                proof {
                                    assert(acc@.drop_last() =~= prev);
                                    assert(acc_view(acc@) =~= stepped);
                                }
                            },
                            Some(k) => {
                                proof {
                                    assert(acc_view(acc@)[k as int].1 == acc@[k as int].1);
                                }
                                if acc[k].1.start > range.0 {
                                    // the earlier winner starts later and stays
                                } else {
                                    let ghost prev = acc@;
                                    acc.remove(k);
                                    acc.insert(k, (clone_strings(ls), entry));
                                    proof {
                                        assert(acc_view(acc@) =~= stepped);
                                    }
                                }
                            },
                        }
                    },
                }
            },
        }
        i = i + 1;
    }
    proof {
        assert(scenes@.skip(n as int) =~= Seq::<SceneSnapshot>::empty());
    }
    let m = acc.len();
    let mut r: Vec<ScheduledScene> = Vec::new();
    let mut k: usize = 0;
    proof {
        assert(r@ =~= acc@.take(0).map_values(|p: (Vec<String>, ScheduledScene)| p.1));
    }
    while k < m
        invariant
            k <= m,
            m == acc@.len(),
            r@ == acc@.take(k as int).map_values(|p: (Vec<String>, ScheduledScene)| p.1),
        decreases m - k,
    {
        r.push(acc[k].1.clone());
        proof {
            assert(acc@.take(k + 1).map_values(|p: (Vec<String>, ScheduledScene)| p.1)
                =~= acc@.take(k as int).map_values(|p: (Vec<String>, ScheduledScene)| p.1).push(
                acc@[k as int].1,
            ));
        }
        k = k + 1;
    }
    proof {
        assert(acc@.take(m as int) =~= acc@);
        assert(acc@.map_values(|p: (Vec<String>, ScheduledScene)| p.1) =~= acc_view(
            acc@,
        ).map_values(|p: (Seq<Seq<char>>, ScheduledScene)| p.1));
    }
    r
}

/// The entries of a linearized timeline that cover minute-of-day `now`.
pub open spec fn keep_active(l: Seq<ScheduledScene>, now: u32) -> Seq<ScheduledScene>
    decreases l.len(),
{
    if l.len() == 0 {
        Seq::empty()
    } else {
        let rest = keep_active(l.drop_last(), now);
        if spec_matches((l.last().start, l.last().end), now) {
            rest.push(l.last())
        } else {
            rest
        }
    }
}

proof fn lemma_keep_active_empty(l: Seq<ScheduledScene>, now: u32)
    requires
        forall|i: int|
            0 <= i < l.len() ==> !spec_matches(((#[trigger] l[i]).start, l[i].end), now),
    ensures
        keep_active(l, now) == Seq::<ScheduledScene>::empty(),
    decreases l.len(),
{
    if l.len() > 0 {
        lemma_keep_active_empty(l.drop_last(), now);
    }
}

/// Law: at any minute of the day, at most one scene wins. The entries of
/// a linearized timeline do not overlap, so at most one of them covers
/// `now`.
pub proof fn lemma_at_most_one_winner(l: Seq<ScheduledScene>, now: u32)
    ensures
        keep_active(spec_linearize(l), now).len() <= 1,
{
    crate::schedule::lemma_linearize_partitioned(l);
    lemma_keep_active_partition(spec_linearize(l), now);
}

proof fn lemma_keep_active_partition(l: Seq<ScheduledScene>, now: u32)
    requires
        crate::schedule::partitioned(l),
    ensures
        keep_active(l, now).len() <= 1,
    decreases l.len(),
{
    if l.len() > 0 {
        assert(crate::schedule::partitioned(l.drop_last()));
        if spec_matches((l.last().start, l.last().end), now) {
            assert forall|i: int| 0 <= i < l.drop_last().len() implies !spec_matches(
                (((#[trigger] l.drop_last()[i]).start), l.drop_last()[i].end),
                now,
            ) by {
                crate::schedule::lemma_partitioned_ordered(l, i, l.len() - 1);
            }
            lemma_keep_active_empty(l.drop_last(), now);
        } else {
            lemma_keep_active_partition(l.drop_last(), now);
        }
    }
}

/// The scenes that win at minute-of-day `now`: the scheduled scenes are
/// linearized into a non-overlapping timeline, and the spans covering
/// `now` are kept.
pub fn winning_scenes(scheduled: Vec<ScheduledScene>, now: u32) -> (r: Vec<ScheduledScene>)
    ensures
        r@ == keep_active(spec_linearize(scheduled@), now),
        r@.len() <= 1,
{
    proof {
        lemma_at_most_one_winner(scheduled@, now);
    }
    let lin = linearize_schedules(scheduled);
    let n = lin.len();
    let mut r: Vec<ScheduledScene> = Vec::new();
    let mut i: usize = 0;
    proof {
        assert(r@ =~= keep_active(lin@.take(0), now));
    }
    while i < n
        invariant
            i <= n,
            n == lin@.len(),
            r@ == keep_active(lin@.take(i as int), now),
        decreases n - i,
    {
        proof {
            assert(lin@.take(i + 1).drop_last() =~= lin@.take(i as int));
            assert(lin@.take(i + 1).last() == lin@[i as int]);
        }
        let e = &lin[i];
        let active = if e.start == e.end {
            false
        } else if e.start < e.end {
            now >= e.start && now < e.end
        } else {
            now >= e.start || now < e.end
        };
        if active {
            r.push(lin[i].clone());
        }
        i = i + 1;
    }
    proof {
        assert(lin@.take(n as int) =~= lin@);
    }
    r
}

/// Bootstrapping only ever records states without a flip time.
proof fn lemma_bootstrap_keeps_none(
    m: Map<Seq<char>, StateChange>,
    all: Seq<LightSnapshot>,
    idxs: Seq<usize>,
)
    requires
        forall|id: Seq<char>| m.contains_key(id) ==> (#[trigger] m[id]).timestamp is None,
    ensures
        forall|id: Seq<char>|
            record_bootstrap(m, all, idxs).contains_key(id) ==> (#[trigger] record_bootstrap(
                m,
                all,
                idxs,
            )[id]).timestamp is None,
    decreases idxs.len(),
{
    if idxs.len() > 0 {
        let light = all[idxs[0] as int];
        lemma_bootstrap_keeps_none(
            m.insert(light.id@, StateChange { timestamp: None, reachable: light.reachable }),
            all,
            idxs.skip(1),
        );
    }
}

/// Law: a device's first-ever observation cannot trigger anything. The
/// bootstrap of an empty tracker records every device without a flip
/// time, and without a flip time no device passes the window test.
pub proof fn lemma_bootstrap_triggers_nothing(
    all: Seq<LightSnapshot>,
    idxs: Seq<usize>,
    id: Seq<char>,
    now: u64,
    window: u64,
)
    ensures
        !triggered(record_bootstrap(Map::empty(), all, idxs), id, now, window),
{
    lemma_bootstrap_keeps_none(Map::empty(), all, idxs);
}

/// Law: right after a first-ever snapshot, no scene with at least one
/// device that is not marked as attached is eligible, however the rest
/// of its devices stand: any trigger list drawn from the bootstrapped
/// tracker cannot name that device.
pub proof fn lemma_bootstrap_no_scene_triggers(
    all: Seq<LightSnapshot>,
    idxs: Seq<usize>,
    lights: Seq<String>,
    ignored: Seq<String>,
    triggers: Seq<String>,
    now: u64,
    window: u64,
    k: int,
)
    requires
        forall|j: int|
            0 <= j < triggers.len() ==> triggered(
                record_bootstrap(Map::empty(), all, idxs),
                (#[trigger] triggers[j])@,
                now,
                window,
            ),
        0 <= k < lights.len(),
        !seq_contains_str(ignored, lights[k]@),
    ensures
        !spec_scene_eligible(lights, ignored, triggers),
{
    lemma_bootstrap_keeps_none(Map::empty(), all, idxs);
    if seq_contains_str(triggers, lights[k]@) {
        let j = choose|j: int| 0 <= j < triggers.len() && (#[trigger] triggers[j])@ == lights[k]@;
        assert(triggered(record_bootstrap(Map::empty(), all, idxs), triggers[j]@, now, window));
    }
}

/// Clearing only ever writes states without a flip time, and never
/// erases one already cleared.
proof fn lemma_clear_ids_keeps_none(
    m: Map<Seq<char>, StateChange>,
    ids: Seq<String>,
    x: Seq<char>,
)
    requires
        m.contains_key(x),
        m[x].timestamp is None,
    ensures
        clear_ids(m, ids).contains_key(x),
        clear_ids(m, ids)[x].timestamp is None,
    decreases ids.len(),
{
    if ids.len() > 0 {
        lemma_clear_ids_keeps_none(
            m.insert(ids[0]@, StateChange { timestamp: None, reachable: true }),
            ids.skip(1),
            x,
        );
    }
}

/// Law: once a scene's devices are cleared, each of them is recorded
/// with no flip time, so none of them passes the window test.
pub proof fn lemma_cleared_device_not_triggered(
    m: Map<Seq<char>, StateChange>,
    ids: Seq<String>,
    k: int,
    now: u64,
    window: u64,
)
    requires
        0 <= k < ids.len(),
    ensures
        !triggered(clear_ids(m, ids), ids[k]@, now, window),
    decreases ids.len(),
{
    if k == 0 {
        lemma_clear_ids_keeps_none(
            m.insert(ids[0]@, StateChange { timestamp: None, reachable: true }),
            ids.skip(1),
            ids[0]@,
        );
    } else {
        assert(ids.skip(1)[k - 1] == ids[k]);
        lemma_cleared_device_not_triggered(
            m.insert(ids[0]@, StateChange { timestamp: None, reachable: true }),
            ids.skip(1),
            k - 1,
            now,
            window,
        );
    }
}

/// Law: after a scene triggers and its devices are cleared, a cycle with
/// no new flips cannot re-trigger it, nor any other scene sharing a
/// non-exempt device with it: a trigger list drawn from the cleared
/// tracker cannot name such a device.
pub proof fn lemma_cleared_scene_not_retriggered(
    m: Map<Seq<char>, StateChange>,
    scene_lights: Seq<String>,
    ignored: Seq<String>,
    triggers: Seq<String>,
    now: u64,
    window: u64,
    k: int,
)
    requires
        forall|j: int|
            0 <= j < triggers.len() ==> triggered(
                clear_ids(m, scene_lights),
                (#[trigger] triggers[j])@,
                now,
                window,
            ),
        0 <= k < scene_lights.len(),
        !seq_contains_str(ignored, scene_lights[k]@),
    ensures
        !spec_scene_eligible(scene_lights, ignored, triggers),
{
    lemma_cleared_device_not_triggered(m, scene_lights, k, now, window);
    if seq_contains_str(triggers, scene_lights[k]@) {
        let j = choose|j: int|
            0 <= j < triggers.len() && (#[trigger] triggers[j])@ == scene_lights[k]@;
        assert(triggered(clear_ids(m, scene_lights), triggers[j]@, now, window));
    }
}

/// A key the map holds is carried by some entry.
proof fn lemma_map_of_key_entry(entries: Seq<(String, StateChange)>, id: Seq<char>)
    requires
        map_of(entries).contains_key(id),
    ensures
        exists|j: int| 0 <= j < entries.len() && (#[trigger] entries[j]).0@ == id,
    decreases entries.len(),
{
    if entries.len() > 0 {
        if entries.last().0@ == id {
            assert(entries[entries.len() - 1].0@ == id);
        } else {
            lemma_map_of_key_entry(entries.drop_last(), id);
            let j = choose|j: int|
                0 <= j < entries.drop_last().len() && (#[trigger] entries.drop_last()[j]).0@
                    == id;
            assert(entries[j].0@ == id);
        }
    }
}

/// Whether two strings hold the same characters.
pub(crate) fn str_eq(a: &str, b: &str) -> (r: bool)
    ensures
        r == (a@ == b@),
{
    let n: usize = a.unicode_len();
    if n != b.unicode_len() {
        return false;
    }
    let mut i: usize = 0;
    while i < n
        invariant
            i <= n,
            n == a@.len(),
            n == b@.len(),
            forall|k: int| 0 <= k < i ==> a@[k] == b@[k],
        decreases n - i,
    {
        if a.get_char(i) != b.get_char(i) {
            return false;
        }
        i = i + 1;
    }
    proof {
        assert(a@ =~= b@);
    }
    true
}

/// An entry's key maps to its value, provided no later entry shares the
/// key.
proof fn lemma_map_of_entry(entries: Seq<(String, StateChange)>, k: int)
    requires
        0 <= k < entries.len(),
        forall|i: int, j: int|
            0 <= i < j < entries.len() ==> (#[trigger] entries[i]).0@ != (#[trigger] entries[j]).0@,
    ensures
        map_of(entries).contains_key(entries[k].0@),
        map_of(entries)[entries[k].0@] == entries[k].1,
    decreases entries.len(),
{
    if k < entries.len() - 1 {
        assert(entries[k].0@ != entries.last().0@);
        lemma_map_of_entry(entries.drop_last(), k);
    }
}

/// A key no entry carries is not in the map.
proof fn lemma_map_of_no_key(entries: Seq<(String, StateChange)>, id: Seq<char>)
    requires
        forall|j: int| 0 <= j < entries.len() ==> (#[trigger] entries[j]).0@ != id,
    ensures
        !map_of(entries).contains_key(id),
    decreases entries.len(),
{
    if entries.len() > 0 {
        lemma_map_of_no_key(entries.drop_last(), id);
    }
}

/// Replacing the entry that carries a key updates just that key.
proof fn lemma_map_of_update(
    entries: Seq<(String, StateChange)>,
    k: int,
    v: (String, StateChange),
)
    requires
        0 <= k < entries.len(),
        v.0@ == entries[k].0@,
        forall|i: int, j: int|
            0 <= i < j < entries.len() ==> (#[trigger] entries[i]).0@ != (#[trigger] entries[j]).0@,
    ensures
        map_of(entries.update(k, v)) == map_of(entries).insert(v.0@, v.1),
    decreases entries.len(),
{
    if k == entries.len() - 1 {
        assert(entries.update(k, v).drop_last() =~= entries.drop_last());
        assert(entries.update(k, v).last() == v);
        assert(map_of(entries.update(k, v)) =~= map_of(entries).insert(v.0@, v.1));
    } else {
        assert(entries.update(k, v).drop_last() =~= entries.drop_last().update(k, v));
        assert(entries.update(k, v).last() == entries.last());
        lemma_map_of_update(entries.drop_last(), k, v);
        assert(entries[k].0@ != entries.last().0@);
        assert(map_of(entries.drop_last()).insert(v.0@, v.1).insert(
            entries.last().0@,
            entries.last().1,
        ) =~= map_of(entries.drop_last()).insert(entries.last().0@, entries.last().1).insert(
            v.0@,
            v.1,
        ));
    }
}

} // verus!
