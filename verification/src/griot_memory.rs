//! Griot-style room memory: rooms remember their history, and rooms that keep
//! their traditions (event types that recur) are healthier.
//!
//! Decay rates and event weights are fixed-point numbers in millionths:
//! 1_000_000 stands for 1.0. The exponential decay of memories is computed
//! from the ages and recurrence statistics this module keeps.
use vstd::prelude::*;

verus! {

/// One whole unit, in millionths.
pub const UNIT: i64 = 1_000_000;

/// A single remembered event.
#[derive(Debug, Clone)]
pub struct MemoryEvent {
    pub event_type: String,
    /// Weight of the event, in millionths.
    pub weight: i64,
    /// Tick at which the event was recorded.
    pub tick: u64,
}

impl View for MemoryEvent {
    /// Event type, weight, tick.
    type V = (Seq<char>, i64, u64);

    open spec fn view(&self) -> (Seq<char>, i64, u64) {
        (self.event_type@, self.weight, self.tick)
    }
}

/// An event type that recurs in a room: how often it occurred and when it last did.
#[derive(Debug)]
pub struct TraditionStat {
    pub event_type: String,
    pub count: usize,
    pub last_tick: u64,
}

/// Number of events of type `t`.
pub open spec fn count_type(events: Seq<(Seq<char>, i64, u64)>, t: Seq<char>) -> nat
    decreases events.len(),
{
    if events.len() == 0 {
        0
    } else {
        count_type(events.drop_last(), t) + if events.last().0 == t { 1nat } else { 0nat }
    }
}

/// Tick of the last event of type `t`; 0 when there is none.
pub open spec fn last_tick_of(events: Seq<(Seq<char>, i64, u64)>, t: Seq<char>) -> u64
    decreases events.len(),
{
    if events.len() == 0 {
        0
    } else if events.last().0 == t {
        events.last().2
    } else {
        last_tick_of(events.drop_last(), t)
    }
}

/// A decay rate clamped to the range from 0 to one whole unit.
pub open spec fn clamped_decay(rate: i64) -> u32 {
    if rate < 0 { 0 } else if rate > 1_000_000 { 1_000_000 } else { rate as u32 }
}

/// Griot-style room memory with exponential decay.
#[derive(Debug, Clone)]
pub struct RoomMemory {
    room_id: String,
    events: Vec<MemoryEvent>,
    /// Decay rate in millionths, between 0 and one whole unit; higher decays faster.
    decay_rate: u32,
    current_tick: u64,
    /// Traditional practices this room maintains, with their importance in millionths.
    traditions: Vec<(String, i64)>,
}

impl RoomMemory {
    pub closed spec fn spec_room_id(&self) -> Seq<char> {
        self.room_id@
    }

    /// The remembered events, oldest first.
    pub closed spec fn spec_events(&self) -> Seq<(Seq<char>, i64, u64)> {
        self.events@.map_values(|e: MemoryEvent| e@)
    }

    pub closed spec fn spec_decay_rate(&self) -> u32 {
        self.decay_rate
    }

    pub closed spec fn spec_current_tick(&self) -> u64 {
        self.current_tick
    }

    /// Registered traditions: name to importance.
    pub closed spec fn spec_traditions(&self) -> Map<Seq<char>, i64> {
        Map::new(
            |name: Seq<char>| exists|i: int| 0 <= i < self.traditions@.len() && self.traditions@[i].0@ == name,
            |name: Seq<char>|
                {
                    let i = choose|i: int| 0 <= i < self.traditions@.len() && self.traditions@[i].0@ == name;
                    self.traditions@[i].1
                },
        )
    }

    /// Tradition names are distinct and no event was recorded after the current tick.
    pub closed spec fn well_formed(&self) -> bool {
        &&& forall|i: int, j: int|
            0 <= i < j < self.traditions@.len() ==> self.traditions@[i].0@ != self.traditions@[j].0@
        &&& forall|i: int| 0 <= i < self.events@.len() ==> (#[trigger] self.events@[i]).tick <= self.current_tick
    }

    /// A room memory with no events; the decay rate is clamped to `0 ..= 1_000_000`.
    pub fn new(room_id: String, decay_rate: i64) -> (m: Self)
        ensures
            m.well_formed(),
            m.spec_room_id() == room_id@,
            m.spec_events() == Seq::<(Seq<char>, i64, u64)>::empty(),
            m.spec_decay_rate() == clamped_decay(decay_rate),
            m.spec_current_tick() == 0,
            m.spec_traditions() == Map::<Seq<char>, i64>::empty(),
    {
        let rate: u32 = if decay_rate < 0 {
            0
        } else if decay_rate > 1_000_000 {
            1_000_000
        } else {
            decay_rate as u32
        };
        let m = RoomMemory {
            room_id,
            events: Vec::new(),
            decay_rate: rate,
            current_tick: 0,
            traditions: Vec::new(),
        };
        assert(m.spec_events() =~= Seq::<(Seq<char>, i64, u64)>::empty());
        assert(m.spec_traditions() =~= Map::<Seq<char>, i64>::empty());
        m
    }

    /// Record an event of weight one.
    pub fn record_event(&mut self, event_type: String)
        requires
            old(self).spec_current_tick() < u64::MAX,
        ensures
            records_event(*old(self), *final(self), event_type@, UNIT),
    {
        self.record_weighted_event(event_type, UNIT);
    }

    /// Record an event with a given weight, in millionths.
    pub fn record_weighted_event(&mut self, event_type: String, weight: i64)
        requires
            old(self).spec_current_tick() < u64::MAX,
        ensures
            records_event(*old(self), *final(self), event_type@, weight),
    {
        let ghost old_events = self.spec_events();
        self.current_tick += 1;
        let tick = self.current_tick;
        self.events.push(MemoryEvent { event_type, weight, tick });
        assert(self.spec_events() =~= old_events.push((event_type@, weight, tick)));
        assert(self.spec_traditions() =~= old(self).spec_traditions());
    }

    /// Age of every event, oldest first: ticks elapsed since it was recorded.
    /// An event of weight `w` and age `a` is remembered with strength `w · e^(−rate · a)`.
    pub fn event_ages(&self) -> (ages: Vec<u64>)
        ensures
            ages@.len() == self.spec_events().len(),
            forall|i: int| 0 <= i < ages@.len() ==> #[trigger] ages@[i] == age_of(*self, i),
    {
        let mut ages: Vec<u64> = Vec::new();
        let mut i: usize = 0;
        while i < self.events.len()
            invariant
                0 <= i <= self.events@.len(),
                ages@.len() == i,
                forall|k: int|
                    0 <= k < i ==> #[trigger] ages@[k] == if self.current_tick >= self.events@[k].tick {
                        (self.current_tick - self.events@[k].tick) as u64
                    } else {
                        0
                    },
            decreases self.events@.len() - i,
        {
            ages.push(self.current_tick.saturating_sub(self.events[i].tick));
            i += 1;
        }
        ages
    }

    /// Traditions are event types that recur: every event type occurring more than once,
    /// each listed once, with how often it occurred and the tick of its last occurrence.
    pub fn tradition_summary(&self) -> (stats: Vec<TraditionStat>)
        ensures
            forall|i: int|
                0 <= i < stats@.len() ==> {
                    let t = (#[trigger] stats@[i]).event_type@;
                    &&& stats@[i].count == count_type(self.spec_events(), t)
                    &&& stats@[i].count > 1
                    &&& stats@[i].last_tick == last_tick_of(self.spec_events(), t)
                },
            forall|i: int, j: int|
                0 <= i < j < stats@.len() ==> stats@[i].event_type@ != stats@[j].event_type@,
            forall|t: Seq<char>|
                count_type(self.spec_events(), t) > 1 ==> exists|i: int|
                    0 <= i < stats@.len() && (#[trigger] stats@[i]).event_type@ == t,
    {
        let ghost evs = self.spec_events();
        let n = self.events.len();
        let mut stats: Vec<TraditionStat> = Vec::new();
        let mut i: usize = 0;
        while i < n
            invariant
                n == evs.len(),
                evs == self.spec_events(),
                0 <= i <= n,
                forall|k: int|
                    0 <= k < stats@.len() ==> {
                        let t = (#[trigger] stats@[k]).event_type@;
                        &&& stats@[k].count == count_type(evs, t)
                        &&& stats@[k].count > 1
                        &&& stats@[k].last_tick == last_tick_of(evs, t)
                        &&& exists|q: int| 0 <= q < i && evs[q].0 == t
                    },
                forall|a: int, b: int|
                    0 <= a < b < stats@.len() ==> stats@[a].event_type@ != stats@[b].event_type@,
                forall|q: int|
                    0 <= q < i && count_type(evs, #[trigger] evs[q].0) > 1 ==> exists|k: int|
                        0 <= k < stats@.len() && (#[trigger] stats@[k]).event_type@ == evs[q].0,
            decreases n - i,
        {
            let t = &self.events[i].event_type;
            assert(t@ == evs[i as int].0);
            let mut seen = false;
            let mut q: usize = 0;
            while q < i
                invariant
                    n == evs.len(),
                    evs == self.spec_events(),
                    i < n,
                    t@ == evs[i as int].0,
                    0 <= q <= i,
                    seen <==> exists|p: int| 0 <= p < q && evs[p].0 == t@,
                decreases i - q,
            {
                assert(self.events@[q as int]@ == evs[q as int]);
                if self.events[q].event_type == *t {
                    seen = true;
                }
                q += 1;
            }
            if !seen {
                let mut count: usize = 0;
                let mut last: u64 = 0;
                let mut j: usize = 0;
                assert(evs.subrange(0, 0) =~= Seq::<(Seq<char>, i64, u64)>::empty());
                while j < n
                    invariant
                        n == evs.len(),
                        evs == self.spec_events(),
                        0 <= j <= n,
                        count <= j,
                        count == count_type(evs.subrange(0, j as int), t@),
                        last == last_tick_of(evs.subrange(0, j as int), t@),
                    decreases n - j,
                {
                    let ghost next = evs.subrange(0, j + 1);
                    assert(next.drop_last() =~= evs.subrange(0, j as int));
                    assert(self.events@[j as int]@ == evs[j as int]);
                    if self.events[j].event_type == *t {
                        count += 1;
                        last = self.events[j].tick;
                    }
                    j += 1;
                }
                assert(evs.subrange(0, n as int) =~= evs);
                if count > 1 {
                    let ghost prev_stats = stats@;
                    stats.push(TraditionStat { event_type: t.clone(), count, last_tick: last });
                    proof {
                        assert forall|a: int, b: int|
                            0 <= a < b < stats@.len() implies stats@[a].event_type@ != stats@[b].event_type@ by {
                            if b == prev_stats.len() {
                                let qa = choose|qa: int| 0 <= qa < i && evs[qa].0 == prev_stats[a].event_type@;
                                assert(stats@[a] == prev_stats[a]);
                            } else {
                                assert(stats@[a] == prev_stats[a]);
                                assert(stats@[b] == prev_stats[b]);
                            }
                        }
                        assert forall|k: int| 0 <= k < stats@.len() implies {
                            let tt = (#[trigger] stats@[k]).event_type@;
                            &&& stats@[k].count == count_type(evs, tt)
                            &&& stats@[k].count > 1
                            &&& stats@[k].last_tick == last_tick_of(evs, tt)
                            &&& exists|qq: int| 0 <= qq < i + 1 && evs[qq].0 == tt
                        } by {
                            if k < prev_stats.len() {
                                assert(stats@[k] == prev_stats[k]);
                            } else {
                                assert(evs[i as int].0 == t@);
                            }
                        }
                        assert forall|qq: int|
                            0 <= qq < i + 1 && count_type(evs, #[trigger] evs[qq].0) > 1 implies exists|k: int|
                            0 <= k < stats@.len() && (#[trigger] stats@[k]).event_type@ == evs[qq].0 by {
                            if qq == i {
                                assert(stats@[prev_stats.len() as int].event_type@ == evs[qq].0);
                            } else {
                                let k = choose|k: int|
                                    0 <= k < prev_stats.len() && (#[trigger] prev_stats[k]).event_type@
                                        == evs[qq].0;
                                assert(stats@[k] == prev_stats[k]);
                            }
                        }
                    }
                } else {
                    proof {
                        assert forall|qq: int|
                            0 <= qq < i + 1 && count_type(evs, #[trigger] evs[qq].0) > 1 implies exists|k: int|
                            0 <= k < stats@.len() && (#[trigger] stats@[k]).event_type@ == evs[qq].0 by {
                            if qq == i {
                                assert(false);
                            }
                        }
                    }
                }
            } else {
                proof {
                    let p = choose|p: int| 0 <= p < i && evs[p].0 == t@;
                    assert forall|qq: int|
                        0 <= qq < i + 1 && count_type(evs, #[trigger] evs[qq].0) > 1 implies exists|k: int|
                        0 <= k < stats@.len() && (#[trigger] stats@[k]).event_type@ == evs[qq].0 by {
                        if qq == i {
                            assert(evs[p].0 == evs[qq].0);
                        }
                    }
                }
            }
            i += 1;
        }
        proof {
            assert forall|tt: Seq<char>| count_type(evs, tt) > 1 implies exists|i: int|
                0 <= i < stats@.len() && (#[trigger] stats@[i]).event_type@ == tt by {
                lemma_count_type_witness(evs, tt);
                let q = choose|q: int| 0 <= q < evs.len() && evs[q].0 == tt;
                assert(count_type(evs, evs[q].0) > 1);
            }
        }
        stats
    }

    /// The room's identifier.
    pub fn room_id(&self) -> (r: &str)
        ensures
            r@ == self.spec_room_id(),
    {
        self.room_id.as_str()
    }

    /// Number of remembered events.
    pub fn event_count(&self) -> (n: usize)
        ensures
            n == self.spec_events().len(),
    {
        self.events.len()
    }

    /// The remembered events, oldest first.
    pub fn events(&self) -> (es: &[MemoryEvent])
        ensures
            es@.map_values(|e: MemoryEvent| e@) == self.spec_events(),
    {
        self.events.as_slice()
    }

    /// Decay rate, in millionths.
    pub fn decay_rate(&self) -> (r: u32)
        ensures
            r == self.spec_decay_rate(),
    {
        self.decay_rate
    }

    /// Current tick: the number of events recorded so far.
    pub fn current_tick(&self) -> (t: u64)
        ensures
            t == self.spec_current_tick(),
    {
        self.current_tick
    }

    /// Register a tradition for this room, or change its importance (in millionths).
    pub fn add_tradition(&mut self, name: String, importance: i64)
        requires
            old(self).well_formed(),
        ensures
            final(self).well_formed(),
            final(self).spec_traditions() == old(self).spec_traditions().insert(name@, importance),
            final(self).spec_events() == old(self).spec_events(),
            final(self).spec_room_id() == old(self).spec_room_id(),
            final(self).spec_decay_rate() == old(self).spec_decay_rate(),
            final(self).spec_current_tick() == old(self).spec_current_tick(),
    {
        let ghost old_trads = self.traditions@;
        let ghost name_v = name@;
        let mut i: usize = 0;
        while i < self.traditions.len()
            invariant
                0 <= i <= self.traditions@.len(),
                self.traditions@ == old_trads,
                old_trads == old(self).traditions@,
                old(self).well_formed(),
                name@ == name_v,
                self.room_id == old(self).room_id,
                self.events == old(self).events,
                self.decay_rate == old(self).decay_rate,
                self.current_tick == old(self).current_tick,
                forall|k: int| 0 <= k < i ==> self.traditions@[k].0@ != name_v,
            decreases self.traditions@.len() - i,
        {
            if self.traditions[i].0 == name {
                let mut entry = (name, importance);
                self.traditions.set_and_swap(i, &mut entry);
                proof {
                    let new_trads = self.traditions@;
                    assert(new_trads =~= old_trads.update(i as int, (new_trads[i as int].0, importance)));
                    assert forall|a: int, b: int|
                        0 <= a < b < new_trads.len() implies new_trads[a].0@ != new_trads[b].0@ by {
                        assert(old_trads[a].0@ != old_trads[b].0@);
                    }
                    assert(self.spec_traditions() =~= old(self).spec_traditions().insert(name_v, importance)) by {
                        assert forall|nm: Seq<char>| #[trigger] self.spec_traditions().dom().contains(nm)
                            == old(self).spec_traditions().insert(name_v, importance).dom().contains(nm) by {
                            if nm == name_v {
                                assert(new_trads[i as int].0@ == nm);
                            } else if old(self).spec_traditions().dom().contains(nm) {
                                let w = choose|w: int| 0 <= w < old_trads.len() && old_trads[w].0@ == nm;
                                assert(new_trads[w].0@ == nm);
                            } else if self.spec_traditions().dom().contains(nm) {
                                let w = choose|w: int| 0 <= w < new_trads.len() && new_trads[w].0@ == nm;
                                assert(old_trads[w].0@ == nm);
                            }
                        }
                        assert forall|nm: Seq<char>| #[trigger] self.spec_traditions().dom().contains(nm)
                            implies self.spec_traditions()[nm] == old(self).spec_traditions().insert(
                            name_v,
                            importance,
                        )[nm] by {
                            let w = choose|w: int| 0 <= w < new_trads.len() && new_trads[w].0@ == nm;
                            if nm == name_v {
                                assert(w == i);
                            } else {
                                let w2 = choose|w2: int| 0 <= w2 < old_trads.len() && old_trads[w2].0@ == nm;
                                assert(w2 == w);
                            }
                        }
                    }
                }
                return;
            }
            i += 1;
        }
        self.traditions.push((name, importance));
        proof {
            let new_trads = self.traditions@;
            assert forall|a: int, b: int| 0 <= a < b < new_trads.len() implies new_trads[a].0@ != new_trads[b].0@ by {
                if b < old_trads.len() {
                    assert(old_trads[a].0@ != old_trads[b].0@);
                }
            }
            assert(self.spec_traditions() =~= old(self).spec_traditions().insert(name_v, importance)) by {
                assert forall|nm: Seq<char>| #[trigger] self.spec_traditions().dom().contains(nm)
                    == old(self).spec_traditions().insert(name_v, importance).dom().contains(nm) by {
                    if nm == name_v {
                        assert(new_trads[old_trads.len() as int].0@ == nm);
                    } else if old(self).spec_traditions().dom().contains(nm) {
                        let w = choose|w: int| 0 <= w < old_trads.len() && old_trads[w].0@ == nm;
                        assert(new_trads[w].0@ == nm);
                    } else if self.spec_traditions().dom().contains(nm) {
                        let w = choose|w: int| 0 <= w < new_trads.len() && new_trads[w].0@ == nm;
                        assert(old_trads[w].0@ == nm);
                    }
                }
                assert forall|nm: Seq<char>| #[trigger] self.spec_traditions().dom().contains(nm)
                    implies self.spec_traditions()[nm] == old(self).spec_traditions().insert(
                    name_v,
                    importance,
                )[nm] by {
                    let w = choose|w: int| 0 <= w < new_trads.len() && new_trads[w].0@ == nm;
                    if nm == name_v {
                        assert(w == old_trads.len());
                    } else {
                        let w2 = choose|w2: int| 0 <= w2 < old_trads.len() && old_trads[w2].0@ == nm;
                        assert(new_trads[w2].0@ == nm);
                    }
                }
            }
        }
    }

    /// A tradition is maintained when its event type occurred at least twice.
    pub fn tradition_maintained(&self, tradition: &str) -> (b: bool)
        ensures
            b == (count_type(self.spec_events(), tradition@) >= 2),
    {
        let name = tradition.to_owned();
        let ghost evs = self.spec_events();
        let mut count: usize = 0;
        let mut j: usize = 0;
        assert(evs.subrange(0, 0) =~= Seq::<(Seq<char>, i64, u64)>::empty());
        while j < self.events.len()
            invariant
                evs == self.spec_events(),
                evs.len() == self.events@.len(),
                name@ == tradition@,
                0 <= j <= evs.len(),
                count <= j,
                count == count_type(evs.subrange(0, j as int), tradition@),
            decreases evs.len() - j,
        {
            let ghost next = evs.subrange(0, j + 1);
            assert(next.drop_last() =~= evs.subrange(0, j as int));
            assert(self.events@[j as int]@ == evs[j as int]);
            if self.events[j].event_type == name {
                count += 1;
            }
            j += 1;
        }
        assert(evs.subrange(0, evs.len() as int) =~= evs);
        count >= 2
    }
}

/// `after` is `before` with one more event of type `t` and weight `weight`, at the next tick.
pub open spec fn records_event(before: RoomMemory, after: RoomMemory, t: Seq<char>, weight: i64) -> bool {
    &&& after.spec_current_tick() == before.spec_current_tick() + 1
    &&& after.spec_events() == before.spec_events().push((t, weight, after.spec_current_tick()))
    &&& after.spec_room_id() == before.spec_room_id()
    &&& after.spec_decay_rate() == before.spec_decay_rate()
    &&& after.spec_traditions() == before.spec_traditions()
    &&& before.well_formed() ==> after.well_formed()
}

/// Age of event `i` of room `m`: the ticks elapsed since it was recorded.
pub open spec fn age_of(m: RoomMemory, i: int) -> u64 {
    if m.spec_current_tick() >= m.spec_events()[i].2 {
        (m.spec_current_tick() - m.spec_events()[i].2) as u64
    } else {
        0
    }
}

/// Memories fade as the room lives on: recording an event makes every earlier memory one
/// tick older, and the new memory has age zero. With strength `w · e^(−rate · age)`, no
/// earlier memory grows stronger.
pub proof fn lemma_recording_ages_memories(before: RoomMemory, after: RoomMemory, t: Seq<char>, weight: i64)
    requires
        before.well_formed(),
        records_event(before, after, t, weight),
    ensures
        after.spec_events().len() == before.spec_events().len() + 1,
        forall|i: int|
            0 <= i < before.spec_events().len() ==> #[trigger] age_of(after, i) == age_of(before, i) + 1,
        age_of(after, before.spec_events().len() as int) == 0,
{
    assert forall|i: int| 0 <= i < before.spec_events().len() implies #[trigger] age_of(after, i) == age_of(
        before,
        i,
    ) + 1 by {
        assert(before.events@[i].tick <= before.current_tick);
        assert(after.spec_events()[i] == before.spec_events()[i]);
    }
}

/// Griot memory manager: the memories of several rooms.
#[derive(Debug, Clone)]
pub struct GriotMemory {
    rooms: Vec<RoomMemory>,
    default_decay: i64,
}

impl GriotMemory {
    /// The rooms' memories, in the order the rooms were first seen.
    pub closed spec fn spec_rooms(&self) -> Seq<RoomMemory> {
        self.rooms@
    }

    /// Decay rate given to new rooms, in millionths (clamped by each room).
    pub closed spec fn spec_default_decay(&self) -> i64 {
        self.default_decay
    }

    /// Identifiers of the rooms, in order.
    pub open spec fn room_ids(&self) -> Seq<Seq<char>> {
        self.spec_rooms().map_values(|r: RoomMemory| r.spec_room_id())
    }

    /// Room identifiers are distinct and every room memory is well formed.
    pub open spec fn well_formed(&self) -> bool {
        &&& forall|i: int, j: int| 0 <= i < j < self.room_ids().len() ==> self.room_ids()[i] != self.room_ids()[j]
        &&& forall|i: int| 0 <= i < self.spec_rooms().len() ==> (#[trigger] self.spec_rooms()[i]).well_formed()
    }

    /// A manager with no rooms.
    pub fn new(default_decay: i64) -> (g: Self)
        ensures
            g.well_formed(),
            g.spec_rooms() == Seq::<RoomMemory>::empty(),
            g.spec_default_decay() == default_decay,
    {
        GriotMemory { rooms: Vec::new(), default_decay }
    }

    fn room_index(&self, room_id: &String) -> (r: Option<usize>)
        ensures
            match r {
                Some(i) => i < self.spec_rooms().len() && self.room_ids()[i as int] == room_id@,
                None => !self.room_ids().contains(room_id@),
            },
    {
        let mut i: usize = 0;
        while i < self.rooms.len()
            invariant
                0 <= i <= self.rooms@.len(),
                forall|k: int| 0 <= k < i ==> self.room_ids()[k] != room_id@,
            decreases self.rooms@.len() - i,
        {
            if self.rooms[i].room_id == *room_id {
                return Some(i);
            }
            i += 1;
        }
        None
    }

    /// Register a room with an empty memory (nothing changes when the room is known).
    pub fn add_room(&mut self, room_id: String)
        requires
            old(self).well_formed(),
        ensures
            final(self).well_formed(),
            final(self).spec_default_decay() == old(self).spec_default_decay(),
            old(self).room_ids().contains(room_id@) ==> final(self).spec_rooms() == old(self).spec_rooms(),
            !old(self).room_ids().contains(room_id@) ==> {
                let r = final(self).spec_rooms().last();
                &&& final(self).spec_rooms().drop_last() == old(self).spec_rooms()
                &&& final(self).spec_rooms().len() == old(self).spec_rooms().len() + 1
                &&& r.spec_room_id() == room_id@
                &&& r.spec_events() == Seq::<(Seq<char>, i64, u64)>::empty()
                &&& r.spec_decay_rate() == clamped_decay(old(self).spec_default_decay())
                &&& r.spec_current_tick() == 0
                &&& r.spec_traditions() == Map::<Seq<char>, i64>::empty()
            },
    {
        match self.room_index(&room_id) {
            Some(_) => {},
            None => {
                let ghost old_rooms = self.rooms@;
                let m = RoomMemory::new(room_id, self.default_decay);
                self.rooms.push(m);
                proof {
                    assert(self.rooms@.drop_last() =~= old_rooms);
                    assert forall|i: int, j: int| 0 <= i < j < self.room_ids().len() implies self.room_ids()[i]
                        != self.room_ids()[j] by {
                        if j == old_rooms.len() {
                            assert(self.room_ids()[i] == old(self).room_ids()[i]);
                        } else {
                            assert(self.room_ids()[i] == old(self).room_ids()[i]);
                            assert(self.room_ids()[j] == old(self).room_ids()[j]);
                        }
                    }
                    assert forall|i: int| 0 <= i < self.spec_rooms().len() implies (
                    #[trigger] self.spec_rooms()[i]).well_formed() by {
                        if i < old_rooms.len() {
                            assert(self.spec_rooms()[i] == old_rooms[i]);
                        }
                    }
                }
            },
        }
    }

    /// Record an event of weight one in a room; an unknown room is registered first.
    pub fn record(&mut self, room_id: &str, event_type: String)
        requires
            old(self).well_formed(),
            forall|i: int|
                0 <= i < old(self).spec_rooms().len() && old(self).room_ids()[i] == room_id@
                    ==> (#[trigger] old(self).spec_rooms()[i]).spec_current_tick() < u64::MAX,
        ensures
            final(self).well_formed(),
            final(self).spec_default_decay() == old(self).spec_default_decay(),
            forall|i: int|
                0 <= i < old(self).spec_rooms().len() ==> if old(self).room_ids()[i] == room_id@ {
                    records_event(old(self).spec_rooms()[i], #[trigger] final(self).spec_rooms()[i], event_type@, UNIT)
                } else {
                    final(self).spec_rooms()[i] == old(self).spec_rooms()[i]
                },
            old(self).room_ids().contains(room_id@) ==> final(self).spec_rooms().len() == old(self).spec_rooms().len(),
            !old(self).room_ids().contains(room_id@) ==> {
                let r = final(self).spec_rooms().last();
                &&& final(self).spec_rooms().len() == old(self).spec_rooms().len() + 1
                &&& r.spec_room_id() == room_id@
                &&& r.spec_events() == seq![(event_type@, UNIT, 1u64)]
                &&& r.spec_decay_rate() == clamped_decay(old(self).spec_default_decay())
                &&& r.spec_current_tick() == 1
                &&& r.spec_traditions() == Map::<Seq<char>, i64>::empty()
            },
    {
        let name = room_id.to_owned();
        let i = match self.room_index(&name) {
            Some(i) => i,
            None => {
                self.add_room(name.clone());
                assert(self.room_ids().last() == room_id@);
                (self.rooms.len() - 1) as usize
            },
        };
        let ghost mid = self.rooms@;
        let mut slot = RoomMemory::new(String::new(), 0);
        self.rooms.set_and_swap(i, &mut slot);
        slot.record_event(event_type);
        self.rooms.set_and_swap(i, &mut slot);
        proof {
            assert forall|a: int, b: int| 0 <= a < b < self.room_ids().len() implies self.room_ids()[a]
                != self.room_ids()[b] by {
                assert(self.room_ids()[a] == mid.map_values(|r: RoomMemory| r.spec_room_id())[a]);
                assert(self.room_ids()[b] == mid.map_values(|r: RoomMemory| r.spec_room_id())[b]);
            }
            assert forall|k: int| 0 <= k < self.spec_rooms().len() implies (
            #[trigger] self.spec_rooms()[k]).well_formed() by {
                if k != i {
                    assert(self.spec_rooms()[k] == mid[k]);
                }
            }
            assert forall|k: int| 0 <= k < old(self).spec_rooms().len() implies if old(self).room_ids()[k] == room_id@ {
                records_event(old(self).spec_rooms()[k], #[trigger] self.spec_rooms()[k], event_type@, UNIT)
            } else {
                self.spec_rooms()[k] == old(self).spec_rooms()[k]
            } by {
                assert(mid[k] == old(self).spec_rooms()[k]);
                if old(self).room_ids()[k] == room_id@ {
                    assert(k == i);
                } else {
                    assert(k != i);
                }
            }
        }
    }

    /// The memory of a room, if the room is known.
    pub fn room(&self, room_id: &str) -> (r: Option<&RoomMemory>)
        ensures
            match r {
                Some(m) => exists|i: int|
                    0 <= i < self.spec_rooms().len() && self.room_ids()[i] == room_id@ && *m
                        == #[trigger] self.spec_rooms()[i],
                None => !self.room_ids().contains(room_id@),
            },
    {
        let name = room_id.to_owned();
        match self.room_index(&name) {
            Some(i) => Some(&self.rooms[i]),
            None => None,
        }
    }

    /// The memories of all rooms, in the order the rooms were first seen.
    pub fn rooms(&self) -> (rs: &[RoomMemory])
        ensures
            rs@ == self.spec_rooms(),
    {
        self.rooms.as_slice()
    }

    /// Number of rooms.
    pub fn room_count(&self) -> (n: usize)
        ensures
            n == self.spec_rooms().len(),
    {
        self.rooms.len()
    }
}

impl Default for GriotMemory {
    /// A manager whose rooms decay at rate 0.1.
    fn default() -> (g: Self)
        ensures
            g.well_formed(),
            g.spec_rooms() == Seq::<RoomMemory>::empty(),
            g.spec_default_decay() == 100_000,
    {
        GriotMemory::new(100_000)
    }
}

proof fn lemma_count_type_witness(events: Seq<(Seq<char>, i64, u64)>, t: Seq<char>)
    requires
        count_type(events, t) > 0,
    ensures
        exists|q: int| 0 <= q < events.len() && events[q].0 == t,
    decreases events.len(),
{
    if events.last().0 != t {
        lemma_count_type_witness(events.drop_last(), t);
        let q = choose|q: int| 0 <= q < events.drop_last().len() && events.drop_last()[q].0 == t;
        assert(events[q].0 == t);
    } else {
        assert(events[events.len() - 1].0 == t);
    }
}

} // verus!
