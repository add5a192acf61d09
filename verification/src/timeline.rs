//! Timed events and their conversion into frame-accurate placement records
//! grouped by source name.

use vstd::prelude::*;
use crate::errors::MixError;

verus! {

/// Largest event time, in microseconds, that the offset arithmetic admits:
/// the resulting interleaved offset then fits in 32 bits on any platform.
pub const MAX_TIME_US: u64 = 48_000_000_000;

/// Microseconds per second.
pub const MICROS_PER_SECOND: u64 = 1_000_000;

/// Largest interleaved offset a time within `MAX_TIME_US` can map to.
pub const MAX_OFFSET: usize = 4_233_600_000;

/// One timeline occurrence of a named source, immutable once parsed.
#[derive(Debug)]
pub struct Event {
    /// Placement time in microseconds from the start of the timeline.
    pub time_us: u64,
    /// Fixed-point volume: UNIT stands for 1.0.
    pub volume: i32,
    /// Fixed-point stereo pan: -UNIT is full left, 0 center, UNIT full right.
    pub pan: i32,
    /// The name of the source this event places.
    pub name: String,
}

/// A frame-accurate placement derived from an event.
#[derive(Clone, Copy, PartialEq, Eq, Structural, Debug)]
pub struct PlacementRecord {
    /// The interleaved sample index at which the source begins; always even,
    /// so every placement starts on a left-channel boundary.
    pub offset: usize,
    /// Fixed-point volume.
    pub volume: i32,
    /// Fixed-point pan.
    pub pan: i32,
}

/// The interleaved sample index of a time, before frame alignment.
pub open spec fn raw_offset_of(time_us: int) -> int {
    time_us * (crate::units::PROJECT_RATE as int) * (crate::units::CHANNELS as int) / (
    MICROS_PER_SECOND as int)
}

/// The frame-aligned interleaved offset of a time: the raw index rounded
/// down to the preceding even value.
pub open spec fn offset_of(time_us: int) -> int {
    let r = raw_offset_of(time_us);
    if r % 2 == 0 {
        r
    } else {
        r - 1
    }
}

/// Round-down invariant of placement offsets: for every time the offset is
/// even and equals the raw interleaved index rounded down; rounding never
/// moves an offset up.
pub proof fn lemma_offset_round_down(time_us: int)
    requires
        time_us >= 0,
    ensures
        offset_of(time_us) % 2 == 0,
        raw_offset_of(time_us) - 1 <= offset_of(time_us) <= raw_offset_of(time_us),
{
}

/// The frame-aligned placement offset of an event time.
pub fn to_offset(time_us: u64) -> (off: usize)
    requires
        time_us <= MAX_TIME_US,
    ensures
        off == offset_of(time_us as int),
        off % 2 == 0,
        off <= MAX_OFFSET,
{
    let scale: u64 = crate::units::PROJECT_RATE * crate::units::CHANNELS;
    proof {
        assert(scale == 88200);
        assert((time_us as int) * 88200 <= 48_000_000_000int * 88200);
    }
    let raw_wide: u64 = time_us * scale / MICROS_PER_SECOND;
    proof {
        assert(raw_wide == raw_offset_of(time_us as int));
        vstd::arithmetic::div_mod::lemma_div_is_ordered(
            (time_us as int) * 88200,
            48_000_000_000int * 88200,
            1_000_000int,
        );
    }
    let raw: usize = raw_wide as usize;
    if raw % 2 == 1 {
        raw - 1
    } else {
        raw
    }
}

/// The placement record of an event.
pub open spec fn placement_of(e: Event) -> PlacementRecord {
    PlacementRecord {
        offset: offset_of(e.time_us as int) as usize,
        volume: e.volume,
        pan: e.pan,
    }
}

/// The placements of one source name, in insertion order; the order carries
/// no meaning for the mix.
#[derive(Debug)]
pub struct Group {
    /// The source name.
    pub name: String,
    /// The placements of this source.
    pub records: Vec<PlacementRecord>,
}

/// The view of a group: its name and its placement records.
pub type GroupView = (Seq<char>, Seq<PlacementRecord>);

impl View for Group {
    type V = GroupView;

    open spec fn view(&self) -> GroupView {
        (self.name@, self.records@)
    }
}

/// The index of the first group of this name, or -1 when none has it.
pub open spec fn group_index_of(gs: Seq<GroupView>, name: Seq<char>) -> int
    decreases gs.len(),
{
    if gs.len() == 0 {
        -1
    } else if gs[0].0 == name {
        0
    } else {
        let r = group_index_of(gs.skip(1), name);
        if r == -1 {
            -1
        } else {
            r + 1
        }
    }
}

/// What a group index means: -1 means no group has the name; otherwise it
/// is the first group of that name.
pub proof fn lemma_group_index_props(gs: Seq<GroupView>, name: Seq<char>)
    ensures
        ({
            let r = group_index_of(gs, name);
            &&& r == -1 ==> forall|k: int| 0 <= k < gs.len() ==> gs[k].0 != name
            &&& r != -1 ==> 0 <= r < gs.len() && gs[r].0 == name && (forall|k: int|
                0 <= k < r ==> gs[k].0 != name)
        }),
    decreases gs.len(),
{
    if gs.len() > 0 && gs[0].0 != name {
        lemma_group_index_props(gs.skip(1), name);
        let r1 = group_index_of(gs.skip(1), name);
        if r1 == -1 {
            assert forall|k: int| 0 <= k < gs.len() implies gs[k].0 != name by {
                if k > 0 {
                    assert(gs.skip(1)[k - 1] == gs[k]);
                }
            }
        } else {
            assert(gs.skip(1)[r1] == gs[r1 + 1]);
            assert forall|k: int| 0 <= k < r1 + 1 implies gs[k].0 != name by {
                if k > 0 {
                    assert(gs.skip(1)[k - 1] == gs[k]);
                }
            }
        }
    }
}

/// One event folded into grouped placements: the record joins the group of
/// its name, or opens a new group at the end.
pub open spec fn add_event_spec(gs: Seq<GroupView>, e: Event) -> Seq<GroupView> {
    let i = group_index_of(gs, e.name@);
    if i >= 0 {
        gs.update(i, (gs[i].0, gs[i].1.push(placement_of(e))))
    } else {
        gs.push((e.name@, seq![placement_of(e)]))
    }
}

/// The grouped placements of a whole event sequence, folded left to right.
pub open spec fn timeline_of(events: Seq<Event>) -> Seq<GroupView>
    decreases events.len(),
{
    if events.len() == 0 {
        Seq::empty()
    } else {
        add_event_spec(timeline_of(events.drop_last()), events.last())
    }
}

/// The number of placement records over all groups.
pub open spec fn total_records(gs: Seq<GroupView>) -> int
    decreases gs.len(),
{
    if gs.len() == 0 {
        0
    } else {
        total_records(gs.drop_last()) + gs.last().1.len()
    }
}

/// Replacing one group changes the record count by the difference of the
/// two groups' counts.
pub proof fn lemma_total_records_update(gs: Seq<GroupView>, i: int, x: GroupView)
    requires
        0 <= i < gs.len(),
    ensures
        total_records(gs.update(i, x)) == total_records(gs) - gs[i].1.len() + x.1.len(),
    decreases gs.len(),
{
    let u = gs.update(i, x);
    if i == gs.len() - 1 {
        assert(u.drop_last() =~= gs.drop_last());
        assert(u.last() == x);
    } else {
        assert(u.drop_last() =~= gs.drop_last().update(i, x));
        lemma_total_records_update(gs.drop_last(), i, x);
        assert(u.last() == gs.last());
    }
}

/// Appending a group adds its record count.
pub proof fn lemma_total_records_push(gs: Seq<GroupView>, x: GroupView)
    ensures
        total_records(gs.push(x)) == total_records(gs) + x.1.len(),
{
    assert(gs.push(x).drop_last() =~= gs);
    assert(gs.push(x).last() == x);
}

/// Adding one event adds exactly one record.
pub proof fn lemma_add_event_total(gs: Seq<GroupView>, e: Event)
    ensures
        total_records(add_event_spec(gs, e)) == total_records(gs) + 1,
{
    let i = group_index_of(gs, e.name@);
    if i >= 0 {
        lemma_group_index_props(gs, e.name@);
        lemma_total_records_update(gs, i, (gs[i].0, gs[i].1.push(placement_of(e))));
    } else {
        lemma_total_records_push(gs, (e.name@, seq![placement_of(e)]));
    }
}

/// Extending a prefix by one group adds that group's record count.
pub proof fn lemma_total_records_take_step(gs: Seq<GroupView>, k: int)
    requires
        0 <= k < gs.len(),
    ensures
        total_records(gs.take(k + 1)) == total_records(gs.take(k)) + gs[k].1.len(),
{
    assert(gs.take(k + 1).drop_last() =~= gs.take(k));
    assert(gs.take(k + 1).last() == gs[k]);
}

/// A prefix never holds more records than the whole.
pub proof fn lemma_total_records_take_le(gs: Seq<GroupView>, k: int)
    requires
        0 <= k <= gs.len(),
    ensures
        total_records(gs.take(k)) <= total_records(gs),
    decreases gs.len() - k,
{
    if k == gs.len() {
        assert(gs.take(k) =~= gs);
    } else {
        lemma_total_records_take_step(gs, k);
        lemma_total_records_take_le(gs, k + 1);
    }
}

/// The grouped, frame-accurate placements of a whole run.
#[derive(Debug)]
pub struct Timeline {
    groups: Vec<Group>,
}

impl View for Timeline {
    type V = Seq<GroupView>;

    closed spec fn view(&self) -> Seq<GroupView> {
        self.groups@.map_values(|g: Group| g@)
    }
}

impl Timeline {
    /// Well-formedness: group names are distinct and non-empty, every group
    /// holds at least one record, offsets are even and bounded, and the
    /// total record count stays within the arithmetic of the mix.
    pub open spec fn wf(&self) -> bool {
        &&& forall|i: int, j: int| 0 <= i < j < self@.len() ==> self@[i].0 != self@[j].0
        &&& forall|i: int|
            0 <= i < self@.len() ==> (#[trigger] self@[i].0.len()) > 0 && self@[i].1.len() >= 1
        &&& forall|i: int, k: int|
            0 <= i < self@.len() && 0 <= k < self@[i].1.len() ==> ((#[trigger] self@[i].1[k]).offset
                % 2 == 0 && self@[i].1[k].offset <= MAX_OFFSET)
        &&& total_records(self@) <= 0xffff_ffff_ffff_ffff
    }

    /// The number of groups.
    pub fn group_count(&self) -> (n: usize)
        ensures
            n == self@.len(),
    {
        self.groups.len()
    }

    /// The group at an index.
    pub fn group_at(&self, i: usize) -> (g: &Group)
        requires
            i < self@.len(),
        ensures
            g@ == self@[i as int],
    {
        &self.groups[i]
    }

    /// An empty timeline.
    pub fn new() -> (t: Timeline)
        ensures
            t@ == Seq::<GroupView>::empty(),
            t.wf(),
            total_records(t@) == 0,
    {
        let t = Timeline { groups: Vec::new() };
        proof {
            assert(t@ =~= Seq::<GroupView>::empty());
        }
        t
    }

    /// Fold one event in: its placement record joins the group of its name,
    /// or opens a new group at the end. An empty source name makes the
    /// event invalid and leaves the timeline unchanged.
    pub fn add_timing(&mut self, event: &Event) -> (r: Result<(), MixError>)
        requires
            old(self).wf(),
            event.time_us <= MAX_TIME_US,
            total_records(old(self)@) < 0xffff_ffff_ffff_ffff,
        ensures
            r is Ok <==> event.name@.len() > 0,
            match r {
                Ok(()) => final(self)@ == add_event_spec(old(self)@, *event) && final(self).wf()
                    && total_records(final(self)@) == total_records(old(self)@) + 1,
                Err(e) => final(self)@ == old(self)@ && final(self).wf() && e is InvalidEvent,
            },
    {
        if event.name == String::new() {
            return Err(MixError::InvalidEvent("empty source name".to_owned()));
        }
        proof {
            if event.name@.len() == 0 {
                assert(event.name@ =~= Seq::<char>::empty());
            }
        }
        let rec = PlacementRecord {
            offset: to_offset(event.time_us),
            volume: event.volume,
            pan: event.pan,
        };
        proof {
            assert(rec == placement_of(*event));
            lemma_group_index_props(self@, event.name@);
            lemma_add_event_total(self@, *event);
        }
        let ghost gs = self@;
        let idx_opt = find_group(&self.groups, &event.name);
        match idx_opt {
            Some(i) => {
                let mut g = self.groups.remove(i);
                g.records.push(rec);
                let ghost gnew = g;
                self.groups.insert(i, g);
                proof {
                    let gi = i as int;
                    assert(self.groups@ =~= old(self).groups@.update(gi, gnew));
                    assert(self@ =~= gs.update(gi, (gs[gi].0, gs[gi].1.push(rec))));
                    assert(self@ == add_event_spec(gs, *event));
                    assert forall|a: int, b: int|
                        0 <= a < b < self@.len() implies self@[a].0 != self@[b].0 by {
                        assert(gs[a].0 == self@[a].0 && gs[b].0 == self@[b].0);
                    }
                }
            },
            None => {
                let mut rv: Vec<PlacementRecord> = Vec::new();
                rv.push(rec);
                proof {
                    assert(rv@ =~= seq![rec]);
                }
                self.groups.push(Group { name: event.name.clone(), records: rv });
                proof {
                    assert(self@ =~= gs.push((event.name@, seq![rec])));
                    assert(self@ == add_event_spec(gs, *event));
                    assert forall|a: int, b: int|
                        0 <= a < b < self@.len() implies self@[a].0 != self@[b].0 by {
                        if b < gs.len() {
                            assert(gs[a].0 == self@[a].0 && gs[b].0 == self@[b].0);
                        } else {
                            assert(gs[a].0 == self@[a].0);
                        }
                    }
                }
            },
        }
        Ok(())
    }
}

/// The index of the group holding this name, if any.
fn find_group(groups: &Vec<Group>, name: &String) -> (r: Option<usize>)
    ensures
        ({
            let gs = groups@.map_values(|g: Group| g@);
            match r {
                Some(i) => i < groups@.len() && group_index_of(gs, name@) == i,
                None => group_index_of(gs, name@) == -1,
            }
        }),
{
    let ghost gs = groups@.map_values(|g: Group| g@);
    let mut j: usize = 0;
    while j < groups.len()
        invariant
            j <= groups@.len(),
            gs == groups@.map_values(|g: Group| g@),
            forall|k: int| 0 <= k < j ==> gs[k].0 != name@,
        decreases groups@.len() - j,
    {
        if groups[j].name == *name {
            proof {
                lemma_group_index_props(gs, name@);
                let r = group_index_of(gs, name@);
                assert(gs[j as int].0 == name@);
                assert(r != -1);
                if r < j as int {
                    assert(gs[r].0 == name@);
                    assert(false);
                }
                if r > j as int {
                    assert(false);
                }
            }
            return Some(j);
        }
        proof {
            assert(gs[j as int].0 == groups@[j as int].name@);
        }
        j = j + 1;
    }
    proof {
        lemma_group_index_props(gs, name@);
        let r = group_index_of(gs, name@);
        if r != -1 {
            assert(gs[r].0 == name@);
            assert(false);
        }
    }
    None
}

/// Convert the full ordered sequence of events into grouped placements.
/// Succeeds exactly when every event carries a source name; any event with
/// an empty name is invalid and aborts the whole run.
pub fn build_timeline(events: &Vec<Event>) -> (r: Result<Timeline, MixError>)
    requires
        forall|i: int| 0 <= i < events@.len() ==> (#[trigger] events@[i]).time_us <= MAX_TIME_US,
    ensures
        r is Ok <==> (forall|i: int| 0 <= i < events@.len() ==> (#[trigger] events@[i]).name@.len()
            > 0),
        match r {
            Ok(t) => t@ == timeline_of(events@) && t.wf() && total_records(t@) == events@.len(),
            Err(e) => e is InvalidEvent,
        },
{
    let mut t = Timeline::new();
    let mut k: usize = 0;
    while k < events.len()
        invariant
            k <= events@.len(),
            t@ == timeline_of(events@.take(k as int)),
            t.wf(),
            total_records(t@) == k,
            forall|i: int| 0 <= i < k ==> (#[trigger] events@[i]).name@.len() > 0,
            forall|i: int|
                0 <= i < events@.len() ==> (#[trigger] events@[i]).time_us <= MAX_TIME_US,
        decreases events@.len() - k,
    {
        match t.add_timing(&events[k]) {
            Ok(()) => {},
            Err(e) => {
                return Err(e);
            },
        }
        proof {
            assert(events@.take(k as int + 1).drop_last() =~= events@.take(k as int));
            assert(events@.take(k as int + 1).last() == events@[k as int]);
        }
        k = k + 1;
    }
    proof {
        assert(events@.take(events@.len() as int) =~= events@);
    }
    Ok(t)
}

} // verus!
