use vstd::prelude::*;
use crate::types::{FilterKind, LtnError, ModalFilter, Pt};

verus! {

/// A road: its endpoint intersections, its polyline, its length along that
/// polyline, and its free-form tags.
#[derive(Clone, Debug)]
pub struct Road {
    pub src: usize,
    pub dst: usize,
    pub geometry: Vec<Pt>,
    pub length: u64,
    pub tags: Vec<(String, String)>,
}

#[derive(Clone, Copy, Debug, PartialEq, Eq, Structural)]
pub struct Intersection {
    pub point: Pt,
}

/// One entry of the edit log.
#[derive(Clone, Debug)]
pub enum Command {
    SetFilter(usize, ModalFilter),
    DeleteFilter(usize),
    SetMany(Vec<(usize, ModalFilter)>),
    /// Replaces the whole filter set, as loading a savefile does.
    Load(Vec<Option<ModalFilter>>),
}

pub type Filters = Seq<Option<ModalFilter>>;

/// The filter set of a network of `n` roads before any edit.
pub open spec fn no_filters(n: nat) -> Filters {
    Seq::new(n, |i: int| None)
}

/// Sets one road's entry; an id past the end changes nothing.
pub open spec fn set_at(fs: Filters, r: usize, v: Option<ModalFilter>) -> Filters {
    if r < fs.len() {
        fs.update(r as int, v)
    } else {
        fs
    }
}

/// Applies a batch of placements in order.
pub open spec fn apply_many(fs: Filters, items: Seq<(usize, ModalFilter)>) -> Filters
    decreases items.len(),
{
    if items.len() == 0 {
        fs
    } else {
        let last = items.last();
        set_at(apply_many(fs, items.drop_last()), last.0, Some(last.1))
    }
}

pub open spec fn apply_command(fs: Filters, c: Command) -> Filters {
    match c {
        Command::SetFilter(r, f) => set_at(fs, r, Some(f)),
        Command::DeleteFilter(r) => set_at(fs, r, None),
        Command::SetMany(items) => apply_many(fs, items@),
        Command::Load(v) => if v@.len() == fs.len() {
            v@
        } else {
            fs
        },
    }
}

/// The filter set reached by replaying the first `n` commands from `base`.
pub open spec fn replay(base: Filters, cmds: Seq<Command>, n: nat) -> Filters
    decreases n,
{
    if n == 0 || n > cmds.len() {
        base
    } else {
        apply_command(replay(base, cmds, (n - 1) as nat), cmds[n - 1])
    }
}

pub open spec fn command_valid(c: Command, n: nat) -> bool {
    match c {
        Command::SetFilter(r, _) => r < n,
        Command::DeleteFilter(r) => r < n,
        Command::SetMany(items) => forall|j: int| 0 <= j < items@.len() ==> #[trigger] items@[j].0 < n,
        Command::Load(v) => v@.len() == n,
    }
}

pub proof fn lemma_apply_many_len(fs: Filters, items: Seq<(usize, ModalFilter)>)
    ensures
        apply_many(fs, items).len() == fs.len(),
    decreases items.len(),
{
    if items.len() > 0 {
        lemma_apply_many_len(fs, items.drop_last());
    }
}

pub proof fn lemma_replay_len(base: Filters, cmds: Seq<Command>, n: nat)
    ensures
        replay(base, cmds, n).len() == base.len(),
    decreases n,
{
    if n > 0 && n <= cmds.len() {
        lemma_replay_len(base, cmds, (n - 1) as nat);
        match cmds[n - 1] {
            Command::SetMany(items) => lemma_apply_many_len(replay(base, cmds, (n - 1) as nat), items@),
            _ => {},
        }
    }
}

/// Replaying `n` commands reads only the first `n` of them.
pub proof fn lemma_replay_prefix(base: Filters, a: Seq<Command>, b: Seq<Command>, n: nat)
    requires
        n <= a.len(),
        n <= b.len(),
        a.take(n as int) == b.take(n as int),
    ensures
        replay(base, a, n) == replay(base, b, n),
    decreases n,
{
    if n > 0 {
        assert(a.take(n as int)[n - 1] == a[n - 1]);
        assert(b.take(n as int)[n - 1] == b[n - 1]);
        assert(a.take((n - 1) as int) == a.take(n as int).take((n - 1) as int));
        assert(b.take((n - 1) as int) == b.take(n as int).take((n - 1) as int));
        lemma_replay_prefix(base, a, b, (n - 1) as nat);
    }
}

/// Undoing an edit that was just recorded restores the filter set that stood
/// before it, whatever the log held after the cursor.
pub proof fn lemma_undo_after_edit(base: Filters, cmds: Seq<Command>, cursor: nat, c: Command)
    requires
        cursor <= cmds.len(),
    ensures
        replay(base, cmds.take(cursor as int).push(c), cursor) == replay(base, cmds, cursor),
        replay(base, cmds.take(cursor as int).push(c), cursor + 1) == apply_command(
            replay(base, cmds, cursor),
            c,
        ),
{
    let nc = cmds.take(cursor as int).push(c);
    assert(nc.take(cursor as int) == cmds.take(cursor as int));
    lemma_replay_prefix(base, nc, cmds, cursor);
}

/// The road network, its live filter set and its edit log.
pub struct MapModel {
    pub roads: Vec<Road>,
    pub intersections: Vec<Intersection>,
    pub filters: Vec<Option<ModalFilter>>,
    pub commands: Vec<Command>,
    pub cursor: usize,
}

impl MapModel {
    /// The roads' endpoints exist; the live filters are the log replayed to the cursor.
    pub open spec fn wf(&self) -> bool {
        &&& forall|r: int|
            0 <= r < self.roads@.len() ==> (#[trigger] self.roads@[r]).src
                < self.intersections@.len() && self.roads@[r].dst < self.intersections@.len()
        &&& self.filters@.len() == self.roads@.len()
        &&& self.cursor <= self.commands@.len()
        &&& forall|i: int|
            0 <= i < self.commands@.len() ==> command_valid(
                #[trigger] self.commands@[i],
                self.roads@.len(),
            )
        &&& self.filters@ == replay(
            no_filters(self.roads@.len()),
            self.commands@,
            self.cursor as nat,
        )
    }

    pub open spec fn base(&self) -> Filters {
        no_filters(self.roads@.len())
    }

    /// Whether each road's endpoints exist and its polyline runs from the
    /// first endpoint's point to the second's.
    pub open spec fn topology_ok(roads: Seq<Road>, ints: Seq<Intersection>) -> bool {
        forall|r: int|
            0 <= r < roads.len() ==> {
                let rd = #[trigger] roads[r];
                &&& rd.src < ints.len()
                &&& rd.dst < ints.len()
                &&& rd.geometry@.len() >= 2
                &&& rd.geometry@[0] == ints[rd.src as int].point
                &&& rd.geometry@.last() == ints[rd.dst as int].point
            }
    }

    /// Builds the model from the map source's roads and intersections, with no
    /// filters and an empty log.
    pub fn new(roads: Vec<Road>, intersections: Vec<Intersection>) -> (r: Result<MapModel, LtnError>)
        ensures
            r is Ok <==> Self::topology_ok(roads@, intersections@),
            r matches Ok(m) ==> {
                &&& m.wf()
                &&& m.roads@ == roads@
                &&& m.intersections@ == intersections@
                &&& m.commands@.len() == 0
                &&& m.filters@ == no_filters(roads@.len())
            },
            r matches Err(e) ==> e == LtnError::InvariantViolation,
    {
        let mut i: usize = 0;
        while i < roads.len()
            invariant
                i <= roads@.len(),
                forall|r: int|
                    0 <= r < i ==> {
                        let rd = #[trigger] roads@[r];
                        &&& rd.src < intersections@.len()
                        &&& rd.dst < intersections@.len()
                        &&& rd.geometry@.len() >= 2
                        &&& rd.geometry@[0] == intersections@[rd.src as int].point
                        &&& rd.geometry@.last() == intersections@[rd.dst as int].point
                    },
            decreases roads@.len() - i,
        {
            let rd = &roads[i];
            if rd.src >= intersections.len() || rd.dst >= intersections.len()
                || rd.geometry.len() < 2 {
                return Err(LtnError::InvariantViolation);
            }
            let last = rd.geometry.len() - 1;
            if rd.geometry[0] != intersections[rd.src].point
                || rd.geometry[last] != intersections[rd.dst].point {
                return Err(LtnError::InvariantViolation);
            }
            i = i + 1;
        }
        let filters = none_filters(roads.len());
        let m = MapModel { roads, intersections, filters, commands: Vec::new(), cursor: 0 };
        Ok(m)
    }

    /// Records a command at the cursor, dropping any undone tail.
    fn record(&mut self, c: Command)
        requires
            old(self).cursor < usize::MAX,
            old(self).cursor <= old(self).commands@.len(),
        ensures
            final(self).commands@ == old(self).commands@.take(old(self).cursor as int).push(c),
            final(self).cursor == old(self).cursor + 1,
            final(self).roads == old(self).roads,
            final(self).intersections == old(self).intersections,
            final(self).filters == old(self).filters,
    {
        self.commands.truncate(self.cursor);
        self.commands.push(c);
        self.cursor = self.cursor + 1;
    }

    /// Places a filter on a road, replacing any filter already there, and
    /// records the placement as one command.
    pub fn add_modal_filter(&mut self, road: usize, filter: ModalFilter) -> (r: Result<(), LtnError>)
        requires
            old(self).wf(),
        ensures
            final(self).wf(),
            final(self).roads == old(self).roads,
            final(self).intersections == old(self).intersections,
            r is Err <==> road >= old(self).roads@.len() || old(self).cursor == usize::MAX,
            r matches Err(e) ==> (road >= old(self).roads@.len() && e == LtnError::InvalidRoad(road)) || (road
                < old(self).roads@.len() && e == LtnError::InvariantViolation),
            r is Ok ==> final(self).filters@ == old(self).filters@.update(road as int, Some(filter)),
            r is Ok ==> final(self).commands@ == old(self).commands@.take(old(self).cursor as int).push(
                Command::SetFilter(road, filter),
            ),
            r is Ok ==> final(self).cursor == old(self).cursor + 1,
            r is Err ==> *final(self) == *old(self),
    {
        if road >= self.roads.len() {
            return Err(LtnError::InvalidRoad(road));
        }
        if self.cursor == usize::MAX {
            return Err(LtnError::InvariantViolation);
        }
        let ghost before = self.commands@;
        let ghost cur = self.cursor as nat;
        self.record(Command::SetFilter(road, filter));
        self.filters.set(road, Some(filter));
        proof {
            lemma_undo_after_edit(self.base(), before, cur, Command::SetFilter(road, filter));
            assert forall|i: int| 0 <= i < self.commands@.len() implies command_valid(
                #[trigger] self.commands@[i],
                self.roads@.len(),
            ) by {
                if i < cur {
                    assert(self.commands@[i] == before[i]);
                }
            }
        }
        Ok(())
    }
    /// Removes the filter on a road and records the removal; a road with no
    /// filter, or an unknown id, leaves everything as it was.
    pub fn delete_modal_filter(&mut self, road: usize)
        requires
            old(self).wf(),
        ensures
            final(self).wf(),
            final(self).roads == old(self).roads,
            final(self).intersections == old(self).intersections,
            old(self).cursor < usize::MAX ==> final(self).filters@ == set_at(old(self).filters@, road, None),
            (road < old(self).roads@.len() && old(self).filters@[road as int] is Some
                && old(self).cursor < usize::MAX) ==> final(self).commands@
                == old(self).commands@.take(old(self).cursor as int).push(Command::DeleteFilter(road))
                && final(self).cursor == old(self).cursor + 1,
            !(road < old(self).roads@.len() && old(self).filters@[road as int] is Some) ==> *final(self)
                == *old(self),
    {
        if road >= self.roads.len() || self.filters[road].is_none() || self.cursor == usize::MAX {
            proof {
                if road < self.roads@.len() && self.filters@[road as int] is None {
                    assert(self.filters@.update(road as int, None) == self.filters@);
                }
            }
            return ;
        }
        let ghost before = self.commands@;
        let ghost cur = self.cursor as nat;
        self.record(Command::DeleteFilter(road));
        self.filters.set(road, None);
        proof {
            lemma_undo_after_edit(self.base(), before, cur, Command::DeleteFilter(road));
            assert forall|i: int| 0 <= i < self.commands@.len() implies command_valid(
                #[trigger] self.commands@[i],
                self.roads@.len(),
            ) by {
                if i < cur {
                    assert(self.commands@[i] == before[i]);
                }
            }
        }
    }

    /// Places every filter of a batch, in order, as one command: one undo
    /// reverts the whole batch. An empty batch records nothing.
    pub fn add_many_modal_filters(&mut self, items: Vec<(usize, ModalFilter)>) -> (r: Result<(), LtnError>)
        requires
            old(self).wf(),
        ensures
            final(self).wf(),
            final(self).roads == old(self).roads,
            final(self).intersections == old(self).intersections,
            r is Err <==> (exists|j: int| 0 <= j < items@.len() && #[trigger] items@[j].0 >= old(self).roads@.len())
                || (items@.len() > 0 && old(self).cursor == usize::MAX),
            r is Ok ==> final(self).filters@ == apply_many(old(self).filters@, items@),
            r is Ok && items@.len() > 0 ==> final(self).commands@ == old(self).commands@.take(
                old(self).cursor as int,
            ).push(Command::SetMany(items)),
            r is Ok && items@.len() > 0 ==> final(self).cursor == old(self).cursor + 1,
            r is Err || items@.len() == 0 ==> *final(self) == *old(self),
            r matches Err(e) ==> (e matches LtnError::InvalidRoad(x) && x >= old(self).roads@.len())
                || e == LtnError::InvariantViolation,
    {
        let mut j: usize = 0;
        while j < items.len()
            invariant
                j <= items@.len(),
                self.wf(),
                *self == *old(self),
                forall|k: int| 0 <= k < j ==> #[trigger] items@[k].0 < self.roads@.len(),
            decreases items@.len() - j,
        {
            if items[j].0 >= self.roads.len() {
                return Err(LtnError::InvalidRoad(items[j].0));
            }
            j = j + 1;
        }
        if items.len() == 0 {
            return Ok(());
        }
        if self.cursor == usize::MAX {
            return Err(LtnError::InvariantViolation);
        }
        let ghost before = self.commands@;
        let ghost cur = self.cursor as nat;
        let ghost fs0 = self.filters@;
        let mut k: usize = 0;
        while k < items.len()
            invariant
                k <= items@.len(),
                self.filters@ == apply_many(fs0, items@.take(k as int)),
                self.filters@.len() == fs0.len(),
                fs0.len() == self.roads@.len(),
                forall|m: int| 0 <= m < items@.len() ==> #[trigger] items@[m].0 < self.roads@.len(),
                self.cursor == cur,
                self.roads == old(self).roads,
                self.intersections == old(self).intersections,
                cur < usize::MAX,
                self.commands@ == before,
                cur <= before.len(),
                forall|i: int| 0 <= i < before.len() ==> command_valid(#[trigger] before[i], fs0.len()),
                fs0 == replay(self.base(), before, cur),
            decreases items@.len() - k,
        {
            let (rid, f) = items[k];
            proof {
                assert(items@.take(k + 1).drop_last() == items@.take(k as int));
                assert(items@.take(k + 1).last() == items@[k as int]);
            }
            self.filters.set(rid, Some(f));
            k = k + 1;
        }
        proof {
            assert(items@.take(items@.len() as int) == items@);
        }
        self.record(Command::SetMany(items));
        proof {
            lemma_undo_after_edit(self.base(), before, cur, self.commands@.last());
            assert forall|i: int| 0 <= i < self.commands@.len() implies command_valid(
                #[trigger] self.commands@[i],
                self.roads@.len(),
            ) by {
                if i < cur {
                    assert(self.commands@[i] == before[i]);
                }
            }
        }
        Ok(())
    }

    /// The filter set reached by replaying the first `n` commands of the log
    /// from a network with no filters.
    fn replay_log(&self, n: usize) -> (r: Vec<Option<ModalFilter>>)
        requires
            self.wf(),
            n <= self.commands@.len(),
        ensures
            r@ == replay(self.base(), self.commands@, n as nat),
    {
        let mut fs = none_filters(self.roads.len());
        let mut i: usize = 0;
        while i < n
            invariant
                self.wf(),
                i <= n <= self.commands@.len(),
                fs@ == replay(self.base(), self.commands@, i as nat),
                fs@.len() == self.roads@.len(),
            decreases n - i,
        {
            match &self.commands[i] {
                Command::SetFilter(rid, f) => {
                    if *rid < fs.len() {
                        fs.set(*rid, Some(*f));
                    }
                },
                Command::DeleteFilter(rid) => {
                    if *rid < fs.len() {
                        fs.set(*rid, None);
                    }
                },
                Command::SetMany(items) => {
                    let ghost fs0 = fs@;
                    let mut k: usize = 0;
                    while k < items.len()
                        invariant
                            k <= items@.len(),
                            fs@ == apply_many(fs0, items@.take(k as int)),
                            fs@.len() == fs0.len(),
                        decreases items@.len() - k,
                    {
                        let (rid, f) = items[k];
                        proof {
                            assert(items@.take(k + 1).drop_last() == items@.take(k as int));
                            assert(items@.take(k + 1).last() == items@[k as int]);
                        }
                        if rid < fs.len() {
                            fs.set(rid, Some(f));
                        }
                        k = k + 1;
                    }
                    proof {
                        assert(items@.take(items@.len() as int) == items@);
                    }
                },
                Command::Load(v) => {
                    if v.len() == fs.len() {
                        fs = copy_filters(v);
                    }
                },
            }
            proof {
                lemma_replay_len(self.base(), self.commands@, (i + 1) as nat);
            }
            i = i + 1;
        }
        fs
    }

    /// Replaces the whole filter set as one command, which one undo reverts.
    pub fn load_filters(&mut self, fs: &Vec<Option<ModalFilter>>) -> (r: Result<(), LtnError>)
        requires
            old(self).wf(),
        ensures
            final(self).wf(),
            final(self).roads == old(self).roads,
            final(self).intersections == old(self).intersections,
            r is Err <==> fs@.len() != old(self).roads@.len() || old(self).cursor == usize::MAX,
            r matches Err(e) ==> (e == LtnError::MalformedSavefile && fs@.len() != old(self).roads@.len())
                || e == LtnError::InvariantViolation,
            r is Ok ==> final(self).filters@ == fs@,
            r is Ok ==> final(self).cursor == old(self).cursor + 1,
            r is Err ==> *final(self) == *old(self),
    {
        if fs.len() != self.roads.len() {
            return Err(LtnError::MalformedSavefile);
        }
        if self.cursor == usize::MAX {
            return Err(LtnError::InvariantViolation);
        }
        let ghost before = self.commands@;
        let ghost cur = self.cursor as nat;
        let c = copy_filters(fs);
        self.record(Command::Load(c));
        self.filters = copy_filters(fs);
        proof {
            lemma_replay_len(self.base(), before, cur);
            lemma_undo_after_edit(self.base(), before, cur, self.commands@.last());
            assert forall|i: int| 0 <= i < self.commands@.len() implies command_valid(
                #[trigger] self.commands@[i],
                self.roads@.len(),
            ) by {
                if i < cur {
                    assert(self.commands@[i] == before[i]);
                }
            }
        }
        Ok(())
    }

    /// Steps the cursor back one command and rebuilds the filter set by
    /// replay; at the start of history nothing changes.
    pub fn undo(&mut self)
        requires
            old(self).wf(),
        ensures
            final(self).wf(),
            final(self).roads == old(self).roads,
            final(self).intersections == old(self).intersections,
            final(self).commands == old(self).commands,
            final(self).cursor == if old(self).cursor > 0 { old(self).cursor - 1 } else { 0 },
    {
        if self.cursor > 0 {
            let fs = self.replay_log(self.cursor - 1);
            self.cursor = self.cursor - 1;
            self.filters = fs;
            proof {
                lemma_replay_len(self.base(), self.commands@, self.cursor as nat);
            }
        }
    }

    /// Steps the cursor forward one command and rebuilds the filter set by
    /// replay; at the end of history nothing changes.
    pub fn redo(&mut self)
        requires
            old(self).wf(),
        ensures
            final(self).wf(),
            final(self).roads == old(self).roads,
            final(self).intersections == old(self).intersections,
            final(self).commands == old(self).commands,
            final(self).cursor == if old(self).cursor < old(self).commands@.len() {
                old(self).cursor + 1
            } else {
                old(self).cursor as int
            },
    {
        if self.cursor < self.commands.len() {
            let fs = self.replay_log(self.cursor + 1);
            self.cursor = self.cursor + 1;
            self.filters = fs;
            proof {
                lemma_replay_len(self.base(), self.commands@, self.cursor as nat);
            }
        }
    }
}


pub fn copy_filters(v: &Vec<Option<ModalFilter>>) -> (r: Vec<Option<ModalFilter>>)
    ensures
        r@ == v@,
{
    let mut out: Vec<Option<ModalFilter>> = Vec::new();
    let mut i: usize = 0;
    while i < v.len()
        invariant
            i <= v@.len(),
            out@ == v@.take(i as int),
        decreases v@.len() - i,
    {
        out.push(v[i]);
        proof {
            assert(v@.take(i + 1) == v@.take(i as int).push(v@[i as int]));
        }
        i = i + 1;
    }
    proof {
        assert(v@.take(v@.len() as int) == v@);
    }
    out
}

/// History replay: in every well-formed model, which every edit, undo and
/// redo preserves, the live filter set is the log replayed from no filters
/// up to the cursor.
pub proof fn lemma_history_replay(m: &MapModel)
    requires
        m.wf(),
    ensures
        m.filters@ == replay(no_filters(m.roads@.len()), m.commands@, m.cursor as nat),
        m.filters@.len() == m.roads@.len(),
{
}

/// Undo followed by redo, over the same log, brings back the filter set that
/// stood before the undo.
pub proof fn lemma_undo_then_redo(before: &MapModel, undone: &MapModel, redone: &MapModel)
    requires
        before.wf(),
        undone.wf(),
        redone.wf(),
        before.roads@ == undone.roads@,
        undone.roads@ == redone.roads@,
        before.commands@ == undone.commands@,
        undone.commands@ == redone.commands@,
        before.cursor > 0,
        undone.cursor == before.cursor - 1,
        redone.cursor == undone.cursor + 1,
    ensures
        redone.filters@ == before.filters@,
{
}

/// One undo reverts the last edit: when a command was recorded at the cursor
/// (the log before it kept up to the cursor), undoing it brings back the
/// filter set that stood before the edit.
pub proof fn lemma_undo_reverts_edit(before: &MapModel, edited: &MapModel, undone: &MapModel)
    requires
        before.wf(),
        edited.wf(),
        undone.wf(),
        before.roads@ == edited.roads@,
        edited.roads@ == undone.roads@,
        edited.cursor == before.cursor + 1,
        edited.commands@.len() == before.cursor + 1,
        edited.commands@.take(before.cursor as int) == before.commands@.take(before.cursor as int),
        undone.commands@ == edited.commands@,
        undone.cursor == before.cursor,
    ensures
        undone.filters@ == before.filters@,
{
    lemma_replay_prefix(before.base(), edited.commands@, before.commands@, before.cursor as nat);
}

/// A filter vector with no filter on any of `n` roads.
pub fn none_filters(n: usize) -> (r: Vec<Option<ModalFilter>>)
    ensures
        r@ == no_filters(n as nat),
{
    let mut v: Vec<Option<ModalFilter>> = Vec::new();
    let mut i: usize = 0;
    while i < n
        invariant
            i <= n,
            v@ == no_filters(i as nat),
        decreases n - i,
    {
        v.push(None);
        i = i + 1;
    }
    v
}

} // verus!
