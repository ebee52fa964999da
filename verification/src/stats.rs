//! The shared live-metrics cache and its rendering rules.
//!
//! The cache maps container ids to their latest metrics sample. The
//! discovery tick inserts an empty cell for every newly listed container;
//! each container's poller replaces its cell's value on every sample and
//! clears it back to empty when its stream ends; the render tick prints
//! one row per populated cell, in the order the containers were first
//! observed, skipping cells that hold no sample yet.

use vstd::prelude::*;
use crate::text::dec_str;
use crate::text::u64_to_string;
use crate::text::str_views;

verus! {

/// The most recent metrics sample for one container.
#[derive(Debug, Clone)]
pub struct StatsSnapshot {
    pub id: String,
    pub name: String,
    pub cpu_total: u64,
    pub memory_usage: Option<u64>,
    pub network_rx: Option<u64>,
    pub block_read: Option<u64>,
    pub block_write: Option<u64>,
}

/// Mathematical model of a [`StatsSnapshot`].
#[verifier::ext_equal]
pub struct SnapshotModel {
    pub id: Seq<char>,
    pub name: Seq<char>,
    pub cpu_total: u64,
    pub memory_usage: Option<u64>,
    pub network_rx: Option<u64>,
    pub block_read: Option<u64>,
    pub block_write: Option<u64>,
}

impl View for StatsSnapshot {
    type V = SnapshotModel;

    open spec fn view(&self) -> SnapshotModel {
        SnapshotModel {
            id: self.id@,
            name: self.name@,
            cpu_total: self.cpu_total,
            memory_usage: self.memory_usage,
            network_rx: self.network_rx,
            block_read: self.block_read,
            block_write: self.block_write,
        }
    }
}

/// One cache cell: a container id and its latest sample, if any has
/// arrived since the cell was opened or last cleared.
#[derive(Debug)]
pub struct CacheEntry {
    pub id: String,
    pub snapshot: Option<StatsSnapshot>,
}

/// Mathematical model of a [`CacheEntry`].
#[verifier::ext_equal]
pub struct CacheEntryModel {
    pub id: Seq<char>,
    pub snapshot: Option<SnapshotModel>,
}

impl View for CacheEntry {
    type V = CacheEntryModel;

    open spec fn view(&self) -> CacheEntryModel {
        CacheEntryModel {
            id: self.id@,
            snapshot: match self.snapshot {
                Option::Some(s) => Option::Some(s@),
                Option::None => Option::None,
            },
        }
    }
}

/// The cache: one cell per observed container, in order of first
/// observation. Cells are never removed, only cleared.
#[derive(Debug)]
pub struct StatsCache {
    pub entries: Vec<CacheEntry>,
}

impl View for StatsCache {
    type V = Seq<CacheEntryModel>;

    open spec fn view(&self) -> Seq<CacheEntryModel> {
        self.entries@.map_values(|e: CacheEntry| e@)
    }
}

/// The ids of the cache's cells, in order.
pub open spec fn cache_ids(es: Seq<CacheEntryModel>) -> Seq<Seq<char>> {
    es.map_values(|e: CacheEntryModel| e.id)
}

/// No two cells of a well-formed cache name the same container.
pub open spec fn cache_wf(es: Seq<CacheEntryModel>) -> bool {
    forall|i: int, j: int| 0 <= i < j < es.len() ==> es[i].id != es[j].id
}

/// The index of the cell for `id`, or `-1` if no cell names it.
pub open spec fn index_of_id(es: Seq<CacheEntryModel>, id: Seq<char>) -> int
    decreases es.len(),
{
    if es.len() == 0 {
        -1
    } else if es[0].id == id {
        0
    } else {
        let r = index_of_id(es.skip(1), id);
        if r < 0 {
            -1
        } else {
            r + 1
        }
    }
}

/// `index_of_id` names the first cell for `id`, and is negative exactly
/// when no cell names it.
pub proof fn lemma_index_of_id(es: Seq<CacheEntryModel>, id: Seq<char>)
    ensures
        index_of_id(es, id) >= 0 <==> exists|j: int| 0 <= j < es.len() && es[j].id == id,
        index_of_id(es, id) >= 0 ==> {
            let k = index_of_id(es, id);
            &&& 0 <= k < es.len()
            &&& es[k].id == id
            &&& forall|j: int| 0 <= j < k ==> es[j].id != id
        },
    decreases es.len(),
{
    if es.len() > 0 && es[0].id != id {
        lemma_index_of_id(es.skip(1), id);
        assert forall|j: int| 0 <= j < es.len() - 1 implies es.skip(1)[j] == es[j + 1] by {}
        let r = index_of_id(es.skip(1), id);
        if r < 0 {
            assert forall|j: int| 0 <= j < es.len() implies es[j].id != id by {
                if j > 0 {
                    assert(es.skip(1)[j - 1] == es[j]);
                }
            }
        } else {
            assert(es.skip(1)[r] == es[r + 1]);
            assert forall|j: int| 0 <= j < r + 1 implies es[j].id != id by {
                if j > 0 {
                    assert(es.skip(1)[j - 1] == es[j]);
                }
            }
        }
    }
}

/// The first match determines `index_of_id`.
pub proof fn lemma_index_of_id_at(es: Seq<CacheEntryModel>, id: Seq<char>, k: int)
    requires
        0 <= k < es.len(),
        es[k].id == id,
        forall|j: int| 0 <= j < k ==> es[j].id != id,
    ensures
        index_of_id(es, id) == k,
{
    lemma_index_of_id(es, id);
    let i = index_of_id(es, id);
    assert(i >= 0);
    if i < k {
        assert(es[i].id != id);
        assert(false);
    }
    if i > k {
        assert(es[k].id != id);
        assert(false);
    }
}

/// The cache after one discovery tick: every listed id not yet present
/// gets a fresh, empty cell at the end, in listing order; present ids and
/// their samples are left as they are.
pub open spec fn discover_spec(
    es: Seq<CacheEntryModel>,
    listed: Seq<Seq<char>>,
) -> Seq<CacheEntryModel>
    decreases listed.len(),
{
    if listed.len() == 0 {
        es
    } else {
        let prev = discover_spec(es, listed.drop_last());
        if index_of_id(prev, listed.last()) >= 0 {
            prev
        } else {
            prev.push(CacheEntryModel { id: listed.last(), snapshot: Option::None })
        }
    }
}

/// Discovery only appends: the cells already present keep their place
/// and contents, and every appended cell is empty.
pub proof fn lemma_discover_extends(es: Seq<CacheEntryModel>, listed: Seq<Seq<char>>)
    ensures
        discover_spec(es, listed).len() >= es.len(),
        forall|j: int| 0 <= j < es.len() ==> discover_spec(es, listed)[j] == es[j],
        forall|j: int|
            es.len() <= j < discover_spec(es, listed).len() ==> (#[trigger] discover_spec(
                es,
                listed,
            )[j]).snapshot is None,
    decreases listed.len(),
{
    if listed.len() > 0 {
        lemma_discover_extends(es, listed.drop_last());
    }
}

/// After a discovery tick, every listed container has a cell.
pub proof fn lemma_discover_covers(es: Seq<CacheEntryModel>, listed: Seq<Seq<char>>)
    ensures
        forall|i: int|
            0 <= i < listed.len() ==> index_of_id(discover_spec(es, listed), #[trigger] listed[i])
                >= 0,
    decreases listed.len(),
{
    if listed.len() > 0 {
        lemma_discover_covers(es, listed.drop_last());
        let prev = discover_spec(es, listed.drop_last());
        let cur = discover_spec(es, listed);
        assert forall|i: int| 0 <= i < listed.len() implies index_of_id(
            cur,
            #[trigger] listed[i],
        ) >= 0 by {
            if i < listed.len() - 1 {
                assert(listed.drop_last()[i] == listed[i]);
                lemma_index_of_id(prev, listed[i]);
                let j = choose|j: int| 0 <= j < prev.len() && prev[j].id == listed[i];
                lemma_index_of_id(cur, listed[i]);
                if cur.len() > prev.len() {
                    assert(cur[j].id == listed[i]);
                }
            } else {
                lemma_index_of_id(prev, listed[i]);
                lemma_index_of_id(cur, listed[i]);
                if index_of_id(prev, listed.last()) < 0 {
                    assert(cur.last().id == listed[i]);
                }
            }
        }
    }
}

impl StatsCache {
    /// An empty cache: what the dashboard starts from.
    pub fn new() -> (r: Self)
        ensures
            r@ =~= Seq::<CacheEntryModel>::empty(),
            cache_wf(r@),
    {
        StatsCache { entries: Vec::new() }
    }

    /// The position of the cell for `id`, if one exists.
    fn find(&self, id: &String) -> (r: Option<usize>)
        ensures
            match r {
                Option::Some(k) => k < self@.len() && index_of_id(self@, id@) == k as int,
                Option::None => index_of_id(self@, id@) < 0,
            },
    {
        let n = self.entries.len();
        let mut k: usize = 0;
        while k < n
            invariant
                k <= n,
                n == self@.len(),
                forall|j: int| 0 <= j < k ==> self@[j].id != id@,
            decreases n - k,
        {
            if self.entries[k].id == *id {
                proof {
                    lemma_index_of_id_at(self@, id@, k as int);
                }
                return Option::Some(k);
            }
            k = k + 1;
        }
        proof {
            lemma_index_of_id(self@, id@);
        }
        Option::None
    }

    /// Whether a cell for `id` exists.
    pub fn contains_id(&self, id: &String) -> (r: bool)
        ensures
            r <==> index_of_id(self@, id@) >= 0,
    {
        self.find(id).is_some()
    }

    /// One discovery tick: opens an empty cell for every listed container
    /// not seen before and returns those ids — the containers that need a
    /// poller started.
    pub fn discover(&mut self, listed: &Vec<String>) -> (new_ids: Vec<String>)
        requires
            cache_wf(old(self)@),
        ensures
            cache_wf(final(self)@),
            final(self)@ == discover_spec(old(self)@, str_views(listed@)),
            str_views(new_ids@) == cache_ids(final(self)@).skip(old(self)@.len() as int),
    {
        let ghost old_es = self@;
        let ghost views = str_views(listed@);
        let mut new_ids: Vec<String> = Vec::new();
        let n = listed.len();
        let mut k: usize = 0;
        proof {
            assert(views.take(0) =~= Seq::<Seq<char>>::empty());
            assert(str_views(new_ids@) =~= cache_ids(self@).skip(old_es.len() as int));
        }
        while k < n
            invariant
                k <= n,
                n == listed@.len(),
                views == str_views(listed@),
                views.len() == n,
                forall|j: int| 0 <= j < n ==> views[j] == listed@[j]@,
                cache_wf(self@),
                old_es.len() <= self@.len(),
                self@ == discover_spec(old_es, views.take(k as int)),
                str_views(new_ids@) == cache_ids(self@).skip(old_es.len() as int),
            decreases n - k,
        {
            proof {
                assert(views.take(k + 1).drop_last() =~= views.take(k as int));
                assert(views.take(k + 1).last() == listed@[k as int]@);
            }
            match self.find(&listed[k]) {
                Option::Some(_) => {},
                Option::None => {
                    proof {
                        lemma_index_of_id(self@, listed@[k as int]@);
                    }
                    let ghost prev_es = self@;
                    let ghost prev_ids = new_ids@;
                    let id = listed[k].clone();
                    let id_again = listed[k].clone();
                    self.entries.push(CacheEntry { id, snapshot: Option::None });
                    new_ids.push(id_again);
                    proof {
                        let idv = listed@[k as int]@;
                        assert(self@ =~= prev_es.push(
                            CacheEntryModel { id: idv, snapshot: Option::None },
                        ));
                        assert(self@ =~= discover_spec(old_es, views.take(k + 1)));
                        assert(cache_ids(self@) =~= cache_ids(prev_es).push(idv));
                        assert(str_views(new_ids@) =~= str_views(prev_ids).push(idv));
                        assert(cache_ids(self@).skip(old_es.len() as int) =~= cache_ids(
                            prev_es,
                        ).skip(old_es.len() as int).push(idv));
                        assert(str_views(new_ids@) =~= cache_ids(self@).skip(old_es.len() as int));
                    }
                },
            }
            k = k + 1;
        }
        proof {
            assert(views.take(n as int) =~= views);
        }
        new_ids
    }

    /// A poller's write: replaces the cell's value with the new sample.
    /// Returns whether a cell for `id` existed; an unknown id changes
    /// nothing.
    pub fn record_sample(&mut self, id: &String, sample: StatsSnapshot) -> (updated: bool)
        requires
            cache_wf(old(self)@),
        ensures
            cache_wf(final(self)@),
            updated <==> index_of_id(old(self)@, id@) >= 0,
            updated ==> final(self)@ == old(self)@.update(
                index_of_id(old(self)@, id@),
                CacheEntryModel {
                    id: old(self)@[index_of_id(old(self)@, id@)].id,
                    snapshot: Option::Some(sample@),
                },
            ),
            !updated ==> final(self)@ == old(self)@,
    {
        let ghost sv = sample@;
        match self.find(id) {
            Option::Some(k) => {
                proof {
                    lemma_index_of_id(self@, id@);
                }
                let entry = &mut self.entries[k];
                entry.snapshot = Option::Some(sample);
                proof {
                    assert(self@ =~= old(self)@.update(
                        index_of_id(old(self)@, id@),
                        CacheEntryModel {
                            id: old(self)@[index_of_id(old(self)@, id@)].id,
                            snapshot: Option::Some(sv),
                        },
                    ));
                    assert(cache_wf(self@));
                }
                true
            },
            Option::None => false,
        }
    }

    /// A poller's sign-off: on stream end the cell goes back to empty,
    /// but keeps its place. Returns whether a cell for `id` existed.
    pub fn clear_sample(&mut self, id: &String) -> (cleared: bool)
        requires
            cache_wf(old(self)@),
        ensures
            cache_wf(final(self)@),
            cleared <==> index_of_id(old(self)@, id@) >= 0,
            cleared ==> final(self)@ == old(self)@.update(
                index_of_id(old(self)@, id@),
                CacheEntryModel {
                    id: old(self)@[index_of_id(old(self)@, id@)].id,
                    snapshot: Option::None,
                },
            ),
            !cleared ==> final(self)@ == old(self)@,
    {
        match self.find(id) {
            Option::Some(k) => {
                proof {
                    lemma_index_of_id(self@, id@);
                }
                let entry = &mut self.entries[k];
                entry.snapshot = Option::None;
                proof {
                    assert(self@ =~= old(self)@.update(
                        index_of_id(old(self)@, id@),
                        CacheEntryModel {
                            id: old(self)@[index_of_id(old(self)@, id@)].id,
                            snapshot: Option::None,
                        },
                    ));
                    assert(cache_wf(self@));
                }
                true
            },
            Option::None => false,
        }
    }

    /// The rows of one render tick: one per container whose cell holds a
    /// sample, in observation order. Cells with no sample give no row.
    pub fn render_rows(&self) -> (r: Vec<String>)
        ensures
            str_views(r@) == render_rows_spec(self@),
    {
        let mut out: Vec<String> = Vec::new();
        let n = self.entries.len();
        let mut k: usize = 0;
        proof {
            assert(self@.take(0) =~= Seq::<CacheEntryModel>::empty());
            assert(str_views(out@) =~= render_rows_spec(self@.take(0)));
        }
        while k < n
            invariant
                k <= n,
                n == self@.len(),
                str_views(out@) == render_rows_spec(self@.take(k as int)),
            decreases n - k,
        {
            proof {
                assert(self@.take(k + 1).drop_last() =~= self@.take(k as int));
                assert(self@.take(k + 1).last() == self@[k as int]);
            }
            match &self.entries[k].snapshot {
                Option::Some(snapshot) => {
                    let row = row_string(snapshot);
                    out.push(row);
                },
                Option::None => {},
            }
            proof {
                assert(str_views(out@) =~= render_rows_spec(self@.take(k + 1)));
            }
            k = k + 1;
        }
        proof {
            assert(self@.take(n as int) =~= self@);
        }
        out
    }
}

/// A counter column: the count in decimal, or `-` when the sample lacks
/// it.
pub open spec fn counter_chars(v: Option<u64>) -> Seq<char> {
    match v {
        Option::Some(n) => dec_str(n as nat),
        Option::None => seq!['-'],
    }
}

/// One dashboard row: id, name, CPU counter, memory, network RX and
/// `read/write` block I/O, tab-separated, absent counters as `-`.
pub open spec fn row_chars(s: SnapshotModel) -> Seq<char> {
    s.id + seq!['\t'] + s.name + seq!['\t'] + dec_str(s.cpu_total as nat) + seq!['\t']
        + counter_chars(s.memory_usage) + seq!['\t'] + counter_chars(s.network_rx) + seq!['\t']
        + counter_chars(s.block_read) + seq!['/'] + counter_chars(s.block_write)
}

/// The rows of a cache state, skipping cells that hold no sample.
pub open spec fn render_rows_spec(es: Seq<CacheEntryModel>) -> Seq<Seq<char>>
    decreases es.len(),
{
    if es.len() == 0 {
        Seq::empty()
    } else {
        render_rows_spec(es.drop_last()) + match es.last().snapshot {
            Option::Some(s) => seq![row_chars(s)],
            Option::None => Seq::empty(),
        }
    }
}

/// The dashboard's header line.
pub open spec fn header_chars() -> Seq<char> {
    "Container ID\tName\tCPU\tMemory\tNetwork\tBlock I/O"@
}

/// The header row above the rendered rows.
pub fn header_row() -> (r: String)
    ensures
        r@ == header_chars(),
{
    String::from_str("Container ID\tName\tCPU\tMemory\tNetwork\tBlock I/O")
}

/// Renders one counter column.
fn counter_string(v: &Option<u64>) -> (r: String)
    ensures
        r@ == counter_chars(*v),
{
    match v {
        Option::Some(n) => u64_to_string(*n),
        Option::None => {
            proof {
                reveal_strlit("-");
                assert("-"@ =~= seq!['-']);
            }
            String::from_str("-")
        },
    }
}

/// Renders one dashboard row.
fn row_string(s: &StatsSnapshot) -> (r: String)
    ensures
        r@ == row_chars(s@),
{
    proof {
        reveal_strlit("\t");
        assert("\t"@ =~= seq!['\t']);
        reveal_strlit("/");
        assert("/"@ =~= seq!['/']);
    }
    let mut row = String::new();
    row.append(s.id.as_str());
    row.append("\t");
    row.append(s.name.as_str());
    row.append("\t");
    let cpu = u64_to_string(s.cpu_total);
    row.append(cpu.as_str());
    row.append("\t");
    let memory = counter_string(&s.memory_usage);
    row.append(memory.as_str());
    row.append("\t");
    let network = counter_string(&s.network_rx);
    row.append(network.as_str());
    row.append("\t");
    let read = counter_string(&s.block_read);
    row.append(read.as_str());
    row.append("/");
    let write = counter_string(&s.block_write);
    row.append(write.as_str());
    proof {
        assert(row@ =~= row_chars(s@));
    }
    row
}

/// A cell without a sample contributes nothing to the rendered rows: the
/// output is the same as if the cell were not there at all.
pub proof fn lemma_empty_cell_not_rendered(es: Seq<CacheEntryModel>, k: int)
    requires
        0 <= k < es.len(),
        es[k].snapshot is None,
    ensures
        render_rows_spec(es) == render_rows_spec(es.remove(k)),
    decreases es.len(),
{
    if k == es.len() - 1 {
        assert(es.remove(k) =~= es.drop_last());
    } else {
        assert(es.remove(k).drop_last() =~= es.drop_last().remove(k));
        assert(es.remove(k).last() == es.last());
        lemma_empty_cell_not_rendered(es.drop_last(), k);
    }
}

/// Once a poller has cleared its cell, the container's row is gone from
/// every later render tick, exactly as if the container had never been
/// observed.
pub proof fn lemma_cleared_row_absent(es: Seq<CacheEntryModel>, k: int)
    requires
        0 <= k < es.len(),
    ensures
        render_rows_spec(
            es.update(k, CacheEntryModel { id: es[k].id, snapshot: Option::None }),
        ) == render_rows_spec(es.remove(k)),
{
    let cleared = es.update(k, CacheEntryModel { id: es[k].id, snapshot: Option::None });
    lemma_empty_cell_not_rendered(cleared, k);
    assert(cleared.remove(k) =~= es.remove(k));
}

} // verus!