//! The log-structured storage engine.
//!
//! A store is a directory of numbered segment files.  Every mutation is
//! appended to the active (highest-numbered) segment as one record; an
//! in-memory [`Index`] maps each key to the exact location of its latest
//! `Set` record, and a ghost [`Map`] of key characters to value characters —
//! the store's *model* — says what the store holds.  The contracts of
//! `set`, `get` and `remove` are stated against that model; the invariant
//! ties every index entry to the literal record bytes on disk, and — while
//! the store is durable — ties the whole directory to the model through
//! [`replay_files`].

use crate::codec::{
    concat_enc, decode_all, lemma_concat_enc_push, lemma_record_unique, parses_to, record_at,
    spec_encode, Command, CommandModel,
};
use crate::disk::{seg_files, MetaFile, SegmentDir};
use crate::error::Error;
use crate::file::{
    data_name, lemma_data_name_parts, lemma_dec_digits_injective, parse_data_name, CmdInfo,
    Location,
};
use crate::index::Index;
use vstd::prelude::*;

verus! {

/// Default threshold of superseded bytes above which compaction is asked
/// for: 2 MiB.
pub const COMPACT_THRESHOLD: u64 = 2 * 1024 * 1024;

/// Default value of the active-segment size knob.  The engine accepts the
/// setting but never rolls the active segment on size: compaction alone
/// retires segments.
pub const ACTIVE_THRESHOLD: u64 = 1024 * 1024;

/// One command applied to the logical contents of the store.
pub open spec fn apply(m: Map<Seq<char>, Seq<char>>, c: CommandModel) -> Map<Seq<char>, Seq<char>> {
    match c {
        CommandModel::Put(k, v) => m.insert(k, v),
        CommandModel::Rm(k) => m.remove(k),
    }
}

/// A sequence of commands applied in order.
pub open spec fn replay(m: Map<Seq<char>, Seq<char>>, cs: Seq<CommandModel>) -> Map<
    Seq<char>,
    Seq<char>,
>
    decreases cs.len(),
{
    if cs.len() == 0 {
        m
    } else {
        replay(apply(m, cs[0]), cs.drop_first())
    }
}

/// Replaying one more command applies it to the replayed state.
pub proof fn lemma_replay_push(m: Map<Seq<char>, Seq<char>>, cs: Seq<CommandModel>, c: CommandModel)
    ensures
        replay(m, cs.push(c)) == apply(replay(m, cs), c),
    decreases cs.len(),
{
    if cs.len() == 0 {
        assert(cs.push(c).drop_first() =~= Seq::<CommandModel>::empty());
        assert(cs.push(c)[0] == c);
        assert(replay(m, cs.push(c)) == replay(apply(m, c), Seq::<CommandModel>::empty()));
        assert(replay(apply(m, c), Seq::<CommandModel>::empty()) == apply(m, c));
        assert(replay(m, cs) == m);
    } else {
        assert(cs.push(c)[0] == cs[0]);
        assert(cs.push(c).drop_first() =~= cs.drop_first().push(c));
        lemma_replay_push(apply(m, cs[0]), cs.drop_first(), c);
        assert(replay(m, cs.push(c)) == replay(apply(m, cs[0]), cs.drop_first().push(c)));
        assert(replay(m, cs) == replay(apply(m, cs[0]), cs.drop_first()));
    }
}

/// True when the bytes split into a whole number of records.
pub open spec fn decodable(b: Seq<u8>) -> bool {
    exists|cs: Seq<CommandModel>| parses_to(b, cs)
}

/// The records a segment's bytes hold, where some split exists.
pub open spec fn records_of(b: Seq<u8>) -> Seq<CommandModel> {
    choose|cs: Seq<CommandModel>| #[trigger] parses_to(b, cs)
}

/// The store contents that a set of segment files reproduces: the files'
/// records replayed in ascending id order onto the empty map.
pub open spec fn replay_files(view: Map<int, Seq<u8>>, files: Seq<u64>) -> Map<Seq<char>, Seq<char>>
    decreases files.len(),
{
    if files.len() == 0 {
        Map::empty()
    } else {
        replay(
            replay_files(view, files.drop_last()),
            records_of(view[files.last() as int]),
        )
    }
}

/// Replay only reads the files it is given: two directory states that agree
/// on those files replay alike.
pub proof fn lemma_replay_files_agree(v1: Map<int, Seq<u8>>, v2: Map<int, Seq<u8>>, files: Seq<u64>)
    requires
        forall|i: int|
            0 <= i < files.len() ==> v1[#[trigger] files[i] as int] == v2[files[i] as int],
    ensures
        replay_files(v1, files) == replay_files(v2, files),
    decreases files.len(),
{
    if files.len() > 0 {
        assert(forall|i: int|
            0 <= i < files.drop_last().len() ==> #[trigger] files.drop_last()[i] == files[i]);
        lemma_replay_files_agree(v1, v2, files.drop_last());
        assert(files.last() == files[files.len() - 1]);
    }
}

/// The byte length of the `Set` record binding `k` to `v`.
pub open spec fn set_record_len(k: Seq<char>, v: Seq<char>) -> nat {
    spec_encode(CommandModel::Put(k, v)).len()
}

/// The byte length of the `Rm` tombstone for `k`.
pub open spec fn rm_record_len(k: Seq<char>) -> nat {
    spec_encode(CommandModel::Rm(k)).len()
}

/// `u64` addition that sticks at the ceiling, as the garbage counter does.
pub open spec fn sat_add64(a: u64, b: nat) -> u64 {
    if a + b > u64::MAX {
        u64::MAX
    } else {
        (a + b) as u64
    }
}

/// What one command adds to the garbage counter when applied to contents
/// `m`: the replaced record's bytes for a rebinding `Set`; for an `Rm`, the
/// removed record's bytes and then the tombstone's own.
pub open spec fn garbage_step(g: u64, m: Map<Seq<char>, Seq<char>>, c: CommandModel) -> u64 {
    match c {
        CommandModel::Put(k, _) => if m.contains_key(k) {
            sat_add64(g, set_record_len(k, m[k]))
        } else {
            g
        },
        CommandModel::Rm(k) => {
            let g1 = if m.contains_key(k) {
                sat_add64(g, set_record_len(k, m[k]))
            } else {
                g
            };
            sat_add64(g1, rm_record_len(k))
        },
    }
}

/// The garbage counter after a sequence of commands is applied in order.
pub open spec fn replay_garbage(g: u64, m: Map<Seq<char>, Seq<char>>, cs: Seq<CommandModel>) -> u64
    decreases cs.len(),
{
    if cs.len() == 0 {
        g
    } else {
        replay_garbage(garbage_step(g, m, cs[0]), apply(m, cs[0]), cs.drop_first())
    }
}

/// The garbage counter the load path reconstructs: every file's records
/// accounted in ascending id order, starting from zero.
pub open spec fn replay_files_garbage(view: Map<int, Seq<u8>>, files: Seq<u64>) -> u64
    decreases files.len(),
{
    if files.len() == 0 {
        0
    } else {
        replay_garbage(
            replay_files_garbage(view, files.drop_last()),
            replay_files(view, files.drop_last()),
            records_of(view[files.last() as int]),
        )
    }
}

/// Accounting one more command steps the garbage from the replayed state.
pub proof fn lemma_replay_garbage_push(
    g: u64,
    m: Map<Seq<char>, Seq<char>>,
    cs: Seq<CommandModel>,
    c: CommandModel,
)
    ensures
        replay_garbage(g, m, cs.push(c)) == garbage_step(
            replay_garbage(g, m, cs),
            replay(m, cs),
            c,
        ),
    decreases cs.len(),
{
    if cs.len() == 0 {
        assert(cs.push(c).drop_first() =~= Seq::<CommandModel>::empty());
        assert(cs.push(c)[0] == c);
        assert(replay_garbage(g, m, cs.push(c)) == replay_garbage(
            garbage_step(g, m, c),
            apply(m, c),
            Seq::<CommandModel>::empty(),
        ));
        assert(replay_garbage(g, m, cs) == g);
        assert(replay(m, cs) == m);
    } else {
        assert(cs.push(c)[0] == cs[0]);
        assert(cs.push(c).drop_first() =~= cs.drop_first().push(c));
        lemma_replay_garbage_push(garbage_step(g, m, cs[0]), apply(m, cs[0]), cs.drop_first(), c);
        lemma_replay_push(m, cs, c);
        assert(replay_garbage(g, m, cs.push(c)) == replay_garbage(
            garbage_step(g, m, cs[0]),
            apply(m, cs[0]),
            cs.drop_first().push(c),
        ));
        assert(replay_garbage(g, m, cs) == replay_garbage(
            garbage_step(g, m, cs[0]),
            apply(m, cs[0]),
            cs.drop_first(),
        ));
        assert(replay(m, cs) == replay(apply(m, cs[0]), cs.drop_first()));
    }
}

/// Strictly ascending segment ids.
pub open spec fn strictly_sorted_u64(s: Seq<u64>) -> bool {
    forall|i: int, j: int| 0 <= i < j < s.len() ==> #[trigger] s[i] < #[trigger] s[j]
}

/// The `meta` body that marks a directory as this engine's.
pub open spec fn kvs_bytes() -> Seq<u8> {
    seq![107u8, 118u8, 115u8]
}

/// True when the bytes are exactly the `kvs` marker.
fn is_kvs(b: &Vec<u8>) -> (r: bool)
    ensures
        r == (b@ == kvs_bytes()),
{
    if b.len() != 3 {
        proof {
            assert(b@.len() != kvs_bytes().len());
        }
        return false;
    }
    let r = b[0] == 107 && b[1] == 118 && b[2] == 115;
    proof {
        if r {
            assert(b@ =~= kvs_bytes());
        } else {
            if b@ == kvs_bytes() {
                assert(b@[0] == 107 && b@[1] == 118 && b@[2] == 115);
            }
        }
    }
    r
}

/// The `kvs` marker, as the byte vector written into a fresh `meta` file.
pub fn kvs_marker() -> (r: Vec<u8>)
    ensures
        r@ == kvs_bytes(),
{
    let mut marker: Vec<u8> = Vec::new();
    marker.push(107);
    marker.push(118);
    marker.push(115);
    proof {
        assert(marker@ =~= kvs_bytes());
    }
    marker
}

/// Decide what a directory's `meta` entry means for opening a store there:
/// `Ok(true)` to initialize a fresh directory — no marker and no segment
/// file present — `Ok(false)` to load an existing store, and the exact
/// error otherwise.
pub fn classify_meta(meta: &MetaFile, ids: &Vec<u64>, dir: &str) -> (r: Result<bool, Error>)
    ensures
        match meta {
            MetaFile::IsDir => r matches Err(e) && e is InvalidMeta,
            MetaFile::Contents(b) => if b@ == kvs_bytes() {
                r == Ok::<bool, Error>(false)
            } else {
                r matches Err(e) && e is InvalidMeta
            },
            MetaFile::Absent => if ids@.len() == 0 {
                r == Ok::<bool, Error>(true)
            } else {
                r matches Err(e) && e is BadPath
            },
        },
{
    match meta {
        MetaFile::IsDir => Err(Error::InvalidMeta(dir.to_owned())),
        MetaFile::Contents(b) => {
            if is_kvs(b) {
                Ok(false)
            } else {
                Err(Error::InvalidMeta(dir.to_owned()))
            }
        },
        MetaFile::Absent => {
            if ids.len() == 0 {
                Ok(true)
            } else {
                Err(Error::BadPath(dir.to_owned()))
            }
        },
    }
}

/// Insert an id into an ascending list, keeping it ascending and dropping
/// duplicates.
fn insert_sorted(v: &mut Vec<u64>, x: u64)
    requires
        strictly_sorted_u64(old(v)@),
    ensures
        strictly_sorted_u64(final(v)@),
        forall|y: u64| final(v)@.contains(y) <==> (old(v)@.contains(y) || y == x),
{
    let n = v.len();
    let mut i: usize = 0;
    while i < n && v[i] < x
        invariant
            strictly_sorted_u64(v@),
            v == old(v),
            n == v@.len(),
            0 <= i <= n,
            forall|j: int| 0 <= j < i ==> #[trigger] v@[j] < x,
        decreases n - i,
    {
        i = i + 1;
    }
    if i < n && v[i] == x {
        proof {
            assert(v@.contains(x));
            assert(forall|y: u64| v@.contains(y) <==> (old(v)@.contains(y) || y == x));
        }
        return ;
    }
    proof {
        assert(forall|j: int| i <= j < n ==> #[trigger] v@[j] > x) by {
            if i < n {
                assert(v@[i as int] >= x);
                assert(v@[i as int] != x);
                assert(forall|j: int|
                    i < j < n ==> v@[i as int] < #[trigger] v@[j]);
            }
        }
    }
    v.insert(i, x);
    proof {
        let s = v@;
        let t = old(v)@;
        assert(s == t.insert(i as int, x));
        assert(forall|j: int| 0 <= j < i ==> #[trigger] s[j] == t[j]);
        assert(s[i as int] == x);
        assert(forall|j: int| i < j < s.len() ==> #[trigger] s[j] == t[j - 1]);
        assert(strictly_sorted_u64(s));
        assert forall|y: u64| s.contains(y) <==> (t.contains(y) || y == x) by {
            if s.contains(y) {
                let j = choose|j: int| 0 <= j < s.len() && s[j] == y;
                if j < i {
                    assert(t[j] == y);
                    assert(t.contains(y));
                } else if j == i {
                } else {
                    assert(t[j - 1] == y);
                    assert(t.contains(y));
                }
            }
            if t.contains(y) {
                let j = choose|j: int| 0 <= j < t.len() && t[j] == y;
                if j < i {
                    assert(s[j] == y);
                } else {
                    assert(s[j + 1] == y);
                }
                assert(s.contains(y));
            }
            if y == x {
                assert(s[i as int] == y);
                assert(s.contains(y));
            }
        }
    }
}

/// Parse every directory entry name; the ascending list of ids whose
/// canonical segment file name appeared.
fn collect_ids(names: &Vec<Vec<u8>>) -> (r: Vec<u64>)
    ensures
        strictly_sorted_u64(r@),
        forall|id: u64|
            r@.contains(id) <==> exists|i: int|
                0 <= i < names@.len() && #[trigger] names@[i]@ == data_name(id as nat),
{
    let n = names.len();
    let mut ids: Vec<u64> = Vec::new();
    let mut i: usize = 0;
    while i < n
        invariant
            n == names@.len(),
            0 <= i <= n,
            strictly_sorted_u64(ids@),
            forall|id: u64|
                ids@.contains(id) <==> exists|j: int|
                    0 <= j < i && #[trigger] names@[j]@ == data_name(id as nat),
        decreases n - i,
    {
        let ghost pre = ids@;
        match parse_data_name(names[i].as_slice()) {
            Some(id) => {
                insert_sorted(&mut ids, id);
                proof {
                    assert(names@[i as int]@ == data_name(id as nat));
                    assert forall|y: u64|
                        ids@.contains(y) <==> exists|j: int|
                            0 <= j < i + 1 && #[trigger] names@[j]@ == data_name(y as nat) by {
                        if ids@.contains(y) {
                            if pre.contains(y) {
                            } else {
                                assert(y == id);
                            }
                        }
                        if exists|j: int|
                            0 <= j < i + 1 && #[trigger] names@[j]@ == data_name(y as nat) {
                            let j = choose|j: int|
                                0 <= j < i + 1 && #[trigger] names@[j]@ == data_name(y as nat);
                            if j < i {
                                assert(pre.contains(y));
                            } else {
                                lemma_data_name_injective(y as nat, id as nat);
                                assert(y == id);
                            }
                        }
                    }
                }
            },
            None => {
                proof {
                    assert forall|y: u64|
                        ids@.contains(y) <==> exists|j: int|
                            0 <= j < i + 1 && #[trigger] names@[j]@ == data_name(y as nat) by {
                        if exists|j: int|
                            0 <= j < i + 1 && #[trigger] names@[j]@ == data_name(y as nat) {
                            let j = choose|j: int|
                                0 <= j < i + 1 && #[trigger] names@[j]@ == data_name(y as nat);
                            assert(j < i || names@[i as int]@ == data_name(y as nat));
                        }
                    }
                }
            },
        }
        i = i + 1;
    }
    ids
}

/// Two ids with the same segment file name are the same id.
pub proof fn lemma_data_name_injective(a: nat, b: nat)
    requires
        data_name(a) == data_name(b),
    ensures
        a == b,
{
    lemma_data_name_parts(data_name(a), a);
    lemma_data_name_parts(data_name(b), b);
    lemma_dec_digits_injective(a, b);
}

/// The persistent key-value store: a handle on one store directory.
pub struct KvStore {
    disk: SegmentDir,
    index: Index,
    files: Vec<u64>,
    active_id: u64,
    lowest_id: u64,
    garbage: u64,
    cthreshold: u64,
    wthreshold: u64,
    healthy: bool,
    model: Ghost<Map<Seq<char>, Seq<char>>>,
}

/// Configuration for opening a [`KvStore`].
pub struct KvStoreBuilder {
    dir: String,
    cthreshold: u64,
    wthreshold: u64,
}

impl KvStoreBuilder {
    /// The compaction threshold this builder will hand the store.
    pub closed spec fn spec_cthreshold(&self) -> u64 {
        self.cthreshold
    }

    /// The nominal active-segment ceiling held by this builder.
    pub closed spec fn spec_wthreshold(&self) -> u64 {
        self.wthreshold
    }

    /// The directory this builder points at.
    pub closed spec fn spec_dir(&self) -> Seq<char> {
        self.dir@
    }
}

impl KvStore {
    /// What the store holds: each key's current value.
    pub closed spec fn model(&self) -> Map<Seq<char>, Seq<char>> {
        self.model@
    }

    /// The directory's segment files, by id.
    pub closed spec fn disk_view(&self) -> Map<int, Seq<u8>> {
        seg_files(self.disk)
    }

    /// The ascending ids of the live segment files.
    pub closed spec fn file_ids(&self) -> Seq<u64> {
        self.files@
    }

    /// True while no write or delete failure has broken the guarantee that
    /// reopening the directory reproduces the model.
    pub closed spec fn durable(&self) -> bool {
        self.healthy
    }

    /// The compaction threshold this store was opened with.
    pub closed spec fn spec_cthreshold(&self) -> u64 {
        self.cthreshold
    }

    /// The running count of superseded bytes since the last compaction.
    pub closed spec fn spec_garbage(&self) -> u64 {
        self.garbage
    }

    /// The id of the active segment: the one appends go to.
    pub closed spec fn spec_active_id(&self) -> u64 {
        self.active_id
    }

    /// The smallest segment id that must still be readable.
    pub closed spec fn spec_lowest_id(&self) -> u64 {
        self.lowest_id
    }

    /// The total byte length of the records the index points at: the live
    /// bytes of the store.
    pub closed spec fn live_record_bytes(&self) -> nat {
        self.index.lens_sum()
    }

    /// One index entry points at a live, intact `Set` record for its key.
    pub closed spec fn inv_entry_ok(&self, k: Seq<char>) -> bool {
        let ci = self.index@[k];
        &&& seg_files(self.disk).dom().contains(ci.loc.id as int)
        &&& self.lowest_id <= ci.loc.id <= self.active_id
        &&& ci.loc.offset + ci.len <= seg_files(self.disk)[ci.loc.id as int].len()
        &&& seg_files(self.disk)[ci.loc.id as int].subrange(
            ci.loc.offset as int,
            ci.loc.offset as int + ci.len as int,
        ) == spec_encode(CommandModel::Put(k, self.model@[k]))
    }

    /// The index matches the model and points at true records.
    pub closed spec fn inv_index(&self) -> bool {
        &&& self.index.wf()
        &&& forall|k: Seq<char>|
            #[trigger] self.index@.contains_key(k) <==> self.model@.contains_key(k)
        &&& forall|k: Seq<char>| #[trigger] self.index@.contains_key(k) ==> self.inv_entry_ok(k)
    }

    /// The live file list is ascending, ends at the active segment, and
    /// every listed file exists.
    pub closed spec fn inv_files(&self) -> bool {
        &&& self.files@.len() >= 1
        &&& strictly_sorted_u64(self.files@)
        &&& self.files@[self.files@.len() - 1] == self.active_id
        &&& self.lowest_id <= self.active_id
        &&& forall|i: int|
            0 <= i < self.files@.len() ==> seg_files(self.disk).dom().contains(
                #[trigger] self.files@[i] as int,
            )
        &&& forall|id: int| #[trigger] seg_files(self.disk).dom().contains(id) ==> 0 <= id <= u64::MAX
    }

    /// The directory replays to exactly the model: what reopening would
    /// reconstruct.  Holds while the store is durable.
    pub closed spec fn inv_replay(&self) -> bool {
        &&& forall|id: int|
            #[trigger] seg_files(self.disk).dom().contains(id) ==> self.files@.contains(id as u64)
        &&& forall|i: int|
            0 <= i < self.files@.len() ==> decodable(
                seg_files(self.disk)[#[trigger] self.files@[i] as int],
            )
        &&& forall|i: int|
            0 <= i < self.files@.len() ==> seg_files(self.disk)[#[trigger] self.files@[i] as int].len()
                <= u64::MAX
        &&& replay_files(seg_files(self.disk), self.files@) == self.model@
    }

    /// The robust part of well-formedness: index and file-list invariants.
    pub closed spec fn wf_core(&self) -> bool {
        &&& self.inv_index()
        &&& self.inv_files()
    }

    /// The store's well-formedness: what every operation preserves.
    pub closed spec fn wf(&self) -> bool {
        &&& self.wf_core()
        &&& (self.healthy ==> self.inv_replay())
    }

    /// Open a store in `dir` with the default configuration.
    pub fn open(dir: &str) -> (r: Result<KvStore, Error>)
        ensures
            r matches Ok(s) ==> {
                &&& s.wf()
                &&& s.durable()
                &&& s.spec_cthreshold() == COMPACT_THRESHOLD
                &&& s.model() == replay_files(s.disk_view(), s.file_ids())
                &&& s.spec_garbage() == replay_files_garbage(s.disk_view(), s.file_ids())
            },
            r matches Err(e) ==> e is Io || e is InvalidMeta || e is BadPath || e is Codec,
    {
        KvStoreBuilder::new(dir).build()
    }

    /// How many keys the store holds; zero exactly when it holds nothing,
    /// so a freshly initialized directory answers zero.
    pub fn key_count(&self) -> (r: usize)
        requires
            self.wf(),
        ensures
            (r == 0) <==> (self.model() =~= Map::<Seq<char>, Seq<char>>::empty()),
    {
        let n = self.index.len();
        proof {
            if n == 0 {
                assert forall|k: Seq<char>| !self.model().contains_key(k) by {
                    if self.model().contains_key(k) {
                        assert(self.index@.contains_key(k));
                    }
                }
                assert(self.model() =~= Map::<Seq<char>, Seq<char>>::empty());
            } else {
                let k = choose|k: Seq<char>| #[trigger] self.index@.contains_key(k);
                assert(self.model().contains_key(k));
            }
        }
        n
    }

    /// Whether the reopen guarantee still holds: no append or delete has
    /// failed midway since the store was opened.
    pub fn is_durable(&self) -> (r: bool)
        ensures
            r == self.durable(),
    {
        self.healthy
    }

    /// The count of superseded bytes accumulated since the last compaction.
    pub fn garbage_bytes(&self) -> (r: u64)
        ensures
            r == self.spec_garbage(),
    {
        self.garbage
    }

    /// The ids of the live segment files, ascending.
    pub fn segment_ids(&self) -> (r: Vec<u64>)
        requires
            self.wf(),
        ensures
            r@ == self.file_ids(),
    {
        let n = self.files.len();
        let mut out: Vec<u64> = Vec::new();
        let mut i: usize = 0;
        while i < n
            invariant
                n == self.files@.len(),
                0 <= i <= n,
                out@ =~= self.files@.take(i as int),
            decreases n - i,
        {
            out.push(self.files[i]);
            proof {
                assert(out@ =~= self.files@.take(i + 1));
            }
            i = i + 1;
        }
        proof {
            assert(self.files@.take(n as int) =~= self.files@);
        }
        out
    }

    /// If the key is in the store, its value; `None` otherwise.  A key the
    /// store does not hold is answered `Ok(None)` outright; only a host
    /// file-system failure on a held key's record read gives an error.
    pub fn get(&self, key: String) -> (r: Result<Option<String>, Error>)
        requires
            self.wf(),
        ensures
            match r {
                Ok(opt) => match opt {
                    Some(v) => self.model().contains_key(key@) && v@ == self.model()[key@],
                    None => !self.model().contains_key(key@),
                },
                Err(e) => e is Io,
            },
            !self.model().contains_key(key@) ==> (r matches Ok(opt) && opt is None),
    {
        let info = match self.index.get(&key) {
            Some(info) => info,
            None => {
                return Ok(None);
            },
        };
        proof {
            assert(self.inv_entry_ok(key@));
            lemma_encode_nonempty();
            assert(seg_files(self.disk)[info.loc.id as int].subrange(
                info.loc.offset as int,
                info.loc.offset as int + info.len as int,
            ).len() == info.len);
            assert(info.len > 0);
        }
        let bytes = match self.disk.read_at(info.loc.id, info.loc.offset, info.len) {
            Ok(b) => b,
            Err(e) => {
                return Err(e);
            },
        };
        proof {
            assert(bytes@ == spec_encode(CommandModel::Put(key@, self.model()[key@])));
            assert(bytes@.subrange(0, bytes@.len() as int) =~= bytes@);
            assert(record_at(bytes@, 0, CommandModel::Put(key@, self.model()[key@])));
        }
        match Command::from_reader(bytes.as_slice(), 0) {
            Some((cmd, _n)) => {
                proof {
                    lemma_record_unique(
                        bytes@,
                        0,
                        cmd@,
                        CommandModel::Put(key@, self.model()[key@]),
                    );
                }
                match cmd {
                    Command::Put(k, v) => {
                        if k == key {
                            Ok(Some(v))
                        } else {
                            Err(Error::UnexpectCmd { found: k, expect: key })
                        }
                    },
                    Command::Rm(k) => Err(Error::UnexpectCmd { found: k, expect: key }),
                }
            },
            None => Err(Error::Codec),
        }
    }

    /// Bind `key` to `val`: append a `Set` record to the active segment,
    /// then move the index to it.  Fails only when the host file system
    /// fails the append, and then changes nothing visible.
    pub fn set(&mut self, key: String, val: String) -> (r: Result<(), Error>)
        requires
            old(self).wf(),
        ensures
            final(self).wf(),
            final(self).spec_cthreshold() == old(self).spec_cthreshold(),
            final(self).durable() ==> old(self).durable(),
            r matches Ok(_) ==> final(self).model() == old(self).model().insert(key@, val@),
            r matches Ok(_) ==> {
                let g = sat_add64(
                    old(self).spec_garbage(),
                    if old(self).model().contains_key(key@) {
                        set_record_len(key@, old(self).model()[key@])
                    } else {
                        0
                    },
                );
                &&& (g <= old(self).spec_cthreshold() ==> {
                    &&& final(self).spec_garbage() == g
                    &&& final(self).durable() == old(self).durable()
                    &&& final(self).file_ids() == old(self).file_ids()
                    &&& final(self).spec_active_id() == old(self).spec_active_id()
                    &&& final(self).spec_lowest_id() == old(self).spec_lowest_id()
                    &&& final(self).disk_view() == old(self).disk_view().insert(
                        old(self).spec_active_id() as int,
                        old(self).disk_view()[old(self).spec_active_id() as int] + spec_encode(
                            CommandModel::Put(key@, val@),
                        ),
                    )
                })
                &&& (g > old(self).spec_cthreshold() ==> final(self).spec_garbage() == 0
                    || final(self).spec_garbage() == g)
            },
            r matches Err(e) ==> final(self).model() == old(self).model() && e is Io
                && final(self).spec_garbage() == old(self).spec_garbage()
                && final(self).file_ids() == old(self).file_ids(),
    {
        let ghost k = key@;
        let ghost v = val@;
        let key2 = key.clone();
        let cmd = Command::Put(key, val);
        let bytes = cmd.ser();
        let active = self.active_id;
        let off = match self.disk.append(active, &bytes) {
            Ok(off) => off,
            Err(e) => {
                self.healthy = false;
                proof {
                    lemma_append_partial(*old(self), *self);
                }
                return Err(e);
            },
        };
        proof {
            lemma_append_ok(*old(self), *self, CommandModel::Put(k, v), off);
        }
        let info = CmdInfo::new(active, off, bytes.len());
        proof {
            if old(self).index@.contains_key(k) {
                assert(old(self).inv_entry_ok(k));
                lemma_entry_len(*old(self), k);
            }
        }
        let prev = self.index.insert(key2, info);
        proof {
            self.model = Ghost(self.model@.insert(k, v));
            lemma_set_install(*old(self), *self, k, v, off, bytes@.len() as int);
        }
        match prev {
            Some(old_info) => {
                self.garbage = self.garbage.saturating_add(old_info.len as u64);
            },
            None => (),
        }
        if self.garbage > self.cthreshold {
            let _ = self.compact();
        }
        Ok(())
    }

    /// Remove `key`: append an `Rm` tombstone record, then drop the key from
    /// the index.  `KeyNotFound` comes exactly when the store does not hold
    /// the key, and nothing is appended then; any other failure is the host
    /// file system's, and changes nothing visible.
    pub fn remove(&mut self, key: String) -> (r: Result<(), Error>)
        requires
            old(self).wf(),
        ensures
            final(self).wf(),
            final(self).spec_cthreshold() == old(self).spec_cthreshold(),
            final(self).durable() ==> old(self).durable(),
            r matches Ok(_) ==> {
                &&& old(self).model().contains_key(key@)
                &&& final(self).model() == old(self).model().remove(key@)
            },
            r matches Ok(_) ==> {
                let g = sat_add64(
                    sat_add64(old(self).spec_garbage(), set_record_len(key@, old(self).model()[key@])),
                    rm_record_len(key@),
                );
                &&& (g <= old(self).spec_cthreshold() ==> {
                    &&& final(self).spec_garbage() == g
                    &&& final(self).durable() == old(self).durable()
                    &&& final(self).file_ids() == old(self).file_ids()
                    &&& final(self).spec_active_id() == old(self).spec_active_id()
                    &&& final(self).spec_lowest_id() == old(self).spec_lowest_id()
                    &&& final(self).disk_view() == old(self).disk_view().insert(
                        old(self).spec_active_id() as int,
                        old(self).disk_view()[old(self).spec_active_id() as int] + spec_encode(
                            CommandModel::Rm(key@),
                        ),
                    )
                })
                &&& (g > old(self).spec_cthreshold() ==> final(self).spec_garbage() == 0
                    || final(self).spec_garbage() == g)
            },
            r matches Err(e) ==> {
                &&& final(self).model() == old(self).model()
                &&& (e is KeyNotFound <==> !old(self).model().contains_key(key@))
                &&& (e is KeyNotFound ==> *final(self) == *old(self))
                &&& (e is KeyNotFound || e is Io)
            },
    {
        match self.index.get(&key) {
            Some(_) => (),
            None => {
                return Err(Error::KeyNotFound(key));
            },
        }
        let ghost k = key@;
        let key2 = key.clone();
        let cmd = Command::Rm(key);
        let bytes = cmd.ser();
        let active = self.active_id;
        let off = match self.disk.append(active, &bytes) {
            Ok(off) => off,
            Err(e) => {
                self.healthy = false;
                proof {
                    lemma_append_partial(*old(self), *self);
                }
                return Err(e);
            },
        };
        let ghost mid = *self;
        proof {
            lemma_append_ok(*old(self), *self, CommandModel::Rm(k), off);
        }
        let rm_len = bytes.len();
        proof {
            assert(old(self).inv_entry_ok(k));
            lemma_entry_len(*old(self), k);
        }
        let prev = self.index.remove(&key2);
        proof {
            self.model = Ghost(old(self).model@.remove(k));
            lemma_remove_install(*old(self), mid, *self, k);
        }
        let prev_len = match prev {
            Some(old_info) => old_info.len as u64,
            None => 0,
        };
        self.garbage = self.garbage.saturating_add(prev_len);
        self.garbage = self.garbage.saturating_add(rm_len as u64);
        if self.garbage > self.cthreshold {
            let _ = self.compact();
        }
        Ok(())
    }

    /// Rewrite the live records into a fresh merge segment, point the index
    /// at it, advance the lowest live id, and delete the obsolete segments.
    ///
    /// The observable contents are untouched: the model after equals the
    /// model before.  After a successful pass the garbage counter is zero
    /// and the live segments hold exactly the bytes the index points at —
    /// nothing on disk is wasted.
    pub fn compact(&mut self) -> (r: Result<(), Error>)
        requires
            old(self).wf(),
        ensures
            final(self).wf(),
            final(self).model() == old(self).model(),
            final(self).spec_cthreshold() == old(self).spec_cthreshold(),
            final(self).durable() ==> old(self).durable(),
            r matches Err(e) ==> e is Io || e is UnknowErr,
            r matches Err(_) ==> final(self).spec_garbage() == old(self).spec_garbage()
                || final(self).spec_garbage() == 0,
            r is Ok ==> {
                &&& final(self).spec_garbage() == 0
                &&& total_segment_bytes(final(self).disk_view(), final(self).file_ids())
                    == final(self).live_record_bytes()
                &&& final(self).spec_active_id() == old(self).spec_active_id() + 2
                &&& final(self).spec_lowest_id() == old(self).spec_active_id() + 1
                &&& (final(self).file_ids() == seq![
                    (old(self).spec_active_id() + 1) as u64,
                    (old(self).spec_active_id() + 2) as u64,
                ] || final(self).file_ids() == seq![(old(self).spec_active_id() + 2) as u64])
            },
    {
        if self.active_id > u64::MAX - 2 {
            return Err(Error::UnknowErr("segment ids exhausted".to_owned()));
        }
        let merge_id = self.active_id + 1;
        let new_active = self.active_id + 2;
        let ghost pre = *self;
        match self.disk.create(new_active) {
            Ok(_) => (),
            Err(e) => {
                proof {
                    lemma_wf_same_core(pre, *self);
                }
                return Err(e);
            },
        }
        self.files.push(new_active);
        self.active_id = new_active;
        self.garbage = 0;
        proof {
            lemma_roll_active(pre, *self, new_active);
        }
        let ghost rolled = *self;
        let snap = self.index.snapshot();
        if snap.len() == 0 {
            let ghost olds = pre.files@;
            let ghost tail = seq![new_active];
            self.lowest_id = merge_id;
            let ghost lowered = *self;
            proof {
                assert(olds + tail =~= self.files@);
                assert(forall|i: int| 0 <= i < olds.len() ==> #[trigger] olds[i] <= pre.active_id);
                lemma_wf_core_lower(rolled, lowered);
            }
            self.delete_below(merge_id, Ghost(olds), Ghost(tail));
            proof {
                let fview = seg_files(self.disk);
                assert(self.files@ == seq![new_active]);
                assert(fview.dom().contains(new_active as int) && fview[new_active as int]
                    == seg_files(rolled.disk)[new_active as int]) by {
                    assert(seg_files(lowered.disk).dom().contains(new_active as int));
                }
                assert(fview[new_active as int] == Seq::<u8>::empty());
                lemma_empty_file_replays(fview, self.files@);
                assert(self.model@ =~= Map::<Seq<char>, Seq<char>>::empty()) by {
                    assert(forall|k: Seq<char>| !self.index@.contains_key(k));
                    assert(rolled.inv_index());
                    assert forall|k: Seq<char>| !self.model@.contains_key(k) by {
                        if self.model@.contains_key(k) {
                            assert(rolled.model@.contains_key(k));
                            assert(rolled.index@.contains_key(k));
                            assert(self.index@.contains_key(k));
                        }
                    }
                }
                if self.healthy {
                    assert(self.inv_replay());
                }
                assert(self.files@.drop_last() =~= Seq::<u64>::empty());
                assert(total_segment_bytes(fview, Seq::<u64>::empty()) == 0);
                assert(self.files@.last() == new_active);
                assert(fview[new_active as int].len() == 0);
                assert(total_segment_bytes(fview, self.files@) == (total_segment_bytes(
                    fview,
                    self.files@.drop_last(),
                ) + fview[self.files@.last() as int].len()) as nat);
                assert(total_segment_bytes(fview, self.files@) == 0);
            }
            // An empty snapshot means an empty index: no live record bytes
            // remain, which the length check below lets the prover see.
            let live = self.index.len();
            proof {
                assert(live == 0);
            }
            return Ok(());
        }
        let ghost model = self.model@;
        proof {
            assert(rolled.inv_index());
            assert forall|k: Seq<char>| model.contains_key(k) implies exists|i: int|
                0 <= i < snap@.len() && #[trigger] snap@[i].0@ == k by {
                assert(self.index@.contains_key(k));
            }
        }
        let merged = match Self::merge_snapshot(&self.disk, &snap, merge_id, Ghost(model)) {
            Ok(t) => t,
            Err(e) => {
                proof {
                    assert(*self == rolled);
                }
                return Err(e);
            },
        };
        let buf = merged.0;
        let mindex = merged.1;
        let ghost rs = merged.2@;
        match self.disk.write_temp(merge_id, &buf) {
            Ok(_) => (),
            Err(e) => {
                proof {
                    lemma_wf_same_core(rolled, *self);
                }
                return Err(e);
            },
        }
        let ghost temped = *self;
        match self.disk.promote_temp(merge_id) {
            Ok(_) => (),
            Err(e) => {
                proof {
                    lemma_wf_same_core(rolled, *self);
                }
                return Err(e);
            },
        }
        let pos = self.files.len() - 1;
        self.files.insert(pos, merge_id);
        self.index = mindex;
        self.lowest_id = merge_id;
        let buf_len = buf.len();
        proof {
            assert(self.files@ =~= pre.files@ + seq![merge_id, new_active]) by {
                assert(self.files@ == rolled.files@.insert(pos as int, merge_id));
                assert(rolled.files@ == pre.files@.push(new_active));
            }
            lemma_install_merge(pre, rolled, *self, merge_id, new_active, buf@);
        }
        let ghost olds = pre.files@;
        let ghost tail = seq![merge_id, new_active];
        proof {
            assert(olds + tail =~= self.files@) by {
                assert(pre.files@.push(new_active).insert(pre.files@.len() as int, merge_id)
                    =~= pre.files@ + seq![merge_id, new_active]);
            }
            assert(forall|i: int| 0 <= i < olds.len() ==> #[trigger] olds[i] < merge_id);
        }
        let ghost inst = *self;
        proof {
            assert(seg_files(inst.disk).dom().contains(merge_id as int));
            assert(seg_files(inst.disk)[merge_id as int] == buf@);
            assert(seg_files(inst.disk).dom().contains(new_active as int));
            assert(seg_files(inst.disk)[new_active as int] == Seq::<u8>::empty());
        }
        self.delete_below(merge_id, Ghost(olds), Ghost(tail));
        proof {
            let fview = seg_files(self.disk);
            assert(self.files@ == seq![merge_id, new_active]);
            assert(fview.dom().contains(merge_id as int) && fview[merge_id as int] == buf@) by {
                assert(merge_id as int >= merge_id);
            }
            assert(fview.dom().contains(new_active as int) && fview[new_active as int]
                == Seq::<u8>::empty()) by {
                assert(new_active as int >= merge_id);
            }
            assert(buf@.len() == buf_len && buf_len <= usize::MAX);
            assert(parses_to(buf@, rs));
            lemma_records_of(buf@, rs);
            assert(records_of(fview[merge_id as int]) == rs);
            assert(self.files@.drop_last() =~= seq![merge_id]);
            assert(seq![merge_id].drop_last() =~= Seq::<u64>::empty());
            assert(seq![merge_id].last() == merge_id);
            assert(replay_files(fview, Seq::<u64>::empty()) == Map::<Seq<char>, Seq<char>>::empty());
            assert(replay_files(fview, seq![merge_id]) == replay(
                Map::<Seq<char>, Seq<char>>::empty(),
                records_of(fview[merge_id as int]),
            ));
            assert(replay_files(fview, seq![merge_id]) == replay(Map::empty(), rs));
            assert(records_of(fview[new_active as int]) =~= Seq::<CommandModel>::empty()) by {
                assert(concat_enc(Seq::<CommandModel>::empty()) == Seq::<u8>::empty());
                assert(parses_to(fview[new_active as int], Seq::<CommandModel>::empty()));
                lemma_records_of(fview[new_active as int], Seq::<CommandModel>::empty());
            }
            assert(replay_files(fview, self.files@) == replay(
                replay(Map::empty(), rs),
                Seq::<CommandModel>::empty(),
            ));
            assert(replay_files(fview, self.files@) == self.model@);
            if self.healthy {
                assert(self.inv_replay());
            }
            assert(total_segment_bytes(fview, self.files@) == buf@.len()) by {
                assert(total_segment_bytes(fview, Seq::<u64>::empty()) == 0);
                assert(total_segment_bytes(fview, seq![merge_id]) == buf@.len());
            }
            assert(self.live_record_bytes() == buf@.len());
        }
        Ok(())
    }

    /// Read every snapshot entry's record and re-encode it into one merge
    /// buffer, building the merge index that points into it and the ghost
    /// record stream the buffer spells.
    fn merge_snapshot(
        disk: &SegmentDir,
        snap: &Vec<(String, CmdInfo)>,
        merge_id: u64,
        Ghost(model): Ghost<Map<Seq<char>, Seq<char>>>,
    ) -> (r: Result<(Vec<u8>, Index, Ghost<Seq<CommandModel>>), Error>)
        requires
            forall|i: int, j: int|
                0 <= i < j < snap@.len() ==> #[trigger] snap@[i].0@ != #[trigger] snap@[j].0@,
            forall|i: int| 0 <= i < snap@.len() ==> model.contains_key(#[trigger] snap@[i].0@),
            forall|i: int|
                0 <= i < snap@.len() ==> snap_entry_ok(
                    seg_files(*disk),
                    #[trigger] snap@[i].1,
                    snap@[i].0@,
                    model,
                ),
            forall|k: Seq<char>|
                model.contains_key(k) ==> exists|i: int|
                    0 <= i < snap@.len() && #[trigger] snap@[i].0@ == k,
        ensures
            r matches Ok(t) ==> {
                &&& t.1.wf()
                &&& (forall|k: Seq<char>| #[trigger] t.1@.contains_key(k) <==> model.contains_key(k))
                &&& (forall|k: Seq<char>|
                    #[trigger] t.1@.contains_key(k) ==> merge_entry_ok(
                        t.0@,
                        t.1@[k],
                        k,
                        model,
                        merge_id,
                    ))
                &&& t.1.lens_sum() == t.0@.len()
                &&& concat_enc(t.2@) == t.0@
                &&& replay(Map::empty(), t.2@) == model
            },
            r matches Err(e) ==> e is Io,
    {
        let n = snap.len();
        let mut buf: Vec<u8> = Vec::new();
        let mut mindex = Index::new();
        let ghost mut rs: Seq<CommandModel> = Seq::empty();
        let ghost mut mm: Map<Seq<char>, Seq<char>> = Map::empty();
        let mut i: usize = 0;
        while i < n
            invariant
                n == snap@.len(),
                0 <= i <= n,
                forall|a: int, b: int|
                    0 <= a < b < snap@.len() ==> #[trigger] snap@[a].0@ != #[trigger] snap@[b].0@,
                forall|a: int| 0 <= a < snap@.len() ==> model.contains_key(#[trigger] snap@[a].0@),
                forall|a: int|
                    0 <= a < snap@.len() ==> snap_entry_ok(
                        seg_files(*disk),
                        #[trigger] snap@[a].1,
                        snap@[a].0@,
                        model,
                    ),
                mindex.wf(),
                forall|j: int| 0 <= j < i ==> mindex@.contains_key(#[trigger] snap@[j].0@),
                forall|k: Seq<char>|
                    #[trigger] mindex@.contains_key(k) ==> exists|j: int|
                        0 <= j < i && #[trigger] snap@[j].0@ == k,
                forall|k: Seq<char>|
                    #[trigger] mindex@.contains_key(k) ==> merge_entry_ok(
                        buf@,
                        mindex@[k],
                        k,
                        model,
                        merge_id,
                    ),
                mindex.lens_sum() == buf@.len(),
                concat_enc(rs) == buf@,
                mm == replay(Map::empty(), rs),
                forall|k: Seq<char>| #[trigger] mm.contains_key(k) <==> mindex@.contains_key(k),
                forall|k: Seq<char>| #[trigger] mm.contains_key(k) ==> mm[k] == model[k],
            decreases n - i,
        {
            let info = snap[i].1;
            let ghost sk = snap@[i as int].0@;
            let ghost c = CommandModel::Put(sk, model[sk]);
            proof {
                assert(snap_entry_ok(seg_files(*disk), info, sk, model));
                lemma_encode_nonempty();
                assert(seg_files(*disk)[info.loc.id as int].subrange(
                    info.loc.offset as int,
                    info.loc.offset as int + info.len as int,
                ).len() == info.len);
                assert(info.len > 0);
            }
            let bytes = match disk.read_at(info.loc.id, info.loc.offset, info.len) {
                Ok(b) => b,
                Err(e) => {
                    return Err(e);
                },
            };
            proof {
                assert(bytes@ == spec_encode(c));
                assert(bytes@.subrange(0, bytes@.len() as int) =~= bytes@);
                assert(record_at(bytes@, 0, c));
            }
            let decoded = match Command::from_reader(bytes.as_slice(), 0) {
                Some(t) => t,
                None => {
                    return Err(Error::Codec);
                },
            };
            let cmd = decoded.0;
            proof {
                lemma_record_unique(bytes@, 0, cmd@, c);
            }
            match cmd {
                Command::Put(k2, _v2) => {
                    let off = buf.len();
                    let ghost oldbuf = buf@;
                    let ghost oldrs = rs;
                    let blen = bytes.len();
                    buf.extend_from_slice(bytes.as_slice());
                    let ghost oldmap = mindex@;
                    let prev = mindex.insert(k2, CmdInfo::new(merge_id, off as u64, blen));
                    proof {
                        assert(k2@ == sk);
                        assert(prev is None) by {
                            if oldmap.contains_key(sk) {
                                let j = choose|j: int|
                                    0 <= j < i && #[trigger] snap@[j].0@ == sk;
                                assert(snap@[j].0@ != snap@[i as int].0@);
                            }
                        }
                        rs = rs.push(c);
                        lemma_concat_enc_push(oldrs, c);
                        assert(concat_enc(rs) =~= buf@);
                        lemma_replay_push(Map::empty(), oldrs, c);
                        mm = mm.insert(sk, model[sk]);
                        assert(mm == replay(Map::empty(), rs));
                        assert forall|k: Seq<char>| #[trigger] mindex@.contains_key(k) implies
                            merge_entry_ok(buf@, mindex@[k], k, model, merge_id) by {
                            if k == sk {
                                let ci = mindex@[k];
                                assert(ci.loc.offset == off as u64 && ci.len == blen);
                                assert(buf@.subrange(off as int, off + blen as int) =~= bytes@);
                            } else {
                                assert(oldmap.contains_key(k));
                                let ci = mindex@[k];
                                assert(ci == oldmap[k]);
                                assert(merge_entry_ok(oldbuf, ci, k, model, merge_id));
                                assert(buf@.subrange(
                                    ci.loc.offset as int,
                                    ci.loc.offset as int + ci.len as int,
                                ) =~= oldbuf.subrange(
                                    ci.loc.offset as int,
                                    ci.loc.offset as int + ci.len as int,
                                ));
                            }
                        }
                        assert forall|k: Seq<char>| #[trigger] mindex@.contains_key(k) implies
                            exists|j: int| 0 <= j < i + 1 && #[trigger] snap@[j].0@ == k by {
                            if k == sk {
                                assert(snap@[i as int].0@ == k);
                            } else {
                                assert(oldmap.contains_key(k));
                            }
                        }
                    }
                },
                Command::Rm(k2) => {
                    proof {
                        assert(cmd@ is Rm);
                        assert(cmd@ == c);
                        assert(false);
                    }
                    return Err(Error::UnexpectCmd { found: k2, expect: "".to_owned() });
                },
            }
            i = i + 1;
        }
        proof {
            assert forall|k: Seq<char>| #[trigger] mindex@.contains_key(k) <==> model.contains_key(
                k,
            ) by {
                if mindex@.contains_key(k) {
                    let j = choose|j: int| 0 <= j < n && #[trigger] snap@[j].0@ == k;
                    assert(model.contains_key(k));
                }
                if model.contains_key(k) {
                    let j = choose|j: int| 0 <= j < n && #[trigger] snap@[j].0@ == k;
                    assert(mindex@.contains_key(snap@[j].0@));
                }
            }
            assert(mm =~= model) by {
                assert forall|k: Seq<char>| mm.contains_key(k) <==> model.contains_key(k) by {
                    assert(mm.contains_key(k) <==> mindex@.contains_key(k));
                }
            }
        }
        Ok((buf, mindex, Ghost(rs)))
    }

    /// Unlink every segment file older than `bound`, dropping each from the
    /// live list; a failed unlink is not fatal but forfeits durability.
    fn delete_below(&mut self, bound: u64, Ghost(olds): Ghost<Seq<u64>>, Ghost(tail): Ghost<Seq<u64>>)
        requires
            old(self).wf_core(),
            old(self).files@ == olds + tail,
            forall|i: int| 0 <= i < olds.len() ==> #[trigger] olds[i] < bound,
            tail.len() >= 1,
            tail[0] >= bound,
            bound <= old(self).lowest_id,
            old(self).healthy ==> forall|id: int|
                #[trigger] seg_files(old(self).disk).dom().contains(id)
                    ==> old(self).files@.contains(id as u64),
        ensures
            final(self).wf_core(),
            final(self).files@ == tail,
            final(self).index == old(self).index,
            final(self).model == old(self).model,
            final(self).active_id == old(self).active_id,
            final(self).lowest_id == old(self).lowest_id,
            final(self).cthreshold == old(self).cthreshold,
            final(self).garbage == old(self).garbage,
            final(self).healthy ==> old(self).healthy,
            forall|id: int|
                id >= bound ==> (seg_files(final(self).disk).dom().contains(id) <==> #[trigger] seg_files(
                    old(self).disk,
                ).dom().contains(id)),
            forall|id: int|
                id >= bound && #[trigger] seg_files(old(self).disk).dom().contains(id)
                    ==> seg_files(final(self).disk)[id] == seg_files(old(self).disk)[id],
            final(self).healthy ==> forall|id: int|
                #[trigger] seg_files(final(self).disk).dom().contains(id) ==> tail.contains(
                    id as u64,
                ),
    {
        let ghost mut rem: int = olds.len() as int;
        while self.files[0] < bound
            invariant
                self.wf_core(),
                0 <= rem <= olds.len(),
                self.files@ == olds.skip(olds.len() - rem) + tail,
                tail.len() >= 1,
                tail[0] >= bound,
                forall|i: int| 0 <= i < olds.len() ==> #[trigger] olds[i] < bound,
                bound <= self.lowest_id,
                self.index == old(self).index,
                self.model == old(self).model,
                self.active_id == old(self).active_id,
                self.lowest_id == old(self).lowest_id,
                self.cthreshold == old(self).cthreshold,
                self.garbage == old(self).garbage,
                self.healthy ==> old(self).healthy,
                forall|id: int|
                    id >= bound ==> (seg_files(self.disk).dom().contains(id)
                        <==> #[trigger] seg_files(old(self).disk).dom().contains(id)),
                forall|id: int|
                    id >= bound && #[trigger] seg_files(old(self).disk).dom().contains(id)
                        ==> seg_files(self.disk)[id] == seg_files(old(self).disk)[id],
                self.healthy ==> forall|id: int|
                    #[trigger] seg_files(self.disk).dom().contains(id) ==> self.files@.contains(
                        id as u64,
                    ),
            decreases self.files@.len(),
        {
            proof {
                assert(self.files@.len() >= 1);
                if rem == 0 {
                    assert(olds.skip(olds.len() as int) =~= Seq::<u64>::empty());
                    assert(self.files@ =~= tail);
                    assert(self.files@[0] == tail[0]);
                    assert(false);
                }
                assert(self.files@[0] == olds[olds.len() - rem]);
            }
            let id = self.files[0];
            let ghost pre_step = *self;
            let okd = self.disk.delete(id);
            if !okd {
                self.healthy = false;
            }
            self.files.remove(0);
            proof {
                rem = rem - 1;
                assert(self.files@ =~= olds.skip(olds.len() - rem) + tail) by {
                    assert(self.files@ =~= pre_step.files@.drop_first());
                    assert(pre_step.files@.drop_first() =~= olds.skip(olds.len() - (rem + 1)).drop_first() + tail);
                    assert(olds.skip(olds.len() - (rem + 1)).drop_first() =~= olds.skip(
                        olds.len() - rem,
                    ));
                }
                assert(self.wf_core()) by {
                    lemma_delete_step_core(pre_step, *self, id, bound);
                }
                if self.healthy {
                    assert forall|id2: int|
                        #[trigger] seg_files(self.disk).dom().contains(id2) implies self.files@.contains(
                        id2 as u64,
                    ) by {
                        assert(pre_step.files@.contains(id2 as u64));
                        let j = choose|j: int|
                            0 <= j < pre_step.files@.len() && #[trigger] pre_step.files@[j]
                                == id2 as u64;
                        if j == 0 {
                            assert(id2 as u64 == id);
                            if okd {
                                assert(!seg_files(self.disk).dom().contains(id as int));
                            }
                            assert(false);
                        } else {
                            assert(self.files@[j - 1] == id2 as u64);
                        }
                    }
                }
            }
        }
        proof {
            if rem > 0 {
                assert(self.files@[0] == olds[olds.len() - rem]);
                assert(false);
            }
            assert(olds.skip(olds.len() as int) =~= Seq::<u64>::empty());
            assert(self.files@ =~= tail);
        }
    }
}

impl KvStoreBuilder {
    /// A builder for a store rooted at `dir`, with default thresholds.
    pub fn new(dir: &str) -> (r: KvStoreBuilder)
        ensures
            r.spec_cthreshold() == COMPACT_THRESHOLD,
            r.spec_wthreshold() == ACTIVE_THRESHOLD,
            r.spec_dir() == dir@,
    {
        KvStoreBuilder {
            dir: dir.to_owned(),
            cthreshold: COMPACT_THRESHOLD,
            wthreshold: ACTIVE_THRESHOLD,
        }
    }

    /// Set the compaction threshold: the count of superseded bytes above
    /// which a compaction pass runs.
    pub fn compact_threshold(self, sz: u64) -> (r: KvStoreBuilder)
        ensures
            r.spec_cthreshold() == sz,
            r.spec_dir() == self.spec_dir(),
            r.spec_wthreshold() == self.spec_wthreshold(),
    {
        KvStoreBuilder { cthreshold: sz, ..self }
    }

    /// Set the nominal ceiling of the active segment.  Kept for
    /// compatibility; the engine does not act on it.
    pub fn active_threshold(self, sz: u64) -> (r: KvStoreBuilder)
        ensures
            r.spec_wthreshold() == sz,
            r.spec_dir() == self.spec_dir(),
            r.spec_cthreshold() == self.spec_cthreshold(),
    {
        KvStoreBuilder { wthreshold: sz, ..self }
    }

    /// Open the store: check the directory's `meta` marker, then either
    /// replay the existing segment files into a fresh index, or initialize
    /// the directory with the marker and segment `1`.
    pub fn build(self) -> (r: Result<KvStore, Error>)
        ensures
            r matches Ok(s) ==> {
                &&& s.wf()
                &&& s.durable()
                &&& s.spec_cthreshold() == self.spec_cthreshold()
                &&& s.model() == replay_files(s.disk_view(), s.file_ids())
                &&& s.spec_garbage() == replay_files_garbage(s.disk_view(), s.file_ids())
            },
            r matches Err(e) ==> e is Io || e is InvalidMeta || e is BadPath || e is Codec,
    {
        let mut disk = SegmentDir::open_dir(self.dir.as_str());
        let meta = match disk.read_meta() {
            Ok(m) => m,
            Err(e) => {
                return Err(e);
            },
        };
        let names = match disk.list_names() {
            Ok(names) => names,
            Err(e) => {
                return Err(e);
            },
        };
        let ids = collect_ids(&names);
        let fresh = match classify_meta(&meta, &ids, self.dir.as_str()) {
            Ok(fresh) => fresh,
            Err(e) => {
                return Err(e);
            },
        };
        if fresh {
            let marker = kvs_marker();
            match disk.write_meta(&marker) {
                Ok(_) => (),
                Err(e) => {
                    return Err(e);
                },
            }
        }
        proof {
            assert forall|id: int| #[trigger] seg_files(disk).dom().contains(id) implies 0 <= id
                <= u64::MAX && ids@.contains(id as u64) by {
                assert(exists|i: int|
                    0 <= i < names@.len() && #[trigger] names@[i]@ == data_name(id as nat));
                assert((id as u64) as nat == id as nat);
            }
        }
        if ids.len() == 0 {
            proof {
                assert forall|id: int| !seg_files(disk).dom().contains(id) by {
                    if seg_files(disk).dom().contains(id) {
                        assert(ids@.contains(id as u64));
                    }
                }
            }
            return Self::init_first_segment(disk, self.cthreshold, self.wthreshold);
        }
        Self::load(disk, ids, self.cthreshold, self.wthreshold)
    }

    /// Create segment `1` in a directory that holds no segment file yet.
    fn init_first_segment(disk: SegmentDir, cthreshold: u64, wthreshold: u64) -> (r: Result<
        KvStore,
        Error,
    >)
        requires
            forall|id: int| !seg_files(disk).dom().contains(id),
            forall|id: int| #[trigger] seg_files(disk).dom().contains(id) ==> 0 <= id <= u64::MAX,
        ensures
            r matches Ok(s) ==> {
                &&& s.wf()
                &&& s.durable()
                &&& s.spec_cthreshold() == cthreshold
                &&& s.model() == Map::<Seq<char>, Seq<char>>::empty()
                &&& s.model() == replay_files(s.disk_view(), s.file_ids())
                &&& s.spec_garbage() == replay_files_garbage(s.disk_view(), s.file_ids())
            },
            r matches Err(e) ==> e is Io,
    {
        let mut disk = disk;
        match disk.create(1) {
            Ok(_) => (),
            Err(e) => {
                return Err(e);
            },
        }
        let mut files: Vec<u64> = Vec::new();
        files.push(1);
        let store = KvStore {
            disk,
            index: Index::new(),
            files,
            active_id: 1,
            lowest_id: 1,
            garbage: 0,
            cthreshold,
            wthreshold,
            healthy: true,
            model: Ghost(Map::empty()),
        };
        proof {
            assert(seg_files(store.disk).dom() =~= set![1int]);
            assert(store.files@ =~= seq![1u64]);
            lemma_empty_file_replays(seg_files(store.disk), store.files@);
            assert(records_of(seg_files(store.disk)[1int]) =~= Seq::<CommandModel>::empty()) by {
                assert(concat_enc(Seq::<CommandModel>::empty()) == Seq::<u8>::empty());
                assert(parses_to(seg_files(store.disk)[1int], Seq::<CommandModel>::empty()));
                lemma_records_of(seg_files(store.disk)[1int], Seq::<CommandModel>::empty());
            }
            assert(store.files@.drop_last() =~= Seq::<u64>::empty());
            assert(store.files@.last() == 1u64);
            assert(replay_files_garbage(seg_files(store.disk), Seq::<u64>::empty()) == 0);
            assert(replay_files_garbage(seg_files(store.disk), store.files@) == replay_garbage(
                replay_files_garbage(seg_files(store.disk), store.files@.drop_last()),
                replay_files(seg_files(store.disk), store.files@.drop_last()),
                records_of(seg_files(store.disk)[store.files@.last() as int]),
            ));
            assert(replay_files_garbage(seg_files(store.disk), store.files@) == 0);
            assert(store.inv_index());
            assert(store.inv_files());
            assert(store.inv_replay());
        }
        Ok(store)
    }

    /// Replay the records of every segment file, oldest first, to rebuild
    /// the index, the garbage count and the model.
    fn load(disk: SegmentDir, ids: Vec<u64>, cthreshold: u64, wthreshold: u64) -> (r: Result<
        KvStore,
        Error,
    >)
        requires
            strictly_sorted_u64(ids@),
            ids@.len() >= 1,
            forall|id: int|
                #[trigger] seg_files(disk).dom().contains(id) ==> 0 <= id <= u64::MAX
                    && ids@.contains(id as u64),
        ensures
            r matches Ok(s) ==> {
                &&& s.wf()
                &&& s.durable()
                &&& s.spec_cthreshold() == cthreshold
                &&& s.model() == replay_files(s.disk_view(), s.file_ids())
                &&& s.spec_garbage() == replay_files_garbage(s.disk_view(), s.file_ids())
            },
            r matches Err(e) ==> e is Io || e is Codec,
    {
        let n = ids.len();
        let mut index = Index::new();
        let mut garbage: u64 = 0;
        let ghost mut model: Map<Seq<char>, Seq<char>> = Map::empty();
        let mut fi: usize = 0;
        while fi < n
            invariant
                n == ids@.len(),
                0 <= fi <= n,
                strictly_sorted_u64(ids@),
                forall|id: int|
                    #[trigger] seg_files(disk).dom().contains(id) ==> 0 <= id <= u64::MAX
                        && ids@.contains(id as u64),
                index.wf(),
                forall|k: Seq<char>| #[trigger] index@.contains_key(k) <==> model.contains_key(k),
                forall|k: Seq<char>|
                    #[trigger] index@.contains_key(k) ==> load_entry_ok(
                        seg_files(disk),
                        ids@.take(fi as int),
                        index@[k],
                        k,
                        model,
                    ),
                forall|j: int|
                    0 <= j < fi ==> seg_files(disk).dom().contains(#[trigger] ids@[j] as int),
                forall|j: int|
                    0 <= j < fi ==> decodable(seg_files(disk)[#[trigger] ids@[j] as int]),
                forall|j: int|
                    0 <= j < fi ==> seg_files(disk)[#[trigger] ids@[j] as int].len() <= u64::MAX,
                replay_files(seg_files(disk), ids@.take(fi as int)) == model,
                garbage == replay_files_garbage(seg_files(disk), ids@.take(fi as int)),
            decreases n - fi,
        {
            let id = ids[fi];
            let ghost seen = ids@.take(fi + 1);
            proof {
                assert(seen.contains(id)) by {
                    assert(seen[fi as int] == id);
                }
                assert forall|k: Seq<char>| #[trigger] index@.contains_key(k) implies
                    load_entry_ok(seg_files(disk), seen, index@[k], k, model) by {
                    let short = ids@.take(fi as int);
                    assert(load_entry_ok(seg_files(disk), short, index@[k], k, model));
                    let jj = choose|jj: int|
                        0 <= jj < short.len() && #[trigger] short[jj] == index@[k].loc.id;
                    assert(seen[jj] == short[jj]);
                    assert(seen.contains(index@[k].loc.id));
                }
            }
            let g = match Self::load_file(
                &disk,
                id,
                &mut index,
                &mut garbage,
                Ghost(seen),
                Ghost(model),
            ) {
                Ok(g) => g,
                Err(e) => {
                    return Err(e);
                },
            };
            proof {
                let prev_model = model;
                model = g@;
                assert(ids@.take(fi + 1).drop_last() =~= ids@.take(fi as int));
                assert(ids@.take(fi + 1).last() == id);
                assert(replay_files(seg_files(disk), ids@.take(fi + 1)) == replay(
                    replay_files(seg_files(disk), ids@.take(fi as int)),
                    records_of(seg_files(disk)[id as int]),
                ));
                assert(replay_files(seg_files(disk), ids@.take(fi + 1)) == model);
                assert(replay_files_garbage(seg_files(disk), ids@.take(fi + 1)) == replay_garbage(
                    replay_files_garbage(seg_files(disk), ids@.take(fi as int)),
                    prev_model,
                    records_of(seg_files(disk)[id as int]),
                ));
                assert(garbage == replay_files_garbage(seg_files(disk), ids@.take(fi + 1)));
            }
            fi = fi + 1;
        }
        let active_id = ids[n - 1];
        let lowest_id = ids[0];
        let store = KvStore {
            disk,
            index,
            files: ids,
            active_id,
            lowest_id,
            garbage,
            cthreshold,
            wthreshold,
            healthy: true,
            model: Ghost(model),
        };
        proof {
            assert(store.files@.take(n as int) =~= store.files@);
            assert forall|k: Seq<char>| #[trigger] store.index@.contains_key(k) implies
                store.inv_entry_ok(k) by {
                assert(load_entry_ok(
                    seg_files(store.disk),
                    store.files@.take(n as int),
                    store.index@[k],
                    k,
                    store.model@,
                ));
                let ci = store.index@[k];
                let fj = choose|fj: int|
                    0 <= fj < store.files@.len() && #[trigger] store.files@[fj] == ci.loc.id;
                assert(store.files@[0] <= ci.loc.id) by {
                    if fj > 0 {
                        assert(store.files@[0] < store.files@[fj]);
                    }
                }
                assert(ci.loc.id <= store.files@[n - 1]) by {
                    if fj < n - 1 {
                        assert(store.files@[fj] < store.files@[n - 1]);
                    }
                }
            }
            assert(store.inv_index());
            assert(store.inv_files());
            assert(store.inv_replay());
        }
        Ok(store)
    }

    /// Read one segment file whole, decode its record stream, and apply
    /// every record to the index, the garbage count and the model.
    fn load_file(
        disk: &SegmentDir,
        id: u64,
        index: &mut Index,
        garbage: &mut u64,
        Ghost(seen): Ghost<Seq<u64>>,
        Ghost(model0): Ghost<Map<Seq<char>, Seq<char>>>,
    ) -> (r: Result<Ghost<Map<Seq<char>, Seq<char>>>, Error>)
        requires
            old(index).wf(),
            seen.contains(id),
            forall|k: Seq<char>|
                #[trigger] old(index)@.contains_key(k) <==> model0.contains_key(k),
            forall|k: Seq<char>|
                #[trigger] old(index)@.contains_key(k) ==> load_entry_ok(
                    seg_files(*disk),
                    seen,
                    old(index)@[k],
                    k,
                    model0,
                ),
        ensures
            r matches Ok(g) ==> {
                &&& final(index).wf()
                &&& seg_files(*disk).dom().contains(id as int)
                &&& decodable(seg_files(*disk)[id as int])
                &&& seg_files(*disk)[id as int].len() <= u64::MAX
                &&& (forall|k: Seq<char>|
                    #[trigger] final(index)@.contains_key(k) <==> g@.contains_key(k))
                &&& (forall|k: Seq<char>|
                    #[trigger] final(index)@.contains_key(k) ==> load_entry_ok(
                        seg_files(*disk),
                        seen,
                        final(index)@[k],
                        k,
                        g@,
                    ))
                &&& g@ == replay(model0, records_of(seg_files(*disk)[id as int]))
                &&& *final(garbage) == replay_garbage(
                    *old(garbage),
                    model0,
                    records_of(seg_files(*disk)[id as int]),
                )
            },
            r matches Err(e) ==> e is Io || e is Codec,
    {
        let bytes = match disk.read_all(id) {
            Ok(b) => b,
            Err(e) => {
                return Err(e);
            },
        };
        let recs = match decode_all(&bytes) {
            Some(recs) => recs,
            None => {
                return Err(Error::Codec);
            },
        };
        let ghost g0: u64 = *garbage;
        let ghost mut model: Map<Seq<char>, Seq<char>> = model0;
        let m = recs.len();
        let mut j: usize = 0;
        while j < m
            invariant
                m == recs@.len(),
                0 <= j <= m,
                seen.contains(id),
                bytes@ == seg_files(*disk)[id as int],
                seg_files(*disk).dom().contains(id as int),
                forall|jj: int|
                    0 <= jj < recs@.len() ==> record_at(
                        bytes@,
                        #[trigger] recs@[jj].0 as int,
                        recs@[jj].2@,
                    ) && recs@[jj].1 == spec_encode(recs@[jj].2@).len(),
                index.wf(),
                forall|k: Seq<char>|
                    #[trigger] index@.contains_key(k) <==> model.contains_key(k),
                forall|k: Seq<char>|
                    #[trigger] index@.contains_key(k) ==> load_entry_ok(
                        seg_files(*disk),
                        seen,
                        index@[k],
                        k,
                        model,
                    ),
                replay(model0, views_of_recs(recs@).take(j as int)) == model,
                *garbage == replay_garbage(g0, model0, views_of_recs(recs@).take(j as int)),
            decreases m - j,
        {
            let off = recs[j].0;
            let len = recs[j].1;
            proof {
                assert(record_at(bytes@, off as int, recs@[j as int].2@));
                assert(views_of_recs(recs@).take(j + 1).drop_last() =~= views_of_recs(
                    recs@,
                ).take(j as int));
                assert(views_of_recs(recs@).take(j + 1).last() == recs@[j as int].2@);
                assert(views_of_recs(recs@).take(j + 1) =~= views_of_recs(recs@).take(
                    j as int,
                ).push(recs@[j as int].2@));
                lemma_replay_push(
                    model0,
                    views_of_recs(recs@).take(j as int),
                    recs@[j as int].2@,
                );
                lemma_replay_garbage_push(
                    g0,
                    model0,
                    views_of_recs(recs@).take(j as int),
                    recs@[j as int].2@,
                );
            }
            match &recs[j].2 {
                Command::Put(k, v) => {
                    let info = CmdInfo::new(id, off as u64, len);
                    let ghost mstep = model;
                    proof {
                        if index@.contains_key(k@) {
                            lemma_load_entry_len(seg_files(*disk), seen, index@[k@], k@, mstep);
                        }
                    }
                    let prev = index.insert(k.clone(), info);
                    proof {
                        model = model.insert(k@, v@);
                    }
                    match prev {
                        Some(old_info) => {
                            *garbage = garbage.saturating_add(old_info.len as u64);
                        },
                        None => (),
                    }
                },
                Command::Rm(k) => {
                    let ghost mstep = model;
                    proof {
                        if index@.contains_key(k@) {
                            lemma_load_entry_len(seg_files(*disk), seen, index@[k@], k@, mstep);
                        }
                    }
                    let prev = index.remove(k);
                    proof {
                        model = model.remove(k@);
                    }
                    match prev {
                        Some(old_info) => {
                            *garbage = garbage.saturating_add(old_info.len as u64);
                        },
                        None => (),
                    }
                    *garbage = garbage.saturating_add(len as u64);
                },
            }
            j = j + 1;
        }
        let blen = bytes.len();
        proof {
            assert(bytes@.len() == blen);
            assert(blen <= usize::MAX);
            assert(views_of_recs(recs@).take(m as int) =~= views_of_recs(recs@));
            assert(parses_to(bytes@, views_of_recs(recs@)));
            lemma_records_of(bytes@, views_of_recs(recs@));
            assert(records_of(seg_files(*disk)[id as int]) == views_of_recs(recs@));
        }
        Ok(Ghost(model))
    }
}

/// What holds of one index entry while the load loop walks the files: it
/// points into one of the files already seen, at a true `Set` record.
pub open spec fn load_entry_ok(
    view: Map<int, Seq<u8>>,
    seen: Seq<u64>,
    ci: CmdInfo,
    k: Seq<char>,
    model: Map<Seq<char>, Seq<char>>,
) -> bool {
    &&& view.dom().contains(ci.loc.id as int)
    &&& seen.contains(ci.loc.id)
    &&& ci.loc.offset + ci.len <= view[ci.loc.id as int].len()
    &&& view[ci.loc.id as int].subrange(ci.loc.offset as int, ci.loc.offset as int + ci.len as int)
        == spec_encode(CommandModel::Put(k, model[k]))
}

/// An index entry's stored length is its record's byte length.
pub proof fn lemma_load_entry_len(
    view: Map<int, Seq<u8>>,
    seen: Seq<u64>,
    ci: CmdInfo,
    k: Seq<char>,
    m: Map<Seq<char>, Seq<char>>,
)
    requires
        load_entry_ok(view, seen, ci, k, m),
    ensures
        ci.len == set_record_len(k, m[k]),
{
    assert(view[ci.loc.id as int].subrange(
        ci.loc.offset as int,
        ci.loc.offset as int + ci.len as int,
    ).len() == ci.len);
}

/// The command of each decoded entry.
pub open spec fn views_of_recs(s: Seq<(usize, usize, Command)>) -> Seq<CommandModel> {
    s.map_values(|t: (usize, usize, Command)| t.2@)
}

/// A parse of a buffer is the parse: record streams are unambiguous.
pub proof fn lemma_parses_unique(b: Seq<u8>, cs1: Seq<CommandModel>, cs2: Seq<CommandModel>)
    requires
        parses_to(b, cs1),
        parses_to(b, cs2),
        b.len() <= u64::MAX,
    ensures
        cs1 == cs2,
    decreases cs1.len(),
{
    lemma_encode_nonempty();
    if cs1.len() == 0 {
        assert(b.len() == 0);
        if cs2.len() > 0 {
            assert(concat_enc(cs2) == spec_encode(cs2[0]) + concat_enc(cs2.drop_first()));
            assert(concat_enc(cs2).len() >= spec_encode(cs2[0]).len());
        }
        assert(cs2.len() == 0);
        assert(cs1 =~= cs2);
    } else {
        assert(concat_enc(cs1) == spec_encode(cs1[0]) + concat_enc(cs1.drop_first()));
        assert(concat_enc(cs1).len() >= spec_encode(cs1[0]).len());
        if cs2.len() == 0 {
            assert(b.len() == 0);
            assert(false);
        }
        assert(concat_enc(cs2) == spec_encode(cs2[0]) + concat_enc(cs2.drop_first()));
        let n1 = spec_encode(cs1[0]).len();
        let n2 = spec_encode(cs2[0]).len();
        assert(b.subrange(0, n1 as int) =~= spec_encode(cs1[0]));
        assert(b.subrange(0, n2 as int) =~= spec_encode(cs2[0]));
        assert(record_at(b, 0, cs1[0]));
        assert(record_at(b, 0, cs2[0]));
        lemma_record_unique(b, 0, cs1[0], cs2[0]);
        let b2 = b.skip(n1 as int);
        let t1 = concat_enc(cs1.drop_first());
        let t2 = concat_enc(cs2.drop_first());
        assert(t1.len() == b.len() - n1);
        assert(t2.len() == b.len() - n1);
        assert forall|i: int| 0 <= i < b.len() - n1 implies t1[i] == b[n1 + i] && t2[i] == b[n1
            + i] by {
            assert((spec_encode(cs1[0]) + t1)[n1 + i] == t1[i]);
            assert((spec_encode(cs2[0]) + t2)[n1 + i] == t2[i]);
        }
        assert(t1 =~= b2);
        assert(t2 =~= b2);
        lemma_parses_unique(b2, cs1.drop_first(), cs2.drop_first());
        assert(cs1.drop_first() == cs2.drop_first());
        assert(cs1.len() == cs2.len());
        assert forall|i: int| 0 <= i < cs1.len() implies cs1[i] == cs2[i] by {
            if i > 0 {
                assert(cs1.drop_first()[i - 1] == cs2.drop_first()[i - 1]);
                assert(cs1.drop_first()[i - 1] == cs1[i]);
                assert(cs2.drop_first()[i - 1] == cs2[i]);
            }
        }
        assert(cs1 =~= cs2);
    }
}

/// Every record's encoding starts with a tag and a length: never empty.
pub proof fn lemma_encode_nonempty()
    ensures
        forall|c: CommandModel| #[trigger] spec_encode(c).len() >= 9,
{
    vstd::bytes::lemma_auto_spec_u64_to_from_le_bytes();
    assert forall|c: CommandModel| #[trigger] spec_encode(c).len() >= 9 by {
        match c {
            CommandModel::Put(k, v) => {
                assert(spec_encode(c).len() >= 9);
            },
            CommandModel::Rm(k) => {
                assert(spec_encode(c).len() >= 9);
            },
        }
    }
}

/// For bytes that parse, `records_of` is that parse.
pub proof fn lemma_records_of(b: Seq<u8>, cs: Seq<CommandModel>)
    requires
        parses_to(b, cs),
        b.len() <= u64::MAX,
    ensures
        records_of(b) == cs,
{
    assert(parses_to(b, records_of(b)));
    lemma_parses_unique(b, records_of(b), cs);
}

/// An empty segment holds no records.
pub proof fn lemma_empty_file_replays(view: Map<int, Seq<u8>>, files: Seq<u64>)
    requires
        files.len() == 1,
        view[files[0] as int] == Seq::<u8>::empty(),
    ensures
        replay_files(view, files) == Map::<Seq<char>, Seq<char>>::empty(),
        decodable(view[files[0] as int]),
{
    assert(concat_enc(Seq::<CommandModel>::empty()) == Seq::<u8>::empty());
    assert(parses_to(view[files[0] as int], Seq::<CommandModel>::empty()));
    lemma_records_of(view[files[0] as int], Seq::<CommandModel>::empty());
    assert(files.drop_last() =~= Seq::<u64>::empty());
    assert(files.last() == files[0]);
    assert(replay_files(view, files.drop_last()) == Map::<Seq<char>, Seq<char>>::empty());
    assert(records_of(view[files.last() as int]) == Seq::<CommandModel>::empty());
    assert(replay_files(view, files) == replay(
        Map::<Seq<char>, Seq<char>>::empty(),
        Seq::<CommandModel>::empty(),
    ));
    assert(replay(Map::<Seq<char>, Seq<char>>::empty(), Seq::<CommandModel>::empty())
        == Map::<Seq<char>, Seq<char>>::empty());
}

/// A held key's index entry is exactly as long as its on-disk record.
proof fn lemma_entry_len(s: KvStore, k: Seq<char>)
    requires
        s.inv_index(),
        s.index@.contains_key(k),
    ensures
        s.index@[k].len == set_record_len(k, s.model()[k]),
{
    assert(s.inv_entry_ok(k));
    let ci = s.index@[k];
    assert(seg_files(s.disk)[ci.loc.id as int].subrange(
        ci.loc.offset as int,
        ci.loc.offset as int + ci.len as int,
    ).len() == ci.len);
}

/// After a failed append, everything the index points at is unchanged: an
/// append only ever extends the active segment past every indexed record.
proof fn lemma_append_partial(pre: KvStore, post: KvStore)
    requires
        pre.wf(),
        post.index == pre.index,
        post.model == pre.model,
        post.files == pre.files,
        post.active_id == pre.active_id,
        post.lowest_id == pre.lowest_id,
        post.cthreshold == pre.cthreshold,
        !post.healthy,
        seg_files(post.disk) == seg_files(pre.disk) || exists|ext: Seq<u8>|
            seg_files(post.disk) == seg_files(pre.disk).insert(
                pre.active_id as int,
                seg_files(pre.disk)[pre.active_id as int] + ext,
            ),
    ensures
        post.wf(),
{
    if seg_files(post.disk) == seg_files(pre.disk) {
        assert(post.inv_index()) by {
            assert forall|k: Seq<char>| #[trigger] post.index@.contains_key(k) implies
                post.inv_entry_ok(k) by {
                assert(pre.inv_entry_ok(k));
            }
        }
        assert(post.inv_files());
    } else {
        let ext = choose|ext: Seq<u8>|
            seg_files(post.disk) == seg_files(pre.disk).insert(
                pre.active_id as int,
                seg_files(pre.disk)[pre.active_id as int] + ext,
            );
        let aid = pre.active_id as int;
        let pre_bytes = seg_files(pre.disk)[aid];
        assert(post.inv_index()) by {
            assert forall|k: Seq<char>| #[trigger] post.index@.contains_key(k) implies
                post.inv_entry_ok(k) by {
                assert(pre.inv_entry_ok(k));
                let ci = post.index@[k];
                if ci.loc.id as int == aid {
                    assert(seg_files(post.disk)[aid] == pre_bytes + ext);
                    assert((pre_bytes + ext).subrange(
                        ci.loc.offset as int,
                        ci.loc.offset as int + ci.len as int,
                    ) =~= pre_bytes.subrange(
                        ci.loc.offset as int,
                        ci.loc.offset as int + ci.len as int,
                    ));
                } else {
                    assert(seg_files(post.disk)[ci.loc.id as int] == seg_files(
                        pre.disk,
                    )[ci.loc.id as int]);
                }
            }
        }
        assert(post.inv_files()) by {
            assert(seg_files(post.disk).dom() =~= seg_files(pre.disk).dom().insert(aid));
            assert(seg_files(pre.disk).dom().contains(aid)) by {
                assert(pre.files@[pre.files@.len() - 1] == pre.active_id);
            }
            assert(seg_files(post.disk).dom() =~= seg_files(pre.disk).dom());
        }
    }
}

/// After a successful append of one record to the active segment, the old
/// records all still lie where they were, and the new one lies at the
/// returned offset.
proof fn lemma_append_ok(pre: KvStore, post: KvStore, c: CommandModel, off: u64)
    requires
        pre.wf(),
        post.index == pre.index,
        post.model == pre.model,
        post.files == pre.files,
        post.active_id == pre.active_id,
        post.lowest_id == pre.lowest_id,
        post.healthy == pre.healthy,
        seg_files(pre.disk).dom().contains(pre.active_id as int),
        off == seg_files(pre.disk)[pre.active_id as int].len(),
        off + spec_encode(c).len() <= u64::MAX,
        seg_files(post.disk) == seg_files(pre.disk).insert(
            pre.active_id as int,
            seg_files(pre.disk)[pre.active_id as int] + spec_encode(c),
        ),
    ensures
        forall|k2: Seq<char>| #[trigger] post.index@.contains_key(k2) ==> post.inv_entry_ok(k2),
        seg_files(post.disk).dom() == seg_files(pre.disk).dom(),
        seg_files(post.disk)[post.active_id as int].subrange(
            off as int,
            off + spec_encode(c).len(),
        ) == spec_encode(c),
        seg_files(post.disk)[post.active_id as int].len() == off + spec_encode(
            c,
        ).len(),
        post.healthy ==> {
            &&& (forall|id: int|
                #[trigger] seg_files(post.disk).dom().contains(id) ==> post.files@.contains(
                    id as u64,
                ))
            &&& (forall|i: int|
                0 <= i < post.files@.len() ==> decodable(
                    seg_files(post.disk)[#[trigger] post.files@[i] as int],
                ))
            &&& (forall|i: int|
                0 <= i < post.files@.len() ==> seg_files(
                    post.disk,
                )[#[trigger] post.files@[i] as int].len() <= u64::MAX)
            &&& replay_files(seg_files(post.disk), post.files@) == apply(post.model@, c)
        },
{
    let aid = pre.active_id as int;
    let enc = spec_encode(c);
    let pre_bytes = seg_files(pre.disk)[aid];
    let post_bytes = pre_bytes + enc;
    assert(seg_files(post.disk).dom() =~= seg_files(pre.disk).dom());
    assert(seg_files(post.disk)[aid] == post_bytes);
    assert(post_bytes.subrange(off as int, off + enc.len() as int) =~= enc);
    assert forall|k2: Seq<char>| #[trigger] post.index@.contains_key(k2) implies
        post.inv_entry_ok(k2) by {
        assert(pre.inv_entry_ok(k2));
        let ci = post.index@[k2];
        if ci.loc.id as int == aid {
            assert(post_bytes.subrange(
                ci.loc.offset as int,
                ci.loc.offset as int + ci.len as int,
            ) =~= pre_bytes.subrange(ci.loc.offset as int, ci.loc.offset as int + ci.len as int));
        } else {
            assert(seg_files(post.disk)[ci.loc.id as int] == seg_files(pre.disk)[ci.loc.id as int]);
        }
    }
    if post.healthy {
        assert(pre.inv_replay());
        assert forall|id: int| #[trigger] seg_files(post.disk).dom().contains(id) implies
            post.files@.contains(id as u64) by {}
        let old_records = records_of(pre_bytes);
        assert(parses_to(pre_bytes, old_records)) by {
            assert(pre.files@.contains(pre.active_id)) by {
                assert(pre.files@[pre.files@.len() - 1] == pre.active_id);
            }
            let i = choose|i: int|
                0 <= i < pre.files@.len() && #[trigger] pre.files@[i] == pre.active_id;
            assert(decodable(seg_files(pre.disk)[aid]));
        }
        lemma_concat_enc_push(old_records, c);
        assert(concat_enc(old_records.push(c)) == pre_bytes + enc);
        assert(parses_to(post_bytes, old_records.push(c)));
        assert forall|i: int| 0 <= i < post.files@.len() implies decodable(
            seg_files(post.disk)[#[trigger] post.files@[i] as int],
        ) && seg_files(post.disk)[post.files@[i] as int].len() <= u64::MAX by {
            if post.files@[i] as int == aid {
                assert(seg_files(post.disk)[aid] == post_bytes);
            } else {
                assert(seg_files(post.disk)[post.files@[i] as int] == seg_files(
                    pre.disk,
                )[post.files@[i] as int]);
            }
        }
        lemma_records_of(post_bytes, old_records.push(c));
        assert(post.files@.drop_last() =~= pre.files@.drop_last());
        assert(post.files@.last() == pre.active_id);
        assert forall|i: int|
            0 <= i < pre.files@.drop_last().len() implies seg_files(
            post.disk,
        )[#[trigger] pre.files@.drop_last()[i] as int] == seg_files(
            pre.disk,
        )[pre.files@.drop_last()[i] as int] by {
            assert(pre.files@.drop_last()[i] == pre.files@[i]);
            assert(pre.files@[i] < pre.files@[pre.files@.len() - 1]);
        }
        lemma_replay_files_agree(seg_files(post.disk), seg_files(pre.disk), pre.files@.drop_last());
        assert(replay_files(seg_files(pre.disk), pre.files@) == replay(
            replay_files(seg_files(pre.disk), pre.files@.drop_last()),
            old_records,
        ));
        lemma_replay_push(
            replay_files(seg_files(pre.disk), pre.files@.drop_last()),
            old_records,
            c,
        );
        assert(replay_files(seg_files(post.disk), post.files@) == apply(
            replay_files(seg_files(pre.disk), pre.files@),
            c,
        ));
    }
}

/// Installing the freshly appended record's locator in the index restores
/// the store invariant for the grown model.
proof fn lemma_set_install(pre: KvStore, post: KvStore, k: Seq<char>, v: Seq<char>, off: u64, n: int)
    requires
        pre.wf(),
        n == spec_encode(CommandModel::Put(k, v)).len(),
        post.model@ == pre.model@.insert(k, v),
        post.index@ == pre.index@.insert(
            k,
            CmdInfo { loc: Location { id: pre.active_id, offset: off }, len: n as usize },
        ),
        post.index.wf(),
        post.files == pre.files,
        post.active_id == pre.active_id,
        post.lowest_id == pre.lowest_id,
        post.healthy == pre.healthy,
        off + n <= u64::MAX,
        n <= usize::MAX,
        seg_files(post.disk).dom() == seg_files(pre.disk).dom(),
        seg_files(post.disk) == seg_files(pre.disk).insert(
            pre.active_id as int,
            seg_files(pre.disk)[pre.active_id as int] + spec_encode(CommandModel::Put(k, v)),
        ),
        off == seg_files(pre.disk)[pre.active_id as int].len(),
        seg_files(pre.disk).dom().contains(pre.active_id as int),
        forall|k2: Seq<char>|
            (#[trigger] pre.index@.contains_key(k2) && k2 != k) ==> post.inv_entry_ok(k2),
        post.healthy ==> replay_files(seg_files(post.disk), post.files@) == post.model@,
        post.healthy ==> (forall|id: int|
            #[trigger] seg_files(post.disk).dom().contains(id) ==> post.files@.contains(id as u64)),
        post.healthy ==> (forall|i: int|
            0 <= i < post.files@.len() ==> decodable(
                seg_files(post.disk)[#[trigger] post.files@[i] as int],
            )),
        post.healthy ==> (forall|i: int|
            0 <= i < post.files@.len() ==> seg_files(post.disk)[#[trigger] post.files@[i] as int].len()
                <= u64::MAX),
    ensures
        post.wf(),
{
    let aid = pre.active_id as int;
    let enc = spec_encode(CommandModel::Put(k, v));
    assert(post.inv_index()) by {
        assert forall|k2: Seq<char>| #[trigger] post.index@.contains_key(k2) implies
            post.inv_entry_ok(k2) by {
            if k2 == k {
                let ci = post.index@[k2];
                assert(ci.loc.id == pre.active_id && ci.loc.offset == off && ci.len == n as usize);
                assert(seg_files(post.disk)[aid] == seg_files(pre.disk)[aid] + enc);
                assert(seg_files(post.disk)[aid].len() == off + n);
                assert((seg_files(pre.disk)[aid] + enc).subrange(off as int, off + n) =~= enc);
                assert(post.model@[k2] == v);
            } else {
                assert(pre.index@.contains_key(k2));
            }
        }
        assert forall|k2: Seq<char>| #[trigger] post.index@.contains_key(k2) <==>
            post.model@.contains_key(k2) by {
            if k2 != k {
                assert(post.index@.contains_key(k2) <==> pre.index@.contains_key(k2));
            }
        }
    }
    assert(post.inv_files()) by {
        assert(forall|i: int|
            0 <= i < post.files@.len() ==> seg_files(post.disk).dom().contains(
                #[trigger] post.files@[i] as int,
            ));
    }
}

/// Dropping the removed key from the index restores the store invariant for
/// the shrunk model.
proof fn lemma_remove_install(pre: KvStore, mid: KvStore, post: KvStore, k: Seq<char>)
    requires
        pre.wf(),
        mid.index == pre.index,
        mid.model == pre.model,
        mid.files == pre.files,
        mid.active_id == pre.active_id,
        mid.lowest_id == pre.lowest_id,
        mid.healthy == pre.healthy,
        forall|k2: Seq<char>| #[trigger] mid.index@.contains_key(k2) ==> mid.inv_entry_ok(k2),
        seg_files(mid.disk).dom() == seg_files(pre.disk).dom(),
        mid.healthy ==> {
            &&& (forall|id: int|
                #[trigger] seg_files(mid.disk).dom().contains(id) ==> mid.files@.contains(
                    id as u64,
                ))
            &&& (forall|i: int|
                0 <= i < mid.files@.len() ==> decodable(
                    seg_files(mid.disk)[#[trigger] mid.files@[i] as int],
                ))
            &&& (forall|i: int|
                0 <= i < mid.files@.len() ==> seg_files(
                    mid.disk,
                )[#[trigger] mid.files@[i] as int].len() <= u64::MAX)
            &&& replay_files(seg_files(mid.disk), mid.files@) == apply(
                pre.model@,
                CommandModel::Rm(k),
            )
        },
        post.disk == mid.disk,
        post.files == mid.files,
        post.active_id == mid.active_id,
        post.lowest_id == mid.lowest_id,
        post.healthy == mid.healthy,
        post.cthreshold == mid.cthreshold,
        post.index@ == pre.index@.remove(k),
        post.index.wf(),
        post.model@ == pre.model@.remove(k),
    ensures
        post.wf(),
{
    assert(post.inv_index()) by {
        assert forall|k2: Seq<char>| #[trigger] post.index@.contains_key(k2) implies
            post.inv_entry_ok(k2) by {
            assert(k2 != k);
            assert(mid.index@.contains_key(k2));
            assert(mid.inv_entry_ok(k2));
            assert(post.model@[k2] == pre.model@[k2]);
        }
        assert forall|k2: Seq<char>| #[trigger] post.index@.contains_key(k2) <==>
            post.model@.contains_key(k2) by {
            if k2 != k {
                assert(post.index@.contains_key(k2) <==> pre.index@.contains_key(k2));
                assert(post.model@.contains_key(k2) <==> pre.model@.contains_key(k2));
            }
        }
    }
    assert(post.inv_files()) by {
        assert(forall|i: int|
            0 <= i < post.files@.len() ==> seg_files(post.disk).dom().contains(
                #[trigger] post.files@[i] as int,
            ));
    }
    if post.healthy {
        assert(apply(pre.model@, CommandModel::Rm(k)) == pre.model@.remove(k));
        assert(post.inv_replay());
    }
}

/// Put/get round-trip: a successful `set(k, v)` binds `k` to `v` and leaves
/// every other key as it was, so `get(k)` answers `Some(v)` — and keeps
/// answering it until a later `set(k, _)` or `remove(k)` — while `get` of
/// any other key is unaffected.
pub proof fn lemma_set_get_round_trip(
    m: Map<Seq<char>, Seq<char>>,
    k: Seq<char>,
    v: Seq<char>,
    k2: Seq<char>,
)
    ensures
        m.insert(k, v).contains_key(k),
        m.insert(k, v)[k] == v,
        k2 != k ==> (m.insert(k, v).contains_key(k2) <==> m.contains_key(k2)),
        k2 != k && m.contains_key(k2) ==> m.insert(k, v)[k2] == m[k2],
{
}

/// Remove: after a successful `remove(k)` the store no longer holds `k`, so
/// `get(k)` answers `None` until a subsequent `set(k, _)`, and every other
/// key is untouched.
pub proof fn lemma_remove_get(m: Map<Seq<char>, Seq<char>>, k: Seq<char>, k2: Seq<char>)
    ensures
        !m.remove(k).contains_key(k),
        k2 != k ==> (m.remove(k).contains_key(k2) <==> m.contains_key(k2)),
        k2 != k && m.contains_key(k2) ==> m.remove(k)[k2] == m[k2],
{
}

/// Two strictly ascending lists with the same members are the same list.
proof fn lemma_sorted_set_equal(s1: Seq<u64>, s2: Seq<u64>)
    requires
        strictly_sorted_u64(s1),
        strictly_sorted_u64(s2),
        forall|x: u64| s1.contains(x) <==> s2.contains(x),
    ensures
        s1 == s2,
    decreases s1.len(),
{
    if s1.len() == 0 {
        if s2.len() > 0 {
            assert(s2.contains(s2[0]));
            assert(s1.contains(s2[0]));
        }
        assert(s1 =~= s2);
    } else {
        assert(s1.contains(s1.last())) by {
            assert(s1[s1.len() - 1] == s1.last());
        }
        if s2.len() == 0 {
            assert(s2.contains(s1.last()));
            assert(false);
        }
        assert(s2.contains(s2.last())) by {
            assert(s2[s2.len() - 1] == s2.last());
        }
        assert(s1.last() == s2.last()) by {
            let j1 = choose|j: int| 0 <= j < s2.len() && s2[j] == s1.last();
            assert(s2[j1] <= s2.last()) by {
                if j1 < s2.len() - 1 {
                    assert(s2[j1] < s2[s2.len() - 1]);
                }
            }
            let j2 = choose|j: int| 0 <= j < s1.len() && s1[j] == s2.last();
            assert(s1[j2] <= s1.last()) by {
                if j2 < s1.len() - 1 {
                    assert(s1[j2] < s1[s1.len() - 1]);
                }
            }
        }
        let t1 = s1.drop_last();
        let t2 = s2.drop_last();
        assert(strictly_sorted_u64(t1) && strictly_sorted_u64(t2)) by {
            assert(forall|i: int| 0 <= i < t1.len() ==> #[trigger] t1[i] == s1[i]);
            assert(forall|i: int| 0 <= i < t2.len() ==> #[trigger] t2[i] == s2[i]);
        }
        assert forall|x: u64| t1.contains(x) <==> t2.contains(x) by {
            if t1.contains(x) {
                let j = choose|j: int| 0 <= j < t1.len() && t1[j] == x;
                assert(s1[j] == x);
                assert(x < s1.last()) by {
                    assert(s1[j] < s1[s1.len() - 1]);
                }
                assert(s1.contains(x));
                assert(s2.contains(x));
                let j2 = choose|j2: int| 0 <= j2 < s2.len() && s2[j2] == x;
                assert(j2 < s2.len() - 1) by {
                    if j2 == s2.len() - 1 {
                        assert(x == s2.last());
                    }
                }
                assert(t2[j2] == x);
                assert(t2.contains(x));
            }
            if t2.contains(x) {
                let j = choose|j: int| 0 <= j < t2.len() && t2[j] == x;
                assert(s2[j] == x);
                assert(x < s2.last()) by {
                    assert(s2[j] < s2[s2.len() - 1]);
                }
                assert(s2.contains(x));
                assert(s1.contains(x));
                let j2 = choose|j2: int| 0 <= j2 < s1.len() && s1[j2] == x;
                assert(j2 < s1.len() - 1) by {
                    if j2 == s1.len() - 1 {
                        assert(x == s1.last());
                    }
                }
                assert(t1[j2] == x);
                assert(t1.contains(x));
            }
        }
        lemma_sorted_set_equal(t1, t2);
        assert(s1 =~= s2) by {
            assert(s1.len() == s2.len());
            assert(forall|i: int| 0 <= i < s1.len() - 1 ==> #[trigger] s1[i] == t1[i]);
            assert(forall|i: int| 0 <= i < s2.len() - 1 ==> #[trigger] s2[i] == t2[i]);
        }
    }
}

/// Persistence and idempotence of replay: two well-formed, durable stores
/// over identical directory contents hold identical models.  Since opening
/// a directory reconstructs a durable store from its files alone, the
/// mapping visible through `get` is the same before closing a store and
/// after reopening its directory.
pub proof fn lemma_persistence(a: &KvStore, b: &KvStore)
    requires
        a.wf(),
        a.durable(),
        b.wf(),
        b.durable(),
        a.disk_view() == b.disk_view(),
    ensures
        a.file_ids() == b.file_ids(),
        a.model() == b.model(),
{
    assert forall|x: u64| a.file_ids().contains(x) <==> b.file_ids().contains(x) by {
        if a.file_ids().contains(x) {
            let j = choose|j: int| 0 <= j < a.files@.len() && a.files@[j] == x;
            assert(seg_files(a.disk).dom().contains(a.files@[j] as int));
            assert(seg_files(b.disk).dom().contains(x as int));
            assert(b.files@.contains(x));
        }
        if b.file_ids().contains(x) {
            let j = choose|j: int| 0 <= j < b.files@.len() && b.files@[j] == x;
            assert(seg_files(b.disk).dom().contains(b.files@[j] as int));
            assert(seg_files(a.disk).dom().contains(x as int));
            assert(a.files@.contains(x));
        }
    }
    lemma_sorted_set_equal(a.files@, b.files@);
    assert(replay_files(seg_files(a.disk), a.files@) == replay_files(
        seg_files(b.disk),
        b.files@,
    ));
}

/// The total byte length of the given segment files.
pub open spec fn total_segment_bytes(view: Map<int, Seq<u8>>, files: Seq<u64>) -> nat
    decreases files.len(),
{
    if files.len() == 0 {
        0
    } else {
        (total_segment_bytes(view, files.drop_last()) + view[files.last() as int].len()) as nat
    }
}

/// What a compaction snapshot entry promises: its locator points at the
/// intact `Set` record of its key.
pub open spec fn snap_entry_ok(
    view: Map<int, Seq<u8>>,
    ci: CmdInfo,
    k: Seq<char>,
    model: Map<Seq<char>, Seq<char>>,
) -> bool {
    &&& view.dom().contains(ci.loc.id as int)
    &&& ci.loc.offset + ci.len <= view[ci.loc.id as int].len()
    &&& view[ci.loc.id as int].subrange(ci.loc.offset as int, ci.loc.offset as int + ci.len as int)
        == spec_encode(CommandModel::Put(k, model[k]))
}

/// What a merge-index entry promises: it points into the merge buffer at
/// the re-encoded `Set` record of its key.
pub open spec fn merge_entry_ok(
    buf: Seq<u8>,
    ci: CmdInfo,
    k: Seq<char>,
    model: Map<Seq<char>, Seq<char>>,
    merge_id: u64,
) -> bool {
    &&& ci.loc.id == merge_id
    &&& ci.loc.offset + ci.len <= buf.len()
    &&& buf.subrange(ci.loc.offset as int, ci.loc.offset as int + ci.len as int) == spec_encode(
        CommandModel::Put(k, model[k]),
    )
}

/// Changing nothing but the merge temp files keeps the store well-formed:
/// no invariant reads them.
proof fn lemma_wf_same_core(pre: KvStore, post: KvStore)
    requires
        pre.wf(),
        post.index == pre.index,
        post.model == pre.model,
        post.files == pre.files,
        post.active_id == pre.active_id,
        post.lowest_id == pre.lowest_id,
        post.healthy == pre.healthy,
        seg_files(post.disk) == seg_files(pre.disk),
    ensures
        post.wf(),
{
    assert(post.inv_index()) by {
        assert forall|k: Seq<char>| #[trigger] post.index@.contains_key(k) implies
            post.inv_entry_ok(k) by {
            assert(pre.inv_entry_ok(k));
        }
    }
    assert(post.inv_files());
    if post.healthy {
        assert(pre.inv_replay());
        assert(post.inv_replay());
    }
}

/// Opening the next active segment: the store stays well-formed and still
/// replays to the same model, the new segment being empty.
proof fn lemma_roll_active(pre: KvStore, post: KvStore, new_active: u64)
    requires
        pre.wf(),
        new_active > pre.active_id,
        post.index == pre.index,
        post.model == pre.model,
        post.files@ == pre.files@.push(new_active),
        post.active_id == new_active,
        post.lowest_id == pre.lowest_id,
        post.healthy == pre.healthy,
        seg_files(post.disk) == seg_files(pre.disk).insert(new_active as int, Seq::<u8>::empty()),
    ensures
        post.wf(),
{
    let na = new_active as int;
    assert(post.inv_index()) by {
        assert forall|k: Seq<char>| #[trigger] post.index@.contains_key(k) implies
            post.inv_entry_ok(k) by {
            assert(pre.inv_entry_ok(k));
            let ci = post.index@[k];
            assert(ci.loc.id <= pre.active_id);
            assert(ci.loc.id as int != na);
            assert(seg_files(post.disk)[ci.loc.id as int] == seg_files(pre.disk)[ci.loc.id as int]);
        }
    }
    assert(post.inv_files()) by {
        assert(forall|i: int|
            0 <= i < pre.files@.len() ==> #[trigger] post.files@[i] == pre.files@[i]);
        assert(post.files@[post.files@.len() - 1] == new_active);
        assert(strictly_sorted_u64(post.files@)) by {
            assert(forall|i: int|
                0 <= i < pre.files@.len() ==> #[trigger] pre.files@[i] <= pre.active_id) by {
                assert(forall|i: int|
                    0 <= i < pre.files@.len() - 1 ==> #[trigger] pre.files@[i] < pre.files@[pre.files@.len() - 1]);
            }
        }
        assert(seg_files(post.disk).dom() =~= seg_files(pre.disk).dom().insert(na));
    }
    if post.healthy {
        assert(pre.inv_replay());
        assert forall|id: int| #[trigger] seg_files(post.disk).dom().contains(id) implies
            post.files@.contains(id as u64) by {
            if id == na {
                assert(post.files@[post.files@.len() - 1] == new_active);
            } else {
                assert(seg_files(pre.disk).dom().contains(id));
                assert(pre.files@.contains(id as u64));
                let j = choose|j: int|
                    0 <= j < pre.files@.len() && #[trigger] pre.files@[j] == id as u64;
                assert(post.files@[j] == id as u64);
            }
        }
        assert(concat_enc(Seq::<CommandModel>::empty()) == Seq::<u8>::empty());
        assert(parses_to(seg_files(post.disk)[na], Seq::<CommandModel>::empty()));
        lemma_records_of(seg_files(post.disk)[na], Seq::<CommandModel>::empty());
        assert forall|i: int| 0 <= i < post.files@.len() implies decodable(
            seg_files(post.disk)[#[trigger] post.files@[i] as int],
        ) && seg_files(post.disk)[post.files@[i] as int].len() <= u64::MAX by {
            if i < pre.files@.len() {
                assert(post.files@[i] == pre.files@[i]);
                assert(pre.files@[i] < new_active) by {
                    assert(forall|a: int|
                        0 <= a < pre.files@.len() - 1 ==> #[trigger] pre.files@[a] < pre.files@[pre.files@.len() - 1]);
                }
                assert(seg_files(post.disk)[post.files@[i] as int] == seg_files(
                    pre.disk,
                )[post.files@[i] as int]);
            } else {
                assert(post.files@[i] == new_active);
            }
        }
        assert(post.files@.drop_last() =~= pre.files@);
        assert(post.files@.last() == new_active);
        assert forall|i: int| 0 <= i < pre.files@.len() implies seg_files(
            post.disk,
        )[#[trigger] pre.files@[i] as int] == seg_files(pre.disk)[pre.files@[i] as int] by {
            assert(pre.files@[i] <= pre.active_id) by {
                assert(forall|a: int|
                    0 <= a < pre.files@.len() - 1 ==> #[trigger] pre.files@[a] < pre.files@[pre.files@.len() - 1]);
            }
        }
        lemma_replay_files_agree(seg_files(post.disk), seg_files(pre.disk), pre.files@);
        assert(replay_files(seg_files(post.disk), post.files@) == replay(
            replay_files(seg_files(pre.disk), pre.files@),
            Seq::<CommandModel>::empty(),
        ));
        assert(post.inv_replay());
    }
}

/// In the empty-snapshot pass, advancing the lowest live id keeps the store
/// well-formed: there is no index entry to point below it.
proof fn lemma_wf_core_lower(pre: KvStore, post: KvStore)
    requires
        pre.wf(),
        forall|k: Seq<char>| !pre.index@.contains_key(k),
        post.index == pre.index,
        post.model == pre.model,
        post.files == pre.files,
        post.active_id == pre.active_id,
        post.lowest_id <= post.active_id,
        post.healthy == pre.healthy,
        post.disk == pre.disk,
    ensures
        post.wf_core(),
        post.healthy ==> forall|id: int|
            #[trigger] seg_files(post.disk).dom().contains(id) ==> post.files@.contains(id as u64),
{
    assert(post.inv_index());
    assert(post.inv_files());
    if post.healthy {
        assert(pre.inv_replay());
    }
}

/// One unlink in the deletion sweep keeps the core invariants: the dropped
/// id is below every id the index or the remaining list mention.
proof fn lemma_delete_step_core(pre: KvStore, post: KvStore, id: u64, bound: u64)
    requires
        pre.wf_core(),
        pre.files@.len() >= 2,
        pre.files@[0] == id,
        id < bound,
        bound <= pre.lowest_id,
        post.index == pre.index,
        post.model == pre.model,
        post.files@ == pre.files@.drop_first(),
        post.active_id == pre.active_id,
        post.lowest_id == pre.lowest_id,
        seg_files(post.disk) == seg_files(pre.disk) || seg_files(post.disk) == seg_files(
            pre.disk,
        ).remove(id as int),
    ensures
        post.wf_core(),
{
    assert(post.inv_index()) by {
        assert forall|k: Seq<char>| #[trigger] post.index@.contains_key(k) implies
            post.inv_entry_ok(k) by {
            assert(pre.inv_entry_ok(k));
            let ci = post.index@[k];
            assert(ci.loc.id >= pre.lowest_id >= bound > id);
            assert(ci.loc.id as int != id as int);
        }
    }
    assert(post.inv_files()) by {
        assert(forall|i: int|
            0 <= i < post.files@.len() ==> #[trigger] post.files@[i] == pre.files@[i + 1]);
        assert(post.files@[post.files@.len() - 1] == pre.files@[pre.files@.len() - 1]);
        assert forall|i: int| 0 <= i < post.files@.len() implies seg_files(
            post.disk,
        ).dom().contains(#[trigger] post.files@[i] as int) by {
            assert(post.files@[i] == pre.files@[i + 1]);
            assert(pre.files@[0] < pre.files@[i + 1]);
            assert(post.files@[i] as int != id as int);
        }
    }
}

/// Installing the merge segment and its index: the store core is
/// well-formed again, every index entry pointing into the merge file.
proof fn lemma_install_merge(
    pre: KvStore,
    rolled: KvStore,
    post: KvStore,
    merge_id: u64,
    new_active: u64,
    buf: Seq<u8>,
)
    requires
        pre.wf(),
        merge_id == pre.active_id + 1,
        new_active == pre.active_id + 2,
        rolled.index == pre.index,
        rolled.model == pre.model,
        rolled.files@ == pre.files@.push(new_active),
        rolled.active_id == new_active,
        rolled.lowest_id == pre.lowest_id,
        rolled.healthy == pre.healthy,
        seg_files(rolled.disk) == seg_files(pre.disk).insert(new_active as int, Seq::<u8>::empty()),
        seg_files(post.disk) == seg_files(rolled.disk).insert(merge_id as int, buf),
        post.index.wf(),
        forall|k: Seq<char>| #[trigger] post.index@.contains_key(k) <==> pre.model@.contains_key(k),
        forall|k: Seq<char>|
            #[trigger] post.index@.contains_key(k) ==> merge_entry_ok(
                buf,
                post.index@[k],
                k,
                pre.model@,
                merge_id,
            ),
        post.model == pre.model,
        post.files@ == pre.files@ + seq![merge_id, new_active],
        post.active_id == new_active,
        post.lowest_id == merge_id,
        post.healthy == pre.healthy,
    ensures
        post.wf_core(),
        post.healthy ==> forall|id: int|
            #[trigger] seg_files(post.disk).dom().contains(id) ==> post.files@.contains(id as u64),
{
    let mi = merge_id as int;
    let na = new_active as int;
    assert(seg_files(post.disk)[mi] == buf);
    assert(forall|i: int|
        0 <= i < pre.files@.len() ==> #[trigger] pre.files@[i] <= pre.active_id) by {
        assert(forall|i: int|
            0 <= i < pre.files@.len() - 1 ==> #[trigger] pre.files@[i] < pre.files@[pre.files@.len() - 1]);
    }
    assert(post.inv_index()) by {
        assert forall|k: Seq<char>| #[trigger] post.index@.contains_key(k) implies
            post.inv_entry_ok(k) by {
            let ci = post.index@[k];
            assert(merge_entry_ok(buf, ci, k, pre.model@, merge_id));
            assert(ci.loc.id == merge_id);
            assert(seg_files(post.disk).dom().contains(mi));
        }
    }
    assert(post.inv_files()) by {
        assert(post.files@[post.files@.len() - 1] == new_active);
        assert(strictly_sorted_u64(post.files@)) by {
            assert(forall|i: int|
                0 <= i < post.files@.len() ==> #[trigger] post.files@[i] == if i
                    < pre.files@.len() {
                    pre.files@[i]
                } else if i == pre.files@.len() {
                    merge_id
                } else {
                    new_active
                });
        }
        assert(seg_files(post.disk).dom() =~= seg_files(pre.disk).dom().insert(na).insert(mi));
        assert forall|i: int| 0 <= i < post.files@.len() implies seg_files(
            post.disk,
        ).dom().contains(#[trigger] post.files@[i] as int) by {
            if i < pre.files@.len() {
                assert(post.files@[i] == pre.files@[i]);
                assert(seg_files(pre.disk).dom().contains(pre.files@[i] as int));
            }
        }
    }
    if post.healthy {
        assert(pre.inv_replay());
        assert forall|id: int| #[trigger] seg_files(post.disk).dom().contains(id) implies
            post.files@.contains(id as u64) by {
            if id == mi {
                assert(post.files@[post.files@.len() - 2] == merge_id);
            } else if id == na {
                assert(post.files@[post.files@.len() - 1] == new_active);
            } else {
                assert(seg_files(pre.disk).dom().contains(id));
                assert(pre.files@.contains(id as u64));
                let j = choose|j: int|
                    0 <= j < pre.files@.len() && #[trigger] pre.files@[j] == id as u64;
                assert(post.files@[j] == id as u64);
            }
        }
    }
}

} // verus!
