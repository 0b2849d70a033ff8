//! The writer's side of the store: the key directory, the accounting of dead bytes,
//! and compaction, over a model of what each log file holds.
//!
//! The store's files live outside the library. The functions here decide what is
//! written where and keep the key directory; the caller appends the bytes, copies the
//! spans that compaction lists, and reads back the spans that the directory points at.
use vstd::prelude::*;
use crate::codec::{
    decode_all, decode_cmd, encode_cmd, enc_cmd, first_of, parse_cmd, parse_from, recs_view, robust_cmd, start_of,
    tiles, Cmd, CmdModel,
};
use crate::errors::KvsError;
use crate::keydir::{CmdPos, KeyDir};

verus! {

/// Dead bytes past which the writer compacts the log (1 MiB).
pub const COMPACT_THRESHOLD: u64 = 1048576;

/// The bytes of a log file made of the given records, in order.
pub open spec fn file_bytes(cs: Seq<(Seq<u8>, CmdModel)>) -> Seq<u8>
    decreases cs.len(),
{
    if cs.len() == 0 {
        Seq::empty()
    } else {
        file_bytes(cs.drop_last()) + cs.last().0
    }
}

/// Where the `j`-th record of a log file starts.
pub open spec fn chunk_offset(cs: Seq<(Seq<u8>, CmdModel)>, j: int) -> nat {
    file_bytes(cs.take(j)).len()
}

/// A map after one record is applied to it.
pub open spec fn apply_cmd(m: Map<Seq<char>, Seq<char>>, c: CmdModel) -> Map<Seq<char>, Seq<char>> {
    match c {
        CmdModel::Put { key, value } => m.insert(key, value),
        CmdModel::Remove { key } => m.remove(key),
    }
}

/// A map after a sequence of records is applied to it, in order.
pub open spec fn apply_all(m: Map<Seq<char>, Seq<char>>, cs: Seq<CmdModel>) -> Map<
    Seq<char>,
    Seq<char>,
>
    decreases cs.len(),
{
    if cs.len() == 0 {
        m
    } else {
        apply_cmd(apply_all(m, cs.drop_last()), cs.last())
    }
}

/// The key of a record.
pub open spec fn key_of(c: CmdModel) -> Seq<char> {
    match c {
        CmdModel::Put { key, .. } => key,
        CmdModel::Remove { key } => key,
    }
}

/// Dead bytes after a record of `len` bytes is appended: the bytes of the `Put` it
/// displaces, and the bytes of a `Remove` itself. The count stops at `u64::MAX`.
pub open spec fn dead_after(
    dir: Map<Seq<char>, CmdPos>,
    dead: u64,
    c: CmdModel,
    len: u64,
) -> u64 {
    let displaced: int = if dir.contains_key(key_of(c)) {
        dir[key_of(c)].len as int
    } else {
        0
    };
    let own: int = if c is Remove {
        len as int
    } else {
        0
    };
    let total = dead + displaced + own;
    if total > u64::MAX {
        u64::MAX
    } else {
        total as u64
    }
}

/// The key directory after a record of `len` bytes is appended at `kv_pos` of file
/// `file_id`.
pub open spec fn dir_after(
    dir: Map<Seq<char>, CmdPos>,
    c: CmdModel,
    file_id: u64,
    kv_pos: u64,
    len: u64,
) -> Map<Seq<char>, CmdPos> {
    match c {
        CmdModel::Put { key, .. } => dir.insert(
            key,
            CmdPos { file_id: file_id, kv_pos: kv_pos, len: len },
        ),
        CmdModel::Remove { key } => dir.remove(key),
    }
}

/// The total length of the records that `dir` points the keys `ks` at.
pub open spec fn sum_lens(dir: Map<Seq<char>, CmdPos>, ks: Seq<Seq<char>>) -> nat
    decreases ks.len(),
{
    if ks.len() == 0 {
        0
    } else {
        (sum_lens(dir, ks.drop_last()) + dir[ks.last()].len) as nat
    }
}

/// The live records, taken together, fit in one file whose offsets are `u64`.
pub open spec fn live_fits(dir: Map<Seq<char>, CmdPos>) -> bool {
    forall|ks: Seq<Seq<char>>|
        ks.no_duplicates() && #[trigger] ks.to_set() == dir.dom() ==> sum_lens(dir, ks)
            <= u64::MAX
}

/// The keys of a list of strings.
pub open spec fn key_views(v: Seq<String>) -> Seq<Seq<char>> {
    v.map_values(|s: String| s@)
}

/// What a compaction asks of the caller: create the empty file `active_id` for
/// later appends; create `compact_id` and copy into it, in order, the span of each
/// position in `copies`; then delete every log file whose id is below `compact_id`.
pub struct CompactionPlan {
    pub compact_id: u64,
    pub active_id: u64,
    pub copies: Vec<CmdPos>,
}

/// The key directory and dead-byte count after the records `recs` of file `file_id`
/// (each with the offset just past it) are read in order.
pub open spec fn load_spec(
    dir: Map<Seq<char>, CmdPos>,
    dead: u64,
    file_id: u64,
    recs: Seq<(CmdModel, nat)>,
) -> (Map<Seq<char>, CmdPos>, u64)
    decreases recs.len(),
{
    if recs.len() == 0 {
        (dir, dead)
    } else {
        let prev = load_spec(dir, dead, file_id, recs.drop_last());
        let start: nat = if recs.len() == 1 {
            0
        } else {
            recs[recs.len() - 2].1
        };
        let len = (recs.last().1 - start) as u64;
        (
            dir_after(prev.0, recs.last().0, file_id, start as u64, len),
            dead_after(prev.0, prev.1, recs.last().0, len),
        )
    }
}

/// What the records of one log file say, in order.
pub open spec fn file_cmds(cs: Seq<(Seq<u8>, CmdModel)>) -> Seq<CmdModel> {
    cs.map_values(|x: (Seq<u8>, CmdModel)| x.1)
}

/// What the records of the files `ids` say, file after file.
pub open spec fn all_cmds(logs: Map<u64, Seq<(Seq<u8>, CmdModel)>>, ids: Seq<u64>) -> Seq<
    CmdModel,
>
    decreases ids.len(),
{
    if ids.len() == 0 {
        Seq::empty()
    } else {
        all_cmds(logs, ids.drop_last()) + file_cmds(logs[ids.last()])
    }
}

/// The mapping that reading the log files `logs` in order rebuilds, starting from an
/// empty store, as [`KvsCore::load_log`] does file by file; `None` when one of them is
/// not a whole number of records.
pub open spec fn replay_logs(logs: Seq<Seq<u8>>) -> Option<Map<Seq<char>, Seq<char>>>
    decreases logs.len(),
{
    if logs.len() == 0 {
        Some(Map::empty())
    } else {
        match replay_logs(logs.drop_last()) {
            Some(m) => match parse_from(logs.last(), 0) {
                Some(recs) => Some(apply_all(m, first_of(recs))),
                None => None,
            },
            None => None,
        }
    }
}

/// The bytes that copying the spans `ps` of the files `logs` one after another gives.
pub open spec fn spans_in(logs: Map<u64, Seq<(Seq<u8>, CmdModel)>>, ps: Seq<CmdPos>) -> Seq<u8>
    decreases ps.len(),
{
    if ps.len() == 0 {
        Seq::empty()
    } else {
        spans_in(logs, ps.drop_last()) + file_bytes(logs[ps.last().file_id]).subrange(
            ps.last().kv_pos as int,
            (ps.last().kv_pos + ps.last().len) as int,
        )
    }
}

/// Every record of the files `logs` is live: a `Put` whose key `dir` points at it.
pub open spec fn all_live_in(logs: Map<u64, Seq<(Seq<u8>, CmdModel)>>, dir: Map<Seq<char>, CmdPos>) -> bool {
    forall|id: u64, j: int|
        logs.contains_key(id) && 0 <= j < logs[id].len() ==> {
            let c = #[trigger] logs[id][j].1;
            &&& c is Put
            &&& dir.contains_key(key_of(c))
            &&& dir[key_of(c)].file_id == id
            &&& dir[key_of(c)].kv_pos == chunk_offset(logs[id], j)
        }
}

/// A record in its text form, ready to be appended to the log.
pub struct EncodedCmd {
    cmd: Cmd,
    bytes: Vec<u8>,
}

impl EncodedCmd {
    #[verifier::type_invariant]
    spec fn inv(&self) -> bool {
        &&& self.bytes@ == enc_cmd(self.cmd@)
        &&& robust_cmd(self.bytes@, self.cmd@)
        &&& self.bytes@.len() > 0
    }

    pub closed spec fn cmd_spec(&self) -> CmdModel {
        self.cmd@
    }

    pub closed spec fn bytes_spec(&self) -> Seq<u8> {
        self.bytes@
    }

    /// Encodes a record.
    pub fn new(cmd: Cmd) -> (r: EncodedCmd)
        ensures
            r.cmd_spec() == cmd@,
            r.bytes_spec() == enc_cmd(cmd@),
    {
        let bytes = encode_cmd(&cmd);
        proof {
            let c = cmd@;
            if c is Put {
                assert(enc_cmd(c).len() >= 14);
            } else {
                assert(enc_cmd(c).len() >= 17);
            }
        }
        EncodedCmd { cmd, bytes }
    }

    /// The bytes to append to the log.
    pub fn bytes(&self) -> (r: &[u8])
        ensures
            r@ == self.bytes_spec(),
    {
        self.bytes.as_slice()
    }

    /// The number of bytes to append to the log.
    pub fn len(&self) -> (r: u64)
        ensures
            r == self.bytes_spec().len(),
    {
        proof {
            use_type_invariant(self);
        }
        self.bytes.len() as u64
    }
}

/// The writer's state: the key directory, the active log file, the count of dead
/// bytes, and the last published checkpoint; beside them, a model of the records
/// that each log file holds.
pub struct KvsCore {
    key_dir: KeyDir,
    current_file_id: u64,
    active_end: u64,
    uncompact: u64,
    check_point: u64,
    has_logs: bool,
    logs: Ghost<Map<u64, Seq<(Seq<u8>, CmdModel)>>>,
    ids: Ghost<Seq<u64>>,
    slots: Ghost<Map<Seq<char>, int>>,
    values: Ghost<Map<Seq<char>, Seq<char>>>,
}

impl View for KvsCore {
    type V = Map<Seq<char>, Seq<char>>;

    /// The live mapping from keys to values.
    closed spec fn view(&self) -> Map<Seq<char>, Seq<char>> {
        self.values@
    }
}

impl KvsCore {
    /// The key directory.
    pub closed spec fn dir(&self) -> Map<Seq<char>, CmdPos> {
        self.key_dir@
    }

    /// The log file ids, in ascending order.
    pub closed spec fn log_ids(&self) -> Seq<u64> {
        self.ids@
    }

    /// The records of each log file, with their bytes.
    pub closed spec fn log_records(&self) -> Map<u64, Seq<(Seq<u8>, CmdModel)>> {
        self.logs@
    }

    /// The bytes of log file `id`.
    pub open spec fn log_bytes(&self, id: u64) -> Seq<u8> {
        file_bytes(self.log_records()[id])
    }

    pub closed spec fn active_id(&self) -> u64 {
        self.current_file_id
    }

    pub closed spec fn active_len(&self) -> u64 {
        self.active_end
    }

    pub closed spec fn dead_bytes(&self) -> u64 {
        self.uncompact
    }

    pub closed spec fn checkpoint(&self) -> u64 {
        self.check_point
    }

    /// The span that `p` points at, in the log as the store wrote it.
    pub open spec fn span(&self, p: CmdPos) -> Seq<u8> {
        self.log_bytes(p.file_id).subrange(p.kv_pos as int, (p.kv_pos + p.len) as int)
    }

    spec fn points_at(&self, k: Seq<char>) -> bool {
        let p = self.key_dir@[k];
        let j = self.slots@[k];
        let cs = self.logs@[p.file_id];
        &&& self.logs@.contains_key(p.file_id)
        &&& 0 <= j < cs.len()
        &&& chunk_offset(cs, j) == p.kv_pos
        &&& cs[j].0.len() == p.len
        &&& cs[j].1 == CmdModel::Put { key: k, value: self.values@[k] }
    }

    /// The state is consistent: the ids are ascending and name the modelled files, the
    /// last of them is the active file, every modelled record reads back as itself,
    /// and the directory points each live key at a `Put` of its value.
    pub closed spec fn wf(&self) -> bool {
        let logs = self.logs@;
        let ids = self.ids@;
        &&& forall|i: int, j: int| 0 <= i < j < ids.len() ==> ids[i] < ids[j]
        &&& forall|i: int| 0 <= i < ids.len() ==> logs.contains_key(#[trigger] ids[i])
        &&& forall|id: u64| #[trigger] logs.contains_key(id) ==> ids.contains(id)
        &&& ids.len() > 0 ==> ids.last() == self.current_file_id
        &&& ids.len() > 0 ==> file_bytes(logs[self.current_file_id]).len() == self.active_end
        &&& ids.len() == 0 ==> self.current_file_id == 0 && self.active_end == 0
        &&& self.has_logs == (ids.len() > 0)
        &&& forall|id: u64, j: int|
            logs.contains_key(id) && 0 <= j < logs[id].len() ==> robust_cmd(
                #[trigger] logs[id][j].0,
                logs[id][j].1,
            )
        &&& self.key_dir@.dom() == self.values@.dom()
        &&& self.key_dir@.dom() == self.slots@.dom()
        &&& forall|k: Seq<char>| #[trigger] self.key_dir@.contains_key(k) ==> self.points_at(k)
        &&& apply_all(Map::empty(), all_cmds(logs, ids)) == self.values@
    }

    /// The bytes of each log file, in ascending id order.
    pub closed spec fn log_contents(&self) -> Seq<Seq<u8>> {
        self.ids@.map_values(|id: u64| file_bytes(self.logs@[id]))
    }

    /// An empty store with no log files.
    pub fn new() -> (r: KvsCore)
        ensures
            r.wf(),
            r@ == Map::<Seq<char>, Seq<char>>::empty(),
            r.log_ids().len() == 0,
            r.dead_bytes() == 0,
            r.checkpoint() == 0,
    {
        let r = KvsCore {
            key_dir: KeyDir::new(),
            current_file_id: 0,
            active_end: 0,
            uncompact: 0,
            check_point: 0,
            has_logs: false,
            logs: Ghost(Map::empty()),
            ids: Ghost(Seq::empty()),
            slots: Ghost(Map::empty()),
            values: Ghost(Map::empty()),
        };
        assert(r.key_dir@ =~= Map::empty());
        r
    }

    /// The id of the file that appends go to.
    pub fn current_file_id(&self) -> (r: u64)
        ensures
            r == self.active_id(),
    {
        self.current_file_id
    }

    /// Whether the store has a log file to append to: one was read or started.
    pub fn has_log(&self) -> (r: bool)
        requires
            self.wf(),
        ensures
            r == (self.log_ids().len() > 0),
    {
        self.has_logs
    }

    /// The length of the active file, where the next record goes.
    pub fn active_end(&self) -> (r: u64)
        ensures
            r == self.active_len(),
    {
        self.active_end
    }

    /// Dead bytes in the log that compaction would reclaim.
    pub fn uncompact(&self) -> (r: u64)
        ensures
            r == self.dead_bytes(),
    {
        self.uncompact
    }

    /// The lowest file id that readers may still use.
    pub fn check_point(&self) -> (r: u64)
        ensures
            r == self.checkpoint(),
    {
        self.check_point
    }

    /// Where the latest `Put` of `key` lies, or `None` when the store does not hold it.
    pub fn locate(&self, key: &str) -> (r: Option<CmdPos>)
        requires
            self.wf(),
        ensures
            r is None <==> !self@.contains_key(key@),
            r matches Some(p) ==> p == self.dir()[key@],
    {
        self.key_dir.get(key)
    }

    /// Whether the store holds `key`.
    pub fn contains_key(&self, key: &str) -> (r: bool)
        requires
            self.wf(),
        ensures
            r == self@.contains_key(key@),
    {
        self.key_dir.get(key).is_some()
    }

    /// A removal goes ahead only for a key that the store holds.
    pub fn check_remove(&self, key: &str) -> (r: Result<(), KvsError>)
        requires
            self.wf(),
        ensures
            r is Ok <==> self@.contains_key(key@),
            r is Err ==> r == Err::<(), KvsError>(KvsError::KeyNotFound),
    {
        if self.contains_key(key) {
            Ok(())
        } else {
            Err(KvsError::KeyNotFound)
        }
    }

    /// Records that `cmd`, written as `bytes`, was appended at the end of the active
    /// file: the key directory and the dead-byte count follow the record.
    #[verifier::spinoff_prover]
    fn note_record(&mut self, cmd: &Cmd, len: u64, bytes: Ghost<Seq<u8>>)
        requires
            old(self).wf(),
            old(self).log_ids().len() > 0,
            old(self).active_len() + len <= u64::MAX,
            bytes@.len() == len,
            robust_cmd(bytes@, cmd@),
        ensures
            final(self).wf(),
            final(self)@ == apply_cmd(old(self)@, cmd@),
            final(self).dir() == dir_after(
                old(self).dir(),
                cmd@,
                old(self).active_id(),
                old(self).active_len(),
                len,
            ),
            final(self).dead_bytes() == dead_after(
                old(self).dir(),
                old(self).dead_bytes(),
                cmd@,
                len,
            ),
            final(self).active_id() == old(self).active_id(),
            final(self).active_len() == old(self).active_len() + len,
            final(self).log_ids() == old(self).log_ids(),
            final(self).checkpoint() == old(self).checkpoint(),
            final(self).log_records() == old(self).log_records().insert(
                old(self).active_id(),
                old(self).log_records()[old(self).active_id()].push(
                    (bytes@, cmd@),
                ),
            ),
    {
        let pos = self.active_end;
        let cur = self.current_file_id;
        let ghost old_self = *self;
        let ghost cs = self.logs@[cur];
        let ghost x = (bytes@, cmd@);
        let ghost logs0 = self.logs@;
        match cmd {
            Cmd::Put { key, value } => {
                let displaced = self.key_dir.insert(
                    key.clone(),
                    CmdPos { file_id: cur, kv_pos: pos, len },
                );
                if let Some(o) = displaced {
                    self.uncompact = self.uncompact.saturating_add(o.len);
                }
                proof {
                    self.slots@ = self.slots@.insert(key@, cs.len() as int);
                }
            },
            Cmd::Remove { key } => {
                let displaced = self.key_dir.remove(key.as_str());
                if let Some(o) = displaced {
                    self.uncompact = self.uncompact.saturating_add(o.len);
                }
                self.uncompact = self.uncompact.saturating_add(len);
                proof {
                    self.slots@ = self.slots@.remove(key@);
                }
            },
        }
        self.active_end = pos + len;
        proof {
            self.logs@ = self.logs@.insert(cur, cs.push(x));
            self.values@ = apply_cmd(self.values@, cmd@);
            lemma_all_cmds_append(logs0, self.ids@, x);
            lemma_apply_all_push(Map::empty(), all_cmds(logs0, self.ids@), cmd@);
            lemma_file_bytes_push(cs, x);
            assert(cs.push(x).take(cs.len() as int) =~= cs);
            assert(self.key_dir@.dom() =~= self.values@.dom());
            assert(self.key_dir@.dom() =~= self.slots@.dom());
            assert forall|id: u64, j: int|
                self.logs@.contains_key(id) && 0 <= j < self.logs@[id].len() implies robust_cmd(
                #[trigger] self.logs@[id][j].0,
                self.logs@[id][j].1,
            ) by {
                if id == cur && j < cs.len() {
                    assert(self.logs@[id][j] == cs[j]);
                }
            }
            assert forall|id: u64| #[trigger] self.logs@.contains_key(id) implies self.ids@.contains(
                id,
            ) by {
                assert(old_self.logs@.contains_key(id));
            }
            assert forall|k: Seq<char>| #[trigger] self.key_dir@.contains_key(k) implies self.points_at(
                k,
            ) by {
                if k != key_of(cmd@) {
                    assert(old_self.key_dir@.contains_key(k));
                    assert(old_self.points_at(k));
                    let p = self.key_dir@[k];
                    if p.file_id == cur {
                        lemma_offset_push(cs, x, self.slots@[k]);
                        assert(cs.push(x)[self.slots@[k]] == cs[self.slots@[k]]);
                    }
                }
            }
        }
    }

    /// Every modelled record is live: it is the `Put` that the directory points its
    /// key at. Nothing in the log is dead.
    pub open spec fn all_live(&self) -> bool {
        all_live_in(self.log_records(), self.dir())
    }

    /// The bytes that copying the spans `ps` one after another gives.
    pub open spec fn spans_of(&self, ps: Seq<CmdPos>) -> Seq<u8> {
        spans_in(self.log_records(), ps)
    }

    /// Sums the lengths of the live records, or `None` when the sum does not fit.
    fn live_total(&self, keys: &Vec<String>) -> (r: Option<u64>)
        requires
            self.wf(),
            forall|i: int| 0 <= i < keys@.len() ==> self.dir().contains_key(#[trigger] keys@[i]@),
            key_views(keys@).no_duplicates(),
            key_views(keys@).to_set() == self.dir().dom(),
        ensures
            r is None ==> !live_fits(self.dir()),
            r matches Some(t) ==> t == sum_lens(self.dir(), key_views(keys@)),
    {
        let ghost kv = key_views(keys@);
        let mut total: u64 = 0;
        let mut i: usize = 0;
        while i < keys.len()
            invariant
                i <= keys@.len(),
                kv == key_views(keys@),
                kv.no_duplicates(),
                kv.to_set() == self.dir().dom(),
                total == sum_lens(self.dir(), kv.take(i as int)),
                forall|t: int| 0 <= t < keys@.len() ==> self.dir().contains_key(#[trigger] keys@[t]@),
            decreases keys@.len() - i,
        {
            let p = self.key_dir.get(keys[i].as_str());
            assert(kv.take(i + 1).drop_last() =~= kv.take(i as int));
            assert(kv[i as int] == keys@[i as int]@);
            match p {
                Some(p) => match total.checked_add(p.len) {
                    Some(t) => {
                        total = t;
                    },
                    None => {
                        proof {
                            lemma_sum_prefix(self.dir(), kv, i + 1);
                            assert(kv.take(kv.len() as int) =~= kv);
                            assert(sum_lens(self.dir(), kv.take(i + 1)) == sum_lens(
                                self.dir(),
                                kv.take(i as int),
                            ) + self.dir()[kv[i as int]].len);
                            assert(sum_lens(self.dir(), kv) > u64::MAX);
                            assert(kv.to_set() == self.dir().dom());
                        }
                        return None;
                    },
                },
                None => {
                    return None;
                },
            }
            i = i + 1;
        }
        assert(kv.take(kv.len() as int) =~= kv);
        Some(total)
    }

    /// Copies every live record into the fresh file `active_id + 1`, points the
    /// directory at the copies, makes `active_id + 2` the active file and publishes
    /// `active_id + 1` as the checkpoint. Nothing happens when the ids or the size of
    /// the copied records would overflow.
    #[verifier::rlimit(60)]
    #[verifier::spinoff_prover]
    fn compact(&mut self) -> (r: Option<CompactionPlan>)
        requires
            old(self).wf(),
        ensures
            final(self).wf(),
            final(self)@ == old(self)@,
            old(self).active_id() <= u64::MAX - 2 && live_fits(old(self).dir()) ==> r is Some,
            r is None ==> *final(self) == *old(self),
            r matches Some(plan) ==> {
                &&& plan.compact_id == old(self).active_id() + 1
                &&& plan.active_id == old(self).active_id() + 2
                &&& final(self).active_id() == plan.active_id
                &&& final(self).active_len() == 0
                &&& final(self).dead_bytes() == 0
                &&& final(self).checkpoint() == plan.compact_id
                &&& final(self).log_ids() == seq![plan.compact_id, plan.active_id]
                &&& final(self).log_bytes(plan.compact_id) == old(self).spans_of(plan.copies@)
                &&& final(self).log_bytes(plan.active_id).len() == 0
                &&& final(self).all_live()
                &&& final(self).dir().dom() == old(self).dir().dom()
                &&& forall|k: Seq<char>| #[trigger]
                    final(self).dir().contains_key(k) ==> final(self).dir()[k].file_id
                        == plan.compact_id && final(self).dir()[k].len == old(self).dir()[k].len
            },
    {
        if self.current_file_id > u64::MAX - 2 {
            return None;
        }
        let keys = self.key_dir.keys();
        let ghost kv = key_views(keys@);
        let ghost old_self = *self;
        let ghost old_dir = self.key_dir@;
        proof {
            assert(kv.no_duplicates()) by {
                assert forall|a: int, b: int| 0 <= a < kv.len() && 0 <= b < kv.len() && a != b implies kv[a] != kv[b] by {
                    if a < b {
                        assert(keys@[a]@ != keys@[b]@);
                    } else {
                        assert(keys@[b]@ != keys@[a]@);
                    }
                }
            }
            assert forall|k: Seq<char>| kv.to_set().contains(k) <==> old_dir.contains_key(k) by {
                if old_dir.contains_key(k) {
                    let i = choose|i: int| 0 <= i < keys@.len() && #[trigger] keys@[i]@ == k;
                    assert(kv[i] == k);
                }
                if kv.to_set().contains(k) {
                    let i = choose|i: int| 0 <= i < kv.len() && kv[i] == k;
                    assert(keys@[i]@ == k);
                }
            }
            assert(kv.to_set() =~= old_dir.dom());
        }
        let total = match self.live_total(&keys) {
            Some(t) => t,
            None => {
                return None;
            },
        };
        let compact_id = self.current_file_id + 1;
        let active_id = self.current_file_id + 2;
        let mut copies: Vec<CmdPos> = Vec::new();
        let mut pos: u64 = 0;
        let ghost mut chunks: Seq<(Seq<u8>, CmdModel)> = Seq::empty();
        let ghost mut slots: Map<Seq<char>, int> = Map::empty();
        let mut i: usize = 0;
        while i < keys.len()
            invariant
                i <= keys@.len(),
                kv == key_views(keys@),
                kv.no_duplicates(),
                kv.to_set() == old_dir.dom(),
                old_self.wf(),
                old_dir == old_self.key_dir@,
                self.values == old_self.values,
                self.logs == old_self.logs,
                self.slots == old_self.slots,
                self.ids == old_self.ids,
                self.current_file_id == old_self.current_file_id,
                self.active_end == old_self.active_end,
                self.uncompact == old_self.uncompact,
                self.check_point == old_self.check_point,
                total == sum_lens(old_dir, kv),
                compact_id == old_self.current_file_id + 1,
                self.key_dir@.dom() == old_dir.dom(),
                copies@.len() == i,
                chunks.len() == i,
                pos == sum_lens(old_dir, kv.take(i as int)),
                file_bytes(chunks).len() == pos,
                file_bytes(chunks) == old_self.spans_of(copies@),
                forall|t: int| 0 <= t < keys@.len() ==> old_dir.contains_key(#[trigger] keys@[t]@),
                forall|t: int|
                    0 <= t < i ==> {
                        &&& copies@[t] == old_dir[kv[t]]
                        &&& self.key_dir@[#[trigger] kv[t]].file_id == compact_id
                        &&& self.key_dir@[kv[t]].kv_pos == chunk_offset(chunks, t)
                        &&& self.key_dir@[kv[t]].len == old_dir[kv[t]].len
                        &&& chunks[t] == old_self.logs@[old_dir[kv[t]].file_id][old_self.slots@[kv[t]]]
                        &&& slots.contains_key(kv[t])
                        &&& slots[kv[t]] == t
                    },
                forall|t: int| i <= t < kv.len() ==> self.key_dir@[#[trigger] kv[t]] == old_dir[kv[t]],
                forall|k: Seq<char>| #[trigger] slots.contains_key(k) ==> kv.take(i as int).contains(k),
            decreases keys@.len() - i,
        {
            let key = &keys[i];
            assert(kv[i as int] == key@);
            let p = match self.key_dir.get(key.as_str()) {
                Some(p) => p,
                None => {
                    proof {
                        assert(false);
                    }
                    return None;
                },
            };
            proof {
                lemma_sum_prefix(old_dir, kv, i + 1);
                assert(kv.take(i + 1).drop_last() =~= kv.take(i as int));
                assert(kv.take(kv.len() as int) =~= kv);
            }
            let ghost copies0 = copies@;
            copies.push(p);
            let ghost x = old_self.logs@[p.file_id][old_self.slots@[key@]];
            proof {
                assert(old_self.key_dir@.contains_key(key@));
                assert(old_self.points_at(key@));
                lemma_chunk_at(old_self.logs@[p.file_id], old_self.slots@[key@]);
                lemma_file_bytes_push(chunks, x);
                assert(copies@.drop_last() =~= copies0);
            }
            self.key_dir.insert(key.clone(), CmdPos { file_id: compact_id, kv_pos: pos, len: p.len });
            proof {
                assert forall|t: int| 0 <= t < i implies chunk_offset(chunks.push(x), t) == chunk_offset(chunks, t) by {
                    lemma_offset_push(chunks, x, t);
                }
                assert(chunks.push(x).take(i as int) =~= chunks);
                chunks = chunks.push(x);
                slots = slots.insert(key@, i as int);
                assert(kv.take(i + 1) =~= kv.take(i as int).push(key@));
                assert forall|t: int| i + 1 <= t < kv.len() implies self.key_dir@[#[trigger] kv[t]] == old_dir[kv[t]] by {
                    assert(kv[t] != kv[i as int]);
                }
                assert forall|t: int| 0 <= t < i + 1 implies #[trigger] chunks[t] == old_self.logs@[old_dir[kv[t]].file_id][old_self.slots@[kv[t]]] && slots[kv[t]] == t by {
                    if t < i {
                        assert(kv[t] != kv[i as int]);
                    }
                }
            }
            pos = pos + p.len;
            i = i + 1;
        }
        self.current_file_id = active_id;
        self.active_end = 0;
        self.uncompact = 0;
        self.check_point = compact_id;
        self.has_logs = true;
        proof {
            assert(kv.take(kv.len() as int) =~= kv);
            self.logs@ = Map::empty().insert(compact_id, chunks).insert(active_id, Seq::empty());
            self.ids@ = seq![compact_id, active_id];
            self.slots@ = slots;
            lemma_compacted(old_self, *self, kv, chunks, slots, compact_id, active_id);
        }
        Some(CompactionPlan { compact_id, active_id, copies })
    }

    /// Encodes `cmd` for appending, after the tests that [`KvsCore::commit`] needs:
    /// the store has a log file (else `IoErr`), a `Remove` is of a key that the store
    /// holds (else `KeyNotFound`), and the record fits in the active file (else
    /// `IoErr`). The caller appends the bytes and commits with the state unchanged.
    pub fn prepare(&self, cmd: Cmd) -> (r: Result<EncodedCmd, KvsError>)
        requires
            self.wf(),
        ensures
            r is Ok <==> {
                &&& self.log_ids().len() > 0
                &&& cmd@ is Remove ==> self@.contains_key(key_of(cmd@))
                &&& self.active_len() + enc_cmd(cmd@).len() <= u64::MAX
            },
            r matches Ok(rec) ==> rec.cmd_spec() == cmd@ && rec.bytes_spec() == enc_cmd(cmd@),
            r matches Err(e) ==> (e is KeyNotFound <==> (self.log_ids().len() > 0 && cmd@ is Remove
                && !self@.contains_key(key_of(cmd@)))),
            r matches Err(e) ==> e is KeyNotFound || e is IoErr,
    {
        if !self.has_logs {
            return Err(KvsError::IoErr(String::from_str("the store has no log file")));
        }
        if let Cmd::Remove { key } = &cmd {
            if !self.contains_key(key.as_str()) {
                return Err(KvsError::KeyNotFound);
            }
        }
        let rec = EncodedCmd::new(cmd);
        if self.active_end.checked_add(rec.len()).is_none() {
            return Err(KvsError::IoErr(String::from_str("the active log file is full")));
        }
        Ok(rec)
    }

    /// Takes note that `rec` has been appended to the active file, and compacts the log
    /// when the dead bytes reach [`COMPACT_THRESHOLD`]. A compaction comes back as the
    /// plan that the caller carries out on the files.
    pub fn commit(&mut self, rec: &EncodedCmd) -> (r: Option<CompactionPlan>)
        requires
            old(self).wf(),
            old(self).log_ids().len() > 0,
            old(self).active_len() + rec.bytes_spec().len() <= u64::MAX,
            rec.cmd_spec() is Remove ==> old(self)@.contains_key(key_of(rec.cmd_spec())),
        ensures
            final(self).wf(),
            final(self)@ == apply_cmd(old(self)@, rec.cmd_spec()),
            ({
                let len = rec.bytes_spec().len() as u64;
                let dir1 = dir_after(
                    old(self).dir(),
                    rec.cmd_spec(),
                    old(self).active_id(),
                    old(self).active_len(),
                    len,
                );
                let dead1 = dead_after(old(self).dir(), old(self).dead_bytes(), rec.cmd_spec(), len);
                &&& dead1 < COMPACT_THRESHOLD ==> r is None
                &&& final(self).dead_bytes() < COMPACT_THRESHOLD || old(self).active_id() > u64::MAX
                    - 2 || !live_fits(dir1)
                &&& dead1 >= COMPACT_THRESHOLD && old(self).active_id() <= u64::MAX - 2 && live_fits(
                    dir1,
                ) ==> r is Some
                &&& r is None ==> {
                    &&& final(self).dir() == dir1
                    &&& final(self).dead_bytes() == dead1
                    &&& final(self).active_id() == old(self).active_id()
                    &&& final(self).active_len() == old(self).active_len() + len
                    &&& final(self).log_ids() == old(self).log_ids()
                    &&& final(self).checkpoint() == old(self).checkpoint()
                }
                &&& r matches Some(plan) ==> {
                    &&& plan.compact_id == old(self).active_id() + 1
                    &&& plan.active_id == old(self).active_id() + 2
                    &&& final(self).active_id() == plan.active_id
                    &&& final(self).active_len() == 0
                    &&& final(self).dead_bytes() == 0
                    &&& final(self).checkpoint() == plan.compact_id
                    &&& final(self).log_ids() == seq![plan.compact_id, plan.active_id]
                    &&& final(self).log_bytes(plan.active_id).len() == 0
                    &&& final(self).log_bytes(plan.compact_id) == spans_in(
                        old(self).log_records().insert(
                            old(self).active_id(),
                            old(self).log_records()[old(self).active_id()].push(
                                (rec.bytes_spec(), rec.cmd_spec()),
                            ),
                        ),
                        plan.copies@,
                    )
                    &&& final(self).all_live()
                    &&& final(self).dir().dom() == dir1.dom()
                    &&& forall|k: Seq<char>| #[trigger]
                        final(self).dir().contains_key(k) ==> final(self).dir()[k].file_id
                            == plan.compact_id && final(self).dir()[k].len == dir1[k].len
                }
            }),
    {
        proof {
            use_type_invariant(rec);
        }
        let len = rec.len();
        self.note_record(&rec.cmd, len, Ghost(rec.bytes@));
        if self.uncompact >= COMPACT_THRESHOLD {
            self.compact()
        } else {
            None
        }
    }

    /// Reads log file `file_id`, whose bytes are `bytes`, into the key directory. The
    /// files of a store are read in ascending id order, and the last one read becomes
    /// the active file. Bytes that are not a whole number of records are refused, and
    /// the state is left as it was.
    #[verifier::rlimit(100)]
    #[verifier::spinoff_prover]
    pub fn load_log(&mut self, file_id: u64, bytes: &[u8]) -> (r: Result<(), KvsError>)
        requires
            old(self).wf(),
            old(self).log_ids().len() == 0 || file_id > old(self).active_id(),
            bytes@.len() <= u64::MAX,
        ensures
            r is Err <==> parse_from(bytes@, 0) is None,
            r is Err ==> *final(self) == *old(self) && r matches Err(KvsError::SerdeErr(_)),
            r is Ok ==> {
                let recs = parse_from(bytes@, 0)->Some_0;
                &&& final(self).wf()
                &&& final(self)@ == apply_all(old(self)@, first_of(recs))
                &&& (final(self).dir(), final(self).dead_bytes()) == load_spec(
                    old(self).dir(),
                    old(self).dead_bytes(),
                    file_id,
                    recs,
                )
                &&& final(self).log_ids() == old(self).log_ids().push(file_id)
                &&& final(self).active_id() == file_id
                &&& final(self).active_len() == bytes@.len()
                &&& final(self).log_bytes(file_id) == bytes@
                &&& final(self).checkpoint() == old(self).checkpoint()
            },
    {
        let recs = match decode_all(bytes) {
            Some(v) => v,
            None => {
                return Err(
                    KvsError::SerdeErr(
                        String::from_str("a log file holds an incomplete or invalid record"),
                    ),
                );
            },
        };
        let ghost rv = recs_view(recs@);
        let ghost old_self = *self;
        self.current_file_id = file_id;
        self.active_end = 0;
        self.has_logs = true;
        proof {
            assert(!old_self.ids@.contains(file_id)) by {
                if old_self.ids@.contains(file_id) {
                    let t = choose|t: int| 0 <= t < old_self.ids@.len() && old_self.ids@[t] == file_id;
                    assert(old_self.ids@[t] <= old_self.ids@.last());
                }
            }
            lemma_all_cmds_new_file(self.logs@, self.ids@, file_id, Seq::empty());
            assert(all_cmds(self.logs@, self.ids@) + file_cmds(Seq::empty()) =~= all_cmds(self.logs@, self.ids@));
            self.ids@ = self.ids@.push(file_id);
            self.logs@ = self.logs@.insert(file_id, Seq::empty());
            assert forall|id: u64| #[trigger] self.logs@.contains_key(id) implies self.ids@.contains(
                id,
            ) by {
                if id != file_id {
                    assert(old_self.logs@.contains_key(id));
                    let t = choose|t: int| 0 <= t < old_self.ids@.len() && old_self.ids@[t] == id;
                    assert(self.ids@[t] == id);
                } else {
                    assert(self.ids@[self.ids@.len() - 1] == id);
                }
            }
            assert forall|k: Seq<char>| #[trigger] self.key_dir@.contains_key(k) implies self.points_at(
                k,
            ) by {
                assert(old_self.points_at(k));
                let fid = self.key_dir@[k].file_id;
                let t = choose|t: int| 0 <= t < old_self.ids@.len() && old_self.ids@[t] == fid;
                assert(fid != file_id);
            }
            assert(file_bytes(Seq::<(Seq<u8>, CmdModel)>::empty()) =~= bytes@.subrange(0, 0));
            assert(first_of(rv.take(0)) =~= Seq::<CmdModel>::empty());
            assert(rv.take(0) =~= Seq::<(CmdModel, nat)>::empty());
        }
        let mut i: usize = 0;
        while i < recs.len()
            invariant
                i <= recs@.len(),
                rv == recs_view(recs@),
                parse_from(bytes@, 0) == Some(rv),
                tiles(bytes@, recs@),
                bytes@.len() <= u64::MAX,
                self.wf(),
                self.log_ids().len() > 0,
                self.current_file_id == file_id,
                self.active_end == start_of(recs@, i as int),
                file_bytes(self.logs@[file_id]) == bytes@.subrange(0, start_of(recs@, i as int)),
                self.ids@ == old_self.ids@.push(file_id),
                self.check_point == old_self.check_point,
                self.values@ == apply_all(old_self.values@, first_of(rv.take(i as int))),
                (self.key_dir@, self.uncompact) == load_spec(
                    old_self.key_dir@,
                    old_self.uncompact,
                    file_id,
                    rv.take(i as int),
                ),
            decreases recs@.len() - i,
        {
            let (cmd, end) = &recs[i];
            let start = if i == 0 {
                0
            } else {
                recs[i - 1].1
            };
            let ghost chunk = bytes@.subrange(start as int, *end as int);
            proof {
                assert(start_of(recs@, i as int) == start);
                assert(recs@[i as int].1 == *end);
            }
            let ghost logs0 = self.logs@;
            self.note_record(cmd, (*end - start) as u64, Ghost(chunk));
            proof {
                lemma_file_bytes_push(logs0[file_id], (chunk, cmd@));
                assert(bytes@.subrange(0, start as int) + chunk =~= bytes@.subrange(0, *end as int));
                assert(rv.take(i + 1).drop_last() =~= rv.take(i as int));
                assert(first_of(rv.take(i + 1)).drop_last() =~= first_of(rv.take(i as int)));
                assert(rv[i as int] == (cmd@, *end as nat));
                if i > 0 {
                    assert(rv.take(i + 1)[i - 1] == rv[i - 1]);
                }
            }
            i = i + 1;
        }
        proof {
            assert(rv.take(rv.len() as int) =~= rv);
            if recs@.len() > 0 {
                assert(start_of(recs@, recs@.len() as int) == bytes@.len());
            }
            assert(bytes@.subrange(0, bytes@.len() as int) =~= bytes@);
        }
        Ok(())
    }

    /// Makes a fresh, empty log file the active one: its id is one more than the
    /// highest id so far, or 1 when there is none.
    pub fn start_new_log(&mut self) -> (r: Result<u64, KvsError>)
        requires
            old(self).wf(),
        ensures
            r is Err <==> old(self).log_ids().len() > 0 && old(self).active_id() == u64::MAX,
            r is Err ==> *final(self) == *old(self),
            r matches Ok(id) ==> {
                &&& id == (if old(self).log_ids().len() == 0 {
                    1
                } else {
                    old(self).active_id() + 1
                })
                &&& final(self).wf()
                &&& final(self)@ == old(self)@
                &&& final(self).dir() == old(self).dir()
                &&& final(self).dead_bytes() == old(self).dead_bytes()
                &&& final(self).log_ids() == old(self).log_ids().push(id)
                &&& final(self).active_id() == id
                &&& final(self).active_len() == 0
                &&& final(self).log_bytes(id).len() == 0
                &&& final(self).checkpoint() == old(self).checkpoint()
            },
    {
        if self.current_file_id == u64::MAX {
            return Err(KvsError::IoErr(String::from_str("no log file id is left")));
        }
        let id = self.current_file_id + 1;
        let ghost old_self = *self;
        self.current_file_id = id;
        self.active_end = 0;
        self.has_logs = true;
        proof {
            assert(!old_self.ids@.contains(id)) by {
                if old_self.ids@.contains(id) {
                    let t = choose|t: int| 0 <= t < old_self.ids@.len() && old_self.ids@[t] == id;
                    assert(old_self.ids@[t] <= old_self.ids@.last());
                }
            }
            lemma_all_cmds_new_file(self.logs@, self.ids@, id, Seq::empty());
            assert(all_cmds(self.logs@, self.ids@) + file_cmds(Seq::empty()) =~= all_cmds(self.logs@, self.ids@));
            self.ids@ = self.ids@.push(id);
            self.logs@ = self.logs@.insert(id, Seq::empty());
            assert(file_bytes(Seq::<(Seq<u8>, CmdModel)>::empty()) =~= Seq::<u8>::empty());
            assert forall|x: u64| #[trigger] self.logs@.contains_key(x) implies self.ids@.contains(x) by {
                if x != id {
                    assert(old_self.logs@.contains_key(x));
                    let t = choose|t: int| 0 <= t < old_self.ids@.len() && old_self.ids@[t] == x;
                    assert(self.ids@[t] == x);
                } else {
                    assert(self.ids@[self.ids@.len() - 1] == x);
                }
            }
            assert forall|k: Seq<char>| #[trigger] self.key_dir@.contains_key(k) implies self.points_at(
                k,
            ) by {
                assert(old_self.points_at(k));
                let fid = self.key_dir@[k].file_id;
                let t = choose|t: int| 0 <= t < old_self.ids@.len() && old_self.ids@[t] == fid;
                assert(fid != id);
            }
        }
        Ok(id)
    }

    /// Reopening preserves the store: reading its log files back in ascending id
    /// order into an empty store, as [`KvsCore::load_log`] does file by file, rebuilds
    /// exactly the live mapping.
    pub proof fn lemma_reopen(&self)
        requires
            self.wf(),
        ensures
            replay_logs(self.log_contents()) == Some(self@),
    {
        self.lemma_replay_prefix(self.ids@.len() as int);
        assert(self.log_contents().take(self.ids@.len() as int) =~= self.log_contents());
        assert(self.ids@.take(self.ids@.len() as int) =~= self.ids@);
    }

    proof fn lemma_replay_prefix(&self, t: int)
        requires
            self.wf(),
            0 <= t <= self.ids@.len(),
        ensures
            replay_logs(self.log_contents().take(t)) == Some(
                apply_all(Map::empty(), all_cmds(self.logs@, self.ids@.take(t))),
            ),
        decreases t,
    {
        let contents = self.log_contents();
        if t == 0 {
            assert(contents.take(0) =~= Seq::<Seq<u8>>::empty());
            assert(self.ids@.take(0) =~= Seq::<u64>::empty());
        } else {
            let u = t - 1;
            self.lemma_replay_prefix(u);
            let id = self.ids@[u];
            let cs = self.logs@[id];
            assert(self.logs@.contains_key(id));
            assert(contents.take(t).drop_last() =~= contents.take(u));
            assert(contents.take(t).last() == file_bytes(cs));
            assert(file_bytes(cs).skip(0) =~= file_bytes(cs));
            lemma_parse_file(file_bytes(cs), 0, cs);
            assert(self.ids@.take(t).drop_last() =~= self.ids@.take(u));
            assert(self.ids@.take(t).last() == id);
            lemma_apply_all_concat(
                Map::empty(),
                all_cmds(self.logs@, self.ids@.take(u)),
                file_cmds(cs),
            );
        }
    }

    /// The span that the directory points `k` at holds a `Put` of `k`'s value, in the
    /// log as the store wrote it.
    pub proof fn lemma_span_holds_value(&self, k: Seq<char>)
        requires
            self.wf(),
            self@.contains_key(k),
        ensures
            self.dir().contains_key(k),
            parse_cmd(self.span(self.dir()[k])) == Some(
                (CmdModel::Put { key: k, value: self@[k] }, self.dir()[k].len as nat),
            ),
            self.span(self.dir()[k]).len() == self.dir()[k].len,
            span_value(self.span(self.dir()[k])) == Some(self@[k]),
    {
        assert(self.key_dir@.contains_key(k));
        let p = self.key_dir@[k];
        let j = self.slots@[k];
        let cs = self.logs@[p.file_id];
        lemma_chunk_at(cs, j);
        assert(robust_cmd(cs[j].0, cs[j].1));
        assert(cs[j].0 + Seq::<u8>::empty() =~= cs[j].0);
    }
}

/// The value that a span read back from the log holds: `Some(v)` when the span is
/// exactly one `Put` record of value `v`.
pub open spec fn span_value(b: Seq<u8>) -> Option<Seq<char>> {
    match parse_cmd(b) {
        Some((CmdModel::Put { value, .. }, n)) => if n == b.len() {
            Some(value)
        } else {
            None
        },
        _ => None,
    }
}

/// The value in a span that the key directory pointed at, read back from the log.
/// A span that holds a `Remove` is an inconsistency (`CommandNotSupported`); one
/// that is not exactly one record cannot be read (`SerdeErr`).
pub fn read_value(span: &[u8]) -> (r: Result<String, KvsError>)
    ensures
        r is Ok <==> span_value(span@) is Some,
        r matches Ok(x) ==> span_value(span@) == Some(x@),
        r matches Err(e) ==> (e is CommandNotSupported <==> (parse_cmd(span@) matches Some(
            (CmdModel::Remove { .. }, n),
        ) && n == span@.len())),
        r matches Err(e) ==> e is CommandNotSupported || e is SerdeErr,
{
    assert(span@.skip(0) =~= span@);
    match decode_cmd(span, 0) {
        Some((Cmd::Put { value, .. }, end)) => {
            if end == span.len() {
                Ok(value)
            } else {
                Err(KvsError::SerdeErr(String::from_str("a record does not fill its span")))
            }
        },
        Some((Cmd::Remove { .. }, end)) => {
            if end == span.len() {
                Err(KvsError::CommandNotSupported)
            } else {
                Err(KvsError::SerdeErr(String::from_str("a record does not fill its span")))
            }
        },
        None => Err(KvsError::SerdeErr(String::from_str("a span holds no record"))),
    }
}

/// A `get` after `set(k, v)` finds `v`: once `commit` has taken the `Put` of `k` and
/// `v`, the key directory points `k` at a span of the log that reads back as `v`.
pub proof fn lemma_set_then_get(before: KvsCore, after: KvsCore, k: Seq<char>, v: Seq<char>)
    requires
        after.wf(),
        after@ == apply_cmd(before@, CmdModel::Put { key: k, value: v }),
    ensures
        after.dir().contains_key(k),
        span_value(after.span(after.dir()[k])) == Some(v),
{
    after.lemma_span_holds_value(k);
    reveal_wf_dom(after, k);
}

/// Records of other keys leave a key's value as it was, so a `get` keeps finding the
/// value of the last `set` of the key until the key is set again or removed.
pub proof fn lemma_other_keys_kept(
    before: KvsCore,
    after: KvsCore,
    c: CmdModel,
    k: Seq<char>,
)
    requires
        before.wf(),
        after.wf(),
        after@ == apply_cmd(before@, c),
        key_of(c) != k,
    ensures
        after@.contains_key(k) == before@.contains_key(k),
        before@.contains_key(k) ==> after@[k] == before@[k] && span_value(
            after.span(after.dir()[k]),
        ) == Some(before@[k]),
{
    if before@.contains_key(k) {
        after.lemma_span_holds_value(k);
        reveal_wf_dom(after, k);
    }
}

/// After `remove(k)`, a `get(k)` finds nothing and a second `remove(k)` is refused:
/// the key directory no longer holds `k`.
pub proof fn lemma_remove_then_get(before: KvsCore, after: KvsCore, k: Seq<char>)
    requires
        after.wf(),
        after@ == apply_cmd(before@, CmdModel::Remove { key: k }),
    ensures
        !after@.contains_key(k),
        !after.dir().contains_key(k),
{
    reveal_wf_dom(after, k);
}

proof fn reveal_wf_dom(c: KvsCore, k: Seq<char>)
    requires
        c.wf(),
    ensures
        c.dir().contains_key(k) == c@.contains_key(k),
{
}

/// Only the files named in `ids` count.
proof fn lemma_all_cmds_frame(
    a: Map<u64, Seq<(Seq<u8>, CmdModel)>>,
    b: Map<u64, Seq<(Seq<u8>, CmdModel)>>,
    ids: Seq<u64>,
)
    requires
        forall|i: int| 0 <= i < ids.len() ==> a[#[trigger] ids[i]] == b[ids[i]],
    ensures
        all_cmds(a, ids) == all_cmds(b, ids),
    decreases ids.len(),
{
    if ids.len() > 0 {
        let d = ids.drop_last();
        assert forall|i: int| 0 <= i < d.len() implies a[#[trigger] d[i]] == b[d[i]] by {
            assert(d[i] == ids[i]);
        }
        lemma_all_cmds_frame(a, b, d);
        assert(a[ids.last()] == b[ids[ids.len() - 1]]);
    }
}

/// A new file at the end adds its records at the end.
proof fn lemma_all_cmds_new_file(
    logs: Map<u64, Seq<(Seq<u8>, CmdModel)>>,
    ids: Seq<u64>,
    id: u64,
    cs: Seq<(Seq<u8>, CmdModel)>,
)
    requires
        !ids.contains(id),
    ensures
        all_cmds(logs.insert(id, cs), ids.push(id)) == all_cmds(logs, ids) + file_cmds(cs),
{
    assert(ids.push(id).drop_last() =~= ids);
    assert forall|i: int| 0 <= i < ids.len() implies logs.insert(id, cs)[#[trigger] ids[i]]
        == logs[ids[i]] by {
        assert(ids[i] != id);
    }
    lemma_all_cmds_frame(logs.insert(id, cs), logs, ids);
}

/// A record appended to the last file comes after all the others.
proof fn lemma_all_cmds_append(
    logs: Map<u64, Seq<(Seq<u8>, CmdModel)>>,
    ids: Seq<u64>,
    x: (Seq<u8>, CmdModel),
)
    requires
        ids.len() > 0,
        forall|i: int, j: int| 0 <= i < j < ids.len() ==> ids[i] < ids[j],
    ensures
        all_cmds(logs.insert(ids.last(), logs[ids.last()].push(x)), ids) == all_cmds(logs, ids).push(
            x.1,
        ),
{
    let cur = ids.last();
    let logs2 = logs.insert(cur, logs[cur].push(x));
    let d = ids.drop_last();
    assert forall|i: int| 0 <= i < d.len() implies logs2[#[trigger] d[i]] == logs[d[i]] by {
        assert(d[i] == ids[i]);
        assert(ids[i] < ids[ids.len() - 1]);
    }
    lemma_all_cmds_frame(logs2, logs, d);
    assert(file_cmds(logs[cur].push(x)) =~= file_cmds(logs[cur]).push(x.1));
    assert(all_cmds(logs, d) + file_cmds(logs[cur]).push(x.1) =~= (all_cmds(logs, d) + file_cmds(
        logs[cur],
    )).push(x.1));
}

proof fn lemma_apply_all_push(m: Map<Seq<char>, Seq<char>>, cs: Seq<CmdModel>, c: CmdModel)
    ensures
        apply_all(m, cs.push(c)) == apply_cmd(apply_all(m, cs), c),
{
    assert(cs.push(c).drop_last() =~= cs);
}

proof fn lemma_apply_all_concat(m: Map<Seq<char>, Seq<char>>, a: Seq<CmdModel>, b: Seq<CmdModel>)
    ensures
        apply_all(m, a + b) == apply_all(apply_all(m, a), b),
    decreases b.len(),
{
    if b.len() == 0 {
        assert(a + b =~= a);
    } else {
        lemma_apply_all_concat(m, a, b.drop_last());
        assert((a + b).drop_last() =~= a + b.drop_last());
        assert((a + b).last() == b.last());
    }
}

/// `Put`s of distinct keys, each with its value in `m`, rebuild `m` on those keys.
proof fn lemma_puts_prefix(
    m: Map<Seq<char>, Seq<char>>,
    ks: Seq<Seq<char>>,
    chunks: Seq<(Seq<u8>, CmdModel)>,
    t: int,
)
    requires
        0 <= t <= ks.len(),
        chunks.len() == ks.len(),
        ks.to_set() == m.dom(),
        forall|i: int|
            0 <= i < ks.len() ==> #[trigger] chunks[i].1 == (CmdModel::Put {
                key: ks[i],
                value: m[ks[i]],
            }),
    ensures
        apply_all(Map::empty(), file_cmds(chunks.take(t))) == m.restrict(ks.take(t).to_set()),
    decreases t,
{
    if t == 0 {
        assert(file_cmds(chunks.take(0)) =~= Seq::<CmdModel>::empty());
        assert(m.restrict(ks.take(0).to_set()) =~= Map::empty());
    } else {
        let u = t - 1;
        lemma_puts_prefix(m, ks, chunks, u);
        let c = chunks[u].1;
        assert(file_cmds(chunks.take(t)) =~= file_cmds(chunks.take(u)).push(c));
        lemma_apply_all_push(Map::empty(), file_cmds(chunks.take(u)), c);
        assert(ks.contains(ks[u]));
        assert(ks.to_set().contains(ks[u]));
        assert forall|k: Seq<char>| ks.take(t).to_set().contains(k) <==> (ks.take(u).to_set().contains(
            k,
        ) || k == ks[u]) by {
            if ks.take(t).to_set().contains(k) {
                let i = choose|i: int| 0 <= i < t && ks.take(t)[i] == k;
                if i < u {
                    assert(ks.take(u)[i] == k);
                }
            }
            if ks.take(u).to_set().contains(k) {
                let i = choose|i: int| 0 <= i < u && ks.take(u)[i] == k;
                assert(ks.take(t)[i] == k);
            }
            if k == ks[u] {
                assert(ks.take(t)[u] == k);
            }
        }
        assert(m.restrict(ks.take(u).to_set()).insert(ks[u], m[ks[u]]) =~= m.restrict(
            ks.take(t).to_set(),
        ));
    }
}

/// `Put`s of distinct keys, each with its value in `m`, rebuild `m` from nothing when
/// they cover its keys.
proof fn lemma_puts_rebuild(
    m: Map<Seq<char>, Seq<char>>,
    ks: Seq<Seq<char>>,
    chunks: Seq<(Seq<u8>, CmdModel)>,
)
    requires
        chunks.len() == ks.len(),
        ks.to_set() == m.dom(),
        forall|t: int|
            0 <= t < ks.len() ==> #[trigger] chunks[t].1 == (CmdModel::Put {
                key: ks[t],
                value: m[ks[t]],
            }),
    ensures
        apply_all(Map::empty(), file_cmds(chunks)) == m,
{
    lemma_puts_prefix(m, ks, chunks, ks.len() as int);
    assert(chunks.take(ks.len() as int) =~= chunks);
    assert(ks.take(ks.len() as int) =~= ks);
    assert(m.restrict(ks.to_set()) =~= m);
}

/// A file's bytes are its first record's bytes, then the rest.
proof fn lemma_file_bytes_front(cs: Seq<(Seq<u8>, CmdModel)>)
    requires
        cs.len() > 0,
    ensures
        file_bytes(cs) == cs[0].0 + file_bytes(cs.drop_first()),
    decreases cs.len(),
{
    if cs.len() == 1 {
        assert(cs.drop_last() =~= Seq::<(Seq<u8>, CmdModel)>::empty());
        assert(cs.drop_first() =~= Seq::<(Seq<u8>, CmdModel)>::empty());
        assert(file_bytes(cs) =~= cs[0].0 + file_bytes(cs.drop_first()));
    } else {
        lemma_file_bytes_front(cs.drop_last());
        assert(cs.drop_last().drop_first() =~= cs.drop_first().drop_last());
        assert(cs.drop_first().last() == cs.last());
        assert(file_bytes(cs.drop_first()) == file_bytes(cs.drop_first().drop_last())
            + cs.last().0);
        assert(file_bytes(cs) =~= cs[0].0 + file_bytes(cs.drop_first()));
    }
}

/// Bytes made of records that each read back as themselves parse back to those
/// records.
#[verifier::spinoff_prover]
#[verifier::rlimit(40)]
proof fn lemma_parse_file(b: Seq<u8>, p: int, cs: Seq<(Seq<u8>, CmdModel)>)
    requires
        0 <= p <= b.len(),
        b.skip(p) == file_bytes(cs),
        forall|j: int| 0 <= j < cs.len() ==> robust_cmd(#[trigger] cs[j].0, cs[j].1),
    ensures
        parse_from(b, p as nat) is Some,
        first_of(parse_from(b, p as nat)->Some_0) == file_cmds(cs),
    decreases cs.len(),
{
    if cs.len() == 0 {
        assert(b.skip(p).len() == 0);
        assert(first_of(Seq::<(CmdModel, nat)>::empty()) =~= file_cmds(cs));
    } else {
        let rest = cs.drop_first();
        lemma_file_bytes_front(cs);
        assert(robust_cmd(cs[0].0, cs[0].1));
        assert(parse_cmd(cs[0].0 + file_bytes(rest)) == Some((cs[0].1, cs[0].0.len())));
        let n0 = cs[0].0.len();
        assert(n0 > 0);
        assert(b.skip(p).len() == n0 + file_bytes(rest).len());
        assert(b.skip(p + n0) =~= b.skip(p).skip(n0 as int));
        assert((cs[0].0 + file_bytes(rest)).skip(n0 as int) =~= file_bytes(rest));
        assert(b.skip(p + n0) =~= file_bytes(rest));
        assert forall|j: int| 0 <= j < rest.len() implies robust_cmd(#[trigger] rest[j].0, rest[j].1) by {
            assert(rest[j] == cs[j + 1]);
        }
        lemma_parse_file(b, p + n0, rest);
        let tail = parse_from(b, (p + n0) as nat)->Some_0;
        assert(parse_from(b, p as nat) == Some(seq![(cs[0].1, (p + n0) as nat)] + tail));
        assert(first_of(seq![(cs[0].1, (p + n0) as nat)] + tail) =~= seq![cs[0].1] + first_of(tail));
        assert(file_cmds(cs) =~= seq![cs[0].1] + file_cmds(rest));
    }
}

proof fn lemma_file_bytes_push(cs: Seq<(Seq<u8>, CmdModel)>, x: (Seq<u8>, CmdModel))
    ensures
        file_bytes(cs.push(x)) == file_bytes(cs) + x.0,
{
    assert(cs.push(x).drop_last() =~= cs);
}

/// The `j`-th record's bytes lie at its offset in the file.
proof fn lemma_chunk_at(cs: Seq<(Seq<u8>, CmdModel)>, j: int)
    requires
        0 <= j < cs.len(),
    ensures
        chunk_offset(cs, j) + cs[j].0.len() <= file_bytes(cs).len(),
        file_bytes(cs).subrange(chunk_offset(cs, j) as int, (chunk_offset(cs, j) + cs[j].0.len()) as int)
            == cs[j].0,
    decreases cs.len(),
{
    if j == cs.len() - 1 {
        assert(cs.take(j) =~= cs.drop_last());
    } else {
        lemma_chunk_at(cs.drop_last(), j);
        assert(cs.drop_last().take(j) =~= cs.take(j));
        let a = file_bytes(cs.drop_last());
        assert(file_bytes(cs) == a + cs.last().0);
        assert(file_bytes(cs).subrange(chunk_offset(cs, j) as int, (chunk_offset(cs, j)
            + cs[j].0.len()) as int) =~= a.subrange(chunk_offset(cs, j) as int, (chunk_offset(cs, j)
            + cs[j].0.len()) as int));
    }
}

/// The state that compaction leaves is consistent, and every record in it is live.
#[verifier::spinoff_prover]
proof fn lemma_compacted(
    old_self: KvsCore,
    new: KvsCore,
    kv: Seq<Seq<char>>,
    chunks: Seq<(Seq<u8>, CmdModel)>,
    slots: Map<Seq<char>, int>,
    compact_id: u64,
    active_id: u64,
)
    requires
        old_self.wf(),
        compact_id == old_self.current_file_id + 1,
        active_id == compact_id + 1,
        new.current_file_id == active_id,
        new.active_end == 0,
        new.has_logs,
        new.values@ == old_self.values@,
        new.logs@ == Map::<u64, Seq<(Seq<u8>, CmdModel)>>::empty().insert(compact_id, chunks).insert(
            active_id,
            Seq::empty(),
        ),
        new.ids@ == seq![compact_id, active_id],
        new.slots@ == slots,
        kv.no_duplicates(),
        kv.to_set() == old_self.key_dir@.dom(),
        new.key_dir@.dom() == old_self.key_dir@.dom(),
        chunks.len() == kv.len(),
        forall|t: int|
            0 <= t < kv.len() ==> {
                &&& new.key_dir@[#[trigger] kv[t]].file_id == compact_id
                &&& new.key_dir@[kv[t]].kv_pos == chunk_offset(chunks, t)
                &&& new.key_dir@[kv[t]].len == old_self.key_dir@[kv[t]].len
                &&& chunks[t] == old_self.logs@[old_self.key_dir@[kv[t]].file_id][old_self.slots@[kv[t]]]
                &&& slots.contains_key(kv[t])
                &&& slots[kv[t]] == t
            },
        forall|k: Seq<char>| #[trigger] slots.contains_key(k) ==> kv.contains(k),
    ensures
        new.wf(),
        new.all_live(),
        forall|k: Seq<char>| #[trigger]
            new.key_dir@.contains_key(k) ==> new.key_dir@[k].file_id == compact_id
                && new.key_dir@[k].len == old_self.key_dir@[k].len,
{
    let old_dir = old_self.key_dir@;
    assert forall|t: int| 0 <= t < kv.len() implies #[trigger] chunks[t].1 == (CmdModel::Put {
        key: kv[t],
        value: new.values@[kv[t]],
    }) by {
        assert(kv.contains(kv[t]));
        assert(kv.to_set().contains(kv[t]));
        assert(old_self.points_at(kv[t]));
    }
    assert(kv.to_set() == new.values@.dom());
    lemma_puts_rebuild(new.values@, kv, chunks);
    assert(new.ids@.drop_last() =~= seq![compact_id]);
    assert(seq![compact_id].drop_last() =~= Seq::<u64>::empty());
    assert(file_cmds(Seq::<(Seq<u8>, CmdModel)>::empty()) =~= Seq::<CmdModel>::empty());
    assert(new.logs@[compact_id] == chunks);
    assert(new.logs@[active_id] == Seq::<(Seq<u8>, CmdModel)>::empty());
    assert(all_cmds(new.logs@, seq![compact_id]) == all_cmds(new.logs@, Seq::<u64>::empty())
        + file_cmds(chunks));
    assert(all_cmds(new.logs@, seq![compact_id]) =~= file_cmds(chunks));
    assert(all_cmds(new.logs@, new.ids@) == all_cmds(new.logs@, seq![compact_id]) + file_cmds(
        Seq::<(Seq<u8>, CmdModel)>::empty(),
    ));
    assert(all_cmds(new.logs@, new.ids@) =~= file_cmds(chunks));
            assert(file_bytes(Seq::<(Seq<u8>, CmdModel)>::empty()) =~= Seq::<u8>::empty());
        assert forall|k: Seq<char>| #[trigger] new.key_dir@.contains_key(k) implies exists|t: int| 0 <= t < kv.len() && kv[t] == k by {
            assert(kv.to_set().contains(k));
        }
        assert(slots.dom() =~= old_dir.dom()) by {
            assert forall|k: Seq<char>| slots.contains_key(k) <==> old_dir.contains_key(k) by {
                if old_dir.contains_key(k) {
                    assert(kv.to_set().contains(k));
                    let t = choose|t: int| 0 <= t < kv.len() && kv[t] == k;
                    assert(slots.contains_key(kv[t]));
                }
                if slots.contains_key(k) {
                    assert(kv.contains(k));
                    assert(kv.to_set().contains(k));
                }
            }
        }
        assert forall|k: Seq<char>| #[trigger] new.key_dir@.contains_key(k) implies new.points_at(k) by {
            let t = choose|t: int| 0 <= t < kv.len() && kv[t] == k;
            assert(old_dir.contains_key(kv[t]));
            assert(old_self.points_at(k));
            assert(chunks[t] == old_self.logs@[old_dir[kv[t]].file_id][old_self.slots@[kv[t]]]);
        }
        assert forall|id: u64, j: int| new.logs@.contains_key(id) && 0 <= j < new.logs@[id].len() implies robust_cmd(#[trigger] new.logs@[id][j].0, new.logs@[id][j].1) by {
            assert(id == compact_id);
            let k = kv[j];
            assert(chunks[j] == old_self.logs@[old_dir[kv[j]].file_id][old_self.slots@[kv[j]]]);
            assert(old_dir.contains_key(k));
            assert(old_self.points_at(k));
        }
        assert forall|id: u64| #[trigger] new.logs@.contains_key(id) implies new.ids@.contains(id) by {
            if id == compact_id {
                assert(new.ids@[0] == id);
            } else {
                assert(new.ids@[1] == id);
            }
        }
        assert forall|id: u64, j: int| new.logs@.contains_key(id) && 0 <= j < new.logs@[id].len() implies {
            let c = #[trigger] new.logs@[id][j].1;
            &&& c is Put
            &&& new.key_dir@.contains_key(key_of(c))
            &&& new.key_dir@[key_of(c)].file_id == id
            &&& new.key_dir@[key_of(c)].kv_pos == chunk_offset(new.logs@[id], j)
        } by {
            assert(id == compact_id);
            let k = kv[j];
            assert(chunks[j] == old_self.logs@[old_dir[kv[j]].file_id][old_self.slots@[kv[j]]]);
            assert(old_dir.contains_key(k));
            assert(old_self.points_at(k));
        }
        assert forall|k: Seq<char>| #[trigger] new.key_dir@.contains_key(k) implies new.key_dir@[k].file_id == compact_id && new.key_dir@[k].len == old_dir[k].len by {
            let t = choose|t: int| 0 <= t < kv.len() && kv[t] == k;
        }
    }

/// A prefix of the keys sums to no more than all of them.
proof fn lemma_sum_prefix(dir: Map<Seq<char>, CmdPos>, ks: Seq<Seq<char>>, i: int)
    requires
        0 <= i <= ks.len(),
    ensures
        sum_lens(dir, ks.take(i)) <= sum_lens(dir, ks.take(ks.len() as int)),
    decreases ks.len() - i,
{
    if i < ks.len() {
        lemma_sum_prefix(dir, ks, i + 1);
        assert(ks.take(i + 1).drop_last() =~= ks.take(i));
    }
}

/// Appending a record leaves the offsets of the earlier ones as they were.
proof fn lemma_offset_push(cs: Seq<(Seq<u8>, CmdModel)>, x: (Seq<u8>, CmdModel), j: int)
    requires
        0 <= j <= cs.len(),
    ensures
        chunk_offset(cs.push(x), j) == chunk_offset(cs, j),
{
    assert(cs.push(x).take(j) =~= cs.take(j));
}

} // verus!
