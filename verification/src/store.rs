//! The log-structured storage engine.
//!
//! A store is a list of segments (each a generation number plus its record
//! text) and an in-memory index mapping each live key to the extent of its
//! latest `Set` record.  The visible state is a map from keys to values;
//! every operation's contract is stated against that map.

use vstd::prelude::*;
use vstd::string::*;

use crate::codec::{
    dec_all, enc_cmd, lemma_dec_all_push, lemma_dec_cmd_bounds, lemma_dec_cmd_canon,
    lemma_dec_enc_cmd, decode_command, encode_command, str_to_chars, Command, CommandView,
};
use crate::error::KvsError;

verus! {

/// Compaction is triggered when reclaimable space exceeds this many
/// characters.
pub const COMPACTION_THRESHOLD: u64 = 1048576;

/// One log segment: a generation number and its full record text, with the
/// record sequence that text decodes to.
pub struct Segment {
    pub gen: u64,
    pub data: Vec<char>,
    pub cmds: Ghost<Seq<CommandView>>,
}

/// Locates the authoritative `Set` record for one key, with the value that
/// record carries.
pub struct IndexEntry {
    pub key: String,
    pub gen: u64,
    pub pos: usize,
    pub len: usize,
    pub value: Ghost<Seq<char>>,
}

/// The mapping an index stands for: each entry's key bound to its value,
/// later entries winning.
pub open spec fn index_map(es: Seq<IndexEntry>) -> Map<Seq<char>, Seq<char>>
    decreases es.len(),
{
    if es.len() == 0 {
        Map::empty()
    } else {
        index_map(es.drop_last()).insert(es.last().key@, es.last().value@)
    }
}

/// All records of a segment list, in log order.
pub open spec fn seg_cmds(segs: Seq<Segment>) -> Seq<CommandView>
    decreases segs.len(),
{
    if segs.len() == 0 {
        Seq::empty()
    } else {
        seg_cmds(segs.drop_last()) + segs.last().cmds@
    }
}

/// The effect of one command on the visible mapping.
pub open spec fn apply_cmd(m: Map<Seq<char>, Seq<char>>, c: CommandView) -> Map<
    Seq<char>,
    Seq<char>,
> {
    match c {
        CommandView::Put { key, value } => m.insert(key, value),
        CommandView::Remove { key } => m.remove(key),
    }
}

/// The visible mapping after replaying a command history from nothing.
pub open spec fn replay(cs: Seq<CommandView>) -> Map<Seq<char>, Seq<char>>
    decreases cs.len(),
{
    if cs.len() == 0 {
        Map::empty()
    } else {
        apply_cmd(replay(cs.drop_last()), cs.last())
    }
}

/// Total characters held by all segments.
pub open spec fn total_len(segs: Seq<Segment>) -> int
    decreases segs.len(),
{
    if segs.len() == 0 {
        0
    } else {
        total_len(segs.drop_last()) + segs.last().data@.len()
    }
}

/// Total characters of the records the index points to.
pub open spec fn live_len(es: Seq<IndexEntry>) -> int
    decreases es.len(),
{
    if es.len() == 0 {
        0
    } else {
        live_len(es.drop_last()) + es.last().len
    }
}

/// `x` clamped to the range of `u64`.
pub open spec fn sat64(x: int) -> int {
    if x > u64::MAX {
        u64::MAX as int
    } else {
        x
    }
}

/// Generation numbers strictly increase along the segment list.
pub open spec fn gens_sorted(segs: Seq<Segment>) -> bool {
    forall|i: int, j: int| 0 <= i < j < segs.len() ==> segs[i].gen < segs[j].gen
}

/// Every segment's text decodes to its recorded command sequence.
pub open spec fn segs_decode(segs: Seq<Segment>) -> bool {
    forall|i: int|
        0 <= i < segs.len() ==> dec_all(#[trigger] segs[i].data@, 0) == Some(segs[i].cmds@)
}

/// Some segment carries generation `gen`.
pub open spec fn has_gen(segs: Seq<Segment>, gen: u64) -> bool {
    exists|i: int| 0 <= i < segs.len() && segs[i].gen == gen
}

/// The position of the segment carrying generation `gen`.
pub open spec fn gen_idx(segs: Seq<Segment>, gen: u64) -> int {
    choose|i: int| 0 <= i < segs.len() && segs[i].gen == gen
}

/// An index entry points into an existing segment, at an extent holding
/// exactly the encoding of `Set` of its key and value.
pub open spec fn entry_ok(segs: Seq<Segment>, e: IndexEntry) -> bool {
    &&& has_gen(segs, e.gen)
    &&& e.pos + e.len <= segs[gen_idx(segs, e.gen)].data@.len()
    &&& segs[gen_idx(segs, e.gen)].data@.subrange(e.pos as int, e.pos + e.len) == enc_cmd(
        CommandView::Put { key: e.key@, value: e.value@ },
    )
}

/// No two index entries share a key.
pub open spec fn keys_unique(es: Seq<IndexEntry>) -> bool {
    forall|i: int, j: int| 0 <= i < j < es.len() ==> es[i].key@ != es[j].key@
}

/// With sorted generations, the segment found at `i` is the one
/// `gen_idx` names.
proof fn lemma_gen_unique(segs: Seq<Segment>, i: int, gen: u64)
    requires
        gens_sorted(segs),
        0 <= i < segs.len(),
        segs[i].gen == gen,
    ensures
        has_gen(segs, gen),
        gen_idx(segs, gen) == i,
{
    assert(has_gen(segs, gen));
    let j = gen_idx(segs, gen);
    assert(0 <= j < segs.len() && segs[j].gen == gen);
    if i < j {
        assert(segs[i].gen < segs[j].gen);
    } else if j < i {
        assert(segs[j].gen < segs[i].gen);
    }
}

/// A key matching no entry is absent from the index mapping.
proof fn lemma_index_map_absent(es: Seq<IndexEntry>, k: Seq<char>)
    requires
        forall|i: int| 0 <= i < es.len() ==> (#[trigger] es[i]).key@ != k,
    ensures
        !index_map(es).contains_key(k),
    decreases es.len(),
{
    if es.len() > 0 {
        assert(forall|i: int|
            0 <= i < es.drop_last().len() ==> (#[trigger] es.drop_last()[i]).key@ != k);
        lemma_index_map_absent(es.drop_last(), k);
    }
}

/// With unique keys, entry `i` gives the index mapping's binding for its
/// key.
proof fn lemma_index_map_present(es: Seq<IndexEntry>, i: int)
    requires
        keys_unique(es),
        0 <= i < es.len(),
    ensures
        index_map(es).contains_key(es[i].key@),
        index_map(es)[es[i].key@] == es[i].value@,
    decreases es.len(),
{
    if i < es.len() - 1 {
        assert(keys_unique(es.drop_last())) by {
            assert(forall|a: int, b: int|
                0 <= a < b < es.drop_last().len() ==> es.drop_last()[a] == es[a]
                    && es.drop_last()[b] == es[b]);
        }
        lemma_index_map_present(es.drop_last(), i);
        assert(es.last().key@ != es[i].key@);
    }
}

/// Removing entry `i` removes exactly its key from the index mapping.
proof fn lemma_index_map_remove(es: Seq<IndexEntry>, i: int)
    requires
        keys_unique(es),
        0 <= i < es.len(),
    ensures
        index_map(es.remove(i)) == index_map(es).remove(es[i].key@),
        live_len(es.remove(i)) == live_len(es) - es[i].len,
    decreases es.len(),
{
    let k = es[i].key@;
    if i == es.len() - 1 {
        assert(es.remove(i) =~= es.drop_last());
        assert(forall|a: int| 0 <= a < es.drop_last().len() ==> (#[trigger] es.drop_last()[a])
            == es[a]);
        lemma_index_map_absent(es.drop_last(), k);
        assert(index_map(es.drop_last()).insert(k, es[i].value@).remove(k) =~= index_map(
            es.drop_last(),
        ));
    } else {
        assert(keys_unique(es.drop_last())) by {
            assert(forall|a: int, b: int|
                0 <= a < b < es.drop_last().len() ==> es.drop_last()[a] == es[a]
                    && es.drop_last()[b] == es[b]);
        }
        lemma_index_map_remove(es.drop_last(), i);
        assert(es.remove(i).drop_last() =~= es.drop_last().remove(i));
        assert(es.remove(i).last() == es.last());
        let lk = es.last().key@;
        let lv = es.last().value@;
        assert(lk != k);
        assert(index_map(es.drop_last()).remove(k).insert(lk, lv) =~= index_map(
            es.drop_last(),
        ).insert(lk, lv).remove(k));
    }
}

/// Finds the segment carrying generation `gen`.
fn find_seg(segs: &Vec<Segment>, gen: u64) -> (r: usize)
    requires
        has_gen(segs@, gen),
    ensures
        r < segs@.len(),
        segs@[r as int].gen == gen,
{
    let n = segs.len();
    let mut i: usize = 0;
    while i < n
        invariant
            n == segs@.len(),
            i <= n,
            forall|j: int| 0 <= j < i ==> segs@[j].gen != gen,
        decreases n - i,
    {
        if segs[i].gen == gen {
            return i;
        }
        i = i + 1;
    }
    proof {
        let w = choose|w: int| 0 <= w < segs@.len() && segs@[w].gen == gen;
        assert(segs@[w].gen != gen);
    }
    0
}

/// Finds the index entry for `key`, if any.
fn find_entry(es: &Vec<IndexEntry>, key: &String) -> (r: Option<usize>)
    ensures
        match r {
            Some(i) => i < es@.len() && es@[i as int].key@ == key@,
            None => forall|i: int| 0 <= i < es@.len() ==> (#[trigger] es@[i]).key@ != key@,
        },
{
    let n = es.len();
    let mut i: usize = 0;
    while i < n
        invariant
            n == es@.len(),
            i <= n,
            forall|j: int| 0 <= j < i ==> (#[trigger] es@[j]).key@ != key@,
        decreases n - i,
    {
        if es[i].key.eq(key) {
            return Some(i);
        }
        i = i + 1;
    }
    None
}

/// Adds `b` to `a`, clamping at the top of `u64`.
fn sat_add_u64(a: u64, b: u64) -> (r: u64)
    ensures
        r as int == sat64(a as int + b as int),
{
    if a > u64::MAX - b {
        u64::MAX
    } else {
        a + b
    }
}


/// The log-structured key/value store.
pub struct KvStore {
    segs: Vec<Segment>,
    index: Vec<IndexEntry>,
    uncompacted: u64,
}

impl View for KvStore {
    type V = Map<Seq<char>, Seq<char>>;

    /// The visible state: the mapping from live keys to their values.
    closed spec fn view(&self) -> Map<Seq<char>, Seq<char>> {
        index_map(self.index@)
    }
}

impl KvStore {
    /// The store's segments.
    pub closed spec fn spec_segs(&self) -> Seq<Segment> {
        self.segs@
    }

    /// The store's index entries.
    pub closed spec fn spec_index(&self) -> Seq<IndexEntry> {
        self.index@
    }

    /// The store's reclaimable-space counter.
    pub closed spec fn spec_uncompacted(&self) -> u64 {
        self.uncompacted
    }

    /// The generation receiving writes.
    pub closed spec fn spec_current_gen(&self) -> u64 {
        self.segs@.last().gen
    }

    /// Well-formedness: sorted generations, decodable segments, a unique-key
    /// index whose entries point at `Set` records, a visible state equal to
    /// the replay of the whole log, and an exact reclaimable-space count.
    pub closed spec fn wf(&self) -> bool {
        &&& self.segs@.len() >= 1
        &&& gens_sorted(self.segs@)
        &&& segs_decode(self.segs@)
        &&& keys_unique(self.index@)
        &&& (forall|i: int|
            0 <= i < self.index@.len() ==> entry_ok(self.segs@, #[trigger] self.index@[i]))
        &&& replay(seg_cmds(self.segs@)) == index_map(self.index@)
        &&& self.uncompacted as int == sat64(total_len(self.segs@) - live_len(self.index@))
    }
}

/// Appends one record to the active (last) segment.
fn append_to_log(segs: &mut Vec<Segment>, cmd: &Command) -> (r: (usize, usize))
    requires
        old(segs)@.len() >= 1,
        segs_decode(old(segs)@),
    ensures
        final(segs)@.len() == old(segs)@.len(),
        forall|i: int| 0 <= i < old(segs)@.len() - 1 ==> final(segs)@[i] == old(segs)@[i],
        final(segs)@.last().gen == old(segs)@.last().gen,
        final(segs)@.last().data@ == old(segs)@.last().data@ + enc_cmd(cmd@),
        final(segs)@.last().cmds@ == old(segs)@.last().cmds@.push(cmd@),
        segs_decode(final(segs)@),
        gens_sorted(old(segs)@) ==> gens_sorted(final(segs)@),
        r.0 == old(segs)@.last().data@.len(),
        r.1 == enc_cmd(cmd@).len(),
        r.0 + r.1 == final(segs)@.last().data@.len(),
        final(segs)@.last().data@.subrange(r.0 as int, r.0 + r.1) == enc_cmd(cmd@),
        seg_cmds(final(segs)@) == seg_cmds(old(segs)@).push(cmd@),
        total_len(final(segs)@) == total_len(old(segs)@) + r.1,
{
    let ghost old_segs = segs@;
    let ghost old_data = segs@.last().data@;
    let ghost old_cmds = segs@.last().cmds@;
    let mut seg = segs.pop().unwrap();
    let pos = seg.data.len();
    encode_command(&mut seg.data, cmd);
    let len = seg.data.len() - pos;
    proof {
        assert(old_segs[old_segs.len() - 1] == old_segs.last());
        assert(dec_all(old_data, 0) == Some(old_cmds));
        lemma_dec_all_push(old_data, 0, cmd@);
        assert((old_data + enc_cmd(cmd@)).subrange(
            old_data.len() as int,
            old_data.len() + enc_cmd(cmd@).len() as int,
        ) =~= enc_cmd(cmd@));
    }
    seg.cmds = Ghost(seg.cmds@.push(cmd@));
    segs.push(seg);
    proof {
        assert(final(segs)@.drop_last() =~= old_segs.drop_last());
        assert(segs_decode(final(segs)@)) by {
            assert(forall|i: int|
                0 <= i < final(segs)@.len() - 1 ==> final(segs)@[i] == old_segs[i]);
        }
        if gens_sorted(old_segs) {
            assert(forall|i: int|
                0 <= i < final(segs)@.len() ==> final(segs)@[i].gen == old_segs[i].gen);
        }
        assert(seg_cmds(final(segs)@) =~= seg_cmds(old_segs).push(cmd@));
    }
    (pos, len)
}

/// Binds `e.key` to `e` in the index, dropping any previous entry for the
/// key, and reports that entry's record length (0 when the key was new).
fn index_upsert(es: &mut Vec<IndexEntry>, e: IndexEntry) -> (old_len: usize)
    requires
        keys_unique(old(es)@),
    ensures
        keys_unique(final(es)@),
        index_map(final(es)@) == index_map(old(es)@).insert(e.key@, e.value@),
        live_len(final(es)@) == live_len(old(es)@) + e.len - old_len,
        forall|i: int|
            0 <= i < final(es)@.len() ==> final(es)@[i] == e || old(es)@.contains(
                #[trigger] final(es)@[i],
            ),
{
    let ghost old_es = es@;
    let ghost k = e.key@;
    let ghost v = e.value@;
    let ghost el = e.len;
    let found = find_entry(es, &e.key);
    match found {
        Some(i) => {
            let old_len = es[i].len;
            proof {
                lemma_index_map_remove(old_es, i as int);
            }
            let _removed = es.remove(i);
            let ghost mid = es@;
            proof {
                assert(mid == old_es.remove(i as int));
                assert(keys_unique(es@)) by {
                    assert(forall|a: int, b: int|
                        0 <= a < b < es@.len() ==> (#[trigger] es@[a], #[trigger] es@[b])
                            == if b < i { (old_es[a], old_es[b]) } else if a < i {
                            (old_es[a], old_es[b + 1])
                        } else {
                            (old_es[a + 1], old_es[b + 1])
                        });
                }
                assert(forall|a: int|
                    0 <= a < es@.len() ==> (#[trigger] es@[a]).key@ != k && old_es.contains(
                        es@[a],
                    )) by {
                    assert(forall|a: int|
                        0 <= a < es@.len() ==> #[trigger] es@[a] == if a < i {
                            old_es[a]
                        } else {
                            old_es[a + 1]
                        });
                }
            }
            es.push(e);
            proof {
                assert(es@.drop_last() =~= mid);
                assert(index_map(es@) == index_map(es@.drop_last()).insert(k, v)) by {
                    assert(es@.last() == e);
                }
                assert(live_len(es@) == live_len(mid) + el);
                assert(index_map(old_es).remove(k).insert(k, v) =~= index_map(old_es).insert(
                    k,
                    v,
                ));
                assert(live_len(es@) == live_len(es@.drop_last()) + el);
            }
            old_len
        },
        None => {
            es.push(e);
            proof {
                assert(es@.drop_last() =~= old_es);
                assert(es@.last() == e);
                assert(keys_unique(es@)) by {
                    assert(forall|a: int| 0 <= a < old_es.len() ==> old_es[a] == es@[a]);
                }
            }
            0
        },
    }
}


/// Replaying one more command applies it to the replayed state.
proof fn lemma_replay_push(cs: Seq<CommandView>, c: CommandView)
    ensures
        replay(cs.push(c)) == apply_cmd(replay(cs), c),
{
    assert(cs.push(c).drop_last() =~= cs);
}

/// An element of a list of valid entries is itself valid.
proof fn lemma_entry_from_contains(es: Seq<IndexEntry>, segs: Seq<Segment>, e: IndexEntry)
    requires
        es.contains(e),
        forall|i: int| 0 <= i < es.len() ==> entry_ok(segs, #[trigger] es[i]),
    ensures
        entry_ok(segs, e),
{
    let j = choose|j: int| 0 <= j < es.len() && es[j] == e;
    assert(entry_ok(segs, es[j]));
}

/// Extending the active segment's text preserves the validity of an
/// existing entry.
proof fn lemma_entry_ok_after_append(
    old_segs: Seq<Segment>,
    new_segs: Seq<Segment>,
    e: IndexEntry,
    ext: Seq<char>,
)
    requires
        gens_sorted(old_segs),
        old_segs.len() >= 1,
        new_segs.len() == old_segs.len(),
        forall|i: int| 0 <= i < old_segs.len() - 1 ==> new_segs[i] == old_segs[i],
        new_segs.last().gen == old_segs.last().gen,
        new_segs.last().data@ == old_segs.last().data@ + ext,
        entry_ok(old_segs, e),
    ensures
        entry_ok(new_segs, e),
{
    let g0 = gen_idx(old_segs, e.gen);
    assert(0 <= g0 < old_segs.len() && old_segs[g0].gen == e.gen);
    assert(gens_sorted(new_segs)) by {
        assert(forall|i: int| 0 <= i < new_segs.len() ==> (#[trigger] new_segs[i]).gen
            == old_segs[i].gen);
    }
    assert(new_segs[g0].gen == e.gen);
    lemma_gen_unique(new_segs, g0, e.gen);
    if g0 == old_segs.len() - 1 {
        let d = old_segs.last().data@;
        assert(old_segs[g0] == old_segs.last());
        assert(new_segs[g0] == new_segs.last());
        assert(new_segs.last().data@.subrange(e.pos as int, e.pos + e.len) =~= d.subrange(
            e.pos as int,
            e.pos + e.len,
        ));
    }
}

impl KvStore {
    /// Gets the value of `key`; `None` means the key is absent.
    pub fn get(&self, key: String) -> (r: Result<Option<String>, KvsError>)
        requires
            self.wf(),
        ensures
            r is Ok,
            r matches Ok(v) ==> match v {
                Some(s) => self@.contains_key(key@) && s@ == self@[key@],
                None => !self@.contains_key(key@),
            },
    {
        let found = find_entry(&self.index, &key);
        match found {
            None => {
                proof {
                    lemma_index_map_absent(self.index@, key@);
                }
                Ok(None)
            },
            Some(i) => {
                proof {
                    lemma_index_map_present(self.index@, i as int);
                }
                let ent_gen = self.index[i].gen;
                let ent_pos = self.index[i].pos;
                let ghost ev = self.index@[i as int];
                let ghost c = CommandView::Put { key: ev.key@, value: ev.value@ };
                let si = find_seg(&self.segs, ent_gen);
                proof {
                    assert(entry_ok(self.segs@, ev));
                    lemma_gen_unique(self.segs@, si as int, ent_gen);
                    lemma_dec_enc_cmd(self.segs@[si as int].data@, ent_pos as int, c);
                }
                let decoded = decode_command(&self.segs[si].data, ent_pos);
                match decoded {
                    Some((cmd, _end)) => match cmd {
                        Command::Put { key: _dk, value } => Ok(Some(value)),
                        // Well-formedness pins this extent to a `Set`
                        // record, so these two arms cannot be reached.
                        Command::Remove { key: _dk } => {
                            proof {
                                assert(false);
                            }
                            Err(KvsError::UnexpectedCommandType)
                        },
                    },
                    None => {
                        proof {
                            assert(false);
                        }
                        Err(KvsError::Serde(String::from_str("corrupt record")))
                    },
                }
            },
        }
    }

    /// Rewrites every live value into a fresh segment and drops all older
    /// segments, reclaiming all superseded space.
    pub fn compact(&mut self) -> (r: Result<(), KvsError>)
        requires
            old(self).wf(),
            old(self).spec_current_gen() <= u64::MAX - 2,
        ensures
            final(self).wf(),
            r is Ok,
            final(self)@ == old(self)@,
            final(self).spec_uncompacted() == 0,
            final(self).spec_current_gen() == old(self).spec_current_gen() + 2,
            total_len(final(self).spec_segs()) == live_len(final(self).spec_index()),
            live_len(final(self).spec_index()) == live_len(old(self).spec_index()),
    {
        let cur = self.segs[self.segs.len() - 1].gen;
        let cgen = cur + 1;
        let ngen = cur + 2;
        let n = self.index.len();
        let mut new_data: Vec<char> = Vec::new();
        let mut new_index: Vec<IndexEntry> = Vec::new();
        let ghost mut new_cmds: Seq<CommandView> = Seq::empty();
        let mut i: usize = 0;
        while i < n
            invariant
                self == old(self),
                old(self).wf(),
                n == self.index@.len(),
                i <= n,
                new_index@.len() == i,
                dec_all(new_data@, 0) == Some(new_cmds),
                replay(new_cmds) == index_map(new_index@),
                index_map(new_index@) == index_map(self.index@.take(i as int)),
                live_len(new_index@) == live_len(self.index@.take(i as int)),
                new_data@.len() == live_len(new_index@),
                forall|j: int|
                    0 <= j < i ==> {
                        let ne = #[trigger] new_index@[j];
                        &&& ne.gen == cgen
                        &&& ne.pos + ne.len <= new_data@.len()
                        &&& new_data@.subrange(ne.pos as int, ne.pos + ne.len) == enc_cmd(
                            CommandView::Put { key: ne.key@, value: ne.value@ },
                        )
                        &&& ne.key@ == self.index@[j].key@
                        &&& ne.value@ == self.index@[j].value@
                        &&& ne.len == self.index@[j].len
                    },
            decreases n - i,
        {
            let ent_gen = self.index[i].gen;
            let ent_pos = self.index[i].pos;
            let ent_len = self.index[i].len;
            let ghost ev = self.index@[i as int];
            let ghost c = CommandView::Put { key: ev.key@, value: ev.value@ };
            let ghost base0 = new_data@;
            let si = find_seg(&self.segs, ent_gen);
            proof {
                assert(entry_ok(self.segs@, ev));
                lemma_gen_unique(self.segs@, si as int, ent_gen);
            }
            let dlen = self.segs[si].data.len();
            proof {
                assert(ent_pos + ent_len <= dlen);
            }
            let pos0 = new_data.len();
            let end = ent_pos + ent_len;
            let mut kk = ent_pos;
            while kk < end
                invariant
                    self == old(self),
                    ent_pos <= kk <= end,
                    end == ent_pos + ent_len,
                    si < self.segs@.len(),
                    end <= self.segs@[si as int].data@.len(),
                    new_data@ == base0 + self.segs@[si as int].data@.subrange(
                        ent_pos as int,
                        kk as int,
                    ),
                decreases end - kk,
            {
                let ch = self.segs[si].data[kk];
                new_data.push(ch);
                proof {
                    let d = self.segs@[si as int].data@;
                    assert(base0 + d.subrange(ent_pos as int, kk as int) + seq![d[kk as int]]
                        =~= base0 + d.subrange(ent_pos as int, kk + 1));
                }
                kk = kk + 1;
            }
            proof {
                let d = self.segs@[si as int].data@;
                assert(d.subrange(ent_pos as int, end as int) == enc_cmd(c));
                assert(new_data@ == base0 + enc_cmd(c));
                assert(enc_cmd(c).len() == ent_len);
                lemma_dec_all_push(base0, 0, c);
                lemma_replay_push(new_cmds, c);
                assert(new_data@.subrange(pos0 as int, pos0 + ent_len) =~= enc_cmd(c));
            }
            let e = IndexEntry {
                key: self.index[i].key.clone(),
                gen: cgen,
                pos: pos0,
                len: ent_len,
                value: Ghost(ev.value@),
            };
            let ghost ni0 = new_index@;
            new_index.push(e);
            proof {
                let ghost cs0 = new_cmds;
                new_cmds = new_cmds.push(c);
                lemma_replay_push(cs0, c);
                assert(self.index@.take(i + 1).drop_last() =~= self.index@.take(i as int));
                assert(self.index@.take(i + 1).last() == self.index@[i as int]);
                assert(new_index@.last() == e);
                assert(new_index@.drop_last() =~= ni0);
                assert(forall|j: int|
                    0 <= j < i ==> #[trigger] new_index@[j] == new_index@.drop_last()[j]);
                assert(forall|j: int| 0 <= j < i ==> {
                    let ne = #[trigger] new_index@[j];
                    new_data@.subrange(ne.pos as int, ne.pos + ne.len) =~= base0.subrange(
                        ne.pos as int,
                        ne.pos + ne.len,
                    )
                });
            }
            i = i + 1;
        }
        proof {
            assert(self.index@.take(n as int) =~= self.index@);
        }
        let ghost old_segs = self.segs@;
        let mut segs2: Vec<Segment> = Vec::new();
        segs2.push(Segment { gen: cgen, data: new_data, cmds: Ghost(new_cmds) });
        let empty_data: Vec<char> = Vec::new();
        segs2.push(Segment { gen: ngen, data: empty_data, cmds: Ghost(Seq::empty()) });
        self.segs = segs2;
        self.index = new_index;
        self.uncompacted = 0;
        proof {
            let ss = self.segs@;
            assert(ss.len() == 2);
            assert(ss.drop_last() =~= seq![ss[0]]);
            assert(seg_cmds(seq![ss[0]]) =~= new_cmds) by {
                assert(seq![ss[0]].drop_last() =~= Seq::<Segment>::empty());
                assert(seq![ss[0]].last() == ss[0]);
                assert(seg_cmds(Seq::<Segment>::empty()) =~= Seq::<CommandView>::empty());
                assert(ss[0].cmds@ == new_cmds);
            }
            assert(seg_cmds(ss) =~= new_cmds) by {
                assert(ss.last().cmds@ =~= Seq::<CommandView>::empty());
            }
            assert(total_len(ss) == live_len(self.index@)) by {
                assert(total_len(seq![ss[0]]) == ss[0].data@.len()) by {
                    assert(seq![ss[0]].drop_last() =~= Seq::<Segment>::empty());
                    assert(total_len(Seq::<Segment>::empty()) == 0);
                }
                assert(ss.last().data@.len() == 0);
                assert(ss[0].data@.len() == live_len(self.index@));
            }
            assert(keys_unique(self.index@)) by {
                assert(forall|a: int, b: int|
                    0 <= a < b < self.index@.len() ==> self.index@[a].key@
                        == old(self).index@[a].key@ && self.index@[b].key@ == old(
                        self,
                    ).index@[b].key@);
            }
            assert forall|j: int| 0 <= j < self.index@.len() implies entry_ok(
                ss,
                #[trigger] self.index@[j],
            ) by {
                let ne = self.index@[j];
                assert(ne.gen == cgen);
                assert(ss[0].gen == cgen);
                lemma_gen_unique(ss, 0, cgen);
            }
        }
        Ok(())
    }
}


impl KvStore {
    /// Sets the value of `key` to `value`, overwriting any previous value.
    /// Compaction runs afterwards when reclaimable space passes the
    /// threshold, provided generation numbers still have room.
    pub fn set(&mut self, key: String, value: String) -> (r: Result<(), KvsError>)
        requires
            old(self).wf(),
        ensures
            final(self).wf(),
            r is Ok,
            final(self)@ == old(self)@.insert(key@, value@),
            final(self).spec_uncompacted() <= COMPACTION_THRESHOLD
                || final(self).spec_current_gen() > u64::MAX - 2,
    {
        let key_copy = key.clone();
        let ghost kk = key@;
        let ghost vv = value@;
        let cmd = Command::set(key, value);
        let ghost segs0 = self.segs@;
        let ghost idx0 = self.index@;
        let (pos, len) = append_to_log(&mut self.segs, &cmd);
        let last = self.segs.len() - 1;
        let gen = self.segs[last].gen;
        proof {
            lemma_gen_unique(self.segs@, last as int, gen);
        }
        let e = IndexEntry { key: key_copy, gen, pos, len, value: Ghost(vv) };
        proof {
            assert(entry_ok(self.segs@, e)) by {
                assert(self.segs@[last as int] == self.segs@.last());
            }
        }
        let ghost eg = e;
        let old_len = index_upsert(&mut self.index, e);
        self.uncompacted = sat_add_u64(self.uncompacted, old_len as u64);
        proof {
            lemma_replay_push(seg_cmds(segs0), cmd@);
            assert(index_map(self.index@) == index_map(idx0).insert(kk, vv));
            assert(replay(seg_cmds(self.segs@)) == index_map(self.index@));
            assert forall|ii: int| 0 <= ii < self.index@.len() implies entry_ok(
                self.segs@,
                #[trigger] self.index@[ii],
            ) by {
                let ne = self.index@[ii];
                if ne == eg {
                } else {
                    assert(idx0.contains(ne));
                    lemma_entry_from_contains(idx0, segs0, ne);
                    lemma_entry_ok_after_append(segs0, self.segs@, ne, enc_cmd(cmd@));
                }
            }
            let g0 = total_len(segs0) - live_len(idx0);
            assert(g0 >= 0);
            assert(total_len(self.segs@) - live_len(self.index@) == g0 + old_len);
            assert(self.uncompacted as int == sat64(g0 + old_len));
        }
        let g2 = self.segs[self.segs.len() - 1].gen;
        if self.uncompacted > COMPACTION_THRESHOLD && g2 <= u64::MAX - 2 {
            let _ = self.compact();
        }
        Ok(())
    }

    /// Removes `key`.  Removing an absent key fails with `KeyNotFound` and
    /// leaves the store unchanged.
    pub fn remove(&mut self, key: String) -> (r: Result<(), KvsError>)
        requires
            old(self).wf(),
        ensures
            final(self).wf(),
            r is Ok <==> old(self)@.contains_key(key@),
            r is Ok ==> final(self)@ == old(self)@.remove(key@),
            r is Err ==> *final(self) == *old(self) && r == Err::<(), KvsError>(
                KvsError::KeyNotFound,
            ),
    {
        let found = find_entry(&self.index, &key);
        match found {
            None => {
                proof {
                    lemma_index_map_absent(self.index@, key@);
                }
                Err(KvsError::KeyNotFound)
            },
            Some(i) => {
                proof {
                    lemma_index_map_present(self.index@, i as int);
                }
                let old_len = self.index[i].len;
                let ghost kk = key@;
                let cmd = Command::remove(key);
                let ghost segs0 = self.segs@;
                let ghost idx0 = self.index@;
                let (pos, len) = append_to_log(&mut self.segs, &cmd);
                proof {
                    lemma_index_map_remove(idx0, i as int);
                }
                let _removed = self.index.remove(i);
                self.uncompacted = sat_add_u64(self.uncompacted, old_len as u64);
                self.uncompacted = sat_add_u64(self.uncompacted, len as u64);
                proof {
                    lemma_replay_push(seg_cmds(segs0), cmd@);
                    assert(index_map(self.index@) == index_map(idx0).remove(kk));
                    assert(replay(seg_cmds(self.segs@)) == index_map(self.index@));
                    assert(keys_unique(self.index@)) by {
                        assert(forall|a: int, b: int|
                            0 <= a < b < self.index@.len()
                                ==> (#[trigger] self.index@[a], #[trigger] self.index@[b])
                                == if b < i { (idx0[a], idx0[b]) } else if a < i {
                                (idx0[a], idx0[b + 1])
                            } else {
                                (idx0[a + 1], idx0[b + 1])
                            });
                    }
                    assert forall|ii: int| 0 <= ii < self.index@.len() implies entry_ok(
                        self.segs@,
                        #[trigger] self.index@[ii],
                    ) by {
                        let ne = self.index@[ii];
                        assert(ne == if ii < i { idx0[ii] } else { idx0[ii + 1] });
                        assert(idx0.contains(ne));
                        lemma_entry_from_contains(idx0, segs0, ne);
                        lemma_entry_ok_after_append(segs0, self.segs@, ne, enc_cmd(cmd@));
                    }
                    let g0 = total_len(segs0) - live_len(idx0);
                    assert(g0 >= 0);
                    assert(total_len(self.segs@) - live_len(self.index@) == g0 + old_len + len);
                    assert(self.uncompacted as int == sat64(g0 + old_len + len));
                }
                Ok(())
            },
        }
    }
}


/// Whether every given segment text decodes as a record stream.
pub open spec fn streams_ok(segments: Seq<(u64, String)>) -> bool {
    forall|i: int| 0 <= i < segments.len() ==> dec_all((#[trigger] segments[i]).1@, 0) is Some
}

/// All records of the given segment texts, in order.
pub open spec fn streams_cmds(segments: Seq<(u64, String)>) -> Seq<CommandView>
    decreases segments.len(),
{
    if segments.len() == 0 {
        Seq::empty()
    } else {
        streams_cmds(segments.drop_last()) + (match dec_all(segments.last().1@, 0) {
            Some(cs) => cs,
            None => Seq::empty(),
        })
    }
}

/// The prefix `p` prepended to a stream-decode outcome.
pub open spec fn cmds_prepend(p: Seq<CommandView>, r: Option<Seq<CommandView>>) -> Option<
    Seq<CommandView>,
> {
    match r {
        Some(cs) => Some(p + cs),
        None => None,
    }
}

/// Entry validity only depends on segment generations and texts.
proof fn lemma_entry_ok_same_shape(s1: Seq<Segment>, s2: Seq<Segment>, e: IndexEntry)
    requires
        gens_sorted(s1),
        s2.len() == s1.len(),
        forall|i: int|
            0 <= i < s1.len() ==> (#[trigger] s2[i]).gen == s1[i].gen && s2[i].data@
                == s1[i].data@,
        entry_ok(s1, e),
    ensures
        entry_ok(s2, e),
{
    let g0 = gen_idx(s1, e.gen);
    assert(0 <= g0 < s1.len() && s1[g0].gen == e.gen);
    assert(gens_sorted(s2));
    lemma_gen_unique(s2, g0, e.gen);
}

/// Adding a fresh segment at the end preserves the validity of every
/// entry.
proof fn lemma_entry_ok_push_seg(segs: Seq<Segment>, e: IndexEntry, s_new: Segment)
    requires
        gens_sorted(segs.push(s_new)),
        entry_ok(segs, e),
    ensures
        entry_ok(segs.push(s_new), e),
{
    let g0 = gen_idx(segs, e.gen);
    assert(0 <= g0 < segs.len() && segs[g0].gen == e.gen);
    assert(segs.push(s_new)[g0] == segs[g0]);
    lemma_gen_unique(segs.push(s_new), g0, e.gen);
}

impl KvStore {
    /// Opens a store from the segment files found on disk: each pair is a
    /// generation number and that segment's text, in ascending generation
    /// order.  Replays every record to rebuild the index, then starts a
    /// fresh segment one generation past the highest.  Fails exactly when
    /// some segment's text does not decode.
    pub fn open(segments: Vec<(u64, String)>) -> (r: Result<KvStore, KvsError>)
        requires
            forall|i: int, j: int|
                0 <= i < j < segments@.len() ==> segments@[i].0 < segments@[j].0,
            segments@.len() > 0 ==> segments@.last().0 < u64::MAX,
        ensures
            r is Ok <==> streams_ok(segments@),
            r matches Ok(s) ==> {
                &&& s.wf()
                &&& s@ == replay(streams_cmds(segments@))
                &&& s.spec_segs().len() == segments@.len() + 1
                &&& (forall|i: int|
                    0 <= i < segments@.len() ==> (#[trigger] s.spec_segs()[i]).gen
                        == segments@[i].0 && s.spec_segs()[i].data@ == segments@[i].1@)
                &&& s.spec_segs().last().data@ == Seq::<char>::empty()
                &&& s.spec_current_gen() == if segments@.len() > 0 {
                    segments@.last().0 + 1
                } else {
                    1
                }
            },
            r matches Err(e) ==> e is Serde,
    {
        let ghost sv = segments@;
        let n = segments.len();
        let mut segs: Vec<Segment> = Vec::new();
        let mut index: Vec<IndexEntry> = Vec::new();
        let mut uncompacted: u64 = 0;
        let mut si: usize = 0;
        while si < n
            invariant
                n == sv.len(),
                segments@ == sv,
                forall|i: int, j: int| 0 <= i < j < sv.len() ==> sv[i].0 < sv[j].0,
                si <= n,
                segs@.len() == si,
                forall|i: int|
                    0 <= i < si ==> (#[trigger] segs@[i]).gen == sv[i].0 && segs@[i].data@
                        == sv[i].1@,
                segs_decode(segs@),
                gens_sorted(segs@),
                keys_unique(index@),
                forall|i: int| 0 <= i < index@.len() ==> entry_ok(segs@, #[trigger] index@[i]),
                replay(seg_cmds(segs@)) == index_map(index@),
                seg_cmds(segs@) == streams_cmds(sv.take(si as int)),
                forall|i: int| 0 <= i < si ==> dec_all((#[trigger] sv[i]).1@, 0) is Some,
                uncompacted as int == sat64(total_len(segs@) - live_len(index@)),
            decreases n - si,
        {
            let gen = segments[si].0;
            let data = str_to_chars(segments[si].1.as_str());
            let dn = data.len();
            let ghost vsegs = segs@.push(
                Segment { gen, data: data, cmds: Ghost(Seq::empty()) },
            );
            proof {
                assert(gens_sorted(vsegs)) by {
                    assert(forall|i: int| 0 <= i < si ==> (#[trigger] vsegs[i]).gen == sv[i].0);
                    assert(vsegs.last().gen == sv[si as int].0);
                    assert(forall|i: int| 0 <= i < si ==> sv[i].0 < sv[si as int].0);
                }
                assert forall|i: int| 0 <= i < index@.len() implies entry_ok(
                    vsegs,
                    #[trigger] index@[i],
                ) by {
                    lemma_entry_ok_push_seg(
                        segs@,
                        index@[i],
                        Segment { gen, data: data, cmds: Ghost(Seq::empty()) },
                    );
                }
                assert(dec_all(data@, 0) == cmds_prepend(
                    Seq::<CommandView>::empty(),
                    dec_all(data@, 0),
                )) by {
                    match dec_all(data@, 0) {
                        Some(cs) => {
                            assert(Seq::<CommandView>::empty() + cs =~= cs);
                        },
                        None => {},
                    }
                }
            }
            let mut pos: usize = 0;
            let ghost mut done: Seq<CommandView> = Seq::empty();
            while pos < dn
                invariant
                    n == sv.len(),
                    segments@ == sv,
                    si < n,
                    dn == data@.len(),
                    pos <= dn,
                    data@ == sv[si as int].1@,
                    vsegs == segs@.push(Segment { gen, data: data, cmds: Ghost(Seq::empty()) }),
                    gens_sorted(vsegs),
                    dec_all(data@, 0) == cmds_prepend(done, dec_all(data@, pos as int)),
                    keys_unique(index@),
                    forall|i: int|
                        0 <= i < index@.len() ==> entry_ok(vsegs, #[trigger] index@[i]),
                    replay(seg_cmds(segs@) + done) == index_map(index@),
                    uncompacted as int == sat64(
                        total_len(segs@) + pos - live_len(index@),
                    ),
                decreases dn - pos,
            {
                let decoded = decode_command(&data, pos);
                match decoded {
                    None => {
                        proof {
                            assert(dec_all(data@, pos as int) is None);
                            assert(dec_all(sv[si as int].1@, 0) is None);
                            if streams_ok(sv) {
                                assert(dec_all((sv[si as int]).1@, 0) is Some);
                            }
                        }
                        return Err(KvsError::Serde(String::from_str("corrupt log segment")));
                    },
                    Some((cmd, q)) => {
                        proof {
                            lemma_dec_cmd_bounds(data@, pos as int);
                            lemma_dec_cmd_canon(data@, pos as int);
                            let ghost cs0 = done;
                            done = done.push(cmd@);
                            assert(dec_all(data@, pos as int) == cmds_prepend(
                                seq![cmd@],
                                dec_all(data@, q as int),
                            ));
                            match dec_all(data@, q as int) {
                                Some(rest) => {
                                    assert(cs0 + (seq![cmd@] + rest) =~= done + rest);
                                },
                                None => {},
                            }
                            lemma_replay_push(seg_cmds(segs@) + cs0, cmd@);
                            assert((seg_cmds(segs@) + cs0).push(cmd@) =~= seg_cmds(segs@)
                                + done);
                        }
                        let rl = q - pos;
                        match cmd {
                            Command::Put { key, value } => {
                                let ghost vv = value@;
                                let e = IndexEntry { key, gen, pos, len: rl, value: Ghost(vv) };
                                proof {
                                    assert(entry_ok(vsegs, e)) by {
                                        lemma_gen_unique(vsegs, vsegs.len() - 1, gen);
                                        assert(vsegs.last().data@ == data@);
                                    }
                                }
                                let old_len = index_upsert(&mut index, e);
                                uncompacted = sat_add_u64(uncompacted, old_len as u64);
                            },
                            Command::Remove { key } => {
                                let found = find_entry(&index, &key);
                                match found {
                                    Some(ei) => {
                                        let ghost idx0 = index@;
                                        let ol = index[ei].len;
                                        proof {
                                            lemma_index_map_remove(index@, ei as int);
                                        }
                                        index.remove(ei);
                                        uncompacted = sat_add_u64(uncompacted, ol as u64);
                                        proof {
                                            assert(keys_unique(index@)) by {
                                                assert(forall|a: int, b: int|
                                                    0 <= a < b < index@.len() ==> (
                                                    #[trigger] index@[a],
                                                    #[trigger] index@[b]) == if b < ei {
                                                        (idx0[a], idx0[b])
                                                    } else if a < ei {
                                                        (idx0[a], idx0[b + 1])
                                                    } else {
                                                        (idx0[a + 1], idx0[b + 1])
                                                    });
                                            }
                                            assert forall|i: int|
                                                0 <= i < index@.len() implies entry_ok(
                                                vsegs,
                                                #[trigger] index@[i],
                                            ) by {
                                                assert(index@[i] == if i < ei {
                                                    idx0[i]
                                                } else {
                                                    idx0[i + 1]
                                                });
                                            }
                                        }
                                    },
                                    None => {
                                        proof {
                                            lemma_index_map_absent(index@, key@);
                                            assert(index_map(index@).remove(key@)
                                                =~= index_map(index@));
                                        }
                                    },
                                }
                                uncompacted = sat_add_u64(uncompacted, rl as u64);
                            },
                        }
                        pos = q;
                    },
                }
            }
            proof {
                assert(pos == dn);
                assert(dec_all(data@, dn as int) == Some(Seq::<CommandView>::empty()));
                assert(done + Seq::<CommandView>::empty() =~= done);
                assert(dec_all(data@, 0) == Some(done));
            }
            let ghost segs0 = segs@;
            segs.push(Segment { gen, data: data, cmds: Ghost(done) });
            proof {
                assert(gens_sorted(segs@)) by {
                    assert(forall|i: int|
                        0 <= i < segs@.len() ==> (#[trigger] segs@[i]).gen == vsegs[i].gen);
                }
                assert forall|i: int| 0 <= i < index@.len() implies entry_ok(
                    segs@,
                    #[trigger] index@[i],
                ) by {
                    lemma_entry_ok_same_shape(vsegs, segs@, index@[i]);
                }
                assert(seg_cmds(segs@) =~= seg_cmds(segs0) + done) by {
                    assert(segs@.drop_last() =~= segs0);
                }
                assert(seg_cmds(segs@) =~= streams_cmds(sv.take(si + 1))) by {
                    assert(sv.take(si + 1).drop_last() =~= sv.take(si as int));
                    assert(sv.take(si + 1).last() == sv[si as int]);
                }
                assert(total_len(segs@) == total_len(segs0) + dn) by {
                    assert(segs@.drop_last() =~= segs0);
                }
            }
            si = si + 1;
        }
        let cg = if n > 0 {
            segments[n - 1].0 + 1
        } else {
            1
        };
        let ghost segs0 = segs@;
        let empty_data: Vec<char> = Vec::new();
        segs.push(Segment { gen: cg, data: empty_data, cmds: Ghost(Seq::empty()) });
        proof {
            assert(sv.take(n as int) =~= sv);
            assert(gens_sorted(segs@)) by {
                assert(forall|i: int| 0 <= i < n ==> (#[trigger] segs@[i]).gen == sv[i].0);
                assert(forall|i: int| 0 <= i < n ==> sv[i].0 < cg) by {
                    assert(n > 0 ==> sv.last() == sv[n - 1]);
                }
            }
            assert forall|i: int| 0 <= i < index@.len() implies entry_ok(
                segs@,
                #[trigger] index@[i],
            ) by {
                lemma_entry_ok_push_seg(
                    segs0,
                    index@[i],
                    Segment { gen: cg, data: empty_data, cmds: Ghost(Seq::empty()) },
                );
            }
            assert(seg_cmds(segs@) =~= seg_cmds(segs0)) by {
                assert(segs@.drop_last() =~= segs0);
            }
            assert(total_len(segs@) == total_len(segs0)) by {
                assert(segs@.drop_last() =~= segs0);
            }
            assert(streams_ok(sv));
        }
        Ok(KvStore { segs, index, uncompacted })
    }
}


/// Segment texts that mirror a decoded segment list carry the same
/// records.
proof fn lemma_streams_eq(out: Seq<(u64, String)>, segs: Seq<Segment>)
    requires
        out.len() == segs.len(),
        segs_decode(segs),
        forall|i: int| 0 <= i < out.len() ==> (#[trigger] out[i]).1@ == segs[i].data@,
    ensures
        streams_cmds(out) == seg_cmds(segs),
    decreases out.len(),
{
    if out.len() > 0 {
        assert(segs_decode(segs.drop_last())) by {
            assert(forall|i: int|
                0 <= i < segs.len() - 1 ==> (#[trigger] segs.drop_last()[i]) == segs[i]);
        }
        assert(forall|i: int|
            0 <= i < out.len() - 1 ==> (#[trigger] out.drop_last()[i]) == out[i]);
        lemma_streams_eq(out.drop_last(), segs.drop_last());
        assert(dec_all(out.last().1@, 0) == Some(segs.last().cmds@));
    }
}

impl KvStore {
    /// The generation currently receiving writes.
    pub fn current_gen(&self) -> (g: u64)
        requires
            self.wf(),
        ensures
            g == self.spec_current_gen(),
    {
        self.segs[self.segs.len() - 1].gen
    }

    /// The characters of superseded records that a compaction would
    /// reclaim (clamped at the top of `u64`).
    pub fn uncompacted(&self) -> (u: u64)
        ensures
            u == self.spec_uncompacted(),
    {
        self.uncompacted
    }

    /// The store's segments as they stand on disk: each generation with
    /// its full text, ascending.  Reopening a store from exactly this list
    /// rebuilds the same visible mapping.
    pub fn segments(&self) -> (out: Vec<(u64, String)>)
        requires
            self.wf(),
        ensures
            out@.len() == self.spec_segs().len(),
            out@.len() > 0,
            forall|i: int|
                0 <= i < out@.len() ==> (#[trigger] out@[i]).0 == self.spec_segs()[i].gen
                    && out@[i].1@ == self.spec_segs()[i].data@,
            forall|i: int, j: int| 0 <= i < j < out@.len() ==> out@[i].0 < out@[j].0,
            out@.last().0 == self.spec_current_gen(),
            streams_ok(out@),
            replay(streams_cmds(out@)) == self@,
    {
        let n = self.segs.len();
        let mut out: Vec<(u64, String)> = Vec::new();
        let mut i: usize = 0;
        while i < n
            invariant
                self.wf(),
                n == self.segs@.len(),
                i <= n,
                out@.len() == i,
                forall|j: int|
                    0 <= j < i ==> (#[trigger] out@[j]).0 == self.segs@[j].gen && out@[j].1@
                        == self.segs@[j].data@,
            decreases n - i,
        {
            let text = crate::codec::chars_to_string(&self.segs[i].data);
            let gen = self.segs[i].gen;
            out.push((gen, text));
            i = i + 1;
        }
        proof {
            assert(streams_ok(out@));
            lemma_streams_eq(out@, self.segs@);
        }
        out
    }
}

/// Durability: a well-formed store's visible mapping is exactly the
/// replay of its segment text, so a store reopened from its `segments()`
/// shows every write that succeeded before the store was dropped.
pub proof fn lemma_durability(s: &KvStore)
    requires
        s.wf(),
    ensures
        replay(seg_cmds(s.spec_segs())) == s@,
{
}

/// Bounded disk: whenever the reclaimable-space counter is within the
/// compaction threshold (as `set` guarantees on return), the total
/// segment text exceeds the live data by at most that threshold.
pub proof fn lemma_disk_bounded(s: &KvStore)
    requires
        s.wf(),
        s.spec_uncompacted() <= COMPACTION_THRESHOLD,
    ensures
        total_len(s.spec_segs()) <= live_len(s.spec_index()) + COMPACTION_THRESHOLD,
{
}

/// Get-after-set: once a key is set to a value, looking the key up in the
/// visible mapping yields exactly that value.
pub proof fn lemma_get_after_set(m: Map<Seq<char>, Seq<char>>, k: Seq<char>, v: Seq<char>)
    ensures
        m.insert(k, v).contains_key(k),
        m.insert(k, v)[k] == v,
{
}

/// Last-writer wins: setting a key twice leaves only the second value.
pub proof fn lemma_last_writer_wins(
    m: Map<Seq<char>, Seq<char>>,
    k: Seq<char>,
    v1: Seq<char>,
    v2: Seq<char>,
)
    ensures
        m.insert(k, v1).insert(k, v2) == m.insert(k, v2),
{
    assert(m.insert(k, v1).insert(k, v2) =~= m.insert(k, v2));
}

/// Remove hides: a key set and then removed is absent from the visible
/// mapping.
pub proof fn lemma_remove_hides(m: Map<Seq<char>, Seq<char>>, k: Seq<char>, v: Seq<char>)
    ensures
        !m.insert(k, v).remove(k).contains_key(k),
{
}

} // verus!
