//! The in-memory key-value store that backs a replica: an ordered map from
//! byte-string keys to byte-string values, the write batches applied to it
//! atomically, and read-only snapshots of it.
//!
//! The map is a vector of entries kept sorted by key, with its order as
//! the type's invariant. vstd's specification of `BTreeMap` holds only for
//! key types that obey its model of `Ord` (`obeys_cmp`), which vstd proves
//! for integers and tuples of them but not for `Vec<u8>`; with byte-string
//! keys its contracts would tell nothing.
use vstd::prelude::*;
use crate::bytes::{
    lex_lt, lex_less, bytes_equal, copy_bytes, lemma_lex_irreflexive,
    lemma_lex_total, lemma_lex_transitive,
};

verus! {

/// One step of a write batch: a key and the value to store under it, or
/// `None` to delete the key.
pub type BatchOp = (Seq<u8>, Option<Seq<u8>>);

/// The store after one step of a write batch.
pub open spec fn apply_op(m: Map<Seq<u8>, Seq<u8>>, op: BatchOp) -> Map<Seq<u8>, Seq<u8>> {
    match op.1 {
        Some(v) => m.insert(op.0, v),
        None => m.remove(op.0),
    }
}

/// The store after the steps of a write batch, applied in order.
pub open spec fn apply_ops(m: Map<Seq<u8>, Seq<u8>>, ops: Seq<BatchOp>) -> Map<Seq<u8>, Seq<u8>>
    decreases ops.len(),
{
    if ops.len() == 0 {
        m
    } else {
        apply_op(apply_ops(m, ops.drop_last()), ops.last())
    }
}

/// Writing batch `a` and then batch `b` leaves the store as writing the one
/// batch `a + b` does.
pub proof fn law_write_batches_compose(m: Map<Seq<u8>, Seq<u8>>, a: Seq<BatchOp>, b: Seq<BatchOp>)
    ensures
        apply_ops(apply_ops(m, a), b) == apply_ops(m, a + b),
    decreases b.len(),
{
    if b.len() == 0 {
        assert(a + b =~= a);
    } else {
        law_write_batches_compose(m, a, b.drop_last());
        assert((a + b).drop_last() =~= a + b.drop_last());
        assert((a + b).last() == b.last());
    }
}

/// A key that no step of a batch names keeps its value (or its absence).
pub proof fn law_untouched_key_unchanged(m: Map<Seq<u8>, Seq<u8>>, ops: Seq<BatchOp>, k: Seq<u8>)
    requires
        forall|i: int| 0 <= i < ops.len() ==> (#[trigger] ops[i]).0 != k,
    ensures
        apply_ops(m, ops).contains_key(k) == m.contains_key(k),
        m.contains_key(k) ==> apply_ops(m, ops)[k] == m[k],
    decreases ops.len(),
{
    if ops.len() > 0 {
        assert(ops.last() == ops[ops.len() - 1]);
        assert forall|i: int| 0 <= i < ops.drop_last().len() implies (
        #[trigger] ops.drop_last()[i]).0 != k by {
            assert(ops.drop_last()[i] == ops[i]);
        }
        law_untouched_key_unchanged(m, ops.drop_last(), k);
    }
}

/// The last step of a batch that names a key decides it: after a put the
/// key holds the value put, after a delete it is absent.
pub proof fn law_last_write_wins(m: Map<Seq<u8>, Seq<u8>>, ops: Seq<BatchOp>, i: int)
    requires
        0 <= i < ops.len(),
        forall|j: int| i < j < ops.len() ==> (#[trigger] ops[j]).0 != ops[i].0,
    ensures
        match ops[i].1 {
            Some(v) => apply_ops(m, ops).contains_key(ops[i].0) && apply_ops(m, ops)[ops[i].0] == v,
            None => !apply_ops(m, ops).contains_key(ops[i].0),
        },
    decreases ops.len(),
{
    if i < ops.len() - 1 {
        assert(ops.last() == ops[ops.len() - 1]);
        assert forall|j: int| i < j < ops.drop_last().len() implies (
        #[trigger] ops.drop_last()[j]).0 != ops.drop_last()[i].0 by {
            assert(ops.drop_last()[j] == ops[j]);
        }
        law_last_write_wins(m, ops.drop_last(), i);
    } else {
        assert(ops.last() == ops[i]);
    }
}

/// Entries sorted strictly by key: the shape of an ordered map.
pub open spec fn strictly_sorted(entries: Seq<(Vec<u8>, Vec<u8>)>) -> bool {
    forall|i: int, j: int|
        #![trigger entries[i], entries[j]]
        0 <= i < j < entries.len() ==> lex_lt(entries[i].0@, entries[j].0@)
}

/// The map that a list of entries stands for.
pub open spec fn entries_map(entries: Seq<(Vec<u8>, Vec<u8>)>) -> Map<Seq<u8>, Seq<u8>>
    decreases entries.len(),
{
    if entries.len() == 0 {
        Map::empty()
    } else {
        entries_map(entries.drop_last()).insert(entries.last().0@, entries.last().1@)
    }
}

/// In sorted entries, a key is in the map exactly where an entry holds it,
/// with that entry's value.
proof fn lemma_entries_map(entries: Seq<(Vec<u8>, Vec<u8>)>)
    requires
        strictly_sorted(entries),
    ensures
        forall|i: int|
            0 <= i < entries.len() ==> entries_map(entries).contains_key(#[trigger] entries[i].0@)
                && entries_map(entries)[entries[i].0@] == entries[i].1@,
        forall|k: Seq<u8>|
            #[trigger] entries_map(entries).contains_key(k) ==> exists|i: int|
                0 <= i < entries.len() && entries[i].0@ == k,
    decreases entries.len(),
{
    if entries.len() > 0 {
        let rest = entries.drop_last();
        assert forall|i: int, j: int|
            #![trigger rest[i], rest[j]]
            0 <= i < j < rest.len() implies lex_lt(rest[i].0@, rest[j].0@) by {
            assert(rest[i] == entries[i] && rest[j] == entries[j]);
        }
        lemma_entries_map(rest);
        let last = entries.len() - 1;
        assert forall|i: int| 0 <= i < entries.len() implies entries_map(entries).contains_key(
            #[trigger] entries[i].0@,
        ) && entries_map(entries)[entries[i].0@] == entries[i].1@ by {
            if i < last {
                assert(rest[i] == entries[i]);
                assert(lex_lt(entries[i].0@, entries[last].0@));
                lemma_lex_irreflexive(entries[i].0@);
            }
        }
        assert forall|k: Seq<u8>| #[trigger] entries_map(entries).contains_key(k) implies exists|
            i: int,
        | 0 <= i < entries.len() && entries[i].0@ == k by {
            if k != entries[last].0@ {
                assert(entries_map(rest).contains_key(k));
                let i = choose|i: int| 0 <= i < rest.len() && rest[i].0@ == k;
                assert(entries[i] == rest[i]);
            }
        }
    }
}

/// The sorted entries of a map; shared by the store and its snapshots.
struct ByteMap {
    entries: Vec<(Vec<u8>, Vec<u8>)>,
}

impl ByteMap {
    closed spec fn wf(&self) -> bool {
        strictly_sorted(self.entries@)
    }

    closed spec fn map(&self) -> Map<Seq<u8>, Seq<u8>> {
        entries_map(self.entries@)
    }

    fn new() -> (r: Self)
        ensures
            r.wf(),
            r.map() == Map::<Seq<u8>, Seq<u8>>::empty(),
    {
        ByteMap { entries: Vec::new() }
    }

    /// The first position whose key is not before `key`.
    fn position(&self, key: &[u8]) -> (pos: usize)
        requires
            self.wf(),
        ensures
            pos <= self.entries.len(),
            forall|j: int| 0 <= j < pos ==> lex_lt(#[trigger] self.entries@[j].0@, key@),
            pos < self.entries.len() ==> !lex_lt(self.entries@[pos as int].0@, key@),
    {
        let mut pos: usize = 0;
        while pos < self.entries.len()
            invariant
                pos <= self.entries.len(),
                forall|j: int| 0 <= j < pos ==> lex_lt(#[trigger] self.entries@[j].0@, key@),
            decreases self.entries.len() - pos,
        {
            if !lex_less(self.entries[pos].0.as_slice(), key) {
                return pos;
            }
            pos = pos + 1;
        }
        pos
    }

    fn get(&self, key: &[u8]) -> (r: Option<Vec<u8>>)
        requires
            self.wf(),
        ensures
            match r {
                Some(v) => self.map().contains_key(key@) && v@ == self.map()[key@],
                None => !self.map().contains_key(key@),
            },
    {
        proof {
            lemma_entries_map(self.entries@);
        }
        let pos = self.position(key);
        if pos < self.entries.len() && bytes_equal(self.entries[pos].0.as_slice(), key) {
            let v = &self.entries[pos].1;
            Some(copy_bytes(v.as_slice()))
        } else {
            proof {
                if self.map().contains_key(key@) {
                    let i = choose|i: int| 0 <= i < self.entries@.len() && self.entries@[i].0@ == key@;
                    if i < pos {
                        lemma_lex_irreflexive(key@);
                    } else if i > pos {
                        lemma_lex_total(self.entries@[pos as int].0@, key@);
                        assert(lex_lt(self.entries@[pos as int].0@, self.entries@[i].0@));
                    }
                }
            }
            None
        }
    }

    fn set(&mut self, key: Vec<u8>, value: Vec<u8>)
        requires
            old(self).wf(),
        ensures
            final(self).wf(),
            final(self).map() == old(self).map().insert(key@, value@),
    {
        proof {
            lemma_entries_map(self.entries@);
        }
        let pos = self.position(key.as_slice());
        let ghost old_entries = self.entries@;
        if pos < self.entries.len() && bytes_equal(self.entries[pos].0.as_slice(), key.as_slice()) {
            self.entries.set(pos, (key, value));
            proof {
                let e = self.entries@;
                assert forall|i: int, j: int|
                    #![trigger e[i], e[j]]
                    0 <= i < j < e.len() implies lex_lt(e[i].0@, e[j].0@) by {
                    assert(lex_lt(old_entries[i].0@, old_entries[j].0@));
                }
                lemma_entries_map(e);
                assert(entries_map(e) =~= entries_map(old_entries).insert(key@, value@)) by {
                    assert forall|k: Seq<u8>| #[trigger]
                        entries_map(e).contains_key(k) implies entries_map(
                        old_entries,
                    ).insert(key@, value@).contains_key(k) by {
                        let i = choose|i: int| 0 <= i < e.len() && e[i].0@ == k;
                        assert(old_entries[i].0@ == k);
                    }
                    assert forall|k: Seq<u8>| #[trigger]
                        entries_map(old_entries).insert(key@, value@).contains_key(k) implies entries_map(
                        e,
                    ).contains_key(k) && entries_map(e)[k] == entries_map(old_entries).insert(
                        key@,
                        value@,
                    )[k] by {
                        if k != key@ {
                            let i = choose|i: int|
                                0 <= i < old_entries.len() && old_entries[i].0@ == k;
                            assert(e[i] == old_entries[i]);
                        } else {
                            assert(e[pos as int].0@ == k);
                        }
                    }
                }
            }
        } else {
            self.entries.insert(pos, (key, value));
            proof {
                let e = self.entries@;
                old_entries.insert_ensures(pos as int, (key, value));
                assert forall|i: int, j: int|
                    #![trigger e[i], e[j]]
                    0 <= i < j < e.len() implies lex_lt(e[i].0@, e[j].0@) by {
                    if j < pos {
                        assert(lex_lt(old_entries[i].0@, old_entries[j].0@));
                    } else if i > pos {
                        assert(lex_lt(old_entries[i - 1].0@, old_entries[j - 1].0@));
                    } else if j == pos {
                        assert(lex_lt(old_entries[i].0@, key@));
                    } else if i == pos {
                        lemma_lex_total(old_entries[pos as int].0@, key@);
                        if j - 1 > pos {
                            assert(lex_lt(old_entries[pos as int].0@, old_entries[j - 1].0@));
                            lemma_lex_transitive(key@, old_entries[pos as int].0@, old_entries[j - 1].0@);
                        }
                    } else {
                        assert(lex_lt(old_entries[i].0@, old_entries[j - 1].0@));
                    }
                }
                lemma_entries_map(e);
                assert(entries_map(e) =~= entries_map(old_entries).insert(key@, value@)) by {
                    assert forall|k: Seq<u8>| #[trigger]
                        entries_map(e).contains_key(k) implies entries_map(
                        old_entries,
                    ).insert(key@, value@).contains_key(k) by {
                        let i = choose|i: int| 0 <= i < e.len() && e[i].0@ == k;
                        if i < pos {
                            assert(old_entries[i] == e[i]);
                        } else if i > pos {
                            assert(old_entries[i - 1] == e[i]);
                        }
                    }
                    assert forall|k: Seq<u8>| #[trigger]
                        entries_map(old_entries).insert(key@, value@).contains_key(k) implies entries_map(
                        e,
                    ).contains_key(k) && entries_map(e)[k] == entries_map(old_entries).insert(
                        key@,
                        value@,
                    )[k] by {
                        if k != key@ {
                            let i = choose|i: int|
                                0 <= i < old_entries.len() && old_entries[i].0@ == k;
                            if i < pos {
                                assert(e[i] == old_entries[i]);
                            } else {
                                assert(e[i + 1] == old_entries[i]);
                            }
                        } else {
                            assert(e[pos as int].0@ == k);
                        }
                    }
                }
            }
        }
    }

    fn delete(&mut self, key: &[u8])
        requires
            old(self).wf(),
        ensures
            final(self).wf(),
            final(self).map() == old(self).map().remove(key@),
    {
        proof {
            lemma_entries_map(self.entries@);
        }
        let pos = self.position(key);
        let ghost old_entries = self.entries@;
        if pos < self.entries.len() && bytes_equal(self.entries[pos].0.as_slice(), key) {
            let _removed = self.entries.remove(pos);
            proof {
                let e = self.entries@;
                old_entries.remove_ensures(pos as int);
                assert forall|i: int, j: int|
                    #![trigger e[i], e[j]]
                    0 <= i < j < e.len() implies lex_lt(e[i].0@, e[j].0@) by {
                    if j < pos {
                        assert(lex_lt(old_entries[i].0@, old_entries[j].0@));
                    } else if i >= pos {
                        assert(lex_lt(old_entries[i + 1].0@, old_entries[j + 1].0@));
                    } else {
                        assert(lex_lt(old_entries[i].0@, old_entries[j + 1].0@));
                    }
                }
                lemma_entries_map(e);
                assert(entries_map(e) =~= entries_map(old_entries).remove(key@)) by {
                    assert forall|k: Seq<u8>| #[trigger]
                        entries_map(e).contains_key(k) implies entries_map(
                        old_entries,
                    ).remove(key@).contains_key(k) by {
                        let i = choose|i: int| 0 <= i < e.len() && e[i].0@ == k;
                        if i < pos {
                            assert(old_entries[i] == e[i]);
                            assert(lex_lt(old_entries[i].0@, old_entries[pos as int].0@));
                            lemma_lex_irreflexive(k);
                        } else {
                            assert(old_entries[i + 1] == e[i]);
                            assert(lex_lt(old_entries[pos as int].0@, old_entries[i + 1].0@));
                            lemma_lex_irreflexive(k);
                        }
                    }
                    assert forall|k: Seq<u8>| #[trigger]
                        entries_map(old_entries).remove(key@).contains_key(k) implies entries_map(
                        e,
                    ).contains_key(k) && entries_map(e)[k] == entries_map(old_entries)[k] by {
                        let i = choose|i: int|
                            0 <= i < old_entries.len() && old_entries[i].0@ == k;
                        if i < pos {
                            assert(e[i] == old_entries[i]);
                        } else {
                            assert(i != pos);
                            assert(e[i - 1] == old_entries[i]);
                        }
                    }
                }
            }
        } else {
            proof {
                if self.map().contains_key(key@) {
                    let i = choose|i: int| 0 <= i < self.entries@.len() && self.entries@[i].0@ == key@;
                    if i < pos {
                        lemma_lex_irreflexive(key@);
                    } else if i > pos {
                        lemma_lex_total(self.entries@[pos as int].0@, key@);
                        assert(lex_lt(self.entries@[pos as int].0@, self.entries@[i].0@));
                    }
                }
                assert(self.map() =~= self.map().remove(key@));
            }
        }
    }

    fn copy(&self) -> (r: Self)
        requires
            self.wf(),
        ensures
            r.wf(),
            r.map() == self.map(),
    {
        let mut entries: Vec<(Vec<u8>, Vec<u8>)> = Vec::new();
        let mut i: usize = 0;
        while i < self.entries.len()
            invariant
                i <= self.entries.len(),
                entries.len() == i,
                forall|j: int|
                    0 <= j < i ==> (#[trigger] entries@[j]).0@ == self.entries@[j].0@
                        && entries@[j].1@ == self.entries@[j].1@,
            decreases self.entries.len() - i,
        {
            let k = &self.entries[i].0;
            let v = &self.entries[i].1;
            entries.push((copy_bytes(k.as_slice()), copy_bytes(v.as_slice())));
            i = i + 1;
        }
        proof {
            lemma_copied_entries_map(entries@, self.entries@);
        }
        ByteMap { entries }
    }
}

/// Entries with the same keys and values stand for the same map.
proof fn lemma_copied_entries_map(a: Seq<(Vec<u8>, Vec<u8>)>, b: Seq<(Vec<u8>, Vec<u8>)>)
    requires
        a.len() == b.len(),
        forall|j: int| 0 <= j < a.len() ==> (#[trigger] a[j]).0@ == b[j].0@ && a[j].1@ == b[j].1@,
    ensures
        entries_map(a) == entries_map(b),
        strictly_sorted(a) == strictly_sorted(b),
    decreases a.len(),
{
    if a.len() > 0 {
        lemma_copied_entries_map(a.drop_last(), b.drop_last());
        assert(a.last() == a[a.len() - 1]);
    }
    assert(strictly_sorted(a) == strictly_sorted(b)) by {
        if strictly_sorted(a) {
            assert forall|i: int, j: int|
                #![trigger b[i], b[j]]
                0 <= i < j < b.len() implies lex_lt(b[i].0@, b[j].0@) by {
                assert(lex_lt(a[i].0@, a[j].0@));
            }
        }
        if strictly_sorted(b) {
            assert forall|i: int, j: int|
                #![trigger a[i], a[j]]
                0 <= i < j < a.len() implies lex_lt(a[i].0@, a[j].0@) by {
                assert(lex_lt(b[i].0@, b[j].0@));
            }
        }
    }
}

/// In-memory key-value store: an ordered map from byte strings to byte
/// strings.
pub struct KVStore(ByteMap);

impl KVStore {
    #[verifier::type_invariant]
    spec fn inv(&self) -> bool {
        self.0.wf()
    }

    /// The contents of the store.
    pub closed spec fn contents(&self) -> Map<Seq<u8>, Seq<u8>> {
        self.0.map()
    }

    /// An empty store.
    pub fn new() -> (r: Self)
        ensures
            r.contents() == Map::<Seq<u8>, Seq<u8>>::empty(),
    {
        KVStore(ByteMap::new())
    }

    /// The value stored under `key`, if any.
    pub fn get(&self, key: &[u8]) -> (r: Option<Vec<u8>>)
        ensures
            match r {
                Some(v) => self.contents().contains_key(key@) && v@ == self.contents()[key@],
                None => !self.contents().contains_key(key@),
            },
    {
        proof {
            use_type_invariant(self);
        }
        self.0.get(key)
    }

    /// Applies the steps of `wb` in order: each `put` stores a value, each
    /// `delete` removes a key.
    pub fn write(&mut self, wb: WriteBatch)
        ensures
            final(self).contents() == apply_ops(old(self).contents(), wb@),
    {
        proof {
            use_type_invariant(&*self);
        }
        let ghost start = self.0.map();
        let mut ops = wb.ops;
        let ghost all = ops@.map_values(|op: Op| op.view());
        let mut applied: usize = 0;
        let n = ops.len();
        let mut rev: Vec<Op> = Vec::new();
        while ops.len() > 0
            invariant
                ops.len() + rev.len() == n,
                n == all.len(),
                forall|j: int| 0 <= j < ops.len() ==> (#[trigger] ops@[j]).view() == all[j],
                forall|j: int| 0 <= j < rev.len() ==> (#[trigger] rev@[j]).view() == all[n - 1 - j],
            decreases ops.len(),
        {
            let op = ops.pop().unwrap();
            rev.push(op);
        }
        let mut m = ByteMap::new();
        std::mem::swap(&mut m, &mut self.0);
        while rev.len() > 0
            invariant
                applied + rev.len() == n,
                n == all.len(),
                m.wf(),
                m.map() == apply_ops(start, all.take(applied as int)),
                forall|j: int|
                    0 <= j < rev.len() ==> (#[trigger] rev@[j]).view() == all[n - 1 - j],
            decreases rev.len(),
        {
            let op = rev.pop().unwrap();
            assert(op.view() == all[applied as int]);
            match op {
                Op::Put(k, v) => {
                    m.set(k, v);
                },
                Op::Del(k) => {
                    m.delete(k.as_slice());
                },
            }
            assert(all.take(applied + 1).drop_last() =~= all.take(applied as int));
            applied = applied + 1;
        }
        assert(all.take(n as int) =~= all);
        self.0 = m;
    }

    /// Removes every key.
    pub fn clear(&mut self)
        ensures
            final(self).contents() == Map::<Seq<u8>, Seq<u8>>::empty(),
    {
        self.0 = ByteMap::new();
    }

    /// A read-only copy of the current contents.
    pub fn snapshot(&self) -> (r: Snapshot)
        ensures
            r.contents() == self.contents(),
    {
        proof {
            use_type_invariant(self);
        }
        Snapshot(self.0.copy())
    }
}

impl Default for KVStore {
    fn default() -> (r: Self)
        ensures
            r.contents() == Map::<Seq<u8>, Seq<u8>>::empty(),
    {
        KVStore::new()
    }
}

/// A read-only copy of a store's contents at one moment.
pub struct Snapshot(ByteMap);

impl Snapshot {
    #[verifier::type_invariant]
    spec fn inv(&self) -> bool {
        self.0.wf()
    }

    /// The contents captured.
    pub closed spec fn contents(&self) -> Map<Seq<u8>, Seq<u8>> {
        self.0.map()
    }

    /// The value captured under `key`, if any.
    pub fn get(&self, key: &[u8]) -> (r: Option<Vec<u8>>)
        ensures
            match r {
                Some(v) => self.contents().contains_key(key@) && v@ == self.contents()[key@],
                None => !self.contents().contains_key(key@),
            },
    {
        proof {
            use_type_invariant(self);
        }
        self.0.get(key)
    }
}

enum Op {
    Put(Vec<u8>, Vec<u8>),
    Del(Vec<u8>),
}

impl Op {
    spec fn view(self) -> BatchOp {
        match self {
            Op::Put(k, v) => (k@, Some(v@)),
            Op::Del(k) => (k@, None),
        }
    }
}

/// An ordered list of writes, applied to a store all at once by
/// [`KVStore::write`].
pub struct WriteBatch {
    ops: Vec<Op>,
}

impl View for WriteBatch {
    type V = Seq<BatchOp>;

    closed spec fn view(&self) -> Seq<BatchOp> {
        self.ops@.map_values(|op: Op| op.view())
    }
}

impl WriteBatch {
    /// An empty batch.
    pub fn new() -> (r: Self)
        ensures
            r@ == Seq::<BatchOp>::empty(),
    {
        let r = WriteBatch { ops: Vec::new() };
        assert(r@ =~= Seq::<BatchOp>::empty());
        r
    }

    /// Adds a step that stores `v` under `k`.
    pub fn put(&mut self, k: Vec<u8>, v: Vec<u8>)
        ensures
            final(self)@ == old(self)@.push((k@, Some(v@))),
    {
        let ghost kv = (k@, Some(v@));
        self.ops.push(Op::Put(k, v));
        assert(self@ =~= old(self)@.push(kv));
    }

    /// Adds a step that removes `k`.
    pub fn delete(&mut self, k: Vec<u8>)
        ensures
            final(self)@ == old(self)@.push((k@, None)),
    {
        let ghost kv: BatchOp = (k@, None);
        self.ops.push(Op::Del(k));
        assert(self@ =~= old(self)@.push(kv));
    }

    /// Adds a step that stores a copy of `value` under a copy of `key`.
    pub fn set(&mut self, key: &[u8], value: &[u8])
        ensures
            final(self)@ == old(self)@.push((key@, Some(value@))),
    {
        self.put(copy_bytes(key), copy_bytes(value));
    }

    /// Adds a step that removes a copy of `key`.
    pub fn delete_key(&mut self, key: &[u8])
        ensures
            final(self)@ == old(self)@.push((key@, None)),
    {
        self.delete(copy_bytes(key));
    }
}

impl Default for WriteBatch {
    fn default() -> (r: Self)
        ensures
            r@ == Seq::<BatchOp>::empty(),
    {
        WriteBatch::new()
    }
}

} // verus!
