//! The durable store: an in-memory index kept equal to the replay of the log.
//!
//! The store does no I/O itself. `open` replays the log's bytes; `set` and
//! `remove` hand back a `Pending` record whose bytes the caller appends to the
//! log and flushes; only then does `commit` apply it, so that the index never
//! holds what the log does not.

use vstd::prelude::*;
use crate::{lookup, opt_view};
use crate::memory;
use crate::record::{Record, RecordModel, frame_of, parse_line};
use crate::log::{
    NEWLINE, segments, complete_lines, tail, all_parse, records_of, apply, replay, join, no_newline,
    lemma_segments_prefix, lemma_truncated_tail,
};

verus! {

/// `remove` was asked for a key that is not bound.
#[derive(Debug, Clone, Copy, PartialEq, Eq, Structural)]
pub struct KeyNotFound;

impl KeyNotFound {
    /// The message shown to a user.
    pub fn message(&self) -> (r: String)
        ensures
            r@ == "Key not Found"@,
    {
        "Key not Found".to_owned()
    }
}

/// What can go wrong with a store.
#[derive(Debug, Clone, Copy, PartialEq, Eq, Structural)]
pub enum KvsError {
    /// The key to remove is not bound.
    KeyNotFound(KeyNotFound),
    /// A line of the log other than an unfinished last one holds no record.
    Decode,
}

/// A record ready to be appended, with the bytes the log is to receive.
pub struct Pending {
    record: Record,
    frame: Vec<u8>,
}

impl Pending {
    /// The bytes are one line, ended by a newline, that reads back as the record.
    #[verifier::type_invariant]
    closed spec fn inv(&self) -> bool {
        &&& self.frame@.len() > 0
        &&& self.frame@.last() == NEWLINE
        &&& no_newline(self.frame@.drop_last())
        &&& parse_line(self.frame@.drop_last()) == Some(self.record@)
    }

    /// The record to apply once its bytes are in the log.
    pub closed spec fn record_view(&self) -> RecordModel {
        self.record@
    }

    /// The bytes to append to the log.
    pub closed spec fn frame_view(&self) -> Seq<u8> {
        self.frame@
    }

    /// Builds the pending record, with its bytes.
    fn of(record: Record) -> (r: Pending)
        ensures
            r.record_view() == record@,
            r.frame_view() == frame_of(record@),
    {
        let frame = record.encode();
        Pending { record, frame }
    }

    /// The bytes to append to the log.
    pub fn frame(&self) -> (r: &Vec<u8>)
        ensures
            r@ == self.frame_view(),
    {
        &self.frame
    }
}

/// A store: the index, the lines of the log it stands for (newlines left
/// out), and the log's length in bytes.
pub struct KvStore {
    index: memory::KvStore,
    lines: Ghost<Seq<Seq<u8>>>,
    log_len: usize,
}

impl View for KvStore {
    type V = Map<Seq<char>, Seq<char>>;

    closed spec fn view(&self) -> Map<Seq<char>, Seq<char>> {
        self.index@
    }
}

impl KvStore {
    /// Each line of the log holds a record and no newline, the length counts
    /// the lines with their newlines, and the index is the replay of the
    /// records.
    pub closed spec fn wf(&self) -> bool {
        &&& self.index.wf()
        &&& all_parse(self.lines@)
        &&& forall|i: int| 0 <= i < self.lines@.len() ==> no_newline(#[trigger] self.lines@[i])
        &&& self.log_len == join(self.lines@).len()
        &&& self.index@ == replay(records_of(self.lines@))
    }

    /// The lines of the log, newlines left out.
    pub closed spec fn lines(&self) -> Seq<Seq<u8>> {
        self.lines@
    }

    /// The records of the log, in order.
    pub open spec fn log(&self) -> Seq<RecordModel> {
        records_of(self.lines())
    }

    /// The bytes of the log.
    pub open spec fn log_bytes(&self) -> Seq<u8> {
        join(self.lines())
    }

    /// The number of bytes of the log that hold complete records.
    pub closed spec fn log_len_view(&self) -> nat {
        self.log_len as nat
    }

    /// The number of bytes of the log that hold complete records; the log is
    /// to be cut to this length before anything is appended.
    pub fn log_len(&self) -> (r: usize)
        ensures
            r == self.log_len_view(),
    {
        self.log_len
    }

    /// Builds a store from the bytes of its log. Every line that a newline
    /// ends must hold a record, else `Decode`; what follows the last newline is
    /// an append that did not complete, and is left out.
    pub fn open(log: &Vec<u8>) -> (r: Result<KvStore, KvsError>)
        ensures
            r is Ok <==> all_parse(complete_lines(log@)),
            r matches Err(e) ==> e == KvsError::Decode,
            r matches Ok(s) ==> {
                &&& s.wf()
                &&& s.lines() == complete_lines(log@)
                &&& s.log() == records_of(complete_lines(log@))
                &&& s@ == replay(s.log())
                &&& s.log_len_view() == log@.len() - tail(log@).len()
            },
    {
        let mut index = memory::KvStore::new();
        let ghost mut done: Seq<Seq<u8>> = Seq::empty();
        let mut cur: Vec<u8> = Vec::new();
        let mut i: usize = 0;
        let mut valid: usize = 0;
        proof {
            assert(log@.take(0) =~= Seq::<u8>::empty());
            assert(done.push(cur@) =~= seq![Seq::<u8>::empty()]);
            assert(records_of(done) =~= Seq::<RecordModel>::empty());
        }
        while i < log.len()
            invariant
                i <= log@.len(),
                segments(log@.take(i as int)) == done.push(cur@),
                all_parse(done),
                forall|j: int| 0 <= j < done.len() ==> no_newline(#[trigger] done[j]),
                no_newline(cur@),
                index.wf(),
                index@ == replay(records_of(done)),
                valid == join(done).len(),
                valid + cur@.len() == i,
            decreases log@.len() - i,
        {
            let b = log[i];
            proof {
                assert(log@.take(i + 1).drop_last() =~= log@.take(i as int));
            }
            if b == NEWLINE {
                match Record::decode(&cur) {
                    None => {
                        proof {
                            lemma_segments_prefix(log@, i + 1, log@.len() as int);
                            assert(log@.take(log@.len() as int) =~= log@);
                            let k = done.len() as int;
                            assert(segments(log@.take(i + 1))[k] == cur@);
                            assert(complete_lines(log@)[k] == cur@);
                            assert(parse_line(complete_lines(log@)[k]) is None);
                        }
                        return Err(KvsError::Decode);
                    },
                    Some(rec) => {
                        let ghost rv = rec@;
                        match rec {
                            Record::Put(k, v) => {
                                index.set(k, v);
                            },
                            Record::Rm(k) => {
                                index.remove(k);
                            },
                        }
                        proof {
                            let l = cur@;
                            lemma_push_line(done, l);
                            done = done.push(l);
                        }
                        cur = Vec::new();
                        valid = i + 1;
                        proof {
                            assert(done.push(cur@) =~= segments(log@.take(i + 1)));
                        }
                    },
                }
            } else {
                cur.push(b);
                proof {
                    crate::log::lemma_segments_len(log@.take(i as int));
                    assert(done.push(cur@) =~= segments(log@.take(i + 1)));
                }
            }
            i = i + 1;
        }
        proof {
            assert(log@.take(log@.len() as int) =~= log@);
            assert(done.push(cur@).drop_last() =~= done);
        }
        Ok(KvStore { index, lines: Ghost(done), log_len: valid })
    }

    /// The value bound to `key`; reads the index only.
    pub fn get(&self, key: String) -> (r: Result<Option<String>, KvsError>)
        requires
            self.wf(),
        ensures
            r matches Ok(v) && opt_view(v) == lookup(self@, key@),
    {
        Ok(self.index.get(key))
    }

    /// The record that binds `key` to `value`, with its bytes.
    pub fn set(&self, key: String, value: String) -> (r: Pending)
        ensures
            r.record_view() == RecordModel::Put(key@, value@),
            r.frame_view() == frame_of(r.record_view()),
    {
        Pending::of(Record::Put(key, value))
    }

    /// The record that unbinds `key`, with its bytes; `KeyNotFound` exactly
    /// when `key` is not bound, and then nothing is to be appended.
    pub fn remove(&self, key: String) -> (r: Result<Pending, KvsError>)
        requires
            self.wf(),
        ensures
            r is Ok <==> self@.contains_key(key@),
            r matches Err(e) ==> e == KvsError::KeyNotFound(KeyNotFound),
            r matches Ok(p) ==> p.record_view() == RecordModel::Rm(key@) && p.frame_view() == frame_of(
                p.record_view(),
            ),
    {
        let k = key.clone();
        match self.index.get(k) {
            None => Err(KvsError::KeyNotFound(KeyNotFound)),
            Some(_) => Ok(Pending::of(Record::Rm(key))),
        }
    }

    /// Applies a record whose bytes the log now holds: its line joins the log
    /// and the index takes the record in.
    pub fn commit(&mut self, p: Pending)
        requires
            old(self).wf(),
            old(self).log_len_view() + p.frame_view().len() <= usize::MAX,
        ensures
            final(self).wf(),
            final(self).lines() == old(self).lines().push(p.frame_view().drop_last()),
            final(self).log() == old(self).log().push(p.record_view()),
            final(self).log_bytes() == old(self).log_bytes() + p.frame_view(),
            final(self)@ == apply(old(self)@, p.record_view()),
            final(self).log_len_view() == old(self).log_len_view() + p.frame_view().len(),
    {
        proof {
            use_type_invariant(&p);
        }
        let ghost rv = p.record@;
        let ghost l = p.frame@.drop_last();
        let ghost f = p.frame@;
        let n = p.frame.len();
        match p.record {
            Record::Put(k, v) => {
                self.index.set(k, v);
            },
            Record::Rm(k) => {
                self.index.remove(k);
            },
        }
        self.log_len = self.log_len + n;
        proof {
            lemma_push_line(self.lines@, l);
            assert(l.push(NEWLINE) =~= f);
        }
        self.lines = Ghost(self.lines@.push(l));
    }
}

/// Adding a line that holds a record and no newline keeps the lines' facts:
/// the records gain that record, the bytes gain the line and its newline.
proof fn lemma_push_line(lines: Seq<Seq<u8>>, l: Seq<u8>)
    requires
        all_parse(lines),
        forall|i: int| 0 <= i < lines.len() ==> no_newline(#[trigger] lines[i]),
        parse_line(l) is Some,
        no_newline(l),
    ensures
        all_parse(lines.push(l)),
        forall|i: int| 0 <= i < lines.push(l).len() ==> no_newline(#[trigger] lines.push(l)[i]),
        records_of(lines.push(l)) == records_of(lines).push(parse_line(l)->0),
        replay(records_of(lines.push(l))) == apply(replay(records_of(lines)), parse_line(l)->0),
        join(lines.push(l)) == join(lines) + l.push(NEWLINE),
{
    let ls = lines.push(l);
    assert forall|j: int| 0 <= j < ls.len() implies (#[trigger] parse_line(ls[j])) is Some by {
        if j < lines.len() {
            assert(ls[j] == lines[j]);
        }
    }
    assert forall|j: int| 0 <= j < ls.len() implies no_newline(#[trigger] ls[j]) by {
        if j < lines.len() {
            assert(ls[j] == lines[j]);
        }
    }
    assert(records_of(ls) =~= records_of(lines).push(parse_line(l)->0));
    assert(records_of(ls).drop_last() =~= records_of(lines));
    assert(ls.drop_last() =~= lines);
}

/// One call a user makes on a store, as characters.
pub enum OpModel {
    /// `set(key, value)`.
    Put(Seq<char>, Seq<char>),
    /// `remove(key)`.
    Remove(Seq<char>),
}

/// The map that applying the calls in order to an empty map gives, a
/// `remove` of an unbound key changing nothing.
pub open spec fn reference(ops: Seq<OpModel>) -> Map<Seq<char>, Seq<char>>
    decreases ops.len(),
{
    if ops.len() == 0 {
        Map::empty()
    } else {
        let m = reference(ops.drop_last());
        match ops.last() {
            OpModel::Put(k, v) => m.insert(k, v),
            OpModel::Remove(k) => if m.contains_key(k) {
                m.remove(k)
            } else {
                m
            },
        }
    }
}

/// The records that a store appends for the calls: one for each `set`, one
/// for each `remove` of a bound key, none for a `remove` that fails with
/// `KeyNotFound`.
pub open spec fn appended(ops: Seq<OpModel>) -> Seq<RecordModel>
    decreases ops.len(),
{
    if ops.len() == 0 {
        Seq::empty()
    } else {
        let l = appended(ops.drop_last());
        match ops.last() {
            OpModel::Put(k, v) => l.push(RecordModel::Put(k, v)),
            OpModel::Remove(k) => if reference(ops.drop_last()).contains_key(k) {
                l.push(RecordModel::Rm(k))
            } else {
                l
            },
        }
    }
}

/// Replaying the records that a sequence of calls appended, as a reopened
/// store does, gives the same map as applying those calls to a plain map.
pub proof fn lemma_round_trip(ops: Seq<OpModel>)
    ensures
        replay(appended(ops)) == reference(ops),
    decreases ops.len(),
{
    if ops.len() > 0 {
        let front = ops.drop_last();
        lemma_round_trip(front);
        let l = appended(front);
        match ops.last() {
            OpModel::Put(k, v) => {
                assert(l.push(RecordModel::Put(k, v)).drop_last() =~= l);
            },
            OpModel::Remove(k) => {
                assert(l.push(RecordModel::Rm(k)).drop_last() =~= l);
            },
        }
    }
}

/// Opening the bytes that a store's log holds gives back that store's
/// records, and so its map: nothing written is lost on a reopen.
pub proof fn lemma_reopen(s: KvStore)
    requires
        s.wf(),
    ensures
        all_parse(complete_lines(s.log_bytes())),
        complete_lines(s.log_bytes()) == s.lines(),
        records_of(complete_lines(s.log_bytes())) == s.log(),
        replay(records_of(complete_lines(s.log_bytes()))) == s@,
        tail(s.log_bytes()).len() == 0,
{
    lemma_truncated_tail(s.lines(), Seq::<u8>::empty());
    assert(s.log_bytes() + Seq::<u8>::empty() =~= s.log_bytes());
}

/// A `remove` of an unbound key appends nothing to the log.
pub proof fn lemma_remove_absent_appends_nothing(ops: Seq<OpModel>, k: Seq<char>)
    requires
        !reference(ops).contains_key(k),
    ensures
        appended(ops.push(OpModel::Remove(k))) == appended(ops),
        reference(ops.push(OpModel::Remove(k))) == reference(ops),
{
    assert(ops.push(OpModel::Remove(k)).drop_last() =~= ops);
}

/// Reading a key twice from an unchanged map gives the same answer.
pub proof fn lemma_read_twice(m: Map<Seq<char>, Seq<char>>, k: Seq<char>, a: Option<Seq<char>>, b: Option<Seq<char>>)
    requires
        a == lookup(m, k),
        b == lookup(m, k),
    ensures
        a == b,
{
}

/// After binding a key twice, reading it gives the second value.
pub proof fn lemma_overwrite(m: Map<Seq<char>, Seq<char>>, k: Seq<char>, v1: Seq<char>, v2: Seq<char>)
    ensures
        lookup(apply(apply(m, RecordModel::Put(k, v1)), RecordModel::Put(k, v2)), k) == Some(v2),
{
}

/// After binding a key and removing it, reading it gives nothing.
pub proof fn lemma_remove_then_get(m: Map<Seq<char>, Seq<char>>, k: Seq<char>, v: Seq<char>)
    ensures
        lookup(apply(apply(m, RecordModel::Put(k, v)), RecordModel::Rm(k)), k) is None,
{
}

/// A store's log followed by a torn append (a part of the bytes of one
/// more record, cut short before its newline) opens to the same records and
/// map: the torn part is left out and not counted in the log's length.
pub proof fn lemma_truncated_log_opens(s: KvStore, frame: Seq<u8>, n: int)
    requires
        s.wf(),
        frame.len() > 0,
        frame.last() == NEWLINE,
        no_newline(frame.drop_last()),
        0 <= n < frame.len(),
    ensures
        all_parse(complete_lines(s.log_bytes() + frame.take(n))),
        records_of(complete_lines(s.log_bytes() + frame.take(n))) == s.log(),
        replay(records_of(complete_lines(s.log_bytes() + frame.take(n)))) == s@,
        (s.log_bytes() + frame.take(n)).len() - tail(s.log_bytes() + frame.take(n)).len()
            == s.log_len_view(),
{
    let partial = frame.take(n);
    assert forall|i: int| 0 <= i < partial.len() implies partial[i] != NEWLINE by {
        assert(partial[i] == frame.drop_last()[i]);
    }
    lemma_truncated_tail(s.lines(), partial);
}

} // verus!
