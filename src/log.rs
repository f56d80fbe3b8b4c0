//! The log as bytes: records one per line, each line ended by a newline. A
//! last line without its newline is a record whose write did not complete.

use vstd::prelude::*;
use crate::record::{RecordModel, parse_line};

verus! {

/// The newline byte that ends each record.
pub const NEWLINE: u8 = 10;

/// The pieces of `s` between newlines: every line that a newline ends, then
/// what follows the last newline (empty when `s` ends with one).
pub open spec fn segments(s: Seq<u8>) -> Seq<Seq<u8>>
    decreases s.len(),
{
    if s.len() == 0 {
        seq![Seq::<u8>::empty()]
    } else {
        let p = segments(s.drop_last());
        if s.last() == NEWLINE {
            p.push(Seq::<u8>::empty())
        } else {
            p.update(p.len() - 1, p.last().push(s.last()))
        }
    }
}

/// The lines of `s` that a newline ends.
pub open spec fn complete_lines(s: Seq<u8>) -> Seq<Seq<u8>> {
    segments(s).drop_last()
}

/// What follows the last newline of `s`: an unfinished record, or nothing.
pub open spec fn tail(s: Seq<u8>) -> Seq<u8> {
    segments(s).last()
}

/// Every line holds a record.
pub open spec fn all_parse(lines: Seq<Seq<u8>>) -> bool {
    forall|i: int| 0 <= i < lines.len() ==> (#[trigger] parse_line(lines[i])) is Some
}

/// The records that the lines hold.
pub open spec fn records_of(lines: Seq<Seq<u8>>) -> Seq<RecordModel> {
    lines.map_values(|l: Seq<u8>| parse_line(l)->0)
}

/// A map after one record: a `Put` binds, an `Rm` unbinds (nothing if unbound).
pub open spec fn apply(m: Map<Seq<char>, Seq<char>>, r: RecordModel) -> Map<Seq<char>, Seq<char>> {
    match r {
        RecordModel::Put(k, v) => m.insert(k, v),
        RecordModel::Rm(k) => m.remove(k),
    }
}

/// The map that replaying the records in order on an empty map gives.
pub open spec fn replay(rs: Seq<RecordModel>) -> Map<Seq<char>, Seq<char>>
    decreases rs.len(),
{
    if rs.len() == 0 {
        Map::empty()
    } else {
        apply(replay(rs.drop_last()), rs.last())
    }
}

/// The lines written one after another, each with its newline.
pub open spec fn join(lines: Seq<Seq<u8>>) -> Seq<u8>
    decreases lines.len(),
{
    if lines.len() == 0 {
        Seq::empty()
    } else {
        join(lines.drop_last()) + lines.last().push(NEWLINE)
    }
}

/// `l` holds no newline.
pub open spec fn no_newline(l: Seq<u8>) -> bool {
    forall|i: int| 0 <= i < l.len() ==> l[i] != NEWLINE
}

/// There is always at least one segment.
pub proof fn lemma_segments_len(s: Seq<u8>)
    ensures
        segments(s).len() >= 1,
    decreases s.len(),
{
    if s.len() > 0 {
        lemma_segments_len(s.drop_last());
    }
}

/// Reading further into `s` keeps the lines that a newline already ended.
pub proof fn lemma_segments_prefix(s: Seq<u8>, i: int, j: int)
    requires
        0 <= i <= j <= s.len(),
    ensures
        segments(s.take(i)).len() <= segments(s.take(j)).len(),
        forall|k: int|
            0 <= k < segments(s.take(i)).len() - 1 ==> #[trigger] segments(s.take(j))[k]
                == segments(s.take(i))[k],
    decreases j - i,
{
    if j > i {
        lemma_segments_prefix(s, i, j - 1);
        assert(s.take(j).drop_last() =~= s.take(j - 1));
        lemma_segments_len(s.take(j - 1));
    }
}

/// Bytes without a newline only lengthen the last segment.
pub proof fn lemma_segments_append_plain(a: Seq<u8>, b: Seq<u8>)
    requires
        no_newline(b),
    ensures
        segments(a + b) == segments(a).update(segments(a).len() - 1, segments(a).last() + b),
    decreases b.len(),
{
    lemma_segments_len(a);
    if b.len() == 0 {
        assert(a + b =~= a);
        assert(segments(a).last() + b =~= segments(a).last());
        assert(segments(a).update(segments(a).len() - 1, segments(a).last()) =~= segments(a));
    } else {
        let b0 = b.drop_last();
        lemma_segments_append_plain(a, b0);
        assert((a + b).drop_last() =~= a + b0);
        assert((a + b).last() == b.last());
        let p = segments(a + b0);
        assert(segments(a).last() + b0 + seq![b.last()] =~= segments(a).last() + b);
        assert(p.len() == segments(a).len());
        assert(p.last() == segments(a).last() + b0);
        assert(p.last().push(b.last()) =~= segments(a).last() + b);
        assert(p.update(p.len() - 1, p.last().push(b.last())) =~= segments(a).update(
            segments(a).len() - 1,
            segments(a).last() + b,
        ));
    }
}

/// Lines joined with their newlines split back into the same lines.
pub proof fn lemma_segments_join(lines: Seq<Seq<u8>>)
    requires
        forall|i: int| 0 <= i < lines.len() ==> no_newline(#[trigger] lines[i]),
    ensures
        segments(join(lines)) == lines.push(Seq::<u8>::empty()),
    decreases lines.len(),
{
    if lines.len() == 0 {
        assert(segments(Seq::<u8>::empty()) =~= lines.push(Seq::<u8>::empty()));
    } else {
        let front = lines.drop_last();
        let l = lines.last();
        assert forall|i: int| 0 <= i < front.len() implies no_newline(#[trigger] front[i]) by {
            assert(front[i] == lines[i]);
        }
        lemma_segments_join(front);
        assert(no_newline(lines[lines.len() - 1]));
        lemma_segments_append_plain(join(front), l);
        let s = join(lines);
        assert(s =~= (join(front) + l).push(NEWLINE));
        assert(s.drop_last() =~= join(front) + l);
        assert(Seq::<u8>::empty() + l =~= l);
        assert(segments(s) =~= lines.push(Seq::<u8>::empty()));
    }
}

/// A log of complete lines followed by an unfinished one (no newline) splits
/// into exactly those complete lines and that unfinished tail.
pub proof fn lemma_truncated_tail(lines: Seq<Seq<u8>>, partial: Seq<u8>)
    requires
        forall|i: int| 0 <= i < lines.len() ==> no_newline(#[trigger] lines[i]),
        no_newline(partial),
    ensures
        complete_lines(join(lines) + partial) == lines,
        tail(join(lines) + partial) == partial,
{
    lemma_segments_join(lines);
    lemma_segments_append_plain(join(lines), partial);
    assert(Seq::<u8>::empty() + partial =~= partial);
    assert(complete_lines(join(lines) + partial) =~= lines);
}

} // verus!
