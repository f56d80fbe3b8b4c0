//! Log records and their on-disk form: one line per record, `{"Set":["k","v"]}`
//! or `{"Rm":["k"]}`, where the bracketed list is the JSON text of the record's
//! strings.

use vstd::prelude::*;
use crate::log::{NEWLINE, no_newline};

verus! {

/// What a record says, as sequences of characters.
pub enum RecordModel {
    Put(Seq<char>, Seq<char>),
    Rm(Seq<char>),
}

/// One mutation of the store.
#[derive(Debug, Clone, PartialEq, Eq)]
pub enum Record {
    /// `key` was bound to `value`.
    Put(String, String),
    /// `key`'s binding was deleted.
    Rm(String),
}

impl View for Record {
    type V = RecordModel;

    open spec fn view(&self) -> RecordModel {
        match self {
            Record::Put(k, v) => RecordModel::Put(k@, v@),
            Record::Rm(k) => RecordModel::Rm(k@),
        }
    }
}

/// The compact JSON text that serde_json writes for a list of strings.
pub uninterp spec fn json_of_strings(fields: Seq<Seq<char>>) -> Seq<u8>;

/// The list of strings that serde_json reads from `bytes`, if they hold one.
pub uninterp spec fn strings_of_json(bytes: Seq<u8>) -> Option<Seq<Seq<char>>>;

/// The characters of each string.
pub open spec fn strings_view(v: Seq<String>) -> Seq<Seq<char>> {
    v.map_values(|s: String| s@)
}

/// The characters of each string of an optional list.
pub open spec fn opt_strings_view(o: Option<Vec<String>>) -> Option<Seq<Seq<char>>> {
    match o {
        Some(v) => Some(strings_view(v@)),
        None => None,
    }
}

/// The record that an optional record holds.
pub open spec fn opt_record_view(o: Option<Record>) -> Option<RecordModel> {
    match o {
        Some(r) => Some(r@),
        None => None,
    }
}

/// Relies on serde_json::to_vec (ser.rs `to_vec`, `format_escaped_str`): a
/// list of strings is written as compact JSON without fail, since neither a
/// `String` nor a `Vec` serializer errs and writing into a `Vec<u8>` never
/// fails; every control byte, the newline among them, is escaped; and
/// serde_json::from_slice (read.rs `parse_str`, `parse_escape`) reads the same
/// strings back from that text.
#[verifier::external_body]
fn encode_strings(fields: &Vec<String>) -> (r: Vec<u8>)
    ensures
        r@ == json_of_strings(strings_view(fields@)),
        forall|i: int| 0 <= i < r@.len() ==> r@[i] != NEWLINE,
        strings_of_json(r@) == Some(strings_view(fields@)),
{
    serde_json::to_vec(fields).unwrap_or_default()
}

/// Relies on serde_json::from_slice: reads JSON text as a list of strings.
#[verifier::external_body]
fn decode_strings(bytes: &Vec<u8>) -> (r: Option<Vec<String>>)
    ensures
        opt_strings_view(r) == strings_of_json(bytes@),
{
    serde_json::from_slice::<Vec<String>>(bytes).ok()
}

/// `{"Set":`
pub open spec fn set_tag() -> Seq<u8> {
    seq![123u8, 34u8, 83u8, 101u8, 116u8, 34u8, 58u8]
}

/// `{"Rm":`
pub open spec fn rm_tag() -> Seq<u8> {
    seq![123u8, 34u8, 82u8, 109u8, 34u8, 58u8]
}

/// The bytes that open a record line.
pub open spec fn tag_of(is_set: bool) -> Seq<u8> {
    if is_set {
        set_tag()
    } else {
        rm_tag()
    }
}

/// Whether a record is a `Put`.
pub open spec fn is_set(r: RecordModel) -> bool {
    r is Put
}

/// The strings a record carries, in order.
pub open spec fn fields_of(r: RecordModel) -> Seq<Seq<char>> {
    match r {
        RecordModel::Put(k, v) => seq![k, v],
        RecordModel::Rm(k) => seq![k],
    }
}

/// A record line around a JSON body, with its newline.
pub open spec fn framed(is_set: bool, body: Seq<u8>) -> Seq<u8> {
    tag_of(is_set) + body + seq![125u8, 10u8]
}

/// The bytes that the log holds for a record, newline included.
pub open spec fn frame_of(r: RecordModel) -> Seq<u8> {
    framed(is_set(r), json_of_strings(fields_of(r)))
}

/// The record of a given kind that a list of strings makes, if it has the right length.
pub open spec fn record_of_fields(is_set: bool, f: Seq<Seq<char>>) -> Option<RecordModel> {
    if is_set {
        if f.len() == 2 {
            Some(RecordModel::Put(f[0], f[1]))
        } else {
            None
        }
    } else {
        if f.len() == 1 {
            Some(RecordModel::Rm(f[0]))
        } else {
            None
        }
    }
}

/// Whether `l` starts with the tag of the given kind and ends with `}`.
pub open spec fn has_shape(l: Seq<u8>, is_set: bool) -> bool {
    &&& l.len() >= tag_of(is_set).len() + 1
    &&& l.take(tag_of(is_set).len() as int) == tag_of(is_set)
    &&& l.last() == 125u8
}

/// The JSON body of a line of the given kind.
pub open spec fn body_of(l: Seq<u8>, is_set: bool) -> Seq<u8> {
    l.subrange(tag_of(is_set).len() as int, l.len() - 1)
}

/// The record a line (without its newline) holds, if it holds one.
pub open spec fn parse_line(l: Seq<u8>) -> Option<RecordModel> {
    if has_shape(l, true) {
        match strings_of_json(body_of(l, true)) {
            Some(f) => record_of_fields(true, f),
            None => None,
        }
    } else if has_shape(l, false) {
        match strings_of_json(body_of(l, false)) {
            Some(f) => record_of_fields(false, f),
            None => None,
        }
    } else {
        None
    }
}

/// The line of a record, without its newline, reads back as that record
/// whenever serde_json reads back the list of strings it wrote.
pub proof fn lemma_frame_decodes(r: RecordModel)
    requires
        strings_of_json(json_of_strings(fields_of(r))) == Some(fields_of(r)),
    ensures
        parse_line(frame_of(r).drop_last()) == Some(r),
{
    let j = json_of_strings(fields_of(r));
    let l = frame_of(r).drop_last();
    let t = tag_of(is_set(r));
    assert(l =~= t + j + seq![125u8]);
    assert(l.take(t.len() as int) =~= t);
    assert(body_of(l, is_set(r)) =~= j);
    if !is_set(r) {
        assert(l[2] != set_tag()[2]);
        assert(l.take(7)[2] != set_tag()[2]);
    }
}

/// The tag bytes of the given kind.
fn tag_bytes(is_set: bool) -> (r: Vec<u8>)
    ensures
        r@ == tag_of(is_set),
{
    let mut r: Vec<u8> = Vec::new();
    r.push(123u8);
    r.push(34u8);
    if is_set {
        r.push(83u8);
        r.push(101u8);
        r.push(116u8);
    } else {
        r.push(82u8);
        r.push(109u8);
    }
    r.push(34u8);
    r.push(58u8);
    proof {
        assert(r@ =~= tag_of(is_set));
    }
    r
}

/// Builds the line for a record of the given kind around its JSON body.
pub fn frame(is_set: bool, body: &Vec<u8>) -> (r: Vec<u8>)
    ensures
        r@ == framed(is_set, body@),
{
    let mut r = tag_bytes(is_set);
    let ghost t = r@;
    let mut i: usize = 0;
    while i < body.len()
        invariant
            t == tag_of(is_set),
            i <= body@.len(),
            r@ == t + body@.take(i as int),
        decreases body@.len() - i,
    {
        r.push(body[i]);
        proof {
            assert(body@.take(i + 1) =~= body@.take(i as int).push(body@[i as int]));
        }
        i = i + 1;
    }
    r.push(125u8);
    r.push(10u8);
    proof {
        assert(body@.take(body@.len() as int) =~= body@);
        assert(r@ =~= framed(is_set, body@));
    }
    r
}

/// Whether `l` has the shape of a line of the given kind.
fn shape_matches(l: &Vec<u8>, is_set: bool) -> (r: bool)
    ensures
        r == has_shape(l@, is_set),
{
    let t = tag_bytes(is_set);
    if l.len() < t.len() + 1 {
        return false;
    }
    let mut i: usize = 0;
    while i < t.len()
        invariant
            t@ == tag_of(is_set),
            l@.len() >= t@.len() + 1,
            i <= t@.len(),
            forall|j: int| 0 <= j < i ==> l@[j] == t@[j],
        decreases t@.len() - i,
    {
        if l[i] != t[i] {
            proof {
                assert(l@.take(t@.len() as int)[i as int] != t@[i as int]);
            }
            return false;
        }
        i = i + 1;
    }
    proof {
        assert(l@.take(t@.len() as int) =~= t@);
    }
    l[l.len() - 1] == 125u8
}

/// The JSON body of a line whose shape matches the given kind.
fn body(l: &Vec<u8>, is_set: bool) -> (r: Vec<u8>)
    requires
        has_shape(l@, is_set),
    ensures
        r@ == body_of(l@, is_set),
{
    let start: usize = if is_set { 7 } else { 6 };
    let end: usize = l.len() - 1;
    let mut r: Vec<u8> = Vec::new();
    let mut i: usize = start;
    while i < end
        invariant
            start == tag_of(is_set).len(),
            end == l@.len() - 1,
            start <= i <= end,
            r@ == l@.subrange(start as int, i as int),
        decreases end - i,
    {
        r.push(l[i]);
        proof {
            assert(l@.subrange(start as int, i + 1) =~= l@.subrange(start as int, i as int).push(
                l@[i as int],
            ));
        }
        i = i + 1;
    }
    r
}

impl Record {
    /// The record of the given kind that a list of strings makes: a `Put` from
    /// two strings, an `Rm` from one; `None` for any other length.
    pub fn from_fields(is_set: bool, fields: Vec<String>) -> (r: Option<Record>)
        ensures
            opt_record_view(r) == record_of_fields(is_set, strings_view(fields@)),
    {
        let mut fields = fields;
        if is_set {
            if fields.len() != 2 {
                return None;
            }
            let v = fields.pop();
            let k = fields.pop();
            match (k, v) {
                (Some(k), Some(v)) => Some(Record::Put(k, v)),
                _ => None,
            }
        } else {
            if fields.len() != 1 {
                return None;
            }
            match fields.pop() {
                Some(k) => Some(Record::Rm(k)),
                None => None,
            }
        }
    }

    /// Reads a record from a log line without its newline; `None` if the line
    /// does not hold one.
    pub fn decode(line: &Vec<u8>) -> (r: Option<Record>)
        ensures
            opt_record_view(r) == parse_line(line@),
    {
        let is_set = if shape_matches(line, true) {
            true
        } else if shape_matches(line, false) {
            false
        } else {
            return None;
        };
        let b = body(line, is_set);
        match decode_strings(&b) {
            Some(fields) => Record::from_fields(is_set, fields),
            None => None,
        }
    }

    /// The bytes that the log holds for this record, newline included. The
    /// line before the newline holds no newline and reads back as the record.
    pub fn encode(&self) -> (r: Vec<u8>)
        ensures
            r@ == frame_of(self@),
            r@.len() > 0,
            r@.last() == NEWLINE,
            no_newline(r@.drop_last()),
            parse_line(r@.drop_last()) == Some(self@),
    {
        let mut fields: Vec<String> = Vec::new();
        let is_set = match self {
            Record::Put(k, v) => {
                fields.push(k.clone());
                fields.push(v.clone());
                true
            },
            Record::Rm(k) => {
                fields.push(k.clone());
                false
            },
        };
        proof {
            assert(strings_view(fields@) =~= fields_of(self@));
        }
        let b = encode_strings(&fields);
        let r = frame(is_set, &b);
        proof {
            lemma_frame_decodes(self@);
            let t = tag_of(is_set);
            let l = r@.drop_last();
            assert(l =~= t + b@ + seq![125u8]);
            assert forall|j: int| 0 <= j < l.len() implies l[j] != NEWLINE by {
                if j >= t.len() && j < t.len() + b@.len() {
                    assert(l[j] == b@[j - t.len()]);
                }
            }
        }
        r
    }
}

} // verus!
