//! The persisted form of raw matches and contamination records.

use vstd::prelude::*;
use crate::bytes::{le_bytes, le_value, lemma_u64_fits};
use crate::error::PipelineError;
use crate::records::{ContaminationRecord, RawMatch};

verus! {

/// `bincode::ErrorKind`, taken as it is: the reason of a failure is not
/// looked into.
#[verifier::external_type_specification]
#[verifier::external_body]
pub struct ExBincodeErrorKind(bincode::ErrorKind);

/// Three 64-bit words: the form in which a record of either kind is written.
pub type Triple = (u64, u64, u64);

/// The 24 bytes of one record: its three words, eight little-endian bytes
/// each.
pub open spec fn triple_bytes(triple: Triple) -> Seq<u8> {
    le_bytes(triple.0 as nat, 8) + le_bytes(triple.1 as nat, 8) + le_bytes(triple.2 as nat, 8)
}

/// The bytes of the records one after the other: byte `j` is byte `j % 24` of
/// record `j / 24`.
pub open spec fn body_bytes(triples: Seq<Triple>) -> Seq<u8> {
    Seq::new(24 * triples.len(), |j: int| triple_bytes(triples[j / 24])[j % 24])
}

/// The encoding of a sequence of records: their number as eight
/// little-endian bytes, then the records.
pub open spec fn encoding(triples: Seq<Triple>) -> Seq<u8> {
    le_bytes(triples.len(), 8) + body_bytes(triples)
}

/// `bytes` begin with the encoding of `triples`, which are few enough to be
/// held in memory. What follows the encoding is not looked at.
pub open spec fn decodes_to(bytes: Seq<u8>, triples: Seq<Triple>) -> bool {
    &&& triples.len() <= usize::MAX
    &&& encoding(triples).len() <= bytes.len()
    &&& bytes.subrange(0, encoding(triples).len() as int) == encoding(triples)
}

/// The records that `bytes` begin with the encoding of, if there are any.
pub open spec fn decoded(bytes: Seq<u8>) -> Option<Seq<Triple>> {
    if exists|triples: Seq<Triple>| decodes_to(bytes, triples) {
        Some(choose|triples: Seq<Triple>| decodes_to(bytes, triples))
    } else {
        None
    }
}

/// A record's 24 bytes give its three words back.
pub proof fn lemma_triple_bytes(triple: Triple)
    ensures
        triple_bytes(triple).len() == 24,
        le_value(triple_bytes(triple).subrange(0, 8)) == triple.0,
        le_value(triple_bytes(triple).subrange(8, 16)) == triple.1,
        le_value(triple_bytes(triple).subrange(16, 24)) == triple.2,
{
    lemma_u64_fits(triple.0);
    lemma_u64_fits(triple.1);
    lemma_u64_fits(triple.2);
    let bytes = triple_bytes(triple);
    assert(bytes.subrange(0, 8) =~= le_bytes(triple.0 as nat, 8));
    assert(bytes.subrange(8, 16) =~= le_bytes(triple.1 as nat, 8));
    assert(bytes.subrange(16, 24) =~= le_bytes(triple.2 as nat, 8));
}

/// An encoding is 8 bytes and 24 more for each record, and record `i` stands
/// at byte `8 + 24 * i`.
pub proof fn lemma_encoding_layout(triples: Seq<Triple>)
    requires
        triples.len() <= u64::MAX,
    ensures
        encoding(triples).len() == 8 + 24 * triples.len(),
        le_value(encoding(triples).subrange(0, 8)) == triples.len(),
        forall|i: int|
            0 <= i < triples.len() ==> encoding(triples).subrange(8 + 24 * i, 32 + 24 * i) == triple_bytes(
                #[trigger] triples[i],
            ),
{
    lemma_u64_fits(triples.len() as u64);
    let bytes = encoding(triples);
    assert(bytes.subrange(0, 8) =~= le_bytes(triples.len(), 8));
    assert forall|i: int| 0 <= i < triples.len() implies bytes.subrange(8 + 24 * i, 32 + 24 * i) == triple_bytes(
        #[trigger] triples[i],
    ) by {
        lemma_triple_bytes(triples[i]);
        assert forall|k: int| 0 <= k < 24 implies bytes.subrange(8 + 24 * i, 32 + 24 * i)[k] == triple_bytes(
            triples[i],
        )[k] by {
            let j = 24 * i + k;
            assert(j / 24 == i && j % 24 == k);
            assert(bytes[8 + j] == body_bytes(triples)[j]);
        }
        assert(bytes.subrange(8 + 24 * i, 32 + 24 * i) =~= triple_bytes(triples[i]));
    }
}

/// Bytes begin with the encoding of at most one sequence of records.
pub proof fn lemma_decoding_unique(bytes: Seq<u8>, a: Seq<Triple>, b: Seq<Triple>)
    requires
        decodes_to(bytes, a),
        decodes_to(bytes, b),
    ensures
        a == b,
{
    lemma_encoding_layout(a);
    lemma_encoding_layout(b);
    let ea = encoding(a);
    let eb = encoding(b);
    assert(ea.subrange(0, 8) =~= bytes.subrange(0, 8));
    assert(eb.subrange(0, 8) =~= bytes.subrange(0, 8));
    assert(a.len() == b.len());
    assert forall|i: int| 0 <= i < a.len() implies a[i] == b[i] by {
        assert(ea.subrange(8 + 24 * i, 32 + 24 * i) =~= bytes.subrange(8 + 24 * i, 32 + 24 * i));
        assert(eb.subrange(8 + 24 * i, 32 + 24 * i) =~= bytes.subrange(8 + 24 * i, 32 + 24 * i));
        assert(triple_bytes(a[i]) == triple_bytes(b[i]));
        lemma_triple_bytes(a[i]);
        lemma_triple_bytes(b[i]);
    }
    assert(a =~= b);
}

/// Decoding an encoding gives the records back, whatever bytes follow it.
pub proof fn lemma_round_trip(triples: Seq<Triple>, trailing: Seq<u8>)
    requires
        triples.len() <= usize::MAX,
    ensures
        decoded(encoding(triples) + trailing) == Some(triples),
{
    let bytes = encoding(triples) + trailing;
    assert(bytes.subrange(0, encoding(triples).len() as int) =~= encoding(triples));
    assert(decodes_to(bytes, triples));
    let chosen = choose|found: Seq<Triple>| decodes_to(bytes, found);
    lemma_decoding_unique(bytes, chosen, triples);
}

/// `bincode::serialize` on a vector of triples of `u64`: the bytes are the
/// number of triples as eight little-endian bytes followed by the three words
/// of each triple, eight little-endian bytes each. The call cannot fail on
/// such a value: it counts and writes without a byte limit, a vector always
/// tells its length, and the bytes go to a vector in memory.
#[verifier::external_body]
fn serialize_triples(triples: &Vec<Triple>) -> (r: Result<Vec<u8>, Box<bincode::ErrorKind>>)
    ensures
        r is Ok,
        r matches Ok(bytes) ==> bytes@ == encoding(triples@),
{
    bincode::serialize(triples)
}

/// `bincode::deserialize` to a vector of triples of `u64`: it succeeds where
/// the bytes begin with the encoding of some triples, which it then returns,
/// and fails where they do not. Bytes after the encoding are ignored.
#[verifier::external_body]
fn deserialize_triples(bytes: &[u8]) -> (r: Result<Vec<Triple>, Box<bincode::ErrorKind>>)
    ensures
        r matches Ok(triples) ==> decodes_to(bytes@, triples@),
        r is Err ==> forall|triples: Seq<Triple>| !decodes_to(bytes@, triples),
{
    bincode::deserialize(bytes)
}

/// A raw match as three words.
pub open spec fn match_triple(m: RawMatch) -> Triple {
    (m.0 as u64, m.1 as u64, m.2)
}

/// A contamination record as three words.
pub open spec fn record_triple(record: ContaminationRecord) -> Triple {
    (record.0 as u64, record.1 as u64, record.2 as u64)
}

/// The encoding of a sequence of raw matches.
pub open spec fn match_encoding(matches: Seq<RawMatch>) -> Seq<u8> {
    encoding(matches.map_values(|m: RawMatch| match_triple(m)))
}

/// The encoding of a sequence of contamination records.
pub open spec fn record_encoding(records: Seq<ContaminationRecord>) -> Seq<u8> {
    encoding(records.map_values(|record: ContaminationRecord| record_triple(record)))
}

/// The raw matches that `bytes` encode: the records that they begin with the
/// encoding of, where the two identifiers of each are addressable in memory.
pub open spec fn decoded_matches(bytes: Seq<u8>) -> Option<Seq<RawMatch>> {
    match decoded(bytes) {
        Some(triples) => if forall|i: int|
            0 <= i < triples.len() ==> (#[trigger] triples[i]).0 <= usize::MAX && triples[i].1 <= usize::MAX {
            Some(triples.map_values(|t: Triple| (t.0 as usize, t.1 as usize, t.2)))
        } else {
            None
        },
        None => None,
    }
}

/// The contamination records that `bytes` encode: the records that they begin
/// with the encoding of, where the three identifiers of each are addressable
/// in memory.
pub open spec fn decoded_records(bytes: Seq<u8>) -> Option<Seq<ContaminationRecord>> {
    match decoded(bytes) {
        Some(triples) => if forall|i: int|
            0 <= i < triples.len() ==> (#[trigger] triples[i]).0 <= usize::MAX && triples[i].1 <= usize::MAX
                && triples[i].2 <= usize::MAX {
            Some(triples.map_values(|t: Triple| (t.0 as usize, t.1 as usize, t.2 as usize)))
        } else {
            None
        },
        None => None,
    }
}

/// Raw matches that are written and read again come back unchanged, in
/// number, order and values.
pub proof fn lemma_match_round_trip(matches: Seq<RawMatch>)
    requires
        matches.len() <= usize::MAX,
    ensures
        decoded_matches(match_encoding(matches)) == Some(matches),
{
    let triples = matches.map_values(|m: RawMatch| match_triple(m));
    lemma_round_trip(triples, Seq::empty());
    assert(encoding(triples) + Seq::<u8>::empty() =~= encoding(triples));
    assert(triples.map_values(|t: Triple| (t.0 as usize, t.1 as usize, t.2)) =~= matches);
}

/// Contamination records that are written and read again come back
/// unchanged, in number, order and values.
pub proof fn lemma_record_round_trip(records: Seq<ContaminationRecord>)
    requires
        records.len() <= usize::MAX,
    ensures
        decoded_records(record_encoding(records)) == Some(records),
{
    let triples = records.map_values(|record: ContaminationRecord| record_triple(record));
    lemma_round_trip(triples, Seq::empty());
    assert(encoding(triples) + Seq::<u8>::empty() =~= encoding(triples));
    assert(triples.map_values(|t: Triple| (t.0 as usize, t.1 as usize, t.2 as usize)) =~= records);
}

/// Writes raw matches in their persisted form. This always succeeds.
pub fn encode_matches(matches: &Vec<RawMatch>) -> (r: Result<Vec<u8>, PipelineError>)
    ensures
        r is Ok,
        r matches Ok(bytes) ==> bytes@ == match_encoding(matches@),
{
    let n = matches.len();
    let mut triples: Vec<Triple> = Vec::new();
    let mut i: usize = 0;
    while i < n
        invariant
            n == matches.len(),
            i <= n,
            triples@ == matches@.take(i as int).map_values(|m: RawMatch| match_triple(m)),
        decreases n - i,
    {
        let (path_idx, line_num, position) = matches[i];
        triples.push((path_idx as u64, line_num as u64, position));
        proof {
            let f = |m: RawMatch| match_triple(m);
            assert(matches@.take(i + 1).map_values(f) =~= matches@.take(i as int).map_values(f).push(f(matches[i as int])));
        }
        i += 1;
    }
    proof {
        assert(matches@.take(n as int) =~= matches@);
    }
    match serialize_triples(&triples) {
        Ok(bytes) => Ok(bytes),
        Err(_) => Err(PipelineError::Serialization),
    }
}

/// Reads raw matches from their persisted form. Bytes that do not begin with
/// an encoding are refused, and so is an identifier too large for this
/// machine.
pub fn decode_matches(bytes: &[u8]) -> (r: Result<Vec<RawMatch>, PipelineError>)
    ensures
        r matches Ok(matches) ==> decoded_matches(bytes@) == Some(matches@),
        r is Err ==> decoded_matches(bytes@) is None,
        r matches Err(e) ==> e == PipelineError::Serialization,
{
    let triples = match deserialize_triples(bytes) {
        Ok(triples) => triples,
        Err(_) => {
            return Err(PipelineError::Serialization);
        },
    };
    proof {
        let chosen = choose|found: Seq<Triple>| decodes_to(bytes@, found);
        lemma_decoding_unique(bytes@, chosen, triples@);
    }
    let n = triples.len();
    let mut matches: Vec<RawMatch> = Vec::new();
    let mut i: usize = 0;
    while i < n
        invariant
            n == triples.len(),
            i <= n,
            decoded(bytes@) == Some(triples@),
            forall|j: int| 0 <= j < i ==> (#[trigger] triples[j]).0 <= usize::MAX && triples[j].1 <= usize::MAX,
            matches@ == triples@.take(i as int).map_values(|t: Triple| (t.0 as usize, t.1 as usize, t.2)),
        decreases n - i,
    {
        let (path_idx, line_num, position) = triples[i];
        if path_idx > usize::MAX as u64 || line_num > usize::MAX as u64 {
            return Err(PipelineError::Serialization);
        }
        matches.push((path_idx as usize, line_num as usize, position));
        proof {
            let f = |t: Triple| (t.0 as usize, t.1 as usize, t.2);
            assert(triples@.take(i + 1).map_values(f) =~= triples@.take(i as int).map_values(f).push(f(triples[i as int])));
        }
        i += 1;
    }
    proof {
        assert(triples@.take(n as int) =~= triples@);
    }
    Ok(matches)
}

/// Writes contamination records in their persisted form. This always
/// succeeds.
pub fn encode_records(records: &Vec<ContaminationRecord>) -> (r: Result<Vec<u8>, PipelineError>)
    ensures
        r is Ok,
        r matches Ok(bytes) ==> bytes@ == record_encoding(records@),
{
    let n = records.len();
    let mut triples: Vec<Triple> = Vec::new();
    let mut i: usize = 0;
    while i < n
        invariant
            n == records.len(),
            i <= n,
            triples@ == records@.take(i as int).map_values(|record: ContaminationRecord| record_triple(record)),
        decreases n - i,
    {
        let (val_doc_id, path_idx, line_num) = records[i];
        triples.push((val_doc_id as u64, path_idx as u64, line_num as u64));
        proof {
            let f = |record: ContaminationRecord| record_triple(record);
            assert(records@.take(i + 1).map_values(f) =~= records@.take(i as int).map_values(f).push(f(records[i as int])));
        }
        i += 1;
    }
    proof {
        assert(records@.take(n as int) =~= records@);
    }
    match serialize_triples(&triples) {
        Ok(bytes) => Ok(bytes),
        Err(_) => Err(PipelineError::Serialization),
    }
}

/// Reads contamination records from their persisted form. Bytes that do not
/// begin with an encoding are refused, and so is an identifier too large for
/// this machine.
pub fn decode_records(bytes: &[u8]) -> (r: Result<Vec<ContaminationRecord>, PipelineError>)
    ensures
        r matches Ok(records) ==> decoded_records(bytes@) == Some(records@),
        r is Err ==> decoded_records(bytes@) is None,
        r matches Err(e) ==> e == PipelineError::Serialization,
{
    let triples = match deserialize_triples(bytes) {
        Ok(triples) => triples,
        Err(_) => {
            return Err(PipelineError::Serialization);
        },
    };
    proof {
        let chosen = choose|found: Seq<Triple>| decodes_to(bytes@, found);
        lemma_decoding_unique(bytes@, chosen, triples@);
    }
    let n = triples.len();
    let mut records: Vec<ContaminationRecord> = Vec::new();
    let mut i: usize = 0;
    while i < n
        invariant
            n == triples.len(),
            i <= n,
            decoded(bytes@) == Some(triples@),
            forall|j: int|
                0 <= j < i ==> (#[trigger] triples[j]).0 <= usize::MAX && triples[j].1 <= usize::MAX && triples[j].2
                    <= usize::MAX,
            records@ == triples@.take(i as int).map_values(|t: Triple| (t.0 as usize, t.1 as usize, t.2 as usize)),
        decreases n - i,
    {
        let (val_doc_id, path_idx, line_num) = triples[i];
        if val_doc_id > usize::MAX as u64 || path_idx > usize::MAX as u64 || line_num > usize::MAX as u64 {
            return Err(PipelineError::Serialization);
        }
        records.push((val_doc_id as usize, path_idx as usize, line_num as usize));
        proof {
            let f = |t: Triple| (t.0 as usize, t.1 as usize, t.2 as usize);
            assert(triples@.take(i + 1).map_values(f) =~= triples@.take(i as int).map_values(f).push(f(triples[i as int])));
        }
        i += 1;
    }
    proof {
        assert(triples@.take(n as int) =~= triples@);
    }
    Ok(records)
}

} // verus!
