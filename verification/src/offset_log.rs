//! The offset log reader: a restartable sequence of framed entries read
//! from a byte stream.
//!
//! A frame is a 32-bit little-endian length, that many data bytes, and
//! the same length again. An entry's sequence number is the byte offset
//! of its frame's start. Fewer than four bytes left is the end of the
//! log; a truncated frame, or a frame whose two lengths disagree, is
//! corruption, terminal for the reader, because frame boundaries past a
//! corrupt point cannot be trusted.

use vstd::prelude::*;

use crate::LogError;
use crate::payload::copy_range;
use crate::payload::le32;

verus! {

broadcast use vstd::std_specs::vec::group_vec_axioms;

/// One entry read from the log: the byte offset of its frame's start and
/// its data bytes.
#[derive(Debug, PartialEq)]
pub struct LogEntry {
    pub sequence: u64,
    pub data: Vec<u8>,
}

/// The entries' mathematical shape: offset and data of each, in order.
pub open spec fn entry_models(s: Seq<LogEntry>) -> Seq<(nat, Seq<u8>)> {
    s.map_values(|e: LogEntry| (e.sequence as nat, e.data@))
}

/// The reader's view of a result.
pub open spec fn log_result_model(r: Result<Vec<LogEntry>, LogError>) -> Result<
    Seq<(nat, Seq<u8>)>,
    LogError,
> {
    match r {
        Ok(es) => Ok(entry_models(es@)),
        Err(e) => Err(e),
    }
}

/// What reading every frame from `pos` to the end must produce: each
/// entry's offset and data in stream order, ending where fewer than four
/// bytes remain; or the corruption rejection.
pub open spec fn spec_read_log(b: Seq<u8>, pos: nat) -> Result<Seq<(nat, Seq<u8>)>, LogError>
    decreases b.len() - pos,
{
    if pos + 4 > b.len() {
        Ok(Seq::empty())
    } else {
        let n = le32(b[pos as int], b[pos as int + 1], b[pos as int + 2], b[pos as int + 3]) as nat;
        if pos + 8 + n > b.len() {
            Err(LogError::CorruptLog)
        } else {
            let suffix = le32(
                b[pos as int + 4 + n],
                b[pos as int + 5 + n],
                b[pos as int + 6 + n],
                b[pos as int + 7 + n],
            ) as nat;
            if suffix != n {
                Err(LogError::CorruptLog)
            } else {
                let data = b.subrange(pos as int + 4, pos as int + 4 + n);
                match spec_read_log(b, (pos + 8 + n) as nat) {
                    Err(e) => Err(e),
                    Ok(rest) => Ok(seq![(pos, data)] + rest),
                }
            }
        }
    }
}

/// Reads every frame from byte offset `start` to the end of the stream.
/// `start` must be a frame boundary for the result to mean anything;
/// reading reproduces exactly what [`spec_read_log`] says, entry for
/// entry, and fails with `CorruptLog` exactly on a truncated frame or a
/// length mismatch.
#[verifier::loop_isolation(false)]
pub fn read_entries(log: &Vec<u8>, start: usize) -> (r: Result<Vec<LogEntry>, LogError>)
    ensures
        log_result_model(r) == spec_read_log(log@, start as nat),
{
    let mut out: Vec<LogEntry> = Vec::new();
    let mut pos: usize = start;
    proof {
        assert(entry_models(out@) =~= Seq::<(nat, Seq<u8>)>::empty());
        if spec_read_log(log@, pos as nat) is Ok {
            assert(Seq::<(nat, Seq<u8>)>::empty() + spec_read_log(log@, pos as nat)->Ok_0
                =~= spec_read_log(log@, pos as nat)->Ok_0);
        }
    }
    while log.len() >= 4 && pos <= log.len() - 4
        invariant
            pos >= start,
            spec_read_log(log@, pos as nat) is Ok ==> spec_read_log(log@, start as nat) == Ok::<
                _,
                LogError,
            >(entry_models(out@) + spec_read_log(log@, pos as nat)->Ok_0),
            spec_read_log(log@, pos as nat) is Err ==> spec_read_log(log@, start as nat) == Err::<
                Seq<(nat, Seq<u8>)>,
                _,
            >(spec_read_log(log@, pos as nat)->Err_0),
        decreases log.len() - pos,
    {
        let n: u32 = (log[pos] as u32) | ((log[pos + 1] as u32) << 8) | ((log[pos + 2]
            as u32) << 16) | ((log[pos + 3] as u32) << 24);
        let nn: usize = n as usize;
        if log.len() - pos < 8 || log.len() - pos - 8 < nn {
            return Err(LogError::CorruptLog);
        }
        let suffix: u32 = (log[pos + 4 + nn] as u32) | ((log[pos + 5 + nn] as u32) << 8) | ((log[
            pos + 6 + nn] as u32) << 16) | ((log[pos + 7 + nn] as u32) << 24);
        if suffix != n {
            return Err(LogError::CorruptLog);
        }
        let data = copy_range(log, pos + 4, pos + 4 + nn);
        let ghost old_out = out@;
        out.push(LogEntry { sequence: pos as u64, data });
        proof {
            assert(entry_models(out@) =~= entry_models(old_out) + seq![
                (pos as nat, log@.subrange(pos as int + 4, pos as int + 4 + nn as int)),
            ]);
            let tail = spec_read_log(log@, (pos + 8 + nn) as nat);
            if tail is Ok {
                assert((entry_models(old_out) + seq![
                    (pos as nat, log@.subrange(pos as int + 4, pos as int + 4 + nn as int)),
                ]) + tail->Ok_0 =~= entry_models(old_out) + (seq![
                    (pos as nat, log@.subrange(pos as int + 4, pos as int + 4 + nn as int)),
                ] + tail->Ok_0));
            }
        }
        pos = pos + 8 + nn;
    }
    proof {
        assert(spec_read_log(log@, pos as nat) == Ok::<_, LogError>(Seq::<(nat, Seq<u8>)>::empty()));
        assert(entry_models(out@) + Seq::<(nat, Seq<u8>)>::empty() =~= entry_models(out@));
    }
    Ok(out)
}

/// The entries of `es` whose sequence is at least `min`, in order.
pub open spec fn entries_above(es: Seq<(nat, Seq<u8>)>, min: nat) -> Seq<(nat, Seq<u8>)>
    decreases es,
{
    if es.len() == 0 {
        Seq::empty()
    } else if es[0].0 >= min {
        seq![es[0]] + entries_above(es.drop_first(), min)
    } else {
        entries_above(es.drop_first(), min)
    }
}

/// The entries of `es` whose sequence is at most `max`, in order.
pub open spec fn entries_upto(es: Seq<(nat, Seq<u8>)>, max: nat) -> Seq<(nat, Seq<u8>)>
    decreases es,
{
    if es.len() == 0 {
        Seq::empty()
    } else if es[0].0 <= max {
        seq![es[0]] + entries_upto(es.drop_first(), max)
    } else {
        entries_upto(es.drop_first(), max)
    }
}

/// Every entry read from `pos` on sits at offset `pos` or later, and
/// offsets strictly increase along the sequence.
pub proof fn lemma_read_log_sorted(b: Seq<u8>, pos: nat)
    ensures
        spec_read_log(b, pos) matches Ok(es) ==> forall|i: int|
            0 <= i < es.len() ==> (#[trigger] es[i]).0 >= pos,
        spec_read_log(b, pos) matches Ok(es) ==> forall|i: int, j: int|
            0 <= i < j < es.len() ==> (#[trigger] es[i]).0 < (#[trigger] es[j]).0,
    decreases b.len() - pos,
{
    if pos + 4 > b.len() {
    } else {
        let n = le32(b[pos as int], b[pos as int + 1], b[pos as int + 2], b[pos as int + 3]) as nat;
        if pos + 8 + n <= b.len() {
            lemma_read_log_sorted(b, (pos + 8 + n) as nat);
            if spec_read_log(b, pos) is Ok {
                let es = spec_read_log(b, pos)->Ok_0;
                let rest = spec_read_log(b, (pos + 8 + n) as nat)->Ok_0;
                assert forall|i: int| 0 <= i < es.len() implies (#[trigger] es[i]).0 >= pos by {
                    if i > 0 {
                        assert(es[i] == rest[i - 1]);
                    }
                }
                assert forall|i: int, j: int|
                    0 <= i < j < es.len() implies (#[trigger] es[i]).0 < (#[trigger] es[j]).0 by {
                    assert(es[j] == rest[j - 1]);
                    if i > 0 {
                        assert(es[i] == rest[i - 1]);
                    } else {
                        assert(rest[j - 1].0 >= pos + 8 + n);
                    }
                }
            }
        }
    }
}

/// Entries all above `l` have an empty `entries_upto(_, l)`.
proof fn lemma_entries_upto_empty(es: Seq<(nat, Seq<u8>)>, l: nat)
    requires
        forall|i: int| 0 <= i < es.len() ==> (#[trigger] es[i]).0 > l,
    ensures
        entries_upto(es, l) =~= Seq::<(nat, Seq<u8>)>::empty(),
    decreases es,
{
    if es.len() != 0 {
        assert(es[0].0 > l);
        assert forall|i: int|
            0 <= i < es.drop_first().len() implies (#[trigger] es.drop_first()[i]).0 > l by {
            assert(es.drop_first()[i] == es[i + 1]);
        }
        lemma_entries_upto_empty(es.drop_first(), l);
    }
}

/// Law: for a sorted sequence of entries, those already indexed (sequence
/// at most `l`) and those a reader resumed at `l + 1` yields (sequence
/// above `l`) partition the whole sequence in order: no duplicate, no
/// gap.
pub proof fn lemma_resume_partition(es: Seq<(nat, Seq<u8>)>, l: nat)
    requires
        forall|i: int, j: int|
            0 <= i < j < es.len() ==> (#[trigger] es[i]).0 < (#[trigger] es[j]).0,
    ensures
        entries_upto(es, l) + entries_above(es, l + 1) == es,
    decreases es,
{
    if es.len() == 0 {
        assert(entries_upto(es, l) + entries_above(es, l + 1) =~= es);
    } else {
        assert forall|i: int, j: int|
            0 <= i < j < es.drop_first().len() implies (#[trigger] es.drop_first()[i]).0 < (
        #[trigger] es.drop_first()[j]).0 by {
            assert(es.drop_first()[i] == es[i + 1]);
            assert(es.drop_first()[j] == es[j + 1]);
        }
        lemma_resume_partition(es.drop_first(), l);
        if es[0].0 <= l {
            assert((seq![es[0]] + entries_upto(es.drop_first(), l)) + entries_above(
                es.drop_first(),
                l + 1,
            ) =~= seq![es[0]] + (entries_upto(es.drop_first(), l) + entries_above(
                es.drop_first(),
                l + 1,
            )));
            assert(seq![es[0]] + es.drop_first() =~= es);
        } else {
            assert forall|i: int|
                0 <= i < es.drop_first().len() implies (#[trigger] es.drop_first()[i]).0 > l by {
                assert(es.drop_first()[i] == es[i + 1]);
                assert(es[0].0 < es[i + 1].0);
            }
            lemma_entries_upto_empty(es.drop_first(), l);
            assert(entries_upto(es, l) =~= entries_upto(es.drop_first(), l));
            assert(seq![es[0]] + entries_above(es.drop_first(), l + 1) =~= es);
            assert(Seq::<(nat, Seq<u8>)>::empty() + (seq![es[0]] + entries_above(
                es.drop_first(),
                l + 1,
            )) =~= seq![es[0]] + entries_above(es.drop_first(), l + 1));
        }
    }
}

/// Reads the whole stream and keeps only the entries whose sequence is at
/// least `min_seq`: resuming after partial indexing with `min_seq` one
/// past the latest indexed sequence yields exactly the entries not yet
/// indexed.
#[verifier::loop_isolation(false)]
pub fn read_entries_since(log: &Vec<u8>, min_seq: u64) -> (r: Result<Vec<LogEntry>, LogError>)
    ensures
        r matches Ok(es) ==> spec_read_log(log@, 0) matches Ok(all) && entry_models(es@)
            == entries_above(all, min_seq as nat),
        r matches Err(e) ==> spec_read_log(log@, 0) == Err::<Seq<(nat, Seq<u8>)>, _>(e),
{
    let all = match read_entries(log, 0) {
        Err(e) => {
            return Err(e);
        },
        Ok(v) => v,
    };
    let ghost ems = entry_models(all@);
    let mut out: Vec<LogEntry> = Vec::new();
    let mut i: usize = 0;
    proof {
        assert(ems.skip(0) =~= ems);
        assert(entry_models(out@) =~= Seq::<(nat, Seq<u8>)>::empty());
        assert(Seq::<(nat, Seq<u8>)>::empty() + entries_above(ems, min_seq as nat)
            =~= entries_above(ems, min_seq as nat));
    }
    while i < all.len()
        invariant
            0 <= i <= all.len(),
            entries_above(ems, min_seq as nat) == entry_models(out@) + entries_above(
                ems.skip(i as int),
                min_seq as nat,
            ),
        decreases all.len() - i,
    {
        proof {
            assert(ems.skip(i as int)[0] == (all@[i as int].sequence as nat, all@[i as int].data@));
            assert(ems.skip(i as int).drop_first() =~= ems.skip(i as int + 1));
        }
        let e = &all[i];
        if e.sequence >= min_seq {
            let data = copy_range(&e.data, 0, e.data.len());
            let ghost old_out = out@;
            out.push(LogEntry { sequence: e.sequence, data });
            proof {
                assert(e.data@.subrange(0, e.data@.len() as int) =~= e.data@);
                assert(entry_models(out@) =~= entry_models(old_out) + seq![
                    (e.sequence as nat, e.data@),
                ]);
                assert((entry_models(old_out) + seq![(e.sequence as nat, e.data@)])
                    + entries_above(ems.skip(i as int + 1), min_seq as nat) =~= entry_models(
                    old_out,
                ) + (seq![(e.sequence as nat, e.data@)] + entries_above(
                    ems.skip(i as int + 1),
                    min_seq as nat,
                )));
            }
        }
        i = i + 1;
    }
    proof {
        assert(ems.skip(all@.len() as int) =~= Seq::<(nat, Seq<u8>)>::empty());
        assert(entry_models(out@) + Seq::<(nat, Seq<u8>)>::empty() =~= entry_models(out@));
    }
    Ok(out)
}

/// The four little-endian bytes of a 32-bit length.
pub open spec fn le32_bytes(n: u32) -> Seq<u8> {
    seq![
        (n & 0xff) as u8,
        ((n >> 8) & 0xff) as u8,
        ((n >> 16) & 0xff) as u8,
        ((n >> 24) & 0xff) as u8,
    ]
}

/// One frame: the data's length, the data, the length again.
pub open spec fn spec_frame(data: Seq<u8>) -> Seq<u8> {
    le32_bytes(data.len() as u32) + data + le32_bytes(data.len() as u32)
}

/// A stream of frames laid out contiguously.
pub open spec fn spec_frames(datas: Seq<Seq<u8>>) -> Seq<u8>
    decreases datas,
{
    if datas.len() == 0 {
        Seq::empty()
    } else {
        spec_frame(datas[0]) + spec_frames(datas.drop_first())
    }
}

/// The entries a reader must produce from frames of `datas` starting at
/// offset `pos`: each datum at its cumulative byte offset.
pub open spec fn expected_entries(datas: Seq<Seq<u8>>, pos: nat) -> Seq<(nat, Seq<u8>)>
    decreases datas,
{
    if datas.len() == 0 {
        Seq::empty()
    } else {
        seq![(pos, datas[0])] + expected_entries(
            datas.drop_first(),
            (pos + 8 + datas[0].len()) as nat,
        )
    }
}

proof fn lemma_le32_bytes_roundtrip(n: u32)
    ensures
        le32(
            (n & 0xff) as u8,
            ((n >> 8) & 0xff) as u8,
            ((n >> 16) & 0xff) as u8,
            ((n >> 24) & 0xff) as u8,
        ) == n,
{
    assert(((((n & 0xff) as u8) as u32) | ((((n >> 8) & 0xff) as u8) as u32) << 8 | ((((n >> 16)
        & 0xff) as u8) as u32) << 16 | ((((n >> 24) & 0xff) as u8) as u32) << 24) == n)
        by (bit_vector);
}

/// Law: reading a stream of well-sized frames from its start reproduces
/// the original data, in order, each entry's sequence the cumulative byte
/// offset of its frame.
pub proof fn lemma_read_frames(b: Seq<u8>, datas: Seq<Seq<u8>>, pos: nat)
    requires
        forall|i: int| 0 <= i < datas.len() ==> (#[trigger] datas[i]).len() <= u32::MAX - 8,
        b.len() == pos + spec_frames(datas).len(),
        b.skip(pos as int) == spec_frames(datas),
    ensures
        spec_read_log(b, pos) == Ok::<_, LogError>(expected_entries(datas, pos)),
    decreases datas,
{
    if datas.len() == 0 {
        assert(pos + 4 > b.len());
    } else {
        let d = datas[0];
        let frame = spec_frame(d);
        let rest = spec_frames(datas.drop_first());
        assert(b.skip(pos as int) == frame + rest);
        let flen = frame.len();
        assert(flen == 8 + d.len());
        assert forall|k: int| 0 <= k < flen implies b[pos + k] == frame[k] by {
            assert(b.skip(pos as int)[k] == b[pos + k]);
        }
        let m = d.len() as u32;
        assert(m as nat == d.len());
        lemma_le32_bytes_roundtrip(m);
        let lb = le32_bytes(m);
        assert((lb + d).len() == 4 + d.len());
        assert forall|k: int| 0 <= k < 4 implies frame[k] == lb[k] by {
            assert(frame[k] == (lb + d)[k]);
        }
        assert forall|k: int| 0 <= k < 4 implies frame[4 + d.len() + k] == lb[k] by {
            assert(frame[4 + d.len() + k] == lb[4 + d.len() + k - (4 + d.len())]);
        }
        assert(b[pos as int] == lb[0]);
        assert(b[pos as int + 1] == lb[1]);
        assert(b[pos as int + 2] == lb[2]);
        assert(b[pos as int + 3] == lb[3]);
        assert(le32(lb[0], lb[1], lb[2], lb[3]) == m);
        let n = le32(b[pos as int], b[pos as int + 1], b[pos as int + 2], b[pos as int + 3]) as nat;
        assert(n == d.len());
        assert(pos + 8 + n <= b.len());
        assert(b[pos as int + 4 + n] == lb[0]);
        assert(b[pos as int + 5 + n] == lb[1]);
        assert(b[pos as int + 6 + n] == lb[2]);
        assert(b[pos as int + 7 + n] == lb[3]);
        let suffix = le32(
            b[pos as int + 4 + n],
            b[pos as int + 5 + n],
            b[pos as int + 6 + n],
            b[pos as int + 7 + n],
        ) as nat;
        assert(suffix == n);
        assert(b.subrange(pos as int + 4, pos as int + 4 + n) =~= d) by {
            assert forall|k: int| 0 <= k < d.len() implies b[pos + 4 + k] == d[k] by {
                assert(frame[4 + k] == (lb + d)[4 + k]);
                assert((lb + d)[4 + k] == d[k]);
            }
        }
        assert(b.skip(pos as int + 8 + n) =~= rest) by {
            assert forall|k: int| 0 <= k < rest.len() implies b.skip(pos as int + 8 + n)[k]
                == rest[k] by {
                assert(b.skip(pos as int)[flen + k] == b[pos + flen + k]);
                assert((frame + rest)[flen + k] == rest[k]);
            }
        }
        lemma_read_frames(b, datas.drop_first(), (pos + 8 + n) as nat);
        assert(spec_read_log(b, pos) == Ok::<_, LogError>(
            seq![(pos, d)] + expected_entries(datas.drop_first(), (pos + 8 + d.len()) as nat),
        ));
    }
}

} // verus!
