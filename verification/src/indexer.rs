//! The relational indexer: consumes batches of framed log entries,
//! decrypts and decodes each, extracts the indexable fields, and keeps
//! queryable tables together with the `latest` cursor.
//!
//! A batch commits as a whole or not at all: any entry whose decoding
//! fails aborts the batch with the offending sequence, and the view is
//! left exactly as before the call. Entries at or below the `latest`
//! cursor are skipped, so re-submitting an already indexed batch changes
//! nothing.

use vstd::prelude::*;

use crate::BatchError;
use crate::DecodeError;
use crate::boxes::SecretKey;
use crate::boxes::key_views;
use crate::boxes::spec_try_decrypt;
use crate::boxes::try_decrypt;
use crate::codec::LegacyModel;
use crate::codec::LegacyValue;
use crate::codec::decode_value;
use crate::codec::group_codec_models;
use crate::codec::legacy_entry_models;
use crate::codec::legacy_model;
use crate::codec::spec_decode;
use crate::offset_log::LogEntry;
use crate::offset_log::entry_models;
use crate::payload::parse_payload;
use crate::payload::spec_parse_payload;

verus! {

broadcast use vstd::std_specs::vec::group_vec_axioms;

/// One indexed message: the extracted fields of one decoded log entry.
#[derive(Debug, PartialEq)]
pub struct Row {
    pub sequence: u64,
    pub author: String,
    pub message_type: String,
    /// IEEE-754 bit pattern of the message's timestamp.
    pub timestamp: u64,
    /// The message identifiers the content links to, in scan order.
    pub links: Vec<String>,
    /// Whether the entry had to be decrypted to be read.
    pub decrypted: bool,
}

/// The mathematical shape of a [`Row`].
#[verifier::ext_equal]
pub struct RowModel {
    pub sequence: nat,
    pub author: Seq<char>,
    pub message_type: Seq<char>,
    pub timestamp: u64,
    pub links: Seq<Seq<char>>,
    pub decrypted: bool,
}

pub open spec fn string_views(s: Seq<String>) -> Seq<Seq<char>> {
    s.map_values(|x: String| x@)
}

pub open spec fn row_model(r: Row) -> RowModel {
    RowModel {
        sequence: r.sequence as nat,
        author: r.author@,
        message_type: r.message_type@,
        timestamp: r.timestamp,
        links: string_views(r.links@),
        decrypted: r.decrypted,
    }
}

pub open spec fn row_models(s: Seq<Row>) -> Seq<RowModel> {
    s.map_values(|r: Row| row_model(r))
}

impl View for Row {
    type V = RowModel;

    open spec fn view(&self) -> RowModel {
        row_model(*self)
    }
}

/// Whether a string is shaped like a message reference: the legacy
/// message-identifier sigil `%` in first position.
pub open spec fn spec_is_link(s: Seq<char>) -> bool {
    s.len() >= 1 && s[0] == '%'
}

/// The identifier-shaped strings found by a depth-first scan of a value.
pub open spec fn spec_links(m: LegacyModel) -> Seq<Seq<char>>
    decreases m,
{
    match m {
        LegacyModel::Str(s) => if spec_is_link(s) {
            seq![s]
        } else {
            Seq::empty()
        },
        LegacyModel::Arr(elems) => spec_links_list(elems),
        LegacyModel::Obj(entries) => spec_links_entries(entries),
        _ => Seq::empty(),
    }
}

pub open spec fn spec_links_list(s: Seq<LegacyModel>) -> Seq<Seq<char>>
    decreases s,
{
    if s.len() == 0 {
        Seq::empty()
    } else {
        spec_links(s[0]) + spec_links_list(s.drop_first())
    }
}

pub open spec fn spec_links_entries(s: Seq<(Seq<char>, LegacyModel)>) -> Seq<Seq<char>>
    decreases s,
{
    if s.len() == 0 {
        Seq::empty()
    } else {
        spec_links(s[0].1) + spec_links_entries(s.drop_first())
    }
}

/// The value under the first entry with the given key, if any.
pub open spec fn spec_lookup(s: Seq<(Seq<char>, LegacyModel)>, key: Seq<char>) -> Option<
    LegacyModel,
>
    decreases s,
{
    if s.len() == 0 {
        None
    } else if s[0].0 == key {
        Some(s[0].1)
    } else {
        spec_lookup(s.drop_first(), key)
    }
}

/// What extracting the indexable fields from a decoded entry must
/// produce: the envelope must be a mapping whose `author` and `type` are
/// strings and whose `timestamp` is a number; the links are the
/// identifier-shaped strings found under `content`. Anything else is
/// rejected as `MalformedPayload`.
pub open spec fn spec_extract(seq_no: nat, m: LegacyModel, decrypted: bool) -> Result<
    RowModel,
    DecodeError,
> {
    match m {
        LegacyModel::Obj(entries) => {
            match spec_lookup(entries, "author"@) {
                Some(LegacyModel::Str(author)) => match spec_lookup(entries, "type"@) {
                    Some(LegacyModel::Str(ty)) => match spec_lookup(entries, "timestamp"@) {
                        Some(LegacyModel::Num(ts)) => Ok(
                            RowModel {
                                sequence: seq_no,
                                author: author,
                                message_type: ty,
                                timestamp: ts,
                                links: match spec_lookup(entries, "content"@) {
                                    Some(c) => spec_links(c),
                                    None => Seq::empty(),
                                },
                                decrypted: decrypted,
                            },
                        ),
                        _ => Err(DecodeError::MalformedPayload),
                    },
                    _ => Err(DecodeError::MalformedPayload),
                },
                _ => Err(DecodeError::MalformedPayload),
            }
        },
        _ => Err(DecodeError::MalformedPayload),
    }
}

/// What processing one raw entry must produce: decrypt against the keys,
/// parse the resulting bytes, convert them through the legacy codec, and
/// extract the row.
pub open spec fn spec_process_entry(keys: Seq<Seq<u8>>, seq_no: nat, raw: Seq<u8>) -> Result<
    RowModel,
    DecodeError,
> {
    let plain = spec_try_decrypt(keys, raw).0;
    let decrypted = spec_try_decrypt(keys, raw).1;
    match spec_parse_payload(plain) {
        Err(e) => Err(e),
        Ok(vm) => match spec_decode(vm) {
            Err(e) => Err(e),
            Ok(lm) => spec_extract(seq_no, lm, decrypted),
        },
    }
}

/// What one batch must do, given the latest indexed sequence: skip every
/// entry at or below it, process the rest in order, and either yield the
/// appended rows with the new cursor, or the first failure with its
/// sequence.
pub open spec fn spec_batch(
    latest: Option<nat>,
    keys: Seq<Seq<u8>>,
    entries: Seq<(nat, Seq<u8>)>,
) -> Result<(Seq<RowModel>, Option<nat>), (nat, DecodeError)>
    decreases entries,
{
    if entries.len() == 0 {
        Ok((Seq::empty(), latest))
    } else {
        let sq = entries[0].0;
        if latest matches Some(l) && sq <= l {
            spec_batch(latest, keys, entries.drop_first())
        } else {
            match spec_process_entry(keys, sq, entries[0].1) {
                Err(e) => Err((sq, e)),
                Ok(row) => match spec_batch(Some(sq), keys, entries.drop_first()) {
                    Err(e) => Err(e),
                    Ok((rest, lat)) => Ok((seq![row] + rest, lat)),
                },
            }
        }
    }
}

/// Total order of two doubles given by their IEEE-754 bit patterns, for
/// patterns that pass the legacy float predicate: negatives before
/// positives, positives by magnitude, negatives by magnitude reversed.
pub open spec fn f64_bits_le(a: u64, b: u64) -> bool {
    if (a >> 63) == 1 && (b >> 63) == 0 {
        true
    } else if (a >> 63) == 0 && (b >> 63) == 1 {
        false
    } else if (a >> 63) == 0 {
        a <= b
    } else {
        a >= b
    }
}

/// The sequences of the rows whose message type is `t`, in row order.
pub open spec fn spec_seqs_by_type(rows: Seq<RowModel>, t: Seq<char>) -> Seq<nat>
    decreases rows,
{
    if rows.len() == 0 {
        Seq::empty()
    } else {
        (if rows[0].message_type == t {
            seq![rows[0].sequence]
        } else {
            Seq::empty()
        }) + spec_seqs_by_type(rows.drop_first(), t)
    }
}

/// The sequences of the rows whose author is `a`, in row order.
pub open spec fn spec_seqs_by_author(rows: Seq<RowModel>, a: Seq<char>) -> Seq<nat>
    decreases rows,
{
    if rows.len() == 0 {
        Seq::empty()
    } else {
        (if rows[0].author == a {
            seq![rows[0].sequence]
        } else {
            Seq::empty()
        }) + spec_seqs_by_author(rows.drop_first(), a)
    }
}

/// The sequences of the rows that link to `id` with a timestamp at or
/// above `since`, in row order.
pub open spec fn spec_back_links(rows: Seq<RowModel>, id: Seq<char>, since: u64) -> Seq<nat>
    decreases rows,
{
    if rows.len() == 0 {
        Seq::empty()
    } else {
        (if rows[0].links.contains(id) && f64_bits_le(since, rows[0].timestamp) {
            seq![rows[0].sequence]
        } else {
            Seq::empty()
        }) + spec_back_links(rows.drop_first(), id, since)
    }
}

pub open spec fn seq_nats(s: Seq<u64>) -> Seq<nat> {
    s.map_values(|x: u64| x as nat)
}

/// The relational view over an offset log: keys for the decryption
/// stage, the opaque filter expression forwarded from construction, the
/// `latest` cursor, and the indexed rows.
pub struct FlumeViewSql {
    keys: Vec<SecretKey>,
    filter: String,
    any_indexed: bool,
    latest_seq: u64,
    rows: Vec<Row>,
}

impl FlumeViewSql {
    /// The views of the keys the indexer decrypts with.
    pub closed spec fn keys_model(&self) -> Seq<Seq<u8>> {
        key_views(self.keys@)
    }

    /// The indexed rows, in indexing order.
    pub closed spec fn rows_model(&self) -> Seq<RowModel> {
        row_models(self.rows@)
    }

    /// The `latest` cursor: the highest indexed sequence, or nothing
    /// when nothing was ever indexed.
    pub closed spec fn latest_model(&self) -> Option<nat> {
        if self.any_indexed {
            Some(self.latest_seq as nat)
        } else {
            None
        }
    }

    /// The stored filter expression.
    pub closed spec fn filter_model(&self) -> Seq<char> {
        self.filter@
    }

    /// A fresh view: nothing indexed, cursor unset.
    pub fn new(keys: Vec<SecretKey>, filter_expression: String) -> (r: FlumeViewSql)
        ensures
            r.keys_model() == key_views(keys@),
            r.rows_model() =~= Seq::<RowModel>::empty(),
            r.latest_model() is None,
            r.filter_model() == filter_expression@,
    {
        let r = FlumeViewSql {
            keys,
            filter: filter_expression,
            any_indexed: false,
            latest_seq: 0,
            rows: Vec::new(),
        };
        proof {
            assert(row_models(r.rows@) =~= Seq::<RowModel>::empty());
        }
        r
    }

    /// The highest sequence successfully indexed, `0` when nothing was.
    pub fn latest(&self) -> (r: u64)
        ensures
            r as nat == match self.latest_model() {
                Some(l) => l,
                None => 0,
            },
    {
        if self.any_indexed {
            self.latest_seq
        } else {
            0
        }
    }

    /// Indexes one ordered batch of log entries, transactionally: on
    /// success every entry above the old cursor is appended as a row and
    /// the cursor advances to the batch's highest sequence; on the first
    /// decoding failure nothing changes at all and the offending
    /// sequence comes back with the cause.
    #[verifier::loop_isolation(false)]
    pub fn append_batch(&mut self, entries: Vec<LogEntry>) -> (r: Result<(), BatchError>)
        requires
            forall|i: int, j: int|
                0 <= i < j < entries@.len() ==> (#[trigger] entries@[i]).sequence < (
                #[trigger] entries@[j]).sequence,
        ensures
            final(self).keys_model() == old(self).keys_model(),
            final(self).filter_model() == old(self).filter_model(),
            r matches Ok(()) ==> spec_batch(
                old(self).latest_model(),
                old(self).keys_model(),
                entry_models(entries@),
            ) matches Ok(step) && final(self).rows_model() == old(self).rows_model() + step.0
                && final(self).latest_model() == step.1,
            r matches Err(be) ==> *final(self) == *old(self) && spec_batch(
                old(self).latest_model(),
                old(self).keys_model(),
                entry_models(entries@),
            ) == Err::<(Seq<RowModel>, Option<nat>), _>((be.sequence as nat, be.cause)),
    {
        let ghost ems = entry_models(entries@);
        let ghost lat0 = self.latest_model();
        let mut new_rows: Vec<Row> = Vec::new();
        let mut any: bool = self.any_indexed;
        let mut lat: u64 = self.latest_seq;
        let mut i: usize = 0;
        let n = entries.len();
        let mut entries = entries;
        proof {
            assert(ems.skip(0) =~= ems);
            assert(row_models(new_rows@) =~= Seq::<RowModel>::empty());
            if spec_batch(lat0, self.keys_model(), ems) is Ok {
                assert(Seq::<RowModel>::empty() + spec_batch(lat0, self.keys_model(), ems)->Ok_0.0
                    =~= spec_batch(lat0, self.keys_model(), ems)->Ok_0.0);
            }
        }
        while i < n
            invariant
                0 <= i <= n,
                n == entries@.len(),
                entry_models(entries@) == ems,
                spec_batch(
                    if any {
                        Some(lat as nat)
                    } else {
                        None
                    },
                    self.keys_model(),
                    ems.skip(i as int),
                ) matches Ok(step) ==> spec_batch(lat0, self.keys_model(), ems) matches Ok(whole)
                    && whole.0 == row_models(new_rows@) + step.0 && whole.1 == step.1,
                spec_batch(
                    if any {
                        Some(lat as nat)
                    } else {
                        None
                    },
                    self.keys_model(),
                    ems.skip(i as int),
                ) matches Err(e) ==> spec_batch(lat0, self.keys_model(), ems) == Err::<
                    (Seq<RowModel>, Option<nat>),
                    _,
                >(e),
            decreases n - i,
        {
            proof {
                assert(ems.skip(i as int)[0] == (
                    entries@[i as int].sequence as nat,
                    entries@[i as int].data@,
                ));
                assert(ems.skip(i as int).drop_first() =~= ems.skip(i as int + 1));
            }
            let e = &entries[i];
            let sq = e.sequence;
            if any && sq <= lat {
                i = i + 1;
                continue;
            }
            let data = crate::payload::copy_range(&e.data, 0, e.data.len());
            proof {
                assert(e.data@.subrange(0, e.data@.len() as int) =~= e.data@);
            }
            match process_entry(&self.keys, sq, data) {
                Err(cause) => {
                    return Err(BatchError { sequence: sq, cause });
                },
                Ok(row) => {
                    let ghost old_rows = new_rows@;
                    new_rows.push(row);
                    proof {
                        assert(row_models(new_rows@) =~= row_models(old_rows) + seq![
                            row_model(row),
                        ]);
                        let tail = spec_batch(
                            Some(sq as nat),
                            self.keys_model(),
                            ems.skip(i as int + 1),
                        );
                        if tail is Ok {
                            assert((row_models(old_rows) + seq![row_model(row)]) + tail->Ok_0.0
                                =~= row_models(old_rows) + (seq![row_model(row)] + tail->Ok_0.0));
                        }
                    }
                    any = true;
                    lat = sq;
                    i = i + 1;
                },
            }
        }
        proof {
            assert(ems.skip(n as int) =~= Seq::<(nat, Seq<u8>)>::empty());
            assert(row_models(new_rows@) + Seq::<RowModel>::empty() =~= row_models(new_rows@));
        }
        let ghost pre_rows = self.rows@;
        self.rows.append(&mut new_rows);
        self.any_indexed = any;
        self.latest_seq = lat;
        proof {
            assert(row_models(self.rows@) =~= row_models(pre_rows) + row_models(
                new_rows@.take(0),
            ) + spec_batch(lat0, self.keys_model(), ems)->Ok_0.0);
        }
        Ok(())
    }

    /// All indexed sequences whose message type equals the argument,
    /// ascending by sequence.
    #[verifier::loop_isolation(false)]
    pub fn get_seqs_by_type(&self, message_type: &String) -> (r: Vec<u64>)
        ensures
            seq_nats(r@) == spec_seqs_by_type(self.rows_model(), message_type@),
    {
        let ghost rm = self.rows_model();
        let mut out: Vec<u64> = Vec::new();
        let mut i: usize = 0;
        proof {
            assert(rm.skip(0) =~= rm);
            assert(seq_nats(out@) =~= Seq::<nat>::empty());
            assert(Seq::<nat>::empty() + spec_seqs_by_type(rm, message_type@) =~= spec_seqs_by_type(
                rm,
                message_type@,
            ));
        }
        while i < self.rows.len()
            invariant
                0 <= i <= self.rows@.len(),
                spec_seqs_by_type(rm, message_type@) == seq_nats(out@) + spec_seqs_by_type(
                    rm.skip(i as int),
                    message_type@,
                ),
            decreases self.rows@.len() - i,
        {
            proof {
                assert(rm.skip(i as int)[0] == row_model(self.rows@[i as int]));
                assert(rm.skip(i as int).drop_first() =~= rm.skip(i as int + 1));
            }
            let ghost old_out = out@;
            if self.rows[i].message_type == *message_type {
                out.push(self.rows[i].sequence);
                proof {
                    assert(seq_nats(out@) =~= seq_nats(old_out) + seq![
                        self.rows@[i as int].sequence as nat,
                    ]);
                    assert((seq_nats(old_out) + seq![self.rows@[i as int].sequence as nat])
                        + spec_seqs_by_type(rm.skip(i as int + 1), message_type@) =~= seq_nats(
                        old_out,
                    ) + (seq![self.rows@[i as int].sequence as nat] + spec_seqs_by_type(
                        rm.skip(i as int + 1),
                        message_type@,
                    )));
                }
            } else {
                proof {
                    assert(Seq::<nat>::empty() + spec_seqs_by_type(
                        rm.skip(i as int + 1),
                        message_type@,
                    ) =~= spec_seqs_by_type(rm.skip(i as int + 1), message_type@));
                }
            }
            i = i + 1;
        }
        proof {
            assert(rm.skip(self.rows@.len() as int) =~= Seq::<RowModel>::empty());
            assert(seq_nats(out@) + Seq::<nat>::empty() =~= seq_nats(out@));
        }
        out
    }

    /// All indexed sequences whose author equals the argument, ascending
    /// by sequence.
    #[verifier::loop_isolation(false)]
    pub fn get_seqs_by_author(&self, author: &String) -> (r: Vec<u64>)
        ensures
            seq_nats(r@) == spec_seqs_by_author(self.rows_model(), author@),
    {
        let ghost rm = self.rows_model();
        let mut out: Vec<u64> = Vec::new();
        let mut i: usize = 0;
        proof {
            assert(rm.skip(0) =~= rm);
            assert(seq_nats(out@) =~= Seq::<nat>::empty());
            assert(Seq::<nat>::empty() + spec_seqs_by_author(rm, author@) =~= spec_seqs_by_author(
                rm,
                author@,
            ));
        }
        while i < self.rows.len()
            invariant
                0 <= i <= self.rows@.len(),
                spec_seqs_by_author(rm, author@) == seq_nats(out@) + spec_seqs_by_author(
                    rm.skip(i as int),
                    author@,
                ),
            decreases self.rows@.len() - i,
        {
            proof {
                assert(rm.skip(i as int)[0] == row_model(self.rows@[i as int]));
                assert(rm.skip(i as int).drop_first() =~= rm.skip(i as int + 1));
            }
            let ghost old_out = out@;
            if self.rows[i].author == *author {
                out.push(self.rows[i].sequence);
                proof {
                    assert(seq_nats(out@) =~= seq_nats(old_out) + seq![
                        self.rows@[i as int].sequence as nat,
                    ]);
                    assert((seq_nats(old_out) + seq![self.rows@[i as int].sequence as nat])
                        + spec_seqs_by_author(rm.skip(i as int + 1), author@) =~= seq_nats(old_out)
                        + (seq![self.rows@[i as int].sequence as nat] + spec_seqs_by_author(
                        rm.skip(i as int + 1),
                        author@,
                    )));
                }
            } else {
                proof {
                    assert(Seq::<nat>::empty() + spec_seqs_by_author(
                        rm.skip(i as int + 1),
                        author@,
                    ) =~= spec_seqs_by_author(rm.skip(i as int + 1), author@));
                }
            }
            i = i + 1;
        }
        proof {
            assert(rm.skip(self.rows@.len() as int) =~= Seq::<RowModel>::empty());
            assert(seq_nats(out@) + Seq::<nat>::empty() =~= seq_nats(out@));
        }
        out
    }

    /// All indexed sequences of messages whose content links to
    /// `message_id` and whose timestamp is at or above `since` (given as
    /// IEEE-754 bits; `0` means from the beginning), ascending by
    /// sequence.
    #[verifier::loop_isolation(false)]
    pub fn back_link_references(&self, message_id: &String, since: u64) -> (r: Vec<u64>)
        ensures
            seq_nats(r@) == spec_back_links(self.rows_model(), message_id@, since),
    {
        let ghost rm = self.rows_model();
        let mut out: Vec<u64> = Vec::new();
        let mut i: usize = 0;
        proof {
            assert(rm.skip(0) =~= rm);
            assert(seq_nats(out@) =~= Seq::<nat>::empty());
            assert(Seq::<nat>::empty() + spec_back_links(rm, message_id@, since) =~= spec_back_links(
                rm,
                message_id@,
                since,
            ));
        }
        while i < self.rows.len()
            invariant
                0 <= i <= self.rows@.len(),
                spec_back_links(rm, message_id@, since) == seq_nats(out@) + spec_back_links(
                    rm.skip(i as int),
                    message_id@,
                    since,
                ),
            decreases self.rows@.len() - i,
        {
            proof {
                assert(rm.skip(i as int)[0] == row_model(self.rows@[i as int]));
                assert(rm.skip(i as int).drop_first() =~= rm.skip(i as int + 1));
            }
            let ghost old_out = out@;
            let row = &self.rows[i];
            let ts_ok: bool = if (since >> 63) == 1 && (row.timestamp >> 63) == 0 {
                true
            } else if (since >> 63) == 0 && (row.timestamp >> 63) == 1 {
                false
            } else if (since >> 63) == 0 {
                since <= row.timestamp
            } else {
                since >= row.timestamp
            };
            if ts_ok && contains_string(&row.links, message_id) {
                out.push(row.sequence);
                proof {
                    assert(seq_nats(out@) =~= seq_nats(old_out) + seq![
                        self.rows@[i as int].sequence as nat,
                    ]);
                    assert((seq_nats(old_out) + seq![self.rows@[i as int].sequence as nat])
                        + spec_back_links(rm.skip(i as int + 1), message_id@, since) =~= seq_nats(
                        old_out,
                    ) + (seq![self.rows@[i as int].sequence as nat] + spec_back_links(
                        rm.skip(i as int + 1),
                        message_id@,
                        since,
                    )));
                }
            } else {
                proof {
                    assert(Seq::<nat>::empty() + spec_back_links(
                        rm.skip(i as int + 1),
                        message_id@,
                        since,
                    ) =~= spec_back_links(rm.skip(i as int + 1), message_id@, since));
                }
            }
            i = i + 1;
        }
        proof {
            assert(rm.skip(self.rows@.len() as int) =~= Seq::<RowModel>::empty());
            assert(seq_nats(out@) + Seq::<nat>::empty() =~= seq_nats(out@));
        }
        out
    }
}

/// Whether one of the strings equals `x`.
fn contains_string(v: &Vec<String>, x: &String) -> (r: bool)
    ensures
        r == string_views(v@).contains(x@),
{
    let mut i: usize = 0;
    let mut found: bool = false;
    while i < v.len()
        invariant
            0 <= i <= v.len(),
            found == exists|j: int| 0 <= j < i && v@[j]@ == x@,
        decreases v.len() - i,
    {
        if v[i] == *x {
            found = true;
            proof {
                assert(v@[i as int]@ == x@);
            }
        }
        i = i + 1;
    }
    proof {
        let sv = string_views(v@);
        if found {
            let j = choose|j: int| 0 <= j < v@.len() && v@[j]@ == x@;
            assert(sv[j] == x@);
        }
        if sv.contains(x@) {
            let j = choose|j: int| 0 <= j < sv.len() && sv[j] == x@;
            assert(v@[j]@ == x@);
        }
    }
    found
}

/// The index of the first entry with the given key, if any.
#[verifier::loop_isolation(false)]
fn lookup_entry(entries: &Vec<(String, LegacyValue)>, key: &String) -> (r: Option<usize>)
    ensures
        r matches Some(ix) ==> ix < entries@.len() && entries@[ix as int].0@ == key@
            && spec_lookup(legacy_entry_models(entries@), key@) == Some(
            legacy_model(entries@[ix as int].1),
        ),
        r is None ==> spec_lookup(legacy_entry_models(entries@), key@) is None,
{
    broadcast use group_codec_models;

    let ghost em = legacy_entry_models(entries@);
    let mut i: usize = 0;
    proof {
        assert(em.skip(0) =~= em);
    }
    while i < entries.len()
        invariant
            0 <= i <= entries@.len(),
            spec_lookup(em.skip(i as int), key@) == spec_lookup(em, key@),
        decreases entries@.len() - i,
    {
        proof {
            assert(em.skip(i as int)[0] == (
                entries@[i as int].0@,
                legacy_model(entries@[i as int].1),
            ));
            assert(em.skip(i as int).drop_first() =~= em.skip(i as int + 1));
        }
        if entries[i].0 == *key {
            return Some(i);
        }
        i = i + 1;
    }
    proof {
        assert(em.skip(entries@.len() as int) =~= Seq::<(Seq<char>, LegacyModel)>::empty());
    }
    None
}

/// The first character of a string, when there is one.
fn first_char(s: &String) -> (r: Option<char>)
    ensures
        r is Some <==> s@.len() > 0,
        r matches Some(c) ==> c == s@[0],
{
    broadcast use vstd::string::axiom_spec_iter, vstd::string::next_postcondition;

    let mut it = s.as_str().chars();
    it.next()
}

/// Whether a string is shaped like a message reference.
fn is_link_string(s: &String) -> (r: bool)
    ensures
        r == spec_is_link(s@),
{
    match first_char(s) {
        Some(c) => c == '%',
        None => false,
    }
}

/// Appends to `out` every identifier-shaped string found by a
/// depth-first scan of the value.
#[verifier::loop_isolation(false)]
fn collect_links(l: &LegacyValue, out: &mut Vec<String>)
    ensures
        string_views(final(out)@) == string_views(old(out)@) + spec_links(l@),
    decreases *l,
{
    broadcast use group_codec_models;

    match l {
        LegacyValue::Str(s) => {
            if is_link_string(s) {
                let ghost old_out = out@;
                out.push(s.clone());
                proof {
                    assert(string_views(out@) =~= string_views(old_out) + seq![s@]);
                }
            } else {
                proof {
                    assert(string_views(out@) + Seq::<Seq<char>>::empty() =~= string_views(out@));
                }
            }
        },
        LegacyValue::Sequence(elems) => {
            let ghost base = out@;
            let ghost lm = crate::codec::legacy_models(elems@);
            let mut i: usize = 0;
            proof {
                assert(lm.skip(0) =~= lm);
                assert(string_views(out@) + Seq::<Seq<char>>::empty() =~= string_views(out@));
            }
            while i < elems.len()
                invariant
                    0 <= i <= elems@.len(),
                    string_views(out@) + spec_links_list(lm.skip(i as int)) == string_views(base)
                        + spec_links_list(lm),
                decreases elems@.len() - i,
            {
                proof {
                    assert(lm.skip(i as int)[0] == legacy_model(elems@[i as int]));
                    assert(lm.skip(i as int).drop_first() =~= lm.skip(i as int + 1));
                    assert(decreases_to!(*l => l->Sequence_0));
                    assert(decreases_to!(l->Sequence_0 => l->Sequence_0[i as int]));
                    assert(decreases_to!(*l => elems[i as int]));
                }
                let ghost before = out@;
                collect_links(&elems[i], out);
                proof {
                    assert((string_views(before) + spec_links(lm.skip(i as int)[0]))
                        + spec_links_list(lm.skip(i as int + 1)) =~= string_views(before) + (
                    spec_links(lm.skip(i as int)[0]) + spec_links_list(lm.skip(i as int + 1))));
                }
                i = i + 1;
            }
            proof {
                assert(lm.skip(elems@.len() as int) =~= Seq::<LegacyModel>::empty());
                assert(string_views(out@) + Seq::<Seq<char>>::empty() =~= string_views(out@));
            }
        },
        LegacyValue::Mapping(entries) => {
            let ghost base = out@;
            let ghost em = legacy_entry_models(entries@);
            let mut i: usize = 0;
            proof {
                assert(em.skip(0) =~= em);
                assert(string_views(out@) + Seq::<Seq<char>>::empty() =~= string_views(out@));
            }
            while i < entries.len()
                invariant
                    0 <= i <= entries@.len(),
                    string_views(out@) + spec_links_entries(em.skip(i as int)) == string_views(
                        base,
                    ) + spec_links_entries(em),
                decreases entries@.len() - i,
            {
                proof {
                    assert(em.skip(i as int)[0] == (
                        entries@[i as int].0@,
                        legacy_model(entries@[i as int].1),
                    ));
                    assert(em.skip(i as int).drop_first() =~= em.skip(i as int + 1));
                    assert(decreases_to!(*l => l->Mapping_0));
                    assert(decreases_to!(l->Mapping_0 => l->Mapping_0[i as int]));
                    assert(decreases_to!(l->Mapping_0[i as int] => l->Mapping_0[i as int].1));
                    assert(decreases_to!(*l => entries[i as int].1));
                }
                let ghost before = out@;
                collect_links(&entries[i].1, out);
                proof {
                    assert((string_views(before) + spec_links(em.skip(i as int)[0].1))
                        + spec_links_entries(em.skip(i as int + 1)) =~= string_views(before) + (
                    spec_links(em.skip(i as int)[0].1) + spec_links_entries(
                        em.skip(i as int + 1),
                    )));
                }
                i = i + 1;
            }
            proof {
                assert(em.skip(entries@.len() as int) =~= Seq::<(Seq<char>, LegacyModel)>::empty());
                assert(string_views(out@) + Seq::<Seq<char>>::empty() =~= string_views(out@));
            }
        },
        _ => {
            proof {
                assert(string_views(out@) + Seq::<Seq<char>>::empty() =~= string_views(out@));
            }
        },
    }
}

/// The extracted view of an extraction result.
pub open spec fn row_result_model(r: Result<Row, DecodeError>) -> Result<RowModel, DecodeError> {
    match r {
        Ok(row) => Ok(row_model(row)),
        Err(e) => Err(e),
    }
}

/// Extracts the indexable fields from one decoded entry.
fn extract_row(sq: u64, lv: &LegacyValue, decrypted: bool) -> (r: Result<Row, DecodeError>)
    ensures
        row_result_model(r) == spec_extract(sq as nat, lv@, decrypted),
{
    match lv {
        LegacyValue::Mapping(entries) => {
            let author_key: String = "author".to_owned();
            let type_key: String = "type".to_owned();
            let ts_key: String = "timestamp".to_owned();
            let content_key: String = "content".to_owned();
            let author: String = match lookup_entry(entries, &author_key) {
                Some(ix) => match &entries[ix].1 {
                    LegacyValue::Str(a) => a.clone(),
                    _ => {
                        return Err(DecodeError::MalformedPayload);
                    },
                },
                None => {
                    return Err(DecodeError::MalformedPayload);
                },
            };
            let message_type: String = match lookup_entry(entries, &type_key) {
                Some(ix) => match &entries[ix].1 {
                    LegacyValue::Str(t) => t.clone(),
                    _ => {
                        return Err(DecodeError::MalformedPayload);
                    },
                },
                None => {
                    return Err(DecodeError::MalformedPayload);
                },
            };
            let timestamp: u64 = match lookup_entry(entries, &ts_key) {
                Some(ix) => match &entries[ix].1 {
                    LegacyValue::Number(t) => *t,
                    _ => {
                        return Err(DecodeError::MalformedPayload);
                    },
                },
                None => {
                    return Err(DecodeError::MalformedPayload);
                },
            };
            let mut links: Vec<String> = Vec::new();
            match lookup_entry(entries, &content_key) {
                Some(ix) => {
                    proof {
                        assert(string_views(links@) =~= Seq::<Seq<char>>::empty());
                    }
                    collect_links(&entries[ix].1, &mut links);
                    proof {
                        assert(Seq::<Seq<char>>::empty() + spec_links(
                            legacy_model(entries@[ix as int].1),
                        ) =~= spec_links(legacy_model(entries@[ix as int].1)));
                    }
                },
                None => {
                    proof {
                        assert(string_views(links@) =~= Seq::<Seq<char>>::empty());
                    }
                },
            }
            let row = Row { sequence: sq, author, message_type, timestamp, links, decrypted };
            proof {
                assert(row_model(row) =~= spec_extract(sq as nat, lv@, decrypted)->Ok_0);
            }
            Ok(row)
        },
        _ => Err(DecodeError::MalformedPayload),
    }
}

/// Processes one raw entry: decrypt, parse, convert, extract.
fn process_entry(keys: &Vec<SecretKey>, sq: u64, raw: Vec<u8>) -> (r: Result<Row, DecodeError>)
    ensures
        row_result_model(r) == spec_process_entry(key_views(keys@), sq as nat, raw@),
{
    let (plain, decrypted) = try_decrypt(keys, raw);
    match parse_payload(&plain) {
        Err(e) => Err(e),
        Ok(v) => match decode_value(&v) {
            Err(e) => Err(e),
            Ok(lv) => extract_row(sq, &lv, decrypted),
        },
    }
}

/// A batch whose entries all sit at or below the cursor changes nothing.
proof fn lemma_batch_all_skipped(lat: nat, keys: Seq<Seq<u8>>, es: Seq<(nat, Seq<u8>)>)
    requires
        forall|i: int| 0 <= i < es.len() ==> (#[trigger] es[i]).0 <= lat,
    ensures
        spec_batch(Some(lat), keys, es) == Ok::<_, (nat, DecodeError)>(
            (Seq::<RowModel>::empty(), Some(lat)),
        ),
    decreases es,
{
    if es.len() != 0 {
        assert(es[0].0 <= lat);
        assert forall|i: int|
            0 <= i < es.drop_first().len() implies (#[trigger] es.drop_first()[i]).0 <= lat by {
            assert(es.drop_first()[i] == es[i + 1]);
        }
        lemma_batch_all_skipped(lat, keys, es.drop_first());
    }
}

/// After a successful batch the cursor sits at or above every sequence
/// of the batch, and never below where it was.
proof fn lemma_batch_latest_bound(latest: Option<nat>, keys: Seq<Seq<u8>>, es: Seq<(nat, Seq<u8>)>)
    requires
        forall|i: int, j: int|
            0 <= i < j < es.len() ==> (#[trigger] es[i]).0 < (#[trigger] es[j]).0,
        spec_batch(latest, keys, es) is Ok,
    ensures
        latest matches Some(l) ==> spec_batch(latest, keys, es)->Ok_0.1 matches Some(l2) && l2
            >= l,
        forall|i: int|
            0 <= i < es.len() ==> (spec_batch(latest, keys, es)->Ok_0.1 matches Some(l2) && (
            #[trigger] es[i]).0 <= l2),
    decreases es,
{
    if es.len() != 0 {
        assert forall|i: int, j: int|
            0 <= i < j < es.drop_first().len() implies (#[trigger] es.drop_first()[i]).0 < (
        #[trigger] es.drop_first()[j]).0 by {
            assert(es.drop_first()[i] == es[i + 1]);
            assert(es.drop_first()[j] == es[j + 1]);
        }
        let sq = es[0].0;
        if latest matches Some(l) && sq <= l {
            lemma_batch_latest_bound(latest, keys, es.drop_first());
            assert forall|i: int|
                0 <= i < es.len() implies (spec_batch(latest, keys, es)->Ok_0.1 matches Some(l2)
                && (#[trigger] es[i]).0 <= l2) by {
                if i > 0 {
                    assert(es.drop_first()[i - 1] == es[i]);
                }
            }
        } else {
            lemma_batch_latest_bound(Some(sq), keys, es.drop_first());
            if es.drop_first().len() > 0 {
                assert(es.drop_first()[0] == es[1]);
            }
            assert forall|i: int|
                0 <= i < es.len() implies (spec_batch(latest, keys, es)->Ok_0.1 matches Some(l2)
                && (#[trigger] es[i]).0 <= l2) by {
                if i > 0 {
                    assert(es.drop_first()[i - 1] == es[i]);
                }
            }
        }
    }
}

/// Law: indexing is idempotent. Submitting a batch that a view has
/// already fully indexed leaves the cursor where it stands and appends
/// no row.
pub proof fn lemma_append_batch_idempotent(
    latest: Option<nat>,
    keys: Seq<Seq<u8>>,
    es: Seq<(nat, Seq<u8>)>,
)
    requires
        forall|i: int, j: int|
            0 <= i < j < es.len() ==> (#[trigger] es[i]).0 < (#[trigger] es[j]).0,
        spec_batch(latest, keys, es) is Ok,
    ensures
        spec_batch(spec_batch(latest, keys, es)->Ok_0.1, keys, es) == Ok::<
            _,
            (nat, DecodeError),
        >((Seq::<RowModel>::empty(), spec_batch(latest, keys, es)->Ok_0.1)),
{
    lemma_batch_latest_bound(latest, keys, es);
    if es.len() == 0 {
        assert(spec_batch(latest, keys, es)->Ok_0.1 == latest);
    } else {
        let lat2 = spec_batch(latest, keys, es)->Ok_0.1;
        assert(es[0].0 <= lat2->0);
        lemma_batch_all_skipped(lat2->0, keys, es);
    }
}

} // verus!
