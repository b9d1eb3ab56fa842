use vstd::prelude::*;

use crate::checksum::{crc32, crc32_of, Validation};
use crate::varint::{lemma_var_dec_len, lemma_var_read_enc, read_var, var_enc, var_read, WriteVarExt};
use crate::wire::{
    copy_range, from_le32, le32, lemma_trailer, push_le32, push_range, read_le32, seal, sealed, suffix,
};
use crate::{Error, Patch};

verus! {

/// What one record of a copy-command patch does, over mathematical values.
pub enum Command {
    /// Copies bytes from the source at the output's current length.
    SourceRead,
    /// Appends the bytes it carries.
    TargetRead(Seq<u8>),
    /// Moves the source cursor by the offset, then copies from the source there.
    SourceCopy(int),
    /// Moves the output cursor by the offset, then copies from the output itself,
    /// one byte at a time.
    TargetCopy(int),
}

/// A copy-command patch as mathematical values.
pub struct BpsModel {
    pub src_data: Validation,
    pub out_data: Validation,
    pub metadata: Option<Seq<u8>>,
    /// Each record: its run length and what it does.
    pub records: Seq<(usize, Command)>,
}

/// The magic value `BPS1`.
pub open spec fn bps_magic() -> Seq<u8> {
    seq![0x42u8, 0x50u8, 0x53u8, 0x31u8]
}

/// The two low bits of a record's header.
pub open spec fn command_tag(c: Command) -> nat {
    match c {
        Command::SourceRead => 0,
        Command::TargetRead(_) => 1,
        Command::SourceCopy(_) => 2,
        Command::TargetCopy(_) => 3,
    }
}

/// A signed offset as written: twice its magnitude, plus one where it is negative.
pub open spec fn offset_code(o: int) -> nat {
    if o < 0 {
        (-o * 2 + 1) as nat
    } else {
        (o * 2) as nat
    }
}

/// The signed offset that `offset_code` writes as `num`.
pub open spec fn code_offset(num: nat) -> int {
    if num % 2 == 1 {
        -((num / 2) as int)
    } else {
        (num / 2) as int
    }
}

/// The bytes of one record.
pub open spec fn record_bytes(r: (usize, Command)) -> Seq<u8> {
    var_enc(((r.0 - 1) * 4 + command_tag(r.1)) as nat) + match r.1 {
        Command::SourceRead => Seq::empty(),
        Command::TargetRead(d) => d,
        Command::SourceCopy(o) => var_enc(offset_code(o)),
        Command::TargetCopy(o) => var_enc(offset_code(o)),
    }
}

/// The bytes of a sequence of records, one after the other.
pub open spec fn records_bytes(rs: Seq<(usize, Command)>) -> Seq<u8>
    decreases rs.len(),
{
    if rs.len() == 0 {
        Seq::empty()
    } else {
        records_bytes(rs.drop_last()) + record_bytes(rs.last())
    }
}

/// The bytes of a patch's metadata field: its length, then its bytes.
pub open spec fn metadata_bytes(m: Option<Seq<u8>>) -> Seq<u8> {
    match m {
        None => var_enc(0),
        Some(md) => var_enc(md.len()) + md,
    }
}

/// A record that can be written and read back unchanged.
pub open spec fn record_wf(r: (usize, Command)) -> bool {
    &&& r.0 >= 1
    &&& (r.0 - 1) * 4 + 3 <= usize::MAX
    &&& match r.1 {
        Command::SourceRead => true,
        Command::TargetRead(d) => d.len() == r.0,
        Command::SourceCopy(o) => offset_code(o) <= usize::MAX,
        Command::TargetCopy(o) => offset_code(o) <= usize::MAX,
    }
}

/// The output buffer after copying `n` bytes from `out` itself, starting at
/// `from`, one byte at a time: later bytes may read what earlier ones wrote.
pub open spec fn target_copy(out: Seq<u8>, from: int, n: nat) -> Seq<u8>
    decreases n,
{
    if n == 0 {
        out
    } else {
        target_copy(out.push(out[from]), from + 1, (n - 1) as nat)
    }
}

/// Copying `n` bytes from one byte behind the output's end repeats its last
/// byte `n` times.
pub proof fn lemma_target_copy_repeats(out: Seq<u8>, n: nat)
    requires
        out.len() >= 1,
    ensures
        target_copy(out, out.len() - 1, n) == out + Seq::new(n, |_i: int| out.last()),
    decreases n,
{
    if n > 0 {
        let next = out.push(out.last());
        lemma_target_copy_repeats(next, (n - 1) as nat);
        assert(next + Seq::new((n - 1) as nat, |_i: int| next.last()) =~= out + Seq::new(
            n,
            |_i: int| out.last(),
        ));
    } else {
        assert(out + Seq::new(0, |_i: int| out.last()) =~= out);
    }
}

/// One record replayed on the state (output, source cursor, output cursor);
/// `None` where a cursor or a copy leaves its buffer.
pub open spec fn step(rom: Seq<u8>, st: (Seq<u8>, int, int), r: (usize, Command)) -> Option<
    (Seq<u8>, int, int),
> {
    let (out, so, oo) = st;
    let len = r.0 as int;
    match r.1 {
        Command::SourceRead => if out.len() + len <= rom.len() {
            Some((out + rom.subrange(out.len() as int, out.len() + len), so, oo))
        } else {
            None
        },
        Command::TargetRead(d) => Some((out + d, so, oo)),
        Command::SourceCopy(o) => if 0 <= so + o && so + o + len <= rom.len() {
            Some((out + rom.subrange(so + o, so + o + len), so + o + len, oo))
        } else {
            None
        },
        Command::TargetCopy(o) => if 0 <= oo + o < out.len() {
            Some((target_copy(out, oo + o, len as nat), so, oo + o + len))
        } else {
            None
        },
    }
}

/// A `TargetCopy` of `n` bytes whose offset puts the output cursor on the
/// output's last byte (offset -1 from a cursor at the output's end) appends `n`
/// copies of that byte.
pub proof fn lemma_run_expansion(rom: Seq<u8>, out: Seq<u8>, so: int, oo: int, o: int, n: usize)
    requires
        out.len() >= 1,
        oo + o == out.len() - 1,
    ensures
        step(rom, (out, so, oo), (n, Command::TargetCopy(o))) == Some(
            (out + Seq::new(n as nat, |_i: int| out.last()), so, out.len() - 1 + n),
        ),
{
    lemma_target_copy_repeats(out, n as nat);
}

/// The records replayed from an empty output with both cursors at zero.
pub open spec fn replay(rom: Seq<u8>, rs: Seq<(usize, Command)>) -> Option<(Seq<u8>, int, int)>
    decreases rs.len(),
{
    if rs.len() == 0 {
        Some((Seq::empty(), 0, 0))
    } else {
        match replay(rom, rs.drop_last()) {
            None => None,
            Some(st) => step(rom, st, rs.last()),
        }
    }
}

/// The record that starts at `pos`, and the position after it.
pub open spec fn parse_record(b: Seq<u8>, pos: nat) -> Result<((usize, Command), nat), Error> {
    match var_read(suffix(b, pos as int)) {
        Err(e) => Err(e),
        Ok((head, n)) => {
            let length = (head / 4 + 1) as usize;
            let p = pos as int + n;
            if head % 4 == 0 {
                Ok(((length, Command::SourceRead), p as nat))
            } else if head % 4 == 1 {
                if p + length <= b.len() {
                    Ok(((length, Command::TargetRead(b.subrange(p, p + length))), (p + length) as nat))
                } else {
                    Err(Error::TruncatedInput)
                }
            } else {
                match var_read(suffix(b, p)) {
                    Err(e) => Err(e),
                    Ok((num, m)) => {
                        let o = code_offset(num as nat);
                        Ok(((length, if head % 4 == 2 {
                            Command::SourceCopy(o)
                        } else {
                            Command::TargetCopy(o)
                        }), (p + m) as nat))
                    },
                }
            }
        },
    }
}

/// A record that is read takes at least one byte and no more than there are.
pub proof fn lemma_parse_record_advances(b: Seq<u8>, pos: nat)
    requires
        pos <= b.len(),
    ensures
        parse_record(b, pos) matches Ok((r, p)) ==> pos < p <= b.len(),
{
    lemma_var_dec_len(suffix(b, pos as int));
    if let Ok((head, n)) = var_read(suffix(b, pos as int)) {
        lemma_var_dec_len(suffix(b, pos as int + n));
    }
}

#[via_fn]
proof fn parse_records_decreases(b: Seq<u8>, pos: nat, acc: Seq<(usize, Command)>) {
    if b.len() > pos + 12 {
        lemma_parse_record_advances(b, pos);
    }
}

/// The records read from `pos` on, after those in `acc`, while more than the
/// twelve bytes of the three checksums remain; and the position where they end.
pub open spec fn parse_records(b: Seq<u8>, pos: nat, acc: Seq<(usize, Command)>) -> Result<
    (Seq<(usize, Command)>, nat),
    Error,
>
    decreases b.len() - pos via parse_records_decreases
{
    if b.len() <= pos + 12 {
        Ok((acc, pos))
    } else {
        match parse_record(b, pos) {
            Err(e) => Err(e),
            Ok((r, p)) => parse_records(b, p, acc.push(r)),
        }
    }
}

/// The patch read from `start` on, where its records begin, given what comes
/// before them; the three checksums end the file.
pub open spec fn parse_bps_records(
    b: Seq<u8>,
    start: int,
    src_size: usize,
    out_size: usize,
    metadata: Option<Seq<u8>>,
) -> Result<BpsModel, Error> {
    match parse_records(b, start as nat, Seq::empty()) {
        Err(e) => Err(e),
        Ok((records, q)) => if q + 12 > b.len() {
            Err(Error::TruncatedInput)
        } else {
            let m = BpsModel {
                src_data: Validation { size: src_size, crc: from_le32(suffix(b, q as int)) },
                out_data: Validation { size: out_size, crc: from_le32(suffix(b, q + 4int)) },
                metadata,
                records,
            };
            match m.export_result(Some(from_le32(suffix(b, q + 8int)))) {
                Err(e) => Err(e),
                Ok(_) => Ok(m),
            }
        },
    }
}

/// The patch read from `p` on, where the metadata's length stands, given the
/// two sizes before it. A length of zero means no metadata.
pub open spec fn parse_bps_metadata(b: Seq<u8>, p: int, src_size: usize, out_size: usize) -> Result<
    BpsModel,
    Error,
> {
    match var_read(suffix(b, p)) {
        Err(e) => Err(e),
        Ok((meta_len, n3)) => {
            let p = p + n3;
            if p + meta_len > b.len() {
                Err(Error::TruncatedInput)
            } else {
                parse_bps_records(
                    b,
                    p + meta_len,
                    src_size,
                    out_size,
                    if meta_len == 0 {
                        None
                    } else {
                        Some(b.subrange(p, p + meta_len))
                    },
                )
            }
        },
    }
}

/// What loading the bytes `b` as a copy-command patch gives. The patch read is
/// written out again, and its checksum must equal the file's last four bytes.
pub open spec fn parse_bps(b: Seq<u8>) -> Result<BpsModel, Error> {
    if b.len() < 4 {
        Err(Error::TruncatedInput)
    } else if b.subrange(0, 4) != bps_magic() {
        Err(Error::MagicMismatch)
    } else {
        match var_read(suffix(b, 4)) {
            Err(e) => Err(e),
            Ok((src_size, n1)) => match var_read(suffix(b, 4 + n1 as int)) {
                Err(e) => Err(e),
                Ok((out_size, n2)) => parse_bps_metadata(b, 4 + n1 + n2 as int, src_size, out_size),
            },
        }
    }
}

/// Once a prefix of the records fails, the whole replay fails.
proof fn lemma_replay_none(rom: Seq<u8>, rs: Seq<(usize, Command)>, i: int)
    requires
        0 <= i <= rs.len(),
        replay(rom, rs.take(i)) is None,
    ensures
        replay(rom, rs) is None,
    decreases rs.len() - i,
{
    if i < rs.len() {
        assert(rs.take(i + 1).drop_last() =~= rs.take(i));
        lemma_replay_none(rom, rs, i + 1);
    } else {
        assert(rs.take(i) =~= rs);
    }
}

impl BpsModel {
    /// A patch that can be written out and read back unchanged: metadata, where
    /// present, is not empty, and every record is well formed.
    pub open spec fn wf(self) -> bool {
        &&& match self.metadata {
            None => true,
            Some(m) => 0 < m.len() <= usize::MAX,
        }
        &&& forall|i: int| 0 <= i < self.records.len() ==> record_wf(#[trigger] self.records[i])
    }

    /// Everything that the file's own checksum covers.
    pub open spec fn body(self) -> Seq<u8> {
        bps_magic() + var_enc(self.src_data.size as nat) + var_enc(self.out_data.size as nat)
            + metadata_bytes(self.metadata) + records_bytes(self.records) + le32(self.src_data.crc)
            + le32(self.out_data.crc)
    }

    /// The whole file: the body, then its CRC-32.
    pub open spec fn file(self) -> Seq<u8> {
        self.body() + le32(crc32_of(self.body()))
    }

    /// What writing the patch out gives, checked against `crc` where given.
    pub open spec fn export_result(self, crc: Option<u32>) -> Result<Seq<u8>, Error> {
        sealed(self.body(), crc32_of(self.body()), crc)
    }

    /// What applying the patch to `rom` gives: the source is checked, the records
    /// are replayed, and the output is checked.
    pub open spec fn apply_result(self, rom: Seq<u8>) -> Result<Seq<u8>, Error> {
        match self.src_data.outcome(rom.len(), crc32_of(rom)) {
            Err(e) => Err(e),
            Ok(_) => match replay(rom, self.records) {
                None => Err(Error::InvalidPatch),
                Some((out, _, _)) => match self.out_data.outcome(out.len(), crc32_of(out)) {
                    Err(e) => Err(e),
                    Ok(_) => Ok(out),
                },
            },
        }
    }
}

/// A signed offset reads back from the number it is written as.
proof fn lemma_offset_code(o: int)
    ensures
        code_offset(offset_code(o)) == o,
{
}

/// A record's run length and kind read back from its header.
proof fn lemma_header(len: int, tag: int)
    requires
        len >= 1,
        0 <= tag < 4,
    ensures
        ((len - 1) * 4 + tag) / 4 + 1 == len,
        ((len - 1) * 4 + tag) % 4 == tag,
{
    assert(((len - 1) * 4 + tag) / 4 == len - 1) by (nonlinear_arith)
        requires
            len >= 1,
            0 <= tag < 4,
    ;
    assert(((len - 1) * 4 + tag) % 4 == tag) by (nonlinear_arith)
        requires
            len >= 1,
            0 <= tag < 4,
    ;
}

/// Reading a well-formed record from its own bytes gives it back.
proof fn lemma_parse_record_of_bytes(b: Seq<u8>, q: nat, r: (usize, Command))
    requires
        record_wf(r),
        q + record_bytes(r).len() <= b.len(),
        b.subrange(q as int, q + record_bytes(r).len() as int) == record_bytes(r),
    ensures
        parse_record(b, q) == Ok::<((usize, Command), nat), Error>(
            (r, q + record_bytes(r).len()),
        ),
{
    let head = ((r.0 - 1) * 4 + command_tag(r.1)) as nat;
    let v = var_enc(head);
    let payload = record_bytes(r).subrange(v.len() as int, record_bytes(r).len() as int);
    assert(record_bytes(r) =~= v + payload);
    let rest = b.subrange(q + record_bytes(r).len() as int, b.len() as int);
    let s = suffix(b, q as int);
    assert(s =~= v + (payload + rest)) by {
        assert(s.subrange(0, record_bytes(r).len() as int) =~= b.subrange(
            q as int,
            q + record_bytes(r).len() as int,
        ));
    }
    lemma_var_read_enc(head as usize, payload + rest);
    lemma_header(r.0 as int, command_tag(r.1) as int);
    let p = q + v.len() as int;
    assert(suffix(b, p) =~= s.subrange(v.len() as int, s.len() as int));
    assert((v + (payload + rest)).subrange(v.len() as int, s.len() as int) =~= payload + rest);
    let goal = Ok::<((usize, Command), nat), Error>((r, q + record_bytes(r).len()));
    assert(var_read(suffix(b, q as int)) == Ok::<(usize, nat), Error>((head as usize, v.len())));
    assert(head as usize / 4 + 1 == r.0);
    match r.1 {
        Command::SourceRead => {
            assert(payload =~= Seq::<u8>::empty());
            assert(parse_record(b, q) == goal);
        },
        Command::TargetRead(d) => {
            assert(payload =~= d);
            assert(b.subrange(p, p + r.0) =~= (payload + rest).subrange(0, r.0 as int));
            assert((payload + rest).subrange(0, r.0 as int) =~= d);
            assert(parse_record(b, q) == goal);
        },
        Command::SourceCopy(o) => {
            lemma_var_read_enc(offset_code(o) as usize, rest);
            lemma_offset_code(o);
            assert(payload + rest =~= var_enc(offset_code(o)) + rest);
            assert(parse_record(b, q) == goal);
        },
        Command::TargetCopy(o) => {
            lemma_var_read_enc(offset_code(o) as usize, rest);
            lemma_offset_code(o);
            assert(payload + rest =~= var_enc(offset_code(o)) + rest);
            assert(parse_record(b, q) == goal);
        },
    }
}

/// Reading a well-formed record from its own bytes, with the checksums still to
/// follow, gives it back.
proof fn lemma_parse_record_bytes(b: Seq<u8>, q: nat, acc: Seq<(usize, Command)>, r: (usize, Command))
    requires
        record_wf(r),
        q + record_bytes(r).len() + 12 <= b.len(),
        b.subrange(q as int, q + record_bytes(r).len() as int) == record_bytes(r),
    ensures
        parse_records(b, q, acc) == parse_records(b, q + record_bytes(r).len(), acc.push(r)),
{
    lemma_parse_record_of_bytes(b, q, r);
    assert(record_bytes(r).len() >= 1) by {
        lemma_var_read_enc(((r.0 - 1) * 4 + command_tag(r.1)) as usize, Seq::empty());
    }
}

/// Reading well-formed records from their own bytes, with the checksums still
/// to follow, gives them back.
proof fn lemma_parse_records_bytes(
    b: Seq<u8>,
    pos: nat,
    acc: Seq<(usize, Command)>,
    rs: Seq<(usize, Command)>,
)
    requires
        forall|i: int| 0 <= i < rs.len() ==> record_wf(#[trigger] rs[i]),
        pos + records_bytes(rs).len() + 12 <= b.len(),
        b.subrange(pos as int, pos + records_bytes(rs).len() as int) == records_bytes(rs),
    ensures
        parse_records(b, pos, acc) == parse_records(b, pos + records_bytes(rs).len(), acc + rs),
    decreases rs.len(),
{
    if rs.len() == 0 {
        assert(acc + rs =~= acc);
    } else {
        let init = rs.drop_last();
        let r = rs.last();
        let bi = records_bytes(init);
        let q = pos + bi.len() as int;
        assert(records_bytes(rs) == bi + record_bytes(r));
        assert(b.subrange(pos as int, q) =~= records_bytes(rs).subrange(0, bi.len() as int));
        assert(records_bytes(rs).subrange(0, bi.len() as int) =~= bi);
        lemma_parse_records_bytes(b, pos, acc, init);
        assert(b.subrange(q, q + record_bytes(r).len() as int) =~= records_bytes(rs).subrange(
            bi.len() as int,
            records_bytes(rs).len() as int,
        ));
        assert(records_bytes(rs).subrange(bi.len() as int, records_bytes(rs).len() as int)
            =~= record_bytes(r));
        assert(rs[rs.len() - 1] == r);
        lemma_parse_record_bytes(b, q as nat, acc + init, r);
        assert((acc + init).push(r) =~= acc + rs);
    }
}

/// Reading a well-formed patch's records and checksums from `start` on gives
/// the patch, given the fields before them.
proof fn lemma_load_records(m: BpsModel, b: Seq<u8>, start: int, c: u32)
    requires
        m.wf(),
        c == crc32_of(m.body()),
        0 <= start <= b.len(),
        b.subrange(start, b.len() as int) == records_bytes(m.records) + le32(m.src_data.crc) + le32(
            m.out_data.crc,
        ) + le32(c),
    ensures
        parse_bps_records(b, start, m.src_data.size, m.out_data.size, m.metadata) == Ok::<
            BpsModel,
            Error,
        >(m),
{
    let rb = records_bytes(m.records);
    let tail = le32(m.src_data.crc) + le32(m.out_data.crc) + le32(c);
    let sb = b.subrange(start, b.len() as int);
    assert(b.subrange(start, start + rb.len() as int) =~= sb.subrange(0, rb.len() as int));
    assert(sb.subrange(0, rb.len() as int) =~= rb);
    lemma_parse_records_bytes(b, start as nat, Seq::empty(), m.records);
    assert(Seq::<(usize, Command)>::empty() + m.records =~= m.records);
    let q = start + rb.len() as int;
    assert(parse_records(b, q as nat, m.records) == Ok::<(Seq<(usize, Command)>, nat), Error>(
        (m.records, q as nat),
    ));
    assert(b.subrange(q, q + 12) =~= sb.subrange(rb.len() as int, sb.len() as int));
    assert(sb.subrange(rb.len() as int, sb.len() as int) =~= tail);
    lemma_trailer(b, q, m.src_data.crc, m.out_data.crc, c);
}

/// Reading a well-formed patch from its metadata field on gives the patch,
/// given the two sizes.
proof fn lemma_load_metadata(m: BpsModel, b: Seq<u8>, p: int, c: u32)
    requires
        m.wf(),
        c == crc32_of(m.body()),
        0 <= p <= b.len(),
        b.subrange(p, b.len() as int) == metadata_bytes(m.metadata) + records_bytes(m.records)
            + le32(m.src_data.crc) + le32(m.out_data.crc) + le32(c),
    ensures
        parse_bps_metadata(b, p, m.src_data.size, m.out_data.size) == Ok::<BpsModel, Error>(m),
{
    let rest = records_bytes(m.records) + le32(m.src_data.crc) + le32(m.out_data.crc) + le32(c);
    let md = match m.metadata {
        None => Seq::<u8>::empty(),
        Some(md) => md,
    };
    let meta_len: usize = md.len() as usize;
    let v3 = var_enc(meta_len as nat);
    assert(metadata_bytes(m.metadata) =~= v3 + md);
    lemma_var_read_enc(meta_len, md + rest);
    let whole = v3 + (md + rest);
    let sb = suffix(b, p);
    assert(sb =~= whole);
    let p2 = p + v3.len() as int;
    assert(b.subrange(p2, p2 + md.len() as int) =~= whole.subrange(
        v3.len() as int,
        v3.len() + md.len() as int,
    ));
    assert(whole.subrange(v3.len() as int, v3.len() + md.len() as int) =~= md);
    assert(b.subrange(p2 + md.len() as int, b.len() as int) =~= whole.subrange(
        v3.len() + md.len() as int,
        whole.len() as int,
    ));
    assert(whole.subrange(v3.len() + md.len() as int, whole.len() as int) =~= rest);
    lemma_load_records(m, b, p2 + md.len() as int, c);
}

/// The fields after the two sizes, as the file holds them.
spec fn after_sizes(m: BpsModel) -> Seq<u8> {
    metadata_bytes(m.metadata) + records_bytes(m.records) + le32(m.src_data.crc) + le32(
        m.out_data.crc,
    ) + le32(crc32_of(m.body()))
}

/// A patch's file, split after the two sizes.
proof fn lemma_file_layout(m: BpsModel)
    ensures
        m.file() == bps_magic() + var_enc(m.src_data.size as nat) + var_enc(
            m.out_data.size as nat,
        ) + after_sizes(m),
{
    assert(m.file() =~= bps_magic() + var_enc(m.src_data.size as nat) + var_enc(
        m.out_data.size as nat,
    ) + after_sizes(m));
}

/// Reading a well-formed patch's file gives the patch.
proof fn lemma_load_file(m: BpsModel, b: Seq<u8>)
    requires
        m.wf(),
        b == bps_magic() + var_enc(m.src_data.size as nat) + var_enc(m.out_data.size as nat)
            + after_sizes(m),
    ensures
        parse_bps(b) == Ok::<BpsModel, Error>(m),
{
    let v1 = var_enc(m.src_data.size as nat);
    let v2 = var_enc(m.out_data.size as nat);
    let rest = after_sizes(m);
    assert(b.subrange(0, 4) =~= bps_magic());
    lemma_var_read_enc(m.src_data.size, v2 + rest);
    assert(suffix(b, 4) =~= v1 + (v2 + rest));
    lemma_var_read_enc(m.out_data.size, rest);
    assert(suffix(b, 4 + v1.len() as int) =~= v2 + rest);
    let p = 4 + v1.len() + v2.len() as int;
    assert(b.subrange(p, b.len() as int) =~= rest);
    lemma_load_metadata(m, b, p, crc32_of(m.body()));
}

/// Writing a well-formed patch out and loading the bytes gives the same patch,
/// which therefore applies to every source as the original does.
pub proof fn lemma_export_load(m: BpsModel, rom: Seq<u8>)
    requires
        m.wf(),
    ensures
        parse_bps(m.file()) == Ok::<BpsModel, Error>(m),
        parse_bps(m.file()) matches Ok(m2) && m2.apply_result(rom) == m.apply_result(rom),
{
    lemma_file_layout(m);
    lemma_load_file(m, m.file());
}

enum Record {
    SourceRead,
    TargetRead(Vec<u8>),
    SourceCopy(isize),
    TargetCopy(isize),
}

impl View for Record {
    type V = Command;

    closed spec fn view(&self) -> Command {
        match self {
            Record::SourceRead => Command::SourceRead,
            Record::TargetRead(d) => Command::TargetRead(d@),
            Record::SourceCopy(o) => Command::SourceCopy(*o as int),
            Record::TargetCopy(o) => Command::TargetCopy(*o as int),
        }
    }
}

spec fn records_view(rs: Seq<(usize, Record)>) -> Seq<(usize, Command)> {
    rs.map_values(|r: (usize, Record)| (r.0, r.1@))
}

/// A patch in the copy-command format.
pub struct BpsPatch {
    src_data: Validation,
    out_data: Validation,
    metadata: Option<Vec<u8>>,
    records: Vec<(usize, Record)>,
}

impl View for BpsPatch {
    type V = BpsModel;

    closed spec fn view(&self) -> BpsModel {
        BpsModel {
            src_data: self.src_data,
            out_data: self.out_data,
            metadata: match self.metadata {
                None => None,
                Some(m) => Some(m@),
            },
            records: records_view(self.records@),
        }
    }
}

/// Writes a signed offset as `offset_code` does.
fn write_offset(buf: &mut Vec<u8>, o: isize)
    requires
        offset_code(o as int) <= usize::MAX,
    ensures
        final(buf)@ == old(buf)@ + var_enc(offset_code(o as int)),
{
    let code: usize = if o < 0 {
        (-o) as usize * 2 + 1
    } else {
        o as usize * 2
    };
    buf.write_var_int(code);
}

/// Appends the records' bytes.
fn write_records(buf: &mut Vec<u8>, records: &Vec<(usize, Record)>)
    requires
        forall|i: int| 0 <= i < records@.len() ==> record_wf(#[trigger] records_view(records@)[i]),
    ensures
        final(buf)@ == old(buf)@ + records_bytes(records_view(records@)),
{
    let ghost rv = records_view(records@);
    let mut i: usize = 0;
    while i < records.len()
        invariant
            i <= records@.len(),
            rv == records_view(records@),
            forall|j: int| 0 <= j < records@.len() ==> record_wf(#[trigger] rv[j]),
            buf@ == old(buf)@ + records_bytes(rv.take(i as int)),
        decreases records@.len() - i,
    {
        let length = records[i].0;
        let rec = &records[i].1;
        assert(record_wf(rv[i as int]));
        assert(rv[i as int] == (length, rec@));
        let tag: usize = match rec {
            Record::SourceRead => 0,
            Record::TargetRead(_) => 1,
            Record::SourceCopy(_) => 2,
            Record::TargetCopy(_) => 3,
        };
        let ghost before = buf@;
        buf.write_var_int((length - 1) * 4 + tag);
        match rec {
            Record::SourceRead => {},
            Record::TargetRead(d) => {
                push_range(buf, d.as_slice(), 0, d.len());
                assert(d@.subrange(0, d@.len() as int) =~= d@);
            },
            Record::SourceCopy(o) => write_offset(buf, *o),
            Record::TargetCopy(o) => write_offset(buf, *o),
        }
        assert(rv.take(i + 1).drop_last() =~= rv.take(i as int));
        assert(buf@ =~= before + record_bytes(rv[i as int]));
        i = i + 1;
    }
    assert(rv.take(i as int) =~= rv);
}

/// Reads the record at `pos`.
fn read_record(data: &[u8], pos: usize) -> (r: Result<((usize, Record), usize), Error>)
    requires
        pos <= data@.len(),
    ensures
        match r {
            Ok((rec, p)) => parse_record(data@, pos as nat) == Ok::<((usize, Command), nat), Error>(
                ((rec.0, rec.1@), p as nat),
            ) && record_wf((rec.0, rec.1@)),
            Err(e) => parse_record(data@, pos as nat) == Err::<((usize, Command), nat), Error>(e),
        },
{
    let data_len = data.len();
    let (head, p) = match read_var(data, pos) {
        Err(e) => return Err(e),
        Ok(x) => x,
    };
    proof {
        lemma_var_dec_len(suffix(data@, pos as int));
    }
    let length = head / 4 + 1;
    assert(head / 4 * 4 + 3 <= usize::MAX) by (nonlinear_arith)
        requires
            head <= usize::MAX,
            usize::MAX % 4 == 3,
    ;
    let tag = head % 4;
    if tag == 0 {
        return Ok(((length, Record::SourceRead), p));
    }
    if tag == 1 {
        if length > data_len - p {
            return Err(Error::TruncatedInput);
        }
        let d = copy_range(data, p, length);
        return Ok(((length, Record::TargetRead(d)), p + length));
    }
    let (num, q) = match read_var(data, p) {
        Err(e) => return Err(e),
        Ok(x) => x,
    };
    proof {
        lemma_var_dec_len(suffix(data@, p as int));
    }
    let magnitude = (num / 2) as isize;
    let o: isize = if num % 2 == 1 {
        -magnitude
    } else {
        magnitude
    };
    assert(o as int == code_offset(num as nat));
    assert(offset_code(o as int) <= num);
    if tag == 2 {
        Ok(((length, Record::SourceCopy(o)), q))
    } else {
        Ok(((length, Record::TargetCopy(o)), q))
    }
}

/// Reads records from `start` while more than the twelve bytes of the three
/// checksums remain.
fn read_records(data: &[u8], start: usize) -> (r: Result<(Vec<(usize, Record)>, usize), Error>)
    requires
        start <= data@.len(),
    ensures
        match r {
            Ok((rs, p)) => parse_records(data@, start as nat, Seq::empty()) == Ok::<
                (Seq<(usize, Command)>, nat),
                Error,
            >((records_view(rs@), p as nat)) && p <= data@.len() && forall|j: int|
                0 <= j < rs@.len() ==> record_wf(#[trigger] records_view(rs@)[j]),
            Err(e) => parse_records(data@, start as nat, Seq::empty()) == Err::<
                (Seq<(usize, Command)>, nat),
                Error,
            >(e),
        },
{
    let mut records: Vec<(usize, Record)> = Vec::new();
    assert(records_view(records@) =~= Seq::empty());
    let mut pos = start;
    while data.len() - pos > 12
        invariant
            start <= pos <= data@.len(),
            parse_records(data@, start as nat, Seq::empty()) == parse_records(
                data@,
                pos as nat,
                records_view(records@),
            ),
            forall|j: int|
                0 <= j < records@.len() ==> record_wf(#[trigger] records_view(records@)[j]),
        decreases data@.len() - pos,
    {
        let (rec, p) = match read_record(data, pos) {
            Err(e) => return Err(e),
            Ok(x) => x,
        };
        proof {
            lemma_parse_record_advances(data@, pos as nat);
        }
        let ghost before = records_view(records@);
        records.push(rec);
        assert(records_view(records@) =~= before.push((rec.0, rec.1@)));
        pos = p;
    }
    Ok((records, pos))
}

impl BpsPatch {
    /// Reads a copy-command patch from `data`. The patch read is written out
    /// again, and its checksum must equal the file's last four bytes.
    pub fn load(data: &[u8]) -> (r: Result<BpsPatch, Error>)
        ensures
            match r {
                Ok(p) => parse_bps(data@) == Ok::<BpsModel, Error>(p@),
                Err(e) => parse_bps(data@) == Err::<BpsModel, Error>(e),
            },
    {
        if data.len() < 4 {
            return Err(Error::TruncatedInput);
        }
        if !(data[0] == 0x42 && data[1] == 0x50 && data[2] == 0x53 && data[3] == 0x31) {
            assert(data@.subrange(0, 4) != bps_magic()) by {
                if data@.subrange(0, 4) == bps_magic() {
                    assert(data@.subrange(0, 4)[0] == data@[0]);
                    assert(data@.subrange(0, 4)[1] == data@[1]);
                    assert(data@.subrange(0, 4)[2] == data@[2]);
                    assert(data@.subrange(0, 4)[3] == data@[3]);
                }
            }
            return Err(Error::MagicMismatch);
        }
        assert(data@.subrange(0, 4) =~= bps_magic());
        let (src_size, p1) = match read_var(data, 4) {
            Err(e) => return Err(e),
            Ok(x) => x,
        };
        proof {
            lemma_var_dec_len(suffix(data@, 4));
        }
        let (out_size, p2) = match read_var(data, p1) {
            Err(e) => return Err(e),
            Ok(x) => x,
        };
        proof {
            lemma_var_dec_len(suffix(data@, p1 as int));
        }
        let (meta_len, p3) = match read_var(data, p2) {
            Err(e) => return Err(e),
            Ok(x) => x,
        };
        proof {
            lemma_var_dec_len(suffix(data@, p2 as int));
        }
        if meta_len > data.len() - p3 {
            return Err(Error::TruncatedInput);
        }
        let metadata = if meta_len == 0 {
            None
        } else {
            Some(copy_range(data, p3, meta_len))
        };
        let start = p3 + meta_len;
        let (records, pos) = match read_records(data, start) {
            Err(e) => return Err(e),
            Ok(x) => x,
        };
        let (src_crc, q1) = match read_le32(data, pos) {
            Err(e) => return Err(e),
            Ok(x) => x,
        };
        let (out_crc, q2) = match read_le32(data, q1) {
            Err(e) => return Err(e),
            Ok(x) => x,
        };
        let (file_crc, _) = match read_le32(data, q2) {
            Err(e) => return Err(e),
            Ok(x) => x,
        };
        let patch = BpsPatch {
            src_data: Validation { size: src_size, crc: src_crc },
            out_data: Validation { size: out_size, crc: out_crc },
            metadata,
            records,
        };
        match patch.export(Some(file_crc)) {
            Err(e) => Err(e),
            Ok(_) => Ok(patch),
        }
    }

    #[verifier::type_invariant]
    spec fn inv(self) -> bool {
        self@.wf()
    }

    /// The bytes that the file's checksum covers.
    fn body(&self) -> (r: Vec<u8>)
        ensures
            r@ == self@.body(),
    {
        proof {
            use_type_invariant(self);
        }
        let mut buf: Vec<u8> = Vec::new();
        buf.push(0x42);
        buf.push(0x50);
        buf.push(0x53);
        buf.push(0x31);
        buf.write_var_int(self.src_data.size);
        buf.write_var_int(self.out_data.size);
        match &self.metadata {
            Some(m) => {
                buf.write_var_int(m.len());
                push_range(&mut buf, m.as_slice(), 0, m.len());
                assert(m@.subrange(0, m@.len() as int) =~= m@);
            },
            None => buf.write_var_int(0),
        }
        assert(self@.records == records_view(self.records@));
        write_records(&mut buf, &self.records);
        push_le32(&mut buf, self.src_data.crc);
        push_le32(&mut buf, self.out_data.crc);
        assert(buf@ =~= self@.body());
        buf
    }
}

impl Patch for BpsPatch {
    open spec fn apply_spec(&self, rom: Seq<u8>) -> Result<Seq<u8>, Error> {
        self@.apply_result(rom)
    }

    open spec fn validate_spec(&self, rom: Seq<u8>) -> Option<Result<(), Error>> {
        Some(self@.src_data.outcome(rom.len(), crc32_of(rom)))
    }

    open spec fn export_spec(&self, crc: Option<u32>) -> Result<Seq<u8>, Error> {
        self@.export_result(crc)
    }

    fn apply(&self, rom: &[u8]) -> (r: Result<Vec<u8>, Error>) {
        proof {
            use_type_invariant(self);
        }
        if let Err(e) = self.src_data.validate(rom) {
            return Err(e);
        }
        let ghost rv = records_view(self.records@);
        let mut buf: Vec<u8> = Vec::new();
        let mut src_offset: usize = 0;
        let mut out_offset: usize = 0;
        let mut i: usize = 0;
        while i < self.records.len()
            invariant
                i <= self.records@.len(),
                rv == records_view(self.records@),
                self@.records == rv,
                self@.src_data.outcome(rom@.len(), crc32_of(rom@)) is Ok,
                forall|j: int| 0 <= j < rv.len() ==> record_wf(#[trigger] rv[j]),
                replay(rom@, rv.take(i as int)) == Some((buf@, src_offset as int, out_offset as int)),
            decreases self.records@.len() - i,
        {
            let length = self.records[i].0;
            let rec = &self.records[i].1;
            assert(rv[i as int] == (length, rec@));
            assert(record_wf(rv[i as int]));
            assert(rv.take(i + 1).drop_last() =~= rv.take(i as int));
            assert(rv.take(i + 1).last() == rv[i as int]);
            proof {
                if replay(rom@, rv.take(i + 1)) is None {
                    lemma_replay_none(rom@, rv, i + 1);
                }
            }
            match rec {
                Record::SourceRead => {
                    let start = buf.len();
                    if start > rom.len() || length > rom.len() - start {
                        return Err(Error::InvalidPatch);
                    }
                    push_range(&mut buf, rom, start, length);
                },
                Record::TargetRead(d) => {
                    push_range(&mut buf, d.as_slice(), 0, d.len());
                    assert(d@.subrange(0, d@.len() as int) =~= d@);
                },
                Record::SourceCopy(o) => {
                    let o = *o;
                    let from: usize = if o < 0 {
                        let back = (-o) as usize;
                        if back > src_offset {
                            return Err(Error::InvalidPatch);
                        }
                        src_offset - back
                    } else {
                        match src_offset.checked_add(o as usize) {
                            None => return Err(Error::InvalidPatch),
                            Some(f) => f,
                        }
                    };
                    if from > rom.len() || length > rom.len() - from {
                        return Err(Error::InvalidPatch);
                    }
                    push_range(&mut buf, rom, from, length);
                    src_offset = from + length;
                },
                Record::TargetCopy(o) => {
                    let o = *o;
                    let out_len = buf.len();
                    let from: usize = if o < 0 {
                        let back = (-o) as usize;
                        if back > out_offset {
                            return Err(Error::InvalidPatch);
                        }
                        out_offset - back
                    } else {
                        match out_offset.checked_add(o as usize) {
                            None => return Err(Error::InvalidPatch),
                            Some(f) => f,
                        }
                    };
                    if from >= out_len {
                        return Err(Error::InvalidPatch);
                    }
                    // the cursor ends as far behind the output's end as it starts
                    let behind = out_len - from;
                    let ghost start = buf@;
                    let mut k: usize = 0;
                    while k < length
                        invariant
                            k <= length,
                            from < start.len(),
                            buf@.len() == start.len() + k,
                            target_copy(start, from as int, length as nat) == target_copy(
                                buf@,
                                from + k,
                                (length - k) as nat,
                            ),
                        decreases length - k,
                    {
                        let n = buf.len();
                        let b = buf[from + k];
                        buf.push(b);
                        k = k + 1;
                    }
                    out_offset = buf.len() - behind;
                },
            }
            i = i + 1;
        }
        assert(rv.take(i as int) =~= rv);
        if let Err(e) = self.out_data.validate(buf.as_slice()) {
            return Err(e);
        }
        Ok(buf)
    }

    fn validate(&self, rom: &[u8]) -> (r: Option<Result<(), Error>>) {
        Some(self.src_data.validate(rom))
    }

    fn export(&self, crc: Option<u32>) -> (r: Result<Vec<u8>, Error>) {
        let body = self.body();
        let hash = crc32(body.as_slice());
        seal(body, hash, crc)
    }
}

} // verus!
