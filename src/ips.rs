use vstd::prelude::*;

use crate::checksum::{crc32, crc32_of};
use crate::wire::{copy_range, pad, push_range};
use crate::{bytes_result, Error};

verus! {

/// What one record of a byte-run patch writes, over mathematical values.
pub enum Edit {
    /// These bytes.
    Bytes(Seq<u8>),
    /// This byte, repeated this many times.
    ByteRun(u8, u16),
}

/// A byte-run patch as mathematical values.
pub struct IpsModel {
    /// Each record: the absolute offset it writes at, and what it writes.
    pub records: Seq<(usize, Edit)>,
    /// The output's length, where the file states it.
    pub outsz: Option<usize>,
}

/// The magic value `PATCH`.
pub open spec fn ips_magic() -> Seq<u8> {
    seq![0x50u8, 0x41u8, 0x54u8, 0x43u8, 0x48u8]
}

/// The offset `\0EOF` read as a big-endian number, which ends the records.
pub open spec fn eof_mark() -> nat {
    0x454f46
}

/// The big-endian 24-bit number at `p`.
pub open spec fn be24(b: Seq<u8>, p: int) -> nat {
    (b[p] * 0x10000 + b[p + 1] * 0x100 + b[p + 2]) as nat
}

/// The big-endian 16-bit number at `p`.
pub open spec fn be16(b: Seq<u8>, p: int) -> nat {
    (b[p] * 0x100 + b[p + 1]) as nat
}

/// The three big-endian bytes of `v`.
pub open spec fn be24_bytes(v: nat) -> Seq<u8> {
    seq![(v / 0x10000 % 0x100) as u8, (v / 0x100 % 0x100) as u8, (v % 0x100) as u8]
}

/// The two big-endian bytes of `v`.
pub open spec fn be16_bytes(v: nat) -> Seq<u8> {
    seq![(v / 0x100 % 0x100) as u8, (v % 0x100) as u8]
}

/// How many bytes a record writes.
pub open spec fn edit_len(e: Edit) -> nat {
    match e {
        Edit::Bytes(d) => d.len(),
        Edit::ByteRun(_, n) => n as nat,
    }
}

/// The byte that a record writes at `k` past its offset.
pub open spec fn edit_byte(e: Edit, k: int) -> u8 {
    match e {
        Edit::Bytes(d) => d[k],
        Edit::ByteRun(v, _) => v,
    }
}

/// The records read from `pos` on, after those in `acc`. They end at the end of
/// the input, or at the offset `\0EOF`, which exactly three more bytes may
/// follow to state the output's length.
pub open spec fn parse_records(b: Seq<u8>, pos: nat, acc: Seq<(usize, Edit)>) -> Result<
    IpsModel,
    Error,
>
    decreases b.len() - pos,
{
    let p = pos as int;
    if pos >= b.len() {
        Ok(IpsModel { records: acc, outsz: None })
    } else if pos + 3 > b.len() {
        Err(Error::TruncatedInput)
    } else if be24(b, p) == eof_mark() {
        if b.len() == pos + 6 {
            Ok(IpsModel { records: acc, outsz: Some(be24(b, p + 3) as usize) })
        } else {
            Ok(IpsModel { records: acc, outsz: None })
        }
    } else if pos + 5 > b.len() {
        Err(Error::TruncatedInput)
    } else {
        let off = be24(b, p) as usize;
        let len = be16(b, p + 3);
        if len == 0 {
            if pos + 8 > b.len() {
                Err(Error::TruncatedInput)
            } else {
                parse_records(
                    b,
                    pos + 8,
                    acc.push((off, Edit::ByteRun(b[p + 7], be16(b, p + 5) as u16))),
                )
            }
        } else if pos + 5 + len > b.len() {
            Err(Error::TruncatedInput)
        } else {
            parse_records(
                b,
                pos + 5 + len,
                acc.push((off, Edit::Bytes(b.subrange(p + 5, p + 5 + len)))),
            )
        }
    }
}

/// What loading the bytes `b` as a byte-run patch gives.
pub open spec fn parse_ips(b: Seq<u8>) -> Result<IpsModel, Error> {
    if b.len() < 5 {
        Err(Error::TruncatedInput)
    } else if b.subrange(0, 5) != ips_magic() {
        Err(Error::MagicMismatch)
    } else {
        parse_records(b, 5, Seq::empty())
    }
}

/// The output's length where the file does not state it: the largest of the
/// source's length and the end of each record.
pub open spec fn natural_size(rs: Seq<(usize, Edit)>, rom_len: nat) -> nat
    decreases rs.len(),
{
    if rs.len() == 0 {
        rom_len
    } else {
        let acc = natural_size(rs.drop_last(), rom_len);
        let end = rs.last().0 + edit_len(rs.last().1);
        if end > acc {
            end as nat
        } else {
            acc
        }
    }
}

/// `buf` with the record written at its offset; `None` where it does not fit.
pub open spec fn write_record(buf: Seq<u8>, r: (usize, Edit)) -> Option<Seq<u8>> {
    if r.0 + edit_len(r.1) > buf.len() {
        None
    } else {
        Some(
            Seq::new(
                buf.len(),
                |k: int| if r.0 <= k < r.0 + edit_len(r.1) { edit_byte(r.1, k - r.0) } else { buf[k] },
            ),
        )
    }
}

/// `buf` with the records written, first to last.
pub open spec fn write_all(buf: Seq<u8>, rs: Seq<(usize, Edit)>) -> Option<Seq<u8>>
    decreases rs.len(),
{
    if rs.len() == 0 {
        Some(buf)
    } else {
        match write_record(buf, rs[0]) {
            None => None,
            Some(b) => write_all(b, rs.drop_first()),
        }
    }
}

/// The bytes of one record.
pub open spec fn record_bytes(r: (usize, Edit)) -> Seq<u8> {
    be24_bytes(r.0 as nat) + match r.1 {
        Edit::Bytes(d) => be16_bytes(d.len()) + d,
        Edit::ByteRun(v, n) => seq![0u8, 0u8] + be16_bytes(n as nat) + seq![v],
    }
}

/// The bytes of the records, one after the other.
pub open spec fn records_bytes(rs: Seq<(usize, Edit)>) -> Seq<u8>
    decreases rs.len(),
{
    if rs.len() == 0 {
        Seq::empty()
    } else {
        records_bytes(rs.drop_last()) + record_bytes(rs.last())
    }
}

/// A record that can be written and read back unchanged.
pub open spec fn record_wf(r: (usize, Edit)) -> bool {
    &&& r.0 < 0x1000000
    &&& r.0 != eof_mark()
    &&& match r.1 {
        Edit::Bytes(d) => 1 <= d.len() <= 0xffff,
        Edit::ByteRun(_, _) => true,
    }
}

impl IpsModel {
    /// A patch that can be written out and read back unchanged: every record is
    /// well formed, and a stated output length fits three bytes.
    pub open spec fn wf(self) -> bool {
        &&& forall|i: int| 0 <= i < self.records.len() ==> record_wf(#[trigger] self.records[i])
        &&& self.outsz matches Some(n) ==> n < 0x1000000
    }

    /// The file: the magic value, the records, the offset `\0EOF` and the output's
    /// length where it is stated.
    pub open spec fn file(self) -> Seq<u8> {
        ips_magic() + records_bytes(self.records) + seq![0x45u8, 0x4fu8, 0x46u8] + match self.outsz {
            None => Seq::empty(),
            Some(n) => be24_bytes(n as nat),
        }
    }

    /// What writing the patch out gives, checked against `crc` where given: the
    /// format carries no checksum, so the file's CRC-32 is compared.
    pub open spec fn export_result(self, crc: Option<u32>) -> Result<Seq<u8>, Error> {
        match crc {
            Some(c) if crc32_of(self.file()) != c => Err(
                Error::ChecksumMismatch(crc32_of(self.file()), c),
            ),
            _ => Ok(self.file()),
        }
    }

    /// The output's length when applied to a source of length `rom_len`.
    pub open spec fn out_size(self, rom_len: nat) -> nat {
        match self.outsz {
            Some(n) => n as nat,
            None => natural_size(self.records, rom_len),
        }
    }

    /// What applying the patch to `rom` gives: the source cut or padded to the
    /// output's length, with every record written over it.
    pub open spec fn apply_result(self, rom: Seq<u8>) -> Result<Seq<u8>, Error> {
        match write_all(pad(rom, self.out_size(rom.len())), self.records) {
            None => Err(Error::InvalidPatch),
            Some(out) => Ok(out),
        }
    }
}

/// Three bytes written by `be24_bytes` read back as the number.
proof fn lemma_be_round_trip(v: nat, b: Seq<u8>, p: int)
    requires
        0 <= p,
        p + 3 <= b.len(),
        b.subrange(p, p + 3) == be24_bytes(v),
        v < 0x1000000,
    ensures
        be24(b, p) == v,
{
    let x = v as u32;
    assert(b[p] == b.subrange(p, p + 3)[0]);
    assert(b[p + 1] == b.subrange(p, p + 3)[1]);
    assert(b[p + 2] == b.subrange(p, p + 3)[2]);
    assert(x < 0x1000000 ==> (x / 0x10000 % 0x100) * 0x10000 + (x / 0x100 % 0x100) * 0x100 + x
        % 0x100 == x) by (bit_vector);
}

/// Two bytes written by `be16_bytes` read back as the number.
proof fn lemma_be16_round_trip(v: nat, b: Seq<u8>, p: int)
    requires
        0 <= p,
        p + 2 <= b.len(),
        b.subrange(p, p + 2) == be16_bytes(v),
        v < 0x10000,
    ensures
        be16(b, p) == v,
{
    let x = v as u32;
    assert(b[p] == b.subrange(p, p + 2)[0]);
    assert(b[p + 1] == b.subrange(p, p + 2)[1]);
    assert(x < 0x10000 ==> (x / 0x100 % 0x100) * 0x100 + x % 0x100 == x) by (bit_vector);
}

/// Reading a well-formed record from its own bytes gives it back, and reading
/// goes on after them.
proof fn lemma_parse_record_bytes(b: Seq<u8>, pos: nat, acc: Seq<(usize, Edit)>, r: (usize, Edit))
    requires
        record_wf(r),
        pos + record_bytes(r).len() <= b.len(),
        b.subrange(pos as int, pos + record_bytes(r).len() as int) == record_bytes(r),
    ensures
        parse_records(b, pos, acc) == parse_records(b, pos + record_bytes(r).len(), acc.push(r)),
{
    let rb = record_bytes(r);
    let p = pos as int;
    assert(b.subrange(p, p + 3) =~= rb.subrange(0, 3));
    assert(rb.subrange(0, 3) =~= be24_bytes(r.0 as nat));
    lemma_be_round_trip(r.0 as nat, b, p);
    match r.1 {
        Edit::Bytes(d) => {
            assert(b.subrange(p + 3, p + 5) =~= rb.subrange(3, 5));
            assert(rb.subrange(3, 5) =~= be16_bytes(d.len()));
            lemma_be16_round_trip(d.len(), b, p + 3);
            assert(b.subrange(p + 5, p + 5 + d.len() as int) =~= rb.subrange(5, 5 + d.len() as int));
            assert(rb.subrange(5, 5 + d.len() as int) =~= d);
        },
        Edit::ByteRun(v, n) => {
            assert(b.subrange(p + 3, p + 5) =~= rb.subrange(3, 5));
            assert(rb.subrange(3, 5) =~= be16_bytes(0));
            lemma_be16_round_trip(0, b, p + 3);
            assert(b.subrange(p + 5, p + 7) =~= rb.subrange(5, 7));
            assert(rb.subrange(5, 7) =~= be16_bytes(n as nat));
            lemma_be16_round_trip(n as nat, b, p + 5);
            assert(b[p + 7] == rb[7]);
        },
    }
}

/// Reading well-formed records from their own bytes gives them back, and reading
/// goes on after them.
proof fn lemma_parse_records_bytes(b: Seq<u8>, pos: nat, acc: Seq<(usize, Edit)>, rs: Seq<(usize, Edit)>)
    requires
        forall|i: int| 0 <= i < rs.len() ==> record_wf(#[trigger] rs[i]),
        pos + records_bytes(rs).len() <= b.len(),
        b.subrange(pos as int, pos + records_bytes(rs).len() as int) == records_bytes(rs),
    ensures
        parse_records(b, pos, acc) == parse_records(b, pos + records_bytes(rs).len(), acc + rs),
    decreases rs.len(),
{
    if rs.len() == 0 {
        assert(acc + rs =~= acc);
    } else {
        let init = rs.drop_last();
        let r = rs.last();
        let q = pos + records_bytes(init).len() as int;
        assert(records_bytes(rs) == records_bytes(init) + record_bytes(r));
        assert(b.subrange(pos as int, q) =~= records_bytes(rs).subrange(0, records_bytes(init).len() as int));
        assert(records_bytes(rs).subrange(0, records_bytes(init).len() as int) =~= records_bytes(init));
        lemma_parse_records_bytes(b, pos, acc, init);
        assert(b.subrange(q, q + record_bytes(r).len() as int) =~= records_bytes(rs).subrange(
            records_bytes(init).len() as int,
            records_bytes(rs).len() as int,
        ));
        assert(records_bytes(rs).subrange(
            records_bytes(init).len() as int,
            records_bytes(rs).len() as int,
        ) =~= record_bytes(r));
        lemma_parse_record_bytes(b, q as nat, acc + init, r);
        assert((acc + init).push(r) =~= acc + rs);
    }
}

/// Writing a well-formed patch out and loading the bytes gives the same patch,
/// which therefore applies to every source as the original does.
pub proof fn lemma_save_load(m: IpsModel, rom: Seq<u8>)
    requires
        m.wf(),
    ensures
        parse_ips(m.file()) == Ok::<IpsModel, Error>(m),
        parse_ips(m.file()) matches Ok(m2) && m2.apply_result(rom) == m.apply_result(rom),
{
    let b = m.file();
    let rb = records_bytes(m.records);
    assert(b.subrange(0, 5) =~= ips_magic());
    assert(b.subrange(5, 5 + rb.len() as int) =~= rb);
    lemma_parse_records_bytes(b, 5, Seq::empty(), m.records);
    assert(Seq::<(usize, Edit)>::empty() + m.records =~= m.records);
    let q = 5 + rb.len() as int;
    assert(b.subrange(q, q + 3) =~= be24_bytes(eof_mark()));
    lemma_be_round_trip(eof_mark(), b, q);
    if let Some(n) = m.outsz {
        assert(b.subrange(q + 3, q + 6) =~= be24_bytes(n as nat));
        lemma_be_round_trip(n as nat, b, q + 3);
    }
}

enum Record {
    Bytes(Vec<u8>),
    ByteRun(u8, u16),
}

impl View for Record {
    type V = Edit;

    closed spec fn view(&self) -> Edit {
        match self {
            Record::Bytes(d) => Edit::Bytes(d@),
            Record::ByteRun(v, n) => Edit::ByteRun(*v, *n),
        }
    }
}

spec fn records_view(rs: Seq<(usize, Record)>) -> Seq<(usize, Edit)> {
    rs.map_values(|r: (usize, Record)| (r.0, r.1@))
}

/// A patch in the byte-run format.
pub struct Patch {
    records: Vec<(usize, Record)>,
    outsz: Option<usize>,
}

impl View for Patch {
    type V = IpsModel;

    closed spec fn view(&self) -> IpsModel {
        IpsModel { records: records_view(self.records@), outsz: self.outsz }
    }
}

/// Reads the big-endian 16-bit number at `pos`, giving it and the position after
/// it.
fn read_u16(data: &[u8], pos: usize) -> (r: Result<(u16, usize), Error>)
    ensures
        pos + 2 <= data@.len() ==> r == Ok::<(u16, usize), Error>(
            (be16(data@, pos as int) as u16, (pos + 2) as usize),
        ),
        pos + 2 > data@.len() ==> r == Err::<(u16, usize), Error>(Error::TruncatedInput),
{
    if data.len() < 2 || pos > data.len() - 2 {
        return Err(Error::TruncatedInput);
    }
    let v = data[pos] as u16 * 0x100 + data[pos + 1] as u16;
    Ok((v, pos + 2))
}

/// Appends the two big-endian bytes of `val`.
fn write_u16(buf: &mut Vec<u8>, val: u16)
    ensures
        final(buf)@ == old(buf)@ + be16_bytes(val as nat),
{
    buf.push((val / 0x100) as u8);
    buf.push((val % 0x100) as u8);
    assert(buf@ =~= old(buf)@ + be16_bytes(val as nat));
}

impl Patch {
    /// Reads a byte-run patch from `data`.
    pub fn load(data: &[u8]) -> (r: Result<Patch, Error>)
        ensures
            match r {
                Ok(p) => parse_ips(data@) == Ok::<IpsModel, Error>(p@),
                Err(e) => parse_ips(data@) == Err::<IpsModel, Error>(e),
            },
    {
        let n = data.len();
        if n < 5 {
            return Err(Error::TruncatedInput);
        }
        if !(data[0] == 0x50 && data[1] == 0x41 && data[2] == 0x54 && data[3] == 0x43 && data[4]
            == 0x48) {
            assert(data@.subrange(0, 5) != ips_magic()) by {
                if data@.subrange(0, 5) == ips_magic() {
                    assert(data@.subrange(0, 5)[0] == data@[0]);
                    assert(data@.subrange(0, 5)[1] == data@[1]);
                    assert(data@.subrange(0, 5)[2] == data@[2]);
                    assert(data@.subrange(0, 5)[3] == data@[3]);
                    assert(data@.subrange(0, 5)[4] == data@[4]);
                }
            }
            return Err(Error::MagicMismatch);
        }
        assert(data@.subrange(0, 5) =~= ips_magic());
        let mut records: Vec<(usize, Record)> = Vec::new();
        assert(records_view(records@) =~= Seq::empty());
        let mut pos: usize = 5;
        loop
            invariant
                pos <= n,
                n == data@.len(),
                parse_ips(data@) == parse_records(data@, pos as nat, records_view(records@)),
                forall|j: int|
                    0 <= j < records@.len() ==> record_wf(#[trigger] records_view(records@)[j]),
            decreases n - pos,
        {
            if pos >= n {
                return Ok(Patch { records, outsz: None });
            }
            let (off, p) = match Patch::read_u24(data, pos) {
                Err(e) => return Err(e),
                Ok(x) => x,
            };
            if off == 0x454f46 {
                if n - p == 3 {
                    let (size, _) = match Patch::read_u24(data, p) {
                        Err(e) => return Err(e),
                        Ok(x) => x,
                    };
                    return Ok(Patch { records, outsz: Some(size as usize) });
                }
                return Ok(Patch { records, outsz: None });
            }
            let (len, p) = match read_u16(data, p) {
                Err(e) => return Err(e),
                Ok(x) => x,
            };
            let ghost before = records_view(records@);
            if len == 0 {
                let (run, p) = match read_u16(data, p) {
                    Err(e) => return Err(e),
                    Ok(x) => x,
                };
                if p >= n {
                    return Err(Error::TruncatedInput);
                }
                let v = data[p];
                records.push((off as usize, Record::ByteRun(v, run)));
                assert(records_view(records@) =~= before.push(
                    (off as usize, Edit::ByteRun(v, run)),
                ));
                pos = p + 1;
            } else {
                if len as usize > n - p {
                    return Err(Error::TruncatedInput);
                }
                let d = copy_range(data, p, len as usize);
                records.push((off as usize, Record::Bytes(d)));
                assert(records_view(records@) =~= before.push((off as usize, Edit::Bytes(d@))));
                pos = p + len as usize;
            }
        }
    }

    /// Builds the target buffer from the source buffer `rom`: the source cut or
    /// padded to the output's length, with every record written over it.
    pub fn apply(&self, rom: &[u8]) -> (r: Result<Vec<u8>, Error>)
        ensures
            bytes_result(r) == self@.apply_result(rom@),
    {
        proof {
            use_type_invariant(self);
        }
        let ghost rv = records_view(self.records@);
        assert(self@.records == rv);
        let size = match self.outsz {
            Some(n) => n,
            None => {
                let mut acc = rom.len();
                let mut i: usize = 0;
                while i < self.records.len()
                    invariant
                        i <= self.records@.len(),
                        rv == records_view(self.records@),
                        forall|j: int| 0 <= j < rv.len() ==> record_wf(#[trigger] rv[j]),
                        acc == natural_size(rv.take(i as int), rom@.len()),
                    decreases self.records@.len() - i,
                {
                    assert(record_wf(rv[i as int]));
                    let off = self.records[i].0;
                    let len = match &self.records[i].1 {
                        Record::Bytes(d) => d.len(),
                        Record::ByteRun(_, n) => *n as usize,
                    };
                    assert(len == edit_len(rv[i as int].1));
                    assert(rv.take(i + 1).drop_last() =~= rv.take(i as int));
                    if off + len > acc {
                        acc = off + len;
                    }
                    i = i + 1;
                }
                assert(rv.take(i as int) =~= rv);
                acc
            },
        };
        let mut buf: Vec<u8> = Vec::new();
        let mut k: usize = 0;
        while k < size
            invariant
                k <= size,
                buf@ == pad(rom@, size as nat).take(k as int),
            decreases size - k,
        {
            if k < rom.len() {
                buf.push(rom[k]);
            } else {
                buf.push(0);
            }
            k = k + 1;
            assert(buf@ =~= pad(rom@, size as nat).take(k as int));
        }
        assert(buf@ =~= pad(rom@, size as nat));
        assert(rv.skip(0) =~= rv);
        let mut i: usize = 0;
        while i < self.records.len()
            invariant
                i <= self.records@.len(),
                rv == records_view(self.records@),
                size == self@.out_size(rom@.len()),
                buf@.len() == size,
                write_all(pad(rom@, size as nat), rv) == write_all(buf@, rv.skip(i as int)),
            decreases self.records@.len() - i,
        {
            let off = self.records[i].0;
            let rec = &self.records[i].1;
            assert(rv[i as int] == (off, rec@));
            assert(rv.skip(i as int)[0] == rv[i as int]);
            assert(rv.skip(i as int).drop_first() =~= rv.skip(i + 1));
            let len = match rec {
                Record::Bytes(d) => d.len(),
                Record::ByteRun(_, n) => *n as usize,
            };
            if off > buf.len() || len > buf.len() - off {
                return Err(Error::InvalidPatch);
            }
            let ghost start = buf@;
            let mut u: usize = 0;
            while u < len
                invariant
                    u <= len,
                    len == edit_len(rec@),
                    off + len <= start.len(),
                    start.len() <= usize::MAX,
                    buf@ == Seq::new(
                        start.len(),
                        |k: int| if off <= k < off + u { edit_byte(rec@, k - off) } else { start[k] },
                    ),
                decreases len - u,
            {
                let v = match rec {
                    Record::Bytes(d) => d[u],
                    Record::ByteRun(v, _) => *v,
                };
                buf.set(off + u, v);
                u = u + 1;
                assert(buf@ =~= Seq::new(
                    start.len(),
                    |k: int| if off <= k < off + u { edit_byte(rec@, k - off) } else { start[k] },
                ));
            }
            i = i + 1;
        }
        assert(rv.skip(i as int) =~= Seq::empty());
        Ok(buf)
    }

    /// The patch file's bytes.
    pub fn save(&self) -> (r: Vec<u8>)
        ensures
            r@ == self@.file(),
    {
        proof {
            use_type_invariant(self);
        }
        let ghost rv = records_view(self.records@);
        assert(self@.records == rv);
        let mut buf: Vec<u8> = Vec::new();
        buf.push(0x50);
        buf.push(0x41);
        buf.push(0x54);
        buf.push(0x43);
        buf.push(0x48);
        let ghost head = buf@;
        let mut i: usize = 0;
        while i < self.records.len()
            invariant
                i <= self.records@.len(),
                rv == records_view(self.records@),
                forall|j: int| 0 <= j < rv.len() ==> record_wf(#[trigger] rv[j]),
                buf@ == head + records_bytes(rv.take(i as int)),
            decreases self.records@.len() - i,
        {
            let off = self.records[i].0;
            let rec = &self.records[i].1;
            assert(rv[i as int] == (off, rec@));
            assert(record_wf(rv[i as int]));
            let ghost before = buf@;
            Patch::write_u24(&mut buf, off as u32);
            match rec {
                Record::Bytes(d) => {
                    write_u16(&mut buf, d.len() as u16);
                    push_range(&mut buf, d.as_slice(), 0, d.len());
                    assert(d@.subrange(0, d@.len() as int) =~= d@);
                },
                Record::ByteRun(v, n) => {
                    write_u16(&mut buf, 0);
                    write_u16(&mut buf, *n);
                    buf.push(*v);
                },
            }
            assert(rv.take(i + 1).drop_last() =~= rv.take(i as int));
            assert(buf@ =~= before + record_bytes(rv[i as int]));
            i = i + 1;
        }
        assert(rv.take(i as int) =~= rv);
        buf.push(0x45);
        buf.push(0x4f);
        buf.push(0x46);
        if let Some(n) = self.outsz {
            Patch::write_u24(&mut buf, n as u32);
        }
        assert(buf@ =~= self@.file());
        buf
    }

    #[verifier::type_invariant]
    spec fn inv(self) -> bool {
        self@.wf()
    }

    /// Reads the big-endian 24-bit number at `pos`, giving it and the position
    /// after it.
    pub fn read_u24(data: &[u8], pos: usize) -> (r: Result<(u32, usize), Error>)
        ensures
            pos + 3 <= data@.len() ==> r == Ok::<(u32, usize), Error>(
                (be24(data@, pos as int) as u32, (pos + 3) as usize),
            ),
            pos + 3 > data@.len() ==> r == Err::<(u32, usize), Error>(Error::TruncatedInput),
    {
        if data.len() < 3 || pos > data.len() - 3 {
            return Err(Error::TruncatedInput);
        }
        let v = data[pos] as u32 * 0x10000 + data[pos + 1] as u32 * 0x100 + data[pos + 2] as u32;
        Ok((v, pos + 3))
    }

    /// Appends the three big-endian bytes of `val`.
    pub fn write_u24(buf: &mut Vec<u8>, val: u32)
        ensures
            final(buf)@ == old(buf)@ + be24_bytes(val as nat),
    {
        buf.push((val / 0x10000 % 0x100) as u8);
        buf.push((val / 0x100 % 0x100) as u8);
        buf.push((val % 0x100) as u8);
        assert(buf@ =~= old(buf)@ + be24_bytes(val as nat));
    }
}

impl crate::Patch for Patch {
    open spec fn apply_spec(&self, rom: Seq<u8>) -> Result<Seq<u8>, Error> {
        self@.apply_result(rom)
    }

    open spec fn validate_spec(&self, rom: Seq<u8>) -> Option<Result<(), Error>> {
        None
    }

    open spec fn export_spec(&self, crc: Option<u32>) -> Result<Seq<u8>, Error> {
        self@.export_result(crc)
    }

    fn apply(&self, rom: &[u8]) -> (r: Result<Vec<u8>, Error>) {
        Patch::apply(self, rom)
    }

    fn validate(&self, rom: &[u8]) -> (r: Option<Result<(), Error>>) {
        None
    }

    fn export(&self, crc: Option<u32>) -> (r: Result<Vec<u8>, Error>) {
        let buf = self.save();
        let hash = crc32(buf.as_slice());
        if let Some(c) = crc {
            if hash != c {
                return Err(Error::ChecksumMismatch(hash, c));
            }
        }
        Ok(buf)
    }
}

} // verus!
