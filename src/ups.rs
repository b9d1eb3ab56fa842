use vstd::prelude::*;

use crate::checksum::{crc32, crc32_of, Validation};
use crate::varint::{lemma_var_dec_len, lemma_var_read_enc, read_var, var_enc, var_read, WriteVarExt};
use crate::wire::{
    from_le32, le32, lemma_trailer, pad, push_le32, push_range, read_le32, seal, sealed, suffix,
};
use crate::{Error, Patch};

verus! {

/// An XOR-difference patch as mathematical values.
pub struct UpsModel {
    pub src_data: Validation,
    pub out_data: Validation,
    /// Each record: the absolute offset of its first byte, and the bytes to XOR
    /// into the output from there, followed by a zero that ends the run.
    pub records: Seq<(usize, Seq<u8>)>,
}

/// The magic value `UPS1`.
pub open spec fn ups_magic() -> Seq<u8> {
    seq![0x55u8, 0x50u8, 0x53u8, 0x31u8]
}

/// The offset of record `k` as written: from the end of the record before it,
/// terminator included; the first is absolute.
pub open spec fn rel_offset(rs: Seq<(usize, Seq<u8>)>, k: int) -> int {
    if k == 0 {
        rs[0].0 as int
    } else {
        rs[k].0 - (rs[k - 1].0 + rs[k - 1].1.len())
    }
}

/// The bytes of the records, one after the other.
pub open spec fn records_bytes(rs: Seq<(usize, Seq<u8>)>) -> Seq<u8>
    decreases rs.len(),
{
    if rs.len() == 0 {
        Seq::empty()
    } else {
        records_bytes(rs.drop_last()) + var_enc(rel_offset(rs, rs.len() - 1) as nat) + rs.last().1
    }
}

/// A run of XOR bytes as stored: at least the terminating zero, and no zero
/// before it.
pub open spec fn run_wf(d: Seq<u8>) -> bool {
    &&& d.len() >= 1
    &&& d.last() == 0
    &&& forall|k: int| 0 <= k < d.len() - 1 ==> #[trigger] d[k] != 0
}

/// `buf` with the record's bytes, terminator excepted, XORed in at its offset;
/// `None` where they do not fit.
pub open spec fn xor_record(buf: Seq<u8>, r: (usize, Seq<u8>)) -> Option<Seq<u8>> {
    let n = r.1.len() - 1;
    if r.0 + n > buf.len() {
        None
    } else {
        Some(
            Seq::new(
                buf.len(),
                |k: int| if r.0 <= k < r.0 + n { buf[k] ^ r.1[k - r.0] } else { buf[k] },
            ),
        )
    }
}

/// `buf` with the records XORed in, first to last.
pub open spec fn xor_all(buf: Seq<u8>, rs: Seq<(usize, Seq<u8>)>) -> Option<Seq<u8>>
    decreases rs.len(),
{
    if rs.len() == 0 {
        Some(buf)
    } else {
        match xor_record(buf, rs[0]) {
            None => None,
            Some(b) => xor_all(b, rs.drop_first()),
        }
    }
}

/// The first position from `i` on where `a` and `t` agree, or the end of `t`.
pub open spec fn run_end(a: Seq<u8>, t: Seq<u8>, i: nat) -> nat
    decreases t.len() - i,
{
    if i >= t.len() || a[i as int] == t[i as int] {
        i
    } else {
        run_end(a, t, i + 1)
    }
}

/// `a[i..j]` XOR `t[i..j]`.
pub open spec fn xor_run(a: Seq<u8>, t: Seq<u8>, i: int, j: int) -> Seq<u8> {
    Seq::new((j - i) as nat, |k: int| a[i + k] ^ t[i + k])
}

/// What `run_end` finds: `a` and `t` differ from `i` up to it, and agree there
/// unless it is the end of `t`.
pub proof fn lemma_run_end(a: Seq<u8>, t: Seq<u8>, i: nat)
    requires
        i <= t.len(),
    ensures
        i <= run_end(a, t, i) <= t.len(),
        run_end(a, t, i) < t.len() ==> a[run_end(a, t, i) as int] == t[run_end(a, t, i) as int],
        forall|k: int| i <= k < run_end(a, t, i) ==> a[k] != t[k],
    decreases t.len() - i,
{
    if i < t.len() && a[i as int] != t[i as int] {
        lemma_run_end(a, t, i + 1);
    }
}

#[via_fn]
proof fn diff_records_decreases(a: Seq<u8>, t: Seq<u8>, i: nat) {
    if i < t.len() {
        lemma_run_end(a, t, i);
    }
}

/// The records that turn `a` into `t`, from position `i` on: one for each
/// maximal run of positions where they differ, holding the XOR of the two and a
/// terminating zero. The scan resumes after the position that ends a run.
pub open spec fn diff_records(a: Seq<u8>, t: Seq<u8>, i: nat) -> Seq<(usize, Seq<u8>)>
    decreases t.len() + 1 - i via diff_records_decreases
{
    if i >= t.len() {
        Seq::empty()
    } else if a[i as int] == t[i as int] {
        diff_records(a, t, i + 1)
    } else {
        let j = run_end(a, t, i);
        seq![(i as usize, xor_run(a, t, i as int, j as int).push(0u8))] + diff_records(
            a,
            t,
            j + 1,
        )
    }
}

/// The patch that `create` makes from `s` to `t`.
pub open spec fn create_model(s: Seq<u8>, t: Seq<u8>) -> UpsModel {
    UpsModel {
        src_data: Validation { size: s.len() as usize, crc: crc32_of(s) },
        out_data: Validation { size: t.len() as usize, crc: crc32_of(t) },
        records: diff_records(pad(s, t.len()), t, 0),
    }
}

/// XORing a byte's XOR with another back in gives the other; two different
/// bytes XOR to a nonzero byte.
proof fn lemma_xor_cancel(x: u8, y: u8)
    ensures
        x ^ (x ^ y) == y,
        x != y ==> x ^ y != 0,
{
    assert(x ^ (x ^ y) == y) by (bit_vector);
    assert(x != y ==> x ^ y != 0) by (bit_vector);
}

/// XORing in the records that `diff_records` gives from `i` on, to a buffer that
/// holds `a` from `i` on, yields `t` from `i` on and leaves the rest alone.
proof fn lemma_diff_records_apply(a: Seq<u8>, t: Seq<u8>, i: nat, buf: Seq<u8>)
    requires
        a.len() == t.len(),
        buf.len() == t.len(),
        t.len() < usize::MAX,
        forall|k: int| i <= k < t.len() ==> buf[k] == a[k],
    ensures
        xor_all(buf, diff_records(a, t, i)) == Some(
            Seq::new(t.len(), |k: int| if k < i { buf[k] } else { t[k] }),
        ),
    decreases t.len() + 1 - i,
{
    let goal = Seq::new(t.len(), |k: int| if k < i { buf[k] } else { t[k] });
    if i >= t.len() {
        assert(goal =~= buf);
    } else if a[i as int] == t[i as int] {
        lemma_diff_records_apply(a, t, i + 1, buf);
        assert(Seq::new(t.len(), |k: int| if k < i + 1 { buf[k] } else { t[k] }) =~= goal);
    } else {
        let j = run_end(a, t, i);
        lemma_run_end(a, t, i);
        let run = xor_run(a, t, i as int, j as int).push(0u8);
        let rs = diff_records(a, t, i);
        assert(rs[0] == (i as usize, run));
        assert(rs.drop_first() =~= diff_records(a, t, j + 1));
        let buf2 = Seq::new(
            buf.len(),
            |k: int| if i <= k < i + (run.len() - 1) { buf[k] ^ run[k - i] } else { buf[k] },
        );
        assert(xor_record(buf, rs[0]) == Some(buf2));
        assert forall|k: int| i <= k < j implies buf2[k] == t[k] by {
            assert(run[k - i] == a[k] ^ t[k]);
            lemma_xor_cancel(a[k], t[k]);
        }
        lemma_diff_records_apply(a, t, j + 1, buf2);
        assert(Seq::new(t.len(), |k: int| if k < j + 1 { buf2[k] } else { t[k] }) =~= goal);
    }
}

/// Applying the patch that `create` makes from `s` to `t` to `s` gives `t`.
pub proof fn lemma_create_apply(s: Seq<u8>, t: Seq<u8>)
    requires
        s.len() <= usize::MAX,
        t.len() < usize::MAX,
    ensures
        create_model(s, t).apply_result(s) == Ok::<Seq<u8>, Error>(t),
{
    let a = pad(s, t.len());
    lemma_diff_records_apply(a, t, 0, a);
    assert(Seq::new(t.len(), |k: int| if k < 0 { a[k] } else { t[k] }) =~= t);
}

/// The bytes of `s` up to and including its first zero, or all of `s` where it
/// holds none.
pub open spec fn until_zero(s: Seq<u8>) -> Seq<u8>
    decreases s.len(),
{
    if s.len() == 0 {
        Seq::empty()
    } else if s[0] == 0 {
        seq![0u8]
    } else {
        seq![s[0]] + until_zero(s.drop_first())
    }
}

/// What `until_zero` takes: a prefix with no zero but its last byte, which is a
/// zero unless the prefix is all of `s`.
pub proof fn lemma_until_zero(s: Seq<u8>)
    ensures
        until_zero(s) == s.take(until_zero(s).len() as int),
        until_zero(s).len() <= s.len(),
        forall|k: int| 0 <= k < until_zero(s).len() - 1 ==> #[trigger] until_zero(s)[k] != 0,
        until_zero(s).len() == s.len() || (until_zero(s).len() >= 1 && until_zero(s).last() == 0),
    decreases s.len(),
{
    if s.len() > 0 && s[0] != 0 {
        lemma_until_zero(s.drop_first());
        let d = until_zero(s);
        assert(d =~= s.take(d.len() as int));
        assert forall|k: int| 0 <= k < d.len() - 1 implies #[trigger] d[k] != 0 by {
            if k > 0 {
                assert(d[k] == until_zero(s.drop_first())[k - 1]);
            }
        }
    } else if s.len() > 0 {
        assert(until_zero(s) =~= s.take(1));
    } else {
        assert(until_zero(s) =~= s.take(0));
    }
}

/// The record at `pos`, where the record before it ended at `fpos`, and the
/// position after it.
pub open spec fn parse_record(b: Seq<u8>, pos: nat, fpos: nat) -> Result<
    ((usize, Seq<u8>), nat),
    Error,
> {
    match var_read(suffix(b, pos as int)) {
        Err(e) => Err(e),
        Ok((rel, n)) => {
            let d = until_zero(suffix(b, pos as int + n));
            if fpos + rel > usize::MAX {
                Err(Error::InvalidPatch)
            } else if fpos + rel + d.len() > usize::MAX {
                Err(Error::InvalidPatch)
            } else {
                Ok((((fpos + rel) as usize, d), pos + n + d.len()))
            }
        },
    }
}

/// A record that is read takes at least one byte and no more than there are.
pub proof fn lemma_parse_record_advances(b: Seq<u8>, pos: nat, fpos: nat)
    requires
        pos <= b.len(),
    ensures
        parse_record(b, pos, fpos) matches Ok((r, p)) ==> pos < p <= b.len(),
{
    lemma_var_dec_len(suffix(b, pos as int));
    if let Ok((rel, n)) = var_read(suffix(b, pos as int)) {
        lemma_until_zero(suffix(b, pos as int + n));
    }
}

#[via_fn]
proof fn parse_records_decreases(
    b: Seq<u8>,
    pos: nat,
    fpos: nat,
    acc: Seq<(usize, Seq<u8>)>,
) {
    if b.len() > pos + 12 {
        lemma_parse_record_advances(b, pos, fpos);
    }
}

/// The records read from `pos` on, after those in `acc`, while more than the
/// twelve bytes of the three checksums remain; and the position where they end.
pub open spec fn parse_records(b: Seq<u8>, pos: nat, fpos: nat, acc: Seq<(usize, Seq<u8>)>) -> Result<
    (Seq<(usize, Seq<u8>)>, nat),
    Error,
>
    decreases b.len() - pos via parse_records_decreases
{
    if b.len() <= pos + 12 {
        Ok((acc, pos))
    } else {
        match parse_record(b, pos, fpos) {
            Err(e) => Err(e),
            Ok((r, p)) => parse_records(b, p, (r.0 + r.1.len()) as nat, acc.push(r)),
        }
    }
}

/// What loading the bytes `b` as an XOR-difference patch gives. The patch read is
/// written out again, and its checksum must equal the file's last four bytes.
pub open spec fn parse_ups(b: Seq<u8>) -> Result<UpsModel, Error> {
    if b.len() < 4 {
        Err(Error::TruncatedInput)
    } else if b.subrange(0, 4) != ups_magic() {
        Err(Error::MagicMismatch)
    } else {
        match var_read(suffix(b, 4)) {
            Err(e) => Err(e),
            Ok((src_size, n1)) => match var_read(suffix(b, 4 + n1 as int)) {
                Err(e) => Err(e),
                Ok((out_size, n2)) => match parse_records(b, 4 + n1 + n2, 0, Seq::empty()) {
                    Err(e) => Err(e),
                    Ok((records, q)) => if q + 12 > b.len() {
                        Err(Error::TruncatedInput)
                    } else {
                        let m = UpsModel {
                            src_data: Validation {
                                size: src_size,
                                crc: from_le32(suffix(b, q as int)),
                            },
                            out_data: Validation {
                                size: out_size,
                                crc: from_le32(suffix(b, q + 4int)),
                            },
                            records,
                        };
                        match m.export_result(Some(from_le32(suffix(b, q + 8int)))) {
                            Err(e) => Err(e),
                            Ok(_) => Ok(m),
                        }
                    },
                },
            },
        }
    }
}

/// Records that can be written and read back unchanged: each run is well
/// formed, ends within the machine word, and starts no earlier than the one
/// before it ends.
pub open spec fn records_wf(rs: Seq<(usize, Seq<u8>)>) -> bool {
    &&& forall|k: int| 0 <= k < rs.len() ==> run_wf(#[trigger] rs[k].1)
    &&& forall|k: int| 0 <= k < rs.len() ==> #[trigger] rs[k].0 + rs[k].1.len() <= usize::MAX
    &&& forall|k: int| 0 < k < rs.len() ==> #[trigger] rs[k].0 >= rs[k - 1].0 + rs[k - 1].1.len()
}

/// The bytes of the first `i + 1` records: those of the first `i`, then record `i`.
proof fn lemma_records_bytes_step(rs: Seq<(usize, Seq<u8>)>, i: int)
    requires
        0 <= i < rs.len(),
    ensures
        records_bytes(rs.take(i + 1)) == records_bytes(rs.take(i)) + var_enc(
            rel_offset(rs, i) as nat,
        ) + rs[i].1,
{
    let t = rs.take(i + 1);
    assert(t.drop_last() =~= rs.take(i));
    assert(rel_offset(t, i) == rel_offset(rs, i));
}

/// A well-formed run is read back whole, whatever follows it.
proof fn lemma_until_zero_run(d: Seq<u8>, rest: Seq<u8>)
    requires
        run_wf(d),
    ensures
        until_zero(d + rest) == d,
    decreases d.len(),
{
    let s = d + rest;
    if d.len() == 1 {
        assert(s[0] == 0);
        assert(until_zero(s) =~= d);
    } else {
        assert(s[0] == d[0] && d[0] != 0);
        let t = d.drop_first();
        assert forall|k: int| 0 <= k < t.len() - 1 implies #[trigger] t[k] != 0 by {
            assert(t[k] == d[k + 1]);
        }
        lemma_until_zero_run(t, rest);
        assert(s.drop_first() =~= t + rest);
        assert(until_zero(s) =~= d);
    }
}

/// Where the last of the records ends, terminator included.
pub open spec fn records_end(rs: Seq<(usize, Seq<u8>)>) -> nat {
    if rs.len() == 0 {
        0
    } else {
        (rs.last().0 + rs.last().1.len()) as nat
    }
}

/// Dropping the last record keeps the records well formed.
proof fn lemma_records_wf_drop_last(rs: Seq<(usize, Seq<u8>)>)
    requires
        records_wf(rs),
        rs.len() > 0,
    ensures
        records_wf(rs.drop_last()),
{
    let init = rs.drop_last();
    assert forall|j: int| 0 <= j < init.len() implies run_wf(#[trigger] init[j].1) by {
        assert(init[j] == rs[j]);
    }
    assert forall|j: int| 0 <= j < init.len() implies #[trigger] init[j].0 + init[j].1.len()
        <= usize::MAX by {
        assert(init[j] == rs[j]);
    }
    assert forall|j: int| 0 < j < init.len() implies #[trigger] init[j].0 >= init[j - 1].0
        + init[j - 1].1.len() by {
        assert(init[j] == rs[j] && init[j - 1] == rs[j - 1]);
    }
}

/// Reading a well-formed record from its own bytes, with the checksums still to
/// follow, gives it back.
proof fn lemma_parse_record_bytes(
    b: Seq<u8>,
    q: nat,
    fpos: nat,
    acc: Seq<(usize, Seq<u8>)>,
    r: (usize, Seq<u8>),
)
    requires
        run_wf(r.1),
        r.0 + r.1.len() <= usize::MAX,
        fpos <= r.0,
        q + var_enc((r.0 - fpos) as nat).len() + r.1.len() + 12 <= b.len(),
        b.subrange(q as int, q + var_enc((r.0 - fpos) as nat).len() + r.1.len() as int) == var_enc(
            (r.0 - fpos) as nat,
        ) + r.1,
    ensures
        parse_records(b, q, fpos, acc) == parse_records(
            b,
            q + var_enc((r.0 - fpos) as nat).len() + r.1.len(),
            (r.0 + r.1.len()) as nat,
            acc.push(r),
        ),
{
    let rel = (r.0 - fpos) as nat;
    let v = var_enc(rel);
    let rb = v + r.1;
    let s = suffix(b, q as int);
    let rest = b.subrange(q + rb.len() as int, b.len() as int);
    assert(s =~= v + (r.1 + rest)) by {
        assert(s.subrange(0, rb.len() as int) =~= b.subrange(q as int, q + rb.len() as int));
    }
    lemma_var_read_enc(rel as usize, r.1 + rest);
    let n = v.len() as int;
    assert(suffix(b, q + n) =~= s.subrange(n, s.len() as int));
    assert((v + (r.1 + rest)).subrange(n, s.len() as int) =~= r.1 + rest);
    lemma_until_zero_run(r.1, rest);
}

/// Reading well-formed records from their own bytes, with the checksums still
/// to follow, gives them back.
proof fn lemma_parse_records_bytes(
    b: Seq<u8>,
    pos: nat,
    acc: Seq<(usize, Seq<u8>)>,
    rs: Seq<(usize, Seq<u8>)>,
)
    requires
        records_wf(rs),
        pos + records_bytes(rs).len() + 12 <= b.len(),
        b.subrange(pos as int, pos + records_bytes(rs).len() as int) == records_bytes(rs),
    ensures
        parse_records(b, pos, 0, acc) == parse_records(
            b,
            pos + records_bytes(rs).len(),
            records_end(rs),
            acc + rs,
        ),
    decreases rs.len(),
{
    if rs.len() == 0 {
        assert(acc + rs =~= acc);
    } else {
        let init = rs.drop_last();
        let k = rs.len() - 1;
        let r = rs[k];
        let bi = records_bytes(init);
        let q = pos + bi.len() as int;
        let rel = rel_offset(rs, k);
        lemma_records_wf_drop_last(rs);
        let rb = var_enc(rel as nat) + r.1;
        assert(records_bytes(rs) == bi + rb);
        assert(b.subrange(pos as int, q) =~= records_bytes(rs).subrange(0, bi.len() as int));
        assert(records_bytes(rs).subrange(0, bi.len() as int) =~= bi);
        lemma_parse_records_bytes(b, pos, acc, init);
        assert(rel >= 0 && records_end(init) + rel == r.0) by {
            if k > 0 {
                assert(init.last() == rs[k - 1]);
            }
        }
        assert(b.subrange(q, q + rb.len() as int) =~= records_bytes(rs).subrange(
            bi.len() as int,
            records_bytes(rs).len() as int,
        ));
        assert(records_bytes(rs).subrange(bi.len() as int, records_bytes(rs).len() as int) =~= rb);
        lemma_parse_record_bytes(b, q as nat, records_end(init), acc + init, r);
        assert((acc + init).push(r) =~= acc + rs);
    }
}

/// Writing a well-formed patch out and loading the bytes gives the same patch,
/// which therefore applies to every source as the original does.
pub proof fn lemma_export_load(m: UpsModel, rom: Seq<u8>)
    requires
        m.wf(),
    ensures
        parse_ups(m.file()) == Ok::<UpsModel, Error>(m),
        parse_ups(m.file()) matches Ok(m2) && m2.apply_result(rom) == m.apply_result(rom),
{
    let b = m.file();
    let v1 = var_enc(m.src_data.size as nat);
    let v2 = var_enc(m.out_data.size as nat);
    let rb = records_bytes(m.records);
    let tail = le32(m.src_data.crc) + le32(m.out_data.crc) + le32(crc32_of(m.body()));
    assert(b =~= ups_magic() + v1 + v2 + rb + tail);
    assert(b.subrange(0, 4) =~= ups_magic());
    lemma_var_read_enc(m.src_data.size, v2 + rb + tail);
    assert(suffix(b, 4) =~= v1 + (v2 + rb + tail));
    lemma_var_read_enc(m.out_data.size, rb + tail);
    assert(suffix(b, 4 + v1.len() as int) =~= v2 + (rb + tail));
    let p = 4 + v1.len() + v2.len() as int;
    assert(b.subrange(p, p + rb.len() as int) =~= rb);
    lemma_parse_records_bytes(b, p as nat, Seq::empty(), m.records);
    assert(Seq::<(usize, Seq<u8>)>::empty() + m.records =~= m.records);
    let q = p + rb.len() as int;
    assert(parse_records(b, q as nat, records_end(m.records), m.records) == Ok::<
        (Seq<(usize, Seq<u8>)>, nat),
        Error,
    >((m.records, q as nat)));
    assert(b.subrange(q, q + 12) =~= tail);
    lemma_trailer(b, q, m.src_data.crc, m.out_data.crc, crc32_of(m.body()));
}

impl UpsModel {
    /// A patch that can be written out and read back unchanged.
    pub open spec fn wf(self) -> bool {
        records_wf(self.records)
    }

    /// Everything that the file's own checksum covers.
    pub open spec fn body(self) -> Seq<u8> {
        ups_magic() + var_enc(self.src_data.size as nat) + var_enc(self.out_data.size as nat)
            + records_bytes(self.records) + le32(self.src_data.crc) + le32(self.out_data.crc)
    }

    /// The whole file: the body, then its CRC-32.
    pub open spec fn file(self) -> Seq<u8> {
        self.body() + le32(crc32_of(self.body()))
    }

    /// What writing the patch out gives, checked against `crc` where given.
    pub open spec fn export_result(self, crc: Option<u32>) -> Result<Seq<u8>, Error> {
        sealed(self.body(), crc32_of(self.body()), crc)
    }

    /// What applying the patch to `rom` gives: the source is checked, cut or
    /// padded to the target's size, the records are XORed in, and the output is
    /// checked.
    pub open spec fn apply_result(self, rom: Seq<u8>) -> Result<Seq<u8>, Error> {
        match self.src_data.outcome(rom.len(), crc32_of(rom)) {
            Err(e) => Err(e),
            Ok(_) => match xor_all(pad(rom, self.out_data.size as nat), self.records) {
                None => Err(Error::InvalidPatch),
                Some(out) => match self.out_data.outcome(out.len(), crc32_of(out)) {
                    Err(e) => Err(e),
                    Ok(_) => Ok(out),
                },
            },
        }
    }
}

spec fn records_view(rs: Seq<(usize, Vec<u8>)>) -> Seq<(usize, Seq<u8>)> {
    rs.map_values(|r: (usize, Vec<u8>)| (r.0, r.1@))
}

/// A patch in the XOR-difference format.
pub struct UpsPatch {
    src_data: Validation,
    out_data: Validation,
    records: Vec<(usize, Vec<u8>)>,
}

impl View for UpsPatch {
    type V = UpsModel;

    closed spec fn view(&self) -> UpsModel {
        UpsModel {
            src_data: self.src_data,
            out_data: self.out_data,
            records: records_view(self.records@),
        }
    }
}

/// The byte of `s` at `k`, or zero past its end.
fn padded_at(s: &[u8], k: usize) -> (r: u8)
    ensures
        r == (if k < s@.len() { s@[k as int] } else { 0u8 }),
{
    if k < s.len() {
        s[k]
    } else {
        0
    }
}

/// Reads the bytes at `pos` up to and including the first zero, or to the end.
fn read_until_zero(data: &[u8], pos: usize) -> (r: (Vec<u8>, usize))
    requires
        pos <= data@.len(),
    ensures
        r.0@ == until_zero(suffix(data@, pos as int)),
        r.1 == pos + r.0@.len(),
{
    let n = data.len();
    let mut d: Vec<u8> = Vec::new();
    let mut p = pos;
    while p < n
        invariant
            pos <= p <= n,
            n == data@.len(),
            d@.len() == p - pos,
            until_zero(suffix(data@, pos as int)) == d@ + until_zero(suffix(data@, p as int)),
        decreases n - p,
    {
        let x = data[p];
        let ghost rest = suffix(data@, p as int);
        assert(rest[0] == x);
        assert(rest.drop_first() =~= suffix(data@, p + 1));
        d.push(x);
        p = p + 1;
        if x == 0 {
            assert(until_zero(rest) =~= seq![0u8]);
            assert(until_zero(suffix(data@, pos as int)) =~= d@);
            return (d, p);
        }
        assert(until_zero(rest) == seq![x] + until_zero(suffix(data@, p as int)));
        assert(until_zero(suffix(data@, pos as int)) =~= d@ + until_zero(suffix(data@, p as int)));
    }
    assert(until_zero(suffix(data@, p as int)) =~= Seq::<u8>::empty());
    assert(until_zero(suffix(data@, pos as int)) =~= d@);
    (d, p)
}

/// Reads the record at `pos`, where the record before it ended at `fpos`.
fn read_record(data: &[u8], pos: usize, fpos: usize) -> (r: Result<((usize, Vec<u8>), usize), Error>)
    requires
        pos <= data@.len(),
    ensures
        match r {
            Ok((rec, p)) => parse_record(data@, pos as nat, fpos as nat) == Ok::<
                ((usize, Seq<u8>), nat),
                Error,
            >(((rec.0, rec.1@), p as nat)),
            Err(e) => parse_record(data@, pos as nat, fpos as nat) == Err::<
                ((usize, Seq<u8>), nat),
                Error,
            >(e),
        },
{
    let (rel, p) = match read_var(data, pos) {
        Err(e) => return Err(e),
        Ok(x) => x,
    };
    proof {
        lemma_var_dec_len(suffix(data@, pos as int));
    }
    let (d, q) = read_until_zero(data, p);
    let start = match fpos.checked_add(rel) {
        None => return Err(Error::InvalidPatch),
        Some(x) => x,
    };
    if d.len() > usize::MAX - start {
        return Err(Error::InvalidPatch);
    }
    Ok(((start, d), q))
}

/// Reads records from `start` while more than the twelve bytes of the three
/// checksums remain.
fn read_records(data: &[u8], start: usize) -> (r: Result<(Vec<(usize, Vec<u8>)>, usize), Error>)
    requires
        start <= data@.len(),
    ensures
        match r {
            Ok((rs, p)) => parse_records(data@, start as nat, 0, Seq::empty()) == Ok::<
                (Seq<(usize, Seq<u8>)>, nat),
                Error,
            >((records_view(rs@), p as nat)) && p <= data@.len() && (p < data@.len()
                ==> records_wf(records_view(rs@))),
            Err(e) => parse_records(data@, start as nat, 0, Seq::empty()) == Err::<
                (Seq<(usize, Seq<u8>)>, nat),
                Error,
            >(e),
        },
{
    let mut records: Vec<(usize, Vec<u8>)> = Vec::new();
    assert(records_view(records@) =~= Seq::empty());
    let mut pos = start;
    let mut fpos: usize = 0;
    while data.len() - pos > 12
        invariant
            start <= pos <= data@.len(),
            parse_records(data@, start as nat, 0, Seq::empty()) == parse_records(
                data@,
                pos as nat,
                fpos as nat,
                records_view(records@),
            ),
            records@.len() > 0 ==> fpos == records_view(records@).last().0 + records_view(
                records@,
            ).last().1.len(),
            forall|k: int|
                0 <= k < records@.len() ==> #[trigger] records_view(records@)[k].0
                    + records_view(records@)[k].1.len() <= usize::MAX,
            forall|k: int|
                0 < k < records@.len() ==> #[trigger] records_view(records@)[k].0
                    >= records_view(records@)[k - 1].0 + records_view(records@)[k - 1].1.len(),
            pos < data@.len() ==> forall|k: int|
                0 <= k < records@.len() ==> run_wf(#[trigger] records_view(records@)[k].1),
        decreases data@.len() - pos,
    {
        let (rec, p) = match read_record(data, pos, fpos) {
            Err(e) => return Err(e),
            Ok(x) => x,
        };
        proof {
            lemma_parse_record_advances(data@, pos as nat, fpos as nat);
            lemma_var_dec_len(suffix(data@, pos as int));
            if let Ok((rel, n)) = var_read(suffix(data@, pos as int)) {
                lemma_until_zero(suffix(data@, pos + n));
            }
        }
        let ghost before = records_view(records@);
        fpos = rec.0 + rec.1.len();
        records.push(rec);
        assert(records_view(records@) =~= before.push((rec.0, rec.1@)));
        pos = p;
    }
    Ok((records, pos))
}

impl UpsPatch {
    /// Reads an XOR-difference patch from `data`. The patch read is written out
    /// again, and its checksum must equal the file's last four bytes.
    #[verifier::rlimit(40)]
    pub fn load(data: &[u8]) -> (r: Result<UpsPatch, Error>)
        ensures
            match r {
                Ok(p) => parse_ups(data@) == Ok::<UpsModel, Error>(p@),
                Err(e) => parse_ups(data@) == Err::<UpsModel, Error>(e),
            },
    {
        if data.len() < 4 {
            return Err(Error::TruncatedInput);
        }
        if !(data[0] == 0x55 && data[1] == 0x50 && data[2] == 0x53 && data[3] == 0x31) {
            assert(data@.subrange(0, 4) != ups_magic()) by {
                if data@.subrange(0, 4) == ups_magic() {
                    assert(data@.subrange(0, 4)[0] == data@[0]);
                    assert(data@.subrange(0, 4)[1] == data@[1]);
                    assert(data@.subrange(0, 4)[2] == data@[2]);
                    assert(data@.subrange(0, 4)[3] == data@[3]);
                }
            }
            return Err(Error::MagicMismatch);
        }
        assert(data@.subrange(0, 4) =~= ups_magic());
        let (src_size, p1) = match read_var(data, 4) {
            Err(e) => return Err(e),
            Ok(x) => x,
        };
        proof {
            lemma_var_dec_len(suffix(data@, 4));
        }
        let (out_size, p2) = match read_var(data, p1) {
            Err(e) => return Err(e),
            Ok(x) => x,
        };
        proof {
            lemma_var_dec_len(suffix(data@, p1 as int));
        }
        let (records, pos) = match read_records(data, p2) {
            Err(e) => return Err(e),
            Ok(x) => x,
        };
        let (src_crc, q1) = match read_le32(data, pos) {
            Err(e) => return Err(e),
            Ok(x) => x,
        };
        let (out_crc, q2) = match read_le32(data, q1) {
            Err(e) => return Err(e),
            Ok(x) => x,
        };
        let (file_crc, _) = match read_le32(data, q2) {
            Err(e) => return Err(e),
            Ok(x) => x,
        };
        let patch = UpsPatch {
            src_data: Validation { size: src_size, crc: src_crc },
            out_data: Validation { size: out_size, crc: out_crc },
            records,
        };
        match patch.export(Some(file_crc)) {
            Err(e) => Err(e),
            Ok(_) => Ok(patch),
        }
    }

    /// Makes the patch that turns `src` into `dst`: a source shorter than `dst`
    /// counts as padded with zeros, and each maximal run of positions where they
    /// differ becomes one record.
    pub fn create(src: &[u8], dst: &[u8]) -> (r: UpsPatch)
        requires
            dst@.len() < usize::MAX,
        ensures
            r@ == create_model(src@, dst@),
    {
        let n = dst.len();
        let ghost a = pad(src@, dst@.len());
        let ghost t = dst@;
        let mut records: Vec<(usize, Vec<u8>)> = Vec::new();
        assert(records_view(records@) =~= Seq::empty());
        let mut i: usize = 0;
        while i < n
            invariant
                i <= n + 1,
                n == t.len(),
                n < usize::MAX,
                a == pad(src@, t.len()),
                t == dst@,
                records_view(records@) + diff_records(a, t, i as nat) == diff_records(a, t, 0),
                forall|k: int|
                    0 <= k < records@.len() ==> run_wf(#[trigger] records_view(records@)[k].1)
                        && records_view(records@)[k].0 + records_view(records@)[k].1.len() <= i,
                forall|k: int|
                    0 < k < records@.len() ==> #[trigger] records_view(records@)[k].0
                        >= records_view(records@)[k - 1].0 + records_view(records@)[k
                        - 1].1.len(),
            decreases n + 1 - i,
        {
            let ghost rv = records_view(records@);
            if padded_at(src, i) == dst[i] {
                assert(diff_records(a, t, i as nat) == diff_records(a, t, (i + 1) as nat));
                i = i + 1;
            } else {
                let start = i;
                let mut d: Vec<u8> = Vec::new();
                let mut j = i;
                assert(d@ =~= xor_run(a, t, i as int, j as int));
                while j < n && padded_at(src, j) != dst[j]
                    invariant
                        i <= j <= n,
                        n == t.len(),
                        a == pad(src@, t.len()),
                        t == dst@,
                        i < n,
                        a[i as int] != t[i as int],
                        d@ == xor_run(a, t, i as int, j as int),
                        run_end(a, t, i as nat) == run_end(a, t, j as nat),
                        forall|k: int| 0 <= k < d@.len() ==> #[trigger] d@[k] != 0,
                    decreases n - j,
                {
                    let x = padded_at(src, j);
                    let y = dst[j];
                    proof {
                        lemma_xor_cancel(x, y);
                    }
                    d.push(x ^ y);
                    j = j + 1;
                    assert(d@ =~= xor_run(a, t, i as int, j as int));
                }
                let ghost run = d@;
                d.push(0);
                proof {
                    lemma_run_end(a, t, i as nat);
                    assert(run_end(a, t, j as nat) == j);
                    assert(diff_records(a, t, i as nat) == seq![(i as usize, run.push(0u8))]
                        + diff_records(a, t, (j + 1) as nat));
                }
                records.push((start, d));
                assert(records_view(records@) =~= rv.push((start, run.push(0u8))));
                assert(records_view(records@) + diff_records(a, t, (j + 1) as nat) =~= rv + (seq![
                    (i as usize, run.push(0u8)),
                ] + diff_records(a, t, (j + 1) as nat)));
                i = j + 1;
            }
        }
        assert(diff_records(a, t, i as nat) =~= Seq::empty());
        assert(records_view(records@) =~= diff_records(a, t, 0));
        UpsPatch {
            src_data: Validation { size: src.len(), crc: crc32(src) },
            out_data: Validation { size: n, crc: crc32(dst) },
            records,
        }
    }

    #[verifier::type_invariant]
    spec fn inv(self) -> bool {
        self@.wf()
    }

    /// The bytes that the file's checksum covers.
    fn body(&self) -> (r: Vec<u8>)
        ensures
            r@ == self@.body(),
    {
        proof {
            use_type_invariant(self);
        }
        let ghost rv = records_view(self.records@);
        let mut buf: Vec<u8> = Vec::new();
        buf.push(0x55);
        buf.push(0x50);
        buf.push(0x53);
        buf.push(0x31);
        buf.write_var_int(self.src_data.size);
        buf.write_var_int(self.out_data.size);
        let ghost head = buf@;
        let mut i: usize = 0;
        while i < self.records.len()
            invariant
                i <= self.records@.len(),
                rv == records_view(self.records@),
                self@.records == rv,
                self@.wf(),
                buf@ == head + records_bytes(rv.take(i as int)),
            decreases self.records@.len() - i,
        {
            let rel = if i == 0 {
                self.records[0].0
            } else {
                assert(rv[i as int].0 >= rv[i - 1].0 + rv[i - 1].1.len());
                self.records[i].0 - (self.records[i - 1].0 + self.records[i - 1].1.len())
            };
            assert(rel == rel_offset(rv, i as int));
            buf.write_var_int(rel);
            let d = &self.records[i].1;
            push_range(&mut buf, d.as_slice(), 0, d.len());
            proof {
                lemma_records_bytes_step(rv, i as int);
                assert(d@.subrange(0, d@.len() as int) =~= d@);
            }
            i = i + 1;
        }
        assert(rv.take(i as int) =~= rv);
        push_le32(&mut buf, self.src_data.crc);
        push_le32(&mut buf, self.out_data.crc);
        assert(buf@ =~= self@.body());
        buf
    }
}

impl Patch for UpsPatch {
    open spec fn apply_spec(&self, rom: Seq<u8>) -> Result<Seq<u8>, Error> {
        self@.apply_result(rom)
    }

    open spec fn validate_spec(&self, rom: Seq<u8>) -> Option<Result<(), Error>> {
        Some(self@.src_data.outcome(rom.len(), crc32_of(rom)))
    }

    open spec fn export_spec(&self, crc: Option<u32>) -> Result<Seq<u8>, Error> {
        self@.export_result(crc)
    }

    fn apply(&self, rom: &[u8]) -> (r: Result<Vec<u8>, Error>) {
        proof {
            use_type_invariant(self);
        }
        if let Err(e) = self.src_data.validate(rom) {
            return Err(e);
        }
        let size = self.out_data.size;
        let mut buf: Vec<u8> = Vec::new();
        let mut k: usize = 0;
        while k < size
            invariant
                k <= size,
                buf@ == pad(rom@, size as nat).take(k as int),
            decreases size - k,
        {
            if k < rom.len() {
                buf.push(rom[k]);
            } else {
                buf.push(0);
            }
            k = k + 1;
            assert(buf@ =~= pad(rom@, size as nat).take(k as int));
        }
        assert(buf@ =~= pad(rom@, size as nat));
        let ghost rv = records_view(self.records@);
        assert(rv.skip(0) =~= rv);
        let mut i: usize = 0;
        while i < self.records.len()
            invariant
                i <= self.records@.len(),
                rv == records_view(self.records@),
                self@.records == rv,
                self@.wf(),
                size == self.out_data.size,
                buf@.len() == size,
                self@.src_data.outcome(rom@.len(), crc32_of(rom@)) is Ok,
                xor_all(pad(rom@, size as nat), rv) == xor_all(buf@, rv.skip(i as int)),
            decreases self.records@.len() - i,
        {
            let off = self.records[i].0;
            let d = &self.records[i].1;
            assert(rv[i as int] == (off, d@));
            assert(run_wf(rv[i as int].1));
            assert(rv.skip(i as int)[0] == rv[i as int]);
            assert(rv.skip(i as int).drop_first() =~= rv.skip(i + 1));
            let n = d.len() - 1;
            if off > buf.len() || n > buf.len() - off {
                return Err(Error::InvalidPatch);
            }
            let ghost start = buf@;
            let mut u: usize = 0;
            while u < n
                invariant
                    u <= n,
                    n == d@.len() - 1,
                    off + n <= start.len(),
                    start.len() <= usize::MAX,
                    buf@ == Seq::new(
                        start.len(),
                        |k: int| if off <= k < off + u { start[k] ^ d@[k - off] } else { start[k] },
                    ),
                decreases n - u,
            {
                let b = buf[off + u] ^ d[u];
                buf.set(off + u, b);
                u = u + 1;
                assert(buf@ =~= Seq::new(
                    start.len(),
                    |k: int| if off <= k < off + u { start[k] ^ d@[k - off] } else { start[k] },
                ));
            }
            i = i + 1;
        }
        assert(rv.skip(i as int) =~= Seq::empty());
        if let Err(e) = self.out_data.validate(buf.as_slice()) {
            return Err(e);
        }
        Ok(buf)
    }

    fn validate(&self, rom: &[u8]) -> (r: Option<Result<(), Error>>) {
        Some(self.src_data.validate(rom))
    }

    fn export(&self, crc: Option<u32>) -> (r: Result<Vec<u8>, Error>) {
        let body = self.body();
        let hash = crc32(body.as_slice());
        seal(body, hash, crc)
    }
}

} // verus!
