use crate::record::Rec;
use vstd::prelude::*;
use vstd::string::StringExecFns;

verus! {

/// The block size of unbuffered transfers: every block moved to or from a
/// backing store has this many bytes.
pub const ALIGNMENT: usize = 4096;

/// The broad class of a failure, as callers test it.
#[derive(Clone, Copy, Debug, PartialEq, Eq)]
pub enum ErrorKind {
    UnexpectedEof,
}

/// Why a record could not be read. Both are truncated input: the stream ended
/// inside a record.
#[derive(Clone, Copy, Debug, PartialEq, Eq)]
pub enum ReadError {
    /// The stream ended after some, but not all, bytes of a field.
    Truncated,
    /// The stream ended right after a key: its payload is missing altogether.
    PayloadMissing,
}

impl ReadError {
    pub fn kind(&self) -> (k: ErrorKind)
        ensures
            k == ErrorKind::UnexpectedEof,
    {
        ErrorKind::UnexpectedEof
    }

    /// The failure in words.
    pub fn message(&self) -> (s: String)
        ensures
            s@ == match *self {
                ReadError::Truncated => "truncated record at EOF"@,
                ReadError::PayloadMissing => "payload missing (truncated gensort record)"@,
            },
    {
        match self {
            ReadError::Truncated => String::from_str("truncated record at EOF"),
            ReadError::PayloadMissing => String::from_str(
                "payload missing (truncated gensort record)",
            ),
        }
    }
}

/// A block of `ALIGNMENT` zero bytes.
fn zeroed_block() -> (block: Vec<u8>)
    ensures
        block@.len() == ALIGNMENT,
        forall|i: int| 0 <= i < ALIGNMENT ==> block@[i] == 0,
{
    let mut block: Vec<u8> = Vec::with_capacity(ALIGNMENT);
    let mut i: usize = 0;
    while i < ALIGNMENT
        invariant
            i <= ALIGNMENT,
            block@.len() == i,
            forall|k: int| 0 <= k < i ==> block@[k] == 0,
        decreases ALIGNMENT - i,
    {
        block.push(0u8);
        i += 1;
    }
    block
}

/// A reader that takes its backing store in blocks of `ALIGNMENT` bytes and
/// hands the bytes out in order. One call of `read` never crosses a block
/// boundary, so a caller that wants a fixed number of bytes has to ask again.
pub struct DirectReader {
    file: Vec<u8>,
    buffer: Vec<u8>,
    buffer_pos: usize,
    buffer_valid: usize,
    file_pos: usize,
    file_size: usize,
}

impl DirectReader {
    pub closed spec fn wf(&self) -> bool {
        &&& self.buffer@.len() == ALIGNMENT
        &&& self.buffer_pos <= self.buffer_valid <= ALIGNMENT
        &&& self.file_pos <= self.file_size
        &&& self.file_size == self.file@.len()
        &&& self.buffer_valid - self.buffer_pos <= self.file_pos
    }

    /// The bytes that have not been handed out yet, in order.
    pub closed spec fn remaining(&self) -> Seq<u8> {
        self.buffer@.subrange(self.buffer_pos as int, self.buffer_valid as int)
            + self.file@.subrange(self.file_pos as int, self.file_size as int)
    }

    /// The most that the next `read` hands out: what is left of the block in
    /// hand or, when that is used up, the size of the block that comes next.
    pub closed spec fn next_chunk(&self) -> nat {
        if self.buffer_pos < self.buffer_valid {
            (self.buffer_valid - self.buffer_pos) as nat
        } else if self.file_size - self.file_pos >= ALIGNMENT {
            ALIGNMENT as nat
        } else {
            (self.file_size - self.file_pos) as nat
        }
    }

    /// A chunk is never empty before the end, never longer than a block, and
    /// never more than what remains.
    pub proof fn lemma_next_chunk(&self)
        requires
            self.wf(),
        ensures
            self.next_chunk() <= self.remaining().len(),
            self.next_chunk() <= ALIGNMENT,
            self.next_chunk() == 0 <==> self.remaining().len() == 0,
    {
    }

    /// What remains is part of a store that is held in memory, so its length
    /// is a `usize`.
    pub proof fn lemma_remaining_fits(&self)
        requires
            self.wf(),
        ensures
            self.remaining().len() <= usize::MAX,
    {
    }

    /// A reader at the start of `file`.
    pub fn new(file: Vec<u8>) -> (reader: Self)
        ensures
            reader.wf(),
            reader.remaining() == file@,
    {
        let file_size = file.len();
        let reader = Self {
            file,
            buffer: zeroed_block(),
            buffer_pos: 0,
            buffer_valid: 0,
            file_pos: 0,
            file_size,
        };
        assert(reader.remaining() =~= file@);
        reader
    }

    /// Takes the next block of the backing store into the buffer. Returns
    /// `false` at the end of the store.
    fn fill_buffer(&mut self) -> (filled: bool)
        requires
            old(self).wf(),
            old(self).buffer_pos >= old(self).buffer_valid,
        ensures
            final(self).wf(),
            final(self).remaining() == old(self).remaining(),
            final(self).next_chunk() == old(self).next_chunk(),
            filled == (old(self).remaining().len() > 0),
            filled ==> final(self).buffer_pos < final(self).buffer_valid,
    {
        if self.file_pos >= self.file_size {
            return false;
        }
        let left: usize = self.file_size - self.file_pos;
        let bytes_read: usize = if left < ALIGNMENT {
            left
        } else {
            ALIGNMENT
        };
        let ghost before = *self;
        let mut i: usize = 0;
        while i < bytes_read
            invariant
                i <= bytes_read,
                bytes_read <= ALIGNMENT,
                bytes_read <= self.file_size - self.file_pos,
                self.wf(),
                self.file == before.file,
                self.file_pos == before.file_pos,
                self.file_size == before.file_size,
                forall|k: int| 0 <= k < i ==> self.buffer@[k] == self.file@[self.file_pos + k],
            decreases bytes_read - i,
        {
            self.buffer[i] = self.file[self.file_pos + i];
            i += 1;
        }
        self.buffer_valid = bytes_read;
        self.buffer_pos = 0;
        self.file_pos += bytes_read;
        assert(self.remaining() =~= before.remaining());
        true
    }

    /// Copies bytes into the front of `buf`, as many as `buf` takes and the
    /// block in hand still holds, and returns how many. Returns 0 only when
    /// `buf` is empty or nothing remains.
    pub fn read(&mut self, buf: &mut [u8]) -> (n: usize)
        requires
            old(self).wf(),
        ensures
            final(self).wf(),
            n == if old(buf)@.len() <= old(self).next_chunk() {
                old(buf)@.len()
            } else {
                old(self).next_chunk()
            },
            n <= old(self).remaining().len(),
            final(buf)@ == old(self).remaining().subrange(0, n as int) + old(buf)@.subrange(
                n as int,
                old(buf)@.len() as int,
            ),
            final(self).remaining() == old(self).remaining().skip(n as int),
    {
        if self.buffer_pos >= self.buffer_valid {
            if !self.fill_buffer() {
                assert(buf@ =~= old(self).remaining().subrange(0, 0) + old(buf)@.subrange(
                    0,
                    old(buf)@.len() as int,
                ));
                assert(self.remaining() =~= old(self).remaining().skip(0));
                return 0;
            }
        }
        let available: usize = self.buffer_valid - self.buffer_pos;
        let to_copy: usize = if available < buf.len() {
            available
        } else {
            buf.len()
        };
        let ghost start = *self;
        let mut i: usize = 0;
        while i < to_copy
            invariant
                i <= to_copy,
                to_copy <= self.buffer_valid - self.buffer_pos,
                to_copy <= buf@.len(),
                buf@.len() == old(buf)@.len(),
                self.wf(),
                *self == start,
                forall|k: int| 0 <= k < i ==> buf@[k] == self.buffer@[self.buffer_pos + k],
                forall|k: int| i <= k < buf@.len() ==> buf@[k] == old(buf)@[k],
            decreases to_copy - i,
        {
            buf[i] = self.buffer[self.buffer_pos + i];
            i += 1;
        }
        self.buffer_pos += to_copy;
        assert(buf@ =~= old(self).remaining().subrange(0, to_copy as int) + old(buf)@.subrange(
            to_copy as int,
            old(buf)@.len() as int,
        ));
        assert(self.remaining() =~= old(self).remaining().skip(to_copy as int));
        to_copy
    }
}

/// Reads exactly `N` bytes.
///
/// With at least `N` bytes left, returns them and moves past them. With
/// nothing left, returns `None`: the stream ended cleanly. With some bytes
/// left but fewer than `N`, the stream is truncated: the bytes are used up and
/// the error is `Truncated`.
pub fn read_exact_into<const N: usize>(r: &mut DirectReader) -> (res: Result<
    Option<[u8; N]>,
    ReadError,
>)
    requires
        old(r).wf(),
    ensures
        final(r).wf(),
        match res {
            Ok(Some(bytes)) => {
                &&& old(r).remaining().len() >= N
                &&& bytes@ == old(r).remaining().subrange(0, N as int)
                &&& final(r).remaining() == old(r).remaining().skip(N as int)
            },
            Ok(None) => {
                &&& old(r).remaining().len() == 0
                &&& N > 0
                &&& final(r).remaining() == old(r).remaining()
            },
            Err(e) => {
                &&& e == ReadError::Truncated
                &&& 0 < old(r).remaining().len() < N
                &&& final(r).remaining().len() == 0
            },
        },
{
    let mut buf = [0u8; N];
    let mut read: usize = 0;
    let ghost all = r.remaining();
    while read < N
        invariant
            r.wf(),
            read <= N,
            read <= all.len(),
            all == old(r).remaining(),
            r.remaining() == all.skip(read as int),
            buf@.subrange(0, read as int) == all.subrange(0, read as int),
        decreases N - read,
    {
        let ghost before = buf@;
        let ghost left = r.remaining();
        proof {
            r.lemma_next_chunk();
        }
        let (_, tail) = buf.split_at_mut(read);
        let n = r.read(tail);
        if n == 0 {
            if read == 0 {
                return Ok(None);
            } else {
                return Err(ReadError::Truncated);
            }
        }
        proof {
            assert(r.remaining() =~= all.skip(read + n));
            assert(buf@.subrange(0, read + n) =~= all.subrange(0, read + n)) by {
                assert(buf@ =~= before.subrange(0, read as int) + (left.subrange(0, n as int)
                    + before.subrange(read as int, N as int).subrange(n as int, N - read)));
                assert forall|k: int| 0 <= k < read + n implies buf@[k] == all[k] by {
                    if k < read {
                        assert(before.subrange(0, read as int)[k] == all.subrange(
                            0,
                            read as int,
                        )[k]);
                    } else {
                        assert(left[k - read] == all[k]);
                    }
                }
            }
        }
        read += n;
    }
    assert(buf@ =~= all.subrange(0, N as int));
    Ok(Some(buf))
}

/// What `read_gensort_record` answers on a stream whose unread bytes are
/// `bytes`, so far as the bytes alone decide it: the error, if the stream ends
/// inside its next record.
pub open spec fn next_record_error(bytes: Seq<u8>) -> Option<ReadError> {
    if bytes.len() == 0 || bytes.len() >= 100 {
        None
    } else if bytes.len() == 10 {
        Some(ReadError::PayloadMissing)
    } else {
        Some(ReadError::Truncated)
    }
}

/// The record that the first 100 of `bytes` spell: the key, then the payload.
pub open spec fn is_record_at_front(rec: Rec, bytes: Seq<u8>) -> bool {
    &&& bytes.len() >= 100
    &&& rec.key@ == bytes.subrange(0, 10)
    &&& rec.payload@ == bytes.subrange(10, 100)
}

/// `rec` is the record that stands at place `i` of `bytes`, where each record
/// takes 100 bytes.
pub open spec fn is_record_at(rec: Rec, bytes: Seq<u8>, i: int) -> bool {
    &&& 0 <= i
    &&& 100 * i + 100 <= bytes.len()
    &&& rec.key@ == bytes.subrange(100 * i, 100 * i + 10)
    &&& rec.payload@ == bytes.subrange(100 * i + 10, 100 * i + 100)
}

/// The record at place `i` of `bytes`.
pub open spec fn record_at(bytes: Seq<u8>, i: int) -> Rec {
    choose|rec: Rec| is_record_at(rec, bytes, i)
}

/// The whole records that `bytes` holds, in order. Bytes after the last whole
/// record are not part of any.
pub open spec fn records_of(bytes: Seq<u8>) -> Seq<Rec> {
    Seq::new((bytes.len() / 100) as nat, |i: int| record_at(bytes, i))
}

/// The error that reading `bytes` to the end runs into: none where the length
/// is a multiple of 100, else the one for the bytes after the last whole
/// record.
pub open spec fn input_error(bytes: Seq<u8>) -> Option<ReadError> {
    next_record_error(bytes.skip(100 * (bytes.len() as int / 100)))
}

/// A place of `bytes` holds one record only.
pub proof fn lemma_record_at_unique(rec: Rec, bytes: Seq<u8>, i: int)
    requires
        is_record_at(rec, bytes, i),
    ensures
        record_at(bytes, i) == rec,
        i < records_of(bytes).len(),
        records_of(bytes)[i] == rec,
{
    let other = record_at(bytes, i);
    assert(is_record_at(other, bytes, i));
    assert(other.key =~= rec.key);
    assert(other.payload =~= rec.payload);
}

/// Reads one record: a 10-byte key, then a 90-byte payload.
///
/// Returns `None` when the stream ends before the first byte of the key, and
/// an error when it ends anywhere else inside the record. A record is never
/// handed out in part.
pub fn read_gensort_record(r: &mut DirectReader) -> (res: Result<Option<Rec>, ReadError>)
    requires
        old(r).wf(),
    ensures
        final(r).wf(),
        match res {
            Ok(Some(rec)) => {
                &&& is_record_at_front(rec, old(r).remaining())
                &&& final(r).remaining() == old(r).remaining().skip(100)
            },
            Ok(None) => {
                &&& old(r).remaining().len() == 0
                &&& final(r).remaining() == old(r).remaining()
            },
            Err(e) => {
                &&& next_record_error(old(r).remaining()) == Some(e)
                &&& final(r).remaining().len() == 0
            },
        },
{
    let ghost all = r.remaining();
    let key = match read_exact_into::<10>(r) {
        Ok(Some(k)) => k,
        Ok(None) => {
            return Ok(None);
        },
        Err(e) => {
            return Err(e);
        },
    };
    let payload = match read_exact_into::<90>(r) {
        Ok(Some(p)) => p,
        Ok(None) => {
            return Err(ReadError::PayloadMissing);
        },
        Err(e) => {
            return Err(e);
        },
    };
    proof {
        assert(payload@ =~= all.subrange(10, 100));
        assert(r.remaining() =~= all.skip(100));
    }
    Ok(Some(Rec::new(key, payload)))
}

/// The decimal digit `d` as a character.
pub open spec fn digit_char(d: nat) -> char {
    if d == 0 {
        '0'
    } else if d == 1 {
        '1'
    } else if d == 2 {
        '2'
    } else if d == 3 {
        '3'
    } else if d == 4 {
        '4'
    } else if d == 5 {
        '5'
    } else if d == 6 {
        '6'
    } else if d == 7 {
        '7'
    } else if d == 8 {
        '8'
    } else {
        '9'
    }
}

/// `n` in decimal, without leading zeros.
pub open spec fn decimal(n: nat) -> Seq<char>
    decreases n,
{
    if n < 10 {
        seq![digit_char(n)]
    } else {
        decimal(n / 10).push(digit_char(n % 10))
    }
}

/// `n` in decimal, padded with zeros on the left to three digits; longer where
/// `n` needs more.
pub open spec fn ordinal(n: nat) -> Seq<char> {
    if n < 10 {
        seq!['0', '0'] + decimal(n)
    } else if n < 100 {
        seq!['0'] + decimal(n)
    } else {
        decimal(n)
    }
}

/// The name of the file of run `idx`: the prefix, an underscore, the ordinal,
/// and the extension `.bin`.
pub open spec fn spec_run_file_name(prefix: Seq<char>, idx: nat) -> Seq<char> {
    prefix + seq!['_'] + ordinal(idx) + seq!['.', 'b', 'i', 'n']
}

fn digit_str(d: usize) -> (s: &'static str)
    requires
        d < 10,
    ensures
        s@ == seq![digit_char(d as nat)],
{
    proof {
        reveal_strlit("0");
        reveal_strlit("1");
        reveal_strlit("2");
        reveal_strlit("3");
        reveal_strlit("4");
        reveal_strlit("5");
        reveal_strlit("6");
        reveal_strlit("7");
        reveal_strlit("8");
        reveal_strlit("9");
    }
    let s = if d == 0 {
        "0"
    } else if d == 1 {
        "1"
    } else if d == 2 {
        "2"
    } else if d == 3 {
        "3"
    } else if d == 4 {
        "4"
    } else if d == 5 {
        "5"
    } else if d == 6 {
        "6"
    } else if d == 7 {
        "7"
    } else if d == 8 {
        "8"
    } else {
        "9"
    };
    assert(s@ =~= seq![digit_char(d as nat)]);
    s
}

fn append_decimal(s: &mut String, n: usize)
    ensures
        final(s)@ == old(s)@ + decimal(n as nat),
    decreases n,
{
    if n >= 10 {
        append_decimal(s, n / 10);
    }
    s.append(digit_str(n % 10));
    assert(s@ =~= old(s)@ + decimal(n as nat));
}

/// The name of the file that holds run `idx`.
pub fn run_file_name(prefix: &str, idx: usize) -> (name: String)
    ensures
        name@ == spec_run_file_name(prefix@, idx as nat),
{
    proof {
        reveal_strlit("_");
        reveal_strlit("00");
        reveal_strlit("0");
        reveal_strlit(".bin");
    }
    let mut name = String::from_str(prefix);
    name.append("_");
    if idx < 10 {
        name.append("00");
    } else if idx < 100 {
        name.append("0");
    }
    append_decimal(&mut name, idx);
    name.append(".bin");
    assert(name@ =~= spec_run_file_name(prefix@, idx as nat));
    name
}

/// A finished file: its name and what it holds.
#[derive(Clone, Debug, PartialEq, Eq)]
pub struct RunFile {
    pub name: String,
    pub data: Vec<u8>,
}

/// Puts `src[from..from + n]` over `dst[at..at + n]`.
fn copy_into(dst: &mut Vec<u8>, at: usize, src: &[u8], from: usize, n: usize)
    requires
        at + n <= old(dst)@.len(),
        from + n <= src@.len(),
    ensures
        final(dst)@ == old(dst)@.subrange(0, at as int) + src@.subrange(from as int, from + n)
            + old(dst)@.subrange(at + n, old(dst)@.len() as int),
{
    let mut i: usize = 0;
    while i < n
        invariant
            i <= n,
            at + n <= dst.len(),
            from + n <= src.len(),
            dst@.len() == old(dst)@.len(),
            forall|k: int| 0 <= k < at ==> dst@[k] == old(dst)@[k],
            forall|k: int| at <= k < at + i ==> dst@[k] == src@[from + k - at],
            forall|k: int| at + i <= k < dst@.len() ==> dst@[k] == old(dst)@[k],
        decreases n - i,
    {
        dst[at + i] = src[from + i];
        i += 1;
    }
    assert(dst@ =~= old(dst)@.subrange(0, at as int) + src@.subrange(from as int, from + n)
        + old(dst)@.subrange(at + n, old(dst)@.len() as int));
}

/// Adds `src[from..to]` to the end of `dst`.
fn append_range(dst: &mut Vec<u8>, src: &[u8], from: usize, to: usize)
    requires
        from <= to <= src@.len(),
    ensures
        final(dst)@ == old(dst)@ + src@.subrange(from as int, to as int),
{
    let mut i: usize = from;
    while i < to
        invariant
            from <= i <= to,
            to <= src@.len(),
            dst@ == old(dst)@ + src@.subrange(from as int, i as int),
        decreases to - i,
    {
        dst.push(src[i]);
        assert(dst@ =~= old(dst)@ + src@.subrange(from as int, i + 1));
        i += 1;
    }
    assert(dst@ =~= old(dst)@ + src@.subrange(from as int, to as int));
}

/// What a writer has done so far, as the contracts speak of it.
pub struct WriterState {
    /// The bytes that the backing file holds.
    pub file: Seq<u8>,
    /// The bytes that wait in the buffer.
    pub pending: Seq<u8>,
    /// How many bytes of the file have been handed out by `take_blocks`.
    pub taken: nat,
}

impl WriterState {
    /// Nothing written yet, on an empty file.
    pub open spec fn empty() -> WriterState {
        WriterState { file: Seq::empty(), pending: Seq::empty(), taken: 0 }
    }

    /// Every byte written so far, in order: those in the file, then those in
    /// the buffer.
    pub open spec fn written(self) -> Seq<u8> {
        self.file + self.pending
    }

    /// The state after `data` was written. The waiting bytes and `data`
    /// together fill so many whole blocks; these go to the file, and what is
    /// left over waits.
    pub open spec fn after_write(self, data: Seq<u8>) -> WriterState {
        let all = self.pending + data;
        let whole = (all.len() as int / ALIGNMENT as int) * ALIGNMENT as int;
        WriterState {
            file: self.file + all.subrange(0, whole),
            pending: all.subrange(whole, all.len() as int),
            ..self
        }
    }

    /// The state after a flush. The waiting bytes go to the file as one block
    /// padded with zeros, and the file is then cut back to the bytes that were
    /// written: all of them are in the file, and nothing else.
    pub open spec fn after_flush(self) -> WriterState {
        let padded = self.pending + Seq::new(
            (ALIGNMENT - self.pending.len()) as nat,
            |i: int| 0u8,
        );
        let moved = if self.pending.len() > 0 {
            self.file + padded
        } else {
            self.file
        };
        WriterState {
            file: moved.subrange(0, self.written().len() as int),
            pending: Seq::empty(),
            ..self
        }
    }

    /// The bytes of the file that have not been handed out yet.
    pub open spec fn untaken(self) -> Seq<u8> {
        self.file.skip(self.taken as int)
    }

    /// The state after `take_blocks`: all of the file has been handed out.
    pub open spec fn after_take(self) -> WriterState {
        WriterState { taken: self.file.len(), ..self }
    }

    /// The state after each of `writes` was written, in order.
    pub open spec fn after_writes(self, writes: Seq<Seq<u8>>) -> WriterState
        decreases writes.len(),
    {
        if writes.len() == 0 {
            self
        } else {
            self.after_writes(writes.drop_last()).after_write(writes.last())
        }
    }
}

/// The bytes of `writes`, one write after the other.
pub open spec fn concat(writes: Seq<Seq<u8>>) -> Seq<u8>
    decreases writes.len(),
{
    if writes.len() == 0 {
        Seq::empty()
    } else {
        concat(writes.drop_last()) + writes.last()
    }
}

/// A write adds its bytes to what was written, and leaves less than a block
/// waiting.
pub proof fn lemma_write_appends(state: WriterState, data: Seq<u8>)
    ensures
        state.after_write(data).written() == state.written() + data,
        state.after_write(data).pending.len() < ALIGNMENT,
        state.after_write(data).pending.len() == (state.pending.len() + data.len()) as int % (
        ALIGNMENT as int),
{
    let all = state.pending + data;
    let whole = (all.len() as int / ALIGNMENT as int) * ALIGNMENT as int;
    assert(0 <= whole <= all.len());
    assert(all.subrange(0, whole) + all.subrange(whole, all.len() as int) =~= all);
    assert(state.after_write(data).written() =~= state.written() + data);
}

/// Where nothing has been handed out, all of the file is still to hand out.
pub proof fn lemma_nothing_taken(state: WriterState)
    requires
        state.taken == 0,
    ensures
        state.untaken() == state.file,
{
    assert(state.file.skip(0) =~= state.file);
}

/// A flush puts into the file what was written, and nothing else.
pub proof fn lemma_flush_writes_out(state: WriterState)
    requires
        state.pending.len() < ALIGNMENT,
    ensures
        state.after_flush().file == state.written(),
        state.after_flush().pending.len() == 0,
        state.after_flush().written() == state.written(),
{
    assert(state.after_flush().file =~= state.written());
    assert(state.after_flush().written() =~= state.written());
}

/// Two writes, one after the other, do what one write of all their bytes does.
pub proof fn lemma_writes_join(state: WriterState, first: Seq<u8>, second: Seq<u8>)
    requires
        state.pending.len() < ALIGNMENT,
    ensures
        state.after_write(first).after_write(second) == state.after_write(first + second),
{
    let all1 = state.pending + first;
    let whole1 = (all1.len() as int / ALIGNMENT as int) * ALIGNMENT as int;
    let mid = state.after_write(first);
    let all2 = mid.pending + second;
    let whole2 = (all2.len() as int / ALIGNMENT as int) * ALIGNMENT as int;
    let all = state.pending + (first + second);
    let whole = (all.len() as int / ALIGNMENT as int) * ALIGNMENT as int;
    assert(0 <= whole1 <= all1.len());
    assert(all2.len() == all.len() - whole1);
    assert(whole == whole1 + whole2);
    assert(mid.after_write(second).file =~= state.after_write(first + second).file);
    assert(mid.after_write(second).pending =~= state.after_write(first + second).pending);
    assert(mid.after_write(second).taken == state.after_write(first + second).taken);
}

/// Whatever the writes, and however they fall on the blocks: once flushed,
/// the file holds the bytes that were written, in order, and so has exactly
/// as many bytes as were written.
pub proof fn theorem_flushed_file_holds_what_was_written(writes: Seq<Seq<u8>>)
    ensures
        WriterState::empty().after_writes(writes).after_flush().file == concat(writes),
        WriterState::empty().after_writes(writes).after_flush().file.len() == concat(
            writes,
        ).len(),
{
    lemma_writes_keep_all(writes);
    lemma_flush_writes_out(WriterState::empty().after_writes(writes));
}

proof fn lemma_writes_keep_all(writes: Seq<Seq<u8>>)
    ensures
        WriterState::empty().after_writes(writes).written() == concat(writes),
        WriterState::empty().after_writes(writes).pending.len() < ALIGNMENT,
    decreases writes.len(),
{
    if writes.len() == 0 {
        assert(WriterState::empty().written() =~= concat(writes));
    } else {
        lemma_writes_keep_all(writes.drop_last());
        lemma_write_appends(WriterState::empty().after_writes(writes.drop_last()), writes.last());
    }
}

/// A writer that collects what it is given in a buffer of `ALIGNMENT` bytes
/// and moves it to its backing file one whole block at a time. `flush` moves
/// the last, partly filled block too, padded with zeros, and then cuts the file
/// back to the bytes that were written.
pub struct DirectWriter {
    name: String,
    file: Vec<u8>,
    buffer: Vec<u8>,
    pos: usize,
    total_bytes_written: u64,
    taken_bytes: u64,
    taken: Ghost<Seq<u8>>,
}

impl View for DirectWriter {
    type V = WriterState;

    closed spec fn view(&self) -> WriterState {
        WriterState {
            file: self.taken@ + self.file@,
            pending: self.buffer@.subrange(0, self.pos as int),
            taken: self.taken@.len(),
        }
    }
}

impl DirectWriter {
    pub closed spec fn wf(&self) -> bool {
        &&& self.buffer@.len() == ALIGNMENT
        &&& self.pos < ALIGNMENT
        &&& self.taken_bytes == self.taken@.len()
        &&& self.total_bytes_written == self.taken_bytes + self.file@.len() + self.pos
    }

    /// Every byte given to `write_all` so far, in order.
    pub open spec fn written(&self) -> Seq<u8> {
        self@.written()
    }

    /// The name of the backing file.
    pub closed spec fn file_name(&self) -> Seq<char> {
        self.name@
    }

    /// Less than one block waits in the buffer, and no more has been handed
    /// out than the file holds.
    pub proof fn lemma_pending_is_short(&self)
        requires
            self.wf(),
        ensures
            self@.pending.len() < ALIGNMENT,
            self@.taken <= self@.file.len(),
    {
    }

    /// A writer on a new, empty file called `name`.
    pub fn new(name: String) -> (writer: Self)
        ensures
            writer.wf(),
            writer@ == WriterState::empty(),
            writer.file_name() == name@,
    {
        let writer = Self {
            name,
            file: Vec::new(),
            buffer: zeroed_block(),
            pos: 0,
            total_bytes_written: 0,
            taken_bytes: 0,
            taken: Ghost(Seq::empty()),
        };
        assert(writer@.pending =~= Seq::<u8>::empty());
        assert(writer@.file =~= Seq::<u8>::empty());
        writer
    }

    /// How many bytes were written so far.
    pub fn bytes_written(&self) -> (n: u64)
        requires
            self.wf(),
        ensures
            n == self.written().len(),
    {
        self.total_bytes_written
    }

    /// Takes all of `data`. Whenever the buffer is full, its block goes to the
    /// file and the buffer starts anew.
    pub fn write_all(&mut self, data: &[u8])
        requires
            old(self).wf(),
            old(self).written().len() + data@.len() <= u64::MAX,
        ensures
            final(self).wf(),
            final(self)@ == old(self)@.after_write(data@),
            final(self).file_name() == old(self).file_name(),
    {
        let mut offset: usize = 0;
        proof {
            lemma_write_appends(self@, data@.subrange(0, 0));
            assert(self@.pending + data@.subrange(0, 0) =~= self@.pending);
            assert(self@.file + self@.pending.subrange(0, 0) =~= self@.file);
            assert(self@.pending.subrange(0, self@.pending.len() as int) =~= self@.pending);
        }
        while offset < data.len()
            invariant
                self.wf(),
                old(self).wf(),
                offset <= data@.len(),
                old(self).written().len() + data@.len() <= u64::MAX,
                self@ == old(self)@.after_write(data@.subrange(0, offset as int)),
                self.name == old(self).name,
            decreases data@.len() - offset,
        {
            let remaining: usize = data.len() - offset;
            let space: usize = ALIGNMENT - self.pos;
            let ghost before = *self;
            proof {
                lemma_write_appends(old(self)@, data@.subrange(0, offset as int));
                assert(self.written().len() == self.total_bytes_written);
            }
            if remaining >= space {
                copy_into(&mut self.buffer, self.pos, data, offset, space);
                append_range(&mut self.file, self.buffer.as_slice(), 0, ALIGNMENT);
                self.total_bytes_written += space as u64;
                self.pos = 0;
                offset += space;
                proof {
                    let piece = data@.subrange(offset - space, offset as int);
                    assert(self@.file =~= before@.file + (before@.pending + piece));
                    assert(self@.taken == before@.taken);
                    assert(self@.pending =~= Seq::<u8>::empty());
                    assert(before@.after_write(piece).file =~= self@.file) by {
                        assert((before@.pending + piece).len() == ALIGNMENT);
                        let block = before@.pending + piece;
                        assert(block.subrange(0, ALIGNMENT as int) =~= block);
                    }
                    assert(before@.after_write(piece).pending =~= self@.pending);
                    lemma_writes_join(old(self)@, data@.subrange(0, offset - space), piece);
                    assert(data@.subrange(0, offset - space) + piece =~= data@.subrange(
                        0,
                        offset as int,
                    ));
                }
            } else {
                copy_into(&mut self.buffer, self.pos, data, offset, remaining);
                self.pos += remaining;
                self.total_bytes_written += remaining as u64;
                offset += remaining;
                proof {
                    let piece = data@.subrange(offset - remaining, offset as int);
                    assert(self@.pending =~= before@.pending + piece);
                    assert(self@.file =~= before@.file);
                    assert(self@.taken == before@.taken);
                    assert(before@.after_write(piece).file =~= self@.file) by {
                        assert((before@.pending + piece).len() < ALIGNMENT);
                        assert((before@.pending + piece).subrange(0, 0) =~= Seq::<u8>::empty());
                    }
                    assert(before@.after_write(piece).pending =~= self@.pending);
                    lemma_writes_join(old(self)@, data@.subrange(0, offset - remaining), piece);
                    assert(data@.subrange(0, offset - remaining) + piece =~= data@.subrange(
                        0,
                        offset as int,
                    ));
                }
            }
        }
        assert(data@.subrange(0, offset as int) =~= data@);
    }

    /// Moves what is left in the buffer to the file, as one block padded with
    /// zeros, and then cuts the file back to the bytes that were written: the
    /// file then holds exactly those, and none of the padding.
    pub fn flush(&mut self)
        requires
            old(self).wf(),
        ensures
            final(self).wf(),
            final(self)@ == old(self)@.after_flush(),
            final(self).file_name() == old(self).file_name(),
    {
        let ghost before = *self;
        if self.pos > 0 {
            let mut i: usize = self.pos;
            while i < ALIGNMENT
                invariant
                    self.pos <= i <= ALIGNMENT,
                    self.buffer@.len() == ALIGNMENT,
                    self.pos == before.pos,
                    self.file == before.file,
                    self.name == before.name,
                    self.total_bytes_written == before.total_bytes_written,
                    self.taken_bytes == before.taken_bytes,
                    self.taken == before.taken,
                    self.buffer@.subrange(0, self.pos as int) == before.buffer@.subrange(
                        0,
                        before.pos as int,
                    ),
                    forall|k: int| self.pos <= k < i ==> self.buffer@[k] == 0,
                decreases ALIGNMENT - i,
            {
                self.buffer[i] = 0;
                assert(self.buffer@.subrange(0, self.pos as int) =~= before.buffer@.subrange(
                    0,
                    before.pos as int,
                ));
                i += 1;
            }
            assert(self.buffer@ =~= before@.pending + Seq::new(
                (ALIGNMENT - before@.pending.len()) as nat,
                |i: int| 0u8,
            ));
            append_range(&mut self.file, self.buffer.as_slice(), 0, ALIGNMENT);
            self.pos = 0;
        }
        self.file.truncate((self.total_bytes_written - self.taken_bytes) as usize);
        assert(self@.file =~= before@.after_flush().file);
        assert(self@.pending =~= before@.after_flush().pending);
    }

    /// Hands out the bytes that have reached the file since the last call, for
    /// the caller to put where the file is kept. Before the first flush these
    /// are whole blocks.
    pub fn take_blocks(&mut self) -> (blocks: Vec<u8>)
        requires
            old(self).wf(),
        ensures
            final(self).wf(),
            blocks@ == old(self)@.untaken(),
            final(self)@ == old(self)@.after_take(),
            final(self).file_name() == old(self).file_name(),
    {
        let mut blocks: Vec<u8> = Vec::new();
        core::mem::swap(&mut blocks, &mut self.file);
        self.taken_bytes += blocks.len() as u64;
        self.taken = Ghost(self.taken@ + blocks@);
        assert(blocks@ =~= old(self)@.untaken());
        assert(self@.file =~= old(self)@.file);
        blocks
    }

    /// Gives up the writer for its file, as it stands: the name, and the bytes
    /// that have not been handed out. Bytes that were not flushed are not in
    /// it.
    pub fn into_file(self) -> (file: RunFile)
        requires
            self.wf(),
        ensures
            file.name@ == self.file_name(),
            file.data@ == self@.untaken(),
    {
        proof {
            assert(self.file@ =~= self@.untaken());
        }
        RunFile { name: self.name, data: self.file }
    }
}

/// A writer on the new, empty file of run `idx`.
pub fn open_run_writer(prefix: &str, idx: usize) -> (writer: DirectWriter)
    ensures
        writer.wf(),
        writer@ == WriterState::empty(),
        writer.file_name() == spec_run_file_name(prefix@, idx as nat),
{
    DirectWriter::new(run_file_name(prefix, idx))
}

/// The four bytes of `x`, least significant first.
pub open spec fn u32_le(x: u32) -> Seq<u8> {
    seq![
        (x % 256) as u8,
        ((x / 256) % 256) as u8,
        ((x / 65536) % 256) as u8,
        (x / 16777216) as u8,
    ]
}

/// The frame of a record: the key's length, the key, the payload's length and
/// the payload, each length as four bytes, least significant first.
pub open spec fn frame(rec: Rec) -> Seq<u8> {
    u32_le(10) + rec.key@ + u32_le(90) + rec.payload@
}

/// The frames of `recs`, one after the other.
pub open spec fn frames(recs: Seq<Rec>) -> Seq<u8>
    decreases recs.len(),
{
    if recs.len() == 0 {
        Seq::empty()
    } else {
        frames(recs.drop_last()) + frame(recs.last())
    }
}

/// `bytes` is a frame: 108 bytes with the two lengths in their places.
pub open spec fn is_frame(bytes: Seq<u8>) -> bool {
    &&& bytes.len() == 108
    &&& bytes.subrange(0, 4) == u32_le(10)
    &&& bytes.subrange(14, 18) == u32_le(90)
}

/// The key that a frame carries.
pub open spec fn frame_key(bytes: Seq<u8>) -> Seq<u8> {
    bytes.subrange(4, 14)
}

/// The payload that a frame carries.
pub open spec fn frame_payload(bytes: Seq<u8>) -> Seq<u8> {
    bytes.subrange(18, 108)
}

/// A frame has 108 bytes, and reading it back gives the key and the payload
/// that went in, byte for byte.
pub proof fn theorem_frame_round_trip(rec: Rec)
    ensures
        frame(rec).len() == 108,
        is_frame(frame(rec)),
        frame_key(frame(rec)) == rec.key@,
        frame_payload(frame(rec)) == rec.payload@,
{
    let f = frame(rec);
    assert(f.subrange(0, 4) =~= u32_le(10));
    assert(f.subrange(14, 18) =~= u32_le(90));
    assert(f.subrange(4, 14) =~= rec.key@);
    assert(f.subrange(18, 108) =~= rec.payload@);
}

/// The frames of `n` records have `108 * n` bytes.
pub proof fn lemma_frames_len(recs: Seq<Rec>)
    ensures
        frames(recs).len() == 108 * recs.len(),
    decreases recs.len(),
{
    if recs.len() > 0 {
        lemma_frames_len(recs.drop_last());
        theorem_frame_round_trip(recs.last());
    }
}

fn u32_to_le(x: u32) -> (bytes: [u8; 4])
    ensures
        bytes@ == u32_le(x),
{
    let bytes = [
        (x % 256) as u8,
        ((x / 256) % 256) as u8,
        ((x / 65536) % 256) as u8,
        (x / 16777216) as u8,
    ];
    assert(bytes@ =~= u32_le(x));
    bytes
}

/// The frame of `rec`.
pub fn encode_frame(rec: &Rec) -> (bytes: Vec<u8>)
    ensures
        bytes@ == frame(*rec),
{
    let key_len_le = u32_to_le(10);
    let payload_len_le = u32_to_le(90);
    let mut bytes: Vec<u8> = Vec::with_capacity(108);
    append_range(&mut bytes, key_len_le.as_slice(), 0, 4);
    append_range(&mut bytes, rec.key.as_slice(), 0, 10);
    append_range(&mut bytes, payload_len_le.as_slice(), 0, 4);
    append_range(&mut bytes, rec.payload.as_slice(), 0, 90);
    assert(bytes@ =~= frame(*rec));
    bytes
}

/// Reads a frame back. `None` when `bytes` is not a frame.
pub fn decode_frame(bytes: &[u8]) -> (r: Option<Rec>)
    ensures
        r is Some <==> is_frame(bytes@),
        r matches Some(rec) ==> rec.key@ == frame_key(bytes@) && rec.payload@ == frame_payload(
            bytes@,
        ) && frame(rec) == bytes@,
{
    if bytes.len() != 108 {
        return None;
    }
    let key_len_le = u32_to_le(10);
    let payload_len_le = u32_to_le(90);
    let mut i: usize = 0;
    while i < 4
        invariant
            i <= 4,
            bytes@.len() == 108,
            key_len_le@ == u32_le(10),
            payload_len_le@ == u32_le(90),
            forall|k: int| 0 <= k < i ==> bytes@[k] == u32_le(10)[k] && bytes@[14 + k] == u32_le(
                90,
            )[k],
        decreases 4 - i,
    {
        if bytes[i] != key_len_le[i] || bytes[14 + i] != payload_len_le[i] {
            proof {
                assert(bytes@.subrange(0, 4)[i as int] == bytes@[i as int]);
                assert(bytes@.subrange(14, 18)[i as int] == bytes@[14 + i]);
            }
            return None;
        }
        i += 1;
    }
    let mut key = [0u8; 10];
    let mut payload = [0u8; 90];
    let mut k: usize = 0;
    while k < 10
        invariant
            k <= 10,
            bytes@.len() == 108,
            forall|j: int| 0 <= j < k ==> key@[j] == bytes@[4 + j],
        decreases 10 - k,
    {
        key[k] = bytes[4 + k];
        k += 1;
    }
    let mut p: usize = 0;
    while p < 90
        invariant
            p <= 90,
            bytes@.len() == 108,
            forall|j: int| 0 <= j < p ==> payload@[j] == bytes@[18 + j],
        decreases 90 - p,
    {
        payload[p] = bytes[18 + p];
        p += 1;
    }
    let rec = Rec::new(key, payload);
    proof {
        assert(bytes@.subrange(0, 4) =~= u32_le(10));
        assert(bytes@.subrange(14, 18) =~= u32_le(90));
        assert(rec.key@ =~= frame_key(bytes@));
        assert(rec.payload@ =~= frame_payload(bytes@));
        assert(frame(rec) =~= bytes@);
    }
    Some(rec)
}

/// Writes the frame of `rec`: the key's length, the key, the payload's length
/// and the payload.
pub fn write_len_key_len_payload(w: &mut DirectWriter, rec: &Rec)
    requires
        old(w).wf(),
        old(w).written().len() + 108 <= u64::MAX,
    ensures
        final(w).wf(),
        final(w)@ == old(w)@.after_write(frame(*rec)),
        final(w).file_name() == old(w).file_name(),
{
    let key_len_le = u32_to_le(10);
    let payload_len_le = u32_to_le(90);
    proof {
        let s0 = w@;
        w.lemma_pending_is_short();
        lemma_write_appends(s0, key_len_le@);
        lemma_write_appends(s0.after_write(key_len_le@), rec.key@);
        lemma_write_appends(s0.after_write(key_len_le@).after_write(rec.key@), payload_len_le@);
        lemma_writes_join(s0, key_len_le@, rec.key@);
        lemma_writes_join(s0, key_len_le@ + rec.key@, payload_len_le@);
        lemma_writes_join(s0, key_len_le@ + rec.key@ + payload_len_le@, rec.payload@);
    }
    w.write_all(key_len_le.as_slice());
    w.write_all(rec.key.as_slice());
    w.write_all(payload_len_le.as_slice());
    w.write_all(rec.payload.as_slice());
}

} // verus!
