use vstd::prelude::*;
use vstd::bytes::*;
use vstd::utf8::*;
use vstd::slice::*;

verus! {

/// The bytes of a length-prefixed string: its UTF-8 length as a little-endian `u32`
/// (truncated to 32 bits), then its UTF-8 encoding.
pub open spec fn enc_str(s: Seq<char>) -> Seq<u8> {
    spec_u32_to_le_bytes(encode_utf8(s).len() as u32) + encode_utf8(s)
}

/// The bytes of a modification time `(seconds, nanoseconds)`.
pub open spec fn enc_mtime(m: (u64, u32)) -> Seq<u8> {
    spec_u64_to_le_bytes(m.0) + spec_u32_to_le_bytes(m.1)
}

/// `len` bytes of `data` starting at `pos`, and the position after them, if there are
/// that many.
pub open spec fn read_bytes(data: Seq<u8>, pos: int, len: int) -> Option<(Seq<u8>, int)> {
    if 0 <= pos && 0 <= len && pos + len <= data.len() {
        Some((data.subrange(pos, pos + len), pos + len))
    } else {
        None
    }
}

pub open spec fn read_u8(data: Seq<u8>, pos: int) -> Option<(u8, int)> {
    match read_bytes(data, pos, 1) {
        Some((b, p)) => Some((b[0], p)),
        None => None,
    }
}

pub open spec fn read_u16(data: Seq<u8>, pos: int) -> Option<(u16, int)> {
    match read_bytes(data, pos, 2) {
        Some((b, p)) => Some((spec_u16_from_le_bytes(b), p)),
        None => None,
    }
}

pub open spec fn read_u32(data: Seq<u8>, pos: int) -> Option<(u32, int)> {
    match read_bytes(data, pos, 4) {
        Some((b, p)) => Some((spec_u32_from_le_bytes(b), p)),
        None => None,
    }
}

pub open spec fn read_u64(data: Seq<u8>, pos: int) -> Option<(u64, int)> {
    match read_bytes(data, pos, 8) {
        Some((b, p)) => Some((spec_u64_from_le_bytes(b), p)),
        None => None,
    }
}

pub open spec fn read_mtime(data: Seq<u8>, pos: int) -> Option<((u64, u32), int)> {
    match read_u64(data, pos) {
        Some((secs, p)) => match read_u32(data, p) {
            Some((nanos, q)) => Some(((secs, nanos), q)),
            None => None,
        },
        None => None,
    }
}

/// A length-prefixed UTF-8 string; absent when truncated or not valid UTF-8.
pub open spec fn read_str(data: Seq<u8>, pos: int) -> Option<(Seq<char>, int)> {
    match read_u32(data, pos) {
        Some((len, p)) => match read_bytes(data, p, len as int) {
            Some((b, q)) => if valid_utf8(b) {
                Some((decode_utf8(b), q))
            } else {
                None
            },
            None => None,
        },
        None => None,
    }
}

/// Where a failed string read leaves the reader: after the length prefix if that was
/// read, else where it started.
pub open spec fn read_str_stop(data: Seq<u8>, pos: int) -> int {
    match read_u32(data, pos) {
        Some((len, p)) => match read_bytes(data, p, len as int) {
            Some((b, q)) => q,
            None => p,
        },
        None => pos,
    }
}

/// `String::from_utf8`: the decoded string when `bytes` are valid UTF-8.
#[verifier::external_body]
fn string_from_utf8(bytes: Vec<u8>) -> (r: Option<String>)
    ensures
        r is Some <==> valid_utf8(bytes@),
        r matches Some(s) ==> s@ == decode_utf8(bytes@),
{
    String::from_utf8(bytes).ok()
}

/// Append-only little-endian byte writer.
pub struct Writer {
    buf: Vec<u8>,
}

impl View for Writer {
    type V = Seq<u8>;

    closed spec fn view(&self) -> Seq<u8> {
        self.buf@
    }
}

impl Writer {
    pub fn new() -> (w: Self)
        ensures
            w@ == Seq::<u8>::empty(),
    {
        Self { buf: Vec::new() }
    }

    pub fn into_inner(self) -> (v: Vec<u8>)
        ensures
            v@ == self@,
    {
        self.buf
    }

    pub fn bytes(&mut self, value: &[u8])
        ensures
            final(self)@ == old(self)@ + value@,
    {
        let ghost start = self.buf@;
        let n = value.len();
        let mut i: usize = 0;
        while i < n
            invariant
                n == value@.len(),
                i <= n,
                self.buf@ == start + value@.subrange(0, i as int),
            decreases n - i,
        {
            self.buf.push(value[i]);
            i = i + 1;
            assert(self.buf@ =~= start + value@.subrange(0, i as int));
        }
        assert(value@.subrange(0, n as int) =~= value@);
    }

    pub fn u8(&mut self, value: u8)
        ensures
            final(self)@ == old(self)@.push(value),
    {
        self.buf.push(value);
    }

    pub fn u16(&mut self, value: u16)
        ensures
            final(self)@ == old(self)@ + spec_u16_to_le_bytes(value),
    {
        let mut b = u16_to_le_bytes(value);
        self.buf.append(&mut b);
    }

    pub fn u32(&mut self, value: u32)
        ensures
            final(self)@ == old(self)@ + spec_u32_to_le_bytes(value),
    {
        let mut b = u32_to_le_bytes(value);
        self.buf.append(&mut b);
    }

    pub fn u64(&mut self, value: u64)
        ensures
            final(self)@ == old(self)@ + spec_u64_to_le_bytes(value),
    {
        let mut b = u64_to_le_bytes(value);
        self.buf.append(&mut b);
    }

    pub fn mtime(&mut self, time: (u64, u32))
        ensures
            final(self)@ == old(self)@ + enc_mtime(time),
    {
        let (secs, nanos) = time;
        self.u64(secs);
        self.u32(nanos);
        assert(self@ =~= old(self)@ + enc_mtime(time));
    }

    pub fn string(&mut self, value: &str)
        ensures
            final(self)@ == old(self)@ + enc_str(value@),
    {
        let bytes = value.as_bytes();
        let n: usize = bytes.len();
        self.u32(n as u32);
        self.bytes(bytes);
        assert(self@ =~= old(self)@ + enc_str(value@));
    }

    /// Encodes a path, given in its lossy UTF-8 string form.
    pub fn path(&mut self, path: &str)
        ensures
            final(self)@ == old(self)@ + enc_str(path@),
    {
        self.string(path);
    }
}

/// Bounds-checked little-endian byte reader. Every accessor returns `None` on
/// truncation or malformed data.
pub struct Reader<'a> {
    data: &'a [u8],
    pos: usize,
}

impl<'a> Reader<'a> {
    pub closed spec fn data(&self) -> Seq<u8> {
        self.data@
    }

    pub closed spec fn pos(&self) -> int {
        self.pos as int
    }

    /// A reader's position is never negative.
    pub proof fn lemma_pos_nonneg(&self)
        ensures
            self.pos() >= 0,
    {
    }

    pub fn new(data: &'a [u8]) -> (r: Self)
        ensures
            r.data() == data@,
            r.pos() == 0,
    {
        Self { data, pos: 0 }
    }

    pub fn take(&mut self, len: usize) -> (r: Option<&'a [u8]>)
        ensures
            final(self).data() == old(self).data(),
            match read_bytes(old(self).data(), old(self).pos(), len as int) {
                Some((b, p)) => r matches Some(s) && s@ == b && final(self).pos() == p,
                None => r is None && final(self).pos() == old(self).pos(),
            },
    {
        let data_len: usize = self.data.len();
        let end = self.pos.checked_add(len)?;
        if end <= data_len {
            let s = slice_subrange(self.data, self.pos, end);
            self.pos = end;
            Some(s)
        } else {
            None
        }
    }

    pub fn u8(&mut self) -> (r: Option<u8>)
        ensures
            final(self).data() == old(self).data(),
            match read_u8(old(self).data(), old(self).pos()) {
                Some((v, p)) => r == Some(v) && final(self).pos() == p,
                None => r is None && final(self).pos() == old(self).pos(),
            },
    {
        let s = self.take(1)?;
        Some(s[0])
    }

    pub fn u16(&mut self) -> (r: Option<u16>)
        ensures
            final(self).data() == old(self).data(),
            match read_u16(old(self).data(), old(self).pos()) {
                Some((v, p)) => r == Some(v) && final(self).pos() == p,
                None => r is None && final(self).pos() == old(self).pos(),
            },
    {
        let s = self.take(2)?;
        Some(u16_from_le_bytes(s))
    }

    pub fn u32(&mut self) -> (r: Option<u32>)
        ensures
            final(self).data() == old(self).data(),
            match read_u32(old(self).data(), old(self).pos()) {
                Some((v, p)) => r == Some(v) && final(self).pos() == p,
                None => r is None && final(self).pos() == old(self).pos(),
            },
    {
        let s = self.take(4)?;
        Some(u32_from_le_bytes(s))
    }

    pub fn u64(&mut self) -> (r: Option<u64>)
        ensures
            final(self).data() == old(self).data(),
            match read_u64(old(self).data(), old(self).pos()) {
                Some((v, p)) => r == Some(v) && final(self).pos() == p,
                None => r is None && final(self).pos() == old(self).pos(),
            },
    {
        let s = self.take(8)?;
        Some(u64_from_le_bytes(s))
    }

    pub fn mtime(&mut self) -> (r: Option<(u64, u32)>)
        ensures
            final(self).data() == old(self).data(),
            match read_mtime(old(self).data(), old(self).pos()) {
                Some((v, p)) => r == Some(v) && final(self).pos() == p,
                None => r is None,
            },
    {
        let secs = self.u64()?;
        let nanos = self.u32()?;
        Some((secs, nanos))
    }

    pub fn string(&mut self) -> (r: Option<String>)
        ensures
            final(self).data() == old(self).data(),
            match read_str(old(self).data(), old(self).pos()) {
                Some((s, p)) => r matches Some(x) && x@ == s && final(self).pos() == p,
                None => r is None && final(self).pos() == read_str_stop(
                    old(self).data(),
                    old(self).pos(),
                ),
            },
    {
        let len = self.u32()? as usize;
        let bytes = self.take(len)?;
        string_from_utf8(slice_to_vec(bytes))
    }

    /// Decodes a path, returned in its string form.
    pub fn path(&mut self) -> (r: Option<String>)
        ensures
            final(self).data() == old(self).data(),
            match read_str(old(self).data(), old(self).pos()) {
                Some((s, p)) => r matches Some(x) && x@ == s && final(self).pos() == p,
                None => r is None && final(self).pos() == read_str_stop(
                    old(self).data(),
                    old(self).pos(),
                ),
            },
    {
        self.string()
    }
}

} // verus!
