use crate::chunks::{ChunkError, ChunkID};
use vstd::prelude::*;
use vstd::slice::{slice_subrange, slice_to_vec};
use vstd::utf8::{decode_utf8, encode_utf8, valid_utf8};

verus! {

/// An input and a position in it.
pub ghost struct Stream {
    pub data: Seq<u8>,
    pub pos: int,
}

impl Stream {
    /// Number of bytes from the position to the end.
    pub open spec fn left(self) -> int {
        self.data.len() - self.pos
    }

    /// The same input, `n` bytes further on.
    pub open spec fn advance(self, n: int) -> Stream {
        Stream { data: self.data, pos: self.pos + n }
    }
}

/// A read that gave no value: the reason, and where the stream then stands.
pub type Failed = (ChunkError, Stream);

/// What reading a `T` at some position gives: the value and the stream
/// behind it, or the reason why there is none and the stream where reading
/// stopped.
pub type Parsed<T> = Result<(T, Stream), Failed>;

/// The next `n` bytes.
pub open spec fn get_bytes(s: Stream, n: int) -> Parsed<Seq<u8>> {
    if 0 <= s.pos && 0 <= n <= s.left() {
        Ok((s.data.subrange(s.pos, s.pos + n), s.advance(n)))
    } else {
        Err((ChunkError::UnexpectedEof, s))
    }
}

/// The unsigned number that two bytes spell, high byte first.
pub open spec fn be_u16(b: Seq<u8>) -> u16 {
    (b[0] as int * 0x100 + b[1] as int) as u16
}

/// The unsigned number that four bytes spell, high byte first.
pub open spec fn be_u32(b: Seq<u8>) -> u32 {
    (b[0] as int * 0x100_0000 + b[1] as int * 0x1_0000 + b[2] as int * 0x100 + b[3] as int) as u32
}

/// The two's complement number that one byte spells.
pub open spec fn be_i8(b: Seq<u8>) -> i8 {
    if b[0] < 0x80 {
        b[0] as i8
    } else {
        (b[0] as int - 0x100) as i8
    }
}

/// The two's complement number that two bytes spell, high byte first.
pub open spec fn be_i16(b: Seq<u8>) -> i16 {
    if be_u16(b) < 0x8000 {
        be_u16(b) as i16
    } else {
        (be_u16(b) as int - 0x1_0000) as i16
    }
}

/// The two's complement number that four bytes spell, high byte first.
pub open spec fn be_i32(b: Seq<u8>) -> i32 {
    if be_u32(b) < 0x8000_0000 {
        be_u32(b) as i32
    } else {
        (be_u32(b) as int - 0x1_0000_0000) as i32
    }
}

/// The two bytes that spell `v`, high byte first.
pub open spec fn u16_be(v: u16) -> Seq<u8> {
    seq![(v as int / 0x100) as u8, (v as int % 0x100) as u8]
}

/// The four bytes that spell `v`, high byte first.
pub open spec fn u32_be(v: u32) -> Seq<u8> {
    seq![
        (v as int / 0x100_0000) as u8,
        (v as int / 0x1_0000 % 0x100) as u8,
        (v as int / 0x100 % 0x100) as u8,
        (v as int % 0x100) as u8,
    ]
}

/// The byte that spells `v` in two's complement.
pub open spec fn i8_be(v: i8) -> Seq<u8> {
    seq![(if v < 0 {
        v as int + 0x100
    } else {
        v as int
    }) as u8]
}

/// The two bytes that spell `v` in two's complement, high byte first.
pub open spec fn i16_be(v: i16) -> Seq<u8> {
    u16_be((if v < 0 {
        v as int + 0x1_0000
    } else {
        v as int
    }) as u16)
}

/// The four bytes that spell `v` in two's complement, high byte first.
pub open spec fn i32_be(v: i32) -> Seq<u8> {
    u32_be((if v < 0 {
        v as int + 0x1_0000_0000
    } else {
        v as int
    }) as u32)
}

/// One unsigned byte.
pub open spec fn get_u8(s: Stream) -> Parsed<u8> {
    match get_bytes(s, 1) {
        Ok((b, rest)) => Ok((b[0], rest)),
        Err(e) => Err(e),
    }
}

/// An unsigned number of two bytes.
pub open spec fn get_u16(s: Stream) -> Parsed<u16> {
    match get_bytes(s, 2) {
        Ok((b, rest)) => Ok((be_u16(b), rest)),
        Err(e) => Err(e),
    }
}

/// An unsigned number of four bytes.
pub open spec fn get_u32(s: Stream) -> Parsed<u32> {
    match get_bytes(s, 4) {
        Ok((b, rest)) => Ok((be_u32(b), rest)),
        Err(e) => Err(e),
    }
}

/// A signed number of one byte.
pub open spec fn get_i8(s: Stream) -> Parsed<i8> {
    match get_bytes(s, 1) {
        Ok((b, rest)) => Ok((be_i8(b), rest)),
        Err(e) => Err(e),
    }
}

/// A signed number of two bytes.
pub open spec fn get_i16(s: Stream) -> Parsed<i16> {
    match get_bytes(s, 2) {
        Ok((b, rest)) => Ok((be_i16(b), rest)),
        Err(e) => Err(e),
    }
}

/// A signed number of four bytes.
pub open spec fn get_i32(s: Stream) -> Parsed<i32> {
    match get_bytes(s, 4) {
        Ok((b, rest)) => Ok((be_i32(b), rest)),
        Err(e) => Err(e),
    }
}

/// A four-byte identifier.
pub open spec fn get_id(s: Stream) -> Parsed<ChunkID> {
    match get_bytes(s, 4) {
        Ok((b, rest)) => Ok(([b[0], b[1], b[2], b[3]], rest)),
        Err(e) => Err(e),
    }
}

/// Text of `n` bytes.
pub open spec fn get_utf8(s: Stream, n: int) -> Parsed<Seq<char>> {
    match get_bytes(s, n) {
        Err(e) => Err(e),
        Ok((bytes, rest)) => if valid_utf8(bytes) {
            Ok((decode_utf8(bytes), rest))
        } else {
            Err((ChunkError::InvalidText, rest))
        },
    }
}

/// Text of `n` bytes followed, where `n` is odd, by one pad byte. The bytes
/// are taken first, the pad next, and the text is judged last.
pub open spec fn get_text(s: Stream, n: int) -> Parsed<Seq<char>> {
    match get_bytes(s, n) {
        Err(e) => Err(e),
        Ok((bytes, rest)) => match get_bytes(rest, n % 2) {
            Err(e) => Err(e),
            Ok((_, rest)) => if valid_utf8(bytes) {
                Ok((decode_utf8(bytes), rest))
            } else {
                Err((ChunkError::InvalidText, rest))
            },
        },
    }
}

/// A string that is preceded by its length in one byte and followed, where
/// that length is odd, by one pad byte.
pub open spec fn get_pstring(s: Stream) -> Parsed<Seq<char>> {
    match get_u8(s) {
        Err(e) => Err(e),
        Ok((len, rest)) => get_text(rest, len as int),
    }
}

/// Whether a read came out as `want` says: the value read with the cursor
/// behind it, or the refusal with the cursor where reading stopped.
pub open spec fn came<T>(out: Result<T, ChunkError>, after: Stream, want: Parsed<T>) -> bool {
    match want {
        Ok((value, rest)) => out == Ok::<T, ChunkError>(value) && after == rest,
        Err((e, at)) => out == Err::<T, ChunkError>(e) && after == at,
    }
}

/// As `came`, for a value that is known by its view.
pub open spec fn came_as<T: View>(
    out: Result<T, ChunkError>,
    after: Stream,
    want: Parsed<T::V>,
) -> bool {
    match want {
        Ok((value, rest)) => out matches Ok(got) && got@ == value && after == rest,
        Err((e, at)) => out matches Err(got) && got == e && after == at,
    }
}

/// An input held in memory, read from front to back.
pub struct Cursor {
    data: Vec<u8>,
    pos: usize,
}

impl View for Cursor {
    type V = Stream;

    closed spec fn view(&self) -> Stream {
        Stream { data: self.data@, pos: self.pos as int }
    }
}

impl Cursor {
    #[verifier::type_invariant]
    spec fn in_bounds(self) -> bool {
        self.pos <= self.data@.len()
    }

    /// A cursor at the start of `data`.
    pub fn new(data: Vec<u8>) -> (cursor: Cursor)
        ensures
            cursor@ == (Stream { data: data@, pos: 0 }),
    {
        Cursor { data, pos: 0 }
    }

    /// Number of bytes read so far.
    pub fn position(&self) -> (pos: usize)
        ensures
            pos == self@.pos,
            pos <= self@.data.len(),
    {
        proof {
            use_type_invariant(self);
        }
        self.pos
    }

    /// Number of bytes not yet read.
    pub fn remaining(&self) -> (left: usize)
        ensures
            left == self@.left(),
            self@.pos >= 0,
    {
        proof {
            use_type_invariant(self);
        }
        self.data.len() - self.pos
    }

    /// Moves the cursor to `pos`, which must lie in the input.
    pub fn seek(&mut self, pos: usize) -> (out: Result<(), ChunkError>)
        ensures
            final(self)@.data == old(self)@.data,
            pos <= old(self)@.data.len() ==> out is Ok && final(self)@.pos == pos,
            pos > old(self)@.data.len() ==> out == Err::<(), ChunkError>(ChunkError::UnexpectedEof)
                && final(self)@ == old(self)@,
    {
        if pos > self.data.len() {
            Err(ChunkError::UnexpectedEof)
        } else {
            self.pos = pos;
            Ok(())
        }
    }

    /// Reads the next `n` bytes.
    pub fn read_bytes(&mut self, n: usize) -> (out: Result<Vec<u8>, ChunkError>)
        ensures
            final(self)@.data == old(self)@.data,
            came_as(out, final(self)@, get_bytes(old(self)@, n as int)),
    {
        proof {
            use_type_invariant(&*self);
        }
        if n > self.data.len() - self.pos {
            return Err(ChunkError::UnexpectedEof);
        }
        let bytes = slice_to_vec(slice_subrange(self.data.as_slice(), self.pos, self.pos + n));
        self.pos = self.pos + n;
        Ok(bytes)
    }
}

/// `String::from_utf8` of std: it gives a string exactly where the bytes are
/// UTF-8, and the string is then the text that the bytes encode.
#[verifier::external_body]
fn string_from_utf8(bytes: Vec<u8>) -> (out: Option<String>)
    ensures
        out is Some <==> valid_utf8(bytes@),
        out matches Some(text) ==> text@ == decode_utf8(bytes@),
{
    String::from_utf8(bytes).ok()
}

/// Reads a four-byte identifier.
pub fn read_chunk_id(r: &mut Cursor) -> (out: Result<ChunkID, ChunkError>)
    ensures
        final(r)@.data == old(r)@.data,
        came(out, final(r)@, get_id(old(r)@)),
{
    match r.read_bytes(4) {
        Err(e) => Err(e),
        Ok(b) => Ok([b[0], b[1], b[2], b[3]]),
    }
}

/// Reads one unsigned byte.
pub fn read_u8(r: &mut Cursor) -> (out: Result<u8, ChunkError>)
    ensures
        final(r)@.data == old(r)@.data,
        came(out, final(r)@, get_u8(old(r)@)),
{
    match r.read_bytes(1) {
        Err(e) => Err(e),
        Ok(b) => Ok(b[0]),
    }
}

/// Reads an unsigned number of two bytes, high byte first.
pub fn read_u16_be(r: &mut Cursor) -> (out: Result<u16, ChunkError>)
    ensures
        final(r)@.data == old(r)@.data,
        came(out, final(r)@, get_u16(old(r)@)),
{
    match r.read_bytes(2) {
        Err(e) => Err(e),
        Ok(b) => Ok(b[0] as u16 * 0x100 + b[1] as u16),
    }
}

/// Reads an unsigned number of four bytes, high byte first.
pub fn read_u32_be(r: &mut Cursor) -> (out: Result<u32, ChunkError>)
    ensures
        final(r)@.data == old(r)@.data,
        came(out, final(r)@, get_u32(old(r)@)),
{
    match r.read_bytes(4) {
        Err(e) => Err(e),
        Ok(b) => Ok(
            b[0] as u32 * 0x100_0000 + b[1] as u32 * 0x1_0000 + b[2] as u32 * 0x100 + b[3] as u32,
        ),
    }
}

/// Reads a signed number of one byte.
pub fn read_i8_be(r: &mut Cursor) -> (out: Result<i8, ChunkError>)
    ensures
        final(r)@.data == old(r)@.data,
        came(out, final(r)@, get_i8(old(r)@)),
{
    match r.read_bytes(1) {
        Err(e) => Err(e),
        Ok(b) => if b[0] < 0x80 {
            Ok(b[0] as i8)
        } else {
            Ok((b[0] as i16 - 0x100) as i8)
        },
    }
}

/// Reads a signed number of two bytes, high byte first.
pub fn read_i16_be(r: &mut Cursor) -> (out: Result<i16, ChunkError>)
    ensures
        final(r)@.data == old(r)@.data,
        came(out, final(r)@, get_i16(old(r)@)),
{
    match r.read_bytes(2) {
        Err(e) => Err(e),
        Ok(b) => {
            let u: u16 = b[0] as u16 * 0x100 + b[1] as u16;
            if u < 0x8000 {
                Ok(u as i16)
            } else {
                Ok((u as i32 - 0x1_0000) as i16)
            }
        },
    }
}

/// Reads a signed number of four bytes, high byte first.
pub fn read_i32_be(r: &mut Cursor) -> (out: Result<i32, ChunkError>)
    ensures
        final(r)@.data == old(r)@.data,
        came(out, final(r)@, get_i32(old(r)@)),
{
    match r.read_bytes(4) {
        Err(e) => Err(e),
        Ok(b) => {
            let u: u32 = b[0] as u32 * 0x100_0000 + b[1] as u32 * 0x1_0000 + b[2] as u32 * 0x100
                + b[3] as u32;
            if u < 0x8000_0000 {
                Ok(u as i32)
            } else {
                Ok((u as i64 - 0x1_0000_0000) as i32)
            }
        },
    }
}

/// Reads text of `n` bytes.
pub fn read_utf8(r: &mut Cursor, n: usize) -> (out: Result<String, ChunkError>)
    ensures
        final(r)@.data == old(r)@.data,
        came_as(out, final(r)@, get_utf8(old(r)@, n as int)),
{
    let bytes = match r.read_bytes(n) {
        Err(e) => { return Err(e); },
        Ok(bytes) => bytes,
    };
    match string_from_utf8(bytes) {
        None => Err(ChunkError::InvalidText),
        Some(text) => Ok(text),
    }
}

/// Reads text of `n` bytes and the pad byte that follows an odd `n`.
pub fn read_text(r: &mut Cursor, n: usize) -> (out: Result<String, ChunkError>)
    ensures
        final(r)@.data == old(r)@.data,
        came_as(out, final(r)@, get_text(old(r)@, n as int)),
{
    let bytes = match r.read_bytes(n) {
        Err(e) => { return Err(e); },
        Ok(bytes) => bytes,
    };
    match r.read_bytes(n % 2) {
        Err(e) => { return Err(e); },
        Ok(_) => {},
    }
    match string_from_utf8(bytes) {
        None => Err(ChunkError::InvalidText),
        Some(text) => Ok(text),
    }
}

/// Reads a string that is preceded by its length in one byte and followed,
/// where that length is odd, by one pad byte.
pub fn read_pstring(r: &mut Cursor) -> (out: Result<String, ChunkError>)
    ensures
        final(r)@.data == old(r)@.data,
        came_as(out, final(r)@, get_pstring(old(r)@)),
{
    match read_u8(r) {
        Err(e) => Err(e),
        Ok(len) => read_text(r, len as usize),
    }
}

/// The pad that follows `n` bytes on the wire: one zero byte where `n` is
/// odd, nothing where it is even.
pub open spec fn padding(n: int) -> Seq<u8> {
    if n % 2 == 1 {
        seq![0u8]
    } else {
        Seq::empty()
    }
}

/// The bytes of a text, padded to an even count.
pub open spec fn text_bytes(text: Seq<char>) -> Seq<u8> {
    encode_utf8(text) + padding(encode_utf8(text).len() as int)
}

/// A text preceded by its length in one byte and padded after an odd length.
pub open spec fn pstring_bytes(text: Seq<char>) -> Seq<u8> {
    seq![encode_utf8(text).len() as u8] + text_bytes(text)
}

/// Appends one unsigned byte.
pub fn put_u8(out: &mut Vec<u8>, v: u8)
    ensures
        final(out)@ == old(out)@ + seq![v],
{
    out.push(v);
}

/// Appends an unsigned number of two bytes, high byte first.
pub fn put_u16_be(out: &mut Vec<u8>, v: u16)
    ensures
        final(out)@ == old(out)@ + u16_be(v),
{
    out.push((v / 0x100) as u8);
    out.push((v % 0x100) as u8);
    assert(out@ =~= old(out)@ + u16_be(v));
}

/// Appends an unsigned number of four bytes, high byte first.
pub fn put_u32_be(out: &mut Vec<u8>, v: u32)
    ensures
        final(out)@ == old(out)@ + u32_be(v),
{
    out.push((v / 0x100_0000) as u8);
    out.push((v / 0x1_0000 % 0x100) as u8);
    out.push((v / 0x100 % 0x100) as u8);
    out.push((v % 0x100) as u8);
    assert(out@ =~= old(out)@ + u32_be(v));
}

/// Appends a signed number of one byte.
pub fn put_i8_be(out: &mut Vec<u8>, v: i8)
    ensures
        final(out)@ == old(out)@ + i8_be(v),
{
    let u: u8 = if v < 0 {
        (v as i16 + 0x100) as u8
    } else {
        v as u8
    };
    out.push(u);
    assert(out@ =~= old(out)@ + i8_be(v));
}

/// Appends a signed number of two bytes, high byte first.
pub fn put_i16_be(out: &mut Vec<u8>, v: i16)
    ensures
        final(out)@ == old(out)@ + i16_be(v),
{
    let u: u16 = if v < 0 {
        (v as i32 + 0x1_0000) as u16
    } else {
        v as u16
    };
    put_u16_be(out, u);
}

/// Appends a signed number of four bytes, high byte first.
pub fn put_i32_be(out: &mut Vec<u8>, v: i32)
    ensures
        final(out)@ == old(out)@ + i32_be(v),
{
    let u: u32 = if v < 0 {
        (v as i64 + 0x1_0000_0000) as u32
    } else {
        v as u32
    };
    put_u32_be(out, u);
}

/// Appends bytes as they are.
pub fn put_bytes(out: &mut Vec<u8>, bytes: &[u8])
    ensures
        final(out)@ == old(out)@ + bytes@,
{
    out.extend_from_slice(bytes);
}

/// Appends the pad that follows `n` bytes.
pub fn put_padding(out: &mut Vec<u8>, n: usize)
    ensures
        final(out)@ == old(out)@ + padding(n as int),
{
    if n % 2 == 1 {
        out.push(0);
    }
    assert(out@ =~= old(out)@ + padding(n as int));
}

/// Appends a text and the pad byte that follows an odd number of bytes.
pub fn put_text(out: &mut Vec<u8>, text: &String)
    ensures
        final(out)@ == old(out)@ + text_bytes(text@),
{
    let bytes = text.as_str().as_bytes();
    out.extend_from_slice(bytes);
    put_padding(out, bytes.len());
    assert(out@ =~= old(out)@ + text_bytes(text@));
}

/// Number of bytes that encode a text.
pub fn text_len(text: &String) -> (n: usize)
    ensures
        n == encode_utf8(text@).len(),
{
    text.as_str().as_bytes().len()
}

/// Appends a text preceded by its length in one byte.
pub fn put_pstring(out: &mut Vec<u8>, text: &String)
    requires
        encode_utf8(text@).len() <= 255,
    ensures
        final(out)@ == old(out)@ + pstring_bytes(text@),
{
    out.push(text_len(text) as u8);
    put_text(out, text);
    assert(out@ =~= old(out)@ + pstring_bytes(text@));
}

/// Whether the stream holds `wire` at its position.
pub open spec fn holds(s: Stream, wire: Seq<u8>) -> bool {
    &&& 0 <= s.pos
    &&& s.pos + wire.len() <= s.data.len()
    &&& s.data.subrange(s.pos, s.pos + wire.len()) == wire
}

/// A stream that holds two pieces one after the other holds the first, and
/// behind it the second.
pub proof fn lemma_holds_split(s: Stream, a: Seq<u8>, b: Seq<u8>)
    requires
        holds(s, a + b),
    ensures
        holds(s, a),
        holds(s.advance(a.len() as int), b),
        get_bytes(s, a.len() as int) == Ok::<(Seq<u8>, Stream), Failed>(
            (a, s.advance(a.len() as int)),
        ),
{
    let whole = s.data.subrange(s.pos, s.pos + (a + b).len());
    assert(s.data.subrange(s.pos, s.pos + a.len()) =~= whole.subrange(0, a.len() as int));
    assert((a + b).subrange(0, a.len() as int) =~= a);
    assert(s.data.subrange(s.pos + a.len(), s.pos + a.len() + b.len()) =~= whole.subrange(
        a.len() as int,
        (a + b).len() as int,
    ));
    assert((a + b).subrange(a.len() as int, (a + b).len() as int) =~= b);
}

/// Reading back a number that was written gives the number.
pub proof fn lemma_numbers_round_trip()
    ensures
        forall|v: u16| be_u16(#[trigger] u16_be(v)) == v,
        forall|v: u32| be_u32(#[trigger] u32_be(v)) == v,
        forall|v: i8| be_i8(#[trigger] i8_be(v)) == v,
        forall|v: i16| be_i16(#[trigger] i16_be(v)) == v,
        forall|v: i32| be_i32(#[trigger] i32_be(v)) == v,
        forall|v: u16| (#[trigger] u16_be(v)).len() == 2,
        forall|v: u32| (#[trigger] u32_be(v)).len() == 4,
        forall|v: i8| (#[trigger] i8_be(v)).len() == 1,
        forall|v: i16| (#[trigger] i16_be(v)).len() == 2,
        forall|v: i32| (#[trigger] i32_be(v)).len() == 4,
{
}

} // verus!
