//! The value encoder: MessagePack framing as the store's predicate
//! evaluator reads it, written either into a `Buffer` or nowhere at all
//! (a size probe, when the sink is `None`).
use vstd::prelude::*;
use vstd::utf8::encode_utf8;

verus! {

/// Largest length, plus one, that an array, map or byte-string header holds.
pub const HEADER_LIMIT: u64 = 0x1_0000_0000;

/// Why an encoding failed.
#[derive(Debug, Clone, Copy, PartialEq, Eq, Structural)]
pub enum EncodeError {
    /// An array, map or byte string is too long for a 32-bit length header,
    /// or the whole is too long for its byte count to fit a `usize`.
    TooLong,
    /// A node lacks what its operator needs, a list stands bare where it
    /// would read as an operator, or a map repeats a key.
    Malformed,
}

/// An append-only byte sink.
#[derive(Debug, Clone)]
pub struct Buffer {
    data: Vec<u8>,
}

impl View for Buffer {
    type V = Seq<u8>;

    closed spec fn view(&self) -> Seq<u8> {
        self.data@
    }
}

impl Buffer {
    /// An empty buffer.
    pub fn new() -> (r: Buffer)
        ensures
            r@ == Seq::<u8>::empty(),
    {
        Buffer { data: Vec::new() }
    }

    /// An empty buffer with room for `n` bytes.
    pub fn with_capacity(n: usize) -> (r: Buffer)
        ensures
            r@ == Seq::<u8>::empty(),
    {
        Buffer { data: Vec::with_capacity(n) }
    }

    /// Number of bytes written so far.
    pub fn len(&self) -> (r: usize)
        ensures
            r == self@.len(),
    {
        self.data.len()
    }

    /// The bytes written so far.
    pub fn to_vec(&self) -> (r: Vec<u8>)
        ensures
            r@ == self@,
    {
        self.data.clone()
    }

    /// Appends one byte.
    pub fn write_u8(&mut self, b: u8)
        ensures
            final(self)@ == old(self)@ + seq![b],
    {
        self.data.push(b);
        assert(self@ =~= old(self)@ + seq![b]);
    }

    /// Appends a run of bytes.
    pub fn write_bytes(&mut self, bytes: &[u8])
        ensures
            final(self)@ == old(self)@ + bytes@,
    {
        let mut i: usize = 0;
        while i < bytes.len()
            invariant
                i <= bytes@.len(),
                self@ == old(self)@ + bytes@.take(i as int),
            decreases bytes@.len() - i,
        {
            self.data.push(bytes[i]);
            i = i + 1;
            assert(bytes@.take(i as int) =~= bytes@.take(i - 1).push(bytes@[i - 1]));
        }
        assert(bytes@.take(i as int) =~= bytes@);
    }
}

/// What a sink holds: nothing in a size probe.
pub open spec fn sink_bytes(buf: Option<Buffer>) -> Seq<u8> {
    match buf {
        Some(b) => b@,
        None => Seq::empty(),
    }
}

/// Going from `before` to `after`, the sink received exactly `s`: a buffer
/// had `s` appended, a size probe stayed a size probe.
pub open spec fn emitted(before: Option<Buffer>, after: Option<Buffer>, s: Seq<u8>) -> bool {
    &&& after.is_some() == before.is_some()
    &&& after.is_some() ==> sink_bytes(after) == sink_bytes(before) + s
}

/// Two emissions in a row emit their concatenation.
pub proof fn lemma_emitted_chain(
    a: Option<Buffer>,
    b: Option<Buffer>,
    c: Option<Buffer>,
    s1: Seq<u8>,
    s2: Seq<u8>,
)
    requires
        emitted(a, b, s1),
        emitted(b, c, s2),
    ensures
        emitted(a, c, s1 + s2),
{
    assert(sink_bytes(a) + s1 + s2 =~= sink_bytes(a) + (s1 + s2));
}

/// Emitting nothing leaves the sink as it was.
pub proof fn lemma_emitted_nothing(a: Option<Buffer>)
    ensures
        emitted(a, a, Seq::empty()),
{
    assert(sink_bytes(a) + Seq::<u8>::empty() =~= sink_bytes(a));
}

/// Big-endian bytes of a 16-bit number.
#[verifier::opaque]
pub open spec fn be16(x: nat) -> Seq<u8> {
    seq![((x / 0x100) % 0x100) as u8, (x % 0x100) as u8]
}

/// Big-endian bytes of a 32-bit number.
#[verifier::opaque]
pub open spec fn be32(x: nat) -> Seq<u8> {
    be16((x / 0x1_0000) % 0x1_0000) + be16(x % 0x1_0000)
}

/// Big-endian bytes of a 64-bit number.
#[verifier::opaque]
pub open spec fn be64(x: nat) -> Seq<u8> {
    be32((x / 0x1_0000_0000) % 0x1_0000_0000) + be32(x % 0x1_0000_0000)
}

/// A big-endian form has as many bytes as its width says.
pub proof fn lemma_be_len(x: nat)
    ensures
        be16(x).len() == 2,
        be32(x).len() == 4,
        be64(x).len() == 8,
{
    reveal(be16);
    reveal(be32);
    reveal(be64);
}

fn put_byte(buf: &mut Option<Buffer>, b: u8)
    ensures
        emitted(*old(buf), *final(buf), seq![b]),
{
    match buf {
        Some(out) => {
            out.write_u8(b);
        },
        None => {},
    }
}

fn put_bytes(buf: &mut Option<Buffer>, bytes: &[u8])
    ensures
        emitted(*old(buf), *final(buf), bytes@),
{
    match buf {
        Some(out) => {
            out.write_bytes(bytes);
        },
        None => {},
    }
}

fn put_u16(buf: &mut Option<Buffer>, x: u16)
    ensures
        emitted(*old(buf), *final(buf), be16(x as nat)),
{
    let ghost b0 = *buf;
    put_byte(buf, (x / 0x100) as u8);
    let ghost b1 = *buf;
    put_byte(buf, (x % 0x100) as u8);
    proof {
        reveal(be16);
        lemma_emitted_chain(b0, b1, *buf, seq![(x / 0x100) as u8], seq![(x % 0x100) as u8]);
        assert(seq![((x / 0x100) as u8)] + seq![(x % 0x100) as u8] =~= be16(x as nat));
    }
}

fn put_u32(buf: &mut Option<Buffer>, x: u32)
    ensures
        emitted(*old(buf), *final(buf), be32(x as nat)),
{
    let ghost b0 = *buf;
    let hi = (x / 0x1_0000) as u16;
    let lo = (x % 0x1_0000) as u16;
    put_u16(buf, hi);
    let ghost b1 = *buf;
    put_u16(buf, lo);
    proof {
        reveal(be32);
        lemma_emitted_chain(b0, b1, *buf, be16(hi as nat), be16(lo as nat));
    }
}

fn put_u64(buf: &mut Option<Buffer>, x: u64)
    ensures
        emitted(*old(buf), *final(buf), be64(x as nat)),
{
    let ghost b0 = *buf;
    let hi = (x / 0x1_0000_0000) as u32;
    let lo = (x % 0x1_0000_0000) as u32;
    put_u32(buf, hi);
    let ghost b1 = *buf;
    put_u32(buf, lo);
    proof {
        reveal(be64);
        lemma_emitted_chain(b0, b1, *buf, be32(hi as nat), be32(lo as nat));
    }
}

fn put_pair(buf: &mut Option<Buffer>, m: u8, b: u8)
    ensures
        emitted(*old(buf), *final(buf), seq![m, b]),
{
    let ghost b0 = *buf;
    put_byte(buf, m);
    let ghost b1 = *buf;
    put_byte(buf, b);
    proof {
        lemma_emitted_chain(b0, b1, *buf, seq![m], seq![b]);
        assert(seq![m] + seq![b] =~= seq![m, b]);
    }
}

fn put_marked_u16(buf: &mut Option<Buffer>, m: u8, x: u16)
    ensures
        emitted(*old(buf), *final(buf), seq![m] + be16(x as nat)),
{
    let ghost b0 = *buf;
    put_byte(buf, m);
    let ghost b1 = *buf;
    put_u16(buf, x);
    proof {
        lemma_emitted_chain(b0, b1, *buf, seq![m], be16(x as nat));
    }
}

fn put_marked_u32(buf: &mut Option<Buffer>, m: u8, x: u32)
    ensures
        emitted(*old(buf), *final(buf), seq![m] + be32(x as nat)),
{
    let ghost b0 = *buf;
    put_byte(buf, m);
    let ghost b1 = *buf;
    put_u32(buf, x);
    proof {
        lemma_emitted_chain(b0, b1, *buf, seq![m], be32(x as nat));
    }
}

fn put_marked_u64(buf: &mut Option<Buffer>, m: u8, x: u64)
    ensures
        emitted(*old(buf), *final(buf), seq![m] + be64(x as nat)),
{
    let ghost b0 = *buf;
    put_byte(buf, m);
    let ghost b1 = *buf;
    put_u64(buf, x);
    proof {
        lemma_emitted_chain(b0, b1, *buf, seq![m], be64(x as nat));
    }
}

/// A length header: the single byte `fix + n` below `fix_limit`, else a
/// marker byte and the length in 16 or 32 bits.
pub open spec fn header(n: nat, fix: u8, fix_limit: nat, m16: u8, m32: u8) -> Seq<u8> {
    if n < fix_limit {
        seq![(fix + n) as u8]
    } else if n < 0x1_0000 {
        seq![m16] + be16(n)
    } else {
        seq![m32] + be32(n)
    }
}

/// Header of an array of `n` elements.
pub open spec fn array_header(n: nat) -> Seq<u8> {
    header(n, 0x90, 16, 0xdc, 0xdd)
}

/// Header of a map of `n` entries.
pub open spec fn map_header(n: nat) -> Seq<u8> {
    header(n, 0x80, 16, 0xde, 0xdf)
}

/// Header of a byte string of `n` bytes.
pub open spec fn bytes_header(n: nat) -> Seq<u8> {
    header(n, 0xa0, 32, 0xda, 0xdb)
}

/// A header can hold the length `n`.
pub open spec fn header_fits(n: nat) -> bool {
    n < HEADER_LIMIT
}

fn put_header(buf: &mut Option<Buffer>, n: usize, fix: u8, fix_limit: u8, m16: u8, m32: u8) -> (r:
    Result<usize, EncodeError>)
    requires
        fix as nat + fix_limit as nat <= 0x100,
    ensures
        header(n as nat, fix, fix_limit as nat, m16, m32).len() <= 5,
        header_fits(n as nat) ==> r == Ok::<usize, EncodeError>(
            header(n as nat, fix, fix_limit as nat, m16, m32).len() as usize,
        ) && emitted(*old(buf), *final(buf), header(n as nat, fix, fix_limit as nat, m16, m32)),
        !header_fits(n as nat) ==> r == Err::<usize, EncodeError>(EncodeError::TooLong),
{
    proof {
        lemma_be_len(n as nat);
    }
    if n < fix_limit as usize {
        put_byte(buf, fix + n as u8);
        Ok(1)
    } else if n < 0x1_0000 {
        put_marked_u16(buf, m16, n as u16);
        Ok(3)
    } else if (n as u64) < HEADER_LIMIT {
        put_marked_u32(buf, m32, n as u32);
        Ok(5)
    } else {
        Err(EncodeError::TooLong)
    }
}

/// Writes the header of an array of `n` elements.
pub fn pack_array_begin(buf: &mut Option<Buffer>, n: usize) -> (r: Result<usize, EncodeError>)
    ensures
        array_header(n as nat).len() <= 5,
        header_fits(n as nat) ==> r == Ok::<usize, EncodeError>(array_header(n as nat).len() as usize)
            && emitted(*old(buf), *final(buf), array_header(n as nat)),
        !header_fits(n as nat) ==> r == Err::<usize, EncodeError>(EncodeError::TooLong),
        n < 16 ==> r == Ok::<usize, EncodeError>(1),
{
    put_header(buf, n, 0x90, 16, 0xdc, 0xdd)
}

/// Writes the header of a map of `n` entries.
pub fn pack_map_begin(buf: &mut Option<Buffer>, n: usize) -> (r: Result<usize, EncodeError>)
    ensures
        map_header(n as nat).len() <= 5,
        header_fits(n as nat) ==> r == Ok::<usize, EncodeError>(map_header(n as nat).len() as usize)
            && emitted(*old(buf), *final(buf), map_header(n as nat)),
        !header_fits(n as nat) ==> r == Err::<usize, EncodeError>(EncodeError::TooLong),
{
    put_header(buf, n, 0x80, 16, 0xde, 0xdf)
}

/// Writes the header of a byte string of `n` bytes.
pub fn pack_byte_array_begin(buf: &mut Option<Buffer>, n: usize) -> (r: Result<usize, EncodeError>)
    ensures
        bytes_header(n as nat).len() <= 5,
        header_fits(n as nat) ==> r == Ok::<usize, EncodeError>(bytes_header(n as nat).len() as usize)
            && emitted(*old(buf), *final(buf), bytes_header(n as nat)),
        !header_fits(n as nat) ==> r == Err::<usize, EncodeError>(EncodeError::TooLong),
{
    put_header(buf, n, 0xa0, 32, 0xda, 0xdb)
}

/// The shortest MessagePack form of the integer `v`.
pub open spec fn int_bytes(v: int) -> Seq<u8> {
    if 0 <= v < 0x80 {
        seq![v as u8]
    } else if 0x80 <= v < 0x100 {
        seq![0xccu8, v as u8]
    } else if 0x100 <= v < 0x1_0000 {
        seq![0xcdu8] + be16(v as nat)
    } else if 0x1_0000 <= v < 0x1_0000_0000 {
        seq![0xceu8] + be32(v as nat)
    } else if 0x1_0000_0000 <= v {
        seq![0xcfu8] + be64(v as nat)
    } else if -32 <= v {
        seq![(v + 0x100) as u8]
    } else if -0x80 <= v {
        seq![0xd0u8, (v + 0x100) as u8]
    } else if -0x8000 <= v {
        seq![0xd1u8] + be16((v + 0x1_0000) as nat)
    } else if -0x8000_0000 <= v {
        seq![0xd2u8] + be32((v + 0x1_0000_0000) as nat)
    } else {
        seq![0xd3u8] + be64((v + 0x1_0000_0000_0000_0000) as nat)
    }
}

/// Writes the integer `v`.
pub fn pack_integer(buf: &mut Option<Buffer>, v: i64) -> (r: usize)
    ensures
        r == int_bytes(v as int).len(),
        r <= 9,
        emitted(*old(buf), *final(buf), int_bytes(v as int)),
{
    proof {
        lemma_be_len((v as int + 0x1_0000_0000_0000_0000) as nat);
        lemma_be_len((v as int + 0x1_0000_0000) as nat);
        lemma_be_len((v as int + 0x1_0000) as nat);
        lemma_be_len(v as nat);
    }
    if 0 <= v && v < 0x80 {
        put_byte(buf, v as u8);
        1
    } else if 0x80 <= v && v < 0x100 {
        put_pair(buf, 0xcc, v as u8);
        2
    } else if 0x100 <= v && v < 0x1_0000 {
        put_marked_u16(buf, 0xcd, v as u16);
        3
    } else if 0x1_0000 <= v && v < 0x1_0000_0000 {
        put_marked_u32(buf, 0xce, v as u32);
        5
    } else if 0x1_0000_0000 <= v {
        put_marked_u64(buf, 0xcf, v as u64);
        9
    } else if -32 <= v {
        put_byte(buf, (v + 0x100) as u8);
        1
    } else if -0x80 <= v {
        put_pair(buf, 0xd0, (v + 0x100) as u8);
        2
    } else if -0x8000 <= v {
        put_marked_u16(buf, 0xd1, (v + 0x1_0000) as u16);
        3
    } else if -0x8000_0000 <= v {
        put_marked_u32(buf, 0xd2, (v + 0x1_0000_0000) as u32);
        5
    } else {
        let shifted = (v + 0x4000_0000_0000_0000 + 0x4000_0000_0000_0000) as u64;
        put_marked_u64(buf, 0xd3, shifted + 0x8000_0000_0000_0000);
        9
    }
}

/// Particle type of a null bin.
pub const PARTICLE_NULL: i64 = 0;

/// Particle type that prefixes a string.
pub const PARTICLE_STRING: u8 = 3;

/// Particle type that prefixes a blob.
pub const PARTICLE_BLOB: u8 = 4;

/// Particle type that prefixes a GeoJSON string.
pub const PARTICLE_GEOJSON: u8 = 23;

/// A literal value.
#[derive(Debug)]
pub enum Value {
    /// No value.
    Nil,
    /// A boolean.
    Bool(bool),
    /// A 64-bit signed integer.
    Int(i64),
    /// A 64-bit float, held as its IEEE 754 bit pattern.
    Float(u64),
    /// A UTF-8 string.
    String(String),
    /// Raw bytes.
    Blob(Vec<u8>),
    /// An ordered list of values.
    List(Vec<Value>),
    /// A map from value to value, as its entries.
    Dictionary(Vec<(Value, Value)>),
    /// A GeoJSON document.
    GeoJSON(String),
}

/// No two keys of `entries` are the same value.
pub open spec fn keys_unique(entries: Seq<(Value, Value)>) -> bool {
    forall|i: int, j: int|
        0 <= i < j < entries.len() ==> !value_eq(#[trigger] entries[i].0, #[trigger] entries[j].0)
}

/// `a` and `b` are the same value: the same kind with the same contents,
/// list items and map entries compared one by one, in order.
pub open spec fn value_eq(a: Value, b: Value) -> bool
    decreases a,
{
    match a {
        Value::Nil => b is Nil,
        Value::Bool(x) => b is Bool && b->Bool_0 == x,
        Value::Int(x) => b is Int && b->Int_0 == x,
        Value::Float(x) => b is Float && b->Float_0 == x,
        Value::String(x) => b is String && b->String_0@ == x@,
        Value::Blob(x) => b is Blob && b->Blob_0@ == x@,
        Value::GeoJSON(x) => b is GeoJSON && b->GeoJSON_0@ == x@,
        Value::List(xs) => b is List && values_eq(xs@, b->List_0@),
        Value::Dictionary(xs) => b is Dictionary && entries_eq(xs@, b->Dictionary_0@),
    }
}

/// Two sequences of values are the same, item by item.
pub open spec fn values_eq(xs: Seq<Value>, ys: Seq<Value>) -> bool
    decreases xs,
{
    xs.len() == ys.len() && (xs.len() == 0 || (values_eq(xs.drop_last(), ys.drop_last())
        && value_eq(xs.last(), ys.last())))
}

/// Two sequences of entries are the same, entry by entry.
pub open spec fn entries_eq(xs: Seq<(Value, Value)>, ys: Seq<(Value, Value)>) -> bool
    decreases xs,
{
    xs.len() == ys.len() && (xs.len() == 0 || (entries_eq(xs.drop_last(), ys.drop_last())
        && value_eq(xs.last().0, ys.last().0) && value_eq(xs.last().1, ys.last().1)))
}

/// Every map inside `v`, at any depth, has distinct keys.
pub open spec fn value_wf(v: Value) -> bool
    decreases v,
{
    match v {
        Value::List(xs) => values_wf(xs@),
        Value::Dictionary(xs) => keys_unique(xs@) && entries_wf(xs@),
        _ => true,
    }
}

/// Each of `xs` is well formed.
pub open spec fn values_wf(xs: Seq<Value>) -> bool
    decreases xs,
{
    xs.len() == 0 || (values_wf(xs.drop_last()) && value_wf(xs.last()))
}

/// Each key and value of `xs` is well formed.
pub open spec fn entries_wf(xs: Seq<(Value, Value)>) -> bool
    decreases xs,
{
    xs.len() == 0 || (entries_wf(xs.drop_last()) && value_wf(xs.last().0) && value_wf(
        xs.last().1,
    ))
}

/// A byte string led by a particle type.
pub open spec fn typed_bytes(particle: u8, body: Seq<u8>) -> Seq<u8> {
    bytes_header(body.len() + 1) + seq![particle] + body
}

/// A string written as its bare UTF-8 bytes, with no particle type.
pub open spec fn raw_string_bytes(s: Seq<char>) -> Seq<u8> {
    bytes_header(encode_utf8(s).len()) + encode_utf8(s)
}

/// The wire form of a value.
pub open spec fn value_bytes(v: Value) -> Seq<u8>
    decreases v,
{
    match v {
        Value::Nil => seq![0xc0u8],
        Value::Bool(b) => seq![if b { 0xc3u8 } else { 0xc2u8 }],
        Value::Int(i) => int_bytes(i as int),
        Value::Float(bits) => seq![0xcbu8] + be64(bits as nat),
        Value::String(s) => typed_bytes(PARTICLE_STRING, encode_utf8(s@)),
        Value::Blob(b) => typed_bytes(PARTICLE_BLOB, b@),
        Value::GeoJSON(s) => typed_bytes(PARTICLE_GEOJSON, encode_utf8(s@)),
        Value::List(items) => array_header(items.len() as nat) + values_bytes(items@),
        Value::Dictionary(entries) => map_header(entries.len() as nat) + entries_bytes(entries@),
    }
}

/// The wire forms of `items`, one after another.
pub open spec fn values_bytes(items: Seq<Value>) -> Seq<u8>
    decreases items,
{
    if items.len() == 0 {
        Seq::empty()
    } else {
        values_bytes(items.drop_last()) + value_bytes(items.last())
    }
}

/// Key and value of each entry, one entry after another.
pub open spec fn entries_bytes(entries: Seq<(Value, Value)>) -> Seq<u8>
    decreases entries,
{
    if entries.len() == 0 {
        Seq::empty()
    } else {
        entries_bytes(entries.drop_last()) + value_bytes(entries.last().0) + value_bytes(
            entries.last().1,
        )
    }
}

/// Every header that the wire form of `v` holds can hold its length.
pub open spec fn value_fits(v: Value) -> bool
    decreases v,
{
    match v {
        Value::String(s) => header_fits(encode_utf8(s@).len() + 1),
        Value::Blob(b) => header_fits(b@.len() + 1),
        Value::GeoJSON(s) => header_fits(encode_utf8(s@).len() + 1),
        Value::List(items) => header_fits(items.len() as nat) && values_fit(items@),
        Value::Dictionary(entries) => header_fits(entries.len() as nat) && entries_fit(entries@),
        _ => true,
    }
}

/// Each of `items` fits its headers.
pub open spec fn values_fit(items: Seq<Value>) -> bool
    decreases items,
{
    items.len() == 0 || (values_fit(items.drop_last()) && value_fits(items.last()))
}

/// Each key and each value of `entries` fits its headers.
pub open spec fn entries_fit(entries: Seq<(Value, Value)>) -> bool
    decreases entries,
{
    entries.len() == 0 || (entries_fit(entries.drop_last()) && value_fits(entries.last().0)
        && value_fits(entries.last().1))
}

proof fn lemma_values_prefix(items: Seq<Value>, i: int)
    requires
        0 <= i <= items.len(),
    ensures
        values_bytes(items.take(i)).len() <= values_bytes(items).len(),
        values_fit(items) ==> values_fit(items.take(i)),
    decreases items.len() - i,
{
    if i < items.len() {
        lemma_values_prefix(items, i + 1);
        assert(items.take(i + 1).drop_last() =~= items.take(i));
    } else {
        assert(items.take(i) =~= items);
    }
}

proof fn lemma_entries_prefix(entries: Seq<(Value, Value)>, i: int)
    requires
        0 <= i <= entries.len(),
    ensures
        entries_bytes(entries.take(i)).len() <= entries_bytes(entries).len(),
        entries_fit(entries) ==> entries_fit(entries.take(i)),
    decreases entries.len() - i,
{
    if i < entries.len() {
        lemma_entries_prefix(entries, i + 1);
        assert(entries.take(i + 1).drop_last() =~= entries.take(i));
    } else {
        assert(entries.take(i) =~= entries);
    }
}

/// The sequence `s` is short enough for a `usize` to count it.
pub open spec fn countable(s: Seq<u8>) -> bool {
    s.len() <= usize::MAX
}

/// Adds two byte counts, or fails when the sum is past what a `usize` holds.
pub(crate) fn add_count(a: usize, b: usize) -> (r: Result<usize, EncodeError>)
    ensures
        a + b <= usize::MAX ==> r == Ok::<usize, EncodeError>((a + b) as usize),
        a + b > usize::MAX ==> r == Err::<usize, EncodeError>(EncodeError::TooLong),
{
    match a.checked_add(b) {
        Some(c) => Ok(c),
        None => Err(EncodeError::TooLong),
    }
}

fn pack_typed(buf: &mut Option<Buffer>, particle: u8, body: &[u8]) -> (r: Result<usize, EncodeError>)
    ensures
        header_fits(body@.len() + 1) && countable(typed_bytes(particle, body@)) ==> r == Ok::<
            usize,
            EncodeError,
        >(typed_bytes(particle, body@).len() as usize) && emitted(
            *old(buf),
            *final(buf),
            typed_bytes(particle, body@),
        ),
        !(header_fits(body@.len() + 1) && countable(typed_bytes(particle, body@))) ==> r == Err::<
            usize,
            EncodeError,
        >(EncodeError::TooLong),
{
    if body.len() >= 0xffff_ffff {
        return Err(EncodeError::TooLong);
    }
    let ghost b0 = *buf;
    let h = match pack_byte_array_begin(buf, body.len() + 1) {
        Ok(h) => h,
        Err(e) => {
            return Err(e);
        },
    };
    let ghost b1 = *buf;
    put_byte(buf, particle);
    let ghost b2 = *buf;
    put_bytes(buf, body);
    proof {
        let hb = bytes_header(body@.len() + 1);
        lemma_emitted_chain(b0, b1, b2, hb, seq![particle]);
        lemma_emitted_chain(b0, b2, *buf, hb + seq![particle], body@);
    }
    add_count(h + 1, body.len())
}

/// Writes `s` as its bare UTF-8 bytes after a byte-string header.
pub fn pack_raw_string(buf: &mut Option<Buffer>, s: &str) -> (r: Result<usize, EncodeError>)
    ensures
        header_fits(encode_utf8(s@).len()) && countable(raw_string_bytes(s@)) ==> r == Ok::<
            usize,
            EncodeError,
        >(raw_string_bytes(s@).len() as usize) && emitted(
            *old(buf),
            *final(buf),
            raw_string_bytes(s@),
        ),
        !(header_fits(encode_utf8(s@).len()) && countable(raw_string_bytes(s@))) ==> r == Err::<
            usize,
            EncodeError,
        >(EncodeError::TooLong),
{
    let body = s.as_bytes();
    let ghost b0 = *buf;
    let h = match pack_byte_array_begin(buf, body.len()) {
        Ok(h) => h,
        Err(e) => {
            return Err(e);
        },
    };
    let ghost b1 = *buf;
    put_bytes(buf, body);
    proof {
        lemma_emitted_chain(b0, b1, *buf, bytes_header(body@.len() as nat), body@);
    }
    add_count(h, body.len())
}

/// Writes a value, or counts its bytes when `buf` is `None`, whether or not
/// it is well formed. It fails only where a header cannot hold a length or
/// the count does not fit a `usize`.
pub(crate) fn write_value(buf: &mut Option<Buffer>, v: &Value) -> (r: Result<usize, EncodeError>)
    ensures
        value_fits(*v) && countable(value_bytes(*v)) ==> r == Ok::<usize, EncodeError>(
            value_bytes(*v).len() as usize,
        ) && emitted(*old(buf), *final(buf), value_bytes(*v)),
        !(value_fits(*v) && countable(value_bytes(*v))) ==> r == Err::<usize, EncodeError>(
            EncodeError::TooLong,
        ),
    decreases v,
{
    match v {
        Value::Nil => {
            put_byte(buf, 0xc0);
            Ok(1)
        },
        Value::Bool(b) => {
            put_byte(buf, if *b { 0xc3 } else { 0xc2 });
            Ok(1)
        },
        Value::Int(i) => Ok(pack_integer(buf, *i)),
        Value::Float(bits) => {
            proof {
                lemma_be_len(*bits as nat);
            }
            put_marked_u64(buf, 0xcb, *bits);
            Ok(9)
        },
        Value::String(s) => pack_typed(buf, PARTICLE_STRING, s.as_str().as_bytes()),
        Value::Blob(b) => pack_typed(buf, PARTICLE_BLOB, b.as_slice()),
        Value::GeoJSON(s) => pack_typed(buf, PARTICLE_GEOJSON, s.as_str().as_bytes()),
        Value::List(items) => {
            let ghost b0 = *buf;
            let h = match pack_array_begin(buf, items.len()) {
                Ok(h) => h,
                Err(e) => {
                    return Err(e);
                },
            };
            let ghost b1 = *buf;
            proof {
                lemma_emitted_nothing(b1);
            }
            let mut size: usize = h;
            let mut i: usize = 0;
            while i < items.len()
                invariant
                    i <= items@.len(),
                    *v == Value::List(*items),
                    values_fit(items@.take(i as int)),
                    size == h + values_bytes(items@.take(i as int)).len(),
                    h == array_header(items@.len() as nat).len(),
                    header_fits(items@.len() as nat),
                    emitted(b0, b1, array_header(items@.len() as nat)),
                    emitted(b1, *buf, values_bytes(items@.take(i as int))),
                decreases items@.len() - i,
            {
                let ghost bi = *buf;
                proof {
                    lemma_values_prefix(items@, i + 1);
                    assert(items@.take(i + 1).drop_last() =~= items@.take(i as int));
                    assert(items@.take(i + 1).last() == items@[i as int]);
                }
                proof {
                    vstd::std_specs::vec::axiom_vec_index_decreases(*items, i as int);
                    assert(*v == Value::List(*items));
                    assert(v->List_0 == *items);
                    assert(decreases_to!(*v => v->List_0));
                    assert(decreases_to!(*items => items@[i as int]));
                }
                let k = match write_value(buf, &items[i]) {
                    Ok(k) => k,
                    Err(e) => {
                        return Err(e);
                    },
                };
                proof {
                    lemma_emitted_chain(
                        b1,
                        bi,
                        *buf,
                        values_bytes(items@.take(i as int)),
                        value_bytes(items@[i as int]),
                    );
                }
                size = match add_count(size, k) {
                    Ok(n) => n,
                    Err(e) => {
                        return Err(e);
                    },
                };
                i = i + 1;
            }
            proof {
                assert(items@.take(i as int) =~= items@);
                lemma_emitted_chain(
                    b0,
                    b1,
                    *buf,
                    array_header(items@.len() as nat),
                    values_bytes(items@),
                );
            }
            Ok(size)
        },
        Value::Dictionary(entries) => {
            let ghost b0 = *buf;
            let h = match pack_map_begin(buf, entries.len()) {
                Ok(h) => h,
                Err(e) => {
                    return Err(e);
                },
            };
            let ghost b1 = *buf;
            proof {
                lemma_emitted_nothing(b1);
            }
            let mut size: usize = h;
            let mut i: usize = 0;
            while i < entries.len()
                invariant
                    i <= entries@.len(),
                    *v == Value::Dictionary(*entries),
                    entries_fit(entries@.take(i as int)),
                    size == h + entries_bytes(entries@.take(i as int)).len(),
                    h == map_header(entries@.len() as nat).len(),
                    header_fits(entries@.len() as nat),
                    emitted(b0, b1, map_header(entries@.len() as nat)),
                    emitted(b1, *buf, entries_bytes(entries@.take(i as int))),
                decreases entries@.len() - i,
            {
                let ghost bi = *buf;
                let ghost ei = entries@[i as int];
                proof {
                    lemma_entries_prefix(entries@, i + 1);
                    assert(entries@.take(i + 1).drop_last() =~= entries@.take(i as int));
                    assert(entries@.take(i + 1).last() == ei);
                }
                proof {
                    vstd::std_specs::vec::axiom_vec_index_decreases(*entries, i as int);
                    assert(v->Dictionary_0 == *entries);
                    assert(decreases_to!(*v => v->Dictionary_0));
                    assert(decreases_to!(*entries => entries@[i as int]));
                    assert(decreases_to!(entries@[i as int] => entries@[i as int].0));
                    assert(decreases_to!(entries@[i as int] => entries@[i as int].1));
                }
                let k1 = match write_value(buf, &entries[i].0) {
                    Ok(k) => k,
                    Err(e) => {
                        return Err(e);
                    },
                };
                let ghost bk = *buf;
                let k2 = match write_value(buf, &entries[i].1) {
                    Ok(k) => k,
                    Err(e) => {
                        return Err(e);
                    },
                };
                proof {
                    let pre = entries_bytes(entries@.take(i as int));
                    lemma_emitted_chain(b1, bi, bk, pre, value_bytes(ei.0));
                    lemma_emitted_chain(b1, bk, *buf, pre + value_bytes(ei.0), value_bytes(ei.1));
                }
                size = match add_count(size, k1) {
                    Ok(n) => n,
                    Err(e) => {
                        return Err(e);
                    },
                };
                size = match add_count(size, k2) {
                    Ok(n) => n,
                    Err(e) => {
                        return Err(e);
                    },
                };
                i = i + 1;
            }
            proof {
                assert(entries@.take(i as int) =~= entries@);
                lemma_emitted_chain(
                    b0,
                    b1,
                    *buf,
                    map_header(entries@.len() as nat),
                    entries_bytes(entries@),
                );
            }
            Ok(size)
        },
    }
}

fn same_bytes(x: &[u8], y: &[u8]) -> (r: bool)
    ensures
        r == (x@ == y@),
{
    if x.len() != y.len() {
        return false;
    }
    let mut i: usize = 0;
    while i < x.len()
        invariant
            x@.len() == y@.len(),
            i <= x@.len(),
            x@.take(i as int) == y@.take(i as int),
        decreases x@.len() - i,
    {
        if x[i] != y[i] {
            assert(x@.take(i + 1)[i as int] != y@.take(i + 1)[i as int]);
            return false;
        }
        assert(x@.take(i + 1) =~= x@.take(i as int).push(x@[i as int]));
        assert(y@.take(i + 1) =~= y@.take(i as int).push(y@[i as int]));
        i = i + 1;
    }
    assert(x@.take(i as int) =~= x@);
    assert(y@.take(i as int) =~= y@);
    true
}

/// Whether `a` and `b` are the same value.
pub fn same_value(a: &Value, b: &Value) -> (r: bool)
    ensures
        r == value_eq(*a, *b),
    decreases a,
{
    match a {
        Value::Nil => matches!(b, Value::Nil),
        Value::Bool(x) => match b {
            Value::Bool(y) => *x == *y,
            _ => false,
        },
        Value::Int(x) => match b {
            Value::Int(y) => *x == *y,
            _ => false,
        },
        Value::Float(x) => match b {
            Value::Float(y) => *x == *y,
            _ => false,
        },
        Value::String(x) => match b {
            Value::String(y) => x.eq(y),
            _ => false,
        },
        Value::Blob(x) => match b {
            Value::Blob(y) => same_bytes(x.as_slice(), y.as_slice()),
            _ => false,
        },
        Value::GeoJSON(x) => match b {
            Value::GeoJSON(y) => x.eq(y),
            _ => false,
        },
        Value::List(xs) => match b {
            Value::List(ys) => {
                if xs.len() != ys.len() {
                    return false;
                }
                let mut i: usize = 0;
                while i < xs.len()
                    invariant
                        *a == Value::List(*xs),
                        *b == Value::List(*ys),
                        xs@.len() == ys@.len(),
                        i <= xs@.len(),
                        values_eq(xs@.take(i as int), ys@.take(i as int)),
                    decreases xs@.len() - i,
                {
                    proof {
                        assert(xs@.take(i + 1).drop_last() =~= xs@.take(i as int));
                        assert(ys@.take(i + 1).drop_last() =~= ys@.take(i as int));
                        assert(xs@.take(i + 1).last() == xs@[i as int]);
                        assert(ys@.take(i + 1).last() == ys@[i as int]);
                        lemma_values_eq_prefix(xs@, ys@, i + 1);
                        vstd::std_specs::vec::axiom_vec_index_decreases(*xs, i as int);
                        assert(a->List_0 == *xs);
                        assert(decreases_to!(*a => a->List_0));
                    }
                    if !same_value(&xs[i], &ys[i]) {
                        return false;
                    }
                    i = i + 1;
                }
                proof {
                    assert(xs@.take(i as int) =~= xs@);
                    assert(ys@.take(i as int) =~= ys@);
                }
                true
            },
            _ => false,
        },
        Value::Dictionary(xs) => match b {
            Value::Dictionary(ys) => {
                if xs.len() != ys.len() {
                    return false;
                }
                let mut i: usize = 0;
                while i < xs.len()
                    invariant
                        *a == Value::Dictionary(*xs),
                        *b == Value::Dictionary(*ys),
                        xs@.len() == ys@.len(),
                        i <= xs@.len(),
                        entries_eq(xs@.take(i as int), ys@.take(i as int)),
                    decreases xs@.len() - i,
                {
                    proof {
                        assert(xs@.take(i + 1).drop_last() =~= xs@.take(i as int));
                        assert(ys@.take(i + 1).drop_last() =~= ys@.take(i as int));
                        assert(xs@.take(i + 1).last() == xs@[i as int]);
                        assert(ys@.take(i + 1).last() == ys@[i as int]);
                        lemma_entries_eq_prefix(xs@, ys@, i + 1);
                        vstd::std_specs::vec::axiom_vec_index_decreases(*xs, i as int);
                        assert(a->Dictionary_0 == *xs);
                        assert(decreases_to!(*a => a->Dictionary_0));
                        assert(decreases_to!(xs@[i as int] => xs@[i as int].0));
                        assert(decreases_to!(xs@[i as int] => xs@[i as int].1));
                    }
                    if !same_value(&xs[i].0, &ys[i].0) || !same_value(&xs[i].1, &ys[i].1) {
                        return false;
                    }
                    i = i + 1;
                }
                proof {
                    assert(xs@.take(i as int) =~= xs@);
                    assert(ys@.take(i as int) =~= ys@);
                }
                true
            },
            _ => false,
        },
    }
}

/// Whether no two keys of `entries` are the same value.
pub fn keys_distinct(entries: &Vec<(Value, Value)>) -> (r: bool)
    ensures
        r == keys_unique(entries@),
{
    let mut j: usize = 0;
    while j < entries.len()
        invariant
            j <= entries@.len(),
            forall|a: int, b: int|
                0 <= a < b < j ==> !value_eq(#[trigger] entries@[a].0, #[trigger] entries@[b].0),
        decreases entries@.len() - j,
    {
        let mut i: usize = 0;
        while i < j
            invariant
                i <= j < entries@.len(),
                forall|a: int, b: int|
                    0 <= a < b < j ==> !value_eq(#[trigger] entries@[a].0, #[trigger] entries@[b].0),
                forall|a: int| 0 <= a < i ==> !value_eq(#[trigger] entries@[a].0, entries@[j as int].0),
            decreases j - i,
        {
            if same_value(&entries[i].0, &entries[j].0) {
                return false;
            }
            i = i + 1;
        }
        j = j + 1;
    }
    true
}

impl Value {
    /// Whether every map inside this value, at any depth, has distinct keys.
    pub fn is_well_formed(&self) -> (r: bool)
        ensures
            r == value_wf(*self),
        decreases self,
    {
        match self {
            Value::List(xs) => {
                let mut i: usize = 0;
                while i < xs.len()
                    invariant
                        *self == Value::List(*xs),
                        i <= xs@.len(),
                        values_wf(xs@.take(i as int)),
                    decreases xs@.len() - i,
                {
                    proof {
                        assert(xs@.take(i + 1).drop_last() =~= xs@.take(i as int));
                        assert(xs@.take(i + 1).last() == xs@[i as int]);
                        lemma_values_wf_prefix(xs@, i + 1);
                        vstd::std_specs::vec::axiom_vec_index_decreases(*xs, i as int);
                        assert(self->List_0 == *xs);
                        assert(decreases_to!(*self => self->List_0));
                    }
                    if !xs[i].is_well_formed() {
                        return false;
                    }
                    i = i + 1;
                }
                proof {
                    assert(xs@.take(i as int) =~= xs@);
                }
                true
            },
            Value::Dictionary(xs) => {
                if !keys_distinct(xs) {
                    return false;
                }
                let mut i: usize = 0;
                while i < xs.len()
                    invariant
                        *self == Value::Dictionary(*xs),
                        i <= xs@.len(),
                        entries_wf(xs@.take(i as int)),
                    decreases xs@.len() - i,
                {
                    proof {
                        assert(xs@.take(i + 1).drop_last() =~= xs@.take(i as int));
                        assert(xs@.take(i + 1).last() == xs@[i as int]);
                        lemma_entries_wf_prefix(xs@, i + 1);
                        vstd::std_specs::vec::axiom_vec_index_decreases(*xs, i as int);
                        assert(self->Dictionary_0 == *xs);
                        assert(decreases_to!(*self => self->Dictionary_0));
                        assert(decreases_to!(xs@[i as int] => xs@[i as int].0));
                        assert(decreases_to!(xs@[i as int] => xs@[i as int].1));
                    }
                    if !xs[i].0.is_well_formed() || !xs[i].1.is_well_formed() {
                        return false;
                    }
                    i = i + 1;
                }
                proof {
                    assert(xs@.take(i as int) =~= xs@);
                }
                true
            },
            _ => true,
        }
    }
}

proof fn lemma_values_wf_prefix(xs: Seq<Value>, i: int)
    requires
        0 <= i <= xs.len(),
    ensures
        values_wf(xs) ==> values_wf(xs.take(i)),
    decreases xs.len() - i,
{
    if i < xs.len() {
        lemma_values_wf_prefix(xs, i + 1);
        assert(xs.take(i + 1).drop_last() =~= xs.take(i));
    } else {
        assert(xs.take(i) =~= xs);
    }
}

proof fn lemma_entries_wf_prefix(xs: Seq<(Value, Value)>, i: int)
    requires
        0 <= i <= xs.len(),
    ensures
        entries_wf(xs) ==> entries_wf(xs.take(i)),
    decreases xs.len() - i,
{
    if i < xs.len() {
        lemma_entries_wf_prefix(xs, i + 1);
        assert(xs.take(i + 1).drop_last() =~= xs.take(i));
    } else {
        assert(xs.take(i) =~= xs);
    }
}

/// Writes a value, or counts its bytes when `buf` is `None`. A value that
/// repeats a map key is refused before anything is written.
pub fn pack_value(buf: &mut Option<Buffer>, v: &Value) -> (r: Result<usize, EncodeError>)
    ensures
        !value_wf(*v) ==> r == Err::<usize, EncodeError>(EncodeError::Malformed) && *final(buf)
            == *old(buf),
        value_wf(*v) && value_fits(*v) && countable(value_bytes(*v)) ==> r == Ok::<
            usize,
            EncodeError,
        >(value_bytes(*v).len() as usize) && emitted(*old(buf), *final(buf), value_bytes(*v)),
        value_wf(*v) && !(value_fits(*v) && countable(value_bytes(*v))) ==> r == Err::<
            usize,
            EncodeError,
        >(EncodeError::TooLong),
{
    if !v.is_well_formed() {
        return Err(EncodeError::Malformed);
    }
    write_value(buf, v)
}

proof fn lemma_values_eq_prefix(xs: Seq<Value>, ys: Seq<Value>, i: int)
    requires
        0 <= i <= xs.len(),
        xs.len() == ys.len(),
    ensures
        values_eq(xs, ys) ==> values_eq(xs.take(i), ys.take(i)),
    decreases xs.len() - i,
{
    if i < xs.len() {
        lemma_values_eq_prefix(xs, ys, i + 1);
        assert(xs.take(i + 1).drop_last() =~= xs.take(i));
        assert(ys.take(i + 1).drop_last() =~= ys.take(i));
    } else {
        assert(xs.take(i) =~= xs);
        assert(ys.take(i) =~= ys);
    }
}

proof fn lemma_entries_eq_prefix(xs: Seq<(Value, Value)>, ys: Seq<(Value, Value)>, i: int)
    requires
        0 <= i <= xs.len(),
        xs.len() == ys.len(),
    ensures
        entries_eq(xs, ys) ==> entries_eq(xs.take(i), ys.take(i)),
    decreases xs.len() - i,
{
    if i < xs.len() {
        lemma_entries_eq_prefix(xs, ys, i + 1);
        assert(xs.take(i + 1).drop_last() =~= xs.take(i));
        assert(ys.take(i + 1).drop_last() =~= ys.take(i));
    } else {
        assert(xs.take(i) =~= xs);
        assert(ys.take(i) =~= ys);
    }
}

} // verus!
