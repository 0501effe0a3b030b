//! The protobuf wire format, as far as the catalog and the log entries use
//! it: base-128 varints, and messages made of varint and length-delimited
//! fields. Varints are written and read by `quick_protobuf`; everything
//! above them is verified here.

use quick_protobuf::{BytesReader, Writer};
use vstd::prelude::*;
use vstd::slice::{slice_subrange, slice_to_vec};

verus! {

/// Wire type of a varint field.
pub const WIRE_VARINT: u64 = 0;

/// Wire type of a length-delimited field.
pub const WIRE_BYTES: u64 = 2;

/// The base-128 encoding of `v`: seven bits a byte, least significant group
/// first, the top bit set on every byte but the last.
pub open spec fn varint(v: u64) -> Seq<u8>
    decreases v,
{
    if v < 0x80 {
        seq![v as u8]
    } else {
        seq![(v % 0x80 + 0x80) as u8] + varint(v / 0x80)
    }
}

/// Reads groups of seven bits from the front of `s` until a byte without the
/// top bit, looking at no more than `fuel` bytes. Gives the unbounded value
/// and the number of bytes read.
pub open spec fn varint_scan(s: Seq<u8>, fuel: nat) -> Option<(nat, nat)>
    decreases fuel,
{
    if fuel == 0 || s.len() == 0 {
        None
    } else if s[0] < 0x80 {
        Some((s[0] as nat, 1nat))
    } else {
        match varint_scan(s.skip(1), (fuel - 1) as nat) {
            None => None,
            Some((v, n)) => Some((((s[0] - 0x80) + 0x80 * v) as nat, n + 1)),
        }
    }
}

/// The varint at the front of `s` and its length: at most ten bytes are read,
/// and bits beyond the sixty-fourth are dropped. `None` when `s` ends inside
/// the varint or the tenth byte still has its top bit set.
pub open spec fn varint_decode(s: Seq<u8>) -> Option<(u64, nat)> {
    match varint_scan(s, 10) {
        None => None,
        Some((v, n)) => Some(((v % 0x1_0000_0000_0000_0000) as u64, n)),
    }
}

spec fn pow128(k: nat) -> nat
    decreases k,
{
    if k == 0 {
        1
    } else {
        128 * pow128((k - 1) as nat)
    }
}

proof fn lemma_varint_len_below(v: u64, k: nat)
    requires
        k >= 1,
        v < pow128(k),
    ensures
        1 <= varint(v).len() <= k,
    decreases k,
{
    if v >= 0x80 {
        assert(k >= 2) by {
            if k == 1 {
                assert(pow128(1) == 128) by {
                    reveal_with_fuel(pow128, 2);
                }
            }
        }
        lemma_varint_len_below(v / 0x80, (k - 1) as nat);
    }
}

/// A varint has between one and ten bytes.
pub proof fn lemma_varint_len(v: u64)
    ensures
        1 <= varint(v).len() <= 10,
{
    assert(pow128(10) == 0x40_0000_0000_0000_0000) by {
        reveal_with_fuel(pow128, 11);
    }
    lemma_varint_len_below(v, 10);
}

proof fn lemma_varint_scan_roundtrip(v: u64, rest: Seq<u8>, fuel: nat)
    requires
        fuel >= varint(v).len(),
    ensures
        varint_scan(varint(v) + rest, fuel) == Some((v as nat, varint(v).len())),
    decreases v,
{
    let s = varint(v) + rest;
    if v < 0x80 {
        assert(s[0] == v as u8);
    } else {
        let tail = varint(v / 0x80);
        assert(s[0] == (v % 0x80 + 0x80) as u8);
        assert(s.skip(1) =~= tail + rest);
        lemma_varint_scan_roundtrip(v / 0x80, rest, (fuel - 1) as nat);
    }
}

/// Reading a varint where one was written gives the value back and stops at
/// its end, whatever follows.
pub proof fn lemma_varint_roundtrip(v: u64, rest: Seq<u8>)
    ensures
        varint_decode(varint(v) + rest) == Some((v, varint(v).len())),
{
    lemma_varint_len(v);
    lemma_varint_scan_roundtrip(v, rest, 10);
}

proof fn lemma_varint_scan_len(s: Seq<u8>, fuel: nat)
    ensures
        varint_scan(s, fuel) matches Some((v, n)) ==> 1 <= n <= fuel && n <= s.len(),
    decreases fuel,
{
    if fuel != 0 && s.len() != 0 && s[0] >= 0x80 {
        lemma_varint_scan_len(s.skip(1), (fuel - 1) as nat);
    }
}

/// A varint that was read lies inside the bytes it was read from.
pub proof fn lemma_varint_decode_len(s: Seq<u8>)
    ensures
        varint_decode(s) matches Some((v, n)) ==> 1 <= n <= 10 && n <= s.len(),
{
    lemma_varint_scan_len(s, 10);
}

/// `Writer::write_varint` of `quick_protobuf`, on a writer over `buf`: it
/// appends the base-128 encoding of `v`. Writing to a vector cannot fail.
#[verifier::external_body]
fn pb_write_varint(buf: &mut Vec<u8>, v: u64)
    ensures
        final(buf)@ == old(buf)@ + varint(v),
{
    let mut writer = Writer::new(buf);
    let _ = writer.write_varint(v);
}

/// `BytesReader::read_varint64` of `quick_protobuf`, on a reader at the start
/// of `bytes`: the value of the varint there, with the number of bytes that
/// are left behind it; `None` where the reader reports an error.
#[verifier::external_body]
fn pb_read_varint(bytes: &[u8]) -> (r: Option<(u64, usize)>)
    ensures
        match varint_decode(bytes@) {
            None => r.is_none(),
            Some((v, n)) => r == Some((v, (bytes@.len() - n) as usize)),
        },
{
    let mut reader = BytesReader::from_bytes(bytes);
    match reader.read_varint64(bytes) {
        Ok(v) => Some((v, reader.len())),
        Err(_) => None,
    }
}

/// Appends the varint encoding of `v` to `buf`.
pub fn put_varint(buf: &mut Vec<u8>, v: u64)
    ensures
        final(buf)@ == old(buf)@ + varint(v),
{
    pb_write_varint(buf, v);
}

/// Reads the varint that starts at `pos`: its value and the position behind
/// it.
pub fn get_varint(bytes: &[u8], pos: usize) -> (r: Option<(u64, usize)>)
    requires
        pos <= bytes@.len(),
    ensures
        match varint_decode(bytes@.skip(pos as int)) {
            None => r.is_none(),
            Some((v, n)) => r matches Some((w, next)) && w == v && next == pos + n && pos < next
                <= bytes@.len(),
        },
{
    let rest = slice_subrange(bytes, pos, bytes.len());
    assert(rest@ =~= bytes@.skip(pos as int));
    proof {
        lemma_varint_decode_len(rest@);
    }
    match pb_read_varint(rest) {
        None => None,
        Some((v, left)) => Some((v, bytes.len() - left)),
    }
}

/// Appends `src` to `buf`.
pub fn append_bytes(buf: &mut Vec<u8>, src: &[u8])
    ensures
        final(buf)@ == old(buf)@ + src@,
{
    let n: usize = src.len();
    let mut i: usize = 0;
    while i < n
        invariant
            i <= n == src@.len(),
            buf@ == old(buf)@ + src@.take(i as int),
        decreases n - i,
    {
        buf.push(src[i]);
        assert(src@.take(i + 1) =~= src@.take(i as int).push(src@[i as int]));
        i = i + 1;
    }
    assert(src@.take(n as int) =~= src@);
}

/// What a field of a message carries.
pub enum FieldValue {
    /// A number, written as a varint.
    Varint(u64),
    /// A run of bytes, written behind its length.
    Bytes(Vec<u8>),
}

/// One field of a message: its number and what it carries.
pub struct Field {
    pub number: u32,
    pub value: FieldValue,
}

/// The mathematical value of a `FieldValue`.
pub enum ValueView {
    Varint(u64),
    Bytes(Seq<u8>),
}

/// The mathematical value of a `Field`.
pub struct FieldView {
    pub number: u32,
    pub value: ValueView,
}

impl View for FieldValue {
    type V = ValueView;

    open spec fn view(&self) -> ValueView {
        match self {
            FieldValue::Varint(v) => ValueView::Varint(*v),
            FieldValue::Bytes(b) => ValueView::Bytes(b@),
        }
    }
}

impl View for Field {
    type V = FieldView;

    open spec fn view(&self) -> FieldView {
        FieldView { number: self.number, value: self.value@ }
    }
}

/// The views of a run of fields, in order.
pub open spec fn field_views(fields: Seq<Field>) -> Seq<FieldView> {
    Seq::new(fields.len(), |i: int| fields[i]@)
}

/// A varint field with the given number.
pub open spec fn varint_field(number: u32, v: u64) -> FieldView {
    FieldView { number, value: ValueView::Varint(v) }
}

/// A length-delimited field with the given number.
pub open spec fn bytes_field(number: u32, b: Seq<u8>) -> FieldView {
    FieldView { number, value: ValueView::Bytes(b) }
}

/// The key that precedes a field: its number above the three bits of its
/// wire type.
pub open spec fn field_key(f: FieldView) -> u64 {
    match f.value {
        ValueView::Varint(_) => (f.number as u64 * 8 + WIRE_VARINT) as u64,
        ValueView::Bytes(_) => (f.number as u64 * 8 + WIRE_BYTES) as u64,
    }
}

/// A field can be written when the length of its bytes fits the length
/// prefix.
pub open spec fn field_fits(f: FieldView) -> bool {
    f.value matches ValueView::Bytes(b) ==> b.len() <= u64::MAX
}

/// The bytes of one field: key, then the varint, or the length and the bytes.
pub open spec fn field_bytes(f: FieldView) -> Seq<u8> {
    match f.value {
        ValueView::Varint(v) => varint(field_key(f)) + varint(v),
        ValueView::Bytes(b) => varint(field_key(f)) + varint(b.len() as u64) + b,
    }
}

/// The bytes of a message: its fields one after another.
pub open spec fn message_bytes(fields: Seq<FieldView>) -> Seq<u8>
    decreases fields.len(),
{
    if fields.len() == 0 {
        Seq::empty()
    } else {
        field_bytes(fields[0]) + message_bytes(fields.skip(1))
    }
}

/// The field at the front of `s` and the number of bytes it takes. `None`
/// when the key or the value cannot be read, the field number does not fit
/// in 32 bits, the wire type is neither varint nor length-delimited, or the
/// declared length runs past the end of `s`.
pub open spec fn field_at(s: Seq<u8>) -> Option<(FieldView, nat)> {
    match varint_decode(s) {
        None => None,
        Some((key, n1)) => {
            if key / 8 > u32::MAX {
                None
            } else {
                match varint_decode(s.skip(n1 as int)) {
                    None => None,
                    Some((v, n2)) => {
                        if key % 8 == WIRE_VARINT {
                            Some((varint_field((key / 8) as u32, v), n1 + n2))
                        } else if key % 8 == WIRE_BYTES && n1 + n2 + v <= s.len() {
                            Some(
                                (
                                    bytes_field(
                                        (key / 8) as u32,
                                        s.subrange((n1 + n2) as int, n1 + n2 + v),
                                    ),
                                    (n1 + n2 + v) as nat,
                                ),
                            )
                        } else {
                            None
                        }
                    },
                }
            }
        },
    }
}

/// The fields that `s` is made of, or `None` when `s` is not a run of
/// readable fields from its first byte to its last.
pub open spec fn message_fields(s: Seq<u8>) -> Option<Seq<FieldView>>
    decreases s.len(),
{
    if s.len() == 0 {
        Some(Seq::empty())
    } else {
        match field_at(s) {
            None => None,
            Some((f, n)) => {
                if 0 < n <= s.len() {
                    match message_fields(s.skip(n as int)) {
                        None => None,
                        Some(rest) => Some(seq![f] + rest),
                    }
                } else {
                    None
                }
            },
        }
    }
}

/// A field that was read lies inside the bytes it was read from.
pub proof fn lemma_field_at_len(s: Seq<u8>)
    ensures
        field_at(s) matches Some((f, n)) ==> 0 < n <= s.len() && field_fits(f),
{
    lemma_varint_decode_len(s);
    if let Some((key, n1)) = varint_decode(s) {
        lemma_varint_decode_len(s.skip(n1 as int));
    }
}

/// Reading a field where one was written gives the field back and stops at
/// its end, whatever follows.
pub proof fn lemma_field_roundtrip(f: FieldView, rest: Seq<u8>)
    requires
        field_fits(f),
    ensures
        field_at(field_bytes(f) + rest) == Some((f, field_bytes(f).len())),
{
    let key = field_key(f);
    let s = field_bytes(f) + rest;
    let n1 = varint(key).len();
    assert(key / 8 == f.number && key % 8 == if f.value is Varint { 0int } else { 2int });
    match f.value {
        ValueView::Varint(v) => {
            lemma_varint_roundtrip(key, varint(v) + rest);
            assert(s =~= varint(key) + (varint(v) + rest));
            assert(s.skip(n1 as int) =~= varint(v) + rest);
            lemma_varint_roundtrip(v, rest);
        },
        ValueView::Bytes(b) => {
            let len = b.len() as u64;
            let n2 = varint(len).len();
            lemma_varint_roundtrip(key, varint(len) + b + rest);
            assert(s =~= varint(key) + (varint(len) + b + rest));
            assert(s.skip(n1 as int) =~= varint(len) + (b + rest));
            lemma_varint_roundtrip(len, b + rest);
            assert(s.subrange((n1 + n2) as int, n1 + n2 + len) =~= b);
        },
    }
}

/// The bytes of two runs of fields, one after the other, are the bytes of
/// the joined run.
pub proof fn lemma_message_bytes_concat(a: Seq<FieldView>, b: Seq<FieldView>)
    ensures
        message_bytes(a + b) == message_bytes(a) + message_bytes(b),
    decreases a.len(),
{
    if a.len() == 0 {
        assert(a + b =~= b);
        assert(message_bytes(a) + message_bytes(b) =~= message_bytes(b));
    } else {
        assert((a + b).skip(1) =~= a.skip(1) + b);
        lemma_message_bytes_concat(a.skip(1), b);
        assert(message_bytes(a + b) =~= message_bytes(a) + message_bytes(b));
    }
}

/// The bytes of a single field as a message.
pub proof fn lemma_message_bytes_one(f: FieldView)
    ensures
        message_bytes(seq![f]) == field_bytes(f),
{
    reveal_with_fuel(message_bytes, 2);
    assert(seq![f].skip(1) =~= Seq::<FieldView>::empty());
    assert(message_bytes(seq![f]) =~= field_bytes(f));
}

/// Every field of the run can be written.
pub open spec fn fields_fit(fields: Seq<FieldView>) -> bool {
    forall|i: int| 0 <= i < fields.len() ==> field_fits(#[trigger] fields[i])
}

/// Reading a message that was written gives its fields back.
pub proof fn lemma_message_roundtrip(fields: Seq<FieldView>)
    requires
        fields_fit(fields),
    ensures
        message_fields(message_bytes(fields)) == Some(fields),
    decreases fields.len(),
{
    if fields.len() == 0 {
        assert(fields =~= Seq::<FieldView>::empty());
    } else {
        let f = fields[0];
        let tail = fields.skip(1);
        let s = message_bytes(fields);
        assert(field_fits(f));
        assert forall|i: int| 0 <= i < tail.len() implies field_fits(#[trigger] tail[i]) by {
            assert(tail[i] == fields[i + 1]);
        }
        lemma_field_roundtrip(f, message_bytes(tail));
        lemma_field_at_len(s);
        assert(s.skip(field_bytes(f).len() as int) =~= message_bytes(tail));
        lemma_message_roundtrip(tail);
        assert(seq![f] + tail =~= fields);
    }
}

/// Appends one field to `buf`.
pub fn put_field(buf: &mut Vec<u8>, f: &Field)
    ensures
        final(buf)@ == old(buf)@ + field_bytes(f@),
{
    match &f.value {
        FieldValue::Varint(v) => {
            put_varint(buf, f.number as u64 * 8 + WIRE_VARINT);
            put_varint(buf, *v);
            assert(buf@ =~= old(buf)@ + field_bytes(f@));
        },
        FieldValue::Bytes(b) => {
            put_varint(buf, f.number as u64 * 8 + WIRE_BYTES);
            put_varint(buf, b.len() as u64);
            append_bytes(buf, b.as_slice());
            assert(buf@ =~= old(buf)@ + field_bytes(f@));
        },
    }
}

/// The bytes of a message with the given fields.
pub fn write_message(fields: &Vec<Field>) -> (buf: Vec<u8>)
    ensures
        buf@ == message_bytes(field_views(fields@)),
{
    let ghost views = field_views(fields@);
    let mut buf: Vec<u8> = Vec::new();
    let n: usize = fields.len();
    let mut i: usize = 0;
    assert(views.take(0) =~= Seq::<FieldView>::empty());
    while i < n
        invariant
            i <= n == fields@.len(),
            views == field_views(fields@),
            buf@ == message_bytes(views.take(i as int)),
        decreases n - i,
    {
        put_field(&mut buf, &fields[i]);
        proof {
            let f = views[i as int];
            assert(views.take(i + 1) =~= views.take(i as int) + seq![f]);
            lemma_message_bytes_concat(views.take(i as int), seq![f]);
            lemma_message_bytes_one(f);
        }
        i = i + 1;
    }
    assert(views.take(n as int) =~= views);
    buf
}

/// Reads the field that starts at `pos`: the field and the position behind
/// it.
pub fn read_field(bytes: &[u8], pos: usize) -> (r: Option<(Field, usize)>)
    requires
        pos <= bytes@.len(),
    ensures
        match field_at(bytes@.skip(pos as int)) {
            None => r.is_none(),
            Some((f, n)) => r matches Some((g, next)) && g@ == f && next == pos + n && pos < next
                <= bytes@.len(),
        },
{
    let ghost s = bytes@.skip(pos as int);
    proof {
        lemma_field_at_len(s);
    }
    let first = get_varint(bytes, pos);
    if first.is_none() {
        return None;
    }
    let (key, after_key) = first.unwrap();
    if key / 8 > u32::MAX as u64 {
        return None;
    }
    assert(s.skip(after_key - pos) =~= bytes@.skip(after_key as int));
    let second = get_varint(bytes, after_key);
    if second.is_none() {
        return None;
    }
    let (v, after_value) = second.unwrap();
    let number: u32 = (key / 8) as u32;
    if key % 8 == WIRE_VARINT {
        Some((Field { number, value: FieldValue::Varint(v) }, after_value))
    } else if key % 8 == WIRE_BYTES && v <= (bytes.len() - after_value) as u64 {
        let end: usize = after_value + v as usize;
        let payload = slice_to_vec(slice_subrange(bytes, after_value, end));
        assert(payload@ =~= s.subrange(after_value - pos, end - pos));
        Some((Field { number, value: FieldValue::Bytes(payload) }, end))
    } else {
        None
    }
}

/// Splits a message into its fields. `None` when the bytes are not a run of
/// readable fields from the first byte to the last.
pub fn parse_message(bytes: &[u8]) -> (r: Option<Vec<Field>>)
    ensures
        match message_fields(bytes@) {
            None => r.is_none(),
            Some(fields) => r matches Some(v) && field_views(v@) == fields,
        },
{
    let mut out: Vec<Field> = Vec::new();
    let n: usize = bytes.len();
    let mut pos: usize = 0;
    assert(bytes@.skip(0) =~= bytes@);
    assert(field_views(out@) =~= Seq::<FieldView>::empty());
    while pos < n
        invariant
            pos <= n == bytes@.len(),
            message_fields(bytes@) == match message_fields(bytes@.skip(pos as int)) {
                None => None::<Seq<FieldView>>,
                Some(rest) => Some(field_views(out@) + rest),
            },
        decreases n - pos,
    {
        let ghost s = bytes@.skip(pos as int);
        let ghost before = field_views(out@);
        match read_field(bytes, pos) {
            None => {
                return None;
            },
            Some((f, next)) => {
                proof {
                    assert(s.skip(next - pos) =~= bytes@.skip(next as int));
                    assert(field_views(out@.push(f)) =~= before + seq![f@]);
                    if let Some(rest) = message_fields(bytes@.skip(next as int)) {
                        assert(before + (seq![f@] + rest) =~= (before + seq![f@]) + rest);
                    }
                }
                out.push(f);
                pos = next;
            },
        }
    }
    assert(bytes@.skip(pos as int) =~= Seq::<u8>::empty());
    assert(field_views(out@) + Seq::<FieldView>::empty() =~= field_views(out@));
    Some(out)
}

/// The bytes of a packed run of numbers: their varints one after another.
pub open spec fn varints(vs: Seq<u64>) -> Seq<u8>
    decreases vs.len(),
{
    if vs.len() == 0 {
        Seq::empty()
    } else {
        varint(vs[0]) + varints(vs.skip(1))
    }
}

/// The numbers that `s` is a packed run of, or `None` when `s` is not a run
/// of readable varints from its first byte to its last.
pub open spec fn varints_decode(s: Seq<u8>) -> Option<Seq<u64>>
    decreases s.len(),
{
    if s.len() == 0 {
        Some(Seq::empty())
    } else {
        match varint_decode(s) {
            None => None,
            Some((v, n)) => {
                if 0 < n <= s.len() {
                    match varints_decode(s.skip(n as int)) {
                        None => None,
                        Some(rest) => Some(seq![v] + rest),
                    }
                } else {
                    None
                }
            },
        }
    }
}

/// The bytes of two packed runs, one after the other, are the bytes of the
/// joined run.
pub proof fn lemma_varints_concat(a: Seq<u64>, b: Seq<u64>)
    ensures
        varints(a + b) == varints(a) + varints(b),
    decreases a.len(),
{
    if a.len() == 0 {
        assert(a + b =~= b);
        assert(varints(a) + varints(b) =~= varints(b));
    } else {
        assert((a + b).skip(1) =~= a.skip(1) + b);
        lemma_varints_concat(a.skip(1), b);
        assert(varints(a + b) =~= varints(a) + varints(b));
    }
}

/// Reading a packed run that was written gives its numbers back.
pub proof fn lemma_varints_roundtrip(vs: Seq<u64>)
    ensures
        varints_decode(varints(vs)) == Some(vs),
    decreases vs.len(),
{
    if vs.len() == 0 {
        assert(vs =~= Seq::<u64>::empty());
    } else {
        let tail = vs.skip(1);
        let s = varints(vs);
        lemma_varint_roundtrip(vs[0], varints(tail));
        lemma_varint_len(vs[0]);
        assert(s.skip(varint(vs[0]).len() as int) =~= varints(tail));
        lemma_varints_roundtrip(tail);
        assert(seq![vs[0]] + tail =~= vs);
    }
}

/// The bytes of a packed run of numbers.
pub fn write_varints(vs: &Vec<u64>) -> (buf: Vec<u8>)
    ensures
        buf@ == varints(vs@),
{
    let mut buf: Vec<u8> = Vec::new();
    let n: usize = vs.len();
    let mut i: usize = 0;
    assert(vs@.take(0) =~= Seq::<u64>::empty());
    while i < n
        invariant
            i <= n == vs@.len(),
            buf@ == varints(vs@.take(i as int)),
        decreases n - i,
    {
        put_varint(&mut buf, vs[i]);
        proof {
            let v = vs@[i as int];
            reveal_with_fuel(varints, 2);
            assert(seq![v].skip(1) =~= Seq::<u64>::empty());
            assert(varints(seq![v]) =~= varint(v));
            assert(vs@.take(i + 1) =~= vs@.take(i as int) + seq![v]);
            lemma_varints_concat(vs@.take(i as int), seq![v]);
        }
        i = i + 1;
    }
    assert(vs@.take(n as int) =~= vs@);
    buf
}

/// Splits a packed run into its numbers. `None` when the bytes are not a run
/// of readable varints from the first byte to the last.
pub fn parse_varints(bytes: &[u8]) -> (r: Option<Vec<u64>>)
    ensures
        match varints_decode(bytes@) {
            None => r.is_none(),
            Some(vs) => r matches Some(v) && v@ == vs,
        },
{
    let mut out: Vec<u64> = Vec::new();
    let n: usize = bytes.len();
    let mut pos: usize = 0;
    assert(bytes@.skip(0) =~= bytes@);
    while pos < n
        invariant
            pos <= n == bytes@.len(),
            varints_decode(bytes@) == match varints_decode(bytes@.skip(pos as int)) {
                None => None::<Seq<u64>>,
                Some(rest) => Some(out@ + rest),
            },
        decreases n - pos,
    {
        let ghost s = bytes@.skip(pos as int);
        let ghost before = out@;
        match get_varint(bytes, pos) {
            None => {
                return None;
            },
            Some((v, next)) => {
                proof {
                    assert(s.skip(next - pos) =~= bytes@.skip(next as int));
                    if let Some(rest) = varints_decode(bytes@.skip(next as int)) {
                        assert(before + (seq![v] + rest) =~= before.push(v) + rest);
                    }
                }
                out.push(v);
                pos = next;
            },
        }
    }
    assert(bytes@.skip(pos as int) =~= Seq::<u8>::empty());
    assert(out@ + Seq::<u64>::empty() =~= out@);
    Some(out)
}

} // verus!
