//! Reconciles two structurally aligned tabular datasets by building a binary
//! hash tree over each dataset's cells and pruning identical subtrees during
//! comparison, so that only cells under a mismatching root-to-leaf path are
//! ever touched.

use vstd::prelude::*;

pub mod csv_api;
pub mod differ;
pub mod hash;
pub mod merkle;
pub mod store;

verus! {

/// The reserved delimiter byte that separates the three fields of an encoded
/// cell record.
pub const COLON_BYTE: u8 = 58;

/// The byte encoding of a cell: row identifier, the delimiter, column name,
/// the delimiter, value, each field as its UTF-8 bytes.
pub open spec fn cell_encoding(rowid: Seq<char>, name: Seq<char>, value: Seq<char>) -> Seq<u8> {
    vstd::utf8::encode_utf8(rowid) + seq![COLON_BYTE] + vstd::utf8::encode_utf8(name)
        + seq![COLON_BYTE] + vstd::utf8::encode_utf8(value)
}

/// An atomic comparable unit: one cell of a dataset, identified by the row it
/// belongs to and the column it sits in.
pub struct Column {
    pub rowid: String,
    pub name: String,
    pub value: String,
}

impl Column {
    /// The byte encoding of this cell.
    pub open spec fn encoding(&self) -> Seq<u8> {
        cell_encoding(self.rowid@, self.name@, self.value@)
    }
}

/// The first position at or after `from` holding the delimiter byte, or the
/// length of `bytes` when there is none.
pub open spec fn find_colon(bytes: Seq<u8>, from: int) -> int
    decreases bytes.len() - from,
{
    if from < 0 || from >= bytes.len() {
        bytes.len() as int
    } else if bytes[from] == COLON_BYTE {
        from
    } else {
        find_colon(bytes, from + 1)
    }
}

/// True when `bytes` splits into three fields: the first two delimiter
/// occurrences bound the row identifier and the column name, the rest (which
/// may itself contain the delimiter) is the value, and each part is valid
/// UTF-8.
pub open spec fn valid_cell_bytes(bytes: Seq<u8>) -> bool {
    let j1 = find_colon(bytes, 0);
    let j2 = find_colon(bytes, j1 + 1);
    &&& j1 < bytes.len()
    &&& j2 < bytes.len()
    &&& vstd::utf8::valid_utf8(bytes.subrange(0, j1))
    &&& vstd::utf8::valid_utf8(bytes.subrange(j1 + 1, j2))
    &&& vstd::utf8::valid_utf8(bytes.subrange(j2 + 1, bytes.len() as int))
}

/// The row identifier decoded from an encoded cell.
pub open spec fn decoded_row(bytes: Seq<u8>) -> Seq<char> {
    vstd::utf8::decode_utf8(bytes.subrange(0, find_colon(bytes, 0)))
}

/// The column name decoded from an encoded cell.
pub open spec fn decoded_col(bytes: Seq<u8>) -> Seq<char> {
    let j1 = find_colon(bytes, 0);
    vstd::utf8::decode_utf8(bytes.subrange(j1 + 1, find_colon(bytes, j1 + 1)))
}

/// The value decoded from an encoded cell: everything past the second
/// delimiter occurrence.
pub open spec fn decoded_value(bytes: Seq<u8>) -> Seq<char> {
    let j1 = find_colon(bytes, 0);
    let j2 = find_colon(bytes, j1 + 1);
    vstd::utf8::decode_utf8(bytes.subrange(j2 + 1, bytes.len() as int))
}

/// `find_colon` indeed yields the first delimiter position.
proof fn lemma_find_colon_first(bytes: Seq<u8>, from: int)
    requires
        0 <= from <= bytes.len(),
    ensures
        from <= find_colon(bytes, from) <= bytes.len(),
        find_colon(bytes, from) < bytes.len() ==> bytes[find_colon(bytes, from)] == COLON_BYTE,
        forall|i: int| from <= i < find_colon(bytes, from) ==> bytes[i] != COLON_BYTE,
    decreases bytes.len() - from,
{
    if from < bytes.len() && bytes[from] != COLON_BYTE {
        lemma_find_colon_first(bytes, from + 1);
    }
}

/// A known delimiter position bounds `find_colon` from above.
proof fn lemma_find_colon_le(bytes: Seq<u8>, from: int, j: int)
    requires
        0 <= from <= j < bytes.len(),
        bytes[j] == COLON_BYTE,
    ensures
        find_colon(bytes, from) <= j,
    decreases bytes.len() - from,
{
    if from < j && bytes[from] != COLON_BYTE {
        lemma_find_colon_le(bytes, from + 1, j);
    }
}

/// A character other than the delimiter never encodes to a byte sequence
/// holding the delimiter byte.
proof fn lemma_encode_scalar_no_colon(c: char)
    requires
        c != ':',
    ensures
        forall|i: int|
            0 <= i < vstd::utf8::encode_scalar(c as u32).len() ==> #[trigger] vstd::utf8::encode_scalar(
                c as u32,
            )[i] != COLON_BYTE,
{
    vstd::utf8::char_is_scalar(c);
    let s = c as u32;
    assert(':' as u32 == 58);
    if s == 58 {
        vstd::utf8::char_u32_cast(c, s);
        vstd::utf8::char_u32_cast(':', 58);
        assert(false);
    }
    if vstd::utf8::has_width_1_encoding(s) {
        assert((s & 0x7F) as u8 != 58) by (bit_vector)
            requires
                s <= 0x7f && s != 58,
        ;
    } else {
        assert((0xC0u8 | ((s >> 6) & 0x1F) as u8) >= 0x80) by (bit_vector);
        assert((0xE0u8 | ((s >> 12) & 0x0F) as u8) >= 0x80) by (bit_vector);
        assert((0xF0u8 | ((s >> 18) & 0x7) as u8) >= 0x80) by (bit_vector);
        assert((0x80u8 | (s & 0x3F) as u8) >= 0x80) by (bit_vector);
        assert((0x80u8 | ((s >> 6) & 0x3F) as u8) >= 0x80) by (bit_vector);
        assert((0x80u8 | ((s >> 12) & 0x3F) as u8) >= 0x80) by (bit_vector);
    }
}

/// A delimiter-free character sequence encodes to delimiter-free bytes.
proof fn lemma_encode_no_colon(chars: Seq<char>)
    requires
        !chars.contains(':'),
    ensures
        forall|i: int|
            0 <= i < vstd::utf8::encode_utf8(chars).len() ==> vstd::utf8::encode_utf8(chars)[i]
                != COLON_BYTE,
    decreases chars.len(),
{
    if chars.len() > 0 {
        assert(chars[0] != ':');
        lemma_encode_scalar_no_colon(chars[0]);
        assert(!chars.drop_first().contains(':')) by {
            if chars.drop_first().contains(':') {
                let i = choose|i: int|
                    0 <= i < chars.drop_first().len() && chars.drop_first()[i] == ':';
                assert(chars[i + 1] == ':');
            }
        }
        lemma_encode_no_colon(chars.drop_first());
        let e = vstd::utf8::encode_utf8(chars);
        let h = vstd::utf8::encode_scalar(chars[0] as u32);
        let t = vstd::utf8::encode_utf8(chars.drop_first());
        assert(e == h + t);
        assert forall|i: int| 0 <= i < e.len() implies e[i] != COLON_BYTE by {
            if i < h.len() {
                assert(e[i] == h[i]);
            } else {
                assert(e[i] == t[i - h.len()]);
            }
        }
    }
}

/// Splitting valid UTF-8 at a delimiter byte leaves two valid UTF-8 parts
/// (the delimiter is a one-byte character, so it sits on a boundary).
proof fn lemma_valid_utf8_colon_split(b: Seq<u8>, j: int)
    requires
        vstd::utf8::valid_utf8(b),
        0 <= j < b.len(),
        b[j] == COLON_BYTE,
    ensures
        vstd::utf8::valid_utf8(b.subrange(0, j)),
        vstd::utf8::valid_utf8(b.subrange(j + 1, b.len() as int)),
{
    vstd::utf8::is_char_boundary_iff_not_is_continuation_byte(b, j);
    vstd::utf8::valid_utf8_split(b, j);
    let s = b.subrange(j, b.len() as int);
    assert(s[0] == COLON_BYTE);
    assert(vstd::utf8::is_leading_byte_width_1(s[0]));
    assert(vstd::utf8::length_of_first_scalar(s) == 1);
    assert(vstd::utf8::valid_utf8(vstd::utf8::pop_first_scalar(s)));
    assert(vstd::utf8::pop_first_scalar(s) =~= b.subrange(j + 1, b.len() as int));
}

/// Valid UTF-8 holding at least two delimiters splits into a valid cell.
proof fn lemma_valid_cell_from_whole(b: Seq<u8>)
    requires
        vstd::utf8::valid_utf8(b),
        find_colon(b, 0) < b.len(),
        find_colon(b, find_colon(b, 0) + 1) < b.len(),
    ensures
        valid_cell_bytes(b),
{
    let j1 = find_colon(b, 0);
    let j2 = find_colon(b, j1 + 1);
    lemma_find_colon_first(b, 0);
    lemma_find_colon_first(b, j1 + 1);
    lemma_valid_utf8_colon_split(b, j1);
    let s1 = b.subrange(j1 + 1, b.len() as int);
    assert(s1[j2 - j1 - 1] == COLON_BYTE);
    lemma_valid_utf8_colon_split(s1, j2 - j1 - 1);
    assert(s1.subrange(0, j2 - j1 - 1) =~= b.subrange(j1 + 1, j2));
    assert(s1.subrange(j2 - j1, s1.len() as int) =~= b.subrange(j2 + 1, b.len() as int));
}

/// The single delimiter byte is the encoding of the delimiter character.
proof fn lemma_colon_byte_valid()
    ensures
        vstd::utf8::valid_utf8(seq![COLON_BYTE]),
{
    assert(':' as u32 == 58);
    assert(58u32 & 0x7f == 58) by (bit_vector);
    assert(vstd::utf8::encode_scalar(':' as u32) =~= seq![COLON_BYTE]);
    vstd::utf8::encode_utf8_valid_utf8(seq![':']);
    assert(seq![':'].len() == 1 && seq![':'][0] == ':');
    assert(vstd::utf8::encode_utf8(seq![':']) == vstd::utf8::encode_scalar(':' as u32)
        + vstd::utf8::encode_utf8(seq![':'].drop_first()));
    assert(seq![':'].drop_first().len() == 0);
    assert(vstd::utf8::encode_utf8(seq![':'].drop_first()) == Seq::<u8>::empty());
    assert(vstd::utf8::encode_utf8(seq![':']) =~= seq![COLON_BYTE]);
}

/// Every cell encoding is a valid cell: it always holds two delimiters with
/// valid UTF-8 around them, whatever the fields contain.
pub proof fn lemma_encoding_valid(rowid: Seq<char>, name: Seq<char>, value: Seq<char>)
    ensures
        valid_cell_bytes(cell_encoding(rowid, name, value)),
{
    let er = vstd::utf8::encode_utf8(rowid);
    let ec = vstd::utf8::encode_utf8(name);
    let ev = vstd::utf8::encode_utf8(value);
    let b = cell_encoding(rowid, name, value);
    vstd::utf8::encode_utf8_valid_utf8(rowid);
    vstd::utf8::encode_utf8_valid_utf8(name);
    vstd::utf8::encode_utf8_valid_utf8(value);
    lemma_colon_byte_valid();
    vstd::utf8::valid_utf8_concat(seq![COLON_BYTE], ev);
    vstd::utf8::valid_utf8_concat(ec, seq![COLON_BYTE] + ev);
    vstd::utf8::valid_utf8_concat(seq![COLON_BYTE], ec + (seq![COLON_BYTE] + ev));
    vstd::utf8::valid_utf8_concat(er, seq![COLON_BYTE] + (ec + (seq![COLON_BYTE] + ev)));
    assert(b =~= er + (seq![COLON_BYTE] + (ec + (seq![COLON_BYTE] + ev))));
    assert(vstd::utf8::valid_utf8(b));
    let q1 = er.len() as int;
    let q2 = er.len() + 1 + ec.len();
    assert(b[q1] == COLON_BYTE);
    assert(b[q2 as int] == COLON_BYTE);
    lemma_find_colon_le(b, 0, q1);
    let j1 = find_colon(b, 0);
    lemma_find_colon_first(b, 0);
    lemma_find_colon_le(b, j1 + 1, q2 as int);
    lemma_valid_cell_from_whole(b);
}

/// Round trip: an encoded cell decodes back to exactly the fields it was
/// built from, whenever the row identifier and the column name are free of
/// the reserved delimiter (the value may contain it).
pub proof fn lemma_cell_round_trip(rowid: Seq<char>, name: Seq<char>, value: Seq<char>)
    requires
        !rowid.contains(':'),
        !name.contains(':'),
    ensures
        valid_cell_bytes(cell_encoding(rowid, name, value)),
        decoded_row(cell_encoding(rowid, name, value)) == rowid,
        decoded_col(cell_encoding(rowid, name, value)) == name,
        decoded_value(cell_encoding(rowid, name, value)) == value,
{
    lemma_encoding_valid(rowid, name, value);
    let er = vstd::utf8::encode_utf8(rowid);
    let ec = vstd::utf8::encode_utf8(name);
    let ev = vstd::utf8::encode_utf8(value);
    let b = cell_encoding(rowid, name, value);
    lemma_encode_no_colon(rowid);
    lemma_encode_no_colon(name);
    let q1 = er.len() as int;
    let q2 = (er.len() + 1 + ec.len()) as int;
    assert(b[q1] == COLON_BYTE);
    assert(b[q2] == COLON_BYTE);
    let j1 = find_colon(b, 0);
    lemma_find_colon_first(b, 0);
    lemma_find_colon_le(b, 0, q1);
    assert(forall|i: int| 0 <= i < q1 ==> b[i] == er[i] && b[i] != COLON_BYTE);
    assert(j1 == q1);
    let j2 = find_colon(b, j1 + 1);
    lemma_find_colon_first(b, j1 + 1);
    lemma_find_colon_le(b, j1 + 1, q2);
    assert(forall|i: int| q1 + 1 <= i < q2 ==> b[i] == ec[i - q1 - 1] && b[i] != COLON_BYTE);
    assert(j2 == q2);
    assert(b.subrange(0, j1) =~= er);
    assert(b.subrange(j1 + 1, j2) =~= ec);
    assert(b.subrange(j2 + 1, b.len() as int) =~= ev);
    vstd::utf8::encode_utf8_decode_utf8(rowid);
    vstd::utf8::encode_utf8_decode_utf8(name);
    vstd::utf8::encode_utf8_decode_utf8(value);
}

/// Relies on String::from_utf8: returns the decoded string exactly when the
/// bytes are a valid UTF-8 encoding, and reports the error otherwise.
#[verifier::external_body]
fn bytes_to_string(bytes: Vec<u8>) -> (r: Option<String>)
    ensures
        match r {
            Some(s) => vstd::utf8::valid_utf8(bytes@) && s@ == vstd::utf8::decode_utf8(bytes@),
            None => !vstd::utf8::valid_utf8(bytes@),
        },
{
    match String::from_utf8(bytes) {
        Ok(s) => Some(s),
        Err(_) => None,
    }
}

/// Copy the byte range `[from, to)` out of `v`.
fn subrange_vec(v: &Vec<u8>, from: usize, to: usize) -> (r: Vec<u8>)
    requires
        from <= to <= v@.len(),
    ensures
        r@ == v@.subrange(from as int, to as int),
{
    let mut r: Vec<u8> = Vec::new();
    let mut i: usize = from;
    while i < to
        invariant
            from <= i <= to <= v@.len(),
            r@ == v@.subrange(from as int, i as int),
        decreases to - i,
    {
        r.push(v[i]);
        i = i + 1;
        assert(r@ =~= v@.subrange(from as int, i as int));
    }
    r
}

/// Find the first delimiter position at or after `from`, as `find_colon`
/// describes it.
fn scan_colon(bytes: &Vec<u8>, from: usize) -> (r: usize)
    requires
        from <= bytes@.len(),
    ensures
        r as int == find_colon(bytes@, from as int),
{
    let mut i: usize = from;
    while i < bytes.len()
        invariant
            from <= i <= bytes@.len(),
            forall|j: int| from <= j < i ==> bytes@[j] != COLON_BYTE,
        decreases bytes@.len() - i,
    {
        if bytes[i] == COLON_BYTE {
            proof {
                lemma_find_colon_first(bytes@, from as int);
                lemma_find_colon_le(bytes@, from as int, i as int);
            }
            return i;
        }
        i = i + 1;
    }
    proof {
        lemma_find_colon_first(bytes@, from as int);
    }
    bytes.len()
}

/// Split an encoded cell back into its row identifier, column name and
/// value. Returns nothing when the bytes do not hold two delimiters with
/// valid UTF-8 around them (a decode violation).
pub fn decode_cell(bytes: &Vec<u8>) -> (r: Option<(String, String, String)>)
    ensures
        match r {
            Some(t) => valid_cell_bytes(bytes@) && t.0@ == decoded_row(bytes@) && t.1@
                == decoded_col(bytes@) && t.2@ == decoded_value(bytes@),
            None => !valid_cell_bytes(bytes@),
        },
{
    let j1 = scan_colon(bytes, 0);
    if j1 >= bytes.len() {
        return None;
    }
    let j2 = scan_colon(bytes, j1 + 1);
    proof {
        lemma_find_colon_first(bytes@, j1 as int + 1);
    }
    if j2 >= bytes.len() {
        return None;
    }
    let row_bytes = subrange_vec(bytes, 0, j1);
    let col_bytes = subrange_vec(bytes, j1 + 1, j2);
    let val_bytes = subrange_vec(bytes, j2 + 1, bytes.len());
    let row = match bytes_to_string(row_bytes) {
        Some(s) => s,
        None => {
            return None;
        },
    };
    let col = match bytes_to_string(col_bytes) {
        Some(s) => s,
        None => {
            return None;
        },
    };
    let val = match bytes_to_string(val_bytes) {
        Some(s) => s,
        None => {
            return None;
        },
    };
    Some((row, col, val))
}

/// One row as read from a tabular source: the row identifier and the cells
/// of that row in column order.
pub struct Record {
    pub rowid: String,
    pub data: Vec<Column>,
}

/// A value that can be fed to the hash tree builder: anything with a
/// deterministic byte encoding.
pub trait Data {
    /// The byte string this value encodes to.
    spec fn bytes_spec(&self) -> Seq<u8>;

    /// Produce the byte encoding.
    fn to_bytes(&self) -> (r: Vec<u8>)
        ensures
            r@ == self.bytes_spec(),
    ;
}

impl Data for Column {
    open spec fn bytes_spec(&self) -> Seq<u8> {
        self.encoding()
    }

    fn to_bytes(&self) -> (r: Vec<u8>) {
        let mut bytes: Vec<u8> = Vec::new();
        append_str_bytes(&mut bytes, self.rowid.as_str());
        bytes.push(COLON_BYTE);
        append_str_bytes(&mut bytes, self.name.as_str());
        bytes.push(COLON_BYTE);
        append_str_bytes(&mut bytes, self.value.as_str());
        bytes
    }
}

/// Append the UTF-8 bytes of `s` to `out`.
fn append_str_bytes(out: &mut Vec<u8>, s: &str)
    ensures
        final(out)@ == old(out)@ + vstd::utf8::encode_utf8(s@),
{
    let bytes = s.as_bytes();
    let mut i: usize = 0;
    while i < bytes.len()
        invariant
            i <= bytes@.len(),
            bytes@ == vstd::utf8::encode_utf8(s@),
            out@ == old(out)@ + bytes@.subrange(0, i as int),
        decreases bytes@.len() - i,
    {
        out.push(bytes[i]);
        i = i + 1;
        assert(out@ =~= old(out)@ + bytes@.subrange(0, i as int));
    }
    assert(out@ =~= old(out)@ + bytes@);
}

} // verus!
