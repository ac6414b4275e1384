use vstd::prelude::*;
use vstd::utf8::{decode_utf8, encode_utf8, valid_utf8};

use watto::{ReadStringError, StringTable};

use crate::validated_string::utf8_len;

verus! {

broadcast use vstd::utf8::group_utf8_lib;

#[verifier::external_type_specification]
#[verifier::external_body]
pub struct ExStringTable(StringTable);

#[verifier::external_type_specification]
#[verifier::external_body]
pub struct ExReadStringError(ReadStringError);

/// The bytes a string table holds: its entries back to back, each a LEB128 length and
/// then that many bytes of UTF-8.
pub uninterp spec fn table_bytes(t: StringTable) -> Seq<u8>;

/// `128` to the power `n`.
pub open spec fn pow128(n: nat) -> int
    decreases n,
{
    if n == 0 {
        1
    } else {
        128 * pow128((n - 1) as nat)
    }
}

/// Decodes the LEB128 number whose byte number `count` stands at `pos`, `acc` being the
/// value of the bytes before it. Gives the position after the number and its value; at
/// most nine bytes are read.
pub open spec fn leb_from(b: Seq<u8>, pos: int, count: nat, acc: int) -> Option<(int, int)>
    decreases 9 - count,
{
    if count >= 9 || pos < 0 || pos >= b.len() {
        None
    } else if b[pos] < 128 {
        Some((pos + 1, acc + b[pos] * pow128(count)))
    } else {
        leb_from(b, pos + 1, count + 1, acc + (b[pos] - 128) * pow128(count))
    }
}

/// Where the bytes of the entry at `offset` start and end, when its length reads and the
/// entry lies inside `b`.
pub open spec fn string_span(b: Seq<u8>, offset: int) -> Option<(int, int)> {
    match leb_from(b, offset, 0, 0) {
        Some((start, len)) => if start + len <= b.len() {
            Some((start, start + len))
        } else {
            None
        },
        None => None,
    }
}

/// `offset` names an entry of `b` that holds UTF-8.
pub open spec fn valid_ref(b: Seq<u8>, offset: int) -> bool {
    match string_span(b, offset) {
        Some((s, e)) => valid_utf8(b.subrange(s, e)),
        None => false,
    }
}

/// The string of the entry at `offset`.
pub open spec fn string_at(b: Seq<u8>, offset: int) -> Seq<char> {
    match string_span(b, offset) {
        Some((s, e)) => decode_utf8(b.subrange(s, e)),
        None => Seq::empty(),
    }
}

/// From `pos` on, `b` is a sequence of entries that hold UTF-8, ending exactly at its end.
pub open spec fn chain_from(b: Seq<u8>, pos: int) -> bool
    decreases b.len() - pos,
{
    if pos < 0 || pos >= b.len() {
        pos == b.len()
    } else {
        match string_span(b, pos) {
            Some((s, e)) => if e <= pos || e > b.len() {
                false
            } else {
                valid_utf8(b.subrange(s, e)) && chain_from(b, e)
            },
            None => false,
        }
    }
}

/// Walking the entries of `b` from `pos` on reaches `o`.
pub open spec fn entry_from(b: Seq<u8>, pos: int, o: int) -> bool
    decreases b.len() - pos,
{
    if pos < 0 || pos >= b.len() {
        false
    } else if pos == o {
        true
    } else {
        match string_span(b, pos) {
            Some((s, e)) => if e <= pos || e > b.len() {
                false
            } else {
                entry_from(b, e, o)
            },
            None => false,
        }
    }
}

/// `o` is where an entry of the table `b` starts.
pub open spec fn is_entry(b: Seq<u8>, o: int) -> bool {
    entry_from(b, 0, o)
}

/// The bytes the entry at `o` holds.
pub open spec fn payload(b: Seq<u8>, o: int) -> Seq<u8> {
    match string_span(b, o) {
        Some((s, e)) => b.subrange(s, e),
        None => Seq::empty(),
    }
}

/// No two entries of `b` hold the same bytes.
pub open spec fn entries_distinct(b: Seq<u8>) -> bool {
    forall|o1: int, o2: int|
        #![trigger is_entry(b, o1), is_entry(b, o2)]
        is_entry(b, o1) && is_entry(b, o2) && payload(b, o1) == payload(b, o2) ==> o1 == o2
}

/// Walking a table from `pos` reaches the same entries once bytes are appended, and past
/// the old end only what the appended bytes hold.
pub proof fn lemma_entries_extend(b: Seq<u8>, ext: Seq<u8>, pos: int, o: int)
    requires
        chain_from(b, pos),
        0 <= pos <= b.len(),
    ensures
        entry_from(b + ext, pos, o) == (entry_from(b, pos, o) || entry_from(b + ext, b.len() as int, o)),
    decreases b.len() - pos,
{
    if pos < b.len() {
        let (s, e) = string_span(b, pos)->Some_0;
        lemma_span_extend(b, ext, pos);
        assert((b + ext).len() >= b.len());
        if pos != o {
            lemma_entries_extend(b, ext, e, o);
        } else {
        }
    }
}

/// Along a run of entries, every entry reached has a span and starts a run of entries.
pub proof fn lemma_entry_in_chain(b: Seq<u8>, pos: int, o: int)
    requires
        chain_from(b, pos),
        entry_from(b, pos, o),
    ensures
        string_span(b, o) is Some,
        chain_from(b, o),
        0 <= o < b.len(),
    decreases b.len() - pos,
{
    if pos != o {
        let (s, e) = string_span(b, pos)->Some_0;
        lemma_entry_in_chain(b, e, o);
    }
}

/// What interning a string does to the entries of a table: the old entries stay, with the
/// same bytes; at most one entry is added, at the old end, and only when no old entry held
/// the string; so entries that held distinct bytes still do.
pub proof fn lemma_intern_entries(b0: Seq<u8>, b1: Seq<u8>, r: int, enc: Seq<u8>)
    requires
        chain_from(b0, 0),
        b0.len() <= b1.len(),
        b1.subrange(0, b0.len() as int) == b0,
        b1 == b0 || r == b0.len(),
        b1 != b0 ==> (string_span(b1, r) matches Some((a, e)) && e == b1.len()),
        payload(b1, r) == enc,
        (exists|o: int| is_entry(b0, o) && #[trigger] payload(b0, o) == enc) ==> b1 == b0,
    ensures
        forall|o: int| is_entry(b0, o) ==> #[trigger] is_entry(b1, o) && payload(b1, o) == payload(b0, o),
        entries_distinct(b0) ==> entries_distinct(b1),
        forall|o: int| #[trigger] is_entry(b1, o) ==> is_entry(b0, o) || o == r,
{
    if b1 != b0 {
        let ext = b1.subrange(b0.len() as int, b1.len() as int);
        assert(b1 =~= b0 + ext);
        assert forall|o: int| is_entry(b0, o) implies #[trigger] is_entry(b1, o) && payload(b1, o) == payload(b0, o) by {
            lemma_entries_extend(b0, ext, 0, o);
            lemma_entry_in_chain(b0, 0, o);
            lemma_span_extend(b0, ext, o);
            lemma_span_after(b0, o);
            let (x, y) = string_span(b0, o)->Some_0;
            assert(b1.subrange(x, y) =~= b0.subrange(x, y));
        }
        assert forall|o: int| is_entry(b1, o) implies is_entry(b0, o) || o == b0.len() by {
            lemma_entries_extend(b0, ext, 0, o);
            if !is_entry(b0, o) && o != b0.len() {
                assert(entry_from(b1, b0.len() as int, o));
                assert(!entry_from(b1, b1.len() as int, o));
            }
        }
        if entries_distinct(b0) {
            assert forall|o1: int, o2: int|
                is_entry(b1, o1) && is_entry(b1, o2) && payload(b1, o1) == payload(b1, o2) implies o1 == o2 by {
                if o1 != o2 {
                    if o1 == b0.len() {
                        assert(is_entry(b0, o2) && payload(b0, o2) == enc);
                    } else if o2 == b0.len() {
                        assert(is_entry(b0, o1) && payload(b0, o1) == enc);
                    } else {
                        assert(is_entry(b0, o1) && is_entry(b0, o2));
                    }
                }
            }
        }
    }
}

/// Interning a string that an entry already holds, in a table whose entries hold distinct
/// bytes, gives that entry and leaves the table alone.
pub proof fn lemma_intern_reuses(b0: Seq<u8>, b1: Seq<u8>, r: int, o: int, s: Seq<char>)
    requires
        entries_distinct(b0),
        is_entry(b0, o),
        valid_ref(b0, o),
        string_at(b0, o) == s,
        is_entry(b1, r),
        payload(b1, r) == encode_utf8(s),
        (exists|q: int| is_entry(b0, q) && #[trigger] payload(b0, q) == encode_utf8(s)) ==> b1 == b0,
    ensures
        b1 == b0,
        r == o,
{
    let (x, y) = string_span(b0, o)->Some_0;
    vstd::utf8::decode_utf8_encode_utf8(b0.subrange(x, y));
    assert(payload(b0, o) == encode_utf8(s));
}

/// The string of an entry that holds UTF-8 is no longer than the table.
pub proof fn lemma_string_len(b: Seq<u8>, o: int)
    requires
        valid_ref(b, o),
        b.len() <= usize::MAX,
    ensures
        utf8_len(string_at(b, o)) <= b.len(),
{
    let (x, y) = string_span(b, o)->Some_0;
    lemma_span_after(b, o);
    vstd::utf8::decode_utf8_encode_utf8(b.subrange(x, y));
}

/// A whole string table: entries from the first byte to the last.
pub open spec fn well_formed_table(b: Seq<u8>) -> bool {
    chain_from(b, 0)
}

proof fn lemma_leb_extend(b: Seq<u8>, ext: Seq<u8>, pos: int, count: nat, acc: int)
    requires
        leb_from(b, pos, count, acc) is Some,
    ensures
        leb_from(b + ext, pos, count, acc) == leb_from(b, pos, count, acc),
    decreases 9 - count,
{
    let bb = b + ext;
    assert(bb[pos] == b[pos]);
    if b[pos] >= 128 {
        lemma_leb_extend(b, ext, pos + 1, count + 1, acc + (b[pos] - 128) * pow128(count));
    }
}

/// An entry keeps its place and its string when bytes are appended.
pub proof fn lemma_span_extend(b: Seq<u8>, ext: Seq<u8>, offset: int)
    requires
        string_span(b, offset) is Some,
    ensures
        string_span(b + ext, offset) == string_span(b, offset),
        valid_ref(b, offset) ==> valid_ref(b + ext, offset),
        string_at(b + ext, offset) == string_at(b, offset),
{
    lemma_leb_extend(b, ext, offset, 0, 0);
    lemma_span_after(b, offset);
    let (s, e) = string_span(b, offset)->Some_0;
    assert((b + ext).subrange(s, e) =~= b.subrange(s, e));
}

proof fn lemma_leb_bound(b: Seq<u8>, pos: int, count: nat, acc: int)
    requires
        0 <= acc < pow128(count),
        leb_from(b, pos, count, acc) is Some,
    ensures
        ({
            let (p, v) = leb_from(b, pos, count, acc)->Some_0;
            pos < p && 0 <= v < pow128(9)
        }),
    decreases 9 - count,
{
    lemma_pow128_mono(count, 9);
    let d = if b[pos] < 128 {
        b[pos] as int
    } else {
        b[pos] - 128
    };
    assert(0 <= d < 128);
    assert(pow128(count + 1) == 128 * pow128(count));
    assert(acc + d * pow128(count) < pow128(count + 1)) by (nonlinear_arith)
        requires
            0 <= acc < pow128(count),
            0 <= d < 128,
            pow128(count + 1) == 128 * pow128(count),
    ;
    assert(0 <= d * pow128(count)) by (nonlinear_arith)
        requires
            0 <= d,
            0 <= acc < pow128(count),
    ;
    if b[pos] < 128 {
        lemma_pow128_mono(count + 1, 9);
    } else {
        lemma_leb_bound(b, pos + 1, count + 1, acc + d * pow128(count));
    }
}

proof fn lemma_pow128_mono(a: nat, b: nat)
    requires
        a <= b,
    ensures
        1 <= pow128(a) <= pow128(b),
    decreases b,
{
    if b == 0 {
    } else if a == b {
        lemma_pow128_mono((b - 1) as nat, (b - 1) as nat);
    } else {
        lemma_pow128_mono(a, (b - 1) as nat);
    }
}

/// An entry starts after its offset.
pub proof fn lemma_span_after(b: Seq<u8>, offset: int)
    requires
        string_span(b, offset) is Some,
    ensures
        offset < string_span(b, offset)->Some_0.0,
        string_span(b, offset)->Some_0.0 <= string_span(b, offset)->Some_0.1 <= b.len(),
{
    assert(pow128(0) == 1);
    lemma_leb_bound(b, offset, 0, 0);
}

/// Finds the span of the entry at `offset`, as [`string_span`] describes it.
pub fn span_of(b: &[u8], offset: usize) -> (r: Option<(usize, usize)>)
    ensures
        match string_span(b@, offset as int) {
            Some((s, e)) => r == Some((s as usize, e as usize)),
            None => r is None,
        },
{
    let len = b.len();
    let mut pos: usize = offset;
    let mut count: usize = 0;
    let mut acc: u64 = 0;
    let mut mult: u64 = 1;
    proof {
        assert(pow128(0) == 1);
        lemma_pow128_mono(0, 8);
        assert(pow128(8) == 72057594037927936) by {
            reveal_with_fuel(pow128, 9);
        }
    }
    while pos < len && count < 9
        invariant
            len == b@.len(),
            count <= 9,
            pos == offset + count,
            count < 9 ==> mult == pow128(count as nat),
            count < 9 ==> acc < mult,
            mult <= pow128(8),
            pow128(8) == 72057594037927936,
            forall|i: int| offset <= i < pos ==> b@[i] >= 128,
            leb_from(b@, offset as int, 0, 0) == leb_from(b@, pos as int, count as nat, acc as int),
        decreases 9 - count,
    {
        let byte = b[pos];
        proof {
            lemma_pow128_mono(count as nat, 8);
            assert(pow128((count + 1) as nat) == 128 * pow128(count as nat));
        }
        if byte < 128 {
            proof {
                assert((byte as u64) * mult <= 127 * pow128(8)) by (nonlinear_arith)
                    requires
                        byte < 128,
                        mult <= pow128(8),
                ;
            }
            let value = acc + (byte as u64) * mult;
            let start = pos + 1;
            if start as u64 <= len as u64 && value <= (len - start) as u64 {
                return Some((start, start + value as usize));
            } else {
                return None;
            }
        }
        proof {
            assert(((byte - 128) as u64) * mult <= 127 * pow128(8)) by (nonlinear_arith)
                requires
                    byte >= 128,
                    byte < 256,
                    mult <= pow128(8),
            ;
            assert(acc + ((byte - 128) as u64) * mult < 128 * mult) by (nonlinear_arith)
                requires
                    acc < mult,
                    byte >= 128,
                    byte - 128 < 128,
            ;
        }
        acc = acc + ((byte - 128) as u64) * mult;
        count = count + 1;
        pos = pos + 1;
        if count < 9 {
            proof {
                lemma_pow128_mono(count as nat, 8);
            }
            mult = mult * 128;
        }
    }
    None
}

/// Makes an empty table.
///
/// Relies on `watto::StringTable::new`: a new table holds no bytes.
#[verifier::external_body]
pub fn new_table() -> (r: StringTable)
    ensures
        table_bytes(r) == Seq::<u8>::empty(),
{
    StringTable::new()
}

/// Interns `s`, giving the offset of its entry.
///
/// Relies on `watto::StringTable::insert`: it looks `s` up among the entries of the table
/// and gives the offset of one that holds it, leaving the bytes alone; when none does, it
/// appends one (a LEB128 length of at most nine bytes, then the UTF-8 of `s`) and gives
/// its offset.
#[verifier::external_body]
pub fn table_insert(t: &mut StringTable, s: &str) -> (r: usize)
    requires
        well_formed_table(table_bytes(*old(t))),
    ensures
        well_formed_table(table_bytes(*final(t))),
        table_bytes(*old(t)).len() <= table_bytes(*final(t)).len() <= table_bytes(*old(t)).len()
            + utf8_len(s@) + 9,
        table_bytes(*final(t)).subrange(0, table_bytes(*old(t)).len() as int) == table_bytes(
            *old(t),
        ),
        table_bytes(*final(t)) == table_bytes(*old(t)) || r == table_bytes(*old(t)).len(),
        string_span(table_bytes(*final(t)), r as int) matches Some((a, b)) && table_bytes(
            *final(t),
        ).subrange(a, b) == encode_utf8(s@),
        is_entry(table_bytes(*final(t)), r as int),
        table_bytes(*final(t)) != table_bytes(*old(t)) ==> (string_span(table_bytes(*final(t)), r as int) matches Some((a, b)) && b == table_bytes(*final(t)).len()),
        (exists|o: int| is_entry(table_bytes(*old(t)), o) && #[trigger] payload(table_bytes(*old(t)), o) == encode_utf8(s@))
            ==> table_bytes(*final(t)) == table_bytes(*old(t)),
{
    t.insert(s)
}

/// The bytes of the table.
///
/// Relies on `watto::StringTable::as_bytes`.
#[verifier::external_body]
pub fn table_as_bytes(t: &StringTable) -> (r: &[u8])
    ensures
        r@ == table_bytes(*t),
{
    t.as_bytes()
}

/// The bytes of the table, taking it.
///
/// Relies on `watto::StringTable::into_bytes`.
#[verifier::external_body]
pub fn table_into_bytes(t: StringTable) -> (r: Vec<u8>)
    ensures
        r@ == table_bytes(t),
{
    t.into_bytes()
}

/// Rebuilds a table from its bytes.
///
/// Relies on `watto::StringTable::from_bytes`: it reads the entries one after the other and
/// fails only where one does not read or does not hold UTF-8.
#[verifier::external_body]
pub fn table_from_bytes(b: &[u8]) -> (r: Result<StringTable, ReadStringError>)
    requires
        well_formed_table(b@),
    ensures
        r is Ok,
        r is Ok ==> table_bytes(r->Ok_0) == b@,
{
    StringTable::from_bytes(b)
}

/// Reads the string of the entry at `offset`.
///
/// Relies on `watto::StringTable::read`: it decodes the LEB128 length at `offset` and
/// gives the bytes that follow as a string when they are UTF-8.
#[verifier::external_body]
pub fn read_string(b: &[u8], offset: usize) -> (r: Result<String, ReadStringError>)
    requires
        string_span(b@, offset as int) is Some,
    ensures
        r is Ok <==> valid_ref(b@, offset as int),
        r matches Ok(s) ==> s@ == string_at(b@, offset as int),
{
    match StringTable::read(b, offset) {
        Ok(s) => Ok(s.to_owned()),
        Err(e) => Err(e),
    }
}

/// Reads the string at `offset`, or `None` where no entry that holds UTF-8 starts there.
pub fn checked_read(b: &[u8], offset: usize) -> (r: Option<String>)
    ensures
        r is Some <==> valid_ref(b@, offset as int),
        r matches Some(s) ==> s@ == string_at(b@, offset as int),
{
    match span_of(b, offset) {
        None => None,
        Some(_) => match read_string(b, offset) {
            Ok(s) => Some(s),
            Err(_) => None,
        },
    }
}

/// Whether `b` is a whole string table, as [`well_formed_table`] describes it.
pub fn check_table(b: &[u8]) -> (r: bool)
    ensures
        r == well_formed_table(b@),
{
    let len = b.len();
    let mut pos: usize = 0;
    while pos < len
        invariant
            len == b@.len(),
            pos <= len,
            chain_from(b@, 0) == chain_from(b@, pos as int),
        decreases len - pos,
    {
        match span_of(b, pos) {
            None => {
                return false;
            },
            Some((s, e)) => {
                proof {
                    lemma_span_after(b@, pos as int);
                }
                match read_string(b, pos) {
                    Err(_) => {
                        return false;
                    },
                    Ok(_) => {},
                }
                pos = e;
            },
        }
    }
    true
}

} // verus!
