use vstd::prelude::*;
use vstd::utf8::encode_utf8;

verus! {

/// Base-128 varint encoding of a length, low groups first.
pub open spec fn varint(n: nat) -> Seq<u8>
    decreases n,
{
    if n < 128 {
        seq![n as u8]
    } else {
        seq![(n % 128 + 128) as u8] + varint(n / 128)
    }
}

/// A length-delimited field: its key byte, the payload length, the payload.
pub open spec fn field(key: u8, payload: Seq<u8>) -> Seq<u8> {
    seq![key] + varint(payload.len()) + payload
}

/// A repeated string field, one length-delimited field per string.
pub open spec fn string_fields(key: u8, items: Seq<Seq<char>>) -> Seq<u8>
    decreases items.len(),
{
    if items.len() == 0 {
        Seq::empty()
    } else {
        string_fields(key, items.drop_last()) + field(key, encode_utf8(items.last()))
    }
}

/// A repeated embedded-message field, one length-delimited field per record.
pub open spec fn record_fields(key: u8, records: Seq<Seq<u8>>) -> Seq<u8>
    decreases records.len(),
{
    if records.len() == 0 {
        Seq::empty()
    } else {
        record_fields(key, records.drop_last()) + field(key, records.last())
    }
}

/// Appends the varint encoding of `n`.
pub fn push_varint(out: &mut Vec<u8>, n: usize)
    ensures
        final(out)@ == old(out)@ + varint(n as nat),
{
    let ghost start = out@;
    let mut k: usize = n;
    while k >= 128
        invariant
            out@ + varint(k as nat) == start + varint(n as nat),
        decreases k,
    {
        let b: u8 = (k % 128 + 128) as u8;
        let ghost before = out@;
        out.push(b);
        assert(varint(k as nat) == seq![b] + varint((k / 128) as nat));
        assert(before + varint(k as nat) =~= out@ + varint((k / 128) as nat));
        k = k / 128;
    }
    let ghost before = out@;
    out.push(k as u8);
    assert(varint(k as nat) == seq![k as u8]);
    assert(out@ =~= before + varint(k as nat));
}

/// Appends the bytes of a slice.
pub fn push_bytes(out: &mut Vec<u8>, b: &[u8])
    ensures
        final(out)@ == old(out)@ + b@,
{
    let ghost start = out@;
    let mut i: usize = 0;
    while i < b.len()
        invariant
            0 <= i <= b@.len(),
            out@ == start + b@.subrange(0, i as int),
        decreases b@.len() - i,
    {
        out.push(b[i]);
        assert(b@.subrange(0, i as int + 1) =~= b@.subrange(0, i as int).push(b@[i as int]));
        i = i + 1;
    }
    assert(b@ =~= b@.subrange(0, i as int));
}

/// Appends one length-delimited field.
pub fn push_field(out: &mut Vec<u8>, key: u8, payload: &[u8])
    ensures
        final(out)@ == old(out)@ + field(key, payload@),
{
    let ghost start = out@;
    out.push(key);
    push_varint(out, payload.len());
    push_bytes(out, payload);
    assert(out@ =~= start + field(key, payload@));
}

/// Appends one length-delimited field holding the UTF-8 bytes of a string.
pub fn push_string_field(out: &mut Vec<u8>, key: u8, s: &str)
    ensures
        final(out)@ == old(out)@ + field(key, encode_utf8(s@)),
{
    push_field(out, key, s.as_bytes());
}

} // verus!
