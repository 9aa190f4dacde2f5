//! The building blocks of the wire format: integers in little-endian order,
//! one byte for a flag or a tag, and a two-byte count before a string or a list.
//!
//! Each block has an encoding `enc_…` as a function to bytes, a decoder
//! `dec_…` as a function from bytes to a value and the bytes behind it, a
//! lemma `lemma_…` that the decoder undoes the encoding in front of any
//! bytes, a writer `write_…` that appends the encoding, and a reader
//! `read_…` that returns what the decoder finds.

use vstd::prelude::*;
use vstd::bytes::{
    lemma_auto_spec_u16_to_from_le_bytes,
    lemma_auto_spec_u32_to_from_le_bytes,
    lemma_auto_spec_u64_to_from_le_bytes,
    spec_u16_from_le_bytes,
    spec_u16_to_le_bytes,
    spec_u32_from_le_bytes,
    spec_u32_to_le_bytes,
    spec_u64_from_le_bytes,
    spec_u64_to_le_bytes,
    u16_from_le_bytes,
    u16_to_le_bytes,
    u32_from_le_bytes,
    u32_to_le_bytes,
    u64_from_le_bytes,
    u64_to_le_bytes,
};
use vstd::slice::slice_subrange;
use vstd::string::StringSliceAdditionalSpecFns;
use vstd::utf8::{decode_utf8, encode_utf8, encode_utf8_decode_utf8, encode_utf8_valid_utf8, valid_utf8};

verus! {

/// The largest count that the two bytes before a string or a list can hold.
pub const MAX_COUNT: usize = 65535;

/// Appends the bytes of `src` to `out`.
pub fn append(out: &mut Vec<u8>, src: &[u8])
    ensures
        final(out)@ == old(out)@ + src@,
{
    let mut i: usize = 0;
    while i < src.len()
        invariant
            i <= src.len(),
            out@ == old(out)@ + src@.subrange(0, i as int),
        decreases src.len() - i,
    {
        out.push(src[i]);
        i += 1;
    }
    proof {
        assert(src@.subrange(0, i as int) =~= src@);
    }
}

/// The reader's result `r` is what the decoder `expected` found at `pos`:
/// the same value, and the position of the bytes behind it.
pub open spec fn parsed<T>(
    r: Option<(T, usize)>,
    bytes: Seq<u8>,
    pos: usize,
    expected: Option<(T, Seq<u8>)>,
) -> bool {
    match expected {
        None => r is None,
        Some((v, rest)) => match r {
            None => false,
            Some((got, next)) => got == v && pos <= next <= bytes.len() && bytes.skip(next as int)
                == rest,
        },
    }
}

/// As [`parsed`], for a value that is compared by its view.
pub open spec fn parsed_view<T: View>(
    r: Option<(T, usize)>,
    bytes: Seq<u8>,
    pos: usize,
    expected: Option<(T::V, Seq<u8>)>,
) -> bool {
    match expected {
        None => r is None,
        Some((v, rest)) => match r {
            None => false,
            Some((got, next)) => got@ == v && pos <= next <= bytes.len() && bytes.skip(next as int)
                == rest,
        },
    }
}

// ---------------------------------------------------------------- bytes

pub open spec fn enc_u8(v: u8) -> Seq<u8> {
    seq![v]
}

pub open spec fn dec_u8(b: Seq<u8>) -> Option<(u8, Seq<u8>)> {
    if b.len() < 1 {
        None
    } else {
        Some((b[0], b.skip(1)))
    }
}

pub proof fn lemma_u8(v: u8, rest: Seq<u8>)
    ensures
        dec_u8(enc_u8(v) + rest) == Some((v, rest)),
{
    assert((enc_u8(v) + rest).skip(1) =~= rest);
}

pub fn write_u8(out: &mut Vec<u8>, v: u8)
    ensures
        final(out)@ == old(out)@ + enc_u8(v),
{
    out.push(v);
    proof {
        assert(out@ =~= old(out)@ + enc_u8(v));
    }
}

/// Reads one byte at `pos`; the result carries the position behind it.
pub fn read_u8(bytes: &Vec<u8>, pos: usize) -> (r: Option<(u8, usize)>)
    requires
        pos <= bytes.len(),
    ensures
        parsed(r, bytes@, pos, dec_u8(bytes@.skip(pos as int))),
{
    if bytes.len() - pos < 1 {
        None
    } else {
        proof {
            assert(bytes@.skip(pos as int).skip(1) =~= bytes@.skip(pos + 1));
        }
        Some((bytes[pos], pos + 1))
    }
}

// ---------------------------------------------------------------- flags

pub open spec fn enc_bool(v: bool) -> Seq<u8> {
    enc_u8(if v { 1u8 } else { 0u8 })
}

pub open spec fn dec_bool(b: Seq<u8>) -> Option<(bool, Seq<u8>)> {
    match dec_u8(b) {
        Some((t, rest)) => if t == 0 {
            Some((false, rest))
        } else if t == 1 {
            Some((true, rest))
        } else {
            None
        },
        None => None,
    }
}

pub proof fn lemma_bool(v: bool, rest: Seq<u8>)
    ensures
        dec_bool(enc_bool(v) + rest) == Some((v, rest)),
{
    lemma_u8(if v { 1u8 } else { 0u8 }, rest);
}

pub fn write_bool(out: &mut Vec<u8>, v: bool)
    ensures
        final(out)@ == old(out)@ + enc_bool(v),
{
    write_u8(out, if v { 1u8 } else { 0u8 });
}

pub fn read_bool(bytes: &Vec<u8>, pos: usize) -> (r: Option<(bool, usize)>)
    requires
        pos <= bytes.len(),
    ensures
        parsed(r, bytes@, pos, dec_bool(bytes@.skip(pos as int))),
{
    match read_u8(bytes, pos) {
        None => None,
        Some((t, next)) => if t == 0 {
            Some((false, next))
        } else if t == 1 {
            Some((true, next))
        } else {
            None
        },
    }
}

// ---------------------------------------------------------------- counts

pub open spec fn enc_u16(v: u16) -> Seq<u8> {
    spec_u16_to_le_bytes(v)
}

pub open spec fn dec_u16(b: Seq<u8>) -> Option<(u16, Seq<u8>)> {
    if b.len() < 2 {
        None
    } else {
        Some((spec_u16_from_le_bytes(b.subrange(0, 2)), b.skip(2)))
    }
}

pub proof fn lemma_u16(v: u16, rest: Seq<u8>)
    ensures
        enc_u16(v).len() == 2,
        dec_u16(enc_u16(v) + rest) == Some((v, rest)),
{
    lemma_auto_spec_u16_to_from_le_bytes();
    assert((enc_u16(v) + rest).subrange(0, 2) =~= enc_u16(v));
    assert((enc_u16(v) + rest).skip(2) =~= rest);
}

pub fn write_u16(out: &mut Vec<u8>, v: u16)
    ensures
        final(out)@ == old(out)@ + enc_u16(v),
{
    let b = u16_to_le_bytes(v);
    append(out, b.as_slice());
}

pub fn read_u16(bytes: &Vec<u8>, pos: usize) -> (r: Option<(u16, usize)>)
    requires
        pos <= bytes.len(),
    ensures
        parsed(r, bytes@, pos, dec_u16(bytes@.skip(pos as int))),
{
    if bytes.len() - pos < 2 {
        None
    } else {
        proof {
            assert(bytes@.skip(pos as int).subrange(0, 2) =~= bytes@.subrange(pos as int, pos + 2));
            assert(bytes@.skip(pos as int).skip(2) =~= bytes@.skip(pos + 2));
        }
        let v = u16_from_le_bytes(slice_subrange(bytes.as_slice(), pos, pos + 2));
        Some((v, pos + 2))
    }
}

/// The count in front of a string or a list, as its two bytes hold it.
pub open spec fn enc_count(n: nat) -> Seq<u8> {
    enc_u16((n % 65536) as u16)
}

pub fn write_count(out: &mut Vec<u8>, n: usize)
    ensures
        final(out)@ == old(out)@ + enc_count(n as nat),
{
    write_u16(out, (n % 65536) as u16);
}

// ---------------------------------------------------------------- i32

pub open spec fn enc_i32(v: i32) -> Seq<u8> {
    spec_u32_to_le_bytes(v as u32)
}

pub open spec fn dec_i32(b: Seq<u8>) -> Option<(i32, Seq<u8>)> {
    if b.len() < 4 {
        None
    } else {
        Some((spec_u32_from_le_bytes(b.subrange(0, 4)) as i32, b.skip(4)))
    }
}

pub proof fn lemma_i32(v: i32, rest: Seq<u8>)
    ensures
        enc_i32(v).len() == 4,
        dec_i32(enc_i32(v) + rest) == Some((v, rest)),
{
    lemma_auto_spec_u32_to_from_le_bytes();
    assert((enc_i32(v) + rest).subrange(0, 4) =~= enc_i32(v));
    assert((enc_i32(v) + rest).skip(4) =~= rest);
    assert((v as u32) as i32 == v) by (bit_vector);
}

pub fn write_i32(out: &mut Vec<u8>, v: i32)
    ensures
        final(out)@ == old(out)@ + enc_i32(v),
{
    let b = u32_to_le_bytes(v as u32);
    append(out, b.as_slice());
}

pub fn read_i32(bytes: &Vec<u8>, pos: usize) -> (r: Option<(i32, usize)>)
    requires
        pos <= bytes.len(),
    ensures
        parsed(r, bytes@, pos, dec_i32(bytes@.skip(pos as int))),
{
    if bytes.len() - pos < 4 {
        None
    } else {
        proof {
            assert(bytes@.skip(pos as int).subrange(0, 4) =~= bytes@.subrange(pos as int, pos + 4));
            assert(bytes@.skip(pos as int).skip(4) =~= bytes@.skip(pos + 4));
        }
        let v = u32_from_le_bytes(slice_subrange(bytes.as_slice(), pos, pos + 4));
        Some((v as i32, pos + 4))
    }
}

// ---------------------------------------------------------------- i64

pub open spec fn enc_i64(v: i64) -> Seq<u8> {
    spec_u64_to_le_bytes(v as u64)
}

pub open spec fn dec_i64(b: Seq<u8>) -> Option<(i64, Seq<u8>)> {
    if b.len() < 8 {
        None
    } else {
        Some((spec_u64_from_le_bytes(b.subrange(0, 8)) as i64, b.skip(8)))
    }
}

pub proof fn lemma_i64(v: i64, rest: Seq<u8>)
    ensures
        enc_i64(v).len() == 8,
        dec_i64(enc_i64(v) + rest) == Some((v, rest)),
{
    lemma_auto_spec_u64_to_from_le_bytes();
    assert((enc_i64(v) + rest).subrange(0, 8) =~= enc_i64(v));
    assert((enc_i64(v) + rest).skip(8) =~= rest);
    assert((v as u64) as i64 == v) by (bit_vector);
}

pub fn write_i64(out: &mut Vec<u8>, v: i64)
    ensures
        final(out)@ == old(out)@ + enc_i64(v),
{
    let b = u64_to_le_bytes(v as u64);
    append(out, b.as_slice());
}

pub fn read_i64(bytes: &Vec<u8>, pos: usize) -> (r: Option<(i64, usize)>)
    requires
        pos <= bytes.len(),
    ensures
        parsed(r, bytes@, pos, dec_i64(bytes@.skip(pos as int))),
{
    if bytes.len() - pos < 8 {
        None
    } else {
        proof {
            assert(bytes@.skip(pos as int).subrange(0, 8) =~= bytes@.subrange(pos as int, pos + 8));
            assert(bytes@.skip(pos as int).skip(8) =~= bytes@.skip(pos + 8));
        }
        let v = u64_from_le_bytes(slice_subrange(bytes.as_slice(), pos, pos + 8));
        Some((v as i64, pos + 8))
    }
}

// ---------------------------------------------------------------- optional i32

pub open spec fn enc_opt_i32(v: Option<i32>) -> Seq<u8> {
    match v {
        None => enc_bool(false),
        Some(x) => enc_bool(true) + enc_i32(x),
    }
}

pub open spec fn dec_opt_i32(b: Seq<u8>) -> Option<(Option<i32>, Seq<u8>)> {
    match dec_bool(b) {
        None => None,
        Some((false, rest)) => Some((None, rest)),
        Some((true, rest)) => match dec_i32(rest) {
            None => None,
            Some((x, rest2)) => Some((Some(x), rest2)),
        },
    }
}

pub proof fn lemma_opt_i32(v: Option<i32>, rest: Seq<u8>)
    ensures
        1 <= enc_opt_i32(v).len() <= 5,
        dec_opt_i32(enc_opt_i32(v) + rest) == Some((v, rest)),
{
    match v {
        None => {
            lemma_bool(false, rest);
        },
        Some(x) => {
            assert(enc_opt_i32(v) + rest =~= enc_bool(true) + (enc_i32(x) + rest));
            lemma_bool(true, enc_i32(x) + rest);
            lemma_i32(x, rest);
        },
    }
}

pub fn write_opt_i32(out: &mut Vec<u8>, v: Option<i32>)
    ensures
        final(out)@ == old(out)@ + enc_opt_i32(v),
{
    match v {
        None => {
            write_bool(out, false);
        },
        Some(x) => {
            write_bool(out, true);
            write_i32(out, x);
            proof {
                assert(out@ =~= old(out)@ + enc_opt_i32(v));
            }
        },
    }
}

pub fn read_opt_i32(bytes: &Vec<u8>, pos: usize) -> (r: Option<(Option<i32>, usize)>)
    requires
        pos <= bytes.len(),
    ensures
        parsed(r, bytes@, pos, dec_opt_i32(bytes@.skip(pos as int))),
{
    match read_bool(bytes, pos) {
        None => None,
        Some((false, next)) => Some((None, next)),
        Some((true, next)) => match read_i32(bytes, next) {
            None => None,
            Some((x, next2)) => Some((Some(x), next2)),
        },
    }
}

// ---------------------------------------------------------------- strings

/// A string on the wire: the count of its UTF-8 bytes, then the bytes.
pub open spec fn enc_str(s: Seq<char>) -> Seq<u8> {
    enc_count(encode_utf8(s).len()) + encode_utf8(s)
}

pub open spec fn dec_str(b: Seq<u8>) -> Option<(Seq<char>, Seq<u8>)> {
    match dec_u16(b) {
        None => None,
        Some((n, rest)) => if rest.len() < n {
            None
        } else if !valid_utf8(rest.subrange(0, n as int)) {
            None
        } else {
            Some((decode_utf8(rest.subrange(0, n as int)), rest.skip(n as int)))
        },
    }
}

pub proof fn lemma_str(s: Seq<char>, rest: Seq<u8>)
    requires
        enc_str(s).len() <= MAX_COUNT,
    ensures
        enc_str(s).len() >= 2,
        dec_str(enc_str(s) + rest) == Some((s, rest)),
{
    let raw = encode_utf8(s);
    let n = raw.len();
    lemma_u16((n % 65536) as u16, raw + rest);
    assert(n < 65536);
    assert(enc_str(s) + rest =~= enc_count(n) + (raw + rest));
    assert((raw + rest).subrange(0, n as int) =~= raw);
    assert((raw + rest).skip(n as int) =~= rest);
    encode_utf8_valid_utf8(s);
    encode_utf8_decode_utf8(s);
}

pub fn write_str(out: &mut Vec<u8>, s: &String)
    ensures
        final(out)@ == old(out)@ + enc_str(s@),
{
    let raw = s.as_str().as_bytes();
    write_count(out, raw.len());
    append(out, raw);
    proof {
        assert(out@ =~= old(out)@ + enc_str(s@));
    }
}

/// Calls `String::from_utf8`, which returns the string that the bytes
/// spell if they are valid UTF-8, and an error if they are not.
#[verifier::external_body]
fn string_from_utf8(raw: Vec<u8>) -> (r: Option<String>)
    ensures
        r is Some <==> valid_utf8(raw@),
        r is Some ==> r->0@ == decode_utf8(raw@),
{
    String::from_utf8(raw).ok()
}

/// A copy of `n` bytes from `pos` on.
pub fn copy_bytes(bytes: &Vec<u8>, pos: usize, n: usize) -> (r: Vec<u8>)
    requires
        pos + n <= bytes.len(),
    ensures
        r@ == bytes@.subrange(pos as int, pos + n),
{
    let mut r: Vec<u8> = Vec::new();
    let mut i: usize = 0;
    while i < n
        invariant
            i <= n,
            pos + n <= bytes.len(),
            r@ == bytes@.subrange(pos as int, pos + i),
        decreases n - i,
    {
        r.push(bytes[pos + i]);
        i += 1;
    }
    r
}

pub fn read_str(bytes: &Vec<u8>, pos: usize) -> (r: Option<(String, usize)>)
    requires
        pos <= bytes.len(),
    ensures
        parsed_view(r, bytes@, pos, dec_str(bytes@.skip(pos as int))),
{
    match read_u16(bytes, pos) {
        None => None,
        Some((n, next)) => {
            if bytes.len() - next < n as usize {
                None
            } else {
                let raw = copy_bytes(bytes, next, n as usize);
                proof {
                    assert(bytes@.skip(next as int).subrange(0, n as int) =~= raw@);
                    assert(bytes@.skip(next as int).skip(n as int) =~= bytes@.skip(next + n));
                }
                match string_from_utf8(raw) {
                    None => None,
                    Some(s) => Some((s, next + n as usize)),
                }
            }
        },
    }
}

// ---------------------------------------------------------------- lists

/// The encodings of the items, one behind the other.
pub open spec fn enc_items<T>(items: Seq<T>, enc: spec_fn(T) -> Seq<u8>) -> Seq<u8>
    decreases items.len(),
{
    if items.len() == 0 {
        Seq::empty()
    } else {
        enc_items(items.drop_last(), enc) + enc(items.last())
    }
}

/// Decodes `n` items, one behind the other.
pub open spec fn dec_items<T>(
    b: Seq<u8>,
    n: nat,
    dec: spec_fn(Seq<u8>) -> Option<(T, Seq<u8>)>,
) -> Option<(Seq<T>, Seq<u8>)>
    decreases n,
{
    if n == 0 {
        Some((Seq::empty(), b))
    } else {
        match dec_items(b, (n - 1) as nat, dec) {
            None => None,
            Some((init, rest)) => match dec(rest) {
                None => None,
                Some((v, rest2)) => Some((init.push(v), rest2)),
            },
        }
    }
}

/// A list on the wire: the count of its items, then the items.
pub open spec fn enc_list<T>(items: Seq<T>, enc: spec_fn(T) -> Seq<u8>) -> Seq<u8> {
    enc_count(items.len()) + enc_items(items, enc)
}

pub open spec fn dec_list<T>(b: Seq<u8>, dec: spec_fn(Seq<u8>) -> Option<(T, Seq<u8>)>) -> Option<
    (Seq<T>, Seq<u8>),
> {
    match dec_u16(b) {
        None => None,
        Some((n, rest)) => dec_items(rest, n as nat, dec),
    }
}

/// Items that take at least one byte each make a list at least as long as
/// their count, and no item is longer than the list.
pub proof fn lemma_items_len<T>(items: Seq<T>, enc: spec_fn(T) -> Seq<u8>)
    requires
        forall|v: T| #[trigger] enc(v).len() >= 1,
    ensures
        enc_items(items, enc).len() >= items.len(),
        forall|i: int| 0 <= i < items.len() ==> (#[trigger] enc(items[i])).len() <= enc_items(
            items,
            enc,
        ).len(),
    decreases items.len(),
{
    if items.len() > 0 {
        lemma_items_len(items.drop_last(), enc);
        assert forall|i: int| 0 <= i < items.len() implies (#[trigger] enc(items[i])).len()
            <= enc_items(items, enc).len() by {
            if i < items.len() - 1 {
                assert(items.drop_last()[i] == items[i]);
            }
        }
    }
}

/// Decoding undoes the encoding of items that each decode behind any bytes.
pub proof fn lemma_items<T>(
    items: Seq<T>,
    enc: spec_fn(T) -> Seq<u8>,
    dec: spec_fn(Seq<u8>) -> Option<(T, Seq<u8>)>,
    rest: Seq<u8>,
)
    requires
        forall|i: int, r: Seq<u8>|
            0 <= i < items.len() ==> #[trigger] dec(enc(items[i]) + r) == Some((items[i], r)),
    ensures
        dec_items(enc_items(items, enc) + rest, items.len(), dec) == Some((items, rest)),
    decreases items.len(),
{
    if items.len() > 0 {
        let init = items.drop_last();
        let last = items.last();
        assert forall|i: int, r: Seq<u8>| 0 <= i < init.len() implies #[trigger] dec(
            enc(init[i]) + r,
        ) == Some((init[i], r)) by {
            assert(init[i] == items[i]);
        }
        lemma_items(init, enc, dec, enc(last) + rest);
        assert(enc_items(items, enc) + rest =~= enc_items(init, enc) + (enc(last) + rest));
        assert(dec(enc(items[items.len() - 1]) + rest) == Some((last, rest)));
        assert(init.push(last) =~= items);
    } else {
        assert(enc_items(items, enc) + rest =~= rest);
        assert(items =~= Seq::<T>::empty());
    }
}

/// Decoding undoes the encoding of a list whose count fits its two bytes.
pub proof fn lemma_list<T>(
    items: Seq<T>,
    enc: spec_fn(T) -> Seq<u8>,
    dec: spec_fn(Seq<u8>) -> Option<(T, Seq<u8>)>,
    rest: Seq<u8>,
)
    requires
        items.len() <= MAX_COUNT,
        forall|i: int, r: Seq<u8>|
            0 <= i < items.len() ==> #[trigger] dec(enc(items[i]) + r) == Some((items[i], r)),
    ensures
        dec_list(enc_list(items, enc) + rest, dec) == Some((items, rest)),
{
    let body = enc_items(items, enc);
    lemma_u16((items.len() % 65536) as u16, body + rest);
    assert(enc_list(items, enc) + rest =~= enc_count(items.len()) + (body + rest));
    lemma_items(items, enc, dec, rest);
}

/// Where fewer items fail to decode, more fail too.
pub proof fn lemma_items_fail<T>(
    b: Seq<u8>,
    k: nat,
    n: nat,
    dec: spec_fn(Seq<u8>) -> Option<(T, Seq<u8>)>,
)
    requires
        k <= n,
        dec_items(b, k, dec) is None,
    ensures
        dec_items(b, n, dec) is None,
    decreases n,
{
    if k < n {
        lemma_items_fail(b, k, (n - 1) as nat, dec);
    }
}

} // verus!
