//! The byte layout of everything that crosses the wire.
//!
//! Every field tells by its first bytes where it ends: it is a single
//! byte, or a tag byte with a fixed number of bytes behind it, or a length
//! with that many bytes or strings behind it. For each kind of field this
//! module gives the layout as a spec function, a writer, a reader, and the
//! proof that a sequence of bytes starts with at most one field of that
//! kind. A reader that is sent beyond the end of the bytes finds nothing.

use vstd::prelude::*;
use vstd::bytes::*;
use vstd::slice::*;
use vstd::utf8::*;

verus! {

/// Whether `n` can be written as a length.
pub open spec fn fits(n: nat) -> bool {
    n <= u64::MAX
}

/// A length: eight bytes, least significant first.
pub open spec fn length(n: nat) -> Seq<u8> {
    spec_u64_to_le_bytes(n as u64)
}

/// A run of bytes: its length, then the bytes.
pub open spec fn blob(b: Seq<u8>) -> Seq<u8> {
    length(b.len()) + b
}

/// A string: its UTF-8 bytes as a run of bytes.
pub open spec fn text(s: Seq<char>) -> Seq<u8> {
    blob(encode_utf8(s))
}

/// Whether the UTF-8 form of `s` is short enough to be written.
pub open spec fn text_fits(s: Seq<char>) -> bool {
    fits(encode_utf8(s).len())
}

/// A length is eight bytes long.
pub proof fn lemma_length_len(n: nat)
    ensures
        length(n).len() == 8,
{
    lemma_auto_spec_u64_to_from_le_bytes();
}

/// Bytes start with at most one length.
pub proof fn lemma_length_unique(a: nat, ra: Seq<u8>, b: nat, rb: Seq<u8>)
    requires
        fits(a),
        fits(b),
        length(a) + ra == length(b) + rb,
    ensures
        a == b,
        ra == rb,
{
    lemma_auto_spec_u64_to_from_le_bytes();
    let whole = length(a) + ra;
    assert(whole.subrange(0, 8) =~= length(a));
    assert(whole.subrange(0, 8) =~= length(b));
    assert(spec_u64_from_le_bytes(spec_u64_to_le_bytes(a as u64)) == a as u64);
    assert(spec_u64_from_le_bytes(spec_u64_to_le_bytes(b as u64)) == b as u64);
    assert(whole.skip(8) =~= ra);
    assert(whole.skip(8) =~= rb);
}

/// Bytes start with at most one run of bytes.
pub proof fn lemma_blob_unique(a: Seq<u8>, ra: Seq<u8>, b: Seq<u8>, rb: Seq<u8>)
    requires
        fits(a.len()),
        fits(b.len()),
        blob(a) + ra == blob(b) + rb,
    ensures
        a == b,
        ra == rb,
{
    assert(blob(a) + ra =~= length(a.len()) + (a + ra));
    assert(blob(b) + rb =~= length(b.len()) + (b + rb));
    lemma_length_unique(a.len(), a + ra, b.len(), b + rb);
    let tail = a + ra;
    assert(tail.subrange(0, a.len() as int) =~= a);
    assert(tail.subrange(0, a.len() as int) =~= b);
    assert(tail.skip(a.len() as int) =~= ra);
    assert(tail.skip(a.len() as int) =~= rb);
}

/// Bytes start with at most one string.
pub proof fn lemma_text_unique(a: Seq<char>, ra: Seq<u8>, b: Seq<char>, rb: Seq<u8>)
    requires
        text_fits(a),
        text_fits(b),
        text(a) + ra == text(b) + rb,
    ensures
        a == b,
        ra == rb,
{
    lemma_blob_unique(encode_utf8(a), ra, encode_utf8(b), rb);
    encode_utf8_decode_utf8(a);
    encode_utf8_decode_utf8(b);
}

/// Appends a length.
pub fn put_length(out: &mut Vec<u8>, n: usize)
    ensures
        final(out)@ == old(out)@ + length(n as nat),
        fits(n as nat),
{
    let bytes = u64_to_le_bytes(n as u64);
    out.extend_from_slice(bytes.as_slice());
    assert(out@ =~= old(out)@ + length(n as nat));
}

/// Reads a length at `pos`, and says where the next field starts. Succeeds
/// exactly where eight bytes are left; a `pos` beyond the end gives nothing.
pub fn take_length(bytes: &[u8], pos: usize) -> (r: Option<(u64, usize)>)
    ensures
        match r {
            Some((n, next)) => {
                &&& pos <= next <= bytes@.len()
                &&& bytes@.skip(pos as int) == length(n as nat) + bytes@.skip(next as int)
            },
            None => pos <= bytes@.len() ==> (forall|n: nat, rest: Seq<u8>|
                fits(n) ==> #[trigger] (length(n) + rest) != bytes@.skip(pos as int)),
        },
{
    if pos > bytes.len() {
        return None;
    }
    if bytes.len() - pos < 8 {
        proof {
            assert forall|n: nat, rest: Seq<u8>| fits(n) implies #[trigger] (length(n) + rest)
                != bytes@.skip(pos as int) by {
                lemma_length_len(n);
                assert((length(n) + rest).len() >= 8);
                assert(bytes@.skip(pos as int).len() < 8);
            }
        }
        return None;
    }
    let next = pos + 8;
    let field = slice_subrange(bytes, pos, next);
    let n = u64_from_le_bytes(field);
    proof {
        lemma_auto_spec_u64_to_from_le_bytes();
        assert(spec_u64_to_le_bytes(spec_u64_from_le_bytes(field@)) == field@);
        assert(bytes@.skip(pos as int) =~= field@ + bytes@.skip(next as int));
    }
    Some((n, next))
}

/// Appends a run of bytes.
pub fn put_blob(out: &mut Vec<u8>, b: &[u8])
    ensures
        final(out)@ == old(out)@ + blob(b@),
        fits(b@.len()),
{
    put_length(out, b.len());
    out.extend_from_slice(b);
    assert(out@ =~= old(out)@ + blob(b@));
}

/// Reads a run of bytes at `pos`, and says where the next field starts.
/// Succeeds exactly where a length is followed by at least that many bytes.
pub fn take_blob(bytes: &[u8], pos: usize) -> (r: Option<(Vec<u8>, usize)>)
    ensures
        match r {
            Some((b, next)) => {
                &&& pos <= next <= bytes@.len()
                &&& fits(b@.len())
                &&& bytes@.skip(pos as int) == blob(b@) + bytes@.skip(next as int)
            },
            None => pos <= bytes@.len() ==> (forall|b: Seq<u8>, rest: Seq<u8>|
                fits(b.len()) ==> #[trigger] (blob(b) + rest) != bytes@.skip(pos as int)),
        },
{
    if pos > bytes.len() {
        return None;
    }
    let ghost input = bytes@.skip(pos as int);
    match take_length(bytes, pos) {
        None => {
            proof {
                assert forall|b: Seq<u8>, rest: Seq<u8>| fits(b.len()) implies #[trigger] (blob(b)
                    + rest) != input by {
                    assert(blob(b) + rest =~= length(b.len()) + (b + rest));
                }
            }
            None
        },
        Some((n, start)) => {
            if n > (bytes.len() - start) as u64 {
                proof {
                    assert forall|b: Seq<u8>, rest: Seq<u8>| fits(b.len()) implies #[trigger] (blob(
                        b,
                    ) + rest) != input by {
                        if blob(b) + rest == input {
                            assert(blob(b) + rest =~= length(b.len()) + (b + rest));
                            lemma_length_unique(
                                b.len(),
                                b + rest,
                                n as nat,
                                bytes@.skip(start as int),
                            );
                        }
                    }
                }
                return None;
            }
            let next = start + n as usize;
            let b = slice_to_vec(slice_subrange(bytes, start, next));
            proof {
                assert(bytes@.skip(start as int) =~= b@ + bytes@.skip(next as int));
                assert(input =~= blob(b@) + bytes@.skip(next as int));
            }
            Some((b, next))
        },
    }
}

/// Builds a string from its UTF-8 bytes with `String::from_utf8`, which
/// accepts exactly the well-formed UTF-8 sequences and then returns the
/// string made of the characters they encode.
#[verifier::external_body]
fn string_from_utf8(bytes: Vec<u8>) -> (r: Option<String>)
    ensures
        r is Some <==> valid_utf8(bytes@),
        r matches Some(s) ==> s@ == decode_utf8(bytes@),
{
    String::from_utf8(bytes).ok()
}

/// Appends a string.
pub fn put_text(out: &mut Vec<u8>, s: &str)
    ensures
        final(out)@ == old(out)@ + text(s@),
        text_fits(s@),
{
    put_blob(out, s.as_bytes());
}

/// Reads a string at `pos`, and says where the next field starts. Succeeds
/// exactly where a run of bytes stands that is well-formed UTF-8.
pub fn take_text(bytes: &[u8], pos: usize) -> (r: Option<(String, usize)>)
    ensures
        match r {
            Some((s, next)) => {
                &&& pos <= next <= bytes@.len()
                &&& text_fits(s@)
                &&& bytes@.skip(pos as int) == text(s@) + bytes@.skip(next as int)
            },
            None => pos <= bytes@.len() ==> (forall|s: Seq<char>, rest: Seq<u8>|
                text_fits(s) ==> #[trigger] (text(s) + rest) != bytes@.skip(pos as int)),
        },
{
    if pos > bytes.len() {
        return None;
    }
    let ghost input = bytes@.skip(pos as int);
    match take_blob(bytes, pos) {
        None => None,
        Some((b, next)) => {
            let ghost raw = b@;
            match string_from_utf8(b) {
                Some(s) => {
                    proof {
                        decode_utf8_encode_utf8(raw);
                    }
                    Some((s, next))
                },
                None => {
                    proof {
                        assert forall|s: Seq<char>, rest: Seq<u8>| text_fits(s) implies #[trigger] (
                        text(s) + rest) != input by {
                            if text(s) + rest == input {
                                lemma_blob_unique(
                                    encode_utf8(s),
                                    rest,
                                    raw,
                                    bytes@.skip(next as int),
                                );
                                encode_utf8_valid_utf8(s);
                            }
                        }
                    }
                    None
                },
            }
        },
    }
}

/// A run of strings without its count: each string in turn.
pub open spec fn items(l: Seq<Seq<char>>) -> Seq<u8>
    decreases l.len(),
{
    if l.len() == 0 {
        Seq::empty()
    } else {
        text(l[0]) + items(l.drop_first())
    }
}

/// A list of strings: how many there are, then each in turn.
pub open spec fn texts(l: Seq<Seq<char>>) -> Seq<u8> {
    length(l.len()) + items(l)
}

/// Whether every string of `l` is short enough to be written.
pub open spec fn items_fit(l: Seq<Seq<char>>) -> bool {
    forall|i: int| 0 <= i < l.len() ==> text_fits(#[trigger] l[i])
}

/// Whether `l` can be written as a list.
pub open spec fn texts_fit(l: Seq<Seq<char>>) -> bool {
    fits(l.len()) && items_fit(l)
}

/// Writing one more string appends its bytes.
pub proof fn lemma_items_push(l: Seq<Seq<char>>, s: Seq<char>)
    ensures
        items(l.push(s)) == items(l) + text(s),
    decreases l.len(),
{
    if l.len() == 0 {
        assert(l.push(s).drop_first() =~= Seq::<Seq<char>>::empty());
        assert(l.push(s)[0] == s);
        assert(items(l.push(s)) == text(s) + items(l.push(s).drop_first()));
        assert(text(s) + Seq::<u8>::empty() =~= items(l) + text(s));
    } else {
        assert(l.push(s).drop_first() =~= l.drop_first().push(s));
        assert(l.push(s)[0] == l[0]);
        lemma_items_push(l.drop_first(), s);
        assert(text(l[0]) + (items(l.drop_first()) + text(s)) =~= items(l) + text(s));
    }
}

/// Where the strings of `a` and of `b` start the same bytes and `a` is the
/// shorter run, `a` is the start of `b` and what follows `a` begins with
/// the remaining strings of `b`.
pub proof fn lemma_items_peel(a: Seq<Seq<char>>, ra: Seq<u8>, b: Seq<Seq<char>>, rb: Seq<u8>)
    requires
        items_fit(a),
        items_fit(b),
        a.len() <= b.len(),
        items(a) + ra == items(b) + rb,
    ensures
        a == b.take(a.len() as int),
        ra == items(b.skip(a.len() as int)) + rb,
    decreases a.len(),
{
    if a.len() == 0 {
        assert(b.skip(0) =~= b);
        assert(a =~= b.take(0));
        assert(items(a) + ra =~= ra);
    } else {
        let a1 = a.drop_first();
        let b1 = b.drop_first();
        assert(items(a) + ra =~= text(a[0]) + (items(a1) + ra));
        assert(items(b) + rb =~= text(b[0]) + (items(b1) + rb));
        lemma_text_unique(a[0], items(a1) + ra, b[0], items(b1) + rb);
        assert(items_fit(a1)) by {
            assert forall|i: int| 0 <= i < a1.len() implies text_fits(#[trigger] a1[i]) by {
                assert(a1[i] == a[i + 1]);
            }
        }
        assert(items_fit(b1)) by {
            assert forall|i: int| 0 <= i < b1.len() implies text_fits(#[trigger] b1[i]) by {
                assert(b1[i] == b[i + 1]);
            }
        }
        lemma_items_peel(a1, ra, b1, rb);
        assert(b1.skip(a1.len() as int) =~= b.skip(a.len() as int));
        assert forall|j: int| 0 <= j < a.len() implies a[j] == b[j] by {
            if j > 0 {
                assert(a[j] == a1[j - 1]);
                assert(b1.take(a1.len() as int)[j - 1] == b1[j - 1]);
            }
        }
        assert(a =~= b.take(a.len() as int));
    }
}

/// Bytes start with at most one list of strings.
pub proof fn lemma_texts_unique(a: Seq<Seq<char>>, ra: Seq<u8>, b: Seq<Seq<char>>, rb: Seq<u8>)
    requires
        texts_fit(a),
        texts_fit(b),
        texts(a) + ra == texts(b) + rb,
    ensures
        a == b,
        ra == rb,
{
    assert(texts(a) + ra =~= length(a.len()) + (items(a) + ra));
    assert(texts(b) + rb =~= length(b.len()) + (items(b) + rb));
    lemma_length_unique(a.len(), items(a) + ra, b.len(), items(b) + rb);
    lemma_items_peel(a, ra, b, rb);
    assert(b.take(b.len() as int) =~= b);
    assert(b.skip(b.len() as int) =~= Seq::<Seq<char>>::empty());
    assert(items(b.skip(b.len() as int)) + rb =~= rb);
}

/// Appends a list of strings.
pub fn put_texts(out: &mut Vec<u8>, l: &[String])
    ensures
        final(out)@ == old(out)@ + texts(l.deep_view()),
        texts_fit(l.deep_view()),
{
    let ghost before = out@;
    let ghost all = l.deep_view();
    put_length(out, l.len());
    let mut i: usize = 0;
    while i < l.len()
        invariant
            i <= l.len(),
            all == l.deep_view(),
            out@ == before + length(l.len() as nat) + items(all.take(i as int)),
            items_fit(all.take(i as int)),
        decreases l.len() - i,
    {
        let ghost done = out@;
        put_text(out, l[i].as_str());
        proof {
            lemma_items_push(all.take(i as int), l[i as int]@);
            assert(all.take(i + 1) =~= all.take(i as int).push(l[i as int]@));
            assert(out@ =~= before + length(l.len() as nat) + items(all.take(i + 1)));
        }
        i += 1;
    }
    proof {
        assert(all.take(i as int) =~= all);
        assert(out@ =~= before + texts(all));
    }
}

/// Reads a list of strings at `pos`, and says where the next field starts.
/// Succeeds exactly where a count is followed by that many strings.
pub fn take_texts(bytes: &[u8], pos: usize) -> (r: Option<(Vec<String>, usize)>)
    ensures
        match r {
            Some((l, next)) => {
                &&& pos <= next <= bytes@.len()
                &&& texts_fit(l.deep_view())
                &&& bytes@.skip(pos as int) == texts(l.deep_view()) + bytes@.skip(next as int)
            },
            None => pos <= bytes@.len() ==> (forall|l: Seq<Seq<char>>, rest: Seq<u8>|
                texts_fit(l) ==> #[trigger] (texts(l) + rest) != bytes@.skip(pos as int)),
        },
{
    if pos > bytes.len() {
        return None;
    }
    let ghost input = bytes@.skip(pos as int);
    let (n, start) = match take_length(bytes, pos) {
        None => {
            proof {
                assert forall|l: Seq<Seq<char>>, rest: Seq<u8>| texts_fit(l) implies #[trigger] (
                texts(l) + rest) != input by {
                    assert(texts(l) + rest =~= length(l.len()) + (items(l) + rest));
                }
            }
            return None;
        },
        Some(found) => found,
    };
    let mut out: Vec<String> = Vec::new();
    let mut at = start;
    let mut i: u64 = 0;
    proof {
        assert(items(out.deep_view()) + bytes@.skip(at as int) =~= bytes@.skip(start as int));
    }
    while i < n
        invariant
            start <= at <= bytes@.len(),
            i <= n,
            out@.len() == i,
            items_fit(out.deep_view()),
            input == bytes@.skip(pos as int),
            input == length(n as nat) + bytes@.skip(start as int),
            bytes@.skip(start as int) == items(out.deep_view()) + bytes@.skip(at as int),
        decreases n - i,
    {
        match take_text(bytes, at) {
            None => {
                proof {
                    let have = out.deep_view();
                    let tail = bytes@.skip(at as int);
                    assert forall|l: Seq<Seq<char>>, rest: Seq<u8>| texts_fit(l) implies #[trigger] (
                    texts(l) + rest) != input by {
                        if texts(l) + rest == input {
                            assert(texts(l) + rest =~= length(l.len()) + (items(l) + rest));
                            lemma_length_unique(
                                l.len(),
                                items(l) + rest,
                                n as nat,
                                bytes@.skip(start as int),
                            );
                            lemma_items_peel(have, tail, l, rest);
                            let left = l.skip(i as int);
                            assert(left[0] == l[i as int]);
                            assert(items(left) + rest =~= text(left[0]) + (items(left.drop_first())
                                + rest));
                        }
                    }
                }
                return None;
            },
            Some((s, next)) => {
                let ghost have = out.deep_view();
                let ghost added = s@;
                out.push(s);
                proof {
                    lemma_items_push(have, added);
                    assert(out.deep_view() =~= have.push(added));
                    assert(items(have.push(added)) + bytes@.skip(next as int) =~= items(have) + (
                    text(added) + bytes@.skip(next as int)));
                }
                at = next;
                i += 1;
            },
        }
    }
    proof {
        assert(input =~= texts(out.deep_view()) + bytes@.skip(at as int));
    }
    Some((out, at))
}

/// A truth value: one byte, 1 for true and 0 for false.
pub open spec fn flag(b: bool) -> Seq<u8> {
    seq![if b { 1u8 } else { 0u8 }]
}

/// An exit code: the byte 0 where there is none, else the byte 1 and the
/// code's four bytes in two's complement, least significant first.
pub open spec fn code(c: Option<i32>) -> Seq<u8> {
    match c {
        None => seq![0u8],
        Some(x) => seq![1u8] + spec_u32_to_le_bytes(x as u32),
    }
}

/// Bytes start with at most one truth value.
pub proof fn lemma_flag_unique(a: bool, ra: Seq<u8>, b: bool, rb: Seq<u8>)
    requires
        flag(a) + ra == flag(b) + rb,
    ensures
        a == b,
        ra == rb,
{
    let whole = flag(a) + ra;
    assert(whole[0] == flag(a)[0]);
    assert(whole[0] == flag(b)[0]);
    assert(whole.skip(1) =~= ra);
    assert(whole.skip(1) =~= rb);
}

/// Bytes start with at most one exit code.
pub proof fn lemma_code_unique(a: Option<i32>, ra: Seq<u8>, b: Option<i32>, rb: Seq<u8>)
    requires
        code(a) + ra == code(b) + rb,
    ensures
        a == b,
        ra == rb,
{
    lemma_auto_spec_u32_to_from_le_bytes();
    let whole = code(a) + ra;
    assert(whole[0] == code(a)[0]);
    assert(whole[0] == code(b)[0]);
    match (a, b) {
        (Some(x), Some(y)) => {
            let fx = spec_u32_to_le_bytes(x as u32);
            let fy = spec_u32_to_le_bytes(y as u32);
            assert(whole.subrange(1, 5) =~= fx);
            assert(whole.subrange(1, 5) =~= fy);
            assert(spec_u32_from_le_bytes(fx) == x as u32);
            assert(spec_u32_from_le_bytes(fy) == y as u32);
            assert(x as u32 == y as u32 ==> x == y) by (bit_vector);
            assert(whole.skip(5) =~= ra);
            assert(whole.skip(5) =~= rb);
        },
        (None, None) => {
            assert(whole.skip(1) =~= ra);
            assert(whole.skip(1) =~= rb);
        },
        _ => {},
    }
}

/// Appends a truth value.
pub fn put_flag(out: &mut Vec<u8>, b: bool)
    ensures
        final(out)@ == old(out)@ + flag(b),
{
    out.push(if b { 1u8 } else { 0u8 });
    assert(out@ =~= old(out)@ + flag(b));
}

/// Reads a truth value at `pos`, and says where the next field starts.
/// Succeeds exactly where the byte 0 or the byte 1 stands.
pub fn take_flag(bytes: &[u8], pos: usize) -> (r: Option<(bool, usize)>)
    ensures
        match r {
            Some((b, next)) => {
                &&& pos <= next <= bytes@.len()
                &&& bytes@.skip(pos as int) == flag(b) + bytes@.skip(next as int)
            },
            None => pos <= bytes@.len() ==> (forall|b: bool, rest: Seq<u8>| #[trigger]
                (flag(b) + rest) != bytes@.skip(pos as int)),
        },
{
    if pos > bytes.len() {
        return None;
    }
    let ghost input = bytes@.skip(pos as int);
    if pos == bytes.len() {
        proof {
            assert forall|b: bool, rest: Seq<u8>| #[trigger] (flag(b) + rest) != input by {
                assert((flag(b) + rest).len() >= 1);
            }
        }
        return None;
    }
    let byte = bytes[pos];
    if byte > 1 {
        proof {
            assert forall|b: bool, rest: Seq<u8>| #[trigger] (flag(b) + rest) != input by {
                assert((flag(b) + rest)[0] <= 1);
                assert(input[0] == byte);
            }
        }
        return None;
    }
    let b = byte == 1;
    proof {
        assert(input =~= flag(b) + bytes@.skip(pos + 1));
    }
    Some((b, pos + 1))
}

/// Appends an exit code.
pub fn put_code(out: &mut Vec<u8>, c: Option<i32>)
    ensures
        final(out)@ == old(out)@ + code(c),
{
    match c {
        None => {
            out.push(0u8);
        },
        Some(x) => {
            out.push(1u8);
            let field = u32_to_le_bytes(x as u32);
            out.extend_from_slice(field.as_slice());
        },
    }
    assert(out@ =~= old(out)@ + code(c));
}

/// Reads an exit code at `pos`, and says where the next field starts.
/// Succeeds exactly where the byte 0 stands, or the byte 1 with four bytes
/// behind it.
pub fn take_code(bytes: &[u8], pos: usize) -> (r: Option<(Option<i32>, usize)>)
    ensures
        match r {
            Some((c, next)) => {
                &&& pos <= next <= bytes@.len()
                &&& bytes@.skip(pos as int) == code(c) + bytes@.skip(next as int)
            },
            None => pos <= bytes@.len() ==> (forall|c: Option<i32>, rest: Seq<u8>| #[trigger]
                (code(c) + rest) != bytes@.skip(pos as int)),
        },
{
    if pos > bytes.len() {
        return None;
    }
    let ghost input = bytes@.skip(pos as int);
    proof {
        lemma_auto_spec_u32_to_from_le_bytes();
    }
    if pos == bytes.len() {
        proof {
            assert forall|c: Option<i32>, rest: Seq<u8>| #[trigger] (code(c) + rest) != input by {
                assert((code(c) + rest).len() >= 1);
            }
        }
        return None;
    }
    let tag = bytes[pos];
    proof {
        assert(input[0] == tag);
    }
    if tag == 0 {
        proof {
            assert(input =~= code(None) + bytes@.skip(pos + 1));
        }
        return Some((None, pos + 1));
    }
    if tag != 1 || bytes.len() - pos < 5 {
        proof {
            assert forall|c: Option<i32>, rest: Seq<u8>| #[trigger] (code(c) + rest) != input by {
                assert((code(c) + rest)[0] == code(c)[0]);
                assert(c is Some ==> (code(c) + rest).len() >= 5);
            }
        }
        return None;
    }
    let next = pos + 5;
    let field = slice_subrange(bytes, pos + 1, next);
    let raw = u32_from_le_bytes(field);
    let x = raw as i32;
    proof {
        assert(x as u32 == raw) by (bit_vector)
            requires
                x == raw as i32,
        ;
        assert(spec_u32_to_le_bytes(spec_u32_from_le_bytes(field@)) == field@);
        assert(input =~= code(Some(x)) + bytes@.skip(next as int));
    }
    Some((Some(x), next))
}

/// The truth value that `bytes` are the wire form of, if they are that
/// of any.
pub open spec fn parse_flag(bytes: Seq<u8>) -> Option<bool> {
    if bytes == flag(true) {
        Some(true)
    } else if bytes == flag(false) {
        Some(false)
    } else {
        None
    }
}

/// A truth value as it stands on the wire.
pub fn encode_flag(b: bool) -> (bytes: Vec<u8>)
    ensures
        bytes@ == flag(b),
{
    let mut out: Vec<u8> = Vec::new();
    put_flag(&mut out, b);
    assert(out@ =~= flag(b));
    out
}

/// Reads a truth value from its wire form: a single byte, 0 or 1.
pub fn decode_flag(bytes: &[u8]) -> (r: Option<bool>)
    ensures
        r == parse_flag(bytes@),
{
    if bytes.len() != 1 {
        assert(flag(true).len() == 1 && flag(false).len() == 1);
        return None;
    }
    let byte = bytes[0];
    if byte == 1 {
        assert(bytes@ =~= flag(true));
        Some(true)
    } else if byte == 0 {
        assert(bytes@ =~= flag(false));
        assert(flag(true)[0] == 1);
        Some(false)
    } else {
        assert(flag(true)[0] == 1 && flag(false)[0] == 0);
        None
    }
}

} // verus!
