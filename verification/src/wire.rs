//! The wire format of the request/response pipe protocol.
//!
//! A request is the batch size as decimal digits, one NUL terminator, then
//! each sentence's bytes followed by one NUL.  A response is one NUL-terminated
//! token per value; the token bodies carry no NUL, since NUL is the sole
//! delimiter of the framing.

use vstd::prelude::*;

verus! {

/// Failures of the pipe protocol that this crate's logic can decide.
#[derive(Clone, Copy, Debug, PartialEq, Eq, Structural)]
pub enum ProtocolError {
    /// An encode call was made before any worker process was initialized.
    Uninitialized,
    /// The response stream ended before the expected number of NUL-terminated
    /// tokens had appeared.
    ShortRead,
}

/// Holds when a byte sequence contains no NUL byte, so it can stand as the
/// body of one NUL-terminated field.
pub open spec fn nul_free(s: Seq<u8>) -> bool {
    forall|i: int| 0 <= i < s.len() ==> s[i] != 0u8
}

/// The views of a sequence of byte vectors.
pub open spec fn seq_views(s: Seq<Vec<u8>>) -> Seq<Seq<u8>> {
    s.map_values(|v: Vec<u8>| v@)
}

/// The framing of a sequence of fields: each field's bytes followed by one
/// NUL terminator, concatenated in order.
pub open spec fn framed(fields: Seq<Seq<u8>>) -> Seq<u8>
    decreases fields.len(),
{
    if fields.len() == 0 {
        Seq::empty()
    } else {
        framed(fields.drop_last()) + fields.last().push(0u8)
    }
}

/// The ASCII decimal digit sequence of `n`, most significant digit first,
/// without sign or leading zeros (`0` itself is the single digit `"0"`).
pub open spec fn decimal_digits(n: nat) -> Seq<u8>
    decreases n,
{
    if n < 10 {
        seq![(n + 48) as u8]
    } else {
        decimal_digits(n / 10).push((n % 10 + 48) as u8)
    }
}

/// The exact request stream for one batch: the batch size in decimal, a NUL,
/// then every sentence NUL-terminated, in order, with no extra bytes.
pub open spec fn request_bytes(sentences: Seq<Seq<u8>>) -> Seq<u8> {
    decimal_digits(sentences.len()).push(0u8) + framed(sentences)
}

/// How many NUL bytes a sequence contains, i.e. how many complete
/// NUL-terminated tokens a response stream carries.
pub open spec fn count_nuls(s: Seq<u8>) -> nat
    decreases s.len(),
{
    if s.len() == 0 {
        0
    } else {
        count_nuls(s.drop_last()) + if s.last() == 0u8 {
            1nat
        } else {
            0nat
        }
    }
}

/// The number an ASCII digit string denotes, most significant digit first.
pub open spec fn decimal_value(s: Seq<u8>) -> nat
    decreases s.len(),
{
    if s.len() == 0 {
        0
    } else {
        (decimal_value(s.drop_last()) * 10 + (s.last() - 48)) as nat
    }
}

/// The request header is a faithful decimal rendering of the batch size:
/// its digits are ASCII `0`..`9`, they read back to exactly `n`, and there
/// is no leading zero (except for `n == 0` itself).
pub proof fn lemma_decimal_digits_value(n: nat)
    ensures
        decimal_value(decimal_digits(n)) == n,
        decimal_digits(n).len() >= 1,
        forall|i: int| 0 <= i < decimal_digits(n).len() ==> 48 <= #[trigger] decimal_digits(n)[i]
            <= 57,
        n > 0 ==> decimal_digits(n)[0] != 48,
    decreases n,
{
    if n < 10 {
        let s = decimal_digits(n);
        assert(s.drop_last() =~= Seq::<u8>::empty());
        assert(decimal_value(Seq::<u8>::empty()) == 0);
        assert(s.last() == (n + 48) as u8);
        assert(decimal_value(s) == n);
    } else {
        lemma_decimal_digits_value(n / 10);
        let d = decimal_digits(n / 10);
        let s = decimal_digits(n);
        assert(s.drop_last() =~= d);
        assert(s.last() == (n % 10 + 48) as u8);
        vstd::arithmetic::div_mod::lemma_fundamental_div_mod(n as int, 10);
        assert(decimal_value(s) == n);
        assert(s[0] == d[0]);
    }
}

/// Formats `n` as its ASCII decimal digits, as the request header needs.
pub fn format_decimal(n: u32) -> (r: Vec<u8>)
    ensures
        r@ == decimal_digits(n as nat),
    decreases n,
{
    if n < 10 {
        let mut v: Vec<u8> = Vec::new();
        v.push(n as u8 + 48);
        assert(v@ =~= decimal_digits(n as nat));
        v
    } else {
        let mut v = format_decimal(n / 10);
        v.push((n % 10) as u8 + 48);
        assert(v@ =~= decimal_digits(n as nat));
        v
    }
}

/// Appends every byte of `chunk` to `out`.
fn append_bytes(out: &mut Vec<u8>, chunk: &Vec<u8>)
    ensures
        final(out)@ == old(out)@ + chunk@,
{
    let ghost start: Seq<u8> = out@;
    let mut i: usize = 0;
    while i < chunk.len()
        invariant
            i <= chunk@.len(),
            out@ == start + chunk@.take(i as int),
        decreases chunk@.len() - i,
    {
        out.push(chunk[i]);
        i = i + 1;
        assert(out@ =~= start + chunk@.take(i as int));
    }
    assert(chunk@.take(chunk@.len() as int) =~= chunk@);
}

/// Builds the request stream for one batch: exactly
/// `"<batch size>\0" + s0 + "\0" + ... + s(N-1) + "\0"`.
///
/// Sentences must carry no NUL byte, since NUL is the framing terminator
/// (a precondition on callers of the protocol), and the batch size must fit
/// the signed 32-bit count the worker reads.
pub fn encode_request(sentences: &Vec<Vec<u8>>) -> (r: Vec<u8>)
    requires
        sentences@.len() <= 0x7fff_ffff,
        forall|i: int| 0 <= i < sentences@.len() ==> nul_free(#[trigger] sentences@[i]@),
    ensures
        r@ == request_bytes(seq_views(sentences@)),
{
    let mut out = format_decimal(sentences.len() as u32);
    out.push(0u8);
    let ghost header: Seq<u8> = decimal_digits(sentences@.len() as nat).push(0u8);
    assert(out@ =~= header);
    assert(seq_views(sentences@).take(0) =~= Seq::<Seq<u8>>::empty());
    let mut i: usize = 0;
    while i < sentences.len()
        invariant
            i <= sentences@.len(),
            header == decimal_digits(sentences@.len() as nat).push(0u8),
            out@ == header + framed(seq_views(sentences@).take(i as int)),
        decreases sentences@.len() - i,
    {
        append_bytes(&mut out, &sentences[i]);
        out.push(0u8);
        i = i + 1;
        proof {
            let sv = seq_views(sentences@);
            assert(sv.take(i as int).drop_last() =~= sv.take(i as int - 1));
            assert(sv.take(i as int).last() == sentences@[i as int - 1]@);
            assert(out@ =~= header + framed(sv.take(i as int)));
        }
    }
    assert(seq_views(sentences@).take(sentences@.len() as int) =~= seq_views(sentences@));
    out
}

/// NUL counting distributes over concatenation.
proof fn lemma_count_nuls_append(a: Seq<u8>, b: Seq<u8>)
    ensures
        count_nuls(a + b) == count_nuls(a) + count_nuls(b),
    decreases b.len(),
{
    if b.len() == 0 {
        assert(a + b =~= a);
    } else {
        lemma_count_nuls_append(a, b.drop_last());
        assert((a + b).drop_last() =~= a + b.drop_last());
        assert((a + b).last() == b.last());
    }
}

/// A NUL-free sequence contains no NUL to count.
proof fn lemma_nul_free_count(s: Seq<u8>)
    requires
        nul_free(s),
    ensures
        count_nuls(s) == 0,
    decreases s.len(),
{
    if s.len() > 0 {
        assert(nul_free(s.drop_last()));
        lemma_nul_free_count(s.drop_last());
    }
}

/// Finds the first NUL byte at or after `from`, the position where the next
/// response token ends.
fn find_nul(data: &Vec<u8>, from: usize) -> (r: Option<usize>)
    requires
        from <= data@.len(),
    ensures
        match r {
            Some(k) => {
                &&& from <= k < data@.len()
                &&& data@[k as int] == 0u8
                &&& nul_free(data@.subrange(from as int, k as int))
            },
            None => nul_free(data@.subrange(from as int, data@.len() as int)),
        },
{
    let mut k: usize = from;
    while k < data.len()
        invariant
            from <= k <= data@.len(),
            nul_free(data@.subrange(from as int, k as int)),
        decreases data@.len() - k,
    {
        if data[k] == 0 {
            return Some(k);
        }
        k = k + 1;
        assert(data@.subrange(from as int, k as int) =~= data@.subrange(
            from as int,
            k as int - 1,
        ).push(data@[k as int - 1]));
    }
    None
}

/// Splits the leading `count` NUL-terminated tokens off a response stream.
///
/// Succeeds exactly when the stream carries at least `count` NUL terminators;
/// the tokens come back stripped of their terminators, in stream order, and
/// their framing is the exact prefix of the stream that was consumed.  A
/// stream that ends before the last terminator is a short read, never a
/// silent partial result.
pub fn decode_response(data: &Vec<u8>, count: usize) -> (r: Result<Vec<Vec<u8>>, ProtocolError>)
    ensures
        match r {
            Ok(tokens) => {
                &&& tokens@.len() == count
                &&& forall|i: int| 0 <= i < count ==> nul_free(#[trigger] tokens@[i]@)
                &&& framed(seq_views(tokens@)).is_prefix_of(data@)
                &&& count_nuls(data@) >= count
            },
            Err(e) => {
                &&& e == ProtocolError::ShortRead
                &&& count_nuls(data@) < count
            },
        },
{
    let mut tokens: Vec<Vec<u8>> = Vec::new();
    let mut p: usize = 0;
    let mut c: usize = 0;
    assert(seq_views(tokens@) =~= Seq::<Seq<u8>>::empty());
    assert(data@.take(0) =~= Seq::<u8>::empty());
    while c < count
        invariant
            c <= count,
            c == tokens@.len(),
            p <= data@.len(),
            forall|i: int| 0 <= i < c ==> nul_free(#[trigger] tokens@[i]@),
            framed(seq_views(tokens@)) == data@.take(p as int),
            count_nuls(data@.take(p as int)) == c,
        decreases count - c,
    {
        match find_nul(data, p) {
            None => {
                proof {
                    let tail = data@.subrange(p as int, data@.len() as int);
                    lemma_nul_free_count(tail);
                    lemma_count_nuls_append(data@.take(p as int), tail);
                    assert(data@.take(p as int) + tail =~= data@);
                }
                return Err(ProtocolError::ShortRead);
            },
            Some(k) => {
                let token = vstd::slice::slice_to_vec(vstd::slice::slice_subrange(
                    data.as_slice(),
                    p,
                    k,
                ));
                let ghost prev: Seq<Seq<u8>> = seq_views(tokens@);
                tokens.push(token);
                proof {
                    let sv = seq_views(tokens@);
                    assert(sv.drop_last() =~= prev);
                    assert(sv.last() == token@);
                    let piece = token@.push(0u8);
                    assert(data@.take(k as int + 1) =~= data@.take(p as int) + piece);
                    assert(framed(sv) == data@.take(k as int + 1));
                    lemma_count_nuls_append(data@.take(p as int), piece);
                    lemma_nul_free_count(token@);
                    assert(piece.drop_last() =~= token@);
                    assert(count_nuls(piece) == 1);
                }
                let data_len = data.len();
                assert(k < data_len);
                p = k + 1;
                c = c + 1;
            },
        }
    }
    proof {
        let tail = data@.subrange(p as int, data@.len() as int);
        lemma_count_nuls_append(data@.take(p as int), tail);
        assert(data@.take(p as int) + tail =~= data@);
        assert(framed(seq_views(tokens@)).is_prefix_of(data@));
    }
    Ok(tokens)
}

/// The framing can also be peeled from the front: first field, its NUL, then
/// the framing of the remaining fields.
proof fn lemma_framed_first(t: Seq<Seq<u8>>)
    requires
        t.len() > 0,
    ensures
        framed(t) == t.first().push(0u8) + framed(t.drop_first()),
    decreases t.len(),
{
    if t.len() == 1 {
        assert(t.drop_last() =~= Seq::<Seq<u8>>::empty());
        assert(t.drop_first() =~= Seq::<Seq<u8>>::empty());
        assert(framed(t) =~= t.first().push(0u8) + framed(t.drop_first()));
    } else {
        let u = t.drop_last();
        lemma_framed_first(u);
        assert(u.first() == t.first());
        assert(t.drop_first().drop_last() =~= u.drop_first());
        assert(t.drop_first().last() == t.last());
        assert(framed(t.drop_first()) == framed(u.drop_first()) + t.last().push(0u8));
        assert(framed(t) == framed(u) + t.last().push(0u8));
        assert(framed(t) =~= t.first().push(0u8) + framed(t.drop_first()));
    }
}

/// A NUL-framed stream determines its leading tokens uniquely: two framings
/// of the same number of NUL-free fields that both stand as a prefix of one
/// stream are the same fields, position for position.
///
/// This is the ordering and determinism law of the response protocol: the
/// value decoded at stream position `i * EMBEDDING_LENGTH + j` can only be
/// the `j`-th value the worker wrote for sentence `i`, and two decodes of
/// one stream can never disagree.
pub proof fn lemma_framed_prefix_unique(t1: Seq<Seq<u8>>, t2: Seq<Seq<u8>>, data: Seq<u8>)
    requires
        t1.len() == t2.len(),
        forall|i: int| 0 <= i < t1.len() ==> nul_free(#[trigger] t1[i]),
        forall|i: int| 0 <= i < t2.len() ==> nul_free(#[trigger] t2[i]),
        framed(t1).is_prefix_of(data),
        framed(t2).is_prefix_of(data),
    ensures
        t1 == t2,
    decreases t1.len(),
{
    if t1.len() == 0 {
        assert(t1 =~= t2);
    } else {
        lemma_framed_first(t1);
        lemma_framed_first(t2);
        let a = t1.first();
        let b = t2.first();
        let f1 = framed(t1.drop_first());
        let f2 = framed(t2.drop_first());
        assert(framed(t1) == a.push(0u8) + f1);
        assert(framed(t2) == b.push(0u8) + f2);
        assert forall|i: int| 0 <= i < a.len() implies data[i] == a[i] && a[i] != 0u8 by {
            assert((a.push(0u8) + f1)[i] == a[i]);
            assert(nul_free(a));
        }
        assert forall|i: int| 0 <= i < b.len() implies data[i] == b[i] && b[i] != 0u8 by {
            assert((b.push(0u8) + f2)[i] == b[i]);
            assert(nul_free(b));
        }
        assert((a.push(0u8) + f1)[a.len() as int] == 0u8);
        assert(data[a.len() as int] == 0u8);
        assert((b.push(0u8) + f2)[b.len() as int] == 0u8);
        assert(data[b.len() as int] == 0u8);
        if a.len() < b.len() {
            assert(b[a.len() as int] == 0u8);
            assert(false);
        }
        if b.len() < a.len() {
            assert(a[b.len() as int] == 0u8);
            assert(false);
        }
        assert(a =~= b);
        let rest = data.skip(a.len() as int + 1);
        assert forall|j: int| 0 <= j < f1.len() implies f1[j] == rest[j] by {
            assert(framed(t1)[a.len() + 1 + j] == f1[j]);
            assert(data[a.len() + 1 + j] == framed(t1)[a.len() + 1 + j]);
        }
        assert(f1 =~= rest.subrange(0, f1.len() as int));
        assert(f1.is_prefix_of(rest));
        assert forall|j: int| 0 <= j < f2.len() implies f2[j] == rest[j] by {
            assert(framed(t2)[b.len() + 1 + j] == f2[j]);
            assert(data[b.len() + 1 + j] == framed(t2)[b.len() + 1 + j]);
        }
        assert(f2 =~= rest.subrange(0, f2.len() as int));
        assert(f2.is_prefix_of(rest));
        assert(forall|i: int| 0 <= i < t1.drop_first().len() ==> nul_free(
            #[trigger] t1.drop_first()[i],
        ));
        assert(forall|i: int| 0 <= i < t2.drop_first().len() ==> nul_free(
            #[trigger] t2.drop_first()[i],
        ));
        lemma_framed_prefix_unique(t1.drop_first(), t2.drop_first(), rest);
        assert forall|i: int| 0 <= i < t1.len() implies t1[i] == t2[i] by {
            if i == 0 {
                assert(t1[0] == a && t2[0] == b);
            } else {
                assert(t1.drop_first()[i - 1] == t1[i]);
                assert(t2.drop_first()[i - 1] == t2[i]);
            }
        }
        assert(t1 =~= t2);
    }
}

/// Round trip of the response framing: when a worker wrote the framing of
/// `t` (followed by anything), the one token sequence of `t.len()` fields
/// that `decode_response`'s contract admits for that stream is `t` itself —
/// each decoded value is the value the worker wrote at that position.
pub proof fn lemma_decode_round_trip(t: Seq<Seq<u8>>, rest: Seq<u8>, decoded: Seq<Seq<u8>>)
    requires
        forall|i: int| 0 <= i < t.len() ==> nul_free(#[trigger] t[i]),
        forall|i: int| 0 <= i < decoded.len() ==> nul_free(#[trigger] decoded[i]),
        decoded.len() == t.len(),
        framed(decoded).is_prefix_of(framed(t) + rest),
    ensures
        decoded == t,
{
    assert(framed(t) =~= (framed(t) + rest).subrange(0, framed(t).len() as int));
    assert(framed(t).is_prefix_of(framed(t) + rest));
    lemma_framed_prefix_unique(decoded, t, framed(t) + rest);
}

/// A framing of NUL-free fields carries exactly one NUL per field, so a
/// worker that wrote `k` complete tokens left a stream with `k` terminators.
pub proof fn lemma_count_nuls_framed(t: Seq<Seq<u8>>)
    requires
        forall|i: int| 0 <= i < t.len() ==> nul_free(#[trigger] t[i]),
    ensures
        count_nuls(framed(t)) == t.len(),
    decreases t.len(),
{
    if t.len() > 0 {
        lemma_count_nuls_framed(t.drop_last());
        lemma_count_nuls_append(framed(t.drop_last()), t.last().push(0u8));
        lemma_nul_free_count(t.last());
        assert(t.last().push(0u8).drop_last() =~= t.last());
        assert(count_nuls(t.last().push(0u8)) == 1);
    }
}

} // verus!
