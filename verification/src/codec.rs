//! Length-prefixed binary encoding primitives shared by the block, ring and
//! secret-version wire formats. Every reader is exact: it succeeds on the
//! encodings its writer produces and returns the encoded value.

use vstd::prelude::*;

use vstd::bytes::{lemma_auto_spec_u64_to_from_le_bytes, spec_u64_from_le_bytes,
    spec_u64_to_le_bytes, u64_from_le_bytes, u64_to_le_bytes};
use vstd::slice::{slice_subrange, slice_to_vec};
use vstd::utf8::{decode_utf8, decode_utf8_encode_utf8, encode_utf8, encode_utf8_decode_utf8,
    encode_utf8_valid_utf8, valid_utf8};

verus! {

/// The encoding of a `u64`: eight bytes, little endian.
pub open spec fn spec_enc_u64(v: u64) -> Seq<u8> {
    spec_u64_to_le_bytes(v)
}

/// The encoding of a byte string: its length as `u64`, then the bytes.
pub open spec fn spec_enc_bytes(b: Seq<u8>) -> Seq<u8>
    recommends
        b.len() <= u64::MAX,
{
    spec_enc_u64(b.len() as u64) + b
}

/// The encoding of a character string: its UTF-8 bytes, length-prefixed.
pub open spec fn spec_enc_str(s: Seq<char>) -> Seq<u8> {
    spec_enc_bytes(encode_utf8(s))
}

/// Two equal `u64` encodings encode the same value.
pub proof fn lemma_enc_u64_injective(x: u64, y: u64)
    requires
        spec_enc_u64(x) == spec_enc_u64(y),
    ensures
        x == y,
{
    lemma_auto_spec_u64_to_from_le_bytes();
}

/// The `u64` encoding is eight bytes long.
pub proof fn lemma_enc_u64_len(x: u64)
    ensures
        spec_enc_u64(x).len() == 8,
{
    lemma_auto_spec_u64_to_from_le_bytes();
}

/// Append the encoding of `v` to `out`.
pub fn write_u64(out: &mut Vec<u8>, v: u64)
    ensures
        final(out)@ == old(out)@ + spec_enc_u64(v),
{
    let mut enc = u64_to_le_bytes(v);
    out.append(&mut enc);
}

/// Append a length-prefixed byte string to `out`.
pub fn write_bytes(out: &mut Vec<u8>, b: &[u8])
    ensures
        final(out)@ == old(out)@ + spec_enc_bytes(b@),
{
    write_u64(out, b.len() as u64);
    out.extend_from_slice(b);
    assert(out@ =~= old(out)@ + spec_enc_bytes(b@));
}

/// Append a length-prefixed string to `out`.
pub fn write_str(out: &mut Vec<u8>, s: &str)
    ensures
        final(out)@ == old(out)@ + spec_enc_str(s@),
{
    write_bytes(out, s.as_bytes());
}

/// Append `b` itself, without a length prefix, to `out`.
pub fn write_raw(out: &mut Vec<u8>, b: &[u8])
    ensures
        final(out)@ == old(out)@ + b@,
{
    out.extend_from_slice(b);
}

/// Read a `u64` at `pos`. Succeeds exactly when eight bytes are available.
pub fn read_u64(data: &[u8], pos: usize) -> (r: Option<(u64, usize)>)
    ensures
        r is Some ==> ({
            let (v, p2) = r.unwrap();
            &&& pos + 8 <= data@.len()
            &&& p2 == pos + 8
            &&& data@.subrange(pos as int, p2 as int) == spec_enc_u64(v)
        }),
        pos + 8 <= data@.len() ==> r is Some,
{
    proof {
        lemma_auto_spec_u64_to_from_le_bytes();
    }
    if pos > data.len() || data.len() - pos < 8 {
        return None;
    }
    let chunk = slice_subrange(data, pos, pos + 8);
    let v = u64_from_le_bytes(chunk);
    proof {
        assert(spec_u64_to_le_bytes(spec_u64_from_le_bytes(chunk@)) == chunk@);
    }
    Some((v, pos + 8))
}

/// Read one byte at `pos`.
pub fn read_u8(data: &[u8], pos: usize) -> (r: Option<(u8, usize)>)
    ensures
        r is Some ==> ({
            let (v, p2) = r.unwrap();
            &&& pos + 1 <= data@.len()
            &&& p2 == pos + 1
            &&& data@[pos as int] == v
        }),
        pos + 1 <= data@.len() ==> r is Some,
{
    if pos >= data.len() {
        return None;
    }
    Some((*vstd::slice::slice_index_get(data, pos), pos + 1))
}

/// Read a length-prefixed byte string at `pos`. Succeeds on exactly the
/// encodings `write_bytes` produces, and returns the encoded bytes.
pub fn read_bytes(data: &[u8], pos: usize) -> (r: Option<(Vec<u8>, usize)>)
    ensures
        r is Some ==> ({
            let (b, p2) = r.unwrap();
            &&& pos <= data@.len()
            &&& p2 <= data@.len()
            &&& p2 == pos + 8 + b@.len()
            &&& data@.subrange(pos as int, p2 as int) == spec_enc_bytes(b@)
        }),
        forall|b: Seq<u8>|
            #![trigger spec_enc_bytes(b)]
            pos + 8 + b.len() <= data@.len() && data@.subrange(pos as int, pos + 8 + b.len())
                == spec_enc_bytes(b) ==> r is Some && r.unwrap().0@ == b && r.unwrap().1 == pos + 8
                + b.len(),
{
    proof {
        lemma_auto_spec_u64_to_from_le_bytes();
    }
    let first = read_u64(data, pos);
    match first {
        None => {
            proof {
                assert forall|b: Seq<u8>|
                    pos + 8 + b.len() <= data@.len() && data@.subrange(
                        pos as int,
                        pos + 8 + b.len(),
                    ) == spec_enc_bytes(b) implies false by {
                    assert(pos + 8 <= data@.len());
                }
            }
            None
        },
        Some((n64, p1)) => {
            if n64 > (data.len() - p1) as u64 {
                proof {
                    assert forall|b: Seq<u8>|
                        pos + 8 + b.len() <= data@.len() && data@.subrange(
                            pos as int,
                            pos + 8 + b.len(),
                        ) == spec_enc_bytes(b) implies false by {
                        lemma_enc_prefix_u64(data@, pos as int, b, n64);
                    }
                }
                return None;
            }
            let n = n64 as usize;
            let chunk = slice_subrange(data, p1, p1 + n);
            let result = slice_to_vec(chunk);
            proof {
                assert(data@.subrange(pos as int, (pos + 8 + n) as int) =~= spec_enc_bytes(
                    result@,
                ));
                assert forall|b: Seq<u8>|
                    pos + 8 + b.len() <= data@.len() && data@.subrange(
                        pos as int,
                        pos + 8 + b.len(),
                    ) == spec_enc_bytes(b) implies result@ == b && pos + 8 + b.len() == pos + 8
                    + n by {
                    lemma_enc_prefix_u64(data@, pos as int, b, n64);
                    assert(b.len() == n);
                }
            }
            Some((result, p1 + n))
        },
    }
}

/// When the encoding of a byte string `b` sits at `pos` and the eight bytes
/// there encode `m`, then `b` has length `m` and is the byte range after the
/// prefix.
proof fn lemma_enc_prefix_u64(data: Seq<u8>, pos: int, b: Seq<u8>, m: u64)
    requires
        0 <= pos,
        b.len() <= u64::MAX,
        pos + 8 + b.len() <= data.len(),
        data.subrange(pos, pos + 8 + b.len()) == spec_enc_bytes(b),
        data.subrange(pos, pos + 8) == spec_enc_u64(m),
    ensures
        b.len() as u64 == m,
        b == data.subrange(pos + 8, pos + 8 + b.len()),
{
    lemma_auto_spec_u64_to_from_le_bytes();
    assert(spec_enc_u64(b.len() as u64) =~= data.subrange(pos, pos + 8)) by {
        assert forall|i: int|
            #![trigger data.subrange(pos, pos + 8)[i]]
            0 <= i < 8 implies spec_enc_u64(b.len() as u64)[i] == data.subrange(
            pos,
            pos + 8,
        )[i] by {
            assert(spec_enc_bytes(b)[i] == spec_enc_u64(b.len() as u64)[i]);
            assert(data.subrange(pos, pos + 8 + b.len())[i] == data[pos + i]);
        }
    }
    lemma_enc_u64_injective(b.len() as u64, m);
    assert(b =~= data.subrange(pos + 8, pos + 8 + b.len())) by {
        assert forall|i: int|
            #![trigger data.subrange(pos + 8, pos + 8 + b.len())[i]]
            0 <= i < b.len() implies b[i] == data.subrange(
            pos + 8,
            pos + 8 + b.len(),
        )[i] by {
            assert(spec_enc_bytes(b)[8 + i] == b[i]);
            assert(data.subrange(pos, pos + 8 + b.len())[8 + i] == data[pos + 8 + i]);
        }
    }
}

/// The views of a vector of byte vectors.
pub open spec fn bytes_seq_view(v: Seq<Vec<u8>>) -> Seq<Seq<u8>> {
    Seq::new(v.len(), |i: int| v[i]@)
}

/// Every element short enough for its length prefix, and the list short
/// enough for its count prefix.
pub open spec fn bytes_seq_wf(els: Seq<Seq<u8>>) -> bool {
    &&& els.len() <= u64::MAX
    &&& forall|i: int| 0 <= i < els.len() ==> (#[trigger] els[i]).len() <= u64::MAX
}

/// The concatenation of the length-prefixed encodings of `els`.
pub open spec fn spec_enc_bytes_seq(els: Seq<Seq<u8>>) -> Seq<u8>
    decreases els.len(),
{
    if els.len() == 0 {
        Seq::<u8>::empty()
    } else {
        spec_enc_bytes(els.first()) + spec_enc_bytes_seq(els.drop_first())
    }
}

/// The encoding of a list of byte strings: the count, then each element
/// length-prefixed.
pub open spec fn spec_enc_bytes_list(els: Seq<Seq<u8>>) -> Seq<u8> {
    spec_enc_u64(els.len() as u64) + spec_enc_bytes_seq(els)
}

/// Extending the prefix by one element appends that element's encoding.
pub proof fn lemma_enc_bytes_seq_snoc(els: Seq<Seq<u8>>, i: int)
    requires
        0 <= i < els.len(),
    ensures
        spec_enc_bytes_seq(els.take(i + 1)) == spec_enc_bytes_seq(els.take(i)) + spec_enc_bytes(
            els[i],
        ),
    decreases i,
{
    if i == 0 {
        assert(els.take(1).first() == els[0]);
        assert(els.take(1).drop_first() =~= Seq::<Seq<u8>>::empty());
        assert(els.take(0) =~= Seq::<Seq<u8>>::empty());
        assert(spec_enc_bytes_seq(els.take(1)) =~= spec_enc_bytes_seq(els.take(0))
            + spec_enc_bytes(els[0]));
    } else {
        let tail = els.drop_first();
        lemma_enc_bytes_seq_snoc(tail, i - 1);
        assert(els.take(i + 1).first() == els.first());
        assert(els.take(i + 1).drop_first() =~= tail.take(i));
        assert(els.take(i).first() == els.first());
        assert(els.take(i).drop_first() =~= tail.take(i - 1));
        assert(tail[i - 1] == els[i]);
        assert(spec_enc_bytes_seq(els.take(i + 1)) =~= spec_enc_bytes_seq(els.take(i))
            + spec_enc_bytes(els[i]));
    }
}

/// Each element contributes at least its length prefix.
pub proof fn lemma_enc_bytes_seq_len(els: Seq<Seq<u8>>)
    ensures
        spec_enc_bytes_seq(els).len() >= 8 * els.len(),
    decreases els.len(),
{
    lemma_auto_spec_u64_to_from_le_bytes();
    if els.len() > 0 {
        lemma_enc_bytes_seq_len(els.drop_first());
    }
}

/// Append the encoding of a list of byte strings to `out`.
pub fn write_bytes_list(out: &mut Vec<u8>, items: &Vec<Vec<u8>>)
    ensures
        final(out)@ == old(out)@ + spec_enc_bytes_list(bytes_seq_view(items@)),
{
    let ghost els = bytes_seq_view(items@);
    write_u64(out, items.len() as u64);
    let ghost mid = out@;
    let mut i: usize = 0;
    proof {
        assert(els.take(0) =~= Seq::<Seq<u8>>::empty());
    }
    while i < items.len()
        invariant
            i <= items@.len(),
            els == bytes_seq_view(items@),
            els.len() == items@.len(),
            out@ == mid + spec_enc_bytes_seq(els.take(i as int)),
        decreases items@.len() - i,
    {
        write_bytes(out, items[i].as_slice());
        proof {
            lemma_enc_bytes_seq_snoc(els, i as int);
        }
        i = i + 1;
    }
    proof {
        assert(els.take(els.len() as int) =~= els);
        assert(out@ =~= old(out)@ + spec_enc_bytes_list(els));
    }
}

/// Read a list of byte strings at `pos`. Succeeds on exactly the encodings
/// `write_bytes_list` produces, and returns the encoded elements.
pub fn read_bytes_list(data: &[u8], pos: usize) -> (r: Option<(Vec<Vec<u8>>, usize)>)
    ensures
        r is Some ==> ({
            let (v, p2) = r.unwrap();
            &&& pos <= data@.len()
            &&& p2 <= data@.len()
            &&& pos + spec_enc_bytes_list(bytes_seq_view(v@)).len() == p2
            &&& data@.subrange(pos as int, p2 as int) == spec_enc_bytes_list(bytes_seq_view(v@))
        }),
        forall|els: Seq<Seq<u8>>|
            #![trigger spec_enc_bytes_list(els)]
            bytes_seq_wf(els) && pos + spec_enc_bytes_list(els).len() <= data@.len()
                && data@.subrange(pos as int, pos + spec_enc_bytes_list(els).len())
                == spec_enc_bytes_list(els) ==> r is Some && bytes_seq_view(r.unwrap().0@) == els
                && r.unwrap().1 == pos + spec_enc_bytes_list(els).len(),
{
    proof {
        lemma_auto_spec_u64_to_from_le_bytes();
    }
    let first = read_u64(data, pos);
    match first {
        None => {
            proof {
                assert forall|els: Seq<Seq<u8>>|
                    bytes_seq_wf(els) && pos + spec_enc_bytes_list(els).len() <= data@.len()
                        && data@.subrange(pos as int, pos + spec_enc_bytes_list(els).len())
                        == spec_enc_bytes_list(els) implies false by {
                    assert(pos + 8 <= data@.len());
                }
            }
            None
        },
        Some((n64, p1)) => {
            let mut out: Vec<Vec<u8>> = Vec::new();
            let mut cur: usize = p1;
            let mut k: u64 = 0;
            proof {
                assert(bytes_seq_view(out@).take(0) =~= Seq::<Seq<u8>>::empty());
                assert(data@.subrange(p1 as int, cur as int) =~= spec_enc_bytes_seq(
                    bytes_seq_view(out@),
                ));
                assert forall|els: Seq<Seq<u8>>|
                    bytes_seq_wf(els) && pos + spec_enc_bytes_list(els).len() <= data@.len()
                        && data@.subrange(pos as int, pos + spec_enc_bytes_list(els).len())
                        == spec_enc_bytes_list(els) implies els.len() == n64 && bytes_seq_view(out@)
                    == els.take(0) && cur == p1 + spec_enc_bytes_seq(els.take(0)).len() by {
                    lemma_enc_list_count(data@, pos as int, els, n64);
                    assert(els.take(0) =~= Seq::<Seq<u8>>::empty());
                    assert(bytes_seq_view(out@) =~= els.take(0));
                }
            }
            while k < n64
                invariant
                    k <= n64,
                    out@.len() == k,
                    p1 == pos + 8,
                    pos + 8 <= data@.len(),
                    p1 <= cur <= data@.len(),
                    data@.subrange(pos as int, p1 as int) == spec_enc_u64(n64),
                    data@.subrange(p1 as int, cur as int) == spec_enc_bytes_seq(
                        bytes_seq_view(out@),
                    ),
                    forall|els: Seq<Seq<u8>>|
                        #![trigger spec_enc_bytes_list(els)]
                        bytes_seq_wf(els) && pos + spec_enc_bytes_list(els).len() <= data@.len()
                            && data@.subrange(pos as int, pos + spec_enc_bytes_list(els).len())
                            == spec_enc_bytes_list(els) ==> els.len() == n64
                            && bytes_seq_view(out@) == els.take(k as int) && cur == p1
                            + spec_enc_bytes_seq(els.take(k as int)).len(),
                decreases n64 - k,
            {
                let ghost prev = bytes_seq_view(out@);
                let ghost prev_cur = cur;
                match read_bytes(data, cur) {
                    None => {
                        proof {
                            assert forall|els: Seq<Seq<u8>>|
                                bytes_seq_wf(els) && pos + spec_enc_bytes_list(els).len()
                                    <= data@.len() && data@.subrange(
                                    pos as int,
                                    pos + spec_enc_bytes_list(els).len(),
                                ) == spec_enc_bytes_list(els) implies false by {
                                lemma_read_bytes_list_step(data@, pos as int, els, k as int);
                            }
                        }
                        return None;
                    },
                    Some((b, p2)) => {
                        proof {
                            lemma_enc_bytes_seq_snoc(bytes_seq_view(out@.push(b)), k as int);
                            assert(bytes_seq_view(out@.push(b)).take(k as int) =~= bytes_seq_view(
                                out@,
                            ));
                            assert(bytes_seq_view(out@.push(b))[k as int] == b@);
                            assert(bytes_seq_view(out@.push(b)).take(k as int + 1) =~= bytes_seq_view(
                                out@.push(b),
                            ));
                            assert(data@.subrange(p1 as int, p2 as int) =~= data@.subrange(
                                p1 as int,
                                prev_cur as int,
                            ) + data@.subrange(prev_cur as int, p2 as int));
                            assert forall|els: Seq<Seq<u8>>|
                                bytes_seq_wf(els) && pos + spec_enc_bytes_list(els).len()
                                    <= data@.len() && data@.subrange(
                                    pos as int,
                                    pos + spec_enc_bytes_list(els).len(),
                                ) == spec_enc_bytes_list(els) implies els.len() == n64
                                && bytes_seq_view(out@.push(b)) == els.take(k as int + 1) && p2
                                == p1 + spec_enc_bytes_seq(els.take(k as int + 1)).len() by {
                                lemma_read_bytes_list_step(data@, pos as int, els, k as int);
                                assert(bytes_seq_view(out@.push(b)) =~= els.take(k as int + 1));
                            }
                        }
                        out.push(b);
                        cur = p2;
                        k = k + 1;
                    },
                }
            }
            proof {
                assert(data@.subrange(pos as int, cur as int) =~= spec_enc_bytes_list(
                    bytes_seq_view(out@),
                ));
                assert forall|els: Seq<Seq<u8>>|
                    bytes_seq_wf(els) && pos + spec_enc_bytes_list(els).len() <= data@.len()
                        && data@.subrange(pos as int, pos + spec_enc_bytes_list(els).len())
                        == spec_enc_bytes_list(els) implies bytes_seq_view(out@) == els && cur
                    == pos + spec_enc_bytes_list(els).len() by {
                    assert(els.take(els.len() as int) =~= els);
                }
            }
            Some((out, cur))
        },
    }
}

/// When a well-formed list encoding sits at `pos` and the eight bytes there
/// encode `m`, the list has `m` elements.
proof fn lemma_enc_list_count(data: Seq<u8>, pos: int, els: Seq<Seq<u8>>, m: u64)
    requires
        0 <= pos,
        bytes_seq_wf(els),
        pos + spec_enc_bytes_list(els).len() <= data.len(),
        data.subrange(pos, pos + spec_enc_bytes_list(els).len()) == spec_enc_bytes_list(els),
        pos + 8 <= data.len(),
        data.subrange(pos, pos + 8) == spec_enc_u64(m),
    ensures
        els.len() == m,
{
    lemma_auto_spec_u64_to_from_le_bytes();
    assert(spec_enc_u64(els.len() as u64) =~= data.subrange(pos, pos + 8)) by {
        assert forall|i: int|
            #![trigger data.subrange(pos, pos + 8)[i]]
            0 <= i < 8 implies spec_enc_u64(els.len() as u64)[i] == data.subrange(pos, pos + 8)[i] by {
            assert(spec_enc_bytes_list(els)[i] == spec_enc_u64(els.len() as u64)[i]);
            assert(data.subrange(pos, pos + spec_enc_bytes_list(els).len())[i] == data[pos + i]);
        }
    }
    lemma_enc_u64_injective(els.len() as u64, m);
}

/// One step of list reading: when a well-formed list encoding sits at `pos`
/// and `k` of its elements end at some offset, the bytes there continue
/// with the encoding of element `k`.
proof fn lemma_read_bytes_list_step(data: Seq<u8>, pos: int, els: Seq<Seq<u8>>, k: int)
    requires
        0 <= pos,
        0 <= k <= els.len(),
        bytes_seq_wf(els),
        pos + spec_enc_bytes_list(els).len() <= data.len(),
        data.subrange(pos, pos + spec_enc_bytes_list(els).len()) == spec_enc_bytes_list(els),
        data.subrange(pos, pos + 8) == spec_enc_u64(els.len() as u64),
    ensures
        spec_enc_bytes_seq(els.take(k)).len() <= spec_enc_bytes_seq(els).len(),
        data.subrange(pos + 8, pos + 8 + spec_enc_bytes_seq(els).len()) == spec_enc_bytes_seq(els),
        k < els.len() ==> ({
            let off = pos + 8 + spec_enc_bytes_seq(els.take(k)).len();
            &&& off + 8 + els[k].len() <= data.len()
            &&& data.subrange(off, off + 8 + els[k].len()) == spec_enc_bytes(els[k])
        }),
    decreases els.len() - k,
{
    lemma_auto_spec_u64_to_from_le_bytes();
    let body = spec_enc_bytes_seq(els);
    assert(data.subrange(pos + 8, pos + 8 + body.len()) =~= body) by {
        assert forall|i: int|
            #![trigger data.subrange(pos + 8, pos + 8 + body.len())[i]]
            0 <= i < body.len() implies data.subrange(pos + 8, pos + 8 + body.len())[i]
            == body[i] by {
            assert(spec_enc_bytes_list(els)[8 + i] == body[i]);
            assert(data.subrange(pos, pos + spec_enc_bytes_list(els).len())[8 + i] == data[pos + 8
                + i]);
        }
    }
    lemma_enc_bytes_seq_take_len(els, k);
    if k < els.len() {
        lemma_enc_bytes_seq_snoc(els, k);
        lemma_enc_bytes_seq_take_len(els, k + 1);
        let off = pos + 8 + spec_enc_bytes_seq(els.take(k)).len();
        assert(data.subrange(off, off + 8 + els[k].len()) =~= spec_enc_bytes(els[k])) by {
            assert forall|i: int|
                #![trigger data.subrange(off, off + 8 + els[k].len())[i]]
                0 <= i < 8 + els[k].len() implies data.subrange(off, off + 8 + els[k].len())[i]
                == spec_enc_bytes(els[k])[i] by {
                let base = spec_enc_bytes_seq(els.take(k)).len();
                assert(spec_enc_bytes_seq(els.take(k + 1)) == spec_enc_bytes_seq(els.take(k))
                    + spec_enc_bytes(els[k]));
                lemma_enc_bytes_seq_prefix_index(els, k + 1, base + i);
                assert(spec_enc_bytes_seq(els.take(k + 1))[base + i] == spec_enc_bytes(els[k])[i]);
                assert(data.subrange(pos + 8, pos + 8 + body.len())[base + i] == data[pos + 8 + base
                    + i]);
            }
        }
    }
}

/// The encoding of a prefix never exceeds the whole encoding, and agrees
/// with it position by position.
proof fn lemma_enc_bytes_seq_take_len(els: Seq<Seq<u8>>, k: int)
    requires
        0 <= k <= els.len(),
    ensures
        spec_enc_bytes_seq(els.take(k)).len() <= spec_enc_bytes_seq(els).len(),
        forall|i: int|
            0 <= i < spec_enc_bytes_seq(els.take(k)).len() ==> #[trigger] spec_enc_bytes_seq(
                els.take(k),
            )[i] == spec_enc_bytes_seq(els)[i],
    decreases els.len(),
{
    if k == 0 {
        assert(els.take(0) =~= Seq::<Seq<u8>>::empty());
    } else if els.len() > 0 {
        let tail = els.drop_first();
        lemma_enc_bytes_seq_take_len(tail, k - 1);
        assert(els.take(k).first() == els.first());
        assert(els.take(k).drop_first() =~= tail.take(k - 1));
        lemma_auto_spec_u64_to_from_le_bytes();
    }
}

/// Within the encoding of a prefix `take(m)`, every position agrees with
/// the full encoding.
proof fn lemma_enc_bytes_seq_prefix_index(els: Seq<Seq<u8>>, m: int, i: int)
    requires
        0 <= m <= els.len(),
        0 <= i < spec_enc_bytes_seq(els.take(m)).len(),
    ensures
        spec_enc_bytes_seq(els.take(m))[i] == spec_enc_bytes_seq(els)[i],
{
    lemma_enc_bytes_seq_take_len(els, m);
}

/// Decode a UTF-8 byte vector into a `String`.
///
/// Relies on String::from_utf8 of std: it succeeds exactly on valid UTF-8
/// and yields the characters that the bytes encode.
#[verifier::external_body]
pub fn string_from_utf8(bytes: Vec<u8>) -> (r: Option<String>)
    ensures
        r is Some <==> valid_utf8(bytes@),
        r is Some ==> r.unwrap()@ == decode_utf8(bytes@),
{
    String::from_utf8(bytes).ok()
}

/// Read a length-prefixed string at `pos`. Succeeds on exactly the
/// encodings `write_str` produces, and returns the encoded string.
pub fn read_string(data: &[u8], pos: usize) -> (r: Option<(String, usize)>)
    ensures
        r is Some ==> ({
            let (s, p2) = r.unwrap();
            &&& pos <= data@.len()
            &&& p2 <= data@.len()
            &&& p2 == pos + 8 + encode_utf8(s@).len()
            &&& data@.subrange(pos as int, p2 as int) == spec_enc_str(s@)
        }),
        forall|s: Seq<char>|
            #![trigger spec_enc_str(s)]
            pos + 8 + encode_utf8(s).len() <= data@.len() && data@.subrange(
                pos as int,
                pos + 8 + encode_utf8(s).len(),
            ) == spec_enc_str(s) ==> r is Some && r.unwrap().0@ == s && r.unwrap().1 == pos + 8
                + encode_utf8(s).len(),
{
    match read_bytes(data, pos) {
        None => {
            proof {
                assert forall|s: Seq<char>|
                    pos + 8 + encode_utf8(s).len() <= data@.len() && data@.subrange(
                        pos as int,
                        pos + 8 + encode_utf8(s).len(),
                    ) == spec_enc_str(s) implies false by {
                    assert(spec_enc_bytes(encode_utf8(s)) == spec_enc_str(s));
                }
            }
            None
        },
        Some((bytes, p2)) => {
            let ghost bytes_view = bytes@;
            match string_from_utf8(bytes) {
                None => {
                    proof {
                        assert forall|s: Seq<char>|
                            pos + 8 + encode_utf8(s).len() <= data@.len() && data@.subrange(
                                pos as int,
                                pos + 8 + encode_utf8(s).len(),
                            ) == spec_enc_str(s) implies false by {
                            assert(spec_enc_bytes(encode_utf8(s)) == spec_enc_str(s));
                            assert(bytes_view == encode_utf8(s));
                            encode_utf8_valid_utf8(s);
                        }
                    }
                    None
                },
                Some(s) => {
                    proof {
                        decode_utf8_encode_utf8(bytes_view);
                        assert(data@.subrange(pos as int, p2 as int) == spec_enc_str(s@));
                        assert forall|t: Seq<char>|
                            pos + 8 + encode_utf8(t).len() <= data@.len() && data@.subrange(
                                pos as int,
                                pos + 8 + encode_utf8(t).len(),
                            ) == spec_enc_str(t) implies s@ == t && p2 == pos + 8 + encode_utf8(
                            t,
                        ).len() by {
                            assert(spec_enc_bytes(encode_utf8(t)) == spec_enc_str(t));
                            assert(bytes_view == encode_utf8(t));
                            encode_utf8_decode_utf8(t);
                        }
                    }
                    Some((s, p2))
                },
            }
        },
    }
}

} // verus!
