//! The binary form in which a bundle is persisted: a little-endian,
//! length-prefixed record. Decoding is strict (the whole record must be
//! consumed) and decoding an encoded bundle gives the bundle back.

use vstd::prelude::*;

use vstd::bytes::{
    lemma_auto_spec_u16_to_from_le_bytes, lemma_auto_spec_u64_to_from_le_bytes,
    spec_u16_from_le_bytes, spec_u16_to_le_bytes, spec_u64_from_le_bytes, spec_u64_to_le_bytes,
    u16_from_le_bytes, u16_to_le_bytes, u64_from_le_bytes, u64_to_le_bytes,
};
use vstd::slice::{slice_subrange, slice_to_vec};
use vstd::utf8::{decode_utf8, encode_utf8, valid_utf8};

use crate::bundle::{Bundle, BundleCollectionLink, BundleView, CollectionLinkView};

verus! {

/// Version byte that opens every record.
pub const FORMAT_VERSION: u8 = 1;

pub open spec fn enc_list(v: Seq<u64>) -> Seq<u8>
    decreases v.len(),
{
    if v.len() == 0 {
        Seq::empty()
    } else {
        spec_u64_to_le_bytes(v[0]) + enc_list(v.drop_first())
    }
}

pub open spec fn enc_link(c: Option<CollectionLinkView>) -> Seq<u8> {
    match c {
        None => seq![0u8],
        Some(l) => seq![1u8] + spec_u64_to_le_bytes(l.id) + spec_u64_to_le_bytes(
            l.included.len() as u64,
        ) + enc_list(l.included) + spec_u64_to_le_bytes(l.excluded.len() as u64) + enc_list(
            l.excluded,
        ),
    }
}

/// The byte form of a bundle.
pub open spec fn enc_bundle(b: BundleView) -> Seq<u8> {
    seq![FORMAT_VERSION] + spec_u16_to_le_bytes(b.id) + spec_u64_to_le_bytes(b.updated as u64)
        + spec_u64_to_le_bytes(encode_utf8(b.name).len() as u64) + encode_utf8(b.name) + enc_link(
        b.collection,
    ) + spec_u64_to_le_bytes(b.items.len() as u64) + enc_list(b.items)
}

/// Lengths a record can carry; every real bundle satisfies it.
pub open spec fn enc_fits(b: BundleView) -> bool {
    &&& encode_utf8(b.name).len() <= u64::MAX
    &&& b.items.len() <= u64::MAX
    &&& match b.collection {
        Some(l) => l.included.len() <= u64::MAX && l.excluded.len() <= u64::MAX,
        None => true,
    }
}

pub open spec fn rd_u8(bytes: Seq<u8>, off: int) -> Option<(u8, int)> {
    if 0 <= off && off + 1 <= bytes.len() {
        Some((bytes[off], off + 1))
    } else {
        None
    }
}

pub open spec fn rd_u16(bytes: Seq<u8>, off: int) -> Option<(u16, int)> {
    if 0 <= off && off + 2 <= bytes.len() {
        Some((spec_u16_from_le_bytes(bytes.subrange(off, off + 2)), off + 2))
    } else {
        None
    }
}

pub open spec fn rd_u64(bytes: Seq<u8>, off: int) -> Option<(u64, int)> {
    if 0 <= off && off + 8 <= bytes.len() {
        Some((spec_u64_from_le_bytes(bytes.subrange(off, off + 8)), off + 8))
    } else {
        None
    }
}

pub open spec fn rd_bytes(bytes: Seq<u8>, off: int, n: int) -> Option<(Seq<u8>, int)> {
    if 0 <= off && 0 <= n && off + n <= bytes.len() {
        Some((bytes.subrange(off, off + n), off + n))
    } else {
        None
    }
}

pub open spec fn rd_list(bytes: Seq<u8>, off: int, n: nat) -> Option<(Seq<u64>, int)>
    decreases n,
{
    if n == 0 {
        Some((Seq::empty(), off))
    } else {
        match rd_u64(bytes, off) {
            None => None,
            Some((x, o1)) => match rd_list(bytes, o1, (n - 1) as nat) {
                None => None,
                Some((v, o2)) => Some((seq![x] + v, o2)),
            },
        }
    }
}

pub open spec fn rd_counted_list(bytes: Seq<u8>, off: int) -> Option<(Seq<u64>, int)> {
    match rd_u64(bytes, off) {
        None => None,
        Some((n, o1)) => rd_list(bytes, o1, n as nat),
    }
}

pub open spec fn rd_link(bytes: Seq<u8>, off: int) -> Option<(Option<CollectionLinkView>, int)> {
    match rd_u8(bytes, off) {
        None => None,
        Some((tag, o1)) => if tag == 0 {
            Some((None, o1))
        } else if tag == 1 {
            match rd_u64(bytes, o1) {
                None => None,
                Some((id, o2)) => match rd_counted_list(bytes, o2) {
                    None => None,
                    Some((incd, o3)) => match rd_counted_list(bytes, o3) {
                        None => None,
                        Some((excd, o4)) => Some(
                            (Some(CollectionLinkView { id, included: incd, excluded: excd }), o4),
                        ),
                    },
                },
            }
        } else {
            None
        },
    }
}

/// The bundle a record holds; `None` where the record is malformed.
pub open spec fn dec_bundle(bytes: Seq<u8>) -> Option<BundleView> {
    match rd_u8(bytes, 0) {
        None => None,
        Some((ver, o1)) => if ver != FORMAT_VERSION {
            None
        } else {
            match rd_u16(bytes, o1) {
                None => None,
                Some((id, o2)) => match rd_u64(bytes, o2) {
                    None => None,
                    Some((upd, o3)) => match rd_u64(bytes, o3) {
                        None => None,
                        Some((nlen, o4)) => match rd_bytes(bytes, o4, nlen as int) {
                            None => None,
                            Some((nb, o5)) => if !valid_utf8(nb) {
                                None
                            } else {
                                match rd_link(bytes, o5) {
                                    None => None,
                                    Some((coll, o6)) => match rd_counted_list(bytes, o6) {
                                        None => None,
                                        Some((items, o7)) => if o7 == bytes.len() {
                                            Some(
                                                BundleView {
                                                    id,
                                                    name: decode_utf8(nb),
                                                    updated: upd as i64,
                                                    collection: coll,
                                                    items,
                                                },
                                            )
                                        } else {
                                            None
                                        },
                                    },
                                }
                            },
                        },
                    },
                },
            }
        },
    }
}

proof fn lemma_enc_list_len(v: Seq<u64>)
    ensures
        enc_list(v).len() == 8 * v.len(),
    decreases v.len(),
{
    lemma_auto_spec_u64_to_from_le_bytes();
    if v.len() > 0 {
        lemma_enc_list_len(v.drop_first());
    }
}

/// Reading `v.len()` values out of the bytes that encode `v` gives `v` back.
proof fn lemma_rd_enc_list(bytes: Seq<u8>, off: int, v: Seq<u64>)
    requires
        0 <= off,
        off + 8 * v.len() <= bytes.len(),
        bytes.subrange(off, off + 8 * v.len()) == enc_list(v),
    ensures
        rd_list(bytes, off, v.len()) == Some((v, off + 8 * v.len())),
    decreases v.len(),
{
    lemma_auto_spec_u64_to_from_le_bytes();
    lemma_enc_list_len(v);
    if v.len() > 0 {
        lemma_enc_list_len(v.drop_first());
        assert(enc_list(v) == spec_u64_to_le_bytes(v[0]) + enc_list(v.drop_first()));
        assert forall|i: int| 0 <= i < 8 * v.len() implies bytes[off + i] == enc_list(v)[i] by {
            assert(bytes.subrange(off, off + 8 * v.len())[i] == bytes[off + i]);
        }
        assert(bytes.subrange(off, off + 8) =~= spec_u64_to_le_bytes(v[0]));
        assert(rd_u64(bytes, off) == Some((v[0], off + 8)));
        assert forall|i: int| 0 <= i < 8 * v.len() - 8 implies bytes.subrange(
            off + 8,
            off + 8 * v.len(),
        )[i] == enc_list(v.drop_first())[i] by {
            assert((spec_u64_to_le_bytes(v[0]) + enc_list(v.drop_first()))[8 + i] == enc_list(
                v.drop_first(),
            )[i]);
            assert(bytes[off + 8 + i] == enc_list(v)[8 + i]);
        }
        assert(bytes.subrange(off + 8, off + 8 * v.len()) =~= enc_list(v.drop_first()));
        lemma_rd_enc_list(bytes, off + 8, v.drop_first());
        assert(seq![v[0]] + v.drop_first() =~= v);
    } else {
        assert(rd_list(bytes, off, 0) == Some((Seq::<u64>::empty(), off)));
        assert(v =~= Seq::<u64>::empty());
    }
}

/// Reading a count and then that many values out of the bytes that encode a
/// counted list gives the list back.
proof fn lemma_rd_enc_counted(bytes: Seq<u8>, off: int, v: Seq<u64>)
    requires
        0 <= off,
        v.len() <= u64::MAX,
        off + 8 + 8 * v.len() <= bytes.len(),
        bytes.subrange(off, off + 8 + 8 * v.len()) == spec_u64_to_le_bytes(v.len() as u64)
            + enc_list(v),
    ensures
        rd_counted_list(bytes, off) == Some((v, off + 8 + 8 * v.len())),
{
    lemma_auto_spec_u64_to_from_le_bytes();
    lemma_enc_list_len(v);
    let seg = spec_u64_to_le_bytes(v.len() as u64) + enc_list(v);
    assert forall|i: int| 0 <= i < 8 + 8 * v.len() implies bytes[off + i] == seg[i] by {
        assert(bytes.subrange(off, off + 8 + 8 * v.len())[i] == bytes[off + i]);
    }
    assert(bytes.subrange(off, off + 8) =~= spec_u64_to_le_bytes(v.len() as u64));
    assert(rd_u64(bytes, off) == Some((v.len() as u64, off + 8)));
    assert forall|i: int| 0 <= i < 8 * v.len() implies bytes.subrange(
        off + 8,
        off + 8 + 8 * v.len(),
    )[i] == enc_list(v)[i] by {
        assert(seg[8 + i] == enc_list(v)[i]);
        assert(bytes[off + 8 + i] == seg[8 + i]);
    }
    assert(bytes.subrange(off + 8, off + 8 + 8 * v.len()) =~= enc_list(v));
    lemma_rd_enc_list(bytes, off + 8, v);
}

/// Decoding an encoded bundle gives the bundle back.
pub proof fn lemma_binfmt_round_trip(b: BundleView)
    requires
        enc_fits(b),
    ensures
        dec_bundle(enc_bundle(b)) == Some(b),
{
    broadcast use vstd::utf8::encode_utf8_valid_utf8, vstd::utf8::encode_utf8_decode_utf8;

    lemma_auto_spec_u16_to_from_le_bytes();
    lemma_auto_spec_u64_to_from_le_bytes();
    let bytes = enc_bundle(b);
    let nb = encode_utf8(b.name);
    let nlen = nb.len() as int;
    lemma_enc_list_len(b.items);
    let link = enc_link(b.collection);
    let o5 = 19 + nlen;
    let o6 = o5 + link.len();
    assert(bytes.len() == o6 + 8 + 8 * b.items.len());
    assert(bytes[0] == FORMAT_VERSION);
    assert(rd_u8(bytes, 0) == Some((FORMAT_VERSION, 1int)));
    assert(bytes.subrange(1, 3) =~= spec_u16_to_le_bytes(b.id));
    assert(rd_u16(bytes, 1) == Some((b.id, 3int)));
    assert(bytes.subrange(3, 11) =~= spec_u64_to_le_bytes(b.updated as u64));
    assert(rd_u64(bytes, 3) == Some((b.updated as u64, 11int)));
    let u = b.updated;
    assert(((u as u64) as i64) == u) by (bit_vector);
    assert(bytes.subrange(11, 19) =~= spec_u64_to_le_bytes(nb.len() as u64));
    assert(rd_u64(bytes, 11) == Some((nb.len() as u64, 19int)));
    assert((nb.len() as u64) as int == nlen);
    assert(bytes.subrange(19, 19 + nlen) =~= nb);
    assert(rd_bytes(bytes, 19, nlen) == Some((nb, o5)));
    assert(valid_utf8(nb));
    assert(decode_utf8(nb) == b.name);
    match b.collection {
        None => {
            assert(link =~= seq![0u8]);
            assert(bytes[o5] == 0u8);
            assert(rd_u8(bytes, o5) == Some((0u8, o5 + 1)));
            assert(rd_link(bytes, o5) == Some((None::<CollectionLinkView>, o6)));
        },
        Some(l) => {
            lemma_enc_list_len(l.included);
            lemma_enc_list_len(l.excluded);
            assert(bytes[o5] == 1u8);
            assert(rd_u8(bytes, o5) == Some((1u8, o5 + 1)));
            assert(bytes.subrange(o5 + 1, o5 + 9) =~= spec_u64_to_le_bytes(l.id));
            assert(rd_u64(bytes, o5 + 1) == Some((l.id, o5 + 9)));
            let oi = o5 + 9 + 8 + 8 * l.included.len();
            assert(bytes.subrange(o5 + 9, oi) =~= spec_u64_to_le_bytes(l.included.len() as u64)
                + enc_list(l.included));
            lemma_rd_enc_counted(bytes, o5 + 9, l.included);
            assert(bytes.subrange(oi, oi + 8 + 8 * l.excluded.len()) =~= spec_u64_to_le_bytes(
                l.excluded.len() as u64,
            ) + enc_list(l.excluded));
            lemma_rd_enc_counted(bytes, oi, l.excluded);
            assert(rd_link(bytes, o5) == Some((Some(l), o6)));
        },
    }
    assert(bytes.subrange(o6, o6 + 8 + 8 * b.items.len()) =~= spec_u64_to_le_bytes(
        b.items.len() as u64,
    ) + enc_list(b.items));
    lemma_rd_enc_counted(bytes, o6, b.items);
    assert(dec_bundle(bytes) == Some(b));
}

proof fn lemma_enc_list_push(v: Seq<u64>, x: u64)
    ensures
        enc_list(v.push(x)) == enc_list(v) + spec_u64_to_le_bytes(x),
    decreases v.len(),
{
    if v.len() == 0 {
        assert(v.push(x).drop_first() =~= Seq::<u64>::empty());
        assert(v.push(x)[0] == x);
        assert(enc_list(Seq::<u64>::empty()) == Seq::<u8>::empty());
        assert(enc_list(v.push(x)) =~= spec_u64_to_le_bytes(x));
        assert(enc_list(v) + spec_u64_to_le_bytes(x) =~= spec_u64_to_le_bytes(x));
    } else {
        lemma_enc_list_push(v.drop_first(), x);
        assert(v.push(x).drop_first() =~= v.drop_first().push(x));
        assert(v.push(x)[0] == v[0]);
        assert(enc_list(v.push(x)) =~= enc_list(v) + spec_u64_to_le_bytes(x));
    }
}

/// Appends the encoding of `v`, length prefix included.
fn write_counted_list(out: &mut Vec<u8>, v: &Vec<u64>)
    ensures
        final(out)@ == old(out)@ + spec_u64_to_le_bytes(v@.len() as u64) + enc_list(v@),
{
    let ghost base = out@;
    let mut lenb = u64_to_le_bytes(v.len() as u64);
    out.append(&mut lenb);
    let mut i: usize = 0;
    proof {
        assert(enc_list(v@.take(0)) =~= Seq::<u8>::empty());
        assert(out@ =~= base + spec_u64_to_le_bytes(v@.len() as u64) + enc_list(v@.take(0)));
    }
    while i < v.len()
        invariant
            i <= v@.len(),
            out@ == base + spec_u64_to_le_bytes(v@.len() as u64) + enc_list(v@.take(i as int)),
        decreases v@.len() - i,
    {
        let mut xb = u64_to_le_bytes(v[i]);
        out.append(&mut xb);
        proof {
            lemma_enc_list_push(v@.take(i as int), v@[i as int]);
            assert(v@.take(i as int).push(v@[i as int]) =~= v@.take(i as int + 1));
            assert(out@ =~= base + spec_u64_to_le_bytes(v@.len() as u64) + enc_list(
                v@.take(i as int + 1),
            ));
        }
        i = i + 1;
    }
    proof {
        assert(v@.take(v@.len() as int) =~= v@);
    }
}

/// Serializes a bundle to its persistent byte form.
pub fn encode_bundle(b: &Bundle) -> (r: Vec<u8>)
    ensures
        r@ == enc_bundle(b@),
{
    let mut out: Vec<u8> = Vec::new();
    out.push(FORMAT_VERSION);
    let mut idb = u16_to_le_bytes(b.id);
    out.append(&mut idb);
    let mut updb = u64_to_le_bytes(b.updated as u64);
    out.append(&mut updb);
    let name_bytes = slice_to_vec(b.name.as_str().as_bytes());
    let mut nlenb = u64_to_le_bytes(name_bytes.len() as u64);
    out.append(&mut nlenb);
    let mut nb = name_bytes;
    out.append(&mut nb);
    match &b.collection {
        None => {
            out.push(0u8);
        },
        Some(l) => {
            out.push(1u8);
            let mut cid = u64_to_le_bytes(l.id);
            out.append(&mut cid);
            write_counted_list(&mut out, &l.included);
            write_counted_list(&mut out, &l.excluded);
        },
    }
    write_counted_list(&mut out, &b.items);
    proof {
        assert(out@ =~= enc_bundle(b@));
    }
    out
}

/// Relies on String::from_utf8: succeeds exactly on valid UTF-8 and decodes
/// it to the characters that the bytes encode.
#[verifier::external_body]
fn string_from_utf8(v: Vec<u8>) -> (r: Option<String>)
    ensures
        r is Some <==> valid_utf8(v@),
        r matches Some(s) ==> s@ == decode_utf8(v@),
{
    String::from_utf8(v).ok()
}

/// Reads `n` little-endian 64-bit values starting at `*off`.
fn read_list(bytes: &Vec<u8>, off: &mut usize, n: u64) -> (r: Option<Vec<u64>>)
    requires
        *old(off) <= bytes@.len(),
    ensures
        *final(off) <= bytes@.len(),
        match r {
            Some(v) => rd_list(bytes@, *old(off) as int, n as nat) == Some(
                (v@, *final(off) as int),
            ),
            None => rd_list(bytes@, *old(off) as int, n as nat) is None,
        },
{
    let ghost off0 = *off as int;
    let mut v: Vec<u64> = Vec::new();
    let mut k: u64 = 0;
    while k < n
        invariant
            k <= n,
            *off <= bytes@.len(),
            off0 == *old(off) as int,
            ({
                let rest = rd_list(bytes@, *off as int, (n - k) as nat);
                let whole = rd_list(bytes@, off0, n as nat);
                match rest {
                    Some(p) => whole == Some((v@ + p.0, p.1)),
                    None => whole is None,
                }
            }),
        decreases n - k,
    {
        if bytes.len() - *off < 8 {
            proof {
                assert(rd_u64(bytes@, *off as int) is None);
                assert(rd_list(bytes@, *off as int, (n - k) as nat) is None);
            }
            return None;
        }
        let x = u64_from_le_bytes(slice_subrange(bytes.as_slice(), *off, *off + 8));
        proof {
            let rest2 = rd_list(bytes@, *off as int + 8, (n - k - 1) as nat);
            match rest2 {
                Some(p) => {
                    assert(v@ + (seq![x] + p.0) =~= v@.push(x) + p.0);
                },
                None => {
                },
            }
        }
        v.push(x);
        *off = *off + 8;
        k = k + 1;
    }
    proof {
        assert(rd_list(bytes@, *off as int, 0) == Some((Seq::<u64>::empty(), *off as int)));
        assert(v@ + Seq::<u64>::empty() =~= v@);
    }
    Some(v)
}

/// Reads a length-prefixed list starting at `*off`.
fn read_counted_list(bytes: &Vec<u8>, off: &mut usize) -> (r: Option<Vec<u64>>)
    requires
        *old(off) <= bytes@.len(),
    ensures
        *final(off) <= bytes@.len(),
        match r {
            Some(v) => rd_counted_list(bytes@, *old(off) as int) == Some(
                (v@, *final(off) as int),
            ),
            None => rd_counted_list(bytes@, *old(off) as int) is None,
        },
{
    if bytes.len() - *off < 8 {
        return None;
    }
    let n = u64_from_le_bytes(slice_subrange(bytes.as_slice(), *off, *off + 8));
    *off = *off + 8;
    read_list(bytes, off, n)
}

/// Deserializes a bundle from its persistent byte form; `None` where the
/// record is malformed.
pub fn decode_bundle(bytes: &Vec<u8>) -> (r: Option<Bundle>)
    ensures
        match r {
            Some(b) => dec_bundle(bytes@) == Some(b@),
            None => dec_bundle(bytes@) is None,
        },
{
    let len = bytes.len();
    if len < 1 {
        return None;
    }
    let ver = bytes[0];
    if ver != FORMAT_VERSION {
        return None;
    }
    let mut off: usize = 1;
    if len - off < 2 {
        return None;
    }
    let id = u16_from_le_bytes(slice_subrange(bytes.as_slice(), off, off + 2));
    off = off + 2;
    if len - off < 8 {
        return None;
    }
    let upd_bits = u64_from_le_bytes(slice_subrange(bytes.as_slice(), off, off + 8));
    off = off + 8;
    if len - off < 8 {
        return None;
    }
    let nlen = u64_from_le_bytes(slice_subrange(bytes.as_slice(), off, off + 8));
    off = off + 8;
    if nlen > (len - off) as u64 {
        return None;
    }
    let nlen_us = nlen as usize;
    let name_bytes = slice_to_vec(slice_subrange(bytes.as_slice(), off, off + nlen_us));
    off = off + nlen_us;
    let name = match string_from_utf8(name_bytes) {
        Some(s) => s,
        None => {
            return None;
        },
    };
    if len - off < 1 {
        return None;
    }
    let tag = bytes[off];
    off = off + 1;
    let collection: Option<BundleCollectionLink> = if tag == 0 {
        None
    } else if tag == 1 {
        if len - off < 8 {
            return None;
        }
        let cid = u64_from_le_bytes(slice_subrange(bytes.as_slice(), off, off + 8));
        off = off + 8;
        let included = match read_counted_list(bytes, &mut off) {
            Some(v) => v,
            None => {
                return None;
            },
        };
        let excluded = match read_counted_list(bytes, &mut off) {
            Some(v) => v,
            None => {
                return None;
            },
        };
        Some(BundleCollectionLink { id: cid, included, excluded })
    } else {
        return None;
    };
    let items = match read_counted_list(bytes, &mut off) {
        Some(v) => v,
        None => {
            return None;
        },
    };
    if off != len {
        return None;
    }
    let b = Bundle { id, name, updated: upd_bits as i64, collection, items };
    Some(b)
}

} // verus!
